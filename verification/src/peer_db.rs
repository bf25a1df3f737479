//! The peer database: an in-memory bidirectional index of peers and the
//! content hashes they seed, with upsert, lookup, expiry and garbage
//! collection of peerless hashes.

use vstd::prelude::*;
use crate::address::AddrModel;
use crate::address::PeerAddress;
use crate::address::bytes_dup;
use crate::assoc::assoc_map;
use crate::assoc::distinct_keys;
use crate::assoc::lemma_assoc_contains;
use crate::assoc::lemma_assoc_index;
use crate::assoc::lemma_assoc_push;
use crate::assoc::lemma_assoc_update;
use crate::assoc::lemma_assoc_remove_idx;
use crate::assoc::lemma_assoc_filter;
use crate::assoc::lemma_assoc_filter_distinct;
use crate::assoc::lemma_assoc_len;
use crate::assoc::lemma_seq_push_contains;
use crate::assoc::lemma_filter_push;

verus! {

/// An opaque content identifier, used as a lookup key.
#[derive(Debug, PartialEq, Eq)]
pub struct Hash(pub Vec<u8>);

impl View for Hash {
    type V = Seq<u8>;

    open spec fn view(&self) -> Seq<u8> {
        self.0@
    }
}

impl Clone for Hash {
    fn clone(&self) -> (r: Self)
        ensures
            r@ == self@,
    {
        Hash(bytes_dup(&self.0))
    }
}

/// A registered endpoint: when it was first seen and when it last announced.
#[derive(Debug)]
pub struct Peer {
    pub address: PeerAddress,
    pub date_added: u64,
    pub last_seen: u64,
}

/// The mathematical model of a registered peer.
pub struct PeerModel {
    pub address: AddrModel,
    pub date_added: u64,
    pub last_seen: u64,
}

impl View for Peer {
    type V = PeerModel;

    open spec fn view(&self) -> PeerModel {
        PeerModel { address: self.address@, date_added: self.date_added, last_seen: self.last_seen }
    }
}

impl Clone for Peer {
    fn clone(&self) -> (r: Self)
        ensures
            r@ == self@,
    {
        Peer {
            address: self.address.clone(),
            date_added: self.date_added,
            last_seen: self.last_seen,
        }
    }
}

/// A known content hash and when it was first mentioned.
#[derive(Debug)]
pub struct StoredHash {
    pub hash: Hash,
    pub date_added: u64,
}

/// One link between a peer and a hash it seeds.
struct Link {
    address: PeerAddress,
    hash: Hash,
}

/// The mathematical model of the database: two maps and the linkage
/// relation between their keys.
pub struct DbModel {
    pub peers: Map<AddrModel, PeerModel>,
    pub hashes: Map<Seq<u8>, u64>,
    pub links: Set<(AddrModel, Seq<u8>)>,
}

impl DbModel {
    /// The peers seeding a hash.
    pub open spec fn hash_peers(self, h: Seq<u8>) -> Set<AddrModel> {
        Set::new(|a: AddrModel| self.links.contains((a, h)))
    }

    /// The hashes a peer seeds.
    pub open spec fn peer_hashes(self, a: AddrModel) -> Set<Seq<u8>> {
        Set::new(|h: Seq<u8>| self.links.contains((a, h)))
    }

    /// Every link joins a registered peer to a known hash, and each peer
    /// record carries the address it is keyed under.
    pub open spec fn inv(self) -> bool {
        &&& forall|e: (AddrModel, Seq<u8>)| #[trigger] self.links.contains(e)
            ==> self.peers.contains_key(e.0) && self.hashes.contains_key(e.1)
        &&& forall|a: AddrModel| #[trigger] self.peers.contains_key(a) ==> self.peers[a].address
            == a
    }
}

pub open spec fn peer_entries(s: Seq<Peer>) -> Seq<(AddrModel, PeerModel)> {
    s.map_values(|p: Peer| (p.address@, p@))
}

pub open spec fn hash_entries(s: Seq<StoredHash>) -> Seq<(Seq<u8>, u64)> {
    s.map_values(|h: StoredHash| (h.hash@, h.date_added))
}

spec fn link_entries(s: Seq<Link>) -> Seq<((AddrModel, Seq<u8>), ())> {
    s.map_values(|l: Link| ((l.address@, l.hash@), ()))
}

/// The views of a list of hashes.
pub open spec fn hash_views(s: Seq<Hash>) -> Seq<Seq<u8>> {
    s.map_values(|h: Hash| h@)
}

/// The record an upsert leaves at the peer's address: a known address keeps
/// its first-seen date, a new one is taken as announced.
pub open spec fn upserted_peer(pre: Map<AddrModel, PeerModel>, p: PeerModel) -> PeerModel {
    PeerModel {
        address: p.address,
        date_added: if pre.contains_key(p.address) {
            pre[p.address].date_added
        } else {
            p.date_added
        },
        last_seen: p.last_seen,
    }
}

/// The hash table after an announce: the listed hashes join it, dated `now`
/// when new, and known hashes keep their dates.
pub open spec fn upserted_hashes(pre: Map<Seq<u8>, u64>, hs: Seq<Seq<u8>>, now: u64) -> Map<
    Seq<u8>,
    u64,
> {
    Map::new(
        |h: Seq<u8>| pre.contains_key(h) || hs.contains(h),
        |h: Seq<u8>|
            if pre.contains_key(h) {
                pre[h]
            } else {
                now
            },
    )
}

/// The linkage after an announce: one link from the peer to each listed hash
/// joins the relation.
pub open spec fn added_links(
    pre: Set<(AddrModel, Seq<u8>)>,
    a: AddrModel,
    hs: Seq<Seq<u8>>,
) -> Set<(AddrModel, Seq<u8>)> {
    pre + Set::new(|e: (AddrModel, Seq<u8>)| e.0 == a && hs.contains(e.1))
}

/// The linkage after a peer leaves: its links go with it.
pub open spec fn links_without_peer(pre: Set<(AddrModel, Seq<u8>)>, a: AddrModel) -> Set<
    (AddrModel, Seq<u8>),
> {
    Set::new(|e: (AddrModel, Seq<u8>)| pre.contains(e) && e.0 != a)
}

/// The peers that announced at or after the cutoff.
pub open spec fn live_peers(pre: Map<AddrModel, PeerModel>, cutoff: u64) -> Map<
    AddrModel,
    PeerModel,
> {
    Map::new(
        |a: AddrModel| pre.contains_key(a) && pre[a].last_seen >= cutoff,
        |a: AddrModel| pre[a],
    )
}

/// The links whose peer is still registered.
pub open spec fn links_of_peers(
    pre: Set<(AddrModel, Seq<u8>)>,
    peers: Map<AddrModel, PeerModel>,
) -> Set<(AddrModel, Seq<u8>)> {
    Set::new(|e: (AddrModel, Seq<u8>)| pre.contains(e) && peers.contains_key(e.0))
}

/// The hashes that still have at least one seeder.
pub open spec fn seeded_hashes(pre: Map<Seq<u8>, u64>, links: Set<(AddrModel, Seq<u8>)>) -> Map<
    Seq<u8>,
    u64,
> {
    Map::new(
        |h: Seq<u8>| pre.contains_key(h) && exists|a: AddrModel| links.contains((a, h)),
        |h: Seq<u8>| pre[h],
    )
}

/// The representation invariant keeps the model-level linkage invariant.
pub proof fn lemma_inv_model(db: &PeerDB)
    requires
        db.inv(),
    ensures
        db@.inv(),
{
}

/// The whole database after one upsert: what `update_peer` leaves behind.
pub open spec fn upsert_model(d: DbModel, p: PeerModel, hs: Seq<Seq<u8>>, now: u64) -> DbModel {
    DbModel {
        peers: d.peers.insert(p.address, upserted_peer(d.peers, p)),
        hashes: upserted_hashes(d.hashes, hs, now),
        links: added_links(d.links, p.address, hs),
    }
}

/// The whole database after one removal: what `remove_peer` leaves behind.
pub open spec fn remove_model(d: DbModel, a: AddrModel) -> DbModel {
    DbModel { peers: d.peers.remove(a), hashes: d.hashes, links: links_without_peer(d.links, a) }
}

/// A list is a snapshot of the registered peers: one record per registered
/// address, each the registry's record, in some order.
pub open spec fn peers_snapshot_ok(ps: Seq<Peer>, peers: Map<AddrModel, PeerModel>) -> bool {
    &&& ps.len() == peers.dom().len()
    &&& forall|i: int| 0 <= i < ps.len() ==> peers.contains_key((#[trigger] ps[i])@.address)
        && ps[i]@ == peers[ps[i]@.address]
    &&& forall|a: AddrModel| #[trigger] peers.contains_key(a) ==> exists|i: int|
        0 <= i < ps.len() && ps[i]@.address == a
}

/// A list is a snapshot of a hash's seeders: exactly the registered records
/// of the addresses linked to the hash, without repetition, in some order.
pub open spec fn hash_seeders_ok(ps: Seq<Peer>, d: DbModel, h: Seq<u8>) -> bool {
    &&& forall|i: int| 0 <= i < ps.len() ==> {
        &&& d.links.contains(((#[trigger] ps[i])@.address, h))
        &&& d.peers.contains_key(ps[i]@.address)
        &&& ps[i]@ == d.peers[ps[i]@.address]
    }
    &&& forall|a: AddrModel| #[trigger] d.links.contains((a, h)) ==> exists|i: int|
        0 <= i < ps.len() && ps[i]@.address == a
    &&& forall|i: int, j: int| 0 <= i < j < ps.len() ==> (#[trigger] ps[i])@.address != (
    #[trigger] ps[j])@.address
}

/// A list is a snapshot of the known hashes with their seeder counts: one
/// entry per known hash, in some order.
pub open spec fn hash_counts_ok(out: Seq<(Hash, usize)>, d: DbModel) -> bool {
    &&& out.len() == d.hashes.dom().len()
    &&& forall|i: int| 0 <= i < out.len() ==> d.hashes.contains_key((#[trigger] out[i]).0@)
        && out[i].1 == d.hash_peers(out[i].0@).len()
    &&& forall|h: Seq<u8>| #[trigger] d.hashes.contains_key(h) ==> exists|i: int|
        0 <= i < out.len() && out[i].0@ == h
}

/// The in-memory database: three tables held as entry vectors with
/// pairwise distinct keys.
pub struct PeerDB {
    peers: Vec<Peer>,
    hashes: Vec<StoredHash>,
    links: Vec<Link>,
}

impl View for PeerDB {
    type V = DbModel;

    closed spec fn view(&self) -> DbModel {
        DbModel {
            peers: assoc_map(peer_entries(self.peers@)),
            hashes: assoc_map(hash_entries(self.hashes@)),
            links: assoc_map(link_entries(self.links@)).dom(),
        }
    }
}

/// The kind of database backing this build provides.
pub fn get_peer_db_type() -> (r: &'static str)
    ensures
        r@ == "Basic"@,
{
    "Basic"
}

impl PeerDB {
    /// The representation invariant: distinct keys in every table, and the
    /// model-level linkage invariant.
    pub closed spec fn inv(&self) -> bool {
        &&& distinct_keys(peer_entries(self.peers@))
        &&& distinct_keys(hash_entries(self.hashes@))
        &&& distinct_keys(link_entries(self.links@))
        &&& self@.inv()
    }

    /// An empty database.
    pub fn new() -> (r: Result<PeerDB, ()>)
        ensures
            r is Ok,
            (r->Ok_0).inv(),
            (r->Ok_0)@.peers == Map::<AddrModel, PeerModel>::empty(),
            (r->Ok_0)@.hashes == Map::<Seq<u8>, u64>::empty(),
            (r->Ok_0)@.links == Set::<(AddrModel, Seq<u8>)>::empty(),
    {
        let db = PeerDB { peers: Vec::new(), hashes: Vec::new(), links: Vec::new() };
        proof {
            assert(peer_entries(db.peers@) =~= Seq::<(AddrModel, PeerModel)>::empty());
            assert(hash_entries(db.hashes@) =~= Seq::<(Seq<u8>, u64)>::empty());
            assert(link_entries(db.links@) =~= Seq::<((AddrModel, Seq<u8>), ())>::empty());
            assert(db@.links =~= Set::<(AddrModel, Seq<u8>)>::empty());
        }
        Ok(db)
    }

    /// Index of the peer with the given address, if any.
    fn find_peer_idx(&self, address: &PeerAddress) -> (r: Option<usize>)
        ensures
            match r {
                Some(i) => i < self.peers@.len() && self.peers@[i as int].address@ == address@,
                None => forall|j: int| 0 <= j < self.peers@.len() ==> (#[trigger] self.peers@[
                    j]).address@ != address@,
            },
    {
        let mut i: usize = 0;
        while i < self.peers.len()
            invariant
                0 <= i <= self.peers@.len(),
                forall|j: int| 0 <= j < i ==> (#[trigger] self.peers@[j]).address@ != address@,
            decreases self.peers@.len() - i,
        {
            if self.peers[i].address.addr_eq(address) {
                return Some(i);
            }
            i += 1;
        }
        None
    }

    fn find_hash_idx(&self, hash: &Hash) -> (r: Option<usize>)
        ensures
            match r {
                Some(i) => i < self.hashes@.len() && self.hashes@[i as int].hash@ == hash@,
                None => forall|j: int| 0 <= j < self.hashes@.len() ==> (#[trigger] self.hashes@[
                    j]).hash@ != hash@,
            },
    {
        let mut i: usize = 0;
        while i < self.hashes.len()
            invariant
                0 <= i <= self.hashes@.len(),
                forall|j: int| 0 <= j < i ==> (#[trigger] self.hashes@[j]).hash@ != hash@,
            decreases self.hashes@.len() - i,
        {
            if crate::address::bytes_eq(&self.hashes[i].hash.0, &hash.0) {
                return Some(i);
            }
            i += 1;
        }
        None
    }

    fn find_link_idx(&self, address: &PeerAddress, hash: &Hash) -> (r: Option<usize>)
        ensures
            match r {
                Some(i) => i < self.links@.len() && self.links@[i as int].address@ == address@
                    && self.links@[i as int].hash@ == hash@,
                None => forall|j: int| 0 <= j < self.links@.len() ==> !((#[trigger] self.links@[
                    j]).address@ == address@ && self.links@[j].hash@ == hash@),
            },
    {
        let mut i: usize = 0;
        while i < self.links.len()
            invariant
                0 <= i <= self.links@.len(),
                forall|j: int| 0 <= j < i ==> !((#[trigger] self.links@[j]).address@ == address@
                    && self.links@[j].hash@ == hash@),
            decreases self.links@.len() - i,
        {
            if self.links[i].address.addr_eq(address) && crate::address::bytes_eq(
                &self.links[i].hash.0, &hash.0) {
                return Some(i);
            }
            i += 1;
        }
        None
    }

    /// Value copy of the peer registered at an address.
    pub fn get_peer(&self, peer_address: &PeerAddress) -> (r: Result<Option<Peer>, ()>)
        requires
            self.inv(),
        ensures
            r is Ok,
            match r->Ok_0 {
                Some(p) => self@.peers.contains_key(peer_address@) && p@ == self@.peers[
                    peer_address@],
                None => !self@.peers.contains_key(peer_address@),
            },
    {
        proof {
            lemma_assoc_contains(peer_entries(self.peers@), peer_address@);
        }
        match self.find_peer_idx(peer_address) {
            Some(i) => {
                proof {
                    lemma_assoc_index(peer_entries(self.peers@), i as int);
                }
                Ok(Some(self.peers[i].clone()))
            },
            None => {
                proof {
                    assert forall|j: int| 0 <= j < peer_entries(self.peers@).len() implies (
                    #[trigger] peer_entries(self.peers@)[j]).0 != peer_address@ by {
                        assert(peer_entries(self.peers@)[j].0 == self.peers@[j].address@);
                    }
                }
                Ok(None)
            },
        }
    }

    /// How many peers are registered.
    pub fn get_peer_count(&self) -> (r: Result<usize, ()>)
        requires
            self.inv(),
        ensures
            r is Ok,
            r->Ok_0 == self@.peers.dom().len(),
    {
        proof {
            lemma_assoc_len(peer_entries(self.peers@));
        }
        Ok(self.peers.len())
    }

    /// How many hashes are known.
    pub fn get_hash_count(&self) -> (r: Result<usize, ()>)
        requires
            self.inv(),
        ensures
            r is Ok,
            r->Ok_0 == self@.hashes.dom().len(),
    {
        proof {
            lemma_assoc_len(hash_entries(self.hashes@));
        }
        Ok(self.hashes.len())
    }

    /// Records a hash if it is not yet known, dating it `now`.
    pub fn insert_hash(&mut self, hash: &Hash, now: u64)
        requires
            old(self).inv(),
        ensures
            final(self).inv(),
            final(self)@.hashes == (if old(self)@.hashes.contains_key(hash@) {
                old(self)@.hashes
            } else {
                old(self)@.hashes.insert(hash@, now)
            }),
            final(self)@.peers == old(self)@.peers,
            final(self)@.links == old(self)@.links,
    {
        proof {
            lemma_assoc_contains(hash_entries(self.hashes@), hash@);
        }
        match self.find_hash_idx(hash) {
            Some(_) => {
                proof {
                    assert(exists|i: int| 0 <= i < hash_entries(self.hashes@).len() && (
                    #[trigger] hash_entries(self.hashes@)[i]).0 == hash@) by {
                        let i = choose|i: int| 0 <= i < self.hashes@.len() && (#[trigger] self
                            .hashes@[i]).hash@ == hash@;
                        assert(hash_entries(self.hashes@)[i].0 == hash@);
                    }
                }
            },
            None => {
                let ghost pre = self.hashes@;
                self.hashes.push(StoredHash { hash: hash.clone(), date_added: now });
                proof {
                    assert(hash_entries(self.hashes@) =~= hash_entries(pre).push((hash@, now)));
                    lemma_assoc_push(hash_entries(pre), hash@, now);
                    assert forall|j: int| 0 <= j < hash_entries(pre).len() implies (
                    #[trigger] hash_entries(pre)[j]).0 != hash@ by {
                        assert(hash_entries(pre)[j].0 == pre[j].hash@);
                    }
                    assert(distinct_keys(hash_entries(self.hashes@))) by {
                        assert(forall|j: int| 0 <= j < hash_entries(pre).len() ==> hash_entries(
                            self.hashes@)[j] == hash_entries(pre)[j]);
                    }
                    assert(peer_entries(self.peers@) == peer_entries(old(self).peers@));
                    assert(link_entries(self.links@) == link_entries(old(self).links@));
                    assert(self@.peers == old(self)@.peers);
                    assert(self@.links == old(self)@.links);
                    assert(self@.inv()) by {
                        assert forall|e: (AddrModel, Seq<u8>)| #[trigger] self@.links.contains(
                            e) implies self@.peers.contains_key(e.0) && self@.hashes.contains_key(
                            e.1) by {
                            assert(old(self)@.links.contains(e));
                            assert(old(self)@.hashes.contains_key(e.1));
                        }
                        assert forall|a: AddrModel| #[trigger] self@.peers.contains_key(
                            a) implies self@.peers[a].address == a by {
                            assert(old(self)@.peers.contains_key(a));
                        }
                    }
                }
            },
        }
    }

    /// Records the link between a registered peer and a known hash; doing it
    /// again changes nothing.
    fn link(&mut self, hash: &Hash, address: &PeerAddress)
        requires
            old(self).inv(),
            old(self)@.peers.contains_key(address@),
            old(self)@.hashes.contains_key(hash@),
        ensures
            final(self).inv(),
            final(self)@.links == old(self)@.links.insert((address@, hash@)),
            final(self)@.peers == old(self)@.peers,
            final(self)@.hashes == old(self)@.hashes,
    {
        proof {
            lemma_assoc_contains(link_entries(self.links@), (address@, hash@));
        }
        match self.find_link_idx(address, hash) {
            Some(_) => {
                proof {
                    assert(exists|i: int| 0 <= i < link_entries(self.links@).len() && (
                    #[trigger] link_entries(self.links@)[i]).0 == (address@, hash@)) by {
                        let i = choose|i: int| 0 <= i < self.links@.len() && (#[trigger] self
                            .links@[i]).address@ == address@ && self.links@[i].hash@ == hash@;
                        assert(link_entries(self.links@)[i].0 == (address@, hash@));
                    }
                    assert(self@.links.contains((address@, hash@)));
                    assert(self@.links =~= old(self)@.links.insert((address@, hash@)));
                }
            },
            None => {
                let ghost pre = self.links@;
                self.links.push(Link { address: address.clone(), hash: hash.clone() });
                proof {
                    assert(link_entries(self.links@) =~= link_entries(pre).push(
                        ((address@, hash@), ())));
                    lemma_assoc_push(link_entries(pre), (address@, hash@), ());
                    assert forall|j: int| 0 <= j < link_entries(pre).len() implies (
                    #[trigger] link_entries(pre)[j]).0 != (address@, hash@) by {
                        assert(link_entries(pre)[j].0 == (pre[j].address@, pre[j].hash@));
                    }
                    assert(distinct_keys(link_entries(self.links@))) by {
                        assert(forall|j: int| 0 <= j < link_entries(pre).len() ==> link_entries(
                            self.links@)[j] == link_entries(pre)[j]);
                    }
                    assert(self@.links =~= old(self)@.links.insert((address@, hash@)));
                    assert(peer_entries(self.peers@) == peer_entries(old(self).peers@));
                    assert(hash_entries(self.hashes@) == hash_entries(old(self).hashes@));
                    assert(self@.peers == old(self)@.peers);
                    assert(self@.hashes == old(self)@.hashes);
                    assert(self@.inv()) by {
                        assert forall|e: (AddrModel, Seq<u8>)| #[trigger] self@.links.contains(
                            e) implies self@.peers.contains_key(e.0) && self@.hashes.contains_key(
                            e.1) by {
                            if e != (address@, hash@) {
                                assert(old(self)@.links.contains(e));
                            }
                        }
                        assert forall|a: AddrModel| #[trigger] self@.peers.contains_key(
                            a) implies self@.peers[a].address == a by {
                            assert(old(self)@.peers.contains_key(a));
                        }
                    }
                }
            },
        }
    }

    /// Upserts only the peer record: an existing record keeps its
    /// `date_added` and has its `last_seen` refreshed; a new record is taken
    /// as given. Returns whether the peer already existed.
    fn upsert_peer_record(&mut self, peer: Peer) -> (r: bool)
        requires
            old(self).inv(),
        ensures
            final(self).inv(),
            r == old(self)@.peers.contains_key(peer.address@),
            final(self)@.peers == old(self)@.peers.insert(
                peer.address@,
                upserted_peer(old(self)@.peers, peer@),
            ),
            final(self)@.hashes == old(self)@.hashes,
            final(self)@.links == old(self)@.links,
    {
        let Peer { address, date_added, last_seen } = peer;
        proof {
            lemma_assoc_contains(peer_entries(self.peers@), address@);
        }
        let existed: bool;
        match self.find_peer_idx(&address) {
            Some(i) => {
                existed = true;
                proof {
                    assert(exists|j: int| 0 <= j < peer_entries(self.peers@).len() && (
                    #[trigger] peer_entries(self.peers@)[j]).0 == address@) by {
                        assert(peer_entries(self.peers@)[i as int].0 == address@);
                    }
                    lemma_assoc_index(peer_entries(self.peers@), i as int);
                }
                let prev_date = self.peers[i].date_added;
                let ghost pre = self.peers@;
                self.peers[i] = Peer { address: address.clone(), date_added: prev_date, last_seen };
                proof {
                    assert(peer_entries(self.peers@) =~= peer_entries(pre).update(
                        i as int,
                        (address@, PeerModel {
                            address: address@,
                            date_added: prev_date,
                            last_seen,
                        }),
                    ));
                    assert(peer_entries(pre)[i as int].0 == address@);
                    lemma_assoc_update(
                        peer_entries(pre),
                        i as int,
                        (PeerModel { address: address@, date_added: prev_date, last_seen }),
                    );
                }
            },
            None => {
                existed = false;
                proof {
                    assert forall|j: int| 0 <= j < peer_entries(self.peers@).len() implies (
                    #[trigger] peer_entries(self.peers@)[j]).0 != address@ by {
                        assert(peer_entries(self.peers@)[j].0 == self.peers@[j].address@);
                    }
                    assert(!self@.peers.contains_key(address@));
                }
                let ghost pre = self.peers@;
                self.peers.push(Peer { address: address.clone(), date_added, last_seen });
                proof {
                    assert(peer_entries(self.peers@) =~= peer_entries(pre).push(
                        (address@, PeerModel { address: address@, date_added, last_seen }),
                    ));
                    lemma_assoc_push(
                        peer_entries(pre),
                        address@,
                        (PeerModel { address: address@, date_added, last_seen }),
                    );
                    assert(distinct_keys(peer_entries(self.peers@))) by {
                        assert(forall|j: int| 0 <= j < peer_entries(pre).len() ==> peer_entries(
                            self.peers@)[j] == peer_entries(pre)[j]);
                    }
                }
            },
        }
        proof {
            assert(hash_entries(self.hashes@) == hash_entries(old(self).hashes@));
            assert(link_entries(self.links@) == link_entries(old(self).links@));
            assert(self@.hashes == old(self)@.hashes);
            assert(self@.links == old(self)@.links);
            assert(self@.inv()) by {
                assert forall|e: (AddrModel, Seq<u8>)| #[trigger] self@.links.contains(
                    e) implies self@.peers.contains_key(e.0) && self@.hashes.contains_key(e.1) by {
                    assert(old(self)@.links.contains(e));
                    assert(old(self)@.peers.contains_key(e.0));
                }
                assert forall|a: AddrModel| #[trigger] self@.peers.contains_key(
                    a) implies self@.peers[a].address == a by {
                    if a != address@ {
                        assert(old(self)@.peers.contains_key(a));
                    }
                }
            }
        }
        existed
    }

    /// Records every listed hash (dated `now` when new) and links each to
    /// the given, already registered, peer.
    fn add_hash_links(&mut self, address: &PeerAddress, hashes: &Vec<Hash>, now: u64)
        requires
            old(self).inv(),
            old(self)@.peers.contains_key(address@),
        ensures
            final(self).inv(),
            final(self)@.peers == old(self)@.peers,
            final(self)@.hashes == upserted_hashes(
                old(self)@.hashes,
                hash_views(hashes@),
                now,
            ),
            final(self)@.links == added_links(old(self)@.links, address@, hash_views(hashes@)),
    {
        let ghost mid = self@;
        let mut k: usize = 0;
        while k < hashes.len()
            invariant
                self.inv(),
                0 <= k <= hashes@.len(),
                self@.peers == mid.peers,
                mid.peers.contains_key(address@),
                self@.hashes == upserted_hashes(
                    mid.hashes,
                    hash_views(hashes@).take(k as int),
                    now,
                ),
                self@.links == added_links(
                    mid.links,
                    address@,
                    hash_views(hashes@).take(k as int),
                ),
            decreases hashes@.len() - k,
        {
            let h = &hashes[k];
            let ghost k0: int = k as int;
            let ghost before = self@;
            self.insert_hash(h, now);
            let ghost after_hash = self@;
            self.link(h, address);
            k += 1;
            proof {
                assert(k as int == k0 + 1);
                assert(hash_views(hashes@)[k0] == h@);
                let t0 = hash_views(hashes@).take(k0);
                let t1 = hash_views(hashes@).take(k as int);
                assert(t1 =~= t0.push(h@));
                assert forall|x: Seq<u8>| #[trigger] t1.contains(x) <==> t0.contains(x) || x
                    == h@ by {
                    lemma_seq_push_contains(t0, h@, x);
                }
                assert(self@.hashes =~= upserted_hashes(mid.hashes, t1, now)) by {
                    assert(before.hashes == upserted_hashes(mid.hashes, t0, now));
                    assert(after_hash.hashes == (if before.hashes.contains_key(h@) {
                        before.hashes
                    } else {
                        before.hashes.insert(h@, now)
                    }));
                    assert(self@.hashes == after_hash.hashes);
                }
                assert(self@.links =~= added_links(mid.links, address@, t1)) by {
                    assert(before.links == added_links(mid.links, address@, t0));
                    assert(self@.links == before.links.insert((address@, h@)));
                }
            }
        }
        proof {
            assert(k as int == hashes@.len() as int);
            assert(hash_views(hashes@).take(k as int) =~= hash_views(hashes@));
        }
    }

    /// Upserts a peer: an existing record keeps its `date_added` and has its
    /// `last_seen` refreshed; a new record is taken as given. Every listed
    /// hash is recorded (dated `now` when new) and linked to the peer.
    /// Returns whether the peer already existed.
    pub fn update_peer(&mut self, peer: Peer, hashes: Vec<Hash>, now: u64) -> (r: Result<
        bool,
        (),
    >)
        requires
            old(self).inv(),
        ensures
            final(self).inv(),
            r == Ok::<bool, ()>(old(self)@.peers.contains_key(peer.address@)),
            final(self)@.peers == old(self)@.peers.insert(
                peer.address@,
                upserted_peer(old(self)@.peers, peer@),
            ),
            final(self)@.hashes == upserted_hashes(
                old(self)@.hashes,
                hash_views(hashes@),
                now,
            ),
            final(self)@.links == added_links(
                old(self)@.links,
                peer.address@,
                hash_views(hashes@),
            ),
    {
        let address = peer.address.clone();
        let existed = self.upsert_peer_record(peer);
        proof {
            assert(self@.peers.contains_key(address@));
        }
        self.add_hash_links(&address, &hashes, now);
        Ok(existed)
    }

    /// Removes a peer and every link it held, returning the removed record.
    /// Hashes stay, even if they become peerless: the janitor sweeps those.
    pub fn remove_peer(&mut self, peer_address: &PeerAddress) -> (r: Result<Option<Peer>, ()>)
        requires
            old(self).inv(),
        ensures
            final(self).inv(),
            r is Ok,
            match r->Ok_0 {
                Some(p) => old(self)@.peers.contains_key(peer_address@) && p@ == old(
                    self)@.peers[peer_address@],
                None => !old(self)@.peers.contains_key(peer_address@),
            },
            final(self)@.peers == old(self)@.peers.remove(peer_address@),
            final(self)@.links == links_without_peer(old(self)@.links, peer_address@),
            final(self)@.hashes == old(self)@.hashes,
    {
        proof {
            lemma_assoc_contains(peer_entries(self.peers@), peer_address@);
        }
        match self.find_peer_idx(peer_address) {
            None => {
                proof {
                    assert forall|j: int| 0 <= j < peer_entries(self.peers@).len() implies (
                    #[trigger] peer_entries(self.peers@)[j]).0 != peer_address@ by {
                        assert(peer_entries(self.peers@)[j].0 == self.peers@[j].address@);
                    }
                    assert(!self@.peers.contains_key(peer_address@));
                    assert(self@.peers =~= self@.peers.remove(peer_address@));
                    assert(self@.links =~= links_without_peer(self@.links, peer_address@)) by {
                        assert forall|e: (AddrModel, Seq<u8>)| #[trigger] self@.links.contains(
                            e) implies e.0 != peer_address@ by {
                            assert(self@.peers.contains_key(e.0));
                        }
                    }
                }
                Ok(None)
            },
            Some(i) => {
                proof {
                    assert(exists|j: int| 0 <= j < peer_entries(self.peers@).len() && (
                    #[trigger] peer_entries(self.peers@)[j]).0 == peer_address@) by {
                        assert(peer_entries(self.peers@)[i as int].0 == peer_address@);
                    }
                    lemma_assoc_index(peer_entries(self.peers@), i as int);
                }
                let removed = self.peers[i].clone();
                let ghost pre_peers = self.peers@;
                self.peers.remove(i);
                proof {
                    assert(peer_entries(self.peers@) =~= peer_entries(pre_peers).remove(
                        i as int));
                    assert(peer_entries(pre_peers)[i as int].0 == peer_address@);
                    lemma_assoc_remove_idx(peer_entries(pre_peers), i as int);
                }
                let ghost pre_links = self.links@;
                let ghost lpred = |en: ((AddrModel, Seq<u8>), ())| en.0.0 != peer_address@;
                let mut kept: Vec<Link> = Vec::new();
                let mut j: usize = 0;
                while j < self.links.len()
                    invariant
                        0 <= j <= self.links@.len(),
                        self.links@ == pre_links,
                        lpred == (|en: ((AddrModel, Seq<u8>), ())| en.0.0 != peer_address@),
                        link_entries(kept@) == link_entries(pre_links.take(j as int)).filter(
                            lpred),
                    decreases self.links@.len() - j,
                {
                    let ghost j0: int = j as int;
                    let ghost kept0 = kept@;
                    if !self.links[j].address.addr_eq(peer_address) {
                        let l = &self.links[j];
                        kept.push(Link { address: l.address.clone(), hash: l.hash.clone() });
                    }
                    j += 1;
                    proof {
                        let t0 = link_entries(pre_links.take(j0));
                        let en = ((pre_links[j0].address@, pre_links[j0].hash@), ());
                        assert(link_entries(pre_links.take(j as int)) =~= t0.push(en));
                        lemma_filter_push(t0, lpred, en);
                        if lpred(en) {
                            assert(link_entries(kept@) =~= link_entries(kept0).push(en));
                        } else {
                            assert(link_entries(kept@) =~= link_entries(kept0));
                        }
                    }
                }
                self.links = kept;
                proof {
                    assert(pre_links.take(pre_links.len() as int) =~= pre_links);
                    assert(link_entries(self.links@) == link_entries(pre_links).filter(lpred));
                    lemma_assoc_filter_distinct(link_entries(pre_links), lpred);
                    assert(self@.links =~= links_without_peer(
                        assoc_map(link_entries(pre_links)).dom(),
                        peer_address@,
                    )) by {
                        assert forall|e: (AddrModel, Seq<u8>)|
                            #![trigger self@.links.contains(e)]
                            true implies {
                            self@.links.contains(e) <==> (assoc_map(
                                link_entries(pre_links)).dom().contains(e) && e.0
                                != peer_address@)
                        } by {
                            lemma_assoc_filter(link_entries(pre_links), lpred, e);
                        }
                    }
                    assert(self@.inv()) by {
                        assert forall|e: (AddrModel, Seq<u8>)| #[trigger] self@.links.contains(
                            e) implies self@.peers.contains_key(e.0)
                            && self@.hashes.contains_key(e.1) by {
                            assert(old(self)@.links.contains(e) && e.0 != peer_address@);
                        }
                        assert forall|a: AddrModel| #[trigger] self@.peers.contains_key(
                            a) implies self@.peers[a].address == a by {
                            assert(old(self)@.peers.contains_key(a));
                        }
                    }
                }
                Ok(Some(removed))
            },
        }
    }

    /// Snapshot of all registered peers; the order carries no meaning.
    pub fn get_peers(&self) -> (r: Result<Vec<Peer>, ()>)
        requires
            self.inv(),
        ensures
            r is Ok,
            peers_snapshot_ok((r->Ok_0)@, self@.peers),
    {
        let mut out: Vec<Peer> = Vec::new();
        let mut i: usize = 0;
        while i < self.peers.len()
            invariant
                0 <= i <= self.peers@.len(),
                out@.len() == i,
                forall|j: int| 0 <= j < i ==> (#[trigger] out@[j])@ == self.peers@[j]@,
            decreases self.peers@.len() - i,
        {
            out.push(self.peers[i].clone());
            i += 1;
        }
        proof {
            lemma_assoc_len(peer_entries(self.peers@));
            assert forall|j: int| 0 <= j < out@.len() implies self@.peers.contains_key(
                (#[trigger] out@[j])@.address) && out@[j]@ == self@.peers[out@[j]@.address] by {
                assert(peer_entries(self.peers@)[j] == (self.peers@[j].address@, self.peers@[
                    j]@));
                lemma_assoc_index(peer_entries(self.peers@), j);
            }
            assert forall|a: AddrModel| #[trigger] self@.peers.contains_key(a) implies exists|
                i2: int,
            | 0 <= i2 < out@.len() && out@[i2]@.address == a by {
                lemma_assoc_contains(peer_entries(self.peers@), a);
                let j = choose|j: int| 0 <= j < peer_entries(self.peers@).len() && (
                #[trigger] peer_entries(self.peers@)[j]).0 == a;
                assert(out@[j]@.address == a);
            }
            assert(peers_snapshot_ok(out@, self@.peers));
        }
        Ok(out)
    }

    /// Snapshot of the peers seeding a hash: exactly the registered records
    /// of the addresses linked to it, without repetition, in no particular
    /// order; empty if the hash is unknown.
    pub fn get_peers_for_hash(&self, hash: &Hash) -> (r: Result<Vec<Peer>, ()>)
        requires
            self.inv(),
        ensures
            r is Ok,
            hash_seeders_ok((r->Ok_0)@, self@, hash@),
    {
        let mut out: Vec<Peer> = Vec::new();
        let mut j: usize = 0;
        while j < self.links.len()
            invariant
                self.inv(),
                0 <= j <= self.links@.len(),
                forall|t: int| 0 <= t < out@.len() ==> exists|x: int| 0 <= x < j && (
                #[trigger] out@[t])@.address == self.links@[x].address@ && self.links@[x].hash@
                    == hash@,
                forall|t: int| 0 <= t < out@.len() ==> self@.peers.contains_key(
                    (#[trigger] out@[t])@.address) && out@[t]@ == self@.peers[out@[t]@.address],
                forall|x: int| 0 <= x < j && (#[trigger] self.links@[x]).hash@ == hash@
                    ==> exists|t: int| 0 <= t < out@.len() && (#[trigger] out@[t])@.address
                    == self.links@[x].address@,
                forall|t: int, u: int| 0 <= t < u < out@.len() ==> (#[trigger] out@[t])@.address
                    != (#[trigger] out@[u])@.address,
            decreases self.links@.len() - j,
        {
            let matches_hash = crate::address::bytes_eq(&self.links[j].hash.0, &hash.0);
            if matches_hash {
                let addr = &self.links[j].address;
                proof {
                    assert(exists|x: int| 0 <= x < link_entries(self.links@).len() && (
                    #[trigger] link_entries(self.links@)[x]).0 == (addr@, hash@)) by {
                        assert(link_entries(self.links@)[j as int].0 == (addr@, hash@));
                    }
                    lemma_assoc_contains(link_entries(self.links@), (addr@, hash@));
                    assert(self@.links.contains((addr@, hash@)));
                    assert(self@.peers.contains_key(addr@));
                    lemma_assoc_contains(peer_entries(self.peers@), addr@);
                }
                match self.find_peer_idx(addr) {
                    Some(pi) => {
                        proof {
                            assert(peer_entries(self.peers@)[pi as int].0 == addr@);
                            lemma_assoc_index(peer_entries(self.peers@), pi as int);
                        }
                        let mut already = false;
                        let mut t: usize = 0;
                        while t < out.len()
                            invariant
                                0 <= t <= out@.len(),
                                already == exists|u: int| 0 <= u < t && (#[trigger] out@[
                                    u])@.address == addr@,
                            decreases out@.len() - t,
                        {
                            if out[t].address.addr_eq(addr) {
                                already = true;
                            }
                            t += 1;
                        }
                        let ghost out0 = out@;
                        if !already {
                            out.push(self.peers[pi].clone());
                        }
                        proof {
                            assert(exists|u: int| 0 <= u < out@.len() && (#[trigger] out@[
                                u])@.address == addr@) by {
                                if already {
                                    let u = choose|u: int| 0 <= u < out0.len() && (
                                    #[trigger] out0[u])@.address == addr@;
                                    assert(out@[u]@.address == addr@);
                                } else {
                                    assert(out@[out@.len() - 1]@.address == addr@);
                                }
                            }
                            assert forall|x: int| 0 <= x < j + 1 && (#[trigger] self.links@[
                                x]).hash@ == hash@ implies exists|t2: int| 0 <= t2 < out@.len()
                                && (#[trigger] out@[t2])@.address == self.links@[x].address@ by {
                                if x < j {
                                    let t2 = choose|t2: int| 0 <= t2 < out0.len() && (
                                    #[trigger] out0[t2])@.address == self.links@[x].address@;
                                    assert(out@[t2]@.address == self.links@[x].address@);
                                }
                            }
                        }
                    },
                    None => {
                        proof {
                            assert forall|x: int| 0 <= x < peer_entries(self.peers@).len()
                                implies (#[trigger] peer_entries(self.peers@)[x]).0 != addr@ by {
                                assert(peer_entries(self.peers@)[x].0 == self.peers@[
                                    x].address@);
                            }
                            assert(false);
                        }
                    },
                }
            }
            j += 1;
        }
        proof {
            assert forall|a: AddrModel| #[trigger] self@.links.contains((a, hash@)) implies
                exists|i: int| 0 <= i < out@.len() && out@[i]@.address == a by {
                lemma_assoc_contains(link_entries(self.links@), (a, hash@));
                let x = choose|x: int| 0 <= x < link_entries(self.links@).len() && (
                #[trigger] link_entries(self.links@)[x]).0 == (a, hash@);
                assert(self.links@[x].address@ == a && self.links@[x].hash@ == hash@);
            }
            assert forall|i: int| 0 <= i < out@.len() implies self@.links.contains(
                ((#[trigger] out@[i])@.address, hash@)) by {
                let x = choose|x: int| 0 <= x < self.links@.len() && (#[trigger] out@[
                    i])@.address == self.links@[x].address@ && self.links@[x].hash@ == hash@;
                assert(exists|y: int| 0 <= y < link_entries(self.links@).len() && (
                #[trigger] link_entries(self.links@)[y]).0 == (out@[i]@.address, hash@)) by {
                    assert(link_entries(self.links@)[x].0 == (out@[i]@.address, hash@));
                }
                lemma_assoc_contains(link_entries(self.links@), (out@[i]@.address, hash@));
            }
            assert(hash_seeders_ok(out@, self@, hash@));
        }
        Ok(out)
    }

    /// How many registered peers seed the hash.
    fn count_peers_of_hash(&self, hash: &Hash) -> (n: usize)
        requires
            self.inv(),
        ensures
            self@.hash_peers(hash@).finite(),
            n == self@.hash_peers(hash@).len(),
    {
        let mut n: usize = 0;
        let ghost mut seen: Set<AddrModel> = Set::empty();
        let mut j: usize = 0;
        while j < self.links.len()
            invariant
                self.inv(),
                0 <= j <= self.links@.len(),
                seen.finite(),
                n == seen.len(),
                n <= j,
                forall|a: AddrModel| #[trigger] seen.contains(a) <==> exists|x: int|
                    0 <= x < j && (#[trigger] self.links@[x]).address@ == a && self.links@[
                    x].hash@ == hash@,
            decreases self.links@.len() - j,
        {
            let ghost j0: int = j as int;
            if crate::address::bytes_eq(&self.links[j].hash.0, &hash.0) {
                let a = &self.links[j].address;
                proof {
                    assert(!seen.contains(a@)) by {
                        if seen.contains(a@) {
                            let x = choose|x: int| 0 <= x < j0 && (#[trigger] self.links@[
                                x]).address@ == a@ && self.links@[x].hash@ == hash@;
                            assert(link_entries(self.links@)[x].0 == (a@, hash@));
                            assert(link_entries(self.links@)[j0].0 == (a@, hash@));
                        }
                    }
                    seen = seen.insert(a@);
                }
                n = n + 1;
            }
            j += 1;
            proof {
                assert forall|a: AddrModel| #[trigger] seen.contains(a) <==> exists|x: int|
                    0 <= x < j && (#[trigger] self.links@[x]).address@ == a && self.links@[
                    x].hash@ == hash@ by {
                    if seen.contains(a) {
                        if a != self.links@[j0].address@ || self.links@[j0].hash@ != hash@ {
                        }
                    }
                }
            }
        }
        proof {
            assert(seen =~= self@.hash_peers(hash@)) by {
                assert forall|a: AddrModel| #[trigger] self@.links.contains((a, hash@)) implies
                    seen.contains(a) by {
                    lemma_assoc_contains(link_entries(self.links@), (a, hash@));
                    let x = choose|x: int| 0 <= x < link_entries(self.links@).len() && (
                    #[trigger] link_entries(self.links@)[x]).0 == (a, hash@);
                    assert(self.links@[x].address@ == a && self.links@[x].hash@ == hash@);
                }
                assert forall|a: AddrModel| #[trigger] seen.contains(a) implies self@.links.contains(
                    (a, hash@)) by {
                    let x = choose|x: int| 0 <= x < self.links@.len() && (#[trigger] self
                        .links@[x]).address@ == a && self.links@[x].hash@ == hash@;
                    assert(exists|y: int| 0 <= y < link_entries(self.links@).len() && (
                    #[trigger] link_entries(self.links@)[y]).0 == (a, hash@)) by {
                        assert(link_entries(self.links@)[x].0 == (a, hash@));
                    }
                    lemma_assoc_contains(link_entries(self.links@), (a, hash@));
                }
            }
        }
        n
    }

    /// Snapshot of every known hash with the number of peers seeding it;
    /// the order carries no meaning.
    pub fn get_hashes(&self) -> (r: Result<Vec<(Hash, usize)>, ()>)
        requires
            self.inv(),
        ensures
            r is Ok,
            hash_counts_ok((r->Ok_0)@, self@),
    {
        let mut out: Vec<(Hash, usize)> = Vec::new();
        let mut i: usize = 0;
        while i < self.hashes.len()
            invariant
                self.inv(),
                0 <= i <= self.hashes@.len(),
                out@.len() == i,
                forall|j: int| 0 <= j < i ==> (#[trigger] out@[j]).0@ == self.hashes@[j].hash@
                    && out@[j].1 == self@.hash_peers(self.hashes@[j].hash@).len(),
            decreases self.hashes@.len() - i,
        {
            let h = self.hashes[i].hash.clone();
            let n = self.count_peers_of_hash(&h);
            out.push((h, n));
            i += 1;
        }
        proof {
            lemma_assoc_len(hash_entries(self.hashes@));
            assert forall|j: int| 0 <= j < out@.len() implies self@.hashes.contains_key(
                (#[trigger] out@[j]).0@) by {
                assert(hash_entries(self.hashes@)[j].0 == self.hashes@[j].hash@);
                lemma_assoc_index(hash_entries(self.hashes@), j);
            }
            assert forall|h: Seq<u8>| #[trigger] self@.hashes.contains_key(h) implies exists|
                i2: int,
            | 0 <= i2 < out@.len() && out@[i2].0@ == h by {
                lemma_assoc_contains(hash_entries(self.hashes@), h);
                let j = choose|j: int| 0 <= j < hash_entries(self.hashes@).len() && (
                #[trigger] hash_entries(self.hashes@)[j]).0 == h;
                assert(out@[j].0@ == h);
            }
            assert(hash_counts_ok(out@, self@));
        }
        Ok(out)
    }

    /// Removes every peer whose last announce is older than the cutoff, and
    /// the links of the removed peers. Returns how many peers left. Hashes
    /// are not cleaned here.
    pub fn cleanup_peers(&mut self, timestamp: u64) -> (r: Result<usize, ()>)
        requires
            old(self).inv(),
        ensures
            final(self).inv(),
            r is Ok,
            final(self)@.peers == live_peers(old(self)@.peers, timestamp),
            final(self)@.links == links_of_peers(old(self)@.links, final(self)@.peers),
            final(self)@.hashes == old(self)@.hashes,
            r->Ok_0 + final(self)@.peers.dom().len() == old(self)@.peers.dom().len(),
    {
        let ghost ppred = |en: (AddrModel, PeerModel)| en.1.last_seen >= timestamp;
        let ghost pre_peers = self.peers@;
        let mut kept: Vec<Peer> = Vec::new();
        let mut j: usize = 0;
        while j < self.peers.len()
            invariant
                0 <= j <= self.peers@.len(),
                self.peers@ == pre_peers,
                ppred == (|en: (AddrModel, PeerModel)| en.1.last_seen >= timestamp),
                peer_entries(kept@) == peer_entries(pre_peers.take(j as int)).filter(ppred),
            decreases self.peers@.len() - j,
        {
            let ghost j0: int = j as int;
            let ghost kept0 = kept@;
            if self.peers[j].last_seen >= timestamp {
                kept.push(self.peers[j].clone());
            }
            j += 1;
            proof {
                let t0 = peer_entries(pre_peers.take(j0));
                let en = (pre_peers[j0].address@, pre_peers[j0]@);
                assert(peer_entries(pre_peers.take(j as int)) =~= t0.push(en));
                lemma_filter_push(t0, ppred, en);
                if ppred(en) {
                    assert(peer_entries(kept@) =~= peer_entries(kept0).push(en));
                } else {
                    assert(peer_entries(kept@) =~= peer_entries(kept0));
                }
            }
        }
        let removed = self.peers.len() - kept.len();
        self.peers = kept;
        proof {
            assert(pre_peers.take(pre_peers.len() as int) =~= pre_peers);
            assert(peer_entries(self.peers@) == peer_entries(pre_peers).filter(ppred));
            lemma_assoc_filter_distinct(peer_entries(pre_peers), ppred);
            assert(self@.peers =~= live_peers(assoc_map(peer_entries(pre_peers)), timestamp)) by {
                assert forall|a: AddrModel|
                    #![trigger self@.peers.contains_key(a)]
                    #![trigger live_peers(assoc_map(peer_entries(pre_peers)), timestamp).contains_key(a)]
                    true implies {
                    &&& (self@.peers.contains_key(a) <==> live_peers(
                        assoc_map(peer_entries(pre_peers)),
                        timestamp,
                    ).contains_key(a))
                    &&& self@.peers.contains_key(a) ==> self@.peers[a] == assoc_map(
                        peer_entries(pre_peers))[a]
                } by {
                    lemma_assoc_filter(peer_entries(pre_peers), ppred, a);
                }
            }
            lemma_assoc_len(peer_entries(pre_peers));
            lemma_assoc_len(peer_entries(self.peers@));
        }
        let ghost mid_peers = self@.peers;
        let ghost pre_links = self.links@;
        let ghost lpred = |en: ((AddrModel, Seq<u8>), ())| mid_peers.contains_key(en.0.0);
        let mut kept_links: Vec<Link> = Vec::new();
        let mut t: usize = 0;
        while t < self.links.len()
            invariant
                0 <= t <= self.links@.len(),
                self.links@ == pre_links,
                self@.peers == mid_peers,
                lpred == (|en: ((AddrModel, Seq<u8>), ())| mid_peers.contains_key(en.0.0)),
                link_entries(kept_links@) == link_entries(pre_links.take(t as int)).filter(
                    lpred),
                distinct_keys(peer_entries(self.peers@)),
            decreases self.links@.len() - t,
        {
            let ghost t0: int = t as int;
            let ghost kept0 = kept_links@;
            proof {
                lemma_assoc_contains(peer_entries(self.peers@), pre_links[t0].address@);
            }
            let survives = self.find_peer_idx(&self.links[t].address);
            match survives {
                Some(pi) => {
                    proof {
                        assert(peer_entries(self.peers@)[pi as int].0 == pre_links[
                            t0].address@);
                    }
                    let l = &self.links[t];
                    kept_links.push(
                        Link { address: l.address.clone(), hash: l.hash.clone() },
                    );
                },
                None => {
                    proof {
                        assert forall|x: int| 0 <= x < peer_entries(self.peers@).len() implies (
                        #[trigger] peer_entries(self.peers@)[x]).0 != pre_links[t0].address@ by {
                            assert(peer_entries(self.peers@)[x].0 == self.peers@[x].address@);
                        }
                        assert(!mid_peers.contains_key(pre_links[t0].address@));
                    }
                },
            }
            t += 1;
            proof {
                let s0 = link_entries(pre_links.take(t0));
                let en = ((pre_links[t0].address@, pre_links[t0].hash@), ());
                assert(link_entries(pre_links.take(t as int)) =~= s0.push(en));
                lemma_filter_push(s0, lpred, en);
                if lpred(en) {
                    assert(link_entries(kept_links@) =~= link_entries(kept0).push(en));
                } else {
                    assert(link_entries(kept_links@) =~= link_entries(kept0));
                }
            }
        }
        self.links = kept_links;
        proof {
            assert(pre_links.take(pre_links.len() as int) =~= pre_links);
            assert(link_entries(self.links@) == link_entries(pre_links).filter(lpred));
            lemma_assoc_filter_distinct(link_entries(pre_links), lpred);
            assert(self@.links =~= links_of_peers(
                assoc_map(link_entries(pre_links)).dom(),
                mid_peers,
            )) by {
                assert forall|e: (AddrModel, Seq<u8>)|
                    #![trigger self@.links.contains(e)]
                    true implies {
                    self@.links.contains(e) <==> (assoc_map(
                        link_entries(pre_links)).dom().contains(e) && mid_peers.contains_key(
                        e.0))
                } by {
                    lemma_assoc_filter(link_entries(pre_links), lpred, e);
                }
            }
            assert(self@.inv()) by {
                assert forall|e: (AddrModel, Seq<u8>)| #[trigger] self@.links.contains(
                    e) implies self@.peers.contains_key(e.0) && self@.hashes.contains_key(
                    e.1) by {
                    assert(old(self)@.links.contains(e));
                }
                assert forall|a: AddrModel| #[trigger] self@.peers.contains_key(
                    a) implies self@.peers[a].address == a by {
                    assert(old(self)@.peers.contains_key(a));
                }
            }
        }
        Ok(removed)
    }

    /// Removes every hash that no peer seeds any more. Returns how many
    /// hashes left.
    pub fn cleanup_hashes(&mut self) -> (r: Result<usize, ()>)
        requires
            old(self).inv(),
        ensures
            final(self).inv(),
            r is Ok,
            final(self)@.hashes == seeded_hashes(old(self)@.hashes, old(self)@.links),
            final(self)@.peers == old(self)@.peers,
            final(self)@.links == old(self)@.links,
            r->Ok_0 + final(self)@.hashes.dom().len() == old(self)@.hashes.dom().len(),
    {
        let ghost pre_hashes = self.hashes@;
        let ghost links0 = self@.links;
        let ghost seeded: Set<Seq<u8>> = Set::new(
            |h: Seq<u8>| exists|a: AddrModel| links0.contains((a, h)),
        );
        let ghost hpred = |en: (Seq<u8>, u64)| seeded.contains(en.0);
        let mut kept: Vec<StoredHash> = Vec::new();
        let mut j: usize = 0;
        while j < self.hashes.len()
            invariant
                self.inv(),
                0 <= j <= self.hashes@.len(),
                self.hashes@ == pre_hashes,
                self@.links == links0,
                seeded == Set::new(|h: Seq<u8>| exists|a: AddrModel| links0.contains((a, h))),
                hpred == (|en: (Seq<u8>, u64)| seeded.contains(en.0)),
                hash_entries(kept@) == hash_entries(pre_hashes.take(j as int)).filter(hpred),
            decreases self.hashes@.len() - j,
        {
            let ghost j0: int = j as int;
            let ghost kept0 = kept@;
            let mut found = false;
            let mut x: usize = 0;
            while x < self.links.len()
                invariant
                    0 <= x <= self.links@.len(),
                    j as int == j0,
                    0 <= j0 < self.hashes@.len(),
                    self.hashes@ == pre_hashes,
                    found ==> exists|y: int| 0 <= y < self.links@.len() && (#[trigger] self
                        .links@[y]).hash@ == self.hashes@[j0].hash@,
                    !found ==> forall|y: int| 0 <= y < x ==> (#[trigger] self.links@[y]).hash@
                        != self.hashes@[j0].hash@,
                decreases self.links@.len() - x,
            {
                let ghost x0: int = x as int;
                if crate::address::bytes_eq(&self.links[x].hash.0, &self.hashes[j].hash.0) {
                    found = true;
                    proof {
                        assert(self.links@[x0].hash@ == self.hashes@[j0].hash@);
                    }
                }
                x += 1;
            }
            proof {
                let en = (pre_hashes[j0].hash@, pre_hashes[j0].date_added);
                if found {
                    let y = choose|y: int| 0 <= y < self.links@.len() && (#[trigger] self
                        .links@[y]).hash@ == pre_hashes[j0].hash@;
                    assert(exists|z: int| 0 <= z < link_entries(self.links@).len() && (
                    #[trigger] link_entries(self.links@)[z]).0 == (self.links@[y].address@,
                    pre_hashes[j0].hash@)) by {
                        assert(link_entries(self.links@)[y].0 == (self.links@[y].address@,
                        pre_hashes[j0].hash@));
                    }
                    lemma_assoc_contains(
                        link_entries(self.links@),
                        (self.links@[y].address@, pre_hashes[j0].hash@),
                    );
                    assert(links0.contains((self.links@[y].address@, pre_hashes[j0].hash@)));
                    assert(seeded.contains(en.0));
                    assert(hpred(en));
                } else {
                    assert(!hpred(en)) by {
                        if hpred(en) {
                            assert(seeded.contains(en.0));
                            let a = choose|a: AddrModel| links0.contains((a, en.0));
                            lemma_assoc_contains(link_entries(self.links@), (a, en.0));
                            let z = choose|z: int| 0 <= z < link_entries(self.links@).len()
                                && (#[trigger] link_entries(self.links@)[z]).0 == (a, en.0);
                            assert(self.links@[z].hash@ == en.0);
                        }
                    }
                }
            }
            if found {
                kept.push(StoredHash {
                    hash: self.hashes[j].hash.clone(),
                    date_added: self.hashes[j].date_added,
                });
            }
            j += 1;
            proof {
                let t0 = hash_entries(pre_hashes.take(j0));
                let en = (pre_hashes[j0].hash@, pre_hashes[j0].date_added);
                assert(hash_entries(pre_hashes.take(j as int)) =~= t0.push(en));
                lemma_filter_push(t0, hpred, en);
                if hpred(en) {
                    assert(hash_entries(kept@) =~= hash_entries(kept0).push(en));
                } else {
                    assert(hash_entries(kept@) =~= hash_entries(kept0));
                }
            }
        }
        let removed = self.hashes.len() - kept.len();
        let ghost pre_model = self@;
        self.hashes = kept;
        proof {
            assert(pre_hashes.take(pre_hashes.len() as int) =~= pre_hashes);
            assert(hash_entries(self.hashes@) == hash_entries(pre_hashes).filter(hpred));
            lemma_assoc_filter_distinct(hash_entries(pre_hashes), hpred);
            assert(self@.hashes =~= seeded_hashes(
                assoc_map(hash_entries(pre_hashes)),
                links0,
            )) by {
                assert forall|h: Seq<u8>|
                    #![trigger self@.hashes.contains_key(h)]
                    #![trigger seeded_hashes(assoc_map(hash_entries(pre_hashes)), links0).contains_key(h)]
                    true implies {
                    &&& (self@.hashes.contains_key(h) <==> (assoc_map(
                        hash_entries(pre_hashes)).contains_key(h) && exists|a: AddrModel|
                        links0.contains((a, h))))
                    &&& self@.hashes.contains_key(h) ==> self@.hashes[h] == assoc_map(
                        hash_entries(pre_hashes))[h]
                } by {
                    lemma_assoc_filter(hash_entries(pre_hashes), hpred, h);
                    assert(self@.hashes.contains_key(h) <==> assoc_map(
                        hash_entries(pre_hashes).filter(hpred)).contains_key(h));
                    if assoc_map(hash_entries(pre_hashes)).contains_key(h) {
                        assert(hpred((h, assoc_map(hash_entries(pre_hashes))[h])) <==> seeded.contains(
                            h));
                        assert(seeded.contains(h) <==> exists|a: AddrModel| links0.contains(
                            (a, h)));
                    }
                }
            }
            lemma_assoc_len(hash_entries(pre_hashes));
            lemma_assoc_len(hash_entries(self.hashes@));
            assert(self@.inv()) by {
                assert forall|e: (AddrModel, Seq<u8>)| #[trigger] self@.links.contains(
                    e) implies self@.peers.contains_key(e.0) && self@.hashes.contains_key(
                    e.1) by {
                    assert(pre_model.links.contains(e));
                    assert(pre_model.hashes.contains_key(e.1));
                    assert(links0.contains((e.0, e.1)));
                    assert(exists|a: AddrModel| links0.contains((a, e.1)));
                }
                assert forall|a: AddrModel| #[trigger] self@.peers.contains_key(
                    a) implies self@.peers[a].address == a by {
                    assert(pre_model.peers.contains_key(a));
                }
            }
        }
        Ok(removed)
    }
}

/// The database contract: the operation set a backend offers the tracker.
/// The in-memory backend below implements it and never fails; an outside
/// backend may fail, but what it answers must be what these contracts say.
pub trait PeerDatabase: Sized {
    /// The error a failing backend reports.
    type Error;

    /// The registry the backend holds.
    spec fn db(&self) -> DbModel;

    /// The backend's well-formedness.
    spec fn db_inv(&self) -> bool;

    /// Upserts a peer and links it to every listed hash; answers whether
    /// the peer already existed.
    fn update_peer(&mut self, peer: Peer, hashes: Vec<Hash>, now: u64) -> (r: Result<
        bool,
        Self::Error,
    >)
        requires
            old(self).db_inv(),
        ensures
            final(self).db_inv(),
            r is Ok ==> {
                &&& r->Ok_0 == old(self).db().peers.contains_key(peer.address@)
                &&& final(self).db() == upsert_model(
                    old(self).db(),
                    peer@,
                    hash_views(hashes@),
                    now,
                )
            },
    ;

    /// Removes a peer and its links, answering the removed record; hashes
    /// stay for the janitor.
    fn remove_peer(&mut self, peer_address: &PeerAddress) -> (r: Result<
        Option<Peer>,
        Self::Error,
    >)
        requires
            old(self).db_inv(),
        ensures
            final(self).db_inv(),
            r is Ok ==> {
                &&& match r->Ok_0 {
                    Some(p) => old(self).db().peers.contains_key(peer_address@) && p@ == old(
                        self).db().peers[peer_address@],
                    None => !old(self).db().peers.contains_key(peer_address@),
                }
                &&& final(self).db() == remove_model(old(self).db(), peer_address@)
            },
    ;

    /// Value copy of the peer registered at an address.
    fn get_peer(&self, peer_address: &PeerAddress) -> (r: Result<Option<Peer>, Self::Error>)
        requires
            self.db_inv(),
        ensures
            r is Ok ==> match r->Ok_0 {
                Some(p) => self.db().peers.contains_key(peer_address@) && p@ == self.db().peers[
                    peer_address@],
                None => !self.db().peers.contains_key(peer_address@),
            },
    ;

    /// Snapshot of all registered peers, in no particular order.
    fn get_peers(&self) -> (r: Result<Vec<Peer>, Self::Error>)
        requires
            self.db_inv(),
        ensures
            r is Ok ==> peers_snapshot_ok((r->Ok_0)@, self.db().peers),
    ;

    /// Snapshot of the peers seeding a hash, in no particular order.
    fn get_peers_for_hash(&self, hash: &Hash) -> (r: Result<Vec<Peer>, Self::Error>)
        requires
            self.db_inv(),
        ensures
            r is Ok ==> hash_seeders_ok((r->Ok_0)@, self.db(), hash@),
    ;

    /// Snapshot of every known hash with its seeder count.
    fn get_hashes(&self) -> (r: Result<Vec<(Hash, usize)>, Self::Error>)
        requires
            self.db_inv(),
        ensures
            r is Ok ==> hash_counts_ok((r->Ok_0)@, self.db()),
    ;

    /// How many peers are registered.
    fn get_peer_count(&self) -> (r: Result<usize, Self::Error>)
        requires
            self.db_inv(),
        ensures
            r is Ok ==> r->Ok_0 == self.db().peers.dom().len(),
    ;

    /// How many hashes are known.
    fn get_hash_count(&self) -> (r: Result<usize, Self::Error>)
        requires
            self.db_inv(),
        ensures
            r is Ok ==> r->Ok_0 == self.db().hashes.dom().len(),
    ;

    /// Removes the peers last seen before the cutoff, with their links,
    /// answering how many left.
    fn cleanup_peers(&mut self, timestamp: u64) -> (r: Result<usize, Self::Error>)
        requires
            old(self).db_inv(),
        ensures
            final(self).db_inv(),
            r is Ok ==> {
                &&& final(self).db().peers == live_peers(old(self).db().peers, timestamp)
                &&& final(self).db().links == links_of_peers(
                    old(self).db().links,
                    final(self).db().peers,
                )
                &&& final(self).db().hashes == old(self).db().hashes
                &&& r->Ok_0 + final(self).db().peers.dom().len() == old(
                    self).db().peers.dom().len()
            },
    ;

    /// Removes the hashes no peer seeds any more, answering how many left.
    fn cleanup_hashes(&mut self) -> (r: Result<usize, Self::Error>)
        requires
            old(self).db_inv(),
        ensures
            final(self).db_inv(),
            r is Ok ==> {
                &&& final(self).db().hashes == seeded_hashes(
                    old(self).db().hashes,
                    old(self).db().links,
                )
                &&& final(self).db().peers == old(self).db().peers
                &&& final(self).db().links == old(self).db().links
                &&& r->Ok_0 + final(self).db().hashes.dom().len() == old(
                    self).db().hashes.dom().len()
            },
    ;
}

impl PeerDatabase for PeerDB {
    type Error = ();

    open spec fn db(&self) -> DbModel {
        self@
    }

    open spec fn db_inv(&self) -> bool {
        self.inv()
    }

    fn update_peer(&mut self, peer: Peer, hashes: Vec<Hash>, now: u64) -> (r: Result<bool, ()>) {
        PeerDB::update_peer(self, peer, hashes, now)
    }

    fn remove_peer(&mut self, peer_address: &PeerAddress) -> (r: Result<Option<Peer>, ()>) {
        PeerDB::remove_peer(self, peer_address)
    }

    fn get_peer(&self, peer_address: &PeerAddress) -> (r: Result<Option<Peer>, ()>) {
        PeerDB::get_peer(self, peer_address)
    }

    fn get_peers(&self) -> (r: Result<Vec<Peer>, ()>) {
        PeerDB::get_peers(self)
    }

    fn get_peers_for_hash(&self, hash: &Hash) -> (r: Result<Vec<Peer>, ()>) {
        PeerDB::get_peers_for_hash(self, hash)
    }

    fn get_hashes(&self) -> (r: Result<Vec<(Hash, usize)>, ()>) {
        PeerDB::get_hashes(self)
    }

    fn get_peer_count(&self) -> (r: Result<usize, ()>) {
        PeerDB::get_peer_count(self)
    }

    fn get_hash_count(&self) -> (r: Result<usize, ()>) {
        PeerDB::get_hash_count(self)
    }

    fn cleanup_peers(&mut self, timestamp: u64) -> (r: Result<usize, ()>) {
        PeerDB::cleanup_peers(self, timestamp)
    }

    fn cleanup_hashes(&mut self) -> (r: Result<usize, ()>) {
        PeerDB::cleanup_hashes(self)
    }
}


} // verus!
