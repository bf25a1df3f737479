//! The per-connection request handler: the protocol decisions behind one
//! accepted connection. The transport reads and writes framed bodies; the
//! functions here turn a decoded request into registry changes and the
//! response body.

use vstd::prelude::*;
use vstd::string::*;
use crate::address::AddrModel;
use crate::address::PeerAddress;
use crate::address::is_ip4_model;
use crate::address::is_ip6_model;
use crate::address::is_onion_model;
use crate::address::is_onion_label;
use crate::address::onion_addr;
use crate::address::parse_onion;
use crate::peer_db::DbModel;

use crate::peer_db::Peer;
use crate::peer_db::PeerDB;
use crate::peer_db::PeerModel;
use crate::peer_db::hash_views;
use crate::peer_db::remove_model;
use crate::peer_db::upsert_model;
use crate::text::str_eq;

verus! {

/// What the handler reads from a handshake body.
pub struct HandshakeRequest {
    pub fileserver_port: u16,
    pub onion: Option<String>,
}

/// What the handler answers to a handshake.
pub struct HandshakeReply {
    pub peer_id: String,
}

/// What the handler reads from an announce body.
pub struct AnnounceRequest {
    pub hashes: Vec<crate::peer_db::Hash>,
    pub onions: Vec<String>,
    pub port: u16,
    pub need_types: Vec<String>,
    pub delete: bool,
}

/// The packed-address lists answered for one hash; onion endpoints of either
/// length share the third list.
pub struct AnnouncePeers {
    pub ip_v4: Vec<Vec<u8>>,
    pub ip_v6: Vec<Vec<u8>>,
    pub onion_v2: Vec<Vec<u8>>,
}

/// The body answered to an announce: one entry per requested hash, in
/// request order.
pub struct AnnounceResponse {
    pub peers: Vec<AnnouncePeers>,
}

/// The body answered to a request that could not be read.
pub struct ErrorResponse {
    pub error: String,
}

pub open spec fn onion_views(s: Seq<String>) -> Seq<Seq<char>> {
    s.map_values(|o: String| o@)
}

pub open spec fn need_views(s: Seq<String>) -> Seq<Seq<char>> {
    s.map_values(|o: String| o@)
}

pub open spec fn byte_views(s: Seq<Vec<u8>>) -> Seq<Seq<u8>> {
    s.map_values(|b: Vec<u8>| b@)
}

pub open spec fn needs_v4(ns: Seq<Seq<char>>) -> bool {
    ns.contains("ipv4"@) || ns.contains("ip4"@)
}

pub open spec fn needs_v6(ns: Seq<Seq<char>>) -> bool {
    ns.contains("ipv6"@)
}

pub open spec fn needs_onion(ns: Seq<Seq<char>>) -> bool {
    ns.contains("onion"@)
}

/// The database after the onion part of an announce: the first `m` onion
/// labels are taken in order, each that denotes an endpoint is upserted
/// with its positional hash, and the rest are skipped.
pub open spec fn announce_pairs_db(
    d: DbModel,
    os: Seq<Seq<char>>,
    hs: Seq<Seq<u8>>,
    port: u16,
    now: u64,
    m: int,
) -> DbModel
    decreases m,
{
    if m <= 0 {
        d
    } else {
        let prev = announce_pairs_db(d, os, hs, port, now, m - 1);
        match onion_addr(os[m - 1], port) {
            Some(a) => upsert_model(
                prev,
                PeerModel { address: a, date_added: now, last_seen: now },
                seq![hs[m - 1]],
                now,
            ),
            None => prev,
        }
    }
}

/// The database after a whole announce: the optional delete, then either
/// the primary upsert (suppressed for local addresses) or the onion pairs.
pub open spec fn announce_db(
    d: DbModel,
    primary: AddrModel,
    os: Seq<Seq<char>>,
    hs: Seq<Seq<u8>>,
    port: u16,
    delete: bool,
    now: u64,
) -> DbModel {
    let d0 = if delete {
        remove_model(d, primary)
    } else {
        d
    };
    if os.len() == 0 {
        if primary.is_local() {
            d0
        } else {
            upsert_model(
                d0,
                PeerModel { address: primary, date_added: now, last_seen: now },
                hs,
                now,
            )
        }
    } else {
        let m = if os.len() < hs.len() {
            os.len() as int
        } else {
            hs.len() as int
        };
        announce_pairs_db(d0, os, hs, port, now, m)
    }
}

/// One packed list is correct for a family when some enumeration of exactly
/// the family's seeders of the hash, without repetition, packs to it.
pub open spec fn packed_list_wit(
    addrs: Seq<AddrModel>,
    sub: Seq<Seq<u8>>,
    d: DbModel,
    h: Seq<u8>,
    fam: spec_fn(AddrModel) -> bool,
) -> bool {
    &&& addrs.no_duplicates()
    &&& addrs.len() == sub.len()
    &&& forall|i: int| 0 <= i < addrs.len() ==> d.hash_peers(h).contains(#[trigger] addrs[i])
        && fam(addrs[i]) && sub[i] == addrs[i].packed()
    &&& forall|a: AddrModel| d.hash_peers(h).contains(a) && fam(a) ==> addrs.contains(a)
}

pub open spec fn packed_list_ok(
    sub: Seq<Seq<u8>>,
    d: DbModel,
    h: Seq<u8>,
    fam: spec_fn(AddrModel) -> bool,
) -> bool {
    exists|addrs: Seq<AddrModel>| packed_list_wit(addrs, sub, d, h, fam)
}

/// One response entry is correct for its hash: each requested family lists
/// exactly that family's seeders, packed; an unrequested family stays empty.
pub open spec fn announce_entry_ok(
    ap: AnnouncePeers,
    d: DbModel,
    h: Seq<u8>,
    ns: Seq<Seq<char>>,
) -> bool {
    &&& if needs_v4(ns) {
        packed_list_ok(byte_views(ap.ip_v4@), d, h, |a: AddrModel| is_ip4_model(a))
    } else {
        ap.ip_v4@.len() == 0
    }
    &&& if needs_v6(ns) {
        packed_list_ok(byte_views(ap.ip_v6@), d, h, |a: AddrModel| is_ip6_model(a))
    } else {
        ap.ip_v6@.len() == 0
    }
    &&& if needs_onion(ns) {
        packed_list_ok(byte_views(ap.onion_v2@), d, h, |a: AddrModel| is_onion_model(a))
    } else {
        ap.onion_v2@.len() == 0
    }
}

/// Copies a hash list, keeping the views.
fn clone_hashes(v: &Vec<crate::peer_db::Hash>) -> (r: Vec<crate::peer_db::Hash>)
    ensures
        hash_views(r@) == hash_views(v@),
{
    let mut out: Vec<crate::peer_db::Hash> = Vec::new();
    let mut i: usize = 0;
    while i < v.len()
        invariant
            0 <= i <= v@.len(),
            out@.len() == i,
            forall|j: int| 0 <= j < i ==> (#[trigger] out@[j])@ == v@[j]@,
        decreases v@.len() - i,
    {
        out.push(v[i].clone());
        i += 1;
    }
    proof {
        assert(hash_views(out@) =~= hash_views(v@));
    }
    out
}

/// Whether the need list names either given family word.
fn need_flag(ns: &Vec<String>, p1: &str, p2: &str) -> (r: bool)
    ensures
        r == (need_views(ns@).contains(p1@) || need_views(ns@).contains(p2@)),
{
    let mut i: usize = 0;
    while i < ns.len()
        invariant
            0 <= i <= ns@.len(),
            forall|j: int| 0 <= j < i ==> (#[trigger] ns@[j])@ != p1@ && ns@[j]@ != p2@,
        decreases ns@.len() - i,
    {
        if str_eq(ns[i].as_str(), p1) || str_eq(ns[i].as_str(), p2) {
            proof {
                assert(need_views(ns@)[i as int] == ns@[i as int]@);
            }
            return true;
        }
        i += 1;
    }
    proof {
        assert forall|j: int| 0 <= j < need_views(ns@).len() implies #[trigger] need_views(ns@)[
            j] != p1@ && need_views(ns@)[j] != p2@ by {
            assert(need_views(ns@)[j] == ns@[j]@);
        }
    }
    false
}

/// The state one connection carries: the server's peer identifier and the
/// address the requests are taken to come from, rewritten when a handshake
/// declares an onion identity.
pub struct Handler {
    pub peer_id: String,
    pub address: PeerAddress,
}

impl Handler {
    /// A handler for a fresh connection from the given transport address.
    pub fn create(address: PeerAddress) -> (r: Handler)
        ensures
            r.address@ == address@,
            r.peer_id@ == Seq::<char>::empty(),
    {
        Handler { peer_id: String::new(), address }
    }

    /// Answers a handshake. A non-empty declared onion identity that
    /// denotes an endpoint rewrites the connection's address to it, at the
    /// declared fileserver port; an empty one counts as absent. A non-empty
    /// identity that denotes no endpoint ends the exchange with no reply
    /// and no rewrite, and the connection stays open.
    pub fn handle_handshake(&mut self, req: &HandshakeRequest) -> (r: Option<HandshakeReply>)
        ensures
            final(self).peer_id == old(self).peer_id,
            match req.onion {
                Some(label) => {
                    if label@.len() == 0 {
                        r is Some && final(self).address@ == old(self).address@
                    } else if is_onion_label(label@) {
                        &&& r is Some
                        &&& Some(final(self).address@) == onion_addr(
                            label@,
                            req.fileserver_port,
                        )
                    } else {
                        &&& r is None
                        &&& final(self).address@ == old(self).address@
                    }
                },
                None => r is Some && final(self).address@ == old(self).address@,
            },
            r is Some ==> (r->Some_0).peer_id@ == old(self).peer_id@,
    {
        match &req.onion {
            Some(label) => {
                if label.as_str().is_empty() {
                    Some(HandshakeReply { peer_id: self.peer_id.clone() })
                } else {
                    match parse_onion(label.as_str(), req.fileserver_port) {
                        Some(addr) => {
                            self.address = addr;
                            Some(HandshakeReply { peer_id: self.peer_id.clone() })
                        },
                        None => None,
                    }
                }
            },
            None => Some(HandshakeReply { peer_id: self.peer_id.clone() }),
        }
    }

    /// Answers an unreadable request body, keeping the connection open.
    pub fn handle_invalid(&self, diagnostic: &str) -> (r: ErrorResponse)
        ensures
            r.error@ == "Invalid data: "@ + diagnostic@,
    {
        ErrorResponse { error: String::from_str("Invalid data: ").concat(diagnostic) }
    }

    /// Answers a command the tracker does not speak.
    pub fn handle_unsupported(&self) -> (r: String)
        ensures
            r@ == "Unknown request"@,
    {
        String::from_str("Unknown request")
    }

    /// Answers an announce: applies the announced changes to the registry
    /// and returns, for each requested hash, the packed addresses of its
    /// seeders in the families the peer asked for.
    pub fn handle_announce(&self, db: &mut PeerDB, req: &AnnounceRequest, now: u64) -> (r:
        AnnounceResponse)
        requires
            old(db).inv(),
            self.address@.wf(),
        ensures
            final(db).inv(),
            final(db)@ == announce_db(
                old(db)@,
                self.address@.with_port(req.port),
                onion_views(req.onions@),
                hash_views(req.hashes@),
                req.port,
                req.delete,
                now,
            ),
            r.peers@.len() == req.hashes@.len(),
            forall|i: int| 0 <= i < req.hashes@.len() ==> announce_entry_ok(
                #[trigger] r.peers@[i],
                final(db)@,
                req.hashes@[i]@,
                need_views(req.need_types@),
            ),
    {
        let primary = self.address.with_port(req.port);
        if req.delete {
            let _ = db.remove_peer(&primary);
        }
        let ghost d0 = db@;
        proof {
            if req.delete {
                assert(d0 == remove_model(old(db)@, primary@));
            }
        }
        if req.onions.len() == 0 {
            if !primary.is_local_range() {
                let peer = Peer { address: primary, date_added: now, last_seen: now };
                let hs = clone_hashes(&req.hashes);
                let _ = db.update_peer(peer, hs, now);
                proof {
                    assert(db@ == upsert_model(
                        d0,
                        PeerModel {
                            address: self.address@.with_port(req.port),
                            date_added: now,
                            last_seen: now,
                        },
                        hash_views(req.hashes@),
                        now,
                    ));
                }
            }
        } else {
            let m = if req.onions.len() < req.hashes.len() {
                req.onions.len()
            } else {
                req.hashes.len()
            };
            let ghost os = onion_views(req.onions@);
            let ghost hsv = hash_views(req.hashes@);
            let mut i: usize = 0;
            while i < m
                invariant
                    0 <= i <= m,
                    m <= req.onions@.len(),
                    m <= req.hashes@.len(),
                    os == onion_views(req.onions@),
                    hsv == hash_views(req.hashes@),
                    db.inv(),
                    db@ == announce_pairs_db(d0, os, hsv, req.port, now, i as int),
                decreases m - i,
            {
                let ghost i0: int = i as int;
                match parse_onion(req.onions[i].as_str(), req.port) {
                    Some(addr) => {
                        let peer = Peer { address: addr, date_added: now, last_seen: now };
                        let one = vec![req.hashes[i].clone()];
                        proof {
                            assert(hash_views(one@) =~= seq![hsv[i0]]);
                            assert(os[i0] == req.onions@[i0]@);
                        }
                        let _ = db.update_peer(peer, one, now);
                    },
                    None => {
                        proof {
                            assert(os[i0] == req.onions@[i0]@);
                        }
                    },
                }
                i += 1;
                proof {
                    assert(db@ == announce_pairs_db(d0, os, hsv, req.port, now, i as int));
                }
            }
        }
        let want4 = need_flag(&req.need_types, "ipv4", "ip4");
        let want6 = need_flag(&req.need_types, "ipv6", "ipv6");
        let wanto = need_flag(&req.need_types, "onion", "onion");
        proof {
            assert(want4 == needs_v4(need_views(req.need_types@)));
            assert(want6 == needs_v6(need_views(req.need_types@)));
            assert(wanto == needs_onion(need_views(req.need_types@)));
        }
        let mut out: Vec<AnnouncePeers> = Vec::new();
        let mut i: usize = 0;
        while i < req.hashes.len()
            invariant
                0 <= i <= req.hashes@.len(),
                db.inv(),
                out@.len() == i,
                want4 == needs_v4(need_views(req.need_types@)),
                want6 == needs_v6(need_views(req.need_types@)),
                wanto == needs_onion(need_views(req.need_types@)),
                forall|j: int| 0 <= j < i ==> announce_entry_ok(
                    #[trigger] out@[j],
                    db@,
                    req.hashes@[j]@,
                    need_views(req.need_types@),
                ),
            decreases req.hashes@.len() - i,
        {
            let entry = build_entry(db, &req.hashes[i], want4, want6, wanto);
            proof {
                assert(announce_entry_ok(entry, db@, req.hashes@[i as int]@, need_views(
                    req.need_types@)));
            }
            out.push(entry);
            i += 1;
        }
        AnnounceResponse { peers: out }
    }
}

/// Builds the response entry for one hash from the current registry.
fn build_entry(db: &PeerDB, hash: &crate::peer_db::Hash, want4: bool, want6: bool, wanto: bool) -> (r:
    AnnouncePeers)
    requires
        db.inv(),
    ensures
        if want4 {
            packed_list_ok(byte_views(r.ip_v4@), db@, hash@, |a: AddrModel| is_ip4_model(a))
        } else {
            r.ip_v4@.len() == 0
        },
        if want6 {
            packed_list_ok(byte_views(r.ip_v6@), db@, hash@, |a: AddrModel| is_ip6_model(a))
        } else {
            r.ip_v6@.len() == 0
        },
        if wanto {
            packed_list_ok(byte_views(r.onion_v2@), db@, hash@, |a: AddrModel| is_onion_model(a))
        } else {
            r.onion_v2@.len() == 0
        },
{
    let peers = match db.get_peers_for_hash(hash) {
        Ok(list) => list,
        Err(_) => {
            proof {
                assert(false);
            }
            unreached()
        },
    };
    let mut v4s: Vec<Vec<u8>> = Vec::new();
    let mut v6s: Vec<Vec<u8>> = Vec::new();
    let mut ons: Vec<Vec<u8>> = Vec::new();
    let ghost mut a4: Seq<AddrModel> = Seq::empty();
    let ghost mut a6: Seq<AddrModel> = Seq::empty();
    let ghost mut ao: Seq<AddrModel> = Seq::empty();
    let mut t: usize = 0;
    while t < peers.len()
        invariant
            db.inv(),
            0 <= t <= peers@.len(),
            forall|x: int| 0 <= x < peers@.len() ==> db@.links.contains(
                ((#[trigger] peers@[x])@.address, hash@)),
            forall|x: int, y: int| 0 <= x < y < peers@.len() ==> (#[trigger] peers@[
                x])@.address != (#[trigger] peers@[y])@.address,
            partial_wit(a4, byte_views(v4s@), db@, hash@, |a: AddrModel| is_ip4_model(a),
                peers@, t as int, want4),
            partial_wit(a6, byte_views(v6s@), db@, hash@, |a: AddrModel| is_ip6_model(a),
                peers@, t as int, want6),
            partial_wit(ao, byte_views(ons@), db@, hash@, |a: AddrModel| is_onion_model(a),
                peers@, t as int, wanto),
        decreases peers@.len() - t,
    {
        let ghost t0: int = t as int;
        let addr = &peers[t].address;
        let is4 = matches!(addr, PeerAddress::Ipv4 { .. });
        let is6 = matches!(addr, PeerAddress::Ipv6 { .. });
        proof {
            assert(db@.hash_peers(hash@).contains(peers@[t0]@.address));
        }
        if is4 && want4 {
            let ghost sub0 = byte_views(v4s@);
            proof {
                assert(is_ip4_model(addr@));
                lemma_partial_push(a4, sub0, db@, hash@, |a: AddrModel| is_ip4_model(a),
                    peers@, t0);
            }
            v4s.push(addr.pack());
            proof {
                a4 = a4.push(addr@);
                assert(byte_views(v4s@) =~= sub0.push(addr@.packed()));
            }
        } else if is6 && want6 {
            let ghost sub0 = byte_views(v6s@);
            proof {
                assert(is_ip6_model(addr@));
                lemma_partial_push(a6, sub0, db@, hash@, |a: AddrModel| is_ip6_model(a),
                    peers@, t0);
            }
            v6s.push(addr.pack());
            proof {
                a6 = a6.push(addr@);
                assert(byte_views(v6s@) =~= sub0.push(addr@.packed()));
            }
        } else if !is4 && !is6 && wanto {
            let ghost sub0 = byte_views(ons@);
            proof {
                assert(is_onion_model(addr@));
                lemma_partial_push(ao, sub0, db@, hash@, |a: AddrModel| is_onion_model(a),
                    peers@, t0);
            }
            ons.push(addr.pack());
            proof {
                ao = ao.push(addr@);
                assert(byte_views(ons@) =~= sub0.push(addr@.packed()));
            }
        }
        t += 1;
    }
    proof {
        lemma_partial_done(a4, byte_views(v4s@), db@, hash@, |a: AddrModel| is_ip4_model(a),
            peers@, want4);
        lemma_partial_done(a6, byte_views(v6s@), db@, hash@, |a: AddrModel| is_ip6_model(a),
            peers@, want6);
        lemma_partial_done(ao, byte_views(ons@), db@, hash@, |a: AddrModel| is_onion_model(a),
            peers@, wanto);
    }
    AnnouncePeers { ip_v4: v4s, ip_v6: v6s, onion_v2: ons }
}

/// The state of one family list while the seeders are walked: sound and
/// complete for the walked prefix.
pub open spec fn partial_wit(
    addrs: Seq<AddrModel>,
    sub: Seq<Seq<u8>>,
    d: DbModel,
    h: Seq<u8>,
    fam: spec_fn(AddrModel) -> bool,
    peers: Seq<Peer>,
    t: int,
    want: bool,
) -> bool {
    &&& addrs.no_duplicates()
    &&& addrs.len() == sub.len()
    &&& !want ==> addrs.len() == 0
    &&& forall|i: int| 0 <= i < addrs.len() ==> d.hash_peers(h).contains(#[trigger] addrs[i])
        && fam(addrs[i]) && sub[i] == addrs[i].packed()
    &&& forall|i: int| 0 <= i < addrs.len() ==> exists|x: int| 0 <= x < t && (#[trigger] addrs[
        i]) == peers[x]@.address
    &&& want ==> forall|x: int| 0 <= x < t && fam((#[trigger] peers[x])@.address)
        ==> addrs.contains(peers[x]@.address)
}

proof fn lemma_partial_push(
    addrs: Seq<AddrModel>,
    sub: Seq<Seq<u8>>,
    d: DbModel,
    h: Seq<u8>,
    fam: spec_fn(AddrModel) -> bool,
    peers: Seq<Peer>,
    t: int,
)
    requires
        partial_wit(addrs, sub, d, h, fam, peers, t, true),
        0 <= t < peers.len(),
        forall|x: int, y: int| 0 <= x < y < peers.len() ==> (#[trigger] peers[x])@.address != (
        #[trigger] peers[y])@.address,
        d.hash_peers(h).contains(peers[t]@.address),
        fam(peers[t]@.address),
    ensures
        partial_wit(
            addrs.push(peers[t]@.address),
            sub.push(peers[t]@.address.packed()),
            d,
            h,
            fam,
            peers,
            t + 1,
            true,
        ),
{
    let a2 = addrs.push(peers[t]@.address);
    let s2 = sub.push(peers[t]@.address.packed());
    assert forall|i: int| 0 <= i < a2.len() implies d.hash_peers(h).contains(#[trigger] a2[i])
        && fam(a2[i]) && s2[i] == a2[i].packed() by {
        if i < addrs.len() {
            assert(a2[i] == addrs[i] && s2[i] == sub[i]);
        }
    }
    assert forall|i: int| 0 <= i < a2.len() implies exists|x: int| 0 <= x < t + 1 && (
    #[trigger] a2[i]) == peers[x]@.address by {
        if i < addrs.len() {
            let x = choose|x: int| 0 <= x < t && addrs[i] == peers[x]@.address;
            assert(a2[i] == peers[x]@.address);
        } else {
            assert(a2[i] == peers[t]@.address);
        }
    }
    assert forall|x: int| 0 <= x < t + 1 && fam((#[trigger] peers[x])@.address) implies
        a2.contains(peers[x]@.address) by {
        if x < t {
            let i = choose|i: int| 0 <= i < addrs.len() && addrs[i] == peers[x]@.address;
            assert(a2[i] == peers[x]@.address);
        } else {
            assert(a2[a2.len() - 1] == peers[t]@.address);
        }
    }
    assert(a2.no_duplicates()) by {
        assert forall|i: int, j: int| 0 <= i < j < a2.len() implies a2[i] != a2[j] by {
            if j == a2.len() - 1 {
                if a2[i] == peers[t]@.address {
                    let x = choose|x: int| 0 <= x < t && addrs[i] == peers[x]@.address;
                    assert(peers[x]@.address == peers[t]@.address);
                }
            } else {
                assert(a2[i] == addrs[i] && a2[j] == addrs[j]);
            }
        }
    }
}

proof fn lemma_partial_done(
    addrs: Seq<AddrModel>,
    sub: Seq<Seq<u8>>,
    d: DbModel,
    h: Seq<u8>,
    fam: spec_fn(AddrModel) -> bool,
    peers: Seq<Peer>,
    want: bool,
)
    requires
        partial_wit(addrs, sub, d, h, fam, peers, peers.len() as int, want),
        forall|x: int| 0 <= x < peers.len() ==> d.links.contains(
            ((#[trigger] peers[x])@.address, h)),
        forall|x: int, y: int| 0 <= x < y < peers.len() ==> (#[trigger] peers[x])@.address != (
        #[trigger] peers[y])@.address,
        forall|a: AddrModel| #[trigger] d.links.contains((a, h)) ==> exists|x: int|
            0 <= x < peers.len() && peers[x]@.address == a,
        want ==> forall|i: int| 0 <= i < peers.len() ==> d.hash_peers(h).contains(
            (#[trigger] peers[i])@.address),
    ensures
        want ==> packed_list_ok(sub, d, h, fam),
        !want ==> sub.len() == 0,
{
    if want {
        assert forall|a: AddrModel| d.hash_peers(h).contains(a) && fam(a) implies addrs.contains(
            a) by {
            assert(d.links.contains((a, h)));
            let x = choose|x: int| 0 <= x < peers.len() && peers[x]@.address == a;
            assert(fam(peers[x]@.address));
        }
        assert(packed_list_wit(addrs, sub, d, h, fam));
    }
}

} // verus!
