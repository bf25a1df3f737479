//! The registry's laws: what holds of every database the operations can
//! produce, stated over the database model and proved from the operations'
//! contracts.

use vstd::prelude::*;
use crate::address::AddrModel;
use crate::peer_db::DbModel;
use crate::peer_db::PeerModel;
use crate::peer_db::added_links;
use crate::peer_db::live_peers;
use crate::peer_db::remove_model;
use crate::peer_db::seeded_hashes;
use crate::peer_db::upsert_model;
use crate::peer_db::upserted_peer;

verus! {

/// The forward index the registry presents: each registered peer with the
/// hashes it seeds.
pub open spec fn peer_index(m: DbModel) -> Map<AddrModel, Set<Seq<u8>>> {
    Map::new(|a: AddrModel| m.peers.contains_key(a), |a: AddrModel| m.peer_hashes(a))
}

/// The reverse index the registry presents: each known hash with the peers
/// seeding it.
pub open spec fn hash_index(m: DbModel) -> Map<Seq<u8>, Set<AddrModel>> {
    Map::new(|h: Seq<u8>| m.hashes.contains_key(h), |h: Seq<u8>| m.hash_peers(h))
}

/// Law: the indices of a well-formed database are consistent. The forward
/// index is keyed by exactly the registered peers, the reverse index by
/// exactly the known hashes, and every membership in one index stands in
/// the other, between a registered peer and a known hash.
pub proof fn lemma_index_consistency(m: DbModel)
    requires
        m.inv(),
    ensures
        peer_index(m).dom() == m.peers.dom(),
        hash_index(m).dom() == m.hashes.dom(),
        forall|h: Seq<u8>, a: AddrModel| hash_index(m).contains_key(h) && #[trigger] hash_index(
            m)[h].contains(a) ==> peer_index(m).contains_key(a) && peer_index(m)[a].contains(h)
            && m.peers.contains_key(a) && m.hashes.contains_key(h),
        forall|a: AddrModel, h: Seq<u8>| peer_index(m).contains_key(a) && #[trigger] peer_index(
            m)[a].contains(h) ==> hash_index(m).contains_key(h) && hash_index(m)[h].contains(a),
{
    assert(peer_index(m).dom() =~= m.peers.dom());
    assert(hash_index(m).dom() =~= m.hashes.dom());
    assert forall|h: Seq<u8>, a: AddrModel|
        hash_index(m).contains_key(h) && #[trigger] hash_index(m)[h].contains(
            a) implies peer_index(m).contains_key(a) && peer_index(m)[a].contains(h)
        && m.peers.contains_key(a) && m.hashes.contains_key(h) by {
        assert(m.links.contains((a, h)));
    }
    assert forall|a: AddrModel, h: Seq<u8>|
        peer_index(m).contains_key(a) && #[trigger] peer_index(m)[a].contains(
            h) implies hash_index(m).contains_key(h) && hash_index(m)[h].contains(a) by {
        assert(m.links.contains((a, h)));
    }
}

/// Law: after an upsert the peer stands in the registry with the announced
/// last-seen time; its first-seen date is kept from the registry when the
/// address was already known, and taken from the announce otherwise.
pub proof fn lemma_upsert_then_lookup(m: DbModel, p: PeerModel, hs: Seq<Seq<u8>>, now: u64)
    ensures
        upsert_model(m, p, hs, now).peers.contains_key(p.address),
        upsert_model(m, p, hs, now).peers[p.address].last_seen == p.last_seen,
        upsert_model(m, p, hs, now).peers[p.address].date_added == (if m.peers.contains_key(
            p.address,
        ) {
            m.peers[p.address].date_added
        } else {
            p.date_added
        }),
{
    assert(upsert_model(m, p, hs, now).peers[p.address] == upserted_peer(m.peers, p));
}

/// Law: announcing an identical peer again is idempotent at the link
/// level. The second upsert leaves the seeder set of every hash as the
/// first left it, so its size does not grow.
pub proof fn lemma_reannounce_idempotent(
    m: DbModel,
    p: PeerModel,
    q: PeerModel,
    hs: Seq<Seq<u8>>,
    now: u64,
    now2: u64,
    h: Seq<u8>,
)
    requires
        q.address == p.address,
    ensures
        upsert_model(upsert_model(m, p, hs, now), q, hs, now2).hash_peers(h) == upsert_model(
            m,
            p,
            hs,
            now,
        ).hash_peers(h),
        upsert_model(upsert_model(m, p, hs, now), q, hs, now2).hash_peers(h).len()
            == upsert_model(m, p, hs, now).hash_peers(h).len(),
{
    let once = upsert_model(m, p, hs, now);
    let twice = upsert_model(once, q, hs, now2);
    assert(twice.links =~= once.links) by {
        assert(once.links == added_links(m.links, p.address, hs));
        assert(twice.links == added_links(added_links(m.links, p.address, hs), q.address, hs));
    }
    assert(twice.hash_peers(h) =~= once.hash_peers(h));
}

/// Every registered peer was first seen no later than it was last heard
/// from.
pub open spec fn dates_ok(peers: Map<AddrModel, PeerModel>) -> bool {
    forall|a: AddrModel| #[trigger] peers.contains_key(a) ==> peers[a].date_added <= peers[
        a].last_seen
}

/// Law: an upsert keeps every first-seen date at or before the matching
/// last-seen time, provided the announce itself is ordered and its time
/// does not fall behind the peer's first sighting — the monotone-clock
/// hypothesis an announcing tracker meets.
pub proof fn lemma_upsert_keeps_dates(m: DbModel, p: PeerModel, hs: Seq<Seq<u8>>, now: u64)
    requires
        dates_ok(m.peers),
        p.date_added <= p.last_seen,
        m.peers.contains_key(p.address) ==> m.peers[p.address].date_added <= p.last_seen,
    ensures
        dates_ok(upsert_model(m, p, hs, now).peers),
{
    let post = upsert_model(m, p, hs, now).peers;
    assert forall|a: AddrModel| #[trigger] post.contains_key(a) implies post[a].date_added
        <= post[a].last_seen by {
        if a != p.address {
            assert(m.peers.contains_key(a));
        }
    }
}

/// Law: removing a peer keeps the remaining dates ordered.
pub proof fn lemma_remove_keeps_dates(m: DbModel, a: AddrModel)
    requires
        dates_ok(m.peers),
    ensures
        dates_ok(remove_model(m, a).peers),
{
    assert forall|b: AddrModel| #[trigger] remove_model(m, a).peers.contains_key(
        b) implies remove_model(m, a).peers[b].date_added <= remove_model(m, a).peers[
        b].last_seen by {
        assert(m.peers.contains_key(b));
    }
}

/// Law: the peer sweep keeps the surviving dates ordered.
pub proof fn lemma_cleanup_keeps_dates(peers: Map<AddrModel, PeerModel>, cutoff: u64)
    requires
        dates_ok(peers),
    ensures
        dates_ok(live_peers(peers, cutoff)),
{
    assert forall|a: AddrModel| #[trigger] live_peers(peers, cutoff).contains_key(
        a) implies live_peers(peers, cutoff)[a].date_added <= live_peers(peers, cutoff)[
        a].last_seen by {
        assert(peers.contains_key(a));
    }
}

/// Law: after the peer sweep, no peer whose last announce is older than the
/// cutoff remains.
pub proof fn lemma_cleanup_peers_expires(m: Map<AddrModel, PeerModel>, cutoff: u64)
    ensures
        forall|a: AddrModel| #[trigger] live_peers(m, cutoff).contains_key(a) ==> live_peers(
            m,
            cutoff,
        )[a].last_seen >= cutoff,
{
}

/// Law: after the hash sweep, every hash that is still known has at least
/// one seeder in the unchanged linkage.
pub proof fn lemma_cleanup_hashes_no_peerless(
    hashes: Map<Seq<u8>, u64>,
    m: DbModel,
    h: Seq<u8>,
)
    requires
        m.hashes == seeded_hashes(hashes, m.links),
        m.hashes.contains_key(h),
    ensures
        m.hash_peers(h) != Set::<AddrModel>::empty(),
{
    let a = choose|a: AddrModel| m.links.contains((a, h));
    assert(m.hash_peers(h).contains(a));
    assert(!Set::<AddrModel>::empty().contains(a));
}

} // verus!
