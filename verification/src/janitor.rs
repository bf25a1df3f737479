//! The janitor's decision: one cleanup cycle over the shared state. The
//! caller sleeps, reads the clock, and hands the moment in; peers unheard
//! from past the timeout are evicted first, and hashes orphaned by that
//! sweep are reclaimed in the same cycle.

use vstd::prelude::*;
use crate::peer_db::live_peers;
use crate::peer_db::links_of_peers;
use crate::peer_db::seeded_hashes;
use crate::shared_state::SharedState;

verus! {

/// One cycle: expire peers unheard from for `timeout` minutes, then sweep
/// peerless hashes, in that order. A cutoff that falls before the tracker's
/// start skips the cycle, so that peers announced before a restart get time
/// to announce again. Returns the removed counts, or `None` for a skipped
/// cycle.
pub fn cycle(state: &mut SharedState, now: u64, timeout: u16) -> (r: Option<(usize, usize)>)
    requires
        old(state).peer_db.inv(),
    ensures
        final(state).peer_db.inv(),
        final(state).start_time == old(state).start_time,
        r is None <==> now - 60 * (timeout as int) < old(state).start_time,
        r is None ==> final(state).peer_db@ == old(state).peer_db@,
        r is Some ==> {
            let cutoff = (now - 60 * (timeout as u64)) as u64;
            let d = old(state).peer_db@;
            &&& final(state).peer_db@.peers == live_peers(d.peers, cutoff)
            &&& final(state).peer_db@.links == links_of_peers(
                d.links,
                final(state).peer_db@.peers,
            )
            &&& final(state).peer_db@.hashes == seeded_hashes(
                d.hashes,
                final(state).peer_db@.links,
            )
            &&& (r->Some_0).0 + final(state).peer_db@.peers.dom().len() == d.peers.dom().len()
            &&& (r->Some_0).1 + final(state).peer_db@.hashes.dom().len()
                == d.hashes.dom().len()
        },
{
    let timeout_secs: u64 = 60 * (timeout as u64);
    if now < timeout_secs {
        return None;
    }
    let cutoff = now - timeout_secs;
    if cutoff < state.start_time {
        return None;
    }
    let dead_peers = match state.peer_db.cleanup_peers(cutoff) {
        Ok(n) => n,
        Err(_) => {
            proof {
                assert(false);
            }
            unreached()
        },
    };
    let stale_hashes = match state.peer_db.cleanup_hashes() {
        Ok(n) => n,
        Err(_) => {
            proof {
                assert(false);
            }
            unreached()
        },
    };
    Some((dead_peers, stale_hashes))
}

} // verus!
