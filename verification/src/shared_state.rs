//! The single shared container: the peer database and the moment the
//! tracker started. The caller guards a value of this type with its lock
//! and hands it to every connection handler and to the janitor.

use vstd::prelude::*;
use crate::peer_db::PeerDB;

verus! {

pub struct SharedState {
    pub peer_db: PeerDB,
    pub start_time: u64,
}

/// An instant read from signed epoch seconds, as a SQL store keeps them;
/// instants before the epoch have no reading.
pub fn unix_to_timestamp(seconds: i64) -> (r: u64)
    requires
        seconds >= 0,
    ensures
        r == seconds,
{
    seconds as u64
}

/// An instant written back as signed epoch seconds.
pub fn timestamp_to_unix(timestamp: u64) -> (r: i64)
    requires
        timestamp <= i64::MAX,
    ensures
        r == timestamp,
{
    timestamp as i64
}

impl SharedState {
    /// A fresh state around an empty database, started at the given moment.
    pub fn new(now: u64) -> (r: SharedState)
        ensures
            r.peer_db.inv(),
            r.peer_db@.peers.dom() == Set::<crate::address::AddrModel>::empty(),
            r.peer_db@.hashes.dom() == Set::<Seq<u8>>::empty(),
            r.peer_db@.links == Set::<(crate::address::AddrModel, Seq<u8>)>::empty(),
            r.start_time == now,
    {
        let db = match PeerDB::new() {
            Ok(db) => db,
            Err(_) => {
                proof {
                    assert(false);
                }
                unreached()
            },
        };
        proof {
            assert(db@.peers.dom() =~= Set::<crate::address::AddrModel>::empty());
            assert(db@.hashes.dom() =~= Set::<Seq<u8>>::empty());
        }
        SharedState { peer_db: db, start_time: now }
    }
}

} // verus!
