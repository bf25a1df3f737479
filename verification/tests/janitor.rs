use zeronet_tracker::address::PeerAddress;
use zeronet_tracker::janitor;
use zeronet_tracker::peer_db::Peer;
use zeronet_tracker::peer_db::Hash as ContentHash;
use zeronet_tracker::shared_state::SharedState;

#[test]
fn test_cycle_skips_before_start() {
    // the cutoff falls before the tracker started: nothing is evicted
    let mut state = SharedState::new(100_000);
    let r = janitor::cycle(&mut state, 100_100, 50);
    assert!(r.is_none());
}

#[test]
fn test_cycle_sweeps_in_order() {
    let mut state = SharedState::new(1_000);
    let now: u64 = 1_000_000;
    let peer = Peer {
        address: PeerAddress::parse("1.2.3.4:80").unwrap(),
        date_added: now - 3600,
        last_seen: now - 3600,
    };
    state
        .peer_db
        .update_peer(peer, vec![ContentHash(vec![3u8])], now - 3600)
        .unwrap();
    let fresh = Peer {
        address: PeerAddress::parse("5.6.7.8:80").unwrap(),
        date_added: now - 60,
        last_seen: now - 60,
    };
    state
        .peer_db
        .update_peer(fresh, vec![ContentHash(vec![4u8])], now - 60)
        .unwrap();
    // a fifty-minute timeout evicts the hour-old peer and reclaims its hash
    let r = janitor::cycle(&mut state, now, 50);
    assert_eq!(r, Some((1, 1)));
    assert_eq!(state.peer_db.get_peer_count().unwrap(), 1);
    assert_eq!(state.peer_db.get_hash_count().unwrap(), 1);
}

#[test]
fn test_default_args() {
    let args = zeronet_tracker::args::Args::default();
    assert_eq!(args.port, 15442);
    assert_eq!(args.address, "localhost");
    assert_eq!(args.interval, 60);
    assert_eq!(args.timeout, 50);
    assert_eq!(args.rocket_port, 15441);
}

#[test]
fn test_timestamp_conversions() {
    assert_eq!(zeronet_tracker::shared_state::unix_to_timestamp(1234), 1234u64);
    assert_eq!(zeronet_tracker::shared_state::timestamp_to_unix(1234), 1234i64);
}
