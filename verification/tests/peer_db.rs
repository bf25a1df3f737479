use zeronet_tracker::peer_db::{Peer, PeerDB};
use zeronet_tracker::peer_db::Hash as ContentHash;
use zeronet_tracker::address::PeerAddress;

fn addr(s: &str) -> PeerAddress {
    PeerAddress::parse(s).unwrap()
}

#[test]
fn test_update_peer() {
    let mut peer_db = PeerDB::new().unwrap();
    let hashes = vec![ContentHash(vec![0u8])];
    let now: u64 = 1000;
    let peer1 = Peer {
        address: addr("127.0.0.1:11111"),
        last_seen: now,
        date_added: now,
    };
    let peer2 = Peer {
        address: addr("127.0.0.1:11111"),
        last_seen: now,
        date_added: now + 5,
    };

    assert_eq!(
        peer_db.update_peer(peer1, hashes.clone(), now).unwrap(),
        false,
        "Peer inserted"
    );
    assert_eq!(
        peer_db.update_peer(peer2, hashes, now).unwrap(),
        true,
        "Peer updated"
    );
}

#[test]
fn test_remove_peer() {
    let mut peer_db = PeerDB::new().unwrap();
    let hashes = vec![ContentHash(vec![0u8])];
    let now: u64 = 1000;
    let peer = Peer {
        address: addr("127.0.0.1:11111"),
        last_seen: now,
        date_added: now,
    };

    peer_db
        .update_peer(peer, hashes, now)
        .expect("Could not update peer");
    assert!(peer_db.remove_peer(&addr("127.0.0.1:11111")).is_ok());
    assert_eq!(peer_db.get_peer_count().unwrap(), 0);
}

#[test]
fn test_get_peer() {
    let mut peer_db = PeerDB::new().unwrap();
    let hash = ContentHash(vec![0u8]);
    let now: u64 = 1000;
    let peer = Peer {
        address: addr("127.0.0.1:11111"),
        last_seen: now,
        date_added: now,
    };
    peer_db
        .update_peer(peer, vec![hash], now)
        .expect("Could not update peer");

    assert_eq!(peer_db.get_peer_count().unwrap(), 1);
}

#[test]
fn test_get_peer_count() {
    let mut peer_db = PeerDB::new().unwrap();
    let hash = ContentHash(vec![0u8]);
    let now: u64 = 1000;
    let peer = Peer {
        address: addr("127.0.0.1:11111"),
        last_seen: now,
        date_added: now,
    };

    assert_eq!(peer_db.get_peer_count().unwrap(), 0);
    peer_db
        .update_peer(peer, vec![hash], now)
        .expect("Could not update peer");
    assert_eq!(peer_db.get_peer_count().unwrap(), 1);
}

#[test]
fn test_get_hash_count() {
    let mut peer_db = PeerDB::new().unwrap();
    let hash = ContentHash(vec![0u8]);
    let now: u64 = 1000;
    let peer = Peer {
        address: addr("127.0.0.1:11111"),
        last_seen: now,
        date_added: now,
    };

    assert_eq!(peer_db.get_hash_count().unwrap(), 0);
    peer_db
        .update_peer(peer, vec![hash], now)
        .expect("Could not update peer");
    assert_eq!(peer_db.get_hash_count().unwrap(), 1);
}

#[test]
fn test_get_peers_for_hash() {
    let mut peer_db = PeerDB::new().unwrap();
    let hash = ContentHash(vec![0u8]);
    let now: u64 = 1000;
    let peer = Peer {
        address: addr("127.0.0.1:11111"),
        last_seen: now,
        date_added: now,
    };
    peer_db
        .update_peer(peer, vec![hash.clone()], now)
        .expect("Could not update peer");

    let peers = peer_db
        .get_peers_for_hash(&hash)
        .expect("Could not get peers for hash");

    assert_eq!(peers.len(), 1);
    assert_eq!(addr("127.0.0.1:11111"), peers[0].address);
}

#[test]
fn test_get_hashes() {
    let mut peer_db = PeerDB::new().unwrap();
    let hash = ContentHash(vec![0u8]);
    let now: u64 = 1000;
    let peer = Peer {
        address: addr("127.0.0.1:11111"),
        last_seen: now,
        date_added: now,
    };
    peer_db
        .update_peer(peer, vec![hash], now)
        .expect("Could not update peer");

    let hashes = peer_db.get_hashes().expect("Could not get hashes");

    assert_eq!(hashes.len(), 1);
    let (hash, peercount) = &hashes[0];
    assert_eq!(&ContentHash(vec![0u8]), hash);
    assert_eq!(&1, peercount);
}

#[test]
fn test_cleanup_peers() {
    let mut peer_db = PeerDB::new().unwrap();
    let result = peer_db.cleanup_peers(1000);
    assert!(result.is_ok());
}

#[test]
fn test_cleanup_hashes() {
    let mut peer_db = PeerDB::new().unwrap();
    let result = peer_db.cleanup_hashes();
    assert!(result.is_ok());
}

#[test]
fn test_update_preserves_date_added() {
    let mut peer_db = PeerDB::new().unwrap();
    let peer1 = Peer {
        address: addr("10.0.0.1:1000"),
        date_added: 100,
        last_seen: 100,
    };
    let peer2 = Peer {
        address: addr("10.0.0.1:1000"),
        date_added: 900,
        last_seen: 950,
    };
    peer_db.update_peer(peer1, vec![], 100).unwrap();
    peer_db.update_peer(peer2, vec![], 950).unwrap();
    let got = peer_db.get_peer(&addr("10.0.0.1:1000")).unwrap().unwrap();
    assert_eq!(got.date_added, 100);
    assert_eq!(got.last_seen, 950);
}

#[test]
fn test_reannounce_does_not_grow_links() {
    let mut peer_db = PeerDB::new().unwrap();
    let h = ContentHash(vec![7u8, 8u8]);
    for round in 0..3u64 {
        let peer = Peer {
            address: addr("10.0.0.1:1000"),
            date_added: 100 + round,
            last_seen: 100 + round,
        };
        peer_db.update_peer(peer, vec![h.clone()], 100 + round).unwrap();
        let peers = peer_db.get_peers_for_hash(&h).unwrap();
        assert_eq!(peers.len(), 1);
    }
}

#[test]
fn test_remove_peer_keeps_hashes() {
    let mut peer_db = PeerDB::new().unwrap();
    let h = ContentHash(vec![1u8]);
    let peer = Peer {
        address: addr("10.0.0.1:1000"),
        date_added: 100,
        last_seen: 100,
    };
    peer_db.update_peer(peer, vec![h.clone()], 100).unwrap();
    let removed = peer_db.remove_peer(&addr("10.0.0.1:1000")).unwrap();
    assert!(removed.is_some());
    assert_eq!(removed.unwrap().date_added, 100);
    // the hash survives peerless until the janitor sweeps it
    assert_eq!(peer_db.get_hash_count().unwrap(), 1);
    assert_eq!(peer_db.get_peers_for_hash(&h).unwrap().len(), 0);
    assert_eq!(peer_db.cleanup_hashes().unwrap(), 1);
    assert_eq!(peer_db.get_hash_count().unwrap(), 0);
}

#[test]
fn test_expiry_cycle() {
    // a peer unheard from for an hour is evicted at a fifty-minute cutoff,
    // and its sole hash is reclaimed by the following sweep
    let mut peer_db = PeerDB::new().unwrap();
    let now: u64 = 100_000;
    let peer = Peer {
        address: addr("10.0.0.1:1000"),
        date_added: now - 3600,
        last_seen: now - 3600,
    };
    peer_db
        .update_peer(peer, vec![ContentHash(vec![9u8])], now - 3600)
        .unwrap();
    assert_eq!(peer_db.cleanup_peers(now - 3000).unwrap(), 1);
    assert_eq!(peer_db.get_peer_count().unwrap(), 0);
    assert_eq!(peer_db.get_peers_for_hash(&ContentHash(vec![9u8])).unwrap().len(), 0);
    assert_eq!(peer_db.cleanup_hashes().unwrap(), 1);
    assert_eq!(peer_db.get_hash_count().unwrap(), 0);
}

#[test]
fn test_get_peers_snapshot() {
    let mut peer_db = PeerDB::new().unwrap();
    for (i, a) in ["10.0.0.1:1", "10.0.0.2:2", "10.0.0.3:3"].iter().enumerate() {
        let peer = Peer {
            address: addr(a),
            date_added: i as u64,
            last_seen: i as u64,
        };
        peer_db.update_peer(peer, vec![], i as u64).unwrap();
    }
    let peers = peer_db.get_peers().unwrap();
    assert_eq!(peers.len(), 3);
    for a in ["10.0.0.1:1", "10.0.0.2:2", "10.0.0.3:3"] {
        assert!(peers.iter().any(|p| p.address == addr(a)));
    }
}

#[test]
fn test_get_peer_db_type() {
    assert_eq!(zeronet_tracker::peer_db::get_peer_db_type(), "Basic");
}

#[test]
fn test_index_consistency_over_sequence() {
    // after a mixed sequence of operations, the two indices agree: every
    // listed hash count matches its seeder list, every seeder is a
    // registered peer, and the expiry cutoff holds of the survivors
    let mut peer_db = PeerDB::new().unwrap();
    let h1 = ContentHash(vec![1u8]);
    let h2 = ContentHash(vec![2u8]);
    for (a, hs, t) in [
        ("10.0.0.1:1", vec![h1.clone(), h2.clone()], 100u64),
        ("10.0.0.2:2", vec![h1.clone()], 200),
        ("10.0.0.3:3", vec![h2.clone()], 300),
    ] {
        let peer = Peer {
            address: addr(a),
            date_added: t,
            last_seen: t,
        };
        peer_db.update_peer(peer, hs, t).unwrap();
    }
    peer_db.remove_peer(&addr("10.0.0.2:2")).unwrap();
    peer_db.cleanup_peers(150).unwrap();
    peer_db.cleanup_hashes().unwrap();

    let peers = peer_db.get_peers().unwrap();
    assert_eq!(peers.len(), peer_db.get_peer_count().unwrap());
    for p in &peers {
        assert!(p.last_seen >= 150);
    }
    let hashes = peer_db.get_hashes().unwrap();
    assert_eq!(hashes.len(), peer_db.get_hash_count().unwrap());
    for (h, count) in &hashes {
        let seeders = peer_db.get_peers_for_hash(h).unwrap();
        assert_eq!(seeders.len(), *count);
        assert!(*count > 0);
        for s in seeders {
            assert!(peers.iter().any(|p| p.address == s.address));
        }
    }
    // only the third peer survived, seeding only the second hash
    assert_eq!(peer_db.get_peer_count().unwrap(), 1);
    assert_eq!(peer_db.get_hash_count().unwrap(), 1);
    assert_eq!(hashes[0].0, ContentHash(vec![2u8]));
}
