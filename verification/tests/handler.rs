use zeronet_tracker::address::PeerAddress;
use zeronet_tracker::handler::{AnnounceRequest, Handler, HandshakeRequest};
use zeronet_tracker::peer_db::PeerDB;
use zeronet_tracker::peer_db::Hash as ContentHash;

fn addr(s: &str) -> PeerAddress {
    PeerAddress::parse(s).unwrap()
}

fn announce(hashes: Vec<ContentHash>, onions: Vec<String>, port: u16, delete: bool) -> AnnounceRequest {
    AnnounceRequest {
        hashes,
        onions,
        port,
        need_types: vec!["ipv4".to_string()],
        delete,
    }
}

#[test]
fn test_handshake_and_empty_announce() {
    // open a connection, shake hands, announce nothing: the reply carries
    // the server's peer id and the peer list is empty
    let mut db = PeerDB::new().unwrap();
    let mut handler = Handler::create(addr("127.0.0.1:15442"));
    let hs = HandshakeRequest {
        fileserver_port: 15441,
        onion: Some("zp2ynpztyxj2kw7x".to_string()),
    };
    let reply = handler.handle_handshake(&hs);
    assert!(reply.is_some());
    assert_eq!(reply.unwrap().peer_id, "");
    assert_eq!(handler.address.format(), "zp2ynpztyxj2kw7x.onion:15441");

    let resp = handler.handle_announce(&mut db, &announce(vec![], vec![], 15441, false), 1000);
    assert_eq!(resp.peers.len(), 0);
}

#[test]
fn test_handshake_without_onion_keeps_address() {
    let mut handler = Handler::create(addr("1.2.3.4:5"));
    let hs = HandshakeRequest { fileserver_port: 15441, onion: None };
    let reply = handler.handle_handshake(&hs);
    assert!(reply.is_some());
    assert_eq!(handler.address, addr("1.2.3.4:5"));
}

#[test]
fn test_handshake_empty_onion_counts_as_absent() {
    // an empty onion field does not rewrite the address, and the reply is
    // still sent
    let mut handler = Handler::create(addr("1.2.3.4:5"));
    let hs = HandshakeRequest {
        fileserver_port: 15441,
        onion: Some(String::new()),
    };
    let reply = handler.handle_handshake(&hs);
    assert!(reply.is_some());
    assert_eq!(handler.address, addr("1.2.3.4:5"));
}

#[test]
fn test_handshake_bad_onion_sends_nothing() {
    let mut handler = Handler::create(addr("1.2.3.4:5"));
    let hs = HandshakeRequest {
        fileserver_port: 15441,
        onion: Some("not-base32!".to_string()),
    };
    let reply = handler.handle_handshake(&hs);
    assert!(reply.is_none());
    assert_eq!(handler.address, addr("1.2.3.4:5"));
}

#[test]
fn test_single_hash_self_announce() {
    // a non-loopback announcer sees exactly its own packed address back
    let mut db = PeerDB::new().unwrap();
    let handler = Handler::create(addr("1.2.3.4:9999"));
    let h1 = ContentHash(vec![1u8; 20]);
    let resp = handler.handle_announce(
        &mut db,
        &announce(vec![h1], vec![], 15441, false),
        1000,
    );
    assert_eq!(resp.peers.len(), 1);
    let entry = &resp.peers[0];
    assert_eq!(entry.ip_v4.len(), 1);
    assert_eq!(entry.ip_v4[0], addr("1.2.3.4:15441").pack());
    assert_eq!(entry.ip_v6.len(), 0);
    assert_eq!(entry.onion_v2.len(), 0);
}

#[test]
fn test_two_peers_same_hash() {
    let mut db = PeerDB::new().unwrap();
    let h1 = ContentHash(vec![1u8; 20]);
    let a = Handler::create(addr("1.2.3.4:1"));
    let b = Handler::create(addr("5.6.7.8:2"));
    a.handle_announce(&mut db, &announce(vec![h1.clone()], vec![], 15441, false), 1000);
    let resp = b.handle_announce(&mut db, &announce(vec![h1], vec![], 15441, false), 1001);
    assert_eq!(resp.peers.len(), 1);
    let list = &resp.peers[0].ip_v4;
    assert_eq!(list.len(), 2);
    let pa = addr("1.2.3.4:15441").pack();
    let pb = addr("5.6.7.8:15441").pack();
    assert!(list.contains(&pa));
    assert!(list.contains(&pb));
    assert_eq!(db.get_peer_count().unwrap(), 2);
    assert_eq!(db.get_hash_count().unwrap(), 1);
}

#[test]
fn test_loopback_suppression() {
    let mut db = PeerDB::new().unwrap();
    let handler = Handler::create(addr("127.0.0.1:9999"));
    let h1 = ContentHash(vec![1u8; 20]);
    handler.handle_announce(&mut db, &announce(vec![h1], vec![], 15441, false), 1000);
    assert_eq!(db.get_peer_count().unwrap(), 0);
    assert_eq!(db.get_hash_count().unwrap(), 0);
}

#[test]
fn test_onion_announce() {
    // each onion is paired with its positional hash
    let mut db = PeerDB::new().unwrap();
    let handler = Handler::create(addr("1.2.3.4:9999"));
    let h1 = ContentHash(vec![1u8; 20]);
    let h2 = ContentHash(vec![2u8; 20]);
    let req = AnnounceRequest {
        hashes: vec![h1.clone(), h2.clone()],
        onions: vec![
            "aaaaaaaaaaaaaaaa".to_string(),
            "bbbbbbbbbbbbbbbb".to_string(),
        ],
        port: 15441,
        need_types: vec!["onion".to_string()],
        delete: false,
    };
    handler.handle_announce(&mut db, &req, 1000);
    assert_eq!(db.get_peer_count().unwrap(), 2);
    let a1 = addr("aaaaaaaaaaaaaaaa.onion:15441");
    let a2 = addr("bbbbbbbbbbbbbbbb.onion:15441");
    assert!(db.get_peer(&a1).unwrap().is_some());
    assert!(db.get_peer(&a2).unwrap().is_some());
    let p1 = db.get_peers_for_hash(&h1).unwrap();
    assert_eq!(p1.len(), 1);
    assert_eq!(p1[0].address, a1);
    let p2 = db.get_peers_for_hash(&h2).unwrap();
    assert_eq!(p2.len(), 1);
    assert_eq!(p2[0].address, a2);
}

#[test]
fn test_announce_delete_flag() {
    let mut db = PeerDB::new().unwrap();
    let handler = Handler::create(addr("1.2.3.4:9999"));
    let h1 = ContentHash(vec![1u8; 20]);
    handler.handle_announce(&mut db, &announce(vec![h1], vec![], 15441, false), 1000);
    assert_eq!(db.get_peer_count().unwrap(), 1);
    // the delete flag removes the primary peer before the (empty) re-insert;
    // an empty announce from the same peer re-registers it without hashes
    let resp = handler.handle_announce(&mut db, &announce(vec![], vec![], 15441, true), 1001);
    assert_eq!(resp.peers.len(), 0);
    assert_eq!(db.get_peer_count().unwrap(), 1);
    let h1 = ContentHash(vec![1u8; 20]);
    assert_eq!(db.get_peers_for_hash(&h1).unwrap().len(), 0);
}

#[test]
fn test_need_types_filtering() {
    let mut db = PeerDB::new().unwrap();
    let h1 = ContentHash(vec![1u8; 20]);
    let onion = Handler::create(addr("aaaaaaaaaaaaaaaa.onion:1"));
    onion.handle_announce(&mut db, &announce(vec![h1.clone()], vec![], 15441, false), 1000);
    let v4 = Handler::create(addr("1.2.3.4:1"));
    v4.handle_announce(&mut db, &announce(vec![h1.clone()], vec![], 15441, false), 1001);

    // ip4 is a recognized spelling of the IPv4 family; the onion seeder is
    // listed only when onions are asked for
    let req = AnnounceRequest {
        hashes: vec![h1.clone()],
        onions: vec![],
        port: 15441,
        need_types: vec!["ip4".to_string()],
        delete: false,
    };
    let resp = v4.handle_announce(&mut db, &req, 1002);
    assert_eq!(resp.peers[0].ip_v4.len(), 1);
    assert_eq!(resp.peers[0].onion_v2.len(), 0);

    let req = AnnounceRequest {
        hashes: vec![h1],
        onions: vec![],
        port: 15441,
        need_types: vec!["onion".to_string(), "ipv4".to_string()],
        delete: false,
    };
    let resp = v4.handle_announce(&mut db, &req, 1003);
    assert_eq!(resp.peers[0].ip_v4.len(), 1);
    assert_eq!(resp.peers[0].onion_v2.len(), 1);
    assert_eq!(resp.peers[0].onion_v2[0], addr("aaaaaaaaaaaaaaaa.onion:15441").pack());
}

#[test]
fn test_unknown_request_and_invalid() {
    let handler = Handler::create(addr("1.2.3.4:5"));
    assert_eq!(handler.handle_unsupported(), "Unknown request");
    let err = handler.handle_invalid("bad body");
    assert_eq!(err.error, "Invalid data: bad body");
}
