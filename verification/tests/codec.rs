use std::sync::Arc;

use disk_engine::message::{Bitfield, Message};

fn encoded(m: &Message) -> Vec<u8> {
    let mut buf = Vec::new();
    m.encode(&mut buf);
    buf
}

#[test]
fn request_encodes_to_seventeen_bytes() {
    let m = Message::request(1, 2, 3);
    assert_eq!(m.len(), 17);
    assert_eq!(
        encoded(&m),
        vec![0, 0, 0, 13, 6, 0, 0, 0, 1, 0, 0, 0, 2, 0, 0, 0, 3]
    );
}

#[test]
fn cancel_uses_id_eight() {
    let m = Message::Cancel { index: 1, begin: 2, length: 3 };
    assert_eq!(m.len(), 17);
    assert_eq!(
        encoded(&m),
        vec![0, 0, 0, 13, 8, 0, 0, 0, 1, 0, 0, 0, 2, 0, 0, 0, 3]
    );
}

#[test]
fn core_messages_encode_exactly() {
    assert_eq!(encoded(&Message::KeepAlive), vec![0, 0, 0, 0]);
    assert_eq!(encoded(&Message::Choke), vec![0, 0, 0, 1, 0]);
    assert_eq!(encoded(&Message::Unchoke), vec![0, 0, 0, 1, 1]);
    assert_eq!(encoded(&Message::Interested), vec![0, 0, 0, 1, 2]);
    assert_eq!(encoded(&Message::Uninterested), vec![0, 0, 0, 1, 3]);
    assert_eq!(
        encoded(&Message::Have(0x01020304)),
        vec![0, 0, 0, 5, 4, 1, 2, 3, 4]
    );
    assert_eq!(encoded(&Message::Port(8080)), vec![0, 0, 0, 3, 9, 0x1F, 0x90]);
}

#[test]
fn bitfield_carries_its_bytes() {
    let m = Message::Bitfield(Bitfield::new(vec![0xAA, 0x55]));
    assert_eq!(m.len(), 7);
    assert_eq!(encoded(&m), vec![0, 0, 0, 3, 5, 0xAA, 0x55]);
}

#[test]
fn piece_header_declares_payload_but_does_not_carry_it() {
    let data = vec![9u8; 32];
    let m = Message::Piece { index: 1, begin: 64, length: 32, data };
    assert_eq!(m.len(), 45);
    assert_eq!(
        encoded(&m),
        vec![0, 0, 0, 41, 7, 0, 0, 0, 1, 0, 0, 0, 64]
    );
    let shared = Message::s_piece(1, 64, 32, Arc::new(vec![9u8; 32]));
    assert_eq!(encoded(&shared), encoded(&m));
}

#[test]
fn extension_appends_payload() {
    let m = Message::Extension { id: 5, payload: vec![1, 2] };
    assert_eq!(m.len(), 8);
    assert_eq!(encoded(&m), vec![0, 0, 0, 4, 20, 5, 1, 2]);
}

#[test]
fn handshake_announces_dht_and_extension_protocol() {
    let hash = [0x11u8; 20];
    let id = [0x22u8; 20];
    let m = Message::handshake(&hash, &id);
    assert!(m.is_special());
    assert_eq!(m.len(), 68);
    let bytes = encoded(&m);
    assert_eq!(bytes.len(), 68);
    assert_eq!(bytes[0], 19);
    assert_eq!(&bytes[1..20], b"BitTorrent protocol");
    assert_eq!(&bytes[20..28], &[0, 0, 0, 0, 0, 0x10, 0, 0x01]);
    assert_eq!(&bytes[28..48], &hash);
    assert_eq!(&bytes[48..68], &id);
    let (h, i, rsv) = m.get_handshake_data();
    assert_eq!(h, hash);
    assert_eq!(i, id);
    assert_eq!(rsv, [0, 0, 0, 0, 0, 0x10, 0, 0x01]);
}

#[test]
fn only_setup_messages_are_special() {
    assert!(Message::Bitfield(Bitfield::new(vec![])).is_special());
    assert!(Message::Extension { id: 0, payload: vec![] }.is_special());
    assert!(!Message::KeepAlive.is_special());
    assert!(!Message::request(0, 0, 0).is_special());
}

#[test]
fn equality_compares_headers_not_payloads() {
    let a = Message::Piece { index: 1, begin: 2, length: 3, data: vec![1, 2, 3] };
    let b = Message::Piece { index: 1, begin: 2, length: 3, data: vec![9, 9, 9] };
    assert!(a == b);
    let c = Message::Piece { index: 1, begin: 2, length: 4, data: vec![1, 2, 3] };
    assert!(a != c);
    assert!(Message::KeepAlive == Message::KeepAlive);
    assert!(Message::Choke != Message::Unchoke);
    assert!(Message::Have(1) != Message::Have(2));
    assert!(
        Message::Extension { id: 1, payload: vec![1] }
            == Message::Extension { id: 1, payload: vec![1] }
    );
    // bitfields are never compared equal
    assert!(
        Message::Bitfield(Bitfield::new(vec![1])) != Message::Bitfield(Bitfield::new(vec![1]))
    );
    let cloned = a.clone();
    assert!(cloned == a);
}
