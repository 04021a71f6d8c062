use rbc::bracha::{Msg, ProtMsg};
use rbc::codec::{decode, encode, WrapperMsg};

fn same(a: &ProtMsg, b: &ProtMsg) -> bool {
    match (a, b) {
        (ProtMsg::Init(x, i), ProtMsg::Init(y, j))
        | (ProtMsg::Echo(x, i), ProtMsg::Echo(y, j))
        | (ProtMsg::Ready(x, i), ProtMsg::Ready(y, j)) => i == j && x.content == y.content && x.origin == y.origin,
        _ => false,
    }
}

#[test]
fn encoding_layout_is_tag_then_little_endian_fields() {
    let m = ProtMsg::Echo(Msg { content: vec![0xaa, 0xbb], origin: 3 }, 0x0102);
    let b = encode(&m);
    let mut expected = vec![1u8];
    expected.extend_from_slice(&[0x02, 0x01, 0, 0, 0, 0, 0, 0]);
    expected.extend_from_slice(&[3, 0, 0, 0, 0, 0, 0, 0]);
    expected.extend_from_slice(&[2, 0, 0, 0, 0, 0, 0, 0]);
    expected.extend_from_slice(&[0xaa, 0xbb]);
    assert_eq!(b, expected);
}

#[test]
fn decode_inverts_encode() {
    let msgs = vec![
        ProtMsg::Init(Msg { content: b"hello".to_vec(), origin: 0 }, 1),
        ProtMsg::Echo(Msg { content: vec![], origin: 6 }, 20001),
        ProtMsg::Ready(Msg { content: vec![0; 300], origin: 2 }, usize::MAX),
    ];
    for m in &msgs {
        let back = decode(&encode(m)).unwrap();
        assert!(same(m, &back));
    }
}

#[test]
fn decode_rejects_malformed_frames() {
    let m = ProtMsg::Ready(Msg { content: vec![9, 9, 9], origin: 1 }, 4);
    let b = encode(&m);
    assert!(decode(&b[..b.len() - 1]).is_none());
    let mut longer = b.clone();
    longer.push(0);
    assert!(decode(&longer).is_none());
    let mut bad_tag = b.clone();
    bad_tag[0] = 3;
    assert!(decode(&bad_tag).is_none());
    assert!(decode(&[]).is_none());
}

#[test]
fn mac_checks_key_and_contents() {
    let m = ProtMsg::Init(Msg { content: b"v".to_vec(), origin: 0 }, 1);
    let w = WrapperMsg::new(m, 0, b"key-01");
    assert_eq!(w.mac.len(), 32);
    assert!(w.check_mac(b"key-01"));
    assert!(!w.check_mac(b"key-02"));
    let mut tampered = w;
    tampered.protmsg = ProtMsg::Init(Msg { content: b"w".to_vec(), origin: 0 }, 1);
    assert!(!tampered.check_mac(b"key-01"));
}
