use actor_core::codec::{decode_packet, decode_value, encode_packet, encode_value, Packet, Payload, Value};
use actor_core::handler::wrapping_add_u64;
use actor_core::mailbox::Mailbox;

#[test]
fn value_encodings_are_exact() {
    assert_eq!(encode_value(&Value::Empty), vec![0u8]);
    assert_eq!(
        encode_value(&Value::Int(1)),
        vec![1u8, 1, 0, 0, 0, 0, 0, 0, 0]
    );
    let r = encode_value(&Value::Ref(0x0102));
    assert_eq!(r.len(), 17);
    assert_eq!(r[0], 2u8);
    assert_eq!(r[1], 0x02);
    assert_eq!(r[2], 0x01);
}

#[test]
fn value_round_trip() {
    for v in [
        Value::Empty,
        Value::Int(0),
        Value::Int(u64::MAX),
        Value::Ref(7),
        Value::Ref(u128::MAX),
    ] {
        let bytes = encode_value(&v);
        assert_eq!(decode_value(bytes.as_slice()), Some(v));
    }
}

#[test]
fn packet_round_trip_with_embedded_reference() {
    let packets = [
        Packet { tag: 0, payload: Payload::Init(Value::Int(42)) },
        Packet { tag: 9, payload: Payload::Request(3, Value::Int(5)) },
        Packet { tag: 9, payload: Payload::Response(Value::Ref(3)) },
        Packet { tag: u64::MAX, payload: Payload::Request(u128::MAX, Value::Empty) },
    ];
    for p in packets {
        let bytes = encode_packet(&p);
        assert_eq!(decode_packet(bytes.as_slice()), Some(p));
    }
}

#[test]
fn encode_decode_encode_is_identity() {
    let p = Packet { tag: 5, payload: Payload::Request(1, Value::Ref(2)) };
    let once = encode_packet(&p);
    let again = encode_packet(&decode_packet(once.as_slice()).unwrap());
    assert_eq!(again, once);
}

#[test]
fn malformed_bytes_are_rejected() {
    assert_eq!(decode_value(&[]), None);
    assert_eq!(decode_value(&[9u8]), None);
    assert_eq!(decode_value(&[1u8, 0, 0]), None);
    assert_eq!(decode_packet(&[0u8; 9]), None);
}

#[test]
fn mailbox_is_first_in_first_out() {
    let mut m = Mailbox::new();
    m.deliver(Packet { tag: 1, payload: Payload::Response(Value::Int(10)) });
    m.deliver(Packet { tag: 2, payload: Payload::Response(Value::Int(20)) });
    assert_eq!(m.len(), 2);
    assert_eq!(m.receive().payload, Payload::Response(Value::Int(10)));
    assert_eq!(m.receive().payload, Payload::Response(Value::Int(20)));
}

#[test]
fn receive_matching_takes_first_match_only() {
    let mut m = Mailbox::new();
    m.deliver(Packet { tag: 1, payload: Payload::Response(Value::Int(10)) });
    m.deliver(Packet { tag: 7, payload: Payload::Response(Value::Int(70)) });
    m.deliver(Packet { tag: 7, payload: Payload::Response(Value::Int(71)) });
    let got = m.receive_matching(&vec![7u64]);
    assert_eq!(got.payload, Payload::Response(Value::Int(70)));
    assert_eq!(m.len(), 2);
    assert_eq!(m.receive().tag, 1);
    assert_eq!(m.receive().payload, Payload::Response(Value::Int(71)));
}

#[test]
fn addition_wraps_at_the_boundary() {
    assert_eq!(wrapping_add_u64(u64::MAX, 1), 0);
    assert_eq!(wrapping_add_u64(u64::MAX, 5), 4);
    assert_eq!(wrapping_add_u64(2, 3), 5);
}
