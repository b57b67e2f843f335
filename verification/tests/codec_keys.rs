use state_store::codec::decode_key;
use state_store::codec::encode_key;
use state_store::codec::lex_lt_exec;

#[test]
fn encode_key_layout() {
    let encoded = encode_key(&vec![0xAB], 1);
    assert_eq!(encoded, vec![1, 0xAB, 0, 0, 0, 0, 0, 0, 0, 0, 1]);
}

#[test]
fn encode_key_empty_preimage() {
    let encoded = encode_key(&Vec::new(), 0x0102030405060708);
    assert_eq!(encoded, vec![0, 1, 2, 3, 4, 5, 6, 7, 8]);
}

#[test]
fn key_round_trip() {
    let cases: Vec<(Vec<u8>, u64)> = vec![
        (Vec::new(), 0),
        (vec![0], 1),
        (vec![0, 255, 7], u64::MAX),
        (b"alice".to_vec(), 42),
    ];
    for (preimage, version) in cases {
        let encoded = encode_key(&preimage, version);
        let decoded = decode_key(&encoded);
        assert_eq!(decoded, Some((preimage, version)));
    }
}

#[test]
fn decode_key_rejects_garbage() {
    assert_eq!(decode_key(&Vec::new()), None);
    assert_eq!(decode_key(&vec![2, 3]), None);
    assert_eq!(decode_key(&vec![1, 5]), None);
    assert_eq!(decode_key(&vec![0, 1, 2]), None);
    let mut trailing = encode_key(&vec![9], 3);
    trailing.push(0);
    assert_eq!(decode_key(&trailing), None);
}

#[test]
fn encoded_order_follows_preimage_then_version() {
    // same preimage: version order decides
    let a = encode_key(&b"k".to_vec(), 1);
    let b = encode_key(&b"k".to_vec(), 2);
    assert!(lex_lt_exec(&a, &b));
    assert!(!lex_lt_exec(&b, &a));

    // a shorter preimage sorts before its extensions, whatever the versions
    let short = encode_key(&b"a".to_vec(), u64::MAX);
    let long = encode_key(&b"ab".to_vec(), 0);
    assert!(lex_lt_exec(&short, &long));

    // preimage bytes dominate the version entirely
    let low = encode_key(&vec![1], u64::MAX);
    let high = encode_key(&vec![2], 0);
    assert!(lex_lt_exec(&low, &high));
}
