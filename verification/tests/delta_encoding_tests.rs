use crypto_primitives::copath::CoPath;
use crypto_primitives::encoding::{decode_delta, decode_varint, encode_delta, encode_varint};
use crypto_primitives::lut::HashLut;
use std::collections::BTreeMap;

#[test]
fn varint_roundtrips() {
    let samples = [
        0u64,
        1,
        2,
        42,
        127,
        128,
        255,
        256,
        10_000,
        u32::MAX as u64,
        u64::MAX / 2,
    ];

    for &value in &samples {
        let mut buf = Vec::new();
        encode_varint(&mut buf, value);
        let mut cursor = 0usize;
        let decoded = decode_varint(&buf, &mut cursor).expect("must decode");
        assert_eq!(decoded, value);
        assert_eq!(cursor, buf.len(), "cursor should advance to end");
    }
}

#[test]
fn delta_roundtrips() {
    let samples = [
        0i64,
        1,
        -1,
        5,
        -7,
        127,
        -128,
        256,
        -256,
        i32::MAX as i64,
        i32::MIN as i64,
    ];

    for &value in &samples {
        let mut buf = Vec::new();
        encode_delta(&mut buf, value);
        let mut cursor = 0usize;
        let decoded = decode_delta(&buf, &mut cursor).expect("must decode");
        assert_eq!(decoded, value);
        assert_eq!(cursor, buf.len(), "cursor should advance to end");
    }
}

fn entries() -> Vec<(usize, usize, Vec<u8>)> {
    vec![(1, 0, vec![10u8]), (1, 1, vec![20u8]), (2, 2, vec![30u8])]
}

fn empty_levels(n: usize) -> Vec<BTreeMap<usize, Vec<u8>>> {
    (0..n).map(|_| BTreeMap::new()).collect()
}

#[test]
fn decode_rejects_tampered_deltas() {
    let entries = entries();
    let packed = CoPath::pack_inner_copath(&entries).expect("packs");

    // Tamper with deltas: flip a bit.
    let mut tampered = packed.clone();
    tampered.2[0] ^= 0b0000_0001;

    let mut inner_levels = empty_levels(4);
    let mut lut = HashLut::new();
    let ok = CoPath::decode_inner_copath(4, &Some(tampered), &mut inner_levels, &mut lut);
    assert!(!ok, "tampered deltas should be rejected");
}

#[test]
fn pack_decode_roundtrip_preserves_entries() {
    let entries = entries();
    let packed = CoPath::pack_inner_copath(&entries).expect("packs");

    let mut inner_levels = empty_levels(4);
    let mut lut = HashLut::new();
    let ok = CoPath::decode_inner_copath(4, &Some(packed), &mut inner_levels, &mut lut);
    assert!(ok, "packed/decoded should succeed");

    for &(depth, idx, ref digest) in &entries {
        assert_eq!(
            inner_levels[depth].get(&idx),
            Some(digest),
            "entry at depth {}, idx {} should roundtrip",
            depth,
            idx
        );
    }
}

#[test]
fn varint_encodes_seven_bit_groups_low_first() {
    let mut buf = Vec::new();
    encode_varint(&mut buf, 300);
    assert_eq!(buf, vec![0xACu8, 0x02]);
    let mut buf = Vec::new();
    encode_varint(&mut buf, 127);
    assert_eq!(buf, vec![0x7Fu8]);
    let mut buf = Vec::new();
    encode_varint(&mut buf, u64::MAX);
    assert_eq!(buf.len(), 10);
    assert_eq!(buf[9], 0x01);
}

#[test]
fn delta_uses_zigzag_mapping() {
    let cases: [(i64, u8); 5] = [(0, 0), (-1, 1), (1, 2), (-2, 3), (2, 4)];
    for (value, byte) in cases {
        let mut buf = Vec::new();
        encode_delta(&mut buf, value);
        assert_eq!(buf, vec![byte]);
    }
    let mut buf = Vec::new();
    encode_delta(&mut buf, i64::MIN);
    let mut cursor = 0usize;
    assert_eq!(decode_delta(&buf, &mut cursor), Some(i64::MIN));
}

#[test]
fn varint_decode_rejects_truncated_and_overlong_input() {
    let mut cursor = 0usize;
    assert_eq!(decode_varint(&[0x80u8, 0x80], &mut cursor), None);
    assert_eq!(cursor, 2);
    let mut cursor = 0usize;
    assert_eq!(decode_varint(&[], &mut cursor), None);
    assert_eq!(cursor, 0);
    let overlong = [0xFFu8; 11];
    let mut cursor = 0usize;
    assert_eq!(decode_varint(&overlong, &mut cursor), None);
    assert_eq!(cursor, 10);
    let mut cursor = 1usize;
    assert_eq!(decode_varint(&[0xFFu8, 0x05], &mut cursor), Some(5));
    assert_eq!(cursor, 2);
}

#[test]
fn pack_inner_copath_empty_is_none() {
    let none: Vec<(usize, usize, Vec<u8>)> = Vec::new();
    assert!(CoPath::pack_inner_copath(&none).is_none());
    let too_large = vec![(usize::MAX, 0usize, vec![1u8])];
    if usize::BITS == 64 {
        assert!(CoPath::pack_inner_copath(&too_large).is_none());
    }
}

#[test]
fn pack_inner_copath_exact_layout() {
    let packed = CoPath::pack_inner_copath(&entries()).expect("packs");
    assert_eq!(packed.0, 1);
    assert_eq!(packed.1, 0);
    // (1,0) -> (1,1): deltas (0, +1); (1,1) -> (2,2): deltas (+1, +1).
    assert_eq!(packed.2, vec![0u8, 2, 2, 2]);
    assert_eq!(packed.3, vec![vec![10u8], vec![20u8], vec![30u8]]);
}

#[test]
fn decode_refuses_out_of_order_and_bad_depths() {
    // depth 0 is not an inner copath depth
    let mut inner_levels = empty_levels(4);
    let mut lut = HashLut::new();
    let p = (0usize, 0usize, Vec::<u8>::new(), vec![vec![1u8]]);
    assert!(!CoPath::decode_inner_copath(4, &Some(p), &mut inner_levels, &mut lut));
    // depth equal to the height is refused
    let mut inner_levels = empty_levels(4);
    let p = (4usize, 0usize, Vec::<u8>::new(), vec![vec![1u8]]);
    assert!(!CoPath::decode_inner_copath(4, &Some(p), &mut inner_levels, &mut lut));
    // a step back in (depth, index) order is refused: (2, 3) then (2, 1)
    let mut inner_levels = empty_levels(4);
    let mut deltas = Vec::new();
    encode_delta(&mut deltas, 0);
    encode_delta(&mut deltas, -2);
    let p = (2usize, 3usize, deltas, vec![vec![1u8], vec![2u8]]);
    assert!(!CoPath::decode_inner_copath(4, &Some(p), &mut inner_levels, &mut lut));
    // trailing delta bytes are refused
    let mut inner_levels = empty_levels(4);
    let p = (1usize, 0usize, vec![0u8], vec![vec![1u8]]);
    assert!(!CoPath::decode_inner_copath(4, &Some(p), &mut inner_levels, &mut lut));
    // no digests with no deltas is accepted and records nothing
    let mut inner_levels = empty_levels(4);
    let p = (1usize, 0usize, Vec::<u8>::new(), Vec::<Vec<u8>>::new());
    assert!(CoPath::decode_inner_copath(4, &Some(p), &mut inner_levels, &mut lut));
    assert!(inner_levels.iter().all(|m| m.is_empty()));
    // a repeated coordinate with a conflicting digest is refused
    let mut inner_levels = empty_levels(4);
    let mut deltas = Vec::new();
    encode_delta(&mut deltas, 0);
    encode_delta(&mut deltas, 0);
    let p = (1usize, 1usize, deltas.clone(), vec![vec![1u8], vec![2u8]]);
    assert!(!CoPath::decode_inner_copath(4, &Some(p), &mut inner_levels, &mut lut));
    // ... and refused with the same digest too: coordinates strictly increase
    let mut inner_levels = empty_levels(4);
    let p = (1usize, 1usize, deltas, vec![vec![1u8], vec![1u8]]);
    assert!(!CoPath::decode_inner_copath(4, &Some(p), &mut inner_levels, &mut lut));
    // an index beyond its depth's 2^depth positions is refused: depth 1 has indexes 0 and 1
    let mut inner_levels = empty_levels(4);
    let p = (1usize, 2usize, Vec::<u8>::new(), vec![vec![10u8]]);
    assert!(!CoPath::decode_inner_copath(4, &Some(p), &mut inner_levels, &mut lut));
    // the last position of a depth is accepted
    let mut inner_levels = empty_levels(4);
    let p = (2usize, 3usize, Vec::<u8>::new(), vec![vec![10u8]]);
    assert!(CoPath::decode_inner_copath(4, &Some(p), &mut inner_levels, &mut lut));
    assert_eq!(inner_levels[2].get(&3), Some(&vec![10u8]));
}
