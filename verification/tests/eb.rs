use leios_tools::eb::{decode_overflow_eb, encode_overflow_eb};
use leios_tools::header::blake2b_256;
use leios_tools::types::TxId;
use minicbor::{Decoder, Encoder};

#[test]
fn encode_overflow_eb_is_deterministic() {
    let manifest = vec![
        TxId::new_with_array([0x10u8; 32]),
        TxId::new_with_array([0x20u8; 32]),
    ];
    let a = encode_overflow_eb(&manifest);
    let b = encode_overflow_eb(&manifest);
    assert_eq!(a, b);
    assert_eq!(blake2b_256(&a), blake2b_256(&b));
}

#[test]
fn decode_overflow_eb_round_trip() {
    let manifest = vec![
        TxId::new_with_array([0x10u8; 32]),
        TxId::new_with_array([0x20u8; 32]),
    ];
    let data = encode_overflow_eb(&manifest);
    let hashes = decode_overflow_eb(&data).expect("decode");
    assert_eq!(hashes, manifest);
}

#[test]
fn decode_overflow_eb_rejects_garbage() {
    assert!(decode_overflow_eb(&[0xFF, 0xFF]).is_none());
    assert!(decode_overflow_eb(&[]).is_none());
}

#[test]
fn encode_overflow_eb_layout() {
    let manifest = vec![
        TxId::new_with_array([0xAAu8; 32]),
        TxId::new_with_array([0xBBu8; 32]),
    ];
    let data = encode_overflow_eb(&manifest);
    let mut dec = Decoder::new(&data);
    let n = dec.map().unwrap().unwrap();
    assert_eq!(n, 2);
    assert_eq!(dec.bytes().unwrap(), &[0xAA; 32]);
    assert_eq!(dec.u32().unwrap(), 0);
    assert_eq!(dec.bytes().unwrap(), &[0xBB; 32]);
    assert_eq!(dec.u32().unwrap(), 0);
}

#[test]
fn manifest_bytes_are_exact() {
    let data = encode_overflow_eb(&[TxId::new_with_array([7u8; 32])]);
    let mut want = vec![0xA1, 0x58, 0x20];
    want.extend_from_slice(&[7u8; 32]);
    want.push(0x00);
    assert_eq!(data, want);
    assert_eq!(encode_overflow_eb(&[]), vec![0xA0]);
}

#[test]
fn long_manifest_round_trips_in_order() {
    let manifest: Vec<TxId> = (0..300u16)
        .map(|i| {
            let mut hash = [0u8; 32];
            hash[0] = (i % 256) as u8;
            hash[1] = (i / 256) as u8;
            TxId::new_with_array(hash)
        })
        .collect();
    let data = encode_overflow_eb(&manifest);
    assert_eq!(&data[..3], &[0xB9, 0x01, 0x2C]);
    assert_eq!(decode_overflow_eb(&data), Some(manifest));
}

#[test]
fn indefinite_manifest_is_decoded() {
    let mut buf = Vec::new();
    let mut e = Encoder::new(&mut buf);
    e.begin_map().unwrap();
    e.bytes(&[3u8; 32]).unwrap().u32(70_000).unwrap();
    e.bytes(&[4u8; 32]).unwrap().u32(5).unwrap();
    e.end().unwrap();
    let hashes = decode_overflow_eb(&buf).unwrap();
    assert_eq!(hashes.len(), 2);
    assert_eq!(hashes[0].get_bytes(), &[3u8; 32]);
    assert_eq!(hashes[1].get_bytes(), &[4u8; 32]);
}

#[test]
fn manifest_with_short_hash_or_missing_entry_is_rejected() {
    let mut short = Vec::new();
    let mut e = Encoder::new(&mut short);
    e.map(1).unwrap().bytes(&[1u8; 31]).unwrap().u32(0).unwrap();
    assert!(decode_overflow_eb(&short).is_none());

    let mut missing = Vec::new();
    let mut e = Encoder::new(&mut missing);
    e.map(2).unwrap().bytes(&[1u8; 32]).unwrap().u32(0).unwrap();
    assert!(decode_overflow_eb(&missing).is_none());

    let mut endless = Vec::new();
    let mut e = Encoder::new(&mut endless);
    e.begin_map().unwrap().bytes(&[1u8; 32]).unwrap().u32(0).unwrap();
    assert!(decode_overflow_eb(&endless).is_none());
}

#[test]
fn huge_entry_count_is_rejected_without_allocating() {
    let data = [0xBB, 0xFF, 0xFF, 0xFF, 0xFF, 0xFF, 0xFF, 0xFF, 0xFF];
    assert!(decode_overflow_eb(&data).is_none());
}

#[test]
fn blake2b_256_of_known_inputs() {
    let hex = |bytes: &[u8]| -> String { bytes.iter().map(|b| format!("{b:02x}")).collect() };
    assert_eq!(
        hex(&blake2b_256(&[])),
        "0e5751c026e543b2e8ab2eb06099daa1d1e5df47778f7787faab45cdf12fe3a8"
    );
    assert_eq!(
        hex(&blake2b_256(b"abc")),
        "bddd813c634239723171ef3fee98579b94964e3bb1cb3e427262c8c068d52319"
    );
}
