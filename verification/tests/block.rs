use leios_tools::block::{
    capture_field, hex_prefix, read_cert_head, split_fields, BlockBody, DecodeError,
    InspectWarning, LeiosBlockInfo, ParsedBodyInfo, WarnBudget, WarnBudgets, BLOCK_BASE_FIELDS,
    MAX_BLOCK_SIZE,
};
use leios_tools::header::{blake2b_256, header_hash, wrap_header, HeaderInfo, WrappedHeader};
use leios_tools::types::Point;
use minicbor::data::Tag;
use minicbor::{Decoder, Encoder};

fn wrap_block(era: u32, block: &[u8]) -> Vec<u8> {
    let mut inner = Vec::new();
    let mut ie = Encoder::new(&mut inner);
    ie.array(2).unwrap();
    ie.u32(era).unwrap();
    inner.extend_from_slice(block);

    let mut outer = Vec::new();
    let mut oe = Encoder::new(&mut outer);
    oe.tag(Tag::new(24)).unwrap();
    oe.bytes(&inner).unwrap();
    outer
}

fn build_test_block(era: u8, eb_certificate: Option<&[u8]>) -> Vec<u8> {
    build_test_block_with_tx_count(era, 0, eb_certificate)
}

fn build_test_block_with_tx_count(
    era: u8,
    tx_count: u64,
    eb_certificate: Option<&[u8]>,
) -> Vec<u8> {
    let field_count = BLOCK_BASE_FIELDS + if eb_certificate.is_some() { 1 } else { 0 };
    let mut block_buf = Vec::new();
    let mut be = Encoder::new(&mut block_buf);
    be.array(field_count).unwrap();
    be.bytes(&[0x80]).unwrap();
    be.array(tx_count).unwrap();
    for _ in 0..tx_count {
        be.null().unwrap();
    }
    be.array(0).unwrap();
    be.null().unwrap();
    if let Some(cert) = eb_certificate {
        be.bytes(cert).unwrap();
    }
    wrap_block(era as u32, &block_buf)
}

fn build_header(slot: u64) -> Vec<u8> {
    let mut hb_buf = Vec::new();
    let mut hb = Encoder::new(&mut hb_buf);
    hb.array(10).unwrap();
    hb.u64(42).unwrap();
    hb.u64(slot).unwrap();
    hb.bytes(&[0xAA; 32]).unwrap();
    hb.bytes(&[0xBB; 32]).unwrap();
    hb.bytes(&[0u8; 32]).unwrap();
    hb.array(2).unwrap();
    hb.bytes(&[0u8; 32]).unwrap();
    hb.bytes(&[0u8; 32]).unwrap();
    hb.u32(1024).unwrap();
    hb.bytes(&[0xCC; 32]).unwrap();
    hb.array(4).unwrap();
    hb.bytes(&[0u8; 32]).unwrap();
    hb.u64(0).unwrap();
    hb.u64(0).unwrap();
    hb.bytes(&[0u8; 64]).unwrap();
    hb.array(2).unwrap();
    hb.u32(10).unwrap();
    hb.u32(0).unwrap();

    let mut header_buf = Vec::new();
    let mut hi = Encoder::new(&mut header_buf);
    hi.array(2).unwrap();
    header_buf.extend_from_slice(&hb_buf);
    let mut hi = Encoder::new(&mut header_buf);
    hi.bytes(&[0u8; 64]).unwrap();
    header_buf
}

fn build_block_with_header(era: u8, slot: u64) -> Vec<u8> {
    let mut block_buf = Vec::new();
    let mut be = Encoder::new(&mut block_buf);
    be.array(4).unwrap();
    block_buf.extend_from_slice(&build_header(slot));
    let mut be = Encoder::new(&mut block_buf);
    be.array(0).unwrap();
    be.array(0).unwrap();
    be.null().unwrap();
    wrap_block(era as u32, &block_buf)
}

#[test]
fn block_body_round_trip() {
    let mut buf = Vec::new();
    let mut e = Encoder::new(&mut buf);
    e.tag(Tag::new(24)).unwrap();
    e.bytes(&[0x01, 0x02, 0x03]).unwrap();

    let body = BlockBody::opaque(buf.clone());
    let mut encoded = Vec::new();
    body.encode(&mut encoded);
    assert_eq!(encoded, buf);

    let (decoded, end) = BlockBody::decode(&encoded, 0).unwrap();
    assert_eq!(decoded.raw, buf);
    assert_eq!(end, buf.len());
}

#[test]
fn parse_block_body_no_certificate() {
    let raw = build_test_block(7, None);
    assert!(LeiosBlockInfo::parse(&raw).is_none());
}

#[test]
fn parse_block_body_with_certificate() {
    let cert_data = vec![0xCA, 0xFE, 0xBA, 0xBE];
    let raw = build_test_block(7, Some(&cert_data));
    let info = LeiosBlockInfo::parse(&raw).expect("should parse");
    let cert = info.eb_certificate.expect("should have certificate");
    let mut d = Decoder::new(&cert);
    let decoded = d.bytes().unwrap();
    assert_eq!(decoded, &cert_data);
}

#[test]
fn parse_block_body_byron_returns_none() {
    let raw = build_test_block(0, None);
    assert!(LeiosBlockInfo::parse(&raw).is_none());
}

#[test]
fn parse_block_body_invalid_returns_none() {
    assert!(LeiosBlockInfo::parse(&[0xFF]).is_none());
    assert!(LeiosBlockInfo::parse(&[]).is_none());
}

#[test]
fn block_body_new_parses_certificate() {
    let cert_data = vec![0x01, 0x02, 0x03];
    let raw = build_test_block(7, Some(&cert_data));
    let body = BlockBody::new(raw);
    assert!(body.leios.is_some());
    assert!(body.leios.unwrap().eb_certificate.is_some());
}

#[test]
fn block_body_opaque_skips_parsing() {
    let raw = build_test_block(7, Some(&[0x01]));
    let body = BlockBody::opaque(raw);
    assert!(body.leios.is_none());
}

#[test]
fn block_body_point_extracts_slot_and_hash() {
    let raw = build_block_with_header(7, 67890);
    let body = BlockBody::new(raw);
    let point = body
        .point()
        .expect("should derive point from Shelley+ block");
    match point {
        Point::Specific { slot, hash } => {
            assert_eq!(slot, 67890);
            assert_ne!(hash, [0u8; 32]);
        }
        Point::Origin => panic!("expected Specific point"),
    }
}

#[test]
fn block_body_header_extracts_matching_point() {
    let raw = build_block_with_header(7, 99999);
    let body = BlockBody::new(raw);
    let header = body.header().expect("should extract header");
    let body_point = body.point().expect("should derive point");
    let header_point = header.point().expect("header should have point");
    assert_eq!(body_point, header_point);
}

#[test]
fn block_body_header_byron_returns_none() {
    let raw = build_test_block(0, None);
    let body = BlockBody::new(raw);
    assert!(body.header().is_none());
}

#[test]
fn block_body_point_byron_returns_none() {
    let raw = build_test_block(0, None);
    let body = BlockBody::new(raw);
    assert!(body.point().is_none());
}

#[test]
fn block_body_point_invalid_returns_none() {
    let body = BlockBody::opaque(vec![0xFF]);
    assert!(body.point().is_none());
}

#[test]
fn praos_inspect_empty() {
    let raw = build_test_block_with_tx_count(7, 0, None);
    let body = BlockBody::new(raw);
    let info = body.praos_inspect();
    assert_eq!(info.tx_count, 0);
    assert_eq!(info.field_count, 4);
    assert!(info.leios_cert.is_none());
    assert!(info.tx_references_count.is_none());
}

#[test]
fn praos_inspect_several() {
    let raw = build_test_block_with_tx_count(7, 5, None);
    let body = BlockBody::new(raw);
    assert_eq!(body.praos_inspect().tx_count, 5);
}

#[test]
fn praos_inspect_with_eb_certificate_blob() {
    let raw = build_test_block_with_tx_count(7, 3, Some(&[0xCA, 0xFE]));
    let body = BlockBody::new(raw);
    let info = body.praos_inspect();
    assert_eq!(info.tx_count, 3);
    assert_eq!(info.field_count, 5);
    assert!(info.leios_cert.is_none());
}

fn conway_base(be: &mut Encoder<&mut Vec<u8>>, field_count: u64, tx_count: u64) {
    be.array(field_count).unwrap();
    be.bytes(&[0x80]).unwrap();
    be.array(tx_count).unwrap();
    for _ in 0..tx_count {
        be.null().unwrap();
    }
    be.array(0).unwrap();
    be.null().unwrap();
    be.array(0).unwrap();
}

fn put_cert(be: &mut Encoder<&mut Vec<u8>>) {
    be.array(4).unwrap();
    be.u64(12345).unwrap();
    be.bytes(&[0xAB; 32]).unwrap();
    be.bytes(&[0xCC; 8]).unwrap();
    be.bytes(&[0xDD; 16]).unwrap();
}

#[test]
fn praos_inspect_with_real_leios_certificate_shape() {
    let mut block_buf = Vec::new();
    let mut be = Encoder::new(&mut block_buf);
    conway_base(&mut be, 6, 2);
    put_cert(&mut be);

    let body = BlockBody::new(wrap_block(7, &block_buf));
    let info = body.praos_inspect();
    assert_eq!(info.tx_count, 2);
    assert_eq!(info.field_count, 6);
    let cert = info.leios_cert.expect("cert shape should match");
    assert_eq!(cert.eb_slot, 12345);
    assert_eq!(cert.eb_hash, [0xAB; 32]);
}

#[test]
fn praos_inspect_byron_returns_default() {
    let raw = build_test_block_with_tx_count(0, 0, None);
    let body = BlockBody::new(raw);
    let info = body.praos_inspect();
    assert_eq!(info.tx_count, 0);
    assert_eq!(info.field_count, 0);
}

#[test]
fn praos_inspect_invalid_returns_default() {
    let body = BlockBody::opaque(vec![0xFF]);
    let info = body.praos_inspect();
    assert_eq!(info.tx_count, 0);
    assert_eq!(info.field_count, 0);
}

#[test]
fn tx_references_are_counted() {
    let mut block_buf = Vec::new();
    let mut be = Encoder::new(&mut block_buf);
    conway_base(&mut be, 7, 1);
    put_cert(&mut be);
    be.array(3).unwrap().u8(1).unwrap().u8(2).unwrap().u8(3).unwrap();
    let info = BlockBody::new(wrap_block(7, &block_buf)).praos_inspect();
    assert!(info.leios_cert.is_some());
    assert_eq!(info.tx_references_count, Some(3));
    assert_eq!(info.field_count, 7);
}

#[test]
fn indefinite_tx_references_are_counted() {
    let mut block_buf = Vec::new();
    let mut be = Encoder::new(&mut block_buf);
    conway_base(&mut be, 7, 0);
    put_cert(&mut be);
    be.begin_array().unwrap();
    for _ in 0..4 {
        be.bytes(&[9; 3]).unwrap();
    }
    be.end().unwrap();
    let info = BlockBody::new(wrap_block(7, &block_buf)).praos_inspect();
    assert_eq!(info.tx_references_count, Some(4));
}

#[test]
fn endless_tx_references_make_the_body_unreadable() {
    let mut block_buf = Vec::new();
    let mut be = Encoder::new(&mut block_buf);
    conway_base(&mut be, 7, 0);
    put_cert(&mut be);
    be.begin_array().unwrap().bytes(&[9; 3]).unwrap();
    let body = BlockBody::new(wrap_block(7, &block_buf));
    assert_eq!(body.try_praos_inspect().unwrap_err(), DecodeError::Malformed);
    assert_eq!(body.praos_inspect(), ParsedBodyInfo::default());
}

#[test]
fn cut_off_tx_references_are_not_counted() {
    let raw = vec![
        0xD8, 0x18, 0x4C, 0x82, 0x07, 0x87, 0x41, 0x80, 0x80, 0x80, 0xF6, 0x80, 0xF6, 0x83, 0x01,
    ];
    let body = BlockBody::opaque(raw);
    let found = body.try_praos_inspect().unwrap();
    assert_eq!(found.info.tx_references_count, None);
    assert_eq!(found.info.field_count, 7);
    assert_eq!(found.cert_field, Some(vec![0xF6]));
    assert_eq!(found.tx_refs_field, None);
    assert_eq!(body.praos_inspect().tx_references_count, None);

    let mut whole = vec![0x87, 0x41, 0x80, 0x80, 0x80, 0xF6, 0x80, 0xF6];
    whole.extend_from_slice(&[0x83, 0x01, 0x02, 0x03]);
    let info = BlockBody::opaque(wrap_block(7, &whole)).praos_inspect();
    assert_eq!(info.tx_references_count, Some(3));
}

#[test]
fn huge_reference_count_is_not_believed() {
    let mut block = vec![0x87, 0x41, 0x80, 0x80, 0x80, 0xF6, 0x80, 0xF6];
    block.extend_from_slice(&[0x9B, 0xFF, 0xFF, 0xFF, 0xFF, 0xFF, 0xFF, 0xFF, 0xFF]);
    let info = BlockBody::opaque(wrap_block(7, &block)).praos_inspect();
    assert_eq!(info.tx_references_count, None);
    assert_eq!(info.field_count, 7);
}

#[test]
fn unknown_trailing_fields_are_captured() {
    let mut block_buf = Vec::new();
    let mut be = Encoder::new(&mut block_buf);
    conway_base(&mut be, 7, 0);
    be.bytes(&[0x5A; 200]).unwrap();
    be.u8(7).unwrap();
    let body = BlockBody::new(wrap_block(7, &block_buf));
    let found = body.try_praos_inspect().unwrap();
    assert_eq!(found.info.field_count, 7);
    assert!(found.info.leios_cert.is_none());
    assert!(found.info.tx_references_count.is_none());
    let mut want = vec![0x58, 200];
    want.extend_from_slice(&[0x5A; 94]);
    assert_eq!(found.cert_field, Some(want));
    assert_eq!(found.tx_refs_field, Some(vec![0x07]));
    match found.warning().unwrap() {
        InspectWarning::ShapeMismatch { field_count, cert_field_hex, tx_refs_field_hex } => {
            assert_eq!(field_count, 7);
            assert!(cert_field_hex.starts_with("58c85a5a"));
            assert_eq!(cert_field_hex.len(), 192);
            assert_eq!(tx_refs_field_hex, "07");
        }
        other => panic!("unexpected {other:?}"),
    }
}

#[test]
fn certificate_with_wrong_hash_length_is_not_one() {
    let mut block_buf = Vec::new();
    let mut be = Encoder::new(&mut block_buf);
    conway_base(&mut be, 6, 0);
    be.array(4).unwrap().u64(1).unwrap().bytes(&[0; 31]).unwrap();
    be.bytes(&[]).unwrap().bytes(&[]).unwrap();
    let found = BlockBody::new(wrap_block(7, &block_buf)).try_praos_inspect().unwrap();
    assert!(found.info.leios_cert.is_none());
    assert!(found.cert_field.is_some());
}

#[test]
fn cert_head_is_read_up_to_the_signers() {
    let mut buf = Vec::new();
    let mut e = Encoder::new(&mut buf);
    put_cert(&mut e);
    let (cert, end) = read_cert_head(&buf, 0).unwrap();
    assert_eq!(cert.eb_slot, 12345);
    assert_eq!(cert.eb_hash, [0xAB; 32]);
    assert_eq!(end, 1 + 3 + 2 + 32);
    assert!(read_cert_head(&[0x83, 0x00], 0).is_none());
    assert!(read_cert_head(&[0x9F, 0x00], 0).is_none());
}

#[test]
fn fields_are_split_into_base_and_trailing() {
    assert_eq!(split_fields(0), (0, 0));
    assert_eq!(split_fields(2), (0, 0));
    assert_eq!(split_fields(4), (2, 0));
    assert_eq!(split_fields(5), (3, 0));
    assert_eq!(split_fields(6), (3, 1));
    assert_eq!(split_fields(7), (3, 2));
    assert_eq!(split_fields(u64::MAX), (3, u64::MAX - 5));
}

#[test]
fn captured_field_is_cut_at_the_cap() {
    let bytes: Vec<u8> = (0..200u8).collect();
    assert_eq!(capture_field(&bytes, 5, 9), vec![5, 6, 7, 8]);
    assert_eq!(capture_field(&bytes, 10, 150).len(), 96);
    assert_eq!(capture_field(&bytes, 10, 150)[95], 105);
}

#[test]
fn each_reason_for_an_unreadable_block() {
    let reason = |raw: Vec<u8>| BlockBody::opaque(raw).try_praos_inspect().unwrap_err();
    assert_eq!(reason(vec![]), DecodeError::Malformed);
    assert_eq!(reason(vec![0xC1, 0x40]), DecodeError::UnexpectedTag(1));
    assert_eq!(reason(build_test_block(1, None)), DecodeError::ByronBlock);
    assert_eq!(
        reason(wrap_block(7, &[0x9F, 0xFF])),
        DecodeError::IndefiniteBlockArray
    );
    assert_eq!(
        reason(wrap_block(7, &[0x9B, 0, 0, 0, 1, 0, 0, 0, 0])),
        DecodeError::BlockLengthTooLarge
    );
    assert_eq!(
        reason(wrap_block(7, &[0x82, 0x00, 0x9F, 0xFF])),
        DecodeError::IndefiniteTxBodies
    );
    assert_eq!(
        reason(wrap_block(7, &[0x82, 0x00, 0x9B, 0, 0, 0, 1, 0, 0, 0, 0])),
        DecodeError::TxCountTooLarge
    );
    assert_eq!(
        LeiosBlockInfo::try_parse(&build_test_block(7, None)).unwrap_err(),
        DecodeError::NoLeiosExtension
    );
    assert_eq!(
        BlockBody::opaque(build_test_block(7, None)).try_point().unwrap_err(),
        DecodeError::UnreadableHeader
    );
}

#[test]
fn short_block_array_is_counted_only() {
    let info = BlockBody::opaque(wrap_block(7, &[0x81, 0x00])).praos_inspect();
    assert_eq!(info.field_count, 1);
    assert_eq!(info.tx_count, 0);
    let info = BlockBody::opaque(wrap_block(7, &[0x80])).praos_inspect();
    assert_eq!(info, ParsedBodyInfo::default());
}

#[test]
fn oversized_block_is_refused() {
    let mut buf = Vec::new();
    let mut e = Encoder::new(&mut buf);
    e.bytes(&vec![0u8; MAX_BLOCK_SIZE - 5]).unwrap();
    assert_eq!(buf.len(), MAX_BLOCK_SIZE);
    assert!(BlockBody::decode(&buf, 0).is_ok());

    let mut buf = Vec::new();
    let mut e = Encoder::new(&mut buf);
    e.bytes(&vec![0u8; MAX_BLOCK_SIZE - 4]).unwrap();
    assert_eq!(
        BlockBody::decode(&buf, 0).unwrap_err(),
        DecodeError::BlockTooLarge(MAX_BLOCK_SIZE + 1)
    );
    assert_eq!(BlockBody::decode(&[0x82, 0x01], 0).unwrap_err(), DecodeError::Malformed);
}

#[test]
fn block_is_decoded_in_the_middle_of_a_message() {
    let raw = build_test_block(7, Some(&[1, 2]));
    let mut buf = vec![0x01, 0x02];
    BlockBody::opaque(raw.clone()).encode(&mut buf);
    buf.push(0x03);
    let (body, end) = BlockBody::decode(&buf, 2).unwrap();
    assert_eq!(body.raw, raw);
    assert!(body.leios.is_some());
    assert_eq!(end, buf.len() - 1);
    assert_eq!(BlockBody::from_wire_span(&buf, 2, end).unwrap().raw, raw);
    assert!(BlockBody::from_wire_span(&buf, 5, 4).is_err());
}

#[test]
fn certificate_is_a_nonempty_slice_of_the_block() {
    for cert in [&[][..], &[1, 2, 3][..], &[9; 300][..]] {
        let raw = build_test_block(7, Some(cert));
        let body = BlockBody::new(raw.clone());
        let found = body.leios.unwrap().eb_certificate.unwrap();
        assert!(!found.is_empty());
        assert!(raw.windows(found.len()).any(|w| w == &found[..]));
        assert_eq!(LeiosBlockInfo::parse(&raw).unwrap().eb_certificate, Some(found));
        assert_eq!(body.raw, raw);
    }
}

#[test]
fn certificate_span_is_cut_out() {
    let info = LeiosBlockInfo::from_span(&[1, 2, 3, 4], 1, 3).unwrap();
    assert_eq!(info.eb_certificate, Some(vec![2, 3]));
    assert!(LeiosBlockInfo::from_span(&[1, 2], 1, 3).is_none());
    assert!(LeiosBlockInfo::from_span(&[1, 2], 2, 1).is_none());
    assert!(LeiosBlockInfo::default().eb_certificate.is_none());
}

#[test]
fn extracted_header_is_the_wrapped_first_field() {
    let header = build_header(777);
    let body = BlockBody::new(build_block_with_header(6, 777));
    let wrapped = body.try_extract_header().unwrap();
    assert_eq!(wrapped, wrap_header(6, &header));
    let mut d = Decoder::new(&wrapped);
    assert_eq!(d.array().unwrap(), Some(2));
    assert_eq!(d.u32().unwrap(), 6);
    assert_eq!(d.tag().unwrap().as_u64(), 24);
    assert_eq!(d.bytes().unwrap(), &header[..]);
    let info = HeaderInfo::parse(&wrapped).unwrap();
    assert_eq!(info, HeaderInfo { era: 6, block_number: 42, slot: 777 });
    assert_eq!(
        body.point(),
        Some(Point::Specific { slot: 777, hash: blake2b_256(&wrapped) })
    );
    assert_eq!(header_hash(&wrapped), blake2b_256(&wrapped));
}

#[test]
fn wrapped_header_bytes_are_exact() {
    assert_eq!(
        wrap_header(7, &[1, 2, 3]),
        vec![0x82, 0x07, 0xD8, 0x18, 0x43, 1, 2, 3]
    );
}

#[test]
fn unreadable_headers_have_no_point() {
    assert!(WrappedHeader::new(vec![0x82, 0x07]).point().is_none());
    let readable = wrap_header(7, &build_header(5));
    assert!(WrappedHeader::opaque(readable.clone()).point().is_none());
    assert!(WrappedHeader::new(readable).point().is_some());
    assert!(HeaderInfo::parse(&wrap_header(1, &build_header(5))).is_none());
}

#[test]
fn hex_is_lowercase_and_padded() {
    assert_eq!(hex_prefix(Some(&[0x00, 0x0a, 0xf9, 0xBC, 0xde])), "000af9bcde");
    assert_eq!(hex_prefix(Some(&[0x12, 0x34, 0x56, 0x78])), "12345678");
    assert_eq!(hex_prefix(Some(&[])), "");
    assert_eq!(hex_prefix(None), "none");
    assert_eq!(hex_prefix(Some(&[0xAB; 96])), "ab".repeat(96));
    assert_eq!(hex_prefix(Some(&[0xAB; 97])), "ab".repeat(96));
}

#[test]
fn reports_stop_at_the_budget() {
    let body = BlockBody::opaque(vec![0xFF; 300]);
    let mut budgets = WarnBudgets::default();
    for _ in 0..5 {
        let (info, report) = body.praos_inspect_reported(&mut budgets);
        assert_eq!(info, ParsedBodyInfo::default());
        match report.unwrap() {
            InspectWarning::ParseFailed { body_bytes, error, raw_prefix_hex } => {
                assert_eq!(body_bytes, 300);
                assert_eq!(error, DecodeError::Malformed);
                assert_eq!(raw_prefix_hex, "ff".repeat(256));
            }
            other => panic!("unexpected {other:?}"),
        }
    }
    assert!(body.praos_inspect_reported(&mut budgets).1.is_none());

    let mut block_buf = Vec::new();
    let mut be = Encoder::new(&mut block_buf);
    conway_base(&mut be, 6, 0);
    be.u8(1).unwrap();
    let odd = BlockBody::new(wrap_block(7, &block_buf));
    for _ in 0..5 {
        let (info, report) = odd.praos_inspect_reported(&mut budgets);
        assert_eq!(info.field_count, 6);
        assert!(matches!(report, Some(InspectWarning::ShapeMismatch { .. })));
    }
    assert!(odd.praos_inspect_reported(&mut budgets).1.is_none());
    let plain = BlockBody::new(build_test_block(7, None));
    assert!(plain.praos_inspect_reported(&mut WarnBudgets::default()).1.is_none());
}

#[test]
fn warn_budget_runs_out() {
    let mut budget = WarnBudget::new(2);
    assert!(budget.spend());
    assert!(budget.spend());
    assert!(!budget.spend());
    assert!(!budget.spend());
}
