use jdx_tar::header::{encode_header, padding, parse_header, verify_checksum};
use jdx_tar::number::{parse_decimal, parse_number, parse_signed_decimal, parse_signed_number};
use jdx_tar::pax::{
    apply_pax_header, parse_pax, pax_text_checked, pax_u64_checked, pax_value, trim_metadata,
    GlobalPax,
};
use jdx_tar::sparse::{
    parse_sparse_csv, parse_sparse_pairs, push_sparse_pair, validate_sparse, MAX_SPARSE_SEGMENTS,
};
use jdx_tar::{EntryType, Fault, Header, SparseSegment};

fn payload(records: &[(&str, &str)]) -> Vec<u8> {
    let mut data = String::new();
    for (key, value) in records {
        let body = format!(" {key}={value}\n");
        let mut length = body.len() + 1;
        while format!("{length}{body}").len() != length {
            length = format!("{length}{body}").len();
        }
        data.push_str(&format!("{length}{body}"));
    }
    data.into_bytes()
}

#[test]
fn parses_octal_and_base_256_numbers() {
    assert_eq!(parse_number(b"0000012\0").unwrap(), 10);
    let mut binary = [0_u8; 12];
    binary[0] = 0x80;
    binary[11] = 42;
    assert_eq!(parse_number(&binary).unwrap(), 42);
    assert!(parse_number(b"0000008\0").is_err());
}

#[test]
fn parses_and_rejects_pax_records() {
    let records = parse_pax(b"10 path=a\n11 size=42\n").unwrap();
    assert_eq!(pax_value(&records, "path"), Some(b"a".as_slice()));
    assert_eq!(pax_u64_checked(&records, "size").unwrap(), Some(42));
    assert!(parse_pax(b"12 path=a\n").is_err());
}

#[test]
fn validates_sparse_extents_and_packed_size() {
    let valid = [
        SparseSegment { offset: 2, len: 3 },
        SparseSegment { offset: 10, len: 2 },
    ];
    validate_sparse(&valid, 12, 5, true).unwrap();
    assert!(validate_sparse(&valid, 11, 5, true).is_err());
    assert!(validate_sparse(&valid, 12, 4, true).is_err());
    let overlapping = [
        SparseSegment { offset: 2, len: 3 },
        SparseSegment { offset: 4, len: 1 },
    ];
    assert!(validate_sparse(&overlapping, 12, 4, true).is_err());
}

#[test]
fn verifies_header_checksum() {
    let mut block = [0_u8; 512];
    block[148..156].fill(b' ');
    let checksum: u64 = block.iter().map(|byte| u64::from(*byte)).sum();
    let field = format!("{checksum:06o}\0 ");
    block[148..156].copy_from_slice(field.as_bytes());
    verify_checksum(&block).unwrap();
    block[0] = 1;
    assert!(verify_checksum(&block).is_err());
}

#[test]
fn numbers_have_their_limits() {
    assert_eq!(parse_number(b"").unwrap(), 0);
    assert_eq!(parse_number(b" \0 17 9").unwrap(), 15);
    assert_eq!(parse_number(b"777x").unwrap(), 511);
    assert_eq!(parse_number(b"8"), Err(Fault::InvalidOctal));
    assert_eq!(
        parse_number(b"1777777777777777777777").unwrap(),
        u64::MAX
    );
    assert_eq!(
        parse_number(b"2000000000000000000000"),
        Err(Fault::NumericOverflow)
    );
    assert_eq!(parse_number(&[0xc0, 0]), Err(Fault::NegativeNumber));
    assert_eq!(parse_number(&[0x81, 2]).unwrap(), 258);
    assert_eq!(
        parse_number(&[0x81, 0, 0, 0, 0, 0, 0, 0, 0]),
        Err(Fault::NumericOverflow)
    );
}

#[test]
fn signed_numbers_have_their_limits() {
    assert_eq!(parse_signed_number(b"0000012\0").unwrap(), 10);
    assert_eq!(
        parse_signed_number(b"1000000000000000000000"),
        Err(Fault::SignedOverflow)
    );
    assert_eq!(
        parse_signed_number(&[0xff; 12]).unwrap(),
        i64::MAX
    );
    assert_eq!(
        parse_signed_number(&[0xff, 0xff, 0xff]).unwrap(),
        -0x80_0001
    );
}

#[test]
fn decimals_have_their_limits() {
    assert_eq!(parse_decimal(b"18446744073709551615").unwrap(), u64::MAX);
    assert_eq!(
        parse_decimal(b"18446744073709551616"),
        Err(Fault::DecimalOverflow)
    );
    assert_eq!(parse_decimal(b""), Err(Fault::InvalidDecimal));
    assert_eq!(parse_decimal(b"1a"), Err(Fault::InvalidDecimal));
    assert_eq!(parse_signed_decimal(b"-9223372036854775808"), Some(i64::MIN));
    assert_eq!(parse_signed_decimal(b"9223372036854775808"), None);
    assert_eq!(parse_signed_decimal(b"+7"), Some(7));
    assert_eq!(parse_signed_decimal(b"-"), None);
}

#[test]
fn padding_fills_the_last_block() {
    assert_eq!(padding(0), 0);
    assert_eq!(padding(1), 511);
    assert_eq!(padding(512), 0);
    assert_eq!(padding(513), 511);
    assert_eq!(padding(u64::MAX), 1);
}

#[test]
fn a_written_header_is_read_back() {
    let mut header = Header::new_gnu(EntryType::Fifo);
    header.set_mode(0o7_777_777);
    header.set_uid(0o7_777_777);
    header.set_gid(1);
    header.set_size(0o77_777_777_777);
    header.set_mtime(0o77_777_777_777);
    let block = encode_header(&header).unwrap();
    assert_eq!(block.len(), 512);
    assert_eq!(&block[257..265], b"ustar  \0");
    assert!(block[265..].iter().all(|byte| *byte == 0));
    verify_checksum(&block).unwrap();
    let read = parse_header(&block).unwrap();
    assert_eq!(read.mode(), 0o7_777_777);
    assert_eq!(read.uid(), 0o7_777_777);
    assert_eq!(read.gid(), 1);
    assert_eq!(read.stored_size(), 0o77_777_777_777);
    assert_eq!(read.mtime(), 0o77_777_777_777);
    assert_eq!(read.type_flag(), b'6');
    assert_eq!(read.path(), b"");
    assert_eq!(read.link_name(), None);
}

#[test]
fn headers_that_do_not_fit_are_refused() {
    let mut header = Header::new_gnu(EntryType::File);
    header.set_mode(0o10_000_000);
    assert_eq!(encode_header(&header), Err(Fault::ModeTooWide));
    header.set_mode(0);
    header.set_uid(0o10_000_000);
    assert_eq!(encode_header(&header), Err(Fault::UidTooWide));
    header.set_uid(0);
    header.set_gid(0o10_000_000);
    assert_eq!(encode_header(&header), Err(Fault::GidTooWide));
    header.set_gid(0);
    header.set_size(0o100_000_000_000);
    assert_eq!(encode_header(&header), Err(Fault::SizeTooWide));
    header.set_size(0);
    header.set_mtime(-1);
    assert_eq!(encode_header(&header), Err(Fault::NegativeMtime));
    header.set_mtime(0o100_000_000_000);
    assert_eq!(encode_header(&header), Err(Fault::MtimeTooWide));
}

#[test]
fn a_prefix_belongs_to_the_path_in_the_posix_format() {
    let mut block = vec![0_u8; 512];
    block[..4].copy_from_slice(b"name");
    block[345..348].copy_from_slice(b"dir");
    assert_eq!(parse_header(&block).unwrap().path(), b"name");
    block[257..263].copy_from_slice(b"ustar\0");
    assert_eq!(parse_header(&block).unwrap().path(), b"dir/name");
    block[100..108].copy_from_slice(&[0x80, 0, 0, 1, 0, 0, 0, 0]);
    assert!(matches!(parse_header(&block), Err(Fault::ModeTooLarge)));
}

#[test]
fn a_checksum_may_be_that_of_signed_bytes() {
    let mut block = [0_u8; 512];
    block[0] = 0xff;
    block[148..156].fill(b' ');
    let signed: i64 = block.iter().map(|byte| i64::from(*byte as i8)).sum();
    block[148..156].copy_from_slice(format!("{signed:06o}\0 ").as_bytes());
    verify_checksum(&block).unwrap();
    block[1] = 1;
    assert_eq!(verify_checksum(&block), Err(Fault::ChecksumMismatch));
}

#[test]
fn each_kind_survives_its_flag() {
    for flag in 0..=255_u8 {
        let kind = EntryType::from_flag(flag);
        assert_eq!(EntryType::from_flag(kind.type_flag()), kind);
    }
    assert_eq!(EntryType::from_flag(b'S'), EntryType::File);
    assert_eq!(EntryType::from_flag(b'z'), EntryType::Other(b'z'));
}

#[test]
fn malformed_pax_records_are_refused() {
    assert!(matches!(parse_pax(b"10"), Err(Fault::PaxMalformedLength)));
    assert!(matches!(parse_pax(b"x a=b\n"), Err(Fault::InvalidDecimal)));
    assert!(matches!(parse_pax(b"0 a=b\n"), Err(Fault::PaxExceedsBody)));
    assert!(matches!(parse_pax(b"9 a=b\n"), Err(Fault::PaxExceedsBody)));
    assert!(matches!(parse_pax(b"1 a=b\n"), Err(Fault::PaxMalformedLength)));
    assert!(matches!(parse_pax(b"6 a=bc"), Err(Fault::PaxNoNewline)));
    assert!(matches!(parse_pax(b"6 abc\n"), Err(Fault::PaxNoEquals)));
    assert!(matches!(parse_pax(b"5 =b\n"), Err(Fault::PaxKeyEmpty)));
    assert!(matches!(
        parse_pax(b"6 \xff=b\n"),
        Err(Fault::PaxKeyNotUtf8)
    ));
    assert_eq!(parse_pax(b"").unwrap().len(), 0);
}

#[test]
fn the_last_pax_record_of_a_key_counts() {
    let records = parse_pax(b"6 a=b\n6 a=c\n8 u=\xc3\xa9x\n6 n=\xff\n").unwrap();
    assert_eq!(records.len(), 4);
    assert_eq!(pax_value(&records, "a"), Some(b"c".as_slice()));
    assert_eq!(pax_value(&records, "b"), None);
    assert_eq!(pax_text_checked(&records, "u").unwrap(), Some("éx"));
    assert_eq!(
        pax_text_checked(&records, "n"),
        Err(Fault::PaxValueNotUtf8)
    );
    assert_eq!(
        pax_u64_checked(&records, "a"),
        Err(Fault::InvalidDecimal)
    );
}

#[test]
fn pax_records_override_the_header() {
    let mut header = Header::new_gnu(EntryType::File);
    let records = payload(&[
        ("path", "o"),
        ("path", "p"),
        ("linkpath", "t"),
        ("size", "42"),
        ("mode", "420"),
        ("uid", "12"),
        ("gid", "13"),
        ("mtime", "-5.75"),
    ]);
    let records = parse_pax(&records).unwrap();
    apply_pax_header(&mut header, &records).unwrap();
    assert_eq!(header.path(), b"p");
    assert_eq!(header.link_name(), Some(b"t".as_slice()));
    assert_eq!(header.stored_size(), 42);
    assert_eq!(header.mode(), 420);
    assert_eq!(header.uid(), 12);
    assert_eq!(header.gid(), 13);
    assert_eq!(header.mtime(), -5);
    let bad = parse_pax(&payload(&[("mtime", "x")])).unwrap();
    assert_eq!(
        apply_pax_header(&mut header, &bad),
        Err(Fault::PaxMtimeInvalid)
    );
    let bad = parse_pax(&payload(&[("mode", "4294967296")])).unwrap();
    assert_eq!(
        apply_pax_header(&mut header, &bad),
        Err(Fault::PaxModeTooLarge)
    );
    assert_eq!(header.mode(), 420);
}

#[test]
fn global_pax_records_act_as_a_map() {
    let mut global = GlobalPax::new();
    global.store_all(parse_pax(b"6 b=1\n6 a=2\n6 b=3\n6 c=4\n5 c=\n").unwrap());
    let list = global.effective(None);
    let keys: Vec<&[u8]> = list.iter().map(|record| record.key.as_slice()).collect();
    assert_eq!(keys, [b"a", b"b"]);
    assert_eq!(pax_value(&list, "b"), Some(b"3".as_slice()));
    let list = global.effective(Some(parse_pax(b"5 a=\n6 d=5\n").unwrap()));
    let keys: Vec<&[u8]> = list.iter().map(|record| record.key.as_slice()).collect();
    assert_eq!(keys, [b"b", b"d"]);
}

#[test]
fn metadata_loses_what_ends_it() {
    assert_eq!(trim_metadata(b"a\nb\n\0\n\0".to_vec()), b"a\nb");
    assert_eq!(trim_metadata(b"\0\0".to_vec()), b"");
}

#[test]
fn malformed_sparse_maps_are_refused() {
    assert_eq!(
        parse_sparse_csv("1,2,9,1").unwrap(),
        [
            SparseSegment { offset: 1, len: 2 },
            SparseSegment { offset: 9, len: 1 }
        ]
    );
    assert_eq!(parse_sparse_csv("1,2,9"), Err(Fault::SparseMapOdd));
    assert_eq!(parse_sparse_csv(""), Err(Fault::InvalidDecimal));
    let pairs = payload(&[
        ("GNU.sparse.offset", "1"),
        ("GNU.sparse.numbytes", "2"),
        ("GNU.sparse.offset", "9"),
        ("GNU.sparse.numbytes", "1"),
    ]);
    let pairs = parse_pax(&pairs).unwrap();
    assert_eq!(parse_sparse_pairs(&pairs, 2).unwrap().len(), 2);
    assert_eq!(
        parse_sparse_pairs(&pairs, 1),
        Err(Fault::SparsePairsExcess)
    );
    assert_eq!(
        parse_sparse_pairs(&pairs, 3),
        Err(Fault::SparsePairsOutOfOrder)
    );
    assert_eq!(
        parse_sparse_pairs(&pairs, MAX_SPARSE_SEGMENTS as u64 + 1),
        Err(Fault::TooManySegments)
    );
    let far = [SparseSegment {
        offset: u64::MAX,
        len: 1,
    }];
    assert_eq!(
        validate_sparse(&far, u64::MAX, 1, true),
        Err(Fault::SegmentOverflow)
    );
    let one = [SparseSegment { offset: 1, len: 2 }];
    assert_eq!(validate_sparse(&one, 3, 5, false), Ok(()));
    assert_eq!(
        validate_sparse(&one, 3, 5, true),
        Err(Fault::PackedSizeMismatch)
    );
    assert_eq!(
        validate_sparse(&one, 2, 2, true),
        Err(Fault::SegmentsOverlap)
    );
}

#[test]
fn a_zero_byte_ends_an_old_sparse_map() {
    let mut map = Vec::new();
    assert_eq!(push_sparse_pair(&mut map, b"00000000012\0", b"00000000003\0"), Ok(true));
    assert_eq!(push_sparse_pair(&mut map, b"\0", b"00000000003\0"), Ok(false));
    assert_eq!(map, [SparseSegment { offset: 10, len: 3 }]);
}

#[test]
fn faults_have_classes_and_words() {
    assert_eq!(Fault::ShortData.kind(), jdx_tar::ErrorKind::UnexpectedEof);
    assert_eq!(Fault::NoTemporaryName.kind(), jdx_tar::ErrorKind::AlreadyExists);
    assert_eq!(Fault::StaleEntry.kind(), jdx_tar::ErrorKind::InvalidInput);
    assert_eq!(Fault::PathTraversal.kind(), jdx_tar::ErrorKind::InvalidData);
    assert_eq!(
        Fault::PathTraversal.message(),
        "archive path traversal rejected"
    );
}
