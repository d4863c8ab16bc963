use jdx_tar::{Archive, Cursor, Entry, Error, Fault, Input, SparseSegment};

fn octal(field: &mut [u8], value: u64) {
    field.fill(0);
    let text = format!("{:0width$o}", value, width = field.len() - 1);
    field[..text.len()].copy_from_slice(text.as_bytes());
}

fn header(name: &str, size: u64, kind: u8) -> [u8; 512] {
    let mut block = [0_u8; 512];
    block[..name.len()].copy_from_slice(name.as_bytes());
    octal(&mut block[100..108], 0o644);
    octal(&mut block[108..116], 0);
    octal(&mut block[116..124], 0);
    octal(&mut block[124..136], size);
    octal(&mut block[136..148], 1_700_000_000);
    block[148..156].fill(b' ');
    block[156] = kind;
    block[257..263].copy_from_slice(b"ustar\0");
    block[263..265].copy_from_slice(b"00");
    finish_header(&mut block);
    block
}

fn finish_header(block: &mut [u8; 512]) {
    block[148..156].fill(b' ');
    let checksum: u64 = block.iter().map(|byte| u64::from(*byte)).sum();
    let sum = format!("{checksum:06o}\0 ");
    block[148..156].copy_from_slice(sum.as_bytes());
}

fn append_entry(tar: &mut Vec<u8>, block: [u8; 512], data: &[u8]) {
    tar.extend_from_slice(&block);
    tar.extend_from_slice(data);
    tar.resize(tar.len().div_ceil(512) * 512, 0);
}

fn pax_record(key: &str, value: &str) -> String {
    let body = format!(" {key}={value}\n");
    let mut length = body.len() + 1;
    loop {
        let record = format!("{length}{body}");
        if record.len() == length {
            return record;
        }
        length = record.len();
    }
}

fn pax_header(records: &[(&str, &str)]) -> (Vec<u8>, [u8; 512]) {
    let data = records
        .iter()
        .map(|(key, value)| pax_record(key, value))
        .collect::<String>()
        .into_bytes();
    let block = header("PaxHeaders/test", data.len() as u64, b'x');
    (data, block)
}

fn terminate(tar: &mut Vec<u8>) {
    tar.resize(tar.len() + 1024, 0);
}

fn read_to_end(entry: &mut Entry, archive: &mut Archive<Cursor>) -> Result<Vec<u8>, Error> {
    let mut body = Vec::new();
    let mut buf = [0_u8; 7];
    loop {
        let n = entry.read(archive, &mut buf)?;
        if n == 0 {
            return Ok(body);
        }
        body.extend_from_slice(&buf[..n]);
    }
}

/// An input that delivers bytes one by one and then fails.
struct LostLine {
    data: Vec<u8>,
    pos: usize,
}

impl Input for LostLine {
    fn read(&mut self, buf: &mut [u8]) -> Result<usize, std::io::Error> {
        if self.pos == self.data.len() {
            return Err(std::io::ErrorKind::ConnectionReset.into());
        }
        buf[0] = self.data[self.pos];
        self.pos += 1;
        Ok(1)
    }
}

/// The error with which the iteration over an archive begins.
fn first_fault(tar: Vec<u8>) -> Fault {
    let mut archive = Archive::new(Cursor::new(tar));
    let mut entries = archive.entries().unwrap();
    let Some(Err(error)) = entries.next(&mut archive) else {
        panic!("no error");
    };
    assert!(entries.next(&mut archive).is_none());
    error.fault().unwrap()
}

#[test]
fn reads_dense_and_pax_path() {
    let mut tar = Vec::new();
    let (pax, pax_block) = pax_header(&[("path", "deep/δ/file.txt")]);
    append_entry(&mut tar, pax_block, &pax);
    append_entry(&mut tar, header("ignored", 5, b'0'), b"hello");
    terminate(&mut tar);

    let mut archive = Archive::new(Cursor::new(tar));
    let mut entries = archive.entries().unwrap();
    let mut entry = entries.next(&mut archive).unwrap().unwrap();
    assert_eq!(
        String::from_utf8_lossy(entry.path().unwrap()),
        "deep/δ/file.txt"
    );
    let body = read_to_end(&mut entry, &mut archive).unwrap();
    assert_eq!(String::from_utf8(body).unwrap(), "hello");
    assert!(entries.next(&mut archive).is_none());
}

#[test]
fn reads_pax_sparse_1_0_as_logical_content() {
    let mut tar = Vec::new();
    let (pax, pax_block) = pax_header(&[
        ("GNU.sparse.major", "1"),
        ("GNU.sparse.minor", "0"),
        ("GNU.sparse.name", "root/sparse.bin"),
        ("GNU.sparse.realsize", "20"),
        // Go's archive/tar writes the logical size here while retaining the
        // packed size in the following tar header.
        ("size", "20"),
    ]);
    append_entry(&mut tar, pax_block, &pax);
    let map = b"2\n2\n3\n15\n2\n";
    let mut physical = map.to_vec();
    physical.resize(512, 0);
    physical.extend_from_slice(b"abcXY");
    append_entry(
        &mut tar,
        header("GNUSparseFile.1/sparse.bin", physical.len() as u64, b'0'),
        &physical,
    );
    terminate(&mut tar);

    let mut archive = Archive::new(Cursor::new(tar));
    let mut entries = archive.entries().unwrap();
    let mut entry = entries.next(&mut archive).unwrap().unwrap();
    assert_eq!(
        String::from_utf8_lossy(entry.path().unwrap()),
        "root/sparse.bin"
    );
    assert_eq!(entry.size(), 20);
    assert_eq!(
        entry.sparse_map().unwrap(),
        [
            SparseSegment { offset: 2, len: 3 },
            SparseSegment { offset: 15, len: 2 }
        ]
    );
    let body = read_to_end(&mut entry, &mut archive).unwrap();
    assert_eq!(&body[2..5], b"abc");
    assert_eq!(&body[15..17], b"XY");
    assert!(body[..2]
        .iter()
        .chain(&body[5..15])
        .chain(&body[17..])
        .all(|b| *b == 0));
}

#[test]
fn reads_pax_sparse_0_0_and_0_1() {
    for records in [
        vec![
            ("GNU.sparse.major", "0"),
            ("GNU.sparse.minor", "0"),
            ("GNU.sparse.size", "12"),
            ("GNU.sparse.numblocks", "2"),
            ("GNU.sparse.offset", "1"),
            ("GNU.sparse.numbytes", "2"),
            ("GNU.sparse.offset", "9"),
            ("GNU.sparse.numbytes", "1"),
        ],
        vec![
            ("GNU.sparse.major", "0"),
            ("GNU.sparse.minor", "1"),
            ("GNU.sparse.size", "12"),
            ("GNU.sparse.map", "1,2,9,1"),
        ],
    ] {
        let mut tar = Vec::new();
        let (pax, pax_block) = pax_header(&records);
        append_entry(&mut tar, pax_block, &pax);
        append_entry(&mut tar, header("sparse", 3, b'0'), b"abc");
        terminate(&mut tar);
        let mut archive = Archive::new(Cursor::new(tar));
        let mut entries = archive.entries().unwrap();
        let mut entry = entries.next(&mut archive).unwrap().unwrap();
        let body = read_to_end(&mut entry, &mut archive).unwrap();
        assert_eq!(body.len(), 12);
        assert_eq!(&body[1..3], b"ab");
        assert_eq!(body[9], b'c');
    }
}

#[test]
fn reads_old_gnu_sparse() {
    let mut tar = Vec::new();
    let mut block = header("old-sparse", 3, b'S');
    block[257..265].copy_from_slice(b"ustar  \0");
    octal(&mut block[386..398], 2);
    octal(&mut block[398..410], 2);
    octal(&mut block[410..422], 10);
    octal(&mut block[422..434], 1);
    octal(&mut block[483..495], 16);
    finish_header(&mut block);
    append_entry(&mut tar, block, b"abc");
    terminate(&mut tar);
    let mut archive = Archive::new(Cursor::new(tar));
    let mut entries = archive.entries().unwrap();
    let mut entry = entries.next(&mut archive).unwrap().unwrap();
    let body = read_to_end(&mut entry, &mut archive).unwrap();
    assert_eq!(&body[2..4], b"ab");
    assert_eq!(body[10], b'c');
    assert_eq!(body.len(), 16);
}

#[test]
fn reads_old_gnu_sparse_with_extension_blocks() {
    let mut tar = Vec::new();
    let mut block = header("old-sparse", 5, b'S');
    block[257..265].copy_from_slice(b"ustar  \0");
    for k in 0..4 {
        octal(&mut block[386 + 24 * k..398 + 24 * k], 10 * k as u64);
        octal(&mut block[398 + 24 * k..410 + 24 * k], 1);
    }
    block[482] = 1;
    octal(&mut block[483..495], 50);
    finish_header(&mut block);
    tar.extend_from_slice(&block);
    let mut extension = [0_u8; 512];
    octal(&mut extension[..12], 40);
    octal(&mut extension[12..24], 1);
    tar.extend_from_slice(&extension);
    tar.extend_from_slice(b"abcde");
    tar.resize(tar.len().div_ceil(512) * 512, 0);
    append_entry(&mut tar, header("next", 0, b'0'), b"");
    terminate(&mut tar);
    let mut archive = Archive::new(Cursor::new(tar));
    let mut entries = archive.entries().unwrap();
    let mut entry = entries.next(&mut archive).unwrap().unwrap();
    assert_eq!(entry.sparse_map().unwrap().len(), 5);
    let body = read_to_end(&mut entry, &mut archive).unwrap();
    assert_eq!(body.len(), 50);
    for (k, byte) in b"abcde".iter().enumerate() {
        assert_eq!(body[10 * k], *byte);
        assert_eq!(body[10 * k + 1], 0);
    }
    let entry = entries.next(&mut archive).unwrap().unwrap();
    assert_eq!(entry.path().unwrap(), b"next");
}

#[test]
fn names_are_resolved_in_their_order() {
    let mut tar = Vec::new();
    append_entry(&mut tar, header("././@LongLink", 5, b'L'), b"long\0");
    append_entry(&mut tar, header("././@LongLink", 7, b'K'), b"target\0");
    append_entry(&mut tar, header("short", 0, b'2'), b"");
    let (pax, pax_block) = pax_header(&[("path", "pax")]);
    append_entry(&mut tar, header("././@LongLink", 5, b'L'), b"long\0");
    append_entry(&mut tar, pax_block, &pax);
    append_entry(&mut tar, header("short", 0, b'0'), b"");
    append_entry(&mut tar, header("short", 0, b'0'), b"");
    terminate(&mut tar);
    let mut archive = Archive::new(Cursor::new(tar));
    let mut entries = archive.entries().unwrap();
    let entry = entries.next(&mut archive).unwrap().unwrap();
    assert_eq!(entry.path().unwrap(), b"long");
    assert_eq!(entry.header().link_name(), Some(b"target".as_slice()));
    let entry = entries.next(&mut archive).unwrap().unwrap();
    assert_eq!(entry.path().unwrap(), b"pax");
    assert_eq!(entry.pax_extensions(), [("path", b"pax".as_slice())]);
    let entry = entries.next(&mut archive).unwrap().unwrap();
    assert_eq!(entry.path().unwrap(), b"short");
    assert!(entries.next(&mut archive).is_none());
}

#[test]
fn global_records_hold_until_they_are_replaced() {
    let mut tar = Vec::new();
    let (pax, mut pax_block) = pax_header(&[("uid", "7"), ("comment", "é")]);
    pax_block[156] = b'g';
    finish_header(&mut pax_block);
    append_entry(&mut tar, pax_block, &pax);
    append_entry(&mut tar, header("a", 0, b'0'), b"");
    let (pax, pax_block) = pax_header(&[("uid", "8"), ("comment", "")]);
    append_entry(&mut tar, pax_block, &pax);
    append_entry(&mut tar, header("b", 0, b'0'), b"");
    append_entry(&mut tar, header("c", 0, b'0'), b"");
    let mut archive = Archive::new(Cursor::new(tar));
    let mut entries = archive.entries().unwrap();
    let a = entries.next(&mut archive).unwrap().unwrap();
    assert_eq!(a.header().uid(), 7);
    assert_eq!(
        a.pax_extensions(),
        [
            ("comment", "é".as_bytes()),
            ("uid", b"7".as_slice()),
        ]
    );
    let b = entries.next(&mut archive).unwrap().unwrap();
    assert_eq!(b.header().uid(), 8);
    assert_eq!(b.pax_extensions(), [("uid", b"8".as_slice())]);
    let c = entries.next(&mut archive).unwrap().unwrap();
    assert_eq!(c.header().uid(), 7);
    assert_eq!(c.bytes_read(&archive), 5 * 512 + 2 * 512);
    assert!(entries.next(&mut archive).is_none());
}

#[test]
fn stale_entries_are_refused() {
    let mut tar = Vec::new();
    append_entry(&mut tar, header("one", 3, b'0'), b"abc");
    append_entry(&mut tar, header("two", 3, b'0'), b"xyz");
    terminate(&mut tar);
    let mut archive = Archive::new(Cursor::new(tar));
    let mut entries = archive.entries().unwrap();
    let mut one = entries.next(&mut archive).unwrap().unwrap();
    let mut buf = [7_u8; 2];
    assert_eq!(one.read(&mut archive, &mut buf).unwrap(), 2);
    assert_eq!(&buf, b"ab");
    let mut two = entries.next(&mut archive).unwrap().unwrap();
    let error = one.read(&mut archive, &mut buf).unwrap_err();
    assert_eq!(error.fault(), Some(Fault::StaleEntry));
    assert_eq!(&buf, b"ab");
    assert_eq!(read_to_end(&mut two, &mut archive).unwrap(), b"xyz");
}

#[test]
fn the_last_entry_is_stale_after_the_end() {
    let mut tar = Vec::new();
    append_entry(&mut tar, header("one", 3, b'0'), b"abc");
    let mut bad = tar.clone();
    terminate(&mut tar);
    bad.extend_from_slice(&[1; 512]);
    for tar in [tar, bad] {
        let mut archive = Archive::new(Cursor::new(tar));
        let mut entries = archive.entries().unwrap();
        let mut one = entries.next(&mut archive).unwrap().unwrap();
        assert!(!matches!(entries.next(&mut archive), Some(Ok(_))));
        let error = read_to_end(&mut one, &mut archive).unwrap_err();
        assert_eq!(error.fault(), Some(Fault::StaleEntry));
    }
}

#[test]
fn an_archive_may_end_without_its_last_blocks() {
    let mut tar = Vec::new();
    append_entry(&mut tar, header("one", 3, b'0'), b"abc");
    tar.resize(tar.len() + 512, 0);
    append_entry(&mut tar, header("two", 0, b'0'), b"");
    let mut archive = Archive::new(Cursor::new(tar));
    let mut entries = archive.entries().unwrap();
    assert!(entries.next(&mut archive).unwrap().is_ok());
    let two = entries.next(&mut archive).unwrap().unwrap();
    assert_eq!(two.path().unwrap(), b"two");
    assert!(entries.next(&mut archive).is_none());
    assert!(entries.next(&mut archive).is_none());
}

#[test]
fn malformed_archives_are_refused() {
    assert_eq!(first_fault(vec![1; 100]), Fault::TruncatedArchive);
    assert_eq!(first_fault(vec![1; 512]), Fault::ChecksumMismatch);
    assert_eq!(first_fault(vec![b'9'; 512]), Fault::InvalidOctal);

    let mut tar = Vec::new();
    let (pax, pax_block) = pax_header(&[("path", "a")]);
    append_entry(&mut tar, pax_block, &pax);
    append_entry(&mut tar, pax_block, &pax);
    assert_eq!(first_fault(tar), Fault::DuplicateLocalPax);

    let huge = header("PaxHeaders/huge", 1024 * 1024 + 1, b'g');
    assert_eq!(first_fault(huge.to_vec()), Fault::MetadataTooLarge);

    let plain = header("old", 0, b'S');
    assert_eq!(first_fault(plain.to_vec()), Fault::NotGnuSparse);
}

#[test]
fn malformed_sparse_metadata_is_refused() {
    let sparse = |records: &[(&str, &str)], physical: &[u8]| {
        let mut tar = Vec::new();
        let (pax, pax_block) = pax_header(records);
        append_entry(&mut tar, pax_block, &pax);
        append_entry(
            &mut tar,
            header("sparse", physical.len() as u64, b'0'),
            physical,
        );
        terminate(&mut tar);
        first_fault(tar)
    };
    let one = [
        ("GNU.sparse.major", "1"),
        ("GNU.sparse.minor", "0"),
        ("GNU.sparse.realsize", "9"),
    ];
    assert_eq!(sparse(&one[..2], b""), Fault::RealSizeMissing);
    assert_eq!(sparse(&one, b""), Fault::TruncatedSparseMap);
    assert_eq!(sparse(&one, b"\n"), Fault::EmptySparseDecimal);
    assert_eq!(sparse(&one, b"x\n"), Fault::InvalidSparseDecimal);
    assert_eq!(
        sparse(&one, b"000000000000000000000\n"),
        Fault::InvalidSparseDecimal
    );
    assert_eq!(sparse(&one, b"99999999999999999999\n"), Fault::DecimalOverflow);
    assert_eq!(sparse(&one, b"1000001\n"), Fault::TooManySegments);
    assert_eq!(sparse(&one, b"0\n"), Fault::SparseMapExceedsEntry);
    assert_eq!(
        sparse(&[("GNU.sparse.major", "2")], b""),
        Fault::UnsupportedSparseVersion
    );
    assert_eq!(
        sparse(&[("GNU.sparse.map", "0,1")], b"a"),
        Fault::SparseSizeMissing
    );
    assert_eq!(
        sparse(&[("GNU.sparse.size", "1")], b"a"),
        Fault::OrphanedSparse
    );
}

#[test]
fn contents_may_be_cut_off() {
    let mut tar = header("file", 5, b'0').to_vec();
    tar.extend_from_slice(b"hi");
    let mut archive = Archive::new(Cursor::new(tar));
    let mut entries = archive.entries().unwrap();
    let mut entry = entries.next(&mut archive).unwrap().unwrap();
    let mut buf = [0_u8; 8];
    assert_eq!(entry.read(&mut archive, &mut buf).unwrap(), 2);
    let error = entry.read(&mut archive, &mut buf).unwrap_err();
    assert_eq!(error.fault(), Some(Fault::TruncatedEntryData));
    let error = entries.next(&mut archive).unwrap().err().unwrap();
    assert_eq!(error.fault(), Some(Fault::TruncatedArchive));
}

#[test]
fn an_input_may_fail_at_any_place() {
    let mut tar = Vec::new();
    append_entry(&mut tar, header("first", 5, b'0'), b"hello");
    append_entry(&mut tar, header("second", 0, b'0'), b"");
    terminate(&mut tar);
    for len in 0..tar.len() {
        let mut archive = Archive::new(LostLine {
            data: tar[..len].to_vec(),
            pos: 0,
        });
        let mut entries = archive.entries().unwrap();
        let mut found = 0;
        let error = loop {
            match entries.next(&mut archive) {
                Some(Ok(_)) => found += 1,
                Some(Err(error)) => break error,
                None => panic!("no error"),
            }
        };
        assert!(matches!(
            error,
            Error::Io(error) if error.kind() == std::io::ErrorKind::ConnectionReset
        ));
        assert_eq!(found, usize::from(len >= 512) + usize::from(len >= 1536));
        assert_eq!(archive.bytes_read(), len as u64);
        assert!(entries.next(&mut archive).is_none());
    }
    let mut archive = Archive::new(LostLine { data: tar, pos: 0 });
    let mut entries = archive.entries().unwrap();
    let mut entry = entries.next(&mut archive).unwrap().unwrap();
    let mut buf = [0_u8; 8];
    for byte in *b"hello" {
        assert_eq!(entry.read(&mut archive, &mut buf).unwrap(), 1);
        assert_eq!(buf[0], byte);
    }
    assert_eq!(entry.read(&mut archive, &mut buf).unwrap(), 0);
    assert!(entries.next(&mut archive).unwrap().is_ok());
    assert!(entries.next(&mut archive).is_none());
}

#[test]
fn oversized_metadata_is_refused_after_its_header() {
    for kind in [b'x', b'g', b'L', b'K'] {
        let mut tar = header("PaxHeaders/huge", 1024 * 1024 + 1, kind).to_vec();
        tar.resize(1536, 0);
        let mut archive = Archive::new(Cursor::new(tar));
        let mut entries = archive.entries().unwrap();
        let error = entries.next(&mut archive).unwrap().err().unwrap();
        assert_eq!(error.fault(), Some(Fault::MetadataTooLarge));
        assert_eq!(archive.bytes_read(), 512);
    }
}

#[test]
fn old_sparse_entries_have_no_other_sparse_metadata() {
    let mut block = header("old", 0, b'S');
    block[257..265].copy_from_slice(b"ustar  \0");
    finish_header(&mut block);
    let mut tar = Vec::new();
    append_entry(&mut tar, block, b"");
    terminate(&mut tar);
    let mut archive = Archive::new(Cursor::new(tar));
    let mut entries = archive.entries().unwrap();
    let entry = entries.next(&mut archive).unwrap().unwrap();
    assert_eq!(entry.sparse_map(), Some([].as_slice()));

    let mut tar = Vec::new();
    let (pax, pax_block) = pax_header(&[("GNU.sparse.name", "alias")]);
    append_entry(&mut tar, pax_block, &pax);
    append_entry(&mut tar, block, b"");
    terminate(&mut tar);
    assert_eq!(first_fault(tar), Fault::ConflictingSparse);
}

#[test]
fn iterations_agree_however_much_is_read() {
    let mut tar = Vec::new();
    let (pax, pax_block) = pax_header(&[
        ("GNU.sparse.major", "1"),
        ("GNU.sparse.minor", "0"),
        ("GNU.sparse.realsize", "9"),
    ]);
    append_entry(&mut tar, header("first", 700, b'0'), &[b'x'; 700]);
    append_entry(&mut tar, pax_block, &pax);
    let mut packed = b"1\n2\n3\n".to_vec();
    packed.resize(512, 0);
    packed.extend_from_slice(b"abc");
    append_entry(&mut tar, header("second", 515, b'0'), &packed);
    append_entry(&mut tar, header("third", 1, b'0'), b"z");
    terminate(&mut tar);
    let names = |amount: usize| {
        let mut archive = Archive::new(Cursor::new(tar.clone()));
        let mut entries = archive.entries().unwrap();
        let mut found = Vec::new();
        while let Some(item) = entries.next(&mut archive) {
            let mut entry = item.unwrap();
            let mut buf = vec![0_u8; amount];
            entry.read(&mut archive, &mut buf).unwrap();
            found.push((entry.path().unwrap().to_vec(), entry.size()));
        }
        assert_eq!(archive.bytes_read() % 512, 0);
        found
    };
    let all = names(0);
    assert_eq!(all.len(), 3);
    assert_eq!(all[1], (b"second".to_vec(), 9));
    for amount in [1, 2, 3, 600, 1000] {
        assert_eq!(names(amount), all);
    }
}
