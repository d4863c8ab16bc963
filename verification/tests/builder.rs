use jdx_tar::{
    Archive, Builder, Cursor, Entry, EntryType, Error, ErrorKind, Fault, Header, Input, Output,
};
use std::io::Read;

fn read_to_end(entry: &mut Entry, archive: &mut Archive<Cursor>) -> Result<Vec<u8>, Error> {
    let mut body = Vec::new();
    let mut buf = [0_u8; 7];
    loop {
        let n = entry.read(archive, &mut buf)?;
        if n == 0 {
            return Ok(body);
        }
        body.extend_from_slice(&buf[..n]);
    }
}

/// A sink that takes so many bytes and then fails.
struct FullDisk {
    bytes: Vec<u8>,
    room: usize,
}

impl Output for FullDisk {
    fn write_all(&mut self, data: &[u8]) -> Result<(), std::io::Error> {
        let n = data.len().min(self.room);
        self.bytes.extend_from_slice(&data[..n]);
        self.room -= n;
        if n < data.len() {
            return Err(std::io::ErrorKind::WriteZero.into());
        }
        Ok(())
    }

    fn flush(&mut self) -> Result<(), std::io::Error> {
        if self.room == 0 {
            return Err(std::io::ErrorKind::BrokenPipe.into());
        }
        Ok(())
    }
}

/// An input that delivers so many bytes one by one and then fails.
struct LostLine(usize);

impl Input for LostLine {
    fn read(&mut self, buf: &mut [u8]) -> Result<usize, std::io::Error> {
        if self.0 == 0 {
            return Err(std::io::ErrorKind::ConnectionReset.into());
        }
        self.0 -= 1;
        buf[0] = b'x';
        Ok(1)
    }
}

fn io_kind(error: Error) -> std::io::ErrorKind {
    match error {
        Error::Io(error) => error.kind(),
        Error::Tar(fault) => panic!("{fault:?}"),
    }
}

fn empty() -> Cursor {
    Cursor::new(Vec::new())
}

#[test]
fn writes_streaming_archive_with_metadata_and_links() {
    let target = format!("../{}", "deep/".repeat(30));
    let mut builder = Builder::new(Vec::new());

    let mut dir = Header::new_gnu(EntryType::Directory);
    dir.set_mode(0o755);
    builder.append_data(&mut dir, b"pkg/", &mut empty()).unwrap();

    let mut file = Header::new_gnu(EntryType::File);
    file.set_mode(0o755);
    file.set_uid(1000);
    file.set_gid(1001);
    file.set_mtime(42);
    file.set_size(5);
    builder
        .append_data(&mut file, b"pkg/tool", &mut Cursor::new(b"hello".to_vec()))
        .unwrap();

    let mut link = Header::new_gnu(EntryType::Symlink);
    link.set_mode(0o777);
    builder
        .append_link(&mut link, b"pkg/link", target.as_bytes())
        .unwrap();
    builder.finish().unwrap();
    let bytes = builder.into_inner().unwrap();

    assert_eq!(bytes.len() % 512, 0);
    let mut archive = Archive::new(Cursor::new(bytes));
    let mut entries = archive.entries().unwrap();

    let dir = entries.next(&mut archive).unwrap().unwrap();
    assert_eq!(dir.path().unwrap(), b"pkg/");
    assert_eq!(dir.entry_type(), EntryType::Directory);

    let mut file = entries.next(&mut archive).unwrap().unwrap();
    assert_eq!(file.path().unwrap(), b"pkg/tool");
    assert_eq!(file.header().mode(), 0o755);
    assert_eq!(file.header().uid(), 1000);
    assert_eq!(file.header().gid(), 1001);
    assert_eq!(file.header().mtime(), 42);
    let contents = read_to_end(&mut file, &mut archive).unwrap();
    assert_eq!(String::from_utf8(contents).unwrap(), "hello");

    let link = entries.next(&mut archive).unwrap().unwrap();
    assert_eq!(link.entry_type(), EntryType::Symlink);
    assert_eq!(link.header().link_name().unwrap(), target.as_bytes());
    assert!(entries.next(&mut archive).is_none());
}

#[test]
fn writes_long_paths_and_rejects_short_data() {
    let long_path = format!("root/{}/tool", "nested/".repeat(20));
    let mut builder = Builder::new(Vec::new());
    let mut header = Header::new_gnu(EntryType::File);
    header.set_size(1);
    builder
        .append_data(&mut header, long_path.as_bytes(), &mut Cursor::new(b"x".to_vec()))
        .unwrap();
    builder.finish().unwrap();
    let bytes = builder.into_inner().unwrap();

    let mut archive = Archive::new(Cursor::new(bytes));
    let mut entries = archive.entries().unwrap();
    let entry = entries.next(&mut archive).unwrap().unwrap();
    assert_eq!(entry.path().unwrap(), long_path.as_bytes());

    let mut builder = Builder::new(Vec::new());
    let mut header = Header::new_gnu(EntryType::File);
    header.set_size(2);
    let error = builder
        .append_data(&mut header, b"short", &mut Cursor::new(b"x".to_vec()))
        .unwrap_err();
    assert_eq!(error.fault().unwrap().kind(), ErrorKind::UnexpectedEof);
    let mut next = Header::new_gnu(EntryType::File);
    assert!(builder.append_data(&mut next, b"next", &mut empty()).is_err());
    assert!(builder.finish().is_err());
}

#[test]
fn output_is_compatible_with_tar_rs() {
    let mut builder = Builder::new(Vec::new());
    let mut header = Header::new_gnu(EntryType::File);
    header.set_size(7);
    builder
        .append_data(
            &mut header,
            b"registry/tool.toml",
            &mut Cursor::new(b"backend".to_vec()),
        )
        .unwrap();
    let bytes = builder.into_inner().unwrap();

    let mut archive = tar::Archive::new(std::io::Cursor::new(bytes));
    let mut entry = archive.entries().unwrap().next().unwrap().unwrap();
    assert_eq!(
        entry.path().unwrap().as_ref(),
        std::path::Path::new("registry/tool.toml")
    );
    let mut contents = String::new();
    entry.read_to_string(&mut contents).unwrap();
    assert_eq!(contents, "backend");
}

#[test]
fn invalid_link_does_not_write_partial_metadata() {
    let mut builder = Builder::new(Vec::new());
    let mut link = Header::new_gnu(EntryType::Symlink);
    let long_target = "target/".repeat(20);
    assert!(builder
        .append_link(&mut link, b"", long_target.as_bytes())
        .is_err());

    let mut file = Header::new_gnu(EntryType::File);
    file.set_size(2);
    builder
        .append_data(&mut file, b"ok", &mut Cursor::new(b"ok".to_vec()))
        .unwrap();
    let bytes = builder.into_inner().unwrap();

    let mut archive = Archive::new(Cursor::new(bytes));
    let mut entries = archive.entries().unwrap();
    assert_eq!(
        entries.next(&mut archive).unwrap().unwrap().path().unwrap(),
        b"ok"
    );
    assert!(entries.next(&mut archive).is_none());
}

#[test]
fn oversized_long_records_do_not_write_partial_metadata() {
    let oversized = "x".repeat(1024 * 1024);
    let mut builder = Builder::new(Vec::new());

    let mut file = Header::new_gnu(EntryType::File);
    let error = builder
        .append_data(&mut file, oversized.as_bytes(), &mut empty())
        .unwrap_err();
    assert_eq!(error.fault().unwrap().kind(), ErrorKind::InvalidInput);

    let mut link = Header::new_gnu(EntryType::Symlink);
    let long_target = "t".repeat(101);
    let error = builder
        .append_link(&mut link, oversized.as_bytes(), long_target.as_bytes())
        .unwrap_err();
    assert_eq!(error.fault().unwrap().kind(), ErrorKind::InvalidInput);

    let mut link = Header::new_gnu(EntryType::Symlink);
    let error = builder
        .append_link(&mut link, b"oversized-target", oversized.as_bytes())
        .unwrap_err();
    assert_eq!(error.fault().unwrap().kind(), ErrorKind::InvalidInput);

    let mut valid = Header::new_gnu(EntryType::File);
    valid.set_size(2);
    builder
        .append_data(&mut valid, b"ok", &mut Cursor::new(b"ok".to_vec()))
        .unwrap();
    let bytes = builder.into_inner().unwrap();

    let mut archive = Archive::new(Cursor::new(bytes));
    let mut entries = archive.entries().unwrap();
    assert_eq!(
        entries.next(&mut archive).unwrap().unwrap().path().unwrap(),
        b"ok"
    );
    assert!(entries.next(&mut archive).is_none());
}

#[test]
fn long_names_are_read_back_up_to_the_limit() {
    let path = vec![b'p'; 1024 * 1024 - 1];
    let target = vec![b't'; 101];
    let mut builder = Builder::new(Vec::new());
    let mut link = Header::new_gnu(EntryType::Hardlink);
    link.set_size(77);
    builder.append_link(&mut link, &path, &target).unwrap();
    let bytes = builder.into_inner().unwrap();
    assert_eq!(bytes.len(), 512 + 512 + 512 + 1024 * 1024 + 512 + 1024);
    let mut archive = Archive::new(Cursor::new(bytes));
    let mut entries = archive.entries().unwrap();
    let entry = entries.next(&mut archive).unwrap().unwrap();
    assert_eq!(entry.path().unwrap(), path);
    assert_eq!(entry.header().link_name(), Some(target.as_slice()));
    assert_eq!(entry.size(), 0);
    assert!(entries.next(&mut archive).is_none());
}

#[test]
fn a_refused_entry_changes_nothing() {
    let mut builder = Builder::new(b"kept".to_vec());
    let mut file = Header::new_gnu(EntryType::File);
    let error = builder.append_data(&mut file, b"", &mut empty()).unwrap_err();
    assert_eq!(error.fault(), Some(Fault::EmptyPath));
    let error = builder.append_link(&mut file, b"a", b"b").unwrap_err();
    assert_eq!(error.fault(), Some(Fault::NotALink));
    let mut link = Header::new_gnu(EntryType::Symlink);
    let error = builder.append_link(&mut link, b"a", b"").unwrap_err();
    assert_eq!(error.fault(), Some(Fault::EmptyTarget));
    link.set_mtime(-1);
    let error = builder.append_link(&mut link, b"a", b"b").unwrap_err();
    assert_eq!(error.fault(), Some(Fault::NegativeMtime));
    let mut expected = b"kept".to_vec();
    expected.resize(4 + 1024, 0);
    assert_eq!(builder.into_inner().unwrap(), expected);
}

#[test]
fn a_finished_archive_stays_finished() {
    let mut builder = Builder::new(Vec::new());
    builder.finish().unwrap();
    builder.finish().unwrap();
    let mut file = Header::new_gnu(EntryType::File);
    let error = builder.append_data(&mut file, b"late", &mut empty()).unwrap_err();
    assert_eq!(error.fault(), Some(Fault::FinishedAppend));
    assert_eq!(builder.into_inner().unwrap(), vec![0; 1024]);
}

#[test]
fn short_data_poisons_the_archive() {
    let mut builder = Builder::new(Vec::new());
    let mut file = Header::new_gnu(EntryType::File);
    file.set_size(3);
    let error = builder
        .append_data(&mut file, b"short", &mut Cursor::new(b"ab".to_vec()))
        .unwrap_err();
    assert_eq!(error.fault(), Some(Fault::ShortData));
    let error = builder.append_data(&mut file, b"next", &mut empty()).unwrap_err();
    assert_eq!(error.fault(), Some(Fault::PoisonedAppend));
    let error = builder.finish().unwrap_err();
    assert_eq!(error.fault(), Some(Fault::PoisonedFinish));
    assert!(builder.into_inner().is_err());
}

#[test]
fn data_beyond_the_declared_size_is_left_alone() {
    let mut builder = Builder::new(Vec::new());
    let mut file = Header::new_gnu(EntryType::File);
    file.set_size(9000);
    let mut data = Cursor::new(vec![b'x'; 20000]);
    builder.append_data(&mut file, b"file", &mut data).unwrap();
    let mut rest = vec![0; 20000];
    let mut left = 0;
    loop {
        let n = data.read(&mut rest[left..]).unwrap();
        if n == 0 {
            break;
        }
        left += n;
    }
    assert_eq!(left, 11000);
    let bytes = builder.into_inner().unwrap();
    assert_eq!(bytes.len(), 512 + 9216 + 1024);
    assert!(bytes[512..512 + 9000].iter().all(|byte| *byte == b'x'));
    assert!(bytes[512 + 9000..].iter().all(|byte| *byte == 0));
}

#[test]
fn a_sink_that_fails_poisons_the_archive() {
    for room in [0, 511, 512, 514, 515, 1023] {
        let mut builder = Builder::new(FullDisk {
            bytes: Vec::new(),
            room,
        });
        let mut file = Header::new_gnu(EntryType::File);
        file.set_size(3);
        let error = builder
            .append_data(&mut file, b"file", &mut Cursor::new(b"abc".to_vec()))
            .unwrap_err();
        assert_eq!(io_kind(error), std::io::ErrorKind::WriteZero);
        let error = builder.finish().unwrap_err();
        assert_eq!(error.fault(), Some(Fault::PoisonedFinish));
    }
    let mut builder = Builder::new(FullDisk {
        bytes: Vec::new(),
        room: 1024,
    });
    let error = builder.finish().unwrap_err();
    assert_eq!(io_kind(error), std::io::ErrorKind::BrokenPipe);
    assert!(builder.into_inner().is_err());
    let builder = Builder::new(FullDisk {
        bytes: b"old".to_vec(),
        room: 1025,
    });
    let sink = builder.into_inner().unwrap();
    assert_eq!(&sink.bytes[..3], b"old");
    assert_eq!(sink.bytes.len(), 3 + 1024);
}

#[test]
fn an_input_that_fails_poisons_the_archive() {
    let mut builder = Builder::new(Vec::new());
    let mut file = Header::new_gnu(EntryType::File);
    file.set_size(3);
    builder.append_data(&mut file, b"whole", &mut LostLine(3)).unwrap();
    let error = builder
        .append_data(&mut file, b"file", &mut LostLine(2))
        .unwrap_err();
    assert_eq!(io_kind(error), std::io::ErrorKind::ConnectionReset);
    let error = builder
        .append_data(&mut file, b"next", &mut LostLine(3))
        .unwrap_err();
    assert_eq!(error.fault(), Some(Fault::PoisonedAppend));
}

#[test]
fn names_that_cannot_be_represented_are_refused() {
    let long_target = vec![b't'; 101];
    let mut builder = Builder::new(Vec::new());
    let mut header = Header::new_gnu(EntryType::Symlink);
    builder.append_link(&mut header, b"a", &long_target).unwrap();
    let error = builder.append_data(&mut header, b"b", &mut empty()).unwrap_err();
    assert_eq!(error.fault(), Some(Fault::UnwritableTarget));
    assert_eq!(Fault::UnwritableTarget.kind(), ErrorKind::InvalidInput);
    builder.append_link(&mut header, b"c", b"short").unwrap();
    builder.append_data(&mut header, b"d", &mut empty()).unwrap();

    let long = |last: u8| {
        let mut name = vec![b'n'; 100];
        name.push(last);
        name
    };
    for path in [b"a\0b".to_vec(), long(0)] {
        let mut file = Header::new_gnu(EntryType::File);
        let error = builder.append_data(&mut file, &path, &mut empty()).unwrap_err();
        assert_eq!(error.fault(), Some(Fault::UnwritablePath));
        let error = builder.append_link(&mut header, &path, b"t").unwrap_err();
        assert_eq!(error.fault(), Some(Fault::UnwritablePath));
        let error = builder.append_link(&mut header, b"p", &path).unwrap_err();
        assert_eq!(error.fault(), Some(Fault::UnwritableTarget));
    }

    let mut archive = Archive::new(Cursor::new(builder.into_inner().unwrap()));
    let mut entries = archive.entries().unwrap();
    let expected: [(&[u8], &[u8]); 3] = [(b"a", &long_target), (b"c", b"short"), (b"d", b"short")];
    for (path, target) in expected {
        let entry = entries.next(&mut archive).unwrap().unwrap();
        assert_eq!(entry.path().unwrap(), path);
        assert_eq!(entry.header().link_name(), Some(target));
    }
    assert!(entries.next(&mut archive).is_none());
}

#[test]
fn long_names_that_end_in_a_newline_are_written() {
    let mut name = vec![b'n'; 100];
    name.push(b'\n');
    let mut builder = Builder::new(Vec::new());
    let mut file = Header::new_gnu(EntryType::File);
    builder.append_data(&mut file, &name, &mut empty()).unwrap();
    let mut link = Header::new_gnu(EntryType::Symlink);
    builder.append_link(&mut link, b"a", &name).unwrap();
    builder.append_link(&mut link, &name, b"t").unwrap();
    let bytes = builder.into_inner().unwrap();
    for at in [512, 512 * 4, 512 * 7] {
        assert_eq!(bytes[at - 356], if at == 512 * 4 { b'K' } else { b'L' });
        assert_eq!(&bytes[at..at + 101], &name[..]);
        assert_eq!(bytes[at + 101], 0);
    }

    let mut archive = Archive::new(Cursor::new(bytes));
    let mut entries = archive.entries().unwrap();
    let expected: [(&[u8], Option<&[u8]>); 3] = [
        (&name[..100], None),
        (b"a", Some(&name[..100])),
        (&name[..100], Some(b"t")),
    ];
    for (path, target) in expected {
        let entry = entries.next(&mut archive).unwrap().unwrap();
        assert_eq!(entry.path().unwrap(), path);
        assert_eq!(entry.header().link_name(), target);
    }
    assert!(entries.next(&mut archive).is_none());
}

#[test]
fn a_finished_archive_is_what_was_appended() {
    assert_eq!(Builder::new(Vec::new()).into_inner().unwrap(), vec![0; 1024]);
    let mut builder = Builder::new(Vec::new());
    let mut file = Header::new_gnu(EntryType::File);
    file.set_size(3);
    builder
        .append_data(&mut file, b"one", &mut Cursor::new(b"abc".to_vec()))
        .unwrap();
    assert!(builder.append_data(&mut file, b"", &mut empty()).is_err());
    let mut link = Header::new_gnu(EntryType::Symlink);
    builder.append_link(&mut link, b"two", &[b't'; 101]).unwrap();
    builder.finish().unwrap();
    assert!(builder.append_link(&mut link, b"late", b"one").is_err());
    builder.finish().unwrap();
    let bytes = builder.into_inner().unwrap();
    assert_eq!(bytes.len(), 1024 + 1024 + 512 + 1024);
    assert_eq!(&bytes[..3], b"one");
    assert_eq!(&bytes[512..515], b"abc");
    assert_eq!(&bytes[2048..2051], b"two");
    assert!(bytes[2560..].iter().all(|byte| *byte == 0));
}
