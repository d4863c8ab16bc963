use jdx_tar::path::{is_reserved_path, path_requires_directory, secure_relative_path};
use jdx_tar::{
    Answer, Archive, Ask, Cursor, DirectoryTasks, Entries, Entry, EntryJob, EntryType,
    EntryUnpacker, Error, Fault, FileId, FileKind, Place, Platform, ProgressReporter, Request,
    RestoreAsk, SkipReason, Trouble, UnpackOptions, UnpackSummary,
};
use std::cell::RefCell;
use std::collections::BTreeMap;
use std::path::PathBuf;

fn octal(field: &mut [u8], value: u64) {
    field.fill(0);
    let text = format!("{:0width$o}", value, width = field.len() - 1);
    field[..text.len()].copy_from_slice(text.as_bytes());
}

fn header(name: &str, size: u64, kind: u8) -> [u8; 512] {
    let mut block = [0_u8; 512];
    block[..name.len()].copy_from_slice(name.as_bytes());
    octal(&mut block[100..108], 0o644);
    octal(&mut block[108..116], 0);
    octal(&mut block[116..124], 0);
    octal(&mut block[124..136], size);
    octal(&mut block[136..148], 1_700_000_000);
    block[148..156].fill(b' ');
    block[156] = kind;
    block[257..263].copy_from_slice(b"ustar\0");
    block[263..265].copy_from_slice(b"00");
    finish_header(&mut block);
    block
}

fn finish_header(block: &mut [u8; 512]) {
    block[148..156].fill(b' ');
    let checksum: u64 = block.iter().map(|byte| u64::from(*byte)).sum();
    let sum = format!("{checksum:06o}\0 ");
    block[148..156].copy_from_slice(sum.as_bytes());
}

fn append_entry(tar: &mut Vec<u8>, block: [u8; 512], data: &[u8]) {
    tar.extend_from_slice(&block);
    tar.extend_from_slice(data);
    tar.resize(tar.len().div_ceil(512) * 512, 0);
}

fn pax_record(key: &str, value: &str) -> String {
    let body = format!(" {key}={value}\n");
    let mut length = body.len() + 1;
    loop {
        let record = format!("{length}{body}");
        if record.len() == length {
            return record;
        }
        length = record.len();
    }
}

fn pax_header(records: &[(&str, &str)]) -> (Vec<u8>, [u8; 512]) {
    let data = records
        .iter()
        .map(|(key, value)| pax_record(key, value))
        .collect::<String>()
        .into_bytes();
    let block = header("PaxHeaders/test", data.len() as u64, b'x');
    (data, block)
}

fn terminate(tar: &mut Vec<u8>) {
    tar.resize(tar.len() + 1024, 0);
}

fn link_header(name: &str, target: &str, kind: u8) -> [u8; 512] {
    let mut block = header(name, 0, kind);
    block[157..157 + target.len()].copy_from_slice(target.as_bytes());
    finish_header(&mut block);
    block
}

type Path = Vec<Vec<u8>>;

fn at(path: &str) -> Path {
    path.split('/')
        .filter(|part| !part.is_empty())
        .map(|part| part.as_bytes().to_vec())
        .collect()
}

/// Something on the disk. Files are known by their number.
#[derive(Clone, Debug, PartialEq)]
enum Node {
    Dir { mode: u32, mtime: i64, inode: u64 },
    File(u64),
    Link(Vec<u8>),
}

#[derive(Clone, Debug, Default, PartialEq)]
struct Contents {
    bytes: Vec<u8>,
    mode: u32,
    mtime: i64,
}

/// A file system in memory. Paths are those beneath the destination.
#[derive(Clone, Debug)]
struct Disk {
    nodes: BTreeMap<Path, Node>,
    files: BTreeMap<u64, Contents>,
    next: u64,
    open: Option<u64>,
    done: Vec<String>,
    denied: bool,
}

fn error(kind: std::io::ErrorKind) -> std::io::Error {
    std::io::Error::from(kind)
}

fn missing() -> Answer {
    Answer::Missing(error(std::io::ErrorKind::NotFound))
}

fn taken() -> Answer {
    Answer::Failed(
        Trouble::AlreadyExists,
        error(std::io::ErrorKind::AlreadyExists),
    )
}

fn failed() -> Answer {
    Answer::Failed(Trouble::Other, error(std::io::ErrorKind::Other))
}

impl Disk {
    fn new() -> Self {
        Disk {
            nodes: BTreeMap::new(),
            files: BTreeMap::new(),
            next: 1,
            open: None,
            done: Vec::new(),
            denied: false,
        }
    }

    fn number(&mut self) -> u64 {
        self.next += 1;
        self.next
    }

    fn stat(&self, path: &Path) -> Answer {
        let id = |inode| FileId { device: 1, inode };
        match self.nodes.get(path) {
            None => missing(),
            Some(Node::Dir { inode, .. }) => Answer::Found(FileKind::Directory, id(*inode)),
            Some(Node::File(number)) => Answer::Found(FileKind::File, id(*number)),
            Some(Node::Link(_)) => Answer::Found(FileKind::Symlink, id(0)),
        }
    }

    fn make_dir(&mut self, path: Path) -> Answer {
        if self.nodes.contains_key(&path) {
            return taken();
        }
        let inode = self.number();
        self.nodes.insert(
            path,
            Node::Dir {
                mode: 0o755,
                mtime: 0,
                inode,
            },
        );
        Answer::Done
    }

    fn write(&mut self, path: &str, bytes: &[u8]) {
        let number = self.number();
        self.nodes.insert(at(path), Node::File(number));
        let contents = Contents {
            bytes: bytes.to_vec(),
            ..Contents::default()
        };
        self.files.insert(number, contents);
    }

    fn read(&self, path: &str) -> Option<&Contents> {
        match self.nodes.get(&at(path)) {
            Some(Node::File(number)) => self.files.get(number),
            _ => None,
        }
    }

    fn name(&self, job: &EntryJob, place: Place) -> Path {
        let mut path = job.place(place).unwrap();
        if let Place::Temporary(k) = place {
            path.push(format!(".temporary-{k}").into_bytes());
        }
        path
    }

    fn link(&mut self, job: &EntryJob, path: Path) -> Answer {
        if self.denied {
            return Answer::Failed(
                Trouble::Unavailable,
                error(std::io::ErrorKind::PermissionDenied),
            );
        }
        if self.nodes.contains_key(&path) {
            return taken();
        }
        let node = if job.info().entry_type == EntryType::Symlink {
            Node::Link(job.target().to_vec())
        } else {
            self.nodes[&job.place(Place::Source).unwrap()].clone()
        };
        self.nodes.insert(path, node);
        Answer::Done
    }

    fn answer(&mut self, job: &EntryJob, ask: Ask) -> Answer {
        self.done.push(format!("{ask:?}"));
        match ask {
            Ask::Announce | Ask::Report | Ask::Fill => unreachable!(),
            Ask::Stat(place) => self.stat(&self.name(job, place)),
            Ask::Exists => Answer::Says(matches!(
                self.nodes.get(&self.name(job, Place::Output)),
                Some(Node::Dir { .. } | Node::File(_))
            )),
            Ask::SamePath => {
                Answer::Says(self.name(job, Place::Output) == self.name(job, Place::Source))
            }
            Ask::CreateDir(place) => {
                let path = self.name(job, place);
                self.make_dir(path)
            }
            Ask::CreateDirAll => {
                let path = self.name(job, Place::Output);
                match self.nodes.get(&path) {
                    Some(Node::Dir { .. }) => Answer::Done,
                    _ => self.make_dir(path),
                }
            }
            Ask::RemoveFile => {
                let path = self.name(job, Place::Output);
                self.nodes.remove(&path);
                Answer::Done
            }
            Ask::CreateNew => {
                let path = self.name(job, Place::Output);
                if self.nodes.contains_key(&path) {
                    return taken();
                }
                let number = self.number();
                self.nodes.insert(path, Node::File(number));
                self.files.insert(number, Contents::default());
                self.open = Some(number);
                Answer::Done
            }
            Ask::SetLen(len) => {
                let contents = self.file();
                contents.bytes.resize(len as usize, 0);
                Answer::Done
            }
            Ask::SetMode(mode) => {
                self.file().mode = mode;
                Answer::Done
            }
            Ask::SetMtime(mtime) => {
                self.file().mtime = mtime;
                Answer::Done
            }
            Ask::Link(place) => {
                let path = self.name(job, place);
                self.link(job, path)
            }
            Ask::Rename(k) => {
                let from = self.name(job, Place::Temporary(k));
                let to = self.name(job, Place::Output);
                let node = self.nodes.remove(&from).unwrap();
                self.nodes.insert(to, node);
                Answer::Done
            }
            Ask::DropTemporary(k) => {
                let path = self.name(job, Place::Temporary(k));
                self.nodes.remove(&path);
                Answer::Done
            }
        }
    }

    fn file(&mut self) -> &mut Contents {
        let number = self.open.unwrap();
        self.files.get_mut(&number).unwrap()
    }

    fn put(&mut self, offset: u64, bytes: &[u8]) {
        let from = offset as usize;
        let contents = self.file();
        if contents.bytes.len() < from + bytes.len() {
            contents.bytes.resize(from + bytes.len(), 0);
        }
        contents.bytes[from..from + bytes.len()].copy_from_slice(bytes);
    }

    fn restore(&mut self, tasks: &DirectoryTasks, ask: RestoreAsk) -> Answer {
        let path = tasks.place().unwrap();
        self.done.push(format!(
            "{ask:?} {}",
            String::from_utf8_lossy(&path.join(&b'/'))
        ));
        match (ask, self.nodes.get_mut(&path)) {
            (RestoreAsk::Stat, _) => self.stat(&path),
            (RestoreAsk::SetMode(new), Some(Node::Dir { mode, .. })) => {
                *mode = new;
                Answer::Done
            }
            (RestoreAsk::SetMtime(new), Some(Node::Dir { mtime, .. })) => {
                *mtime = new;
                Answer::Done
            }
            _ => failed(),
        }
    }
}

/// What was announced and reported.
#[derive(Debug, Default)]
struct Told {
    entries: Vec<(PathBuf, EntryType, u64, bool)>,
    progress: Vec<u64>,
}

fn to_path(bytes: &[u8]) -> PathBuf {
    PathBuf::from(String::from_utf8(bytes.to_vec()).unwrap())
}

fn unpack_on(
    tar: Vec<u8>,
    disk: &mut Disk,
    options: UnpackOptions,
    platform: Platform,
    told: &mut Told,
) -> Result<UnpackSummary, Error> {
    let archive = Archive::new(Cursor::new(tar));
    let mut unpacking = archive.unpack(FileKind::Directory, options, platform)?;
    let mut answer = Answer::Done;
    loop {
        answer = match unpacking.step(answer) {
            Request::End(result) => return result,
            Request::Announce(info) => {
                told.entries
                    .push((to_path(&info.path), info.entry_type, info.size, info.sparse));
                Answer::Done
            }
            Request::Report(progress) => {
                told.progress.push(progress.bytes_read);
                Answer::Done
            }
            Request::Entry(ask) => disk.answer(unpacking.job().unwrap(), ask),
            Request::Write(piece) => {
                disk.put(piece.offset, &piece.bytes);
                Answer::Done
            }
            Request::Restore(ask) => disk.restore(unpacking.tasks().unwrap(), ask),
        };
    }
}

fn unpack(tar: Vec<u8>, disk: &mut Disk, options: UnpackOptions) -> Result<UnpackSummary, Error> {
    unpack_on(tar, disk, options, Platform::Unix, &mut Told::default())
}

fn unpack_one(
    unpacker: &mut EntryUnpacker,
    entry: &mut Entry,
    archive: &mut Archive<Cursor>,
    disk: &mut Disk,
) -> Result<UnpackSummary, Error> {
    let mut job = unpacker.unpack(entry, archive)?;
    loop {
        let answer = match job.ask() {
            Ask::Announce | Ask::Report => Answer::Done,
            Ask::Fill => {
                while let Some(piece) = job.next_piece(entry, archive)? {
                    disk.put(piece.offset, &piece.bytes);
                }
                Answer::Done
            }
            ask => disk.answer(&job, ask),
        };
        if let Some(result) = unpacker.answer(&mut job, entry, answer) {
            return result;
        }
    }
}

fn finish(unpacker: EntryUnpacker, disk: &mut Disk) -> Result<(), Error> {
    let mut tasks = unpacker.finish();
    while let Some(ask) = tasks.ask() {
        let answer = disk.restore(&tasks, ask);
        tasks.answer(answer)?;
    }
    Ok(())
}

fn unpacker(options: UnpackOptions) -> EntryUnpacker {
    EntryUnpacker::new(FileKind::Directory, options, Platform::Unix).unwrap()
}

fn open(tar: Vec<u8>) -> (Archive<Cursor>, Entries) {
    let archive = Archive::new(Cursor::new(tar));
    let entries = archive.entries().unwrap();
    (archive, entries)
}

fn fault(result: Result<UnpackSummary, Error>) -> Fault {
    result.unwrap_err().fault().unwrap()
}

fn archive_of(entries: &[([u8; 512], &[u8])]) -> Vec<u8> {
    let mut tar = Vec::new();
    for (block, data) in entries {
        append_entry(&mut tar, *block, data);
    }
    terminate(&mut tar);
    tar
}

#[test]
fn normalizes_and_strips_safe_paths() {
    assert_eq!(
        secure_relative_path(b"./one/two/file", 2, Platform::Unix).unwrap(),
        Some(at("file"))
    );
    assert_eq!(
        secure_relative_path(b"one", 1, Platform::Unix).unwrap(),
        None
    );
    assert!(secure_relative_path(b"../file", 0, Platform::Unix).is_err());
    assert!(secure_relative_path(b"/file", 0, Platform::Unix).is_err());
}

#[test]
fn progress_reports_thresholds_and_boundaries() {
    let seen = RefCell::new(Vec::new());
    let mut reporter = ProgressReporter::new();
    if let Some(progress) = reporter.update(64 * 1024 - 1) {
        seen.borrow_mut().push(progress.bytes_read);
    }
    assert!(seen.borrow().is_empty());
    if let Some(progress) = reporter.update(64 * 1024) {
        seen.borrow_mut().push(progress.bytes_read);
    }
    seen.borrow_mut()
        .push(reporter.boundary(70 * 1024).bytes_read);
    assert_eq!(*seen.borrow(), [64 * 1024, 70 * 1024]);
}

#[test]
fn reserved_names_follow_platform_rules() {
    assert!(!is_reserved_path(&at("CON.txt"), Platform::Unix));
    assert!(is_reserved_path(&at("CON.txt"), Platform::Windows));
    assert!(!is_reserved_path(&at("ordinary.txt"), Platform::Unix));
    assert!(!is_reserved_path(&at("ordinary.txt"), Platform::Windows));
}

#[test]
fn paths_lead_beneath_the_destination_or_nowhere() {
    let unix = |path: &[u8]| secure_relative_path(path, 0, Platform::Unix);
    assert_eq!(unix(b"a//b/./c/"), Ok(Some(at("a/b/c"))));
    assert_eq!(unix(b""), Ok(None));
    assert_eq!(unix(b"./."), Ok(None));
    assert_eq!(unix(b"a/.."), Err(Fault::PathTraversal));
    assert_eq!(unix(b"/a"), Err(Fault::AbsolutePath));
    assert_eq!(unix(b"..."), Ok(Some(at("..."))));
    assert_eq!(unix(b"C:\\a"), Ok(Some(at("C:\\a"))));
    let windows = |path: &[u8]| secure_relative_path(path, 0, Platform::Windows);
    assert_eq!(windows(b"a\\b/c"), Ok(Some(at("a/b/c"))));
    assert_eq!(windows(b"a\\..\\b"), Err(Fault::PathTraversal));
    assert_eq!(windows(b"C:\\a"), Err(Fault::AbsolutePath));
    assert_eq!(windows(b"c:a"), Err(Fault::PathTraversal));
    assert_eq!(windows(b"\\a"), Err(Fault::PathTraversal));
    for path in [
        &b"\\\\server\\share"[..],
        b"//server/share/a",
        b"\\\\server\\s\\",
        b"\\\\.\\COM1",
        b"//./",
        b"\\\\?\\",
        b"\\\\?\\C:",
        b"\\\\?/a",
    ] {
        assert_eq!(windows(path), Err(Fault::AbsolutePath));
    }
    for path in [
        &b"\\\\server"[..],
        b"\\\\server\\",
        b"\\\\server\\\\share",
        b"\\\\\\server\\share",
        b"//",
        b"\\\\.",
        b"\\\\?/",
    ] {
        assert_eq!(windows(path), Err(Fault::PathTraversal));
    }
}

#[test]
fn windows_reserves_the_names_of_devices() {
    for name in ["con", "Prn.a.b", "AUX. .", "nul", "COM1", "lpt9.txt"] {
        assert!(is_reserved_path(&at(name), Platform::Windows));
    }
    for name in ["CONS", "COM0", "COM10", "LPT", "a.con", "CON a"] {
        assert!(!is_reserved_path(&at(name), Platform::Windows));
    }
    assert!(is_reserved_path(&at("a/nul/b"), Platform::Windows));
}

#[test]
fn some_paths_require_a_directory() {
    for path in ["a/", ".", "a/.", "/"] {
        assert!(path_requires_directory(path.as_bytes(), Platform::Unix));
    }
    for path in ["", "a", "a.", "..a", "a\\"] {
        assert!(!path_requires_directory(path.as_bytes(), Platform::Unix));
    }
    assert!(path_requires_directory(b"a\\", Platform::Windows));
}

#[test]
fn prepare_output_respects_overwrite() {
    let tar = archive_of(&[(header("file", 3, b'0'), b"new")]);
    let mut disk = Disk::new();
    disk.write("file", b"old");
    let mut options = UnpackOptions::default();
    options.overwrite = false;
    let summary = unpack(tar.clone(), &mut disk, options).unwrap();
    assert_eq!(summary.files, 0);
    assert_eq!(summary.skipped[0].reason, SkipReason::Exists);
    assert_eq!(disk.read("file").unwrap().bytes, b"old");
    let summary = unpack(tar, &mut disk, UnpackOptions::default()).unwrap();
    assert_eq!(summary.files, 1);
    assert_eq!(disk.read("file").unwrap().bytes, b"new");
}

#[test]
fn rejects_symlinked_parent() {
    let tar = archive_of(&[(header("link/file", 0, b'0'), b"")]);
    let mut disk = Disk::new();
    disk.nodes.insert(at("link"), Node::Link(b"/".to_vec()));
    assert_eq!(
        fault(unpack(tar, &mut disk, UnpackOptions::default())),
        Fault::WriteThroughSymlink
    );
    assert_eq!(disk.nodes.len(), 1);
}

#[test]
fn securely_unpacks_selected_entries() {
    let (mut archive, mut entries) = open(archive_of(&[
        (header("root/whiteout", 3, b'0'), b"old"),
        (header("root/tool", 5, b'0'), b"hello"),
    ]));
    let mut disk = Disk::new();

    let skipped = entries.next(&mut archive).unwrap().unwrap();
    assert_eq!(skipped.path().unwrap(), b"root/whiteout");

    let mut tool = entries.next(&mut archive).unwrap().unwrap();
    let mut options = UnpackOptions::default();
    options.strip_components = 1;
    let mut unpacker = unpacker(options);
    let summary = unpack_one(&mut unpacker, &mut tool, &mut archive, &mut disk).unwrap();
    finish(unpacker, &mut disk).unwrap();
    assert_eq!(summary.files, 1);
    assert_eq!(disk.read("tool").unwrap().bytes, b"hello");
    assert!(disk.read("whiteout").is_none());
}

#[test]
fn entry_unpack_handles_sparse_data_and_rejects_traversal() {
    let mut sparse = Vec::new();
    let (pax, pax_block) = pax_header(&[
        ("GNU.sparse.major", "0"),
        ("GNU.sparse.minor", "1"),
        ("GNU.sparse.size", "12"),
        ("GNU.sparse.map", "1,2,9,1"),
    ]);
    append_entry(&mut sparse, pax_block, &pax);
    append_entry(&mut sparse, header("root/sparse", 3, b'0'), b"abc");
    terminate(&mut sparse);

    let mut disk = Disk::new();
    let (mut archive, mut entries) = open(sparse);
    let mut entry = entries.next(&mut archive).unwrap().unwrap();
    let mut one = unpacker(UnpackOptions::default());
    let summary = unpack_one(&mut one, &mut entry, &mut archive, &mut disk).unwrap();
    finish(one, &mut disk).unwrap();
    assert_eq!(summary.files, 1);
    assert_eq!(summary.sparse_files, 1);
    assert_eq!(
        disk.read("root/sparse").unwrap().bytes,
        b"\0ab\0\0\0\0\0\0c\0\0"
    );

    let mut traversal = Vec::new();
    append_entry(&mut traversal, header("../outside", 1, b'0'), b"x");
    terminate(&mut traversal);
    let (mut archive, mut entries) = open(traversal);
    let mut entry = entries.next(&mut archive).unwrap().unwrap();
    let mut two = unpacker(UnpackOptions::default());
    assert!(unpack_one(&mut two, &mut entry, &mut archive, &mut disk).is_err());
}

#[test]
fn entry_unpack_rejects_symlinked_parent() {
    let mut disk = Disk::new();
    disk.nodes
        .insert(at("link"), Node::Link(b"/outside".to_vec()));
    let (mut archive, mut entries) = open(archive_of(&[(header("link/escape", 1, b'0'), b"x")]));
    let mut entry = entries.next(&mut archive).unwrap().unwrap();
    let mut unpacker = unpacker(UnpackOptions::default());
    assert!(unpack_one(&mut unpacker, &mut entry, &mut archive, &mut disk).is_err());
    assert!(disk.read("link/escape").is_none());
}

#[test]
fn entry_unpacker_defers_directory_metadata_until_finish() {
    let (mut archive, mut entries) = open(archive_of(&[
        (header("dir/", 0, b'5'), b""),
        (header("dir/file", 1, b'0'), b"x"),
    ]));
    let mut disk = Disk::new();
    let mut unpacker = unpacker(UnpackOptions::default());
    for _ in 0..2 {
        let mut entry = entries.next(&mut archive).unwrap().unwrap();
        unpack_one(&mut unpacker, &mut entry, &mut archive, &mut disk).unwrap();
    }
    assert!(matches!(
        disk.nodes[&at("dir")],
        Node::Dir { mtime: 0, .. }
    ));
    finish(unpacker, &mut disk).unwrap();
    assert!(matches!(
        disk.nodes[&at("dir")],
        Node::Dir {
            mtime: 1_700_000_000,
            mode: 0o644,
            ..
        }
    ));
}

#[test]
fn secure_unpack_strips_after_sparse_name_resolution() {
    let mut tar = Vec::new();
    let (pax, pax_block) = pax_header(&[
        ("GNU.sparse.major", "1"),
        ("GNU.sparse.minor", "0"),
        ("GNU.sparse.name", "one/two/file"),
        ("GNU.sparse.realsize", "4"),
    ]);
    append_entry(&mut tar, pax_block, &pax);
    let mut physical = b"0\n".to_vec();
    physical.resize(512, 0);
    append_entry(&mut tar, header("mangled", 512, b'0'), &physical);
    terminate(&mut tar);
    let mut disk = Disk::new();
    let mut options = UnpackOptions::default();
    options.strip_components = 2;
    let summary = unpack(tar, &mut disk, options).unwrap();
    assert_eq!(summary.sparse_files, 1);
    assert_eq!(disk.read("file").unwrap().bytes.len(), 4);
}

#[test]
fn unpack_reports_callbacks_and_complete_summary() {
    let mut tar = Vec::new();
    append_entry(&mut tar, header("root/dir/", 0, b'5'), b"");
    let dense = vec![b'x'; 70 * 1024];
    append_entry(
        &mut tar,
        header("root/dir/dense", dense.len() as u64, b'0'),
        &dense,
    );

    let (pax, pax_block) = pax_header(&[
        ("GNU.sparse.major", "0"),
        ("GNU.sparse.minor", "1"),
        ("GNU.sparse.size", "12"),
        ("GNU.sparse.map", "1,2,9,1"),
    ]);
    append_entry(&mut tar, pax_block, &pax);
    append_entry(&mut tar, header("root/sparse", 3, b'0'), b"abc");
    append_entry(&mut tar, link_header("root/link", "dir/dense", b'2'), b"");
    append_entry(
        &mut tar,
        link_header("root/hard", "root/dir/dense", b'1'),
        b"",
    );
    append_entry(&mut tar, header("root/device", 0, b'3'), b"");
    append_entry(&mut tar, header("stripped", 0, b'0'), b"");
    terminate(&mut tar);
    let archive_len = tar.len() as u64;

    let mut told = Told::default();
    let mut options = UnpackOptions::default();
    options.strip_components = 1;
    let mut disk = Disk::new();
    let summary = unpack_on(tar, &mut disk, options, Platform::Unix, &mut told).unwrap();

    assert_eq!(summary.files, 2);
    assert_eq!(summary.dirs, 1);
    assert_eq!(summary.symlinks, 1);
    assert_eq!(summary.hardlinks, 1);
    assert_eq!(summary.sparse_files, 1);
    assert_eq!(
        summary
            .skipped
            .iter()
            .map(|entry| (to_path(&entry.path), entry.reason))
            .collect::<Vec<_>>(),
        [
            (PathBuf::from("root/device"), SkipReason::UnsupportedType),
            (PathBuf::from("stripped"), SkipReason::Stripped),
        ]
    );

    let entries = told.entries;
    assert_eq!(entries.len(), 7);
    assert_eq!(
        entries[0],
        (PathBuf::from("root/dir"), EntryType::Directory, 0, false)
    );
    assert_eq!(entries[1].0, PathBuf::from("root/dir/dense"));
    assert_eq!(entries[1].2, dense.len() as u64);
    assert_eq!(
        entries[2],
        (PathBuf::from("root/sparse"), EntryType::File, 12, true)
    );
    assert_eq!(entries[6].0, PathBuf::from("stripped"));

    let progress = told.progress;
    assert!(!progress.is_empty());
    assert!(progress.windows(2).all(|pair| pair[0] <= pair[1]));
    assert_eq!(progress.last(), Some(&archive_len));
    assert!(progress.iter().any(|bytes| *bytes >= 64 * 1024));

    assert_eq!(disk.read("dir/dense").unwrap().bytes, dense);
    assert_eq!(disk.read("hard").unwrap().bytes, dense);
    assert_eq!(disk.read("sparse").unwrap().bytes, b"\0ab\0\0\0\0\0\0c\0\0");
    assert_eq!(disk.nodes[&at("link")], Node::Link(b"dir/dense".to_vec()));
}

#[test]
fn rejects_traversal_checksum_and_symlink_escape() {
    let mut traversal = Vec::new();
    append_entry(&mut traversal, header("../outside", 1, b'0'), b"x");
    terminate(&mut traversal);
    let mut disk = Disk::new();
    assert!(unpack(traversal, &mut disk, UnpackOptions::default()).is_err());

    let mut corrupt = header("file", 0, b'0').to_vec();
    corrupt[0] ^= 1;
    corrupt.resize(1536, 0);
    let (mut archive, mut entries) = open(corrupt);
    assert!(entries.next(&mut archive).unwrap().is_err());

    let mut links = Vec::new();
    let mut symlink = header("link", 0, b'2');
    symlink[157..160].copy_from_slice(b"../");
    finish_header(&mut symlink);
    append_entry(&mut links, symlink, b"");
    append_entry(&mut links, header("link/pwn", 1, b'0'), b"x");
    terminate(&mut links);
    assert!(unpack(links, &mut disk, UnpackOptions::default()).is_err());
}

#[test]
fn rejects_absolute_oversized_truncated_and_invalid_sparse_inputs() {
    let mut disk = Disk::new();

    let mut absolute = Vec::new();
    append_entry(&mut absolute, header("/outside", 1, b'0'), b"x");
    terminate(&mut absolute);
    assert!(unpack(absolute, &mut disk, UnpackOptions::default()).is_err());

    let mut oversized_metadata = header("PaxHeaders/huge", 1024 * 1024 + 1, b'x').to_vec();
    oversized_metadata.resize(1536, 0);
    let (mut archive, mut entries) = open(oversized_metadata);
    assert!(entries.next(&mut archive).unwrap().is_err());

    let mut invalid_sparse = Vec::new();
    let (pax, pax_block) = pax_header(&[("GNU.sparse.size", "5"), ("GNU.sparse.map", "4,2")]);
    append_entry(&mut invalid_sparse, pax_block, &pax);
    append_entry(&mut invalid_sparse, header("sparse", 2, b'0'), b"xx");
    terminate(&mut invalid_sparse);
    let (mut archive, mut entries) = open(invalid_sparse);
    assert!(entries.next(&mut archive).unwrap().is_err());

    let mut orphaned_sparse_name = Vec::new();
    let (pax, pax_block) = pax_header(&[("GNU.sparse.name", "alias")]);
    append_entry(&mut orphaned_sparse_name, pax_block, &pax);
    append_entry(&mut orphaned_sparse_name, header("real", 0, b'0'), b"");
    terminate(&mut orphaned_sparse_name);
    let (mut archive, mut entries) = open(orphaned_sparse_name);
    assert!(entries.next(&mut archive).unwrap().is_err());

    let mut truncated = header("file", 5, b'0').to_vec();
    truncated.extend_from_slice(b"hi");
    let (mut archive, mut entries) = open(truncated);
    let mut entry = entries.next(&mut archive).unwrap().unwrap();
    let mut buf = [0_u8; 32];
    assert_eq!(entry.read(&mut archive, &mut buf).unwrap(), 2);
    assert!(entry.read(&mut archive, &mut buf).is_err());
}

#[test]
fn an_entry_is_extracted_once() {
    let (mut archive, mut entries) = open(archive_of(&[
        (header("one", 1, b'0'), b"x"),
        (header("two", 0, b'0'), b""),
        (header("three", 0, b'0'), b""),
    ]));
    let mut disk = Disk::new();
    let mut unpacker = unpacker(UnpackOptions::default());
    let mut one = entries.next(&mut archive).unwrap().unwrap();
    let mut buf = [0_u8; 1];
    one.read(&mut archive, &mut buf).unwrap();
    let result = unpack_one(&mut unpacker, &mut one, &mut archive, &mut disk);
    assert_eq!(fault(result), Fault::EntryConsumed);
    let mut two = entries.next(&mut archive).unwrap().unwrap();
    unpack_one(&mut unpacker, &mut two, &mut archive, &mut disk).unwrap();
    let result = unpack_one(&mut unpacker, &mut two, &mut archive, &mut disk);
    assert_eq!(fault(result), Fault::EntryConsumed);
    entries.next(&mut archive).unwrap().unwrap();
    let result = unpack_one(&mut unpacker, &mut one, &mut archive, &mut disk);
    assert_eq!(fault(result), Fault::StaleEntry);
}

#[test]
fn an_entry_left_behind_is_not_extracted() {
    let mut bad = Vec::new();
    append_entry(&mut bad, header("one", 1, b'0'), b"x");
    bad.extend_from_slice(&[1; 512]);
    for tar in [archive_of(&[(header("one", 1, b'0'), b"x")]), bad] {
        let (mut archive, mut entries) = open(tar);
        let mut disk = Disk::new();
        let mut unpacker = unpacker(UnpackOptions::default());
        let mut one = entries.next(&mut archive).unwrap().unwrap();
        assert!(!matches!(entries.next(&mut archive), Some(Ok(_))));
        let result = unpack_one(&mut unpacker, &mut one, &mut archive, &mut disk);
        assert_eq!(fault(result), Fault::StaleEntry);
    }

    let mut short = Vec::new();
    append_entry(&mut short, header("one", 3, b'0'), b"abc");
    short.truncate(513);
    let (mut archive, mut entries) = open(short);
    let mut disk = Disk::new();
    let mut unpacker = unpacker(UnpackOptions::default());
    let mut one = entries.next(&mut archive).unwrap().unwrap();
    assert!(entries.next(&mut archive).unwrap().is_err());
    let result = unpack_one(&mut unpacker, &mut one, &mut archive, &mut disk);
    assert_eq!(fault(result), Fault::TruncatedEntryData);
}

#[test]
fn a_destination_is_a_directory_and_no_symlink() {
    let result = EntryUnpacker::new(
        FileKind::Symlink,
        UnpackOptions::default(),
        Platform::Unix,
    );
    assert_eq!(
        result.err().unwrap().fault(),
        Some(Fault::DestinationIsSymlink)
    );
    for kind in [FileKind::File, FileKind::Other] {
        let result = EntryUnpacker::new(kind, UnpackOptions::default(), Platform::Unix);
        assert_eq!(
            result.err().unwrap().fault(),
            Some(Fault::DestinationNotADirectory)
        );
        let (archive, _) = open(Vec::new());
        let result = archive.unpack(kind, UnpackOptions::default(), Platform::Unix);
        assert_eq!(
            result.err().unwrap().fault(),
            Some(Fault::DestinationNotADirectory)
        );
    }
}

#[test]
fn only_directories_have_directory_paths() {
    let mut disk = Disk::new();
    let file = archive_of(&[(header("file/", 0, b'0'), b"")]);
    let options = UnpackOptions::default();
    assert_eq!(
        fault(unpack(file, &mut disk, options)),
        Fault::DirectorySuffix
    );
    let link = archive_of(&[(link_header("hard", "dir/.", b'1'), b"")]);
    assert_eq!(
        fault(unpack(link, &mut disk, options)),
        Fault::HardlinkNeedsDirectory
    );
    assert!(disk.done.is_empty());
}

#[test]
fn refused_paths_touch_nothing() {
    let mut disk = Disk::new();
    let options = UnpackOptions::default();
    for path in ["/a", "a/../b"] {
        let tar = archive_of(&[(header(path, 0, b'0'), b"")]);
        assert!(unpack(tar, &mut disk, options).is_err());
    }
    let tar = archive_of(&[(header("nul.txt", 0, b'0'), b"")]);
    let mut told = Told::default();
    let summary = unpack_on(tar, &mut disk, options, Platform::Windows, &mut told).unwrap();
    assert_eq!(summary.skipped[0].reason, SkipReason::ReservedName);
    assert!(disk.done.is_empty());
}

#[test]
fn parents_are_made_and_have_to_be_directories() {
    let mut disk = Disk::new();
    let options = UnpackOptions::default();
    let tar = archive_of(&[(header("a/b/c", 1, b'0'), b"x")]);
    unpack(tar, &mut disk, options).unwrap();
    assert!(matches!(disk.nodes[&at("a/b")], Node::Dir { .. }));
    assert_eq!(disk.read("a/b/c").unwrap().bytes, b"x");
    let tar = archive_of(&[(header("a/b/c/d", 0, b'0'), b"")]);
    assert_eq!(
        fault(unpack(tar, &mut disk, options)),
        Fault::ParentNotADirectory
    );
    let tar = archive_of(&[(header("a/b", 0, b'0'), b"")]);
    assert_eq!(
        fault(unpack(tar, &mut disk, options)),
        Fault::FileOverDirectory
    );
}

#[test]
fn directories_do_not_replace_symlinks() {
    let mut disk = Disk::new();
    disk.write("dir", b"");
    let options = UnpackOptions::default();
    let tar = archive_of(&[(header("dir/", 0, b'5'), b"")]);
    assert!(unpack(tar, &mut disk, options).is_err());
    let (mut archive, mut entries) = open(archive_of(&[(header("dir/", 0, b'5'), b"")]));
    let mut entry = entries.next(&mut archive).unwrap().unwrap();
    let mut unpacker = unpacker(options);
    let mut job = unpacker.unpack(&entry, &archive).unwrap();
    let id = FileId {
        device: 1,
        inode: 1,
    };
    for answer in [
        Answer::Done,
        Answer::Done,
        Answer::Says(true),
    ] {
        assert!(unpacker.answer(&mut job, &mut entry, answer).is_none());
    }
    let result = unpacker.answer(&mut job, &mut entry, Answer::Found(FileKind::Symlink, id));
    assert_eq!(fault(result.unwrap()), Fault::DirectoryIsSymlink);
}

#[test]
fn what_was_made_has_to_be_a_directory() {
    let (mut archive, mut entries) = open(archive_of(&[(header("dir/", 0, b'5'), b"")]));
    let mut entry = entries.next(&mut archive).unwrap().unwrap();
    let mut unpacker = unpacker(UnpackOptions::default());
    let mut job = unpacker.unpack(&entry, &archive).unwrap();
    for answer in [
        Answer::Done,
        Answer::Done,
        Answer::Says(false),
        Answer::Done,
    ] {
        assert!(unpacker.answer(&mut job, &mut entry, answer).is_none());
    }
    let id = FileId {
        device: 1,
        inode: 1,
    };
    let result = unpacker.answer(&mut job, &mut entry, Answer::Found(FileKind::File, id));
    assert_eq!(fault(result.unwrap()), Fault::NotADirectory);
    assert!(unpacker.finish().ask().is_none());
}

#[test]
fn answers_have_to_fit() {
    let (mut archive, mut entries) = open(archive_of(&[(header("file", 0, b'0'), b"")]));
    let mut entry = entries.next(&mut archive).unwrap().unwrap();
    let mut unpacker = unpacker(UnpackOptions::default());
    let mut job = unpacker.unpack(&entry, &archive).unwrap();
    assert!(unpacker.answer(&mut job, &mut entry, Answer::Done).is_none());
    assert!(unpacker.answer(&mut job, &mut entry, Answer::Done).is_none());
    let result = unpacker.answer(&mut job, &mut entry, Answer::Done);
    assert_eq!(fault(result.unwrap()), Fault::UnexpectedAnswer);
    let result = unpacker.answer(&mut job, &mut entry, failed());
    assert!(matches!(result, Some(Err(Error::Io(_)))));
}

#[test]
fn hard_links_lead_to_checked_files() {
    let mut disk = Disk::new();
    disk.write("file", b"x");
    disk.make_dir(at("dir"));
    disk.nodes.insert(at("link"), Node::Link(b"dir".to_vec()));
    let options = UnpackOptions::default();
    let mut hard = |name: &str, target: &str| {
        unpack(
            archive_of(&[(link_header(name, target, b'1'), b"")]),
            &mut disk,
            options,
        )
    };
    assert_eq!(fault(hard("a", "")), Fault::HardlinkLacksTarget);
    assert_eq!(fault(hard("a", "../file")), Fault::PathTraversal);
    assert_eq!(fault(hard("a", "dir")), Fault::HardlinkNotAFile);
    assert_eq!(fault(hard("a", "link/file")), Fault::UnsafeHardlinkParent);
    assert_eq!(fault(hard("file", "file")), Fault::HardlinkToItself);
    assert!(matches!(hard("a", "gone"), Err(Error::Io(_))));
    assert!(matches!(hard("a", "gone/file"), Err(Error::Io(_))));
    assert_eq!(hard("b/c", "file").unwrap().hardlinks, 1);
    assert_eq!(disk.read("b/c").unwrap().bytes, b"x");
    assert_eq!(disk.nodes[&at("b/c")], disk.nodes[&at("file")]);
    let mut options = options;
    options.strip_components = 1;
    let tar = archive_of(&[(link_header("a/b", "file", b'1'), b"")]);
    assert_eq!(
        fault(unpack(tar, &mut disk, options)),
        Fault::HardlinkTargetStripped
    );
}

#[test]
fn links_replace_what_stands_there_through_a_temporary_name() {
    let mut disk = Disk::new();
    disk.write("link", b"old");
    disk.write(".temporary-0", b"in the way");
    disk.make_dir(at("dir"));
    let options = UnpackOptions::default();
    let tar = archive_of(&[(link_header("link", "target", b'2'), b"")]);
    let summary = unpack(tar.clone(), &mut disk, options).unwrap();
    assert_eq!(summary.symlinks, 1);
    assert_eq!(disk.nodes[&at("link")], Node::Link(b"target".to_vec()));
    assert!(!disk.nodes.contains_key(&at(".temporary-1")));
    assert_eq!(disk.read(".temporary-0").unwrap().bytes, b"in the way");

    let mut keep = options;
    keep.overwrite = false;
    let summary = unpack(tar.clone(), &mut disk, keep).unwrap();
    assert_eq!(summary.skipped[0].reason, SkipReason::Exists);

    let over = archive_of(&[(link_header("dir", "target", b'2'), b"")]);
    assert_eq!(
        fault(unpack(over, &mut disk, options)),
        Fault::FileOverDirectory
    );
    let none = archive_of(&[(header("other", 0, b'2'), b"")]);
    assert_eq!(
        fault(unpack(none, &mut disk, options)),
        Fault::SymlinkLacksTarget
    );

    for k in 0..128 {
        disk.write(&format!(".temporary-{k}"), b"in the way");
    }
    assert_eq!(
        fault(unpack(tar, &mut disk, options)),
        Fault::NoTemporaryName
    );
}

#[test]
fn links_may_be_unavailable() {
    let mut disk = Disk::new();
    disk.denied = true;
    let options = UnpackOptions::default();
    let tar = archive_of(&[(link_header("link", "target", b'2'), b"")]);
    assert!(matches!(
        unpack(tar.clone(), &mut disk, options),
        Err(Error::Io(_))
    ));
    let mut told = Told::default();
    let summary = unpack_on(tar, &mut disk, options, Platform::Windows, &mut told).unwrap();
    assert_eq!(summary.skipped[0].reason, SkipReason::SymlinkUnavailable);
    assert_eq!(told.progress.len(), 3);
}

#[test]
fn unfit_times_and_lengths_are_refused() {
    let mut disk = Disk::new();
    let mut options = UnpackOptions::default();
    let early = |kind| {
        let mut tar = Vec::new();
        let (pax, pax_block) = pax_header(&[("mtime", "-9223372036854775808")]);
        append_entry(&mut tar, pax_block, &pax);
        append_entry(&mut tar, header("early", 0, kind), b"");
        terminate(&mut tar);
        tar
    };
    assert_eq!(
        fault(unpack(early(b'0'), &mut disk, options)),
        Fault::MtimeTooSmall
    );
    assert_eq!(
        fault(unpack(early(b'5'), &mut disk, options)),
        Fault::MtimeTooSmall
    );
    let mut tar = Vec::new();
    let (pax, pax_block) = pax_header(&[
        ("GNU.sparse.size", "9223372036854775808"),
        ("GNU.sparse.map", "0,1"),
    ]);
    append_entry(&mut tar, pax_block, &pax);
    append_entry(&mut tar, header("early", 1, b'0'), b"x");
    terminate(&mut tar);
    assert_eq!(
        fault(unpack(tar.clone(), &mut disk, options)),
        Fault::SparseTooLong
    );
    disk.write("early", b"old");
    options.overwrite = false;
    for tar in [early(b'0'), tar] {
        let summary = unpack(tar, &mut disk, options).unwrap();
        assert_eq!(summary.skipped[0].reason, SkipReason::Exists);
    }
    options.overwrite = true;
    options.preserve_mtime = false;
    unpack(early(b'0'), &mut disk, options).unwrap();
    assert_eq!(disk.read("early").unwrap().mtime, 0);
    assert_eq!(disk.read("early").unwrap().mode, 0o644);
}

#[test]
fn directories_are_restored_deepest_first_and_once() {
    let mut disk = Disk::new();
    let mut second = header("b/", 0, b'5');
    octal(&mut second[100..108], 0o7_700);
    finish_header(&mut second);
    let tar = archive_of(&[
        (header("b/", 0, b'5'), b""),
        (header("a/", 0, b'5'), b""),
        (header("a/y/", 0, b'5'), b""),
        (header("a/x/", 0, b'5'), b""),
        (second, b""),
    ]);
    unpack(tar.clone(), &mut disk, UnpackOptions::default()).unwrap();
    let restored: Vec<&String> = disk
        .done
        .iter()
        .filter(|line| line.starts_with("SetMode"))
        .collect();
    assert_eq!(
        restored,
        [
            "SetMode(420) a/x",
            "SetMode(420) a/y",
            "SetMode(420) a",
            "SetMode(4032) b"
        ]
    );
    let mut told = Told::default();
    let mut disk = Disk::new();
    let options = UnpackOptions::default();
    unpack_on(tar, &mut disk, options, Platform::Windows, &mut told).unwrap();
    assert!(!disk.done.iter().any(|line| line.starts_with("SetMode")));
    assert!(disk.done.iter().any(|line| line == "SetMtime(1700000000) b"));
}

#[test]
fn metadata_goes_to_the_directory_that_was_extracted() {
    let (mut archive, mut entries) = open(archive_of(&[(header("dir/", 0, b'5'), b"")]));
    let mut entry = entries.next(&mut archive).unwrap().unwrap();
    let mut disk = Disk::new();
    let mut unpacker = unpacker(UnpackOptions::default());
    unpack_one(&mut unpacker, &mut entry, &mut archive, &mut disk).unwrap();
    disk.nodes.remove(&at("dir"));
    disk.make_dir(at("dir"));
    let error = finish(unpacker, &mut disk).unwrap_err();
    assert_eq!(error.fault(), Some(Fault::DirectoryChanged));
}

#[test]
fn sparse_data_may_run_out() {
    let mut tar = Vec::new();
    let (pax, pax_block) = pax_header(&[("GNU.sparse.size", "12"), ("GNU.sparse.map", "1,3")]);
    append_entry(&mut tar, pax_block, &pax);
    append_entry(&mut tar, header("sparse", 3, b'0'), b"abc");
    terminate(&mut tar);
    let (mut archive, mut entries) = open(tar);
    let mut entry = entries.next(&mut archive).unwrap().unwrap();
    let unpacker = unpacker(UnpackOptions::default());
    let mut job = unpacker.unpack(&entry, &archive).unwrap();
    let mut buf = [0_u8; 12];
    while entry.read(&mut archive, &mut buf).unwrap() != 0 {}
    let error = job.next_piece(&mut entry, &mut archive).unwrap_err();
    assert_eq!(error.fault(), Some(Fault::TruncatedSparseData));
}
