# jdx-tar

A secure, synchronous, streaming tar reader, writer and extractor, with its
logic verified by [Verus](https://github.com/verus-lang/verus).

- Reads ustar, GNU and PAX archives from any input that delivers bytes in order,
  and all four GNU sparse representations: old GNU (type `S`, with extension
  blocks) and PAX 0.0, 0.1 and 1.0. An entry reads as its logical contents, with
  zeroes for the holes.
- Writes deterministic GNU archives, with long-name and long-link records.
- Extracts beneath a destination and nowhere else. There is no insecure mode:
  absolute paths, parent-directory traversal, writes through symbolic links,
  damaged headers, oversized metadata and inconsistent sparse maps are refused.

## What is proved

| Statement | Where |
| --- | --- |
| What a byte stream holds, and that every entry is what comes next in it | `member`, `archive` |
| What comes next is decided by the bytes up to one place, neither fewer nor more | `streaming` |
| Iterations yield the members of an archive, however much of each is read | `iteration` |
| The PAX records of an entry follow from all headers before it | `records` |
| What a sequence of calls writes, and that it is read back in the same order | `calls`, `roundtrip` |
| Damaged headers, oversized metadata and unsound sparse maps are refused | `strictness`, `sparse` |
| Accepted paths stay beneath the destination | `path` |
| Nothing is written through a symbolic link or replaced unless allowed, whatever the file system answers | `safety` |
| Everything that an extraction touches lies beneath the destination | `beneath` |
| An entry reads as its logical contents, and an extracted file has them | `contents` |
| The metadata of directories is restored from the bottom up, once for each | `deferred` |
| Every member is announced and in the summary of an extraction | `accounting` |

The contracts speak of an input by its account: what it delivered, how the last
read went and, for bytes in memory, what it is still going to deliver. A sink is
spoken of in the same way.

## Layout

- `src/` is the library. Extraction is a pair of state machines there:
  `EntryUnpacker` for single entries and `Unpacking` for whole archives. Each
  says what is to be asked of the file system next and takes the answer.
- `app/` puts the library on top of `std::io` and `std::fs`: readers and writers,
  paths of the system, callbacks, and the file operations that are asked for.
- `tests/` runs the library, with a file system held in memory.

Two things are trusted: that `core::str::from_utf8` accepts exactly the valid
UTF-8 byte strings, and that `std::io::Error` is a type of which nothing is known.
