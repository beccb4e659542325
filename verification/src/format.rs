//! The archive format as mathematics: what an archive is, which bytes stand
//! for it, and what a buffer of bytes decodes to.
//!
//! Layout, little-endian throughout: the eight signature bytes, the version,
//! the absolute offset of the manifest, the file bytes one after the other,
//! and the manifest: a file count and one record per file, made of the size,
//! the size once more, the absolute offset, the byte length of the name and
//! the name in UTF-8.

use vstd::prelude::*;
use vstd::utf8::*;
use crate::codec::{concat_before, le_u32_at, u32_le};

verus! {

/// Why a buffer was not read as an archive.
#[derive(Debug, Clone, Copy, PartialEq, Eq, Structural)]
pub enum FarError {
    /// The first eight bytes are not the signature.
    InvalidMagic,
    /// The buffer ends inside the header.
    TruncatedInput,
    /// The buffer ends inside the manifest.
    TruncatedManifest,
    /// The name of a record is not UTF-8.
    InvalidUtf8Name,
    /// A file's byte range reaches past the end of the buffer.
    OffsetOutOfRange,
}

/// A manifest record: a file's name, size and offset, without its bytes.
pub ghost struct EntryView {
    pub name: Seq<char>,
    pub size: u32,
    pub offset: u32,
}

/// A file with its bytes.
pub ghost struct FileView {
    pub name: Seq<char>,
    pub size: u32,
    pub data: Seq<u8>,
}

/// An archive: its records in manifest order and, once loaded, its files in
/// the same order.
pub ghost struct ArchiveView {
    pub version: u32,
    pub file_count: u32,
    pub entries: Seq<EntryView>,
    pub files: Seq<FileView>,
}

/// What holds of every archive that this library makes: the count is the
/// number of records, and the files, where any are loaded, stand one beside
/// each record, under the record's name.
pub open spec fn well_formed(a: ArchiveView) -> bool {
    &&& a.file_count == a.entries.len()
    &&& a.files.len() == 0 || a.files.len() == a.entries.len()
    &&& forall|i: int|
        0 <= i < a.files.len() && i < a.entries.len() ==> (#[trigger] a.files[i]).name
            == a.entries[i].name
}

/// The length of the header in bytes.
pub open spec fn header_len() -> int {
    16
}

/// The signature, `FAR!byAZ` in ASCII.
pub open spec fn magic() -> Seq<u8> {
    seq![0x46u8, 0x41u8, 0x52u8, 0x21u8, 0x62u8, 0x79u8, 0x41u8, 0x5au8]
}

/// A file holds as many bytes as its size says.
pub open spec fn file_sized(f: FileView) -> bool {
    f.data.len() == f.size
}

/// The sizes of the first `k` files, added up.
pub open spec fn size_before(files: Seq<FileView>, k: int) -> int
    decreases k,
{
    if k <= 0 {
        0
    } else {
        size_before(files, k - 1) + files[k - 1].size
    }
}

/// The sum of the sizes grows with the number of files counted.
pub proof fn lemma_size_before_grows(files: Seq<FileView>, i: int, j: int)
    requires
        0 <= i <= j,
    ensures
        0 <= size_before(files, i) <= size_before(files, j),
    decreases j,
{
    if i < j {
        lemma_size_before_grows(files, i, j - 1);
    } else if 0 < i {
        lemma_size_before_grows(files, i - 1, i - 1);
    }
}

/// The sizes of all the files, added up.
pub open spec fn total_size(files: Seq<FileView>) -> int {
    size_before(files, files.len() as int)
}

/// The records of a freshly built archive: each offset is the sum of the sizes
/// up to and including the file's own.
pub open spec fn built_entries(files: Seq<FileView>) -> Seq<EntryView> {
    Seq::new(
        files.len(),
        |i: int|
            EntryView {
                name: files[i].name,
                size: files[i].size,
                offset: size_before(files, i + 1) as u32,
            },
    )
}

/// The archive that is built from `files`.
pub open spec fn built(files: Seq<FileView>) -> ArchiveView {
    ArchiveView {
        version: 1,
        file_count: files.len() as u32,
        entries: built_entries(files),
        files: files,
    }
}

/// The records that are written for `files`: each offset is absolute, the
/// header's length plus the sizes of the files before.
pub open spec fn written_entries(files: Seq<FileView>) -> Seq<EntryView> {
    Seq::new(
        files.len(),
        |i: int|
            EntryView {
                name: files[i].name,
                size: files[i].size,
                offset: (header_len() + size_before(files, i)) as u32,
            },
    )
}

/// The bytes of the files, one after the other.
pub open spec fn data_region(files: Seq<FileView>) -> Seq<u8> {
    concat_before(Seq::new(files.len(), |i: int| files[i].data), files.len() as int)
}

/// The bytes of one manifest record.
pub open spec fn record_bytes(e: EntryView) -> Seq<u8> {
    u32_le(e.size) + u32_le(e.size) + u32_le(e.offset) + u32_le(encode_utf8(e.name).len() as u32)
        + encode_utf8(e.name)
}

/// The bytes of a manifest: the count, then the records.
pub open spec fn manifest_bytes(entries: Seq<EntryView>) -> Seq<u8> {
    u32_le(entries.len() as u32) + concat_before(
        Seq::new(entries.len(), |i: int| record_bytes(entries[i])),
        entries.len() as int,
    )
}

/// The name of every record fits its length field.
pub open spec fn names_fit(entries: Seq<EntryView>) -> bool {
    forall|i: int|
        0 <= i < entries.len() ==> encode_utf8((#[trigger] entries[i]).name).len() <= u32::MAX
}

/// What a set of files must meet to be written: count, sizes and names fit
/// their 32-bit fields.
pub open spec fn files_fit(files: Seq<FileView>) -> bool {
    &&& files.len() <= u32::MAX
    &&& header_len() + total_size(files) <= u32::MAX
    &&& forall|i: int|
        0 <= i < files.len() ==> encode_utf8((#[trigger] files[i]).name).len() <= u32::MAX
}

/// An archive that can be written: its files are loaded, one per record, and
/// fit the format.
pub open spec fn writable(a: ArchiveView) -> bool {
    &&& a.entries.len() == a.files.len()
    &&& a.file_count == a.files.len()
    &&& files_fit(a.files)
}

/// The bytes of an archive with the given version and files: header, file
/// bytes, manifest.
pub open spec fn archive_bytes(version: u32, files: Seq<FileView>) -> Seq<u8> {
    magic() + u32_le(version) + u32_le((header_len() + total_size(files)) as u32) + data_region(
        files,
    ) + manifest_bytes(written_entries(files))
}

/// The bytes that a writable archive is written as.
pub open spec fn serialized(a: ArchiveView) -> Seq<u8> {
    archive_bytes(a.version, a.files)
}

/// The record that starts at `pos`, with the position behind it.
pub open spec fn parse_record(buf: Seq<u8>, pos: int) -> Result<(EntryView, int), FarError> {
    if pos + 16 > buf.len() {
        Err(FarError::TruncatedManifest)
    } else {
        let name_len = le_u32_at(buf, pos + 12) as int;
        let name = buf.subrange(pos + 16, pos + 16 + name_len);
        if pos + 16 + name_len > buf.len() {
            Err(FarError::TruncatedManifest)
        } else if !valid_utf8(name) {
            Err(FarError::InvalidUtf8Name)
        } else {
            Ok(
                (
                    EntryView {
                        name: decode_utf8(name),
                        size: le_u32_at(buf, pos),
                        offset: le_u32_at(buf, pos + 8),
                    },
                    pos + 16 + name_len,
                ),
            )
        }
    }
}

/// `head` followed by `tail`, or the error that `tail` is.
pub open spec fn followed_by(head: Seq<EntryView>, tail: Result<Seq<EntryView>, FarError>) -> Result<
    Seq<EntryView>,
    FarError,
> {
    match tail {
        Ok(rest) => Ok(head + rest),
        Err(e) => Err(e),
    }
}

/// The `n` records that start at `pos`, in the order read, or the error of
/// the first record that cannot be read.
pub open spec fn parse_records(buf: Seq<u8>, pos: int, n: nat) -> Result<Seq<EntryView>, FarError>
    decreases n,
{
    if n == 0 {
        Ok(Seq::empty())
    } else {
        match parse_record(buf, pos) {
            Err(e) => Err(e),
            Ok((entry, next)) => followed_by(seq![entry], parse_records(buf, next, (n - 1) as nat)),
        }
    }
}

/// The records of the manifest that the header of `buf` points to.
pub open spec fn manifest(buf: Seq<u8>) -> Result<Seq<EntryView>, FarError> {
    if buf.len() < header_len() {
        Err(FarError::TruncatedInput)
    } else {
        let at = le_u32_at(buf, 12) as int;
        if at + 4 > buf.len() {
            Err(FarError::TruncatedManifest)
        } else {
            parse_records(buf, at + 4, le_u32_at(buf, at) as nat)
        }
    }
}

/// What a buffer decodes to: the version and the records of its manifest, no
/// file loaded, or the first error met.
pub open spec fn decoded(buf: Seq<u8>) -> Result<ArchiveView, FarError> {
    if buf.len() < 8 {
        Err(FarError::TruncatedInput)
    } else if buf.subrange(0, 8) != magic() {
        Err(FarError::InvalidMagic)
    } else if buf.len() < header_len() {
        Err(FarError::TruncatedInput)
    } else {
        match manifest(buf) {
            Err(e) => Err(e),
            Ok(entries) => Ok(
                ArchiveView {
                    version: le_u32_at(buf, 8),
                    file_count: entries.len() as u32,
                    entries: entries,
                    files: Seq::empty(),
                },
            ),
        }
    }
}

/// The byte range of a record lies within `buf`.
pub open spec fn in_range(e: EntryView, buf: Seq<u8>) -> bool {
    e.offset + e.size <= buf.len()
}

/// The file that a record stands for in `buf`.
pub open spec fn file_at(e: EntryView, buf: Seq<u8>) -> FileView {
    FileView { name: e.name, size: e.size, data: buf.subrange(e.offset as int, e.offset + e.size) }
}

/// The file of a record, or the error where its range leaves `buf`.
pub open spec fn sliced(e: EntryView, buf: Seq<u8>) -> Result<FileView, FarError> {
    if in_range(e, buf) {
        Ok(file_at(e, buf))
    } else {
        Err(FarError::OffsetOutOfRange)
    }
}

/// Every record's byte range lies within `buf`.
pub open spec fn all_in_range(entries: Seq<EntryView>, buf: Seq<u8>) -> bool {
    forall|i: int| 0 <= i < entries.len() ==> in_range(#[trigger] entries[i], buf)
}

/// The archive with its files loaded from `buf`, one per record and in the
/// records' order.
pub open spec fn hydrated(a: ArchiveView, buf: Seq<u8>) -> Result<ArchiveView, FarError> {
    if all_in_range(a.entries, buf) {
        Ok(
            ArchiveView {
                version: a.version,
                file_count: a.file_count,
                entries: a.entries,
                files: Seq::new(a.entries.len(), |i: int| file_at(a.entries[i], buf)),
            },
        )
    } else {
        Err(FarError::OffsetOutOfRange)
    }
}

} // verus!
