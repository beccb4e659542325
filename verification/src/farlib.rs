//! Archives in memory: building one from files, reading one from a buffer,
//! loading its files and writing it out.

use vstd::prelude::*;
use vstd::utf8::{decode_utf8, encode_utf8, valid_utf8};
use crate::codec::{
    concat_before, copy_range, le_u32_at, push_all, push_u32_le, read_u32_le, u32_le,
};
use crate::format::{
    built, built_entries, decoded, file_sized, files_fit, followed_by, header_len, hydrated,
    in_range, lemma_size_before_grows, magic, manifest, manifest_bytes, names_fit, parse_record,
    parse_records, record_bytes, serialized, size_before, sliced, total_size, well_formed,
    writable, written_entries, ArchiveView, EntryView, FarError, FileView,
};

verus! {

/// Information about a file without its bytes, as the manifest holds it.
pub struct FarFileInfo {
    pub name: String,
    pub size: u32,
    offset: u32,
}

/// A file with its bytes, whether or not it comes from an archive.
pub struct FarFile {
    pub name: String,
    pub size: u32,
    pub data: Vec<u8>,
}

/// An archive: the records of its manifest and, once loaded, its files.
pub struct FarArchive {
    pub version: u32,
    pub file_count: u32,
    pub file_list: Vec<FarFileInfo>,
    pub file_data: Vec<FarFile>,
}

impl View for FarFileInfo {
    type V = EntryView;

    closed spec fn view(&self) -> EntryView {
        EntryView { name: self.name@, size: self.size, offset: self.offset }
    }
}

impl View for FarFile {
    type V = FileView;

    open spec fn view(&self) -> FileView {
        FileView { name: self.name@, size: self.size, data: self.data@ }
    }
}

impl View for FarArchive {
    type V = ArchiveView;

    open spec fn view(&self) -> ArchiveView {
        ArchiveView {
            version: self.version,
            file_count: self.file_count,
            entries: entry_views(self.file_list@),
            files: file_views(self.file_data@),
        }
    }
}

/// The records that a list of file information stands for.
pub open spec fn entry_views(list: Seq<FarFileInfo>) -> Seq<EntryView> {
    Seq::new(list.len(), |i: int| list[i]@)
}

/// The files that a list of files stands for.
pub open spec fn file_views(list: Seq<FarFile>) -> Seq<FileView> {
    Seq::new(list.len(), |i: int| list[i]@)
}

/// `String::from_utf8` of std: it gives a string exactly when the bytes are
/// well-formed UTF-8, and the string is then the text that they encode.
#[verifier::external_body]
fn string_from_utf8(bytes: Vec<u8>) -> (r: Option<String>)
    ensures
        r is Some <==> valid_utf8(bytes@),
        r matches Some(s) ==> s@ == decode_utf8(bytes@),
{
    String::from_utf8(bytes).ok()
}

/// Whether `buf` starts with the signature.
fn has_magic(buf: &Vec<u8>) -> (b: bool)
    requires
        buf@.len() >= 8,
    ensures
        b == (buf@.subrange(0, 8) == magic()),
{
    let b = buf[0] == 0x46u8 && buf[1] == 0x41u8 && buf[2] == 0x52u8 && buf[3] == 0x21u8 && buf[4]
        == 0x62u8 && buf[5] == 0x79u8 && buf[6] == 0x41u8 && buf[7] == 0x5au8;
    proof {
        let head = buf@.subrange(0, 8);
        if b {
            assert(head =~= magic());
        } else {
            assert(head[0] == buf@[0] && head[1] == buf@[1] && head[2] == buf@[2] && head[3]
                == buf@[3] && head[4] == buf@[4] && head[5] == buf@[5] && head[6] == buf@[6]
                && head[7] == buf@[7]);
        }
    }
    b
}

/// Appends the signature to `out`.
fn push_magic(out: &mut Vec<u8>)
    ensures
        final(out)@ == old(out)@ + magic(),
{
    out.push(0x46u8);
    out.push(0x41u8);
    out.push(0x52u8);
    out.push(0x21u8);
    out.push(0x62u8);
    out.push(0x79u8);
    out.push(0x41u8);
    out.push(0x5au8);
    assert(out@ =~= old(out)@ + magic());
}

impl FarFileInfo {
    /// The name of the file.
    pub fn name(&self) -> (r: &String)
        ensures
            r@ == self@.name,
    {
        &self.name
    }

    /// The size of the file in bytes.
    pub fn size(&self) -> (r: u32)
        ensures
            r == self@.size,
    {
        self.size
    }

    /// The offset of the file: absolute in an archive that was read from a
    /// buffer, the running sum of sizes in one that was built from files.
    pub fn offset(&self) -> (r: u32)
        ensures
            r == self@.offset,
    {
        self.offset
    }
}

impl FarFile {
    /// The file that lies in `original_file` at `offset`, `size` bytes long,
    /// or `OffsetOutOfRange` where that range leaves the buffer.
    pub fn new_from_archive(name: String, size: u32, offset: u32, original_file: &Vec<u8>) -> (r:
        Result<FarFile, FarError>)
        ensures
            match r {
                Ok(f) => sliced(EntryView { name: name@, size, offset }, original_file@) == Ok::<
                    FileView,
                    FarError,
                >(f@),
                Err(e) => sliced(EntryView { name: name@, size, offset }, original_file@) == Err::<
                    FileView,
                    FarError,
                >(e),
            },
            r matches Ok(f) ==> file_sized(f@),
    {
        let end: u64 = offset as u64 + size as u64;
        if end > original_file.len() as u64 {
            return Err(FarError::OffsetOutOfRange);
        }
        let data = copy_range(original_file, offset as usize, end as usize);
        Ok(FarFile { name, size, data })
    }

    /// A file from its name, its size and its bytes, each kept as given.
    pub fn new_from_file(name: String, size: u32, data: Vec<u8>) -> (r: FarFile)
        ensures
            r@ == (FileView { name: name@, size: size, data: data@ }),
            r.name == name,
            r.data == data,
    {
        FarFile { name, size, data }
    }
}

/// Whether `files` can be written as an archive: whether their number, the
/// sum of their sizes behind the header and the byte length of each name fit
/// a 32-bit field.
pub fn files_fit_format(files: &Vec<FarFile>) -> (b: bool)
    ensures
        b == files_fit(file_views(files@)),
{
    let ghost views = file_views(files@);
    let n: usize = files.len();
    if n > u32::MAX as usize {
        return false;
    }
    let mut end: u64 = 16;
    let mut i: usize = 0;
    while i < n
        invariant
            i <= n == files@.len(),
            n <= u32::MAX,
            views == file_views(files@),
            end == header_len() + size_before(views, i as int),
            end <= u32::MAX,
            forall|j: int| 0 <= j < i ==> encode_utf8((#[trigger] views[j]).name).len() <= u32::MAX,
        decreases n - i,
    {
        let file = &files[i];
        assert(views[i as int] == file@);
        proof {
            lemma_size_before_grows(views, i + 1, n as int);
        }
        let name_len: usize = file.name.as_str().as_bytes().len();
        if name_len > u32::MAX as usize {
            return false;
        }
        end = end + file.size as u64;
        if end > u32::MAX as u64 {
            return false;
        }
        i += 1;
    }
    true
}

/// The bytes of the manifest of `entries`: their count, then one record each.
pub fn write_manifest(entries: &Vec<FarFileInfo>) -> (r: Vec<u8>)
    requires
        entries@.len() <= u32::MAX,
        names_fit(entry_views(entries@)),
    ensures
        r@ == manifest_bytes(entry_views(entries@)),
{
    let ghost views = entry_views(entries@);
    let ghost records = Seq::new(views.len(), |i: int| record_bytes(views[i]));
    let n: usize = entries.len();
    let mut out: Vec<u8> = Vec::new();
    push_u32_le(&mut out, n as u32);
    let mut i: usize = 0;
    while i < n
        invariant
            i <= n == entries@.len(),
            n <= u32::MAX,
            views == entry_views(entries@),
            records == Seq::new(views.len(), |i: int| record_bytes(views[i])),
            names_fit(views),
            out@ == u32_le(n as u32) + concat_before(records, i as int),
        decreases n - i,
    {
        let entry = &entries[i];
        let name = entry.name.as_str();
        let name_len: usize = name.len();
        let ghost before = out@;
        assert(views[i as int] == entry@);
        assert(name_len == encode_utf8(entry@.name).len());
        push_u32_le(&mut out, entry.size);
        push_u32_le(&mut out, entry.size);
        push_u32_le(&mut out, entry.offset);
        push_u32_le(&mut out, name_len as u32);
        push_all(&mut out, name.as_bytes());
        i += 1;
        assert(out@ =~= before + record_bytes(views[i - 1]));
        assert(out@ =~= u32_le(n as u32) + concat_before(records, i as int));
    }
    out
}

/// The records of the manifest that the header of `file` points to, in the
/// order read. The second size field of a record is read and not used.
pub fn list_files(file: &Vec<u8>) -> (r: Result<Vec<FarFileInfo>, FarError>)
    ensures
        match r {
            Ok(list) => manifest(file@) == Ok::<Seq<EntryView>, FarError>(entry_views(list@)),
            Err(e) => manifest(file@) == Err::<Seq<EntryView>, FarError>(e),
        },
        r matches Ok(list) ==> list@.len() == le_u32_at(file@, le_u32_at(file@, 12) as int),
{
    let len: usize = file.len();
    if len < 16 {
        return Err(FarError::TruncatedInput);
    }
    let at: usize = read_u32_le(file, 12) as usize;
    if len - 4 < at {
        return Err(FarError::TruncatedManifest);
    }
    let num_files: u32 = read_u32_le(file, at);
    let mut files: Vec<FarFileInfo> = Vec::new();
    let mut pos: usize = at + 4;
    let mut i: u32 = 0;
    assert(entry_views(files@) + Seq::<EntryView>::empty() =~= Seq::<EntryView>::empty());
    while i < num_files
        invariant
            i <= num_files,
            pos <= len == file@.len(),
            files@.len() == i,
            manifest(file@) == parse_records(file@, at + 4, num_files as nat),
            parse_records(file@, at + 4, num_files as nat) == followed_by(
                entry_views(files@),
                parse_records(file@, pos as int, (num_files - i) as nat),
            ),
        decreases num_files - i,
    {
        let ghost rest = parse_records(file@, pos as int, (num_files - i) as nat);
        let ghost seen = entry_views(files@);
        if len - pos < 16 {
            return Err(FarError::TruncatedManifest);
        }
        let size: u32 = read_u32_le(file, pos);
        let _size_again: u32 = read_u32_le(file, pos + 4);
        let offset: u32 = read_u32_le(file, pos + 8);
        let name_len: usize = read_u32_le(file, pos + 12) as usize;
        if len - (pos + 16) < name_len {
            return Err(FarError::TruncatedManifest);
        }
        let name_bytes = copy_range(file, pos + 16, pos + 16 + name_len);
        match string_from_utf8(name_bytes) {
            None => {
                return Err(FarError::InvalidUtf8Name);
            },
            Some(name) => {
                files.push(FarFileInfo { name, size, offset });
            },
        }
        proof {
            let entry = files@[i as int]@;
            let next = pos + 16 + name_len;
            let tail = parse_records(file@, next, (num_files - i - 1) as nat);
            assert(parse_record(file@, pos as int) == Ok::<(EntryView, int), FarError>(
                (entry, next),
            ));
            assert(rest == followed_by(seq![entry], tail));
            assert(entry_views(files@) =~= seen + seq![entry]);
            match tail {
                Ok(more) => {
                    assert(seen + (seq![entry] + more) =~= entry_views(files@) + more);
                },
                Err(_) => {},
            }
        }
        pos = pos + 16 + name_len;
        i += 1;
    }
    assert(entry_views(files@) + Seq::<EntryView>::empty() =~= entry_views(files@));
    Ok(files)
}

/// Reads `file` as an archive: checks the signature, takes the version as it
/// stands and lists the files of the manifest. No file is loaded yet.
pub fn test(file: &Vec<u8>) -> (r: Result<FarArchive, FarError>)
    ensures
        match r {
            Ok(a) => decoded(file@) == Ok::<ArchiveView, FarError>(a@),
            Err(e) => decoded(file@) == Err::<ArchiveView, FarError>(e),
        },
        file@.len() >= 8 && file@.subrange(0, 8) != magic() ==> r matches Err(
            FarError::InvalidMagic,
        ),
        r matches Ok(a) ==> well_formed(a@),
{
    let len: usize = file.len();
    if len < 8 {
        return Err(FarError::TruncatedInput);
    }
    if !has_magic(file) {
        return Err(FarError::InvalidMagic);
    }
    if len < 16 {
        return Err(FarError::TruncatedInput);
    }
    let version: u32 = read_u32_le(file, 8);
    match list_files(file) {
        Err(e) => Err(e),
        Ok(files) => {
            let count: usize = files.len();
            let archive = FarArchive {
                version,
                file_count: count as u32,
                file_list: files,
                file_data: Vec::new(),
            };
            assert(archive@.files =~= Seq::<FileView>::empty());
            Ok(archive)
        },
    }
}

impl FarArchive {
    /// The archive of `files`, with version 1. Each record's offset is the sum
    /// of the sizes up to and including its own file; sizes are taken as given.
    pub fn new_from_files(files: Vec<FarFile>) -> (r: FarArchive)
        requires
            files@.len() <= u32::MAX,
            total_size(file_views(files@)) <= u32::MAX,
        ensures
            r@ == built(file_views(files@)),
            r.file_data == files,
            well_formed(r@),
    {
        let ghost views = file_views(files@);
        let n: usize = files.len();
        let mut file_list: Vec<FarFileInfo> = Vec::new();
        let mut offset: u32 = 0;
        let mut i: usize = 0;
        while i < n
            invariant
                i <= n == files@.len(),
                views == file_views(files@),
                total_size(views) <= u32::MAX,
                offset == size_before(views, i as int),
                file_list@.len() == i,
                forall|j: int| 0 <= j < i ==> (#[trigger] file_list@[j])@ == built_entries(views)[j],
            decreases n - i,
        {
            proof {
                lemma_size_before_grows(views, i + 1, n as int);
            }
            let file = &files[i];
            assert(views[i as int] == file@);
            offset += file.size;
            file_list.push(FarFileInfo { name: file.name.clone(), size: file.size, offset });
            i += 1;
        }
        let archive = FarArchive {
            version: 1,
            file_count: n as u32,
            file_list,
            file_data: files,
        };
        assert(archive@.entries =~= built_entries(views));
        archive
    }

    /// Loads the files of the archive from `original_file`, one per record and
    /// in the records' order, in place of any that were loaded before. Fails
    /// with `OffsetOutOfRange` where a record's range leaves the buffer.
    pub fn load_file_data(self, original_file: &Vec<u8>) -> (r: Result<FarArchive, FarError>)
        ensures
            match r {
                Ok(a) => hydrated(self@, original_file@) == Ok::<ArchiveView, FarError>(a@),
                Err(e) => hydrated(self@, original_file@) == Err::<ArchiveView, FarError>(e),
            },
            r matches Ok(a) ==> a@.files.len() == a@.entries.len() && (forall|i: int|
                0 <= i < a@.files.len() ==> file_sized(#[trigger] a@.files[i])) && (well_formed(
                self@,
            ) ==> well_formed(a@)),
    {
        let ghost entries = entry_views(self.file_list@);
        let n: usize = self.file_list.len();
        let mut new_file_data: Vec<FarFile> = Vec::new();
        let mut i: usize = 0;
        while i < n
            invariant
                i <= n == self.file_list@.len(),
                entries == entry_views(self.file_list@),
                new_file_data@.len() == i,
                forall|j: int| 0 <= j < i ==> in_range(#[trigger] entries[j], original_file@),
                forall|j: int|
                    0 <= j < i ==> sliced(entries[j], original_file@) == Ok::<FileView, FarError>(
                        (#[trigger] new_file_data@[j])@,
                    ),
            decreases n - i,
        {
            let entry = &self.file_list[i];
            assert(entries[i as int] == entry@);
            match FarFile::new_from_archive(
                entry.name.clone(),
                entry.size,
                entry.offset,
                original_file,
            ) {
                Err(e) => {
                    assert(!in_range(entries[i as int], original_file@));
                    return Err(e);
                },
                Ok(file) => {
                    new_file_data.push(file);
                },
            }
            i += 1;
        }
        let archive = FarArchive {
            version: self.version,
            file_count: self.file_count,
            file_list: self.file_list,
            file_data: new_file_data,
        };
        assert(archive@.files =~= hydrated(self@, original_file@).unwrap().files);
        Ok(archive)
    }

    /// Whether the archive can be written: whether its files are loaded, one
    /// per record and as many as its count says, and fit the format.
    pub fn is_writable(&self) -> (b: bool)
        ensures
            b == writable(self@),
    {
        self.file_list.len() == self.file_data.len() && self.file_count as usize
            == self.file_data.len() && files_fit_format(&self.file_data)
    }

    /// The bytes of the archive: the header, the files' bytes one after the
    /// other, and the manifest, in which each offset is computed anew as the
    /// position of the file's bytes in the output.
    pub fn to_vec(self) -> (r: Vec<u8>)
        requires
            writable(self@),
        ensures
            r@ == serialized(self@),
    {
        let ghost files = self@.files;
        let ghost datas = Seq::new(files.len(), |j: int| files[j].data);
        let mut header: Vec<u8> = Vec::new();
        push_magic(&mut header);
        push_u32_le(&mut header, self.version);
        let mut file_data: Vec<u8> = Vec::new();
        let mut file_list: Vec<FarFileInfo> = Vec::new();
        let mut bytes_written: u32 = 16;
        let n: usize = self.file_data.len();
        let mut i: usize = 0;
        while i < n
            invariant
                i <= n == self.file_data@.len(),
                files == file_views(self.file_data@),
                datas == Seq::new(files.len(), |j: int| files[j].data),
                16 + total_size(files) <= u32::MAX,
                bytes_written == 16 + size_before(files, i as int),
                file_data@ == concat_before(datas, i as int),
                file_list@.len() == i,
                forall|j: int|
                    0 <= j < i ==> (#[trigger] file_list@[j])@ == written_entries(files)[j],
            decreases n - i,
        {
            proof {
                lemma_size_before_grows(files, i + 1, n as int);
            }
            let file = &self.file_data[i];
            assert(files[i as int] == file@);
            push_all(&mut file_data, file.data.as_slice());
            file_list.push(
                FarFileInfo { name: file.name.clone(), size: file.size, offset: bytes_written },
            );
            bytes_written += file.size;
            i += 1;
        }
        assert(entry_views(file_list@) =~= written_entries(files));
        let manifest = write_manifest(&file_list);
        let manifest_offset: u32 = bytes_written;
        push_u32_le(&mut header, manifest_offset);
        let mut output: Vec<u8> = Vec::new();
        push_all(&mut output, header.as_slice());
        push_all(&mut output, file_data.as_slice());
        push_all(&mut output, manifest.as_slice());
        assert(output@ =~= serialized(self@));
        output
    }
}

} // verus!
