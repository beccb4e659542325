//! What holds of the format as a whole: writing and reading are inverse,
//! loading is repeatable, and damaged buffers are told apart by their error.

use vstd::prelude::*;
use vstd::utf8::{encode_utf8, encode_utf8_decode_utf8, encode_utf8_valid_utf8};
use crate::codec::{concat_before, le_u32_at, lemma_le_u32_at_field, lemma_part_at, u32_le};
use crate::format::{
    all_in_range, archive_bytes, built, data_region, decoded, file_at, file_sized, files_fit,
    header_len, hydrated, in_range, lemma_size_before_grows, magic, manifest,
    manifest_bytes, parse_record, parse_records, record_bytes, serialized, size_before,
    total_size, writable, written_entries, ArchiveView, EntryView, FarError, FileView,
};

verus! {

/// Loading the files of an archive that has them loaded already, from the
/// same buffer, gives the same archive again.
pub proof fn lemma_hydrate_idempotent(a: ArchiveView, buf: Seq<u8>)
    requires
        hydrated(a, buf) is Ok,
    ensures
        hydrated(hydrated(a, buf).unwrap(), buf) == hydrated(a, buf),
{
}

/// A buffer of eight bytes or more that does not start with the signature
/// decodes to `InvalidMagic`, whatever follows and however long it is.
pub proof fn lemma_wrong_signature_rejected(buf: Seq<u8>)
    requires
        buf.len() >= 8,
        buf.subrange(0, 8) != magic(),
    ensures
        decoded(buf) == Err::<ArchiveView, FarError>(FarError::InvalidMagic),
{
}

/// A record that lies in `buf` at `pos` as it is written is read back as it
/// was, and the position behind it is the end of its name.
pub proof fn lemma_record_parses(buf: Seq<u8>, pos: int, e: EntryView)
    requires
        0 <= pos,
        pos + record_bytes(e).len() <= buf.len(),
        buf.subrange(pos, pos + record_bytes(e).len()) == record_bytes(e),
        encode_utf8(e.name).len() <= u32::MAX,
    ensures
        record_bytes(e).len() == 16 + encode_utf8(e.name).len(),
        parse_record(buf, pos) == Ok::<(EntryView, int), FarError>(
            (e, pos + record_bytes(e).len()),
        ),
{
    let name = encode_utf8(e.name);
    let rec = record_bytes(e);
    let name_len = name.len() as u32;
    assert(rec.len() == 16 + name.len());
    assert(forall|i: int| 0 <= i < rec.len() ==> buf[pos + i] == #[trigger] rec[i]) by {
        assert forall|i: int| 0 <= i < rec.len() implies buf[pos + i] == #[trigger] rec[i] by {
            assert(buf.subrange(pos, pos + rec.len())[i] == buf[pos + i]);
        }
    }
    assert(buf.subrange(pos, pos + 4) =~= u32_le(e.size)) by {
        assert forall|i: int| 0 <= i < 4 implies buf.subrange(pos, pos + 4)[i] == u32_le(
            e.size,
        )[i] by {
            assert(rec[i] == u32_le(e.size)[i]);
        }
    }
    assert(buf.subrange(pos + 8, pos + 12) =~= u32_le(e.offset)) by {
        assert forall|i: int| 0 <= i < 4 implies buf.subrange(pos + 8, pos + 12)[i] == u32_le(
            e.offset,
        )[i] by {
            assert(rec[8 + i] == u32_le(e.offset)[i]);
        }
    }
    assert(buf.subrange(pos + 12, pos + 16) =~= u32_le(name_len)) by {
        assert forall|i: int| 0 <= i < 4 implies buf.subrange(pos + 12, pos + 16)[i] == u32_le(
            name_len,
        )[i] by {
            assert(rec[12 + i] == u32_le(name_len)[i]);
        }
    }
    assert(buf.subrange(pos + 16, pos + 16 + name.len()) =~= name) by {
        assert forall|i: int| 0 <= i < name.len() implies buf.subrange(
            pos + 16,
            pos + 16 + name.len(),
        )[i] == name[i] by {
            assert(rec[16 + i] == name[i]);
        }
    }
    lemma_le_u32_at_field(buf, pos, e.size);
    lemma_le_u32_at_field(buf, pos + 8, e.offset);
    lemma_le_u32_at_field(buf, pos + 12, name_len);
    encode_utf8_valid_utf8(e.name);
    encode_utf8_decode_utf8(e.name);
}

/// The records of `entries`, each as it is written.
pub open spec fn records_of(entries: Seq<EntryView>) -> Seq<Seq<u8>> {
    Seq::new(entries.len(), |i: int| record_bytes(entries[i]))
}

/// Where `buf` ends with the written records of `entries`, which start at
/// `base`, reading from the start of record `k` gives the records from `k` on.
pub proof fn lemma_records_parse(buf: Seq<u8>, base: int, entries: Seq<EntryView>, k: int)
    requires
        0 <= base,
        0 <= k <= entries.len(),
        buf.len() == base + concat_before(records_of(entries), entries.len() as int).len(),
        buf.subrange(base, buf.len() as int) == concat_before(
            records_of(entries),
            entries.len() as int,
        ),
        forall|i: int|
            0 <= i < entries.len() ==> encode_utf8((#[trigger] entries[i]).name).len() <= u32::MAX,
    ensures
        parse_records(
            buf,
            base + concat_before(records_of(entries), k).len(),
            (entries.len() - k) as nat,
        ) == Ok::<Seq<EntryView>, FarError>(entries.subrange(k, entries.len() as int)),
        records_end(
            buf,
            base + concat_before(records_of(entries), k).len(),
            (entries.len() - k) as nat,
        ) == buf.len(),
    decreases entries.len() - k,
{
    let n = entries.len() as int;
    let recs = records_of(entries);
    let pos = base + concat_before(recs, k).len();
    if k == n {
        assert(entries.subrange(k, n) =~= Seq::<EntryView>::empty());
    } else {
        let e = entries[k];
        let rec = record_bytes(e);
        assert(recs[k] == rec);
        lemma_part_at(recs, k, n);
        assert(buf.subrange(pos, pos + rec.len()) =~= buf.subrange(base, buf.len() as int).subrange(
            pos - base,
            pos - base + rec.len(),
        ));
        lemma_record_parses(buf, pos, e);
        lemma_records_parse(buf, base, entries, k + 1);
        assert(concat_before(recs, k + 1) == concat_before(recs, k) + rec);
        assert(seq![e] + entries.subrange(k + 1, n) =~= entries.subrange(k, n));
    }
}

/// Where every file holds as many bytes as its size says, the bytes of
/// the first `k` files are as many as their sizes add up to.
pub proof fn lemma_data_len(files: Seq<FileView>, k: int)
    requires
        0 <= k <= files.len(),
        forall|i: int| 0 <= i < files.len() ==> file_sized(#[trigger] files[i]),
    ensures
        concat_before(Seq::new(files.len(), |i: int| files[i].data), k).len() == size_before(
            files,
            k,
        ),
    decreases k,
{
    if k > 0 {
        lemma_data_len(files, k - 1);
    }
}

/// The parts of a written archive, each at its place: signature, version
/// and manifest offset in the header, then the file bytes, the count and the
/// records.
pub proof fn lemma_layout(version: u32, files: Seq<FileView>)
    requires
        files_fit(files),
        forall|i: int| 0 <= i < files.len() ==> file_sized(#[trigger] files[i]),
    ensures
        ({
            let buf = archive_bytes(version, files);
            let at = header_len() + total_size(files);
            let records = concat_before(
                records_of(written_entries(files)),
                files.len() as int,
            );
            &&& 0 <= total_size(files)
            &&& buf.len() == at + 4 + records.len()
            &&& buf.subrange(0, 8) == magic()
            &&& buf.subrange(8, 12) == u32_le(version)
            &&& buf.subrange(12, 16) == u32_le(at as u32)
            &&& buf.subrange(16, at) == data_region(files)
            &&& buf.subrange(at, at + 4) == u32_le(files.len() as u32)
            &&& buf.subrange(at + 4, buf.len() as int) == records
        }),
{
    let n = files.len() as int;
    let buf = archive_bytes(version, files);
    let at = header_len() + total_size(files);
    let records = concat_before(records_of(written_entries(files)), n);
    let data = data_region(files);
    let head = magic() + u32_le(version) + u32_le(at as u32);
    let tail = u32_le(n as u32) + records;
    lemma_data_len(files, n);
    lemma_size_before_grows(files, 0, n);
    assert(head.len() == 16);
    assert(data.len() == total_size(files));
    assert(manifest_bytes(written_entries(files)) == tail);
    assert(buf == head + data + tail);
    assert(buf.subrange(0, 8) =~= magic());
    assert(buf.subrange(8, 12) =~= u32_le(version));
    assert(buf.subrange(12, 16) =~= u32_le(at as u32));
    assert(buf.subrange(16, at) =~= data);
    assert(buf.subrange(at, at + 4) =~= u32_le(n as u32));
    assert(buf.subrange(at + 4, buf.len() as int) =~= records);
}

/// In a written archive the bytes of each file lie where its written record
/// says.
pub proof fn lemma_files_in_place(version: u32, files: Seq<FileView>, i: int)
    requires
        files_fit(files),
        forall|i: int| 0 <= i < files.len() ==> file_sized(#[trigger] files[i]),
        0 <= i < files.len(),
    ensures
        in_range(written_entries(files)[i], archive_bytes(version, files)),
        file_at(written_entries(files)[i], archive_bytes(version, files)) == files[i],
{
    let n = files.len() as int;
    let buf = archive_bytes(version, files);
    let entry = written_entries(files)[i];
    let datas = Seq::new(files.len(), |j: int| files[j].data);
    let data = data_region(files);
    let at = header_len() + total_size(files);
    lemma_layout(version, files);
    lemma_size_before_grows(files, 0, i);
    lemma_size_before_grows(files, i + 1, n);
    lemma_data_len(files, i);
    lemma_part_at(datas, i, n);
    let start = size_before(files, i);
    let end = start + files[i].size;
    assert(file_sized(files[i]));
    assert(datas[i] == files[i].data);
    assert(size_before(files, i + 1) == end);
    assert(entry.offset == header_len() + start);
    assert(data.subrange(start, end) == files[i].data);
    assert(buf.subrange(header_len() + start, header_len() + end) =~= buf.subrange(16, at).subrange(
        start,
        end,
    ));
}

/// Round trip: the bytes that files are written as decode to the records that
/// were written, with the names and sizes of the files in their order and the
/// absolute offsets of their bytes; loading from the same bytes gives the
/// files back, byte for byte; and writing that archive gives the same bytes.
pub proof fn lemma_round_trip(version: u32, files: Seq<FileView>)
    requires
        files_fit(files),
        forall|i: int| 0 <= i < files.len() ==> file_sized(#[trigger] files[i]),
    ensures
        decoded(archive_bytes(version, files)) == Ok::<ArchiveView, FarError>(
            ArchiveView {
                version: version,
                file_count: files.len() as u32,
                entries: written_entries(files),
                files: Seq::empty(),
            },
        ),
        hydrated(decoded(archive_bytes(version, files)).unwrap(), archive_bytes(version, files))
            == Ok::<ArchiveView, FarError>(
            ArchiveView {
                version: version,
                file_count: files.len() as u32,
                entries: written_entries(files),
                files: files,
            },
        ),
        writable(
            hydrated(
                decoded(archive_bytes(version, files)).unwrap(),
                archive_bytes(version, files),
            ).unwrap(),
        ),
        serialized(
            hydrated(
                decoded(archive_bytes(version, files)).unwrap(),
                archive_bytes(version, files),
            ).unwrap(),
        ) == archive_bytes(version, files),
{
    let n = files.len() as int;
    let buf = archive_bytes(version, files);
    let entries = written_entries(files);
    let at = header_len() + total_size(files);
    lemma_layout(version, files);
    lemma_le_u32_at_field(buf, 8, version);
    lemma_le_u32_at_field(buf, 12, at as u32);
    lemma_le_u32_at_field(buf, at, n as u32);
    assert forall|i: int| 0 <= i < entries.len() implies encode_utf8(
        (#[trigger] entries[i]).name,
    ).len() <= u32::MAX by {
        assert(entries[i].name == files[i].name);
    }
    lemma_records_parse(buf, at + 4, entries, 0);
    assert(entries.subrange(0, n) =~= entries);
    assert(manifest(buf) == Ok::<Seq<EntryView>, FarError>(entries));
    let read = decoded(buf).unwrap();
    assert(read.entries == entries);
    assert forall|i: int| 0 <= i < n implies in_range(#[trigger] entries[i], buf) && file_at(
        entries[i],
        buf,
    ) == files[i] by {
        lemma_files_in_place(version, files, i);
    }
    assert(all_in_range(entries, buf));
    let loaded = hydrated(read, buf).unwrap();
    assert(loaded.files =~= files);
}

/// Round trip from files: the archive built from files can be written; what
/// was written decodes to one record per file, with the file's name and size,
/// in the files' order; and loading from what was written gives the files
/// back, byte for byte.
pub proof fn lemma_built_round_trip(files: Seq<FileView>)
    requires
        files_fit(files),
        forall|i: int| 0 <= i < files.len() ==> file_sized(#[trigger] files[i]),
    ensures
        writable(built(files)),
        decoded(serialized(built(files))) is Ok,
        decoded(serialized(built(files))).unwrap().entries.len() == files.len(),
        forall|i: int|
            #![trigger files[i]]
            0 <= i < files.len() ==> {
                let entry = decoded(serialized(built(files))).unwrap().entries[i];
                entry.name == files[i].name && entry.size == files[i].size
            },
        hydrated(decoded(serialized(built(files))).unwrap(), serialized(built(files))) is Ok,
        hydrated(
            decoded(serialized(built(files))).unwrap(),
            serialized(built(files)),
        ).unwrap().files == files,
{
    lemma_round_trip(1, files);
}

/// The position behind the `n` records that start at `pos`, as far as they
/// can be read.
pub open spec fn records_end(buf: Seq<u8>, pos: int, n: nat) -> int
    decreases n,
{
    if n == 0 {
        pos
    } else {
        match parse_record(buf, pos) {
            Ok((_, next)) => records_end(buf, next, (n - 1) as nat),
            Err(_) => pos,
        }
    }
}

/// The position behind the last record of the manifest of `buf`.
pub open spec fn manifest_end(buf: Seq<u8>) -> int {
    let at = le_u32_at(buf, 12) as int;
    records_end(buf, at + 4, le_u32_at(buf, at) as nat)
}

/// Records that can be read end within the buffer.
pub proof fn lemma_records_end_in_buf(buf: Seq<u8>, pos: int, n: nat)
    requires
        0 <= pos <= buf.len(),
        parse_records(buf, pos, n) is Ok,
    ensures
        pos <= records_end(buf, pos, n) <= buf.len(),
    decreases n,
{
    if n > 0 {
        let next = parse_record(buf, pos).unwrap().1;
        lemma_records_end_in_buf(buf, next, (n - 1) as nat);
    }
}

/// Where `n` records can be read from `pos`, a buffer that is cut before
/// their end gives `TruncatedManifest` in their place.
pub proof fn lemma_cut_records(buf: Seq<u8>, pos: int, n: nat, cut: int)
    requires
        0 <= pos <= cut,
        cut < records_end(buf, pos, n),
        pos <= buf.len(),
        parse_records(buf, pos, n) is Ok,
    ensures
        parse_records(buf.subrange(0, cut), pos, n) == Err::<Seq<EntryView>, FarError>(
            FarError::TruncatedManifest,
        ),
    decreases n,
{
    lemma_records_end_in_buf(buf, pos, n);
    let short = buf.subrange(0, cut);
    let (entry, next) = parse_record(buf, pos).unwrap();
    if next <= cut {
        assert(short.subrange(pos + 16, next) =~= buf.subrange(pos + 16, next));
        assert(parse_record(short, pos) == Ok::<(EntryView, int), FarError>((entry, next)));
        lemma_cut_records(buf, next, (n - 1) as nat, cut);
    }
}

/// Truncation: where a buffer decodes, every buffer that is cut off behind
/// the header and before the end of the manifest decodes to
/// `TruncatedManifest`.
pub proof fn lemma_truncated_manifest(buf: Seq<u8>, cut: int)
    requires
        decoded(buf) is Ok,
        header_len() <= cut < manifest_end(buf),
    ensures
        manifest_end(buf) <= buf.len(),
        decoded(buf.subrange(0, cut)) == Err::<ArchiveView, FarError>(FarError::TruncatedManifest),
{
    let at = le_u32_at(buf, 12) as int;
    let n = le_u32_at(buf, at) as nat;
    let short = buf.subrange(0, cut);
    lemma_records_end_in_buf(buf, at + 4, n);
    assert(short.subrange(0, 8) =~= buf.subrange(0, 8));
    if at + 4 <= cut {
        lemma_cut_records(buf, at + 4, n, cut);
    }
}

/// Truncation of what was written: the manifest of a written archive ends
/// where the bytes end, so each of its proper prefixes that holds the
/// header decodes to `TruncatedManifest`.
pub proof fn lemma_written_then_cut(version: u32, files: Seq<FileView>, cut: int)
    requires
        files_fit(files),
        forall|i: int| 0 <= i < files.len() ==> file_sized(#[trigger] files[i]),
        header_len() <= cut < archive_bytes(version, files).len(),
    ensures
        manifest_end(archive_bytes(version, files)) == archive_bytes(version, files).len(),
        decoded(archive_bytes(version, files).subrange(0, cut)) == Err::<ArchiveView, FarError>(
            FarError::TruncatedManifest,
        ),
{
    let n = files.len() as int;
    let buf = archive_bytes(version, files);
    let entries = written_entries(files);
    let at = header_len() + total_size(files);
    lemma_round_trip(version, files);
    lemma_layout(version, files);
    lemma_le_u32_at_field(buf, 12, at as u32);
    lemma_le_u32_at_field(buf, at, n as u32);
    assert forall|i: int| 0 <= i < entries.len() implies encode_utf8(
        (#[trigger] entries[i]).name,
    ).len() <= u32::MAX by {
        assert(entries[i].name == files[i].name);
    }
    lemma_records_parse(buf, at + 4, entries, 0);
    lemma_truncated_manifest(buf, cut);
}

} // verus!
