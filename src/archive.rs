//! Reading and writing ZIP archives in memory through the zip crate.
use vstd::prelude::*;
use vstd::utf8::encode_utf8;
use std::io::{Cursor, Read, Write};
use zip::{ZipArchive, ZipWriter};

verus! {

#[verifier::external_type_specification]
#[verifier::external_body]
#[verifier::reject_recursive_types(T)]
pub struct ExCursor<T>(std::io::Cursor<T>);

#[verifier::external_type_specification]
#[verifier::external_body]
#[verifier::reject_recursive_types(R)]
pub struct ExZipArchive<R>(zip::ZipArchive<R>);


/// An archive read from bytes held in memory.
pub type MemoryArchive = ZipArchive<Cursor<Vec<u8>>>;

/// An archive being written into memory; only the functions of this module touch it.
#[verifier::external_body]
pub struct MemoryWriter {
    inner: ZipWriter<Cursor<Vec<u8>>>,
}

/// The bytes that an opened archive reads from.
pub uninterp spec fn archive_bytes(a: MemoryArchive) -> Seq<u8>;

/// The entries that an archive encoded in these bytes holds, in order: each name
/// with its content.
pub uninterp spec fn zip_entries(b: Seq<u8>) -> Seq<(Seq<char>, Seq<u8>)>;

/// The bytes hold an archive that the zip crate can open.
pub uninterp spec fn zip_opens(b: Seq<u8>) -> bool;

/// Entry `i` of the archive in these bytes can be read to its end.
pub uninterp spec fn entry_readable(b: Seq<u8>, i: int) -> bool;

/// The archive opens and every entry of it can be read.
pub open spec fn zip_readable(b: Seq<u8>) -> bool {
    zip_opens(b) && forall|i: int| 0 <= i < zip_entries(b).len() ==> entry_readable(b, i)
}

/// The names of the entries written so far.
pub open spec fn written_names(es: Seq<WrittenEntry>) -> Seq<Seq<char>> {
    es.map_values(|e: WrittenEntry| e.0)
}

/// The most bytes one entry can take without the large-file option.
pub open spec fn entry_size_limit() -> nat {
    u32::MAX as nat
}

/// The most bytes an entry name can take in UTF-8.
pub open spec fn name_length_limit() -> nat {
    u16::MAX as nat
}

/// An entry as written: its name, its Unix permissions and its content.
pub type WrittenEntry = (Seq<char>, u32, Seq<u8>);

/// The entries written so far, in order.
pub uninterp spec fn written_entries(w: MemoryWriter) -> Seq<WrittenEntry>;

/// The bytes of the finished archive that holds these entries, in this order.
pub uninterp spec fn zip_image(entries: Seq<WrittenEntry>) -> Seq<u8>;

/// An entry name that marks a directory: it ends with a slash or a backslash.
pub open spec fn is_dir_name(name: Seq<char>) -> bool {
    name.len() > 0 && (name.last() == '/' || name.last() == '\\')
}

/// Relies on `ZipArchive::new`: the archive that the bytes encode.
#[verifier::external_body]
pub fn open_archive(bytes: Vec<u8>) -> (r: Result<MemoryArchive, zip::result::ZipError>)
    ensures
        r is Ok <==> zip_opens(bytes@),
        r matches Ok(a) ==> archive_bytes(a) == bytes@,
{
    ZipArchive::new(Cursor::new(bytes))
}

/// Relies on `ZipArchive::len`: the number of entries.
#[verifier::external_body]
pub fn archive_len(a: &MemoryArchive) -> (r: usize)
    ensures
        r == zip_entries(archive_bytes(*a)).len(),
{
    a.len()
}

/// Relies on `ZipArchive::by_index`: entry `i`, as its name, its directory flag
/// (`ZipFile::is_dir`, which tests the last character of the name) and its content
/// (read to the end; a read error becomes `ZipError::Io`). Reading leaves the
/// archive's bytes as they were.
#[verifier::external_body]
pub fn read_entry(a: &mut MemoryArchive, i: usize) -> (r: Result<(String, bool, Vec<u8>), zip::result::ZipError>)
    requires
        i < zip_entries(archive_bytes(*old(a))).len(),
    ensures
        archive_bytes(*final(a)) == archive_bytes(*old(a)),
        r is Ok <==> entry_readable(archive_bytes(*old(a)), i as int),
        r matches Ok((name, dir, data)) ==> {
            &&& name@ == zip_entries(archive_bytes(*old(a)))[i as int].0
            &&& data@ == zip_entries(archive_bytes(*old(a)))[i as int].1
            &&& dir == is_dir_name(name@)
        },
{
    let mut file = a.by_index(i)?;
    let name = file.name().to_string();
    let dir = file.is_dir();
    let mut data = Vec::new();
    file.read_to_end(&mut data)?;
    Ok((name, dir, data))
}

/// Relies on `ZipWriter::new`: a writer with no entry yet.
#[verifier::external_body]
pub fn new_writer() -> (r: MemoryWriter)
    ensures
        written_entries(r) == Seq::<WrittenEntry>::empty(),
{
    MemoryWriter { inner: ZipWriter::new(Cursor::new(Vec::new())) }
}

/// Relies on `ZipWriter::start_file`: a new, empty entry, stored without
/// compression, with the given Unix permissions and the fixed default modification
/// time. A name already written is refused. The writer comes back only on success,
/// so every writer holds entries that were all written in full; closing the previous
/// entry cannot fail then, since a stored entry is no larger than its content.
#[verifier::external_body]
pub fn start_entry(w: MemoryWriter, name: &str, mode: u32) -> (r: Result<MemoryWriter, zip::result::ZipError>)
    requires
        encode_utf8(name@).len() <= name_length_limit(),
    ensures
        r is Ok <==> !written_names(written_entries(w)).contains(name@),
        r matches Ok(x) ==> written_entries(x) == written_entries(w).push(
            (name@, mode, Seq::<u8>::empty()),
        ),
{
    let mut w = w;
    let options = zip::write::SimpleFileOptions::default()
        .compression_method(zip::CompressionMethod::Stored)
        .unix_permissions(mode);
    w.inner.start_file(name, options)?;
    Ok(w)
}

/// Relies on `Write::write_all` of `ZipWriter`: the bytes go to the end of the
/// entry last started. An entry that would grow past the size limit without the
/// large-file option is refused; the in-memory buffer never fails otherwise. The
/// writer comes back only on success.
#[verifier::external_body]
pub fn write_bytes(w: MemoryWriter, data: &[u8]) -> (r: Result<MemoryWriter, std::io::Error>)
    requires
        written_entries(w).len() > 0,
    ensures
        r is Ok <==> written_entries(w).last().2.len() + data@.len() <= entry_size_limit(),
        r matches Ok(x) ==> written_entries(x) == written_entries(w).update(
            written_entries(w).len() - 1,
            (
                written_entries(w).last().0,
                written_entries(w).last().1,
                written_entries(w).last().2 + data@,
            ),
        ),
{
    let mut w = w;
    w.inner.write_all(data)?;
    Ok(w)
}

/// Relies on `ZipWriter::finish`: the bytes of the finished archive. Every entry of
/// a writer was written in full and stored, so finishing into memory does not fail.
#[verifier::external_body]
pub fn finish_writer(w: MemoryWriter) -> (r: Result<Vec<u8>, zip::result::ZipError>)
    ensures
        r is Ok,
        r matches Ok(b) ==> b@ == zip_image(written_entries(w)),
{
    w.inner.finish().map(|c| c.into_inner())
}

} // verus!
