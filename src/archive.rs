//! The outside codec and archive reader, as this library relies on them.
use std::io::Cursor;
use vstd::prelude::*;
use vstd::utf8::{decode_utf8, valid_utf8};

verus! {

#[verifier::external_type_specification]
#[verifier::external_body]
pub struct ExIoError(std::io::Error);

#[verifier::external_type_specification]
#[verifier::external_body]
pub struct ExFromUtf8Error(std::string::FromUtf8Error);

/// A tar reader over a byte buffer. The tar types are generic over a reader
/// bound by `std::io::Read`, which Verus cannot take as a bound, so each is held
/// here at the one reader this library uses.
#[verifier::external_body]
pub struct TarArchive<'a> {
    inner: tar::Archive<Cursor<&'a [u8]>>,
}

/// The entries of a [`TarArchive`], in archive order.
#[verifier::external_body]
pub struct TarEntries<'b, 'a> {
    inner: tar::Entries<'b, Cursor<&'a [u8]>>,
}

/// One entry of a [`TarArchive`]: its header, and a reader over its content.
#[verifier::external_body]
pub struct TarEntry<'b, 'a> {
    inner: tar::Entry<'b, Cursor<&'a [u8]>>,
}

/// What zstd makes of a compressed byte stream: the decompressed bytes, or
/// `None` where the stream is not valid zstd data.
pub uninterp spec fn zstd_decoded(compressed: Seq<u8>) -> Option<Seq<u8>>;

/// What tar's entry iterator yields over `data` read from its start: each
/// entry's header as (path bytes, offset in `data` of the bytes stored for it,
/// declared size), in archive order, and whether the iteration ends cleanly (`true`) or
/// with an error after the entries listed (`false`).
pub uninterp spec fn tar_listing(data: Seq<u8>) -> (Seq<(Seq<u8>, nat, nat)>, bool);

/// The text of a byte sequence decoded as UTF-8, each invalid sequence replaced
/// by U+FFFD.
pub uninterp spec fn lossy_text(bytes: Seq<u8>) -> Seq<char>;

/// The bytes an archive reader reads, where it stands at their start.
pub uninterp spec fn archive_start(archive: TarArchive) -> Option<Seq<u8>>;

/// The bytes an entry iterator walks, and how many entries it has yielded.
pub uninterp spec fn entries_state(entries: TarEntries) -> (Seq<u8>, nat);

/// An entry's header: (path bytes, offset of its stored bytes, declared size).
pub uninterp spec fn entry_header(entry: TarEntry) -> (Seq<u8>, nat, nat);

/// The listing of the bytes an entry iterator walks.
pub open spec fn entries_listing(entries: TarEntries) -> (Seq<(Seq<u8>, nat, nat)>, bool) {
    tar_listing(entries_state(entries).0)
}

/// How many entries an iterator has yielded.
pub open spec fn entries_index(entries: TarEntries) -> int {
    entries_state(entries).1 as int
}

/// Relies on zstd::stream::decode_all: it decodes every frame of the input, and
/// the outcome depends on the input bytes alone.
#[verifier::external_body]
pub(crate) fn decode_zstd(compressed: &[u8]) -> (r: Result<Vec<u8>, std::io::Error>)
    ensures
        r is Ok <==> zstd_decoded(compressed@) is Some,
        r matches Ok(v) ==> zstd_decoded(compressed@) == Some(v@),
{
    zstd::stream::decode_all(compressed)
}

/// Relies on tar::Archive::new over a std::io::Cursor at offset 0: a reader
/// placed at the start of `data`; nothing is read yet.
#[verifier::external_body]
pub(crate) fn open_archive<'a>(data: &'a [u8]) -> (r: TarArchive<'a>)
    ensures
        archive_start(r) == Some(data@),
{
    TarArchive { inner: tar::Archive::new(Cursor::new(data)) }
}

/// Relies on tar::Archive::entries_with_seek: it fails only where the reader has
/// left offset 0, and otherwise yields the entries from the start.
#[verifier::external_body]
pub(crate) fn archive_entries<'b, 'a>(archive: &'b mut TarArchive<'a>) -> (r: Result<
    TarEntries<'b, 'a>,
    std::io::Error,
>)
    ensures
        archive_start(*old(archive)) matches Some(d) ==> (r matches Ok(e) && entries_state(e) == (
        d,
        0nat,
        )),
{
    archive.inner.entries_with_seek().map(|inner| TarEntries { inner })
}

/// Relies on tar::Entries::next: the entries of `tar_listing` one by one, then
/// `None` at a clean end or an error where the archive is malformed. Each entry
/// takes a 512-byte header block of the data.
#[verifier::external_body]
pub(crate) fn next_entry<'b, 'a>(entries: &mut TarEntries<'b, 'a>) -> (r: Option<
    Result<TarEntry<'b, 'a>, std::io::Error>,
>)
    ensures
        entries_state(*final(entries)).0 == entries_state(*old(entries)).0,
        entries_index(*old(entries)) < tar_listing(entries_state(*old(entries)).0).0.len() ==> (
        r matches Some(Ok(en)) && entry_header(en) == tar_listing(
            entries_state(*old(entries)).0,
        ).0[entries_index(*old(entries))]
            && entries_index(*final(entries)) == entries_index(*old(entries)) + 1),
        (entries_index(*old(entries)) == entries_listing(*old(entries)).0.len() && entries_listing(
            *old(entries),
        ).1) ==> r is None,
        (entries_index(*old(entries)) == entries_listing(*old(entries)).0.len()
            && !entries_listing(*old(entries)).1) ==> r matches Some(Err(_)),
        r matches Some(Ok(_)) ==> entries_index(*final(entries)) * 512 <= entries_state(
            *final(entries),
        ).0.len(),
{
    entries.inner.next().map(|item| item.map(|inner| TarEntry { inner }))
}

/// Relies on tar::Entry::path_bytes: the raw bytes of the entry's path.
#[verifier::external_body]
pub(crate) fn entry_path_bytes<'b, 'a>(entry: &TarEntry<'b, 'a>) -> (r: Vec<u8>)
    ensures
        r@ == entry_header(*entry).0,
{
    entry.inner.path_bytes().into_owned()
}

/// Relies on tar::Entry::raw_file_position: where the bytes stored for the entry
/// start in the archive's bytes (for a GNU sparse file, its data without holes).
#[verifier::external_body]
pub(crate) fn entry_position<'b, 'a>(entry: &TarEntry<'b, 'a>) -> (r: u64)
    ensures
        r as nat == entry_header(*entry).1,
{
    entry.inner.raw_file_position()
}

/// Relies on tar::Entry::size: the declared size of the bytes stored for the
/// entry.
#[verifier::external_body]
pub(crate) fn entry_size<'b, 'a>(entry: &TarEntry<'b, 'a>) -> (r: u64)
    ensures
        r as nat == entry_header(*entry).2,
{
    entry.inner.size()
}

/// Relies on std::string::String::from_utf8_lossy: the text of the bytes, with
/// each invalid sequence replaced; it depends on the bytes alone.
#[verifier::external_body]
pub(crate) fn text_lossy(bytes: &[u8]) -> (r: String)
    ensures
        r@ == lossy_text(bytes@),
{
    String::from_utf8_lossy(bytes).into_owned()
}

/// Relies on std::io::Error's From<std::io::ErrorKind>: the error for an entry
/// whose content runs past the end of the archive.
#[verifier::external_body]
pub(crate) fn truncated_entry_error() -> (r: std::io::Error) {
    std::io::Error::from(std::io::ErrorKind::UnexpectedEof)
}

/// Relies on std::string::String::from_utf8: the text of the bytes, or an error
/// exactly where they are not valid UTF-8.
#[verifier::external_body]
pub(crate) fn text_from_utf8(bytes: Vec<u8>) -> (r: Result<String, std::string::FromUtf8Error>)
    ensures
        r is Ok <==> valid_utf8(bytes@),
        r matches Ok(s) ==> s@ == decode_utf8(bytes@),
{
    String::from_utf8(bytes)
}

} // verus!
