//! The two passes over an archive: one to choose the newest transcript, one to
//! read it.
use crate::archive::{
    archive_entries, decode_zstd, entries_state, entry_header, entry_path_bytes, entry_position,
    entry_size, next_entry, open_archive, tar_listing, text_from_utf8, text_lossy, lossy_text, truncated_entry_error, zstd_decoded, TarEntry,
};
use crate::error::DecompressError;
use crate::naming::{
    candidate_key, csv_ext, dir_prefix, ends_with, latest_candidate, latest_path,
    lemma_latest_is_first_maximum, lemma_other_paths_ignored,
    starts_with, Selector,
};
use vstd::prelude::*;
use vstd::utf8::{decode_utf8, valid_utf8};

verus! {

/// How the two passes get the decompressed bytes.
#[derive(Debug, Clone, Copy, PartialEq, Eq, Structural)]
pub enum PassMode {
    /// Decompress once; both passes read the same buffer from its start.
    BufferOnce,
    /// Decompress the compressed source anew for the second pass; the first
    /// buffer is released before that.
    DecompressTwice,
}

/// Why a scan over every `.csv` entry stopped early.
pub enum ScanFailure {
    /// An entry's content lies beyond the archive's bytes.
    Container,
    /// An entry's content is not valid UTF-8.
    Text,
}

/// An entry header: (path bytes, offset of the content, declared size).
pub type Header = (Seq<u8>, nat, nat);

/// The path of an entry as text, each invalid UTF-8 sequence replaced.
pub open spec fn path_view(h: Header) -> Seq<char> {
    lossy_text(h.0)
}

pub open spec fn listing_paths(es: Seq<Header>) -> Seq<Seq<char>> {
    es.map_values(|h: Header| path_view(h))
}

/// The bytes stored for an entry: its declared size of bytes from its offset,
/// where those lie within `data`.
pub open spec fn content_of(data: Seq<u8>, h: Header) -> Option<Seq<u8>> {
    if h.1 + h.2 <= data.len() {
        Some(data.subrange(h.1 as int, (h.1 + h.2) as int))
    } else {
        None
    }
}

/// The index of the first entry whose path is `t`.
pub open spec fn find_first(es: Seq<Header>, t: Seq<char>) -> Option<int>
    decreases es.len(),
{
    if es.len() == 0 {
        None
    } else {
        match find_first(es.drop_last(), t) {
            Some(i) => Some(i),
            None => if path_view(es.last()) == t {
                Some(es.len() - 1)
            } else {
                None
            },
        }
    }
}

/// A path under `transcriptions/` that ends in `.csv`, whatever its name.
pub open spec fn is_csv_entry(p: Seq<char>) -> bool {
    starts_with(p, dir_prefix()) && ends_with(p, csv_ext())
}

/// Whether the entry at `h` is read by [`decompress`].
pub open spec fn is_csv_header(h: Header) -> bool {
    is_csv_entry(path_view(h))
}

/// Every entry's stored bytes lie within `data`.
pub open spec fn all_in_bounds(data: Seq<u8>, es: Seq<Header>) -> bool {
    forall|i: int| 0 <= i < es.len() ==> (#[trigger] content_of(data, es[i])) is Some
}

/// The texts of the `.csv` entries of `es`, in order, or why the scan stops: the
/// first entry whose stored bytes run past `data`, or a `.csv` entry that is not
/// UTF-8.
pub open spec fn csv_scan(data: Seq<u8>, es: Seq<Header>) -> Result<Seq<Seq<char>>, ScanFailure>
    decreases es.len(),
{
    if es.len() == 0 {
        Ok(Seq::empty())
    } else {
        match csv_scan(data, es.drop_last()) {
            Err(f) => Err(f),
            Ok(ts) => match content_of(data, es.last()) {
                None => Err(ScanFailure::Container),
                Some(b) => if !is_csv_header(es.last()) {
                    Ok(ts)
                } else if valid_utf8(b) {
                    Ok(ts.push(decode_utf8(b)))
                } else {
                    Err(ScanFailure::Text)
                },
            },
        }
    }
}

pub open spec fn string_views(v: Seq<String>) -> Seq<Seq<char>> {
    v.map_values(|s: String| s@)
}

pub open spec fn option_view(o: Option<String>) -> Option<Seq<char>> {
    match o {
        Some(s) => Some(s@),
        None => None,
    }
}

/// The result of reading the entry of `data` whose path is `t`.
pub open spec fn is_extraction_of(
    data: Seq<u8>,
    t: Seq<char>,
    r: Result<Vec<String>, DecompressError>,
) -> bool {
    let (es, clean) = tar_listing(data);
    match find_first(es, t) {
        None => if clean {
            r matches Ok(v) && v@.len() == 0
        } else {
            r matches Err(DecompressError::ContainerFormatError(_))
        },
        Some(j) => match content_of(data, es[j]) {
            None => r matches Err(DecompressError::ContainerFormatError(_)),
            Some(b) => if valid_utf8(b) {
                r matches Ok(v) && v@.len() == 1 && v@[0]@ == decode_utf8(b)
            } else {
                r matches Err(DecompressError::TextDecodeError(_))
            },
        },
    }
}

/// The result of choosing and reading the newest transcript of `data`.
pub open spec fn is_latest_of(data: Seq<u8>, r: Result<Vec<String>, DecompressError>) -> bool {
    let (es, clean) = tar_listing(data);
    if !clean || !all_in_bounds(data, es) {
        r matches Err(DecompressError::ContainerFormatError(_))
    } else {
        match latest_path(listing_paths(es)) {
            None => r matches Ok(v) && v@.len() == 0,
            Some(p) => is_extraction_of(data, p, r),
        }
    }
}

/// The result of reading every `.csv` entry of `data`.
pub open spec fn is_csv_texts_of(data: Seq<u8>, r: Result<Vec<String>, DecompressError>) -> bool {
    let (es, clean) = tar_listing(data);
    match csv_scan(data, es) {
        Err(ScanFailure::Container) => r matches Err(DecompressError::ContainerFormatError(_)),
        Err(ScanFailure::Text) => r matches Err(DecompressError::TextDecodeError(_)),
        Ok(ts) => if clean {
            r matches Ok(v) && string_views(v@) == ts
        } else {
            r matches Err(DecompressError::ContainerFormatError(_))
        },
    }
}

/// The text of an entry's content.
pub fn entry_text(content: Vec<u8>) -> (r: Result<String, DecompressError>)
    ensures
        valid_utf8(content@) ==> (r matches Ok(s) && s@ == decode_utf8(content@)),
        !valid_utf8(content@) ==> r matches Err(DecompressError::TextDecodeError(_)),
{
    match text_from_utf8(content) {
        Ok(s) => Ok(s),
        Err(e) => Err(DecompressError::TextDecodeError(e)),
    }
}

/// The path of an entry as text.
fn entry_path_text(entry: &TarEntry) -> (r: String)
    ensures
        r@ == path_view(entry_header(*entry)),
{
    text_lossy(entry_path_bytes(entry).as_slice())
}

/// Whether the entry's stored bytes lie within `data`.
fn entry_fits(data: &[u8], entry: &TarEntry) -> (r: bool)
    ensures
        r == content_of(data@, entry_header(*entry)) is Some,
{
    let n = data.len();
    assert(n as int <= u64::MAX);
    match entry_position(entry).checked_add(entry_size(entry)) {
        Some(end) => end <= n as u64,
        None => false,
    }
}

/// The content of an entry, cut from `data` by its offset and declared size;
/// `None` where it runs past the end.
fn entry_content(data: &[u8], entry: &TarEntry) -> (r: Option<Vec<u8>>)
    ensures
        r matches Some(b) ==> content_of(data@, entry_header(*entry)) == Some(b@),
        r is None ==> content_of(data@, entry_header(*entry)) is None,
{
    let start = entry_position(entry);
    let size = entry_size(entry);
    let n = data.len();
    assert(n as int <= u64::MAX);
    let end = match start.checked_add(size) {
        Some(e) => e,
        None => return None,
    };
    if end > n as u64 {
        return None;
    }
    let s = start as usize;
    let e = end as usize;
    let mut out: Vec<u8> = Vec::new();
    let mut i: usize = s;
    while i < e
        invariant
            s <= i <= e <= data@.len(),
            out@ == data@.subrange(s as int, i as int),
        decreases e - i,
    {
        out.push(data[i]);
        proof {
            assert(data@.subrange(s as int, i + 1) =~= data@.subrange(s as int, i as int).push(
                data@[i as int],
            ));
        }
        i += 1;
    }
    Some(out)
}

proof fn lemma_listing_paths_step(es: Seq<Header>, i: int)
    requires
        0 <= i < es.len(),
    ensures
        listing_paths(es.subrange(0, i + 1)) == listing_paths(es.subrange(0, i)).push(
            path_view(es[i]),
        ),
{
    assert(listing_paths(es.subrange(0, i + 1)) =~= listing_paths(es.subrange(0, i)).push(
        path_view(es[i]),
    ));
}

/// The selection pass: the path of the transcript with the largest number among
/// the entries of `data`, or `None` where it holds no transcript. An archive that
/// tar rejects, or with an entry cut short, is a container-format error.
pub fn select_pass(data: &[u8]) -> (r: Result<Option<String>, DecompressError>)
    ensures
        (tar_listing(data@).1 && all_in_bounds(data@, tar_listing(data@).0)) ==> (r matches Ok(o)
            && option_view(o) == latest_path(listing_paths(tar_listing(data@).0))),
        !(tar_listing(data@).1 && all_in_bounds(data@, tar_listing(data@).0)) ==> r matches Err(
            DecompressError::ContainerFormatError(_),
        ),
{
    let ghost es = tar_listing(data@).0;
    let ghost clean = tar_listing(data@).1;
    let mut archive = open_archive(data);
    let mut entries = match archive_entries(&mut archive) {
        Ok(e) => e,
        Err(e) => return Err(DecompressError::ContainerFormatError(e)),
    };
    let mut selector = Selector::new();
    proof {
        assert(listing_paths(es.subrange(0, 0)) =~= Seq::<Seq<char>>::empty());
    }
    loop
        invariant
            es == tar_listing(data@).0,
            clean == tar_listing(data@).1,
            entries_state(entries).0 == data@,
            entries_state(entries).1 <= es.len(),
            entries_state(entries).1 * 512 <= data@.len(),
            selector.wf(),
            selector.seen() == listing_paths(es.subrange(0, entries_state(entries).1 as int)),
            all_in_bounds(data@, es.subrange(0, entries_state(entries).1 as int)),
        decreases data@.len() - 512 * entries_state(entries).1,
    {
        let ghost i: int = entries_state(entries).1 as int;
        match next_entry(&mut entries) {
            None => {
                proof {
                    assert(es.subrange(0, i as int) =~= es);
                }
                return Ok(selector.into_selected());
            },
            Some(Err(e)) => return Err(DecompressError::ContainerFormatError(e)),
            Some(Ok(entry)) => {
                if !entry_fits(data, &entry) {
                    return Err(DecompressError::ContainerFormatError(truncated_entry_error()));
                }
                let path = entry_path_text(&entry);
                proof {
                    lemma_listing_paths_step(es, i as int);
                    assert(es.subrange(0, i + 1)[i] == es[i]);
                    assert forall|k: int| 0 <= k < i + 1 implies (#[trigger] content_of(
                        data@,
                        es.subrange(0, i + 1)[k],
                    )) is Some by {
                        if k < i {
                            assert(es.subrange(0, i + 1)[k] == es.subrange(0, i)[k]);
                        }
                    }
                }
                selector.observe(path);
            },
        }
    }
}

/// The extraction pass: the text of the first entry whose path is `target`, as a
/// sequence of zero or one strings. With no target, nothing is read.
pub fn extract_pass(data: &[u8], target: Option<String>) -> (r: Result<
    Vec<String>,
    DecompressError,
>)
    ensures
        target is None ==> (r matches Ok(v) && v@.len() == 0),
        target matches Some(t) ==> is_extraction_of(data@, t@, r),
{
    let mut found: Vec<String> = Vec::new();
    let wanted = match target {
        None => return Ok(found),
        Some(t) => t,
    };
    let ghost t = wanted@;
    let ghost es = tar_listing(data@).0;
    let mut archive = open_archive(data);
    let mut entries = match archive_entries(&mut archive) {
        Ok(e) => e,
        Err(e) => return Err(DecompressError::ContainerFormatError(e)),
    };
    loop
        invariant
            target == Some(wanted),
            t == wanted@,
            es == tar_listing(data@).0,
            found@.len() == 0,
            entries_state(entries).0 == data@,
            entries_state(entries).1 <= es.len(),
            entries_state(entries).1 * 512 <= data@.len(),
            find_first(es.subrange(0, entries_state(entries).1 as int), t) is None,
        decreases data@.len() - 512 * entries_state(entries).1,
    {
        let ghost i: int = entries_state(entries).1 as int;
        match next_entry(&mut entries) {
            None => {
                proof {
                    assert(es.subrange(0, i as int) =~= es);
                }
                return Ok(found);
            },
            Some(Err(e)) => {
                proof {
                    assert(es.subrange(0, i as int) =~= es);
                }
                return Err(DecompressError::ContainerFormatError(e));
            },
            Some(Ok(entry)) => {
                let path = entry_path_text(&entry);
                proof {
                    assert(es.subrange(0, i + 1).drop_last() =~= es.subrange(0, i as int));
                }
                let hit = path == wanted;
                if hit {
                    proof {
                        lemma_find_first_prefix(es, t, i + 1);
                    }
                    let content = match entry_content(data, &entry) {
                        Some(c) => c,
                        None => return Err(
                            DecompressError::ContainerFormatError(
                                truncated_entry_error(),
                            ),
                        ),
                    };
                    let text = entry_text(content)?;
                    found.push(text);
                    return Ok(found);
                }
            },
        }
    }
}

/// What `find_first` finds has the path looked for.
proof fn lemma_find_first_sound(es: Seq<Header>, t: Seq<char>)
    ensures
        find_first(es, t) is Some ==> 0 <= find_first(es, t)->Some_0 < es.len() && path_view(
            es[find_first(es, t)->Some_0],
        ) == t,
    decreases es.len(),
{
    if es.len() > 0 {
        lemma_find_first_sound(es.drop_last(), t);
    }
}

/// Where some entry has the path looked for, `find_first` finds one.
proof fn lemma_find_first_complete(es: Seq<Header>, t: Seq<char>, i: int)
    requires
        0 <= i < es.len(),
        path_view(es[i]) == t,
    ensures
        find_first(es, t) is Some,
    decreases es.len(),
{
    if i < es.len() - 1 {
        lemma_find_first_complete(es.drop_last(), t, i);
    }
}

/// The transcript numbers of an archive's entries.
pub open spec fn entry_key(h: Header) -> Option<nat> {
    candidate_key(path_view(h))
}

/// For an archive that tar reads to its end, with every entry whole and every
/// transcript valid UTF-8: the result of choosing and reading the newest
/// transcript succeeds; it is empty exactly when no entry is a transcript, and
/// otherwise it is the text of a transcript whose number is the largest.
pub proof fn lemma_latest_is_largest_transcript(data: Seq<u8>, r: Result<Vec<String>, DecompressError>)
    requires
        is_latest_of(data, r),
        tar_listing(data).1,
        all_in_bounds(data, tar_listing(data).0),
        forall|i: int|
            0 <= i < tar_listing(data).0.len() && (#[trigger] entry_key(tar_listing(data).0[i]))
                is Some ==> valid_utf8(content_of(data, tar_listing(data).0[i])->Some_0),
    ensures
        r is Ok,
        r is Ok ==> r->Ok_0@.len() <= 1,
        r is Ok ==> (r->Ok_0@.len() == 0 <==> forall|i: int|
            0 <= i < tar_listing(data).0.len() ==> (#[trigger] entry_key(tar_listing(data).0[i]))
                is None),
        r is Ok && r->Ok_0@.len() == 1 ==> exists|j: int|
            0 <= j < tar_listing(data).0.len() && (#[trigger] entry_key(tar_listing(data).0[j]))
                is Some && (forall|i: int|
                0 <= i < tar_listing(data).0.len() && (#[trigger] entry_key(
                    tar_listing(data).0[i],
                )) is Some ==> entry_key(tar_listing(data).0[i])->Some_0 <= entry_key(
                    tar_listing(data).0[j],
                )->Some_0) && r->Ok_0@[0]@ == decode_utf8(
                content_of(data, tar_listing(data).0[j])->Some_0,
            ),
{
    let es = tar_listing(data).0;
    let ps = listing_paths(es);
    lemma_latest_is_first_maximum(ps);
    assert forall|i: int| 0 <= i < es.len() implies ps[i] == path_view(es[i]) by {}
    match latest_candidate(ps) {
        None => {
            assert forall|i: int| 0 <= i < es.len() implies (#[trigger] entry_key(es[i])) is None by {
                assert(candidate_key(ps[i]) is None);
            }
        },
        Some((k, p)) => {
            let i0 = choose|i: int|
                0 <= i < ps.len() && ps[i] == p && candidate_key(ps[i]) == Some(k) && (forall|
                    j: int,
                | 0 <= j < i ==> #[trigger] candidate_key(ps[j]) != Some(k));
            lemma_find_first_complete(es, p, i0);
            lemma_find_first_sound(es, p);
            let j = find_first(es, p)->Some_0;
            assert(entry_key(es[j]) == Some(k));
            assert(content_of(data, es[j]) is Some);
            assert(entry_key(es[i0]) is Some);
            assert forall|i: int|
                0 <= i < es.len() && (#[trigger] entry_key(es[i])) is Some implies entry_key(
                es[i],
            )->Some_0 <= k by {
                assert(candidate_key(ps[i]) == entry_key(es[i]));
            }
        },
    }
}

/// Where the first match lies within a prefix, it is the first match of the whole.
proof fn lemma_find_first_prefix(es: Seq<Header>, t: Seq<char>, n: int)
    requires
        0 <= n <= es.len(),
        find_first(es.subrange(0, n), t) is Some,
    ensures
        find_first(es, t) == find_first(es.subrange(0, n), t),
    decreases es.len() - n,
{
    if n < es.len() {
        assert(es.subrange(0, n + 1).drop_last() =~= es.subrange(0, n));
        lemma_find_first_prefix(es, t, n + 1);
    } else {
        assert(es.subrange(0, n) =~= es);
    }
}

/// The text of the transcript with the largest number in a zstd-compressed tar
/// archive, as a sequence of zero or one strings; empty where the archive holds
/// no transcript.
pub fn decompress_latest(compressed: &[u8], mode: PassMode) -> (r: Result<
    Vec<String>,
    DecompressError,
>)
    ensures
        match zstd_decoded(compressed@) {
            None => r matches Err(DecompressError::DecodeError(_)),
            Some(d) => is_latest_of(d, r),
        },
{
    match mode {
        PassMode::BufferOnce => {
            let data = decompressed(compressed)?;
            let target = select_pass(data.as_slice())?;
            extract_pass(data.as_slice(), target)
        },
        PassMode::DecompressTwice => {
            let target = {
                let data = decompressed(compressed)?;
                select_pass(data.as_slice())?
            };
            let again = decompressed(compressed)?;
            extract_pass(again.as_slice(), target)
        },
    }
}

/// The decompressed bytes, or the codec's error.
fn decompressed(compressed: &[u8]) -> (r: Result<Vec<u8>, DecompressError>)
    ensures
        r matches Ok(d) ==> zstd_decoded(compressed@) == Some(d@),
        r is Err ==> zstd_decoded(compressed@) is None && r matches Err(
            DecompressError::DecodeError(_),
        ),
{
    match decode_zstd(compressed) {
        Ok(d) => Ok(d),
        Err(e) => Err(DecompressError::DecodeError(e)),
    }
}

/// The texts of all entries under `transcriptions/` that end in `.csv`, in
/// archive order, whether or not their names are numerals.
pub fn decompress(compressed: &[u8]) -> (r: Result<Vec<String>, DecompressError>)
    ensures
        match zstd_decoded(compressed@) {
            None => r matches Err(DecompressError::DecodeError(_)),
            Some(d) => is_csv_texts_of(d, r),
        },
{
    let data = decompressed(compressed)?;
    let ghost es = tar_listing(data@).0;
    let mut archive = open_archive(data.as_slice());
    let mut entries = match archive_entries(&mut archive) {
        Ok(e) => e,
        Err(e) => return Err(DecompressError::ContainerFormatError(e)),
    };
    let mut texts: Vec<String> = Vec::new();
    proof {
        assert(string_views(texts@) =~= Seq::<Seq<char>>::empty());
    }
    loop
        invariant
            zstd_decoded(compressed@) == Some(data@),
            es == tar_listing(data@).0,
            entries_state(entries).0 == data@,
            entries_state(entries).1 <= es.len(),
            entries_state(entries).1 * 512 <= data@.len(),
            csv_scan(data@, es.subrange(0, entries_state(entries).1 as int)) == Ok::<
                Seq<Seq<char>>,
                ScanFailure,
            >(string_views(texts@)),
        decreases data@.len() - 512 * entries_state(entries).1,
    {
        let ghost i: int = entries_state(entries).1 as int;
        match next_entry(&mut entries) {
            None => {
                proof {
                    assert(es.subrange(0, i as int) =~= es);
                }
                return Ok(texts);
            },
            Some(Err(e)) => {
                proof {
                    assert(es.subrange(0, i as int) =~= es);
                }
                return Err(DecompressError::ContainerFormatError(e));
            },
            Some(Ok(entry)) => {
                let path = entry_path_text(&entry);
                proof {
                    assert(es.subrange(0, i + 1).drop_last() =~= es.subrange(0, i as int));
                    assert(es.subrange(0, i + 1).last() == es[i as int]);
                }
                if !entry_fits(data.as_slice(), &entry) {
                    proof {
                        lemma_scan_stops(data@, es, i + 1);
                    }
                    return Err(DecompressError::ContainerFormatError(truncated_entry_error()));
                }
                if is_csv_path(path.as_str()) {
                    let content = match entry_content(data.as_slice(), &entry) {
                        Some(c) => c,
                        None => {
                            proof {
                                lemma_scan_stops(data@, es, i + 1);
                            }
                            return Err(
                                DecompressError::ContainerFormatError(
                                    truncated_entry_error(),
                                ),
                            );
                        },
                    };
                    let ghost bytes = content@;
                    let text = match entry_text(content) {
                        Ok(t) => t,
                        Err(e) => {
                            proof {
                                lemma_scan_stops(data@, es, i + 1);
                            }
                            return Err(e);
                        },
                    };
                    let ghost before = texts@;
                    texts.push(text);
                    proof {
                        assert(string_views(texts@) =~= string_views(before).push(
                            decode_utf8(bytes),
                        ));
                    }
                }
            },
        }
    }
}

/// An entry that is no transcript, inserted anywhere in an archive's listing,
/// never changes which path is chosen.
pub proof fn lemma_other_entries_ignored(es: Seq<Header>, k: int, h: Header)
    requires
        0 <= k <= es.len(),
        candidate_key(path_view(h)) is None,
    ensures
        latest_path(listing_paths(es.insert(k, h))) == latest_path(listing_paths(es)),
{
    assert(listing_paths(es.insert(k, h)) =~= listing_paths(es).insert(k, path_view(h)));
    lemma_other_paths_ignored(listing_paths(es), k, path_view(h));
}

/// Two results describe the same outcome: equal texts, or the same kind of
/// error.
pub open spec fn same_outcome(
    a: Result<Vec<String>, DecompressError>,
    b: Result<Vec<String>, DecompressError>,
) -> bool {
    match (a, b) {
        (Ok(x), Ok(y)) => string_views(x@) == string_views(y@),
        (Err(DecompressError::DecodeError(_)), Err(DecompressError::DecodeError(_))) => true,
        (
            Err(DecompressError::ContainerFormatError(_)),
            Err(DecompressError::ContainerFormatError(_)),
        ) => true,
        (Err(DecompressError::TextDecodeError(_)), Err(DecompressError::TextDecodeError(_))) => true,
        (Err(DecompressError::MissingMetadata(_)), Err(DecompressError::MissingMetadata(_))) => true,
        _ => false,
    }
}

/// Extracting the newest transcript twice from the same compressed bytes, in
/// either mode, gives the same outcome both times.
pub proof fn lemma_latest_is_deterministic(
    compressed: Seq<u8>,
    a: Result<Vec<String>, DecompressError>,
    b: Result<Vec<String>, DecompressError>,
)
    requires
        match zstd_decoded(compressed) {
            None => a matches Err(DecompressError::DecodeError(_)),
            Some(d) => is_latest_of(d, a),
        },
        match zstd_decoded(compressed) {
            None => b matches Err(DecompressError::DecodeError(_)),
            Some(d) => is_latest_of(d, b),
        },
    ensures
        same_outcome(a, b),
{
    if let (Ok(x), Ok(y)) = (a, b) {
        assert(string_views(x@) =~= string_views(y@));
    }
}

/// Once a scan has stopped on a prefix, it stops the same way on the whole.
proof fn lemma_scan_stops(data: Seq<u8>, es: Seq<Header>, n: int)
    requires
        0 <= n <= es.len(),
        csv_scan(data, es.subrange(0, n)) is Err,
    ensures
        csv_scan(data, es) == csv_scan(data, es.subrange(0, n)),
    decreases es.len() - n,
{
    if n < es.len() {
        assert(es.subrange(0, n + 1).drop_last() =~= es.subrange(0, n));
        lemma_scan_stops(data, es, n + 1);
    } else {
        assert(es.subrange(0, n) =~= es);
    }
}

/// Whether `path` lies under `transcriptions/` and ends in `.csv`.
pub fn is_csv_path(path: &str) -> (r: bool)
    ensures
        r == is_csv_entry(path@),
{
    crate::naming::has_prefix(path, "transcriptions/") && crate::naming::has_suffix(path, ".csv")
}

} // verus!
