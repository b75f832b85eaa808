//! The naming convention of transcript entries, `transcriptions/<digits>.csv`,
//! and the choice of the entry with the largest number.
use vstd::prelude::*;

verus! {

/// The directory that holds the transcripts.
pub open spec fn dir_prefix() -> Seq<char> {
    "transcriptions/"@
}

/// The extension of a transcript file.
pub open spec fn csv_ext() -> Seq<char> {
    ".csv"@
}

pub open spec fn starts_with(s: Seq<char>, p: Seq<char>) -> bool {
    p.len() <= s.len() && s.subrange(0, p.len() as int) == p
}

pub open spec fn ends_with(s: Seq<char>, x: Seq<char>) -> bool {
    x.len() <= s.len() && s.subrange(s.len() - x.len(), s.len() as int) == x
}

/// Where the last path segment starts: just after the last `/`, or at 0.
pub open spec fn name_start(p: Seq<char>) -> int
    decreases p.len(),
{
    if p.len() == 0 {
        0
    } else if p.last() == '/' {
        p.len() as int
    } else {
        name_start(p.drop_last())
    }
}

/// The last path segment.
pub open spec fn file_name(p: Seq<char>) -> Seq<char> {
    p.subrange(name_start(p), p.len() as int)
}

pub open spec fn is_digit(c: char) -> bool {
    '0' <= c && c <= '9'
}

pub open spec fn digit_value(c: char) -> nat {
    ((c as u32) - ('0' as u32)) as nat
}

/// A non-empty run of decimal digits, with no sign.
pub open spec fn is_numeral(s: Seq<char>) -> bool {
    s.len() > 0 && forall|i: int| 0 <= i < s.len() ==> is_digit(#[trigger] s[i])
}

/// The base-10 value of a run of digits.
pub open spec fn digits_value(s: Seq<char>) -> nat
    decreases s.len(),
{
    if s.len() == 0 {
        0
    } else {
        digits_value(s.drop_last()) * 10 + digit_value(s.last())
    }
}

/// The number of a transcript path, or `None` where the path is no transcript:
/// it lies under `transcriptions/`, ends in `.csv`, and its last segment without
/// `.csv` is a numeral whose value fits in a `u64`.
pub open spec fn candidate_key(p: Seq<char>) -> Option<nat> {
    if starts_with(p, dir_prefix()) && ends_with(p, csv_ext()) && ends_with(
        file_name(p),
        csv_ext(),
    ) {
        let f = file_name(p);
        let stem = f.subrange(0, f.len() - csv_ext().len());
        if is_numeral(stem) && digits_value(stem) <= u64::MAX {
            Some(digits_value(stem))
        } else {
            None
        }
    } else {
        None
    }
}

/// The transcript chosen from paths seen in this order, with its number: the one
/// with the largest number; of several with that number, the first.
pub open spec fn latest_candidate(paths: Seq<Seq<char>>) -> Option<(nat, Seq<char>)>
    decreases paths.len(),
{
    if paths.len() == 0 {
        None
    } else {
        let prev = latest_candidate(paths.drop_last());
        match candidate_key(paths.last()) {
            None => prev,
            Some(k) => match prev {
                None => Some((k, paths.last())),
                Some((m, p)) => if k > m {
                    Some((k, paths.last()))
                } else {
                    Some((m, p))
                },
            },
        }
    }
}

/// The path of the transcript chosen from `paths`.
pub open spec fn latest_path(paths: Seq<Seq<char>>) -> Option<Seq<char>> {
    match latest_candidate(paths) {
        Some((_, p)) => Some(p),
        None => None,
    }
}

proof fn lemma_digits_value_grows(s: Seq<char>, i: int, j: int)
    requires
        0 <= i <= j <= s.len(),
    ensures
        digits_value(s.subrange(0, i)) <= digits_value(s.subrange(0, j)),
    decreases j - i,
{
    if i < j {
        lemma_digits_value_grows(s, i, j - 1);
        assert(s.subrange(0, j).drop_last() =~= s.subrange(0, j - 1));
    }
}

pub(crate) fn has_prefix(s: &str, p: &str) -> (r: bool)
    ensures
        r == starts_with(s@, p@),
{
    let n = s.unicode_len();
    let m = p.unicode_len();
    if m > n {
        return false;
    }
    let mut i: usize = 0;
    while i < m
        invariant
            m == p@.len(),
            n == s@.len(),
            m <= n,
            i <= m,
            forall|k: int| 0 <= k < i ==> s@[k] == p@[k],
        decreases m - i,
    {
        if s.get_char(i) != p.get_char(i) {
            assert(s@.subrange(0, m as int)[i as int] != p@[i as int]);
            return false;
        }
        i += 1;
    }
    assert(s@.subrange(0, m as int) =~= p@);
    true
}

pub(crate) fn has_suffix(s: &str, x: &str) -> (r: bool)
    ensures
        r == ends_with(s@, x@),
{
    let n = s.unicode_len();
    let m = x.unicode_len();
    if m > n {
        return false;
    }
    let d = n - m;
    let mut i: usize = 0;
    while i < m
        invariant
            m == x@.len(),
            n == s@.len(),
            d == n - m,
            i <= m,
            forall|k: int| 0 <= k < i ==> s@[d + k] == x@[k],
        decreases m - i,
    {
        if s.get_char(d + i) != x.get_char(i) {
            assert(s@.subrange(d as int, n as int)[i as int] != x@[i as int]);
            return false;
        }
        i += 1;
    }
    assert(s@.subrange(d as int, n as int) =~= x@);
    true
}

/// Index where the last segment of `s` starts.
fn find_name_start(s: &str) -> (r: usize)
    ensures
        r as int == name_start(s@),
        r <= s@.len(),
{
    let n = s.unicode_len();
    let mut j: usize = n;
    assert(s@.subrange(0, n as int) =~= s@);
    while j > 0 && s.get_char(j - 1) != '/'
        invariant
            n == s@.len(),
            j <= n,
            name_start(s@) == name_start(s@.subrange(0, j as int)),
        decreases j,
    {
        assert(s@.subrange(0, j as int).drop_last() =~= s@.subrange(0, j - 1));
        j -= 1;
    }
    if j > 0 {
        assert(s@.subrange(0, j as int).last() == '/');
    } else {
        assert(s@.subrange(0, 0).len() == 0);
    }
    j
}

/// The value of `s` read as a numeral, where it is one and fits in a `u64`.
fn parse_numeral(s: &str) -> (r: Option<u64>)
    ensures
        r matches Some(v) ==> is_numeral(s@) && v as nat == digits_value(s@),
        r is None ==> !(is_numeral(s@) && digits_value(s@) <= u64::MAX),
{
    let n = s.unicode_len();
    if n == 0 {
        return None;
    }
    let mut v: u64 = 0;
    let mut i: usize = 0;
    while i < n
        invariant
            n == s@.len(),
            i <= n,
            v as nat == digits_value(s@.subrange(0, i as int)),
            forall|k: int| 0 <= k < i ==> is_digit(#[trigger] s@[k]),
        decreases n - i,
    {
        let c = s.get_char(i);
        if !('0' <= c && c <= '9') {
            return None;
        }
        proof {
            assert(s@.subrange(0, i + 1).drop_last() =~= s@.subrange(0, i as int));
        }
        let d = (c as u32 - '0' as u32) as u64;
        let next = match v.checked_mul(10) {
            Some(t) => t.checked_add(d),
            None => None,
        };
        match next {
            Some(t) => {
                v = t;
            },
            None => {
                proof {
                    lemma_digits_value_grows(s@, i + 1, n as int);
                    assert(s@.subrange(0, n as int) =~= s@);
                }
                return None;
            },
        }
        i += 1;
    }
    assert(s@.subrange(0, n as int) =~= s@);
    Some(v)
}

/// The number of a transcript path, `None` for any other path.
pub fn parse_key(path: &str) -> (r: Option<u64>)
    ensures
        r matches Some(k) ==> candidate_key(path@) == Some(k as nat),
        r is None ==> candidate_key(path@) is None,
{
    let ext = ".csv";
    if !has_prefix(path, "transcriptions/") || !has_suffix(path, ext) {
        return None;
    }
    let start = find_name_start(path);
    let file = path.substring_char(start, path.unicode_len());
    if !has_suffix(file, ext) {
        return None;
    }
    let stem = file.substring_char(0, file.unicode_len() - ext.unicode_len());
    parse_numeral(stem)
}

/// Tracks, over one pass through an archive, the transcript with the largest
/// number seen so far.
pub struct Selector {
    best: Option<(u64, String)>,
    seen: Ghost<Seq<Seq<char>>>,
}

impl Selector {
    /// The paths observed so far, in order.
    pub closed spec fn seen(&self) -> Seq<Seq<char>> {
        self.seen@
    }

    pub closed spec fn wf(&self) -> bool {
        match self.best {
            None => latest_candidate(self.seen@) is None,
            Some((k, p)) => latest_candidate(self.seen@) == Some((k as nat, p@)),
        }
    }

    pub fn new() -> (r: Selector)
        ensures
            r.wf(),
            r.seen() == Seq::<Seq<char>>::empty(),
    {
        Selector { best: None, seen: Ghost(Seq::empty()) }
    }

    /// Takes the next path of the pass into account: it replaces the current
    /// choice only where its number is strictly larger.
    pub fn observe(&mut self, path: String)
        requires
            old(self).wf(),
        ensures
            final(self).wf(),
            final(self).seen() == old(self).seen().push(path@),
    {
        let ghost seen_before = self.seen@;
        let ghost p = path@;
        proof {
            assert(seen_before.push(p).drop_last() =~= seen_before);
        }
        match parse_key(path.as_str()) {
            None => {},
            Some(k) => {
                let replace = match &self.best {
                    None => true,
                    Some((m, _)) => k > *m,
                };
                if replace {
                    self.best = Some((k, path));
                }
            },
        }
        self.seen = Ghost(seen_before.push(p));
    }

    /// The path of the transcript chosen so far.
    pub fn selected(&self) -> (r: Option<&String>)
        requires
            self.wf(),
        ensures
            r matches Some(p) ==> latest_path(self.seen()) == Some(p@),
            r is None ==> latest_path(self.seen()) is None,
    {
        match &self.best {
            None => None,
            Some((_, p)) => Some(p),
        }
    }

    /// The number of the transcript chosen so far.
    pub fn selected_key(&self) -> (r: Option<u64>)
        requires
            self.wf(),
        ensures
            r matches Some(k) ==> latest_candidate(self.seen()) matches Some((m, _)) && m == k,
            r is None ==> latest_candidate(self.seen()) is None,
    {
        match &self.best {
            None => None,
            Some((k, _)) => Some(*k),
        }
    }

    /// The chosen path, taken out of the selector.
    pub fn into_selected(self) -> (r: Option<String>)
        requires
            self.wf(),
        ensures
            r matches Some(p) ==> latest_path(self.seen()) == Some(p@),
            r is None ==> latest_path(self.seen()) is None,
    {
        match self.best {
            None => None,
            Some((_, p)) => Some(p),
        }
    }
}

/// The index of the transcript chosen from `paths`, from a full list of them.
pub fn select_latest(paths: &Vec<String>) -> (r: Option<usize>)
    ensures
        r matches Some(i) ==> i < paths@.len() && latest_path(paths@.map_values(|s: String| s@))
            == Some(paths@[i as int]@),
        r is None ==> latest_path(paths@.map_values(|s: String| s@)) is None,
{
    let ghost views = paths@.map_values(|s: String| s@);
    let mut best: Option<(u64, usize)> = None;
    let mut i: usize = 0;
    while i < paths.len()
        invariant
            i <= paths@.len(),
            views == paths@.map_values(|s: String| s@),
            match best {
                None => latest_candidate(views.subrange(0, i as int)) is None,
                Some((k, j)) => j < i && latest_candidate(views.subrange(0, i as int)) == Some(
                    (k as nat, views[j as int]),
                ),
            },
        decreases paths@.len() - i,
    {
        proof {
            assert(views.subrange(0, i + 1).drop_last() =~= views.subrange(0, i as int));
        }
        match parse_key(paths[i].as_str()) {
            None => {},
            Some(k) => {
                let replace = match best {
                    None => true,
                    Some((m, _)) => k > m,
                };
                if replace {
                    best = Some((k, i));
                }
            },
        }
        i += 1;
    }
    assert(views.subrange(0, paths@.len() as int) =~= views);
    match best {
        None => None,
        Some((_, j)) => Some(j),
    }
}

/// For any paths seen in any order: no transcript is chosen exactly when none of
/// the paths is a transcript; otherwise the chosen path is one of them, a
/// transcript whose number is at least that of every other transcript, and no
/// earlier path carries the same number.
pub proof fn lemma_latest_is_first_maximum(paths: Seq<Seq<char>>)
    ensures
        latest_candidate(paths) is None <==> forall|i: int|
            0 <= i < paths.len() ==> (#[trigger] candidate_key(paths[i])) is None,
        latest_candidate(paths) matches Some((k, p)) ==> exists|i: int|
            0 <= i < paths.len() && paths[i] == p && candidate_key(paths[i]) == Some(k) && (
            forall|j: int| 0 <= j < i ==> #[trigger] candidate_key(paths[j]) != Some(k)),
        latest_candidate(paths) matches Some((k, p)) ==> forall|j: int|
            0 <= j < paths.len() ==> (#[trigger] candidate_key(paths[j]) matches Some(n)
                ==> n <= k),
    decreases paths.len(),
{
    if paths.len() > 0 {
        let init = paths.drop_last();
        let last = paths.len() - 1;
        lemma_latest_is_first_maximum(init);
        assert forall|i: int| 0 <= i < last implies paths[i] == init[i] by {}
        match latest_candidate(init) {
            Some((m, q)) => {
                let i0 = choose|i: int|
                    0 <= i < init.len() && init[i] == q && candidate_key(init[i]) == Some(m) && (
                    forall|j: int| 0 <= j < i ==> #[trigger] candidate_key(init[j]) != Some(m));
                assert(paths[i0] == q);
            },
            None => {},
        }
    }
}

/// A path that is no transcript, inserted anywhere among the others, never
/// changes the choice.
pub proof fn lemma_other_paths_ignored(paths: Seq<Seq<char>>, k: int, other: Seq<char>)
    requires
        0 <= k <= paths.len(),
        candidate_key(other) is None,
    ensures
        latest_candidate(paths.insert(k, other)) == latest_candidate(paths),
    decreases paths.len(),
{
    if k == paths.len() {
        assert(paths.insert(k, other).drop_last() =~= paths);
    } else {
        lemma_other_paths_ignored(paths.drop_last(), k, other);
        assert(paths.insert(k, other).drop_last() =~= paths.drop_last().insert(k, other));
        assert(paths.insert(k, other).last() == paths.last());
    }
}

/// The chosen path, where there is one, is a transcript.
pub proof fn lemma_chosen_is_transcript(paths: Seq<Seq<char>>)
    ensures
        latest_path(paths) matches Some(p) ==> candidate_key(p) is Some,
{
    lemma_latest_is_first_maximum(paths);
}

} // verus!
