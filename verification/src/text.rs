//! Character-level text operations with their mathematical models:
//! search, split, join, replace, suffix tests and trimming.
use vstd::prelude::*;

verus! {

/// `pat` occurs in `s` starting at index `k`.
pub open spec fn occurs_at(s: Seq<char>, pat: Seq<char>, k: int) -> bool {
    &&& 0 <= k
    &&& k + pat.len() <= s.len()
    &&& s.subrange(k, k + pat.len()) == pat
}

/// The first index at or after `from` where `pat` occurs in `s`.
pub open spec fn find_from(s: Seq<char>, pat: Seq<char>, from: int) -> Option<int>
    decreases s.len() + 1 - from,
{
    if from < 0 || from + pat.len() > s.len() {
        None
    } else if occurs_at(s, pat, from) {
        Some(from)
    } else {
        find_from(s, pat, from + 1)
    }
}

/// What `find_from` returns is the first occurrence at or after `from`.
pub proof fn lemma_find_from(s: Seq<char>, pat: Seq<char>, from: int)
    requires
        0 <= from,
    ensures
        find_from(s, pat, from) matches Some(k) ==> {
            &&& from <= k
            &&& occurs_at(s, pat, k)
            &&& forall|j: int| from <= j < k ==> !occurs_at(s, pat, j)
        },
        find_from(s, pat, from) is None ==> forall|j: int| from <= j ==> !occurs_at(s, pat, j),
    decreases s.len() + 1 - from,
{
    if from + pat.len() > s.len() {
    } else if occurs_at(s, pat, from) {
    } else {
        lemma_find_from(s, pat, from + 1);
    }
}

/// The pieces of `s` between the non-overlapping leftmost occurrences of `sep`,
/// starting the scan at `pos`.
pub open spec fn split_from(s: Seq<char>, sep: Seq<char>, pos: int) -> Seq<Seq<char>>
    decreases s.len() + 1 - pos,
{
    if pos < 0 || pos > s.len() || sep.len() == 0 {
        seq![s.subrange(pos, s.len() as int)]
    } else {
        match find_from(s, sep, pos) {
            Some(k) => {
                proof {
                    lemma_find_from(s, sep, pos);
                }
                seq![s.subrange(pos, k)] + split_from(s, sep, k + sep.len())
            },
            None => seq![s.subrange(pos, s.len() as int)],
        }
    }
}

/// `s` split at every occurrence of the non-empty separator `sep` (as `str::split`).
pub open spec fn split_seq(s: Seq<char>, sep: Seq<char>) -> Seq<Seq<char>> {
    split_from(s, sep, 0)
}

/// The pieces joined with `sep` between them (as `[T]::join`).
pub open spec fn join_seq(parts: Seq<Seq<char>>, sep: Seq<char>) -> Seq<char>
    decreases parts.len(),
{
    if parts.len() == 0 {
        Seq::empty()
    } else if parts.len() == 1 {
        parts[0]
    } else {
        join_seq(parts.drop_last(), sep) + sep + parts.last()
    }
}

/// Every occurrence of `from` replaced with `to` (as `str::replace`).
pub open spec fn replace_all(s: Seq<char>, from: Seq<char>, to: Seq<char>) -> Seq<char> {
    join_seq(split_seq(s, from), to)
}

/// How many non-overlapping occurrences of `pat` `s` holds (as `str::matches(..).count()`).
pub open spec fn count_matches(s: Seq<char>, pat: Seq<char>) -> int {
    split_seq(s, pat).len() - 1
}

/// `s` ends with `suffix`.
pub open spec fn ends_with(s: Seq<char>, suffix: Seq<char>) -> bool {
    suffix.len() <= s.len() && s.subrange(s.len() - suffix.len(), s.len() as int) == suffix
}

/// `s` starts with `prefix`.
pub open spec fn starts_with(s: Seq<char>, prefix: Seq<char>) -> bool {
    prefix.len() <= s.len() && s.subrange(0, prefix.len() as int) == prefix
}

/// `s` with every trailing `c` removed (as `str::trim_end_matches(c)`).
pub open spec fn trim_end_char(s: Seq<char>, c: char) -> Seq<char>
    decreases s.len(),
{
    if s.len() > 0 && s.last() == c {
        trim_end_char(s.drop_last(), c)
    } else {
        s
    }
}

/// The characters of a string, in order.
pub fn chars_of(s: &str) -> (v: Vec<char>)
    ensures
        v@ == s@,
{
    let mut v: Vec<char> = Vec::new();
    for c in it: s.chars()
        invariant
            it.seq() == s@,
            v@ == it.seq().take(it.index() as int),
    {
        v.push(c);
    }
    v
}

/// The string made of the given characters: calls `Iterator::collect`
/// into a `String`, which pushes them in order.
#[verifier::external_body]
pub(crate) fn string_of(v: &[char]) -> (s: String)
    ensures
        s@ == v@,
{
    v.iter().collect()
}

/// Appends all of `src` to `dst`.
pub fn append_chars(dst: &mut Vec<char>, src: &[char])
    ensures
        final(dst)@ == old(dst)@ + src@,
{
    let n = src.len();
    for i in 0..n
        invariant
            n == src@.len(),
            dst@ == old(dst)@ + src@.take(i as int),
    {
        dst.push(src[i]);
        assert(src@.take(i + 1) == src@.take(i as int).push(src@[i as int]));
    }
    assert(src@.take(n as int) == src@);
}

/// The characters `s[start..end]`.
pub fn slice_chars(s: &[char], start: usize, end: usize) -> (r: Vec<char>)
    requires
        start <= end <= s@.len(),
    ensures
        r@ == s@.subrange(start as int, end as int),
{
    let mut r: Vec<char> = Vec::new();
    let mut i = start;
    while i < end
        invariant
            start <= i <= end <= s@.len(),
            r@ == s@.subrange(start as int, i as int),
        decreases end - i,
    {
        r.push(s[i]);
        assert(s@.subrange(start as int, i + 1) == s@.subrange(start as int, i as int).push(
            s@[i as int],
        ));
        i = i + 1;
    }
    r
}

/// Whether `pat` occurs in `s` at index `k`.
pub fn occurs_at_exec(s: &[char], pat: &[char], k: usize) -> (b: bool)
    ensures
        b == occurs_at(s@, pat@, k as int),
{
    if k > s.len() || pat.len() > s.len() - k {
        return false;
    }
    let n = pat.len();
    let mut j: usize = 0;
    while j < n
        invariant
            n == pat@.len(),
            k + n <= s.len(),
            j <= n,
            forall|t: int| 0 <= t < j ==> s@[k + t] == pat@[t],
        decreases n - j,
    {
        if s[k + j] != pat[j] {
            assert(s@.subrange(k as int, k + n)[j as int] != pat@[j as int]);
            return false;
        }
        j = j + 1;
    }
    assert(s@.subrange(k as int, k + n) =~= pat@);
    true
}

/// The first index at or after `from` where `pat` occurs in `s`.
pub fn find_from_exec(s: &[char], pat: &[char], from: usize) -> (r: Option<usize>)
    ensures
        r matches Some(k) ==> find_from(s@, pat@, from as int) == Some(k as int) && k + pat@.len()
            <= s@.len(),
        r is None ==> find_from(s@, pat@, from as int) is None,
{
    if pat.len() > s.len() || from > s.len() - pat.len() {
        return None;
    }
    let last = s.len() - pat.len();
    let mut k = from;
    loop
        invariant
            from <= k <= last,
            last == s@.len() - pat@.len(),
            find_from(s@, pat@, from as int) == find_from(s@, pat@, k as int),
        decreases last - k,
    {
        if occurs_at_exec(s, pat, k) {
            return Some(k);
        }
        if k == last {
            assert(find_from(s@, pat@, k + 1) is None);
            return None;
        }
        k = k + 1;
    }
}

/// `s` split at every occurrence of `sep` (non-empty).
pub fn split_exec(s: &[char], sep: &[char]) -> (parts: Vec<Vec<char>>)
    requires
        sep@.len() > 0,
    ensures
        parts@.map_values(|p: Vec<char>| p@) == split_seq(s@, sep@),
{
    let mut parts: Vec<Vec<char>> = Vec::new();
    let mut pos: usize = 0;
    loop
        invariant
            sep@.len() > 0,
            pos <= s@.len(),
            parts@.map_values(|p: Vec<char>| p@) + split_from(s@, sep@, pos as int) == split_seq(
                s@,
                sep@,
            ),
        decreases s@.len() + 1 - pos,
    {
        let ghost before = parts@.map_values(|p: Vec<char>| p@);
        match find_from_exec(s, sep, pos) {
            Some(k) => {
                proof {
                    lemma_find_from(s@, sep@, pos as int);
                    assert(find_from(s@, sep@, pos as int) == Some(k as int));
                }
                let piece = slice_chars(s, pos, k);
                parts.push(piece);
                assert(parts@.map_values(|p: Vec<char>| p@) == before.push(piece@));
                assert(before + split_from(s@, sep@, pos as int) == before.push(piece@)
                    + split_from(s@, sep@, k + sep@.len()));
                assert(k + sep@.len() <= s.len());
                pos = k + sep.len();
            },
            None => {
                let piece = slice_chars(s, pos, s.len());
                parts.push(piece);
                assert(parts@.map_values(|p: Vec<char>| p@) == before.push(piece@));
                assert(split_from(s@, sep@, pos as int) == seq![piece@]);
                assert(before.push(piece@) == before + seq![piece@]);
                return parts;
            },
        }
    }
}

/// The pieces joined with `sep` between them.
pub fn join_exec(parts: &Vec<Vec<char>>, sep: &[char]) -> (r: Vec<char>)
    ensures
        r@ == join_seq(parts@.map_values(|p: Vec<char>| p@), sep@),
{
    let ghost views = parts@.map_values(|p: Vec<char>| p@);
    let mut r: Vec<char> = Vec::new();
    let n = parts.len();
    for i in 0..n
        invariant
            n == parts@.len(),
            views == parts@.map_values(|p: Vec<char>| p@),
            r@ == join_seq(views.take(i as int), sep@),
    {
        let ghost prev = r@;
        if i > 0 {
            append_chars(&mut r, sep);
        }
        append_chars(&mut r, parts[i].as_slice());
        assert(views.take(i + 1).drop_last() == views.take(i as int));
        assert(views.take(i + 1).last() == parts@[i as int]@);
        if i == 0 {
            assert(views.take(1).len() == 1);
        }
    }
    assert(views.take(n as int) == views);
    r
}

/// `s` with every occurrence of `from` (non-empty) replaced by `to`.
pub fn replace_exec(s: &[char], from: &[char], to: &[char]) -> (r: Vec<char>)
    requires
        from@.len() > 0,
    ensures
        r@ == replace_all(s@, from@, to@),
{
    let parts = split_exec(s, from);
    join_exec(&parts, to)
}

/// Whether `s` ends with `suffix`.
pub fn ends_with_exec(s: &[char], suffix: &[char]) -> (b: bool)
    ensures
        b == ends_with(s@, suffix@),
{
    if suffix.len() > s.len() {
        return false;
    }
    let k = s.len() - suffix.len();
    let b = occurs_at_exec(s, suffix, k);
    b
}

/// `s` with every trailing `c` removed.
pub fn trim_end_char_exec(s: &[char], c: char) -> (r: Vec<char>)
    ensures
        r@ == trim_end_char(s@, c),
{
    let mut end = s.len();
    assert(s@.subrange(0, s@.len() as int) == s@);
    while end > 0 && s[end - 1] == c
        invariant
            end <= s@.len(),
            trim_end_char(s@.subrange(0, end as int), c) == trim_end_char(s@, c),
        decreases end,
    {
        assert(s@.subrange(0, end as int).drop_last() == s@.subrange(0, end - 1));
        end = end - 1;
    }
    assert(s@.subrange(0, s@.len() as int) == s@);
    slice_chars(s, 0, end)
}

/// Whether two character sequences are equal.
pub fn chars_eq(a: &[char], b: &[char]) -> (r: bool)
    ensures
        r == (a@ == b@),
{
    if a.len() != b.len() {
        return false;
    }
    let r = occurs_at_exec(a, b, 0);
    assert(a@.subrange(0, b@.len() as int) == a@);
    r
}

} // verus!
