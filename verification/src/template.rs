//! Templates and their variables: how a line is matched against the
//! literal parts of its template, and how a template is filled back in.
use vstd::prelude::*;

use crate::text::{
    chars_of, count_matches, ends_with, ends_with_exec, find_from, find_from_exec, join_seq,
    lemma_find_from, occurs_at, replace_all, replace_exec, slice_chars, split_exec, split_from,
    split_seq, starts_with, string_of,
};
use std::hash::{Hash, Hasher};

verus! {

/// The placeholder that the clustering step writes for a variable token.
pub open spec fn wild_mark() -> Seq<char> {
    seq!['<', '*', '>']
}

/// The placeholder that stored templates use for a variable.
pub open spec fn var_mark() -> Seq<char> {
    seq!['<', 'V', 'A', 'R', '>']
}

/// What a tab is written as before a line is handed to the clustering step.
pub open spec fn tab_mark() -> Seq<char> {
    seq!['_', '_', 'T', 'A', 'B', '_', '_']
}

/// The outcome of matching `content` against the literal `parts` of a
/// template from part `i` on, with the scan at `pos`: the variables found,
/// where the scan ended, and whether every part was found.
pub open spec fn extract_scan(
    content: Seq<char>,
    parts: Seq<Seq<char>>,
    ends_wild: bool,
    i: int,
    pos: int,
) -> (Seq<Seq<char>>, int, bool)
    decreases parts.len() - i,
{
    if i < 0 || i >= parts.len() || pos < 0 || pos > content.len() {
        (Seq::empty(), pos, true)
    } else if i == parts.len() - 1 && parts[i].len() == 0 && ends_wild {
        (seq![content.subrange(pos, content.len() as int)], content.len() as int, true)
    } else {
        match find_from(content, parts[i], pos) {
            None => (Seq::empty(), pos, false),
            Some(k) => {
                let rest = extract_scan(content, parts, ends_wild, i + 1, k + parts[i].len());
                if i > 0 {
                    (seq![content.subrange(pos, k)] + rest.0, rest.1, rest.2)
                } else {
                    rest
                }
            },
        }
    }
}

/// The literal parts of a clustering template.
pub open spec fn literal_parts(template: Seq<char>) -> Seq<Seq<char>> {
    split_seq(template, wild_mark())
}

/// The full outcome of matching `content` against `template`.
pub open spec fn extraction(content: Seq<char>, template: Seq<char>) -> (
    Seq<Seq<char>>,
    int,
    bool,
) {
    extract_scan(content, literal_parts(template), ends_with(template, wild_mark()), 0, 0)
}

/// The variables of `content` under the clustering `template`.
pub open spec fn variables_of(content: Seq<char>, template: Seq<char>) -> Seq<Seq<char>> {
    extraction(content, template).0
}

/// The template parts with the variables put between them: part `j` is
/// followed by variable `j` where there is one.
pub open spec fn fill_from(parts: Seq<Seq<char>>, vars: Seq<Seq<char>>, j: int) -> Seq<char>
    decreases parts.len() - j,
{
    if j < 0 || j >= parts.len() {
        Seq::empty()
    } else {
        parts[j] + (if j < vars.len() {
            vars[j]
        } else {
            Seq::empty()
        }) + fill_from(parts, vars, j + 1)
    }
}

/// A template filled with variables, its parts split at `mark`.
pub open spec fn fill(template: Seq<char>, mark: Seq<char>, vars: Seq<Seq<char>>) -> Seq<char> {
    fill_from(split_seq(template, mark), vars, 0)
}

/// A line with each tab written as `__TAB__`.
pub open spec fn escape_tabs(s: Seq<char>) -> Seq<char> {
    replace_all(s, seq!['\t'], tab_mark())
}

/// The hash that a stored template is known by.
pub uninterp spec fn template_hash(s: Seq<char>) -> u64;

/// Hashes a string with `std::collections::hash_map::DefaultHasher::new()`
/// (fixed keys) through `str`'s `Hash` impl; the result is named `template_hash`.
#[verifier::external_body]
pub(crate) fn hash_template(s: &str) -> (h: u64)
    ensures
        h == template_hash(s@),
{
    let mut hasher = std::collections::hash_map::DefaultHasher::new();
    s.hash(&mut hasher);
    hasher.finish()
}

/// Splitting never yields an empty list of pieces.
pub proof fn lemma_split_from_nonempty(s: Seq<char>, sep: Seq<char>, pos: int)
    ensures
        split_from(s, sep, pos).len() >= 1,
{
}

/// A template that ends with the placeholder has at least two literal parts.
pub proof fn lemma_ends_wild_two_parts(template: Seq<char>)
    requires
        ends_with(template, wild_mark()),
    ensures
        literal_parts(template).len() >= 2,
{
    let w = wild_mark();
    assert(occurs_at(template, w, template.len() - w.len()));
    lemma_find_from(template, w, 0);
    lemma_split_from_nonempty(template, w, 0);
    match find_from(template, w, 0) {
        Some(k) => {
            lemma_split_from_nonempty(template, w, k + w.len());
        },
        None => {},
    }
}

/// From part `i` on, a complete scan finds one variable for each part after
/// the first that it passes.
proof fn lemma_scan_count(
    content: Seq<char>,
    parts: Seq<Seq<char>>,
    ends_wild: bool,
    i: int,
    pos: int,
)
    requires
        0 <= i < parts.len(),
        0 <= pos <= content.len(),
        i == 0 && ends_wild ==> parts.len() >= 2,
    ensures
        extract_scan(content, parts, ends_wild, i, pos).2 ==> extract_scan(
            content,
            parts,
            ends_wild,
            i,
            pos,
        ).0.len() == parts.len() - (if i == 0 {
            1int
        } else {
            i
        }),
    decreases parts.len() - i,
{
    if i == parts.len() - 1 && parts[i].len() == 0 && ends_wild {
    } else {
        lemma_find_from(content, parts[i], pos);
        match find_from(content, parts[i], pos) {
            None => {},
            Some(k) => {
                let rest = extract_scan(content, parts, ends_wild, i + 1, k + parts[i].len());
                if i + 1 < parts.len() {
                    lemma_scan_count(content, parts, ends_wild, i + 1, k + parts[i].len());
                } else {
                    assert(rest.0.len() == 0);
                }
                if i > 0 {
                    assert(extract_scan(content, parts, ends_wild, i, pos).0 == seq![
                        content.subrange(pos, k),
                    ] + rest.0);
                } else {
                    assert(extract_scan(content, parts, ends_wild, i, pos).0 == rest.0);
                }
            },
        }
    }
}

/// From part `i >= 1` on, a complete scan that ends at the end of `content`
/// reads back: the rest of `content` is the first variable found followed by
/// the template filled from part `i`.
proof fn lemma_scan_fill(
    content: Seq<char>,
    parts: Seq<Seq<char>>,
    ends_wild: bool,
    i: int,
    pos: int,
    pre: Seq<Seq<char>>,
)
    requires
        1 <= i < parts.len(),
        0 <= pos <= content.len(),
        pre.len() == i - 1,
        extract_scan(content, parts, ends_wild, i, pos).2,
        extract_scan(content, parts, ends_wild, i, pos).1 == content.len(),
    ensures
        extract_scan(content, parts, ends_wild, i, pos).0.len() >= 1,
        content.subrange(pos, content.len() as int) == extract_scan(
            content,
            parts,
            ends_wild,
            i,
            pos,
        ).0[0] + fill_from(parts, pre + extract_scan(content, parts, ends_wild, i, pos).0, i),
    decreases parts.len() - i,
{
    let vs = extract_scan(content, parts, ends_wild, i, pos).0;
    if i == parts.len() - 1 && parts[i].len() == 0 && ends_wild {
        assert(fill_from(parts, pre + vs, i + 1) == Seq::<char>::empty());
        assert(fill_from(parts, pre + vs, i) =~= Seq::<char>::empty());
        assert(content.subrange(pos, content.len() as int) =~= vs[0] + Seq::<char>::empty());
    } else {
        lemma_find_from(content, parts[i], pos);
        let k = find_from(content, parts[i], pos)->Some_0;
        let next = k + parts[i].len();
        let rest = extract_scan(content, parts, ends_wild, i + 1, next);
        let v = content.subrange(pos, k);
        assert(vs == seq![v] + rest.0);
        assert(content.subrange(k, next) == parts[i]);
        if i + 1 < parts.len() {
            let pre2 = pre + seq![v];
            lemma_scan_fill(content, parts, ends_wild, i + 1, next, pre2);
            assert(pre2 + rest.0 =~= pre + vs);
            assert((pre + vs)[i] == rest.0[0]);
            assert(fill_from(parts, pre + vs, i) == parts[i] + rest.0[0] + fill_from(
                parts,
                pre + vs,
                i + 1,
            ));
            assert(content.subrange(pos, content.len() as int) =~= v + parts[i]
                + content.subrange(next, content.len() as int));
        } else {
            assert(rest.0 == Seq::<Seq<char>>::empty());
            assert((pre + vs).len() == i);
            assert(fill_from(parts, pre + vs, i + 1) == Seq::<char>::empty());
            assert(fill_from(parts, pre + vs, i) =~= parts[i]);
            assert(content.subrange(pos, content.len() as int) =~= v + parts[i]);
        }
    }
}

/// When every literal part of a clustering template is found in a line, the
/// line yields exactly one variable per placeholder in the template.
pub proof fn law_variable_count(content: Seq<char>, template: Seq<char>)
    requires
        extraction(content, template).2,
    ensures
        variables_of(content, template).len() == count_matches(template, wild_mark()),
{
    let parts = literal_parts(template);
    lemma_split_from_nonempty(template, wild_mark(), 0);
    if ends_with(template, wild_mark()) {
        lemma_ends_wild_two_parts(template);
    }
    lemma_scan_count(content, parts, ends_with(template, wild_mark()), 0, 0);
}

/// When a line starts with the first literal part of a template, every part
/// is found, and the scan ends at the end of the line, then filling the
/// template with the variables found gives the line back.
pub proof fn law_fill_extract(content: Seq<char>, template: Seq<char>)
    requires
        starts_with(content, literal_parts(template)[0]),
        extraction(content, template).2,
        extraction(content, template).1 == content.len(),
    ensures
        fill(template, wild_mark(), variables_of(content, template)) == content,
{
    let parts = literal_parts(template);
    let ew = ends_with(template, wild_mark());
    lemma_split_from_nonempty(template, wild_mark(), 0);
    if ew {
        lemma_ends_wild_two_parts(template);
    }
    let p0 = parts[0];
    assert(occurs_at(content, p0, 0));
    lemma_find_from(content, p0, 0);
    assert(find_from(content, p0, 0) == Some(0int));
    let vars = variables_of(content, template);
    let rest = extract_scan(content, parts, ew, 1, p0.len() as int);
    assert(vars == rest.0);
    assert(content.subrange(0, p0.len() as int) == p0);
    if parts.len() == 1 {
        assert(rest.0 == Seq::<Seq<char>>::empty());
        assert(fill_from(parts, vars, 1) == Seq::<char>::empty());
        assert(fill_from(parts, vars, 0) =~= p0);
        assert(content =~= content.subrange(0, p0.len() as int));
    } else {
        lemma_scan_fill(content, parts, ew, 1, p0.len() as int, Seq::empty());
        assert(Seq::<Seq<char>>::empty() + vars =~= vars);
        assert(fill_from(parts, vars, 0) == p0 + vars[0] + fill_from(parts, vars, 1));
        assert(content =~= content.subrange(0, p0.len() as int) + content.subrange(
            p0.len() as int,
            content.len() as int,
        ));
    }
}

/// The views of a list of strings.
pub open spec fn views(v: Seq<String>) -> Seq<Seq<char>> {
    v.map_values(|s: String| s@)
}

/// The variables of `content` under the clustering `template`: the text
/// between consecutive literal parts of the template, and, when the
/// template ends with a placeholder, everything after the last part. The
/// scan stops early when a part is not found.
pub fn extract_variables(content: &str, template: &str) -> (vars: Vec<String>)
    ensures
        views(vars@) == variables_of(content@, template@),
{
    let c = chars_of(content);
    let t = chars_of(template);
    let wild = ['<', '*', '>'];
    assert(wild@ == wild_mark());
    let parts = split_exec(t.as_slice(), &wild);
    let ghost pv = parts@.map_values(|p: Vec<char>| p@);
    let ends_wild = ends_with_exec(t.as_slice(), &wild);
    proof {
        lemma_split_from_nonempty(t@, wild_mark(), 0);
    }
    let last_idx = parts.len() - 1;
    let ghost full = extraction(c@, t@);
    let mut vars: Vec<String> = Vec::new();
    let mut pos: usize = 0;
    let mut i: usize = 0;
    while i < parts.len()
        invariant
            pv == parts@.map_values(|p: Vec<char>| p@),
            pv == literal_parts(t@),
            ends_wild == ends_with(t@, wild_mark()),
            full == extraction(c@, t@),
            c@ == content@,
            t@ == template@,
            last_idx == parts@.len() - 1,
            i <= parts@.len(),
            pos <= c@.len(),
            views(vars@) + extract_scan(c@, pv, ends_wild, i as int, pos as int).0 == full.0,
        decreases parts@.len() - i,
    {
        let part = &parts[i];
        assert(part@ == pv[i as int]);
        if i == last_idx && part.len() == 0 && ends_wild {
            let v = string_of(slice_chars(c.as_slice(), pos, c.len()).as_slice());
            let ghost before = views(vars@);
            vars.push(v);
            assert(views(vars@) == before.push(v@));
            assert(extract_scan(c@, pv, ends_wild, i as int, pos as int).0 == seq![v@]);
            assert(before.push(v@) == before + seq![v@]);
            return vars;
        }
        match find_from_exec(c.as_slice(), part.as_slice(), pos) {
            Some(k) => {
                proof {
                    lemma_find_from(c@, part@, pos as int);
                }
                let ghost before = views(vars@);
                let ghost rest = extract_scan(c@, pv, ends_wild, i + 1, k + part@.len());
                if i > 0 {
                    let v = string_of(slice_chars(c.as_slice(), pos, k).as_slice());
                    vars.push(v);
                    assert(views(vars@) == before.push(v@));
                    assert(extract_scan(c@, pv, ends_wild, i as int, pos as int).0 == seq![v@]
                        + rest.0);
                    assert(before.push(v@) + rest.0 == before + (seq![v@] + rest.0));
                } else {
                    assert(extract_scan(c@, pv, ends_wild, i as int, pos as int).0 == rest.0);
                }
                assert(k + part@.len() <= c.len());
                pos = k + part.len();
            },
            None => {
                assert(extract_scan(c@, pv, ends_wild, i as int, pos as int).0
                    == Seq::<Seq<char>>::empty());
                assert(views(vars@) + Seq::<Seq<char>>::empty() == views(vars@));
                return vars;
            },
        }
        i = i + 1;
    }
    assert(views(vars@) + Seq::<Seq<char>>::empty() == views(vars@));
    vars
}

/// A line with each tab written as `__TAB__`, the form in which it is
/// handed to the clustering step.
pub fn drain_input(content: &str) -> (r: String)
    ensures
        r@ == escape_tabs(content@),
{
    let c = chars_of(content);
    let tab = ['\t'];
    let mark = ['_', '_', 'T', 'A', 'B', '_', '_'];
    assert(tab@ == seq!['\t']);
    assert(mark@ == tab_mark());
    string_of(replace_exec(c.as_slice(), &tab, &mark).as_slice())
}

/// A clustering template in the form it is stored in: placeholders written `<VAR>`.
pub open spec fn stored_template(t: Seq<char>) -> Seq<char> {
    replace_all(t, wild_mark(), var_mark())
}

/// The clustering template a line is taken with: the cluster the
/// clustering step returned, or the escaped line itself when it returned none.
pub open spec fn base_template(escaped: Seq<char>, cluster: Option<String>) -> Seq<char> {
    match cluster {
        Some(c) => c@,
        None => escaped,
    }
}

/// From a line in escaped form and the cluster the clustering step
/// returned for it: the stored template (placeholders written `<VAR>`), its
/// hash, and the line's variables under the clustering template.
pub fn learned_template(escaped: &str, cluster: Option<String>) -> (r: (u64, String, Vec<String>))
    ensures
        r.1@ == stored_template(base_template(escaped@, cluster)),
        r.0 == template_hash(r.1@),
        views(r.2@) == variables_of(escaped@, base_template(escaped@, cluster)),
{
    let base = match cluster {
        Some(c) => c,
        None => string_of(chars_of(escaped).as_slice()),
    };
    let vars = extract_variables(escaped, base.as_str());
    let (h, t) = stored_template_of(base.as_str());
    (h, t, vars)
}

/// A clustering template in stored form, with its hash.
pub fn stored_template_of(cluster: &str) -> (r: (u64, String))
    ensures
        r.1@ == stored_template(cluster@),
        r.0 == template_hash(r.1@),
{
    let wild = ['<', '*', '>'];
    let var = ['<', 'V', 'A', 'R', '>'];
    assert(wild@ == wild_mark());
    assert(var@ == var_mark());
    let b = chars_of(cluster);
    let t = string_of(replace_exec(b.as_slice(), &wild, &var).as_slice());
    let h = hash_template(t.as_str());
    (h, t)
}

/// The template parts with the variables put between them.
pub fn fill_exec(parts: &Vec<Vec<char>>, vars: &Vec<Vec<char>>) -> (r: Vec<char>)
    ensures
        r@ == fill_from(
            parts@.map_values(|p: Vec<char>| p@),
            vars@.map_values(|v: Vec<char>| v@),
            0,
        ),
{
    let ghost pv = parts@.map_values(|p: Vec<char>| p@);
    let ghost vv = vars@.map_values(|v: Vec<char>| v@);
    let mut r: Vec<char> = Vec::new();
    let n = parts.len();
    for j in 0..n
        invariant
            n == parts@.len(),
            pv == parts@.map_values(|p: Vec<char>| p@),
            vv == vars@.map_values(|v: Vec<char>| v@),
            r@ + fill_from(pv, vv, j as int) == fill_from(pv, vv, 0),
    {
        let ghost before = r@;
        crate::text::append_chars(&mut r, parts[j].as_slice());
        if j < vars.len() {
            crate::text::append_chars(&mut r, vars[j].as_slice());
        }
        assert(fill_from(pv, vv, j as int) == pv[j as int] + (if j < vv.len() {
            vv[j as int]
        } else {
            Seq::<char>::empty()
        }) + fill_from(pv, vv, j + 1));
        assert(before + fill_from(pv, vv, j as int) == r@ + fill_from(pv, vv, j + 1));
    }
    assert(fill_from(pv, vv, n as int) == Seq::<char>::empty());
    assert(r@ + Seq::<char>::empty() == r@);
    r
}

// ---------------------------------------------------------------------------
// Stored templates split at `<VAR>` exactly as clustering templates split at
// `<*>`.

/// `pat` occurs nowhere in `s`.
pub open spec fn free_of(s: Seq<char>, pat: Seq<char>) -> bool {
    forall|j: int| !#[trigger] occurs_at(s, pat, j)
}

/// The first character of `pat` occurs nowhere else in it.
pub open spec fn head_unique(pat: Seq<char>) -> bool {
    pat.len() > 0 && forall|i: int| 1 <= i < pat.len() ==> #[trigger] pat[i] != pat[0]
}

proof fn lemma_find_shift(pre: Seq<char>, rest: Seq<char>, pat: Seq<char>, j: int)
    requires
        0 <= j,
    ensures
        find_from(pre + rest, pat, pre.len() + j) == (match find_from(rest, pat, j) {
            Some(k) => Some(k + pre.len()),
            None => None::<int>,
        }),
    decreases rest.len() + 1 - j,
{
    let s = pre + rest;
    let q = pre.len() + j;
    if q + pat.len() > s.len() {
    } else {
        assert(occurs_at(s, pat, q) == occurs_at(rest, pat, j)) by {
            assert(s.subrange(q, q + pat.len()) =~= rest.subrange(j, j + pat.len()));
        }
        if !occurs_at(rest, pat, j) {
            lemma_find_shift(pre, rest, pat, j + 1);
        }
    }
}

proof fn lemma_split_shift(pre: Seq<char>, rest: Seq<char>, sep: Seq<char>, j: int)
    requires
        0 <= j <= rest.len(),
        sep.len() > 0,
    ensures
        split_from(pre + rest, sep, pre.len() + j) == split_from(rest, sep, j),
    decreases rest.len() + 1 - j,
{
    let s = pre + rest;
    let q = pre.len() + j;
    lemma_find_shift(pre, rest, sep, j);
    lemma_find_from(rest, sep, j);
    match find_from(rest, sep, j) {
        Some(k) => {
            assert(s.subrange(q, k + pre.len()) =~= rest.subrange(j, k));
            lemma_split_shift(pre, rest, sep, k + sep.len());
        },
        None => {
            assert(s.subrange(q, s.len() as int) =~= rest.subrange(j, rest.len() as int));
        },
    }
}

pub proof fn lemma_no_occurrence_split(s: Seq<char>, sep: Seq<char>)
    requires
        sep.len() > 0,
        free_of(s, sep),
    ensures
        split_seq(s, sep) == seq![s],
        forall|to: Seq<char>| #[trigger] replace_all(s, sep, to) == s,
{
    lemma_find_from(s, sep, 0);
    if find_from(s, sep, 0) is Some {
        let k = find_from(s, sep, 0)->Some_0;
        assert(occurs_at(s, sep, k));
    }
    assert(s.subrange(0, s.len() as int) =~= s);
    assert forall|to: Seq<char>| #[trigger] replace_all(s, sep, to) == s by {
        assert(join_seq(seq![s], to) == s);
    }
}

proof fn lemma_first_match(piece: Seq<char>, v: Seq<char>, rest: Seq<char>)
    requires
        head_unique(v),
        free_of(piece, v),
    ensures
        find_from(piece + v + rest, v, 0) == Some(piece.len() as int),
{
    let s = piece + v + rest;
    let m = piece.len() as int;
    assert(s.subrange(m, m + v.len()) =~= v);
    assert(occurs_at(s, v, m));
    assert forall|j: int| 0 <= j < m implies !occurs_at(s, v, j) by {
        if occurs_at(s, v, j) {
            if j + v.len() <= m {
                assert(s.subrange(j, j + v.len()) =~= piece.subrange(j, j + v.len()));
                assert(occurs_at(piece, v, j));
            } else {
                let d = m - j;
                assert(s.subrange(j, j + v.len())[d] == s[m]);
                assert(s[m] == v[0]);
                assert(v[d] == v[0]);
            }
        }
    }
    lemma_find_from(s, v, 0);
}

proof fn lemma_join_front(parts: Seq<Seq<char>>, sep: Seq<char>)
    requires
        parts.len() >= 2,
    ensures
        join_seq(parts, sep) == parts[0] + sep + join_seq(parts.drop_first(), sep),
    decreases parts.len(),
{
    if parts.len() == 2 {
        assert(parts.drop_last() =~= seq![parts[0]]);
        assert(parts.drop_first() =~= seq![parts[1]]);
        assert(join_seq(parts.drop_last(), sep) == parts[0]);
        assert(join_seq(parts.drop_first(), sep) == parts[1]);
        assert(parts.last() == parts[1]);
    } else {
        let dl = parts.drop_last();
        let df = parts.drop_first();
        lemma_join_front(dl, sep);
        assert(dl.drop_first() =~= df.drop_last());
        assert(df.last() == parts.last());
        assert(dl[0] == parts[0]);
        assert(join_seq(df, sep) == join_seq(df.drop_last(), sep) + sep + df.last());
        assert(join_seq(parts, sep) == join_seq(dl, sep) + sep + parts.last());
        assert(join_seq(parts, sep) =~= parts[0] + sep + (join_seq(dl.drop_first(), sep) + sep
            + parts.last()));
    }
}

/// Joining pieces that hold no `sep` (whose first character occurs nowhere
/// else in it) and splitting again at `sep` gives the pieces back.
pub(crate) proof fn lemma_split_join(parts: Seq<Seq<char>>, sep: Seq<char>)
    requires
        parts.len() >= 1,
        head_unique(sep),
        forall|i: int| 0 <= i < parts.len() ==> free_of(#[trigger] parts[i], sep),
    ensures
        split_seq(join_seq(parts, sep), sep) == parts,
    decreases parts.len(),
{
    if parts.len() == 1 {
        lemma_no_occurrence_split(parts[0], sep);
        assert(parts =~= seq![parts[0]]);
    } else {
        let rest = parts.drop_first();
        assert forall|i: int| 0 <= i < rest.len() implies free_of(#[trigger] rest[i], sep) by {
            assert(rest[i] == parts[i + 1]);
        }
        lemma_split_join(rest, sep);
        lemma_join_front(parts, sep);
        let jr = join_seq(rest, sep);
        let s = parts[0] + sep + jr;
        lemma_first_match(parts[0], sep, jr);
        assert(s.subrange(0, parts[0].len() as int) =~= parts[0]);
        let pre = parts[0] + sep;
        assert(s == pre + jr);
        lemma_split_shift(pre, jr, sep, 0);
        assert(split_from(s, sep, 0) == seq![parts[0]] + split_from(s, sep, pre.len() as int));
        assert(parts =~= seq![parts[0]] + rest);
    }
}

/// The pieces of a split are pieces of the text.
proof fn lemma_split_pieces(s: Seq<char>, sep: Seq<char>, pos: int)
    requires
        0 <= pos <= s.len(),
        sep.len() > 0,
    ensures
        forall|i: int|
            0 <= i < split_from(s, sep, pos).len() ==> exists|a: int, b: int|
                0 <= a <= b <= s.len() && #[trigger] split_from(s, sep, pos)[i] == s.subrange(a, b),
    decreases s.len() + 1 - pos,
{
    lemma_find_from(s, sep, pos);
    match find_from(s, sep, pos) {
        Some(k) => {
            lemma_split_pieces(s, sep, k + sep.len());
            let rest = split_from(s, sep, k + sep.len());
            assert forall|i: int| 0 <= i < split_from(s, sep, pos).len() implies exists|
                a: int,
                b: int,
            | 0 <= a <= b <= s.len() && #[trigger] split_from(s, sep, pos)[i] == s.subrange(a, b) by {
                if i == 0 {
                    assert(split_from(s, sep, pos)[0] == s.subrange(pos, k));
                } else {
                    assert(split_from(s, sep, pos)[i] == rest[i - 1]);
                }
            }
        },
        None => {
            assert(split_from(s, sep, pos)[0] == s.subrange(pos, s.len() as int));
        },
    }
}

/// A placeholder `<*>` becomes `<VAR>` in stored form: for a clustering
/// template that holds no `<VAR>`, the stored template splits at `<VAR>`
/// into the same literal parts as the clustering template at `<*>`.
pub proof fn law_stored_template_parts(t: Seq<char>)
    requires
        free_of(t, var_mark()),
    ensures
        split_seq(stored_template(t), var_mark()) == literal_parts(t),
{
    let parts = literal_parts(t);
    lemma_split_from_nonempty(t, wild_mark(), 0);
    lemma_split_pieces(t, wild_mark(), 0);
    assert forall|i: int| 0 <= i < parts.len() implies free_of(#[trigger] parts[i], var_mark()) by {
        let (a, b) = choose|a: int, b: int| 0 <= a <= b <= t.len() && parts[i] == t.subrange(a, b);
        assert forall|j: int| !occurs_at(parts[i], var_mark(), j) by {
            if occurs_at(parts[i], var_mark(), j) {
                assert(t.subrange(a + j, a + j + 5) =~= parts[i].subrange(j, j + 5));
                assert(occurs_at(t, var_mark(), a + j));
            }
        }
    }
    assert(head_unique(var_mark()));
    lemma_split_join(parts, var_mark());
}

/// The number of variables a line yields equals the number of `<VAR>`
/// placeholders in the stored template, when every literal part of the
/// clustering template is found and that template holds no `<VAR>`.
pub proof fn law_variable_count_stored(content: Seq<char>, template: Seq<char>)
    requires
        extraction(content, template).2,
        free_of(template, var_mark()),
    ensures
        variables_of(content, template).len() == count_matches(
            stored_template(template),
            var_mark(),
        ),
{
    law_variable_count(content, template);
    law_stored_template_parts(template);
}

/// Filling the stored template with a line's variables gives the line back
/// (under the conditions of `law_fill_extract`, for a clustering template
/// that holds no `<VAR>`).
pub proof fn law_fill_stored(content: Seq<char>, template: Seq<char>)
    requires
        starts_with(content, literal_parts(template)[0]),
        extraction(content, template).2,
        extraction(content, template).1 == content.len(),
        free_of(template, var_mark()),
    ensures
        fill(stored_template(template), var_mark(), variables_of(content, template)) == content,
{
    law_fill_extract(content, template);
    law_stored_template_parts(template);
}

/// The pieces of a split hold no separator.
proof fn lemma_split_free(s: Seq<char>, sep: Seq<char>, pos: int)
    requires
        0 <= pos <= s.len(),
        sep.len() > 0,
    ensures
        forall|i: int|
            0 <= i < split_from(s, sep, pos).len() ==> free_of(
                #[trigger] split_from(s, sep, pos)[i],
                sep,
            ),
    decreases s.len() + 1 - pos,
{
    lemma_find_from(s, sep, pos);
    match find_from(s, sep, pos) {
        Some(k) => {
            lemma_split_free(s, sep, k + sep.len());
            let piece = s.subrange(pos, k);
            assert forall|j: int| !#[trigger] occurs_at(piece, sep, j) by {
                if occurs_at(piece, sep, j) {
                    assert(s.subrange(pos + j, pos + j + sep.len()) =~= piece.subrange(
                        j,
                        j + sep.len(),
                    ));
                    assert(occurs_at(s, sep, pos + j));
                }
            }
            let rest = split_from(s, sep, k + sep.len());
            assert forall|i: int| 0 <= i < split_from(s, sep, pos).len() implies free_of(
                #[trigger] split_from(s, sep, pos)[i],
                sep,
            ) by {
                if i == 0 {
                    assert(split_from(s, sep, pos)[0] == piece);
                } else {
                    assert(split_from(s, sep, pos)[i] == rest[i - 1]);
                }
            }
        },
        None => {
            let piece = s.subrange(pos, s.len() as int);
            assert forall|j: int| !#[trigger] occurs_at(piece, sep, j) by {
                if occurs_at(piece, sep, j) {
                    assert(s.subrange(pos + j, pos + j + sep.len()) =~= piece.subrange(
                        j,
                        j + sep.len(),
                    ));
                    assert(occurs_at(s, sep, pos + j));
                }
            }
            assert(split_from(s, sep, pos)[0] == piece);
        },
    }
}

/// `<VAR>` between two texts without `<*>` makes no `<*>`.
proof fn lemma_var_between_no_wild(x: Seq<char>, y: Seq<char>)
    requires
        free_of(x, wild_mark()),
        free_of(y, wild_mark()),
    ensures
        free_of(x + var_mark() + y, wild_mark()),
{
    let s = x + var_mark() + y;
    let w = wild_mark();
    let n = x.len() as int;
    assert forall|j: int| !#[trigger] occurs_at(s, w, j) by {
        if occurs_at(s, w, j) {
            let t = s.subrange(j, j + 3);
            assert(t == w);
            assert(t[0] == s[j] && t[1] == s[j + 1] && t[2] == s[j + 2]);
            if j + 3 <= n {
                assert(x.subrange(j, j + 3) =~= t);
                assert(occurs_at(x, w, j));
            } else if j >= n + 5 {
                assert(y.subrange(j - n - 5, j - n - 2) =~= t);
                assert(occurs_at(y, w, j - n - 5));
            } else if j == n - 2 {
                assert(s[j + 2] == '<');
            } else if j == n - 1 {
                assert(s[j + 1] == '<');
            } else if j == n {
                assert(s[j + 1] == 'V');
            } else if j == n + 1 {
                assert(s[j] == 'V');
            } else if j == n + 2 {
                assert(s[j] == 'A');
            } else if j == n + 3 {
                assert(s[j] == 'R');
            } else {
                assert(s[j] == '>');
            }
        }
    }
}

/// Pieces without `<*>` joined with `<VAR>` hold no `<*>`.
proof fn lemma_join_no_wild(parts: Seq<Seq<char>>)
    requires
        forall|i: int| 0 <= i < parts.len() ==> free_of(#[trigger] parts[i], wild_mark()),
    ensures
        free_of(join_seq(parts, var_mark()), wild_mark()),
    decreases parts.len(),
{
    if parts.len() == 0 {
        assert forall|j: int| !#[trigger] occurs_at(Seq::<char>::empty(), wild_mark(), j) by {}
    } else if parts.len() == 1 {
        assert(free_of(parts[0], wild_mark()));
    } else {
        let dl = parts.drop_last();
        assert forall|i: int| 0 <= i < dl.len() implies free_of(#[trigger] dl[i], wild_mark()) by {
            assert(dl[i] == parts[i]);
        }
        lemma_join_no_wild(dl);
        assert(free_of(parts.last(), wild_mark()));
        lemma_var_between_no_wild(join_seq(dl, var_mark()), parts.last());
    }
}

/// A stored template never holds the placeholder `<*>`.
pub proof fn law_stored_template_no_wildcard(t: Seq<char>)
    ensures
        free_of(stored_template(t), wild_mark()),
{
    lemma_split_free(t, wild_mark(), 0);
    lemma_join_no_wild(split_seq(t, wild_mark()));
}

// ---------------------------------------------------------------------------
// Writing tabs back.

/// The first five characters of the tab mark: `__TAB`.
pub open spec fn tab_stem() -> Seq<char> {
    seq!['_', '_', 'T', 'A', 'B']
}

/// `sep` first occurs in `p + sep` right after `p`.
pub open spec fn first_after(p: Seq<char>, sep: Seq<char>) -> bool {
    forall|j: int| 0 <= j < p.len() ==> !#[trigger] occurs_at(p + sep, sep, j)
}

proof fn lemma_first_match_after(piece: Seq<char>, v: Seq<char>, rest: Seq<char>)
    requires
        first_after(piece, v),
    ensures
        find_from(piece + v + rest, v, 0) == Some(piece.len() as int),
{
    let s = piece + v + rest;
    let m = piece.len() as int;
    assert(s.subrange(m, m + v.len()) =~= v);
    assert(occurs_at(s, v, m));
    assert forall|j: int| 0 <= j < m implies !occurs_at(s, v, j) by {
        assert(s.subrange(j, j + v.len()) =~= (piece + v).subrange(j, j + v.len()));
        assert(!occurs_at(piece + v, v, j));
    }
    lemma_find_from(s, v, 0);
}

/// Joining pieces after each of which `sep` first occurs right after the
/// piece, and splitting again at `sep`, gives the pieces back.
proof fn lemma_split_join_after(parts: Seq<Seq<char>>, sep: Seq<char>)
    requires
        parts.len() >= 1,
        sep.len() > 0,
        forall|i: int| 0 <= i < parts.len() ==> first_after(#[trigger] parts[i], sep),
    ensures
        split_seq(join_seq(parts, sep), sep) == parts,
    decreases parts.len(),
{
    let p0 = parts[0];
    assert(first_after(p0, sep));
    assert(free_of(p0, sep)) by {
        assert forall|j: int| !#[trigger] occurs_at(p0, sep, j) by {
            if occurs_at(p0, sep, j) {
                assert((p0 + sep).subrange(j, j + sep.len()) =~= p0.subrange(j, j + sep.len()));
                assert(occurs_at(p0 + sep, sep, j));
            }
        }
    }
    if parts.len() == 1 {
        lemma_no_occurrence_split(p0, sep);
        assert(parts =~= seq![p0]);
    } else {
        let rest = parts.drop_first();
        assert forall|i: int| 0 <= i < rest.len() implies first_after(#[trigger] rest[i], sep) by {
            assert(rest[i] == parts[i + 1]);
        }
        lemma_split_join_after(rest, sep);
        lemma_join_front(parts, sep);
        let jr = join_seq(rest, sep);
        let s = p0 + sep + jr;
        lemma_first_match_after(p0, sep, jr);
        let pre = p0 + sep;
        assert(s == pre + jr);
        assert(s.subrange(0, p0.len() as int) =~= p0);
        lemma_split_shift(pre, jr, sep, 0);
        assert(split_from(s, sep, 0) == seq![p0] + split_from(s, sep, pre.len() as int));
        assert(parts =~= seq![p0] + rest);
    }
}

/// Splitting at `sep` and joining with `sep` gives the text back.
proof fn lemma_join_split(s: Seq<char>, sep: Seq<char>, pos: int)
    requires
        sep.len() > 0,
        0 <= pos <= s.len(),
    ensures
        join_seq(split_from(s, sep, pos), sep) == s.subrange(pos, s.len() as int),
    decreases s.len() + 1 - pos,
{
    lemma_find_from(s, sep, pos);
    match find_from(s, sep, pos) {
        Some(k) => {
            let next = k + sep.len();
            lemma_join_split(s, sep, next);
            let r = split_from(s, sep, next);
            lemma_split_from_nonempty(s, sep, next);
            let all = seq![s.subrange(pos, k)] + r;
            assert(split_from(s, sep, pos) == all);
            lemma_join_front(all, sep);
            assert(all.drop_first() =~= r);
            assert(s.subrange(k, next) == sep);
            assert(s.subrange(pos, s.len() as int) =~= s.subrange(pos, k) + sep + s.subrange(
                next,
                s.len() as int,
            ));
        },
        None => {},
    }
}

/// A piece of text holding no `__TAB` is followed by the tab mark's first
/// occurrence only where the mark is put after it.
proof fn lemma_tab_first_after(p: Seq<char>)
    requires
        free_of(p, tab_stem()),
    ensures
        first_after(p, tab_mark()),
{
    let m = tab_mark();
    assert forall|j: int| 0 <= j < p.len() implies !#[trigger] occurs_at(p + m, m, j) by {
        if occurs_at(p + m, m, j) {
            let w = (p + m).subrange(j, j + 7);
            assert(w == m);
            if j + 5 <= p.len() {
                assert(p.subrange(j, j + 5) =~= w.subrange(0, 5));
                assert(w.subrange(0, 5) =~= tab_stem());
                assert(occurs_at(p, tab_stem(), j));
            } else {
                let d = p.len() - j;
                if d == 1 {
                    assert(w[2] == m[1]);
                } else if d == 2 {
                    assert(w[2] == m[0]);
                } else if d == 3 {
                    assert(w[3] == m[0]);
                } else {
                    assert(w[4] == m[0]);
                }
            }
        }
    }
}

/// Writing each `__TAB__` of a line's escaped form back as a tab gives the
/// line, when the line holds no `__TAB`.
pub proof fn law_tab_escape_roundtrip(c: Seq<char>)
    requires
        free_of(c, tab_stem()),
    ensures
        replace_all(escape_tabs(c), tab_mark(), seq!['\t']) == c,
{
    let tab = seq!['\t'];
    let parts = split_seq(c, tab);
    lemma_split_from_nonempty(c, tab, 0);
    lemma_split_pieces(c, tab, 0);
    assert forall|i: int| 0 <= i < parts.len() implies first_after(#[trigger] parts[i], tab_mark()) by {
        let (a, b) = choose|a: int, b: int| 0 <= a <= b <= c.len() && parts[i] == c.subrange(a, b);
        assert forall|j: int| !#[trigger] occurs_at(parts[i], tab_stem(), j) by {
            if occurs_at(parts[i], tab_stem(), j) {
                assert(c.subrange(a + j, a + j + 5) =~= parts[i].subrange(j, j + 5));
                assert(occurs_at(c, tab_stem(), a + j));
            }
        }
        lemma_tab_first_after(parts[i]);
    }
    lemma_split_join_after(parts, tab_mark());
    lemma_join_split(c, tab, 0);
    assert(c.subrange(0, c.len() as int) =~= c);
}

} // verus!
