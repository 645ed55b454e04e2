//! The per-line steps of compression between parsing and chunking, and
//! the buffer that puts results coming back from parallel workers in order.
use vstd::prelude::*;

use std::collections::HashMap;

use crate::codec::string_views;
use crate::models::{LogEntry, PreDigestedEntry};
use crate::template::free_of;
use crate::text::{
    append_chars, chars_of, ends_with, ends_with_exec, find_from, find_from_exec,
    lemma_find_from, occurs_at, slice_chars, string_of, trim_end_char, trim_end_char_exec,
};

verus! {

broadcast use vstd::std_specs::hash::group_hash_axioms;

/// How a line's body is handed to template learning: only its first line
/// (without a trailing carriage return) is learned; the rest (from the line
/// feed on, with that carriage return in front) becomes an extra variable,
/// as does a lone trailing carriage return.
pub open spec fn learning_split(t: Seq<char>) -> (Seq<char>, Option<Seq<char>>) {
    match find_from(t, seq!['\n'], 0) {
        Some(pos) => {
            let first = t.subrange(0, pos);
            let cont = t.subrange(pos, t.len() as int);
            (
                trim_end_char(first, '\r'),
                Some(
                    if ends_with(first, seq!['\r']) {
                        seq!['\r'] + cont
                    } else {
                        cont
                    },
                ),
            )
        },
        None => (
            trim_end_char(t, '\r'),
            if ends_with(t, seq!['\r']) {
                Some(seq!['\r'])
            } else {
                None
            },
        ),
    }
}

/// The text of an extra variable, empty where there is none.
pub open spec fn extra_text(extra: Option<Seq<char>>) -> Seq<char> {
    match extra {
        Some(x) => x,
        None => Seq::empty(),
    }
}

/// Trimming carriage returns off a text that does not end with one keeps it.
proof fn lemma_trim_no_cr(s: Seq<char>)
    requires
        !ends_with(s, seq!['\r']),
    ensures
        trim_end_char(s, '\r') == s,
{
    if s.len() > 0 && s.last() == '\r' {
        assert(s.subrange(s.len() - 1, s.len() as int) =~= seq!['\r']);
    }
}

/// Trimming carriage returns off a text that ends with one, and holds no two
/// of them side by side, drops just that one.
proof fn lemma_trim_one_cr(s: Seq<char>)
    requires
        ends_with(s, seq!['\r']),
        free_of(s, seq!['\r', '\r']),
    ensures
        trim_end_char(s, '\r') == s.drop_last(),
{
    assert(s.subrange(s.len() - 1, s.len() as int)[0] == s.last());
    let u = s.drop_last();
    let pair = seq!['\r', '\r'];
    if u.len() > 0 && u.last() == '\r' {
        assert(s.subrange(s.len() - 2, s.len() as int) =~= pair);
        assert(occurs_at(s, pair, s.len() - 2));
    }
    assert(trim_end_char(s, '\r') == trim_end_char(u, '\r'));
    assert(trim_end_char(u, '\r') == u);
}

/// A body gets an extra variable exactly when it holds a line feed or ends
/// with a carriage return; without one, template learning sees the whole
/// body; the text learning sees never ends with a carriage return; and where
/// no two carriage returns stand side by side, the learned text followed by
/// the extra variable is the body again.
pub proof fn law_learning_split(t: Seq<char>)
    ensures
        learning_split(t).1 is Some <==> (find_from(t, seq!['\n'], 0) is Some || ends_with(
            t,
            seq!['\r'],
        )),
        learning_split(t).1 is None ==> learning_split(t).0 == t,
        free_of(t, seq!['\r', '\r']) ==> learning_split(t).0 + extra_text(learning_split(t).1)
            == t,
{
    lemma_find_from(t, seq!['\n'], 0);
    match find_from(t, seq!['\n'], 0) {
        Some(pos) => {
            let first = t.subrange(0, pos);
            let cont = t.subrange(pos, t.len() as int);
            if free_of(t, seq!['\r', '\r']) {
                let pair = seq!['\r', '\r'];
                assert(free_of(first, pair)) by {
                    assert forall|j: int| !#[trigger] occurs_at(first, pair, j) by {
                        if occurs_at(first, pair, j) {
                            assert(t.subrange(j, j + 2) =~= first.subrange(j, j + 2));
                            assert(occurs_at(t, seq!['\r', '\r'], j));
                        }
                    }
                }
                if ends_with(first, seq!['\r']) {
                    lemma_trim_one_cr(first);
                    assert(first.drop_last() + (seq!['\r'] + cont) =~= t) by {
                        assert(first.subrange(first.len() - 1, first.len() as int)[0]
                            == first.last());
                    }
                } else {
                    lemma_trim_no_cr(first);
                    assert(first + cont =~= t);
                }
            }
        },
        None => {
            if ends_with(t, seq!['\r']) {
                if free_of(t, seq!['\r', '\r']) {
                    lemma_trim_one_cr(t);
                    assert(t.subrange(t.len() - 1, t.len() as int)[0] == t.last());
                    assert(t.drop_last() + seq!['\r'] =~= t);
                }
            } else {
                lemma_trim_no_cr(t);
                assert(t + Seq::<char>::empty() =~= t);
            }
        },
    }
}

/// Splits a line's body into the text that template learning sees and the
/// extra variable that carries what it does not see.
pub fn split_for_learning(template_str: &str) -> (r: (String, Option<String>))
    ensures
        r.0@ == learning_split(template_str@).0,
        match r.1 {
            Some(s) => learning_split(template_str@).1 == Some(s@),
            None => learning_split(template_str@).1 is None,
        },
{
    let t = chars_of(template_str);
    let nl = ['\n'];
    let cr = ['\r'];
    assert(nl@ == seq!['\n']);
    assert(cr@ == seq!['\r']);
    match find_from_exec(t.as_slice(), &nl, 0) {
        Some(pos) => {
            proof {
                lemma_find_from(t@, nl@, 0);
            }
            let first = slice_chars(t.as_slice(), 0, pos);
            let cont = slice_chars(t.as_slice(), pos, t.len());
            let learn = trim_end_char_exec(first.as_slice(), '\r');
            let mut extra: Vec<char> = Vec::new();
            if ends_with_exec(first.as_slice(), &cr) {
                extra.push('\r');
            }
            append_chars(&mut extra, cont.as_slice());
            proof {
                if ends_with(first@, seq!['\r']) {
                    assert(extra@ =~= seq!['\r'] + cont@);
                } else {
                    assert(extra@ =~= cont@);
                }
            }
            (string_of(learn.as_slice()), Some(string_of(extra.as_slice())))
        },
        None => {
            let learn = trim_end_char_exec(t.as_slice(), '\r');
            if ends_with_exec(t.as_slice(), &cr) {
                (string_of(learn.as_slice()), Some(string_of(&cr)))
            } else {
                (string_of(learn.as_slice()), None)
            }
        },
    }
}

/// A parsed line with its learned template id and variables, and the extra
/// variable from `split_for_learning` appended.
pub fn finish_digest(
    entry: LogEntry,
    template_id: u32,
    variables: Vec<String>,
    extra: Option<String>,
) -> (d: PreDigestedEntry)
    ensures
        d.timestamp == entry.timestamp,
        d.verbosity_level == entry.verbosity_level,
        d.template_id == template_id,
        d.has_newline == entry.has_newline,
        string_views(d.variables@) == string_views(variables@) + match extra {
            Some(s) => seq![s@],
            None => Seq::<Seq<char>>::empty(),
        },
{
    let mut vars = variables;
    let ghost before = string_views(vars@);
    match extra {
        Some(s) => {
            vars.push(s);
            assert(string_views(vars@) == before.push(s@));
            assert(before.push(s@) == before + seq![s@]);
        },
        None => {
            assert(before + Seq::<Seq<char>>::empty() == before);
        },
    }
    PreDigestedEntry {
        timestamp: entry.timestamp,
        verbosity_level: entry.verbosity_level,
        template_id,
        variables: vars,
        has_newline: entry.has_newline,
    }
}

/// Holds results that arrived ahead of their turn, keyed by sequence
/// number, and hands them out in sequence order.
pub struct ReorderBuffer<T> {
    pending: HashMap<usize, T>,
    next: usize,
}

impl<T> ReorderBuffer<T> {
    /// The results waiting, by sequence number.
    pub closed spec fn pending(&self) -> Map<usize, T> {
        self.pending@
    }

    /// The sequence number handed out next.
    pub closed spec fn next_seq(&self) -> usize {
        self.next
    }

    /// An empty buffer that starts at sequence number 0.
    pub fn new() -> (b: ReorderBuffer<T>)
        ensures
            b.pending() == Map::<usize, T>::empty(),
            b.next_seq() == 0,
    {
        ReorderBuffer { pending: HashMap::new(), next: 0 }
    }

    /// Keeps a result under its sequence number (replacing any kept there).
    pub fn insert(&mut self, seq: usize, item: T)
        ensures
            final(self).pending() == old(self).pending().insert(seq, item),
            final(self).next_seq() == old(self).next_seq(),
    {
        self.pending.insert(seq, item);
    }

    /// The result whose turn it is, if it has arrived; the turn then passes
    /// to the next sequence number.
    pub fn pop_next(&mut self) -> (r: Option<T>)
        ensures
            old(self).pending().contains_key(old(self).next_seq()) ==> {
                &&& r == Some(old(self).pending()[old(self).next_seq()])
                &&& final(self).pending() == old(self).pending().remove(old(self).next_seq())
                &&& final(self).next_seq() == old(self).next_seq().wrapping_add(1)
            },
            !old(self).pending().contains_key(old(self).next_seq()) ==> {
                &&& r is None
                &&& final(self).pending() == old(self).pending()
                &&& final(self).next_seq() == old(self).next_seq()
            },
    {
        match self.pending.remove(&self.next) {
            Some(item) => {
                self.next = self.next.wrapping_add(1);
                Some(item)
            },
            None => None,
        }
    }
}

} // verus!
