//! The template registry of one compressed stream: it gives each distinct
//! template hash a sequential 32-bit id, in order of first appearance.
use vstd::prelude::*;

use std::collections::HashMap;

use crate::template::{
    base_template, drain_input, escape_tabs, learned_template, stored_template, template_hash,
    variables_of, views,
};

verus! {

broadcast use vstd::std_specs::hash::group_hash_axioms;

/// Maps each template hash to the sequential id of its template, and keeps
/// the templates in id order.
pub struct SharedRegistry {
    id_map: HashMap<u64, u32>,
    template_store: Vec<(u64, String)>,
}

/// `store` holds an entry with hash `h`.
pub open spec fn holds_hash(store: Seq<(u64, Seq<char>)>, h: u64) -> bool {
    exists|i: int| 0 <= i < store.len() && #[trigger] store[i].0 == h
}

/// The registry after learning a template with hash `h`: unchanged when
/// the hash is held, else with `(h, t)` added under the next id.
pub open spec fn intern_step(reg: Seq<(u64, Seq<char>)>, h: u64, t: Seq<char>) -> Seq<(u64, Seq<char>)> {
    if holds_hash(reg, h) {
        reg
    } else {
        reg.push((h, t))
    }
}

/// The registry after learning the (hash, template) pairs `ps[..n]` in order.
pub open spec fn interned(ps: Seq<(u64, Seq<char>)>, n: int) -> Seq<(u64, Seq<char>)>
    decreases n,
{
    if n <= 0 {
        Seq::empty()
    } else {
        intern_step(interned(ps, n - 1), ps[n - 1].0, ps[n - 1].1)
    }
}

/// Index `i` is where hash `h` first occurs in the pairs.
pub open spec fn first_occurrence(ps: Seq<(u64, Seq<char>)>, i: int, h: u64) -> bool {
    0 <= i < ps.len() && ps[i].0 == h && forall|j: int| 0 <= j < i ==> #[trigger] ps[j].0 != h
}

/// After learning pairs one after another, the registry (what `dump` lists,
/// id by id) holds each hash once, every hash learned, and each entry is the
/// pair where its hash first occurred, ids in the order of first occurrence.
pub proof fn law_registry_history(ps: Seq<(u64, Seq<char>)>, n: int)
    requires
        0 <= n <= ps.len(),
    ensures
        forall|i: int, j: int|
            0 <= i < j < interned(ps, n).len() ==> interned(ps, n)[i].0 != interned(ps, n)[j].0,
        forall|i: int| 0 <= i < n ==> holds_hash(interned(ps, n), #[trigger] ps[i].0),
        forall|k: int|
            0 <= k < interned(ps, n).len() ==> exists|i: int|
                0 <= i < n && first_occurrence(ps, i, interned(ps, n)[k].0) && #[trigger] interned(
                    ps,
                    n,
                )[k] == ps[i],
        forall|k1: int, k2: int, i1: int, i2: int|
            #![trigger first_occurrence(ps, i1, interned(ps, n)[k1].0), first_occurrence(ps, i2, interned(ps, n)[k2].0)]
            0 <= k1 < k2 < interned(ps, n).len() && first_occurrence(ps, i1, interned(ps, n)[k1].0)
                && first_occurrence(ps, i2, interned(ps, n)[k2].0) ==> i1 < i2,
    decreases n,
{
    if n > 0 {
        law_registry_history(ps, n - 1);
        let r = interned(ps, n - 1);
        let rn = interned(ps, n);
        let h = ps[n - 1].0;
        assert forall|i: int| 0 <= i < n implies holds_hash(rn, #[trigger] ps[i].0) by {
            if i < n - 1 {
                let k = choose|k: int| 0 <= k < r.len() && #[trigger] r[k].0 == ps[i].0;
                assert(rn[k] == r[k]);
            } else if !holds_hash(r, h) {
                assert(rn[r.len() as int].0 == h);
            }
        }
        if !holds_hash(r, h) {
            assert forall|j: int| 0 <= j < n - 1 implies #[trigger] ps[j].0 != h by {
                if ps[j].0 == h {
                    assert(holds_hash(r, ps[j].0));
                }
            }
            assert(first_occurrence(ps, n - 1, h));
            assert forall|k: int| 0 <= k < rn.len() implies exists|i: int|
                0 <= i < n && first_occurrence(ps, i, rn[k].0) && #[trigger] rn[k] == ps[i] by {
                if k < r.len() {
                    assert(rn[k] == r[k]);
                    let i = choose|i: int|
                        0 <= i < n - 1 && first_occurrence(ps, i, r[k].0) && #[trigger] r[k] == ps[i];
                    assert(first_occurrence(ps, i, rn[k].0));
                } else {
                    assert(rn[k] == ps[n - 1]);
                }
            }
            assert forall|k1: int, k2: int, i1: int, i2: int|
                #![trigger first_occurrence(ps, i1, rn[k1].0), first_occurrence(ps, i2, rn[k2].0)]
                0 <= k1 < k2 < rn.len() && first_occurrence(ps, i1, rn[k1].0)
                    && first_occurrence(ps, i2, rn[k2].0) implies i1 < i2 by {
                assert(rn[k1] == r[k1]);
                if k2 < r.len() {
                    assert(rn[k2] == r[k2]);
                } else {
                    assert(rn[k2].0 == h);
                    if i2 < n - 1 {
                        assert(ps[i2].0 != h);
                    }
                    let i = choose|i: int|
                        0 <= i < n - 1 && first_occurrence(ps, i, r[k1].0) && #[trigger] r[k1] == ps[i];
                    if i1 != i {
                        if i1 < i {
                            assert(ps[i1].0 != r[k1].0);
                        } else {
                            assert(ps[i].0 != r[k1].0);
                        }
                    }
                }
            }
        } else {
            assert(rn == r);
        }
    }
}

impl View for SharedRegistry {
    type V = Seq<(u64, Seq<char>)>;

    /// The (hash, template) entries, at the index of their id.
    closed spec fn view(&self) -> Seq<(u64, Seq<char>)> {
        self.template_store@.map_values(|e: (u64, String)| (e.0, e.1@))
    }
}

impl SharedRegistry {
    /// The registry's internal consistency: the map sends each stored hash
    /// to its index, holds nothing else, and no hash is stored twice.
    pub closed spec fn wf(&self) -> bool {
        &&& forall|i: int|
            0 <= i < self.template_store@.len() ==> {
                &&& #[trigger] self.id_map@.contains_key(self.template_store@[i].0)
                &&& self.id_map@[self.template_store@[i].0] == i as u32
            }
        &&& forall|h: u64| #[trigger]
            self.id_map@.contains_key(h) ==> holds_hash(self@, h)
        &&& forall|i: int, j: int|
            0 <= i < j < self.template_store@.len() ==> self.template_store@[i].0
                != self.template_store@[j].0
    }

    /// An empty registry.
    pub fn new() -> (r: SharedRegistry)
        ensures
            r.wf(),
            r@ == Seq::<(u64, Seq<char>)>::empty(),
    {
        let r = SharedRegistry { id_map: HashMap::new(), template_store: Vec::new() };
        assert(r@ =~= Seq::<(u64, Seq<char>)>::empty());
        r
    }

    /// How many templates the registry holds.
    pub fn len(&self) -> (n: usize)
        ensures
            n == self@.len(),
    {
        self.template_store.len()
    }

    /// The id of the template with hash `hash`: its existing id when the
    /// hash is known, else the next id, with the template stored under it.
    pub fn intern(&mut self, hash: u64, template: String) -> (id: u32)
        requires
            old(self).wf(),
        ensures
            final(self).wf(),
            holds_hash(old(self)@, hash) ==> final(self)@ == old(self)@ && forall|i: int|
                0 <= i < old(self)@.len() && #[trigger] old(self)@[i].0 == hash ==> id == i as u32,
            !holds_hash(old(self)@, hash) ==> final(self)@ == old(self)@.push((hash, template@))
                && id == old(self)@.len() as u32,
    {
        let ghost old_view = self@;
        match self.id_map.get(&hash) {
            Some(id) => {
                let id = *id;
                assert(holds_hash(old_view, hash));
                assert forall|i: int|
                    0 <= i < old_view.len() && #[trigger] old_view[i].0 == hash implies id
                    == i as u32 by {
                    assert(self.template_store@[i].0 == old_view[i].0);
                }
                id
            },
            None => {
                assert(!holds_hash(old_view, hash)) by {
                    if holds_hash(old_view, hash) {
                        let i = choose|i: int| 0 <= i < old_view.len() && #[trigger] old_view[i].0 == hash;
                        assert(self.template_store@[i].0 == hash);
                    }
                }
                let new_id = self.template_store.len() as u32;
                let ghost old_store = self.template_store@;
                let ghost old_map = self.id_map@;
                self.id_map.insert(hash, new_id);
                self.template_store.push((hash, template));
                assert(self@ =~= old_view.push((hash, template@)));
                assert forall|h: u64| #[trigger] self.id_map@.contains_key(h) implies holds_hash(
                    self@,
                    h,
                ) by {
                    if h == hash {
                        assert(self@[old_view.len() as int].0 == hash);
                    } else {
                        assert(old_map.contains_key(h));
                        let i = choose|i: int| 0 <= i < old_view.len() && #[trigger] old_view[i].0 == h;
                        assert(self@[i].0 == h);
                    }
                }
                assert forall|i: int| 0 <= i < self.template_store@.len() implies {
                    &&& #[trigger] self.id_map@.contains_key(self.template_store@[i].0)
                    &&& self.id_map@[self.template_store@[i].0] == i as u32
                } by {
                    if i < old_store.len() {
                        assert(self.template_store@[i] == old_store[i]);
                        assert(old_store[i].0 != hash) by {
                            assert(old_view[i].0 == old_store[i].0);
                        }
                    }
                }
                assert forall|i: int, j: int|
                    0 <= i < j < self.template_store@.len() implies self.template_store@[i].0
                    != self.template_store@[j].0 by {
                    if j == old_store.len() {
                        assert(old_view[i].0 == old_store[i].0);
                    }
                }
                new_id
            },
        }
    }

    /// Learns a line: from the line and the cluster that the clustering step
    /// returned for its escaped form (see `drain_input`), the id of its
    /// template, the stored template, and the line's variables.
    pub fn get_or_learn(&mut self, content: &str, cluster: Option<String>) -> (r: (
        u32,
        String,
        Vec<String>,
    ))
        requires
            old(self).wf(),
        ensures
            final(self).wf(),
            r.1@ == stored_template(base_template(escape_tabs(content@), cluster)),
            views(r.2@) == variables_of(escape_tabs(content@), base_template(
                escape_tabs(content@),
                cluster,
            )),
            holds_hash(old(self)@, template_hash(r.1@)) ==> final(self)@ == old(self)@ && forall|
                i: int,
            |
                0 <= i < old(self)@.len() && #[trigger] old(self)@[i].0 == template_hash(r.1@)
                    ==> r.0 == i as u32,
            final(self)@ == intern_step(old(self)@, template_hash(r.1@), r.1@),
            !holds_hash(old(self)@, template_hash(r.1@)) ==> final(self)@ == old(self)@.push(
                (template_hash(r.1@), r.1@),
            ) && r.0 == old(self)@.len() as u32,
    {
        let escaped = drain_input(content);
        let (hash, template, vars) = learned_template(escaped.as_str(), cluster);
        let stored = template.clone();
        let id = self.intern(hash, stored);
        (id, template, vars)
    }

    /// The registry's entries as (id, hash, template), in id order.
    pub fn dump(&self) -> (r: Vec<(u32, u64, String)>)
        ensures
            r@.len() == self@.len(),
            forall|i: int|
                #![trigger r@[i]]
                0 <= i < r@.len() ==> (r@[i].0 == (i as u32) && r@[i].1 == self@[i].0 && r@[i].2@
                    == self@[i].1),
    {
        let mut r: Vec<(u32, u64, String)> = Vec::new();
        let n = self.template_store.len();
        for i in 0..n
            invariant
                n == self.template_store@.len(),
                r@.len() == i,
                forall|k: int|
                    #![trigger r@[k]]
                    0 <= k < i ==> (r@[k].0 == (k as u32) && r@[k].1 == self@[k].0 && r@[k].2@
                        == self@[k].1),
        {
            let entry = &self.template_store[i];
            let ghost before = r@;
            r.push((i as u32, entry.0, entry.1.clone()));
            assert(self@[i as int] == (self.template_store@[i as int].0,
                self.template_store@[i as int].1@));
            assert(r@[i as int].0 == (i as u32));
        }
        r
    }

    /// The templates stored from index `start` on, in id order.
    pub fn templates_from(&self, start: usize) -> (r: Vec<String>)
        requires
            start <= self@.len(),
        ensures
            views(r@) == self@.subrange(start as int, self@.len() as int).map_values(
                |e: (u64, Seq<char>)| e.1,
            ),
    {
        let mut r: Vec<String> = Vec::new();
        let n = self.template_store.len();
        let mut i = start;
        while i < n
            invariant
                n == self@.len(),
                start <= i <= n,
                views(r@) == self@.subrange(start as int, i as int).map_values(
                    |e: (u64, Seq<char>)| e.1,
                ),
            decreases n - i,
        {
            let t = self.template_store[i].1.clone();
            let ghost before = views(r@);
            r.push(t);
            assert(views(r@) == before.push(t@));
            assert(self@.subrange(start as int, i + 1).map_values(|e: (u64, Seq<char>)| e.1)
                == self@.subrange(start as int, i as int).map_values(|e: (u64, Seq<char>)| e.1).push(
                self@[i as int].1,
            ));
            i = i + 1;
        }
        r
    }
}

} // verus!
