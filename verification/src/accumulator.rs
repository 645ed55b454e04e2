//! Gathering learned lines into the columns of chunks.
use vstd::prelude::*;

use crate::codec::string_views;
use crate::compress::{parse_timestamp_millis, timestamp_millis};
use crate::level::level_code;
use crate::models::{PreDigestedEntry, RawChunk};
use crate::registry::SharedRegistry;

verus! {

/// How many lines a chunk holds before it is cut.
pub const MAX_LINES_PER_CHUNK: usize = 200_000;

/// The columns of the lines gathered since the last chunk was cut.
pub struct LogAccumulator {
    ts_col: Vec<u64>,
    lvl_col: Vec<u8>,
    id_col: Vec<u32>,
    var_col: Vec<String>,
    nl_col: Vec<bool>,
    max_lines_per_chunk: usize,
    current_line_count: usize,
    last_template_count: usize,
    chunk_counter: usize,
}

/// The state of an accumulator.
pub ghost struct AccumulatorView {
    pub ts: Seq<u64>,
    pub lvl: Seq<u8>,
    pub ids: Seq<u32>,
    pub vars: Seq<Seq<char>>,
    pub nl: Seq<bool>,
    /// How many templates of the registry earlier chunks have carried.
    pub templates_sent: nat,
    /// The id of the next chunk.
    pub next_chunk: usize,
}

/// The timestamp text of an entry, empty when it has none.
pub open spec fn entry_timestamp(e: PreDigestedEntry) -> Seq<char> {
    match e.timestamp {
        Some(t) => t@,
        None => Seq::empty(),
    }
}

impl View for LogAccumulator {
    type V = AccumulatorView;

    closed spec fn view(&self) -> AccumulatorView {
        AccumulatorView {
            ts: self.ts_col@,
            lvl: self.lvl_col@,
            ids: self.id_col@,
            vars: string_views(self.var_col@),
            nl: self.nl_col@,
            templates_sent: self.last_template_count as nat,
            next_chunk: self.chunk_counter,
        }
    }
}

impl LogAccumulator {
    /// The columns all have one entry per gathered line, and fewer lines
    /// than a chunk holds are gathered.
    pub closed spec fn wf(&self) -> bool {
        &&& self.max_lines_per_chunk == MAX_LINES_PER_CHUNK
        &&& self.current_line_count == self.ts_col@.len()
        &&& self.lvl_col@.len() == self.ts_col@.len()
        &&& self.id_col@.len() == self.ts_col@.len()
        &&& self.nl_col@.len() == self.ts_col@.len()
        &&& self.current_line_count < self.max_lines_per_chunk
    }

    /// The columns all have one entry per gathered line, and at most a
    /// chunk's worth of lines is gathered.
    pub closed spec fn columns_consistent(&self) -> bool {
        &&& self.max_lines_per_chunk == MAX_LINES_PER_CHUNK
        &&& self.current_line_count == self.ts_col@.len()
        &&& self.lvl_col@.len() == self.ts_col@.len()
        &&& self.id_col@.len() == self.ts_col@.len()
        &&& self.nl_col@.len() == self.ts_col@.len()
        &&& self.current_line_count <= self.max_lines_per_chunk
    }

    /// An accumulator with no lines, before the first chunk.
    pub fn new() -> (a: LogAccumulator)
        ensures
            a.wf(),
            a.columns_consistent(),
            a@.ts == Seq::<u64>::empty(),
            a@.lvl == Seq::<u8>::empty(),
            a@.ids == Seq::<u32>::empty(),
            a@.vars == Seq::<Seq<char>>::empty(),
            a@.nl == Seq::<bool>::empty(),
            a@.templates_sent == 0,
            a@.next_chunk == 0,
    {
        let a = LogAccumulator {
            ts_col: Vec::new(),
            lvl_col: Vec::new(),
            id_col: Vec::new(),
            var_col: Vec::new(),
            nl_col: Vec::new(),
            max_lines_per_chunk: MAX_LINES_PER_CHUNK,
            current_line_count: 0,
            last_template_count: 0,
            chunk_counter: 0,
        };
        assert(string_views(a.var_col@) =~= Seq::<Seq<char>>::empty());
        a
    }

    /// Cuts a chunk of the gathered lines, carrying the templates the
    /// registry learned since the last chunk; the accumulator starts over.
    pub fn take_chunk(&mut self, registry: &SharedRegistry) -> (chunk: RawChunk)
        requires
            old(self).columns_consistent(),
            old(self)@.templates_sent <= registry@.len(),
        ensures
            final(self).wf(),
            final(self).columns_consistent(),
            chunk.chunk_id == old(self)@.next_chunk,
            string_views(chunk.registry_delta@) == registry@.subrange(
                old(self)@.templates_sent as int,
                registry@.len() as int,
            ).map_values(|e: (u64, Seq<char>)| e.1),
            chunk.ts_col@ == old(self)@.ts,
            chunk.lvl_col@ == old(self)@.lvl,
            chunk.id_col@ == old(self)@.ids,
            string_views(chunk.var_col@) == old(self)@.vars,
            chunk.nl_col@ == old(self)@.nl,
            final(self)@.ts == Seq::<u64>::empty(),
            final(self)@.lvl == Seq::<u8>::empty(),
            final(self)@.ids == Seq::<u32>::empty(),
            final(self)@.vars == Seq::<Seq<char>>::empty(),
            final(self)@.nl == Seq::<bool>::empty(),
            final(self)@.templates_sent == registry@.len(),
            final(self)@.next_chunk == old(self)@.next_chunk.wrapping_add(1),
    {
        let registry_delta = registry.templates_from(self.last_template_count);
        self.last_template_count = registry.len();
        let mut ts_col: Vec<u64> = Vec::new();
        let mut lvl_col: Vec<u8> = Vec::new();
        let mut id_col: Vec<u32> = Vec::new();
        let mut var_col: Vec<String> = Vec::new();
        let mut nl_col: Vec<bool> = Vec::new();
        std::mem::swap(&mut ts_col, &mut self.ts_col);
        std::mem::swap(&mut lvl_col, &mut self.lvl_col);
        std::mem::swap(&mut id_col, &mut self.id_col);
        std::mem::swap(&mut var_col, &mut self.var_col);
        std::mem::swap(&mut nl_col, &mut self.nl_col);
        let chunk = RawChunk {
            chunk_id: self.chunk_counter,
            registry_delta,
            ts_col,
            lvl_col,
            id_col,
            var_col,
            nl_col,
        };
        self.chunk_counter = self.chunk_counter.wrapping_add(1);
        self.current_line_count = 0;
        self.ts_col.reserve(self.max_lines_per_chunk);
        self.lvl_col.reserve(self.max_lines_per_chunk);
        self.id_col.reserve(self.max_lines_per_chunk);
        self.var_col.reserve(self.max_lines_per_chunk * 2);
        assert(string_views(self.var_col@) =~= Seq::<Seq<char>>::empty());
        chunk
    }

    /// Adds a learned line to the columns; once a chunk's worth of lines is
    /// gathered, cuts and returns the chunk.
    pub fn ingest(&mut self, entry: PreDigestedEntry, registry: &SharedRegistry) -> (r: Option<
        RawChunk,
    >)
        requires
            old(self).wf(),
            old(self)@.templates_sent <= registry@.len(),
        ensures
            final(self).wf(),
            final(self).columns_consistent(),
            ({
                let ts = old(self)@.ts.push(timestamp_millis(entry_timestamp(entry)));
                let lvl = old(self)@.lvl.push(level_code(entry.verbosity_level));
                let ids = old(self)@.ids.push(entry.template_id);
                let vars = old(self)@.vars + string_views(entry.variables@);
                let nl = old(self)@.nl.push(entry.has_newline);
                if ts.len() >= MAX_LINES_PER_CHUNK {
                    &&& r matches Some(chunk) && {
                        &&& chunk.chunk_id == old(self)@.next_chunk
                        &&& string_views(chunk.registry_delta@) == registry@.subrange(
                            old(self)@.templates_sent as int,
                            registry@.len() as int,
                        ).map_values(|e: (u64, Seq<char>)| e.1)
                        &&& chunk.ts_col@ == ts
                        &&& chunk.lvl_col@ == lvl
                        &&& chunk.id_col@ == ids
                        &&& string_views(chunk.var_col@) == vars
                        &&& chunk.nl_col@ == nl
                    }
                    &&& final(self)@.ts == Seq::<u64>::empty()
                    &&& final(self)@.lvl == Seq::<u8>::empty()
                    &&& final(self)@.ids == Seq::<u32>::empty()
                    &&& final(self)@.vars == Seq::<Seq<char>>::empty()
                    &&& final(self)@.nl == Seq::<bool>::empty()
                    &&& final(self)@.templates_sent == registry@.len()
                    &&& final(self)@.next_chunk == old(self)@.next_chunk.wrapping_add(1)
                } else {
                    &&& r is None
                    &&& final(self)@ == AccumulatorView { ts, lvl, ids, vars, nl, ..old(self)@ }
                }
            }),
    {
        let ts_millis = match &entry.timestamp {
            Some(t) => parse_timestamp_millis(t.as_str()),
            None => {
                let empty = String::new();
                parse_timestamp_millis(empty.as_str())
            },
        };
        self.ts_col.push(ts_millis);
        self.lvl_col.push(entry.verbosity_level.to_u8());
        self.id_col.push(entry.template_id);
        let ghost before_vars = string_views(self.var_col@);
        let n = entry.variables.len();
        let mut vs = entry.variables;
        let mut moved: Vec<String> = Vec::new();
        std::mem::swap(&mut moved, &mut vs);
        for i in 0..n
            invariant
                n == moved@.len(),
                string_views(moved@) == string_views(entry.variables@),
                string_views(self.var_col@) == before_vars + string_views(moved@).take(i as int),
                self.ts_col@.len() == old(self).ts_col@.len() + 1,
                self.lvl_col@.len() == old(self).lvl_col@.len() + 1,
                self.id_col@.len() == old(self).id_col@.len() + 1,
                self.nl_col@ == old(self).nl_col@,
                self.ts_col@ == old(self).ts_col@.push(ts_millis),
                self.lvl_col@ == old(self).lvl_col@.push(level_code(entry.verbosity_level)),
                self.id_col@ == old(self).id_col@.push(entry.template_id),
                self.max_lines_per_chunk == old(self).max_lines_per_chunk,
                self.current_line_count == old(self).current_line_count,
                self.last_template_count == old(self).last_template_count,
                self.chunk_counter == old(self).chunk_counter,
        {
            let v = moved[i].clone();
            let ghost before = string_views(self.var_col@);
            self.var_col.push(v);
            assert(string_views(self.var_col@) == before.push(v@));
            assert(string_views(moved@).take(i + 1) == string_views(moved@).take(i as int).push(
                moved@[i as int]@,
            ));
        }
        assert(string_views(moved@).take(n as int) == string_views(moved@));
        self.nl_col.push(entry.has_newline);
        self.current_line_count = self.current_line_count + 1;
        if self.current_line_count >= self.max_lines_per_chunk {
            return Some(self.take_chunk(registry));
        }
        None
    }
}

/// The templates chunk `j` carries when the chunks are cut with the
/// registries `regs` (one per cut, in order): those added since the
/// previous cut.
pub open spec fn delta_at(regs: Seq<Seq<(u64, Seq<char>)>>, j: int) -> Seq<Seq<char>> {
    let prev = if j == 0 {
        0
    } else {
        regs[j - 1].len() as int
    };
    regs[j].subrange(prev, regs[j].len() as int).map_values(|e: (u64, Seq<char>)| e.1)
}

/// The templates chunks `0..=k` carry together.
pub open spec fn deltas_upto(regs: Seq<Seq<(u64, Seq<char>)>>, k: int) -> Seq<Seq<char>>
    decreases k + 1,
{
    if k < 0 {
        Seq::empty()
    } else {
        deltas_upto(regs, k - 1) + delta_at(regs, k)
    }
}

/// Chunks cut one after another (`take_chunk` carries the templates added
/// since the previous cut) carry, up to chunk `k`, exactly the templates of
/// the registry at that cut, in id order, when each registry extends the
/// one before: a decoder reading the chunks in order resolves every id the
/// registry had given out when chunk `k` was cut.
pub proof fn law_deltas_rebuild_registry(regs: Seq<Seq<(u64, Seq<char>)>>, k: int)
    requires
        forall|j: int|
            0 <= j < regs.len() - 1 ==> #[trigger] regs[j].len() <= regs[j + 1].len()
                && regs[j + 1].subrange(0, regs[j].len() as int) == regs[j],
        0 <= k < regs.len(),
    ensures
        deltas_upto(regs, k) == regs[k].map_values(|e: (u64, Seq<char>)| e.1),
        deltas_upto(regs, k).len() == regs[k].len(),
        forall|id: int|
            0 <= id < regs[k].len() ==> #[trigger] deltas_upto(regs, k)[id] == regs[k][id].1,
    decreases k,
{
    let f = |e: (u64, Seq<char>)| e.1;
    if k == 0 {
        assert(deltas_upto(regs, -1) =~= Seq::<Seq<char>>::empty());
        assert(regs[0].subrange(0, regs[0].len() as int) =~= regs[0]);
        assert(Seq::<Seq<char>>::empty() + delta_at(regs, 0) =~= regs[0].map_values(f));
    } else {
        law_deltas_rebuild_registry(regs, k - 1);
        assert(regs[k - 1].len() <= regs[k].len());
        let p = regs[k - 1].len() as int;
        assert(regs[k].subrange(0, p) == regs[k - 1]);
        assert(regs[k - 1].map_values(f) + regs[k].subrange(p, regs[k].len() as int).map_values(f)
            =~= regs[k].map_values(f)) by {
            assert forall|i: int| 0 <= i < p implies #[trigger] regs[k - 1][i] == regs[k][i] by {
                assert(regs[k].subrange(0, p)[i] == regs[k][i]);
            }
        }
    }
}

} // verus!
