use vstd::prelude::*;

use crate::decimal::{add_micros, sum_of, Micros};
use crate::line::{line_spec, parse_entry, trimmed, FunctionStats, Mean, ParseError, Stage, StatsView};

verus! {

/// `e` with `r` merged in: hit counts and total times add up, the rest of `e`
/// stays; `None` where a sum does not fit.
pub open spec fn merged(e: StatsView, r: StatsView) -> Option<StatsView> {
    if e.hit_count + r.hit_count <= u64::MAX && sum_of(e.time_total, r.time_total) is Some {
        Some(
            StatsView {
                hit_count: (e.hit_count + r.hit_count) as u64,
                time_total: sum_of(e.time_total, r.time_total)->0,
                ..e
            },
        )
    } else {
        None
    }
}

/// Whether some entry of `t` is named `name`.
pub open spec fn has_name(t: Seq<StatsView>, name: Seq<char>) -> bool {
    exists|i: int| 0 <= i < t.len() && (#[trigger] t[i]).name == name
}

/// No two entries of `t` share a name.
pub open spec fn names_unique(t: Seq<StatsView>) -> bool {
    forall|i: int, j: int|
        0 <= i < t.len() && 0 <= j < t.len() && i != j ==> (#[trigger] t[i]).name != (#[trigger] t[j]).name
}

/// Folds one entry into a table: merged into the entry of the same name, or
/// appended where there is none.
pub open spec fn insert_spec(t: Seq<StatsView>, r: StatsView) -> Option<Seq<StatsView>> {
    if has_name(t, r.name) {
        let i = choose|i: int| 0 <= i < t.len() && (#[trigger] t[i]).name == r.name;
        match merged(t[i], r) {
            Some(m) => Some(t.update(i, m)),
            None => None,
        }
    } else {
        Some(t.push(r))
    }
}

/// Folds entries into a table, in order.
pub open spec fn fold_spec(t: Seq<StatsView>, rs: Seq<StatsView>) -> Option<Seq<StatsView>>
    decreases rs.len(),
{
    if rs.len() == 0 {
        Some(t)
    } else {
        match fold_spec(t, rs.drop_last()) {
            Some(u) => insert_spec(u, rs.last()),
            None => None,
        }
    }
}

/// `e` with its mean set to its total time over its hit count.
pub open spec fn finalized(e: StatsView) -> StatsView {
    StatsView { time_avg: Mean { total: e.time_total, count: e.hit_count }, ..e }
}

/// Every entry with its mean set to its total time over its hit count.
pub open spec fn finalize_spec(t: Seq<StatsView>) -> Seq<StatsView> {
    t.map_values(|e: StatsView| finalized(e))
}

/// A sum of hit counts or of times that does not fit, for the named function.
#[derive(Clone, Debug)]
pub struct SumOverflow {
    pub function_name: String,
}

/// Profiles keyed by function name, in the order in which names first came.
pub struct StatTable {
    entries: Vec<FunctionStats>,
}

impl View for StatTable {
    type V = Seq<StatsView>;

    closed spec fn view(&self) -> Seq<StatsView> {
        self.entries@.map_values(|e: FunctionStats| e@)
    }
}

impl FunctionStats {
    /// A copy of this entry.
    pub fn duplicate(&self) -> (r: FunctionStats)
        ensures
            r@ == self@,
    {
        FunctionStats {
            function_name: self.function_name.clone(),
            hit_count: self.hit_count,
            time_total: self.time_total,
            time_avg: self.time_avg,
            time_variance: self.time_variance,
        }
    }
}

impl StatTable {
    pub open spec fn wf(&self) -> bool {
        names_unique(self@)
    }

    /// An empty table.
    pub fn new() -> (r: StatTable)
        ensures
            r@ == Seq::<StatsView>::empty(),
            r.wf(),
    {
        let r = StatTable { entries: Vec::new() };
        assert(r@ =~= Seq::<StatsView>::empty());
        r
    }

    pub fn len(&self) -> (r: usize)
        ensures
            r == self@.len(),
    {
        self.entries.len()
    }

    /// The entry at position `i`.
    pub fn get(&self, i: usize) -> (r: &FunctionStats)
        requires
            i < self@.len(),
        ensures
            r@ == self@[i as int],
    {
        &self.entries[i]
    }

    /// The entry named `name`, if any.
    pub fn find(&self, name: &String) -> (r: Option<usize>)
        ensures
            match r {
                Some(i) => i < self@.len() && self@[i as int].name == name@,
                None => !has_name(self@, name@),
            },
    {
        let mut i: usize = 0;
        while i < self.entries.len()
            invariant
                i <= self.entries@.len(),
                forall|j: int| 0 <= j < i ==> (#[trigger] self@[j]).name != name@,
            decreases self.entries@.len() - i,
        {
            if self.entries[i].function_name == *name {
                return Some(i);
            }
            i = i + 1;
        }
        None
    }

    /// Folds one entry in; on an overflowing sum the table stays as it was.
    pub fn add(&mut self, rec: FunctionStats) -> (r: Result<(), SumOverflow>)
        requires
            old(self).wf(),
        ensures
            final(self).wf(),
            match insert_spec(old(self)@, rec@) {
                Some(t) => r is Ok && final(self)@ == t,
                None => r is Err && final(self)@ == old(self)@,
            },
    {
        match self.find(&rec.function_name) {
            Some(i) => {
                let e = &self.entries[i];
                assert(e@ == self@[i as int]);
                let ghost j = choose|j: int|
                    0 <= j < self@.len() && (#[trigger] self@[j]).name == rec@.name;
                assert(j == i);
                if e.hit_count > u64::MAX - rec.hit_count {
                    return Err(SumOverflow { function_name: rec.function_name });
                }
                let time_total = match add_micros(e.time_total, rec.time_total) {
                    Some(x) => x,
                    None => {
                        return Err(SumOverflow { function_name: rec.function_name });
                    },
                };
                let m = FunctionStats {
                    function_name: e.function_name.clone(),
                    hit_count: e.hit_count + rec.hit_count,
                    time_total,
                    time_avg: e.time_avg,
                    time_variance: e.time_variance,
                };
                let ghost before = self@;
                self.entries.set(i, m);
                assert(self@ =~= before.update(i as int, m@));
                Ok(())
            },
            None => {
                let ghost before = self@;
                self.entries.push(rec);
                assert(self@ =~= before.push(rec@));
                Ok(())
            },
        }
    }

    /// Folds every entry of `other` in, in its order, by the rule of `add`.
    pub fn absorb(&mut self, other: &StatTable) -> (r: Result<(), SumOverflow>)
        requires
            old(self).wf(),
        ensures
            final(self).wf(),
            r is Ok <==> fold_spec(old(self)@, other@) is Some,
            r is Ok ==> final(self)@ == fold_spec(old(self)@, other@)->0,
    {
        let ghost start = old(self)@;
        let mut i: usize = 0;
        while i < other.entries.len()
            invariant
                self.wf(),
                i <= other@.len(),
                fold_spec(start, other@.take(i as int)) == Some(self@),
                start == old(self)@,
            decreases other@.len() - i,
        {
            let ghost p = other@.take(i as int + 1);
            assert(p.drop_last() =~= other@.take(i as int));
            let rec = other.entries[i].duplicate();
            assert(rec@ == other@[i as int]);
            assert(p.last() == rec@);
            let ghost before = self@;
            match self.add(rec) {
                Ok(()) => {},
                Err(e) => {
                    proof {
                        assert(insert_spec(before, rec@) is None);
                        assert(fold_spec(start, p) is None);
                        assert(p.len() == i + 1);
                        assert(p == other@.take(p.len() as int));
                        lemma_fold_none_extends(start, p, other@);
                        assert(fold_spec(start, other@) is None);
                    }
                    return Err(e);
                },
            }
            i = i + 1;
        }
        assert(other@.take(other@.len() as int) =~= other@);
        Ok(())
    }

    /// Sets every entry's mean to its total time over its hit count.
    pub fn finalize(&mut self)
        requires
            old(self).wf(),
        ensures
            final(self).wf(),
            final(self)@ == finalize_spec(old(self)@),
    {
        let ghost start = self@;
        let mut i: usize = 0;
        while i < self.entries.len()
            invariant
                i <= self@.len() == start.len(),
                forall|j: int| 0 <= j < i ==> #[trigger] self@[j] == finalized(start[j]),
                forall|j: int| i <= j < self@.len() ==> #[trigger] self@[j] == start[j],
            decreases self@.len() - i,
        {
            assert(self.entries@[i as int]@ == self@[i as int]);
            let e = self.entries[i].duplicate();
            let m = FunctionStats {
                time_avg: Mean { total: e.time_total, count: e.hit_count },
                ..e
            };
            assert(m@ == finalized(start[i as int]));
            let ghost before = self@;
            self.entries.set(i, m);
            assert(self@ =~= before.update(i as int, m@));
            i = i + 1;
        }
        assert(self@ =~= finalize_spec(start));
        assert forall|a: int, b: int|
            0 <= a < self@.len() && 0 <= b < self@.len() && a != b implies (#[trigger] self@[a]).name
            != (#[trigger] self@[b]).name by {
            assert(start[a].name != start[b].name);
        }
    }
}

/// Once a fold overflows, folding more entries after it overflows too.
proof fn lemma_fold_none_extends(t: Seq<StatsView>, p: Seq<StatsView>, rs: Seq<StatsView>)
    requires
        p.len() <= rs.len(),
        p == rs.take(p.len() as int),
        fold_spec(t, p) is None,
    ensures
        fold_spec(t, rs) is None,
    decreases rs.len() - p.len(),
{
    if p.len() < rs.len() {
        let q = rs.take(p.len() as int + 1);
        assert(q.drop_last() =~= p);
        lemma_fold_none_extends(t, q, rs);
    } else {
        assert(rs =~= p);
    }
}

/// The number of header lines at the top of every report.
pub const HEADER_LINES: usize = 2;

/// The entries of the lines after the header that parse, in order.
pub open spec fn entries_of(lines: Seq<Seq<char>>) -> Seq<StatsView>
    decreases lines.len(),
{
    if lines.len() <= HEADER_LINES {
        Seq::empty()
    } else {
        let p = entries_of(lines.drop_last());
        match line_spec(trimmed(lines.last())) {
            Ok(r) => p.push(r),
            Err(_) => p,
        }
    }
}

/// For each line after the header that does not parse, in order: its number
/// (counted from one), the stage that failed, and the text left from there.
pub open spec fn failures_of(lines: Seq<Seq<char>>) -> Seq<(nat, Stage, Seq<char>)>
    decreases lines.len(),
{
    if lines.len() <= HEADER_LINES {
        Seq::empty()
    } else {
        let p = failures_of(lines.drop_last());
        let t = trimmed(lines.last());
        match line_spec(t) {
            Ok(_) => p,
            Err((st, at)) => p.push((lines.len(), st, t.subrange(at, t.len() as int))),
        }
    }
}

/// The characters of each line.
pub open spec fn texts(lines: Seq<String>) -> Seq<Seq<char>> {
    lines.map_values(|l: String| l@)
}

/// A line that did not parse.
#[derive(Clone, Debug)]
pub struct LineError {
    pub line: usize,
    pub error: ParseError,
}

/// What one report holds: its entries merged by name, and its bad lines.
pub struct FileSummary {
    pub table: StatTable,
    pub errors: Vec<LineError>,
}

/// The bad lines listed as `f` lists them: number, stage and text left.
pub open spec fn errors_match(errors: Seq<LineError>, f: Seq<(nat, Stage, Seq<char>)>) -> bool {
    &&& errors.len() == f.len()
    &&& forall|k: int|
        0 <= k < f.len() ==> {
            &&& (#[trigger] errors[k]).line == f[k].0
            &&& errors[k].error.stage == f[k].1
            &&& errors[k].error.rest@ == f[k].2
        }
}

proof fn lemma_entries_prefix(lines: Seq<Seq<char>>, j: int, k: int)
    requires
        0 <= j <= k <= lines.len(),
    ensures
        entries_of(lines.take(j)).len() <= entries_of(lines.take(k)).len(),
        entries_of(lines.take(k)).take(entries_of(lines.take(j)).len() as int) == entries_of(
            lines.take(j),
        ),
    decreases k - j,
{
    if j < k {
        lemma_entries_prefix(lines, j, k - 1);
        assert(lines.take(k).drop_last() =~= lines.take(k - 1));
        let a = entries_of(lines.take(j));
        let b = entries_of(lines.take(k - 1));
        let c = entries_of(lines.take(k));
        if k > HEADER_LINES {
            assert(c.take(a.len() as int) =~= b.take(a.len() as int));
        }
    } else {
        assert(entries_of(lines.take(k)).take(entries_of(lines.take(j)).len() as int)
            =~= entries_of(lines.take(j)));
    }
}

/// Reads the lines of one report: skips the header, merges the entries of the
/// lines that parse, and lists those that do not.
pub fn summarize_file(lines: &Vec<String>) -> (r: Result<FileSummary, SumOverflow>)
    ensures
        r is Ok <==> fold_spec(Seq::empty(), entries_of(texts(lines@))) is Some,
        r matches Ok(s) ==> {
            &&& s.table.wf()
            &&& s.table@ == fold_spec(Seq::empty(), entries_of(texts(lines@)))->0
            &&& errors_match(s.errors@, failures_of(texts(lines@)))
        },
{
    let ghost all = texts(lines@);
    let mut table = StatTable::new();
    let mut errors: Vec<LineError> = Vec::new();
    let mut i: usize = if lines.len() < HEADER_LINES { lines.len() } else { HEADER_LINES };
    proof {
        assert(entries_of(all.take(i as int)) =~= Seq::<StatsView>::empty());
        assert(failures_of(all.take(i as int)) =~= Seq::<(nat, Stage, Seq<char>)>::empty());
        assert(fold_spec(Seq::empty(), Seq::<StatsView>::empty()) == Some(Seq::<StatsView>::empty()));
    }
    while i < lines.len()
        invariant
            all == texts(lines@),
            i <= lines@.len(),
            i >= HEADER_LINES || i == lines@.len(),
            table.wf(),
            fold_spec(Seq::empty(), entries_of(all.take(i as int))) == Some(table@),
            errors_match(errors@, failures_of(all.take(i as int))),
        decreases lines@.len() - i,
    {
        let ghost p = all.take(i as int + 1);
        assert(p.drop_last() =~= all.take(i as int));
        assert(p.last() == lines@[i as int]@);
        assert(p.len() > HEADER_LINES);
        match parse_entry(lines[i].as_str()) {
            Ok(rec) => {
                let ghost before = table@;
                let ghost es = entries_of(p);
                assert(es.drop_last() =~= entries_of(all.take(i as int)));
                match table.add(rec) {
                    Ok(()) => {},
                    Err(e) => {
                        proof {
                            lemma_entries_prefix(all, i as int + 1, all.len() as int);
                            assert(all.take(all.len() as int) =~= all);
                            lemma_fold_none_extends(Seq::empty(), es, entries_of(all));
                        }
                        return Err(e);
                    },
                }
            },
            Err(error) => {
                errors.push(LineError { line: i + 1, error });
            },
        }
        i = i + 1;
    }
    assert(all.take(lines@.len() as int) =~= all);
    Ok(FileSummary { table, errors })
}

} // verus!
