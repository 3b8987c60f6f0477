use vstd::prelude::*;

use crate::decimal::{count_of, decimal_of, digits_at, is_digit, lemma_pow10_add, pow10, sum_of};
use crate::line::{
    avg_end, in_class, lemma_run_end, line_spec, run_end, trimmed, zero_micros, CharClass, Mean,
    Stage, StatsView,
};
use crate::render::{digits_text, lemma_digits_text, lemma_micros_text, line_text, micros_text};
use crate::table::{
    entries_of, finalize_spec, finalized, fold_spec, has_name, insert_spec, merged, names_unique,
    HEADER_LINES,
};

verus! {

/// Merging two entries of one name adds their hit counts and their total times
/// exactly, and fails only where one of those sums does not fit; a table that
/// holds the first entry then holds the merge, and nothing else.
pub proof fn law_merge_sums(a: StatsView, b: StatsView)
    requires
        a.name == b.name,
    ensures
        merged(a, b) is Some <==> (a.hit_count + b.hit_count <= u64::MAX && sum_of(
            a.time_total,
            b.time_total,
        ) is Some),
        merged(a, b) matches Some(m) ==> {
            &&& m.name == a.name
            &&& m.hit_count == a.hit_count + b.hit_count
            &&& m.time_total.digits == digits_at(a.time_total, m.time_total.scale as nat)
                + digits_at(b.time_total, m.time_total.scale as nat)
            &&& m.time_total.scale >= a.time_total.scale
            &&& m.time_total.scale >= b.time_total.scale
            &&& insert_spec(seq![a], b) == Some(seq![m])
        },
{
    let t = seq![a];
    assert(t[0].name == b.name);
    if let Some(m) = merged(a, b) {
        assert(t.update(0, m) =~= seq![m]);
    }
}

/// Merging is the same in either order, on hit counts and on total times.
pub proof fn law_merge_commutes(a: StatsView, b: StatsView)
    ensures
        merged(a, b) is Some <==> merged(b, a) is Some,
        merged(a, b) is Some ==> merged(a, b)->0.hit_count == merged(b, a)->0.hit_count
            && merged(a, b)->0.time_total == merged(b, a)->0.time_total,
{
}

/// After the final pass every entry's mean is its total time over its hit count,
/// names, counts and totals stay, and a second pass changes nothing.
pub proof fn law_final_means(t: Seq<StatsView>)
    ensures
        finalize_spec(t).len() == t.len(),
        forall|i: int|
            0 <= i < t.len() ==> {
                &&& (#[trigger] finalize_spec(t)[i]).time_avg == Mean {
                    total: t[i].time_total,
                    count: t[i].hit_count,
                }
                &&& finalize_spec(t)[i].name == t[i].name
                &&& finalize_spec(t)[i].hit_count == t[i].hit_count
                &&& finalize_spec(t)[i].time_total == t[i].time_total
            },
        finalize_spec(finalize_spec(t)) == finalize_spec(t),
{
    assert(finalize_spec(finalize_spec(t)) =~= finalize_spec(t));
}

/// A line that parses and has nothing but whitespace after its mean has a
/// variance of zero.
pub proof fn law_missing_variance(s: Seq<char>)
    requires
        line_spec(s) is Ok,
        run_end(s, avg_end(s), CharClass::Space) == s.len(),
    ensures
        line_spec(s)->Ok_0.time_variance == zero_micros(),
{
    let g = avg_end(s);
    let h = run_end(s, g, CharClass::Gap);
    lemma_run_end_bounds(s, g, CharClass::Gap);
    lemma_run_end_bounds(s, g, CharClass::Space);
    if h < s.len() {
        lemma_run_end_covers(s, g, CharClass::Space, h);
    }
    assert(run_end(s, h, CharClass::Number) == h);
    assert(s.subrange(h, h) =~= Seq::<char>::empty());
}

/// A line whose hit count does not begin with a digit fails at the hit count,
/// and adds no entry to its report.
pub proof fn law_bad_count_skipped(lines: Seq<Seq<char>>)
    requires
        lines.len() > HEADER_LINES,
        ({
            let t = trimmed(lines.last());
            let a = run_end(t, 0, CharClass::NonSpace);
            let b = run_end(t, a, CharClass::Gap);
            a > 0 && b > a && (b == t.len() || !is_digit(t[b]))
        }),
    ensures
        ({
            let t = trimmed(lines.last());
            let b = run_end(t, run_end(t, 0, CharClass::NonSpace), CharClass::Gap);
            line_spec(t) == Err::<StatsView, (Stage, int)>((Stage::HitCount, b))
        }),
        entries_of(lines) == entries_of(lines.drop_last()),
{
    let t = trimmed(lines.last());
    let a = run_end(t, 0, CharClass::NonSpace);
    let b = run_end(t, a, CharClass::Gap);
    lemma_run_end_bounds(t, 0, CharClass::NonSpace);
    lemma_run_end_bounds(t, a, CharClass::Gap);
    assert(run_end(t, b, CharClass::Digit) == b);
    assert(t.subrange(b, b) =~= Seq::<char>::empty());
}

proof fn lemma_run_end_bounds(s: Seq<char>, i: int, k: CharClass)
    requires
        0 <= i <= s.len(),
    ensures
        i <= run_end(s, i, k) <= s.len(),
    decreases s.len() - i,
{
    if i < s.len() && crate::line::in_class(s[i], k) {
        lemma_run_end_bounds(s, i + 1, k);
    }
}

proof fn lemma_run_end_covers(s: Seq<char>, i: int, k: CharClass, m: int)
    requires
        0 <= i <= m < run_end(s, i, k),
        run_end(s, i, k) <= s.len(),
    ensures
        crate::line::in_class(s[m], k),
    decreases m - i,
{
    if i < m {
        lemma_run_end_covers(s, i + 1, k, m);
    }
}

proof fn lemma_run_of(u: Seq<char>, i: int, p: Seq<char>, k: CharClass)
    requires
        0 <= i,
        i + p.len() <= u.len(),
        u.subrange(i, i + p.len()) == p,
        forall|m: int| 0 <= m < p.len() ==> in_class(#[trigger] p[m], k),
        i + p.len() == u.len() || !in_class(u[i + p.len()], k),
    ensures
        run_end(u, i, k) == i + p.len(),
{
    assert forall|m: int| i <= m < i + p.len() implies in_class(#[trigger] u[m], k) by {
        assert(u[m] == u.subrange(i, i + p.len())[m - i]);
    }
    lemma_run_end(u, i, i + p.len(), k);
}

/// A line that parses, written back as text by its name, hit count, total time
/// and mean, and read again, gives the same four fields, and a variance of zero.
pub proof fn law_round_trip(s: Seq<char>)
    requires
        line_spec(s) is Ok,
    ensures
        line_spec(line_text(line_spec(s)->Ok_0)) == Ok::<StatsView, (Stage, int)>(
            StatsView { time_variance: zero_micros(), ..line_spec(s)->Ok_0 },
        ),
{
    let r = line_spec(s)->Ok_0;
    let a = run_end(s, 0, CharClass::NonSpace);
    lemma_run_end_bounds(s, 0, CharClass::NonSpace);
    let name = r.name;
    assert(name == s.subrange(0, a));
    assert forall|m: int| 0 <= m < name.len() implies in_class(#[trigger] name[m], CharClass::NonSpace) by {
        lemma_run_end_covers(s, 0, CharClass::NonSpace, m);
    }
    let dt = digits_text(r.hit_count as nat);
    let tt = micros_text(r.time_total);
    let at = micros_text(r.time_avg.total);
    lemma_digits_text(r.hit_count as nat);
    lemma_micros_text(r.time_total);
    lemma_micros_text(r.time_avg.total);
    let u = line_text(r);
    let n0 = name.len() as int;
    let b = n0 + 1;
    let c = b + dt.len();
    let d = c + 1;
    let e = d + tt.len();
    let f = e + 4;
    assert(u.len() == f + at.len());
    assert(u.subrange(0, n0) =~= name);
    assert(u[n0] == ' ');
    assert(u.subrange(n0, b) =~= seq![' ']);
    assert(u.subrange(b, c) =~= dt);
    assert(u[c] == ' ');
    assert(u.subrange(c, d) =~= seq![' ']);
    assert(u.subrange(d, e) =~= tt);
    assert(u[e] == ' ' && u[e + 1] == 'u' && u[e + 2] == 's' && u[e + 3] == ' ');
    assert(u.subrange(e + 3, f) =~= seq![' ']);
    assert(u.subrange(f, u.len() as int) =~= at);
    assert(u[b] == dt[0]);
    assert(u[d] == tt[0]);
    assert(u[f] == at[0]);
    assert(is_digit(dt[0]));
    lemma_run_of(u, 0, name, CharClass::NonSpace);
    lemma_run_of(u, n0, seq![' '], CharClass::Gap);
    assert forall|m: int| 0 <= m < dt.len() implies in_class(#[trigger] dt[m], CharClass::Digit) by {}
    lemma_run_of(u, b, dt, CharClass::Digit);
    lemma_run_of(u, c, seq![' '], CharClass::Gap);
    lemma_run_of(u, d, tt, CharClass::Number);
    lemma_run_of(u, e + 3, seq![' '], CharClass::Gap);
    lemma_run_of(u, f, at, CharClass::Number);
    let len = u.len() as int;
    assert(run_end(u, len, CharClass::Space) == len);
    assert(run_end(u, len, CharClass::Gap) == len);
    assert(run_end(u, len, CharClass::Number) == len);
    assert(u.subrange(len, len) =~= Seq::<char>::empty());
    assert(count_of(dt) == Some(r.hit_count));
    assert(decimal_of(tt) == Some(r.time_total));
    assert(decimal_of(at) == Some(r.time_avg.total));
    assert(r.time_avg.count == 1);
}

/// The hit counts of the records named `name`, added up.
pub open spec fn hits_of(rs: Seq<StatsView>, name: Seq<char>) -> nat
    decreases rs.len(),
{
    if rs.len() == 0 {
        0
    } else {
        hits_of(rs.drop_last(), name) + if rs.last().name == name {
            rs.last().hit_count as nat
        } else {
            0
        }
    }
}

/// The total times of the records named `name`, added up as digits at scale `s`.
pub open spec fn totals_of(rs: Seq<StatsView>, name: Seq<char>, s: nat) -> nat
    decreases rs.len(),
{
    if rs.len() == 0 {
        0
    } else {
        totals_of(rs.drop_last(), name, s) + if rs.last().name == name {
            digits_at(rs.last().time_total, s)
        } else {
            0
        }
    }
}

proof fn lemma_sums_step(rs: Seq<StatsView>, name: Seq<char>, s: nat)
    requires
        rs.len() > 0,
    ensures
        hits_of(rs, name) == hits_of(rs.drop_last(), name) + if rs.last().name == name {
            rs.last().hit_count as nat
        } else {
            0
        },
        totals_of(rs, name, s) == totals_of(rs.drop_last(), name, s) + if rs.last().name == name {
            digits_at(rs.last().time_total, s)
        } else {
            0
        },
{
}

proof fn lemma_sum_at(a: crate::decimal::Micros, b: crate::decimal::Micros, s: nat)
    requires
        sum_of(a, b) is Some,
        sum_of(a, b)->0.scale <= s,
    ensures
        digits_at(sum_of(a, b)->0, s) == digits_at(a, s) + digits_at(b, s),
{
    let m = sum_of(a, b)->0;
    let k = m.scale as nat;
    let ea = (k - a.scale) as nat;
    let eb = (k - b.scale) as nat;
    let up = (s - k) as nat;
    lemma_pow10_add(ea, up);
    lemma_pow10_add(eb, up);
    assert(ea + up == s - a.scale);
    assert(eb + up == s - b.scale);
    assert(digits_at(m, s) == (a.digits * pow10(ea) + b.digits * pow10(eb)) * pow10(up));
    assert((a.digits * pow10(ea) + b.digits * pow10(eb)) * pow10(up) == a.digits * (pow10(ea)
        * pow10(up)) + b.digits * (pow10(eb) * pow10(up))) by (nonlinear_arith);
}

/// After entries are folded into an empty table, each name appears once, and
/// each entry's hit count and total time are the sums over every record of its
/// name (times compared at any scale `s` that no record's scale exceeds).
pub proof fn law_fold_sums(rs: Seq<StatsView>, s: nat)
    requires
        fold_spec(Seq::empty(), rs) is Some,
        forall|j: int| 0 <= j < rs.len() ==> (#[trigger] rs[j]).time_total.scale <= s,
    ensures
        names_unique(fold_spec(Seq::empty(), rs)->0),
        forall|i: int|
            0 <= i < fold_spec(Seq::empty(), rs)->0.len() ==> {
                let e = #[trigger] fold_spec(Seq::empty(), rs)->0[i];
                &&& e.hit_count == hits_of(rs, e.name)
                &&& e.time_total.scale <= s
                &&& digits_at(e.time_total, s) == totals_of(rs, e.name, s)
            },
        forall|name: Seq<char>|
            !has_name(fold_spec(Seq::empty(), rs)->0, name) ==> hits_of(rs, name) == 0
                && totals_of(rs, name, s) == 0,
    decreases rs.len(),
{
    let t = fold_spec(Seq::empty(), rs)->0;
    if rs.len() == 0 {
        assert(t =~= Seq::<StatsView>::empty());
    } else {
        let p = rs.drop_last();
        let r = rs.last();
        assert(fold_spec(Seq::empty(), p) is Some);
        assert forall|j: int| 0 <= j < p.len() implies (#[trigger] p[j]).time_total.scale <= s by {
            assert(p[j] == rs[j]);
        }
        law_fold_sums(p, s);
        let u = fold_spec(Seq::empty(), p)->0;
        assert(r.time_total.scale <= s);
        if has_name(u, r.name) {
            let i = choose|i: int| 0 <= i < u.len() && (#[trigger] u[i]).name == r.name;
            let m = merged(u[i], r)->0;
            assert(t == u.update(i, m));
            lemma_sum_at(u[i].time_total, r.time_total, s);
            assert forall|j: int| 0 <= j < t.len() implies {
                let e = #[trigger] t[j];
                &&& e.hit_count == hits_of(rs, e.name)
                &&& e.time_total.scale <= s
                &&& digits_at(e.time_total, s) == totals_of(rs, e.name, s)
            } by {
                lemma_sums_step(rs, t[j].name, s);
                if j != i {
                    assert(u[j].name != u[i].name);
                    assert(t[j] == u[j]);
                }
            }
            assert forall|name: Seq<char>| !has_name(t, name) implies hits_of(rs, name) == 0
                && totals_of(rs, name, s) == 0 by {
                lemma_sums_step(rs, name, s);
                if has_name(u, name) {
                    let j = choose|j: int| 0 <= j < u.len() && (#[trigger] u[j]).name == name;
                    if j == i {
                        assert(t[i].name == name);
                    } else {
                        assert(t[j] == u[j]);
                    }
                    assert(has_name(t, name));
                }
                if name == r.name {
                    assert(t[i].name == name);
                    assert(has_name(t, name));
                }
            }
        } else {
            assert(t == u.push(r));
            assert forall|j: int| 0 <= j < t.len() implies {
                let e = #[trigger] t[j];
                &&& e.hit_count == hits_of(rs, e.name)
                &&& e.time_total.scale <= s
                &&& digits_at(e.time_total, s) == totals_of(rs, e.name, s)
            } by {
                lemma_sums_step(rs, t[j].name, s);
                if j < u.len() {
                    assert(t[j] == u[j]);
                    assert(u[j].name != r.name);
                } else {
                    assert(t[j] == r);
                }
            }
            assert forall|name: Seq<char>| !has_name(t, name) implies hits_of(rs, name) == 0
                && totals_of(rs, name, s) == 0 by {
                lemma_sums_step(rs, name, s);
                assert(t[u.len() as int] == r);
                if has_name(u, name) {
                    let j = choose|j: int| 0 <= j < u.len() && (#[trigger] u[j]).name == name;
                    assert(t[j] == u[j]);
                    assert(has_name(t, name));
                }
                if name == r.name {
                    assert(has_name(t, name));
                }
            }
            assert forall|a: int, b: int|
                0 <= a < t.len() && 0 <= b < t.len() && a != b implies (#[trigger] t[a]).name
                != (#[trigger] t[b]).name by {
                if a < u.len() && b < u.len() {
                    assert(t[a] == u[a] && t[b] == u[b]);
                } else if a < u.len() {
                    assert(t[a] == u[a]);
                } else if b < u.len() {
                    assert(t[b] == u[b]);
                }
            }
        }
    }
}

} // verus!
