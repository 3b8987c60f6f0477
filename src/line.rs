use vstd::prelude::*;

use crate::decimal::{count_of, decimal_of, is_digit, is_number_char, read_count, read_decimal, Micros};

verus! {

/// The characters that `char::is_whitespace` accepts (Unicode `White_Space`).
pub open spec fn is_white_space(c: char) -> bool {
    ('\u{9}' <= c <= '\u{d}') || c == ' ' || c == '\u{85}' || c == '\u{a0}' || c == '\u{1680}'
        || ('\u{2000}' <= c <= '\u{200a}') || c == '\u{2028}' || c == '\u{2029}' || c == '\u{202f}'
        || c == '\u{205f}' || c == '\u{3000}'
}

/// The characters that may separate two fields: space, tab, carriage return, line feed.
pub open spec fn is_gap(c: char) -> bool {
    c == ' ' || c == '\t' || c == '\r' || c == '\n'
}

/// The kinds of character run that a line is cut into.
#[derive(Clone, Copy, Debug, PartialEq, Eq, Structural)]
pub enum CharClass {
    NonSpace,
    Space,
    Gap,
    Digit,
    Number,
}

/// Whether `c` belongs to the class `k`.
pub open spec fn in_class(c: char, k: CharClass) -> bool {
    match k {
        CharClass::NonSpace => !is_white_space(c),
        CharClass::Space => is_white_space(c),
        CharClass::Gap => is_gap(c),
        CharClass::Digit => is_digit(c),
        CharClass::Number => is_number_char(c),
    }
}

fn char_in_class(c: char, k: CharClass) -> (r: bool)
    ensures
        r == in_class(c, k),
{
    match k {
        CharClass::NonSpace => !white_space(c),
        CharClass::Space => white_space(c),
        CharClass::Gap => c == ' ' || c == '\t' || c == '\r' || c == '\n',
        CharClass::Digit => '0' <= c && c <= '9',
        CharClass::Number => ('0' <= c && c <= '9') || c == '.',
    }
}

fn white_space(c: char) -> (r: bool)
    ensures
        r == is_white_space(c),
{
    ('\u{9}' <= c && c <= '\u{d}') || c == ' ' || c == '\u{85}' || c == '\u{a0}' || c == '\u{1680}'
        || ('\u{2000}' <= c && c <= '\u{200a}') || c == '\u{2028}' || c == '\u{2029}' || c
        == '\u{202f}' || c == '\u{205f}' || c == '\u{3000}'
}

/// The end of the longest run of `k` characters of `s` that starts at `i`.
pub open spec fn run_end(s: Seq<char>, i: int, k: CharClass) -> int
    decreases s.len() - i,
{
    if 0 <= i < s.len() && in_class(s[i], k) {
        run_end(s, i + 1, k)
    } else {
        i
    }
}

/// A run that holds only `k` characters and stops before one that is not, or at the end,
/// is the longest such run.
pub proof fn lemma_run_end(s: Seq<char>, i: int, j: int, k: CharClass)
    requires
        0 <= i <= j <= s.len(),
        forall|m: int| i <= m < j ==> in_class(#[trigger] s[m], k),
        j == s.len() || !in_class(s[j], k),
    ensures
        run_end(s, i, k) == j,
    decreases j - i,
{
    if i < j {
        lemma_run_end(s, i + 1, j, k);
    }
}

fn scan(s: &str, n: usize, i: usize, k: CharClass) -> (j: usize)
    requires
        n == s@.len(),
        i <= n,
    ensures
        i <= j <= n,
        j == run_end(s@, i as int, k),
        forall|m: int| i <= m < j ==> in_class(#[trigger] s@[m], k),
{
    let mut j: usize = i;
    let mut stopped = false;
    while j < n && !stopped
        invariant
            n == s@.len(),
            i <= j <= n,
            forall|m: int| i <= m < j ==> in_class(#[trigger] s@[m], k),
            stopped ==> j < n && !in_class(s@[j as int], k),
        decreases n - j + (if stopped { 0int } else { 1int }),
    {
        if char_in_class(s.get_char(j), k) {
            j = j + 1;
        } else {
            stopped = true;
        }
    }
    proof {
        lemma_run_end(s@, i as int, j as int, k);
    }
    j
}

/// A mean time per hit, held exactly as the quotient `total / count`; it has no
/// value where `count` is zero.
#[derive(Clone, Copy, Debug, PartialEq, Eq, Structural)]
pub struct Mean {
    pub total: Micros,
    pub count: u64,
}

/// One function's profile: one line of a report, or the merge of several.
#[derive(Clone, Debug)]
pub struct FunctionStats {
    pub function_name: String,
    pub hit_count: u64,
    pub time_total: Micros,
    pub time_avg: Mean,
    pub time_variance: Micros,
}

/// A profile entry as plain values: its name as characters.
pub struct StatsView {
    pub name: Seq<char>,
    pub hit_count: u64,
    pub time_total: Micros,
    pub time_avg: Mean,
    pub time_variance: Micros,
}

impl View for FunctionStats {
    type V = StatsView;

    open spec fn view(&self) -> StatsView {
        StatsView {
            name: self.function_name@,
            hit_count: self.hit_count,
            time_total: self.time_total,
            time_avg: self.time_avg,
            time_variance: self.time_variance,
        }
    }
}

/// The field, or the separator before one, at which a line stopped matching.
#[derive(Clone, Copy, Debug, PartialEq, Eq, Structural)]
pub enum Stage {
    FunctionName,
    NameGap,
    HitCount,
    HitCountGap,
    TimeTotal,
    Unit,
    TotalGap,
    TimeAvg,
    AvgGap,
}

/// Why a line is not a profile entry: the stage reached and the text left from there.
#[derive(Clone, Debug)]
pub struct ParseError {
    pub stage: Stage,
    pub rest: String,
}

/// Zero microseconds.
pub open spec fn zero_micros() -> Micros {
    Micros { digits: 0, scale: 0 }
}

/// Whether ` us` stands at `i`.
pub open spec fn has_unit(s: Seq<char>, i: int) -> bool {
    i + 3 <= s.len() && s[i] == ' ' && s[i + 1] == 'u' && s[i + 2] == 's'
}

/// Where the mean field of a line ends, once the fields before it have been read.
pub open spec fn avg_end(s: Seq<char>) -> int {
    let a = run_end(s, 0, CharClass::NonSpace);
    let b = run_end(s, a, CharClass::Gap);
    let c = run_end(s, b, CharClass::Digit);
    let d = run_end(s, c, CharClass::Gap);
    let e = run_end(s, d, CharClass::Number);
    let f = run_end(s, e + 3, CharClass::Gap);
    run_end(s, f, CharClass::Number)
}

/// The fields of a line, left to right:
/// `name gap hit_count gap time_total " us" gap time_avg [gap time_variance]`.
/// An error gives the stage that failed and the position where it began.
pub open spec fn line_spec(s: Seq<char>) -> Result<StatsView, (Stage, int)> {
    let a = run_end(s, 0, CharClass::NonSpace);
    let b = run_end(s, a, CharClass::Gap);
    let c = run_end(s, b, CharClass::Digit);
    let d = run_end(s, c, CharClass::Gap);
    let e = run_end(s, d, CharClass::Number);
    let f = run_end(s, e + 3, CharClass::Gap);
    let g = run_end(s, f, CharClass::Number);
    let h = run_end(s, g, CharClass::Gap);
    let v = run_end(s, h, CharClass::Number);
    if a == 0 {
        Err((Stage::FunctionName, 0))
    } else if b == a {
        Err((Stage::NameGap, a))
    } else if count_of(s.subrange(b, c)) is None {
        Err((Stage::HitCount, b))
    } else if d == c {
        Err((Stage::HitCountGap, c))
    } else if decimal_of(s.subrange(d, e)) is None {
        Err((Stage::TimeTotal, d))
    } else if !has_unit(s, e) {
        Err((Stage::Unit, e))
    } else if f == e + 3 {
        Err((Stage::TotalGap, e + 3))
    } else if decimal_of(s.subrange(f, g)) is None {
        Err((Stage::TimeAvg, f))
    } else if run_end(s, g, CharClass::Space) < s.len() && h == g {
        Err((Stage::AvgGap, g))
    } else {
        Ok(
            StatsView {
                name: s.subrange(0, a),
                hit_count: count_of(s.subrange(b, c))->0,
                time_total: decimal_of(s.subrange(d, e))->0,
                time_avg: Mean { total: decimal_of(s.subrange(f, g))->0, count: 1 },
                time_variance: match decimal_of(s.subrange(h, v)) {
                    Some(x) => x,
                    None => zero_micros(),
                },
            },
        )
    }
}

fn fail(s: &str, n: usize, stage: Stage, at: usize) -> (r: Result<FunctionStats, ParseError>)
    requires
        n == s@.len(),
        at <= n,
    ensures
        r matches Err(e) && e.stage == stage && e.rest@ == s@.subrange(at as int, n as int),
{
    Err(ParseError { stage, rest: s.substring_char(at, n).to_owned() })
}

/// Reads one line (without leading whitespace) as a profile entry. A missing
/// variance, or a trailing field that is not a number, gives a variance of zero.
pub fn parse_line(s: &str) -> (r: Result<FunctionStats, ParseError>)
    ensures
        match (r, line_spec(s@)) {
            (Ok(x), Ok(y)) => x@ == y,
            (Err(x), Err((st, at))) => x.stage == st && 0 <= at <= s@.len() && x.rest@
                == s@.subrange(at, s@.len() as int),
            _ => false,
        },
{
    let n = s.unicode_len();
    let a = scan(s, n, 0, CharClass::NonSpace);
    if a == 0 {
        return fail(s, n, Stage::FunctionName, 0);
    }
    let b = scan(s, n, a, CharClass::Gap);
    if b == a {
        return fail(s, n, Stage::NameGap, a);
    }
    let c = scan(s, n, b, CharClass::Digit);
    let hit_count = match read_count(s, b, c) {
        Some(x) => x,
        None => {
            return fail(s, n, Stage::HitCount, b);
        },
    };
    let d = scan(s, n, c, CharClass::Gap);
    if d == c {
        return fail(s, n, Stage::HitCountGap, c);
    }
    let e = scan(s, n, d, CharClass::Number);
    let time_total = match read_decimal(s, d, e) {
        Some(x) => x,
        None => {
            return fail(s, n, Stage::TimeTotal, d);
        },
    };
    if !(n - e >= 3 && s.get_char(e) == ' ' && s.get_char(e + 1) == 'u' && s.get_char(e + 2)
        == 's') {
        return fail(s, n, Stage::Unit, e);
    }
    let f = scan(s, n, e + 3, CharClass::Gap);
    if f == e + 3 {
        return fail(s, n, Stage::TotalGap, e + 3);
    }
    let g = scan(s, n, f, CharClass::Number);
    let avg = match read_decimal(s, f, g) {
        Some(x) => x,
        None => {
            return fail(s, n, Stage::TimeAvg, f);
        },
    };
    let blank_end = scan(s, n, g, CharClass::Space);
    let h = scan(s, n, g, CharClass::Gap);
    if blank_end < n && h == g {
        return fail(s, n, Stage::AvgGap, g);
    }
    let v = scan(s, n, h, CharClass::Number);
    let time_variance = match read_decimal(s, h, v) {
        Some(x) => x,
        None => Micros::zero(),
    };
    let function_name = s.substring_char(0, a).to_owned();
    Ok(
        FunctionStats {
            function_name,
            hit_count,
            time_total,
            time_avg: Mean { total: avg, count: 1 },
            time_variance,
        },
    )
}

/// A line without its leading whitespace.
pub open spec fn trimmed(s: Seq<char>) -> Seq<char> {
    s.subrange(run_end(s, 0, CharClass::Space), s.len() as int)
}

/// Reads one line of a report, leading whitespace skipped, as a profile entry.
pub fn parse_entry(s: &str) -> (r: Result<FunctionStats, ParseError>)
    ensures
        match (r, line_spec(trimmed(s@))) {
            (Ok(x), Ok(y)) => x@ == y,
            (Err(x), Err((st, at))) => x.stage == st && 0 <= at <= trimmed(s@).len() && x.rest@
                == trimmed(s@).subrange(at, trimmed(s@).len() as int),
            _ => false,
        },
{
    let n = s.unicode_len();
    let lead = scan(s, n, 0, CharClass::Space);
    parse_line(s.substring_char(lead, n))
}

} // verus!
