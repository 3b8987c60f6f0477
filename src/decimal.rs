use vstd::prelude::*;

verus! {

/// Ten to the power `n`.
pub open spec fn pow10(n: nat) -> nat
    decreases n,
{
    if n == 0 {
        1
    } else {
        10 * pow10((n - 1) as nat)
    }
}

/// Powers of ten multiply by adding exponents, and none is zero.
pub proof fn lemma_pow10_add(a: nat, b: nat)
    ensures
        pow10(a + b) == pow10(a) * pow10(b),
        pow10(a) >= 1,
    decreases a,
{
    if a > 0 {
        let a1 = (a - 1) as nat;
        lemma_pow10_add(a1, b);
        assert(((a + b) - 1) as nat == a1 + b);
        assert(pow10(a + b) == 10 * pow10(a1 + b));
        assert(pow10(a) * pow10(b) == 10 * (pow10((a - 1) as nat) * pow10(b))) by (nonlinear_arith)
            requires
                pow10(a) == 10 * pow10((a - 1) as nat),
        ;
        assert(pow10(a + b) == pow10(a) * pow10(b));
        assert(pow10(a) >= 1);
    } else {
        assert(pow10(a) == 1);
        assert(a + b == b);
    }
}

/// A decimal digit.
pub open spec fn is_digit(c: char) -> bool {
    '0' <= c <= '9'
}

/// A character that may stand in a number: a decimal digit or a decimal point.
pub open spec fn is_number_char(c: char) -> bool {
    is_digit(c) || c == '.'
}

/// The value of a decimal digit.
pub open spec fn digit_value(c: char) -> nat {
    (c as int - '0' as int) as nat
}

/// Reads a run of digits and points from the left: the digits taken as one
/// integer, the number of points, and the number of digits after the first point.
pub open spec fn number_scan(t: Seq<char>) -> (nat, nat, nat)
    decreases t.len(),
{
    if t.len() == 0 {
        (0, 0, 0)
    } else {
        let (m, d, f) = number_scan(t.drop_last());
        if t.last() == '.' {
            (m, d + 1, f)
        } else {
            (m * 10 + digit_value(t.last()), d, if d > 0 { f + 1 } else { f })
        }
    }
}

/// A non-negative time in microseconds, held exactly as `digits / 10^scale`.
#[derive(Clone, Copy, Debug, PartialEq, Eq, Structural)]
pub struct Micros {
    pub digits: u128,
    pub scale: usize,
}

impl Micros {
    /// Zero microseconds.
    pub fn zero() -> (r: Micros)
        ensures
            r == (Micros { digits: 0, scale: 0 }),
    {
        Micros { digits: 0, scale: 0 }
    }
}

/// The time that a run of digits and points denotes: at least one digit, at most
/// one point, and digits that fit in a `u128` when read without the point.
pub open spec fn decimal_of(t: Seq<char>) -> Option<Micros> {
    let (m, d, f) = number_scan(t);
    if d <= 1 && t.len() > d && m <= u128::MAX {
        Some(Micros { digits: m as u128, scale: f as usize })
    } else {
        None
    }
}

/// The count that a run of digits denotes, where it fits in a `u64`.
pub open spec fn count_of(t: Seq<char>) -> Option<u64> {
    let (m, d, f) = number_scan(t);
    if t.len() > 0 && m <= u64::MAX {
        Some(m as u64)
    } else {
        None
    }
}

proof fn lemma_scan_prefix(t: Seq<char>, k: int)
    requires
        0 <= k <= t.len(),
        forall|j: int| 0 <= j < t.len() ==> is_number_char(#[trigger] t[j]),
    ensures
        number_scan(t.subrange(0, k)).0 <= number_scan(t).0,
        number_scan(t.subrange(0, k)).1 <= number_scan(t).1,
        number_scan(t).2 <= t.len(),
        number_scan(t).1 <= t.len(),
    decreases t.len(),
{
    if t.len() > 0 {
        let p = t.drop_last();
        if k == t.len() {
            assert(t.subrange(0, k) =~= t);
            lemma_scan_prefix(p, 0);
        } else {
            assert(t.subrange(0, k) =~= p.subrange(0, k));
            lemma_scan_prefix(p, k);
        }
    } else {
        assert(t.subrange(0, k) =~= t);
    }
}

/// Reads `s[from..to]`, a run of digits and points, as a time.
pub fn read_decimal(s: &str, from: usize, to: usize) -> (r: Option<Micros>)
    requires
        from <= to <= s@.len(),
        forall|j: int| from <= j < to ==> is_number_char(#[trigger] s@[j]),
    ensures
        r == decimal_of(s@.subrange(from as int, to as int)),
{
    let ghost t = s@.subrange(from as int, to as int);
    proof {
        lemma_scan_prefix(t, t.len() as int);
    }
    let mut m: u128 = 0;
    let mut d: usize = 0;
    let mut f: usize = 0;
    let mut i: usize = from;
    while i < to
        invariant
            from <= i <= to <= s@.len(),
            t == s@.subrange(from as int, to as int),
            forall|j: int| from <= j < to ==> is_number_char(#[trigger] s@[j]),
            number_scan(t.subrange(0, i - from)) == (m as nat, d as nat, f as nat),
            d <= 1,
            f <= i - from,
        decreases to - i,
    {
        let c = s.get_char(i);
        let ghost p = t.subrange(0, i + 1 - from);
        assert(p.drop_last() =~= t.subrange(0, i - from));
        assert(p.last() == c);
        proof {
            lemma_scan_prefix(t, i + 1 - from);
        }
        if c == '.' {
            if d == 1 {
                return None;
            }
            d = 1;
        } else {
            let v = (c as u32 - '0' as u32) as u128;
            if m > (u128::MAX - v) / 10 {
                assert(m * 10 + v > u128::MAX) by (nonlinear_arith)
                    requires
                        m > (u128::MAX - v) / 10,
                        v <= 9,
                ;
                return None;
            }
            assert(m * 10 + v <= u128::MAX) by (nonlinear_arith)
                requires
                    m <= (u128::MAX - v) / 10,
                    v <= 9,
            ;
            m = m * 10 + v;
            if d > 0 {
                f = f + 1;
            }
        }
        i = i + 1;
    }
    assert(t.subrange(0, to - from) =~= t);
    if d < to - from {
        Some(Micros { digits: m, scale: f })
    } else {
        None
    }
}

/// Reads `s[from..to]`, a run of digits, as a count.
pub fn read_count(s: &str, from: usize, to: usize) -> (r: Option<u64>)
    requires
        from <= to <= s@.len(),
        forall|j: int| from <= j < to ==> is_digit(#[trigger] s@[j]),
    ensures
        r == count_of(s@.subrange(from as int, to as int)),
{
    let ghost t = s@.subrange(from as int, to as int);
    assert forall|j: int| 0 <= j < t.len() implies is_number_char(#[trigger] t[j]) by {
        assert(is_digit(s@[from + j]));
    }
    let mut m: u64 = 0;
    let mut i: usize = from;
    while i < to
        invariant
            from <= i <= to <= s@.len(),
            t == s@.subrange(from as int, to as int),
            forall|j: int| from <= j < to ==> is_digit(#[trigger] s@[j]),
            forall|j: int| 0 <= j < t.len() ==> is_number_char(#[trigger] t[j]),
            number_scan(t.subrange(0, i - from)).0 == m as nat,
        decreases to - i,
    {
        let c = s.get_char(i);
        let ghost p = t.subrange(0, i + 1 - from);
        assert(p.drop_last() =~= t.subrange(0, i - from));
        assert(p.last() == c);
        proof {
            lemma_scan_prefix(t, i + 1 - from);
        }
        let v = (c as u32 - '0' as u32) as u64;
        if m > (u64::MAX - v) / 10 {
            assert(m * 10 + v > u64::MAX) by (nonlinear_arith)
                requires
                    m > (u64::MAX - v) / 10,
                    v <= 9,
            ;
            return None;
        }
        assert(m * 10 + v <= u64::MAX) by (nonlinear_arith)
            requires
                m <= (u64::MAX - v) / 10,
                v <= 9,
        ;
        m = m * 10 + v;
        i = i + 1;
    }
    assert(t.subrange(0, to - from) =~= t);
    if from < to {
        Some(m)
    } else {
        None
    }
}

/// `m.digits` written at the finer scale `s` (`s >= m.scale`).
pub open spec fn digits_at(m: Micros, s: nat) -> nat {
    m.digits as nat * pow10((s - m.scale) as nat)
}

/// The exact sum of two times, at the finer of their two scales; `None` where its
/// digits do not fit in a `u128`.
pub open spec fn sum_of(a: Micros, b: Micros) -> Option<Micros> {
    let s: nat = if a.scale >= b.scale { a.scale as nat } else { b.scale as nat };
    let v = digits_at(a, s) + digits_at(b, s);
    if v <= u128::MAX {
        Some(Micros { digits: v as u128, scale: s as usize })
    } else {
        None
    }
}

fn digits_at_scale(m: Micros, s: usize) -> (r: Option<u128>)
    requires
        m.scale <= s,
    ensures
        r == (if digits_at(m, s as nat) <= u128::MAX {
            Some(digits_at(m, s as nat) as u128)
        } else {
            None
        }),
{
    let mut acc: u128 = m.digits;
    let mut k: usize = m.scale;
    proof {
        assert(pow10(0) == 1);
        assert(m.digits as nat * 1 == m.digits as nat);
    }
    while k < s
        invariant
            m.scale <= k <= s,
            acc as nat == m.digits as nat * pow10((k - m.scale) as nat),
        decreases s - k,
    {
        let ghost e = (k - m.scale) as nat;
        proof {
            lemma_pow10_add(e, 1);
            assert(pow10(0) == 1);
            assert(pow10(1) == 10 * pow10(0));
            lemma_pow10_add((s - k - 1) as nat, 0);
            lemma_pow10_add(e + 1, (s - k - 1) as nat);
            assert(e + 1 + (s - k - 1) == s - m.scale);
            assert(digits_at(m, s as nat) == acc * 10 * pow10((s - k - 1) as nat)) by (nonlinear_arith)
                requires
                    acc as nat == m.digits as nat * pow10(e),
                    pow10(e + 1) == pow10(e) * 10,
                    pow10((s - m.scale) as nat) == pow10(e + 1) * pow10((s - k - 1) as nat),
                    digits_at(m, s as nat) == m.digits as nat * pow10((s - m.scale) as nat),
            ;
            assert(acc * 10 * pow10((s - k - 1) as nat) >= acc * 10) by (nonlinear_arith)
                requires
                    pow10((s - k - 1) as nat) >= 1,
            ;
        }
        if acc > u128::MAX / 10 {
            return None;
        }
        acc = acc * 10;
        k = k + 1;
        proof {
            assert(acc as nat == m.digits as nat * pow10((k - m.scale) as nat)) by (nonlinear_arith)
                requires
                    acc as nat == (m.digits as nat * pow10(e)) * 10,
                    pow10(e + 1) == pow10(e) * 10,
                    (k - m.scale) as nat == e + 1,
            ;
        }
    }
    Some(acc)
}

/// Adds two times exactly; `None` where the sum's digits do not fit in a `u128`.
pub fn add_micros(a: Micros, b: Micros) -> (r: Option<Micros>)
    ensures
        r == sum_of(a, b),
{
    let s: usize = if a.scale >= b.scale { a.scale } else { b.scale };
    let x = digits_at_scale(a, s);
    let y = digits_at_scale(b, s);
    match (x, y) {
        (Some(x), Some(y)) => {
            if x > u128::MAX - y {
                None
            } else {
                Some(Micros { digits: x + y, scale: s })
            }
        },
        _ => None,
    }
}

} // verus!
