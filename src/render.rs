use vstd::prelude::*;

use crate::decimal::{
    is_digit, is_number_char, lemma_pow10_add, number_scan, pow10, Micros,
};
use crate::line::{FunctionStats, StatsView};
use vstd::arithmetic::div_mod::{lemma_basic_div_specific_divisor, lemma_small_mod};

verus! {

/// The character of a decimal digit.
pub open spec fn digit_char(d: nat) -> char {
    if d == 0 {
        '0'
    } else if d == 1 {
        '1'
    } else if d == 2 {
        '2'
    } else if d == 3 {
        '3'
    } else if d == 4 {
        '4'
    } else if d == 5 {
        '5'
    } else if d == 6 {
        '6'
    } else if d == 7 {
        '7'
    } else if d == 8 {
        '8'
    } else {
        '9'
    }
}

/// The decimal digits of `n`, without leading zeros.
pub open spec fn digits_text(n: nat) -> Seq<char>
    decreases n,
{
    if n < 10 {
        seq![digit_char(n)]
    } else {
        digits_text(n / 10).push(digit_char(n % 10))
    }
}

/// `k` zero characters.
pub open spec fn zeros(k: nat) -> Seq<char> {
    Seq::new(k, |i: int| '0')
}

/// The digits of `n`, with zeros in front up to `w` characters.
pub open spec fn padded_text(n: nat, w: nat) -> Seq<char> {
    zeros((w - digits_text(n).len()) as nat) + digits_text(n)
}

/// A time in decimal notation, with exactly `scale` digits after the point
/// where `scale` is not zero.
pub open spec fn micros_text(m: Micros) -> Seq<char> {
    if m.scale == 0 {
        digits_text(m.digits as nat)
    } else {
        let p = pow10(m.scale as nat);
        digits_text(m.digits as nat / p).push('.') + padded_text(m.digits as nat % p, m.scale as nat)
    }
}

/// The four fields of an entry as a line: `name hit_count time_total us time_avg`.
pub open spec fn line_text(v: StatsView) -> Seq<char> {
    v.name + seq![' '] + digits_text(v.hit_count as nat) + seq![' '] + micros_text(v.time_total)
        + seq![' ', 'u', 's', ' '] + micros_text(v.time_avg.total)
}

/// The digits of `n` are at least one, all digits, and read back as `n`.
pub proof fn lemma_digits_text(n: nat)
    ensures
        digits_text(n).len() >= 1,
        forall|j: int| 0 <= j < digits_text(n).len() ==> is_digit(#[trigger] digits_text(n)[j]),
        number_scan(digits_text(n)) == (n, 0nat, 0nat),
    decreases n,
{
    if n < 10 {
        lemma_digit_char(n);
        let t = digits_text(n);
        assert(t.drop_last() =~= Seq::<char>::empty());
        assert(t.last() == digit_char(n));
        assert(number_scan(Seq::<char>::empty()) == (0nat, 0nat, 0nat));
    } else {
        lemma_digit_char(n % 10);
        lemma_digits_text(n / 10);
        let t = digits_text(n);
        assert(t.drop_last() =~= digits_text(n / 10));
        assert(t.last() == digit_char(n % 10));
        assert(n / 10 * 10 + n % 10 == n);
    }
}

/// A number below `10^w` has at most `w` digits.
pub proof fn lemma_digits_text_len(n: nat, w: nat)
    requires
        w >= 1,
        n < pow10(w),
    ensures
        digits_text(n).len() <= w,
    decreases n,
{
    if n >= 10 {
        assert(w >= 2) by {
            if w == 1 {
                assert(pow10(1) == 10 * pow10(0));
            }
        }
        let w1 = (w - 1) as nat;
        assert(pow10(w) == 10 * pow10(w1));
        assert(n / 10 < pow10(w1)) by (nonlinear_arith)
            requires
                n < 10 * pow10(w1),
        ;
        lemma_digits_text_len(n / 10, w1);
    }
}

/// Reading digits after any run of digits and points.
#[verifier::spinoff_prover]
pub proof fn lemma_scan_append(t: Seq<char>, b: Seq<char>)
    requires
        forall|j: int| 0 <= j < b.len() ==> is_digit(#[trigger] b[j]),
    ensures
        number_scan(t + b) == (
            number_scan(t).0 * pow10(b.len()) + number_scan(b).0,
            number_scan(t).1,
            number_scan(t).2 + (if number_scan(t).1 > 0 { b.len() } else { 0 }),
        ),
    decreases b.len(),
{
    if b.len() == 0 {
        assert(t + b =~= t);
        assert(pow10(0) == 1);
        assert(number_scan(b) == (0nat, 0nat, 0nat));
        assert(pow10(b.len()) == 1);
        assert(number_scan(t).0 * pow10(b.len()) == number_scan(t).0) by (nonlinear_arith)
            requires
                pow10(b.len()) == 1,
        ;
        assert(number_scan(t + b).0 == number_scan(t).0 * pow10(b.len()) + number_scan(b).0);
    } else {
        let b1 = b.drop_last();
        lemma_scan_append(t, b1);
        assert(b.last() != '.');
        assert(number_scan(b).0 == number_scan(b1).0 * 10 + crate::decimal::digit_value(b.last()));
        assert((t + b).drop_last() =~= t + b1);
        assert((t + b).last() == b.last());
        assert(is_digit(b.last()));
        let k = b1.len();
        assert(pow10(k + 1) == 10 * pow10(k));
        let m = number_scan(t).0;
        let v1 = number_scan(b1).0;
        let dv = crate::decimal::digit_value(b.last());
        let r1 = number_scan(t + b1);
        assert(number_scan(t + b) == (
            r1.0 * 10 + dv,
            r1.1,
            if r1.1 > 0 { r1.2 + 1 } else { r1.2 },
        ));
        assert((m * pow10(k) + v1) * 10 + dv == m * pow10(k + 1) + (v1 * 10 + dv))
            by (nonlinear_arith)
            requires
                pow10(k + 1) == 10 * pow10(k),
        ;
        assert(b.len() == k + 1);
        assert(number_scan(t + b).0 == number_scan(t).0 * pow10(b.len()) + number_scan(b).0);
        assert(number_scan(t + b).1 == number_scan(t).1);
    }
}

proof fn lemma_zeros_scan(k: nat)
    ensures
        number_scan(zeros(k)) == (0nat, 0nat, 0nat),
    decreases k,
{
    let z = zeros(k);
    if k > 0 {
        lemma_zeros_scan((k - 1) as nat);
        assert(z.drop_last() =~= zeros((k - 1) as nat));
        assert(z.last() == '0');
    } else {
        assert(z.len() == 0);
    }
}

proof fn lemma_digit_char(d: nat)
    requires
        d < 10,
    ensures
        is_digit(digit_char(d)),
        crate::decimal::digit_value(digit_char(d)) == d,
{
}

/// A time's text reads back as the same time.
pub proof fn lemma_micros_text(m: Micros)
    ensures
        micros_text(m).len() >= 1,
        is_digit(micros_text(m)[0]),
        forall|j: int| 0 <= j < micros_text(m).len() ==> is_number_char(#[trigger] micros_text(m)[j]),
        crate::decimal::decimal_of(micros_text(m)) == Some(m),
{
    if m.scale == 0 {
        lemma_digits_text(m.digits as nat);
    } else {
        let s = m.scale as nat;
        let p = pow10(s);
        lemma_pow10_add(s, 0);
        let whole = m.digits as nat / p;
        let frac = m.digits as nat % p;
        lemma_digits_text(whole);
        lemma_digits_text(frac);
        lemma_digits_text_len(frac, s);
        let a = digits_text(whole).push('.');
        let z = zeros((s - digits_text(frac).len()) as nat);
        let b = padded_text(frac, s);
        assert(a.drop_last() =~= digits_text(whole));
        assert(number_scan(a) == (whole, 1nat, 0nat));
        lemma_zeros_scan((s - digits_text(frac).len()) as nat);
        assert forall|j: int| 0 <= j < digits_text(frac).len() implies is_digit(
            #[trigger] digits_text(frac)[j],
        ) by {}
        lemma_scan_append(z, digits_text(frac));
        assert(b == z + digits_text(frac));
        assert(number_scan(z).0 == 0);
        assert(number_scan(z + digits_text(frac)).0 == number_scan(z).0 * pow10(
            digits_text(frac).len(),
        ) + frac);
        assert(0 * pow10(digits_text(frac).len()) == 0);
        assert(number_scan(b).0 == frac);
        assert(b.len() == s);
        assert forall|j: int| 0 <= j < b.len() implies is_digit(#[trigger] b[j]) by {
            if j >= z.len() {
                assert(b[j] == digits_text(frac)[j - z.len()]);
            }
        }
        lemma_scan_append(a, b);
        assert(whole * p + frac == m.digits) by (nonlinear_arith)
            requires
                p >= 1,
                whole == m.digits as nat / p,
                frac == m.digits as nat % p,
        ;
        let t = micros_text(m);
        assert(t == a + b);
        assert(t[0] == digits_text(whole)[0]);
        assert forall|j: int| 0 <= j < t.len() implies is_number_char(#[trigger] t[j]) by {
            if j < digits_text(whole).len() {
                assert(t[j] == digits_text(whole)[j]);
            } else if j > digits_text(whole).len() {
                assert(t[j] == b[j - a.len()]);
            }
        }
    }
}

/// Relies on `String::push`: appends one character at the end.
#[verifier::external_body]
fn push_char(s: &mut String, c: char)
    ensures
        final(s)@ == old(s)@.push(c),
{
    s.push(c)
}

fn digit_to_char(d: u128) -> (c: char)
    requires
        d < 10,
    ensures
        c == digit_char(d as nat),
{
    if d == 0 {
        '0'
    } else if d == 1 {
        '1'
    } else if d == 2 {
        '2'
    } else if d == 3 {
        '3'
    } else if d == 4 {
        '4'
    } else if d == 5 {
        '5'
    } else if d == 6 {
        '6'
    } else if d == 7 {
        '7'
    } else if d == 8 {
        '8'
    } else {
        '9'
    }
}

fn push_digits(out: &mut String, n: u128)
    ensures
        final(out)@ == old(out)@ + digits_text(n as nat),
    decreases n,
{
    if n < 10 {
        push_char(out, digit_to_char(n));
        assert(final(out)@ =~= old(out)@ + digits_text(n as nat));
    } else {
        push_digits(out, n / 10);
        push_char(out, digit_to_char(n % 10));
        assert(final(out)@ =~= old(out)@ + digits_text(n as nat));
    }
}

/// `m.digits` cut at `m.scale` digits from the right: the whole part and the fraction.
fn split_digits(m: Micros) -> (r: (u128, u128))
    ensures
        r.0 == m.digits as nat / pow10(m.scale as nat),
        r.1 == m.digits as nat % pow10(m.scale as nat),
{
    let mut p: u128 = 1;
    let mut k: usize = 0;
    let mut big = false;
    assert(pow10(0) == 1);
    while k < m.scale && !big
        invariant
            k <= m.scale,
            p == pow10(k as nat),
            big ==> k < m.scale && pow10(k as nat + 1) > u128::MAX,
        decreases m.scale - k + (if big { 0int } else { 1int }),
    {
        assert(pow10(k as nat + 1) == 10 * pow10(k as nat));
        if p > u128::MAX / 10 {
            big = true;
        } else {
            p = p * 10;
            k = k + 1;
        }
    }
    let ghost big_p = pow10(m.scale as nat);
    proof {
        lemma_pow10_add(m.scale as nat, 0);
    }
    if big {
        proof {
            lemma_pow10_add(k as nat + 1, (m.scale - k - 1) as nat);
            lemma_pow10_add((m.scale - k - 1) as nat, 0);
            assert(k as nat + 1 + (m.scale - k - 1) as nat == m.scale as nat);
            assert(big_p >= pow10(k as nat + 1)) by (nonlinear_arith)
                requires
                    big_p == pow10(k as nat + 1) * pow10((m.scale - k - 1) as nat),
                    pow10((m.scale - k - 1) as nat) >= 1,
            ;
            lemma_basic_div_specific_divisor(big_p as int);
            lemma_small_mod(m.digits as nat, big_p);
        }
        (0, m.digits)
    } else {
        (m.digits / p, m.digits % p)
    }
}

fn push_micros(out: &mut String, m: Micros)
    ensures
        final(out)@ == old(out)@ + micros_text(m),
{
    if m.scale == 0 {
        push_digits(out, m.digits);
    } else {
        let (whole, frac) = split_digits(m);
        proof {
            lemma_pow10_add(m.scale as nat, 0);
            lemma_digits_text_len(frac as nat, m.scale as nat);
        }
        push_digits(out, whole);
        push_char(out, '.');
        let ghost base = out@;
        let mut f = String::new();
        push_digits(&mut f, frac);
        assert(f@ =~= digits_text(frac as nat));
        let k = f.as_str().unicode_len();
        let mut j: usize = k;
        assert(out@ =~= base + zeros(0));
        while j < m.scale
            invariant
                k <= j <= m.scale,
                out@ == base + zeros((j - k) as nat),
            decreases m.scale - j,
        {
            push_char(out, '0');
            assert(zeros((j - k) as nat).push('0') =~= zeros((j + 1 - k) as nat));
            assert(out@ =~= base + zeros((j + 1 - k) as nat));
            j = j + 1;
        }
        out.append(f.as_str());
        assert(final(out)@ =~= old(out)@ + micros_text(m));
    }
}

/// Writes the four fields of an entry as one line of a report, its mean
/// written as the mean's total time.
pub fn format_line(e: &FunctionStats) -> (r: String)
    ensures
        r@ == line_text(e@),
{
    let mut out = String::new();
    out.append(e.function_name.as_str());
    push_char(&mut out, ' ');
    push_digits(&mut out, e.hit_count as u128);
    push_char(&mut out, ' ');
    push_micros(&mut out, e.time_total);
    push_char(&mut out, ' ');
    push_char(&mut out, 'u');
    push_char(&mut out, 's');
    push_char(&mut out, ' ');
    push_micros(&mut out, e.time_avg.total);
    assert(out@ =~= line_text(e@));
    out
}

} // verus!
