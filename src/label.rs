//! Axis-limit labels: a digit count chosen from the size of a range, and
//! each bound written with that many digits and a decimal point placed by
//! the bound's own magnitude.

use vstd::prelude::*;

verus! {

/// Values are fixed-point: `UNIT` stands for the value one.
pub const UNIT: i64 = 1_000_000;

pub open spec fn pow2(k: nat) -> int
    decreases k,
{
    if k == 0 {
        1
    } else {
        2 * pow2((k - 1) as nat)
    }
}

pub open spec fn pow100(k: nat) -> int
    decreases k,
{
    if k == 0 {
        1
    } else {
        100 * pow100((k - 1) as nat)
    }
}

/// How often a range of `d` (in units of `1 / UNIT`) is halved before it is
/// at most one.
pub open spec fn halvings(d: int) -> nat
    decreases d,
{
    if d <= UNIT {
        0
    } else {
        1 + halvings((d + 1) / 2)
    }
}

/// How often a positive range below one is doubled before it reaches one.
pub open spec fn doublings(d: int) -> nat
    decreases (if d < UNIT { UNIT - d } else { 0 }),
{
    if d <= 0 || d >= UNIT {
        0
    } else {
        1 + doublings(2 * d)
    }
}

/// The digit count for a range of `delta`: one, plus one for each halving of
/// a range above one, or for each doubling of a positive range below one.
/// A range of exactly one, of zero or below zero keeps one digit.
pub open spec fn sig_count(delta: int) -> nat {
    if delta > UNIT {
        1 + halvings(delta)
    } else if 0 < delta && delta < UNIT {
        1 + doublings(delta)
    } else {
        1
    }
}

proof fn lemma_halvings_bound(d: int, k: nat)
    requires
        d <= UNIT * pow2(k),
    ensures
        halvings(d) <= k,
    decreases k,
{
    if d > UNIT {
        assert(k > 0);
        let m = UNIT * pow2((k - 1) as nat);
        assert(UNIT * pow2(k) == 2 * m) by (nonlinear_arith)
            requires k > 0, pow2(k) == 2 * pow2((k - 1) as nat), m == UNIT * pow2((k - 1) as nat);
        lemma_halvings_bound((d + 1) / 2, (k - 1) as nat);
    }
}

proof fn lemma_doublings_bound(d: int, k: nat)
    requires
        d >= 1,
        d * pow2(k) >= UNIT,
    ensures
        doublings(d) <= k,
    decreases k,
{
    if d < UNIT {
        if k == 0 {
            assert(d * pow2(k) == d);
        } else {
            assert(d * pow2(k) == (2 * d) * pow2((k - 1) as nat)) by (nonlinear_arith)
                requires pow2(k) == 2 * pow2((k - 1) as nat);
            lemma_doublings_bound(2 * d, (k - 1) as nat);
        }
    }
}

/// The number of significant digits for the labels of the range `low..high`.
pub fn sig_digits(low: i64, high: i64) -> (sig: u32)
    ensures
        sig == sig_count(high - low),
        sig >= 1,
{
    let delta: i128 = high as i128 - low as i128;
    let unit: i128 = UNIT as i128;
    let mut sig: u32 = 1;
    if delta > unit {
        proof {
            reveal_with_fuel(pow2, 46);
            assert(pow2(45) == 35184372088832);
            lemma_halvings_bound(delta as int, 45);
        }
        let mut d: i128 = delta;
        while d > unit
            invariant
                unit == UNIT,
                d >= 1,
                d <= delta,
                delta < 1_000_000_000_000_000_000_000,
                sig as int + halvings(d as int) == 1 + halvings(delta as int),
                halvings(delta as int) <= 45,
            decreases d,
        {
            sig = sig + 1;
            d = (d + 1) / 2;
        }
    } else if delta > 0 && delta < unit {
        proof {
            reveal_with_fuel(pow2, 21);
            assert(pow2(20) == 1048576);
            assert(delta * pow2(20) >= UNIT) by (nonlinear_arith)
                requires delta >= 1, pow2(20) == 1048576;
            lemma_doublings_bound(delta as int, 20);
        }
        let mut d: i128 = delta;
        while d < unit
            invariant
                unit == UNIT,
                d >= 1,
                d <= 2 * UNIT,
                sig as int + doublings(d as int) == 1 + doublings(delta as int),
                doublings(delta as int) <= 20,
            decreases (if d < UNIT { UNIT - d } else { 0 }),
        {
            sig = sig + 1;
            d = d * 2;
        }
    }
    sig
}


/// How often `a` (a magnitude in units of `1 / UNIT`) is divided by a
/// hundred before it is below one.
pub open spec fn hundreds(a: int) -> nat
    decreases a,
{
    if a < UNIT {
        0
    } else {
        1 + hundreds(a / 100)
    }
}

pub open spec fn abs(v: int) -> int {
    if v < 0 {
        -v
    } else {
        v
    }
}

/// Where a bound's decimal point goes: one for a magnitude below one, else
/// the number of divisions by a hundred that bring it below one.
pub open spec fn dec_pos_of(v: int) -> nat {
    if abs(v) < UNIT {
        1
    } else {
        hundreds(abs(v))
    }
}

proof fn lemma_hundreds_bound(a: int, k: nat)
    requires
        a < UNIT * pow100(k),
    ensures
        hundreds(a) <= k,
    decreases k,
{
    if a >= UNIT {
        if k == 0 {
            assert(UNIT * pow100(k) == UNIT);
        } else {
            let m = UNIT * pow100((k - 1) as nat);
            assert(UNIT * pow100(k) == 100 * m) by (nonlinear_arith)
                requires pow100(k) == 100 * pow100((k - 1) as nat), m == UNIT * pow100((k - 1) as nat);
            lemma_hundreds_bound(a / 100, (k - 1) as nat);
        }
    }
}

/// The decimal point position of the label of `v`.
pub fn dec_pos(v: i64) -> (pos: usize)
    ensures
        pos == dec_pos_of(v as int),
        pos >= 1,
{
    let a: i128 = if v < 0 {
        -(v as i128)
    } else {
        v as i128
    };
    let unit: i128 = UNIT as i128;
    if a < unit {
        return 1;
    }
    proof {
        reveal_with_fuel(pow100, 11);
        assert(pow100(10) == 100_000_000_000_000_000_000);
        lemma_hundreds_bound(a as int, 10);
    }
    let mut x: i128 = a;
    let mut pos: usize = 0;
    while x >= unit
        invariant
            unit == UNIT,
            x >= 0,
            pos as int + hundreds(x as int) == hundreds(a as int),
            hundreds(a as int) <= 10,
        decreases x,
    {
        x = x / 100;
        pos = pos + 1;
    }
    pos
}


/// `n / d` rounded to the nearest integer, halves away from zero.
pub open spec fn round_div(n: int, d: int) -> int {
    if n >= 0 {
        (2 * n + d) / (2 * d)
    } else {
        -((2 * (-n) + d) / (2 * d))
    }
}

/// The integer whose digits a label of `v` shows: `v * 100^(sig - 1)`,
/// with `v` read as `v / UNIT`, rounded.
pub open spec fn scaled(v: int, sig: nat) -> int {
    round_div(v * pow100((sig - 1) as nat), UNIT as int)
}

pub open spec fn pow10(k: nat) -> int
    decreases k,
{
    if k == 0 {
        1
    } else {
        10 * pow10((k - 1) as nat)
    }
}

proof fn lemma_pow10_positive(k: nat)
    ensures
        pow10(k) >= 1,
    decreases k,
{
    if k > 0 {
        lemma_pow10_positive((k - 1) as nat);
    }
}

proof fn lemma_pow10_add(a: nat, b: nat)
    ensures
        pow10(a + b) == pow10(a) * pow10(b),
    decreases a,
{
    if a > 0 {
        let a1 = (a - 1) as nat;
        lemma_pow10_add(a1, b);
        assert(pow10(a + b) == 10 * pow10(a1 + b));
        assert(10 * (pow10(a1) * pow10(b)) == (10 * pow10(a1)) * pow10(b)) by (nonlinear_arith);
    }
}

proof fn lemma_pow100_is_pow10(k: nat)
    ensures
        pow100(k) == pow10(2 * k),
    decreases k,
{
    if k > 0 {
        lemma_pow100_is_pow10((k - 1) as nat);
        assert(pow10(2 * k) == 10 * pow10((2 * k - 1) as nat));
        assert(pow10((2 * k - 1) as nat) == 10 * pow10((2 * k - 2) as nat));
        assert((2 * k - 2) as nat == 2 * ((k - 1) as nat));
    }
}

/// From four digits on, the scaled integer is exact: `v * 10^(2 * sig - 8)`.
proof fn lemma_scaled_exact(v: int, sig: nat)
    requires
        sig >= 4,
    ensures
        scaled(v, sig) == v * pow10((2 * sig - 8) as nat),
{
    let z = (2 * sig - 8) as nat;
    let k = (sig - 1) as nat;
    lemma_pow100_is_pow10(k);
    assert(2 * k == z + 6);
    lemma_pow10_add(z, 6);
    reveal_with_fuel(pow10, 7);
    assert(pow10(6) == 1_000_000);
    let m = v * pow10(z);
    assert(v * pow100(k) == m * UNIT) by (nonlinear_arith)
        requires pow100(k) == pow10(z) * 1_000_000, m == v * pow10(z);
    if m >= 0 {
        vstd::arithmetic::div_mod::lemma_fundamental_div_mod_converse(2 * (m * UNIT) + UNIT, 2 * UNIT, m, UNIT as int);
    } else {
        vstd::arithmetic::div_mod::lemma_fundamental_div_mod_converse(2 * (-(m * UNIT)) + UNIT, 2 * UNIT, -m, UNIT as int);
    }
}

pub open spec fn digit_char(d: int) -> char {
    if d == 0 {
        '0'
    } else if d == 1 {
        '1'
    } else if d == 2 {
        '2'
    } else if d == 3 {
        '3'
    } else if d == 4 {
        '4'
    } else if d == 5 {
        '5'
    } else if d == 6 {
        '6'
    } else if d == 7 {
        '7'
    } else if d == 8 {
        '8'
    } else {
        '9'
    }
}

/// The decimal digits of `n`, most significant first.
pub open spec fn digits(n: nat) -> Seq<char>
    decreases n,
{
    if n < 10 {
        seq![digit_char(n as int)]
    } else {
        digits(n / 10).push(digit_char((n % 10) as int))
    }
}

/// `x` written in decimal, with a leading minus sign when negative.
pub open spec fn int_text(x: int) -> Seq<char> {
    if x < 0 {
        seq!['-'] + digits((-x) as nat)
    } else {
        digits(x as nat)
    }
}

/// `s` with zeros appended up to the width `w`.
pub open spec fn padded(s: Seq<char>, w: int) -> Seq<char> {
    if s.len() >= w {
        s
    } else {
        s + Seq::new((w - s.len()) as nat, |i: int| '0')
    }
}

/// `s` cut to at most `n` characters.
pub open spec fn truncated(s: Seq<char>, n: int) -> Seq<char> {
    if s.len() > n {
        s.take(n)
    } else {
        s
    }
}

pub open spec fn starts_with_minus(s: Seq<char>) -> bool {
    s.len() > 0 && s[0] == '-'
}

/// The characters of a label of `v` with `sig` digits before the decimal
/// point is put in: the scaled integer, padded with zeros to `sig`
/// characters and cut to `sig` digits (and its sign).
pub open spec fn label_digits(v: int, sig: nat) -> Seq<char> {
    let s = padded(int_text(scaled(v, sig)), sig as int);
    if starts_with_minus(s) {
        truncated(s, sig as int + 1)
    } else {
        truncated(s, sig as int)
    }
}

/// The index at which the decimal point goes into `label_digits(v, sig)`.
pub open spec fn point_index(v: int, sig: nat) -> int {
    if starts_with_minus(label_digits(v, sig)) {
        dec_pos_of(v) as int + 1
    } else {
        dec_pos_of(v) as int
    }
}

/// Whether the decimal point of the label of `v` falls within its digits.
pub open spec fn label_fits(v: int, sig: nat) -> bool {
    point_index(v, sig) <= label_digits(v, sig).len()
}

/// The label of `v` with `sig` digits.
pub open spec fn bound_label(v: int, sig: nat) -> Seq<char> {
    let t = label_digits(v, sig);
    let i = point_index(v, sig);
    t.take(i) + seq!['.'] + t.skip(i)
}

fn digit_to_char(d: u64) -> (c: char)
    requires
        d < 10,
    ensures
        c == digit_char(d as int),
{
    if d == 0 {
        '0'
    } else if d == 1 {
        '1'
    } else if d == 2 {
        '2'
    } else if d == 3 {
        '3'
    } else if d == 4 {
        '4'
    } else if d == 5 {
        '5'
    } else if d == 6 {
        '6'
    } else if d == 7 {
        '7'
    } else if d == 8 {
        '8'
    } else {
        '9'
    }
}

fn push_digits(n: u64, out: &mut Vec<char>)
    ensures
        final(out)@ == old(out)@ + digits(n as nat),
    decreases n,
{
    if n >= 10 {
        push_digits(n / 10, out);
    }
    out.push(digit_to_char(n % 10));
    proof {
        if n >= 10 {
            assert(final(out)@ =~= old(out)@ + digits(n as nat));
        } else {
            assert(final(out)@ =~= old(out)@ + digits(n as nat));
        }
    }
}

proof fn lemma_digits_shift(n: nat, z: nat)
    requires
        n >= 1,
    ensures
        digits((n * pow10(z)) as nat) == digits(n) + Seq::new(z, |i: int| '0'),
    decreases z,
{
    if z == 0 {
        assert(digits(n) + Seq::new(z, |i: int| '0') =~= digits(n));
    } else {
        let z1 = (z - 1) as nat;
        lemma_digits_shift(n, z1);
        lemma_pow10_positive(z1);
        let m = n * pow10(z1);
        assert(m >= 1) by (nonlinear_arith)
            requires n >= 1, pow10(z1) >= 1, m == n * pow10(z1);
        assert(n * pow10(z) == m * 10) by (nonlinear_arith)
            requires pow10(z) == 10 * pow10(z1), m == n * pow10(z1);
        let t = (m * 10) as nat;
        assert(t / 10 == m && t % 10 == 0);
        assert(digits(t) == digits(m as nat).push('0'));
        assert(digits(t) =~= digits(n) + Seq::new(z, |i: int| '0'));
    }
}

/// The scaled integer of a label of `v` with `sig` digits, in decimal.
fn scaled_text(v: i64, sig: u32) -> (r: Vec<char>)
    requires
        sig >= 1,
    ensures
        r@ == int_text(scaled(v as int, sig as nat)),
{
    let neg = v < 0;
    let m: u64 = if neg {
        (-(v as i128)) as u64
    } else {
        v as u64
    };
    let mut s: Vec<char> = Vec::new();
    if sig <= 3 {
        let f: u128 = if sig == 1 {
            1
        } else if sig == 2 {
            100
        } else {
            10_000
        };
        proof {
            reveal_with_fuel(pow100, 3);
        }
        assert(f == pow100((sig - 1) as nat));
        assert(m <= 0x8000_0000_0000_0000);
        assert(m * f <= 0x8000_0000_0000_0000 * 10_000) by (nonlinear_arith)
            requires m <= 0x8000_0000_0000_0000, f <= 10_000;
        let p: u128 = m as u128 * f;
        let unit: u128 = UNIT as u128;
        let q: u128 = (2 * p + unit) / (2 * unit);
        assert(q < 0x8000_0000_0000_0000) by (nonlinear_arith)
            requires
                p <= 0x8000_0000_0000_0000 * 10_000,
                unit == 1_000_000,
                q == (2 * p + unit) / (2 * unit),
        ;
        proof {
            if neg {
                assert(v * pow100((sig - 1) as nat) == -p) by (nonlinear_arith)
                    requires m == -v, p == m * f, f == pow100((sig - 1) as nat);
            } else {
                assert(v * pow100((sig - 1) as nat) == p) by (nonlinear_arith)
                    requires m == v, p == m * f, f == pow100((sig - 1) as nat);
            }
        }
        if neg && q > 0 {
            s.push('-');
        }
        push_digits(q as u64, &mut s);
        assert(s@ =~= int_text(scaled(v as int, sig as nat)));
    } else {
        let z: u64 = 2 * (sig as u64) - 8;
        proof {
            lemma_scaled_exact(v as int, sig as nat);
            lemma_pow10_positive(z as nat);
        }
        if m == 0 {
            s.push('0');
            assert(v == 0);
            assert(v * pow10(z as nat) == 0);
            assert(digits(0) == seq!['0']);
            assert(s@ =~= int_text(scaled(v as int, sig as nat)));
        } else {
            if neg {
                s.push('-');
            }
            push_digits(m, &mut s);
            let ghost head = s@;
            let mut i: u64 = 0;
            while i < z
                invariant
                    i <= z,
                    s@ =~= head + Seq::new(i as nat, |j: int| '0'),
                decreases z - i,
            {
                s.push('0');
                i = i + 1;
            }
            proof {
                lemma_digits_shift(m as nat, z as nat);
                let e = v * pow10(z as nat);
                if neg {
                    assert(e == -(m * pow10(z as nat))) by (nonlinear_arith)
                        requires e == v * pow10(z as nat), m == -v;
                    assert(e < 0) by (nonlinear_arith)
                        requires e == -(m * pow10(z as nat)), m >= 1, pow10(z as nat) >= 1;
                } else {
                    assert(e == m * pow10(z as nat)) by (nonlinear_arith)
                        requires e == v * pow10(z as nat), m == v;
                    assert(e >= 0) by (nonlinear_arith)
                        requires e == m * pow10(z as nat), m >= 1, pow10(z as nat) >= 1;
                }
            }
            assert(s@ =~= int_text(scaled(v as int, sig as nat)));
        }
    }
    s
}

/// Relies on `String`'s `FromIterator<char>`: the string holds the
/// characters in order.
#[verifier::external_body]
fn string_from_chars(chars: &Vec<char>) -> (r: String)
    ensures
        r@ == chars@,
{
    chars.iter().collect()
}

/// The label of the bound `v` with `sig` digits, or `None` where its
/// decimal point would fall past its digits.
pub fn format_bound(v: i64, sig: u32) -> (r: Option<String>)
    requires
        sig >= 1,
    ensures
        r is Some <==> label_fits(v as int, sig as nat),
        r matches Some(t) ==> t@ == bound_label(v as int, sig as nat),
{
    let mut s = scaled_text(v, sig);
    let ghost text = int_text(scaled(v as int, sig as nat));
    let w: usize = sig as usize;
    while s.len() < w
        invariant
            w == sig,
            s.len() >= text.len(),
            s.len() <= text.len() || s.len() <= w,
            s@ =~= text + Seq::new((s.len() - text.len()) as nat, |i: int| '0'),
        decreases w - s.len(),
    {
        s.push('0');
    }
    assert(s@ =~= padded(text, sig as int));
    let ghost ps = s@;
    let neg = s.len() > 0 && s[0] == '-';
    assert(neg == starts_with_minus(ps));
    if !neg {
        s.truncate(w);
    } else if w < s.len() {
        s.truncate(w + 1);
    }
    assert(s@ =~= label_digits(v as int, sig as nat));
    let pos = dec_pos(v);
    if neg && pos >= s.len() || !neg && pos > s.len() {
        return None;
    }
    let at: usize = if neg {
        pos + 1
    } else {
        pos
    };
    assert(starts_with_minus(s@) == neg);
    s.insert(at, '.');
    assert(s@ =~= bound_label(v as int, sig as nat));
    Some(string_from_chars(&s))
}

/// The labels of the two limits of the range `low..high`, with the digit
/// count that the range gives.
pub fn round(l: i64, u: i64) -> (r: (String, String))
    requires
        label_fits(l as int, sig_count(u - l)),
        label_fits(u as int, sig_count(u - l)),
    ensures
        r.0@ == bound_label(l as int, sig_count(u - l)),
        r.1@ == bound_label(u as int, sig_count(u - l)),
{
    let sig = sig_digits(l, u);
    let ll = format_bound(l, sig);
    let uu = format_bound(u, sig);
    (ll.unwrap(), uu.unwrap())
}

/// The labels of the range `low..high` as `round` gives them, or `None`
/// where the decimal point of either would fall past its digits.
pub fn try_round(l: i64, u: i64) -> (r: Option<(String, String)>)
    ensures
        r is Some <==> label_fits(l as int, sig_count(u - l)) && label_fits(
            u as int,
            sig_count(u - l),
        ),
        r matches Some(p) ==> p.0@ == bound_label(l as int, sig_count(u - l)) && p.1@
            == bound_label(u as int, sig_count(u - l)),
{
    let sig = sig_digits(l, u);
    match format_bound(l, sig) {
        Some(ll) => match format_bound(u, sig) {
            Some(uu) => Some((ll, uu)),
            None => None,
        },
        None => None,
    }
}


proof fn lemma_digits_nonempty(n: nat)
    ensures
        digits(n).len() >= 1,
        digits(n)[0] != '-',
    decreases n,
{
    if n >= 10 {
        lemma_digits_nonempty(n / 10);
    }
}

/// A range of exactly one keeps one digit, and each of its labels holds one
/// digit (after its minus sign, if any) before the decimal point goes in.
pub proof fn lemma_unit_range_has_one_digit(l: int, u: int)
    requires
        u - l == UNIT,
    ensures
        sig_count(u - l) == 1,
        label_digits(l, 1).len() == if starts_with_minus(label_digits(l, 1)) { 2int } else { 1int },
        label_digits(u, 1).len() == if starts_with_minus(label_digits(u, 1)) { 2int } else { 1int },
{
    lemma_one_digit_labels(l);
    lemma_one_digit_labels(u);
}

proof fn lemma_one_digit_labels(v: int)
    ensures
        label_digits(v, 1).len() == if starts_with_minus(label_digits(v, 1)) { 2int } else { 1int },
{
    let x = scaled(v, 1);
    if x < 0 {
        lemma_digits_nonempty((-x) as nat);
        let t = int_text(x);
        assert(t[0] == '-');
        assert(padded(t, 1) == t);
        assert(label_digits(v, 1) == t.take(2));
        assert(label_digits(v, 1)[0] == '-');
    } else {
        lemma_digits_nonempty(x as nat);
        let t = int_text(x);
        assert(padded(t, 1) == t);
        assert(!starts_with_minus(t));
        assert(label_digits(v, 1) == truncated(t, 1));
        assert(truncated(t, 1)[0] == t[0]);
    }
}

/// A range of zero keeps one digit: no halving or doubling happens.
pub proof fn lemma_zero_range_keeps_one_digit(v: int)
    ensures
        sig_count(v - v) == 1,
{
}


proof fn lemma_halvings_monotone(x: int, y: int)
    requires
        x <= y,
    ensures
        halvings(x) <= halvings(y),
    decreases y,
{
    if x > UNIT {
        lemma_halvings_monotone((x + 1) / 2, (y + 1) / 2);
    }
}

/// From a hundred up, a magnitude is halved at least as often as it is
/// divided by a hundred.
proof fn lemma_hundreds_below_halvings(a: int)
    requires
        a >= 100 * UNIT,
    ensures
        2 <= hundreds(a) <= halvings(a),
    decreases a,
{
    assert(hundreds(a / 100) >= 1);
    assert(halvings((a + 1) / 2) >= 1);
    if a / 100 >= 100 * UNIT {
        lemma_hundreds_below_halvings(a / 100);
        lemma_halvings_monotone(a / 100, (a + 1) / 2);
    } else {
        assert(hundreds(a / 100 / 100) == 0);
    }
}

proof fn lemma_label_length(v: int, sig: nat)
    requires
        sig >= 1,
    ensures
        starts_with_minus(label_digits(v, sig)) ==> label_digits(v, sig).len() >= sig
            && label_digits(v, sig).len() >= 2,
        !starts_with_minus(label_digits(v, sig)) ==> label_digits(v, sig).len() == sig,
{
    let x = scaled(v, sig);
    let t = int_text(x);
    let s = padded(t, sig as int);
    if x < 0 {
        lemma_digits_nonempty((-x) as nat);
    } else {
        lemma_digits_nonempty(x as nat);
    }
    assert(s.len() >= 1 && s[0] == t[0]);
    if starts_with_minus(s) {
        assert(t.len() >= 2);
        assert(label_digits(v, sig) == truncated(s, sig as int + 1));
        assert(label_digits(v, sig)[0] == '-');
    } else {
        assert(label_digits(v, sig) == truncated(s, sig as int));
        assert(!starts_with_minus(label_digits(v, sig)));
    }
}

proof fn lemma_bound_fits(v: int, delta: int)
    requires
        abs(v) <= delta,
    ensures
        label_fits(v, sig_count(delta)),
{
    let sig = sig_count(delta);
    lemma_label_length(v, sig);
    if abs(v) >= 100 * UNIT {
        lemma_hundreds_below_halvings(abs(v));
        lemma_halvings_monotone(abs(v), delta);
    } else if abs(v) >= UNIT {
        assert(hundreds(abs(v) / 100) == 0);
    }
}

/// Limits that hold zero always give labels whose decimal point falls
/// within their digits.
pub proof fn lemma_zero_seeded_labels_fit(l: int, u: int)
    requires
        l <= 0 <= u,
    ensures
        label_fits(l, sig_count(u - l)),
        label_fits(u, sig_count(u - l)),
{
    lemma_bound_fits(l, u - l);
    lemma_bound_fits(u, u - l);
}

} // verus!
