//! Whether a JSON number literal lies beyond the finite `f64` range.
//!
//! A literal rounds to an infinite `f64` exactly when its magnitude is at
//! least `2^1024 - 2^970`, the midpoint between `f64::MAX` and `2^1024` (the
//! midpoint itself rounds to even, away from `f64::MAX`). The decision is
//! made on the decimal digits alone, without any floating-point arithmetic.

use vstd::prelude::*;
use vstd::string::StringSliceAdditionalSpecFns;
use crate::lex::{at, digits_end, input_ok, int_part_end, is_digit, lemma_digits_end_bounds, number_end, number_spec, skip_digits};
use crate::types::MatchError;

verus! {

/// `2^1024 - 2^970` in decimal.
pub const OVERFLOW_THRESHOLD: &'static str = "179769313486231580793728971405303415079934132710037826936173778980444968292764750946649017977587207096330286416692887910946555547851940402630657488671505820681908902000708383676273854845817711531764475730270069855571366959622842914819860834936475292719074168444365510704342711559699508093042880177904174497792";

/// `10^n`.
pub open spec fn pow10(n: nat) -> nat
    decreases n,
{
    if n == 0 { 1 } else { 10 * pow10((n - 1) as nat) }
}

/// The value of the ASCII decimal digits `d`.
pub open spec fn dval(d: Seq<u8>) -> nat
    decreases d.len(),
{
    if d.len() == 0 { 0 } else { dval(d.drop_last()) * 10 + (d.last() - 0x30) as nat }
}

pub open spec fn all_digits(d: Seq<u8>) -> bool {
    forall|i: int| 0 <= i < d.len() ==> is_digit(#[trigger] d[i])
}

/// The least magnitude that rounds to an infinite `f64`.
pub open spec fn threshold() -> nat {
    dval(OVERFLOW_THRESHOLD.spec_bytes())
}

/// Where the digits of a number literal at `s` begin (after its sign).
pub open spec fn int_start(b: Seq<u8>, s: int) -> int {
    if at(b, s) == Some(0x2Du8) { s + 1 } else { s }
}

pub open spec fn int_end(b: Seq<u8>, s: int) -> int {
    int_part_end(b, int_start(b, s)).unwrap()
}

pub open spec fn fraction_start(b: Seq<u8>, s: int) -> int {
    let i1 = int_end(b, s);
    if at(b, i1) == Some(0x2Eu8) { i1 + 1 } else { i1 }
}

pub open spec fn fraction_end(b: Seq<u8>, s: int) -> int {
    let i1 = int_end(b, s);
    if at(b, i1) == Some(0x2Eu8) { digits_end(b, i1 + 1) } else { i1 }
}

/// All digits of the literal before its exponent: integer part, then fraction.
pub open spec fn significand(b: Seq<u8>, s: int) -> Seq<u8> {
    b.subrange(int_start(b, s), int_end(b, s)) + b.subrange(fraction_start(b, s), fraction_end(b, s))
}

/// Where the exponent's digits begin (after `e`/`E` and any sign).
pub open spec fn exponent_digits(b: Seq<u8>, s: int) -> int {
    let x = fraction_end(b, s);
    if b[x + 1] == 0x2D || b[x + 1] == 0x2B { x + 2 } else { x + 1 }
}

/// The literal's decimal exponent, as written after `e`/`E` (0 without one).
pub open spec fn exponent(b: Seq<u8>, s: int, e: int) -> int {
    if fraction_end(b, s) < e {
        let v = dval(b.subrange(exponent_digits(b, s), e)) as int;
        if b[fraction_end(b, s) + 1] == 0x2D { -v } else { v }
    } else {
        0
    }
}

/// Whether `m * 10^d` reaches `t`.
pub open spec fn reaches(m: nat, d: int, t: nat) -> bool {
    if d >= 0 {
        m * pow10(d as nat) >= t
    } else {
        m >= t * pow10((-d) as nat)
    }
}

/// The number literal `b[s..e]`, whose value is
/// `significand * 10^(exponent - fraction digits)`, has a magnitude of at
/// least [`threshold`].
pub open spec fn number_overflows(b: Seq<u8>, s: int, e: int) -> bool {
    reaches(
        dval(significand(b, s)),
        exponent(b, s, e) - (fraction_end(b, s) - fraction_start(b, s)),
        threshold(),
    )
}

/// `n` zero digits.
pub open spec fn zeros(n: nat) -> Seq<u8> {
    Seq::new(n, |_i: int| 0x30u8)
}

pub proof fn lemma_pow10_add(a: nat, c: nat)
    ensures
        pow10(a + c) == pow10(a) * pow10(c),
        pow10(a) >= 1,
    decreases a,
{
    if a > 0 {
        let a1 = (a - 1) as nat;
        lemma_pow10_add(a1, c);
        assert((a + c - 1) as nat == a1 + c);
        assert(pow10(a + c) == 10 * pow10(a1 + c));
        assert(pow10(a) == 10 * pow10(a1));
        let x = pow10(a1);
        let y = pow10(c);
        assert(10 * (x * y) == (10 * x) * y) by (nonlinear_arith);
        assert(pow10(a + c) == pow10(a) * pow10(c));
    } else {
        assert(pow10(a) == 1);
        assert(a + c == c);
        assert(pow10(a + c) == pow10(a) * pow10(c));
    }
}

pub proof fn lemma_pow10_mono(a: nat, c: nat)
    requires
        a <= c,
    ensures
        pow10(a) <= pow10(c),
{
    lemma_pow10_add(a, (c - a) as nat);
    lemma_pow10_add((c - a) as nat, 0);
    assert(pow10(a) * pow10((c - a) as nat) >= pow10(a) * 1) by (nonlinear_arith)
        requires
            pow10((c - a) as nat) >= 1,
    ;
}

/// Digits written after other digits shift them left.
pub proof fn lemma_dval_concat(a: Seq<u8>, c: Seq<u8>)
    ensures
        dval(a + c) == dval(a) * pow10(c.len()) + dval(c),
    decreases c.len(),
{
    if c.len() == 0 {
        assert(a + c =~= a);
        assert(pow10(0) == 1);
        assert(dval(c) == 0);
    } else {
        let c1 = c.drop_last();
        lemma_dval_concat(a, c1);
        assert((a + c).drop_last() =~= a + c1);
        assert((a + c).last() == c.last());
        let x = dval(a);
        let p = pow10(c1.len());
        let y = dval(c1);
        let l = (c.last() - 0x30) as nat;
        assert(dval(a + c) == dval(a + c1) * 10 + l);
        assert(dval(c) == y * 10 + l);
        assert((c.len() - 1) as nat == c1.len());
        assert(pow10(c.len()) == 10 * p);
        assert((x * p + y) * 10 + l == x * (10 * p) + (y * 10 + l)) by (nonlinear_arith);
        assert(dval(a + c) == dval(a) * pow10(c.len()) + dval(c));
    }
}

pub proof fn lemma_dval_single(x: u8)
    ensures
        dval(seq![x]) == (x - 0x30) as nat,
{
    let d = seq![x];
    assert(d.drop_last() =~= Seq::<u8>::empty());
    assert(d.last() == x);
    assert(dval(Seq::<u8>::empty()) == 0);
}

/// Digits have a value below `10^len`.
pub proof fn lemma_dval_bound(d: Seq<u8>)
    requires
        all_digits(d),
    ensures
        dval(d) < pow10(d.len()),
    decreases d.len(),
{
    if d.len() > 0 {
        let d1 = d.drop_last();
        assert(all_digits(d1)) by {
            assert forall|i: int| 0 <= i < d1.len() implies is_digit(#[trigger] d1[i]) by {
                assert(d1[i] == d[i]);
            }
        }
        lemma_dval_bound(d1);
        assert(is_digit(d[d.len() - 1]));
        let x = dval(d1);
        let p = pow10(d1.len());
        assert(x * 10 + 9 < 10 * p) by (nonlinear_arith)
            requires
                x < p,
        ;
    }
}

/// Digits that start with a nonzero digit have a value of at least `10^(len - 1)`.
pub proof fn lemma_dval_lower(d: Seq<u8>)
    requires
        d.len() > 0,
        all_digits(d),
        d[0] != 0x30,
    ensures
        dval(d) >= pow10((d.len() - 1) as nat),
{
    let rest = d.drop_first();
    assert(d =~= seq![d[0]] + rest);
    lemma_dval_concat(seq![d[0]], rest);
    lemma_dval_single(d[0]);
    let v = (d[0] - 0x30) as nat;
    assert(v >= 1);
    assert(v * pow10(rest.len()) >= pow10(rest.len())) by (nonlinear_arith)
        requires
            v >= 1,
    ;
}

/// Zeros have no value.
pub proof fn lemma_dval_zeros(d: Seq<u8>)
    requires
        forall|i: int| 0 <= i < d.len() ==> #[trigger] d[i] == 0x30,
    ensures
        dval(d) == 0,
    decreases d.len(),
{
    if d.len() > 0 {
        lemma_dval_zeros(d.drop_last());
    }
}

/// Of two digit strings of one length, the one larger at their first
/// difference is larger.
pub proof fn lemma_dval_first_difference(a: Seq<u8>, c: Seq<u8>, k: int)
    requires
        a.len() == c.len(),
        0 <= k < a.len(),
        all_digits(a),
        all_digits(c),
        a.take(k) == c.take(k),
        a[k] > c[k],
    ensures
        dval(a) > dval(c),
{
    let r = (a.len() - k - 1) as nat;
    let pa = a.take(k);
    let ra = a.skip(k + 1);
    let rc = c.skip(k + 1);
    assert(a =~= (pa + seq![a[k]]) + ra);
    assert(c =~= (pa + seq![c[k]]) + rc);
    lemma_dval_concat(pa + seq![a[k]], ra);
    lemma_dval_concat(pa + seq![c[k]], rc);
    lemma_dval_concat(pa, seq![a[k]]);
    lemma_dval_concat(pa, seq![c[k]]);
    lemma_dval_single(a[k]);
    lemma_dval_single(c[k]);
    assert(all_digits(rc)) by {
        assert forall|i: int| 0 <= i < rc.len() implies is_digit(#[trigger] rc[i]) by {
            assert(rc[i] == c[k + 1 + i]);
        }
    }
    lemma_dval_bound(rc);
    assert(rc.len() == r);
    assert(ra.len() == r);
    lemma_pow10_add(1, 0);
    let x = dval(pa) * 10;
    let va = (a[k] - 0x30) as nat;
    let vc = (c[k] - 0x30) as nat;
    let p = pow10(r);
    assert((x + va) * p + dval(ra) > (x + vc) * p + dval(rc)) by (nonlinear_arith)
        requires
            va >= vc + 1,
            dval(rc) < p,
    ;
}

/// The parts of a number literal that spans `b[s..e]`.
pub proof fn lemma_number_shape(b: Seq<u8>, s: int, e: int)
    requires
        0 <= s,
        number_spec(b, s) == Ok::<int, MatchError>(e),
    ensures
        s <= int_start(b, s) < int_end(b, s) <= fraction_start(b, s) <= fraction_end(b, s) <= e <= b.len(),
        int_start(b, s) == s || (int_start(b, s) == s + 1 && b[s] == 0x2D),
        int_start(b, s) == s ==> is_digit(b[s]),
        fraction_start(b, s) == int_end(b, s) ==> fraction_end(b, s) == int_end(b, s),
        fraction_start(b, s) == int_end(b, s) || (fraction_start(b, s) == int_end(b, s) + 1 && b[int_end(b, s)] == 0x2E),
        int_end(b, s) < b.len() && b[int_end(b, s)] == 0x2E ==> fraction_start(b, s) == int_end(b, s) + 1,
        all_digits(b.subrange(int_start(b, s), int_end(b, s))),
        all_digits(b.subrange(fraction_start(b, s), fraction_end(b, s))),
        b[int_start(b, s)] == 0x30 ==> int_end(b, s) == int_start(b, s) + 1,
        b[int_start(b, s)] != 0x30 ==> int_end(b, s) == digits_end(b, int_start(b, s) + 1),
        int_end(b, s) < b.len() && b[int_end(b, s)] == 0x2E ==> fraction_end(b, s) == digits_end(b, int_end(b, s) + 1),
        fraction_end(b, s) < e ==> fraction_end(b, s) + 1 < b.len()
            && fraction_end(b, s) + 1 <= exponent_digits(b, s) < e
            && all_digits(b.subrange(exponent_digits(b, s), e)),
{
    lemma_number_bounds_all(b, s);
}

proof fn lemma_number_bounds_all(b: Seq<u8>, s: int)
    requires
        0 <= s,
        number_spec(b, s) is Ok,
    ensures
        ({
            let e = number_spec(b, s).unwrap();
            &&& s <= int_start(b, s) < int_end(b, s) <= fraction_start(b, s) <= fraction_end(b, s) <= e <= b.len()
            &&& int_start(b, s) == s || (int_start(b, s) == s + 1 && b[s] == 0x2D)
            &&& int_start(b, s) == s ==> is_digit(b[s])
            &&& fraction_start(b, s) == int_end(b, s) ==> fraction_end(b, s) == int_end(b, s)
            &&& fraction_start(b, s) == int_end(b, s) || (fraction_start(b, s) == int_end(b, s) + 1 && b[int_end(b, s)] == 0x2E)
            &&& int_end(b, s) < b.len() && b[int_end(b, s)] == 0x2E ==> fraction_start(b, s) == int_end(b, s) + 1
            &&& all_digits(b.subrange(int_start(b, s), int_end(b, s)))
            &&& all_digits(b.subrange(fraction_start(b, s), fraction_end(b, s)))
            &&& b[int_start(b, s)] == 0x30 ==> int_end(b, s) == int_start(b, s) + 1
            &&& b[int_start(b, s)] != 0x30 ==> int_end(b, s) == digits_end(b, int_start(b, s) + 1)
            &&& int_end(b, s) < b.len() && b[int_end(b, s)] == 0x2E ==> fraction_end(b, s) == digits_end(b, int_end(b, s) + 1)
            &&& fraction_end(b, s) < e ==> fraction_end(b, s) + 1 < b.len()
                && fraction_end(b, s) + 1 <= exponent_digits(b, s) < e
                && all_digits(b.subrange(exponent_digits(b, s), e))
        }),
{
    let i0 = int_start(b, s);
    let i1 = int_end(b, s);
    lemma_digits_end_bounds(b, i0 + 1);
    lemma_digits_end_bounds(b, i1 + 1);
    let x = fraction_end(b, s);
    lemma_digits_end_bounds(b, x + 1);
    lemma_digits_end_bounds(b, x + 2);
    let e = number_spec(b, s).unwrap();
    assert forall|k: int| 0 <= k < b.subrange(i0, i1).len() implies is_digit(#[trigger] b.subrange(i0, i1)[k]) by {
        assert(b.subrange(i0, i1)[k] == b[i0 + k]);
    }
    assert forall|k: int| 0 <= k < b.subrange(fraction_start(b, s), x).len()
        implies is_digit(#[trigger] b.subrange(fraction_start(b, s), x)[k]) by {
        assert(b.subrange(fraction_start(b, s), x)[k] == b[fraction_start(b, s) + k]);
    }
    if x < e {
        let xs = exponent_digits(b, s);
        assert forall|k: int| 0 <= k < b.subrange(xs, e).len() implies is_digit(#[trigger] b.subrange(xs, e)[k]) by {
            assert(b.subrange(xs, e)[k] == b[xs + k]);
        }
    }
}

/// The threshold's digits: 309 of them, the first nonzero.
pub proof fn lemma_threshold_text()
    ensures
        OVERFLOW_THRESHOLD.spec_bytes().len() == 309,
        all_digits(OVERFLOW_THRESHOLD.spec_bytes()),
        OVERFLOW_THRESHOLD.spec_bytes()[0] != 0x30,
{
    reveal_strlit("179769313486231580793728971405303415079934132710037826936173778980444968292764750946649017977587207096330286416692887910946555547851940402630657488671505820681908902000708383676273854845817711531764475730270069855571366959622842914819860834936475292719074168444365510704342711559699508093042880177904174497792");
    assert(OVERFLOW_THRESHOLD@ == "179769313486231580793728971405303415079934132710037826936173778980444968292764750946649017977587207096330286416692887910946555547851940402630657488671505820681908902000708383676273854845817711531764475730270069855571366959622842914819860834936475292719074168444365510704342711559699508093042880177904174497792"@);
    assert(vstd::string::is_ascii(OVERFLOW_THRESHOLD));
    vstd::string::is_ascii_spec_bytes(OVERFLOW_THRESHOLD);
}

/// Exponents this large decide the question whatever the digits.
pub const EXPONENT_CAP: u64 = 0x100_0000_0000;

/// The value of the digits `b[i..j]`, exact below [`EXPONENT_CAP`] and at
/// least [`EXPONENT_CAP`] otherwise.
fn capped_value(b: &[u8], i: u64, j: u64) -> (r: u64)
    requires
        i <= j <= b@.len(),
        all_digits(b@.subrange(i as int, j as int)),
    ensures
        dval(b@.subrange(i as int, j as int)) < EXPONENT_CAP ==> r == dval(b@.subrange(i as int, j as int)),
        dval(b@.subrange(i as int, j as int)) >= EXPONENT_CAP ==> r >= EXPONENT_CAP,
        r < EXPONENT_CAP * 10,
{
    let mut x: u64 = 0;
    let mut k = i;
    while k < j
        invariant
            i <= k <= j <= b@.len(),
            all_digits(b@.subrange(i as int, j as int)),
            dval(b@.subrange(i as int, k as int)) < EXPONENT_CAP ==> x == dval(b@.subrange(i as int, k as int)),
            dval(b@.subrange(i as int, k as int)) >= EXPONENT_CAP ==> x >= EXPONENT_CAP,
            x < EXPONENT_CAP * 10,
        decreases j - k,
    {
        let ghost pre = b@.subrange(i as int, k as int);
        let ghost next = b@.subrange(i as int, k + 1);
        proof {
            assert(next.drop_last() =~= pre);
            assert(next.last() == b@[k as int]);
            assert(b@.subrange(i as int, j as int)[k - i] == b@[k as int]);
        }
        if x < EXPONENT_CAP {
            x = x * 10 + (b[k as usize] - 0x30) as u64;
        }
        k = k + 1;
    }
    x
}

/// Digit `k` of the significand whose integer digits are `b[i0..i0 + ni]`
/// and fraction digits start at `fs`.
fn significand_digit(b: &[u8], i0: u64, ni: u64, fs: u64, k: u64, Ghost(sig): Ghost<Seq<u8>>) -> (r: u8)
    requires
        sig == b@.subrange(i0 as int, (i0 + ni) as int) + b@.subrange(fs as int, (fs + sig.len() - ni) as int),
        b@.len() <= u32::MAX,
        i0 + ni <= b@.len(),
        ni <= sig.len(),
        fs + sig.len() - ni <= b@.len(),
        k < sig.len(),
    ensures
        r == sig[k as int],
{
    if k < ni {
        b[(i0 + k) as usize]
    } else {
        b[(fs + (k - ni)) as usize]
    }
}

/// Whether a nonzero significand `m` of `len` digits, scaled by `10^d`,
/// reaches `t`, a threshold of 309 digits, when its leading digit's place
/// is not that of `t`'s.
proof fn lemma_far_from_threshold(m: nat, len: nat, d: int, t: nat)
    requires
        len >= 1,
        pow10((len - 1) as nat) <= m < pow10(len),
        pow10(308) <= t < pow10(309),
    ensures
        len + d >= 310 ==> reaches(m, d, t),
        len + d <= 308 ==> !reaches(m, d, t),
{
    if d >= 0 {
        let dn = d as nat;
        lemma_pow10_add(dn, 0);
        lemma_pow10_add((len - 1) as nat, dn);
        lemma_pow10_add(len, dn);
        let p1 = pow10((len - 1) as nat);
        let p2 = pow10(len);
        let pd = pow10(dn);
        assert(p1 * pd <= m * pd && m * pd < p2 * pd) by (nonlinear_arith)
            requires
                p1 <= m < p2,
                pd >= 1,
        ;
        if len + d >= 310 {
            lemma_pow10_mono(309, (len - 1 + dn) as nat);
        }
        if len + d <= 308 {
            lemma_pow10_mono(len + dn, 308);
        }
    } else {
        let dn = (-d) as nat;
        lemma_pow10_add(dn, 0);
        lemma_pow10_add(309, dn);
        lemma_pow10_add(308, dn);
        let pd = pow10(dn);
        let p9 = pow10(309);
        let p8 = pow10(308);
        assert(p8 * pd <= t * pd && t * pd < p9 * pd) by (nonlinear_arith)
            requires
                p8 <= t < p9,
                pd >= 1,
        ;
        if len + d >= 310 {
            lemma_pow10_mono(309 + dn, (len - 1) as nat);
        }
        if len + d <= 308 {
            lemma_pow10_mono(len, 308 + dn);
        }
    }
}

/// Right at the threshold's place, the comparison is one of digit strings
/// padded with zeros to one length.
proof fn lemma_at_threshold(dp: Seq<u8>, d: int, tt: Seq<u8>)
    requires
        dp.len() + d == 309,
        tt.len() == 309,
    ensures
        ({
            let w: int = if dp.len() > 309 { dp.len() as int } else { 309 };
            let a = dp + zeros((w - dp.len()) as nat);
            let c = tt + zeros((w - 309) as nat);
            &&& a.len() == w && c.len() == w
            &&& reaches(dval(dp), d, dval(tt)) == (dval(a) >= dval(c))
        }),
{
    let w: int = if dp.len() > 309 { dp.len() as int } else { 309 };
    let za = zeros((w - dp.len()) as nat);
    let zc = zeros((w - 309) as nat);
    lemma_dval_concat(dp, za);
    lemma_dval_concat(tt, zc);
    lemma_dval_zeros(za);
    lemma_dval_zeros(zc);
    if d >= 0 {
        assert(za.len() == d);
        assert(zc.len() == 0);
        assert(pow10(0) == 1);
    } else {
        assert(za.len() == 0);
        assert(zc.len() == -d);
        assert(pow10(0) == 1);
    }
}

/// The layout of the number literal `b[s..e]`: its integer digits
/// `b[i0..i1]`, fraction digits `b[fs..fe]`, and its exponent (capped at
/// [`EXPONENT_CAP`]) with its sign.
fn number_layout(b: &[u8], s: u64, e: u64) -> (r: (u64, u64, u64, u64, bool, u64))
    requires
        input_ok(b@),
        number_spec(b@, s as int) == Ok::<int, MatchError>(e as int),
    ensures
        r.0 == int_start(b@, s as int),
        r.1 == int_end(b@, s as int),
        r.2 == fraction_start(b@, s as int),
        r.3 == fraction_end(b@, s as int),
        r.5 < EXPONENT_CAP * 10,
        r.5 < EXPONENT_CAP ==> exponent(b@, s as int, e as int) == (if r.4 { -(r.5 as int) } else { r.5 as int }),
        r.5 >= EXPONENT_CAP ==> (if r.4 {
            exponent(b@, s as int, e as int) <= -(EXPONENT_CAP as int)
        } else {
            exponent(b@, s as int, e as int) >= EXPONENT_CAP as int
        }),
{
    proof { lemma_number_shape(b@, s as int, e as int); }
    let i0 = if b[s as usize] == 0x2D { s + 1 } else { s };
    let i1 = if b[i0 as usize] == 0x30 { i0 + 1 } else { skip_digits(b, i0 + 1) };
    let has_fraction = i1 < b.len() as u64 && b[i1 as usize] == 0x2E;
    let fs = if has_fraction { i1 + 1 } else { i1 };
    let fe = if has_fraction { skip_digits(b, i1 + 1) } else { i1 };
    let mut negative = false;
    let mut x: u64 = 0;
    if fe < e {
        let sign = b[(fe + 1) as usize];
        let xs = if sign == 0x2D || sign == 0x2B { fe + 2 } else { fe + 1 };
        negative = sign == 0x2D;
        x = capped_value(b, xs, e);
    }
    (i0, i1, fs, fe, negative, x)
}

/// The number of leading zeros of the significand.
fn leading_zeros(b: &[u8], i0: u64, ni: u64, fs: u64, n: u64, Ghost(sig): Ghost<Seq<u8>>) -> (z: u64)
    requires
        b@.len() <= u32::MAX,
        sig == b@.subrange(i0 as int, (i0 + ni) as int) + b@.subrange(fs as int, (fs + sig.len() - ni) as int),
        sig.len() == n,
        i0 + ni <= b@.len(),
        ni <= n,
        fs + n - ni <= b@.len(),
    ensures
        z <= n,
        forall|k: int| 0 <= k < z ==> sig[k] == 0x30,
        z < n ==> sig[z as int] != 0x30,
{
    let mut z: u64 = 0;
    while z < n && significand_digit(b, i0, ni, fs, z, Ghost(sig)) == 0x30
        invariant
            z <= n,
            b@.len() <= u32::MAX,
            sig == b@.subrange(i0 as int, (i0 + ni) as int) + b@.subrange(fs as int, (fs + sig.len() - ni) as int),
            sig.len() == n,
            i0 + ni <= b@.len(),
            ni <= n,
            fs + n - ni <= b@.len(),
            forall|k: int| 0 <= k < z ==> sig[k] == 0x30,
        decreases n - z,
    {
        z = z + 1;
    }
    z
}

/// Compares the significand digits from `z` on with the threshold's, both
/// padded with zeros to `w` digits: whether the significand's are at least
/// the threshold's.
fn at_least_threshold(b: &[u8], i0: u64, ni: u64, fs: u64, n: u64, z: u64, Ghost(sig): Ghost<Seq<u8>>) -> (r: bool)
    requires
        b@.len() <= u32::MAX,
        sig == b@.subrange(i0 as int, (i0 + ni) as int) + b@.subrange(fs as int, (fs + sig.len() - ni) as int),
        sig.len() == n,
        i0 + ni <= b@.len(),
        ni <= n,
        fs + n - ni <= b@.len(),
        z < n,
        all_digits(sig),
    ensures
        ({
            let dp = sig.skip(z as int);
            let w: int = if dp.len() > 309 { dp.len() as int } else { 309 };
            let pa = dp + zeros((w - dp.len()) as nat);
            let pc = OVERFLOW_THRESHOLD.spec_bytes() + zeros((w - 309) as nat);
            r == (dval(pa) >= dval(pc))
        }),
{
    let l = n - z;
    let t = OVERFLOW_THRESHOLD.as_bytes();
    let ghost tt = OVERFLOW_THRESHOLD.spec_bytes();
    let ghost dp = sig.skip(z as int);
    let w: u64 = if l > 309 { l } else { 309 };
    let ghost pa = dp + zeros((w - l) as nat);
    let ghost pc = tt + zeros((w - 309) as nat);
    proof {
        lemma_threshold_text();
        assert(all_digits(pa)) by {
            assert forall|k: int| 0 <= k < pa.len() implies is_digit(#[trigger] pa[k]) by {
                if k < dp.len() {
                    assert(pa[k] == sig[z + k]);
                }
            }
        }
        assert(all_digits(pc)) by {
            assert forall|k: int| 0 <= k < pc.len() implies is_digit(#[trigger] pc[k]) by {
                if k < tt.len() {
                    assert(pc[k] == tt[k]);
                }
            }
        }
    }
    let mut k: u64 = 0;
    while k < w
        invariant
            k <= w,
            w == (if l > 309 { l } else { 309 }),
            w == pa.len(),
            w == pc.len(),
            l == dp.len(),
            z + l == n,
            t@ == tt,
            tt == OVERFLOW_THRESHOLD.spec_bytes(),
            tt.len() == 309,
            all_digits(pa),
            all_digits(pc),
            pa == dp + zeros((w - l) as nat),
            pc == tt + zeros((w - 309) as nat),
            dp == sig.skip(z as int),
            b@.len() <= u32::MAX,
            sig == b@.subrange(i0 as int, (i0 + ni) as int) + b@.subrange(fs as int, (fs + sig.len() - ni) as int),
            sig.len() == n,
            i0 + ni <= b@.len(),
            ni <= n,
            fs + n - ni <= b@.len(),
            pa.take(k as int) == pc.take(k as int),
        decreases w - k,
    {
        let a = if k < l { significand_digit(b, i0, ni, fs, z + k, Ghost(sig)) } else { 0x30 };
        let c = if k < 309 { t[k as usize] } else { 0x30 };
        assert(a == pa[k as int]);
        assert(c == pc[k as int]);
        if a != c {
            proof {
                if a > c {
                    lemma_dval_first_difference(pa, pc, k as int);
                } else {
                    lemma_dval_first_difference(pc, pa, k as int);
                }
            }
            return a > c;
        }
        proof {
            assert(pa.take(k + 1) =~= pa.take(k as int).push(a));
            assert(pc.take(k + 1) =~= pc.take(k as int).push(c));
        }
        k = k + 1;
    }
    proof {
        assert(pa =~= pa.take(w as int));
        assert(pc =~= pc.take(w as int));
    }
    true
}

/// Leading zeros do not count; what remains starts with a nonzero digit.
proof fn lemma_strip_zeros(sig: Seq<u8>, z: int)
    requires
        0 <= z <= sig.len(),
        all_digits(sig),
        forall|k: int| 0 <= k < z ==> sig[k] == 0x30,
        z < sig.len() ==> sig[z] != 0x30,
    ensures
        dval(sig) == dval(sig.skip(z)),
        all_digits(sig.skip(z)),
        z < sig.len() ==> pow10((sig.len() - z - 1) as nat) <= dval(sig.skip(z)) < pow10((sig.len() - z) as nat),
{
    let zs = sig.take(z);
    let dp = sig.skip(z);
    assert(sig =~= zs + dp);
    lemma_dval_concat(zs, dp);
    lemma_dval_zeros(zs);
    let pz = pow10(dp.len());
    assert(dval(zs) * pz == 0) by (nonlinear_arith)
        requires
            dval(zs) == 0,
    ;
    assert(all_digits(dp)) by {
        assert forall|k: int| 0 <= k < dp.len() implies is_digit(#[trigger] dp[k]) by {
            assert(dp[k] == sig[z + k]);
        }
    }
    if z < sig.len() {
        assert(dp[0] == sig[z]);
        lemma_dval_lower(dp);
        lemma_dval_bound(dp);
    }
}

/// The significand's digits are digits.
proof fn lemma_significand_digits(b: Seq<u8>, s: int, e: int)
    requires
        0 <= s,
        number_spec(b, s) == Ok::<int, MatchError>(e),
    ensures
        all_digits(significand(b, s)),
{
    lemma_number_shape(b, s, e);
    let a = b.subrange(int_start(b, s), int_end(b, s));
    let c = b.subrange(fraction_start(b, s), fraction_end(b, s));
    let sig = significand(b, s);
    assert forall|k: int| 0 <= k < sig.len() implies is_digit(#[trigger] sig[k]) by {
        if k < a.len() {
            assert(sig[k] == a[k]);
        } else {
            assert(sig[k] == c[k - a.len()]);
        }
    }
}

/// Zero never reaches a positive threshold.
proof fn lemma_zero_short(d: int, t: nat)
    requires
        t >= 1,
    ensures
        !reaches(0, d, t),
{
    if d >= 0 {
        assert(0 * pow10(d as nat) == 0) by (nonlinear_arith);
    } else {
        lemma_pow10_add((-d) as nat, 0);
        let pd = pow10((-d) as nat);
        assert(t * pd >= 1) by (nonlinear_arith)
            requires
                t >= 1,
                pd >= 1,
        ;
    }
}

/// Whether the number literal `b[s..e]` lies beyond the finite `f64` range:
/// its magnitude reaches [`threshold`].
pub fn literal_overflows(b: &[u8], s: u64, e: u64) -> (r: bool)
    requires
        input_ok(b@),
        number_spec(b@, s as int) == Ok::<int, MatchError>(e as int),
    ensures
        r == number_overflows(b@, s as int, e as int),
{
    let (i0, i1, fs, fe, negative, x) = number_layout(b, s, e);
    proof {
        lemma_number_shape(b@, s as int, e as int);
        lemma_significand_digits(b@, s as int, e as int);
        lemma_threshold_text();
        lemma_dval_lower(OVERFLOW_THRESHOLD.spec_bytes());
        lemma_dval_bound(OVERFLOW_THRESHOLD.spec_bytes());
    }
    let ghost xv: int = exponent(b@, s as int, e as int);
    let ni = i1 - i0;
    let nf = fe - fs;
    let n = ni + nf;
    let ghost sig = significand(b@, s as int);
    assert(sig.len() == n);
    let z = leading_zeros(b, i0, ni, fs, n, Ghost(sig));
    proof { lemma_strip_zeros(sig, z as int); }
    let ghost dp = sig.skip(z as int);
    if z == n {
        proof {
            assert(dp.len() == 0);
            lemma_zero_short(xv - nf, threshold());
        }
        return false;
    }
    let l = n - z;
    proof {
        lemma_far_from_threshold(dval(dp), l as nat, xv - nf, threshold());
        assert(l <= n <= u32::MAX);
    }
    let xi: i64 = if negative { -(x as i64) } else { x as i64 };
    let p: i64 = l as i64 + xi - nf as i64;
    proof {
        if x < EXPONENT_CAP {
            assert(p == l + xv - nf);
        } else if negative {
            assert(p < 309);
            assert(l + xv - nf <= 308);
        } else {
            assert(p > 309);
            assert(l + xv - nf >= 310);
        }
    }
    if p > 309 {
        return true;
    }
    if p < 309 {
        return false;
    }
    proof { lemma_at_threshold(dp, xv - nf, OVERFLOW_THRESHOLD.spec_bytes()); }
    at_least_threshold(b, i0, ni, fs, n, z, Ghost(sig))
}

} // verus!
