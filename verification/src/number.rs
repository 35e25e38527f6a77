//! Exact comparison of JSON numbers by their values: integers, and decimal
//! literals `-? digits (. digits)? ([eE] [+-]? digits)?` read as
//! `mantissa * 10^exponent`.
use vstd::prelude::*;
use vstd::arithmetic::power::{pow, lemma_pow0, lemma_pow_adds, lemma_pow_positive, lemma_pow_increases};
use crate::json::{JsonNumber, NumberModel};
use crate::text::is_digit;
use crate::ron_subset::{number_sign_end, number_int_end, number_has_dot, number_frac_end, number_has_exp, number_exp_digits_start, number_end, digits_value, digits_end, lemma_digits_end};

verus! {

/// Exponents larger in magnitude than this are read as this bound.
pub const EXPONENT_CAP: u128 = 1_000_000_000_000_000_000_000_000_000_000;

/// Value of a sequence of decimal digits (each below ten).
pub open spec fn dval(d: Seq<u8>) -> nat
    decreases d.len(),
{
    if d.len() == 0 {
        0
    } else {
        dval(d.drop_last()) * 10 + d.last() as nat
    }
}

pub open spec fn pow10(e: nat) -> nat {
    pow(10, e) as nat
}

/// The digits of a decimal literal's mantissa (integer digits, then fraction digits).
pub open spec fn mantissa_chars(t: Seq<char>) -> Seq<char> {
    let ints = t.subrange(number_sign_end(t, 0), number_int_end(t, 0));
    if number_has_dot(t, 0) {
        ints + t.subrange(number_int_end(t, 0) + 1, number_frac_end(t, 0))
    } else {
        ints
    }
}

pub open spec fn fraction_len(t: Seq<char>) -> int {
    if number_has_dot(t, 0) {
        number_frac_end(t, 0) - (number_int_end(t, 0) + 1)
    } else {
        0
    }
}

/// The written exponent, bounded by `EXPONENT_CAP` in magnitude.
pub open spec fn written_exponent(t: Seq<char>) -> int {
    if number_has_exp(t, 0) {
        let ds = number_exp_digits_start(t, 0);
        let v = digits_value(t.subrange(ds, number_end(t, 0)));
        let bounded = if v > EXPONENT_CAP {
            EXPONENT_CAP as int
        } else {
            v
        };
        if t[ds - 1] == '-' {
            -bounded
        } else {
            bounded
        }
    } else {
        0
    }
}

/// A number as (negative, magnitude mantissa, power of ten).
pub open spec fn num_parts(n: NumberModel) -> (bool, nat, int) {
    match n {
        NumberModel::PosInt(u) => (false, u as nat, 0),
        NumberModel::NegInt(i) => (i < 0, (if i < 0 { -(i as int) } else { i as int }) as nat, 0),
        NumberModel::Float(t) => (
            number_sign_end(t, 0) > 0,
            digits_value(mantissa_chars(t)) as nat,
            written_exponent(t) - fraction_len(t),
        ),
    }
}

/// The value of `n` times `10^-base` (an integer when `base` is at most the exponent).
pub open spec fn scaled(n: NumberModel, base: int) -> int {
    let (neg, m, e) = num_parts(n);
    let mag = m * pow10((e - base) as nat);
    if neg {
        -mag
    } else {
        mag as int
    }
}

pub open spec fn common_base(a: NumberModel, b: NumberModel) -> int {
    let ea = num_parts(a).2;
    let eb = num_parts(b).2;
    if ea <= eb {
        ea
    } else {
        eb
    }
}

/// Three-way comparison of the values of two numbers.
pub open spec fn num_order(a: NumberModel, b: NumberModel) -> int {
    let base = common_base(a, b);
    if scaled(a, base) < scaled(b, base) {
        -1
    } else if scaled(a, base) == scaled(b, base) {
        0
    } else {
        1
    }
}

} // verus!

verus! {

pub open spec fn all_digits(d: Seq<u8>) -> bool {
    forall|i: int| 0 <= i < d.len() ==> #[trigger] d[i] < 10
}

proof fn lemma_pow10_succ(k: nat)
    ensures
        pow10(k + 1) == pow10(k) * 10,
        pow10(k) >= 1,
{
    lemma_pow_positive(10, k);
    reveal(pow);
    assert(pow(10, (k + 1) as nat) == 10 * pow(10, k));
}

proof fn lemma_dval_append(a: Seq<u8>, b: Seq<u8>)
    ensures
        dval(a + b) == dval(a) * pow10(b.len()) + dval(b),
    decreases b.len(),
{
    lemma_pow10_succ(0);
    if b.len() == 0 {
        assert(a + b =~= a);
        assert(pow10(0) == 1) by {
            lemma_pow0(10);
        }
    } else {
        lemma_dval_append(a, b.drop_last());
        assert((a + b).drop_last() =~= a + b.drop_last());
        assert((a + b).last() == b.last());
        lemma_pow10_succ((b.len() - 1) as nat);
        let p = pow10((b.len() - 1) as nat);
        assert(dval(a + b) == (dval(a) * p + dval(b.drop_last())) * 10 + b.last() as nat);
        assert((dval(a) * p + dval(b.drop_last())) * 10 == dval(a) * (p * 10) + dval(b.drop_last()) * 10) by (nonlinear_arith);
        assert(dval(b) == dval(b.drop_last()) * 10 + b.last() as nat);
        assert(pow10(b.len()) == p * 10);
    }
}

proof fn lemma_dval_bound(d: Seq<u8>)
    requires
        all_digits(d),
    ensures
        dval(d) < pow10(d.len()),
    decreases d.len(),
{
    if d.len() == 0 {
        lemma_pow0(10);
    } else {
        lemma_dval_bound(d.drop_last());
        lemma_pow10_succ((d.len() - 1) as nat);
        assert(d.last() < 10);
        let p = pow10((d.len() - 1) as nat);
        let v = dval(d.drop_last());
        assert(v + 1 <= p);
        assert(v * 10 + 10 <= p * 10) by (nonlinear_arith)
            requires v + 1 <= p;
    }
}

proof fn lemma_dval_lower(d: Seq<u8>)
    requires
        d.len() >= 1,
        d[0] >= 1,
    ensures
        dval(d) >= pow10((d.len() - 1) as nat),
{
    let rest = d.drop_first();
    assert(d =~= seq![d[0]] + rest);
    lemma_dval_append(seq![d[0]], rest);
    assert(dval(seq![d[0]]) == d[0]) by {
        assert(seq![d[0]].drop_last() =~= Seq::<u8>::empty());
        assert(dval(Seq::<u8>::empty()) == 0);
    }
    let p = pow10(rest.len());
    assert(d[0] as nat * p >= p) by (nonlinear_arith)
        requires d[0] >= 1;
}

proof fn lemma_dval_zero_prefix(d: Seq<u8>, z: int)
    requires
        0 <= z <= d.len(),
        forall|i: int| 0 <= i < z ==> d[i] == 0,
    ensures
        dval(d) == dval(d.skip(z)),
    decreases z,
{
    if z > 0 {
        lemma_dval_zero_prefix(d.drop_first(), z - 1);
        assert(d.drop_first().skip(z - 1) =~= d.skip(z));
        assert(d =~= seq![0u8] + d.drop_first());
        lemma_dval_append(seq![0u8], d.drop_first());
        let zero = seq![0u8];
        assert(dval(zero) == 0) by {
            assert(zero.drop_last() =~= Seq::<u8>::empty());
            assert(dval(Seq::<u8>::empty()) == 0);
            assert(zero.last() == 0u8);
        }
        assert(dval(zero + d.drop_first()) == dval(zero) * pow10(d.drop_first().len()) + dval(d.drop_first()));
        let pw = pow10(d.drop_first().len());
        assert(dval(zero) * pw == 0) by (nonlinear_arith)
            requires dval(zero) == 0;
        assert(d == zero + d.drop_first());
        assert(dval(d) == dval(d.drop_first()));
    } else {
        assert(d.skip(0) =~= d);
    }
}

/// Digit-wise comparison of two equally long digit strings that agree before `i`.
proof fn lemma_dval_lex(d1: Seq<u8>, d2: Seq<u8>, i: int)
    requires
        d1.len() == d2.len(),
        0 <= i < d1.len(),
        all_digits(d1),
        all_digits(d2),
        d1.take(i) == d2.take(i),
        d1[i] < d2[i],
    ensures
        dval(d1) < dval(d2),
{
    let p = d1.take(i);
    let r1 = d1.skip(i + 1);
    let r2 = d2.skip(i + 1);
    let x = d1[i];
    let y = d2[i];
    assert(d1 =~= p + (seq![x] + r1));
    assert(d2 =~= p + (seq![y] + r2));
    lemma_dval_append(p, seq![x] + r1);
    lemma_dval_append(p, seq![y] + r2);
    lemma_dval_append(seq![x], r1);
    lemma_dval_append(seq![y], r2);
    assert(dval(seq![x]) == x) by {
        assert(seq![x].drop_last() =~= Seq::<u8>::empty());
        assert(dval(Seq::<u8>::empty()) == 0);
    }
    assert(dval(seq![y]) == y) by {
        assert(seq![y].drop_last() =~= Seq::<u8>::empty());
        assert(dval(Seq::<u8>::empty()) == 0);
    }
    assert(all_digits(r1)) by {
        assert forall|j: int| 0 <= j < r1.len() implies #[trigger] r1[j] < 10 by {
            assert(r1[j] == d1[i + 1 + j]);
        }
    }
    lemma_dval_bound(r1);
    let k = pow10(r1.len());
    let a = dval(r1);
    let b = dval(r2);
    assert(x as nat * k + a < y as nat * k + b) by (nonlinear_arith)
        requires a < k, x < y, b >= 0;
    let q = pow10((seq![x] + r1).len());
    assert(dval(p) * q + (x as nat * k + a) < dval(p) * q + (y as nat * k + b));
}

} // verus!

verus! {

pub open spec fn digit_vals(c: Seq<char>) -> Seq<u8> {
    Seq::new(c.len(), |i: int| (c[i] as u32 - '0' as u32) as u8)
}

pub open spec fn all_digit_chars(c: Seq<char>) -> bool {
    forall|i: int| 0 <= i < c.len() ==> is_digit(#[trigger] c[i])
}

proof fn lemma_digit_vals(c: Seq<char>)
    requires
        all_digit_chars(c),
    ensures
        dval(digit_vals(c)) == digits_value(c),
        all_digits(digit_vals(c)),
    decreases c.len(),
{
    if c.len() > 0 {
        lemma_digit_vals(c.drop_last());
        assert(digit_vals(c).drop_last() =~= digit_vals(c.drop_last()));
        assert(is_digit(c[c.len() - 1]));
    }
}

fn int_digits(n: u128) -> (d: Vec<u8>)
    ensures
        dval(d@) == n,
        all_digits(d@),
    decreases n,
{
    if n < 10 {
        let mut d: Vec<u8> = Vec::new();
        d.push(n as u8);
        assert(d@.drop_last() =~= Seq::<u8>::empty());
        assert(dval(Seq::<u8>::empty()) == 0);
        d
    } else {
        let mut d = int_digits(n / 10);
        let ghost before = d@;
        d.push((n % 10) as u8);
        assert(d@.drop_last() =~= before);
        d
    }
}

fn digits_end_of(t: &Vec<char>, i: usize) -> (r: usize)
    requires
        i <= t.len(),
    ensures
        r == digits_end(t@, i as int),
        i <= r <= t.len(),
{
    proof {
        lemma_digits_end(t@, i as int);
    }
    let mut k = i;
    while k < t.len() && crate::text::digit(t[k])
        invariant
            i <= k <= t.len(),
            digits_end(t@, i as int) == digits_end(t@, k as int),
        decreases t.len() - k,
    {
        k = k + 1;
    }
    k
}

fn peek_char(t: &Vec<char>, i: usize) -> (c: char)
    ensures
        c == crate::ron_subset::peek_at(t@, i as int),
{
    if i < t.len() {
        t[i]
    } else {
        '\0'
    }
}

/// Appends the digit values of `t[a..b]` to `d`.
fn push_digit_vals(d: &mut Vec<u8>, t: &Vec<char>, a: usize, b: usize)
    requires
        a <= b <= t.len(),
        all_digit_chars(t@.subrange(a as int, b as int)),
    ensures
        final(d)@ == old(d)@ + digit_vals(t@.subrange(a as int, b as int)),
{
    let mut k = a;
    while k < b
        invariant
            a <= k <= b <= t.len(),
            all_digit_chars(t@.subrange(a as int, b as int)),
            d@ == old(d)@ + digit_vals(t@.subrange(a as int, k as int)),
        decreases b - k,
    {
        assert(t@.subrange(a as int, b as int)[k - a] == t@[k as int]);
        d.push((t[k] as u32 - '0' as u32) as u8);
        k = k + 1;
        assert(d@ =~= old(d)@ + digit_vals(t@.subrange(a as int, k as int)));
    }
}

/// The parts `num_parts` describes: sign, mantissa digits and exponent.
#[verifier::rlimit(60)]
fn parts_of(n: &JsonNumber) -> (r: (bool, Vec<u8>, i128))
    ensures
        r.0 == num_parts(n.model()).0,
        dval(r.1@) == num_parts(n.model()).1,
        all_digits(r.1@),
        r.2 == num_parts(n.model()).2,
        -0x10_0000_0000_0000_0000_0000_0000 <= r.2 <= 0x10_0000_0000_0000_0000_0000_0000,
{
    match n {
        JsonNumber::PosInt(u) => (false, int_digits(*u as u128), 0),
        JsonNumber::NegInt(i) => {
            let m: i128 = if *i < 0 {
                0 - (*i as i128)
            } else {
                *i as i128
            };
            (*i < 0, int_digits(m as u128), 0)
        },
        JsonNumber::Float(text) => {
            let t = crate::text::chars_of(text.as_str());
            let ghost s = t@;
            let sign_end: usize = if peek_char(&t, 0) == '-' {
                1
            } else {
                0
            };
            let int_end = digits_end_of(&t, sign_end);
            let has_dot = peek_char(&t, int_end) == '.';
            let frac_end = if has_dot {
                digits_end_of(&t, int_end + 1)
            } else {
                int_end
            };
            let has_exp = peek_char(&t, frac_end) == 'e' || peek_char(&t, frac_end) == 'E';
            proof {
                lemma_digits_end(s, sign_end as int);
                if has_dot {
                    lemma_digits_end(s, int_end + 1);
                }
            }
            let mut digits: Vec<u8> = Vec::new();
            assert(all_digit_chars(s.subrange(sign_end as int, int_end as int)));
            push_digit_vals(&mut digits, &t, sign_end, int_end);
            if has_dot {
                assert(all_digit_chars(s.subrange(int_end + 1, frac_end as int)));
                push_digit_vals(&mut digits, &t, int_end + 1, frac_end);
            }
            proof {
                let ints = s.subrange(sign_end as int, int_end as int);
                let mc = mantissa_chars(s);
                if has_dot {
                    let fr = s.subrange(int_end + 1, frac_end as int);
                    assert(digit_vals(ints + fr) =~= digit_vals(ints) + digit_vals(fr));
                    assert(mc == ints + fr);
                } else {
                    assert(mc == ints);
                }
                assert(Seq::<u8>::empty() + digit_vals(mc) =~= digit_vals(mc));
                assert(all_digit_chars(mc));
                lemma_digit_vals(mc);
            }
            let frac_len: i128 = if has_dot {
                (frac_end - (int_end + 1)) as i128
            } else {
                0
            };
            let mut exponent: i128 = 0;
            if has_exp {
                let mut ds = frac_end + 1;
                if peek_char(&t, ds) == '+' || peek_char(&t, ds) == '-' {
                    ds = ds + 1;
                }
                let end = digits_end_of(&t, ds);
                proof {
                    lemma_digits_end(s, ds as int);
                }
                let mut acc: u128 = 0;
                let mut big = false;
                let mut k = ds;
                assert(s.subrange(ds as int, ds as int) =~= Seq::<char>::empty());
                while k < end
                    invariant
                        ds <= k <= end <= s.len(),
                        t@ == s,
                        forall|q: int| ds <= q < end ==> is_digit(#[trigger] s[q]),
                        !big ==> acc == digits_value(s.subrange(ds as int, k as int)) && acc
                            <= EXPONENT_CAP,
                        big ==> digits_value(s.subrange(ds as int, k as int)) > EXPONENT_CAP,
                    decreases end - k,
                {
                    let c = t[k];
                    proof {
                        assert(s.subrange(ds as int, k + 1) =~= s.subrange(ds as int, k as int).push(c));
                        crate::ron_subset::lemma_digits_value_push(s.subrange(ds as int, k as int), c);
                    }
                    if !big {
                        let next = acc * 10 + (c as u32 - '0' as u32) as u128;
                        if next > EXPONENT_CAP {
                            big = true;
                        } else {
                            acc = next;
                        }
                    }
                    k = k + 1;
                }
                let bounded: i128 = if big {
                    EXPONENT_CAP as i128
                } else {
                    acc as i128
                };
                exponent = if t[ds - 1] == '-' {
                    0 - bounded
                } else {
                    bounded
                };
            }
            (sign_end > 0, digits, exponent - frac_len)
        },
    }
}

} // verus!

verus! {

proof fn lemma_pow10_adds(a: nat, b: nat)
    ensures
        pow10(a + b) == pow10(a) * pow10(b),
        pow10(a) >= 1,
        pow10(b) >= 1,
{
    lemma_pow_adds(10, a, b);
    lemma_pow_positive(10, a);
    lemma_pow_positive(10, b);
}

proof fn lemma_pow10_mono(a: nat, b: nat)
    requires
        a <= b,
    ensures
        pow10(a) <= pow10(b),
{
    lemma_pow_increases(10, a, b);
    lemma_pow_positive(10, a);
}

/// Comparing normalized magnitudes by their leading power of ten.
proof fn lemma_mag_order(da: Seq<u8>, ea: int, db: Seq<u8>, eb: int)
    requires
        da.len() >= 1,
        db.len() >= 1,
        da[0] >= 1,
        db[0] >= 1,
        all_digits(da),
        all_digits(db),
        da.len() + ea < db.len() + eb,
    ensures
        ({
            let e = if ea <= eb { ea } else { eb };
            dval(da) * pow10((ea - e) as nat) < dval(db) * pow10((eb - e) as nat)
        }),
{
    let e = if ea <= eb { ea } else { eb };
    let xa = (ea - e) as nat;
    let xb = (eb - e) as nat;
    let la = da.len();
    let lb = db.len();
    lemma_dval_bound(da);
    lemma_dval_lower(db);
    lemma_pow10_adds(la, xa);
    lemma_pow10_adds((lb - 1) as nat, xb);
    lemma_pow10_mono(la + xa, (lb - 1) as nat + xb);
    let ma = dval(da);
    let mb = dval(db);
    let pa = pow10(la);
    let pb = pow10((lb - 1) as nat);
    let qa = pow10(xa);
    let qb = pow10(xb);
    assert(ma * qa < pa * qa) by (nonlinear_arith)
        requires ma < pa, qa >= 1;
    assert(pb * qb <= mb * qb) by (nonlinear_arith)
        requires pb <= mb, qb >= 1;
}

pub open spec fn zeros(n: nat) -> Seq<u8> {
    Seq::new(n, |i: int| 0u8)
}

proof fn lemma_dval_zeros(n: nat)
    ensures
        dval(zeros(n)) == 0,
{
    lemma_dval_zero_prefix(zeros(n), n as int);
    assert(zeros(n).skip(n as int) =~= Seq::<u8>::empty());
}

/// With equal leading powers of ten, both magnitudes are their digit strings,
/// padded with zeros to a common length, times one common power of ten.
proof fn lemma_mag_padded(da: Seq<u8>, ea: int, db: Seq<u8>, eb: int, n: nat)
    requires
        da.len() + ea == db.len() + eb,
        n == if da.len() >= db.len() { da.len() } else { db.len() },
    ensures
        ({
            let e = if ea <= eb { ea } else { eb };
            let big_e = (da.len() + ea - n - e) as nat;
            &&& da.len() + ea - n - e >= 0
            &&& dval(da) * pow10((ea - e) as nat) == dval(da + zeros((n - da.len()) as nat)) * pow10(big_e)
            &&& dval(db) * pow10((eb - e) as nat) == dval(db + zeros((n - db.len()) as nat)) * pow10(big_e)
        }),
{
    let e = if ea <= eb { ea } else { eb };
    let big_e = (da.len() + ea - n - e) as nat;
    let ka = (n - da.len()) as nat;
    let kb = (n - db.len()) as nat;
    lemma_dval_append(da, zeros(ka));
    lemma_dval_append(db, zeros(kb));
    lemma_dval_zeros(ka);
    lemma_dval_zeros(kb);
    assert(ka + big_e == (ea - e) as nat);
    assert(kb + big_e == (eb - e) as nat);
    lemma_pow10_adds(ka, big_e);
    lemma_pow10_adds(kb, big_e);
    let ma = dval(da);
    let mb = dval(db);
    assert(ma * (pow10(ka) * pow10(big_e)) == (ma * pow10(ka)) * pow10(big_e)) by (nonlinear_arith);
    assert(mb * (pow10(kb) * pow10(big_e)) == (mb * pow10(kb)) * pow10(big_e)) by (nonlinear_arith);
}

fn first_nonzero(d: &Vec<u8>) -> (z: usize)
    ensures
        z <= d.len(),
        forall|i: int| 0 <= i < z ==> d@[i] == 0,
        z < d.len() ==> d@[z as int] != 0,
{
    let mut z: usize = 0;
    while z < d.len() && d[z] == 0
        invariant
            z <= d.len(),
            forall|i: int| 0 <= i < z ==> d@[i] == 0,
        decreases d.len() - z,
    {
        z = z + 1;
    }
    z
}

/// Three-way comparison of `dval(da[za..]) * 10^ea` and `dval(db[zb..]) * 10^eb`,
/// for digit strings whose first kept digit is not zero.
fn magnitude_order(da: &Vec<u8>, za: usize, ea: i128, db: &Vec<u8>, zb: usize, eb: i128) -> (r: i8)
    requires
        za < da.len(),
        zb < db.len(),
        da@[za as int] != 0,
        db@[zb as int] != 0,
        all_digits(da@),
        all_digits(db@),
        -0x10_0000_0000_0000_0000_0000_0000 <= ea <= 0x10_0000_0000_0000_0000_0000_0000,
        -0x10_0000_0000_0000_0000_0000_0000 <= eb <= 0x10_0000_0000_0000_0000_0000_0000,
    ensures
        ({
            let e = if ea <= eb { ea as int } else { eb as int };
            let a = dval(da@.skip(za as int)) * pow10((ea - e) as nat);
            let b = dval(db@.skip(zb as int)) * pow10((eb - e) as nat);
            &&& r == -1 <==> a < b
            &&& r == 0 <==> a == b
            &&& r == 1 <==> a > b
        }),
{
    let ghost sa = da@.skip(za as int);
    let ghost sb = db@.skip(zb as int);
    assert(all_digits(sa)) by {
        assert forall|i: int| 0 <= i < sa.len() implies #[trigger] sa[i] < 10 by {
            assert(sa[i] == da@[za + i]);
        }
    }
    assert(all_digits(sb)) by {
        assert forall|i: int| 0 <= i < sb.len() implies #[trigger] sb[i] < 10 by {
            assert(sb[i] == db@[zb + i]);
        }
    }
    let la = (da.len() - za) as i128;
    let lb = (db.len() - zb) as i128;
    let pa = la + ea;
    let pb = lb + eb;
    if pa < pb {
        proof {
            lemma_mag_order(sa, ea as int, sb, eb as int);
        }
        return -1;
    }
    if pa > pb {
        proof {
            lemma_mag_order(sb, eb as int, sa, ea as int);
        }
        return 1;
    }
    let n: usize = if da.len() - za >= db.len() - zb {
        da.len() - za
    } else {
        db.len() - zb
    };
    let ghost pad_a = sa + zeros((n - sa.len()) as nat);
    let ghost pad_b = sb + zeros((n - sb.len()) as nat);
    proof {
        lemma_mag_padded(sa, ea as int, sb, eb as int, n as nat);
    }
    assert(all_digits(pad_a) && all_digits(pad_b)) by {
        assert forall|i: int| 0 <= i < pad_a.len() implies #[trigger] pad_a[i] < 10 by {
            if i < sa.len() {
                assert(pad_a[i] == sa[i]);
            }
        }
        assert forall|i: int| 0 <= i < pad_b.len() implies #[trigger] pad_b[i] < 10 by {
            if i < sb.len() {
                assert(pad_b[i] == sb[i]);
            }
        }
    }
    let ghost e = if ea <= eb { ea as int } else { eb as int };
    let ghost big_e = (sa.len() + ea - n - e) as nat;
    let ghost pw = pow10(big_e);
    proof {
        lemma_pow_positive(10, big_e);
    }
    let mut i: usize = 0;
    while i < n
        invariant
            i <= n,
            n == pad_a.len(),
            n == pad_b.len(),
            pad_a.take(i as int) == pad_b.take(i as int),
            la == sa.len(),
            lb == sb.len(),
            la == da.len() - za,
            lb == db.len() - zb,
            za < da.len(),
            zb < db.len(),
            all_digits(pad_a),
            all_digits(pad_b),
            pw >= 1,
            sa == da@.skip(za as int),
            sb == db@.skip(zb as int),
            e == if ea <= eb { ea as int } else { eb as int },
            dval(sa) * pow10((ea - e) as nat) == dval(pad_a) * pw,
            dval(sb) * pow10((eb - e) as nat) == dval(pad_b) * pw,
            forall|j: int| 0 <= j < sa.len() ==> sa[j] == da@[za + j],
            forall|j: int| 0 <= j < sb.len() ==> sb[j] == db@[zb + j],
            forall|j: int| 0 <= j < n ==> #[trigger] pad_a[j] == if j < sa.len() { sa[j] } else { 0u8 },
            forall|j: int| 0 <= j < n ==> #[trigger] pad_b[j] == if j < sb.len() { sb[j] } else { 0u8 },
        decreases n - i,
    {
        let x: u8 = if (i as i128) < la {
            da[za + i]
        } else {
            0
        };
        let y: u8 = if (i as i128) < lb {
            db[zb + i]
        } else {
            0
        };
        assert(x == pad_a[i as int]);
        assert(y == pad_b[i as int]);
        if x < y {
            proof {
                lemma_dval_lex(pad_a, pad_b, i as int);
                let u = dval(pad_a);
                let v = dval(pad_b);
                assert(u * pw < v * pw) by (nonlinear_arith)
                    requires u < v, pw >= 1;
            }
            return -1;
        }
        if x > y {
            proof {
                lemma_dval_lex(pad_b, pad_a, i as int);
                let u = dval(pad_a);
                let v = dval(pad_b);
                assert(u * pw > v * pw) by (nonlinear_arith)
                    requires u > v, pw >= 1;
            }
            return 1;
        }
        assert(pad_a.take(i + 1) =~= pad_a.take(i as int).push(x));
        assert(pad_b.take(i + 1) =~= pad_b.take(i as int).push(y));
        i = i + 1;
    }
    assert(pad_a =~= pad_a.take(n as int));
    assert(pad_b =~= pad_b.take(n as int));
    0
}

} // verus!

verus! {

/// Three-way comparison of the values of two numbers: -1, 0 or 1.
pub fn compare_numbers(a: &JsonNumber, b: &JsonNumber) -> (r: i8)
    ensures
        r == num_order(a.model(), b.model()),
{
    let (na, da, ea) = parts_of(a);
    let (nb, db, eb) = parts_of(b);
    let za = first_nonzero(&da);
    let zb = first_nonzero(&db);
    let ghost base = common_base(a.model(), b.model());
    let ghost qa = pow10((ea - base) as nat);
    let ghost qb = pow10((eb - base) as nat);
    proof {
        lemma_dval_zero_prefix(da@, za as int);
        lemma_dval_zero_prefix(db@, zb as int);
        lemma_pow_positive(10, (ea - base) as nat);
        lemma_pow_positive(10, (eb - base) as nat);
        if za == da.len() {
            assert(da@.skip(za as int) =~= Seq::<u8>::empty());
        } else {
            lemma_dval_lower(da@.skip(za as int));
            lemma_pow_positive(10, (da.len() - za - 1) as nat);
        }
        if zb == db.len() {
            assert(db@.skip(zb as int) =~= Seq::<u8>::empty());
        } else {
            lemma_dval_lower(db@.skip(zb as int));
            lemma_pow_positive(10, (db.len() - zb - 1) as nat);
        }
        let ma = dval(da@);
        let mb = dval(db@);
        assert(ma == 0 ==> ma * qa == 0) by (nonlinear_arith);
        assert(mb == 0 ==> mb * qb == 0) by (nonlinear_arith);
        assert(ma >= 1 ==> ma * qa >= 1) by (nonlinear_arith)
            requires qa >= 1;
        assert(mb >= 1 ==> mb * qb >= 1) by (nonlinear_arith)
            requires qb >= 1;
    }
    let a_zero = za == da.len();
    let b_zero = zb == db.len();
    if a_zero && b_zero {
        return 0;
    }
    if a_zero {
        return if nb {
            1
        } else {
            -1
        };
    }
    if b_zero {
        return if na {
            -1
        } else {
            1
        };
    }
    if na != nb {
        return if na {
            -1
        } else {
            1
        };
    }
    let m = magnitude_order(&da, za, ea, &db, zb, eb);
    if na {
        0 - m
    } else {
        m
    }
}

} // verus!
