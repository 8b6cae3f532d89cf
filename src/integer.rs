//! The exact value of a number token, and whether it is a whole number that
//! fits 128 bits.
use vstd::prelude::*;
use vstd::arithmetic::div_mod::{
    lemma_div_multiples_vanish, lemma_fundamental_div_mod, lemma_mod_multiples_vanish,
    lemma_small_mod,
};
use vstd::arithmetic::mul::{lemma_mul_is_associative, lemma_mul_is_commutative};
use crate::grammar::{is_digit, NumberShape};
use crate::number::Number;

verus! {

broadcast use vstd::seq::group_seq_axioms;

/// The value of a run of decimal digits.
pub open spec fn digits_value(s: Seq<u8>) -> nat
    decreases s.len(),
{
    if s.len() == 0 {
        0
    } else {
        digits_value(s.drop_last()) * 10 + (s.last() as int - 0x30) as nat
    }
}

pub open spec fn pow10(k: nat) -> nat
    decreases k,
{
    if k == 0 {
        1
    } else {
        10 * pow10((k - 1) as nat)
    }
}

pub open spec fn all_digits(s: Seq<u8>) -> bool {
    forall|i: int| 0 <= i < s.len() ==> is_digit(#[trigger] s[i])
}

/// `m × 10^k` is a whole number.
pub open spec fn is_whole(m: nat, k: int) -> bool {
    k >= 0 || m % pow10((-k) as nat) == 0
}

/// The magnitude `m × 10^k`, where it is whole.
pub open spec fn whole_magnitude(m: nat, k: int) -> nat {
    if k >= 0 {
        m * pow10(k as nat)
    } else {
        m / pow10((-k) as nat)
    }
}

/// The digits of a number's integer part and fraction, in order: the number
/// is their value times ten to `shape_scale`.
pub open spec fn shape_digits(b: Seq<u8>, shape: NumberShape) -> Seq<u8> {
    b.subrange(shape.base.0, shape.base.1) + match shape.fraction {
        Some(f) => b.subrange(f.0, f.1),
        None => Seq::empty(),
    }
}

/// The power of ten that the digits are scaled by: the exponent, less the
/// number of fraction digits.
pub open spec fn shape_scale(b: Seq<u8>, shape: NumberShape) -> int {
    let exponent: int = match shape.exponent {
        Some(x) => if shape.exponent_negative {
            -digits_value(b.subrange(x.0, x.1))
        } else {
            digits_value(b.subrange(x.0, x.1)) as int
        },
        None => 0,
    };
    let fraction_len: int = match shape.fraction {
        Some(f) => f.1 - f.0,
        None => 0,
    };
    exponent - fraction_len
}

/// The number is a whole number.
pub open spec fn shape_is_whole(b: Seq<u8>, shape: NumberShape) -> bool {
    is_whole(digits_value(shape_digits(b, shape)), shape_scale(b, shape))
}

/// The whole number that the number is, where it is one.
pub open spec fn shape_integer(b: Seq<u8>, shape: NumberShape) -> int {
    let m = whole_magnitude(digits_value(shape_digits(b, shape)), shape_scale(b, shape));
    if shape.negative {
        -m
    } else {
        m as int
    }
}

pub proof fn lemma_pow10_positive(k: nat)
    ensures
        pow10(k) > 0,
    decreases k,
{
    if k > 0 {
        lemma_pow10_positive((k - 1) as nat);
    }
}

pub proof fn lemma_pow10_add(a: nat, c: nat)
    ensures
        pow10(a + c) == pow10(a) * pow10(c),
    decreases a,
{
    if a > 0 {
        let a1 = (a - 1) as nat;
        lemma_pow10_add(a1, c);
        assert((a + c - 1) as nat == a1 + c);
        assert(pow10(a + c) == 10 * pow10(a1 + c));
        assert(pow10(a) == 10 * pow10(a1));
        assert(10 * (pow10(a1) * pow10(c)) == (10 * pow10(a1)) * pow10(c)) by (nonlinear_arith);
    } else {
        assert(pow10(0) == 1);
        assert(a + c == c);
    }
}

pub proof fn lemma_pow10_monotone(a: nat, c: nat)
    requires
        a <= c,
    ensures
        pow10(a) <= pow10(c),
{
    lemma_pow10_add(a, (c - a) as nat);
    lemma_pow10_positive((c - a) as nat);
    lemma_pow10_positive(a);
    assert(pow10(a) * pow10((c - a) as nat) >= pow10(a)) by (nonlinear_arith)
        requires
            pow10((c - a) as nat) >= 1,
    ;
}

/// Ten to the 39th exceeds every `u128`.
pub proof fn lemma_pow10_39()
    ensures
        pow10(39) > u128::MAX,
{
    reveal_with_fuel(pow10, 40);
    assert(pow10(39) == 1000000000000000000000000000000000000000nat);
}

/// The value of two runs of digits written one after the other.
pub proof fn lemma_digits_concat(a: Seq<u8>, c: Seq<u8>)
    ensures
        digits_value(a + c) == digits_value(a) * pow10(c.len()) + digits_value(c),
    decreases c.len(),
{
    if c.len() == 0 {
        assert(a + c =~= a);
        assert(pow10(0) == 1);
        assert(digits_value(c) == 0);
    } else {
        let c0 = c.drop_last();
        assert((a + c).drop_last() =~= a + c0);
        assert((a + c).last() == c.last());
        lemma_digits_concat(a, c0);
        let x = digits_value(a) as int;
        let p = pow10(c0.len()) as int;
        let y = digits_value(c0) as int;
        let l = (c.last() as int - 0x30) as nat as int;
        assert(pow10(c.len()) == 10 * pow10(c0.len()));
        assert((x * p + y) * 10 + l == x * (10 * p) + (y * 10 + l)) by (nonlinear_arith);
    }
}

/// Zeros are worth nothing.
pub proof fn lemma_digits_zeros(z: Seq<u8>)
    requires
        forall|i: int| 0 <= i < z.len() ==> z[i] == 0x30,
    ensures
        digits_value(z) == 0,
    decreases z.len(),
{
    if z.len() > 0 {
        lemma_digits_zeros(z.drop_last());
    }
}

/// The last digit is the value modulo ten.
pub proof fn lemma_digits_last(s: Seq<u8>)
    requires
        s.len() > 0,
        is_digit(s.last()),
    ensures
        digits_value(s) % 10 == (s.last() as int - 0x30),
{
    let x = digits_value(s.drop_last()) as int;
    let l = s.last() as int - 0x30;
    lemma_mod_multiples_vanish(x, l, 10);
    lemma_small_mod(l as nat, 10);
    assert(digits_value(s) == x * 10 + l);
    lemma_mul_is_commutative(x, 10);
}

/// A prefix is worth no more than the whole.
pub proof fn lemma_digits_prefix(s: Seq<u8>, i: int)
    requires
        0 <= i <= s.len(),
    ensures
        digits_value(s.subrange(0, i)) <= digits_value(s),
{
    let a = s.subrange(0, i);
    let c = s.subrange(i, s.len() as int);
    assert(a + c =~= s);
    lemma_digits_concat(a, c);
    lemma_pow10_positive(c.len());
    assert(digits_value(a) * pow10(c.len()) >= digits_value(a)) by (nonlinear_arith)
        requires
            pow10(c.len()) >= 1,
    ;
}

/// A positive multiple of ten to the `z`, with no factor ten left over, is
/// divisible by ten to the `j` exactly when `j <= z`.
pub proof fn lemma_divisible(s: nat, z: nat, j: nat)
    requires
        s % 10 != 0,
    ensures
        j <= z ==> (s as int * pow10(z)) % (pow10(j) as int) == 0,
        j > z ==> (s as int * pow10(z)) % (pow10(j) as int) != 0,
    decreases j,
{
    lemma_pow10_positive(z);
    lemma_pow10_positive(j);
    if j <= z {
        lemma_pow10_add(j, (z - j) as nat);
        lemma_mul_is_associative(s as int, pow10((z - j) as nat) as int, pow10(j) as int);
        lemma_mul_is_commutative(pow10(j) as int, pow10((z - j) as nat) as int);
        lemma_mod_multiples_vanish((s * pow10((z - j) as nat)) as int, 0, pow10(j) as int);
        lemma_small_mod(0, pow10(j));
        assert(j + (z - j) as nat == z);
        assert(pow10(z) == pow10(j) * pow10((z - j) as nat));
        assert(s as int * pow10(z) == pow10(j) * (s * pow10((z - j) as nat)) + 0) by (nonlinear_arith)
            requires
                pow10(z) == pow10(j) * pow10((z - j) as nat),
        ;
        assert((s as int * pow10(z)) % (pow10(j) as int) == 0);
    } else if z == 0 {
        // s % 10 != 0, so s is not a multiple of 10 * 10^(j-1)
        assert(pow10(z) == 1);
        assert(s * pow10(z) == s);
        assert(pow10(j) == 10 * pow10((j - 1) as nat));
        let p = pow10((j - 1) as nat) as int;
        lemma_pow10_positive((j - 1) as nat);
        if s % pow10(j) == 0 {
            lemma_fundamental_div_mod(s as int, pow10(j) as int);
            let q = s as int / pow10(j) as int;
            assert(s == pow10(j) * q);
            assert(s == 10 * (p * q)) by (nonlinear_arith)
                requires
                    s == pow10(j) * q,
                    pow10(j) == 10 * p,
            ;
            lemma_mod_multiples_vanish(p * q, 0, 10);
            lemma_mul_is_commutative(10, p * q);
            lemma_small_mod(0, 10);
            assert(s % 10 == 0);
        }
        assert((s as int * pow10(z)) % (pow10(j) as int) != 0);
    } else {
        // strip one factor ten from both sides
        let s2 = s * pow10((z - 1) as nat);
        assert(s * pow10(z) == 10 * s2) by (nonlinear_arith)
            requires
                pow10(z) == 10 * pow10((z - 1) as nat),
                s2 == s * pow10((z - 1) as nat),
        ;
        lemma_divisible(s, (z - 1) as nat, (j - 1) as nat);
        assert(pow10(j) == 10 * pow10((j - 1) as nat));
        lemma_pow10_positive((j - 1) as nat);
        let p = pow10((j - 1) as nat) as int;
        // 10*s2 % (10*p) == 10 * (s2 % p)
        lemma_fundamental_div_mod(s2 as int, p);
        let q = s2 as int / p;
        let r = s2 as int % p;
        assert(10 * s2 == (10 * p) * q + 10 * r) by (nonlinear_arith)
            requires
                s2 == p * q + r,
        ;
        assert(0 <= 10 * r < 10 * p);
        lemma_mod_multiples_vanish(q, 10 * r, 10 * p);
        lemma_mul_is_commutative(10 * p, q);
        lemma_small_mod((10 * r) as nat, (10 * p) as nat);
        assert((10 * s2 as int) % (10 * p) == 10 * r);
        assert(r != 0);
        assert(pow10(j) == 10 * p);
        assert((s as int * pow10(z)) % (pow10(j) as int) != 0);
    }
}

/// What a number token is worth as an integer.
#[derive(Clone, Copy, Debug, PartialEq, Eq)]
pub enum IntegerValue {
    /// It is not a whole number.
    Fractional,
    /// A whole number of this sign and magnitude.
    Whole { negative: bool, magnitude: u128 },
    /// A whole number of this sign whose magnitude exceeds every `u128`.
    Huge { negative: bool },
}

/// The digits of a token's integer part and fraction, in order.
pub open spec fn number_digits(n: Number) -> Seq<u8> {
    n.text().subrange(n.base.start as int, n.base.end as int) + match n.fraction {
        Some(f) => n.text().subrange(f.start as int, f.end as int),
        None => Seq::empty(),
    }
}

/// The power of ten that a token's digits are scaled by.
pub open spec fn number_scale(n: Number) -> int {
    let exponent: int = match n.exponent {
        Some(x) => {
            let v = digits_value(n.text().subrange(x.start as int, x.end as int));
            if n.exponent_positive {
                v as int
            } else {
                -v
            }
        },
        None => 0,
    };
    let fraction_len: int = match n.fraction {
        Some(f) => f.end - f.start,
        None => 0,
    };
    exponent - fraction_len
}

/// A token and the shape it describes agree on digits, scale and sign.
pub proof fn lemma_describes_value(n: Number, b: Seq<u8>, shape: NumberShape)
    requires
        n.describes(b, shape),
        n.wf(),
        0 <= shape.start <= shape.end <= b.len(),
    ensures
        number_digits(n) == shape_digits(b, shape),
        number_scale(n) == shape_scale(b, shape),
{
    let t = n.text();
    let s0 = shape.start;
    assert(t.subrange(n.base.start as int, n.base.end as int) =~= b.subrange(shape.base.0, shape.base.1));
    if n.fraction is Some {
        let f = n.fraction->0;
        let g = shape.fraction->0;
        assert(t.subrange(f.start as int, f.end as int) =~= b.subrange(g.0, g.1));
    }
    if n.exponent is Some {
        let x = n.exponent->0;
        let g = shape.exponent->0;
        assert(t.subrange(x.start as int, x.end as int) =~= b.subrange(g.0, g.1));
    }
}

/// `S × 10^z`, scaled by `10^(k - z)`, is `S × 10^k` when `k` is not
/// negative.
proof fn lemma_whole_magnitude(s: nat, z: nat, k: int)
    requires
        k >= 0,
    ensures
        is_whole(s * pow10(z), k - z),
        whole_magnitude(s * pow10(z), k - z) == s * pow10(k as nat),
{
    let m = s * pow10(z);
    lemma_pow10_positive(z);
    if k - z >= 0 {
        let c = (k - z) as nat;
        lemma_pow10_add(z, c);
        assert(z + c == k as nat);
        assert(m * pow10(c) == s * (pow10(z) * pow10(c))) by (nonlinear_arith)
            requires
                m == s * pow10(z),
        ;
    } else {
        let j = (z - k) as nat;
        lemma_pow10_add(k as nat, j);
        assert(k as nat + j == z);
        lemma_pow10_positive(j);
        assert(m == (s * pow10(k as nat)) * pow10(j)) by (nonlinear_arith)
            requires
                m == s * pow10(z),
                pow10(z) == pow10(k as nat) * pow10(j),
        ;
        lemma_div_multiples_vanish((s * pow10(k as nat)) as int, pow10(j) as int);
        lemma_mul_is_commutative((s * pow10(k as nat)) as int, pow10(j) as int);
        lemma_mod_multiples_vanish((s * pow10(k as nat)) as int, 0, pow10(j) as int);
        lemma_small_mod(0, pow10(j));
    }
}

/// The value of a token's exponent digits, 0 without them.
spec fn exponent_value(n: Number) -> nat {
    match n.exponent {
        Some(x) => digits_value(n.text().subrange(x.start as int, x.end as int)),
        None => 0,
    }
}

/// The cap on exponents: any larger one gives the same answer.
const EXPONENT_CAP: u128 = 36893488147419103232;

/// The digits of the integer part and the fraction, in order.
fn mantissa_bytes(n: &Number) -> (r: Vec<u8>)
    requires
        n.wf(),
    ensures
        r@ == number_digits(*n),
        all_digits(r@),
{
    let mut r: Vec<u8> = Vec::new();
    let base = n.base().as_bytes();
    let mut i: usize = 0;
    while i < base.len()
        invariant
            r@ == base@.subrange(0, i as int),
            0 <= i <= base@.len(),
        decreases base@.len() - i,
    {
        r.push(base[i]);
        proof {
            assert(r@ =~= base@.subrange(0, i + 1));
        }
        i = i + 1;
    }
    proof {
        assert(base@.subrange(0, i as int) =~= base@);
    }
    let ghost head = r@;
    match n.fraction() {
        Some(f) => {
            let fb = f.as_bytes();
            let mut j: usize = 0;
            while j < fb.len()
                invariant
                    r@ == head + fb@.subrange(0, j as int),
                    0 <= j <= fb@.len(),
                decreases fb@.len() - j,
            {
                r.push(fb[j]);
                proof {
                    assert(r@ =~= head + fb@.subrange(0, j + 1));
                }
                j = j + 1;
            }
            proof {
                assert(fb@.subrange(0, j as int) =~= fb@);
            }
        },
        None => {
            proof {
                assert(r@ =~= head + Seq::<u8>::empty());
            }
        },
    }
    proof {
        assert(r@ =~= number_digits(*n));
        let t = n.text();
        assert forall|i: int| 0 <= i < r@.len() implies is_digit(#[trigger] r@[i]) by {
            if i < head.len() {
                assert(r@[i] == t[n.base.start + i]);
            } else {
                let f = n.fraction->0;
                assert(r@[i] == t[f.start + (i - head.len())]);
            }
        }
    }
    r
}

/// The value of a run of digits, but no more than the cap.
fn saturated_value(x: &[u8]) -> (r: u128)
    requires
        all_digits(x@),
    ensures
        r == if digits_value(x@) < EXPONENT_CAP {
            digits_value(x@)
        } else {
            EXPONENT_CAP as nat
        },
{
    let mut v: u128 = 0;
    let mut i: usize = 0;
    while i < x.len()
        invariant
            0 <= i <= x@.len(),
            all_digits(x@),
            v == if digits_value(x@.subrange(0, i as int)) < EXPONENT_CAP {
                digits_value(x@.subrange(0, i as int))
            } else {
                EXPONENT_CAP as nat
            },
        decreases x@.len() - i,
    {
        let d = (x[i] - 0x30) as u128;
        proof {
            let p = x@.subrange(0, i + 1);
            assert(p.drop_last() =~= x@.subrange(0, i as int));
            assert(is_digit(x@[i as int]));
        }
        if v < EXPONENT_CAP {
            let w = v * 10 + d;
            v = if w < EXPONENT_CAP {
                w
            } else {
                EXPONENT_CAP
            };
        }
        i = i + 1;
    }
    proof {
        assert(x@.subrange(0, i as int) =~= x@);
    }
    v
}

/// The number of zeros at the end of `d`.
fn trailing_zeros(d: &Vec<u8>) -> (z: usize)
    ensures
        z <= d@.len(),
        forall|i: int| d@.len() - z <= i < d@.len() ==> d@[i] == 0x30,
        z < d@.len() ==> d@[d@.len() - z - 1] != 0x30,
{
    let mut z: usize = 0;
    while z < d.len() && d[d.len() - z - 1] == 0x30
        invariant
            z <= d@.len(),
            forall|i: int| d@.len() - z <= i < d@.len() ==> d@[i] == 0x30,
        decreases d@.len() - z,
    {
        z = z + 1;
    }
    z
}

/// The value of the first `l` digits, if it fits a `u128`.
fn checked_value(d: &Vec<u8>, l: usize) -> (r: Option<u128>)
    requires
        l <= d@.len(),
        all_digits(d@),
    ensures
        match r {
            Some(v) => v == digits_value(d@.subrange(0, l as int)),
            None => digits_value(d@.subrange(0, l as int)) > u128::MAX,
        },
{
    let mut v: u128 = 0;
    let mut i: usize = 0;
    while i < l
        invariant
            0 <= i <= l <= d@.len(),
            all_digits(d@),
            v == digits_value(d@.subrange(0, i as int)),
        decreases l - i,
    {
        let digit = (d[i] - 0x30) as u128;
        proof {
            let p = d@.subrange(0, i + 1);
            assert(p.drop_last() =~= d@.subrange(0, i as int));
            assert(is_digit(d@[i as int]));
            lemma_digits_prefix(d@.subrange(0, l as int), i + 1);
            assert(d@.subrange(0, l as int).subrange(0, i + 1) =~= p);
        }
        match v.checked_mul(10) {
            None => return None,
            Some(t) => match t.checked_add(digit) {
                None => return None,
                Some(w) => v = w,
            },
        }
        i = i + 1;
    }
    Some(v)
}

/// `s × 10^k`, if it fits a `u128`.
fn scale_up(s: u128, k: i128) -> (r: Option<u128>)
    requires
        k >= 0,
    ensures
        match r {
            Some(v) => v == s * pow10(k as nat),
            None => s * pow10(k as nat) > u128::MAX,
        },
{
    let mut magnitude: u128 = s;
    let mut j: i128 = 0;
    assert(pow10(0) == 1);
    assert(s * pow10(0) == s);
    while j < k
        invariant
            0 <= j <= k,
            magnitude == s * pow10(j as nat),
        decreases k - j,
    {
        assert(pow10((j + 1) as nat) == 10 * pow10(j as nat));
        match magnitude.checked_mul(10) {
            None => {
                proof {
                    assert(s * pow10((j + 1) as nat) == magnitude * 10) by (nonlinear_arith)
                        requires
                            magnitude == s * pow10(j as nat),
                            pow10((j + 1) as nat) == 10 * pow10(j as nat),
                    ;
                    lemma_pow10_monotone((j + 1) as nat, k as nat);
                    assert(s * pow10(k as nat) >= s * pow10((j + 1) as nat)) by (nonlinear_arith)
                        requires
                            pow10(k as nat) >= pow10((j + 1) as nat),
                    ;
                }
                return None;
            },
            Some(t) => {
                proof {
                    assert(t == s * pow10((j + 1) as nat)) by (nonlinear_arith)
                        requires
                            t == magnitude * 10,
                            magnitude == s * pow10(j as nat),
                            pow10((j + 1) as nat) == 10 * pow10(j as nat),
                    ;
                }
                magnitude = t;
            },
        }
        j = j + 1;
    }
    Some(magnitude)
}

/// What a well-formed number token is worth as an integer: not a whole
/// number, a whole number that fits 128 bits (with its sign), or a whole
/// number too large for them.
#[verifier::loop_isolation(false)]
#[verifier::rlimit(30)]
pub fn integer_of(n: &Number) -> (r: IntegerValue)
    requires
        n.wf(),
    ensures
        ({
            let m = digits_value(number_digits(*n));
            let k = number_scale(*n);
            match r {
                IntegerValue::Fractional => !is_whole(m, k),
                IntegerValue::Whole { negative, magnitude } => {
                    &&& is_whole(m, k)
                    &&& magnitude == whole_magnitude(m, k)
                    &&& negative == !n.base_positive
                },
                IntegerValue::Huge { negative } => {
                    &&& is_whole(m, k)
                    &&& whole_magnitude(m, k) > u128::MAX
                    &&& negative == !n.base_positive
                },
            }
        }),
{
    let negative = !n.base_positive;
    let digits = mantissa_bytes(n);
    let len = digits.len();
    let z = trailing_zeros(&digits);
    let l = len - z;
    let ghost sd = digits@.subrange(0, l as int);
    let ghost zd = digits@.subrange(l as int, len as int);
    let ghost sv = digits_value(sd);
    proof {
        assert(sd + zd =~= digits@);
        lemma_digits_concat(sd, zd);
        lemma_digits_zeros(zd);
        assert(digits_value(digits@) == sv * pow10(z as nat));
    }
    let ghost m = digits_value(number_digits(*n));
    let ghost scale = number_scale(*n);
    if l == 0 {
        proof {
            assert(sv == 0);
            lemma_pow10_positive(z as nat);
            assert(m == 0);
            if scale < 0 {
                lemma_pow10_positive((-scale) as nat);
                lemma_small_mod(0, pow10((-scale) as nat));
                vstd::arithmetic::div_mod::lemma_div_of0(pow10((-scale) as nat) as int);
            }
        }
        return IntegerValue::Whole { negative, magnitude: 0 };
    }
    proof {
        lemma_digits_last(sd);
        assert(sd.last() == digits@[len - z - 1]);
    }
    let frac_len: usize = match &n.fraction {
        Some(f) => f.end - f.start,
        None => 0,
    };
    let (e, exp_neg) = match n.exponent() {
        Some(x) => (saturated_value(x.as_bytes()), !n.exponent_positive),
        None => (0u128, false),
    };
    let ghost big_v: nat = exponent_value(*n);
    let signed_e: i128 = if exp_neg {
        0i128 - e as i128
    } else {
        e as i128
    };
    let k: i128 = signed_e + z as i128 - frac_len as i128;
    let ghost k_true: int = scale + z;
    proof {
        if n.exponent is Some {
            let x = n.exponent->0;
            assert(all_digits(n.text().subrange(x.start as int, x.end as int)));
        }
        assert(exp_neg ==> n.exponent is Some);
        if big_v < EXPONENT_CAP {
            assert(k == k_true);
        } else {
            assert(n.exponent is Some);
            if exp_neg {
                assert(k_true <= k);
            } else {
                assert(k_true >= k);
                assert(k >= 64);
            }
        }
    }
    if k < 0 {
        proof {
            assert(k_true < 0);
            assert(scale < -(z as int));
            lemma_divisible(sv, z as nat, (-scale) as nat);
        }
        return IntegerValue::Fractional;
    }
    proof {
        assert(k_true >= 0);
        lemma_whole_magnitude(sv, z as nat, k_true);
        assert(k_true - z == scale);
    }
    let s = match checked_value(&digits, l) {
        Some(s) => s,
        None => {
            proof {
                lemma_pow10_positive(k_true as nat);
                assert(sv * pow10(k_true as nat) >= sv) by (nonlinear_arith)
                    requires
                        pow10(k_true as nat) >= 1,
                ;
            }
            return IntegerValue::Huge { negative };
        },
    };
    match scale_up(s, k) {
        None => {
            proof {
                assert(k <= k_true);
                lemma_pow10_monotone(k as nat, k_true as nat);
                assert(sv * pow10(k_true as nat) >= sv * pow10(k as nat)) by (nonlinear_arith)
                    requires
                        pow10(k_true as nat) >= pow10(k as nat),
                ;
            }
            IntegerValue::Huge { negative }
        },
        Some(magnitude) => {
            proof {
                if k >= 64 {
                    lemma_pow10_monotone(39, k as nat);
                    lemma_pow10_39();
                    assert(sv * pow10(k as nat) >= pow10(k as nat)) by (nonlinear_arith)
                        requires
                            sv > 0,
                    ;
                }
                assert(k == k_true);
            }
            IntegerValue::Whole { negative, magnitude }
        },
    }
}

} // verus!
