//! Exact non-negative rational weights for directional candidates.
//!
//! A weight's value is `num / (den * 2^halves)`. Keeping the halvings in an
//! exponent of their own lets the rival-proximity filter halve a weight once
//! per nearby rival without ever overflowing the denominator, however many
//! rivals the board holds.

use vstd::prelude::*;
use vstd::arithmetic::power2::{
    pow2, lemma_pow2_adds, lemma_pow2_pos, lemma_pow2_strictly_increases, lemma2_to64,
};
use vstd::arithmetic::div_mod::lemma_fundamental_div_mod;

verus! {

/// A non-negative rational number `num / (den * 2^halves)`.
#[derive(Clone, Copy, PartialEq, Eq, Structural, Debug)]
pub struct Weight {
    pub num: u64,
    pub den: u64,
    pub halves: u64,
}

impl Weight {
    /// A weight is well formed when its denominator is positive.
    pub open spec fn wf(self) -> bool {
        self.den >= 1
    }

    pub open spec fn one_spec() -> Weight {
        Weight { num: 1, den: 1, halves: 0 }
    }

    pub open spec fn zero_spec() -> Weight {
        Weight { num: 0, den: 1, halves: 0 }
    }

    pub fn one() -> (r: Weight)
        ensures
            r == Weight::one_spec(),
    {
        Weight { num: 1, den: 1, halves: 0 }
    }

    pub fn zero() -> (r: Weight)
        ensures
            r == Weight::zero_spec(),
    {
        Weight { num: 0, den: 1, halves: 0 }
    }
}

/// `a <= b` as rationals, by cross-multiplication: the denominators are
/// positive, so `a.num / (a.den * 2^a.halves) <= b.num / (b.den * 2^b.halves)`
/// exactly when the cross products compare the same way.
pub open spec fn w_le(a: Weight, b: Weight) -> bool {
    (a.num as int) * (b.den as int) * (pow2(b.halves as nat) as int) <= (b.num as int) * (
    a.den as int) * (pow2(a.halves as nat) as int)
}

/// Equality of weights as rationals.
pub open spec fn w_eq(a: Weight, b: Weight) -> bool {
    (a.num as int) * (b.den as int) * (pow2(b.halves as nat) as int) == (b.num as int) * (
    a.den as int) * (pow2(a.halves as nat) as int)
}

pub proof fn lemma_w_le_total(a: Weight, b: Weight)
    ensures
        w_le(a, b) || w_le(b, a),
{
}

/// Transitivity of `<=` on fractions with positive denominators, stated over
/// cross products.
proof fn lemma_frac_le_trans(a1: int, a2: int, b1: int, b2: int, c1: int, c2: int)
    requires
        a2 > 0,
        b2 > 0,
        c2 > 0,
        a1 * b2 <= b1 * a2,
        b1 * c2 <= c1 * b2,
    ensures
        a1 * c2 <= c1 * a2,
{
    assert((a1 * b2) * c2 <= (b1 * a2) * c2) by (nonlinear_arith)
        requires
            c2 > 0,
            a1 * b2 <= b1 * a2,
    ;
    assert((b1 * c2) * a2 <= (c1 * b2) * a2) by (nonlinear_arith)
        requires
            a2 > 0,
            b1 * c2 <= c1 * b2,
    ;
    assert((b1 * a2) * c2 == (b1 * c2) * a2) by (nonlinear_arith);
    assert((a1 * c2) * b2 <= (c1 * a2) * b2) by (nonlinear_arith)
        requires
            (a1 * b2) * c2 <= (c1 * b2) * a2,
    ;
    assert(a1 * c2 <= c1 * a2) by (nonlinear_arith)
        requires
            b2 > 0,
            (a1 * c2) * b2 <= (c1 * a2) * b2,
    ;
}

pub proof fn lemma_w_le_trans(a: Weight, b: Weight, c: Weight)
    requires
        a.wf(),
        b.wf(),
        c.wf(),
        w_le(a, b),
        w_le(b, c),
    ensures
        w_le(a, c),
{
    lemma_pow2_pos(a.halves as nat);
    lemma_pow2_pos(b.halves as nat);
    lemma_pow2_pos(c.halves as nat);
    let a1 = a.num as int;
    let ad = a.den as int;
    let ap = pow2(a.halves as nat) as int;
    let b1 = b.num as int;
    let bd = b.den as int;
    let bp = pow2(b.halves as nat) as int;
    let c1 = c.num as int;
    let cd = c.den as int;
    let cp = pow2(c.halves as nat) as int;
    assert(ad * ap > 0) by (nonlinear_arith)
        requires
            ad >= 1,
            ap >= 1,
    ;
    assert(bd * bp > 0) by (nonlinear_arith)
        requires
            bd >= 1,
            bp >= 1,
    ;
    assert(cd * cp > 0) by (nonlinear_arith)
        requires
            cd >= 1,
            cp >= 1,
    ;
    assert(a1 * (bd * bp) <= b1 * (ad * ap)) by (nonlinear_arith)
        requires
            a1 * bd * bp <= b1 * ad * ap,
    ;
    assert(b1 * (cd * cp) <= c1 * (bd * bp)) by (nonlinear_arith)
        requires
            b1 * cd * cp <= c1 * bd * bp,
    ;
    lemma_frac_le_trans(a1, ad * ap, b1, bd * bp, c1, cd * cp);
    assert(a1 * cd * cp <= c1 * ad * ap) by (nonlinear_arith)
        requires
            a1 * (cd * cp) <= c1 * (ad * ap),
    ;
}

/// 2^128 written out, for capacity arguments about `u128` cross products.
proof fn lemma_pow2_128()
    ensures
        pow2(128) == 0x1_0000_0000_0000_0000_0000_0000_0000_0000,
{
    lemma2_to64();
    lemma_pow2_adds(64, 64);
    assert(pow2(128) == pow2(64) * pow2(64));
}

/// 2^d as a `u128`, for exponents below 128.
fn pow2_exec(d: u64) -> (r: u128)
    requires
        d <= 127,
    ensures
        r == pow2(d as nat),
{
    let mut acc: u128 = 1;
    let mut i: u64 = 0;
    proof {
        lemma2_to64();
    }
    while i < d
        invariant
            i <= d,
            d <= 127,
            acc == pow2(i as nat),
        decreases d - i,
    {
        proof {
            lemma_pow2_128();
            lemma_pow2_strictly_increases(i as nat + 1, 128);
            lemma_pow2_adds(i as nat, 1);
            lemma2_to64();
        }
        acc = acc * 2;
        i = i + 1;
    }
    acc
}

/// `q * pow2(d)` stays within `u128` exactly when `q <= u128::MAX / pow2(d)`.
proof fn lemma_mul_pow_guard(q: int, pw: int, max: int)
    requires
        q >= 0,
        pw >= 1,
        max >= 0,
    ensures
        q <= max / pw ==> q * pw <= max,
        q > max / pw ==> q * pw > max,
{
    lemma_fundamental_div_mod(max, pw);
    let k = max / pw;
    assert(k * pw <= max) by (nonlinear_arith)
        requires
            max == pw * k + max % pw,
            0 <= max % pw,
    ;
    assert(q <= k ==> q * pw <= k * pw) by (nonlinear_arith)
        requires
            pw >= 1,
    ;
    assert((k + 1) * pw > max) by (nonlinear_arith)
        requires
            max == pw * k + max % pw,
            max % pw < pw,
            pw >= 1,
    ;
    assert(q >= k + 1 ==> q * pw >= (k + 1) * pw) by (nonlinear_arith)
        requires
            pw >= 1,
    ;
}

/// Reduce the cross-multiplication comparison to `p <=> q * 2^d`, after
/// cancelling the shared positive factor `2^min(halves)`.
proof fn lemma_cancel_shared_pow(a: Weight, b: Weight, d: nat)
    requires
        a.wf(),
        b.wf(),
        a.halves as nat == b.halves as nat + d,
    ensures
        w_le(a, b) <==> (a.num as int) * (b.den as int) <= (b.num as int) * (a.den as int) * (pow2(
            d,
        ) as int),
{
    lemma_pow2_adds(b.halves as nat, d);
    lemma_pow2_pos(b.halves as nat);
    lemma_pow2_pos(d);
    let p = (a.num as int) * (b.den as int);
    let q = (b.num as int) * (a.den as int);
    let pb = pow2(b.halves as nat) as int;
    let pd = pow2(d) as int;
    assert((a.num as int) * (b.den as int) * (pow2(b.halves as nat) as int) == p * pb);
    assert(pow2(a.halves as nat) == pow2(b.halves as nat) * pow2(d));
    assert((b.num as int) * (a.den as int) * (pow2(a.halves as nat) as int) == q * (pb * pd));
    assert(q * (pb * pd) == (q * pd) * pb) by (nonlinear_arith);
    assert(p * pb <= (q * pd) * pb <==> p <= q * pd) by (nonlinear_arith)
        requires
            pb >= 1,
    ;
}

/// The mirrored cancellation, for a comparison whose right side carries the
/// larger exponent.
proof fn lemma_cancel_shared_pow_rev(a: Weight, b: Weight, d: nat)
    requires
        a.wf(),
        b.wf(),
        b.halves as nat == a.halves as nat + d,
    ensures
        w_le(a, b) <==> (a.num as int) * (b.den as int) * (pow2(d) as int) <= (b.num as int) * (
        a.den as int),
{
    lemma_pow2_adds(a.halves as nat, d);
    lemma_pow2_pos(a.halves as nat);
    lemma_pow2_pos(d);
    let p = (a.num as int) * (b.den as int);
    let q = (b.num as int) * (a.den as int);
    let pa = pow2(a.halves as nat) as int;
    let pd = pow2(d) as int;
    assert(pow2(b.halves as nat) == pow2(a.halves as nat) * pow2(d));
    assert((a.num as int) * (b.den as int) * (pow2(b.halves as nat) as int) == p * (pa * pd));
    assert((b.num as int) * (a.den as int) * (pow2(a.halves as nat) as int) == q * pa);
    assert(p * (pa * pd) == (p * pd) * pa) by (nonlinear_arith);
    assert((p * pd) * pa <= q * pa <==> p * pd <= q) by (nonlinear_arith)
        requires
            pa >= 1,
    ;
}

/// Compare two weights as rationals.
pub fn weight_le(a: &Weight, b: &Weight) -> (r: bool)
    requires
        a.wf(),
        b.wf(),
    ensures
        r == w_le(*a, *b),
{
    proof {
        assert((a.num as int) * (b.den as int) <= 0xffff_ffff_ffff_ffff * 0xffff_ffff_ffff_ffff)
            by (nonlinear_arith)
            requires
                a.num as int <= 0xffff_ffff_ffff_ffff,
                b.den as int <= 0xffff_ffff_ffff_ffff,
                a.num as int >= 0,
                b.den as int >= 0,
        ;
        assert((b.num as int) * (a.den as int) <= 0xffff_ffff_ffff_ffff * 0xffff_ffff_ffff_ffff)
            by (nonlinear_arith)
            requires
                b.num as int <= 0xffff_ffff_ffff_ffff,
                a.den as int <= 0xffff_ffff_ffff_ffff,
                b.num as int >= 0,
                a.den as int >= 0,
        ;
    }
    let p: u128 = (a.num as u128) * (b.den as u128);
    let q: u128 = (b.num as u128) * (a.den as u128);
    if a.halves >= b.halves {
        let d = a.halves - b.halves;
        proof {
            lemma_cancel_shared_pow(*a, *b, d as nat);
            lemma_pow2_pos(d as nat);
        }
        if q == 0 {
            proof {
                assert(q * (pow2(d as nat) as int) == 0) by (nonlinear_arith)
                    requires
                        q == 0,
                ;
            }
            p == 0
        } else if d >= 128 {
            proof {
                lemma_pow2_128();
                if d > 128 {
                    lemma_pow2_strictly_increases(128, d as nat);
                }
                assert((q as int) * (pow2(d as nat) as int) >= pow2(d as nat)) by (nonlinear_arith)
                    requires
                        q >= 1,
                        pow2(d as nat) >= 1,
                ;
            }
            true
        } else {
            let pw = pow2_exec(d);
            proof {
                lemma_mul_pow_guard(q as int, pw as int, u128::MAX as int);
            }
            if q > u128::MAX / pw {
                true
            } else {
                p <= q * pw
            }
        }
    } else {
        let d = b.halves - a.halves;
        proof {
            lemma_cancel_shared_pow_rev(*a, *b, d as nat);
            lemma_pow2_pos(d as nat);
        }
        if p == 0 {
            proof {
                assert(p * (pow2(d as nat) as int) == 0) by (nonlinear_arith)
                    requires
                        p == 0,
                ;
            }
            true
        } else if d >= 128 {
            proof {
                lemma_pow2_128();
                if d > 128 {
                    lemma_pow2_strictly_increases(128, d as nat);
                }
                assert((p as int) * (pow2(d as nat) as int) >= pow2(d as nat)) by (nonlinear_arith)
                    requires
                        p >= 1,
                        pow2(d as nat) >= 1,
                ;
            }
            false
        } else {
            let pw = pow2_exec(d);
            proof {
                lemma_mul_pow_guard(p as int, pw as int, u128::MAX as int);
            }
            if p > u128::MAX / pw {
                false
            } else {
                p * pw <= q
            }
        }
    }
}

/// Equality of two weights as rationals.
pub fn weight_eq(a: &Weight, b: &Weight) -> (r: bool)
    requires
        a.wf(),
        b.wf(),
    ensures
        r == w_eq(*a, *b),
{
    weight_le(a, b) && weight_le(b, a)
}

} // verus!
