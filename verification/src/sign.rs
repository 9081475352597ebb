//! Exact sign computation for the imaginary part of a ring point.
//!
//! For a point z = c0 + c1*w + ... + c7*w^7 with w = e^(i*pi/10), the
//! imaginary part is a real algebraic number.  With g = sqrt(10 + 2*sqrt(5))
//! (so that cos 18 = g/4) one has
//!
//!   16 * Im(z) = a + b*sqrt(5) + (u + v*sqrt(5)) * g
//!
//! for the integers a, b, u, v computed by `im16_s`.  The sign of such a
//! number is decided exactly: the sign of x + y*sqrt(5) reduces to comparing
//! x^2 with 5*y^2, and the sign of X + Y*g (X, Y in Z[sqrt(5)], g > 0)
//! reduces to comparing X^2 with Y^2 * g^2 = Y^2 * (10 + 2*sqrt(5)), again
//! inside Z[sqrt(5)].  All arithmetic fits in i128 under the stated bounds.

use vstd::prelude::*;
use crate::ring::{Pt, SPt, pt_neg_s};

verus! {

/// The value a + b*sqrt(5) + (u + v*sqrt(5)) * sqrt(10 + 2*sqrt(5)).
pub ghost struct SQd {
    pub a: int,
    pub b: int,
    pub u: int,
    pub v: int,
}

pub open spec fn sq(x: int) -> int {
    x * x
}

pub open spec fn sign_i(x: int) -> int {
    if x > 0 {
        1
    } else if x < 0 {
        -1
    } else {
        0
    }
}

/// Sign of x + y*sqrt(5).
pub open spec fn sign5_s(x: int, y: int) -> int {
    if y == 0 {
        sign_i(x)
    } else if x == 0 {
        sign_i(y)
    } else if x > 0 && y > 0 {
        1
    } else if x < 0 && y < 0 {
        -1
    } else if x > 0 {
        sign_i(sq(x) - 5 * sq(y))
    } else {
        sign_i(5 * sq(y) - sq(x))
    }
}

/// Sign of a + b*sqrt(5) + (u + v*sqrt(5)) * g with g = sqrt(10 + 2*sqrt(5)).
pub open spec fn qd_sign_s(q: SQd) -> int {
    let sx = sign5_s(q.a, q.b);
    let sy = sign5_s(q.u, q.v);
    if sy == 0 {
        sx
    } else if sx == 0 {
        sy
    } else if sx == sy {
        sx
    } else {
        let xa = sq(q.a) + 5 * sq(q.b);
        let xb = 2 * (q.a * q.b);
        let ya = sq(q.u) + 5 * sq(q.v);
        let yb = 2 * (q.u * q.v);
        let cmp = sign5_s(xa - 10 * ya - 10 * yb, xb - 2 * ya - 10 * yb);
        if cmp > 0 {
            sx
        } else if cmp < 0 {
            sy
        } else {
            0
        }
    }
}

/// The four integers with 16 * Im(z) = a + b*sqrt(5) + (u + v*sqrt(5)) * g.
///
/// This uses 16*sin 18 = 4*sqrt(5) - 4, 16*sin 54 = 4*sqrt(5) + 4,
/// 16*sin 72 = 4*g and 16*sin 36 = (2*sqrt(5) - 2) * g.
pub open spec fn im16_s(p: SPt) -> SQd {
    SQd {
        a: 16 * p.c5 - 4 * p.c1 + 4 * p.c3 + 4 * p.c7,
        b: 4 * p.c1 + 4 * p.c3 + 4 * p.c7,
        u: 4 * p.c4 + 4 * p.c6 - 2 * p.c2,
        v: 2 * p.c2,
    }
}

pub open spec fn qd_neg_s(q: SQd) -> SQd {
    SQd { a: -q.a, b: -q.b, u: -q.u, v: -q.v }
}

proof fn lemma_neg_mul(x: int, y: int)
    by (nonlinear_arith)
    ensures
        (-x) * (-y) == x * y,
{
}

pub proof fn lemma_sign5_antisym(x: int, y: int)
    ensures
        sign5_s(-x, -y) == -sign5_s(x, y),
{
    lemma_neg_mul(x, x);
    lemma_neg_mul(y, y);
}

pub proof fn lemma_qd_sign_antisym(q: SQd)
    ensures
        qd_sign_s(qd_neg_s(q)) == -qd_sign_s(q),
{
    lemma_sign5_antisym(q.a, q.b);
    lemma_sign5_antisym(q.u, q.v);
    lemma_neg_mul(q.a, q.a);
    lemma_neg_mul(q.b, q.b);
    lemma_neg_mul(q.u, q.u);
    lemma_neg_mul(q.v, q.v);
    lemma_neg_mul(q.a, q.b);
    lemma_neg_mul(q.u, q.v);
}

/// Negating a point negates the quadruple of its imaginary part.
pub proof fn lemma_im16_neg(p: SPt)
    ensures
        im16_s(pt_neg_s(p)) == qd_neg_s(im16_s(p)),
{
}

proof fn lemma_mul_le(x: int, y: int, m: int, n: int)
    by (nonlinear_arith)
    requires
        -m <= x <= m,
        -n <= y <= n,
        m >= 0,
        n >= 0,
    ensures
        -(m * n) <= x * y <= m * n,
{
}

// Largest magnitude accepted by `sign5_e`: squares stay far inside i128.
pub const SIGN5_LIMIT: i128 = 1_000_000_000_000_000_000;

/// Sign of x + y*sqrt(5), exactly.
fn sign5_e(x: i128, y: i128) -> (r: i64)
    requires
        -SIGN5_LIMIT <= x <= SIGN5_LIMIT,
        -SIGN5_LIMIT <= y <= SIGN5_LIMIT,
    ensures
        r as int == sign5_s(x as int, y as int),
        -1 <= r <= 1,
{
    proof {
        lemma_mul_le(x as int, x as int, SIGN5_LIMIT as int, SIGN5_LIMIT as int);
        lemma_mul_le(y as int, y as int, SIGN5_LIMIT as int, SIGN5_LIMIT as int);
    }
    if y == 0 {
        if x > 0 { 1 } else if x < 0 { -1 } else { 0 }
    } else if x == 0 {
        if y > 0 { 1 } else { -1 }
    } else if x > 0 && y > 0 {
        1
    } else if x < 0 && y < 0 {
        -1
    } else if x > 0 {
        let d: i128 = x * x - 5 * (y * y);
        assert(d == sq(x as int) - 5 * sq(y as int));
        if d > 0 { 1 } else if d < 0 { -1 } else { 0 }
    } else {
        let d: i128 = 5 * (y * y) - x * x;
        assert(d == 5 * sq(y as int) - sq(x as int));
        if d > 0 { 1 } else if d < 0 { -1 } else { 0 }
    }
}

// Largest coordinate magnitude accepted by `im16_sign`.
pub const IM_IN_LIMIT: i64 = 1_700_000;

// Largest quadruple component magnitude passed to the sign computation.
pub const QD_IN_LIMIT: i128 = 50_000_000;

fn qd_sign_e(a: i64, b: i64, u: i64, v: i64) -> (r: i64)
    requires
        -QD_IN_LIMIT <= a as i128 <= QD_IN_LIMIT,
        -QD_IN_LIMIT <= b as i128 <= QD_IN_LIMIT,
        -QD_IN_LIMIT <= u as i128 <= QD_IN_LIMIT,
        -QD_IN_LIMIT <= v as i128 <= QD_IN_LIMIT,
    ensures
        r as int == qd_sign_s(SQd { a: a as int, b: b as int, u: u as int, v: v as int }),
        -1 <= r <= 1,
{
    let sx = sign5_e(a as i128, b as i128);
    let sy = sign5_e(u as i128, v as i128);
    if sy == 0 {
        sx
    } else if sx == 0 {
        sy
    } else if sx == sy {
        sx
    } else {
        proof {
            lemma_mul_le(a as int, a as int, QD_IN_LIMIT as int, QD_IN_LIMIT as int);
            lemma_mul_le(b as int, b as int, QD_IN_LIMIT as int, QD_IN_LIMIT as int);
            lemma_mul_le(a as int, b as int, QD_IN_LIMIT as int, QD_IN_LIMIT as int);
            lemma_mul_le(u as int, u as int, QD_IN_LIMIT as int, QD_IN_LIMIT as int);
            lemma_mul_le(v as int, v as int, QD_IN_LIMIT as int, QD_IN_LIMIT as int);
            lemma_mul_le(u as int, v as int, QD_IN_LIMIT as int, QD_IN_LIMIT as int);
        }
        let xa: i128 = (a as i128) * (a as i128) + 5 * ((b as i128) * (b as i128));
        let xb: i128 = 2 * ((a as i128) * (b as i128));
        let ya: i128 = (u as i128) * (u as i128) + 5 * ((v as i128) * (v as i128));
        let yb: i128 = 2 * ((u as i128) * (v as i128));
        assert(xa == sq(a as int) + 5 * sq(b as int) && xb == 2 * ((a as int) * (b as int)));
        assert(ya == sq(u as int) + 5 * sq(v as int) && yb == 2 * ((u as int) * (v as int)));
        let cmp = sign5_e(xa - 10 * ya - 10 * yb, xb - 2 * ya - 10 * yb);
        if cmp > 0 {
            sx
        } else if cmp < 0 {
            sy
        } else {
            0
        }
    }
}

/// The exact sign of the imaginary part of a ring point.
pub fn im16_sign(p: &Pt) -> (r: i64)
    requires
        p.bounded(IM_IN_LIMIT as int),
    ensures
        r as int == qd_sign_s(im16_s(p@)),
        -1 <= r <= 1,
{
    let a: i64 = 16 * p.c5 - 4 * p.c1 + 4 * p.c3 + 4 * p.c7;
    let b: i64 = 4 * p.c1 + 4 * p.c3 + 4 * p.c7;
    let u: i64 = 4 * p.c4 + 4 * p.c6 - 2 * p.c2;
    let v: i64 = 2 * p.c2;
    qd_sign_e(a, b, u, v)
}

} // verus!
