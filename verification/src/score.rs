//! The ranking engine: BM25 relevance scores in fixed-point arithmetic.
//!
//! Scores are integers scaled by `SCORE_SCALE` (one million stands for 1.0).
//! The inverse document frequency uses a base-ten logarithm computed by
//! normalization and twenty rounds of binary digit extraction; the term
//! frequency component is an exact rational evaluated with integer division.

use vstd::prelude::*;

use vstd::arithmetic::div_mod::{
    lemma_div_by_multiple, lemma_div_is_ordered, lemma_div_is_ordered_by_denominator,
    lemma_div_pos_is_pos, lemma_multiply_divide_le, lemma_multiply_divide_lt,
};
use vstd::arithmetic::power2::{
    lemma2_to64, lemma2_to64_rest, lemma_pow2_strictly_increases, pow2,
};

use crate::SCORE_SCALE;

verus! {

/// Scale of the normalized mantissa inside the logarithm computation.
pub const FRAC_ONE: u64 = 65536;

/// Number of binary digits of the logarithm's fractional part.
pub const FRAC_ROUNDS: usize = 20;

/// BM25 parameters: k1 = 1.2 and b = 0.75. They appear below only through
/// the integer-cleared form of the term frequency component.
///
/// The integer part of log10(num/den): how often den fits ten times into num.
pub open spec fn int_log10(num: int, den: int) -> int
    decreases num - den,
{
    if 1 <= den && 10 * den <= num {
        1 + int_log10(num, 10 * den)
    } else {
        0
    }
}

/// The denominator scaled up so that num/den lands in [1, 10).
pub open spec fn norm_den(num: int, den: int) -> int
    decreases num - den,
{
    if 1 <= den && 10 * den <= num {
        norm_den(num, 10 * den)
    } else {
        den
    }
}

/// Binary digit extraction of the fractional part of log10: the mantissa is
/// squared each round; when it leaves [1, 10) it is divided by ten and the
/// current digit weight is collected.
pub open spec fn frac_acc(y: int, bit: int, n: nat) -> int
    decreases n,
{
    if n == 0 {
        0
    } else {
        let sq = (y * y) / (FRAC_ONE as int);
        if sq >= 10 * (FRAC_ONE as int) {
            bit + frac_acc(sq / 10, bit / 2, (n - 1) as nat)
        } else {
            frac_acc(sq, bit / 2, (n - 1) as nat)
        }
    }
}

/// log10(num/den) scaled by `SCORE_SCALE`, for num >= den >= 1.
pub open spec fn log10_scaled_spec(num: int, den: int) -> int {
    let d = norm_den(num, den);
    let y0 = (num * (FRAC_ONE as int)) / d;
    (SCORE_SCALE as int) * int_log10(num, den) + frac_acc(
        y0,
        (SCORE_SCALE as int) / 2,
        FRAC_ROUNDS as nat,
    )
}

proof fn lemma_int_log10_nonneg(num: int, den: int)
    ensures
        0 <= int_log10(num, den),
    decreases num - den,
{
    if 1 <= den && 10 * den <= num {
        lemma_int_log10_nonneg(num, 10 * den);
    }
}

proof fn lemma_frac_acc_nonneg(y: int, bit: int, n: nat)
    requires
        0 <= bit,
    ensures
        0 <= frac_acc(y, bit, n),
    decreases n,
{
    if n > 0 {
        let sq = (y * y) / (FRAC_ONE as int);
        if sq >= 10 * (FRAC_ONE as int) {
            lemma_frac_acc_nonneg(sq / 10, bit / 2, (n - 1) as nat);
        } else {
            lemma_frac_acc_nonneg(sq, bit / 2, (n - 1) as nat);
        }
    }
}

/// The scaled logarithm is never negative.
pub proof fn lemma_log10_scaled_nonneg(num: int, den: int)
    ensures
        0 <= log10_scaled_spec(num, den),
{
    lemma_int_log10_nonneg(num, den);
    lemma_frac_acc_nonneg(
        (num * (FRAC_ONE as int)) / norm_den(num, den),
        (SCORE_SCALE as int) / 2,
        FRAC_ROUNDS as nat,
    );
    assert((SCORE_SCALE as int) * int_log10(num, den) >= 0) by (nonlinear_arith)
        requires
            int_log10(num, den) >= 0,
    ;
}

/// Computes log10(num/den) scaled by `SCORE_SCALE`.
pub fn log10_scaled(num: u64, den: u64) -> (r: u64)
    requires
        1 <= den <= num,
        num <= 0x20_0000_0000_0000u64,
    ensures
        r == log10_scaled_spec(num as int, den as int),
        r <= 55_000_000,
{
    let mut d: u64 = den;
    let mut k: u64 = 0;
    proof {
        lemma2_to64();
    }
    while 10 * d <= num
        invariant
            1 <= den <= d <= num,
            num <= 0x20_0000_0000_0000u64,
            pow2(k as nat) <= d,
            k <= 64,
            int_log10(num as int, den as int) == k + int_log10(num as int, d as int),
            norm_den(num as int, den as int) == norm_den(num as int, d as int),
        decreases num - d,
    {
        proof {
            assert(int_log10(num as int, d as int) == 1 + int_log10(num as int, 10 * (d as int)));
            assert(norm_den(num as int, d as int) == norm_den(num as int, 10 * (d as int)));
            assert(pow2((k + 1) as nat) == 2 * pow2(k as nat)) by {
                vstd::arithmetic::power2::lemma_pow2_unfold((k + 1) as nat);
            }
            if k >= 54 {
                lemma2_to64_rest();
                if k > 54 {
                    lemma_pow2_strictly_increases(54, k as nat);
                }
                assert(false);
            }
        }
        d = d * 10;
        k = k + 1;
    }
    proof {
        assert(int_log10(num as int, d as int) == 0);
        assert(norm_den(num as int, d as int) == d);
        if k >= 54 {
            lemma2_to64_rest();
            if k > 54 {
                lemma_pow2_strictly_increases(54, k as nat);
            }
            assert(false);
        }
        let ni = num as int;
        let di = d as int;
        let f = FRAC_ONE as int;
        assert(ni * f < di * (10 * f)) by (nonlinear_arith)
            requires
                ni < 10 * di,
                f > 0,
                di >= 1,
        ;
        lemma_multiply_divide_lt(ni * f, di, 10 * f);
        assert(di * f <= ni * f) by (nonlinear_arith)
            requires
                di <= ni,
                f > 0,
        ;
        lemma_div_is_ordered(di * f, ni * f, di);
        lemma_div_by_multiple(f, di);
        assert((f * di) / di == f);
        assert(di * f == f * di) by (nonlinear_arith);
    }
    let y0: u64 = (((num as u128) * (FRAC_ONE as u128)) / (d as u128)) as u64;
    proof {
        assert(y0 >= FRAC_ONE);
        assert(y0 < 10 * (FRAC_ONE as int));
    }
    let mut y: u64 = y0;
    let mut acc: u64 = 0;
    let mut bit: u64 = SCORE_SCALE / 2;
    let mut i: usize = 0;
    while i < FRAC_ROUNDS
        invariant
            FRAC_ONE <= y <= 10 * FRAC_ONE,
            i <= FRAC_ROUNDS,
            acc + 2 * bit <= 2 * SCORE_SCALE,
            acc + frac_acc(y as int, bit as int, (FRAC_ROUNDS - i) as nat) == frac_acc(
                y0 as int,
                (SCORE_SCALE as int) / 2,
                FRAC_ROUNDS as nat,
            ),
        decreases FRAC_ROUNDS - i,
    {
        proof {
            let yi = y as int;
            let f = FRAC_ONE as int;
            assert(yi * yi <= (10 * f) * (10 * f)) by (nonlinear_arith)
                requires
                    0 <= yi <= 10 * f,
            ;
            assert((10 * f) * (10 * f) == (100 * f) * f) by (nonlinear_arith);
            lemma_multiply_divide_le(yi * yi, f, 100 * f);
            assert(f * f <= yi * yi) by (nonlinear_arith)
                requires
                    f <= yi,
                    f >= 0,
            ;
            lemma_div_is_ordered(f * f, yi * yi, f);
            lemma_div_by_multiple(f, f);
            assert((f * f) / f == f);
            lemma_frac_acc_nonneg(yi, bit as int, (FRAC_ROUNDS - i) as nat);
        }
        let sq: u64 = y * y / FRAC_ONE;
        if sq >= 10 * FRAC_ONE {
            proof {
                lemma_div_is_ordered(10 * (FRAC_ONE as int), sq as int, 10);
                lemma_div_by_multiple(FRAC_ONE as int, 10);
                assert((10 * (FRAC_ONE as int)) / 10 == ((FRAC_ONE as int) * 10) / 10)
                    by (nonlinear_arith);
                lemma_multiply_divide_le(sq as int, 10, 10 * (FRAC_ONE as int));
                assert(10 * (10 * (FRAC_ONE as int)) == 100 * (FRAC_ONE as int))
                    by (nonlinear_arith);
            }
            y = sq / 10;
            acc = acc + bit;
        } else {
            y = sq;
        }
        bit = bit / 2;
        i = i + 1;
    }
    proof {
        assert(frac_acc(y as int, bit as int, (FRAC_ROUNDS - i) as nat) == 0);
    }
    k * SCORE_SCALE + acc
}

/// Inverse document frequency of a term, scaled by `SCORE_SCALE`:
/// log10((N - df + 0.5) / (df + 0.5) + 1), written with cleared halves as
/// log10((2N + 2) / (2 df + 1)).
pub open spec fn idf_spec(n_docs: int, df: int) -> int {
    log10_scaled_spec(2 * n_docs + 2, 2 * df + 1)
}

/// Computes the scaled inverse document frequency.
pub fn idf_scaled(n_docs: u64, df: u64) -> (r: u64)
    requires
        1 <= df <= n_docs,
        n_docs <= 0x1_0000_0000u64,
    ensures
        r == idf_spec(n_docs as int, df as int),
        r <= 55_000_000,
{
    log10_scaled(2 * n_docs + 2, 2 * df + 1)
}

/// The BM25 term frequency component scaled by `SCORE_SCALE`:
/// (tf * (k1 + 1)) / (tf + k1 * (1 - b + b * dl / avgdl)), with k1 = 1.2,
/// b = 0.75 and avgdl = max(tt / td, 1) held as the rational tt/td. Clearing
/// denominators gives (22 tf a) / (10 tf a + 3 a + 9 dl e) * SCORE_SCALE
/// where a/e is the average document length.
pub open spec fn tf_comp_spec(tf: int, dl: int, tt: int, td: int) -> int {
    let a = if tt >= td && td > 0 {
        tt
    } else {
        1
    };
    let e = if tt >= td && td > 0 {
        td
    } else {
        1
    };
    (22 * tf * a * (SCORE_SCALE as int)) / (10 * tf * a + 3 * a + 9 * dl * e)
}

/// Computes the scaled term frequency component.
pub fn tf_comp_scaled(tf: u64, dl: u64, tt: u64, td: u64) -> (r: u64)
    requires
        tf <= 0x8000_0000u64,
        dl <= 0x8000_0000u64,
        tt <= 0x8000_0000_0000_0000u64,
        td <= 0x1_0000_0000u64,
    ensures
        r == tf_comp_spec(tf as int, dl as int, tt as int, td as int),
        r <= 3_000_000,
{
    let (a, e): (u64, u64) = if tt >= td && td > 0 {
        (tt, td)
    } else {
        (1, 1)
    };
    proof {
        let ti = tf as int;
        let ai = a as int;
        let di = dl as int;
        let ei = e as int;
        let s = SCORE_SCALE as int;
        assert(22 * ti * ai * s <= 22 * 0x8000_0000i128 * 0x8000_0000_0000_0000i128 * 1_000_000i128)
            by (nonlinear_arith)
            requires
                0 <= ti <= 0x8000_0000,
                0 <= ai <= 0x8000_0000_0000_0000,
                s == 1_000_000,
        ;
        assert(10 * ti * ai + 3 * ai + 9 * di * ei <= 10 * 0x8000_0000i128
            * 0x8000_0000_0000_0000i128 + 3 * 0x8000_0000_0000_0000i128 + 9 * 0x8000_0000i128
            * 0x1_0000_0000i128) by (nonlinear_arith)
            requires
                0 <= ti <= 0x8000_0000,
                0 <= ai <= 0x8000_0000_0000_0000,
                0 <= di <= 0x8000_0000,
                0 <= ei <= 0x1_0000_0000,
        ;
    }
    let numer: u128 = 22u128 * (tf as u128) * (a as u128) * (SCORE_SCALE as u128);
    let denom: u128 = 10u128 * (tf as u128) * (a as u128) + 3u128 * (a as u128) + 9u128 * (dl
        as u128) * (e as u128);
    proof {
        let ti = tf as int;
        let ai = a as int;
        let s = SCORE_SCALE as int;
        assert(denom >= 3 * ai >= 3) by (nonlinear_arith)
            requires
                denom == 10 * ti * ai + 3 * ai + 9 * (dl as int) * (e as int),
                ti >= 0,
                ai >= 1,
                dl as int >= 0,
                e as int >= 1,
        ;
        assert(22 * ti * ai * s <= (denom as int) * (3 * s)) by (nonlinear_arith)
            requires
                denom == 10 * ti * ai + 3 * ai + 9 * (dl as int) * (e as int),
                ti >= 0,
                ai >= 1,
                s == 1_000_000,
                dl as int >= 0,
                e as int >= 1,
        ;
        lemma_multiply_divide_le(numer as int, denom as int, 3 * (SCORE_SCALE as int));
    }
    let q: u128 = numer / denom;
    q as u64
}

/// The scaled BM25 contribution of one query term to one document's score:
/// idf times the term frequency component, halved when the term was resolved
/// by fuzzy matching.
pub open spec fn term_score_spec(
    tf: int,
    df: int,
    n_docs: int,
    dl: int,
    tt: int,
    td: int,
    fuzzy: bool,
) -> int {
    let base = (idf_spec(n_docs, df) * tf_comp_spec(tf, dl, tt, td)) / (SCORE_SCALE as int);
    if fuzzy {
        base / 2
    } else {
        base
    }
}

/// Computes the scaled BM25 contribution of one term for one document.
pub fn term_score(tf: u64, df: u64, n_docs: u64, dl: u64, tt: u64, td: u64, fuzzy: bool) -> (r:
    u64)
    requires
        1 <= df <= n_docs,
        n_docs <= 0x1_0000_0000u64,
        tf <= 0x8000_0000u64,
        dl <= 0x8000_0000u64,
        tt <= 0x8000_0000_0000_0000u64,
        td <= 0x1_0000_0000u64,
    ensures
        r == term_score_spec(tf as int, df as int, n_docs as int, dl as int, tt as int, td as int, fuzzy),
        r <= 200_000_000,
{
    let idf = idf_scaled(n_docs, df);
    let tfc = tf_comp_scaled(tf, dl, tt, td);
    proof {
        assert((idf as int) * (tfc as int) <= 55_000_000i128 * 3_000_000i128) by (nonlinear_arith)
            requires
                0 <= idf as int <= 55_000_000,
                0 <= tfc as int <= 3_000_000,
        ;
        lemma_multiply_divide_le(
            (idf as int) * (tfc as int),
            SCORE_SCALE as int,
            200_000_000,
        );
        assert(55_000_000i128 * 3_000_000i128 <= (SCORE_SCALE as int) * 200_000_000)
            by (nonlinear_arith);
        lemma_div_pos_is_pos((idf as int) * (tfc as int), SCORE_SCALE as int);
        assert((idf as int) * (tfc as int) >= 0) by (nonlinear_arith)
            requires
                idf as int >= 0,
                tfc as int >= 0,
        ;
    }
    let base: u64 = idf * tfc / SCORE_SCALE;
    if fuzzy {
        base / 2
    } else {
        base
    }
}

/// A term resolved by fuzzy matching contributes exactly half of what the
/// same term contributes when matched exactly.
pub proof fn lemma_fuzzy_penalty_halves(
    tf: int,
    df: int,
    n_docs: int,
    dl: int,
    tt: int,
    td: int,
)
    ensures
        term_score_spec(tf, df, n_docs, dl, tt, td, true) == term_score_spec(
            tf,
            df,
            n_docs,
            dl,
            tt,
            td,
            false,
        ) / 2,
{
}

/// Division respects cross-multiplied ordering of fractions: if a/b and c/d
/// are nonnegative fractions with a*d <= c*b, then floor(a/b) <= floor(c/d).
proof fn lemma_div_frac_le(a: int, b: int, c: int, d: int)
    requires
        1 <= b,
        1 <= d,
        0 <= a,
        0 <= c,
        a * d <= c * b,
    ensures
        a / b <= c / d,
{
    let q = a / b;
    vstd::arithmetic::div_mod::lemma_fundamental_div_mod(a, b);
    vstd::arithmetic::div_mod::lemma_remainder_lower(a, b);
    assert(q * b <= a);
    lemma_div_pos_is_pos(a, b);
    assert(q * d * b <= c * b) by (nonlinear_arith)
        requires
            q * b <= a,
            a * d <= c * b,
            0 <= d,
            0 <= q,
            1 <= b,
    ;
    assert(q * d <= c) by (nonlinear_arith)
        requires
            q * d * b <= c * b,
            1 <= b,
    ;
    lemma_div_by_multiple(q, d);
    lemma_div_is_ordered(q * d, c, d);
}

/// Raising a term's frequency in a document, with the corpus and the
/// document length fixed, never lowers the term's score contribution.
pub proof fn lemma_term_score_monotonic(
    tf1: int,
    tf2: int,
    df: int,
    n_docs: int,
    dl: int,
    tt: int,
    td: int,
    fuzzy: bool,
)
    requires
        0 <= tf1 <= tf2,
        1 <= df <= n_docs,
        0 <= dl,
        0 <= tt,
        0 <= td,
    ensures
        term_score_spec(tf1, df, n_docs, dl, tt, td, fuzzy) <= term_score_spec(
            tf2,
            df,
            n_docs,
            dl,
            tt,
            td,
            fuzzy,
        ),
{
    let a = if tt >= td && td > 0 {
        tt
    } else {
        1
    };
    let e = if tt >= td && td > 0 {
        td
    } else {
        1
    };
    let s = SCORE_SCALE as int;
    let n1 = 22 * tf1 * a * s;
    let d1 = 10 * tf1 * a + 3 * a + 9 * dl * e;
    let n2 = 22 * tf2 * a * s;
    let d2 = 10 * tf2 * a + 3 * a + 9 * dl * e;
    assert(1 <= a && 1 <= e);
    assert(1 <= d1 && 1 <= d2 && 0 <= n1 && 0 <= n2 && n1 * d2 <= n2 * d1) by (nonlinear_arith)
        requires
            0 <= tf1 <= tf2,
            1 <= a,
            1 <= e,
            0 <= dl,
            s == 1_000_000,
            n1 == 22 * tf1 * a * s,
            d1 == 10 * tf1 * a + 3 * a + 9 * dl * e,
            n2 == 22 * tf2 * a * s,
            d2 == 10 * tf2 * a + 3 * a + 9 * dl * e,
    ;
    lemma_div_frac_le(n1, d1, n2, d2);
    let t1 = tf_comp_spec(tf1, dl, tt, td);
    let t2 = tf_comp_spec(tf2, dl, tt, td);
    assert(t1 == n1 / d1 && t2 == n2 / d2);
    let idf = idf_spec(n_docs, df);
    lemma_log10_scaled_nonneg(2 * n_docs + 2, 2 * df + 1);
    assert(idf * t1 <= idf * t2) by (nonlinear_arith)
        requires
            0 <= idf,
            t1 <= t2,
    ;
    lemma_div_is_ordered(idf * t1, idf * t2, s);
    lemma_div_is_ordered((idf * t1) / s, (idf * t2) / s, 2);
}

} // verus!
