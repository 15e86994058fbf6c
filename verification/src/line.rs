//! A line through the ends of a run of values, and what each value adds
//! to it.
//!
//! The line through the first and the last value of a run predicts every
//! value in between. The residual of a value is its distance from the
//! prediction; residuals are stored shifted by the least of them, so that
//! none is negative. Sums are taken modulo two to the 64, which lets a run
//! whose residuals span more than 64 bits be stored at full width.

use vstd::prelude::*;
use vstd::arithmetic::power2::{pow2, lemma2_to64};
use crate::bits::{bit_width, compute_num_bits, lemma_bit_width};

verus! {

/// The point at position `i` of the line that is `first` at position 0 and
/// `last` at position `len - 1`, rounded towards `first`.
pub open spec fn line_at(first: u64, last: u64, len: nat, i: nat) -> u64 {
    if len <= 1 {
        first
    } else if last >= first {
        (first + (i * (last - first)) / (len - 1)) as u64
    } else {
        (first - (i * (first - last)) / (len - 1)) as u64
    }
}

/// The first value of the run, 0 for an empty run.
pub open spec fn fit_first(s: Seq<u64>) -> u64 {
    if s.len() == 0 {
        0
    } else {
        s[0]
    }
}

/// The last value of the run, 0 for an empty run.
pub open spec fn fit_last(s: Seq<u64>) -> u64 {
    if s.len() == 0 {
        0
    } else {
        s[s.len() - 1]
    }
}

/// The prediction for position `i` of the run.
pub open spec fn fitted(s: Seq<u64>, i: int) -> u64 {
    line_at(fit_first(s), fit_last(s), s.len(), i as nat)
}

/// The distance of value `i` from its prediction.
pub open spec fn residual(s: Seq<u64>, i: int) -> int {
    s[i] - fitted(s, i)
}

/// The least residual among the first `upto` values.
pub open spec fn residual_min(s: Seq<u64>, upto: nat) -> int
    decreases upto,
{
    if upto == 0 {
        0
    } else if upto == 1 {
        residual(s, 0)
    } else {
        let m = residual_min(s, (upto - 1) as nat);
        let r = residual(s, upto - 1);
        if r < m {
            r
        } else {
            m
        }
    }
}

/// The greatest residual among the first `upto` values.
pub open spec fn residual_max(s: Seq<u64>, upto: nat) -> int
    decreases upto,
{
    if upto == 0 {
        0
    } else if upto == 1 {
        residual(s, 0)
    } else {
        let m = residual_max(s, (upto - 1) as nat);
        let r = residual(s, upto - 1);
        if r > m {
            r
        } else {
            m
        }
    }
}

/// The distance between the least and the greatest residual of the run.
pub open spec fn fit_span(s: Seq<u64>) -> int {
    residual_max(s, s.len()) - residual_min(s, s.len())
}

/// What is added to every stored residual: the least residual, modulo two
/// to the 64; 0 where the residuals span more than 64 bits.
pub open spec fn fit_shift(s: Seq<u64>) -> u64 {
    let m = residual_min(s, s.len());
    if fit_span(s) > u64::MAX {
        0
    } else if m < 0 {
        (m + 0x1_0000_0000_0000_0000) as u64
    } else {
        m as u64
    }
}

/// The bit width of the stored residuals: that of the span, 64 where the
/// residuals span more than 64 bits.
pub open spec fn fit_width(s: Seq<u64>) -> nat {
    if fit_span(s) > u64::MAX {
        64
    } else {
        bit_width(fit_span(s) as u64)
    }
}

/// The stored residual of value `i`.
pub open spec fn fit_residual(s: Seq<u64>, i: int) -> u64 {
    s[i].wrapping_sub(fitted(s, i)).wrapping_sub(fit_shift(s))
}

/// The stored residuals of the run.
pub open spec fn fit_residuals(s: Seq<u64>) -> Seq<u64> {
    Seq::new(s.len(), |i: int| fit_residual(s, i))
}

/// The value that a line, a shift and a stored residual stand for.
pub open spec fn restored(first: u64, last: u64, len: nat, shift: u64, i: nat, stored: u64) -> u64 {
    line_at(first, last, len, i).wrapping_add(shift).wrapping_add(stored)
}

/// The line meets `first` at position 0 and `last` at the last position,
/// and stays between the two in between.
pub proof fn lemma_line_between(first: u64, last: u64, len: nat, i: nat)
    requires
        i < len,
    ensures
        last >= first ==> first <= line_at(first, last, len, i) <= last,
        last < first ==> last <= line_at(first, last, len, i) <= first,
        i == 0 ==> line_at(first, last, len, i) == first,
        i + 1 == len && len > 1 ==> line_at(first, last, len, i) == last,
        len > 1 && last >= first ==> line_at(first, last, len, i) == first + (i * (last - first)) / (
        len - 1),
        len > 1 && last < first ==> line_at(first, last, len, i) == first - (i * (first - last)) / (
        len - 1),
{
    if len > 1 {
        let d: int = if last >= first {
            last - first
        } else {
            first - last
        };
        let m: int = len - 1;
        let q: int = (i * d) / m;
        assert(0 <= q <= d) by (nonlinear_arith)
            requires
                q == (i * d) / m,
                0 <= i <= m,
                m > 0,
                d >= 0,
        ;
        assert((0 * d) / m == 0 && (m * d) / m == d) by (nonlinear_arith)
            requires
                m > 0,
        ;
    }
}

/// Every residual among the first `upto` lies between the least and the
/// greatest of them, and the two are less than two to the 64 apart from 0.
pub proof fn lemma_residual_range(s: Seq<u64>, upto: nat, i: int)
    requires
        0 <= i < upto <= s.len(),
    ensures
        residual_min(s, upto) <= residual(s, i) <= residual_max(s, upto),
        -0x1_0000_0000_0000_0000 < residual_min(s, upto),
        residual_max(s, upto) < 0x1_0000_0000_0000_0000,
    decreases upto,
{
    if upto > 1 {
        if i < upto - 1 {
            lemma_residual_range(s, (upto - 1) as nat, i);
        } else {
            lemma_residual_range(s, (upto - 1) as nat, 0);
        }
    }
}

/// A stored residual fits in the bit width of the run.
pub proof fn lemma_fit_residual_fits(s: Seq<u64>, i: int)
    requires
        0 <= i < s.len(),
    ensures
        fit_width(s) <= 64,
        fit_residual(s, i) < pow2(fit_width(s)),
{
    lemma_residual_range(s, s.len(), i);
    lemma2_to64();
    if fit_span(s) <= u64::MAX {
        lemma_bit_width(fit_span(s) as u64);
        let r = residual(s, i);
        let m = residual_min(s, s.len());
        assert(fit_residual(s, i) == r - m);
    }
}

/// The line, the shift and the stored residual give the value back.
pub proof fn lemma_fit_restores(s: Seq<u64>, i: int)
    requires
        0 <= i < s.len(),
    ensures
        restored(fit_first(s), fit_last(s), s.len(), fit_shift(s), i as nat, fit_residual(s, i))
            == s[i],
{
}

/// The point at position `i` of the line through `first` and `last`.
pub fn line_value(first: u64, last: u64, len: u64, i: u64) -> (r: u64)
    requires
        i < len,
    ensures
        r == line_at(first, last, len as nat, i as nat),
{
    if len <= 1 {
        return first;
    }
    proof {
        lemma_line_between(first, last, len as nat, i as nat);
    }
    let steps: u128 = (len - 1) as u128;
    if last >= first {
        let d: u64 = last - first;
        assert(i * d < 0x1_0000_0000_0000_0000 * 0x1_0000_0000_0000_0000) by (nonlinear_arith)
            requires
                i < 0x1_0000_0000_0000_0000,
                d < 0x1_0000_0000_0000_0000,
        ;
        let q: u128 = ((i as u128) * (d as u128)) / steps;
        first + (q as u64)
    } else {
        let d: u64 = first - last;
        assert(i * d < 0x1_0000_0000_0000_0000 * 0x1_0000_0000_0000_0000) by (nonlinear_arith)
            requires
                i < 0x1_0000_0000_0000_0000,
                d < 0x1_0000_0000_0000_0000,
        ;
        let q: u128 = ((i as u128) * (d as u128)) / steps;
        first - (q as u64)
    }
}

/// What a fit decides for a run: the shift and the bit width of its stored
/// residuals, and the residuals themselves.
pub struct Fit {
    pub shift: u64,
    pub width: u8,
    pub residuals: Vec<u64>,
}

/// Fits the line through the ends of `vals` and computes what each value
/// adds to it.
pub fn fit(vals: &[u64]) -> (r: Fit)
    ensures
        r.shift == fit_shift(vals@),
        r.width == fit_width(vals@),
        r.residuals@ == fit_residuals(vals@),
{
    let n: usize = vals.len();
    if n == 0 {
        let r = Fit { shift: 0, width: 0, residuals: Vec::new() };
        assert(r.residuals@ =~= fit_residuals(vals@));
        return r;
    }
    let first: u64 = vals[0];
    let last: u64 = vals[n - 1];
    let mut lo: i128 = 0;
    let mut hi: i128 = 0;
    let mut i: usize = 0;
    while i < n
        invariant
            0 < n == vals@.len(),
            i <= n,
            first == fit_first(vals@),
            last == fit_last(vals@),
            lo == residual_min(vals@, i as nat),
            hi == residual_max(vals@, i as nat),
            -0x1_0000_0000_0000_0000 < lo <= hi < 0x1_0000_0000_0000_0000,
        decreases n - i,
    {
        let p: u64 = line_value(first, last, n as u64, i as u64);
        let r: i128 = (vals[i] as i128) - (p as i128);
        if i == 0 {
            lo = r;
            hi = r;
        } else {
            if r < lo {
                lo = r;
            }
            if r > hi {
                hi = r;
            }
        }
        i = i + 1;
    }
    let span: i128 = hi - lo;
    let (shift, width): (u64, u8) = if span > (u64::MAX as i128) {
        (0u64, 64u8)
    } else if lo < 0 {
        ((lo + 0x1_0000_0000_0000_0000) as u64, compute_num_bits(span as u64))
    } else {
        (lo as u64, compute_num_bits(span as u64))
    };
    let mut residuals: Vec<u64> = Vec::with_capacity(n);
    let mut j: usize = 0;
    while j < n
        invariant
            0 < n == vals@.len(),
            j <= n,
            first == fit_first(vals@),
            last == fit_last(vals@),
            shift == fit_shift(vals@),
            residuals@.len() == j,
            forall|k: int| 0 <= k < j ==> #[trigger] residuals@[k] == fit_residual(vals@, k),
        decreases n - j,
    {
        let p: u64 = line_value(first, last, n as u64, j as u64);
        residuals.push(vals[j].wrapping_sub(p).wrapping_sub(shift));
        j = j + 1;
    }
    assert(residuals@ =~= fit_residuals(vals@));
    Fit { shift, width, residuals }
}

} // verus!
