//! The read contract that every decoder meets, and the bounds of a column.

use vstd::prelude::*;

verus! {

/// A read-only column: `num_vals()` values, addressed by their ordinal.
pub trait Column<T> {
    /// The reader was opened on a well-formed byte region.
    spec fn wf(&self) -> bool;

    /// The values of the column, in order.
    spec fn values(&self) -> Seq<T>;

    /// The lower bound that `min_value` returns.
    spec fn spec_min_value(&self) -> T;

    /// The upper bound that `max_value` returns.
    spec fn spec_max_value(&self) -> T;

    /// The value at ordinal `idx`.
    fn get_val(&self, idx: u64) -> (v: T)
        requires
            self.wf(),
            idx < self.values().len(),
        ensures
            v == self.values()[idx as int],
    ;

    /// A lower bound of the values, as the encoder recorded it.
    fn min_value(&self) -> (v: T)
        requires
            self.wf(),
        ensures
            v == self.spec_min_value(),
    ;

    /// An upper bound of the values, as the encoder recorded it.
    fn max_value(&self) -> (v: T)
        requires
            self.wf(),
        ensures
            v == self.spec_max_value(),
    ;

    /// The number of values.
    fn num_vals(&self) -> (n: u64)
        requires
            self.wf(),
        ensures
            n == self.values().len(),
    ;
}

/// `m` is the least value of `s`; of an empty sequence it is 0.
pub open spec fn is_min_of(m: u64, s: Seq<u64>) -> bool {
    if s.len() == 0 {
        m == 0
    } else {
        &&& forall|i: int| 0 <= i < s.len() ==> m <= #[trigger] s[i]
        &&& exists|i: int| 0 <= i < s.len() && #[trigger] s[i] == m
    }
}

/// `m` is the greatest value of `s`; of an empty sequence it is 0.
pub open spec fn is_max_of(m: u64, s: Seq<u64>) -> bool {
    if s.len() == 0 {
        m == 0
    } else {
        &&& forall|i: int| 0 <= i < s.len() ==> m >= #[trigger] s[i]
        &&& exists|i: int| 0 <= i < s.len() && #[trigger] s[i] == m
    }
}

/// The least value of `s`, 0 for an empty sequence.
pub open spec fn seq_min(s: Seq<u64>) -> u64
    decreases s.len(),
{
    if s.len() == 0 {
        0
    } else if s.len() == 1 {
        s[0]
    } else if s.last() < seq_min(s.drop_last()) {
        s.last()
    } else {
        seq_min(s.drop_last())
    }
}

/// The greatest value of `s`, 0 for an empty sequence.
pub open spec fn seq_max(s: Seq<u64>) -> u64
    decreases s.len(),
{
    if s.len() == 0 {
        0
    } else if s.len() == 1 {
        s[0]
    } else if s.last() > seq_max(s.drop_last()) {
        s.last()
    } else {
        seq_max(s.drop_last())
    }
}

/// `seq_min` and `seq_max` give the least and the greatest value.
pub proof fn lemma_seq_min_max(s: Seq<u64>)
    ensures
        is_min_of(seq_min(s), s),
        is_max_of(seq_max(s), s),
    decreases s.len(),
{
    if s.len() > 1 {
        let front = s.drop_last();
        lemma_seq_min_max(front);
        let i = choose|i: int| 0 <= i < front.len() && #[trigger] front[i] == seq_min(front);
        let j = choose|j: int| 0 <= j < front.len() && #[trigger] front[j] == seq_max(front);
        assert(s[i] == front[i] && s[j] == front[j]);
        assert(s[s.len() - 1] == s.last());
        assert forall|k: int| 0 <= k < s.len() implies seq_min(s) <= #[trigger] s[k] <= seq_max(
            s,
        ) by {
            if k < front.len() {
                assert(s[k] == front[k]);
            }
        }
    } else if s.len() == 1 {
        assert(s[0] == seq_min(s));
    }
}

/// A sequence has one least and one greatest value.
pub proof fn lemma_min_max_unique(lo: u64, hi: u64, s: Seq<u64>)
    requires
        is_min_of(lo, s),
        is_max_of(hi, s),
    ensures
        lo == seq_min(s),
        hi == seq_max(s),
        lo <= hi,
{
    lemma_seq_min_max(s);
}

/// A column of `n` values can be encoded in memory: its bits, and the
/// headers around them, can be counted in a machine word.
pub open spec fn encodable_len(n: nat) -> bool {
    64 * n + 128 <= usize::MAX
}

/// Whether a column of `n` values can be encoded in memory.
pub fn can_encode(n: usize) -> (b: bool)
    ensures
        b == encodable_len(n as nat),
{
    n <= (usize::MAX - 128) / 64
}

/// The least and the greatest value of `vals`.
pub fn min_max(vals: &[u64]) -> (r: (u64, u64))
    ensures
        is_min_of(r.0, vals@),
        is_max_of(r.1, vals@),
{
    let n: usize = vals.len();
    if n == 0 {
        return (0, 0);
    }
    let mut lo: u64 = vals[0];
    let mut hi: u64 = vals[0];
    let mut i: usize = 1;
    let ghost mut lo_at: int = 0;
    let ghost mut hi_at: int = 0;
    while i < n
        invariant
            n == vals@.len(),
            1 <= i <= n,
            0 <= lo_at < i,
            0 <= hi_at < i,
            vals@[lo_at] == lo,
            vals@[hi_at] == hi,
            forall|j: int| 0 <= j < i ==> lo <= #[trigger] vals@[j] <= hi,
        decreases n - i,
    {
        let v: u64 = vals[i];
        if v < lo {
            lo = v;
            proof {
                lo_at = i as int;
            }
        }
        if v > hi {
            hi = v;
            proof {
                hi_at = i as int;
            }
        }
        i = i + 1;
    }
    (lo, hi)
}

} // verus!
