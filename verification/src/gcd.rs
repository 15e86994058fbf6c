//! The GCD meta-codec: the greatest common divisor of a column is divided
//! out of every value before another codec stores the quotients, and
//! multiplied back in when a value is read.

use vstd::prelude::*;
use vstd::arithmetic::div_mod::{lemma_fundamental_div_mod, lemma_mod_multiples_basic};
use crate::column::Column;
use crate::error::DataCorruption;

verus! {

/// The greatest common divisor of `a` and `b`, by Euclid's algorithm;
/// 0 where both are 0.
pub open spec fn gcd(a: nat, b: nat) -> nat
    decreases b,
{
    if b == 0 {
        a
    } else {
        gcd(b, a % b)
    }
}

/// The greatest common divisor of all values of `s`; 0 where `s` is empty
/// or holds nothing but 0.
pub open spec fn seq_gcd(s: Seq<u64>) -> nat
    decreases s.len(),
{
    if s.len() == 0 {
        0
    } else {
        gcd(seq_gcd(s.drop_last()), s.last() as nat)
    }
}

/// The divisor that is stored for the column `s`: the greatest common
/// divisor of its values, and 1 where there is none.
pub open spec fn column_divisor(s: Seq<u64>) -> nat {
    if seq_gcd(s) == 0 {
        1
    } else {
        seq_gcd(s)
    }
}

/// Every value of `s` divided by `divisor`, rounded down.
pub open spec fn quotients_by(s: Seq<u64>, divisor: nat) -> Seq<u64> {
    Seq::new(s.len(), |i: int| (s[i] as nat / divisor) as u64)
}

/// The quotients that are stored for the column `s`.
pub open spec fn column_quotients(s: Seq<u64>) -> Seq<u64> {
    quotients_by(s, column_divisor(s))
}

/// The product of a quotient and the divisor, modulo two to the 64.
pub open spec fn scaled(q: u64, divisor: u64) -> u64 {
    q.wrapping_mul(divisor)
}

/// A sum of multiples of `g` is a multiple of `g`.
proof fn lemma_multiples_combine(g: int, b: int, q: int, r: int)
    requires
        g > 0,
        b % g == 0,
        r % g == 0,
    ensures
        (b * q + r) % g == 0,
{
    let x = b / g;
    let y = r / g;
    lemma_fundamental_div_mod(b, g);
    lemma_fundamental_div_mod(r, g);
    assert(b * q + r == (x * q + y) * g) by (nonlinear_arith)
        requires
            b == g * x,
            r == g * y,
    ;
    lemma_mod_multiples_basic(x * q + y, g);
}

/// The greatest common divisor divides both numbers, and is 0 only where
/// both are 0.
pub proof fn lemma_gcd_divides(a: nat, b: nat)
    ensures
        gcd(a, b) == 0 <==> a == 0 && b == 0,
        gcd(a, b) > 0 ==> a % gcd(a, b) == 0 && b % gcd(a, b) == 0,
    decreases b,
{
    if b != 0 {
        lemma_gcd_divides(b, a % b);
        let g = gcd(a, b) as int;
        lemma_fundamental_div_mod(a as int, b as int);
        lemma_multiples_combine(g, b as int, a as int / b as int, a as int % b as int);
    } else if a > 0 {
        lemma_mod_multiples_basic(1, a as int);
    }
}

/// Every common divisor of two numbers divides their greatest common
/// divisor.
pub proof fn lemma_gcd_greatest(a: nat, b: nat, d: nat)
    requires
        d > 0,
        a % d == 0,
        b % d == 0,
    ensures
        gcd(a, b) % d == 0,
    decreases b,
{
    if b != 0 {
        lemma_fundamental_div_mod(a as int, b as int);
        lemma_multiples_combine(d as int, b as int, -(a as int / b as int), a as int);
        assert(a as int % b as int == b as int * (-(a as int / b as int)) + a as int)
            by (nonlinear_arith)
            requires
                a as int == b as int * (a as int / b as int) + a as int % b as int,
        ;
        lemma_gcd_greatest(b, a % b, d);
    }
}

/// The greatest common divisor with 1 is 1.
pub proof fn lemma_gcd_one(b: nat)
    ensures
        gcd(1, b) == 1,
{
    if b > 1 {
        vstd::arithmetic::div_mod::lemma_small_mod(1, b);
        assert(gcd(b, 1) == gcd(1, b % 1));
    } else if b == 1 {
        assert(gcd(1, 0) == 1);
    }
}

/// The greatest common divisor of a column divides every value of it; it
/// is 0 only where every value is 0.
pub proof fn lemma_seq_gcd_divides(s: Seq<u64>, i: int)
    requires
        0 <= i < s.len(),
    ensures
        seq_gcd(s) == 0 ==> s[i] == 0,
        seq_gcd(s) > 0 ==> s[i] as nat % seq_gcd(s) == 0,
    decreases s.len(),
{
    let rest = seq_gcd(s.drop_last());
    let g = seq_gcd(s);
    lemma_gcd_divides(rest, s.last() as nat);
    if i < s.len() - 1 {
        lemma_seq_gcd_divides(s.drop_last(), i);
        if g > 0 && rest > 0 {
            lemma_fundamental_div_mod(s[i] as int, rest as int);
            lemma_multiples_combine(g as int, rest as int, s[i] as int / rest as int, 0);
        }
    }
}

/// Every common divisor of the values of a column divides their greatest
/// common divisor.
pub proof fn lemma_seq_gcd_greatest(s: Seq<u64>, d: nat)
    requires
        d > 0,
        forall|i: int| 0 <= i < s.len() ==> (#[trigger] s[i]) as nat % d == 0,
    ensures
        seq_gcd(s) % d == 0,
    decreases s.len(),
{
    if s.len() > 0 {
        assert forall|i: int| 0 <= i < s.drop_last().len() implies (#[trigger] s.drop_last()[i]) as nat
            % d == 0 by {
            assert(s.drop_last()[i] == s[i]);
        }
        lemma_seq_gcd_greatest(s.drop_last(), d);
        assert(s[s.len() - 1] as nat % d == 0);
        lemma_gcd_greatest(seq_gcd(s.drop_last()), s.last() as nat, d);
    } else {
        vstd::arithmetic::div_mod::lemma_small_mod(0, d);
    }
}

/// Once a prefix of a column has the greatest common divisor 1, so has
/// every longer prefix.
pub proof fn lemma_seq_gcd_stays_one(s: Seq<u64>, upto: int)
    requires
        0 <= upto <= s.len(),
        seq_gcd(s.take(upto)) == 1,
    ensures
        seq_gcd(s) == 1,
    decreases s.len() - upto,
{
    if upto < s.len() {
        assert(s.take(upto + 1).drop_last() =~= s.take(upto));
        lemma_gcd_one(s[upto] as nat);
        lemma_seq_gcd_stays_one(s, upto + 1);
    } else {
        assert(s.take(upto) =~= s);
    }
}

/// The stored divisor divides every value of the column: the quotient
/// times the divisor is the value.
pub proof fn lemma_divisor_divides(s: Seq<u64>, i: int)
    requires
        0 <= i < s.len(),
    ensures
        1 <= column_divisor(s) <= u64::MAX,
        s[i] as nat % column_divisor(s) == 0,
        column_quotients(s)[i] * column_divisor(s) == s[i],
{
    lemma_seq_gcd_divides(s, i);
    let g = column_divisor(s) as int;
    lemma_fundamental_div_mod(s[i] as int, g);
    assert((s[i] as int / g) * g == g * (s[i] as int / g)) by (nonlinear_arith);
    if g > s[i] {
        assert(s[i] == 0) by {
            vstd::arithmetic::div_mod::lemma_small_mod(s[i] as nat, g as nat);
        }
        lemma_seq_gcd_bounded(s);
    }
}

/// The greatest common divisor of a column fits in 64 bits.
pub proof fn lemma_seq_gcd_bounded(s: Seq<u64>)
    ensures
        seq_gcd(s) <= u64::MAX,
    decreases s.len(),
{
    if s.len() > 0 {
        let rest = seq_gcd(s.drop_last());
        let last = s.last() as nat;
        lemma_seq_gcd_bounded(s.drop_last());
        lemma_gcd_divides(rest, last);
        let g = gcd(rest, last);
        if g > u64::MAX {
            if last > 0 {
                vstd::arithmetic::div_mod::lemma_small_mod(last, g);
            } else {
                vstd::arithmetic::div_mod::lemma_small_mod(rest, g);
            }
        }
    }
}

/// Every common divisor of the values of a column that does not hold 0
/// alone divides the stored divisor, and so is no greater.
pub proof fn lemma_divisor_greatest(s: Seq<u64>, d: nat)
    requires
        d > 0,
        forall|i: int| 0 <= i < s.len() ==> (#[trigger] s[i]) as nat % d == 0,
        exists|i: int| 0 <= i < s.len() && #[trigger] s[i] != 0,
    ensures
        column_divisor(s) == seq_gcd(s),
        column_divisor(s) % d == 0,
        d <= column_divisor(s),
{
    lemma_seq_gcd_greatest(s, d);
    let i = choose|i: int| 0 <= i < s.len() && #[trigger] s[i] != 0;
    lemma_seq_gcd_divides(s, i);
    if d > seq_gcd(s) {
        vstd::arithmetic::div_mod::lemma_small_mod(seq_gcd(s), d);
    }
}

/// Where the values have no common divisor but 1, and where they are all
/// 0, the stored divisor is 1.
pub proof fn lemma_divisor_one(s: Seq<u64>)
    ensures
        seq_gcd(s) <= 1 ==> column_divisor(s) == 1,
        (forall|i: int| 0 <= i < s.len() ==> #[trigger] s[i] == 0) ==> column_divisor(s) == 1,
    decreases s.len(),
{
    if s.len() > 0 && (forall|i: int| 0 <= i < s.len() ==> #[trigger] s[i] == 0) {
        assert forall|i: int| 0 <= i < s.drop_last().len() implies #[trigger] s.drop_last()[i]
            == 0 by {
            assert(s.drop_last()[i] == s[i]);
        }
        lemma_divisor_one(s.drop_last());
        assert(s[s.len() - 1] == 0);
        lemma_seq_gcd_all_zero(s);
    }
}

/// Of a column that holds 0 alone the greatest common divisor is 0.
pub proof fn lemma_seq_gcd_all_zero(s: Seq<u64>)
    requires
        forall|i: int| 0 <= i < s.len() ==> #[trigger] s[i] == 0,
    ensures
        seq_gcd(s) == 0,
    decreases s.len(),
{
    if s.len() > 0 {
        assert forall|i: int| 0 <= i < s.drop_last().len() implies #[trigger] s.drop_last()[i]
            == 0 by {
            assert(s.drop_last()[i] == s[i]);
        }
        lemma_seq_gcd_all_zero(s.drop_last());
        assert(s[s.len() - 1] == 0);
    }
}

/// Multiplying the divisor back into the quotients gives the column, and
/// the bounds of the quotients, times the divisor, are the bounds of the
/// column.
pub proof fn lemma_quotients_restore(s: Seq<u64>, lo: u64, hi: u64)
    requires
        crate::column::is_min_of(lo, column_quotients(s)),
        crate::column::is_max_of(hi, column_quotients(s)),
    ensures
        lo * column_divisor(s) <= u64::MAX,
        hi * column_divisor(s) <= u64::MAX,
        crate::column::is_min_of((lo * column_divisor(s)) as u64, s),
        crate::column::is_max_of((hi * column_divisor(s)) as u64, s),
        forall|i: int|
            0 <= i < s.len() ==> scaled(#[trigger] column_quotients(s)[i], column_divisor(s) as u64)
                == s[i],
{
    let g = column_divisor(s) as int;
    let q = column_quotients(s);
    lemma_seq_gcd_bounded(s);
    assert forall|i: int| 0 <= i < s.len() implies scaled(#[trigger] q[i], g as u64) == s[i] && lo
        * g <= q[i] * g <= hi * g && q[i] * g == s[i] by {
        lemma_divisor_divides(s, i);
        vstd::arithmetic::div_mod::lemma_small_mod(s[i] as nat, 0x1_0000_0000_0000_0000);
        assert(lo * g <= q[i] * g <= hi * g) by (nonlinear_arith)
            requires
                lo <= q[i] <= hi,
                g >= 0,
        ;
    }
    if s.len() > 0 {
        let i = choose|i: int| 0 <= i < q.len() && #[trigger] q[i] == lo;
        let j = choose|j: int| 0 <= j < q.len() && #[trigger] q[j] == hi;
        assert(q[i] * g == s[i] && q[j] * g == s[j]);
        assert forall|k: int| 0 <= k < s.len() implies lo * g <= #[trigger] s[k] <= hi * g by {
            assert(q[k] * g == s[k]);
        }
    } else {
        assert(lo * g == 0 && hi * g == 0) by (nonlinear_arith)
            requires
                lo == 0,
                hi == 0,
        ;
    }
}

/// The greatest common divisor of `a` and `b`.
pub fn compute_gcd(a: u64, b: u64) -> (g: u64)
    ensures
        g == gcd(a as nat, b as nat),
{
    let mut x: u64 = a;
    let mut y: u64 = b;
    while y != 0
        invariant
            gcd(x as nat, y as nat) == gcd(a as nat, b as nat),
        decreases y,
    {
        let r: u64 = x % y;
        x = y;
        y = r;
    }
    x
}

/// The divisor to store for the column `vals`.
pub fn find_divisor(vals: &[u64]) -> (g: u64)
    ensures
        g == column_divisor(vals@),
        g >= 1,
{
    let n: usize = vals.len();
    let mut g: u64 = 0;
    let mut i: usize = 0;
    assert(vals@.take(0) =~= Seq::<u64>::empty());
    while i < n
        invariant
            n == vals@.len(),
            i <= n,
            g == seq_gcd(vals@.take(i as int)),
        decreases n - i,
    {
        assert(vals@.take(i + 1).drop_last() =~= vals@.take(i as int));
        g = compute_gcd(g, vals[i]);
        i = i + 1;
        if g == 1 {
            proof {
                lemma_seq_gcd_stays_one(vals@, i as int);
            }
            return 1;
        }
    }
    assert(vals@.take(n as int) =~= vals@);
    if g == 0 {
        1
    } else {
        g
    }
}

/// Every value of `vals` divided by `divisor`, rounded down.
pub fn quotients(vals: &[u64], divisor: u64) -> (q: Vec<u64>)
    requires
        divisor >= 1,
    ensures
        q@ == quotients_by(vals@, divisor as nat),
{
    let n: usize = vals.len();
    let mut q: Vec<u64> = Vec::with_capacity(n);
    let mut i: usize = 0;
    while i < n
        invariant
            n == vals@.len(),
            i <= n,
            divisor >= 1,
            q@.len() == i,
            forall|j: int| 0 <= j < i ==> #[trigger] q@[j] == quotients_by(vals@, divisor as nat)[j],
        decreases n - i,
    {
        q.push(vals[i] / divisor);
        i = i + 1;
    }
    assert(q@ =~= quotients_by(vals@, divisor as nat));
    q
}

/// A reader that multiplies the divisor back into the quotients that
/// another reader gives.
pub struct GCDReader<R: Column<u64>> {
    divisor: u64,
    reader: R,
}

impl<R: Column<u64> + Clone> Clone for GCDReader<R> {
    /// The same divisor over a clone of the reader of the quotients.
    fn clone(&self) -> (r: GCDReader<R>)
        ensures
            r.spec_divisor() == self.spec_divisor(),
            cloned::<R>(self.inner(), r.inner()),
    {
        GCDReader { divisor: self.divisor, reader: self.reader.clone() }
    }
}

impl<R: Column<u64>> GCDReader<R> {
    /// The reader of the quotients.
    pub closed spec fn inner(&self) -> R {
        self.reader
    }

    /// The divisor.
    pub closed spec fn spec_divisor(&self) -> u64 {
        self.divisor
    }

    /// Puts `divisor` over the quotients that `reader` gives. A divisor of
    /// 0, or one that takes a bound of the column out of the 64-bit range,
    /// is refused as malformed.
    pub fn wrap(reader: R, divisor: u64) -> (r: Result<GCDReader<R>, DataCorruption>)
        requires
            reader.wf(),
        ensures
            match r {
                Ok(wrapped) => {
                    &&& wrapped.wf()
                    &&& wrapped.inner() == reader
                    &&& wrapped.spec_divisor() == divisor
                },
                Err(e) => e == DataCorruption::MalformedFraming,
            },
            r is Ok <==> divisor >= 1 && reader.spec_min_value() * divisor <= u64::MAX
                && reader.spec_max_value() * divisor <= u64::MAX,
    {
        if divisor == 0 {
            return Err(DataCorruption::MalformedFraming);
        }
        let lo: Option<u64> = reader.min_value().checked_mul(divisor);
        let hi: Option<u64> = reader.max_value().checked_mul(divisor);
        if lo.is_none() || hi.is_none() {
            return Err(DataCorruption::MalformedFraming);
        }
        Ok(GCDReader { divisor, reader })
    }

    /// The divisor.
    pub fn divisor(&self) -> (g: u64)
        ensures
            g == self.spec_divisor(),
    {
        self.divisor
    }

    /// The reader of the quotients.
    pub fn quotients(&self) -> (r: &R)
        ensures
            *r == self.inner(),
    {
        &self.reader
    }
}

impl<R: Column<u64>> Column<u64> for GCDReader<R> {
    open spec fn wf(&self) -> bool {
        &&& self.inner().wf()
        &&& self.spec_divisor() >= 1
        &&& self.inner().spec_min_value() * self.spec_divisor() <= u64::MAX
        &&& self.inner().spec_max_value() * self.spec_divisor() <= u64::MAX
    }

    open spec fn values(&self) -> Seq<u64> {
        Seq::new(
            self.inner().values().len(),
            |i: int| scaled(self.inner().values()[i], self.spec_divisor()),
        )
    }

    open spec fn spec_min_value(&self) -> u64 {
        (self.inner().spec_min_value() * self.spec_divisor()) as u64
    }

    open spec fn spec_max_value(&self) -> u64 {
        (self.inner().spec_max_value() * self.spec_divisor()) as u64
    }

    /// The quotient at `idx` times the divisor.
    fn get_val(&self, idx: u64) -> (v: u64)
        ensures
            v == scaled(self.inner().values()[idx as int], self.spec_divisor()),
    {
        self.reader.get_val(idx).wrapping_mul(self.divisor)
    }

    fn min_value(&self) -> (v: u64)
        ensures
            v == self.inner().spec_min_value() * self.spec_divisor(),
    {
        self.reader.min_value() * self.divisor
    }

    fn max_value(&self) -> (v: u64)
        ensures
            v == self.inner().spec_max_value() * self.spec_divisor(),
    {
        self.reader.max_value() * self.divisor
    }

    fn num_vals(&self) -> (n: u64)
        ensures
            n == self.inner().values().len(),
    {
        self.reader.num_vals()
    }
}

} // verus!
