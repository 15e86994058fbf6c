//! Fixed-width header fields, least significant byte first.

use vstd::prelude::*;

verus! {

/// The 64-bit number stored in the eight bytes of `b` from `at` on.
#[verifier::opaque]
pub open spec fn le_u64(b: Seq<u8>, at: int) -> u64 {
    (b[at] + b[at + 1] * 0x100 + b[at + 2] * 0x1_0000 + b[at + 3] * 0x100_0000 + b[at + 4]
        * 0x1_0000_0000 + b[at + 5] * 0x100_0000_0000 + b[at + 6] * 0x1_0000_0000_0000 + b[at + 7]
        * 0x100_0000_0000_0000) as u64
}

/// The 32-bit number stored in the four bytes of `b` from `at` on.
#[verifier::opaque]
pub open spec fn le_u32(b: Seq<u8>, at: int) -> u32 {
    (b[at] + b[at + 1] * 0x100 + b[at + 2] * 0x1_0000 + b[at + 3] * 0x100_0000) as u32
}

/// The eight bytes that store `v`.
#[verifier::opaque]
pub open spec fn u64_bytes(v: u64) -> Seq<u8> {
    let q1 = v / 0x100;
    let q2 = q1 / 0x100;
    let q3 = q2 / 0x100;
    let q4 = q3 / 0x100;
    let q5 = q4 / 0x100;
    let q6 = q5 / 0x100;
    let q7 = q6 / 0x100;
    seq![
        (v % 0x100) as u8,
        (q1 % 0x100) as u8,
        (q2 % 0x100) as u8,
        (q3 % 0x100) as u8,
        (q4 % 0x100) as u8,
        (q5 % 0x100) as u8,
        (q6 % 0x100) as u8,
        (q7 % 0x100) as u8,
    ]
}

/// The four bytes that store `v`.
#[verifier::opaque]
pub open spec fn u32_bytes(v: u32) -> Seq<u8> {
    let q1 = v / 0x100;
    let q2 = q1 / 0x100;
    let q3 = q2 / 0x100;
    seq![(v % 0x100) as u8, (q1 % 0x100) as u8, (q2 % 0x100) as u8, (q3 % 0x100) as u8]
}

/// A 64-bit field takes eight bytes, a 32-bit field four.
pub proof fn lemma_field_len(v: u64, w: u32)
    ensures
        u64_bytes(v).len() == 8,
        u32_bytes(w).len() == 4,
{
    reveal(u64_bytes);
    reveal(u32_bytes);
}

/// A 64-bit field reads back as what was stored.
pub proof fn lemma_u64_field(b: Seq<u8>, at: int, v: u64)
    requires
        0 <= at,
        at + 8 <= b.len(),
        b.subrange(at, at + 8) == u64_bytes(v),
    ensures
        le_u64(b, at) == v,
{
    reveal(le_u64);
    reveal(u64_bytes);
    let f = b.subrange(at, at + 8);
    assert(f[0] == b[at] && f[1] == b[at + 1] && f[2] == b[at + 2] && f[3] == b[at + 3]);
    assert(f[4] == b[at + 4] && f[5] == b[at + 5] && f[6] == b[at + 6] && f[7] == b[at + 7]);
    let q1 = v / 0x100;
    let q2 = q1 / 0x100;
    let q3 = q2 / 0x100;
    let q4 = q3 / 0x100;
    let q5 = q4 / 0x100;
    let q6 = q5 / 0x100;
    let q7 = q6 / 0x100;
    assert(q7 < 0x100);
    assert(v == f[0] + 0x100 * q1);
    assert(q1 == f[1] + 0x100 * q2);
    assert(q2 == f[2] + 0x100 * q3);
    assert(q3 == f[3] + 0x100 * q4);
    assert(q4 == f[4] + 0x100 * q5);
    assert(q5 == f[5] + 0x100 * q6);
    assert(q6 == f[6] + 0x100 * q7);
    assert(q7 == f[7]);
}

/// A 32-bit field reads back as what was stored.
pub proof fn lemma_u32_field(b: Seq<u8>, at: int, v: u32)
    requires
        0 <= at,
        at + 4 <= b.len(),
        b.subrange(at, at + 4) == u32_bytes(v),
    ensures
        le_u32(b, at) == v,
{
    reveal(le_u32);
    reveal(u32_bytes);
    let f = b.subrange(at, at + 4);
    assert(f[0] == b[at] && f[1] == b[at + 1] && f[2] == b[at + 2] && f[3] == b[at + 3]);
    let q1 = v / 0x100;
    let q2 = q1 / 0x100;
    let q3 = q2 / 0x100;
    assert(q3 < 0x100);
    assert(v == f[0] + 0x100 * q1);
    assert(q1 == f[1] + 0x100 * q2);
    assert(q2 == f[2] + 0x100 * q3);
    assert(q3 == f[3]);
}

/// Bytes that follow a 64-bit field do not change it.
pub proof fn lemma_le_u64_prefix(a: Seq<u8>, b: Seq<u8>, at: int)
    requires
        0 <= at,
        at + 8 <= a.len(),
    ensures
        le_u64(a + b, at) == le_u64(a, at),
{
    reveal(le_u64);
    let c = a + b;
    assert(c[at] == a[at] && c[at + 1] == a[at + 1] && c[at + 2] == a[at + 2] && c[at + 3] == a[at
        + 3]);
    assert(c[at + 4] == a[at + 4] && c[at + 5] == a[at + 5] && c[at + 6] == a[at + 6] && c[at + 7]
        == a[at + 7]);
}

/// Bytes that follow a 32-bit field do not change it.
pub proof fn lemma_le_u32_prefix(a: Seq<u8>, b: Seq<u8>, at: int)
    requires
        0 <= at,
        at + 4 <= a.len(),
    ensures
        le_u32(a + b, at) == le_u32(a, at),
{
    reveal(le_u32);
    let c = a + b;
    assert(c[at] == a[at] && c[at + 1] == a[at + 1] && c[at + 2] == a[at + 2] && c[at + 3] == a[at
        + 3]);
}

/// A 64-bit field of a region that lies inside a larger one, from byte
/// `off` on, reads there as it reads in the region alone.
pub proof fn lemma_le_u64_embedded(outer: Seq<u8>, off: int, inner: Seq<u8>, at: int)
    requires
        0 <= off,
        off + inner.len() <= outer.len(),
        outer.subrange(off, off + inner.len()) == inner,
        0 <= at,
        at + 8 <= inner.len(),
    ensures
        le_u64(outer, off + at) == le_u64(inner, at),
{
    reveal(le_u64);
    let f = outer.subrange(off, off + inner.len());
    assert(f[at] == outer[off + at] && f[at + 1] == outer[off + at + 1] && f[at + 2] == outer[off
        + at + 2] && f[at + 3] == outer[off + at + 3]);
    assert(f[at + 4] == outer[off + at + 4] && f[at + 5] == outer[off + at + 5] && f[at + 6]
        == outer[off + at + 6] && f[at + 7] == outer[off + at + 7]);
}

/// Bytes that are appended change no field that lies before them.
pub proof fn lemma_fields_kept(a: Seq<u8>, b: Seq<u8>)
    ensures
        forall|at: int| 0 <= at && at + 8 <= a.len() ==> #[trigger] le_u64(a + b, at) == le_u64(a, at),
        forall|at: int| 0 <= at && at + 4 <= a.len() ==> #[trigger] le_u32(a + b, at) == le_u32(a, at),
{
    assert forall|at: int| 0 <= at && at + 8 <= a.len() implies #[trigger] le_u64(a + b, at)
        == le_u64(a, at) by {
        lemma_le_u64_prefix(a, b, at);
    }
    assert forall|at: int| 0 <= at && at + 4 <= a.len() implies #[trigger] le_u32(a + b, at)
        == le_u32(a, at) by {
        lemma_le_u32_prefix(a, b, at);
    }
}

/// Reads the 64-bit field at `at`.
pub fn read_u64(data: &[u8], at: usize) -> (v: u64)
    requires
        at + 8 <= data@.len(),
    ensures
        v == le_u64(data@, at as int),
{
    reveal(le_u64);
    let b0: u64 = data[at] as u64;
    let b1: u64 = data[at + 1] as u64;
    let b2: u64 = data[at + 2] as u64;
    let b3: u64 = data[at + 3] as u64;
    let b4: u64 = data[at + 4] as u64;
    let b5: u64 = data[at + 5] as u64;
    let b6: u64 = data[at + 6] as u64;
    let b7: u64 = data[at + 7] as u64;
    b0 + b1 * 0x100 + b2 * 0x1_0000 + b3 * 0x100_0000 + b4 * 0x1_0000_0000 + b5 * 0x100_0000_0000
        + b6 * 0x1_0000_0000_0000 + b7 * 0x100_0000_0000_0000
}

/// Reads the 32-bit field at `at`.
pub fn read_u32(data: &[u8], at: usize) -> (v: u32)
    requires
        at + 4 <= data@.len(),
    ensures
        v == le_u32(data@, at as int),
{
    reveal(le_u32);
    let b0: u32 = data[at] as u32;
    let b1: u32 = data[at + 1] as u32;
    let b2: u32 = data[at + 2] as u32;
    let b3: u32 = data[at + 3] as u32;
    b0 + b1 * 0x100 + b2 * 0x1_0000 + b3 * 0x100_0000
}

/// Appends `v` as a one-byte field. The fields before it stay as they are.
pub fn write_u8(out: &mut Vec<u8>, v: u8)
    ensures
        final(out)@ == old(out)@.push(v),
        forall|at: int|
            0 <= at && at + 8 <= old(out)@.len() ==> #[trigger] le_u64(final(out)@, at) == le_u64(
                old(out)@,
                at,
            ),
        forall|at: int|
            0 <= at && at + 4 <= old(out)@.len() ==> #[trigger] le_u32(final(out)@, at) == le_u32(
                old(out)@,
                at,
            ),
{
    let ghost before = out@;
    out.push(v);
    proof {
        assert(out@ =~= before + seq![v]);
        lemma_fields_kept(before, seq![v]);
    }
}

/// Appends `v` as a 64-bit field. The fields before it stay as they are.
pub fn write_u64(out: &mut Vec<u8>, v: u64)
    ensures
        final(out)@ == old(out)@ + u64_bytes(v),
        final(out)@.len() == old(out)@.len() + 8,
        le_u64(final(out)@, old(out)@.len() as int) == v,
        forall|at: int|
            0 <= at && at + 8 <= old(out)@.len() ==> #[trigger] le_u64(final(out)@, at) == le_u64(
                old(out)@,
                at,
            ),
        forall|at: int|
            0 <= at && at + 4 <= old(out)@.len() ==> #[trigger] le_u32(final(out)@, at) == le_u32(
                old(out)@,
                at,
            ),
{
    let ghost before = out@;
    let q1: u64 = v / 0x100;
    let q2: u64 = q1 / 0x100;
    let q3: u64 = q2 / 0x100;
    let q4: u64 = q3 / 0x100;
    let q5: u64 = q4 / 0x100;
    let q6: u64 = q5 / 0x100;
    let q7: u64 = q6 / 0x100;
    out.push((v % 0x100) as u8);
    out.push((q1 % 0x100) as u8);
    out.push((q2 % 0x100) as u8);
    out.push((q3 % 0x100) as u8);
    out.push((q4 % 0x100) as u8);
    out.push((q5 % 0x100) as u8);
    out.push((q6 % 0x100) as u8);
    out.push((q7 % 0x100) as u8);
    proof {
        reveal(u64_bytes);
        assert(out@ =~= before + u64_bytes(v));
        assert(out@.subrange(before.len() as int, before.len() as int + 8) =~= u64_bytes(v));
        lemma_u64_field(out@, before.len() as int, v);
        lemma_fields_kept(before, u64_bytes(v));
    }
}

/// Appends `v` as a 32-bit field. The fields before it stay as they are.
pub fn write_u32(out: &mut Vec<u8>, v: u32)
    ensures
        final(out)@ == old(out)@ + u32_bytes(v),
        final(out)@.len() == old(out)@.len() + 4,
        le_u32(final(out)@, old(out)@.len() as int) == v,
        forall|at: int|
            0 <= at && at + 8 <= old(out)@.len() ==> #[trigger] le_u64(final(out)@, at) == le_u64(
                old(out)@,
                at,
            ),
        forall|at: int|
            0 <= at && at + 4 <= old(out)@.len() ==> #[trigger] le_u32(final(out)@, at) == le_u32(
                old(out)@,
                at,
            ),
{
    let ghost before = out@;
    let q1: u32 = v / 0x100;
    let q2: u32 = q1 / 0x100;
    let q3: u32 = q2 / 0x100;
    out.push((v % 0x100) as u8);
    out.push((q1 % 0x100) as u8);
    out.push((q2 % 0x100) as u8);
    out.push((q3 % 0x100) as u8);
    proof {
        reveal(u32_bytes);
        assert(out@ =~= before + u32_bytes(v));
        assert(out@.subrange(before.len() as int, before.len() as int + 4) =~= u32_bytes(v));
        lemma_u32_field(out@, before.len() as int, v);
        lemma_fields_kept(before, u32_bytes(v));
    }
}

} // verus!
