//! The blockwise-linear codec: the values are cut into blocks of a fixed
//! size, the last one possibly shorter, and every block gets a line and
//! residuals of its own.
//!
//! Layout: block size (4 bytes), number of values, least value, greatest
//! value (8 bytes each); then for every block its first value, last value
//! and shift (8 bytes each) and the bit width of its stored residuals
//! (1 byte); then the packed residuals of every block, each block from a
//! byte of its own.

use std::sync::Arc;
use vstd::prelude::*;
use vstd::arithmetic::div_mod::{lemma_div_is_ordered, lemma_fundamental_div_mod};
use vstd::slice::slice_subrange;
use crate::bits::{
    is_packing, lemma_low_bits_exact, lemma_packed_is_packing, lemma_packing_read,
    lemma_stream_value_bound, lemma_stream_value_embedded, lemma_value_in_packing, pack, packed,
    packed_len, stream_value, unpack,
};
use crate::column::{
    encodable_len, is_max_of, is_min_of, lemma_min_max_unique, lemma_seq_min_max, min_max, seq_max,
    seq_min, Column,
};
use crate::error::DataCorruption;
use crate::line::{
    fit, fit_first, fit_last, fit_residuals, fit_shift, fit_width, lemma_fit_residual_fits,
    lemma_fit_restores, line_value, restored, Fit,
};
use crate::owned_bytes::OwnedBytes;
use crate::shared::share;
use crate::wire::{
    le_u32, le_u64, lemma_field_len, lemma_le_u32_prefix, lemma_le_u64_embedded,
    lemma_le_u64_prefix, lemma_u32_field, lemma_u64_field, read_u32, read_u64, u32_bytes, u64_bytes,
    write_u32, write_u64, write_u8,
};

verus! {

/// The length of the column header in bytes.
pub const BLOCKWISE_HEADER_LEN: usize = 28;

/// The length of a block header in bytes.
pub const BLOCK_HEADER_LEN: usize = 25;

/// The number of blocks that `n` values make at `bs` values a block.
pub open spec fn num_blocks(n: nat, bs: nat) -> nat {
    if bs == 0 {
        0
    } else if n % bs == 0 {
        n / bs
    } else {
        n / bs + 1
    }
}

/// The number of values in block `k`.
pub open spec fn block_len(n: nat, bs: nat, k: nat) -> nat {
    let rest = n - k * bs;
    if rest >= bs {
        bs
    } else if rest > 0 {
        rest as nat
    } else {
        0
    }
}

/// The values of block `k`.
pub open spec fn block_of(vals: Seq<u64>, bs: nat, k: nat) -> Seq<u64> {
    vals.subrange((k * bs) as int, (k * bs + block_len(vals.len(), bs, k)) as int)
}

/// The number of values in a block but the last.
pub open spec fn bw_block_size(b: Seq<u8>) -> u32 {
    le_u32(b, 0)
}

/// The number of values.
pub open spec fn bw_num_vals(b: Seq<u8>) -> u64 {
    le_u64(b, 4)
}

/// The least value, as the header of `b` gives it.
pub open spec fn bw_min(b: Seq<u8>) -> u64 {
    le_u64(b, 12)
}

/// The greatest value, as the header of `b` gives it.
pub open spec fn bw_max(b: Seq<u8>) -> u64 {
    le_u64(b, 20)
}

/// The number of blocks of the column `b`.
pub open spec fn bw_num_blocks(b: Seq<u8>) -> nat {
    num_blocks(bw_num_vals(b) as nat, bw_block_size(b) as nat)
}

/// The number of values in block `k` of the column `b`.
pub open spec fn bw_block_len(b: Seq<u8>, k: nat) -> nat {
    block_len(bw_num_vals(b) as nat, bw_block_size(b) as nat, k)
}

/// The first value of block `k`.
pub open spec fn bw_block_first(b: Seq<u8>, k: int) -> u64 {
    le_u64(b, 28 + 25 * k)
}

/// The last value of block `k`.
pub open spec fn bw_block_last(b: Seq<u8>, k: int) -> u64 {
    le_u64(b, 28 + 25 * k + 8)
}

/// What is added to every stored residual of block `k`.
pub open spec fn bw_block_shift(b: Seq<u8>, k: int) -> u64 {
    le_u64(b, 28 + 25 * k + 16)
}

/// The bit width of the stored residuals of block `k`.
pub open spec fn bw_block_num_bits(b: Seq<u8>, k: int) -> u8 {
    b[28 + 25 * k + 24]
}

/// The byte at which the packed residuals of block `k` begin: behind the
/// headers, and behind the residuals of the blocks before it.
pub open spec fn bw_data_start(b: Seq<u8>, k: nat) -> nat
    decreases k,
{
    if k == 0 {
        28 + 25 * bw_num_blocks(b)
    } else {
        bw_data_start(b, (k - 1) as nat) + packed_len(
            bw_block_len(b, (k - 1) as nat),
            bw_block_num_bits(b, k - 1) as nat,
        )
    }
}

/// `b` is a blockwise-linear column: a whole header with a block size of
/// at least 1 and bounds in order, a header for every block with a bit
/// width of at most 64, and at least as many bytes behind them as the
/// residuals of all blocks need.
pub open spec fn bw_wellformed(b: Seq<u8>) -> bool {
    &&& b.len() >= 28
    &&& bw_block_size(b) >= 1
    &&& bw_min(b) <= bw_max(b)
    &&& b.len() - 28 >= 25 * bw_num_blocks(b)
    &&& forall|k: int| 0 <= k < bw_num_blocks(b) ==> #[trigger] bw_block_num_bits(b, k) <= 64
    &&& bw_data_start(b, bw_num_blocks(b)) <= b.len()
}

/// Value `i` of the blockwise-linear column `b`: the point of the line of
/// its block, plus the shift of the block, plus the stored residual.
pub open spec fn bw_value(b: Seq<u8>, i: int) -> u64 {
    let k = i / (bw_block_size(b) as int);
    let off = i % (bw_block_size(b) as int);
    restored(
        bw_block_first(b, k),
        bw_block_last(b, k),
        bw_block_len(b, k as nat),
        bw_block_shift(b, k),
        off as nat,
        stream_value(
            b,
            8 * bw_data_start(b, k as nat) + off * bw_block_num_bits(b, k),
            bw_block_num_bits(b, k) as nat,
        ) as u64,
    )
}

/// The values of the blockwise-linear column `b`.
pub open spec fn bw_values(b: Seq<u8>) -> Seq<u64> {
    Seq::new(bw_num_vals(b) as nat, |i: int| bw_value(b, i))
}

/// Every block but the last is full, and no block is empty.
pub proof fn lemma_block_len(n: nat, bs: nat, k: nat)
    requires
        bs >= 1,
        k < num_blocks(n, bs),
    ensures
        k * bs < n,
        1 <= block_len(n, bs, k) <= bs,
        k * bs + block_len(n, bs, k) <= n,
        k + 1 < num_blocks(n, bs) ==> block_len(n, bs, k) == bs,
        k + 1 == num_blocks(n, bs) ==> k * bs + block_len(n, bs, k) == n,
{
    let q = n / bs;
    let r = n % bs;
    lemma_fundamental_div_mod(n as int, bs as int);
    assert(n == q * bs + r) by (nonlinear_arith)
        requires
            n == bs * q + r,
    ;
    if k < q {
        assert((k + 1) * bs <= q * bs) by (nonlinear_arith)
            requires
                k + 1 <= q,
                bs >= 0,
        ;
        assert((k + 1) * bs == k * bs + bs) by (nonlinear_arith);
        if k + 1 == num_blocks(n, bs) {
            assert(r == 0 && q == k + 1);
        }
    } else {
        assert(k == q && r > 0);
    }
}

/// Value `i` lies in block `i / bs`, at position `i % bs`.
pub proof fn lemma_block_index(n: nat, bs: nat, i: nat)
    requires
        bs >= 1,
        i < n,
    ensures
        i / bs < num_blocks(n, bs),
        i % bs < block_len(n, bs, i / bs),
        (i / bs) * bs + i % bs == i,
{
    let q = n / bs;
    let r = n % bs;
    let k = i / bs;
    lemma_fundamental_div_mod(n as int, bs as int);
    lemma_fundamental_div_mod(i as int, bs as int);
    lemma_div_is_ordered(i as int, n as int, bs as int);
    assert(n == q * bs + r) by (nonlinear_arith)
        requires
            n == bs * q + r,
    ;
    assert(i == k * bs + i % bs) by (nonlinear_arith)
        requires
            i == bs * k + i % bs,
    ;
    if k < q {
        assert((k + 1) * bs <= q * bs) by (nonlinear_arith)
            requires
                k + 1 <= q,
                bs >= 0,
        ;
        assert((k + 1) * bs == k * bs + bs) by (nonlinear_arith);
    }
}

/// The residuals of a later block begin no earlier than those of an
/// earlier one.
pub proof fn lemma_data_start_ordered(b: Seq<u8>, j: nat, k: nat)
    requires
        j <= k,
    ensures
        bw_data_start(b, j) <= bw_data_start(b, k),
    decreases k,
{
    if j < k {
        lemma_data_start_ordered(b, j, (k - 1) as nat);
    }
}

/// What a reader keeps of a block.
#[derive(Clone, Copy)]
struct Block {
    first: u64,
    last: u64,
    shift: u64,
    num_bits: u8,
    start: usize,
}

impl Block {
    /// The block holds what the header of block `k` of `b` says, and the
    /// residuals of that block lie within `b`.
    spec fn describes(self, b: Seq<u8>, k: int) -> bool {
        &&& self.first == bw_block_first(b, k)
        &&& self.last == bw_block_last(b, k)
        &&& self.shift == bw_block_shift(b, k)
        &&& self.num_bits == bw_block_num_bits(b, k)
        &&& self.num_bits <= 64
        &&& self.start == bw_data_start(b, k as nat)
        &&& self.start + packed_len(bw_block_len(b, k as nat), self.num_bits as nat) <= b.len()
    }
}

/// A reader of a blockwise-linear column.
pub struct BlockwiseLinearReader {
    data: OwnedBytes,
    block_size: u32,
    num_vals: u64,
    min_value: u64,
    max_value: u64,
    blocks: Arc<Vec<Block>>,
}

impl Clone for BlockwiseLinearReader {
    /// Another reader of the same column, on the same buffer.
    fn clone(&self) -> (r: BlockwiseLinearReader)
        ensures
            r == *self,
    {
        BlockwiseLinearReader {
            data: self.data.clone(),
            block_size: self.block_size,
            num_vals: self.num_vals,
            min_value: self.min_value,
            max_value: self.max_value,
            blocks: share(&self.blocks),
        }
    }
}

/// The number of values in block `k` of a column of `n` values.
fn block_length(n: u64, bs: u32, k: u64) -> (len: u64)
    requires
        bs >= 1,
        k < num_blocks(n as nat, bs as nat),
    ensures
        len == block_len(n as nat, bs as nat, k as nat),
        1 <= len <= bs,
{
    proof {
        lemma_block_len(n as nat, bs as nat, k as nat);
    }
    let rest: u64 = n - k * (bs as u64);
    if rest >= bs as u64 {
        bs as u64
    } else {
        rest
    }
}

impl BlockwiseLinearReader {
    /// The byte region that the reader was opened on.
    pub closed spec fn bytes(&self) -> Seq<u8> {
        self.data@
    }

    /// Opens a reader on `bytes`, or refuses them as no blockwise-linear
    /// column.
    pub fn open(bytes: OwnedBytes) -> (r: Result<BlockwiseLinearReader, DataCorruption>)
        ensures
            match r {
                Ok(reader) => bw_wellformed(bytes@) && reader.wf() && reader.bytes() == bytes@,
                Err(e) => !bw_wellformed(bytes@) && e == DataCorruption::MalformedFraming,
            },
    {
        let len: usize = bytes.len();
        if len < BLOCKWISE_HEADER_LEN {
            return Err(DataCorruption::MalformedFraming);
        }
        let data: &[u8] = bytes.as_slice();
        let block_size: u32 = read_u32(data, 0);
        let num_vals: u64 = read_u64(data, 4);
        let min_value: u64 = read_u64(data, 12);
        let max_value: u64 = read_u64(data, 20);
        if block_size == 0 || min_value > max_value {
            return Err(DataCorruption::MalformedFraming);
        }
        let whole: u64 = num_vals / (block_size as u64);
        let count: u128 = if num_vals % (block_size as u64) == 0 {
            whole as u128
        } else {
            whole as u128 + 1
        };
        if 25 * count > (len - BLOCKWISE_HEADER_LEN) as u128 {
            return Err(DataCorruption::MalformedFraming);
        }
        let nblocks: usize = count as usize;
        let mut blocks: Vec<Block> = Vec::with_capacity(nblocks);
        let mut start: usize = BLOCKWISE_HEADER_LEN + BLOCK_HEADER_LEN * nblocks;
        let mut k: usize = 0;
        while k < nblocks
            invariant
                data@ == bytes@,
                len == data@.len(),
                block_size == bw_block_size(data@),
                block_size >= 1,
                num_vals == bw_num_vals(data@),
                nblocks == bw_num_blocks(data@),
                28 + 25 * nblocks <= len,
                k <= nblocks,
                blocks@.len() == k,
                start == bw_data_start(data@, k as nat),
                start <= len,
                forall|j: int| 0 <= j < k ==> (#[trigger] blocks@[j]).describes(data@, j),
            decreases nblocks - k,
        {
            let at: usize = BLOCKWISE_HEADER_LEN + BLOCK_HEADER_LEN * k;
            let first: u64 = read_u64(data, at);
            let last: u64 = read_u64(data, at + 8);
            let shift: u64 = read_u64(data, at + 16);
            let num_bits: u8 = data[at + 24];
            if num_bits > 64 {
                assert(bw_block_num_bits(data@, k as int) > 64);
                return Err(DataCorruption::MalformedFraming);
            }
            let count_here: u64 = block_length(num_vals, block_size, k as u64);
            assert(count_here * num_bits <= 0xFFFF_FFFF * 64) by (nonlinear_arith)
                requires
                    count_here <= 0xFFFF_FFFF,
                    num_bits <= 64,
            ;
            let need: u64 = (count_here * (num_bits as u64) + 7) / 8;
            if need > (len - start) as u64 {
                proof {
                    lemma_data_start_ordered(data@, (k + 1) as nat, nblocks as nat);
                }
                return Err(DataCorruption::MalformedFraming);
            }
            let block = Block { first, last, shift, num_bits, start };
            assert(block.describes(data@, k as int));
            blocks.push(block);
            start = start + need as usize;
            k = k + 1;
        }
        assert forall|j: int| 0 <= j < nblocks implies #[trigger] bw_block_num_bits(data@, j)
            <= 64 by {
            assert(blocks@[j].describes(data@, j));
        }
        assert(bw_wellformed(data@));
        Ok(
            BlockwiseLinearReader {
                data: bytes,
                block_size,
                num_vals,
                min_value,
                max_value,
                blocks: Arc::new(blocks),
            },
        )
    }

    /// The number of blocks.
    pub fn num_blocks(&self) -> (n: usize)
        requires
            self.wf(),
        ensures
            n == bw_num_blocks(self.bytes()),
    {
        self.blocks.len()
    }

    /// The bit width of the stored residuals of block `k`.
    pub fn block_num_bits(&self, k: usize) -> (w: u8)
        requires
            self.wf(),
            k < bw_num_blocks(self.bytes()),
        ensures
            w == bw_block_num_bits(self.bytes(), k as int),
    {
        self.blocks[k].num_bits
    }
}

impl Column<u64> for BlockwiseLinearReader {
    closed spec fn wf(&self) -> bool {
        &&& bw_wellformed(self.data@)
        &&& self.block_size == bw_block_size(self.data@)
        &&& self.num_vals == bw_num_vals(self.data@)
        &&& self.min_value == bw_min(self.data@)
        &&& self.max_value == bw_max(self.data@)
        &&& self.blocks@.len() == bw_num_blocks(self.data@)
        &&& forall|j: int|
            0 <= j < self.blocks@.len() ==> (#[trigger] self.blocks@[j]).describes(self.data@, j)
    }

    open spec fn values(&self) -> Seq<u64> {
        bw_values(self.bytes())
    }

    open spec fn spec_min_value(&self) -> u64 {
        bw_min(self.bytes())
    }

    open spec fn spec_max_value(&self) -> u64 {
        bw_max(self.bytes())
    }

    /// The point of the line of the block of `idx`, plus the shift of the
    /// block, plus the stored residual at `idx`.
    fn get_val(&self, idx: u64) -> (v: u64)
        ensures
            v == bw_value(self.bytes(), idx as int),
    {
        let bs: u64 = self.block_size as u64;
        let k: u64 = idx / bs;
        let off: u64 = idx % bs;
        proof {
            lemma_block_index(self.num_vals as nat, bs as nat, idx as nat);
        }
        let nblocks: usize = self.blocks.len();
        let block: Block = self.blocks[k as usize];
        assert(block.describes(self.data@, k as int));
        let count_here: u64 = block_length(self.num_vals, self.block_size, k);
        proof {
            lemma_value_in_packing(count_here as nat, block.num_bits as nat, off as nat);
            lemma_stream_value_bound(
                self.data@,
                8 * block.start + off * block.num_bits,
                block.num_bits as nat,
            );
            vstd::arithmetic::power2::lemma2_to64();
            if block.num_bits < 64 {
                vstd::arithmetic::power2::lemma_pow2_strictly_increases(block.num_bits as nat, 64);
            }
        }
        let point: u64 = line_value(block.first, block.last, count_here, off);
        let stored: u64 = unpack(self.data.as_slice(), block.start, off, block.num_bits);
        point.wrapping_add(block.shift).wrapping_add(stored)
    }

    fn min_value(&self) -> (v: u64)
        ensures
            v == bw_min(self.bytes()),
    {
        self.min_value
    }

    fn max_value(&self) -> (v: u64)
        ensures
            v == bw_max(self.bytes()),
    {
        self.max_value
    }

    fn num_vals(&self) -> (n: u64)
        ensures
            n == bw_num_vals(self.bytes()),
    {
        self.num_vals
    }
}

/// The number of bytes that the packed residuals of the blocks before
/// block `k` occupy when `vals` is encoded at `bs` values a block.
pub open spec fn packed_before(vals: Seq<u64>, bs: nat, k: nat) -> nat
    decreases k,
{
    if k == 0 {
        0
    } else {
        packed_before(vals, bs, (k - 1) as nat) + packed_len(
            block_len(vals.len(), bs, (k - 1) as nat),
            fit_width(block_of(vals, bs, (k - 1) as nat)),
        )
    }
}

/// The length of the blockwise-linear column that `vals` is encoded to at
/// `bs` values a block.
pub open spec fn blockwise_len(vals: Seq<u64>, bs: nat) -> nat {
    28 + 25 * num_blocks(vals.len(), bs) + packed_before(vals, bs, num_blocks(vals.len(), bs))
}

/// The header of block `k` of the column `b` holds the fit of block `k`
/// of `vals`.
pub open spec fn block_fitted(b: Seq<u8>, vals: Seq<u64>, bs: nat, k: int) -> bool {
    let block = block_of(vals, bs, k as nat);
    &&& bw_block_first(b, k) == fit_first(block)
    &&& bw_block_last(b, k) == fit_last(block)
    &&& bw_block_shift(b, k) == fit_shift(block)
    &&& bw_block_num_bits(b, k) == fit_width(block)
}

/// The bytes of the column `b` that block `k` owns are the packed
/// residuals of block `k` of `vals`.
pub open spec fn block_packed(b: Seq<u8>, vals: Seq<u64>, bs: nat, k: int) -> bool {
    let block = block_of(vals, bs, k as nat);
    is_packing(
        b.subrange(bw_data_start(b, k as nat) as int, bw_data_start(b, (k + 1) as nat) as int),
        fit_residuals(block),
        fit_width(block),
    )
}

/// The block header that begins at byte `25 * k` of `headers` holds the
/// fit of block `k` of `vals`.
spec fn header_holds(headers: Seq<u8>, vals: Seq<u64>, bs: nat, k: int) -> bool {
    let block = block_of(vals, bs, k as nat);
    &&& le_u64(headers, 25 * k) == fit_first(block)
    &&& le_u64(headers, 25 * k + 8) == fit_last(block)
    &&& le_u64(headers, 25 * k + 16) == fit_shift(block)
    &&& headers[25 * k + 24] == fit_width(block)
}

/// `headers` is the headers of the first `upto` blocks of `vals`.
spec fn headers_hold(headers: Seq<u8>, vals: Seq<u64>, bs: nat, upto: nat) -> bool {
    &&& headers.len() == 25 * upto
    &&& forall|j: int| 0 <= j < upto ==> #[trigger] header_holds(headers, vals, bs, j)
}

/// The bytes of `body` that block `k` owns are the packed residuals of
/// block `k` of `vals`.
spec fn packing_holds(body: Seq<u8>, vals: Seq<u64>, bs: nat, k: int) -> bool {
    let block = block_of(vals, bs, k as nat);
    is_packing(
        body.subrange(
            packed_before(vals, bs, k as nat) as int,
            packed_before(vals, bs, (k + 1) as nat) as int,
        ),
        fit_residuals(block),
        fit_width(block),
    )
}

/// `body` is the packed residuals of the first `upto` blocks of `vals`.
spec fn body_holds(body: Seq<u8>, vals: Seq<u64>, bs: nat, upto: nat) -> bool {
    &&& body.len() == packed_before(vals, bs, upto)
    &&& forall|j: int| 0 <= j < upto ==> #[trigger] packing_holds(body, vals, bs, j)
}

/// The residuals of a later block are packed no earlier than those of an
/// earlier one.
proof fn lemma_packed_before_ordered(vals: Seq<u64>, bs: nat, j: nat, k: nat)
    requires
        j <= k,
    ensures
        packed_before(vals, bs, j) <= packed_before(vals, bs, k),
    decreases k,
{
    if j < k {
        lemma_packed_before_ordered(vals, bs, j, (k - 1) as nat);
    }
}

/// The bytes of the header of a block.
pub open spec fn block_header_bytes(first: u64, last: u64, shift: u64, width: u8) -> Seq<u8> {
    u64_bytes(first) + u64_bytes(last) + u64_bytes(shift) + seq![width]
}

/// The bytes of the header of block `k` of `vals`.
pub open spec fn block_header_of(vals: Seq<u64>, bs: nat, k: nat) -> Seq<u8> {
    let block = block_of(vals, bs, k);
    block_header_bytes(fit_first(block), fit_last(block), fit_shift(block), fit_width(block) as u8)
}

/// The headers of the first `upto` blocks of `vals`, one behind the
/// other.
pub open spec fn block_headers(vals: Seq<u64>, bs: nat, upto: nat) -> Seq<u8>
    decreases upto,
{
    if upto == 0 {
        Seq::empty()
    } else {
        block_headers(vals, bs, (upto - 1) as nat) + block_header_of(vals, bs, (upto - 1) as nat)
    }
}

/// The packed residuals of block `k` of `vals`.
pub open spec fn block_body_of(vals: Seq<u64>, bs: nat, k: nat) -> Seq<u8> {
    let block = block_of(vals, bs, k);
    packed(fit_residuals(block), fit_width(block))
}

/// The packed residuals of the first `upto` blocks of `vals`, one behind
/// the other.
pub open spec fn block_bodies(vals: Seq<u64>, bs: nat, upto: nat) -> Seq<u8>
    decreases upto,
{
    if upto == 0 {
        Seq::empty()
    } else {
        block_bodies(vals, bs, (upto - 1) as nat) + block_body_of(vals, bs, (upto - 1) as nat)
    }
}

/// The bytes of the header of a blockwise-linear column.
pub open spec fn blockwise_header_bytes(block_size: u32, n: u64, lo: u64, hi: u64) -> Seq<u8> {
    u32_bytes(block_size) + u64_bytes(n) + u64_bytes(lo) + u64_bytes(hi)
}

/// The blockwise-linear column that the values `vals` are encoded to at
/// `block_size` values a block: the header with the block size, the
/// number of values and their bounds, then the header of every block,
/// then the packed residuals of every block.
pub open spec fn blockwise_encoding(vals: Seq<u64>, block_size: u32) -> Seq<u8> {
    let blocks = num_blocks(vals.len(), block_size as nat);
    blockwise_header_bytes(block_size, vals.len() as u64, seq_min(vals), seq_max(vals))
        + block_headers(vals, block_size as nat, blocks) + block_bodies(
        vals,
        block_size as nat,
        blocks,
    )
}

/// The fields of a header read back as what was stored.
pub proof fn lemma_blockwise_header(block_size: u32, n: u64, lo: u64, hi: u64)
    ensures
        blockwise_header_bytes(block_size, n, lo, hi).len() == 28,
        bw_block_size(blockwise_header_bytes(block_size, n, lo, hi)) == block_size,
        bw_num_vals(blockwise_header_bytes(block_size, n, lo, hi)) == n,
        bw_min(blockwise_header_bytes(block_size, n, lo, hi)) == lo,
        bw_max(blockwise_header_bytes(block_size, n, lo, hi)) == hi,
{
    let h = blockwise_header_bytes(block_size, n, lo, hi);
    lemma_field_len(n, block_size);
    lemma_field_len(lo, 0);
    lemma_field_len(hi, 0);
    assert(h.subrange(0, 4) =~= u32_bytes(block_size));
    assert(h.subrange(4, 12) =~= u64_bytes(n));
    assert(h.subrange(12, 20) =~= u64_bytes(lo));
    assert(h.subrange(20, 28) =~= u64_bytes(hi));
    lemma_u32_field(h, 0, block_size);
    lemma_u64_field(h, 4, n);
    lemma_u64_field(h, 12, lo);
    lemma_u64_field(h, 20, hi);
}

/// The headers of the first `upto` blocks hold the fits of those blocks.
proof fn lemma_block_headers_hold(vals: Seq<u64>, bs: nat, upto: nat)
    requires
        bs >= 1,
        upto <= num_blocks(vals.len(), bs),
    ensures
        headers_hold(block_headers(vals, bs, upto), vals, bs, upto),
    decreases upto,
{
    if upto > 0 {
        let k = (upto - 1) as nat;
        let at: int = 25 * (k as int);
        lemma_block_headers_hold(vals, bs, k);
        let before = block_headers(vals, bs, k);
        let block = block_of(vals, bs, k);
        let added = block_header_of(vals, bs, k);
        let all = block_headers(vals, bs, upto);
        lemma_block_len(vals.len(), bs, k);
        lemma_fit_residual_fits(block, 0);
        lemma_field_len(fit_first(block), 0);
        lemma_field_len(fit_last(block), 0);
        lemma_field_len(fit_shift(block), 0);
        assert(all.subrange(at, at + 8) =~= u64_bytes(fit_first(block)));
        assert(all.subrange(at + 8, at + 16) =~= u64_bytes(fit_last(block)));
        assert(all.subrange(at + 16, at + 24) =~= u64_bytes(fit_shift(block)));
        lemma_u64_field(all, at, fit_first(block));
        lemma_u64_field(all, at + 8, fit_last(block));
        lemma_u64_field(all, at + 16, fit_shift(block));
        assert(all[at + 24] == added[24]);
        assert forall|j: int| 0 <= j < upto implies #[trigger] header_holds(all, vals, bs, j) by {
            if j < k {
                assert(header_holds(before, vals, bs, j));
                lemma_le_u64_prefix(before, added, 25 * j);
                lemma_le_u64_prefix(before, added, 25 * j + 8);
                lemma_le_u64_prefix(before, added, 25 * j + 16);
                assert(all[25 * j + 24] == before[25 * j + 24]);
            }
        }
    }
}

/// The packed residuals of the first `upto` blocks lie where the encoder
/// plans them.
proof fn lemma_block_bodies_hold(vals: Seq<u64>, bs: nat, upto: nat)
    requires
        bs >= 1,
        upto <= num_blocks(vals.len(), bs),
    ensures
        body_holds(block_bodies(vals, bs, upto), vals, bs, upto),
    decreases upto,
{
    if upto > 0 {
        let k = (upto - 1) as nat;
        lemma_block_bodies_hold(vals, bs, k);
        let before = block_bodies(vals, bs, k);
        let block = block_of(vals, bs, k);
        let added = block_body_of(vals, bs, k);
        let all = block_bodies(vals, bs, upto);
        lemma_block_len(vals.len(), bs, k);
        lemma_packed_is_packing(fit_residuals(block), fit_width(block));
        assert forall|j: int| 0 <= j < upto implies #[trigger] packing_holds(all, vals, bs, j) by {
            let from = packed_before(vals, bs, j as nat) as int;
            let to = packed_before(vals, bs, (j + 1) as nat) as int;
            if j < k {
                assert(packing_holds(before, vals, bs, j));
                lemma_packed_before_ordered(vals, bs, (j + 1) as nat, k);
                assert(all.subrange(from, to) =~= before.subrange(from, to));
            } else {
                assert(all.subrange(from, to) =~= added);
            }
        }
    }
}

/// Every column of at most two to the 64 values, less one, is read back
/// from its blockwise-linear encoding, within its bounds.
pub proof fn lemma_blockwise_round_trip(vals: Seq<u64>, block_size: u32)
    requires
        block_size >= 1,
        vals.len() <= u64::MAX,
    ensures
        bw_wellformed(blockwise_encoding(vals, block_size)),
        bw_values(blockwise_encoding(vals, block_size)) == vals,
        bw_min(blockwise_encoding(vals, block_size)) == seq_min(vals),
        bw_max(blockwise_encoding(vals, block_size)) == seq_max(vals),
        bw_block_size(blockwise_encoding(vals, block_size)) == block_size,
        forall|k: int|
            0 <= k < num_blocks(vals.len(), block_size as nat) ==> #[trigger] block_fitted(
                blockwise_encoding(vals, block_size),
                vals,
                block_size as nat,
                k,
            ),
        blockwise_encoding(vals, block_size).len() == blockwise_len(vals, block_size as nat),
{
    let bs = block_size as nat;
    let nb = num_blocks(vals.len(), bs);
    lemma_seq_min_max(vals);
    lemma_min_max_unique(seq_min(vals), seq_max(vals), vals);
    let fixed = blockwise_header_bytes(block_size, vals.len() as u64, seq_min(vals), seq_max(vals));
    lemma_blockwise_header(block_size, vals.len() as u64, seq_min(vals), seq_max(vals));
    lemma_block_headers_hold(vals, bs, nb);
    lemma_block_bodies_hold(vals, bs, nb);
    lemma_blockwise_encoding(
        blockwise_encoding(vals, block_size),
        fixed,
        block_headers(vals, bs, nb),
        block_bodies(vals, bs, nb),
        vals,
        bs,
    );
}

/// Appends the header of a block.
fn write_block_header(headers: &mut Vec<u8>, first: u64, last: u64, shift: u64, width: u8)
    ensures
        final(headers)@ == old(headers)@ + block_header_bytes(first, last, shift, width),
        final(headers)@.len() == old(headers)@.len() + 25,
        old(headers)@ == final(headers)@.subrange(0, old(headers)@.len() as int),
        le_u64(final(headers)@, old(headers)@.len() as int) == first,
        le_u64(final(headers)@, old(headers)@.len() as int + 8) == last,
        le_u64(final(headers)@, old(headers)@.len() as int + 16) == shift,
        final(headers)@[old(headers)@.len() as int + 24] == width,
        forall|at: int|
            0 <= at && at + 8 <= old(headers)@.len() ==> #[trigger] le_u64(final(headers)@, at)
                == le_u64(old(headers)@, at),
{
    let ghost before = headers@;
    write_u64(headers, first);
    write_u64(headers, last);
    write_u64(headers, shift);
    write_u8(headers, width);
    assert(before =~= headers@.subrange(0, before.len() as int));
    proof {
        lemma_field_len(first, 0);
        lemma_field_len(last, 0);
        lemma_field_len(shift, 0);
        assert(headers@ =~= before + block_header_bytes(first, last, shift, width));
    }
}

/// The header of a blockwise-linear column.
fn blockwise_header(block_size: u32, n: u64, lo: u64, hi: u64) -> (h: Vec<u8>)
    ensures
        h@ == blockwise_header_bytes(block_size, n, lo, hi),
        h@.len() == 28,
        bw_block_size(h@) == block_size,
        bw_num_vals(h@) == n,
        bw_min(h@) == lo,
        bw_max(h@) == hi,
{
    let mut h: Vec<u8> = Vec::with_capacity(BLOCKWISE_HEADER_LEN);
    write_u32(&mut h, block_size);
    write_u64(&mut h, n);
    write_u64(&mut h, lo);
    write_u64(&mut h, hi);
    h
}

/// In a column put together from its header, the block headers and the
/// packed residuals, every block header holds the fit of its block.
proof fn lemma_headers_in_column(
    out: Seq<u8>,
    fixed: Seq<u8>,
    headers: Seq<u8>,
    body: Seq<u8>,
    vals: Seq<u64>,
    bs: nat,
    nb: nat,
)
    requires
        out == fixed + headers + body,
        fixed.len() == 28,
        headers_hold(headers, vals, bs, nb),
    ensures
        bw_block_size(out) == bw_block_size(fixed),
        bw_num_vals(out) == bw_num_vals(fixed),
        bw_min(out) == bw_min(fixed),
        bw_max(out) == bw_max(fixed),
        forall|k: int| 0 <= k < nb ==> #[trigger] block_fitted(out, vals, bs, k),
{
    assert(out =~= fixed + (headers + body));
    lemma_le_u32_prefix(fixed, headers + body, 0);
    lemma_le_u64_prefix(fixed, headers + body, 4);
    lemma_le_u64_prefix(fixed, headers + body, 12);
    lemma_le_u64_prefix(fixed, headers + body, 20);
    assert(out.subrange(28, 28 + headers.len() as int) =~= headers);
    assert forall|k: int| 0 <= k < nb implies #[trigger] block_fitted(out, vals, bs, k) by {
        assert(header_holds(headers, vals, bs, k));
        lemma_le_u64_embedded(out, 28, headers, 25 * k);
        lemma_le_u64_embedded(out, 28, headers, 25 * k + 8);
        lemma_le_u64_embedded(out, 28, headers, 25 * k + 16);
        assert(out[28 + 25 * k + 24] == headers[25 * k + 24]);
    }
}

/// In a column whose block headers hold the fits of the blocks of `vals`,
/// the residuals of block `k` begin where the encoder put them.
proof fn lemma_data_start_planned(out: Seq<u8>, vals: Seq<u64>, bs: nat, k: nat)
    requires
        bw_block_size(out) == bs,
        bw_num_vals(out) == vals.len(),
        k <= num_blocks(vals.len(), bs),
        forall|j: int| 0 <= j < num_blocks(vals.len(), bs) ==> #[trigger] block_fitted(out, vals, bs, j),
    ensures
        bw_data_start(out, k) == 28 + 25 * num_blocks(vals.len(), bs) + packed_before(vals, bs, k),
    decreases k,
{
    if k > 0 {
        lemma_data_start_planned(out, vals, bs, (k - 1) as nat);
        assert(block_fitted(out, vals, bs, k - 1));
    }
}

/// In a column put together by the encoder, value `i` is `vals[i]`.
proof fn lemma_blockwise_value(
    out: Seq<u8>,
    fixed: Seq<u8>,
    headers: Seq<u8>,
    body: Seq<u8>,
    vals: Seq<u64>,
    bs: nat,
    i: int,
)
    requires
        out == fixed + headers + body,
        fixed.len() == 28,
        headers.len() == 25 * num_blocks(vals.len(), bs),
        bs >= 1,
        bw_block_size(out) == bs,
        bw_num_vals(out) == vals.len(),
        forall|j: int| 0 <= j < num_blocks(vals.len(), bs) ==> #[trigger] block_fitted(out, vals, bs, j),
        body_holds(body, vals, bs, num_blocks(vals.len(), bs)),
        0 <= i < vals.len(),
    ensures
        bw_value(out, i) == vals[i],
{
    let n = vals.len();
    let nb = num_blocks(n, bs);
    let k = (i / (bs as int)) as nat;
    let off = i % (bs as int);
    lemma_block_index(n, bs, i as nat);
    lemma_block_len(n, bs, k);
    let block = block_of(vals, bs, k);
    let width = fit_width(block);
    assert(block.len() == block_len(n, bs, k));
    assert(block[off] == vals[i]);
    assert(block_fitted(out, vals, bs, k as int));
    assert(packing_holds(body, vals, bs, k as int));
    lemma_data_start_planned(out, vals, bs, k);
    lemma_packed_before_ordered(vals, bs, k + 1, nb);
    let from = packed_before(vals, bs, k) as int;
    let to = packed_before(vals, bs, k + 1) as int;
    let packing = body.subrange(from, to);
    let start = bw_data_start(out, k) as int;
    assert(out.subrange(start, start + packing.len()) =~= packing);
    lemma_fit_residual_fits(block, off);
    lemma_fit_restores(block, off);
    lemma_packing_read(packing, fit_residuals(block), width, off);
    lemma_low_bits_exact(fit_residuals(block)[off], width);
    assert((off + 1) * width == off * width + width && 0 <= off * width) by (nonlinear_arith)
        requires
            0 <= off,
    ;
    lemma_stream_value_embedded(out, start, packing, off * width, width);
    assert(stream_value(out, 8 * start + off * width, width) == fit_residuals(block)[off]);
}

/// In a column put together by the encoder, the bytes that block `k` owns
/// are the packed residuals of that block.
proof fn lemma_block_in_column(
    out: Seq<u8>,
    fixed: Seq<u8>,
    headers: Seq<u8>,
    body: Seq<u8>,
    vals: Seq<u64>,
    bs: nat,
    k: int,
)
    requires
        out == fixed + headers + body,
        fixed.len() == 28,
        headers.len() == 25 * num_blocks(vals.len(), bs),
        bs >= 1,
        bw_block_size(out) == bs,
        bw_num_vals(out) == vals.len(),
        forall|j: int| 0 <= j < num_blocks(vals.len(), bs) ==> #[trigger] block_fitted(out, vals, bs, j),
        body_holds(body, vals, bs, num_blocks(vals.len(), bs)),
        0 <= k < num_blocks(vals.len(), bs),
    ensures
        block_packed(out, vals, bs, k),
{
    let nb = num_blocks(vals.len(), bs);
    assert(packing_holds(body, vals, bs, k));
    lemma_data_start_planned(out, vals, bs, k as nat);
    lemma_data_start_planned(out, vals, bs, (k + 1) as nat);
    lemma_packed_before_ordered(vals, bs, (k + 1) as nat, nb);
    let from = packed_before(vals, bs, k as nat) as int;
    let to = packed_before(vals, bs, (k + 1) as nat) as int;
    let start = bw_data_start(out, k as nat) as int;
    let end = bw_data_start(out, (k + 1) as nat) as int;
    assert(out.subrange(start, end) =~= body.subrange(from, to));
}

/// A column put together by the encoder is well formed and holds `vals`.
proof fn lemma_blockwise_encoding(
    out: Seq<u8>,
    fixed: Seq<u8>,
    headers: Seq<u8>,
    body: Seq<u8>,
    vals: Seq<u64>,
    bs: nat,
)
    requires
        out == fixed + headers + body,
        fixed.len() == 28,
        bs >= 1,
        bw_block_size(fixed) == bs,
        bw_num_vals(fixed) == vals.len(),
        bw_min(fixed) <= bw_max(fixed),
        headers_hold(headers, vals, bs, num_blocks(vals.len(), bs)),
        body_holds(body, vals, bs, num_blocks(vals.len(), bs)),
    ensures
        bw_wellformed(out),
        bw_values(out) == vals,
        bw_block_size(out) == bw_block_size(fixed),
        bw_min(out) == bw_min(fixed),
        bw_max(out) == bw_max(fixed),
        forall|k: int|
            0 <= k < num_blocks(vals.len(), bs) ==> #[trigger] block_fitted(out, vals, bs, k),
        forall|k: int|
            0 <= k < num_blocks(vals.len(), bs) ==> #[trigger] block_packed(out, vals, bs, k),
        out.len() == blockwise_len(vals, bs),
{
    let nb = num_blocks(vals.len(), bs);
    lemma_headers_in_column(out, fixed, headers, body, vals, bs, nb);
    lemma_data_start_planned(out, vals, bs, nb);
    assert forall|k: int| 0 <= k < bw_num_blocks(out) implies #[trigger] bw_block_num_bits(out, k)
        <= 64 by {
        assert(block_fitted(out, vals, bs, k));
        lemma_block_len(vals.len(), bs, k as nat);
        lemma_fit_residual_fits(block_of(vals, bs, k as nat), 0);
    }
    assert forall|i: int| 0 <= i < vals.len() implies bw_value(out, i) == vals[i] by {
        lemma_blockwise_value(out, fixed, headers, body, vals, bs, i);
    }
    assert(bw_values(out) =~= vals);
    assert forall|k: int| 0 <= k < nb implies #[trigger] block_packed(out, vals, bs, k) by {
        lemma_block_in_column(out, fixed, headers, body, vals, bs, k);
    }
}

/// Encodes `vals` as a blockwise-linear column with `block_size` values a
/// block.
pub fn serialize_blockwise_linear(vals: &[u64], block_size: u32) -> (out: Vec<u8>)
    requires
        block_size >= 1,
        encodable_len(vals@.len()),
    ensures
        out@ == blockwise_encoding(vals@, block_size),
        bw_wellformed(out@),
        bw_values(out@) == vals@,
        is_min_of(bw_min(out@), vals@),
        is_max_of(bw_max(out@), vals@),
        bw_block_size(out@) == block_size,
        forall|k: int|
            0 <= k < num_blocks(vals@.len(), block_size as nat) ==> #[trigger] block_fitted(
                out@,
                vals@,
                block_size as nat,
                k,
            ),
        forall|k: int|
            0 <= k < num_blocks(vals@.len(), block_size as nat) ==> #[trigger] block_packed(
                out@,
                vals@,
                block_size as nat,
                k,
            ),
        out@.len() == blockwise_len(vals@, block_size as nat),
{
    let n: usize = vals.len();
    let (lo, hi) = min_max(vals);
    let bs: usize = block_size as usize;
    let nblocks: usize = if n % bs == 0 {
        n / bs
    } else {
        n / bs + 1
    };
    let mut headers: Vec<u8> = Vec::new();
    let mut body: Vec<u8> = Vec::new();
    let mut k: usize = 0;
    while k < nblocks
        invariant
            n == vals@.len(),
            encodable_len(vals@.len()),
            bs == block_size,
            bs >= 1,
            nblocks == num_blocks(n as nat, bs as nat),
            k <= nblocks,
            headers_hold(headers@, vals@, bs as nat, k as nat),
            body_holds(body@, vals@, bs as nat, k as nat),
            headers@ == block_headers(vals@, bs as nat, k as nat),
            body@ == block_bodies(vals@, bs as nat, k as nat),
        decreases nblocks - k,
    {
        proof {
            lemma_block_len(n as nat, bs as nat, k as nat);
        }
        let begin: usize = k * bs;
        let count: usize = block_length(n as u64, block_size, k as u64) as usize;
        let block: &[u64] = slice_subrange(vals, begin, begin + count);
        assert(block@ == block_of(vals@, bs as nat, k as nat));
        let Fit { shift, width, residuals } = fit(block);
        proof {
            lemma_fit_residual_fits(block@, 0);
        }
        assert(block@.len() * width + 8 <= usize::MAX) by (nonlinear_arith)
            requires
                block@.len() <= n,
                64 * n + 128 <= usize::MAX,
                width <= 64,
        ;
        let mut packed: Vec<u8> = pack(residuals.as_slice(), width);
        let ghost old_headers = headers@;
        let ghost old_body = body@;
        let ghost packing = packed@;
        write_block_header(&mut headers, block[0], block[count - 1], shift, width);
        body.append(&mut packed);
        proof {
            assert forall|j: int| 0 <= j < k + 1 implies #[trigger] header_holds(
                headers@,
                vals@,
                bs as nat,
                j,
            ) by {
                if j < k {
                    assert(header_holds(old_headers, vals@, bs as nat, j));
                    assert(old_headers[25 * j + 24] == headers@[25 * j + 24]);
                }
            }
            assert forall|j: int| 0 <= j < k + 1 implies #[trigger] packing_holds(
                body@,
                vals@,
                bs as nat,
                j,
            ) by {
                let from = packed_before(vals@, bs as nat, j as nat) as int;
                let to = packed_before(vals@, bs as nat, (j + 1) as nat) as int;
                if j < k {
                    assert(packing_holds(old_body, vals@, bs as nat, j));
                    lemma_packed_before_ordered(vals@, bs as nat, (j + 1) as nat, k as nat);
                    assert(body@.subrange(from, to) =~= old_body.subrange(from, to));
                } else {
                    assert(body@.subrange(from, to) =~= packing);
                }
            }
        }
        k = k + 1;
    }
    let mut out: Vec<u8> = blockwise_header(block_size, n as u64, lo, hi);
    let ghost fixed = out@;
    let ghost all_headers = headers@;
    let ghost all_body = body@;
    out.append(&mut headers);
    out.append(&mut body);
    proof {
        lemma_blockwise_encoding(out@, fixed, all_headers, all_body, vals@, bs as nat);
        lemma_min_max_unique(lo, hi, vals@);
    }
    out
}

} // verus!
