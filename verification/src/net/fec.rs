//! Reed-Solomon forward error correction over slice packets.
//!
//! A lost packet is worth repairing only if the repair beats a retransmission, and on a LAN at
//! 120 fps a round trip costs more than the frame it would rescue. So loss is covered ahead of
//! time: every slice is sent with a few extra packets that let the receiver rebuild whichever
//! originals went missing, without asking for anything back.
//!
//! # Shard layout
//!
//! A slice is cut into fixed-stride fragments, and the receiver stores the fragments it gets in
//! one contiguous matrix at that same stride with a parallel present-bitmap. That is a
//! Reed-Solomon shard matrix. Every shard has to be the same length, so the final one is
//! zero-padded; the padding is never transmitted.
//!
//! # What FEC cannot recover
//!
//! The parity shards restore *bytes*, not *framing*. A recovered final shard comes back
//! zero-padded because the codec has no way to know where the real slice ended.
//!
//! # Block size
//!
//! Reed-Solomon over GF(2^8) cannot address more shards than the field has elements, so a block
//! has a hard ceiling ([`MAX_TOTAL_SHARDS`]). A larger block is refused rather than silently
//! split. Callers size their blocks with [`max_data_shards_for`] and split the slice themselves.

use vstd::prelude::*;

use reed_solomon_erasure::galois_8::ReedSolomon;

use crate::bytes::{overwritten, put_bytes};

verus! {

/// Hard ceiling on the shards in one block, data plus parity.
///
/// Reed-Solomon over GF(2^8) can address at most 256 shards, one per field element. Prism stops
/// one short so a block's shard counts always fit in a `u8`.
pub const MAX_TOTAL_SHARDS: usize = 255;

/// Largest data-shard count in a block, leaving room for the one parity shard that makes the
/// block worth encoding at all.
pub const MAX_DATA_SHARDS: usize = MAX_TOTAL_SHARDS - 1;

/// Floor of the adaptive parity ratio, as a percentage of the data-shard count.
///
/// Parity never drops below this even when the path reports no loss at all. A measured loss
/// rate is always stale by at least one round trip, and the first packets of a burst are lost
/// before any estimator can react to them.
pub const MIN_PARITY_PERCENT: u32 = 10;

/// Ceiling of the adaptive parity ratio, as a percentage of the data-shard count.
///
/// Above this, parity competes with the video bitrate for the same congested path and makes the
/// loss it is trying to cover worse.
pub const MAX_PARITY_PERCENT: u32 = 20;

/// How many distinct block shapes keep a prepared codec.
///
/// Building a codec inverts a matrix as wide as the block, far too slow to redo per frame, so
/// shapes are cached. The cache is small on purpose: each prepared codec carries its own cache
/// of inverted matrices, which grows as distinct loss patterns are seen.
pub const CODEC_CACHE_CAPACITY: usize = 4;

/// Reason a block could not be encoded or repaired.
#[derive(Debug, Clone, Copy, PartialEq, Eq)]
#[allow(inconsistent_fields)]
pub enum FecError {
    /// Block had no bytes, or the caller declared zero data shards.
    EmptyBlock,
    /// Shard length was zero, which would make every shard indistinguishable.
    ZeroShardLen,
    /// Block was asked for no parity, which is not error correction.
    NoParity,
    /// Block needs more shards than GF(2^8) can address.
    ///
    /// The caller must split the slice into several blocks; see [`max_data_shards_for`].
    BlockTooLarge {
        /// Data shards the block would have held.
        data_shards: usize,
        /// Parity shards the block would have held.
        parity_shards: usize,
    },
    /// Data matrix length disagreed with the present-bitmap and the shard length.
    DataLenMismatch {
        /// Bytes actually supplied.
        actual: usize,
        /// Bytes the shard count and shard length require.
        expected: usize,
        /// Shard count taken from the present-bitmap.
        shards: usize,
    },
    /// Parity shards were sized for a different stride than the data shards.
    ShardLenMismatch {
        /// Parity shard length found.
        actual: usize,
        /// Data shard length required.
        expected: usize,
    },
    /// Too much of the block is gone for parity to rebuild it.
    ///
    /// Reed-Solomon needs as many shards present as the block has data shards. This is reported
    /// before anything is written, so the caller's data matrix is untouched and still holds
    /// exactly the shards that genuinely arrived.
    Unrecoverable {
        /// Data shards that were absent.
        missing: usize,
        /// Data plus parity shards that were present.
        present: usize,
        /// Shards that had to be present, equal to the data-shard count.
        needed: usize,
    },
    /// The Reed-Solomon codec rejected the block.
    ///
    /// No function of this module returns it: every shape, length and presence count the codec
    /// checks is checked here first.
    Codec(&'static str),
}

/// What the Reed-Solomon codec can complain of, one variant for each of its own errors.
#[derive(Debug, Clone, Copy, PartialEq, Eq, Structural)]
pub enum CodecFault {
    /// Fewer shards than the shape holds.
    TooFewShards,
    /// More shards than the shape holds or the field can address.
    TooManyShards,
    /// Fewer data shards than the shape holds.
    TooFewDataShards,
    /// More data shards than the shape holds.
    TooManyDataShards,
    /// Fewer parity shards than the shape holds.
    TooFewParityShards,
    /// More parity shards than the shape holds.
    TooManyParityShards,
    /// Fewer buffer shards than the shape needs.
    TooFewBufferShards,
    /// More buffer shards than the shape needs.
    TooManyBufferShards,
    /// Shards of different lengths.
    IncorrectShardSize,
    /// Not enough shards present to rebuild the rest.
    TooFewShardsPresent,
    /// A shard with no bytes.
    EmptyShard,
    /// Flags that do not go with the shards.
    InvalidShardFlags,
    /// A shard index outside the block.
    InvalidIndex,
}

/// The words for a codec fault.
pub open spec fn fault_text(fault: CodecFault) -> Seq<char> {
    match fault {
        CodecFault::TooFewShards => "too few shards"@,
        CodecFault::TooManyShards => "too many shards"@,
        CodecFault::TooFewDataShards => "too few data shards"@,
        CodecFault::TooManyDataShards => "too many data shards"@,
        CodecFault::TooFewParityShards => "too few parity shards"@,
        CodecFault::TooManyParityShards => "too many parity shards"@,
        CodecFault::TooFewBufferShards => "too few buffer shards"@,
        CodecFault::TooManyBufferShards => "too many buffer shards"@,
        CodecFault::IncorrectShardSize => "incorrect shard size"@,
        CodecFault::TooFewShardsPresent => "too few shards present"@,
        CodecFault::EmptyShard => "empty shard"@,
        CodecFault::InvalidShardFlags => "invalid shard flags"@,
        CodecFault::InvalidIndex => "invalid shard index"@,
    }
}

/// Describes a codec fault without leaking the codec's error type into this API.
pub fn codec_error(fault: CodecFault) -> (error: FecError)
    ensures
        error matches FecError::Codec(text) && text@ == fault_text(fault),
{
    FecError::Codec(
        match fault {
            CodecFault::TooFewShards => "too few shards",
            CodecFault::TooManyShards => "too many shards",
            CodecFault::TooFewDataShards => "too few data shards",
            CodecFault::TooManyDataShards => "too many data shards",
            CodecFault::TooFewParityShards => "too few parity shards",
            CodecFault::TooManyParityShards => "too many parity shards",
            CodecFault::TooFewBufferShards => "too few buffer shards",
            CodecFault::TooManyBufferShards => "too many buffer shards",
            CodecFault::IncorrectShardSize => "incorrect shard size",
            CodecFault::TooFewShardsPresent => "too few shards present",
            CodecFault::EmptyShard => "empty shard",
            CodecFault::InvalidShardFlags => "invalid shard flags",
            CodecFault::InvalidIndex => "invalid shard index",
        },
    )
}

/// A loss estimate in whole percent, held inside the parity band.
pub open spec fn banded(percent: nat) -> nat {
    if percent <= MIN_PARITY_PERCENT {
        MIN_PARITY_PERCENT as nat
    } else if percent >= MAX_PARITY_PERCENT {
        MAX_PARITY_PERCENT as nat
    } else {
        percent
    }
}

/// A percentage of a shard count, rounded up.
pub open spec fn parity_ratio(data_shards: nat, percent: nat) -> nat {
    (data_shards * percent + 99) / 100
}

/// Holds a loss estimate in whole percent inside the parity band.
fn loss_percent(percent: u32) -> (held: u32)
    ensures
        held == banded(percent as nat),
{
    if percent <= MIN_PARITY_PERCENT {
        MIN_PARITY_PERCENT
    } else if percent >= MAX_PARITY_PERCENT {
        MAX_PARITY_PERCENT
    } else {
        percent
    }
}

/// Returns `percent` per cent of a shard count, rounded up, without the shard-ceiling cap.
fn raw_parity_shards(data_shards: usize, percent: u32) -> (parity: usize)
    requires
        data_shards <= MAX_TOTAL_SHARDS,
        percent <= MAX_PARITY_PERCENT,
    ensures
        parity == parity_ratio(data_shards as nat, percent as nat),
        parity <= MAX_TOTAL_SHARDS,
        100 * parity >= data_shards * percent,
        100 * parity < data_shards * percent + 100,
{
    assert(data_shards * percent <= 255 * 20) by (nonlinear_arith)
        requires
            data_shards <= 255,
            percent <= 20,
    ;
    (data_shards * percent as usize + 99) / 100
}

/// Returns the parity-shard count for a block of `data_shards` at a measured loss rate.
///
/// `percent` is the loss estimate to the nearest whole percent, with zero for an estimate that
/// is negative or not a number: a broken estimator should not be able to spend a fifth of the
/// bitrate. The estimate is held inside [`MIN_PARITY_PERCENT`]..=[`MAX_PARITY_PERCENT`], the
/// count is that percentage of the data shards rounded up, and it is reduced if the block would
/// otherwise exceed [`MAX_TOTAL_SHARDS`].
///
/// Rounding up is what makes FEC do anything at all on small frames: three shards at the floor
/// is 0.3 shards, which becomes one parity shard rather than none.
#[must_use]
pub fn parity_shards_for(data_shards: usize, percent: u32) -> (parity: usize)
    ensures
        data_shards == 0 || data_shards >= MAX_TOTAL_SHARDS ==> parity == 0,
        0 < data_shards < MAX_TOTAL_SHARDS ==> {
            let ratio = parity_ratio(data_shards as nat, banded(percent as nat));
            let room = MAX_TOTAL_SHARDS - data_shards;
            &&& parity == if ratio < room { ratio as int } else { room as int }
            &&& parity >= 1
        },
        0 < data_shards < MAX_TOTAL_SHARDS ==> {
            let held = if percent < 10 {
                10int
            } else if percent > 20 {
                20int
            } else {
                percent as int
            };
            &&& data_shards + parity <= 255
            &&& 100 * parity >= data_shards * held || data_shards + parity == 255
            &&& 100 * (parity - 1) < data_shards * held
        },
{
    if data_shards == 0 || data_shards >= MAX_TOTAL_SHARDS {
        return 0;
    }
    let held: u32 = loss_percent(percent);
    let uncapped: usize = raw_parity_shards(data_shards, held);
    assert(data_shards * held >= 1) by (nonlinear_arith)
        requires
            data_shards >= 1,
            held >= 10,
    ;
    if uncapped < MAX_TOTAL_SHARDS - data_shards {
        uncapped
    } else {
        MAX_TOTAL_SHARDS - data_shards
    }
}

/// Whether a block of this many data shards still gets its whole share of parity.
pub open spec fn fits_one_block(data_shards: nat, percent: nat) -> bool {
    data_shards + parity_ratio(data_shards, banded(percent)) <= MAX_TOTAL_SHARDS
}

/// Returns the largest data-shard count that still fits one block at this loss rate.
///
/// A slice longer than this many shards has to be cut into several blocks, each encoded
/// separately, because [`parity_shards_for`] would otherwise have to shave the ratio down to fit
/// the ceiling. The answer depends on the loss rate: heavier parity leaves room for fewer data
/// shards.
#[must_use]
pub fn max_data_shards_for(percent: u32) -> (data_shards: usize)
    ensures
        1 <= data_shards <= MAX_DATA_SHARDS,
        fits_one_block(data_shards as nat, percent as nat),
        forall|more: nat|
            data_shards < more <= MAX_DATA_SHARDS ==> !#[trigger] fits_one_block(
                more,
                percent as nat,
            ),
{
    let held: u32 = loss_percent(percent);
    let mut data_shards: usize = MAX_DATA_SHARDS;
    while data_shards > 1 && data_shards + raw_parity_shards(data_shards, held) > MAX_TOTAL_SHARDS
        invariant
            held == banded(percent as nat),
            held <= MAX_PARITY_PERCENT,
            1 <= data_shards <= MAX_DATA_SHARDS,
            forall|more: nat|
                data_shards < more <= MAX_DATA_SHARDS ==> !#[trigger] fits_one_block(
                    more,
                    percent as nat,
                ),
        decreases data_shards,
    {
        data_shards = data_shards - 1;
    }
    data_shards
}

/// The parity of a block is the least whole number of shards that makes up the loss: one shard
/// fewer would fall short of the percentage. The percentage is the loss itself where that is
/// between ten and twenty, and the nearer of the two where it is not.
pub proof fn parity_is_the_least_that_makes_up_the_loss(data_shards: nat, percent: nat)
    ensures
        10 <= banded(percent) <= 20,
        10 <= percent <= 20 ==> banded(percent) == percent,
        percent < 10 ==> banded(percent) == 10,
        percent > 20 ==> banded(percent) == 20,
        100 * parity_ratio(data_shards, banded(percent)) >= data_shards * banded(percent),
        100 * parity_ratio(data_shards, banded(percent)) < data_shards * banded(percent) + 100,
{
}

/// A block fits where the whole share of parity does: where the room that its data leaves is
/// at least the percentage of that data.
pub proof fn a_block_fits_where_its_share_does(data_shards: nat, percent: nat)
    ensures
        fits_one_block(data_shards, percent) <==> data_shards * banded(percent) <= 100 * (255
            - data_shards),
{
    parity_is_the_least_that_makes_up_the_loss(data_shards, percent);
}

/// More loss never leaves room for more data in a block.
pub proof fn heavier_loss_means_smaller_blocks(data_shards: nat, light: nat, heavy: nat)
    requires
        light <= heavy,
        fits_one_block(data_shards, heavy),
    ensures
        fits_one_block(data_shards, light),
{
    assert(data_shards * banded(light) <= data_shards * banded(heavy)) by (nonlinear_arith)
        requires
            banded(light) <= banded(heavy),
    ;
}

/// How many entries of a bitmap are set.
pub open spec fn count_set(flags: Seq<bool>) -> nat
    decreases flags.len(),
{
    if flags.len() == 0 {
        0
    } else {
        count_set(flags.drop_last()) + if flags.last() { 1nat } else { 0nat }
    }
}

/// A bitmap has no more entries set than it has entries.
pub proof fn lemma_count_set_bound(flags: Seq<bool>)
    ensures
        count_set(flags) <= flags.len(),
        count_set(flags) == flags.len() <==> (forall|i: int| 0 <= i < flags.len() ==> flags[i]),
    decreases flags.len(),
{
    if flags.len() > 0 {
        lemma_count_set_bound(flags.drop_last());
        if forall|i: int| 0 <= i < flags.len() ==> flags[i] {
            assert forall|i: int| 0 <= i < flags.drop_last().len() implies flags.drop_last()[i] by {
                assert(flags[i]);
            }
            assert(flags.last());
        }
        if count_set(flags) == flags.len() {
            assert forall|i: int| 0 <= i < flags.len() implies flags[i] by {
                if i < flags.len() - 1 {
                    assert(flags.drop_last()[i]);
                }
            }
        }
    }
}

/// Setting one entry that was clear adds one to the count.
pub proof fn lemma_count_set_update(flags: Seq<bool>, at: int)
    requires
        0 <= at < flags.len(),
        !flags[at],
    ensures
        count_set(flags.update(at, true)) == count_set(flags) + 1,
    decreases flags.len(),
{
    let after = flags.update(at, true);
    if at == flags.len() - 1 {
        assert(after.drop_last() =~= flags.drop_last());
    } else {
        assert(after.drop_last() =~= flags.drop_last().update(at, true));
        lemma_count_set_update(flags.drop_last(), at);
    }
}

/// The counts of two bitmaps put end to end add up.
pub proof fn lemma_count_set_concat(first: Seq<bool>, second: Seq<bool>)
    ensures
        count_set(first + second) == count_set(first) + count_set(second),
    decreases second.len(),
{
    if second.len() == 0 {
        assert(first + second =~= first);
    } else {
        assert((first + second).drop_last() =~= first + second.drop_last());
        lemma_count_set_concat(first, second.drop_last());
    }
}

/// Counts the entries of a bitmap that are set.
fn count_present(flags: &[bool]) -> (count: usize)
    ensures
        count == count_set(flags@),
        count <= flags@.len(),
{
    let mut count: usize = 0;
    let mut i: usize = 0;
    while i < flags.len()
        invariant
            i <= flags@.len(),
            count <= i,
            count == count_set(flags@.take(i as int)),
        decreases flags@.len() - i,
    {
        assert(flags@.take(i + 1).drop_last() =~= flags@.take(i as int));
        if flags[i] {
            count = count + 1;
        }
        i = i + 1;
    }
    assert(flags@.take(flags@.len() as int) =~= flags@);
    count
}

/// How many shards of `shard_len` bytes a block of `len` bytes is cut into.
pub open spec fn shard_count_of(len: nat, shard_len: nat) -> nat {
    ((len + shard_len - 1) / shard_len as int) as nat
}

/// Shard `index` of a block: its bytes at that stride, with zeros past the block's end.
pub open spec fn shard_of(block: Seq<u8>, shard_len: nat, index: int) -> Seq<u8> {
    Seq::new(
        shard_len,
        |j: int|
            if index * shard_len + j < block.len() {
                block[index * shard_len + j]
            } else {
                0
            },
    )
}

/// The data shards of a block.
pub open spec fn data_shards_of(block: Seq<u8>, shard_len: nat) -> Seq<Seq<u8>> {
    Seq::new(shard_count_of(block.len(), shard_len), |i: int| shard_of(block, shard_len, i))
}

/// A block and the zeros that fill up its last shard.
pub open spec fn padded(block: Seq<u8>, shard_len: nat) -> Seq<u8> {
    Seq::new(
        shard_count_of(block.len(), shard_len) * shard_len,
        |k: int|
            if k < block.len() {
                block[k]
            } else {
                0
            },
    )
}

/// The rows of a matrix stored one after another.
pub open spec fn matrix_rows(data: Seq<u8>, shard_len: nat, rows: nat) -> Seq<Seq<u8>> {
    Seq::new(rows, |i: int| data.subrange(i * shard_len, (i + 1) * shard_len))
}

/// Row `index` of a matrix lies inside it.
pub proof fn lemma_row_inside(index: int, rows: int, shard_len: int)
    requires
        0 <= index < rows,
        0 <= shard_len,
    ensures
        0 <= index * shard_len,
        index * shard_len + shard_len == (index + 1) * shard_len,
        (index + 1) * shard_len <= rows * shard_len,
{
    assert(index * shard_len + shard_len == (index + 1) * shard_len) by (nonlinear_arith);
    assert((index + 1) * shard_len <= rows * shard_len) by (nonlinear_arith)
        requires
            0 <= index < rows,
            0 <= shard_len,
    ;
    assert(0 <= index * shard_len) by (nonlinear_arith)
        requires
            0 <= index,
            0 <= shard_len,
    ;
}

/// Two matrices with the same rows are the same matrix.
pub proof fn lemma_rows_determine(left: Seq<u8>, right: Seq<u8>, shard_len: nat, rows: nat)
    requires
        shard_len > 0,
        left.len() == rows * shard_len,
        right.len() == rows * shard_len,
        forall|i: int|
            0 <= i < rows ==> #[trigger] matrix_rows(left, shard_len, rows)[i] == matrix_rows(
                right,
                shard_len,
                rows,
            )[i],
    ensures
        left == right,
{
    assert forall|k: int| 0 <= k < left.len() implies left[k] == right[k] by {
        let i = k / shard_len as int;
        let j = k % shard_len as int;
        vstd::arithmetic::div_mod::lemma_fundamental_div_mod(k, shard_len as int);
        assert(0 <= i < rows) by (nonlinear_arith)
            requires
                0 <= k < rows * shard_len,
                k == shard_len * i + j,
                0 <= j < shard_len,
        ;
        assert(shard_len * i == i * shard_len) by (nonlinear_arith);
        lemma_row_inside(i, rows as int, shard_len as int);
        assert(matrix_rows(left, shard_len, rows)[i][j] == left[k]);
        assert(matrix_rows(right, shard_len, rows)[i][j] == right[k]);
    }
    assert(left =~= right);
}

/// The rows of a padded block are its shards.
pub proof fn lemma_padded_rows(block: Seq<u8>, shard_len: nat)
    requires
        shard_len > 0,
    ensures
        matrix_rows(padded(block, shard_len), shard_len, shard_count_of(block.len(), shard_len))
            == data_shards_of(block, shard_len),
{
    let rows = shard_count_of(block.len(), shard_len);
    let whole = padded(block, shard_len);
    assert forall|i: int| 0 <= i < rows implies #[trigger] matrix_rows(whole, shard_len, rows)[i]
        == data_shards_of(block, shard_len)[i] by {
        lemma_row_inside(i, rows as int, shard_len as int);
        assert(matrix_rows(whole, shard_len, rows)[i] =~= shard_of(block, shard_len, i));
    }
    assert(matrix_rows(whole, shard_len, rows) =~= data_shards_of(block, shard_len));
}

/// Caller-owned storage for one block's parity shards.
///
/// The sender fills it with [`FecCodec::encode`] and transmits the shards; the receiver sizes it
/// with [`ParityBlock::reset`], writes whichever parity packets arrived into
/// [`ParityBlock::shard_mut`], and hands it to [`FecCodec::reconstruct`]. One type serves both
/// because the receiver's parity is just a partly filled version of the sender's.
#[derive(Debug, Clone, PartialEq, Eq)]
pub struct ParityBlock {
    shards: Vec<Vec<u8>>,
    present: Vec<bool>,
    shard_len: usize,
}

impl Default for ParityBlock {
    /// Creates an empty block; identical to [`ParityBlock::new`].
    fn default() -> (block: Self)
        ensures
            block.wf(),
            block.rows() == Seq::<Seq<u8>>::empty(),
            block.stride() == 0,
    {
        ParityBlock::new()
    }
}

/// What a block of parity shards holds.
#[verifier::ext_equal]
pub struct ParityModel {
    /// The shards, in order.
    pub rows: Seq<Seq<u8>>,
    /// Which shards are marked present.
    pub flags: Seq<bool>,
    /// The length of each shard.
    pub stride: nat,
}

impl View for ParityBlock {
    type V = ParityModel;

    open spec fn view(&self) -> ParityModel {
        ParityModel { rows: self.rows(), flags: self.flags(), stride: self.stride() }
    }
}

impl ParityBlock {
    /// The shards, in order.
    pub closed spec fn rows(&self) -> Seq<Seq<u8>> {
        Seq::new(self.shards@.len(), |i: int| self.shards@[i]@)
    }

    /// Which shards are marked present.
    pub closed spec fn flags(&self) -> Seq<bool> {
        self.present@
    }

    /// The length of each shard.
    pub closed spec fn stride(&self) -> nat {
        self.shard_len as nat
    }

    /// One flag for every shard, and every shard as long as the block says.
    pub open spec fn wf(&self) -> bool {
        &&& self.flags().len() == self.rows().len()
        &&& forall|i: int| 0 <= i < self.rows().len() ==> #[trigger] self.rows()[i].len()
            == self.stride()
    }

    /// Creates an empty block that has not yet been sized.
    #[must_use]
    pub fn new() -> (block: Self)
        ensures
            block.wf(),
            block.rows() == Seq::<Seq<u8>>::empty(),
            block.stride() == 0,
    {
        let block = ParityBlock { shards: Vec::new(), present: Vec::new(), shard_len: 0 };
        assert(block.rows() =~= Seq::<Seq<u8>>::empty());
        block
    }

    /// Resizes the block to `count` shards of `shard_len` bytes, all marked absent.
    ///
    /// Shard bytes are zeroed, so a shard left absent never exposes the previous frame's content
    /// to anything that reads it by mistake.
    pub fn reset(&mut self, count: usize, shard_len: usize)
        ensures
            final(self).wf(),
            final(self).stride() == shard_len,
            final(self).rows() == Seq::new(
                count as nat,
                |i: int| Seq::new(shard_len as nat, |j: int| 0u8),
            ),
            final(self).flags() == Seq::new(count as nat, |i: int| false),
    {
        self.shard_len = shard_len;
        self.shards = zeroed(count, shard_len);
        self.present = vec![false; count];
        assert(self.rows() =~= contents(self.shards@));
        assert(self.flags() =~= Seq::new(count as nat, |i: int| false));
    }

    /// Takes shards that are all there, each `shard_len` bytes.
    fn fill(&mut self, shards: Vec<Vec<u8>>, shard_len: usize)
        requires
            all_of_len(contents(shards@), shard_len as nat),
        ensures
            final(self).wf(),
            final(self).stride() == shard_len,
            final(self).rows() == contents(shards@),
            final(self).flags() == Seq::new(shards@.len(), |i: int| true),
    {
        self.shard_len = shard_len;
        self.present = vec![true; shards.len()];
        self.shards = shards;
        assert(self.rows() =~= contents(shards@));
        assert(self.flags() =~= Seq::new(shards@.len(), |i: int| true));
    }

    /// Returns how many parity shards this block is sized for.
    #[must_use]
    pub fn shard_count(&self) -> (count: usize)
        ensures
            count == self.rows().len(),
    {
        self.shards.len()
    }

    /// Returns the length of each shard in bytes, or zero before the first [`Self::reset`].
    #[must_use]
    pub fn shard_len(&self) -> (len: usize)
        ensures
            len == self.stride(),
    {
        self.shard_len
    }

    /// Returns how many shards are marked present.
    #[must_use]
    pub fn present_count(&self) -> (count: usize)
        ensures
            count == count_set(self.flags()),
            count <= self.flags().len(),
    {
        count_present(self.present.as_slice())
    }

    /// Returns whether the shard at `index` is marked present.
    ///
    /// An out-of-range index reads as absent rather than panicking, because indices on this path
    /// come off the wire.
    #[must_use]
    pub fn is_present(&self, index: usize) -> (present: bool)
        ensures
            present == (index < self.flags().len() && self.flags()[index as int]),
    {
        index < self.present.len() && self.present[index]
    }

    /// Returns shard `index`, or `None` if the index is out of range.
    ///
    /// The bytes are meaningful only when [`Self::is_present`] holds for the same index.
    #[must_use]
    pub fn shard(&self, index: usize) -> (shard: Option<&[u8]>)
        ensures
            match shard {
                Some(bytes) => index < self.rows().len() && bytes@ == self.rows()[index as int],
                None => index >= self.rows().len(),
            },
    {
        if index >= self.shards.len() {
            return None;
        }
        Some(self.shards[index].as_slice())
    }

    /// Returns shard `index` for writing, or `None` if the index is out of range.
    ///
    /// The receiver must write all of the shard; a parity packet that arrives short is
    /// malformed, and storing it partially would leave the rest of the shard zeroed and quietly
    /// corrupt whatever the block reconstructs. Marking the shard present is a separate step,
    /// [`Self::set_present`], so a caller cannot mark a shard it failed to write.
    pub fn shard_mut(&mut self, index: usize) -> (shard: Option<&mut [u8]>)
        ensures
            match shard {
                Some(bytes) => {
                    &&& index < old(self).rows().len()
                    &&& bytes@ == old(self).rows()[index as int]
                    &&& final(self).rows() == old(self).rows().update(
                        index as int,
                        final(bytes)@,
                    )
                    &&& final(self).flags() == old(self).flags()
                    &&& final(self).stride() == old(self).stride()
                },
                None => index >= old(self).rows().len() && *final(self) == *old(self),
            },
    {
        if index >= self.shards.len() {
            return None;
        }
        let ghost before = self.rows();
        let shard: &mut [u8] = self.shards[index].as_mut_slice();
        Some(shard)
    }

    /// Marks shard `index` present or absent, ignoring an out-of-range index.
    pub fn set_present(&mut self, index: usize, present: bool)
        ensures
            final(self).rows() == old(self).rows(),
            final(self).stride() == old(self).stride(),
            final(self).flags() == if index < old(self).flags().len() {
                old(self).flags().update(index as int, present)
            } else {
                old(self).flags()
            },
    {
        if index < self.present.len() {
            self.present[index] = present;
        }
    }
}

/// The error type of the `reed-solomon-erasure` crate.
#[verifier::external_type_specification]
#[verifier::external_body]
pub struct ExCodecError(reed_solomon_erasure::Error);

/// The Reed-Solomon codec of one block shape: `reed_solomon_erasure::galois_8::ReedSolomon`.
///
/// The crate's type is bounded by a trait of that crate, which is why it is held behind a field
/// here. What is known of it is the shape it was made for, [`codec_shape`], and what the
/// functions that call it say.
#[verifier::external_body]
#[derive(Debug)]
pub struct BlockCodec {
    inner: ReedSolomon,
}

/// The data-shard and parity-shard counts a codec was made for.
pub uninterp spec fn codec_shape(codec: BlockCodec) -> (nat, nat);

/// The parity shards that `encode_sep` of the `reed-solomon-erasure` crate computes over
/// GF(2^8) for the given data shards.
pub uninterp spec fn parity_of(data: Seq<Seq<u8>>, parity_shards: nat) -> Seq<Seq<u8>>;

/// The data shards that `reconstruct_data` of the `reed-solomon-erasure` crate leaves in a block
/// of shards, each with the flag that says whether it was present.
pub uninterp spec fn rebuilt_from(shards: Seq<(Seq<u8>, bool)>, data_shards: nat) -> Seq<Seq<u8>>;

/// The bytes of each shard in a list.
pub open spec fn contents(shards: Seq<Vec<u8>>) -> Seq<Seq<u8>> {
    Seq::new(shards.len(), |i: int| shards[i]@)
}

/// The bytes of each borrowed shard in a list.
pub open spec fn borrowed(shards: Seq<&[u8]>) -> Seq<Seq<u8>> {
    Seq::new(shards.len(), |i: int| shards[i]@)
}

/// The bytes and the flag of each shard in a list.
pub open spec fn flagged(shards: Seq<(Vec<u8>, bool)>) -> Seq<(Seq<u8>, bool)> {
    Seq::new(shards.len(), |i: int| (shards[i].0@, shards[i].1))
}

/// The flags of a list of flagged shards.
pub open spec fn flags_of(shards: Seq<(Seq<u8>, bool)>) -> Seq<bool> {
    Seq::new(shards.len(), |i: int| shards[i].1)
}

/// Whether every shard of a list has the given length.
pub open spec fn all_of_len(shards: Seq<Seq<u8>>, shard_len: nat) -> bool {
    forall|i: int| 0 <= i < shards.len() ==> #[trigger] shards[i].len() == shard_len
}

/// Whether a block of flagged shards has the shape of a codec and enough shards present for the
/// rest to be rebuilt.
pub open spec fn repairable(
    shards: Seq<(Seq<u8>, bool)>,
    shape: (nat, nat),
    shard_len: nat,
) -> bool {
    &&& shard_len > 0
    &&& shards.len() == shape.0 + shape.1
    &&& forall|i: int| 0 <= i < shards.len() ==> (#[trigger] shards[i]).0.len() == shard_len
    &&& count_set(flags_of(shards)) >= shape.0
}

/// Whether the shards that are present are shards of `original` and of its parity.
pub open spec fn drawn_from(shards: Seq<(Seq<u8>, bool)>, original: Seq<Seq<u8>>) -> bool {
    forall|i: int|
        0 <= i < shards.len() && (#[trigger] shards[i]).1 ==> shards[i].0 == if i < original.len() {
            original[i]
        } else {
            parity_of(original, (shards.len() - original.len()) as nat)[i - original.len()]
        }
}

/// Calls `ReedSolomon::new`: a codec of the asked-for shape, which is refused only when either
/// count is zero or the two together exceed the 256 elements of the field.
#[verifier::external_body]
fn new_codec(data_shards: usize, parity_shards: usize) -> (codec: Result<
    BlockCodec,
    reed_solomon_erasure::Error,
>)
    requires
        data_shards + parity_shards <= usize::MAX,
    ensures
        match codec {
            Ok(codec) => {
                &&& codec_shape(codec) == (data_shards as nat, parity_shards as nat)
                &&& data_shards > 0 && parity_shards > 0 && data_shards + parity_shards <= 256
            },
            Err(_) => data_shards == 0 || parity_shards == 0 || data_shards + parity_shards > 256,
        },
{
    Ok(BlockCodec { inner: ReedSolomon::new(data_shards, parity_shards)? })
}

/// Calls `ReedSolomon::encode_sep`: overwrites the parity shards with the parity of the data
/// shards. It succeeds when there are as many of each as the codec was made for, all of one
/// length that is not zero, and leaves the lengths as they are.
#[verifier::external_body]
fn encode_parity(codec: &BlockCodec, data: &Vec<&[u8]>, parity: &mut Vec<Vec<u8>>) -> (done: Result<
    (),
    reed_solomon_erasure::Error,
>)
    ensures
        forall|shard_len: nat|
            {
                &&& shard_len > 0
                &&& data@.len() == codec_shape(*codec).0
                &&& old(parity)@.len() == codec_shape(*codec).1
                &&& #[trigger] all_of_len(borrowed(data@), shard_len)
                &&& all_of_len(contents(old(parity)@), shard_len)
            } ==> {
                &&& done is Ok
                &&& contents(final(parity)@) == parity_of(
                    borrowed(data@),
                    codec_shape(*codec).1,
                )
                &&& all_of_len(contents(final(parity)@), shard_len)
                &&& final(parity)@.len() == old(parity)@.len()
            },
{
    codec.inner.encode_sep(data, parity)
}

/// Calls `ReedSolomon::reconstruct_data`: overwrites the data shards that are not present with
/// what the shards that are present say they were, and touches nothing else.
///
/// It succeeds on a repairable block. When the shards that are present were drawn from some
/// original data shards and their parity, those original shards are what is left: that is what
/// an erasure code is for. On an error nothing is touched.
#[verifier::external_body]
fn rebuild_data(codec: &BlockCodec, shards: &mut Vec<(Vec<u8>, bool)>) -> (done: Result<
    (),
    reed_solomon_erasure::Error,
>)
    ensures
        done is Err ==> *final(shards) == *old(shards),
        forall|shard_len: nat| #[trigger]
            repairable(flagged(old(shards)@), codec_shape(*codec), shard_len) ==> {
                let before = flagged(old(shards)@);
                let after = flagged(final(shards)@);
                let data = codec_shape(*codec).0;
                &&& done is Ok
                &&& after.len() == before.len()
                &&& forall|i: int|
                    0 <= i < after.len() ==> {
                        &&& (#[trigger] after[i]).1 == before[i].1
                        &&& after[i].0.len() == shard_len
                        &&& (i >= data || before[i].1 ==> after[i].0 == before[i].0)
                        &&& (i < data ==> after[i].0 == rebuilt_from(before, data)[i])
                    }
                &&& forall|original: Seq<Seq<u8>>| #[trigger]
                    drawn_from(before, original) && original.len() == data && all_of_len(
                        original,
                        shard_len,
                    ) ==> (forall|i: int|
                        0 <= i < data ==> (#[trigger] after[i]).0 == original[i])
            },
{
    codec.inner.reconstruct_data(shards)
}

/// The fault that an error of the `reed-solomon-erasure` crate stands for.
pub uninterp spec fn fault_behind(error: reed_solomon_erasure::Error) -> CodecFault;

/// Tells the errors of the `reed-solomon-erasure` crate apart, one for one.
#[verifier::external_body]
fn fault_of(error: reed_solomon_erasure::Error) -> (fault: CodecFault)
    ensures
        fault == fault_behind(error),
{
    match error {
        reed_solomon_erasure::Error::TooFewShards => CodecFault::TooFewShards,
        reed_solomon_erasure::Error::TooManyShards => CodecFault::TooManyShards,
        reed_solomon_erasure::Error::TooFewDataShards => CodecFault::TooFewDataShards,
        reed_solomon_erasure::Error::TooManyDataShards => CodecFault::TooManyDataShards,
        reed_solomon_erasure::Error::TooFewParityShards => CodecFault::TooFewParityShards,
        reed_solomon_erasure::Error::TooManyParityShards => CodecFault::TooManyParityShards,
        reed_solomon_erasure::Error::TooFewBufferShards => CodecFault::TooFewBufferShards,
        reed_solomon_erasure::Error::TooManyBufferShards => CodecFault::TooManyBufferShards,
        reed_solomon_erasure::Error::IncorrectShardSize => CodecFault::IncorrectShardSize,
        reed_solomon_erasure::Error::TooFewShardsPresent => CodecFault::TooFewShardsPresent,
        reed_solomon_erasure::Error::EmptyShard => CodecFault::EmptyShard,
        reed_solomon_erasure::Error::InvalidShardFlags => CodecFault::InvalidShardFlags,
        reed_solomon_erasure::Error::InvalidIndex => CodecFault::InvalidIndex,
    }
}

/// One prepared Reed-Solomon codec and the block shape it was built for.
#[derive(Debug)]
struct CachedCodec {
    data_shards: usize,
    parity_shards: usize,
    codec: BlockCodec,
}

/// Why a block of this shape cannot be represented, if it cannot.
pub open spec fn shape_error(data_shards: nat, parity_shards: nat) -> Option<FecError> {
    if data_shards == 0 {
        Some(FecError::EmptyBlock)
    } else if parity_shards == 0 {
        Some(FecError::NoParity)
    } else if data_shards + parity_shards > MAX_TOTAL_SHARDS {
        Some(
            FecError::BlockTooLarge {
                data_shards: data_shards as usize,
                parity_shards: parity_shards as usize,
            },
        )
    } else {
        None
    }
}

/// Rejects a block shape Reed-Solomon cannot represent.
fn check_shape(data_shards: usize, parity_shards: usize) -> (checked: Result<(), FecError>)
    ensures
        match checked {
            Ok(()) => shape_error(data_shards as nat, parity_shards as nat) is None,
            Err(error) => shape_error(data_shards as nat, parity_shards as nat) == Some(error),
        },
{
    if data_shards == 0 {
        return Err(FecError::EmptyBlock);
    }
    if parity_shards == 0 {
        return Err(FecError::NoParity);
    }
    if data_shards > MAX_TOTAL_SHARDS || parity_shards > MAX_TOTAL_SHARDS - data_shards {
        return Err(FecError::BlockTooLarge { data_shards, parity_shards });
    }
    Ok(())
}

/// The shapes a cache holds after one of them was asked for: that one first, then the others in
/// the order they were in, of which the last gives way when a new shape finds the cache full.
pub open spec fn most_recent_first(shapes: Seq<(nat, nat)>, shape: (nat, nat)) -> Seq<(nat, nat)> {
    if shapes.contains(shape) {
        seq![shape] + shapes.remove(shapes.index_of(shape))
    } else if shapes.len() == CODEC_CACHE_CAPACITY {
        seq![shape] + shapes.drop_last()
    } else {
        seq![shape] + shapes
    }
}

/// Why a block cannot be given parity, if it cannot.
pub open spec fn encode_error(len: nat, shard_len: nat, parity_shards: nat) -> Option<FecError> {
    if shard_len == 0 {
        Some(FecError::ZeroShardLen)
    } else if len == 0 {
        Some(FecError::EmptyBlock)
    } else {
        shape_error(shard_count_of(len, shard_len), parity_shards)
    }
}

/// Why a block cannot be rebuilt, if it cannot.
pub open spec fn reconstruct_error(
    len: nat,
    present: Seq<bool>,
    parity: ParityModel,
    shard_len: nat,
) -> Option<FecError> {
    let data_shards = present.len();
    let arrived = count_set(present);
    if shard_len == 0 {
        Some(FecError::ZeroShardLen)
    } else if data_shards == 0 {
        Some(FecError::EmptyBlock)
    } else if len != data_shards * shard_len {
        Some(
            FecError::DataLenMismatch {
                actual: len as usize,
                expected: (data_shards * shard_len) as usize,
                shards: data_shards as usize,
            },
        )
    } else if arrived == data_shards {
        None
    } else if parity.stride != shard_len {
        Some(
            FecError::ShardLenMismatch {
                actual: parity.stride as usize,
                expected: shard_len as usize,
            },
        )
    } else if shape_error(data_shards, parity.rows.len()) is Some {
        shape_error(data_shards, parity.rows.len())
    } else if arrived + count_set(parity.flags) < data_shards {
        Some(
            FecError::Unrecoverable {
                missing: (data_shards - arrived) as usize,
                present: (arrived + count_set(parity.flags)) as usize,
                needed: data_shards as usize,
            },
        )
    } else {
        None
    }
}

/// All the shards of a block as they arrived, each with the flag that says whether it did.
pub open spec fn received(
    data: Seq<u8>,
    present: Seq<bool>,
    parity: ParityModel,
    shard_len: nat,
) -> Seq<(Seq<u8>, bool)> {
    Seq::new(
        present.len() + parity.rows.len(),
        |i: int|
            if i < present.len() {
                (matrix_rows(data, shard_len, present.len())[i], present[i])
            } else {
                (parity.rows[i - present.len()], parity.flags[i - present.len()])
            },
    )
}

/// Whether what arrived is what is left of `block` and of the parity that protects it.
pub open spec fn received_of(
    block: Seq<u8>,
    data: Seq<u8>,
    present: Seq<bool>,
    parity: ParityModel,
    shard_len: nat,
) -> bool {
    &&& shard_count_of(block.len(), shard_len) == present.len()
    &&& drawn_from(received(data, present, parity, shard_len), data_shards_of(block, shard_len))
}

/// A block that was given its parity and then lost shards of either kind is still what is left
/// of that block, so [`FecCodec::reconstruct`] restores it whenever it succeeds.
pub proof fn lost_shards_leave_the_rest_of_the_block(
    block: Seq<u8>,
    data: Seq<u8>,
    present: Seq<bool>,
    parity: ParityModel,
    shard_len: nat,
)
    requires
        present.len() == shard_count_of(block.len(), shard_len),
        parity.flags.len() == parity.rows.len(),
        forall|i: int|
            0 <= i < present.len() && present[i] ==> #[trigger] matrix_rows(
                data,
                shard_len,
                present.len(),
            )[i] == shard_of(block, shard_len, i),
        forall|i: int|
            0 <= i < parity.rows.len() && parity.flags[i] ==> #[trigger] parity.rows[i]
                == parity_of(data_shards_of(block, shard_len), parity.rows.len())[i],
    ensures
        received_of(block, data, present, parity, shard_len),
{
    let all = received(data, present, parity, shard_len);
    let original = data_shards_of(block, shard_len);
    assert forall|i: int| 0 <= i < all.len() && (#[trigger] all[i]).1 implies all[i].0 == if i
        < original.len() {
        original[i]
    } else {
        parity_of(original, (all.len() - original.len()) as nat)[i - original.len()]
    } by {
        if i < original.len() {
            assert(matrix_rows(data, shard_len, present.len())[i] == shard_of(
                block,
                shard_len,
                i,
            ));
        } else {
            assert(parity.rows[i - original.len()] == all[i].0);
        }
    }
}

/// A block of which every data shard arrived is there already.
proof fn lemma_whole_block(
    block: Seq<u8>,
    data: Seq<u8>,
    present: Seq<bool>,
    parity: ParityModel,
    shard_len: nat,
)
    requires
        shard_len > 0,
        data.len() == present.len() * shard_len,
        count_set(present) == present.len(),
        received_of(block, data, present, parity, shard_len),
    ensures
        data == padded(block, shard_len),
{
    let all = received(data, present, parity, shard_len);
    let rows = matrix_rows(data, shard_len, present.len());
    let original = data_shards_of(block, shard_len);
    lemma_count_set_bound(present);
    lemma_padded_rows(block, shard_len);
    assert forall|i: int| 0 <= i < present.len() implies #[trigger] rows[i] == original[i] by {
        assert(all[i].1);
    }
    lemma_rows_determine(data, padded(block, shard_len), shard_len, present.len());
}

/// How a block's length splits into full shards and a tail.
pub proof fn lemma_cut(len: int, shard_len: int)
    requires
        0 < len,
        0 < shard_len,
    ensures
        (len - 1) / shard_len + 1 == shard_count_of(len as nat, shard_len as nat),
        (len / shard_len) * shard_len + len % shard_len == len,
        (len / shard_len) * shard_len <= len,
        0 <= len % shard_len < shard_len,
        shard_count_of(len as nat, shard_len as nat) == len / shard_len + if len % shard_len == 0 {
            0int
        } else {
            1int
        },
        (shard_count_of(len as nat, shard_len as nat) - 1) * shard_len < len,
        len <= shard_count_of(len as nat, shard_len as nat) * shard_len,
{
    let q = len / shard_len;
    let r = len % shard_len;
    vstd::arithmetic::div_mod::lemma_fundamental_div_mod(len, shard_len);
    assert(q * shard_len + r == len) by (nonlinear_arith)
        requires
            len == shard_len * q + r,
    ;
    vstd::arithmetic::div_mod::lemma_mod_bound(len, shard_len);
    let up = len + shard_len - 1;
    if r == 0 {
        assert(up == q * shard_len + (shard_len - 1));
        vstd::arithmetic::div_mod::lemma_fundamental_div_mod_converse(
            up,
            shard_len,
            q,
            shard_len - 1,
        );
        assert((q - 1) * shard_len + shard_len == q * shard_len) by (nonlinear_arith);
        vstd::arithmetic::div_mod::lemma_fundamental_div_mod_converse(
            len - 1,
            shard_len,
            q - 1,
            shard_len - 1,
        );
    } else {
        assert((q + 1) * shard_len == q * shard_len + shard_len) by (nonlinear_arith);
        vstd::arithmetic::div_mod::lemma_fundamental_div_mod_converse(
            up,
            shard_len,
            q + 1,
            r - 1,
        );
        vstd::arithmetic::div_mod::lemma_fundamental_div_mod_converse(len - 1, shard_len, q, r - 1);
    }
    let n = shard_count_of(len as nat, shard_len as nat) as int;
    assert((n - 1) * shard_len + shard_len == n * shard_len) by (nonlinear_arith);
}

/// Makes `count` shards of zeros.
fn zeroed(count: usize, shard_len: usize) -> (shards: Vec<Vec<u8>>)
    ensures
        contents(shards@) == Seq::new(
            count as nat,
            |i: int| Seq::new(shard_len as nat, |j: int| 0u8),
        ),
{
    let mut shards: Vec<Vec<u8>> = Vec::new();
    let mut i: usize = 0;
    while i < count
        invariant
            i <= count,
            shards@.len() == i,
            forall|k: int|
                0 <= k < i ==> #[trigger] shards@[k]@ == Seq::new(
                    shard_len as nat,
                    |j: int| 0u8,
                ),
        decreases count - i,
    {
        let row: Vec<u8> = vec![0u8; shard_len];
        assert(row@ =~= Seq::new(shard_len as nat, |j: int| 0u8));
        shards.push(row);
        i = i + 1;
    }
    assert(contents(shards@) =~= Seq::new(
        count as nat,
        |i: int| Seq::new(shard_len as nat, |j: int| 0u8),
    ));
    shards
}

/// Generates and applies Reed-Solomon parity for slice blocks.
///
/// Holds nothing about any particular block. All it owns is a small cache of prepared codecs and
/// one scratch shard for zero-padding a block's short tail, so that the per-frame calls do no
/// matrix inversion.
#[derive(Debug)]
pub struct FecCodec {
    cache: Vec<CachedCodec>,
    tail: Vec<u8>,
}

impl Default for FecCodec {
    /// Creates a codec with an empty cache; identical to [`FecCodec::new`].
    fn default() -> (codec: Self)
        ensures
            codec.wf(),
            codec.shapes() == Seq::<(nat, nat)>::empty(),
    {
        FecCodec::new()
    }
}

impl FecCodec {
    /// The shapes that have a prepared codec, the one used last first.
    pub closed spec fn shapes(&self) -> Seq<(nat, nat)> {
        Seq::new(
            self.cache@.len(),
            |i: int| (self.cache@[i].data_shards as nat, self.cache@[i].parity_shards as nat),
        )
    }

    /// Every cached codec is one of the shape it is filed under, no shape is filed twice, and
    /// the cache is no larger than it may be.
    pub closed spec fn wf(&self) -> bool {
        &&& self.shapes().no_duplicates()
        &&& self.cache@.len() <= CODEC_CACHE_CAPACITY
        &&& forall|i: int|
            0 <= i < self.cache@.len() ==> codec_shape((#[trigger] self.cache@[i]).codec)
                == self.shapes()[i]
    }

    /// Creates a codec with no prepared shapes.
    ///
    /// The first block of each shape pays for building its codec. Callers that know their shapes
    /// ahead of time can pay that cost off the frame path with [`Self::prepare`].
    #[must_use]
    pub fn new() -> (codec: Self)
        ensures
            codec.wf(),
            codec.shapes() == Seq::<(nat, nat)>::empty(),
    {
        let codec = FecCodec { cache: Vec::new(), tail: Vec::new() };
        assert(codec.shapes() =~= Seq::<(nat, nat)>::empty());
        codec
    }

    /// Returns how many block shapes currently have a prepared codec.
    #[must_use]
    pub fn prepared_shapes(&self) -> (count: usize)
        ensures
            count == self.shapes().len(),
    {
        self.cache.len()
    }

    /// Builds and caches the codec for one block shape.
    ///
    /// Worth calling at session setup for the shapes a stream is expected to use, because
    /// building a codec is the one genuinely expensive thing in this module. Calling it for an
    /// already-prepared shape costs nothing but a lookup.
    pub fn prepare(&mut self, data_shards: usize, parity_shards: usize) -> (prepared: Result<
        (),
        FecError,
    >)
        requires
            old(self).wf(),
        ensures
            final(self).wf(),
            match prepared {
                Ok(()) => {
                    &&& shape_error(data_shards as nat, parity_shards as nat) is None
                    &&& final(self).shapes() == most_recent_first(
                        old(self).shapes(),
                        (data_shards as nat, parity_shards as nat),
                    )
                },
                Err(error) => {
                    &&& shape_error(data_shards as nat, parity_shards as nat) == Some(error)
                    &&& final(self).shapes() == old(self).shapes()
                },
            },
    {
        match check_shape(data_shards, parity_shards) {
            Err(error) => Err(error),
            Ok(()) => self.select_codec(data_shards, parity_shards),
        }
    }

    /// Generates the parity shards for one block.
    ///
    /// `block` is the slice bitstream exactly as the packetizer will cut it: the data shards are
    /// its successive `shard_len`-byte fragments, and the last one is short unless the length
    /// divides evenly. `out` is resized to hold `parity_shards` shards, filled, and marked
    /// entirely present. The data shards are borrowed straight out of `block`; only a short tail
    /// is copied, to be padded.
    pub fn encode(
        &mut self,
        block: &[u8],
        shard_len: usize,
        parity_shards: usize,
        out: &mut ParityBlock,
    ) -> (encoded: Result<(), FecError>)
        requires
            old(self).wf(),
        ensures
            final(self).wf(),
            match encoded {
                Ok(()) => {
                    &&& encode_error(block@.len(), shard_len as nat, parity_shards as nat) is None
                    &&& final(out).wf()
                    &&& final(out).stride() == shard_len
                    &&& final(out).rows().len() == parity_shards
                    &&& final(out).rows() == parity_of(
                        data_shards_of(block@, shard_len as nat),
                        parity_shards as nat,
                    )
                    &&& final(out).flags() == Seq::new(parity_shards as nat, |i: int| true)
                    &&& final(self).shapes() == most_recent_first(
                        old(self).shapes(),
                        (shard_count_of(block@.len(), shard_len as nat), parity_shards as nat),
                    )
                },
                Err(error) => {
                    &&& encode_error(block@.len(), shard_len as nat, parity_shards as nat) == Some(
                        error,
                    )
                    &&& *final(out) == *old(out)
                    &&& final(self).shapes() == old(self).shapes()
                },
            },
    {
        if shard_len == 0 {
            return Err(FecError::ZeroShardLen);
        }
        if block.len() == 0 {
            return Err(FecError::EmptyBlock);
        }
        let data_shards: usize = (block.len() - 1) / shard_len + 1;
        let tail_len: usize = block.len() % shard_len;
        let full_shards: usize = block.len() / shard_len;
        proof {
            lemma_cut(block@.len() as int, shard_len as int);
        }
        match check_shape(data_shards, parity_shards) {
            Err(error) => return Err(error),
            Ok(()) => {},
        }
        if tail_len != 0 {
            self.tail.clear();
            let mut at: usize = block.len() - tail_len;
            while at < block.len()
                invariant
                    block@.len() - tail_len <= at <= block@.len(),
                    tail_len <= block@.len() <= usize::MAX,
                    self.cache == old(self).cache,
                    self.tail@ == block@.subrange(block@.len() - tail_len, at as int),
                decreases block@.len() - at,
            {
                self.tail.push(block[at]);
                assert(self.tail@ =~= block@.subrange(block@.len() - tail_len, at + 1));
                at = at + 1;
            }
            let ghost copied = self.tail@;
            self.tail.resize(shard_len, 0);
            proof {
                let last = shard_of(block@, shard_len as nat, full_shards as int);
                assert(block@.len() - tail_len == full_shards * shard_len);
                assert forall|j: int| 0 <= j < shard_len implies self.tail@[j]
                    == last[j] by {
                    if j < tail_len {
                        assert(self.tail@.subrange(0, tail_len as int)[j] == copied[j]);
                    }
                }
                assert(self.tail@ =~= last);
            }
        }
        assert(self.shapes() =~= old(self).shapes());
        match self.select_codec(data_shards, parity_shards) {
            Err(error) => return Err(error),
            Ok(()) => {},
        }
        let mut shards: Vec<&[u8]> = Vec::new();
        let mut i: usize = 0;
        while i < full_shards
            invariant
                i <= full_shards,
                0 < shard_len,
                full_shards * shard_len <= block@.len() <= usize::MAX,
                shards@.len() == i,
                forall|k: int|
                    0 <= k < i ==> #[trigger] shards@[k]@ == shard_of(
                        block@,
                        shard_len as nat,
                        k,
                    ),
            decreases full_shards - i,
        {
            proof {
                lemma_row_inside(i as int, full_shards as int, shard_len as int);
            }
            let shard: &[u8] = &block[i * shard_len..i * shard_len + shard_len];
            assert(shard@ =~= shard_of(block@, shard_len as nat, i as int));
            shards.push(shard);
            i = i + 1;
        }
        if tail_len != 0 {
            shards.push(self.tail.as_slice());
        }
        proof {
            assert(borrowed(shards@) =~= data_shards_of(block@, shard_len as nat));
        }
        let mut parity: Vec<Vec<u8>> = zeroed(parity_shards, shard_len);
        proof {
            assert(all_of_len(borrowed(shards@), shard_len as nat));
            assert(all_of_len(contents(parity@), shard_len as nat));
            assert(contents(parity@).len() == parity@.len());
        }
        match encode_parity(&self.cache[0].codec, &shards, &mut parity) {
            Err(error) => return Err(codec_error(fault_of(error))),
            Ok(()) => {},
        }
        out.fill(parity, shard_len);
        Ok(())
    }

    /// Rebuilds the missing data shards of one block in place.
    ///
    /// `data` is the receiver's contiguous shard matrix and `data_present` is its parallel
    /// bitmap. `parity` holds whichever parity shards arrived. On success every entry of
    /// `data_present` is set, and the number of shards actually rebuilt is returned.
    ///
    /// Reconstruction is a no-op returning `Ok(0)` when no data shard is missing, so the caller
    /// can hand every slice through this path and pay nothing on the common one.
    ///
    /// A rebuilt final shard is zero-padded out to `shard_len`, because parity carries no record
    /// of where the block's real bytes stopped. A caller that recovers the tail shard must
    /// already know the block's true length; it cannot learn it from here.
    ///
    /// On any error, `data` and `data_present` are left exactly as they were passed in. The
    /// block is never partially repaired, so a caller that gets an error still holds precisely
    /// the shards that genuinely arrived and can fall back to dropping the frame rather than
    /// decoding invented bytes.
    pub fn reconstruct(
        &mut self,
        data: &mut [u8],
        data_present: &mut [bool],
        parity: &mut ParityBlock,
        shard_len: usize,
    ) -> (rebuilt: Result<usize, FecError>)
        requires
            old(self).wf(),
            old(parity).wf(),
            old(data_present)@.len() * shard_len <= usize::MAX,
        ensures
            final(self).wf(),
            *final(parity) == *old(parity),
            final(data)@.len() == old(data)@.len(),
            final(data_present)@.len() == old(data_present)@.len(),
            match rebuilt {
                Ok(count) => {
                    &&& reconstruct_error(
                        old(data)@.len(),
                        old(data_present)@,
                        old(parity)@,
                        shard_len as nat,
                    ) is None
                    &&& count == old(data_present)@.len() - count_set(old(data_present)@)
                    &&& count == 0 ==> final(data)@ == old(data)@
                    &&& count == 0 ==> final(self).shapes() == old(self).shapes()
                    &&& count > 0 ==> forall|i: int|
                        0 <= i < old(data_present)@.len() ==> #[trigger] matrix_rows(
                            final(data)@,
                            shard_len as nat,
                            old(data_present)@.len(),
                        )[i] == rebuilt_from(
                            received(
                                old(data)@,
                                old(data_present)@,
                                old(parity)@,
                                shard_len as nat,
                            ),
                            old(data_present)@.len(),
                        )[i]
                    &&& count > 0 ==> final(self).shapes() == most_recent_first(
                        old(self).shapes(),
                        (old(data_present)@.len(), old(parity).rows().len()),
                    )
                    &&& forall|i: int|
                        0 <= i < final(data_present)@.len() ==> #[trigger] final(data_present)@[i]
                    &&& forall|block: Seq<u8>| #[trigger]
                        received_of(
                            block,
                            old(data)@,
                            old(data_present)@,
                            old(parity)@,
                            shard_len as nat,
                        ) ==> final(data)@ == padded(block, shard_len as nat)
                },
                Err(error) => {
                    &&& reconstruct_error(
                        old(data)@.len(),
                        old(data_present)@,
                        old(parity)@,
                        shard_len as nat,
                    ) == Some(error)
                    &&& final(data)@ == old(data)@
                    &&& final(data_present)@ == old(data_present)@
                    &&& final(self).shapes() == old(self).shapes()
                },
            },
    {
        if shard_len == 0 {
            return Err(FecError::ZeroShardLen);
        }
        let data_shards: usize = data_present.len();
        if data_shards == 0 {
            return Err(FecError::EmptyBlock);
        }
        let expected: usize = data_shards * shard_len;
        if data.len() != expected {
            return Err(
                FecError::DataLenMismatch { actual: data.len(), expected, shards: data_shards },
            );
        }
        let arrived: usize = count_present(data_present);
        let missing: usize = data_shards - arrived;
        let ghost before = data@;
        let ghost flags = data_present@;
        let ghost all = received(before, flags, parity@, shard_len as nat);
        proof {
            lemma_count_set_bound(flags);
        }
        if missing == 0 {
            proof {
                assert forall|block: Seq<u8>| #[trigger]
                    received_of(block, before, flags, parity@, shard_len as nat) implies before
                    == padded(block, shard_len as nat) by {
                    lemma_whole_block(block, before, flags, parity@, shard_len as nat);
                }
            }
            return Ok(0);
        }
        let parity_shards: usize = parity.shard_count();
        if parity.shard_len() != shard_len {
            return Err(
                FecError::ShardLenMismatch { actual: parity.shard_len(), expected: shard_len },
            );
        }
        match check_shape(data_shards, parity_shards) {
            Err(error) => return Err(error),
            Ok(()) => {},
        }
        let present: usize = arrived + parity.present_count();
        if present < data_shards {
            return Err(FecError::Unrecoverable { missing, present, needed: data_shards });
        }
        match self.select_codec(data_shards, parity_shards) {
            Err(error) => return Err(error),
            Ok(()) => {},
        }
        let mut shards: Vec<(Vec<u8>, bool)> = Vec::new();
        let mut i: usize = 0;
        while i < data_shards
            invariant
                i <= data_shards,
                shard_len > 0,
                data_shards == flags.len(),
                data@ == before,
                data_present@ == flags,
                before.len() == data_shards * shard_len,
                before.len() <= usize::MAX,
                shards@.len() == i,
                all == received(before, flags, parity@, shard_len as nat),
                forall|k: int|
                    0 <= k < i ==> (#[trigger] shards@[k]).0@ == all[k].0 && shards@[k].1
                        == all[k].1,
            decreases data_shards - i,
        {
            proof {
                lemma_row_inside(i as int, data_shards as int, shard_len as int);
            }
            let row: Vec<u8> = vstd::slice::slice_to_vec(
                &data[i * shard_len..i * shard_len + shard_len],
            );
            shards.push((row, data_present[i]));
            i = i + 1;
        }
        let mut j: usize = 0;
        while j < parity_shards
            invariant
                j <= parity_shards,
                parity.wf(),
                parity.rows().len() == parity_shards,
                data_shards == flags.len(),
                shards@.len() == data_shards + j,
                all == received(before, flags, parity@, shard_len as nat),
                forall|k: int|
                    0 <= k < data_shards + j ==> (#[trigger] shards@[k]).0@ == all[k].0
                        && shards@[k].1 == all[k].1,
            decreases parity_shards - j,
        {
            let row: Vec<u8> = vstd::slice::slice_to_vec(parity.shards[j].as_slice());
            assert(row@ == parity.rows()[j as int]);
            shards.push((row, parity.present[j]));
            j = j + 1;
        }
        proof {
            assert(flagged(shards@) =~= all);
            assert(flags_of(all) =~= flags + parity.flags());
            lemma_count_set_concat(flags, parity.flags());
            assert forall|k: int| 0 <= k < all.len() implies (#[trigger] all[k]).0.len()
                == shard_len by {
                if k < data_shards {
                    lemma_row_inside(k, data_shards as int, shard_len as int);
                }
            }
            assert(repairable(
                all,
                (data_shards as nat, parity_shards as nat),
                shard_len as nat,
            ));
        }
        match rebuild_data(&self.cache[0].codec, &mut shards) {
            Err(error) => return Err(codec_error(fault_of(error))),
            Ok(()) => {},
        }
        let ghost after = flagged(shards@);
        let mut i: usize = 0;
        while i < data_shards
            invariant
                i <= data_shards,
                shard_len > 0,
                data_shards == flags.len(),
                data_present@.len() == data_shards,
                data@.len() == before.len(),
                before.len() == data_shards * shard_len,
                before.len() <= usize::MAX,
                shards@.len() >= data_shards,
                after == flagged(shards@),
                forall|k: int|
                    0 <= k < data_shards ==> (#[trigger] after[k]).0.len() == shard_len,
                forall|k: int|
                    0 <= k < i ==> #[trigger] matrix_rows(
                        data@,
                        shard_len as nat,
                        data_shards as nat,
                    )[k] == after[k].0,
                forall|k: int| 0 <= k < i ==> data_present@[k],
            decreases data_shards - i,
        {
            let ghost earlier = data@;
            proof {
                lemma_row_inside(i as int, data_shards as int, shard_len as int);
            }
            let at: usize = i * shard_len;
            proof {
                assert(earlier =~= earlier.take(at as int) + earlier.skip(at as int));
                assert(overwritten(earlier, earlier, earlier.take(at as int)));
                assert(shards@[i as int].0@ == after[i as int].0);
            }
            put_bytes(data, at, shards[i].0.as_slice());
            proof {
                let source = after[i as int].0;
                assert(overwritten(data@, earlier, earlier.take(at as int) + source));
                assert forall|k: int| 0 <= k < i + 1 implies #[trigger] matrix_rows(
                    data@,
                    shard_len as nat,
                    data_shards as nat,
                )[k] == after[k].0 by {
                    lemma_row_inside(k, data_shards as int, shard_len as int);
                    if k < i {
                        lemma_row_inside(k, i as int, shard_len as int);
                        assert(matrix_rows(data@, shard_len as nat, data_shards as nat)[k]
                            =~= matrix_rows(earlier, shard_len as nat, data_shards as nat)[k]);
                    } else {
                        assert(matrix_rows(data@, shard_len as nat, data_shards as nat)[k]
                            =~= source);
                    }
                }
            }
            data_present[i] = true;
            i = i + 1;
        }
        proof {
            assert forall|block: Seq<u8>| #[trigger]
                received_of(block, before, flags, parity@, shard_len as nat) implies data@
                == padded(block, shard_len as nat) by {
                let original = data_shards_of(block, shard_len as nat);
                assert(drawn_from(all, original));
                assert(all_of_len(original, shard_len as nat));
                lemma_padded_rows(block, shard_len as nat);
                lemma_rows_determine(
                    data@,
                    padded(block, shard_len as nat),
                    shard_len as nat,
                    data_shards as nat,
                );
            }
        }
        Ok(missing)
    }

    /// Moves the codec for this shape to the front of the cache, building it if new.
    ///
    /// Front-of-cache is where [`Self::encode`] and [`Self::reconstruct`] read it from, so this
    /// is the only place either of them needs to think about the cache at all.
    fn select_codec(&mut self, data_shards: usize, parity_shards: usize) -> (selected: Result<
        (),
        FecError,
    >)
        requires
            old(self).wf(),
            shape_error(data_shards as nat, parity_shards as nat) is None,
        ensures
            final(self).wf(),
            selected is Ok,
            final(self).tail == old(self).tail,
            final(self).shapes() == most_recent_first(
                old(self).shapes(),
                (data_shards as nat, parity_shards as nat),
            ),
            final(self).cache@.len() > 0,
            codec_shape(final(self).cache@[0].codec) == (
                data_shards as nat,
                parity_shards as nat,
            ),
    {
        let ghost before = self.shapes();
        let ghost shape = (data_shards as nat, parity_shards as nat);
        let mut pos: usize = 0;
        while pos < self.cache.len()
            invariant
                pos <= self.cache@.len(),
                *self == *old(self),
                self.wf(),
                self.shapes() == before,
                before.len() == self.cache@.len(),
                shape == (data_shards as nat, parity_shards as nat),
                shape_error(data_shards as nat, parity_shards as nat) is None,
                forall|i: int| 0 <= i < pos ==> before[i] != shape,
            decreases self.cache@.len() - pos,
        {
            if self.cache[pos].data_shards == data_shards && self.cache[pos].parity_shards
                == parity_shards {
                assert(before[pos as int] == shape);
                assert(before.index_of(shape) == pos);
                let found = self.cache.remove(pos);
                self.cache.insert(0, found);
                assert(self.shapes() =~= seq![shape] + before.remove(pos as int));
                assert forall|i: int| 0 <= i < self.cache@.len() implies codec_shape(
                    (#[trigger] self.cache@[i]).codec,
                ) == self.shapes()[i] by {
                    if i == 0 {
                        assert(old(self).cache@[pos as int].codec == self.cache@[0].codec);
                    } else if i <= pos {
                        assert(old(self).cache@[i - 1].codec == self.cache@[i].codec);
                    } else {
                        assert(old(self).cache@[i].codec == self.cache@[i].codec);
                    }
                }
                return Ok(());
            }
            pos = pos + 1;
        }
        assert(!before.contains(shape));
        let codec: BlockCodec = match new_codec(data_shards, parity_shards) {
            Ok(codec) => codec,
            Err(error) => return Err(codec_error(fault_of(error))),
        };
        if self.cache.len() == CODEC_CACHE_CAPACITY {
            self.cache.pop();
        }
        let ghost kept = self.shapes();
        self.cache.insert(0, CachedCodec { data_shards, parity_shards, codec });
        proof {
            assert(kept =~= before || kept =~= before.drop_last());
            assert(self.shapes() =~= seq![shape] + kept);
            assert forall|i: int| 0 <= i < self.cache@.len() implies codec_shape(
                (#[trigger] self.cache@[i]).codec,
            ) == self.shapes()[i] by {
                if i > 0 {
                    assert(old(self).cache@[i - 1].codec == self.cache@[i].codec);
                }
            }
        }
        Ok(())
    }
}

/// The data shards of a block hold every byte of it in its place, one shard after another, and
/// zeros past its end; and there are just as many of them as it takes.
pub proof fn the_shards_hold_every_byte_of_the_block(block: Seq<u8>, shard_len: nat, i: int, j: int)
    requires
        block.len() > 0,
        shard_len > 0,
        0 <= i < data_shards_of(block, shard_len).len(),
        0 <= j < shard_len,
    ensures
        ({
            let shards = data_shards_of(block, shard_len);
            &&& (shards.len() - 1) * shard_len < block.len() <= shards.len() * shard_len
            &&& shards[i].len() == shard_len
            &&& i * shard_len + j < block.len() ==> shards[i][j] == block[i * shard_len + j]
            &&& i * shard_len + j >= block.len() ==> shards[i][j] == 0
        }),
{
    let count = shard_count_of(block.len(), shard_len) as int;
    lemma_cut(block.len() as int, shard_len as int);
    assert(count * shard_len == (count - 1) * shard_len + shard_len) by (nonlinear_arith);
}

/// As many entries of a bitmap are counted as are set.
pub proof fn a_count_is_of_what_is_set(flags: Seq<bool>)
    ensures
        Set::new(|i: int| 0 <= i < flags.len() && flags[i]).finite(),
        Set::new(|i: int| 0 <= i < flags.len() && flags[i]).len() == count_set(flags),
    decreases flags.len(),
{
    let set = Set::new(|i: int| 0 <= i < flags.len() && flags[i]);
    if flags.len() == 0 {
        assert(set =~= Set::empty());
    } else {
        let before = flags.drop_last();
        let last = flags.len() - 1;
        let earlier = Set::new(|i: int| 0 <= i < before.len() && before[i]);
        a_count_is_of_what_is_set(before);
        if flags[last] {
            assert(set =~= earlier.insert(last));
            assert(!earlier.contains(last));
        } else {
            assert(set =~= earlier);
        }
    }
}


/// A block can be repaired where the shards that are there, data and parity, whichever they are,
/// are as many as it has data shards, and cannot where they are fewer; one that lacks nothing
/// needs no parity at all.
pub proof fn a_block_is_repaired_from_as_many_shards_as_it_has_data(
    present: Seq<bool>,
    parity: ParityModel,
    shard_len: nat,
)
    requires
        shard_len > 0,
        present.len() > 0,
        parity.rows.len() > 0,
        parity.flags.len() == parity.rows.len(),
        parity.stride == shard_len,
        present.len() + parity.rows.len() <= 255,
    ensures
        ({
            let there = Set::new(|i: int| 0 <= i < present.len() && present[i]);
            let spare = Set::new(|i: int| 0 <= i < parity.flags.len() && parity.flags[i]);
            let error = reconstruct_error(present.len() * shard_len, present, parity, shard_len);
            &&& there.len() + spare.len() >= present.len() ==> error is None
            &&& there.len() + spare.len() < present.len() ==> error == Some(
                FecError::Unrecoverable {
                    missing: (present.len() - there.len()) as usize,
                    present: (there.len() + spare.len()) as usize,
                    needed: present.len() as usize,
                },
            )
        }),
        (forall|i: int| 0 <= i < present.len() ==> present[i]) ==> reconstruct_error(
            present.len() * shard_len,
            present,
            ParityModel { rows: Seq::empty(), flags: Seq::empty(), stride: 0 },
            shard_len,
        ) is None,
{
    a_count_is_of_what_is_set(present);
    a_count_is_of_what_is_set(parity.flags);
    lemma_count_set_bound(present);
    lemma_count_set_bound(parity.flags);
}

/// A block can be given parity where it holds something, is cut into shards of some length, and
/// its shards and their parity are 255 at most.
pub proof fn a_block_is_encoded_where_its_shards_fit(len: nat, shard_len: nat, parity_shards: nat)
    requires
        len > 0,
        shard_len > 0,
    ensures
        encode_error(len, shard_len, parity_shards) is None <==> 0 < parity_shards && parity_shards
            <= 255 && len <= (255 - parity_shards) * shard_len,
{
    let count = shard_count_of(len, shard_len) as int;
    lemma_cut(len as int, shard_len as int);
    assert(count * shard_len == (count - 1) * shard_len + shard_len) by (nonlinear_arith);
    let room = 255 - parity_shards;
    assert(count <= room <==> len <= room * shard_len) by (nonlinear_arith)
        requires
            (count - 1) * shard_len < len <= count * shard_len,
            shard_len > 0,
    ;
}

/// The codecs that were used most recently are kept: the one asked for comes first, the others
/// follow in the order they were in, and one is given up only where four are there already and the
/// one asked for is not among them, and then the one used longest ago.
pub proof fn the_codecs_used_last_are_kept(shapes: Seq<(nat, nat)>, shape: (nat, nat), at: int)
    requires
        shapes.len() <= 4,
        0 <= at <= shapes.len(),
        at < shapes.len() ==> shapes[at] == shape,
        forall|i: int| 0 <= i < shapes.len() && i != at ==> #[trigger] shapes[i] != shape,
    ensures
        ({
            let after = most_recent_first(shapes, shape);
            &&& after[0] == shape
            &&& after.len() == if at < shapes.len() || shapes.len() == 4 {
                shapes.len()
            } else {
                shapes.len() + 1
            }
            &&& forall|i: int|
                0 <= i < at && i + 1 < after.len() ==> after[i + 1] == #[trigger] shapes[i]
            &&& forall|i: int| at < i < shapes.len() ==> after[i] == #[trigger] shapes[i]
        }),
{
    let after = most_recent_first(shapes, shape);
    if at < shapes.len() {
        assert(shapes.contains(shape));
        let found = shapes.index_of(shape);
        assert(shapes[found] == shape);
        assert(found == at);
    } else {
        assert(!shapes.contains(shape));
    }
}

} // verus!
