//! The statistics engine: matches per-height derived payout addresses
//! against cached coinbase outputs and aggregates per-miner and global
//! totals into a report.
//!
//! The cryptographic derivation of an address from a viewing key is an
//! external capability: the caller derives one address per miner and
//! height and hands the results in as plain values (`None` where the
//! height is not representable as a derivation index, which skips that
//! height for that miner).

use vstd::prelude::*;

use crate::block::abs_val;
use crate::block::spec_abs_total;
use crate::block::spec_coinbase_total;
use crate::block::spec_matched_value;
use crate::block::BlockModel;
use crate::block::lemma_matched_value_bounded;
use crate::block::lemma_sum_values_bounded;
use crate::cache::spec_block_at;
use crate::cache::spec_contains_height;
use crate::cache::BlockCache;

verus! {

/// One miner as the engine sees it: a display label and the derived payout
/// address for each height of the range, in range order. An entry is
/// `None` when the height cannot be represented as a derivation index:
/// that height is skipped for that miner, non-fatally.
pub struct MinerInput {
    pub label: String,
    pub addresses: Vec<Option<String>>,
}

/// Mathematical image of a miner input.
pub struct MinerModel {
    pub label: Seq<char>,
    pub addresses: Seq<Option<Seq<char>>>,
}

impl View for MinerInput {
    type V = MinerModel;

    open spec fn view(&self) -> MinerModel {
        MinerModel {
            label: self.label@,
            addresses: self.addresses@.map_values(
                |a: Option<String>|
                    match a {
                        Option::Some(s) => Option::Some(s@),
                        Option::None => Option::None,
                    },
            ),
        }
    }
}

/// The policy bound on derivation indices: a height is usable as a
/// non-hardened derivation index exactly when it fits in 31 bits.
pub fn derivation_index_valid(height: u32) -> (r: bool)
    ensures
        r == (height < 0x8000_0000u32),
{
    height < 0x8000_0000u32
}

/// The value miner `m` matches at range offset `i` (height `start + i`):
/// the matched value of the cached block against the derived address, or 0
/// when the height is uncached or has no derived address.
pub open spec fn miner_height_value(
    blocks: Seq<BlockModel>,
    m: MinerModel,
    start: u32,
    i: int,
) -> int {
    if spec_contains_height(blocks, (start + i) as u32) && m.addresses[i] is Some {
        spec_matched_value(spec_block_at(blocks, (start + i) as u32), m.addresses[i]->Some_0)
    } else {
        0
    }
}

/// Miner `m` matches at offset `i` exactly when the matched value there is
/// positive.
pub open spec fn miner_hits_at(blocks: Seq<BlockModel>, m: MinerModel, start: u32, i: int) -> bool {
    miner_height_value(blocks, m, start, i) > 0
}

/// Number of offsets below `n` at which miner `m` matches.
pub open spec fn miner_count_to(
    blocks: Seq<BlockModel>,
    m: MinerModel,
    start: u32,
    n: int,
) -> int
    decreases n,
{
    if n <= 0 {
        0
    } else {
        miner_count_to(blocks, m, start, n - 1) + if miner_hits_at(blocks, m, start, n - 1) {
            1int
        } else {
            0int
        }
    }
}

/// Miner `m`'s own total: the sum of its matched values over the offsets
/// below `n` at which it matches.
pub open spec fn miner_value_to(
    blocks: Seq<BlockModel>,
    m: MinerModel,
    start: u32,
    n: int,
) -> int
    decreases n,
{
    if n <= 0 {
        0
    } else {
        miner_value_to(blocks, m, start, n - 1) + if miner_hits_at(blocks, m, start, n - 1) {
            miner_height_value(blocks, m, start, n - 1)
        } else {
            0
        }
    }
}

/// Mathematical image of one detail row.
pub struct DetailModel {
    pub block_height: u32,
    pub block_hash: Seq<char>,
    pub payout_address: Seq<char>,
}

/// The detail rows of miner `m` for offsets below `n`, in height order:
/// one row per matched height, carrying the block's hash and the derived
/// address.
pub open spec fn miner_details_to(
    blocks: Seq<BlockModel>,
    m: MinerModel,
    start: u32,
    n: int,
) -> Seq<DetailModel>
    decreases n,
{
    if n <= 0 {
        Seq::empty()
    } else {
        let prefix = miner_details_to(blocks, m, start, n - 1);
        if miner_hits_at(blocks, m, start, n - 1) {
            prefix.push(
                DetailModel {
                    block_height: (start + n - 1) as u32,
                    block_hash: spec_block_at(blocks, (start + n - 1) as u32).hash,
                    payout_address: m.addresses[n - 1]->Some_0,
                },
            )
        } else {
            prefix
        }
    }
}

/// The largest value any of the first `k` miners matches at offset `i`,
/// and 0 if none matches: the per-height dedup policy counts the largest
/// single miner's contribution once in the global total.
pub open spec fn best_to(
    blocks: Seq<BlockModel>,
    miners: Seq<MinerModel>,
    start: u32,
    i: int,
    k: int,
) -> int
    decreases k,
{
    if k <= 0 {
        0
    } else {
        let prev = best_to(blocks, miners, start, i, k - 1);
        let v = miner_height_value(blocks, miners[k - 1], start, i);
        if v > prev {
            v
        } else {
            prev
        }
    }
}

/// The deduplicated matched value at offset `i` across all miners.
pub open spec fn spec_best_at(
    blocks: Seq<BlockModel>,
    miners: Seq<MinerModel>,
    start: u32,
    i: int,
) -> int {
    best_to(blocks, miners, start, i, miners.len() as int)
}

/// The height at offset `i` is attributed to at least one miner.
pub open spec fn height_matched(
    blocks: Seq<BlockModel>,
    miners: Seq<MinerModel>,
    start: u32,
    i: int,
) -> bool {
    spec_best_at(blocks, miners, start, i) > 0
}

/// Number of matched heights among the offsets below `n`.
pub open spec fn matched_count_to(
    blocks: Seq<BlockModel>,
    miners: Seq<MinerModel>,
    start: u32,
    n: int,
) -> int
    decreases n,
{
    if n <= 0 {
        0
    } else {
        matched_count_to(blocks, miners, start, n - 1) + if height_matched(
            blocks,
            miners,
            start,
            n - 1,
        ) {
            1int
        } else {
            0int
        }
    }
}

/// Sum of the deduplicated matched values over the offsets below `n`.
pub open spec fn best_sum_to(
    blocks: Seq<BlockModel>,
    miners: Seq<MinerModel>,
    start: u32,
    n: int,
) -> int
    decreases n,
{
    if n <= 0 {
        0
    } else {
        best_sum_to(blocks, miners, start, n - 1) + spec_best_at(blocks, miners, start, n - 1)
    }
}

/// Sum of the full coinbase totals of the cached but unmatched heights
/// below `n`. A matched height is absorbed whole: its unmatched outputs
/// are not separately added here.
pub open spec fn unmatched_value_to(
    blocks: Seq<BlockModel>,
    miners: Seq<MinerModel>,
    start: u32,
    n: int,
) -> int
    decreases n,
{
    if n <= 0 {
        0
    } else {
        unmatched_value_to(blocks, miners, start, n - 1) + if !height_matched(
            blocks,
            miners,
            start,
            n - 1,
        ) && spec_contains_height(blocks, (start + n - 1) as u32) {
            spec_coinbase_total(spec_block_at(blocks, (start + n - 1) as u32))
        } else {
            0
        }
    }
}

/// Sum of the absolute output values of the cached blocks at offsets below
/// `n`: the bound under which all of the engine's sums stay.
pub open spec fn range_abs_to(blocks: Seq<BlockModel>, start: u32, n: int) -> int
    decreases n,
{
    if n <= 0 {
        0
    } else {
        range_abs_to(blocks, start, n - 1) + if spec_contains_height(
            blocks,
            (start + n - 1) as u32,
        ) {
            spec_abs_total(spec_block_at(blocks, (start + n - 1) as u32))
        } else {
            0
        }
    }
}

/// The absolute output total of the block at offset `i`, or 0 if uncached.
pub open spec fn abs_at(blocks: Seq<BlockModel>, start: u32, i: int) -> int {
    if spec_contains_height(blocks, (start + i) as u32) {
        spec_abs_total(spec_block_at(blocks, (start + i) as u32))
    } else {
        0
    }
}

pub proof fn lemma_abs_at_nonneg(blocks: Seq<BlockModel>, start: u32, i: int)
    ensures
        abs_at(blocks, start, i) >= 0,
{
    if spec_contains_height(blocks, (start + i) as u32) {
        let b = spec_block_at(blocks, (start + i) as u32);
        crate::block::lemma_sum_abs_nonneg(b.outputs, b.outputs.len() as int);
    }
}

pub proof fn lemma_range_abs_nonneg(blocks: Seq<BlockModel>, start: u32, n: int)
    ensures
        range_abs_to(blocks, start, n) >= 0,
    decreases n,
{
    if n > 0 {
        lemma_range_abs_nonneg(blocks, start, n - 1);
        lemma_abs_at_nonneg(blocks, start, n - 1);
    }
}

pub proof fn lemma_range_abs_monotone(blocks: Seq<BlockModel>, start: u32, m: int, n: int)
    requires
        m <= n,
    ensures
        range_abs_to(blocks, start, m) <= range_abs_to(blocks, start, n),
    decreases n - m,
{
    if m < n {
        lemma_range_abs_monotone(blocks, start, m, n - 1);
        lemma_abs_at_nonneg(blocks, start, n - 1);
    }
}

/// The block at one offset contributes its whole absolute total to the
/// range bound.
pub proof fn lemma_abs_at_le_range(blocks: Seq<BlockModel>, start: u32, i: int, n: int)
    requires
        0 <= i < n,
    ensures
        abs_at(blocks, start, i) <= range_abs_to(blocks, start, n),
{
    lemma_range_abs_nonneg(blocks, start, i);
    lemma_range_abs_monotone(blocks, start, i + 1, n);
}

/// A miner's matched value at one offset lies within the block's absolute
/// total.
pub proof fn lemma_miner_height_value_bounded(
    blocks: Seq<BlockModel>,
    m: MinerModel,
    start: u32,
    i: int,
)
    ensures
        abs_val(miner_height_value(blocks, m, start, i)) <= abs_at(blocks, start, i),
{
    lemma_abs_at_nonneg(blocks, start, i);
    if spec_contains_height(blocks, (start + i) as u32) && m.addresses[i] is Some {
        let b = spec_block_at(blocks, (start + i) as u32);
        lemma_matched_value_bounded(b.outputs, m.addresses[i]->Some_0, b.outputs.len() as int);
    }
}

/// A miner's running total lies within the range bound.
pub proof fn lemma_miner_value_bounded(blocks: Seq<BlockModel>, m: MinerModel, start: u32, n: int)
    ensures
        abs_val(miner_value_to(blocks, m, start, n)) <= range_abs_to(blocks, start, n),
    decreases n,
{
    if n > 0 {
        lemma_miner_value_bounded(blocks, m, start, n - 1);
        lemma_miner_height_value_bounded(blocks, m, start, n - 1);
    } else {
    }
}

pub proof fn lemma_best_nonneg(
    blocks: Seq<BlockModel>,
    miners: Seq<MinerModel>,
    start: u32,
    i: int,
    k: int,
)
    ensures
        best_to(blocks, miners, start, i, k) >= 0,
    decreases k,
{
    if k > 0 {
        lemma_best_nonneg(blocks, miners, start, i, k - 1);
    }
}

/// The deduplicated value at one offset lies within the block's absolute
/// total.
pub proof fn lemma_best_bounded(
    blocks: Seq<BlockModel>,
    miners: Seq<MinerModel>,
    start: u32,
    i: int,
    k: int,
)
    ensures
        0 <= best_to(blocks, miners, start, i, k) <= abs_at(blocks, start, i),
    decreases k,
{
    lemma_abs_at_nonneg(blocks, start, i);
    if k > 0 {
        lemma_best_bounded(blocks, miners, start, i, k - 1);
        lemma_miner_height_value_bounded(blocks, miners[k - 1], start, i);
    }
}

/// The running deduplicated sum lies within the range bound.
pub proof fn lemma_best_sum_bounded(
    blocks: Seq<BlockModel>,
    miners: Seq<MinerModel>,
    start: u32,
    n: int,
)
    ensures
        0 <= best_sum_to(blocks, miners, start, n) <= range_abs_to(blocks, start, n),
    decreases n,
{
    if n > 0 {
        lemma_best_sum_bounded(blocks, miners, start, n - 1);
        lemma_best_bounded(blocks, miners, start, n - 1, miners.len() as int);
    }
}

/// The running unmatched total lies within the range bound.
pub proof fn lemma_unmatched_bounded(
    blocks: Seq<BlockModel>,
    miners: Seq<MinerModel>,
    start: u32,
    n: int,
)
    ensures
        abs_val(unmatched_value_to(blocks, miners, start, n)) <= range_abs_to(blocks, start, n),
    decreases n,
{
    if n > 0 {
        lemma_unmatched_bounded(blocks, miners, start, n - 1);
        lemma_abs_at_nonneg(blocks, start, n - 1);
        if !height_matched(blocks, miners, start, n - 1) && spec_contains_height(
            blocks,
            (start + n - 1) as u32,
        ) {
            let b = spec_block_at(blocks, (start + n - 1) as u32);
            lemma_sum_values_bounded(b.outputs, b.outputs.len() as int);
        }
    }
}

pub proof fn lemma_matched_count_bounds(
    blocks: Seq<BlockModel>,
    miners: Seq<MinerModel>,
    start: u32,
    n: int,
)
    requires
        0 <= n,
    ensures
        0 <= matched_count_to(blocks, miners, start, n) <= n,
    decreases n,
{
    if n > 0 {
        lemma_matched_count_bounds(blocks, miners, start, n - 1);
    }
}

pub proof fn lemma_miner_count_bounds(blocks: Seq<BlockModel>, m: MinerModel, start: u32, n: int)
    requires
        0 <= n,
    ensures
        0 <= miner_count_to(blocks, m, start, n) <= n,
    decreases n,
{
    if n > 0 {
        lemma_miner_count_bounds(blocks, m, start, n - 1);
    }
}

/// The value display conversion: smallest unit to hundredths of the major
/// unit (one major unit is 10^8 smallest units), rounded half away from
/// zero.
pub open spec fn spec_zats_to_centi(z: int) -> int {
    if z >= 0 {
        (z + 500_000) / 1_000_000
    } else {
        -(((-z) + 500_000) / 1_000_000)
    }
}

/// Converts a smallest-unit value to hundredths of the major unit for
/// display.
pub fn zats_to_wec_centi(zats: i64) -> (r: i64)
    ensures
        r == spec_zats_to_centi(zats as int),
{
    if zats >= 0 {
        let w: i128 = (zats as i128) + 500_000;
        let q: i128 = w / 1_000_000;
        q as i64
    } else {
        let w: i128 = (-(zats as i128)) + 500_000;
        let q: i128 = w / 1_000_000;
        (-q) as i64
    }
}

/// The share of `part` out of `total` in basis points (hundredths of a
/// percent), rounded half up; 0 when `total` is 0.
pub open spec fn spec_percent_bp(part: int, total: int) -> int {
    if total == 0 {
        0
    } else {
        (part * 20000 + total) / (2 * total)
    }
}

/// Computes a block-count share in basis points of the total height count;
/// yields 0 when the range is empty, with no division error.
pub fn percent_share_blocks(part: u32, total: u32) -> (r: u32)
    requires
        part <= total,
    ensures
        r == spec_percent_bp(part as int, total as int),
        r <= 10000,
{
    if total == 0 {
        0
    } else {
        let num: u64 = (part as u64) * 20000 + (total as u64);
        let den: u64 = 2 * (total as u64);
        let q: u64 = num / den;
        proof {
            assert(q * den <= num < (q + 1) * den) by (nonlinear_arith)
                requires
                    den > 0,
                    q == num / den,
            ;
            assert(num <= 20000 * (total as int) + (total as int)) by (nonlinear_arith)
                requires
                    part <= total,
                    num == (part as int) * 20000 + (total as int),
            ;
            assert(q <= 10000) by (nonlinear_arith)
                requires
                    q * den <= num,
                    num <= 20001 * (total as int),
                    den == 2 * (total as int),
                    total > 0,
            ;
        }
        q as u32
    }
}

/// One detail row of a miner's report: a height attributed to the miner,
/// the block's hash, and the derived payout address that matched.
#[derive(Clone)]
pub struct MinerBlockDetail {
    pub block_height: u32,
    pub block_hash: String,
    pub payout_address: String,
}

impl View for MinerBlockDetail {
    type V = DetailModel;

    open spec fn view(&self) -> DetailModel {
        DetailModel {
            block_height: self.block_height,
            block_hash: self.block_hash@,
            payout_address: self.payout_address@,
        }
    }
}

/// A miner's aggregate with its detail rows.
pub struct MinerSummary {
    pub label: String,
    pub matched_blocks: u32,
    pub total_value_zat: i64,
    pub total_value_wec_centi: i64,
    pub share_percent_bp: u32,
    pub detailed_blocks: Vec<MinerBlockDetail>,
}

/// A miner's aggregate without the detail rows.
pub struct MinerAggregate {
    pub label: String,
    pub matched_blocks: u32,
    pub total_value_zat: i64,
    pub total_value_wec_centi: i64,
    pub share_percent_bp: u32,
}

/// The aggregate over the heights attributed to no miner.
pub struct UnmatchedSummary {
    pub blocks: u32,
    pub total_value_zat: i64,
    pub total_value_wec_centi: i64,
    pub share_percent_bp: u32,
}

/// The report of one run: the range, the global totals, and the per-miner
/// aggregates (with and without detail rows). Display values are kept in
/// hundredths of the major unit and hundredths of a percent.
pub struct MinerStatsReport {
    pub start_height: u32,
    pub end_height: u32,
    pub total_mined_blocks: u32,
    pub total_value_zat: i64,
    pub total_value_wec_centi: i64,
    pub miners: Vec<MinerAggregate>,
    pub detailed_miners: Vec<MinerSummary>,
    pub unmatched: UnmatchedSummary,
}

/// The mathematical image of a miner list.
pub open spec fn miners_model(ms: Seq<MinerInput>) -> Seq<MinerModel> {
    ms.map_values(|m: MinerInput| m@)
}

/// The summary states exactly miner `m`'s aggregates over the first `n`
/// offsets of the range.
pub open spec fn summary_matches(
    s: MinerSummary,
    blocks: Seq<BlockModel>,
    m: MinerModel,
    start: u32,
    n: int,
) -> bool {
    &&& s.label@ == m.label
    &&& s.matched_blocks == miner_count_to(blocks, m, start, n)
    &&& s.total_value_zat == miner_value_to(blocks, m, start, n)
    &&& s.total_value_wec_centi == spec_zats_to_centi(miner_value_to(blocks, m, start, n))
    &&& s.share_percent_bp == spec_percent_bp(miner_count_to(blocks, m, start, n), n)
    &&& s.detailed_blocks@.map_values(|d: MinerBlockDetail| d@) == miner_details_to(
        blocks,
        m,
        start,
        n,
    )
}

/// The aggregate repeats the summary's fields.
pub open spec fn aggregate_matches(a: MinerAggregate, s: MinerSummary) -> bool {
    &&& a.label@ == s.label@
    &&& a.matched_blocks == s.matched_blocks
    &&& a.total_value_zat == s.total_value_zat
    &&& a.total_value_wec_centi == s.total_value_wec_centi
    &&& a.share_percent_bp == s.share_percent_bp
}

/// The whole contract of one report over the model of its inputs.
pub open spec fn report_matches(
    r: MinerStatsReport,
    blocks: Seq<BlockModel>,
    miners: Seq<MinerModel>,
    start: u32,
    tip: u32,
) -> bool {
    let t = tip - start + 1;
    &&& r.start_height == start
    &&& r.end_height == tip
    &&& r.total_mined_blocks == matched_count_to(blocks, miners, start, t)
    &&& r.total_value_zat == best_sum_to(blocks, miners, start, t) + unmatched_value_to(
        blocks,
        miners,
        start,
        t,
    )
    &&& r.total_value_wec_centi == spec_zats_to_centi(r.total_value_zat as int)
    &&& r.detailed_miners@.len() == miners.len()
    &&& forall|k: int|
        0 <= k < miners.len() ==> summary_matches(
            #[trigger] r.detailed_miners@[k],
            blocks,
            miners[k],
            start,
            t,
        )
    &&& r.miners@.len() == miners.len()
    &&& forall|k: int|
        0 <= k < miners.len() ==> aggregate_matches(
            #[trigger] r.miners@[k],
            r.detailed_miners@[k],
        )
    &&& r.unmatched.blocks == t - matched_count_to(blocks, miners, start, t)
    &&& r.unmatched.total_value_zat == unmatched_value_to(blocks, miners, start, t)
    &&& r.unmatched.total_value_wec_centi == spec_zats_to_centi(
        unmatched_value_to(blocks, miners, start, t),
    )
    &&& r.unmatched.share_percent_bp == spec_percent_bp(
        t - matched_count_to(blocks, miners, start, t),
        t,
    )
}

/// Computes the report for the inclusive height range `[start, tip]`: a
/// pure, deterministic fold over heights and miners against the cache.
///
/// Each miner's aggregate counts every height whose matched value is
/// positive. The global total deduplicates a height matched by several
/// miners, counting only the largest single matched value; the unmatched
/// total adds the whole coinbase total of every cached height attributed
/// to no miner.
pub fn compute_statistics(
    miners: &Vec<MinerInput>,
    cache: &BlockCache,
    start: u32,
    tip: u32,
) -> (r: MinerStatsReport)
    requires
        cache.wf(),
        start <= tip,
        tip - start < u32::MAX,
        forall|k: int|
            0 <= k < miners@.len() ==> (#[trigger] miners@[k])@.addresses.len() == tip - start + 1,
        2 * range_abs_to(cache@.blocks, start, tip - start + 1) <= i64::MAX,
    ensures
        report_matches(r, cache@.blocks, miners_model(miners@), start, tip),
{
    let ghost bm = cache@.blocks;
    let ghost mm = miners_model(miners@);
    let t_minus: u32 = tip - start;
    let t: usize = (t_minus as usize) + 1;
    let total_u32: u32 = t_minus + 1;
    let ghost tt = t as int;
    let nminers: usize = miners.len();

    let mut best: Vec<i64> = Vec::new();
    let mut i: usize = 0;
    while i < t
        invariant
            i <= t,
            best@.len() == i,
            forall|j: int| 0 <= j < i ==> best@[j] == 0,
        decreases t - i,
    {
        best.push(0);
        i = i + 1;
    }

    let mut detailed: Vec<MinerSummary> = Vec::new();
    let mut k: usize = 0;
    while k < nminers
        invariant
            cache.wf(),
            bm == cache@.blocks,
            mm == miners_model(miners@),
            mm.len() == miners@.len(),
            nminers == miners@.len(),
            start <= tip,
            tip - start < u32::MAX,
            t == tip - start + 1,
            tt == t as int,
            total_u32 == t,
            forall|x: int|
                0 <= x < miners@.len() ==> (#[trigger] miners@[x])@.addresses.len() == tt,
            2 * range_abs_to(bm, start, tt) <= i64::MAX,
            k <= nminers,
            detailed@.len() == k,
            forall|x: int|
                0 <= x < k ==> summary_matches(#[trigger] detailed@[x], bm, mm[x], start, tt),
            best@.len() == t,
            forall|j: int| 0 <= j < tt ==> best@[j] == best_to(bm, mm, start, j, k as int),
        decreases nminers - k,
    {
        let miner: &MinerInput = &miners[k];
        proof {
            assert(mm[k as int] == miner@);
            assert(miner@.addresses.len() == tt);
        }
        let ghost mk = mm[k as int];
        let mut blocks_count: u32 = 0;
        let mut total_value: i64 = 0;
        let mut details: Vec<MinerBlockDetail> = Vec::new();
        let mut i: usize = 0;
        while i < t
            invariant
                cache.wf(),
                bm == cache@.blocks,
                mm == miners_model(miners@),
                mm.len() == miners@.len(),
                nminers == miners@.len(),
                start <= tip,
                tip - start < u32::MAX,
                t == tip - start + 1,
                tt == t as int,
                2 * range_abs_to(bm, start, tt) <= i64::MAX,
                k < nminers,
                mk == mm[k as int],
                mk == miner@,
                miner == &miners[k as int],
                mk.addresses.len() == tt,
                i <= t,
                blocks_count == miner_count_to(bm, mk, start, i as int),
                total_value == miner_value_to(bm, mk, start, i as int),
                details@.map_values(|d: MinerBlockDetail| d@) == miner_details_to(
                    bm,
                    mk,
                    start,
                    i as int,
                ),
                best@.len() == t,
                forall|j: int|
                    0 <= j < i ==> best@[j] == best_to(bm, mm, start, j, k as int + 1),
                forall|j: int|
                    i <= j < tt ==> best@[j] == best_to(bm, mm, start, j, k as int),
            decreases t - i,
        {
            let h: u32 = start + (i as u32);
            let ghost ii = i as int;
            let ghost v = miner_height_value(bm, mk, start, ii);
            proof {
                lemma_best_nonneg(bm, mm, start, ii, k as int);
                lemma_miner_height_value_bounded(bm, mk, start, ii);
                lemma_abs_at_le_range(bm, start, ii, tt);
                lemma_range_abs_nonneg(bm, start, tt);
                lemma_miner_value_bounded(bm, mk, start, ii);
                lemma_miner_value_bounded(bm, mk, start, ii + 1);
                lemma_range_abs_monotone(bm, start, ii + 1, tt);
                lemma_miner_count_bounds(bm, mk, start, ii);
            }
            let mut mv: i64 = 0;
            match cache.get(h) {
                None => {
                    proof {
                        assert(v == 0);
                    }
                },
                Some(block) => {
                    match &miner.addresses[i] {
                        None => {
                            proof {
                                assert(mk.addresses[ii] == miner@.addresses[ii]);
                                assert(miner@.addresses[ii] is None);
                                assert(v == 0);
                            }
                        },
                        Some(addr) => {
                            proof {
                                assert(mk.addresses[ii] == miner@.addresses[ii]);
                                assert(miner@.addresses[ii] == Some(addr@));
                                assert(block@ == spec_block_at(bm, h));
                                assert(spec_abs_total(block@) == abs_at(bm, start, ii));
                            }
                            mv = block.matched_value(addr);
                            proof {
                                assert(v == mv);
                            }
                            if mv > 0 {
                                blocks_count = blocks_count + 1;
                                total_value = total_value + mv;
                                let cur: i64 = best[i];
                                if mv > cur {
                                    best.set(i, mv);
                                }
                                let detail = MinerBlockDetail {
                                    block_height: h,
                                    block_hash: block.hash.clone(),
                                    payout_address: addr.clone(),
                                };
                                proof {
                                    assert(detail@ == (DetailModel {
                                        block_height: h,
                                        block_hash: spec_block_at(bm, h).hash,
                                        payout_address: mk.addresses[ii]->Some_0,
                                    }));
                                }
                                let ghost dets_before = details@;
                                details.push(detail);
                                proof {
                                    assert(details@.map_values(|d: MinerBlockDetail| d@)
                                        =~= dets_before.map_values(
                                        |d: MinerBlockDetail| d@,
                                    ).push(detail@));
                                }
                            }
                        },
                    }
                },
            }
            proof {
                assert(miner_count_to(bm, mk, start, ii + 1) == miner_count_to(bm, mk, start, ii)
                    + if miner_hits_at(bm, mk, start, ii) {
                    1int
                } else {
                    0int
                });
                assert(miner_hits_at(bm, mk, start, ii) == (v > 0));
                assert(best_to(bm, mm, start, ii, k as int + 1) == {
                    let prev = best_to(bm, mm, start, ii, k as int);
                    if v > prev {
                        v
                    } else {
                        prev
                    }
                });
                assert(miner_details_to(bm, mk, start, ii + 1) == if miner_hits_at(
                    bm,
                    mk,
                    start,
                    ii,
                ) {
                    miner_details_to(bm, mk, start, ii).push(
                        DetailModel {
                            block_height: (start + ii) as u32,
                            block_hash: spec_block_at(bm, (start + ii) as u32).hash,
                            payout_address: mk.addresses[ii]->Some_0,
                        },
                    )
                } else {
                    miner_details_to(bm, mk, start, ii)
                });
            }
            i = i + 1;
        }
        proof {
            lemma_miner_count_bounds(bm, mk, start, tt);
        }
        let summary = MinerSummary {
            label: miner.label.clone(),
            matched_blocks: blocks_count,
            total_value_zat: total_value,
            total_value_wec_centi: zats_to_wec_centi(total_value),
            share_percent_bp: percent_share_blocks(blocks_count, total_u32),
            detailed_blocks: details,
        };
        proof {
            lemma_miner_count_bounds(bm, mk, start, tt);
            assert(summary_matches(summary, bm, mk, start, tt));
        }
        detailed.push(summary);
        k = k + 1;
    }

    let ghost kk = nminers as int;
    let mut matched_count: u32 = 0;
    let mut sum_best: i64 = 0;
    let mut unmatched_value: i64 = 0;
    let mut i: usize = 0;
    while i < t
        invariant
            cache.wf(),
            bm == cache@.blocks,
            mm == miners_model(miners@),
            kk == mm.len(),
            start <= tip,
            tip - start < u32::MAX,
            t == tip - start + 1,
            tt == t as int,
            2 * range_abs_to(bm, start, tt) <= i64::MAX,
            best@.len() == t,
            forall|j: int| 0 <= j < tt ==> best@[j] == best_to(bm, mm, start, j, kk),
            i <= t,
            matched_count == matched_count_to(bm, mm, start, i as int),
            sum_best == best_sum_to(bm, mm, start, i as int),
            unmatched_value == unmatched_value_to(bm, mm, start, i as int),
        decreases t - i,
    {
        let ghost ii = i as int;
        proof {
            lemma_matched_count_bounds(bm, mm, start, ii);
            lemma_best_bounded(bm, mm, start, ii, kk);
            lemma_best_sum_bounded(bm, mm, start, ii);
            lemma_best_sum_bounded(bm, mm, start, ii + 1);
            lemma_unmatched_bounded(bm, mm, start, ii);
            lemma_unmatched_bounded(bm, mm, start, ii + 1);
            lemma_range_abs_monotone(bm, start, ii + 1, tt);
            lemma_range_abs_nonneg(bm, start, tt);
            lemma_abs_at_le_range(bm, start, ii, tt);
        }
        let b: i64 = best[i];
        proof {
            assert(b == spec_best_at(bm, mm, start, ii));
        }
        if b > 0 {
            matched_count = matched_count + 1;
            sum_best = sum_best + b;
        } else {
            let h: u32 = start + (i as u32);
            match cache.get(h) {
                None => {
                },
                Some(block) => {
                    proof {
                        assert(block@ == spec_block_at(bm, h));
                        assert(spec_abs_total(block@) == abs_at(bm, start, ii));
                        let bb = spec_block_at(bm, h);
                        lemma_sum_values_bounded(bb.outputs, bb.outputs.len() as int);
                    }
                    let ct: i64 = block.coinbase_total();
                    unmatched_value = unmatched_value + ct;
                },
            }
        }
        i = i + 1;
    }

    proof {
        lemma_best_sum_bounded(bm, mm, start, tt);
        lemma_unmatched_bounded(bm, mm, start, tt);
        lemma_matched_count_bounds(bm, mm, start, tt);
        lemma_range_abs_nonneg(bm, start, tt);
    }
    let total_value_zat: i64 = sum_best + unmatched_value;
    let unmatched_blocks: u32 = total_u32 - matched_count;

    let mut aggregates: Vec<MinerAggregate> = Vec::new();
    let mut k: usize = 0;
    while k < detailed.len()
        invariant
            k <= detailed@.len(),
            aggregates@.len() == k,
            forall|x: int|
                0 <= x < k ==> aggregate_matches(#[trigger] aggregates@[x], detailed@[x]),
        decreases detailed@.len() - k,
    {
        let s: &MinerSummary = &detailed[k];
        aggregates.push(
            MinerAggregate {
                label: s.label.clone(),
                matched_blocks: s.matched_blocks,
                total_value_zat: s.total_value_zat,
                total_value_wec_centi: s.total_value_wec_centi,
                share_percent_bp: s.share_percent_bp,
            },
        );
        k = k + 1;
    }

    MinerStatsReport {
        start_height: start,
        end_height: tip,
        total_mined_blocks: matched_count,
        total_value_zat,
        total_value_wec_centi: zats_to_wec_centi(total_value_zat),
        miners: aggregates,
        detailed_miners: detailed,
        unmatched: UnmatchedSummary {
            blocks: unmatched_blocks,
            total_value_zat: unmatched_value,
            total_value_wec_centi: zats_to_wec_centi(unmatched_value),
            share_percent_bp: percent_share_blocks(unmatched_blocks, total_u32),
        },
    }
}


/// Any one miner's matched value at an offset is bounded by the running
/// best, and the best is attained by some miner unless it is 0.
proof fn lemma_best_characterization(
    blocks: Seq<BlockModel>,
    miners: Seq<MinerModel>,
    start: u32,
    i: int,
    k: int,
)
    requires
        0 <= k <= miners.len(),
    ensures
        best_to(blocks, miners, start, i, k) >= 0,
        forall|x: int|
            0 <= x < k ==> miner_height_value(blocks, #[trigger] miners[x], start, i) <= best_to(
                blocks,
                miners,
                start,
                i,
                k,
            ),
        best_to(blocks, miners, start, i, k) == 0 || exists|x: int|
            0 <= x < k && miner_height_value(blocks, #[trigger] miners[x], start, i) == best_to(
                blocks,
                miners,
                start,
                i,
                k,
            ),
    decreases k,
{
    if k > 0 {
        lemma_best_characterization(blocks, miners, start, i, k - 1);
    }
}

/// The deduplicated value at one offset does not depend on the order of
/// the miner list: it is the same for any permutation.
pub proof fn lemma_best_permutation(
    blocks: Seq<BlockModel>,
    ms1: Seq<MinerModel>,
    ms2: Seq<MinerModel>,
    start: u32,
    i: int,
)
    requires
        ms1.to_multiset() == ms2.to_multiset(),
    ensures
        spec_best_at(blocks, ms1, start, i) == spec_best_at(blocks, ms2, start, i),
{
    broadcast use vstd::seq_lib::group_to_multiset_ensures;

    let b1 = spec_best_at(blocks, ms1, start, i);
    let b2 = spec_best_at(blocks, ms2, start, i);
    lemma_best_characterization(blocks, ms1, start, i, ms1.len() as int);
    lemma_best_characterization(blocks, ms2, start, i, ms2.len() as int);
    if b1 > 0 {
        let x = choose|x: int|
            0 <= x < ms1.len() && miner_height_value(blocks, #[trigger] ms1[x], start, i) == b1;
        assert(ms1.contains(ms1[x]));
        assert(ms1.to_multiset().count(ms1[x]) > 0);
        assert(ms2.to_multiset().count(ms1[x]) > 0);
        assert(ms2.contains(ms1[x]));
        let y = choose|y: int| 0 <= y < ms2.len() && ms2[y] == ms1[x];
        assert(miner_height_value(blocks, ms2[y], start, i) <= b2);
        assert(b1 <= b2);
    }
    if b2 > 0 {
        let x = choose|x: int|
            0 <= x < ms2.len() && miner_height_value(blocks, #[trigger] ms2[x], start, i) == b2;
        assert(ms2.contains(ms2[x]));
        assert(ms2.to_multiset().count(ms2[x]) > 0);
        assert(ms1.to_multiset().count(ms2[x]) > 0);
        assert(ms1.contains(ms2[x]));
        let y = choose|y: int| 0 <= y < ms1.len() && ms1[y] == ms2[x];
        assert(miner_height_value(blocks, ms1[y], start, i) <= b1);
        assert(b2 <= b1);
    }
}

/// Matching is order-independent: permuting the miner list changes
/// neither the count of matched heights, the deduplicated matched total,
/// nor the unmatched total. (Each miner's own aggregate takes only that
/// miner as input, so it cannot depend on the order either.)
pub proof fn lemma_stats_order_independent(
    blocks: Seq<BlockModel>,
    ms1: Seq<MinerModel>,
    ms2: Seq<MinerModel>,
    start: u32,
    n: int,
)
    requires
        ms1.to_multiset() == ms2.to_multiset(),
        0 <= n,
    ensures
        matched_count_to(blocks, ms1, start, n) == matched_count_to(blocks, ms2, start, n),
        best_sum_to(blocks, ms1, start, n) == best_sum_to(blocks, ms2, start, n),
        unmatched_value_to(blocks, ms1, start, n) == unmatched_value_to(blocks, ms2, start, n),
    decreases n,
{
    if n > 0 {
        lemma_stats_order_independent(blocks, ms1, ms2, start, n - 1);
        lemma_best_permutation(blocks, ms1, ms2, start, n - 1);
    }
}

/// Idempotence of the pipeline: against an unchanged node (same tip) and
/// an already-complete cache, the fetch stage has nothing to do, the tip
/// needs no refresh, so the cache is untouched; and any two reports of
/// the same inputs agree in every field the contract pins, so the second
/// run's report equals the first's.
pub proof fn lemma_pipeline_idempotent(
    c: crate::cache::CacheModel,
    miners: Seq<MinerModel>,
    start: u32,
    tip: u32,
    r1: MinerStatsReport,
    r2: MinerStatsReport,
)
    requires
        start <= tip,
        forall|h: u32| start <= h <= tip ==> spec_contains_height(c.blocks, h),
        c.last_tip == Some(tip),
        report_matches(r1, c.blocks, miners, start, tip),
        report_matches(r2, c.blocks, miners, start, tip),
    ensures
        crate::cache::spec_missing(c.blocks, start, tip - start + 1) == Seq::<u32>::empty(),
        r1.start_height == r2.start_height,
        r1.end_height == r2.end_height,
        r1.total_mined_blocks == r2.total_mined_blocks,
        r1.total_value_zat == r2.total_value_zat,
        r1.total_value_wec_centi == r2.total_value_wec_centi,
        r1.detailed_miners@.len() == r2.detailed_miners@.len(),
        forall|k: int|
            0 <= k < miners.len() ==> {
                let s1 = #[trigger] r1.detailed_miners@[k];
                let s2 = r2.detailed_miners@[k];
                &&& s1.label@ == s2.label@
                &&& s1.matched_blocks == s2.matched_blocks
                &&& s1.total_value_zat == s2.total_value_zat
                &&& s1.total_value_wec_centi == s2.total_value_wec_centi
                &&& s1.share_percent_bp == s2.share_percent_bp
                &&& s1.detailed_blocks@.map_values(|d: MinerBlockDetail| d@)
                    == s2.detailed_blocks@.map_values(|d: MinerBlockDetail| d@)
            },
        r1.unmatched.blocks == r2.unmatched.blocks,
        r1.unmatched.total_value_zat == r2.unmatched.total_value_zat,
        r1.unmatched.total_value_wec_centi == r2.unmatched.total_value_wec_centi,
        r1.unmatched.share_percent_bp == r2.unmatched.share_percent_bp,
{
    crate::cache::lemma_missing_empty_iff_complete(c.blocks, start, tip - start + 1);
    assert(forall|h: u32| start <= h < start + (tip - start + 1) ==> spec_contains_height(c.blocks, h));
}

} // verus!
