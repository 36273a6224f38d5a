//! The persistent block cache and the fetch coordinator's merge logic.
//!
//! The cache maps heights to blocks (keys unique, no implied contiguity)
//! and records the last chain tip observed at the last successful refresh.
//! A fetch batch is merged all-or-nothing: if any height of the batch
//! failed, nothing of the batch reaches the cache.

use vstd::prelude::*;

use crate::block::BlockModel;
use crate::block::CachedBlock;
use crate::error::StatsError;

verus! {

/// The in-memory block cache: the last observed tip and the cached blocks,
/// with pairwise-distinct heights.
pub struct BlockCache {
    pub last_tip: Option<u32>,
    pub blocks: Vec<CachedBlock>,
}

/// Mathematical image of a cache.
#[verifier::ext_equal]
pub struct CacheModel {
    pub last_tip: Option<u32>,
    pub blocks: Seq<BlockModel>,
}

impl View for BlockCache {
    type V = CacheModel;

    open spec fn view(&self) -> CacheModel {
        CacheModel {
            last_tip: self.last_tip,
            blocks: self.blocks@.map_values(|b: CachedBlock| b@),
        }
    }
}

/// Heights are pairwise distinct: the cache is a mapping.
pub open spec fn heights_unique(blocks: Seq<BlockModel>) -> bool {
    forall|i: int, j: int|
        0 <= i < j < blocks.len() ==> (#[trigger] blocks[i]).height != (#[trigger] blocks[j]).height
}

/// Some cached block has height `h`.
pub open spec fn spec_contains_height(blocks: Seq<BlockModel>, h: u32) -> bool {
    exists|i: int| 0 <= i < blocks.len() && (#[trigger] blocks[i]).height == h
}

/// The index of the block of height `h` (meaningful when one is present).
pub open spec fn spec_height_index(blocks: Seq<BlockModel>, h: u32) -> int {
    choose|i: int| 0 <= i < blocks.len() && (#[trigger] blocks[i]).height == h
}

/// The cached block of height `h` (meaningful when one is present).
pub open spec fn spec_block_at(blocks: Seq<BlockModel>, h: u32) -> BlockModel {
    blocks[spec_height_index(blocks, h)]
}

/// Under unique heights, any index holding height `h` is the index that
/// `spec_block_at` reads.
pub proof fn lemma_unique_index(blocks: Seq<BlockModel>, h: u32, i: int)
    requires
        heights_unique(blocks),
        0 <= i < blocks.len(),
        blocks[i].height == h,
    ensures
        spec_contains_height(blocks, h),
        spec_height_index(blocks, h) == i,
        spec_block_at(blocks, h) == blocks[i],
{
    assert(spec_contains_height(blocks, h));
    let j = spec_height_index(blocks, h);
    if i != j {
        assert(blocks[i].height != blocks[j].height);
    }
}

impl BlockCache {
    /// The cache is well formed: its heights are pairwise distinct.
    pub open spec fn wf(&self) -> bool {
        heights_unique(self@.blocks)
    }

    /// The empty cache: no tip observed, no blocks.
    pub fn new() -> (r: BlockCache)
        ensures
            r.wf(),
            r@.last_tip is None,
            r@.blocks.len() == 0,
    {
        BlockCache { last_tip: None, blocks: Vec::new() }
    }

    /// Whether a block of height `h` is cached.
    pub fn contains(&self, h: u32) -> (r: bool)
        ensures
            r == spec_contains_height(self@.blocks, h),
    {
        let mut i: usize = 0;
        while i < self.blocks.len()
            invariant
                0 <= i <= self.blocks.len(),
                self@.blocks.len() == self.blocks.len(),
                forall|k: int| 0 <= k < i ==> (#[trigger] self@.blocks[k]).height != h,
            decreases self.blocks.len() - i,
        {
            proof {
                assert(self@.blocks[i as int] == self.blocks@[i as int]@);
            }
            if self.blocks[i].height == h {
                return true;
            }
            i = i + 1;
        }
        false
    }

    /// The cached block of height `h`, if one is present.
    pub fn get(&self, h: u32) -> (r: Option<&CachedBlock>)
        requires
            self.wf(),
        ensures
            r is Some <==> spec_contains_height(self@.blocks, h),
            r is Some ==> r->Some_0@ == spec_block_at(self@.blocks, h),
    {
        let mut i: usize = 0;
        while i < self.blocks.len()
            invariant
                self.wf(),
                0 <= i <= self.blocks.len(),
                self@.blocks.len() == self.blocks.len(),
                forall|k: int| 0 <= k < i ==> (#[trigger] self@.blocks[k]).height != h,
            decreases self.blocks.len() - i,
        {
            proof {
                assert(self@.blocks[i as int] == self.blocks@[i as int]@);
            }
            if self.blocks[i].height == h {
                proof {
                    lemma_unique_index(self@.blocks, h, i as int);
                }
                return Some(&self.blocks[i]);
            }
            i = i + 1;
        }
        None
    }

    /// Inserts a block whose height is not yet cached. Blocks are immutable
    /// once inserted, so an already-cached height is never replaced.
    pub fn insert(&mut self, block: CachedBlock)
        requires
            old(self).wf(),
            !spec_contains_height(old(self)@.blocks, block@.height),
        ensures
            final(self).wf(),
            final(self)@.last_tip == old(self)@.last_tip,
            final(self)@.blocks == old(self)@.blocks.push(block@),
            forall|h: u32|
                spec_contains_height(final(self)@.blocks, h) <==> (h == block@.height
                    || spec_contains_height(old(self)@.blocks, h)),
            spec_block_at(final(self)@.blocks, block@.height) == block@,
            forall|h: u32|
                h != block@.height && spec_contains_height(old(self)@.blocks, h)
                    ==> spec_block_at(final(self)@.blocks, h) == spec_block_at(
                    old(self)@.blocks,
                    h,
                ),
    {
        let ghost old_blocks = self@.blocks;
        let ghost bm = block@;
        self.blocks.push(block);
        proof {
            let new_blocks = self@.blocks;
            assert(new_blocks =~= old_blocks.push(bm));
            let n = old_blocks.len() as int;
            assert forall|i: int, j: int| 0 <= i < j < new_blocks.len() implies (
            #[trigger] new_blocks[i]).height != (#[trigger] new_blocks[j]).height by {
                if j < n {
                    assert(old_blocks[i].height != old_blocks[j].height);
                } else {
                    if new_blocks[i].height == bm.height {
                        assert(spec_contains_height(old_blocks, bm.height));
                    }
                }
            }
            assert forall|h: u32| spec_contains_height(new_blocks, h) implies (h == bm.height
                || spec_contains_height(old_blocks, h)) by {
                let i = choose|i: int| 0 <= i < new_blocks.len() && (#[trigger] new_blocks[i]).height
                    == h;
                if i < n {
                    assert(old_blocks[i].height == h);
                }
            }
            assert forall|h: u32| (h == bm.height || spec_contains_height(old_blocks, h)) implies
                spec_contains_height(new_blocks, h) by {
                if h == bm.height {
                    assert(new_blocks[n].height == h);
                } else {
                    let i = choose|i: int| 0 <= i < old_blocks.len() && (
                    #[trigger] old_blocks[i]).height == h;
                    assert(new_blocks[i].height == h);
                }
            }
            lemma_unique_index(new_blocks, bm.height, n);
            assert forall|h: u32|
                h != bm.height && spec_contains_height(old_blocks, h) implies spec_block_at(
                new_blocks,
                h,
            ) == spec_block_at(old_blocks, h) by {
                let i = spec_height_index(old_blocks, h);
                assert(old_blocks[i].height == h);
                assert(new_blocks[i].height == h);
                lemma_unique_index(new_blocks, h, i);
            }
        }
    }

    /// Records the tip observed by a run whose fetch stage had nothing to
    /// do; the blocks are untouched. Returns whether anything changed (and
    /// so whether the caller must persist the cache).
    pub fn refresh_tip(&mut self, tip: u32) -> (changed: bool)
        ensures
            final(self)@.blocks == old(self)@.blocks,
            final(self)@.last_tip == Some(tip),
            changed == (old(self)@.last_tip != Some(tip)),
            old(self).wf() ==> final(self).wf(),
    {
        let changed: bool = match self.last_tip {
            Some(t) => t != tip,
            None => true,
        };
        self.last_tip = Some(tip);
        changed
    }
}

/// The heights of `[start, start + n)` that are not cached, in increasing
/// order.
pub open spec fn spec_missing(blocks: Seq<BlockModel>, start: u32, n: int) -> Seq<u32>
    decreases n,
{
    if n <= 0 {
        Seq::empty()
    } else {
        let prefix = spec_missing(blocks, start, n - 1);
        if spec_contains_height(blocks, (start + n - 1) as u32) {
            prefix
        } else {
            prefix.push((start + n - 1) as u32)
        }
    }
}

/// What the missing-height computation yields: absent heights of the range,
/// strictly increasing (hence pairwise distinct).
pub proof fn lemma_missing_properties(blocks: Seq<BlockModel>, start: u32, n: int)
    requires
        0 <= n,
        start + n <= u32::MAX + 1,
    ensures
        forall|j: int|
            0 <= j < spec_missing(blocks, start, n).len() ==> {
                let h = #[trigger] spec_missing(blocks, start, n)[j];
                &&& !spec_contains_height(blocks, h)
                &&& start <= h < start + n
            },
        forall|j1: int, j2: int|
            0 <= j1 < j2 < spec_missing(blocks, start, n).len() ==> spec_missing(blocks, start, n)[j1]
                < spec_missing(blocks, start, n)[j2],
    decreases n,
{
    if n > 0 {
        lemma_missing_properties(blocks, start, n - 1);
        let prefix = spec_missing(blocks, start, n - 1);
        let whole = spec_missing(blocks, start, n);
        let last = (start + n - 1) as u32;
        if !spec_contains_height(blocks, last) {
            assert(whole == prefix.push(last));
            assert(whole[whole.len() - 1] == last);
            assert(forall|j: int| 0 <= j < prefix.len() ==> whole[j] == prefix[j]);
        } else {
            assert(whole == prefix);
        }
    }
}

/// If every height of the range is cached, nothing is missing; and if
/// nothing is missing, every height of the range is cached.
pub proof fn lemma_missing_empty_iff_complete(blocks: Seq<BlockModel>, start: u32, n: int)
    requires
        0 <= n,
        start + n <= u32::MAX + 1,
    ensures
        spec_missing(blocks, start, n).len() == 0 <==> forall|h: u32|
            start <= h < start + n ==> spec_contains_height(blocks, h),
    decreases n,
{
    if n > 0 {
        lemma_missing_empty_iff_complete(blocks, start, n - 1);
        if spec_missing(blocks, start, n).len() == 0 {
            assert(spec_contains_height(blocks, (start + n - 1) as u32));
        } else {
            if forall|h: u32| start <= h < start + n ==> spec_contains_height(blocks, h) {
                assert(forall|h: u32|
                    start <= h < start + n - 1 ==> spec_contains_height(blocks, h));
                assert(spec_contains_height(blocks, (start + n - 1) as u32));
                assert(spec_missing(blocks, start, n - 1).len() == 0);
                assert(false);
            }
        }
    }
}

/// Checks the height range `[start, tip]` that a run will cover. The range
/// is invalid exactly when the node's tip is below the configured start.
pub fn validate_range(start: u32, tip: u32) -> (r: Result<(), StatsError>)
    ensures
        r is Ok <==> start <= tip,
        r is Err ==> r->Err_0 == (StatsError::RangeError { start, tip }),
{
    if tip < start {
        Err(StatsError::RangeError { start, tip })
    } else {
        Ok(())
    }
}

impl BlockCache {
    /// The heights of the inclusive range `[start, tip]` that are not yet
    /// cached, in increasing order: the fetch stage's work list.
    pub fn missing_heights(&self, start: u32, tip: u32) -> (r: Vec<u32>)
        requires
            start <= tip,
        ensures
            r@ == spec_missing(self@.blocks, start, tip - start + 1),
            forall|j: int|
                0 <= j < r@.len() ==> {
                    let h = #[trigger] r@[j];
                    &&& !spec_contains_height(self@.blocks, h)
                    &&& start <= h <= tip
                },
            forall|j1: int, j2: int| 0 <= j1 < j2 < r@.len() ==> r@[j1] < r@[j2],
    {
        proof {
            lemma_missing_properties(self@.blocks, start, tip - start + 1);
        }
        let mut r: Vec<u32> = Vec::new();
        let mut h: u32 = start;
        let mut done: bool = false;
        while !done
            invariant
                start <= tip,
                start <= h <= tip,
                !done ==> r@ == spec_missing(self@.blocks, start, h - start),
                done ==> r@ == spec_missing(self@.blocks, start, tip - start + 1),
            decreases (if done { 0int } else { tip - h + 1 }),
        {
            if self.contains(h) {
            } else {
                r.push(h);
            }
            proof {
                assert(r@ == spec_missing(self@.blocks, start, h - start + 1));
            }
            if h == tip {
                done = true;
            } else {
                h = h + 1;
            }
        }
        r
    }
}

/// Every result of a fetch batch is a success.
pub open spec fn batch_all_ok(results: Seq<Result<CachedBlock, StatsError>>) -> bool {
    forall|k: int| 0 <= k < results.len() ==> (#[trigger] results[k]) is Ok
}

/// Some success of the batch carries a block of height `h`.
pub open spec fn batch_has_height(results: Seq<Result<CachedBlock, StatsError>>, h: u32) -> bool {
    exists|k: int|
        0 <= k < results.len() && (#[trigger] results[k]) is Ok && results[k]->Ok_0@.height == h
}

/// The batch fits the cache: the heights of its successes are pairwise
/// distinct and none of them is already cached. The coordinator fetches
/// exactly the missing heights, which guarantees both.
pub open spec fn batch_compatible(
    results: Seq<Result<CachedBlock, StatsError>>,
    blocks: Seq<BlockModel>,
) -> bool {
    &&& forall|k1: int, k2: int|
        0 <= k1 < k2 < results.len() && (#[trigger] results[k1]) is Ok && (
        #[trigger] results[k2]) is Ok ==> results[k1]->Ok_0@.height != results[k2]->Ok_0@.height
    &&& forall|k: int|
        0 <= k < results.len() && (#[trigger] results[k]) is Ok ==> !spec_contains_height(
            blocks,
            results[k]->Ok_0@.height,
        )
}

impl BlockCache {
    /// Merges the collected results of one fetch batch, all-or-nothing.
    ///
    /// If every fetch succeeded, every fetched block enters the cache and
    /// the tip is recorded. If any fetch failed, that error is returned
    /// and the cache is exactly as it was: no height of the batch is
    /// merged, not even one that succeeded individually.
    ///
    /// The results vector is drained by the call.
    pub fn ingest_fetched(
        &mut self,
        fetched: &mut Vec<Result<CachedBlock, StatsError>>,
        tip: u32,
    ) -> (r: Result<(), StatsError>)
        requires
            old(self).wf(),
            batch_compatible(old(fetched)@, old(self)@.blocks),
        ensures
            r is Ok <==> batch_all_ok(old(fetched)@),
            r is Err ==> *final(self) == *old(self),
            r is Err ==> exists|k: int|
                0 <= k < old(fetched)@.len() && (#[trigger] old(fetched)@[k]) is Err && r->Err_0
                    == old(fetched)@[k]->Err_0,
            r is Ok ==> final(self).wf(),
            r is Ok ==> final(self)@.last_tip == Some(tip),
            r is Ok ==> forall|h: u32|
                #[trigger] spec_contains_height(final(self)@.blocks, h) ==> (spec_contains_height(
                    old(self)@.blocks,
                    h,
                ) || batch_has_height(old(fetched)@, h)),
            r is Ok ==> forall|h: u32|
                spec_contains_height(old(self)@.blocks, h) || batch_has_height(old(fetched)@, h)
                    ==> #[trigger] spec_contains_height(final(self)@.blocks, h),
            r is Ok ==> forall|h: u32|
                #[trigger] spec_contains_height(old(self)@.blocks, h) ==> spec_block_at(
                    final(self)@.blocks,
                    h,
                ) == spec_block_at(old(self)@.blocks, h),
            r is Ok ==> forall|k: int|
                0 <= k < old(fetched)@.len() && (#[trigger] old(fetched)@[k]) is Ok
                    ==> spec_block_at(
                    final(self)@.blocks,
                    old(fetched)@[k]->Ok_0@.height,
                ) == old(fetched)@[k]->Ok_0@,
    {
        let ghost orig = fetched@;
        let ghost n = orig.len() as int;
        let mut collected: Vec<CachedBlock> = Vec::new();
        proof {
            assert(orig.subrange(0, n) =~= orig);
        }
        while fetched.len() > 0
            invariant
                orig.len() == n,
                orig == old(fetched)@,
                *self == *old(self),
                fetched@.len() <= n,
                fetched@ == orig.subrange(0, fetched@.len() as int),
                collected@.len() == n - fetched@.len(),
                forall|j: int|
                    0 <= j < collected@.len() ==> (#[trigger] orig[n - 1 - j]) is Ok
                        && collected@[j] == orig[n - 1 - j]->Ok_0,
            decreases fetched@.len(),
        {
            let ghost len_before = fetched@.len() as int;
            proof {
                assert(fetched@[len_before - 1] == orig[len_before - 1]);
            }
            let item = match fetched.pop() {
                Some(item) => item,
                None => {
                    proof {
                        assert(false);
                    }
                    return Ok(());
                },
            };
            proof {
                assert(fetched@ =~= orig.subrange(0, len_before - 1));
            }
            match item {
                Ok(b) => {
                    collected.push(b);
                },
                Err(e) => {
                    proof {
                        assert(orig == old(fetched)@);
                        assert(orig[len_before - 1] is Err);
                        assert(!batch_all_ok(orig));
                    }
                    return Err(e);
                },
            }
        }
        proof {
            assert forall|k: int| 0 <= k < n implies (#[trigger] orig[k]) is Ok by {
                let j = n - 1 - k;
                assert(orig[n - 1 - j] is Ok);
            }
        }
        self.merge_collected(collected, Ghost(orig), tip);
        proof {
            assert(orig == old(fetched)@);
            assert forall|h: u32| spec_contains_height(self@.blocks, h) implies (
            spec_contains_height(old(self)@.blocks, h) || batch_has_height(old(fetched)@, h)) by {
                assert(spec_contains_height(old(self)@.blocks, h) || batch_has_height(orig, h));
                if !spec_contains_height(old(self)@.blocks, h) {
                    let k = choose|k: int|
                        0 <= k < orig.len() && (#[trigger] orig[k]) is Ok && orig[k]->Ok_0@.height
                            == h;
                    assert(old(fetched)@[k] is Ok && old(fetched)@[k]->Ok_0@.height == h);
                }
            }
            assert forall|h: u32|
                spec_contains_height(old(self)@.blocks, h) || batch_has_height(old(fetched)@, h)
                    implies #[trigger] spec_contains_height(self@.blocks, h) by {
                if spec_contains_height(old(self)@.blocks, h) {
                    assert(spec_contains_height(self@.blocks, h));
                } else {
                    let k = choose|k: int|
                        0 <= k < old(fetched)@.len() && (#[trigger] old(fetched)@[k]) is Ok && old(
                            fetched,
                        )@[k]->Ok_0@.height == h;
                    assert(orig[k] is Ok && orig[k]->Ok_0@.height == h);
                    assert(batch_has_height(orig, h));
                    assert(spec_contains_height(self@.blocks, h));
                }
            }
            assert forall|k: int|
                0 <= k < old(fetched)@.len() && (#[trigger] old(fetched)@[k]) is Ok implies
                spec_block_at(self@.blocks, old(fetched)@[k]->Ok_0@.height) == old(
                fetched,
            )@[k]->Ok_0@ by {
                assert(orig[k] is Ok);
                assert(spec_block_at(self@.blocks, orig[k]->Ok_0@.height) == orig[k]->Ok_0@);
            }
        }
        Ok(())
    }

    /// Merges the blocks of an all-successful batch and records the tip.
    fn merge_collected(
        &mut self,
        collected: Vec<CachedBlock>,
        Ghost(orig): Ghost<Seq<Result<CachedBlock, StatsError>>>,
        tip: u32,
    )
        requires
            old(self).wf(),
            batch_compatible(orig, old(self)@.blocks),
            batch_all_ok(orig),
            collected@.len() == orig.len(),
            forall|j: int|
                0 <= j < collected@.len() ==> collected@[j] == (#[trigger] orig[orig.len() - 1
                    - j])->Ok_0,
        ensures
            final(self).wf(),
            final(self)@.last_tip == Some(tip),
            forall|h: u32|
                #[trigger] spec_contains_height(final(self)@.blocks, h) ==> (spec_contains_height(
                    old(self)@.blocks,
                    h,
                ) || batch_has_height(orig, h)),
            forall|h: u32|
                #[trigger] spec_contains_height(old(self)@.blocks, h) ==> spec_contains_height(
                    final(self)@.blocks,
                    h,
                ),
            forall|h: u32|
                batch_has_height(orig, h) ==> #[trigger] spec_contains_height(
                    final(self)@.blocks,
                    h,
                ),
            forall|h: u32|
                spec_contains_height(old(self)@.blocks, h) ==> spec_block_at(
                    final(self)@.blocks,
                    h,
                ) == spec_block_at(old(self)@.blocks, h),
            forall|k: int|
                0 <= k < orig.len() && (#[trigger] orig[k]) is Ok ==> spec_block_at(
                    final(self)@.blocks,
                    orig[k]->Ok_0@.height,
                ) == orig[k]->Ok_0@,
    {
        let ghost base = self@.blocks;
        let ghost allb = collected@;
        let ghost n = orig.len() as int;
        let ghost m = allb.len() as int;
        proof {
            assert forall|j1: int, j2: int| 0 <= j1 < j2 < m implies (#[trigger] allb[j1])@.height
                != (#[trigger] allb[j2])@.height by {
                assert(allb[j1] == orig[orig.len() - 1 - j1]->Ok_0);
                assert(allb[j2] == orig[orig.len() - 1 - j2]->Ok_0);
                let k1 = n - 1 - j2;
                let k2 = n - 1 - j1;
                assert(orig[k1] is Ok && orig[k2] is Ok);
            }
            assert forall|j: int| 0 <= j < m implies !spec_contains_height(
                base,
                (#[trigger] allb[j])@.height,
            ) by {
                assert(allb[j] == orig[orig.len() - 1 - j]->Ok_0);
                assert(orig[n - 1 - j] is Ok);
            }
            assert(allb.subrange(0, m) =~= allb);
        }
        let mut queue = collected;
        while queue.len() > 0
            invariant
                self.wf(),
                self@.last_tip == old(self)@.last_tip,
                base == old(self)@.blocks,
                allb.len() == m,
                queue@.len() <= m,
                queue@ == allb.subrange(0, queue@.len() as int),
                forall|j1: int, j2: int|
                    0 <= j1 < j2 < m ==> (#[trigger] allb[j1])@.height != (
                    #[trigger] allb[j2])@.height,
                forall|j: int|
                    0 <= j < m ==> !spec_contains_height(base, (#[trigger] allb[j])@.height),
                forall|h: u32|
                    spec_contains_height(self@.blocks, h) <==> (spec_contains_height(base, h)
                        || exists|j: int|
                        queue@.len() <= j < m && (#[trigger] allb[j])@.height == h),
                forall|h: u32|
                    spec_contains_height(base, h) ==> spec_block_at(self@.blocks, h)
                        == spec_block_at(base, h),
                forall|j: int|
                    queue@.len() <= j < m ==> spec_block_at(self@.blocks, (
                    #[trigger] allb[j])@.height) == allb[j]@,
            decreases queue@.len(),
        {
            let ghost len_before = queue@.len() as int;
            proof {
                assert(queue@[len_before - 1] == allb[len_before - 1]);
            }
            let b = match queue.pop() {
                Some(b) => b,
                None => {
                    proof {
                        assert(false);
                    }
                    return ;
                },
            };
            proof {
                assert(queue@ =~= allb.subrange(0, len_before - 1));
                assert(b == allb[len_before - 1]);
                if spec_contains_height(self@.blocks, b@.height) {
                    if spec_contains_height(base, b@.height) {
                        assert(false);
                    } else {
                        let j = choose|j: int|
                            len_before <= j < m && (#[trigger] allb[j])@.height == b@.height;
                        assert(allb[len_before - 1]@.height != allb[j]@.height);
                        assert(false);
                    }
                }
            }
            let ghost before = self@.blocks;
            self.insert(b);
            proof {
                assert forall|h: u32| spec_contains_height(self@.blocks, h) implies (
                spec_contains_height(base, h) || exists|j: int|
                    len_before - 1 <= j < m && (#[trigger] allb[j])@.height == h) by {
                    if h == b@.height {
                        assert(allb[len_before - 1]@.height == h);
                    } else {
                        assert(spec_contains_height(before, h));
                        if !spec_contains_height(base, h) {
                            let j = choose|j: int|
                                len_before <= j < m && (#[trigger] allb[j])@.height == h;
                            assert(len_before - 1 <= j < m && allb[j]@.height == h);
                        }
                    }
                }
                assert forall|h: u32| (spec_contains_height(base, h) || exists|j: int|
                    len_before - 1 <= j < m && (#[trigger] allb[j])@.height == h) implies
                    spec_contains_height(self@.blocks, h) by {}
            }
        }
        self.last_tip = Some(tip);
        proof {
            assert forall|h: u32| spec_contains_height(self@.blocks, h) implies (
            spec_contains_height(base, h) || batch_has_height(orig, h)) by {
                if !spec_contains_height(base, h) {
                    let j = choose|j: int| 0 <= j < m && (#[trigger] allb[j])@.height == h;
                    assert(allb[j] == orig[orig.len() - 1 - j]->Ok_0);
                    assert(orig[n - 1 - j] is Ok && orig[n - 1 - j]->Ok_0@.height == h);
                }
            }
            assert forall|h: u32| batch_has_height(orig, h) implies spec_contains_height(
                self@.blocks,
                h,
            ) by {
                let k = choose|k: int|
                    0 <= k < orig.len() && (#[trigger] orig[k]) is Ok && orig[k]->Ok_0@.height == h;
                let j = n - 1 - k;
                assert(allb[j] == orig[orig.len() - 1 - j]->Ok_0);
                assert(orig.len() - 1 - j == k);
                assert(allb[j]@.height == h);
            }
            assert forall|k: int| 0 <= k < orig.len() && (#[trigger] orig[k]) is Ok implies
                spec_block_at(self@.blocks, orig[k]->Ok_0@.height) == orig[k]->Ok_0@ by {
                let j = n - 1 - k;
                assert(allb[j] == orig[orig.len() - 1 - j]->Ok_0);
                assert(orig.len() - 1 - j == k);
                assert(allb[j] == orig[k]->Ok_0);
            }
        }
    }
}

} // verus!
