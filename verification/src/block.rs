//! Block data model: coinbase outputs and cached blocks.

use vstd::prelude::*;

verus! {

/// One output of a block's coinbase transaction: an amount in the smallest
/// unit and the set of addresses the node resolved for its script (possibly
/// empty for non-standard scripts).
pub struct CoinbaseOutput {
    pub value_zat: i64,
    pub addresses: Vec<String>,
}

/// Mathematical image of a coinbase output.
#[verifier::ext_equal]
pub struct OutputModel {
    pub value: i64,
    pub addresses: Seq<Seq<char>>,
}

impl View for CoinbaseOutput {
    type V = OutputModel;

    open spec fn view(&self) -> OutputModel {
        OutputModel {
            value: self.value_zat,
            addresses: self.addresses@.map_values(|a: String| a@),
        }
    }
}

/// A block as the cache keeps it: height, hash, and the outputs of the
/// coinbase transaction (the block's first transaction), in order.
pub struct CachedBlock {
    pub height: u32,
    pub hash: String,
    pub outputs: Vec<CoinbaseOutput>,
}

/// Mathematical image of a cached block.
#[verifier::ext_equal]
pub struct BlockModel {
    pub height: u32,
    pub hash: Seq<char>,
    pub outputs: Seq<OutputModel>,
}

impl View for CachedBlock {
    type V = BlockModel;

    open spec fn view(&self) -> BlockModel {
        BlockModel {
            height: self.height,
            hash: self.hash@,
            outputs: self.outputs@.map_values(|o: CoinbaseOutput| o@),
        }
    }
}

/// Sum of the values of the first `n` outputs.
pub open spec fn sum_values_to(outputs: Seq<OutputModel>, n: int) -> int
    decreases n,
{
    if n <= 0 {
        0
    } else {
        sum_values_to(outputs, n - 1) + outputs[n - 1].value
    }
}

/// Sum of the absolute values of the first `n` outputs; every partial sum
/// of output values lies within it, which is what the overflow proofs use.
pub open spec fn sum_abs_to(outputs: Seq<OutputModel>, n: int) -> int
    decreases n,
{
    if n <= 0 {
        0
    } else {
        sum_abs_to(outputs, n - 1) + abs_val(outputs[n - 1].value as int)
    }
}

pub open spec fn abs_val(v: int) -> int {
    if v < 0 {
        -v
    } else {
        v
    }
}

/// The coinbase total of a block: the sum of all its output values.
pub open spec fn spec_coinbase_total(b: BlockModel) -> int {
    sum_values_to(b.outputs, b.outputs.len() as int)
}

/// Sum of the absolute output values of a block.
pub open spec fn spec_abs_total(b: BlockModel) -> int {
    sum_abs_to(b.outputs, b.outputs.len() as int)
}

pub proof fn lemma_sum_abs_nonneg(outputs: Seq<OutputModel>, n: int)
    ensures
        sum_abs_to(outputs, n) >= 0,
    decreases n,
{
    if n > 0 {
        lemma_sum_abs_nonneg(outputs, n - 1);
    }
}

pub proof fn lemma_sum_abs_monotone(outputs: Seq<OutputModel>, m: int, n: int)
    requires
        m <= n,
    ensures
        sum_abs_to(outputs, m) <= sum_abs_to(outputs, n),
    decreases n - m,
{
    if m < n {
        lemma_sum_abs_monotone(outputs, m, n - 1);
    }
}

pub proof fn lemma_sum_values_bounded(outputs: Seq<OutputModel>, n: int)
    ensures
        abs_val(sum_values_to(outputs, n)) <= sum_abs_to(outputs, n),
    decreases n,
{
    if n > 0 {
        lemma_sum_values_bounded(outputs, n - 1);
    }
}

impl CachedBlock {
    /// The coinbase total of this block, independent of any miner: the sum
    /// of the values of all its coinbase outputs.
    pub fn coinbase_total(&self) -> (r: i64)
        requires
            spec_abs_total(self@) <= i64::MAX,
        ensures
            r == spec_coinbase_total(self@),
    {
        let mut sum: i64 = 0;
        let mut i: usize = 0;
        proof {
            lemma_sum_abs_nonneg(self@.outputs, self@.outputs.len() as int);
        }
        while i < self.outputs.len()
            invariant
                0 <= i <= self.outputs.len(),
                self@.outputs.len() == self.outputs.len(),
                spec_abs_total(self@) <= i64::MAX,
                sum == sum_values_to(self@.outputs, i as int),
            decreases self.outputs.len() - i,
        {
            proof {
                lemma_sum_values_bounded(self@.outputs, i as int);
                lemma_sum_abs_monotone(self@.outputs, i as int, self@.outputs.len() as int);
                lemma_sum_abs_monotone(self@.outputs, i + 1, self@.outputs.len() as int);
                lemma_sum_abs_nonneg(self@.outputs, i as int);
                assert(self@.outputs[i as int].value == self.outputs@[i as int].value_zat);
            }
            sum = sum + self.outputs[i].value_zat;
            i = i + 1;
        }
        sum
    }
}

/// True when `addr` is one of the addresses of output `o`.
pub open spec fn output_matches(o: OutputModel, addr: Seq<char>) -> bool {
    exists|j: int| 0 <= j < o.addresses.len() && o.addresses[j] == addr
}

/// Sum of the values of the first `n` outputs whose address set contains
/// `addr`.
pub open spec fn matched_value_to(outputs: Seq<OutputModel>, addr: Seq<char>, n: int) -> int
    decreases n,
{
    if n <= 0 {
        0
    } else {
        matched_value_to(outputs, addr, n - 1) + if output_matches(outputs[n - 1], addr) {
            outputs[n - 1].value
        } else {
            0
        }
    }
}

/// The value of a block matched by one derived address: the sum over the
/// outputs whose address set contains it.
pub open spec fn spec_matched_value(b: BlockModel, addr: Seq<char>) -> int {
    matched_value_to(b.outputs, addr, b.outputs.len() as int)
}

pub proof fn lemma_matched_value_bounded(outputs: Seq<OutputModel>, addr: Seq<char>, n: int)
    ensures
        abs_val(matched_value_to(outputs, addr, n)) <= sum_abs_to(outputs, n),
    decreases n,
{
    if n > 0 {
        lemma_matched_value_bounded(outputs, addr, n - 1);
    }
}

/// Whether any of the `addresses` equals `addr`.
fn contains_address(addresses: &Vec<String>, addr: &String) -> (r: bool)
    ensures
        r == exists|j: int| 0 <= j < addresses@.len() && (#[trigger] addresses@[j])@ == addr@,
{
    let mut j: usize = 0;
    while j < addresses.len()
        invariant
            0 <= j <= addresses@.len(),
            forall|k: int| 0 <= k < j ==> (#[trigger] addresses@[k])@ != addr@,
        decreases addresses@.len() - j,
    {
        let candidate: &String = &addresses[j];
        if candidate.eq(addr) {
            assert((addresses@[j as int])@ == addr@);
            return true;
        }
        j = j + 1;
    }
    false
}

impl CachedBlock {
    /// The value of this block matched by `addr`: the sum of the values of
    /// the outputs whose address set contains `addr`.
    pub fn matched_value(&self, addr: &String) -> (r: i64)
        requires
            spec_abs_total(self@) <= i64::MAX,
        ensures
            r == spec_matched_value(self@, addr@),
    {
        let mut sum: i64 = 0;
        let mut i: usize = 0;
        while i < self.outputs.len()
            invariant
                0 <= i <= self.outputs.len(),
                self@.outputs.len() == self.outputs.len(),
                spec_abs_total(self@) <= i64::MAX,
                sum == matched_value_to(self@.outputs, addr@, i as int),
            decreases self.outputs.len() - i,
        {
            proof {
                lemma_matched_value_bounded(self@.outputs, addr@, i as int);
                lemma_sum_abs_monotone(self@.outputs, i + 1, self@.outputs.len() as int);
                lemma_sum_abs_nonneg(self@.outputs, i as int);
                assert(self@.outputs[i as int] == self.outputs@[i as int]@);
            }
            let output: &CoinbaseOutput = &self.outputs[i];
            let ghost mapped = output.addresses@.map_values(|a: String| a@);
            if contains_address(&output.addresses, addr) {
                proof {
                    let j = choose|j: int|
                        0 <= j < output.addresses@.len() && (#[trigger] output.addresses@[j])@
                            == addr@;
                    assert(mapped[j] == addr@);
                    assert(self@.outputs[i as int].addresses == mapped);
                    assert(self@.outputs[i as int].addresses[j] == addr@);
                    assert(output_matches(self@.outputs[i as int], addr@));
                }
                sum = sum + output.value_zat;
            } else {
                proof {
                    assert forall|j: int| 0 <= j < mapped.len() implies #[trigger] mapped[j]
                        != addr@ by {
                        assert(mapped[j] == (output.addresses@[j])@);
                    }
                    assert(!output_matches(self@.outputs[i as int], addr@));
                }
            }
            i = i + 1;
        }
        sum
    }
}

} // verus!
