//! Interpretation of JSON-RPC responses and extraction of coinbase data
//! from a verbose block.
//!
//! The HTTP transport and the JSON parsing are external: the caller hands
//! in the parsed envelope fields and the parsed block as plain values.

use vstd::prelude::*;

use crate::block::CachedBlock;
use crate::block::CoinbaseOutput;
use crate::block::OutputModel;
use crate::error::RpcFailure;
use crate::error::StatsError;

verus! {

/// One output of a transaction as the node reports it: a value and an
/// optional address list (absent for non-standard scripts).
pub struct RpcVout {
    pub value_zat: i64,
    pub addresses: Option<Vec<String>>,
}

/// One transaction of a verbose block, reduced to its outputs.
pub struct RpcTx {
    pub vout: Vec<RpcVout>,
}

/// A verbose block as the node reports it, reduced to what the pipeline
/// reads.
pub struct RpcBlock {
    pub hash: String,
    pub height: u32,
    pub tx: Vec<RpcTx>,
}

/// Mathematical image of a reported output: a missing address list reads
/// as the empty set of addresses.
pub open spec fn vout_model(v: RpcVout) -> OutputModel {
    OutputModel {
        value: v.value_zat,
        addresses: match v.addresses {
            Option::Some(a) => a@.map_values(|s: String| s@),
            Option::None => Seq::empty(),
        },
    }
}

/// The coinbase outputs of a verbose block: the outputs of its first
/// transaction, and none when the block reports no transactions (which a
/// valid block should not).
pub open spec fn spec_coinbase_outputs(b: RpcBlock) -> Seq<OutputModel> {
    if b.tx@.len() == 0 {
        Seq::empty()
    } else {
        b.tx@[0].vout@.map_values(|v: RpcVout| vout_model(v))
    }
}

impl RpcBlock {
    /// Extracts the coinbase outputs: value and resolved address set of
    /// each output of the block's first transaction.
    pub fn coinbase_outputs(&self) -> (r: Vec<CoinbaseOutput>)
        ensures
            r@.map_values(|o: CoinbaseOutput| o@) == spec_coinbase_outputs(*self),
    {
        let mut r: Vec<CoinbaseOutput> = Vec::new();
        if self.tx.len() == 0 {
            proof {
                assert(r@.map_values(|o: CoinbaseOutput| o@) =~= spec_coinbase_outputs(*self));
            }
            return r;
        }
        let tx: &RpcTx = &self.tx[0];
        let mut i: usize = 0;
        while i < tx.vout.len()
            invariant
                tx == &self.tx@[0],
                self.tx@.len() > 0,
                i <= tx.vout@.len(),
                r@.map_values(|o: CoinbaseOutput| o@) =~= tx.vout@.subrange(
                    0,
                    i as int,
                ).map_values(|v: RpcVout| vout_model(v)),
            decreases tx.vout@.len() - i,
        {
            let vout: &RpcVout = &tx.vout[i];
            let mut addresses: Vec<String> = Vec::new();
            match &vout.addresses {
                Some(list) => {
                    let mut j: usize = 0;
                    while j < list.len()
                        invariant
                            j <= list@.len(),
                            addresses@.map_values(|s: String| s@) =~= list@.subrange(
                                0,
                                j as int,
                            ).map_values(|s: String| s@),
                        decreases list@.len() - j,
                    {
                        let ghost before = addresses@;
                        addresses.push(list[j].clone());
                        proof {
                            assert(addresses@.map_values(|s: String| s@) =~= before.map_values(
                                |s: String| s@,
                            ).push(list@[j as int]@));
                            assert(list@.subrange(0, j + 1).map_values(|s: String| s@)
                                =~= list@.subrange(0, j as int).map_values(|s: String| s@).push(
                                list@[j as int]@,
                            ));
                        }
                        j = j + 1;
                    }
                    proof {
                        assert(list@.subrange(0, list@.len() as int) =~= list@);
                    }
                },
                None => {
                    proof {
                        assert(addresses@.map_values(|s: String| s@) =~= Seq::<Seq<char>>::empty());
                    }
                },
            }
            let output = CoinbaseOutput { value_zat: vout.value_zat, addresses };
            proof {
                assert(output@ =~~= vout_model(self.tx@[0].vout@[i as int]));
            }
            let ghost before = r@;
            r.push(output);
            proof {
                assert(r@.map_values(|o: CoinbaseOutput| o@) =~= before.map_values(
                    |o: CoinbaseOutput| o@,
                ).push(output@));
                assert(tx.vout@.subrange(0, i + 1).map_values(|v: RpcVout| vout_model(v))
                    =~= tx.vout@.subrange(0, i as int).map_values(|v: RpcVout| vout_model(v)).push(
                    vout_model(tx.vout@[i as int]),
                ));
            }
            i = i + 1;
        }
        proof {
            assert(tx.vout@.subrange(0, tx.vout@.len() as int) =~= tx.vout@);
        }
        r
    }
}

/// Assembles the cached form of a fetched block: the requested height, the
/// hash the node resolved for it, and the extracted coinbase outputs.
pub fn block_from_rpc(height: u32, hash: String, block: &RpcBlock) -> (r: CachedBlock)
    ensures
        r@.height == height,
        r@.hash == hash@,
        r@.outputs == spec_coinbase_outputs(*block),
{
    let outputs = block.coinbase_outputs();
    CachedBlock { height, hash, outputs }
}

/// Interprets a JSON-RPC response envelope for `method`: an error object
/// wins over everything, a missing result is itself an error, and
/// otherwise the result is handed back. The method name is attached to
/// every failure for diagnosability.
pub fn interpret_envelope<T>(method: &str, result: Option<T>, error: Option<(i64, String)>) -> (r:
    Result<T, StatsError>)
    ensures
        error is Some ==> ({
            &&& r is Err
            &&& r->Err_0 matches StatsError::RpcError { method: m, failure: f }
            &&& m@ == method@
            &&& f == (RpcFailure::ErrorObject { code: error->Some_0.0, message: error->Some_0.1 })
        }),
        error is None && result is Some ==> r is Ok && r->Ok_0 == result->Some_0,
        error is None && result is None ==> ({
            &&& r is Err
            &&& r->Err_0 matches StatsError::RpcError { method: m, failure: f }
            &&& m@ == method@
            &&& f == RpcFailure::MissingResult
        }),
{
    match error {
        Some((code, message)) => Err(
            StatsError::RpcError {
                method: method.to_owned(),
                failure: RpcFailure::ErrorObject { code, message },
            },
        ),
        None => match result {
            Some(value) => Ok(value),
            None => Err(
                StatsError::RpcError {
                    method: method.to_owned(),
                    failure: RpcFailure::MissingResult,
                },
            ),
        },
    }
}

} // verus!
