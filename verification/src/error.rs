//! Error taxonomy of the pipeline core.

use vstd::prelude::*;
use vstd::string::StrSliceExecFns;
use vstd::string::StringExecFns;

verus! {

/// A failure reported by the JSON-RPC layer for one call.
#[derive(Debug)]
pub enum RpcFailure {
    /// The response carried a JSON-RPC error object.
    ErrorObject { code: i64, message: String },
    /// The response carried neither an error object nor a result.
    MissingResult,
}

/// A fatal error of the pipeline core.
#[derive(Debug)]
pub enum StatsError {
    /// The node's tip height is below the configured start height.
    RangeError { start: u32, tip: u32 },
    /// The persisted cache document could not be parsed.
    CacheCorrupt,
    /// A JSON-RPC call failed; the method name is kept for diagnosability.
    RpcError { method: String, failure: RpcFailure },
}

/// A long key shortened for diagnostics: the first and last eight
/// characters around an ellipsis; a short key unchanged.
pub open spec fn spec_shorten_key(k: Seq<char>) -> Seq<char> {
    if k.len() <= 16 {
        k
    } else {
        k.subrange(0, 8) + seq!['…'] + k.subrange(k.len() - 8, k.len() as int)
    }
}

/// Shortens an encoded viewing key for an error message, keeping only its
/// first and last eight characters.
pub fn shorten_key(key: &str) -> (r: String)
    ensures
        r@ == spec_shorten_key(key@),
{
    let n: usize = key.unicode_len();
    if n <= 16 {
        key.to_owned()
    } else {
        let head: &str = key.substring_char(0, 8);
        let tail: &str = key.substring_char(n - 8, n);
        let mut out: String = head.to_owned();
        out.append("…");
        proof {
            reveal_strlit("…");
            assert("…"@ =~= seq!['…']);
        }
        out.append(tail);
        proof {
            assert(out@ =~= spec_shorten_key(key@));
        }
        out
    }
}

} // verus!
