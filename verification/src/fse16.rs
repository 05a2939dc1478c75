//! The bare range-coder state transitions under the names used by the
//! sixteen-bit entropy stage: the same interval map as the range codec,
//! with a symbol search that also accepts an exact cumulative hit.

use vstd::prelude::*;

use crate::r_ans::{spec_compress, spec_decompress};
use crate::pow2;

verus! {

/// Push one symbol of frequency `frequency` and cumulative start `cumul`
/// onto the state.
pub fn compress(state: usize, table_log: usize, frequency: usize, cumul: usize) -> (r: usize)
    requires
        1 <= table_log <= 15,
        1 <= frequency,
        spec_compress(state as nat, table_log as nat, frequency as nat, cumul as nat)
            <= usize::MAX,
    ensures
        r == spec_compress(state as nat, table_log as nat, frequency as nat, cumul as nat),
{
    crate::r_ans::compress_state(state, table_log, frequency, cumul)
}

/// Pop one symbol off the state: the exact inverse of `compress`.
pub fn decompress(state: usize, frequency: usize, table_log: usize, cumul: usize) -> (r: usize)
    requires
        1 <= table_log <= 15,
        frequency * (state as nat / pow2(table_log as nat)) + state as nat % pow2(
            table_log as nat,
        ) <= usize::MAX,
        cumul <= frequency * (state as nat / pow2(table_log as nat)) + state as nat % pow2(
            table_log as nat,
        ),
    ensures
        r == spec_decompress(state as nat, frequency as nat, table_log as nat, cumul as nat),
{
    crate::r_ans::decompress_state(state, frequency, table_log, cumul)
}

/// Find the symbol owning `state` in the cumulative function; a state
/// sitting exactly on a cumulative boundary names the first symbol starting
/// there, even one of zero frequency.
pub fn find_s(state: usize, cs: &[usize]) -> (r: usize)
    requires
        cs@.len() >= 2,
        cs@[0] <= state,
        state <= cs@[cs@.len() - 1],
    ensures
        r < cs@.len(),
        cs@[r as int] <= state,
        forall|j: int| 0 <= j < r ==> cs@[j] < state,
        cs@[r as int] == state || (r + 1 < cs@.len() && (state as int) < cs@[r as int + 1]),
{
    let n = cs.len();
    let mut i: usize = 0;
    while i < n
        invariant
            n == cs@.len(),
            n >= 2,
            0 <= i <= n,
            cs@[0] <= state,
            state <= cs@[cs@.len() - 1],
            forall|j: int| 0 <= j < i ==> cs@[j] < state,
        decreases n - i,
    {
        if cs[i] == state {
            return i;
        }
        if cs[i] > state {
            proof {
                assert(i > 0);
            }
            return i - 1;
        }
        i = i + 1;
    }
    proof {
        assert(cs@[cs@.len() - 1] < state);
        assert(false);
    }
    0
}

} // verus!
