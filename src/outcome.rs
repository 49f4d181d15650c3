//! Turning the per-chunk outcomes of a write or a read into one result that
//! names every chunk that failed.
use vstd::prelude::*;

use crate::chunk_map::{all_filled, filled_count, get_final_byte_vec, joined, ChunkMap};
use crate::error::ChunkError;

verus! {

/// The indices `i` with `!ok[i]`, in increasing order.
pub open spec fn failures(ok: Seq<bool>) -> Seq<usize>
    decreases ok.len(),
{
    if ok.len() == 0 {
        Seq::empty()
    } else if ok.last() {
        failures(ok.drop_last())
    } else {
        failures(ok.drop_last()).push((ok.len() - 1) as usize)
    }
}

/// Every chunk succeeded.
pub open spec fn all_ok(ok: Seq<bool>) -> bool {
    forall|i: int| 0 <= i < ok.len() ==> #[trigger] ok[i]
}

proof fn lemma_failures_empty(ok: Seq<bool>)
    ensures
        failures(ok).len() == 0 <==> all_ok(ok),
    decreases ok.len(),
{
    if ok.len() > 0 {
        let p = ok.drop_last();
        lemma_failures_empty(p);
        if all_ok(ok) {
            assert forall|i: int| 0 <= i < p.len() implies #[trigger] p[i] by {
                assert(ok[i]);
            }
        }
        if failures(ok).len() == 0 {
            assert forall|i: int| 0 <= i < ok.len() implies #[trigger] ok[i] by {
                if i < p.len() {
                    assert(p[i]);
                }
            }
        }
    }
}

/// The indices of the chunks whose work failed, in increasing order.
pub fn failed_indices(succeeded: &Vec<bool>) -> (r: Vec<usize>)
    ensures
        r@ == failures(succeeded@),
{
    let mut out: Vec<usize> = Vec::new();
    let mut i: usize = 0;
    while i < succeeded.len()
        invariant
            0 <= i <= succeeded@.len(),
            out@ == failures(succeeded@.take(i as int)),
        decreases succeeded@.len() - i,
    {
        proof {
            assert(succeeded@.take(i + 1).drop_last() =~= succeeded@.take(i as int));
        }
        if !succeeded[i] {
            out.push(i);
        }
        i = i + 1;
    }
    proof {
        assert(succeeded@.take(i as int) =~= succeeded@);
    }
    out
}

/// The result of a write whose chunk `i` succeeded where `succeeded[i]`:
/// success when all did, else a failure naming every chunk that did not.
pub fn write_outcome(succeeded: &Vec<bool>) -> (r: Result<(), ChunkError>)
    ensures
        r is Ok <==> all_ok(succeeded@),
        !all_ok(succeeded@) ==> (r matches Err(ChunkError::ChunkWriteFailed(v)) && v@ == failures(
            succeeded@,
        )),
{
    let failed = failed_indices(succeeded);
    proof {
        lemma_failures_empty(succeeded@);
    }
    if failed.len() == 0 {
        Ok(())
    } else {
        Err(ChunkError::ChunkWriteFailed(failed))
    }
}

/// The result of a read whose chunk `i` was read and stored in `map` where
/// `succeeded[i]`: a failure naming every chunk that could not be read, else
/// the map's chunks joined in index order, or a partial read where a slot is
/// still empty.
pub fn read_outcome(succeeded: &Vec<bool>, map: &ChunkMap) -> (r: Result<Vec<u8>, ChunkError>)
    ensures
        r is Ok <==> all_ok(succeeded@) && all_filled(map@),
        !all_ok(succeeded@) ==> (r matches Err(ChunkError::ChunkReadFailed(v)) && v@ == failures(
            succeeded@,
        )),
        all_ok(succeeded@) && !all_filled(map@) ==> r == Err::<Vec<u8>, ChunkError>(
            ChunkError::PartialRead { expected: map@.len() as usize, found: filled_count(map@) as usize },
        ),
        r matches Ok(v) ==> v@ == joined(map@),
{
    let failed = failed_indices(succeeded);
    proof {
        lemma_failures_empty(succeeded@);
    }
    if failed.len() == 0 {
        get_final_byte_vec(map)
    } else {
        Err(ChunkError::ChunkReadFailed(failed))
    }
}

} // verus!
