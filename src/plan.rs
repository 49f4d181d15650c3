//! The chunk planner: where each chunk starts and ends, and the chunks cut out
//! of a buffer.
use vstd::prelude::*;

use crate::error::ChunkError;

verus! {

/// Length of every chunk but the last: `total / k`.
pub open spec fn base_len(total: nat, k: nat) -> nat
    recommends
        k > 0,
{
    total / k
}

/// First byte of chunk `i` out of `k` over `total` bytes.
pub open spec fn chunk_start(total: nat, k: nat, i: nat) -> nat {
    i * base_len(total, k)
}

/// One past the last byte of chunk `i`: the last chunk runs to the end and so
/// absorbs the remainder `total % k`.
pub open spec fn chunk_end(total: nat, k: nat, i: nat) -> nat {
    if i + 1 == k {
        total
    } else {
        (i + 1) * base_len(total, k)
    }
}

/// The bytes of chunk `i` when `b` is cut into `k` chunks.
pub open spec fn chunk_bytes(b: Seq<u8>, k: nat, i: nat) -> Seq<u8> {
    b.subrange(chunk_start(b.len(), k, i) as int, chunk_end(b.len(), k, i) as int)
}

/// A half-open byte range `[start, end)` of a buffer.
#[derive(Debug, Clone, Copy, PartialEq, Eq)]
pub struct ChunkRange {
    pub start: usize,
    pub end: usize,
}

/// `ranges` are the `k` chunk ranges over `total` bytes.
pub open spec fn is_plan(ranges: Seq<ChunkRange>, total: nat, k: nat) -> bool {
    &&& ranges.len() == k
    &&& forall|i: int|
        0 <= i < k ==> {
            &&& #[trigger] ranges[i].start == chunk_start(total, k, i as nat)
            &&& ranges[i].end == chunk_end(total, k, i as nat)
        }
}

/// Planning is deterministic: two plans for the same length and split count
/// have the same ranges.
pub proof fn lemma_plan_deterministic(a: Seq<ChunkRange>, b: Seq<ChunkRange>, total: nat, k: nat)
    requires
        is_plan(a, total, k),
        is_plan(b, total, k),
    ensures
        a == b,
{
    assert forall|i: int| 0 <= i < k implies a[i] == b[i] by {
        assert(a[i].start == b[i].start && a[i].end == b[i].end);
    }
    assert(a =~= b);
}

proof fn lemma_chunk_bounds(total: nat, k: nat, i: nat)
    requires
        k > 0,
        i < k,
    ensures
        chunk_start(total, k, i) <= chunk_end(total, k, i) <= total,
{
    let b = base_len(total, k);
    assert(b * k <= total) by (nonlinear_arith)
        requires
            k > 0,
            b == total / k,
    ;
    assert(i * b <= (i + 1) * b) by (nonlinear_arith);
    assert((i + 1) * b <= k * b) by (nonlinear_arith)
        requires
            i < k,
    ;
    assert(i * b <= k * b) by (nonlinear_arith)
        requires
            i < k,
    ;
}

/// The plan is a partition of `[0, total)` into `k` ranges in increasing
/// order: the first starts at zero, each ends where the next starts, the last
/// ends at `total`; every chunk but the last holds `total / k` bytes and the
/// last holds `total / k + total % k`.
pub proof fn lemma_plan_partitions(total: nat, k: nat)
    requires
        k > 0,
    ensures
        chunk_start(total, k, 0) == 0,
        chunk_end(total, k, (k - 1) as nat) == total,
        forall|i: nat| i + 1 < k ==> #[trigger] chunk_end(total, k, i) == chunk_start(total, k, i + 1),
        forall|i: nat|
            i < k ==> chunk_start(total, k, i) <= #[trigger] chunk_end(total, k, i) <= total,
        forall|i: nat|
            i + 1 < k ==> #[trigger] chunk_end(total, k, i) - chunk_start(total, k, i) == total / k,
        chunk_end(total, k, (k - 1) as nat) - chunk_start(total, k, (k - 1) as nat) == total / k
            + total % k,
{
    assert forall|i: nat| i < k implies chunk_start(total, k, i) <= #[trigger] chunk_end(total, k, i)
        <= total by {
        lemma_chunk_bounds(total, k, i);
    }
    assert forall|i: nat| i + 1 < k implies #[trigger] chunk_end(total, k, i) - chunk_start(total, k, i)
        == total / k by {
        let b = total / k;
        assert((i + 1) * b - i * b == b) by (nonlinear_arith);
    }
    let b = total / k;
    assert(total == k * b + total % k) by (nonlinear_arith)
        requires
            k > 0,
            b == total / k,
    ;
    assert(((k - 1) as nat) * b == k * b - b) by (nonlinear_arith)
        requires
            k > 0,
    ;
}

/// The number of bytes every chunk but the last receives.
pub fn get_byte_split_length(total_byte_length: usize, split_count: usize) -> (r: usize)
    requires
        split_count > 0,
    ensures
        r == base_len(total_byte_length as nat, split_count as nat),
{
    total_byte_length / split_count
}

/// The `split_count` byte ranges that cut a buffer of `total_len` bytes:
/// `split_count - 1` ranges of `total_len / split_count` bytes, then one that
/// runs to the end. A split count of zero is refused.
pub fn plan(total_len: usize, split_count: usize) -> (r: Result<Vec<ChunkRange>, ChunkError>)
    ensures
        split_count == 0 <==> r is Err,
        split_count == 0 ==> r == Err::<Vec<ChunkRange>, ChunkError>(ChunkError::InvalidArgument),
        r matches Ok(ranges) ==> is_plan(ranges@, total_len as nat, split_count as nat),
{
    if split_count == 0 {
        return Err(ChunkError::InvalidArgument);
    }
    let base = get_byte_split_length(total_len, split_count);
    let mut ranges: Vec<ChunkRange> = Vec::new();
    let mut i: usize = 0;
    while i < split_count
        invariant
            0 <= i <= split_count,
            base == base_len(total_len as nat, split_count as nat),
            ranges@.len() == i,
            forall|j: int|
                0 <= j < i ==> {
                    &&& #[trigger] ranges@[j].start == chunk_start(
                        total_len as nat,
                        split_count as nat,
                        j as nat,
                    )
                    &&& ranges@[j].end == chunk_end(total_len as nat, split_count as nat, j as nat)
                },
        decreases split_count - i,
    {
        proof {
            lemma_chunk_bounds(total_len as nat, split_count as nat, i as nat);
        }
        let start: usize = i * base;
        let end: usize = if i + 1 == split_count {
            total_len
        } else {
            proof {
                assert((i + 1) * base == i * base + base) by (nonlinear_arith);
            }
            start + base
        };
        ranges.push(ChunkRange { start, end });
        i = i + 1;
    }
    Ok(ranges)
}

/// The bytes `b[start..end]`, copied.
fn copy_range(b: &Vec<u8>, start: usize, end: usize) -> (r: Vec<u8>)
    requires
        start <= end <= b@.len(),
    ensures
        r@ == b@.subrange(start as int, end as int),
{
    let mut out: Vec<u8> = Vec::new();
    let mut j: usize = start;
    while j < end
        invariant
            start <= j <= end <= b@.len(),
            out@ == b@.subrange(start as int, j as int),
        decreases end - j,
    {
        out.push(b[j]);
        proof {
            assert(out@ =~= b@.subrange(start as int, j + 1));
        }
        j = j + 1;
    }
    out
}

/// Cuts `bytes` into `split_count` contiguous chunks along `plan`.
pub fn split_bytes(bytes: &Vec<u8>, split_count: usize) -> (r: Result<Vec<Vec<u8>>, ChunkError>)
    ensures
        split_count == 0 <==> r is Err,
        split_count == 0 ==> r == Err::<Vec<Vec<u8>>, ChunkError>(ChunkError::InvalidArgument),
        r matches Ok(chunks) ==> {
            &&& chunks@.len() == split_count
            &&& forall|i: int|
                0 <= i < split_count ==> #[trigger] chunks@[i]@ == chunk_bytes(
                    bytes@,
                    split_count as nat,
                    i as nat,
                )
        },
{
    let ranges = match plan(bytes.len(), split_count) {
        Ok(ranges) => ranges,
        Err(e) => return Err(e),
    };
    let mut chunks: Vec<Vec<u8>> = Vec::new();
    let mut i: usize = 0;
    while i < ranges.len()
        invariant
            ranges@.len() == split_count,
            0 <= i <= split_count,
            chunks@.len() == i,
            forall|j: int|
                0 <= j < split_count ==> {
                    &&& #[trigger] ranges@[j].start == chunk_start(
                        bytes@.len(),
                        split_count as nat,
                        j as nat,
                    )
                    &&& ranges@[j].end == chunk_end(bytes@.len(), split_count as nat, j as nat)
                },
            forall|j: int|
                0 <= j < i ==> #[trigger] chunks@[j]@ == chunk_bytes(
                    bytes@,
                    split_count as nat,
                    j as nat,
                ),
        decreases split_count - i,
    {
        proof {
            lemma_chunk_bounds(bytes@.len(), split_count as nat, i as nat);
        }
        let r = ranges[i];
        chunks.push(copy_range(bytes, r.start, r.end));
        i = i + 1;
    }
    Ok(chunks)
}

} // verus!
