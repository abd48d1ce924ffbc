//! Parting a list of tasks among workers.

use vstd::prelude::*;
use vstd::slice::slice_subrange;

verus! {

/// The number of tasks that worker `i` of `count` gets out of `len`: the
/// tasks are dealt out evenly, and the first workers get one more each where
/// the division leaves a rest.
pub open spec fn shard_len(len: int, count: int, i: int) -> int {
    len / count + if i < len % count {
        1int
    } else {
        0int
    }
}

/// The index of the first task of worker `i`: what the workers before it
/// got.
pub open spec fn shard_start(len: int, count: int, i: int) -> int {
    i * (len / count) + if i < len % count {
        i
    } else {
        len % count
    }
}

/// The shards follow one another without a gap and take up all tasks.
pub proof fn lemma_shards_partition(len: int, count: int, i: int)
    requires
        0 <= len,
        0 < count,
        0 <= i < count,
    ensures
        shard_start(len, count, 0) == 0,
        shard_start(len, count, i + 1) == shard_start(len, count, i) + shard_len(len, count, i),
        shard_start(len, count, count) == len,
        0 <= shard_start(len, count, i) <= shard_start(len, count, i + 1) <= len,
{
    let size = len / count;
    let rest = len % count;
    assert(len == count * size + rest && 0 <= rest < count) by (nonlinear_arith)
        requires
            size == len / count,
            rest == len % count,
            0 < count,
            0 <= len,
    ;
    assert(size >= 0) by (nonlinear_arith)
        requires
            size == len / count,
            0 < count,
            0 <= len,
    ;
    assert((i + 1) * size == i * size + size) by (nonlinear_arith);
    assert(0 <= i * size) by (nonlinear_arith)
        requires
            0 <= i,
            0 <= size,
    ;
    assert((i + 1) * size <= count * size) by (nonlinear_arith)
        requires
            i + 1 <= count,
            0 <= size,
    ;
}

/// Parts `tasks` into `count` shards of consecutive tasks, as evenly as can
/// be: the first shards are longer by one task where the division leaves a
/// rest.
pub fn split_tasks<T>(tasks: &[T], count: usize) -> (ret: Vec<&[T]>)
    requires
        count > 0,
    ensures
        ret@.len() == count,
        forall|i: int|
            0 <= i < count ==> (#[trigger] ret@[i])@ == tasks@.subrange(
                shard_start(tasks@.len() as int, count as int, i),
                shard_start(tasks@.len() as int, count as int, i + 1),
            ),
{
    let mut ret: Vec<&[T]> = Vec::new();
    let n: usize = tasks.len();
    let block_size: usize = n / count;
    let block_remain: usize = n % count;
    let mut start: usize = 0;
    let mut i: usize = 0;
    while i < count
        invariant
            i <= count,
            n == tasks@.len(),
            block_size == n / count,
            block_remain == n % count,
            ret@.len() == i,
            start == shard_start(n as int, count as int, i as int),
            start <= n,
            forall|j: int|
                0 <= j < i ==> (#[trigger] ret@[j])@ == tasks@.subrange(
                    shard_start(n as int, count as int, j),
                    shard_start(n as int, count as int, j + 1),
                ),
        decreases count - i,
    {
        proof {
            lemma_shards_partition(n as int, count as int, i as int);
        }
        let len: usize = block_size + if i < block_remain {
            1
        } else {
            0
        };
        ret.push(slice_subrange(tasks, start, start + len));
        start += len;
        i += 1;
    }
    ret
}

} // verus!
