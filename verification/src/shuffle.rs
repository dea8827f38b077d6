//! Random order for the training data, and the split of that order into
//! mini-batches.

use rand::seq::SliceRandom;
use vstd::prelude::*;

verus! {

/// Puts `items` into a random order.
///
/// Calls `rand::seq::SliceRandom::shuffle` on the items with the generator
/// of the current thread, `rand::rng()`. The order that comes out is not
/// stated. What is claimed holds of every order: the shuffle only swaps
/// entries, so the items are the same, each as often as before. The call
/// fails only where the system cannot seed the generator.
#[verifier::external_body]
pub(crate) fn shuffle<E>(items: &mut Vec<E>)
    ensures
        final(items)@.to_multiset() == old(items)@.to_multiset(),
{
    items.shuffle(&mut rand::rng());
}

/// The number of mini-batches that `n` samples make: `n / size`, rounded up.
pub open spec fn batch_count(n: int, size: int) -> int {
    if n <= 0 {
        0
    } else {
        (n - 1) / size + 1
    }
}

/// Mini-batch `k` of `data`: the samples from `k * size` up to
/// `(k + 1) * size`, or up to the end for the last one.
pub open spec fn mini_batch<E>(data: Seq<E>, size: int, k: int) -> Seq<E> {
    let (start, end) = batch_bounds_at(data.len() as int, size, k);
    data.subrange(start, end)
}

/// Where mini-batch `k` of `n` samples starts, and where it ends.
pub open spec fn batch_bounds_at(n: int, size: int, k: int) -> (int, int) {
    (
        k * size,
        if (k + 1) * size <= n {
            (k + 1) * size
        } else {
            n
        },
    )
}

/// The mini-batches of `data`, in order.
pub open spec fn mini_batches<E>(data: Seq<E>, size: int) -> Seq<Seq<E>> {
    Seq::new(batch_count(data.len() as int, size) as nat, |k: int| mini_batch(data, size, k))
}

/// After `k` full batches, with samples left over, the batch that ends at
/// `end` is batch `k`, and it is the last if it ends at `n`.
proof fn lemma_next_batch(n: int, size: int, k: int, end: int)
    requires
        size > 0,
        0 <= k,
        k * size < n,
        end == if n - k * size <= size {
            n
        } else {
            k * size + size
        },
    ensures
        k < batch_count(n, size),
        (k + 1) * size == k * size + size,
        end == if (k + 1) * size <= n {
            (k + 1) * size
        } else {
            n
        },
        end == n ==> k + 1 == batch_count(n, size),
        end < n ==> end == (k + 1) * size,
{
    assert((k + 1) * size == k * size + size) by (nonlinear_arith);
    assert(k <= (n - 1) / size) by (nonlinear_arith)
        requires
            size > 0,
            0 <= k,
            k * size <= n - 1,
    ;
    if end == n {
        assert((n - 1) / size < k + 1) by (nonlinear_arith)
            requires
                size > 0,
                0 <= k,
                n - 1 < (k + 1) * size,
        ;
    }
}

/// Every mini-batch but the last starts before the end of the data, and
/// the last reaches it.
proof fn lemma_batch_starts(n: int, size: int, k: int)
    requires
        size > 0,
        0 <= n,
        0 <= k <= batch_count(n, size),
    ensures
        k < batch_count(n, size) ==> k * size < n,
        k == batch_count(n, size) ==> k * size >= n,
        (k + 1) * size == k * size + size,
        0 <= k * size,
{
    assert((k + 1) * size == k * size + size) by (nonlinear_arith);
    assert(0 <= k * size) by (nonlinear_arith)
        requires
            size > 0,
            0 <= k,
    ;
    if n > 0 {
        let q = (n - 1) / size;
        assert(q * size <= n - 1 < q * size + size) by (nonlinear_arith)
            requires
                size > 0,
                n - 1 >= 0,
                q == (n - 1) / size,
        ;
        if k < batch_count(n, size) {
            assert(k * size <= q * size) by (nonlinear_arith)
                requires
                    size > 0,
                    0 <= k <= q,
            ;
        } else {
            assert(k * size == q * size + size) by (nonlinear_arith)
                requires
                    k == q + 1,
            ;
        }
    }
}

/// The first `j` mini-batches, put end to end, are the data up to the end
/// of mini-batch `j - 1`.
proof fn lemma_first_batches<E>(data: Seq<E>, size: int, j: int)
    requires
        size > 0,
        0 <= j <= batch_count(data.len() as int, size),
    ensures
        mini_batches(data, size).take(j).flatten() =~= data.take(
            if j * size <= data.len() {
                j * size
            } else {
                data.len() as int
            },
        ),
    decreases j,
{
    let n = data.len() as int;
    let all = mini_batches(data, size);
    lemma_batch_starts(n, size, j);
    if j == 0 {
        assert(all.take(0) =~= Seq::<Seq<E>>::empty());
    } else {
        lemma_first_batches(data, size, j - 1);
        lemma_batch_starts(n, size, j - 1);
        assert(all.take(j) =~= all.take(j - 1).push(all[j - 1]));
        all.take(j - 1).lemma_flatten_push(all[j - 1]);
        assert(all[j - 1] == mini_batch(data, size, j - 1));
    }
}

/// In every epoch each sample is in exactly one mini-batch: the mini-batches
/// of the shuffled training data, put end to end in their order, are the
/// shuffled data itself, so they hold the samples of the training data, each
/// as often as the training data does. No mini-batch is empty, and none
/// holds more than `size` samples.
pub proof fn lemma_batches_hold_each_sample_once<E>(data: Seq<E>, shuffled: Seq<E>, size: int)
    requires
        size > 0,
        shuffled.to_multiset() == data.to_multiset(),
    ensures
        mini_batches(shuffled, size).flatten() == shuffled,
        mini_batches(shuffled, size).flatten().to_multiset() == data.to_multiset(),
        forall|k: int|
            0 <= k < mini_batches(shuffled, size).len() ==> 0 < (#[trigger] mini_batches(
                shuffled,
                size,
            )[k]).len() <= size,
{
    let n = shuffled.len() as int;
    let count = batch_count(n, size);
    let all = mini_batches(shuffled, size);
    lemma_first_batches(shuffled, size, count);
    lemma_batch_starts(n, size, count);
    assert(all.take(count) =~= all);
    assert(shuffled.take(n) =~= shuffled);
    assert forall|k: int| 0 <= k < all.len() implies 0 < (#[trigger] all[k]).len() <= size by {
        lemma_batch_starts(n, size, k);
    }
}

/// Where each mini-batch of `n` samples starts and ends, for mini-batches
/// of `size` samples: one after the other from 0 to `n`, none of them empty,
/// and only the last may hold fewer than `size`.
pub fn batch_bounds(n: usize, size: usize) -> (r: Vec<(usize, usize)>)
    requires
        size > 0,
    ensures
        r.len() == batch_count(n as int, size as int),
        forall|k: int|
            0 <= k < r.len() ==> {
                &&& (#[trigger] r[k]).0 == batch_bounds_at(n as int, size as int, k).0
                &&& r[k].1 == batch_bounds_at(n as int, size as int, k).1
                &&& r[k].0 < r[k].1 <= n
            },
{
    let mut r: Vec<(usize, usize)> = Vec::new();
    let mut start: usize = 0;
    while start < n
        invariant
            size > 0,
            start <= n,
            r.len() <= batch_count(n as int, size as int),
            start < n ==> start == r.len() * size,
            start == n ==> r.len() == batch_count(n as int, size as int),
            forall|k: int|
                0 <= k < r.len() ==> {
                    &&& (#[trigger] r[k]).0 == batch_bounds_at(n as int, size as int, k).0
                    &&& r[k].1 == batch_bounds_at(n as int, size as int, k).1
                    &&& r[k].0 < r[k].1 <= n
                },
        decreases n - start,
    {
        let end = if n - start <= size {
            n
        } else {
            start + size
        };
        proof {
            lemma_next_batch(n as int, size as int, r.len() as int, end as int);
        }
        r.push((start, end));
        start = end;
    }
    r
}

} // verus!
