//! The Fisher-Yates shuffle under a seeded generator, and what is proved of
//! it: that it only rearranges, and how it is undone.

use crate::prng::{lemma_scale_bound, ActivePRNG, PrngState};
use vstd::prelude::*;

verus! {

/// The number of exchanges that shuffling `n` items makes.
pub open spec fn swaps(n: nat) -> nat {
    if n == 0 {
        0
    } else {
        (n - 1) as nat
    }
}

/// The items after the first `m` exchanges of a shuffle under `rng`. The
/// `k`-th exchange, counted from zero, is between the position
/// `i = len - 1 - k` and the position that the `k`-th draw selects below
/// `i + 1`.
pub open spec fn fisher_yates<T>(items: Seq<T>, rng: PrngState, m: nat) -> Seq<T>
    decreases m,
{
    if m == 0 {
        items
    } else {
        let prev = fisher_yates(items, rng, (m - 1) as nat);
        let i = items.len() - m;
        let j = rng.pick_at((m - 1) as nat, (i + 1) as nat) as int;
        prev.update(i, prev[j]).update(j, prev[i])
    }
}

/// The items, shuffled under `rng`.
pub open spec fn shuffled<T>(items: Seq<T>, rng: PrngState) -> Seq<T> {
    fisher_yates(items, rng, swaps(items.len()))
}

/// The positions `0, 1, .., n - 1` in order.
pub open spec fn iota(n: nat) -> Seq<int> {
    Seq::new(n, |i: int| i)
}

/// Whether `value` stands at some place in `order`.
pub open spec fn occurs(order: Seq<int>, value: int) -> bool {
    exists|i: int| 0 <= i < order.len() && #[trigger] order[i] == value
}

/// Whether `order` holds each of the positions below its length exactly once.
pub open spec fn is_permutation(order: Seq<int>) -> bool {
    &&& forall|i: int| 0 <= i < order.len() ==> 0 <= #[trigger] order[i] < order.len()
    &&& forall|i: int, j: int|
        0 <= i < order.len() && 0 <= j < order.len() && i != j ==> #[trigger] order[i]
            != #[trigger] order[j]
    &&& forall|k: int| 0 <= k < order.len() ==> #[trigger] occurs(order, k)
}

/// The place at which `value` stands in `items`.
pub open spec fn position_of<T>(items: Seq<T>, value: T) -> int {
    choose|i: int| 0 <= i < items.len() && items[i] == value
}

/// The exchanges keep the length.
pub proof fn lemma_fisher_yates_len<T>(items: Seq<T>, rng: PrngState, m: nat)
    requires
        m <= swaps(items.len()),
    ensures
        fisher_yates(items, rng, m).len() == items.len(),
    decreases m,
{
    if m > 0 {
        lemma_fisher_yates_len(items, rng, (m - 1) as nat);
        let i = items.len() - m;
        lemma_scale_bound(rng.after((m - 1) as nat).output(), (i + 1) as nat);
    }
}

/// The exchanges applied to the positions give a permutation, and the same
/// exchanges applied to any items of that length put at each place the item
/// that the permutation names.
pub proof fn lemma_fisher_yates_order<T>(items: Seq<T>, rng: PrngState, m: nat)
    requires
        m <= swaps(items.len()),
    ensures
        is_permutation(fisher_yates(iota(items.len()), rng, m)),
        fisher_yates(iota(items.len()), rng, m).len() == items.len(),
        fisher_yates(items, rng, m).len() == items.len(),
        forall|k: int|
            0 <= k < items.len() ==> #[trigger] fisher_yates(items, rng, m)[k]
                == items[fisher_yates(iota(items.len()), rng, m)[k]],
    decreases m,
{
    let n = items.len();
    let order = fisher_yates(iota(n), rng, m);
    if m == 0 {
        assert forall|k: int| 0 <= k < order.len() implies #[trigger] occurs(order, k) by {
            assert(order[k] == k);
        }
    } else {
        lemma_fisher_yates_order(items, rng, (m - 1) as nat);
        let prev_order = fisher_yates(iota(n), rng, (m - 1) as nat);
        let prev = fisher_yates(items, rng, (m - 1) as nat);
        let i = n - m;
        lemma_scale_bound(rng.after((m - 1) as nat).output(), (i + 1) as nat);
        let j = rng.pick_at((m - 1) as nat, (i + 1) as nat) as int;
        assert(0 <= j <= i < n);
        assert(order == prev_order.update(i, prev_order[j]).update(j, prev_order[i]));
        assert forall|k: int| 0 <= k < order.len() implies #[trigger] occurs(order, k) by {
            assert(occurs(prev_order, k));
            let w = choose|p: int| 0 <= p < prev_order.len() && #[trigger] prev_order[p] == k;
            if w == i {
                assert(order[j] == k);
            } else if w == j {
                assert(order[i] == k);
            } else {
                assert(order[w] == k);
            }
        }
        assert forall|a: int, b: int|
            0 <= a < order.len() && 0 <= b < order.len() && a != b implies #[trigger] order[a]
            != #[trigger] order[b] by {
            let pa = if a == i { j } else if a == j { i } else { a };
            let pb = if b == i { j } else if b == j { i } else { b };
            assert(order[a] == prev_order[pa]);
            assert(order[b] == prev_order[pb]);
            assert(pa != pb);
        }
        assert forall|k: int| 0 <= k < n implies #[trigger] fisher_yates(items, rng, m)[k]
            == items[order[k]] by {
            let pk = if k == i { j } else if k == j { i } else { k };
            assert(fisher_yates(items, rng, m)[k] == prev[pk]);
            assert(order[k] == prev_order[pk]);
        }
    }
}

/// In a permutation every position stands at exactly one place.
pub proof fn lemma_position_of(order: Seq<int>, i: int)
    requires
        is_permutation(order),
        0 <= i < order.len(),
    ensures
        position_of(order, order[i]) == i,
        0 <= position_of(order, i) < order.len(),
        order[position_of(order, i)] == i,
{
    let p = position_of(order, order[i]);
    assert(0 <= p < order.len() && order[p] == order[i]);
    assert(occurs(order, i));
    let w = choose|w: int| 0 <= w < order.len() && #[trigger] order[w] == i;
    assert(order[w] == i);
}

/// Shuffles `items` in place under `rng`.
pub fn shuffle<T: Copy>(items: &mut Vec<T>, rng: &mut ActivePRNG)
    ensures
        final(items)@ == shuffled(old(items)@, old(rng)@),
        final(rng)@ == old(rng)@.after(swaps(old(items)@.len())),
{
    let n = items.len();
    if n == 0 {
        return ;
    }
    let ghost first = items@;
    let ghost start = rng@;
    let mut i: usize = n - 1;
    while i > 0
        invariant
            n == first.len(),
            items@.len() == n,
            i < n,
            items@ == fisher_yates(first, start, (n - 1 - i) as nat),
            rng@ == start.after((n - 1 - i) as nat),
        decreases i,
    {
        let j = rng.pick(i + 1);
        let a = items[i];
        let b = items[j];
        items.set(i, b);
        items.set(j, a);
        proof {
            let m = (n - i) as nat;
            assert((m - 1) as nat == (n - 1 - i) as nat);
            assert(first.len() - m == i);
        }
        i = i - 1;
    }
}

} // verus!
