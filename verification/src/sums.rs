//! Sums over a sequence, and why the order of the items does not matter.

use vstd::prelude::*;
use vstd::seq_lib::{to_multiset_contains, to_multiset_remove};

verus! {

/// The sum of the weights of all items.
pub open spec fn sum_of<A>(items: Seq<A>, weight: spec_fn(A) -> int) -> int
    decreases items.len(),
{
    if items.len() == 0 {
        0
    } else {
        weight(items[0]) + sum_of(items.drop_first(), weight)
    }
}

/// An item added at the end adds its weight.
pub proof fn lemma_sum_of_push<A>(items: Seq<A>, item: A, weight: spec_fn(A) -> int)
    ensures
        sum_of(items.push(item), weight) == sum_of(items, weight) + weight(item),
    decreases items.len(),
{
    if items.len() == 0 {
        assert(items.push(item).drop_first() =~= items);
    } else {
        assert(items.push(item).drop_first() =~= items.drop_first().push(item));
        lemma_sum_of_push(items.drop_first(), item, weight);
    }
}

/// An item taken out takes its weight with it.
pub proof fn lemma_sum_of_remove<A>(items: Seq<A>, i: int, weight: spec_fn(A) -> int)
    requires
        0 <= i < items.len(),
    ensures
        sum_of(items, weight) == sum_of(items.remove(i), weight) + weight(items[i]),
    decreases i,
{
    if i == 0 {
        assert(items.remove(0) =~= items.drop_first());
    } else {
        assert(items.remove(i).drop_first() =~= items.drop_first().remove(i - 1));
        lemma_sum_of_remove(items.drop_first(), i - 1, weight);
    }
}

/// Two sequences of the same items, each as often, have the same sum.
pub proof fn lemma_sum_of_permutation<A>(a: Seq<A>, b: Seq<A>, weight: spec_fn(A) -> int)
    requires
        a.to_multiset() == b.to_multiset(),
    ensures
        sum_of(a, weight) == sum_of(b, weight),
    decreases a.len(),
{
    broadcast use vstd::seq_lib::group_to_multiset_ensures;

    if a.len() == 0 {
        if b.len() > 0 {
            to_multiset_contains(b, b[0]);
            to_multiset_contains(a, b[0]);
            assert(b.contains(b[0]));
        }
    } else {
        let x = a[0];
        assert(a.contains(x));
        to_multiset_contains(a, x);
        to_multiset_contains(b, x);
        let i = choose|i: int| 0 <= i < b.len() && b[i] == x;
        to_multiset_remove(a, 0);
        to_multiset_remove(b, i);
        assert(a.remove(0) =~= a.drop_first());
        lemma_sum_of_permutation(a.drop_first(), b.remove(i), weight);
        lemma_sum_of_remove(b, i, weight);
    }
}

/// Weights that agree on every item give the same sum.
pub proof fn lemma_sum_of_same<A>(items: Seq<A>, f: spec_fn(A) -> int, g: spec_fn(A) -> int)
    requires
        forall|i: int| 0 <= i < items.len() ==> f(#[trigger] items[i]) == g(items[i]),
    ensures
        sum_of(items, f) == sum_of(items, g),
    decreases items.len(),
{
    if items.len() > 0 {
        assert forall|i: int| 0 <= i < items.drop_first().len() implies f(
            #[trigger] items.drop_first()[i],
        ) == g(items.drop_first()[i]) by {
            assert(items.drop_first()[i] == items[i + 1]);
        }
        lemma_sum_of_same(items.drop_first(), f, g);
    }
}

/// The sum of `c * f + g` is `c` times the sum of `f`, plus the sum of `g`.
pub proof fn lemma_sum_of_linear<A>(
    items: Seq<A>,
    c: int,
    f: spec_fn(A) -> int,
    g: spec_fn(A) -> int,
    h: spec_fn(A) -> int,
)
    requires
        forall|x: A| #[trigger] h(x) == c * f(x) + g(x),
    ensures
        sum_of(items, h) == c * sum_of(items, f) + sum_of(items, g),
    decreases items.len(),
{
    if items.len() > 0 {
        lemma_sum_of_linear(items.drop_first(), c, f, g, h);
        let rest = sum_of(items.drop_first(), f);
        let first = f(items[0]);
        assert(c * (first + rest) == c * first + c * rest) by (nonlinear_arith);
    }
}

/// Among items without repetition, the sum of a weight that is 1 on `item`
/// and 0 elsewhere is 1 if `item` is there, and 0 if not.
pub proof fn lemma_sum_of_one<A>(items: Seq<A>, item: A, h: spec_fn(A) -> int)
    requires
        items.no_duplicates(),
        forall|x: A| #[trigger] h(x) == if x == item { 1int } else { 0int },
    ensures
        sum_of(items, h) == if items.contains(item) { 1int } else { 0int },
    decreases items.len(),
{
    if items.len() > 0 {
        let rest = items.drop_first();
        assert forall|i: int, j: int|
            0 <= i < rest.len() && 0 <= j < rest.len() && i != j implies rest[i] != rest[j] by {
            assert(rest[i] == items[i + 1] && rest[j] == items[j + 1]);
        }
        lemma_sum_of_one(rest, item, h);
        if items[0] == item {
            if rest.contains(item) {
                let i = choose|i: int| 0 <= i < rest.len() && rest[i] == item;
                assert(items[i + 1] == items[0]);
            }
        } else if rest.contains(item) {
            let i = choose|i: int| 0 <= i < rest.len() && rest[i] == item;
            assert(items[i + 1] == item);
        } else if items.contains(item) {
            let i = choose|i: int| 0 <= i < items.len() && items[i] == item;
            assert(rest[i - 1] == item);
        }
    }
}

} // verus!
