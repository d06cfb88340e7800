//! Sequences in strictly ascending order under a relation: where an item
//! may be inserted, and why such a sequence is determined by its items.

use vstd::prelude::*;
use vstd::relations::{irreflexive, sorted_by, transitive};
use vstd::seq_lib::{to_multiset_contains, to_multiset_insert};

verus! {

/// An item that comes after everything in front of place `k` and before
/// everything from `k` on can be inserted at `k`.
pub proof fn lemma_insert_keeps_order<A>(s: Seq<A>, k: int, item: A, before: spec_fn(A, A) -> bool)
    requires
        sorted_by(s, before),
        0 <= k <= s.len(),
        forall|i: int| 0 <= i < k ==> before(#[trigger] s[i], item),
        forall|i: int| k <= i < s.len() ==> before(item, #[trigger] s[i]),
    ensures
        sorted_by(s.insert(k, item), before),
{
    let t = s.insert(k, item);
    assert forall|i: int, j: int| 0 <= i < j < t.len() implies #[trigger] before(t[i], t[j]) by {
        if i < k && j > k {
            assert(before(s[i], s[j - 1]));
        } else if i > k {
            assert(before(s[i - 1], s[j - 1]));
        } else if j < k {
            assert(before(s[i], s[j]));
        }
    }
}

/// What an insertion does to membership: the new item joins, nothing leaves.
pub proof fn lemma_insert_contains<A>(s: Seq<A>, k: int, item: A, x: A)
    requires
        0 <= k <= s.len(),
    ensures
        s.insert(k, item).contains(x) <==> x == item || s.contains(x),
{
    let t = s.insert(k, item);
    if s.contains(x) {
        let i = choose|i: int| 0 <= i < s.len() && s[i] == x;
        if i < k {
            assert(t[i] == x);
        } else {
            assert(t[i + 1] == x);
        }
    }
    if x == item {
        assert(t[k] == x);
    }
    if t.contains(x) {
        let i = choose|i: int| 0 <= i < t.len() && t[i] == x;
        if i < k {
            assert(s[i] == x);
        } else if i > k {
            assert(s[i - 1] == x);
        }
    }
}

/// Two sequences in strict order that hold the same items are the same
/// sequence.
pub proof fn lemma_order_determines<A>(a: Seq<A>, b: Seq<A>, before: spec_fn(A, A) -> bool)
    requires
        sorted_by(a, before),
        sorted_by(b, before),
        irreflexive(before),
        transitive(before),
        forall|x: A| a.contains(x) <==> b.contains(x),
    ensures
        a == b,
    decreases a.len(),
{
    if a.len() == 0 {
        if b.len() > 0 {
            assert(b.contains(b[0]));
        }
        assert(a =~= b);
    } else if b.len() == 0 {
        assert(a.contains(a[0]));
    } else {
        assert(a.contains(a[0]));
        assert(b.contains(b[0]));
        let i = choose|i: int| 0 <= i < b.len() && b[i] == a[0];
        let j = choose|j: int| 0 <= j < a.len() && a[j] == b[0];
        if i > 0 {
            assert(before(b[0], b[i]));
            if j > 0 {
                assert(before(a[0], a[j]));
            }
        }
        assert(a[0] == b[0]);
        let ra = a.drop_first();
        let rb = b.drop_first();
        assert forall|x: A| ra.contains(x) <==> rb.contains(x) by {
            if ra.contains(x) {
                let m = choose|m: int| 0 <= m < ra.len() && ra[m] == x;
                assert(a[m + 1] == x);
                assert(before(a[0], a[m + 1]));
                assert(a.contains(x));
                let n = choose|n: int| 0 <= n < b.len() && b[n] == x;
                assert(n > 0);
                assert(rb[n - 1] == x);
            }
            if rb.contains(x) {
                let m = choose|m: int| 0 <= m < rb.len() && rb[m] == x;
                assert(b[m + 1] == x);
                assert(before(b[0], b[m + 1]));
                assert(b.contains(x));
                let n = choose|n: int| 0 <= n < a.len() && a[n] == x;
                assert(n > 0);
                assert(ra[n - 1] == x);
            }
        }
        assert forall|m: int, n: int| 0 <= m < n < ra.len() implies #[trigger] before(
            ra[m],
            ra[n],
        ) by {
            assert(before(a[m + 1], a[n + 1]));
        }
        assert forall|m: int, n: int| 0 <= m < n < rb.len() implies #[trigger] before(
            rb[m],
            rb[n],
        ) by {
            assert(before(b[m + 1], b[n + 1]));
        }
        lemma_order_determines(ra, rb, before);
        assert(a =~= seq![a[0]] + ra);
        assert(b =~= seq![b[0]] + rb);
    }
}

/// Among items in order, an item that stands before or after each of them
/// has a place: after all that stand before it, before all the others.
pub proof fn lemma_place_exists<A>(s: Seq<A>, item: A, before: spec_fn(A, A) -> bool) -> (k: int)
    requires
        sorted_by(s, before),
        transitive(before),
        forall|i: int| 0 <= i < s.len() ==> before(#[trigger] s[i], item) || before(item, s[i]),
    ensures
        0 <= k <= s.len(),
        forall|i: int| 0 <= i < k ==> before(#[trigger] s[i], item),
        forall|i: int| k <= i < s.len() ==> before(item, #[trigger] s[i]),
    decreases s.len(),
{
    if s.len() == 0 {
        0
    } else {
        let last = s.len() - 1;
        if before(s[last], item) {
            assert forall|i: int| 0 <= i < s.len() implies before(#[trigger] s[i], item) by {
                if i < last {
                    assert(before(s[i], s[last]) && before(s[last], item));
                }
            }
            s.len() as int
        } else {
            let earlier = s.drop_last();
            assert forall|i: int, j: int| 0 <= i < j < earlier.len() implies #[trigger] before(
                earlier[i],
                earlier[j],
            ) by {
                assert(before(s[i], s[j]));
            }
            assert forall|i: int| 0 <= i < earlier.len() implies before(
                #[trigger] earlier[i],
                item,
            ) || before(item, earlier[i]) by {
                assert(earlier[i] == s[i]);
            }
            let k = lemma_place_exists(earlier, item, before);
            assert forall|i: int| 0 <= i < k implies before(#[trigger] s[i], item) by {
                assert(earlier[i] == s[i]);
            }
            assert forall|i: int| k <= i < s.len() implies before(item, #[trigger] s[i]) by {
                if i < last {
                    assert(earlier[i] == s[i]);
                }
            }
            k
        }
    }
}

/// Items of which any two stand one before the other can be put in order.
pub proof fn lemma_arrangement_exists<A>(items: Seq<A>, before: spec_fn(A, A) -> bool) -> (s: Seq<
    A,
>)
    requires
        transitive(before),
        forall|i: int, j: int|
            0 <= i < j < items.len() ==> before(#[trigger] items[i], #[trigger] items[j])
                || before(items[j], items[i]),
    ensures
        sorted_by(s, before),
        s.to_multiset() == items.to_multiset(),
    decreases items.len(),
{
    broadcast use vstd::seq_lib::group_to_multiset_ensures;

    if items.len() == 0 {
        items
    } else {
        let earlier = items.drop_last();
        let last = items.last();
        assert forall|i: int, j: int| 0 <= i < j < earlier.len() implies before(
            #[trigger] earlier[i],
            #[trigger] earlier[j],
        ) || before(earlier[j], earlier[i]) by {
            assert(earlier[i] == items[i] && earlier[j] == items[j]);
        }
        let arranged = lemma_arrangement_exists(earlier, before);
        assert forall|i: int| 0 <= i < arranged.len() implies before(
            #[trigger] arranged[i],
            last,
        ) || before(last, arranged[i]) by {
            assert(arranged.contains(arranged[i]));
            to_multiset_contains(arranged, arranged[i]);
            to_multiset_contains(earlier, arranged[i]);
            let j = choose|j: int| 0 <= j < earlier.len() && earlier[j] == arranged[i];
            assert(items[j] == arranged[i]);
            assert(items[items.len() - 1] == last);
        }
        let k = lemma_place_exists(arranged, last, before);
        lemma_insert_keeps_order(arranged, k, last, before);
        to_multiset_insert(arranged, k, last);
        assert(earlier.push(last) =~= items);
        arranged.insert(k, last)
    }
}

} // verus!
