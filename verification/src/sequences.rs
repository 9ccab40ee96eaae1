//! Small facts about sequences that the searches' proofs share.

use vstd::prelude::*;

verus! {

/// A sequence with one more element holds what it held, and that element.
pub proof fn lemma_push_contains<T>(items: Seq<T>, fresh: T)
    ensures
        forall|n: T| items.push(fresh).contains(n) <==> items.contains(n) || n == fresh,
{
    let longer = items.push(fresh);
    assert forall|n: T| longer.contains(n) <==> items.contains(n) || n == fresh by {
        if items.contains(n) {
            let j = choose|j: int| 0 <= j < items.len() && items[j] == n;
            assert(longer[j] == n);
        }
        if n == fresh {
            assert(longer[items.len() as int] == n);
        }
    }
}

/// A sequence without repetition stays so when a new element is pushed.
pub proof fn lemma_push_fresh<T>(items: Seq<T>, fresh: T)
    requires
        items.no_duplicates(),
        !items.contains(fresh),
    ensures
        items.push(fresh).no_duplicates(),
        forall|n: T| items.push(fresh).contains(n) <==> items.contains(n) || n == fresh,
{
    lemma_push_contains(items, fresh);
}

/// What a sequence without repetition holds once its last element is taken.
pub proof fn lemma_pop_last<T>(items: Seq<T>)
    requires
        items.no_duplicates(),
        items.len() > 0,
    ensures
        items.drop_last().no_duplicates(),
        !items.drop_last().contains(items.last()),
        forall|n: T| items.contains(n) <==> items.drop_last().contains(n) || n == items.last(),
{
    let shorter = items.drop_last();
    assert forall|n: T| items.contains(n) <==> shorter.contains(n) || n == items.last() by {
        if items.contains(n) {
            let j = choose|j: int| 0 <= j < items.len() && items[j] == n;
            if j < shorter.len() {
                assert(shorter[j] == n);
            }
        }
        if shorter.contains(n) {
            let j = choose|j: int| 0 <= j < shorter.len() && shorter[j] == n;
            assert(items[j] == n);
        }
        if n == items.last() {
            assert(items[items.len() - 1] == n);
        }
    }
    if shorter.contains(items.last()) {
        let j = choose|j: int| 0 <= j < shorter.len() && shorter[j] == items.last();
        assert(items[j] == items[items.len() - 1]);
    }
}

/// Where the elements of a sequence stand once the one at `at` is removed.
pub proof fn lemma_remove_shifts<T>(items: Seq<T>, at: int)
    requires
        0 <= at < items.len(),
    ensures
        items.remove(at).len() == items.len() - 1,
        forall|j: int| 0 <= j < at ==> #[trigger] items.remove(at)[j] == items[j],
        forall|j: int| at <= j < items.len() - 1 ==> #[trigger] items.remove(at)[j] == items[j + 1],
{
    items.remove_ensures(at);
}

} // verus!
