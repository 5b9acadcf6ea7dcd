//! Lookup over a history of insertions, and the laws it obeys.
//!
//! The table's abstract state is the sequence of `(key, value)` pairs in the
//! order they were inserted.  A lookup returns the value of the earliest
//! entry whose key matches, which is exactly what the bucket scan computes.
use vstd::prelude::*;

verus! {

/// The value of the first entry in `entries` whose key is `key`, if any.
pub open spec fn first_match<K, V>(entries: Seq<(K, V)>, key: K) -> Option<V>
    decreases entries.len(),
{
    if entries.len() == 0 {
        None
    } else if entries[0].0 == key {
        Some(entries[0].1)
    } else {
        first_match(entries.drop_first(), key)
    }
}

/// A key that appears nowhere in the history has no match: lookups of a key
/// that was never inserted return the absent result.
pub proof fn lemma_first_match_absent<K, V>(entries: Seq<(K, V)>, key: K)
    requires
        forall|i: int| 0 <= i < entries.len() ==> (#[trigger] entries[i]).0 != key,
    ensures
        first_match(entries, key) is None,
    decreases entries.len(),
{
    if entries.len() > 0 {
        let rest = entries.drop_first();
        assert forall|i: int| 0 <= i < rest.len() implies (#[trigger] rest[i]).0 != key by {
            assert(rest[i] == entries[i + 1]);
        }
        lemma_first_match_absent(rest, key);
    }
}

/// Appending an entry never disturbs earlier lookups: a key that already had
/// a match keeps it, and only a key with no earlier match can now match the
/// appended entry.
pub proof fn lemma_first_match_push<K, V>(entries: Seq<(K, V)>, entry: (K, V), key: K)
    ensures
        first_match(entries.push(entry), key) == (if first_match(entries, key) is Some {
            first_match(entries, key)
        } else if entry.0 == key {
            Some(entry.1)
        } else {
            None::<V>
        }),
    decreases entries.len(),
{
    let pushed = entries.push(entry);
    if entries.len() == 0 {
        assert(pushed[0] == entry);
        if entry.0 != key {
            assert(pushed.drop_first() =~= Seq::<(K, V)>::empty());
            assert(first_match(Seq::<(K, V)>::empty(), key) is None);
        }
    } else {
        assert(pushed[0] == entries[0]);
        assert(pushed.drop_first() =~= entries.drop_first().push(entry));
        lemma_first_match_push(entries.drop_first(), entry, key);
    }
}

/// Growth correctness, seen through the table's contracts: `insert` extends
/// the history by one entry whatever growth it triggers, and by this law an
/// appended entry with a different key leaves the lookup of an earlier key
/// exactly as it was — rehashing on growth is lossless.
pub proof fn lemma_other_key_keeps_lookup<K, V>(entries: Seq<(K, V)>, entry: (K, V), key: K)
    requires
        entry.0 != key,
    ensures
        first_match(entries.push(entry), key) == first_match(entries, key),
{
    lemma_first_match_push(entries, entry, key);
}

/// Round trip: in a history whose keys are pairwise distinct, every key
/// looks up exactly the value it was inserted with.
pub proof fn lemma_distinct_keys_round_trip<K, V>(entries: Seq<(K, V)>, i: int)
    requires
        0 <= i < entries.len(),
        forall|a: int, b: int| 0 <= a < b < entries.len() ==> (#[trigger] entries[a]).0 != (
        #[trigger] entries[b]).0,
    ensures
        first_match(entries, entries[i].0) == Some(entries[i].1),
    decreases entries.len(),
{
    if i > 0 {
        assert(entries[0].0 != entries[i].0);
        let rest = entries.drop_first();
        assert forall|a: int, b: int| 0 <= a < b < rest.len() implies (#[trigger] rest[a]).0 != (
        #[trigger] rest[b]).0 by {
            assert(rest[a] == entries[a + 1]);
            assert(rest[b] == entries[b + 1]);
        }
        assert(rest[i - 1] == entries[i]);
        lemma_distinct_keys_round_trip(rest, i - 1);
    }
}

/// Restricting a history to a class of entries that surely contains every
/// entry of the looked-up key leaves the lookup unchanged.
pub(crate) proof fn lemma_first_match_filter<K, V>(
    entries: Seq<(K, V)>,
    pred: spec_fn((K, V)) -> bool,
    key: K,
)
    requires
        forall|i: int|
            0 <= i < entries.len() && (#[trigger] entries[i]).0 == key ==> pred(entries[i]),
    ensures
        first_match(entries.filter(pred), key) == first_match(entries, key),
    decreases entries.len(),
{
    reveal_with_fuel(Seq::filter, 3);
    if entries.len() == 0 {
        assert(entries.filter(pred) =~= Seq::<(K, V)>::empty());
    } else {
        let head = seq![entries[0]];
        let rest = entries.drop_first();
        assert(entries =~= head + rest);
        Seq::<(K, V)>::filter_distributes_over_add(head, rest, pred);
        assert(head.drop_last() =~= Seq::<(K, V)>::empty());
        assert(head.filter(pred) == if pred(entries[0]) {
            head
        } else {
            Seq::<(K, V)>::empty()
        });
        assert forall|i: int| 0 <= i < rest.len() && (#[trigger] rest[i]).0 == key implies pred(
            rest[i],
        ) by {
            assert(rest[i] == entries[i + 1]);
        }
        lemma_first_match_filter(rest, pred, key);
        if entries[0].0 == key {
            assert(pred(entries[0]));
            assert((head + rest.filter(pred))[0] == entries[0]);
        } else if pred(entries[0]) {
            let combined = head + rest.filter(pred);
            assert(combined[0] == entries[0]);
            assert(combined.drop_first() =~= rest.filter(pred));
        } else {
            assert(head.filter(pred) + rest.filter(pred) =~= rest.filter(pred));
        }
    }
}

/// Filtering by a finer class and then a coarser one keeps only the finer
/// class: the coarser pass lets everything of the finer class through.
pub(crate) proof fn lemma_filter_twice<A>(s: Seq<A>, coarse: spec_fn(A) -> bool, fine: spec_fn(A) -> bool)
    requires
        forall|i: int| 0 <= i < s.len() && fine(#[trigger] s[i]) ==> coarse(s[i]),
    ensures
        s.filter(coarse).filter(fine) == s.filter(fine),
    decreases s.len(),
{
    if s.len() > 0 {
        let rest = s.drop_last();
        let last = s.last();
        assert forall|i: int| 0 <= i < rest.len() && fine(#[trigger] rest[i]) implies coarse(
            rest[i],
        ) by {
            assert(rest[i] == s[i]);
        }
        lemma_filter_twice(rest, coarse, fine);
        assert(s =~= rest.push(last));
        Seq::<A>::lemma_filter_push(rest, last, coarse);
        Seq::<A>::lemma_filter_push(rest, last, fine);
        if coarse(last) {
            Seq::<A>::lemma_filter_push(rest.filter(coarse), last, fine);
        }
    }
}

} // verus!
