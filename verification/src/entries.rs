//! Stable sorting of key/value entries by key.
//!
//! The values are never looked at: an entry is moved as a whole, so the
//! sort is generic in the type of the values.

use crate::order::{
    key_before, key_less, lemma_key_before_asymmetric, lemma_key_before_connected,
    lemma_key_before_irreflexive, lemma_key_not_after_transitive,
};
use vstd::prelude::*;
use vstd::seq_lib::lemma_multiset_commutative;

verus! {

/// The entries with each key replaced by the characters it holds.
pub open spec fn keyed<V>(entries: Seq<(String, V)>) -> Seq<(Seq<char>, V)> {
    entries.map_values(|e: (String, V)| (e.0@, e.1))
}

/// The keys of the entries, in order.
pub open spec fn keys<V>(entries: Seq<(Seq<char>, V)>) -> Seq<Seq<char>> {
    entries.map_values(|e: (Seq<char>, V)| e.0)
}

/// No two entries have the same key.
pub open spec fn distinct_keys<V>(entries: Seq<(Seq<char>, V)>) -> bool {
    forall|i: int, j: int|
        0 <= i < j < entries.len() ==> (#[trigger] entries[i]).0 != (#[trigger] entries[j]).0
}

/// The test whether an entry has the key `key`.
pub open spec fn has_key<V>(key: Seq<char>) -> spec_fn((Seq<char>, V)) -> bool {
    |e: (Seq<char>, V)| e.0 == key
}

/// The entries that have the key `key`, in order.
pub open spec fn with_key<V>(entries: Seq<(Seq<char>, V)>, key: Seq<char>) -> Seq<
    (Seq<char>, V),
> {
    entries.filter(has_key(key))
}

/// The keys ascend: no entry is followed by one whose key comes before its own.
pub open spec fn ascending<V>(entries: Seq<(Seq<char>, V)>) -> bool {
    forall|i: int, j: int|
        0 <= i < j < entries.len() ==> !key_before(
            (#[trigger] entries[j]).0,
            (#[trigger] entries[i]).0,
        )
}

/// Where an entry with key `key` joins `entries`: behind every entry that it
/// does not come before, counted from the back.
pub open spec fn slot<V>(entries: Seq<(Seq<char>, V)>, key: Seq<char>) -> int
    decreases entries.len(),
{
    if entries.len() > 0 && key_before(key, entries.last().0) {
        slot(entries.drop_last(), key)
    } else {
        entries.len() as int
    }
}

/// The entries in ascending key order; entries with equal keys keep the
/// order they had.
pub open spec fn sort_by_key<V>(entries: Seq<(Seq<char>, V)>) -> Seq<(Seq<char>, V)>
    decreases entries.len(),
{
    if entries.len() == 0 {
        entries
    } else {
        let sorted = sort_by_key(entries.drop_last());
        sorted.insert(slot(sorted, entries.last().0), entries.last())
    }
}

/// The slot lies within the sequence; every entry from the slot on has a
/// key after `key`, and the entry just before the slot has not.
pub proof fn lemma_slot<V>(entries: Seq<(Seq<char>, V)>, key: Seq<char>)
    ensures
        0 <= slot(entries, key) <= entries.len(),
        forall|i: int|
            slot(entries, key) <= i < entries.len() ==> key_before(key, (#[trigger] entries[i]).0),
        slot(entries, key) > 0 ==> !key_before(key, entries[slot(entries, key) - 1].0),
    decreases entries.len(),
{
    if entries.len() > 0 && key_before(key, entries.last().0) {
        let front = entries.drop_last();
        lemma_slot(front, key);
        assert forall|i: int| slot(entries, key) <= i < entries.len() implies key_before(
            key,
            (#[trigger] entries[i]).0,
        ) by {
            if i < front.len() {
                assert(front[i] == entries[i]);
            }
        }
        if slot(entries, key) > 0 {
            assert(front[slot(entries, key) - 1] == entries[slot(entries, key) - 1]);
        }
    }
}

/// An entry placed at its slot in ascending entries leaves them ascending.
pub proof fn lemma_insert_at_slot_ascending<V>(entries: Seq<(Seq<char>, V)>, e: (Seq<char>, V))
    requires
        ascending(entries),
    ensures
        ascending(entries.insert(slot(entries, e.0), e)),
{
    let at = slot(entries, e.0);
    let placed = entries.insert(at, e);
    lemma_slot(entries, e.0);
    entries.insert_ensures(at, e);
    assert forall|i: int, j: int| 0 <= i < j < placed.len() implies !key_before(
        (#[trigger] placed[j]).0,
        (#[trigger] placed[i]).0,
    ) by {
        if j == at {
            // placed[i] is an entry before the slot
            assert(placed[i] == entries[i]);
            if i < at - 1 {
                assert(!key_before(entries[at - 1].0, entries[i].0));
            } else {
                lemma_key_before_irreflexive(entries[i].0);
            }
            lemma_key_not_after_transitive(entries[i].0, entries[at - 1].0, e.0);
        } else if i == at {
            assert(placed[j] == entries[j - 1]);
            lemma_key_before_asymmetric(e.0, entries[j - 1].0);
        } else {
            let oi = if i < at { i } else { i - 1 };
            let oj = if j < at { j } else { j - 1 };
            assert(placed[i] == entries[oi]);
            assert(placed[j] == entries[oj]);
        }
    }
}

/// Sorting gives ascending keys.
pub proof fn lemma_sort_by_key_ascending<V>(entries: Seq<(Seq<char>, V)>)
    ensures
        ascending(sort_by_key(entries)),
    decreases entries.len(),
{
    if entries.len() > 0 {
        lemma_sort_by_key_ascending(entries.drop_last());
        lemma_insert_at_slot_ascending(sort_by_key(entries.drop_last()), entries.last());
    }
}

/// Sorting keeps every entry, as often as it occurred: the keys and the
/// value that stands with each key are those of the input.
pub proof fn lemma_sort_by_key_permutes<V>(entries: Seq<(Seq<char>, V)>)
    ensures
        sort_by_key(entries).len() == entries.len(),
        sort_by_key(entries).to_multiset() == entries.to_multiset(),
    decreases entries.len(),
{
    broadcast use vstd::seq_lib::group_to_multiset_ensures;

    if entries.len() > 0 {
        let front = entries.drop_last();
        let e = entries.last();
        let sorted = sort_by_key(front);
        let at = slot(sorted, e.0);
        lemma_sort_by_key_permutes(front);
        lemma_slot(sorted, e.0);
        let (left, right) = (sorted.subrange(0, at), sorted.subrange(at, sorted.len() as int));
        assert(sorted =~= left + right);
        lemma_multiset_commutative(left, right);
        lemma_multiset_commutative(left.push(e), right);
        assert(sorted.insert(at, e).to_multiset() =~= sorted.to_multiset().insert(e));
        assert(entries =~= front.push(e));
    } else {
        assert(entries.to_multiset() =~= sort_by_key(entries).to_multiset());
    }
}

/// Sorting keeps an entry exactly where the input has it: a key is among
/// the sorted keys if and only if it is among those of the input, and it
/// stands with a value if and only if it did.
pub proof fn lemma_sort_by_key_keeps_entries<V>(entries: Seq<(Seq<char>, V)>)
    ensures
        forall|e: (Seq<char>, V)| sort_by_key(entries).contains(e) <==> entries.contains(e),
        forall|key: Seq<char>| keys(sort_by_key(entries)).contains(key) <==> keys(entries).contains(key),
{
    let sorted = sort_by_key(entries);
    lemma_sort_by_key_permutes(entries);
    sorted.to_multiset_ensures();
    entries.to_multiset_ensures();
    assert forall|e: (Seq<char>, V)| sorted.contains(e) <==> entries.contains(e) by {
        assert(sorted.contains(e) <==> sorted.to_multiset().count(e) > 0);
        assert(entries.contains(e) <==> entries.to_multiset().count(e) > 0);
    }
    assert forall|key: Seq<char>| keys(sorted).contains(key) <==> keys(entries).contains(key) by {
        if keys(sorted).contains(key) {
            let i = choose|i: int| 0 <= i < keys(sorted).len() && keys(sorted)[i] == key;
            assert(sorted.contains(sorted[i]));
            let j = choose|j: int| 0 <= j < entries.len() && entries[j] == sorted[i];
            assert(keys(entries)[j] == key);
        }
        if keys(entries).contains(key) {
            let i = choose|i: int| 0 <= i < keys(entries).len() && keys(entries)[i] == key;
            assert(entries.contains(entries[i]));
            let j = choose|j: int| 0 <= j < sorted.len() && sorted[j] == entries[i];
            assert(keys(sorted)[j] == key);
        }
    }
}

/// Sorting keeps keys distinct.
pub proof fn lemma_sort_by_key_keeps_distinct<V>(entries: Seq<(Seq<char>, V)>)
    requires
        distinct_keys(entries),
    ensures
        distinct_keys(sort_by_key(entries)),
{
    broadcast use vstd::seq_lib::group_to_multiset_ensures;

    let sorted = sort_by_key(entries);
    lemma_sort_by_key_permutes(entries);
    lemma_sort_by_key_keeps_entries(entries);
    assert(entries.no_duplicates());
    entries.lemma_multiset_has_no_duplicates();
    sorted.lemma_multiset_has_no_duplicates_conv();
    assert forall|i: int, j: int| 0 <= i < j < sorted.len() implies (#[trigger] sorted[i]).0 != (
    #[trigger] sorted[j]).0 by {
        assert(sorted.contains(sorted[i]) && sorted.contains(sorted[j]));
        assert(entries.contains(sorted[i]) && entries.contains(sorted[j]));
        let a = choose|a: int| 0 <= a < entries.len() && entries[a] == sorted[i];
        let b = choose|b: int| 0 <= b < entries.len() && entries[b] == sorted[j];
        assert(sorted[i] != sorted[j]);
        assert(a != b);
    }
}

/// A filter that no entry passes gives nothing.
proof fn lemma_with_key_absent<V>(entries: Seq<(Seq<char>, V)>, key: Seq<char>)
    requires
        forall|i: int| 0 <= i < entries.len() ==> (#[trigger] entries[i]).0 != key,
    ensures
        with_key(entries, key).len() == 0,
{
    let found = with_key(entries, key);
    if found.len() > 0 {
        entries.lemma_filter_pred(has_key(key), 0);
        assert(found.contains(found[0]));
        entries.lemma_filter_contains_rev(has_key(key), found[0]);
        assert(found[0].0 == key && entries.contains(found[0]));
    }
}

/// The entries with a given key, with one more entry behind all others.
proof fn lemma_with_key_push<V>(entries: Seq<(Seq<char>, V)>, e: (Seq<char>, V), key: Seq<char>)
    ensures
        with_key(entries.push(e), key) == if e.0 == key {
            with_key(entries, key).push(e)
        } else {
            with_key(entries, key)
        },
{
    entries.lemma_filter_push(e, has_key(key));
}

/// Sorting is stable: the entries with a given key stand in the order that
/// they had.
pub proof fn lemma_sort_by_key_stable<V>(entries: Seq<(Seq<char>, V)>, key: Seq<char>)
    ensures
        with_key(sort_by_key(entries), key) == with_key(entries, key),
    decreases entries.len(),
{
    if entries.len() > 0 {
        let front = entries.drop_last();
        let e = entries.last();
        let sorted = sort_by_key(front);
        let at = slot(sorted, e.0);
        lemma_sort_by_key_stable(front, key);
        lemma_slot(sorted, e.0);
        let (left, right) = (sorted.subrange(0, at), sorted.subrange(at, sorted.len() as int));
        assert(sorted =~= left + right);
        Seq::filter_distributes_over_add(left, right, has_key(key));
        Seq::filter_distributes_over_add(left.push(e), right, has_key(key));
        lemma_with_key_push(left, e, key);
        lemma_with_key_push(front, e, key);
        assert(entries =~= front.push(e));
        if e.0 == key {
            assert forall|i: int| 0 <= i < right.len() implies (#[trigger] right[i]).0 != key by {
                assert(right[i] == sorted[at + i]);
                lemma_key_before_irreflexive(key);
            }
            lemma_with_key_absent(right, key);
            assert(with_key(right, key) =~= Seq::<(Seq<char>, V)>::empty());
            assert(with_key(left, key).push(e) + with_key(right, key) =~= (with_key(left, key)
                + with_key(right, key)).push(e));
        }
    }
}

/// Two ascending arrangements that agree, key by key, on the entries with
/// that key and on their order are the same arrangement.
pub proof fn lemma_ascending_arrangement_unique<V>(
    a: Seq<(Seq<char>, V)>,
    b: Seq<(Seq<char>, V)>,
)
    requires
        ascending(a),
        ascending(b),
        forall|key: Seq<char>| with_key(a, key) == with_key(b, key),
    ensures
        a == b,
    decreases a.len(),
{
    if a.len() == 0 || b.len() == 0 {
        if a.len() > 0 {
            assert(a =~= a.drop_last().push(a.last()));
            lemma_with_key_push(a.drop_last(), a.last(), a.last().0);
            assert(with_key(b, a.last().0) =~= Seq::<(Seq<char>, V)>::empty()) by {
                lemma_with_key_absent(b, a.last().0);
            }
        }
        if b.len() > 0 {
            assert(b =~= b.drop_last().push(b.last()));
            lemma_with_key_push(b.drop_last(), b.last(), b.last().0);
            assert(with_key(a, b.last().0) =~= Seq::<(Seq<char>, V)>::empty()) by {
                lemma_with_key_absent(a, b.last().0);
            }
        }
        assert(a =~= b);
    } else {
        let (fa, la) = (a.drop_last(), a.last());
        let (fb, lb) = (b.drop_last(), b.last());
        assert(a =~= fa.push(la));
        assert(b =~= fb.push(lb));
        lemma_last_key_is_greatest(a, b);
        lemma_last_key_is_greatest(b, a);
        lemma_key_before_connected(la.0, lb.0);
        assert forall|key: Seq<char>| with_key(fa, key) == with_key(fb, key) by {
            lemma_with_key_push(fa, la, key);
            lemma_with_key_push(fb, lb, key);
            assert(with_key(a, key) == with_key(b, key));
            if key == la.0 {
                assert(with_key(fa, key) =~= with_key(a, key).drop_last());
                assert(with_key(fb, key) =~= with_key(b, key).drop_last());
            }
        }
        assert(la == lb) by {
            lemma_with_key_push(fa, la, la.0);
            lemma_with_key_push(fb, lb, la.0);
            assert(with_key(a, la.0) == with_key(b, la.0));
            assert(with_key(a, la.0).last() == la);
            assert(with_key(b, la.0).last() == lb);
        }
        assert(ascending(fa)) by {
            assert forall|i: int, j: int| 0 <= i < j < fa.len() implies !key_before(
                (#[trigger] fa[j]).0,
                (#[trigger] fa[i]).0,
            ) by {
                assert(fa[i] == a[i] && fa[j] == a[j]);
            }
        }
        assert(ascending(fb)) by {
            assert forall|i: int, j: int| 0 <= i < j < fb.len() implies !key_before(
                (#[trigger] fb[j]).0,
                (#[trigger] fb[i]).0,
            ) by {
                assert(fb[i] == b[i] && fb[j] == b[j]);
            }
        }
        lemma_ascending_arrangement_unique(fa, fb);
    }
}

/// The last key of an ascending arrangement does not come before the last
/// key of another arrangement of the same entries.
proof fn lemma_last_key_is_greatest<V>(a: Seq<(Seq<char>, V)>, b: Seq<(Seq<char>, V)>)
    requires
        ascending(a),
        a.len() > 0,
        b.len() > 0,
        with_key(a, b.last().0) == with_key(b, b.last().0),
    ensures
        !key_before(a.last().0, b.last().0),
{
    let key = b.last().0;
    assert(b =~= b.drop_last().push(b.last()));
    lemma_with_key_push(b.drop_last(), b.last(), key);
    let found = with_key(a, key);
    assert(found.len() > 0);
    a.lemma_filter_pred(has_key(key), 0);
    assert(found.contains(found[0]));
    a.lemma_filter_contains_rev(has_key(key), found[0]);
    let i = choose|i: int| 0 <= i < a.len() && a[i] == found[0];
    if i < a.len() - 1 {
        assert(!key_before(a[a.len() - 1].0, a[i].0));
    } else {
        lemma_key_before_irreflexive(key);
    }
}

/// The sorted entries are the one ascending arrangement that keeps, for
/// every key, the entries with that key in the order they had.
pub proof fn lemma_sort_by_key_unique<V>(entries: Seq<(Seq<char>, V)>, other: Seq<(Seq<char>, V)>)
    requires
        ascending(other),
        forall|key: Seq<char>| with_key(other, key) == with_key(entries, key),
    ensures
        other == sort_by_key(entries),
{
    lemma_sort_by_key_ascending(entries);
    assert forall|key: Seq<char>| with_key(other, key) == with_key(sort_by_key(entries), key) by {
        lemma_sort_by_key_stable(entries, key);
    }
    lemma_ascending_arrangement_unique(other, sort_by_key(entries));
}

/// Entries whose keys already ascend are left as they are.
pub proof fn lemma_sort_by_key_fixes_ascending<V>(entries: Seq<(Seq<char>, V)>)
    requires
        ascending(entries),
    ensures
        sort_by_key(entries) == entries,
    decreases entries.len(),
{
    if entries.len() > 0 {
        let front = entries.drop_last();
        assert forall|i: int, j: int| 0 <= i < j < front.len() implies !key_before(
            (#[trigger] front[j]).0,
            (#[trigger] front[i]).0,
        ) by {
            assert(front[i] == entries[i] && front[j] == entries[j]);
        }
        lemma_sort_by_key_fixes_ascending(front);
        if front.len() > 0 {
            assert(front.last() == entries[entries.len() - 2]);
            assert(!key_before(entries[entries.len() - 1].0, entries[entries.len() - 2].0));
        }
        assert(slot(front, entries.last().0) == front.len());
        assert(front.insert(front.len() as int, entries.last()) =~= entries);
    }
}

/// Sorting twice gives what sorting once gives.
pub proof fn lemma_sort_by_key_idempotent<V>(entries: Seq<(Seq<char>, V)>)
    ensures
        sort_by_key(sort_by_key(entries)) == sort_by_key(entries),
{
    lemma_sort_by_key_ascending(entries);
    lemma_sort_by_key_fixes_ascending(sort_by_key(entries));
}

/// Ascending entries stay ascending with one more entry behind them whose
/// key does not come before the last.
pub proof fn lemma_ascending_push<V>(entries: Seq<(Seq<char>, V)>, e: (Seq<char>, V))
    requires
        ascending(entries),
        entries.len() > 0 ==> !key_before(e.0, entries.last().0),
    ensures
        ascending(entries.push(e)),
{
    let longer = entries.push(e);
    assert forall|i: int, j: int| 0 <= i < j < longer.len() implies !key_before(
        (#[trigger] longer[j]).0,
        (#[trigger] longer[i]).0,
    ) by {
        if j == entries.len() {
            if i < entries.len() - 1 {
                assert(!key_before(entries[entries.len() - 1].0, entries[i].0));
            } else {
                lemma_key_before_irreflexive(entries[i].0);
            }
            lemma_key_not_after_transitive(entries[i].0, entries.last().0, e.0);
        } else {
            assert(longer[i] == entries[i] && longer[j] == entries[j]);
        }
    }
}

/// Tells whether the keys of the entries ascend already.
pub fn is_ascending<V>(entries: &Vec<(String, V)>) -> (ascends: bool)
    ensures
        ascends == ascending(keyed(entries@)),
{
    let ghost all = keyed(entries@);
    let mut i: usize = 1;
    if entries.len() == 0 {
        return true;
    }
    assert(ascending(all.take(1)));
    while i < entries.len()
        invariant
            1 <= i <= entries.len(),
            all == keyed(entries@),
            ascending(all.take(i as int)),
        decreases entries.len() - i,
    {
        if key_less(entries[i].0.as_str(), entries[i - 1].0.as_str()) {
            assert(key_before(all[i as int].0, all[i - 1].0));
            return false;
        }
        proof {
            assert(all.take(i as int).last() == all[i - 1]);
            lemma_ascending_push(all.take(i as int), all[i as int]);
            assert(all.take(i as int).push(all[i as int]) =~= all.take(i + 1));
        }
        i += 1;
    }
    assert(all.take(all.len() as int) =~= all);
    true
}

/// The place at which an entry with key `key` joins the sorted entries.
fn slot_for<V>(sorted: &Vec<(String, V)>, key: &str) -> (at: usize)
    ensures
        at == slot(keyed(sorted@), key@),
{
    let mut at: usize = sorted.len();
    assert(keyed(sorted@).take(at as int) =~= keyed(sorted@));
    while at > 0 && key_less(key, sorted[at - 1].0.as_str())
        invariant
            at <= sorted.len(),
            slot(keyed(sorted@), key@) == slot(keyed(sorted@).take(at as int), key@),
        decreases at,
    {
        assert(keyed(sorted@).take(at as int).drop_last() =~= keyed(sorted@).take(at as int - 1));
        at -= 1;
    }
    at
}

/// Sorts the entries by key, ascending in byte order. Entries are moved as
/// they are; entries with equal keys keep their order.
pub fn sort_entries<V>(entries: Vec<(String, V)>) -> (sorted: Vec<(String, V)>)
    ensures
        keyed(sorted@) == sort_by_key(keyed(entries@)),
        ascending(keyed(sorted@)),
        sorted@.len() == entries@.len(),
        keyed(sorted@).to_multiset() == keyed(entries@).to_multiset(),
        forall|key: Seq<char>| with_key(keyed(sorted@), key) == with_key(keyed(entries@), key),
{
    let mut sorted: Vec<(String, V)> = Vec::new();
    let ghost all = entries@;
    assert(keyed(all.take(0)) =~= keyed(sorted@));
    for entry in it: entries
        invariant
            it.seq() == all,
            keyed(sorted@) == sort_by_key(keyed(all.take(it.index() as int))),
    {
        let ghost done = it.index() as int;
        let at = slot_for(&sorted, entry.0.as_str());
        proof {
            lemma_slot(keyed(sorted@), entry.0@);
            assert(keyed(all.take(done + 1)).drop_last() =~= keyed(all.take(done)));
            assert(keyed(all.take(done + 1)).last() == (entry.0@, entry.1));
            assert(keyed(sorted@.insert(at as int, entry)) =~= keyed(sorted@).insert(
                at as int,
                (entry.0@, entry.1),
            ));
        }
        sorted.insert(at, entry);
    }
    proof {
        assert(all.take(all.len() as int) =~= all);
        lemma_sort_by_key_ascending(keyed(all));
        lemma_sort_by_key_permutes(keyed(all));
        assert forall|key: Seq<char>| with_key(keyed(sorted@), key) == with_key(
            keyed(all),
            key,
        ) by {
            lemma_sort_by_key_stable(keyed(all), key);
        }
    }
    sorted
}

} // verus!
