//! Sorting the keys of one table.

use crate::entries::{
    ascending, distinct_keys, is_ascending, keyed, lemma_sort_by_key_ascending,
    lemma_sort_by_key_fixes_ascending, lemma_sort_by_key_keeps_distinct,
    lemma_sort_by_key_keeps_entries, lemma_sort_by_key_permutes, sort_by_key, sort_entries,
};
use crate::toml::{
    clear_table, insert_entry, is_live, item_is_none, key_text, live, table_cleared,
    table_entries, table_inserted, texts, views, walked_keys, with_entry, written_entry,
};
use toml_edit::{Item, Key, Table};
use vstd::prelude::*;

verus! {

/// Each pair with the text of its key before it: the form in which pairs
/// are sorted.
pub open spec fn texted(entries: Seq<(Key, Item)>) -> Seq<(Seq<char>, (Key, Item))> {
    entries.map_values(|e: (Key, Item)| (key_text(e.0), e))
}

/// The pairs without the texts before them.
pub open spec fn pairs(entries: Seq<(Seq<char>, (Key, Item))>) -> Seq<(Key, Item)> {
    entries.map_values(|e: (Seq<char>, (Key, Item))| e.1)
}

/// What a walk over the table shows: the pairs whose item is not the empty
/// placeholder, each with the text of its key.
pub open spec fn shown(table: Table) -> Seq<(Seq<char>, (Key, Item))> {
    texted(live(table_entries(table)))
}

/// Before each pair stands the text of its own key, and no item is the
/// empty placeholder.
pub open spec fn well_texted(entries: Seq<(Seq<char>, (Key, Item))>) -> bool {
    forall|i: int|
        0 <= i < entries.len() ==> (#[trigger] entries[i]).0 == key_text(entries[i].1.0)
            && !item_is_none(entries[i].1.1)
}

/// The table after the pairs are stored in it one by one, from the first.
pub open spec fn refilled(table: Table, entries: Seq<(Key, Item)>) -> Table
    decreases entries.len(),
{
    if entries.len() == 0 {
        table
    } else {
        table_inserted(refilled(table, entries.drop_last()), entries.last().0, entries.last().1)
    }
}

/// The table rebuilt with its keys in ascending order: emptied, then filled
/// again with the pairs that a walk over it shows, sorted by the text of
/// their keys. Each key goes back as it was written.
pub open spec fn sorted_table(table: Table) -> Table {
    refilled(table_cleared(table), pairs(sort_by_key(shown(table))))
}

/// Where no pair holds the empty placeholder, a walk shows every pair.
pub proof fn lemma_live_of_live(entries: Seq<(Key, Item)>)
    requires
        forall|i: int| 0 <= i < entries.len() ==> !item_is_none((#[trigger] entries[i]).1),
    ensures
        live(entries) == entries,
    decreases entries.len(),
{
    if entries.len() > 0 {
        let front = entries.drop_last();
        assert forall|i: int| 0 <= i < front.len() implies !item_is_none((#[trigger] front[i]).1) by {
            assert(front[i] == entries[i]);
        }
        lemma_live_of_live(front);
        front.lemma_filter_push(entries.last(), is_live());
        assert(entries =~= front.push(entries.last()));
    } else {
        entries.lemma_filter_len(is_live());
        assert(live(entries) =~= entries);
    }
}

/// What a walk shows is well texted.
pub proof fn lemma_shown_is_well_texted(entries: Seq<(Key, Item)>)
    ensures
        well_texted(texted(live(entries))),
{
    let visible = live(entries);
    assert forall|i: int| 0 <= i < visible.len() implies !item_is_none((#[trigger] visible[i]).1) by {
        entries.lemma_filter_pred(is_live(), i);
    }
}

/// Sorting keeps pairs well texted, and a table that stores the sorted
/// pairs shows them as they are.
pub proof fn lemma_sorted_pairs_are_shown(entries: Seq<(Seq<char>, (Key, Item))>)
    requires
        well_texted(entries),
    ensures
        well_texted(sort_by_key(entries)),
        texted(live(pairs(sort_by_key(entries)))) == sort_by_key(entries),
{
    let sorted = sort_by_key(entries);
    lemma_sort_by_key_keeps_entries(entries);
    assert forall|i: int| 0 <= i < sorted.len() implies (#[trigger] sorted[i]).0 == key_text(
        sorted[i].1.0,
    ) && !item_is_none(sorted[i].1.1) by {
        assert(sorted.contains(sorted[i]));
        assert(entries.contains(sorted[i]));
    }
    lemma_live_of_live(pairs(sorted));
    assert(texted(pairs(sorted)) =~= sorted);
}

/// The pairs that a walk over the table shows, each with the text of its
/// key, the key as it is written and the item.
fn written_entries(table: &Table) -> (entries: Vec<(String, (Key, Item))>)
    ensures
        keyed(entries@) == shown(*table),
        distinct_keys(keyed(entries@)),
{
    let keys = walked_keys(table);
    let ghost all = keys@;
    let ghost visible = live(table_entries(*table));
    let mut entries: Vec<(String, (Key, Item))> = Vec::new();
    assert(keyed(entries@) =~= texted(visible).take(0));
    for key in it: keys
        invariant
            it.seq() == all,
            visible == live(table_entries(*table)),
            views(all) == texts(visible),
            forall|i: int, j: int| 0 <= i < j < all.len() ==> all[i]@ != all[j]@,
            keyed(entries@) == texted(visible).take(it.index() as int),
    {
        let ghost at = it.index() as int;
        assert(views(all).len() == all.len() && texts(visible).len() == visible.len());
        assert(texts(visible)[at] == views(all)[at]);
        assert(views(all)[at] == key@);
        match written_entry(table, key.as_str()) {
            Some(entry) => {
                proof {
                    let j = choose|j: int| 0 <= j < visible.len() && visible[j] == entry;
                    assert(texts(visible)[j] == views(all)[j]);
                    assert(views(all)[j] == all[j]@ && texts(visible)[j] == key@);
                    assert(j == at);
                    assert(texted(visible)[at] == (key@, entry));
                    assert(keyed(entries@.push((key, entry))) =~= keyed(entries@).push(
                        (key@, entry),
                    ));
                    assert(texted(visible).take(at + 1) =~= texted(visible).take(at).push(
                        texted(visible)[at],
                    ));
                }
                entries.push((key, entry));
            },
            None => {
                assert(texts(visible).contains(key@));
                assert(false);
            },
        }
    }
    proof {
        assert(views(all).len() == all.len() && texts(visible).len() == visible.len());
        assert(texted(visible).take(all.len() as int) =~= texted(visible));
        assert forall|i: int, j: int| 0 <= i < j < keyed(entries@).len() implies (
        #[trigger] keyed(entries@)[i]).0 != (#[trigger] keyed(entries@)[j]).0 by {
            assert(texts(visible)[i] == views(all)[i] && texts(visible)[j] == views(all)[j]);
        }
    }
    entries
}

/// Puts the keys of the table in ascending byte order and tells whether it
/// had to: a table whose keys ascend already is left untouched. Where keys
/// move, each goes with its item and is written as it was, and pairs whose
/// item is the empty placeholder, which a walk does not show, are dropped.
pub fn sort_table_alphabetically(table: &mut Table) -> (rewritten: bool)
    ensures
        rewritten == !ascending(shown(*old(table))),
        !rewritten ==> *final(table) == *old(table),
        rewritten ==> *final(table) == sorted_table(*old(table)),
        rewritten ==> table_entries(*final(table)) == pairs(sort_by_key(shown(*old(table)))),
        shown(*final(table)) == sort_by_key(shown(*old(table))),
        ascending(shown(*final(table))),
        shown(*final(table)).to_multiset() == shown(*old(table)).to_multiset(),
{
    let ghost before = *table;
    let entries = written_entries(table);
    proof {
        lemma_shown_is_well_texted(table_entries(before));
        lemma_sorted_pairs_are_shown(shown(before));
        lemma_sort_by_key_keeps_distinct(shown(before));
        lemma_sort_by_key_permutes(shown(before));
        lemma_sort_by_key_ascending(shown(before));
    }
    if is_ascending(&entries) {
        proof {
            lemma_sort_by_key_fixes_ascending(shown(before));
        }
        return false;
    }
    let sorted = sort_entries(entries);
    let ghost all = sorted@;
    assert(pairs(keyed(all)).take(0) =~= Seq::<(Key, Item)>::empty());
    clear_table(table);
    for entry in it: sorted
        invariant
            it.seq() == all,
            distinct_keys(keyed(all)),
            well_texted(keyed(all)),
            *table == refilled(table_cleared(before), pairs(keyed(all)).take(it.index() as int)),
            table_entries(*table) == pairs(keyed(all)).take(it.index() as int),
    {
        let ghost done = it.index() as int;
        let (_, (key, item)) = entry;
        proof {
            let stored = pairs(keyed(all)).take(done);
            assert(keyed(all)[done].1 == (key, item));
            assert(pairs(keyed(all)).take(done + 1).drop_last() =~= stored);
            assert(pairs(keyed(all)).take(done + 1).last() == (key, item));
            assert(!texts(stored).contains(key_text(key))) by {
                if texts(stored).contains(key_text(key)) {
                    let i = choose|i: int| 0 <= i < stored.len() && texts(stored)[i] == key_text(key);
                    assert(stored[i] == keyed(all)[i].1);
                    assert(keyed(all)[i].0 == keyed(all)[done].0);
                }
            }
            assert(with_entry(stored, key, item) =~= pairs(keyed(all)).take(done + 1));
        }
        insert_entry(table, &key, item);
    }
    assert(pairs(keyed(all)).take(all.len() as int) =~= pairs(keyed(all)));
    true
}

} // verus!
