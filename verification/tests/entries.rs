use cargo_abc::entries::sort_entries;

fn entries(pairs: &[(&str, u32)]) -> Vec<(String, u32)> {
    pairs.iter().map(|(key, value)| (key.to_string(), *value)).collect()
}

#[test]
fn entries_are_sorted_by_key() {
    let sorted = sort_entries(entries(&[("serde", 1), ("anyhow", 2), ("tokio", 3)]));
    assert_eq!(sorted, entries(&[("anyhow", 2), ("serde", 1), ("tokio", 3)]));
}

#[test]
fn no_entries_give_no_entries() {
    assert_eq!(sort_entries(entries(&[])), entries(&[]));
}

#[test]
fn one_entry_is_returned_as_it_is() {
    assert_eq!(sort_entries(entries(&[("serde", 7)])), entries(&[("serde", 7)]));
}

#[test]
fn ascending_entries_are_returned_as_they_are() {
    let input = entries(&[("a", 3), ("b", 2), ("c", 1)]);
    assert_eq!(sort_entries(input.clone()), input);
}

#[test]
fn descending_entries_are_turned_round() {
    let sorted = sort_entries(entries(&[("d", 1), ("c", 2), ("b", 3), ("a", 4)]));
    assert_eq!(sorted, entries(&[("a", 4), ("b", 3), ("c", 2), ("d", 1)]));
}

#[test]
fn entries_with_equal_keys_keep_their_order() {
    let sorted = sort_entries(entries(&[("b", 1), ("a", 2), ("b", 3), ("a", 4), ("b", 5)]));
    assert_eq!(sorted, entries(&[("a", 2), ("a", 4), ("b", 1), ("b", 3), ("b", 5)]));
}

#[test]
fn sorting_twice_gives_what_sorting_once_gives() {
    let once = sort_entries(entries(&[("m", 1), ("z", 2), ("a", 3), ("m", 4), ("B", 5)]));
    assert_eq!(sort_entries(once.clone()), once);
}

#[test]
fn every_entry_is_kept_with_its_value() {
    let input = entries(&[("m", 1), ("z", 2), ("a", 3), ("k", 4), ("B", 5), ("", 6)]);
    let sorted = sort_entries(input.clone());
    assert_eq!(sorted.len(), input.len());
    for entry in &input {
        assert_eq!(sorted.iter().filter(|e| *e == entry).count(), 1);
    }
    assert_eq!(sorted, entries(&[("", 6), ("B", 5), ("a", 3), ("k", 4), ("m", 1), ("z", 2)]));
}

#[test]
fn values_are_not_looked_at() {
    let input: Vec<(String, Vec<&str>)> = vec![
        ("b".to_string(), vec!["x", "y"]),
        ("a".to_string(), vec![]),
    ];
    let sorted = sort_entries(input);
    assert_eq!(sorted[0], ("a".to_string(), vec![]));
    assert_eq!(sorted[1], ("b".to_string(), vec!["x", "y"]));
}
