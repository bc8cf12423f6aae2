use cargo_abc::table::sort_table_alphabetically;
use toml_edit::{DocumentMut, Item, Table};

fn keys(table: &Table) -> Vec<String> {
    table.iter().map(|(key, _)| key.to_string()).collect()
}

#[test]
fn table_keys_are_put_in_ascending_order() {
    let mut doc = "serde = \"1.0\"\nanyhow = \"1\"\ntokio = \"1.37\"\n".parse::<DocumentMut>().unwrap();
    sort_table_alphabetically(doc.as_table_mut());
    assert_eq!(keys(doc.as_table()), vec!["anyhow", "serde", "tokio"]);
    assert_eq!(doc["serde"].as_str(), Some("1.0"));
    assert_eq!(doc["anyhow"].as_str(), Some("1"));
    assert_eq!(doc["tokio"].as_str(), Some("1.37"));
    assert_eq!(doc.to_string(), "anyhow = \"1\"\nserde = \"1.0\"\ntokio = \"1.37\"\n");
}

#[test]
fn empty_table_stays_empty() {
    let mut table = Table::new();
    sort_table_alphabetically(&mut table);
    assert!(table.is_empty());
    assert_eq!(table.iter().count(), 0);
}

#[test]
fn table_with_one_key_keeps_it() {
    let mut doc = "only = { path = \"../only\" }\n".parse::<DocumentMut>().unwrap();
    assert!(!sort_table_alphabetically(doc.as_table_mut()));
    assert_eq!(doc.to_string(), "only = { path = \"../only\" }\n");
}

#[test]
fn table_with_one_key_keeps_how_the_key_is_written() {
    let text = "\n# why it is here\n  \"only\"   = { path = \"../only\" }\n";
    let mut doc = text.parse::<DocumentMut>().unwrap();
    assert!(!sort_table_alphabetically(doc.as_table_mut()));
    assert_eq!(doc.to_string(), text);
}

#[test]
fn table_in_order_is_left_untouched() {
    let text = "# first\na = 1\n\n# second\n'b' = 2\n\"c\"=3 # third\n";
    let mut doc = text.parse::<DocumentMut>().unwrap();
    assert!(!sort_table_alphabetically(doc.as_table_mut()));
    assert_eq!(doc.to_string(), text);
}

#[test]
fn keys_that_move_are_written_as_they_were() {
    let text = "# about b\n\"b\" = 2\n\n# about a\n'a'  = 1\n";
    let mut doc = text.parse::<DocumentMut>().unwrap();
    assert!(sort_table_alphabetically(doc.as_table_mut()));
    assert_eq!(doc.to_string(), "\n# about a\n'a'  = 1\n# about b\n\"b\" = 2\n");
}

#[test]
fn sorting_tells_whether_it_rewrote_the_table() {
    let mut doc = "b = 2\na = 1\n".parse::<DocumentMut>().unwrap();
    assert!(sort_table_alphabetically(doc.as_table_mut()));
    assert!(!sort_table_alphabetically(doc.as_table_mut()));
    let mut empty = Table::new();
    assert!(!sort_table_alphabetically(&mut empty));
}

#[test]
fn placeholder_entries_stay_in_a_table_in_order() {
    let mut table = Table::new();
    table.insert("a", toml_edit::value(1));
    table.insert("hidden", Item::None);
    table.insert("b", toml_edit::value(2));
    assert!(!sort_table_alphabetically(&mut table));
    assert_eq!(keys(&table), vec!["a", "b"]);
    assert!(table.key("hidden").is_some());
}

#[test]
fn values_keep_their_formatting() {
    let mut doc = "b = [\n  \"x\",   # first\n  \"y\",\n]\na = { version = \"1\",  features = [ \"f\" ] }\n"
        .parse::<DocumentMut>()
        .unwrap();
    sort_table_alphabetically(doc.as_table_mut());
    assert_eq!(
        doc.to_string(),
        "a = { version = \"1\",  features = [ \"f\" ] }\nb = [\n  \"x\",   # first\n  \"y\",\n]\n"
    );
}

#[test]
fn table_built_by_hand_is_sorted() {
    let mut table = Table::new();
    table.insert("zeta", toml_edit::value(1));
    table.insert("alpha", toml_edit::value("two"));
    table.insert("Mid", toml_edit::value(true));
    sort_table_alphabetically(&mut table);
    assert_eq!(keys(&table), vec!["Mid", "alpha", "zeta"]);
    assert_eq!(table["zeta"].as_integer(), Some(1));
    assert_eq!(table["alpha"].as_str(), Some("two"));
    assert_eq!(table["Mid"].as_bool(), Some(true));
    assert_eq!(table.len(), 3);
}

#[test]
fn placeholder_entries_are_dropped() {
    let mut table = Table::new();
    table.insert("b", toml_edit::value(2));
    table.insert("hidden", Item::None);
    table.insert("a", toml_edit::value(1));
    assert_eq!(keys(&table), vec!["b", "a"]);
    sort_table_alphabetically(&mut table);
    assert_eq!(keys(&table), vec!["a", "b"]);
    assert!(table.key("hidden").is_none());
    table.insert("hidden", toml_edit::value(0));
    assert_eq!(keys(&table), vec!["a", "b", "hidden"]);
}

#[test]
fn sorting_a_sorted_table_changes_nothing() {
    let mut doc = "b = 2\nc = 3\na = 1\n".parse::<DocumentMut>().unwrap();
    sort_table_alphabetically(doc.as_table_mut());
    let once = doc.to_string();
    sort_table_alphabetically(doc.as_table_mut());
    assert_eq!(doc.to_string(), once);
    assert_eq!(once, "a = 1\nb = 2\nc = 3\n");
}

#[test]
fn nested_tables_are_moved_whole() {
    let mut doc = "[t.b]\nz = 1\ny = 2\n\n[t.a]\nx = 3\n".parse::<DocumentMut>().unwrap();
    let table = doc["t"].as_table_mut().unwrap();
    sort_table_alphabetically(table);
    assert_eq!(keys(table), vec!["a", "b"]);
    let inner = table["b"].as_table().unwrap();
    assert_eq!(keys(inner), vec!["z", "y"]);
    assert_eq!(table["a"]["x"].as_integer(), Some(3));
}
