use line_freq::table::{tally, FrequencyTable};

fn lines(texts: &[&str]) -> Vec<String> {
    texts.iter().map(|t| t.to_string()).collect()
}

fn sorted_entries(table: &FrequencyTable) -> Vec<(String, u64)> {
    let mut entries: Vec<(String, u64)> =
        table.entries().iter().map(|e| (e.0.clone(), *e.1)).collect();
    entries.sort();
    entries
}

#[test]
fn new_table_holds_nothing() {
    let table = FrequencyTable::new();
    assert_eq!(table.total(), 0);
    assert!(table.entries().is_empty());
}

#[test]
fn record_counts_a_first_occurrence_as_one() {
    let mut table = FrequencyTable::new();
    table.record("alpha".to_string());
    assert_eq!(table.total(), 1);
    assert_eq!(sorted_entries(&table), vec![("alpha".to_string(), 1)]);
}

#[test]
fn record_adds_one_to_a_line_seen_before() {
    let mut table = FrequencyTable::new();
    table.record("alpha".to_string());
    table.record("beta".to_string());
    table.record("alpha".to_string());
    assert_eq!(table.total(), 3);
    assert_eq!(
        sorted_entries(&table),
        vec![("alpha".to_string(), 2), ("beta".to_string(), 1)]
    );
}

#[test]
fn tally_counts_each_distinct_line() {
    let table = tally(&lines(&["b", "a", "b", "c", "a", "b"]));
    assert_eq!(
        sorted_entries(&table),
        vec![
            ("a".to_string(), 2),
            ("b".to_string(), 3),
            ("c".to_string(), 1)
        ]
    );
}

#[test]
fn tally_counts_add_up_to_the_number_of_lines() {
    let input = lines(&["x", "y", "x", "x", "z", "y", "", ""]);
    let table = tally(&input);
    assert_eq!(table.total(), 8);
    let sum: u64 = table.entries().iter().map(|e| *e.1).sum();
    assert_eq!(sum, input.len() as u64);
}

#[test]
fn tally_lists_every_line_once() {
    let input = lines(&["x", "y", "x", "x", "z", "y"]);
    let table = tally(&input);
    let entries = sorted_entries(&table);
    let keys: Vec<&str> = entries.iter().map(|e| e.0.as_str()).collect();
    assert_eq!(keys, vec!["x", "y", "z"]);
}

#[test]
fn tally_of_nothing_is_empty() {
    let table = tally(&Vec::new());
    assert_eq!(table.total(), 0);
    assert!(table.entries().is_empty());
}

#[test]
fn tally_compares_lines_exactly() {
    let table = tally(&lines(&["a", "A", "a ", " a", "a"]));
    assert_eq!(
        sorted_entries(&table),
        vec![
            (" a".to_string(), 1),
            ("A".to_string(), 1),
            ("a".to_string(), 2),
            ("a ".to_string(), 1)
        ]
    );
}

#[test]
fn tally_agrees_with_recording_line_by_line() {
    let input = lines(&["one", "two", "one"]);
    let mut table = FrequencyTable::new();
    for line in input.iter() {
        table.record(line.clone());
    }
    assert_eq!(sorted_entries(&table), sorted_entries(&tally(&input)));
    assert_eq!(table.total(), tally(&input).total());
}
