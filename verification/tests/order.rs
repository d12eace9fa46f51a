use line_freq::order::{compare_entries, SortingOrder};
use std::cmp::Ordering;

fn compare(order: SortingOrder, a: (&str, u64), b: (&str, u64)) -> Ordering {
    let (line_a, line_b) = (a.0.to_string(), b.0.to_string());
    compare_entries(&order, &(&line_a, &a.1), &(&line_b, &b.1))
}

#[test]
fn parse_reads_the_three_names() {
    assert_eq!(SortingOrder::parse("Key"), Ok(SortingOrder::Key));
    assert_eq!(SortingOrder::parse("Count"), Ok(SortingOrder::Count));
    assert_eq!(SortingOrder::parse("None"), Ok(SortingOrder::Unsorted));
}

#[test]
fn parse_ignores_the_case_of_letters() {
    assert_eq!(SortingOrder::parse("key"), Ok(SortingOrder::Key));
    assert_eq!(SortingOrder::parse("COUNT"), Ok(SortingOrder::Count));
    assert_eq!(SortingOrder::parse("nOnE"), Ok(SortingOrder::Unsorted));
}

#[test]
fn parse_rejects_other_texts() {
    let message = "valid values: Key, Count, None".to_string();
    assert_eq!(SortingOrder::parse(""), Err(message.clone()));
    assert_eq!(SortingOrder::parse("keys"), Err(message.clone()));
    assert_eq!(SortingOrder::parse(" count"), Err(message.clone()));
    assert_eq!(SortingOrder::parse("k\u{212a}y"), Err(message));
}

#[test]
fn name_is_read_back_by_parse() {
    for order in [SortingOrder::Key, SortingOrder::Count, SortingOrder::Unsorted] {
        assert_eq!(SortingOrder::parse(order.name()), Ok(order));
    }
    assert_eq!(SortingOrder::Key.name(), "Key");
    assert_eq!(SortingOrder::Count.name(), "Count");
    assert_eq!(SortingOrder::Unsorted.name(), "None");
}

#[test]
fn variants_lists_the_three_names() {
    assert_eq!(SortingOrder::variants(), ["Key", "Count", "None"]);
    for name in SortingOrder::variants() {
        assert!(SortingOrder::parse(name).is_ok());
    }
}

#[test]
fn default_order_is_by_count() {
    assert_eq!(SortingOrder::default(), SortingOrder::Count);
}

#[test]
fn key_order_compares_lines_first() {
    assert_eq!(compare(SortingOrder::Key, ("a", 1), ("b", 9)), Ordering::Less);
    assert_eq!(compare(SortingOrder::Key, ("b", 9), ("a", 1)), Ordering::Greater);
    assert_eq!(compare(SortingOrder::Key, ("ab", 1), ("abc", 1)), Ordering::Less);
    assert_eq!(compare(SortingOrder::Key, ("", 1), ("a", 1)), Ordering::Less);
    assert_eq!(compare(SortingOrder::Key, ("B", 1), ("a", 1)), Ordering::Less);
}

#[test]
fn key_order_breaks_ties_by_count_descending() {
    assert_eq!(compare(SortingOrder::Key, ("a", 5), ("a", 2)), Ordering::Less);
    assert_eq!(compare(SortingOrder::Key, ("a", 2), ("a", 5)), Ordering::Greater);
    assert_eq!(compare(SortingOrder::Key, ("a", 2), ("a", 2)), Ordering::Equal);
}

#[test]
fn count_order_puts_larger_counts_first() {
    assert_eq!(compare(SortingOrder::Count, ("z", 5), ("a", 2)), Ordering::Less);
    assert_eq!(compare(SortingOrder::Count, ("a", 2), ("z", 5)), Ordering::Greater);
}

#[test]
fn count_order_breaks_ties_by_line_ascending() {
    assert_eq!(compare(SortingOrder::Count, ("a", 2), ("b", 2)), Ordering::Less);
    assert_eq!(compare(SortingOrder::Count, ("b", 2), ("a", 2)), Ordering::Greater);
    assert_eq!(compare(SortingOrder::Count, ("a", 2), ("a", 2)), Ordering::Equal);
}

#[test]
fn lines_compare_by_code_point() {
    assert_eq!(compare(SortingOrder::Key, ("z", 1), ("\u{e9}", 1)), Ordering::Less);
    assert_eq!(
        compare(SortingOrder::Key, ("\u{ffff}", 1), ("\u{10000}", 1)),
        Ordering::Less
    );
}

#[test]
fn unsorted_ranks_no_entry_before_another() {
    assert_eq!(compare(SortingOrder::Unsorted, ("a", 1), ("b", 2)), Ordering::Equal);
    assert_eq!(compare(SortingOrder::Unsorted, ("b", 2), ("a", 1)), Ordering::Equal);
}
