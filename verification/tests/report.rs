use line_freq::order::SortingOrder;
use line_freq::report::report;
use line_freq::sorter::ranking;
use line_freq::table::tally;

fn sample() -> Vec<String> {
    ["b", "a", "b", "c", "a", "b"].iter().map(|t| t.to_string()).collect()
}

#[test]
fn report_by_count_lists_the_most_frequent_first() {
    let rows = report(&sample(), &SortingOrder::Count, None);
    assert_eq!(rows.concat(), "b\t3\na\t2\nc\t1\n");
}

#[test]
fn report_with_default_order_is_by_count() {
    let rows = report(&sample(), &SortingOrder::default(), None);
    assert_eq!(rows.concat(), "b\t3\na\t2\nc\t1\n");
}

#[test]
fn report_by_key_lists_lines_ascending() {
    let rows = report(&sample(), &SortingOrder::Key, None);
    assert_eq!(rows.concat(), "a\t2\nb\t3\nc\t1\n");
}

#[test]
fn report_by_count_top_two() {
    let rows = report(&sample(), &SortingOrder::Count, Some(2));
    assert_eq!(rows.concat(), "b\t3\na\t2\n");
}

#[test]
fn report_on_empty_input_is_empty() {
    for order in [SortingOrder::Key, SortingOrder::Count, SortingOrder::Unsorted] {
        assert!(report(&Vec::new(), &order, None).is_empty());
        assert!(report(&Vec::new(), &order, Some(3)).is_empty());
    }
}

#[test]
fn report_unsorted_lists_every_line_once() {
    let mut rows = report(&sample(), &SortingOrder::Unsorted, None);
    rows.sort();
    assert_eq!(rows, vec!["a\t2\n", "b\t3\n", "c\t1\n"]);
}

#[test]
fn report_length_is_limit_or_number_of_distinct_lines() {
    for order in [SortingOrder::Key, SortingOrder::Count, SortingOrder::Unsorted] {
        assert_eq!(report(&sample(), &order, Some(0)).len(), 0);
        assert_eq!(report(&sample(), &order, Some(1)).len(), 1);
        assert_eq!(report(&sample(), &order, Some(3)).len(), 3);
        assert_eq!(report(&sample(), &order, Some(100)).len(), 3);
        assert_eq!(report(&sample(), &order, None).len(), 3);
    }
}

#[test]
fn report_with_a_limit_is_a_prefix_of_the_full_report() {
    for order in [SortingOrder::Key, SortingOrder::Count] {
        let full = report(&sample(), &order, None);
        for n in 0..5 {
            let limited = report(&sample(), &order, Some(n));
            assert_eq!(limited[..], full[..limited.len()]);
        }
    }
}

#[test]
fn report_is_the_same_when_run_twice() {
    let input: Vec<String> = (0..500u32).map(|i| format!("line {}", (i * 7919) % 37)).collect();
    for order in [SortingOrder::Key, SortingOrder::Count] {
        for top in [None, Some(5), Some(1000)] {
            assert_eq!(report(&input, &order, top), report(&input, &order, top));
        }
    }
}

#[test]
fn report_does_not_depend_on_the_order_of_the_input() {
    let mut reversed = sample();
    reversed.reverse();
    for order in [SortingOrder::Key, SortingOrder::Count] {
        assert_eq!(report(&sample(), &order, None), report(&reversed, &order, None));
    }
}

#[test]
fn ranking_by_count_never_rises_and_ties_ascend_by_line() {
    let input: Vec<String> = (0..300u32).map(|i| format!("w{}", (i * i) % 23)).collect();
    let table = tally(&input);
    let ranked = ranking(&table, &SortingOrder::Count);
    for pair in ranked.windows(2) {
        let (a, b) = (pair[0], pair[1]);
        assert!(a.1 > b.1 || (a.1 == b.1 && a.0 < b.0));
    }
    assert_eq!(ranked.iter().map(|e| *e.1).sum::<u64>(), 300);
}

#[test]
fn ranking_by_key_ascends_strictly() {
    let input: Vec<String> = (0..300u32).map(|i| format!("w{}", (i * i) % 23)).collect();
    let table = tally(&input);
    let ranked = ranking(&table, &SortingOrder::Key);
    for pair in ranked.windows(2) {
        assert!(pair[0].0 < pair[1].0);
    }
    assert_eq!(ranked.len(), table.entries().len());
}

#[test]
fn ranking_unsorted_keeps_every_entry() {
    let table = tally(&sample());
    let mut ranked: Vec<(String, u64)> = ranking(&table, &SortingOrder::Unsorted)
        .iter()
        .map(|e| (e.0.clone(), *e.1))
        .collect();
    ranked.sort();
    assert_eq!(
        ranked,
        vec![
            ("a".to_string(), 2),
            ("b".to_string(), 3),
            ("c".to_string(), 1)
        ]
    );
}
