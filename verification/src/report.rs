//! The whole computation, from the lines that were read to the rows that
//! are written.

use crate::order::SortingOrder;
use crate::output::{render, report_rows, row_limit};
use crate::sorter::{is_ranked, lemma_ranking_unique, ranking};
use crate::table::{is_tally_of, lemma_tally_len, tally};
use vstd::multiset::Multiset;
use vstd::prelude::*;

verus! {

/// Whether `rows` is a report on `lines`: the rows, up to the limit `top`,
/// of a tally of `lines` that is ranked under `order`.
pub open spec fn is_report_of(
    rows: Seq<Seq<char>>,
    lines: Multiset<Seq<char>>,
    order: SortingOrder,
    top: Option<usize>,
) -> bool {
    exists|ranked: Seq<(Seq<char>, u64)>|
        #[trigger] report_rows(ranked, top) == rows && is_tally_of(ranked, lines) && is_ranked(
            ranked,
            order,
        )
}

/// Counts the lines of `lines`, ranks the distinct ones under `order`, and
/// formats the first `top` of them, or all where no limit is given.
pub fn report(lines: &Vec<String>, order: &SortingOrder, top: Option<usize>) -> (rows: Vec<String>)
    ensures
        is_report_of(rows.deep_view(), lines.deep_view().to_multiset(), *order, top),
        rows.len() == row_limit(lines.deep_view().to_multiset().dom().len(), top),
{
    let table = tally(lines);
    let ranked = ranking(&table, order);
    let rows = render(&ranked, top);
    proof {
        lemma_tally_len(ranked.deep_view(), table@);
    }
    rows
}

/// Under `Key` and under `Count` the report is determined by the lines that
/// were read, the order and the limit: two reports on the same lines are
/// equal, row for row.
pub proof fn lemma_report_unique(
    first: Seq<Seq<char>>,
    second: Seq<Seq<char>>,
    lines: Multiset<Seq<char>>,
    order: SortingOrder,
    top: Option<usize>,
)
    requires
        order != SortingOrder::Unsorted,
        is_report_of(first, lines, order, top),
        is_report_of(second, lines, order, top),
    ensures
        first == second,
{
    let ranked_first = choose|ranked: Seq<(Seq<char>, u64)>|
        #[trigger] report_rows(ranked, top) == first && is_tally_of(ranked, lines) && is_ranked(
            ranked,
            order,
        );
    let ranked_second = choose|ranked: Seq<(Seq<char>, u64)>|
        #[trigger] report_rows(ranked, top) == second && is_tally_of(ranked, lines) && is_ranked(
            ranked,
            order,
        );
    lemma_ranking_unique(ranked_first, ranked_second, lines, order);
}

/// A limited report is the beginning of the full report: its rows are the
/// first rows of the report without a limit, one for one.
pub proof fn lemma_top_is_prefix(ranked: Seq<(Seq<char>, u64)>, top: Option<usize>)
    ensures
        row_limit(ranked.len(), top) <= ranked.len(),
        report_rows(ranked, top) == report_rows(ranked, None).take(
            row_limit(ranked.len(), top) as int,
        ),
{
    assert(report_rows(ranked, top) =~= report_rows(ranked, None).take(
        row_limit(ranked.len(), top) as int,
    ));
}

} // verus!
