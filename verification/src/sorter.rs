//! Ranking counted lines: the parallel sort and what it guarantees.

use crate::order::{
    compare_entries, lemma_precedes_asymmetric, lemma_precedes_connected,
    lemma_precedes_irreflexive, lemma_precedes_transitive, line_before, precedes, SortingOrder,
};
use crate::table::{
    is_tally_of, lemma_tallies_agree, lemma_tally_rearranged, lemma_tally_total, total_count,
    FrequencyTable,
};
use rayon::slice::ParallelSliceMut;
use vstd::multiset::Multiset;
use vstd::prelude::*;
use vstd::relations::total_ordering;
use vstd::seq_lib::lemma_sorted_unique;

verus! {

/// Whether `entries` stand in the order that `order` asks for: no entry is
/// ranked strictly before one that stands earlier. Under `Unsorted` every
/// sequence is ranked.
pub open spec fn is_ranked(entries: Seq<(Seq<char>, u64)>, order: SortingOrder) -> bool {
    forall|i: int, j: int|
        0 <= i < j < entries.len() ==> !precedes(order, #[trigger] entries[j], #[trigger] entries[i])
}

/// Whether every entry of `entries` is ranked strictly before all that stand
/// after it.
pub open spec fn is_strictly_ranked(entries: Seq<(Seq<char>, u64)>, order: SortingOrder) -> bool {
    forall|i: int, j: int|
        0 <= i < j < entries.len() ==> precedes(order, #[trigger] entries[i], #[trigger] entries[j])
}

/// Whether the lines of `entries` ascend strictly.
pub open spec fn is_ascending_by_line(entries: Seq<(Seq<char>, u64)>) -> bool {
    forall|i: int, j: int|
        0 <= i < j < entries.len() ==> line_before(
            (#[trigger] entries[i]).0,
            (#[trigger] entries[j]).0,
        )
}

/// Whether the counts of `entries` never rise and, where two entries have the
/// same count, the earlier has the line that comes first.
pub open spec fn is_descending_by_count(entries: Seq<(Seq<char>, u64)>) -> bool {
    forall|i: int, j: int|
        0 <= i < j < entries.len() ==> {
            let earlier = #[trigger] entries[i];
            let later = #[trigger] entries[j];
            earlier.1 > later.1 || (earlier.1 == later.1 && line_before(earlier.0, later.0))
        }
}

/// rayon's `ParallelSliceMut::par_sort_unstable_by`, with `compare_entries`
/// under `order` as the comparator. rayon documents that it sorts the slice
/// in place by a comparator that is a total order, without keeping the order
/// of equal elements: the entries afterwards are those from before, and none
/// is ranked before one that stands earlier. That `compare_entries` is such
/// an order is what the laws of `precedes` show.
#[verifier::external_body]
fn par_sort_entries(counts: &mut Vec<(&String, &u64)>, order: &SortingOrder)
    ensures
        final(counts).deep_view().to_multiset() == old(counts).deep_view().to_multiset(),
        is_ranked(final(counts).deep_view(), *order),
{
    counts.par_sort_unstable_by(|a, b| compare_entries(order, a, b));
}

/// Arranges `counts` as `sorting_order` asks: by line, by count, or not at
/// all. The entries are kept, only their order changes.
pub fn sort_counts(counts: &mut Vec<(&String, &u64)>, sorting_order: &SortingOrder)
    ensures
        final(counts).deep_view().to_multiset() == old(counts).deep_view().to_multiset(),
        is_ranked(final(counts).deep_view(), *sorting_order),
        *sorting_order == SortingOrder::Unsorted ==> final(counts)@ == old(counts)@,
{
    match sorting_order {
        SortingOrder::Key => par_sort_entries(counts, sorting_order),
        SortingOrder::Count => par_sort_entries(counts, sorting_order),
        SortingOrder::Unsorted => (),
    }
}

/// The distinct lines of `table` with their counts, arranged as `order`
/// asks. Under `Key` the lines ascend strictly; under `Count` the counts
/// never rise, and lines with the same count ascend.
pub fn ranking<'a>(
    table: &'a FrequencyTable,
    order: &SortingOrder,
) -> (ranked: Vec<(&'a String, &'a u64)>)
    requires
        table.wf(),
    ensures
        is_tally_of(ranked.deep_view(), table@),
        total_count(ranked.deep_view()) == table@.len(),
        is_ranked(ranked.deep_view(), *order),
        *order == SortingOrder::Key ==> is_ascending_by_line(ranked.deep_view()),
        *order == SortingOrder::Count ==> is_descending_by_count(ranked.deep_view()),
{
    let mut counts = table.entries();
    let ghost unsorted = counts.deep_view();
    sort_counts(&mut counts, order);
    proof {
        lemma_tally_rearranged(unsorted, counts.deep_view(), table@);
        lemma_tally_total(counts.deep_view(), table@);
        if *order != SortingOrder::Unsorted {
            lemma_ranked_tally_is_strict(counts.deep_view(), table@, *order);
        }
    }
    counts
}

/// Under `Key` and under `Count`, a tally that is ranked is strictly ranked:
/// no two of its entries tie, because no two have the same line.
pub proof fn lemma_ranked_tally_is_strict(
    entries: Seq<(Seq<char>, u64)>,
    lines: Multiset<Seq<char>>,
    order: SortingOrder,
)
    requires
        is_tally_of(entries, lines),
        is_ranked(entries, order),
        order != SortingOrder::Unsorted,
    ensures
        is_strictly_ranked(entries, order),
        order == SortingOrder::Key ==> is_ascending_by_line(entries),
        order == SortingOrder::Count ==> is_descending_by_count(entries),
{
    assert forall|i: int, j: int| 0 <= i < j < entries.len() implies precedes(
        order,
        #[trigger] entries[i],
        #[trigger] entries[j],
    ) by {
        lemma_precedes_connected(order, entries[i], entries[j]);
    }
}

/// Under `Key` and under `Count` the ranking is determined by the lines
/// that were counted: two ranked tallies of the same lines are equal, entry
/// for entry.
pub proof fn lemma_ranking_unique(
    first: Seq<(Seq<char>, u64)>,
    second: Seq<(Seq<char>, u64)>,
    lines: Multiset<Seq<char>>,
    order: SortingOrder,
)
    requires
        order != SortingOrder::Unsorted,
        is_tally_of(first, lines),
        is_ranked(first, order),
        is_tally_of(second, lines),
        is_ranked(second, order),
    ensures
        first == second,
{
    let no_later = |a: (Seq<char>, u64), b: (Seq<char>, u64)| !precedes(order, b, a);
    assert(total_ordering(no_later)) by {
        assert forall|a: (Seq<char>, u64)| #[trigger] no_later(a, a) by {
            lemma_precedes_irreflexive(order, a);
        }
        assert forall|a: (Seq<char>, u64), b: (Seq<char>, u64)| #[trigger]
            no_later(a, b) && #[trigger] no_later(b, a) implies a == b by {
            if a != b {
                lemma_precedes_connected(order, a, b);
            }
        }
        assert forall|a: (Seq<char>, u64), b: (Seq<char>, u64), c: (Seq<char>, u64)| #[trigger]
            no_later(a, b) && #[trigger] no_later(b, c) implies no_later(a, c) by {
            if precedes(order, c, a) {
                if a == b {
                } else {
                    lemma_precedes_connected(order, a, b);
                    lemma_precedes_transitive(order, c, a, b);
                }
            }
        }
        assert forall|a: (Seq<char>, u64), b: (Seq<char>, u64)| #[trigger]
            no_later(a, b) || #[trigger] no_later(b, a) by {
            if precedes(order, b, a) {
                lemma_precedes_asymmetric(order, b, a);
            }
        }
    }
    lemma_tallies_agree(first, second, lines);
    lemma_sorted_unique(first, second, no_later);
}

} // verus!
