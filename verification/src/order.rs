//! The ordering policies by which counted lines can be ranked.

use std::cmp::Ordering;
use vstd::prelude::*;

verus! {

/// How the counted lines are arranged before they are reported.
#[derive(Debug, Clone, Copy, PartialEq, Eq, Structural)]
pub enum SortingOrder {
    /// By line, ascending; equal lines by count, descending.
    Key,
    /// By count, descending; equal counts by line, ascending.
    Count,
    /// As the frequency table hands the lines out; written `None` on the
    /// command line.
    Unsorted,
}

/// A character with an ASCII capital letter turned into its small letter;
/// every other character as it is.
pub open spec fn ascii_lower(c: char) -> char {
    if 'A' as int <= c as int && c as int <= 'Z' as int {
        (c as int + 32) as char
    } else {
        c
    }
}

/// A text with its ASCII capital letters turned into small letters.
pub open spec fn lowered(text: Seq<char>) -> Seq<char> {
    Seq::new(text.len(), |i: int| ascii_lower(text[i]))
}

/// The order that `text` names, where it names one: `key`, `count` or
/// `none`, in small or capital ASCII letters.
pub open spec fn named_order(text: Seq<char>) -> Option<SortingOrder> {
    if lowered(text) == seq!['k', 'e', 'y'] {
        Some(SortingOrder::Key)
    } else if lowered(text) == seq!['c', 'o', 'u', 'n', 't'] {
        Some(SortingOrder::Count)
    } else if lowered(text) == seq!['n', 'o', 'n', 'e'] {
        Some(SortingOrder::Unsorted)
    } else {
        None
    }
}

/// The name under which `order` is written on the command line.
pub open spec fn order_name(order: SortingOrder) -> Seq<char> {
    match order {
        SortingOrder::Key => seq!['K', 'e', 'y'],
        SortingOrder::Count => seq!['C', 'o', 'u', 'n', 't'],
        SortingOrder::Unsorted => seq!['N', 'o', 'n', 'e'],
    }
}

/// Every order is the one that its name names.
pub proof fn lemma_name_is_read_back(order: SortingOrder)
    ensures
        named_order(order_name(order)) == Some(order),
{
    assert(lowered(order_name(SortingOrder::Key)) =~= seq!['k', 'e', 'y']);
    assert(lowered(order_name(SortingOrder::Count)) =~= seq!['c', 'o', 'u', 'n', 't']);
    assert(lowered(order_name(SortingOrder::Unsorted)) =~= seq!['n', 'o', 'n', 'e']);
}

/// The standard library's `str::eq_ignore_ascii_case`, documented to tell
/// whether two strings are the same once the ASCII letters of both are
/// turned into small letters.
#[verifier::external_body]
fn same_ignoring_case(a: &str, b: &str) -> (same: bool)
    ensures
        same == (lowered(a@) == lowered(b@)),
{
    a.eq_ignore_ascii_case(b)
}

impl Default for SortingOrder {
    /// The order that is used where none is asked for: by count.
    fn default() -> (order: SortingOrder)
        ensures
            order == SortingOrder::Count,
    {
        SortingOrder::Count
    }
}

impl SortingOrder {
    /// The name of the order, as it is written on the command line.
    pub fn name(&self) -> (name: &'static str)
        ensures
            name@ == order_name(*self),
            named_order(name@) == Some(*self),
    {
        proof {
            reveal_strlit("Key");
            reveal_strlit("Count");
            reveal_strlit("None");
            lemma_name_is_read_back(*self);
        }
        let name = match self {
            SortingOrder::Key => "Key",
            SortingOrder::Count => "Count",
            SortingOrder::Unsorted => "None",
        };
        assert(name@ =~= order_name(*self));
        name
    }

    /// The names of all orders, as they are written on the command line.
    pub fn variants() -> (names: [&'static str; 3])
        ensures
            names[0]@ == order_name(SortingOrder::Key),
            names[1]@ == order_name(SortingOrder::Count),
            names[2]@ == order_name(SortingOrder::Unsorted),
    {
        [SortingOrder::Key.name(), SortingOrder::Count.name(), SortingOrder::Unsorted.name()]
    }

    /// Reads the name of an order, whatever the case of its letters. A text
    /// that names no order is answered with the names that are valid.
    pub fn parse(text: &str) -> (parsed: Result<SortingOrder, String>)
        ensures
            match parsed {
                Ok(order) => named_order(text@) == Some(order),
                Err(message) => named_order(text@) is None && message@
                    == "valid values: Key, Count, None"@,
            },
    {
        proof {
            reveal_strlit("Key");
            reveal_strlit("Count");
            reveal_strlit("None");
            assert("Key"@ =~= order_name(SortingOrder::Key));
            assert("Count"@ =~= order_name(SortingOrder::Count));
            assert("None"@ =~= order_name(SortingOrder::Unsorted));
            lemma_name_is_read_back(SortingOrder::Key);
            lemma_name_is_read_back(SortingOrder::Count);
            lemma_name_is_read_back(SortingOrder::Unsorted);
        }
        if same_ignoring_case(text, "Key") {
            Ok(SortingOrder::Key)
        } else if same_ignoring_case(text, "Count") {
            Ok(SortingOrder::Count)
        } else if same_ignoring_case(text, "None") {
            Ok(SortingOrder::Unsorted)
        } else {
            Err(String::from_str("valid values: Key, Count, None"))
        }
    }
}

/// The code point of a character.
pub open spec fn code_point(c: char) -> int {
    c as int
}

/// Whether line `a` comes strictly before line `b` when lines are compared
/// code point by code point, a proper prefix coming before its extensions.
pub open spec fn line_before(a: Seq<char>, b: Seq<char>) -> bool
    decreases a.len(),
{
    if b.len() == 0 {
        false
    } else if a.len() == 0 {
        true
    } else if a[0] == b[0] {
        line_before(a.drop_first(), b.drop_first())
    } else {
        code_point(a[0]) < code_point(b[0])
    }
}

/// No line comes before itself.
pub proof fn lemma_line_before_irreflexive(a: Seq<char>)
    ensures
        !line_before(a, a),
    decreases a.len(),
{
    if a.len() > 0 {
        lemma_line_before_irreflexive(a.drop_first());
    }
}

/// Of two lines at most one comes before the other.
pub proof fn lemma_line_before_asymmetric(a: Seq<char>, b: Seq<char>)
    requires
        line_before(a, b),
    ensures
        !line_before(b, a),
    decreases a.len(),
{
    if a.len() > 0 && b.len() > 0 && a[0] == b[0] {
        lemma_line_before_asymmetric(a.drop_first(), b.drop_first());
    }
}

/// Of two different lines one comes before the other.
pub proof fn lemma_line_before_connected(a: Seq<char>, b: Seq<char>)
    requires
        a != b,
    ensures
        line_before(a, b) || line_before(b, a),
    decreases a.len(),
{
    if a.len() == 0 || b.len() == 0 {
        if a.len() == 0 && b.len() == 0 {
            assert(a =~= b);
        }
    } else if a[0] == b[0] {
        if a.drop_first() == b.drop_first() {
            assert(a =~= seq![a[0]] + a.drop_first());
            assert(b =~= seq![b[0]] + b.drop_first());
        }
        lemma_line_before_connected(a.drop_first(), b.drop_first());
    }
}

/// A line that comes before a second, which comes before a third, comes
/// before the third.
pub proof fn lemma_line_before_transitive(a: Seq<char>, b: Seq<char>, c: Seq<char>)
    requires
        line_before(a, b),
        line_before(b, c),
    ensures
        line_before(a, c),
    decreases a.len(),
{
    if a.len() > 0 && b.len() > 0 && c.len() > 0 {
        if a[0] == b[0] && b[0] == c[0] {
            lemma_line_before_transitive(a.drop_first(), b.drop_first(), c.drop_first());
        }
    }
}

/// How two lines compare: equal, or the one that comes before the other.
pub open spec fn line_order(a: Seq<char>, b: Seq<char>) -> Ordering {
    if a == b {
        Ordering::Equal
    } else if line_before(a, b) {
        Ordering::Less
    } else {
        Ordering::Greater
    }
}

/// The standard library's `Ord::cmp` on `str`. It is documented to order
/// strings lexicographically by their bytes, which is the order of their
/// code points; the contract states that order over the characters.
#[verifier::external_body]
fn compare_lines(a: &str, b: &str) -> (r: Ordering)
    ensures
        r == line_order(a@, b@),
{
    a.cmp(b)
}

/// Whether entry `a`, a line with its count, is ranked strictly before
/// entry `b` under `order`.
pub open spec fn precedes(order: SortingOrder, a: (Seq<char>, u64), b: (Seq<char>, u64)) -> bool {
    match order {
        SortingOrder::Key => line_before(a.0, b.0) || (a.0 == b.0 && a.1 > b.1),
        SortingOrder::Count => a.1 > b.1 || (a.1 == b.1 && line_before(a.0, b.0)),
        SortingOrder::Unsorted => false,
    }
}

/// No entry is ranked before itself.
pub proof fn lemma_precedes_irreflexive(order: SortingOrder, a: (Seq<char>, u64))
    ensures
        !precedes(order, a, a),
{
    lemma_line_before_irreflexive(a.0);
}

/// Of two entries at most one is ranked before the other.
pub proof fn lemma_precedes_asymmetric(
    order: SortingOrder,
    a: (Seq<char>, u64),
    b: (Seq<char>, u64),
)
    requires
        precedes(order, a, b),
    ensures
        !precedes(order, b, a),
{
    lemma_line_before_irreflexive(a.0);
    if line_before(a.0, b.0) {
        lemma_line_before_asymmetric(a.0, b.0);
    }
}

/// Ranking before is transitive.
pub proof fn lemma_precedes_transitive(
    order: SortingOrder,
    a: (Seq<char>, u64),
    b: (Seq<char>, u64),
    c: (Seq<char>, u64),
)
    requires
        precedes(order, a, b),
        precedes(order, b, c),
    ensures
        precedes(order, a, c),
{
    if line_before(a.0, b.0) && line_before(b.0, c.0) {
        lemma_line_before_transitive(a.0, b.0, c.0);
    }
}

/// Under `Key` and under `Count`, of two different entries one is ranked
/// before the other: neither order leaves a tie.
pub proof fn lemma_precedes_connected(
    order: SortingOrder,
    a: (Seq<char>, u64),
    b: (Seq<char>, u64),
)
    requires
        order != SortingOrder::Unsorted,
        a != b,
    ensures
        precedes(order, a, b) || precedes(order, b, a),
{
    if a.0 != b.0 {
        lemma_line_before_connected(a.0, b.0);
    }
}

/// Compares two entries under `order`: `Less` where `a` is ranked before
/// `b`, `Greater` where `b` is ranked before `a`, `Equal` where neither is.
pub fn compare_entries(
    order: &SortingOrder,
    a: &(&String, &u64),
    b: &(&String, &u64),
) -> (r: Ordering)
    ensures
        (r == Ordering::Less) == precedes(*order, a.deep_view(), b.deep_view()),
        (r == Ordering::Greater) == precedes(*order, b.deep_view(), a.deep_view()),
{
    proof {
        lemma_line_before_irreflexive(a.0@);
        if a.0@ != b.0@ {
            lemma_line_before_connected(a.0@, b.0@);
        }
        if line_before(a.0@, b.0@) {
            lemma_line_before_asymmetric(a.0@, b.0@);
        }
    }
    match order {
        SortingOrder::Key => match compare_lines(a.0.as_str(), b.0.as_str()) {
            Ordering::Less => Ordering::Less,
            Ordering::Greater => Ordering::Greater,
            Ordering::Equal => if *a.1 > *b.1 {
                Ordering::Less
            } else if *a.1 < *b.1 {
                Ordering::Greater
            } else {
                Ordering::Equal
            },
        },
        SortingOrder::Count => if *a.1 > *b.1 {
            Ordering::Less
        } else if *a.1 < *b.1 {
            Ordering::Greater
        } else {
            compare_lines(a.0.as_str(), b.0.as_str())
        },
        SortingOrder::Unsorted => Ordering::Equal,
    }
}

} // verus!
