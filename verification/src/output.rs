//! What is reported: one row of text for each ranked line, up to a limit.

use vstd::prelude::*;

verus! {

/// The character that stands for the decimal digit `d`.
pub open spec fn digit(d: nat) -> char {
    if d == 0 {
        '0'
    } else if d == 1 {
        '1'
    } else if d == 2 {
        '2'
    } else if d == 3 {
        '3'
    } else if d == 4 {
        '4'
    } else if d == 5 {
        '5'
    } else if d == 6 {
        '6'
    } else if d == 7 {
        '7'
    } else if d == 8 {
        '8'
    } else {
        '9'
    }
}

/// The decimal numeral of `n`: its digits from the most significant down,
/// without leading zeros.
pub open spec fn decimal(n: nat) -> Seq<char>
    decreases n,
{
    if n < 10 {
        seq![digit(n)]
    } else {
        decimal(n / 10).push(digit(n % 10))
    }
}

/// The row that reports `line` with its `count`: the line, a tab, the count
/// in decimal, and a newline.
pub open spec fn row_text(line: Seq<char>, count: u64) -> Seq<char> {
    line + seq!['\t'] + decimal(count as nat) + seq!['\n']
}

/// The one-character text of the decimal digit `d`.
fn digit_text(d: u64) -> (text: &'static str)
    requires
        d < 10,
    ensures
        text@ == seq![digit(d as nat)],
{
    proof {
        reveal_strlit("0");
        reveal_strlit("1");
        reveal_strlit("2");
        reveal_strlit("3");
        reveal_strlit("4");
        reveal_strlit("5");
        reveal_strlit("6");
        reveal_strlit("7");
        reveal_strlit("8");
        reveal_strlit("9");
    }
    let text = if d == 0 {
        "0"
    } else if d == 1 {
        "1"
    } else if d == 2 {
        "2"
    } else if d == 3 {
        "3"
    } else if d == 4 {
        "4"
    } else if d == 5 {
        "5"
    } else if d == 6 {
        "6"
    } else if d == 7 {
        "7"
    } else if d == 8 {
        "8"
    } else {
        "9"
    };
    text
}

/// Appends the decimal numeral of `n` to `text`.
fn append_decimal(text: &mut String, n: u64)
    ensures
        final(text)@ == old(text)@ + decimal(n as nat),
    decreases n,
{
    if n >= 10 {
        append_decimal(text, n / 10);
    }
    text.append(digit_text(n % 10));
}

/// Formats the row that reports `line` with its `count`.
pub fn format_row(line: &String, count: u64) -> (row: String)
    ensures
        row@ == row_text(line@, count),
{
    proof {
        reveal_strlit("\t");
        reveal_strlit("\n");
    }
    let mut row = line.clone();
    row.append("\t");
    append_decimal(&mut row, count);
    row.append("\n");
    row
}

/// How many rows are reported of `available` ranked lines: all of them, or
/// the first `top` where a limit is given and is smaller.
pub open spec fn row_limit(available: nat, top: Option<usize>) -> nat {
    match top {
        Some(n) => if n < available {
            n as nat
        } else {
            available
        },
        None => available,
    }
}

/// The rows reported of `ranked` under the limit `top`: one for each of the
/// first `row_limit` entries, in their order.
pub open spec fn report_rows(ranked: Seq<(Seq<char>, u64)>, top: Option<usize>) -> Seq<Seq<char>> {
    Seq::new(row_limit(ranked.len(), top), |i: int| row_text(ranked[i].0, ranked[i].1))
}

/// Computes how many rows are reported of `available` ranked lines.
pub fn limit_rows(available: usize, top: Option<usize>) -> (limit: usize)
    ensures
        limit == row_limit(available as nat, top),
{
    match top {
        Some(n) => if n < available {
            n
        } else {
            available
        },
        None => available,
    }
}

/// What became of the attempt to write one row.
#[derive(Debug, Clone, Copy, PartialEq, Eq, Structural)]
pub enum WriteOutcome {
    /// The row was handed to the output.
    Written,
    /// The write failed because the reader of the output has closed it.
    PipeClosed,
    /// The write failed for another reason.
    Failed,
}

/// Where the writing of the report stands.
#[derive(Debug, Clone, Copy, PartialEq, Eq, Structural)]
pub enum WriterState {
    /// The rows before this index are written; the row at it is written next.
    Writing(usize),
    /// Nothing more is written, and the run counts as a success.
    Finished,
    /// Nothing more is written, and the run counts as a failure.
    Failed,
}

/// The state in which a report of `limit` rows begins.
pub open spec fn initial_state(limit: usize) -> WriterState {
    if limit == 0 {
        WriterState::Finished
    } else {
        WriterState::Writing(0)
    }
}

/// The state that follows `state` once the row it asked for was attempted
/// with `outcome`, and `pipe_closed` tells whether the reader of the output
/// was seen to have closed it. A failed write ends the run as a failure; a
/// closed pipe, reported by the write or seen afterwards, ends it as a
/// success; otherwise the next row follows, until `limit` rows are written.
pub open spec fn next_state(
    state: WriterState,
    limit: usize,
    outcome: WriteOutcome,
    pipe_closed: bool,
) -> WriterState {
    match state {
        WriterState::Writing(row) => match outcome {
            WriteOutcome::Failed => WriterState::Failed,
            WriteOutcome::PipeClosed => WriterState::Finished,
            WriteOutcome::Written => if !pipe_closed && row + 1 < limit {
                WriterState::Writing((row + 1) as usize)
            } else {
                WriterState::Finished
            },
        },
        WriterState::Finished => WriterState::Finished,
        WriterState::Failed => WriterState::Failed,
    }
}

/// The state reached from the start of a report of `limit` rows once the
/// attempts of `events` have been made, one after the other: each event is
/// the outcome of a write and whether the output was then seen closed.
pub open spec fn state_after(limit: usize, events: Seq<(WriteOutcome, bool)>) -> WriterState
    decreases events.len(),
{
    if events.len() == 0 {
        initial_state(limit)
    } else {
        next_state(state_after(limit, events.drop_last()), limit, events.last().0, events.last().1)
    }
}

/// The rows are asked for in order, each once, and never beyond the limit:
/// while the report is still being written, the row asked for next is the
/// one after those already attempted, it lies within the limit, and every
/// attempt so far was written with the output still open.
pub proof fn lemma_rows_in_order(limit: usize, events: Seq<(WriteOutcome, bool)>)
    ensures
        state_after(limit, events) matches WriterState::Writing(row) ==> {
            &&& row == events.len()
            &&& row < limit
            &&& forall|i: int|
                0 <= i < events.len() ==> #[trigger] events[i] == (WriteOutcome::Written, false)
        },
    decreases events.len(),
{
    if events.len() > 0 {
        lemma_rows_in_order(limit, events.drop_last());
        if state_after(limit, events) matches WriterState::Writing(row) {
            assert forall|i: int| 0 <= i < events.len() implies #[trigger] events[i] == (
                WriteOutcome::Written,
                false,
            ) by {
                if i < events.len() - 1 {
                    assert(events.drop_last()[i] == events[i]);
                }
            }
        }
    }
}

/// Begins a report of `limit` rows.
pub fn start(limit: usize) -> (state: WriterState)
    ensures
        state == initial_state(limit),
        state matches WriterState::Writing(row) ==> row < limit,
{
    if limit == 0 {
        WriterState::Finished
    } else {
        WriterState::Writing(0)
    }
}

/// Decides how the report goes on after one attempt to write a row.
pub fn after_write(
    state: WriterState,
    limit: usize,
    outcome: WriteOutcome,
    pipe_closed: bool,
) -> (next: WriterState)
    ensures
        next == next_state(state, limit, outcome, pipe_closed),
        next matches WriterState::Writing(row) ==> row < limit,
{
    match state {
        WriterState::Writing(row) => match outcome {
            WriteOutcome::Failed => WriterState::Failed,
            WriteOutcome::PipeClosed => WriterState::Finished,
            WriteOutcome::Written => if !pipe_closed && row < limit && row + 1 < limit {
                WriterState::Writing(row + 1)
            } else {
                WriterState::Finished
            },
        },
        WriterState::Finished => WriterState::Finished,
        WriterState::Failed => WriterState::Failed,
    }
}

/// The whole report of `ranked` under the limit `top`: the rows that are
/// written when every write succeeds and the output stays open.
pub fn render(ranked: &Vec<(&String, &u64)>, top: Option<usize>) -> (rows: Vec<String>)
    ensures
        rows.deep_view() == report_rows(ranked.deep_view(), top),
        rows.len() == row_limit(ranked.len() as nat, top),
{
    let limit = limit_rows(ranked.len(), top);
    let mut rows: Vec<String> = Vec::new();
    let mut state = start(limit);
    loop
        invariant
            limit == row_limit(ranked.len() as nat, top),
            state == WriterState::Finished ==> rows.len() == limit,
            state != WriterState::Failed,
            state matches WriterState::Writing(row) ==> row == rows.len() && row < limit,
            rows.len() <= limit,
            forall|i: int|
                0 <= i < rows.len() ==> (#[trigger] rows[i])@ == row_text(
                    ranked[i].0@,
                    *ranked[i].1,
                ),
        ensures
            rows.len() == limit,
        decreases limit - rows.len(),
    {
        match state {
            WriterState::Writing(row) => {
                rows.push(format_row(ranked[row].0, *ranked[row].1));
                state = after_write(state, limit, WriteOutcome::Written, false);
            },
            _ => {
                break ;
            },
        }
    }
    proof {
        let expected = report_rows(ranked.deep_view(), top);
        assert forall|i: int| 0 <= i < rows.len() implies rows.deep_view()[i] == expected[i] by {
            assert(ranked.deep_view()[i] == (ranked[i].0@, *ranked[i].1));
        }
        assert(rows.deep_view() =~= expected);
    }
    rows
}

} // verus!
