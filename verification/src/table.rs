//! The frequency table: how often each distinct line was seen.

use hashbrown::HashMap;
use vstd::multiset::Multiset;
use vstd::prelude::*;

verus! {

/// hashbrown's `HashMap`, of which nothing is known here but what the
/// functions below state of a map from lines to counters.
#[verifier::external_type_specification]
#[verifier::external_body]
#[verifier::reject_recursive_types(K)]
#[verifier::reject_recursive_types(V)]
#[verifier::reject_recursive_types(S)]
pub struct ExHashMap<K, V, S>(hashbrown::HashMap<K, V, S>);

/// hashbrown's `DefaultHashBuilder`, the hasher of its maps; only carried
/// along as a part of the map's type.
#[verifier::external_type_specification]
#[verifier::external_body]
pub struct ExDefaultHashBuilder(hashbrown::hash_map::DefaultHashBuilder);

/// What a hash map of counters holds: the count stored under each line.
pub uninterp spec fn counters(map: HashMap<String, u64>) -> Map<Seq<char>, u64>;

/// Whether `entries` lists what `stored` holds: every entry is a pair of
/// `stored`, no line is listed twice, and no line of `stored` is missing.
spec fn lists_each_once(
    entries: Seq<(Seq<char>, u64)>,
    stored: Map<Seq<char>, u64>,
) -> bool {
    &&& forall|i: int|
        0 <= i < entries.len() ==> stored.contains_pair(
            (#[trigger] entries[i]).0,
            entries[i].1,
        )
    &&& forall|i: int, j: int|
        0 <= i < j < entries.len() ==> (#[trigger] entries[i]).0 != (#[trigger] entries[j]).0
    &&& forall|line: Seq<char>| #[trigger]
        stored.contains_key(line) ==> exists|i: int|
            0 <= i < entries.len() && (#[trigger] entries[i]).0 == line
}

/// hashbrown's `HashMap::default`: a map that holds nothing.
#[verifier::external_body]
fn empty_counters() -> (fresh: HashMap<String, u64>)
    ensures
        counters(fresh) == (Map::<Seq<char>, u64>::empty()),
{
    Default::default()
}

/// hashbrown's `HashMap::entry` with `Entry::or_insert` on what it returns:
/// the counter stored under `line`, which is first stored as `initial` where
/// the map had none. Nothing else in the map changes, and what the caller
/// leaves in the counter is what the map then holds under `line`.
#[verifier::external_body]
fn counter_slot(map: &mut HashMap<String, u64>, line: String, initial: u64) -> (slot: &mut u64)
    ensures
        *slot == (if counters(*old(map)).contains_key(line@) {
            counters(*old(map))[line@]
        } else {
            initial
        }),
        counters(*final(map)) == counters(*old(map)).insert(line@, *final(slot)),
{
    map.entry(line).or_insert(initial)
}

/// hashbrown's `HashMap::iter`, collected into a vector: the pairs that the
/// map holds, each once, in whatever order the map hands them out.
#[verifier::external_body]
fn counter_pairs(map: &HashMap<String, u64>) -> (pairs: Vec<(&String, &u64)>)
    ensures
        lists_each_once(pairs.deep_view(), counters(*map)),
{
    map.iter().collect()
}

/// The lines that a map of counters stands for, each as often as its
/// counter says.
spec fn counted_lines(stored: Map<Seq<char>, u64>) -> Multiset<Seq<char>> {
    Multiset::from_map(
        Map::new(|line: Seq<char>| stored.contains_key(line), |line: Seq<char>| stored[line] as nat),
    )
}

/// A finite map of counters stands for each of its lines as often as the
/// line's counter says, and for no other line.
proof fn lemma_counted_lines_count(stored: Map<Seq<char>, u64>, line: Seq<char>)
    requires
        stored.dom().finite(),
    ensures
        counted_lines(stored).count(line) == (if stored.contains_key(line) {
            stored[line] as nat
        } else {
            0
        }),
{
    broadcast use vstd::multiset::group_multiset_axioms;

    let weights = Map::new(
        |line: Seq<char>| stored.contains_key(line),
        |line: Seq<char>| stored[line] as nat,
    );
    assert(weights.dom() =~= stored.dom());
}

/// Whether `entries` is a tally of `lines`: every entry gives a line of
/// `lines` with the number of times it occurs there, no line has two
/// entries, and every line of `lines` has one.
pub open spec fn is_tally_of(entries: Seq<(Seq<char>, u64)>, lines: Multiset<Seq<char>>) -> bool {
    &&& forall|i: int|
        0 <= i < entries.len() ==> (#[trigger] entries[i]).1 > 0 && entries[i].1 == lines.count(
            entries[i].0,
        )
    &&& forall|i: int, j: int|
        0 <= i < j < entries.len() ==> (#[trigger] entries[i]).0 != (#[trigger] entries[j]).0
    &&& forall|line: Seq<char>| #[trigger]
        lines.count(line) > 0 ==> exists|i: int|
            0 <= i < entries.len() && (#[trigger] entries[i]).0 == line
}

/// The sum of the counts of `entries`.
pub open spec fn total_count(entries: Seq<(Seq<char>, u64)>) -> nat
    decreases entries.len(),
{
    if entries.len() == 0 {
        0
    } else {
        entries[0].1 as nat + total_count(entries.drop_first())
    }
}

/// The counts of a tally add up to the number of lines that were counted.
pub proof fn lemma_tally_total(entries: Seq<(Seq<char>, u64)>, lines: Multiset<Seq<char>>)
    requires
        is_tally_of(entries, lines),
    ensures
        total_count(entries) == lines.len(),
    decreases lines.len(),
{
    broadcast use vstd::multiset::group_multiset_axioms;

    if entries.len() == 0 {
        vstd::multiset::lemma_multiset_empty_len(lines);
    } else {
        let line = entries[0].0;
        let count = entries[0].1;
        let fewer = lines.remove(line);
        let rest = if count == 1 {
            entries.drop_first()
        } else {
            entries.update(0, (line, (count - 1) as u64))
        };
        assert(fewer.len() == lines.len() - 1);
        assert forall|i: int| 0 <= i < rest.len() implies (#[trigger] rest[i]).1 > 0 && rest[i].1
            == fewer.count(rest[i].0) by {
            if count == 1 {
                assert(rest[i] == entries[i + 1]);
            } else if i > 0 {
                assert(rest[i] == entries[i]);
            }
        }
        assert forall|i: int, j: int| 0 <= i < j < rest.len() implies (#[trigger] rest[i]).0
            != (#[trigger] rest[j]).0 by {
            if count == 1 {
                assert(rest[i] == entries[i + 1]);
                assert(rest[j] == entries[j + 1]);
            } else {
                assert(rest[i].0 == entries[i].0);
                assert(rest[j].0 == entries[j].0);
            }
        }
        assert forall|other: Seq<char>| #[trigger] fewer.count(other) > 0 implies exists|i: int|
            0 <= i < rest.len() && (#[trigger] rest[i]).0 == other by {
            assert(lines.count(other) > 0);
            let i = choose|i: int| 0 <= i < entries.len() && (#[trigger] entries[i]).0 == other;
            if count == 1 {
                assert(rest[i - 1] == entries[i]);
            } else {
                assert(rest[i].0 == entries[i].0);
            }
        }
        lemma_tally_total(rest, fewer);
        if count != 1 {
            assert(rest.drop_first() =~= entries.drop_first());
        }
    }
}

/// A tally has one entry for each distinct line that was counted.
pub proof fn lemma_tally_len(entries: Seq<(Seq<char>, u64)>, lines: Multiset<Seq<char>>)
    requires
        is_tally_of(entries, lines),
    ensures
        entries.len() == lines.dom().len(),
{
    let listed = Seq::new(entries.len(), |i: int| entries[i].0);
    assert(listed.no_duplicates()) by {
        assert forall|i: int, j: int|
            0 <= i < listed.len() && 0 <= j < listed.len() && i != j implies listed[i]
            != listed[j] by {
            if i < j {
                assert(entries[i].0 != entries[j].0);
            } else {
                assert(entries[j].0 != entries[i].0);
            }
        }
    }
    listed.unique_seq_to_set();
    assert forall|line: Seq<char>|
        listed.to_set().contains(line) == lines.dom().contains(line) by {
        if listed.contains(line) {
            let i = choose|i: int| 0 <= i < listed.len() && listed[i] == line;
            assert(entries[i].1 > 0);
        }
        if lines.count(line) > 0 {
            let i = choose|i: int| 0 <= i < entries.len() && (#[trigger] entries[i]).0 == line;
            assert(listed[i] == line);
        }
    }
    assert(listed.to_set() =~= lines.dom());
}

/// A tally holds exactly the pairs of a line that was counted and the
/// number of times it occurs, each pair once.
pub proof fn lemma_tally_holds(
    entries: Seq<(Seq<char>, u64)>,
    lines: Multiset<Seq<char>>,
    entry: (Seq<char>, u64),
)
    requires
        is_tally_of(entries, lines),
    ensures
        entries.to_multiset().count(entry) == (if entry.1 > 0 && lines.count(entry.0) == entry.1 {
            1nat
        } else {
            0nat
        }),
{
    entries.to_multiset_ensures();
    assert(entries.no_duplicates()) by {
        assert forall|i: int, j: int|
            0 <= i < entries.len() && 0 <= j < entries.len() && i != j implies entries[i]
            != entries[j] by {
            if i < j {
                assert(entries[i].0 != entries[j].0);
            } else {
                assert(entries[j].0 != entries[i].0);
            }
        }
    }
    entries.lemma_multiset_has_no_duplicates();
    if entry.1 > 0 && lines.count(entry.0) == entry.1 {
        let i = choose|i: int| 0 <= i < entries.len() && (#[trigger] entries[i]).0 == entry.0;
        assert(entries[i] == entry);
    } else if entries.contains(entry) {
        let i = choose|i: int| 0 <= i < entries.len() && entries[i] == entry;
        assert(entries[i].1 > 0);
    }
}

/// Two tallies of the same lines hold the same entries.
pub proof fn lemma_tallies_agree(
    first: Seq<(Seq<char>, u64)>,
    second: Seq<(Seq<char>, u64)>,
    lines: Multiset<Seq<char>>,
)
    requires
        is_tally_of(first, lines),
        is_tally_of(second, lines),
    ensures
        first.to_multiset() == second.to_multiset(),
{
    assert forall|entry: (Seq<char>, u64)|
        first.to_multiset().count(entry) == second.to_multiset().count(entry) by {
        lemma_tally_holds(first, lines, entry);
        lemma_tally_holds(second, lines, entry);
    }
}

/// A tally stays one however its entries are rearranged.
pub proof fn lemma_tally_rearranged(
    entries: Seq<(Seq<char>, u64)>,
    rearranged: Seq<(Seq<char>, u64)>,
    lines: Multiset<Seq<char>>,
)
    requires
        is_tally_of(entries, lines),
        rearranged.to_multiset() == entries.to_multiset(),
    ensures
        is_tally_of(rearranged, lines),
{
    entries.to_multiset_ensures();
    rearranged.to_multiset_ensures();
    assert forall|i: int| 0 <= i < rearranged.len() implies (#[trigger] rearranged[i]).1 > 0
        && rearranged[i].1 == lines.count(rearranged[i].0) by {
        assert(entries.to_multiset().count(rearranged[i]) > 0);
        let j = choose|j: int| 0 <= j < entries.len() && entries[j] == rearranged[i];
        assert(entries[j].1 > 0);
    }
    assert forall|entry: (Seq<char>, u64)|
        rearranged.to_multiset().contains(entry) implies rearranged.to_multiset().count(entry)
        == 1 by {
        lemma_tally_holds(entries, lines, entry);
    }
    rearranged.lemma_multiset_has_no_duplicates_conv();
    assert forall|i: int, j: int| 0 <= i < j < rearranged.len() implies (
        #[trigger] rearranged[i]
    ).0 != (#[trigger] rearranged[j]).0 by {
        assert(rearranged[i] != rearranged[j]);
    }
    assert forall|line: Seq<char>| #[trigger] lines.count(line) > 0 implies exists|i: int|
        0 <= i < rearranged.len() && (#[trigger] rearranged[i]).0 == line by {
        let j = choose|j: int| 0 <= j < entries.len() && (#[trigger] entries[j]).0 == line;
        assert(rearranged.to_multiset().count(entries[j]) > 0);
        let i = choose|i: int| 0 <= i < rearranged.len() && rearranged[i] == entries[j];
        assert(rearranged[i].0 == line);
    }
}

/// A table from each distinct line to the number of times it was recorded.
pub struct FrequencyTable {
    counts: HashMap<String, u64>,
    total: u64,
}

impl View for FrequencyTable {
    type V = Multiset<Seq<char>>;

    /// The lines recorded so far, each as often as it was recorded.
    closed spec fn view(&self) -> Multiset<Seq<char>> {
        counted_lines(counters(self.counts))
    }
}

impl FrequencyTable {
    /// The table's invariant: it stores finitely many lines, none with a
    /// count of zero, and knows how many lines were recorded in all.
    pub closed spec fn wf(&self) -> bool {
        let stored = counters(self.counts);
        &&& stored.dom().finite()
        &&& forall|line: Seq<char>| #[trigger] stored.contains_key(line) ==> stored[line] > 0
        &&& self.total == counted_lines(stored).len()
    }

    /// A table in which nothing is recorded.
    pub fn new() -> (table: FrequencyTable)
        ensures
            table.wf(),
            table@ == Multiset::<Seq<char>>::empty(),
    {
        let table = FrequencyTable { counts: empty_counters(), total: 0 };
        proof {
            broadcast use vstd::multiset::group_multiset_axioms;

            let stored = counters(table.counts);
            assert forall|line: Seq<char>| table@.count(line) == 0 by {
                lemma_counted_lines_count(stored, line);
            }
            assert(table@ =~= Multiset::<Seq<char>>::empty());
        }
        table
    }

    /// The number of lines recorded, repetitions included.
    pub fn total(&self) -> (n: u64)
        requires
            self.wf(),
        ensures
            n == self@.len(),
    {
        self.total
    }

    /// Records one more occurrence of `line`.
    pub fn record(&mut self, line: String)
        requires
            old(self).wf(),
            old(self)@.len() < u64::MAX,
        ensures
            final(self).wf(),
            final(self)@ == old(self)@.insert(line@),
    {
        broadcast use vstd::multiset::group_multiset_axioms;

        let ghost before = counters(self.counts);
        let ghost key = line@;
        proof {
            lemma_counted_lines_count(before, key);
        }
        let slot = counter_slot(&mut self.counts, line, 0);
        *slot = *slot + 1;
        self.total = self.total + 1;
        proof {
            let after = counters(self.counts);
            assert forall|other: Seq<char>|
                counted_lines(after).count(other) == counted_lines(before).insert(key).count(
                    other,
                ) by {
                lemma_counted_lines_count(before, other);
                lemma_counted_lines_count(after, other);
            }
            assert(counted_lines(after) =~= counted_lines(before).insert(key));
        }
    }

    /// The distinct lines, each with its count, in whatever order the table
    /// hands them out.
    pub fn entries(&self) -> (entries: Vec<(&String, &u64)>)
        requires
            self.wf(),
        ensures
            is_tally_of(entries.deep_view(), self@),
            total_count(entries.deep_view()) == self@.len(),
    {
        let entries = counter_pairs(&self.counts);
        proof {
            let stored = counters(self.counts);
            assert forall|line: Seq<char>|
                self@.count(line) == (if stored.contains_key(line) {
                    stored[line] as nat
                } else {
                    0
                }) by {
                lemma_counted_lines_count(stored, line);
            }
            lemma_tally_total(entries.deep_view(), self@);
        }
        entries
    }
}

/// Counts the lines of `lines`: the table in which each of them is
/// recorded once for every time it occurs.
pub fn tally(lines: &Vec<String>) -> (table: FrequencyTable)
    ensures
        table.wf(),
        table@ == lines.deep_view().to_multiset(),
        table@.len() == lines.len(),
{
    let mut table = FrequencyTable::new();
    let mut i: usize = 0;
    proof {
        let nothing = lines.deep_view().take(0);
        nothing.to_multiset_ensures();
        vstd::multiset::lemma_multiset_empty_len(nothing.to_multiset());
    }
    while i < lines.len()
        invariant
            i <= lines.len(),
            table.wf(),
            table@ == lines.deep_view().take(i as int).to_multiset(),
        decreases lines.len() - i,
    {
        let ghost seen = lines.deep_view().take(i as int);
        proof {
            seen.to_multiset_ensures();
        }
        table.record(lines[i].clone());
        proof {
            assert(lines.deep_view().take(i + 1) =~= seen.push(lines[i as int]@));
        }
        i = i + 1;
    }
    proof {
        assert(lines.deep_view().take(i as int) =~= lines.deep_view());
        lines.deep_view().to_multiset_ensures();
    }
    table
}

} // verus!
