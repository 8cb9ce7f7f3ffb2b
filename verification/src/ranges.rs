//! Lists of single vendor IDs and ID ranges, and the detection of runs of
//! consecutive positions that builds them.

use crate::bitset::{ascending, has_position};
use vstd::prelude::*;

verus! {

/// One entry of a range list. IDs count from 1.
#[derive(Clone, Copy, Debug, PartialEq, Eq, Structural)]
pub enum Entry {
    /// One vendor ID.
    Single(usize),
    /// Every vendor ID from the first to the second, both included.
    Range(usize, usize),
}

impl Entry {
    /// The lowest ID that the entry names.
    pub open spec fn first(self) -> int {
        match self {
            Entry::Single(id) => id as int,
            Entry::Range(first, _) => first as int,
        }
    }

    /// The highest ID that the entry names.
    pub open spec fn last(self) -> int {
        match self {
            Entry::Single(id) => id as int,
            Entry::Range(_, last) => last as int,
        }
    }

    /// Whether the entry covers `id`.
    pub open spec fn covers(self, id: int) -> bool {
        self.first() <= id <= self.last()
    }

    /// The number of bits that the entry takes on the wire: a type flag and
    /// one or two 16-bit IDs.
    pub open spec fn bit_len(self) -> nat {
        match self {
            Entry::Single(_) => 17,
            Entry::Range(_, _) => 33,
        }
    }

    /// Whether the entry is a single ID, or a range of two IDs or more.
    pub open spec fn is_run(self) -> bool {
        match self {
            Entry::Single(_) => true,
            Entry::Range(first, last) => first < last,
        }
    }
}

/// Whether some entry of the list covers `id`.
pub open spec fn covered(entries: Seq<Entry>, id: int) -> bool {
    exists|k: int| 0 <= k < entries.len() && #[trigger] entries[k].covers(id)
}

/// The number of bits that the entries take on the wire.
pub open spec fn entries_bit_len(entries: Seq<Entry>) -> nat
    decreases entries.len(),
{
    if entries.len() == 0 {
        0
    } else {
        entries_bit_len(entries.drop_last()) + entries.last().bit_len()
    }
}

/// The number of bits of a range payload: the default flag, the 12-bit
/// count and the entries.
pub open spec fn range_bit_len(entries: Seq<Entry>) -> nat {
    13 + entries_bit_len(entries)
}

/// The entry for the run of IDs from `first` to `last`.
pub open spec fn run_entry(first: int, last: int) -> Entry {
    if first == last {
        Entry::Single(first as usize)
    } else {
        Entry::Range(first as usize, last as usize)
    }
}

/// The runs of consecutive positions in an ascending list, each as the
/// entry of its IDs; the ID of a position is the position plus one. A
/// position that follows its predecessor directly extends the last run, any
/// other starts a new one.
pub open spec fn runs(positions: Seq<usize>) -> Seq<Entry>
    decreases positions.len(),
{
    if positions.len() == 0 {
        Seq::empty()
    } else {
        let before = positions.drop_last();
        let id = positions.last() + 1;
        if before.len() > 0 && before.last() + 1 == positions.last() {
            runs(before).drop_last().push(run_entry(runs(before).last().first(), id))
        } else {
            runs(before).push(run_entry(id, id))
        }
    }
}

/// What holds of the runs of an ascending list: there is one for a list
/// that is not empty, the last one ends at the ID of the last position and
/// none ends above it, each is a single ID or a range of two or more, each
/// starts at least two above the end of the one before, and together they
/// cover the IDs of the positions and no others.
pub proof fn lemma_runs(positions: Seq<usize>)
    requires
        ascending(positions),
        forall|i: int| 0 <= i < positions.len() ==> positions[i] < usize::MAX,
    ensures
        runs(positions).len() <= positions.len(),
        positions.len() > 0 ==> runs(positions).len() > 0 && runs(positions).last().last()
            == positions.last() + 1,
        forall|k: int|
            0 <= k < runs(positions).len() ==> (#[trigger] runs(positions)[k]).is_run() && 1
                <= runs(positions)[k].first(),
        forall|k: int|
            0 < k < runs(positions).len() ==> runs(positions)[k - 1].last() + 1 < (
            #[trigger] runs(positions)[k]).first(),
        forall|k: int|
            0 <= k < runs(positions).len() ==> (#[trigger] runs(positions)[k]).last()
                <= positions.last() + 1,
        forall|id: int| covered(runs(positions), id) <==> has_position(positions, id - 1),
    decreases positions.len(),
{
    if positions.len() > 0 {
        let before = positions.drop_last();
        let id = positions.last() + 1;
        lemma_runs(before);
        let old_runs = runs(before);
        let new_runs = runs(positions);
        if before.len() > 0 && before.last() + 1 == positions.last() {
            let kept = old_runs.drop_last();
            let grown = run_entry(old_runs.last().first(), id);
            assert(new_runs == kept.push(grown));
            assert(old_runs.last().first() <= old_runs.last().last());
            assert forall|i: int| covered(new_runs, i) <==> has_position(positions, i - 1) by {
                if covered(new_runs, i) {
                    let k = choose|k: int| 0 <= k < new_runs.len() && new_runs[k].covers(i);
                    if k < kept.len() {
                        assert(old_runs[k].covers(i));
                        assert(covered(old_runs, i));
                        let j = choose|j: int| 0 <= j < before.len() && before[j] == i - 1;
                        assert(positions[j] == i - 1);
                    } else if i == id {
                        assert(positions[positions.len() - 1] == i - 1);
                    } else {
                        assert(old_runs[old_runs.len() - 1].covers(i));
                        assert(covered(old_runs, i));
                        let j = choose|j: int| 0 <= j < before.len() && before[j] == i - 1;
                        assert(positions[j] == i - 1);
                    }
                }
                if has_position(positions, i - 1) {
                    let j = choose|j: int| 0 <= j < positions.len() && positions[j] == i - 1;
                    if j == positions.len() - 1 {
                        assert(new_runs[new_runs.len() - 1].covers(i));
                    } else {
                        assert(before[j] == i - 1);
                        assert(has_position(before, i - 1));
                        assert(covered(old_runs, i));
                        let k = choose|k: int| 0 <= k < old_runs.len() && old_runs[k].covers(i);
                        if k < kept.len() {
                            assert(new_runs[k].covers(i));
                        } else {
                            assert(new_runs[new_runs.len() - 1].covers(i));
                        }
                    }
                }
            }
        } else {
            let added = run_entry(id, id);
            assert(new_runs == old_runs.push(added));
            assert forall|k: int| 0 < k < new_runs.len() implies new_runs[k - 1].last() + 1 < (
            #[trigger] new_runs[k]).first() by {
                if k == new_runs.len() - 1 {
                    assert(before.len() > 0);
                    assert(before.last() == positions[positions.len() - 2]);
                    assert(positions[positions.len() - 2] < positions[positions.len() - 1]);
                }
            }
            assert forall|i: int| covered(new_runs, i) <==> has_position(positions, i - 1) by {
                if covered(new_runs, i) {
                    let k = choose|k: int| 0 <= k < new_runs.len() && new_runs[k].covers(i);
                    if k < old_runs.len() {
                        assert(old_runs[k].covers(i));
                        assert(covered(old_runs, i));
                        let j = choose|j: int| 0 <= j < before.len() && before[j] == i - 1;
                        assert(positions[j] == i - 1);
                    } else {
                        assert(positions[positions.len() - 1] == i - 1);
                    }
                }
                if has_position(positions, i - 1) {
                    let j = choose|j: int| 0 <= j < positions.len() && positions[j] == i - 1;
                    if j == positions.len() - 1 {
                        assert(new_runs[new_runs.len() - 1].covers(i));
                    } else {
                        assert(before[j] == i - 1);
                        assert(has_position(before, i - 1));
                        assert(covered(old_runs, i));
                        let k = choose|k: int| 0 <= k < old_runs.len() && old_runs[k].covers(i);
                        assert(new_runs[k].covers(i));
                    }
                }
            }
        }
    }
}

/// In a list of entries of which each starts at least two above the end of
/// the one before, every entry starts at least two above the end of every
/// earlier one.
proof fn lemma_apart(entries: Seq<Entry>, j: int, k: int)
    requires
        forall|i: int| 0 <= i < entries.len() ==> (#[trigger] entries[i]).is_run(),
        forall|i: int|
            0 < i < entries.len() ==> entries[i - 1].last() + 1 < (#[trigger] entries[i]).first(),
        0 <= j < k < entries.len(),
    ensures
        entries[j].last() + 1 < entries[k].first(),
    decreases k - j,
{
    if j + 1 < k {
        lemma_apart(entries, j, k - 1);
        assert(entries[k - 1].is_run());
        assert(entries[k - 1].last() + 1 < entries[k].first());
    } else {
        assert(entries[k - 1].last() + 1 < entries[k].first());
    }
}

/// No list of entries that covers the IDs of the positions of an ascending
/// list, and no others, has fewer entries than the runs of the list.
pub proof fn lemma_runs_are_fewest(positions: Seq<usize>, other: Seq<Entry>)
    requires
        ascending(positions),
        forall|i: int| 0 <= i < positions.len() ==> positions[i] < usize::MAX,
        forall|id: int| covered(other, id) <==> has_position(positions, id - 1),
    ensures
        runs(positions).len() <= other.len(),
{
    lemma_runs(positions);
    let found = runs(positions);
    let starts = Seq::new(found.len(), |k: int| found[k].first());
    let other_starts = Seq::new(other.len(), |k: int| other[k].first());
    assert forall|j: int, k: int| 0 <= j < starts.len() && 0 <= k < starts.len() && j
        != k implies starts[j] != starts[k] by {
        assert(found[j].is_run() && found[k].is_run());
        if j < k {
            lemma_apart(found, j, k);
        } else {
            lemma_apart(found, k, j);
        }
    }
    starts.unique_seq_to_set();
    other_starts.lemma_cardinality_of_set();
    vstd::seq_lib::seq_to_set_is_finite(other_starts);
    assert forall|start: int| starts.to_set().contains(start) implies other_starts.to_set().contains(
        start,
    ) by {
        let k = choose|k: int| 0 <= k < starts.len() && starts[k] == start;
        assert(found[k].is_run());
        assert(found[k].covers(start));
        assert(covered(found, start));
        // The ID below the start of a run is in no run.
        if covered(found, start - 1) {
            let j = choose|j: int| 0 <= j < found.len() && found[j].covers(start - 1);
            assert(found[j].is_run());
            if j < k {
                lemma_apart(found, j, k);
            } else if j > k {
                lemma_apart(found, k, j);
            }
        }
        assert(has_position(positions, start - 1));
        assert(!has_position(positions, start - 1 - 1));
        assert(covered(other, start));
        assert(!covered(other, start - 1));
        let e = choose|e: int| 0 <= e < other.len() && other[e].covers(start);
        assert(!other[e].covers(start - 1));
        assert(other_starts[e] == start);
    }
    vstd::set_lib::lemma_len_subset(starts.to_set(), other_starts.to_set());
}

/// Every entry takes 17 bits at least and 33 at most.
pub proof fn lemma_entries_bit_len(entries: Seq<Entry>)
    ensures
        17 * entries.len() <= entries_bit_len(entries) <= 33 * entries.len(),
    decreases entries.len(),
{
    if entries.len() > 0 {
        lemma_entries_bit_len(entries.drop_last());
    }
}

/// The entries of a list whose last run is still open: the closed ones,
/// then the entry of the open run, if there is one.
spec fn with_open_run(closed: Seq<Entry>, open: Option<(usize, usize)>) -> Seq<Entry> {
    match open {
        Some((first, last)) => closed.push(run_entry(first + 1, last + 1)),
        None => closed,
    }
}

/// Finds the runs of consecutive positions in an ascending list and returns
/// them as entries, together with the number of bits that the list takes as
/// a range payload.
pub fn detect_runs(positions: &Vec<usize>) -> (result: (Vec<Entry>, usize))
    requires
        ascending(positions@),
        forall|i: int| 0 <= i < positions@.len() ==> positions@[i] < usize::MAX,
        13 + 33 * positions@.len() <= usize::MAX,
    ensures
        result.0@ == runs(positions@),
        result.1 == range_bit_len(result.0@),
{
    let mut range: Vec<Entry> = Vec::new();
    let mut count: usize = 13;
    let mut open: Option<(usize, usize)> = None;
    let mut done: usize = 0;
    assert(positions@.take(0) =~= Seq::<usize>::empty());
    while done < positions.len()
        invariant
            done <= positions@.len(),
            ascending(positions@),
            forall|i: int| 0 <= i < positions@.len() ==> positions@[i] < usize::MAX,
            13 + 33 * positions@.len() <= usize::MAX,
            with_open_run(range@, open) == runs(positions@.take(done as int)),
            open is None <==> done == 0,
            open matches Some((first, last)) ==> first <= last && last == positions@[done - 1],
            range@.len() + (if open is Some {
                1int
            } else {
                0int
            }) <= done,
            count == range_bit_len(range@),
            count <= 13 + 33 * range@.len(),
        decreases positions@.len() - done,
    {
        let position = positions[done];
        let ghost seen = positions@.take(done as int);
        let ghost grown = positions@.take(done + 1);
        assert(grown.drop_last() =~= seen);
        assert(grown.last() == position);
        match open {
            None => {
                open = Some((position, position));
            },
            Some((first, last)) => {
                assert(seen.last() == last);
                assert(positions@[done - 1] < positions@[done as int]);
                if position == last + 1 {
                    open = Some((first, position));
                    assert(runs(seen).drop_last() =~= range@);
                } else {
                    let entry = if first == last {
                        Entry::Single(first + 1)
                    } else {
                        Entry::Range(first + 1, last + 1)
                    };
                    assert(entry == run_entry(first + 1, last + 1));
                    assert(range@.push(entry).drop_last() =~= range@);
                    range.push(entry);
                    count = count + if first == last {
                        17
                    } else {
                        33
                    };
                    open = Some((position, position));
                }
            },
        }
        done = done + 1;
    }
    assert(positions@.take(done as int) =~= positions@);
    match open {
        None => {},
        Some((first, last)) => {
            let entry = if first == last {
                Entry::Single(first + 1)
            } else {
                Entry::Range(first + 1, last + 1)
            };
            assert(range@.push(entry).drop_last() =~= range@);
            range.push(entry);
            count = count + if first == last {
                17
            } else {
                33
            };
        },
    }
    (range, count)
}

} // verus!
