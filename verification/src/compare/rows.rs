use vstd::prelude::*;

use crate::compare::cells::{CellMetrics, CellText, cell_texts};
use crate::compare::guards::{
    CellDelta, DeltaText, apply_guards, cell_kind, delta_texts, kind_of,
    lemma_guards_fail_what_is_broken,
};
use crate::float::double::Double;
use crate::float::numbers::ZERO;
use crate::table::{
    Table, holds_at, in_key_order, keys_of, lemma_entries_in_key_order, lemma_entry, ordered,
};
use crate::text::{before, texts};

verus! {

/// How a cell differs from the baseline, before anything is made of that.
pub open spec fn plain_row(cell: Seq<char>, baseline: CellText, candidate: CellText) -> DeltaText {
    DeltaText {
        cell,
        kind: kind_of(baseline.scenario),
        delta: candidate.metrics.minus(baseline.metrics),
        score: Double::from_bits(ZERO),
        beat_score: Double::from_bits(ZERO),
        warns: Seq::empty(),
        fails: Seq::empty(),
    }
}

/// A row for each of some cells of the baseline that the candidate has too.
pub open spec fn rows_of(
    keys: Seq<Seq<char>>,
    baseline: Map<Seq<char>, CellText>,
    candidate: Map<Seq<char>, CellText>,
) -> Seq<DeltaText>
    decreases keys.len(),
{
    if keys.len() == 0 {
        Seq::empty()
    } else {
        let rows = rows_of(keys.drop_last(), baseline, candidate);
        let cell = keys.last();
        if candidate.contains_key(cell) {
            rows.push(plain_row(cell, baseline[cell], candidate[cell]).guarded())
        } else {
            rows
        }
    }
}

/// The rows of a comparison, in the order of the cells' names.
pub open spec fn compared(
    baseline: Map<Seq<char>, CellText>,
    candidate: Map<Seq<char>, CellText>,
) -> Seq<DeltaText> {
    rows_of(in_key_order(baseline.dom()), baseline, candidate)
}

/// Compares the cells that two runs have in common.
pub fn compare_cells(baseline: &Table<CellMetrics>, candidate: &Table<CellMetrics>) -> (r: Vec<
    CellDelta,
>)
    requires
        baseline.wf(),
        candidate.wf(),
    ensures
        delta_texts(r@) == compared(cell_texts(baseline@), cell_texts(candidate@)),
{
    let n = baseline.entries.len();
    let mut rows: Vec<CellDelta> = Vec::new();
    let mut i: usize = 0;
    let ghost keys = keys_of(baseline.entries@);
    proof {
        assert(delta_texts(rows@) =~= Seq::<DeltaText>::empty());
        lemma_entries_in_key_order(baseline.entries@);
        assert(cell_texts(baseline@).dom() =~= baseline@.dom());
    }
    while i < n
        invariant
            i <= n == baseline.entries@.len(),
            keys == keys_of(baseline.entries@),
            baseline.wf(),
            candidate.wf(),
            delta_texts(rows@) == rows_of(
                keys.take(i as int),
                cell_texts(baseline@),
                cell_texts(candidate@),
            ),
        decreases n - i,
    {
        let ghost was = rows@;
        let entry = &baseline.entries[i];
        proof {
            lemma_entry(baseline.entries@, i as int);
            assert(keys.take(i + 1).drop_last() =~= keys.take(i as int));
            assert(keys.take(i + 1).last() == entry.0@);
        }
        match candidate.get(entry.0.as_str()) {
            Some(other) => {
                let mut row = CellDelta {
                    cell: entry.0.clone(),
                    kind: cell_kind(entry.1.scenario.as_str()),
                    delta: other.metrics.minus(entry.1.metrics),
                    score: Double::from_bits(ZERO),
                    beat_score: Double::from_bits(ZERO),
                    warns: Vec::new(),
                    fails: Vec::new(),
                };
                proof {
                    assert(texts(row.warns@) =~= Seq::<Seq<char>>::empty());
                    assert(texts(row.fails@) =~= Seq::<Seq<char>>::empty());
                    assert(row@ == plain_row(entry.0@, entry.1@, other@));
                }
                apply_guards(&mut row);
                let ghost text = row@;
                rows.push(row);
                proof {
                    assert(delta_texts(rows@) =~= delta_texts(was).push(text));
                }
            },
            None => {},
        }
        i = i + 1;
    }
    proof {
        assert(keys.take(n as int) =~= keys);
    }
    rows
}

/// The rows are those of the cells that both runs have, each once and in order.
proof fn lemma_rows_are_common_cells(
    keys: Seq<Seq<char>>,
    baseline: Map<Seq<char>, CellText>,
    candidate: Map<Seq<char>, CellText>,
)
    requires
        ordered(keys),
    ensures
        ({
            let rows = rows_of(keys, baseline, candidate);
            &&& forall|i: int, j: int|
                0 <= i < j < rows.len() ==> before(#[trigger] rows[i].cell, #[trigger] rows[j].cell)
            &&& forall|i: int|
                0 <= i < rows.len() ==> keys.contains(#[trigger] rows[i].cell)
                    && candidate.contains_key(rows[i].cell)
            &&& forall|cell: Seq<char>|
                keys.contains(cell) && #[trigger] candidate.contains_key(cell) ==> exists|i: int|
                    0 <= i < rows.len() && #[trigger] rows[i].cell == cell
        }),
    decreases keys.len(),
{
    if keys.len() > 0 {
        let first = keys.drop_last();
        let last = keys.last();
        assert(ordered(first)) by {
            assert forall|i: int, j: int| 0 <= i < j < first.len() implies before(
                #[trigger] first[i],
                #[trigger] first[j],
            ) by {
                assert(before(keys[i], keys[j]));
            }
        }
        lemma_rows_are_common_cells(first, baseline, candidate);
        let was = rows_of(first, baseline, candidate);
        let rows = rows_of(keys, baseline, candidate);
        let plain = plain_row(last, baseline[last], candidate[last]);
        lemma_guards_fail_what_is_broken(plain);
        assert forall|i: int| 0 <= i < rows.len() implies keys.contains(#[trigger] rows[i].cell)
            && candidate.contains_key(rows[i].cell) by {
            if i < was.len() {
                assert(rows[i] == was[i]);
                let k = choose|k: int| 0 <= k < first.len() && first[k] == was[i].cell;
                assert(keys[k] == rows[i].cell);
            } else {
                assert(keys[keys.len() - 1] == last);
            }
        }
        assert forall|i: int, j: int| 0 <= i < j < rows.len() implies before(
            #[trigger] rows[i].cell,
            #[trigger] rows[j].cell,
        ) by {
            assert(rows[i] == was[i]);
            let k = choose|k: int| 0 <= k < first.len() && first[k] == was[i].cell;
            if j < was.len() {
                assert(rows[j] == was[j]);
            } else {
                assert(before(keys[k], keys[keys.len() - 1]));
            }
        }
        assert forall|cell: Seq<char>|
            keys.contains(cell) && #[trigger] candidate.contains_key(cell) implies exists|i: int|
            0 <= i < rows.len() && #[trigger] rows[i].cell == cell by {
            if cell == last {
                assert(rows[rows.len() - 1].cell == cell);
            } else {
                let k = choose|k: int| 0 <= k < keys.len() && keys[k] == cell;
                assert(first[k] == cell);
                let i = choose|i: int| 0 <= i < was.len() && #[trigger] was[i].cell == cell;
                assert(rows[i].cell == cell);
            }
        }
    }
}

/// A comparison has a row for each cell that both runs have, and for no other,
/// once, in the order of the cells' names.
pub proof fn lemma_comparison_covers_common_cells(
    baseline: Table<CellMetrics>,
    candidate: Table<CellMetrics>,
)
    requires
        baseline.wf(),
    ensures
        ({
            let rows = compared(cell_texts(baseline@), cell_texts(candidate@));
            &&& forall|i: int, j: int|
                0 <= i < j < rows.len() ==> before(#[trigger] rows[i].cell, #[trigger] rows[j].cell)
            &&& forall|i: int|
                0 <= i < rows.len() ==> baseline@.contains_key(#[trigger] rows[i].cell)
                    && candidate@.contains_key(rows[i].cell)
            &&& forall|cell: Seq<char>|
                baseline@.contains_key(cell) && #[trigger] candidate@.contains_key(cell)
                    ==> exists|i: int| 0 <= i < rows.len() && #[trigger] rows[i].cell == cell
        }),
{
    let keys = keys_of(baseline.entries@);
    let (a, b) = (cell_texts(baseline@), cell_texts(candidate@));
    lemma_entries_in_key_order(baseline.entries@);
    assert(a.dom() =~= baseline@.dom());
    assert(ordered(keys)) by {
        assert forall|i: int, j: int| 0 <= i < j < keys.len() implies before(
            #[trigger] keys[i],
            #[trigger] keys[j],
        ) by {
            assert(before(baseline.entries@[i].0@, baseline.entries@[j].0@));
        }
    }
    lemma_rows_are_common_cells(keys, a, b);
    let rows = compared(a, b);
    assert forall|i: int| 0 <= i < rows.len() implies baseline@.contains_key(
        #[trigger] rows[i].cell,
    ) && candidate@.contains_key(rows[i].cell) by {
        assert(keys.contains(rows[i].cell));
        let k = choose|k: int| 0 <= k < keys.len() && keys[k] == rows[i].cell;
        lemma_entry(baseline.entries@, k);
        assert(b.contains_key(rows[i].cell));
    }
    assert forall|cell: Seq<char>|
        baseline@.contains_key(cell) && #[trigger] candidate@.contains_key(cell) implies exists|
        i: int,
    | 0 <= i < rows.len() && #[trigger] rows[i].cell == cell by {
        let k = choose|k: int| holds_at(baseline.entries@, cell, k);
        assert(keys[k] == cell);
        assert(b.contains_key(cell));
    }
}

} // verus!
