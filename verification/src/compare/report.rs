use vstd::prelude::*;

use crate::compare::cells::Metrics;
use crate::compare::guards::{CellDelta, DeltaText, delta_texts};
use crate::float::double::Double;
use crate::float::numbers::{NANO_1, ZERO};
use crate::float::series::{total, total_of};
use crate::text::{append, join, joined, texts};

verus! {

impl DeltaText {
    /// The cell has become worse in some way.
    pub open spec fn has_any_regression(self) -> bool {
        self.score.gt(Double::from_bits(ZERO)) || self.fails.len() > 0 || self.warns.len() > 0
    }

    /// The cell has failed.
    pub open spec fn failed(self) -> bool {
        self.fails.len() > 0
    }

    /// What is wrong with the cell.
    pub open spec fn flags(self) -> Seq<char> {
        let warned = if self.warns.len() > 0 {
            seq!["WARN:"@ + joined(self.warns, ";"@)]
        } else {
            Seq::empty()
        };
        let failed = if self.fails.len() > 0 {
            seq!["FAIL:"@ + joined(self.fails, ";"@)]
        } else {
            Seq::empty()
        };
        if self.warns.len() == 0 && self.fails.len() == 0 {
            "-"@
        } else {
            joined(warned + failed, " | "@)
        }
    }
}

/// Tells whether a cell has become worse in some way.
pub fn has_any_regression(row: &CellDelta) -> (r: bool)
    ensures
        r == row@.has_any_regression(),
{
    row.score.gt(Double::from_bits(ZERO)) || row.fails.len() > 0 || row.warns.len() > 0
}

/// Says what is wrong with a cell.
pub fn flags(row: &CellDelta) -> (r: String)
    ensures
        r@ == row@.flags(),
{
    let mut found: Vec<String> = Vec::new();
    proof {
        assert(texts(found@) =~= Seq::<Seq<char>>::empty());
    }
    if row.warns.len() > 0 {
        let mut text = "WARN:".to_owned();
        append(&mut text, join(&row.warns, ";").as_str());
        found.push(text);
    }
    let ghost warned = texts(found@);
    proof {
        assert(row@.warns.len() > 0 ==> warned =~= seq!["WARN:"@ + joined(row@.warns, ";"@)]);
        assert(row@.warns.len() == 0 ==> warned =~= Seq::<Seq<char>>::empty());
    }
    if row.fails.len() > 0 {
        let mut text = "FAIL:".to_owned();
        append(&mut text, join(&row.fails, ";").as_str());
        found.push(text);
    }
    proof {
        assert(row@.fails.len() > 0 ==> texts(found@) =~= warned + seq![
            "FAIL:"@ + joined(row@.fails, ";"@),
        ]);
        assert(row@.fails.len() == 0 ==> texts(found@) =~= warned + Seq::<Seq<char>>::empty());
    }
    if found.len() == 0 {
        return "-".to_owned();
    }
    join(&found, " | ")
}

/// A number of a row, and how it is printed.
#[derive(Clone, Copy, Debug)]
pub struct Column {
    pub value: Option<Double>,
    pub decimals: usize,
    pub signed: bool,
}

/// The numbers of a row, from left to right.
pub open spec fn columns_of(row: DeltaText) -> Seq<Column> {
    let d = row.delta;
    seq![
        Column { value: d.convergence_rate, decimals: 3, signed: true },
        Column { value: d.convergence_p50_secs, decimals: 0, signed: true },
        Column { value: d.convergence_p99_secs, decimals: 0, signed: true },
        Column { value: d.settled_accuracy_p50, decimals: 4, signed: true },
        Column { value: d.settled_accuracy_p99, decimals: 4, signed: true },
        Column { value: d.jitter_mean_per_min, decimals: 4, signed: true },
        Column { value: d.jitter_p99_per_min, decimals: 4, signed: true },
        Column { value: d.reaction_rate, decimals: 3, signed: true },
        Column { value: d.reaction_p50_secs, decimals: 0, signed: true },
        Column { value: d.reaction_p99_secs, decimals: 0, signed: true },
        Column { value: Some(row.score), decimals: 6, signed: false },
        Column { value: Some(row.beat_score), decimals: 6, signed: false },
    ]
}

/// The numbers of a row, from left to right.
pub fn columns(row: &CellDelta) -> (r: Vec<Column>)
    ensures
        r@ == columns_of(row@),
{
    let d = row.delta;
    vec![
        Column { value: d.convergence_rate, decimals: 3, signed: true },
        Column { value: d.convergence_p50_secs, decimals: 0, signed: true },
        Column { value: d.convergence_p99_secs, decimals: 0, signed: true },
        Column { value: d.settled_accuracy_p50, decimals: 4, signed: true },
        Column { value: d.settled_accuracy_p99, decimals: 4, signed: true },
        Column { value: d.jitter_mean_per_min, decimals: 4, signed: true },
        Column { value: d.jitter_p99_per_min, decimals: 4, signed: true },
        Column { value: d.reaction_rate, decimals: 3, signed: true },
        Column { value: d.reaction_p50_secs, decimals: 0, signed: true },
        Column { value: d.reaction_p99_secs, decimals: 0, signed: true },
        Column { value: Some(row.score), decimals: 6, signed: false },
        Column { value: Some(row.beat_score), decimals: 6, signed: false },
    ]
}

/// The line of a row, from its numbers as they are printed.
pub open spec fn line_of(row: DeltaText, numbers: Seq<Seq<char>>) -> Seq<char> {
    joined(seq![row.cell] + numbers + seq![row.flags()], " | "@)
}

/// The line of a row, from its numbers as they are printed.
pub fn table_line(row: &CellDelta, numbers: &Vec<String>) -> (r: String)
    ensures
        r@ == line_of(row@, texts(numbers@)),
{
    let mut fields: Vec<String> = Vec::new();
    fields.push(row.cell.clone());
    let mut i: usize = 0;
    proof {
        assert(texts(fields@) =~= seq![row.cell@] + texts(numbers@.take(0)));
    }
    while i < numbers.len()
        invariant
            i <= numbers@.len(),
            texts(fields@) == seq![row.cell@] + texts(numbers@.take(i as int)),
        decreases numbers.len() - i,
    {
        let ghost was = fields@;
        fields.push(numbers[i].clone());
        i = i + 1;
        proof {
            assert(texts(fields@) =~= texts(was).push(numbers@[i - 1]@));
            assert(texts(numbers@.take(i as int)) =~= texts(numbers@.take(i - 1)).push(
                numbers@[i - 1]@,
            ));
            assert(texts(fields@) =~= seq![row.cell@] + texts(numbers@.take(i as int)));
        }
    }
    let ghost was = fields@;
    fields.push(flags(row));
    proof {
        assert(numbers@.take(i as int) =~= numbers@);
        assert(texts(fields@) =~= seq![row.cell@] + texts(numbers@) + seq![row@.flags()]);
    }
    join(&fields, " | ")
}

/// Which rows a table shows.
#[derive(Clone, Copy, PartialEq, Eq, Structural, Debug)]
pub enum Selection {
    Worse,
    Failed,
}

impl Selection {
    pub open spec fn takes(self, row: DeltaText) -> bool {
        match self {
            Selection::Worse => row.has_any_regression(),
            Selection::Failed => row.failed(),
        }
    }
}

/// The rows that references point to.
pub open spec fn pointed(rows: Seq<&CellDelta>) -> Seq<DeltaText> {
    rows.map_values(|r: &CellDelta| r@)
}

/// The selected rows, in their order.
pub fn select(rows: &Vec<CellDelta>, selection: Selection) -> (r: Vec<&CellDelta>)
    ensures
        pointed(r@) == delta_texts(rows@).filter(|row: DeltaText| selection.takes(row)),
{
    let mut out: Vec<&CellDelta> = Vec::new();
    let mut i: usize = 0;
    let ghost taken = |row: DeltaText| selection.takes(row);
    proof {
        reveal(Seq::filter);
        assert(delta_texts(rows@.take(0)) =~= Seq::<DeltaText>::empty());
        assert(pointed(out@) =~= Seq::<DeltaText>::empty());
    }
    while i < rows.len()
        invariant
            i <= rows@.len(),
            taken == (|row: DeltaText| selection.takes(row)),
            pointed(out@) == delta_texts(rows@.take(i as int)).filter(taken),
        decreases rows.len() - i,
    {
        let row = &rows[i];
        let ghost was = out@;
        let take = match selection {
            Selection::Worse => has_any_regression(row),
            Selection::Failed => row.fails.len() > 0,
        };
        if take {
            out.push(row);
        }
        proof {
            reveal(Seq::filter);
            let all = delta_texts(rows@.take(i + 1));
            assert(all.drop_last() =~= delta_texts(rows@.take(i as int)));
            assert(all.last() == row@);
            assert(take ==> pointed(out@) =~= pointed(was).push(row@));
        }
        i = i + 1;
    }
    proof {
        assert(rows@.take(i as int) =~= rows@);
    }
    out
}

/// What the worst cells are listed for.
#[derive(Clone, Copy, PartialEq, Eq, Structural, Debug)]
pub enum Concern {
    SettledAccuracy,
    ReactionRate,
    ReactionTime,
    Jitter,
}

pub open spec fn spec_rise(value: Option<Double>) -> Double {
    match value {
        Some(x) => x,
        None => Double::from_bits(ZERO),
    }.max(Double::from_bits(ZERO))
}

/// By how much a number rose; zero where it fell or is not there.
#[verifier::when_used_as_spec(spec_rise)]
pub fn rise(value: Option<Double>) -> (r: Double)
    ensures
        r == rise(value),
{
    let x = match value {
        Some(x) => x,
        None => Double::from_bits(ZERO),
    };
    x.max(Double::from_bits(ZERO))
}

pub open spec fn spec_badness(concern: Concern, d: Metrics) -> Option<Double> {
    match concern {
        Concern::SettledAccuracy => if d.settled_accuracy_p50 is Some {
            d.settled_accuracy_p50
        } else {
            d.settled_accuracy_p99
        },
        Concern::ReactionRate => match d.reaction_rate {
            Some(x) => Some(x.neg()),
            None => None,
        },
        Concern::ReactionTime => Some(rise(d.reaction_p50_secs).max(rise(d.reaction_p99_secs))),
        Concern::Jitter => Some(rise(d.jitter_mean_per_min).max(rise(d.jitter_p99_per_min))),
    }
}

/// How bad differences are in one respect.
#[verifier::when_used_as_spec(spec_badness)]
pub fn badness(concern: Concern, d: Metrics) -> (r: Option<Double>)
    ensures
        r == badness(concern, d),
{
    match concern {
        Concern::SettledAccuracy => match d.settled_accuracy_p50 {
            Some(x) => Some(x),
            None => d.settled_accuracy_p99,
        },
        Concern::ReactionRate => match d.reaction_rate {
            Some(x) => Some(x.neg()),
            None => None,
        },
        Concern::ReactionTime => Some(rise(d.reaction_p50_secs).max(rise(d.reaction_p99_secs))),
        Concern::Jitter => Some(rise(d.jitter_mean_per_min).max(rise(d.jitter_p99_per_min))),
    }
}

/// How many cells a list names at most.
pub const LISTED: usize = 5;

pub open spec fn named_values(entries: Seq<(String, Double)>) -> Seq<(Seq<char>, Double)> {
    entries.map_values(|e: (String, Double)| (e.0@, e.1))
}

/// A list in descending order with one more entry, behind those of its value.
pub open spec fn placed(list: Seq<(Seq<char>, Double)>, entry: (Seq<char>, Double)) -> Seq<
    (Seq<char>, Double),
>
    decreases list.len(),
{
    if list.len() > 0 && list.last().1.lt(entry.1) {
        placed(list.drop_last(), entry).push(list.last())
    } else {
        list.push(entry)
    }
}

/// The cells that are bad in one respect, the worst first; cells that are equally
/// bad keep their order.
pub open spec fn ranked(rows: Seq<DeltaText>, concern: Concern) -> Seq<(Seq<char>, Double)>
    decreases rows.len(),
{
    if rows.len() == 0 {
        Seq::empty()
    } else {
        let list = ranked(rows.drop_last(), concern);
        match badness(concern, rows.last().delta) {
            Some(x) => if x.gt(Double::from_bits(ZERO)) {
                placed(list, (rows.last().cell, x))
            } else {
                list
            },
            None => list,
        }
    }
}

/// The start of a list, at most `LISTED` entries of it.
pub open spec fn listed(list: Seq<(Seq<char>, Double)>) -> Seq<(Seq<char>, Double)> {
    if list.len() > LISTED {
        list.take(LISTED as int)
    } else {
        list
    }
}

/// Puts an entry into a list in descending order, behind those of its value.
fn place(list: &mut Vec<(String, Double)>, cell: String, value: Double)
    ensures
        named_values(final(list)@) == placed(named_values(old(list)@), (cell@, value)),
{
    let ghost was = list@;
    let ghost entry = (cell@, value);
    let n = list.len();
    let mut at: usize = n;
    proof {
        assert(named_values(was).take(n as int) =~= named_values(was));
        assert(named_values(was).skip(n as int) =~= Seq::<(Seq<char>, Double)>::empty());
        assert(placed(named_values(was), entry) + Seq::<(Seq<char>, Double)>::empty() =~= placed(
            named_values(was),
            entry,
        ));
    }
    while at > 0 && list[at - 1].1.lt(value)
        invariant
            at <= n == list@.len(),
            list@ == was,
            entry.1 == value,
            placed(named_values(was), entry) == placed(named_values(was).take(at as int), entry)
                + named_values(was).skip(at as int),
        decreases at,
    {
        proof {
            let all = named_values(was);
            let head = all.take(at as int);
            assert(head.drop_last() =~= all.take(at - 1));
            assert(head.last() == all[at - 1]);
            assert(all.skip(at - 1) =~= seq![all[at - 1]] + all.skip(at as int));
            assert(placed(head, entry) + all.skip(at as int) =~= placed(all.take(at - 1), entry)
                + all.skip(at - 1));
        }
        at = at - 1;
    }
    list.insert(at, (cell, value));
    proof {
        let all = named_values(was);
        let head = all.take(at as int);
        assert(at > 0 ==> head.last() == all[at - 1]);
        assert(named_values(list@) =~= head.push(entry) + all.skip(at as int));
    }
}

/// The worst cells in one respect, the worst first.
pub fn worst(rows: &Vec<CellDelta>, concern: Concern) -> (r: Vec<(String, Double)>)
    ensures
        named_values(r@) == listed(ranked(delta_texts(rows@), concern)),
{
    let mut list: Vec<(String, Double)> = Vec::new();
    let mut i: usize = 0;
    proof {
        assert(named_values(list@) =~= Seq::<(Seq<char>, Double)>::empty());
    }
    while i < rows.len()
        invariant
            i <= rows@.len(),
            named_values(list@) == ranked(delta_texts(rows@.take(i as int)), concern),
        decreases rows.len() - i,
    {
        proof {
            let all = delta_texts(rows@.take(i + 1));
            assert(all.drop_last() =~= delta_texts(rows@.take(i as int)));
            assert(all.last() == rows@[i as int]@);
        }
        match badness(concern, rows[i].delta) {
            Some(x) => {
                if x.gt(Double::from_bits(ZERO)) {
                    place(&mut list, rows[i].cell.clone(), x);
                }
            },
            None => {},
        }
        i = i + 1;
    }
    proof {
        assert(rows@.take(i as int) =~= rows@);
    }
    let ghost whole = list@;
    if list.len() > LISTED {
        list.truncate(LISTED);
        proof {
            assert(named_values(list@) =~= named_values(whole).take(LISTED as int));
        }
    }
    list
}

/// The cells that are bad in one respect, in the order of the rows.
pub open spec fn bad_cells(rows: Seq<DeltaText>, concern: Concern) -> Seq<(Seq<char>, Double)>
    decreases rows.len(),
{
    if rows.len() == 0 {
        Seq::empty()
    } else {
        let list = bad_cells(rows.drop_last(), concern);
        match badness(concern, rows.last().delta) {
            Some(x) => if x.gt(Double::from_bits(ZERO)) {
                list.push((rows.last().cell, x))
            } else {
                list
            },
            None => list,
        }
    }
}

/// The worst come first.
pub open spec fn descending(list: Seq<(Seq<char>, Double)>) -> bool {
    forall|i: int, j: int|
        0 <= i <= j < list.len() ==> (#[trigger] list[j]).1.le((#[trigger] list[i]).1)
}

/// The entries of a list that have a value of the given rank.
pub open spec fn of_rank(list: Seq<(Seq<char>, Double)>, rank: int) -> Seq<(Seq<char>, Double)> {
    list.filter(|e: (Seq<char>, Double)| e.1.rank() == rank)
}

proof fn lemma_of_rank_push(
    list: Seq<(Seq<char>, Double)>,
    entry: (Seq<char>, Double),
    rank: int,
)
    ensures
        of_rank(list.push(entry), rank) == if entry.1.rank() == rank {
            of_rank(list, rank).push(entry)
        } else {
            of_rank(list, rank)
        },
{
    reveal(Seq::filter);
    assert(list.push(entry).drop_last() =~= list);
}

/// Placing an entry keeps the order, and puts it behind those of its value.
proof fn lemma_placed(list: Seq<(Seq<char>, Double)>, entry: (Seq<char>, Double), rank: int)
    requires
        descending(list),
        !entry.1.is_nan(),
    ensures
        descending(placed(list, entry)),
        forall|i: int|
            0 <= i < placed(list, entry).len() ==> (#[trigger] placed(list, entry)[i]) == entry
                || list.contains(placed(list, entry)[i]),
        of_rank(placed(list, entry), rank) == of_rank(list.push(entry), rank),
    decreases list.len(),
{
    let all = placed(list, entry);
    if list.len() > 0 && list.last().1.lt(entry.1) {
        let head = list.drop_last();
        assert(descending(head)) by {
            assert forall|i: int, j: int| 0 <= i <= j < head.len() implies (
            #[trigger] head[j]).1.le((#[trigger] head[i]).1) by {
                assert(list[j].1.le(list[i].1));
            }
        }
        lemma_placed(head, entry, rank);
        let first = placed(head, entry);
        assert(list =~= head.push(list.last()));
        lemma_of_rank_push(head, list.last(), rank);
        lemma_of_rank_push(list, entry, rank);
        lemma_of_rank_push(head, entry, rank);
        lemma_of_rank_push(first, list.last(), rank);
        assert forall|i: int| 0 <= i < all.len() implies (#[trigger] all[i]) == entry
            || list.contains(all[i]) by {
            if i < first.len() {
                assert(all[i] == first[i]);
                if first[i] != entry {
                    let k = choose|k: int| 0 <= k < head.len() && head[k] == first[i];
                    assert(list[k] == all[i]);
                }
            } else {
                assert(list[list.len() - 1] == all[i]);
            }
        }
        assert forall|i: int, j: int| 0 <= i <= j < all.len() implies (#[trigger] all[j]).1.le(
            (#[trigger] all[i]).1,
        ) by {
            if j < first.len() {
                assert(first[j].1.le(first[i].1));
            } else if i < first.len() {
                assert(all[i] == first[i]);
                if first[i] != entry {
                    let k = choose|k: int| 0 <= k < head.len() && head[k] == first[i];
                    assert(list[list.len() - 1].1.le(list[k].1));
                }
            }
        }
    } else {
        assert(all =~= list.push(entry));
        assert forall|i: int, j: int| 0 <= i <= j < all.len() implies (#[trigger] all[j]).1.le(
            (#[trigger] all[i]).1,
        ) by {
            if j < list.len() {
                assert(list[j].1.le(list[i].1));
            } else if i < list.len() {
                assert(list[list.len() - 1].1.le(list[i].1));
            }
        }
        assert forall|i: int| 0 <= i < all.len() implies (#[trigger] all[i]) == entry
            || list.contains(all[i]) by {
            if i < list.len() {
                assert(list[i] == all[i]);
            }
        }
    }
}

/// The ranking of the bad cells has the worst first, holds each of them, and keeps
/// those that are equally bad in the order of the rows.
pub proof fn lemma_ranking_is_a_stable_sort(rows: Seq<DeltaText>, concern: Concern, rank: int)
    ensures
        descending(ranked(rows, concern)),
        of_rank(ranked(rows, concern), rank) == of_rank(bad_cells(rows, concern), rank),
    decreases rows.len(),
{
    if rows.len() > 0 {
        lemma_ranking_is_a_stable_sort(rows.drop_last(), concern, rank);
        let (list, bad) = (ranked(rows.drop_last(), concern), bad_cells(rows.drop_last(), concern));
        if let Some(x) = badness(concern, rows.last().delta) {
            let entry = (rows.last().cell, x);
            if x.gt(Double::from_bits(ZERO)) {
                lemma_placed(list, entry, rank);
                lemma_of_rank_push(list, entry, rank);
                lemma_of_rank_push(bad, entry, rank);
            }
        }
    }
}

/// The scores of some rows.
pub open spec fn scores_of(rows: Seq<DeltaText>) -> Seq<Double> {
    rows.map_values(|r: DeltaText| r.score)
}

/// The beat scores of some rows.
pub open spec fn beat_scores_of(rows: Seq<DeltaText>) -> Seq<Double> {
    rows.map_values(|r: DeltaText| r.beat_score)
}

/// Some row has failed.
pub open spec fn any_failed(rows: Seq<DeltaText>) -> bool {
    exists|i: int| 0 <= i < rows.len() && (#[trigger] rows[i]).failed()
}

/// What is made of a comparison as a whole.
#[derive(Clone, Copy, Debug)]
pub struct Verdict {
    pub accepted: bool,
    pub hard_fail: bool,
    pub total_score: Double,
    pub total_beat_score: Double,
}

/// What is made of a comparison, by its rows.
pub open spec fn verdict_of(rows: Seq<DeltaText>) -> Verdict {
    Verdict {
        accepted: !any_failed(rows) && total_of(scores_of(rows)).le(Double::from_bits(NANO_1)),
        hard_fail: any_failed(rows),
        total_score: total_of(scores_of(rows)),
        total_beat_score: total_of(beat_scores_of(rows)),
    }
}

/// Judges a comparison by its rows. It is accepted where no cell has failed and
/// the scores add up to next to nothing.
pub fn verdict(rows: &Vec<CellDelta>) -> (r: Verdict)
    ensures
        r == verdict_of(delta_texts(rows@)),
        r.hard_fail == any_failed(delta_texts(rows@)),
        r.total_score == total_of(scores_of(delta_texts(rows@))),
        r.total_beat_score == total_of(beat_scores_of(delta_texts(rows@))),
        r.accepted == (!any_failed(delta_texts(rows@)) && total_of(
            scores_of(delta_texts(rows@)),
        ).le(Double::from_bits(NANO_1))),
{
    let mut hard_fail = false;
    let mut scores: Vec<Double> = Vec::new();
    let mut beat_scores: Vec<Double> = Vec::new();
    let mut i: usize = 0;
    let ghost all = delta_texts(rows@);
    while i < rows.len()
        invariant
            all == delta_texts(rows@),
            i <= rows@.len() == all.len(),
            hard_fail == exists|j: int| 0 <= j < i && (#[trigger] all[j]).failed(),
            scores@ == scores_of(all).take(i as int),
            beat_scores@ == beat_scores_of(all).take(i as int),
        decreases rows.len() - i,
    {
        assert(all[i as int] == rows@[i as int]@);
        if rows[i].fails.len() > 0 {
            assert(all[i as int].failed());
            hard_fail = true;
        }
        scores.push(rows[i].score);
        beat_scores.push(rows[i].beat_score);
        i = i + 1;
        proof {
            assert(scores_of(all).take(i as int) =~= scores_of(all).take(i - 1).push(
                scores_of(all)[i - 1],
            ));
            assert(beat_scores_of(all).take(i as int) =~= beat_scores_of(all).take(i - 1).push(
                beat_scores_of(all)[i - 1],
            ));
        }
    }
    proof {
        assert(scores_of(all).take(i as int) =~= scores_of(all));
        assert(beat_scores_of(all).take(i as int) =~= beat_scores_of(all));
    }
    let total_score = total(&scores);
    let total_beat_score = total(&beat_scores);
    Verdict {
        accepted: !hard_fail && total_score.le(Double::from_bits(NANO_1)),
        hard_fail,
        total_score,
        total_beat_score,
    }
}

} // verus!
