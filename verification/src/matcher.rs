//! Pairing each point of one track with the point of another that is nearest
//! in time, inside an overlap window.

use vstd::prelude::*;
use crate::nearest::{
    ascending, gap, in_bounds, lemma_nearest_is_closest, lemma_times_at_ascending,
    nearest_in_time, nearest_position, times_at,
};
use crate::table::{holds_id, last_row_of, lemma_last_row_of, TrackRecord, TrackTable};
use crate::window::{
    indices_within, is_selection, lemma_selected_is_selection, selected, TimeWindow,
};

verus! {

/// One match: a position of the first track and the position of the second
/// track that is nearest to it in time.
#[derive(Clone, Copy, Debug, PartialEq, Eq)]
pub struct Pairing {
    pub first: usize,
    pub second: usize,
}

/// The position of the second track that is matched to the instant `t`,
/// among the positions of that track inside the window.
pub open spec fn partner(other: Seq<i64>, window: TimeWindow, t: i64) -> usize {
    let picks = selected(other, window);
    picks[nearest_position(times_at(other, picks), t)]
}

/// The matches of the first track against the second inside `window`.
///
/// Where either track has no point inside the window there is none.
/// Otherwise every point of the first track inside the window has exactly
/// one match, in the order of the track: its partner in the second track.
/// The second track's points are not matched in their turn.
pub open spec fn pairings(one: Seq<i64>, other: Seq<i64>, window: TimeWindow) -> Seq<Pairing> {
    let picks = selected(one, window);
    if picks.len() == 0 || selected(other, window).len() == 0 {
        Seq::empty()
    } else {
        Seq::new(
            picks.len(),
            |k: int|
                Pairing { first: picks[k], second: partner(other, window, one[picks[k] as int]) },
        )
    }
}

/// One row of work: the identifiers of two tracks and the window inside
/// which the first is matched against the second.
#[derive(Clone, Copy, Debug, PartialEq, Eq)]
pub struct TrackPairRow {
    pub first: i32,
    pub second: i32,
    pub window: TimeWindow,
}

/// Why a row has no matches and counts with the default value.
#[derive(Clone, Copy, Debug, PartialEq, Eq)]
pub enum Reason {
    /// The row itself could not be read.
    Undecoded,
    /// One of the two identifiers is in no row of the track table.
    UnknownTrack,
    /// One of the two tracks has no point inside the window.
    EmptyOverlap,
}

/// The matches of one row, with the rows of the batch that hold its two
/// tracks.
#[derive(Debug, PartialEq, Eq)]
pub struct TrackMatch {
    pub first_row: usize,
    pub second_row: usize,
    pub pairs: Vec<Pairing>,
}

/// What a row comes to: matches to measure, or the default value and the
/// reason for it.
#[derive(Debug, PartialEq, Eq)]
pub enum RowOutcome {
    Fallback(Reason),
    Matched(TrackMatch),
}

/// `found` is what the matching of `one` against `other` inside `window`
/// gives: one match for every point of `one` inside the window, in order,
/// each to a point of `other` inside the window, and, where `other`
/// ascends, to the partner of `pairings`.
pub open spec fn is_matching(
    one: Seq<i64>,
    other: Seq<i64>,
    window: TimeWindow,
    found: Seq<Pairing>,
) -> bool {
    &&& found.len() == pairings(one, other, window).len()
    &&& forall|k: int|
        0 <= k < found.len() ==> (#[trigger] found[k]).first == selected(one, window)[k]
    &&& forall|k: int|
        0 <= k < found.len() ==> selected(other, window).contains((#[trigger] found[k]).second)
    &&& ascending(other) ==> found == pairings(one, other, window)
}

/// `outcome` is what the row comes to against the rows of a batch.
///
/// An identifier that no row holds gives the default value, whatever the
/// other identifier and the window are.  So does a window that holds no
/// point of one of the tracks.  Otherwise the outcome holds the matching of
/// the first track against the second, with at least one match.
pub open spec fn is_outcome_of(
    source: Seq<Option<TrackRecord>>,
    row: TrackPairRow,
    outcome: RowOutcome,
) -> bool {
    match (last_row_of(source, row.first), last_row_of(source, row.second)) {
        (Some(a), Some(b)) => {
            let one = source[a]->0.times@;
            let other = source[b]->0.times@;
            if pairings(one, other, row.window).len() == 0 {
                outcome == RowOutcome::Fallback(Reason::EmptyOverlap)
            } else {
                &&& outcome matches RowOutcome::Matched(m)
                &&& m.first_row == a
                &&& m.second_row == b
                &&& is_matching(one, other, row.window, m.pairs@)
            }
        },
        _ => outcome == RowOutcome::Fallback(Reason::UnknownTrack),
    }
}

/// `outcome` is what an entry of a batch comes to: the default value where
/// the row could not be read, and else what the row comes to.
pub open spec fn is_outcome_of_entry(
    source: Seq<Option<TrackRecord>>,
    entry: Option<TrackPairRow>,
    outcome: RowOutcome,
) -> bool {
    match entry {
        Some(row) => is_outcome_of(source, row, outcome),
        None => outcome == RowOutcome::Fallback(Reason::Undecoded),
    }
}

/// Every match joins two points inside the window, and the second of them is
/// as near in time to the first as any point of the second track inside the
/// window.
pub proof fn lemma_pairings_are_nearest(one: Seq<i64>, other: Seq<i64>, window: TimeWindow)
    requires
        ascending(other),
        one.len() <= usize::MAX,
        other.len() <= usize::MAX,
    ensures
        forall|k: int|
            0 <= k < pairings(one, other, window).len() ==> {
                let pair = #[trigger] pairings(one, other, window)[k];
                &&& pair.first < one.len()
                &&& pair.second < other.len()
                &&& window.holds(one[pair.first as int])
                &&& window.holds(other[pair.second as int])
                &&& forall|j: int|
                    0 <= j < other.len() && window.holds(#[trigger] other[j]) ==> gap(
                        one[pair.first as int],
                        other[pair.second as int],
                    ) <= gap(one[pair.first as int], other[j])
            },
{
    lemma_selected_is_selection(one, window);
    lemma_selected_is_selection(other, window);
    let picks = selected(one, window);
    let others = selected(other, window);
    let s = times_at(other, others);
    assert forall|k: int| 0 <= k < pairings(one, other, window).len() implies {
        let pair = #[trigger] pairings(one, other, window)[k];
        &&& pair.first < one.len()
        &&& pair.second < other.len()
        &&& window.holds(one[pair.first as int])
        &&& window.holds(other[pair.second as int])
        &&& forall|j: int|
            0 <= j < other.len() && window.holds(#[trigger] other[j]) ==> gap(
                one[pair.first as int],
                other[pair.second as int],
            ) <= gap(one[pair.first as int], other[j])
    } by {
        let pair = pairings(one, other, window)[k];
        let t = one[picks[k] as int];
        lemma_times_at_ascending(other, others);
        lemma_nearest_is_closest(s, t);
        let m = nearest_position(s, t);
        assert(pair.second == others[m]);
        assert(s[m] == other[others[m] as int]);
        assert forall|j: int| 0 <= j < other.len() && window.holds(#[trigger] other[j]) implies gap(
            t,
            other[pair.second as int],
        ) <= gap(t, other[j]) by {
            let q = choose|q: int| 0 <= q < others.len() && others[q] == j;
            assert(s[q] == other[j]);
        }
    }
}

/// A row that names a track which no row of the batch holds comes to the
/// default value.
pub proof fn lemma_unknown_track_falls_back(
    source: Seq<Option<TrackRecord>>,
    row: TrackPairRow,
    outcome: RowOutcome,
)
    requires
        is_outcome_of(source, row, outcome),
        (forall|i: int| 0 <= i < source.len() ==> !holds_id(#[trigger] source[i], row.first)) || (
        forall|i: int| 0 <= i < source.len() ==> !holds_id(#[trigger] source[i], row.second)),
    ensures
        outcome == RowOutcome::Fallback(Reason::UnknownTrack),
{
    lemma_last_row_of(source, row.first);
    lemma_last_row_of(source, row.second);
}

/// A row whose two tracks are found and have both a point inside the window
/// comes to matches, one for every point of the first track inside the
/// window and so at least one.
pub proof fn lemma_overlap_is_matched(
    source: Seq<Option<TrackRecord>>,
    row: TrackPairRow,
    outcome: RowOutcome,
)
    requires
        is_outcome_of(source, row, outcome),
        last_row_of(source, row.first) matches Some(a) && selected(
            source[a]->0.times@,
            row.window,
        ).len() > 0,
        last_row_of(source, row.second) matches Some(b) && selected(
            source[b]->0.times@,
            row.window,
        ).len() > 0,
    ensures
        outcome matches RowOutcome::Matched(m) && m.pairs.len() == selected(
            source[last_row_of(source, row.first)->0]->0.times@,
            row.window,
        ).len() && m.pairs.len() > 0,
{
}

/// The matching is directional: there are two ascending tracks and a window
/// for which the first matched against the second gives another number of
/// matches than the second matched against the first.
pub proof fn lemma_matching_is_directional()
    ensures
        exists|one: Seq<i64>, other: Seq<i64>, window: TimeWindow|
            ascending(one) && ascending(other) && #[trigger] pairings(one, other, window).len()
                != pairings(other, one, window).len(),
{
    let one: Seq<i64> = seq![0i64];
    let other: Seq<i64> = seq![0i64, 1i64];
    let window = TimeWindow { start: 0, end: 1 };
    assert(selected(one, window).len() == 1) by {
        reveal_with_fuel(crate::window::selected_upto, 3);
    }
    assert(selected(other, window).len() == 2) by {
        reveal_with_fuel(crate::window::selected_upto, 4);
    }
    assert(pairings(one, other, window).len() == 1);
    assert(pairings(other, one, window).len() == 2);
}

/// Matches every point of the first track inside `window` with the point of
/// the second track inside `window` that is nearest to it in time.
///
/// `one` and `other` hold the time values of the two tracks.  The second
/// track is searched by bisection, so the matches are the nearest ones only
/// where its time values ascend; the first track may come in any order.
pub fn match_times(one: &Vec<i64>, other: &Vec<i64>, window: &TimeWindow) -> (pairs: Vec<Pairing>)
    ensures
        is_matching(one@, other@, *window, pairs@),
{
    let picks = indices_within(one, window);
    let others = indices_within(other, window);
    let mut pairs: Vec<Pairing> = Vec::new();
    if picks.len() == 0 || others.len() == 0 {
        return pairs;
    }
    let ghost s = times_at(other@, others@);
    proof {
        if ascending(other@) {
            lemma_times_at_ascending(other@, others@);
        }
    }
    let mut k: usize = 0;
    while k < picks.len()
        invariant
            k <= picks.len(),
            pairs.len() == k,
            others.len() > 0,
            picks@ == selected(one@, *window),
            others@ == selected(other@, *window),
            is_selection(one@, *window, picks@),
            in_bounds(other@, others@),
            s == times_at(other@, others@),
            ascending(other@) ==> ascending(s),
            forall|i: int| 0 <= i < k ==> (#[trigger] pairs[i]).first == picks[i],
            forall|i: int| 0 <= i < k ==> others@.contains((#[trigger] pairs[i]).second),
            ascending(other@) ==> forall|i: int|
                0 <= i < k ==> (#[trigger] pairs[i]).second == partner(
                    other@,
                    *window,
                    one[picks[i] as int],
                ),
        decreases picks.len() - k,
    {
        let i = picks[k];
        match nearest_in_time(other, &others, one[i]) {
            Some(j) => {
                pairs.push(Pairing { first: i, second: j });
            },
            None => {
                assert(false);
            },
        }
        k += 1;
    }
    assert(ascending(other@) ==> pairs@ =~= pairings(one@, other@, *window));
    pairs
}

/// Resolves the two tracks of a row and matches the first against the
/// second inside the row's window.
pub fn match_row(table: &TrackTable, row: &TrackPairRow) -> (outcome: RowOutcome)
    ensures
        is_outcome_of(table.source(), *row, outcome),
{
    let (first_row, one) = match table.get(row.first) {
        Some(found) => found,
        None => {
            return RowOutcome::Fallback(Reason::UnknownTrack);
        },
    };
    let (second_row, other) = match table.get(row.second) {
        Some(found) => found,
        None => {
            return RowOutcome::Fallback(Reason::UnknownTrack);
        },
    };
    let pairs = match_times(&one.times, &other.times, &row.window);
    if pairs.len() == 0 {
        RowOutcome::Fallback(Reason::EmptyOverlap)
    } else {
        RowOutcome::Matched(TrackMatch { first_row, second_row, pairs })
    }
}

/// Matches every row of a batch against the track table.  The outcomes come
/// in the order of the rows, one for each, and none depends on another row.
pub fn match_nearest_point(table: &TrackTable, rows: &Vec<Option<TrackPairRow>>) -> (outcomes: Vec<
    RowOutcome,
>)
    ensures
        outcomes.len() == rows.len(),
        forall|i: int|
            0 <= i < rows.len() ==> is_outcome_of_entry(
                table.source(),
                rows[i],
                #[trigger] outcomes[i],
            ),
{
    let mut outcomes: Vec<RowOutcome> = Vec::new();
    let mut i: usize = 0;
    while i < rows.len()
        invariant
            i <= rows.len(),
            outcomes.len() == i,
            forall|k: int|
                0 <= k < i ==> is_outcome_of_entry(table.source(), rows[k], #[trigger] outcomes[k]),
        decreases rows.len() - i,
    {
        let outcome = match &rows[i] {
            Some(row) => match_row(table, row),
            None => RowOutcome::Fallback(Reason::Undecoded),
        };
        outcomes.push(outcome);
        i += 1;
    }
    outcomes
}

} // verus!
