//! Finding, among chosen positions of a track, the one nearest in time to a
//! given instant.

use vstd::prelude::*;

verus! {

/// The time values never decrease from one position to the next.
pub open spec fn ascending(s: Seq<i64>) -> bool {
    forall|i: int, j: int| 0 <= i <= j < s.len() ==> s[i] <= s[j]
}

/// Every pick is a position of `times`.
pub open spec fn in_bounds(times: Seq<i64>, picks: Seq<usize>) -> bool {
    forall|k: int| 0 <= k < picks.len() ==> (#[trigger] picks[k]) < times.len()
}

/// The time values found at the picked positions, in the order of the picks.
pub open spec fn times_at(times: Seq<i64>, picks: Seq<usize>) -> Seq<i64> {
    Seq::new(picks.len(), |k: int| times[picks[k] as int])
}

/// The distance in time between two instants.
pub open spec fn gap(a: i64, b: i64) -> int {
    if a >= b {
        a - b
    } else {
        b - a
    }
}

/// The first position at or after `from` whose time value is at least `t`,
/// or the length of `s` where there is none.
pub open spec fn first_at_or_after_from(s: Seq<i64>, t: i64, from: int) -> int
    decreases s.len() - from,
{
    if from >= s.len() {
        s.len() as int
    } else if s[from] >= t {
        from
    } else {
        first_at_or_after_from(s, t, from + 1)
    }
}

/// The first position whose time value is at least `t`, or the length of `s`
/// where every value is smaller.
pub open spec fn first_at_or_after(s: Seq<i64>, t: i64) -> int {
    first_at_or_after_from(s, t, 0)
}

/// `p` separates a value below `t` on its left from a value at or above `t`
/// on its right, wherever it has such a neighbour.
pub open spec fn is_boundary(s: Seq<i64>, t: i64, p: int) -> bool {
    &&& 0 <= p <= s.len()
    &&& p > 0 ==> s[p - 1] < t
    &&& p < s.len() ==> s[p] >= t
}

/// The position that is matched to `t` once the boundary `p` is known: the
/// first position where nothing lies to the left, the last where nothing lies
/// to the right, otherwise the left neighbour if it is strictly nearer in
/// time and the right neighbour if not, so that a tie goes to the right.
pub open spec fn nearest_from_boundary(s: Seq<i64>, t: i64, p: int) -> int {
    if p <= 0 {
        0
    } else if p >= s.len() {
        s.len() - 1
    } else if gap(t, s[p - 1]) < gap(t, s[p]) {
        p - 1
    } else {
        p
    }
}

/// The position of `s` that is matched to `t`.
pub open spec fn nearest_position(s: Seq<i64>, t: i64) -> int {
    nearest_from_boundary(s, t, first_at_or_after(s, t))
}

/// The scan stops at the first value that reaches `t`: all it passed are
/// smaller.
pub proof fn lemma_first_at_or_after_from(s: Seq<i64>, t: i64, from: int)
    requires
        0 <= from <= s.len(),
    ensures
        from <= first_at_or_after_from(s, t, from) <= s.len(),
        forall|k: int| from <= k < first_at_or_after_from(s, t, from) ==> s[k] < t,
        first_at_or_after_from(s, t, from) < s.len() ==> s[first_at_or_after_from(s, t, from)]
            >= t,
    decreases s.len() - from,
{
    if from < s.len() && s[from] < t {
        lemma_first_at_or_after_from(s, t, from + 1);
    }
}

/// In an ascending sequence there is one boundary only, the first position
/// whose value reaches `t`.
pub proof fn lemma_boundary_is_first(s: Seq<i64>, t: i64, p: int)
    requires
        ascending(s),
        is_boundary(s, t, p),
    ensures
        p == first_at_or_after(s, t),
{
    lemma_first_at_or_after_from(s, t, 0);
    let q = first_at_or_after(s, t);
    if q < p {
        assert(s[q] <= s[p - 1]);
    } else if p < q {
        assert(s[p] < t);
    }
}

/// In an ascending sequence the matched position is nearest in time: no
/// other position holds a value closer to `t`.  Where the matched value lies
/// before `t`, it is strictly closer than every value at or after `t`: of
/// two equally near neighbours the later one is matched.
pub proof fn lemma_nearest_is_closest(s: Seq<i64>, t: i64)
    requires
        ascending(s),
        s.len() > 0,
    ensures
        0 <= nearest_position(s, t) < s.len(),
        forall|k: int|
            0 <= k < s.len() ==> gap(t, s[nearest_position(s, t)]) <= gap(t, #[trigger] s[k]),
        s[nearest_position(s, t)] < t ==> forall|k: int|
            0 <= k < s.len() && (#[trigger] s[k]) >= t ==> gap(t, s[nearest_position(s, t)]) < gap(
                t,
                s[k],
            ),
{
    lemma_first_at_or_after_from(s, t, 0);
    let p = first_at_or_after(s, t);
    let m = nearest_position(s, t);
    assert forall|k: int| 0 <= k < s.len() implies gap(t, s[m]) <= gap(t, #[trigger] s[k]) by {
        if k < p {
            assert(s[k] <= s[p - 1]);
        } else {
            assert(s[p] <= s[k]);
        }
    }
    if s[m] < t {
        assert forall|k: int| 0 <= k < s.len() && (#[trigger] s[k]) >= t implies gap(t, s[m])
            < gap(t, s[k]) by {
            if k < p {
                assert(s[k] < t);
            } else if p < s.len() {
                assert(s[p] <= s[k]);
            }
        }
    }
}

/// Picks that ascend strictly read an ascending track in ascending order.
pub proof fn lemma_times_at_ascending(times: Seq<i64>, picks: Seq<usize>)
    requires
        ascending(times),
        in_bounds(times, picks),
        forall|a: int, b: int| 0 <= a < b < picks.len() ==> picks[a] < picks[b],
    ensures
        ascending(times_at(times, picks)),
{
    let s = times_at(times, picks);
    assert forall|i: int, j: int| 0 <= i <= j < s.len() implies s[i] <= s[j] by {
        if i < j {
            assert(picks[i] < picks[j]);
        }
    }
}

/// Binary search for the boundary of `t` among the picked time values.
///
/// The result always separates a smaller value on its left from a value that
/// reaches `t` on its right.  Where the picked values ascend, that makes it
/// the first position whose value is at least `t`.
pub fn lower_bound(times: &Vec<i64>, picks: &Vec<usize>, t: i64) -> (p: usize)
    requires
        in_bounds(times@, picks@),
    ensures
        is_boundary(times_at(times@, picks@), t, p as int),
        ascending(times_at(times@, picks@)) ==> p == first_at_or_after(
            times_at(times@, picks@),
            t,
        ),
{
    let ghost s = times_at(times@, picks@);
    let mut left: usize = 0;
    let mut right: usize = picks.len();
    while left < right
        invariant
            in_bounds(times@, picks@),
            s == times_at(times@, picks@),
            left <= right <= picks.len(),
            left > 0 ==> s[left - 1] < t,
            right < s.len() ==> s[right as int] >= t,
        decreases right - left,
    {
        let mid = left + (right - left) / 2;
        if times[picks[mid]] < t {
            left = mid + 1;
        } else {
            right = mid;
        }
    }
    proof {
        if ascending(s) {
            lemma_boundary_is_first(s, t, left as int);
        }
    }
    left
}

/// The distance in time between two instants.
pub fn time_gap(a: i64, b: i64) -> (d: u64)
    ensures
        d == gap(a, b),
{
    if a >= b {
        (a as i128 - b as i128) as u64
    } else {
        (b as i128 - a as i128) as u64
    }
}

/// The picked position of the track that is matched to `t`: the one nearest
/// in time, found by binary search, a tie going to the later position.
///
/// There is a match exactly when there is a pick.  The match is always one
/// of the picks; where the picked time values ascend, it is the pick at
/// `nearest_position`.
pub fn nearest_in_time(times: &Vec<i64>, picks: &Vec<usize>, t: i64) -> (found: Option<usize>)
    requires
        in_bounds(times@, picks@),
    ensures
        found is None <==> picks.len() == 0,
        found matches Some(j) ==> exists|p: int|
            is_boundary(times_at(times@, picks@), t, p) && j == picks[nearest_from_boundary(
                times_at(times@, picks@),
                t,
                p,
            )],
        found matches Some(j) ==> ascending(times_at(times@, picks@)) ==> j
            == picks[nearest_position(times_at(times@, picks@), t)],
{
    if picks.len() == 0 {
        return None;
    }
    let p = lower_bound(times, picks, t);
    let k = if p == 0 {
        0
    } else if p >= picks.len() {
        picks.len() - 1
    } else {
        let before = time_gap(t, times[picks[p - 1]]);
        let after = time_gap(t, times[picks[p]]);
        if before < after {
            p - 1
        } else {
            p
        }
    };
    Some(picks[k])
}

} // verus!
