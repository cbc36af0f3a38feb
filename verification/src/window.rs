//! Overlap windows and the positions of a track that fall inside one.

use vstd::prelude::*;

verus! {

/// A closed interval of time values, both bounds inclusive.
///
/// A window whose `start` lies after its `end` holds no time value at all.
#[derive(Clone, Copy, Debug, PartialEq, Eq)]
pub struct TimeWindow {
    pub start: i64,
    pub end: i64,
}

impl TimeWindow {
    /// Whether `t` lies inside the window.
    pub open spec fn holds(self, t: i64) -> bool {
        self.start <= t <= self.end
    }

    /// Whether `t` lies inside the window.
    pub fn contains(&self, t: i64) -> (inside: bool)
        ensures
            inside == self.holds(t),
    {
        self.start <= t && t <= self.end
    }
}

/// The positions below `n` whose time value lies inside `window`, in
/// ascending order.
pub open spec fn selected_upto(times: Seq<i64>, window: TimeWindow, n: int) -> Seq<usize>
    decreases n,
{
    if n <= 0 {
        Seq::empty()
    } else {
        let earlier = selected_upto(times, window, n - 1);
        if window.holds(times[n - 1]) {
            earlier.push((n - 1) as usize)
        } else {
            earlier
        }
    }
}

/// The positions of `times` whose time value lies inside `window`, in
/// ascending order.
pub open spec fn selected(times: Seq<i64>, window: TimeWindow) -> Seq<usize> {
    selected_upto(times, window, times.len() as int)
}

/// `picks` lists, in strictly ascending order and without gaps, exactly the
/// positions below `n` whose time value lies inside `window`.
pub open spec fn is_selection_below(
    times: Seq<i64>,
    window: TimeWindow,
    n: int,
    picks: Seq<usize>,
) -> bool {
    &&& forall|k: int| 0 <= k < picks.len() ==> (#[trigger] picks[k]) < n
    &&& forall|k: int| 0 <= k < picks.len() ==> window.holds(times[(#[trigger] picks[k]) as int])
    &&& forall|a: int, b: int| 0 <= a < b < picks.len() ==> picks[a] < picks[b]
    &&& forall|i: int|
        0 <= i < n && window.holds(#[trigger] times[i]) ==> exists|k: int|
            0 <= k < picks.len() && picks[k] == i
}

/// `picks` lists, in strictly ascending order and without gaps, exactly the
/// positions of `times` whose time value lies inside `window`.
pub open spec fn is_selection(times: Seq<i64>, window: TimeWindow, picks: Seq<usize>) -> bool {
    is_selection_below(times, window, times.len() as int, picks)
}

/// The recursive definition meets the direct description: `selected_upto`
/// lists exactly the positions below `n` that are inside the window, and
/// lists them in strictly ascending order.
pub proof fn lemma_selected_upto(times: Seq<i64>, window: TimeWindow, n: int)
    requires
        0 <= n <= times.len() <= usize::MAX,
    ensures
        is_selection_below(times, window, n, selected_upto(times, window, n)),
        selected_upto(times, window, n).len() <= n,
    decreases n,
{
    if n > 0 {
        lemma_selected_upto(times, window, n - 1);
        let earlier = selected_upto(times, window, n - 1);
        let now = selected_upto(times, window, n);
        assert forall|i: int| 0 <= i < n && window.holds(#[trigger] times[i]) implies exists|
            k: int,
        |
            0 <= k < now.len() && now[k] == i by {
            if i < n - 1 {
                let k = choose|k: int| 0 <= k < earlier.len() && earlier[k] == i;
                assert(now[k] == i);
            } else {
                assert(now[now.len() - 1] == i);
            }
        }
    }
}

/// The selection of a window lists exactly the positions inside it.
pub proof fn lemma_selected_is_selection(times: Seq<i64>, window: TimeWindow)
    requires
        times.len() <= usize::MAX,
    ensures
        is_selection(times, window, selected(times, window)),
        selected(times, window).len() <= times.len(),
{
    lemma_selected_upto(times, window, times.len() as int);
}

/// Collects the positions of `times` whose time value lies inside `window`,
/// keeping their order.
pub fn indices_within(times: &Vec<i64>, window: &TimeWindow) -> (picks: Vec<usize>)
    ensures
        picks@ == selected(times@, *window),
        is_selection(times@, *window, picks@),
        picks.len() <= times.len(),
{
    let mut picks: Vec<usize> = Vec::new();
    let mut i: usize = 0;
    while i < times.len()
        invariant
            i <= times.len(),
            picks@ == selected_upto(times@, *window, i as int),
        decreases times.len() - i,
    {
        if window.contains(times[i]) {
            picks.push(i);
        }
        i += 1;
    }
    proof {
        lemma_selected_is_selection(times@, *window);
    }
    picks
}

} // verus!
