use pg::match_nearest_point;
use pg::matcher::{match_row, match_times, Pairing, Reason, RowOutcome, TrackMatch, TrackPairRow};
use pg::nearest::{lower_bound, nearest_in_time, time_gap};
use pg::table::{read_track, TrackRecord, TrackTable};
use pg::window::{indices_within, TimeWindow};

fn window(start: i64, end: i64) -> TimeWindow {
    TimeWindow { start, end }
}

fn pair(first: usize, second: usize) -> Pairing {
    Pairing { first, second }
}

fn track(id: i32, times: &[i64]) -> Option<TrackRecord> {
    Some(TrackRecord { id, times: times.to_vec() })
}

fn row(first: i32, second: i32, start: i64, end: i64) -> Option<TrackPairRow> {
    Some(TrackPairRow { first, second, window: window(start, end) })
}

/// The mean planar distance over the matches, and 0.0 where there are none.
fn mean_distance(one: &[(f32, f32)], other: &[(f32, f32)], pairs: &[Pairing]) -> f32 {
    let mut total = 0.0f32;
    let mut count = 0;
    for p in pairs {
        let dx = one[p.first].0 - other[p.second].0;
        let dy = one[p.first].1 - other[p.second].1;
        total += (dx * dx + dy * dy).sqrt();
        count += 1;
    }
    if count > 0 {
        total / count as f32
    } else {
        0.0
    }
}

/// The matching written out with a linear scan for the boundary.
fn scanned_pairs(one: &[i64], other: &[i64], w: &TimeWindow) -> Vec<Pairing> {
    let picks: Vec<usize> = (0..one.len()).filter(|&i| one[i] >= w.start && one[i] <= w.end).collect();
    let others: Vec<usize> =
        (0..other.len()).filter(|&i| other[i] >= w.start && other[i] <= w.end).collect();
    let mut pairs = Vec::new();
    if picks.is_empty() || others.is_empty() {
        return pairs;
    }
    for &i in &picks {
        let t = one[i];
        let mut p = 0;
        while p < others.len() && other[others[p]] < t {
            p += 1;
        }
        let j = if p == 0 {
            others[0]
        } else if p >= others.len() {
            others[others.len() - 1]
        } else {
            let before = others[p - 1];
            let after = others[p];
            if (t - other[before]).abs() < (t - other[after]).abs() {
                before
            } else {
                after
            }
        };
        pairs.push(pair(i, j));
    }
    pairs
}

#[test]
fn window_bounds_are_inclusive() {
    let w = window(2, 5);
    assert!(!w.contains(1));
    assert!(w.contains(2));
    assert!(w.contains(3));
    assert!(w.contains(5));
    assert!(!w.contains(6));
}

#[test]
fn window_with_start_after_end_holds_nothing() {
    let w = window(5, 2);
    assert!(!w.contains(2));
    assert!(!w.contains(3));
    assert!(!w.contains(5));
    assert_eq!(indices_within(&vec![1, 2, 3, 4, 5, 6], &w), Vec::<usize>::new());
}

#[test]
fn indices_within_keeps_order_and_bounds() {
    let times = vec![1, 3, 5, 7, 9];
    assert_eq!(indices_within(&times, &window(3, 7)), vec![1, 2, 3]);
    assert_eq!(indices_within(&times, &window(0, 100)), vec![0, 1, 2, 3, 4]);
    assert_eq!(indices_within(&times, &window(4, 4)), Vec::<usize>::new());
    assert_eq!(indices_within(&times, &window(9, 9)), vec![4]);
    assert_eq!(indices_within(&Vec::new(), &window(0, 10)), Vec::<usize>::new());
}

#[test]
fn indices_within_reads_every_position_of_an_unordered_track() {
    let times = vec![8, 1, 5, 2, 9];
    assert_eq!(indices_within(&times, &window(2, 8)), vec![0, 2, 3]);
}

#[test]
fn indices_within_at_the_ends_of_the_time_range() {
    let times = vec![i64::MIN, -1, 0, i64::MAX];
    assert_eq!(indices_within(&times, &window(i64::MIN, i64::MAX)), vec![0, 1, 2, 3]);
    assert_eq!(indices_within(&times, &window(i64::MIN, i64::MIN)), vec![0]);
    assert_eq!(indices_within(&times, &window(i64::MAX, i64::MAX)), vec![3]);
}

#[test]
fn time_gap_is_the_absolute_difference() {
    assert_eq!(time_gap(5, 0), 5);
    assert_eq!(time_gap(0, 5), 5);
    assert_eq!(time_gap(-3, 4), 7);
    assert_eq!(time_gap(7, 7), 0);
    assert_eq!(time_gap(i64::MAX, i64::MIN), u64::MAX);
    assert_eq!(time_gap(i64::MIN, i64::MAX), u64::MAX);
}

#[test]
fn lower_bound_finds_first_value_not_below() {
    let times = vec![10, 20, 20, 30];
    let picks = vec![0, 1, 2, 3];
    assert_eq!(lower_bound(&times, &picks, 5), 0);
    assert_eq!(lower_bound(&times, &picks, 10), 0);
    assert_eq!(lower_bound(&times, &picks, 11), 1);
    assert_eq!(lower_bound(&times, &picks, 20), 1);
    assert_eq!(lower_bound(&times, &picks, 21), 3);
    assert_eq!(lower_bound(&times, &picks, 30), 3);
    assert_eq!(lower_bound(&times, &picks, 31), 4);
    assert_eq!(lower_bound(&times, &Vec::new(), 31), 0);
}

#[test]
fn lower_bound_searches_the_picks_only() {
    let times = vec![10, 20, 30, 40, 50];
    let picks = vec![1, 3];
    assert_eq!(lower_bound(&times, &picks, 10), 0);
    assert_eq!(lower_bound(&times, &picks, 30), 1);
    assert_eq!(lower_bound(&times, &picks, 45), 2);
}

#[test]
fn tie_goes_to_the_later_point() {
    let times = vec![0, 10];
    let picks = vec![0, 1];
    assert_eq!(nearest_in_time(&times, &picks, 5), Some(1));
}

#[test]
fn earlier_point_wins_only_when_strictly_nearer() {
    let times = vec![0, 10];
    let picks = vec![0, 1];
    assert_eq!(nearest_in_time(&times, &picks, 4), Some(0));
    assert_eq!(nearest_in_time(&times, &picks, 6), Some(1));
    assert_eq!(nearest_in_time(&times, &picks, 0), Some(0));
    assert_eq!(nearest_in_time(&times, &picks, 10), Some(1));
}

#[test]
fn instants_outside_the_track_match_its_ends() {
    let times = vec![10, 20, 30];
    let picks = vec![0, 1, 2];
    assert_eq!(nearest_in_time(&times, &picks, -100), Some(0));
    assert_eq!(nearest_in_time(&times, &picks, 100), Some(2));
    assert_eq!(nearest_in_time(&times, &picks, i64::MIN), Some(0));
    assert_eq!(nearest_in_time(&times, &picks, i64::MAX), Some(2));
}

#[test]
fn nearest_in_time_without_picks_finds_nothing() {
    assert_eq!(nearest_in_time(&vec![1, 2, 3], &Vec::new(), 2), None);
    assert_eq!(nearest_in_time(&Vec::new(), &Vec::new(), 2), None);
}

#[test]
fn nearest_in_time_hands_back_positions_of_the_track() {
    let times = vec![0, 10, 20, 30, 40];
    let picks = vec![2, 3];
    assert_eq!(nearest_in_time(&times, &picks, 0), Some(2));
    assert_eq!(nearest_in_time(&times, &picks, 24), Some(2));
    assert_eq!(nearest_in_time(&times, &picks, 25), Some(3));
    assert_eq!(nearest_in_time(&times, &picks, 40), Some(3));
}

#[test]
fn nearest_in_time_among_equal_time_values() {
    let times = vec![0, 0, 10, 10];
    let picks = vec![0, 1, 2, 3];
    assert_eq!(nearest_in_time(&times, &picks, 4), Some(1));
    assert_eq!(nearest_in_time(&times, &picks, 5), Some(2));
    assert_eq!(nearest_in_time(&times, &picks, 10), Some(2));
    assert_eq!(nearest_in_time(&times, &picks, 0), Some(0));
}

#[test]
fn nearest_in_time_across_the_whole_time_range() {
    let times = vec![i64::MIN, i64::MAX];
    let picks = vec![0, 1];
    assert_eq!(nearest_in_time(&times, &picks, -1), Some(0));
    assert_eq!(nearest_in_time(&times, &picks, 0), Some(1));
}

#[test]
fn end_to_end_example_averages_to_one() {
    let one_times = vec![0, 1];
    let one_points = [(0.0f32, 0.0f32), (1.0, 1.0)];
    let other_times = vec![0, 1];
    let other_points = [(0.0f32, 1.0f32), (1.0, 0.0)];
    let pairs = match_times(&one_times, &other_times, &window(0, 1));
    assert_eq!(pairs, vec![pair(0, 0), pair(1, 1)]);
    let dx = one_points[0].0 - other_points[0].0;
    let dy = one_points[0].1 - other_points[0].1;
    assert_eq!((dx * dx + dy * dy).sqrt(), 1.0);
    let dx = one_points[1].0 - other_points[1].0;
    let dy = one_points[1].1 - other_points[1].1;
    assert_eq!((dx * dx + dy * dy).sqrt(), 1.0);
    assert_eq!(mean_distance(&one_points, &other_points, &pairs), 1.0);
}

#[test]
fn matching_is_not_symmetric() {
    let a_times = vec![0];
    let a_points = [(0.0f32, 0.0f32)];
    let b_times = vec![0, 1];
    let b_points = [(0.0f32, 0.0f32), (3.0, 4.0)];
    let w = window(0, 1);
    let a_to_b = match_times(&a_times, &b_times, &w);
    let b_to_a = match_times(&b_times, &a_times, &w);
    assert_eq!(a_to_b, vec![pair(0, 0)]);
    assert_eq!(b_to_a, vec![pair(0, 0), pair(1, 0)]);
    assert_eq!(mean_distance(&a_points, &b_points, &a_to_b), 0.0);
    assert_eq!(mean_distance(&b_points, &a_points, &b_to_a), 2.5);
}

#[test]
fn mean_distance_is_never_negative() {
    let one_times = vec![0, 2, 4, 6];
    let one_points = [(-1.0f32, -1.0f32), (2.0, -3.0), (0.5, 0.25), (-7.0, 9.0)];
    let other_times = vec![1, 3, 5];
    let other_points = [(4.0f32, -2.0f32), (-3.0, -3.0), (0.0, 0.0)];
    let pairs = match_times(&one_times, &other_times, &window(0, 6));
    assert_eq!(pairs.len(), 4);
    assert!(mean_distance(&one_points, &other_points, &pairs) >= 0.0);
    let same = match_times(&one_times, &one_times, &window(0, 6));
    assert_eq!(same, vec![pair(0, 0), pair(1, 1), pair(2, 2), pair(3, 3)]);
    assert_eq!(mean_distance(&one_points, &one_points, &same), 0.0);
}

#[test]
fn match_times_measures_at_the_nearest_time_not_the_nearest_place() {
    let one_times = vec![10];
    let one_points = [(0.0f32, 0.0f32)];
    let other_times = vec![0, 9];
    let other_points = [(0.0f32, 0.0f32), (30.0, 40.0)];
    let pairs = match_times(&one_times, &other_times, &window(0, 10));
    assert_eq!(pairs, vec![pair(0, 1)]);
    assert_eq!(mean_distance(&one_points, &other_points, &pairs), 50.0);
}

#[test]
fn match_times_only_sees_points_inside_the_window() {
    let one = vec![0, 10, 20, 30, 40];
    let other = vec![5, 19, 21, 100];
    let pairs = match_times(&one, &other, &window(10, 30));
    assert_eq!(pairs, vec![pair(1, 1), pair(2, 2), pair(3, 2)]);
}

#[test]
fn match_times_every_inside_point_of_the_first_track_has_one_match() {
    let one = vec![1, 2, 3, 4, 5, 6, 7];
    let other = vec![4];
    let pairs = match_times(&one, &other, &window(2, 6));
    assert_eq!(pairs, vec![pair(1, 0), pair(2, 0), pair(3, 0), pair(4, 0), pair(5, 0)]);
}

#[test]
fn match_times_without_overlap_gives_no_match() {
    let one = vec![0, 1, 2];
    let other = vec![10, 11];
    assert_eq!(match_times(&one, &other, &window(0, 5)), Vec::new());
    assert_eq!(match_times(&one, &other, &window(10, 11)), Vec::new());
    assert_eq!(match_times(&one, &other, &window(20, 30)), Vec::new());
    assert_eq!(match_times(&one, &other, &window(11, 0)), Vec::new());
    assert_eq!(match_times(&Vec::new(), &other, &window(0, 100)), Vec::new());
    assert_eq!(match_times(&one, &Vec::new(), &window(0, 100)), Vec::new());
}

#[test]
fn match_times_takes_the_first_track_in_any_order() {
    let one = vec![9, 0, 5];
    let other = vec![0, 10];
    let pairs = match_times(&one, &other, &window(0, 10));
    assert_eq!(pairs, vec![pair(0, 1), pair(1, 0), pair(2, 1)]);
}

#[test]
fn match_times_agrees_with_a_linear_scan() {
    let mut seed: u64 = 0x2545_f491_4f6c_dd1d;
    let mut next = |bound: u64| {
        seed ^= seed << 13;
        seed ^= seed >> 7;
        seed ^= seed << 17;
        seed % bound
    };
    for _ in 0..300 {
        let n = next(9) as usize;
        let m = next(9) as usize;
        let mut one: Vec<i64> = (0..n).map(|_| next(40) as i64 - 5).collect();
        let mut other: Vec<i64> = (0..m).map(|_| next(40) as i64 - 5).collect();
        one.sort();
        other.sort();
        let start = next(30) as i64 - 5;
        let w = window(start, start + next(30) as i64);
        assert_eq!(match_times(&one, &other, &w), scanned_pairs(&one, &other, &w));
    }
}

#[test]
fn read_track_drops_a_row_with_a_field_that_could_not_be_read() {
    assert_eq!(
        read_track(Some(3), true, true, Some(vec![1, 2])),
        Some(TrackRecord { id: 3, times: vec![1, 2] })
    );
    assert_eq!(read_track(None, true, true, Some(vec![1, 2])), None);
    assert_eq!(read_track(Some(3), false, true, Some(vec![1, 2])), None);
    assert_eq!(read_track(Some(3), true, false, Some(vec![1, 2])), None);
    assert_eq!(read_track(Some(3), true, true, None), None);
    assert_eq!(read_track(None, false, false, None), None);
}

#[test]
fn table_finds_a_track_by_identifier() {
    let table = TrackTable::build(vec![track(7, &[1, 2]), track(-4, &[5]), track(9, &[])]);
    assert_eq!(table.get(7), Some((0, &TrackRecord { id: 7, times: vec![1, 2] })));
    assert_eq!(table.get(-4), Some((1, &TrackRecord { id: -4, times: vec![5] })));
    assert_eq!(table.get(9), Some((2, &TrackRecord { id: 9, times: vec![] })));
    assert_eq!(table.get(8), None);
    assert_eq!(table.get(0), None);
}

#[test]
fn table_of_no_rows_finds_nothing() {
    let table = TrackTable::build(Vec::new());
    assert_eq!(table.get(0), None);
    assert_eq!(table.get(i32::MIN), None);
}

#[test]
fn table_last_row_of_a_repeated_identifier_wins() {
    let table = TrackTable::build(vec![
        track(1, &[10]),
        track(2, &[20]),
        track(1, &[30, 31]),
        track(2, &[40]),
        track(1, &[50, 51, 52]),
    ]);
    assert_eq!(table.get(1), Some((4, &TrackRecord { id: 1, times: vec![50, 51, 52] })));
    assert_eq!(table.get(2), Some((3, &TrackRecord { id: 2, times: vec![40] })));
}

#[test]
fn table_leaves_out_rows_that_could_not_be_read() {
    let table = TrackTable::build(vec![
        track(1, &[10]),
        None,
        read_track(Some(2), true, false, Some(vec![20])),
        track(3, &[30]),
        read_track(Some(1), false, true, Some(vec![40])),
    ]);
    assert_eq!(table.get(1), Some((0, &TrackRecord { id: 1, times: vec![10] })));
    assert_eq!(table.get(2), None);
    assert_eq!(table.get(3), Some((3, &TrackRecord { id: 3, times: vec![30] })));
}

#[test]
fn row_with_an_unknown_identifier_falls_back() {
    let table = TrackTable::build(vec![track(1, &[0, 1]), track(2, &[0, 1])]);
    let unknown = RowOutcome::Fallback(Reason::UnknownTrack);
    assert_eq!(match_row(&table, &row(1, 3, 0, 1).unwrap()), unknown);
    assert_eq!(match_row(&table, &row(3, 2, 0, 1).unwrap()), unknown);
    assert_eq!(match_row(&table, &row(3, 4, 0, 1).unwrap()), unknown);
    assert_eq!(match_row(&table, &row(3, 4, 5, 1).unwrap()), unknown);
}

#[test]
fn row_without_points_inside_the_window_falls_back() {
    let table = TrackTable::build(vec![track(1, &[0, 1]), track(2, &[5, 6]), track(3, &[])]);
    let empty = RowOutcome::Fallback(Reason::EmptyOverlap);
    assert_eq!(match_row(&table, &row(1, 2, 0, 1).unwrap()), empty);
    assert_eq!(match_row(&table, &row(1, 2, 5, 6).unwrap()), empty);
    assert_eq!(match_row(&table, &row(1, 2, 2, 4).unwrap()), empty);
    assert_eq!(match_row(&table, &row(1, 3, 0, 9).unwrap()), empty);
    assert_eq!(match_row(&table, &row(1, 1, 1, 0).unwrap()), empty);
}

#[test]
fn row_with_overlap_is_matched() {
    let table = TrackTable::build(vec![track(10, &[0, 1]), None, track(20, &[0, 1])]);
    assert_eq!(
        match_row(&table, &row(10, 20, 0, 1).unwrap()),
        RowOutcome::Matched(TrackMatch {
            first_row: 0,
            second_row: 2,
            pairs: vec![pair(0, 0), pair(1, 1)],
        })
    );
    assert_eq!(
        match_row(&table, &row(20, 10, 1, 1).unwrap()),
        RowOutcome::Matched(TrackMatch { first_row: 2, second_row: 0, pairs: vec![pair(1, 1)] })
    );
}

#[test]
fn row_may_match_a_track_against_itself() {
    let table = TrackTable::build(vec![track(5, &[3, 6, 9])]);
    assert_eq!(
        match_row(&table, &row(5, 5, 4, 9).unwrap()),
        RowOutcome::Matched(TrackMatch {
            first_row: 0,
            second_row: 0,
            pairs: vec![pair(1, 1), pair(2, 2)],
        })
    );
}

#[test]
fn batch_outcomes_keep_the_order_of_the_rows() {
    let table = TrackTable::build(vec![
        track(1, &[0, 10]),
        track(2, &[5]),
        track(3, &[100]),
        track(2, &[4, 6]),
    ]);
    let rows = vec![
        row(1, 2, 0, 10),
        None,
        row(1, 9, 0, 10),
        row(1, 3, 0, 10),
        row(2, 1, 0, 10),
        row(3, 3, 100, 100),
    ];
    let outcomes = match_nearest_point(&table, &rows);
    assert_eq!(
        outcomes,
        vec![
            RowOutcome::Matched(TrackMatch {
                first_row: 0,
                second_row: 3,
                pairs: vec![pair(0, 0), pair(1, 1)],
            }),
            RowOutcome::Fallback(Reason::Undecoded),
            RowOutcome::Fallback(Reason::UnknownTrack),
            RowOutcome::Fallback(Reason::EmptyOverlap),
            RowOutcome::Matched(TrackMatch {
                first_row: 3,
                second_row: 0,
                pairs: vec![pair(0, 0), pair(1, 1)],
            }),
            RowOutcome::Matched(TrackMatch { first_row: 2, second_row: 2, pairs: vec![pair(0, 0)] }),
        ]
    );
}

#[test]
fn batch_rows_do_not_depend_on_each_other() {
    let table = TrackTable::build(vec![track(1, &[0, 10]), track(2, &[4, 6])]);
    let alone = match_nearest_point(&table, &vec![row(1, 2, 0, 10)]);
    let among = match_nearest_point(
        &table,
        &vec![row(2, 1, 0, 3), None, row(1, 2, 0, 10), row(7, 7, 0, 10)],
    );
    assert_eq!(alone.len(), 1);
    assert_eq!(among.len(), 4);
    assert_eq!(alone[0], among[2]);
    assert_eq!(match_nearest_point(&table, &Vec::new()), Vec::new());
}

#[test]
fn batch_outcomes_collapse_to_numbers() {
    let points = [
        vec![(0.0f32, 0.0f32), (1.0, 1.0)],
        vec![(0.0f32, 1.0f32), (1.0, 0.0)],
    ];
    let table = TrackTable::build(vec![track(1, &[0, 1]), track(2, &[0, 1])]);
    let rows = vec![row(1, 2, 0, 1), row(1, 5, 0, 1), None, row(1, 2, 7, 9)];
    let numbers: Vec<f32> = match_nearest_point(&table, &rows)
        .iter()
        .map(|outcome| match outcome {
            RowOutcome::Matched(m) => {
                mean_distance(&points[m.first_row], &points[m.second_row], &m.pairs)
            },
            RowOutcome::Fallback(_) => 0.0,
        })
        .collect();
    assert_eq!(numbers, vec![1.0, 0.0, 0.0, 0.0]);
}
