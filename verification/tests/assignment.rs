use polars::prelude::ChunkedArray;
use polars::prelude::DataType;
use polars::prelude::Int64Type;
use polars::prelude::NamedFrom;
use polars::prelude::PlSmallStr;
use polars::prelude::Series;
use polars::prelude::TimeUnit;
use sweep_line::error::AssignError;
use sweep_line::error::ShapeFault;
use sweep_line::sweep::assign;

fn all<T: Copy>(values: &[T]) -> Vec<Option<T>> {
    values.iter().map(|v| Some(*v)).collect()
}

fn column_values(ca: &ChunkedArray<Int64Type>) -> Vec<Option<i64>> {
    ca.iter().collect()
}

#[test]
fn test_overlap_logic() {
    // [10, 20] and [20, 30]
    let start: Vec<Option<i64>> = all(&[10, 20]);
    let end: Vec<Option<i64>> = all(&[20, 30]);

    // Touching intervals share a room: the room is free again at tick 20.
    let res_f = assign(&start, &end, false).unwrap();
    assert_eq!(res_f, vec![1, 1]);

    // Touching intervals conflict: a new room is needed at tick 20.
    let res_t = assign(&start, &end, true).unwrap();
    assert_eq!(res_t, vec![1, 2]);
}

#[test]
fn test_datetime_to_physical() {
    let s_start = Series::new(PlSmallStr::from_static("s"), &[1735689600000i64])
        .cast(&DataType::Datetime(TimeUnit::Milliseconds, None))
        .unwrap();
    let s_end = Series::new(PlSmallStr::from_static("e"), &[1735689601000i64])
        .cast(&DataType::Datetime(TimeUnit::Milliseconds, None))
        .unwrap();

    let p_start = s_start.to_physical_repr();
    let p_end = s_end.to_physical_repr();

    let ca_start = column_values(p_start.i64().unwrap());
    let ca_end = column_values(p_end.i64().unwrap());
    assert_eq!(ca_start, vec![Some(1735689600000i64)]);
    assert_eq!(ca_end, vec![Some(1735689601000i64)]);

    let res = assign(&ca_start, &ca_end, false).unwrap();
    assert_eq!(res, vec![1]);
}

#[test]
fn test_hard_interval_case() {
    // Chains of intervals that can follow each other in one room, mixed with
    // long intervals that block a room each.
    let starts: Vec<u32> = vec![1, 2, 3, 10, 11, 12, 20, 21, 22, 5, 15, 25, 30, 31, 32];
    let ends: Vec<u32> = vec![9, 9, 9, 19, 19, 19, 29, 29, 29, 35, 35, 35, 40, 40, 40];

    let ca_start = all(&starts);
    let ca_end = all(&ends);

    let res = assign(&ca_start, &ca_end, false).unwrap();

    assert_eq!(res.len(), 15);

    for i in 0..15 {
        for j in i + 1..15 {
            if res[i] == res[j] {
                let overlap = starts[i].max(starts[j]) < ends[i].min(ends[j]);
                assert!(
                    !overlap,
                    "Room {} shared by overlapping intervals {} and {}",
                    res[i], i, j
                );
            }
        }
    }

    let unique_rooms: std::collections::HashSet<_> = res.iter().collect();
    assert!(
        unique_rooms.len() <= 6,
        "Inefficient room allocation detected"
    );
    assert_eq!(res, vec![1, 2, 3, 1, 2, 3, 1, 2, 3, 4, 5, 6, 1, 2, 3]);
}

#[test]
fn hard_case_with_touching_conflicts() {
    let starts: Vec<Option<u32>> =
        all(&[1, 2, 3, 10, 11, 12, 20, 21, 22, 5, 15, 25, 30, 31, 32]);
    let ends: Vec<Option<u32>> =
        all(&[9, 9, 9, 19, 19, 19, 29, 29, 29, 35, 35, 35, 40, 40, 40]);
    let res = assign(&starts, &ends, true).unwrap();
    assert_eq!(res, vec![1, 2, 3, 1, 2, 3, 1, 2, 3, 4, 5, 6, 1, 2, 3]);
}

#[test]
fn empty_batch_gets_no_rooms() {
    let none: Vec<Option<i32>> = Vec::new();
    assert_eq!(assign(&none, &none, false), Ok(Vec::new()));
    assert_eq!(assign(&none, &none, true), Ok(Vec::new()));
}

#[test]
fn smallest_released_room_is_taken_first() {
    let starts: Vec<Option<i32>> = all(&[0, 1, 2, 5]);
    let ends: Vec<Option<i32>> = all(&[10, 3, 4, 6]);
    assert_eq!(assign(&starts, &ends, false), Ok(vec![1, 2, 3, 2]));
}

#[test]
fn rooms_follow_time_not_position() {
    let starts: Vec<Option<i16>> = all(&[3, 1, 2]);
    let ends: Vec<Option<i16>> = all(&[4, 2, 3]);
    assert_eq!(assign(&starts, &ends, false), Ok(vec![1, 1, 1]));
    assert_eq!(assign(&starts, &ends, true), Ok(vec![1, 1, 2]));
}

#[test]
fn equal_intervals_are_served_by_index() {
    let starts: Vec<Option<u8>> = all(&[1, 1, 1]);
    let ends: Vec<Option<u8>> = all(&[2, 2, 2]);
    assert_eq!(assign(&starts, &ends, false), Ok(vec![1, 2, 3]));
}

#[test]
fn mixed_batch_in_both_modes() {
    let starts: Vec<Option<u16>> = all(&[0, 0, 4, 4, 8]);
    let ends: Vec<Option<u16>> = all(&[4, 8, 8, 6, 9]);
    assert_eq!(assign(&starts, &ends, false), Ok(vec![1, 2, 1, 3, 1]));
    assert_eq!(assign(&starts, &ends, true), Ok(vec![1, 2, 3, 4, 1]));
}

#[test]
fn signed_bytes_down_to_the_lowest() {
    let starts: Vec<Option<i8>> = all(&[-128, -5, 0, 100]);
    let ends: Vec<Option<i8>> = all(&[-5, 0, 127, 127]);
    assert_eq!(assign(&starts, &ends, false), Ok(vec![1, 1, 1, 2]));
    assert_eq!(assign(&starts, &ends, true), Ok(vec![1, 2, 1, 2]));
}

#[test]
fn unsigned_words_up_to_the_highest() {
    let starts: Vec<Option<u64>> = all(&[1u64 << 63, 0, u64::MAX - 1]);
    let ends: Vec<Option<u64>> = all(&[u64::MAX, 1u64 << 63, u64::MAX]);
    assert_eq!(assign(&starts, &ends, false), Ok(vec![1, 1, 2]));
}

#[test]
fn later_interval_after_three_long_ones() {
    let starts: Vec<Option<i64>> = all(&[1, 2, 3, 5]);
    let ends: Vec<Option<i64>> = all(&[9, 9, 9, 35]);
    assert_eq!(assign(&starts, &ends, false), Ok(vec![1, 2, 3, 4]));
}

#[test]
fn end_before_start_fails_the_whole_batch() {
    let starts: Vec<Option<i64>> = all(&[1, 2, 3, 5, 5]);
    let ends: Vec<Option<i64>> = all(&[9, 9, 9, 35, 3]);
    assert_eq!(assign(&starts, &ends, false), Err(AssignError::InvalidInterval));
    assert_eq!(assign(&starts, &ends, true), Err(AssignError::InvalidInterval));

    let starts: Vec<Option<i64>> = all(&[5, 1]);
    let ends: Vec<Option<i64>> = all(&[3, 2]);
    assert_eq!(assign(&starts, &ends, false), Err(AssignError::InvalidInterval));
}

#[test]
fn end_before_start_is_ignored_without_both_endpoints() {
    let starts: Vec<Option<i64>> = vec![Some(5), None, Some(1)];
    let ends: Vec<Option<i64>> = vec![None, Some(3), Some(2)];
    assert_eq!(assign(&starts, &ends, false), Ok(vec![0, 0, 1]));
}

#[test]
fn columns_of_different_length_are_refused() {
    let starts: Vec<Option<i64>> = all(&[1, 2]);
    let ends: Vec<Option<i64>> = all(&[9]);
    assert_eq!(
        assign(&starts, &ends, false),
        Err(AssignError::ArgumentShape(ShapeFault::LengthMismatch))
    );
    assert_eq!(
        assign(&ends, &starts, true),
        Err(AssignError::ArgumentShape(ShapeFault::LengthMismatch))
    );
}

#[test]
fn length_is_checked_before_the_intervals() {
    let starts: Vec<Option<i64>> = all(&[5, 2]);
    let ends: Vec<Option<i64>> = all(&[3]);
    assert_eq!(
        assign(&starts, &ends, false),
        Err(AssignError::ArgumentShape(ShapeFault::LengthMismatch))
    );
}

#[test]
fn empty_interval_when_touching_conflicts() {
    let starts: Vec<Option<i64>> = all(&[5]);
    let ends: Vec<Option<i64>> = all(&[5]);
    assert_eq!(assign(&starts, &ends, true), Ok(vec![1]));
}

#[test]
fn empty_interval_departs_before_it_arrives() {
    // Where touching intervals share a room, departures are served first at
    // an instant, also the departure of an interval that arrives at the
    // same instant: it releases room 0 and takes it back.
    let starts: Vec<Option<i64>> = all(&[5]);
    let ends: Vec<Option<i64>> = all(&[5]);
    assert_eq!(assign(&starts, &ends, false), Ok(vec![0]));

    let starts: Vec<Option<i64>> = all(&[5, 5, 5, 5]);
    let ends: Vec<Option<i64>> = all(&[9, 9, 5, 5]);
    assert_eq!(assign(&starts, &ends, false), Ok(vec![0, 0, 1, 2]));
}
