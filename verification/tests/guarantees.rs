use sweep_line::sweep::assign;

fn some(values: &[i64]) -> Vec<Option<i64>> {
    values.iter().map(|v| Some(*v)).collect()
}

fn conflict(s: &[Option<i64>], e: &[Option<i64>], overlapping: bool, i: usize, j: usize) -> bool {
    match (s[i], e[i], s[j], e[j]) {
        (Some(si), Some(ei), Some(sj), Some(ej)) => {
            if overlapping {
                si.max(sj) <= ei.min(ej)
            } else {
                si.max(sj) < ei.min(ej)
            }
        },
        _ => false,
    }
}

fn open_at(s: &[Option<i64>], e: &[Option<i64>], overlapping: bool, t: i64) -> usize {
    let mut count = 0;
    for i in 0..s.len() {
        if let (Some(si), Some(ei)) = (s[i], e[i]) {
            if si <= t && (t < ei || (overlapping && t == ei)) {
                count += 1;
            }
        }
    }
    count
}

fn peak(s: &[Option<i64>], e: &[Option<i64>], overlapping: bool) -> usize {
    let mut best = 0;
    for t in s.iter().flatten() {
        best = best.max(open_at(s, e, overlapping, *t));
    }
    best
}

fn rooms_used(s: &[Option<i64>], e: &[Option<i64>], rooms: &[u32]) -> usize {
    let mut used = std::collections::HashSet::new();
    for i in 0..rooms.len() {
        if s[i].is_some() && e[i].is_some() {
            used.insert(rooms[i]);
        }
    }
    used.len()
}

fn sample() -> (Vec<Option<i64>>, Vec<Option<i64>>) {
    let starts = vec![
        Some(0),
        Some(3),
        None,
        Some(3),
        Some(7),
        Some(8),
        Some(1),
        Some(12),
        Some(10),
        Some(4),
    ];
    let ends = vec![
        Some(3),
        Some(7),
        Some(5),
        Some(10),
        Some(8),
        None,
        Some(12),
        Some(13),
        Some(12),
        Some(5),
    ];
    (starts, ends)
}

#[test]
fn shared_rooms_never_conflict() {
    let (starts, ends) = sample();
    for overlapping in [false, true] {
        let rooms = assign(&starts, &ends, overlapping).unwrap();
        for i in 0..rooms.len() {
            for j in 0..rooms.len() {
                if i != j && conflict(&starts, &ends, overlapping, i, j) {
                    assert_ne!(rooms[i], rooms[j]);
                }
            }
        }
    }
}

#[test]
fn sample_rooms_are_exact() {
    let (starts, ends) = sample();
    assert_eq!(assign(&starts, &ends, false), Ok(vec![1, 1, 0, 3, 1, 0, 2, 1, 1, 4]));
    assert_eq!(assign(&starts, &ends, true), Ok(vec![1, 3, 0, 4, 1, 0, 2, 3, 1, 1]));
}

#[test]
fn rooms_used_equal_the_peak() {
    let (starts, ends) = sample();
    for overlapping in [false, true] {
        let rooms = assign(&starts, &ends, overlapping).unwrap();
        assert_eq!(rooms_used(&starts, &ends, &rooms), peak(&starts, &ends, overlapping));
    }
    let rooms = assign(&starts, &ends, false).unwrap();
    assert_eq!(rooms_used(&starts, &ends, &rooms), 4);
    let rooms = assign(&starts, &ends, true).unwrap();
    assert_eq!(rooms_used(&starts, &ends, &rooms), 4);
}

#[test]
fn touching_chain_needs_one_room_or_two() {
    let starts = some(&[0, 10, 20, 30]);
    let ends = some(&[10, 20, 30, 40]);
    assert_eq!(assign(&starts, &ends, false), Ok(vec![1, 1, 1, 1]));
    assert_eq!(assign(&starts, &ends, true), Ok(vec![1, 2, 1, 2]));
}

#[test]
fn present_intervals_get_rooms_from_one() {
    let (starts, ends) = sample();
    for overlapping in [false, true] {
        let rooms = assign(&starts, &ends, overlapping).unwrap();
        for i in 0..rooms.len() {
            if starts[i].is_some() && ends[i].is_some() {
                assert!(rooms[i] >= 1);
            }
        }
    }
}

#[test]
fn same_input_same_output() {
    let (starts, ends) = sample();
    for overlapping in [false, true] {
        let first = assign(&starts, &ends, overlapping);
        let second = assign(&starts, &ends, overlapping);
        assert_eq!(first, second);
    }
}

#[test]
fn output_is_as_long_as_the_input() {
    let (starts, ends) = sample();
    assert_eq!(assign(&starts, &ends, false).unwrap().len(), starts.len());
    assert_eq!(assign(&starts, &ends, true).unwrap().len(), starts.len());
}

#[test]
fn missing_endpoint_gives_room_zero() {
    let starts: Vec<Option<i64>> = vec![Some(10), None, Some(20), Some(30), None];
    let ends: Vec<Option<i64>> = vec![Some(20), Some(5), Some(30), None, None];
    assert_eq!(assign(&starts, &ends, false), Ok(vec![1, 0, 1, 0, 0]));
    assert_eq!(assign(&starts, &ends, true), Ok(vec![1, 0, 2, 0, 0]));
}

#[test]
fn missing_endpoint_leaves_the_others_alone() {
    let (starts, ends) = sample();
    for overlapping in [false, true] {
        let with = assign(&starts, &ends, overlapping).unwrap();
        for p in [2usize, 5] {
            let mut fewer_starts = starts.clone();
            let mut fewer_ends = ends.clone();
            fewer_starts.remove(p);
            fewer_ends.remove(p);
            let mut expected = with.clone();
            expected.remove(p);
            assert_eq!(assign(&fewer_starts, &fewer_ends, overlapping), Ok(expected));
        }
    }
}

#[test]
fn all_missing_gives_all_zero() {
    let starts: Vec<Option<i64>> = vec![None, Some(1), None];
    let ends: Vec<Option<i64>> = vec![Some(4), None, None];
    assert_eq!(assign(&starts, &ends, false), Ok(vec![0, 0, 0]));
}

#[test]
fn every_interval_takes_the_first_room_that_fits() {
    let (starts, ends) = sample();
    for overlapping in [false, true] {
        let rooms = assign(&starts, &ends, overlapping).unwrap();
        for i in 0..rooms.len() {
            let (si, _) = match (starts[i], ends[i]) {
                (Some(s), Some(e)) => (s, e),
                _ => continue,
            };
            let mut taken = std::collections::HashSet::new();
            for j in 0..rooms.len() {
                if let (Some(sj), Some(ej)) = (starts[j], ends[j]) {
                    let before = sj < si || (sj == si && j < i);
                    let still = if overlapping { si <= ej } else { si < ej };
                    if j != i && before && still {
                        taken.insert(rooms[j]);
                    }
                }
            }
            let mut first = 1u32;
            while taken.contains(&first) {
                first += 1;
            }
            assert_eq!(rooms[i], first);
        }
    }
}

#[test]
fn rooms_in_use_are_consecutive() {
    let (starts, ends) = sample();
    for overlapping in [false, true] {
        let rooms = assign(&starts, &ends, overlapping).unwrap();
        let mut used: Vec<u32> = rooms.iter().copied().filter(|r| *r != 0).collect();
        used.sort();
        used.dedup();
        assert_eq!(used, vec![1, 2, 3, 4]);
    }
}
