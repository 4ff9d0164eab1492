use sweep_line::coordinate::Coordinate;
use sweep_line::error::AssignError;
use sweep_line::error::ShapeFault;
use sweep_line::event::build_events;
use sweep_line::event::Event;
use sweep_line::pool::FreePool;
use sweep_line::sorting::served_no_later;
use sweep_line::sorting::sort_events;
use sweep_line::sweep::sweep;

fn triples<T: Copy>(events: &[Event<T>]) -> Vec<(T, u8, usize)> {
    events.iter().map(|e| (e.time, e.priority, e.index)).collect()
}

#[test]
fn integers_precede_as_they_are_ordered() {
    assert!((-3i8).precedes(&2));
    assert!(!2i8.precedes(&2));
    assert!(!3i16.precedes(&-4));
    assert!(i32::MIN.precedes(&i32::MAX));
    assert!((-1i64).precedes(&0));
    assert!(0u8.precedes(&255));
    assert!(!9u16.precedes(&9));
    assert!(7u32.precedes(&8));
    assert!(!u64::MAX.precedes(&(u64::MAX - 1)));
    assert!((1u64 << 63).precedes(&u64::MAX));
}

#[test]
fn events_come_in_pairs_with_departures_first() {
    let starts: Vec<Option<i32>> = vec![Some(10), None, Some(20)];
    let ends: Vec<Option<i32>> = vec![Some(20), Some(7), Some(30)];
    let events = build_events(&starts, &ends, false).unwrap();
    assert_eq!(triples(&events), vec![(10, 1, 0), (20, 0, 0), (20, 1, 2), (30, 0, 2)]);
}

#[test]
fn events_come_in_pairs_with_arrivals_first() {
    let starts: Vec<Option<i32>> = vec![Some(10), Some(3), Some(20)];
    let ends: Vec<Option<i32>> = vec![Some(20), None, Some(30)];
    let events = build_events(&starts, &ends, true).unwrap();
    assert_eq!(triples(&events), vec![(10, 0, 0), (20, 1, 0), (20, 0, 2), (30, 1, 2)]);
}

#[test]
fn no_events_without_both_endpoints() {
    let starts: Vec<Option<u8>> = vec![None, Some(1), None];
    let ends: Vec<Option<u8>> = vec![Some(2), None, None];
    assert!(build_events(&starts, &ends, false).unwrap().is_empty());
}

#[test]
fn events_are_refused_with_the_batch() {
    let starts: Vec<Option<i32>> = vec![Some(1), Some(9)];
    let ends: Vec<Option<i32>> = vec![Some(2), Some(8)];
    assert_eq!(build_events(&starts, &ends, true).err(), Some(AssignError::InvalidInterval));
    let short: Vec<Option<i32>> = vec![Some(2)];
    assert_eq!(
        build_events(&starts, &short, true).err(),
        Some(AssignError::ArgumentShape(ShapeFault::LengthMismatch))
    );
}

#[test]
fn an_interval_of_one_instant_is_no_reversed_interval() {
    let starts: Vec<Option<i32>> = vec![Some(4)];
    let ends: Vec<Option<i32>> = vec![Some(4)];
    let events = build_events(&starts, &ends, false).unwrap();
    assert_eq!(triples(&events), vec![(4, 1, 0), (4, 0, 0)]);
}

#[test]
fn service_order_is_time_then_priority_then_index() {
    let a = Event { time: 5i64, priority: 1, index: 0 };
    let b = Event { time: 6i64, priority: 0, index: 0 };
    let c = Event { time: 5i64, priority: 0, index: 9 };
    let d = Event { time: 5i64, priority: 1, index: 3 };
    assert!(served_no_later(&a, &b));
    assert!(!served_no_later(&b, &a));
    assert!(served_no_later(&c, &a));
    assert!(!served_no_later(&a, &c));
    assert!(served_no_later(&a, &d));
    assert!(!served_no_later(&d, &a));
    assert!(served_no_later(&a, &a));
}

#[test]
fn sorting_orders_the_events() {
    let events = vec![
        Event { time: 10i64, priority: 1, index: 0 },
        Event { time: 20, priority: 0, index: 0 },
        Event { time: 20, priority: 1, index: 1 },
        Event { time: 30, priority: 0, index: 1 },
        Event { time: 5, priority: 1, index: 2 },
        Event { time: 20, priority: 0, index: 2 },
        Event { time: 5, priority: 1, index: 3 },
        Event { time: 5, priority: 0, index: 4 },
    ];
    let sorted = sort_events(events);
    assert_eq!(
        triples(&sorted),
        vec![
            (5, 0, 4),
            (5, 1, 2),
            (5, 1, 3),
            (10, 1, 0),
            (20, 0, 0),
            (20, 0, 2),
            (20, 1, 1),
            (30, 0, 1)
        ]
    );
}

#[test]
fn sorting_nothing_and_one_event() {
    let none: Vec<Event<u8>> = Vec::new();
    assert!(sort_events(none).is_empty());
    let one = vec![Event { time: 3u8, priority: 0, index: 7 }];
    assert_eq!(triples(&sort_events(one)), vec![(3, 0, 7)]);
}

#[test]
fn sorting_many_events() {
    let mut events = Vec::new();
    for i in 0..200usize {
        let time = ((i * 37) % 101) as u32;
        events.push(Event { time, priority: (i % 2) as u8, index: i });
    }
    let mut expected = triples(&events);
    expected.sort();
    assert_eq!(triples(&sort_events(events)), expected);
}

#[test]
fn pool_gives_the_smallest_first() {
    let mut pool = FreePool::new();
    assert!(pool.is_empty());
    assert_eq!(pool.pop(), None);
    for id in [5u32, 3, 8, 1, 9, 2, 3] {
        pool.push(id);
    }
    assert_eq!(pool.len(), 7);
    assert!(!pool.is_empty());
    let mut out = Vec::new();
    while let Some(id) = pool.pop() {
        out.push(id);
    }
    assert_eq!(out, vec![1, 2, 3, 3, 5, 8, 9]);
    assert!(pool.is_empty());
    assert_eq!(pool.len(), 0);
}

#[test]
fn pool_between_pushes_and_pops() {
    let mut pool = FreePool::new();
    pool.push(4);
    pool.push(2);
    assert_eq!(pool.pop(), Some(2));
    pool.push(1);
    pool.push(7);
    assert_eq!(pool.pop(), Some(1));
    assert_eq!(pool.pop(), Some(4));
    pool.push(0);
    assert_eq!(pool.pop(), Some(0));
    assert_eq!(pool.pop(), Some(7));
    assert_eq!(pool.pop(), None);
}

#[test]
fn pool_with_many_rooms() {
    let mut pool = FreePool::new();
    let mut expected = Vec::new();
    for i in 0..500u32 {
        let id = (i * 7919) % 263;
        pool.push(id);
        expected.push(id);
    }
    expected.sort();
    let mut out = Vec::new();
    while let Some(id) = pool.pop() {
        out.push(id);
    }
    assert_eq!(out, expected);
}

#[test]
fn messages_say_what_was_wrong() {
    assert_eq!(AssignError::InvalidInterval.message(), "End time before start time");
    assert_eq!(
        AssignError::ArgumentShape(ShapeFault::ArgumentCount).message(),
        "Required 2 arguments (start, end)"
    );
    assert_eq!(
        AssignError::ArgumentShape(ShapeFault::TypeMismatch).message(),
        "Physical dtypes must match"
    );
    assert_eq!(
        AssignError::ArgumentShape(ShapeFault::UnsupportedType).message(),
        "Unsupported physical type"
    );
    assert_eq!(
        AssignError::ArgumentShape(ShapeFault::LengthMismatch).message(),
        "Start and end must have equal length"
    );
}

#[test]
fn sweep_serves_events_as_given() {
    let sorted = vec![
        Event { time: 10i64, priority: 1, index: 0 },
        Event { time: 20, priority: 0, index: 0 },
        Event { time: 20, priority: 1, index: 1 },
        Event { time: 30, priority: 0, index: 1 },
    ];
    assert_eq!(sweep(&sorted, 2, false), vec![1, 1]);
    assert_eq!(sweep(&sorted, 3, false), vec![1, 1, 0]);

    let arrivals_first = vec![
        Event { time: 10i64, priority: 1, index: 0 },
        Event { time: 20, priority: 1, index: 1 },
        Event { time: 20, priority: 0, index: 0 },
        Event { time: 30, priority: 0, index: 1 },
    ];
    assert_eq!(sweep(&arrivals_first, 2, false), vec![1, 2]);
}

#[test]
fn sweep_of_nothing() {
    let none: Vec<Event<i64>> = Vec::new();
    assert_eq!(sweep(&none, 0, true), Vec::<u32>::new());
    assert_eq!(sweep(&none, 3, true), vec![0, 0, 0]);
}

#[test]
fn sweep_reads_the_priority_by_the_mode() {
    // With touching intervals in conflict, priority 0 is the arrival.
    let events = vec![
        Event { time: 1u8, priority: 0, index: 1 },
        Event { time: 2, priority: 0, index: 0 },
        Event { time: 3, priority: 1, index: 1 },
        Event { time: 4, priority: 0, index: 2 },
        Event { time: 5, priority: 1, index: 0 },
        Event { time: 6, priority: 1, index: 2 },
    ];
    assert_eq!(sweep(&events, 3, true), vec![2, 1, 1]);
}
