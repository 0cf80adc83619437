use rotala::clock::{ClockBuilder, ClockInner, DateTime};

#[test]
fn test_that_there_isnt_next_when_tick_at_end() {
    let mut clock = ClockBuilder::from_fixed(1.into(), 3.into()).every_second();
    assert!(clock.has_next() == true);
    clock.tick();

    clock.tick();
    assert!(clock.has_next() == false);
}

#[test]
fn test_that_clock_created_from_fixed_peeks_correctly() {
    let start = 1;
    let end = start + (3 * 86400);
    let clock = ClockBuilder::from_fixed(start.into(), end.into()).daily();
    let mut dates: Vec<i64> = Vec::new();
    for date in clock.peek() {
        dates.push(i64::from(date));
    }
    assert!(dates == vec![1, 86401, 172801, 259201]);
}

#[test]
fn test_that_clock_created_from_length_peeks_correctly() {
    //Should run for the length given + 1
    let clock = ClockBuilder::from_length_seconds(&(1.into()), 10).every_second();
    let mut count = 0;
    for _i in clock.peek() {
        count += 1;
    }
    println!("{:?}", count);
    assert!(count == 11);
}

#[test]
fn clock_walks_its_dates_in_order() {
    let mut clock: ClockInner = ClockBuilder::from_fixed(5, 7).every_second();
    assert_eq!(clock.now(), 5);
    assert!(clock.has_next());
    clock.tick();
    assert_eq!(clock.now(), 6);
    clock.tick();
    assert_eq!(clock.now(), 7);
    assert!(!clock.has_next());
    assert_eq!(clock.peek(), vec![5, 6, 7]);
}

#[test]
fn clock_from_length_days_spans_the_days() {
    let start: DateTime = 10;
    let builder = ClockBuilder::from_length_days(&start, 2);
    assert_eq!(builder.start, 10);
    assert_eq!(builder.end, 10 + 2 * 86_400);
    let clock = builder.daily();
    assert_eq!(clock.peek(), vec![10, 86_410, 172_810]);
}

#[test]
fn daily_clock_stops_within_a_day_of_the_end() {
    // The end lies between two daily timestamps: the run goes on to the one
    // behind it, which is less than a day after the end.
    let clock = ClockBuilder::from_fixed(0, 100_000).daily();
    assert_eq!(clock.peek(), vec![0, 86_400, 172_800]);
    // An end on a daily timestamp is the last date.
    let exact = ClockBuilder::from_fixed(0, 172_800).daily();
    assert_eq!(exact.peek(), vec![0, 86_400, 172_800]);
    // An end before the start, by less than a day, still gives the start.
    let short = ClockBuilder::from_fixed(10, 5).daily();
    assert_eq!(short.peek(), vec![10]);
}

#[test]
fn clock_with_end_before_start_has_no_dates() {
    let clock = ClockBuilder::from_fixed(3, 1).every_second();
    assert!(clock.peek().is_empty());
    assert_eq!(clock.len(), 0);
    assert_eq!(ClockBuilder::from_fixed(1, 3).every_second().len(), 3);
    assert!(!clock.has_next());
}

#[test]
fn single_date_clock_has_no_next() {
    let clock = ClockBuilder::from_length_seconds(&7, 0).every_second();
    assert_eq!(clock.now(), 7);
    assert!(!clock.has_next());
}

#[test]
fn clock_copy_stands_where_the_clock_stood() {
    let mut clock = ClockBuilder::from_fixed(5, 7).every_second();
    clock.tick();
    let copy = clock.clone();
    clock.tick();
    assert_eq!(copy.now(), 6);
    assert_eq!(clock.now(), 7);
    assert_eq!(copy.peek(), clock.peek());
}
