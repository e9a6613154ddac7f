use wiwi::clock_timer::{wait_ms, ClockTimer, Tick};
use wiwi::debounce::{record_call, remaining_wait};

#[test]
fn clock_timer_ticks_until_end() {
    let mut timer = ClockTimer::builder()
        .with_start_datetime(1_000)
        .with_end_datetime(1_250)
        .with_interval(100)
        .build();
    assert_eq!(timer.next_tick(), Some(Tick { this_tick: 1_000, elapsed: 0, remaining: 250 }));
    assert_eq!(timer.next_tick(), Some(Tick { this_tick: 1_100, elapsed: 100, remaining: 150 }));
    assert_eq!(timer.next_tick(), Some(Tick { this_tick: 1_200, elapsed: 200, remaining: 50 }));
    assert_eq!(timer.next_tick(), None);
    assert_eq!(timer.next_tick(), None);
}

#[test]
fn clock_timer_ticks_at_end_time() {
    let mut timer = ClockTimer::builder()
        .with_start_datetime(0)
        .with_duration(200)
        .with_interval(100)
        .build();
    let mut ticks = Vec::new();
    while let Some(tick) = timer.next_tick() {
        ticks.push(tick.this_tick);
    }
    assert_eq!(ticks, vec![0, 100, 200]);
}

#[test]
fn clock_timer_stops_at_range_limit() {
    let mut timer = ClockTimer::builder()
        .with_start_datetime(i64::MAX - 10)
        .with_end_datetime(i64::MAX)
        .with_interval(100)
        .build();
    assert_eq!(timer.next_tick(), None);
    assert_eq!(timer.next_tick, i64::MAX - 10);
}

#[test]
fn wait_until_due() {
    assert_eq!(wait_ms(500, 200), 300);
    assert_eq!(wait_ms(200, 500), 0);
    assert_eq!(wait_ms(i64::MAX, i64::MIN), u64::MAX);
}

#[test]
fn debounce_cycle_decisions() {
    let mut last = None;
    assert!(record_call(&mut last, 10));
    assert_eq!(last, Some(10));
    assert!(!record_call(&mut last, 40));
    assert_eq!(last, Some(40));

    assert_eq!(remaining_wait(100, 40, 60), Some(80));
    assert_eq!(remaining_wait(100, 40, 140), None);
    assert_eq!(remaining_wait(100, 40, 200), None);
    assert_eq!(remaining_wait(i64::MAX, i64::MAX, i64::MIN), Some(u64::MAX));
}
