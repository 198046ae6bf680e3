use sequencer::clock::{Clock, ManualClock};

#[test]
fn fresh_clock() {
    let clock = ManualClock::new();
    assert_eq!(clock.is_running(), false);
    assert_eq!(clock.get_ticks(), 0);
    assert_eq!(clock.get_period(), 1_000_000);
}

#[test]
fn double_calls() {
    let mut clock = ManualClock::new();
    clock.start();
    clock.start();
    assert_eq!(clock.is_running(), true);
    clock.stop();
    clock.stop();
    assert_eq!(clock.is_running(), false);
    clock.reset();
    clock.reset();
    assert_eq!(clock.get_ticks(), 0);
}

#[test]
fn start_fires_first_tick() {
    let mut clock = ManualClock::new();
    clock.start();
    assert_eq!(clock.get_ticks(), 1);
    clock.start();
    assert_eq!(clock.get_ticks(), 1);
}

#[test]
fn count_ticks() {
    let count: u64 = 10;
    let period: u64 = 10_000;
    let mut clock = ManualClock::new();
    clock.with_period(period);
    clock.start();
    clock.advance_micros(count * period - period / 2);
    clock.stop();
    assert_eq!(count as usize, clock.get_ticks());
}

#[test]
fn stop_start() {
    let period: u64 = 10_000;
    let mut clock = ManualClock::new();
    clock.with_period(period);
    clock.start();
    clock.advance_micros(3 * period / 2);
    clock.stop();
    let last_tick = clock.get_ticks();
    assert_eq!(last_tick, 2);
    clock.start();
    // A restart fires its first tick immediately and continues the counter.
    assert_eq!(clock.get_ticks(), last_tick + 1);
    clock.advance_micros(period / 2);
    clock.stop();
    assert_eq!(clock.get_ticks(), last_tick + 1);
}

#[test]
fn advance_counts_whole_periods() {
    let mut clock = ManualClock::new();
    clock.with_period(100);
    clock.start();
    assert_eq!(clock.advance_micros(99), 0);
    assert_eq!(clock.get_ticks(), 1);
    assert_eq!(clock.advance_micros(1), 1);
    assert_eq!(clock.get_ticks(), 2);
    assert_eq!(clock.advance_micros(250), 2);
    assert_eq!(clock.get_ticks(), 4);
}

#[test]
fn reset_keeps_running_state() {
    let mut clock = ManualClock::new();
    clock.start();
    clock.reset();
    assert_eq!(clock.get_ticks(), 0);
    assert_eq!(clock.is_running(), true);
    clock.stop();
}
