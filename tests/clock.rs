use devtime::state::{Fired, SleepWaiter, Sleeper};
use devtime::sync::{FakeTime, RealTime};

const SECOND: u64 = 1_000_000_000;

fn signals(fired: Vec<Fired<u32>>) -> Vec<u32> {
    fired.into_iter().map(|f| f.into_signal()).collect()
}

fn kinds(fired: &[Fired<u32>]) -> Vec<char> {
    fired
        .iter()
        .map(|f| match f {
            Fired::Sleeper(_) => 's',
            Fired::Waiter(_) => 'w',
        })
        .collect()
}

#[test]
fn lib_test_sleep() {
    let mut clock: FakeTime<u32> = FakeTime::default();
    let dst = clock.monotonic_now() + 60 * SECOND;
    assert!(clock.sleep_until(dst, 1).is_empty());
    let fired = signals(clock.advance(60 * SECOND));
    assert_eq!(fired, vec![1]);
    assert_eq!(dst, clock.monotonic_now());
}

#[test]
fn sync_test_sleep() {
    let mut clock: FakeTime<u32> = FakeTime::default();
    let dst = clock.monotonic_now() + 60 * SECOND;
    assert!(clock.sleep_until(dst, 7).is_empty());
    let fired = clock.advance(60 * SECOND);
    assert_eq!(true, kinds(&fired) == vec!['s']);
    assert_eq!(signals(fired), vec![7]);
    assert_eq!(dst, clock.monotonic_now());
}

#[test]
fn test_wait_sleepers() {
    let mut clock: FakeTime<u32> = FakeTime::default();
    let dst = clock.monotonic_now() + 60 * SECOND;
    assert!(clock.sleep(60 * SECOND, 1).is_empty());
    assert_eq!(signals(clock.wait_exact_sleepers_count(1, 2)), vec![2]);
    assert_eq!(signals(clock.advance(60 * SECOND)), vec![1]);
    assert_eq!(dst, clock.monotonic_now());
    assert_eq!(clock.sleepers_count(), 0);
}

#[test]
fn scenario_sleep_sixty_seconds() {
    let mut clock: FakeTime<u32> = FakeTime::new();
    let m0 = clock.monotonic_now();
    // the barrier is registered before the sleeper arrives
    assert!(clock.wait_exact_sleepers_count(1, 100).is_empty());
    assert_eq!(signals(clock.sleep(60 * SECOND, 1)), vec![100]);
    assert_eq!(signals(clock.advance(60 * SECOND)), vec![1]);
    assert_eq!(clock.monotonic_now(), m0 + 60 * SECOND);
}

#[test]
fn scenario_two_targets() {
    let mut clock: FakeTime<u32> = FakeTime::new();
    let m0 = clock.monotonic_now();
    assert!(clock.sleep_until(m0 + 10 * SECOND, 10).is_empty());
    assert!(clock.sleep_until(m0 + 20 * SECOND, 20).is_empty());
    assert!(clock.advance(5 * SECOND).is_empty());
    assert_eq!(clock.sleepers_count(), 2);
    assert_eq!(signals(clock.advance(10 * SECOND)), vec![10]);
    assert_eq!(clock.monotonic_now(), m0 + 15 * SECOND);
    assert_eq!(clock.sleepers_count(), 1);
    assert_eq!(signals(clock.advance(10 * SECOND)), vec![20]);
    assert_eq!(clock.monotonic_now(), m0 + 25 * SECOND);
    assert_eq!(clock.sleepers_count(), 0);
}

#[test]
fn scenario_three_sleepers_one_second() {
    let mut clock: FakeTime<u32> = FakeTime::new();
    let m0 = clock.monotonic_now();
    assert!(clock.sleep(SECOND, 1).is_empty());
    assert!(clock.sleep(SECOND, 2).is_empty());
    assert!(clock.wait_exact_sleepers_count(3, 100).is_empty());
    assert_eq!(signals(clock.sleep(SECOND, 3)), vec![100]);
    assert_eq!(signals(clock.advance(SECOND)), vec![1, 2, 3]);
    assert_eq!(clock.monotonic_now(), m0 + SECOND);
}

#[test]
fn immediate_return_queues_nothing() {
    let mut clock: FakeTime<u32> = FakeTime::new();
    clock.advance(5 * SECOND);
    assert!(clock.sleep_until(9 * SECOND, 1).is_empty());
    let fired = clock.sleep_until(5 * SECOND, 2);
    assert_eq!(kinds(&fired), vec!['s']);
    assert_eq!(signals(fired), vec![2]);
    assert_eq!(signals(clock.sleep(0, 3)), vec![3]);
    assert_eq!(clock.sleepers_count(), 1);
}

#[test]
fn fires_in_target_order() {
    let mut clock: FakeTime<u32> = FakeTime::new();
    assert!(clock.sleep_until(3 * SECOND, 3).is_empty());
    assert!(clock.sleep_until(SECOND, 1).is_empty());
    assert!(clock.sleep_until(2 * SECOND, 2).is_empty());
    assert_eq!(signals(clock.advance(4 * SECOND)), vec![1, 2, 3]);
}

#[test]
fn equal_targets_fire_in_registration_order() {
    let mut clock: FakeTime<u32> = FakeTime::new();
    assert!(clock.sleep_until(2 * SECOND, 20).is_empty());
    assert!(clock.sleep_until(SECOND, 10).is_empty());
    assert!(clock.sleep_until(SECOND, 11).is_empty());
    assert!(clock.sleep_until(2 * SECOND, 21).is_empty());
    assert!(clock.sleep_until(SECOND, 12).is_empty());
    assert_eq!(signals(clock.advance(SECOND)), vec![10, 11, 12]);
    assert_eq!(signals(clock.advance(SECOND)), vec![20, 21]);
}

#[test]
fn barrier_fires_on_transient_count() {
    let mut clock: FakeTime<u32> = FakeTime::new();
    assert!(clock.sleep_until(SECOND, 1).is_empty());
    assert!(clock.sleep_until(2 * SECOND, 2).is_empty());
    assert!(clock.sleep_until(3 * SECOND, 3).is_empty());
    assert!(clock.wait_exact_sleepers_count(1, 100).is_empty());
    assert!(clock.wait_exact_sleepers_count(0, 200).is_empty());
    let fired = clock.advance(10 * SECOND);
    assert_eq!(kinds(&fired), vec!['s', 's', 'w', 's', 'w']);
    assert_eq!(signals(fired), vec![1, 2, 100, 3, 200]);
}

#[test]
fn barrier_waiters_with_equal_counts_all_fire() {
    let mut clock: FakeTime<u32> = FakeTime::new();
    assert!(clock.wait_exact_sleepers_count(1, 100).is_empty());
    assert!(clock.wait_exact_sleepers_count(1, 101).is_empty());
    assert!(clock.wait_exact_sleepers_count(2, 102).is_empty());
    let mut fired = signals(clock.sleep(SECOND, 1));
    fired.sort();
    assert_eq!(fired, vec![100, 101]);
    assert_eq!(signals(clock.sleep(SECOND, 2)), vec![102]);
}

#[test]
fn barrier_for_empty_queue_fires_at_once() {
    let mut clock: FakeTime<u32> = FakeTime::new();
    assert_eq!(signals(clock.wait_exact_sleepers_count(0, 5)), vec![5]);
}

#[test]
fn advance_without_sleepers_fires_nothing() {
    let mut clock: FakeTime<u32> = FakeTime::new();
    assert!(clock.advance(SECOND).is_empty());
    assert!(clock.advance(0).is_empty());
    assert_eq!(clock.monotonic_now(), SECOND);
}

#[test]
fn cursors_move_together() {
    let mut clock: FakeTime<u32> = FakeTime::new();
    let m0 = clock.monotonic_now();
    let w0 = clock.system_now();
    assert_eq!(w0, 0);
    let mut last = (m0, w0);
    for d in [0, 7, SECOND, 3, 0, 60 * SECOND] {
        clock.advance(d);
        let now = (clock.monotonic_now(), clock.system_now());
        assert!(now.0 >= last.0 && now.1 >= last.1);
        assert_eq!(now.0 - m0, now.1 - w0);
        last = now;
    }
    assert_eq!(last.0 - m0, 61 * SECOND + 10);
}

#[test]
fn fired_requests_carry_their_data() {
    let mut clock: FakeTime<u32> = FakeTime::new();
    assert!(clock.sleep_until(4, 9).is_empty());
    let fired = clock.advance(4);
    match &fired[0] {
        Fired::Sleeper(Sleeper { monotonic, signal }) => {
            assert_eq!((*monotonic, *signal), (4, 9));
        }
        Fired::Waiter(_) => panic!("a sleeper was expected"),
    }
    let fired = clock.wait_exact_sleepers_count(0, 3);
    match &fired[0] {
        Fired::Waiter(SleepWaiter { count, signal }) => {
            assert_eq!((*count, *signal), (0, 3));
        }
        Fired::Sleeper(_) => panic!("a waiter was expected"),
    }
}

#[test]
fn real_time_is_constructible() {
    let _clock = RealTime {};
}
