use axiom_core::{Hlc, HlcClock};

#[test]
fn ticks_within_one_millisecond_are_distinct() {
    let mut c = HlcClock::new();
    let a = c.tick_at(100);
    let b = c.tick_at(100);
    let d = c.tick_at(100);
    assert_eq!((a.wall, a.counter), (100, 0));
    assert_eq!((b.wall, b.counter), (100, 1));
    assert_eq!((d.wall, d.counter), (100, 2));
}

#[test]
fn wall_going_backwards_keeps_monotonicity() {
    let mut c = HlcClock::new();
    let a = c.tick_at(100);
    let b = c.tick_at(50);
    assert!(b > a);
    assert_eq!(b.wall, 100);
}

#[test]
fn counter_overflow_rolls_wall_and_stays_monotonic() {
    let mut c = HlcClock::new();
    let t1 = c.observe_at(0, Hlc { wall: 5, counter: u32::MAX });
    assert_eq!(t1, Hlc { wall: 6, counter: 0 });
    assert!(t1 > Hlc { wall: 5, counter: u32::MAX });
    let t2 = c.tick_at(6);
    assert!(t2 > t1);
}

#[test]
fn observe_advances_past_remote() {
    let mut c = HlcClock::new();
    c.tick_at(10);
    let remote = Hlc { wall: 1000, counter: 5 };
    let t = c.observe_at(20, remote);
    assert!(t > remote);
}

#[test]
fn observe_takes_the_larger_counter_on_a_shared_wall() {
    let mut c = HlcClock::new();
    c.tick_at(50);
    c.tick_at(50);
    assert_eq!(c.last(), Hlc { wall: 50, counter: 1 });
    let t = c.observe_at(10, Hlc { wall: 50, counter: 7 });
    assert_eq!(t, Hlc { wall: 50, counter: 8 });
    let u = c.observe_at(90, Hlc { wall: 60, counter: 3 });
    assert_eq!(u, Hlc { wall: 90, counter: 0 });
    assert_eq!(c.last(), u);
}

#[test]
fn saturated_timestamp_does_not_advance() {
    let mut c = HlcClock::new();
    let t = c.observe_at(0, Hlc { wall: u64::MAX, counter: u32::MAX });
    assert_eq!(t, Hlc { wall: u64::MAX, counter: 0 });
}

#[test]
fn tick_reads_the_system_clock() {
    let mut c = HlcClock::new();
    let a = c.tick();
    let b = c.tick();
    assert!(a.wall > 0);
    assert!(b > a);
    let r = Hlc { wall: a.wall + 1_000_000, counter: 0 };
    let o = c.observe(r);
    assert!(o > r);
}
