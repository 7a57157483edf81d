//! Hybrid logical clocks: a physical millisecond reading paired with a
//! logical counter that breaks ties within one millisecond.

use vstd::prelude::*;

verus! {

/// A hybrid logical timestamp, ordered by `wall` first and `counter` second.
#[derive(Clone, Copy, Debug, Default, PartialEq, Eq, PartialOrd, Ord, Hash, Structural)]
pub struct Hlc {
    pub wall: u64,
    pub counter: u32,
}

/// `a` is strictly earlier than `b` in the (wall, counter) order.
pub open spec fn hlc_lt(a: Hlc, b: Hlc) -> bool {
    a.wall < b.wall || (a.wall == b.wall && a.counter < b.counter)
}

/// The timestamp after `(wall, counter)`: the counter moves on by one, and on
/// counter overflow the wall moves on by one millisecond (saturating) with the
/// counter back at zero.
pub open spec fn incremented_spec(wall: u64, counter: u32) -> Hlc {
    if counter < u32::MAX {
        Hlc { wall, counter: (counter + 1) as u32 }
    } else {
        Hlc { wall: if wall < u64::MAX { (wall + 1) as u64 } else { wall }, counter: 0 }
    }
}

pub open spec fn max_u64(a: u64, b: u64) -> u64 {
    if a >= b { a } else { b }
}

pub open spec fn max_u32(a: u32, b: u32) -> u32 {
    if a >= b { a } else { b }
}

/// The timestamp a local event at physical time `now` receives after `last`.
pub open spec fn tick_spec(last: Hlc, now: u64) -> Hlc {
    let wall = max_u64(last.wall, now);
    if wall == last.wall {
        incremented_spec(wall, last.counter)
    } else {
        Hlc { wall, counter: 0 }
    }
}

/// The timestamp after `last` on receiving `remote` at physical time `now`.
pub open spec fn observe_spec(last: Hlc, now: u64, remote: Hlc) -> Hlc {
    let wall = max_u64(max_u64(last.wall, remote.wall), now);
    if wall == last.wall && wall == remote.wall {
        incremented_spec(wall, max_u32(last.counter, remote.counter))
    } else if wall == last.wall {
        incremented_spec(wall, last.counter)
    } else if wall == remote.wall {
        incremented_spec(wall, remote.counter)
    } else {
        Hlc { wall, counter: 0 }
    }
}

/// The largest timestamp: the one after which a successor can no longer be
/// told apart from it.
pub open spec fn saturated(h: Hlc) -> bool {
    h.wall == u64::MAX && h.counter == u32::MAX
}

/// A clock issuing strictly increasing hybrid logical timestamps.
#[derive(Clone, Debug, Default, PartialEq, Eq)]
pub struct HlcClock {
    last: Hlc,
}

impl View for HlcClock {
    type V = Hlc;

    /// The last timestamp this clock issued.
    closed spec fn view(&self) -> Hlc {
        self.last
    }
}

fn incremented(wall: u64, counter: u32) -> (r: Hlc)
    ensures
        r == incremented_spec(wall, counter),
{
    match counter.checked_add(1) {
        Some(c) => Hlc { wall, counter: c },
        None => Hlc { wall: wall.saturating_add(1), counter: 0 },
    }
}

/// The system clock, as `std::time::SystemTime`.
#[verifier::external_type_specification]
#[verifier::external_body]
pub struct ExSystemTime(std::time::SystemTime);

/// The system clock's current reading.
///
/// Calls `std::time::SystemTime::now`. Nothing is promised of the reading:
/// it depends on the machine's clock.
#[verifier::external_body]
fn system_now() -> std::time::SystemTime {
    std::time::SystemTime::now()
}

/// How long after the Unix epoch the reading `t` lies; `None` when it lies
/// before the epoch.
///
/// Calls `SystemTime::duration_since` with `UNIX_EPOCH`, whose error case is
/// a reading earlier than the epoch. Nothing is promised of the duration.
#[verifier::external_body]
fn since_epoch(t: &std::time::SystemTime) -> Option<std::time::Duration> {
    match t.duration_since(std::time::UNIX_EPOCH) {
        Ok(d) => Some(d),
        Err(_) => None,
    }
}

/// The whole milliseconds in `d`, cut to 64 bits.
///
/// Calls `Duration::as_millis`. A `Duration` is opaque here, so nothing is
/// promised of the number.
#[verifier::external_body]
fn whole_millis(d: &std::time::Duration) -> u64 {
    d.as_millis() as u64
}

/// The current wall-clock time in milliseconds since the Unix epoch, `0` when
/// the system clock reads earlier than the epoch.
fn now_millis() -> u64 {
    match since_epoch(&system_now()) {
        Some(d) => whole_millis(&d),
        None => 0,
    }
}

impl HlcClock {
    /// A clock that has issued nothing yet (its last timestamp is `(0, 0)`).
    pub fn new() -> (c: HlcClock)
        ensures
            c@ == (Hlc { wall: 0, counter: 0 }),
    {
        HlcClock { last: Hlc { wall: 0, counter: 0 } }
    }

    /// A clock whose last issued timestamp is `last`.
    pub fn resume(last: Hlc) -> (c: HlcClock)
        ensures
            c@ == last,
    {
        HlcClock { last }
    }

    /// The last timestamp issued.
    pub fn last(&self) -> (h: Hlc)
        ensures
            h == self@,
    {
        self.last
    }

    /// Issue the next timestamp for a local event at physical time
    /// `now_millis`.
    pub fn tick_at(&mut self, now_millis: u64) -> (h: Hlc)
        ensures
            h == tick_spec(old(self)@, now_millis),
            final(self)@ == h,
    {
        let wall = if self.last.wall >= now_millis { self.last.wall } else { now_millis };
        self.last = if wall == self.last.wall {
            incremented(wall, self.last.counter)
        } else {
            Hlc { wall, counter: 0 }
        };
        self.last
    }

    /// Issue the next timestamp for a local event, reading the system clock.
    pub fn tick(&mut self) -> (h: Hlc)
        ensures
            exists|now: u64| h == tick_spec(old(self)@, now),
            final(self)@ == h,
    {
        let now = now_millis();
        self.tick_at(now)
    }

    /// Advance past a timestamp `remote` received from a peer, at physical
    /// time `now_millis`.
    pub fn observe_at(&mut self, now_millis: u64, remote: Hlc) -> (h: Hlc)
        ensures
            h == observe_spec(old(self)@, now_millis, remote),
            final(self)@ == h,
    {
        let w1 = if self.last.wall >= remote.wall { self.last.wall } else { remote.wall };
        let wall = if w1 >= now_millis { w1 } else { now_millis };
        self.last = if wall == self.last.wall && wall == remote.wall {
            let c = if self.last.counter >= remote.counter { self.last.counter } else { remote.counter };
            incremented(wall, c)
        } else if wall == self.last.wall {
            incremented(wall, self.last.counter)
        } else if wall == remote.wall {
            incremented(wall, remote.counter)
        } else {
            Hlc { wall, counter: 0 }
        };
        self.last
    }

    /// Advance past a timestamp `remote` received from a peer, reading the
    /// system clock.
    pub fn observe(&mut self, remote: Hlc) -> (h: Hlc)
        ensures
            exists|now: u64| h == observe_spec(old(self)@, now, remote),
            final(self)@ == h,
    {
        let now = now_millis();
        self.observe_at(now, remote)
    }
}

/// Every tick is strictly later than the timestamp before it, whatever the
/// physical clock reads (even when it runs backwards), unless the previous
/// timestamp is already the largest one.
pub proof fn lemma_tick_increases(last: Hlc, now: u64)
    requires
        !saturated(last),
    ensures
        hlc_lt(last, tick_spec(last, now)),
{
}

/// Observing a remote timestamp moves the clock strictly past both its own
/// last timestamp and the remote one, unless one of them is the largest
/// timestamp.
pub proof fn lemma_observe_passes_both(last: Hlc, now: u64, remote: Hlc)
    requires
        !saturated(last),
        !saturated(remote),
    ensures
        hlc_lt(last, observe_spec(last, now, remote)),
        hlc_lt(remote, observe_spec(last, now, remote)),
{
}

/// A tick follows the physical clock: its wall time is at least both the
/// reading `now` and the last wall time, and it is at most one millisecond
/// past the larger of the two. When the reading is ahead of the last wall
/// time the tick is exactly `(now, 0)`; otherwise the wall time stays and
/// the counter moves on by one, unless it is already at its largest.
pub proof fn lemma_tick_follows_physical_time(last: Hlc, now: u64)
    ensures
        tick_spec(last, now).wall >= now,
        tick_spec(last, now).wall >= last.wall,
        now > last.wall ==> tick_spec(last, now) == (Hlc { wall: now, counter: 0 }),
        now <= last.wall && last.counter < u32::MAX
            ==> tick_spec(last, now) == (Hlc { wall: last.wall, counter: (last.counter + 1) as u32 }),
        now <= last.wall && last.counter == u32::MAX && last.wall < u64::MAX
            ==> tick_spec(last, now) == (Hlc { wall: (last.wall + 1) as u64, counter: 0 }),
{
}

/// Observing a remote timestamp also follows the physical clock: the new
/// wall time is at least the reading `now`, the last wall time and the
/// remote wall time, and is one of them, or one millisecond past the largest
/// when the counter overflows. When the reading is ahead of both, the result
/// is exactly `(now, 0)`.
pub proof fn lemma_observe_follows_physical_time(last: Hlc, now: u64, remote: Hlc)
    ensures
        observe_spec(last, now, remote).wall >= now,
        observe_spec(last, now, remote).wall >= last.wall,
        observe_spec(last, now, remote).wall >= remote.wall,
        now > last.wall && now > remote.wall ==> observe_spec(last, now, remote) == (Hlc { wall: now, counter: 0 }),
        observe_spec(last, now, remote).wall == now || observe_spec(last, now, remote).wall == last.wall
            || observe_spec(last, now, remote).wall == remote.wall
            || (observe_spec(last, now, remote).counter == 0 && (observe_spec(last, now, remote).wall == last.wall + 1
                || observe_spec(last, now, remote).wall == remote.wall + 1)),
{
}

/// The timestamp order is transitive.
pub proof fn lemma_hlc_lt_transitive(a: Hlc, b: Hlc, c: Hlc)
    requires
        hlc_lt(a, b),
        hlc_lt(b, c),
    ensures
        hlc_lt(a, c),
{
}

} // verus!
