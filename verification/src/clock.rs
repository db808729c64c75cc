//! Hybrid logical clock: physical milliseconds with a logical counter that
//! orders what the milliseconds cannot.

use vstd::prelude::*;

verus! {

/// One reading of the hybrid logical clock.
#[derive(Clone, Copy, Debug, PartialEq, Eq, PartialOrd, Ord, Structural)]
pub struct Hlc {
    pub time: u64,
    pub counter: u32,
}

impl Hlc {
    /// This reading is strictly older than `other`: time first, then counter.
    pub open spec fn before(self, other: Hlc) -> bool {
        self.time < other.time || (self.time == other.time && self.counter < other.counter)
    }

    /// The reading of a clock that has never ticked.
    pub open spec fn zero() -> Hlc {
        Hlc { time: 0, counter: 0 }
    }
}

/// What the clock reads after a tick at wall time `wall`: the wall time
/// where that is ahead, else the same time with the next counter.
pub open spec fn ticked(clock: Hlc, wall: u64) -> Hlc {
    if wall > clock.time {
        Hlc { time: wall, counter: 0 }
    } else {
        Hlc { time: clock.time, counter: (clock.counter + 1) as u32 }
    }
}

/// A tick at `wall` has a counter left to use.
pub open spec fn tick_fits(clock: Hlc, wall: u64) -> bool {
    wall <= clock.time ==> clock.counter < u32::MAX
}

pub open spec fn max_counter(a: u32, b: u32) -> u32 {
    if a >= b {
        a
    } else {
        b
    }
}

/// What the clock reads after it has seen `other` at wall time `wall`. Where
/// `other` is ahead of the clock and not behind the wall, it reads just past
/// `other`; where both carry the same time, just past the later of the two;
/// else the wall time, if that is ahead of the clock.
pub open spec fn observed(clock: Hlc, other: Hlc, wall: u64) -> Hlc {
    if other.time > clock.time && other.time >= wall {
        Hlc { time: other.time, counter: (other.counter + 1) as u32 }
    } else if other.time == clock.time {
        Hlc {
            time: clock.time,
            counter: (max_counter(clock.counter, other.counter) + 1) as u32,
        }
    } else if wall > clock.time {
        Hlc { time: wall, counter: 0 }
    } else {
        clock
    }
}

/// Seeing `other` at `wall` has a counter left to use.
pub open spec fn observe_fits(clock: Hlc, other: Hlc, wall: u64) -> bool {
    if other.time > clock.time && other.time >= wall {
        other.counter < u32::MAX
    } else if other.time == clock.time {
        clock.counter < u32::MAX && other.counter < u32::MAX
    } else {
        true
    }
}

/// Seeing `other` has a counter left to use whatever the wall clock says.
pub open spec fn admits(clock: Hlc, other: Hlc) -> bool {
    &&& other.time > clock.time ==> other.counter < u32::MAX
    &&& other.time == clock.time ==> clock.counter < u32::MAX && other.counter < u32::MAX
}

/// A clock admits a reading exactly if seeing it fits at every wall time.
pub proof fn law_admits_is_every_wall(clock: Hlc, other: Hlc)
    ensures
        admits(clock, other) <==> forall|wall: u64| observe_fits(clock, other, wall),
{
    if !admits(clock, other) {
        assert(!observe_fits(clock, other, 0));
    }
}

/// A tick never repeats a reading and never goes back.
pub proof fn law_tick_advances(clock: Hlc, wall: u64)
    requires
        tick_fits(clock, wall),
    ensures
        clock.before(ticked(clock, wall)),
        wall <= ticked(clock, wall).time,
{
}

/// The clock never falls behind what it has seen, nor behind itself: a tick
/// after seeing `other` is later than both.
pub proof fn law_observe_never_falls_behind(clock: Hlc, other: Hlc, wall: u64)
    requires
        observe_fits(clock, other, wall),
    ensures
        other.before(observed(clock, other, wall)),
        !observed(clock, other, wall).before(clock),
        forall|later: u64|
            tick_fits(observed(clock, other, wall), later) ==> {
                let next = #[trigger] ticked(observed(clock, other, wall), later);
                other.before(next) && clock.before(next)
            },
{
}

/// Time since the Unix epoch as whole seconds and the milliseconds of the
/// running second, or `None` while the machine's clock is set before the
/// epoch. Calls `std::time::SystemTime::elapsed` on the epoch; of what comes
/// back, only that the running second has fewer than a thousand milliseconds
/// is claimed.
#[verifier::external_body]
fn since_epoch() -> (elapsed: Option<(u64, u32)>)
    ensures
        elapsed matches Some((_, millis)) ==> millis < 1000,
{
    std::time::SystemTime::UNIX_EPOCH
        .elapsed()
        .ok()
        .map(|d| (d.as_secs(), d.subsec_millis()))
}

/// Milliseconds for a time given as seconds and milliseconds, in the low
/// bits that a `u64` holds.
pub fn millis_of(secs: u64, millis: u32) -> (total: u64)
    ensures
        total as int == (secs * 1000 + millis) % 0x1_0000_0000_0000_0000,
{
    let total: u128 = secs as u128 * 1000 + millis as u128;
    assert((total as u64) as int == total as int % 0x1_0000_0000_0000_0000) by {
        assert(total as u64 == total % 0x1_0000_0000_0000_0000) by (bit_vector);
    }
    #[verifier::truncate]
    (total as u64)
}

/// The wall clock for a time since the Unix epoch, in the low bits that a
/// `u64` holds. A clock set before the epoch reads as the epoch.
pub fn wall_of(elapsed: Option<(u64, u32)>) -> (wall: u64)
    ensures
        wall as int == match elapsed {
            Some((secs, millis)) => (secs * 1000 + millis) % 0x1_0000_0000_0000_0000,
            None => 0,
        },
{
    match elapsed {
        Some((secs, millis)) => millis_of(secs, millis),
        None => 0,
    }
}

/// The wall clock in milliseconds since the Unix epoch. The machine's clock
/// decides what it reads, and any reading can come back; `wall_of` says what
/// becomes of each.
pub fn now_millis() -> u64 {
    wall_of(since_epoch())
}

/// Readings are ordered as the numbers that time and counter make together,
/// the time counting for more than any counter.
pub proof fn law_time_counts_before_the_counter(a: Hlc, b: Hlc)
    ensures
        a.before(b) <==> a.time * 0x1_0000_0000 + a.counter < b.time * 0x1_0000_0000 + b.counter,
        a == b <==> a.time * 0x1_0000_0000 + a.counter == b.time * 0x1_0000_0000 + b.counter,
{
}

/// A tick gives the least reading that is later than the clock and not
/// before the wall, where the counter of the clock's time is not used up.
pub proof fn law_tick_is_the_least_later_reading(clock: Hlc, wall: u64, other: Hlc)
    requires
        wall > clock.time || clock.counter < 0xffff_ffff,
    ensures
        tick_fits(clock, wall),
        clock.before(ticked(clock, wall)),
        ticked(clock, wall).time >= wall,
        clock.before(other) && other.time >= wall ==> !other.before(ticked(clock, wall)),
{
}

/// A tick fails to fit only where the counter is used up and the wall is
/// not ahead.
pub proof fn law_ticks_fit_unless_the_counter_is_used_up(clock: Hlc, wall: u64)
    ensures
        !tick_fits(clock, wall) <==> clock.counter == 0xffff_ffff && wall <= clock.time,
{
}

/// What seeing another reading makes of the clock, in each case: it goes
/// just past the other reading, or past the later of two readings of one
/// time, or to the wall, or stays.
pub proof fn law_what_seeing_does(clock: Hlc, other: Hlc, wall: u64)
    requires
        observe_fits(clock, other, wall),
    ensures
        other.time > clock.time && other.time >= wall ==> {
            &&& observed(clock, other, wall).time == other.time
            &&& observed(clock, other, wall).counter == other.counter + 1
        },
        other.time == clock.time ==> {
            &&& observed(clock, other, wall).time == clock.time
            &&& observed(clock, other, wall).counter > clock.counter
            &&& observed(clock, other, wall).counter > other.counter
            &&& observed(clock, other, wall).counter == clock.counter + 1 || observed(
                clock,
                other,
                wall,
            ).counter == other.counter + 1
        },
        other.time != clock.time && other.time < wall && clock.time < wall ==> observed(
            clock,
            other,
            wall,
        ) == (Hlc { time: wall, counter: 0 }),
        other.time < clock.time && wall <= clock.time ==> observed(clock, other, wall) == clock,
{
}

/// Seeing another reading fits unless it would go past a counter that is
/// used up.
pub proof fn law_seeing_fits_unless_a_counter_is_used_up(clock: Hlc, other: Hlc, wall: u64)
    ensures
        other.counter < 0xffff_ffff && clock.counter < 0xffff_ffff ==> observe_fits(
            clock,
            other,
            wall,
        ),
        other.time < clock.time ==> observe_fits(clock, other, wall),
        other.time > clock.time && other.time < wall ==> observe_fits(clock, other, wall),
        other.time > clock.time && other.time >= wall ==> (observe_fits(clock, other, wall)
            <==> other.counter < 0xffff_ffff),
        other.time == clock.time && (other.counter == 0xffff_ffff || clock.counter == 0xffff_ffff)
            ==> !observe_fits(clock, other, wall),
{
}

} // verus!
