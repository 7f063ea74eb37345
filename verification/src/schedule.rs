//! When samples are taken. Times are nanoseconds of one clock.

use crate::double::{lemma_order_is_numeric, lemma_units_increase, units, Double, FINEST, HIDDEN};
use crate::fixed::half_even;
use crate::settings::{
    lemma_bounds, longest_refresh, shortest_refresh, LONGEST_REFRESH, SHORTEST_REFRESH,
};
use crate::writing::lemma_half_even_is_near;
use vstd::arithmetic::div_mod::lemma_fundamental_div_mod;
use vstd::arithmetic::power::pow;
use vstd::arithmetic::power2::{lemma_pow2_pos, pow2};
use vstd::math::abs;
use vstd::prelude::*;

verus! {

/// How long nothing is done while samples are paused.
pub const PAUSE: u64 = 60_000_000_000;

/// What the user asks of the one who takes samples.
#[derive(Clone, Copy, Debug, PartialEq, Eq, Structural)]
pub enum Command {
    /// To take a sample every so many seconds.
    Interval(Double),
    Pause(bool),
}

/// When the next sample is taken.
#[derive(Clone, Copy, Debug, PartialEq, Eq, Structural)]
pub struct Schedule {
    /// In seconds.
    pub interval: Double,
    pub paused: bool,
    pub next: u64,
}

/// An interval in nanoseconds, to the nearest.
pub open spec fn nanoseconds(interval: Double) -> nat {
    interval.scaled_integer(9)
}

/// The time so many nanoseconds later.
pub open spec fn later(time: u64, wait: nat) -> u64 {
    if time + wait > u64::MAX {
        u64::MAX
    } else {
        (time + wait) as u64
    }
}

/// A supported interval is one of half a second to five seconds.
pub proof fn lemma_interval(interval: Double)
    requires
        shortest_refresh().at_most(interval),
        interval.at_most(longest_refresh()),
    ensures
        500_000_000 <= nanoseconds(interval) <= 5_000_000_000,
        interval.finite(),
        units(interval.size()) < HIDDEN * pow2(FINEST as nat),
{
    let p = pow2(FINEST as nat);
    let u = units(interval.size());
    let factor = pow(10, 9) as nat;
    lemma_bounds();
    lemma_pow2_pos(FINEST as nat);
    assert(!interval.negative());
    if interval.size() < longest_refresh().size() {
        lemma_units_increase(interval.size(), longest_refresh().size());
    }
    if shortest_refresh().size() < interval.size() {
        lemma_units_increase(shortest_refresh().size(), interval.size());
    }
    assert(u <= 5 * p);
    assert(p <= 2 * u);
    assert(factor == 1_000_000_000) by {
        reveal_with_fuel(pow, 10);
    }
    let num = u * factor;
    assert(num <= p * 5_000_000_000) by (nonlinear_arith)
        requires
            u <= 5 * p,
            num == u * factor,
            factor == 1_000_000_000,
    ;
    assert(num >= p * 500_000_000) by (nonlinear_arith)
        requires
            p <= 2 * u,
            num == u * factor,
            factor == 1_000_000_000,
    ;
    let q = num / p;
    let r = num % p;
    lemma_fundamental_div_mod(num as int, p as int);
    assert(p * q + r == num);
    assert(500_000_000 <= q && q <= 5_000_000_000 && (q == 5_000_000_000 ==> r == 0))
        by (nonlinear_arith)
        requires
            p * q + r == num,
            0 <= r < p,
            p * 500_000_000 <= num <= p * 5_000_000_000,
    ;
    assert(nanoseconds(interval) == half_even(num, p));
    assert(5 * p < HIDDEN * p) by (nonlinear_arith)
        requires
            p > 0,
            HIDDEN > 5,
    ;
}

impl Schedule {
    /// Whether the interval is one that samples can be taken in.
    pub open spec fn is_supported(self) -> bool {
        shortest_refresh().at_most(self.interval) && self.interval.at_most(longest_refresh())
    }

    /// The first sample is taken at once.
    pub fn new(interval: Double, now: u64) -> (result: Self)
        requires
            !interval.nan(),
        ensures
            result.is_supported(),
            result == (Schedule {
                interval: interval.clamped(shortest_refresh(), longest_refresh()),
                paused: false,
                next: now,
            }),
    {
        Schedule {
            interval: interval.clamp(
                Double::from_bits(SHORTEST_REFRESH),
                Double::from_bits(LONGEST_REFRESH),
            ),
            paused: false,
            next: now,
        }
    }

    /// Whether a sample is to be taken now.
    pub fn is_due(&self, now: u64) -> (result: bool)
        ensures
            result == (!self.paused && now >= self.next),
    {
        !self.paused && now >= self.next
    }

    fn after(&self, time: u64) -> (result: u64)
        requires
            self.is_supported(),
        ensures
            result == later(time, nanoseconds(self.interval)),
    {
        proof {
            lemma_interval(self.interval);
        }
        let wait: u64 = match self.interval.to_billionths() {
            Some(wait) => wait as u64,
            None => 0,
        };
        time.saturating_add(wait)
    }

    /// Puts off the next sample, after one that was begun at a time.
    pub fn sampled(&mut self, begun: u64)
        requires
            old(self).is_supported(),
        ensures
            *final(self) == (Schedule {
                next: later(begun, nanoseconds(old(self).interval)),
                ..*old(self)
            }),
    {
        self.next = self.after(begun);
    }

    /// How long to wait for a command.
    pub fn timeout(&self, now: u64) -> (result: u64)
        ensures
            result == if self.paused {
                PAUSE as int
            } else if self.next > now {
                self.next - now
            } else {
                0
            },
    {
        if self.paused {
            PAUSE
        } else {
            self.next.saturating_sub(now)
        }
    }

    /// How a command changes when the next sample is taken.
    pub open spec fn commanded(self, command: Command, now: u64) -> Self {
        match command {
            Command::Interval(seconds) => {
                let interval = seconds.clamped(shortest_refresh(), longest_refresh());
                Schedule { interval, next: later(now, nanoseconds(interval)), ..self }
            },
            Command::Pause(paused) => if paused {
                Schedule { paused, ..self }
            } else {
                Schedule { paused, next: now, ..self }
            },
        }
    }

    /// Obeys a command. Tells whether collection starts anew.
    pub fn obey(&mut self, command: Command, now: u64) -> (result: bool)
        requires
            old(self).is_supported(),
            command matches Command::Interval(seconds) ==> !seconds.nan(),
        ensures
            *final(self) == old(self).commanded(command, now),
            final(self).is_supported(),
            result == (command == Command::Pause(false)),
    {
        match command {
            Command::Interval(seconds) => {
                self.interval = seconds.clamp(
                    Double::from_bits(SHORTEST_REFRESH),
                    Double::from_bits(LONGEST_REFRESH),
                );
                self.next = self.after(now);
                false
            },
            Command::Pause(paused) => {
                self.paused = paused;
                if !paused {
                    self.next = now;
                }
                !paused
            },
        }
    }
}

/// While samples are paused none is taken, whatever the time, until they are
/// resumed; and then one is taken at once.
pub proof fn lemma_pause_holds(schedule: Schedule, command: Command, now: u64)
    requires
        schedule.paused,
    ensures
        schedule.commanded(command, now).paused == (command != Command::Pause(false)),
        command == Command::Pause(false) ==> schedule.commanded(command, now).next == now,
{
}

/// The nanoseconds of an interval are a billion times its seconds, to the nearest.
pub proof fn lemma_interval_in_nanoseconds(interval: Double)
    requires
        interval.finite(),
    ensures
        2 * abs(
            nanoseconds(interval) * pow2(FINEST as nat) - units(interval.size()) * 1_000_000_000,
        ) <= pow2(FINEST as nat),
{
    lemma_pow2_pos(FINEST as nat);
    assert(pow(10, 9) == 1_000_000_000) by {
        reveal_with_fuel(pow, 10);
    }
    lemma_half_even_is_near(units(interval.size()) * 1_000_000_000, pow2(FINEST as nat));
}

/// An interval that is asked for is kept within half a second and five seconds, and the next
/// sample is taken when so much time has passed. Pausing changes neither, and resuming takes a
/// sample at once.
pub proof fn lemma_commands_are_obeyed(schedule: Schedule, seconds: Double, now: u64)
    requires
        schedule.is_supported(),
        seconds.finite(),
        now <= u64::MAX - 5_000_000_000,
    ensures
        ({
            let one = pow2(FINEST as nat);
            let after = schedule.commanded(Command::Interval(seconds), now);
            &&& after.paused == schedule.paused
            &&& 2 * seconds.value() < one ==> 2 * after.interval.value() == one
            &&& seconds.value() > 5 * one ==> after.interval.value() == 5 * one
            &&& one <= 2 * seconds.value() && seconds.value() <= 5 * one ==> after.interval
                == seconds
            &&& after.next == now + nanoseconds(after.interval)
            &&& now + 500_000_000 <= after.next <= now + 5_000_000_000
            &&& schedule.commanded(Command::Pause(true), now) == (Schedule {
                paused: true,
                ..schedule
            })
            &&& schedule.commanded(Command::Pause(false), now) == (Schedule {
                paused: false,
                next: now,
                ..schedule
            })
        }),
{
    let interval = seconds.clamped(shortest_refresh(), longest_refresh());
    lemma_bounds();
    lemma_order_is_numeric(seconds, shortest_refresh());
    lemma_order_is_numeric(longest_refresh(), seconds);
    lemma_order_is_numeric(shortest_refresh(), interval);
    lemma_order_is_numeric(interval, longest_refresh());
    lemma_interval(interval);
}

} // verus!
