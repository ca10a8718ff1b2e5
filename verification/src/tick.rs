//! The sequencer's unit of time.

use vstd::prelude::*;

use vstd::arithmetic::div_mod::{
    lemma_fundamental_div_mod, lemma_fundamental_div_mod_converse, lemma_mod_multiples_vanish,
};

use crate::text::{decimal, format_clock};

verus! {

/// A moment in time; the sequencer advances one tick at a time.
#[derive(PartialEq, Eq, Structural, Clone, Copy, Debug, PartialOrd, Ord, Hash)]
pub struct Tick(pub u64);

impl Default for Tick {
    fn default() -> (t: Tick)
        ensures
            t.0 == 0,
    {
        Tick(0)
    }
}

/// The milliseconds part of the clock reading of tick `t`, at 960 ticks a
/// second.
pub open spec fn clock_millis(t: nat) -> nat {
    ((t * 1000) / 960) % 1000
}

/// The milliseconds of tick `t` within its second, worked out from `t`
/// modulo 24000 (25 seconds) so that nothing overflows.
proof fn lemma_clock_millis(t: nat)
    ensures
        ((((t % 24000) * 1000) / 960) % 1000) == clock_millis(t),
{
    let q = t / 24000;
    let r = t % 24000;
    lemma_fundamental_div_mod(t as int, 24000);
    let m = (r * 1000) as int;
    lemma_fundamental_div_mod(m, 960);
    let q2 = 25000 * q + m / 960;
    assert(t * 1000 == q2 * 960 + m % 960) by (nonlinear_arith)
        requires
            t == 24000 * q + r,
            m == r * 1000,
            m == 960 * (m / 960) + m % 960,
            q2 == 25000 * q + m / 960,
    ;
    lemma_fundamental_div_mod_converse((t * 1000) as int, 960, q2, m % 960);
    lemma_mod_multiples_vanish((25 * q) as int, m / 960, 1000);
    assert(1000 * (25 * q) == 25000 * q) by (nonlinear_arith);
}

impl Tick {
    /// The time of this tick at 120 beats a minute and 480 ticks a beat
    /// (960 ticks a second), as `minutes:seconds:milliseconds`; the minutes
    /// are kept to 32 bits.
    pub fn as_time(&self) -> (s: String)
        ensures
            s@ == decimal(((self.0 / 57600) % 0x1_0000_0000) as nat) + seq![':'] + decimal(
                ((self.0 / 960) % 60) as nat,
            ) + seq![':'] + decimal(clock_millis(self.0 as nat)),
    {
        let minutes = self.0 / 57600;
        let seconds = (self.0 / 960) % 60;
        let millis = (self.0 % 24000) * 1000 / 960 % 1000;
        proof {
            lemma_clock_millis(self.0 as nat);
            assert(minutes as u32 == minutes % 0x1_0000_0000) by (bit_vector);
        }
        format_clock(minutes as u32, seconds as u32, millis as u32)
    }

    /// The number of the beat this tick falls in, counting from one, with
    /// 480 ticks to a beat.
    pub fn as_beat(&self) -> (beat: u32)
        requires
            ((self.0 / 480) as u32) < u32::MAX,
        ensures
            beat == ((self.0 / 480) as u32) + 1,
    {
        (self.0 / 480) as u32 + 1
    }

    /// Moves the tick one step forward in time.
    pub fn tick(&mut self)
        requires
            old(self).0 < u64::MAX,
        ensures
            final(self).0 == old(self).0 + 1,
    {
        self.0 = self.0 + 1;
    }

    /// The tick at time zero.
    pub fn zero() -> (t: Tick)
        ensures
            t.0 == 0,
    {
        Tick(0)
    }

    /// Resets the tick to zero.
    pub fn reset(&mut self)
        ensures
            final(self).0 == 0,
    {
        self.0 = 0;
    }

    /// This tick moved `length` ticks later.
    pub fn offset(self, length: u32) -> (t: Tick)
        requires
            self.0 + length <= u64::MAX,
        ensures
            t.0 == self.0 + length,
    {
        Tick(self.0 + length as u64)
    }

    /// The tick count kept to its low 32 bits.
    pub fn as_u32(&self) -> (v: u32)
        ensures
            v == self.0 as u32,
    {
        self.0 as u32
    }

    /// Subtracts `rhs` from this tick in place.
    pub fn sub_assign(&mut self, rhs: Tick)
        requires
            old(self).0 >= rhs.0,
        ensures
            final(self).0 == old(self).0 - rhs.0,
    {
        self.0 = self.0 - rhs.0;
    }

    /// The tick count in decimal.
    pub fn to_string(&self) -> (s: String)
        ensures
            s@ == decimal(self.0 as nat),
    {
        crate::text::decimal_string(self.0)
    }
}

impl std::ops::Add for Tick {
    type Output = Tick;

    fn add(self, rhs: Tick) -> (t: Tick) {
        Tick(self.0 + rhs.0)
    }
}

impl vstd::std_specs::ops::AddSpecImpl for Tick {
    open spec fn obeys_add_spec() -> bool {
        true
    }

    open spec fn add_req(self, rhs: Tick) -> bool {
        self.0 + rhs.0 <= u64::MAX
    }

    open spec fn add_spec(self, rhs: Tick) -> Tick {
        Tick((self.0 + rhs.0) as u64)
    }
}

impl std::ops::Sub for Tick {
    type Output = Tick;

    fn sub(self, rhs: Tick) -> (t: Tick) {
        Tick(self.0 - rhs.0)
    }
}

impl vstd::std_specs::ops::SubSpecImpl for Tick {
    open spec fn obeys_sub_spec() -> bool {
        true
    }

    open spec fn sub_req(self, rhs: Tick) -> bool {
        self.0 >= rhs.0
    }

    open spec fn sub_spec(self, rhs: Tick) -> Tick {
        Tick((self.0 - rhs.0) as u64)
    }
}

impl From<u64> for Tick {
    fn from(tick: u64) -> (t: Tick) {
        Tick(tick)
    }
}

impl vstd::std_specs::convert::FromSpecImpl<u64> for Tick {
    open spec fn obeys_from_spec() -> bool {
        true
    }

    open spec fn from_spec(v: u64) -> Tick {
        Tick(v)
    }
}

impl From<u32> for Tick {
    fn from(tick: u32) -> (t: Tick) {
        Tick(tick as u64)
    }
}

impl vstd::std_specs::convert::FromSpecImpl<u32> for Tick {
    open spec fn obeys_from_spec() -> bool {
        true
    }

    open spec fn from_spec(v: u32) -> Tick {
        Tick(v as u64)
    }
}

impl From<usize> for Tick {
    fn from(tick: usize) -> (t: Tick) {
        Tick(tick as u64)
    }
}

impl vstd::std_specs::convert::FromSpecImpl<usize> for Tick {
    open spec fn obeys_from_spec() -> bool {
        true
    }

    open spec fn from_spec(v: usize) -> Tick {
        Tick(v as u64)
    }
}

impl From<i32> for Tick {
    fn from(tick: i32) -> (t: Tick) {
        Tick(tick as u64)
    }
}

impl vstd::std_specs::convert::FromSpecImpl<i32> for Tick {
    open spec fn obeys_from_spec() -> bool {
        true
    }

    open spec fn from_spec(v: i32) -> Tick {
        Tick(v as u64)
    }
}

} // verus!
