use vstd::prelude::*;

verus! {

/// A deadline: it has passed when the tick count, less `start`, has
/// come to `timeout`.
#[derive(Debug, Clone, Copy, PartialEq, Eq, Structural)]
pub struct MyThreadCondTime {
    /// Tick count, in milliseconds, at which the waiting began.
    pub start: u32,
    /// Length of the wait in milliseconds.
    pub timeout: u32,
}

impl Default for MyThreadCondTime {
    fn default() -> (t: MyThreadCondTime)
        ensures
            t.start == 0,
            t.timeout == 0,
    {
        MyThreadCondTime { start: 0, timeout: 0 }
    }
}

/// The tick count at `millis` milliseconds since the epoch: the low 32
/// bits of that number, so that it starts again from zero about every
/// 49.7 days.
pub fn get_tick_count(millis: u128) -> (ticks: u32)
    ensures
        ticks == millis % 0x1_0000_0000,
{
    let low: u128 = millis & 0xFFFF_FFFF;
    assert(millis & 0xFFFF_FFFF == millis % 0x1_0000_0000) by (bit_vector);
    #[verifier::truncate]
    (low as u32)
}

} // verus!
