//! Per-register behaviour of the simulator, as a configuration file gives it.
use vstd::prelude::*;

verus! {

/// How a configured register changes on each simulator tick.
#[derive(Clone, Copy, Debug, PartialEq, Eq, Structural)]
pub enum Behavior {
    /// Random walk of at most `delta` per tick.
    Walk,
    /// Never changes.
    Static,
    /// Adds `step` per tick, wrapping modulo 65536.
    Counter,
    /// Follows a sine wave between `min` and `max` with the given period.
    Sine,
}

impl Default for Behavior {
    fn default() -> (b: Behavior)
        ensures
            b == Behavior::Walk,
    {
        Behavior::Walk
    }
}

/// One configured register.
#[derive(Clone, Copy, Debug)]
pub struct RegisterConfig {
    /// Modbus address (e.g. 40001). Must be in the 40001-40100 range to map into the simulator bank.
    pub address: u16,
    /// Starting value.
    pub initial: u16,
    pub behavior: Behavior,
    /// Max random delta per tick (walk only).
    pub delta: u16,
    /// Increment per tick (counter only). Negative values count down.
    pub step: i32,
    /// Minimum value (sine only).
    pub min: Option<u16>,
    /// Maximum value (sine only).
    pub max: Option<u16>,
    /// Period in ticks (sine only).
    pub period: u32,
}

/// A simulator configuration: the configured registers, in file order.
#[derive(Debug)]
pub struct SimConfig {
    pub register: Vec<RegisterConfig>,
}

/// Walk delta used when the configuration names none.
pub fn default_delta() -> (d: u16)
    ensures
        d == 50,
{
    50
}

/// Counter step used when the configuration names none.
pub fn default_step() -> (s: i32)
    ensures
        s == 1,
{
    1
}

/// Sine period, in ticks, used when the configuration names none.
pub fn default_period() -> (p: u32)
    ensures
        p == 60,
{
    60
}

} // verus!
