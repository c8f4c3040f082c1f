//! Port-level scalar types and the kernel's configuration constants.
use vstd::prelude::*;

verus! {

/// Type of one word of a task stack.
pub type StackType = usize;
/// Signed base type of the port.
pub type BaseType = i64;
/// Unsigned base type of the port.
pub type UBaseType = u64;
/// Type used to count ticks.
pub type TickType = u32;

/// The largest tick value; used as "block forever" and as the value of a list's end marker.
pub const PORT_MAX_DELAY: TickType = 0xffff_ffffu32;

/// Number of task priorities; valid priorities are `0..CONFIG_MAX_PRIORITIES`.
pub const CONFIG_MAX_PRIORITIES: UBaseType = 5u64;

/// Stack size, in words, of a task that does not ask for another one.
pub const CONFIG_MINIMAL_STACK_SIZE: UBaseType = 64u64;

/// Number of ticks per second.
pub const CONFIG_TICK_RATE_HZ: TickType = 1000u32;

/// The low bits of an address that the port's byte alignment (eight bytes) clears.
pub const PORT_BYTE_ALIGNMENT_MASK: StackType = 0x0007usize;

/// Boolean values of the port.
pub const PD_TRUE: BaseType = 1i64;
pub const PD_FALSE: BaseType = 0i64;
pub const PD_PASS: BaseType = 1i64;
pub const PD_FAIL: BaseType = 0i64;

/// Returned when a task cannot be created for want of memory.
pub const ERR_COULD_NOT_ALLOCATE_REQUIRED_MEMORY: BaseType = -1i64;

/// Priority of the idle task.
pub const TSK_IDLE_PRIORITY: UBaseType = 0u64;

/// The tick count that corresponds to `ms` milliseconds, computed as the port does
/// (in 32-bit tick arithmetic).
pub open spec fn spec_ms_to_ticks(ms: TickType) -> TickType {
    ((ms as int * CONFIG_TICK_RATE_HZ as int) / 1000) as TickType
}

/// Converts a time in milliseconds into ticks.
pub fn pd_ms_to_ticks(ms: TickType) -> (ticks: TickType)
    ensures
        ticks as int == (ms as int * CONFIG_TICK_RATE_HZ as int) / 1000,
{
    proof {
        let m = ms as int;
        assert(0 <= m * 1000 <= 0xffff_ffff * 1000) by (nonlinear_arith)
            requires 0 <= m <= 0xffff_ffff;
        assert((m * 1000) / 1000 == m) by (nonlinear_arith);
    }
    let product: u64 = (ms as u64) * (CONFIG_TICK_RATE_HZ as u64);
    (product / 1000) as TickType
}

} // verus!
