//! Constants of the platform.

use vstd::prelude::*;

verus! {

/// The number of bits of an offset into a page.
pub const PAGE_BITS: usize = 12;

/// The bytes of a page.
pub const PAGE_SIZE: usize = 0x1000;

/// The bits of an address that are the offset into its page.
pub const PAGE_MASK: usize = 0xFFF;

/// Where the receive buffers of a VPE start.
pub const RECVBUF_SPACE: usize = 0x3FC00000;

/// The bytes that a VPE has for its receive buffers.
pub const RECVBUF_SIZE: usize = 0x4000;

/// The bytes that a VPE on a scratchpad memory has for its receive buffers.
pub const RECVBUF_SIZE_SPM: usize = 16384;

/// The greatest number of slots that the kernel's own receive buffers have.
pub const MAX_RB_SIZE: usize = 32;

/// Where the addresses that memory capabilities can be mapped at end.
pub const MEM_CAP_END: usize = RECVBUF_SPACE;

/// Where the run-time data of a VPE starts.
pub const RT_START: usize = 0x6000;

/// The bytes of the run-time data.
pub const RT_SIZE: usize = 0x2000;

/// The bytes of the stack.
pub const STACK_SIZE: usize = 0x8000;

/// The lowest address of the stack.
pub const STACK_BOTTOM: usize = 0x9000;

/// One past the highest address of the stack.
pub const STACK_TOP: usize = 0x11000;

/// The bytes of the heap of an application.
pub const APP_HEAP_SIZE: usize = 0x400_0000;

/// The bytes of the heap of a boot module.
pub const MOD_HEAP_SIZE: usize = 0x40_0000;

/// The order of the receive buffer for replies to system calls.
pub const SYSC_RBUF_ORD: i32 = 9;

/// The order of the receive buffer for upcalls.
pub const UPCALL_RBUF_ORD: i32 = 9;

/// The order of the default receive buffer.
pub const DEF_RBUF_ORD: i32 = 8;

/// The bytes of the receive buffer for replies to system calls.
pub const SYSC_RBUF_SIZE: usize = 512;

/// The bytes of the receive buffer for upcalls.
pub const UPCALL_RBUF_SIZE: usize = 512;

/// The bytes of the default receive buffer.
pub const DEF_RBUF_SIZE: usize = 256;

/// The number of endpoints of one processing element.
pub const EP_COUNT: usize = 16;

} // verus!
