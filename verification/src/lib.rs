//! The capability, communication and memory core of a microkernel for
//! heterogeneous manycores.
//!
//! VPEs, the isolated execution contexts of the machine, share nothing but
//! what the kernel hands them: capabilities, which they can derive, pass on
//! and revoke, and endpoints of the data transfer unit, through which the
//! gates that the capabilities stand for send and receive messages under a
//! budget of credits. Memory capabilities are backed by the main memory,
//! whose modules the kernel allocates from.
//!
//! The state of the kernel is one explicit context object, [`kernel::Kernel`];
//! every operation is a function on it with a contract over its capability
//! table, its main memory and the endpoints of its VPEs.

pub mod addr;
pub mod cap;
pub mod cfg;
pub mod com;
pub mod dtu;
pub mod eps;
pub mod errors;
pub mod kernel;
pub mod kif;
pub mod mem;
pub mod revoke;
pub mod selftest;
pub mod service;
pub mod syscalls;
pub mod transfer;
pub mod vfs;
pub mod vpe;
