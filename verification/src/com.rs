//! Gates: the objects through which a VPE sends and receives messages and
//! reaches memory.

pub mod gate;
pub mod mgate;
pub mod rgate;
pub mod sgate;
