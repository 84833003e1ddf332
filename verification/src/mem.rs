//! Physical memory: free-space maps, memory modules and the main memory
//! that the kernel allocates from.

pub mod main;
pub mod map;
pub mod memmod;
