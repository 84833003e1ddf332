//! What the core knows of the file system: the layout of directory entries.

pub mod dir;
