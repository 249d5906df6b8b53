//! An executable, verified model of a POSIX-style file system: paths,
//! inodes with hard links, a descriptor table, and the syscalls that act on
//! them, together with the state machine that rebuilds a file-system state
//! from the replies of a kernel under test.
pub mod checker;
pub mod command;
pub mod commander;
pub mod error;
pub mod fs;
pub mod inode;
pub mod multikey;
pub mod path;
pub mod port;
