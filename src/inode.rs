//! Inode metadata and the syscall value spaces it is built from.
use vstd::prelude::*;

verus! {

/// Kind of a file-system object.
#[derive(Debug, Clone, Copy, PartialEq, Eq, Structural)]
pub enum FileKind {
    /// Regular file.
    File,
    /// Directory.
    Directory,
}

/// Permission bits of a file, with the standard Unix octal values.
#[derive(Debug, Clone, Copy, PartialEq, Eq, Structural)]
pub struct FileMode(pub u32);

pub const USER_READ: u32 = 0o400;
pub const USER_WRITE: u32 = 0o200;
pub const USER_EXEC: u32 = 0o100;
pub const GROUP_READ: u32 = 0o040;
pub const GROUP_WRITE: u32 = 0o020;
pub const GROUP_EXEC: u32 = 0o010;
pub const OTHER_READ: u32 = 0o004;
pub const OTHER_WRITE: u32 = 0o002;
pub const OTHER_EXEC: u32 = 0o001;
/// Every permission bit.
pub const MODE_ALL: u32 = 0o777;

impl FileMode {
    /// Every permission bit set.
    pub fn all() -> (r: FileMode)
        ensures
            r.0 == MODE_ALL,
    {
        FileMode(MODE_ALL)
    }

    /// No permission bit set.
    pub fn empty() -> (r: FileMode)
        ensures
            r.0 == 0,
    {
        FileMode(0)
    }
}

/// Flags of `openat`.
#[derive(Debug, Clone, Copy, PartialEq, Eq, Structural)]
pub struct OpenFlags(pub u32);

pub const O_RDONLY: u32 = 0;
pub const O_WRONLY: u32 = 0o1;
pub const O_RDWR: u32 = 0o2;
pub const O_CREAT: u32 = 0o100;
pub const O_EXCL: u32 = 0o200;
pub const O_TRUNC: u32 = 0o1000;
pub const O_APPEND: u32 = 0o2000;
pub const O_DIRECTORY: u32 = 0o200000;
/// Every flag bit that `openat` knows.
pub const OPEN_FLAG_BITS: u32 = O_WRONLY | O_RDWR | O_CREAT | O_EXCL | O_TRUNC | O_APPEND
    | O_DIRECTORY;

impl OpenFlags {
    /// The flags hold every bit of `mask`.
    pub open spec fn has(self, mask: u32) -> bool {
        self.0 & mask == mask
    }

    /// Check that the flags hold every bit of `mask`.
    pub fn contains(&self, mask: u32) -> (r: bool)
        ensures
            r == self.has(mask),
    {
        self.0 & mask == mask
    }
}

/// Flags of `unlinkat`.
#[derive(Debug, Clone, Copy, PartialEq, Eq, Structural)]
pub struct UnlinkatFlags(pub u32);

pub const AT_REMOVEDIR: u32 = 0x200;

impl UnlinkatFlags {
    /// The flags hold every bit of `mask`.
    pub open spec fn has(self, mask: u32) -> bool {
        self.0 & mask == mask
    }

    /// Check that the flags hold every bit of `mask`.
    pub fn contains(&self, mask: u32) -> (r: bool)
        ensures
            r == self.has(mask),
    {
        self.0 & mask == mask
    }
}

/// File status as reported by `fstat`.
#[derive(Debug, Clone, Copy, PartialEq, Eq, Structural)]
pub struct FileStat {
    /// Inode number.
    pub ino: usize,
    /// Permission bits.
    pub mode: FileMode,
    /// Link count.
    pub nlink: usize,
    /// User ID.
    pub uid: u32,
    /// Group ID.
    pub gid: u32,
    /// File kind.
    pub kind: FileKind,
}

/// File system I-node: metadata of a regular file or a directory.
#[derive(Debug, Clone, Copy, PartialEq, Eq, Structural)]
pub struct Inode {
    /// File mode.
    pub mode: FileMode,
    /// User ID.
    pub uid: u32,
    /// Group ID.
    pub gid: u32,
    /// Link count.
    pub nlink: usize,
    /// File kind.
    pub kind: FileKind,
}

/// The link count a fresh inode of `kind` starts with: 1 for a regular
/// file, 2 for a directory (its own `.` counts).
pub open spec fn initial_nlink(kind: FileKind) -> usize {
    if kind == FileKind::Directory {
        2
    } else {
        1
    }
}

impl Inode {
    /// Create a new inode, with link count 1 for a regular file and 2 for a
    /// directory.
    pub fn new(mode: FileMode, uid: u32, gid: u32, kind: FileKind) -> (r: Self)
        ensures
            r == (Inode { mode, uid, gid, nlink: initial_nlink(kind), kind }),
    {
        let nlink: usize = if kind == FileKind::Directory {
            2
        } else {
            1
        };
        Inode { mode, uid, gid, nlink, kind }
    }

    /// Create an inode from a file status.
    pub fn from_stat(stat: &FileStat) -> (r: Self)
        ensures
            r == (Inode {
                mode: stat.mode,
                uid: stat.uid,
                gid: stat.gid,
                nlink: stat.nlink,
                kind: stat.kind,
            }),
    {
        Inode { mode: stat.mode, uid: stat.uid, gid: stat.gid, nlink: stat.nlink, kind: stat.kind }
    }

    /// Check if the file is a directory.
    pub fn is_dir(&self) -> (r: bool)
        ensures
            r == (self.kind == FileKind::Directory),
    {
        self.kind == FileKind::Directory
    }

    /// Check if the file is a regular file.
    pub fn is_file(&self) -> (r: bool)
        ensures
            r == (self.kind == FileKind::File),
    {
        self.kind == FileKind::File
    }
}

} // verus!
