//! Errors of the file-system model and their errno encoding.
use vstd::prelude::*;

verus! {

/// File system error.
#[derive(Debug, Clone, Copy, PartialEq, Eq, Structural)]
pub enum FsError {
    /// File not found.
    NotFound,
    /// Permission denied.
    PermissionDenied,
    /// File already exists.
    AlreadyExists,
    /// File is a directory.
    IsDirectory,
    /// File is not a directory.
    NotDirectory,
    /// Fd is out of range.
    BadFd,
    /// Fd is in range but not opened.
    NotOpened,
    /// No available file descriptor.
    NoAvailableFd,
    /// Invalid path.
    InvalidPath,
    /// Directory is not empty.
    DirectoryNotEmpty,
    /// The link count of an inode is at its largest value.
    TooManyLinks,
}

pub const ENOENT: isize = 2;
pub const EBADF: isize = 9;
pub const EACCES: isize = 13;
pub const EEXIST: isize = 17;
pub const ENOTDIR: isize = 20;
pub const EISDIR: isize = 21;
pub const EINVAL: isize = 22;
pub const EMFILE: isize = 24;
pub const EMLINK: isize = 31;
pub const ENOTEMPTY: isize = 39;

/// The errno that stands for an error.
pub open spec fn errno_of(e: FsError) -> isize {
    match e {
        FsError::NotFound => ENOENT,
        FsError::PermissionDenied => EACCES,
        FsError::AlreadyExists => EEXIST,
        FsError::IsDirectory => EISDIR,
        FsError::NotDirectory => ENOTDIR,
        FsError::BadFd => EBADF,
        FsError::NotOpened => EBADF,
        FsError::NoAvailableFd => EMFILE,
        FsError::InvalidPath => EINVAL,
        FsError::DirectoryNotEmpty => ENOTEMPTY,
        FsError::TooManyLinks => EMLINK,
    }
}

/// The syscall return value of an error: its errno, negated.
pub open spec fn err_retv(e: FsError) -> isize {
    (-errno_of(e)) as isize
}

impl FsError {
    /// The syscall return value of this error: the negated errno.
    pub fn into_retv(self) -> (r: isize)
        ensures
            r == err_retv(self),
            r < 0,
    {
        match self {
            FsError::NotFound => -ENOENT,
            FsError::PermissionDenied => -EACCES,
            FsError::AlreadyExists => -EEXIST,
            FsError::IsDirectory => -EISDIR,
            FsError::NotDirectory => -ENOTDIR,
            FsError::BadFd => -EBADF,
            FsError::NotOpened => -EBADF,
            FsError::NoAvailableFd => -EMFILE,
            FsError::InvalidPath => -EINVAL,
            FsError::DirectoryNotEmpty => -ENOTEMPTY,
            FsError::TooManyLinks => -EMLINK,
        }
    }
}

} // verus!
