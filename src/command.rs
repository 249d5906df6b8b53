//! The syscalls of the model: each resolves its path arguments, acts on the
//! file system and returns what the kernel returns, a non-negative value
//! or a negated errno.
use crate::error::{FsError, err_retv, errno_of};
use crate::fs::{
    FdRefView, first_free, fs_wf, lemma_create_keeps, lemma_first_free_slot,
    lemma_link_keeps, lemma_link_unlink_restores, lemma_mkdir_rmdir_restores,
    lemma_parse_path_stable, FdView, FileDescriptor, FileSystem, FsView, alloc_fd_spec,
    chdir_spec, create_spec, cwd_ok, exists_spec, free_fd_spec, get_fd_spec, link_spec,
    parse_path_spec, target_ok, unlink_spec,
};
use crate::inode::{AT_REMOVEDIR, FileKind, FileMode, Inode, O_CREAT, OpenFlags, UnlinkatFlags, initial_nlink};
use crate::multikey::{lemma_push_class, mk_has};
use vstd::prelude::*;

verus! {

/// The return value of a syscall that returns nothing on success.
pub open spec fn retv_unit(r: Result<(), FsError>) -> isize {
    match r {
        Ok(_) => 0,
        Err(e) => err_retv(e),
    }
}

/// The return value of a syscall that returns a descriptor on success.
pub open spec fn retv_fd(r: Result<isize, FsError>) -> isize {
    match r {
        Ok(fd) => fd,
        Err(e) => err_retv(e),
    }
}

/// `openat`: the return value and the state after it.
pub open spec fn openat_spec(
    s: FsView,
    dirfd: isize,
    path: Seq<char>,
    flags: OpenFlags,
    mode: FileMode,
) -> (isize, FsView) {
    match parse_path_spec(s, dirfd, path) {
        Err(e) => (err_retv(e), s),
        Ok(p) => {
            let c = if exists_spec(s, p) {
                (Ok(()), s)
            } else if !flags.has(O_CREAT) {
                (Err(FsError::NotFound), s)
            } else {
                create_spec(s, p, FileKind::File, mode)
            };
            match c.0 {
                Err(e) => (err_retv(e), c.1),
                Ok(_) => {
                    let a = alloc_fd_spec(c.1, FdView { target: FdRefView::Existing(p), flags });
                    (retv_fd(a.0), a.1)
                },
            }
        },
    }
}

/// `close`: the return value and the state after it.
pub open spec fn close_spec(s: FsView, fd: isize) -> (isize, FsView) {
    let r = free_fd_spec(s, fd);
    (retv_unit(r.0), r.1)
}

/// `mkdirat`: the return value and the state after it.
pub open spec fn mkdirat_spec(s: FsView, dirfd: isize, path: Seq<char>, mode: FileMode) -> (
    isize,
    FsView,
) {
    match parse_path_spec(s, dirfd, path) {
        Err(e) => (err_retv(e), s),
        Ok(p) => {
            let r = create_spec(s, p, FileKind::Directory, mode);
            (retv_unit(r.0), r.1)
        },
    }
}

/// `linkat`: the return value and the state after it.
pub open spec fn linkat_spec(
    s: FsView,
    olddirfd: isize,
    oldpath: Seq<char>,
    newdirfd: isize,
    newpath: Seq<char>,
) -> (isize, FsView) {
    match parse_path_spec(s, olddirfd, oldpath) {
        Err(e) => (err_retv(e), s),
        Ok(a) => match parse_path_spec(s, newdirfd, newpath) {
            Err(e) => (err_retv(e), s),
            Ok(b) => {
                let r = link_spec(s, a, b);
                (retv_unit(r.0), r.1)
            },
        },
    }
}

/// `unlinkat`: the return value and the state after it.
pub open spec fn unlinkat_spec(s: FsView, dirfd: isize, path: Seq<char>, flags: UnlinkatFlags) -> (
    isize,
    FsView,
) {
    match parse_path_spec(s, dirfd, path) {
        Err(e) => (err_retv(e), s),
        Ok(p) => {
            let r = unlink_spec(s, p, flags.has(AT_REMOVEDIR));
            (retv_unit(r.0), r.1)
        },
    }
}

/// `dup`: the return value and the state after it; the new descriptor
/// shares the entry of the old one.
pub open spec fn dup_spec(s: FsView, oldfd: isize) -> (isize, FsView) {
    match get_fd_spec(s, oldfd) {
        Err(e) => (err_retv(e), s),
        Ok(entry) => {
            let a = alloc_fd_spec(s, entry);
            (retv_fd(a.0), a.1)
        },
    }
}

/// `chdir` on a path argument: the return value and the state after it.
pub open spec fn chdirat_spec(s: FsView, dirfd: isize, path: Seq<char>) -> (isize, FsView) {
    match parse_path_spec(s, dirfd, path) {
        Err(e) => (err_retv(e), s),
        Ok(p) => {
            let r = chdir_spec(s, p);
            (retv_unit(r.0), r.1)
        },
    }
}

impl FileSystem {
    /// Open (and with `O_CREAT`, create) a regular file; returns the new
    /// descriptor.
    pub fn openat(&mut self, dirfd: isize, path: &str, flags: OpenFlags, mode: FileMode) -> (r:
        isize)
        requires
            old(self).wf(),
        ensures
            final(self).wf(),
            (r, final(self)@) == openat_spec(old(self)@, dirfd, path@, flags, mode),
            cwd_ok(old(self)@) ==> cwd_ok(final(self)@),
    {
        let ghost s = self@;
        let p = match self.parse_path(dirfd, path) {
            Ok(p) => p,
            Err(e) => {
                return e.into_retv();
            },
        };
        if !self.path_exists(&p) {
            if !flags.contains(O_CREAT) {
                return FsError::NotFound.into_retv();
            }
            match self.create(p.duplicate(), FileKind::File, mode) {
                Ok(_) => {},
                Err(e) => {
                    return e.into_retv();
                },
            }
            proof {
                let inode = Inode {
                    mode,
                    uid: s.uid,
                    gid: s.gid,
                    nlink: initial_nlink(FileKind::File),
                    kind: FileKind::File,
                };
                lemma_push_class(s.inodes, p@, inode);
            }
        }
        let ghost s1 = self@;
        assert(mk_has(s1.inodes, p@));
        match self.alloc_fd(FileDescriptor::new_path(p, flags)) {
            Ok(fd) => fd,
            Err(e) => e.into_retv(),
        }
    }

    /// Close a file descriptor.
    pub fn close(&mut self, fd: isize) -> (r: isize)
        requires
            old(self).wf(),
        ensures
            final(self).wf(),
            (r, final(self)@) == close_spec(old(self)@, fd),
            cwd_ok(old(self)@) ==> cwd_ok(final(self)@),
    {
        match self.free_fd(fd) {
            Ok(_) => 0,
            Err(e) => e.into_retv(),
        }
    }

    /// Create a directory.
    pub fn mkdirat(&mut self, dirfd: isize, path: &str, mode: FileMode) -> (r: isize)
        requires
            old(self).wf(),
        ensures
            final(self).wf(),
            (r, final(self)@) == mkdirat_spec(old(self)@, dirfd, path@, mode),
            cwd_ok(old(self)@) ==> cwd_ok(final(self)@),
    {
        let p = match self.parse_path(dirfd, path) {
            Ok(p) => p,
            Err(e) => {
                return e.into_retv();
            },
        };
        match self.create(p, FileKind::Directory, mode) {
            Ok(_) => 0,
            Err(e) => e.into_retv(),
        }
    }

    /// Make a new name `newpath` for the file `oldpath`.
    pub fn linkat(&mut self, olddirfd: isize, oldpath: &str, newdirfd: isize, newpath: &str) -> (r:
        isize)
        requires
            old(self).wf(),
        ensures
            final(self).wf(),
            (r, final(self)@) == linkat_spec(old(self)@, olddirfd, oldpath@, newdirfd, newpath@),
            cwd_ok(old(self)@) ==> cwd_ok(final(self)@),
    {
        let a = match self.parse_path(olddirfd, oldpath) {
            Ok(p) => p,
            Err(e) => {
                return e.into_retv();
            },
        };
        let b = match self.parse_path(newdirfd, newpath) {
            Ok(p) => p,
            Err(e) => {
                return e.into_retv();
            },
        };
        match self.link(&a, b) {
            Ok(_) => 0,
            Err(e) => e.into_retv(),
        }
    }

    /// Remove a name; with `AT_REMOVEDIR`, an empty directory.
    pub fn unlinkat(&mut self, dirfd: isize, path: &str, flags: UnlinkatFlags) -> (r: isize)
        requires
            old(self).wf(),
        ensures
            final(self).wf(),
            (r, final(self)@) == unlinkat_spec(old(self)@, dirfd, path@, flags),
            cwd_ok(old(self)@) && (parse_path_spec(old(self)@, dirfd, path@) is Ok ==> parse_path_spec(
                old(self)@,
                dirfd,
                path@,
            )->Ok_0 != old(self)@.cwd) ==> cwd_ok(final(self)@),
    {
        let p = match self.parse_path(dirfd, path) {
            Ok(p) => p,
            Err(e) => {
                return e.into_retv();
            },
        };
        match self.unlink(&p, flags.contains(AT_REMOVEDIR)) {
            Ok(_) => 0,
            Err(e) => e.into_retv(),
        }
    }

    /// Duplicate a file descriptor onto the lowest free one.
    pub fn dup(&mut self, oldfd: isize) -> (r: isize)
        requires
            old(self).wf(),
        ensures
            final(self).wf(),
            (r, final(self)@) == dup_spec(old(self)@, oldfd),
            cwd_ok(old(self)@) ==> cwd_ok(final(self)@),
    {
        let entry = match self.get_fd(oldfd) {
            Ok(d) => d,
            Err(e) => {
                return e.into_retv();
            },
        };
        assert(target_ok(self@, entry@.target)) by {
            assert(self@.fds[oldfd as int] is Some);
        }
        match self.alloc_fd(entry) {
            Ok(fd) => fd,
            Err(e) => e.into_retv(),
        }
    }

    /// Change the current directory to `path`, resolved as `openat` does.
    pub fn chdirat(&mut self, dirfd: isize, path: &str) -> (r: isize)
        requires
            old(self).wf(),
        ensures
            final(self).wf(),
            (r, final(self)@) == chdirat_spec(old(self)@, dirfd, path@),
            r == 0 ==> cwd_ok(final(self)@),
            cwd_ok(old(self)@) ==> cwd_ok(final(self)@),
    {
        let p = match self.parse_path(dirfd, path) {
            Ok(p) => p,
            Err(e) => {
                return e.into_retv();
            },
        };
        match self.chdir(p) {
            Ok(_) => 0,
            Err(e) => e.into_retv(),
        }
    }
}

/// Opening a path that exists and closing the descriptor that comes back
/// leaves the state as it was; when no descriptor is free, the open alone
/// changes nothing.
pub proof fn lemma_open_close_neutral(
    s: FsView,
    dirfd: isize,
    path: Seq<char>,
    flags: OpenFlags,
    mode: FileMode,
)
    requires
        fs_wf(s),
        parse_path_spec(s, dirfd, path) is Ok,
        exists_spec(s, parse_path_spec(s, dirfd, path)->Ok_0),
    ensures
        ({
            let (fd, s1) = openat_spec(s, dirfd, path, flags, mode);
            if fd >= 0 {
                close_spec(s1, fd) == (0isize, s)
            } else {
                s1 == s
            }
        }),
{
    let (fd, s1) = openat_spec(s, dirfd, path, flags, mode);
    let t = first_free(s.fds);
    lemma_first_free_slot(s.fds);
    if t < s.fds.len() {
        assert(fd == t);
        assert(s1.fds[t] is Some);
        let s2 = close_spec(s1, fd).1;
        assert(s2.fds =~= s.fds);
        assert(s2 == s);
    }
}

/// `mkdirat` of a path that does not exist, then `unlinkat` of the same
/// arguments with `AT_REMOVEDIR`, gives back the same inodes and the same
/// current directory; when `mkdirat` succeeds, so does `unlinkat`.
pub proof fn lemma_mkdirat_unlinkat_restores(
    s: FsView,
    dirfd: isize,
    path: Seq<char>,
    mode: FileMode,
    flags: UnlinkatFlags,
)
    requires
        fs_wf(s),
        flags.has(AT_REMOVEDIR),
        parse_path_spec(s, dirfd, path) is Ok ==> !exists_spec(
            s,
            parse_path_spec(s, dirfd, path)->Ok_0,
        ),
    ensures
        ({
            let (r1, s1) = mkdirat_spec(s, dirfd, path, mode);
            let (r2, s2) = unlinkat_spec(s1, dirfd, path, flags);
            &&& s2.inodes == s.inodes
            &&& s2.cwd == s.cwd
            &&& r1 == 0 ==> r2 == 0
        }),
{
    match parse_path_spec(s, dirfd, path) {
        Ok(p) => {
            let s1 = create_spec(s, p, FileKind::Directory, FileMode(mode.0)).1;
            assert(mode == FileMode(mode.0));
            lemma_create_keeps(s, p, FileKind::Directory, mode);
            lemma_parse_path_stable(s, s1, dirfd, path);
            lemma_mkdir_rmdir_restores(s, p, mode);
            let r = create_spec(s, p, FileKind::Directory, mode).0;
            if let Err(e) = r {
                assert(errno_of(e) > 0);
            }
        },
        Err(_) => {},
    }
}

/// `linkat` of an existing path to a new one, then `unlinkat` of the new
/// one as a file, gives back the same inodes.
pub proof fn lemma_linkat_unlinkat_restores(
    s: FsView,
    olddirfd: isize,
    oldpath: Seq<char>,
    newdirfd: isize,
    newpath: Seq<char>,
    flags: UnlinkatFlags,
)
    requires
        fs_wf(s),
        !flags.has(AT_REMOVEDIR),
        parse_path_spec(s, olddirfd, oldpath) is Ok,
        exists_spec(s, parse_path_spec(s, olddirfd, oldpath)->Ok_0),
        parse_path_spec(s, newdirfd, newpath) is Ok,
        !exists_spec(s, parse_path_spec(s, newdirfd, newpath)->Ok_0),
    ensures
        unlinkat_spec(
            linkat_spec(s, olddirfd, oldpath, newdirfd, newpath).1,
            newdirfd,
            newpath,
            flags,
        ).1.inodes == s.inodes,
{
    let a = parse_path_spec(s, olddirfd, oldpath)->Ok_0;
    let b = parse_path_spec(s, newdirfd, newpath)->Ok_0;
    let s1 = link_spec(s, a, b).1;
    lemma_link_keeps(s, a, b);
    lemma_parse_path_stable(s, s1, newdirfd, newpath);
    lemma_link_unlink_restores(s, a, b);
}

/// One syscall with its arguments, as the generator produces it and as the
/// kernel under test receives it.
#[derive(Debug)]
pub enum Command {
    Openat { dirfd: isize, path: String, flags: OpenFlags, mode: FileMode },
    Close { fd: isize },
    Mkdirat { dirfd: isize, path: String, mode: FileMode },
    Linkat { olddirfd: isize, oldpath: String, newdirfd: isize, newpath: String },
    Unlinkat { dirfd: isize, path: String, flags: UnlinkatFlags },
    Dup { oldfd: isize },
    Chdir { path: String },
    /// Read-only: the status of a descriptor.
    Fstat { fd: isize },
    /// Read-only: the next entries of a directory.
    Getdents { fd: isize, count: usize },
    /// Read-only: the current directory.
    Getcwd,
    Nop,
}

/// What a command returns and the state after it. The read-only commands
/// leave the model alone and return 0.
pub open spec fn apply_spec(c: Command, s: FsView) -> (isize, FsView) {
    match c {
        Command::Openat { dirfd, path, flags, mode } => openat_spec(s, dirfd, path@, flags, mode),
        Command::Close { fd } => close_spec(s, fd),
        Command::Mkdirat { dirfd, path, mode } => mkdirat_spec(s, dirfd, path@, mode),
        Command::Linkat { olddirfd, oldpath, newdirfd, newpath } => linkat_spec(
            s,
            olddirfd,
            oldpath@,
            newdirfd,
            newpath@,
        ),
        Command::Unlinkat { dirfd, path, flags } => unlinkat_spec(s, dirfd, path@, flags),
        Command::Dup { oldfd } => dup_spec(s, oldfd),
        Command::Chdir { path } => chdirat_spec(s, crate::fs::FDCWD, path@),
        _ => (0, s),
    }
}

/// The command removes the current directory itself.
pub open spec fn removes_cwd(c: Command, s: FsView) -> bool {
    match c {
        Command::Unlinkat { dirfd, path, .. } => parse_path_spec(s, dirfd, path@) == Ok::<
            Seq<Seq<char>>,
            FsError,
        >(s.cwd),
        _ => false,
    }
}

impl Command {
    /// Apply the command to the model, returning what the syscall returns.
    pub fn apply(&self, fs: &mut FileSystem) -> (r: isize)
        requires
            old(fs).wf(),
        ensures
            final(fs).wf(),
            (r, final(fs)@) == apply_spec(*self, old(fs)@),
            cwd_ok(old(fs)@) && !removes_cwd(*self, old(fs)@) ==> cwd_ok(final(fs)@),
    {
        match self {
            Command::Openat { dirfd, path, flags, mode } => fs.openat(*dirfd, path.as_str(), *flags, *mode),
            Command::Close { fd } => fs.close(*fd),
            Command::Mkdirat { dirfd, path, mode } => fs.mkdirat(*dirfd, path.as_str(), *mode),
            Command::Linkat { olddirfd, oldpath, newdirfd, newpath } => fs.linkat(
                *olddirfd,
                oldpath.as_str(),
                *newdirfd,
                newpath.as_str(),
            ),
            Command::Unlinkat { dirfd, path, flags } => fs.unlinkat(*dirfd, path.as_str(), *flags),
            Command::Dup { oldfd } => fs.dup(*oldfd),
            Command::Chdir { path } => fs.chdirat(crate::fs::FDCWD, path.as_str()),
            _ => 0,
        }
    }
}

} // verus!
