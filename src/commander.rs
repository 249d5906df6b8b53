//! The command generator: from the model's state and a set of random
//! draws it builds one command, biased toward descriptors that are open,
//! paths that exist, and a small pool of names.
use crate::command::Command;
use crate::fs::{FD_TABLE_SIZE, FDCWD, FileSystem, FsView};
use crate::inode::{
    AT_REMOVEDIR, FileMode, MODE_ALL, O_DIRECTORY, OPEN_FLAG_BITS, OpenFlags, USER_READ,
    UnlinkatFlags,
};
use crate::multikey::{PathV, keys_view, mk_keys};
use crate::path::{display, string_of};
use vstd::prelude::*;

verus! {

/// The number of kinds of command the generator mixes.
pub const COMMAND_KINDS: usize = 7;

/// The number of kinds of command without `linkat`.
pub const KINDS_WITHOUT_LINK: usize = 6;

/// The number of names in the pool of relative paths.
pub const NAMES_LEN: usize = 7;

/// How often, in percent, a descriptor argument is `FDCWD` even when other
/// descriptors are open.
pub const FD_SWITCH_PERCENT: u32 = 20;

/// The random values one command is built from. Each index is taken
/// modulo the size of what it picks from.
#[derive(Debug, Clone, Copy)]
pub struct Draws {
    /// Which kind of command.
    pub kind: usize,
    /// Uniform in `0..100`: below `FD_SWITCH_PERCENT`, the first descriptor
    /// argument is `FDCWD`.
    pub fd_switch: u32,
    /// Which open descriptor, for the first descriptor argument.
    pub fd_pick: usize,
    /// As `fd_switch`, for the second descriptor argument.
    pub fd_switch2: u32,
    /// As `fd_pick`, for the second descriptor argument.
    pub fd_pick2: usize,
    /// Which name, for the first path argument.
    pub name: usize,
    /// Which name, for the second path argument.
    pub name2: usize,
    /// Which existing path, for `chdir`.
    pub path: usize,
    /// Open flags, each bit set with probability one half.
    pub open_flags: u32,
    /// Permission bits, each set with the probability the caller chose.
    pub mode: u32,
    /// `unlinkat` flags.
    pub unlink_flags: u32,
}

/// The open descriptors below `n`, from 3 up (0, 1 and 2 are left out).
pub open spec fn open_fds(fds: Seq<Option<crate::fs::FdView>>, n: int) -> Seq<isize>
    decreases n,
{
    if n <= 0 {
        Seq::empty()
    } else if n - 1 >= 3 && fds[n - 1] is Some {
        open_fds(fds, n - 1).push((n - 1) as isize)
    } else {
        open_fds(fds, n - 1)
    }
}

/// A descriptor argument: `FDCWD` when none is open or the switch says so,
/// otherwise one of the open descriptors.
pub open spec fn pick_fd(cands: Seq<isize>, switch: u32, pick: usize) -> isize {
    if cands.len() == 0 || switch % 100 < FD_SWITCH_PERCENT {
        FDCWD
    } else {
        cands[(pick as int) % (cands.len() as int)]
    }
}

/// The `i`-th name of the pool: `a`, `aa`, ... up to seven letters.
pub open spec fn pool_name(i: usize) -> Seq<char> {
    Seq::new((i % NAMES_LEN + 1) as nat, |j: int| 'a')
}

/// The `chdir` target: one of the existing paths, written out.
pub open spec fn pick_path(paths: Seq<PathV>, pick: usize) -> Seq<char> {
    if paths.len() == 0 {
        seq!['/']
    } else {
        display(paths[(pick as int) % (paths.len() as int)])
    }
}

/// The kind of command a draw selects: one of seven, in the order
/// `openat`, `mkdirat`, `linkat`, `unlinkat`, `dup`, `close`, `chdir`;
/// without `linkat`, one of the other six.
pub open spec fn kind_of(with_link: bool, k: usize) -> usize {
    if with_link {
        k % COMMAND_KINDS
    } else if k % KINDS_WITHOUT_LINK < 2 {
        k % KINDS_WITHOUT_LINK
    } else {
        (k % KINDS_WITHOUT_LINK + 1) as usize
    }
}

/// The command built from the state `s` and the draws `d`.
pub open spec fn command_spec(with_link: bool, s: FsView, d: Draws, c: Command) -> bool {
    let cands = open_fds(s.fds, FD_TABLE_SIZE as int);
    let fd1 = pick_fd(cands, d.fd_switch, d.fd_pick);
    let fd2 = pick_fd(cands, d.fd_switch2, d.fd_pick2);
    let mode = FileMode((d.mode & MODE_ALL) | USER_READ);
    match kind_of(with_link, d.kind) {
        0 => c matches Command::Openat { dirfd, path, flags, mode: m } && dirfd == fd1 && path@
            == pool_name(d.name) && flags == OpenFlags(d.open_flags & (OPEN_FLAG_BITS & !O_DIRECTORY))
            && m == mode,
        1 => c matches Command::Mkdirat { dirfd, path, mode: m } && dirfd == fd1 && path@
            == pool_name(d.name) && m == mode,
        2 => c matches Command::Linkat { olddirfd, oldpath, newdirfd, newpath } && olddirfd == fd1
            && oldpath@ == pool_name(d.name) && newdirfd == fd2 && newpath@ == pool_name(d.name2),
        3 => c matches Command::Unlinkat { dirfd, path, flags } && dirfd == fd1 && path@ == pool_name(
            d.name,
        ) && flags == UnlinkatFlags(d.unlink_flags & AT_REMOVEDIR),
        4 => c == Command::Dup { oldfd: fd1 },
        5 => c == Command::Close { fd: fd1 },
        _ => c matches Command::Chdir { path } && path@ == pick_path(mk_keys(s.inodes), d.path),
    }
}

/// The command generator.
#[derive(Debug, Clone, Copy)]
pub struct FsCommander {
    /// Whether `linkat` is in the mix (file systems such as FAT have no
    /// hard links).
    pub with_link: bool,
}

/// The `i`-th name of the pool.
fn name_of(i: usize) -> (r: String)
    ensures
        r@ == pool_name(i),
{
    let n = i % NAMES_LEN + 1;
    let mut v: Vec<char> = Vec::new();
    for k in 0..n
        invariant
            v@ == Seq::new(k as nat, |j: int| 'a'),
    {
        v.push('a');
        assert(v@ =~= Seq::new((k + 1) as nat, |j: int| 'a'));
    }
    string_of(&v)
}

/// The open descriptors from 3 up.
fn candidate_fds(state: &FileSystem) -> (r: Vec<isize>)
    requires
        state.wf(),
    ensures
        r@ == open_fds(state@.fds, FD_TABLE_SIZE as int),
{
    let mut r: Vec<isize> = Vec::new();
    for i in 0..FD_TABLE_SIZE
        invariant
            state.wf(),
            r@ == open_fds(state@.fds, i as int),
    {
        if i >= 3 && state.fd_in_use(i) {
            r.push(i as isize);
        }
    }
    r
}

fn choose_fd(cands: &Vec<isize>, switch: u32, pick: usize) -> (r: isize)
    ensures
        r == pick_fd(cands@, switch, pick),
{
    if cands.len() == 0 || switch % 100 < FD_SWITCH_PERCENT {
        FDCWD
    } else {
        cands[pick % cands.len()]
    }
}

impl FsCommander {
    /// A generator that mixes all seven kinds of command.
    pub fn new() -> (r: Self)
        ensures
            r.with_link,
    {
        FsCommander { with_link: true }
    }

    /// A generator that leaves `linkat` out.
    pub fn without_link() -> (r: Self)
        ensures
            !r.with_link,
    {
        FsCommander { with_link: false }
    }

    /// Build one command from the state and the draws.
    pub fn command(&self, state: &FileSystem, d: &Draws) -> (r: Command)
        requires
            state.wf(),
        ensures
            command_spec(self.with_link, state@, *d, r),
    {
        let cands = candidate_fds(state);
        let fd1 = choose_fd(&cands, d.fd_switch, d.fd_pick);
        let fd2 = choose_fd(&cands, d.fd_switch2, d.fd_pick2);
        let mode = FileMode((d.mode & MODE_ALL) | USER_READ);
        let k = if self.with_link {
            d.kind % COMMAND_KINDS
        } else if d.kind % KINDS_WITHOUT_LINK < 2 {
            d.kind % KINDS_WITHOUT_LINK
        } else {
            d.kind % KINDS_WITHOUT_LINK + 1
        };
        if k == 0 {
            Command::Openat {
                dirfd: fd1,
                path: name_of(d.name),
                flags: OpenFlags(d.open_flags & (OPEN_FLAG_BITS & !O_DIRECTORY)),
                mode,
            }
        } else if k == 1 {
            Command::Mkdirat { dirfd: fd1, path: name_of(d.name), mode }
        } else if k == 2 {
            Command::Linkat {
                olddirfd: fd1,
                oldpath: name_of(d.name),
                newdirfd: fd2,
                newpath: name_of(d.name2),
            }
        } else if k == 3 {
            Command::Unlinkat {
                dirfd: fd1,
                path: name_of(d.name),
                flags: UnlinkatFlags(d.unlink_flags & AT_REMOVEDIR),
            }
        } else if k == 4 {
            Command::Dup { oldfd: fd1 }
        } else if k == 5 {
            Command::Close { fd: fd1 }
        } else {
            let paths = state.paths();
            let ghost ks = mk_keys(state@.inodes);
            assert(keys_view(paths@).len() == paths@.len());
            if paths.len() == 0 {
                let slash = string_of(&vec!['/']);
                assert(slash@ == seq!['/']);
                assert(pick_path(ks, d.path) == seq!['/']);
                Command::Chdir { path: slash }
            } else {
                let idx = d.path % paths.len();
                let p = &paths[idx];
                assert(keys_view(paths@)[idx as int] == p@);
                assert(idx as int == (d.path as int) % (paths.len() as int));
                let ds = p.display_string();
                assert(ds@ == pick_path(ks, d.path));
                Command::Chdir { path: ds }
            }
        }
    }
}

} // verus!
