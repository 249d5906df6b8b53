//! Rebuilding the file-system state of the kernel under test from the
//! replies to read-only syscalls: a depth-first walk from `/` with
//! `openat`, `fstat`, `getdents` and `close`, then `getcwd`. The walk is a
//! state machine; whoever talks to the kernel sends each command it hands
//! out and feeds the reply back.
use crate::command::Command;
use crate::fs::FileSystem;
use crate::inode::{FileKind, FileMode, FileStat, Inode, O_RDONLY, OpenFlags};
use crate::multikey::{ClassV, MultiKeyMap, PathV, lemma_add_alias, lemma_push_class, mk_has, mk_wf};
use crate::path::{AbsPath, join_spec, normalize_spec, string_of};
use std::collections::HashMap;
use vstd::prelude::*;

verus! {

broadcast use vstd::std_specs::hash::group_hash_axioms;

/// Execution step of the walk: the reply it waits for.
#[derive(Debug, Clone, Copy, PartialEq, Eq, Structural)]
pub enum Step {
    /// The reply to `openat`.
    Open,
    /// The reply to `getdents`.
    Getdents,
    /// The reply to `fstat`.
    Fstat,
    /// The reply to `close`.
    Close,
    /// The reply to `getcwd`.
    Getcwd,
    /// The walk is over.
    Done,
}

/// A directory entry as `getdents` reports it.
#[derive(Debug)]
pub struct DirEntry {
    /// Inode number.
    pub ino: usize,
    /// File kind.
    pub kind: FileKind,
    /// Entry name.
    pub name: String,
}

/// A reply of the kernel: the return value, and the payload that came with
/// it when there is one.
#[derive(Debug)]
pub struct Reply {
    pub retv: isize,
    /// The status that `fstat` returned.
    pub stat: Option<FileStat>,
    /// The entry that `getdents` returned.
    pub dent: Option<DirEntry>,
    /// The path that `getcwd` returned.
    pub cwd: Option<String>,
}

/// Why the walk stopped.
#[derive(Debug, Clone, Copy, PartialEq, Eq, Structural)]
pub enum PortError {
    /// A command failed, a payload is missing or malformed, or the reply
    /// does not fit the walk.
    Io,
}

/// One open directory or file of the walk.
#[derive(Debug)]
pub struct Frame {
    fd: isize,
    name: String,
    path: AbsPath,
}

/// The view of a frame: descriptor, name and absolute path.
pub type FrameV = (isize, Seq<char>, PathV);

impl View for Frame {
    type V = FrameV;

    closed spec fn view(&self) -> FrameV {
        (self.fd, self.name@, self.path@)
    }
}

/// The view of the walk.
pub struct PortView {
    pub step: Step,
    pub stack: Seq<FrameV>,
    pub fs: Seq<ClassV<Inode>>,
    pub seen: Map<usize, PathV>,
    pub cwd: PathV,
}

/// State retrieval port: walks the kernel's file system and collects it.
pub struct FsTestPort {
    /// Current working directory.
    cwd: AbsPath,
    /// File-system structure collected so far.
    fs: MultiKeyMap<Inode>,
    /// The walk's stack of open inodes.
    stack: Vec<Frame>,
    /// Inode numbers seen so far, with their first path (for hard links).
    seen_inodes: HashMap<usize, AbsPath>,
    /// Execution step.
    step: Step,
}

pub open spec fn frames_view(v: Seq<Frame>) -> Seq<FrameV> {
    v.map_values(|f: Frame| f@)
}

pub open spec fn seen_view(m: Map<usize, AbsPath>) -> Map<usize, PathV> {
    m.map_values(|p: AbsPath| p@)
}

impl View for FsTestPort {
    type V = PortView;

    closed spec fn view(&self) -> PortView {
        PortView {
            step: self.step,
            stack: frames_view(self.stack@),
            fs: self.fs@,
            seen: seen_view(self.seen_inodes@),
            cwd: self.cwd@,
        }
    }
}

/// The walk's invariant: the collected map is well formed and, while the
/// walk waits for a reply about an open inode, there is one on the stack.
pub open spec fn port_wf(v: PortView) -> bool {
    &&& mk_wf(v.fs)
    &&& (v.step == Step::Open || v.step == Step::Fstat || v.step == Step::Getdents || v.step
        == Step::Close) ==> v.stack.len() > 0
}

/// The command that asks for the next entry of the directory open as `fd`.
pub open spec fn is_getdents(c: Command, fd: isize) -> bool {
    c == Command::Getdents { fd, count: 1 }
}

/// The name of a directory entry is `.` or `..`.
pub open spec fn is_dot_name(n: Seq<char>) -> bool {
    n == seq!['.'] || n == seq!['.', '.']
}

/// Reply to `openat`: the descriptor goes to the stack top; `fstat` of it
/// comes next.
pub open spec fn open_post(v: PortView, reply: Reply, r: Result<Option<Command>, PortError>, n: PortView) -> bool {
    let top = v.stack.last();
    if reply.retv < 0 {
        r == Err::<Option<Command>, PortError>(PortError::Io) && n == v
    } else {
        &&& r == Ok::<Option<Command>, PortError>(Some(Command::Fstat { fd: reply.retv }))
        &&& n == PortView {
            step: Step::Fstat,
            stack: v.stack.update(v.stack.len() - 1, (reply.retv, top.1, top.2)),
            ..v
        }
    }
}

/// Reply to `fstat`: the stack top's path is recorded, as an alias of the
/// first path of the same inode number if one was seen; a file is closed
/// next, a directory is listed.
pub open spec fn fstat_post(v: PortView, reply: Reply, r: Result<Option<Command>, PortError>, n: PortView) -> bool {
    let top = v.stack.last();
    let p = top.2;
    let st = reply.stat->0;
    let next = if st.kind == FileKind::File {
        Command::Close { fd: top.0 }
    } else {
        Command::Getdents { fd: top.0, count: 1 }
    };
    let next_step = if st.kind == FileKind::File {
        Step::Close
    } else {
        Step::Getdents
    };
    if reply.retv < 0 || reply.stat is None || mk_has(v.fs, p) {
        r == Err::<Option<Command>, PortError>(PortError::Io) && n == v
    } else {
        if v.seen.contains_key(st.ino) {
            let q = v.seen[st.ino];
            if !mk_has(v.fs, q) {
                r == Err::<Option<Command>, PortError>(PortError::Io) && n == v
            } else {
                let c = crate::multikey::class_of(v.fs, q);
                &&& r == Ok::<Option<Command>, PortError>(Some(next))
                &&& n == PortView {
                    step: next_step,
                    fs: v.fs.update(c, (v.fs[c].0.push(p), v.fs[c].1)),
                    ..v
                }
            }
        } else {
                &&& r == Ok::<Option<Command>, PortError>(Some(next))
                &&& n == PortView {
                    step: next_step,
                    fs: v.fs.push(
                        (
                            seq![p],
                            Inode {
                                mode: st.mode,
                                uid: st.uid,
                                gid: st.gid,
                                nlink: st.nlink,
                                kind: st.kind,
                            },
                        ),
                    ),
                    seen: v.seen.insert(st.ino, p),
                    ..v
                }
        }
    }
}

/// Reply to `getdents`: at the end of the listing the directory is closed;
/// `.` and `..` are skipped; any other entry is pushed and opened.
pub open spec fn getdents_post(
    v: PortView,
    reply: Reply,
    r: Result<Option<Command>, PortError>,
    n: PortView,
) -> bool {
    let top = v.stack.last();
    if reply.retv < 0 {
        r == Err::<Option<Command>, PortError>(PortError::Io) && n == v
    } else if reply.retv == 0 {
        r == Ok::<Option<Command>, PortError>(Some(Command::Close { fd: top.0 }))
            && n == PortView { step: Step::Close, ..v }
    } else if reply.dent is None {
        r == Err::<Option<Command>, PortError>(PortError::Io) && n == v
    } else {
        let name = reply.dent->0.name@;
        if is_dot_name(name) {
            r == Ok::<Option<Command>, PortError>(Some(Command::Getdents { fd: top.0, count: 1 }))
                && n == v
        } else {
            match join_spec(top.2, name) {
                None => r == Err::<Option<Command>, PortError>(PortError::Io) && n == v,
                Some(np) => {
                    &&& r matches Ok(Some(Command::Openat { dirfd, path, flags, mode }))
                    &&& dirfd == top.0 && path@ == name && flags == OpenFlags(O_RDONLY) && mode
                        == FileMode(0)
                    &&& n == PortView {
                        step: Step::Open,
                        stack: v.stack.push((-1isize, name, np)),
                        ..v
                    }
                },
            }
        }
    }
}

/// Reply to `close`: the stack top is popped; the listing of its parent
/// goes on, or, at the bottom, `getcwd` comes next.
pub open spec fn close_post(v: PortView, reply: Reply, r: Result<Option<Command>, PortError>, n: PortView) -> bool {
    let rest = v.stack.drop_last();
    if reply.retv < 0 {
        r == Err::<Option<Command>, PortError>(PortError::Io) && n == v
    } else if rest.len() == 0 {
        r == Ok::<Option<Command>, PortError>(Some(Command::Getcwd))
            && n == PortView { step: Step::Getcwd, stack: rest, ..v }
    } else {
        r == Ok::<Option<Command>, PortError>(Some(Command::Getdents { fd: rest.last().0, count: 1 }))
            && n == PortView { step: Step::Getdents, stack: rest, ..v }
    }
}

/// Reply to `getcwd`: the normalized path becomes the current directory and
/// the walk is over.
pub open spec fn getcwd_post(v: PortView, reply: Reply, r: Result<Option<Command>, PortError>, n: PortView) -> bool {
    if reply.retv < 0 || reply.cwd is None || normalize_spec(reply.cwd->0@) is None {
        r == Err::<Option<Command>, PortError>(PortError::Io) && n == v
    } else {
        r == Ok::<Option<Command>, PortError>(None) && n == PortView {
            step: Step::Done,
            cwd: normalize_spec(reply.cwd->0@)->0,
            ..v
        }
    }
}

impl FsTestPort {
    /// A port that has not started a walk.
    pub fn new() -> (r: Self)
        ensures
            r@.step == Step::Done,
            r@.stack.len() == 0,
            r@.fs.len() == 0,
            r@.seen.is_empty(),
            r@.cwd == Seq::<Seq<char>>::empty(),
            port_wf(r@),
    {
        let r = FsTestPort {
            cwd: AbsPath::root(),
            fs: MultiKeyMap::new(),
            stack: Vec::new(),
            seen_inodes: HashMap::new(),
            step: Step::Done,
        };
        assert(r@.stack =~= Seq::<FrameV>::empty());
        assert(r@.seen =~= Map::<usize, PathV>::empty());
        r
    }

    /// Start a walk: forget what was collected, put `/` on the stack and
    /// hand out the `openat` of `/`.
    pub fn start_state_retrieval(&mut self) -> (r: Command)
        ensures
            port_wf(final(self)@),
            final(self)@.step == Step::Open,
            final(self)@.stack == seq![(-1isize, Seq::<char>::empty(), Seq::<Seq<char>>::empty())],
            final(self)@.fs.len() == 0,
            final(self)@.seen.is_empty(),
            r matches Command::Openat { dirfd, path, flags, mode } && dirfd == -1 && path@ == seq!['/']
                && flags == OpenFlags(O_RDONLY) && mode == FileMode(0),
    {
        self.stack = Vec::new();
        self.seen_inodes.clear();
        self.fs.clear();
        self.stack.push(Frame { fd: -1, name: String::new(), path: AbsPath::root() });
        self.step = Step::Open;
        assert(self@.stack =~= seq![(-1isize, Seq::<char>::empty(), Seq::<Seq<char>>::empty())]);
        assert(self@.seen =~= Map::<usize, PathV>::empty());
        let slash = string_of(&vec!['/']);
        Command::Openat { dirfd: -1, path: slash, flags: OpenFlags(O_RDONLY), mode: FileMode(0) }
    }

    /// The descriptor of the stack top.
    fn top_fd(&self) -> (r: isize)
        requires
            self.stack@.len() > 0,
        ensures
            r == self@.stack.last().0,
    {
        self.stack[self.stack.len() - 1].fd
    }

    /// The path first recorded for inode number `ino`.
    fn lookup_seen(&self, ino: usize) -> (r: Option<AbsPath>)
        ensures
            self@.seen.contains_key(ino) ==> (r matches Some(q) && q@ == self@.seen[ino]),
            !self@.seen.contains_key(ino) ==> r is None,
    {
        match self.seen_inodes.get(&ino) {
            Some(p) => Some(p.duplicate()),
            None => None,
        }
    }

    fn on_open(&mut self, reply: &Reply) -> (r: Result<Option<Command>, PortError>)
        requires
            port_wf(old(self)@),
            old(self)@.step == Step::Open,
        ensures
            port_wf(final(self)@),
            open_post(old(self)@, *reply, r, final(self)@),
    {
        if reply.retv < 0 {
            return Err(PortError::Io);
        }
        let ghost v = self@;
        let f = match self.stack.pop() {
            Some(f) => f,
            None => {
                return Err(PortError::Io);
            },
        };
        let ghost rest = self.stack@;
        self.stack.push(Frame { fd: reply.retv, name: f.name, path: f.path });
        self.step = Step::Fstat;
        assert(frames_view(self.stack@) =~= v.stack.update(
            v.stack.len() - 1,
            (reply.retv, v.stack.last().1, v.stack.last().2),
        ));
        Ok(Some(Command::Fstat { fd: reply.retv }))
    }

    fn on_fstat(&mut self, reply: &Reply) -> (r: Result<Option<Command>, PortError>)
        requires
            port_wf(old(self)@),
            old(self)@.step == Step::Fstat,
        ensures
            port_wf(final(self)@),
            fstat_post(old(self)@, *reply, r, final(self)@),
    {
        let ghost v = self@;
        if reply.retv < 0 {
            return Err(PortError::Io);
        }
        let st = match &reply.stat {
            Some(st) => *st,
            None => {
                return Err(PortError::Io);
            },
        };
        let k = self.stack.len() - 1;
        let p = self.stack[k].path.duplicate();
        let fd = self.stack[k].fd;
        assert(v.stack.last() == (fd, self.stack@[k as int].name@, p@));
        if self.fs.contains_key(&p) {
            return Err(PortError::Io);
        }
        match self.lookup_seen(st.ino) {
            Some(q) => {
                let ghost c = crate::multikey::class_of(v.fs, q@);
                if !self.fs.insert_alias(&q, p) {
                    return Err(PortError::Io);
                }
                proof {
                    lemma_add_alias(v.fs, c, v.stack.last().2, v.fs[c].1);
                }
            },
            None => {
                let pc = p.duplicate();
                let inode = Inode::from_stat(&st);
                proof {
                    lemma_push_class(v.fs, p@, inode);
                }
                self.fs.insert(p, inode);
                let ghost before = self.seen_inodes@;
                self.seen_inodes.insert(st.ino, pc);
                assert(seen_view(self.seen_inodes@) =~= seen_view(before).insert(st.ino, pc@));
            },
        }
        if st.kind == FileKind::File {
            self.step = Step::Close;
            Ok(Some(Command::Close { fd }))
        } else {
            self.step = Step::Getdents;
            Ok(Some(Command::Getdents { fd, count: 1 }))
        }
    }

    fn on_getdents(&mut self, reply: &Reply) -> (r: Result<Option<Command>, PortError>)
        requires
            port_wf(old(self)@),
            old(self)@.step == Step::Getdents,
        ensures
            port_wf(final(self)@),
            getdents_post(old(self)@, *reply, r, final(self)@),
    {
        let ghost v = self@;
        if reply.retv < 0 {
            return Err(PortError::Io);
        }
        let k = self.stack.len() - 1;
        let fd = self.stack[k].fd;
        if reply.retv == 0 {
            self.step = Step::Close;
            return Ok(Some(Command::Close { fd }));
        }
        let d = match &reply.dent {
            Some(d) => d,
            None => {
                return Err(PortError::Io);
            },
        };
        let cs = crate::path::chars_of(d.name.as_str());
        let dot = (cs.len() == 1 && cs[0] == '.') || (cs.len() == 2 && cs[0] == '.' && cs[1] == '.');
        proof {
            if cs.len() == 1 && cs[0] == '.' {
                assert(cs@ =~= seq!['.']);
            }
            if cs.len() == 2 && cs[0] == '.' && cs[1] == '.' {
                assert(cs@ =~= seq!['.', '.']);
            }
            if !dot {
                assert(cs@ != seq!['.']) by {
                    if cs@ == seq!['.'] {
                        assert(cs@.len() == 1);
                    }
                }
                assert(cs@ != seq!['.', '.']) by {
                    if cs@ == seq!['.', '.'] {
                        assert(cs@.len() == 2);
                    }
                }
            }
        }
        if dot {
            return Ok(Some(Command::Getdents { fd, count: 1 }));
        }
        let np = match self.stack[k].path.join_str(d.name.as_str()) {
            Ok(np) => np,
            Err(_) => {
                return Err(PortError::Io);
            },
        };
        let ghost before = self.stack@;
        self.stack.push(Frame { fd: -1, name: d.name.clone(), path: np });
        assert(frames_view(self.stack@) =~= frames_view(before).push(
            (-1isize, d.name@, np@),
        ));
        self.step = Step::Open;
        Ok(
            Some(
                Command::Openat {
                    dirfd: fd,
                    path: d.name.clone(),
                    flags: OpenFlags(O_RDONLY),
                    mode: FileMode(0),
                },
            ),
        )
    }

    fn on_close(&mut self, reply: &Reply) -> (r: Result<Option<Command>, PortError>)
        requires
            port_wf(old(self)@),
            old(self)@.step == Step::Close,
        ensures
            port_wf(final(self)@),
            close_post(old(self)@, *reply, r, final(self)@),
    {
        let ghost v = self@;
        if reply.retv < 0 {
            return Err(PortError::Io);
        }
        self.stack.pop();
        assert(frames_view(self.stack@) =~= v.stack.drop_last());
        if self.stack.len() == 0 {
            self.step = Step::Getcwd;
            Ok(Some(Command::Getcwd))
        } else {
            let fd = self.stack[self.stack.len() - 1].fd;
            self.step = Step::Getdents;
            Ok(Some(Command::Getdents { fd, count: 1 }))
        }
    }

    fn on_getcwd(&mut self, reply: &Reply) -> (r: Result<Option<Command>, PortError>)
        requires
            port_wf(old(self)@),
            old(self)@.step == Step::Getcwd,
        ensures
            port_wf(final(self)@),
            getcwd_post(old(self)@, *reply, r, final(self)@),
    {
        if reply.retv < 0 {
            return Err(PortError::Io);
        }
        let c = match &reply.cwd {
            Some(c) => c,
            None => {
                return Err(PortError::Io);
            },
        };
        match AbsPath::new(c.as_str()) {
            Ok(p) => {
                self.cwd = p;
                self.step = Step::Done;
                Ok(None)
            },
            Err(_) => Err(PortError::Io),
        }
    }

    /// The transition of the walk on one reply of the kernel: returns the
    /// next command to send, or `None` when the walk is over.
    pub fn retrieve_state_data(&mut self, reply: &Reply) -> (r: Result<Option<Command>, PortError>)
        requires
            port_wf(old(self)@),
        ensures
            port_wf(final(self)@),
            match old(self)@.step {
                Step::Open => open_post(old(self)@, *reply, r, final(self)@),
                Step::Fstat => fstat_post(old(self)@, *reply, r, final(self)@),
                Step::Getdents => getdents_post(old(self)@, *reply, r, final(self)@),
                Step::Close => close_post(old(self)@, *reply, r, final(self)@),
                Step::Getcwd => getcwd_post(old(self)@, *reply, r, final(self)@),
                Step::Done => r == Err::<Option<Command>, PortError>(PortError::Io) && final(self)@
                    == old(self)@,
            },
    {
        match self.step {
            Step::Open => self.on_open(reply),
            Step::Fstat => self.on_fstat(reply),
            Step::Getdents => self.on_getdents(reply),
            Step::Close => self.on_close(reply),
            Step::Getcwd => self.on_getcwd(reply),
            Step::Done => Err(PortError::Io),
        }
    }

    /// The file system collected by the walk: its inodes and current
    /// directory, user and group 0, no descriptor.
    pub fn finish_state_retrieval(&self) -> (r: FileSystem)
        ensures
            r@.inodes == self@.fs,
            r@.cwd == self@.cwd,
            r@.uid == 0,
            r@.gid == 0,
            forall|i: int| 0 <= i < crate::fs::FD_TABLE_SIZE ==> r@.fds[i] is None,
            r@.tmps.len() == 0,
    {
        FileSystem::new(self.fs.duplicate(), self.cwd.duplicate(), 0, 0)
    }
}

} // verus!
