//! The abstract file-system state: inodes under paths, the current
//! directory, the descriptor table and the inodes that only descriptors
//! still reach.
use crate::error::FsError;
use crate::inode::{FileKind, FileMode, Inode, OpenFlags, MODE_ALL, initial_nlink};
use crate::multikey::{
    ClassV, MultiKeyMap, PathV, class_of, keys_view, lemma_add_alias, lemma_class_of, lemma_drop_alias,
    lemma_push_class, lemma_remove_class, lemma_set_value, mk_get, mk_has, mk_keys, mk_same, pos_of,
    mk_wf,
};
use crate::path::{AbsPath, is_ancestor_spec, join_spec, normalize_spec};
use vstd::prelude::*;

verus! {

/// File descriptor table size.
pub const FD_TABLE_SIZE: usize = 256;

/// Special file descriptor representing the current working directory.
pub const FDCWD: isize = -100;

/// What a file descriptor refers to.
#[derive(Debug)]
pub enum FdRefType {
    /// An existing file, noted by an absolute path.
    Existing(AbsPath),
    /// A file without a path, noted by its slot among the temporary inodes.
    Temporary(usize),
}

/// The view of what a file descriptor refers to.
pub enum FdRefView {
    Existing(PathV),
    Temporary(usize),
}

impl View for FdRefType {
    type V = FdRefView;

    open spec fn view(&self) -> FdRefView {
        match self {
            FdRefType::Existing(p) => FdRefView::Existing(p@),
            FdRefType::Temporary(t) => FdRefView::Temporary(*t),
        }
    }
}

impl FdRefType {
    /// A copy of this reference.
    pub fn duplicate(&self) -> (r: Self)
        ensures
            r@ == self@,
    {
        match self {
            FdRefType::Existing(p) => FdRefType::Existing(p.duplicate()),
            FdRefType::Temporary(t) => FdRefType::Temporary(*t),
        }
    }
}

/// File descriptor table entry.
#[derive(Debug)]
pub struct FileDescriptor {
    fref: FdRefType,
    flags: OpenFlags,
}

/// The view of a file descriptor table entry.
pub struct FdView {
    pub target: FdRefView,
    pub flags: OpenFlags,
}

impl View for FileDescriptor {
    type V = FdView;

    closed spec fn view(&self) -> FdView {
        FdView { target: self.fref@, flags: self.flags }
    }
}

impl FileDescriptor {
    /// Create a file descriptor, which refers to an existing file.
    pub fn new_path(path: AbsPath, flags: OpenFlags) -> (r: Self)
        ensures
            r@ == (FdView { target: FdRefView::Existing(path@), flags }),
    {
        FileDescriptor { fref: FdRefType::Existing(path), flags }
    }

    /// Create a file descriptor, which refers to a temporary file.
    pub fn new_tmp(idx: usize, flags: OpenFlags) -> (r: Self)
        ensures
            r@ == (FdView { target: FdRefView::Temporary(idx), flags }),
    {
        FileDescriptor { fref: FdRefType::Temporary(idx), flags }
    }

    /// What this descriptor refers to.
    pub fn fref(&self) -> (r: &FdRefType)
        ensures
            r@ == self@.target,
    {
        &self.fref
    }

    /// The flags the descriptor was opened with.
    pub fn flags(&self) -> (r: OpenFlags)
        ensures
            r == self@.flags,
    {
        self.flags
    }

    /// A copy of this entry.
    pub fn duplicate(&self) -> (r: Self)
        ensures
            r@ == self@,
    {
        FileDescriptor { fref: self.fref.duplicate(), flags: self.flags }
    }
}

/// The view of a file system.
pub struct FsView {
    pub uid: u32,
    pub gid: u32,
    /// The current working directory.
    pub cwd: PathV,
    /// One entry per inode: its paths (hard links), in the order they were
    /// made, and the inode.
    pub inodes: Seq<ClassV<Inode>>,
    /// The descriptor table.
    pub fds: Seq<Option<FdView>>,
    /// The slots of inodes that only descriptors still reach.
    pub tmps: Seq<Option<Inode>>,
}

/// `p` names an inode.
pub open spec fn exists_spec(s: FsView, p: PathV) -> bool {
    mk_has(s.inodes, p)
}

/// `p` names a directory.
pub open spec fn is_dir_spec(s: FsView, p: PathV) -> bool {
    mk_has(s.inodes, p) && mk_get(s.inodes, p).kind == FileKind::Directory
}

/// `p` names a directory and no path lies below it.
pub open spec fn is_empty_dir_spec(s: FsView, p: PathV) -> bool {
    is_dir_spec(s, p) && forall|q: PathV| mk_has(s.inodes, q) ==> !is_ancestor_spec(p, q)
}

/// What a descriptor refers to still exists.
pub open spec fn target_ok(s: FsView, t: FdRefView) -> bool {
    match t {
        FdRefView::Existing(p) => mk_has(s.inodes, p),
        FdRefView::Temporary(i) => 0 <= i < s.tmps.len() && s.tmps[i as int] is Some,
    }
}

/// The class `e` is a directory whose path lies directly below `p`.
pub open spec fn is_child_dir(e: ClassV<Inode>, p: PathV) -> bool {
    &&& e.1.kind == FileKind::Directory
    &&& e.0.len() > 0
    &&& e.0[0].len() > 0
    &&& e.0[0].drop_last() == p
}

pub open spec fn child_ind(e: ClassV<Inode>, p: PathV) -> int {
    if is_child_dir(e, p) {
        1
    } else {
        0
    }
}

/// The number of directories directly below `p`.
pub open spec fn child_dirs(cl: Seq<ClassV<Inode>>, p: PathV) -> int
    decreases cl.len(),
{
    if cl.len() == 0 {
        0
    } else {
        child_dirs(cl.drop_last(), p) + child_ind(cl.last(), p)
    }
}

/// Link counts: a regular file counts its paths; a directory counts its
/// own `.`, its entry in its parent and the `..` of each subdirectory.
pub open spec fn nlink_ok(cl: Seq<ClassV<Inode>>) -> bool {
    forall|c: int|
        0 <= c < cl.len() ==> {
            &&& (#[trigger] cl[c]).1.kind == FileKind::File ==> cl[c].1.nlink == cl[c].0.len()
            &&& cl[c].1.kind == FileKind::Directory ==> cl[c].1.nlink == 2 + child_dirs(
                cl,
                cl[c].0[0],
            )
        }
}

proof fn lemma_child_dirs_push(cl: Seq<ClassV<Inode>>, e: ClassV<Inode>, p: PathV)
    ensures
        child_dirs(cl.push(e), p) == child_dirs(cl, p) + child_ind(e, p),
{
    assert(cl.push(e).drop_last() =~= cl);
}

proof fn lemma_child_dirs_update(cl: Seq<ClassV<Inode>>, i: int, e: ClassV<Inode>, p: PathV)
    requires
        0 <= i < cl.len(),
    ensures
        child_dirs(cl.update(i, e), p) == child_dirs(cl, p) - child_ind(cl[i], p) + child_ind(e, p),
    decreases cl.len(),
{
    let n = cl.update(i, e);
    if i == cl.len() - 1 {
        assert(n.drop_last() =~= cl.drop_last());
    } else {
        lemma_child_dirs_update(cl.drop_last(), i, e, p);
        assert(n.drop_last() =~= cl.drop_last().update(i, e));
    }
}

proof fn lemma_child_dirs_remove(cl: Seq<ClassV<Inode>>, i: int, p: PathV)
    requires
        0 <= i < cl.len(),
    ensures
        child_dirs(cl.remove(i), p) == child_dirs(cl, p) - child_ind(cl[i], p),
    decreases cl.len(),
{
    let n = cl.remove(i);
    if i == cl.len() - 1 {
        assert(n =~= cl.drop_last());
    } else {
        lemma_child_dirs_remove(cl.drop_last(), i, p);
        assert(n.drop_last() =~= cl.drop_last().remove(i));
        assert(n.last() == cl.last());
    }
}

proof fn lemma_child_dirs_witness(cl: Seq<ClassV<Inode>>, p: PathV)
    requires
        child_dirs(cl, p) != 0,
    ensures
        exists|c: int| 0 <= c < cl.len() && is_child_dir(#[trigger] cl[c], p),
    decreases cl.len(),
{
    if cl.len() > 0 {
        if child_ind(cl.last(), p) == 0 {
            lemma_child_dirs_witness(cl.drop_last(), p);
            let c = choose|c: int| 0 <= c < cl.drop_last().len() && is_child_dir(
                #[trigger] cl.drop_last()[c],
                p,
            );
            assert(cl[c] == cl.drop_last()[c]);
        } else {
            assert(is_child_dir(cl[cl.len() - 1], p));
        }
    }
}

/// The invariant of every reachable state: a full descriptor table, no path
/// twice, root a directory, the parent of every path a directory,
/// directories without aliases, and descriptors that refer to what exists.
pub open spec fn fs_wf(s: FsView) -> bool {
    &&& s.fds.len() == FD_TABLE_SIZE
    &&& mk_wf(s.inodes)
    &&& is_dir_spec(s, Seq::empty())
    &&& forall|p: PathV| #[trigger]
        mk_has(s.inodes, p) && p.len() > 0 ==> is_dir_spec(s, p.drop_last())
    &&& forall|c: int|
        0 <= c < s.inodes.len() && (#[trigger] s.inodes[c]).1.kind == FileKind::Directory
            ==> s.inodes[c].0.len() == 1
    &&& forall|i: int|
        0 <= i < s.fds.len() && (#[trigger] s.fds[i]) is Some ==> target_ok(s, s.fds[i]->0.target)
    &&& nlink_ok(s.inodes)
    &&& s.tmps.len() <= usize::MAX
}

/// The current directory exists and is a directory.
pub open spec fn cwd_ok(s: FsView) -> bool {
    is_dir_spec(s, s.cwd)
}

/// Two states match when they have the same current directory, user and
/// group, and equal inodes under equal alias classes; descriptors and
/// temporary inodes are not compared.
pub open spec fn fs_matches(a: FsView, b: FsView) -> bool {
    &&& a.cwd == b.cwd
    &&& a.uid == b.uid
    &&& a.gid == b.gid
    &&& mk_same(a.inodes, b.inodes)
}

/// The number of slots that hold something.
pub open spec fn count_some<T>(v: Seq<Option<T>>) -> int
    decreases v.len(),
{
    if v.len() == 0 {
        0
    } else {
        count_some(v.drop_last()) + if v.last() is Some {
            1int
        } else {
            0
        }
    }
}

/// `inode` with one more link.
pub open spec fn linked(inode: Inode) -> Inode {
    Inode { nlink: (inode.nlink + 1) as usize, ..inode }
}

/// `inode` with one link less.
pub open spec fn unlinked(inode: Inode) -> Inode {
    Inode { nlink: (inode.nlink - 1) as usize, ..inode }
}

/// The classes with the inode at `p` given one more link.
pub open spec fn link_at(cl: Seq<ClassV<Inode>>, p: PathV) -> Seq<ClassV<Inode>> {
    cl.update(class_of(cl, p), (cl[class_of(cl, p)].0, linked(mk_get(cl, p))))
}

/// The classes with the inode at `p` given one link less.
pub open spec fn unlink_at(cl: Seq<ClassV<Inode>>, p: PathV) -> Seq<ClassV<Inode>> {
    cl.update(class_of(cl, p), (cl[class_of(cl, p)].0, unlinked(mk_get(cl, p))))
}

/// The lowest index whose slot is empty; the length when none is.
pub open spec fn first_free<T>(v: Seq<Option<T>>) -> int
    decreases v.len(),
{
    if v.len() == 0 {
        0
    } else if v[0] is None {
        0
    } else {
        1 + first_free(v.drop_first())
    }
}

proof fn lemma_first_free<T>(v: Seq<Option<T>>, i: int)
    requires
        0 <= i <= v.len(),
        forall|j: int| 0 <= j < i ==> (#[trigger] v[j]) is Some,
        i == v.len() || v[i] is None,
    ensures
        first_free(v) == i,
    decreases i,
{
    if i > 0 {
        let w = v.drop_first();
        assert forall|j: int| 0 <= j < i - 1 implies (#[trigger] w[j]) is Some by {
            assert(w[j] == v[j + 1]);
        }
        if i < v.len() {
            assert(w[i - 1] == v[i]);
        }
        lemma_first_free(w, i - 1);
    }
}

/// `get_fd`: the entry of descriptor `fd`.
pub open spec fn get_fd_spec(s: FsView, fd: isize) -> Result<FdView, FsError> {
    if fd < 0 || fd >= s.fds.len() {
        Err(FsError::BadFd)
    } else if s.fds[fd as int] is None {
        Err(FsError::NotOpened)
    } else {
        Ok(s.fds[fd as int]->0)
    }
}

/// `alloc_fd`: the lowest free descriptor receives `e`.
pub open spec fn alloc_fd_spec(s: FsView, e: FdView) -> (Result<isize, FsError>, FsView) {
    let t = first_free(s.fds);
    if t >= s.fds.len() {
        (Err(FsError::NoAvailableFd), s)
    } else {
        (Ok(t as isize), FsView { fds: s.fds.update(t, Some(e)), ..s })
    }
}

/// Some descriptor refers to the temporary inode `t`.
pub open spec fn tmp_referenced(fds: Seq<Option<FdView>>, t: usize) -> bool {
    exists|j: int|
        0 <= j < fds.len() && (#[trigger] fds[j]) is Some && fds[j]->0.target
            == FdRefView::Temporary(t)
}

/// `free_fd`: the slot is cleared; a temporary inode that no descriptor
/// refers to any more is dropped.
pub open spec fn free_fd_spec(s: FsView, fd: isize) -> (Result<(), FsError>, FsView) {
    match get_fd_spec(s, fd) {
        Err(e) => (Err(e), s),
        Ok(entry) => {
            let fds = s.fds.update(fd as int, None);
            (
                Ok(()),
                FsView {
                    fds,
                    tmps: match entry.target {
                        FdRefView::Temporary(t) => if !tmp_referenced(fds, t) && t < s.tmps.len() {
                            s.tmps.update(t as int, None)
                        } else {
                            s.tmps
                        },
                        FdRefView::Existing(_) => s.tmps,
                    },
                    ..s
                },
            )
        },
    }
}

/// Some descriptor refers to the path `p`.
pub open spec fn path_referenced(fds: Seq<Option<FdView>>, p: PathV) -> bool {
    exists|j: int|
        0 <= j < fds.len() && (#[trigger] fds[j]) is Some && fds[j]->0.target
            == FdRefView::Existing(p)
}

/// The descriptors that refer to the path `p` refer to `t` instead.
pub open spec fn retarget(fds: Seq<Option<FdView>>, p: PathV, t: FdRefView) -> Seq<
    Option<FdView>,
> {
    Seq::new(
        fds.len(),
        |i: int|
            if fds[i] is Some && fds[i]->0.target == FdRefView::Existing(p) {
                Some(FdView { target: t, flags: fds[i]->0.flags })
            } else {
                fds[i]
            },
    )
}

/// The state after the path `p` is removed: a directory gives a link back
/// to its parent; the last path of an inode takes the inode away, into a
/// temporary slot when descriptors still refer to it; otherwise a
/// remaining alias loses a link and takes over the descriptors of `p`.
pub open spec fn unlinked_state(s: FsView, p: PathV) -> FsView {
    let cl0 = if is_dir_spec(s, p) {
        unlink_at(s.inodes, p.drop_last())
    } else {
        s.inodes
    };
    let c = class_of(s.inodes, p);
    let ks = s.inodes[c].0.remove(pos_of(s.inodes, p));
    let inode = cl0[c].1;
    if ks.len() == 0 {
        if path_referenced(s.fds, p) {
            let t = first_free(s.tmps);
            FsView {
                inodes: cl0.remove(c),
                fds: retarget(s.fds, p, FdRefView::Temporary(t as usize)),
                tmps: if t < s.tmps.len() {
                    s.tmps.update(t, Some(inode))
                } else {
                    s.tmps.push(Some(inode))
                },
                ..s
            }
        } else {
            FsView { inodes: cl0.remove(c), ..s }
        }
    } else {
        FsView {
            inodes: cl0.update(c, (ks, unlinked(inode))),
            fds: retarget(s.fds, p, FdRefView::Existing(ks[0])),
            ..s
        }
    }
}

/// `unlink`: the result and the state after it.
pub open spec fn unlink_spec(s: FsView, p: PathV, rmdir: bool) -> (Result<(), FsError>, FsView) {
    if p.len() == 0 {
        (Err(FsError::InvalidPath), s)
    } else if !exists_spec(s, p) {
        (Err(FsError::NotFound), s)
    } else if is_dir_spec(s, p) && !rmdir {
        (Err(FsError::IsDirectory), s)
    } else if is_dir_spec(s, p) && !is_empty_dir_spec(s, p) {
        (Err(FsError::DirectoryNotEmpty), s)
    } else if !is_dir_spec(s, p) && rmdir {
        (Err(FsError::NotDirectory), s)
    } else {
        (Ok(()), unlinked_state(s, p))
    }
}

proof fn lemma_child_dirs_nonneg(cl: Seq<ClassV<Inode>>, p: PathV)
    ensures
        child_dirs(cl, p) >= 0,
    decreases cl.len(),
{
    if cl.len() > 0 {
        lemma_child_dirs_nonneg(cl.drop_last(), p);
    }
}

/// Removing a path from a well-formed state keeps the invariant.
proof fn lemma_unlink_wf(s: FsView, p: PathV, rmdir: bool)
    requires
        fs_wf(s),
        unlink_spec(s, p, rmdir).0 is Ok,
        unlink_spec(s, p, rmdir).1.tmps.len() <= usize::MAX,
    ensures
        fs_wf(unlink_spec(s, p, rmdir).1),
        forall|q: PathV|
            is_dir_spec(s, q) && q != p ==> #[trigger] is_dir_spec(unlink_spec(s, p, rmdir).1, q),
{
    let cl = s.inodes;
    let dir = is_dir_spec(s, p);
    let c = class_of(cl, p);
    let j = pos_of(cl, p);
    assert(cl[c].0.contains(p));
    lemma_class_of(cl, c, cl[c].0.index_of(p));
    let ks = cl[c].0.remove(j);
    let parent = p.drop_last();
    let cp = class_of(cl, parent);
    assert(is_dir_spec(s, parent));
    lemma_class_of(cl, cp, cl[cp].0.index_of(parent));
    assert(cl[cp].0.len() == 1);
    assert(cl[cp].0[0] == parent);
    assert(cp != c) by {
        assert(parent.len() != p.len());
    }
    // The parent, with one link less when a directory goes.
    let cl0 = if dir {
        unlink_at(cl, parent)
    } else {
        cl
    };
    if dir {
        assert(cl[c].0.len() == 1);
        assert(child_ind(cl[c], parent) == 1);
        lemma_child_dirs_remove(cl, c, parent);
        lemma_child_dirs_nonneg(cl.remove(c), parent);
        lemma_set_value(cl, cp, unlinked(cl[cp].1));
    }
    assert(mk_wf(cl0));
    assert forall|i: int| 0 <= i < cl.len() implies (#[trigger] cl0[i]).0 == cl[i].0
        && cl0[i].1.kind == cl[i].1.kind && (i != cp ==> cl0[i] == cl[i]) by {}
    assert forall|q: PathV| #[trigger] mk_has(cl0, q) == mk_has(cl, q) by {
        if dir {
            lemma_set_value(cl, cp, unlinked(cl[cp].1));
        }
    }
    assert forall|q: PathV| mk_has(cl, q) implies class_of(cl0, q) == class_of(cl, q) by {
        if dir {
            lemma_set_value(cl, cp, unlinked(cl[cp].1));
        }
    }
    assert forall|q: PathV| #[trigger] child_dirs(cl0, q) == child_dirs(cl, q) by {
        if dir {
            lemma_child_dirs_update(cl, cp, cl0[cp], q);
        }
    }
    let n = unlink_spec(s, p, rmdir).1;
    let ni = n.inodes;
    if ks.len() == 0 {
        lemma_remove_class(cl0, c);
        assert(cl[c].0 =~= seq![p]) by {
            assert(cl[c].0.len() == 1);
        }
        assert forall|q: PathV| #[trigger] mk_has(ni, q) <==> (mk_has(cl, q) && q != p) by {
            if mk_has(cl, q) && class_of(cl, q) == c {
                assert(cl[c].0[cl[c].0.index_of(q)] == q);
            }
        }
        assert forall|q: PathV| mk_has(cl, q) && q != p implies mk_get(ni, q).kind == mk_get(
            cl,
            q,
        ).kind by {
            assert(class_of(cl, q) != c);
        }
        assert forall|i: int| 0 <= i < ni.len() implies #[trigger] ni[i] == (if i < c {
            cl0[i]
        } else {
            cl0[i + 1]
        }) by {}
        // No path lies below a removed directory.
        assert forall|q: PathV| mk_has(cl, q) && q.len() > 0 && q != p implies q.drop_last()
            != p by {
            if dir && q.drop_last() == p {
                assert(q.take(p.len() as int) =~= p);
                assert(is_ancestor_spec(p, q));
            }
            if !dir && q.drop_last() == p {
                assert(is_dir_spec(s, q.drop_last()));
            }
        }
        assert(is_dir_spec(n, Seq::empty()));
        assert forall|q: PathV| #[trigger]
            mk_has(ni, q) && q.len() > 0 implies is_dir_spec(n, q.drop_last()) by {
            assert(is_dir_spec(s, q.drop_last()));
        }
        assert forall|i: int|
            0 <= i < ni.len() && (#[trigger] ni[i]).1.kind == FileKind::Directory implies ni[i].0.len()
            == 1 by {
            let i2 = if i < c {
                i
            } else {
                i + 1
            };
            assert(cl[i2].1.kind == FileKind::Directory);
        }
        assert forall|i: int|
            0 <= i < n.fds.len() && (#[trigger] n.fds[i]) is Some implies target_ok(
            n,
            n.fds[i]->0.target,
        ) by {
            if path_referenced(s.fds, p) {
                let t = first_free(s.tmps);
                lemma_first_free_slot(s.tmps);
                if s.fds[i] is Some && s.fds[i]->0.target == FdRefView::Existing(p) {
                    assert(n.fds[i]->0.target == FdRefView::Temporary(t as usize));
                    assert((t as usize) as int == t);
                    assert(n.tmps[t] is Some);
                } else {
                    assert(s.fds[i] is Some);
                    assert(target_ok(s, s.fds[i]->0.target));
                    if let FdRefView::Temporary(u) = s.fds[i]->0.target {
                        lemma_first_free_slot(s.tmps);
                        assert(u != t);
                    }
                }
            } else {
                assert(s.fds[i] is Some);
                assert(target_ok(s, s.fds[i]->0.target));
                if s.fds[i]->0.target == FdRefView::Existing(p) {
                    assert(path_referenced(s.fds, p));
                }
            }
        }
        assert forall|q: PathV| #[trigger] child_dirs(ni, q) == child_dirs(cl, q) - child_ind(
            cl[c],
            q,
        ) by {
            lemma_child_dirs_remove(cl0, c, q);
        }
        assert(n.fds.len() == FD_TABLE_SIZE);
        assert(mk_wf(ni));
        assert forall|q: PathV| is_dir_spec(s, q) && q != p implies #[trigger] is_dir_spec(n, q) by {}
        assert forall|i: int| 0 <= i < ni.len() implies {
            &&& (#[trigger] ni[i]).1.kind == FileKind::File ==> ni[i].1.nlink == ni[i].0.len()
            &&& ni[i].1.kind == FileKind::Directory ==> ni[i].1.nlink == 2 + child_dirs(
                ni,
                ni[i].0[0],
            )
        } by {
            let i2 = if i < c {
                i
            } else {
                i + 1
            };
            assert(ni[i] == cl0[i2]);
            if cl[i2].1.kind == FileKind::Directory {
                let k = cl[i2].0[0];
                lemma_class_of(cl, i2, 0);
                if is_child_dir(cl[c], k) {
                    assert(k == parent);
                    assert(i2 == cp);
                }
            }
        }
    } else {
        let v = unlinked(cl0[c].1);
        lemma_drop_alias(cl0, c, j, v);
        assert(cl0[c] == cl[c]);
        assert(!dir);
        assert(cl0 == cl);
        assert(ks[0] == ni[c].0[0]);
        assert(ni[c].0.contains(ks[0]));
        assert forall|q: PathV| mk_has(cl, q) && q != p implies mk_get(ni, q).kind == mk_get(
            cl,
            q,
        ).kind by {}
        assert(is_dir_spec(n, Seq::empty()));
        assert forall|q: PathV| #[trigger]
            mk_has(ni, q) && q.len() > 0 implies is_dir_spec(n, q.drop_last()) by {
            assert(is_dir_spec(s, q.drop_last()));
            assert(q.drop_last() != p) by {
                if q.drop_last() == p {
                    assert(!is_dir_spec(s, p));
                }
            }
        }
        assert forall|i: int|
            0 <= i < ni.len() && (#[trigger] ni[i]).1.kind == FileKind::Directory implies ni[i].0.len()
            == 1 by {
            assert(cl[i].1.kind == FileKind::Directory);
        }
        assert forall|i: int|
            0 <= i < n.fds.len() && (#[trigger] n.fds[i]) is Some implies target_ok(
            n,
            n.fds[i]->0.target,
        ) by {
            if s.fds[i] is Some && s.fds[i]->0.target == FdRefView::Existing(p) {
                assert(mk_has(ni, ks[0]));
            } else {
                assert(s.fds[i] is Some);
                assert(target_ok(s, s.fds[i]->0.target));
            }
        }
        assert forall|q: PathV| #[trigger] child_dirs(ni, q) == child_dirs(cl, q) by {
            lemma_child_dirs_update(cl, c, ni[c], q);
        }
        assert forall|i: int| 0 <= i < ni.len() implies {
            &&& (#[trigger] ni[i]).1.kind == FileKind::File ==> ni[i].1.nlink == ni[i].0.len()
            &&& ni[i].1.kind == FileKind::Directory ==> ni[i].1.nlink == 2 + child_dirs(
                ni,
                ni[i].0[0],
            )
        } by {
            assert(cl[i].1.kind == ni[i].1.kind);
        }
        assert forall|q: PathV| is_dir_spec(s, q) && q != p implies #[trigger] is_dir_spec(n, q) by {}
    }
}

pub proof fn lemma_first_free_slot<T>(v: Seq<Option<T>>)
    ensures
        0 <= first_free(v) <= v.len(),
        first_free(v) < v.len() ==> v[first_free(v)] is None,
        forall|j: int| 0 <= j < first_free(v) ==> (#[trigger] v[j]) is Some,
    decreases v.len(),
{
    if v.len() > 0 && v[0] is Some {
        let w = v.drop_first();
        lemma_first_free_slot(w);
        assert forall|j: int| 0 <= j < first_free(v) implies (#[trigger] v[j]) is Some by {
            if j > 0 {
                assert(v[j] == w[j - 1]);
            }
        }
        if first_free(v) < v.len() {
            assert(v[first_free(v)] == w[first_free(w)]);
        }
    }
}

/// `chdir`: the result and the state after it.
pub open spec fn chdir_spec(s: FsView, p: PathV) -> (Result<(), FsError>, FsView) {
    if !exists_spec(s, p) {
        (Err(FsError::NotFound), s)
    } else if !is_dir_spec(s, p) {
        (Err(FsError::NotDirectory), s)
    } else {
        (Ok(()), FsView { cwd: p, ..s })
    }
}

/// A result of path resolution from an optional path.
pub open spec fn path_or_invalid(r: Option<PathV>) -> Result<PathV, FsError> {
    match r {
        Some(v) => Ok(v),
        None => Err(FsError::InvalidPath),
    }
}

/// The path `path` written as an argument, resolved: an absolute path
/// alone; a relative one against the current directory (`FDCWD`) or
/// against the directory that `dirfd` refers to.
pub open spec fn parse_path_spec(s: FsView, dirfd: isize, path: Seq<char>) -> Result<
    PathV,
    FsError,
> {
    if path.len() > 0 && path[0] == '/' {
        path_or_invalid(normalize_spec(path))
    } else if dirfd == FDCWD {
        path_or_invalid(join_spec(s.cwd, path))
    } else {
        match get_fd_spec(s, dirfd) {
            Err(e) => Err(e),
            Ok(entry) => match entry.target {
                FdRefView::Temporary(_) => Err(FsError::NotFound),
                FdRefView::Existing(p) => if !exists_spec(s, p) {
                    Err(FsError::NotFound)
                } else if !is_dir_spec(s, p) {
                    Err(FsError::NotDirectory)
                } else {
                    path_or_invalid(join_spec(p, path))
                },
            },
        }
    }
}

/// `link`: the result and the state after it.
pub open spec fn link_spec(s: FsView, a: PathV, b: PathV) -> (Result<(), FsError>, FsView) {
    let parent = b.drop_last();
    if !exists_spec(s, a) {
        (Err(FsError::NotFound), s)
    } else if is_dir_spec(s, a) {
        (Err(FsError::IsDirectory), s)
    } else if exists_spec(s, b) {
        (Err(FsError::AlreadyExists), s)
    } else if !exists_spec(s, parent) {
        (Err(FsError::NotFound), s)
    } else if !is_dir_spec(s, parent) {
        (Err(FsError::NotDirectory), s)
    } else if mk_get(s.inodes, a).nlink == usize::MAX {
        (Err(FsError::TooManyLinks), s)
    } else {
        let c = class_of(s.inodes, a);
        (
            Ok(()),
            FsView {
                inodes: s.inodes.update(c, (s.inodes[c].0.push(b), linked(mk_get(s.inodes, a)))),
                ..s
            },
        )
    }
}

/// `create`: the result and the state after it.
pub open spec fn create_spec(s: FsView, p: PathV, kind: FileKind, mode: FileMode) -> (Result<
    (),
    FsError,
>, FsView) {
    let parent = p.drop_last();
    if exists_spec(s, p) {
        (Err(FsError::AlreadyExists), s)
    } else if !exists_spec(s, parent) {
        (Err(FsError::NotFound), s)
    } else if !is_dir_spec(s, parent) {
        (Err(FsError::NotDirectory), s)
    } else if kind == FileKind::Directory && mk_get(s.inodes, parent).nlink == usize::MAX {
        (Err(FsError::TooManyLinks), s)
    } else {
        let inode = Inode { mode, uid: s.uid, gid: s.gid, nlink: initial_nlink(kind), kind };
        let added = s.inodes.push((seq![p], inode));
        (
            Ok(()),
            FsView {
                inodes: if kind == FileKind::Directory {
                    link_at(added, parent)
                } else {
                    added
                },
                ..s
            },
        )
    }
}

/// Abstract state of the file system.
#[derive(Debug)]
pub struct FileSystem {
    /// User ID.
    uid: u32,
    /// Group ID.
    gid: u32,
    /// Inodes. An inode may have multiple absolute paths (hard links).
    pub(crate) inodes: MultiKeyMap<Inode>,
    /// Current working directory.
    cwd: AbsPath,
    /// File descriptor table.
    fd_table: Vec<Option<FileDescriptor>>,
    /// Temporary inodes: inodes deleted but still referenced by file
    /// descriptors. A free slot holds `None`.
    tmp_inodes: Vec<Option<Inode>>,
}

pub open spec fn fds_view(v: Seq<Option<FileDescriptor>>) -> Seq<Option<FdView>> {
    v.map_values(|e: Option<FileDescriptor>| match e {
        Some(d) => Some(d@),
        None => None,
    })
}

impl View for FileSystem {
    type V = FsView;

    closed spec fn view(&self) -> FsView {
        FsView {
            uid: self.uid,
            gid: self.gid,
            cwd: self.cwd@,
            inodes: self.inodes@,
            fds: fds_view(self.fd_table@),
            tmps: self.tmp_inodes@,
        }
    }
}

/// A table of `n` empty descriptor slots.
fn empty_fd_table(n: usize) -> (r: Vec<Option<FileDescriptor>>)
    ensures
        r@.len() == n,
        forall|i: int| 0 <= i < n ==> r@[i] is None,
{
    let mut r: Vec<Option<FileDescriptor>> = Vec::new();
    for i in 0..n
        invariant
            r@.len() == i,
            forall|j: int| 0 <= j < i ==> r@[j] is None,
    {
        r.push(None);
    }
    r
}

impl FileSystem {
    /// The invariant holds.
    pub open spec fn wf(&self) -> bool {
        fs_wf(self@)
    }

    /// Create a file system with given inodes, no open file and no
    /// temporary inode.
    pub fn new(inodes: MultiKeyMap<Inode>, cwd: AbsPath, uid: u32, gid: u32) -> (r: Self)
        ensures
            r@.uid == uid,
            r@.gid == gid,
            r@.cwd == cwd@,
            r@.inodes == inodes@,
            r@.fds.len() == FD_TABLE_SIZE,
            forall|i: int| 0 <= i < FD_TABLE_SIZE ==> r@.fds[i] is None,
            r@.tmps.len() == 0,
    {
        let ghost cv = cwd@;
        let ghost iv = inodes@;
        let fd_table = empty_fd_table(FD_TABLE_SIZE);
        let r = FileSystem { uid, gid, inodes, cwd, fd_table, tmp_inodes: Vec::new() };
        assert(r@.cwd == cv);
        r
    }

    /// Create an empty file system: a root directory, owned by `uid` and
    /// `gid`, with every permission bit, which is also the current directory.
    pub fn new_root(uid: u32, gid: u32) -> (r: Self)
        ensures
            r.wf(),
            cwd_ok(r@),
            r@.uid == uid,
            r@.gid == gid,
            r@.cwd == Seq::<Seq<char>>::empty(),
            r@.inodes == seq![
                (
                    seq![Seq::<Seq<char>>::empty()],
                    Inode {
                        mode: FileMode(MODE_ALL),
                        uid,
                        gid,
                        nlink: 2,
                        kind: FileKind::Directory,
                    },
                ),
            ],
            forall|i: int| 0 <= i < FD_TABLE_SIZE ==> r@.fds[i] is None,
            r@.tmps.len() == 0,
    {
        let mut inodes: MultiKeyMap<Inode> = MultiKeyMap::new();
        let root = AbsPath::root();
        let ghost rv = root@;
        let inode = Inode::new(FileMode::all(), uid, gid, FileKind::Directory);
        inodes.insert(root, inode);
        let r = Self::new(inodes, AbsPath::root(), uid, gid);
        proof {
            let cl = r@.inodes;
            assert(cl == Seq::<ClassV<Inode>>::empty().push((seq![rv], inode)));
            lemma_push_class(Seq::<ClassV<Inode>>::empty(), rv, inode);
            lemma_class_of(cl, 0, 0);
            assert(cl[0].0[0] == rv);
            assert forall|p: PathV| #[trigger] mk_has(cl, p) && p.len() > 0 implies is_dir_spec(
                r@,
                p.drop_last(),
            ) by {
                assert(p == rv);
            }
            assert(cl.drop_last() =~= Seq::<ClassV<Inode>>::empty());
            assert(cl.last().0[0] == rv);
            assert(rv.len() == 0);
            assert(child_ind(cl.last(), rv) == 0);
            assert(child_dirs(cl.drop_last(), rv) == 0);
            assert(child_dirs(cl, rv) == 0);

        }
        r
    }

    /// Create an inode by path: a regular file or a directory, owned by this
    /// file system's user and group. A directory adds a link to its parent.
    pub fn create(&mut self, path: AbsPath, kind: FileKind, mode: FileMode) -> (r: Result<
        (),
        FsError,
    >)
        requires
            old(self).wf(),
        ensures
            final(self).wf(),
            (r, final(self)@) == create_spec(old(self)@, path@, kind, mode),
            cwd_ok(old(self)@) ==> cwd_ok(final(self)@),
    {
        let ghost s = self@;
        let ghost p = path@;
        if self.path_exists(&path) {
            return Err(FsError::AlreadyExists);
        }
        let parent = match path.parent() {
            Some(q) => q,
            None => {
                assert(p =~= Seq::<Seq<char>>::empty());
                return Err(FsError::AlreadyExists);
            },
        };
        if !self.path_exists(&parent) {
            return Err(FsError::NotFound);
        }
        if !self.is_dir(&parent) {
            return Err(FsError::NotDirectory);
        }
        let pinode = match self.inodes.get(&parent) {
            Some(i) => *i,
            None => {
                return Err(FsError::NotFound);
            },
        };
        if kind == FileKind::Directory && pinode.nlink == usize::MAX {
            return Err(FsError::TooManyLinks);
        }
        let inode = Inode::new(mode, self.uid, self.gid, kind);
        self.inodes.insert(path, inode);
        let ghost cl = s.inodes;
        let ghost a = cl.push((seq![p], inode));
        proof {
            lemma_push_class(cl, p, inode);
        }
        let ghost cp = class_of(cl, parent@);
        if kind == FileKind::Directory {
            let bumped = Inode { nlink: pinode.nlink + 1, ..pinode };
            self.inodes.set(&parent, bumped);
            proof {
                lemma_set_value(a, cp, bumped);
                assert(a[cp] == cl[cp]);
            }
        }
        proof {
            let n = self@.inodes;
            let pp = parent@;
            let new_e = (seq![p], inode);
            assert(self@ == create_spec(s, p, kind, mode).1);
            // Entries of old classes keep their keys and kinds.
            assert forall|c: int| 0 <= c < cl.len() implies (#[trigger] n[c]).0 == cl[c].0
                && n[c].1.kind == cl[c].1.kind && (c != cp || kind != FileKind::Directory ==> n[c]
                == cl[c]) by {
                assert(a[c] == cl[c]);
            }
            assert(n.len() == cl.len() + 1);
            assert(n[cl.len() as int] == new_e);
            assert forall|q: PathV| mk_has(cl, q) implies mk_has(n, q) && mk_get(n, q).kind
                == mk_get(cl, q).kind by {
                let c = class_of(cl, q);
                lemma_class_of(cl, c, cl[c].0.index_of(q));
            }
            assert forall|q: PathV| #[trigger] mk_has(n, q) <==> (mk_has(cl, q) || q == p) by {}
            // Root and the tree shape.
            assert(is_dir_spec(self@, Seq::empty()));
            assert forall|q: PathV| #[trigger]
                mk_has(n, q) && q.len() > 0 implies is_dir_spec(self@, q.drop_last()) by {
                if q != p {
                    assert(is_dir_spec(s, q.drop_last()));
                }
            }
            // Directories keep a single key.
            assert forall|c: int|
                0 <= c < n.len() && (#[trigger] n[c]).1.kind == FileKind::Directory implies n[c].0.len()
                == 1 by {
                if c < cl.len() {
                    assert(cl[c].1.kind == FileKind::Directory);
                }
            }
            // Descriptors.
            assert forall|i: int|
                0 <= i < self@.fds.len() && (#[trigger] self@.fds[i]) is Some implies target_ok(
                self@,
                self@.fds[i]->0.target,
            ) by {
                assert(s.fds[i] is Some);
                assert(target_ok(s, s.fds[i]->0.target));
            }
            // Link counts.
            assert(child_ind(new_e, p) == 0);
            assert(child_dirs(cl, p) == 0) by {
                if child_dirs(cl, p) != 0 {
                    lemma_child_dirs_witness(cl, p);
                    let c = choose|c: int| 0 <= c < cl.len() && is_child_dir(#[trigger] cl[c], p);
                    lemma_class_of(cl, c, 0);
                    assert(is_dir_spec(s, cl[c].0[0].drop_last()));
                }
            }
            assert forall|q: PathV| #[trigger] child_dirs(n, q) == child_dirs(cl, q) + child_ind(
                new_e,
                q,
            ) by {
                lemma_child_dirs_push(cl, new_e, q);
                if kind == FileKind::Directory {
                    lemma_child_dirs_update(a, cp, n[cp], q);
                }
            }
            assert(mk_has(cl, pp));
            lemma_class_of(cl, cp, cl[cp].0.index_of(pp));
            assert forall|c: int| 0 <= c < n.len() implies {
                &&& (#[trigger] n[c]).1.kind == FileKind::File ==> n[c].1.nlink == n[c].0.len()
                &&& n[c].1.kind == FileKind::Directory ==> n[c].1.nlink == 2 + child_dirs(
                    n,
                    n[c].0[0],
                )
            } by {
                if c < cl.len() {
                    assert(n[c].0 == cl[c].0);
                    if cl[c].1.kind == FileKind::Directory {
                        let k = cl[c].0[0];
                        lemma_class_of(cl, c, 0);
                        if c == cp && kind == FileKind::Directory {
                            assert(cl[c].0.len() == 1);
                            assert(k == pp);
                        } else {
                            assert(child_ind(new_e, k) == 0);
                        }
                    }
                } else {
                    assert(n[c] == new_e);
                }
            }
        }
        Ok(())
    }

    /// Make a new name for an inode: `newpath` becomes an alias of
    /// `oldpath`, whose inode gains a link.
    pub fn link(&mut self, oldpath: &AbsPath, newpath: AbsPath) -> (r: Result<(), FsError>)
        requires
            old(self).wf(),
        ensures
            final(self).wf(),
            (r, final(self)@) == link_spec(old(self)@, oldpath@, newpath@),
            cwd_ok(old(self)@) ==> cwd_ok(final(self)@),
    {
        let ghost s = self@;
        let ghost a = oldpath@;
        let ghost b = newpath@;
        if !self.path_exists(oldpath) {
            return Err(FsError::NotFound);
        }
        if self.is_dir(oldpath) {
            return Err(FsError::IsDirectory);
        }
        if self.path_exists(&newpath) {
            return Err(FsError::AlreadyExists);
        }
        let parent = match newpath.parent() {
            Some(q) => q,
            None => {
                assert(b =~= Seq::<Seq<char>>::empty());
                return Err(FsError::AlreadyExists);
            },
        };
        if !self.path_exists(&parent) {
            return Err(FsError::NotFound);
        }
        if !self.is_dir(&parent) {
            return Err(FsError::NotDirectory);
        }
        let inode = match self.inodes.get(oldpath) {
            Some(i) => *i,
            None => {
                return Err(FsError::NotFound);
            },
        };
        if inode.nlink == usize::MAX {
            return Err(FsError::TooManyLinks);
        }
        let ghost cl = s.inodes;
        let ghost ca = class_of(cl, a);
        proof {
            lemma_class_of(cl, ca, cl[ca].0.index_of(a));
            lemma_add_alias(cl, ca, b, inode);
        }
        self.inodes.insert_alias(oldpath, newpath);
        let bumped = Inode { nlink: inode.nlink + 1, ..inode };
        let ghost mid = self@.inodes;
        self.inodes.set(oldpath, bumped);
        proof {
            lemma_add_alias(cl, ca, b, bumped);
            let n = self@.inodes;
            assert(n =~= cl.update(ca, (cl[ca].0.push(b), bumped)));
            assert(self@ == link_spec(s, a, b).1);
            assert forall|c: int| 0 <= c < cl.len() implies (#[trigger] n[c]).1.kind == cl[c].1.kind
                && (c != ca ==> n[c] == cl[c]) by {}
            assert forall|q: PathV| mk_has(cl, q) implies mk_has(n, q) && mk_get(n, q).kind
                == mk_get(cl, q).kind by {
                let c = class_of(cl, q);
                lemma_class_of(cl, c, cl[c].0.index_of(q));
            }
            assert(is_dir_spec(self@, Seq::empty()));
            assert forall|q: PathV| #[trigger]
                mk_has(n, q) && q.len() > 0 implies is_dir_spec(self@, q.drop_last()) by {
                if q != b {
                    assert(is_dir_spec(s, q.drop_last()));
                }
            }
            assert forall|c: int|
                0 <= c < n.len() && (#[trigger] n[c]).1.kind == FileKind::Directory implies n[c].0.len()
                == 1 by {
                assert(cl[c].1.kind == FileKind::Directory);
            }
            assert forall|i: int|
                0 <= i < self@.fds.len() && (#[trigger] self@.fds[i]) is Some implies target_ok(
                self@,
                self@.fds[i]->0.target,
            ) by {
                assert(s.fds[i] is Some);
                assert(target_ok(s, s.fds[i]->0.target));
            }
            assert forall|q: PathV| #[trigger] child_dirs(n, q) == child_dirs(cl, q) by {
                lemma_child_dirs_update(cl, ca, n[ca], q);
            }
            assert forall|c: int| 0 <= c < n.len() implies {
                &&& (#[trigger] n[c]).1.kind == FileKind::File ==> n[c].1.nlink == n[c].0.len()
                &&& n[c].1.kind == FileKind::Directory ==> n[c].1.nlink == 2 + child_dirs(
                    n,
                    n[c].0[0],
                )
            } by {
                assert(cl[c].1.kind == n[c].1.kind);
            }
        }
        Ok(())
    }

    /// All allocated file descriptors, in increasing order.
    pub fn all_fds(&self) -> (r: Vec<isize>)
        requires
            self.wf(),
        ensures
            forall|i: int| 0 <= i < r.len() ==> 0 <= #[trigger] r@[i] < FD_TABLE_SIZE,
            forall|i: int, j: int| 0 <= i < j < r.len() ==> r@[i] < r@[j],
            forall|k: int|
                0 <= k < FD_TABLE_SIZE ==> (self@.fds[k] is Some <==> r@.contains(k as isize)),
    {
        let mut r: Vec<isize> = Vec::new();
        for i in 0..FD_TABLE_SIZE
            invariant
                self.wf(),
                self.fd_table@.len() == FD_TABLE_SIZE,
                forall|m: int| 0 <= m < r.len() ==> 0 <= #[trigger] r@[m] < i,
                forall|m: int, n: int| 0 <= m < n < r.len() ==> r@[m] < r@[n],
                forall|k: int| 0 <= k < i ==> (self@.fds[k] is Some <==> r@.contains(k as isize)),
        {
            assert(self@.fds[i as int] is Some <==> self.fd_table@[i as int] is Some);
            if self.fd_table[i].is_some() {
                let ghost before = r@;
                r.push(i as isize);
                proof {
                    assert(r@[r.len() - 1] == i as isize);
                    assert forall|k: int| 0 <= k <= i implies (self@.fds[k] is Some <==> r@.contains(
                        k as isize,
                    )) by {
                        if k < i {
                            if before.contains(k as isize) {
                                let m = choose|m: int| 0 <= m < before.len() && before[m] == k as isize;
                                assert(r@[m] == k as isize);
                            }
                            if r@.contains(k as isize) {
                                let m = choose|m: int| 0 <= m < r.len() && r@[m] == k as isize;
                                assert(m < before.len());
                                assert(before[m] == k as isize);
                            }
                        }
                    }
                }
            } else {
                assert forall|k: int| 0 <= k <= i implies (self@.fds[k] is Some <==> r@.contains(
                    k as isize,
                )) by {
                    if k == i && r@.contains(k as isize) {
                        let m = choose|m: int| 0 <= m < r.len() && r@[m] == k as isize;
                    }
                }
            }
        }
        r
    }

    /// Get the entry of file descriptor `fd`.
    pub fn get_fd(&self, fd: isize) -> (r: Result<FileDescriptor, FsError>)
        requires
            self.wf(),
        ensures
            match get_fd_spec(self@, fd) {
                Ok(e) => r matches Ok(d) && d@ == e,
                Err(e) => r matches Err(x) && x == e,
            },
    {
        if fd < 0 || fd >= FD_TABLE_SIZE as isize {
            return Err(FsError::BadFd);
        }
        match &self.fd_table[fd as usize] {
            Some(d) => Ok(d.duplicate()),
            None => Err(FsError::NotOpened),
        }
    }

    /// Find the lowest free position in the fd table and write `fd` into it.
    pub fn alloc_fd(&mut self, fd: FileDescriptor) -> (r: Result<isize, FsError>)
        requires
            old(self).wf(),
            target_ok(old(self)@, fd@.target),
        ensures
            final(self).wf(),
            (r, final(self)@) == alloc_fd_spec(old(self)@, fd@),
    {
        let ghost s = self@;
        let ghost e = fd@;
        for i in 0..FD_TABLE_SIZE
            invariant
                self@ == s,
                s == old(self)@,
                fs_wf(s),
                e == fd@,
                target_ok(s, e.target),
                self.fd_table@.len() == FD_TABLE_SIZE,
                forall|j: int| 0 <= j < i ==> (#[trigger] s.fds[j]) is Some,
        {
            if self.fd_table[i].is_none() {
                proof {
                    lemma_first_free(s.fds, i as int);
                }
                let ghost old_table = self.fd_table@;
                assert(fds_view(old_table) == s.fds);
                self.fd_table.set(i, Some(fd));
                proof {
                    assert(self.fd_table@ == old_table.update(i as int, Some(fd)));
                    assert forall|j: int| 0 <= j < FD_TABLE_SIZE implies #[trigger] self@.fds[j]
                        == s.fds.update(i as int, Some(e))[j] by {
                        if j == i {
                            assert(self.fd_table@[j] == Some(fd));
                        } else {
                            assert(self.fd_table@[j] == old_table[j]);
                        }
                    }
                    assert(self@.fds =~= s.fds.update(i as int, Some(e)));
                    assert(self@ == alloc_fd_spec(s, e).1);
                    assert forall|j: int|
                        0 <= j < self@.fds.len() && (#[trigger] self@.fds[j]) is Some implies target_ok(
                        self@,
                        self@.fds[j]->0.target,
                    ) by {
                        if j != i {
                            assert(s.fds[j] is Some);
                            assert(target_ok(s, s.fds[j]->0.target));
                        }
                    }
                }
                assert(first_free(s.fds) == i);
                assert(alloc_fd_spec(s, e).0 == Ok::<isize, FsError>(i as isize));

                return Ok(i as isize);
            }
            assert(s.fds[i as int] is Some);
        }
        proof {
            lemma_first_free(s.fds, FD_TABLE_SIZE as int);
        }
        Err(FsError::NoAvailableFd)
    }

    /// Some descriptor other than `skip` refers to the temporary inode `t`.
    fn tmp_in_use(&self, t: usize) -> (r: bool)
        requires
            self.fd_table@.len() == FD_TABLE_SIZE,
        ensures
            r == tmp_referenced(self@.fds, t),
    {
        for i in 0..FD_TABLE_SIZE
            invariant
                self.fd_table@.len() == FD_TABLE_SIZE,
                forall|j: int|
                    0 <= j < i ==> !((#[trigger] self@.fds[j]) is Some && self@.fds[j]->0.target
                        == FdRefView::Temporary(t)),
        {
            match &self.fd_table[i] {
                Some(d) => match &d.fref {
                    FdRefType::Temporary(u) => {
                        if *u == t {
                            assert(self@.fds[i as int] is Some);
                            return true;
                        }
                    },
                    FdRefType::Existing(_) => {},
                },
                None => {},
            }
        }
        false
    }

    /// Free the file descriptor `fd`. A temporary inode that no other
    /// descriptor refers to is dropped.
    pub fn free_fd(&mut self, fd: isize) -> (r: Result<(), FsError>)
        requires
            old(self).wf(),
        ensures
            final(self).wf(),
            (r, final(self)@) == free_fd_spec(old(self)@, fd),
    {
        let ghost s = self@;
        if fd < 0 || fd >= FD_TABLE_SIZE as isize {
            return Err(FsError::BadFd);
        }
        let idx = fd as usize;
        if self.fd_table[idx].is_none() {
            return Err(FsError::NotOpened);
        }
        let old_entry = self.fd_table.remove(idx);
        self.fd_table.insert(idx, None);
        assert(self@.fds =~= s.fds.update(fd as int, None));
        match old_entry {
            Some(d) => match d.fref {
                FdRefType::Temporary(t) => {
                    if !self.tmp_in_use(t) && t < self.tmp_inodes.len() {
                        self.tmp_inodes.set(t, None);
                    }
                },
                FdRefType::Existing(_) => {},
            },
            None => {},
        }
        proof {
            assert(self@ == free_fd_spec(s, fd).1);
            assert forall|j: int|
                0 <= j < self@.fds.len() && (#[trigger] self@.fds[j]) is Some implies target_ok(
                self@,
                self@.fds[j]->0.target,
            ) by {
                assert(s.fds[j] is Some);
                assert(target_ok(s, s.fds[j]->0.target));
            }
        }
        Ok(())
    }

    /// Some descriptor refers to the path `p`.
    fn path_in_use(&self, p: &AbsPath) -> (r: bool)
        requires
            self.fd_table@.len() == FD_TABLE_SIZE,
        ensures
            r == path_referenced(self@.fds, p@),
    {
        for i in 0..FD_TABLE_SIZE
            invariant
                self.fd_table@.len() == FD_TABLE_SIZE,
                forall|j: int|
                    0 <= j < i ==> !((#[trigger] self@.fds[j]) is Some && self@.fds[j]->0.target
                        == FdRefView::Existing(p@)),
        {
            match &self.fd_table[i] {
                Some(d) => match &d.fref {
                    FdRefType::Existing(q) => {
                        if *q == *p {
                            assert(self@.fds[i as int] is Some);
                            return true;
                        }
                    },
                    FdRefType::Temporary(_) => {},
                },
                None => {},
            }
        }
        false
    }

    /// Every descriptor that refers to the path `p` refers to `t` instead.
    fn retarget_fds(&mut self, p: &AbsPath, t: &FdRefType)
        requires
            old(self).fd_table@.len() == FD_TABLE_SIZE,
        ensures
            final(self)@ == (FsView { fds: retarget(old(self)@.fds, p@, t@), ..old(self)@ }),
    {
        let ghost s = self@;
        for i in 0..FD_TABLE_SIZE
            invariant
                s == old(self)@,
                self.fd_table@.len() == FD_TABLE_SIZE,
                s.fds.len() == FD_TABLE_SIZE,
                self@.uid == s.uid,
                self@.gid == s.gid,
                self@.cwd == s.cwd,
                self@.inodes == s.inodes,
                self@.tmps == s.tmps,
                forall|j: int| 0 <= j < i ==> #[trigger] self@.fds[j] == retarget(s.fds, p@, t@)[j],
                forall|j: int| i <= j < FD_TABLE_SIZE ==> #[trigger] self@.fds[j] == s.fds[j],
        {
            assert(self@.fds[i as int] == s.fds[i as int]);
            let hit: Option<OpenFlags> = match &self.fd_table[i] {
                Some(d) => match &d.fref {
                    FdRefType::Existing(q) => if *q == *p {
                        assert(s.fds[i as int] == Some(d@));
                        Some(d.flags)
                    } else {
                        assert(s.fds[i as int] == Some(d@));
                        None
                    },
                    FdRefType::Temporary(_) => {
                        assert(s.fds[i as int] == Some(d@));
                        None
                    },
                },
                None => None,
            };
            assert(hit is Some <==> (s.fds[i as int] is Some && s.fds[i as int]->0.target
                == FdRefView::Existing(p@)));
            assert(hit is Some ==> hit->0 == s.fds[i as int]->0.flags);
            match hit {
                Some(flags) => {
                    let ghost before = self.fd_table@;
                    self.fd_table.set(i, Some(FileDescriptor { fref: t.duplicate(), flags }));
                    assert forall|j: int| 0 <= j < FD_TABLE_SIZE && j != i implies #[trigger] self@.fds[j]
                        == fds_view(before)[j] by {
                        assert(self.fd_table@[j] == before[j]);
                    }
                    assert(self.fd_table@[i as int] is Some);
                    assert(self@.fds[i as int] == Some(self.fd_table@[i as int]->0@));
                    assert(self@.fds[i as int] == retarget(s.fds, p@, t@)[i as int]);
                },
                None => {
                    assert(self@.fds[i as int] == retarget(s.fds, p@, t@)[i as int]);
                },
            }
        }
        assert(self@.fds =~= retarget(s.fds, p@, t@));
    }

    /// Stores `inode` in the lowest free temporary slot and returns it.
    fn alloc_tmp(&mut self, inode: Inode) -> (r: usize)
        ensures
            r == first_free(old(self)@.tmps),
            final(self)@ == (FsView {
                tmps: if r < old(self)@.tmps.len() {
                    old(self)@.tmps.update(r as int, Some(inode))
                } else {
                    old(self)@.tmps.push(Some(inode))
                },
                ..old(self)@
            }),
            first_free(old(self)@.tmps) < old(self)@.tmps.len() || old(self)@.tmps.len()
                < usize::MAX,
    {
        let ghost s = self@;
        let n = self.tmp_inodes.len();
        for i in 0..n
            invariant
                s == old(self)@,
                self@ == s,
                n == self.tmp_inodes@.len(),
                forall|j: int| 0 <= j < i ==> (#[trigger] s.tmps[j]) is Some,
        {
            if self.tmp_inodes[i].is_none() {
                proof {
                    lemma_first_free(s.tmps, i as int);
                }
                self.tmp_inodes.set(i, Some(inode));
                return i;
            }
        }
        proof {
            lemma_first_free(s.tmps, n as int);
        }
        self.tmp_inodes.push(Some(inode));
        let m = self.tmp_inodes.len();
        assert(m == n + 1);
        assert(self@.tmps =~= s.tmps.push(Some(inode)));
        n
    }

    /// Delete a name and possibly the inode it refers to. Removing a
    /// directory (`rmdir`) needs it to be empty; descriptors that refer to
    /// the removed path move to a remaining alias, or to a temporary inode.
    pub fn unlink(&mut self, path: &AbsPath, rmdir: bool) -> (r: Result<(), FsError>)
        requires
            old(self).wf(),
        ensures
            final(self).wf(),
            (r, final(self)@) == unlink_spec(old(self)@, path@, rmdir),
            cwd_ok(old(self)@) && old(self)@.cwd != path@ ==> cwd_ok(final(self)@),
    {
        let ghost s = self@;
        let ghost p = path@;
        if path.is_root() {
            return Err(FsError::InvalidPath);
        }
        if !self.path_exists(path) {
            return Err(FsError::NotFound);
        }
        let dir = self.is_dir(path);
        if dir {
            if !rmdir {
                return Err(FsError::IsDirectory);
            }
            if !self.is_empty_dir(path) {
                return Err(FsError::DirectoryNotEmpty);
            }
        } else if rmdir {
            return Err(FsError::NotDirectory);
        }
        let ghost cl = s.inodes;
        let ghost c = class_of(cl, p);
        let ghost j = pos_of(cl, p);
        proof {
            assert(cl[c].0.contains(p));
            lemma_class_of(cl, c, cl[c].0.index_of(p));
        }
        if dir {
            let parent = match path.parent() {
                Some(q) => q,
                None => {
                    return Err(FsError::InvalidPath);
                },
            };
            let pinode = match self.inodes.get(&parent) {
                Some(i) => *i,
                None => {
                    return Err(FsError::NotFound);
                },
            };
            proof {
                let cp = class_of(cl, parent@);
                assert(is_dir_spec(s, parent@));
                lemma_class_of(cl, cp, cl[cp].0.index_of(parent@));
                assert(cl[c].0.len() == 1);
                assert(child_ind(cl[c], parent@) == 1);
                lemma_child_dirs_remove(cl, c, parent@);
                lemma_child_dirs_nonneg(cl.remove(c), parent@);
                assert(cl[cp].0[0] == parent@);
                lemma_set_value(cl, cp, unlinked(pinode));
            }
            self.inodes.set(&parent, Inode { nlink: pinode.nlink - 1, ..pinode });
        }
        let ghost cl0 = self@.inodes;
        proof {
            if dir {
                assert(cl0 == unlink_at(cl, p.drop_last()));
            } else {
                assert(cl0 == cl);
            }
            assert(mk_wf(cl0));
            assert(cl0[c].0 == cl[c].0);
            lemma_class_of(cl0, c, j);
        }
        let inode = match self.inodes.get(path) {
            Some(i) => *i,
            None => {
                return Err(FsError::NotFound);
            },
        };
        let keys = match self.inodes.aliases(path) {
            Some(k) => k,
            None => {
                return Err(FsError::NotFound);
            },
        };
        let left = match self.inodes.remove_alias(path) {
            Some(l) => l,
            None => {
                return Err(FsError::NotFound);
            },
        };
        let ghost ks = cl[c].0.remove(j);
        if left == 0 {
            if self.path_in_use(path) {
                let t = self.alloc_tmp(inode);
                self.retarget_fds(path, &FdRefType::Temporary(t));
            }
        } else {
            let other = if keys.len() > 1 && keys[0] == *path {
                keys[1].duplicate()
            } else {
                keys[0].duplicate()
            };
            proof {
                assert(keys_view(keys@) == cl[c].0);
                if j == 0 {
                    assert(keys@[0]@ == p);
                } else {
                    assert(keys@[0]@ != p) by {
                        assert(cl[c].0[0] != cl[c].0[j]);
                    }
                }
                assert(other@ == ks[0]);
                lemma_drop_alias(cl0, c, j, inode);
                assert(ks[0] == self@.inodes[c].0[0]);
                lemma_class_of(self@.inodes, c, 0);
            }
            self.inodes.set(&other, Inode { nlink: inode.nlink - 1, ..inode });
            self.retarget_fds(path, &FdRefType::Existing(other));
        }
        proof {
            let u = unlinked_state(s, p);
            assert(self@.inodes == u.inodes);
            assert(self@.fds == u.fds);
            assert(self@.tmps == u.tmps);
            assert(self@ == unlinked_state(s, p));
            assert(self.tmp_inodes@.len() <= usize::MAX);
            lemma_unlink_wf(s, p, rmdir);
        }
        Ok(())
    }

    /// Change the current working directory.
    pub fn chdir(&mut self, path: AbsPath) -> (r: Result<(), FsError>)
        requires
            old(self).wf(),
        ensures
            final(self).wf(),
            (r, final(self)@) == chdir_spec(old(self)@, path@),
            r is Ok ==> cwd_ok(final(self)@),
            r is Err && cwd_ok(old(self)@) ==> cwd_ok(final(self)@),
    {
        if !self.path_exists(&path) {
            return Err(FsError::NotFound);
        }
        if !self.is_dir(&path) {
            return Err(FsError::NotDirectory);
        }
        self.cwd = path;
        Ok(())
    }

    /// Resolve the `path` argument of a file-system syscall: an absolute
    /// path alone, a relative one against the current directory when
    /// `dirfd` is `FDCWD`, and otherwise against the directory that `dirfd`
    /// refers to.
    pub fn parse_path(&self, dirfd: isize, path: &str) -> (r: Result<AbsPath, FsError>)
        requires
            self.wf(),
        ensures
            match parse_path_spec(self@, dirfd, path@) {
                Ok(v) => r matches Ok(p) && p@ == v,
                Err(e) => r matches Err(x) && x == e,
            },
    {
        let absolute = match path.chars().next() {
            Some(c) => c == '/',
            None => false,
        };
        if absolute {
            return AbsPath::new(path);
        }
        if dirfd == FDCWD {
            return self.cwd.join_str(path);
        }
        let fd = self.get_fd(dirfd)?;
        match &fd.fref {
            FdRefType::Existing(p) => {
                if !self.path_exists(p) {
                    return Err(FsError::NotFound);
                }
                if !self.is_dir(p) {
                    return Err(FsError::NotDirectory);
                }
                p.join_str(path)
            },
            FdRefType::Temporary(_) => Err(FsError::NotFound),
        }
    }

    /// Open `stdin`, `stdout` and `stderr`: descriptors 0, 1 and 2 refer to
    /// one temporary inode, a regular file of this file system's user.
    pub fn open_stdio(&mut self)
        requires
            old(self).wf(),
        ensures
            final(self).wf(),
            final(self)@.inodes == old(self)@.inodes,
            final(self)@.cwd == old(self)@.cwd,
            final(self)@.uid == old(self)@.uid,
            final(self)@.gid == old(self)@.gid,
            forall|i: int|
                0 <= i < 3 ==> #[trigger] final(self)@.fds[i] == Some(
                    FdView {
                        target: FdRefView::Temporary(first_free(old(self)@.tmps) as usize),
                        flags: OpenFlags(0),
                    },
                ),
            forall|i: int| 3 <= i < FD_TABLE_SIZE ==> #[trigger] final(self)@.fds[i] == old(self)@.fds[i],
            ({
                let t = first_free(old(self)@.tmps);
                let inode = Inode {
                    mode: FileMode(0),
                    uid: old(self)@.uid,
                    gid: old(self)@.gid,
                    nlink: 1,
                    kind: FileKind::File,
                };
                final(self)@.tmps == if t < old(self)@.tmps.len() {
                    old(self)@.tmps.update(t, Some(inode))
                } else {
                    old(self)@.tmps.push(Some(inode))
                }
            }),
    {
        let ghost s = self@;
        let inode = Inode::new(FileMode::empty(), self.uid, self.gid, FileKind::File);
        proof {
            lemma_first_free_slot(s.tmps);
        }
        let t = self.alloc_tmp(inode);
        let ghost s1 = self@;
        let m = self.tmp_inodes.len();
        assert(t < m);
        assert(s1.tmps[t as int] is Some);
        for i in 0..3
            invariant
                self@.inodes == s.inodes,
                self@.cwd == s.cwd,
                self@.uid == s.uid,
                self@.gid == s.gid,
                self@.tmps == s1.tmps,
                s1.tmps.len() <= usize::MAX,
                t < s1.tmps.len(),
                s1.tmps[t as int] is Some,
                t == first_free(s.tmps),
                self.fd_table@.len() == FD_TABLE_SIZE,
                fs_wf(s),
                forall|j: int|
                    0 <= j < i ==> #[trigger] self@.fds[j] == Some(
                        FdView { target: FdRefView::Temporary(t), flags: OpenFlags(0) },
                    ),
                forall|j: int| i <= j < FD_TABLE_SIZE ==> #[trigger] self@.fds[j] == s.fds[j],
        {
            let ghost before = self.fd_table@;
            let ghost old_fds = self@.fds;
            assert(fds_view(before) == old_fds);
            let d = FileDescriptor::new_tmp(t, OpenFlags(0));
            let ghost dv = d@;
            self.fd_table.set(i, Some(d));
            assert(self.fd_table@ == before.update(i as int, Some(d)));
            assert(self.fd_table@[i as int] is Some);
            assert(self@.fds[i as int] == Some(self.fd_table@[i as int]->0@));
            assert forall|j: int| 0 <= j < FD_TABLE_SIZE && j != i implies #[trigger] self@.fds[j]
                == fds_view(before)[j] by {
                assert(self.fd_table@[j] == before[j]);
            }
            assert(self@.fds[i as int] == Some(
                FdView { target: FdRefView::Temporary(t), flags: OpenFlags(0) },
            ));
            assert forall|j: int| 0 <= j < i + 1 implies #[trigger] self@.fds[j] == Some(
                FdView { target: FdRefView::Temporary(t), flags: OpenFlags(0) },
            ) by {
                if j < i {
                    assert(old_fds[j] == Some(
                        FdView { target: FdRefView::Temporary(t), flags: OpenFlags(0) },
                    ));
                }
            }
            assert forall|j: int| i + 1 <= j < FD_TABLE_SIZE implies #[trigger] self@.fds[j] == s.fds[j] by {
                assert(old_fds[j] == s.fds[j]);
            }
        }
        proof {
            lemma_first_free_slot(s.tmps);
            assert forall|j: int|
                0 <= j < self@.fds.len() && (#[trigger] self@.fds[j]) is Some implies target_ok(
                self@,
                self@.fds[j]->0.target,
            ) by {
                if j >= 3 {
                    assert(s.fds[j] is Some);
                    assert(target_ok(s, s.fds[j]->0.target));
                    if let FdRefView::Temporary(u) = s.fds[j]->0.target {
                        if u < s.tmps.len() {
                            if t < s.tmps.len() {
                                assert(s1.tmps[u as int] == s.tmps.update(t as int, Some(inode))[u as int]);
                            } else {
                                assert(s1.tmps[u as int] == s.tmps[u as int]);
                            }
                        }
                    }
                }
            }
        }
    }

    /// Check that two states match.
    pub fn matches(&self, other: &Self) -> (r: bool)
        requires
            mk_wf(self@.inodes),
            mk_wf(other@.inodes),
        ensures
            r == fs_matches(self@, other@),
    {
        self.cwd == other.cwd && self.uid == other.uid && self.gid == other.gid
            && self.inodes.refines(&other.inodes) && other.inodes.refines(&self.inodes)
    }

    /// Take over the compared part of `other`: the current directory, user,
    /// group and inodes.
    pub fn update(&mut self, other: &Self)
        ensures
            final(self)@ == (FsView {
                cwd: other@.cwd,
                uid: other@.uid,
                gid: other@.gid,
                inodes: other@.inodes,
                ..old(self)@
            }),
            fs_matches(final(self)@, other@) || !mk_wf(other@.inodes),
    {
        self.cwd = other.cwd.duplicate();
        self.uid = other.uid;
        self.gid = other.gid;
        self.inodes = other.inodes.duplicate();
        proof {
            if mk_wf(other@.inodes) {
                lemma_refines_self(other@.inodes);
            }
        }
    }

    /// The current working directory.
    pub fn cwd(&self) -> (r: AbsPath)
        ensures
            r@ == self@.cwd,
    {
        self.cwd.duplicate()
    }

    /// The temporary inode in slot `t`, if there is one.
    pub fn tmp_inode(&self, t: usize) -> (r: Option<Inode>)
        ensures
            t < self@.tmps.len() ==> r == self@.tmps[t as int],
            t >= self@.tmps.len() ==> r is None,
    {
        if t < self.tmp_inodes.len() {
            self.tmp_inodes[t]
        } else {
            None
        }
    }

    /// The number of temporary inodes.
    pub fn tmp_count(&self) -> (r: usize)
        ensures
            r == count_some(self@.tmps),
    {
        let mut n: usize = 0;
        for i in 0..self.tmp_inodes.len()
            invariant
                n == count_some(self@.tmps.take(i as int)),
                n <= i,
        {
            proof {
                assert(self@.tmps.take(i + 1).drop_last() =~= self@.tmps.take(i as int));
            }
            if self.tmp_inodes[i].is_some() {
                n = n + 1;
            }
        }
        assert(self@.tmps.take(self.tmp_inodes.len() as int) =~= self@.tmps);
        n
    }

    /// Check if descriptor `fd` is allocated.
    pub fn fd_in_use(&self, fd: usize) -> (r: bool)
        requires
            self.wf(),
            fd < FD_TABLE_SIZE,
        ensures
            r == (self@.fds[fd as int] is Some),
    {
        self.fd_table[fd].is_some()
    }

    /// Check if `path` exists.
    pub fn path_exists(&self, path: &AbsPath) -> (r: bool)
        ensures
            r == exists_spec(self@, path@),
    {
        self.inodes.contains_key(path)
    }

    /// Check if `path` exists and is a directory.
    pub fn is_dir(&self, path: &AbsPath) -> (r: bool)
        requires
            mk_wf(self@.inodes),
        ensures
            r == is_dir_spec(self@, path@),
    {
        match self.inodes.get(path) {
            Some(inode) => inode.kind == FileKind::Directory,
            None => false,
        }
    }

    /// Check if `path` exists and is an empty directory.
    pub fn is_empty_dir(&self, path: &AbsPath) -> (r: bool)
        requires
            mk_wf(self@.inodes),
        ensures
            r == is_empty_dir_spec(self@, path@),
    {
        if !self.is_dir(path) {
            return false;
        }
        let keys = self.inodes.keys();
        for i in 0..keys.len()
            invariant
                mk_wf(self@.inodes),
                forall|p: PathV| mk_has(self@.inodes, p) <==> keys_view(keys@).contains(p),
                forall|j: int| 0 <= j < i ==> !is_ancestor_spec(path@, #[trigger] keys@[j]@),
        {
            if path.is_ancestor(&keys[i]) {
                assert(mk_has(self@.inodes, keys@[i as int]@)) by {
                    assert(keys_view(keys@)[i as int] == keys@[i as int]@);
                }
                return false;
            }
        }
        assert forall|q: PathV| mk_has(self@.inodes, q) implies !is_ancestor_spec(path@, q) by {
            let j = choose|j: int| 0 <= j < keys_view(keys@).len() && keys_view(keys@)[j] == q;
            assert(keys@[j]@ == q);
        }
        true
    }

    /// All paths of the file system.
    pub fn paths(&self) -> (r: Vec<AbsPath>)
        requires
            mk_wf(self@.inodes),
        ensures
            forall|p: PathV| exists_spec(self@, p) <==> keys_view(r@).contains(p),
            keys_view(r@) == mk_keys(self@.inodes),
    {
        self.inodes.keys()
    }

    /// Lookup the inode by path.
    pub fn lookup(&self, path: &AbsPath) -> (r: Result<Inode, FsError>)
        requires
            mk_wf(self@.inodes),
        ensures
            exists_spec(self@, path@) ==> r == Ok::<Inode, FsError>(mk_get(self@.inodes, path@)),
            !exists_spec(self@, path@) ==> r == Err::<Inode, FsError>(FsError::NotFound),
    {
        match self.inodes.get(path) {
            Some(inode) => Ok(*inode),
            None => Err(FsError::NotFound),
        }
    }
}

/// A well-formed map refines itself.
pub proof fn lemma_refines_self(a: Seq<ClassV<Inode>>)
    requires
        mk_wf(a),
    ensures
        mk_same(a, a),
{
}

/// Every ancestor of a path lies in a well-formed state too.
pub proof fn lemma_ancestor_exists(s: FsView, p: PathV, q: PathV)
    requires
        fs_wf(s),
        mk_has(s.inodes, q),
        is_ancestor_spec(p, q),
    ensures
        mk_has(s.inodes, p),
    decreases q.len(),
{
    let r = q.drop_last();
    assert(is_dir_spec(s, r));
    if r.len() == p.len() {
        assert(r =~= p) by {
            assert forall|i: int| 0 <= i < p.len() implies r[i] == p[i] by {
                assert(q.take(p.len() as int)[i] == q[i]);
            }
        }
    } else {
        assert(r.take(p.len() as int) =~= q.take(p.len() as int));
        lemma_ancestor_exists(s, p, r);
    }
}

/// Creating a directory at a path that does not exist and removing it
/// again (as a directory) gives back the same inodes and the same current
/// directory.
pub proof fn lemma_mkdir_rmdir_restores(s: FsView, p: PathV, mode: FileMode)
    requires
        fs_wf(s),
        !exists_spec(s, p),
    ensures
        ({
            let s1 = create_spec(s, p, FileKind::Directory, mode).1;
            let s2 = unlink_spec(s1, p, true).1;
            s2.inodes == s.inodes && s2.cwd == s.cwd
        }),
        create_spec(s, p, FileKind::Directory, mode).0 is Ok ==> unlink_spec(
            create_spec(s, p, FileKind::Directory, mode).1,
            p,
            true,
        ).0 is Ok,
{
    let cr = create_spec(s, p, FileKind::Directory, mode);
    if cr.0 is Ok {
        let cl = s.inodes;
        let s1 = cr.1;
        let parent = p.drop_last();
        let inode = Inode {
            mode,
            uid: s.uid,
            gid: s.gid,
            nlink: initial_nlink(FileKind::Directory),
            kind: FileKind::Directory,
        };
        let a = cl.push((seq![p], inode));
        lemma_push_class(cl, p, inode);
        let cp = class_of(cl, parent);
        lemma_class_of(cl, cp, cl[cp].0.index_of(parent));
        let v = a[cp].1;
        assert(a[cp] == cl[cp]);
        lemma_set_value(a, cp, linked(v));
        let b = s1.inodes;
        assert(b == a.update(cp, (a[cp].0, linked(v))));
        let c = cl.len() as int;
        assert(b[c] == a[c]);
        assert(p.len() > 0) by {
            if p.len() == 0 {
                assert(p =~= Seq::<Seq<char>>::empty());
            }
        }
        assert(is_dir_spec(s1, p));
        assert(is_empty_dir_spec(s1, p)) by {
            assert forall|q: PathV| mk_has(s1.inodes, q) implies !is_ancestor_spec(p, q) by {
                if q != p && is_ancestor_spec(p, q) {
                    lemma_ancestor_exists(s, p, q);
                }
            }
        }
        assert(!path_referenced(s1.fds, p)) by {
            if path_referenced(s1.fds, p) {
                let j = choose|j: int|
                    0 <= j < s1.fds.len() && (#[trigger] s1.fds[j]) is Some && s1.fds[j]->0.target
                        == FdRefView::Existing(p);
                assert(target_ok(s, s.fds[j]->0.target));
            }
        }
        assert(class_of(b, p) == c);
        assert(pos_of(b, p) == 0);
        assert(b[c].0.remove(0) =~= Seq::<PathV>::empty());
        let cl0 = unlink_at(b, parent);
        assert(class_of(b, parent) == cp);
        assert(mk_get(b, parent) == linked(v));
        assert(unlinked(linked(v)) == v);
        assert(cl0 =~= a);
        assert(a.remove(c) =~= cl);
    }
}

/// Linking an existing path `a` to a new path `b` and unlinking `b` again
/// gives back the same inodes.
pub proof fn lemma_link_unlink_restores(s: FsView, a: PathV, b: PathV)
    requires
        fs_wf(s),
        exists_spec(s, a),
        !exists_spec(s, b),
    ensures
        unlink_spec(link_spec(s, a, b).1, b, false).1.inodes == s.inodes,
{
    let lr = link_spec(s, a, b);
    if lr.0 is Ok {
        let cl = s.inodes;
        let s1 = lr.1;
        let ca = class_of(cl, a);
        lemma_class_of(cl, ca, cl[ca].0.index_of(a));
        let v = mk_get(cl, a);
        lemma_add_alias(cl, ca, b, linked(v));
        let n = s1.inodes;
        let ks = cl[ca].0;
        assert(b.len() > 0) by {
            if b.len() == 0 {
                assert(b =~= Seq::<Seq<char>>::empty());
            }
        }
        assert(!is_dir_spec(s1, b));
        assert(n[ca].0.remove(ks.len() as int) =~= ks);
        assert(ks.len() > 0);
        assert(unlinked(linked(v)) == v);
        assert(n.update(ca, (ks, unlinked(linked(v)))) =~= cl);
    }
}

/// `create` keeps every path that existed, with its kind, and leaves the
/// descriptors and the current directory alone.
pub proof fn lemma_create_keeps(s: FsView, p: PathV, kind: FileKind, mode: FileMode)
    requires
        fs_wf(s),
    ensures
        ({
            let s1 = create_spec(s, p, kind, mode).1;
            &&& s1.fds == s.fds
            &&& s1.cwd == s.cwd
            &&& forall|q: PathV|
                exists_spec(s, q) ==> exists_spec(s1, q) && (is_dir_spec(s1, q) == is_dir_spec(
                    s,
                    q,
                ))
        }),
{
    let r = create_spec(s, p, kind, mode);
    if r.0 is Ok {
        let cl = s.inodes;
        let inode = Inode { mode, uid: s.uid, gid: s.gid, nlink: initial_nlink(kind), kind };
        let a = cl.push((seq![p], inode));
        lemma_push_class(cl, p, inode);
        let parent = p.drop_last();
        let cp = class_of(cl, parent);
        let n = r.1.inodes;
        if kind == FileKind::Directory {
            lemma_set_value(a, cp, linked(mk_get(a, parent)));
        }
        assert forall|q: PathV| exists_spec(s, q) implies exists_spec(r.1, q) && (is_dir_spec(
            r.1,
            q,
        ) == is_dir_spec(s, q)) by {
            let c = class_of(cl, q);
            lemma_class_of(cl, c, cl[c].0.index_of(q));
            assert(a[c] == cl[c]);
        }
    }
}

/// `link` keeps every path that existed, with its kind, and leaves the
/// descriptors and the current directory alone.
pub proof fn lemma_link_keeps(s: FsView, a: PathV, b: PathV)
    requires
        fs_wf(s),
    ensures
        ({
            let s1 = link_spec(s, a, b).1;
            &&& s1.fds == s.fds
            &&& s1.cwd == s.cwd
            &&& forall|q: PathV|
                exists_spec(s, q) ==> exists_spec(s1, q) && (is_dir_spec(s1, q) == is_dir_spec(
                    s,
                    q,
                ))
        }),
{
    let r = link_spec(s, a, b);
    if r.0 is Ok {
        let cl = s.inodes;
        let ca = class_of(cl, a);
        lemma_class_of(cl, ca, cl[ca].0.index_of(a));
        lemma_add_alias(cl, ca, b, linked(mk_get(cl, a)));
        assert forall|q: PathV| exists_spec(s, q) implies exists_spec(r.1, q) && (is_dir_spec(
            r.1,
            q,
        ) == is_dir_spec(s, q)) by {
            let c = class_of(cl, q);
            lemma_class_of(cl, c, cl[c].0.index_of(q));
        }
    }
}

/// Path resolution depends on the descriptors, the current directory and
/// the paths that exist with their kinds only.
pub proof fn lemma_parse_path_stable(s: FsView, s1: FsView, dirfd: isize, path: Seq<char>)
    requires
        fs_wf(s),
        s1.fds == s.fds,
        s1.cwd == s.cwd,
        forall|q: PathV|
            exists_spec(s, q) ==> exists_spec(s1, q) && (is_dir_spec(s1, q) == is_dir_spec(s, q)),
    ensures
        parse_path_spec(s1, dirfd, path) == parse_path_spec(s, dirfd, path),
{
    if !(path.len() > 0 && path[0] == '/') && dirfd != FDCWD {
        if let Ok(entry) = get_fd_spec(s, dirfd) {
            assert(s.fds[dirfd as int] is Some);
            assert(target_ok(s, entry.target));
        }
    }
}

/// What the invariant says, one property at a time: every descriptor
/// refers to something that exists; a regular file has as many links as
/// paths; a directory has one path and counts its own `.`, its entry in its
/// parent, and one `..` per subdirectory; no path names two inodes.
pub proof fn lemma_state_invariants(s: FsView)
    requires
        fs_wf(s),
    ensures
        forall|i: int|
            0 <= i < s.fds.len() && (#[trigger] s.fds[i]) is Some ==> match s.fds[i]->0.target {
                FdRefView::Existing(p) => exists_spec(s, p),
                FdRefView::Temporary(t) => t < s.tmps.len() && s.tmps[t as int] is Some,
            },
        forall|c: int|
            0 <= c < s.inodes.len() && (#[trigger] s.inodes[c]).1.kind == FileKind::File
                ==> s.inodes[c].1.nlink == s.inodes[c].0.len(),
        forall|c: int|
            0 <= c < s.inodes.len() && (#[trigger] s.inodes[c]).1.kind == FileKind::Directory
                ==> s.inodes[c].0.len() == 1 && s.inodes[c].1.nlink == s.inodes[c].0.len() + 1
                + child_dirs(s.inodes, s.inodes[c].0[0]),
        forall|c1: int, j1: int, c2: int, j2: int|
            0 <= c1 < s.inodes.len() && 0 <= c2 < s.inodes.len() && 0 <= j1 < s.inodes[c1].0.len()
                && 0 <= j2 < s.inodes[c2].0.len() && (#[trigger] s.inodes[c1].0[j1]) == (
            #[trigger] s.inodes[c2].0[j2]) ==> c1 == c2 && j1 == j2,
{
    assert forall|i: int|
        0 <= i < s.fds.len() && (#[trigger] s.fds[i]) is Some implies match s.fds[i]->0.target {
        FdRefView::Existing(p) => exists_spec(s, p),
        FdRefView::Temporary(t) => t < s.tmps.len() && s.tmps[t as int] is Some,
    } by {
        assert(target_ok(s, s.fds[i]->0.target));
    }
}

/// Descriptors that share an entry, as `dup` makes them, still share one
/// after a path is removed: descriptors are moved off a removed path as a
/// function of their entry alone.
pub proof fn lemma_unlink_keeps_shared_entries(s: FsView, p: PathV, rmdir: bool, i: int, j: int)
    requires
        0 <= i < s.fds.len(),
        0 <= j < s.fds.len(),
        s.fds[i] == s.fds[j],
    ensures
        unlink_spec(s, p, rmdir).1.fds[i] == unlink_spec(s, p, rmdir).1.fds[j],
{
}

} // verus!
