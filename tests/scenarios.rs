use model_fs::error::FsError;
use model_fs::fs::{FdRefType, FileSystem, FDCWD};
use model_fs::inode::{FileMode, OpenFlags, UnlinkatFlags, AT_REMOVEDIR, O_CREAT};
use model_fs::path::AbsPath;

fn fresh() -> FileSystem {
    let mut fs = FileSystem::new_root(0, 0);
    fs.open_stdio();
    fs
}

fn path(s: &str) -> AbsPath {
    AbsPath::new(s).unwrap()
}

#[test]
fn nonempty_directory_cannot_be_removed() {
    let mut fs = fresh();
    assert_eq!(fs.mkdirat(FDCWD, "a", FileMode(0o755)), 0);
    assert_eq!(fs.openat(FDCWD, "a", OpenFlags(0), FileMode(0)), 3);
    assert_eq!(fs.openat(3, "b", OpenFlags(O_CREAT), FileMode(0o644)), 4);
    assert!(fs.path_exists(&path("/a/b")));
    assert_eq!(fs.unlinkat(FDCWD, "a", UnlinkatFlags(AT_REMOVEDIR)), -39);
    assert!(fs.path_exists(&path("/a")));
}

#[test]
fn unlinking_one_of_two_links_retargets_descriptors() {
    let mut fs = fresh();
    assert_eq!(fs.openat(FDCWD, "f", OpenFlags(O_CREAT), FileMode(0o600)), 3);
    assert_eq!(fs.linkat(FDCWD, "f", FDCWD, "g"), 0);
    assert_eq!(fs.lookup(&path("/f")).unwrap().nlink, 2);
    assert_eq!(fs.lookup(&path("/g")).unwrap().nlink, 2);
    assert_eq!(fs.unlinkat(FDCWD, "f", UnlinkatFlags(0)), 0);
    assert!(!fs.path_exists(&path("/f")));
    assert_eq!(fs.lookup(&path("/g")).unwrap().nlink, 1);
    let fd = fs.get_fd(3).unwrap();
    match fd.fref() {
        FdRefType::Existing(p) => assert_eq!(p.display_string(), "/g"),
        FdRefType::Temporary(_) => panic!("fd 3 should refer to /g"),
    }
}

#[test]
fn unlinked_open_file_lives_on_until_closed() {
    let mut fs = fresh();
    assert_eq!(fs.tmp_count(), 1);
    assert_eq!(fs.openat(FDCWD, "f", OpenFlags(O_CREAT), FileMode(0o600)), 3);
    assert_eq!(fs.unlinkat(FDCWD, "f", UnlinkatFlags(0)), 0);
    assert!(!fs.path_exists(&path("/f")));
    let t = match fs.get_fd(3).unwrap().fref() {
        FdRefType::Temporary(t) => *t,
        FdRefType::Existing(_) => panic!("fd 3 should refer to a temporary inode"),
    };
    let inode = fs.tmp_inode(t).unwrap();
    assert_eq!(inode.mode, FileMode(0o600));
    assert_eq!(fs.tmp_count(), 2);
    assert_eq!(fs.close(3), 0);
    assert_eq!(fs.tmp_inode(t), None);
    assert_eq!(fs.tmp_count(), 1);
}

#[test]
fn chdir_root_and_dot_dot_resolution() {
    let mut fs = fresh();
    assert_eq!(fs.chdirat(FDCWD, "/"), 0);
    assert_eq!(fs.cwd().display_string(), "/");
    let p = fs.parse_path(FDCWD, "/a/../b").unwrap();
    assert_eq!(p.display_string(), "/b");
    assert_eq!(fs.openat(FDCWD, "/a/../b", OpenFlags(O_CREAT), FileMode(0o644)), 3);
    assert!(fs.path_exists(&path("/b")));
    assert!(!fs.path_exists(&path("/a")));
}

#[test]
fn dup_shares_the_stdio_target() {
    let mut fs = fresh();
    let t0 = match fs.get_fd(0).unwrap().fref() {
        FdRefType::Temporary(t) => *t,
        FdRefType::Existing(_) => panic!("stdio should be temporary"),
    };
    assert_eq!(fs.dup(0), 3);
    assert_eq!(fs.close(0), 0);
    match fs.get_fd(3).unwrap().fref() {
        FdRefType::Temporary(t) => assert_eq!(*t, t0),
        FdRefType::Existing(_) => panic!("fd 3 should still refer to stdio"),
    }
    assert!(fs.tmp_inode(t0).is_some());
    assert_eq!(fs.dup(3), 0);
}

#[test]
fn full_descriptor_table_gives_emfile() {
    let mut fs = fresh();
    assert_eq!(fs.openat(FDCWD, "f", OpenFlags(O_CREAT), FileMode(0o600)), 3);
    for i in 4..256 {
        assert_eq!(fs.openat(FDCWD, "f", OpenFlags(0), FileMode(0)), i);
    }
    assert_eq!(fs.all_fds().len(), 256);
    assert_eq!(fs.openat(FDCWD, "f", OpenFlags(0), FileMode(0)), -24);
    assert_eq!(fs.dup(0), -24);
    assert_eq!(fs.close(100), 0);
    assert_eq!(fs.openat(FDCWD, "f", OpenFlags(0), FileMode(0)), 100);
}

#[test]
fn lowest_free_descriptor_is_reused() {
    let mut fs = fresh();
    assert_eq!(fs.openat(FDCWD, "f", OpenFlags(O_CREAT), FileMode(0o600)), 3);
    assert_eq!(fs.openat(FDCWD, "f", OpenFlags(0), FileMode(0)), 4);
    assert_eq!(fs.close(1), 0);
    assert_eq!(fs.openat(FDCWD, "f", OpenFlags(0), FileMode(0)), 1);
    assert_eq!(fs.all_fds(), vec![0, 1, 2, 3, 4]);
}

#[test]
fn directory_link_counts() {
    let mut fs = fresh();
    assert_eq!(fs.lookup(&path("/")).unwrap().nlink, 2);
    assert_eq!(fs.mkdirat(FDCWD, "a", FileMode(0o755)), 0);
    assert_eq!(fs.lookup(&path("/")).unwrap().nlink, 3);
    assert_eq!(fs.lookup(&path("/a")).unwrap().nlink, 2);
    assert_eq!(fs.mkdirat(FDCWD, "/a/b", FileMode(0o755)), 0);
    assert_eq!(fs.lookup(&path("/a")).unwrap().nlink, 3);
    assert_eq!(fs.openat(FDCWD, "/a/f", OpenFlags(O_CREAT), FileMode(0o644)), 3);
    assert_eq!(fs.lookup(&path("/a")).unwrap().nlink, 3);
    assert_eq!(fs.unlinkat(FDCWD, "/a/b", UnlinkatFlags(AT_REMOVEDIR)), 0);
    assert_eq!(fs.lookup(&path("/a")).unwrap().nlink, 2);
    assert_eq!(fs.lookup(&path("/a/f")).unwrap().nlink, 1);
}

#[test]
fn new_inodes_carry_owner_and_mode() {
    let mut fs = FileSystem::new_root(7, 9);
    let root = fs.lookup(&path("/")).unwrap();
    assert_eq!(root.mode, FileMode(0o777));
    assert_eq!((root.uid, root.gid), (7, 9));
    assert_eq!(fs.mkdirat(FDCWD, "d", FileMode(0o750)), 0);
    let d = fs.lookup(&path("/d")).unwrap();
    assert_eq!(d.mode, FileMode(0o750));
    assert_eq!((d.uid, d.gid), (7, 9));
    assert!(d.is_dir());
    assert_eq!(fs.lookup(&path("/x")), Err(FsError::NotFound));
}

#[test]
fn relative_paths_resolve_against_a_directory_descriptor() {
    let mut fs = fresh();
    assert_eq!(fs.mkdirat(FDCWD, "a", FileMode(0o755)), 0);
    assert_eq!(fs.openat(FDCWD, "a", OpenFlags(0), FileMode(0)), 3);
    assert_eq!(fs.mkdirat(3, "b", FileMode(0o755)), 0);
    assert_eq!(fs.chdirat(3, "b"), 0);
    assert_eq!(fs.cwd().display_string(), "/a/b");
    assert_eq!(fs.openat(FDCWD, "../c", OpenFlags(O_CREAT), FileMode(0o644)), 4);
    assert!(fs.path_exists(&path("/a/c")));
    assert_eq!(fs.parse_path(FDCWD, "./x/./y").unwrap().display_string(), "/a/b/x/y");
}
