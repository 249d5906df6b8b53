use model_fs::fs::{FileSystem, FDCWD};
use model_fs::inode::{FileMode, OpenFlags, UnlinkatFlags, AT_REMOVEDIR, O_CREAT};
use model_fs::path::AbsPath;

fn fresh() -> FileSystem {
    let mut fs = FileSystem::new_root(0, 0);
    fs.open_stdio();
    fs
}

#[test]
fn mkdir_then_rmdir_restores_inodes_and_cwd() {
    let mut fs = fresh();
    assert_eq!(fs.mkdirat(FDCWD, "a", FileMode(0o755)), 0);
    assert_eq!(fs.chdirat(FDCWD, "/a"), 0);
    let mut before = fresh();
    assert_eq!(before.mkdirat(FDCWD, "a", FileMode(0o755)), 0);
    assert_eq!(before.chdirat(FDCWD, "/a"), 0);
    assert_eq!(fs.mkdirat(FDCWD, "b", FileMode(0o700)), 0);
    assert!(!fs.matches(&before));
    assert_eq!(fs.unlinkat(FDCWD, "b", UnlinkatFlags(AT_REMOVEDIR)), 0);
    assert!(fs.matches(&before));
    assert_eq!(fs.lookup(&AbsPath::new("/a").unwrap()).unwrap().nlink, 2);
}

#[test]
fn open_then_close_is_fd_neutral() {
    let mut fs = fresh();
    assert_eq!(fs.openat(FDCWD, "f", OpenFlags(O_CREAT), FileMode(0o644)), 3);
    assert_eq!(fs.close(1), 0);
    let fds_before = fs.all_fds();
    let tmps_before = fs.tmp_count();
    let fd = fs.openat(FDCWD, "f", OpenFlags(0), FileMode(0));
    assert_eq!(fd, 1);
    assert_eq!(fs.close(fd), 0);
    assert_eq!(fs.all_fds(), fds_before);
    assert_eq!(fs.tmp_count(), tmps_before);
}

#[test]
fn link_then_unlink_preserves_inodes() {
    let mut fs = fresh();
    assert_eq!(fs.mkdirat(FDCWD, "d", FileMode(0o755)), 0);
    assert_eq!(fs.openat(FDCWD, "f", OpenFlags(O_CREAT), FileMode(0o644)), 3);
    let mut before = fresh();
    assert_eq!(before.mkdirat(FDCWD, "d", FileMode(0o755)), 0);
    assert_eq!(before.openat(FDCWD, "f", OpenFlags(O_CREAT), FileMode(0o644)), 3);
    assert_eq!(fs.linkat(FDCWD, "f", FDCWD, "/d/g"), 0);
    assert!(!fs.matches(&before));
    assert_eq!(fs.unlinkat(FDCWD, "/d/g", UnlinkatFlags(0)), 0);
    assert!(fs.matches(&before));
}

#[test]
fn normalization_is_idempotent() {
    for s in ["/a/./b/../c/", "x/y/..", "/..", "a/b/c", "/", "", "./../q/r/./s/.."] {
        let once = AbsPath::new(s).unwrap();
        let twice = AbsPath::new(&once.display_string()).unwrap();
        assert!(once == twice);
        assert_eq!(once.display_string(), twice.display_string());
    }
}

#[test]
fn invariants_hold_along_a_run() {
    let mut fs = fresh();
    assert_eq!(fs.mkdirat(FDCWD, "a", FileMode(0o755)), 0);
    assert_eq!(fs.mkdirat(FDCWD, "/a/b", FileMode(0o755)), 0);
    assert_eq!(fs.openat(FDCWD, "/a/f", OpenFlags(O_CREAT), FileMode(0o644)), 3);
    assert_eq!(fs.linkat(FDCWD, "/a/f", FDCWD, "/a/b/g"), 0);
    assert_eq!(fs.linkat(FDCWD, "/a/f", FDCWD, "h"), 0);
    // A file counts its paths.
    assert_eq!(fs.lookup(&AbsPath::new("/h").unwrap()).unwrap().nlink, 3);
    // A directory counts itself, its entry and each subdirectory.
    assert_eq!(fs.lookup(&AbsPath::new("/a").unwrap()).unwrap().nlink, 3);
    assert_eq!(fs.lookup(&AbsPath::new("/").unwrap()).unwrap().nlink, 3);
    // Every path is listed once.
    let paths = fs.paths();
    assert_eq!(paths.len(), 6);
    for i in 0..paths.len() {
        for j in 0..paths.len() {
            if i != j {
                assert!(!(paths[i] == paths[j]));
            }
        }
    }
    // Descriptors follow the surviving alias.
    assert_eq!(fs.unlinkat(FDCWD, "/a/f", UnlinkatFlags(0)), 0);
    assert_eq!(fs.lookup(&AbsPath::new("/h").unwrap()).unwrap().nlink, 2);
    match fs.get_fd(3).unwrap().fref() {
        model_fs::fs::FdRefType::Existing(p) => assert!(fs.path_exists(p)),
        model_fs::fs::FdRefType::Temporary(_) => panic!("fd 3 should follow an alias"),
    }
    // The current directory exists and is a directory.
    assert_eq!(fs.chdirat(FDCWD, "/a/b"), 0);
    assert!(fs.is_dir(&fs.cwd()));
}
