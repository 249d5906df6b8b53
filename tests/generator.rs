use model_fs::checker::{retv_agree, state_agree, CheckLevel};
use model_fs::command::Command;
use model_fs::commander::{Draws, FsCommander};
use model_fs::fs::{FileSystem, FDCWD};
use model_fs::inode::{FileMode, OpenFlags, UnlinkatFlags, O_CREAT};

fn draws(kind: usize) -> Draws {
    Draws {
        kind,
        fd_switch: 50,
        fd_pick: 0,
        fd_switch2: 5,
        fd_pick2: 0,
        name: 2,
        name2: 9,
        path: 1,
        open_flags: 0xffff_ffff,
        mode: 0,
        unlink_flags: 0xffff_ffff,
    }
}

#[test]
fn commands_use_fdcwd_when_no_descriptor_is_open() {
    let mut fs = FileSystem::new_root(0, 0);
    fs.open_stdio();
    match FsCommander::new().command(&fs, &draws(0)) {
        Command::Openat { dirfd, path, flags, mode } => {
            assert_eq!(dirfd, FDCWD);
            assert_eq!(path, "aaa");
            assert_eq!(flags, OpenFlags(0o3 | 0o100 | 0o200 | 0o1000 | 0o2000));
            assert_eq!(mode, FileMode(0o400));
        }
        other => panic!("unexpected {:?}", other),
    }
    assert!(matches!(FsCommander::new().command(&fs, &draws(5)), Command::Close { fd: FDCWD }));
}

#[test]
fn commands_pick_open_descriptors_and_names() {
    let mut fs = FileSystem::new_root(0, 0);
    fs.open_stdio();
    assert_eq!(fs.mkdirat(FDCWD, "d", FileMode(0o755)), 0);
    assert_eq!(fs.openat(FDCWD, "d", OpenFlags(0), FileMode(0)), 3);
    assert_eq!(fs.openat(FDCWD, "f", OpenFlags(O_CREAT), FileMode(0o644)), 4);
    match FsCommander::new().command(&fs, &draws(2)) {
        Command::Linkat { olddirfd, oldpath, newdirfd, newpath } => {
            assert_eq!(olddirfd, 3);
            assert_eq!(oldpath, "aaa");
            assert_eq!(newdirfd, FDCWD);
            assert_eq!(newpath, "aaa");
        }
        other => panic!("unexpected {:?}", other),
    }
    match FsCommander::new().command(&fs, &draws(10)) {
        Command::Unlinkat { dirfd, path, flags } => {
            assert_eq!(dirfd, 3);
            assert_eq!(path, "aaa");
            assert_eq!(flags, UnlinkatFlags(0x200));
        }
        other => panic!("unexpected {:?}", other),
    }
    let mut d = draws(4);
    d.fd_pick = 1;
    assert!(matches!(FsCommander::new().command(&fs, &d), Command::Dup { oldfd: 4 }));
    match FsCommander::new().command(&fs, &draws(6)) {
        Command::Chdir { path } => assert!(path == "/d" || path == "/f" || path == "/"),
        other => panic!("unexpected {:?}", other),
    }
    match FsCommander::new().command(&fs, &draws(1)) {
        Command::Mkdirat { dirfd, path, mode } => {
            assert_eq!(dirfd, 3);
            assert_eq!(path, "aaa");
            assert_eq!(mode, FileMode(0o400));
        }
        other => panic!("unexpected {:?}", other),
    }
}

#[test]
fn generated_commands_apply_to_the_model() {
    let mut fs = FileSystem::new_root(0, 0);
    fs.open_stdio();
    let mut d = draws(1);
    d.mode = 0o755;
    let c = FsCommander::new().command(&fs, &d);
    assert_eq!(c.apply(&mut fs), 0);
    assert!(fs.path_exists(&model_fs::path::AbsPath::new("/aaa").unwrap()));
    assert_eq!(c.apply(&mut fs), -17);
    assert_eq!(Command::Getcwd.apply(&mut fs), 0);
}

#[test]
fn return_value_comparison_levels() {
    assert!(retv_agree(CheckLevel::Strict, 3, 3));
    assert!(!retv_agree(CheckLevel::Strict, 3, 4));
    assert!(retv_agree(CheckLevel::Relaxed, 3, 4));
    assert!(retv_agree(CheckLevel::Relaxed, -2, -9));
    assert!(!retv_agree(CheckLevel::Relaxed, 0, -9));
    assert!(retv_agree(CheckLevel::Off, 0, -9));
    let a = FileSystem::new_root(0, 0);
    let mut b = FileSystem::new_root(0, 0);
    assert!(state_agree(CheckLevel::Strict, &a, &b));
    assert_eq!(b.mkdirat(FDCWD, "x", FileMode(0o755)), 0);
    assert!(!state_agree(CheckLevel::Strict, &a, &b));
    assert!(state_agree(CheckLevel::Off, &a, &b));
}

#[test]
fn linkat_can_be_left_out_of_the_mix() {
    let mut fs = FileSystem::new_root(0, 0);
    fs.open_stdio();
    let g = FsCommander::without_link();
    assert!(matches!(g.command(&fs, &draws(0)), Command::Openat { .. }));
    assert!(matches!(g.command(&fs, &draws(1)), Command::Mkdirat { .. }));
    assert!(matches!(g.command(&fs, &draws(2)), Command::Unlinkat { .. }));
    assert!(matches!(g.command(&fs, &draws(3)), Command::Dup { .. }));
    assert!(matches!(g.command(&fs, &draws(4)), Command::Close { .. }));
    assert!(matches!(g.command(&fs, &draws(5)), Command::Chdir { .. }));
    assert!(matches!(g.command(&fs, &draws(6)), Command::Openat { .. }));
    for k in 0..60 {
        assert!(!matches!(g.command(&fs, &draws(k)), Command::Linkat { .. }));
    }
}
