use model_fs::command::Command;
use model_fs::fs::{FileSystem, FDCWD};
use model_fs::inode::{FileKind, FileMode, FileStat, OpenFlags, O_CREAT};
use model_fs::port::{DirEntry, FsTestPort, PortError, Reply};

fn retv(r: isize) -> Reply {
    Reply { retv: r, stat: None, dent: None, cwd: None }
}

fn stat(ino: usize, mode: u32, nlink: usize, kind: FileKind) -> Reply {
    Reply {
        retv: 0,
        stat: Some(FileStat { ino, mode: FileMode(mode), nlink, uid: 0, gid: 0, kind }),
        dent: None,
        cwd: None,
    }
}

fn dent(name: &str) -> Reply {
    Reply {
        retv: 1,
        stat: None,
        dent: Some(DirEntry { ino: 0, kind: FileKind::File, name: name.to_string() }),
        cwd: None,
    }
}

fn step(port: &mut FsTestPort, r: Reply) -> Command {
    port.retrieve_state_data(&r).unwrap().unwrap()
}

#[test]
fn walk_rebuilds_the_kernel_state() {
    let mut port = FsTestPort::new();
    let first = port.start_state_retrieval();
    assert!(matches!(first, Command::Openat { dirfd: -1, ref path, .. } if path == "/"));
    assert!(matches!(step(&mut port, retv(3)), Command::Fstat { fd: 3 }));
    assert!(matches!(
        step(&mut port, stat(1, 0o777, 3, FileKind::Directory)),
        Command::Getdents { fd: 3, count: 1 }
    ));
    assert!(matches!(step(&mut port, dent(".")), Command::Getdents { fd: 3, count: 1 }));
    assert!(matches!(step(&mut port, dent("..")), Command::Getdents { fd: 3, count: 1 }));
    assert!(matches!(step(&mut port, dent("f")), Command::Openat { dirfd: 3, ref path, .. } if path == "f"));
    assert!(matches!(step(&mut port, retv(4)), Command::Fstat { fd: 4 }));
    assert!(matches!(step(&mut port, stat(2, 0o644, 2, FileKind::File)), Command::Close { fd: 4 }));
    assert!(matches!(step(&mut port, retv(0)), Command::Getdents { fd: 3, count: 1 }));
    assert!(matches!(step(&mut port, dent("g")), Command::Openat { dirfd: 3, ref path, .. } if path == "g"));
    assert!(matches!(step(&mut port, retv(4)), Command::Fstat { fd: 4 }));
    assert!(matches!(step(&mut port, stat(2, 0o644, 2, FileKind::File)), Command::Close { fd: 4 }));
    assert!(matches!(step(&mut port, retv(0)), Command::Getdents { fd: 3, count: 1 }));
    assert!(matches!(step(&mut port, dent("d")), Command::Openat { dirfd: 3, ref path, .. } if path == "d"));
    assert!(matches!(step(&mut port, retv(4)), Command::Fstat { fd: 4 }));
    assert!(matches!(
        step(&mut port, stat(3, 0o755, 2, FileKind::Directory)),
        Command::Getdents { fd: 4, count: 1 }
    ));
    assert!(matches!(step(&mut port, dent(".")), Command::Getdents { fd: 4, count: 1 }));
    assert!(matches!(step(&mut port, retv(0)), Command::Close { fd: 4 }));
    assert!(matches!(step(&mut port, retv(0)), Command::Getdents { fd: 3, count: 1 }));
    assert!(matches!(step(&mut port, retv(0)), Command::Close { fd: 3 }));
    assert!(matches!(step(&mut port, retv(0)), Command::Getcwd));
    let done = port.retrieve_state_data(&Reply { retv: 0, stat: None, dent: None, cwd: Some("/d".to_string()) });
    assert!(matches!(done, Ok(None)));
    let rebuilt = port.finish_state_retrieval();

    let mut model = FileSystem::new_root(0, 0);
    assert_eq!(model.mkdirat(FDCWD, "d", FileMode(0o755)), 0);
    assert_eq!(model.openat(FDCWD, "f", OpenFlags(O_CREAT), FileMode(0o644)), 0);
    assert_eq!(model.linkat(FDCWD, "f", FDCWD, "g"), 0);
    assert_eq!(model.close(0), 0);
    assert!(!model.matches(&rebuilt));
    assert_eq!(model.chdirat(FDCWD, "/d"), 0);
    assert!(model.matches(&rebuilt));
    assert!(rebuilt.matches(&model));
}

#[test]
fn failed_replies_stop_the_walk() {
    let mut port = FsTestPort::new();
    assert_eq!(port.retrieve_state_data(&retv(0)).err(), Some(PortError::Io));
    port.start_state_retrieval();
    assert_eq!(port.retrieve_state_data(&retv(-2)).err(), Some(PortError::Io));
    assert!(matches!(step(&mut port, retv(3)), Command::Fstat { fd: 3 }));
    assert_eq!(port.retrieve_state_data(&retv(0)).err(), Some(PortError::Io));
}
