use model_fs::error::FsError;
use model_fs::fs::{FileSystem, FDCWD};
use model_fs::inode::{FileMode, OpenFlags, UnlinkatFlags, AT_REMOVEDIR, O_CREAT};

fn fresh() -> FileSystem {
    let mut fs = FileSystem::new_root(0, 0);
    fs.open_stdio();
    fs
}

#[test]
fn errno_encoding() {
    assert_eq!(FsError::NotFound.into_retv(), -2);
    assert_eq!(FsError::PermissionDenied.into_retv(), -13);
    assert_eq!(FsError::AlreadyExists.into_retv(), -17);
    assert_eq!(FsError::IsDirectory.into_retv(), -21);
    assert_eq!(FsError::NotDirectory.into_retv(), -20);
    assert_eq!(FsError::BadFd.into_retv(), -9);
    assert_eq!(FsError::NotOpened.into_retv(), -9);
    assert_eq!(FsError::NoAvailableFd.into_retv(), -24);
    assert_eq!(FsError::InvalidPath.into_retv(), -22);
    assert_eq!(FsError::DirectoryNotEmpty.into_retv(), -39);
    assert_eq!(FsError::TooManyLinks.into_retv(), -31);
}

#[test]
fn open_missing_without_creat_is_enoent() {
    let mut fs = fresh();
    assert_eq!(fs.openat(FDCWD, "nope", OpenFlags(0), FileMode(0)), -2);
    assert_eq!(fs.openat(FDCWD, "/x/y", OpenFlags(O_CREAT), FileMode(0o644)), -2);
}

#[test]
fn create_twice_is_eexist() {
    let mut fs = fresh();
    assert_eq!(fs.mkdirat(FDCWD, "a", FileMode(0o755)), 0);
    assert_eq!(fs.mkdirat(FDCWD, "a", FileMode(0o755)), -17);
    assert_eq!(fs.mkdirat(FDCWD, "/", FileMode(0o755)), -17);
    assert_eq!(fs.openat(FDCWD, "f", OpenFlags(O_CREAT), FileMode(0o644)), 3);
    assert_eq!(fs.linkat(FDCWD, "f", FDCWD, "a"), -17);
}

#[test]
fn directories_cannot_be_linked_or_unlinked_as_files() {
    let mut fs = fresh();
    assert_eq!(fs.mkdirat(FDCWD, "a", FileMode(0o755)), 0);
    assert_eq!(fs.linkat(FDCWD, "a", FDCWD, "b"), -21);
    assert_eq!(fs.unlinkat(FDCWD, "a", UnlinkatFlags(0)), -21);
}

#[test]
fn file_where_a_directory_is_needed_is_enotdir() {
    let mut fs = fresh();
    assert_eq!(fs.openat(FDCWD, "f", OpenFlags(O_CREAT), FileMode(0o644)), 3);
    assert_eq!(fs.unlinkat(FDCWD, "f", UnlinkatFlags(AT_REMOVEDIR)), -20);
    assert_eq!(fs.openat(3, "x", OpenFlags(O_CREAT), FileMode(0o644)), -20);
    assert_eq!(fs.mkdirat(FDCWD, "f/x", FileMode(0o755)), -20);
    assert_eq!(fs.chdirat(FDCWD, "/f"), -20);
    assert_eq!(fs.parse_path(3, "x").err(), Some(FsError::NotDirectory));
}

#[test]
fn bad_descriptors_are_ebadf() {
    let mut fs = fresh();
    assert_eq!(fs.close(300), -9);
    assert_eq!(fs.close(-1), -9);
    assert_eq!(fs.close(10), -9);
    assert_eq!(fs.dup(10), -9);
    assert_eq!(fs.get_fd(300).err(), Some(FsError::BadFd));
    assert_eq!(fs.get_fd(10).err(), Some(FsError::NotOpened));
    assert_eq!(fs.openat(10, "x", OpenFlags(O_CREAT), FileMode(0o644)), -9);
}

#[test]
fn removing_root_or_bad_paths_is_einval() {
    let mut fs = fresh();
    assert_eq!(fs.unlinkat(FDCWD, "/", UnlinkatFlags(AT_REMOVEDIR)), -22);
    assert_eq!(fs.mkdirat(FDCWD, "a//b", FileMode(0o755)), -22);
    assert_eq!(fs.openat(FDCWD, "", OpenFlags(O_CREAT), FileMode(0o644)), -22);
}

#[test]
fn relative_to_a_stdio_descriptor_is_enoent() {
    let mut fs = fresh();
    assert_eq!(fs.openat(0, "x", OpenFlags(O_CREAT), FileMode(0o644)), -2);
}

#[test]
fn missing_paths_are_enoent() {
    let mut fs = fresh();
    assert_eq!(fs.unlinkat(FDCWD, "x", UnlinkatFlags(0)), -2);
    assert_eq!(fs.linkat(FDCWD, "x", FDCWD, "y"), -2);
    assert_eq!(fs.chdirat(FDCWD, "/x"), -2);
}
