use model_fs::error::FsError;
use model_fs::path::{AbsPath, RelPath};

#[test]
fn normalize_examples() {
    assert_eq!(AbsPath::new("/a/b/").unwrap().to_string(), "a/b");
    assert_eq!(AbsPath::new("a/./b").unwrap().display_string(), "/a/b");
    assert_eq!(AbsPath::new("/a/../../b").unwrap().display_string(), "/b");
    assert_eq!(AbsPath::new("/").unwrap().display_string(), "/");
    assert_eq!(AbsPath::new("").unwrap().display_string(), "/");
    assert!(AbsPath::new("/").unwrap().is_root());
    assert_eq!(AbsPath::new("/a//b").err(), Some(FsError::InvalidPath));
    assert_eq!(AbsPath::new("//").unwrap().display_string(), "/");
}

#[test]
fn root_parent_and_ancestors() {
    let root = AbsPath::root();
    assert!(root.is_root());
    assert!(root.parent().is_none());
    let ab = AbsPath::new("/a/b").unwrap();
    let a = ab.parent().unwrap();
    assert_eq!(a.display_string(), "/a");
    assert!(a.parent().unwrap() == root);
    assert!(a.is_ancestor(&ab));
    assert!(root.is_ancestor(&ab));
    assert!(!ab.is_ancestor(&ab));
    assert!(!ab.is_ancestor(&a));
    assert!(!AbsPath::new("/ab").unwrap().is_ancestor(&AbsPath::new("/abc").unwrap()));
}

#[test]
fn join_relative_paths() {
    let base = AbsPath::new("/x/y").unwrap();
    let j = base.join(&RelPath::new("z/../w".to_string())).unwrap();
    assert_eq!(j.display_string(), "/x/y/w");
    let up = base.join(&RelPath::parent()).unwrap();
    assert_eq!(up.display_string(), "/x");
    let same = base.join(&RelPath::cur()).unwrap();
    assert!(same == base);
    assert_eq!(base.join(&RelPath::new("a//b".to_string())).err(), Some(FsError::InvalidPath));
    assert_eq!(AbsPath::root().join(&RelPath::new("../..".to_string())).unwrap().display_string(), "/");
    assert_eq!(RelPath::parent().to_string(), "..");
    assert_eq!(RelPath::cur().to_string(), ".");
}

#[test]
fn path_strings_are_built_from_names() {
    let p = AbsPath::new("/dir/file").unwrap();
    assert_eq!(p.to_string(), "dir/file");
    assert_eq!(p.display_string(), "/dir/file");
    let q = p.clone();
    assert!(q == p);
}
