use model_fs::inode::{FileKind, FileMode, Inode};
use model_fs::multikey::MultiKeyMap;
use model_fs::path::AbsPath;

fn p(s: &str) -> AbsPath {
    AbsPath::new(s).unwrap()
}

fn file(nlink: usize) -> Inode {
    Inode { mode: FileMode(0o644), uid: 0, gid: 0, nlink, kind: FileKind::File }
}

#[test]
fn aliases_share_one_value() {
    let mut m: MultiKeyMap<Inode> = MultiKeyMap::new();
    m.insert(p("/a"), file(1));
    m.insert(p("/b"), file(5));
    assert!(m.insert_alias(&p("/a"), p("/c")));
    assert!(!m.insert_alias(&p("/zz"), p("/d")));
    assert_eq!(m.len(), 2);
    assert!(m.are_aliases(&p("/a"), &p("/c")));
    assert!(!m.are_aliases(&p("/a"), &p("/b")));
    assert_eq!(m.get(&p("/c")), Some(&file(1)));
    assert!(m.set(&p("/c"), file(2)));
    assert_eq!(m.get(&p("/a")), Some(&file(2)));
    let al = m.aliases(&p("/c")).unwrap();
    assert_eq!(al.len(), 2);
    assert!(al[0] == p("/a") && al[1] == p("/c"));
    assert_eq!(m.keys().len(), 3);
    assert!(m.contains_key(&p("/b")));
    assert!(!m.contains_key(&p("/d")));
}

#[test]
fn removing_aliases_and_values() {
    let mut m: MultiKeyMap<Inode> = MultiKeyMap::new();
    m.insert(p("/a"), file(1));
    assert!(m.insert_alias(&p("/a"), p("/b")));
    assert_eq!(m.remove_alias(&p("/a")), Some(1));
    assert!(!m.contains_key(&p("/a")));
    assert_eq!(m.get(&p("/b")), Some(&file(1)));
    assert_eq!(m.remove_alias(&p("/b")), Some(0));
    assert_eq!(m.len(), 0);
    assert_eq!(m.remove_alias(&p("/b")), None);
    m.insert(p("/x"), file(3));
    assert!(m.insert_alias(&p("/x"), p("/y")));
    assert_eq!(m.remove(&p("/y")), Some(file(3)));
    assert!(!m.contains_key(&p("/x")));
    assert_eq!(m.remove(&p("/y")), None);
    m.insert(p("/q"), file(1));
    m.clear();
    assert_eq!(m.len(), 0);
}

#[test]
fn equality_as_multi_key_maps() {
    let mut a: MultiKeyMap<Inode> = MultiKeyMap::new();
    a.insert(p("/a"), file(2));
    assert!(a.insert_alias(&p("/a"), p("/b")));
    a.insert(p("/c"), file(1));
    let mut b: MultiKeyMap<Inode> = MultiKeyMap::new();
    b.insert(p("/c"), file(1));
    b.insert(p("/b"), file(2));
    assert!(b.insert_alias(&p("/b"), p("/a")));
    assert!(a.refines(&b) && b.refines(&a));
    let mut c: MultiKeyMap<Inode> = MultiKeyMap::new();
    c.insert(p("/a"), file(2));
    c.insert(p("/b"), file(2));
    c.insert(p("/c"), file(1));
    assert!(c.refines(&a));
    assert!(!a.refines(&c));
    let d = a.duplicate();
    assert!(d.refines(&a) && a.refines(&d));
}
