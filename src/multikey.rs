//! A map in which several keys (aliases) may share one value: the model of
//! hard links, one inode under several paths.
use crate::inode::Inode;
use crate::path::AbsPath;
use vstd::prelude::*;

verus! {

/// The view of a path.
pub type PathV = Seq<Seq<char>>;

/// The view of an alias class: its keys, in insertion order, and its value.
pub type ClassV<V> = (Seq<PathV>, V);

/// `p` is a key of some class.
pub open spec fn mk_has<V>(cl: Seq<ClassV<V>>, p: PathV) -> bool {
    exists|c: int| 0 <= c < cl.len() && (#[trigger] cl[c]).0.contains(p)
}

/// Every class has a key, and no key stands twice, neither in one class
/// nor in two.
pub open spec fn mk_wf<V>(cl: Seq<ClassV<V>>) -> bool {
    &&& forall|c: int| 0 <= c < cl.len() ==> (#[trigger] cl[c]).0.len() > 0
    &&& forall|c1: int, j1: int, c2: int, j2: int|
        0 <= c1 < cl.len() && 0 <= c2 < cl.len() && 0 <= j1 < cl[c1].0.len() && 0 <= j2
            < cl[c2].0.len() && (#[trigger] cl[c1].0[j1]) == (#[trigger] cl[c2].0[j2]) ==> c1
            == c2 && j1 == j2
}

/// The class that holds key `p`.
pub open spec fn class_of<V>(cl: Seq<ClassV<V>>, p: PathV) -> int {
    choose|c: int| 0 <= c < cl.len() && (#[trigger] cl[c]).0.contains(p)
}

/// The position of key `p` within its class.
pub open spec fn pos_of<V>(cl: Seq<ClassV<V>>, p: PathV) -> int {
    cl[class_of(cl, p)].0.index_of(p)
}

/// The value at key `p`.
pub open spec fn mk_get<V>(cl: Seq<ClassV<V>>, p: PathV) -> V {
    cl[class_of(cl, p)].1
}

/// `a` and `b` are keys of one class.
pub open spec fn mk_alias<V>(cl: Seq<ClassV<V>>, a: PathV, b: PathV) -> bool {
    mk_has(cl, a) && mk_has(cl, b) && class_of(cl, a) == class_of(cl, b)
}

/// All keys, class by class, each class in insertion order.
pub open spec fn mk_keys<V>(cl: Seq<ClassV<V>>) -> Seq<PathV>
    decreases cl.len(),
{
    if cl.len() == 0 {
        Seq::empty()
    } else {
        mk_keys(cl.drop_last()) + cl.last().0
    }
}

/// Every key of `a` is a key of `b` with the same value, and keys that
/// share a value in `a` share one in `b`.
pub open spec fn mk_refines<V>(a: Seq<ClassV<V>>, b: Seq<ClassV<V>>) -> bool {
    forall|p: PathV|
        #[trigger] mk_has(a, p) ==> mk_has(b, p) && mk_get(b, p) == mk_get(a, p) && forall|
            q: PathV,
        | #[trigger] mk_alias(a, p, q) ==> mk_alias(b, p, q)
}

/// `a` and `b` are equal as multi-key maps: the same keys, the same value
/// at each, and the same alias classes.
pub open spec fn mk_same<V>(a: Seq<ClassV<V>>, b: Seq<ClassV<V>>) -> bool {
    mk_refines(a, b) && mk_refines(b, a)
}

/// With no key twice, the class and the position of a key are where it stands.
pub proof fn lemma_class_of<V>(cl: Seq<ClassV<V>>, c: int, j: int)
    requires
        mk_wf(cl),
        0 <= c < cl.len(),
        0 <= j < cl[c].0.len(),
    ensures
        mk_has(cl, cl[c].0[j]),
        class_of(cl, cl[c].0[j]) == c,
        pos_of(cl, cl[c].0[j]) == j,
{
    let p = cl[c].0[j];
    assert(cl[c].0.contains(p));
    let c2 = class_of(cl, p);
    let j2 = cl[c2].0.index_of(p);
    assert(cl[c2].0[j2] == p);
    assert(cl[c].0.index_of(p) == j) by {
        let k = cl[c].0.index_of(p);
        assert(cl[c].0[k] == p);
    }
}

/// A fresh key in a class of its own keeps the map well formed, and every
/// old key where it was.
pub proof fn lemma_push_class<V>(cl: Seq<ClassV<V>>, p: PathV, v: V)
    requires
        mk_wf(cl),
        !mk_has(cl, p),
    ensures
        mk_wf(cl.push((seq![p], v))),
        forall|q: PathV| mk_has(cl.push((seq![p], v)), q) <==> (mk_has(cl, q) || q == p),
        forall|q: PathV|
            mk_has(cl, q) ==> class_of(cl.push((seq![p], v)), q) == class_of(cl, q),
        class_of(cl.push((seq![p], v)), p) == cl.len(),
        pos_of(cl.push((seq![p], v)), p) == 0,
{
    let n = cl.push((seq![p], v));
    assert forall|q: PathV| mk_has(n, q) <==> (mk_has(cl, q) || q == p) by {
        if mk_has(n, q) {
            let c = choose|c: int| 0 <= c < n.len() && (#[trigger] n[c]).0.contains(q);
            if c < cl.len() {
                assert(cl[c] == n[c]);
            } else {
                let j = choose|j: int| 0 <= j < n[c].0.len() && n[c].0[j] == q;
                assert(n[c].0[j] == p);
            }
        }
        if mk_has(cl, q) {
            let c = choose|c: int| 0 <= c < cl.len() && (#[trigger] cl[c]).0.contains(q);
            assert(n[c] == cl[c]);
        }
        if q == p {
            assert(n[cl.len() as int].0[0] == p);
            assert(n[cl.len() as int].0.contains(p));
        }
    }
    assert forall|c1: int, j1: int, c2: int, j2: int|
        0 <= c1 < n.len() && 0 <= c2 < n.len() && 0 <= j1 < n[c1].0.len() && 0 <= j2
            < n[c2].0.len() && (#[trigger] n[c1].0[j1]) == (#[trigger] n[c2].0[j2]) implies c1
        == c2 && j1 == j2 by {
        if c1 == cl.len() && c2 < cl.len() {
            assert(cl[c2].0.contains(n[c2].0[j2]));
        }
        if c2 == cl.len() && c1 < cl.len() {
            assert(cl[c1].0.contains(n[c1].0[j1]));
        }
    }
    assert forall|c: int| 0 <= c < n.len() implies (#[trigger] n[c]).0.len() > 0 by {
        if c < cl.len() {
            assert(n[c] == cl[c]);
        }
    }
    assert forall|q: PathV| mk_has(cl, q) implies class_of(n, q) == class_of(cl, q) by {
        let c = class_of(cl, q);
        let j = cl[c].0.index_of(q);
        assert(n[c] == cl[c]);
        lemma_class_of(n, c, j);
    }
    assert(n[cl.len() as int].0[0] == p);
    lemma_class_of(n, cl.len() as int, 0);
}

/// Replacing the value of a class keeps the map well formed and every key
/// where it was.
pub proof fn lemma_set_value<V>(cl: Seq<ClassV<V>>, c: int, v: V)
    requires
        mk_wf(cl),
        0 <= c < cl.len(),
    ensures
        mk_wf(cl.update(c, (cl[c].0, v))),
        forall|q: PathV| #[trigger] mk_has(cl.update(c, (cl[c].0, v)), q) <==> mk_has(cl, q),
        forall|q: PathV|
            mk_has(cl, q) ==> class_of(cl.update(c, (cl[c].0, v)), q) == class_of(cl, q)
                && pos_of(cl.update(c, (cl[c].0, v)), q) == pos_of(cl, q),
{
    let n = cl.update(c, (cl[c].0, v));
    assert forall|i: int| 0 <= i < n.len() implies (#[trigger] n[i]).0 == cl[i].0 by {}
    assert forall|q: PathV| #[trigger] mk_has(n, q) <==> mk_has(cl, q) by {
        if mk_has(n, q) {
            let i = choose|i: int| 0 <= i < n.len() && (#[trigger] n[i]).0.contains(q);
            assert(cl[i].0.contains(q));
        }
        if mk_has(cl, q) {
            let i = choose|i: int| 0 <= i < cl.len() && (#[trigger] cl[i]).0.contains(q);
            assert(n[i].0.contains(q));
        }
    }
    assert forall|q: PathV| mk_has(cl, q) implies class_of(n, q) == class_of(cl, q) && pos_of(
        n,
        q,
    ) == pos_of(cl, q) by {
        let i = class_of(cl, q);
        let j = cl[i].0.index_of(q);
        lemma_class_of(cl, i, j);
        lemma_class_of(n, i, j);
    }
}

/// A fresh key added to a class keeps the map well formed, and every old
/// key where it was.
pub proof fn lemma_add_alias<V>(cl: Seq<ClassV<V>>, c: int, b: PathV, v: V)
    requires
        mk_wf(cl),
        0 <= c < cl.len(),
        !mk_has(cl, b),
    ensures
        mk_wf(cl.update(c, (cl[c].0.push(b), v))),
        forall|q: PathV|
            #[trigger] mk_has(cl.update(c, (cl[c].0.push(b), v)), q) <==> (mk_has(cl, q) || q
                == b),
        forall|q: PathV|
            mk_has(cl, q) ==> class_of(cl.update(c, (cl[c].0.push(b), v)), q) == class_of(
                cl,
                q,
            ) && pos_of(cl.update(c, (cl[c].0.push(b), v)), q) == pos_of(cl, q),
        class_of(cl.update(c, (cl[c].0.push(b), v)), b) == c,
        pos_of(cl.update(c, (cl[c].0.push(b), v)), b) == cl[c].0.len(),
{
    let ks = cl[c].0.push(b);
    let n = cl.update(c, (ks, v));
    assert forall|i: int, j: int|
        0 <= i < cl.len() && 0 <= j < cl[i].0.len() implies #[trigger] n[i].0[j] == cl[i].0[j] by {}
    assert forall|q: PathV| #[trigger] mk_has(n, q) <==> (mk_has(cl, q) || q == b) by {
        if mk_has(n, q) {
            let i = choose|i: int| 0 <= i < n.len() && (#[trigger] n[i]).0.contains(q);
            let j = choose|j: int| 0 <= j < n[i].0.len() && n[i].0[j] == q;
            if q != b {
                assert(cl[i].0[j] == q);
                assert(cl[i].0.contains(q));
            }
        }
        if mk_has(cl, q) {
            let i = choose|i: int| 0 <= i < cl.len() && (#[trigger] cl[i]).0.contains(q);
            let j = choose|j: int| 0 <= j < cl[i].0.len() && cl[i].0[j] == q;
            assert(n[i].0[j] == q);
            assert(n[i].0.contains(q));
        }
        if q == b {
            assert(n[c].0[cl[c].0.len() as int] == b);
            assert(n[c].0.contains(b));
        }
    }
    assert forall|c1: int, j1: int, c2: int, j2: int|
        0 <= c1 < n.len() && 0 <= c2 < n.len() && 0 <= j1 < n[c1].0.len() && 0 <= j2
            < n[c2].0.len() && (#[trigger] n[c1].0[j1]) == (#[trigger] n[c2].0[j2]) implies c1
        == c2 && j1 == j2 by {
        let new1 = c1 == c && j1 == cl[c].0.len();
        let new2 = c2 == c && j2 == cl[c].0.len();
        if new1 && !new2 {
            assert(n[c2].0[j2] == cl[c2].0[j2]);
            assert(cl[c2].0.contains(b));
        } else if new2 && !new1 {
            assert(n[c1].0[j1] == cl[c1].0[j1]);
            assert(cl[c1].0.contains(b));
        } else if !new1 && !new2 {
            assert(n[c1].0[j1] == cl[c1].0[j1]);
            assert(n[c2].0[j2] == cl[c2].0[j2]);
        }
    }
    assert forall|i: int| 0 <= i < n.len() implies (#[trigger] n[i]).0.len() > 0 by {}
    assert forall|q: PathV| mk_has(cl, q) implies class_of(n, q) == class_of(cl, q) && pos_of(
        n,
        q,
    ) == pos_of(cl, q) by {
        let i = class_of(cl, q);
        let j = cl[i].0.index_of(q);
        lemma_class_of(cl, i, j);
        assert(n[i].0[j] == q);
        lemma_class_of(n, i, j);
    }
    assert(n[c].0[cl[c].0.len() as int] == b);
    lemma_class_of(n, c, cl[c].0.len() as int);
}

/// Removing one key of a class that keeps others keeps the map well formed,
/// and every other key in its class.
pub proof fn lemma_drop_alias<V>(cl: Seq<ClassV<V>>, c: int, j: int, v: V)
    requires
        mk_wf(cl),
        0 <= c < cl.len(),
        0 <= j < cl[c].0.len(),
        cl[c].0.len() > 1,
    ensures
        mk_wf(cl.update(c, (cl[c].0.remove(j), v))),
        forall|q: PathV|
            #[trigger] mk_has(cl.update(c, (cl[c].0.remove(j), v)), q) <==> (mk_has(cl, q) && q
                != cl[c].0[j]),
        forall|q: PathV|
            mk_has(cl, q) && q != cl[c].0[j] ==> class_of(
                cl.update(c, (cl[c].0.remove(j), v)),
                q,
            ) == class_of(cl, q),
{
    let p = cl[c].0[j];
    let ks = cl[c].0.remove(j);
    let n = cl.update(c, (ks, v));
    assert forall|i: int, k: int|
        0 <= i < n.len() && 0 <= k < n[i].0.len() implies #[trigger] n[i].0[k] == (if i == c
        && k >= j {
        cl[i].0[k + 1]
    } else {
        cl[i].0[k]
    }) by {}
    assert forall|q: PathV| #[trigger] mk_has(n, q) <==> (mk_has(cl, q) && q != p) by {
        if mk_has(n, q) {
            let i = choose|i: int| 0 <= i < n.len() && (#[trigger] n[i]).0.contains(q);
            let k = choose|k: int| 0 <= k < n[i].0.len() && n[i].0[k] == q;
            let k2 = if i == c && k >= j {
                k + 1
            } else {
                k
            };
            assert(cl[i].0[k2] == q);
            assert(cl[i].0.contains(q));
            if q == p {
                assert(k2 == j);
            }
        }
        if mk_has(cl, q) && q != p {
            let i = choose|i: int| 0 <= i < cl.len() && (#[trigger] cl[i]).0.contains(q);
            let k = choose|k: int| 0 <= k < cl[i].0.len() && cl[i].0[k] == q;
            if i == c {
                if k < j {
                    assert(n[i].0[k] == q);
                } else {
                    assert(k != j);
                    assert(n[i].0[k - 1] == q);
                }
            } else {
                assert(n[i].0[k] == q);
            }
        }
    }
    assert forall|c1: int, j1: int, c2: int, j2: int|
        0 <= c1 < n.len() && 0 <= c2 < n.len() && 0 <= j1 < n[c1].0.len() && 0 <= j2
            < n[c2].0.len() && (#[trigger] n[c1].0[j1]) == (#[trigger] n[c2].0[j2]) implies c1
        == c2 && j1 == j2 by {
        let k1 = if c1 == c && j1 >= j {
            j1 + 1
        } else {
            j1
        };
        let k2 = if c2 == c && j2 >= j {
            j2 + 1
        } else {
            j2
        };
        assert(cl[c1].0[k1] == cl[c2].0[k2]);
    }
    assert forall|i: int| 0 <= i < n.len() implies (#[trigger] n[i]).0.len() > 0 by {}
    assert forall|q: PathV| mk_has(cl, q) && q != p implies class_of(n, q) == class_of(cl, q) by {
        assert(mk_has(n, q));
        let i = class_of(n, q);
        let k = n[i].0.index_of(q);
        lemma_class_of(n, i, k);
        let k2 = if i == c && k >= j {
            k + 1
        } else {
            k
        };
        assert(cl[i].0[k2] == q);
        lemma_class_of(cl, i, k2);
    }
}

/// Removing a whole class keeps the map well formed; the keys of the
/// classes after it move down by one.
pub proof fn lemma_remove_class<V>(cl: Seq<ClassV<V>>, c: int)
    requires
        mk_wf(cl),
        0 <= c < cl.len(),
    ensures
        mk_wf(cl.remove(c)),
        forall|q: PathV|
            #[trigger] mk_has(cl.remove(c), q) <==> (mk_has(cl, q) && class_of(cl, q) != c),
        forall|q: PathV|
            mk_has(cl, q) && class_of(cl, q) != c ==> #[trigger] mk_get(cl.remove(c), q) == mk_get(
                cl,
                q,
            ) && cl.remove(c)[class_of(cl.remove(c), q)] == cl[class_of(cl, q)],
{
    let n = cl.remove(c);
    assert forall|i: int| 0 <= i < n.len() implies #[trigger] n[i] == (if i < c {
        cl[i]
    } else {
        cl[i + 1]
    }) by {}
    assert forall|q: PathV|
        #[trigger] mk_has(n, q) <==> (mk_has(cl, q) && class_of(cl, q) != c) by {
        if mk_has(n, q) {
            let i = choose|i: int| 0 <= i < n.len() && (#[trigger] n[i]).0.contains(q);
            let i2 = if i < c {
                i
            } else {
                i + 1
            };
            let k = choose|k: int| 0 <= k < n[i].0.len() && n[i].0[k] == q;
            assert(cl[i2].0[k] == q);
            lemma_class_of(cl, i2, k);
        }
        if mk_has(cl, q) && class_of(cl, q) != c {
            let i = class_of(cl, q);
            let i2 = if i < c {
                i
            } else {
                i - 1
            };
            assert(n[i2] == cl[i]);
            assert(n[i2].0.contains(q));
        }
    }
    assert forall|c1: int, j1: int, c2: int, j2: int|
        0 <= c1 < n.len() && 0 <= c2 < n.len() && 0 <= j1 < n[c1].0.len() && 0 <= j2
            < n[c2].0.len() && (#[trigger] n[c1].0[j1]) == (#[trigger] n[c2].0[j2]) implies c1
        == c2 && j1 == j2 by {
        let d1 = if c1 < c {
            c1
        } else {
            c1 + 1
        };
        let d2 = if c2 < c {
            c2
        } else {
            c2 + 1
        };
        assert(cl[d1].0[j1] == cl[d2].0[j2]);
    }
    assert forall|i: int| 0 <= i < n.len() implies (#[trigger] n[i]).0.len() > 0 by {
        if i >= c {
            assert(n[i] == cl[i + 1]);
        }
    }
    assert forall|q: PathV| mk_has(cl, q) && class_of(cl, q) != c implies #[trigger] mk_get(
        n,
        q,
    ) == mk_get(cl, q) && n[class_of(n, q)] == cl[class_of(cl, q)] by {
        let i = class_of(cl, q);
        let k = cl[i].0.index_of(q);
        lemma_class_of(cl, i, k);
        let i2 = if i < c {
            i
        } else {
            i - 1
        };
        assert(n[i2] == cl[i]);
        lemma_class_of(n, i2, k);
    }
}

/// A map in which several keys may share one value.
#[derive(Debug)]
pub struct MultiKeyMap<V> {
    classes: Vec<(Vec<AbsPath>, V)>,
}

pub open spec fn keys_view(ks: Seq<AbsPath>) -> Seq<PathV> {
    ks.map_values(|p: AbsPath| p@)
}

proof fn lemma_keys_push(ks: Seq<AbsPath>, k: AbsPath)
    ensures
        keys_view(ks.push(k)) == keys_view(ks).push(k@),
{
    assert(keys_view(ks.push(k)) =~= keys_view(ks).push(k@));
}

impl<V> View for MultiKeyMap<V> {
    type V = Seq<ClassV<V>>;

    closed spec fn view(&self) -> Seq<ClassV<V>> {
        self.classes@.map_values(|e: (Vec<AbsPath>, V)| (keys_view(e.0@), e.1))
    }
}

impl<V> MultiKeyMap<V> {
    /// Creates an empty map.
    pub fn new() -> (r: Self)
        ensures
            r@ == Seq::<ClassV<V>>::empty(),
    {
        let r = MultiKeyMap { classes: Vec::new() };
        assert(r@ =~= Seq::<ClassV<V>>::empty());
        r
    }

    /// The class and the position of key `k`.
    fn find(&self, k: &AbsPath) -> (r: Option<(usize, usize)>)
        ensures
            match r {
                Some((c, j)) => c < self@.len() && j < self@[c as int].0.len() && self@[c as int].0[j as int]
                    == k@,
                None => !mk_has(self@, k@),
            },
    {
        let n = self.classes.len();
        for c in 0..n
            invariant
                n == self.classes.len() == self@.len(),
                forall|c2: int| 0 <= c2 < c ==> !(#[trigger] self@[c2]).0.contains(k@),
        {
            let m = self.classes[c].0.len();
            assert(self@[c as int].0.len() == m);
            for j in 0..m
                invariant
                    n == self.classes.len() == self@.len(),
                    c < n,
                    m == self.classes@[c as int].0.len() == self@[c as int].0.len(),
                    forall|j2: int| 0 <= j2 < j ==> self@[c as int].0[j2] != k@,
            {
                if self.classes[c].0[j] == *k {
                    assert(self@[c as int].0[j as int] == self.classes@[c as int].0@[j as int]@);
                    return Some((c, j));
                }
                assert(self@[c as int].0[j as int] == self.classes@[c as int].0@[j as int]@);
            }
            assert(!self@[c as int].0.contains(k@)) by {
                if self@[c as int].0.contains(k@) {
                    let j2 = choose|j2: int| 0 <= j2 < m && self@[c as int].0[j2] == k@;
                }
            }
        }
        None
    }

    /// Check if `k` is a key.
    pub fn contains_key(&self, k: &AbsPath) -> (r: bool)
        ensures
            r == mk_has(self@, k@),
    {
        match self.find(k) {
            Some((c, j)) => {
                assert(self@[c as int].0.contains(k@));
                true
            },
            None => false,
        }
    }

    /// The value at key `k`.
    pub fn get(&self, k: &AbsPath) -> (r: Option<&V>)
        requires
            mk_wf(self@),
        ensures
            mk_has(self@, k@) ==> r == Some(&mk_get(self@, k@)),
            !mk_has(self@, k@) ==> r is None,
    {
        match self.find(k) {
            Some((c, j)) => {
                proof {
                    lemma_class_of(self@, c as int, j as int);
                }
                Some(&self.classes[c].1)
            },
            None => None,
        }
    }

    /// Inserts a value at a fresh key, in a class of its own.
    pub fn insert(&mut self, k: AbsPath, v: V)
        requires
            !mk_has(old(self)@, k@),
        ensures
            final(self)@ == old(self)@.push((seq![k@], v)),
    {
        let mut ks: Vec<AbsPath> = Vec::new();
        ks.push(k);
        assert(keys_view(ks@) =~= seq![k@]);
        self.classes.push((ks, v));
        assert(self@ =~= old(self)@.push((seq![k@], v)));
    }

    /// Adds the fresh key `alias` to the class of `existing`; returns false,
    /// and changes nothing, when `existing` is not a key.
    pub fn insert_alias(&mut self, existing: &AbsPath, alias: AbsPath) -> (r: bool)
        requires
            mk_wf(old(self)@),
            !mk_has(old(self)@, alias@),
        ensures
            r == mk_has(old(self)@, existing@),
            r ==> final(self)@ == old(self)@.update(
                class_of(old(self)@, existing@),
                (
                    old(self)@[class_of(old(self)@, existing@)].0.push(alias@),
                    old(self)@[class_of(old(self)@, existing@)].1,
                ),
            ),
            !r ==> final(self)@ == old(self)@,
    {
        match self.find(existing) {
            Some((c, j)) => {
                proof {
                    lemma_class_of(self@, c as int, j as int);
                }
                let (mut ks, v) = self.classes.remove(c);
                let ghost kv = keys_view(ks@);
                ks.push(alias);
                assert(keys_view(ks@) =~= kv.push(alias@));
                self.classes.insert(c, (ks, v));
                assert(self@ =~= old(self)@.update(
                    c as int,
                    (old(self)@[c as int].0.push(alias@), old(self)@[c as int].1),
                ));
                true
            },
            None => false,
        }
    }

    /// Replaces the value of the class of `k`; returns false, and changes
    /// nothing, when `k` is not a key.
    pub fn set(&mut self, k: &AbsPath, v: V) -> (r: bool)
        requires
            mk_wf(old(self)@),
        ensures
            r == mk_has(old(self)@, k@),
            r ==> final(self)@ == old(self)@.update(
                class_of(old(self)@, k@),
                (old(self)@[class_of(old(self)@, k@)].0, v),
            ),
            !r ==> final(self)@ == old(self)@,
    {
        match self.find(k) {
            Some((c, j)) => {
                proof {
                    lemma_class_of(self@, c as int, j as int);
                }
                let (ks, _old) = self.classes.remove(c);
                self.classes.insert(c, (ks, v));
                assert(self@ =~= old(self)@.update(c as int, (old(self)@[c as int].0, v)));
                true
            },
            None => false,
        }
    }

    /// Removes the value at `k` together with all of its keys, and returns
    /// it; `None`, and no change, when `k` is not a key.
    pub fn remove(&mut self, k: &AbsPath) -> (r: Option<V>)
        requires
            mk_wf(old(self)@),
        ensures
            mk_has(old(self)@, k@) ==> r == Some(mk_get(old(self)@, k@)) && final(self)@ == old(
                self,
            )@.remove(class_of(old(self)@, k@)),
            !mk_has(old(self)@, k@) ==> r is None && final(self)@ == old(self)@,
    {
        match self.find(k) {
            Some((c, j)) => {
                proof {
                    lemma_class_of(self@, c as int, j as int);
                }
                let (_ks, v) = self.classes.remove(c);
                assert(self@ =~= old(self)@.remove(c as int));
                Some(v)
            },
            None => None,
        }
    }

    /// Removes the key `k` only, and returns how many keys its class still
    /// has; the value is dropped with its last key. `None`, and no change,
    /// when `k` is not a key.
    pub fn remove_alias(&mut self, k: &AbsPath) -> (r: Option<usize>)
        requires
            mk_wf(old(self)@),
        ensures
            !mk_has(old(self)@, k@) ==> r is None && final(self)@ == old(self)@,
            mk_has(old(self)@, k@) ==> ({
                let c = class_of(old(self)@, k@);
                let ks = old(self)@[c].0.remove(pos_of(old(self)@, k@));
                &&& r == Some(ks.len() as usize)
                &&& ks.len() == 0 ==> final(self)@ == old(self)@.remove(c)
                &&& ks.len() > 0 ==> final(self)@ == old(self)@.update(c, (ks, old(self)@[c].1))
            }),
    {
        match self.find(k) {
            Some((c, j)) => {
                proof {
                    lemma_class_of(self@, c as int, j as int);
                }
                let (mut ks, v) = self.classes.remove(c);
                let ghost kv = keys_view(ks@);
                ks.remove(j);
                assert(keys_view(ks@) =~= kv.remove(j as int));
                let left = ks.len();
                if left == 0 {
                    assert(self@ =~= old(self)@.remove(c as int));
                } else {
                    self.classes.insert(c, (ks, v));
                    assert(self@ =~= old(self)@.update(c as int, (kv.remove(j as int), v)));
                }
                Some(left)
            },
            None => None,
        }
    }

    /// All keys that share the value of `k`, `k` among them; `None` when `k`
    /// is not a key.
    pub fn aliases(&self, k: &AbsPath) -> (r: Option<Vec<AbsPath>>)
        requires
            mk_wf(self@),
        ensures
            mk_has(self@, k@) ==> (r matches Some(v) && keys_view(v@) == self@[class_of(
                self@,
                k@,
            )].0),
            !mk_has(self@, k@) ==> r is None,
    {
        match self.find(k) {
            Some((c, j)) => {
                proof {
                    lemma_class_of(self@, c as int, j as int);
                }
                let ks = &self.classes[c].0;
                let mut out: Vec<AbsPath> = Vec::new();
                for i in 0..ks.len()
                    invariant
                        keys_view(out@) == keys_view(ks@).take(i as int),
                {
                    let ghost prev = out@;
                    out.push(ks[i].duplicate());
                    proof {
                        lemma_keys_push(prev, out@.last());
                        assert(out@ == prev.push(out@.last()));
                        assert(keys_view(ks@).take(i + 1) =~= keys_view(ks@).take(i as int).push(
                            ks@[i as int]@,
                        ));
                    }
                }
                assert(keys_view(ks@).take(ks.len() as int) =~= keys_view(ks@));
                Some(out)
            },
            None => None,
        }
    }

    /// Check if `a` and `b` are keys of one class.
    pub fn are_aliases(&self, a: &AbsPath, b: &AbsPath) -> (r: bool)
        requires
            mk_wf(self@),
        ensures
            r == mk_alias(self@, a@, b@),
    {
        match (self.find(a), self.find(b)) {
            (Some((ca, ja)), Some((cb, jb))) => {
                proof {
                    lemma_class_of(self@, ca as int, ja as int);
                    lemma_class_of(self@, cb as int, jb as int);
                }
                ca == cb
            },
            _ => false,
        }
    }

    /// All keys, class by class.
    pub fn keys(&self) -> (r: Vec<AbsPath>)
        requires
            mk_wf(self@),
        ensures
            forall|p: PathV| mk_has(self@, p) <==> keys_view(r@).contains(p),
            keys_view(r@) == mk_keys(self@),
    {
        let mut out: Vec<AbsPath> = Vec::new();
        let n = self.classes.len();
        assert(self@.take(0) =~= Seq::<ClassV<V>>::empty());
        for c in 0..n
            invariant
                n == self.classes.len() == self@.len(),
                keys_view(out@) == mk_keys(self@.take(c as int)),
                forall|p: PathV|
                    (exists|c2: int| 0 <= c2 < c && (#[trigger] self@[c2]).0.contains(p))
                        <==> keys_view(out@).contains(p),
        {
            let ks = &self.classes[c].0;
            assert(keys_view(ks@) == self@[c as int].0);
            let ghost before = keys_view(out@);
            for i in 0..ks.len()
                invariant
                    keys_view(out@) == before + keys_view(ks@).take(i as int),
            {
                let ghost prev = out@;
                out.push(ks[i].duplicate());
                proof {
                    lemma_keys_push(prev, out@.last());
                    assert(out@ == prev.push(out@.last()));
                    assert(keys_view(ks@).take(i + 1) =~= keys_view(ks@).take(i as int).push(
                        ks@[i as int]@,
                    ));
                    assert(keys_view(out@) =~= before + keys_view(ks@).take(i + 1));
                }
            }
            assert(keys_view(ks@).take(ks.len() as int) =~= keys_view(ks@));
            assert(self@.take(c + 1).drop_last() =~= self@.take(c as int));
            assert(keys_view(out@) == mk_keys(self@.take(c + 1)));
            assert forall|p: PathV|
                (exists|c2: int| 0 <= c2 < c + 1 && (#[trigger] self@[c2]).0.contains(p))
                    <==> keys_view(out@).contains(p) by {
                if keys_view(out@).contains(p) {
                    let i = choose|i: int| 0 <= i < keys_view(out@).len() && keys_view(out@)[i] == p;
                    if i < before.len() {
                        assert(before[i] == p);
                        assert(before.contains(p));
                    } else {
                        assert(self@[c as int].0[i - before.len()] == p);
                        assert(self@[c as int].0.contains(p));
                    }
                }
                if exists|c2: int| 0 <= c2 < c + 1 && (#[trigger] self@[c2]).0.contains(p) {
                    let c2 = choose|c2: int| 0 <= c2 < c + 1 && (#[trigger] self@[c2]).0.contains(p);
                    if c2 < c {
                        assert(before.contains(p));
                        let i = choose|i: int| 0 <= i < before.len() && before[i] == p;
                        assert(keys_view(out@)[i] == p);
                    } else {
                        let i = choose|i: int| 0 <= i < self@[c as int].0.len() && self@[c as int].0[i] == p;
                        assert(keys_view(out@)[before.len() + i] == p);
                    }
                }
            }
        }
        assert(self@.take(n as int) =~= self@);
        out
    }

    /// The number of values (alias classes).
    pub fn len(&self) -> (r: usize)
        ensures
            r == self@.len(),
    {
        self.classes.len()
    }

    /// Removes every key and value.
    pub fn clear(&mut self)
        ensures
            final(self)@ == Seq::<ClassV<V>>::empty(),
    {
        self.classes = Vec::new();
        assert(self@ =~= Seq::<ClassV<V>>::empty());
    }
}

impl MultiKeyMap<Inode> {
    /// Check that every key of this map is a key of `other` with the same
    /// inode, and that aliases here are aliases there.
    pub fn refines(&self, other: &Self) -> (r: bool)
        requires
            mk_wf(self@),
            mk_wf(other@),
        ensures
            r == mk_refines(self@, other@),
    {
        let ghost a = self@;
        let ghost b = other@;
        let n = self.classes.len();
        for c in 0..n
            invariant
                a == self@,
                b == other@,
                mk_wf(a),
                mk_wf(b),
                n == a.len(),
                forall|c2: int, k: int|
                    0 <= c2 < c && 0 <= k < a[c2].0.len() ==> mk_has(b, #[trigger] a[c2].0[k])
                        && mk_get(b, a[c2].0[k]) == a[c2].1 && class_of(b, a[c2].0[k])
                        == class_of(b, a[c2].0[0]),
        {
            let ks = &self.classes[c].0;
            assert(keys_view(ks@) == a[c as int].0);
            assert(ks.len() > 0);
            let (cb, jb) = match other.find(&ks[0]) {
                Some(found) => found,
                None => {
                    proof {
                        lemma_class_of(a, c as int, 0);
                    }
                    return false;
                },
            };
            proof {
                lemma_class_of(b, cb as int, jb as int);
                lemma_class_of(a, c as int, 0);
            }
            if other.classes[cb].1 != self.classes[c].1 {
                return false;
            }
            for k in 0..ks.len()
                invariant
                    a == self@,
                    b == other@,
                    mk_wf(a),
                    mk_wf(b),
                    ks@.len() == a[c as int].0.len(),
                    keys_view(ks@) == a[c as int].0,
                    c < n,
                    n == a.len(),
                    cb < b.len(),
                    class_of(b, a[c as int].0[0]) == cb,
                    mk_get(b, a[c as int].0[0]) == a[c as int].1,
                    mk_has(b, a[c as int].0[0]),
                    forall|k2: int|
                        0 <= k2 < k ==> mk_has(b, #[trigger] a[c as int].0[k2]) && class_of(
                            b,
                            a[c as int].0[k2],
                        ) == cb,
            {
                assert(keys_view(ks@)[k as int] == ks@[k as int]@);
                match other.find(&ks[k]) {
                    Some((cb2, jb2)) => {
                        proof {
                            lemma_class_of(b, cb2 as int, jb2 as int);
                        }
                        if cb2 != cb {
                            proof {
                                let p = a[c as int].0[0];
                                let q = a[c as int].0[k as int];
                                lemma_class_of(a, c as int, k as int);
                                assert(mk_alias(a, p, q));
                            }
                            return false;
                        }
                    },
                    None => {
                        proof {
                            lemma_class_of(a, c as int, k as int);
                        }
                        return false;
                    },
                }
            }
            proof {
                assert forall|c2: int, k: int|
                    0 <= c2 < c + 1 && 0 <= k < a[c2].0.len() implies mk_has(
                    b,
                    #[trigger] a[c2].0[k],
                ) && mk_get(b, a[c2].0[k]) == a[c2].1 && class_of(b, a[c2].0[k]) == class_of(
                    b,
                    a[c2].0[0],
                ) by {
                    if c2 == c {
                        let q = a[c2].0[k];
                        let cq = class_of(b, q);
                        assert(mk_has(b, q));
                    }
                }
            }
        }
        proof {
            assert forall|p: PathV| #[trigger] mk_has(a, p) implies mk_has(b, p) && mk_get(b, p)
                == mk_get(a, p) && forall|q: PathV| #[trigger]
                mk_alias(a, p, q) ==> mk_alias(b, p, q) by {
                let cp = class_of(a, p);
                let kp = a[cp].0.index_of(p);
                lemma_class_of(a, cp, kp);
                assert(a[cp].0[kp] == p);
                assert forall|q: PathV| #[trigger] mk_alias(a, p, q) implies mk_alias(b, p, q) by {
                    let kq = a[cp].0.index_of(q);
                    assert(a[class_of(a, q)].0.contains(q));
                    lemma_class_of(a, cp, kq);
                    assert(a[cp].0[kq] == q);
                }
            }
        }
        true
    }

    /// A copy of this map.
    pub fn duplicate(&self) -> (r: Self)
        ensures
            r@ == self@,
    {
        let mut out: Vec<(Vec<AbsPath>, Inode)> = Vec::new();
        for c in 0..self.classes.len()
            invariant
                out@.len() == c,
                out@.map_values(|e: (Vec<AbsPath>, Inode)| (keys_view(e.0@), e.1)) == self@.take(
                    c as int,
                ),
        {
            let ks = &self.classes[c].0;
            let mut copy: Vec<AbsPath> = Vec::new();
            for k in 0..ks.len()
                invariant
                    keys_view(copy@) == keys_view(ks@).take(k as int),
            {
                let ghost prev = copy@;
                copy.push(ks[k].duplicate());
                proof {
                    lemma_keys_push(prev, copy@.last());
                    assert(copy@ == prev.push(copy@.last()));
                    assert(keys_view(ks@).take(k + 1) =~= keys_view(ks@).take(k as int).push(
                        ks@[k as int]@,
                    ));
                }
            }
            assert(keys_view(ks@).take(ks.len() as int) =~= keys_view(ks@));
            let ghost before = out@;
            out.push((copy, self.classes[c].1));
            assert(self@[c as int] == (keys_view(ks@), self.classes@[c as int].1));
            assert forall|i: int| 0 <= i < c implies #[trigger] out@[i] == before[i] by {}
            assert(out@.map_values(|e: (Vec<AbsPath>, Inode)| (keys_view(e.0@), e.1)) =~= self@.take(
                c + 1,
            )) by {
                assert(out@ == before.push(out@.last()));
                assert forall|i: int| 0 <= i < c implies out@.map_values(
                    |e: (Vec<AbsPath>, Inode)| (keys_view(e.0@), e.1),
                )[i] == #[trigger] self@.take(c as int)[i] by {
                    assert(before.map_values(|e: (Vec<AbsPath>, Inode)| (keys_view(e.0@), e.1))[i]
                        == self@.take(c as int)[i]);
                }
            }
        }
        let r = MultiKeyMap { classes: out };
        assert(self@.take(self.classes.len() as int) =~= self@);
        r
    }
}

} // verus!
