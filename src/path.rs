//! Absolute and relative paths, and the normalization that turns a path
//! string into a list of names.
use crate::error::FsError;
use vstd::prelude::*;

verus! {

/// A name that may stand in a normalized path: non-empty, without `/`,
/// and neither `.` nor `..`.
pub open spec fn is_name(c: Seq<char>) -> bool {
    &&& c.len() > 0
    &&& !c.contains('/')
    &&& c != seq!['.']
    &&& c != seq!['.', '.']
}

/// A list of names, which is what a normalized absolute path is.
pub open spec fn all_names(cs: Seq<Seq<char>>) -> bool {
    forall|i: int| 0 <= i < cs.len() ==> is_name(#[trigger] cs[i])
}

/// The pieces of `s` between the `/` characters (one more piece than there
/// are slashes; pieces may be empty).
pub open spec fn split_slash(s: Seq<char>) -> Seq<Seq<char>>
    decreases s.len(),
{
    if s.len() == 0 {
        seq![Seq::empty()]
    } else {
        let init = split_slash(s.drop_last());
        if s.last() == '/' {
            init.push(Seq::empty())
        } else {
            init.update(init.len() - 1, init.last().push(s.last()))
        }
    }
}

/// No piece of `s` between slashes is empty.
pub open spec fn no_empty_piece(s: Seq<char>) -> bool {
    forall|i: int| 0 <= i < split_slash(s).len() ==> (#[trigger] split_slash(s)[i]).len() > 0
}

/// One component applied to a stack of names: `.` is dropped, `..` pops a
/// name if there is one, anything else is pushed.
pub open spec fn step(st: Seq<Seq<char>>, c: Seq<char>) -> Seq<Seq<char>> {
    if c == seq!['.'] {
        st
    } else if c == seq!['.', '.'] {
        if st.len() > 0 {
            st.drop_last()
        } else {
            st
        }
    } else {
        st.push(c)
    }
}

/// The components `cs`, applied in order to the stack `base`.
pub open spec fn resolve(base: Seq<Seq<char>>, cs: Seq<Seq<char>>) -> Seq<Seq<char>>
    decreases cs.len(),
{
    if cs.len() == 0 {
        base
    } else {
        step(resolve(base, cs.drop_last()), cs.last())
    }
}

/// `s` without one trailing `/`.
pub open spec fn strip_trailing(s: Seq<char>) -> Seq<char> {
    if s.len() > 0 && s.last() == '/' {
        s.drop_last()
    } else {
        s
    }
}

/// `s` without one leading and one trailing `/`.
pub open spec fn strip(s: Seq<char>) -> Seq<char> {
    if s.len() > 0 && s[0] == '/' {
        strip_trailing(s.drop_first())
    } else {
        strip_trailing(s)
    }
}

/// The normalized absolute path of the string `s`, or `None` when an
/// interior component is empty.
pub open spec fn normalize_spec(s: Seq<char>) -> Option<Seq<Seq<char>>> {
    let t = strip(s);
    if t.len() == 0 {
        Some(Seq::empty())
    } else if no_empty_piece(t) {
        Some(resolve(Seq::empty(), split_slash(t)))
    } else {
        None
    }
}

/// The relative path `rel` resolved against the directory `base`, or `None`
/// when a component of `rel` is empty.
pub open spec fn join_spec(base: Seq<Seq<char>>, rel: Seq<char>) -> Option<Seq<Seq<char>>> {
    let t = strip_trailing(rel);
    if no_empty_piece(t) {
        Some(resolve(base, split_slash(t)))
    } else {
        None
    }
}

/// The names joined by `/`.
pub open spec fn joined(cs: Seq<Seq<char>>) -> Seq<char>
    decreases cs.len(),
{
    if cs.len() == 0 {
        Seq::empty()
    } else if cs.len() == 1 {
        cs[0]
    } else {
        joined(cs.drop_last()) + seq!['/'] + cs.last()
    }
}

/// The written form of an absolute path: `/` followed by its names joined by `/`.
pub open spec fn display(cs: Seq<Seq<char>>) -> Seq<char> {
    seq!['/'] + joined(cs)
}

/// `a` is a strict prefix of `b`, component by component.
pub open spec fn is_ancestor_spec(a: Seq<Seq<char>>, b: Seq<Seq<char>>) -> bool {
    a.len() < b.len() && b.take(a.len() as int) == a
}

/// The characters of `s`, in order.
pub fn chars_of(s: &str) -> (r: Vec<char>)
    ensures
        r@ == s@,
{
    let mut r: Vec<char> = Vec::new();
    for c in it: s.chars()
        invariant
            r@ == it.seq().take(it.index() as int),
    {
        r.push(c);
    }
    r
}

/// Relies on std's `FromIterator<char>` for `String`: the string holds the
/// characters in order.
#[verifier::external_body]
pub(crate) fn string_of(v: &Vec<char>) -> (r: String)
    ensures
        r@ == v@,
{
    v.iter().collect()
}

pub open spec fn names_view(v: Seq<String>) -> Seq<Seq<char>> {
    v.map_values(|s: String| s@)
}

/// Normalized absolute file path: a list of names.
#[derive(Debug)]
pub struct AbsPath {
    comps: Vec<String>,
}

impl View for AbsPath {
    type V = Seq<Seq<char>>;

    closed spec fn view(&self) -> Seq<Seq<char>> {
        names_view(self.comps@)
    }
}

proof fn lemma_split_nonempty(s: Seq<char>)
    ensures
        split_slash(s).len() >= 1,
    decreases s.len(),
{
    if s.len() > 0 {
        lemma_split_nonempty(s.drop_last());
    }
}

proof fn lemma_names_push(v: Seq<String>, x: String)
    ensures
        names_view(v.push(x)) == names_view(v).push(x@),
{
    assert(names_view(v.push(x)) =~= names_view(v).push(x@));
}

proof fn lemma_names_drop_last(v: Seq<String>)
    requires
        v.len() > 0,
    ensures
        names_view(v.drop_last()) == names_view(v).drop_last(),
{
    assert(names_view(v.drop_last()) =~= names_view(v).drop_last());
}

/// Applies one component to the stack of names.
fn apply_step(stack: &mut Vec<String>, cur: &Vec<char>)
    ensures
        names_view(final(stack)@) == step(names_view(old(stack)@), cur@),
{
    let n = cur.len();
    if n == 1 && cur[0] == '.' {
        assert(cur@ =~= seq!['.']);
    } else if n == 2 && cur[0] == '.' && cur[1] == '.' {
        assert(cur@ =~= seq!['.', '.']);
        if stack.len() > 0 {
            proof {
                lemma_names_drop_last(stack@);
            }
            stack.pop();
        }
    } else {
        assert(cur@ != seq!['.']) by {
            if cur@ == seq!['.'] {
                assert(cur@.len() == 1);
            }
        }
        assert(cur@ != seq!['.', '.']) by {
            if cur@ == seq!['.', '.'] {
                assert(cur@.len() == 2);
            }
        }
        let s = string_of(cur);
        proof {
            lemma_names_push(stack@, s);
        }
        stack.push(s);
    }
}

/// Resolves the pieces of `cs[lo..hi]` between slashes onto `base`.
fn resolve_pieces(base: Vec<String>, cs: &Vec<char>, lo: usize, hi: usize) -> (r: Option<
    Vec<String>,
>)
    requires
        lo <= hi <= cs.len(),
    ensures
        match r {
            Some(v) => no_empty_piece(cs@.subrange(lo as int, hi as int)) && names_view(v@)
                == resolve(names_view(base@), split_slash(cs@.subrange(lo as int, hi as int))),
            None => !no_empty_piece(cs@.subrange(lo as int, hi as int)),
        },
{
    let mut stack = base;
    let mut cur: Vec<char> = Vec::new();
    let mut bad = false;
    let mut i = lo;
    proof {
        assert(cs@.subrange(lo as int, lo as int) =~= Seq::<char>::empty());
        assert(split_slash(Seq::<char>::empty()).drop_last() =~= Seq::<Seq<char>>::empty());
    }
    while i < hi
        invariant
            lo <= i <= hi <= cs.len(),
            split_slash(cs@.subrange(lo as int, i as int)).len() >= 1,
            cur@ == split_slash(cs@.subrange(lo as int, i as int)).last(),
            bad <==> exists|j: int|
                0 <= j < split_slash(cs@.subrange(lo as int, i as int)).len() - 1
                    && (#[trigger] split_slash(cs@.subrange(lo as int, i as int))[j]).len() == 0,
            !bad ==> names_view(stack@) == resolve(
                names_view(base@),
                split_slash(cs@.subrange(lo as int, i as int)).drop_last(),
            ),
        decreases hi - i,
    {
        let ghost pre = cs@.subrange(lo as int, i as int);
        let ghost sp = split_slash(pre);
        let c = cs[i];
        proof {
            assert(cs@.subrange(lo as int, i + 1) =~= pre.push(c));
            assert(pre.push(c).drop_last() =~= pre);
        }
        let ghost nsp = split_slash(pre.push(c));
        if c == '/' {
            proof {
                assert(nsp == sp.push(Seq::empty()));
                assert(nsp.drop_last() =~= sp);
                assert(sp =~= sp.drop_last().push(sp.last()));
            }
            if cur.len() == 0 {
                bad = true;
                assert(nsp[sp.len() - 1].len() == 0);
            } else {
                if !bad {
                    apply_step(&mut stack, &cur);
                }
                assert(bad <==> exists|j: int|
                    0 <= j < nsp.len() - 1 && (#[trigger] nsp[j]).len() == 0) by {
                    if exists|j: int| 0 <= j < nsp.len() - 1 && (#[trigger] nsp[j]).len() == 0 {
                        let j = choose|j: int| 0 <= j < nsp.len() - 1 && (#[trigger] nsp[j]).len() == 0;
                        assert(sp[j] == nsp[j]);
                    }
                    if bad {
                        let j = choose|j: int| 0 <= j < sp.len() - 1 && (#[trigger] sp[j]).len() == 0;
                        assert(sp[j] == nsp[j]);
                    }
                }
            }
            cur = Vec::new();
        } else {
            proof {
                assert(nsp == sp.update(sp.len() - 1, sp.last().push(c)));
                assert(nsp.drop_last() =~= sp.drop_last());
                assert(bad <==> exists|j: int|
                    0 <= j < nsp.len() - 1 && (#[trigger] nsp[j]).len() == 0) by {
                    if exists|j: int| 0 <= j < nsp.len() - 1 && (#[trigger] nsp[j]).len() == 0 {
                        let j = choose|j: int| 0 <= j < nsp.len() - 1 && (#[trigger] nsp[j]).len() == 0;
                        assert(sp[j] == nsp[j]);
                    }
                    if bad {
                        let j = choose|j: int| 0 <= j < sp.len() - 1 && (#[trigger] sp[j]).len() == 0;
                        assert(sp[j] == nsp[j]);
                    }
                }
            }
            cur.push(c);
        }
        i = i + 1;
    }
    let ghost pre = cs@.subrange(lo as int, hi as int);
    let ghost sp = split_slash(pre);
    if bad || cur.len() == 0 {
        proof {
            if bad {
                let j = choose|j: int| 0 <= j < sp.len() - 1 && (#[trigger] sp[j]).len() == 0;
                assert(sp[j].len() == 0);
            } else {
                assert(sp[sp.len() - 1].len() == 0);
            }
        }
        None
    } else {
        apply_step(&mut stack, &cur);
        proof {
            assert(sp =~= sp.drop_last().push(sp.last()));
            assert forall|j: int| 0 <= j < sp.len() implies (#[trigger] sp[j]).len() > 0 by {
                if j < sp.len() - 1 {
                    if sp[j].len() == 0 {
                        assert(exists|k: int| 0 <= k < sp.len() - 1 && (#[trigger] sp[k]).len() == 0);
                    }
                }
            }
        }
        Some(stack)
    }
}

/// A copy of a list of names.
fn copy_names(v: &Vec<String>) -> (r: Vec<String>)
    ensures
        r@ == v@,
{
    let mut r: Vec<String> = Vec::new();
    for i in 0..v.len()
        invariant
            r@ == v@.take(i as int),
    {
        r.push(v[i].clone());
        assert(r@ =~= v@.take(i + 1));
    }
    assert(r@ =~= v@);
    r
}

impl Clone for AbsPath {
    fn clone(&self) -> (r: Self)
        ensures
            r@ == self@,
    {
        self.duplicate()
    }
}

impl AbsPath {
    /// A copy of this path.
    pub fn duplicate(&self) -> (r: Self)
        ensures
            r@ == self@,
    {
        AbsPath { comps: copy_names(&self.comps) }
    }
}

impl PartialEq for AbsPath {
    fn eq(&self, other: &AbsPath) -> (r: bool) {
        let n = self.comps.len();
        if n != other.comps.len() {
            assert(self@.len() != other@.len());
            return false;
        }
        for i in 0..n
            invariant
                n == self.comps.len() == other.comps.len(),
                forall|j: int| 0 <= j < i ==> self.comps@[j]@ == other.comps@[j]@,
        {
            if self.comps[i] != other.comps[i] {
                assert(self@[i as int] != other@[i as int]);
                return false;
            }
        }
        assert(self@ =~= other@);
        true
    }
}

impl vstd::std_specs::cmp::PartialEqSpecImpl for AbsPath {
    open spec fn obeys_eq_spec() -> bool {
        true
    }

    open spec fn eq_spec(&self, other: &AbsPath) -> bool {
        self@ == other@
    }
}

impl AbsPath {
    /// Create a new absolute path by normalizing `path`.
    pub fn new(path: &str) -> (r: Result<Self, FsError>)
        ensures
            match normalize_spec(path@) {
                Some(v) => r matches Ok(p) && p@ == v,
                None => r == Err::<AbsPath, FsError>(FsError::InvalidPath),
            },
            r matches Ok(p) ==> all_names(p@),
    {
        proof {
            if normalize_spec(path@) is Some {
                lemma_normalize_names(path@);
            }
        }
        Self::normalize(path)
    }

    /// Root absolute path.
    pub fn root() -> (r: Self)
        ensures
            r@ == Seq::<Seq<char>>::empty(),
    {
        let r = AbsPath { comps: Vec::new() };
        assert(r@ =~= Seq::<Seq<char>>::empty());
        r
    }

    /// Check if this path is root.
    pub fn is_root(&self) -> (r: bool)
        ensures
            r == (self@.len() == 0),
    {
        self.comps.len() == 0
    }

    /// Check if this path is a strict ancestor of another path.
    pub fn is_ancestor(&self, other: &Self) -> (r: bool)
        ensures
            r == is_ancestor_spec(self@, other@),
    {
        let n = self.comps.len();
        if n >= other.comps.len() {
            return false;
        }
        for i in 0..n
            invariant
                n == self.comps.len() < other.comps.len(),
                forall|j: int| 0 <= j < i ==> self.comps@[j]@ == other.comps@[j]@,
        {
            if self.comps[i] != other.comps[i] {
                assert(other@.take(n as int)[i as int] != self@[i as int]);
                return false;
            }
        }
        assert(other@.take(n as int) =~= self@);
        true
    }

    /// The parent directory of this path; `None` for root.
    pub fn parent(&self) -> (r: Option<Self>)
        ensures
            self@.len() == 0 ==> r is None,
            self@.len() > 0 ==> (r matches Some(p) && p@ == self@.drop_last()),
    {
        if self.comps.len() == 0 {
            None
        } else {
            let mut comps = copy_names(&self.comps);
            comps.pop();
            let r = AbsPath { comps };
            assert(r@ =~= self@.drop_last());
            Some(r)
        }
    }

    /// Concatenate a relative path to this absolute path, then normalize.
    pub fn join(&self, rel_path: &RelPath) -> (r: Result<Self, FsError>)
        ensures
            match join_spec(self@, rel_path@) {
                Some(v) => r matches Ok(p) && p@ == v,
                None => r == Err::<AbsPath, FsError>(FsError::InvalidPath),
            },
    {
        self.join_str(rel_path.0.as_str())
    }

    /// Concatenate the relative path written `rel` to this absolute path,
    /// then normalize.
    pub fn join_str(&self, rel: &str) -> (r: Result<Self, FsError>)
        ensures
            match join_spec(self@, rel@) {
                Some(v) => r matches Ok(p) && p@ == v,
                None => r == Err::<AbsPath, FsError>(FsError::InvalidPath),
            },
    {
        let cs = chars_of(rel);
        let n = cs.len();
        let hi = if n > 0 && cs[n - 1] == '/' {
            n - 1
        } else {
            n
        };
        assert(cs@.subrange(0, hi as int) =~= strip_trailing(rel@));
        match resolve_pieces(copy_names(&self.comps), &cs, 0, hi) {
            Some(comps) => Ok(AbsPath { comps }),
            None => Err(FsError::InvalidPath),
        }
    }

    /// Normalize a `path` string, then create an `AbsPath`: one leading and
    /// one trailing `/` are removed, `.` and `..` are resolved.
    fn normalize(path: &str) -> (r: Result<Self, FsError>)
        ensures
            match normalize_spec(path@) {
                Some(v) => r matches Ok(p) && p@ == v,
                None => r == Err::<AbsPath, FsError>(FsError::InvalidPath),
            },
    {
        let cs = chars_of(path);
        let n = cs.len();
        let lo: usize = if n > 0 && cs[0] == '/' {
            1
        } else {
            0
        };
        let hi: usize = if n > lo && cs[n - 1] == '/' {
            n - 1
        } else {
            n
        };
        proof {
            let s = path@;
            if n > 0 && cs[0] == '/' {
                assert(s.drop_first() =~= cs@.subrange(1, n as int));
                if n > 1 && cs[n - 1] == '/' {
                    assert(s.drop_first().drop_last() =~= cs@.subrange(1, n - 1));
                }
            } else if n > 0 && cs[n - 1] == '/' {
                assert(s.drop_last() =~= cs@.subrange(0, n - 1));
            } else {
                assert(s =~= cs@.subrange(0, n as int));
            }
        }
        assert(cs@.subrange(lo as int, hi as int) =~= strip(path@));
        if lo == hi {
            return Ok(Self::root());
        }
        let empty: Vec<String> = Vec::new();
        assert(names_view(empty@) =~= Seq::<Seq<char>>::empty());
        match resolve_pieces(empty, &cs, lo, hi) {
            Some(comps) => Ok(AbsPath { comps }),
            None => Err(FsError::InvalidPath),
        }
    }

    /// The written form: `/` followed by the names joined by `/`.
    pub fn display_string(&self) -> (r: String)
        ensures
            r@ == display(self@),
    {
        let inner = chars_of(self.to_string().as_str());
        let mut out: Vec<char> = Vec::new();
        out.push('/');
        for k in 0..inner.len()
            invariant
                out@ == seq!['/'] + inner@.take(k as int),
        {
            out.push(inner[k]);
            assert(out@ =~= seq!['/'] + inner@.take(k + 1));
        }
        assert(inner@.take(inner.len() as int) =~= inner@);
        string_of(&out)
    }

    /// The names joined by `/`, without the leading `/`.
    pub fn to_string(&self) -> (r: String)
        ensures
            r@ == joined(self@),
    {
        let mut out: Vec<char> = Vec::new();
        let n = self.comps.len();
        for i in 0..n
            invariant
                n == self.comps.len(),
                out@ == joined(self@.take(i as int)),
        {
            let cs = chars_of(self.comps[i].as_str());
            proof {
                assert(self@.take(i + 1).drop_last() =~= self@.take(i as int));
                assert(self@.take(0) =~= Seq::<Seq<char>>::empty());
            }
            if i > 0 {
                out.push('/');
            }
            let ghost before = out@;
            for k in 0..cs.len()
                invariant
                    out@ == before + cs@.take(k as int),
            {
                out.push(cs[k]);
                assert(out@ =~= before + cs@.take(k + 1));
            }
            proof {
                assert(cs@.take(cs.len() as int) =~= cs@);
                if i == 0 {
                    assert(out@ =~= self@.take(1)[0]);
                } else {
                    assert(self@.take(i + 1).last() == self@[i as int]);
                }
            }
        }
        assert(self@.take(n as int) =~= self@);
        string_of(&out)
    }
}

/// Relative file path, which must not start with `/`.
#[derive(Debug)]
pub struct RelPath(String);

impl View for RelPath {
    type V = Seq<char>;

    closed spec fn view(&self) -> Seq<char> {
        self.0@
    }
}

impl RelPath {
    /// Create a new relative path.
    pub fn new(path: String) -> (r: Self)
        requires
            path@.len() > 0,
            path@[0] != '/',
        ensures
            r@ == path@,
    {
        RelPath(path)
    }

    /// Current directory.
    pub fn cur() -> (r: Self)
        ensures
            r@ == seq!['.'],
    {
        let r = RelPath(string_of(&vec!['.']));
        assert(r@ =~= seq!['.']);
        r
    }

    /// Parent directory.
    pub fn parent() -> (r: Self)
        ensures
            r@ == seq!['.', '.'],
    {
        let r = RelPath(string_of(&vec!['.', '.']));
        assert(r@ =~= seq!['.', '.']);
        r
    }

    /// The path as written.
    pub fn to_string(&self) -> (r: String)
        ensures
            r@ == self@,
    {
        self.0.clone()
    }
}

proof fn lemma_split_no_slash(s: Seq<char>)
    ensures
        forall|i: int|
            0 <= i < split_slash(s).len() ==> !(#[trigger] split_slash(s)[i]).contains('/'),
    decreases s.len(),
{
    if s.len() > 0 {
        lemma_split_no_slash(s.drop_last());
        lemma_split_nonempty(s.drop_last());
        let init = split_slash(s.drop_last());
        if s.last() != '/' {
            let l = init.last().push(s.last());
            assert forall|i: int| 0 <= i < split_slash(s).len() implies !(
            #[trigger] split_slash(s)[i]).contains('/') by {
                if i == init.len() - 1 {
                    if l.contains('/') {
                        let k = choose|k: int| 0 <= k < l.len() && l[k] == '/';
                        if k < l.len() - 1 {
                            assert(init.last()[k] == '/');
                        }
                    }
                }
            }
        } else {
            assert forall|i: int| 0 <= i < split_slash(s).len() implies !(
            #[trigger] split_slash(s)[i]).contains('/') by {
                if i == init.len() {
                    assert(split_slash(s)[i] =~= Seq::<char>::empty());
                }
            }
        }
    }
}

proof fn lemma_resolve_names(base: Seq<Seq<char>>, cs: Seq<Seq<char>>)
    requires
        all_names(base),
        forall|i: int| 0 <= i < cs.len() ==> (#[trigger] cs[i]).len() > 0 && !cs[i].contains('/'),
    ensures
        all_names(resolve(base, cs)),
    decreases cs.len(),
{
    if cs.len() > 0 {
        let init = cs.drop_last();
        assert forall|i: int| 0 <= i < init.len() implies (#[trigger] init[i]).len() > 0
            && !init[i].contains('/') by {
            assert(init[i] == cs[i]);
        }
        lemma_resolve_names(base, init);
        let st = resolve(base, init);
        let c = cs.last();
        assert(cs[cs.len() - 1] == c);
        if c == seq!['.'] {
        } else if c == seq!['.', '.'] {
            if st.len() > 0 {
                assert forall|i: int| 0 <= i < st.drop_last().len() implies is_name(
                    #[trigger] st.drop_last()[i],
                ) by {
                    assert(st.drop_last()[i] == st[i]);
                }
            }
        } else {
            assert forall|i: int| 0 <= i < st.push(c).len() implies is_name(
                #[trigger] st.push(c)[i],
            ) by {
                if i < st.len() {
                    assert(st.push(c)[i] == st[i]);
                }
            }
        }
    }
}

/// Every successful normalization yields a list of names.
pub proof fn lemma_normalize_names(s: Seq<char>)
    requires
        normalize_spec(s) is Some,
    ensures
        all_names(normalize_spec(s)->0),
{
    let t = strip(s);
    if t.len() > 0 {
        lemma_split_no_slash(t);
        lemma_resolve_names(Seq::empty(), split_slash(t));
    }
}

/// Every successful join onto a list of names yields a list of names.
pub proof fn lemma_join_names(base: Seq<Seq<char>>, rel: Seq<char>)
    requires
        all_names(base),
        join_spec(base, rel) is Some,
    ensures
        all_names(join_spec(base, rel)->0),
{
    let t = strip_trailing(rel);
    lemma_split_no_slash(t);
    lemma_resolve_names(base, split_slash(t));
}

proof fn lemma_split_append(x: Seq<char>, c: Seq<char>)
    requires
        !c.contains('/'),
    ensures
        split_slash(x + c) == split_slash(x).update(
            split_slash(x).len() - 1,
            split_slash(x).last() + c,
        ),
    decreases c.len(),
{
    lemma_split_nonempty(x);
    let sx = split_slash(x);
    if c.len() == 0 {
        assert(x + c =~= x);
        assert(sx.last() + c =~= sx.last());
        assert(sx.update(sx.len() - 1, sx.last()) =~= sx);
    } else {
        let ci = c.drop_last();
        assert(!ci.contains('/')) by {
            if ci.contains('/') {
                let k = choose|k: int| 0 <= k < ci.len() && ci[k] == '/';
                assert(c[k] == '/');
            }
        }
        lemma_split_append(x, ci);
        assert((x + c).drop_last() =~= x + ci);
        assert(c.last() != '/') by {
            assert(c[c.len() - 1] == c.last());
        }
        let prev = sx.update(sx.len() - 1, sx.last() + ci);
        assert(split_slash(x + c) == prev.update(prev.len() - 1, prev.last().push(c.last())));
        assert(prev.last().push(c.last()) =~= sx.last() + c);
        assert(prev.update(prev.len() - 1, prev.last().push(c.last())) =~= sx.update(
            sx.len() - 1,
            sx.last() + c,
        ));
    }
}

proof fn lemma_joined_tail(cs: Seq<Seq<char>>)
    requires
        cs.len() > 0,
        all_names(cs),
    ensures
        joined(cs).len() > 0,
        joined(cs).last() == cs.last().last(),
{
    assert(is_name(cs[cs.len() - 1]));
    if cs.len() > 1 {
        let j = joined(cs.drop_last()) + seq!['/'] + cs.last();
        assert(j[j.len() - 1] == cs.last()[cs.last().len() - 1]);
    }
}

proof fn lemma_split_joined(cs: Seq<Seq<char>>)
    requires
        cs.len() > 0,
        all_names(cs),
    ensures
        split_slash(joined(cs)) == cs,
    decreases cs.len(),
{
    assert(is_name(cs[cs.len() - 1]));
    if cs.len() == 1 {
        assert(split_slash(Seq::<char>::empty()) == seq![Seq::<char>::empty()]);
        lemma_split_append(Seq::empty(), cs[0]);
        assert(Seq::<char>::empty() + cs[0] =~= cs[0]);
        assert(seq![Seq::<char>::empty()].update(0, Seq::<char>::empty() + cs[0]) =~= cs);
    } else {
        let init = cs.drop_last();
        assert forall|i: int| 0 <= i < init.len() implies is_name(#[trigger] init[i]) by {
            assert(init[i] == cs[i]);
        }
        lemma_split_joined(init);
        let x = joined(init) + seq!['/'];
        assert(x.drop_last() =~= joined(init));
        assert(split_slash(x) == init.push(Seq::empty()));
        lemma_split_append(x, cs.last());
        assert(Seq::<char>::empty() + cs.last() =~= cs.last());
        assert(init.push(Seq::empty()).update(init.len() as int, cs.last()) =~= cs);
    }
}

proof fn lemma_resolve_identity(cs: Seq<Seq<char>>)
    requires
        all_names(cs),
    ensures
        resolve(Seq::empty(), cs) == cs,
    decreases cs.len(),
{
    if cs.len() > 0 {
        let init = cs.drop_last();
        assert forall|i: int| 0 <= i < init.len() implies is_name(#[trigger] init[i]) by {
            assert(init[i] == cs[i]);
        }
        lemma_resolve_identity(init);
        assert(is_name(cs[cs.len() - 1]));
        assert(cs.last() != seq!['.']);
        assert(cs.last() != seq!['.', '.']);
        assert(init.push(cs.last()) =~= cs);
    }
}

/// A list of names, written out and normalized again, is itself.
pub proof fn lemma_display_normalize(cs: Seq<Seq<char>>)
    requires
        all_names(cs),
    ensures
        normalize_spec(display(cs)) == Some(cs),
{
    let d = display(cs);
    assert(d[0] == '/');
    assert(d.drop_first() =~= joined(cs));
    if cs.len() == 0 {
        assert(joined(cs) =~= Seq::<char>::empty());
        assert(cs =~= Seq::<Seq<char>>::empty());
    } else {
        lemma_joined_tail(cs);
        assert(is_name(cs[cs.len() - 1]));
        assert(cs.last()[cs.last().len() - 1] != '/') by {
            assert(!cs.last().contains('/'));
        }
        assert(strip(d) == joined(cs));
        lemma_split_joined(cs);
        lemma_resolve_identity(cs);
        assert forall|i: int| 0 <= i < cs.len() implies (#[trigger] cs[i]).len() > 0 by {
            assert(is_name(cs[i]));
        }
    }
}

/// Normalization is idempotent: normalizing the written form of a
/// normalized path gives the same path.
pub proof fn lemma_normalize_idempotent(s: Seq<char>)
    requires
        normalize_spec(s) is Some,
    ensures
        normalize_spec(display(normalize_spec(s)->0)) == normalize_spec(s),
{
    lemma_normalize_names(s);
    lemma_display_normalize(normalize_spec(s)->0);
}

} // verus!
