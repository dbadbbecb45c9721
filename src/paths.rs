//! Workspace-rooted paths, held as sequences of components.
use vstd::prelude::*;

verus! {

/// The state reached after reading `s` from the left: the components that
/// are complete, and the one still being read.
pub open spec fn split_state(s: Seq<char>) -> (Seq<Seq<char>>, Seq<char>)
    decreases s.len(),
{
    if s.len() == 0 {
        (Seq::empty(), Seq::empty())
    } else {
        let (done, cur) = split_state(s.drop_last());
        if s.last() == '/' {
            if cur.len() > 0 {
                (done.push(cur), Seq::empty())
            } else {
                (done, Seq::empty())
            }
        } else {
            (done, cur.push(s.last()))
        }
    }
}

/// The non-empty `/`-separated components of a path string.
pub open spec fn split_path(s: Seq<char>) -> Seq<Seq<char>> {
    let (done, cur) = split_state(s);
    if cur.len() > 0 {
        done.push(cur)
    } else {
        done
    }
}

/// Splits a path string into its non-empty components.
pub fn split_components(s: &str) -> (r: Vec<String>)
    ensures
        r.deep_view() == split_path(s@),
{
    let n = s.unicode_len();
    let mut done: Vec<String> = Vec::new();
    let mut start: usize = 0;
    let mut i: usize = 0;
    while i < n
        invariant
            n == s@.len(),
            start <= i <= n,
            done.deep_view() == split_state(s@.take(i as int)).0,
            s@.subrange(start as int, i as int) == split_state(s@.take(i as int)).1,
        decreases n - i,
    {
        let c = s.get_char(i);
        assert(s@.take(i as int + 1).drop_last() == s@.take(i as int));
        if c == '/' {
            if start < i {
                let part = s.substring_char(start, i);
                done.push(part.to_owned());
                proof {
                    assert(done.deep_view() == split_state(s@.take(i as int + 1)).0);
                }
            }
            start = i + 1;
        } else {
            assert(s@.subrange(start as int, i as int + 1) == s@.subrange(start as int, i as int).push(c));
        }
        i = i + 1;
    }
    assert(s@.take(n as int) == s@);
    if start < n {
        let part = s.substring_char(start, n);
        done.push(part.to_owned());
    }
    done
}


/// Resolves `.` and `..` components; `..` at the top stays at the top.
pub open spec fn normalize(cs: Seq<Seq<char>>) -> Seq<Seq<char>>
    decreases cs.len(),
{
    if cs.len() == 0 {
        Seq::empty()
    } else {
        let prev = normalize(cs.drop_last());
        let c = cs.last();
        if c == seq!['.'] {
            prev
        } else if c == seq!['.', '.'] {
            if prev.len() > 0 {
                prev.drop_last()
            } else {
                prev
            }
        } else {
            prev.push(c)
        }
    }
}

/// Whether a path string starts at the filesystem root.
pub open spec fn is_absolute(s: Seq<char>) -> bool {
    s.len() > 0 && s[0] == '/'
}

/// The components that `rel` resolves to when read against `base`, where
/// an absolute `rel` restarts from `root`.
pub open spec fn resolve(root: Seq<Seq<char>>, base: Seq<Seq<char>>, rel: Seq<char>) -> Seq<
    Seq<char>,
> {
    if is_absolute(rel) {
        normalize(root + split_path(rel))
    } else {
        normalize(root + base + split_path(rel))
    }
}

/// The path string of a component sequence, joined by `/`.
pub open spec fn join_spec(cs: Seq<Seq<char>>) -> Seq<char>
    decreases cs.len(),
{
    if cs.len() == 0 {
        Seq::empty()
    } else if cs.len() == 1 {
        cs[0]
    } else {
        join_spec(cs.drop_last()) + seq!['/'] + cs.last()
    }
}

/// Joins components with `/`.
pub fn join_components(cs: &Vec<String>) -> (r: String)
    ensures
        r@ == join_spec(cs.deep_view()),
{
    let mut r = String::new();
    let mut i: usize = 0;
    while i < cs.len()
        invariant
            i <= cs.len(),
            r@ == join_spec(cs.deep_view().take(i as int)),
        decreases cs.len() - i,
    {
        assert(cs.deep_view().take(i as int + 1).drop_last() == cs.deep_view().take(i as int));
        if i > 0 {
            r.append("/");
            proof {
                reveal_strlit("/");
            }
        }
        r.append(cs[i].as_str());
        i = i + 1;
    }
    assert(cs.deep_view().take(cs.len() as int) == cs.deep_view());
    r
}

/// Appends a string to a list, keeping the list's view in step.
pub fn push_text(v: &mut Vec<String>, s: String)
    ensures
        final(v).deep_view() == old(v).deep_view().push(s@),
{
    let ghost before = v.deep_view();
    v.push(s);
    proof {
        assert(v.deep_view() =~= before.push(s@)) by {
            assert forall|k: int| 0 <= k < v.len() implies v.deep_view()[k]
                == before.push(s@)[k] by {
                if k < v.len() - 1 {
                    assert(v@[k] == old(v)@[k]);
                }
            }
        }
    }
}

/// Whether two strings hold the same characters.
pub fn same_text(a: &String, b: &String) -> (r: bool)
    ensures
        r == (a@ == b@),
{
    a.eq(b)
}

/// Whether two component lists are equal.
pub fn same_components(a: &Vec<String>, b: &Vec<String>) -> (r: bool)
    ensures
        r == (a.deep_view() == b.deep_view()),
{
    if a.len() != b.len() {
        assert(a.deep_view().len() != b.deep_view().len());
        return false;
    }
    let mut i: usize = 0;
    while i < a.len()
        invariant
            a.len() == b.len(),
            i <= a.len(),
            forall|j: int| 0 <= j < i ==> a.deep_view()[j] == b.deep_view()[j],
        decreases a.len() - i,
    {
        if !same_text(&a[i], &b[i]) {
            assert(a.deep_view()[i as int] != b.deep_view()[i as int]);
            return false;
        }
        i = i + 1;
    }
    assert(a.deep_view() =~= b.deep_view());
    true
}

/// Whether `p` is a component-wise prefix of `q`.
pub fn components_prefix(p: &Vec<String>, q: &Vec<String>) -> (r: bool)
    ensures
        r == (p.deep_view().len() <= q.deep_view().len() && q.deep_view().take(
            p.deep_view().len() as int,
        ) == p.deep_view()),
{
    if p.len() > q.len() {
        return false;
    }
    let mut i: usize = 0;
    while i < p.len()
        invariant
            p.len() <= q.len(),
            i <= p.len(),
            forall|j: int| 0 <= j < i ==> p.deep_view()[j] == q.deep_view()[j],
        decreases p.len() - i,
    {
        if !same_text(&p[i], &q[i]) {
            assert(q.deep_view().take(p.len() as int)[i as int] != p.deep_view()[i as int]);
            return false;
        }
        i = i + 1;
    }
    assert(q.deep_view().take(p.deep_view().len() as int) =~= p.deep_view());
    true
}

fn is_dot(c: &String) -> (r: bool)
    ensures
        r == (c@ == seq!['.']),
{
    let s = c.as_str();
    if s.unicode_len() == 1 {
        let r = s.get_char(0) == '.';
        assert(r ==> s@ =~= seq!['.']);
        r
    } else {
        false
    }
}

fn is_dot_dot(c: &String) -> (r: bool)
    ensures
        r == (c@ == seq!['.', '.']),
{
    let s = c.as_str();
    if s.unicode_len() == 2 {
        let r = s.get_char(0) == '.' && s.get_char(1) == '.';
        assert(r ==> s@ =~= seq!['.', '.']);
        r
    } else {
        false
    }
}

/// Resolves `.` and `..` in a component list.
pub fn normalize_components(cs: &Vec<String>) -> (r: Vec<String>)
    ensures
        r.deep_view() == normalize(cs.deep_view()),
{
    let mut r: Vec<String> = Vec::new();
    let mut i: usize = 0;
    while i < cs.len()
        invariant
            i <= cs.len(),
            r.deep_view() == normalize(cs.deep_view().take(i as int)),
        decreases cs.len() - i,
    {
        assert(cs.deep_view().take(i as int + 1).drop_last() == cs.deep_view().take(i as int));
        if is_dot(&cs[i]) {
        } else if is_dot_dot(&cs[i]) {
            if r.len() > 0 {
                r.pop();
                assert(r.deep_view() =~= normalize(cs.deep_view().take(i as int + 1)));
            }
        } else {
            push_text(&mut r, cs[i].clone());
            assert(r.deep_view() =~= normalize(cs.deep_view().take(i as int + 1)));
        }
        i = i + 1;
    }
    assert(cs.deep_view().take(cs.len() as int) == cs.deep_view());
    r
}

fn concat_components(a: &Vec<String>, b: &Vec<String>) -> (r: Vec<String>)
    ensures
        r.deep_view() == a.deep_view() + b.deep_view(),
{
    let mut r: Vec<String> = Vec::new();
    let mut i: usize = 0;
    while i < a.len()
        invariant
            i <= a.len(),
            r.deep_view() == a.deep_view().take(i as int),
        decreases a.len() - i,
    {
        push_text(&mut r, a[i].clone());
        assert(r.deep_view() =~= a.deep_view().take(i as int + 1));
        i = i + 1;
    }
    let mut j: usize = 0;
    while j < b.len()
        invariant
            i == a.len(),
            j <= b.len(),
            r.deep_view() == a.deep_view() + b.deep_view().take(j as int),
        decreases b.len() - j,
    {
        push_text(&mut r, b[j].clone());
        assert(r.deep_view() =~= a.deep_view() + b.deep_view().take(j as int + 1));
        j = j + 1;
    }
    assert(b.deep_view().take(b.len() as int) =~= b.deep_view());
    assert(a.deep_view().take(a.len() as int) =~= a.deep_view());
    r
}

/// A copy of a component list.
pub fn clone_components(a: &Vec<String>) -> (r: Vec<String>)
    ensures
        r.deep_view() == a.deep_view(),
{
    drop_components(a, 0)
}

fn drop_components(a: &Vec<String>, n: usize) -> (r: Vec<String>)
    requires
        n <= a.len(),
    ensures
        r.deep_view() == a.deep_view().skip(n as int),
{
    let mut r: Vec<String> = Vec::new();
    let mut i: usize = n;
    while i < a.len()
        invariant
            n <= i <= a.len(),
            r.deep_view() == a.deep_view().subrange(n as int, i as int),
        decreases a.len() - i,
    {
        push_text(&mut r, a[i].clone());
        assert(r.deep_view() =~= a.deep_view().subrange(n as int, i as int + 1));
        i = i + 1;
    }
    assert(a.deep_view().subrange(n as int, a.len() as int) =~= a.deep_view().skip(n as int));
    r
}

/// Why a path was refused.
#[derive(Debug, Clone, PartialEq, Eq)]
pub enum PathError {
    FileNotFound(String),
    PermissionDenied(String),
    OtherIo(String),
    PathNotInWorkspace(String),
}

/// The absolute directory that holds the workspace; its text always ends
/// with a separator.
#[derive(Debug, Clone, PartialEq, Eq, Hash, PartialOrd, Ord)]
pub struct WorkspaceRoot {
    pub path: String,
}

impl View for WorkspaceRoot {
    type V = Seq<Seq<char>>;

    open spec fn view(&self) -> Seq<Seq<char>> {
        split_path(self.path@)
    }
}

impl WorkspaceRoot {
    /// The root's text, ending with `/`.
    pub open spec fn text(&self) -> Seq<char> {
        self.path@
    }

    pub fn new(path: &str) -> (r: WorkspaceRoot)
        ensures
            path@.len() > 0 && path@.last() == '/' ==> r.text() == path@,
            !(path@.len() > 0 && path@.last() == '/') ==> r.text() == path@ + seq!['/'],
    {
        let n = path.unicode_len();
        let mut s = path.to_owned();
        if n == 0 || path.get_char(n - 1) != '/' {
            s.append("/");
            proof {
                reveal_strlit("/");
            }
        }
        WorkspaceRoot { path: s }
    }

    /// A copy of this root.
    pub fn duplicate(&self) -> (r: WorkspaceRoot)
        ensures
            r == *self,
    {
        WorkspaceRoot { path: self.path.clone() }
    }

    /// The root's text, ending with `/`.
    pub fn as_str(&self) -> (r: &str)
        ensures
            r@ == self.text(),
    {
        self.path.as_str()
    }

    pub fn components(&self) -> (r: Vec<String>)
        ensures
            r.deep_view() == self@,
    {
        split_components(self.path.as_str())
    }

    /// A path below the root; a leading `/` is read from the root too.
    pub fn subpath(&self, path: &str) -> (r: Result<RelativePath, PathError>)
        ensures
            match r {
                Ok(p) => p.root == *self && self@ + p@ == resolve(self@, Seq::empty(), path@),
                Err(e) => e is PathNotInWorkspace && e->PathNotInWorkspace_0@
                    == absolute_spec(resolve(self@, Seq::empty(), path@)),
            },
            r is Ok <==> is_prefix(self@, resolve(self@, Seq::empty(), path@)),
    {
        resolve_below(self, &Vec::new(), path)
    }

    /// The path that a canonical absolute path names below this root.
    pub fn normalise_absolute(&self, canonical: &str) -> (r: Result<ValidPath, PathError>)
        ensures
            match r {
                Ok(p) => p.root == *self && self@ + p@ == split_path(canonical@),
                Err(e) => e is PathNotInWorkspace && e->PathNotInWorkspace_0@ == canonical@,
            },
            r is Ok <==> is_prefix(self@, split_path(canonical@)),
    {
        let root = self.components();
        let full = split_components(canonical);
        if !components_prefix(&root, &full) {
            return Err(PathError::PathNotInWorkspace(canonical.to_owned()));
        }
        let sub = drop_components(&full, root.len());
        proof {
            assert(root.deep_view() + sub.deep_view() =~= full.deep_view());
        }
        Ok(ValidPath { root: self.duplicate(), subpath: sub })
    }
}

/// The text of an absolute path with these components.
pub open spec fn absolute_spec(cs: Seq<Seq<char>>) -> Seq<char> {
    seq!['/'] + join_spec(cs)
}

/// Whether `p` is a component-wise prefix of `q`.
pub open spec fn is_prefix(p: Seq<Seq<char>>, q: Seq<Seq<char>>) -> bool {
    p.len() <= q.len() && q.take(p.len() as int) == p
}

fn absolute_text(cs: &Vec<String>) -> (r: String)
    ensures
        r@ == seq!['/'] + join_spec(cs.deep_view()),
{
    let mut s = String::from_str("/");
    proof {
        reveal_strlit("/");
    }
    let j = join_components(cs);
    s.append(j.as_str());
    s
}

fn resolve_below(root: &WorkspaceRoot, sub: &Vec<String>, rel: &str) -> (r: Result<
    RelativePath,
    PathError,
>)
    ensures
        match r {
            Ok(p) => p.root == *root && root@ + p@ == resolve(root@, sub.deep_view(), rel@),
            Err(e) => e is PathNotInWorkspace && e->PathNotInWorkspace_0@ == absolute_spec(
                resolve(root@, sub.deep_view(), rel@),
            ),
        },
        r is Ok <==> is_prefix(root@, resolve(root@, sub.deep_view(), rel@)),
{
    let root_cs = root.components();
    let rel_cs = split_components(rel);
    let absolute = rel.unicode_len() > 0 && rel.get_char(0) == '/';
    let joined = if absolute {
        concat_components(&root_cs, &rel_cs)
    } else {
        let base = concat_components(&root_cs, sub);
        proof {
            assert(base.deep_view() + rel_cs.deep_view() =~= root_cs.deep_view()
                + sub.deep_view() + rel_cs.deep_view());
        }
        concat_components(&base, &rel_cs)
    };
    let full = normalize_components(&joined);
    if !components_prefix(&root_cs, &full) {
        return Err(PathError::PathNotInWorkspace(absolute_text(&full)));
    }
    let rest = drop_components(&full, root_cs.len());
    proof {
        assert(root_cs.deep_view() + rest.deep_view() =~= full.deep_view());
    }
    Ok(RelativePath { root: root.duplicate(), subpath: rest })
}

/// A normalised path below the workspace root, not yet checked against the
/// filesystem.
#[derive(Debug, Clone, PartialEq, Eq, Hash, PartialOrd, Ord)]
pub struct RelativePath {
    pub root: WorkspaceRoot,
    pub subpath: Vec<String>,
}

impl View for RelativePath {
    type V = Seq<Seq<char>>;

    open spec fn view(&self) -> Seq<Seq<char>> {
        self.subpath.deep_view()
    }
}

impl RelativePath {
    /// Joins `relative` onto this path; a leading `/` restarts from the root.
    pub fn join(&self, relative: &str) -> (r: Result<RelativePath, PathError>)
        ensures
            match r {
                Ok(p) => p.root == self.root && self.root@ + p@ == resolve(
                    self.root@,
                    self@,
                    relative@,
                ),
                Err(e) => e is PathNotInWorkspace && e->PathNotInWorkspace_0@ == absolute_spec(
                    resolve(self.root@, self@, relative@),
                ),
            },
            r is Ok <==> is_prefix(self.root@, resolve(self.root@, self@, relative@)),
    {
        resolve_below(&self.root, &self.subpath, relative)
    }

    /// The subpath's text.
    pub fn subpath(&self) -> (r: String)
        ensures
            r@ == join_spec(self@),
    {
        join_components(&self.subpath)
    }

    /// The absolute path's text.
    pub fn to_absolute(&self) -> (r: String)
        ensures
            r@ == seq!['/'] + join_spec(self.root@ + self@),
    {
        let root_cs = self.root.components();
        let all = concat_components(&root_cs, &self.subpath);
        absolute_text(&all)
    }

    /// Accepts this path once the filesystem has given its canonical form
    /// (symlinks followed); refuses it where that form leaves the root.
    pub fn validate(self, canonical: &str) -> (r: Result<ValidPath, PathError>)
        ensures
            match r {
                Ok(p) => p.root == self.root && self.root@ + p@ == split_path(canonical@),
                Err(e) => e is PathNotInWorkspace && e->PathNotInWorkspace_0@ == canonical@,
            },
            r is Ok <==> is_prefix(self.root@, split_path(canonical@)),
    {
        self.root.normalise_absolute(canonical)
    }
}

/// A path below the workspace root whose canonical form was checked to stay
/// inside it. Equality and order go by the subpath.
#[derive(Debug, Clone, Hash)]
pub struct ValidPath {
    pub root: WorkspaceRoot,
    pub subpath: Vec<String>,
}

impl View for ValidPath {
    type V = Seq<Seq<char>>;

    open spec fn view(&self) -> Seq<Seq<char>> {
        self.subpath.deep_view()
    }
}

impl ValidPath {
    /// The path for the root itself.
    pub fn for_root(root: WorkspaceRoot) -> (r: ValidPath)
        ensures
            r.root == root,
            r@ == Seq::<Seq<char>>::empty(),
    {
        ValidPath { root, subpath: Vec::new() }
    }

    /// The absolute path's text.
    pub fn full_path(&self) -> (r: String)
        ensures
            r@ == seq!['/'] + join_spec(self.root@ + self@),
    {
        let root_cs = self.root.components();
        let all = concat_components(&root_cs, &self.subpath);
        absolute_text(&all)
    }

    /// The subpath's text.
    pub fn as_subpath(&self) -> (r: String)
        ensures
            r@ == join_spec(self@),
    {
        join_components(&self.subpath)
    }

    /// The components below the root.
    pub fn components(&self) -> (r: &Vec<String>)
        ensures
            r.deep_view() == self@,
    {
        &self.subpath
    }

    /// The enclosing directory; none for the root itself.
    pub fn parent(&self) -> (r: Option<ValidPath>)
        ensures
            self@.len() == 0 <==> r is None,
            r matches Some(p) ==> p.root == self.root && p@ == self@.drop_last(),
    {
        if self.subpath.len() == 0 {
            return None;
        }
        let mut sub = clone_components(&self.subpath);
        sub.pop();
        proof {
            assert(sub.deep_view() =~= self.subpath.deep_view().drop_last());
        }
        Some(ValidPath { root: self.root.duplicate(), subpath: sub })
    }

    /// Joins `relative` onto this path; a leading `/` restarts from the root.
    pub fn join(&self, relative: &str) -> (r: Result<RelativePath, PathError>)
        ensures
            match r {
                Ok(p) => p.root == self.root && self.root@ + p@ == resolve(
                    self.root@,
                    self@,
                    relative@,
                ),
                Err(e) => e is PathNotInWorkspace && e->PathNotInWorkspace_0@ == absolute_spec(
                    resolve(self.root@, self@, relative@),
                ),
            },
            r is Ok <==> is_prefix(self.root@, resolve(self.root@, self@, relative@)),
    {
        resolve_below(&self.root, &self.subpath, relative)
    }

    /// A copy of this path.
    pub fn duplicate(&self) -> (r: ValidPath)
        ensures
            r.root == self.root,
            r@ == self@,
    {
        ValidPath { root: self.root.duplicate(), subpath: clone_components(&self.subpath) }
    }

    /// Whether both name the same place (the subpath decides).
    pub fn same_as(&self, other: &ValidPath) -> (r: bool)
        ensures
            r == (self@ == other@),
    {
        same_components(&self.subpath, &other.subpath)
    }

    /// Whether this path lies at or below `other`, component-wise.
    pub fn starts_with(&self, other: &ValidPath) -> (r: bool)
        ensures
            r == is_prefix(other@, self@),
    {
        components_prefix(&other.subpath, &self.subpath)
    }
}

} // verus!
