//! Input hashing: which files count as a task's inputs, in which order,
//! and the digest over them.
use vstd::prelude::*;

use crate::paths::{is_prefix, join_components, join_spec};

verus! {

/// A 32-byte digest.
#[derive(Debug, Clone, Copy)]
pub struct Hash(pub [u8; 32]);

impl Hash {
    pub open spec fn bytes(&self) -> Seq<u8> {
        self.0@
    }

    /// Byte-wise equality.
    pub fn same(&self, other: &Hash) -> (r: bool)
        ensures
            r == (self.bytes() == other.bytes()),
    {
        let mut i: usize = 0;
        while i < 32
            invariant
                i <= 32,
                self.0@.len() == 32,
                other.0@.len() == 32,
                forall|k: int| 0 <= k < i ==> self.0@[k] == other.0@[k],
            decreases 32 - i,
        {
            if self.0[i] != other.0[i] {
                return false;
            }
            i = i + 1;
        }
        assert(self.0@ =~= other.0@);
        true
    }
}

/// The stored hashes of a task.
#[derive(Debug, Clone, Copy)]
pub struct TaskHashes {
    pub inputs: Option<Hash>,
    pub outputs: Option<Hash>,
}

/// The blake3 digest of `data`.
pub uninterp spec fn blake3_of(data: Seq<u8>) -> Seq<u8>;

/// Whether every one of `patterns` is a glob that globset accepts.
pub uninterp spec fn glob_set_builds(patterns: Seq<Seq<char>>) -> bool;

/// Whether `path` matches one of the glob `patterns`, as globset reads them.
pub uninterp spec fn glob_set_matches(patterns: Seq<Seq<char>>, path: Seq<char>) -> bool;

/// Relies on blake3's `hash`: the 32-byte digest of the input.
#[verifier::external_body]
fn blake3_digest(data: &[u8]) -> (r: Hash)
    ensures
        r.bytes() == blake3_of(data@),
{
    Hash(*blake3::hash(data).as_bytes())
}

/// Relies on globset's `Glob::new`, `GlobSetBuilder` and `GlobSet::is_match`:
/// none when a pattern is not a valid glob, else whether `path` matches one.
#[verifier::external_body]
fn globs_match(patterns: &Vec<String>, path: &str) -> (r: Option<bool>)
    ensures
        r is None <==> !glob_set_builds(patterns.deep_view()),
        r matches Some(b) ==> b == glob_set_matches(patterns.deep_view(), path@),
{
    let mut builder = globset::GlobSetBuilder::new();
    for p in patterns.iter() {
        match globset::Glob::new(p) {
            Ok(g) => {
                builder.add(g);
            },
            Err(_) => return None,
        }
    }
    builder.build().ok().map(|set| set.is_match(path))
}

/// The digest of a file's contents.
pub fn hash_contents(data: &[u8]) -> (r: Hash)
    ensures
        r.bytes() == blake3_of(data@),
{
    blake3_digest(data)
}

/// A file below a project root, by its components, and its digest.
#[derive(Debug)]
pub struct InputFile {
    pub path: Vec<String>,
    pub digest: Hash,
}

impl InputFile {
    pub open spec fn key(&self) -> Seq<char> {
        join_spec(self.path.deep_view())
    }

    pub open spec fn entry(&self) -> (Seq<char>, Seq<u8>) {
        (self.key(), self.digest.bytes())
    }
}

/// Strict code-point order on strings.
pub open spec fn text_lt(a: Seq<char>, b: Seq<char>) -> bool
    decreases a.len(),
{
    if a.len() == 0 {
        b.len() > 0
    } else if b.len() == 0 {
        false
    } else if a[0] != b[0] {
        a[0] < b[0]
    } else {
        text_lt(a.drop_first(), b.drop_first())
    }
}

proof fn lemma_lt_irreflexive(a: Seq<char>)
    ensures
        !text_lt(a, a),
    decreases a.len(),
{
    if a.len() > 0 {
        lemma_lt_irreflexive(a.drop_first());
    }
}

proof fn lemma_lt_transitive(a: Seq<char>, b: Seq<char>, c: Seq<char>)
    requires
        text_lt(a, b),
        text_lt(b, c),
    ensures
        text_lt(a, c),
    decreases a.len(),
{
    if a.len() > 0 && b.len() > 0 && c.len() > 0 && a[0] == b[0] && b[0] == c[0] {
        lemma_lt_transitive(a.drop_first(), b.drop_first(), c.drop_first());
    }
}

proof fn lemma_lt_total(a: Seq<char>, b: Seq<char>)
    ensures
        a == b || text_lt(a, b) || text_lt(b, a),
    decreases a.len(),
{
    if a.len() > 0 && b.len() > 0 {
        if a[0] == b[0] {
            lemma_lt_total(a.drop_first(), b.drop_first());
            if a.drop_first() == b.drop_first() {
                assert(a =~= seq![a[0]] + a.drop_first());
                assert(b =~= seq![b[0]] + b.drop_first());
            }
        }
    } else if a.len() == 0 && b.len() == 0 {
        assert(a =~= b);
    }
}

proof fn lemma_lt_asymmetric(a: Seq<char>, b: Seq<char>)
    requires
        text_lt(a, b),
    ensures
        !text_lt(b, a),
{
    if text_lt(b, a) {
        lemma_lt_transitive(a, b, a);
        lemma_lt_irreflexive(a);
    }
}

/// `s` is sorted by key, each key once.
pub open spec fn strictly_sorted(s: Seq<(Seq<char>, Seq<u8>)>) -> bool {
    forall|i: int, j: int| 0 <= i < j < s.len() ==> text_lt(s[i].0, s[j].0)
}

/// The views of a list of input files.
pub open spec fn entries(v: Seq<InputFile>) -> Seq<(Seq<char>, Seq<u8>)> {
    v.map_values(|f: InputFile| f.entry())
}

/// Each key occurs once.
pub open spec fn keys_unique(s: Seq<(Seq<char>, Seq<u8>)>) -> bool {
    forall|i: int, j: int| 0 <= i < s.len() && 0 <= j < s.len() && i != j ==> s[i].0 != s[j].0
}

/// Two strictly sorted lists with the same elements are the same list.
pub proof fn lemma_sorted_unique(a: Seq<(Seq<char>, Seq<u8>)>, b: Seq<(Seq<char>, Seq<u8>)>)
    requires
        strictly_sorted(a),
        strictly_sorted(b),
        a.to_set() == b.to_set(),
    ensures
        a == b,
    decreases a.len(),
{
    if a.len() == 0 {
        if b.len() > 0 {
            assert(b.to_set().contains(b[0]));
        }
        assert(a =~= b);
    } else if b.len() == 0 {
        assert(a.to_set().contains(a[0]));
    } else {
        assert(a.to_set().contains(a[0]));
        assert(b.to_set().contains(b[0]));
        let ia = choose|i: int| 0 <= i < b.len() && b[i] == a[0];
        let ib = choose|i: int| 0 <= i < a.len() && a[i] == b[0];
        if ia > 0 {
            assert(text_lt(b[0].0, b[ia].0));
            if ib > 0 {
                assert(text_lt(a[0].0, a[ib].0));
                lemma_lt_asymmetric(b[0].0, a[0].0);
            } else {
                lemma_lt_irreflexive(b[0].0);
            }
        }
        assert(a[0] == b[0]);
        let a1 = a.drop_first();
        let b1 = b.drop_first();
        assert forall|x: (Seq<char>, Seq<u8>)| a1.to_set().contains(x) implies b1.to_set().contains(x) by {
            let k = choose|k: int| 0 <= k < a1.len() && a1[k] == x;
            assert(a.to_set().contains(x));
            let m = choose|m: int| 0 <= m < b.len() && b[m] == x;
            assert(text_lt(a[0].0, a[k + 1].0));
            if m == 0 {
                lemma_lt_irreflexive(a[0].0);
            }
            assert(b1[m - 1] == x);
        }
        assert forall|x: (Seq<char>, Seq<u8>)| b1.to_set().contains(x) implies a1.to_set().contains(x) by {
            let k = choose|k: int| 0 <= k < b1.len() && b1[k] == x;
            assert(b.to_set().contains(x));
            let m = choose|m: int| 0 <= m < a.len() && a[m] == x;
            assert(text_lt(b[0].0, b[k + 1].0));
            if m == 0 {
                lemma_lt_irreflexive(b[0].0);
            }
            assert(a1[m - 1] == x);
        }
        assert(a1.to_set() =~= b1.to_set());
        lemma_sorted_unique(a1, b1);
        assert(a =~= seq![a[0]] + a1);
        assert(b =~= seq![b[0]] + b1);
    }
}

/// Compares two strings in code-point order.
pub fn text_less(a: &String, b: &String) -> (r: bool)
    ensures
        r == text_lt(a@, b@),
{
    let sa = a.as_str();
    let sb = b.as_str();
    let na = sa.unicode_len();
    let nb = sb.unicode_len();
    let mut i: usize = 0;
    proof {
        assert(a@.skip(0) =~= a@);
        assert(b@.skip(0) =~= b@);
    }
    while i < na && i < nb
        invariant
            sa@ == a@,
            sb@ == b@,
            i <= na,
            i <= nb,
            na == a@.len(),
            nb == b@.len(),
            text_lt(a@, b@) == text_lt(a@.skip(i as int), b@.skip(i as int)),
        decreases na - i,
    {
        let ca = sa.get_char(i);
        let cb = sb.get_char(i);
        assert(a@.skip(i as int)[0] == ca && b@.skip(i as int)[0] == cb);
        if ca != cb {
            return ca < cb;
        }
        assert(a@.skip(i as int).drop_first() =~= a@.skip(i as int + 1));
        assert(b@.skip(i as int).drop_first() =~= b@.skip(i as int + 1));
        i = i + 1;
    }
    i == na && i < nb
}

/// Inserts `(key, f)` into a list sorted by key, unless the key is there.
fn insert_sorted(v: &mut Vec<(String, Hash)>, key: String, digest: Hash) -> (r: bool)
    requires
        strictly_sorted(pairs(old(v)@)),
    ensures
        strictly_sorted(pairs(final(v)@)),
        r == !(exists|i: int| 0 <= i < pairs(old(v)@).len() && pairs(old(v)@)[i].0 == key@),
        !r ==> pairs(final(v)@) == pairs(old(v)@),
        r ==> pairs(final(v)@).to_set() == pairs(old(v)@).to_set().insert((key@, digest.bytes())),
{
    let ghost old_pairs = pairs(v@);
    let mut p: usize = 0;
    while p < v.len() && text_less(&v[p].0, &key)
        invariant
            p <= v.len(),
            v@ == old(v)@,
            forall|k: int| 0 <= k < p ==> text_lt(pairs(v@)[k].0, key@),
        decreases v.len() - p,
    {
        p = p + 1;
    }
    if p < v.len() && same_key(&v[p].0, &key) {
        assert(pairs(v@)[p as int].0 == key@);
        return false;
    }
    proof {
        if p < v.len() {
            lemma_lt_total(pairs(v@)[p as int].0, key@);
        }
        assert forall|q: int| p <= q < old_pairs.len() implies text_lt(key@, old_pairs[q].0) by {
            lemma_lt_total(old_pairs[p as int].0, key@);
            if q > p {
                assert(text_lt(old_pairs[p as int].0, old_pairs[q].0));
                lemma_lt_transitive(key@, old_pairs[p as int].0, old_pairs[q].0);
            }
        }
        assert forall|i: int| 0 <= i < old_pairs.len() implies old_pairs[i].0 != key@ by {
            if i < p {
                lemma_lt_irreflexive(key@);
            } else if i > p {
                assert(text_lt(old_pairs[p as int].0, old_pairs[i].0));
                lemma_lt_transitive(key@, old_pairs[p as int].0, old_pairs[i].0);
                lemma_lt_irreflexive(key@);
            }
        }
    }
    v.insert(p, (key, digest));
    proof {
        let e = (key@, digest.bytes());
        assert(pairs(v@) =~= old_pairs.insert(p as int, e));
        assert forall|i: int, j: int| 0 <= i < j < pairs(v@).len() implies text_lt(
            pairs(v@)[i].0,
            pairs(v@)[j].0,
        ) by {
            if j == p as int {
            } else if i == p as int {
                assert(pairs(v@)[j] == old_pairs[j - 1]);
                if j - 1 > p {
                    assert(text_lt(old_pairs[p as int].0, old_pairs[j - 1].0));
                    lemma_lt_transitive(key@, old_pairs[p as int].0, old_pairs[j - 1].0);
                }
            } else if i < p && j > p {
                assert(pairs(v@)[j] == old_pairs[j - 1]);
                lemma_lt_transitive(old_pairs[i].0, key@, pairs(v@)[j].0);
            }
        }
        assert(pairs(v@).to_set() =~= old_pairs.to_set().insert(e)) by {
            assert forall|x: (Seq<char>, Seq<u8>)| pairs(v@).to_set().contains(x) implies old_pairs.to_set().insert(e).contains(x) by {
                let k = choose|k: int| 0 <= k < pairs(v@).len() && pairs(v@)[k] == x;
                if k < p {
                    assert(old_pairs[k] == x);
                } else if k > p {
                    assert(old_pairs[k - 1] == x);
                }
            }
            assert forall|x: (Seq<char>, Seq<u8>)| old_pairs.to_set().insert(e).contains(x) implies pairs(v@).to_set().contains(x) by {
                if x == e {
                    assert(pairs(v@)[p as int] == x);
                } else {
                    let k = choose|k: int| 0 <= k < old_pairs.len() && old_pairs[k] == x;
                    if k < p {
                        assert(pairs(v@)[k] == x);
                    } else {
                        assert(pairs(v@)[k + 1] == x);
                    }
                }
            }
        }
    }
    true
}

fn same_key(a: &String, b: &String) -> (r: bool)
    ensures
        r == (a@ == b@),
{
    crate::paths::same_text(a, b)
}

/// The views of a list of keyed digests.
pub open spec fn pairs(v: Seq<(String, Hash)>) -> Seq<(Seq<char>, Seq<u8>)> {
    v.map_values(|p: (String, Hash)| (p.0@, p.1.bytes()))
}

/// `path` lies at or below one of `exclusions`.
pub open spec fn excluded(exclusions: Seq<Seq<Seq<char>>>, path: Seq<Seq<char>>) -> bool {
    exists|k: int| 0 <= k < exclusions.len() && is_prefix(#[trigger] exclusions[k], path)
}

/// Two input files share a path.
pub open spec fn repeats_input(
    globs: Seq<Seq<char>>,
    exclusions: Seq<Seq<Seq<char>>>,
    files: Seq<InputFile>,
) -> bool {
    exists|i: int, j: int|
        0 <= j < i < files.len() && is_input(globs, exclusions, files[i]) && is_input(
            globs,
            exclusions,
            files[j],
        ) && #[trigger] files[i].key() == #[trigger] files[j].key()
}

/// The file counts as an input: it matches a glob and no exclusion covers it.
pub open spec fn is_input(
    globs: Seq<Seq<char>>,
    exclusions: Seq<Seq<Seq<char>>>,
    f: InputFile,
) -> bool {
    glob_set_matches(globs, f.key()) && !excluded(exclusions, f.path.deep_view())
}

/// The entries of the input files among `files`.
pub open spec fn input_set(
    globs: Seq<Seq<char>>,
    exclusions: Seq<Seq<Seq<char>>>,
    files: Seq<InputFile>,
) -> Set<(Seq<char>, Seq<u8>)> {
    Set::new(
        |e: (Seq<char>, Seq<u8>)|
            exists|i: int| 0 <= i < files.len() && is_input(globs, exclusions, files[i]) && #[trigger] files[i].entry() == e,
    )
}

proof fn lemma_input_set_step(
    globs: Seq<Seq<char>>,
    exclusions: Seq<Seq<Seq<char>>>,
    files: Seq<InputFile>,
    i: int,
)
    requires
        0 <= i < files.len(),
    ensures
        input_set(globs, exclusions, files.take(i + 1)) == if is_input(globs, exclusions, files[i]) {
            input_set(globs, exclusions, files.take(i)).insert(files[i].entry())
        } else {
            input_set(globs, exclusions, files.take(i))
        },
{
    let a = files.take(i);
    let b = files.take(i + 1);
    let rhs = if is_input(globs, exclusions, files[i]) {
        input_set(globs, exclusions, a).insert(files[i].entry())
    } else {
        input_set(globs, exclusions, a)
    };
    assert forall|e: (Seq<char>, Seq<u8>)| input_set(globs, exclusions, b).contains(e) implies rhs.contains(e) by {
        let k = choose|k: int| 0 <= k < b.len() && is_input(globs, exclusions, b[k]) && #[trigger] b[k].entry() == e;
        if k < i {
            assert(a[k] == b[k]);
        }
    }
    assert forall|e: (Seq<char>, Seq<u8>)| rhs.contains(e) implies input_set(globs, exclusions, b).contains(e) by {
        if is_input(globs, exclusions, files[i]) && e == files[i].entry() {
            assert(b[i] == files[i]);
        } else {
            let k = choose|k: int| 0 <= k < a.len() && is_input(globs, exclusions, a[k]) && #[trigger] a[k].entry() == e;
            assert(b[k] == a[k]);
        }
    }
    assert(input_set(globs, exclusions, b) =~= rhs);
}

/// The digests of `s`, one after the other.
pub open spec fn concat_digests(s: Seq<(Seq<char>, Seq<u8>)>) -> Seq<u8>
    decreases s.len(),
{
    if s.len() == 0 {
        Seq::empty()
    } else {
        concat_digests(s.drop_last()) + s.last().1
    }
}

/// The input hash of a task whose inputs, sorted by path, are `sorted`.
pub open spec fn combined(sorted: Seq<(Seq<char>, Seq<u8>)>) -> Seq<u8> {
    blake3_of(concat_digests(sorted))
}

/// The input hash depends on the set of input files and their digests
/// alone: listings with the same input files, in any order, hash alike.
pub proof fn lemma_hash_deterministic(
    globs: Seq<Seq<char>>,
    exclusions: Seq<Seq<Seq<char>>>,
    files1: Seq<InputFile>,
    files2: Seq<InputFile>,
    sorted1: Seq<(Seq<char>, Seq<u8>)>,
    sorted2: Seq<(Seq<char>, Seq<u8>)>,
)
    requires
        input_set(globs, exclusions, files1) == input_set(globs, exclusions, files2),
        strictly_sorted(sorted1),
        sorted1.to_set() == input_set(globs, exclusions, files1),
        strictly_sorted(sorted2),
        sorted2.to_set() == input_set(globs, exclusions, files2),
    ensures
        combined(sorted1) == combined(sorted2),
{
    lemma_sorted_unique(sorted1, sorted2);
}

/// Adding a file that matches no input glob, or that an exclusion covers,
/// leaves the input hash as it was.
pub proof fn lemma_non_input_ignored(
    globs: Seq<Seq<char>>,
    exclusions: Seq<Seq<Seq<char>>>,
    files: Seq<InputFile>,
    extra: InputFile,
    pos: int,
    sorted1: Seq<(Seq<char>, Seq<u8>)>,
    sorted2: Seq<(Seq<char>, Seq<u8>)>,
)
    requires
        !glob_set_matches(globs, extra.key()) || excluded(exclusions, extra.path.deep_view()),
        0 <= pos <= files.len(),
        strictly_sorted(sorted1),
        sorted1.to_set() == input_set(globs, exclusions, files),
        strictly_sorted(sorted2),
        sorted2.to_set() == input_set(globs, exclusions, files.insert(pos, extra)),
    ensures
        combined(sorted1) == combined(sorted2),
{
    let more = files.insert(pos, extra);
    assert forall|e: (Seq<char>, Seq<u8>)| input_set(globs, exclusions, more).contains(e) implies input_set(globs, exclusions, files).contains(e) by {
        let k = choose|k: int| 0 <= k < more.len() && is_input(globs, exclusions, more[k]) && #[trigger] more[k].entry() == e;
        if k < pos {
            assert(more[k] == files[k]);
        } else if k > pos {
            assert(more[k] == files[k - 1]);
        }
    }
    assert forall|e: (Seq<char>, Seq<u8>)| input_set(globs, exclusions, files).contains(e) implies input_set(globs, exclusions, more).contains(e) by {
        let k = choose|k: int| 0 <= k < files.len() && is_input(globs, exclusions, files[k]) && #[trigger] files[k].entry() == e;
        if k < pos {
            assert(more[k] == files[k]);
        } else {
            assert(more[k + 1] == files[k]);
        }
    }
    assert(input_set(globs, exclusions, more) =~= input_set(globs, exclusions, files));
    lemma_sorted_unique(sorted1, sorted2);
}

/// Why inputs could not be hashed.
#[derive(Debug)]
pub enum HashError {
    InvalidGlob,
    RepeatedPath,
    EnvInputsUnsupported,
    CommandInputsUnsupported,
}

pub fn is_excluded(exclusions: &Vec<Vec<String>>, path: &Vec<String>) -> (r: bool)
    ensures
        r == excluded(exclusions.deep_view(), path.deep_view()),
{
    let mut k: usize = 0;
    while k < exclusions.len()
        invariant
            k <= exclusions.len(),
            forall|m: int| 0 <= m < k ==> !is_prefix(exclusions.deep_view()[m], path.deep_view()),
        decreases exclusions.len() - k,
    {
        if crate::paths::components_prefix(&exclusions[k], path) {
            assert(is_prefix(exclusions.deep_view()[k as int], path.deep_view()));
            return true;
        }
        k = k + 1;
    }
    false
}

/// The input hash of a task: none without globs; otherwise the digest over
/// the digests of the matching files that no exclusion covers, in path
/// order. Globs that globset refuses, and environment or command inputs,
/// are errors.
pub fn hash_task_inputs(
    files: &Vec<InputFile>,
    globs: &Vec<String>,
    exclusions: &Vec<Vec<String>>,
    env_vars: &Vec<String>,
    commands: &Vec<String>,
) -> (r: Result<Option<Hash>, HashError>)
    ensures
        env_vars.len() > 0 ==> r matches Err(HashError::EnvInputsUnsupported),
        env_vars.len() == 0 && commands.len() > 0 ==> r matches Err(HashError::CommandInputsUnsupported),
        env_vars.len() == 0 && commands.len() == 0 && globs.len() == 0 ==> r matches Ok(None),
        env_vars.len() == 0 && commands.len() == 0 && globs.len() > 0 ==> match r {
            Ok(Some(h)) => exists|sorted: Seq<(Seq<char>, Seq<u8>)>|
                strictly_sorted(sorted) && sorted.to_set() == input_set(
                    globs.deep_view(),
                    exclusions.deep_view(),
                    files@,
                ) && h.bytes() == combined(sorted),
            Ok(None) => false,
            Err(HashError::InvalidGlob) => !glob_set_builds(globs.deep_view()),
            Err(HashError::RepeatedPath) => glob_set_builds(globs.deep_view()) && repeats_input(
                globs.deep_view(),
                exclusions.deep_view(),
                files@,
            ),
            Err(_) => false,
        },
{
    if env_vars.len() > 0 {
        return Err(HashError::EnvInputsUnsupported);
    }
    if commands.len() > 0 {
        return Err(HashError::CommandInputsUnsupported);
    }
    if globs.len() == 0 {
        return Ok(None);
    }
    if globs_match(globs, "").is_none() {
        return Err(HashError::InvalidGlob);
    }
    let ghost gv = globs.deep_view();
    let ghost ev = exclusions.deep_view();
    let mut chosen: Vec<(String, Hash)> = Vec::new();
    let mut i: usize = 0;
    while i < files.len()
        invariant
            i <= files.len(),
            gv == globs.deep_view(),
            ev == exclusions.deep_view(),
            env_vars.len() == 0,
            commands.len() == 0,
            globs.len() > 0,
            glob_set_builds(gv),
            strictly_sorted(pairs(chosen@)),
            pairs(chosen@).to_set() == input_set(gv, ev, files@.take(i as int)),
        decreases files.len() - i,
    {
        let key = join_components(&files[i].path);
        let m = match globs_match(globs, key.as_str()) {
            Some(m) => m,
            None => {
                return Err(HashError::InvalidGlob);
            },
        };
        let ex = is_excluded(exclusions, &files[i].path);
        proof {
            lemma_input_set_step(gv, ev, files@, i as int);
        }
        if m && !ex {
            let ghost before = pairs(chosen@);
            let ghost kv = key@;
            if !insert_sorted(&mut chosen, key, files[i].digest) {
                proof {
                    let k = choose|k: int| 0 <= k < before.len() && before[k].0 == kv;
                    assert(before.to_set().contains(before[k]));
                    let tk = files@.take(i as int);
                    let j = choose|j: int|
                        0 <= j < tk.len() && is_input(gv, ev, tk[j]) && #[trigger] tk[j].entry() == before[k];
                    assert(files@[j] == tk[j]);
                    assert(0 <= j < i && files@[j].key() == files@[i as int].key());
                    assert(is_input(gv, ev, files@[i as int]));
                    assert(repeats_input(gv, ev, files@));
                }
                return Err(HashError::RepeatedPath);
            }
        }
        i = i + 1;
    }
    let mut bytes: Vec<u8> = Vec::new();
    let mut k: usize = 0;
    while k < chosen.len()
        invariant
            k <= chosen.len(),
            bytes@ == concat_digests(pairs(chosen@).take(k as int)),
        decreases chosen.len() - k,
    {
        let d = chosen[k].1;
        let mut b: usize = 0;
        let ghost start = bytes@;
        while b < 32
            invariant
                b <= 32,
                d.0@.len() == 32,
                bytes@ == start + d.0@.take(b as int),
            decreases 32 - b,
        {
            bytes.push(d.0[b]);
            assert(bytes@ =~= start + d.0@.take(b as int + 1));
            b = b + 1;
        }
        proof {
            assert(d.0@.take(32) =~= d.0@);
            assert(pairs(chosen@).take(k as int + 1).drop_last() =~= pairs(chosen@).take(k as int));
        }
        k = k + 1;
    }
    proof {
        assert(pairs(chosen@).take(chosen.len() as int) =~= pairs(chosen@));
        assert(files@.take(files.len() as int) =~= files@);
    }
    let h = blake3_digest(bytes.as_slice());
    Ok(Some(h))
}

} // verus!
