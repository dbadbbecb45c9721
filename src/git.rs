//! The git oracle's commands and the reading of their output.
use vstd::prelude::*;

use crate::paths::push_text;
use crate::runner::{split_on, split_text};

verus! {

/// Why a git query failed.
#[derive(Debug, PartialEq, Eq)]
pub enum GitError {
    MergeBase(String, String),
    Diff(String),
    CouldntFindRoot(String),
}

/// What to diff against.
#[derive(Debug)]
pub enum Mode {
    /// A base branch; the diff starts at its merge base with `HEAD`.
    Feature(String),
    /// A base commit.
    Main(String),
}

/// Characters with the Unicode `White_Space` property.
pub open spec fn is_white(c: char) -> bool {
    ('\u{9}' <= c <= '\u{d}') || c == ' ' || c == '\u{85}' || c == '\u{a0}' || c == '\u{1680}' || (
    '\u{2000}' <= c <= '\u{200a}') || c == '\u{2028}' || c == '\u{2029}' || c == '\u{202f}' || c
        == '\u{205f}' || c == '\u{3000}'
}

fn white(c: char) -> (r: bool)
    ensures
        r == is_white(c),
{
    ('\u{9}' <= c && c <= '\u{d}') || c == ' ' || c == '\u{85}' || c == '\u{a0}' || c == '\u{1680}'
        || ('\u{2000}' <= c && c <= '\u{200a}') || c == '\u{2028}' || c == '\u{2029}' || c
        == '\u{202f}' || c == '\u{205f}' || c == '\u{3000}'
}

/// `s` without trailing white space.
pub open spec fn trim_end_spec(s: Seq<char>) -> Seq<char>
    decreases s.len(),
{
    if s.len() > 0 && is_white(s.last()) {
        trim_end_spec(s.drop_last())
    } else {
        s
    }
}

/// `s` without leading white space.
pub open spec fn trim_start_spec(s: Seq<char>) -> Seq<char>
    decreases s.len(),
{
    if s.len() > 0 && is_white(s[0]) {
        trim_start_spec(s.drop_first())
    } else {
        s
    }
}

proof fn lemma_trim_end_prefix(s: Seq<char>, i: int)
    requires
        0 <= i <= s.len(),
        forall|k: int| i <= k < s.len() ==> is_white(s[k]),
    ensures
        trim_end_spec(s) == trim_end_spec(s.take(i)),
    decreases s.len() - i,
{
    if i < s.len() {
        assert(s.drop_last() =~= s.drop_last().take(s.len() - 1));
        lemma_trim_end_prefix(s.drop_last(), i);
        assert(s.drop_last().take(i) =~= s.take(i));
    } else {
        assert(s.take(i) =~= s);
    }
}

proof fn lemma_trim_start_suffix(s: Seq<char>, i: int)
    requires
        0 <= i <= s.len(),
        forall|k: int| 0 <= k < i ==> is_white(s[k]),
    ensures
        trim_start_spec(s) == trim_start_spec(s.skip(i)),
    decreases i,
{
    if i > 0 {
        lemma_trim_start_suffix(s.drop_first(), i - 1);
        assert(s.drop_first().skip(i - 1) =~= s.skip(i));
    } else {
        assert(s.skip(0) =~= s);
    }
}

/// `s` without trailing white space.
pub fn trim_end(s: &str) -> (r: String)
    ensures
        r@ == trim_end_spec(s@),
{
    let mut n = s.unicode_len();
    while n > 0 && white(s.get_char(n - 1))
        invariant
            n <= s@.len(),
            forall|k: int| n <= k < s@.len() ==> is_white(s@[k]),
        decreases n,
    {
        n = n - 1;
    }
    proof {
        lemma_trim_end_prefix(s@, n as int);
        if n > 0 {
            assert(s@.take(n as int).last() == s@[n - 1]);
        }
    }
    s.substring_char(0, n).to_owned()
}

/// `s` without white space at either end.
pub fn trim(s: &str) -> (r: String)
    ensures
        r@ == trim_start_spec(trim_end_spec(s@)),
{
    let t = trim_end(s);
    let len = t.as_str().unicode_len();
    let mut i: usize = 0;
    while i < len && white(t.as_str().get_char(i))
        invariant
            i <= len,
            len == t@.len(),
            forall|k: int| 0 <= k < i ==> is_white(t@[k]),
        decreases len - i,
    {
        i = i + 1;
    }
    proof {
        lemma_trim_start_suffix(t@, i as int);
        if i < len {
            assert(t@.skip(i as int)[0] == t@[i as int]);
        }
        assert(t@.subrange(i as int, len as int) =~= t@.skip(i as int));
    }
    t.as_str().substring_char(i, len).to_owned()
}

/// The command that finds the repository root.
pub open spec fn rev_parse_command() -> Seq<Seq<char>> {
    seq!["git"@, "rev-parse"@, "--show-toplevel"@]
}

/// The command that finds the merge base of `branch` and `HEAD`.
pub open spec fn merge_base_command(branch: Seq<char>) -> Seq<Seq<char>> {
    seq!["git"@, "merge-base"@, branch, "HEAD"@]
}

/// The command that lists the files changed since `base`, under `files`
/// when some are given.
pub open spec fn diff_command(base: Seq<char>, files: Seq<Seq<char>>) -> Seq<Seq<char>> {
    seq!["git"@, "diff"@, "--no-commit-id"@, "--name-only"@, "-r"@, base] + if files.len() > 0 {
        seq!["--"@] + files
    } else {
        Seq::empty()
    }
}

/// The file names in the output of `git diff --name-only`: one per line,
/// none for an empty output.
pub open spec fn diff_names(out: Seq<char>) -> Seq<Seq<char>> {
    let t = trim_end_spec(out);
    if t.len() == 0 {
        Seq::empty()
    } else {
        split_on(t, '\n')
    }
}

/// Reads the output of `git diff --name-only`.
pub fn parse_diff_output(out: &str) -> (r: Vec<String>)
    ensures
        r.deep_view() == diff_names(out@),
{
    let t = trim_end(out);
    if t.as_str().unicode_len() == 0 {
        Vec::new()
    } else {
        split_text(t.as_str(), '\n')
    }
}

fn text(s: &str) -> (r: String)
    ensures
        r@ == s@,
{
    String::from_str(s)
}

fn rev_parse_args() -> (r: Vec<String>)
    ensures
        r.deep_view() == rev_parse_command(),
{
    let mut v: Vec<String> = Vec::new();
    push_text(&mut v, text("git"));
    push_text(&mut v, text("rev-parse"));
    push_text(&mut v, text("--show-toplevel"));
    assert(v.deep_view() =~= rev_parse_command());
    v
}

/// The arguments of `git merge-base <branch> HEAD`.
pub fn merge_base_args(branch: &String) -> (r: Vec<String>)
    ensures
        r.deep_view() == merge_base_command(branch@),
{
    let mut v: Vec<String> = Vec::new();
    push_text(&mut v, text("git"));
    push_text(&mut v, text("merge-base"));
    push_text(&mut v, branch.clone());
    push_text(&mut v, text("HEAD"));
    assert(v.deep_view() =~= merge_base_command(branch@));
    v
}

/// The arguments of `git diff --no-commit-id --name-only -r <base> [-- files]`.
pub fn diff_args(base: &String, files: &Vec<String>) -> (r: Vec<String>)
    ensures
        r.deep_view() == diff_command(base@, files.deep_view()),
{
    let mut v: Vec<String> = Vec::new();
    push_text(&mut v, text("git"));
    push_text(&mut v, text("diff"));
    push_text(&mut v, text("--no-commit-id"));
    push_text(&mut v, text("--name-only"));
    push_text(&mut v, text("-r"));
    push_text(&mut v, base.clone());
    let ghost head = v.deep_view();
    if files.len() > 0 {
        push_text(&mut v, text("--"));
        let mut i: usize = 0;
        while i < files.len()
            invariant
                i <= files.len(),
                v.deep_view() == head + seq!["--"@] + files.deep_view().take(i as int),
            decreases files.len() - i,
        {
            push_text(&mut v, files[i].clone());
            assert(files.deep_view().take(i as int + 1) =~= files.deep_view().take(i as int).push(
                files[i as int]@,
            ));
            assert(v.deep_view() =~= head + seq!["--"@] + files.deep_view().take(i as int + 1));
            i = i + 1;
        }
        assert(files.deep_view().take(files.len() as int) =~= files.deep_view());
    }
    assert(v.deep_view() =~= diff_command(base@, files.deep_view()));
    v
}

/// The executor, given a command with view `cmd`, may answer `out`.
pub open spec fn may_answer<E: FnMut(Vec<String>) -> Result<String, String>>(
    executor: E,
    cmd: Seq<Seq<char>>,
    out: Result<String, String>,
) -> bool {
    exists|c: Vec<String>| c.deep_view() == cmd && call_ensures(executor, (c,), out)
}

/// What the diff against `base` gives, as the executor answered it.
pub open spec fn diff_outcome<E: FnMut(Vec<String>) -> Result<String, String>>(
    executor: E,
    base: Seq<char>,
    files: Seq<Seq<char>>,
    r: Result<Vec<String>, GitError>,
) -> bool {
    exists|out: Result<String, String>|
        may_answer(executor, diff_command(base, files), out) && match out {
            Ok(s) => r matches Ok(v) && v.deep_view() == diff_names(s@),
            Err(x) => r matches Err(GitError::Diff(m)) && m@ == x@,
        }
}

/// What `diff` gives for `mode`: the base is the given commit, or the
/// answer to `merge-base`, whose failure is a `MergeBase` error.
pub open spec fn diff_result<E: FnMut(Vec<String>) -> Result<String, String>>(
    executor: E,
    mode: Mode,
    files: Seq<Seq<char>>,
    r: Result<Vec<String>, GitError>,
) -> bool {
    match mode {
        Mode::Main(c) => diff_outcome(executor, trim_end_spec(c@), files, r),
        Mode::Feature(b) => exists|out1: Result<String, String>|
            may_answer(executor, merge_base_command(b@), out1) && match out1 {
                Ok(s) => diff_outcome(executor, trim_end_spec(s@), files, r),
                Err(x) => r matches Err(GitError::MergeBase(bb, m)) && bb@ == b@ && m@ == x@,
            },
    }
}

/// Runs git commands through an executor, which answers with a command's
/// standard output or its error text; so the logic can be tried without git.
pub struct GitImpl<E> {
    pub executor: E,
}

impl<E: FnMut(Vec<String>) -> Result<String, String>> GitImpl<E> {
    /// The executor can take any command.
    pub open spec fn ready(&self) -> bool {
        forall|c: Vec<String>| call_requires(self.executor, (c,))
    }

    pub fn new(executor: E) -> (r: GitImpl<E>)
        ensures
            r.executor == executor,
    {
        GitImpl { executor }
    }

    pub fn execute(&mut self, command: Vec<String>) -> (r: Result<String, String>)
        requires
            old(self).ready(),
        ensures
            final(self).ready(),
            final(self).executor == old(self).executor,
            call_ensures(old(self).executor, (command,), r),
    {
        (self.executor)(command)
    }

    /// The repository root, from `git rev-parse --show-toplevel`.
    pub fn repo_root(&mut self) -> (r: Result<String, GitError>)
        requires
            old(self).ready(),
        ensures
            final(self).ready(),
            final(self).executor == old(self).executor,
            exists|out: Result<String, String>|
                may_answer(old(self).executor, rev_parse_command(), out) && match out {
                    Ok(s) => r matches Ok(x) && x@ == trim_start_spec(trim_end_spec(s@)),
                    Err(e) => r matches Err(GitError::CouldntFindRoot(m)) && m@ == e@,
                },
    {
        let ghost e0 = self.executor;
        let cmd = rev_parse_args();
        let ghost cv = cmd;
        let out = self.execute(cmd);
        proof {
            assert(cv.deep_view() == rev_parse_command() && call_ensures(e0, (cv,), out));
            assert(may_answer(e0, rev_parse_command(), out));
        }
        match out {
            Ok(s) => Ok(trim(s.as_str())),
            Err(e) => Err(GitError::CouldntFindRoot(e)),
        }
    }

    /// The commit to diff against: the merge base with the branch, or the
    /// given commit itself (without asking git).
    pub fn diff_base(&mut self, mode: Mode) -> (r: Result<String, GitError>)
        requires
            old(self).ready(),
        ensures
            final(self).ready(),
            final(self).executor == old(self).executor,
            mode matches Mode::Main(c) ==> r matches Ok(x) && x@ == trim_end_spec(c@),
            mode matches Mode::Feature(b) ==> exists|out: Result<String, String>|
                may_answer(old(self).executor, merge_base_command(b@), out) && match out {
                    Ok(s) => r matches Ok(x) && x@ == trim_end_spec(s@),
                    Err(e) => r matches Err(GitError::MergeBase(bb, m)) && bb@ == b@ && m@ == e@,
                },
    {
        match mode {
            Mode::Feature(base_branch) => {
                let ghost e0 = self.executor;
                let cmd = merge_base_args(&base_branch);
                let ghost cv = cmd;
                let out = self.execute(cmd);
                proof {
                    assert(cv.deep_view() == merge_base_command(base_branch@) && call_ensures(
                        e0,
                        (cv,),
                        out,
                    ));
                    assert(may_answer(e0, merge_base_command(base_branch@), out));
                }
                match out {
                    Ok(base) => Ok(trim_end(base.as_str())),
                    Err(e) => Err(GitError::MergeBase(base_branch, e)),
                }
            },
            Mode::Main(base_commit) => Ok(trim_end(base_commit.as_str())),
        }
    }

    /// The files changed since the base that `mode` gives, under `files`
    /// when some are given.
    pub fn diff(&mut self, mode: Mode, files: Vec<String>) -> (r: Result<Vec<String>, GitError>)
        requires
            old(self).ready(),
        ensures
            final(self).ready(),
            final(self).executor == old(self).executor,
            diff_result(old(self).executor, mode, files.deep_view(), r),
    {
        let ghost m = mode;
        let ghost e0 = self.executor;
        let ghost fv = files.deep_view();
        let base = match self.diff_base(mode) {
            Ok(base) => base,
            Err(e) => {
                let r: Result<Vec<String>, GitError> = Err(e);
                proof {
                    if let Mode::Feature(b) = m {
                        let out1 = choose|out1: Result<String, String>|
                            may_answer(e0, merge_base_command(b@), out1) && match out1 {
                                Ok(s) => false,
                                Err(x) => r matches Err(GitError::MergeBase(bb, mm)) && bb@ == b@ && mm@ == x@,
                            };
                        assert(diff_result(e0, m, fv, r));
                    }
                }
                return r;
            },
        };
        let cmd = diff_args(&base, &files);
        let ghost cv = cmd;
        let out = self.execute(cmd);
        let res = match out {
            Ok(s) => Ok(parse_diff_output(s.as_str())),
            Err(e) => Err(GitError::Diff(e)),
        };
        proof {
            assert(cv.deep_view() == diff_command(base@, fv) && call_ensures(e0, (cv,), out));
            assert(may_answer(e0, diff_command(base@, fv), out));
            assert(diff_outcome(e0, base@, fv, res));
            if let Mode::Feature(b) = m {
                let out1 = choose|out1: Result<String, String>|
                    may_answer(e0, merge_base_command(b@), out1) && match out1 {
                        Ok(s) => base@ == trim_end_spec(s@),
                        Err(x) => false,
                    };
                assert(diff_result(e0, m, fv, res));
            }
        }
        res
    }

    /// Whether any file under `path` changed since the commit `since`.
    pub fn have_files_changed(&mut self, since: String, path: String) -> (r: Result<bool, GitError>)
        requires
            old(self).ready(),
        ensures
            final(self).ready(),
            exists|out: Result<String, String>|
                may_answer(
                    old(self).executor,
                    diff_command(trim_end_spec(since@), seq![path@]),
                    out,
                ) && match out {
                    Ok(s) => r == Ok::<bool, GitError>(diff_names(s@).len() > 0),
                    Err(x) => r matches Err(GitError::Diff(m)) && m@ == x@,
                },
    {
        let ghost e0 = self.executor;
        let ghost sv = since@;
        let mut files: Vec<String> = Vec::new();
        push_text(&mut files, path);
        let ghost fv = files.deep_view();
        proof {
            assert(fv =~= seq![path@]);
        }
        let res = self.diff(Mode::Main(since), files);
        let ghost res_copy = res;
        let r = match res {
            Ok(paths) => Ok(paths.len() > 0),
            Err(e) => Err(e),
        };
        proof {
            let out = choose|out: Result<String, String>|
                may_answer(e0, diff_command(trim_end_spec(sv), fv), out) && match out {
                    Ok(s) => res_copy matches Ok(v) && v.deep_view() == diff_names(s@),
                    Err(x) => res_copy matches Err(GitError::Diff(m)) && m@ == x@,
                };
            if let Ok(paths) = res_copy {
                assert(paths.deep_view().len() == paths@.len());
            }
        }
        r
    }
}

/// The files changed since the base that `mode` gives.
pub fn files_changed<E: FnMut(Vec<String>) -> Result<String, String>>(
    git: &mut GitImpl<E>,
    mode: Mode,
) -> (r: Result<Vec<String>, GitError>)
    requires
        old(git).ready(),
    ensures
        final(git).ready(),
        diff_result(old(git).executor, mode, Seq::empty(), r),
{
    let files: Vec<String> = Vec::new();
    proof {
        assert(files.deep_view() =~= Seq::<Seq<char>>::empty());
    }
    git.diff(mode, files)
}

/// The repository root.
pub fn repo_root<E: FnMut(Vec<String>) -> Result<String, String>>(git: &mut GitImpl<E>) -> (r:
    Result<String, GitError>)
    requires
        old(git).ready(),
    ensures
        final(git).ready(),
        exists|out: Result<String, String>|
            may_answer(old(git).executor, rev_parse_command(), out) && match out {
                Ok(s) => r matches Ok(x) && x@ == trim_start_spec(trim_end_spec(s@)),
                Err(e) => r matches Err(GitError::CouldntFindRoot(m)) && m@ == e@,
            },
{
    git.repo_root()
}

} // verus!
