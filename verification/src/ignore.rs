//! Which paths are passed over: globs, directories that are never indexed, and ignore files.

use globset::GlobSet;
use vstd::prelude::*;

use crate::paths;
use crate::text;

verus! {

// ── Globs ───────────────────────────────────────────────────────────────────

/// A set of compiled globs.
#[verifier::external_type_specification]
#[verifier::external_body]
pub struct ExGlobSet(globset::GlobSet);

/// The patterns that a set of globs was made of.
pub uninterp spec fn patterns_of(set: GlobSet) -> Seq<Seq<char>>;

/// Whether a glob matches a path.
pub uninterp spec fn glob_matches(pattern: Seq<char>, path: Seq<char>) -> bool;

/// Why patterns do not make a set of globs, where they do not.
pub uninterp spec fn glob_error(patterns: Seq<Seq<char>>) -> Option<Seq<char>>;

/// Calls `Glob::new` on each pattern and `GlobSetBuilder::build`. The set holds the patterns;
/// whether there is one, and the message where there is none, depend on the patterns alone.
#[verifier::external_body]
pub(crate) fn build_glob_set(patterns: &Vec<String>) -> (r: Result<GlobSet, String>)
    ensures
        match r {
            Ok(set) => glob_error(patterns.deep_view()) is None && patterns_of(set)
                == patterns.deep_view(),
            Err(m) => glob_error(patterns.deep_view()) == Some(m@),
        },
{
    let mut builder = globset::GlobSetBuilder::new();
    for pattern in patterns {
        builder.add(globset::Glob::new(pattern).map_err(|e| e.to_string())?);
    }
    builder.build().map_err(|e| e.to_string())
}

/// Whether one of some globs matches a path.
pub open spec fn some_glob_matches(patterns: Seq<Seq<char>>, path: Seq<char>) -> bool {
    exists|i: int| 0 <= i < patterns.len() && glob_matches(#[trigger] patterns[i], path)
}

/// Calls `GlobSet::is_match`: whether a glob of the set matches the path.
#[verifier::external_body]
pub(crate) fn is_match(set: &GlobSet, path: &str) -> (r: bool)
    ensures
        r == (exists|i: int|
            0 <= i < patterns_of(*set).len() && glob_matches(
                #[trigger] patterns_of(*set)[i],
                path@,
            )),
{
    set.is_match(path)
}

// ── Directories that are never indexed ──────────────────────────────────────

/// Whether a component is the name of a directory that is never indexed.
pub open spec fn is_ignored_dir(name: Seq<char>) -> bool {
    name == "target"@ || name == "node_modules"@ || name == ".git"@
}

/// Whether a path lies in a directory that is never indexed.
pub open spec fn in_ignored_dir_spec(path: Seq<char>) -> bool {
    let p = text::pieces(path, '/');
    exists|k: int|
        0 <= k < p.len() - 1 && is_ignored_dir(path.subrange((#[trigger] p[k]).0, p[k].1))
}

/// Whether a path lies in a directory that is never indexed.
pub fn in_ignored_dir(path: &str) -> (r: bool)
    ensures
        r == in_ignored_dir_spec(path@),
{
    let v = text::chars_of(path);
    let ps = text::split_ranges(&v, '/');
    let ghost p = text::pieces(path@, '/');
    let n = ps.len();
    let mut k: usize = 0;
    while k < n && n - k > 1
        invariant
            v@ == path@,
            p == text::pieces(path@, '/'),
            p == text::ranges_view(ps@),
            n == ps@.len(),
            n == p.len(),
            k <= n,
            forall|j: int|
                0 <= j < ps@.len() ==> (#[trigger] ps@[j]).0 <= ps@[j].1 <= v@.len(),
            forall|j: int|
                0 <= j < k ==> !is_ignored_dir(path@.subrange((#[trigger] p[j]).0, p[j].1)),
        decreases n - k,
    {
        let name = text::substring(&v, ps[k].0, ps[k].1);
        assert(p[k as int] == (ps@[k as int].0 as int, ps@[k as int].1 as int));
        if text::str_eq(name.as_str(), "target") || text::str_eq(name.as_str(), "node_modules")
            || text::str_eq(name.as_str(), ".git") {
            assert(is_ignored_dir(path@.subrange(p[k as int].0, p[k as int].1)));
            return true;
        }
        k += 1;
    }
    false
}

// ── Ignore files ────────────────────────────────────────────────────────────

/// The globs of a line of an ignore file. A line with a trailing slash stands for all that lies in
/// a directory, any other for files. Without a slash within, it holds at any depth. Blank lines
/// and comments stand for nothing.
pub open spec fn line_globs_spec(line: Seq<char>) -> Seq<Seq<char>> {
    let s = text::trim_spec(line);
    if s.len() == 0 || s[0] == '#' {
        Seq::empty()
    } else if s.last() == '/' {
        seq!["**/"@ + s + "**"@]
    } else if text::contains_spec(s, "/"@) {
        seq![s]
    } else {
        seq!["**/"@ + s]
    }
}

/// The globs of the first `n` lines of an ignore file.
pub open spec fn globs_spec(s: Seq<char>, n: int) -> Seq<Seq<char>>
    decreases n,
{
    let p = text::pieces(s, '\n');
    if n <= 0 {
        Seq::empty()
    } else {
        globs_spec(s, n - 1) + line_globs_spec(s.subrange(p[n - 1].0, p[n - 1].1))
    }
}

/// The globs of an ignore file.
pub open spec fn ignore_globs_spec(s: Seq<char>) -> Seq<Seq<char>> {
    globs_spec(s, text::pieces(s, '\n').len() as int)
}

/// The globs of an ignore file.
pub fn ignore_globs(content: &str) -> (r: Vec<String>)
    ensures
        r.deep_view() == ignore_globs_spec(content@),
{
    let v = text::chars_of(content);
    let ps = text::split_ranges(&v, '\n');
    let ghost p = text::pieces(content@, '\n');
    let n = ps.len();
    let mut out: Vec<String> = Vec::new();
    let mut k: usize = 0;
    assert(out.deep_view() =~= globs_spec(content@, 0));
    assert(p.len() == n);
    while k < n
        invariant
            v@ == content@,
            p == text::pieces(content@, '\n'),
            p == text::ranges_view(ps@),
            n == ps@.len(),
            k <= n,
            forall|j: int|
                0 <= j < ps@.len() ==> (#[trigger] ps@[j]).0 <= ps@[j].1 <= v@.len(),
            out.deep_view() == globs_spec(content@, k as int),
        decreases n - k,
    {
        let line = text::substring(&v, ps[k].0, ps[k].1);
        assert(p[k as int] == (ps@[k as int].0 as int, ps@[k as int].1 as int));
        let s = text::trim_str(line.as_str());
        let c = text::chars_of(s.as_str());
        let ghost before = out.deep_view();
        if c.len() == 0 || c[0] == '#' {
            assert(before + Seq::<Seq<char>>::empty() =~= before);
        } else if c[c.len() - 1] == '/' {
            let a = text::concat("**/", s.as_str());
            out.push(text::concat(a.as_str(), "**"));
            assert(out.deep_view() =~= before + line_globs_spec(line@));
        } else if text::contains(&c, "/") {
            out.push(s);
            assert(out.deep_view() =~= before + line_globs_spec(line@));
        } else {
            out.push(text::concat("**/", s.as_str()));
            assert(out.deep_view() =~= before + line_globs_spec(line@));
        }
        k += 1;
    }
    out
}

/// The part of a path by which it is passed over or not: what lies below `root`, or the whole path
/// where it does not lie there.
pub open spec fn judged_part(path: Seq<char>, root: Seq<char>) -> Seq<char> {
    if paths::is_within(path, root) {
        paths::below_spec(path, root)
    } else {
        path
    }
}

/// Whether a path is passed over when a directory is indexed. An ignore file whose globs do not
/// compile ignores nothing.
pub open spec fn is_ignored_spec(path: Seq<char>, root: Seq<char>, globs: Seq<Seq<char>>) -> bool {
    let rel = judged_part(path, root);
    in_ignored_dir_spec(rel) || (glob_error(globs) is None && some_glob_matches(globs, rel))
}

/// What is passed over when a directory is indexed.
#[derive(Debug)]
pub struct IgnoreRules {
    root: String,
    patterns: Vec<String>,
    set: Option<GlobSet>,
}

impl IgnoreRules {
    /// The directory that is indexed.
    pub closed spec fn root_spec(&self) -> Seq<char> {
        self.root@
    }

    /// The globs of the ignore file.
    pub closed spec fn globs(&self) -> Seq<Seq<char>> {
        self.patterns.deep_view()
    }

    /// The compiled globs are those of the ignore file.
    pub closed spec fn wf(&self) -> bool {
        match self.set {
            Some(set) => glob_error(self.patterns.deep_view()) is None && patterns_of(set)
                == self.patterns.deep_view(),
            None => glob_error(self.patterns.deep_view()) is Some,
        }
    }

    /// The rules of a directory with an ignore file, whose content is empty where there is none.
    pub fn new(root: &str, content: &str) -> (r: Self)
        ensures
            r.wf(),
            r.root_spec() == root@,
            r.globs() == ignore_globs_spec(content@),
    {
        let patterns = ignore_globs(content);
        let set = match build_glob_set(&patterns) {
            Ok(set) => Some(set),
            Err(_) => None,
        };
        IgnoreRules { root: root.to_owned(), patterns, set }
    }

    /// Whether a path is passed over.
    pub fn ignores(&self, path: &str) -> (r: bool)
        requires
            self.wf(),
        ensures
            r == is_ignored_spec(path@, self.root_spec(), self.globs()),
    {
        let rel = match paths::strip_prefix(path, self.root.as_str()) {
            Some(s) => s,
            None => path.to_owned(),
        };
        if in_ignored_dir(rel.as_str()) {
            return true;
        }
        match &self.set {
            Some(set) => is_match(set, rel.as_str()),
            None => false,
        }
    }
}

} // verus!
