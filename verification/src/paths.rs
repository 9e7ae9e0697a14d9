//! Paths as texts: components are separated by `/`, empty components and `.` beyond the first
//! do not count.

use vstd::prelude::*;

use crate::text;

verus! {

/// The path without trailing separators and `.` components. A lone root stays.
pub open spec fn trim_path_spec(p: Seq<char>) -> Seq<char>
    decreases p.len(),
{
    if p.len() > 1 && p.last() == '/' {
        trim_path_spec(p.drop_last())
    } else if p.len() > 1 && p.last() == '.' && p[p.len() - 2] == '/' {
        trim_path_spec(p.drop_last())
    } else {
        p
    }
}

/// The position behind the last separator, or 0.
pub open spec fn name_start(p: Seq<char>) -> int
    decreases p.len(),
{
    if p.len() == 0 {
        0
    } else if p.last() == '/' {
        p.len() as int
    } else {
        name_start(p.drop_last())
    }
}

/// The last component, if it is a name: neither the root nor `.` nor `..`.
pub open spec fn file_name_spec(p: Seq<char>) -> Option<Seq<char>> {
    let t = trim_path_spec(p);
    let name = t.subrange(name_start(t), t.len() as int);
    if name.len() == 0 || name == seq!['.'] || name == seq!['.', '.'] {
        None
    } else {
        Some(name)
    }
}

/// The path without its last component. A root and an empty path have none.
pub open spec fn parent_spec(p: Seq<char>) -> Option<Seq<char>> {
    let t = trim_path_spec(p);
    if t.len() == 0 || t == seq!['/'] {
        None
    } else {
        Some(trim_path_spec(t.take(name_start(t))))
    }
}

/// The position of the last `.`, or -1.
pub open spec fn last_dot(s: Seq<char>) -> int
    decreases s.len(),
{
    if s.len() == 0 {
        -1
    } else if s.last() == '.' {
        s.len() - 1
    } else {
        last_dot(s.drop_last())
    }
}

/// What stands behind the last `.` of the file name, unless the name starts with it.
pub open spec fn extension_spec(p: Seq<char>) -> Option<Seq<char>> {
    match file_name_spec(p) {
        Some(name) => {
            let d = last_dot(name);
            if d > 0 {
                Some(name.subrange(d + 1, name.len() as int))
            } else {
                None
            }
        },
        None => None,
    }
}

/// The file name without its extension.
pub open spec fn file_stem_spec(p: Seq<char>) -> Option<Seq<char>> {
    match file_name_spec(p) {
        Some(name) => {
            let d = last_dot(name);
            if d > 0 {
                Some(name.take(d))
            } else {
                Some(name)
            }
        },
        None => None,
    }
}

/// One path behind another. An absolute second path stands alone.
pub open spec fn join_spec(a: Seq<char>, b: Seq<char>) -> Seq<char> {
    if b.len() > 0 && b[0] == '/' {
        b
    } else if a.len() == 0 || a.last() == '/' {
        a + b
    } else {
        a.push('/') + b
    }
}

/// A normal path with one more component.
pub open spec fn append_component(acc: Seq<char>, c: Seq<char>) -> Seq<char> {
    if acc.len() == 0 || acc.last() == '/' {
        acc + c
    } else {
        acc.push('/') + c
    }
}

/// The components from piece `k` on, appended to a normal path.
pub open spec fn normal_from(p: Seq<char>, ps: Seq<(int, int)>, k: int, acc: Seq<char>) -> Seq<char>
    decreases ps.len() - k,
{
    if k < 0 || k >= ps.len() {
        acc
    } else {
        let c = p.subrange(ps[k].0, ps[k].1);
        if c.len() == 0 || (k > 0 && c == seq!['.']) {
            normal_from(p, ps, k + 1, acc)
        } else {
            normal_from(p, ps, k + 1, append_component(acc, c))
        }
    }
}

/// The path with one separator between components and none at the end. Two texts stand for the
/// same path exactly if their normal paths are equal.
pub open spec fn normal_spec(p: Seq<char>) -> Seq<char> {
    normal_from(
        p,
        text::pieces(p, '/'),
        0,
        if p.len() > 0 && p[0] == '/' {
            seq!['/']
        } else {
            Seq::empty()
        },
    )
}

/// Whether the path lies at or below `root`, component by component.
pub open spec fn is_within(p: Seq<char>, root: Seq<char>) -> bool {
    let a = normal_spec(p);
    let b = normal_spec(root);
    b.len() == 0 || a == b || (text::starts_with_spec(a, b) && (b.last() == '/' || a[b.len() as int]
        == '/'))
}

/// An optional string taken as a text.
pub open spec fn opt_text(o: Option<String>) -> Option<Seq<char>> {
    match o {
        Some(s) => Some(s@),
        None => None,
    }
}

/// The path without trailing separators and `.` components.
fn trim_path(v: &[char]) -> (r: Vec<char>)
    ensures
        r@ == trim_path_spec(v@),
{
    let mut n: usize = v.len();
    proof {
        assert(v@.take(v@.len() as int) =~= v@);
    }
    while n > 1 && (v[n - 1] == '/' || (v[n - 1] == '.' && v[n - 2] == '/'))
        invariant
            n <= v@.len(),
            trim_path_spec(v@) == trim_path_spec(v@.take(n as int)),
        decreases n,
    {
        proof {
            assert(v@.take(n as int).drop_last() =~= v@.take(n - 1));
        }
        n -= 1;
    }
    text::slice_of(v, 0, n)
}

/// The position behind the last separator, or 0.
fn find_name(v: &[char]) -> (r: usize)
    ensures
        r == name_start(v@),
        r <= v@.len(),
{
    let mut n: usize = v.len();
    proof {
        assert(v@.take(v@.len() as int) =~= v@);
    }
    while n > 0 && v[n - 1] != '/'
        invariant
            n <= v@.len(),
            name_start(v@) == name_start(v@.take(n as int)),
        decreases n,
    {
        proof {
            assert(v@.take(n as int).drop_last() =~= v@.take(n - 1));
        }
        n -= 1;
    }
    n
}

/// The last component, if it is a name.
fn name_chars(path: &str) -> (r: Option<Vec<char>>)
    ensures
        match r {
            Some(v) => file_name_spec(path@) == Some(v@),
            None => file_name_spec(path@) is None,
        },
{
    let p = text::chars_of(path);
    let t = trim_path(&p);
    let i = find_name(&t);
    let name = text::slice_of(&t, i, t.len());
    if name.len() == 0 {
        return None;
    }
    if name.len() == 1 && name[0] == '.' {
        proof {
            assert(name@ =~= seq!['.']);
        }
        return None;
    }
    if name.len() == 2 && name[0] == '.' && name[1] == '.' {
        proof {
            assert(name@ =~= seq!['.', '.']);
        }
        return None;
    }
    Some(name)
}

/// The position of the last `.` plus one, or 0.
fn find_dot(v: &[char]) -> (r: usize)
    ensures
        r == last_dot(v@) + 1,
        r <= v@.len(),
{
    let mut n: usize = v.len();
    proof {
        assert(v@.take(v@.len() as int) =~= v@);
    }
    while n > 0 && v[n - 1] != '.'
        invariant
            n <= v@.len(),
            last_dot(v@) == last_dot(v@.take(n as int)),
        decreases n,
    {
        proof {
            assert(v@.take(n as int).drop_last() =~= v@.take(n - 1));
        }
        n -= 1;
    }
    n
}

/// The last component of a path, if it is a name.
pub fn file_name(path: &str) -> (r: Option<String>)
    ensures
        opt_text(r) == file_name_spec(path@),
{
    match name_chars(path) {
        Some(v) => Some(text::string_of(&v)),
        None => None,
    }
}

/// What stands behind the last `.` of the file name.
pub fn extension(path: &str) -> (r: Option<String>)
    ensures
        opt_text(r) == extension_spec(path@),
{
    match name_chars(path) {
        Some(v) => {
            let d = find_dot(&v);
            if d > 1 {
                Some(text::substring(&v, d, v.len()))
            } else {
                None
            }
        },
        None => None,
    }
}

/// The file name without its extension.
pub fn file_stem(path: &str) -> (r: Option<String>)
    ensures
        opt_text(r) == file_stem_spec(path@),
{
    match name_chars(path) {
        Some(v) => {
            let d = find_dot(&v);
            if d > 1 {
                Some(text::substring(&v, 0, d - 1))
            } else {
                Some(text::string_of(&v))
            }
        },
        None => None,
    }
}

/// The path without its last component.
pub fn parent(path: &str) -> (r: Option<String>)
    ensures
        opt_text(r) == parent_spec(path@),
{
    let p = text::chars_of(path);
    let t = trim_path(&p);
    if t.len() == 0 {
        return None;
    }
    if t.len() == 1 && t[0] == '/' {
        proof {
            assert(t@ =~= seq!['/']);
        }
        return None;
    }
    let i = find_name(&t);
    let front = text::slice_of(&t, 0, i);
    let kept = trim_path(&front);
    Some(text::string_of(&kept))
}

/// One path behind another.
pub fn join(a: &str, b: &str) -> (r: String)
    ensures
        r@ == join_spec(a@, b@),
{
    let x = text::chars_of(a);
    let y = text::chars_of(b);
    if y.len() > 0 && y[0] == '/' {
        return b.to_owned();
    }
    let mut s = a.to_owned();
    if x.len() > 0 && x[x.len() - 1] != '/' {
        s.push('/');
    }
    s.append(b);
    s
}

/// The path with one separator between components and none at the end.
pub fn normalize(path: &str) -> (r: String)
    ensures
        r@ == normal_spec(path@),
{
    let v = text::chars_of(path);
    let ps = text::split_ranges(&v, '/');
    let ghost p = text::pieces(v@, '/');
    let mut acc: Vec<char> = Vec::new();
    if v.len() > 0 && v[0] == '/' {
        acc.push('/');
    }
    let mut k: usize = 0;
    proof {
        assert(acc@ =~= if v@.len() > 0 && v@[0] == '/' {
            seq!['/']
        } else {
            Seq::empty()
        });
    }
    while k < ps.len()
        invariant
            v@ == path@,
            k <= ps@.len(),
            text::ranges_view(ps@) == p,
            p == text::pieces(v@, '/'),
            forall|j: int| 0 <= j < ps@.len() ==> (#[trigger] ps@[j]).0 <= ps@[j].1 <= v@.len(),
            normal_spec(path@) == normal_from(v@, p, k as int, acc@),
        decreases ps@.len() - k,
    {
        let (a, b) = ps[k];
        assert(p[k as int] == (a as int, b as int));
        let mut c = text::slice_of(&v, a, b);
        let dot = c.len() == 1 && c[0] == '.';
        proof {
            if dot {
                assert(c@ =~= seq!['.']);
            }
        }
        if c.len() > 0 && !(k > 0 && dot) {
            let ghost before = acc@;
            let ghost part = c@;
            if acc.len() > 0 && acc[acc.len() - 1] != '/' {
                acc.push('/');
            }
            acc.append(&mut c);
            proof {
                assert(acc@ =~= append_component(before, part));
            }
        }
        k += 1;
    }
    text::string_of(&acc)
}

/// Whether the path lies at or below `root`, component by component.
pub fn starts_with(path: &str, root: &str) -> (r: bool)
    ensures
        r == is_within(path@, root@),
{
    let a = text::chars_of(normalize(path).as_str());
    let root_text = normalize(root);
    let b = text::chars_of(root_text.as_str());
    if b.len() == 0 {
        return true;
    }
    proof {
        assert(b@.subrange(0, b@.len() as int) =~= b@);
    }
    if !text::starts_with(&a, root_text.as_str()) {
        return false;
    }
    if a.len() == b.len() {
        proof {
            assert(a@.subrange(0, a@.len() as int) =~= a@);
        }
        return true;
    }
    b[b.len() - 1] == '/' || a[b.len()] == '/'
}

/// The path below `root`, for a path that lies there.
pub open spec fn below_spec(p: Seq<char>, root: Seq<char>) -> Seq<char> {
    let a = normal_spec(p);
    let b = normal_spec(root);
    if b.len() == 0 {
        a
    } else if a == b {
        Seq::empty()
    } else if b.last() == '/' {
        a.subrange(b.len() as int, a.len() as int)
    } else {
        a.subrange(b.len() + 1int, a.len() as int)
    }
}

/// The path below `root`, where the path lies there.
pub fn strip_prefix(path: &str, root: &str) -> (r: Option<String>)
    ensures
        match r {
            Some(s) => is_within(path@, root@) && s@ == below_spec(path@, root@),
            None => !is_within(path@, root@),
        },
{
    if !starts_with(path, root) {
        return None;
    }
    let whole = normalize(path);
    let a = text::chars_of(whole.as_str());
    let b = text::chars_of(normalize(root).as_str());
    let n = a.len();
    let m = b.len();
    if m == 0 {
        return Some(whole);
    }
    if text::chars_eq(&a, &b) {
        let s = String::new();
        assert(s@ =~= Seq::<char>::empty());
        return Some(s);
    }
    proof {
        if n == m {
            assert(a@.subrange(0, m as int) =~= a@);
        }
    }
    if b[m - 1] == '/' {
        Some(text::substring(&a, m, n))
    } else {
        Some(text::substring(&a, m + 1, n))
    }
}

} // verus!
