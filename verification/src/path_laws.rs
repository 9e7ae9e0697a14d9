//! What paths are made of.

use vstd::prelude::*;

use crate::paths;
use crate::text;

verus! {

/// Whether a text is the name of a file or a folder.
pub open spec fn is_name(n: Seq<char>) -> bool {
    n.len() > 0 && !n.contains('/') && n != seq!['.'] && n != seq!['.', '.']
}

/// Whether a path ends in a name.
pub open spec fn ends_in_name(d: Seq<char>) -> bool {
    &&& d.len() > 0
    &&& d.last() != '/'
    &&& !(d.len() > 1 && d.last() == '.' && d[d.len() - 2] == '/')
}

proof fn lemma_trimmed(d: Seq<char>, n: Seq<char>)
    requires
        is_name(n),
        d.len() > 0 ==> d.last() == '/',
    ensures
        paths::trim_path_spec(d + n) == d + n,
        paths::name_start(d + n) == d.len(),
{
    let p = d + n;
    assert(p.last() == n.last());
    assert(n.contains(n.last()));
    if n.len() > 1 {
        assert(p[p.len() - 2] == n[n.len() - 2]);
        assert(n.contains(n[n.len() - 2]));
    } else if n.last() == '.' {
        assert(n =~= seq!['.']);
    }
    lemma_name_start(d, n);
}

proof fn lemma_name_start(d: Seq<char>, n: Seq<char>)
    requires
        !n.contains('/'),
        d.len() > 0 ==> d.last() == '/',
    ensures
        paths::name_start(d + n) == d.len(),
    decreases n.len(),
{
    let p = d + n;
    if n.len() == 0 {
        assert(p =~= d);
    } else {
        assert(n.contains(n.last()));
        assert(p.last() == n.last());
        assert(p.drop_last() =~= d + n.drop_last());
        assert(!n.drop_last().contains('/')) by {
            if n.drop_last().contains('/') {
                let k = n.drop_last().index_of('/');
                assert(n[k] == '/');
            }
        }
        lemma_name_start(d, n.drop_last());
    }
}

/// The file name of a path is the name behind its last separator.
pub proof fn law_file_name(d: Seq<char>, n: Seq<char>)
    requires
        is_name(n),
        d.len() > 0 ==> d.last() == '/',
    ensures
        paths::file_name_spec(d + n) == Some(n),
{
    lemma_trimmed(d, n);
    assert((d + n).subrange(d.len() as int, (d + n).len() as int) =~= n);
}

/// The parent of a path is what stands before the separator of its last name.
pub proof fn law_parent(d: Seq<char>, n: Seq<char>)
    requires
        is_name(n),
    ensures
        ends_in_name(d) ==> paths::parent_spec(d + seq!['/'] + n) == Some(d),
        paths::parent_spec(n) == Some(Seq::<char>::empty()),
        paths::parent_spec(seq!['/'] + n) == Some(seq!['/']),
{
    let e = Seq::<char>::empty();
    lemma_trimmed(e, n);
    assert(e + n =~= n);
    assert(n.take(0) =~= e);
    assert(n != seq!['/']) by {
        assert(n.contains(n[0]));
    }
    let r = seq!['/'];
    lemma_trimmed(r, n);
    assert((r + n).take(1) =~= r);
    assert((r + n).len() > 1);
    if ends_in_name(d) {
        let a = d + seq!['/'];
        lemma_trimmed(a, n);
        assert((a + n).take(a.len() as int) =~= a);
        assert(a.drop_last() =~= d);
        assert((a + n).len() > 1);
        assert(paths::trim_path_spec(d) == d);
        assert(paths::trim_path_spec(a) == d);
    }
}

proof fn lemma_last_dot(a: Seq<char>, b: Seq<char>)
    requires
        !b.contains('.'),
    ensures
        paths::last_dot(a + b) == paths::last_dot(a),
    decreases b.len(),
{
    let p = a + b;
    if b.len() == 0 {
        assert(p =~= a);
    } else {
        assert(b.contains(b.last()));
        assert(p.drop_last() =~= a + b.drop_last());
        assert(!b.drop_last().contains('.')) by {
            if b.drop_last().contains('.') {
                let k = b.drop_last().index_of('.');
                assert(b[k] == '.');
            }
        }
        lemma_last_dot(a, b.drop_last());
    }
}

/// The extension of a file is what stands behind the last dot of its name, and the stem what stands
/// before it. A name without a dot, or with one in front alone, has no extension.
pub proof fn law_extension(d: Seq<char>, stem: Seq<char>, ext: Seq<char>)
    requires
        d.len() > 0 ==> d.last() == '/',
        !ext.contains('.'),
    ensures
        stem.len() > 0 && is_name(stem + seq!['.'] + ext) ==> {
            let p = d + (stem + seq!['.'] + ext);
            paths::extension_spec(p) == Some(ext) && paths::file_stem_spec(p) == Some(stem)
        },
        is_name(ext) ==> paths::extension_spec(d + ext) is None && paths::file_stem_spec(d + ext)
            == Some(ext),
        is_name(seq!['.'] + ext) ==> paths::extension_spec(d + (seq!['.'] + ext)) is None
            && paths::file_stem_spec(d + (seq!['.'] + ext)) == Some(seq!['.'] + ext),
{
    let dot = seq!['.'];
    let n = stem + dot + ext;
    lemma_last_dot(stem + dot, ext);
    assert((stem + dot).last() == '.');
    assert(paths::last_dot(stem + dot) == stem.len());
    assert(n.subrange(stem.len() as int + 1, n.len() as int) =~= ext);
    assert(n.take(stem.len() as int) =~= stem);
    if is_name(n) {
        law_file_name(d, n);
    }
    let e = Seq::<char>::empty();
    lemma_last_dot(e, ext);
    assert(e + ext =~= ext);
    if is_name(ext) {
        law_file_name(d, ext);
    }
    lemma_last_dot(dot, ext);
    assert(dot.last() == '.');
    assert(paths::last_dot(dot) == 0);
    if is_name(dot + ext) {
        law_file_name(d, dot + ext);
    }
}

/// A path joined to another stands behind it, after one separator. An absolute one stands alone.
pub proof fn law_join(d: Seq<char>, n: Seq<char>)
    ensures
        n.len() > 0 && n[0] == '/' ==> paths::join_spec(d, n) == n,
        !(n.len() > 0 && n[0] == '/') && d.len() == 0 ==> paths::join_spec(d, n) == n,
        !(n.len() > 0 && n[0] == '/') && d.len() > 0 && d.last() == '/' ==> paths::join_spec(d, n)
            == d + n,
        !(n.len() > 0 && n[0] == '/') && d.len() > 0 && d.last() != '/' ==> paths::join_spec(d, n)
            == d + seq!['/'] + n,
{
    if d.len() == 0 {
        assert(d + n =~= n);
    }
    assert(d.push('/') =~= d + seq!['/']);
}

/// What is joined to a folder has that folder for its parent, and keeps its name.
pub proof fn law_join_then_parent(d: Seq<char>, n: Seq<char>)
    requires
        is_name(n),
        ends_in_name(d),
    ensures
        paths::parent_spec(paths::join_spec(d, n)) == Some(d),
        paths::file_name_spec(paths::join_spec(d, n)) == Some(n),
{
    assert(n.contains(n[0]));
    law_join(d, n);
    law_parent(d, n);
    law_file_name(d + seq!['/'], n);
}

/// A path lies at a folder or below it, component by component, and not where names only begin alike.
pub proof fn law_within(p: Seq<char>, root: Seq<char>, rest: Seq<char>)
    requires
        paths::normal_spec(p) == p,
        paths::normal_spec(root) == root,
        root.len() > 0,
        root.last() != '/',
    ensures
        p == root ==> paths::is_within(p, root) && paths::below_spec(p, root).len() == 0,
        p == root + seq!['/'] + rest ==> paths::is_within(p, root) && paths::below_spec(p, root)
            == rest,
        paths::is_within(p, root) && p != root ==> p.len() > root.len() && p.take(root.len() as int)
            == root && p[root.len() as int] == '/',
{
    let n = root.len() as int;
    if p == root + seq!['/'] + rest {
        assert(p.subrange(0, n) =~= root);
        assert(p.subrange(n + 1, p.len() as int) =~= rest);
        assert(p.len() > n);
    }
    if text::starts_with_spec(p, root) {
        assert(p.subrange(0, n) =~= p.take(n));
        if p.len() == n {
            assert(p.take(n) =~= p);
        }
    }
}

/// Whether a separator at a position stands before a name, and not before another separator, the end
/// or a lone dot.
pub open spec fn joins_well(p: Seq<char>, i: int) -> bool {
    p[i] == '/' ==> {
        &&& i + 1 < p.len()
        &&& p[i + 1] != '/'
        &&& p[i + 1] == '.' ==> i + 2 < p.len() && p[i + 2] != '/'
    }
}

proof fn lemma_pieces_meet(p: Seq<char>, i: int, k: int)
    requires
        0 <= i <= p.len(),
        0 <= k < text::pieces_from(p, '/', i).len(),
    ensures
        ({
            let ps = text::pieces_from(p, '/', i);
            &&& i <= ps[k].0 <= ps[k].1 <= p.len()
            &&& k == 0 ==> ps[k].0 == i
            &&& k > 0 ==> ps[k].0 == ps[k - 1].1 + 1 && p[ps[k - 1].1] == '/'
            &&& k + 1 < ps.len() ==> ps[k].1 < p.len() && p[ps[k].1] == '/'
            &&& k + 1 == ps.len() ==> ps[k].1 == p.len()
            &&& forall|m: int| ps[k].0 <= m < ps[k].1 ==> #[trigger] p[m] != '/'
        }),
    decreases p.len() - i,
{
    text::lemma_next_sep(p, '/', i);
    let e = text::next_sep(p, '/', i);
    let ps = text::pieces_from(p, '/', i);
    if e < p.len() {
        let rest = text::pieces_from(p, '/', e + 1);
        text::lemma_pieces_from(p, '/', e + 1);
        if k > 0 {
            lemma_pieces_meet(p, e + 1, k - 1);
            assert(ps[k] == rest[k - 1]);
            if k > 1 {
                assert(ps[k - 1] == rest[k - 2]);
            }
        }
    }
}

proof fn lemma_normal(p: Seq<char>, k: int)
    requires
        p.len() > 0,
        forall|i: int| 0 <= i < p.len() ==> #[trigger] joins_well(p, i),
        0 < k <= text::pieces(p, '/').len(),
        text::pieces(p, '/')[k - 1].1 > 0,
        k == 1 || text::pieces(p, '/')[k - 1].0 < text::pieces(p, '/')[k - 1].1,
    ensures
        paths::normal_from(
            p,
            text::pieces(p, '/'),
            k,
            p.take(text::pieces(p, '/')[k - 1].1),
        ) == p,
    decreases text::pieces(p, '/').len() - k,
{
    let ps = text::pieces(p, '/');
    lemma_pieces_meet(p, 0, k - 1);
    let a = ps[k - 1].1;
    let acc = p.take(a);
    if k == ps.len() {
        assert(acc =~= p);
    } else {
        lemma_pieces_meet(p, 0, k);
        let c = p.subrange(ps[k].0, ps[k].1);
        assert(joins_well(p, a));
        assert(ps[k].0 == a + 1);
        if ps[k].1 == ps[k].0 {
            assert(k + 1 < ps.len() || ps[k].1 == p.len());
        }
        assert(c.len() > 0);
        if c == seq!['.'] {
            assert(c[0] == p[a + 1]);
            assert(ps[k].1 == a + 2);
        }
        assert(acc.last() == p[a - 1]);
        assert(p[a - 1] != '/');
        assert(acc.push('/') + c =~= p.take(ps[k].1));
        lemma_normal(p, k + 1);
    }
}

/// A path with one separator between names, none at the end and no lone dots is as it should be.
pub proof fn law_normal(p: Seq<char>)
    requires
        p.len() > 1,
        forall|i: int| 0 <= i < p.len() ==> #[trigger] joins_well(p, i),
    ensures
        paths::normal_spec(p) == p,
{
    let ps = text::pieces(p, '/');
    text::lemma_pieces_from(p, '/', 0);
    lemma_pieces_meet(p, 0, 0);
    let c = p.subrange(ps[0].0, ps[0].1);
    if p[0] == '/' {
        assert(joins_well(p, 0));
        assert(ps[0].1 == 0) by {
            if ps[0].1 > 0 {
                assert(p[0] != '/');
            }
        }
        assert(c.len() == 0);
        let root = seq!['/'];
        assert(ps.len() > 1);
        lemma_pieces_meet(p, 0, 1);
        let d = p.subrange(ps[1].0, ps[1].1);
        assert(ps[1].0 == 1);
        if ps[1].1 == 1 {
            assert(ps.len() > 2 || ps[1].1 == p.len());
        }
        assert(d.len() > 0);
        if d == seq!['.'] {
            assert(d[0] == p[1]);
            assert(ps[1].1 == 2);
        }
        assert(root + d =~= p.take(ps[1].1));
        lemma_normal(p, 2);
        assert(paths::normal_from(p, ps, 1, root) == p);
        assert(paths::normal_from(p, ps, 0, root) == p);
    } else {
        if ps[0].1 == 0 {
            assert(ps.len() > 1 || p.len() == 0);
        }
        assert(c.len() > 0);
        assert(Seq::<char>::empty() + c =~= p.take(ps[0].1));
        lemma_normal(p, 1);
        assert(paths::normal_from(p, ps, 0, Seq::empty()) == p);
    }
}

} // verus!
