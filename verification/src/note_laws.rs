//! What is read of a note as a whole: its links, its sections, its frontmatter and its type.

use vstd::prelude::*;
use vstd::utf8::encode_utf8;

use crate::json;
use crate::json::YamlView;
use crate::markdown;
use crate::markdown::FrontmatterView;
use crate::markdown_laws;
use crate::markdown_laws::{heading_line, is_line};
use crate::text;
use crate::text_laws;
use crate::types::{ChunkKind, DocType, LinkView};

verus! {

// ── Links ───────────────────────────────────────────────────────────────────

/// A link to be written: the text before it, its target and what is shown for it.
pub struct Link {
    pub before: Seq<char>,
    pub target: Seq<char>,
    pub display: Option<Seq<char>>,
}

/// What stands between the brackets of a link.
pub open spec fn inner(l: Link) -> Seq<char> {
    match l.display {
        Some(d) => l.target + seq!['|'] + d,
        None => l.target,
    }
}

/// Whether a link can be written as it is.
pub open spec fn is_plain_link(l: Link) -> bool {
    &&& !l.before.contains('[')
    &&& !inner(l).contains('[')
    &&& !inner(l).contains(']')
    &&& !l.target.contains('|')
    &&& l.target.len() > 0
}

/// Links with the texts before them, and a text behind the last.
pub open spec fn written(list: Seq<Link>, tail: Seq<char>) -> Seq<char>
    decreases list.len(),
{
    if list.len() == 0 {
        tail
    } else {
        list[0].before + seq!['[', '['] + inner(list[0]) + seq![']', ']'] + written(
            list.skip(1),
            tail,
        )
    }
}

/// Where the `k`-th link starts.
pub open spec fn place(list: Seq<Link>, k: int) -> int
    decreases k,
{
    if k <= 0 {
        list[0].before.len() as int
    } else {
        list[0].before.len() + 4 + inner(list[0]).len() + place(list.skip(1), k - 1)
    }
}

proof fn lemma_links_skip(s: Seq<char>, code: Seq<(int, int)>, i: int, j: int)
    requires
        0 <= i <= j <= s.len(),
        forall|k: int| i <= k < j ==> #[trigger] s[k] != '[',
    ensures
        markdown::links_from(s, code, i) == markdown::links_from(s, code, j),
    decreases j - i,
{
    reveal_strlit("[[");
    if i < j {
        if text::occurs_at(s, "[["@, i) {
            assert(s.subrange(i, i + 2)[0] == s[i]);
        }
        lemma_links_skip(s, code, i + 1, j);
    }
}

proof fn lemma_link_of(l: Link, offset: int)
    requires
        is_plain_link(l),
    ensures
        markdown::link_of(inner(l), offset) == (LinkView {
            target: l.target,
            display: l.display,
            byte_offset: offset,
        }),
{
    let s = inner(l);
    text::lemma_next_sep(s, '|', 0);
    let p = text::next_sep(s, '|', 0);
    let n = l.target.len() as int;
    if p < n {
        assert(s[p] == l.target[p]);
        assert(l.target.contains(l.target[p]));
    }
    match l.display {
        Some(d) => {
            assert(s[n] == '|');
            assert(p == n);
            assert(s.subrange(p + 1, s.len() as int) =~= d);
        },
        None => {
            assert(p == s.len());
        },
    }
    assert(s.subrange(0, p) =~= l.target);
}

proof fn lemma_links_read(s: Seq<char>, i: int, list: Seq<Link>, tail: Seq<char>, k: int)
    requires
        0 <= i <= s.len(),
        s.skip(i) == written(list, tail),
        !s.contains('`'),
        !tail.contains('['),
        forall|j: int| 0 <= j < list.len() ==> is_plain_link(#[trigger] list[j]),
    ensures
        markdown::links_from(s, markdown::fences(s), i).len() == list.len(),
        0 <= k < list.len() ==> markdown::links_from(s, markdown::fences(s), i)[k] == (LinkView {
            target: list[k].target,
            display: list[k].display,
            byte_offset: text::byte_offset(s, i + place(list, k)) as int,
        }),
    decreases list.len(),
{
    reveal_strlit("[[");
    reveal_strlit("]]");
    let code = markdown::fences(s);
    markdown_laws::law_no_code_blocks(s);
    assert(s.skip(i).len() == s.len() - i);
    if list.len() == 0 {
        assert forall|m: int| i <= m < s.len() implies #[trigger] s[m] != '[' by {
            assert(s.skip(i)[m - i] == s[m]);
            assert(tail.contains(tail[m - i]));
        }
        lemma_links_skip(s, code, i, s.len() as int);
    } else {
        let l = list[0];
        assert(is_plain_link(l));
        let rest = list.skip(1);
        let n = l.before.len() as int;
        let m = inner(l).len() as int;
        let all = written(list, tail);
        assert forall|q: int| 0 <= q < all.len() implies s[i + q] == #[trigger] all[q] by {
            assert(s.skip(i)[q] == s[i + q]);
        }
        assert(all.len() == n + 4 + m + written(rest, tail).len());
        let a = i + n;
        assert forall|q: int| i <= q < a implies #[trigger] s[q] != '[' by {
            assert(s[i + (q - i)] == all[q - i]);
            assert(all[q - i] == l.before[q - i]);
            assert(l.before.contains(l.before[q - i]));
        }
        lemma_links_skip(s, code, i, a);
        assert(all[n] == '[' && all[n + 1] == '[');
        assert(s[i + n] == '[' && s[i + (n + 1)] == '[');
        assert(s.subrange(a, a + 2) =~= "[["@);
        let c = a + 2 + m;
        assert(all[n + 2 + m] == ']' && all[n + 3 + m] == ']');
        assert(s[i + (n + 2 + m)] == ']' && s[i + (n + 3 + m)] == ']');
        assert(s.subrange(c, c + 2) =~= "]]"@);
        assert(text::occurs_at(s, "]]"@, c));
        text::lemma_find(s, "]]"@, a + 2);
        let f = text::find_spec(s, "]]"@, a + 2)->Some_0;
        if f < c {
            assert(s.subrange(f, f + 2)[0] == s[f]);
            assert(s[i + (f - i)] == all[f - i]);
            assert(all[f - i] == inner(l)[f - a - 2]);
            assert(inner(l).contains(inner(l)[f - a - 2]));
        }
        assert(f == c);
        assert(s.subrange(a + 2, c) =~= inner(l)) by {
            assert forall|q: int| 0 <= q < m implies s.subrange(a + 2, c)[q] == inner(l)[q] by {
                assert(s[i + (n + 2 + q)] == all[n + 2 + q]);
            }
        }
        let offset = text::byte_offset(s, a) as int;
        lemma_link_of(l, offset);
        assert(!markdown::in_ranges(code, a));
        let next = c + 2;
        assert(s.skip(next) =~= written(rest, tail)) by {
            assert(s.skip(i).skip(next - i) =~= s.skip(next));
            assert(all.skip(next - i) =~= written(rest, tail));
        }
        assert forall|j: int| 0 <= j < rest.len() implies is_plain_link(#[trigger] rest[j]) by {
            assert(is_plain_link(list[j + 1]));
        }
        lemma_links_read(s, next, rest, tail, k - 1);
        let found = markdown::links_from(s, code, i);
        assert(found == seq![markdown::link_of(inner(l), offset)] + markdown::links_from(
            s,
            code,
            next,
        ));
        if 0 < k < list.len() {
            assert(rest[k - 1] == list[k]);
            assert(place(list, k) == n + 4 + m + place(rest, k - 1));
        }
    }
}

/// Links that are written into a text without code are read back: as many, in order, each with its
/// target, what is shown for it, and where it starts.
pub proof fn law_links_read_back(list: Seq<Link>, tail: Seq<char>, k: int)
    requires
        forall|j: int| 0 <= j < list.len() ==> is_plain_link(#[trigger] list[j]),
        !tail.contains('['),
        !written(list, tail).contains('`'),
    ensures
        markdown::links_spec(written(list, tail)).len() == list.len(),
        0 <= k < list.len() ==> markdown::links_spec(written(list, tail))[k] == (LinkView {
            target: list[k].target,
            display: list[k].display,
            byte_offset: encode_utf8(written(list, tail).take(place(list, k))).len() as int,
        }),
{
    let s = written(list, tail);
    assert(s.skip(0) =~= s);
    lemma_links_read(s, 0, list, tail, k);
}

// ── Sections ────────────────────────────────────────────────────────────────

proof fn lemma_heading_found(s: Seq<char>, lines: Seq<(int, int)>, k: int, m: int) -> (r: (int, int))
    requires
        0 <= k <= m < lines.len(),
        markdown::heading_spec(s.subrange(lines[m].0, lines[m].1)) is Some,
    ensures
        ({
            let hs = markdown::headings_from(s, lines, k);
            let h = markdown::heading_spec(s.subrange(lines[m].0, lines[m].1))->Some_0;
            &&& 0 <= r.0 < hs.len()
            &&& hs[r.0] == (lines[m].0, h.0, h.1)
            &&& m < r.1 <= lines.len()
            &&& forall|q: int|
                m < q < r.1 ==> markdown::heading_spec(
                    s.subrange((#[trigger] lines[q]).0, lines[q].1),
                ) is None
            &&& r.1 == lines.len() ==> r.0 + 1 == hs.len()
            &&& r.1 < lines.len() ==> r.0 + 1 < hs.len() && hs[r.0 + 1].0 == lines[r.1].0
                && markdown::heading_spec(s.subrange(lines[r.1].0, lines[r.1].1)) is Some
        }),
    decreases lines.len() - k,
{
    let hs = markdown::headings_from(s, lines, k);
    let rest = markdown::headings_from(s, lines, k + 1);
    if k == m {
        let q = lemma_next_heading(s, lines, k + 1);
        if q < lines.len() {
            assert(hs[1] == rest[0]);
        }
        (0, q)
    } else {
        let r = lemma_heading_found(s, lines, k + 1, m);
        if markdown::heading_spec(s.subrange(lines[k].0, lines[k].1)) is Some {
            assert(hs[r.0 + 1] == rest[r.0]);
            if r.1 < lines.len() {
                assert(hs[r.0 + 2] == rest[r.0 + 1]);
            }
            (r.0 + 1, r.1)
        } else {
            r
        }
    }
}

pub proof fn lemma_next_heading(s: Seq<char>, lines: Seq<(int, int)>, k: int) -> (q: int)
    requires
        0 <= k <= lines.len(),
    ensures
        ({
            let hs = markdown::headings_from(s, lines, k);
            &&& k <= q <= lines.len()
            &&& forall|j: int|
                k <= j < q ==> markdown::heading_spec(
                    s.subrange((#[trigger] lines[j]).0, lines[j].1),
                ) is None
            &&& q == lines.len() ==> hs.len() == 0
            &&& q < lines.len() ==> hs.len() > 0 && hs[0].0 == lines[q].0 && markdown::heading_spec(
                s.subrange(lines[q].0, lines[q].1),
            ) is Some
        }),
    decreases lines.len() - k,
{
    if k < lines.len() && markdown::heading_spec(s.subrange(lines[k].0, lines[k].1)) is None {
        lemma_next_heading(s, lines, k + 1)
    } else {
        k
    }
}

/// Whether a chunk is the section of a heading: it starts with the line of the heading and ends
/// with the text or where the next heading starts.
pub open spec fn is_section(
    c: crate::types::ChunkView,
    s: Seq<char>,
    a: int,
    depth: u8,
    title: Seq<char>,
    e: int,
) -> bool {
    &&& c.kind == ChunkKind::Section
    &&& c.start == encode_utf8(s.take(a)).len()
    &&& c.end == encode_utf8(s.take(e)).len()
    &&& c.depth == depth
    &&& c.label == Some(title)
}

/// Every heading behind the frontmatter starts a section, which reaches to the next heading or to
/// the end.
pub proof fn law_sections(
    s: Seq<char>,
    body: int,
    a: int,
    b: int,
    depth: u8,
    title: Seq<char>,
)
    requires
        0 <= body <= a,
        body == 0 || s[body - 1] == '\n',
        is_line(s, a, b),
        markdown::heading_spec(s.subrange(a, b)) == Some((depth, title)),
    ensures
        exists|j: int, e: int|
            #![trigger is_section(markdown::body_chunks(s, body)[j], s, a, depth, title, e)]
            0 <= j < markdown::body_chunks(s, body).len() && is_section(
                markdown::body_chunks(s, body)[j],
                s,
                a,
                depth,
                title,
                e,
            ) && a < e <= s.len() && (e < s.len() ==> s[e - 1] == '\n' && exists|f: int, d: u8|
                #![trigger heading_line(s.subrange(e, f), d as int)]
                is_line(s, e, f) && heading_line(s.subrange(e, f), d as int)) && forall|
                p: int,
                q: int,
                d: u8,
            |
                #![trigger heading_line(s.subrange(p, q), d as int)]
                a < p < e && is_line(s, p, q) ==> !heading_line(s.subrange(p, q), d as int),
{
    let lines = text::pieces_from(s, '\n', body);
    let hs = markdown::headings(s, body);
    let m = markdown_laws::lemma_line_found(s, body, a, b);
    markdown_laws::lemma_lines_from(s, body);
    let (x, y) = lemma_heading_found(s, lines, 0, m);
    let e = if y < lines.len() {
        lines[y].0
    } else {
        s.len() as int
    };
    let c = markdown::body_chunks(s, body);
    let lead = markdown::lead_chunks(s, body, hs[0].0);
    let j = lead.len() + x;
    assert(c[j] == markdown::section(s, hs, x));
    assert(s.take(s.len() as int) =~= s);
    lemma_line_places(s, body, m, if y < lines.len() {
        y
    } else {
        m
    });
    markdown_laws::law_headings(s.subrange(a, b), depth);
    if a == b {
        let w = choose|w: int| #[trigger]
            markdown_laws::hashes_at(s.subrange(a, b), w, depth as int);
    }
    if y < lines.len() {
        let f = lines[y].1;
        assert(is_line(s, lines[y].0, lines[y].1));
        let d = markdown::heading_spec(s.subrange(e, f))->Some_0.0;
        markdown_laws::law_headings(s.subrange(e, f), d);
        assert(is_line(s, e, f) && heading_line(s.subrange(e, f), d as int));
        assert(e > 0);
    }
    assert forall|p: int, q: int, d: u8|
        #![trigger heading_line(s.subrange(p, q), d as int)]
        a < p < e && is_line(s, p, q) implies !heading_line(s.subrange(p, q), d as int) by {
        let z = markdown_laws::lemma_line_found(s, body, p, q);
        if z <= m {
            lemma_line_places(s, body, z, m);
        } else if y < lines.len() && z >= y {
            lemma_line_places(s, body, y, z);
        } else {
            assert(markdown::heading_spec(s.subrange(lines[z].0, lines[z].1)) is None);
            markdown_laws::law_headings(s.subrange(p, q), d);
        }
    }
    assert(is_section(c[j], s, a, depth, title, e));
}

pub proof fn lemma_line_places(s: Seq<char>, body: int, j: int, m: int)
    requires
        0 <= body <= s.len(),
        0 <= j <= m < text::pieces_from(s, '\n', body).len(),
    ensures
        text::pieces_from(s, '\n', body)[j].0 <= text::pieces_from(s, '\n', body)[m].0,
        j < m ==> text::pieces_from(s, '\n', body)[j].1 < text::pieces_from(s, '\n', body)[m].0,
        body <= text::pieces_from(s, '\n', body)[j].0 <= text::pieces_from(s, '\n', body)[j].1
            <= s.len(),
    decreases m - j,
{
    text::lemma_pieces_from(s, '\n', body);
    let p = text::pieces_from(s, '\n', body);
    assert(p[j].0 <= p[j].1 && p[m].0 <= p[m].1);
    if j < m {
        lemma_line_places(s, body, j, m - 1);
        assert(p[m - 1 + 1].0 == p[m - 1].1 + 1);
    }
}

// ── Tags ────────────────────────────────────────────────────────────────────

pub proof fn lemma_add_each(acc: Seq<Seq<char>>, xs: Seq<Seq<char>>, i: int, x: Seq<char>)
    requires
        0 <= i,
    ensures
        acc.contains(x) ==> markdown::add_each(acc, xs, i).contains(x),
        i <= xs.len() && xs.skip(i).contains(x) ==> markdown::add_each(acc, xs, i).contains(x),
        markdown::add_each(acc, xs, i).contains(x) ==> acc.contains(x) || xs.contains(x),
    decreases xs.len() - i,
{
    if i < xs.len() {
        text::lemma_add_once(acc, xs[i]);
        lemma_add_each(text::add_once(acc, xs[i]), xs, i + 1, x);
        if xs.skip(i).contains(x) {
            let k = xs.skip(i).index_of(x);
            if k > 0 {
                assert(xs.skip(i + 1)[k - 1] == x);
            }
        }
        assert(xs.contains(xs[i]));
    }
}

/// A note has the tags of its frontmatter and those that stand in its text, and every part of a tag
/// that ends before a slash.
pub proof fn law_note_tags(s: Seq<char>, fm: FrontmatterView, x: Seq<char>, k: int)
    requires
        fm.tags.contains(x) || markdown::inline_tags_spec(s).contains(x),
    ensures
        markdown::document_spec(s, fm).tags.contains(x),
        0 <= k < x.len() && x[k] == '/' ==> markdown::document_spec(s, fm).tags.contains(x.take(k)),
        markdown::document_spec(s, fm).tags.no_duplicates(),
{
    let own = markdown::inline_tags_spec(s);
    assert(own.skip(0) =~= own);
    lemma_add_each(fm.tags, own, 0, x);
    let all = markdown::add_each(fm.tags, own, 0);
    markdown::law_flatten_closed(all);
    let m = all.index_of(x);
    assert(markdown::flatten_spec(all).contains(all[m]));
    if 0 <= k < x.len() && x[k] == '/' {
        assert(all[m][k] == '/');
    }
}

// ── Frontmatter ─────────────────────────────────────────────────────────────

/// A frontmatter block reaches from the three dashes that open it to the next line that starts with
/// three dashes, and what stands between is read as YAML.
pub proof fn law_frontmatter_block(yaml: Seq<char>, rest: Seq<char>)
    requires
        yaml.len() > 0,
        yaml[0] == '\n',
        forall|k: int|
            0 <= k && k + 4 <= yaml.len() ==> #[trigger] yaml.subrange(k, k + 4) != seq![
                '\n',
                '-',
                '-',
                '-',
            ],
    ensures
        ({
            let s = seq!['-', '-', '-'] + yaml + seq!['\n', '-', '-', '-', '\n'] + rest;
            &&& markdown::frontmatter_bounds(s) == Some(
                (0int, 4 + yaml.len() as int, 8 + yaml.len() as int),
            )
            &&& markdown::frontmatter_yaml(s) == yaml + seq!['\n']
        }),
{
    reveal_strlit("---");
    reveal_strlit("\n---");
    reveal_strlit("\n");
    reveal_strlit("\r\n");
    let dashes = seq!['\n', '-', '-', '-'];
    assert("\n---"@ =~= dashes);
    let s = seq!['-', '-', '-'] + yaml + seq!['\n', '-', '-', '-', '\n'] + rest;
    let n = yaml.len() as int;
    text_laws::law_white_space('-');
    assert(s[0] == '-');
    assert(text::trim_start_spec(s) == s);
    assert(s.subrange(0, 3) =~= "---"@);
    let q = 3 + n;
    assert(s.subrange(q, q + 4) =~= dashes);
    text::lemma_find(s, dashes, 3);
    assert(text::occurs_at(s, dashes, q));
    let f = text::find_spec(s, dashes, 3)->Some_0;
    if f < q {
        let t = s.subrange(f, f + 4);
        assert(t == dashes);
        if f + 4 <= q {
            assert(t =~= yaml.subrange(f - 3, f - 3 + 4));
        } else {
            assert(t[q - f] == s[q]);
        }
    }
    assert(f == q);
    assert(s.subrange(q + 4, q + 5) =~= "\n"@);
    assert(s.subrange(3, q + 1) =~= yaml + seq!['\n']);
}

/// A text that does not begin with three dashes, but for white space, has no frontmatter.
pub proof fn law_no_frontmatter(indent: Seq<char>, s: Seq<char>)
    requires
        text_laws::is_blank(indent),
        s.len() > 0,
        !text::is_white_space(s[0]),
        s[0] != '-' || s.len() < 3 || s[1] != '-' || s[2] != '-',
    ensures
        markdown::frontmatter_bounds(indent + s) is None,
{
    reveal_strlit("---");
    let all = indent + s;
    let w = indent.len() as int;
    assert(all.take(w) =~= indent);
    markdown_laws::lemma_blank_front(all, w);
    assert(all.skip(w) =~= s);
    if text::occurs_at(all, "---"@, w) {
        let t = all.subrange(w, w + 3);
        assert(t[0] == all[w] && t[1] == all[w + 1] && t[2] == all[w + 2]);
    }
}

proof fn lemma_yaml_text(q: Seq<YamlView>, j: int, x: Seq<char>)
    requires
        0 <= j < q.len(),
        q[j] == YamlView::Text(x),
    ensures
        markdown::yaml_texts(q).contains(x),
    decreases q.len(),
{
    let front = markdown::yaml_texts(q.drop_last());
    let all = markdown::yaml_texts(q);
    if j < q.len() - 1 {
        assert(q.drop_last()[j] == q[j]);
        lemma_yaml_text(q.drop_last(), j, x);
        let k = front.index_of(x);
        assert(all[k] == x);
    } else {
        assert(all[front.len() as int] == x);
    }
}

proof fn lemma_comma_tag(t: Seq<char>, ps: Seq<(int, int)>, i: int, k: int)
    requires
        0 <= i <= k < ps.len(),
        text::trim_spec(t.subrange(ps[k].0, ps[k].1)).len() > 0,
    ensures
        markdown::comma_tags_from(t, ps, i).contains(
            text::trim_spec(t.subrange(ps[k].0, ps[k].1)),
        ),
    decreases ps.len() - i,
{
    let x = text::trim_spec(t.subrange(ps[k].0, ps[k].1));
    let rest = markdown::comma_tags_from(t, ps, i + 1);
    let all = markdown::comma_tags_from(t, ps, i);
    if i < k {
        lemma_comma_tag(t, ps, i + 1, k);
        let j = rest.index_of(x);
        if all.len() > rest.len() {
            assert(all[j + 1] == x);
        } else {
            assert(all[j] == x);
        }
    } else {
        assert(all[0] == x);
    }
}

proof fn lemma_field_tags(m: Seq<(YamlView, YamlView)>, i: int, x: Seq<char>)
    requires
        0 <= i < m.len(),
        m[i].0 == YamlView::Text("tags"@),
        markdown::tags_of_value(m[i].1).contains(x),
    ensures
        markdown::tags_of_fields(m).contains(x),
    decreases m.len(),
{
    let less = m.drop_last();
    let rest = markdown::tags_of_fields(less);
    let all = markdown::tags_of_fields(m);
    if i < m.len() - 1 {
        assert(less[i] == m[i]);
        lemma_field_tags(less, i, x);
        let k = rest.index_of(x);
        assert(all[k] == x);
    } else {
        let own = markdown::tags_of_value(m[i].1);
        let k = own.index_of(x);
        assert(all[rest.len() + k] == x);
    }
}

/// Each text that the field `tags` of the frontmatter lists is a tag.
pub proof fn law_listed_tags(m: Seq<(YamlView, YamlView)>, i: int, q: Seq<YamlView>, j: int, x: Seq<char>)
    requires
        0 <= i < m.len(),
        m[i] == (YamlView::Text("tags"@), YamlView::Sequence(q)),
        0 <= j < q.len(),
        q[j] == YamlView::Text(x),
    ensures
        markdown::tags_of_fields(m).contains(x),
{
    lemma_yaml_text(q, j, x);
    lemma_field_tags(m, i, x);
}

/// Where the field `tags` of the frontmatter is one text, what stands between its commas is a tag,
/// without white space around it.
pub proof fn law_comma_tags(
    m: Seq<(YamlView, YamlView)>,
    i: int,
    before: Seq<char>,
    gap: Seq<char>,
    x: Seq<char>,
    tail: Seq<char>,
    after: Seq<char>,
)
    requires
        0 <= i < m.len(),
        m[i] == (
            YamlView::Text("tags"@),
            YamlView::Text(before + (gap + x + tail) + after),
        ),
        before.len() == 0 || before.last() == ',',
        after.len() == 0 || after[0] == ',',
        text_laws::is_blank(gap),
        text_laws::is_blank(tail),
        text_laws::is_trimmed(x),
        x.len() > 0,
        !gap.contains(','),
        !x.contains(','),
        !tail.contains(','),
    ensures
        markdown::tags_of_fields(m).contains(x),
{
    let part = gap + x + tail;
    let t = before + part + after;
    let a = before.len() as int;
    let b = a + part.len();
    assert forall|k: int| a <= k < b implies #[trigger] t[k] != ',' by {
        assert(t[k] == part[k - a]);
        if k - a < gap.len() {
            assert(gap.contains(gap[k - a]));
        } else if k - a < gap.len() + x.len() {
            assert(x.contains(x[k - a - gap.len()]));
        } else {
            assert(tail.contains(tail[k - a - gap.len() - x.len()]));
        }
    }
    if b < t.len() {
        assert(t[b] == after[0]);
    }
    if a > 0 {
        assert(t[a - 1] == before.last());
    }
    let k = lemma_piece_found(t, ',', 0, a, b);
    assert(t.subrange(a, b) =~= part);
    text_laws::law_trim(gap, x, tail);
    lemma_comma_tag(t, text::pieces(t, ','), 0, k);
    lemma_field_tags(m, i, x);
}

/// Where a piece between separators stands among those from a position on.
proof fn lemma_piece_found(s: Seq<char>, sep: char, i: int, a: int, b: int) -> (k: int)
    requires
        0 <= i <= a <= b <= s.len(),
        i == 0 || s[i - 1] == sep,
        a == 0 || s[a - 1] == sep,
        b == s.len() || s[b] == sep,
        forall|j: int| a <= j < b ==> #[trigger] s[j] != sep,
    ensures
        0 <= k < text::pieces_from(s, sep, i).len(),
        text::pieces_from(s, sep, i)[k] == (a, b),
    decreases s.len() - i,
{
    text::lemma_next_sep(s, sep, i);
    let e = text::next_sep(s, sep, i);
    let all = text::pieces_from(s, sep, i);
    if a == i {
        if e < b {
            assert(s[e] != sep);
        }
        assert(all[0] == (a, b));
        0
    } else {
        assert(e < a);
        let rest = text::pieces_from(s, sep, e + 1);
        let k = lemma_piece_found(s, sep, e + 1, a, b);
        assert(all == seq![(i, e)] + rest);
        assert(all[k + 1] == rest[k]);
        k + 1
    }
}

/// The last field of a name is kept, as JSON.
pub proof fn law_fields_kept(m: Seq<(YamlView, YamlView)>, i: int, name: Seq<char>)
    requires
        0 <= i < m.len(),
        m[i].0 == YamlView::Text(name),
        forall|j: int| i < j < m.len() ==> (#[trigger] m[j]).0 != YamlView::Text(name),
    ensures
        markdown::map_of_fields(m).dom().contains(name),
        markdown::map_of_fields(m)[name] == json::json_of_yaml(m[i].1),
    decreases m.len(),
{
    if i < m.len() - 1 {
        let less = m.drop_last();
        assert(less[i] == m[i]);
        assert(m[m.len() - 1].0 != YamlView::Text(name));
        law_fields_kept(less, i, name);
    }
}

// ── Types ───────────────────────────────────────────────────────────────────

/// How often a character occurs.
pub open spec fn occurrences(s: Seq<char>, c: char) -> nat
    decreases s.len(),
{
    if s.len() == 0 {
        0
    } else {
        occurrences(s.drop_last(), c) + if s.last() == c {
            1nat
        } else {
            0nat
        }
    }
}

/// How many lines a text has: a line end ends a line, and what stands behind the last is one more.
pub open spec fn lines_in(s: Seq<char>) -> int {
    occurrences(s, '\n') + if s.len() > 0 && s.last() != '\n' {
        1int
    } else {
        0int
    }
}

proof fn lemma_occurrences_front(s: Seq<char>, c: char, e: int)
    requires
        0 <= e <= s.len(),
    ensures
        occurrences(s, c) == occurrences(s.take(e), c) + occurrences(s.skip(e), c),
    decreases s.len(),
{
    if e < s.len() {
        lemma_occurrences_front(s.drop_last(), c, e);
        assert(s.drop_last().take(e) =~= s.take(e));
        assert(s.skip(e).drop_last() =~= s.drop_last().skip(e));
        assert(s.skip(e).last() == s.last());
    } else {
        assert(s.take(e) =~= s);
        assert(s.skip(e) =~= Seq::<char>::empty());
    }
}

proof fn lemma_occurrences_none(s: Seq<char>, c: char)
    requires
        !s.contains(c),
    ensures
        occurrences(s, c) == 0,
    decreases s.len(),
{
    if s.len() > 0 {
        assert(s.contains(s[s.len() - 1]));
        assert forall|i: int| 0 <= i < s.drop_last().len() implies s.drop_last()[i] != c by {
            assert(s.contains(s[i]));
        }
        lemma_occurrences_none(s.drop_last(), c);
    }
}

proof fn lemma_pieces_count(s: Seq<char>, i: int)
    requires
        0 <= i <= s.len(),
    ensures
        text::pieces_from(s, '\n', i).len() == occurrences(s.skip(i), '\n') + 1,
        ({
            let p = text::pieces_from(s, '\n', i);
            p.last().0 == p.last().1 <==> i == s.len() || s.last() == '\n'
        }),
    decreases s.len() - i,
{
    text::lemma_next_sep(s, '\n', i);
    let e = text::next_sep(s, '\n', i);
    let t = s.skip(i);
    let p = text::pieces_from(s, '\n', i);
    if e < s.len() {
        lemma_pieces_count(s, e + 1);
        let rest = text::pieces_from(s, '\n', e + 1);
        assert(p == seq![(i, e)] + rest);
        text::lemma_pieces_from(s, '\n', e + 1);
        assert(p.last() == rest.last());
        lemma_occurrences_front(t, '\n', e + 1 - i);
        assert(t.skip(e + 1 - i) =~= s.skip(e + 1));
        let head = t.take(e + 1 - i);
        assert(head.last() == '\n');
        let line = head.drop_last();
        assert forall|k: int| 0 <= k < line.len() implies line[k] != '\n' by {
            assert(line[k] == s[i + k]);
        }
        lemma_occurrences_none(line, '\n');
    } else {
        assert(p =~= seq![(i, s.len() as int)]);
        assert forall|k: int| 0 <= k < t.len() implies t[k] != '\n' by {
            assert(t[k] == s[i + k]);
        }
        lemma_occurrences_none(t, '\n');
        if i < s.len() {
            assert(s[s.len() - 1] != '\n');
        }
    }
}

/// How the type of a note is told: a note that names where it comes from is a reference. One with
/// three boxes to check or more, on more than a fifth of its lines, is a list of tasks. One with five
/// links or more, on more than three tenths of its lines, is a map of content.
pub proof fn law_note_type(s: Seq<char>, fm: FrontmatterView)
    ensures
        ({
            let boxes = text::count_matches_spec(s, "- [ ]"@, 0) + text::count_matches_spec(
                s,
                "- [x]"@,
                0,
            ) + text::count_matches_spec(s, "- [X]"@, 0);
            let links = markdown::links_spec(s).len();
            let lines = if lines_in(s) == 0 {
                1
            } else {
                lines_in(s)
            };
            let told = markdown::document_spec(s, fm).auto_type;
            let sourced = fm.fields.dom().contains("url"@) || fm.fields.dom().contains("isbn"@)
                || fm.fields.dom().contains("source"@);
            &&& sourced ==> told == Some(DocType::Reference)
            &&& !sourced && boxes >= 3 && boxes * 5 > lines ==> told == Some(DocType::Task)
            &&& !sourced && !(boxes >= 3 && boxes * 5 > lines) && links >= 5 && links * 10 > lines
                * 3 ==> told == Some(DocType::Moc)
            &&& !sourced && boxes < 3 && links < 5 ==> told is None
            &&& !sourced && boxes * 5 <= lines && links * 10 <= lines * 3 ==> told is None
        }),
{
    lemma_pieces_count(s, 0);
    text::lemma_pieces_from(s, '\n', 0);
    assert(s.skip(0) =~= s);
}

} // verus!
