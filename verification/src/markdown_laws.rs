//! What is read of Markdown notes: lines, headings, code blocks, tags, links and sections.

use vstd::prelude::*;

use crate::markdown;
use crate::text;
use crate::text_laws;

verus! {

// ── Lines ───────────────────────────────────────────────────────────────────

/// Whether a range is a line: it starts behind a line end or with the text, ends before one or with
/// the text, and holds none.
pub open spec fn is_line(s: Seq<char>, a: int, b: int) -> bool {
    &&& 0 <= a <= b <= s.len()
    &&& a == 0 || s[a - 1] == '\n'
    &&& b == s.len() || s[b] == '\n'
    &&& forall|i: int| a <= i < b ==> #[trigger] s[i] != '\n'
}

proof fn lemma_next_line_end(s: Seq<char>, i: int)
    requires
        0 <= i <= s.len(),
    ensures
        i <= text::next_sep(s, '\n', i) <= s.len(),
        text::next_sep(s, '\n', i) < s.len() ==> s[text::next_sep(s, '\n', i)] == '\n',
        forall|k: int| i <= k < text::next_sep(s, '\n', i) ==> #[trigger] s[k] != '\n',
    decreases s.len() - i,
{
    if i < s.len() && s[i] != '\n' {
        lemma_next_line_end(s, i + 1);
    }
}

/// The lines from a position on that is the start of one.
pub proof fn lemma_lines_from(s: Seq<char>, i: int)
    requires
        0 <= i <= s.len(),
        i == 0 || s[i - 1] == '\n',
    ensures
        forall|k: int|
            #![trigger text::pieces_from(s, '\n', i)[k]]
            0 <= k < text::pieces_from(s, '\n', i).len() ==> is_line(
                s,
                text::pieces_from(s, '\n', i)[k].0,
                text::pieces_from(s, '\n', i)[k].1,
            ) && i <= text::pieces_from(s, '\n', i)[k].0,
    decreases s.len() - i,
{
    lemma_next_line_end(s, i);
    let e = text::next_sep(s, '\n', i);
    let all = text::pieces_from(s, '\n', i);
    if e < s.len() {
        lemma_lines_from(s, e + 1);
        let rest = text::pieces_from(s, '\n', e + 1);
        assert forall|k: int|
            #![trigger all[k]]
            0 <= k < all.len() implies is_line(s, all[k].0, all[k].1) && i <= all[k].0 by {
            if k > 0 {
                assert(all[k] == rest[k - 1]);
            }
        }
    } else {
        assert(all =~= seq![(i, s.len() as int)]);
    }
}

/// Where a line stands among those from a position on.
pub proof fn lemma_line_found(s: Seq<char>, i: int, a: int, b: int) -> (k: int)
    requires
        0 <= i <= a,
        i == 0 || s[i - 1] == '\n',
        is_line(s, a, b),
    ensures
        0 <= k < text::pieces_from(s, '\n', i).len(),
        text::pieces_from(s, '\n', i)[k] == (a, b),
    decreases s.len() - i,
{
    lemma_next_line_end(s, i);
    let e = text::next_sep(s, '\n', i);
    let all = text::pieces_from(s, '\n', i);
    if a == i {
        if e < b {
            assert(s[e] != '\n');
        }
        if b < e {
            assert(s[b] != '\n');
        }
        assert(all[0] == (a, b));
        0
    } else {
        if e >= a {
            assert(s[a - 1] != '\n');
        }
        let rest = text::pieces_from(s, '\n', e + 1);
        let k = lemma_line_found(s, e + 1, a, b);
        assert(all == seq![(i, e)] + rest);
        assert(all[k + 1] == rest[k]);
        k + 1
    }
}

/// The lines of a text are what stands between its line ends, all of them.
pub proof fn law_lines(s: Seq<char>, a: int, b: int)
    ensures
        is_line(s, a, b) <==> text::pieces(s, '\n').contains((a, b)),
{
    lemma_lines_from(s, 0);
    let all = text::pieces(s, '\n');
    if is_line(s, a, b) {
        let k = lemma_line_found(s, 0, a, b);
        assert(all[k] == (a, b));
    }
    if all.contains((a, b)) {
        let k = all.index_of((a, b));
        assert(all[k] == (a, b));
    }
}

// ── Headings ────────────────────────────────────────────────────────────────

/// Whether a line is a heading of a depth: white space, one to six `#`, and then a blank or nothing.
pub open spec fn heading_line(l: Seq<char>, depth: int) -> bool {
    1 <= depth <= 6 && exists|w: int| #[trigger] hashes_at(l, w, depth) && text_laws::is_blank(
        l.take(w),
    )
}

/// Whether so many `#` stand at a position, and then a blank or nothing.
pub open spec fn hashes_at(l: Seq<char>, w: int, n: int) -> bool {
    &&& 0 <= w
    &&& 0 <= n
    &&& w + n <= l.len()
    &&& forall|i: int| w <= i < w + n ==> #[trigger] l[i] == '#'
    &&& w + n == l.len() || l[w + n] == ' '
}

proof fn lemma_leading(s: Seq<char>, c: char)
    ensures
        markdown::leading_count(s, c) <= s.len(),
        forall|i: int| 0 <= i < markdown::leading_count(s, c) ==> #[trigger] s[i] == c,
        markdown::leading_count(s, c) < s.len() ==> s[markdown::leading_count(s, c) as int] != c,
    decreases s.len(),
{
    if s.len() > 0 && s[0] == c {
        let t = s.subrange(1, s.len() as int);
        lemma_leading(t, c);
        assert forall|i: int| 0 <= i < markdown::leading_count(s, c) implies #[trigger] s[i] == c by {
            if i > 0 {
                assert(t[i - 1] == s[i]);
            }
        }
        let n = markdown::leading_count(t, c);
        if n < t.len() {
            assert(s[n as int + 1] == t[n as int]);
        }
    }
}

pub proof fn lemma_blank_front(l: Seq<char>, w: int)
    requires
        0 <= w <= l.len(),
        text_laws::is_blank(l.take(w)),
        w < l.len() ==> !text::is_white_space(l[w]),
    ensures
        text::trim_start_spec(l) == l.skip(w),
    decreases l.len(),
{
    if w > 0 {
        let t = l.subrange(1, l.len() as int);
        assert(l.take(w)[0] == l[0]);
        assert forall|i: int| 0 <= i < t.take(w - 1).len() implies text::is_white_space(
            #[trigger] t.take(w - 1)[i],
        ) by {
            assert(t.take(w - 1)[i] == l.take(w)[i + 1]);
        }
        if w < l.len() {
            assert(t[w - 1] == l[w]);
        }
        lemma_blank_front(t, w - 1);
        assert(t.skip(w - 1) =~= l.skip(w));
    } else {
        assert(l.skip(0) =~= l);
    }
}

proof fn lemma_trim_start_at(l: Seq<char>) -> (w: int)
    ensures
        0 <= w <= l.len(),
        text::trim_start_spec(l) == l.skip(w),
        text_laws::is_blank(l.take(w)),
        w < l.len() ==> !text::is_white_space(l[w]),
    decreases l.len(),
{
    if l.len() > 0 && text::is_white_space(l[0]) {
        let t = l.subrange(1, l.len() as int);
        let w = lemma_trim_start_at(t);
        assert(t.skip(w) =~= l.skip(w + 1));
        assert forall|i: int| 0 <= i < l.take(w + 1).len() implies text::is_white_space(
            #[trigger] l.take(w + 1)[i],
        ) by {
            if i > 0 {
                assert(t.take(w)[i - 1] == l[i]);
            }
        }
        if w < t.len() {
            assert(t[w] == l[w + 1]);
        }
        w + 1
    } else {
        assert(l.skip(0) =~= l);
        0
    }
}

/// Which lines are headings, and how deep: the number of `#` is the depth.
pub proof fn law_headings(l: Seq<char>, depth: u8)
    ensures
        heading_line(l, depth as int) <==> (markdown::heading_spec(l) matches Some(h) && h.0
            == depth),
{
    let t = text::trim_start_spec(l);
    let n = markdown::leading_count(t, '#');
    lemma_leading(t, '#');
    let v = lemma_trim_start_at(l);
    if heading_line(l, depth as int) {
        let w = choose|w: int| #[trigger]
            hashes_at(l, w, depth as int) && text_laws::is_blank(l.take(w));
        assert(l[w] == '#');
        text_laws::law_white_space('#');
        lemma_blank_front(l, w);
        assert forall|i: int| 0 <= i < depth implies #[trigger] t[i] == '#' by {
            assert(t[i] == l[w + i]);
        }
        if w + depth < l.len() {
            assert(t[depth as int] == l[w + depth]);
        }
        if n < depth {
            assert(t[n as int] == '#');
        }
        if depth < n {
            assert(t[depth as int] == '#');
        }
    }
    if markdown::heading_spec(l) matches Some(h) && h.0 == depth {
        assert forall|i: int| v <= i < v + n implies #[trigger] l[i] == '#' by {
            assert(t[i - v] == l[i]);
        }
        if n < t.len() {
            assert(t[n as int] == l[v + n]);
        }
        assert(hashes_at(l, v, n as int));
    }
}

/// The text of a heading is what stands behind its `#`, without white space around it.
pub proof fn law_heading_text(
    indent: Seq<char>,
    depth: u8,
    gap: Seq<char>,
    title: Seq<char>,
    tail: Seq<char>,
)
    requires
        1 <= depth <= 6,
        text_laws::is_blank(indent),
        text_laws::is_blank(gap),
        gap.len() > 0,
        gap[0] == ' ',
        text_laws::is_trimmed(title),
        title.len() > 0,
        title.last() != '#',
        text_laws::is_blank(tail),
    ensures
        markdown::heading_spec(
            indent + Seq::new(depth as nat, |i: int| '#') + gap + title + tail,
        ) == Some((depth, title)),
{
    let hashes = Seq::new(depth as nat, |i: int| '#');
    let l = indent + hashes + gap + title + tail;
    let w = indent.len() as int;
    assert(l.take(w) =~= indent);
    assert(l[w] == hashes[0]);
    text_laws::law_white_space('#');
    lemma_blank_front(l, w);
    let t = l.skip(w);
    let n = markdown::leading_count(t, '#');
    lemma_leading(t, '#');
    assert(t =~= hashes + (gap + title + tail));
    assert(t[depth as int] == ' ');
    if n < depth {
        assert(t[n as int] == hashes[n as int]);
    }
    assert(n == depth);
    let rest = t.subrange(n as int, t.len() as int);
    assert(rest =~= gap + title + tail);
    text_laws::law_trim(gap, title, tail);
    text_laws::lemma_trimmed(title);
}

proof fn lemma_closers(title: Seq<char>, gap: Seq<char>, n: nat)
    requires
        gap.len() > 0,
        text_laws::is_blank(gap),
    ensures
        markdown::trim_end_char(title + gap + Seq::new(n, |i: int| '#'), '#') == title + gap,
    decreases n,
{
    let s = title + gap + Seq::new(n, |i: int| '#');
    if n == 0 {
        assert(s =~= title + gap);
        assert(s.last() == gap.last());
        assert(text::is_white_space(gap[gap.len() - 1]));
        text_laws::law_white_space('#');
    } else {
        let m = (n - 1) as nat;
        assert(s.last() == '#');
        assert(s.drop_last() =~= title + gap + Seq::new(m, |i: int| '#'));
        lemma_closers(title, gap, m);
    }
}

/// A heading may be closed with `#` again, which do not belong to its text.
pub proof fn law_heading_closed(
    indent: Seq<char>,
    depth: u8,
    gap: Seq<char>,
    title: Seq<char>,
    behind: Seq<char>,
    closers: nat,
    tail: Seq<char>,
)
    requires
        1 <= depth <= 6,
        text_laws::is_blank(indent),
        text_laws::is_blank(gap),
        gap.len() > 0,
        gap[0] == ' ',
        text_laws::is_trimmed(title),
        title.len() > 0,
        text_laws::is_blank(behind),
        behind.len() > 0,
        closers > 0,
        text_laws::is_blank(tail),
    ensures
        markdown::heading_spec(
            indent + Seq::new(depth as nat, |i: int| '#') + gap + (title + behind + Seq::new(
                closers,
                |i: int| '#',
            )) + tail,
        ) == Some((depth, title)),
{
    let hashes = Seq::new(depth as nat, |i: int| '#');
    let whole = title + behind + Seq::new(closers, |i: int| '#');
    let l = indent + hashes + gap + whole + tail;
    let w = indent.len() as int;
    assert(l.take(w) =~= indent);
    assert(l[w] == hashes[0]);
    text_laws::law_white_space('#');
    lemma_blank_front(l, w);
    let t = l.skip(w);
    let n = markdown::leading_count(t, '#');
    lemma_leading(t, '#');
    assert(t =~= hashes + (gap + whole + tail));
    assert(t[depth as int] == ' ');
    if n < depth {
        assert(t[n as int] == hashes[n as int]);
    }
    assert(n == depth);
    let rest = t.subrange(n as int, t.len() as int);
    assert(rest =~= gap + whole + tail);
    assert(whole[0] == title[0]);
    assert(whole.last() == '#');
    text_laws::law_trim(gap, whole, tail);
    lemma_closers(title, behind, closers);
    let e = Seq::<char>::empty();
    text_laws::law_trim(e, title, behind);
    assert(e + title + behind =~= title + behind);
}

// ── Code blocks ─────────────────────────────────────────────────────────────

/// Whether a line opens or closes a block of code: three back ticks behind white space.
pub open spec fn ticks_line(l: Seq<char>) -> bool {
    exists|w: int| #[trigger] ticks_at(l, w) && text_laws::is_blank(l.take(w))
}

/// Whether three back ticks stand at a position.
pub open spec fn ticks_at(l: Seq<char>, w: int) -> bool {
    0 <= w && w + 3 <= l.len() && l[w] == '`' && l[w + 1] == '`' && l[w + 2] == '`'
}

/// The lines among the first `n` that open or close a block of code.
pub open spec fn ticks_among(s: Seq<char>, lines: Seq<(int, int)>, n: int) -> nat
    decreases n,
{
    if n <= 0 {
        0
    } else {
        ticks_among(s, lines, n - 1) + if ticks_line(s.subrange(lines[n - 1].0, lines[n - 1].1)) {
            1nat
        } else {
            0nat
        }
    }
}

proof fn lemma_trim_end_keeps(s: Seq<char>, n: int)
    requires
        0 < n <= s.len(),
        !text::is_white_space(s[n - 1]),
    ensures
        text::trim_end_spec(s).len() >= n,
        text::trim_end_spec(s).take(n) == s.take(n),
    decreases s.len(),
{
    if text::is_white_space(s.last()) {
        let t = s.drop_last();
        assert(n <= t.len());
        lemma_trim_end_keeps(t, n);
        assert(t.take(n) =~= s.take(n));
    }
}

proof fn lemma_trim_end_prefix(s: Seq<char>)
    ensures
        text::trim_end_spec(s).len() <= s.len(),
        text::trim_end_spec(s) == s.take(text::trim_end_spec(s).len() as int),
    decreases s.len(),
{
    if s.len() > 0 && text::is_white_space(s.last()) {
        let t = s.drop_last();
        lemma_trim_end_prefix(t);
        assert(t.take(text::trim_end_spec(t).len() as int) =~= s.take(
            text::trim_end_spec(t).len() as int,
        ));
    } else {
        assert(s.take(s.len() as int) =~= s);
    }
}

proof fn lemma_fence(l: Seq<char>)
    ensures
        ticks_line(l) <==> markdown::is_fence(l),
{
    reveal_strlit("```");
    let v = lemma_trim_start_at(l);
    let t = l.skip(v);
    let r = text::trim_end_spec(t);
    lemma_trim_end_prefix(t);
    text_laws::law_white_space('`');
    if ticks_line(l) {
        let w = choose|w: int| #[trigger] ticks_at(l, w) && text_laws::is_blank(l.take(w));
        lemma_blank_front(l, w);
        assert(l.skip(w).len() == l.len() - w && l.skip(v).len() == l.len() - v);
        assert(t[0] == l[w] && t[1] == l[w + 1] && t[2] == l[w + 2]);
        lemma_trim_end_keeps(t, 3);
        assert(r.take(3)[0] == '`' && r.take(3)[1] == '`' && r.take(3)[2] == '`');
        assert(r.subrange(0, 3) =~= "```"@);
    }
    if markdown::is_fence(l) {
        assert(r.subrange(0, 3)[0] == '`' && r.subrange(0, 3)[1] == '`' && r.subrange(0, 3)[2]
            == '`');
        assert(r[0] == t[0] && r[1] == t[1] && r[2] == t[2]);
        assert(t[0] == l[v] && t[1] == l[v + 1] && t[2] == l[v + 2]);
        assert(ticks_at(l, v));
    }
}

proof fn lemma_lines_order(s: Seq<char>, j: int, m: int)
    requires
        0 <= j <= m < text::pieces(s, '\n').len(),
    ensures
        0 <= text::pieces(s, '\n')[j].0 <= text::pieces(s, '\n')[j].1 <= s.len(),
        j < m ==> text::pieces(s, '\n')[j].1 < text::pieces(s, '\n')[m].0,
        text::pieces(s, '\n')[j].1 <= text::pieces(s, '\n')[m].1 <= s.len(),
    decreases m - j,
{
    text::lemma_pieces_from(s, '\n', 0);
    let p = text::pieces(s, '\n');
    assert(p[j].0 <= p[j].1 && p[m].0 <= p[m].1);
    if j < m {
        lemma_lines_order(s, j, m - 1);
        assert(p[m - 1].1 < s.len());
        assert(p[m - 1 + 1].0 == p[m - 1].1 + 1);
    }
}

proof fn lemma_fence_ranges(s: Seq<char>, k: int, open: Option<int>)
    requires
        0 <= k <= text::pieces(s, '\n').len(),
    ensures
        ({
            let lines = text::pieces(s, '\n');
            let r = markdown::fences_from(s, lines, k, open);
            &&& open is Some ==> r.len() > 0 && r[0].0 == open->0 && (k < lines.len() ==> lines[k].1
                <= r[0].1) && (k == lines.len() ==> r[0].1 == s.len())
            &&& forall|n: int|
                #![trigger r[n]]
                0 <= n < r.len() && (open is Some ==> n > 0) ==> k < lines.len() && lines[k].0
                    <= r[n].0
        }),
    decreases text::pieces(s, '\n').len() - k,
{
    let lines = text::pieces(s, '\n');
    let r = markdown::fences_from(s, lines, k, open);
    if k < lines.len() {
        lemma_lines_order(s, k, lines.len() - 1);
        if k + 1 < lines.len() {
            lemma_lines_order(s, k, k + 1);
        }
        if markdown::is_fence(s.subrange(lines[k].0, lines[k].1)) {
            match open {
                Some(start) => {
                    lemma_fence_ranges(s, k + 1, None);
                    let rest = markdown::fences_from(s, lines, k + 1, None);
                    assert(r == seq![(start, lines[k].1)] + rest);
                    assert forall|n: int| #![trigger r[n]] 0 < n < r.len() implies lines[k].0
                        <= r[n].0 by {
                        assert(r[n] == rest[n - 1]);
                    }
                },
                None => {
                    lemma_fence_ranges(s, k + 1, Some(lines[k].0));
                },
            }
        } else {
            lemma_fence_ranges(s, k + 1, open);
        }
    }
}

proof fn lemma_in_fence(s: Seq<char>, k: int, open: Option<int>, m: int, i: int)
    requires
        0 <= k <= m < text::pieces(s, '\n').len(),
        open matches Some(start) ==> start <= text::pieces(s, '\n')[k].0,
        text::pieces(s, '\n')[m].0 <= i < text::pieces(s, '\n')[m].1,
    ensures
        ({
            let lines = text::pieces(s, '\n');
            let before = ticks_among(s, lines, m) - ticks_among(s, lines, k) + if open is Some {
                1int
            } else {
                0int
            };
            markdown::in_ranges(markdown::fences_from(s, lines, k, open), i) <==> ticks_line(
                s.subrange(lines[m].0, lines[m].1),
            ) || before % 2 == 1
        }),
    decreases m - k,
{
    let lines = text::pieces(s, '\n');
    let r = markdown::fences_from(s, lines, k, open);
    lemma_lines_order(s, k, m);
    lemma_lines_order(s, m, lines.len() - 1);
    let own = s.subrange(lines[k].0, lines[k].1);
    lemma_fence(own);
    if k == m {
        lemma_fence_ranges(s, k, open);
        if k + 1 < lines.len() {
            lemma_lines_order(s, k, k + 1);
        }
        if ticks_line(own) {
            match open {
                Some(start) => {
                    assert(r[0] == (start, lines[k].1));
                },
                None => {
                    lemma_fence_ranges(s, k + 1, Some(lines[k].0));
                    assert(r[0].0 == lines[k].0);
                },
            }
            assert(r[0].0 <= i < r[0].1);
        } else {
            lemma_fence_ranges(s, k + 1, open);
            match open {
                Some(start) => {
                    assert(r[0].0 <= i < r[0].1);
                },
                None => {
                    let rest = markdown::fences_from(s, lines, k + 1, open);
                    assert(r == rest);
                    assert forall|n: int| 0 <= n < r.len() implies !((#[trigger] r[n]).0 <= i
                        < r[n].1) by {
                        assert(r[n] == rest[n]);
                        assert(k + 1 < lines.len() && lines[k + 1].0 <= rest[n].0);
                    }
                },
            }
        }
    } else {
        lemma_lines_order(s, k + 1, m);
        lemma_lines_order(s, k, k + 1);
        lemma_ticks_step(s, lines, k, m);
        if ticks_line(own) {
            match open {
                Some(start) => {
                    lemma_in_fence(s, k + 1, None, m, i);
                    let rest = markdown::fences_from(s, lines, k + 1, None);
                    assert(r == seq![(start, lines[k].1)] + rest);
                    if markdown::in_ranges(rest, i) {
                        let n = choose|n: int|
                            0 <= n < rest.len() && (#[trigger] rest[n]).0 <= i < rest[n].1;
                        assert(r[n + 1] == rest[n]);
                    }
                    if markdown::in_ranges(r, i) {
                        let n = choose|n: int|
                            0 <= n < r.len() && (#[trigger] r[n]).0 <= i < r[n].1;
                        assert(n > 0);
                        assert(rest[n - 1] == r[n]);
                    }
                },
                None => {
                    lemma_in_fence(s, k + 1, Some(lines[k].0), m, i);
                },
            }
        } else {
            lemma_in_fence(s, k + 1, open, m, i);
        }
    }
}

proof fn lemma_ticks_step(s: Seq<char>, lines: Seq<(int, int)>, k: int, m: int)
    requires
        0 <= k < m,
    ensures
        ticks_among(s, lines, k + 1) == ticks_among(s, lines, k) + if ticks_line(
            s.subrange(lines[k].0, lines[k].1),
        ) {
            1nat
        } else {
            0nat
        },
{
}

/// What lies in a block of code: the lines that open and close it, and those behind an odd number of
/// such lines.
pub proof fn law_code_blocks(s: Seq<char>, m: int, i: int)
    requires
        0 <= m < text::pieces(s, '\n').len(),
        text::pieces(s, '\n')[m].0 <= i < text::pieces(s, '\n')[m].1,
    ensures
        markdown::in_ranges(markdown::fences(s), i) <==> ticks_line(
            s.subrange(text::pieces(s, '\n')[m].0, text::pieces(s, '\n')[m].1),
        ) || ticks_among(s, text::pieces(s, '\n'), m) % 2 == 1,
{
    text::lemma_pieces_from(s, '\n', 0);
    lemma_in_fence(s, 0, None, m, i);
}

/// A text without back ticks has no block of code.
pub proof fn law_no_code_blocks(s: Seq<char>)
    requires
        !s.contains('`'),
    ensures
        markdown::fences(s).len() == 0,
{
    lemma_no_fences(s, 0);
}

proof fn lemma_no_fences(s: Seq<char>, k: int)
    requires
        !s.contains('`'),
        0 <= k,
    ensures
        markdown::fences_from(s, text::pieces(s, '\n'), k, None).len() == 0,
    decreases text::pieces(s, '\n').len() - k,
{
    let lines = text::pieces(s, '\n');
    if k < lines.len() {
        lemma_lines_order(s, k, k);
        let l = s.subrange(lines[k].0, lines[k].1);
        lemma_fence(l);
        if ticks_line(l) {
            let w = choose|w: int| #[trigger] ticks_at(l, w) && text_laws::is_blank(l.take(w));
            assert(s[lines[k].0 + w] == l[w]);
        }
        lemma_no_fences(s, k + 1);
    }
}

// ── Tags ────────────────────────────────────────────────────────────────────

/// Whether a character can stand in a tag.
pub open spec fn in_tag(c: char) -> bool {
    'a' <= c <= 'z' || 'A' <= c <= 'Z' || '0' <= c <= '9' || c == '-' || c == '_' || c == '/'
}

/// Whether a tag stands in a line: `#` at its start or behind white space, a letter, and all the
/// letters, digits, hyphens, underscores and slashes that follow.
pub open spec fn tag_stands(s: Seq<char>, a: int, b: int, i: int, e: int) -> bool {
    &&& a <= i < e <= b
    &&& s[i] == '#'
    &&& i == a || s[i - 1] == ' ' || s[i - 1] == '\t' || s[i - 1] == '\r' || s[i - 1] == '\x0c'
    &&& i + 1 < e
    &&& 'a' <= s[i + 1] <= 'z' || 'A' <= s[i + 1] <= 'Z'
    &&& forall|k: int| i < k < e ==> in_tag(#[trigger] s[k])
    &&& e == b || !in_tag(s[e])
}

proof fn lemma_tag_end(s: Seq<char>, i: int, k: int, e: int, b: int)
    requires
        0 <= i < k <= e <= b <= s.len(),
        forall|j: int| i < j < e ==> in_tag(#[trigger] s[j]),
        e == b || !in_tag(s[e]),
    ensures
        markdown::tag_end(s, k, b) == e,
    decreases e - k,
{
    if k < e {
        assert(in_tag(s[k]));
        lemma_tag_end(s, i, k + 1, e, b);
    }
}

proof fn lemma_tag_run(s: Seq<char>, k: int, b: int)
    requires
        0 <= k <= b <= s.len(),
    ensures
        k <= markdown::tag_end(s, k, b) <= b,
        forall|j: int| k <= j < markdown::tag_end(s, k, b) ==> in_tag(#[trigger] s[j]),
        markdown::tag_end(s, k, b) < b ==> !in_tag(s[markdown::tag_end(s, k, b)]),
    decreases b - k,
{
    if k < b && in_tag(s[k]) {
        lemma_tag_run(s, k + 1, b);
    }
}

proof fn lemma_line_tags_keep(
    s: Seq<char>,
    code: Seq<(int, int)>,
    a: int,
    b: int,
    i: int,
    acc: Seq<Seq<char>>,
    x: Seq<char>,
)
    requires
        0 <= a <= i <= b <= s.len(),
        acc.contains(x),
    ensures
        markdown::line_tags(s, code, a, b, i, acc).contains(x),
    decreases b - i,
{
    if i < b {
        if s[i] != '#' || markdown::in_ranges(code, i) || (i > a && !markdown::is_ascii_space(
            s[i - 1],
        )) {
            lemma_line_tags_keep(s, code, a, b, i + 1, acc, x);
        } else {
            lemma_tag_run(s, i + 1, b);
            let e = markdown::tag_end(s, i + 1, b);
            let tag = s.subrange(i + 1, e);
            text::lemma_add_once(acc, tag);
            if e > i + 1 && markdown::is_ascii_letter(s[i + 1]) {
                lemma_line_tags_keep(s, code, a, b, e, text::add_once(acc, tag), x);
            } else {
                lemma_line_tags_keep(s, code, a, b, e, acc, x);
            }
        }
    }
}

proof fn lemma_line_tags_find(
    s: Seq<char>,
    code: Seq<(int, int)>,
    a: int,
    b: int,
    j: int,
    acc: Seq<Seq<char>>,
    i: int,
    e: int,
)
    requires
        0 <= a <= j <= i,
        b <= s.len(),
        tag_stands(s, a, b, i, e),
        !markdown::in_ranges(code, i),
    ensures
        markdown::line_tags(s, code, a, b, j, acc).contains(s.subrange(i + 1, e)),
    decreases b - j,
{
    if j == i {
        lemma_tag_end(s, i, i + 1, e, b);
        let tag = s.subrange(i + 1, e);
        text::lemma_add_once(acc, tag);
        lemma_line_tags_keep(s, code, a, b, e, text::add_once(acc, tag), tag);
    } else if s[j] != '#' || markdown::in_ranges(code, j) || (j > a && !markdown::is_ascii_space(
        s[j - 1],
    )) {
        lemma_line_tags_find(s, code, a, b, j + 1, acc, i, e);
    } else {
        lemma_tag_run(s, j + 1, b);
        let f = markdown::tag_end(s, j + 1, b);
        if i < f {
            assert(in_tag(s[i]));
        }
        let tag = s.subrange(j + 1, f);
        if f > j + 1 && markdown::is_ascii_letter(s[j + 1]) {
            lemma_line_tags_find(s, code, a, b, f, text::add_once(acc, tag), i, e);
        } else {
            lemma_line_tags_find(s, code, a, b, f, acc, i, e);
        }
    }
}

proof fn lemma_lines_tags_keep(s: Seq<char>, code: Seq<(int, int)>, k: int, acc: Seq<Seq<char>>, x: Seq<char>)
    requires
        0 <= k,
        acc.contains(x),
    ensures
        markdown::lines_tags(s, code, text::pieces(s, '\n'), k, acc).contains(x),
    decreases text::pieces(s, '\n').len() - k,
{
    let lines = text::pieces(s, '\n');
    if k < lines.len() {
        lemma_lines_order(s, k, k);
        if markdown::heading_spec(s.subrange(lines[k].0, lines[k].1)) is Some {
            lemma_lines_tags_keep(s, code, k + 1, acc, x);
        } else {
            lemma_line_tags_keep(s, code, lines[k].0, lines[k].1, lines[k].0, acc, x);
            lemma_lines_tags_keep(
                s,
                code,
                k + 1,
                markdown::line_tags(s, code, lines[k].0, lines[k].1, lines[k].0, acc),
                x,
            );
        }
    }
}

proof fn lemma_lines_tags_find(
    s: Seq<char>,
    code: Seq<(int, int)>,
    k: int,
    acc: Seq<Seq<char>>,
    m: int,
    i: int,
    e: int,
)
    requires
        0 <= k <= m < text::pieces(s, '\n').len(),
        markdown::heading_spec(
            s.subrange(text::pieces(s, '\n')[m].0, text::pieces(s, '\n')[m].1),
        ) is None,
        tag_stands(s, text::pieces(s, '\n')[m].0, text::pieces(s, '\n')[m].1, i, e),
        !markdown::in_ranges(code, i),
    ensures
        markdown::lines_tags(s, code, text::pieces(s, '\n'), k, acc).contains(
            s.subrange(i + 1, e),
        ),
    decreases m - k,
{
    let lines = text::pieces(s, '\n');
    lemma_lines_order(s, k, m);
    lemma_lines_order(s, m, m);
    if k == m {
        lemma_line_tags_find(s, code, lines[k].0, lines[k].1, lines[k].0, acc, i, e);
        lemma_lines_tags_keep(
            s,
            code,
            k + 1,
            markdown::line_tags(s, code, lines[k].0, lines[k].1, lines[k].0, acc),
            s.subrange(i + 1, e),
        );
    } else if markdown::heading_spec(s.subrange(lines[k].0, lines[k].1)) is Some {
        lemma_lines_tags_find(s, code, k + 1, acc, m, i, e);
    } else {
        lemma_lines_tags_find(
            s,
            code,
            k + 1,
            markdown::line_tags(s, code, lines[k].0, lines[k].1, lines[k].0, acc),
            m,
            i,
            e,
        );
    }
}

/// Every tag that stands in a line of text, outside headings and blocks of code, is found, and found
/// whole.
pub proof fn law_inline_tags(s: Seq<char>, m: int, i: int, e: int)
    requires
        0 <= m < text::pieces(s, '\n').len(),
        tag_stands(s, text::pieces(s, '\n')[m].0, text::pieces(s, '\n')[m].1, i, e),
        forall|d: int|
            !#[trigger] heading_line(
                s.subrange(text::pieces(s, '\n')[m].0, text::pieces(s, '\n')[m].1),
                d,
            ),
        !ticks_line(s.subrange(text::pieces(s, '\n')[m].0, text::pieces(s, '\n')[m].1)),
        ticks_among(s, text::pieces(s, '\n'), m) % 2 == 0,
    ensures
        markdown::inline_tags_spec(s).contains(s.subrange(i + 1, e)),
{
    let lines = text::pieces(s, '\n');
    let l = s.subrange(lines[m].0, lines[m].1);
    law_code_blocks(s, m, i);
    if markdown::heading_spec(l) is Some {
        let d = markdown::heading_spec(l)->Some_0.0;
        law_headings(l, d);
        assert(heading_line(l, d as int));
    }
    lemma_lines_tags_find(s, markdown::fences(s), 0, Seq::empty(), m, i, e);
}

proof fn lemma_line_tags_sound(
    s: Seq<char>,
    code: Seq<(int, int)>,
    a: int,
    b: int,
    j: int,
    acc: Seq<Seq<char>>,
    x: Seq<char>,
)
    requires
        0 <= a <= j <= b <= s.len(),
        is_line(s, a, b),
        markdown::line_tags(s, code, a, b, j, acc).contains(x),
        !acc.contains(x),
    ensures
        exists|i: int, e: int|
            #![trigger s.subrange(i + 1, e)]
            tag_stands(s, a, b, i, e) && s.subrange(i + 1, e) == x && !markdown::in_ranges(code, i),
    decreases b - j,
{
    if j < b {
        if s[j] != '#' || markdown::in_ranges(code, j) || (j > a && !markdown::is_ascii_space(
            s[j - 1],
        )) {
            lemma_line_tags_sound(s, code, a, b, j + 1, acc, x);
        } else {
            lemma_tag_run(s, j + 1, b);
            let f = markdown::tag_end(s, j + 1, b);
            let tag = s.subrange(j + 1, f);
            if f > j + 1 && markdown::is_ascii_letter(s[j + 1]) {
                text::lemma_add_once(acc, tag);
                if x == tag {
                    if j > a {
                        assert(s[j - 1] != '\n');
                    }
                    assert(tag_stands(s, a, b, j, f));
                } else {
                    lemma_line_tags_sound(s, code, a, b, f, text::add_once(acc, tag), x);
                }
            } else {
                lemma_line_tags_sound(s, code, a, b, f, acc, x);
            }
        }
    }
}

proof fn lemma_lines_tags_sound(
    s: Seq<char>,
    code: Seq<(int, int)>,
    k: int,
    acc: Seq<Seq<char>>,
    x: Seq<char>,
)
    requires
        0 <= k,
        markdown::lines_tags(s, code, text::pieces(s, '\n'), k, acc).contains(x),
        !acc.contains(x),
    ensures
        exists|a: int, b: int, i: int, e: int|
            #![trigger tag_stands(s, a, b, i, e)]
            is_line(s, a, b) && tag_stands(s, a, b, i, e) && s.subrange(i + 1, e) == x
                && !markdown::in_ranges(code, i) && (forall|d: int|
                !#[trigger] heading_line(s.subrange(a, b), d)),
    decreases text::pieces(s, '\n').len() - k,
{
    let lines = text::pieces(s, '\n');
    if k < lines.len() {
        let a = lines[k].0;
        let b = lines[k].1;
        lemma_lines_order(s, k, k);
        assert(lines.contains((a, b)));
        law_lines(s, a, b);
        let l = s.subrange(a, b);
        if markdown::heading_spec(l) is Some {
            lemma_lines_tags_sound(s, code, k + 1, acc, x);
        } else {
            let next = markdown::line_tags(s, code, a, b, a, acc);
            if next.contains(x) {
                lemma_line_tags_sound(s, code, a, b, a, acc, x);
                assert forall|d: int| !#[trigger] heading_line(l, d) by {
                    if heading_line(l, d) {
                        law_headings(l, d as u8);
                    }
                }
                let (i, e) = choose|i: int, e: int|
                    #![trigger s.subrange(i + 1, e)]
                    tag_stands(s, a, b, i, e) && s.subrange(i + 1, e) == x
                        && !markdown::in_ranges(code, i);
                assert(tag_stands(s, a, b, i, e));
            } else {
                lemma_lines_tags_sound(s, code, k + 1, next, x);
            }
        }
    }
}

/// Nothing else is found: each inline tag stands in a line that is no heading, outside blocks of
/// code.
pub proof fn law_inline_tags_stand(s: Seq<char>, x: Seq<char>)
    requires
        markdown::inline_tags_spec(s).contains(x),
    ensures
        exists|a: int, b: int, i: int, e: int|
            #![trigger tag_stands(s, a, b, i, e)]
            is_line(s, a, b) && tag_stands(s, a, b, i, e) && s.subrange(i + 1, e) == x
                && !markdown::in_ranges(markdown::fences(s), i) && (forall|d: int|
                !#[trigger] heading_line(s.subrange(a, b), d)),
{
    lemma_lines_tags_sound(s, markdown::fences(s), 0, Seq::empty(), x);
}

} // verus!
