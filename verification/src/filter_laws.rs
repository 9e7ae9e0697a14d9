//! How filters are written, and which page of what they select is returned.

use vstd::prelude::*;

use crate::commands;
use crate::expression;
use crate::expression::{FilterView, TokenView};
use crate::query;
use crate::text;
use crate::text_laws;

verus! {

// ── Texts ───────────────────────────────────────────────────────────────────

/// A token in an expression.
pub open spec fn token_text(t: TokenView) -> Seq<char> {
    match t {
        TokenView::Open => seq!['('],
        TokenView::Close => seq![')'],
        TokenView::And => seq!['A', 'N', 'D'],
        TokenView::Or => seq!['O', 'R'],
        TokenView::Not => seq!['N', 'O', 'T'],
        TokenView::Word(w) => w,
    }
}

/// Whether a token can be written as it is: a word has neither blanks nor brackets, and is none of
/// the three operators.
pub open spec fn is_plain_token(t: TokenView) -> bool {
    t matches TokenView::Word(w) ==> w.len() > 0 && is_solid(w) && w != seq!['A', 'N', 'D'] && w
        != seq!['O', 'R'] && w != seq!['N', 'O', 'T']
}

/// Whether a text has neither white space nor brackets.
pub open spec fn is_solid(w: Seq<char>) -> bool {
    forall|i: int|
        0 <= i < w.len() ==> !text::is_white_space(#[trigger] w[i]) && w[i] != '(' && w[i] != ')'
}

/// Tokens with a blank behind each.
pub open spec fn spaced(ts: Seq<TokenView>) -> Seq<char>
    decreases ts.len(),
{
    if ts.len() == 0 {
        Seq::empty()
    } else {
        token_text(ts[0]) + seq![' '] + spaced(ts.skip(1))
    }
}

proof fn lemma_word_stop(s: Seq<char>, i: int, e: int)
    requires
        0 <= i <= e < s.len(),
        expression::ends_word(s[e]),
        forall|k: int| i <= k < e ==> !expression::ends_word(#[trigger] s[k]),
    ensures
        expression::word_stop(s, i) == e,
    decreases e - i,
{
    if i < e {
        assert(!expression::ends_word(s[i]));
        lemma_word_stop(s, i + 1, e);
    }
}

proof fn lemma_word_token(t: TokenView)
    requires
        is_plain_token(t),
        !(t is Open),
        !(t is Close),
    ensures
        expression::word_token(token_text(t)) == t,
        token_text(t).len() > 0,
        is_solid(token_text(t)),
{
    reveal_strlit("AND");
    reveal_strlit("OR");
    reveal_strlit("NOT");
    assert("AND"@ =~= seq!['A', 'N', 'D']);
    assert("OR"@ =~= seq!['O', 'R']);
    assert("NOT"@ =~= seq!['N', 'O', 'T']);
    assert("AND"@.len() == 3 && "OR"@.len() == 2 && "NOT"@.len() == 3);
    assert("AND"@[0] == 'A' && "NOT"@[0] == 'N');
    let w = token_text(t);
    if !(t is Word) {
        assert forall|i: int| 0 <= i < w.len() implies !text::is_white_space(#[trigger] w[i]) && w[i]
            != '(' && w[i] != ')' by {
            text_laws::law_white_space(w[i]);
        }
    }
}

proof fn lemma_tokens(s: Seq<char>, i: int, ts: Seq<TokenView>)
    requires
        0 <= i <= s.len(),
        s.skip(i) == spaced(ts),
        forall|k: int| 0 <= k < ts.len() ==> is_plain_token(#[trigger] ts[k]),
    ensures
        expression::tokens_from(s, i) == ts,
    decreases ts.len(),
{
    assert(s.skip(i).len() == s.len() - i);
    if ts.len() == 0 {
        assert(ts =~= Seq::<TokenView>::empty());
    } else {
        let t = ts[0];
        let w = token_text(t);
        let n = w.len() as int;
        let more = ts.skip(1);
        assert(is_plain_token(t));
        let whole = w + seq![' '] + spaced(more);
        assert forall|k: int| 0 <= k < whole.len() implies s[i + k] == #[trigger] whole[k] by {
            assert(s.skip(i)[k] == s[i + k]);
        }
        let e = i + n;
        assert(s[i + n] == whole[n]);
        assert(s[e] == ' ');
        text_laws::law_white_space(' ');
        assert(s.skip(e + 1) =~= spaced(more)) by {
            assert(s.skip(i).skip(n + 1) =~= s.skip(e + 1));
            assert(whole.skip(n + 1) =~= spaced(more));
        }
        assert forall|k: int| 0 <= k < more.len() implies is_plain_token(#[trigger] more[k]) by {
            assert(is_plain_token(ts[k + 1]));
        }
        lemma_tokens(s, e + 1, more);
        assert(ts =~= seq![t] + more);
        assert(expression::tokens_from(s, e) == more);
        text_laws::law_white_space('(');
        text_laws::law_white_space(')');
        if t is Open || t is Close {
            assert(s[i + 0] == whole[0]);
            assert(n == 1);
        } else {
            lemma_word_token(t);
            assert forall|k: int| i <= k < e implies !expression::ends_word(#[trigger] s[k]) by {
                assert(s[i + (k - i)] == whole[k - i]);
                assert(w[k - i] == whole[k - i]);
            }
            lemma_word_stop(s, i + 1, e);
            assert(s.subrange(i, e) =~= w) by {
                assert forall|k: int| 0 <= k < n implies s.subrange(i, e)[k] == w[k] by {
                    assert(s[i + k] == whole[k]);
                }
            }
            assert(!expression::ends_word(s[i]));
        }
    }
}

/// Tokens that are written with blanks between them are read back.
pub proof fn law_tokens_read_back(ts: Seq<TokenView>)
    requires
        forall|k: int| 0 <= k < ts.len() ==> is_plain_token(#[trigger] ts[k]),
    ensures
        expression::tokens_spec(spaced(ts)) == ts,
{
    let s = spaced(ts);
    assert(s.skip(0) =~= s);
    lemma_tokens(s, 0, ts);
}

/// A filter that is written as a text is read back as itself.
pub proof fn law_filter_read_back(f: FilterView)
    requires
        expression::is_writable(f),
        forall|k: int|
            0 <= k < expression::written(f).len() ==> is_plain_token(
                #[trigger] expression::written(f)[k],
            ),
    ensures
        expression::parse_filter_spec(spaced(expression::written(f))) == Some(f),
{
    law_tokens_read_back(expression::written(f));
    expression::law_expression_round_trip(f);
}

/// Without brackets, a negation binds closest and a conjunction closer than a disjunction.
pub proof fn law_precedence(a: Seq<char>, b: Seq<char>, c: Seq<char>)
    requires
        a.contains(':') && b.contains(':') && c.contains(':'),
    ensures
        expression::filter_of(
            seq![
                TokenView::Word(a),
                TokenView::And,
                TokenView::Word(b),
                TokenView::Or,
                TokenView::Word(c),
            ],
        ) == Some(
            FilterView::Or(
                seq![
                    FilterView::And(seq![FilterView::Key(a), FilterView::Key(b)]),
                    FilterView::Key(c),
                ],
            ),
        ),
        expression::filter_of(
            seq![
                TokenView::Word(a),
                TokenView::Or,
                TokenView::Word(b),
                TokenView::And,
                TokenView::Word(c),
            ],
        ) == Some(
            FilterView::Or(
                seq![
                    FilterView::Key(a),
                    FilterView::And(seq![FilterView::Key(b), FilterView::Key(c)]),
                ],
            ),
        ),
        expression::filter_of(
            seq![TokenView::Not, TokenView::Word(a), TokenView::And, TokenView::Word(b)],
        ) == Some(
            FilterView::And(
                seq![FilterView::Not(Box::new(FilterView::Key(a))), FilterView::Key(b)],
            ),
        ),
{
    lemma_is_term(a);
    lemma_is_term(b);
    lemma_is_term(c);
    let ka = FilterView::Key(a);
    let kb = FilterView::Key(b);
    let kc = FilterView::Key(c);
    let t = seq![
        TokenView::Word(a),
        TokenView::And,
        TokenView::Word(b),
        TokenView::Or,
        TokenView::Word(c),
    ];
    assert(expression::unary_at(t, 0) == Some((ka, 1int)));
    assert(expression::unary_at(t, 2) == Some((kb, 3int)));
    assert(expression::unary_at(t, 4) == Some((kc, 5int)));
    assert(seq![ka].push(kb) =~= seq![ka, kb]);
    let ab = FilterView::And(seq![ka, kb]);
    assert(expression::and_rest(t, 3, seq![ka, kb]) == Some((ab, 3int)));
    assert(expression::and_rest(t, 1, seq![ka]) == Some((ab, 3int)));
    assert(expression::and_at(t, 0) == Some((ab, 3int)));
    assert(expression::and_rest(t, 5, seq![kc]) == Some((kc, 5int)));
    assert(expression::and_at(t, 4) == Some((kc, 5int)));
    assert(seq![ab].push(kc) =~= seq![ab, kc]);
    assert(expression::or_rest(t, 5, seq![ab, kc]) == Some((FilterView::Or(seq![ab, kc]), 5int)));
    assert(expression::or_rest(t, 3, seq![ab]) == Some((FilterView::Or(seq![ab, kc]), 5int)));
    assert(expression::or_at(t, 0) == Some((FilterView::Or(seq![ab, kc]), 5int)));
    let u = seq![
        TokenView::Word(a),
        TokenView::Or,
        TokenView::Word(b),
        TokenView::And,
        TokenView::Word(c),
    ];
    assert(expression::unary_at(u, 0) == Some((ka, 1int)));
    assert(expression::unary_at(u, 2) == Some((kb, 3int)));
    assert(expression::unary_at(u, 4) == Some((kc, 5int)));
    assert(seq![kb].push(kc) =~= seq![kb, kc]);
    let bc = FilterView::And(seq![kb, kc]);
    assert(expression::and_rest(u, 1, seq![ka]) == Some((ka, 1int)));
    assert(expression::and_at(u, 0) == Some((ka, 1int)));
    assert(expression::and_rest(u, 5, seq![kb, kc]) == Some((bc, 5int)));
    assert(expression::and_rest(u, 3, seq![kb]) == Some((bc, 5int)));
    assert(expression::and_at(u, 2) == Some((bc, 5int)));
    assert(seq![ka].push(bc) =~= seq![ka, bc]);
    assert(expression::or_rest(u, 5, seq![ka, bc]) == Some((FilterView::Or(seq![ka, bc]), 5int)));
    assert(expression::or_rest(u, 1, seq![ka]) == Some((FilterView::Or(seq![ka, bc]), 5int)));
    assert(expression::or_at(u, 0) == Some((FilterView::Or(seq![ka, bc]), 5int)));
    let v = seq![TokenView::Not, TokenView::Word(a), TokenView::And, TokenView::Word(b)];
    let na = FilterView::Not(Box::new(ka));
    assert(expression::unary_at(v, 1) == Some((ka, 2int)));
    assert(expression::unary_at(v, 0) == Some((na, 2int)));
    assert(expression::unary_at(v, 3) == Some((kb, 4int)));
    assert(seq![na].push(kb) =~= seq![na, kb]);
    let nab = FilterView::And(seq![na, kb]);
    assert(expression::and_rest(v, 4, seq![na, kb]) == Some((nab, 4int)));
    assert(expression::and_rest(v, 2, seq![na]) == Some((nab, 4int)));
    assert(expression::and_at(v, 0) == Some((nab, 4int)));
    assert(expression::or_rest(v, 4, seq![nab]) == Some((nab, 4int)));
    assert(expression::or_at(v, 0) == Some((nab, 4int)));
}

proof fn lemma_is_term(w: Seq<char>)
    ensures
        expression::is_term(w) <==> w.contains(':'),
{
    reveal_strlit(":");
    assert(":"@ =~= seq![':']);
    text::lemma_find(w, ":"@, 0);
    if w.contains(':') {
        let k = w.index_of(':');
        assert(w.subrange(k, k + 1) =~= ":"@);
        assert(text::occurs_at(w, ":"@, k));
    }
    match text::find_spec(w, ":"@, 0) {
        Some(p) => {
            assert(w.subrange(p, p + 1)[0] == w[p]);
            assert(w.contains(w[p]));
        },
        None => {},
    }
}

/// A word without a colon is no filter, and neither is an expression that ends too early or too late.
pub proof fn law_no_filter(w: Seq<char>, a: Seq<char>, b: Seq<char>)
    requires
        a.contains(':') && b.contains(':'),
    ensures
        !w.contains(':') ==> expression::filter_of(seq![TokenView::Word(w)]) is None,
        expression::filter_of(Seq::empty()) is None,
        expression::filter_of(seq![TokenView::Word(a), TokenView::Word(b)]) is None,
        expression::filter_of(seq![TokenView::Word(a), TokenView::And]) is None,
        expression::filter_of(seq![TokenView::Open, TokenView::Word(a)]) is None,
        expression::filter_of(seq![TokenView::Not]) is None,
{
    lemma_is_term(w);
    lemma_is_term(a);
    lemma_is_term(b);
    let ka = FilterView::Key(a);
    let t = seq![TokenView::Word(a), TokenView::Word(b)];
    assert(expression::unary_at(t, 0) == Some((ka, 1int)));
    assert(expression::and_rest(t, 1, seq![ka]) == Some((ka, 1int)));
    assert(expression::and_at(t, 0) == Some((ka, 1int)));
    assert(expression::or_rest(t, 1, seq![ka]) == Some((ka, 1int)));
    let u = seq![TokenView::Word(a), TokenView::And];
    assert(expression::unary_at(u, 0) == Some((ka, 1int)));
    assert(expression::unary_at(u, 2) is None);
    assert(expression::and_rest(u, 1, seq![ka]) is None);
    assert(expression::and_at(u, 0) is None);
    let v = seq![TokenView::Open, TokenView::Word(a)];
    assert(expression::unary_at(v, 1) == Some((ka, 2int)));
    assert(expression::and_rest(v, 2, seq![ka]) == Some((ka, 2int)));
    assert(expression::and_at(v, 1) == Some((ka, 2int)));
    assert(expression::or_rest(v, 2, seq![ka]) == Some((ka, 2int)));
    assert(expression::or_at(v, 1) == Some((ka, 2int)));
    assert(expression::unary_at(v, 0) is None);
    assert(expression::and_at(v, 0) is None);
    let x = seq![TokenView::Not];
    assert(expression::unary_at(x, 1) is None);
    assert(expression::unary_at(x, 0) is None);
    assert(expression::and_at(x, 0) is None);
    let z = seq![TokenView::Word(w)];
    if !w.contains(':') {
        assert(expression::unary_at(z, 0) is None);
        assert(expression::and_at(z, 0) is None);
    }
}

// ── Requests ────────────────────────────────────────────────────────────────

/// Whether a filter has one part for each key.
pub open spec fn are_parts(v: Seq<FilterView>, keys: Seq<Seq<char>>) -> bool {
    v.len() == keys.len() && forall|i: int|
        0 <= i < keys.len() ==> #[trigger] v[i] == FilterView::Key(keys[i])
}

/// Keys are searched for together, or one of them where it is asked so. Without keys all notes are
/// searched.
pub proof fn law_search_filter(keys: Seq<Seq<char>>)
    ensures
        keys.len() == 0 ==> commands::search_filter_spec(keys, true) == FilterView::Key(
            "source:obsidian"@,
        ) && commands::search_filter_spec(keys, false) == FilterView::Key("source:obsidian"@),
        keys.len() == 1 ==> commands::search_filter_spec(keys, true) == FilterView::Key(keys[0])
            && commands::search_filter_spec(keys, false) == FilterView::Key(keys[0]),
        keys.len() >= 2 ==> (commands::search_filter_spec(keys, true) matches FilterView::Or(v)
            && are_parts(v, keys)) && (commands::search_filter_spec(
            keys,
            false,
        ) matches FilterView::And(w) && are_parts(w, keys)),
{
}

/// A request is filtered by its expression where it has one, else by its keys, else by the sources.
pub proof fn law_request_filter(
    expr: Seq<char>,
    keys: Seq<Seq<char>>,
    op: Seq<char>,
    sources: Seq<Seq<char>>,
)
    ensures
        commands::request_filter_spec(Some(expr), keys, op, sources)
            == expression::parse_filter_spec(expr),
        keys.len() > 0 && op == "or"@ ==> commands::request_filter_spec(None, keys, op, sources)
            == Some(commands::search_filter_spec(keys, true)),
        keys.len() > 0 && op != "or"@ ==> commands::request_filter_spec(None, keys, op, sources)
            == Some(commands::search_filter_spec(keys, false)),
        keys.len() == 0 ==> (commands::request_filter_spec(None, keys, op, sources) matches Some(
            FilterView::Or(v),
        ) && are_parts(v, sources)),
{
}

// ── Pages ───────────────────────────────────────────────────────────────────

/// A page holds what follows its offset, as much as its limit allows, and nothing else.
pub proof fn law_page(v: Seq<u32>, offset: u32, limit: u32, i: int)
    requires
        v.len() <= u32::MAX,
    ensures
        offset <= v.len() && limit <= v.len() - offset ==> query::page(
            v,
            Some(offset),
            Some(limit),
        ).len() == limit,
        offset <= v.len() && limit > v.len() - offset ==> query::page(
            v,
            Some(offset),
            Some(limit),
        ).len() == v.len() - offset,
        offset > v.len() ==> query::page(v, Some(offset), Some(limit)).len() == 0,
        0 <= i < query::page(v, Some(offset), Some(limit)).len() ==> query::page(
            v,
            Some(offset),
            Some(limit),
        )[i] == v[offset + i],
        query::page(v, None, None) == v,
        query::page(v, None, Some(limit)) == query::page(v, Some(0), Some(limit)),
{
    assert(query::page(v, None, None) =~= v);
}

/// What is listed of a set is all of it, each once, in ascending order.
pub proof fn law_listed(s: Set<u32>, x: u32, i: int, j: int)
    ensures
        s.contains(x) <==> query::listing(s).contains(x),
        0 <= i < j < query::listing(s).len() ==> query::listing(s)[i] < query::listing(s)[j],
{
    query::law_listing(s);
    assert(query::listing(s).to_set().contains(x) <==> query::listing(s).contains(x));
}

/// The keys of a category are those that begin with its name and a colon. That of the tombstones is
/// never listed.
pub proof fn law_category_keys(
    m: Map<Seq<char>, Set<u32>>,
    category: Seq<char>,
    rest: Seq<char>,
    k: Seq<char>,
)
    ensures
        k == category + seq![':'] + rest && m.dom().contains(k) && k != "__tombstone__"@
            ==> query::listed_keys(m, query::category_prefix(Some(category))).contains(k),
        query::listed_keys(m, query::category_prefix(Some(category))).contains(k)
            ==> m.dom().contains(k) && k != "__tombstone__"@ && k.len() > category.len() && k.take(
            category.len() as int,
        ) == category && k[category.len() as int] == ':',
        query::listed_keys(m, query::category_prefix(None)).contains(k) <==> m.dom().contains(k)
            && k != "__tombstone__"@,
{
    reveal_strlit(":");
    assert(":"@ =~= seq![':']);
    let p = category + ":"@;
    let n = category.len() as int;
    if k == category + seq![':'] + rest {
        assert(k.subrange(0, p.len() as int) =~= p);
    }
    if text::starts_with_spec(k, p) {
        let q = k.subrange(0, p.len() as int);
        assert(k.take(n) =~= category) by {
            assert forall|i: int| 0 <= i < n implies k.take(n)[i] == category[i] by {
                assert(q[i] == p[i]);
            }
        }
        assert(q[n] == p[n]);
    }
}

} // verus!
