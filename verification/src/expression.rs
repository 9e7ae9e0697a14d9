//! Filter expressions: `namespace:value` terms with AND, OR, NOT and parentheses, such as
//! `tag:work AND (type:task OR type:note) AND NOT folder:archive`. NOT binds tightest, then AND.

use vstd::prelude::*;

use crate::query::Filter;
use crate::text;

verus! {

// ── Filters as trees ────────────────────────────────────────────────────────

/// A filter with its keys taken as texts.
pub enum FilterView {
    Key(Seq<char>),
    Not(Box<FilterView>),
    And(Seq<FilterView>),
    Or(Seq<FilterView>),
}

impl Filter {
    /// The filter with its keys taken as texts.
    pub open spec fn model(&self) -> FilterView
        decreases self,
    {
        match self {
            Filter::Key(k) => FilterView::Key(k@),
            Filter::Not(f) => FilterView::Not(Box::new(f.model())),
            Filter::And(v) => FilterView::And(
                Seq::new(
                    v@.len(),
                    |i: int|
                        if 0 <= i < v@.len() {
                            v@[i].model()
                        } else {
                            FilterView::Key(Seq::empty())
                        },
                ),
            ),
            Filter::Or(v) => FilterView::Or(
                Seq::new(
                    v@.len(),
                    |i: int|
                        if 0 <= i < v@.len() {
                            v@[i].model()
                        } else {
                            FilterView::Key(Seq::empty())
                        },
                ),
            ),
        }
    }
}

/// The models of filters.
pub open spec fn models(s: Seq<Filter>) -> Seq<FilterView> {
    Seq::new(s.len(), |i: int| s[i].model())
}

/// The models of lists are lists of models.
pub proof fn lemma_model_list(v: Vec<Filter>)
    ensures
        Filter::And(v).model() == FilterView::And(models(v@)),
        Filter::Or(v).model() == FilterView::Or(models(v@)),
{
    assert(Filter::And(v).model()->And_0 =~= models(v@));
    assert(Filter::Or(v).model()->Or_0 =~= models(v@));
}

// ── Tokens ──────────────────────────────────────────────────────────────────

/// A token of an expression.
#[derive(Debug)]
pub enum Token {
    Open,
    Close,
    And,
    Or,
    Not,
    Word(String),
}

/// A token with its word taken as a text.
pub enum TokenView {
    Open,
    Close,
    And,
    Or,
    Not,
    Word(Seq<char>),
}

impl View for Token {
    type V = TokenView;

    open spec fn view(&self) -> TokenView {
        match self {
            Token::Open => TokenView::Open,
            Token::Close => TokenView::Close,
            Token::And => TokenView::And,
            Token::Or => TokenView::Or,
            Token::Not => TokenView::Not,
            Token::Word(w) => TokenView::Word(w@),
        }
    }
}

/// The token that a word is.
pub open spec fn word_token(w: Seq<char>) -> TokenView {
    if w == "AND"@ {
        TokenView::And
    } else if w == "OR"@ {
        TokenView::Or
    } else if w == "NOT"@ {
        TokenView::Not
    } else {
        TokenView::Word(w)
    }
}

/// Whether a character ends a word.
pub open spec fn ends_word(c: char) -> bool {
    text::is_white_space(c) || c == '(' || c == ')'
}

/// Where a word that goes on at `i` ends.
pub open spec fn word_stop(s: Seq<char>, i: int) -> int
    decreases s.len() - i,
{
    if i < 0 || i >= s.len() {
        s.len() as int
    } else if ends_word(s[i]) {
        i
    } else {
        word_stop(s, i + 1)
    }
}

/// The tokens from position `i` on.
pub open spec fn tokens_from(s: Seq<char>, i: int) -> Seq<TokenView>
    decreases s.len() - i,
{
    if i < 0 || i >= s.len() {
        Seq::empty()
    } else if text::is_white_space(s[i]) {
        tokens_from(s, i + 1)
    } else if s[i] == '(' {
        seq![TokenView::Open] + tokens_from(s, i + 1)
    } else if s[i] == ')' {
        seq![TokenView::Close] + tokens_from(s, i + 1)
    } else {
        let e = word_stop(s, i + 1);
        if i < e <= s.len() {
            seq![word_token(s.subrange(i, e))] + tokens_from(s, e)
        } else {
            Seq::empty()
        }
    }
}

/// The tokens of an expression.
pub open spec fn tokens_spec(s: Seq<char>) -> Seq<TokenView> {
    tokens_from(s, 0)
}

/// The views of tokens.
pub open spec fn token_views(s: Seq<Token>) -> Seq<TokenView> {
    Seq::new(s.len(), |i: int| s[i]@)
}

fn end_of_word(v: &Vec<char>, from: usize) -> (r: usize)
    requires
        from <= v@.len(),
    ensures
        r == word_stop(v@, from as int),
        from <= r <= v@.len(),
{
    let mut i: usize = from;
    while i < v.len()
        invariant
            from <= i <= v@.len(),
            word_stop(v@, from as int) == word_stop(v@, i as int),
        decreases v@.len() - i,
    {
        if text::white_space(v[i]) || v[i] == '(' || v[i] == ')' {
            return i;
        }
        i += 1;
    }
    i
}

/// The tokens of an expression.
pub fn tokens(s: &str) -> (r: Vec<Token>)
    ensures
        token_views(r@) == tokens_spec(s@),
{
    let v = text::chars_of(s);
    let mut out: Vec<Token> = Vec::new();
    let mut i: usize = 0;
    assert(token_views(out@) + tokens_from(v@, 0) =~= tokens_spec(s@));
    while i < v.len()
        invariant
            v@ == s@,
            i <= v@.len(),
            token_views(out@) + tokens_from(v@, i as int) == tokens_spec(s@),
        decreases v@.len() - i,
    {
        let ghost before = token_views(out@);
        if text::white_space(v[i]) {
            i += 1;
        } else if v[i] == '(' {
            let ghost rest = tokens_from(v@, i + 1);
            out.push(Token::Open);
            assert(token_views(out@) + rest =~= before + (seq![TokenView::Open] + rest));
            i += 1;
        } else if v[i] == ')' {
            let ghost rest = tokens_from(v@, i + 1);
            out.push(Token::Close);
            assert(token_views(out@) + rest =~= before + (seq![TokenView::Close] + rest));
            i += 1;
        } else {
            let e = end_of_word(&v, i + 1);
            let w = text::substring(&v, i, e);
            let ghost rest = tokens_from(v@, e as int);
            let t = if text::str_eq(w.as_str(), "AND") {
                Token::And
            } else if text::str_eq(w.as_str(), "OR") {
                Token::Or
            } else if text::str_eq(w.as_str(), "NOT") {
                Token::Not
            } else {
                Token::Word(w)
            };
            out.push(t);
            assert(token_views(out@) + rest =~= before + (seq![word_token(w@)] + rest));
            i = e;
        }
    }
    assert(token_views(out@) + Seq::<TokenView>::empty() =~= token_views(out@));
    out
}

// ── The grammar ─────────────────────────────────────────────────────────────

/// Whether a word is a term: it has a namespace.
pub open spec fn is_term(w: Seq<char>) -> bool {
    text::contains_spec(w, ":"@)
}

/// A list of filters joined by AND; a single one stands for itself.
pub open spec fn joined_and(fs: Seq<FilterView>) -> FilterView {
    if fs.len() == 1 {
        fs[0]
    } else {
        FilterView::And(fs)
    }
}

/// A list of filters joined by OR; a single one stands for itself.
pub open spec fn joined_or(fs: Seq<FilterView>) -> FilterView {
    if fs.len() == 1 {
        fs[0]
    } else {
        FilterView::Or(fs)
    }
}

/// The term, negation or parenthesised expression at `i`, and the position behind it.
pub open spec fn unary_at(t: Seq<TokenView>, i: int) -> Option<(FilterView, int)>
    decreases t.len() - i, 0int,
{
    if i < 0 || i >= t.len() {
        None
    } else {
        match t[i] {
            TokenView::Word(w) => if is_term(w) {
                Some((FilterView::Key(w), i + 1))
            } else {
                None
            },
            TokenView::Not => match unary_at(t, i + 1) {
                Some((f, j)) => Some((FilterView::Not(Box::new(f)), j)),
                None => None,
            },
            TokenView::Open => match or_at(t, i + 1) {
                Some((f, j)) => if 0 <= j < t.len() && t[j] == TokenView::Close {
                    Some((f, j + 1))
                } else {
                    None
                },
                None => None,
            },
            _ => None,
        }
    }
}

/// The conjunction at `i`, and the position behind it.
pub open spec fn and_at(t: Seq<TokenView>, i: int) -> Option<(FilterView, int)>
    decreases t.len() - i, 1int,
{
    if i < 0 || i >= t.len() {
        None
    } else {
        match unary_at(t, i) {
            Some((f, j)) => if i < j <= t.len() {
                and_rest(t, j, seq![f])
            } else {
                None
            },
            None => None,
        }
    }
}

/// What goes on at `i` as a conjunction of filters found before.
pub open spec fn and_rest(t: Seq<TokenView>, i: int, acc: Seq<FilterView>) -> Option<
    (FilterView, int),
>
    decreases t.len() - i, 1int,
{
    if 0 <= i < t.len() && t[i] == TokenView::And {
        match unary_at(t, i + 1) {
            Some((f, j)) => if i < j <= t.len() {
                and_rest(t, j, acc.push(f))
            } else {
                None
            },
            None => None,
        }
    } else {
        Some((joined_and(acc), i))
    }
}

/// The disjunction at `i`, and the position behind it.
pub open spec fn or_at(t: Seq<TokenView>, i: int) -> Option<(FilterView, int)>
    decreases t.len() - i, 2int,
{
    if i < 0 || i >= t.len() {
        None
    } else {
        match and_at(t, i) {
            Some((f, j)) => if i < j <= t.len() {
                or_rest(t, j, seq![f])
            } else {
                None
            },
            None => None,
        }
    }
}

/// What goes on at `i` as a disjunction of filters found before.
pub open spec fn or_rest(t: Seq<TokenView>, i: int, acc: Seq<FilterView>) -> Option<
    (FilterView, int),
>
    decreases t.len() - i, 2int,
{
    if 0 <= i < t.len() && t[i] == TokenView::Or {
        match and_at(t, i + 1) {
            Some((f, j)) => if i < j <= t.len() {
                or_rest(t, j, acc.push(f))
            } else {
                None
            },
            None => None,
        }
    } else {
        Some((joined_or(acc), i))
    }
}

/// The filter that tokens stand for.
pub open spec fn filter_of(t: Seq<TokenView>) -> Option<FilterView> {
    match or_at(t, 0) {
        Some((f, j)) => if j == t.len() {
            Some(f)
        } else {
            None
        },
        None => None,
    }
}

/// The filter that an expression stands for.
pub open spec fn parse_filter_spec(s: Seq<char>) -> Option<FilterView> {
    filter_of(tokens_spec(s))
}

// ── The parser ──────────────────────────────────────────────────────────────

fn is_tok_and(t: &Token) -> (r: bool)
    ensures
        r == (t@ == TokenView::And),
{
    match t {
        Token::And => true,
        _ => false,
    }
}

fn is_tok_or(t: &Token) -> (r: bool)
    ensures
        r == (t@ == TokenView::Or),
{
    match t {
        Token::Or => true,
        _ => false,
    }
}

fn is_tok_close(t: &Token) -> (r: bool)
    ensures
        r == (t@ == TokenView::Close),
{
    match t {
        Token::Close => true,
        _ => false,
    }
}

/// Whether a result is that of a spec.
pub open spec fn agrees(r: Option<(Filter, usize)>, s: Option<(FilterView, int)>) -> bool {
    match (r, s) {
        (Some((f, j)), Some((g, k))) => f.model() == g && j == k,
        (None, None) => true,
        _ => false,
    }
}

fn parse_unary(t: &Vec<Token>, i: usize) -> (r: Option<(Filter, usize)>)
    ensures
        agrees(r, unary_at(token_views(t@), i as int)),
        r matches Some((f, j)) ==> i < j <= t@.len(),
    decreases t@.len() - i, 0int,
{
    let ghost tv = token_views(t@);
    if i >= t.len() {
        return None;
    }
    assert(tv[i as int] == t@[i as int]@);
    match &t[i] {
        Token::Word(w) => {
            let v = text::chars_of(w.as_str());
            if text::contains(&v, ":") {
                Some((Filter::Key(w.clone()), i + 1))
            } else {
                None
            }
        },
        Token::Not => match parse_unary(t, i + 1) {
            Some((f, j)) => {
                let g = Filter::Not(Box::new(f));
                assert(g.model() == FilterView::Not(Box::new(f.model())));
                Some((g, j))
            },
            None => None,
        },
        Token::Open => match parse_or(t, i + 1) {
            Some((f, j)) => {
                if j < t.len() && is_tok_close(&t[j]) {
                    assert(tv[j as int] == t@[j as int]@);
                    Some((f, j + 1))
                } else {
                    proof {
                        if j < t@.len() {
                            assert(tv[j as int] == t@[j as int]@);
                        }
                    }
                    None
                }
            },
            None => None,
        },
        _ => None,
    }
}

fn parse_and(t: &Vec<Token>, i: usize) -> (r: Option<(Filter, usize)>)
    ensures
        agrees(r, and_at(token_views(t@), i as int)),
        r matches Some((f, j)) ==> i < j <= t@.len(),
    decreases t@.len() - i, 1int,
{
    let ghost tv = token_views(t@);
    let (first, next) = match parse_unary(t, i) {
        Some(p) => p,
        None => {
            return None;
        },
    };
    let mut fs: Vec<Filter> = Vec::new();
    fs.push(first);
    let mut j: usize = next;
    assert(models(fs@) =~= seq![first.model()]);
    while j < t.len() && is_tok_and(&t[j])
        invariant
            tv == token_views(t@),
            i < j <= t@.len(),
            fs@.len() > 0,
            and_at(tv, i as int) == and_rest(tv, j as int, models(fs@)),
        decreases t@.len() - j,
    {
        assert(tv[j as int] == t@[j as int]@);
        match parse_unary(t, j + 1) {
            Some((f, k)) => {
                let ghost before = models(fs@);
                fs.push(f);
                assert(models(fs@) =~= before.push(f.model()));
                j = k;
            },
            None => {
                return None;
            },
        }
    }
    proof {
        if j < t@.len() {
            assert(tv[j as int] == t@[j as int]@);
        }
        lemma_model_list(fs);
        if fs@.len() == 1 {
            assert(models(fs@)[0] == fs@[0].model());
        }
    }
    if fs.len() == 1 {
        match fs.pop() {
            Some(f) => Some((f, j)),
            None => None,
        }
    } else {
        Some((Filter::And(fs), j))
    }
}

fn parse_or(t: &Vec<Token>, i: usize) -> (r: Option<(Filter, usize)>)
    ensures
        agrees(r, or_at(token_views(t@), i as int)),
        r matches Some((f, j)) ==> i < j <= t@.len(),
    decreases t@.len() - i, 2int,
{
    let ghost tv = token_views(t@);
    let (first, next) = match parse_and(t, i) {
        Some(p) => p,
        None => {
            return None;
        },
    };
    let mut fs: Vec<Filter> = Vec::new();
    fs.push(first);
    let mut j: usize = next;
    assert(models(fs@) =~= seq![first.model()]);
    while j < t.len() && is_tok_or(&t[j])
        invariant
            tv == token_views(t@),
            i < j <= t@.len(),
            fs@.len() > 0,
            or_at(tv, i as int) == or_rest(tv, j as int, models(fs@)),
        decreases t@.len() - j,
    {
        assert(tv[j as int] == t@[j as int]@);
        match parse_and(t, j + 1) {
            Some((f, k)) => {
                let ghost before = models(fs@);
                fs.push(f);
                assert(models(fs@) =~= before.push(f.model()));
                j = k;
            },
            None => {
                return None;
            },
        }
    }
    proof {
        if j < t@.len() {
            assert(tv[j as int] == t@[j as int]@);
        }
        lemma_model_list(fs);
        if fs@.len() == 1 {
            assert(models(fs@)[0] == fs@[0].model());
        }
    }
    if fs.len() == 1 {
        match fs.pop() {
            Some(f) => Some((f, j)),
            None => None,
        }
    } else {
        Some((Filter::Or(fs), j))
    }
}

/// The filter that an expression stands for, or none where it is not an expression.
pub fn parse_filter(s: &str) -> (r: Option<Filter>)
    ensures
        match r {
            Some(f) => parse_filter_spec(s@) == Some(f.model()),
            None => parse_filter_spec(s@) is None,
        },
{
    let t = tokens(s);
    match parse_or(&t, 0) {
        Some((f, j)) => if j == t.len() {
            Some(f)
        } else {
            None
        },
        None => None,
    }
}

// ── Laws ────────────────────────────────────────────────────────────────────

/// Whether a filter can be written as an expression: its keys are terms that are single words, and
/// its lists have at least two parts.
pub open spec fn is_writable(f: FilterView) -> bool
    decreases f,
{
    match f {
        FilterView::Key(k) => is_term(k),
        FilterView::Not(g) => is_writable(*g),
        FilterView::And(v) => v.len() >= 2 && forall|i: int|
            0 <= i < v.len() ==> is_writable(#[trigger] v[i]),
        FilterView::Or(v) => v.len() >= 2 && forall|i: int|
            0 <= i < v.len() ==> is_writable(#[trigger] v[i]),
    }
}

/// The tokens of a filter, with parentheses round each list.
pub open spec fn written(f: FilterView) -> Seq<TokenView>
    decreases f, 0int,
{
    match f {
        FilterView::Key(k) => seq![TokenView::Word(k)],
        FilterView::Not(g) => seq![TokenView::Not] + written(*g),
        FilterView::And(v) => seq![TokenView::Open] + written_list(
            v,
            v.len() as int,
            TokenView::And,
        ) + seq![TokenView::Close],
        FilterView::Or(v) => seq![TokenView::Open] + written_list(v, v.len() as int, TokenView::Or)
            + seq![TokenView::Close],
    }
}

/// The tokens of the first `n` parts of a list, with an operator between them.
pub open spec fn written_list(v: Seq<FilterView>, n: int, op: TokenView) -> Seq<TokenView>
    decreases v, n,
{
    if n <= 0 || n > v.len() {
        Seq::empty()
    } else if n == 1 {
        written(v[0])
    } else {
        written_list(v, n - 1, op) + seq![op] + written(v[n - 1])
    }
}

/// Whether some tokens stand at `i`.
pub open spec fn stand_at(t: Seq<TokenView>, i: int, w: Seq<TokenView>) -> bool {
    0 <= i && i + w.len() <= t.len() && t.subrange(i, i + w.len()) == w
}

proof fn lemma_stand_at_parts(t: Seq<TokenView>, i: int, a: Seq<TokenView>, b: Seq<TokenView>)
    requires
        stand_at(t, i, a + b),
    ensures
        stand_at(t, i, a),
        stand_at(t, i + a.len(), b),
{
    let w = a + b;
    assert(t.subrange(i, i + a.len()) =~= a) by {
        assert forall|k: int| 0 <= k < a.len() implies t[i + k] == a[k] by {
            assert(t.subrange(i, i + w.len())[k] == w[k]);
        }
    }
    assert(t.subrange(i + a.len(), i + a.len() + b.len()) =~= b) by {
        assert forall|k: int| 0 <= k < b.len() implies t[i + a.len() + k] == b[k] by {
            assert(t.subrange(i, i + w.len())[a.len() + k] == w[a.len() + k]);
        }
    }
}

proof fn lemma_written_nonempty(f: FilterView)
    ensures
        written(f).len() > 0,
{
}

/// A written filter is read back where it stands.
proof fn lemma_read_back(t: Seq<TokenView>, i: int, f: FilterView)
    requires
        is_writable(f),
        stand_at(t, i, written(f)),
    ensures
        unary_at(t, i) == Some((f, i + written(f).len())),
    decreases f, 0int,
{
    let w = written(f);
    lemma_written_nonempty(f);
    assert(t[i] == w[0]) by {
        assert(t.subrange(i, i + w.len())[0] == w[0]);
    }
    match f {
        FilterView::Key(k) => {},
        FilterView::Not(g) => {
            lemma_stand_at_parts(t, i, seq![TokenView::Not], written(*g));
            lemma_read_back(t, i + 1, *g);
        },
        FilterView::And(v) => {
            let n = v.len() as int;
            let list = written_list(v, n, TokenView::And);
            lemma_stand_at_parts(t, i, seq![TokenView::Open] + list, seq![TokenView::Close]);
            lemma_stand_at_parts(t, i, seq![TokenView::Open], list);
            let e = i + 1 + list.len();
            assert(t[e] == TokenView::Close) by {
                assert(t.subrange(e, e + 1)[0] == seq![TokenView::Close][0]);
            }
            lemma_read_and(t, i + 1, v, n);
            lemma_list_len(v, n, TokenView::And);
            assert(v.take(n) =~= v);
            assert(and_rest(t, e, v) == Some((FilterView::And(v), e)));
            assert(and_at(t, i + 1) == Some((f, e)));
            assert(or_rest(t, e, seq![f]) == Some((f, e)));
            assert(or_at(t, i + 1) == Some((f, e)));
        },
        FilterView::Or(v) => {
            let n = v.len() as int;
            let list = written_list(v, n, TokenView::Or);
            lemma_stand_at_parts(t, i, seq![TokenView::Open] + list, seq![TokenView::Close]);
            lemma_stand_at_parts(t, i, seq![TokenView::Open], list);
            let e = i + 1 + list.len();
            assert(t[e] == TokenView::Close) by {
                assert(t.subrange(e, e + 1)[0] == seq![TokenView::Close][0]);
            }
            lemma_read_or(t, i + 1, v, n);
            lemma_list_len(v, n, TokenView::Or);
            assert(v.take(n) =~= v);
            assert(or_rest(t, e, v) == Some((FilterView::Or(v), e)));
            assert(or_at(t, i + 1) == Some((f, e)));
        },
    }
}

proof fn lemma_list_len(v: Seq<FilterView>, n: int, op: TokenView)
    requires
        1 <= n <= v.len(),
    ensures
        written_list(v, n, op).len() > 0,
    decreases n,
{
    if n == 1 {
        lemma_written_nonempty(v[0]);
    } else {
        lemma_list_len(v, n - 1, op);
    }
}

/// The first `n` parts of a conjunction are read back.
proof fn lemma_read_and(t: Seq<TokenView>, i: int, v: Seq<FilterView>, n: int)
    requires
        1 <= n <= v.len(),
        forall|k: int| 0 <= k < v.len() ==> is_writable(#[trigger] v[k]),
        stand_at(t, i, written_list(v, n, TokenView::And)),
    ensures
        and_at(t, i) == and_rest(t, i + written_list(v, n, TokenView::And).len(), v.take(n)),
    decreases v, n,
{
    if n == 1 {
        lemma_written_nonempty(v[0]);
        lemma_read_back(t, i, v[0]);
        assert(v.take(1) =~= seq![v[0]]);
    } else {
        let front = written_list(v, n - 1, TokenView::And);
        let last = written(v[n - 1]);
        lemma_list_len(v, n - 1, TokenView::And);
        lemma_stand_at_parts(t, i, front + seq![TokenView::And], last);
        lemma_stand_at_parts(t, i, front, seq![TokenView::And]);
        lemma_read_and(t, i, v, n - 1);
        let j = i + front.len();
        assert(t[j] == TokenView::And) by {
            assert(t.subrange(j, j + 1)[0] == seq![TokenView::And][0]);
        }
        lemma_written_nonempty(v[n - 1]);
        lemma_read_back(t, j + 1, v[n - 1]);
        assert(v.take(n - 1).push(v[n - 1]) =~= v.take(n));
    }
}

/// The first `n` parts of a disjunction are read back.
proof fn lemma_read_or(t: Seq<TokenView>, i: int, v: Seq<FilterView>, n: int)
    requires
        1 <= n <= v.len(),
        forall|k: int| 0 <= k < v.len() ==> is_writable(#[trigger] v[k]),
        stand_at(t, i, written_list(v, n, TokenView::Or)),
        ({
            let e = i + written_list(v, n, TokenView::Or).len();
            e < t.len() && (t[e] == TokenView::Close || t[e] == TokenView::Or)
        }),
    ensures
        or_at(t, i) == or_rest(t, i + written_list(v, n, TokenView::Or).len(), v.take(n)),
    decreases v, n,
{
    if n == 1 {
        lemma_written_nonempty(v[0]);
        lemma_read_back(t, i, v[0]);
        let e = i + written(v[0]).len();
        assert(and_rest(t, e, seq![v[0]]) == Some((v[0], e)));
        assert(and_at(t, i) == Some((v[0], e)));
        assert(v.take(1) =~= seq![v[0]]);
    } else {
        let front = written_list(v, n - 1, TokenView::Or);
        let last = written(v[n - 1]);
        lemma_list_len(v, n - 1, TokenView::Or);
        lemma_stand_at_parts(t, i, front + seq![TokenView::Or], last);
        lemma_stand_at_parts(t, i, front, seq![TokenView::Or]);
        let j = i + front.len();
        assert(t[j] == TokenView::Or) by {
            assert(t.subrange(j, j + 1)[0] == seq![TokenView::Or][0]);
        }
        lemma_read_or(t, i, v, n - 1);
        lemma_written_nonempty(v[n - 1]);
        lemma_read_back(t, j + 1, v[n - 1]);
        let e = j + 1 + last.len();
        assert(and_rest(t, e, seq![v[n - 1]]) == Some((v[n - 1], e)));
        assert(and_at(t, j + 1) == Some((v[n - 1], e)));
        assert(v.take(n - 1).push(v[n - 1]) =~= v.take(n));
    }
}

/// A filter that is written as an expression is read back as itself.
pub proof fn law_expression_round_trip(f: FilterView)
    requires
        is_writable(f),
    ensures
        filter_of(written(f)) == Some(f),
{
    let t = written(f);
    let n = t.len() as int;
    lemma_written_nonempty(f);
    assert(t.subrange(0, n) =~= t);
    lemma_read_back(t, 0, f);
    assert(and_rest(t, n, seq![f]) == Some((f, n)));
    assert(and_at(t, 0) == Some((f, n)));
    assert(or_rest(t, n, seq![f]) == Some((f, n)));
    assert(or_at(t, 0) == Some((f, n)));
}

} // verus!
