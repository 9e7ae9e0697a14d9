//! Which files are taken in, and by which parser.

use vstd::prelude::*;
use vstd::utf8::*;

use crate::code;
use crate::commands;
use crate::config;
use crate::confluence;
use crate::ignore;
use crate::ingest;
use crate::markdown;
use crate::parser::Parser;
use crate::paths;
use crate::remote;
use crate::syntax;
use crate::syntax::Grammar;
use crate::text;
use crate::text_laws;
use crate::types::{ParseErrorView, ParseView, SourceTypeView};

verus! {

// ── Ignored paths ───────────────────────────────────────────────────────────

/// Whether a name is that of a folder whose files are never taken in.
pub open spec fn is_left_out(name: Seq<char>) -> bool {
    name == "target"@ || name == "node_modules"@ || name == ".git"@
}

proof fn lemma_piece_of(s: Seq<char>, i: int, a: int, b: int) -> (k: int)
    requires
        0 <= i <= a <= b < s.len(),
        i == 0 || s[i - 1] == '/',
        a == i || s[a - 1] == '/',
        s[b] == '/',
        forall|m: int| a <= m < b ==> #[trigger] s[m] != '/',
    ensures
        0 <= k < text::pieces_from(s, '/', i).len() - 1,
        text::pieces_from(s, '/', i)[k] == (a, b),
    decreases s.len() - i,
{
    text::lemma_next_sep(s, '/', i);
    let e = text::next_sep(s, '/', i);
    let all = text::pieces_from(s, '/', i);
    if a == i {
        if e < b {
            assert(s[e] != '/');
        }
        assert(e == b);
        text::lemma_pieces_from(s, '/', e + 1);
        0
    } else {
        if e >= a {
            assert(s[a - 1] != '/');
        }
        assert(e < a);
        let k = lemma_piece_of(s, e + 1, a, b);
        assert(all[k + 1] == text::pieces_from(s, '/', e + 1)[k]);
        k + 1
    }
}

/// A file below a folder that is left out is ignored, however deep the folder lies.
pub proof fn law_left_out(before: Seq<char>, name: Seq<char>, after: Seq<char>)
    requires
        before.len() == 0 || before.last() == '/',
        is_left_out(name),
    ensures
        ignore::in_ignored_dir_spec(before + name + seq!['/'] + after),
{
    let s = before + name + seq!['/'] + after;
    let a = before.len() as int;
    let b = a + name.len();
    reveal_strlit("target");
    reveal_strlit("node_modules");
    reveal_strlit(".git");
    assert forall|m: int| a <= m < b implies #[trigger] s[m] != '/' by {
        assert(s[m] == name[m - a]);
    }
    if a > 0 {
        assert(s[a - 1] == before.last());
    }
    let k = lemma_piece_of(s, 0, a, b);
    assert(s.subrange(a, b) =~= name);
    let p = text::pieces(s, '/');
    assert(ignore::is_ignored_dir(s.subrange(p[k].0, p[k].1)));
}

/// A path of which no folder has such a name is not ignored for its folders.
pub proof fn law_not_left_out(s: Seq<char>)
    requires
        forall|a: int, b: int|
            #![trigger s.subrange(a, b)]
            0 <= a <= b < s.len() && s[b] == '/' ==> !is_left_out(s.subrange(a, b)),
    ensures
        !ignore::in_ignored_dir_spec(s),
{
    let p = text::pieces(s, '/');
    text::lemma_pieces_from(s, '/', 0);
    if ignore::in_ignored_dir_spec(s) {
        let k = choose|k: int|
            0 <= k < p.len() - 1 && ignore::is_ignored_dir(s.subrange((#[trigger] p[k]).0, p[k].1));
        assert(p[k + 1].0 <= s.len());
        lemma_inner_piece(s, 0, k);
        assert(!is_left_out(s.subrange(p[k].0, p[k].1)));
    }
}

proof fn lemma_inner_piece(s: Seq<char>, i: int, k: int)
    requires
        0 <= i <= s.len(),
        0 <= k < text::pieces_from(s, '/', i).len() - 1,
    ensures
        0 <= text::pieces_from(s, '/', i)[k].0 <= text::pieces_from(s, '/', i)[k].1 < s.len(),
        s[text::pieces_from(s, '/', i)[k].1] == '/',
    decreases s.len() - i,
{
    text::lemma_next_sep(s, '/', i);
    let e = text::next_sep(s, '/', i);
    let all = text::pieces_from(s, '/', i);
    if e < s.len() && k > 0 {
        assert(all[k] == text::pieces_from(s, '/', e + 1)[k - 1]);
        lemma_inner_piece(s, e + 1, k - 1);
    }
}

/// What a line of an ignore file stands for: a folder with a slash behind it, with all that lies in
/// it; a path with a slash in it, as it is; any other name, wherever it stands. Comments and blank
/// lines stand for nothing.
pub proof fn law_ignore_lines(a: Seq<char>, w: Seq<char>, b: Seq<char>)
    requires
        text_laws::is_blank(a),
        text_laws::is_trimmed(w),
        text_laws::is_blank(b),
    ensures
        ({
            let globs = ignore::line_globs_spec(a + w + b);
            &&& w.len() == 0 || w[0] == '#' ==> globs.len() == 0
            &&& w.len() > 0 && w[0] != '#' && w.last() == '/' ==> globs == seq![
                seq!['*', '*', '/'] + w + seq!['*', '*'],
            ]
            &&& w.len() > 0 && w[0] != '#' && w.last() != '/' && w.contains('/') ==> globs
                == seq![w]
            &&& w.len() > 0 && w[0] != '#' && !w.contains('/') ==> globs == seq![
                seq!['*', '*', '/'] + w,
            ]
        }),
{
    text_laws::law_trim(a, w, b);
    reveal_strlit("**/");
    reveal_strlit("**");
    reveal_strlit("/");
    assert("**/"@ =~= seq!['*', '*', '/']);
    assert("**"@ =~= seq!['*', '*']);
    assert("/"@ =~= seq!['/']);
    text::lemma_find(w, "/"@, 0);
    if w.contains('/') {
        let k = w.index_of('/');
        assert(w.subrange(k, k + 1) =~= "/"@);
        assert(text::occurs_at(w, "/"@, k));
    } else {
        if w.len() > 0 {
            assert(w.contains(w.last()));
        }
        match text::find_spec(w, "/"@, 0) {
            Some(p) => {
                assert(w.subrange(p, p + 1)[0] == w[p]);
                assert(w.contains(w[p]));
            },
            None => {},
        }
    }
}

// ── Parsers ─────────────────────────────────────────────────────────────────

proof fn lemma_parser(parsers: Seq<Box<dyn Parser>>, path: Seq<char>, i: int, k: int)
    requires
        0 <= i <= k < parsers.len(),
        parsers[k].handles(path),
        forall|j: int| i <= j < k ==> !(#[trigger] parsers[j]).handles(path),
    ensures
        ingest::parser_from(parsers, path, i) == Some(k),
    decreases k - i,
{
    if i < k {
        assert(!parsers[i].handles(path));
        lemma_parser(parsers, path, i + 1, k);
    }
}

/// A file is read by the first parser that handles its path.
pub proof fn law_first_parser(
    parsers: Seq<Box<dyn Parser>>,
    path: Seq<char>,
    content: Seq<u8>,
    k: int,
)
    requires
        0 <= k < parsers.len(),
        parsers[k].handles(path),
        forall|j: int| 0 <= j < k ==> !(#[trigger] parsers[j]).handles(path),
    ensures
        ingest::parsed_as(parsers, path, content) == parsers[k].outcome(path, content),
{
    lemma_parser(parsers, path, 0, k);
}

/// The parser of each kind of remote source: pages are read as such, and what is neither a page, an
/// issue nor a message as a note.
pub proof fn law_remote_parsers(
    parsers: Seq<Box<dyn Parser>>,
    kind: Seq<char>,
    path: Seq<char>,
    content: Seq<u8>,
)
    requires
        commands::are_remote_parsers(parsers, kind),
    ensures
        kind == "confluence"@ && paths::extension_spec(path) == Some("confluence"@)
            ==> ingest::parsed_as(parsers, path, content) == confluence::confluence_outcome(content),
        kind == "jira"@ || kind == "slack"@ ==> ingest::parser_for(parsers, path) is None,
        kind != "confluence"@ && kind != "jira"@ && kind != "slack"@ && paths::extension_spec(path)
            == Some(seq!['m', 'd']) ==> ingest::parsed_as(parsers, path, content)
            == markdown::markdown_outcome(content),
{
    reveal_strlit("confluence");
    reveal_strlit("jira");
    reveal_strlit("slack");
    assert("confluence"@.len() == 10 && "jira"@.len() == 4 && "slack"@.len() == 5);
}

/// A source file that has no grammar, has no tree or is no text is refused, each with its own error.
/// Any other is read by its tree.
pub proof fn law_source_bytes(
    g: Grammar,
    path: Seq<char>,
    content: Seq<u8>,
    message: Seq<char>,
)
    ensures
        code::code_outcome(None, path, content) == Err::<ParseView, ParseErrorView>(
            ParseErrorView::Unsupported("no grammar for: "@ + path),
        ),
        syntax::syntax_items(g, content) matches Err(m) && m == message ==> code::code_outcome(
            Some(g),
            path,
            content,
        ) == Err::<ParseView, ParseErrorView>(ParseErrorView::Internal(message)),
        syntax::syntax_items(g, content) is Ok && !valid_utf8(content) ==> code::code_outcome(
            Some(g),
            path,
            content,
        ) == Err::<ParseView, ParseErrorView>(ParseErrorView::InvalidUtf8),
        syntax::syntax_items(g, content) is Ok && valid_utf8(content) ==> code::code_outcome(
            Some(g),
            path,
            content,
        ) == Ok::<ParseView, ParseErrorView>(
            code::tree_outcome(syntax::syntax_items(g, content)->Ok_0, content, path),
        ),
{
}

// ── Settings ────────────────────────────────────────────────────────────────

/// The kinds of sources and their words.
pub proof fn law_source_words(word: Seq<char>)
    ensures
        config::type_of_text("obsidian"@) == SourceTypeView::Obsidian,
        config::type_of_text("code"@) == SourceTypeView::Code,
        word != "obsidian"@ && word != "code"@ ==> config::type_of_text(word)
            == SourceTypeView::Custom(word),
{
    reveal_strlit("obsidian");
    reveal_strlit("code");
    assert("obsidian"@.len() == 8 && "code"@.len() == 4);
}

/// A source is named after its folder.
pub proof fn law_source_name(d: Seq<char>, n: Seq<char>)
    requires
        crate::path_laws::is_name(n),
        d.len() > 0 ==> d.last() == '/',
    ensures
        config::source_name_spec(d + n) == n,
{
    crate::path_laws::law_file_name(d, n);
}

/// The variable that holds the token of each kind of remote source.
pub proof fn law_token_variables(kind: Seq<char>)
    ensures
        remote::token_variable_spec("confluence"@) == Some("CONFLUENCE_API_TOKEN"@),
        remote::token_variable_spec("jira"@) == Some("JIRA_API_TOKEN"@),
        remote::token_variable_spec("slack"@) == Some("SLACK_BOT_TOKEN"@),
        kind != "confluence"@ && kind != "jira"@ && kind != "slack"@
            ==> remote::token_variable_spec(kind) is None,
{
    reveal_strlit("confluence");
    reveal_strlit("jira");
    reveal_strlit("slack");
    assert("confluence"@.len() == 10 && "jira"@.len() == 4 && "slack"@.len() == 5);
}

} // verus!
