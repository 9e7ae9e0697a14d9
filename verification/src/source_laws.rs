//! What a source file is told by its path, and a function by its head.

use vstd::prelude::*;
use vstd::utf8::*;

use crate::code;
use crate::code_laws::{fills, law_field, law_node_text, spells};
use crate::paths;
use crate::syntax;
use crate::syntax::{Grammar, ItemView};
use crate::text;
use crate::text_laws;
use crate::types::DocType;

verus! {

// ── Signatures ──────────────────────────────────────────────────────────────

/// The signature of a node is what stands before its body, without the white space around it.
pub proof fn law_signature_before_body(
    t: Seq<ItemView>,
    source: Seq<u8>,
    i: int,
    b: int,
    before: Seq<char>,
    head: Seq<char>,
    behind: Seq<char>,
)
    requires
        fills(t, i, "body"@, b),
        0 <= t[i].start < t[b].start <= source.len(),
        source.subrange(t[i].start, t[b].start) == encode_utf8(before + head + behind),
        text_laws::is_blank(before),
        text_laws::is_trimmed(head),
        text_laws::is_blank(behind),
    ensures
        code::signature_spec(t, source, i) == head,
{
    law_field(t, i, "body"@, b);
    encode_utf8_valid_utf8(before + head + behind);
    encode_utf8_decode_utf8(before + head + behind);
    text_laws::law_trim(before, head, behind);
}

/// The signature of a node without a body is its first line.
pub proof fn law_signature_first_line(
    t: Seq<ItemView>,
    source: Seq<u8>,
    i: int,
    line: Seq<char>,
    rest: Seq<char>,
)
    requires
        0 <= i < t.len(),
        forall|b: int| !#[trigger] fills(t, i, "body"@, b),
        spells(t, source, i, line + rest),
        !line.contains('\n'),
        rest.len() == 0 || rest[0] == '\n' || (rest.len() > 1 && rest[0] == '\r' && rest[1]
            == '\n'),
        rest.len() > 0 && rest[0] == '\n' && line.len() > 0 ==> line.last() != '\r',
    ensures
        code::signature_spec(t, source, i) == line,
{
    if syntax::field_spec(t, i, "body"@) is Some {
        law_field(t, i, "body"@, syntax::field_spec(t, i, "body"@)->Some_0);
    }
    law_node_text(t, source, i, line + rest);
    let s = line + rest;
    let n = line.len() as int;
    let e = text::next_sep(s, '\n', 0);
    text::lemma_next_sep(s, '\n', 0);
    if e < n {
        assert(s[e] == line[e]);
        assert(line.contains(line[e]));
    }
    if rest.len() > 0 {
        assert(s[n] == rest[0]);
        if rest[0] == '\r' {
            assert(s[n + 1] == rest[1]);
            assert(e == n + 1);
        } else {
            assert(e == n);
            if n > 0 {
                assert(s[n - 1] == line.last());
            }
        }
    }
    assert(s.take(n) =~= line);
}

/// A Rust function is asynchronous where its first bytes say so.
pub proof fn law_async_head(t: Seq<ItemView>, source: Seq<u8>, i: int, a: Seq<char>, b: Seq<char>)
    requires
        spells(t, source, i, a + "async fn"@ + b),
        t[i].end <= t[i].start + 50,
    ensures
        code::rust_async_spec(t, source, i),
{
    let s = a + "async fn"@ + b;
    law_node_text(t, source, i, s);
    let n = a.len() as int;
    let w = "async fn"@;
    assert(s.subrange(n, n + w.len()) =~= w);
    assert(text::occurs_at(s, w, n));
    text::lemma_find(s, w, 0);
}

// ── Paths ───────────────────────────────────────────────────────────────────

/// Whether a text ends in a word.
pub open spec fn has_end(s: Seq<char>, word: Seq<char>) -> bool {
    exists|a: Seq<char>| s == #[trigger] (a + word)
}

/// Whether a text begins with a word.
pub open spec fn has_front(s: Seq<char>, word: Seq<char>) -> bool {
    exists|b: Seq<char>| s == #[trigger] (word + b)
}

/// Whether a word stands in a text.
pub open spec fn has_inside(s: Seq<char>, word: Seq<char>) -> bool {
    exists|a: Seq<char>, b: Seq<char>| s == #[trigger] (a + word + b)
}

proof fn lemma_words(s: Seq<char>, word: Seq<char>)
    ensures
        has_end(s, word) <==> text::ends_with_spec(s, word),
        has_front(s, word) <==> text::starts_with_spec(s, word),
        has_inside(s, word) <==> text::contains_spec(s, word),
{
    let n = s.len() as int;
    let w = word.len() as int;
    if has_end(s, word) {
        let a = choose|a: Seq<char>| s == #[trigger] (a + word);
        assert(s.subrange(n - w, n) =~= word);
    }
    if text::ends_with_spec(s, word) {
        assert(s =~= s.take(n - w) + word);
    }
    if has_front(s, word) {
        let b = choose|b: Seq<char>| s == #[trigger] (word + b);
        assert(s.subrange(0, w) =~= word);
    }
    if text::starts_with_spec(s, word) {
        assert(s =~= word + s.skip(w));
    }
    text::lemma_find(s, word, 0);
    if has_inside(s, word) {
        let (a, b) = choose|a: Seq<char>, b: Seq<char>| s == #[trigger] (a + word + b);
        let k = a.len() as int;
        assert(s.subrange(k, k + w) =~= word);
        assert(text::occurs_at(s, word, k));
    }
    if text::contains_spec(s, word) {
        let p = text::find_spec(s, word, 0)->Some_0;
        assert(s =~= s.take(p) + word + s.skip(p + w));
    }
}

/// Whether a path is that of a test.
pub open spec fn is_test(path: Seq<char>, stem: Seq<char>) -> bool {
    ||| has_front(stem, "test_"@)
    ||| has_end(stem, "_test"@)
    ||| has_end(stem, "_tests"@)
    ||| has_end(stem, "_spec"@)
    ||| has_end(stem, ".test"@)
    ||| has_end(stem, ".spec"@)
    ||| stem == "tests"@
    ||| has_inside(path, "/tests/"@)
    ||| has_inside(path, "/test/"@)
}

/// Whether a file holds settings.
pub open spec fn is_config(stem: Seq<char>, ext: Seq<char>) -> bool {
    ||| ext == "toml"@
    ||| ext == "yaml"@
    ||| ext == "yml"@
    ||| ext == "json"@
    ||| ext == "ini"@
    ||| ext == "cfg"@
    ||| stem == "Cargo"@
    ||| stem == "Makefile"@
    ||| stem == "Dockerfile"@
    ||| has_front(stem, "."@)
}

/// A file with a name is a test where its path says so. Any other with an extension holds settings or
/// source code.
pub proof fn law_document_type(t: Seq<ItemView>, source: Seq<u8>, path: Seq<char>, stem: Seq<char>)
    requires
        paths::file_stem_spec(path) == Some(stem),
    ensures
        code::tree_outcome(t, source, path).auto_type == if is_test(path, stem) {
            Some(DocType::TestFile)
        } else {
            match paths::extension_spec(path) {
                Some(ext) => if is_config(stem, ext) {
                    Some(DocType::ConfigFile)
                } else {
                    Some(DocType::SourceFile)
                },
                None => None,
            }
        },
{
    lemma_words(stem, "test_"@);
    lemma_words(stem, "_test"@);
    lemma_words(stem, "_tests"@);
    lemma_words(stem, "_spec"@);
    lemma_words(stem, ".test"@);
    lemma_words(stem, ".spec"@);
    lemma_words(path, "/tests/"@);
    lemma_words(path, "/test/"@);
    lemma_words(stem, "."@);
}

/// The grammar by which a file is read follows from its extension, for the grammars that a parser
/// has from the start.
pub proof fn law_grammars(p: code::CodeParser, path: Seq<char>, ext: Seq<char>)
    requires
        p.grammars() == code::default_grammars(),
        paths::extension_spec(path) == Some(ext),
    ensures
        p.grammar_for(path) == if ext == "rs"@ {
            Some(Grammar::Rust)
        } else if ext == "tsx"@ {
            Some(Grammar::Tsx)
        } else if ext == "ts"@ || ext == "js"@ || ext == "jsx"@ {
            Some(Grammar::TypeScript)
        } else if ext == "py"@ {
            Some(Grammar::Python)
        } else {
            None
        },
{
    reveal_strlit("rs");
    reveal_strlit("ts");
    reveal_strlit("tsx");
    reveal_strlit("js");
    reveal_strlit("jsx");
    reveal_strlit("py");
    assert("rs"@[0] == 'r' && "ts"@[0] == 't' && "tsx"@[0] == 't' && "js"@[0] == 'j' && "jsx"@[0]
        == 'j' && "py"@[0] == 'p');
    assert("ts"@.len() == 2 && "tsx"@.len() == 3 && "js"@.len() == 2 && "jsx"@.len() == 3);
}

} // verus!
