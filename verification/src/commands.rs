//! What the commands and the server tools decide: filters, data directories, graph questions and
//! their answers.

use vstd::prelude::*;

use crate::code;
use crate::code::CodeParser;
use crate::config;
use crate::config::{BiemConfig, SourceEntry};
use crate::confluence;
use crate::confluence::ConfluenceParser;
use crate::enrich::{ComplexityTagger, SizeTagger, Tagger, TopicTagger};
use crate::expression;
use crate::expression::FilterView;
use crate::ingest::IngestAction;
use crate::markdown;
use crate::markdown::MarkdownParser;
use crate::parser::Parser;
use crate::paths;
use crate::query::Filter;
use crate::syntax::Grammar;
use crate::text;
use crate::types;
use crate::types::{ParseView, SourceType, SourceTypeView};

verus! {

// ── Search filters ──────────────────────────────────────────────────────────

/// Keys as filters.
pub open spec fn key_filters(keys: Seq<Seq<char>>) -> Seq<FilterView> {
    Seq::new(keys.len(), |i: int| FilterView::Key(keys[i]))
}

/// The filter of a search for keys: one key stands for itself, more are joined, and none stand for
/// all notes.
pub open spec fn search_filter_spec(keys: Seq<Seq<char>>, any: bool) -> FilterView {
    if keys.len() == 0 {
        FilterView::Key("source:obsidian"@)
    } else if keys.len() == 1 {
        FilterView::Key(keys[0])
    } else if any {
        FilterView::Or(key_filters(keys))
    } else {
        FilterView::And(key_filters(keys))
    }
}

fn keys_to_filters(keys: &Vec<String>) -> (r: Vec<Filter>)
    ensures
        expression::models(r@) == key_filters(keys.deep_view()),
{
    let mut out: Vec<Filter> = Vec::new();
    let mut i: usize = 0;
    while i < keys.len()
        invariant
            i <= keys@.len(),
            out@.len() == i,
            forall|j: int| 0 <= j < i ==> (#[trigger] out@[j]).model() == FilterView::Key(keys@[j]@),
        decreases keys@.len() - i,
    {
        out.push(Filter::Key(keys[i].clone()));
        i += 1;
    }
    assert(expression::models(out@) =~= key_filters(keys.deep_view()));
    out
}

/// The filter of a search for keys, of which all or any are to match.
pub fn search_filter(keys: &Vec<String>, any: bool) -> (r: Filter)
    ensures
        r.model() == search_filter_spec(keys.deep_view(), any),
{
    if keys.len() == 0 {
        Filter::Key("source:obsidian".to_owned())
    } else if keys.len() == 1 {
        assert(keys.deep_view()[0] == keys@[0]@);
        Filter::Key(keys[0].clone())
    } else {
        let list = keys_to_filters(keys);
        proof {
            expression::lemma_model_list(list);
        }
        if any {
            Filter::Or(list)
        } else {
            Filter::And(list)
        }
    }
}

/// The filter of a request: an expression where there is one, else the keys of the request, else all
/// documents of the known sources.
pub open spec fn request_filter_spec(
    expr: Option<Seq<char>>,
    keys: Seq<Seq<char>>,
    op: Seq<char>,
    sources: Seq<Seq<char>>,
) -> Option<FilterView> {
    match expr {
        Some(e) => expression::parse_filter_spec(e),
        None => if keys.len() > 0 {
            Some(search_filter_spec(keys, op == "or"@))
        } else {
            Some(FilterView::Or(key_filters(sources)))
        },
    }
}

/// The filter of a request. `sources` are the keys of the known sources.
pub fn request_filter(
    expr: Option<&str>,
    keys: &Vec<String>,
    op: &str,
    sources: &Vec<String>,
) -> (r: Result<Filter, String>)
    ensures
        match r {
            Ok(f) => request_filter_spec(
                crate::bitmap::opt_str(expr),
                keys.deep_view(),
                op@,
                sources.deep_view(),
            ) == Some(f.model()),
            Err(m) => request_filter_spec(
                crate::bitmap::opt_str(expr),
                keys.deep_view(),
                op@,
                sources.deep_view(),
            ) is None && m@ == "filter parse error: not a filter expression"@,
        },
{
    match expr {
        Some(e) => match expression::parse_filter(e) {
            Some(f) => Ok(f),
            None => Err("filter parse error: not a filter expression".to_owned()),
        },
        None => if keys.len() > 0 {
            Ok(search_filter(keys, text::str_eq(op, "or")))
        } else {
            let list = keys_to_filters(sources);
            proof {
                expression::lemma_model_list(list);
            }
            Ok(Filter::Or(list))
        },
    }
}

/// The name of an action.
pub open spec fn action_name_spec(a: IngestAction) -> Seq<char> {
    match a {
        IngestAction::Indexed => "indexed"@,
        IngestAction::Updated => "updated"@,
        IngestAction::Skipped => "skipped"@,
        IngestAction::Tombstoned => "tombstoned"@,
        IngestAction::Moved => "moved"@,
    }
}

/// The name of an action.
pub fn action_name(a: IngestAction) -> (r: &'static str)
    ensures
        r@ == action_name_spec(a),
{
    match a {
        IngestAction::Indexed => "indexed",
        IngestAction::Updated => "updated",
        IngestAction::Skipped => "skipped",
        IngestAction::Tombstoned => "tombstoned",
        IngestAction::Moved => "moved",
    }
}

// ── Sources ─────────────────────────────────────────────────────────────────

/// The source type with a name.
pub fn source_type_named(s: &str) -> (r: SourceType)
    ensures
        match r {
            SourceType::Obsidian => s@ == "obsidian"@,
            SourceType::Code => s@ == "code"@ && s@ != "obsidian"@,
            SourceType::Custom(t) => t@ == s@ && s@ != "obsidian"@ && s@ != "code"@,
        },
{
    if text::str_eq(s, "obsidian") {
        SourceType::Obsidian
    } else if text::str_eq(s, "code") {
        SourceType::Code
    } else {
        SourceType::Custom(s.to_owned())
    }
}

/// Whether a single parser reads Markdown.
pub open spec fn reads_markdown(v: Seq<Box<dyn Parser>>) -> bool {
    &&& v.len() == 1
    &&& forall|path: Seq<char>| #[trigger] v[0].handles(path) == markdown::is_markdown_path(path)
    &&& forall|path: Seq<char>, content: Seq<u8>| #[trigger]
        v[0].outcome(path, content) == markdown::markdown_outcome(content)
}

/// Whether a single parser reads Confluence pages.
pub open spec fn reads_confluence(v: Seq<Box<dyn Parser>>) -> bool {
    &&& v.len() == 1
    &&& forall|path: Seq<char>| #[trigger] v[0].handles(path) == confluence::is_confluence_path(path)
    &&& forall|path: Seq<char>, content: Seq<u8>| #[trigger]
        v[0].outcome(path, content) == confluence::confluence_outcome(content)
}

/// The grammar that a path has by default.
pub open spec fn default_grammar(path: Seq<char>) -> Option<Grammar> {
    match paths::extension_spec(path) {
        Some(e) => if code::default_grammars().dom().contains(e) {
            Some(code::default_grammars()[e])
        } else {
            None
        },
        None => None,
    }
}

/// Whether a single parser reads source code.
pub open spec fn reads_code(v: Seq<Box<dyn Parser>>) -> bool {
    &&& v.len() == 1
    &&& forall|path: Seq<char>| #[trigger] v[0].handles(path) == (default_grammar(path) is Some)
    &&& forall|path: Seq<char>, content: Seq<u8>| #[trigger]
        v[0].outcome(path, content) == code::code_outcome(default_grammar(path), path, content)
}

/// Whether parsers are those of a kind of remote source. Jira and Slack have none here, and unknown
/// kinds are read as Markdown.
pub open spec fn are_remote_parsers(v: Seq<Box<dyn Parser>>, kind: Seq<char>) -> bool {
    if kind == "confluence"@ {
        reads_confluence(v)
    } else if kind == "jira"@ || kind == "slack"@ {
        v.len() == 0
    } else {
        reads_markdown(v)
    }
}

/// The parsers of a kind of remote source.
pub fn parsers_for_remote_kind(kind: &str) -> (r: Vec<Box<dyn Parser>>)
    ensures
        are_remote_parsers(r@, kind@),
{
    if text::str_eq(kind, "confluence") {
        let p: Box<dyn Parser> = Box::new(ConfluenceParser);
        let v = vec![p];
        v
    } else if text::str_eq(kind, "jira") || text::str_eq(kind, "slack") {
        Vec::new()
    } else {
        let p: Box<dyn Parser> = Box::new(MarkdownParser);
        let v = vec![p];
        v
    }
}

/// The parsers of a source type.
pub fn parsers_for_source(source_type: &SourceType) -> (r: Vec<Box<dyn Parser>>)
    ensures
        match source_type {
            SourceType::Obsidian => reads_markdown(r@),
            SourceType::Code => reads_code(r@),
            SourceType::Custom(kind) => are_remote_parsers(r@, kind@),
        },
{
    match source_type {
        SourceType::Obsidian => {
            let p: Box<dyn Parser> = Box::new(MarkdownParser);
            let v = vec![p];
            v
        },
        SourceType::Code => {
            let c = CodeParser::new();
            assert(forall|path: Seq<char>| #[trigger] c.grammar_for(path) == default_grammar(path));
            let p: Box<dyn Parser> = Box::new(c);
            let v = vec![p];
            v
        },
        SourceType::Custom(kind) => parsers_for_remote_kind(kind.as_str()),
    }
}

/// Whether taggers are the built-in ones: size, topic and complexity, in this order.
pub open spec fn are_builtin(v: Seq<Box<dyn Tagger>>) -> bool {
    &&& v.len() == 3
    &&& v[0].name_spec() == "size"@
    &&& v[1].name_spec() == "topic"@
    &&& v[2].name_spec() == "complexity"@
    &&& forall|s: SourceTypeView| #[trigger]
        v[0].applies_spec(s) == SizeTagger.applies_spec(s)
    &&& forall|s: SourceTypeView| #[trigger]
        v[1].applies_spec(s) == TopicTagger.applies_spec(s)
    &&& forall|s: SourceTypeView| #[trigger]
        v[2].applies_spec(s) == ComplexityTagger.applies_spec(s)
    &&& forall|p: Seq<char>, c: Seq<u8>, q: ParseView| #[trigger]
        v[0].tagging(p, c, q) == SizeTagger.tagging(p, c, q)
    &&& forall|p: Seq<char>, c: Seq<u8>, q: ParseView| #[trigger]
        v[1].tagging(p, c, q) == TopicTagger.tagging(p, c, q)
    &&& forall|p: Seq<char>, c: Seq<u8>, q: ParseView| #[trigger]
        v[2].tagging(p, c, q) == ComplexityTagger.tagging(p, c, q)
}

/// The built-in taggers.
pub fn builtin_taggers() -> (r: Vec<Box<dyn Tagger>>)
    ensures
        are_builtin(r@),
{
    let a: Box<dyn Tagger> = Box::new(SizeTagger);
    let b: Box<dyn Tagger> = Box::new(TopicTagger);
    let c: Box<dyn Tagger> = Box::new(ComplexityTagger);
    let mut v = vec![a];
    let mut topic = vec![b];
    let mut complexity = vec![c];
    v.append(&mut topic);
    v.append(&mut complexity);
    v
}

/// The first entry, in the order of names, whose path holds a directory.
pub open spec fn holds_dir(
    sources: Map<Seq<char>, SourceEntry>,
    dir: Seq<char>,
    name: Seq<char>,
) -> bool {
    &&& sources.dom().contains(name)
    &&& paths::is_within(dir, sources[name].path@)
    &&& forall|n: Seq<char>| #[trigger]
        sources.dom().contains(n) && paths::is_within(dir, sources[n].path@) ==> n == name
            || crate::keymap::lex_lt(name, n)
}

/// Where data lies if nothing else is said: below the home directory.
pub open spec fn fallback_dir(home: Option<Seq<char>>) -> Option<Seq<char>> {
    match home {
        Some(h) => Some(paths::join_spec(h, ".locus"@)),
        None => None,
    }
}

fn fallback(home: Option<&str>) -> (r: Option<String>)
    ensures
        types::text_of(r) == fallback_dir(crate::bitmap::opt_str(home)),
{
    match home {
        Some(h) => Some(paths::join(h, ".locus")),
        None => None,
    }
}

/// The data directory of a command: the one that was given, else that of the only source, else that
/// of the source which holds the current directory, else the one below the home directory.
pub fn resolve_data_dir(
    given: Option<&str>,
    config: &BiemConfig,
    cwd: Option<&str>,
    home: Option<&str>,
) -> (r: Option<String>)
    requires
        config.wf(),
    ensures
        ({
            let sources = config.sources@;
            match given {
                Some(d) => r is Some && r->Some_0@ == d@,
                None => if config.sources.entries_spec().len() == 1 {
                    r is Some && exists|n: Seq<char>| #[trigger]
                        sources.dom().contains(n) && r->Some_0@ == sources[n].data_dir@
                } else if cwd is Some && exists|n: Seq<char>| #[trigger]
                    sources.dom().contains(n) && paths::is_within(
                        cwd->Some_0@,
                        sources[n].path@,
                    ) {
                    r is Some && exists|n: Seq<char>| #[trigger]
                        holds_dir(sources, cwd->Some_0@, n) && r->Some_0@ == sources[n].data_dir@
                } else {
                    types::text_of(r) == fallback_dir(crate::bitmap::opt_str(home))
                },
            }
        }),
{
    if let Some(d) = given {
        return Some(d.to_owned());
    }
    let ghost keys = config.sources.keys_spec();
    proof {
        config.sources.lemma_keys();
    }
    let n = config.sources.len();
    if n == 1 {
        proof {
            assert(config.sources.entries_spec()[0].1 == config.sources@[keys[0]]);
            assert(config.sources@.dom().contains(keys[0]));
        }
        return Some(config.sources.value_at(0).data_dir.clone());
    }
    if let Some(c) = cwd {
        let mut i: usize = 0;
        while i < n
            invariant
                config.wf(),
                given is None,
                cwd == Some(c),
                n != 1,
                keys == config.sources.keys_spec(),
                n == config.sources.entries_spec().len(),
                keys.len() == n,
                i <= n,
                forall|j: int|
                    0 <= j < i ==> !paths::is_within(
                        c@,
                        config.sources@[#[trigger] keys[j]].path@,
                    ),
            decreases n - i,
        {
            proof {
                config.sources.lemma_keys();
                assert(config.sources.entries_spec()[i as int].1
                    == config.sources@[keys[i as int]]);
            }
            if paths::starts_with(c, config.sources.value_at(i).path.as_str()) {
                proof {
                    let k = keys[i as int];
                    assert(config.sources@.dom().contains(k));
                    assert forall|m: Seq<char>| #[trigger]
                        config.sources@.dom().contains(m) && paths::is_within(
                            c@,
                            config.sources@[m].path@,
                        ) implies m == k || crate::keymap::lex_lt(k, m) by {
                        assert(keys.contains(m));
                        let j = keys.index_of(m);
                        assert(keys[j] == m);
                        if j > i {
                            assert(crate::keymap::lex_lt(keys[i as int], keys[j]));
                        }
                    }
                    assert(holds_dir(config.sources@, c@, k));
                }
                let dir = config.sources.value_at(i).data_dir.clone();
                assert(dir@ == config.sources@[keys[i as int]].data_dir@);
                assert(config.sources@.dom().contains(keys[i as int]) && paths::is_within(
                    cwd->Some_0@,
                    config.sources@[keys[i as int]].path@,
                ));
                return Some(dir);
            }
            i += 1;
        }
        proof {
            config.sources.lemma_keys();
            assert forall|m: Seq<char>| #[trigger]
                config.sources@.dom().contains(m) implies !paths::is_within(
                c@,
                config.sources@[m].path@,
            ) by {
                assert(keys.contains(m));
                let j = keys.index_of(m);
                assert(keys[j] == m);
            }
        }
    }
    fallback(home)
}

/// The data directory of a command on a source, given by its canonical path where it exists: the one
/// that was given, else that of the source, else the one below the home directory.
pub fn resolve_data_dir_for_vault(
    given: Option<&str>,
    vault: Option<&str>,
    config: &BiemConfig,
    home: Option<&str>,
) -> (r: Option<String>)
    requires
        config.wf(),
    ensures
        match given {
            Some(d) => r is Some && r->Some_0@ == d@,
            None => if vault is Some && !config::is_unregistered(
                config.sources@,
                vault->Some_0@,
            ) {
                r is Some && exists|n: Seq<char>| #[trigger]
                    config::is_entry_of(config.sources@, vault->Some_0@, n) && r->Some_0@
                        == config.sources@[n].data_dir@
            } else {
                types::text_of(r) == fallback_dir(crate::bitmap::opt_str(home))
            },
        },
{
    if let Some(d) = given {
        return Some(d.to_owned());
    }
    if let Some(v) = vault {
        if let Ok(e) = config::resolve_source(v, config) {
            return Some(e.data_dir);
        }
    }
    fallback(home)
}

} // verus!
