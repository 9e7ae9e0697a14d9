//! What the taggers infer, and what their cache keeps.

use vstd::prelude::*;

use crate::commands;
use crate::enrich;
use crate::enrich::{
    CacheView, ComplexityTagger, SizeTagger, TagPipeline, Tagger, TaggerView, TopicTagger,
};
use crate::hash;
use crate::text;
use crate::types::{ChunkView, ParseView, SourceTypeView};

verus! {

// ── Complexity ──────────────────────────────────────────────────────────────

/// How complex a tag says that a file is.
pub open spec fn complexity_rank(tag: Seq<char>) -> int {
    if tag == "complexity:high"@ {
        2
    } else if tag == "complexity:medium"@ {
        1
    } else {
        0
    }
}

/// One deep chunk, wherever it stands, makes a file complex, and so do more than ten chunks. A file
/// without deep chunks is of medium complexity from four chunks on. There is one tag.
pub proof fn law_complexity(path: Seq<char>, content: Seq<u8>, parsed: ParseView)
    ensures
        ComplexityTagger.tagging(path, content, parsed) matches Some(r) && r.tagger_name
            == "complexity"@ && {
            &&& (exists|i: int|
                0 <= i < parsed.chunks.len() && (#[trigger] parsed.chunks[i]).depth >= 4) ==> r.tags
                == seq!["complexity:high"@]
            &&& parsed.chunks.len() >= 11 ==> r.tags == seq!["complexity:high"@]
            &&& (forall|i: int|
                0 <= i < parsed.chunks.len() ==> (#[trigger] parsed.chunks[i]).depth <= 3) ==> {
                &&& 4 <= parsed.chunks.len() <= 10 ==> r.tags == seq!["complexity:medium"@]
                &&& parsed.chunks.len() <= 3 ==> r.tags == seq!["complexity:low"@]
            }
        },
{
}

/// A chunk more, wherever it stands, never makes a file less complex.
pub proof fn law_complexity_grows(
    path: Seq<char>,
    content: Seq<u8>,
    parsed: ParseView,
    at: int,
    c: ChunkView,
)
    requires
        0 <= at <= parsed.chunks.len(),
    ensures
        complexity_rank(
            ComplexityTagger.tagging(path, content, parsed)->Some_0.tags[0],
        ) <= complexity_rank(
            ComplexityTagger.tagging(
                path,
                content,
                ParseView { chunks: parsed.chunks.insert(at, c), ..parsed },
            )->Some_0.tags[0],
        ),
{
    reveal_strlit("complexity:high");
    reveal_strlit("complexity:medium");
    reveal_strlit("complexity:low");
    assert("complexity:high"@.len() == 15 && "complexity:medium"@.len() == 17
        && "complexity:low"@.len() == 14);
    let more = parsed.chunks.insert(at, c);
    if exists|i: int| 0 <= i < parsed.chunks.len() && (#[trigger] parsed.chunks[i]).depth >= 4 {
        let i = choose|i: int|
            0 <= i < parsed.chunks.len() && (#[trigger] parsed.chunks[i]).depth >= 4;
        if i < at {
            assert(more[i] == parsed.chunks[i]);
        } else {
            assert(more[i + 1] == parsed.chunks[i]);
        }
    }
}

// ── Size ────────────────────────────────────────────────────────────────────

/// A file is small below a kilobyte, large beyond ten, and medium between.
pub proof fn law_size(path: Seq<char>, content: Seq<u8>, parsed: ParseView)
    ensures
        SizeTagger.tagging(path, content, parsed) matches Some(r) && r.tagger_name == "size"@ && {
            &&& content.len() < 1024 ==> r.tags == seq!["size:small"@]
            &&& 1024 <= content.len() <= 10 * 1024 ==> r.tags == seq!["size:medium"@]
            &&& content.len() > 10 * 1024 ==> r.tags == seq!["size:large"@]
        },
{
}

// ── Topics ──────────────────────────────────────────────────────────────────

/// The words that hint at a topic.
pub open spec fn vocabulary(topic: int) -> (Seq<char>, Seq<Seq<char>>) {
    if topic == 0 {
        (
            "topic:auth"@,
            seq!["authentication"@, "auth"@, "login"@, "oauth"@, "jwt"@, "session"@],
        )
    } else if topic == 1 {
        (
            "topic:database"@,
            seq!["database"@, "sql"@, "query"@, "schema"@, "migration"@, "orm"@],
        )
    } else if topic == 2 {
        ("topic:api"@, seq!["api"@, "endpoint"@, "rest"@, "graphql"@, "grpc"@])
    } else if topic == 3 {
        (
            "topic:testing"@,
            seq!["test"@, "testing"@, "assert"@, "mock"@, "fixture"@, "spec"@],
        )
    } else if topic == 4 {
        (
            "topic:deployment"@,
            seq!["deploy"@, "deployment"@, "ci/cd"@, "pipeline"@, "docker"@, "kubernetes"@],
        )
    } else if topic == 5 {
        (
            "topic:config"@,
            seq!["config"@, "configuration"@, "settings"@, "environment"@, "env"@],
        )
    } else if topic == 6 {
        (
            "topic:error-handling"@,
            seq!["error"@, "exception"@, "handling"@, "retry"@, "fallback"@],
        )
    } else if topic == 7 {
        ("topic:caching"@, seq!["cache"@, "caching"@, "redis"@, "memcached"@, "ttl"@])
    } else if topic == 8 {
        (
            "topic:observability"@,
            seq!["logging"@, "log"@, "tracing"@, "observability"@, "metrics"@],
        )
    } else if topic == 9 {
        (
            "topic:security"@,
            seq!["security"@, "encryption"@, "tls"@, "certificate"@, "vulnerability"@],
        )
    } else if topic == 10 {
        (
            "topic:concurrency"@,
            seq!["async"@, "concurrent"@, "parallel"@, "thread"@, "tokio"@, "future"@],
        )
    } else if topic == 11 {
        (
            "topic:networking"@,
            seq!["network"@, "http"@, "tcp"@, "socket"@, "request"@, "response"@],
        )
    } else if topic == 12 {
        (
            "topic:parsing"@,
            seq!["parser"@, "parsing"@, "ast"@, "syntax"@, "lexer"@, "token"@],
        )
    } else {
        ("topic:indexing"@, seq!["index"@, "bitmap"@, "search"@, "filter"@, "query"@])
    }
}

/// Whether a word stands somewhere in a text.
pub open spec fn occurs(s: Seq<char>, word: Seq<char>) -> bool {
    exists|i: int|
        0 <= i && i + word.len() <= s.len() && #[trigger] s.subrange(i, i + word.len()) == word
}

proof fn lemma_occurs(s: Seq<char>, word: Seq<char>)
    ensures
        occurs(s, word) <==> text::contains_spec(s, word),
{
    text::lemma_find(s, word, 0);
    if occurs(s, word) {
        let i = choose|i: int|
            0 <= i && i + word.len() <= s.len() && #[trigger] s.subrange(i, i + word.len()) == word;
        assert(text::occurs_at(s, word, i));
    }
}

proof fn lemma_two_hits(s: Seq<char>, words: Seq<Seq<char>>, p: int, q: int, n: int)
    requires
        0 <= p < q < n <= words.len(),
        text::contains_spec(s, words[p]),
        text::contains_spec(s, words[q]),
    ensures
        enrich::hits_spec(s, words, n) >= 2,
    decreases n,
{
    if n - 1 > q {
        lemma_two_hits(s, words, p, q, n - 1);
    } else {
        lemma_one_hit(s, words, p, q);
    }
}

proof fn lemma_one_hit(s: Seq<char>, words: Seq<Seq<char>>, p: int, n: int)
    requires
        0 <= p < n <= words.len(),
        text::contains_spec(s, words[p]),
    ensures
        enrich::hits_spec(s, words, n) >= 1,
    decreases n,
{
    if n - 1 > p {
        lemma_one_hit(s, words, p, n - 1);
    }
}

proof fn lemma_some_hit(s: Seq<char>, words: Seq<Seq<char>>, n: int) -> (p: int)
    requires
        0 <= n <= words.len(),
        enrich::hits_spec(s, words, n) >= 1,
    ensures
        0 <= p < n,
        text::contains_spec(s, words[p]),
    decreases n,
{
    if text::contains_spec(s, words[n - 1]) {
        n - 1
    } else {
        lemma_some_hit(s, words, n - 1)
    }
}

proof fn lemma_both_hits(s: Seq<char>, words: Seq<Seq<char>>, n: int) -> (r: (int, int))
    requires
        0 <= n <= words.len(),
        enrich::hits_spec(s, words, n) >= 2,
    ensures
        0 <= r.0 < r.1 < n,
        text::contains_spec(s, words[r.0]),
        text::contains_spec(s, words[r.1]),
    decreases n,
{
    if text::contains_spec(s, words[n - 1]) {
        (lemma_some_hit(s, words, n - 1), n - 1)
    } else {
        lemma_both_hits(s, words, n - 1)
    }
}

proof fn lemma_topic_found(
    s: Seq<char>,
    groups: Seq<(Seq<Seq<char>>, Seq<char>)>,
    g: int,
    n: int,
)
    requires
        0 <= g < n <= groups.len(),
        enrich::hits_spec(s, groups[g].0, groups[g].0.len() as int) >= 2,
    ensures
        enrich::topics_spec(s, groups, n).contains(groups[g].1),
    decreases n,
{
    let front = enrich::topics_spec(s, groups, n - 1);
    let all = enrich::topics_spec(s, groups, n);
    if n - 1 > g {
        lemma_topic_found(s, groups, g, n - 1);
        let k = front.index_of(groups[g].1);
        assert(all[k] == groups[g].1);
    } else {
        assert(all[front.len() as int] == groups[g].1);
    }
}

proof fn lemma_topic_reason(
    s: Seq<char>,
    groups: Seq<(Seq<Seq<char>>, Seq<char>)>,
    n: int,
    k: int,
) -> (g: int)
    requires
        0 <= n <= groups.len(),
        0 <= k < enrich::topics_spec(s, groups, n).len(),
    ensures
        0 <= g < n,
        groups[g].1 == enrich::topics_spec(s, groups, n)[k],
        enrich::hits_spec(s, groups[g].0, groups[g].0.len() as int) >= 2,
    decreases n,
{
    let front = enrich::topics_spec(s, groups, n - 1);
    if k < front.len() {
        lemma_topic_reason(s, groups, n - 1, k)
    } else {
        n - 1
    }
}

proof fn lemma_vocabulary(topic: int)
    requires
        0 <= topic < 14,
    ensures
        enrich::topic_keywords().len() == 14,
        enrich::topic_keywords()[topic] == (vocabulary(topic).1, vocabulary(topic).0),
{
    assert(enrich::topic_keywords()[topic].0 =~= vocabulary(topic).1);
}

/// A file of which two different words of a topic stand in the text, whatever their case, has the
/// tag of that topic.
pub proof fn law_topics_found(
    path: Seq<char>,
    content: Seq<u8>,
    parsed: ParseView,
    topic: int,
    p: int,
    q: int,
)
    requires
        0 <= topic < 14,
        0 <= p < q < vocabulary(topic).1.len(),
        occurs(text::lowercase(enrich::utf8_lossy(content)), vocabulary(topic).1[p]),
        occurs(text::lowercase(enrich::utf8_lossy(content)), vocabulary(topic).1[q]),
    ensures
        TopicTagger.tagging(path, content, parsed) matches Some(r) && r.tags.contains(
            vocabulary(topic).0,
        ),
{
    let s = text::lowercase(enrich::utf8_lossy(content));
    let groups = enrich::topic_keywords();
    lemma_vocabulary(topic);
    let words = groups[topic].0;
    lemma_occurs(s, words[p]);
    lemma_occurs(s, words[q]);
    lemma_two_hits(s, words, p, q, words.len() as int);
    lemma_topic_found(s, groups, topic, groups.len() as int);
}

/// A file has no tag of a topic but of one whose words stand in the text twice over.
pub proof fn law_topics_have_reasons(
    path: Seq<char>,
    content: Seq<u8>,
    parsed: ParseView,
    tag: Seq<char>,
)
    requires
        TopicTagger.tagging(path, content, parsed) matches Some(r) && r.tags.contains(tag),
    ensures
        exists|topic: int, p: int, q: int|
            #![trigger vocabulary(topic).1[p], vocabulary(topic).1[q]]
            0 <= topic < 14 && vocabulary(topic).0 == tag && 0 <= p < q < vocabulary(topic).1.len()
                && occurs(text::lowercase(enrich::utf8_lossy(content)), vocabulary(topic).1[p])
                && occurs(text::lowercase(enrich::utf8_lossy(content)), vocabulary(topic).1[q]),
{
    let s = text::lowercase(enrich::utf8_lossy(content));
    let groups = enrich::topic_keywords();
    let tags = enrich::topics_spec(s, groups, groups.len() as int);
    let k = tags.index_of(tag);
    let g = lemma_topic_reason(s, groups, groups.len() as int, k);
    lemma_vocabulary(g);
    let words = groups[g].0;
    let (p, q) = lemma_both_hits(s, words, words.len() as int);
    lemma_occurs(s, words[p]);
    lemma_occurs(s, words[q]);
    assert(vocabulary(g).1[p] == words[p] && vocabulary(g).1[q] == words[q]);
}

// ── Results ─────────────────────────────────────────────────────────────────

proof fn lemma_result_of(
    taggers: Seq<Box<dyn Tagger>>,
    path: Seq<char>,
    content: Seq<u8>,
    parsed: ParseView,
    source: SourceTypeView,
    n: int,
    i: int,
)
    requires
        0 <= i < n <= taggers.len(),
        taggers[i].applies_spec(source),
        taggers[i].tagging(path, content, parsed) is Some,
    ensures
        enrich::results_of(taggers, path, content, parsed, source, n).contains(
            taggers[i].tagging(path, content, parsed)->Some_0,
        ),
    decreases n,
{
    let all = enrich::results_of(taggers, path, content, parsed, source, n);
    let front = enrich::results_of(taggers, path, content, parsed, source, n - 1);
    let x = taggers[i].tagging(path, content, parsed)->Some_0;
    if i < n - 1 {
        lemma_result_of(taggers, path, content, parsed, source, n - 1, i);
        let k = front.index_of(x);
        assert(all[k] == x);
    } else {
        assert(all[front.len() as int] == x);
    }
}

proof fn lemma_merged(s: Seq<TaggerView>, i: int, j: int)
    requires
        0 <= i < s.len(),
        0 <= j < s[i].tags.len(),
    ensures
        enrich::merged_tags(s).contains(s[i].tags[j]),
    decreases s.len(),
{
    let front = enrich::merged_tags(s.drop_last());
    let all = enrich::merged_tags(s);
    let x = s[i].tags[j];
    if i < s.len() - 1 {
        assert(s.drop_last()[i] == s[i]);
        lemma_merged(s.drop_last(), i, j);
        let k = front.index_of(x);
        assert(all[k] == x);
    } else {
        assert(all[front.len() + j] == x);
    }
}

/// Every tag that a tagger which is meant for the source infers is among what enriching a file
/// gives, where the cache does not answer.
pub proof fn law_inferred_tags_arrive(
    p: TagPipeline,
    path: Seq<char>,
    content: Seq<u8>,
    parsed: ParseView,
    source: SourceTypeView,
    i: int,
    j: int,
)
    requires
        p.forced() || !p.cached().dom().contains(hash::hex_spec(hash::blake3_digest(content))),
        0 <= i < p.taggers().len(),
        p.taggers()[i].applies_spec(source),
        p.taggers()[i].tagging(path, content, parsed) matches Some(r) && 0 <= j < r.tags.len(),
    ensures
        p.enriched(path, content, parsed, source).contains(
            p.taggers()[i].tagging(path, content, parsed)->Some_0.tags[j],
        ),
{
    let ts = p.taggers();
    let n = ts.len() as int;
    let all = enrich::results_of(ts, path, content, parsed, source, n);
    let x = ts[i].tagging(path, content, parsed)->Some_0;
    lemma_result_of(ts, path, content, parsed, source, n, i);
    let k = all.index_of(x);
    lemma_merged(all, k, j);
}

/// The built-in taggers are three, and they give every file one tag of its size and one of its
/// complexity.
pub proof fn law_builtin_tags(
    taggers: Seq<Box<dyn Tagger>>,
    path: Seq<char>,
    content: Seq<u8>,
    parsed: ParseView,
    source: SourceTypeView,
)
    requires
        commands::are_builtin(taggers),
    ensures
        taggers.len() == 3,
        forall|i: int| 0 <= i < 3 ==> (#[trigger] taggers[i]).applies_spec(source),
        taggers[0].tagging(path, content, parsed) == SizeTagger.tagging(path, content, parsed),
        taggers[1].tagging(path, content, parsed) == TopicTagger.tagging(path, content, parsed),
        taggers[2].tagging(path, content, parsed) == ComplexityTagger.tagging(
            path,
            content,
            parsed,
        ),
        taggers[0].name_spec() == "size"@,
        taggers[1].name_spec() == "topic"@,
        taggers[2].name_spec() == "complexity"@,
{
}

// ── Forgetting ──────────────────────────────────────────────────────────────

proof fn lemma_without(s: Seq<TaggerView>, name: Seq<char>, x: TaggerView)
    ensures
        enrich::results_without(s, name).contains(x) <==> s.contains(x) && x.tagger_name != name,
    decreases s.len(),
{
    if s.len() > 0 {
        let less = s.drop_last();
        lemma_without(less, name, x);
        let front = enrich::results_without(less, name);
        let all = enrich::results_without(s, name);
        if s.contains(x) {
            let i = s.index_of(x);
            if i < less.len() {
                assert(less[i] == x);
            }
        }
        if less.contains(x) {
            let i = less.index_of(x);
            assert(s[i] == x);
        }
        if s.last() == x {
            assert(s[s.len() - 1] == x);
        }
        if s.last().tagger_name != name {
            crate::bitmap::lemma_push_contains(front, s.last(), x);
        }
    }
}

/// When a tagger is forgotten, its results leave all entries of the cache and the results of the
/// others stay. What else an entry says stays, too.
pub proof fn law_forgotten(
    m: Map<Seq<char>, CacheView>,
    name: Seq<char>,
    h: Seq<char>,
    x: TaggerView,
)
    requires
        m.dom().contains(h),
    ensures
        x.tagger_name != name && m[h].results.contains(x) ==> enrich::without_tagger(
            m,
            name,
        ).dom().contains(h) && enrich::without_tagger(m, name)[h].results.contains(x),
        enrich::without_tagger(m, name).dom().contains(h) ==> {
            let e = enrich::without_tagger(m, name)[h];
            &&& e.results.contains(x) ==> m[h].results.contains(x) && x.tagger_name != name
            &&& e.content_hash == m[h].content_hash
            &&& e.tagger_config_hash == m[h].tagger_config_hash
            &&& e.timestamp == m[h].timestamp
        },
{
    lemma_without(m[h].results, name, x);
    let rest = enrich::results_without(m[h].results, name);
    if rest.contains(x) {
        let k = rest.index_of(x);
    }
}

proof fn lemma_results_only(
    taggers: Seq<Box<dyn Tagger>>,
    path: Seq<char>,
    content: Seq<u8>,
    parsed: ParseView,
    source: SourceTypeView,
    n: int,
    x: TaggerView,
)
    requires
        0 <= n <= taggers.len(),
        enrich::results_of(taggers, path, content, parsed, source, n).contains(x),
    ensures
        exists|i: int|
            0 <= i < n && (#[trigger] taggers[i]).applies_spec(source) && taggers[i].tagging(
                path,
                content,
                parsed,
            ) == Some(x),
    decreases n,
{
    if n > 0 {
        let all = enrich::results_of(taggers, path, content, parsed, source, n);
        let front = enrich::results_of(taggers, path, content, parsed, source, n - 1);
        let k = all.index_of(x);
        if k < front.len() {
            assert(front[k] == x);
            lemma_results_only(taggers, path, content, parsed, source, n - 1, x);
        } else {
            assert(taggers[n - 1].tagging(path, content, parsed) == Some(x));
        }
    }
}

proof fn lemma_merged_only(s: Seq<TaggerView>, x: Seq<char>)
    requires
        enrich::merged_tags(s).contains(x),
    ensures
        exists|i: int| 0 <= i < s.len() && (#[trigger] s[i]).tags.contains(x),
    decreases s.len(),
{
    if s.len() > 0 {
        let front = enrich::merged_tags(s.drop_last());
        let all = enrich::merged_tags(s);
        let k = all.index_of(x);
        if k < front.len() {
            assert(front[k] == x);
            lemma_merged_only(s.drop_last(), x);
            let i = choose|i: int|
                0 <= i < s.drop_last().len() && (#[trigger] s.drop_last()[i]).tags.contains(x);
            assert(s[i].tags.contains(x));
        } else {
            assert(s.last().tags[k - front.len()] == x);
            assert(s[s.len() - 1].tags.contains(x));
        }
    }
}

/// Enriching a file gives no tag but those that a tagger which is meant for the source infers, where
/// the cache does not answer.
pub proof fn law_inferred_tags_only(
    p: TagPipeline,
    path: Seq<char>,
    content: Seq<u8>,
    parsed: ParseView,
    source: SourceTypeView,
    x: Seq<char>,
)
    requires
        p.forced() || !p.cached().dom().contains(hash::hex_spec(hash::blake3_digest(content))),
        p.enriched(path, content, parsed, source).contains(x),
    ensures
        exists|i: int|
            0 <= i < p.taggers().len() && (#[trigger] p.taggers()[i]).applies_spec(source) && (
            p.taggers()[i].tagging(path, content, parsed) matches Some(r) && r.tags.contains(x)),
{
    let ts = p.taggers();
    let n = ts.len() as int;
    let all = enrich::results_of(ts, path, content, parsed, source, n);
    lemma_merged_only(all, x);
    let k = choose|k: int| 0 <= k < all.len() && (#[trigger] all[k]).tags.contains(x);
    assert(all.contains(all[k]));
    lemma_results_only(ts, path, content, parsed, source, n, all[k]);
}

/// Where the cache holds an entry for the content that the same taggers made, its tags are given, all
/// of them and no others.
pub proof fn law_cached_tags(
    p: TagPipeline,
    path: Seq<char>,
    content: Seq<u8>,
    parsed: ParseView,
    source: SourceTypeView,
    h: Seq<char>,
    x: Seq<char>,
)
    requires
        h == hash::hex_spec(hash::blake3_digest(content)),
        !p.forced(),
        p.cached().dom().contains(h),
        p.cached()[h].tagger_config_hash == p.own_hash(),
    ensures
        p.enriched(path, content, parsed, source).contains(x) <==> exists|i: int|
            0 <= i < p.cached()[h].results.len() && (
            #[trigger] p.cached()[h].results[i]).tags.contains(x),
{
    let s = p.cached()[h].results;
    if p.enriched(path, content, parsed, source).contains(x) {
        lemma_merged_only(s, x);
        let i = choose|i: int| 0 <= i < s.len() && (#[trigger] s[i]).tags.contains(x);
        assert(p.cached()[h].results[i].tags.contains(x));
    }
    if exists|i: int| 0 <= i < s.len() && (#[trigger] s[i]).tags.contains(x) {
        let i = choose|i: int| 0 <= i < s.len() && (#[trigger] s[i]).tags.contains(x);
        lemma_merged(s, i, s[i].tags.index_of(x));
    }
}

} // verus!
