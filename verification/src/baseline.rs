//! What the benchmarks measure the bitmap index against: a scan of the bytes, an inverted
//! index of posting lists, and a graph of documents and keys.

use petgraph::prelude::NodeIndex;
use petgraph::{Graph, Undirected};
use vstd::prelude::*;

use crate::ingest::SourceFile;
use crate::keymap::KeyMap;
use crate::markdown;
use crate::markdown::MarkdownParser;
use crate::parser::Parser;
use crate::text;
use crate::types::BitmapKey;

verus! {

// ── Timings ─────────────────────────────────────────────────────────────────

/// Whether numbers do not descend.
pub open spec fn sorted(s: Seq<u64>) -> bool {
    forall|i: int, j: int| 0 <= i < j < s.len() ==> #[trigger] s[i] <= #[trigger] s[j]
}

/// Sorts timings, and gives the one in the middle (the upper one of two).
pub fn median_us(times: &mut Vec<u64>) -> (r: u64)
    requires
        old(times)@.len() > 0,
    ensures
        sorted(final(times)@),
        final(times)@.to_multiset() == old(times)@.to_multiset(),
        final(times)@.len() == old(times)@.len(),
        r == final(times)@[old(times)@.len() as int / 2],
{
    let n: usize = times.len();
    let ghost bag = times@.to_multiset();
    let mut i: usize = 1;
    while i < n
        invariant
            1 <= i <= n,
            times@.len() == n,
            times@.to_multiset() == bag,
            sorted(times@.take(i as int)),
        decreases n - i,
    {
        let mut j: usize = i;
        proof {
            assert forall|a: int, b: int| 0 <= a < b <= i && b != j implies times@[a] <= times@[b] by {
                let t = times@.take(i as int);
                assert(t[a] == times@[a] && t[b] == times@[b]);
            }
        }
        while j > 0 && times[j] < times[j - 1]
            invariant
                0 <= j <= i < n,
                times@.len() == n,
                times@.to_multiset() == bag,
                forall|a: int, b: int|
                    0 <= a < b <= i && b != j ==> #[trigger] times@[a] <= #[trigger] times@[b],
            decreases j,
        {
            let low: u64 = times[j];
            let high: u64 = times[j - 1];
            let ghost before = times@;
            times.set(j, high);
            times.set(j - 1, low);
            proof {
                let s = before.update(j as int, high);
                vstd::seq_lib::to_multiset_update(before, j as int, high);
                vstd::seq_lib::to_multiset_update(s, j - 1, low);
                before.to_multiset_ensures();
                assert(before.contains(before[j as int]));
                assert(times@.to_multiset() =~= before.to_multiset());
            }
            j = j - 1;
        }
        proof {
            let t = times@.take(i + 1);
            assert forall|a: int, b: int| 0 <= a < b < t.len() implies #[trigger] t[a]
                <= #[trigger] t[b] by {
                if b == j {
                    assert(times@[j - 1] <= times@[j as int]);
                    if a < j - 1 {
                        assert(times@[a] <= times@[j - 1]);
                    }
                } else {
                    assert(times@[a] <= times@[b]);
                }
            }
        }
        i = i + 1;
    }
    assert(times@.take(n as int) =~= times@);
    times[n / 2]
}

/// The vault sizes that are measured, smallest first.
pub open spec fn all_scales() -> Seq<usize> {
    seq![100, 500, 1_000, 5_000, 10_000, 50_000, 100_000, 500_000, 1_000_000]
}

/// The vault sizes of at most `max_files` files.
pub fn scales(max_files: usize) -> (r: Vec<usize>)
    ensures
        r@ == all_scales().filter(|n: usize| n <= max_files),
{
    let all: [usize; 9] = [100, 500, 1_000, 5_000, 10_000, 50_000, 100_000, 500_000, 1_000_000];
    let ghost small = |n: usize| n <= max_files;
    let mut out: Vec<usize> = Vec::new();
    let mut i: usize = 0;
    assert(all@ =~= all_scales());
    assert(all@.take(0).filter(small) =~= Seq::<usize>::empty()) by {
        reveal(Seq::filter);
    }
    while i < 9
        invariant
            i <= 9,
            all@ == all_scales(),
            all@.len() == 9,
            small == (|n: usize| n <= max_files),
            out@ == all@.take(i as int).filter(small),
        decreases 9 - i,
    {
        let n: usize = all[i];
        proof {
            reveal(Seq::filter);
            assert(all@.take(i + 1).drop_last() =~= all@.take(i as int));
            assert(all@.take(i + 1).last() == n);
        }
        if n <= max_files {
            out.push(n);
        }
        i = i + 1;
    }
    assert(all@.take(9) =~= all@);
    out
}

// ── Scanning ────────────────────────────────────────────────────────────────

/// Whether `word` stands at offset `i` of some bytes.
pub open spec fn bytes_at(s: Seq<u8>, word: Seq<u8>, i: int) -> bool {
    0 <= i && i + word.len() <= s.len() && s.subrange(i, i + word.len()) == word
}

/// Whether `word` stands anywhere in some bytes.
pub open spec fn mentions_spec(s: Seq<u8>, word: Seq<u8>) -> bool {
    exists|i: int| #[trigger] bytes_at(s, word, i)
}

/// Whether `word` stands anywhere in some bytes.
pub fn mentions(content: &[u8], word: &[u8]) -> (r: bool)
    ensures
        r == mentions_spec(content@, word@),
{
    let n: usize = content.len();
    let m: usize = word.len();
    if m > n {
        return false;
    }
    let mut i: usize = 0;
    while i <= n - m
        invariant
            m <= n,
            n == content@.len(),
            m == word@.len(),
            i <= n - m + 1,
            forall|j: int| 0 <= j < i ==> !#[trigger] bytes_at(content@, word@, j),
        decreases n - m + 1 - i,
    {
        let mut k: usize = 0;
        while k < m && content[i + k] == word[k]
            invariant
                k <= m,
                i + m <= n,
                n == content@.len(),
                m == word@.len(),
                forall|j: int| 0 <= j < k ==> content@[i + j] == #[trigger] word@[j],
            decreases m - k,
        {
            k = k + 1;
        }
        if k == m {
            assert(content@.subrange(i as int, i + m) =~= word@);
            assert(bytes_at(content@, word@, i as int));
            return true;
        }
        proof {
            if bytes_at(content@, word@, i as int) {
                assert(content@.subrange(i as int, i + m)[k as int] == word@[k as int]);
                assert(false);
            }
        }
        if i == n - m {
            assert forall|j: int| !#[trigger] bytes_at(content@, word@, j) by {
                if j > i {
                    assert(j + m > n);
                }
            }
            return false;
        }
        i = i + 1;
    }
    false
}

/// How many of the first `n` files mention `word`.
pub open spec fn mention_count(files: Seq<SourceFile>, word: Seq<u8>, n: int) -> nat
    decreases n,
{
    if n <= 0 {
        0
    } else {
        mention_count(files, word, n - 1) + if mentions_spec(files[n - 1].content@, word) {
            1nat
        } else {
            0
        }
    }
}

/// How many files mention `word`.
pub fn grep_matches(files: &Vec<SourceFile>, word: &[u8]) -> (r: usize)
    ensures
        r == mention_count(files@, word@, files@.len() as int),
{
    let mut count: usize = 0;
    let mut i: usize = 0;
    while i < files.len()
        invariant
            i <= files@.len(),
            count <= i,
            count == mention_count(files@, word@, i as int),
        decreases files@.len() - i,
    {
        if mentions(files[i].content.as_slice(), word) {
            count = count + 1;
        }
        i = i + 1;
    }
    count
}

/// The tags of a Markdown file; a file that cannot be parsed has none.
pub open spec fn tags_of(content: Seq<u8>) -> Seq<Seq<char>> {
    match markdown::markdown_outcome(content) {
        Ok(p) => p.tags,
        Err(_) => Seq::empty(),
    }
}

/// How many of the first `n` files carry a tag.
pub open spec fn tagged_count(files: Seq<SourceFile>, tag: Seq<char>, n: int) -> nat
    decreases n,
{
    if n <= 0 {
        0
    } else {
        tagged_count(files, tag, n - 1) + if tags_of(files[n - 1].content@).contains(tag) {
            1nat
        } else {
            0
        }
    }
}

/// Parses every file, and counts those that carry a tag.
pub fn parse_filter_matches(files: &Vec<SourceFile>, tag: &str) -> (r: usize)
    ensures
        r == tagged_count(files@, tag@, files@.len() as int),
{
    let parser = MarkdownParser;
    let mut count: usize = 0;
    let mut i: usize = 0;
    while i < files.len()
        invariant
            i <= files@.len(),
            count <= i,
            count == tagged_count(files@, tag@, i as int),
        decreases files@.len() - i,
    {
        match parser.parse(files[i].path.as_str(), files[i].content.as_slice()) {
            Ok(p) => {
                if text::contains_string(&p.tags, tag) {
                    count = count + 1;
                }
            },
            Err(_) => {},
        }
        i = i + 1;
    }
    count
}

// ── Keys ────────────────────────────────────────────────────────────────────

/// The keys of a Markdown file: one for each tag, and the source; a file that cannot be
/// parsed has none.
pub open spec fn file_keys_spec(content: Seq<u8>) -> Seq<Seq<char>> {
    match markdown::markdown_outcome(content) {
        Ok(p) => Seq::new(p.tags.len(), |i: int| "tag:"@ + p.tags[i]).push("source:obsidian"@),
        Err(_) => Seq::empty(),
    }
}

/// The keys of a Markdown file: one for each tag, and the source; a file that cannot be
/// parsed has none.
pub fn file_keys(file: &SourceFile) -> (r: Vec<BitmapKey>)
    ensures
        r.deep_view() == file_keys_spec(file.content@),
{
    let parser = MarkdownParser;
    let mut out: Vec<BitmapKey> = Vec::new();
    match parser.parse(file.path.as_str(), file.content.as_slice()) {
        Ok(p) => {
            let mut i: usize = 0;
            while i < p.tags.len()
                invariant
                    i <= p.tags@.len(),
                    out@.len() == i,
                    forall|j: int| 0 <= j < i ==> #[trigger] out@[j]@ == "tag:"@ + p.tags@[j]@,
                decreases p.tags@.len() - i,
            {
                out.push(text::concat("tag:", p.tags[i].as_str()));
                i = i + 1;
            }
            out.push("source:obsidian".to_owned());
            assert(out.deep_view() =~= file_keys_spec(file.content@));
        },
        Err(_) => {
            assert(out.deep_view() =~= file_keys_spec(file.content@));
        },
    }
    out
}

/// The keys of each file.
pub open spec fn keys_of_files(files: Seq<SourceFile>) -> Seq<Seq<Seq<char>>> {
    Seq::new(files.len(), |i: int| file_keys_spec(files[i].content@))
}

// ── Posting lists ───────────────────────────────────────────────────────────

/// The positions of the documents that carry every wanted key, ascending.
pub open spec fn positions(docs: Seq<Seq<Seq<char>>>, wanted: Set<Seq<char>>) -> Seq<u32>
    decreases docs.len(),
{
    if docs.len() == 0 {
        Seq::empty()
    } else {
        let before = positions(docs.drop_last(), wanted);
        if wanted.subset_of(docs.last().to_set()) {
            before.push((docs.len() - 1) as u32)
        } else {
            before
        }
    }
}

/// Whether positions ascend, so that none occurs twice.
pub open spec fn rising(s: Seq<u32>) -> bool {
    forall|i: int, j: int| 0 <= i < j < s.len() ==> #[trigger] s[i] < #[trigger] s[j]
}

/// The positions that carry the wanted keys ascend, and are exactly those.
pub proof fn lemma_positions(docs: Seq<Seq<Seq<char>>>, wanted: Set<Seq<char>>)
    requires
        docs.len() <= u32::MAX,
    ensures
        rising(positions(docs, wanted)),
        forall|i: u32| #[trigger]
            positions(docs, wanted).contains(i) <==> i < docs.len() && wanted.subset_of(
                docs[i as int].to_set(),
            ),
    decreases docs.len(),
{
    if docs.len() > 0 {
        let less = docs.drop_last();
        lemma_positions(less, wanted);
        let p = positions(less, wanted);
        let last = (docs.len() - 1) as u32;
        assert forall|a: int| 0 <= a < p.len() implies #[trigger] p[a] < last by {
            assert(p.contains(p[a]));
        }
        assert forall|i: u32| #[trigger]
            positions(docs, wanted).contains(i) <==> i < docs.len() && wanted.subset_of(
                docs[i as int].to_set(),
            ) by {
            if i < last {
                assert(less[i as int] == docs[i as int]);
            }
            assert(p.push(last).contains(i) <==> p.contains(i) || i == last) by {
                if p.contains(i) {
                    let a = p.index_of(i);
                    assert(p.push(last)[a] == i);
                }
                if i == last {
                    assert(p.push(last)[p.len() as int] == i);
                }
                if p.push(last).contains(i) && i != last {
                    let a = p.push(last).index_of(i);
                    assert(p[a] == i);
                }
            }
        }
    }
}

/// Posting lists: for each key, the positions of the documents that carry it.
#[derive(Debug)]
pub struct Postings {
    map: KeyMap<Vec<u32>>,
}

/// The posting lists while a document is being added: its first `j` keys are in.
spec fn partial(
    docs: Seq<Seq<Seq<char>>>,
    keys: Seq<Seq<char>>,
    j: int,
    k: Seq<char>,
) -> Seq<u32> {
    if keys.take(j).contains(k) {
        positions(docs, set![k]).push(docs.len() as u32)
    } else {
        positions(docs, set![k])
    }
}

impl Postings {
    /// The positions of the documents that carry a key.
    pub closed spec fn of(&self, key: Seq<char>) -> Seq<u32> {
        if self.map@.dom().contains(key) {
            self.map@[key]@
        } else {
            Seq::empty()
        }
    }

    /// Every list ascends.
    pub closed spec fn wf(&self) -> bool {
        self.map.wf() && forall|k: Seq<char>| rising(#[trigger] self.of(k))
    }

    /// Puts a position at the end of the list of a key, once.
    fn append(&mut self, key: &str, i: u32)
        requires
            old(self).map.wf(),
        ensures
            final(self).map.wf(),
            forall|k: Seq<char>| k != key@ ==> #[trigger] final(self).of(k) == old(self).of(k),
            final(self).of(key@) == if old(self).of(key@).len() > 0 && old(self).of(key@).last()
                == i {
                old(self).of(key@)
            } else {
                old(self).of(key@).push(i)
            },
    {
        let mut list: Vec<u32> = match self.map.remove(key) {
            Some(v) => v,
            None => Vec::new(),
        };
        assert(list@ =~= old(self).of(key@));
        if list.len() == 0 || list[list.len() - 1] != i {
            list.push(i);
        }
        self.map.insert(key.to_owned(), list);
        assert forall|k: Seq<char>| k != key@ implies #[trigger] self.of(k) == old(self).of(k) by {
            assert(old(self).map@.remove(key@).dom().contains(k) <==> old(
                self,
            ).map@.dom().contains(k));
        }
    }

    /// The posting lists of the keys of some files, by their positions.
    pub fn build(files: &Vec<SourceFile>) -> (r: Self)
        requires
            files@.len() <= u32::MAX,
        ensures
            r.wf(),
            forall|k: Seq<char>| #[trigger]
                r.of(k) == positions(keys_of_files(files@), set![k]),
    {
        let mut r = Postings { map: KeyMap::new() };
        let ghost all = keys_of_files(files@);
        let mut i: usize = 0;
        assert forall|k: Seq<char>| #[trigger] r.of(k) == positions(all.take(0), set![k]) by {
            assert(r.of(k) =~= positions(all.take(0), set![k]));
        }
        while i < files.len()
            invariant
                i <= files@.len() <= u32::MAX,
                all == keys_of_files(files@),
                r.map.wf(),
                forall|k: Seq<char>| #[trigger] r.of(k) == positions(all.take(i as int), set![k]),
            decreases files@.len() - i,
        {
            let keys = file_keys(&files[i]);
            let ghost docs = all.take(i as int);
            let ghost ks = keys.deep_view();
            let mut j: usize = 0;
            assert forall|k: Seq<char>| #[trigger] r.of(k) == partial(docs, ks, 0, k) by {
                assert(!ks.take(0).contains(k));
            }
            while j < keys.len()
                invariant
                    j <= keys@.len(),
                    i < files@.len() <= u32::MAX,
                    docs.len() == i,
                    ks == keys.deep_view(),
                    r.map.wf(),
                    forall|k: Seq<char>| #[trigger] r.of(k) == partial(docs, ks, j as int, k),
                decreases keys@.len() - j,
            {
                let ghost before = r;
                r.append(keys[j].as_str(), i as u32);
                proof {
                    let key = ks[j as int];
                    assert(key == keys@[j as int]@);
                    let p = positions(docs, set![key]);
                    lemma_positions(docs, set![key]);
                    assert(p.len() > 0 ==> p.contains(p.last()));
                    assert forall|k: Seq<char>| #[trigger]
                        r.of(k) == partial(docs, ks, j + 1, k) by {
                        assert(ks.take(j + 1) =~= ks.take(j as int).push(key));
                        assert(before.of(k) == partial(docs, ks, j as int, k));
                        assert(ks.take(j as int).push(key).contains(k) <==> ks.take(
                            j as int,
                        ).contains(k) || k == key) by {
                            if ks.take(j as int).contains(k) {
                                let a = ks.take(j as int).index_of(k);
                                assert(ks.take(j as int).push(key)[a] == k);
                            }
                            assert(ks.take(j as int).push(key)[j as int] == key);
                        }
                    }
                }
                j = j + 1;
            }
            proof {
                assert(ks.take(ks.len() as int) =~= ks);
                assert(all.take(i + 1).drop_last() =~= docs);
                assert(all.take(i + 1).last() == ks);
                assert forall|k: Seq<char>| #[trigger]
                    r.of(k) == positions(all.take(i + 1), set![k]) by {
                    assert(r.of(k) == partial(docs, ks, ks.len() as int, k));
                    if ks.contains(k) {
                        assert(set![k].subset_of(ks.to_set()));
                    } else {
                        assert(set![k].contains(k));
                    }
                }
            }
            i = i + 1;
        }
        proof {
            assert(all.take(all.len() as int) =~= all);
            assert forall|k: Seq<char>| rising(#[trigger] r.of(k)) by {
                lemma_positions(all, set![k]);
            }
        }
        r
    }

    /// The positions of the documents that carry a key.
    pub fn lookup(&self, key: &str) -> (r: Vec<u32>)
        requires
            self.wf(),
        ensures
            r@ == self.of(key@),
    {
        match self.map.get(key) {
            Some(v) => copied(v),
            None => Vec::new(),
        }
    }

    /// The positions of the documents that carry both keys, ascending.
    pub fn both(&self, a: &str, b: &str) -> (r: Vec<u32>)
        requires
            self.wf(),
        ensures
            rising(r@),
            forall|i: u32| #[trigger]
                r@.contains(i) <==> self.of(a@).contains(i) && self.of(b@).contains(i),
    {
        let x = self.lookup(a);
        let y = self.lookup(b);
        assert(rising(self.of(a@)) && rising(self.of(b@)));
        shared(&x, &y)
    }
}

/// A copy of a list.
fn copied(v: &Vec<u32>) -> (r: Vec<u32>)
    ensures
        r@ == v@,
{
    let mut out: Vec<u32> = Vec::new();
    let mut i: usize = 0;
    while i < v.len()
        invariant
            i <= v@.len(),
            out@ == v@.take(i as int),
        decreases v@.len() - i,
    {
        out.push(v[i]);
        assert(v@.take(i + 1) =~= v@.take(i as int).push(v@[i as int]));
        i = i + 1;
    }
    assert(v@.take(i as int) =~= v@);
    out
}

/// What two ascending lists share, ascending.
fn shared(x: &Vec<u32>, y: &Vec<u32>) -> (r: Vec<u32>)
    requires
        rising(x@),
        rising(y@),
    ensures
        rising(r@),
        forall|n: u32| #[trigger] r@.contains(n) <==> x@.contains(n) && y@.contains(n),
{
    let mut out: Vec<u32> = Vec::new();
    let mut i: usize = 0;
    let mut j: usize = 0;
    while i < x.len() && j < y.len()
        invariant
            i <= x@.len(),
            j <= y@.len(),
            rising(x@),
            rising(y@),
            rising(out@),
            forall|k: int| 0 <= k < out@.len() && i < x@.len() ==> #[trigger] out@[k] < x@[i as int],
            forall|k: int| 0 <= k < out@.len() && j < y@.len() ==> #[trigger] out@[k] < y@[j as int],
            forall|k: int|
                0 <= k < out@.len() ==> x@.contains(#[trigger] out@[k]) && y@.contains(out@[k]),
            forall|a: int, b: int|
                0 <= a < x@.len() && 0 <= b < y@.len() && #[trigger] x@[a] == #[trigger] y@[b]
                    && (a < i || b < j) ==> out@.contains(x@[a]),
        decreases x@.len() - i + y@.len() - j,
    {
        let ghost before = out@;
        if x[i] < y[j] {
            assert forall|b: int| 0 <= b < y@.len() && x@[i as int] == #[trigger] y@[b] implies b
                < j by {
                if b > j {
                    assert(y@[j as int] < y@[b]);
                }
            }
            i = i + 1;
        } else if y[j] < x[i] {
            assert forall|a: int| 0 <= a < x@.len() && y@[j as int] == #[trigger] x@[a] implies a
                < i by {
                if a > i {
                    assert(x@[i as int] < x@[a]);
                }
            }
            j = j + 1;
        } else {
            let n: u32 = x[i];
            out.push(n);
            proof {
                assert(out@[before.len() as int] == n);
                assert forall|a: int, b: int|
                    0 <= a < x@.len() && 0 <= b < y@.len() && #[trigger] x@[a] == #[trigger] y@[b]
                        && (a < i + 1 || b < j + 1) implies out@.contains(x@[a]) by {
                    if a < i || b < j {
                        assert(before.contains(x@[a]));
                        let k = before.index_of(x@[a]);
                        assert(out@[k] == x@[a]);
                    }
                }
            }
            i = i + 1;
            j = j + 1;
        }
    }
    assert forall|n: u32| x@.contains(n) && y@.contains(n) implies #[trigger] out@.contains(n) by {
        let a = x@.index_of(n);
        let b = y@.index_of(n);
        assert(x@[a] == y@[b]);
    }
    out
}

// ── A graph of documents and keys ───────────────────────────────────────────

/// `petgraph::Undirected`, the marker of graphs whose edges have no direction.
#[verifier::external_type_specification]
#[verifier::external_body]
pub struct ExUndirected(petgraph::Undirected);

/// `petgraph::Graph`, an adjacency-list graph.
#[verifier::external_type_specification]
#[verifier::external_body]
#[verifier::reject_recursive_types(N)]
#[verifier::reject_recursive_types(E)]
#[verifier::reject_recursive_types(Ty)]
#[verifier::reject_recursive_types(Ix)]
pub struct ExGraph<N, E, Ty, Ix>(petgraph::Graph<N, E, Ty, Ix>);

/// The labels of the nodes of a graph, by node.
pub uninterp spec fn labels(g: Graph<String, (), Undirected, u32>) -> Seq<Seq<char>>;

/// The ends of the edges of a graph, in the order in which they were added.
pub uninterp spec fn edges(g: Graph<String, (), Undirected, u32>) -> Seq<(u32, u32)>;

/// `Graph::new_undirected` makes a graph without nodes.
#[verifier::external_body]
fn graph_new() -> (r: Graph<String, (), Undirected, u32>)
    ensures
        labels(r) == Seq::<Seq<char>>::empty(),
        edges(r) == Seq::<(u32, u32)>::empty(),
{
    Graph::new_undirected()
}

/// `Graph::add_node` adds a node with a label, and hands back its number: nodes are numbered
/// from 0 as they come. The last index stands for "none", so it is never a node.
#[verifier::external_body]
fn graph_add_node(g: &mut Graph<String, (), Undirected, u32>, label: String) -> (r: u32)
    requires
        labels(*old(g)).len() < u32::MAX,
    ensures
        r == labels(*old(g)).len(),
        labels(*final(g)) == labels(*old(g)).push(label@),
        edges(*final(g)) == edges(*old(g)),
{
    g.add_node(label).index() as u32
}

/// `Graph::add_edge` adds an edge between two nodes, beside those that may join them already.
#[verifier::external_body]
fn graph_add_edge(g: &mut Graph<String, (), Undirected, u32>, a: u32, b: u32)
    requires
        a < labels(*old(g)).len(),
        b < labels(*old(g)).len(),
        edges(*old(g)).len() < u32::MAX,
    ensures
        labels(*final(g)) == labels(*old(g)),
        edges(*final(g)) == edges(*old(g)).push((a, b)),
{
    g.add_edge(NodeIndex::new(a as usize), NodeIndex::new(b as usize), ());
}

/// How many edges a node is an end of.
pub open spec fn degree(edges: Seq<(u32, u32)>, a: u32) -> nat {
    edges.filter(|e: (u32, u32)| e.0 == a || e.1 == a).len()
}

/// `Graph::neighbors` of an undirected graph: the other end of every edge at a node, once for
/// each edge.
#[verifier::external_body]
fn graph_neighbors(g: &Graph<String, (), Undirected, u32>, a: u32) -> (r: Vec<u32>)
    ensures
        forall|n: u32| #[trigger]
            r@.contains(n) <==> edges(*g).contains((a, n)) || edges(*g).contains((n, a)),
        r@.len() == degree(edges(*g), a),
{
    g.neighbors(NodeIndex::new(a as usize)).map(|n| n.index() as u32).collect()
}

/// A graph with a node for each document and for each key, and an edge from each document to
/// each key that it carries.
pub struct TagGraph {
    graph: Graph<String, (), Undirected, u32>,
    key_nodes: KeyMap<u32>,
    doc_nodes: Vec<u32>,
}

impl TagGraph {
    /// The labels of the nodes.
    pub closed spec fn labels(&self) -> Seq<Seq<char>> {
        labels(self.graph)
    }

    /// The edges, from documents to keys.
    pub closed spec fn edges(&self) -> Seq<(u32, u32)> {
        edges(self.graph)
    }

    /// The nodes of the documents, in the order in which they came.
    pub closed spec fn docs(&self) -> Seq<u32> {
        self.doc_nodes@
    }

    /// The nodes of the keys.
    pub closed spec fn keys(&self) -> Map<Seq<char>, u32> {
        self.key_nodes@
    }

    /// Each key has one node, labelled with it; documents have nodes of their own, in
    /// ascending order; edges lead from documents to keys.
    pub closed spec fn wf(&self) -> bool {
        &&& self.key_nodes.wf()
        &&& self.labels().len() <= u32::MAX
        &&& self.edges().len() <= u32::MAX
        &&& rising(self.docs())
        &&& forall|k: Seq<char>| #[trigger]
            self.keys().dom().contains(k) ==> self.keys()[k] < self.labels().len()
                && self.labels()[self.keys()[k] as int] == k && !self.docs().contains(
                self.keys()[k],
            )
        &&& forall|i: int|
            0 <= i < self.docs().len() ==> #[trigger] self.docs()[i] < self.labels().len()
        &&& forall|e: int|
            #![trigger self.edges()[e]]
            0 <= e < self.edges().len() ==> self.docs().contains(self.edges()[e].0)
                && self.is_key_node(self.edges()[e].1)
    }

    /// Whether a node is the node of a key.
    pub open spec fn is_key_node(&self, n: u32) -> bool {
        n < self.labels().len() && self.keys().dom().contains(self.labels()[n as int])
            && self.keys()[self.labels()[n as int]] == n
    }

    /// Whether the `i`-th document carries a key.
    pub open spec fn carries(&self, i: int, key: Seq<char>) -> bool {
        0 <= i < self.docs().len() && self.keys().dom().contains(key) && self.edges().contains(
            (self.docs()[i], self.keys()[key]),
        )
    }

    /// No documents.
    pub fn new() -> (r: Self)
        ensures
            r.wf(),
            r.docs() == Seq::<u32>::empty(),
            r.labels() == Seq::<Seq<char>>::empty(),
            r.edges() == Seq::<(u32, u32)>::empty(),
    {
        TagGraph { graph: graph_new(), key_nodes: KeyMap::new(), doc_nodes: Vec::new() }
    }

    /// Joins the last document to a key, whose node is made when it is new.
    fn join(&mut self, key: &str)
        requires
            old(self).wf(),
            old(self).docs().len() > 0,
            old(self).labels().len() < u32::MAX,
            old(self).edges().len() < u32::MAX,
        ensures
            final(self).wf(),
            final(self).docs() == old(self).docs(),
            final(self).edges().len() == old(self).edges().len() + 1,
            old(self).labels().is_prefix_of(final(self).labels()),
            final(self).labels().len() <= old(self).labels().len() + 1,
            forall|i: int, k: Seq<char>| #[trigger]
                final(self).carries(i, k) <==> old(self).carries(i, k) || (i
                    == old(self).docs().len() - 1 && k == key@),
    {
        let ghost before = *self;
        let doc: u32 = self.doc_nodes[self.doc_nodes.len() - 1];
        let node: u32 = match self.key_nodes.get(key) {
            Some(n) => *n,
            None => {
                let n: u32 = graph_add_node(&mut self.graph, key.to_owned());
                self.key_nodes.insert(key.to_owned(), n);
                n
            },
        };
        proof {
            assert(before.docs().contains(doc));
            assert(self.docs() == before.docs());
            if before.keys().dom().contains(key@) {
                assert(before.labels()[node as int] == key@);
            }
            assert forall|k: Seq<char>| #[trigger] before.keys().dom().contains(k) implies
                self.keys().dom().contains(k) && self.keys()[k] == before.keys()[k] by {}
        }
        graph_add_edge(&mut self.graph, doc, node);
        proof {
            let old_edges = before.edges();
            let new_edges = self.edges();
            assert(new_edges == old_edges.push((doc, node)));
            assert(self.labels()[node as int] == key@);
            assert(self.keys()[key@] == node);
            assert forall|e: int|
                #![trigger new_edges[e]]
                0 <= e < new_edges.len() implies self.docs().contains(new_edges[e].0)
                && self.is_key_node(new_edges[e].1) by {
                if e < old_edges.len() {
                    assert(new_edges[e] == old_edges[e]);
                    assert(before.is_key_node(old_edges[e].1));
                    assert(self.labels()[old_edges[e].1 as int] == before.labels()[old_edges[e].1
                        as int]);
                }
            }
            assert forall|k: Seq<char>| #[trigger] self.keys().dom().contains(k) implies
                self.keys()[k] < self.labels().len() && self.labels()[self.keys()[k] as int] == k
                && !self.docs().contains(self.keys()[k]) by {
                if k != key@ || before.keys().dom().contains(k) {
                    assert(before.keys().dom().contains(k));
                }
            }
            assert forall|i: int, k: Seq<char>| #[trigger]
                self.carries(i, k) <==> before.carries(i, k) || (i == before.docs().len() - 1
                    && k == key@) by {
                if self.carries(i, k) {
                    let e = new_edges.index_of((self.docs()[i], self.keys()[k]));
                    if e < old_edges.len() {
                        assert(old_edges[e] == new_edges[e]);
                        assert(before.is_key_node(old_edges[e].1));
                        let l = before.labels()[old_edges[e].1 as int];
                        assert(self.labels()[old_edges[e].1 as int] == l);
                        assert(l == k);
                    } else {
                        assert(self.docs()[i] == doc);
                        assert(self.labels()[node as int] == k);
                    }
                }
                if before.carries(i, k) {
                    let e = old_edges.index_of((before.docs()[i], before.keys()[k]));
                    assert(new_edges[e] == old_edges[e]);
                }
                if i == before.docs().len() - 1 && k == key@ {
                    assert(new_edges[old_edges.len() as int] == (doc, node));
                }
            }
        }
    }

    /// Adds a document with its keys.
    pub fn add_document(&mut self, path: &str, keys: &Vec<BitmapKey>)
        requires
            old(self).wf(),
            old(self).labels().len() + keys@.len() < u32::MAX,
            old(self).edges().len() + keys@.len() <= u32::MAX,
        ensures
            final(self).wf(),
            final(self).docs().drop_last() == old(self).docs(),
            final(self).docs().len() == old(self).docs().len() + 1,
            old(self).labels().push(path@).is_prefix_of(final(self).labels()),
            final(self).docs().last() == old(self).labels().len(),
            final(self).labels().len() <= old(self).labels().len() + 1 + keys@.len(),
            final(self).edges().len() == old(self).edges().len() + keys@.len(),
            forall|i: int, k: Seq<char>| #[trigger]
                final(self).carries(i, k) <==> old(self).carries(i, k) || (i
                    == old(self).docs().len() && keys.deep_view().contains(k)),
    {
        let ghost before = *self;
        let ghost ks = keys.deep_view();
        let node: u32 = graph_add_node(&mut self.graph, path.to_owned());
        self.doc_nodes.push(node);
        let ghost start = *self;
        proof {
            assert(self.docs() == before.docs().push(node));
            assert forall|k: Seq<char>| #[trigger] self.keys().dom().contains(k) implies
                self.keys()[k] < self.labels().len() && self.labels()[self.keys()[k] as int] == k
                && !self.docs().contains(self.keys()[k]) by {
                assert(before.keys().dom().contains(k));
            }
            assert forall|e: int|
                #![trigger self.edges()[e]]
                0 <= e < self.edges().len() implies self.docs().contains(self.edges()[e].0)
                && self.is_key_node(self.edges()[e].1) by {
                assert(before.is_key_node(before.edges()[e].1));
                let d = before.edges()[e].0;
                let a = before.docs().index_of(d);
                assert(self.docs()[a] == d);
            }
            assert forall|i: int, k: Seq<char>| #[trigger] self.carries(i, k) <==> before.carries(
                i,
                k,
            ) by {
                if self.carries(i, k) && i == before.docs().len() {
                    let e = before.edges().index_of((node, self.keys()[k]));
                    assert(before.docs().contains(before.edges()[e].0));
                    assert(false);
                }
            }
        }
        let mut j: usize = 0;
        while j < keys.len()
            invariant
                j <= keys@.len(),
                ks == keys.deep_view(),
                self.wf(),
                self.docs() == before.docs().push(node),
                before.labels().len() + keys@.len() < u32::MAX,
                before.edges().len() + keys@.len() <= u32::MAX,
                node == before.labels().len(),
                before.labels().push(path@).is_prefix_of(self.labels()),
                self.labels().len() <= before.labels().len() + 1 + j,
                self.edges().len() == before.edges().len() + j,
                forall|i: int, k: Seq<char>| #[trigger]
                    self.carries(i, k) <==> before.carries(i, k) || (i == before.docs().len()
                        && ks.take(j as int).contains(k)),
            decreases keys@.len() - j,
        {
            let ghost prior = *self;
            self.join(keys[j].as_str());
            proof {
                assert(ks.take(j + 1) =~= ks.take(j as int).push(keys@[j as int]@));
                assert forall|k: Seq<char>| #[trigger]
                    ks.take(j + 1).contains(k) <==> ks.take(j as int).contains(k) || k
                        == keys@[j as int]@ by {
                    if ks.take(j as int).contains(k) {
                        let a = ks.take(j as int).index_of(k);
                        assert(ks.take(j + 1)[a] == k);
                    }
                    assert(ks.take(j + 1)[j as int] == keys@[j as int]@);
                }
                assert forall|i: int, k: Seq<char>| #[trigger]
                    self.carries(i, k) <==> before.carries(i, k) || (i == before.docs().len()
                        && ks.take(j + 1).contains(k)) by {
                    assert(prior.carries(i, k) <==> before.carries(i, k) || (i
                        == before.docs().len() && ks.take(j as int).contains(k)));
                }
            }
            j = j + 1;
        }
        assert(ks.take(j as int) =~= ks);
        assert(self.docs().drop_last() =~= before.docs());
    }

    /// The nodes of the documents that carry a key, once for each edge; none for a key that
    /// no document carries.
    pub fn single(&self, key: &str) -> (r: Vec<u32>)
        requires
            self.wf(),
        ensures
            forall|n: u32| #[trigger]
                r@.contains(n) <==> exists|i: int| #[trigger]
                    self.carries(i, key@) && self.docs()[i] == n,
            r@.len() == if self.keys().dom().contains(key@) {
                degree(self.edges(), self.keys()[key@])
            } else {
                0
            },
    {
        let node: u32 = match self.key_nodes.get(key) {
            Some(n) => *n,
            None => {
                return Vec::new();
            },
        };
        let r = graph_neighbors(&self.graph, node);
        proof {
            assert forall|n: u32| #[trigger]
                r@.contains(n) <==> exists|i: int| #[trigger]
                    self.carries(i, key@) && self.docs()[i] == n by {
                if self.edges().contains((node, n)) {
                    let e = self.edges().index_of((node, n));
                    assert(self.docs().contains(self.edges()[e].0));
                    assert(false);
                }
                if self.edges().contains((n, node)) {
                    let e = self.edges().index_of((n, node));
                    assert(self.docs().contains(self.edges()[e].0));
                    let i = self.docs().index_of(n);
                    assert(self.docs()[i] == n);
                    assert(self.carries(i, key@));
                }
            }
        }
        r
    }

    /// The nodes of the documents that carry both keys, each once.
    pub fn both(&self, a: &str, b: &str) -> (r: Vec<u32>)
        requires
            self.wf(),
        ensures
            r@.no_duplicates(),
            forall|n: u32| #[trigger]
                r@.contains(n) <==> exists|i: int| #[trigger]
                    self.carries(i, a@) && self.carries(i, b@) && self.docs()[i] == n,
    {
        let x = self.single(a);
        let y = self.single(b);
        let mut out: Vec<u32> = Vec::new();
        let mut i: usize = 0;
        while i < x.len()
            invariant
                i <= x@.len(),
                out@.no_duplicates(),
                forall|n: u32| #[trigger]
                    out@.contains(n) <==> x@.take(i as int).contains(n) && y@.contains(n),
            decreases x@.len() - i,
        {
            let n: u32 = x[i];
            let ghost before = out@;
            let ghost earlier = x@.take(i as int);
            if holds(&y, n) && !holds(&out, n) {
                out.push(n);
                assert(out@[before.len() as int] == n);
            }
            proof {
                assert(x@.take(i + 1) =~= earlier.push(n));
                assert forall|m: u32| #[trigger]
                    out@.contains(m) <==> x@.take(i + 1).contains(m) && y@.contains(m) by {
                    assert(before.contains(m) <==> earlier.contains(m) && y@.contains(m));
                    if earlier.contains(m) {
                        assert(earlier.push(n)[earlier.index_of(m)] == m);
                    }
                    assert(earlier.push(n)[i as int] == n);
                    if before.contains(m) {
                        assert(out@[before.index_of(m)] == m);
                    }
                }
            }
            i = i + 1;
        }
        proof {
            assert(x@.take(i as int) =~= x@);
            assert forall|n: u32| #[trigger]
                out@.contains(n) <==> exists|k: int| #[trigger]
                    self.carries(k, a@) && self.carries(k, b@) && self.docs()[k] == n by {
                if out@.contains(n) {
                    let k = choose|k: int| #[trigger] self.carries(k, a@) && self.docs()[k] == n;
                    let l = choose|l: int| #[trigger] self.carries(l, b@) && self.docs()[l] == n;
                    assert(k == l);
                }
            }
        }
        out
    }

    /// The graph of some files and their keys; `None` only where there are more files and
    /// keys than a graph has room for.
    pub fn build(files: &Vec<SourceFile>) -> (r: Option<Self>)
        ensures
            match r {
                Some(g) => {
                    &&& g.wf()
                    &&& g.docs().len() == files@.len()
                    &&& forall|i: int|
                        0 <= i < files@.len() ==> #[trigger] g.docs()[i] < g.labels().len()
                            && g.labels()[g.docs()[i] as int] == files@[i].path@
                    &&& forall|i: int, k: Seq<char>| #[trigger]
                        g.carries(i, k) <==> 0 <= i < files@.len() && file_keys_spec(
                            files@[i].content@,
                        ).contains(k)
                },
                None => files@.len() + keys_before(files@, files@.len() as int) >= u32::MAX,
            },
    {
        let mut g = TagGraph::new();
        let mut room: u32 = u32::MAX;
        let mut i: usize = 0;
        while i < files.len()
            invariant
                i <= files@.len(),
                g.wf(),
                g.docs().len() == i,
                room + i + keys_before(files@, i as int) == u32::MAX,
                g.labels().len() + room <= u32::MAX,
                g.edges().len() + room <= u32::MAX,
                forall|j: int|
                    0 <= j < i ==> #[trigger] g.docs()[j] < g.labels().len()
                        && g.labels()[g.docs()[j] as int] == files@[j].path@,
                forall|j: int, k: Seq<char>| #[trigger]
                    g.carries(j, k) <==> 0 <= j < i && file_keys_spec(
                        files@[j].content@,
                    ).contains(k),
            decreases files@.len() - i,
        {
            let keys = file_keys(&files[i]);
            proof {
                lemma_keys_before(files@, i + 1, files@.len() as int);
            }
            if keys.len() >= room as usize {
                return None;
            }
            let ghost before = g;
            g.add_document(files[i].path.as_str(), &keys);
            proof {
                assert forall|j: int| 0 <= j < i + 1 implies #[trigger] g.docs()[j]
                    < g.labels().len() && g.labels()[g.docs()[j] as int] == files@[j].path@ by {
                    let p = before.labels().push(files@[i as int].path@);
                    assert(forall|x: int| 0 <= x < p.len() ==> p[x] == g.labels()[x]);
                    if j < i {
                        assert(g.docs()[j] == g.docs().drop_last()[j]);
                        assert(before.docs()[j] < before.labels().len());
                        assert(p[before.docs()[j] as int] == files@[j].path@);
                    } else {
                        assert(p[before.labels().len() as int] == files@[i as int].path@);
                    }
                }
            }
            room = room - 1 - keys.len() as u32;
            i = i + 1;
        }
        Some(g)
    }
}

/// The number of keys of the first `n` files.
pub open spec fn keys_before(files: Seq<SourceFile>, n: int) -> nat
    decreases n,
{
    if n <= 0 {
        0
    } else {
        keys_before(files, n - 1) + file_keys_spec(files[n - 1].content@).len()
    }
}

proof fn lemma_keys_before(files: Seq<SourceFile>, m: int, n: int)
    requires
        0 <= m <= n,
    ensures
        keys_before(files, m) <= keys_before(files, n),
    decreases n - m,
{
    if m < n {
        lemma_keys_before(files, m, n - 1);
    }
}

/// Whether a number is listed.
fn holds(v: &Vec<u32>, n: u32) -> (r: bool)
    ensures
        r == v@.contains(n),
{
    let mut i: usize = 0;
    while i < v.len()
        invariant
            i <= v@.len(),
            forall|j: int| 0 <= j < i ==> #[trigger] v@[j] != n,
        decreases v@.len() - i,
    {
        if v[i] == n {
            return true;
        }
        i = i + 1;
    }
    false
}

} // verus!
