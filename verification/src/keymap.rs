//! A map from strings, held as a vector sorted by key.

use vstd::prelude::*;

verus! {

/// Lexicographic order on texts, by the code points of their characters. It is the order of
/// the UTF-8 encodings, byte by byte.
pub open spec fn lex_lt(a: Seq<char>, b: Seq<char>) -> bool
    decreases a.len(),
{
    if b.len() == 0 {
        false
    } else if a.len() == 0 {
        true
    } else if a[0] != b[0] {
        (a[0] as int) < (b[0] as int)
    } else {
        lex_lt(a.drop_first(), b.drop_first())
    }
}

pub proof fn lemma_lex_irreflexive(a: Seq<char>)
    ensures
        !lex_lt(a, a),
    decreases a.len(),
{
    if a.len() > 0 {
        lemma_lex_irreflexive(a.drop_first());
    }
}

pub proof fn lemma_lex_total(a: Seq<char>, b: Seq<char>)
    ensures
        lex_lt(a, b) || lex_lt(b, a) || a == b,
    decreases a.len(),
{
    if a.len() == 0 || b.len() == 0 {
        if a.len() == 0 && b.len() == 0 {
            assert(a =~= b);
        }
    } else if a[0] == b[0] {
        lemma_lex_total(a.drop_first(), b.drop_first());
        if a.drop_first() == b.drop_first() {
            assert(a =~= seq![a[0]] + a.drop_first());
            assert(b =~= seq![b[0]] + b.drop_first());
        }
    }
}

pub proof fn lemma_lex_transitive(a: Seq<char>, b: Seq<char>, c: Seq<char>)
    requires
        lex_lt(a, b),
        lex_lt(b, c),
    ensures
        lex_lt(a, c),
    decreases a.len(),
{
    if a.len() > 0 && b.len() > 0 && c.len() > 0 && a[0] == b[0] && b[0] == c[0] {
        lemma_lex_transitive(a.drop_first(), b.drop_first(), c.drop_first());
    }
}

/// How two keys lie to each other.
#[derive(Clone, Copy, Debug, PartialEq, Eq, Structural)]
pub enum KeyOrder {
    Before,
    Same,
    After,
}

/// How `a` lies to `b` in lexicographic order.
pub fn key_order(a: &str, b: &str) -> (r: KeyOrder)
    ensures
        r == KeyOrder::Before <==> lex_lt(a@, b@),
        r == KeyOrder::Same <==> a@ == b@,
        r == KeyOrder::After <==> lex_lt(b@, a@),
{
    let x = crate::text::chars_of(a);
    let y = crate::text::chars_of(b);
    let mut i: usize = 0;
    proof {
        assert(x@.subrange(0, x@.len() as int) =~= x@);
        assert(y@.subrange(0, y@.len() as int) =~= y@);
        lemma_lex_irreflexive(a@);
    }
    while i < x.len() && i < y.len() && x[i] == y[i]
        invariant
            i <= x@.len(),
            i <= y@.len(),
            x@ == a@,
            y@ == b@,
            x@.take(i as int) == y@.take(i as int),
            lex_lt(a@, b@) == lex_lt(
                x@.subrange(i as int, x@.len() as int),
                y@.subrange(i as int, y@.len() as int),
            ),
            lex_lt(b@, a@) == lex_lt(
                y@.subrange(i as int, y@.len() as int),
                x@.subrange(i as int, x@.len() as int),
            ),
        decreases x@.len() - i,
    {
        proof {
            let p = x@.subrange(i as int, x@.len() as int);
            let q = y@.subrange(i as int, y@.len() as int);
            assert(p.drop_first() =~= x@.subrange(i + 1, x@.len() as int));
            assert(q.drop_first() =~= y@.subrange(i + 1, y@.len() as int));
            assert(x@.take(i + 1) =~= x@.take(i as int).push(x@[i as int]));
            assert(y@.take(i + 1) =~= y@.take(i as int).push(y@[i as int]));
        }
        i += 1;
    }
    proof {
        assert(x@.take(x@.len() as int) =~= x@);
        assert(y@.take(y@.len() as int) =~= y@);
    }
    if i == x.len() && i == y.len() {
        KeyOrder::Same
    } else if i == x.len() {
        KeyOrder::Before
    } else if i == y.len() {
        KeyOrder::After
    } else {
        if x[i] < y[i] {
            KeyOrder::Before
        } else {
            KeyOrder::After
        }
    }
}

/// A map from strings to values, in ascending order of keys.
#[derive(Debug)]
pub struct KeyMap<V> {
    entries: Vec<(String, V)>,
}

/// The keys of a sequence of entries, in order.
pub open spec fn keys_of<V>(s: Seq<(String, V)>) -> Seq<Seq<char>> {
    Seq::new(s.len(), |i: int| s[i].0@)
}

/// Whether keys ascend, so that none occurs twice.
pub open spec fn ascending(keys: Seq<Seq<char>>) -> bool {
    forall|i: int, j: int| 0 <= i < j < keys.len() ==> lex_lt(#[trigger] keys[i], #[trigger] keys[j])
}

/// The map that a sequence of entries stands for.
pub open spec fn map_of<V>(s: Seq<(String, V)>) -> Map<Seq<char>, V> {
    Map::new(|k: Seq<char>| keys_of(s).contains(k), |k: Seq<char>| s[keys_of(s).index_of(k)].1)
}

pub proof fn lemma_ascending_distinct(keys: Seq<Seq<char>>)
    requires
        ascending(keys),
    ensures
        keys.no_duplicates(),
{
    assert forall|i: int, j: int|
        0 <= i < keys.len() && 0 <= j < keys.len() && i != j implies keys[i] != keys[j] by {
        if i < j {
            lemma_lex_irreflexive(keys[i]);
        } else {
            lemma_lex_irreflexive(keys[j]);
        }
    }
}

/// The value at position `i` is the value of its key.
pub proof fn lemma_map_at<V>(s: Seq<(String, V)>, i: int)
    requires
        ascending(keys_of(s)),
        0 <= i < s.len(),
    ensures
        map_of(s).dom().contains(s[i].0@),
        map_of(s)[s[i].0@] == s[i].1,
        keys_of(s)[i] == s[i].0@,
{
    let keys = keys_of(s);
    lemma_ascending_distinct(keys);
    assert(keys[i] == s[i].0@);
    assert(keys.contains(s[i].0@));
    let j = keys.index_of(s[i].0@);
    assert(keys[j] == keys[i]);
}

impl<V> KeyMap<V> {
    /// The entries in order.
    pub closed spec fn entries_spec(&self) -> Seq<(String, V)> {
        self.entries@
    }

    /// The keys, in ascending order.
    pub open spec fn keys_spec(&self) -> Seq<Seq<char>> {
        keys_of(self.entries_spec())
    }

    /// Keys ascend, so that each occurs once.
    pub open spec fn wf(&self) -> bool {
        ascending(self.keys_spec())
    }
}

impl<V> View for KeyMap<V> {
    type V = Map<Seq<char>, V>;

    open spec fn view(&self) -> Map<Seq<char>, V> {
        map_of(self.entries_spec())
    }
}

impl<V> KeyMap<V> {
    /// The keys list the domain of the map, each once.
    pub proof fn lemma_keys(&self)
        requires
            self.wf(),
        ensures
            self.keys_spec().no_duplicates(),
            self.keys_spec().len() == self.entries_spec().len(),
            forall|k: Seq<char>| #[trigger] self.keys_spec().contains(k) <==> self@.dom().contains(k),
            forall|i: int|
                #![trigger self.entries_spec()[i]]
                0 <= i < self.entries_spec().len() ==> self.keys_spec()[i]
                    == self.entries_spec()[i].0@ && self@.dom().contains(self.keys_spec()[i])
                    && self@[self.keys_spec()[i]] == self.entries_spec()[i].1,
    {
        lemma_ascending_distinct(self.keys_spec());
        assert forall|i: int|
            #![trigger self.entries_spec()[i]]
            0 <= i < self.entries_spec().len() implies self.keys_spec()[i]
            == self.entries_spec()[i].0@ && self@.dom().contains(self.keys_spec()[i])
            && self@[self.keys_spec()[i]] == self.entries_spec()[i].1 by {
            lemma_map_at(self.entries_spec(), i);
        }
    }

    /// The empty map.
    pub fn new() -> (r: Self)
        ensures
            r.wf(),
            r@ == Map::<Seq<char>, V>::empty(),
            r.entries_spec().len() == 0,
    {
        let r = KeyMap { entries: Vec::new() };
        assert(r@ =~= Map::<Seq<char>, V>::empty());
        r
    }

    /// The number of entries.
    pub fn len(&self) -> (r: usize)
        ensures
            r == self.entries_spec().len(),
    {
        self.entries.len()
    }

    /// The key at position `i`.
    pub fn key_at(&self, i: usize) -> (r: &String)
        requires
            i < self.entries_spec().len(),
        ensures
            r@ == self.entries_spec()[i as int].0@,
            r@ == self.keys_spec()[i as int],
    {
        &self.entries[i].0
    }

    /// The value at position `i`.
    pub fn value_at(&self, i: usize) -> (r: &V)
        requires
            i < self.entries_spec().len(),
        ensures
            *r == self.entries_spec()[i as int].1,
    {
        &self.entries[i].1
    }

    /// The position of the first entry whose key is not before `key`.
    fn lower_bound(&self, key: &str) -> (r: usize)
        requires
            self.wf(),
        ensures
            r <= self.entries_spec().len(),
            forall|i: int| 0 <= i < r ==> lex_lt(#[trigger] self.keys_spec()[i], key@),
            r < self.entries_spec().len() ==> !lex_lt(self.keys_spec()[r as int], key@),
    {
        let ghost keys = self.keys_spec();
        let mut low: usize = 0;
        let mut high: usize = self.entries.len();
        while low < high
            invariant
                self.wf(),
                keys == self.keys_spec(),
                low <= high <= self.entries@.len(),
                forall|j: int| 0 <= j < low ==> lex_lt(#[trigger] keys[j], key@),
                high < self.entries@.len() ==> !lex_lt(keys[high as int], key@),
            decreases high - low,
        {
            let mid: usize = low + (high - low) / 2;
            assert(keys[mid as int] == self.entries@[mid as int].0@);
            match key_order(self.entries[mid].0.as_str(), key) {
                KeyOrder::Before => {
                    proof {
                        assert forall|j: int| 0 <= j < mid + 1 implies lex_lt(
                            #[trigger] keys[j],
                            key@,
                        ) by {
                            if j < mid {
                                assert(lex_lt(keys[j], keys[mid as int]));
                                lemma_lex_transitive(keys[j], keys[mid as int], key@);
                            }
                        }
                    }
                    low = mid + 1;
                },
                _ => {
                    proof {
                        if lex_lt(keys[mid as int], key@) {
                            lemma_lex_total(keys[mid as int], key@);
                        }
                    }
                    high = mid;
                },
            }
        }
        low
    }

    /// The position of a key.
    pub fn position(&self, key: &str) -> (r: Option<usize>)
        requires
            self.wf(),
        ensures
            match r {
                Some(i) => i < self.entries_spec().len() && self.keys_spec()[i as int] == key@
                    && self@.dom().contains(key@) && self@[key@] == self.entries_spec()[i as int].1,
                None => !self@.dom().contains(key@),
            },
    {
        let i = self.lower_bound(key);
        if i < self.entries.len() && crate::text::str_eq(self.entries[i].0.as_str(), key) {
            proof {
                lemma_map_at(self.entries@, i as int);
            }
            return Some(i);
        }
        proof {
            lemma_absent(self.keys_spec(), key@, i as int);
        }
        None
    }

    /// The value of a key.
    pub fn get(&self, key: &str) -> (r: Option<&V>)
        requires
            self.wf(),
        ensures
            match r {
                Some(v) => self@.dom().contains(key@) && *v == self@[key@],
                None => !self@.dom().contains(key@),
            },
    {
        match self.position(key) {
            Some(i) => Some(&self.entries[i].1),
            None => None,
        }
    }

    /// Whether the map has a value for a key.
    pub fn contains_key(&self, key: &str) -> (r: bool)
        requires
            self.wf(),
        ensures
            r == self@.dom().contains(key@),
    {
        self.position(key).is_some()
    }

    /// Sets the value of a key. A value that it had is dropped.
    pub fn insert(&mut self, key: String, value: V)
        requires
            old(self).wf(),
        ensures
            final(self).wf(),
            final(self)@ == old(self)@.insert(key@, value),
            old(self)@.dom().contains(key@) ==> final(self).keys_spec() == old(self).keys_spec(),
    {
        let ghost s = self.entries@;
        let ghost k = key@;
        let i = self.lower_bound(key.as_str());
        if i < self.entries.len() && crate::text::str_eq(
            self.entries[i].0.as_str(),
            key.as_str(),
        ) {
            self.entries[i].1 = value;
            let ghost t = self.entries@;
            proof {
                lemma_map_at(s, i as int);
                assert(keys_of(t) =~= keys_of(s));
                lemma_ascending_distinct(keys_of(t));
                lemma_map_at(t, i as int);
                assert forall|x: Seq<char>| map_of(t).dom().contains(x) && x != k implies map_of(
                    t,
                )[x] == map_of(s)[x] by {
                    let j = keys_of(t).index_of(x);
                    assert(keys_of(t)[j] == x);
                    lemma_map_at(s, j);
                    lemma_map_at(t, j);
                }
                assert(map_of(t) =~= map_of(s).insert(k, value));
            }
        } else {
            proof {
                lemma_absent(keys_of(s), k, i as int);
                if i < s.len() {
                    lemma_lex_total(keys_of(s)[i as int], k);
                    assert(keys_of(s)[i as int] == s[i as int].0@);
                }
            }
            self.entries.insert(i, (key, value));
            let ghost t = self.entries@;
            proof {
                lemma_insert_at(s, t, i as int, k, value);
            }
        }
    }

    /// Removes a key, and hands back its value.
    pub fn remove(&mut self, key: &str) -> (r: Option<V>)
        requires
            old(self).wf(),
        ensures
            final(self).wf(),
            final(self)@ == old(self)@.remove(key@),
            match r {
                Some(v) => old(self)@.dom().contains(key@) && v == old(self)@[key@],
                None => !old(self)@.dom().contains(key@),
            },
    {
        let ghost s = self.entries@;
        match self.position(key) {
            Some(i) => {
                let (_, v) = self.entries.remove(i);
                let ghost t = self.entries@;
                proof {
                    lemma_remove_at(s, t, i as int);
                }
                Some(v)
            },
            None => {
                assert(self@ =~= old(self)@.remove(key@));
                None
            },
        }
    }
}

/// A key that lies strictly between two neighbours is not there.
proof fn lemma_absent(keys: Seq<Seq<char>>, k: Seq<char>, i: int)
    requires
        ascending(keys),
        0 <= i <= keys.len(),
        forall|j: int| 0 <= j < i ==> lex_lt(#[trigger] keys[j], k),
        i < keys.len() ==> !lex_lt(keys[i], k) && keys[i] != k,
    ensures
        !keys.contains(k),
{
    if keys.contains(k) {
        let j = keys.index_of(k);
        assert(keys[j] == k);
        lemma_lex_irreflexive(k);
        if i < j {
            assert(lex_lt(keys[i], keys[j]));
        }
        assert(false);
    }
}

proof fn lemma_insert_at<V>(
    s: Seq<(String, V)>,
    t: Seq<(String, V)>,
    i: int,
    k: Seq<char>,
    value: V,
)
    requires
        ascending(keys_of(s)),
        0 <= i <= s.len(),
        t.len() == s.len() + 1,
        t[i].0@ == k,
        t[i].1 == value,
        t == s.insert(i, t[i]),
        forall|j: int| 0 <= j < i ==> lex_lt(#[trigger] keys_of(s)[j], k),
        i < s.len() ==> lex_lt(k, keys_of(s)[i]),
    ensures
        ascending(keys_of(t)),
        map_of(t) == map_of(s).insert(k, value),
{
    let ks = keys_of(s);
    let kt = keys_of(t);
    assert forall|j: int| 0 <= j < t.len() implies kt[j] == (if j < i {
        ks[j]
    } else if j == i {
        k
    } else {
        ks[j - 1]
    }) by {
        assert(s.insert(i, t[i])[j].0@ == t[j].0@);
    }
    assert forall|a: int, b: int| 0 <= a < b < kt.len() implies lex_lt(
        #[trigger] kt[a],
        #[trigger] kt[b],
    ) by {
        if a < i && b == i {
            assert(lex_lt(ks[a], k));
        } else if a == i {
            if b - 1 > i {
                assert(lex_lt(ks[i], ks[b - 1]));
                lemma_lex_transitive(k, ks[i], ks[b - 1]);
            }
        } else if a < i && b > i {
            assert(lex_lt(ks[a], ks[b - 1]));
        } else if a > i {
            assert(lex_lt(ks[a - 1], ks[b - 1]));
        } else {
            assert(lex_lt(ks[a], ks[b]));
        }
    }
    lemma_map_at(t, i);
    assert forall|x: Seq<char>| x != k implies (#[trigger] map_of(t).dom().contains(x) <==> map_of(
        s,
    ).dom().contains(x)) && (map_of(s).dom().contains(x) ==> map_of(t)[x] == map_of(s)[x]) by {
        if map_of(t).dom().contains(x) {
            let j = kt.index_of(x);
            assert(kt[j] == x);
            let m = if j < i {
                j
            } else {
                j - 1
            };
            assert(ks[m] == x);
            lemma_map_at(s, m);
        }
        if map_of(s).dom().contains(x) {
            let m = ks.index_of(x);
            assert(ks[m] == x);
            let j = if m < i {
                m
            } else {
                m + 1
            };
            assert(kt[j] == x);
            lemma_map_at(t, j);
            lemma_map_at(s, m);
            assert(t[j].1 == s[m].1);
        }
    }
    assert(map_of(t) =~= map_of(s).insert(k, value));
}

proof fn lemma_remove_at<V>(s: Seq<(String, V)>, t: Seq<(String, V)>, i: int)
    requires
        ascending(keys_of(s)),
        0 <= i < s.len(),
        t == s.remove(i),
    ensures
        ascending(keys_of(t)),
        map_of(t) == map_of(s).remove(s[i].0@),
{
    let ks = keys_of(s);
    let kt = keys_of(t);
    let k = s[i].0@;
    lemma_ascending_distinct(ks);
    assert(ks[i] == k);
    assert forall|j: int| 0 <= j < t.len() implies kt[j] == (if j < i {
        ks[j]
    } else {
        ks[j + 1]
    }) by {
        assert(t[j] == s.remove(i)[j]);
    }
    assert forall|a: int, b: int| 0 <= a < b < kt.len() implies lex_lt(
        #[trigger] kt[a],
        #[trigger] kt[b],
    ) by {
        let a2 = if a < i {
            a
        } else {
            a + 1
        };
        let b2 = if b < i {
            b
        } else {
            b + 1
        };
        assert(lex_lt(ks[a2], ks[b2]));
    }
    assert(!kt.contains(k)) by {
        if kt.contains(k) {
            let j = kt.index_of(k);
            assert(kt[j] == k);
            let m = if j < i {
                j
            } else {
                j + 1
            };
            assert(ks[m] == ks[i]);
        }
    }
    assert forall|x: Seq<char>| x != k implies (#[trigger] map_of(t).dom().contains(x) <==> map_of(
        s,
    ).dom().contains(x)) && (map_of(s).dom().contains(x) ==> map_of(t)[x] == map_of(s)[x]) by {
        if map_of(t).dom().contains(x) {
            let j = kt.index_of(x);
            assert(kt[j] == x);
            let m = if j < i {
                j
            } else {
                j + 1
            };
            assert(ks[m] == x);
            lemma_map_at(s, m);
        }
        if map_of(s).dom().contains(x) {
            let m = ks.index_of(x);
            assert(ks[m] == x);
            let j = if m < i {
                m
            } else {
                m - 1
            };
            assert(kt[j] == x);
            lemma_map_at(t, j);
            lemma_map_at(s, m);
            assert(t[j].1 == s[m].1);
        }
    }
    assert(map_of(t) =~= map_of(s).remove(k));
}

} // verus!
