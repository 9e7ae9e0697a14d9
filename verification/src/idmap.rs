//! A map from 32-bit identifiers, held as a vector sorted by identifier.

use vstd::prelude::*;

verus! {

/// A map from identifiers to values, in ascending order.
#[derive(Debug)]
pub struct IdMap<V> {
    entries: Vec<(u32, V)>,
}

/// The identifiers of a sequence of entries, in order.
pub open spec fn ids_of<V>(s: Seq<(u32, V)>) -> Seq<u32> {
    Seq::new(s.len(), |i: int| s[i].0)
}

/// Whether identifiers ascend, so that none occurs twice.
pub open spec fn ascending(ids: Seq<u32>) -> bool {
    forall|i: int, j: int| 0 <= i < j < ids.len() ==> #[trigger] ids[i] < #[trigger] ids[j]
}

/// The map that a sequence of entries stands for.
pub open spec fn map_of<V>(s: Seq<(u32, V)>) -> Map<u32, V> {
    Map::new(|k: u32| ids_of(s).contains(k), |k: u32| s[ids_of(s).index_of(k)].1)
}

/// The value at position `i` is the value of its identifier.
pub proof fn lemma_map_at<V>(s: Seq<(u32, V)>, i: int)
    requires
        ascending(ids_of(s)),
        0 <= i < s.len(),
    ensures
        map_of(s).dom().contains(s[i].0),
        map_of(s)[s[i].0] == s[i].1,
        ids_of(s)[i] == s[i].0,
{
    let ids = ids_of(s);
    assert(ids[i] == s[i].0);
    assert(ids.contains(s[i].0));
    let j = ids.index_of(s[i].0);
    assert(ids[j] == ids[i]);
}

/// Ascending identifiers from `low` on, and below `high`, are no more than the numbers between.
pub proof fn lemma_ascending_len(ids: Seq<u32>, low: int, high: int)
    requires
        ascending(ids),
        forall|i: int| 0 <= i < ids.len() ==> low <= #[trigger] ids[i] < high,
    ensures
        ids.len() == 0 || ids.len() <= high - low,
        forall|i: int| 0 <= i < ids.len() ==> low + i <= #[trigger] ids[i],
    decreases ids.len(),
{
    if ids.len() > 0 {
        let front = ids.drop_last();
        assert forall|i: int, j: int| 0 <= i < j < front.len() implies #[trigger] front[i]
            < #[trigger] front[j] by {
            assert(ids[i] < ids[j]);
        }
        lemma_ascending_len(front, low, high);
        let n = ids.len() - 1;
        if n > 0 {
            assert(front[n - 1] == ids[n - 1]);
            assert(ids[n - 1] < ids[n]);
        }
        assert forall|i: int| 0 <= i < ids.len() implies low + i <= #[trigger] ids[i] by {
            if i < n {
                assert(front[i] == ids[i]);
            }
        }
    }
}

impl<V> IdMap<V> {
    /// The entries in order.
    pub closed spec fn entries_spec(&self) -> Seq<(u32, V)> {
        self.entries@
    }

    /// The identifiers, in ascending order.
    pub open spec fn ids_spec(&self) -> Seq<u32> {
        ids_of(self.entries_spec())
    }

    /// Identifiers ascend, so that each occurs once.
    pub open spec fn wf(&self) -> bool {
        ascending(self.ids_spec())
    }
}

impl<V> View for IdMap<V> {
    type V = Map<u32, V>;

    open spec fn view(&self) -> Map<u32, V> {
        map_of(self.entries_spec())
    }
}

impl<V> IdMap<V> {
    /// The identifiers list the domain of the map, each once.
    pub proof fn lemma_ids(&self)
        requires
            self.wf(),
        ensures
            self.ids_spec().no_duplicates(),
            self.ids_spec().len() == self.entries_spec().len(),
            forall|k: u32| #[trigger] self.ids_spec().contains(k) <==> self@.dom().contains(k),
            forall|i: int|
                #![trigger self.entries_spec()[i]]
                0 <= i < self.entries_spec().len() ==> self.ids_spec()[i]
                    == self.entries_spec()[i].0 && self@.dom().contains(self.ids_spec()[i])
                    && self@[self.ids_spec()[i]] == self.entries_spec()[i].1,
    {
        assert forall|i: int|
            #![trigger self.entries_spec()[i]]
            0 <= i < self.entries_spec().len() implies self.ids_spec()[i]
            == self.entries_spec()[i].0 && self@.dom().contains(self.ids_spec()[i])
            && self@[self.ids_spec()[i]] == self.entries_spec()[i].1 by {
            lemma_map_at(self.entries_spec(), i);
        }
    }

    /// The domain is finite, and there are as many entries as it has elements.
    pub proof fn lemma_len(&self)
        requires
            self.wf(),
        ensures
            self@.dom().finite(),
            self@.dom().len() == self.entries_spec().len(),
    {
        self.lemma_ids();
        self.ids_spec().unique_seq_to_set();
        assert(self@.dom() =~= self.ids_spec().to_set());
        vstd::seq_lib::seq_to_set_is_finite(self.ids_spec());
    }

    /// The empty map.
    pub fn new() -> (r: Self)
        ensures
            r.wf(),
            r@ == Map::<u32, V>::empty(),
    {
        let r = IdMap { entries: Vec::new() };
        assert(r@ =~= Map::<u32, V>::empty());
        r
    }

    /// The number of entries.
    pub fn len(&self) -> (r: usize)
        ensures
            r == self.entries_spec().len(),
    {
        self.entries.len()
    }

    /// The identifier at position `i`.
    pub fn id_at(&self, i: usize) -> (r: u32)
        requires
            i < self.entries_spec().len(),
        ensures
            r == self.entries_spec()[i as int].0,
    {
        self.entries[i].0
    }

    /// The value at position `i`.
    pub fn value_at(&self, i: usize) -> (r: &V)
        requires
            i < self.entries_spec().len(),
        ensures
            *r == self.entries_spec()[i as int].1,
    {
        &self.entries[i].1
    }

    /// The position of the first entry whose identifier is not below `id`.
    fn lower_bound(&self, id: u32) -> (r: usize)
        requires
            self.wf(),
        ensures
            r <= self.entries_spec().len(),
            forall|i: int| 0 <= i < r ==> #[trigger] self.ids_spec()[i] < id,
            r < self.entries_spec().len() ==> self.ids_spec()[r as int] >= id,
    {
        let ghost ids = self.ids_spec();
        let mut low: usize = 0;
        let mut high: usize = self.entries.len();
        while low < high
            invariant
                self.wf(),
                ids == self.ids_spec(),
                low <= high <= self.entries@.len(),
                forall|j: int| 0 <= j < low ==> #[trigger] ids[j] < id,
                high < self.entries@.len() ==> ids[high as int] >= id,
            decreases high - low,
        {
            let mid: usize = low + (high - low) / 2;
            assert(ids[mid as int] == self.entries@[mid as int].0);
            if self.entries[mid].0 < id {
                proof {
                    assert forall|j: int| 0 <= j < mid + 1 implies #[trigger] ids[j] < id by {
                        if j < mid {
                            assert(ids[j] < ids[mid as int]);
                        }
                    }
                }
                low = mid + 1;
            } else {
                high = mid;
            }
        }
        low
    }

    /// The position of an identifier.
    pub fn position(&self, id: u32) -> (r: Option<usize>)
        requires
            self.wf(),
        ensures
            match r {
                Some(i) => i < self.entries_spec().len() && self.entries_spec()[i as int].0 == id
                    && self@.dom().contains(id) && self@[id] == self.entries_spec()[i as int].1,
                None => !self@.dom().contains(id),
            },
    {
        let i = self.lower_bound(id);
        if i < self.entries.len() && self.entries[i].0 == id {
            proof {
                lemma_map_at(self.entries@, i as int);
            }
            return Some(i);
        }
        proof {
            lemma_absent(self.ids_spec(), id, i as int);
        }
        None
    }

    /// The value of an identifier.
    pub fn get(&self, id: u32) -> (r: Option<&V>)
        requires
            self.wf(),
        ensures
            match r {
                Some(v) => self@.dom().contains(id) && *v == self@[id],
                None => !self@.dom().contains(id),
            },
    {
        match self.position(id) {
            Some(i) => Some(&self.entries[i].1),
            None => None,
        }
    }

    /// Whether the map has a value for an identifier.
    pub fn contains_id(&self, id: u32) -> (r: bool)
        requires
            self.wf(),
        ensures
            r == self@.dom().contains(id),
    {
        self.position(id).is_some()
    }

    /// Sets the value of an identifier. A value that it had is dropped.
    pub fn insert(&mut self, id: u32, value: V)
        requires
            old(self).wf(),
        ensures
            final(self).wf(),
            final(self)@ == old(self)@.insert(id, value),
    {
        let ghost s = self.entries@;
        let i = self.lower_bound(id);
        if i < self.entries.len() && self.entries[i].0 == id {
            self.entries[i].1 = value;
            let ghost t = self.entries@;
            proof {
                lemma_map_at(s, i as int);
                assert(ids_of(t) =~= ids_of(s));
                lemma_map_at(t, i as int);
                assert forall|x: u32| map_of(t).dom().contains(x) && x != id implies map_of(t)[x]
                    == map_of(s)[x] by {
                    let j = ids_of(t).index_of(x);
                    assert(ids_of(t)[j] == x);
                    lemma_map_at(s, j);
                    lemma_map_at(t, j);
                }
                assert(map_of(t) =~= map_of(s).insert(id, value));
            }
        } else {
            self.entries.insert(i, (id, value));
            let ghost t = self.entries@;
            proof {
                lemma_insert_at(s, t, i as int, id, value);
            }
        }
    }

    /// Removes an identifier, and hands back its value.
    pub fn remove(&mut self, id: u32) -> (r: Option<V>)
        requires
            old(self).wf(),
        ensures
            final(self).wf(),
            final(self)@ == old(self)@.remove(id),
            match r {
                Some(v) => old(self)@.dom().contains(id) && v == old(self)@[id],
                None => !old(self)@.dom().contains(id),
            },
    {
        let ghost s = self.entries@;
        match self.position(id) {
            Some(i) => {
                let (_, v) = self.entries.remove(i);
                let ghost t = self.entries@;
                proof {
                    lemma_remove_at(s, t, i as int);
                }
                Some(v)
            },
            None => {
                assert(self@ =~= old(self)@.remove(id));
                None
            },
        }
    }
}

/// An identifier that lies strictly between two neighbours is not there.
proof fn lemma_absent(ids: Seq<u32>, k: u32, i: int)
    requires
        ascending(ids),
        0 <= i <= ids.len(),
        forall|j: int| 0 <= j < i ==> #[trigger] ids[j] < k,
        i < ids.len() ==> ids[i] > k,
    ensures
        !ids.contains(k),
{
    if ids.contains(k) {
        let j = ids.index_of(k);
        assert(ids[j] == k);
        if i < j {
            assert(ids[i] < ids[j]);
        }
        assert(false);
    }
}

proof fn lemma_insert_at<V>(
    s: Seq<(u32, V)>,
    t: Seq<(u32, V)>,
    i: int,
    k: u32,
    value: V,
)
    requires
        ascending(ids_of(s)),
        0 <= i <= s.len(),
        t.len() == s.len() + 1,
        t[i].0 == k,
        t[i].1 == value,
        t == s.insert(i, t[i]),
        forall|j: int| 0 <= j < i ==> #[trigger] ids_of(s)[j] < k,
        i < s.len() ==> k < ids_of(s)[i],
    ensures
        ascending(ids_of(t)),
        map_of(t) == map_of(s).insert(k, value),
{
    let ks = ids_of(s);
    let kt = ids_of(t);
    assert forall|j: int| 0 <= j < t.len() implies kt[j] == (if j < i {
        ks[j]
    } else if j == i {
        k
    } else {
        ks[j - 1]
    }) by {
        assert(s.insert(i, t[i])[j].0 == t[j].0);
    }
    assert forall|a: int, b: int| 0 <= a < b < kt.len() implies #[trigger] kt[a] < #[trigger] kt[b] by {
        if a < i && b == i {
            assert(ks[a] < k);
        } else if a == i {
            if b - 1 > i {
                assert(ks[i] < ks[b - 1]);
            }
        } else if a < i && b > i {
            assert(ks[a] < ks[b - 1]);
        } else if a > i {
            assert(ks[a - 1] < ks[b - 1]);
        } else {
            assert(ks[a] < ks[b]);
        }
    }
    lemma_map_at(t, i);
    assert forall|x: u32| x != k implies (#[trigger] map_of(t).dom().contains(x) <==> map_of(
        s,
    ).dom().contains(x)) && (map_of(s).dom().contains(x) ==> map_of(t)[x] == map_of(s)[x]) by {
        if map_of(t).dom().contains(x) {
            let j = kt.index_of(x);
            assert(kt[j] == x);
            let m = if j < i {
                j
            } else {
                j - 1
            };
            assert(ks[m] == x);
            lemma_map_at(s, m);
        }
        if map_of(s).dom().contains(x) {
            let m = ks.index_of(x);
            assert(ks[m] == x);
            let j = if m < i {
                m
            } else {
                m + 1
            };
            assert(kt[j] == x);
            lemma_map_at(t, j);
            lemma_map_at(s, m);
            assert(t[j].1 == s[m].1);
        }
    }
    assert(map_of(t) =~= map_of(s).insert(k, value));
}

proof fn lemma_remove_at<V>(s: Seq<(u32, V)>, t: Seq<(u32, V)>, i: int)
    requires
        ascending(ids_of(s)),
        0 <= i < s.len(),
        t == s.remove(i),
    ensures
        ascending(ids_of(t)),
        map_of(t) == map_of(s).remove(s[i].0),
{
    let ks = ids_of(s);
    let kt = ids_of(t);
    let k = s[i].0;
    assert(ks[i] == k);
    assert forall|j: int| 0 <= j < t.len() implies kt[j] == (if j < i {
        ks[j]
    } else {
        ks[j + 1]
    }) by {
        assert(t[j] == s.remove(i)[j]);
    }
    assert forall|a: int, b: int| 0 <= a < b < kt.len() implies #[trigger] kt[a] < #[trigger] kt[b] by {
        let a2 = if a < i {
            a
        } else {
            a + 1
        };
        let b2 = if b < i {
            b
        } else {
            b + 1
        };
        assert(ks[a2] < ks[b2]);
    }
    assert(!kt.contains(k)) by {
        if kt.contains(k) {
            let j = kt.index_of(k);
            assert(kt[j] == k);
            let m = if j < i {
                j
            } else {
                j + 1
            };
            assert(ks[m] == ks[i]);
        }
    }
    assert forall|x: u32| x != k implies (#[trigger] map_of(t).dom().contains(x) <==> map_of(
        s,
    ).dom().contains(x)) && (map_of(s).dom().contains(x) ==> map_of(t)[x] == map_of(s)[x]) by {
        if map_of(t).dom().contains(x) {
            let j = kt.index_of(x);
            assert(kt[j] == x);
            let m = if j < i {
                j
            } else {
                j + 1
            };
            assert(ks[m] == x);
            lemma_map_at(s, m);
        }
        if map_of(s).dom().contains(x) {
            let m = ks.index_of(x);
            assert(ks[m] == x);
            let j = if m < i {
                m
            } else {
                m - 1
            };
            assert(kt[j] == x);
            lemma_map_at(t, j);
            lemma_map_at(s, m);
            assert(t[j].1 == s[m].1);
        }
    }
    assert(map_of(t) =~= map_of(s).remove(k));
}

} // verus!
