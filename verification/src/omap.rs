//! An ordered map from `u64` keys to values, kept as a vector of entries with
//! strictly increasing keys, so that walking the entries by index visits the
//! keys in ascending numeric order.

use vstd::prelude::*;

verus! {

/// A map ordered by its `u64` keys. Entries are held sorted by strictly
/// increasing key; the view is the corresponding mathematical map.
#[derive(PartialEq, Eq, Debug)]
pub struct OrderedMap<V> {
    entries: Vec<(u64, V)>,
}

impl<V> View for OrderedMap<V> {
    type V = Map<u64, V>;

    closed spec fn view(&self) -> Map<u64, V> {
        seq_to_map(self.entries@)
    }
}

/// The mathematical map holding exactly the pairs of `s` (later pairs win).
pub closed spec fn seq_to_map<V>(s: Seq<(u64, V)>) -> Map<u64, V>
    decreases s.len(),
{
    if s.len() == 0 {
        Map::empty()
    } else {
        seq_to_map(s.drop_last()).insert(s.last().0, s.last().1)
    }
}

/// The keys of `s`, in entry order.
pub open spec fn keys_of<V>(s: Seq<(u64, V)>) -> Seq<u64> {
    s.map_values(|p: (u64, V)| p.0)
}

/// The keys of `s` are strictly increasing.
pub open spec fn keys_sorted<V>(s: Seq<(u64, V)>) -> bool {
    forall|i: int, j: int| 0 <= i < j < s.len() ==> s[i].0 < s[j].0
}

proof fn lemma_seq_to_map_dom<V>(s: Seq<(u64, V)>)
    ensures
        forall|k: u64| #[trigger] seq_to_map(s).dom().contains(k) <==> keys_of(s).contains(k),
    decreases s.len(),
{
    if s.len() > 0 {
        lemma_seq_to_map_dom(s.drop_last());
        assert forall|k: u64| #[trigger] seq_to_map(s).dom().contains(k) implies keys_of(
            s,
        ).contains(k) by {
            if k == s.last().0 {
                assert(keys_of(s)[s.len() - 1] == k);
            } else {
                assert(seq_to_map(s.drop_last()).dom().contains(k));
                assert(keys_of(s.drop_last()).contains(k));
                let i = choose|i: int|
                    0 <= i < keys_of(s.drop_last()).len() && keys_of(s.drop_last())[i] == k;
                assert(keys_of(s.drop_last())[i] == s.drop_last()[i].0);
                assert(s.drop_last()[i] == s[i]);
                assert(keys_of(s)[i] == s[i].0);
            }
        }
        assert forall|k: u64| keys_of(s).contains(k) implies #[trigger] seq_to_map(
            s,
        ).dom().contains(k) by {
            let i = choose|i: int| 0 <= i < keys_of(s).len() && keys_of(s)[i] == k;
            assert(keys_of(s)[i] == s[i].0);
            if i < s.len() - 1 {
                assert(s.drop_last()[i] == s[i]);
                assert(keys_of(s.drop_last())[i] == s[i].0);
                assert(keys_of(s.drop_last()).contains(k));
                assert(seq_to_map(s.drop_last()).dom().contains(k));
            } else {
                assert(k == s.last().0);
            }
        }
    }
}

proof fn lemma_seq_to_map_get<V>(s: Seq<(u64, V)>, i: int)
    requires
        keys_sorted(s),
        0 <= i < s.len(),
    ensures
        seq_to_map(s).dom().contains(s[i].0),
        seq_to_map(s)[s[i].0] == s[i].1,
    decreases s.len(),
{
    lemma_seq_to_map_dom(s);
    assert(keys_of(s)[i] == s[i].0);
    if i < s.len() - 1 {
        assert(s[i].0 != s.last().0);
        lemma_seq_to_map_get(s.drop_last(), i);
    }
}

proof fn lemma_seq_to_map_insert<V>(s: Seq<(u64, V)>, i: int, k: u64, v: V)
    requires
        keys_sorted(s),
        0 <= i <= s.len(),
        !keys_of(s).contains(k),
    ensures
        seq_to_map(s.insert(i, (k, v))) == seq_to_map(s).insert(k, v),
    decreases s.len(),
{
    let t = s.insert(i, (k, v));
    if i == s.len() {
        assert(t.drop_last() =~= s);
        assert(t.last() == (k, v));
    } else {
        assert(t.last() == s.last());
        assert(t.drop_last() =~= s.drop_last().insert(i, (k, v)));
        assert(!keys_of(s.drop_last()).contains(k)) by {
            if keys_of(s.drop_last()).contains(k) {
                let j = choose|j: int| 0 <= j < s.len() - 1 && keys_of(s.drop_last())[j] == k;
                assert(keys_of(s)[j] == k);
            }
        }
        lemma_seq_to_map_insert(s.drop_last(), i, k, v);
        assert(keys_of(s)[s.len() - 1] == s.last().0);
        assert(k != s.last().0);
        assert(seq_to_map(s.drop_last()).insert(k, v).insert(s.last().0, s.last().1) =~= seq_to_map(
            s.drop_last(),
        ).insert(s.last().0, s.last().1).insert(k, v));
    }
}

proof fn lemma_seq_to_map_remove<V>(s: Seq<(u64, V)>, i: int)
    requires
        keys_sorted(s),
        0 <= i < s.len(),
    ensures
        seq_to_map(s.remove(i)) == seq_to_map(s).remove(s[i].0),
    decreases s.len(),
{
    let t = s.remove(i);
    lemma_seq_to_map_dom(s.remove(i));
    if i == s.len() - 1 {
        assert(t =~= s.drop_last());
        assert(!keys_of(s.drop_last()).contains(s[i].0)) by {
            if keys_of(s.drop_last()).contains(s[i].0) {
                let j = choose|j: int| 0 <= j < s.len() - 1 && keys_of(s.drop_last())[j] == s[i].0;
                assert(s[j].0 == s[i].0);
            }
        }
        lemma_seq_to_map_dom(s.drop_last());
        assert(seq_to_map(s.drop_last()).insert(s.last().0, s.last().1).remove(s[i].0)
            =~= seq_to_map(s.drop_last()));
    } else {
        assert(t.last() == s.last());
        assert(t.drop_last() =~= s.drop_last().remove(i));
        lemma_seq_to_map_remove(s.drop_last(), i);
        assert(s[i].0 != s.last().0);
        assert(seq_to_map(s.drop_last()).remove(s[i].0).insert(s.last().0, s.last().1)
            =~= seq_to_map(s.drop_last()).insert(s.last().0, s.last().1).remove(s[i].0));
    }
}

impl<V> OrderedMap<V> {
    /// The keys in entry order (ascending when well formed).
    pub closed spec fn key_seq(self) -> Seq<u64> {
        keys_of(self.entries@)
    }

    /// The entries are sorted by strictly increasing key.
    pub closed spec fn wf(self) -> bool {
        keys_sorted(self.entries@)
    }

    /// Everything a caller needs about the relation between the ordered key
    /// sequence and the map view.
    pub proof fn lemma_view(self)
        requires
            self.wf(),
        ensures
            forall|k: u64| #[trigger] self@.dom().contains(k) <==> self.key_seq().contains(k),
            forall|i: int|
                0 <= i < self.key_seq().len() ==> #[trigger] self@.dom().contains(
                    self.key_seq()[i],
                ),
            forall|i: int, j: int|
                0 <= i < j < self.key_seq().len() ==> self.key_seq()[i] < self.key_seq()[j],
    {
        lemma_seq_to_map_dom(self.entries@);
        assert forall|i: int| 0 <= i < self.key_seq().len() implies #[trigger] self@.dom().contains(
            self.key_seq()[i],
        ) by {
            assert(self.key_seq().contains(self.key_seq()[i]));
        }
    }

    /// An empty ordered map.
    pub fn new() -> (r: Self)
        ensures
            r.wf(),
            r@ == Map::<u64, V>::empty(),
            r.key_seq() == Seq::<u64>::empty(),
    {
        let r = OrderedMap { entries: Vec::new() };
        proof {
            assert(r.key_seq() =~= Seq::<u64>::empty());
        }
        r
    }

    /// How many entries the map holds.
    pub fn len(&self) -> (r: usize)
        ensures
            r == self.key_seq().len(),
    {
        self.entries.len()
    }

    /// Whether the map holds no entry.
    pub fn is_empty(&self) -> (r: bool)
        requires
            self.wf(),
        ensures
            r <==> self@ == Map::<u64, V>::empty(),
            r <==> self.key_seq().len() == 0,
    {
        proof {
            lemma_seq_to_map_dom(self.entries@);
            if self.entries@.len() == 0 {
                assert(self@ =~= Map::<u64, V>::empty());
            } else {
                assert(self.key_seq().contains(self.key_seq()[0]));
                assert(self@.dom().contains(self.key_seq()[0]));
            }
        }
        self.entries.len() == 0
    }

    /// The first index whose key is `k` or larger, and whether `k` is there.
    fn find(&self, k: u64) -> (r: (bool, usize))
        requires
            self.wf(),
        ensures
            r.1 <= self.key_seq().len(),
            forall|j: int| 0 <= j < r.1 ==> self.key_seq()[j] < k,
            r.1 < self.key_seq().len() ==> self.key_seq()[r.1 as int] >= k,
            r.0 <==> (r.1 < self.key_seq().len() && self.key_seq()[r.1 as int] == k),
    {
        let n = self.entries.len();
        let mut i: usize = 0;
        while i < n
            invariant
                self.wf(),
                n == self.key_seq().len(),
                i <= n,
                forall|j: int| 0 <= j < i ==> self.key_seq()[j] < k,
            decreases n - i,
        {
            if self.entries[i].0 >= k {
                return (self.entries[i].0 == k, i);
            }
            i = i + 1;
        }
        (false, n)
    }

    /// Whether a key is present.
    pub fn contains_key(&self, k: u64) -> (r: bool)
        requires
            self.wf(),
        ensures
            r == self@.dom().contains(k),
    {
        proof {
            lemma_seq_to_map_dom(self.entries@);
        }
        let (found, _) = self.find(k);
        proof {
            if !found && self@.dom().contains(k) {
                let j = choose|j: int| 0 <= j < self.key_seq().len() && self.key_seq()[j] == k;
            }
        }
        found
    }

    /// The value at a key, if the key is present.
    pub fn get(&self, k: u64) -> (r: Option<&V>)
        requires
            self.wf(),
        ensures
            match r {
                Some(v) => self@.dom().contains(k) && *v == self@[k],
                None => !self@.dom().contains(k),
            },
    {
        proof {
            lemma_seq_to_map_dom(self.entries@);
        }
        let (found, i) = self.find(k);
        if found {
            proof {
                lemma_seq_to_map_get(self.entries@, i as int);
            }
            Some(&self.entries[i].1)
        } else {
            proof {
                if self@.dom().contains(k) {
                    let j = choose|j: int|
                        0 <= j < self.key_seq().len() && self.key_seq()[j] == k;
                }
            }
            None
        }
    }

    /// Inserts a value at a key, returning the value previously there, if any.
    pub fn insert(&mut self, k: u64, v: V) -> (r: Option<V>)
        requires
            old(self).wf(),
        ensures
            final(self).wf(),
            final(self)@ == old(self)@.insert(k, v),
            old(self)@.dom().contains(k) ==> (r is Some && r->0 == old(self)@[k]
                && final(self).key_seq() == old(self).key_seq()),
            !old(self)@.dom().contains(k) ==> r is None,
    {
        proof {
            lemma_seq_to_map_dom(self.entries@);
        }
        let (found, i) = self.find(k);
        if found {
            proof {
                lemma_seq_to_map_get(self.entries@, i as int);
                lemma_seq_to_map_remove(self.entries@, i as int);
            }
            let entry = self.entries.remove(i);
            let old_v = entry.1;
            proof {
                lemma_seq_to_map_insert(
                    self.entries@,
                    i as int,
                    k,
                    v,
                );
                assert(!keys_of(self.entries@).contains(k)) by {
                    if keys_of(self.entries@).contains(k) {
                        let j = choose|j: int|
                            0 <= j < self.entries@.len() && keys_of(self.entries@)[j] == k;
                        if j < i {
                            assert(old(self).entries@[j].0 == k);
                        } else {
                            assert(old(self).entries@[j + 1].0 == k);
                        }
                    }
                }
            }
            self.entries.insert(i, (k, v));
            proof {
                assert(keys_of(self.entries@) =~= keys_of(old(self).entries@));
                assert(self@ =~= old(self)@.insert(k, v));
            }
            Some(old_v)
        } else {
            proof {
                assert(!keys_of(self.entries@).contains(k)) by {
                    if keys_of(self.entries@).contains(k) {
                        let j = choose|j: int|
                            0 <= j < self.entries@.len() && keys_of(self.entries@)[j] == k;
                    }
                }
                lemma_seq_to_map_insert(self.entries@, i as int, k, v);
            }
            self.entries.insert(i, (k, v));
            proof {
                let s_old = old(self).entries@;
                let s_new = self.entries@;
                let ii = i as int;
                assert(keys_sorted(s_new)) by {
                    assert forall|a: int, b: int| 0 <= a < b < s_new.len() implies s_new[a].0
                        < s_new[b].0 by {
                        assert(forall|x: int| 0 <= x < ii ==> s_new[x] == s_old[x]);
                        assert(forall|x: int|
                            ii < x < s_new.len() ==> s_new[x] == s_old[x - 1]);
                        assert(forall|x: int|
                            0 <= x < ii ==> #[trigger] s_old[x].0 == old(self).key_seq()[x]);
                        assert(forall|x: int|
                            ii <= x < s_old.len() ==> #[trigger] s_old[x].0 == old(
                                self,
                            ).key_seq()[x]);
                        if ii < s_old.len() {
                            assert(old(self).key_seq()[ii] >= k);
                            assert(old(self).key_seq()[ii] != k) by {
                                if s_old[ii].0 == k {
                                    assert(old(self).key_seq()[ii] == k);
                                }
                            }
                        }
                        if b == ii {
                            assert(s_new[a] == s_old[a]);
                            assert(old(self).key_seq()[a] < k);
                        } else if a == ii {
                            assert(s_new[b] == s_old[b - 1]);
                            assert(s_old[b - 1].0 >= s_old[ii].0);
                        } else if a < ii && b > ii {
                            assert(s_new[a] == s_old[a]);
                            assert(s_new[b] == s_old[b - 1]);
                            assert(s_old[a].0 < k);
                            assert(s_old[b - 1].0 >= s_old[ii].0);
                        }
                    }
                }
            }
            None
        }
    }

    /// Removes the entry at a key, returning its value if the key was present.
    pub fn remove(&mut self, k: u64) -> (r: Option<V>)
        requires
            old(self).wf(),
        ensures
            final(self).wf(),
            final(self)@ == old(self)@.remove(k),
            old(self)@.dom().contains(k) ==> (r is Some && r->0 == old(self)@[k]),
            !old(self)@.dom().contains(k) ==> (r is None && *final(self) == *old(self)),
    {
        proof {
            lemma_seq_to_map_dom(self.entries@);
        }
        let (found, i) = self.find(k);
        if found {
            proof {
                lemma_seq_to_map_get(self.entries@, i as int);
                lemma_seq_to_map_remove(self.entries@, i as int);
            }
            let entry = self.entries.remove(i);
            proof {
                assert(keys_sorted(self.entries@));
            }
            Some(entry.1)
        } else {
            proof {
                if self@.dom().contains(k) {
                    let j = choose|j: int|
                        0 <= j < self.key_seq().len() && self.key_seq()[j] == k;
                }
                assert(old(self)@.remove(k) =~= old(self)@);
            }
            None
        }
    }

    /// The key at an index, counting in ascending key order.
    pub fn key_at(&self, i: usize) -> (r: u64)
        requires
            self.wf(),
            i < self.key_seq().len(),
        ensures
            r == self.key_seq()[i as int],
            self@.dom().contains(r),
    {
        proof {
            lemma_seq_to_map_get(self.entries@, i as int);
        }
        self.entries[i].0
    }

    /// The value at an index, counting in ascending key order.
    pub fn val_at(&self, i: usize) -> (r: &V)
        requires
            self.wf(),
            i < self.key_seq().len(),
        ensures
            self@.dom().contains(self.key_seq()[i as int]),
            *r == self@[self.key_seq()[i as int]],
    {
        proof {
            lemma_seq_to_map_get(self.entries@, i as int);
        }
        &self.entries[i].1
    }

    /// An exact copy of a map of copyable values.
    pub fn duplicate(&self) -> (r: Self) where V: Copy
        ensures
            r@ == self@,
            r.key_seq() == self.key_seq(),
            r.wf() <==> self.wf(),
    {
        let mut entries: Vec<(u64, V)> = Vec::new();
        let n = self.entries.len();
        let mut i: usize = 0;
        while i < n
            invariant
                i <= n,
                n == self.entries@.len(),
                entries@ == self.entries@.take(i as int),
            decreases n - i,
        {
            let pair = (self.entries[i].0, self.entries[i].1);
            entries.push(pair);
            proof {
                assert(self.entries@[i as int] == pair);
                assert(entries@ =~= self.entries@.take(i as int + 1));
            }
            i = i + 1;
        }
        proof {
            assert(self.entries@.take(n as int) =~= self.entries@);
        }
        let r = OrderedMap { entries };
        proof {
            assert(r.key_seq() =~= self.key_seq());
        }
        r
    }

    /// Appends an entry whose key is larger than every key present.
    pub fn append_entry(&mut self, k: u64, v: V)
        requires
            old(self).wf(),
            forall|j: int| 0 <= j < old(self).key_seq().len() ==> old(self).key_seq()[j] < k,
        ensures
            final(self).wf(),
            final(self)@ == old(self)@.insert(k, v),
            final(self).key_seq() == old(self).key_seq().push(k),
    {
        proof {
            assert(!keys_of(self.entries@).contains(k)) by {
                if keys_of(self.entries@).contains(k) {
                    let j = choose|j: int|
                        0 <= j < self.entries@.len() && keys_of(self.entries@)[j] == k;
                    assert(old(self).key_seq()[j] < k);
                }
            }
            lemma_seq_to_map_insert(self.entries@, self.entries@.len() as int, k, v);
            assert(self.entries@.insert(self.entries@.len() as int, (k, v)) =~= self.entries@.push(
                (k, v),
            ));
        }
        self.entries.push((k, v));
        proof {
            let s_old = old(self).entries@;
            let s_new = self.entries@;
            assert(self.key_seq() =~= old(self).key_seq().push(k));
            assert(keys_sorted(s_new)) by {
                assert forall|a: int, b: int| 0 <= a < b < s_new.len() implies s_new[a].0
                    < s_new[b].0 by {
                    if b < s_new.len() - 1 {
                        assert(s_new[a] == s_old[a] && s_new[b] == s_old[b]);
                    } else {
                        assert(s_new[a] == s_old[a]);
                        assert(s_old[a].0 == old(self).key_seq()[a]);
                        assert(old(self).key_seq()[a] < k);
                    }
                }
            }
        }
    }
}

} // verus!
