//! An ordered set of `u64` keys, kept as a vector sorted by strictly
//! increasing value, so that walking by index visits keys in ascending order.

use vstd::prelude::*;

verus! {

/// A set of `u64` keys held in strictly increasing order.
#[derive(PartialEq, Eq, Debug)]
pub struct OrderedSet {
    keys: Vec<u64>,
}

impl Clone for OrderedSet {
    /// An exact copy.
    fn clone(&self) -> (r: Self)
        ensures
            r@ == self@,
            r.key_seq() == self.key_seq(),
            r.wf() <==> self.wf(),
    {
        let r = OrderedSet { keys: self.keys.clone() };
        proof {
            assert forall|i: int| 0 <= i < r.keys@.len() implies r.keys@[i] == self.keys@[i] by {}
            assert(r.keys@ =~= self.keys@);
            assert(r@ =~= self@);
        }
        r
    }
}

impl View for OrderedSet {
    type V = Set<u64>;

    closed spec fn view(&self) -> Set<u64> {
        Set::new(|k: u64| self.keys@.contains(k))
    }
}

impl OrderedSet {
    /// The keys in entry order (ascending when well formed).
    pub closed spec fn key_seq(self) -> Seq<u64> {
        self.keys@
    }

    /// The keys are strictly increasing.
    pub open spec fn wf(self) -> bool {
        forall|i: int, j: int|
            0 <= i < j < self.key_seq().len() ==> self.key_seq()[i] < self.key_seq()[j]
    }

    /// The view holds exactly the keys of the ordered sequence.
    pub proof fn lemma_view(self)
        ensures
            forall|k: u64| #[trigger] self@.contains(k) <==> self.key_seq().contains(k),
    {
    }

    /// An empty ordered set.
    pub fn new() -> (r: Self)
        ensures
            r.wf(),
            r@ == Set::<u64>::empty(),
            r.key_seq() == Seq::<u64>::empty(),
    {
        let r = OrderedSet { keys: Vec::new() };
        proof {
            assert(r.key_seq() =~= Seq::<u64>::empty());
            assert(r@ =~= Set::<u64>::empty());
        }
        r
    }

    /// How many keys the set holds.
    pub fn len(&self) -> (r: usize)
        ensures
            r == self.key_seq().len(),
    {
        self.keys.len()
    }

    /// Whether the set holds no key.
    pub fn is_empty(&self) -> (r: bool)
        ensures
            r <==> self@ == Set::<u64>::empty(),
            r <==> self.key_seq().len() == 0,
    {
        proof {
            if self.keys@.len() == 0 {
                assert(self@ =~= Set::<u64>::empty());
            } else {
                assert(self.keys@.contains(self.keys@[0]));
                assert(self@.contains(self.keys@[0]));
            }
        }
        self.keys.len() == 0
    }

    /// The first index whose key is `k` or larger, and whether `k` is there.
    fn find(&self, k: u64) -> (r: (bool, usize))
        requires
            self.wf(),
        ensures
            r.1 <= self.key_seq().len(),
            forall|j: int| 0 <= j < r.1 ==> self.key_seq()[j] < k,
            r.1 < self.key_seq().len() ==> self.key_seq()[r.1 as int] >= k,
            r.0 <==> (r.1 < self.key_seq().len() && self.key_seq()[r.1 as int] == k),
    {
        let n = self.keys.len();
        let mut i: usize = 0;
        while i < n
            invariant
                self.wf(),
                n == self.key_seq().len(),
                i <= n,
                forall|j: int| 0 <= j < i ==> self.key_seq()[j] < k,
            decreases n - i,
        {
            if self.keys[i] >= k {
                return (self.keys[i] == k, i);
            }
            i = i + 1;
        }
        (false, n)
    }

    /// Whether a key is present.
    pub fn contains(&self, k: u64) -> (r: bool)
        requires
            self.wf(),
        ensures
            r == self@.contains(k),
    {
        let (found, _) = self.find(k);
        proof {
            if found {
                assert(self.key_seq().contains(k));
            } else if self@.contains(k) {
                let j = choose|j: int| 0 <= j < self.key_seq().len() && self.key_seq()[j] == k;
            }
        }
        found
    }

    /// Inserts a key; reports whether it was newly added.
    pub fn insert(&mut self, k: u64) -> (r: bool)
        requires
            old(self).wf(),
        ensures
            final(self).wf(),
            final(self)@ == old(self)@.insert(k),
            r <==> !old(self)@.contains(k),
            !r ==> *final(self) == *old(self),
    {
        let (found, i) = self.find(k);
        if found {
            proof {
                assert(self.key_seq().contains(k));
                assert(old(self)@.insert(k) =~= old(self)@);
            }
            false
        } else {
            proof {
                if self@.contains(k) {
                    let j = choose|j: int|
                        0 <= j < self.key_seq().len() && self.key_seq()[j] == k;
                }
            }
            self.keys.insert(i, k);
            proof {
                let s_old = old(self).key_seq();
                let s_new = self.key_seq();
                let ii = i as int;
                assert(final(self).wf()) by {
                    assert forall|a: int, b: int| 0 <= a < b < s_new.len() implies s_new[a]
                        < s_new[b] by {
                        assert(forall|x: int| 0 <= x < ii ==> s_new[x] == s_old[x]);
                        assert(forall|x: int| ii < x < s_new.len() ==> s_new[x] == s_old[x - 1]);
                        if ii < s_old.len() {
                            assert(s_old[ii] >= k);
                            assert(s_old[ii] != k) by {
                                if s_old[ii] == k {
                                    assert(old(self).key_seq().contains(k));
                                }
                            }
                        }
                        if a < ii && b > ii {
                            assert(s_old[b - 1] >= s_old[ii]);
                        }
                    }
                }
                assert(final(self)@ =~= old(self)@.insert(k)) by {
                    assert forall|x: u64| self.key_seq().contains(x) implies (x == k || old(
                        self,
                    ).key_seq().contains(x)) by {
                        let j = choose|j: int|
                            0 <= j < self.key_seq().len() && self.key_seq()[j] == x;
                        if j != ii {
                            if j < ii {
                                assert(s_old[j] == x);
                            } else {
                                assert(s_old[j - 1] == x);
                            }
                        }
                    }
                    assert forall|x: u64| old(self).key_seq().contains(x) implies
                        self.key_seq().contains(x) by {
                        let j = choose|j: int| 0 <= j < s_old.len() && s_old[j] == x;
                        if j < ii {
                            assert(s_new[j] == x);
                        } else {
                            assert(s_new[j + 1] == x);
                        }
                    }
                    assert(s_new[ii] == k);
                    assert(self.key_seq().contains(k));
                }
            }
            true
        }
    }

    /// Removes a key; reports whether it was present.
    pub fn remove(&mut self, k: u64) -> (r: bool)
        requires
            old(self).wf(),
        ensures
            final(self).wf(),
            final(self)@ == old(self)@.remove(k),
            r <==> old(self)@.contains(k),
            !r ==> *final(self) == *old(self),
    {
        let (found, i) = self.find(k);
        if found {
            proof {
                assert(self.key_seq().contains(k));
            }
            self.keys.remove(i);
            proof {
                let s_old = old(self).key_seq();
                let s_new = self.key_seq();
                let ii = i as int;
                assert(forall|x: int| 0 <= x < ii ==> s_new[x] == s_old[x]);
                assert(forall|x: int| ii <= x < s_new.len() ==> s_new[x] == s_old[x + 1]);
                assert(final(self)@ =~= old(self)@.remove(k)) by {
                    assert forall|x: u64| self.key_seq().contains(x) implies (x != k && old(
                        self,
                    ).key_seq().contains(x)) by {
                        let j = choose|j: int| 0 <= j < s_new.len() && s_new[j] == x;
                        if j < ii {
                            assert(s_old[j] == x);
                            assert(x < s_old[ii]);
                        } else {
                            assert(s_old[j + 1] == x);
                            assert(x > s_old[ii]);
                        }
                    }
                    assert forall|x: u64| old(self).key_seq().contains(x) && x != k implies
                        self.key_seq().contains(x) by {
                        let j = choose|j: int| 0 <= j < s_old.len() && s_old[j] == x;
                        if j < ii {
                            assert(s_new[j] == x);
                        } else {
                            assert(j != ii);
                            assert(s_new[j - 1] == x);
                        }
                    }
                }
            }
            true
        } else {
            proof {
                if self@.contains(k) {
                    let j = choose|j: int|
                        0 <= j < self.key_seq().len() && self.key_seq()[j] == k;
                }
                assert(old(self)@.remove(k) =~= old(self)@);
            }
            false
        }
    }

    /// The key at an index, counting in ascending order.
    pub fn key_at(&self, i: usize) -> (r: u64)
        requires
            self.wf(),
            i < self.key_seq().len(),
        ensures
            r == self.key_seq()[i as int],
            self@.contains(r),
    {
        proof {
            assert(self.key_seq().contains(self.key_seq()[i as int]));
        }
        self.keys[i]
    }
}

} // verus!
