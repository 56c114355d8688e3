//! The adaptive replacement cache.
use crate::model::{
    lemma_access_keeps_invariant, lemma_make_room, lemma_promote, lemma_replace,
    lemma_value_replaced, ArcModel,
};
use crate::pseudo_lru::{lemma_ops, lemma_ops_valued, CacheError, PseudoLru};
use vstd::prelude::*;

verus! {

/// Where a key stands in the cache.
#[derive(Debug, Clone, Copy, PartialEq, Eq, Structural)]
pub enum Place {
    /// Resident, seen once.
    Recent,
    /// Resident, seen at least twice.
    Frequent,
    /// Recently evicted from the recent entries.
    RecentHistory,
    /// Recently evicted from the frequent entries.
    FrequentHistory,
    /// Not known to the cache.
    Absent,
}

/// A cache of at most `capacity` values keyed by `u64`, evicting by the
/// adaptive replacement policy.
pub struct Arc<V> {
    recency: PseudoLru<V>,
    frequency: PseudoLru<V>,
    recency_history: PseudoLru<()>,
    frequency_history: PseudoLru<()>,
    partition: usize,
    capacity: usize,
}

impl<V> View for Arc<V> {
    type V = ArcModel<V>;

    closed spec fn view(&self) -> ArcModel<V> {
        ArcModel {
            t1: self.recency@,
            t2: self.frequency@,
            b1: self.recency_history@,
            b2: self.frequency_history@,
            p: self.partition as int,
            c: self.capacity as int,
        }
    }
}

impl<V> Arc<V> {
    pub open spec fn wf(&self) -> bool {
        self@.inv()
    }

    /// An empty cache holding at most `capacity` values, with the partition
    /// at half of it; a capacity of zero is refused.
    pub fn new(capacity: usize) -> (r: Result<Arc<V>, CacheError>)
        ensures
            capacity == 0 <==> r is Err,
            r matches Err(e) ==> e == CacheError::InvalidCapacity,
            r matches Ok(a) ==> {
                &&& a.wf()
                &&& a@.c == capacity && a@.p == capacity / 2
                &&& a@.t1.keys.len() == 0 && a@.t2.keys.len() == 0
                &&& a@.b1.keys.len() == 0 && a@.b2.keys.len() == 0
            },
    {
        let t1 = match PseudoLru::new(capacity) {
            Ok(l) => l,
            Err(e) => return Err(e),
        };
        let t2 = match PseudoLru::new(capacity) {
            Ok(l) => l,
            Err(e) => return Err(e),
        };
        let b1 = match PseudoLru::new(capacity) {
            Ok(l) => l,
            Err(e) => return Err(e),
        };
        let b2 = match PseudoLru::new(capacity) {
            Ok(l) => l,
            Err(e) => return Err(e),
        };
        let a = Arc {
            recency: t1,
            frequency: t2,
            recency_history: b1,
            frequency_history: b2,
            partition: capacity / 2,
            capacity,
        };
        assert forall|x: u64| #[trigger] a@.lists_holding(x) <= 1 by {
            assert(!a@.t1.keys.contains(x));
            assert(!a@.t2.keys.contains(x));
            assert(!a@.b1.keys.contains(x));
            assert(!a@.b2.keys.contains(x));
        }
        Ok(a)
    }

    /// Accesses `k` with the value `v`: a resident key takes `v` and moves to
    /// the frequency list, and its previous value is returned; a key in
    /// history adapts the partition and comes back into the frequency list;
    /// any other key enters the recency list, after room is made.
    pub fn insert(&mut self, k: u64, v: V) -> (r: Option<V>)
        requires
            old(self).wf(),
        ensures
            final(self).wf(),
            final(self)@ == old(self)@.access(k, v),
            r == (if old(self)@.resident(k) {
                Some(old(self)@.value(k))
            } else {
                None
            }),
    {
        let ghost m = self@;
        proof {
            lemma_access_keeps_invariant(m, k, v);
            assert(m.lists_holding(k) <= 1);
        }
        if self.recency.contains(k) {
            proof {
                lemma_ops(m.t1, k, v);
                lemma_ops_valued(m.t1, k, v);
            }
            let prev = self.recency.remove(k);
            proof {
                let n = ArcModel { t1: m.t1.without(k), ..m };
                assert(self@ == n);
                assert forall|x: u64| #[trigger] n.lists_holding(x) <= 1 by {
                    assert(m.lists_holding(x) <= 1);
                    assert(n.t1.has(x) == (m.t1.has(x) && x != k));
                }
            }
            self.promote(k, v);
            prev
        } else if self.frequency.contains(k) {
            self.frequency.insert(k, v).replacement()
        } else if self.recency_history.contains(k) {
            self.grow_partition();
            proof {
                lemma_ops(m.b1, k, ());
                lemma_ops_valued(m.b1, k, ());
            }
            self.recency_history.remove(k);
            let ghost n = self@;
            proof {
                assert(n == ArcModel { b1: m.b1.without(k), p: m.grown_partition(), ..m });
                assert forall|x: u64| #[trigger] n.lists_holding(x) <= 1 by {
                    assert(m.lists_holding(x) <= 1);
                    assert(n.b1.has(x) == (m.b1.has(x) && x != k));
                }
                lemma_replace(n, false);
                assert(n.replace(false).lists_holding(k) == n.lists_holding(k));
            }
            self.replace(false);
            self.promote(k, v);
            None
        } else if self.frequency_history.contains(k) {
            self.shrink_partition();
            proof {
                lemma_ops(m.b2, k, ());
                lemma_ops_valued(m.b2, k, ());
            }
            self.frequency_history.remove(k);
            let ghost n = self@;
            proof {
                assert(n == ArcModel { b2: m.b2.without(k), p: m.shrunk_partition(), ..m });
                assert forall|x: u64| #[trigger] n.lists_holding(x) <= 1 by {
                    assert(m.lists_holding(x) <= 1);
                    assert(n.b2.has(x) == (m.b2.has(x) && x != k));
                }
                lemma_replace(n, true);
                assert(n.replace(true).lists_holding(k) == n.lists_holding(k));
            }
            self.replace(true);
            self.promote(k, v);
            None
        } else {
            self.make_room();
            proof {
                lemma_make_room(m);
                assert(!self@.t1.has(k)) by {
                    assert(!m.known(k));
                }
            }
            self.recency.insert(k, v);
            None
        }
    }

    /// Counts an access to a resident key that keeps its value: the key
    /// ends as the most recently touched entry of the frequency list.
    fn hit(&mut self, k: u64)
        requires
            old(self).wf(),
            old(self)@.resident(k),
        ensures
            final(self).wf(),
            final(self)@ == old(self)@.access(k, old(self)@.value(k)),
            final(self)@.t2.has(k),
    {
        let ghost m = self@;
        let ghost v = m.value(k);
        proof {
            lemma_access_keeps_invariant(m, k, v);
            assert(m.lists_holding(k) <= 1);
            lemma_ops(m.t1, k, v);
            lemma_ops_valued(m.t1, k, v);
            lemma_ops(m.t2, k, v);
        }
        if self.recency.contains(k) {
            let prev = self.recency.remove(k);
            proof {
                let n = ArcModel { t1: m.t1.without(k), ..m };
                assert(self@ == n);
                assert forall|x: u64| #[trigger] n.lists_holding(x) <= 1 by {
                    assert(m.lists_holding(x) <= 1);
                    assert(n.t1.has(x) == (m.t1.has(x) && x != k));
                }
                lemma_promote(n, k, v);
            }
            match prev {
                Some(w) => self.promote(k, w),
                None => {},
            }
        } else {
            self.frequency.refresh(k);
        }
    }

    /// The value of `k`, counted as an access: a resident key moves to the
    /// frequency list as in `insert`, keeping its value.  A key that is not
    /// resident gives `None` and changes nothing.
    pub fn get(&mut self, k: u64) -> (r: Option<&V>)
        requires
            old(self).wf(),
        ensures
            final(self).wf(),
            old(self)@.resident(k) ==> final(self)@ == old(self)@.access(k, old(self)@.value(k))
                && r is Some && *r.unwrap() == old(self)@.value(k),
            !old(self)@.resident(k) ==> final(self)@ == old(self)@ && r is None,
    {
        if !self.recency.contains(k) && !self.frequency.contains(k) {
            return None;
        }
        self.hit(k);
        self.frequency.peek(k)
    }

    /// A handle on the value of `k`, counted as an access as in `get`.  A key
    /// that is not resident gives `None` and changes nothing.
    pub fn get_mut(&mut self, k: u64) -> (r: Option<&mut V>)
        requires
            old(self).wf(),
        ensures
            final(self).wf(),
            old(self)@.resident(k) ==> r.is_some() && *r.unwrap() == old(self)@.value(k)
                && final(self)@ == old(self)@.access(k, *final(r.unwrap())),
            !old(self)@.resident(k) ==> r.is_none() && final(self)@ == old(self)@,
    {
        if !self.recency.contains(k) && !self.frequency.contains(k) {
            return None;
        }
        let ghost m = self@;
        self.hit(k);
        let r = self.frequency.peek_mut(k);
        proof {
            lemma_value_replaced(m, k, *final(r.unwrap()));
            lemma_access_keeps_invariant(m, k, *final(r.unwrap()));
        }
        r
    }

    /// Whether `k` is resident; counts as no access and changes nothing.
    pub fn contains(&self, k: u64) -> (r: bool)
        ensures
            r == self@.resident(k),
    {
        self.recency.contains(k) || self.frequency.contains(k)
    }

    /// The number of resident entries.
    pub fn len(&self) -> (r: usize)
        requires
            self.wf(),
        ensures
            r == self@.len(),
    {
        self.recency.len() + self.frequency.len()
    }

    /// The most entries the cache holds.
    pub fn capacity(&self) -> (r: usize)
        ensures
            r == self@.c,
    {
        self.capacity
    }

    /// The current target size of the recency list.
    pub fn partition(&self) -> (r: usize)
        ensures
            r == self@.p,
    {
        self.partition
    }

    /// The number of keys in all four lists, history included.
    pub fn directory_len(&self) -> (r: u128)
        requires
            self.wf(),
        ensures
            r == self@.directory_len(),
    {
        self.recency.len() as u128 + self.frequency.len() as u128
            + self.recency_history.len() as u128 + self.frequency_history.len() as u128
    }

    /// Where `k` stands; changes nothing.
    pub fn place(&self, k: u64) -> (r: Place)
        ensures
            r == (if self@.t1.has(k) {
                Place::Recent
            } else if self@.t2.has(k) {
                Place::Frequent
            } else if self@.b1.has(k) {
                Place::RecentHistory
            } else if self@.b2.has(k) {
                Place::FrequentHistory
            } else {
                Place::Absent
            }),
    {
        if self.recency.contains(k) {
            Place::Recent
        } else if self.frequency.contains(k) {
            Place::Frequent
        } else if self.recency_history.contains(k) {
            Place::RecentHistory
        } else if self.frequency_history.contains(k) {
            Place::FrequentHistory
        } else {
            Place::Absent
        }
    }

    /// Raises the partition after a hit in the recency history.
    fn grow_partition(&mut self)
        requires
            old(self)@.inv(),
            old(self)@.b1.len() > 0,
        ensures
            final(self)@ == (ArcModel { p: old(self)@.grown_partition(), ..old(self)@ }),
    {
        let g1 = self.recency_history.len();
        let g2 = self.frequency_history.len();
        let d: usize = if g2 / g1 > 1 {
            g2 / g1
        } else {
            1
        };
        if d > self.capacity - self.partition {
            self.partition = self.capacity;
        } else {
            self.partition = self.partition + d;
        }
    }

    /// Lowers the partition after a hit in the frequency history.
    fn shrink_partition(&mut self)
        requires
            old(self)@.inv(),
            old(self)@.b2.len() > 0,
        ensures
            final(self)@ == (ArcModel { p: old(self)@.shrunk_partition(), ..old(self)@ }),
    {
        let g1 = self.recency_history.len();
        let g2 = self.frequency_history.len();
        let d: usize = if g1 / g2 > 1 {
            g1 / g2
        } else {
            1
        };
        if d > self.partition {
            self.partition = 0;
        } else {
            self.partition = self.partition - d;
        }
    }

    /// Moves the least recently touched entry of the recency or of the
    /// frequency list to its history.
    fn replace(&mut self, b2_hit: bool)
        requires
            old(self)@.lists_ok(),
            old(self)@.t1.len() + old(self)@.b1.len() <= old(self)@.c,
            old(self)@.t2.len() + old(self)@.b2.len() <= old(self)@.c,
        ensures
            final(self)@ == old(self)@.replace(b2_hit),
    {
        let ghost m = self@;
        let l1 = self.recency.len();
        if l1 >= 1 && (l1 > self.partition || (l1 == self.partition && b2_hit)) {
            proof {
                let g = m.t1.first();
                assert(m.t1.has(g));
                assert(m.lists_holding(g) <= 1);
            }
            match self.recency.pop_lru() {
                Some(e) => {
                    self.recency_history.insert(e.0, ());
                },
                None => {},
            }
        } else if self.frequency.len() >= 1 {
            proof {
                let g = m.t2.first();
                assert(m.t2.has(g));
                assert(m.lists_holding(g) <= 1);
            }
            match self.frequency.pop_lru() {
                Some(e) => {
                    self.frequency_history.insert(e.0, ());
                },
                None => {},
            }
        }
    }

    /// Brings a key that no list holds into the frequency list, trimming the
    /// frequency history first where it would go past the capacity.
    fn promote(&mut self, k: u64, v: V)
        requires
            old(self)@.lists_ok(),
            old(self)@.c >= 1,
            !old(self)@.known(k),
            old(self)@.len() <= old(self)@.c - 1,
            old(self)@.t2.len() + old(self)@.b2.len() <= old(self)@.c,
        ensures
            final(self)@ == old(self)@.promote(k, v),
    {
        let ghost m = self@;
        proof {
            lemma_promote(m, k, v);
        }
        let l2 = self.frequency.len();
        let g2 = self.frequency_history.len();
        if l2 + g2 >= self.capacity && g2 > 0 {
            self.frequency_history.pop_lru();
        }
        proof {
            assert(!self@.t2.has(k)) by {
                assert(m.lists_holding(k) == 0);
            }
        }
        self.frequency.insert(k, v);
    }

    /// Makes room for a key that no list holds.
    fn make_room(&mut self)
        requires
            old(self)@.inv(),
        ensures
            final(self)@ == old(self)@.make_room(),
    {
        let ghost m = self@;
        proof {
            lemma_make_room(m);
        }
        let l1 = self.recency.len();
        let g1 = self.recency_history.len();
        let recent_side = l1 + g1;
        let frequent_side = self.frequency.len() + self.frequency_history.len();
        if recent_side == self.capacity {
            if l1 < self.capacity {
                let ghost g = m.b1.first();
                proof {
                    assert(m.b1.has(g));
                    lemma_ops(m.b1, g, ());
                    lemma_ops_valued(m.b1, g, ());
                }
                self.recency_history.pop_lru();
                proof {
                    let n = ArcModel { b1: m.b1.pop(), ..m };
                    assert(self@ == n);
                    assert forall|x: u64| #[trigger] n.lists_holding(x) <= 1 by {
                        assert(m.lists_holding(x) <= 1);
                        assert(n.b1.has(x) == (m.b1.has(x) && x != g));
                    }
                }
                self.replace(false);
            } else {
                self.recency.pop_lru();
            }
        } else if recent_side >= self.capacity - frequent_side {
            self.replace(false);
        }
    }
}

impl<V: Clone> Clone for Arc<V> {
    /// An independent copy with the same four lists and partition.
    fn clone(&self) -> (r: Self)
        ensures
            r@ == self@,
    {
        Arc {
            recency: self.recency.clone(),
            frequency: self.frequency.clone(),
            recency_history: self.recency_history.clone(),
            frequency_history: self.frequency_history.clone(),
            partition: self.partition,
            capacity: self.capacity,
        }
    }
}

} // verus!
