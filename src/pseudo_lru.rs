//! A capacity-bounded, access-ordered map from `u64` keys to values.
use crate::order::{
    keys_in_order, order_clone, order_contains, order_insert, order_len, order_new,
    order_pop_front, order_remove,
};
use linked_hash_map::LinkedHashMap;
use std::collections::HashMap;
use vstd::prelude::*;

verus! {

broadcast use vstd::std_specs::hash::group_hash_axioms;

/// The error of a construction with no room for any entry.
#[derive(Debug, Clone, Copy, PartialEq, Eq, Structural)]
pub enum CacheError {
    InvalidCapacity,
}

/// What an insertion did to the map.
pub enum Insert<V> {
    /// The key was there; its previous value.
    Replacement(V),
    /// The key was new and the map overflowed: the least recently touched
    /// entry, which left.
    Eviction(u64, V),
    /// The key was new and fitted.
    Nothing,
}

impl<V> Insert<V> {
    /// The replaced value, if the insertion replaced one.
    pub fn replacement(self) -> (r: Option<V>)
        ensures
            r == (match self {
                Insert::Replacement(v) => Some(v),
                _ => None,
            }),
    {
        match self {
            Insert::Replacement(v) => Some(v),
            _ => None,
        }
    }
}

/// The mathematical content of a bounded ordered map: its keys, least
/// recently touched first, the value of each key, and its bound.
pub struct LruModel<V> {
    pub keys: Seq<u64>,
    pub vals: Map<u64, V>,
    pub cap: nat,
}

impl<V> LruModel<V> {
    pub open spec fn wf(self) -> bool {
        &&& self.keys.no_duplicates()
        &&& self.valued()
        &&& self.keys.len() <= self.cap
    }

    /// Exactly the keys of the order have a value.
    pub open spec fn valued(self) -> bool {
        forall|k: u64| #[trigger] self.vals.contains_key(k) <==> self.keys.contains(k)
    }

    pub open spec fn len(self) -> int {
        self.keys.len() as int
    }

    pub open spec fn has(self, k: u64) -> bool {
        self.keys.contains(k)
    }

    /// The least recently touched key.
    pub open spec fn first(self) -> u64 {
        self.keys[0]
    }

    /// Appends a new key as the most recently touched.
    pub open spec fn push(self, k: u64, v: V) -> LruModel<V> {
        LruModel { keys: self.keys.push(k), vals: self.vals.insert(k, v), cap: self.cap }
    }

    /// Drops the least recently touched entry.
    pub open spec fn pop(self) -> LruModel<V> {
        LruModel {
            keys: self.keys.drop_first(),
            vals: self.vals.remove(self.keys[0]),
            cap: self.cap,
        }
    }

    /// Drops the entry of `k`, if any.
    pub open spec fn without(self, k: u64) -> LruModel<V> {
        LruModel { keys: self.keys.remove_value(k), vals: self.vals.remove(k), cap: self.cap }
    }

    /// Gives `k` the value `v` and makes it the most recently touched.
    pub open spec fn touch(self, k: u64, v: V) -> LruModel<V> {
        LruModel {
            keys: self.keys.remove_value(k).push(k),
            vals: self.vals.insert(k, v),
            cap: self.cap,
        }
    }

    /// The same entries under another bound.
    pub open spec fn with_cap(self, cap: nat) -> LruModel<V> {
        LruModel { keys: self.keys, vals: self.vals, cap }
    }
}

/// Removing a present key shortens the keys by one and keeps them distinct.
pub proof fn lemma_remove_value<A>(s: Seq<A>, x: A)
    requires
        s.no_duplicates(),
    ensures
        s.remove_value(x).no_duplicates(),
        s.contains(x) ==> s.remove_value(x).len() == s.len() - 1,
        !s.contains(x) ==> s.remove_value(x) == s,
        forall|y: A| #[trigger] s.remove_value(x).contains(y) <==> (s.contains(y) && y != x),
{
    s.index_of_first_ensures(x);
    match s.index_of_first(x) {
        Some(i) => {
            let r = s.remove(i);
            assert(r == s.subrange(0, i) + s.subrange(i + 1, s.len() as int));
            assert forall|y: A| #[trigger] r.contains(y) <==> (s.contains(y) && y != x) by {
                if r.contains(y) {
                    let j = choose|j: int| 0 <= j < r.len() && r[j] == y;
                    if j < i {
                        assert(s[j] == y);
                        assert(j != i);
                    } else {
                        assert(s[j + 1] == y);
                        assert(j + 1 != i);
                    }
                }
                if s.contains(y) && y != x {
                    let j = choose|j: int| 0 <= j < s.len() && s[j] == y;
                    if j < i {
                        assert(r[j] == y);
                    } else {
                        assert(j != i);
                        assert(r[j - 1] == y);
                    }
                }
            }
            assert forall|a: int, b: int| 0 <= a < r.len() && 0 <= b < r.len() && a != b
                implies r[a] != r[b] by {
                let sa = if a < i { a } else { a + 1 };
                let sb = if b < i { b } else { b + 1 };
                assert(r[a] == s[sa]);
                assert(r[b] == s[sb]);
            }
        },
        None => {
        },
    }
}

/// Each model operation keeps the values in step with the keys.
pub proof fn lemma_ops_valued<V>(m: LruModel<V>, k: u64, v: V)
    requires
        m.keys.no_duplicates(),
        m.valued(),
    ensures
        !m.has(k) ==> m.push(k, v).valued(),
        m.len() > 0 ==> m.pop().valued(),
        m.without(k).valued(),
        m.has(k) ==> m.touch(k, v).valued(),
{
    lemma_ops(m, k, v);
    if m.len() > 0 {
        assert(m.has(m.first()));
        assert forall|x: u64| #[trigger] m.pop().vals.contains_key(x) <==> m.pop().keys.contains(x)
            by {
            assert(m.pop().has(x) == m.pop().keys.contains(x));
        }
    }
    assert forall|x: u64| #[trigger] m.without(k).vals.contains_key(x) <==> m.without(k).keys.contains(x)
        by {
        assert(m.without(k).has(x) == m.without(k).keys.contains(x));
    }
    if m.has(k) {
        assert forall|x: u64| #[trigger] m.touch(k, v).vals.contains_key(x) <==> m.touch(k, v).keys.contains(x)
            by {
            assert(m.touch(k, v).has(x) == m.touch(k, v).keys.contains(x));
        }
    }
    if !m.has(k) {
        assert forall|x: u64| #[trigger] m.push(k, v).vals.contains_key(x) <==> m.push(k, v).keys.contains(x)
            by {
            assert(m.push(k, v).has(x) == m.push(k, v).keys.contains(x));
        }
    }
}

/// The effect of each model operation on the keys held and on the size.
pub proof fn lemma_ops<V>(m: LruModel<V>, k: u64, v: V)
    requires
        m.keys.no_duplicates(),
    ensures
        !m.has(k) ==> m.push(k, v).keys.no_duplicates() && m.push(k, v).len() == m.len() + 1
            && forall|x: u64| #[trigger] m.push(k, v).has(x) <==> (m.has(x) || x == k),
        m.len() > 0 ==> m.pop().keys.no_duplicates() && m.pop().len() == m.len() - 1
            && forall|x: u64| #[trigger] m.pop().has(x) <==> (m.has(x) && x != m.first()),
        m.without(k).keys.no_duplicates(),
        m.has(k) ==> m.without(k).len() == m.len() - 1,
        !m.has(k) ==> m.without(k).keys == m.keys,
        forall|x: u64| #[trigger] m.without(k).has(x) <==> (m.has(x) && x != k),
        m.has(k) ==> m.touch(k, v).keys.no_duplicates() && m.touch(k, v).len() == m.len()
            && forall|x: u64| #[trigger] m.touch(k, v).has(x) <==> m.has(x),
{
    lemma_remove_value(m.keys, k);
    if !m.has(k) {
        let s = m.keys.push(k);
        assert forall|x: u64| #[trigger] s.contains(x) <==> (m.keys.contains(x) || x == k) by {
            if s.contains(x) {
                let j = choose|j: int| 0 <= j < s.len() && s[j] == x;
                if j < m.keys.len() {
                    assert(m.keys[j] == x);
                }
            }
            if m.keys.contains(x) {
                let j = choose|j: int| 0 <= j < m.keys.len() && m.keys[j] == x;
                assert(s[j] == x);
            }
            if x == k {
                assert(s[m.keys.len() as int] == x);
            }
        }
        assert(s.no_duplicates()) by {
            assert forall|a: int, b: int| 0 <= a < s.len() && 0 <= b < s.len() && a != b
                implies s[a] != s[b] by {
                if a == m.keys.len() {
                    assert(m.keys.contains(s[b]));
                } else if b == m.keys.len() {
                    assert(m.keys.contains(s[a]));
                }
            }
        }
    }
    if m.len() > 0 {
        let s = m.keys.drop_first();
        assert forall|x: u64| #[trigger] s.contains(x) <==> (m.keys.contains(x) && x != m.first())
            by {
            if s.contains(x) {
                let j = choose|j: int| 0 <= j < s.len() && s[j] == x;
                assert(m.keys[j + 1] == x);
            }
            if m.keys.contains(x) && x != m.first() {
                let j = choose|j: int| 0 <= j < m.keys.len() && m.keys[j] == x;
                assert(s[j - 1] == x);
            }
        }
    }
    if m.has(k) {
        let r = m.keys.remove_value(k);
        let s = r.push(k);
        assert forall|x: u64| #[trigger] s.contains(x) <==> m.keys.contains(x) by {
            if s.contains(x) {
                let j = choose|j: int| 0 <= j < s.len() && s[j] == x;
                if j < r.len() {
                    assert(r[j] == x);
                    assert(r.contains(x));
                }
            }
            if m.keys.contains(x) && x != k {
                assert(r.contains(x));
                let j = choose|j: int| 0 <= j < r.len() && r[j] == x;
                assert(s[j] == x);
            }
            if x == k {
                assert(s[r.len() as int] == x);
            }
        }
        assert(s.no_duplicates()) by {
            assert forall|a: int, b: int| 0 <= a < s.len() && 0 <= b < s.len() && a != b
                implies s[a] != s[b] by {
                if a == r.len() {
                    assert(r.contains(s[b]));
                } else if b == r.len() {
                    assert(r.contains(s[a]));
                }
            }
        }
    }
}

/// Relies on `HashMap::get_mut`: a handle on the value of a present key, and
/// `None` for an absent one.
#[verifier::external_body]
fn value_mut<V>(m: &mut HashMap<u64, V>, k: u64) -> (r: Option<&mut V>)
    ensures
        old(m)@.contains_key(k) ==> r.is_some() && *r.unwrap() == old(m)@[k] && final(m)@ == old(
            m,
        )@.insert(k, *final(r.unwrap())),
        !old(m)@.contains_key(k) ==> r.is_none() && final(m)@ == old(m)@,
{
    m.get_mut(&k)
}

/// A map from keys to values that remembers the order in which its keys were
/// touched and holds at most `capacity` entries: an insertion that goes past
/// the bound evicts the least recently touched entry.
pub struct PseudoLru<V> {
    order: LinkedHashMap<u64, ()>,
    values: HashMap<u64, V>,
    capacity: usize,
}

impl<V> View for PseudoLru<V> {
    type V = LruModel<V>;

    closed spec fn view(&self) -> LruModel<V> {
        LruModel { keys: keys_in_order(self.order), vals: self.values@, cap: self.capacity as nat }
    }
}

impl<V> PseudoLru<V> {
    pub open spec fn wf(&self) -> bool {
        self@.wf()
    }

    /// An empty map bounded by `capacity`; a bound of zero is refused.
    pub fn new(capacity: usize) -> (r: Result<PseudoLru<V>, CacheError>)
        ensures
            capacity == 0 <==> r is Err,
            r matches Err(e) ==> e == CacheError::InvalidCapacity,
            r matches Ok(m) ==> m.wf() && m@.keys == Seq::<u64>::empty() && m@.vals == Map::<
                u64,
                V,
            >::empty() && m@.cap == capacity,
    {
        if capacity == 0 {
            return Err(CacheError::InvalidCapacity);
        }
        Ok(PseudoLru { order: order_new(capacity), values: HashMap::new(), capacity })
    }

    /// The number of entries.
    pub fn len(&self) -> (r: usize)
        requires
            self.wf(),
        ensures
            r == self@.len(),
    {
        order_len(&self.order)
    }

    /// The bound on the number of entries.
    pub fn capacity(&self) -> (r: usize)
        ensures
            r == self@.cap,
    {
        self.capacity
    }

    /// Whether `k` has an entry; the order is left alone.
    pub fn contains(&self, k: u64) -> (r: bool)
        ensures
            r == self@.has(k),
    {
        order_contains(&self.order, k)
    }

    /// The value of `k`, if any; the order is left alone.
    pub fn peek(&self, k: u64) -> (r: Option<&V>)
        requires
            self.wf(),
        ensures
            r is Some <==> self@.has(k),
            r matches Some(x) ==> *x == self@.vals[k],
    {
        assert(self@.vals.contains_key(k) == self@.has(k));
        self.values.get(&k)
    }

    /// A handle on the value of `k`, if any; the order is left alone.
    pub fn peek_mut(&mut self, k: u64) -> (r: Option<&mut V>)
        requires
            old(self).wf(),
        ensures
            old(self)@.has(k) ==> r.is_some() && *r.unwrap() == old(self)@.vals[k] && final(self)@
                == (LruModel { vals: old(self)@.vals.insert(k, *final(r.unwrap())), ..old(self)@ }),
            !old(self)@.has(k) ==> r.is_none() && final(self)@ == old(self)@,
    {
        assert(self@.vals.contains_key(k) == self@.has(k));
        value_mut(&mut self.values, k)
    }

    /// Inserts or overwrites `k`, making it the most recently touched.
    pub fn insert(&mut self, k: u64, v: V) -> (r: Insert<V>)
        requires
            old(self).wf(),
        ensures
            final(self).wf(),
            final(self)@.len() > 0 ==> final(self)@.keys.last() == k && final(self)@.vals[k] == v,
            old(self)@.cap > 0 ==> final(self)@.has(k),
            old(self)@.has(k) ==> r == Insert::Replacement(old(self)@.vals[k]) && final(self)@
                == old(self)@.touch(k, v),
            !old(self)@.has(k) && old(self)@.len() < old(self)@.cap ==> r == Insert::<V>::Nothing
                && final(self)@ == old(self)@.push(k, v),
            !old(self)@.has(k) && old(self)@.len() == old(self)@.cap ==> r == Insert::Eviction(
                old(self)@.push(k, v).first(),
                old(self)@.push(k, v).vals[old(self)@.push(k, v).first()],
            ) && final(self)@ == old(self)@.push(k, v).pop(),
    {
        proof {
            lemma_ops(self@, k, v);
            lemma_ops_valued(self@, k, v);
        }
        let ghost m0 = self@;
        let was = order_insert(&mut self.order, k);
        let prev = self.values.insert(k, v);
        if was {
            match prev {
                Some(p) => {
                    return Insert::Replacement(p);
                },
                None => {
                    assert(false);
                    return Insert::Nothing;
                },
            }
        }
        assert(self@ == m0.push(k, v));
        if order_len(&self.order) > self.capacity {
            proof {
                lemma_ops(m0.push(k, v), k, v);
                lemma_ops_valued(m0.push(k, v), k, v);
                lemma_ops(m0.push(k, v).pop(), k, v);
            }
            match self.pop_lru() {
                Some(e) => Insert::Eviction(e.0, e.1),
                None => Insert::Nothing,
            }
        } else {
            Insert::Nothing
        }
    }

    /// Makes `k` the most recently touched, keeping its value; whether it
    /// was there.
    pub fn refresh(&mut self, k: u64) -> (r: bool)
        requires
            old(self).wf(),
        ensures
            final(self).wf(),
            r == old(self)@.has(k),
            r ==> final(self)@ == old(self)@.touch(k, old(self)@.vals[k]),
            !r ==> final(self)@ == old(self)@,
    {
        proof {
            lemma_ops(self@, k, self@.vals[k]);
            lemma_ops_valued(self@, k, self@.vals[k]);
        }
        if !order_contains(&self.order, k) {
            return false;
        }
        let ghost m0 = self@;
        order_insert(&mut self.order, k);
        assert(m0.vals.insert(k, m0.vals[k]) =~= m0.vals);
        true
    }

    /// Removes the entry of `k` and returns its value, if any.
    pub fn remove(&mut self, k: u64) -> (r: Option<V>)
        requires
            old(self).wf(),
        ensures
            final(self).wf(),
            final(self)@ == old(self)@.without(k),
            r == (if old(self)@.has(k) {
                Some(old(self)@.vals[k])
            } else {
                None
            }),
    {
        proof {
            lemma_ops(self@, k, self@.vals[k]);
            lemma_ops_valued(self@, k, self@.vals[k]);
        }
        order_remove(&mut self.order, k);
        self.values.remove(&k)
    }

    /// Removes the least recently touched entry and returns it, if any.
    pub fn pop_lru(&mut self) -> (r: Option<(u64, V)>)
        requires
            old(self).keys_distinct_and_valued(),
        ensures
            old(self)@.len() == 0 ==> r is None && final(self)@ == old(self)@,
            old(self)@.len() > 0 ==> r == Some((old(self)@.first(), old(self)@.vals[old(self)@.first()]))
                && final(self)@ == old(self)@.pop(),
            final(self).keys_distinct_and_valued(),
    {
        proof {
            if self@.len() > 0 {
                lemma_ops(self@, self@.first(), self@.vals[self@.first()]);
                lemma_ops_valued(self@, self@.first(), self@.vals[self@.first()]);
                assert(self@.keys.contains(self@.first()));
            }
        }
        match order_pop_front(&mut self.order) {
            Some(k) => match self.values.remove(&k) {
                Some(v) => Some((k, v)),
                None => {
                    assert(false);
                    None
                },
            },
            None => None,
        }
    }

    /// Sets the bound to `target`, evicting the least recently touched
    /// entries until the map fits; the evicted entries, oldest first.
    pub fn set_capacity(&mut self, target: usize) -> (r: Vec<(u64, V)>)
        requires
            old(self).wf(),
        ensures
            final(self).wf(),
            final(self)@.cap == target,
            r@.len() == (if old(self)@.len() > target {
                old(self)@.len() - target
            } else {
                0
            }),
            final(self)@.keys == old(self)@.keys.subrange(r@.len() as int, old(self)@.len()),
            forall|i: int|
                0 <= i < r@.len() ==> #[trigger] r@[i] == (
                    old(self)@.keys[i],
                    old(self)@.vals[old(self)@.keys[i]],
                ),
            forall|k: u64| #[trigger]
                final(self)@.vals.contains_key(k) ==> final(self)@.vals[k] == old(self)@.vals[k],
    {
        let ghost m0 = self@;
        let mut out: Vec<(u64, V)> = Vec::new();
        self.capacity = target;
        assert(self@.keys == m0.keys);
        assert(self@.vals == m0.vals);
        assert(m0.keys.subrange(0, m0.len()) =~= m0.keys);
        while order_len(&self.order) > target
            invariant
                self.keys_distinct_and_valued(),
                self@.cap == target,
                out@.len() <= m0.len(),
                m0.len() > target ==> out@.len() <= m0.len() - target,
                m0.len() <= target ==> out@.len() == 0,
                self@.keys == m0.keys.subrange(out@.len() as int, m0.len()),
                forall|i: int|
                    0 <= i < out@.len() ==> #[trigger] out@[i] == (m0.keys[i], m0.vals[m0.keys[i]]),
                forall|k: u64| #[trigger]
                    self@.vals.contains_key(k) ==> self@.vals[k] == m0.vals[k],
            decreases self@.len(),
        {
            let ghost before = self@;
            match self.pop_lru() {
                Some(e) => {
                    proof {
                        assert(before.first() == m0.keys[out@.len() as int]);
                        assert(before.has(before.first()));
                        assert(before.vals.contains_key(before.first()));
                        assert(self@.keys =~= m0.keys.subrange(out@.len() as int + 1, m0.len()));
                    }
                    out.push(e);
                },
                None => {
                    assert(false);
                },
            }
        }
        out
    }

    /// Raises the bound by one.
    pub fn increase_capacity(&mut self)
        requires
            old(self).wf(),
            old(self)@.cap < usize::MAX,
        ensures
            final(self).wf(),
            final(self)@ == old(self)@.with_cap(old(self)@.cap + 1),
    {
        self.capacity = self.capacity + 1;
        assert(self@.keys == old(self)@.keys);
        assert(self@.vals == old(self)@.vals);
    }

    /// Lowers the bound by one, down to zero at most, and evicts the least
    /// recently touched entry if the map no longer fits.
    pub fn decrease_capacity(&mut self) -> (r: Option<(u64, V)>)
        requires
            old(self).wf(),
        ensures
            final(self).wf(),
            old(self)@.cap == 0 ==> r is None && final(self)@ == old(self)@,
            old(self)@.cap > 0 && old(self)@.len() == old(self)@.cap ==> r == Some(
                (old(self)@.first(), old(self)@.vals[old(self)@.first()]),
            ) && final(self)@ == old(self)@.pop().with_cap((old(self)@.cap - 1) as nat),
            old(self)@.cap > 0 && old(self)@.len() < old(self)@.cap ==> r is None && final(self)@
                == old(self)@.with_cap((old(self)@.cap - 1) as nat),
    {
        proof {
            if self@.len() > 0 {
                lemma_ops(self@, self@.first(), self@.vals[self@.first()]);
            }
        }
        let ghost m0 = self@;
        self.capacity = self.capacity.saturating_sub(1);
        assert(self@.keys == m0.keys);
        assert(self@.vals == m0.vals);
        if order_len(&self.order) > self.capacity {
            self.pop_lru()
        } else {
            None
        }
    }

    /// The keys are distinct and each has a value; the bound aside.
    pub open spec fn keys_distinct_and_valued(&self) -> bool {
        &&& self@.keys.no_duplicates()
        &&& self@.valued()
    }
}

impl<V: Clone> Clone for PseudoLru<V> {
    /// A copy with the same entries, order and bound.
    fn clone(&self) -> (r: Self)
        ensures
            r@ == self@,
    {
        PseudoLru {
            order: order_clone(&self.order),
            values: self.values.clone(),
            capacity: self.capacity,
        }
    }
}

} // verus!
