//! The mathematical model of the cache: four ordered lists, the partition
//! and the capacity, and what one access does to them.
use crate::pseudo_lru::{lemma_ops, lemma_ops_valued, LruModel};
use vstd::prelude::*;

verus! {

/// The four lists of the cache, the partition `p` (the target size of the
/// recency list) and the capacity `c`.
pub struct ArcModel<V> {
    /// Resident entries seen once since they last entered the cache.
    pub t1: LruModel<V>,
    /// Resident entries seen at least twice, or brought back from history.
    pub t2: LruModel<V>,
    /// Keys recently evicted from `t1`.
    pub b1: LruModel<()>,
    /// Keys recently evicted from `t2`.
    pub b2: LruModel<()>,
    pub p: int,
    pub c: int,
}

impl<V> ArcModel<V> {
    /// Whether `k` has a value in the cache.
    pub open spec fn resident(self, k: u64) -> bool {
        self.t1.has(k) || self.t2.has(k)
    }

    /// The value of a resident key.
    pub open spec fn value(self, k: u64) -> V {
        if self.t1.has(k) {
            self.t1.vals[k]
        } else {
            self.t2.vals[k]
        }
    }

    /// The number of resident entries.
    pub open spec fn len(self) -> int {
        self.t1.len() + self.t2.len()
    }

    /// The number of keys in all four lists.
    pub open spec fn directory_len(self) -> int {
        self.t1.len() + self.t2.len() + self.b1.len() + self.b2.len()
    }

    /// In how many of the four lists `k` stands.
    pub open spec fn lists_holding(self, k: u64) -> int {
        (if self.t1.has(k) { 1int } else { 0int }) + (if self.t2.has(k) { 1int } else { 0int })
            + (if self.b1.has(k) { 1int } else { 0int }) + (if self.b2.has(k) { 1int } else { 0int })
    }

    /// Whether `k` stands in any list.
    pub open spec fn known(self, k: u64) -> bool {
        self.lists_holding(k) > 0
    }

    /// Each list is well formed and bounded by `c`, and no key stands in two.
    pub open spec fn lists_ok(self) -> bool {
        &&& self.t1.wf() && self.t2.wf() && self.b1.wf() && self.b2.wf()
        &&& self.t1.cap == self.c && self.t2.cap == self.c
        &&& self.b1.cap == self.c && self.b2.cap == self.c
        &&& forall|k: u64| #[trigger] self.lists_holding(k) <= 1
    }

    /// The invariant that every call keeps.
    pub open spec fn inv(self) -> bool {
        &&& self.lists_ok()
        &&& self.c >= 1
        &&& 0 <= self.p <= self.c
        &&& self.len() <= self.c
        &&& self.t1.len() + self.b1.len() <= self.c
        &&& self.t2.len() + self.b2.len() <= self.c
        &&& self.directory_len() <= 2 * self.c
    }

    /// The state after moving the least recently touched entry of `t1` or
    /// of `t2` to history.  `t1` yields when it is over its target `p`, or
    /// at it and the request was a hit in `b2`.
    pub open spec fn replace(self, b2_hit: bool) -> ArcModel<V> {
        if self.t1.len() >= 1 && (self.t1.len() > self.p || (self.t1.len() == self.p && b2_hit)) {
            ArcModel { t1: self.t1.pop(), b1: self.b1.push(self.t1.first(), ()), ..self }
        } else if self.t2.len() >= 1 {
            ArcModel { t2: self.t2.pop(), b2: self.b2.push(self.t2.first(), ()), ..self }
        } else {
            self
        }
    }

    /// The state after `k` enters `t2` as its most recently touched entry;
    /// the oldest key of `b2` leaves first where `t2` and `b2` would
    /// otherwise hold more than `c` keys.
    pub open spec fn promote(self, k: u64, v: V) -> ArcModel<V> {
        let trimmed = if self.t2.len() + self.b2.len() >= self.c && self.b2.len() > 0 {
            ArcModel { b2: self.b2.pop(), ..self }
        } else {
            self
        };
        ArcModel { t2: trimmed.t2.push(k, v), ..trimmed }
    }

    /// The room made for a key that no list holds.  With the recency side
    /// (`t1` and `b1`) full, its oldest history key leaves and an entry moves
    /// to history, or, with no history there, the oldest entry of `t1` leaves
    /// the cache.  Otherwise an entry moves to history once the directory
    /// holds `c` keys.  Since each side holds at most `c` keys, the directory
    /// reaches `2c` only with the recency side full, so `b2` is trimmed only
    /// by `promote`.
    pub open spec fn make_room(self) -> ArcModel<V> {
        if self.t1.len() + self.b1.len() == self.c {
            if self.t1.len() < self.c {
                ArcModel { b1: self.b1.pop(), ..self }.replace(false)
            } else {
                ArcModel { t1: self.t1.pop(), ..self }
            }
        } else if self.directory_len() >= self.c {
            self.replace(false)
        } else {
            self
        }
    }

    /// The partition after a hit in `b1`: up by the ratio of the history
    /// sizes, at least one, at most `c`.
    pub open spec fn grown_partition(self) -> int {
        let d = if self.b2.len() / self.b1.len() > 1 {
            self.b2.len() / self.b1.len()
        } else {
            1
        };
        if self.p + d > self.c {
            self.c
        } else {
            self.p + d
        }
    }

    /// The partition after a hit in `b2`: down by the ratio of the history
    /// sizes, at least one, at least zero.
    pub open spec fn shrunk_partition(self) -> int {
        let d = if self.b1.len() / self.b2.len() > 1 {
            self.b1.len() / self.b2.len()
        } else {
            1
        };
        if self.p - d < 0 {
            0
        } else {
            self.p - d
        }
    }

    /// The state after an access to `k` carrying the value `v`.
    pub open spec fn access(self, k: u64, v: V) -> ArcModel<V> {
        if self.t1.has(k) {
            ArcModel { t1: self.t1.without(k), ..self }.promote(k, v)
        } else if self.t2.has(k) {
            ArcModel { t2: self.t2.touch(k, v), ..self }
        } else if self.b1.has(k) {
            ArcModel { b1: self.b1.without(k), p: self.grown_partition(), ..self }.replace(
                false,
            ).promote(k, v)
        } else if self.b2.has(k) {
            ArcModel { b2: self.b2.without(k), p: self.shrunk_partition(), ..self }.replace(
                true,
            ).promote(k, v)
        } else {
            let m = self.make_room();
            ArcModel { t1: m.t1.push(k, v), ..m }
        }
    }
}

/// For a resident key, an access that keeps its value and then writes `w`
/// over it ends where an access with `w` ends.
pub proof fn lemma_value_replaced<V>(m: ArcModel<V>, k: u64, w: V)
    requires
        m.inv(),
        m.resident(k),
    ensures
        ({
            let n = m.access(k, m.value(k));
            &&& n.t2.has(k)
            &&& (ArcModel { t2: LruModel { vals: n.t2.vals.insert(k, w), ..n.t2 }, ..n })
                == m.access(k, w)
        }),
{
    let v = m.value(k);
    let n = m.access(k, v);
    let a = m.access(k, w);
    assert(m.lists_holding(k) <= 1);
    lemma_ops(m.t1, k, v);
    lemma_ops(m.t2, k, v);
    if m.t1.has(k) {
        let t = ArcModel { t1: m.t1.without(k), ..m };
        assert(!t.t2.has(k));
        lemma_ops(t.t2, k, v);
        if t.t2.len() + t.b2.len() >= t.c && t.b2.len() > 0 {
            let u = ArcModel { b2: t.b2.pop(), ..t };
            assert(u.t2 == t.t2);
        }
        assert(n.t2.vals.insert(k, w) =~= a.t2.vals);
    } else {
        assert(n.t2.vals.insert(k, w) =~= a.t2.vals);
    }
}

/// Moving an entry to history keeps the lists sound, keeps each side's
/// directory size and the set of known keys, and frees one resident slot
/// whenever either resident list can yield.
pub proof fn lemma_replace<V>(m: ArcModel<V>, b2_hit: bool)
    requires
        m.lists_ok(),
        m.t1.len() + m.b1.len() <= m.c,
        m.t2.len() + m.b2.len() <= m.c,
    ensures
        ({
            let r = m.replace(b2_hit);
            &&& r.lists_ok()
            &&& r.p == m.p && r.c == m.c
            &&& r.t1.len() + r.b1.len() == m.t1.len() + m.b1.len()
            &&& r.t2.len() + r.b2.len() == m.t2.len() + m.b2.len()
            &&& r.len() <= m.len()
            &&& m.t2.len() >= 1 ==> r.len() == m.len() - 1
            &&& (m.t1.len() >= 1 && (m.t1.len() > m.p || (m.t1.len() == m.p && b2_hit)))
                ==> r.len() == m.len() - 1
            &&& forall|x: u64| #[trigger] r.lists_holding(x) == m.lists_holding(x)
        }),
{
    let r = m.replace(b2_hit);
    if m.t1.len() >= 1 && (m.t1.len() > m.p || (m.t1.len() == m.p && b2_hit)) {
        let k = m.t1.first();
        assert(m.t1.has(k));
        assert(m.lists_holding(k) <= 1);
        lemma_ops(m.t1, k, m.t1.vals[k]);
        lemma_ops_valued(m.t1, k, m.t1.vals[k]);
        lemma_ops(m.b1, k, ());
        lemma_ops_valued(m.b1, k, ());
        assert forall|x: u64| #[trigger] r.lists_holding(x) == m.lists_holding(x) by {
            assert(r.t1.has(x) == (m.t1.has(x) && x != k));
            assert(r.b1.has(x) == (m.b1.has(x) || x == k));
        }
    } else if m.t2.len() >= 1 {
        let k = m.t2.first();
        assert(m.t2.has(k));
        assert(m.lists_holding(k) <= 1);
        lemma_ops(m.t2, k, m.t2.vals[k]);
        lemma_ops_valued(m.t2, k, m.t2.vals[k]);
        lemma_ops(m.b2, k, ());
        lemma_ops_valued(m.b2, k, ());
        assert forall|x: u64| #[trigger] r.lists_holding(x) == m.lists_holding(x) by {
            assert(r.t2.has(x) == (m.t2.has(x) && x != k));
            assert(r.b2.has(x) == (m.b2.has(x) || x == k));
        }
    }
}

/// Bringing an unknown key into `t2` keeps the lists sound and both
/// directory bounds, given a free resident slot.
pub proof fn lemma_promote<V>(m: ArcModel<V>, k: u64, v: V)
    requires
        m.lists_ok(),
        m.c >= 1,
        !m.known(k),
        m.len() <= m.c - 1,
        m.t2.len() + m.b2.len() <= m.c,
    ensures
        ({
            let r = m.promote(k, v);
            &&& r.lists_ok()
            &&& r.t1 == m.t1 && r.b1 == m.b1 && r.p == m.p && r.c == m.c
            &&& r.len() == m.len() + 1
            &&& r.t2.len() + r.b2.len() <= m.c
            &&& r.directory_len() <= m.directory_len() + 1
            &&& r.t2.has(k) && r.t2.vals[k] == v
            &&& r.t2.keys.last() == k
        }),
{
    let t = if m.t2.len() + m.b2.len() >= m.c && m.b2.len() > 0 {
        ArcModel { b2: m.b2.pop(), ..m }
    } else {
        m
    };
    let r = m.promote(k, v);
    if m.t2.len() + m.b2.len() >= m.c && m.b2.len() > 0 {
        let g = m.b2.first();
        assert(m.b2.has(g));
        lemma_ops(m.b2, g, ());
        lemma_ops_valued(m.b2, g, ());
        assert forall|x: u64| #[trigger] t.lists_holding(x) <= 1 by {
            assert(m.lists_holding(x) <= 1);
            assert(t.b2.has(x) == (m.b2.has(x) && x != g));
        }
    }
    assert(t.lists_holding(k) == 0) by {
        assert(t.b2.has(k) ==> m.b2.has(k));
    }
    lemma_ops(t.t2, k, v);
    lemma_ops_valued(t.t2, k, v);
    assert forall|x: u64| #[trigger] r.lists_holding(x) <= 1 by {
        assert(t.lists_holding(x) <= 1);
        assert(r.t2.has(x) == (t.t2.has(x) || x == k));
    }
}

/// The room made for an unknown key leaves a free resident slot and a free
/// slot on the recency side, and brings in no key.
pub proof fn lemma_make_room<V>(m: ArcModel<V>)
    requires
        m.inv(),
    ensures
        ({
            let r = m.make_room();
            &&& r.lists_ok()
            &&& r.p == m.p && r.c == m.c
            &&& r.len() <= m.c - 1
            &&& r.t1.len() + r.b1.len() <= m.c - 1
            &&& r.t2.len() + r.b2.len() <= m.c
            &&& r.directory_len() <= 2 * m.c - 1
            &&& forall|x: u64| #[trigger] r.known(x) ==> m.known(x)
        }),
{
    let r = m.make_room();
    if m.t1.len() + m.b1.len() == m.c {
        if m.t1.len() < m.c {
            let n = ArcModel { b1: m.b1.pop(), ..m };
            let g = m.b1.first();
            assert(m.b1.has(g));
            lemma_ops(m.b1, g, ());
            lemma_ops_valued(m.b1, g, ());
            assert forall|x: u64| #[trigger] n.lists_holding(x) <= m.lists_holding(x) by {
                assert(n.b1.has(x) == (m.b1.has(x) && x != g));
            }
            assert forall|x: u64| #[trigger] n.lists_holding(x) <= 1 by {
                assert(n.lists_holding(x) <= m.lists_holding(x));
                assert(m.lists_holding(x) <= 1);
            }
            lemma_replace(n, false);
            assert forall|x: u64| #[trigger] r.known(x) implies m.known(x) by {
                assert(r.lists_holding(x) == n.lists_holding(x));
                assert(n.lists_holding(x) <= m.lists_holding(x));
            }
        } else {
            let g = m.t1.first();
            assert(m.t1.has(g));
            lemma_ops(m.t1, g, m.t1.vals[g]);
            lemma_ops_valued(m.t1, g, m.t1.vals[g]);
            assert forall|x: u64| #[trigger] r.lists_holding(x) <= m.lists_holding(x) by {
                assert(r.t1.has(x) == (m.t1.has(x) && x != g));
            }
            assert forall|x: u64| #[trigger] r.lists_holding(x) <= 1 by {
                assert(r.lists_holding(x) <= m.lists_holding(x));
                assert(m.lists_holding(x) <= 1);
            }
            assert forall|x: u64| #[trigger] r.known(x) implies m.known(x) by {
                assert(r.lists_holding(x) <= m.lists_holding(x));
            }
        }
    } else if m.directory_len() >= m.c {
        assert(m.directory_len() < 2 * m.c);
        lemma_replace(m, false);
        assert forall|x: u64| #[trigger] r.known(x) implies m.known(x) by {
            assert(r.lists_holding(x) == m.lists_holding(x));
        }
    }
}

/// Every access keeps the invariant: at most `c` resident entries, each
/// side's directory within `c` and all four lists within `2c`, no key in two
/// lists, and `0 <= p <= c`.
pub proof fn lemma_access_keeps_invariant<V>(m: ArcModel<V>, k: u64, v: V)
    requires
        m.inv(),
    ensures
        m.access(k, v).inv(),
{
    let r = m.access(k, v);
    assert(m.lists_holding(k) <= 1);
    if m.t1.has(k) {
        let n = ArcModel { t1: m.t1.without(k), ..m };
        lemma_ops(m.t1, k, v);
        lemma_ops_valued(m.t1, k, v);
        assert forall|x: u64| #[trigger] n.lists_holding(x) <= 1 by {
            assert(m.lists_holding(x) <= 1);
            assert(n.t1.has(x) == (m.t1.has(x) && x != k));
        }
        assert(!n.known(k));
        lemma_promote(n, k, v);
    } else if m.t2.has(k) {
        lemma_ops(m.t2, k, v);
        lemma_ops_valued(m.t2, k, v);
        assert forall|x: u64| #[trigger] r.lists_holding(x) <= 1 by {
            assert(m.lists_holding(x) <= 1);
            assert(r.t2.has(x) == m.t2.has(x));
        }
    } else if m.b1.has(k) {
        let n = ArcModel { b1: m.b1.without(k), p: m.grown_partition(), ..m };
        lemma_ops(m.b1, k, ());
        lemma_ops_valued(m.b1, k, ());
        assert forall|x: u64| #[trigger] n.lists_holding(x) <= 1 by {
            assert(m.lists_holding(x) <= 1);
            assert(n.b1.has(x) == (m.b1.has(x) && x != k));
        }
        assert(!n.known(k));
        lemma_replace(n, false);
        let q = n.replace(false);
        assert(q.lists_holding(k) == n.lists_holding(k));
        if n.t2.len() == 0 {
            assert(n.t1.len() <= m.c - 1);
        }
        lemma_promote(q, k, v);
    } else if m.b2.has(k) {
        let n = ArcModel { b2: m.b2.without(k), p: m.shrunk_partition(), ..m };
        lemma_ops(m.b2, k, ());
        lemma_ops_valued(m.b2, k, ());
        assert forall|x: u64| #[trigger] n.lists_holding(x) <= 1 by {
            assert(m.lists_holding(x) <= 1);
            assert(n.b2.has(x) == (m.b2.has(x) && x != k));
        }
        assert(!n.known(k));
        lemma_replace(n, true);
        let q = n.replace(true);
        assert(q.lists_holding(k) == n.lists_holding(k));
        lemma_promote(q, k, v);
    } else {
        let n = m.make_room();
        lemma_make_room(m);
        assert(!m.known(k));
        assert(!n.known(k));
        assert(!n.t1.has(k));
        lemma_ops(n.t1, k, v);
        lemma_ops_valued(n.t1, k, v);
        assert forall|x: u64| #[trigger] r.lists_holding(x) <= 1 by {
            assert(n.lists_holding(x) <= 1);
            assert(r.t1.has(x) == (n.t1.has(x) || x == k));
        }
    }
}

/// Touching the most recently touched key again with its own value changes
/// nothing.
proof fn lemma_touch_last<V>(l: LruModel<V>, k: u64)
    requires
        l.wf(),
        l.keys.len() > 0,
        l.keys.last() == k,
    ensures
        l.touch(k, l.vals[k]) == l,
{
    let s = l.keys;
    let i = s.len() - 1;
    s.index_of_first_ensures(k);
    assert(s.contains(k)) by {
        assert(s[i] == k);
    }
    let j = s.index_of_first(k)->Some_0;
    assert(j == i);
    assert(s.remove_value(k).push(k) =~= s);
    assert(l.has(k));
    assert(l.vals.insert(k, l.vals[k]) =~= l.vals);
}

/// Reading a resident key keeps the number of resident entries, the
/// partition and the key's value; reading it again at once changes nothing.
pub proof fn lemma_repeated_hit<V>(m: ArcModel<V>, k: u64)
    requires
        m.inv(),
        m.resident(k),
    ensures
        ({
            let n = m.access(k, m.value(k));
            &&& n.len() == m.len()
            &&& n.p == m.p
            &&& n.resident(k)
            &&& n.value(k) == m.value(k)
            &&& n.access(k, n.value(k)) == n
        }),
{
    let v = m.value(k);
    let n = m.access(k, v);
    lemma_access_keeps_invariant(m, k, v);
    assert(m.lists_holding(k) <= 1);
    lemma_ops(m.t1, k, v);
    lemma_ops(m.t2, k, v);
    if m.t1.has(k) {
        let t = ArcModel { t1: m.t1.without(k), ..m };
        lemma_ops_valued(m.t1, k, v);
        assert forall|x: u64| #[trigger] t.lists_holding(x) <= 1 by {
            assert(m.lists_holding(x) <= 1);
            assert(t.t1.has(x) == (m.t1.has(x) && x != k));
        }
        lemma_promote(t, k, v);
        assert(!n.t1.has(k));
    } else {
        assert(n.t2.keys =~= m.t2.keys.remove_value(k).push(k));
        assert(n.t2.keys.last() == k);
        assert(n.t2.has(k)) by {
            assert(n.t2.keys[n.t2.keys.len() - 1] == k);
        }
    }
    assert(n.t2.keys.len() > 0);
    lemma_touch_last(n.t2, k);
}

/// A hit in the recency history never lowers the partition; a hit in the
/// frequency history never raises it.
pub proof fn lemma_adaptation_direction<V>(m: ArcModel<V>, k: u64, v: V)
    requires
        m.inv(),
    ensures
        m.b1.has(k) ==> m.access(k, v).p >= m.p,
        m.b2.has(k) ==> m.access(k, v).p <= m.p,
{
    assert(m.lists_holding(k) <= 1);
    if m.b1.has(k) {
        let n = ArcModel { b1: m.b1.without(k), p: m.grown_partition(), ..m };
        lemma_ops(m.b1, k, ());
        lemma_ops_valued(m.b1, k, ());
        assert forall|x: u64| #[trigger] n.lists_holding(x) <= 1 by {
            assert(m.lists_holding(x) <= 1);
            assert(n.b1.has(x) == (m.b1.has(x) && x != k));
        }
        lemma_replace(n, false);
    }
    if m.b2.has(k) {
        let n = ArcModel { b2: m.b2.without(k), p: m.shrunk_partition(), ..m };
        lemma_ops(m.b2, k, ());
        lemma_ops_valued(m.b2, k, ());
        assert forall|x: u64| #[trigger] n.lists_holding(x) <= 1 by {
            assert(m.lists_holding(x) <= 1);
            assert(n.b2.has(x) == (m.b2.has(x) && x != k));
        }
        lemma_replace(n, true);
    }
}

} // verus!
