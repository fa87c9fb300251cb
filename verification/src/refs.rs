//! Reference-count bookkeeping for the palette builders.
//!
//! A color is part of the palette under construction exactly while at least
//! one builder node references it.  `RefMap` maps a packed color key to the
//! number of references; `PaletteRefs` ties it to the number of live simplex
//! nodes, each of which holds exactly four references.

use vstd::prelude::*;

use crate::color::Srgb8;
use crate::color::lemma_key_injective;

verus! {

/// Sum of `f` over the entries of `s`.
spec fn sum_by(s: Seq<(u32, u64)>, f: spec_fn((u32, u64)) -> int) -> int
    decreases s.len(),
{
    if s.len() == 0 {
        0
    } else {
        f(s.last()) + sum_by(s.drop_last(), f)
    }
}

/// The contribution of one entry to the reference count of key `k`.
spec fn count_weight(k: u32) -> spec_fn((u32, u64)) -> int {
    |e: (u32, u64)| if e.0 == k { e.1 as int } else { 0 }
}

/// The contribution of one entry to the total reference count.
spec fn total_weight() -> spec_fn((u32, u64)) -> int {
    |e: (u32, u64)| e.1 as int
}

proof fn lemma_sum_by_push(s: Seq<(u32, u64)>, f: spec_fn((u32, u64)) -> int, e: (u32, u64))
    ensures
        sum_by(s.push(e), f) == sum_by(s, f) + f(e),
{
    assert(s.push(e).drop_last() =~= s);
    assert(s.push(e).last() == e);
}

proof fn lemma_sum_by_update(s: Seq<(u32, u64)>, f: spec_fn((u32, u64)) -> int, i: int, e: (u32, u64))
    requires
        0 <= i < s.len(),
    ensures
        sum_by(s.update(i, e), f) == sum_by(s, f) - f(s[i]) + f(e),
    decreases s.len(),
{
    if i == s.len() - 1 {
        assert(s.update(i, e).drop_last() =~= s.drop_last());
        assert(s.update(i, e).last() == e);
    } else {
        assert(s.update(i, e).drop_last() =~= s.drop_last().update(i, e));
        assert(s.update(i, e).last() == s.last());
        lemma_sum_by_update(s.drop_last(), f, i, e);
    }
}

proof fn lemma_sum_by_remove(s: Seq<(u32, u64)>, f: spec_fn((u32, u64)) -> int, i: int)
    requires
        0 <= i < s.len(),
    ensures
        sum_by(s.remove(i), f) == sum_by(s, f) - f(s[i]),
    decreases s.len(),
{
    if i == s.len() - 1 {
        assert(s.remove(i) =~= s.drop_last());
    } else {
        assert(s.remove(i).drop_last() =~= s.drop_last().remove(i));
        assert(s.remove(i).last() == s.last());
        lemma_sum_by_remove(s.drop_last(), f, i);
    }
}

/// If no entry carries key `k`, the count of `k` is zero.
proof fn lemma_count_absent(s: Seq<(u32, u64)>, k: u32)
    requires
        forall|j: int| 0 <= j < s.len() ==> (#[trigger] s[j]).0 != k,
    ensures
        sum_by(s, count_weight(k)) == 0,
    decreases s.len(),
{
    if s.len() > 0 {
        assert(s.last() == s[s.len() - 1]);
        assert(forall|j: int| 0 <= j < s.drop_last().len() ==> (#[trigger] s.drop_last()[j]).0 != k);
        lemma_count_absent(s.drop_last(), k);
    }
}

/// With distinct keys, the count of a key is the count stored in its entry.
proof fn lemma_count_found(s: Seq<(u32, u64)>, i: int, k: u32)
    requires
        0 <= i < s.len(),
        s[i].0 == k,
        forall|p: int, q: int| #![trigger s[p], s[q]] 0 <= p < q < s.len() ==> s[p].0 != s[q].0,
    ensures
        sum_by(s, count_weight(k)) == s[i].1,
    decreases s.len(),
{
    if i == s.len() - 1 {
        assert(forall|j: int| 0 <= j < s.drop_last().len() ==> (#[trigger] s.drop_last()[j]).0 != k);
        lemma_count_absent(s.drop_last(), k);
    } else {
        assert(s.last() == s[s.len() - 1]);
        assert(s.last().0 != k);
        assert(forall|p: int, q: int| #![trigger s.drop_last()[p], s.drop_last()[q]]
            0 <= p < q < s.drop_last().len() ==> s.drop_last()[p].0 != s.drop_last()[q].0);
        lemma_count_found(s.drop_last(), i, k);
    }
}

/// Every per-key count is non-negative and at most the total.
proof fn lemma_count_le_total(s: Seq<(u32, u64)>, k: u32)
    ensures
        0 <= sum_by(s, count_weight(k)) <= sum_by(s, total_weight()),
    decreases s.len(),
{
    if s.len() > 0 {
        lemma_count_le_total(s.drop_last(), k);
    }
}

/// A multiset of reference counts over colors, keyed by the packed color.
pub struct RefMap {
    entries: Vec<(u32, u64)>,
}

impl RefMap {
    /// Keys are distinct packed colors and every stored count is positive.
    pub closed spec fn wf(self) -> bool {
        &&& forall|p: int, q: int| #![trigger self.entries@[p], self.entries@[q]]
                0 <= p < q < self.entries@.len() ==> self.entries@[p].0 != self.entries@[q].0
        &&& forall|i: int| 0 <= i < self.entries@.len()
                ==> (#[trigger] self.entries@[i]).1 >= 1 && self.entries@[i].0 < 0x1000000
    }

    /// How many references color key `k` currently holds.
    pub closed spec fn count(self, k: u32) -> int {
        sum_by(self.entries@, count_weight(k))
    }

    /// A color is in the palette in progress iff its count is positive.
    pub open spec fn contains(self, k: u32) -> bool {
        self.count(k) > 0
    }

    /// The sum of all reference counts.
    pub closed spec fn total(self) -> int {
        sum_by(self.entries@, total_weight())
    }

    /// The number of distinct colors currently referenced.
    pub closed spec fn num_colors(self) -> int {
        self.entries@.len() as int
    }

    pub proof fn lemma_count_total(self, k: u32)
        ensures
            0 <= self.count(k) <= self.total(),
    {
        lemma_count_le_total(self.entries@, k);
    }

    pub fn new() -> (m: RefMap)
        ensures
            m.wf(),
            m.total() == 0,
            m.num_colors() == 0,
            forall|k: u32| m.count(k) == 0,
    {
        let m = RefMap { entries: Vec::new() };
        proof {
            assert forall|k: u32| m.count(k) == 0 by {
                lemma_count_absent(m.entries@, k);
            }
        }
        m
    }

    /// The index of the entry for `k`, if one exists.
    fn find(&self, k: u32) -> (r: Option<usize>)
        ensures
            match r {
                Some(i) => i < self.entries@.len() && self.entries@[i as int].0 == k,
                None => forall|j: int| 0 <= j < self.entries@.len()
                    ==> (#[trigger] self.entries@[j]).0 != k,
            },
    {
        let n = self.entries.len();
        let mut i: usize = 0;
        while i < n
            invariant
                i <= n,
                n == self.entries@.len(),
                forall|j: int| 0 <= j < i ==> (#[trigger] self.entries@[j]).0 != k,
            decreases n - i,
        {
            if self.entries[i].0 == k {
                return Some(i);
            }
            i = i + 1;
        }
        None
    }

    pub fn contains_key(&self, k: u32) -> (r: bool)
        requires
            self.wf(),
        ensures
            r == self.contains(k),
    {
        match self.find(k) {
            Some(i) => {
                proof {
                    lemma_count_found(self.entries@, i as int, k);
                }
                true
            },
            None => {
                proof {
                    lemma_count_absent(self.entries@, k);
                }
                false
            },
        }
    }

    pub fn count_of(&self, k: u32) -> (r: u64)
        requires
            self.wf(),
        ensures
            r == self.count(k),
    {
        match self.find(k) {
            Some(i) => {
                proof {
                    lemma_count_found(self.entries@, i as int, k);
                }
                self.entries[i].1
            },
            None => {
                proof {
                    lemma_count_absent(self.entries@, k);
                }
                0
            },
        }
    }

    /// Adds one reference to color key `k`.
    pub fn incr(&mut self, k: u32)
        requires
            old(self).wf(),
            k < 0x1000000,
            old(self).total() < u64::MAX,
        ensures
            final(self).wf(),
            final(self).count(k) == old(self).count(k) + 1,
            forall|k2: u32| k2 != k ==> final(self).count(k2) == old(self).count(k2),
            final(self).total() == old(self).total() + 1,
            final(self).num_colors() == old(self).num_colors()
                + if old(self).contains(k) { 0int } else { 1int },
    {
        proof {
            lemma_count_le_total(self.entries@, k);
        }
        match self.find(k) {
            Some(i) => {
                proof {
                    lemma_count_found(self.entries@, i as int, k);
                }
                let c = self.entries[i].1;
                let ghost s0 = self.entries@;
                self.entries[i] = (k, c + 1);
                proof {
                    assert forall|k2: u32| #[trigger] final(self).count(k2) - old(self).count(k2)
                        == if k2 == k { 1int } else { 0int } by {
                        lemma_sum_by_update(s0, count_weight(k2), i as int, (k, (c + 1) as u64));
                    }
                    lemma_sum_by_update(s0, total_weight(), i as int, (k, (c + 1) as u64));
                }
            },
            None => {
                proof {
                    lemma_count_absent(self.entries@, k);
                }
                let ghost s0 = self.entries@;
                self.entries.push((k, 1));
                proof {
                    assert forall|k2: u32| #[trigger] final(self).count(k2) - old(self).count(k2)
                        == if k2 == k { 1int } else { 0int } by {
                        lemma_sum_by_push(s0, count_weight(k2), (k, 1u64));
                    }
                    lemma_sum_by_push(s0, total_weight(), (k, 1u64));
                }
            },
        }
    }

    /// Drops one reference to color key `k`; the color leaves the palette
    /// when its last reference is dropped.
    pub fn decr(&mut self, k: u32)
        requires
            old(self).wf(),
            old(self).contains(k),
        ensures
            final(self).wf(),
            final(self).count(k) == old(self).count(k) - 1,
            forall|k2: u32| k2 != k ==> final(self).count(k2) == old(self).count(k2),
            final(self).total() == old(self).total() - 1,
            final(self).num_colors() == old(self).num_colors()
                - if old(self).count(k) == 1 { 1int } else { 0int },
    {
        match self.find(k) {
            Some(i) => {
                proof {
                    lemma_count_found(self.entries@, i as int, k);
                }
                let c = self.entries[i].1;
                let ghost s0 = self.entries@;
                if c == 1 {
                    self.entries.remove(i);
                    proof {
                        assert forall|k2: u32| #[trigger] final(self).count(k2) - old(self).count(k2)
                            == if k2 == k { -1int } else { 0int } by {
                            lemma_sum_by_remove(s0, count_weight(k2), i as int);
                        }
                        lemma_sum_by_remove(s0, total_weight(), i as int);
                    }
                } else {
                    self.entries[i] = (k, c - 1);
                    proof {
                        assert forall|k2: u32| #[trigger] final(self).count(k2) - old(self).count(k2)
                            == if k2 == k { -1int } else { 0int } by {
                            lemma_sum_by_update(s0, count_weight(k2), i as int, (k, (c - 1) as u64));
                        }
                        lemma_sum_by_update(s0, total_weight(), i as int, (k, (c - 1) as u64));
                    }
                }
            },
            None => {
                // Unreachable: `contains(k)` rules it out.
                proof {
                    lemma_count_absent(self.entries@, k);
                }
                unreached()
            },
        }
    }

    /// Removes every reference to color key `k` at once.
    pub fn remove_key(&mut self, k: u32)
        requires
            old(self).wf(),
        ensures
            final(self).wf(),
            final(self).count(k) == 0,
            forall|k2: u32| k2 != k ==> final(self).count(k2) == old(self).count(k2),
            final(self).total() == old(self).total() - old(self).count(k),
            final(self).num_colors() == old(self).num_colors()
                - if old(self).contains(k) { 1int } else { 0int },
    {
        match self.find(k) {
            Some(i) => {
                proof {
                    lemma_count_found(self.entries@, i as int, k);
                }
                let ghost s0 = self.entries@;
                self.entries.remove(i);
                proof {
                    assert forall|k2: u32| #[trigger] final(self).count(k2) - old(self).count(k2)
                        == if k2 == k { -old(self).count(k) } else { 0int } by {
                        lemma_sum_by_remove(s0, count_weight(k2), i as int);
                        if k2 == k {
                            lemma_count_absent(self.entries@, k);
                        }
                    }
                    lemma_sum_by_remove(s0, total_weight(), i as int);
                }
            },
            None => {
                proof {
                    lemma_count_absent(self.entries@, k);
                }
            },
        }
    }

    /// Sets the count of color key `k` to exactly one reference.
    pub fn set_one(&mut self, k: u32)
        requires
            old(self).wf(),
            k < 0x1000000,
        ensures
            final(self).wf(),
            final(self).count(k) == 1,
            forall|k2: u32| k2 != k ==> final(self).count(k2) == old(self).count(k2),
            final(self).total() == old(self).total() - old(self).count(k) + 1,
            final(self).num_colors() == old(self).num_colors()
                + if old(self).contains(k) { 0int } else { 1int },
    {
        match self.find(k) {
            Some(i) => {
                proof {
                    lemma_count_found(self.entries@, i as int, k);
                }
                let ghost s0 = self.entries@;
                self.entries[i] = (k, 1);
                proof {
                    assert forall|k2: u32| #[trigger] final(self).count(k2) - old(self).count(k2)
                        == if k2 == k { 1 - old(self).count(k) } else { 0int } by {
                        lemma_sum_by_update(s0, count_weight(k2), i as int, (k, 1u64));
                        if k2 == k {
                            lemma_count_found(self.entries@, i as int, k);
                        }
                    }
                    lemma_sum_by_update(s0, total_weight(), i as int, (k, 1u64));
                }
            },
            None => {
                proof {
                    lemma_count_absent(self.entries@, k);
                }
                let ghost s0 = self.entries@;
                self.entries.push((k, 1));
                proof {
                    assert forall|k2: u32| #[trigger] final(self).count(k2) - old(self).count(k2)
                        == if k2 == k { 1int } else { 0int } by {
                        lemma_sum_by_push(s0, count_weight(k2), (k, 1u64));
                    }
                    lemma_sum_by_push(s0, total_weight(), (k, 1u64));
                }
            },
        }
    }

    /// If every color of `b` is a color of `a` or lies in the finite set
    /// `s`, then `b` holds at most `s.len()` more colors than `a`.
    pub proof fn lemma_num_colors_bound(a: RefMap, b: RefMap, s: Set<u32>)
        requires
            a.wf(),
            b.wf(),
            s.finite(),
            forall|k: u32| b.contains(k) ==> a.contains(k) || s.contains(k),
        ensures
            b.num_colors() <= a.num_colors() + s.len(),
    {
        let ka = a.entries@.map_values(|e: (u32, u64)| e.0);
        let kb = b.entries@.map_values(|e: (u32, u64)| e.0);
        assert(kb.no_duplicates()) by {
            assert forall|i: int, j: int| 0 <= i < kb.len() && 0 <= j < kb.len() && i != j
                implies kb[i] != kb[j] by {
                assert(kb[i] == b.entries@[i].0 && kb[j] == b.entries@[j].0);
            }
        }
        kb.unique_seq_to_set();
        vstd::seq_lib::seq_to_set_is_finite(ka);
        ka.lemma_cardinality_of_set();
        assert(kb.to_set().subset_of(ka.to_set().union(s))) by {
            assert forall|k: u32| kb.to_set().contains(k)
                implies ka.to_set().union(s).contains(k) by {
                let i = choose|i: int| 0 <= i < kb.len() && kb[i] == k;
                assert(kb[i] == b.entries@[i].0);
                lemma_count_found(b.entries@, i, k);
                assert(b.contains(k));
                if a.contains(k) {
                    if forall|j: int| 0 <= j < a.entries@.len()
                        ==> (#[trigger] a.entries@[j]).0 != k {
                        lemma_count_absent(a.entries@, k);
                    }
                    let j = choose|j: int| 0 <= j < a.entries@.len()
                        && (#[trigger] a.entries@[j]).0 == k;
                    assert(ka[j] == k);
                    assert(ka.contains(k));
                    assert(ka.to_set().contains(k));
                }
            }
        }
        vstd::set_lib::lemma_len_subset(kb.to_set(), ka.to_set().union(s));
        vstd::set_lib::lemma_len_union(ka.to_set(), s);
    }

    /// A map whose every count is zero holds no colors.
    pub proof fn lemma_all_zero_empty(self)
        requires
            self.wf(),
            forall|k: u32| self.count(k) == 0,
        ensures
            self.num_colors() == 0,
    {
        if self.entries@.len() > 0 {
            lemma_count_found(self.entries@, 0, self.entries@[0].0);
            assert(self.count(self.entries@[0].0) == 0);
        }
    }

    /// The number of distinct colors currently referenced.
    pub fn len(&self) -> (n: usize)
        requires
            self.wf(),
        ensures
            n == self.num_colors(),
    {
        self.entries.len()
    }

    /// The referenced colors, each exactly once: the palette in progress.
    pub fn colors(&self) -> (r: Vec<Srgb8>)
        requires
            self.wf(),
        ensures
            r@.len() == self.num_colors(),
            forall|i: int| 0 <= i < r@.len() ==> self.contains((#[trigger] r@[i]).key_spec() as u32),
            forall|i: int, j: int| #![trigger r@[i], r@[j]]
                0 <= i < j < r@.len() ==> r@[i] != r@[j],
            forall|k: u32| self.contains(k) ==> exists|i: int|
                0 <= i < r@.len() && (#[trigger] r@[i]).key_spec() == k,
    {
        let n = self.entries.len();
        let mut r: Vec<Srgb8> = Vec::new();
        let mut i: usize = 0;
        while i < n
            invariant
                self.wf(),
                i <= n,
                n == self.entries@.len(),
                r@.len() == i,
                forall|j: int| 0 <= j < i
                    ==> (#[trigger] r@[j]).key_spec() == self.entries@[j].0,
            decreases n - i,
        {
            let k = self.entries[i].0;
            assert(k < 0x1000000);
            r.push(Srgb8::from_key(k));
            i = i + 1;
        }
        proof {
            assert forall|i2: int| 0 <= i2 < r@.len()
                implies self.contains((#[trigger] r@[i2]).key_spec() as u32) by {
                assert(r@[i2].key_spec() == self.entries@[i2].0);
                lemma_count_found(self.entries@, i2, self.entries@[i2].0);
            }
            assert forall|k: u32| self.contains(k) implies exists|i2: int|
                0 <= i2 < r@.len() && (#[trigger] r@[i2]).key_spec() == k by {
                if forall|j: int| 0 <= j < self.entries@.len()
                    ==> (#[trigger] self.entries@[j]).0 != k {
                    lemma_count_absent(self.entries@, k);
                } else {
                    let j = choose|j: int| 0 <= j < self.entries@.len()
                        && (#[trigger] self.entries@[j]).0 == k;
                    assert(r@[j].key_spec() == k);
                }
            }
        }
        r
    }
}

/// The reference counts of a simplex-cut palette build, together with the
/// number of live nodes.  Every live node holds exactly four references, one
/// per vertex.
pub struct PaletteRefs {
    map: RefMap,
    live: u64,
}

/// How many of the four vertex slots of `v` carry color key `k`.
pub open spec fn mult4(v: [Srgb8; 4], k: u32) -> int {
    (if v[0].key_spec() == k { 1int } else { 0int })
    + (if v[1].key_spec() == k { 1int } else { 0int })
    + (if v[2].key_spec() == k { 1int } else { 0int })
    + (if v[3].key_spec() == k { 1int } else { 0int })
}

impl PaletteRefs {
    /// Reference-count consistency: the counts sum to four references per
    /// live node.
    pub closed spec fn wf(self) -> bool {
        &&& self.map.wf()
        &&& self.live <= 0x3fff_ffff_ffff_ffffu64
        &&& self.map.total() == 4 * self.live as int
    }

    pub closed spec fn count(self, k: u32) -> int {
        self.map.count(k)
    }

    pub open spec fn contains(self, k: u32) -> bool {
        self.count(k) > 0
    }

    pub closed spec fn total_refs(self) -> int {
        self.map.total()
    }

    pub closed spec fn live_nodes(self) -> int {
        self.live as int
    }

    pub closed spec fn palette_len(self) -> int {
        self.map.num_colors()
    }

    pub fn new() -> (p: PaletteRefs)
        ensures
            p.wf(),
            p.live_nodes() == 0,
            p.total_refs() == 0,
            p.palette_len() == 0,
            forall|k: u32| p.count(k) == 0,
    {
        PaletteRefs { map: RefMap::new(), live: 0 }
    }

    pub fn palette_size(&self) -> (n: usize)
        requires
            self.wf(),
        ensures
            n == self.palette_len(),
    {
        self.map.len()
    }

    pub fn contains_color(&self, c: Srgb8) -> (r: bool)
        requires
            self.wf(),
        ensures
            r == self.contains(c.key_spec() as u32),
    {
        self.map.contains_key(c.key())
    }

    pub fn count_of(&self, c: Srgb8) -> (r: u64)
        requires
            self.wf(),
        ensures
            r == self.count(c.key_spec() as u32),
    {
        self.map.count_of(c.key())
    }

    /// Registers a new live node with vertex colors `v`: four references.
    /// Fails (returning `false`, changing nothing) only when the node
    /// counter would overflow.
    pub fn add_node(&mut self, v: [Srgb8; 4]) -> (ok: bool)
        requires
            old(self).wf(),
        ensures
            final(self).wf(),
            ok == (old(self).live_nodes() < 0x3fff_ffff_ffff_ffffu64),
            ok ==> {
                &&& final(self).live_nodes() == old(self).live_nodes() + 1
                &&& final(self).total_refs() == old(self).total_refs() + 4
                &&& forall|k: u32| final(self).count(k) == old(self).count(k) + mult4(v, k)
                &&& old(self).palette_len() <= final(self).palette_len()
                    <= old(self).palette_len() + 4
            },
            !ok ==> *final(self) == *old(self),
    {
        if self.live >= 0x3fff_ffff_ffff_ffffu64 {
            return false;
        }
        self.map.incr(v[0].key());
        self.map.incr(v[1].key());
        self.map.incr(v[2].key());
        self.map.incr(v[3].key());
        self.live = self.live + 1;
        true
    }

    /// Releases the four references of a node with vertex colors `v`, and
    /// retires the node.  Fails (returning `false`, changing nothing) when
    /// some slot's color is not referenced often enough, which cannot happen
    /// for a node that was registered and whose vertex moves went through
    /// `move_vertex`.
    pub fn release_node(&mut self, v: [Srgb8; 4]) -> (ok: bool)
        requires
            old(self).wf(),
        ensures
            final(self).wf(),
            ok == forall|k: u32| old(self).count(k) >= mult4(v, k),
            ok ==> {
                &&& final(self).live_nodes() == old(self).live_nodes() - 1
                &&& final(self).total_refs() == old(self).total_refs() - 4
                &&& forall|k: u32| final(self).count(k) == old(self).count(k) - mult4(v, k)
                &&& final(self).palette_len() <= old(self).palette_len()
            },
            !ok ==> *final(self) == *old(self),
    {
        // Check that all four decrements are possible before doing any.
        let k0 = v[0].key();
        let k1 = v[1].key();
        let k2 = v[2].key();
        let k3 = v[3].key();
        let m0 = 1u64
            + if k1 == k0 { 1u64 } else { 0u64 }
            + if k2 == k0 { 1u64 } else { 0u64 }
            + if k3 == k0 { 1u64 } else { 0u64 };
        let m1 = 1u64
            + if k0 == k1 { 1u64 } else { 0u64 }
            + if k2 == k1 { 1u64 } else { 0u64 }
            + if k3 == k1 { 1u64 } else { 0u64 };
        let m2 = 1u64
            + if k0 == k2 { 1u64 } else { 0u64 }
            + if k1 == k2 { 1u64 } else { 0u64 }
            + if k3 == k2 { 1u64 } else { 0u64 };
        let m3 = 1u64
            + if k0 == k3 { 1u64 } else { 0u64 }
            + if k1 == k3 { 1u64 } else { 0u64 }
            + if k2 == k3 { 1u64 } else { 0u64 };
        let ok = self.map.count_of(k0) >= m0 && self.map.count_of(k1) >= m1
            && self.map.count_of(k2) >= m2 && self.map.count_of(k3) >= m3;
        proof {
            assert forall|k: u32| ok implies old(self).count(k) >= mult4(v, k) by {
                self.map.lemma_count_total(k);
            }
            if !ok {
                assert(!(old(self).count(k0) >= mult4(v, k0)
                    && old(self).count(k1) >= mult4(v, k1)
                    && old(self).count(k2) >= mult4(v, k2)
                    && old(self).count(k3) >= mult4(v, k3)));
            }
        }
        if !ok {
            return false;
        }
        proof {
            self.map.lemma_count_total(k0);
        }
        self.map.decr(k0);
        self.map.decr(k1);
        self.map.decr(k2);
        self.map.decr(k3);
        self.live = self.live - 1;
        true
    }

    /// Moves one vertex reference from color `from` to color `to`, but only
    /// under the shrink-fit guard: the move happens exactly when the colors
    /// differ, `from` is referenced, and either this is the last reference to
    /// `from` or `to` is already in the palette.  The guard is what keeps a
    /// shrink-fit from silently dropping a color another node still uses, and
    /// a successful move never grows the palette.
    pub fn move_vertex(&mut self, from: Srgb8, to: Srgb8) -> (moved: bool)
        requires
            old(self).wf(),
        ensures
            final(self).wf(),
            moved == {
                &&& from != to
                &&& old(self).contains(from.key_spec() as u32)
                &&& (old(self).count(from.key_spec() as u32) == 1
                    || old(self).contains(to.key_spec() as u32))
            },
            moved ==> {
                &&& final(self).count(from.key_spec() as u32)
                    == old(self).count(from.key_spec() as u32) - 1
                &&& final(self).count(to.key_spec() as u32)
                    == old(self).count(to.key_spec() as u32) + 1
                &&& forall|k: u32| k != from.key_spec() && k != to.key_spec()
                    ==> final(self).count(k) == old(self).count(k)
                &&& final(self).total_refs() == old(self).total_refs()
                &&& final(self).live_nodes() == old(self).live_nodes()
                &&& final(self).palette_len() <= old(self).palette_len()
            },
            !moved ==> *final(self) == *old(self),
    {
        let kf = from.key();
        let kt = to.key();
        proof {
            lemma_key_injective(from, to);
        }
        if kf == kt {
            return false;
        }
        let cf = self.map.count_of(kf);
        if cf == 0 {
            return false;
        }
        if !(cf == 1 || self.map.contains_key(kt)) {
            return false;
        }
        proof {
            self.map.lemma_count_total(kf);
        }
        self.map.decr(kf);
        self.map.incr(kt);
        true
    }

    /// The colors of the palette in progress, each exactly once.
    pub fn colors(&self) -> (r: Vec<Srgb8>)
        requires
            self.wf(),
        ensures
            r@.len() == self.palette_len(),
            forall|i: int| 0 <= i < r@.len() ==> self.contains((#[trigger] r@[i]).key_spec() as u32),
            forall|i: int, j: int| #![trigger r@[i], r@[j]]
                0 <= i < j < r@.len() ==> r@[i] != r@[j],
            forall|k: u32| self.contains(k) ==> exists|i: int|
                0 <= i < r@.len() && (#[trigger] r@[i]).key_spec() == k,
    {
        let r = self.map.colors();
        proof {
            assert forall|k: u32| self.contains(k) implies exists|i: int|
                0 <= i < r@.len() && (#[trigger] r@[i]).key_spec() == k by {
                assert(self.map.contains(k));
            }
        }
        r
    }
}

/// Reference-count consistency: in every state reachable through this
/// interface, the reference counts sum to exactly four per live node.
pub proof fn lemma_reference_count_consistency(p: PaletteRefs)
    requires
        p.wf(),
    ensures
        p.total_refs() == 4 * p.live_nodes(),
{
}

} // verus!
