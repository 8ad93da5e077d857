//! The secondary-index structure: an integer-keyed multimap from a key to
//! the duplicate-free list of ids filed under it.

use vstd::prelude::*;

verus! {

/// Packs two 32-bit ids into one index key, injectively: the first id's
/// bit pattern in the upper half, the second's in the lower half.
pub open spec fn spec_pair_key(a: i32, b: i32) -> u64 {
    ((a as u32) as u64 * 0x1_0000_0000 + (b as u32) as u64) as u64
}

/// Two distinct id pairs never share an index key.
pub proof fn lemma_pair_key_injective(a: i32, b: i32, c: i32, d: i32)
    requires
        spec_pair_key(a, b) == spec_pair_key(c, d),
    ensures
        a == c && b == d,
{
    let au = (a as u32) as u64;
    let bu = (b as u32) as u64;
    let cu = (c as u32) as u64;
    let du = (d as u32) as u64;
    assert(au * 0x1_0000_0000 + bu < 0x1_0000_0000_0000_0000) by (nonlinear_arith)
        requires
            au < 0x1_0000_0000 && bu < 0x1_0000_0000,
    ;
    assert(cu * 0x1_0000_0000 + du < 0x1_0000_0000_0000_0000) by (nonlinear_arith)
        requires
            cu < 0x1_0000_0000 && du < 0x1_0000_0000,
    ;
    assert(au == cu && bu == du) by (nonlinear_arith)
        requires
            au * 0x1_0000_0000 + bu == cu * 0x1_0000_0000 + du,
            au < 0x1_0000_0000,
            bu < 0x1_0000_0000,
            cu < 0x1_0000_0000,
            du < 0x1_0000_0000,
    ;
    assert(a as u32 == c as u32);
    assert(b as u32 == d as u32);
    assert(a == c && b == d) by (bit_vector)
        requires
            a as u32 == c as u32 && b as u32 == d as u32,
    ;
}

/// The index key for the ordered pair (`a`, `b`).
pub fn pair_key(a: i32, b: i32) -> (r: u64)
    ensures
        r == spec_pair_key(a, b),
{
    (a as u32 as u64) * 0x1_0000_0000 + (b as u32 as u64)
}

/// A key → ids multimap. Keys are held at most once and each key's id list
/// is duplicate-free; ids keep the order of their insertion.
#[derive(Clone, Debug)]
pub struct IdIndex {
    pub entries: Vec<(u64, Vec<i32>)>,
}

impl IdIndex {
    /// Well-formedness: keys pairwise distinct, every list duplicate-free.
    pub open spec fn wf(self) -> bool {
        &&& forall|i: int, j: int|
            0 <= i < self.entries@.len() && 0 <= j < self.entries@.len() && i != j
                ==> #[trigger] self.entries@[i].0 != #[trigger] self.entries@[j].0
        &&& forall|i: int, a: int, b: int|
            0 <= i < self.entries@.len() && 0 <= a < self.entries@[i].1@.len() && 0 <= b
                < self.entries@[i].1@.len() && a != b ==> #[trigger] self.entries@[i].1@[a]
                != #[trigger] self.entries@[i].1@[b]
    }

    /// Whether some entry carries the key `k`.
    pub open spec fn spec_has_key(self, k: u64) -> bool {
        exists|i: int| 0 <= i < self.entries@.len() && #[trigger] self.entries@[i].0 == k
    }

    /// The ids filed under `k`, in insertion order; empty when `k` is
    /// absent.
    pub open spec fn spec_get(self, k: u64) -> Seq<i32> {
        if self.spec_has_key(k) {
            self.entries@[choose|i: int|
                0 <= i < self.entries@.len() && #[trigger] self.entries@[i].0 == k].1@
        } else {
            Seq::empty()
        }
    }

    /// Whether `v` is filed under `k`.
    pub open spec fn spec_has(self, k: u64, v: i32) -> bool {
        self.spec_get(k).contains(v)
    }

    pub fn new() -> (r: IdIndex)
        ensures
            r.wf(),
            forall|k: u64| #[trigger] r.spec_get(k) == Seq::<i32>::empty(),
    {
        IdIndex { entries: Vec::new() }
    }

    /// The position of the entry holding `key`, if any.
    fn find_entry(&self, key: u64) -> (r: Option<usize>)
        ensures
            match r {
                Some(i) => i < self.entries@.len() && self.entries@[i as int].0 == key,
                None => !self.spec_has_key(key),
            },
    {
        let n = self.entries.len();
        let mut i: usize = 0;
        while i < n
            invariant
                n == self.entries@.len(),
                i <= n,
                forall|a: int| 0 <= a < i ==> #[trigger] self.entries@[a].0 != key,
            decreases n - i,
        {
            if self.entries[i].0 == key {
                return Some(i);
            }
            i += 1;
        }
        None
    }

    /// The ids filed under `key`, if the key is present at all.
    pub fn get(&self, key: u64) -> (r: Option<&Vec<i32>>)
        requires
            self.wf(),
        ensures
            match r {
                Some(v) => self.spec_has_key(key) && v@ == self.spec_get(key) && forall|x: int, y: int|
                    0 <= x < v@.len() && 0 <= y < v@.len() && x != y ==> #[trigger] v@[x]
                        != #[trigger] v@[y],
                None => !self.spec_has_key(key) && self.spec_get(key) == Seq::<i32>::empty(),
            },
    {
        proof {
            if self.spec_has_key(key) {
                let i = choose|i: int|
                    0 <= i < self.entries@.len() && #[trigger] self.entries@[i].0 == key;
            }
        }
        match self.find_entry(key) {
            Some(i) => {
                proof {
                    let j = choose|j: int|
                        0 <= j < self.entries@.len() && #[trigger] self.entries@[j].0 == key;
                    assert(j == i);
                }
                Some(&self.entries[i].1)
            },
            None => None,
        }
    }

    /// Files `value` under `key` unless it is already there: the one
    /// affected list grows by at most that id, every other key's list is
    /// untouched.
    pub fn add(&mut self, key: u64, value: i32)
        requires
            old(self).wf(),
        ensures
            final(self).wf(),
            final(self).spec_get(key) == if old(self).spec_get(key).contains(value) {
                old(self).spec_get(key)
            } else {
                old(self).spec_get(key).push(value)
            },
            forall|k: u64| k != key ==> #[trigger] final(self).spec_get(k) == old(self).spec_get(k),
    {
        let ghost pre = *self;
        match self.find_entry(key) {
            Some(i) => {
                proof {
                    let j = choose|j: int|
                        0 <= j < pre.entries@.len() && #[trigger] pre.entries@[j].0 == key;
                    assert(j == i);
                }
                let mut entry = self.entries.remove(i);
                let present = contains_id(&entry.1, value);
                if !present {
                    entry.1.push(value);
                }
                self.entries.insert(i, entry);
                proof {
                    assert(self.entries@ =~= pre.entries@.update(
                        i as int,
                        self.entries@[i as int],
                    ));
                    assert(self.entries@[i as int].0 == key);
                    assert(forall|a: int|
                        0 <= a < self.entries@.len() && a != i ==> #[trigger] self.entries@[a]
                            == pre.entries@[a]);
                    assert(self.wf());
                    assert forall|k: u64| k != key implies #[trigger] self.spec_get(k)
                        == pre.spec_get(k) by {
                        if pre.spec_has_key(k) {
                            let a = choose|a: int|
                                0 <= a < pre.entries@.len() && #[trigger] pre.entries@[a].0 == k;
                            assert(a != i);
                            assert(self.entries@[a].0 == k);
                            let b = choose|b: int|
                                0 <= b < self.entries@.len() && #[trigger] self.entries@[b].0 == k;
                            assert(b == a);
                        } else {
                            assert(!self.spec_has_key(k));
                        }
                    }
                    let b = choose|b: int|
                        0 <= b < self.entries@.len() && #[trigger] self.entries@[b].0 == key;
                    assert(b == i);
                    let a0 = choose|a0: int|
                        0 <= a0 < pre.entries@.len() && #[trigger] pre.entries@[a0].0 == key;
                    assert(a0 == i);
                }
            },
            None => {
                let mut list: Vec<i32> = Vec::new();
                list.push(value);
                self.entries.push((key, list));
                proof {
                    assert(self.entries@.len() == pre.entries@.len() + 1);
                    assert(forall|a: int|
                        0 <= a < pre.entries@.len() ==> #[trigger] self.entries@[a]
                            == pre.entries@[a]);
                    assert(self.entries@[pre.entries@.len() as int].0 == key);
                    assert(self.wf());
                    assert(!pre.spec_get(key).contains(value));
                    assert forall|k: u64| k != key implies #[trigger] self.spec_get(k)
                        == pre.spec_get(k) by {
                        if pre.spec_has_key(k) {
                            let a = choose|a: int|
                                0 <= a < pre.entries@.len() && #[trigger] pre.entries@[a].0 == k;
                            assert(self.entries@[a].0 == k);
                            let b = choose|b: int|
                                0 <= b < self.entries@.len() && #[trigger] self.entries@[b].0 == k;
                            assert(b == a);
                        } else {
                            assert(!self.spec_has_key(k));
                        }
                    }
                    let b = choose|b: int|
                        0 <= b < self.entries@.len() && #[trigger] self.entries@[b].0 == key;
                    assert(b == pre.entries@.len());
                    assert(self.spec_get(key) =~= pre.spec_get(key).push(value));
                }
            },
        }
    }
}

/// Whether `ids` holds `value`.
pub fn contains_id(ids: &Vec<i32>, value: i32) -> (r: bool)
    ensures
        r == ids@.contains(value),
{
    let n = ids.len();
    let mut i: usize = 0;
    while i < n
        invariant
            n == ids@.len(),
            i <= n,
            forall|a: int| 0 <= a < i ==> #[trigger] ids@[a] != value,
        decreases n - i,
    {
        if ids[i] == value {
            return true;
        }
        i += 1;
    }
    false
}

} // verus!
