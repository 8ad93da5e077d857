//! The generic id-keyed container holding every entity of one kind.

use vstd::prelude::*;

use crate::models::HrdfError;
use crate::models::Keyed;

verus! {

/// An id-keyed store for one entity type: lookup by primary key, ordered
/// resolution of id collections, iteration over all entities. Construction
/// rejects duplicate keys; thereafter the store is read-only.
#[derive(Clone, Debug)]
pub struct IndexedStore<T: Keyed> {
    pub items: Vec<T>,
}

impl<T: Keyed> IndexedStore<T> {
    /// Well-formedness: primary keys are pairwise distinct.
    pub open spec fn wf(self) -> bool {
        forall|i: int, j: int|
            0 <= i < self.items@.len() && 0 <= j < self.items@.len() && i != j
                ==> #[trigger] self.items@[i].key() != #[trigger] self.items@[j].key()
    }

    /// Whether some entity carries the key `k`.
    pub open spec fn spec_contains_key(self, k: int) -> bool {
        exists|i: int| 0 <= i < self.items@.len() && #[trigger] self.items@[i].key() == k
    }

    /// The entity stored under `k`, as a mathematical value.
    pub open spec fn spec_find(self, k: int) -> Option<T> {
        if self.spec_contains_key(k) {
            Some(
                self.items@[choose|i: int|
                    0 <= i < self.items@.len() && #[trigger] self.items@[i].key() == k],
            )
        } else {
            None
        }
    }

    /// Builds a store from already-assembled entities. Duplicate keys are a
    /// caller error: the first key stored twice is rejected as a
    /// data-integrity defect.
    pub fn new(items: Vec<T>) -> (r: Result<IndexedStore<T>, HrdfError>)
        ensures
            match r {
                Ok(s) => s.items@ == items@ && s.wf(),
                Err(e) => {
                    &&& e matches HrdfError::DataIntegrity { id }
                    &&& exists|i: int, j: int|
                        0 <= i < items@.len() && 0 <= j < items@.len() && i != j
                            && #[trigger] items@[i].key() == #[trigger] items@[j].key()
                },
            },
    {
        let n = items.len();
        let mut i: usize = 0;
        while i < n
            invariant
                n == items@.len(),
                i <= n,
                forall|a: int, b: int|
                    0 <= a < i && 0 <= b < i && a != b
                        ==> #[trigger] items@[a].key() != #[trigger] items@[b].key(),
            decreases n - i,
        {
            let key_i = items[i].id();
            let mut j: usize = 0;
            while j < i
                invariant
                    i < n,
                    n == items@.len(),
                    j <= i,
                    key_i as int == items@[i as int].key(),
                    forall|b: int| 0 <= b < j ==> #[trigger] items@[b].key() != key_i as int,
                decreases i - j,
            {
                if items[j].id() == key_i {
                    return Err(HrdfError::DataIntegrity { id: key_i });
                }
                j += 1;
            }
            i += 1;
        }
        Ok(IndexedStore { items })
    }

    /// The number of entities stored.
    pub fn len(&self) -> (r: usize)
        ensures
            r == self.items@.len(),
    {
        self.items.len()
    }

    /// All entities, in storage order.
    pub fn entities(&self) -> (r: &Vec<T>)
        ensures
            r@ == self.items@,
    {
        &self.items
    }

    /// Whether an entity is stored under `id`.
    pub fn contains_key(&self, id: i32) -> (r: bool)
        requires
            self.wf(),
        ensures
            r == self.spec_contains_key(id as int),
    {
        match self.find(id) {
            Ok(_) => {
                proof {
                    assert(self.spec_contains_key(id as int));
                }
                true
            },
            Err(_) => false,
        }
    }

    /// Looks an entity up by its primary key; an unknown key is a typed
    /// `NotFound` failure.
    pub fn find(&self, id: i32) -> (r: Result<&T, HrdfError>)
        requires
            self.wf(),
        ensures
            match r {
                Ok(e) => self.spec_find(id as int) == Some(*e),
                Err(err) => err == (HrdfError::NotFound { id }) && self.spec_find(id as int) is None,
            },
    {
        let n = self.items.len();
        let mut i: usize = 0;
        while i < n
            invariant
                self.wf(),
                n == self.items@.len(),
                i <= n,
                forall|a: int| 0 <= a < i ==> #[trigger] self.items@[a].key() != id as int,
            decreases n - i,
        {
            if self.items[i].id() == id {
                return Ok(&self.items[i]);
            }
            i += 1;
        }
        Err(HrdfError::NotFound { id })
    }

    /// Maps an ordered id collection to entity references, preserving the
    /// input order and failing on the first unknown id.
    pub fn resolve_ids(&self, ids: &Vec<i32>) -> (r: Result<Vec<&T>, HrdfError>)
        requires
            self.wf(),
        ensures
            match r {
                Ok(v) => {
                    &&& v@.len() == ids@.len()
                    &&& forall|i: int|
                        0 <= i < ids@.len() ==> self.spec_find(ids@[i] as int) == Some(
                            *#[trigger] v@[i],
                        )
                },
                Err(err) => {
                    &&& err matches HrdfError::NotFound { id }
                    &&& exists|i: int|
                        0 <= i < ids@.len() && #[trigger] ids@[i] == id && self.spec_find(
                            ids@[i] as int,
                        ) is None
                },
            },
    {
        let mut out: Vec<&T> = Vec::new();
        let n = ids.len();
        let mut i: usize = 0;
        while i < n
            invariant
                self.wf(),
                n == ids@.len(),
                i <= n,
                out@.len() == i,
                forall|a: int|
                    0 <= a < i ==> self.spec_find(ids@[a] as int) == Some(*#[trigger] out@[a]),
            decreases n - i,
        {
            match self.find(ids[i]) {
                Ok(e) => out.push(e),
                Err(err) => {
                    return Err(err);
                },
            }
            i += 1;
        }
        Ok(out)
    }
}

/// The lookup law of the store: an entity stored under a key is exactly
/// what looking that key up yields. Together with `find`'s contract this
/// says that `find` on the id under which an entity was stored returns
/// that very entity.
pub proof fn lemma_find_stored<T: Keyed>(s: IndexedStore<T>, i: int)
    requires
        s.wf(),
        0 <= i < s.items@.len(),
    ensures
        s.spec_find(s.items@[i].key()) == Some(s.items@[i]),
{
    let k = s.items@[i].key();
    assert(s.spec_contains_key(k));
    let j = choose|j: int| 0 <= j < s.items@.len() && #[trigger] s.items@[j].key() == k;
    assert(j == i);
}

} // verus!
