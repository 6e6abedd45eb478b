//! The isolating intervals computed for expressions, one per expression and precision,
//! kept sorted by expression and then precision.
use crate::algebraic::IsolatingInterval;
use crate::expr_error::StorageError;
use crate::id::{AbsoluteBits, ExprId};
use crate::storage::{required_elements, reserve_entries, StorageResource};
use vstd::prelude::*;

verus! {

/// `a` comes before `b`: by expression, then by precision.
pub open spec fn cache_key_lt(a: (u32, u32), b: (u32, u32)) -> bool {
    a.0 < b.0 || (a.0 == b.0 && a.1 < b.1)
}

/// The keys strictly increase.
pub open spec fn cache_sorted<V>(s: Seq<((u32, u32), V)>) -> bool {
    forall|i: int, j: int| 0 <= i < j < s.len() ==> cache_key_lt(s[i].0, s[j].0)
}

/// `s` holds an entry with key `key`.
pub open spec fn cache_has<V>(s: Seq<((u32, u32), V)>, key: (u32, u32)) -> bool {
    exists|i: int| 0 <= i < s.len() && s[i].0 == key
}

/// The view of a cached interval: the number and its enclosure.
pub type IntervalView = ((Seq<int>, usize), ((int, nat), (int, nat)));

/// The isolating interval of each expression at each precision.
#[derive(Debug, Eq, PartialEq)]
pub struct IsolationCache {
    entries: Vec<((ExprId, AbsoluteBits), IsolatingInterval)>,
}

/// The view of one entry.
pub open spec fn cache_entry_view(e: ((ExprId, AbsoluteBits), IsolatingInterval)) -> ((u32, u32), IntervalView) {
    ((e.0.0@, e.0.1@), e.1@)
}

/// The views of the entries.
pub open spec fn cache_views(s: Seq<((ExprId, AbsoluteBits), IsolatingInterval)>) -> Seq<((u32, u32), IntervalView)> {
    Seq::new(s.len(), |i: int| cache_entry_view(s[i]))
}

impl View for IsolationCache {
    type V = Seq<((u32, u32), IntervalView)>;

    closed spec fn view(&self) -> Seq<((u32, u32), IntervalView)> {
        cache_views(self.entries@)
    }
}

/// Where `key` is in `entries`, or where it would go.
fn find_cache_key(entries: &Vec<((ExprId, AbsoluteBits), IsolatingInterval)>, key: (u32, u32)) -> (r: Result<
    usize,
    usize,
>)
    requires
        cache_sorted(cache_views(entries@)),
    ensures
        match r {
            Ok(i) => i < entries@.len() && cache_views(entries@)[i as int].0 == key,
            Err(i) => i <= entries@.len() && (forall|j: int|
                0 <= j < i ==> cache_key_lt(#[trigger] cache_views(entries@)[j].0, key)) && (forall|j: int|
                i <= j < entries@.len() ==> cache_key_lt(key, #[trigger] cache_views(entries@)[j].0)),
        },
{
    let ghost v = cache_views(entries@);
    let mut low: usize = 0;
    let mut high: usize = entries.len();
    while low < high
        invariant
            low <= high <= entries@.len(),
            v == cache_views(entries@),
            cache_sorted(v),
            forall|j: int| 0 <= j < low ==> cache_key_lt(#[trigger] v[j].0, key),
            forall|j: int| high <= j < entries@.len() ==> cache_key_lt(key, #[trigger] v[j].0),
        decreases high - low,
    {
        let middle = low + (high - low) / 2;
        let candidate = (entries[middle].0.0.get(), entries[middle].0.1.get());
        proof {
            assert(v[middle as int].0 == candidate);
        }
        if candidate.0 == key.0 && candidate.1 == key.1 {
            return Ok(middle);
        } else if candidate.0 < key.0 || (candidate.0 == key.0 && candidate.1 < key.1) {
            proof {
                assert forall|j: int| 0 <= j < middle + 1 implies cache_key_lt(#[trigger] v[j].0, key) by {
                    if j < middle {
                        assert(cache_key_lt(v[j].0, v[middle as int].0));
                    }
                }
            }
            low = middle + 1;
        } else {
            proof {
                assert forall|j: int| middle <= j < entries@.len() implies cache_key_lt(key, #[trigger] v[j].0) by {
                    if j > middle {
                        assert(cache_key_lt(v[middle as int].0, v[j].0));
                    }
                }
            }
            high = middle;
        }
    }
    Err(low)
}

impl IsolationCache {
    /// Keys strictly increase: holds of every value of this type.
    #[verifier::type_invariant]
    pub open spec fn well_formed(self) -> bool {
        cache_sorted(self@)
    }

    /// An empty cache.
    pub fn new() -> (r: Self)
        ensures
            r@ == Seq::<((u32, u32), IntervalView)>::empty(),
    {
        let r = IsolationCache { entries: Vec::new() };
        proof {
            assert(cache_views(r.entries@) =~= Seq::<((u32, u32), IntervalView)>::empty());
        }
        r
    }

    /// The number of cached intervals.
    pub fn len(&self) -> (r: usize)
        ensures
            r == self@.len(),
    {
        self.entries.len()
    }

    /// The interval cached for expression `id` at precision `bits`, if any.
    pub fn get(&self, id: ExprId, bits: AbsoluteBits) -> (r: Option<&IsolatingInterval>)
        ensures
            match r {
                Some(v) => exists|i: int|
                    0 <= i < self@.len() && #[trigger] self@[i] == ((id@, bits@), v@),
                None => !cache_has(self@, (id@, bits@)),
            },
    {
        proof {
            use_type_invariant(self);
        }
        match find_cache_key(&self.entries, (id.get(), bits.get())) {
            Ok(index) => {
                proof {
                    assert(self@[index as int] == cache_entry_view(self.entries@[index as int]));
                }
                Some(&self.entries[index].1)
            },
            Err(index) => {
                proof {
                    if cache_has(self@, (id@, bits@)) {
                        let k = choose|k: int| 0 <= k < self@.len() && self@[k].0 == (id@, bits@);
                        if k < index {
                            assert(cache_key_lt(self@[k].0, (id@, bits@)));
                        } else {
                            assert(cache_key_lt((id@, bits@), self@[k].0));
                        }
                    }
                }
                None
            },
        }
    }

    /// Caches `interval` for expression `id` at precision `bits`, in key order; an
    /// interval already cached for that key is kept.
    pub fn insert(&mut self, id: ExprId, bits: AbsoluteBits, interval: IsolatingInterval) -> (r: Result<
        (),
        StorageError,
    >)
        ensures
            cache_has(old(self)@, (id@, bits@)) ==> r is Ok && final(self)@ == old(self)@,
            !cache_has(old(self)@, (id@, bits@)) ==> match r {
                Ok(()) => exists|i: int|
                    0 <= i <= old(self)@.len() && final(self)@ == old(self)@.insert(
                        i,
                        ((id@, bits@), interval@),
                    ),
                Err(e) => final(self)@ == old(self)@ && (e == StorageError::CapacityOverflow {
                    resource: StorageResource::IsolationEntries,
                } || e == StorageError::AllocationFailure {
                    resource: StorageResource::IsolationEntries,
                    requested_elements: (old(self)@.len() + 1) as usize,
                }),
            },
    {
        proof {
            use_type_invariant(&*self);
        }
        let ghost before = self@;
        let key = (id.get(), bits.get());
        let index = match find_cache_key(&self.entries, key) {
            Ok(index) => {
                proof {
                    assert(cache_has(before, (id@, bits@)));
                }
                return Ok(());
            },
            Err(index) => index,
        };
        proof {
            if cache_has(before, (id@, bits@)) {
                let k = choose|k: int| 0 <= k < before.len() && before[k].0 == (id@, bits@);
                if k < index {
                    assert(cache_key_lt(before[k].0, (id@, bits@)));
                } else {
                    assert(cache_key_lt((id@, bits@), before[k].0));
                }
            }
        }
        let mut entries = Vec::new();
        core::mem::swap(&mut entries, &mut self.entries);
        let required = match required_elements(entries.len(), StorageResource::IsolationEntries) {
            Ok(v) => v,
            Err(error) => {
                self.entries = entries;
                return Err(error);
            },
        };
        match reserve_entries(&mut entries, required, StorageResource::IsolationEntries) {
            Ok(()) => {},
            Err(error) => {
                self.entries = entries;
                return Err(error);
            },
        }
        let ghost old_entries = entries@;
        entries.insert(index, ((id, bits), interval));
        proof {
            let item = ((id@, bits@), interval@);
            assert(cache_views(entries@) =~= before.insert(index as int, item));
            let after = cache_views(entries@);
            assert forall|i: int, j: int| 0 <= i < j < after.len() implies cache_key_lt(
                after[i].0,
                after[j].0,
            ) by {
                if j < index {
                } else if i > index {
                    assert(after[i] == before[i - 1]);
                    assert(after[j] == before[j - 1]);
                } else if i < index && j > index {
                    assert(after[j] == before[j - 1]);
                    assert(cache_key_lt(before[i].0, (id@, bits@)));
                } else if i == index {
                    assert(after[j] == before[j - 1]);
                } else {
                    assert(after[i] == before[i]);
                }
            }
        }
        self.entries = entries;
        Ok(())
    }
}

} // verus!
