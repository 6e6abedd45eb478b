//! Fallible growth of containers, and the consumer-keyed stores kept sorted by key.
use crate::expr_error::{InsertError, StorageError};
use crate::id::{AbsoluteBits, ConsumerId, ExprId};
use vstd::prelude::*;

verus! {

/// The containers whose growth can fail.
#[derive(Clone, Copy, Debug, Eq, Hash, Ord, PartialEq, PartialOrd, Structural)]
pub enum StorageResource {
    GraphNodes,
    AtomEntries,
    PrecisionEntries,
    AssignmentEntries,
    EvaluationEntries,
    IsolationEntries,
    ResolvedEntries,
    ProductEntries,
    ProductResolutionEntries,
}

/// The count after adding one element to `current`, unless it overflows.
pub fn required_elements(current: usize, resource: StorageResource) -> (r: Result<usize, StorageError>)
    ensures
        current < usize::MAX ==> r == Ok::<usize, StorageError>((current + 1) as usize),
        current == usize::MAX ==> r == Err::<usize, StorageError>(
            StorageError::CapacityOverflow { resource },
        ),
{
    match current.checked_add(1) {
        Some(value) => Ok(value),
        None => Err(StorageError::CapacityOverflow { resource }),
    }
}

/// The largest element count whose bytes fit in `isize` for elements of `size` bytes.
pub open spec fn maximum_elements(size: nat) -> int {
    if size == 0 {
        usize::MAX as int
    } else {
        (isize::MAX as int) / (size as int)
    }
}

/// Makes room for `total_required` elements in all; the allocator may refuse.
pub fn reserve_entries<T>(entries: &mut Vec<T>, total_required: usize, resource: StorageResource) -> (r:
    Result<(), StorageError>)
    ensures
        final(entries)@ == old(entries)@,
        total_required > maximum_elements(vstd::layout::size_of::<T>()) ==> r == Err::<
            (),
            StorageError,
        >(StorageError::CapacityOverflow { resource }),
        total_required <= maximum_elements(vstd::layout::size_of::<T>()) && total_required < old(
            entries,
        )@.len() ==> r == Err::<(), StorageError>(StorageError::CapacityOverflow { resource }),
        total_required <= maximum_elements(vstd::layout::size_of::<T>()) && total_required >= old(
            entries,
        )@.len() ==> (r is Ok || r == Err::<(), StorageError>(
            StorageError::AllocationFailure { resource, requested_elements: total_required },
        )),
{
    let size = core::mem::size_of::<T>();
    let maximum = if size == 0 {
        usize::MAX
    } else {
        (isize::MAX as usize) / size
    };
    if total_required > maximum {
        return Err(StorageError::CapacityOverflow { resource });
    }
    let additional = match total_required.checked_sub(entries.len()) {
        Some(value) => value,
        None => return Err(StorageError::CapacityOverflow { resource }),
    };
    match entries.try_reserve(additional) {
        Ok(()) => Ok(()),
        Err(_) => Err(StorageError::AllocationFailure { resource, requested_elements: total_required }),
    }
}

/// The keys of `s` strictly increase.
pub open spec fn keys_sorted<V>(s: Seq<(ConsumerId, V)>) -> bool {
    forall|i: int, j: int| 0 <= i < j < s.len() ==> s[i].0@ < s[j].0@
}

/// `s` holds an entry with key `key`.
pub open spec fn has_key<V>(s: Seq<(ConsumerId, V)>, key: ConsumerId) -> bool {
    exists|i: int| 0 <= i < s.len() && s[i].0 == key
}

/// The value stored under `key`, if any.
pub open spec fn lookup<V>(s: Seq<(ConsumerId, V)>, key: ConsumerId) -> Option<V> {
    if has_key(s, key) {
        Some(s[choose|i: int| 0 <= i < s.len() && s[i].0 == key].1)
    } else {
        None
    }
}

/// The position of `key` in the sorted `entries`, or where it would be inserted.
fn find_key<V>(entries: &Vec<(ConsumerId, V)>, key: ConsumerId) -> (r: Result<usize, usize>)
    requires
        keys_sorted(entries@),
    ensures
        match r {
            Ok(i) => i < entries@.len() && entries@[i as int].0 == key,
            Err(i) => i <= entries@.len() && (forall|j: int| 0 <= j < i ==> entries@[j].0@ < key@)
                && (forall|j: int| i <= j < entries@.len() ==> entries@[j].0@ > key@),
        },
{
    let target = key.get();
    let mut low: usize = 0;
    let mut high: usize = entries.len();
    while low < high
        invariant
            low <= high <= entries@.len(),
            keys_sorted(entries@),
            target == key@,
            forall|j: int| 0 <= j < low ==> entries@[j].0@ < target,
            forall|j: int| high <= j < entries@.len() ==> entries@[j].0@ > target,
        decreases high - low,
    {
        let middle = low + (high - low) / 2;
        let candidate = entries[middle].0.get();
        if candidate == target {
            proof {
                ConsumerId::lemma_view_injective(entries@[middle as int].0, key);
            }
            return Ok(middle);
        } else if candidate < target {
            low = middle + 1;
        } else {
            high = middle;
        }
    }
    Err(low)
}

/// After an insertion a sequence holds what it held and the inserted item.
proof fn lemma_contains_insert<A>(s: Seq<A>, i: int, a: A, x: A)
    requires
        0 <= i <= s.len(),
    ensures
        s.insert(i, a).contains(x) <==> (s.contains(x) || x == a),
{
    s.insert_ensures(i, a);
    let t = s.insert(i, a);
    if t.contains(x) {
        let k = choose|k: int| 0 <= k < t.len() && t[k] == x;
        if k < i {
            assert(s[k] == x);
        } else if k > i {
            assert(s[k - 1] == x);
        }
    }
    if s.contains(x) {
        let k = choose|k: int| 0 <= k < s.len() && s[k] == x;
        if k < i {
            assert(t[k] == x);
        } else {
            assert(t[k + 1] == x);
        }
    }
    if x == a {
        assert(t[i] == x);
    }
}

/// Entries kept sorted by key are fixed by which entries they hold.
pub proof fn lemma_sorted_entries_unique<V>(s: Seq<(ConsumerId, V)>, t: Seq<(ConsumerId, V)>)
    requires
        keys_sorted(s),
        keys_sorted(t),
        forall|x: (ConsumerId, V)| s.contains(x) <==> t.contains(x),
    ensures
        s == t,
    decreases s.len(),
{
    if s.len() == 0 {
        if t.len() > 0 {
            assert(t.contains(t[0]));
        }
        assert(s =~= t);
    } else {
        assert(s.contains(s[0]));
        assert(t.contains(s[0]));
        assert(t.len() > 0);
        assert(t.contains(t[0]));
        assert(s.contains(t[0]));
        let m = choose|m: int| 0 <= m < s.len() && s[m] == t[0];
        let n = choose|n: int| 0 <= n < t.len() && t[n] == s[0];
        if m > 0 && n > 0 {
            assert(s[0].0@ < s[m].0@);
            assert(t[0].0@ < t[n].0@);
        }
        assert(s[0] == t[0]);
        let s2 = s.drop_first();
        let t2 = t.drop_first();
        assert forall|x: (ConsumerId, V)| s2.contains(x) <==> t2.contains(x) by {
            if s2.contains(x) {
                let i = choose|i: int| 0 <= i < s2.len() && s2[i] == x;
                assert(s[i + 1] == x);
                assert(s[0].0@ < s[i + 1].0@);
                assert(s.contains(x));
                let j = choose|j: int| 0 <= j < t.len() && t[j] == x;
                assert(j != 0);
                assert(t2[j - 1] == x);
            }
            if t2.contains(x) {
                let i = choose|i: int| 0 <= i < t2.len() && t2[i] == x;
                assert(t[i + 1] == x);
                assert(t[0].0@ < t[i + 1].0@);
                assert(t.contains(x));
                let j = choose|j: int| 0 <= j < s.len() && s[j] == x;
                assert(j != 0);
                assert(s2[j - 1] == x);
            }
        }
        lemma_sorted_entries_unique(s2, t2);
        assert(s =~= seq![s[0]] + s2);
        assert(t =~= seq![t[0]] + t2);
    }
}

/// Inserting two entries with distinct keys into a store kept sorted by key, such as
/// `Assignments` or `PrecisionRequirements`, gives the same store in either order.
pub proof fn lemma_insertion_order_irrelevant<V>(
    base: Seq<(ConsumerId, V)>,
    a: (ConsumerId, V),
    b: (ConsumerId, V),
    i: int,
    j: int,
    k: int,
    l: int,
)
    requires
        keys_sorted(base),
        a.0 != b.0,
        0 <= i <= base.len(),
        0 <= j <= base.len() + 1,
        0 <= k <= base.len(),
        0 <= l <= base.len() + 1,
        keys_sorted(base.insert(i, a).insert(j, b)),
        keys_sorted(base.insert(k, b).insert(l, a)),
    ensures
        base.insert(i, a).insert(j, b) == base.insert(k, b).insert(l, a),
{
    let s = base.insert(i, a).insert(j, b);
    let t = base.insert(k, b).insert(l, a);
    assert forall|x: (ConsumerId, V)| s.contains(x) <==> t.contains(x) by {
        assert(s.contains(x) <==> (base.contains(x) || x == a || x == b)) by {
            lemma_contains_insert(base, i, a, x);
            lemma_contains_insert(base.insert(i, a), j, b, x);
        }
        assert(t.contains(x) <==> (base.contains(x) || x == a || x == b)) by {
            lemma_contains_insert(base, k, b, x);
            lemma_contains_insert(base.insert(k, b), l, a, x);
        }
    }
    lemma_sorted_entries_unique(s, t);
}

/// Sorted entries have at most one entry per key, found by `find_key`.
proof fn lemma_lookup_at<V>(s: Seq<(ConsumerId, V)>, i: int)
    requires
        keys_sorted(s),
        0 <= i < s.len(),
    ensures
        has_key(s, s[i].0),
        lookup(s, s[i].0) == Some(s[i].1),
{
    let k = s[i].0;
    let j = choose|j: int| 0 <= j < s.len() && s[j].0 == k;
    assert(j == i) by {
        if j < i {
            assert(s[j].0@ < s[i].0@);
        } else if j > i {
            assert(s[i].0@ < s[j].0@);
        }
    }
}

/// Inserting at the position `find_key` reports keeps the keys sorted.
proof fn lemma_insert_sorted<V>(s: Seq<(ConsumerId, V)>, i: int, key: ConsumerId, value: V)
    requires
        keys_sorted(s),
        0 <= i <= s.len(),
        forall|j: int| 0 <= j < i ==> s[j].0@ < key@,
        forall|j: int| i <= j < s.len() ==> s[j].0@ > key@,
    ensures
        keys_sorted(s.insert(i, (key, value))),
        lookup(s.insert(i, (key, value)), key) == Some(value),
{
    let t = s.insert(i, (key, value));
    assert forall|a: int, b: int| 0 <= a < b < t.len() implies t[a].0@ < t[b].0@ by {
        if b < i {
        } else if b == i {
        } else if a < i {
        } else if a == i {
        } else {
        }
    }
    lemma_lookup_at(t, i);
}

/// Adds `(key, value)` unless `key` is present, keeping the keys sorted.
fn insert_entry<V>(
    entries: &mut Vec<(ConsumerId, V)>,
    key: ConsumerId,
    value: V,
    resource: StorageResource,
) -> (r: Result<(), InsertError>)
    requires
        keys_sorted(old(entries)@),
    ensures
        keys_sorted(final(entries)@),
        has_key(old(entries)@, key) ==> r == Err::<(), InsertError>(
            InsertError::DuplicateId { resource, id: key@ },
        ) && final(entries)@ == old(entries)@,
        !has_key(old(entries)@, key) ==> match r {
            Ok(()) => (exists|i: int| 0 <= i <= old(entries)@.len() && final(entries)@ == old(
                entries,
            )@.insert(i, (key, value))) && lookup(final(entries)@, key) == Some(value),
            Err(e) => e is Storage && final(entries)@ == old(entries)@,
        },
{
    let index = match find_key(entries, key) {
        Ok(found) => {
            proof {
                assert(has_key(entries@, key));
            }
            return Err(InsertError::DuplicateId { resource, id: key.get() });
        },
        Err(index) => index,
    };
    proof {
        if has_key(entries@, key) {
            let j = choose|j: int| 0 <= j < entries@.len() && entries@[j].0 == key;
            assert(entries@[j].0@ == key@);
        }
    }
    let required = match required_elements(entries.len(), resource) {
        Ok(value) => value,
        Err(error) => return Err(InsertError::Storage(error)),
    };
    match reserve_entries(entries, required, resource) {
        Ok(()) => {},
        Err(error) => return Err(InsertError::Storage(error)),
    }
    proof {
        lemma_insert_sorted(entries@, index as int, key, value);
    }
    entries.insert(index, (key, value));
    Ok(())
}

/// Replaces the value under `key`, or adds the entry when `key` is absent.
fn set_entry<V>(
    entries: &mut Vec<(ConsumerId, V)>,
    key: ConsumerId,
    value: V,
    resource: StorageResource,
) -> (r: Result<(), InsertError>)
    requires
        keys_sorted(old(entries)@),
    ensures
        keys_sorted(final(entries)@),
        has_key(old(entries)@, key) ==> r is Ok && (exists|i: int|
            0 <= i < old(entries)@.len() && old(entries)@[i].0 == key && final(entries)@ == old(
                entries,
            )@.update(i, (key, value))),
        match r {
            Ok(()) => lookup(final(entries)@, key) == Some(value),
            Err(e) => e is Storage && final(entries)@ == old(entries)@ && !has_key(
                old(entries)@,
                key,
            ),
        },
{
    match find_key(entries, key) {
        Ok(index) => {
            let ghost before = entries@;
            entries.set(index, (key, value));
            proof {
                assert(keys_sorted(entries@)) by {
                    assert forall|a: int, b: int| 0 <= a < b < entries@.len() implies entries@[a].0@
                        < entries@[b].0@ by {
                        assert(before[a].0@ < before[b].0@);
                    }
                }
                lemma_lookup_at(entries@, index as int);
            }
            Ok(())
        },
        Err(_) => insert_entry(entries, key, value, resource),
    }
}

/// An independent copy of entries of plain values.
fn copy_entries<V: Copy>(source: &Vec<(ConsumerId, V)>, resource: StorageResource) -> (r: Result<
    Vec<(ConsumerId, V)>,
    InsertError,
>)
    ensures
        match r {
            Ok(v) => v@ == source@,
            Err(e) => e is Storage,
        },
{
    let mut entries: Vec<(ConsumerId, V)> = Vec::new();
    match reserve_entries(&mut entries, source.len(), resource) {
        Ok(()) => {},
        Err(error) => return Err(InsertError::Storage(error)),
    }
    let mut index: usize = 0;
    while index < source.len()
        invariant
            index <= source@.len(),
            entries@ == source@.subrange(0, index as int),
        decreases source@.len() - index,
    {
        let entry = source[index];
        entries.push(entry);
        index = index + 1;
        proof {
            assert(entries@ =~= source@.subrange(0, index as int));
        }
    }
    proof {
        assert(entries@ =~= source@);
    }
    Ok(entries)
}

/// The absolute precision each consumer requires, kept sorted by consumer.
#[derive(Debug, Eq, PartialEq)]
pub struct PrecisionRequirements {
    entries: Vec<(ConsumerId, AbsoluteBits)>,
}

impl View for PrecisionRequirements {
    type V = Seq<(ConsumerId, AbsoluteBits)>;

    closed spec fn view(&self) -> Seq<(ConsumerId, AbsoluteBits)> {
        self.entries@
    }
}

impl PrecisionRequirements {
    /// Consumers strictly increase: holds of every value of this type.
    #[verifier::type_invariant]
    pub open spec fn well_formed(self) -> bool {
        keys_sorted(self@)
    }

    /// No requirements.
    pub fn new() -> (r: Self)
        ensures
            r@ == Seq::<(ConsumerId, AbsoluteBits)>::empty(),
    {
        PrecisionRequirements { entries: Vec::new() }
    }

    /// The number of consumers.
    pub fn len(&self) -> (r: usize)
        ensures
            r == self@.len(),
    {
        self.entries.len()
    }

    /// The precision required by `id`, if any.
    pub fn get(&self, id: ConsumerId) -> (r: Option<AbsoluteBits>)
        ensures
            r == lookup(self@, id),
    {
        proof {
            use_type_invariant(self);
        }
        match find_key(&self.entries, id) {
            Ok(index) => {
                proof {
                    lemma_lookup_at(self@, index as int);
                }
                Some(self.entries[index].1)
            },
            Err(_) => None,
        }
    }

    /// Adds the requirement of a consumer not present yet.
    pub fn insert(&mut self, id: ConsumerId, bits: AbsoluteBits) -> (r: Result<(), InsertError>)
        ensures
            has_key(old(self)@, id) ==> r == Err::<(), InsertError>(
                InsertError::DuplicateId { resource: StorageResource::PrecisionEntries, id: id@ },
            ) && final(self)@ == old(self)@,
            !has_key(old(self)@, id) ==> match r {
                Ok(()) => (exists|i: int| 0 <= i <= old(self)@.len() && final(self)@ == old(
                    self,
                )@.insert(i, (id, bits))) && lookup(final(self)@, id) == Some(bits),
                Err(e) => e is Storage && final(self)@ == old(self)@,
            },
    {
        proof {
            use_type_invariant(&*self);
        }
        let mut entries = Vec::new();
        core::mem::swap(&mut entries, &mut self.entries);
        let result = insert_entry(&mut entries, id, bits, StorageResource::PrecisionEntries);
        self.entries = entries;
        result
    }

    /// Sets the requirement of a consumer, adding it when absent.
    pub fn set(&mut self, id: ConsumerId, bits: AbsoluteBits) -> (r: Result<(), InsertError>)
        ensures
            has_key(old(self)@, id) ==> r is Ok && (exists|i: int|
                0 <= i < old(self)@.len() && old(self)@[i].0 == id && final(self)@ == old(
                    self,
                )@.update(i, (id, bits))),
            match r {
                Ok(()) => lookup(final(self)@, id) == Some(bits),
                Err(e) => e is Storage && final(self)@ == old(self)@ && !has_key(old(self)@, id),
            },
    {
        proof {
            use_type_invariant(&*self);
        }
        let mut entries = Vec::new();
        core::mem::swap(&mut entries, &mut self.entries);
        let result = set_entry(&mut entries, id, bits, StorageResource::PrecisionEntries);
        self.entries = entries;
        result
    }

    /// An independent copy.
    pub fn try_clone(&self) -> (r: Result<Self, InsertError>)
        ensures
            match r {
                Ok(v) => v@ == self@,
                Err(e) => e is Storage,
            },
    {
        proof {
            use_type_invariant(self);
        }
        let entries = copy_entries(&self.entries, StorageResource::PrecisionEntries)?;
        Ok(PrecisionRequirements { entries })
    }
}

/// The expression assigned to each consumer, kept sorted by consumer.
#[derive(Debug, Eq, PartialEq)]
pub struct Assignments {
    entries: Vec<(ConsumerId, ExprId)>,
}

impl View for Assignments {
    type V = Seq<(ConsumerId, ExprId)>;

    closed spec fn view(&self) -> Seq<(ConsumerId, ExprId)> {
        self.entries@
    }
}

impl Assignments {
    /// Consumers strictly increase: holds of every value of this type.
    #[verifier::type_invariant]
    pub open spec fn well_formed(self) -> bool {
        keys_sorted(self@)
    }

    /// No assignments.
    pub fn new() -> (r: Self)
        ensures
            r@ == Seq::<(ConsumerId, ExprId)>::empty(),
    {
        Assignments { entries: Vec::new() }
    }

    /// The number of consumers.
    pub fn len(&self) -> (r: usize)
        ensures
            r == self@.len(),
    {
        self.entries.len()
    }

    /// The expression assigned to `id`, if any.
    pub fn get(&self, id: ConsumerId) -> (r: Option<ExprId>)
        ensures
            r == lookup(self@, id),
    {
        proof {
            use_type_invariant(self);
        }
        match find_key(&self.entries, id) {
            Ok(index) => {
                proof {
                    lemma_lookup_at(self@, index as int);
                }
                Some(self.entries[index].1)
            },
            Err(_) => None,
        }
    }

    /// Assigns an expression to a consumer not present yet.
    pub fn insert(&mut self, id: ConsumerId, expr: ExprId) -> (r: Result<(), InsertError>)
        ensures
            has_key(old(self)@, id) ==> r == Err::<(), InsertError>(
                InsertError::DuplicateId { resource: StorageResource::AssignmentEntries, id: id@ },
            ) && final(self)@ == old(self)@,
            !has_key(old(self)@, id) ==> match r {
                Ok(()) => (exists|i: int| 0 <= i <= old(self)@.len() && final(self)@ == old(
                    self,
                )@.insert(i, (id, expr))) && lookup(final(self)@, id) == Some(expr),
                Err(e) => e is Storage && final(self)@ == old(self)@,
            },
    {
        proof {
            use_type_invariant(&*self);
        }
        let mut entries = Vec::new();
        core::mem::swap(&mut entries, &mut self.entries);
        let result = insert_entry(&mut entries, id, expr, StorageResource::AssignmentEntries);
        self.entries = entries;
        result
    }

    /// Sets the expression of a consumer, adding it when absent.
    pub fn set(&mut self, id: ConsumerId, expr: ExprId) -> (r: Result<(), InsertError>)
        ensures
            has_key(old(self)@, id) ==> r is Ok && (exists|i: int|
                0 <= i < old(self)@.len() && old(self)@[i].0 == id && final(self)@ == old(
                    self,
                )@.update(i, (id, expr))),
            match r {
                Ok(()) => lookup(final(self)@, id) == Some(expr),
                Err(e) => e is Storage && final(self)@ == old(self)@ && !has_key(old(self)@, id),
            },
    {
        proof {
            use_type_invariant(&*self);
        }
        let mut entries = Vec::new();
        core::mem::swap(&mut entries, &mut self.entries);
        let result = set_entry(&mut entries, id, expr, StorageResource::AssignmentEntries);
        self.entries = entries;
        result
    }

    /// An independent copy.
    pub fn try_clone(&self) -> (r: Result<Self, InsertError>)
        ensures
            match r {
                Ok(v) => v@ == self@,
                Err(e) => e is Storage,
            },
    {
        proof {
            use_type_invariant(self);
        }
        let entries = copy_entries(&self.entries, StorageResource::AssignmentEntries)?;
        Ok(Assignments { entries })
    }
}

} // verus!
