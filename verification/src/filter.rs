//! An approximate set of texts. It keeps the hash of each text rather than the
//! text, so it may take a text for one it holds; it holds a bounded number of
//! hashes, and once full it lets the oldest go for each new one.
use crate::text::{hash, hash_of};
use std::collections::{HashSet, VecDeque};
use vstd::prelude::*;

verus! {

broadcast use vstd::std_specs::hash::group_hash_axioms;

/// Tells that an insertion found the filter full: the hash `evicted` is no
/// longer held, and a text with that hash may from now on be missed.
#[derive(Clone, Copy, Debug, PartialEq, Eq, Structural)]
pub struct CapacityWarning {
    pub evicted: u64,
}

/// What a filter is, as a value: the bound it was made with, the hashes it
/// holds, oldest first, and whether it ever let one go.
pub struct FilterModel {
    pub capacity: nat,
    pub stored: Seq<u64>,
    pub degraded: bool,
}

impl FilterModel {
    /// A filter that holds nothing.
    pub open spec fn empty(capacity: nat) -> FilterModel {
        FilterModel { capacity, stored: Seq::empty(), degraded: false }
    }

    /// No hash is held twice, and no more are held than the bound allows.
    pub open spec fn wf(self) -> bool {
        self.stored.no_duplicates() && self.stored.len() <= self.capacity
    }

    /// Whether the filter answers yes for a text.
    pub open spec fn contains(self, item: Seq<char>) -> bool {
        self.stored.contains(hash_of(item))
    }

    /// The hash that adding `h` would push out, if any: none while `h` is
    /// already held or there is room; else the oldest hash, or `h` itself where
    /// the filter can hold nothing.
    pub open spec fn evicted_by(self, h: u64) -> Option<u64> {
        if self.stored.contains(h) || self.stored.len() < self.capacity {
            None
        } else if self.stored.len() == 0 {
            Some(h)
        } else {
            Some(self.stored[0])
        }
    }

    /// The filter after adding the hash `h`.
    pub open spec fn add(self, h: u64) -> FilterModel {
        if self.stored.contains(h) {
            self
        } else if self.stored.len() < self.capacity {
            FilterModel { stored: self.stored.push(h), ..self }
        } else if self.stored.len() == 0 {
            FilterModel { degraded: true, ..self }
        } else {
            FilterModel { stored: self.stored.drop_first().push(h), degraded: true, ..self }
        }
    }

    /// The filter after inserting a text.
    pub open spec fn insert(self, item: Seq<char>) -> FilterModel {
        self.add(hash_of(item))
    }

    /// The filter after inserting the texts one after the other.
    pub open spec fn insert_all(self, items: Seq<Seq<char>>) -> FilterModel
        decreases items.len(),
    {
        if items.len() == 0 {
            self
        } else {
            self.insert_all(items.drop_last()).insert(items.last())
        }
    }
}

/// Adding a hash keeps a filter well formed and its bound unchanged.
pub proof fn lemma_add_wf(filter: FilterModel, h: u64)
    requires
        filter.wf(),
    ensures
        filter.add(h).wf(),
        filter.add(h).capacity == filter.capacity,
{
    let after = filter.add(h);
    if !filter.stored.contains(h) && filter.stored.len() >= filter.capacity
        && filter.stored.len() > 0 {
        let rest = filter.stored.drop_first();
        assert forall|i: int, j: int| 0 <= i < j < after.stored.len() implies after.stored[i]
            != after.stored[j] by {
            if j < rest.len() {
                assert(rest[i] == filter.stored[i + 1] && rest[j] == filter.stored[j + 1]);
            } else {
                assert(rest[i] == filter.stored[i + 1]);
            }
        }
    }
}

/// An insertion that found room loses nothing: the text is found afterwards,
/// and so is every text that was found before.
pub proof fn lemma_insert_without_eviction(filter: FilterModel, item: Seq<char>, other: Seq<char>)
    requires
        filter.evicted_by(hash_of(item)) is None,
    ensures
        filter.insert(item).contains(item),
        filter.contains(other) ==> filter.insert(item).contains(other),
        filter.insert(item).degraded == filter.degraded,
{
    let h = hash_of(item);
    if !filter.stored.contains(h) {
        let after = filter.stored.push(h);
        assert(after[filter.stored.len() as int] == h);
        if filter.contains(other) {
            let i = choose|i: int|
                0 <= i < filter.stored.len() && filter.stored[i] == hash_of(other);
            assert(after[i] == hash_of(other));
        }
    }
}

/// An insertion into a full filter costs exactly the hash that the warning
/// names: every other text that was found before is still found.
pub proof fn lemma_insert_with_eviction(filter: FilterModel, item: Seq<char>, other: Seq<char>)
    requires
        filter.wf(),
        filter.evicted_by(hash_of(item)) is Some,
    ensures
        filter.insert(item).degraded,
        !filter.insert(item).stored.contains(filter.evicted_by(hash_of(item))->0),
        filter.capacity > 0 ==> filter.insert(item).contains(item),
        filter.contains(other) && hash_of(other) != filter.evicted_by(hash_of(item))->0
            ==> filter.insert(item).contains(other),
{
    let h = hash_of(item);
    let gone = filter.evicted_by(h)->0;
    let after = filter.insert(item).stored;
    if filter.stored.len() > 0 {
        let rest = filter.stored.drop_first();
        assert(after[after.len() - 1] == h);
        if after.contains(gone) {
            let i = choose|i: int| 0 <= i < after.len() && after[i] == gone;
            if i < rest.len() {
                assert(rest[i] == filter.stored[i + 1]);
            }
        }
        if filter.contains(other) && hash_of(other) != gone {
            let i = choose|i: int|
                0 <= i < filter.stored.len() && filter.stored[i] == hash_of(other);
            assert(rest[i - 1] == filter.stored[i]);
            assert(after[i - 1] == hash_of(other));
        }
    }
}

/// Inserting one run of texts after another is inserting the two runs joined.
pub proof fn lemma_insert_all_concat(filter: FilterModel, a: Seq<Seq<char>>, b: Seq<Seq<char>>)
    ensures
        filter.insert_all(a + b) == filter.insert_all(a).insert_all(b),
    decreases b.len(),
{
    if b.len() == 0 {
        assert(a + b =~= a);
    } else {
        lemma_insert_all_concat(filter, a, b.drop_last());
        assert((a + b).drop_last() =~= a + b.drop_last());
        assert((a + b).last() == b.last());
    }
}

/// Inserting texts while there is room for all of them loses nothing: every
/// one of them is found afterwards, so is every text that was found before,
/// and the filter is no more degraded than it was.
pub proof fn lemma_insert_all_with_room(filter: FilterModel, items: Seq<Seq<char>>)
    requires
        filter.wf(),
        filter.stored.len() + items.len() <= filter.capacity,
    ensures
        filter.insert_all(items).wf(),
        filter.insert_all(items).capacity == filter.capacity,
        filter.insert_all(items).degraded == filter.degraded,
        filter.insert_all(items).stored.len() <= filter.stored.len() + items.len(),
        forall|i: int|
            0 <= i < items.len() ==> filter.insert_all(items).contains(#[trigger] items[i]),
        forall|other: Seq<char>|
            filter.contains(other) ==> #[trigger] filter.insert_all(items).contains(other),
    decreases items.len(),
{
    if items.len() > 0 {
        let front = items.drop_last();
        let last = items.last();
        lemma_insert_all_with_room(filter, front);
        let mid = filter.insert_all(front);
        lemma_add_wf(mid, hash_of(last));
        assert forall|i: int| 0 <= i < items.len() implies filter.insert_all(items).contains(
            #[trigger] items[i],
        ) by {
            if i < front.len() {
                assert(mid.contains(front[i]));
            }
            lemma_insert_without_eviction(mid, last, items[i]);
        }
        assert forall|other: Seq<char>| filter.contains(other) implies #[trigger] filter.insert_all(
            items,
        ).contains(other) by {
            lemma_insert_without_eviction(mid, last, other);
        }
        lemma_insert_without_eviction(mid, last, last);
    }
}

/// A filter that is not degraded after a run of insertions has lost nothing
/// in them: it was not degraded before, it finds every text of the run, and it
/// finds every text that it found before.
pub proof fn lemma_insert_all_undegraded(filter: FilterModel, items: Seq<Seq<char>>)
    requires
        !filter.insert_all(items).degraded,
    ensures
        !filter.degraded,
        forall|i: int|
            0 <= i < items.len() ==> filter.insert_all(items).contains(#[trigger] items[i]),
        forall|other: Seq<char>|
            filter.contains(other) ==> #[trigger] filter.insert_all(items).contains(other),
    decreases items.len(),
{
    if items.len() > 0 {
        let front = items.drop_last();
        let last = items.last();
        let mid = filter.insert_all(front);
        assert(mid.evicted_by(hash_of(last)) is None);
        lemma_insert_all_undegraded(filter, front);
        assert forall|i: int| 0 <= i < items.len() implies filter.insert_all(items).contains(
            #[trigger] items[i],
        ) by {
            if i < front.len() {
                assert(mid.contains(front[i]));
            }
            lemma_insert_without_eviction(mid, last, items[i]);
        }
        assert forall|other: Seq<char>| filter.contains(other) implies #[trigger] filter.insert_all(
            items,
        ).contains(other) by {
            lemma_insert_without_eviction(mid, last, other);
        }
    }
}

/// The approximate set itself.
pub struct PreFilter {
    capacity: usize,
    queue: VecDeque<u64>,
    members: HashSet<u64>,
    degraded: bool,
}

impl View for PreFilter {
    type V = FilterModel;

    closed spec fn view(&self) -> FilterModel {
        FilterModel { capacity: self.capacity as nat, stored: self.queue@, degraded: self.degraded }
    }
}

impl PreFilter {
    /// The set and the queue hold the same hashes, and the model is well formed.
    pub closed spec fn wf(&self) -> bool {
        &&& self@.wf()
        &&& self.members@ == self.queue@.to_set()
    }

    /// A well-formed filter has a well-formed model within the machine's bounds.
    pub proof fn lemma_wf(&self)
        requires
            self.wf(),
        ensures
            self@.wf(),
            self@.capacity <= usize::MAX,
    {
    }

    /// An empty filter that will hold at most `capacity` hashes.
    pub fn new(capacity: usize) -> (filter: PreFilter)
        ensures
            filter.wf(),
            filter@ == FilterModel::empty(capacity as nat),
    {
        let filter = PreFilter {
            capacity,
            queue: VecDeque::new(),
            members: HashSet::new(),
            degraded: false,
        };
        assert(filter.members@ =~= filter.queue@.to_set());
        filter
    }

    /// Adds a text. Where the filter is full and does not hold the text's hash
    /// yet, the oldest hash gives way and the warning names it; the filter stays
    /// usable.
    pub fn insert(&mut self, item: &str) -> (outcome: Result<(), CapacityWarning>)
        requires
            old(self).wf(),
        ensures
            final(self).wf(),
            final(self)@ == old(self)@.insert(item@),
            match outcome {
                Ok(_) => old(self)@.evicted_by(hash_of(item@)) is None,
                Err(warning) => old(self)@.evicted_by(hash_of(item@)) == Some(warning.evicted),
            },
    {
        let h = hash(item);
        proof {
            lemma_add_wf(self@, h);
        }
        if self.members.contains(&h) {
            return Ok(());
        }
        let ghost before = self.queue@;
        if self.queue.len() < self.capacity {
            self.queue.push_back(h);
            self.members.insert(h);
            assert(self.members@ =~= self.queue@.to_set()) by {
                lemma_push_to_set(before, h);
            }
            return Ok(());
        }
        self.degraded = true;
        match self.queue.pop_front() {
            None => Err(CapacityWarning { evicted: h }),
            Some(oldest) => {
                let ghost rest = self.queue@;
                assert(rest =~= before.drop_first());
                self.members.remove(&oldest);
                self.queue.push_back(h);
                self.members.insert(h);
                assert(self.members@ =~= self.queue@.to_set()) by {
                    lemma_drop_first_to_set(before);
                    lemma_push_to_set(rest, h);
                }
                Err(CapacityWarning { evicted: oldest })
            },
        }
    }

    /// Whether the filter takes the text for one it holds. It never misses a
    /// text whose hash it holds; it may accept one that was never added.
    pub fn contains(&self, item: &str) -> (found: bool)
        requires
            self.wf(),
        ensures
            found == self@.contains(item@),
    {
        let h = hash(item);
        self.members.contains(&h)
    }

    /// The number of hashes that the filter can hold.
    pub fn capacity(&self) -> (capacity: usize)
        ensures
            capacity == self@.capacity,
    {
        self.capacity
    }

    /// The number of hashes that the filter holds.
    pub fn len(&self) -> (len: usize)
        ensures
            len == self@.stored.len(),
    {
        self.queue.len()
    }

    /// Whether the filter ever let a hash go.
    pub fn is_degraded(&self) -> (degraded: bool)
        ensures
            degraded == self@.degraded,
    {
        self.degraded
    }
}

/// The items of a sequence with one more at its end are those of the sequence
/// and the new one.
proof fn lemma_push_to_set(s: Seq<u64>, h: u64)
    ensures
        s.push(h).to_set() =~= s.to_set().insert(h),
{
    let after = s.push(h);
    assert forall|x: u64| after.to_set().contains(x) <==> s.to_set().insert(h).contains(x) by {
        if after.contains(x) {
            let i = choose|i: int| 0 <= i < after.len() && after[i] == x;
            if i < s.len() {
                assert(s[i] == x);
            }
        }
        if s.contains(x) {
            let i = choose|i: int| 0 <= i < s.len() && s[i] == x;
            assert(after[i] == x);
        }
        if x == h {
            assert(after[s.len() as int] == h);
        }
    }
}

/// The items of a sequence without repetitions, less its first, are those of
/// the sequence without that one.
proof fn lemma_drop_first_to_set(s: Seq<u64>)
    requires
        s.len() > 0,
        s.no_duplicates(),
    ensures
        s.drop_first().to_set() =~= s.to_set().remove(s[0]),
{
    let rest = s.drop_first();
    assert forall|x: u64| rest.to_set().contains(x) <==> s.to_set().remove(s[0]).contains(x) by {
        if rest.contains(x) {
            let i = choose|i: int| 0 <= i < rest.len() && rest[i] == x;
            assert(s[i + 1] == x);
        }
        if s.contains(x) && x != s[0] {
            let i = choose|i: int| 0 <= i < s.len() && s[i] == x;
            assert(rest[i - 1] == x);
        }
    }
}

} // verus!
