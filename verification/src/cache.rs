//! The bounded image cache: entries in the order of their insertion, the
//! oldest evicted first.  A lookup does not renew an entry.
//!
//! The entries are kept in one list, which is both the map and the queue:
//! a lookup scans the keys, and the head of the list is the next to go.  A
//! cache holds some tens of pictures, so the scan costs nothing beside the
//! decoding that a hit saves.

use vstd::prelude::*;

verus! {

/// A cached picture: the PNG payload after resizing, with its dimensions.
#[derive(Debug, Clone, PartialEq, Eq)]
pub struct CachedImage {
    pub data: Vec<u8>,
    pub width: u32,
    pub height: u32,
}

/// One entry of the cache, as the contracts see it.
pub struct Slot {
    pub key: Seq<char>,
    pub image: CachedImage,
}

struct CacheEntry {
    key: String,
    image: CachedImage,
}

/// A cache of at most `max_size` pictures, keyed by text.
pub struct ImageCache {
    entries: Vec<CacheEntry>,
    max_size: usize,
}

/// Whether some slot has the key.
pub open spec fn retains(slots: Seq<Slot>, key: Seq<char>) -> bool {
    exists|i: int| 0 <= i < slots.len() && (#[trigger] slots[i]).key == key
}

/// The slots without the one of the given key.
pub open spec fn without(slots: Seq<Slot>, key: Seq<char>) -> Seq<Slot>
    decreases slots.len(),
{
    if slots.len() == 0 {
        slots
    } else if slots.last().key == key {
        without(slots.drop_last(), key)
    } else {
        without(slots.drop_last(), key).push(slots.last())
    }
}

/// The slots after an insertion: where the cache is full its oldest slot
/// goes; then an older slot of the same key goes; then the new slot comes
/// last.
pub open spec fn inserted(slots: Seq<Slot>, capacity: int, slot: Slot) -> Seq<Slot> {
    let kept = if slots.len() >= capacity {
        slots.drop_first()
    } else {
        slots
    };
    without(kept, slot.key).push(slot)
}

/// The slots of a cache that was empty after the insertions `puts`, in
/// their order.
pub open spec fn after_inserts(capacity: int, puts: Seq<Slot>) -> Seq<Slot>
    decreases puts.len(),
{
    if puts.len() == 0 {
        Seq::<Slot>::empty()
    } else {
        inserted(after_inserts(capacity, puts.drop_last()), capacity, puts.last())
    }
}

/// When the key was last inserted: the index of its last insertion among
/// `puts`, or -1.
pub open spec fn stamp(puts: Seq<Slot>, key: Seq<char>) -> int
    decreases puts.len(),
{
    if puts.len() == 0 {
        -1
    } else if puts.last().key == key {
        puts.len() - 1
    } else {
        stamp(puts.drop_last(), key)
    }
}

/// Whether no two slots share a key.
pub open spec fn distinct_keys(slots: Seq<Slot>) -> bool {
    forall|i: int, j: int|
        0 <= i < j < slots.len() ==> (#[trigger] slots[i]).key != (#[trigger] slots[j]).key
}

impl View for ImageCache {
    type V = Seq<Slot>;

    closed spec fn view(&self) -> Seq<Slot> {
        Seq::new(
            self.entries@.len(),
            |i: int| Slot { key: self.entries@[i].key@, image: self.entries@[i].image },
        )
    }
}

impl ImageCache {
    /// The capacity of the cache.
    pub closed spec fn capacity(&self) -> int {
        self.max_size as int
    }

    /// The invariant of the cache: a positive capacity, no more slots than
    /// it allows, and no key twice.
    pub open spec fn wf(&self) -> bool {
        &&& self.capacity() > 0
        &&& self@.len() <= self.capacity()
        &&& distinct_keys(self@)
    }

    /// An empty cache for at most `max_size` pictures.
    pub fn new(max_size: usize) -> (cache: ImageCache)
        requires
            max_size > 0,
        ensures
            cache.wf(),
            cache.capacity() == max_size,
            cache@ == Seq::<Slot>::empty(),
    {
        let cache = ImageCache { entries: Vec::new(), max_size };
        proof {
            assert(cache@ =~= Seq::<Slot>::empty());
        }
        cache
    }

    /// The number of pictures in the cache.
    pub fn len(&self) -> (n: usize)
        ensures
            n == self@.len(),
    {
        self.entries.len()
    }

    /// Where the key is kept, if it is.
    fn position(&self, key: &String) -> (r: Option<usize>)
        ensures
            match r {
                Some(at) => at < self@.len() && self@[at as int].key == key@,
                None => !retains(self@, key@),
            },
    {
        let mut i: usize = 0;
        while i < self.entries.len()
            invariant
                i <= self.entries@.len(),
                forall|j: int| 0 <= j < i ==> (#[trigger] self@[j]).key != key@,
            decreases self.entries@.len() - i,
        {
            if self.entries[i].key == *key {
                return Some(i);
            }
            i += 1;
        }
        None
    }

    /// The picture kept under `key`, if there is one.  The order of the
    /// slots stays as it is.
    pub fn get(&self, key: &str) -> (r: Option<&CachedImage>)
        ensures
            match r {
                Some(image) => exists|i: int|
                    0 <= i < self@.len() && (#[trigger] self@[i]).key == key@ && self@[i].image
                        == *image,
                None => !retains(self@, key@),
            },
    {
        let wanted: String = key.to_owned();
        match self.position(&wanted) {
            Some(at) => {
                proof {
                    assert(self@[at as int].image == self.entries@[at as int].image);
                }
                Some(&self.entries[at].image)
            },
            None => None,
        }
    }

    /// Whether a picture is kept under `key`.
    pub fn contains(&self, key: &str) -> (r: bool)
        ensures
            r == retains(self@, key@),
    {
        let wanted: String = key.to_owned();
        self.position(&wanted).is_some()
    }

    /// Keeps `image` under `key` as the newest slot.  Where the cache is
    /// full its oldest slot is evicted first; a slot that `key` had before
    /// is dropped.
    pub fn insert(&mut self, key: String, image: CachedImage)
        requires
            old(self).wf(),
        ensures
            final(self).wf(),
            final(self).capacity() == old(self).capacity(),
            final(self)@ == inserted(old(self)@, old(self).capacity(), Slot { key: key@, image }),
    {
        let ghost before = self@;
        let ghost slot = Slot { key: key@, image };
        if self.entries.len() >= self.max_size {
            self.entries.remove(0);
        }
        let ghost kept = self@;
        proof {
            if before.len() >= self.max_size {
                assert(kept =~= before.drop_first());
            } else {
                assert(kept =~= before);
            }
            assert(distinct_keys(kept)) by {
                assert forall|i: int, j: int| 0 <= i < j < kept.len() implies (#[trigger] kept[i]).key
                    != (#[trigger] kept[j]).key by {
                    if before.len() >= self.max_size {
                        assert(kept[i] == before[i + 1]);
                        assert(kept[j] == before[j + 1]);
                    }
                }
            }
        }
        match self.position(&key) {
            Some(at) => {
                self.entries.remove(at);
                proof {
                    assert(self@ =~= kept.remove(at as int));
                    lemma_without_one(kept, key@, at as int);
                    assert forall|i: int| 0 <= i < self@.len() implies {
                        &&& (#[trigger] self@[i]).key != key@
                        &&& self@[i] == kept[if i < at {
                            i
                        } else {
                            i + 1
                        }]
                    } by {
                        if i < at {
                            assert(kept[i].key != kept[at as int].key);
                        } else {
                            assert(kept[at as int].key != kept[i + 1].key);
                        }
                    }
                }
            },
            None => {
                proof {
                    lemma_without_none(kept, key@);
                    assert forall|i: int| 0 <= i < self@.len() implies {
                        &&& (#[trigger] self@[i]).key != key@
                        &&& self@[i] == kept[i]
                    } by {}
                }
            },
        }
        let ghost pruned = self@;
        self.entries.push(CacheEntry { key, image });
        proof {
            assert(self@ =~= pruned.push(slot));
            assert(distinct_keys(self@)) by {
                assert forall|i: int, j: int| 0 <= i < j < self@.len() implies (#[trigger] self@[i]).key
                    != (#[trigger] self@[j]).key by {
                    assert(self@[i] == pruned[i]);
                    if j < pruned.len() {
                        assert(self@[j] == pruned[j]);
                        assert(pruned[i].key != pruned[j].key) by {
                            lemma_kept_apart(kept, pruned, i, j);
                        }
                    }
                }
            }
        }
    }

    /// Empties the cache.
    pub fn clear(&mut self)
        ensures
            final(self)@ == Seq::<Slot>::empty(),
            final(self).capacity() == old(self).capacity(),
            old(self).capacity() > 0 ==> final(self).wf(),
    {
        self.entries.clear();
        proof {
            assert(self@ =~= Seq::<Slot>::empty());
        }
    }
}

/// Slots taken in their order from slots of distinct keys have distinct
/// keys.
proof fn lemma_kept_apart(kept: Seq<Slot>, pruned: Seq<Slot>, i: int, j: int)
    requires
        distinct_keys(kept),
        0 <= i < j < pruned.len(),
        pruned == kept || exists|at: int| 0 <= at < kept.len() && pruned == #[trigger] kept.remove(at),
    ensures
        pruned[i].key != pruned[j].key,
{
    if pruned != kept {
        let at = choose|at: int| 0 <= at < kept.len() && pruned == #[trigger] kept.remove(at);
        let from_i = if i < at {
            i
        } else {
            i + 1
        };
        let from_j = if j < at {
            j
        } else {
            j + 1
        };
        assert(pruned[i] == kept[from_i]);
        assert(pruned[j] == kept[from_j]);
        assert(kept[from_i].key != kept[from_j].key);
    } else {
        assert(kept[i].key != kept[j].key);
    }
}

/// Where no slot has the key, nothing is taken out.
pub proof fn lemma_without_none(slots: Seq<Slot>, key: Seq<char>)
    requires
        !retains(slots, key),
    ensures
        without(slots, key) == slots,
    decreases slots.len(),
{
    if slots.len() > 0 {
        assert(slots[slots.len() - 1].key != key);
        let front = slots.drop_last();
        assert forall|i: int| 0 <= i < front.len() implies (#[trigger] front[i]).key != key by {
            assert(slots[i].key != key);
        }
        lemma_without_none(slots.drop_last(), key);
        assert(slots.drop_last().push(slots.last()) =~= slots);
    }
}

/// Where exactly the slot at `at` has the key, that slot is taken out.
pub proof fn lemma_without_one(slots: Seq<Slot>, key: Seq<char>, at: int)
    requires
        distinct_keys(slots),
        0 <= at < slots.len(),
        slots[at].key == key,
    ensures
        without(slots, key) == slots.remove(at),
    decreases slots.len(),
{
    let front = slots.drop_last();
    if at == slots.len() - 1 {
        assert forall|i: int| 0 <= i < front.len() implies (#[trigger] front[i]).key != key by {
            assert(slots[i].key != slots[at].key);
        }
        lemma_without_none(front, key);
        assert(slots.remove(at) =~= front);
    } else {
        assert(slots[at].key != slots[slots.len() - 1].key);
        assert forall|i: int, j: int| 0 <= i < j < front.len() implies (#[trigger] front[i]).key
            != (#[trigger] front[j]).key by {
            assert(slots[i].key != slots[j].key);
        }
        lemma_without_one(front, key, at);
        assert(slots.remove(at) =~= front.remove(at).push(slots.last()));
    }
}

/// The stamp of a key is the index of an insertion of that key, and no
/// later insertion has the key.
pub proof fn lemma_stamp(puts: Seq<Slot>, key: Seq<char>, t: int)
    ensures
        -1 <= stamp(puts, key) < puts.len(),
        stamp(puts, key) >= 0 ==> puts[stamp(puts, key)].key == key,
        0 <= t < puts.len() && puts[t].key == key ==> t <= stamp(puts, key),
    decreases puts.len(),
{
    if puts.len() > 0 {
        lemma_stamp(puts.drop_last(), key, t);
    }
}

/// When the key of slot `i` was last inserted.
pub open spec fn slot_stamp(puts: Seq<Slot>, slots: Seq<Slot>, i: int) -> int {
    stamp(puts, slots[i].key)
}

/// Whether the key of insertion `t` is not kept.
pub open spec fn is_dropped(puts: Seq<Slot>, slots: Seq<Slot>, t: int) -> bool {
    !retains(slots, puts[t].key)
}

/// Whether `slots` hold the latest of the insertions `puts`: no more than
/// the capacity; each slot as its key was last inserted; the slots by
/// ascending time of that insertion, the newest last; and every key that
/// is not kept last inserted before every key that is.
pub open spec fn keeps_latest(capacity: int, puts: Seq<Slot>, slots: Seq<Slot>) -> bool {
    &&& slots.len() <= capacity
    &&& forall|i: int|
        0 <= i < slots.len() ==> {
            &&& 0 <= #[trigger] slot_stamp(puts, slots, i) < puts.len()
            &&& puts[slot_stamp(puts, slots, i)] == slots[i]
        }
    &&& forall|i: int, j: int|
        0 <= i < j < slots.len() ==> #[trigger] slot_stamp(puts, slots, i) < #[trigger] slot_stamp(
            puts,
            slots,
            j,
        )
    &&& forall|t: int, i: int|
        0 <= t < puts.len() && 0 <= i < slots.len() && #[trigger] is_dropped(puts, slots, t) ==> t
            < #[trigger] slot_stamp(puts, slots, i)
    &&& puts.len() > 0 ==> slots.len() > 0 && slots.last() == puts.last()
}

/// The stamp of a key after one more insertion.
proof fn lemma_stamp_push(prev: Seq<Slot>, slot: Slot, key: Seq<char>)
    ensures
        stamp(prev.push(slot), key) == (if key == slot.key {
            prev.len() as int
        } else {
            stamp(prev, key)
        }),
{
    assert(prev.push(slot).drop_last() =~= prev);
}

/// The slots that an insertion keeps before it adds the new one: `slots`
/// without its first `shift` slots and without the slot at `at` of the
/// rest.
spec fn kept_index(at: int, shift: int, i: int) -> int {
    (if i < at {
        i
    } else {
        i + 1
    }) + shift
}

/// What an insertion keeps: slot `i` of what is left is slot
/// `kept_index(at, shift, i)` of the slots before, its key is not the new
/// one, and every other slot before is the first, evicted, or has the new
/// key.
proof fn lemma_insert_keeps(capacity: int, slots: Seq<Slot>, slot: Slot) -> (r: (int, int))
    requires
        capacity > 0,
        slots.len() <= capacity,
        distinct_keys(slots),
    ensures
        ({
            let (at, shift) = r;
            let after = inserted(slots, capacity, slot);
            &&& (shift == 0 || shift == 1)
            &&& shift == 1 <==> slots.len() >= capacity
            &&& 0 <= at <= slots.len() - shift
            &&& after.len() == (if at < slots.len() - shift {
                slots.len() - shift
            } else {
                slots.len() - shift + 1
            })
            &&& after.len() <= capacity
            &&& after.last() == slot
            &&& at < slots.len() - shift ==> slots[at + shift].key == slot.key
            &&& forall|i: int|
                0 <= i < after.len() - 1 ==> {
                    &&& 0 <= #[trigger] kept_index(at, shift, i) < slots.len()
                    &&& after[i] == slots[kept_index(at, shift, i)]
                    &&& after[i].key != slot.key
                }
        }),
{
    let shift = if slots.len() >= capacity {
        1int
    } else {
        0int
    };
    let kept = if slots.len() >= capacity {
        slots.drop_first()
    } else {
        slots
    };
    assert forall|i: int, j: int| 0 <= i < j < kept.len() implies (#[trigger] kept[i]).key != (
    #[trigger] kept[j]).key by {
        assert(kept[i] == slots[i + shift]);
        assert(kept[j] == slots[j + shift]);
    }
    let after = inserted(slots, capacity, slot);
    if retains(kept, slot.key) {
        let at = choose|at: int| 0 <= at < kept.len() && (#[trigger] kept[at]).key == slot.key;
        lemma_without_one(kept, slot.key, at);
        assert forall|i: int| 0 <= i < after.len() - 1 implies {
            &&& 0 <= #[trigger] kept_index(at, shift, i) < slots.len()
            &&& after[i] == slots[kept_index(at, shift, i)]
            &&& after[i].key != slot.key
        } by {
            let from = if i < at {
                i
            } else {
                i + 1
            };
            assert(after[i] == kept[from]);
            assert(kept[from] == slots[from + shift]);
            if from < at {
                assert(kept[from].key != kept[at].key);
            } else {
                assert(kept[at].key != kept[from].key);
            }
        }
        assert(kept[at] == slots[at + shift]);
        (at, shift)
    } else {
        lemma_without_none(kept, slot.key);
        let at = kept.len() as int;
        assert forall|i: int| 0 <= i < after.len() - 1 implies {
            &&& 0 <= #[trigger] kept_index(at, shift, i) < slots.len()
            &&& after[i] == slots[kept_index(at, shift, i)]
            &&& after[i].key != slot.key
        } by {
            assert(after[i] == kept[i]);
            assert(kept[i] == slots[i + shift]);
        }
        (at, shift)
    }
}

/// A key that was kept before an insertion and is not kept after it is the
/// key of the first slot, which was evicted.
proof fn lemma_dropped_was_first(
    capacity: int,
    slots: Seq<Slot>,
    slot: Slot,
    at: int,
    shift: int,
    was: int,
)
    requires
        0 <= was < slots.len(),
        slots[was].key != slot.key,
        !retains(inserted(slots, capacity, slot), slots[was].key),
        shift == 0 || shift == 1,
        0 <= at <= slots.len() - shift,
        inserted(slots, capacity, slot).len() == (if at < slots.len() - shift {
            slots.len() - shift
        } else {
            slots.len() - shift + 1
        }),
        at < slots.len() - shift ==> slots[at + shift].key == slot.key,
        forall|i: int|
            0 <= i < inserted(slots, capacity, slot).len() - 1 ==> {
                &&& 0 <= #[trigger] kept_index(at, shift, i) < slots.len()
                &&& inserted(slots, capacity, slot)[i] == slots[kept_index(at, shift, i)]
            },
    ensures
        was == 0,
        shift == 1,
{
    let after = inserted(slots, capacity, slot);
    if was >= shift {
        let in_kept = was - shift;
        assert(in_kept != at);
        let i = if in_kept < at {
            in_kept
        } else {
            in_kept - 1
        };
        assert(kept_index(at, shift, i) == was);
        assert(after[i] == slots[was]);
        assert(after[i].key == slots[was].key);
    }
}

/// One insertion keeps the latest.
proof fn lemma_insert_keeps_latest(capacity: int, prev: Seq<Slot>, slots: Seq<Slot>, slot: Slot)
    requires
        capacity > 0,
        keeps_latest(capacity, prev, slots),
    ensures
        keeps_latest(capacity, prev.push(slot), inserted(slots, capacity, slot)),
{
    let puts = prev.push(slot);
    let now = prev.len() as int;
    let after = inserted(slots, capacity, slot);
    assert(distinct_keys(slots)) by {
        assert forall|i: int, j: int| 0 <= i < j < slots.len() implies (#[trigger] slots[i]).key != (
        #[trigger] slots[j]).key by {
            assert(slot_stamp(prev, slots, i) < slot_stamp(prev, slots, j));
        }
    }
    let (at, shift) = lemma_insert_keeps(capacity, slots, slot);
    let last = after.len() - 1;
    assert forall|i: int| 0 <= i < after.len() implies {
        &&& 0 <= #[trigger] slot_stamp(puts, after, i) < puts.len()
        &&& puts[slot_stamp(puts, after, i)] == after[i]
        &&& i < last ==> slot_stamp(puts, after, i) == slot_stamp(
            prev,
            slots,
            kept_index(at, shift, i),
        )
        &&& i == last ==> slot_stamp(puts, after, i) == now
    } by {
        lemma_stamp_push(prev, slot, after[i].key);
        if i < last {
            let from = kept_index(at, shift, i);
            assert(after[i] == slots[from]);
            assert(0 <= slot_stamp(prev, slots, from) < prev.len());
        }
    }
    assert forall|i: int, j: int| 0 <= i < j < after.len() implies #[trigger] slot_stamp(
        puts,
        after,
        i,
    ) < #[trigger] slot_stamp(puts, after, j) by {
        let from_i = kept_index(at, shift, i);
        assert(slot_stamp(puts, after, i) == slot_stamp(prev, slots, from_i));
        assert(slot_stamp(prev, slots, from_i) < prev.len());
        if j < last {
            let from_j = kept_index(at, shift, j);
            assert(slot_stamp(puts, after, j) == slot_stamp(prev, slots, from_j));
            assert(slot_stamp(prev, slots, from_i) < slot_stamp(prev, slots, from_j));
        }
    }
    assert forall|t: int, i: int|
        0 <= t < puts.len() && 0 <= i < after.len() && #[trigger] is_dropped(
            puts,
            after,
            t,
        ) implies t < #[trigger] slot_stamp(puts, after, i) by {
        let key = puts[t].key;
        assert(after[last].key == slot.key);
        assert(key != slot.key);
        assert(t < now);
        assert(prev[t].key == key);
        if i < last {
            let from_i = kept_index(at, shift, i);
            assert(slot_stamp(puts, after, i) == slot_stamp(prev, slots, from_i));
            if retains(slots, key) {
                let was = choose|was: int| 0 <= was < slots.len() && (#[trigger] slots[was]).key
                    == key;
                lemma_dropped_was_first(capacity, slots, slot, at, shift, was);
                lemma_stamp(prev, key, t);
                assert(slot_stamp(prev, slots, 0) == stamp(prev, key));
                assert(slot_stamp(prev, slots, 0) < slot_stamp(prev, slots, from_i));
            } else {
                assert(is_dropped(prev, slots, t));
                assert(t < slot_stamp(prev, slots, from_i));
            }
        } else {
            assert(slot_stamp(puts, after, i) == now);
        }
    }
}

/// Cache capacity: after any sequence of insertions into an empty cache
/// the cache holds no more slots than its capacity, and the keys it holds
/// are those inserted most recently.
pub proof fn lemma_cache_keeps_latest(capacity: int, puts: Seq<Slot>)
    requires
        capacity > 0,
    ensures
        keeps_latest(capacity, puts, after_inserts(capacity, puts)),
        distinct_keys(after_inserts(capacity, puts)),
    decreases puts.len(),
{
    if puts.len() > 0 {
        let prev = puts.drop_last();
        lemma_cache_keeps_latest(capacity, prev);
        lemma_insert_keeps_latest(capacity, prev, after_inserts(capacity, prev), puts.last());
        assert(prev.push(puts.last()) =~= puts);
    }
    let slots = after_inserts(capacity, puts);
    assert forall|i: int, j: int| 0 <= i < j < slots.len() implies (#[trigger] slots[i]).key != (
    #[trigger] slots[j]).key by {
        assert(slot_stamp(puts, slots, i) < slot_stamp(puts, slots, j));
    }
}

} // verus!
