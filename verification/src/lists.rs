//! Per-handle lists: a side table that gives each tracked handle a list of
//! its own, and what the graphs say about such lists.
//!
//! The lists lie in a vector, one row per tracked handle. A side index maps
//! each tracked handle to its row.
use vstd::prelude::*;

use crate::handle::{group_handle_words, index_of, Handle};
use crate::slots::{side_index_get, side_index_insert, side_index_new, side_positions, SideIndex};

verus! {

broadcast use group_handle_words;

/// How often `entry` occurs in `list`.
pub open spec fn occurrences<T>(list: Seq<T>, entry: T) -> nat {
    list.to_multiset().count(entry)
}

/// `i` is the first place at which `entry` stands in `list`.
pub open spec fn is_first_position<T>(list: Seq<T>, entry: T, i: int) -> bool {
    &&& 0 <= i < list.len()
    &&& list[i] == entry
    &&& forall|j: int| 0 <= j < i ==> list[j] != entry
}

/// The first place at which `entry` stands in a list that contains it.
pub open spec fn first_position<T>(list: Seq<T>, entry: T) -> int {
    choose|i: int| is_first_position(list, entry, i)
}

/// The list without its entry at `i`, the last entry moved into the gap.
pub open spec fn swap_removed<T>(list: Seq<T>, i: int) -> Seq<T> {
    list.update(i, list.last()).drop_last()
}

/// An entry has at most one first place.
pub proof fn lemma_first_position<T>(list: Seq<T>, entry: T, i: int)
    requires
        is_first_position(list, entry, i),
    ensures
        first_position(list, entry) == i,
        list.contains(entry),
{
    let k = first_position(list, entry);
    assert(is_first_position(list, entry, k));
    if k < i {
        assert(list[k] != entry);
    }
    if i < k {
        assert(list[i] != entry);
    }
}

/// Adding an entry at the end adds one occurrence of it and of nothing else.
pub proof fn lemma_push_occurrences<T>(list: Seq<T>, entry: T, other: T)
    ensures
        occurrences(list.push(entry), other) == occurrences(list, other) + (if other == entry {
            1nat
        } else {
            0nat
        }),
        list.contains(other) <==> occurrences(list, other) > 0,
{
    list.to_multiset_ensures();
}

/// Removing the entry at `i` takes one occurrence of it away and of nothing
/// else, and leaves no entry that was not there.
pub proof fn lemma_swap_removed_occurrences<T>(list: Seq<T>, i: int, other: T)
    requires
        0 <= i < list.len(),
    ensures
        occurrences(swap_removed(list, i), other) + (if other == list[i] {
            1nat
        } else {
            0nat
        }) == occurrences(list, other),
        swap_removed(list, i).contains(other) ==> list.contains(other),
{
    let last = list.last();
    let filled = list.update(i, last);
    let shorter = swap_removed(list, i);
    assert(filled =~= shorter.push(last));
    assert(filled.remove(i) =~= list.remove(i));
    shorter.to_multiset_ensures();
    filled.to_multiset_ensures();
    list.to_multiset_ensures();
    vstd::seq_lib::to_multiset_remove(filled, i);
    vstd::seq_lib::to_multiset_remove(list, i);
    assert(filled.to_multiset() =~= shorter.to_multiset().insert(last));
    assert(filled.to_multiset().remove(last) =~= list.to_multiset().remove(list[i]));
    assert(shorter.to_multiset().insert(last).remove(last) =~= shorter.to_multiset());
    assert(shorter.to_multiset() =~= list.to_multiset().remove(list[i]));
    if shorter.contains(other) {
        let j = choose|j: int| 0 <= j < shorter.len() && shorter[j] == other;
        if j == i {
            assert(list[list.len() - 1] == other);
        } else {
            assert(list[j] == other);
        }
    }
}

/// A list with one more entry at its end contains what it contained, and
/// that entry.
pub proof fn lemma_push_contains<T>(list: Seq<T>, entry: T, other: T)
    ensures
        list.push(entry).contains(other) <==> list.contains(other) || other == entry,
{
    let longer = list.push(entry);
    if list.contains(other) {
        let i = choose|i: int| 0 <= i < list.len() && list[i] == other;
        assert(longer[i] == other);
    }
    if other == entry {
        assert(longer[list.len() as int] == other);
    }
}

/// A list without repeats stays so when an entry it lacks is added.
pub proof fn lemma_push_no_duplicates<T>(list: Seq<T>, entry: T)
    requires
        list.no_duplicates(),
        !list.contains(entry),
    ensures
        list.push(entry).no_duplicates(),
{
    let longer = list.push(entry);
    assert forall|i: int, j: int|
        0 <= i < longer.len() && 0 <= j < longer.len() && i != j implies longer[i]
        != longer[j] by {
        if i < list.len() {
            assert(list.contains(list[i]));
        }
        if j < list.len() {
            assert(list.contains(list[j]));
        }
    }
}

/// A list of `T` for each tracked handle.
pub(crate) struct HandleLists<T> {
    index: SideIndex,
    rows: Vec<Vec<T>>,
}

impl<T> View for HandleLists<T> {
    type V = Map<Handle, Seq<T>>;

    /// The tracked handles, each with its list.
    closed spec fn view(&self) -> Map<Handle, Seq<T>> {
        Map::new(
            |h: Handle| side_positions(self.index).contains_key(h.bits()),
            |h: Handle| self.rows@[side_positions(self.index)[h.bits()] as int]@,
        )
    }
}

impl<T> HandleLists<T> {
    /// Every tracked handle has a row, and no two share one.
    pub(crate) closed spec fn wf(&self) -> bool {
        let pos = side_positions(self.index);
        &&& forall|k: u64| #[trigger] pos.contains_key(k) ==> pos[k] < self.rows@.len()
        &&& forall|j: u64, k: u64|
            pos.contains_key(j) && pos.contains_key(k) && #[trigger] pos[j] == #[trigger] pos[k]
                ==> j == k
    }

    /// A table that tracks no handle.
    pub(crate) fn new() -> (t: HandleLists<T>)
        ensures
            t.wf(),
            t@ == Map::<Handle, Seq<T>>::empty(),
    {
        let t = HandleLists { index: side_index_new(), rows: Vec::new() };
        assert(t@ =~= Map::<Handle, Seq<T>>::empty());
        t
    }

    /// Whether `h` is tracked.
    pub(crate) fn tracks(&self, h: Handle) -> (r: bool)
        requires
            self.wf(),
        ensures
            r == self@.contains_key(h),
    {
        side_index_get(&self.index, h.to_bits()).is_some()
    }

    /// Starts tracking `h`, with an empty list.
    ///
    /// The side index keeps one handle per slot, so `h` must not be null and
    /// must not share its slot with a handle already tracked.
    pub(crate) fn track(&mut self, h: Handle)
        requires
            old(self).wf(),
            !h.is_null_handle(),
            forall|other: Handle| #[trigger]
                old(self)@.contains_key(other) ==> other.index() != h.index(),
        ensures
            final(self).wf(),
            final(self)@ == old(self)@.insert(h, Seq::<T>::empty()),
    {
        proof {
            assert forall|k: u64| #[trigger]
                side_positions(self.index).contains_key(k) implies index_of(k) != index_of(
                h.bits(),
            ) by {
                assert(self@.contains_key(Handle::of(k)));
            }
        }
        let row = self.rows.len();
        let _ = side_index_insert(&mut self.index, h.to_bits(), row);
        self.rows.push(Vec::new());
        proof {
            assert(final(self)@ =~= old(self)@.insert(h, Seq::<T>::empty()));
        }
    }

    /// The list of `h`, if `h` is tracked.
    pub(crate) fn get(&self, h: Handle) -> (r: Option<&Vec<T>>)
        requires
            self.wf(),
        ensures
            r.is_some() == self@.contains_key(h),
            r matches Some(list) ==> list@ == self@[h],
    {
        match side_index_get(&self.index, h.to_bits()) {
            Some(row) => Some(&self.rows[row]),
            None => None,
        }
    }

    /// The list of `h` for writing, if `h` is tracked. What the caller
    /// leaves there is the list of `h` from then on.
    pub(crate) fn get_mut(&mut self, h: Handle) -> (r: Option<&mut Vec<T>>)
        requires
            old(self).wf(),
        ensures
            final(self).wf(),
            r.is_some() == old(self)@.contains_key(h),
            match r {
                Some(list) => list@ == old(self)@[h] && final(self)@ == old(self)@.insert(
                    h,
                    final(list)@,
                ),
                None => final(self)@ == old(self)@,
            },
    {
        match side_index_get(&self.index, h.to_bits()) {
            Some(row) => Some(&mut self.rows[row]),
            None => None,
        }
    }
}

/// The first place at which `entry` stands in `list`, if it stands there.
pub fn position(list: &Vec<Handle>, entry: Handle) -> (r: Option<usize>)
    ensures
        r.is_some() == list@.contains(entry),
        r matches Some(i) ==> is_first_position(list@, entry, i as int),
{
    let mut i: usize = 0;
    while i < list.len()
        invariant
            i <= list@.len(),
            forall|j: int| 0 <= j < i ==> list@[j] != entry,
        decreases list@.len() - i,
    {
        if list[i] == entry {
            return Some(i);
        }
        i += 1;
    }
    None
}

} // verus!
