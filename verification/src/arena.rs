//! The slot arena: generational storage of payloads behind handles.
//!
//! Payloads lie densely in a vector. A slot index maps each live handle to
//! the position of its payload, and a second vector remembers which handle
//! owns each position, so that removal can fill the gap with the last payload
//! and tell the index where it went.
use vstd::prelude::*;

use crate::handle::{group_handle_words, Handle, LAST_GENERATION};
use crate::history::Census;
use crate::slots::{
    slot_index_get, slot_index_get_mut, slot_index_insert, slot_index_new, slot_index_remove,
    slot_positions, slot_retired, SlotIndex, SLOT_LIMIT,
};

verus! {

broadcast use group_handle_words;

/// `keys` names each member of `s` once, in some order.
pub open spec fn lists_each_once<K>(keys: Seq<K>, s: Set<K>) -> bool {
    keys.no_duplicates() && keys.to_set() == s
}

/// A listing is as long as the set it lists is large.
pub proof fn lemma_listing_len<K>(keys: Seq<K>, s: Set<K>)
    requires
        lists_each_once(keys, s),
    ensures
        s.finite(),
        s.len() == keys.len(),
{
    keys.unique_seq_to_set();
}

/// Renaming the members of a set one for one renames its listings.
pub proof fn lemma_listing_renamed<A, B>(
    keys: Seq<A>,
    s: Set<A>,
    t: Set<B>,
    there: spec_fn(A) -> B,
    back: spec_fn(B) -> A,
)
    requires
        lists_each_once(keys, s),
        forall|a: A| #[trigger] back(there(a)) == a,
        forall|b: B| #[trigger] there(back(b)) == b,
        forall|b: B| t.contains(b) == s.contains(#[trigger] back(b)),
    ensures
        lists_each_once(keys.map_values(there), t),
{
    let renamed = keys.map_values(there);
    assert forall|i: int, j: int|
        0 <= i < renamed.len() && 0 <= j < renamed.len() && i != j implies renamed[i]
        != renamed[j] by {
        assert(back(there(keys[i])) == keys[i]);
        assert(back(there(keys[j])) == keys[j]);
    }
    assert forall|b: B| renamed.to_set().contains(b) == t.contains(b) by {
        if renamed.to_set().contains(b) {
            let i = choose|i: int| 0 <= i < renamed.len() && renamed[i] == b;
            assert(back(there(keys[i])) == keys[i]);
            assert(keys.to_set().contains(keys[i]));
        }
        if t.contains(b) {
            assert(keys.to_set().contains(back(b)));
            let i = choose|i: int| 0 <= i < keys.len() && keys[i] == back(b);
            assert(renamed[i] == b);
        }
    }
    assert(renamed.to_set() =~= t);
}

/// A listing read backwards is a listing of the same set.
pub proof fn lemma_listing_reversed<K>(forward: Seq<K>, backward: Seq<K>, s: Set<K>)
    requires
        lists_each_once(forward, s),
        backward.len() == forward.len(),
        forall|i: int|
            0 <= i < backward.len() ==> #[trigger] backward[i] == forward[forward.len() - 1 - i],
    ensures
        lists_each_once(backward, s),
{
    let n = forward.len() as int;
    assert forall|i: int, j: int| 0 <= i < n && 0 <= j < n && i != j implies backward[i]
        != backward[j] by {
        assert(backward[i] == forward[n - 1 - i]);
        assert(backward[j] == forward[n - 1 - j]);
    }
    assert forall|k: K| backward.to_set().contains(k) == forward.to_set().contains(k) by {
        if backward.to_set().contains(k) {
            let i = choose|i: int| 0 <= i < n && backward[i] == k;
            assert(forward[n - 1 - i] == k);
        }
        if forward.to_set().contains(k) {
            let i = choose|i: int| 0 <= i < n && forward[i] == k;
            assert(backward[n - 1 - i] == k);
        }
    }
    assert(backward.to_set() =~= forward.to_set());
}

/// A store of payloads addressed by generational handles.
pub struct Arena<V> {
    index: SlotIndex,
    owners: Vec<Handle>,
    values: Vec<V>,
}

impl<V> View for Arena<V> {
    type V = Map<Handle, V>;

    /// The live handles, each with its payload.
    closed spec fn view(&self) -> Map<Handle, V> {
        Map::new(
            |h: Handle| slot_positions(self.index).contains_key(h.bits()),
            |h: Handle| self.values@[slot_positions(self.index)[h.bits()] as int],
        )
    }
}

impl<V> Arena<V> {
    /// The handles that have been removed and will not be handed out again.
    pub closed spec fn retired(&self) -> Set<Handle> {
        Set::new(|h: Handle| slot_retired(self.index).contains(h.bits()))
    }

    /// The index and the two vectors describe one another.
    pub closed spec fn wf(&self) -> bool {
        let pos = slot_positions(self.index);
        &&& self.owners@.len() == self.values@.len()
        &&& forall|k: u64| #[trigger]
            pos.contains_key(k) ==> pos[k] < self.owners@.len()
                && self.owners@[pos[k] as int].bits() == k
        &&& forall|i: int|
            0 <= i < self.owners@.len() ==> pos.contains_key((#[trigger] self.owners@[i]).bits())
                && pos[self.owners@[i].bits()] == i
        &&& forall|k: u64| #[trigger] slot_retired(self.index).contains(k) ==> !pos.contains_key(k)
    }

    /// The live and the retired handles.
    pub open spec fn census(&self) -> Census<Handle> {
        Census { live: self@.dom(), retired: self.retired() }
    }

    /// The live handles in the order in which their payloads lie.
    pub closed spec fn order(&self) -> Seq<Handle> {
        self.owners@
    }

    /// The order names each live handle once; so the live handles are
    /// finitely many.
    pub proof fn lemma_order(&self)
        requires
            self.wf(),
        ensures
            lists_each_once(self.order(), self@.dom()),
            self@.dom().finite(),
            self@.len() == self.order().len(),
    {
        self.lemma_owners();
    }

    /// No handle is both live and retired.
    pub proof fn lemma_retired_not_live(&self)
        requires
            self.wf(),
        ensures
            self.retired().disjoint(self@.dom()),
            self.census().sound(),
    {
    }

    /// The live handles are the owners, each listed once.
    proof fn lemma_owners(&self)
        requires
            self.wf(),
        ensures
            self.owners@.no_duplicates(),
            self@.dom() =~= self.owners@.to_set(),
            self@.dom().finite(),
            self@.len() == self.owners@.len(),
            slot_positions(self.index).dom().finite(),
            slot_positions(self.index).len() == self.owners@.len(),
    {
        let pos = slot_positions(self.index);
        assert forall|h: Handle| self@.dom().contains(h) implies self.owners@.to_set().contains(
            h,
        ) by {
            let i = pos[h.bits()] as int;
            assert(self.owners@[i] == h);
        }
        assert(self@.dom() =~= self.owners@.to_set());
        self.owners@.unique_seq_to_set();
        let words = self.owners@.map_values(|h: Handle| h.bits());
        assert(words.no_duplicates());
        assert forall|k: u64| pos.dom().contains(k) implies words.to_set().contains(k) by {
            let i = pos[k] as int;
            assert(words[i] == k);
        }
        assert forall|k: u64| words.to_set().contains(k) implies pos.dom().contains(k) by {
            let i = choose|i: int| 0 <= i < words.len() && words[i] == k;
            assert(self.owners@[i].bits() == k);
        }
        assert(pos.dom() =~= words.to_set());
        words.unique_seq_to_set();
    }

    /// An arena with nothing in it.
    pub fn new() -> (a: Arena<V>)
        ensures
            a.wf(),
            a@ == Map::<Handle, V>::empty(),
            a.retired() == Set::<Handle>::empty(),
    {
        let a = Arena { index: slot_index_new(), owners: Vec::new(), values: Vec::new() };
        assert(a@ =~= Map::<Handle, V>::empty());
        assert(a.retired() =~= Set::<Handle>::empty());
        a
    }

    /// The number of live handles.
    pub fn len(&self) -> (n: usize)
        requires
            self.wf(),
        ensures
            self@.dom().finite(),
            n == self@.len(),
    {
        proof {
            self.lemma_owners();
        }
        self.values.len()
    }

    /// Whether `h` is live.
    pub fn contains(&self, h: Handle) -> (r: bool)
        requires
            self.wf(),
        ensures
            r == self@.contains_key(h),
    {
        slot_index_get(&self.index, h.to_bits()).is_some()
    }

    /// The payload of `h`, if `h` is live.
    pub fn get(&self, h: Handle) -> (r: Option<&V>)
        requires
            self.wf(),
        ensures
            r == (if self@.contains_key(h) {
                Some(&self@[h])
            } else {
                None
            }),
    {
        match slot_index_get(&self.index, h.to_bits()) {
            Some(pos) => Some(&self.values[pos]),
            None => None,
        }
    }

    /// Stores `value` under a handle that has never been live before.
    ///
    /// The new handle is not null, and no live handle shares its slot.
    pub fn insert(&mut self, value: V) -> (h: Handle)
        requires
            old(self).wf(),
            old(self)@.len() < SLOT_LIMIT,
        ensures
            final(self).wf(),
            !old(self)@.contains_key(h),
            !old(self).retired().contains(h),
            !h.is_null_handle(),
            forall|other: Handle| #[trigger]
                old(self)@.contains_key(other) ==> other.index() != h.index(),
            final(self)@ == old(self)@.insert(h, value),
            final(self).retired() == old(self).retired(),
            old(self).census().inserts(h, final(self).census()),
            old(self).census().step(final(self).census()),
    {
        proof {
            self.lemma_owners();
        }
        let bits = slot_index_insert(&mut self.index, self.values.len());
        let h = Handle::issued(bits);
        self.owners.push(h);
        self.values.push(value);
        proof {
            assert(final(self)@ =~= old(self)@.insert(h, value));
            assert(final(self).retired() =~= old(self).retired());
            assert(final(self)@.dom() =~= old(self)@.dom().insert(h));
            assert(old(self).census().inserts(h, final(self).census()));
        }
        h
    }

    /// Takes `h` out of the arena and returns its payload, if `h` is live.
    ///
    /// A handle taken out is retired for good, unless its slot had reached
    /// its last generation.
    pub fn remove(&mut self, h: Handle) -> (r: Option<V>)
        requires
            old(self).wf(),
        ensures
            final(self).wf(),
            r == (if old(self)@.contains_key(h) {
                Some(old(self)@[h])
            } else {
                None
            }),
            final(self)@ == old(self)@.remove(h),
            r.is_none() ==> final(self).retired() == old(self).retired(),
            r.is_some() ==> final(self).retired().subset_of(old(self).retired().insert(h)),
            r.is_some() && h.generation() < LAST_GENERATION ==> final(self).retired() == old(
                self,
            ).retired().insert(h),
            r.is_some() && h.generation() < LAST_GENERATION ==> old(self).census().removes(
                h,
                final(self).census(),
            ),
            r.is_none() || h.generation() < LAST_GENERATION ==> old(self).census().step(
                final(self).census(),
            ),
    {
        match slot_index_remove(&mut self.index, h.to_bits()) {
            None => {
                proof {
                    assert(final(self)@ =~= old(self)@.remove(h));
                    assert(final(self).retired() =~= old(self).retired());
                    assert(final(self)@.dom() =~= old(self)@.dom());
                }
                None
            },
            Some(pos) => {
                let last = self.values.len() - 1;
                let value = self.values.swap_remove(pos);
                let _ = self.owners.swap_remove(pos);
                if pos < last {
                    let moved = self.owners[pos];
                    match slot_index_get_mut(&mut self.index, moved.to_bits()) {
                        Some(place) => {
                            *place = pos;
                        },
                        None => {},
                    }
                }
                proof {
                    assert(final(self)@ =~= old(self)@.remove(h));
                    assert(final(self).retired().subset_of(old(self).retired().insert(h)));
                    assert(final(self)@.dom() =~= old(self)@.dom().remove(h));
                    if h.generation() < LAST_GENERATION {
                        assert(final(self).retired() =~= old(self).retired().insert(h));
                        assert(old(self).census().removes(h, final(self).census()));
                    }
                }
                Some(value)
            },
        }
    }

    /// The payload of `h` for writing, if `h` is live. What the caller
    /// leaves there is the payload of `h` from then on.
    pub fn get_mut(&mut self, h: Handle) -> (r: Option<&mut V>)
        requires
            old(self).wf(),
        ensures
            final(self).wf(),
            final(self).retired() == old(self).retired(),
            final(self).census() == old(self).census(),
            r.is_some() == old(self)@.contains_key(h),
            match r {
                Some(v) => *v == old(self)@[h] && final(self)@ == old(self)@.insert(h, *final(v)),
                None => final(self)@ == old(self)@,
            },
    {
        match slot_index_get(&self.index, h.to_bits()) {
            Some(pos) => Some(&mut self.values[pos]),
            None => None,
        }
    }

    /// Every live handle with its payload, each once, in no particular order.
    pub fn iter(&self) -> (r: Vec<(Handle, &V)>)
        requires
            self.wf(),
        ensures
            lists_each_once(r@.map_values(|e: (Handle, &V)| e.0), self@.dom()),
            forall|i: int| 0 <= i < r@.len() ==> *(#[trigger] r@[i]).1 == self@[r@[i].0],
    {
        let mut out: Vec<(Handle, &V)> = Vec::new();
        let n = self.values.len();
        let mut i: usize = 0;
        while i < n
            invariant
                self.wf(),
                n == self.values@.len(),
                i <= n,
                out@.len() == i,
                forall|j: int|
                    0 <= j < i ==> (#[trigger] out@[j]).0 == self.owners@[j] && *out@[j].1
                        == self.values@[j],
            decreases n - i,
        {
            out.push((self.owners[i], &self.values[i]));
            i += 1;
        }
        proof {
            self.lemma_owners();
            assert(out@.map_values(|e: (Handle, &V)| e.0) =~= self.owners@);
        }
        out
    }

    /// Takes the arena apart into its live handles and their payloads, each
    /// once, in no particular order.
    pub fn into_entries(self) -> (r: Vec<(Handle, V)>)
        requires
            self.wf(),
        ensures
            lists_each_once(r@.map_values(|e: (Handle, V)| e.0), self@.dom()),
            forall|i: int| 0 <= i < r@.len() ==> (#[trigger] r@[i]).1 == self@[r@[i].0],
    {
        let mut owners = self.owners;
        let mut values = self.values;
        let mut out: Vec<(Handle, V)> = Vec::new();
        proof {
            self.lemma_owners();
        }
        while values.len() > 0
            invariant
                self.wf(),
                owners@.len() == values@.len(),
                owners@.len() + out@.len() == self.owners@.len(),
                owners@ == self.owners@.take(owners@.len() as int),
                values@ == self.values@.take(values@.len() as int),
                forall|j: int|
                    0 <= j < out@.len() ==> (#[trigger] out@[j]).0 == self.owners@[
                        self.owners@.len() - 1 - j] && out@[j].1 == self.values@[self.owners@.len()
                        - 1 - j],
            decreases values@.len(),
        {
            let v = values.pop();
            let h = owners.pop();
            match (h, v) {
                (Some(h), Some(v)) => {
                    out.push((h, v));
                },
                _ => {},
            }
        }
        proof {
            let keys = out@.map_values(|e: (Handle, V)| e.0);
            let n = self.owners@.len() as int;
            lemma_listing_reversed(self.owners@, keys, self@.dom());
            assert forall|i: int| 0 <= i < out@.len() implies (#[trigger] out@[i]).1
                == self@[out@[i].0] by {
                let j = n - 1 - i;
                assert(out@[i].0 == self.owners@[j]);
            }
        }
        out
    }

    /// Every live handle with its payload for writing, each once, in no
    /// particular order. What the caller leaves in each place is the payload
    /// of that handle from then on.
    pub fn iter_mut(&mut self) -> (r: Vec<(Handle, &mut V)>)
        requires
            old(self).wf(),
        ensures
            final(self).wf(),
            final(self).retired() == old(self).retired(),
            final(self)@.dom() == old(self)@.dom(),
            final(self).census() == old(self).census(),
            lists_each_once(r@.map_values(|e: (Handle, &mut V)| e.0), old(self)@.dom()),
            forall|i: int| 0 <= i < r@.len() ==> *(#[trigger] r@[i]).1 == old(self)@[r@[i].0],
            forall|i: int|
                0 <= i < r@.len() ==> final(self)@[(#[trigger] r@[i]).0] == *final(r@[i].1),
    {
        proof {
            self.lemma_owners();
        }
        let out = pair_up(&self.owners, &mut self.values);
        proof {
            assert(out@.map_values(|e: (Handle, &mut V)| e.0) =~= self.owners@);
        }
        out
    }
}

/// Pairs each owner with the place of its payload.
fn pair_up<'a, V>(owners: &Vec<Handle>, values: &'a mut Vec<V>) -> (r: Vec<(Handle, &'a mut V)>)
    requires
        owners@.len() == old(values)@.len(),
    ensures
        r@.len() == owners@.len(),
        final(values)@.len() == owners@.len(),
        forall|i: int|
            0 <= i < r@.len() ==> (#[trigger] r@[i]).0 == owners@[i] && *r@[i].1 == old(values)@[i],
        forall|i: int| 0 <= i < r@.len() ==> final(values)@[i] == *final((#[trigger] r@[i]).1),
{
    let ghost end = final(values)@;
    let mut out: Vec<(Handle, &mut V)> = Vec::new();
    let n = owners.len();
    let mut rest: &mut [V] = values.as_mut_slice();
    let mut i: usize = 0;
    while i < n
        invariant
            n == owners@.len(),
            n == old(values)@.len(),
            i + rest@.len() == n,
            out@.len() == i,
            rest@ == old(values)@.skip(i as int),
            forall|j: int|
                0 <= j < i ==> (#[trigger] out@[j]).0 == owners@[j] && *out@[j].1 == old(
                    values,
                )@[j],
            end == Seq::new(i as nat, |j: int| *final(out@[j].1)) + final(rest)@,
        decreases n - i,
    {
        let (head, tail) = rest.split_at_mut(1);
        match head.first_mut() {
            Some(place) => {
                out.push((owners[i], place));
            },
            None => {},
        }
        rest = tail;
        i += 1;
    }
    out
}

} // verus!
