//! What a history of insertions and removals does to handles.
//!
//! A census records which keys are live and which are retired. Every
//! operation of an arena takes one step from census to census; the lemmas
//! here say what holds along any number of such steps.
use vstd::prelude::*;

verus! {

/// The keys that are live and the keys that are retired, at one moment.
#[verifier::reject_recursive_types(K)]
pub struct Census<K> {
    pub live: Set<K>,
    pub retired: Set<K>,
}

impl<K> Census<K> {
    /// No key is both live and retired.
    pub open spec fn sound(self) -> bool {
        self.live.disjoint(self.retired)
    }

    /// `next` follows by inserting under the fresh key `k`.
    pub open spec fn inserts(self, k: K, next: Census<K>) -> bool {
        &&& !self.live.contains(k)
        &&& !self.retired.contains(k)
        &&& next.live == self.live.insert(k)
        &&& next.retired == self.retired
    }

    /// `next` follows by removing the live key `k`, which is then retired.
    pub open spec fn removes(self, k: K, next: Census<K>) -> bool {
        &&& self.live.contains(k)
        &&& next.live == self.live.remove(k)
        &&& next.retired == self.retired.insert(k)
    }

    /// `next` follows by one operation: one that leaves the keys as they
    /// are, an insertion, or a removal.
    pub open spec fn step(self, next: Census<K>) -> bool {
        ||| next == self
        ||| exists|k: K| self.inserts(k, next)
        ||| exists|k: K| self.removes(k, next)
    }

    /// A step keeps a census sound, keeps retired keys retired, and leaves
    /// every live key live or retired.
    pub proof fn lemma_step(self, next: Census<K>, k: K)
        requires
            self.sound(),
            self.step(next),
        ensures
            next.sound(),
            self.retired.contains(k) ==> next.retired.contains(k),
            self.live.contains(k) ==> next.live.contains(k) || next.retired.contains(k),
    {
    }
}

/// Each census of `history` follows from the one before it by one step, and
/// the first is sound.
pub open spec fn is_history<K>(history: Seq<Census<K>>) -> bool {
    &&& history.len() > 0
    &&& history[0].sound()
    &&& forall|i: int| 0 <= i < history.len() - 1 ==> (#[trigger] history[i]).step(history[i + 1])
}

/// Along a history, a key that has been removed is never live again, whatever
/// is inserted later; and a key that is live stays live until it is removed.
pub proof fn lemma_handle_freshness<K>(history: Seq<Census<K>>, k: K, i: int, j: int)
    requires
        is_history(history),
        0 <= i <= j < history.len(),
    ensures
        history[j].sound(),
        history[i].retired.contains(k) ==> history[j].retired.contains(k)
            && !history[j].live.contains(k),
        history[i].live.contains(k) ==> history[j].live.contains(k) || history[j].retired.contains(
            k,
        ),
    decreases j,
{
    if j == 0 {
    } else if i == j {
        lemma_handle_freshness(history, k, 0, j - 1);
        history[j - 1].lemma_step(history[j], k);
    } else {
        lemma_handle_freshness(history, k, i, j - 1);
        history[j - 1].lemma_step(history[j], k);
    }
}

} // verus!
