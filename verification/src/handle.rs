//! Generational handles.
//!
//! A handle names one slot of an arena at one generation of that slot. It is
//! carried as a single 64-bit word: the slot index in the low half, the
//! generation in the high half. Handles that an arena hands out always carry
//! an odd generation; the null handle carries the highest slot index, which
//! no arena ever uses.
use vstd::prelude::*;

use crate::slots::null_bits;

verus! {

/// Number of values that each half of a handle's word can take.
pub const HALF_SPAN: u64 = 0x1_0000_0000;

/// The slot index that only the null handle carries.
pub const NULL_INDEX: u64 = 0xFFFF_FFFF;

/// The highest generation a slot can reach.
pub const LAST_GENERATION: u64 = 0xFFFF_FFFF;

/// The word of the null handle: the reserved slot index at generation one.
pub const NULL_BITS: u64 = 0x1_FFFF_FFFF;

/// Slot index held in the low half of a handle's word.
pub open spec fn index_of(bits: u64) -> int {
    bits as int % HALF_SPAN as int
}

/// Generation held in the high half of a handle's word.
pub open spec fn generation_of(bits: u64) -> int {
    bits as int / HALF_SPAN as int
}

/// A word is a handle's word when its generation is odd: even generations
/// mark vacant slots and are never handed out.
pub open spec fn is_handle_bits(bits: u64) -> bool {
    generation_of(bits) % 2 == 1
}

/// An opaque, copyable reference to a value stored in an arena.
///
/// Two handles are equal exactly when their slot index and their generation
/// are equal.
#[derive(Copy, Clone, PartialEq, Eq, Structural, PartialOrd, Ord, Hash, Debug)]
pub struct Handle {
    bits: u64,
}

impl Handle {
    #[verifier::type_invariant]
    pub closed spec fn well_formed(self) -> bool {
        is_handle_bits(self.bits)
    }

    /// The 64-bit word that carries this handle.
    pub closed spec fn bits(self) -> u64 {
        self.bits
    }

    /// The handle that a word carries.
    pub closed spec fn of(bits: u64) -> Handle {
        Handle { bits }
    }

    /// The slot this handle names.
    pub open spec fn index(self) -> int {
        index_of(self.bits())
    }

    /// The generation of the slot at which this handle was issued.
    pub open spec fn generation(self) -> int {
        generation_of(self.bits())
    }

    /// The null handle names the reserved slot and is never live in any arena.
    pub open spec fn is_null_handle(self) -> bool {
        self.index() == NULL_INDEX
    }

    /// A handle is the handle of its own word.
    pub broadcast proof fn lemma_of_bits(h: Handle)
        ensures
            Handle::of(#[trigger] h.bits()) == h,
    {
    }

    /// The handle of a word carries that word.
    pub broadcast proof fn lemma_bits_of(bits: u64)
        ensures
            #[trigger] Handle::of(bits).bits() == bits,
    {
    }

    /// A handle is determined by its slot index and generation together.
    pub proof fn lemma_index_generation_injective(a: Handle, b: Handle)
        ensures
            (a.index() == b.index() && a.generation() == b.generation()) <==> a == b,
    {
        let x = a.bits as int;
        let y = b.bits as int;
        let d = HALF_SPAN as int;
        assert(x == d * (x / d) + x % d) by (nonlinear_arith)
            requires
                d == 0x1_0000_0000,
        ;
        assert(y == d * (y / d) + y % d) by (nonlinear_arith)
            requires
                d == 0x1_0000_0000,
        ;
    }

    /// Wraps a word that an arena has issued.
    pub(crate) fn issued(bits: u64) -> (h: Handle)
        requires
            is_handle_bits(bits),
        ensures
            h.bits() == bits,
    {
        Handle { bits }
    }

    /// The handle that `bits` carries, if it carries one.
    pub fn from_bits(bits: u64) -> (r: Option<Handle>)
        ensures
            r.is_some() == is_handle_bits(bits),
            r matches Some(h) ==> h.bits() == bits,
    {
        if (bits / HALF_SPAN) % 2 == 1 {
            Some(Handle { bits })
        } else {
            None
        }
    }

    /// The word that carries this handle.
    pub fn to_bits(self) -> (bits: u64)
        ensures
            bits == self.bits(),
            is_handle_bits(bits),
    {
        proof {
            use_type_invariant(&self);
        }
        self.bits
    }

    /// The null handle.
    pub fn null() -> (h: Handle)
        ensures
            h.bits() == NULL_BITS,
            h.is_null_handle(),
    {
        Handle::issued(null_bits())
    }

    /// Whether this is the null handle.
    pub fn is_null(self) -> (r: bool)
        ensures
            r == self.is_null_handle(),
    {
        self.bits % HALF_SPAN == NULL_INDEX
    }
}

impl Default for Handle {
    /// The null handle.
    fn default() -> (h: Handle)
        ensures
            h.is_null_handle(),
    {
        Handle::null()
    }
}

pub broadcast group group_handle_words {
    Handle::lemma_of_bits,
    Handle::lemma_bits_of,
}

} // verus!
