//! The layout of a resource registry: which resource types are registered,
//! and where each one lives in the registry's fixed, 8-byte-aligned storage.
//!
//! A resource of a type is placed at the first offset at or after the bytes
//! already used that is a multiple of the type's alignment. A type may be
//! registered once; the storage holds at most [`STORAGE_SIZE`] bytes and
//! [`MAX_RESOURCES`] resources, and takes types aligned to at most
//! [`STORAGE_ALIGN`] bytes. Resources are torn down in reverse order of
//! registration.

use vstd::prelude::*;
use vstd::string::*;
use core::any::TypeId;
use crate::text::{decimal_text, push_decimal};

verus! {

/// Most resources a registry holds.
pub const MAX_RESOURCES: usize = 8;

/// Bytes of storage a registry holds.
pub const STORAGE_SIZE: usize = 128;

/// Alignment of the start of the storage, and the largest alignment a
/// resource type may have.
pub const STORAGE_ALIGN: usize = 8;

#[verifier::external_type_specification]
#[verifier::external_body]
pub struct ExTypeId(TypeId);

/// `TypeId`'s equality: two ids are equal exactly when they are the same
/// value, as std documents them, one unique id per type.
pub assume_specification[ <TypeId as PartialEq>::eq ](a: &TypeId, b: &TypeId) -> (r: bool)
    ensures
        r == (*a == *b),
;

/// Why a resource cannot be registered.
#[derive(Debug, Clone, Copy, PartialEq, Eq, Structural)]
pub enum Refusal {
    /// A resource of the same type is registered already.
    Duplicate,
    /// The type's alignment exceeds [`STORAGE_ALIGN`].
    OverAligned { align: usize },
    /// The resource would end beyond the storage.
    StorageFull { offset: usize, size: usize },
    /// [`MAX_RESOURCES`] resources are registered already.
    TooMany,
}

/// Where a registered resource lives.
#[derive(Clone, Copy)]
pub struct Slot {
    /// The resource's type.
    pub type_id: TypeId,
    /// The offset of the resource in the storage.
    pub offset: usize,
    /// The size of the resource.
    pub size: usize,
}

/// `n` rounded up to a multiple of `align`.
pub open spec fn round_up(n: nat, align: nat) -> nat
    recommends
        align > 0,
{
    ((((n + align) as nat - 1) as nat / align) * align) as nat
}

/// Whether `align` is a power of two, as every type's alignment is.
pub open spec fn is_pow2(align: usize) -> bool {
    align == 1 || align == 2 || align == 4 || align == 8 || align == 16 || align == 32 || align
        == 64 || align == 128 || (align > 128 && align % 256 == 0)
}

/// The index of the slot of type `id`, if any.
pub open spec fn slot_of(slots: Seq<Slot>, id: TypeId) -> Option<int> {
    if exists|i: int| 0 <= i < slots.len() && slots[i].type_id == id {
        Some(choose|i: int| 0 <= i < slots.len() && slots[i].type_id == id)
    } else {
        None
    }
}

/// The layout of the resources of a registry.
pub struct ResourceLayout {
    slots: Vec<Slot>,
    used: usize,
}

/// The outcome of registering a resource of type `id`, `size` bytes long
/// and aligned to `align` bytes, after `slots` with `used` bytes used: the
/// checks come in the order duplicate type, alignment, room, count.
pub open spec fn placement(
    slots: Seq<Slot>,
    used: nat,
    id: TypeId,
    size: nat,
    align: nat,
) -> Result<nat, Refusal> {
    if slot_of(slots, id) is Some {
        Err(Refusal::Duplicate)
    } else if align > STORAGE_ALIGN {
        Err(Refusal::OverAligned { align: align as usize })
    } else if round_up(used, align) + size > STORAGE_SIZE {
        Err(Refusal::StorageFull { offset: round_up(used, align) as usize, size: size as usize })
    } else if slots.len() >= MAX_RESOURCES {
        Err(Refusal::TooMany)
    } else {
        Ok(round_up(used, align))
    }
}

impl ResourceLayout {
    /// The registered resources, in order of registration.
    pub closed spec fn slots(&self) -> Seq<Slot> {
        self.slots@
    }

    /// The bytes of storage used, up to the end of the last resource.
    pub closed spec fn used(&self) -> nat {
        self.used as nat
    }

    /// The layout's invariant: within the limits, each type once, and each
    /// resource inside the used bytes, after the resources before it.
    pub open spec fn wf(&self) -> bool {
        &&& self.used() <= STORAGE_SIZE
        &&& self.slots().len() <= MAX_RESOURCES
        &&& forall|i: int, j: int|
            0 <= i < j < self.slots().len() ==> self.slots()[i].type_id != self.slots()[j].type_id
        &&& forall|i: int|
            0 <= i < self.slots().len() ==> self.slots()[i].offset + self.slots()[i].size
                <= self.used()
        &&& forall|i: int, j: int|
            0 <= i < j < self.slots().len() ==> self.slots()[i].offset + self.slots()[i].size
                <= self.slots()[j].offset
    }

    /// An empty layout.
    pub fn new() -> (r: Self)
        ensures
            r.wf(),
            r.slots() == Seq::<Slot>::empty(),
            r.used() == 0,
    {
        ResourceLayout { slots: Vec::new(), used: 0 }
    }

    /// The number of registered resources.
    pub fn count(&self) -> (n: usize)
        ensures
            n == self.slots().len(),
    {
        self.slots.len()
    }

    /// The slot of registered resource `i`.
    pub fn slot(&self, i: usize) -> (s: Slot)
        requires
            i < self.slots().len(),
        ensures
            s == self.slots()[i as int],
    {
        self.slots[i]
    }

    /// The offset of the resource of type `id`, if one is registered.
    pub fn find(&self, id: TypeId) -> (r: Option<usize>)
        requires
            self.wf(),
        ensures
            r matches Some(off) ==> slot_of(self.slots(), id) matches Some(i)
                && self.slots()[i].offset == off,
            r is None ==> slot_of(self.slots(), id) is None,
    {
        let mut i: usize = 0;
        while i < self.slots.len()
            invariant
                self.wf(),
                i <= self.slots().len(),
                forall|k: int| 0 <= k < i ==> self.slots()[k].type_id != id,
            decreases self.slots().len() - i,
        {
            if self.slots[i].type_id == id {
                proof {
                    let j = choose|j: int|
                        0 <= j < self.slots().len() && self.slots()[j].type_id == id;
                    assert(self.slots()[i as int].type_id == id);
                    if j != i {
                        if j < i {
                        } else {
                            assert(self.slots()[i as int].type_id != self.slots()[j].type_id);
                        }
                    }
                }
                return Some(self.slots[i].offset);
            }
            i += 1;
        }
        None
    }

    /// Check where a resource of type `id`, `size` bytes long and aligned to
    /// `align` bytes, would go, or why it cannot be registered.
    pub fn check_insert(&self, id: TypeId, size: usize, align: usize) -> (r: Result<
        usize,
        Refusal,
    >)
        requires
            self.wf(),
            is_pow2(align),
        ensures
            match r {
                Ok(off) => placement(self.slots(), self.used(), id, size as nat, align as nat)
                    == Ok::<nat, Refusal>(off as nat),
                Err(e) => placement(self.slots(), self.used(), id, size as nat, align as nat)
                    == Err::<nat, Refusal>(e),
            },
    {
        if self.find(id).is_some() {
            return Err(Refusal::Duplicate);
        }
        if align > STORAGE_ALIGN {
            return Err(Refusal::OverAligned { align });
        }
        let offset = self.aligned_end(align);
        if size > STORAGE_SIZE - offset {
            return Err(Refusal::StorageFull { offset, size });
        }
        if self.slots.len() >= MAX_RESOURCES {
            return Err(Refusal::TooMany);
        }
        Ok(offset)
    }

    /// The used bytes rounded up to a multiple of `align`.
    fn aligned_end(&self, align: usize) -> (offset: usize)
        requires
            self.wf(),
            align == 1 || align == 2 || align == 4 || align == 8,
        ensures
            offset == round_up(self.used(), align as nat),
            offset <= STORAGE_SIZE,
    {
        let used = self.used;
        let mask = align - 1;
        let sum = used + mask;
        let offset = sum & !mask;
        proof {
            if align == 1 {
                assert(sum & !0usize == sum) by (bit_vector);
            } else if align == 2 {
                assert(sum & !1usize == sum / 2 * 2) by (bit_vector);
            } else if align == 4 {
                assert(sum & !3usize == sum / 4 * 4) by (bit_vector);
            } else {
                assert(sum & !7usize == sum / 8 * 8) by (bit_vector);
            }
            lemma_round_up(self.used(), align as nat);
        }
        offset
    }

    /// Register a resource of type `id`, `size` bytes long and aligned to
    /// `align` bytes, where it is accepted, and return its offset.
    pub fn insert(&mut self, id: TypeId, size: usize, align: usize) -> (r: Result<usize, Refusal>)
        requires
            old(self).wf(),
            is_pow2(align),
        ensures
            final(self).wf(),
            r == placement_exec(old(self).slots(), old(self).used(), id, size, align),
            match r {
                Ok(off) => {
                    &&& final(self).slots() == old(self).slots().push(
                        Slot { type_id: id, offset: off, size },
                    )
                    &&& final(self).used() == off + size
                    &&& off % align == 0
                    &&& old(self).used() <= off
                },
                Err(_) => *final(self) == *old(self),
            },
    {
        let r = self.check_insert(id, size, align);
        if let Ok(offset) = r {
            proof {
                lemma_round_up(self.used(), align as nat);
            }
            self.slots.push(Slot { type_id: id, offset, size });
            self.used = offset + size;
            proof {
                assert(slot_of(old(self).slots(), id) is None);
                assert forall|i: int| 0 <= i < old(self).slots().len() implies old(
                    self,
                ).slots()[i].type_id != id by {
                    if old(self).slots()[i].type_id == id {
                        assert(exists|k: int|
                            0 <= k < old(self).slots().len() && old(self).slots()[k].type_id
                                == id);
                    }
                }
            }
        }
        r
    }
}

/// The outcome of registering, with the offset as a `usize`.
pub open spec fn placement_exec(
    slots: Seq<Slot>,
    used: nat,
    id: TypeId,
    size: usize,
    align: usize,
) -> Result<usize, Refusal> {
    match placement(slots, used, id, size as nat, align as nat) {
        Ok(off) => Ok(off as usize),
        Err(e) => Err(e),
    }
}

/// Rounding up gives a multiple of the alignment, at most `align - 1` past
/// the number rounded.
proof fn lemma_round_up(n: nat, align: nat)
    requires
        align > 0,
    ensures
        round_up(n, align) % align == 0,
        n <= round_up(n, align) < n + align,
{
    let q = (((n + align) as nat - 1) as nat) / align;
    vstd::arithmetic::div_mod::lemma_fundamental_div_mod(((n + align) as nat - 1) as int, align as int);
    vstd::arithmetic::div_mod::lemma_mod_multiples_basic(q as int, align as int);
}

/// The message a registry panics with when it refuses a resource.
pub open spec fn refusal_text(r: Refusal) -> Seq<char> {
    match r {
        Refusal::Duplicate => "duplicate resource type: each resource type may appear at most once"@,
        Refusal::OverAligned { align } => "resource type alignment "@ + decimal_text(align as nat)
            + " exceeds AlignedStorage alignment (8)"@,
        Refusal::StorageFull { offset, size } => "resource storage full ("@ + decimal_text(
            offset as nat,
        ) + " + "@ + decimal_text(size as nat) + " > 128)"@,
        Refusal::TooMany => "too many resources (max 8)"@,
    }
}

/// The message a registry panics with when it refuses a resource.
pub fn refusal_message(r: Refusal) -> (s: String)
    ensures
        s@ == refusal_text(r),
{
    match r {
        Refusal::Duplicate => "duplicate resource type: each resource type may appear at most once".to_owned(),
        Refusal::OverAligned { align } => {
            let mut s = "resource type alignment ".to_owned();
            push_decimal(&mut s, align as u64);
            s.append(" exceeds AlignedStorage alignment (8)");
            s
        },
        Refusal::StorageFull { offset, size } => {
            let mut s = "resource storage full (".to_owned();
            push_decimal(&mut s, offset as u64);
            s.append(" + ");
            push_decimal(&mut s, size as u64);
            s.append(" > 128)");
            s
        },
        Refusal::TooMany => "too many resources (max 8)".to_owned(),
    }
}

/// A resource registered into a layout where its type was absent is found
/// again as the last resource, and the resources of other types are found
/// where they were before.
pub proof fn lemma_find_after_insert(slots: Seq<Slot>, new_slot: Slot, other: TypeId)
    requires
        slot_of(slots, new_slot.type_id) is None,
        forall|i: int, j: int|
            0 <= i < j < slots.len() ==> slots[i].type_id != slots[j].type_id,
    ensures
        slot_of(slots.push(new_slot), new_slot.type_id) == Some(slots.len() as int),
        other != new_slot.type_id ==> slot_of(slots.push(new_slot), other) == slot_of(
            slots,
            other,
        ),
{
    let grown = slots.push(new_slot);
    assert(grown[slots.len() as int].type_id == new_slot.type_id);
    let k = choose|i: int| 0 <= i < grown.len() && grown[i].type_id == new_slot.type_id;
    if k != slots.len() {
        assert(slots[k].type_id == new_slot.type_id);
    }
    if other != new_slot.type_id {
        if exists|i: int| 0 <= i < slots.len() && slots[i].type_id == other {
            let a = choose|i: int| 0 <= i < slots.len() && slots[i].type_id == other;
            assert(grown[a].type_id == other);
            let b = choose|i: int| 0 <= i < grown.len() && grown[i].type_id == other;
            if a != b {
                assert(slots[b].type_id == other);
                if a < b {
                    assert(slots[a].type_id != slots[b].type_id);
                } else {
                    assert(slots[b].type_id != slots[a].type_id);
                }
            }
        } else {
            assert forall|i: int| 0 <= i < grown.len() implies grown[i].type_id != other by {
                if i < slots.len() {
                    assert(grown[i] == slots[i]);
                }
            }
        }
    }
}

} // verus!
