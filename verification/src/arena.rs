//! Arena and block allocator: owns every heap-allocated object body and
//! hands out tagged handles whose pointer payload is the body's slot index.
//! A block made constant write-protects the bodies allocated in it.

use vstd::prelude::*;
use crate::tagged::Gc;
use crate::tagged::ObjectType;
use crate::tagged::RawObj;
use crate::tagged::Tag;
use crate::tagged::tag_ptr;
use crate::tagged::wf_handle;
use vstd::pervasive::unreached;

verus! {

pub use crate::tagged::LispError;

/// The capacity bound on a block: a slot index must fit in the 56 payload
/// bits of a handle.
pub const MAX_SLOTS: u64 = 0x100_0000_0000_0000;

/// A heap-allocated object body. Handles held inside a body are stored as
/// raw words.
pub enum Body {
    Cons { car: RawObj, cdr: RawObj, mutable: bool },
    Str { text: Vec<u8> },
    ByteStr { data: Vec<u8> },
    Vector { elems: Vec<RawObj>, mutable: bool },
    Record { elems: Vec<RawObj>, mutable: bool },
    HashTable { keys: Vec<RawObj>, vals: Vec<RawObj>, mutable: bool },
    Float { image: u64 },
    ByteFn { arity: u64, consts: Vec<RawObj> },
    Buffer { name: Vec<u8> },
}

/// An arena slot: an occupied body, or free space left by a sweep.
pub struct Slot {
    pub body: Option<Body>,
    pub marked: bool,
}

/// An allocation context owning a growing set of object bodies. Bodies
/// allocated while `konst` is set have their mutability flag cleared.
pub struct Block {
    pub slots: Vec<Slot>,
    pub konst: bool,
}

/// The handles a body transitively owns, in order.
pub open spec fn body_refs(b: Body) -> Seq<RawObj> {
    match b {
        Body::Cons { car, cdr, .. } => seq![car, cdr],
        Body::Vector { elems, .. } => elems@,
        Body::Record { elems, .. } => elems@,
        Body::HashTable { keys, vals, .. } => keys@ + vals@,
        Body::ByteFn { consts, .. } => consts@,
        _ => Seq::empty(),
    }
}

/// Whether a handle's tag points into the arena heap.
pub open spec fn heap_tagged(r: RawObj) -> bool {
    2 <= r.bits & 0xff <= 8 || r.bits & 0xff == 10 || r.bits & 0xff == 11
}

/// The slot index a heap handle points at.
pub open spec fn slot_of(r: RawObj) -> int {
    (r.bits >> 8) as int
}

/// A stored handle is valid for a heap of `n` slots and `m` symbols: its
/// tag byte is a tag, a heap reference hits an occupied slot, and a symbol
/// reference hits the symbol table.
pub open spec fn ref_ok(slots: Seq<Slot>, m: int, r: RawObj) -> bool {
    &&& r.bits & 0xff <= 11
    &&& (heap_tagged(r) ==> slot_of(r) < slots.len() && slots[slot_of(r)].body is Some)
    &&& (r.bits & 0xff == 0 ==> slot_of(r) < m)
}

/// All handles owned by a body are valid.
pub open spec fn body_ok(slots: Seq<Slot>, m: int, b: Body) -> bool {
    forall|k: int| 0 <= k < body_refs(b).len() ==> ref_ok(slots, m, #[trigger] body_refs(b)[k])
}

/// Every occupied slot of the heap holds a body whose handles are valid.
pub open spec fn heap_ok(slots: Seq<Slot>, m: int) -> bool {
    forall|i: int|
        0 <= i < slots.len() ==> match (#[trigger] slots[i]).body {
            Some(b) => body_ok(slots, m, b),
            None => true,
        }
}

/// No slot carries a mark: the state between collection cycles.
pub open spec fn all_unmarked(slots: Seq<Slot>) -> bool {
    forall|i: int| 0 <= i < slots.len() ==> !(#[trigger] slots[i]).marked
}

impl Block {
    /// Make a fresh, empty allocation context.
    pub fn new() -> (r: Block)
        ensures
            r.slots@.len() == 0,
            !r.konst,
            heap_ok(r.slots@, 0),
            all_unmarked(r.slots@),
    {
        Block { slots: Vec::new(), konst: false }
    }

    /// Make a fresh write-protecting context: bodies allocated in it are
    /// immutable.
    pub fn new_const() -> (r: Block)
        ensures
            r.slots@.len() == 0,
            r.konst,
            all_unmarked(r.slots@),
    {
        Block { slots: Vec::new(), konst: true }
    }

    /// Push a body into a fresh slot and hand back its tagged handle.
    fn alloc_body(&mut self, b: Body, tag: Tag) -> (r: Gc)
        requires
            old(self).slots@.len() < MAX_SLOTS,
        ensures
            wf_handle(r),
            crate::tagged::spec_tag_of(r) == tag,
            crate::tagged::spec_ptr_payload(r) == old(self).slots@.len(),
            final(self).slots@ == old(self).slots@.push(
                Slot { body: Some(b), marked: false },
            ),
            final(self).konst == old(self).konst,
    {
        let idx = self.slots.len() as u64;
        self.slots.push(Slot { body: Some(b), marked: false });
        tag_ptr(idx, tag)
    }

    /// Allocate a cons cell.
    pub fn alloc_cons(&mut self, car: Gc, cdr: Gc) -> (r: Gc)
        requires
            old(self).slots@.len() < MAX_SLOTS,
        ensures
            wf_handle(r),
            crate::tagged::spec_untag(r) == ObjectType::Cons(old(self).slots@.len() as u64),
            final(self).slots@ == old(self).slots@.push(
                Slot {
                    body: Some(
                        Body::Cons {
                            car: RawObj { bits: car.bits },
                            cdr: RawObj { bits: cdr.bits },
                            mutable: !old(self).konst,
                        },
                    ),
                    marked: false,
                },
            ),
            final(self).konst == old(self).konst,
    {
        let mutable = !self.konst;
        self.alloc_body(
            Body::Cons {
                car: RawObj { bits: car.bits },
                cdr: RawObj { bits: cdr.bits },
                mutable,
            },
            Tag::Cons,
        )
    }

    /// Allocate a string body from its UTF-8 bytes.
    pub fn alloc_string(&mut self, text: Vec<u8>) -> (r: Gc)
        requires
            old(self).slots@.len() < MAX_SLOTS,
        ensures
            wf_handle(r),
            crate::tagged::spec_untag(r) == ObjectType::String(old(self).slots@.len() as u64),
            final(self).slots@ == old(self).slots@.push(
                Slot { body: Some(Body::Str { text }), marked: false },
            ),
            final(self).konst == old(self).konst,
    {
        self.alloc_body(Body::Str { text }, Tag::String)
    }

    /// Allocate a byte-string body.
    pub fn alloc_bytestring(&mut self, data: Vec<u8>) -> (r: Gc)
        requires
            old(self).slots@.len() < MAX_SLOTS,
        ensures
            wf_handle(r),
            crate::tagged::spec_untag(r) == ObjectType::ByteString(old(self).slots@.len() as u64),
            final(self).slots@ == old(self).slots@.push(
                Slot { body: Some(Body::ByteStr { data }), marked: false },
            ),
            final(self).konst == old(self).konst,
    {
        self.alloc_body(Body::ByteStr { data }, Tag::ByteString)
    }

    /// Allocate a vector body.
    pub fn alloc_vec(&mut self, elems: Vec<RawObj>) -> (r: Gc)
        requires
            old(self).slots@.len() < MAX_SLOTS,
        ensures
            wf_handle(r),
            crate::tagged::spec_untag(r) == ObjectType::Vec(old(self).slots@.len() as u64),
            final(self).slots@ == old(self).slots@.push(
                Slot {
                    body: Some(Body::Vector { elems, mutable: !old(self).konst }),
                    marked: false,
                },
            ),
            final(self).konst == old(self).konst,
    {
        let mutable = !self.konst;
        self.alloc_body(Body::Vector { elems, mutable }, Tag::Vec)
    }

    /// Allocate a record body.
    pub fn alloc_record(&mut self, elems: Vec<RawObj>) -> (r: Gc)
        requires
            old(self).slots@.len() < MAX_SLOTS,
        ensures
            wf_handle(r),
            crate::tagged::spec_untag(r) == ObjectType::Record(old(self).slots@.len() as u64),
            final(self).slots@ == old(self).slots@.push(
                Slot {
                    body: Some(Body::Record { elems, mutable: !old(self).konst }),
                    marked: false,
                },
            ),
            final(self).konst == old(self).konst,
    {
        let mutable = !self.konst;
        self.alloc_body(Body::Record { elems, mutable }, Tag::Record)
    }

    /// Allocate a float body from its IEEE-754 bit image.
    pub fn alloc_float(&mut self, image: u64) -> (r: Gc)
        requires
            old(self).slots@.len() < MAX_SLOTS,
        ensures
            wf_handle(r),
            crate::tagged::spec_untag(r) == ObjectType::Float(old(self).slots@.len() as u64),
            final(self).slots@ == old(self).slots@.push(
                Slot { body: Some(Body::Float { image }), marked: false },
            ),
            final(self).konst == old(self).konst,
    {
        self.alloc_body(Body::Float { image }, Tag::Float)
    }

    /// Read the body at a slot.
    pub fn body_at(&self, idx: u64) -> (r: &Body)
        requires
            idx < self.slots@.len(),
            self.slots@[idx as int].body is Some,
        ensures
            Some(*r) == self.slots@[idx as int].body,
    {
        let n = self.slots.len();
        let slot = &self.slots[idx as usize];
        match &slot.body {
            Some(b) => b,
            None => unreached(),
        }
    }

    /// The car of the cons at `idx`.
    pub fn car(&self, idx: u64) -> (r: RawObj)
        requires
            idx < self.slots@.len(),
            self.slots@[idx as int].body matches Some(b) && b is Cons,
        ensures
            self.slots@[idx as int].body matches Some(Body::Cons { car, .. }) && r == car,
    {
        match self.body_at(idx) {
            Body::Cons { car, .. } => *car,
            _ => unreached(),
        }
    }

    /// The cdr of the cons at `idx`.
    pub fn cdr(&self, idx: u64) -> (r: RawObj)
        requires
            idx < self.slots@.len(),
            self.slots@[idx as int].body matches Some(b) && b is Cons,
        ensures
            self.slots@[idx as int].body matches Some(Body::Cons { cdr, .. }) && r == cdr,
    {
        match self.body_at(idx) {
            Body::Cons { cdr, .. } => *cdr,
            _ => unreached(),
        }
    }

    /// Replace the car of the cons at `idx`; a cons allocated in a const
    /// block refuses with a constant error.
    pub fn set_car(&mut self, idx: u64, v: Gc) -> (r: Result<(), LispError>)
        requires
            idx < old(self).slots@.len(),
            old(self).slots@.len() <= MAX_SLOTS,
            old(self).slots@[idx as int].body matches Some(b) && b is Cons,
        ensures
            final(self).slots@.len() == old(self).slots@.len(),
            final(self).konst == old(self).konst,
            match r {
                Ok(_) => {
                    &&& old(self).slots@[idx as int].body matches Some(
                        Body::Cons { cdr, mutable, .. },
                    ) && mutable && final(self).slots@ == old(self).slots@.update(
                        idx as int,
                        Slot {
                            body: Some(
                                Body::Cons { car: RawObj { bits: v.bits }, cdr, mutable: true },
                            ),
                            marked: old(self).slots@[idx as int].marked,
                        },
                    )
                },
                Err(e) => {
                    &&& e is Constant
                    &&& *final(self) == *old(self)
                    &&& old(self).slots@[idx as int].body matches Some(
                        Body::Cons { mutable, .. },
                    ) && !mutable
                },
            },
    {
        let n = self.slots.len();
        let slot = &self.slots[idx as usize];
        let (c_cdr, c_mut, c_marked) = match &slot.body {
            Some(Body::Cons { cdr, mutable, .. }) => (*cdr, *mutable, slot.marked),
            _ => unreached(),
        };
        if !c_mut {
            return Err(LispError::Constant(tag_ptr(idx, Tag::Cons)));
        }
        self.slots[idx as usize] = Slot {
            body: Some(Body::Cons { car: RawObj { bits: v.bits }, cdr: c_cdr, mutable: true }),
            marked: c_marked,
        };
        Ok(())
    }

    /// Replace the cdr of the cons at `idx`.
    pub fn set_cdr(&mut self, idx: u64, v: Gc) -> (r: Result<(), LispError>)
        requires
            idx < old(self).slots@.len(),
            old(self).slots@.len() <= MAX_SLOTS,
            old(self).slots@[idx as int].body matches Some(b) && b is Cons,
        ensures
            final(self).slots@.len() == old(self).slots@.len(),
            final(self).konst == old(self).konst,
            match r {
                Ok(_) => {
                    &&& old(self).slots@[idx as int].body matches Some(
                        Body::Cons { car, mutable, .. },
                    ) && mutable && final(self).slots@ == old(self).slots@.update(
                        idx as int,
                        Slot {
                            body: Some(
                                Body::Cons { car, cdr: RawObj { bits: v.bits }, mutable: true },
                            ),
                            marked: old(self).slots@[idx as int].marked,
                        },
                    )
                },
                Err(e) => {
                    &&& e is Constant
                    &&& *final(self) == *old(self)
                    &&& old(self).slots@[idx as int].body matches Some(
                        Body::Cons { mutable, .. },
                    ) && !mutable
                },
            },
    {
        let n = self.slots.len();
        let slot = &self.slots[idx as usize];
        let (c_car, c_mut, c_marked) = match &slot.body {
            Some(Body::Cons { car, mutable, .. }) => (*car, *mutable, slot.marked),
            _ => unreached(),
        };
        if !c_mut {
            return Err(LispError::Constant(tag_ptr(idx, Tag::Cons)));
        }
        self.slots[idx as usize] = Slot {
            body: Some(Body::Cons { car: c_car, cdr: RawObj { bits: v.bits }, mutable: true }),
            marked: c_marked,
        };
        Ok(())
    }

    /// Store `v` at position `pos` of the vector at `idx`: the Lisp
    /// `aset`. An immutable vector refuses with a constant error, an
    /// out-of-bounds position with a range error.
    pub fn aset(&mut self, idx: u64, pos: usize, v: Gc) -> (r: Result<(), LispError>)
        requires
            idx < old(self).slots@.len(),
            old(self).slots@.len() <= MAX_SLOTS,
            old(self).slots@[idx as int].body matches Some(b) && b is Vector,
        ensures
            final(self).slots@.len() == old(self).slots@.len(),
            match r {
                Ok(_) => {
                    &&& (old(self).slots@[idx as int].body matches Some(
                        Body::Vector { elems, mutable },
                    ) && mutable && pos < elems@.len())
                    &&& final(self).slots@.len() == old(self).slots@.len()
                    &&& (forall|i: int|
                        0 <= i < old(self).slots@.len() && i != idx ==> final(self).slots@[i]
                            == old(self).slots@[i])
                    &&& final(self).slots@[idx as int].marked == old(
                        self,
                    ).slots@[idx as int].marked
                    &&& (final(self).slots@[idx as int].body matches Some(
                        Body::Vector { elems: e2, mutable: m2 },
                    ) && m2 && (old(self).slots@[idx as int].body matches Some(
                        Body::Vector { elems, .. },
                    ) && e2@ == elems@.update(pos as int, RawObj { bits: v.bits })))
                },
                Err(e) => *final(self) == *old(self) && (match e {
                    LispError::Constant(_) => old(self).slots@[idx as int].body matches Some(
                        Body::Vector { mutable, .. },
                    ) && !mutable,
                    LispError::Range(_) => old(self).slots@[idx as int].body matches Some(
                        Body::Vector { elems, mutable },
                    ) && mutable && pos >= elems@.len(),
                    _ => false,
                }),
            },
    {
        let n = self.slots.len();
        let slot = &self.slots[idx as usize];
        let (is_mut, len, c_marked) = match &slot.body {
            Some(Body::Vector { elems, mutable }) => (*mutable, elems.len(), slot.marked),
            _ => unreached(),
        };
        if !is_mut {
            return Err(LispError::Constant(tag_ptr(idx, Tag::Vec)));
        }
        if pos >= len {
            return Err(LispError::Range(tag_ptr(idx, Tag::Vec)));
        }
        let slot_mut = &mut self.slots[idx as usize];
        match &mut slot_mut.body {
            Some(Body::Vector { elems, .. }) => {
                elems[pos] = RawObj { bits: v.bits };
            },
            _ => unreached(),
        }
        Ok(())
    }
}

} // verus!
