//! Tagged value encoding: every Lisp value is a machine-word handle whose
//! low byte is a type tag; the remaining bits carry either a shifted,
//! sign-extended integer payload or a shifted reference to an object body
//! (modelled as an arena slot index).

use vstd::prelude::*;

verus! {

/// The largest integer a fixnum handle can carry.
pub const MAX_FIXNUM: i64 = i64::MAX >> 8;

/// The smallest integer a fixnum handle can carry.
pub const MIN_FIXNUM: i64 = i64::MIN >> 8;

/// The low-byte discriminant of a handle. `Symbol` is first so that its
/// code is zero and the all-zero handle is the canonical `nil`.
#[derive(Clone, Copy, PartialEq, Eq, Structural, Debug)]
pub enum Tag {
    Symbol,
    Int,
    Float,
    Cons,
    String,
    ByteString,
    Vec,
    Record,
    HashTable,
    SubrFn,
    ByteFn,
    Buffer,
}

/// The numeric code a tag is stored as.
pub open spec fn tag_code(t: Tag) -> u64 {
    match t {
        Tag::Symbol => 0,
        Tag::Int => 1,
        Tag::Float => 2,
        Tag::Cons => 3,
        Tag::String => 4,
        Tag::ByteString => 5,
        Tag::Vec => 6,
        Tag::Record => 7,
        Tag::HashTable => 8,
        Tag::SubrFn => 9,
        Tag::ByteFn => 10,
        Tag::Buffer => 11,
    }
}

impl Tag {
    /// The numeric code of this tag.
    pub fn code(self) -> (r: u64)
        ensures
            r == tag_code(self),
            r <= 11,
    {
        match self {
            Tag::Symbol => 0,
            Tag::Int => 1,
            Tag::Float => 2,
            Tag::Cons => 3,
            Tag::String => 4,
            Tag::ByteString => 5,
            Tag::Vec => 6,
            Tag::Record => 7,
            Tag::HashTable => 8,
            Tag::SubrFn => 9,
            Tag::ByteFn => 10,
            Tag::Buffer => 11,
        }
    }

    /// The tag stored under a numeric code.
    pub fn of_code(c: u64) -> (r: Tag)
        requires
            c <= 11,
        ensures
            tag_code(r) == c,
    {
        if c == 0 {
            Tag::Symbol
        } else if c == 1 {
            Tag::Int
        } else if c == 2 {
            Tag::Float
        } else if c == 3 {
            Tag::Cons
        } else if c == 4 {
            Tag::String
        } else if c == 5 {
            Tag::ByteString
        } else if c == 6 {
            Tag::Vec
        } else if c == 7 {
            Tag::Record
        } else if c == 8 {
            Tag::HashTable
        } else if c == 9 {
            Tag::SubrFn
        } else if c == 10 {
            Tag::ByteFn
        } else {
            Tag::Buffer
        }
    }
}

/// An untyped machine word holding a handle, as stored in roots and object
/// bodies.
#[derive(Clone, Copy, PartialEq, Eq, Structural, Debug)]
pub struct RawObj {
    pub bits: u64,
}

/// A tagged handle: a machine word whose low byte is the tag and whose
/// upper bits are the payload shifted left by eight.
#[derive(Clone, Copy, PartialEq, Eq, Structural, Debug)]
pub struct Gc {
    pub bits: u64,
}

/// A handle is well formed when its low byte is one of the twelve tags.
pub open spec fn wf_handle(g: Gc) -> bool {
    g.bits & 0xff <= 11
}

/// The tag encoded in a handle's low byte.
pub open spec fn spec_tag_of(g: Gc) -> Tag {
    if g.bits & 0xff == 0 {
        Tag::Symbol
    } else if g.bits & 0xff == 1 {
        Tag::Int
    } else if g.bits & 0xff == 2 {
        Tag::Float
    } else if g.bits & 0xff == 3 {
        Tag::Cons
    } else if g.bits & 0xff == 4 {
        Tag::String
    } else if g.bits & 0xff == 5 {
        Tag::ByteString
    } else if g.bits & 0xff == 6 {
        Tag::Vec
    } else if g.bits & 0xff == 7 {
        Tag::Record
    } else if g.bits & 0xff == 8 {
        Tag::HashTable
    } else if g.bits & 0xff == 9 {
        Tag::SubrFn
    } else if g.bits & 0xff == 10 {
        Tag::ByteFn
    } else {
        Tag::Buffer
    }
}

/// The signed fixnum payload of a handle: the word shifted arithmetically
/// right by eight, which sign-extends.
pub open spec fn spec_int_payload(g: Gc) -> i64 {
    (g.bits as i64) >> 8
}

/// The pointer payload of a handle: the word shifted logically right by
/// eight, read as an arena slot or symbol index.
pub open spec fn spec_ptr_payload(g: Gc) -> u64 {
    g.bits >> 8
}

/// Clamping an integer into the fixnum range.
pub open spec fn spec_clamp(i: i64) -> i64 {
    if i < MIN_FIXNUM {
        MIN_FIXNUM
    } else if i > MAX_FIXNUM {
        MAX_FIXNUM
    } else {
        i
    }
}

/// Tag an integer, saturating at the fixnum bounds rather than wrapping.
pub fn tag_int(i: i64) -> (r: Gc)
    ensures
        wf_handle(r),
        spec_tag_of(r) == Tag::Int,
        spec_int_payload(r) == spec_clamp(i),
{
    let c = if i < MIN_FIXNUM {
        MIN_FIXNUM
    } else if i > MAX_FIXNUM {
        MAX_FIXNUM
    } else {
        i
    };
    let bits = ((c << 8) as u64) | 1u64;
    proof {
        let cg = c;
        assert(i64::MIN >> 8 == -36028797018963968i64 && i64::MAX >> 8 == 36028797018963967i64)
            by (bit_vector);
        assert((((cg << 8) as u64 | 1u64) as i64) >> 8 == cg && ((cg << 8) as u64 | 1u64) & 0xff
            == 1) by (bit_vector)
            requires
                -36028797018963968i64 <= cg <= 36028797018963967i64,
        ;
    }
    Gc { bits }
}

/// Tag an index-valued payload with the given tag.
pub fn tag_ptr(idx: u64, tag: Tag) -> (r: Gc)
    requires
        idx < 0x100_0000_0000_0000,
    ensures
        wf_handle(r),
        spec_tag_of(r) == tag,
        spec_ptr_payload(r) == idx,
{
    let code = tag.code();
    let bits = (idx << 8) | code;
    proof {
        let ig = idx;
        let cd = code;
        assert(((ig << 8) | cd) >> 8 == ig && ((ig << 8) | cd) & 0xff == cd) by (bit_vector)
            requires
                ig < 0x100_0000_0000_0000,
                cd <= 11,
        ;
    }
    Gc { bits }
}

/// A handle untagged into a variant that can be matched exhaustively.
/// Heap-backed variants carry the arena slot index of their body; symbols
/// carry their index in the permanent symbol table.
#[derive(Clone, Copy, PartialEq, Eq, Structural, Debug)]
pub enum ObjectType {
    Int(i64),
    Symbol(u64),
    Float(u64),
    Cons(u64),
    String(u64),
    ByteString(u64),
    Vec(u64),
    Record(u64),
    HashTable(u64),
    SubrFn(u64),
    ByteFn(u64),
    Buffer(u64),
}

/// What untagging a well-formed handle yields.
pub open spec fn spec_untag(g: Gc) -> ObjectType {
    match spec_tag_of(g) {
        Tag::Symbol => ObjectType::Symbol(spec_ptr_payload(g)),
        Tag::Int => ObjectType::Int(spec_int_payload(g)),
        Tag::Float => ObjectType::Float(spec_ptr_payload(g)),
        Tag::Cons => ObjectType::Cons(spec_ptr_payload(g)),
        Tag::String => ObjectType::String(spec_ptr_payload(g)),
        Tag::ByteString => ObjectType::ByteString(spec_ptr_payload(g)),
        Tag::Vec => ObjectType::Vec(spec_ptr_payload(g)),
        Tag::Record => ObjectType::Record(spec_ptr_payload(g)),
        Tag::HashTable => ObjectType::HashTable(spec_ptr_payload(g)),
        Tag::SubrFn => ObjectType::SubrFn(spec_ptr_payload(g)),
        Tag::ByteFn => ObjectType::ByteFn(spec_ptr_payload(g)),
        Tag::Buffer => ObjectType::Buffer(spec_ptr_payload(g)),
    }
}

impl Gc {
    /// Make a handle from a raw word whose low byte is a valid tag.
    pub fn new(bits: u64) -> (r: Gc)
        requires
            bits & 0xff <= 11,
        ensures
            r.bits == bits,
            wf_handle(r),
    {
        Gc { bits }
    }

    /// The `nil` handle: the all-zero word, the symbol with index zero.
    pub fn nil() -> (r: Gc)
        ensures
            r.bits == 0,
            wf_handle(r),
            spec_untag(r) == ObjectType::Symbol(0),
    {
        proof {
            assert(0u64 & 0xff == 0 && 0u64 >> 8 == 0) by (bit_vector);
        }
        Gc { bits: 0 }
    }

    /// Tag an index-valued payload, building a handle from a reference to
    /// an object body.
    pub fn from_ptr(idx: u64, tag: Tag) -> (r: Gc)
        requires
            idx < 0x100_0000_0000_0000,
        ensures
            wf_handle(r),
            spec_tag_of(r) == tag,
            spec_ptr_payload(r) == idx,
    {
        tag_ptr(idx, tag)
    }

    /// Split a handle into its payload index and its tag.
    pub fn untag_ptr(self) -> (r: (u64, Tag))
        requires
            wf_handle(self),
        ensures
            r.0 == spec_ptr_payload(self),
            r.1 == spec_tag_of(self),
    {
        let tag = self.get_tag();
        (self.bits >> 8, tag)
    }

    /// Read the tag from the low byte.
    pub fn get_tag(self) -> (r: Tag)
        requires
            wf_handle(self),
        ensures
            r == spec_tag_of(self),
    {
        let code = self.bits & 0xff;
        let r = Tag::of_code(code);
        proof {
            let b = self.bits;
            assert(b & 0xff <= 11 ==> b & 0xff == (b & 0xff)) by (bit_vector);
        }
        r
    }

    /// The handle as an untyped word.
    pub fn into_raw(self) -> (r: RawObj)
        ensures
            r.bits == self.bits,
    {
        RawObj { bits: self.bits }
    }

    /// The raw word of the handle.
    pub fn into_ptr(self) -> (r: u64)
        ensures
            r == self.bits,
    {
        self.bits
    }

    /// Rebuild a handle from an untyped word.
    pub fn from_raw(raw: RawObj) -> (r: Gc)
        requires
            raw.bits & 0xff <= 11,
        ensures
            r.bits == raw.bits,
            wf_handle(r),
    {
        Gc { bits: raw.bits }
    }

    /// Identity: tag and address bits are compared as one word. This is
    /// Lisp `eq`.
    pub fn ptr_eq(self, other: Gc) -> (r: bool)
        ensures
            r == (self.bits == other.bits),
    {
        self.bits == other.bits
    }

    /// Whether this handle is the canonical `nil`.
    pub fn is_nil(self) -> (r: bool)
        ensures
            r == (self.bits == 0),
    {
        self.bits == 0
    }

    /// Untag into an exhaustively matchable variant.
    pub fn untag(self) -> (r: ObjectType)
        requires
            wf_handle(self),
        ensures
            r == spec_untag(self),
    {
        let (payload, tag) = self.untag_ptr();
        match tag {
            Tag::Symbol => ObjectType::Symbol(payload),
            Tag::Int => {
                let i = (self.bits as i64) >> 8;
                ObjectType::Int(i)
            },
            Tag::Float => ObjectType::Float(payload),
            Tag::Cons => ObjectType::Cons(payload),
            Tag::String => ObjectType::String(payload),
            Tag::ByteString => ObjectType::ByteString(payload),
            Tag::Vec => ObjectType::Vec(payload),
            Tag::Record => ObjectType::Record(payload),
            Tag::HashTable => ObjectType::HashTable(payload),
            Tag::SubrFn => ObjectType::SubrFn(payload),
            Tag::ByteFn => ObjectType::ByteFn(payload),
            Tag::Buffer => ObjectType::Buffer(payload),
        }
    }
}

/// A fixnum payload always lies within the fixnum range: it is a 64-bit
/// word shifted arithmetically right by eight.
pub proof fn lemma_payload_in_range(g: Gc)
    ensures
        MIN_FIXNUM <= spec_int_payload(g) <= MAX_FIXNUM,
{
    let b = g.bits;
    assert((i64::MIN >> 8) <= ((b as i64) >> 8) <= (i64::MAX >> 8)) by (bit_vector);
}

/// A pointer payload always fits back into the word.
pub proof fn lemma_ptr_payload_small(g: Gc)
    ensures
        spec_ptr_payload(g) < 0x100_0000_0000_0000,
{
    let b = g.bits;
    assert(b >> 8 < 0x100_0000_0000_0000u64) by (bit_vector);
}

impl ObjectType {
    /// Retag a variant into a handle. An integer saturates at the fixnum
    /// bounds; other variants must carry a payload that fits the word.
    pub fn tag(self) -> (r: Gc)
        requires
            match self {
                ObjectType::Int(_) => true,
                ObjectType::Symbol(p) => p < 0x100_0000_0000_0000,
                ObjectType::Float(p) => p < 0x100_0000_0000_0000,
                ObjectType::Cons(p) => p < 0x100_0000_0000_0000,
                ObjectType::String(p) => p < 0x100_0000_0000_0000,
                ObjectType::ByteString(p) => p < 0x100_0000_0000_0000,
                ObjectType::Vec(p) => p < 0x100_0000_0000_0000,
                ObjectType::Record(p) => p < 0x100_0000_0000_0000,
                ObjectType::HashTable(p) => p < 0x100_0000_0000_0000,
                ObjectType::SubrFn(p) => p < 0x100_0000_0000_0000,
                ObjectType::ByteFn(p) => p < 0x100_0000_0000_0000,
                ObjectType::Buffer(p) => p < 0x100_0000_0000_0000,
            },
        ensures
            wf_handle(r),
            spec_untag(r) == (match self {
                ObjectType::Int(i) => ObjectType::Int(spec_clamp(i)),
                _ => self,
            }),
    {
        match self {
            ObjectType::Int(i) => tag_int(i),
            ObjectType::Symbol(p) => tag_ptr(p, Tag::Symbol),
            ObjectType::Float(p) => tag_ptr(p, Tag::Float),
            ObjectType::Cons(p) => tag_ptr(p, Tag::Cons),
            ObjectType::String(p) => tag_ptr(p, Tag::String),
            ObjectType::ByteString(p) => tag_ptr(p, Tag::ByteString),
            ObjectType::Vec(p) => tag_ptr(p, Tag::Vec),
            ObjectType::Record(p) => tag_ptr(p, Tag::Record),
            ObjectType::HashTable(p) => tag_ptr(p, Tag::HashTable),
            ObjectType::SubrFn(p) => tag_ptr(p, Tag::SubrFn),
            ObjectType::ByteFn(p) => tag_ptr(p, Tag::ByteFn),
            ObjectType::Buffer(p) => tag_ptr(p, Tag::Buffer),
        }
    }
}

/// Untagging, retagging and untagging again changes nothing: one round of
/// untag after tag is already the identity on what a well-formed handle
/// denotes.
pub proof fn lemma_untag_tag_untag(h: Gc)
    requires
        wf_handle(h),
    ensures
        spec_untag(spec_retag(spec_untag(h))) == spec_untag(h),
{
    lemma_payload_in_range(h);
    lemma_ptr_payload_small(h);
    lemma_retag_untag(h);
}

/// What `tag` yields, at the spec level.
pub open spec fn spec_retag(o: ObjectType) -> Gc {
    match o {
        ObjectType::Int(i) => Gc { bits: ((spec_clamp(i) << 8) as u64) | 1u64 },
        ObjectType::Symbol(p) => Gc { bits: (p << 8) | 0u64 },
        ObjectType::Float(p) => Gc { bits: (p << 8) | 2u64 },
        ObjectType::Cons(p) => Gc { bits: (p << 8) | 3u64 },
        ObjectType::String(p) => Gc { bits: (p << 8) | 4u64 },
        ObjectType::ByteString(p) => Gc { bits: (p << 8) | 5u64 },
        ObjectType::Vec(p) => Gc { bits: (p << 8) | 6u64 },
        ObjectType::Record(p) => Gc { bits: (p << 8) | 7u64 },
        ObjectType::HashTable(p) => Gc { bits: (p << 8) | 8u64 },
        ObjectType::SubrFn(p) => Gc { bits: (p << 8) | 9u64 },
        ObjectType::ByteFn(p) => Gc { bits: (p << 8) | 10u64 },
        ObjectType::Buffer(p) => Gc { bits: (p << 8) | 11u64 },
    }
}

/// Retagging what a well-formed handle untags to rebuilds the same word.
pub proof fn lemma_retag_untag(h: Gc)
    requires
        wf_handle(h),
    ensures
        spec_retag(spec_untag(h)) == h,
{
    let b = h.bits;
    assert(b & 0xff <= 11 ==> ((b >> 8) << 8) | (b & 0xff) == b) by (bit_vector);
    assert(b & 0xff == 1 ==> (((((b as i64) >> 8) << 8) as u64) | 1u64) == b) by (bit_vector);
    assert((i64::MIN >> 8) <= ((b as i64) >> 8) <= (i64::MAX >> 8)) by (bit_vector);
}

/// The types a narrowing can expect, for error reports.
#[derive(Clone, Copy, PartialEq, Eq, Structural, Debug)]
pub enum Type {
    Int,
    Float,
    Symbol,
    Cons,
    Vec,
    Record,
    HashTable,
    String,
    Func,
    Buffer,
    Number,
    List,
    Char,
}

/// A handle was narrowed to an incompatible variant: carries the expected
/// type and the offending value.
#[derive(Clone, Copy, PartialEq, Eq, Structural, Debug)]
pub struct TypeError {
    pub expected: Type,
    pub value: Gc,
}

/// A number: an immediate fixnum or a heap float.
#[derive(Clone, Copy, PartialEq, Eq, Structural, Debug)]
pub enum NumberType {
    Int(i64),
    Float(u64),
}

/// A list: `nil` or a cons.
#[derive(Clone, Copy, PartialEq, Eq, Structural, Debug)]
pub enum ListType {
    Nil,
    Cons(u64),
}

/// A callable: bytecode, builtin, lambda list or symbol.
#[derive(Clone, Copy, PartialEq, Eq, Structural, Debug)]
pub enum FunctionType {
    ByteFn(u64),
    SubrFn(u64),
    Cons(u64),
    Symbol(u64),
}

impl Gc {
    /// Narrow to a number; `{Int, Float}` are accepted.
    pub fn try_as_number(self) -> (r: Result<NumberType, TypeError>)
        requires
            wf_handle(self),
        ensures
            match r {
                Ok(n) => match spec_untag(self) {
                    ObjectType::Int(i) => n == NumberType::Int(i),
                    ObjectType::Float(p) => n == NumberType::Float(p),
                    _ => false,
                },
                Err(e) => e == (TypeError { expected: Type::Number, value: self })
                    && !(spec_untag(self) is Int) && !(spec_untag(self) is Float),
            },
    {
        match self.untag() {
            ObjectType::Int(i) => Ok(NumberType::Int(i)),
            ObjectType::Float(p) => Ok(NumberType::Float(p)),
            _ => Err(TypeError { expected: Type::Number, value: self }),
        }
    }

    /// Narrow to a list; `nil` and conses are accepted.
    pub fn try_as_list(self) -> (r: Result<ListType, TypeError>)
        requires
            wf_handle(self),
        ensures
            match r {
                Ok(l) => match l {
                    ListType::Nil => self.bits == 0,
                    ListType::Cons(p) => spec_untag(self) == ObjectType::Cons(p),
                },
                Err(e) => e == (TypeError { expected: Type::List, value: self }) && self.bits != 0
                    && !(spec_untag(self) is Cons),
            },
    {
        if self.is_nil() {
            Ok(ListType::Nil)
        } else {
            match self.untag() {
                ObjectType::Cons(p) => Ok(ListType::Cons(p)),
                _ => Err(TypeError { expected: Type::List, value: self }),
            }
        }
    }

    /// Narrow to a callable; conses, symbols and both function bodies are
    /// accepted.
    pub fn try_as_function(self) -> (r: Result<FunctionType, TypeError>)
        requires
            wf_handle(self),
        ensures
            match r {
                Ok(f) => match f {
                    FunctionType::ByteFn(p) => spec_untag(self) == ObjectType::ByteFn(p),
                    FunctionType::SubrFn(p) => spec_untag(self) == ObjectType::SubrFn(p),
                    FunctionType::Cons(p) => spec_untag(self) == ObjectType::Cons(p),
                    FunctionType::Symbol(p) => spec_untag(self) == ObjectType::Symbol(p),
                },
                Err(e) => e == (TypeError { expected: Type::Func, value: self }) && !(spec_untag(
                    self,
                ) is ByteFn) && !(spec_untag(self) is SubrFn) && !(spec_untag(self) is Cons) && !(
                spec_untag(self) is Symbol),
            },
    {
        match self.untag() {
            ObjectType::ByteFn(p) => Ok(FunctionType::ByteFn(p)),
            ObjectType::SubrFn(p) => Ok(FunctionType::SubrFn(p)),
            ObjectType::Cons(p) => Ok(FunctionType::Cons(p)),
            ObjectType::Symbol(p) => Ok(FunctionType::Symbol(p)),
            _ => Err(TypeError { expected: Type::Func, value: self }),
        }
    }

    /// Narrow to a fixnum.
    pub fn try_as_int(self) -> (r: Result<i64, TypeError>)
        requires
            wf_handle(self),
        ensures
            match r {
                Ok(i) => spec_untag(self) == ObjectType::Int(i),
                Err(e) => e == (TypeError { expected: Type::Int, value: self }) && !(spec_untag(
                    self,
                ) is Int),
            },
    {
        match self.untag() {
            ObjectType::Int(i) => Ok(i),
            _ => Err(TypeError { expected: Type::Int, value: self }),
        }
    }

    /// Narrow to a cons body index.
    pub fn try_as_cons(self) -> (r: Result<u64, TypeError>)
        requires
            wf_handle(self),
        ensures
            match r {
                Ok(p) => spec_untag(self) == ObjectType::Cons(p),
                Err(e) => e == (TypeError { expected: Type::Cons, value: self }) && !(spec_untag(
                    self,
                ) is Cons),
            },
    {
        match self.untag() {
            ObjectType::Cons(p) => Ok(p),
            _ => Err(TypeError { expected: Type::Cons, value: self }),
        }
    }

    /// Narrow to a string body index.
    pub fn try_as_string(self) -> (r: Result<u64, TypeError>)
        requires
            wf_handle(self),
        ensures
            match r {
                Ok(p) => spec_untag(self) == ObjectType::String(p),
                Err(e) => e == (TypeError { expected: Type::String, value: self }) && !(spec_untag(
                    self,
                ) is String),
            },
    {
        match self.untag() {
            ObjectType::String(p) => Ok(p),
            _ => Err(TypeError { expected: Type::String, value: self }),
        }
    }

    /// Narrow to a vector body index.
    pub fn try_as_vec(self) -> (r: Result<u64, TypeError>)
        requires
            wf_handle(self),
        ensures
            match r {
                Ok(p) => spec_untag(self) == ObjectType::Vec(p),
                Err(e) => e == (TypeError { expected: Type::Vec, value: self }) && !(spec_untag(
                    self,
                ) is Vec),
            },
    {
        match self.untag() {
            ObjectType::Vec(p) => Ok(p),
            _ => Err(TypeError { expected: Type::Vec, value: self }),
        }
    }

    /// Narrow to a non-negative fixnum usable as an index: `Ok` exactly
    /// for fixnums in `[0, usize::MAX]`. A fixnum outside that range is a
    /// range error, any other value a type error expecting an integer.
    pub fn try_as_usize(self) -> (r: Result<usize, LispError>)
        requires
            wf_handle(self),
        ensures
            match r {
                Ok(i) => spec_untag(self) == ObjectType::Int(i as i64),
                Err(e) => match spec_untag(self) {
                    ObjectType::Int(i) => e == LispError::Range(self) && (i < 0 || i > usize::MAX),
                    _ => e == LispError::TypeErr(
                        TypeError { expected: Type::Int, value: self },
                    ),
                },
            },
    {
        match self.untag() {
            ObjectType::Int(i) => {
                if i >= 0 && (i as u64) <= (usize::MAX as u64) {
                    Ok(i as usize)
                } else {
                    Err(LispError::Range(self))
                }
            },
            _ => Err(LispError::TypeErr(TypeError { expected: Type::Int, value: self })),
        }
    }
}

/// The handle a boolean converts to: the symbol `t` for true, `nil` for
/// false.
pub fn from_bool(b: bool) -> (r: Gc)
    ensures
        wf_handle(r),
        b ==> spec_untag(r) == ObjectType::Symbol(1),
        !b ==> r.bits == 0,
{
    if b {
        tag_ptr(1, Tag::Symbol)
    } else {
        Gc::nil()
    }
}

/// The recoverable error taxonomy of the runtime.
#[derive(Clone, Copy, PartialEq, Eq, Structural, Debug)]
pub enum LispError {
    /// A handle was narrowed to an incompatible variant.
    TypeErr(TypeError),
    /// An index or integer conversion fell outside its range.
    Range(Gc),
    /// A mutation was attempted on a write-protected body.
    Constant(Gc),
    /// A symbol has no function binding.
    VoidFunction(u64),
    /// A symbol has no value binding.
    VoidVariable(u64),
}

impl LispError {
    /// Wrap a narrowing failure.
    pub fn from_type_error(e: TypeError) -> (r: LispError)
        ensures
            r == LispError::TypeErr(e),
    {
        LispError::TypeErr(e)
    }
}

/// Relies on `char::from_u32` of std: it returns the character with the
/// given code point exactly when the code point is a unicode scalar value,
/// that is, not a surrogate and at most `0x10FFFF`.
pub assume_specification[ char::from_u32 ](i: u32) -> (r: Option<char>)
    ensures
        r is Some <==> (i < 0xD800 || (0xE000 <= i && i <= 0x10FFFF)),
        r matches Some(c) ==> c as u32 == i,
;

/// Convert a fixnum to the character with that code point; out-of-range
/// and non-scalar values report a `Char` type error.
pub fn int_to_char(i: i64) -> (r: Result<char, TypeError>)
    ensures
        match r {
            Ok(c) => c as u32 == i,
            Err(e) => e.expected == Type::Char && (i < 0 || i > u32::MAX || (0xD800 <= i < 0xE000)
                || i > 0x10FFFF),
        },
{
    let err = TypeError { expected: Type::Char, value: tag_int(i) };
    if i >= 0 && i <= u32::MAX as i64 {
        match char::from_u32(i as u32) {
            Some(c) => Ok(c),
            None => Err(err),
        }
    } else {
        Err(err)
    }
}

} // verus!
