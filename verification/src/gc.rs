//! Tracing garbage collector: an explicit, stack-shaped root registry, a
//! mark phase that follows handles from the roots and from the permanent
//! symbols, and a sweep that frees every unmarked body.

use vstd::prelude::*;
use crate::arena::Block;
use crate::arena::Body;
use crate::arena::Slot;
use crate::arena::body_refs;
use crate::arena::heap_ok;
use crate::arena::body_ok;
use crate::arena::ref_ok;
use crate::arena::heap_tagged;
use crate::arena::slot_of;
use crate::arena::all_unmarked;
use crate::tagged::RawObj;
use crate::tagged::wf_handle;

verus! {

/// An interned symbol: a permanent name with a function slot. Symbols are
/// treated as roots and never reclaimed.
pub struct SymbolCell {
    pub name: Vec<u8>,
    pub func: Option<RawObj>,
}

/// The process-wide symbol table. Cell zero is `nil`, cell one is `t`.
pub struct SymbolTable {
    pub cells: Vec<SymbolCell>,
}

/// The explicit root registry: values pushed here are reachable for as
/// long as their slot is alive; slots are released in stack order.
pub struct RootSet {
    pub stack: Vec<RawObj>,
}

/// A rooted store: a cell that keeps one value registered while the GC
/// runs, mirroring a lexical binding. It shares its name with the tagged
/// handle: one is the word that moves, the other the cell that pins it.
pub struct Gc {
    pub obj: RawObj,
}

impl Gc {
    /// Root the given value.
    pub fn new(obj: RawObj) -> (r: Gc)
        ensures
            r.obj == obj,
    {
        Gc { obj }
    }

    /// Replace the rooted value.
    pub fn mutate(&mut self, obj: RawObj)
        ensures
            final(self).obj == obj,
    {
        self.obj = obj;
    }

    /// Store a new value in the cell.
    pub fn set(&mut self, obj: RawObj)
        ensures
            final(self).obj == obj,
    {
        self.obj = obj;
    }

    /// Read the rooted value back as a handle bound to the given context's
    /// validity scope.
    pub fn bind(&self, _cx: &Block) -> (r: crate::tagged::Gc)
        requires
            self.obj.bits & 0xff <= 11,
        ensures
            r.bits == self.obj.bits,
            wf_handle(r),
    {
        crate::tagged::Gc { bits: self.obj.bits }
    }

    /// Read the rooted value back.
    pub fn obj(&self) -> (r: RawObj)
        ensures
            r == self.obj,
    {
        self.obj
    }
}

impl RootSet {
    /// An empty registry.
    pub fn new() -> (r: RootSet)
        ensures
            r.stack@.len() == 0,
    {
        RootSet { stack: Vec::new() }
    }

    /// Register a value; it stays reachable until the slot is released.
    pub fn push(&mut self, h: crate::tagged::Gc) -> (i: usize)
        ensures
            final(self).stack@ == old(self).stack@.push(RawObj { bits: h.bits }),
            i == old(self).stack@.len(),
    {
        let i = self.stack.len();
        self.stack.push(RawObj { bits: h.bits });
        i
    }

    /// Release the most recent slot.
    pub fn pop(&mut self)
        requires
            old(self).stack@.len() > 0,
        ensures
            final(self).stack@ == old(self).stack@.drop_last(),
    {
        self.stack.pop();
    }

    /// Overwrite a live slot.
    pub fn set(&mut self, i: usize, h: crate::tagged::Gc)
        requires
            i < old(self).stack@.len(),
        ensures
            final(self).stack@ == old(self).stack@.update(i as int, RawObj { bits: h.bits }),
    {
        self.stack[i] = RawObj { bits: h.bits };
    }

    /// Read a live slot.
    pub fn get(&self, i: usize) -> (r: RawObj)
        requires
            i < self.stack@.len(),
        ensures
            r == self.stack@[i as int],
    {
        self.stack[i]
    }
}

/// Every root handle is valid for the given heap.
pub open spec fn roots_ok(rs: Seq<RawObj>, slots: Seq<Slot>, m: int) -> bool {
    forall|k: int| 0 <= k < rs.len() ==> ref_ok(slots, m, #[trigger] rs[k])
}

/// The handles held by the symbol table's function slots.
pub open spec fn sym_refs(st: SymbolTable) -> Seq<RawObj> {
    Seq::new(
        st.cells@.len(),
        |i: int|
            match st.cells@[i].func {
                Some(r) => r,
                None => RawObj { bits: 1 },
            },
    )
}

/// Every symbol's function handle is valid for the given heap.
pub open spec fn syms_ok(st: SymbolTable, slots: Seq<Slot>) -> bool {
    forall|k: int| 0 <= k < sym_refs(st).len() ==> ref_ok(
        slots,
        st.cells@.len() as int,
        #[trigger] sym_refs(st)[k],
    )
}

/// The body in slot `j` holds a heap handle to slot `i`.
pub open spec fn points_to(slots: Seq<Slot>, j: int, i: int) -> bool {
    &&& slots[j].body is Some
    &&& exists|k: int|
        0 <= k < body_refs(slots[j].body->Some_0).len() && heap_tagged(
            #[trigger] body_refs(slots[j].body->Some_0)[k],
        ) && slot_of(body_refs(slots[j].body->Some_0)[k]) == i
}

/// A body is reachable in at most `n` steps from the base handles: either
/// a base handle points straight at it, or a body reachable in fewer steps
/// holds a handle to it.
pub open spec fn reach_n(slots: Seq<Slot>, base: Seq<RawObj>, n: nat, i: int) -> bool
    decreases n,
{
    if n == 0 {
        exists|k: int|
            0 <= k < base.len() && heap_tagged(#[trigger] base[k]) && slot_of(base[k]) == i
    } else {
        reach_n(slots, base, (n - 1) as nat, i) || exists|j: int|
            0 <= j < slots.len() && reach_n(slots, base, (n - 1) as nat, j) && #[trigger] points_to(
                slots,
                j,
                i,
            )
    }
}

/// A body is reachable from the base handles.
pub open spec fn reach(slots: Seq<Slot>, base: Seq<RawObj>, i: int) -> bool {
    exists|n: nat| reach_n(slots, base, n, i)
}

/// Reachability takes a step through a stored handle.
proof fn lemma_reach_step(slots: Seq<Slot>, base: Seq<RawObj>, j: int, k: int)
    requires
        reach(slots, base, j),
        0 <= j < slots.len(),
        slots[j].body is Some,
        0 <= k < body_refs(slots[j].body->Some_0).len(),
        heap_tagged(body_refs(slots[j].body->Some_0)[k]),
    ensures
        reach(slots, base, slot_of(body_refs(slots[j].body->Some_0)[k])),
{
    let n = choose|n: nat| reach_n(slots, base, n, j);
    let i = slot_of(body_refs(slots[j].body->Some_0)[k]);
    assert(points_to(slots, j, i)) by {
        assert(0 <= k < body_refs(slots[j].body->Some_0).len() && heap_tagged(
            body_refs(slots[j].body->Some_0)[k],
        ) && slot_of(body_refs(slots[j].body->Some_0)[k]) == i);
    }
    let n1: nat = n + 1;
    assert(((n1 - 1) as nat) == n);
    assert(reach_n(slots, base, (n1 - 1) as nat, j));
    assert(reach_n(slots, base, n1, i)) by {
        assert(0 <= j < slots.len() && reach_n(slots, base, (n1 - 1) as nat, j) && points_to(
            slots,
            j,
            i,
        ));
    }
    assert(reach(slots, base, i));
}

/// In a heap where the marks cover every base target and are closed under
/// stored handles, the marks cover everything reachable.
proof fn lemma_reach_marked(slots0: Seq<Slot>, base: Seq<RawObj>, cur: Seq<Slot>, n: nat, i: int)
    requires
        reach_n(slots0, base, n, i),
        cur.len() == slots0.len(),
        forall|k: int|
            0 <= k < base.len() && heap_tagged(#[trigger] base[k]) && 0 <= slot_of(base[k])
                < cur.len() ==> cur[slot_of(base[k])].marked,
        forall|j: int, i2: int|
            0 <= j < cur.len() && (#[trigger] cur[j]).marked && #[trigger] points_to(slots0, j, i2)
                && 0 <= i2 < cur.len() ==> cur[i2].marked,
        0 <= i < cur.len(),
    ensures
        cur[i].marked,
    decreases n,
{
    if n == 0 {
    } else {
        if reach_n(slots0, base, (n - 1) as nat, i) {
            lemma_reach_marked(slots0, base, cur, (n - 1) as nat, i);
        } else {
            assert(exists|j: int|
                0 <= j < slots0.len() && reach_n(slots0, base, (n - 1) as nat, j)
                    && #[trigger] points_to(slots0, j, i));
            let j = choose|j: int|
                0 <= j < slots0.len() && reach_n(slots0, base, (n - 1) as nat, j)
                    && #[trigger] points_to(slots0, j, i);
            lemma_reach_marked(slots0, base, cur, (n - 1) as nat, j);
            assert(points_to(slots0, j, i));
        }
    }
}

/// The number of unmarked slots.
pub open spec fn cnt_unmarked(s: Seq<Slot>) -> nat
    decreases s.len(),
{
    if s.len() == 0 {
        0
    } else {
        cnt_unmarked(s.drop_last()) + (if s.last().marked {
            0nat
        } else {
            1nat
        })
    }
}

proof fn lemma_cnt_update_mark(s: Seq<Slot>, i: int, v: Slot)
    requires
        0 <= i < s.len(),
        !s[i].marked,
        v.marked,
    ensures
        cnt_unmarked(s.update(i, v)) == cnt_unmarked(s) - 1,
    decreases s.len(),
{
    if i == s.len() - 1 {
        assert(s.update(i, v).drop_last() =~= s.drop_last());
    } else {
        assert(s.update(i, v).drop_last() =~= s.drop_last().update(i, v));
        lemma_cnt_update_mark(s.drop_last(), i, v);
    }
}

/// Some entry of the work stack is a heap handle aimed at slot `t`.
pub open spec fn on_stack(s: Seq<RawObj>, t: int) -> bool {
    exists|q: int| 0 <= q < s.len() && heap_tagged(#[trigger] s[q]) && slot_of(s[q]) == t
}

/// Push the handles a body owns onto the work stack.
fn push_refs(stack: &mut Vec<RawObj>, b: &Body)
    ensures
        final(stack)@ == old(stack)@ + body_refs(*b),
{
    match b {
        Body::Cons { car, cdr, .. } => {
            stack.push(*car);
            stack.push(*cdr);
            proof {
                assert(final(stack)@ =~= old(stack)@ + body_refs(*b));
            }
        },
        Body::Vector { elems, .. } => {
            stack.extend_from_slice(elems.as_slice());
            proof {
                assert(final(stack)@ =~= old(stack)@ + body_refs(*b));
            }
        },
        Body::Record { elems, .. } => {
            stack.extend_from_slice(elems.as_slice());
            proof {
                assert(final(stack)@ =~= old(stack)@ + body_refs(*b));
            }
        },
        Body::HashTable { keys, vals, .. } => {
            stack.extend_from_slice(keys.as_slice());
            stack.extend_from_slice(vals.as_slice());
            proof {
                assert(final(stack)@ =~= old(stack)@ + body_refs(*b));
            }
        },
        Body::ByteFn { consts, .. } => {
            stack.extend_from_slice(consts.as_slice());
            proof {
                assert(final(stack)@ =~= old(stack)@ + body_refs(*b));
            }
        },
        _ => {
            proof {
                assert(old(stack)@ + body_refs(*b) =~= old(stack)@);
            }
        },
    }
}

/// Run one mark-sweep cycle: everything reachable from the root registry
/// or from a symbol's function slot keeps its body, everything else is
/// freed, and all mark bits are clear afterwards.
#[verifier::rlimit(100)]
pub fn collect(block: &mut Block, st: &SymbolTable, roots: &RootSet)
    requires
        heap_ok(old(block).slots@, st.cells@.len() as int),
        syms_ok(*st, old(block).slots@),
        roots_ok(roots.stack@, old(block).slots@, st.cells@.len() as int),
        all_unmarked(old(block).slots@),
    ensures
        final(block).slots@.len() == old(block).slots@.len(),
        final(block).konst == old(block).konst,
        all_unmarked(final(block).slots@),
        ({
            let base = roots.stack@ + sym_refs(*st);
            &&& forall|i: int|
                0 <= i < old(block).slots@.len() && reach(old(block).slots@, base, i)
                    ==> final(block).slots@[i].body == old(block).slots@[i].body
            &&& forall|i: int|
                0 <= i < old(block).slots@.len() && !reach(old(block).slots@, base, i)
                    ==> final(block).slots@[i].body is None
        }),
{
    let ghost slots0 = old(block).slots@;
    let ghost m = st.cells@.len() as int;
    let ghost base = roots.stack@ + sym_refs(*st);
    let total0 = block.slots.len();
    proof {
        assert(slots0.len() <= usize::MAX);
    }

    // seed the work stack with the registered roots and the symbols'
    // function slots
    let mut stack: Vec<RawObj> = Vec::new();
    stack.extend_from_slice(roots.stack.as_slice());
    let nsym = st.cells.len();
    proof {
        assert(base.len() == roots.stack@.len() + nsym);
        assert(stack@ =~= roots.stack@);
        assert forall|k: int| 0 <= k < stack@.len() implies ref_ok(slots0, m, #[trigger] stack@[k])
            && (heap_tagged(stack@[k]) ==> exists|p: int|
            0 <= p < base.len() && heap_tagged(#[trigger] base[p]) && slot_of(base[p]) == slot_of(
                stack@[k],
            )) by {
            assert(stack@[k] == roots.stack@[k]);
            assert(base[k] == roots.stack@[k]);
            if heap_tagged(stack@[k]) {
                assert(0 <= k < base.len() && heap_tagged(base[k]) && slot_of(base[k]) == slot_of(
                    stack@[k],
                ));
            }
        }
        assert forall|p: int|
            0 <= p < roots.stack@.len() && heap_tagged(#[trigger] base[p]) implies exists|k: int|
            0 <= k < stack@.len() && heap_tagged(#[trigger] stack@[k]) && slot_of(stack@[k])
                == slot_of(base[p]) by {
            assert(stack@[p] == base[p]);
            assert(0 <= p < stack@.len() && heap_tagged(stack@[p]) && slot_of(stack@[p]) == slot_of(
                base[p],
            ));
        }
    }
    let mut si: usize = 0;
    while si < nsym
        invariant
            nsym == st.cells@.len(),
            m == st.cells@.len() as int,
            0 <= si <= nsym,
            base.len() == roots.stack@.len() + nsym,
            base == roots.stack@ + sym_refs(*st),
            stack@.len() >= roots.stack@.len(),
            forall|k: int|
                0 <= k < stack@.len() ==> ref_ok(slots0, m, #[trigger] stack@[k]) && (heap_tagged(
                    stack@[k],
                ) ==> exists|p: int|
                    0 <= p < base.len() && heap_tagged(#[trigger] base[p]) && slot_of(base[p])
                        == slot_of(stack@[k])),
            forall|p: int|
                0 <= p < roots.stack@.len() + si && heap_tagged(#[trigger] base[p]) ==> exists|
                    k: int,
                |
                    0 <= k < stack@.len() && heap_tagged(#[trigger] stack@[k]) && slot_of(stack@[k])
                        == slot_of(base[p]),
            roots_ok(roots.stack@, slots0, m),
            syms_ok(*st, slots0),
        decreases nsym - si,
    {
        let ghost prestack = stack@;
        match &st.cells[si].func {
            Some(r) => {
                proof {
                    assert(syms_ok(*st, slots0));
                    assert(sym_refs(*st).len() == st.cells@.len());
                    assert(0 <= si < sym_refs(*st).len());
                    assert(st.cells@[si as int].func == Some(*r));
                    assert(sym_refs(*st)[si as int] == *r);
                    assert(m == st.cells@.len() as int);
                    assert(ref_ok(slots0, st.cells@.len() as int, sym_refs(*st)[si as int]));
                    assert(ref_ok(slots0, m, sym_refs(*st)[si as int]));
                    assert(base[roots.stack@.len() + si] == *r);
                }
                stack.push(*r);
                proof {
                    let pnew = roots.stack@.len() + si;
                    assert forall|p: int|
                        0 <= p < roots.stack@.len() + si + 1 && heap_tagged(
                            #[trigger] base[p],
                        ) implies exists|k: int|
                        0 <= k < stack@.len() && heap_tagged(#[trigger] stack@[k]) && slot_of(
                            stack@[k],
                        ) == slot_of(base[p]) by {
                        if p == pnew {
                            assert(stack@[stack@.len() - 1] == base[p]);
                            assert(0 <= stack@.len() - 1 < stack@.len() && heap_tagged(
                                stack@[stack@.len() - 1],
                            ) && slot_of(stack@[stack@.len() - 1]) == slot_of(base[p]));
                        } else {
                            let k0 = choose|k: int|
                                0 <= k < prestack.len() && heap_tagged(#[trigger] prestack[k])
                                    && slot_of(prestack[k]) == slot_of(base[p]);
                            assert(stack@[k0] == prestack[k0]);
                        }
                    }
                }
            },
            None => {
                proof {
                    let pnew = roots.stack@.len() + si;
                    assert(sym_refs(*st)[si as int] == (RawObj { bits: 1 }));
                    assert(base[pnew] == (RawObj { bits: 1 }));
                    assert(1u64 & 0xff == 1) by (bit_vector);
                    assert(!heap_tagged(base[pnew]));
                }
            },
        }
        si = si + 1;
    }
    proof {
        // the seeded targets are reachable in zero steps
        assert forall|k: int|
            0 <= k < stack@.len() && heap_tagged(#[trigger] stack@[k]) implies reach(
            slots0,
            base,
            slot_of(stack@[k]),
        ) by {
            let p = choose|p: int|
                0 <= p < base.len() && heap_tagged(#[trigger] base[p]) && slot_of(base[p])
                    == slot_of(stack@[k]);
            assert(reach_n(slots0, base, 0, slot_of(stack@[k])));
        }
    }

    // mark: drain the stack, marking each heap body it reaches and
    // pushing the handles that body owns
    while stack.len() > 0
        invariant
            block.slots@.len() == slots0.len(),
            slots0.len() <= usize::MAX,
            m == st.cells@.len() as int,
            block.konst == old(block).konst,
            forall|i: int| 0 <= i < slots0.len() ==> (#[trigger] block.slots@[i]).body
                == slots0[i].body,
            heap_ok(slots0, m),
            // the stack holds valid handles whose targets are reachable
            forall|k: int|
                0 <= k < stack@.len() ==> ref_ok(slots0, m, #[trigger] stack@[k]) && (heap_tagged(
                    stack@[k],
                ) ==> reach(slots0, base, slot_of(stack@[k]))),
            // marked slots are reachable
            forall|i: int|
                0 <= i < slots0.len() && (#[trigger] block.slots@[i]).marked ==> reach(
                    slots0,
                    base,
                    i,
                ),
            // every base target is marked or still on the stack
            forall|p: int|
                0 <= p < base.len() && heap_tagged(#[trigger] base[p]) ==> block.slots@[slot_of(
                    base[p],
                )].marked || on_stack(stack@, slot_of(base[p])),
            // every slot a marked body points at is marked or on the stack
            forall|j: int, i2: int|
                0 <= j < slots0.len() && (#[trigger] block.slots@[j]).marked && #[trigger] points_to(
                    slots0,
                    j,
                    i2,
                ) && 0 <= i2 < slots0.len() ==> block.slots@[i2].marked || on_stack(stack@, i2),
            base == roots.stack@ + sym_refs(*st),
            ref_ok_base(slots0, m, base),
        decreases cnt_unmarked(block.slots@), stack@.len(),
    {
        let ghost prestack = stack@;
        let ghost preslots = block.slots@;
        let r = stack.pop().unwrap();
        proof {
            assert(stack@ =~= prestack.drop_last());
            assert(r == prestack[prestack.len() - 1]);
            assert(ref_ok(slots0, m, prestack[prestack.len() - 1]));
            assert(heap_tagged(prestack[prestack.len() - 1]) ==> reach(
                slots0,
                base,
                slot_of(prestack[prestack.len() - 1]),
            ));
        }
        let c = r.bits & 0xff;
        let heap = (2 <= c && c <= 8) || c == 10 || c == 11;
        let ghost mut pushed: Seq<RawObj> = Seq::empty();
        if heap {
            proof {
                assert(heap_tagged(r));
                assert(slot_of(r) < slots0.len());
            }
            let i = (r.bits >> 8) as usize;
            proof {
                assert(i as int == slot_of(r));
            }
            let already = block.slots[i].marked;
            if !already {
                let sl = &mut block.slots[i];
                sl.marked = true;
                proof {
                    lemma_cnt_update_mark(preslots, i as int, *sl);
                }
                proof {
                    assert(block.slots@[i as int].body == slots0[i as int].body);
                    assert(slots0[i as int].body is Some);
                }
                match &block.slots[i].body {
                    Some(b) => {
                        let ghost prepush = stack@;
                        push_refs(&mut stack, b);
                        proof {
                            pushed = body_refs(*b);
                            assert(slots0[i as int].body == Some(*b));
                            assert(body_ok(slots0, m, *b));
                            assert forall|k: int| 0 <= k < stack@.len() implies ref_ok(
                                slots0,
                                m,
                                #[trigger] stack@[k],
                            ) && (heap_tagged(stack@[k]) ==> reach(
                                slots0,
                                base,
                                slot_of(stack@[k]),
                            )) by {
                                if k < prepush.len() {
                                    assert(stack@[k] == prepush[k]);
                                } else {
                                    let kk = k - prepush.len();
                                    assert(stack@[k] == body_refs(*b)[kk]);
                                    if heap_tagged(stack@[k]) {
                                        lemma_reach_step(slots0, base, i as int, kk);
                                    }
                                }
                            }
                        }
                    },
                    None => {
                        proof {
                            assert(false);
                        }
                    },
                }
            }
        }
        proof {
            // every prior witness survives the pop: either it sat below the
            // popped entry, or the popped entry's own target is marked now
            let iw = slot_of(r);
            assert forall|t: int|
                on_stack(prestack, t) && 0 <= t < slots0.len() implies on_stack(stack@, t)
                    || block.slots@[t].marked by {
                let q = choose|q: int|
                    0 <= q < prestack.len() && heap_tagged(#[trigger] prestack[q]) && slot_of(
                        prestack[q],
                    ) == t;
                if q < prestack.len() - 1 {
                    assert(stack@[q] == prestack[q]);
                    assert(on_stack(stack@, t));
                } else {
                    assert(heap_tagged(r) && t == iw);
                    assert(block.slots@[iw].marked);
                }
            }
            // marks only grow
            assert(forall|x: int|
                0 <= x < slots0.len() && (#[trigger] preslots[x]).marked
                    ==> block.slots@[x].marked);
            // a freshly marked body's targets are all among the pushed handles
            assert forall|j: int, i2: int|
                0 <= j < slots0.len() && (#[trigger] block.slots@[j]).marked && #[trigger] points_to(
                    slots0,
                    j,
                    i2,
                ) && 0 <= i2 < slots0.len() implies block.slots@[i2].marked || on_stack(
                stack@,
                i2,
            ) by {
                if preslots[j].marked {
                    if preslots[i2].marked {
                    } else {
                        assert(on_stack(prestack, i2));
                    }
                } else {
                    // j was marked this round: j == slot_of(r) and its body's
                    // handles were pushed
                    assert(j == iw);
                    let kk = choose|kk: int|
                        0 <= kk < body_refs(slots0[j].body->Some_0).len() && heap_tagged(
                            #[trigger] body_refs(slots0[j].body->Some_0)[kk],
                        ) && slot_of(body_refs(slots0[j].body->Some_0)[kk]) == i2;
                    assert(stack@[stack@.len() - pushed.len() + kk] == pushed[kk]);
                    assert(on_stack(stack@, i2));
                }
            }
        }
    }

    // the marks now cover the base targets and are closed under stored
    // handles, so they cover exactly the reachable bodies
    let ghost marked_seq = block.slots@;
    proof {
        assert forall|i: int|
            0 <= i < slots0.len() && reach(slots0, base, i) implies marked_seq[i].marked by {
            let n = choose|n: nat| reach_n(slots0, base, n, i);
            lemma_reach_marked(slots0, base, marked_seq, n, i);
        }
    }

    // sweep: free unmarked bodies, clear surviving marks
    let total = block.slots.len();
    let mut i: usize = 0;
    while i < total
        invariant
            total == block.slots@.len(),
            block.slots@.len() == slots0.len(),
            block.konst == old(block).konst,
            0 <= i <= total,
            forall|j: int|
                i <= j < slots0.len() ==> (#[trigger] block.slots@[j]) == marked_seq[j],
            forall|j: int| 0 <= j < slots0.len() ==> (#[trigger] marked_seq[j]).body
                == slots0[j].body,
            forall|j: int|
                0 <= j < i ==> !(#[trigger] block.slots@[j]).marked && (if marked_seq[j].marked {
                    block.slots@[j].body == slots0[j].body
                } else {
                    block.slots@[j].body is None
                }),
        decreases total - i,
    {
        let sl = &mut block.slots[i];
        if !sl.marked {
            sl.body = None;
        } else {
            sl.marked = false;
        }
        i = i + 1;
    }
    proof {
        assert forall|i2: int|
            0 <= i2 < slots0.len() && reach(slots0, base, i2) implies block.slots@[i2].body
            == slots0[i2].body by {
            assert(marked_seq[i2].marked);
        }
        assert forall|i2: int|
            0 <= i2 < slots0.len() && !reach(slots0, base, i2) implies block.slots@[i2].body
            is None by {
            assert(!marked_seq[i2].marked);
        }
    }
}

/// Every base handle is valid for the heap.
pub open spec fn ref_ok_base(slots: Seq<Slot>, m: int, base: Seq<RawObj>) -> bool {
    forall|k: int| 0 <= k < base.len() ==> ref_ok(slots, m, #[trigger] base[k])
}

} // verus!
