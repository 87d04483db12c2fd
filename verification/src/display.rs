//! Printing and structural equality. Both walk the object graph, which
//! may be cyclic: the printer keeps a first-visit list and emits a `#N`
//! back-reference when it meets an object again; equality keeps a set of
//! visited pairs and treats a revisited pair as equal.

use vstd::prelude::*;
use crate::arena::Block;
use crate::arena::Body;
use crate::gc::SymbolTable;
use crate::gc::SymbolCell;
use crate::tagged::Gc;
use crate::tagged::ObjectType;
use crate::tagged::RawObj;
use crate::tagged::wf_handle;

verus! {

/// Relies on `String::push` of std: it appends the given character to
/// the end of the string.
pub assume_specification[ std::string::String::push ](s: &mut std::string::String, ch: char)
    ensures
        final(s)@ == old(s)@.push(ch),
;

/// The decimal digits of a non-negative integer, most significant first.
pub open spec fn dec_spec(n: int) -> Seq<char>
    decreases n,
{
    if n <= 0 {
        seq!['0']
    } else if n < 10 {
        seq![digit_char(n)]
    } else {
        dec_spec(n / 10).push(digit_char(n % 10))
    }
}

/// The character of one decimal digit.
pub open spec fn digit_char(d: int) -> char {
    ((48 + d) as u8) as char
}

/// Format a machine word in decimal.
pub fn u64_to_string(n: u64) -> (r: String)
    ensures
        r@ == dec_spec(n as int),
{
    if n == 0 {
        let mut s = String::new();
        s.push('0');
        proof {
            assert(s@ =~= dec_spec(0));
        }
        return s;
    }
    let mut digits: Vec<char> = Vec::new();
    let mut m = n;
    while m > 0
        invariant
            0 <= m <= n,
            n > 0,
            m > 0 ==> dec_spec(n as int) == dec_spec(m as int) + digits@,
            m == 0 ==> digits@.len() > 0 && dec_spec(n as int) == digits@,
        decreases m,
    {
        let d = (m % 10) as u8;
        let c = (48 + d) as char;
        proof {
            assert(c == digit_char((m % 10) as int));
            if m >= 10 {
                assert(dec_spec(m as int) == dec_spec(m as int / 10).push(
                    digit_char(m as int % 10),
                ));
                assert(dec_spec(m as int).drop_last() =~= dec_spec(m as int / 10));
                assert(dec_spec(m as int / 10) + (seq![c] + digits@) =~= (dec_spec(m as int / 10)
                    + seq![c]) + digits@);
                assert(dec_spec(m as int / 10) + seq![c] =~= dec_spec(m as int));
            } else {
                assert(dec_spec(m as int) =~= seq![c]);
                assert(seq![c] + digits@ =~= dec_spec(m as int) + digits@);
            }
        }
        let mut d2: Vec<char> = Vec::new();
        d2.push(c);
        let mut rest = digits;
        d2.append(&mut rest);
        digits = d2;
        m = m / 10;
    }
    let mut s = String::new();
    let n2 = digits.len();
    let mut i: usize = 0;
    while i < n2
        invariant
            n2 == digits@.len(),
            0 <= i <= n2,
            s@ == digits@.take(i as int),
        decreases n2 - i,
    {
        s.push(digits[i]);
        proof {
            assert(s@ =~= digits@.take(i as int + 1));
        }
        i = i + 1;
    }
    proof {
        assert(digits@.take(n2 as int) =~= digits@);
    }
    s
}

/// The decimal text of a signed integer.
pub open spec fn int_dec_spec(n: int) -> Seq<char> {
    if n < 0 {
        seq!['-'] + dec_spec(-n)
    } else {
        dec_spec(n)
    }
}

/// Format a fixnum in decimal, with a leading minus sign when negative.
pub fn i64_to_string(n: i64) -> (r: String)
    ensures
        r@ == int_dec_spec(n as int),
{
    if n >= 0 {
        let r = u64_to_string(n as u64);
        r
    } else {
        let mut s = String::new();
        s.push('-');
        let mag = if n == i64::MIN {
            9223372036854775808u64
        } else {
            (-n) as u64
        };
        let tail = u64_to_string(mag);
        s.append(tail.as_str());
        proof {
            assert(s@ =~= seq!['-'] + dec_spec(mag as int));
        }
        s
    }
}

/// The two words compared as points on the integer number line that IEEE
/// doubles embed into: negative floats are reflected so that the line is
/// ordered, and the images must lie within two steps of one another. This
/// is approximate float equality with a two ULP tolerance, computed
/// exactly on the bit images.
pub open spec fn ulps_eq_spec(a: u64, b: u64) -> bool {
    let ai = ulp_image(a);
    let bi = ulp_image(b);
    -2 <= ai - bi <= 2
}

/// The position of a float's bit image on the ordered line.
pub open spec fn ulp_image(a: u64) -> int {
    if (a as i64) < 0 {
        i64::MIN - (a as i64)
    } else {
        a as i64 as int
    }
}

/// Whether two float bit images are equal to within two units in the last
/// place.
pub fn eq_ulps(a: u64, b: u64) -> (r: bool)
    ensures
        r == ulps_eq_spec(a, b),
{
    let ai = a as i64;
    let bi = b as i64;
    let au: i128 = if ai < 0 {
        (i64::MIN as i128) - (ai as i128)
    } else {
        ai as i128
    };
    let bu: i128 = if bi < 0 {
        (i64::MIN as i128) - (bi as i128)
    } else {
        bi as i128
    };
    let d = au - bu;
    -2 <= d && d <= 2
}

/// The characters that a byte string prints as.
pub open spec fn bytes_chars(s: Seq<u8>) -> Seq<char> {
    s.map_values(|b: u8| b as char)
}

/// Append a byte string to the output as characters.
fn push_bytes(out: &mut String, bytes: &Vec<u8>)
    ensures
        final(out)@ == old(out)@ + bytes_chars(bytes@),
{
    let n = bytes.len();
    let mut i: usize = 0;
    proof {
        assert(out@ =~= old(out)@ + bytes_chars(bytes@.take(0)));
    }
    while i < n
        invariant
            n == bytes@.len(),
            0 <= i <= n,
            out@ == old(out)@ + bytes_chars(bytes@.take(i as int)),
        decreases n - i,
    {
        out.push(bytes[i] as char);
        proof {
            assert(out@ =~= old(out)@ + bytes_chars(bytes@.take(i as int + 1)));
        }
        i = i + 1;
    }
    proof {
        assert(bytes@.take(n as int) =~= bytes@);
    }
}

/// Position of a slot index in the first-visit list, if present.
fn seen_at(seen: &Vec<u64>, idx: u64) -> (r: Option<usize>)
    ensures
        match r {
            Some(p) => find_first(seen@, idx) == Some(p as int),
            None => find_first(seen@, idx) is None,
        },
{
    proof {
        lemma_find_first(seen@, idx);
    }
    let n = seen.len();
    let mut i: usize = 0;
    while i < n
        invariant
            n == seen@.len(),
            0 <= i <= n,
            forall|k: int| 0 <= k < i ==> seen@[k] != idx,
        decreases n - i,
    {
        if seen[i] == idx {
            proof {
                lemma_find_first(seen@, idx);
                assert(seen@[i as int] == idx);
            }
            return Some(i);
        }
        i = i + 1;
    }
    proof {
        lemma_find_first(seen@, idx);
    }
    None
}

/// The first position of `x` in the list, if present.
pub open spec fn find_first(s: Seq<u64>, x: u64) -> Option<int>
    decreases s.len(),
{
    if s.len() == 0 {
        None
    } else if s[0] == x {
        Some(0)
    } else {
        match find_first(s.drop_first(), x) {
            Some(k) => Some(k + 1),
            None => None,
        }
    }
}

proof fn lemma_find_first(s: Seq<u64>, x: u64)
    ensures
        match find_first(s, x) {
            Some(k) => 0 <= k < s.len() && s[k] == x && forall|j: int| 0 <= j < k ==> s[j] != x,
            None => forall|j: int| 0 <= j < s.len() ==> s[j] != x,
        },
    decreases s.len(),
{
    if s.len() > 0 && s[0] != x {
        let d = s.drop_first();
        lemma_find_first(d, x);
        assert(forall|j: int| 0 <= j < d.len() ==> d[j] == s[j + 1]);
        match find_first(d, x) {
            Some(k) => {
                assert(s[k + 1] == d[k]);
                assert forall|j: int| 0 <= j < k + 1 implies s[j] != x by {
                    if j >= 1 {
                        assert(d[j - 1] == s[j]);
                    }
                }
            },
            None => {
                assert forall|j: int| 0 <= j < s.len() implies s[j] != x by {
                    if j >= 1 {
                        assert(d[j - 1] == s[j]);
                    }
                }
            },
        }
    }
}

/// The text a symbol handle prints as: its name, or a bare `#` for an
/// index outside the table.
pub open spec fn sym_text(cells: Seq<SymbolCell>, s: u64) -> Seq<char> {
    if s < cells.len() {
        bytes_chars(cells[s as int].name@)
    } else {
        seq!['#']
    }
}

/// The text between the quotes of a string handle: the bytes of its
/// body, or nothing when the slot holds no string body.
pub open spec fn string_text(slots: Seq<crate::arena::Slot>, p: u64) -> Seq<char> {
    if p < slots.len() {
        match slots[p as int].body {
            Some(Body::Str { text }) => bytes_chars(text@),
            _ => Seq::empty(),
        }
    } else {
        Seq::empty()
    }
}

/// The text between the quotes of a byte-string handle.
pub open spec fn bytestring_text(slots: Seq<crate::arena::Slot>, p: u64) -> Seq<char> {
    if p < slots.len() {
        match slots[p as int].body {
            Some(Body::ByteStr { data }) => bytes_chars(data@),
            _ => Seq::empty(),
        }
    } else {
        Seq::empty()
    }
}

/// What the printer emits for a value, and the first-visit list it leaves
/// behind. A fixnum prints in decimal, a symbol as its name, a string
/// quoted; a cons prints as `(car)` or `(car . cdr)` and a vector as its
/// bracketed elements; a cons or vector met a second time prints as `#N`,
/// `N` its position in first-visit order, so cyclic structures print
/// finitely. A malformed handle prints as `?` and the other heap bodies
/// as two-character markers.
pub open spec fn disp_walk_spec(
    slots: Seq<crate::arena::Slot>,
    cells: Seq<SymbolCell>,
    h: Gc,
    seen: Seq<u64>,
    fuel: nat,
) -> (Seq<char>, Seq<u64>)
    decreases fuel, 1nat, 0nat,
{
    let u = crate::tagged::spec_untag(h);
    if fuel == 0 {
        match u {
            ObjectType::Int(i) => (int_dec_spec(i as int), seen),
            ObjectType::Symbol(s) => (sym_text(cells, s), seen),
            _ => (seq!['?'], seen),
        }
    } else {
        match u {
            ObjectType::Int(i) => (int_dec_spec(i as int), seen),
            ObjectType::Symbol(s) => (sym_text(cells, s), seen),
            ObjectType::Float(_) => (seq!['#', 'f'], seen),
            ObjectType::String(p) => (seq!['"'] + string_text(slots, p) + seq!['"'], seen),
            ObjectType::ByteString(p) => (
                seq!['"'] + bytestring_text(slots, p) + seq!['"'],
                seen,
            ),
            ObjectType::Cons(p) => {
                match find_first(seen, p) {
                    Some(n) => (seq!['#'] + dec_spec(n), seen),
                    None => {
                        let seen1 = seen.push(p);
                        if p < slots.len() {
                            let fields = match slots[p as int].body {
                                Some(Body::Cons { car, cdr, .. }) => (car, cdr),
                                _ => (RawObj { bits: 0 }, RawObj { bits: 0 }),
                            };
                            let car = fields.0;
                            let cdr = fields.1;
                            let carpart = if car.bits & 0xff <= 11 {
                                disp_walk_spec(
                                    slots,
                                    cells,
                                    Gc { bits: car.bits },
                                    seen1,
                                    (fuel - 1) as nat,
                                )
                            } else {
                                (seq!['?'], seen1)
                            };
                            let cdrpart = if cdr.bits != 0 {
                                if cdr.bits & 0xff <= 11 {
                                    let t = disp_walk_spec(
                                        slots,
                                        cells,
                                        Gc { bits: cdr.bits },
                                        carpart.1,
                                        (fuel - 1) as nat,
                                    );
                                    (seq![' ', '.', ' '] + t.0, t.1)
                                } else {
                                    (seq![' ', '.', ' ', '?'], carpart.1)
                                }
                            } else {
                                (Seq::<char>::empty(), carpart.1)
                            };
                            (seq!['('] + carpart.0 + cdrpart.0 + seq![')'], cdrpart.1)
                        } else {
                            (seq!['(', ')'], seen1)
                        }
                    },
                }
            },
            ObjectType::Vec(p) => {
                match find_first(seen, p) {
                    Some(n) => (seq!['#'] + dec_spec(n), seen),
                    None => {
                        let seen1 = seen.push(p);
                        if p < slots.len() {
                            let elems = match slots[p as int].body {
                                Some(Body::Vector { elems, .. }) => elems@,
                                _ => Seq::<RawObj>::empty(),
                            };
                            let inner = disp_elems_spec(slots, cells, elems, 0, seen1, fuel);
                            (seq!['['] + inner.0 + seq![']'], inner.1)
                        } else {
                            (seq!['[', ']'], seen1)
                        }
                    },
                }
            },
            ObjectType::Record(_) => (seq!['#', 'r'], seen),
            ObjectType::HashTable(_) => (seq!['#', 'h'], seen),
            ObjectType::SubrFn(_) => (seq!['#', 's'], seen),
            ObjectType::ByteFn(_) => (seq!['#', 'b'], seen),
            ObjectType::Buffer(_) => (seq!['#', 'u'], seen),
        }
    }
}

/// What the printer emits for a vector's elements from index `i` on,
/// space-separated, threading the first-visit list left to right.
pub open spec fn disp_elems_spec(
    slots: Seq<crate::arena::Slot>,
    cells: Seq<SymbolCell>,
    elems: Seq<RawObj>,
    i: int,
    seen: Seq<u64>,
    fuel: nat,
) -> (Seq<char>, Seq<u64>)
    decreases fuel, 0nat, elems.len() - i,
{
    if i < 0 || i >= elems.len() || fuel == 0 {
        (Seq::<char>::empty(), seen)
    } else {
        let sep: Seq<char> = if i > 0 {
            seq![' ']
        } else {
            Seq::empty()
        };
        let e = elems[i];
        let head = if e.bits & 0xff <= 11 {
            disp_walk_spec(slots, cells, Gc { bits: e.bits }, seen, (fuel - 1) as nat)
        } else {
            (seq!['?'], seen)
        };
        let rest = disp_elems_spec(slots, cells, elems, i + 1, head.1, fuel);
        (sep + head.0 + rest.0, rest.1)
    }
}

/// The printer's work budget: one more than the slot count bounds the
/// depth of any visit, since every cons or vector on a descent path
/// enters the first-visit list before its parts are printed.
pub open spec fn disp_fuel(n: int) -> nat {
    if n < usize::MAX {
        (n + 1) as nat
    } else {
        n as nat
    }
}

/// What `display` prints for a value: the walk from an empty first-visit
/// list with the standard budget.
pub open spec fn disp_spec(slots: Seq<crate::arena::Slot>, cells: Seq<SymbolCell>, h: Gc) -> Seq<
    char,
> {
    disp_walk_spec(slots, cells, h, Seq::empty(), disp_fuel(slots.len() as int)).0
}

/// Render a value, following the handles stored in the given block.
/// A cons or vector met a second time prints as `#N`, where `N` is its
/// position in first-visit order, so cyclic structures print finitely.
pub fn display(block: &Block, st: &SymbolTable, h: Gc) -> (r: String)
    requires
        wf_handle(h),
    ensures
        r@ == disp_spec(block.slots@, st.cells@, h),
{
    let mut out = String::new();
    let mut seen: Vec<u64> = Vec::new();
    let n = block.slots.len();
    let fuel = if n < usize::MAX {
        n + 1
    } else {
        n
    };
    proof {
        assert(seen@ =~= Seq::<u64>::empty());
        assert(fuel as nat == disp_fuel(block.slots@.len() as int));
    }
    display_walk(block, st, h, &mut seen, &mut out, fuel);
    out
}

/// Whether a handle is a fixnum.
pub open spec fn spec_untag_is_int(h: Gc) -> bool {
    crate::tagged::spec_untag(h) is Int
}

/// The fixnum a handle carries.
pub open spec fn spec_int_of(h: Gc) -> int {
    crate::tagged::spec_int_payload(h) as int
}

#[verifier::rlimit(100)]
fn display_walk(
    block: &Block,
    st: &SymbolTable,
    h: Gc,
    seen: &mut Vec<u64>,
    out: &mut String,
    fuel: usize,
) -> (ok: bool)
    requires
        wf_handle(h),
    ensures
        ({
            let s = disp_walk_spec(block.slots@, st.cells@, h, old(seen)@, fuel as nat);
            final(out)@ == old(out)@ + s.0 && final(seen)@ == s.1
        }),
    decreases fuel,
{
    let ghost base = out@;
    let ghost sspec = disp_walk_spec(block.slots@, st.cells@, h, seen@, fuel as nat);
    if fuel == 0 {
        // graceful cut-off; unreachable for any heap, whose depth the
        // first-visit list bounds
        match h.untag() {
            ObjectType::Int(i) => {
                let t = i64_to_string(i);
                out.append(t.as_str());
                return true;
            },
            ObjectType::Symbol(s) => {
                if s < st.cells.len() as u64 {
                    let nlen = st.cells.len();
                    push_bytes(out, &st.cells[s as usize].name);
                } else {
                    out.push('#');
                    proof {
                        assert(out@ =~= base + seq!['#']);
                    }
                }
                return true;
            },
            _ => {
                out.push('?');
                proof {
                    assert(out@ =~= base + seq!['?']);
                }
                return false;
            },
        }
    }
    match h.untag() {
        ObjectType::Int(i) => {
            let t = i64_to_string(i);
            out.append(t.as_str());
            true
        },
        ObjectType::Symbol(s) => {
            if s < st.cells.len() as u64 {
                let nlen = st.cells.len();
                push_bytes(out, &st.cells[s as usize].name);
            } else {
                out.push('#');
                proof {
                    assert(out@ =~= base + seq!['#']);
                }
            }
            true
        },
        ObjectType::Float(_) => {
            out.push('#');
            out.push('f');
            proof {
                assert(out@ =~= base + seq!['#', 'f']);
            }
            true
        },
        ObjectType::String(p) => {
            out.push('"');
            if p < block.slots.len() as u64 {
                let blen = block.slots.len();
                match &block.slots[p as usize].body {
                    Some(Body::Str { text }) => {
                        push_bytes(out, text);
                    },
                    _ => {},
                }
            }
            out.push('"');
            proof {
                assert(out@ =~= base + (seq!['"'] + string_text(block.slots@, p) + seq!['"']));
            }
            true
        },
        ObjectType::ByteString(p) => {
            out.push('"');
            if p < block.slots.len() as u64 {
                let blen = block.slots.len();
                match &block.slots[p as usize].body {
                    Some(Body::ByteStr { data }) => {
                        push_bytes(out, data);
                    },
                    _ => {},
                }
            }
            out.push('"');
            proof {
                assert(out@ =~= base + (seq!['"'] + bytestring_text(block.slots@, p) + seq!['"']));
            }
            true
        },
        ObjectType::Cons(p) => {
            match seen_at(seen, p) {
                Some(n) => {
                    out.push('#');
                    let t = u64_to_string(n as u64);
                    out.append(t.as_str());
                    proof {
                        assert(out@ =~= base + (seq!['#'] + dec_spec(n as int)));
                    }
                    true
                },
                None => {
                    seen.push(p);
                    out.push('(');
                    if p < block.slots.len() as u64 {
                        let blen = block.slots.len();
                        let (car, cdr) = match &block.slots[p as usize].body {
                            Some(Body::Cons { car, cdr, .. }) => (*car, *cdr),
                            _ => (RawObj { bits: 0 }, RawObj { bits: 0 }),
                        };
                        let ghost seen1 = seen@;
                        let carh = Gc { bits: car.bits };
                        let cdrh = Gc { bits: cdr.bits };
                        if car.bits & 0xff <= 11 {
                            display_walk(block, st, carh, seen, out, fuel - 1);
                        } else {
                            out.push('?');
                            proof {
                                assert(out@ =~= base + seq!['('] + seq!['?']);
                            }
                        }
                        let ghost carpart = (out@.skip(base.len() as int + 1), seen@);
                        proof {
                            assert(out@ =~= base + seq!['('] + carpart.0);
                        }
                        if cdr.bits != 0 {
                            out.push(' ');
                            out.push('.');
                            out.push(' ');
                            if cdr.bits & 0xff <= 11 {
                                display_walk(block, st, cdrh, seen, out, fuel - 1);
                                proof {
                                    let t = disp_walk_spec(
                                        block.slots@,
                                        st.cells@,
                                        cdrh,
                                        carpart.1,
                                        (fuel - 1) as nat,
                                    );
                                    assert(out@ =~= base + seq!['('] + carpart.0 + (seq![
                                        ' ',
                                        '.',
                                        ' ',
                                    ] + t.0));
                                }
                            } else {
                                out.push('?');
                                proof {
                                    assert(out@ =~= base + seq!['('] + carpart.0 + seq![
                                        ' ',
                                        '.',
                                        ' ',
                                        '?',
                                    ]);
                                }
                            }
                        }
                        out.push(')');
                        proof {
                            let carspec = if car.bits & 0xff <= 11 {
                                disp_walk_spec(
                                    block.slots@,
                                    st.cells@,
                                    carh,
                                    seen1,
                                    (fuel - 1) as nat,
                                )
                            } else {
                                (seq!['?'], seen1)
                            };
                            assert(carpart.0 =~= carspec.0);
                            assert(out@ =~= base + sspec.0);
                        }
                    } else {
                        out.push(')');
                        proof {
                            assert(out@ =~= base + seq!['(', ')']);
                        }
                    }
                    true
                },
            }
        },
        ObjectType::Vec(p) => {
            match seen_at(seen, p) {
                Some(n) => {
                    out.push('#');
                    let t = u64_to_string(n as u64);
                    out.append(t.as_str());
                    proof {
                        assert(out@ =~= base + (seq!['#'] + dec_spec(n as int)));
                    }
                    true
                },
                None => {
                    seen.push(p);
                    out.push('[');
                    if p < block.slots.len() as u64 {
                        let blen = block.slots.len();
                        let elems: Vec<RawObj> = match &block.slots[p as usize].body {
                            Some(Body::Vector { elems, .. }) => copy_refs(elems),
                            _ => Vec::new(),
                        };
                        let ghost seen1 = seen@;
                        let ghost whole = disp_elems_spec(
                            block.slots@,
                            st.cells@,
                            elems@,
                            0,
                            seen1,
                            fuel as nat,
                        );
                        let ghost mut built: Seq<char> = Seq::empty();
                        proof {
                            assert(out@ =~= base + seq!['['] + built);
                        }
                        let en = elems.len();
                        let mut i: usize = 0;
                        while i < en
                            invariant
                                en == elems@.len(),
                                0 <= i <= en,
                                fuel >= 1,
                                out@ == base + seq!['['] + built,
                                whole == disp_elems_spec(
                                    block.slots@,
                                    st.cells@,
                                    elems@,
                                    0,
                                    seen1,
                                    fuel as nat,
                                ),
                                ({
                                    let tail = disp_elems_spec(
                                        block.slots@,
                                        st.cells@,
                                        elems@,
                                        i as int,
                                        seen@,
                                        fuel as nat,
                                    );
                                    whole == (built + tail.0, tail.1)
                                }),
                            decreases en - i,
                        {
                            let ghost seencur = seen@;
                            let ghost sep: Seq<char> = if i > 0 {
                                seq![' ']
                            } else {
                                Seq::empty()
                            };
                            if i > 0 {
                                out.push(' ');
                            }
                            let e = elems[i];
                            if e.bits & 0xff <= 11 {
                                display_walk(block, st, Gc { bits: e.bits }, seen, out, fuel - 1);
                            } else {
                                out.push('?');
                            }
                            proof {
                                let head = if e.bits & 0xff <= 11 {
                                    disp_walk_spec(
                                        block.slots@,
                                        st.cells@,
                                        Gc { bits: e.bits },
                                        seencur,
                                        (fuel - 1) as nat,
                                    )
                                } else {
                                    (seq!['?'], seencur)
                                };
                                built = built + sep + head.0;
                                assert(out@ =~= base + seq!['['] + built);
                                let tailpre = disp_elems_spec(
                                    block.slots@,
                                    st.cells@,
                                    elems@,
                                    i as int,
                                    seencur,
                                    fuel as nat,
                                );
                                let tailpost = disp_elems_spec(
                                    block.slots@,
                                    st.cells@,
                                    elems@,
                                    i as int + 1,
                                    seen@,
                                    fuel as nat,
                                );
                                assert(tailpre.0 =~= sep + head.0 + tailpost.0);
                                assert((built + tailpost.0) =~= (built.subrange(
                                    0,
                                    built.len() - sep.len() - head.0.len(),
                                ) + tailpre.0));
                            }
                            i = i + 1;
                        }
                        out.push(']');
                        proof {
                            let tail = disp_elems_spec(
                                block.slots@,
                                st.cells@,
                                elems@,
                                en as int,
                                seen@,
                                fuel as nat,
                            );
                            assert(tail.0 =~= Seq::<char>::empty());
                            assert(whole.0 =~= built);
                            assert(out@ =~= base + (seq!['['] + whole.0 + seq![']']));
                        }
                    } else {
                        out.push(']');
                        proof {
                            assert(out@ =~= base + seq!['[', ']']);
                        }
                    }
                    true
                },
            }
        },
        ObjectType::Record(_) => {
            out.push('#');
            out.push('r');
            proof {
                assert(out@ =~= base + seq!['#', 'r']);
            }
            true
        },
        ObjectType::HashTable(_) => {
            out.push('#');
            out.push('h');
            proof {
                assert(out@ =~= base + seq!['#', 'h']);
            }
            true
        },
        ObjectType::SubrFn(_) => {
            out.push('#');
            out.push('s');
            proof {
                assert(out@ =~= base + seq!['#', 's']);
            }
            true
        },
        ObjectType::ByteFn(_) => {
            out.push('#');
            out.push('b');
            proof {
                assert(out@ =~= base + seq!['#', 'b']);
            }
            true
        },
        ObjectType::Buffer(_) => {
            out.push('#');
            out.push('u');
            proof {
                assert(out@ =~= base + seq!['#', 'u']);
            }
            true
        },
    }
}

/// The byte contents of a string or byte-string body, if the slot holds
/// one.
pub open spec fn str_bytes(slots: Seq<crate::arena::Slot>, p: u64) -> Option<Seq<u8>> {
    if p < slots.len() {
        match slots[p as int].body {
            Some(Body::Str { text }) => Some(text@),
            Some(Body::ByteStr { data }) => Some(data@),
            _ => None,
        }
    } else {
        None
    }
}

/// The bit image of the float body at `p`; zero when the slot holds no
/// float.
pub open spec fn float_bits(slots: Seq<crate::arena::Slot>, p: u64) -> u64 {
    if p < slots.len() {
        match slots[p as int].body {
            Some(Body::Float { image }) => image,
            _ => 0,
        }
    } else {
        0
    }
}

/// The two handles of the cons body at `p`, if the slot holds one.
pub open spec fn cons_fields(slots: Seq<crate::arena::Slot>, p: u64) -> Option<(RawObj, RawObj)> {
    if p < slots.len() {
        match slots[p as int].body {
            Some(Body::Cons { car, cdr, .. }) => Some((car, cdr)),
            _ => None,
        }
    } else {
        None
    }
}

/// The element handles of the vector body at `p`, if the slot holds one.
pub open spec fn vec_elems(slots: Seq<crate::arena::Slot>, p: u64) -> Option<Seq<RawObj>> {
    if p < slots.len() {
        match slots[p as int].body {
            Some(Body::Vector { elems, .. }) => Some(elems@),
            _ => None,
        }
    } else {
        None
    }
}

/// String bodies compare bytewise; a missing body compares unequal.
pub open spec fn bytes_equal_spec(slots: Seq<crate::arena::Slot>, p: u64, q: u64) -> bool {
    match (str_bytes(slots, p), str_bytes(slots, q)) {
        (Some(x), Some(y)) => x == y,
        _ => false,
    }
}

/// The work budget of a comparison: two steps per slot cover every
/// distinct cons or vector pair on one descent path.
pub open spec fn equal_fuel(n: int) -> nat {
    if n <= (usize::MAX - 2) / 2 {
        (2 * n + 2) as nat
    } else {
        usize::MAX as nat
    }
}

/// Structural equality of two values, and the visited-pair list the
/// comparison leaves behind. Identical words are equal; fixnums compare
/// as numbers, floats to within two ULP on their stored bit images,
/// strings bytewise; conses and vectors are entered only once per pair —
/// a pair met again counts as equal, which makes cyclic comparison
/// finite. A malformed handle or slot compares unequal.
pub open spec fn equal_walk_spec(
    slots: Seq<crate::arena::Slot>,
    a: Gc,
    b: Gc,
    pairs: Seq<(u64, u64)>,
    fuel: nat,
) -> (bool, Seq<(u64, u64)>)
    decreases fuel, 1nat, 0nat,
{
    if a.bits == b.bits {
        (true, pairs)
    } else if fuel == 0 {
        (
            match (crate::tagged::spec_untag(a), crate::tagged::spec_untag(b)) {
                (ObjectType::Int(x), ObjectType::Int(y)) => x == y,
                _ => false,
            },
            pairs,
        )
    } else {
        match (crate::tagged::spec_untag(a), crate::tagged::spec_untag(b)) {
            (ObjectType::Int(x), ObjectType::Int(y)) => (x == y, pairs),
            (ObjectType::Float(p), ObjectType::Float(q)) => (
                ulps_eq_spec(float_bits(slots, p), float_bits(slots, q)),
                pairs,
            ),
            (ObjectType::String(p), ObjectType::String(q)) => (
                bytes_equal_spec(slots, p, q),
                pairs,
            ),
            (ObjectType::ByteString(p), ObjectType::ByteString(q)) => (
                bytes_equal_spec(slots, p, q),
                pairs,
            ),
            (ObjectType::Cons(p), ObjectType::Cons(q)) => {
                if pairs.contains((p, q)) {
                    (true, pairs)
                } else {
                    let pairs1 = pairs.push((p, q));
                    match (cons_fields(slots, p), cons_fields(slots, q)) {
                        (Some((pa, pd)), Some((qa, qd))) => {
                            if pa.bits & 0xff > 11 || pd.bits & 0xff > 11 || qa.bits & 0xff > 11
                                || qd.bits & 0xff > 11 {
                                (false, pairs1)
                            } else {
                                let car = equal_walk_spec(
                                    slots,
                                    Gc { bits: pa.bits },
                                    Gc { bits: qa.bits },
                                    pairs1,
                                    (fuel - 1) as nat,
                                );
                                if !car.0 {
                                    (false, car.1)
                                } else {
                                    equal_walk_spec(
                                        slots,
                                        Gc { bits: pd.bits },
                                        Gc { bits: qd.bits },
                                        car.1,
                                        (fuel - 1) as nat,
                                    )
                                }
                            }
                        },
                        _ => (false, pairs1),
                    }
                }
            },
            (ObjectType::Vec(p), ObjectType::Vec(q)) => {
                if pairs.contains((p, q)) {
                    (true, pairs)
                } else {
                    let pairs1 = pairs.push((p, q));
                    match (vec_elems(slots, p), vec_elems(slots, q)) {
                        (Some(pe), Some(qe)) => {
                            if pe.len() != qe.len() {
                                (false, pairs1)
                            } else {
                                eq_elems_spec(slots, pe, qe, 0, pairs1, fuel)
                            }
                        },
                        _ => (false, pairs1),
                    }
                }
            },
            _ => (false, pairs),
        }
    }
}

/// Elementwise comparison of two vectors from index `i` on, threading the
/// visited-pair list left to right and stopping at the first difference.
pub open spec fn eq_elems_spec(
    slots: Seq<crate::arena::Slot>,
    pe: Seq<RawObj>,
    qe: Seq<RawObj>,
    i: int,
    pairs: Seq<(u64, u64)>,
    fuel: nat,
) -> (bool, Seq<(u64, u64)>)
    decreases fuel, 0nat, pe.len() - i,
{
    if i < 0 || i >= pe.len() || fuel == 0 {
        (true, pairs)
    } else {
        let x = pe[i];
        let y = qe[i];
        if x.bits & 0xff > 11 || y.bits & 0xff > 11 {
            (false, pairs)
        } else {
            let head = equal_walk_spec(
                slots,
                Gc { bits: x.bits },
                Gc { bits: y.bits },
                pairs,
                (fuel - 1) as nat,
            );
            if !head.0 {
                (false, head.1)
            } else {
                eq_elems_spec(slots, pe, qe, i + 1, head.1, fuel)
            }
        }
    }
}

/// Structural equality: the Lisp `equal`, per `equal_walk_spec` with a
/// fresh visited-pair list and the standard work budget.
pub open spec fn equal_spec(slots: Seq<crate::arena::Slot>, a: Gc, b: Gc) -> bool {
    equal_walk_spec(slots, a, b, Seq::empty(), equal_fuel(slots.len() as int)).0
}

/// Structural equality: the Lisp `equal`. Fixnums compare as numbers,
/// floats to within two ULP, strings bytewise; conses and vectors recurse.
/// A pair of objects met again while already under comparison is treated
/// as equal, so comparison of cyclic structures terminates.
pub fn equal(block: &Block, a: Gc, b: Gc) -> (r: bool)
    requires
        wf_handle(a),
        wf_handle(b),
    ensures
        r == equal_spec(block.slots@, a, b),
{
    let mut pairs: Vec<(u64, u64)> = Vec::new();
    let n = block.slots.len();
    let fuel = if n <= (usize::MAX - 2) / 2 {
        n + n + 2
    } else {
        usize::MAX
    };
    proof {
        assert(pairs@ =~= Seq::<(u64, u64)>::empty());
        assert(fuel as nat == equal_fuel(block.slots@.len() as int));
    }
    equal_walk(block, a, b, &mut pairs, fuel)
}

fn equal_walk(block: &Block, a: Gc, b: Gc, pairs: &mut Vec<(u64, u64)>, fuel: usize) -> (r: bool)
    requires
        wf_handle(a),
        wf_handle(b),
    ensures
        ({
            let s = equal_walk_spec(block.slots@, a, b, old(pairs)@, fuel as nat);
            r == s.0 && final(pairs)@ == s.1
        }),
    decreases fuel,
{
    let ghost sspec = equal_walk_spec(block.slots@, a, b, old(pairs)@, fuel as nat);
    if a.bits == b.bits {
        return true;
    }
    if fuel == 0 {
        match (a.untag(), b.untag()) {
            (ObjectType::Int(x), ObjectType::Int(y)) => {
                return x == y;
            },
            _ => {
                return false;
            },
        }
    }
    match (a.untag(), b.untag()) {
        (ObjectType::Int(x), ObjectType::Int(y)) => x == y,
        (ObjectType::Float(p), ObjectType::Float(q)) => {
            let x = float_image(block, p);
            let y = float_image(block, q);
            eq_ulps(x, y)
        },
        (ObjectType::String(p), ObjectType::String(q)) => bytes_equal(block, p, q),
        (ObjectType::ByteString(p), ObjectType::ByteString(q)) => bytes_equal(block, p, q),
        (ObjectType::Vec(p), ObjectType::Vec(q)) => {
            if pair_seen(pairs, p, q) {
                return true;
            }
            pairs.push((p, q));
            let ghost pairs1 = pairs@;
            let pn = block.slots.len() as u64;
            if p >= pn || q >= pn {
                return false;
            }
            let blen = block.slots.len();
            let pe: Vec<RawObj> = match &block.slots[p as usize].body {
                Some(Body::Vector { elems, .. }) => copy_refs(elems),
                _ => {
                    return false;
                },
            };
            let qe: Vec<RawObj> = match &block.slots[q as usize].body {
                Some(Body::Vector { elems, .. }) => copy_refs(elems),
                _ => {
                    return false;
                },
            };
            let n = pe.len();
            if n != qe.len() {
                return false;
            }
            proof {
                assert(sspec == eq_elems_spec(block.slots@, pe@, qe@, 0, pairs1, fuel as nat));
            }
            let mut i: usize = 0;
            while i < n
                invariant
                    n == pe@.len(),
                    n == qe@.len(),
                    0 <= i <= n,
                    fuel >= 1,
                    sspec == equal_walk_spec(block.slots@, a, b, old(pairs)@, fuel as nat),
                    sspec == eq_elems_spec(block.slots@, pe@, qe@, i as int, pairs@, fuel as nat),
                decreases n - i,
            {
                let x = pe[i];
                let y = qe[i];
                if x.bits & 0xff > 11 || y.bits & 0xff > 11 {
                    return false;
                }
                if !equal_walk(block, Gc { bits: x.bits }, Gc { bits: y.bits }, pairs, fuel - 1) {
                    return false;
                }
                i = i + 1;
            }
            true
        },
        (ObjectType::Cons(p), ObjectType::Cons(q)) => {
            if pair_seen(pairs, p, q) {
                return true;
            }
            pairs.push((p, q));
            let pn = block.slots.len() as u64;
            if p >= pn || q >= pn {
                return false;
            }
            let blen = block.slots.len();
            let (pa, pd) = match &block.slots[p as usize].body {
                Some(Body::Cons { car, cdr, .. }) => (*car, *cdr),
                _ => {
                    return false;
                },
            };
            let (qa, qd) = match &block.slots[q as usize].body {
                Some(Body::Cons { car, cdr, .. }) => (*car, *cdr),
                _ => {
                    return false;
                },
            };
            if pa.bits & 0xff > 11 || pd.bits & 0xff > 11 || qa.bits & 0xff > 11 || qd.bits & 0xff
                > 11 {
                return false;
            }
            equal_walk(block, Gc { bits: pa.bits }, Gc { bits: qa.bits }, pairs, fuel - 1)
                && equal_walk(block, Gc { bits: pd.bits }, Gc { bits: qd.bits }, pairs, fuel - 1)
        },
        _ => false,
    }
}

/// Copy a body's handle vector so the borrow of the arena can end.
fn copy_refs(elems: &Vec<RawObj>) -> (r: Vec<RawObj>)
    ensures
        r@ == elems@,
{
    let mut copy: Vec<RawObj> = Vec::new();
    let n = elems.len();
    let mut i: usize = 0;
    while i < n
        invariant
            n == elems@.len(),
            0 <= i <= n,
            copy@ == elems@.take(i as int),
        decreases n - i,
    {
        copy.push(elems[i]);
        proof {
            assert(copy@ =~= elems@.take(i as int + 1));
        }
        i = i + 1;
    }
    proof {
        assert(elems@.take(n as int) =~= elems@);
    }
    copy
}

/// The bit image of the float body at `p`, or zero for a missing body.
fn float_image(block: &Block, p: u64) -> (r: u64)
    ensures
        r == float_bits(block.slots@, p),
{
    if p < block.slots.len() as u64 {
        let blen = block.slots.len();
        match &block.slots[p as usize].body {
            Some(Body::Float { image }) => *image,
            _ => 0,
        }
    } else {
        0
    }
}

/// Bytewise equality of the string bodies at `p` and `q`.
fn bytes_equal(block: &Block, p: u64, q: u64) -> (r: bool)
    ensures
        r == bytes_equal_spec(block.slots@, p, q),
{
    let blen = block.slots.len() as u64;
    if p >= blen || q >= blen {
        return false;
    }
    let n = block.slots.len();
    let pb: &Vec<u8> = match &block.slots[p as usize].body {
        Some(Body::Str { text }) => text,
        Some(Body::ByteStr { data }) => data,
        _ => {
            return false;
        },
    };
    let qb: &Vec<u8> = match &block.slots[q as usize].body {
        Some(Body::Str { text }) => text,
        Some(Body::ByteStr { data }) => data,
        _ => {
            return false;
        },
    };
    let ln = pb.len();
    if ln != qb.len() {
        return false;
    }
    let mut i: usize = 0;
    while i < ln
        invariant
            ln == pb@.len(),
            ln == qb@.len(),
            0 <= i <= ln,
            str_bytes(block.slots@, p) == Some(pb@),
            str_bytes(block.slots@, q) == Some(qb@),
            forall|j: int| 0 <= j < i ==> pb@[j] == qb@[j],
        decreases ln - i,
    {
        if pb[i] != qb[i] {
            return false;
        }
        i = i + 1;
    }
    proof {
        assert(pb@ =~= qb@);
    }
    true
}

/// Whether the pair is already under comparison.
fn pair_seen(pairs: &Vec<(u64, u64)>, p: u64, q: u64) -> (r: bool)
    ensures
        r == pairs@.contains((p, q)),
{
    let n = pairs.len();
    let mut i: usize = 0;
    while i < n
        invariant
            n == pairs@.len(),
            0 <= i <= n,
            forall|k: int| 0 <= k < i ==> pairs@[k] != (p, q),
        decreases n - i,
    {
        if pairs[i].0 == p && pairs[i].1 == q {
            proof {
                assert(pairs@[i as int] == (p, q));
            }
            return true;
        }
        i = i + 1;
    }
    proof {
        assert(!pairs@.contains((p, q)));
    }
    false
}

} // verus!
