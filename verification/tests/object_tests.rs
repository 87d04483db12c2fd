use lisp_core::arena::Block;
use lisp_core::arena::LispError;
use lisp_core::display::display;
use lisp_core::display::equal;
use lisp_core::env::Environment;
use lisp_core::env::consp;
use lisp_core::env::eq;
use lisp_core::env::listp;
use lisp_core::env::nlistp;
use lisp_core::env::null;
use lisp_core::env::numberp;
use lisp_core::env::set_global_function;
use lisp_core::env::stringp;
use lisp_core::env::symbolp;
use lisp_core::env::vectorp;
use lisp_core::gc::RootSet;
use lisp_core::gc::Gc as RootedCell;
use lisp_core::gc::SymbolTable;
use lisp_core::gc::collect;
use lisp_core::tagged::Gc;
use lisp_core::tagged::MAX_FIXNUM;
use lisp_core::tagged::MIN_FIXNUM;
use lisp_core::tagged::ObjectType;
use lisp_core::tagged::RawObj;
use lisp_core::tagged::Tag;
use lisp_core::tagged::from_bool;
use lisp_core::tagged::int_to_char;
use lisp_core::tagged::tag_int;
use lisp_core::tagged::tag_ptr;

fn untag_int(h: Gc) -> i64 {
    match h.untag() {
        ObjectType::Int(i) => i,
        _ => panic!("expected a fixnum"),
    }
}

fn cons_index(h: Gc) -> u64 {
    match h.untag() {
        ObjectType::Cons(p) => p,
        _ => panic!("expected a cons"),
    }
}

#[test]
fn test_clamp_fixnum() {
    assert_eq!(untag_int(tag_int(0)), 0);
    assert_eq!(untag_int(tag_int(-1)), -1);
    assert_eq!(untag_int(tag_int(i64::MAX)), MAX_FIXNUM);
    assert_eq!(untag_int(tag_int(MAX_FIXNUM)), MAX_FIXNUM);
    assert_eq!(untag_int(tag_int(i64::MIN)), MIN_FIXNUM);
    assert_eq!(untag_int(tag_int(MIN_FIXNUM)), MIN_FIXNUM);
}

#[test]
fn test_print_circle() {
    let mut block = Block::new();
    let st = SymbolTable::new();
    let cons = block.alloc_cons(tag_int(1), Gc::nil());
    let ci = cons_index(cons);
    block.set_cdr(ci, cons).unwrap();
    assert_eq!(display(&block, &st, cons), "(1 . #0)");

    block.set_car(ci, cons).unwrap();
    assert_eq!(display(&block, &st, cons), "(#0 . #0)");
}

#[test]
fn untag_tag_round_trip() {
    // retagging what a handle untags to rebuilds the same handle
    let samples = [
        tag_int(0),
        tag_int(-77),
        tag_int(MAX_FIXNUM),
        Gc::nil(),
        tag_ptr(1, Tag::Symbol),
        tag_ptr(42, Tag::Cons),
        tag_ptr(3, Tag::String),
        tag_ptr(9, Tag::Vec),
    ];
    for h in samples {
        let round = h.untag().tag();
        assert!(h.ptr_eq(round));
        assert_eq!(h.untag(), round.untag());
    }
}

#[test]
fn integer() {
    let int = tag_int(3);
    assert!(matches!(int.untag(), ObjectType::Int(3)));
    let zero = tag_int(0);
    assert!(matches!(zero.untag(), ObjectType::Int(0)));
}

#[test]
fn float() {
    let mut block = Block::new();
    let x = block.alloc_float(1.3f64.to_bits());
    assert!(matches!(x.untag(), ObjectType::Float(_)));
    let y = block.alloc_float(1.3f64.to_bits());
    assert!(equal(&block, x, y));
    let z = block.alloc_float(2.5f64.to_bits());
    assert!(!equal(&block, x, z));
}

#[test]
fn string() {
    let mut block = Block::new();
    let x = block.alloc_string(b"foo".to_vec());
    assert!(matches!(x.untag(), ObjectType::String(_)));
    let x2 = block.alloc_string(b"foo".to_vec());
    assert!(equal(&block, x, x2));
    let y = block.alloc_string(b"bar".to_vec());
    assert!(matches!(y.untag(), ObjectType::String(_)));
    assert!(!equal(&block, x, y));
}

#[test]
fn vector() {
    let mut block = Block::new();
    let s = block.alloc_string(b"foo".to_vec());
    let elems = vec![
        RawObj { bits: tag_int(1).bits },
        RawObj { bits: tag_int(2).bits },
        RawObj { bits: s.bits },
    ];
    let x = block.alloc_vec(elems);
    assert!(matches!(x.untag(), ObjectType::Vec(_)));
    let s2 = block.alloc_string(b"foo".to_vec());
    let elems2 = vec![
        RawObj { bits: tag_int(1).bits },
        RawObj { bits: tag_int(2).bits },
        RawObj { bits: s2.bits },
    ];
    let y = block.alloc_vec(elems2);
    assert!(equal(&block, x, y));
}

#[test]
fn other() {
    let t = from_bool(true);
    let n = from_bool(false);
    assert!(!t.ptr_eq(n));
    assert!(n.is_nil());
    assert!(!t.is_nil());
    let nil2 = Gc::nil();
    assert!(eq(n, nil2));
}

#[test]
fn symbol() {
    let mut st = SymbolTable::new();
    let foo = st.intern(b"foo".to_vec());
    let foo2 = st.intern(b"foo".to_vec());
    assert_eq!(foo, foo2);
    let h = tag_ptr(foo, Tag::Symbol);
    assert!(symbolp(h));
    assert_eq!(st.symbol_name(foo).as_slice(), b"foo");
}

#[test]
fn mutuality() {
    let mut arena = Block::new_const();
    let inner_cons = arena.alloc_cons(tag_int(1), tag_int(4));
    let elems = vec![
        RawObj { bits: inner_cons.bits },
        RawObj { bits: tag_int(2).bits },
        RawObj { bits: tag_int(3).bits },
        RawObj { bits: tag_int(4).bits },
    ];
    let vec_h = arena.alloc_vec(elems);
    let obj = arena.alloc_cons(tag_int(1), vec_h);
    let oi = cons_index(obj);
    assert!(matches!(arena.set_car(oi, Gc::nil()), Err(LispError::Constant(_))));
    assert!(matches!(arena.set_cdr(oi, Gc::nil()), Err(LispError::Constant(_))));
    let vi = match vec_h.untag() {
        ObjectType::Vec(p) => p,
        _ => unreachable!("Type should be vector"),
    };
    assert!(matches!(arena.aset(vi, 0, Gc::nil()), Err(LispError::Constant(_))));
    let ii = cons_index(inner_cons);
    assert!(matches!(arena.set_car(ii, Gc::nil()), Err(LispError::Constant(_))));
    assert!(matches!(arena.set_cdr(ii, Gc::nil()), Err(LispError::Constant(_))));
}

#[test]
fn test() {
    // narrowing a small argument list: an optional count plus a cons whose
    // car is added to it
    let mut arena = Block::new();
    let obj0 = tag_int(5);
    let obj1 = arena.alloc_cons(tag_int(1), tag_int(2));
    let args = vec![obj0, obj1];
    let arg0 = match args[0].try_as_int() {
        Ok(i) => Some(i),
        Err(_) => None,
    };
    let ci = cons_index(args[1]);
    let car = Gc { bits: arena.car(ci).bits };
    let x = untag_int(car);
    let res = arg0.unwrap() + x;
    assert_eq!(6, res);
}

#[test]
fn indexing() {
    let mut vec: Vec<RootedCell> = Vec::new();
    vec.push(RootedCell::new(RawObj { bits: 0 }));
    assert!(Gc { bits: vec[0].obj().bits }.is_nil());
    let str1 = tag_ptr(7, Tag::String);
    let str2 = tag_ptr(8, Tag::String);
    vec.push(RootedCell::new(RawObj { bits: str1.bits }));
    vec.push(RootedCell::new(RawObj { bits: str2.bits }));
    assert_eq!(vec[1].obj().bits, str1.bits);
    assert_eq!(vec[2].obj().bits, str2.bits);
    let mut cell = RootedCell::new(RawObj { bits: 0 });
    cell.mutate(RawObj { bits: str1.bits });
    assert_eq!(cell.obj().bits, str1.bits);
    cell.set(RawObj { bits: str2.bits });
    assert_eq!(cell.obj().bits, str2.bits);
}

#[test]
fn collect_frees_unreachable() {
    // a cons of two strings, with only the first string rooted: after one
    // cycle the rooted string survives, the other string and the cons are
    // gone
    let mut block = Block::new();
    let st = SymbolTable::new();
    let mut roots = RootSet::new();
    let a = block.alloc_string(b"left".to_vec());
    let b = block.alloc_string(b"right".to_vec());
    let c = block.alloc_cons(a, b);
    let ai = match a.untag() {
        ObjectType::String(p) => p,
        _ => unreachable!(),
    };
    let bi = match b.untag() {
        ObjectType::String(p) => p,
        _ => unreachable!(),
    };
    let ci = cons_index(c);
    roots.push(a);
    collect(&mut block, &st, &roots);
    assert!(block.slots[ai as usize].body.is_some());
    assert!(block.slots[bi as usize].body.is_none());
    assert!(block.slots[ci as usize].body.is_none());
    assert!(!block.slots[ai as usize].marked);
}

#[test]
fn collect_keeps_reachable_graph() {
    // rooting the cons keeps everything it owns, through a chain
    let mut block = Block::new();
    let st = SymbolTable::new();
    let mut roots = RootSet::new();
    let a = block.alloc_string(b"payload".to_vec());
    let inner = block.alloc_cons(a, Gc::nil());
    let outer = block.alloc_cons(tag_int(1), inner);
    roots.push(outer);
    collect(&mut block, &st, &roots);
    for i in 0..block.slots.len() {
        assert!(block.slots[i].body.is_some());
        assert!(!block.slots[i].marked);
    }
}

#[test]
fn symbol_function_traced() {
    // a body stored in a symbol's function cell is a permanent root
    let mut block = Block::new();
    let mut st = SymbolTable::new();
    let roots = RootSet::new();
    let f = block.alloc_cons(tag_int(1), Gc::nil());
    let sym = st.intern(b"my-fn".to_vec());
    set_global_function(&mut st, sym, f);
    let orphan = block.alloc_string(b"gone".to_vec());
    let oi = match orphan.untag() {
        ObjectType::String(p) => p,
        _ => unreachable!(),
    };
    collect(&mut block, &st, &roots);
    let fi = cons_index(f);
    assert!(block.slots[fi as usize].body.is_some());
    assert!(block.slots[oi as usize].body.is_none());
}

#[test]
fn environment_bindings() {
    let mut env = Environment::new();
    let sym = 5u64;
    assert!(!env.boundp(sym));
    env.set_var(sym, tag_int(42));
    assert!(env.boundp(sym));
    assert!(env.default_boundp(sym));
    assert_eq!(env.symbol_value(sym).unwrap().bits, tag_int(42).bits);
    let prop = 9u64;
    assert!(Gc { bits: env.get_prop(sym, prop).bits }.is_nil());
    env.put(sym, prop, tag_int(7));
    assert_eq!(env.get_prop(sym, prop).bits, tag_int(7).bits);
    env.put(sym, prop, tag_int(8));
    assert_eq!(env.get_prop(sym, prop).bits, tag_int(8).bits);
    env.provide(sym);
}

#[test]
fn function_cells() {
    let mut st = SymbolTable::new();
    let mut block = Block::new();
    let sym = st.intern(b"f".to_vec());
    assert!(!st.fboundp(sym));
    let body = block.alloc_cons(tag_int(1), Gc::nil());
    assert!(lisp_core::env::fset(&mut st, sym, body).is_ok());
    assert!(st.fboundp(sym));
    assert_eq!(st.symbol_function(sym).bits, body.bits);
    // a string is not a callable
    let s = block.alloc_string(b"no".to_vec());
    assert!(lisp_core::env::fset(&mut st, sym, s).is_err());
    // nil unbinds
    assert!(lisp_core::env::fset(&mut st, sym, Gc::nil()).is_ok());
    assert!(!st.fboundp(sym));
    let resolved = lisp_core::env::indirect_function(&st, tag_int(3));
    assert_eq!(untag_int(resolved), 3);
}

#[test]
fn predicates() {
    let mut block = Block::new();
    let c = block.alloc_cons(tag_int(1), Gc::nil());
    let s = block.alloc_string(b"s".to_vec());
    let v = block.alloc_vec(Vec::new());
    let n = Gc::nil();
    assert!(null(n));
    assert!(listp(n) && listp(c) && !listp(s));
    assert!(nlistp(s));
    assert!(consp(c) && !consp(n));
    assert!(stringp(s) && !stringp(c));
    assert!(vectorp(v) && !vectorp(s));
    assert!(numberp(tag_int(2)) && !numberp(s));
    assert!(symbolp(n));
}

#[test]
fn usize_conversion() {
    // in-range fixnums convert; a negative one is a range error, any
    // other value a type error expecting an integer
    let mut block = Block::new();
    assert_eq!(tag_int(7).try_as_usize().unwrap(), 7);
    assert_eq!(tag_int(0).try_as_usize().unwrap(), 0);
    assert!(matches!(tag_int(-1).try_as_usize(), Err(LispError::Range(_))));
    let s = block.alloc_string(b"no".to_vec());
    match s.try_as_usize() {
        Err(LispError::TypeErr(e)) => assert!(matches!(e.expected, lisp_core::tagged::Type::Int)),
        _ => panic!("expected a type error"),
    }
}

#[test]
fn display_vector_and_backref() {
    // a vector prints its elements; a self-referential vector prints a
    // first-visit back-reference
    let mut block = Block::new();
    let st = SymbolTable::new();
    let v = block.alloc_vec(vec![
        RawObj { bits: tag_int(1).bits },
        RawObj { bits: tag_int(2).bits },
    ]);
    assert_eq!(display(&block, &st, v), "[1 2]");
    let vi = match v.untag() {
        ObjectType::Vec(p) => p,
        _ => unreachable!(),
    };
    block.aset(vi, 1, v).unwrap();
    assert_eq!(display(&block, &st, v), "[1 #0]");
}

#[test]
fn indirect_function_chain() {
    // an alias chain resolves to the final body; a circular chain
    // resolves to nil
    let mut st = SymbolTable::new();
    let mut block = Block::new();
    let f = st.intern(b"f".to_vec());
    let g = st.intern(b"g".to_vec());
    let body = block.alloc_cons(tag_int(9), Gc::nil());
    set_global_function(&mut st, g, body);
    set_global_function(&mut st, f, tag_ptr(g, Tag::Symbol));
    let r = lisp_core::env::indirect_function(&st, tag_ptr(f, Tag::Symbol));
    assert_eq!(r.bits, body.bits);
    let loopy = st.intern(b"loopy".to_vec());
    set_global_function(&mut st, loopy, tag_ptr(loopy, Tag::Symbol));
    let r2 = lisp_core::env::indirect_function(&st, tag_ptr(loopy, Tag::Symbol));
    assert!(r2.is_nil());
}

#[test]
fn char_conversion() {
    assert_eq!(int_to_char(97).unwrap(), 'a');
    assert_eq!(int_to_char(0x1F600).unwrap(), '\u{1F600}');
    assert!(int_to_char(-1).is_err());
    assert!(int_to_char(0xD800).is_err());
    assert!(int_to_char(0x110000).is_err());
}

#[test]
fn display_values() {
    let mut block = Block::new();
    let mut st = SymbolTable::new();
    assert_eq!(display(&block, &st, tag_int(-42)), "-42");
    assert_eq!(display(&block, &st, tag_int(0)), "0");
    assert_eq!(display(&block, &st, Gc::nil()), "nil");
    assert_eq!(display(&block, &st, from_bool(true)), "t");
    let foo = st.intern(b"foo".to_vec());
    assert_eq!(display(&block, &st, tag_ptr(foo, Tag::Symbol)), "foo");
    let s = block.alloc_string(b"hey".to_vec());
    assert_eq!(display(&block, &st, s), "\"hey\"");
}

#[test]
fn root_set_stack() {
    let mut roots = RootSet::new();
    let i0 = roots.push(tag_int(1));
    let i1 = roots.push(tag_int(2));
    assert_eq!(i0, 0);
    assert_eq!(i1, 1);
    assert_eq!(roots.get(1).bits, tag_int(2).bits);
    roots.set(0, tag_int(9));
    assert_eq!(roots.get(0).bits, tag_int(9).bits);
    roots.pop();
    assert_eq!(roots.stack.len(), 1);
}
