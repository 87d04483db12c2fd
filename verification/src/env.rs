//! The global environment: symbol interning and function cells, variable
//! and property bindings, and the small value predicates the evaluator
//! dispatches on.

use vstd::prelude::*;
use std::collections::HashMap;
use crate::gc::SymbolCell;
use crate::gc::SymbolTable;
use crate::tagged::Gc;
use crate::tagged::ObjectType;
use crate::tagged::RawObj;
use crate::tagged::spec_untag;
use crate::tagged::wf_handle;
use crate::arena::LispError;

verus! {

broadcast use vstd::std_specs::hash::group_hash_axioms;

impl SymbolTable {
    /// The table with the two builtin symbols interned: `nil` at index
    /// zero and `t` at index one.
    pub fn new() -> (r: SymbolTable)
        ensures
            r.cells@.len() == 2,
            r.cells@[0].func is None,
            r.cells@[1].func is None,
    {
        let mut cells: Vec<SymbolCell> = Vec::new();
        let mut nil_name: Vec<u8> = Vec::new();
        nil_name.push(110);
        nil_name.push(105);
        nil_name.push(108);
        cells.push(SymbolCell { name: nil_name, func: None });
        let mut t_name: Vec<u8> = Vec::new();
        t_name.push(116);
        cells.push(SymbolCell { name: t_name, func: None });
        SymbolTable { cells }
    }

    /// Intern a name: the index of the existing symbol with this name, or
    /// a fresh permanent cell.
    pub fn intern(&mut self, name: Vec<u8>) -> (r: u64)
        requires
            old(self).cells@.len() < 0x100_0000_0000_0000,
        ensures
            r < final(self).cells@.len(),
            final(self).cells@.len() >= old(self).cells@.len(),
            final(self).cells@[r as int].name@ == name@,
            // a name already interned yields its existing cell, the first
            // with that name, and nothing changes; a new name gets one
            // fresh cell at the end
            if (exists|i: int|
                0 <= i < old(self).cells@.len() && (#[trigger] old(self).cells@[i]).name@
                    == name@) {
                &&& *final(self) == *old(self)
                &&& r < old(self).cells@.len()
                &&& forall|j: int|
                    0 <= j < r ==> (#[trigger] old(self).cells@[j]).name@ != name@
            } else {
                &&& final(self).cells@ == old(self).cells@.push(SymbolCell { name, func: None })
                &&& r == old(self).cells@.len()
            },
    {
        let n = self.cells.len();
        let mut i: usize = 0;
        while i < n
            invariant
                n == self.cells@.len(),
                0 <= i <= n,
                *self == *old(self),
                forall|j: int| 0 <= j < i ==> (#[trigger] self.cells@[j]).name@ != name@,
            decreases n - i,
        {
            if eq_bytes(&self.cells[i].name, &name) {
                return i as u64;
            }
            i = i + 1;
        }
        let idx = self.cells.len() as u64;
        self.cells.push(SymbolCell { name, func: None });
        idx
    }

    /// The name of a symbol.
    pub fn symbol_name(&self, sym: u64) -> (r: &Vec<u8>)
        requires
            sym < self.cells@.len(),
        ensures
            r@ == self.cells@[sym as int].name@,
    {
        let n = self.cells.len();
        &self.cells[sym as usize].name
    }

    /// Whether a symbol has a function binding.
    pub fn fboundp(&self, sym: u64) -> (r: bool)
        requires
            sym < self.cells@.len(),
        ensures
            r == (self.cells@[sym as int].func is Some),
    {
        let n = self.cells.len();
        match &self.cells[sym as usize].func {
            Some(_) => true,
            None => false,
        }
    }

    /// The function bound to a symbol, or `nil` when there is none.
    pub fn symbol_function(&self, sym: u64) -> (r: Gc)
        requires
            sym < self.cells@.len(),
        ensures
            match self.cells@[sym as int].func {
                Some(f) => r.bits == f.bits,
                None => r.bits == 0,
            },
    {
        let n = self.cells.len();
        match &self.cells[sym as usize].func {
            Some(f) => Gc { bits: f.bits },
            None => Gc::nil(),
        }
    }

    /// Drop a symbol's function binding.
    pub fn fmakunbound(&mut self, sym: u64) -> (r: u64)
        requires
            sym < old(self).cells@.len(),
        ensures
            r == sym,
            final(self).cells@.len() == old(self).cells@.len(),
            final(self).cells@[sym as int].func is None,
            final(self).cells@[sym as int].name == old(self).cells@[sym as int].name,
            forall|i: int|
                0 <= i < old(self).cells@.len() && i != sym ==> final(self).cells@[i] == old(
                    self,
                ).cells@[i],
    {
        let n = self.cells.len();
        let cell = &mut self.cells[sym as usize];
        cell.func = None;
        sym
    }
}

/// Byte-wise equality of two names.
fn eq_bytes(a: &Vec<u8>, b: &Vec<u8>) -> (r: bool)
    ensures
        r == (a@ == b@),
{
    let n = a.len();
    if n != b.len() {
        proof {
            assert(a@ != b@);
        }
        return false;
    }
    let mut i: usize = 0;
    while i < n
        invariant
            n == a@.len(),
            n == b@.len(),
            0 <= i <= n,
            forall|j: int| 0 <= j < i ==> a@[j] == b@[j],
        decreases n - i,
    {
        if a[i] != b[i] {
            return false;
        }
        i = i + 1;
    }
    proof {
        assert(a@ =~= b@);
    }
    true
}

/// Install a function in a symbol's function cell.
pub fn set_global_function(st: &mut SymbolTable, symbol: u64, func: Gc)
    requires
        symbol < old(st).cells@.len(),
    ensures
        final(st).cells@.len() == old(st).cells@.len(),
        final(st).cells@[symbol as int].func == Some(RawObj { bits: func.bits }),
        final(st).cells@[symbol as int].name == old(st).cells@[symbol as int].name,
        forall|i: int|
            0 <= i < old(st).cells@.len() && i != symbol ==> final(st).cells@[i] == old(
                st,
            ).cells@[i],
{
    let n = st.cells.len();
    let cell = &mut st.cells[symbol as usize];
    cell.func = Some(RawObj { bits: func.bits });
}

/// Bind `definition` as the function of `symbol`: `nil` unbinds, anything
/// else must narrow to a callable.
pub fn fset(st: &mut SymbolTable, symbol: u64, definition: Gc) -> (r: Result<u64, LispError>)
    requires
        symbol < old(st).cells@.len(),
        wf_handle(definition),
    ensures
        final(st).cells@.len() == old(st).cells@.len(),
        match r {
            Ok(s) => s == symbol && (if definition.bits == 0 {
                final(st).cells@[symbol as int].func is None
            } else {
                final(st).cells@[symbol as int].func == Some(RawObj { bits: definition.bits })
            }),
            Err(e) => *final(st) == *old(st) && e is TypeErr && !(spec_untag(definition) is ByteFn)
                && !(spec_untag(definition) is SubrFn) && !(spec_untag(definition) is Cons) && !(
            spec_untag(definition) is Symbol) && definition.bits != 0,
        },
{
    if definition.is_nil() {
        st.fmakunbound(symbol);
        Ok(symbol)
    } else {
        match definition.try_as_function() {
            Ok(_) => {
                set_global_function(st, symbol, definition);
                Ok(symbol)
            },
            Err(e) => Err(LispError::TypeErr(e)),
        }
    }
}

/// `defalias` is `fset` with a documentation string that is ignored here.
pub fn defalias(st: &mut SymbolTable, symbol: u64, definition: Gc) -> (r: Result<u64, LispError>)
    requires
        symbol < old(st).cells@.len(),
        wf_handle(definition),
    ensures
        final(st).cells@.len() == old(st).cells@.len(),
        match r {
            Ok(s) => s == symbol && (if definition.bits == 0 {
                final(st).cells@[symbol as int].func is None
            } else {
                final(st).cells@[symbol as int].func == Some(RawObj { bits: definition.bits })
            }),
            Err(e) => *final(st) == *old(st) && e is TypeErr && !(spec_untag(definition) is ByteFn)
                && !(spec_untag(definition) is SubrFn) && !(spec_untag(definition) is Cons) && !(
            spec_untag(definition) is Symbol) && definition.bits != 0,
        },
{
    fset(st, symbol, definition)
}

/// The evaluator's mutable bindings: variable values, property lists and
/// the features registry, all keyed by symbol index.
pub struct Environment {
    pub vars: HashMap<u64, RawObj>,
    pub props: HashMap<u64, Vec<(u64, RawObj)>>,
    pub features: Vec<u64>,
}

impl Environment {
    /// An environment with no bindings.
    pub fn new() -> (r: Environment)
        ensures
            r.vars@.len() == 0,
            r.props@.len() == 0,
            r.features@.len() == 0,
    {
        Environment { vars: HashMap::new(), props: HashMap::new(), features: Vec::new() }
    }

    /// Bind a variable: the Lisp `set`.
    pub fn set_var(&mut self, sym: u64, value: Gc)
        ensures
            final(self).vars@ == old(self).vars@.insert(sym, RawObj { bits: value.bits }),
            final(self).props == old(self).props,
            final(self).features == old(self).features,
    {
        self.vars.insert(sym, RawObj { bits: value.bits });
    }

    /// The value bound to a symbol.
    pub fn symbol_value(&self, sym: u64) -> (r: Option<RawObj>)
        ensures
            match r {
                Some(v) => self.vars@.contains_key(sym) && v == self.vars@[sym],
                None => !self.vars@.contains_key(sym),
            },
    {
        match self.vars.get(&sym) {
            Some(v) => Some(*v),
            None => None,
        }
    }

    /// Whether a symbol has a value binding.
    pub fn boundp(&self, sym: u64) -> (r: bool)
        ensures
            r == self.vars@.contains_key(sym),
    {
        self.vars.contains_key(&sym)
    }

    /// Whether a symbol has a default value binding; buffer-local values
    /// are not modelled, so this is `boundp`.
    pub fn default_boundp(&self, sym: u64) -> (r: bool)
        ensures
            r == self.vars@.contains_key(sym),
    {
        self.boundp(sym)
    }

    /// Bind a variable to an initial value unless the caller passed none:
    /// the Lisp `defvar`.
    pub fn defvar(&mut self, sym: u64, initvalue: Option<Gc>) -> (r: Gc)
        ensures
            ({
                let v = match initvalue {
                    Some(x) => x.bits,
                    None => 0,
                };
                r.bits == v && final(self).vars@ == old(self).vars@.insert(
                    sym,
                    RawObj { bits: v },
                )
            }),
    {
        let value = match initvalue {
            Some(x) => x,
            None => Gc::nil(),
        };
        self.set_var(sym, value);
        value
    }

    /// Store a property on a symbol's property list: the Lisp `put`.
    /// Only that one property of that one symbol changes; every other
    /// binding of the environment stays as it was.
    pub fn put(&mut self, symbol: u64, propname: u64, value: Gc)
        ensures
            final(self).vars == old(self).vars,
            final(self).features == old(self).features,
            final(self).props@.contains_key(symbol),
            plist_get(final(self).props@[symbol]@, propname) == Some(RawObj { bits: value.bits }),
            forall|k: u64|
                k != symbol ==> (#[trigger] final(self).props@.contains_key(k))
                    == old(self).props@.contains_key(k) && (old(self).props@.contains_key(k)
                    ==> final(self).props@[k] == old(self).props@[k]),
            forall|q: u64|
                q != propname ==> #[trigger] plist_get(final(self).props@[symbol]@, q) == (
                if old(self).props@.contains_key(symbol) {
                    plist_get(old(self).props@[symbol]@, q)
                } else {
                    None
                }),
    {
        let rooted = RawObj { bits: value.bits };
        let has = self.props.contains_key(&symbol);
        if has {
            let plist = match self.props.get(&symbol) {
                Some(p) => p,
                None => vstd::pervasive::unreached(),
            };
            let n = plist.len();
            let mut i: usize = 0;
            let mut found: Option<usize> = None;
            while i < n
                invariant
                    n == plist@.len(),
                    0 <= i <= n,
                    match found {
                        Some(k) => k < i && plist@[k as int].0 == propname && (forall|j: int|
                            0 <= j < k ==> (#[trigger] plist@[j]).0 != propname),
                        None => forall|j: int| 0 <= j < i ==> (#[trigger] plist@[j]).0 != propname,
                    },
                decreases n - i,
            {
                match found {
                    Some(_) => {
                        i = n;
                    },
                    None => {
                        if plist[i].0 == propname {
                            found = Some(i);
                            proof {
                                assert(plist@[i as int].0 == propname);
                            }
                        }
                        i = i + 1;
                    },
                }
            }
            let mut updated: Vec<(u64, RawObj)> = Vec::new();
            let mut c: usize = 0;
            while c < n
                invariant
                    n == plist@.len(),
                    0 <= c <= n,
                    updated@ == plist@.take(c as int),
                decreases n - c,
            {
                let item = plist[c];
                updated.push(item);
                proof {
                    assert(updated@ =~= plist@.take(c as int + 1));
                }
                c = c + 1;
            }
            proof {
                assert(updated@ =~= plist@);
            }
            match found {
                Some(k) => {
                    updated[k] = (propname, rooted);
                    proof {
                        lemma_plist_get_update(plist@, k as int, propname, rooted);
                        assert forall|q: u64| q != propname implies #[trigger] plist_get(
                            updated@,
                            q,
                        ) == plist_get(plist@, q) by {
                            lemma_plist_get_other_update(plist@, k as int, propname, rooted, q);
                        }
                    }
                },
                None => {
                    updated.push((propname, rooted));
                    proof {
                        lemma_plist_get_push(plist@, propname, rooted);
                        assert forall|q: u64| q != propname implies #[trigger] plist_get(
                            updated@,
                            q,
                        ) == plist_get(plist@, q) by {
                            lemma_plist_get_other_push(plist@, propname, rooted, q);
                        }
                    }
                },
            }
            self.props.insert(symbol, updated);
        } else {
            let mut plist: Vec<(u64, RawObj)> = Vec::new();
            plist.push((propname, rooted));
            proof {
                lemma_plist_get_push(Seq::empty(), propname, rooted);
                assert(plist@ =~= Seq::<(u64, RawObj)>::empty().push((propname, rooted)));
                assert forall|q: u64| q != propname implies #[trigger] plist_get(plist@, q)
                    is None by {
                    assert(plist@[0] == (propname, rooted));
                    assert(plist@.drop_first() =~= Seq::<(u64, RawObj)>::empty());
                    assert(plist_get(Seq::<(u64, RawObj)>::empty(), q) is None);
                }
            }
            self.props.insert(symbol, plist);
        }
    }

    /// Read a property from a symbol's property list: the Lisp `get`;
    /// `nil` when absent.
    pub fn get_prop(&self, symbol: u64, propname: u64) -> (r: RawObj)
        ensures
            ({
                let expect = if self.props@.contains_key(symbol) {
                    plist_get(self.props@[symbol]@, propname)
                } else {
                    None
                };
                match expect {
                    Some(v) => r == v,
                    None => r.bits == 0,
                }
            }),
    {
        match self.props.get(&symbol) {
            Some(plist) => {
                proof {
                    assert(self.props@.contains_key(symbol));
                    assert(*plist == self.props@[symbol]);
                }
                let n = plist.len();
                let mut i: usize = 0;
                proof {
                    assert(plist@.skip(0) =~= plist@);
                }
                while i < n
                    invariant
                        n == plist@.len(),
                        0 <= i <= n,
                        self.props@.contains_key(symbol),
                        plist@ == self.props@[symbol]@,
                        forall|j: int| 0 <= j < i ==> (#[trigger] plist@[j]).0 != propname,
                        plist_get(plist@, propname) == plist_get(plist@.skip(i as int), propname),
                    decreases n - i,
                {
                    proof {
                        assert(plist@.skip(i as int)[0] == plist@[i as int]);
                        assert(plist@.skip(i as int).drop_first() =~= plist@.skip(i as int + 1));
                    }
                    if plist[i].0 == propname {
                        return plist[i].1;
                    }
                    i = i + 1;
                }
                proof {
                    assert(plist@.skip(n as int) =~= Seq::<(u64, RawObj)>::empty());
                }
                RawObj { bits: 0 }
            },
            None => RawObj { bits: 0 },
        }
    }

    /// Register a feature as provided.
    pub fn provide(&mut self, feature: u64) -> (r: u64)
        ensures
            r == feature,
            final(self).features@ == old(self).features@.push(feature),
    {
        self.features.push(feature);
        feature
    }
}

/// The value stored under a property name, searching left to right.
pub open spec fn plist_get(plist: Seq<(u64, RawObj)>, propname: u64) -> Option<RawObj>
    decreases plist.len(),
{
    if plist.len() == 0 {
        None
    } else if plist[0].0 == propname {
        Some(plist[0].1)
    } else {
        plist_get(plist.drop_first(), propname)
    }
}

proof fn lemma_plist_get_update(plist: Seq<(u64, RawObj)>, k: int, propname: u64, v: RawObj)
    requires
        0 <= k < plist.len(),
        plist[k].0 == propname,
        forall|j: int| 0 <= j < k ==> (#[trigger] plist[j]).0 != propname,
    ensures
        plist_get(plist.update(k, (propname, v)), propname) == Some(v),
    decreases k,
{
    let p2 = plist.update(k, (propname, v));
    if k == 0 {
        assert(p2[0] == (propname, v));
    } else {
        assert(p2[0] == plist[0]);
        assert(p2.drop_first() =~= plist.drop_first().update(k - 1, (propname, v)));
        assert(forall|j: int|
            0 <= j < k - 1 ==> (#[trigger] plist.drop_first()[j]).0 != propname);
        lemma_plist_get_update(plist.drop_first(), k - 1, propname, v);
    }
}

proof fn lemma_plist_get_other_update(
    plist: Seq<(u64, RawObj)>,
    k: int,
    propname: u64,
    v: RawObj,
    q: u64,
)
    requires
        0 <= k < plist.len(),
        plist[k].0 == propname,
        q != propname,
    ensures
        plist_get(plist.update(k, (propname, v)), q) == plist_get(plist, q),
    decreases k,
{
    let p2 = plist.update(k, (propname, v));
    if k == 0 {
        assert(p2[0] == (propname, v));
        assert(p2.drop_first() =~= plist.drop_first());
    } else {
        assert(p2[0] == plist[0]);
        assert(p2.drop_first() =~= plist.drop_first().update(k - 1, (propname, v)));
        lemma_plist_get_other_update(plist.drop_first(), k - 1, propname, v, q);
    }
}

proof fn lemma_plist_get_other_push(plist: Seq<(u64, RawObj)>, propname: u64, v: RawObj, q: u64)
    requires
        q != propname,
    ensures
        plist_get(plist.push((propname, v)), q) == plist_get(plist, q),
    decreases plist.len(),
{
    let p2 = plist.push((propname, v));
    if plist.len() == 0 {
        assert(p2[0] == (propname, v));
        assert(p2.drop_first() =~= Seq::<(u64, RawObj)>::empty());
        assert(plist_get(Seq::<(u64, RawObj)>::empty(), q) is None);
        assert(plist_get(p2, q) is None);
        assert(plist_get(plist, q) is None);
    } else {
        assert(p2[0] == plist[0]);
        assert(p2.drop_first() =~= plist.drop_first().push((propname, v)));
        lemma_plist_get_other_push(plist.drop_first(), propname, v, q);
    }
}

proof fn lemma_plist_get_push(plist: Seq<(u64, RawObj)>, propname: u64, v: RawObj)
    requires
        forall|j: int| 0 <= j < plist.len() ==> (#[trigger] plist[j]).0 != propname,
    ensures
        plist_get(plist.push((propname, v)), propname) == Some(v),
    decreases plist.len(),
{
    let p2 = plist.push((propname, v));
    if plist.len() == 0 {
        assert(p2[0] == (propname, v));
    } else {
        assert(p2[0] == plist[0]);
        assert(p2.drop_first() =~= plist.drop_first().push((propname, v)));
        assert(forall|j: int|
            0 <= j < plist.drop_first().len() ==> (#[trigger] plist.drop_first()[j]).0
                != propname);
        lemma_plist_get_push(plist.drop_first(), propname, v);
    }
}

/// Identity: the Lisp `eq`.
pub fn eq(obj1: Gc, obj2: Gc) -> (r: bool)
    ensures
        r == (obj1.bits == obj2.bits),
{
    obj1.ptr_eq(obj2)
}

/// Whether a value is `nil`: the Lisp `null`.
pub fn null(obj: Gc) -> (r: bool)
    ensures
        r == (obj.bits == 0),
{
    obj.is_nil()
}

/// Whether a value is a list: `nil` or a cons.
pub fn listp(object: Gc) -> (r: bool)
    requires
        wf_handle(object),
    ensures
        r == (object.bits == 0 || spec_untag(object) is Cons),
{
    object.is_nil() || matches!(object.untag(), ObjectType::Cons(_))
}

/// Whether a value is not a list.
pub fn nlistp(object: Gc) -> (r: bool)
    requires
        wf_handle(object),
    ensures
        r == !(object.bits == 0 || spec_untag(object) is Cons),
{
    !listp(object)
}

/// Whether a value is a symbol.
pub fn symbolp(object: Gc) -> (r: bool)
    requires
        wf_handle(object),
    ensures
        r == (spec_untag(object) is Symbol),
{
    matches!(object.untag(), ObjectType::Symbol(_))
}

/// Whether a value is a function body: bytecode or builtin.
pub fn functionp(object: Gc) -> (r: bool)
    requires
        wf_handle(object),
    ensures
        r == (spec_untag(object) is ByteFn || spec_untag(object) is SubrFn),
{
    matches!(object.untag(), ObjectType::ByteFn(_) | ObjectType::SubrFn(_))
}

/// Whether a value is a string.
pub fn stringp(object: Gc) -> (r: bool)
    requires
        wf_handle(object),
    ensures
        r == (spec_untag(object) is String),
{
    matches!(object.untag(), ObjectType::String(_))
}

/// Whether a value is a number: a fixnum or a float.
pub fn numberp(object: Gc) -> (r: bool)
    requires
        wf_handle(object),
    ensures
        r == (spec_untag(object) is Int || spec_untag(object) is Float),
{
    matches!(object.untag(), ObjectType::Int(_) | ObjectType::Float(_))
}

/// Whether a value is a vector.
pub fn vectorp(object: Gc) -> (r: bool)
    requires
        wf_handle(object),
    ensures
        r == (spec_untag(object) is Vec),
{
    matches!(object.untag(), ObjectType::Vec(_))
}

/// Whether a value is a cons.
pub fn consp(object: Gc) -> (r: bool)
    requires
        wf_handle(object),
    ensures
        r == (spec_untag(object) is Cons),
{
    matches!(object.untag(), ObjectType::Cons(_))
}

/// Whether a value is an atom: anything but a cons.
pub fn atom(object: Gc) -> (r: bool)
    requires
        wf_handle(object),
    ensures
        r == !(spec_untag(object) is Cons),
{
    !consp(object)
}

/// Buffer-local variables are not modelled: the declaration is accepted
/// and the symbol handed back.
pub fn make_variable_buffer_local(variable: u64) -> (r: u64)
    ensures
        r == variable,
{
    variable
}

/// What chasing a value through the symbols' function cells reaches with
/// the given budget: a non-symbol is itself; a symbol is resolved through
/// its function cell; an unbound or out-of-table symbol, a malformed
/// cell, or an exhausted budget resolves to `nil`.
pub open spec fn resolve_spec(cells: Seq<SymbolCell>, h: Gc, fuel: nat) -> Gc
    decreases fuel,
{
    if fuel == 0 {
        Gc { bits: 0 }
    } else {
        match spec_untag(h) {
            ObjectType::Symbol(s) => {
                if s < cells.len() {
                    match cells[s as int].func {
                        Some(f) => {
                            if f.bits & 0xff <= 11 {
                                resolve_spec(cells, Gc { bits: f.bits }, (fuel - 1) as nat)
                            } else {
                                Gc { bits: 0 }
                            }
                        },
                        None => Gc { bits: 0 },
                    }
                } else {
                    Gc { bits: 0 }
                }
            },
            _ => h,
        }
    }
}

/// Resolve a value to a callable: a symbol is chased through its function
/// cell, other values are handed back unchanged. A chase as long as the
/// symbol table is necessarily circular and is cut short at `nil`.
pub fn indirect_function(st: &SymbolTable, object: Gc) -> (r: Gc)
    requires
        wf_handle(object),
        forall|i: int|
            0 <= i < st.cells@.len() ==> match (#[trigger] st.cells@[i]).func {
                Some(f) => f.bits & 0xff <= 11,
                None => true,
            },
    ensures
        wf_handle(r),
        r == resolve_spec(st.cells@, object, st.cells@.len() as nat),
{
    let mut cur = object;
    let fuel = st.cells.len();
    let mut steps: usize = 0;
    while steps < fuel
        invariant
            wf_handle(cur),
            fuel == st.cells@.len(),
            0 <= steps <= fuel,
            resolve_spec(st.cells@, object, fuel as nat) == resolve_spec(
                st.cells@,
                cur,
                (fuel - steps) as nat,
            ),
            forall|i: int|
                0 <= i < st.cells@.len() ==> match (#[trigger] st.cells@[i]).func {
                    Some(f) => f.bits & 0xff <= 11,
                    None => true,
                },
        decreases fuel - steps,
    {
        match cur.untag() {
            ObjectType::Symbol(s) => {
                if s < st.cells.len() as u64 {
                    match &st.cells[s as usize].func {
                        Some(f) => {
                            cur = Gc { bits: f.bits };
                        },
                        None => {
                            return Gc::nil();
                        },
                    }
                } else {
                    return Gc::nil();
                }
            },
            _ => {
                return cur;
            },
        }
        steps = steps + 1;
    }
    Gc::nil()
}

} // verus!
