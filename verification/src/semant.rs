//! The symbol table: global and local variable slots, function metadata and
//! class metadata, shared and mutated in place by the parser and the
//! emitter. Bindings are kept as ordered association lists where a later
//! entry for the same name shadows an earlier one, which gives the lookup
//! the overwrite semantics of a map while keeping declaration order
//! available to the contracts.
use vstd::prelude::*;

verus! {

/// Metadata of one function: its (mangled) name and its bytecode entry
/// address, 0 as a placeholder until the emitter lays the body down.
pub struct FunctionInfo {
    pub name: String,
    pub address: u32,
}

/// Metadata of one class: field slot indices and method names. The class
/// registry is never written by this compiler: the parser keeps fields and
/// methods in the syntax tree (methods as mangled functions), and the
/// emitter lowers no class constructs, so `classes` stays empty for the
/// whole compilation. The type is kept as the registry's declared shape.
pub struct ClassInfo {
    pub name: String,
    pub fields: Vec<(String, u32)>,
    pub methods: Vec<String>,
}

/// One binding environment per compilation.
pub struct SymbolTable {
    pub functions: Vec<FunctionInfo>,
    /// Class metadata; see `ClassInfo`: registered by nothing, always empty.
    pub classes: Vec<ClassInfo>,
    /// Global variable slots, in declaration order.
    pub variables: Vec<(String, u32)>,
    /// Local slots of the function currently being parsed or emitted.
    pub locals: Vec<(String, u32)>,
    pub next_var_index: u32,
    pub next_local_index: u32,
}

/// Ghost mirror of `ClassInfo`.
#[verifier::ext_equal]
pub ghost struct ClassV {
    pub name: Seq<char>,
    pub fields: Seq<(Seq<char>, u32)>,
    pub methods: Seq<Seq<char>>,
}

/// Ghost mirror of `SymbolTable`: every binding list as name views paired
/// with slot indices or addresses.
#[verifier::ext_equal]
pub ghost struct SymV {
    pub functions: Seq<(Seq<char>, u32)>,
    pub classes: Seq<ClassV>,
    pub variables: Seq<(Seq<char>, u32)>,
    pub locals: Seq<(Seq<char>, u32)>,
    pub next_var: u32,
    pub next_local: u32,
}

pub open spec fn pairs_view(v: Seq<(String, u32)>) -> Seq<(Seq<char>, u32)> {
    v.map_values(|p: (String, u32)| (p.0@, p.1))
}

pub open spec fn fns_view(v: Seq<FunctionInfo>) -> Seq<(Seq<char>, u32)> {
    v.map_values(|f: FunctionInfo| (f.name@, f.address))
}

pub open spec fn classes_view(v: Seq<ClassInfo>) -> Seq<ClassV> {
    v.map_values(
        |c: ClassInfo| ClassV {
            name: c.name@,
            fields: pairs_view(c.fields@),
            methods: c.methods@.map_values(|m: String| m@),
        },
    )
}

impl View for SymbolTable {
    type V = SymV;

    open spec fn view(&self) -> SymV {
        SymV {
            functions: fns_view(self.functions@),
            classes: classes_view(self.classes@),
            variables: pairs_view(self.variables@),
            locals: pairs_view(self.locals@),
            next_var: self.next_var_index,
            next_local: self.next_local_index,
        }
    }
}

/// The binding of `k` in an association list where the latest entry wins,
/// mirroring insertion into a map.
pub open spec fn lookup(s: Seq<(Seq<char>, u32)>, k: Seq<char>) -> Option<u32>
    decreases s.len(),
{
    if s.len() == 0 {
        None
    } else if s.last().0 == k {
        Some(s.last().1)
    } else {
        lookup(s.drop_last(), k)
    }
}

/// The list after overwriting the latest binding of `k` with `a`; unchanged
/// if `k` is unbound.
pub open spec fn set_addr(s: Seq<(Seq<char>, u32)>, k: Seq<char>, a: u32) -> Seq<(Seq<char>, u32)>
    decreases s.len(),
{
    if s.len() == 0 {
        s
    } else if s.last().0 == k {
        s.update(s.len() - 1, (k, a))
    } else {
        set_addr(s.drop_last(), k, a).push(s.last())
    }
}

impl SymbolTable {
    /// An empty table: no bindings, slot counters at zero.
    pub fn new() -> (r: SymbolTable)
        ensures
            r@ == (SymV {
                functions: Seq::<(Seq<char>, u32)>::empty(),
                classes: Seq::<ClassV>::empty(),
                variables: Seq::<(Seq<char>, u32)>::empty(),
                locals: Seq::<(Seq<char>, u32)>::empty(),
                next_var: 0u32,
                next_local: 0u32,
            }),
    {
        let r = SymbolTable {
            functions: Vec::new(),
            classes: Vec::new(),
            variables: Vec::new(),
            locals: Vec::new(),
            next_var_index: 0,
            next_local_index: 0,
        };
        assert(fns_view(r.functions@) =~= Seq::<(Seq<char>, u32)>::empty());
        assert(classes_view(r.classes@) =~= Seq::<ClassV>::empty());
        assert(pairs_view(r.variables@) =~= Seq::<(Seq<char>, u32)>::empty());
        r
    }
}

/// Finds the latest binding of `name` in a slot list.
pub fn lookup_pairs(v: &Vec<(String, u32)>, name: &String) -> (r: Option<u32>)
    ensures
        r == lookup(pairs_view(v@), name@),
{
    let ghost pv = pairs_view(v@);
    assert(pv.subrange(0, pv.len() as int) =~= pv);
    let mut i: usize = v.len();
    while i > 0
        invariant
            i <= v.len(),
            pv == pairs_view(v@),
            pv.len() == v.len(),
            lookup(pv, name@) == lookup(pv.subrange(0, i as int), name@),
        decreases i,
    {
        i = i - 1;
        assert(pv.subrange(0, i + 1).last() == pv[i as int]);
        assert(pv.subrange(0, i + 1).drop_last() =~= pv.subrange(0, i as int));
        if v[i].0 == *name {
            assert(pv[i as int] == (v@[i as int].0@, v@[i as int].1));
            return Some(v[i].1);
        }
        assert(pv[i as int] == (v@[i as int].0@, v@[i as int].1));
    }
    assert(pv.subrange(0, 0) =~= Seq::<(Seq<char>, u32)>::empty());
    None
}

/// Finds the latest registered address of function `name`.
pub fn lookup_function(v: &Vec<FunctionInfo>, name: &String) -> (r: Option<u32>)
    ensures
        r == lookup(fns_view(v@), name@),
{
    let ghost pv = fns_view(v@);
    assert(pv.subrange(0, pv.len() as int) =~= pv);
    let mut i: usize = v.len();
    while i > 0
        invariant
            i <= v.len(),
            pv == fns_view(v@),
            pv.len() == v.len(),
            lookup(pv, name@) == lookup(pv.subrange(0, i as int), name@),
        decreases i,
    {
        i = i - 1;
        assert(pv.subrange(0, i + 1).last() == pv[i as int]);
        assert(pv.subrange(0, i + 1).drop_last() =~= pv.subrange(0, i as int));
        if v[i].name == *name {
            assert(pv[i as int] == (v@[i as int].name@, v@[i as int].address));
            return Some(v[i].address);
        }
        assert(pv[i as int] == (v@[i as int].name@, v@[i as int].address));
    }
    assert(pv.subrange(0, 0) =~= Seq::<(Seq<char>, u32)>::empty());
    None
}

/// Overwrites the latest registered address of function `name`; leaves the
/// list unchanged if `name` is not registered.
pub fn set_function_addr(v: &mut Vec<FunctionInfo>, name: &String, addr: u32)
    ensures
        fns_view(final(v)@) == set_addr(fns_view(old(v)@), name@, addr),
{
    let ghost pv = fns_view(v@);
    assert(pv.subrange(0, pv.len() as int) =~= pv);
    let mut i: usize = v.len();
    while i > 0
        invariant
            i <= v.len(),
            v@ == old(v)@,
            pv == fns_view(v@),
            pv.len() == v.len(),
            set_addr(pv, name@, addr) == set_addr(pv.subrange(0, i as int), name@, addr)
                + pv.subrange(i as int, pv.len() as int),
        decreases i,
    {
        i = i - 1;
        assert(pv.subrange(0, i + 1).last() == pv[i as int]);
        assert(pv.subrange(0, i + 1).drop_last() =~= pv.subrange(0, i as int));
        if v[i].name == *name {
            assert(pv[i as int] == (v@[i as int].name@, v@[i as int].address));
            let nm = v[i].name.clone();
            v[i] = FunctionInfo { name: nm, address: addr };
            assert(set_addr(pv.subrange(0, i + 1), name@, addr) == pv.subrange(0, i + 1).update(
                i as int,
                (name@, addr),
            ));
            assert(fns_view(v@) =~= set_addr(pv.subrange(0, i + 1), name@, addr) + pv.subrange(
                i + 1,
                pv.len() as int,
            ));
            return ;
        }
        assert(pv[i as int] == (v@[i as int].name@, v@[i as int].address));
        assert(set_addr(pv.subrange(0, i as int), name@, addr) + (pv.subrange(
            i as int,
            pv.len() as int,
        )) =~= (set_addr(pv.subrange(0, i as int), name@, addr).push(pv[i as int])) + pv.subrange(
            i + 1,
            pv.len() as int,
        ));
    }
    assert(pv.subrange(0, 0) =~= Seq::<(Seq<char>, u32)>::empty());
    assert(set_addr(pv, name@, addr) =~= fns_view(v@));
}

/// A name bound in the local list resolves there even when the same name is
/// also a global: lookup consults the local scope first.
pub open spec fn resolve(locals: Seq<(Seq<char>, u32)>, globals: Seq<(Seq<char>, u32)>, k: Seq<char>)
    -> Option<(bool, u32)> {
    match lookup(locals, k) {
        Some(ix) => Some((true, ix)),
        None => match lookup(globals, k) {
            Some(ix) => Some((false, ix)),
            None => None,
        },
    }
}

} // verus!
