//! The unified index: definitions with global ids and references with
//! resolved targets, built from the loaded units.
use vstd::prelude::*;
use crate::raw::{DefKind, RawCrate, RawDef, RawId, RawRef, RefKind, defines, unit_defines};
use crate::span::Span;

verus! {

/// A definition's global id: the number of its unit, and its id inside that
/// unit. A unit's number is the place of its name in the host's registry of
/// unit names, which only grows, so a unit keeps its number across reloads.
#[derive(Clone, Copy, Debug, PartialEq, Eq, Structural, Hash)]
pub struct Id {
    pub krate: u32,
    pub index: u32,
}

/// A definition with its global id.
#[derive(Clone, Debug, PartialEq, Eq)]
pub struct Def {
    pub id: Id,
    pub kind: DefKind,
    pub name: String,
    pub qualname: String,
    pub span: Span,
    pub parent: Option<Id>,
    pub docs: String,
}

/// A reference whose target, if any, is a global id.
#[derive(Clone, Debug, PartialEq, Eq)]
pub struct Ref {
    pub kind: RefKind,
    pub span: Span,
    pub target: Option<Id>,
}

/// All definitions and references of the loaded units.
#[derive(Clone, Debug)]
pub struct Index {
    pub defs: Vec<Def>,
    pub refs: Vec<Ref>,
}

/// The most unit names a registry can hold: each needs a distinct `u32`.
pub const MAX_UNITS: usize = 4294967295;

/// The place of `name` in the registry `reg`, searching from `from`; -1
/// where it is not registered.
pub open spec fn name_pos(reg: Seq<String>, name: Seq<char>, from: int) -> int
    decreases reg.len() - from,
{
    if from < 0 || from >= reg.len() {
        -1
    } else if reg[from]@ == name {
        from
    } else {
        name_pos(reg, name, from + 1)
    }
}

/// The number of the unit called `name`.
pub open spec fn unit_number(reg: Seq<String>, name: Seq<char>) -> u32 {
    name_pos(reg, name, 0) as u32
}

/// Every unit's name is registered.
pub open spec fn all_registered(reg: Seq<String>, units: Seq<RawCrate>) -> bool {
    forall|k: int| 0 <= k < units.len() ==> name_pos(reg, #[trigger] units[k].name@, 0) >= 0
}

/// The definition of the unit numbered `k` with its ids made global.
pub open spec fn lift_def(k: u32, d: RawDef) -> Def {
    Def {
        id: Id { krate: k, index: d.id },
        kind: d.kind,
        name: d.name,
        qualname: d.qualname,
        span: d.span,
        parent: match d.parent {
            Some(p) => Some(Id { krate: k, index: p }),
            None => None,
        },
        docs: d.docs,
    }
}

/// The position of the first unit called `name` at or after `from`, or -1.
pub open spec fn unit_named(units: Seq<RawCrate>, name: Seq<char>, from: int) -> int
    decreases units.len() - from,
{
    if from < 0 || from >= units.len() {
        -1
    } else if units[from].name@ == name {
        from
    } else {
        unit_named(units, name, from + 1)
    }
}

/// The global id a raw target stands for: the first unit of its name, if
/// that unit defines the local id.
pub open spec fn resolve(units: Seq<RawCrate>, reg: Seq<String>, target: Option<RawId>) -> Option<Id> {
    match target {
        None => None,
        Some(t) => {
            let k = unit_named(units, t.krate@, 0);
            if k >= 0 && defines(units[k], t.index) {
                Some(Id { krate: unit_number(reg, t.krate@), index: t.index })
            } else {
                None
            }
        },
    }
}

pub open spec fn lift_ref(units: Seq<RawCrate>, reg: Seq<String>, r: RawRef) -> Ref {
    Ref { kind: r.kind, span: r.span, target: resolve(units, reg, r.target) }
}

/// The definitions of the first `n` units, unit by unit, each in its own order.
pub open spec fn defs_upto(units: Seq<RawCrate>, reg: Seq<String>, n: int) -> Seq<Def>
    decreases n,
{
    if n <= 0 {
        Seq::empty()
    } else {
        defs_upto(units, reg, n - 1) + units[n - 1].defs@.map_values(
            |d: RawDef| lift_def(unit_number(reg, units[n - 1].name@), d),
        )
    }
}

/// The references of the first `n` units, resolved against all of them.
pub open spec fn refs_upto(units: Seq<RawCrate>, reg: Seq<String>, n: int) -> Seq<Ref>
    decreases n,
{
    if n <= 0 {
        Seq::empty()
    } else {
        refs_upto(units, reg, n - 1) + units[n - 1].refs@.map_values(
            |r: RawRef| lift_ref(units, reg, r),
        )
    }
}

/// What the index built from `units`, numbered by `reg`, holds.
pub open spec fn built(units: Seq<RawCrate>, reg: Seq<String>, idx: Index) -> bool {
    idx.defs@ == defs_upto(units, reg, units.len() as int) && idx.refs@ == refs_upto(
        units,
        reg,
        units.len() as int,
    )
}

/// Finds the place of `name` in the registry.
pub fn find_name(reg: &Vec<String>, name: &String) -> (r: Option<usize>)
    ensures
        r matches Some(k) ==> k < reg@.len() && k as int == name_pos(reg@, name@, 0),
        r is None ==> name_pos(reg@, name@, 0) == -1,
{
    let n = reg.len();
    let mut i: usize = 0;
    while i < n
        invariant
            n == reg@.len(),
            i <= n,
            name_pos(reg@, name@, 0) == name_pos(reg@, name@, i as int),
        decreases n - i,
    {
        if reg[i] == *name {
            return Some(i);
        }
        i = i + 1;
    }
    None
}

/// The number of a registered unit name.
fn number_of(reg: &Vec<String>, name: &String) -> (r: u32)
    requires
        reg@.len() <= MAX_UNITS,
        name_pos(reg@, name@, 0) >= 0,
    ensures
        r == unit_number(reg@, name@),
{
    match find_name(reg, name) {
        Some(k) => k as u32,
        None => 0,
    }
}

fn lift_option(k: u32, p: Option<u32>) -> (r: Option<Id>)
    ensures
        r == (match p {
            Some(p) => Some(Id { krate: k, index: p }),
            None => None::<Id>,
        }),
{
    match p {
        Some(p) => Some(Id { krate: k, index: p }),
        None => None,
    }
}

pub proof fn lemma_unit_named(units: Seq<RawCrate>, name: Seq<char>, from: int)
    ensures
        unit_named(units, name, from) >= 0 ==> from <= unit_named(units, name, from) < units.len()
            && units[unit_named(units, name, from)].name@ == name,
    decreases units.len() - from,
{
    if 0 <= from < units.len() && units[from].name@ != name {
        lemma_unit_named(units, name, from + 1);
    }
}

/// Where a name is registered, the registry holds it there.
pub proof fn lemma_name_pos(reg: Seq<String>, name: Seq<char>, from: int)
    ensures
        name_pos(reg, name, from) >= 0 ==> from <= name_pos(reg, name, from) < reg.len()
            && reg[name_pos(reg, name, from)]@ == name,
    decreases reg.len() - from,
{
    if 0 <= from < reg.len() && reg[from]@ != name {
        lemma_name_pos(reg, name, from + 1);
    }
}

/// Finds the first unit called `name`.
pub fn find_unit(units: &Vec<RawCrate>, name: &String) -> (r: Option<usize>)
    ensures
        r matches Some(k) ==> k < units@.len() && k as int == unit_named(units@, name@, 0),
        r is None ==> unit_named(units@, name@, 0) == -1,
{
    let n = units.len();
    let mut i: usize = 0;
    while i < n
        invariant
            n == units@.len(),
            i <= n,
            unit_named(units@, name@, 0) == unit_named(units@, name@, i as int),
        decreases n - i,
    {
        if units[i].name == *name {
            return Some(i);
        }
        i = i + 1;
    }
    None
}

/// Resolves a raw target against the loaded units.
pub fn resolve_target(units: &Vec<RawCrate>, reg: &Vec<String>, target: &Option<RawId>) -> (r: Option<Id>)
    requires
        reg@.len() <= MAX_UNITS,
        all_registered(reg@, units@),
    ensures
        r == resolve(units@, reg@, *target),
{
    match target {
        None => None,
        Some(t) => match find_unit(units, &t.krate) {
            None => None,
            Some(k) => {
                if unit_defines(&units[k], t.index) {
                    proof {
                        lemma_unit_named(units@, t.krate@, 0);
                    }
                    assert(name_pos(reg@, units@[k as int].name@, 0) >= 0);
                    Some(Id { krate: number_of(reg, &t.krate), index: t.index })
                } else {
                    None
                }
            },
        },
    }
}

/// Builds the index of the given units.
pub fn build_index(units: &Vec<RawCrate>, reg: &Vec<String>) -> (r: Index)
    requires
        reg@.len() <= MAX_UNITS,
        all_registered(reg@, units@),
    ensures
        built(units@, reg@, r),
{
    let n = units.len();
    let mut defs: Vec<Def> = Vec::new();
    let mut refs: Vec<Ref> = Vec::new();
    let mut k: usize = 0;
    while k < n
        invariant
            n == units@.len(),
            reg@.len() <= MAX_UNITS,
            all_registered(reg@, units@),
            k <= n,
            defs@ == defs_upto(units@, reg@, k as int),
            refs@ == refs_upto(units@, reg@, k as int),
        decreases n - k,
    {
        let u = &units[k];
        let ghost base_defs = defs@;
        let ghost base_refs = refs@;
        assert(name_pos(reg@, units@[k as int].name@, 0) >= 0);
        let num = number_of(reg, &u.name);
        let ghost ud = u.defs@.map_values(|d: RawDef| lift_def(num, d));
        let ghost ur = u.refs@.map_values(|r: RawRef| lift_ref(units@, reg@, r));
        let mut j: usize = 0;
        while j < u.defs.len()
            invariant
                u == units@[k as int],
                k < n,
                j <= u.defs@.len(),
                num == unit_number(reg@, units@[k as int].name@),
                ud == u.defs@.map_values(|d: RawDef| lift_def(num, d)),
                defs@ == base_defs + ud.take(j as int),
            decreases u.defs@.len() - j,
        {
            let d = &u.defs[j];
            let def = Def {
                id: Id { krate: num, index: d.id },
                kind: d.kind,
                name: d.name.clone(),
                qualname: d.qualname.clone(),
                span: d.span.duplicate(),
                parent: lift_option(num, d.parent),
                docs: d.docs.clone(),
            };
            defs.push(def);
            assert(ud.take(j + 1) =~= ud.take(j as int).push(def));
            j = j + 1;
        }
        assert(ud.take(j as int) =~= ud);
        let mut j: usize = 0;
        while j < u.refs.len()
            invariant
                u == units@[k as int],
                n == units@.len(),
                reg@.len() <= MAX_UNITS,
                all_registered(reg@, units@),
                k < n,
                j <= u.refs@.len(),
                ur == u.refs@.map_values(|r: RawRef| lift_ref(units@, reg@, r)),
                refs@ == base_refs + ur.take(j as int),
            decreases u.refs@.len() - j,
        {
            let r = &u.refs[j];
            let lifted = Ref {
                kind: r.kind,
                span: r.span.duplicate(),
                target: resolve_target(units, reg, &r.target),
            };
            refs.push(lifted);
            assert(ur.take(j + 1) =~= ur.take(j as int).push(lifted));
            j = j + 1;
        }
        assert(ur.take(j as int) =~= ur);
        k = k + 1;
    }
    Index { defs, refs }
}

} // verus!
