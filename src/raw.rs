//! The records a loader hands over for one analysed unit.
use vstd::prelude::*;
use crate::span::Span;

verus! {

/// The category of a definition.
#[derive(Clone, Copy, Debug, PartialEq, Eq, Structural, Hash)]
pub enum DefKind {
    Function,
    Struct,
    Enum,
    Trait,
    TraitMethod,
    Method,
    Mod,
    Static,
    Const,
    Local,
    Field,
    Variant,
    TypeAlias,
    Union,
    Macro,
}

/// How a reference uses its target; informational only.
#[derive(Clone, Copy, Debug, PartialEq, Eq, Structural, Hash)]
pub enum RefKind {
    Read,
    Write,
    Call,
}

/// A definition named by the unit that holds it and its id inside that unit.
#[derive(Clone, Debug, PartialEq, Eq)]
pub struct RawId {
    pub krate: String,
    pub index: u32,
}

/// A definition as recorded in one unit; `id` and `parent` are local to it.
#[derive(Clone, Debug, PartialEq, Eq)]
pub struct RawDef {
    pub id: u32,
    pub kind: DefKind,
    pub name: String,
    pub qualname: String,
    pub span: Span,
    pub parent: Option<u32>,
    pub docs: String,
}

/// A reference as recorded in one unit.
#[derive(Clone, Debug, PartialEq, Eq)]
pub struct RawRef {
    pub kind: RefKind,
    pub span: Span,
    pub target: Option<RawId>,
}

/// The records of one analysed unit, with the location they were read from.
#[derive(Clone, Debug, PartialEq, Eq)]
pub struct RawCrate {
    pub name: String,
    pub path: String,
    pub defs: Vec<RawDef>,
    pub refs: Vec<RawRef>,
}

/// No two definitions of the unit share a local id.
pub open spec fn unit_valid(u: RawCrate) -> bool {
    forall|j: int, k: int|
        0 <= j < k < u.defs@.len() ==> #[trigger] u.defs@[j].id != #[trigger] u.defs@[k].id
}

/// Whether the unit defines the local id `index`.
pub open spec fn defines(u: RawCrate, index: u32) -> bool {
    exists|j: int| 0 <= j < u.defs@.len() && #[trigger] u.defs@[j].id == index
}

/// Checks that no two definitions of the unit share a local id.
pub fn check_unit(u: &RawCrate) -> (r: bool)
    ensures
        r == unit_valid(*u),
{
    let n = u.defs.len();
    let mut k: usize = 0;
    while k < n
        invariant
            n == u.defs@.len(),
            k <= n,
            forall|a: int, b: int|
                0 <= a < b < k ==> #[trigger] u.defs@[a].id != #[trigger] u.defs@[b].id,
        decreases n - k,
    {
        let mut j: usize = 0;
        while j < k
            invariant
                n == u.defs@.len(),
                j <= k < n,
                forall|a: int, b: int|
                    0 <= a < b < k ==> #[trigger] u.defs@[a].id != #[trigger] u.defs@[b].id,
                forall|a: int| 0 <= a < j ==> #[trigger] u.defs@[a].id != u.defs@[k as int].id,
            decreases k - j,
        {
            if u.defs[j].id == u.defs[k].id {
                return false;
            }
            j = j + 1;
        }
        k = k + 1;
    }
    true
}

/// Checks whether the unit defines the local id `index`.
pub fn unit_defines(u: &RawCrate, index: u32) -> (r: bool)
    ensures
        r == defines(*u, index),
{
    let n = u.defs.len();
    let mut j: usize = 0;
    while j < n
        invariant
            n == u.defs@.len(),
            j <= n,
            forall|a: int| 0 <= a < j ==> #[trigger] u.defs@[a].id != index,
        decreases n - j,
    {
        if u.defs[j].id == index {
            return true;
        }
        j = j + 1;
    }
    false
}

} // verus!
