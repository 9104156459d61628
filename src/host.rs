//! The analysis host: owns the index, replaces it on reload, answers queries.
use vstd::prelude::*;
use crate::docs::{DocUrlError, doc_url_of, resolve_doc_url};
use crate::index::{Def, Id, Index, MAX_UNITS, build_index, built, lift_def, name_pos, unit_number, all_registered, find_name};
use crate::query::{def_of, ids_named, refs_of, search_result, uses_of, lemma_ids_unique, lemma_unit_defs_found, lemma_targets_loaded};
use crate::raw::{RawCrate, check_unit, unit_valid};
use crate::span::{Span, same_site, spans_sorted, text_equal};

verus! {

/// Why a query could not be answered.
#[derive(Clone, Copy, Debug, PartialEq, Eq, Structural)]
pub enum LookupError {
    /// No definition has the requested id.
    NotFound,
    /// No reload has succeeded yet.
    NoIndexLoaded,
}

/// Why a reload was refused; the previous index stays in place.
#[derive(Clone, Copy, Debug, PartialEq, Eq, Structural)]
pub enum ReloadError {
    /// The loader could not read or parse the snapshots.
    Loader,
    /// Two definitions of one unit share a local id.
    DuplicateId,
    /// Two loaded units would share a name.
    DuplicateUnit,
    /// The registry of unit names has no room for the new names.
    TooManyUnits,
}

/// Owns the loaded units, the registry that numbers them by name, and the
/// index built from them.
#[derive(Clone)]
pub struct AnalysisHost {
    units: Vec<RawCrate>,
    names: Vec<String>,
    index: Option<Index>,
}

/// The registry after registering the names of `fresh` that it lacks, in
/// order.
pub open spec fn register(reg: Seq<String>, fresh: Seq<RawCrate>) -> Seq<String>
    decreases fresh.len(),
{
    if fresh.len() == 0 {
        reg
    } else if name_pos(register(reg, fresh.drop_last()), fresh.last().name@, 0) >= 0 {
        register(reg, fresh.drop_last())
    } else {
        register(reg, fresh.drop_last()).push(fresh.last().name)
    }
}

/// No two units share a name.
pub open spec fn names_distinct(units: Seq<RawCrate>) -> bool {
    forall|i: int, j: int|
        0 <= i < j < units.len() ==> #[trigger] units[i].name@ != #[trigger] units[j].name@
}

/// Whether `path` lies under `prefix`.
pub open spec fn under(prefix: Seq<char>, path: Seq<char>) -> bool {
    prefix.len() <= path.len() && path.take(prefix.len() as int) == prefix
}

/// The units that a reload of `prefix` leaves alone, in their order.
pub open spec fn kept_units(units: Seq<RawCrate>, prefix: Seq<char>) -> Seq<RawCrate>
    decreases units.len(),
{
    if units.len() == 0 {
        units
    } else if under(prefix, units.last().path@) {
        kept_units(units.drop_last(), prefix)
    } else {
        kept_units(units.drop_last(), prefix).push(units.last())
    }
}

/// The units after reloading `prefix` with `fresh`: a hard reload keeps
/// nothing else, a merge keeps the units read from elsewhere, ahead of the
/// fresh ones.
pub open spec fn next_units(
    units: Seq<RawCrate>,
    prefix: Seq<char>,
    hard: bool,
    fresh: Seq<RawCrate>,
) -> Seq<RawCrate> {
    if hard {
        fresh
    } else {
        kept_units(units, prefix) + fresh
    }
}

pub open spec fn all_valid(units: Seq<RawCrate>) -> bool {
    forall|k: int| 0 <= k < units.len() ==> unit_valid(#[trigger] units[k])
}

/// The position of the first definition at `span`, searching from `from`;
/// -1 where there is none.
pub open spec fn site_pos(defs: Seq<Def>, span: Span, from: int) -> int
    decreases defs.len() - from,
{
    if from < 0 || from >= defs.len() {
        -1
    } else if same_site(defs[from].span, span) {
        from
    } else {
        site_pos(defs, span, from + 1)
    }
}

/// The definition that `d`'s back-reference points at, if it is loaded.
pub open spec fn parent_of(defs: Seq<Def>, d: Def) -> Option<Def> {
    match d.parent {
        Some(p) => def_of(defs, p),
        None => None,
    }
}

/// The documentation URL of `d`, along its loaded parent chain.
pub open spec fn url_in(idx: Index, d: Def) -> Option<Seq<char>> {
    let p = parent_of(idx.defs@, d);
    doc_url_of(
        d,
        p,
        match p {
            Some(q) => parent_of(idx.defs@, q),
            None => None,
        },
    )
}

/// The answer owed for the documentation URL of `d`.
pub open spec fn url_answer(idx: Index, d: Def, r: Result<String, DocUrlError>) -> bool {
    match url_in(idx, d) {
        Some(u) => r matches Ok(s) && s@ == u,
        None => r == Err::<String, DocUrlError>(DocUrlError::Unsupported),
    }
}

/// The answer owed for the documentation URL of what is defined at `span`.
pub open spec fn doc_url_answer(
    index: Option<Index>,
    span: Span,
    r: Result<String, DocUrlError>,
) -> bool {
    match index {
        None => r == Err::<String, DocUrlError>(DocUrlError::NoIndexLoaded),
        Some(idx) => {
            let p = site_pos(idx.defs@, span, 0);
            if 0 <= p < idx.defs@.len() {
                url_answer(idx, idx.defs@[p], r)
            } else {
                r == Err::<String, DocUrlError>(DocUrlError::NotFound)
            }
        },
    }
}

/// The definitions among the first `n` called `name`, and, where `qualname`
/// is given, with that qualified name.
pub open spec fn candidates(defs: Seq<Def>, name: Seq<char>, qualname: Option<Seq<char>>, n: int) -> Seq<
    Def,
>
    decreases n,
{
    if n <= 0 || n > defs.len() {
        Seq::empty()
    } else if defs[n - 1].name@ == name && match qualname {
        Some(q) => defs[n - 1].qualname@ == q,
        None => true,
    } {
        candidates(defs, name, qualname, n - 1).push(defs[n - 1])
    } else {
        candidates(defs, name, qualname, n - 1)
    }
}

pub open spec fn opt_text(o: Option<&str>) -> Option<Seq<char>> {
    match o {
        Some(s) => Some(s@),
        None => None,
    }
}

/// Checks whether `path` lies under `prefix`.
pub fn is_under(prefix: &str, path: &str) -> (r: bool)
    ensures
        r == under(prefix@, path@),
{
    let pn = prefix.unicode_len();
    let n = path.unicode_len();
    if pn > n {
        return false;
    }
    let mut i: usize = 0;
    while i < pn
        invariant
            pn == prefix@.len(),
            n == path@.len(),
            pn <= n,
            i <= pn,
            forall|j: int| 0 <= j < i ==> path@[j] == prefix@[j],
        decreases pn - i,
    {
        if path.get_char(i) != prefix.get_char(i) {
            assert(path@.take(pn as int)[i as int] != prefix@[i as int]);
            return false;
        }
        i = i + 1;
    }
    assert(path@.take(pn as int) =~= prefix@);
    true
}

proof fn lemma_kept_from(units: Seq<RawCrate>, prefix: Seq<char>)
    ensures
        forall|i: int|
            0 <= i < kept_units(units, prefix).len() ==> exists|w: int|
                0 <= w < units.len() && #[trigger] kept_units(units, prefix)[i] == units[w],
    decreases units.len(),
{
    if units.len() > 0 {
        let rest = units.drop_last();
        lemma_kept_from(rest, prefix);
        let kr = kept_units(rest, prefix);
        let k = kept_units(units, prefix);
        assert forall|i: int| 0 <= i < k.len() implies exists|w: int|
            0 <= w < units.len() && #[trigger] k[i] == units[w] by {
            if i < kr.len() {
                assert(k[i] == kr[i]);
                let w = choose|w: int| 0 <= w < rest.len() && kr[i] == rest[w];
                assert(rest[w] == units[w]);
            } else {
                assert(k[i] == units[units.len() - 1]);
            }
        }
    }
}

/// Extending a registry leaves the place of every registered name alone.
pub proof fn lemma_name_pos_extend(a: Seq<String>, b: Seq<String>, name: Seq<char>, from: int)
    requires
        a.len() <= b.len(),
        b.take(a.len() as int) == a,
        name_pos(a, name, from) >= 0,
    ensures
        name_pos(b, name, from) == name_pos(a, name, from),
    decreases a.len() - from,
{
    if 0 <= from < a.len() {
        assert(b[from] == b.take(a.len() as int)[from]);
        if a[from]@ != name {
            lemma_name_pos_extend(a, b, name, from + 1);
        }
    }
}

proof fn lemma_name_pos_push(a: Seq<String>, x: String, name: Seq<char>)
    requires
        name_pos(a, name, 0) >= 0 || x@ == name,
    ensures
        name_pos(a.push(x), name, 0) >= 0,
{
    let b = a.push(x);
    assert(b.take(a.len() as int) =~= a);
    if name_pos(a, name, 0) >= 0 {
        lemma_name_pos_extend(a, b, name, 0);
    } else {
        lemma_name_pos_reaches(b, name, 0, a.len() as int);
    }
}

proof fn lemma_name_pos_reaches(reg: Seq<String>, name: Seq<char>, from: int, at: int)
    requires
        0 <= from <= at < reg.len(),
        reg[at]@ == name,
    ensures
        name_pos(reg, name, from) >= 0,
    decreases at - from,
{
    if reg[from]@ != name {
        lemma_name_pos_reaches(reg, name, from + 1, at);
    }
}

/// Registering extends the registry, by at most one name per unit, and
/// leaves every unit of `fresh` registered.
pub proof fn lemma_register(reg: Seq<String>, fresh: Seq<RawCrate>)
    ensures
        register(reg, fresh).len() <= reg.len() + fresh.len(),
        reg.len() <= register(reg, fresh).len(),
        register(reg, fresh).take(reg.len() as int) == reg,
        forall|k: int| 0 <= k < fresh.len() ==> name_pos(register(reg, fresh), #[trigger] fresh[k].name@, 0) >= 0,
    decreases fresh.len(),
{
    if fresh.len() == 0 {
        assert(reg.take(reg.len() as int) =~= reg);
    } else {
        let f = fresh.drop_last();
        lemma_register(reg, f);
        let r0 = register(reg, f);
        let r = register(reg, fresh);
        assert(r.take(reg.len() as int) =~= r0.take(reg.len() as int));
        assert forall|k: int| 0 <= k < fresh.len() implies name_pos(r, #[trigger] fresh[k].name@, 0) >= 0 by {
            if k < f.len() {
                assert(fresh[k] == f[k]);
                if r != r0 {
                    lemma_name_pos_push(r0, fresh.last().name, fresh[k].name@);
                }
            } else if r != r0 {
                lemma_name_pos_push(r0, fresh.last().name, fresh[k].name@);
            }
        }
    }
}

proof fn lemma_kept_has(units: Seq<RawCrate>, prefix: Seq<char>, w: int)
    requires
        0 <= w < units.len(),
        !under(prefix, units[w].path@),
    ensures
        exists|i: int|
            0 <= i < kept_units(units, prefix).len() && #[trigger] kept_units(units, prefix)[i]
                == units[w],
    decreases units.len(),
{
    let rest = units.drop_last();
    let k = kept_units(units, prefix);
    let kr = kept_units(rest, prefix);
    if w == units.len() - 1 {
        assert(k[kr.len() as int] == units[w]);
    } else {
        assert(rest[w] == units[w]);
        lemma_kept_has(rest, prefix, w);
        let i = choose|i: int| 0 <= i < kr.len() && #[trigger] kr[i] == rest[w];
        assert(k[i] == kr[i]);
    }
}

/// In a loaded host no two definitions share an id.
pub proof fn lemma_host_ids_unique(h: AnalysisHost)
    requires
        h.wf(),
        h.current() is Some,
    ensures
        forall|p: int, q: int|
            0 <= p < q < h.current()->Some_0.defs@.len() ==> #[trigger] h.current()->Some_0.defs@[p].id
                != #[trigger] h.current()->Some_0.defs@[q].id,
{
    lemma_ids_unique(h.units@, h.names@, h.units@.len() as int);
}

/// In a loaded host every resolved reference target is a loaded definition.
pub proof fn lemma_host_targets_loaded(h: AnalysisHost, p: int)
    requires
        h.wf(),
        h.current() is Some,
        0 <= p < h.current()->Some_0.refs@.len(),
    ensures
        h.current()->Some_0.refs@[p].target matches Some(t) ==> def_of(
            h.current()->Some_0.defs@,
            t,
        ) is Some,
{
    lemma_targets_loaded(h.units@, h.names@, p);
}

/// In a loaded host every definition of every loaded unit is found under
/// its id: the number of its unit and its local id.
pub proof fn lemma_host_defs_found(h: AnalysisHost, k: int, j: int)
    requires
        h.wf(),
        h.current() is Some,
        0 <= k < h.loaded_units().len(),
        0 <= j < h.loaded_units()[k].defs@.len(),
    ensures
        ({
            let d = lift_def(
                unit_number(h.registry(), h.loaded_units()[k].name@),
                h.loaded_units()[k].defs@[j],
            );
            def_of(h.current()->Some_0.defs@, d.id) == Some(d)
        }),
{
    lemma_unit_defs_found(h.units@, h.names@, k, j);
}

proof fn lemma_kept_valid(units: Seq<RawCrate>, prefix: Seq<char>)
    requires
        all_valid(units),
    ensures
        all_valid(kept_units(units, prefix)),
        kept_units(units, prefix).len() <= units.len(),
    decreases units.len(),
{
    if units.len() > 0 {
        let rest = units.drop_last();
        assert forall|k: int| 0 <= k < rest.len() implies unit_valid(#[trigger] rest[k]) by {
            assert(rest[k] == units[k]);
        }
        lemma_kept_valid(rest, prefix);
        assert(unit_valid(units[units.len() - 1]));
    }
}

impl AnalysisHost {
    /// The units loaded so far.
    pub closed spec fn loaded_units(&self) -> Seq<RawCrate> {
        self.units@
    }

    /// The current index; `None` until a reload succeeds.
    pub closed spec fn current(&self) -> Option<Index> {
        self.index
    }

    /// The registry of unit names; a unit's number is the place of its name.
    pub closed spec fn registry(&self) -> Seq<String> {
        self.names@
    }

    /// The index is the one built from the loaded units, every unit's name is
    /// registered, no two units share a name, and each unit's ids are distinct.
    pub closed spec fn wf(&self) -> bool {
        &&& self.names@.len() <= MAX_UNITS
        &&& all_valid(self.units@)
        &&& names_distinct(self.units@)
        &&& all_registered(self.names@, self.units@)
        &&& match self.index {
            None => self.units@.len() == 0,
            Some(idx) => built(self.units@, self.names@, idx),
        }
    }

    /// A host with nothing loaded.
    pub fn new() -> (r: AnalysisHost)
        ensures
            r.wf(),
            r.current() is None,
            r.loaded_units().len() == 0,
            r.registry().len() == 0,
    {
        AnalysisHost { units: Vec::new(), names: Vec::new(), index: None }
    }

    /// Replaces the units read from under `analysis_prefix` with `fresh`
    /// (or, for a hard reload, all units) and swaps in the index built from
    /// the result. Names new to the registry are appended to it, so units
    /// that stay keep their numbers and their definitions keep their ids.
    /// On error nothing changes.
    pub fn reload(&mut self, analysis_prefix: &str, hard: bool, fresh: Vec<RawCrate>) -> (r: Result<
        (),
        ReloadError,
    >)
        requires
            old(self).wf(),
        ensures
            final(self).wf(),
            ({
                let next = next_units(old(self).loaded_units(), analysis_prefix@, hard, fresh@);
                &&& r == Err::<(), ReloadError>(ReloadError::DuplicateId) <==> !all_valid(fresh@)
                &&& r == Err::<(), ReloadError>(ReloadError::DuplicateUnit) <==> all_valid(fresh@)
                    && !names_distinct(next)
                &&& r == Err::<(), ReloadError>(ReloadError::TooManyUnits) <==> all_valid(fresh@)
                    && names_distinct(next) && old(self).registry().len() + fresh@.len() > MAX_UNITS
                &&& r is Ok <==> all_valid(fresh@) && names_distinct(next) && old(
                    self,
                ).registry().len() + fresh@.len() <= MAX_UNITS
                &&& r is Ok ==> final(self).loaded_units() == next && final(self).registry()
                    == register(old(self).registry(), fresh@) && final(self).current() is Some
                    && built(
                    final(self).loaded_units(),
                    final(self).registry(),
                    final(self).current()->Some_0,
                )
            }),
            r is Ok ==> forall|k: int|
                0 <= k < old(self).loaded_units().len() ==> unit_number(
                    final(self).registry(),
                    #[trigger] old(self).loaded_units()[k].name@,
                ) == unit_number(old(self).registry(), old(self).loaded_units()[k].name@),
            r is Ok && !hard ==> forall|k: int, j: int|
                0 <= k < old(self).loaded_units().len() && !under(
                    analysis_prefix@,
                    old(self).loaded_units()[k].path@,
                ) && 0 <= j < old(self).loaded_units()[k].defs@.len() ==> ({
                    let d = lift_def(
                        unit_number(old(self).registry(), old(self).loaded_units()[k].name@),
                        #[trigger] old(self).loaded_units()[k].defs@[j],
                    );
                    def_of(final(self).current()->Some_0.defs@, d.id) == Some(d)
                }),
            r is Err ==> final(self).loaded_units() == old(self).loaded_units()
                && final(self).registry() == old(self).registry()
                && final(self).current() == old(self).current(),
    {
        let m = fresh.len();
        let mut k: usize = 0;
        while k < m
            invariant
                m == fresh@.len(),
                k <= m,
                *self == *old(self),
                old(self).wf(),
                forall|j: int| 0 <= j < k ==> unit_valid(#[trigger] fresh@[j]),
            decreases m - k,
        {
            if !check_unit(&fresh[k]) {
                return Err(ReloadError::DuplicateId);
            }
            k = k + 1;
        }
        let ghost old_units = self.units@;
        let ghost next = next_units(old_units, analysis_prefix@, hard, fresh@);
        // the names of the units the reload would leave, in order
        let mut names: Vec<String> = Vec::new();
        if !hard {
            let n = self.units.len();
            let mut i: usize = 0;
            while i < n
                invariant
                    n == self.units@.len(),
                    i <= n,
                    *self == *old(self),
                    old(self).wf(),
                    all_valid(fresh@),
                    names@ == kept_units(self.units@.take(i as int), analysis_prefix@).map_values(
                        |u: RawCrate| u.name,
                    ),
                decreases n - i,
            {
                proof {
                    assert(self.units@.take(i + 1).drop_last() =~= self.units@.take(i as int));
                }
                if !is_under(analysis_prefix, self.units[i].path.as_str()) {
                    names.push(self.units[i].name.clone());
                    assert(names@ =~= kept_units(self.units@.take(i + 1), analysis_prefix@).map_values(
                        |u: RawCrate| u.name,
                    ));
                }
                i = i + 1;
            }
            assert(self.units@.take(n as int) =~= self.units@);
        }
        let ghost kept_len = names@.len();
        let mut j: usize = 0;
        while j < m
            invariant
                m == fresh@.len(),
                j <= m,
                *self == *old(self),
                old(self).wf(),
                all_valid(fresh@),
                old_units == old(self).units@,
                next == next_units(old_units, analysis_prefix@, hard, fresh@),
                kept_len == (if hard { 0 } else { kept_units(old_units, analysis_prefix@).len() }),
                names@ == (if hard { Seq::empty() } else { kept_units(old_units, analysis_prefix@) }
                    + fresh@.take(j as int)).map_values(|u: RawCrate| u.name),
            decreases m - j,
        {
            names.push(fresh[j].name.clone());
            let ghost base = if hard { Seq::empty() } else { kept_units(old_units, analysis_prefix@) };
            assert(base + fresh@.take(j + 1) =~= (base + fresh@.take(j as int)).push(fresh@[j as int]));
            assert(names@ =~= (base + fresh@.take(j + 1)).map_values(|u: RawCrate| u.name));
            j = j + 1;
        }
        assert(fresh@.take(m as int) =~= fresh@);
        assert(names@ =~= next.map_values(|u: RawCrate| u.name));
        let total = names.len();
        let mut a: usize = 0;
        while a < total
            invariant
                total == names@.len() == next.len(),
                names@ == next.map_values(|u: RawCrate| u.name),
                a <= total,
                *self == *old(self),
                old(self).wf(),
                all_valid(fresh@),
                old_units == old(self).units@,
                next == next_units(old_units, analysis_prefix@, hard, fresh@),
                forall|x: int, y: int|
                    0 <= x < y < total && x < a ==> #[trigger] next[x].name@ != #[trigger] next[y].name@,
            decreases total - a,
        {
            let mut b: usize = a + 1;
            while b < total
                invariant
                    total == names@.len() == next.len(),
                    names@ == next.map_values(|u: RawCrate| u.name),
                    a < b <= total,
                    *self == *old(self),
                    old(self).wf(),
                    all_valid(fresh@),
                    old_units == old(self).units@,
                    next == next_units(old_units, analysis_prefix@, hard, fresh@),
                    forall|x: int, y: int|
                        0 <= x < y < total && x < a ==> #[trigger] next[x].name@ != #[trigger] next[y].name@,
                    forall|y: int| a < y < b ==> next[a as int].name@ != #[trigger] next[y].name@,
                decreases total - b,
            {
                if names[a] == names[b] {
                    assert(next[a as int].name@ == next[b as int].name@);
                    return Err(ReloadError::DuplicateUnit);
                }
                b = b + 1;
            }
            a = a + 1;
        }
        assert(names_distinct(next));
        if m > MAX_UNITS || self.names.len() > MAX_UNITS - m {
            return Err(ReloadError::TooManyUnits);
        }
        let ghost old_reg = self.names@;
        let mut j: usize = 0;
        while j < m
            invariant
                m == fresh@.len(),
                j <= m,
                old_reg.len() + m <= MAX_UNITS,
                self.units == old(self).units,
                self.index == old(self).index,
                old(self).wf(),
                old_reg == old(self).names@,
                old_units == old(self).units@,
                all_valid(fresh@),
                names_distinct(next),
                next == next_units(old_units, analysis_prefix@, hard, fresh@),
                self.names@ == register(old_reg, fresh@.take(j as int)),
                self.names@.len() <= old_reg.len() + j,
            decreases m - j,
        {
            proof {
                assert(fresh@.take(j + 1).drop_last() =~= fresh@.take(j as int));
            }
            if find_name(&self.names, &fresh[j].name).is_none() {
                self.names.push(fresh[j].name.clone());
            }
            j = j + 1;
        }
        assert(fresh@.take(m as int) =~= fresh@);
        let mut next_vec: Vec<RawCrate> = Vec::new();
        if !hard {
            let mut rest: Vec<RawCrate> = Vec::new();
            core::mem::swap(&mut rest, &mut self.units);
            assert(old_units.skip(0) =~= old_units);
            let ghost c: int = 0;
            while rest.len() > 0
                invariant
                    0 <= c <= old_units.len(),
                    old(self).wf(),
                    old_reg == old(self).names@,
                    old_units == old(self).units@,
                    old_reg.len() + m <= MAX_UNITS,
                    m == fresh@.len(),
                    all_valid(fresh@),
                    names_distinct(next),
                    next == next_units(old_units, analysis_prefix@, hard, fresh@),
                    self.names@ == register(old_reg, fresh@),
                    self.index == old(self).index,
                    rest@ == old_units.skip(c),
                    next_vec@ == kept_units(old_units.take(c), analysis_prefix@),
                decreases rest@.len(),
            {
                let u = rest.remove(0);
                proof {
                    assert(old_units.take(c + 1).drop_last() =~= old_units.take(c));
                    assert(old_units.skip(c + 1) =~= old_units.skip(c).remove(0));
                }
                if !is_under(analysis_prefix, u.path.as_str()) {
                    next_vec.push(u);
                }
                proof {
                    c = c + 1;
                }
            }
            assert(old_units.take(c) =~= old_units);
        }
        let ghost fresh0 = fresh@;
        let mut fresh = fresh;
        next_vec.append(&mut fresh);
        proof {
            lemma_kept_valid(old_units, analysis_prefix@);
            lemma_kept_from(old_units, analysis_prefix@);
            lemma_register(old_reg, fresh0);
            let nu = next_vec@;
            let kept = kept_units(old_units, analysis_prefix@);
            assert(nu == next);
            assert forall|i: int| 0 <= i < nu.len() implies unit_valid(#[trigger] nu[i]) by {
                if !hard && i < kept.len() {
                    assert(nu[i] == kept[i]);
                }
            }
            assert forall|i: int| 0 <= i < nu.len() implies name_pos(self.names@, #[trigger] nu[i].name@, 0) >= 0 by {
                if !hard && i < kept.len() {
                    assert(nu[i] == kept[i]);
                    let w = choose|w: int| 0 <= w < old_units.len() && kept[i] == old_units[w];
                    assert(name_pos(old_reg, old_units[w].name@, 0) >= 0);
                    lemma_name_pos_extend(old_reg, self.names@, old_units[w].name@, 0);
                } else {
                    let f = if hard { i } else { i - kept.len() };
                    assert(nu[i] == fresh0[f]);
                }
            }
            assert forall|w: int| 0 <= w < old_units.len() implies unit_number(
                self.names@,
                #[trigger] old_units[w].name@,
            ) == unit_number(old_reg, old_units[w].name@) by {
                assert(name_pos(old_reg, old_units[w].name@, 0) >= 0);
                lemma_name_pos_extend(old_reg, self.names@, old_units[w].name@, 0);
            }
        }
        let idx = build_index(&next_vec, &self.names);
        proof {
            let nu = next_vec@;
            let reg = self.names@;
            assert forall|k: int, j: int|
                0 <= k < old_units.len() && !under(analysis_prefix@, old_units[k].path@) && 0 <= j
                    < old_units[k].defs@.len() && !hard implies ({
                let d = lift_def(unit_number(old_reg, old_units[k].name@), #[trigger] old_units[k].defs@[j]);
                def_of(idx.defs@, d.id) == Some(d)
            }) by {
                lemma_kept_has(old_units, analysis_prefix@, k);
                let kept = kept_units(old_units, analysis_prefix@);
                let i = choose|i: int| 0 <= i < kept.len() && kept[i] == old_units[k];
                assert(nu[i] == kept[i]);
                lemma_unit_defs_found(nu, reg, i, j);
            }
        }
        self.units = next_vec;
        self.index = Some(idx);
        Ok(())
    }

    /// The definition with `id`.
    pub fn get_def(&self, id: Id) -> (r: Result<Def, LookupError>)
        requires
            self.wf(),
        ensures
            match self.current() {
                None => r == Err::<Def, LookupError>(LookupError::NoIndexLoaded),
                Some(idx) => match def_of(idx.defs@, id) {
                    Some(d) => r == Ok::<Def, LookupError>(d),
                    None => r == Err::<Def, LookupError>(LookupError::NotFound),
                },
            },
    {
        match &self.index {
            None => Err(LookupError::NoIndexLoaded),
            Some(idx) => match idx.position_of(id) {
                Some(p) => Ok(idx.defs[p].duplicate()),
                None => Err(LookupError::NotFound),
            },
        }
    }

    /// The ids of every definition called `name`, ordered by defining span.
    pub fn search_for_id(&self, name: &str) -> (r: Result<Vec<Id>, LookupError>)
        requires
            self.wf(),
        ensures
            match self.current() {
                None => r == Err::<Vec<Id>, LookupError>(LookupError::NoIndexLoaded),
                Some(idx) => r matches Ok(v) && v@ == ids_named(idx, name@),
            },
    {
        match &self.index {
            None => Err(LookupError::NoIndexLoaded),
            Some(idx) => Ok(idx.ids_for_name(name)),
        }
    }

    /// The span of the definition with `id` and of every reference to it,
    /// in span order.
    pub fn find_all_refs_by_id(&self, id: Id) -> (r: Result<Vec<Span>, LookupError>)
        requires
            self.wf(),
        ensures
            match self.current() {
                None => r == Err::<Vec<Span>, LookupError>(LookupError::NoIndexLoaded),
                Some(idx) => match refs_of(idx, id) {
                    Some(s) => r matches Ok(v) && v@ == s && spans_sorted(v@)
                        && v@.to_multiset() == (seq![def_of(idx.defs@, id)->Some_0.span]
                        + uses_of(idx.refs@, id, idx.refs@.len() as int)).to_multiset(),
                    None => r == Err::<Vec<Span>, LookupError>(LookupError::NotFound),
                },
            },
    {
        match &self.index {
            None => Err(LookupError::NoIndexLoaded),
            Some(idx) => match idx.places_of(id) {
                Some(v) => Ok(v),
                None => Err(LookupError::NotFound),
            },
        }
    }

    /// The places of every definition called `name`, definition by
    /// definition, each place once.
    pub fn search(&self, name: &str) -> (r: Result<Vec<Span>, LookupError>)
        requires
            self.wf(),
        ensures
            match self.current() {
                None => r == Err::<Vec<Span>, LookupError>(LookupError::NoIndexLoaded),
                Some(idx) => r matches Ok(v) && v@ == search_result(idx, name@),
            },
    {
        match &self.index {
            None => Err(LookupError::NoIndexLoaded),
            Some(idx) => Ok(idx.search_name(name)),
        }
    }

    /// The documentation URL of the definition at `span`.
    pub fn doc_url(&self, span: &Span) -> (r: Result<String, DocUrlError>)
        requires
            self.wf(),
        ensures
            doc_url_answer(self.current(), *span, r),
    {
        match &self.index {
            None => Err(DocUrlError::NoIndexLoaded),
            Some(idx) => {
                let n = idx.defs.len();
                let mut i: usize = 0;
                while i < n
                    invariant
                        n == idx.defs@.len(),
                        i <= n,
                        self.current() == Some(*idx),
                        site_pos(idx.defs@, *span, 0) == site_pos(idx.defs@, *span, i as int),
                    decreases n - i,
                {
                    let d = &idx.defs[i];
                    if d.span.file == span.file && d.span.range == span.range {
                        assert(same_site(idx.defs@[i as int].span, *span));
                        assert(site_pos(idx.defs@, *span, i as int) == i as int);
                        return url_of(idx, d);
                    }
                    i = i + 1;
                }
                Err(DocUrlError::NotFound)
            },
        }
    }

    /// The documentation URL of the one definition called `name` (with
    /// `qualname`, where given).
    pub fn doc_url_for_name(&self, name: &str, qualname: Option<&str>) -> (r: Result<
        String,
        DocUrlError,
    >)
        requires
            self.wf(),
        ensures
            match self.current() {
                None => r == Err::<String, DocUrlError>(DocUrlError::NoIndexLoaded),
                Some(idx) => {
                    let c = candidates(
                        idx.defs@,
                        name@,
                        opt_text(qualname),
                        idx.defs@.len() as int,
                    );
                    if c.len() == 0 {
                        r == Err::<String, DocUrlError>(DocUrlError::NotFound)
                    } else if c.len() > 1 {
                        r == Err::<String, DocUrlError>(DocUrlError::AmbiguousDefinition)
                    } else {
                        url_answer(idx, c[0], r)
                    }
                },
            },
    {
        match &self.index {
            None => Err(DocUrlError::NoIndexLoaded),
            Some(idx) => {
                let n = idx.defs.len();
                let mut found: Option<usize> = None;
                let mut count: usize = 0;
                let mut i: usize = 0;
                while i < n
                    invariant
                        n == idx.defs@.len(),
                        i <= n,
                        count <= i,
                        count as int == candidates(idx.defs@, name@, opt_text(qualname), i as int).len(),
                        count >= 1 ==> (found matches Some(f) && f < n && idx.defs@[f as int]
                            == candidates(idx.defs@, name@, opt_text(qualname), i as int)[0]),
                    decreases n - i,
                {
                    let d = &idx.defs[i];
                    let hit = text_equal(d.name.as_str(), name) && match qualname {
                        Some(q) => text_equal(d.qualname.as_str(), q),
                        None => true,
                    };
                    proof {
                        let prev = candidates(idx.defs@, name@, opt_text(qualname), i as int);
                        let cur = candidates(idx.defs@, name@, opt_text(qualname), i + 1);
                        if hit {
                            assert(cur == prev.push(idx.defs@[i as int]));
                        } else {
                            assert(cur == prev);
                        }
                    }
                    if hit {
                        if count == 0 {
                            found = Some(i);
                        }
                        count = count + 1;
                    }
                    i = i + 1;
                }
                if count == 0 {
                    Err(DocUrlError::NotFound)
                } else if count > 1 {
                    Err(DocUrlError::AmbiguousDefinition)
                } else {
                    match found {
                        Some(f) => url_of(idx, &idx.defs[f]),
                        None => Err(DocUrlError::NotFound),
                    }
                }
            },
        }
    }
}

/// The loaded parent of `d` in `idx`.
fn parent_in<'a>(idx: &'a Index, d: &Def) -> (r: Option<&'a Def>)
    ensures
        match r {
            Some(p) => parent_of(idx.defs@, *d) == Some(*p),
            None => parent_of(idx.defs@, *d) is None,
        },
{
    match d.parent {
        None => None,
        Some(pid) => match idx.position_of(pid) {
            Some(p) => Some(&idx.defs[p]),
            None => None,
        },
    }
}

/// The documentation URL of `d`, along its loaded parent chain.
fn url_of(idx: &Index, d: &Def) -> (r: Result<String, DocUrlError>)
    ensures
        url_answer(*idx, *d, r),
{
    let p = parent_in(idx, d);
    let g = match p {
        Some(q) => parent_in(idx, q),
        None => None,
    };
    resolve_doc_url(d, p, g)
}

proof fn lemma_kept_concat(a: Seq<RawCrate>, b: Seq<RawCrate>, prefix: Seq<char>)
    ensures
        kept_units(a + b, prefix) == kept_units(a, prefix) + kept_units(b, prefix),
    decreases b.len(),
{
    if b.len() == 0 {
        assert(a + b =~= a);
        assert(kept_units(a, prefix) + kept_units(b, prefix) =~= kept_units(a, prefix));
    } else {
        lemma_kept_concat(a, b.drop_last(), prefix);
        assert((a + b).drop_last() =~= a + b.drop_last());
        assert((a + b).last() == b.last());
        if !under(prefix, b.last().path@) {
            assert(kept_units(a, prefix) + kept_units(b, prefix) =~= (kept_units(a, prefix)
                + kept_units(b.drop_last(), prefix)).push(b.last()));
        }
    }
}

proof fn lemma_kept_twice(a: Seq<RawCrate>, prefix: Seq<char>)
    ensures
        kept_units(kept_units(a, prefix), prefix) == kept_units(a, prefix),
    decreases a.len(),
{
    if a.len() > 0 {
        lemma_kept_twice(a.drop_last(), prefix);
        let k = kept_units(a.drop_last(), prefix);
        if !under(prefix, a.last().path@) {
            assert(k.push(a.last()).drop_last() =~= k);
        }
    }
}

proof fn lemma_kept_none(b: Seq<RawCrate>, prefix: Seq<char>)
    requires
        forall|k: int| 0 <= k < b.len() ==> under(prefix, #[trigger] b[k].path@),
    ensures
        kept_units(b, prefix) == Seq::<RawCrate>::empty(),
    decreases b.len(),
{
    if b.len() > 0 {
        let c = b.drop_last();
        assert forall|k: int| 0 <= k < c.len() implies under(prefix, #[trigger] c[k].path@) by {
            assert(c[k] == b[k]);
        }
        lemma_kept_none(c, prefix);
        assert(under(prefix, b[b.len() - 1].path@));
    }
}

proof fn lemma_register_known(reg: Seq<String>, fresh: Seq<RawCrate>)
    requires
        forall|k: int| 0 <= k < fresh.len() ==> name_pos(reg, #[trigger] fresh[k].name@, 0) >= 0,
    ensures
        register(reg, fresh) == reg,
    decreases fresh.len(),
{
    if fresh.len() > 0 {
        let f = fresh.drop_last();
        assert forall|k: int| 0 <= k < f.len() implies name_pos(reg, #[trigger] f[k].name@, 0) >= 0 by {
            assert(f[k] == fresh[k]);
        }
        lemma_register_known(reg, f);
        assert(name_pos(reg, fresh[fresh.len() - 1].name@, 0) >= 0);
    }
}

/// Reloading the same snapshots twice leaves the same units and the same
/// registry, and so the same index (same ids, names and ordered
/// references), as reloading them once. For a merge, the snapshots must lie
/// under the reloaded prefix.
pub proof fn lemma_reload_idempotent(
    units: Seq<RawCrate>,
    reg: Seq<String>,
    prefix: Seq<char>,
    hard: bool,
    fresh: Seq<RawCrate>,
    once: Index,
    twice: Index,
)
    requires
        hard || forall|k: int| 0 <= k < fresh.len() ==> under(prefix, #[trigger] fresh[k].path@),
        built(next_units(units, prefix, hard, fresh), register(reg, fresh), once),
        built(
            next_units(next_units(units, prefix, hard, fresh), prefix, hard, fresh),
            register(register(reg, fresh), fresh),
            twice,
        ),
    ensures
        next_units(next_units(units, prefix, hard, fresh), prefix, hard, fresh) == next_units(
            units,
            prefix,
            hard,
            fresh,
        ),
        register(register(reg, fresh), fresh) == register(reg, fresh),
        twice.defs@ == once.defs@,
        twice.refs@ == once.refs@,
{
    lemma_register(reg, fresh);
    lemma_register_known(register(reg, fresh), fresh);
    if !hard {
        let k = kept_units(units, prefix);
        lemma_kept_concat(k, fresh, prefix);
        lemma_kept_twice(units, prefix);
        lemma_kept_none(fresh, prefix);
        assert(kept_units(k + fresh, prefix) =~= k);
    }
}

/// A documentation URL request has one answer: asking twice gives the same
/// URL or the same error.
pub proof fn lemma_doc_url_deterministic(
    index: Option<Index>,
    span: Span,
    first: Result<String, DocUrlError>,
    second: Result<String, DocUrlError>,
)
    requires
        doc_url_answer(index, span, first),
        doc_url_answer(index, span, second),
    ensures
        first is Ok <==> second is Ok,
        first matches Ok(a) ==> second matches Ok(b) && a@ == b@,
        first is Err ==> first == second,
{
}

} // verus!
