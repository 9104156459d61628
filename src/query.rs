//! Queries over an index, each with a fixed result order.
use vstd::prelude::*;
use crate::index::{Def, Id, Index, Ref, MAX_UNITS, defs_upto, refs_upto, lift_def, lift_ref, unit_number, unit_named, name_pos, all_registered, lemma_name_pos, lemma_unit_named};
use crate::raw::{RawCrate, unit_valid};
use crate::span::{Span, span_less, text_equal, span_lt, spans_sorted, same_site, lemma_span_lt_asymmetric};

verus! {

/// The spot where the definition with `id` stands in `defs`, searching from
/// `from`; -1 where there is none.
pub open spec fn def_pos(defs: Seq<Def>, id: Id, from: int) -> int
    decreases defs.len() - from,
{
    if from < 0 || from >= defs.len() {
        -1
    } else if defs[from].id == id {
        from
    } else {
        def_pos(defs, id, from + 1)
    }
}

/// The definition with `id`.
pub open spec fn def_of(defs: Seq<Def>, id: Id) -> Option<Def> {
    let p = def_pos(defs, id, 0);
    if 0 <= p < defs.len() {
        Some(defs[p])
    } else {
        None
    }
}

/// The definitions among the first `n` whose unqualified name is `name`.
pub open spec fn named(defs: Seq<Def>, name: Seq<char>, n: int) -> Seq<Def>
    decreases n,
{
    if n <= 0 || n > defs.len() {
        Seq::empty()
    } else if defs[n - 1].name@ == name {
        named(defs, name, n - 1).push(defs[n - 1])
    } else {
        named(defs, name, n - 1)
    }
}

/// The spans of the references among the first `n` that target `id`.
pub open spec fn uses_of(refs: Seq<Ref>, id: Id, n: int) -> Seq<Span>
    decreases n,
{
    if n <= 0 || n > refs.len() {
        Seq::empty()
    } else if refs[n - 1].target == Some(id) {
        uses_of(refs, id, n - 1).push(refs[n - 1].span)
    } else {
        uses_of(refs, id, n - 1)
    }
}

/// `x` placed in front of the first element of `s` that comes after it.
pub open spec fn insert_span(s: Seq<Span>, x: Span) -> Seq<Span>
    decreases s.len(),
{
    if s.len() == 0 {
        seq![x]
    } else if span_lt(x, s[0]) {
        seq![x] + s
    } else {
        seq![s[0]] + insert_span(s.drop_first(), x)
    }
}

/// `s` in span order; spans that compare equal keep their order.
pub open spec fn sort_spans(s: Seq<Span>) -> Seq<Span>
    decreases s.len(),
{
    if s.len() == 0 {
        s
    } else {
        insert_span(sort_spans(s.drop_last()), s.last())
    }
}

/// `x` placed in front of the first definition of `s` defined after it.
pub open spec fn insert_def(s: Seq<Def>, x: Def) -> Seq<Def>
    decreases s.len(),
{
    if s.len() == 0 {
        seq![x]
    } else if span_lt(x.span, s[0].span) {
        seq![x] + s
    } else {
        seq![s[0]] + insert_def(s.drop_first(), x)
    }
}

/// `s` in the order of the definitions' spans; equal spans keep their order.
pub open spec fn sort_defs(s: Seq<Def>) -> Seq<Def>
    decreases s.len(),
{
    if s.len() == 0 {
        s
    } else {
        insert_def(sort_defs(s.drop_last()), s.last())
    }
}

/// The ids of the definitions called `name`, ordered by defining span.
pub open spec fn ids_named(idx: Index, name: Seq<char>) -> Seq<Id> {
    sort_defs(named(idx.defs@, name, idx.defs@.len() as int)).map_values(|d: Def| d.id)
}

/// Every place of the definition with `id`: its own span and the spans of the
/// references to it, in span order; `None` where no such definition exists.
pub open spec fn refs_of(idx: Index, id: Id) -> Option<Seq<Span>> {
    match def_of(idx.defs@, id) {
        Some(d) => Some(
            sort_spans(seq![d.span] + uses_of(idx.refs@, id, idx.refs@.len() as int)),
        ),
        None => None,
    }
}

/// The places of each of `ids` in turn.
pub open spec fn refs_of_all(idx: Index, ids: Seq<Id>) -> Seq<Span>
    decreases ids.len(),
{
    if ids.len() == 0 {
        Seq::empty()
    } else {
        refs_of_all(idx, ids.drop_last()) + match refs_of(idx, ids.last()) {
            Some(s) => s,
            None => Seq::empty(),
        }
    }
}

/// Whether some span of `s` denotes the same place as `x`.
pub open spec fn has_site(s: Seq<Span>, x: Span) -> bool {
    exists|k: int| 0 <= k < s.len() && same_site(#[trigger] s[k], x)
}

/// `s` with each span dropped that repeats a place seen before it.
pub open spec fn dedup_sites(s: Seq<Span>) -> Seq<Span>
    decreases s.len(),
{
    if s.len() == 0 {
        s
    } else if has_site(dedup_sites(s.drop_last()), s.last()) {
        dedup_sites(s.drop_last())
    } else {
        dedup_sites(s.drop_last()).push(s.last())
    }
}

/// The places of every definition called `name`, in the order of
/// `ids_named`, each place once.
pub open spec fn search_result(idx: Index, name: Seq<char>) -> Seq<Span> {
    dedup_sites(refs_of_all(idx, ids_named(idx, name)))
}

proof fn lemma_insert_span_at(s: Seq<Span>, x: Span, i: int)
    requires
        0 <= i <= s.len(),
        forall|j: int| 0 <= j < i ==> !span_lt(x, #[trigger] s[j]),
        i == s.len() || span_lt(x, s[i]),
    ensures
        insert_span(s, x) == s.insert(i, x),
    decreases s.len(),
{
    if s.len() == 0 {
        assert(insert_span(s, x) =~= s.insert(i, x));
    } else if i == 0 {
        assert(insert_span(s, x) =~= s.insert(i, x));
    } else {
        let t = s.drop_first();
        assert forall|j: int| 0 <= j < i - 1 implies !span_lt(x, #[trigger] t[j]) by {
            assert(t[j] == s[j + 1]);
        }
        lemma_insert_span_at(t, x, i - 1);
        assert(insert_span(s, x) =~= s.insert(i, x));
    }
}

proof fn lemma_insert_def_at(s: Seq<Def>, x: Def, i: int)
    requires
        0 <= i <= s.len(),
        forall|j: int| 0 <= j < i ==> !span_lt(x.span, #[trigger] s[j].span),
        i == s.len() || span_lt(x.span, s[i].span),
    ensures
        insert_def(s, x) == s.insert(i, x),
    decreases s.len(),
{
    if s.len() == 0 {
        assert(insert_def(s, x) =~= s.insert(i, x));
    } else if i == 0 {
        assert(insert_def(s, x) =~= s.insert(i, x));
    } else {
        let t = s.drop_first();
        assert forall|j: int| 0 <= j < i - 1 implies !span_lt(x.span, #[trigger] t[j].span) by {
            assert(t[j] == s[j + 1]);
        }
        lemma_insert_def_at(t, x, i - 1);
        assert(insert_def(s, x) =~= s.insert(i, x));
    }
}

/// Sorts spans into span order, keeping equal spans in their order.
pub fn sorted_spans(v: Vec<Span>) -> (r: Vec<Span>)
    ensures
        r@ == sort_spans(v@),
{
    let mut out: Vec<Span> = Vec::new();
    let n = v.len();
    let mut k: usize = 0;
    while k < n
        invariant
            n == v@.len(),
            k <= n,
            out@ == sort_spans(v@.take(k as int)),
        decreases n - k,
    {
        let x = v[k].duplicate();
        let mut i: usize = 0;
        while i < out.len() && !span_less(&x, &out[i])
            invariant
                i <= out@.len(),
                forall|j: int| 0 <= j < i ==> !span_lt(x, #[trigger] out@[j]),
            decreases out@.len() - i,
        {
            i = i + 1;
        }
        proof {
            lemma_insert_span_at(out@, x, i as int);
            assert(v@.take(k + 1).drop_last() =~= v@.take(k as int));
        }
        out.insert(i, x);
        k = k + 1;
    }
    assert(v@.take(n as int) =~= v@);
    out
}

impl Def {
    /// A copy of this definition.
    pub fn duplicate(&self) -> (r: Def)
        ensures
            r == *self,
    {
        Def {
            id: self.id,
            kind: self.kind,
            name: self.name.clone(),
            qualname: self.qualname.clone(),
            span: self.span.duplicate(),
            parent: self.parent,
            docs: self.docs.clone(),
        }
    }
}

impl Index {
    /// The position of the definition with `id`, if there is one.
    pub fn position_of(&self, id: Id) -> (r: Option<usize>)
        ensures
            r matches Some(p) ==> p < self.defs@.len() && p as int == def_pos(self.defs@, id, 0),
            r is None ==> def_of(self.defs@, id) is None,
    {
        let n = self.defs.len();
        let mut i: usize = 0;
        while i < n
            invariant
                n == self.defs@.len(),
                i <= n,
                def_pos(self.defs@, id, 0) == def_pos(self.defs@, id, i as int),
            decreases n - i,
        {
            if self.defs[i].id == id {
                return Some(i);
            }
            i = i + 1;
        }
        None
    }

    /// The ids of the definitions called `name`, ordered by defining span.
    pub fn ids_for_name(&self, name: &str) -> (r: Vec<Id>)
        ensures
            r@ == ids_named(*self, name@),
    {
        let n = self.defs.len();
        let mut found: Vec<Def> = Vec::new();
        let mut k: usize = 0;
        while k < n
            invariant
                n == self.defs@.len(),
                k <= n,
                found@ == sort_defs(named(self.defs@, name@, k as int)),
            decreases n - k,
        {
            let d = &self.defs[k];
            if text_equal(d.name.as_str(), name) {
                let x = d.duplicate();
                let mut i: usize = 0;
                while i < found.len() && !span_less(&x.span, &found[i].span)
                    invariant
                        i <= found@.len(),
                        forall|j: int| 0 <= j < i ==> !span_lt(x.span, #[trigger] found@[j].span),
                    decreases found@.len() - i,
                {
                    i = i + 1;
                }
                proof {
                    lemma_insert_def_at(found@, x, i as int);
                    let m = named(self.defs@, name@, k + 1);
                    assert(m.drop_last() =~= named(self.defs@, name@, k as int));
                }
                found.insert(i, x);
            } else {
                assert(named(self.defs@, name@, k + 1) == named(self.defs@, name@, k as int));
            }
            k = k + 1;
        }
        let mut ids: Vec<Id> = Vec::new();
        let mut i: usize = 0;
        while i < found.len()
            invariant
                i <= found@.len(),
                ids@ == found@.take(i as int).map_values(|d: Def| d.id),
            decreases found@.len() - i,
        {
            ids.push(found[i].id);
            assert(found@.take(i + 1).map_values(|d: Def| d.id) =~= ids@);
            i = i + 1;
        }
        assert(found@.take(i as int) =~= found@);
        ids
    }

    /// Every place of the definition with `id`, in span order.
    pub fn places_of(&self, id: Id) -> (r: Option<Vec<Span>>)
        ensures
            r matches Some(v) ==> refs_of(*self, id) == Some(v@),
            r matches Some(v) ==> spans_sorted(v@) && v@.to_multiset() == (seq![
                def_of(self.defs@, id)->Some_0.span,
            ] + uses_of(self.refs@, id, self.refs@.len() as int)).to_multiset(),
            r is None ==> refs_of(*self, id) is None,
    {
        proof {
            lemma_refs_in_order(*self, id);
        }
        match self.position_of(id) {
            None => None,
            Some(p) => {
                let mut all: Vec<Span> = Vec::new();
                all.push(self.defs[p].span.duplicate());
                let ghost head = all@;
                let n = self.refs.len();
                let mut k: usize = 0;
                while k < n
                    invariant
                        n == self.refs@.len(),
                        k <= n,
                        all@ == head + uses_of(self.refs@, id, k as int),
                    decreases n - k,
                {
                    if self.refs[k].target == Some(id) {
                        all.push(self.refs[k].span.duplicate());
                        assert(all@ =~= head + uses_of(self.refs@, id, k + 1));
                    }
                    k = k + 1;
                }
                assert(head =~= seq![self.defs@[p as int].span]);
                Some(sorted_spans(all))
            },
        }
    }

    /// The places of every definition called `name`, each place once.
    pub fn search_name(&self, name: &str) -> (r: Vec<Span>)
        ensures
            r@ == search_result(*self, name@),
    {
        let ids = self.ids_for_name(name);
        let ghost all_ids = ids@;
        let mut out: Vec<Span> = Vec::new();
        let mut i: usize = 0;
        while i < ids.len()
            invariant
                ids@ == all_ids,
                i <= ids@.len(),
                out@ == dedup_sites(refs_of_all(*self, all_ids.take(i as int))),
            decreases ids@.len() - i,
        {
            let ghost before = refs_of_all(*self, all_ids.take(i as int));
            assert(all_ids.take(i + 1).drop_last() =~= all_ids.take(i as int));
            let places = match self.places_of(ids[i]) {
                Some(v) => v,
                None => Vec::new(),
            };
            assert(refs_of_all(*self, all_ids.take(i + 1)) == before + places@);
            let mut j: usize = 0;
            while j < places.len()
                invariant
                    j <= places@.len(),
                    out@ == dedup_sites(before + places@.take(j as int)),
                decreases places@.len() - j,
            {
                let x = &places[j];
                let ghost acc = before + places@.take(j as int);
                assert((before + places@.take(j + 1)).drop_last() =~= acc);
                assert((before + places@.take(j + 1)).last() == places@[j as int]);
                let mut seen = false;
                let mut m: usize = 0;
                while m < out.len()
                    invariant
                        m <= out@.len(),
                        seen == (exists|q: int| 0 <= q < m && same_site(#[trigger] out@[q], *x)),
                    decreases out@.len() - m,
                {
                    if out[m].file == x.file && out[m].range == x.range {
                        seen = true;
                    }
                    m = m + 1;
                }
                if !seen {
                    out.push(x.duplicate());
                }
                j = j + 1;
            }
            assert(places@.take(j as int) =~= places@);
            i = i + 1;
        }
        assert(all_ids.take(i as int) =~= all_ids);
        out
    }
}

proof fn lemma_insert_span_sorted(s: Seq<Span>, x: Span)
    requires
        spans_sorted(s),
    ensures
        spans_sorted(insert_span(s, x)),
        insert_span(s, x).len() == s.len() + 1,
        insert_span(s, x)[0] == x || (s.len() > 0 && insert_span(s, x)[0] == s[0]),
        insert_span(s, x).to_multiset() == s.to_multiset().insert(x),
    decreases s.len(),
{
    broadcast use vstd::seq_lib::group_to_multiset_ensures;

    let r = insert_span(s, x);
    if s.len() == 0 {
        assert(r =~= s.insert(0, x));
    } else if span_lt(x, s[0]) {
        lemma_span_lt_asymmetric(x, s[0]);
        assert(r =~= s.insert(0, x));
        assert forall|k: int| 0 <= k < r.len() - 1 implies !span_lt(#[trigger] r[k + 1], r[k]) by {
            if k > 0 {
                assert(r[k + 1] == s[k] && r[k] == s[k - 1]);
                assert(!span_lt(s[(k - 1) + 1], s[k - 1]));
            } else {
                assert(r[1] == s[0] && r[0] == x);
            }
        }
    } else {
        let t = s.drop_first();
        assert forall|k: int| 0 <= k < t.len() - 1 implies !span_lt(#[trigger] t[k + 1], t[k]) by {
            assert(t[k + 1] == s[k + 2] && t[k] == s[k + 1]);
        }
        lemma_insert_span_sorted(t, x);
        let q = insert_span(t, x);
        assert(r =~= q.insert(0, s[0]));
        assert(s =~= t.insert(0, s[0]));
        assert forall|k: int| 0 <= k < r.len() - 1 implies !span_lt(#[trigger] r[k + 1], r[k]) by {
            if k > 0 {
                assert(r[k + 1] == q[k] && r[k] == q[k - 1]);
                assert(!span_lt(q[(k - 1) + 1], q[k - 1]));
            } else {
                assert(r[1] == q[0] && r[0] == s[0]);
                if q[0] != x {
                    assert(t[0] == s[1]);
                    assert(!span_lt(s[1], s[0]));
                }
            }
        }
        assert(r.to_multiset() =~= s.to_multiset().insert(x));
    }
}

/// Sorting spans yields them in span order, and yields the same spans.
pub proof fn lemma_sort_spans(s: Seq<Span>)
    ensures
        spans_sorted(sort_spans(s)),
        sort_spans(s).to_multiset() == s.to_multiset(),
    decreases s.len(),
{
    broadcast use vstd::seq_lib::group_to_multiset_ensures;

    if s.len() > 0 {
        lemma_sort_spans(s.drop_last());
        lemma_insert_span_sorted(sort_spans(s.drop_last()), s.last());
        assert(s =~= s.drop_last().push(s.last()));
    } else {
        assert(spans_sorted(sort_spans(s)));
    }
}

/// The places of a definition come in span order (file, then row, then
/// column), and they are exactly its own span and the spans of the
/// references to it.
pub proof fn lemma_refs_in_order(idx: Index, id: Id)
    ensures
        refs_of(idx, id) matches Some(s) ==> spans_sorted(s) && s.to_multiset() == (seq![
            def_of(idx.defs@, id)->Some_0.span,
        ] + uses_of(idx.refs@, id, idx.refs@.len() as int)).to_multiset(),
{
    if def_of(idx.defs@, id) is Some {
        lemma_sort_spans(
            seq![def_of(idx.defs@, id)->Some_0.span] + uses_of(idx.refs@, id, idx.refs@.len() as int),
        );
    }
}

/// A definition used once, at a place not before its own span, has two
/// places: its own span first, then the use.
pub proof fn lemma_defined_once_used_once(idx: Index, id: Id, u: Span)
    requires
        def_of(idx.defs@, id) is Some,
        !span_lt(u, def_of(idx.defs@, id)->Some_0.span),
        uses_of(idx.refs@, id, idx.refs@.len() as int) == seq![u],
    ensures
        refs_of(idx, id) == Some(seq![def_of(idx.defs@, id)->Some_0.span, u]),
{
    let d = def_of(idx.defs@, id)->Some_0.span;
    let one = seq![d];
    let s = one + seq![u];
    let e = Seq::<Span>::empty();
    assert(s.drop_last() =~= one);
    assert(s.last() == u);
    assert(one.drop_last() =~= e);
    assert(sort_spans(e) == e);
    assert(sort_spans(one) == insert_span(sort_spans(one.drop_last()), one.last()));
    assert(insert_span(e, d) =~= one);
    assert(sort_spans(one) == one);
    assert(one.drop_first() =~= e);
    assert(insert_span(one, u) == seq![d] + insert_span(one.drop_first(), u));
    assert(insert_span(e, u) =~= seq![u]);
    assert(insert_span(one, u) =~= seq![d, u]);
    assert(sort_spans(s) == insert_span(sort_spans(s.drop_last()), s.last()));
}

proof fn lemma_insert_def_keeps(s: Seq<Def>, x: Def)
    ensures
        insert_def(s, x).to_multiset() == s.to_multiset().insert(x),
    decreases s.len(),
{
    broadcast use vstd::seq_lib::group_to_multiset_ensures;

    let r = insert_def(s, x);
    if s.len() == 0 || span_lt(x.span, s[0].span) {
        assert(r =~= s.insert(0, x));
    } else {
        let t = s.drop_first();
        lemma_insert_def_keeps(t, x);
        assert(r =~= insert_def(t, x).insert(0, s[0]));
        assert(s =~= t.insert(0, s[0]));
        assert(r.to_multiset() =~= s.to_multiset().insert(x));
    }
}

proof fn lemma_sort_defs_keeps(s: Seq<Def>)
    ensures
        sort_defs(s).to_multiset() == s.to_multiset(),
    decreases s.len(),
{
    broadcast use vstd::seq_lib::group_to_multiset_ensures;

    if s.len() > 0 {
        lemma_sort_defs_keeps(s.drop_last());
        lemma_insert_def_keeps(sort_defs(s.drop_last()), s.last());
        assert(s =~= s.drop_last().push(s.last()));
    }
}

proof fn lemma_named_holds(defs: Seq<Def>, k: int, n: int)
    requires
        0 <= k < n <= defs.len(),
    ensures
        named(defs, defs[k].name@, n).contains(defs[k]),
    decreases n,
{
    let m = named(defs, defs[k].name@, n);
    if k == n - 1 {
        assert(m.last() == defs[k]);
    } else {
        lemma_named_holds(defs, k, n - 1);
        let p = named(defs, defs[k].name@, n - 1);
        let j = choose|j: int| 0 <= j < p.len() && p[j] == defs[k];
        assert(m[j] == defs[k]);
    }
}

/// Searching for the name of any loaded definition finds its id.
pub proof fn lemma_name_search_finds(idx: Index, k: int)
    requires
        0 <= k < idx.defs@.len(),
    ensures
        ids_named(idx, idx.defs@[k].name@).contains(idx.defs@[k].id),
{
    broadcast use vstd::seq_lib::group_to_multiset_ensures;

    let defs = idx.defs@;
    let m = named(defs, defs[k].name@, defs.len() as int);
    lemma_named_holds(defs, k, defs.len() as int);
    lemma_sort_defs_keeps(m);
    let sorted = sort_defs(m);
    assert(m.to_multiset().count(defs[k]) > 0);
    assert(sorted.contains(defs[k]));
    let j = choose|j: int| 0 <= j < sorted.len() && sorted[j] == defs[k];
    assert(ids_named(idx, defs[k].name@)[j] == defs[k].id);
}

proof fn lemma_defs_upto_origin(units: Seq<RawCrate>, reg: Seq<String>, n: int)
    requires
        0 <= n <= units.len(),
    ensures
        forall|p: int|
            0 <= p < defs_upto(units, reg, n).len() ==> exists|k: int, j: int|
                0 <= k < n && 0 <= j < units[k].defs@.len() && #[trigger] defs_upto(units, reg, n)[p]
                    == lift_def(unit_number(reg, units[k].name@), units[k].defs@[j]),
    decreases n,
{
    if n > 0 {
        lemma_defs_upto_origin(units, reg, n - 1);
        let d0 = defs_upto(units, reg, n - 1);
        let d = defs_upto(units, reg, n);
        assert forall|p: int| 0 <= p < d.len() implies exists|k: int, j: int|
            0 <= k < n && 0 <= j < units[k].defs@.len() && #[trigger] d[p] == lift_def(
                unit_number(reg, units[k].name@),
                units[k].defs@[j],
            ) by {
            if p < d0.len() {
                assert(d[p] == d0[p]);
            } else {
                let j = p - d0.len();
                assert(d[p] == lift_def(unit_number(reg, units[n - 1].name@), units[n - 1].defs@[j]));
            }
        }
    }
}

proof fn lemma_defs_upto_has(units: Seq<RawCrate>, reg: Seq<String>, n: int, k: int, j: int)
    requires
        0 <= k < n <= units.len(),
        0 <= j < units[k].defs@.len(),
    ensures
        exists|p: int|
            0 <= p < defs_upto(units, reg, n).len() && #[trigger] defs_upto(units, reg, n)[p]
                == lift_def(unit_number(reg, units[k].name@), units[k].defs@[j]),
    decreases n,
{
    let d0 = defs_upto(units, reg, n - 1);
    let d = defs_upto(units, reg, n);
    if k < n - 1 {
        lemma_defs_upto_has(units, reg, n - 1, k, j);
        let p = choose|p: int|
            0 <= p < d0.len() && #[trigger] d0[p] == lift_def(
                unit_number(reg, units[k].name@),
                units[k].defs@[j],
            );
        assert(d[p] == d0[p]);
    } else {
        assert(d[d0.len() + j] == lift_def(unit_number(reg, units[k].name@), units[k].defs@[j]));
    }
}

/// Distinct registered names have distinct unit numbers.
proof fn lemma_numbers_differ(reg: Seq<String>, a: Seq<char>, b: Seq<char>)
    requires
        reg.len() <= MAX_UNITS,
        name_pos(reg, a, 0) >= 0,
        name_pos(reg, b, 0) >= 0,
        a != b,
    ensures
        unit_number(reg, a) != unit_number(reg, b),
{
    lemma_name_pos(reg, a, 0);
    lemma_name_pos(reg, b, 0);
}

/// In an index built from units with distinct names, each with distinct
/// local ids, no two definitions share an id.
pub proof fn lemma_ids_unique(units: Seq<RawCrate>, reg: Seq<String>, n: int)
    requires
        0 <= n <= units.len(),
        reg.len() <= MAX_UNITS,
        all_registered(reg, units),
        forall|k: int| 0 <= k < units.len() ==> unit_valid(#[trigger] units[k]),
        forall|i: int, j: int|
            0 <= i < j < units.len() ==> #[trigger] units[i].name@ != #[trigger] units[j].name@,
    ensures
        forall|p: int, q: int|
            0 <= p < q < defs_upto(units, reg, n).len() ==> #[trigger] defs_upto(units, reg, n)[p].id
                != #[trigger] defs_upto(units, reg, n)[q].id,
    decreases n,
{
    if n > 0 {
        lemma_ids_unique(units, reg, n - 1);
        lemma_defs_upto_origin(units, reg, n - 1);
        let d0 = defs_upto(units, reg, n - 1);
        let d = defs_upto(units, reg, n);
        let u = units[n - 1];
        let num = unit_number(reg, u.name@);
        assert(unit_valid(u));
        assert forall|p: int, q: int| 0 <= p < q < d.len() implies #[trigger] d[p].id != #[trigger] d[q].id by {
            if q < d0.len() {
                assert(d[p] == d0[p] && d[q] == d0[q]);
            } else if p < d0.len() {
                assert(d[p] == d0[p]);
                let (k, j) = choose|k: int, j: int|
                    0 <= k < n - 1 && 0 <= j < units[k].defs@.len() && #[trigger] d0[p] == lift_def(
                        unit_number(reg, units[k].name@),
                        units[k].defs@[j],
                    );
                assert(units[k].name@ != units[n - 1].name@);
                assert(name_pos(reg, units[k].name@, 0) >= 0);
                assert(name_pos(reg, units[n - 1].name@, 0) >= 0);
                lemma_numbers_differ(reg, units[k].name@, u.name@);
                assert(d[q] == lift_def(num, u.defs@[q - d0.len()]));
            } else {
                assert(d[p] == lift_def(num, u.defs@[p - d0.len()]));
                assert(d[q] == lift_def(num, u.defs@[q - d0.len()]));
                assert(u.defs@[p - d0.len()].id != u.defs@[q - d0.len()].id);
            }
        }
    }
}

proof fn lemma_def_pos_finds(defs: Seq<Def>, i: int, from: int)
    requires
        0 <= from <= i < defs.len(),
        forall|p: int, q: int| 0 <= p < q < defs.len() ==> #[trigger] defs[p].id != #[trigger] defs[q].id,
    ensures
        def_pos(defs, defs[i].id, from) == i,
    decreases i - from,
{
    if from < i {
        assert(defs[from].id != defs[i].id);
        lemma_def_pos_finds(defs, i, from + 1);
    }
}

/// In an index built from units with distinct names, each with distinct
/// local ids, every definition of every unit is found under its id.
pub proof fn lemma_unit_defs_found(units: Seq<RawCrate>, reg: Seq<String>, k: int, j: int)
    requires
        reg.len() <= MAX_UNITS,
        all_registered(reg, units),
        forall|w: int| 0 <= w < units.len() ==> unit_valid(#[trigger] units[w]),
        forall|a: int, b: int|
            0 <= a < b < units.len() ==> #[trigger] units[a].name@ != #[trigger] units[b].name@,
        0 <= k < units.len(),
        0 <= j < units[k].defs@.len(),
    ensures
        ({
            let d = lift_def(unit_number(reg, units[k].name@), units[k].defs@[j]);
            def_of(defs_upto(units, reg, units.len() as int), d.id) == Some(d)
        }),
{
    let n = units.len() as int;
    let defs = defs_upto(units, reg, n);
    lemma_ids_unique(units, reg, n);
    lemma_defs_upto_has(units, reg, n, k, j);
    let d = lift_def(unit_number(reg, units[k].name@), units[k].defs@[j]);
    let p = choose|p: int| 0 <= p < defs.len() && #[trigger] defs[p] == d;
    lemma_def_pos_finds(defs, p, 0);
}

proof fn lemma_refs_upto_origin(units: Seq<RawCrate>, reg: Seq<String>, n: int)
    requires
        0 <= n <= units.len(),
    ensures
        forall|p: int|
            0 <= p < refs_upto(units, reg, n).len() ==> exists|k: int, j: int|
                0 <= k < n && 0 <= j < units[k].refs@.len() && #[trigger] refs_upto(units, reg, n)[p]
                    == lift_ref(units, reg, units[k].refs@[j]),
    decreases n,
{
    if n > 0 {
        lemma_refs_upto_origin(units, reg, n - 1);
        let r0 = refs_upto(units, reg, n - 1);
        let r = refs_upto(units, reg, n);
        assert forall|p: int| 0 <= p < r.len() implies exists|k: int, j: int|
            0 <= k < n && 0 <= j < units[k].refs@.len() && #[trigger] r[p] == lift_ref(
                units,
                reg,
                units[k].refs@[j],
            ) by {
            if p < r0.len() {
                assert(r[p] == r0[p]);
            } else {
                assert(r[p] == lift_ref(units, reg, units[n - 1].refs@[p - r0.len()]));
            }
        }
    }
}

/// In an index built from units with distinct names, each with distinct
/// local ids, every resolved reference target is a loaded definition.
pub proof fn lemma_targets_loaded(units: Seq<RawCrate>, reg: Seq<String>, p: int)
    requires
        reg.len() <= MAX_UNITS,
        all_registered(reg, units),
        forall|w: int| 0 <= w < units.len() ==> unit_valid(#[trigger] units[w]),
        forall|a: int, b: int|
            0 <= a < b < units.len() ==> #[trigger] units[a].name@ != #[trigger] units[b].name@,
        0 <= p < refs_upto(units, reg, units.len() as int).len(),
    ensures
        refs_upto(units, reg, units.len() as int)[p].target matches Some(t) ==> def_of(
            defs_upto(units, reg, units.len() as int),
            t,
        ) is Some,
{
    let n = units.len() as int;
    let refs = refs_upto(units, reg, n);
    lemma_refs_upto_origin(units, reg, n);
    let (k, j) = choose|k: int, j: int|
        0 <= k < n && 0 <= j < units[k].refs@.len() && #[trigger] refs[p] == lift_ref(
            units,
            reg,
            units[k].refs@[j],
        );
    let raw = units[k].refs@[j];
    if let Some(t) = raw.target {
        let u = unit_named(units, t.krate@, 0);
        lemma_unit_named(units, t.krate@, 0);
        if u >= 0 && crate::raw::defines(units[u], t.index) {
            let i = choose|i: int| 0 <= i < units[u].defs@.len() && #[trigger] units[u].defs@[i].id == t.index;
            lemma_unit_defs_found(units, reg, u, i);
        }
    }
}

} // verus!
