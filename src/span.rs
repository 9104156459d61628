//! Source locations and the order in which query results are listed.
use vstd::prelude::*;

verus! {

/// A zero-based row in a source file.
#[derive(Clone, Copy, Debug, PartialEq, Eq, Structural, Hash)]
pub struct Row(pub u32);

/// A zero-based column in a source file.
#[derive(Clone, Copy, Debug, PartialEq, Eq, Structural, Hash)]
pub struct Column(pub u32);

/// A start/end range of rows and columns.
#[derive(Clone, Copy, Debug, PartialEq, Eq, Structural, Hash)]
pub struct Range {
    pub row_start: Row,
    pub col_start: Column,
    pub row_end: Row,
    pub col_end: Column,
}

/// A file path together with a range inside that file.
#[derive(Clone, Debug, PartialEq, Eq, Hash)]
pub struct Span {
    pub file: String,
    pub range: Range,
}

/// Lexicographic order on texts, by code point.
pub open spec fn text_lt(a: Seq<char>, b: Seq<char>) -> bool
    decreases a.len(),
{
    if a.len() == 0 {
        b.len() > 0
    } else if b.len() == 0 {
        false
    } else if a[0] != b[0] {
        (a[0] as u32) < (b[0] as u32)
    } else {
        text_lt(a.drop_first(), b.drop_first())
    }
}

/// Order on ranges: start row, start column, end row, end column.
pub open spec fn range_lt(a: Range, b: Range) -> bool {
    if a.row_start.0 != b.row_start.0 {
        a.row_start.0 < b.row_start.0
    } else if a.col_start.0 != b.col_start.0 {
        a.col_start.0 < b.col_start.0
    } else if a.row_end.0 != b.row_end.0 {
        a.row_end.0 < b.row_end.0
    } else {
        a.col_end.0 < b.col_end.0
    }
}

/// Order on spans: file path first, then the range.
pub open spec fn span_lt(a: Span, b: Span) -> bool {
    text_lt(a.file@, b.file@) || (a.file@ == b.file@ && range_lt(a.range, b.range))
}

/// Two spans denote the same place.
pub open spec fn same_site(a: Span, b: Span) -> bool {
    a.file@ == b.file@ && a.range == b.range
}

/// No span of `s` comes before the one in front of it.
pub open spec fn spans_sorted(s: Seq<Span>) -> bool {
    forall|k: int| 0 <= k < s.len() - 1 ==> !span_lt(#[trigger] s[k + 1], s[k])
}

pub proof fn lemma_text_lt_asymmetric(a: Seq<char>, b: Seq<char>)
    ensures
        text_lt(a, b) ==> !text_lt(b, a),
    decreases a.len(),
{
    if a.len() > 0 && b.len() > 0 && a[0] == b[0] {
        lemma_text_lt_asymmetric(a.drop_first(), b.drop_first());
    }
}

pub proof fn lemma_text_lt_irreflexive(a: Seq<char>)
    ensures
        !text_lt(a, a),
    decreases a.len(),
{
    if a.len() > 0 {
        lemma_text_lt_irreflexive(a.drop_first());
    }
}

/// The span order never holds both ways.
pub proof fn lemma_span_lt_asymmetric(a: Span, b: Span)
    ensures
        span_lt(a, b) ==> !span_lt(b, a),
{
    lemma_text_lt_asymmetric(a.file@, b.file@);
    lemma_text_lt_irreflexive(a.file@);
}

/// Compares two texts in code point order.
pub fn text_less(a: &str, b: &str) -> (r: bool)
    ensures
        r == text_lt(a@, b@),
{
    let alen = a.unicode_len();
    let blen = b.unicode_len();
    let mut i: usize = 0;
    assert(a@.skip(0) =~= a@);
    assert(b@.skip(0) =~= b@);
    while i < alen && i < blen
        invariant
            alen == a@.len(),
            blen == b@.len(),
            i <= alen,
            i <= blen,
            text_lt(a@, b@) == text_lt(a@.skip(i as int), b@.skip(i as int)),
        decreases alen - i,
    {
        let ca = a.get_char(i);
        let cb = b.get_char(i);
        if ca != cb {
            return (ca as u32) < (cb as u32);
        }
        assert(a@.skip(i as int).drop_first() =~= a@.skip(i + 1));
        assert(b@.skip(i as int).drop_first() =~= b@.skip(i + 1));
        i = i + 1;
    }
    i == alen && i < blen
}

/// Whether two texts are equal.
pub fn text_equal(a: &str, b: &str) -> (r: bool)
    ensures
        r == (a@ == b@),
{
    let alen = a.unicode_len();
    let blen = b.unicode_len();
    if alen != blen {
        return false;
    }
    let mut i: usize = 0;
    while i < alen
        invariant
            alen == a@.len(),
            blen == b@.len(),
            alen == blen,
            i <= alen,
            forall|j: int| 0 <= j < i ==> a@[j] == b@[j],
        decreases alen - i,
    {
        if a.get_char(i) != b.get_char(i) {
            return false;
        }
        i = i + 1;
    }
    assert(a@ =~= b@);
    true
}

/// Compares two ranges in range order.
pub fn range_less(a: &Range, b: &Range) -> (r: bool)
    ensures
        r == range_lt(*a, *b),
{
    if a.row_start.0 != b.row_start.0 {
        a.row_start.0 < b.row_start.0
    } else if a.col_start.0 != b.col_start.0 {
        a.col_start.0 < b.col_start.0
    } else if a.row_end.0 != b.row_end.0 {
        a.row_end.0 < b.row_end.0
    } else {
        a.col_end.0 < b.col_end.0
    }
}

/// Compares two spans in span order.
pub fn span_less(a: &Span, b: &Span) -> (r: bool)
    ensures
        r == span_lt(*a, *b),
{
    if text_less(a.file.as_str(), b.file.as_str()) {
        true
    } else if a.file == b.file {
        range_less(&a.range, &b.range)
    } else {
        false
    }
}

impl Span {
    /// A span over `file` from (`row_start`, `col_start`) to (`row_end`, `col_end`).
    pub fn new(file: String, row_start: u32, col_start: u32, row_end: u32, col_end: u32) -> (r: Span)
        ensures
            r.file == file,
            r.range == (Range {
                row_start: Row(row_start),
                col_start: Column(col_start),
                row_end: Row(row_end),
                col_end: Column(col_end),
            }),
    {
        Span {
            file,
            range: Range {
                row_start: Row(row_start),
                col_start: Column(col_start),
                row_end: Row(row_end),
                col_end: Column(col_end),
            },
        }
    }

    /// A copy of this span.
    pub fn duplicate(&self) -> (r: Span)
        ensures
            r == *self,
    {
        Span { file: self.file.clone(), range: self.range }
    }
}

} // verus!
