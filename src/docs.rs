//! Documentation URLs: a rule table from definition kinds to the page and
//! anchor conventions of the documentation site.
use vstd::prelude::*;
use crate::index::Def;
use crate::raw::DefKind;

verus! {

/// How a kind of definition is rendered.
#[derive(Clone, Copy, Debug, PartialEq, Eq, Structural)]
pub enum DocRule {
    /// A directory with a trailing slash.
    Module,
    /// A page with the `.v.html` suffix.
    Value,
    /// A page with the `.t.html` suffix.
    Type,
    /// An anchor `#Name.v` on the page of the parent type.
    Member,
    /// No page convention applies.
    Unsupported,
}

/// Why a documentation URL could not be given.
#[derive(Clone, Copy, Debug, PartialEq, Eq, Structural)]
pub enum DocUrlError {
    /// No definition matched the request.
    NotFound,
    /// No index has been loaded yet.
    NoIndexLoaded,
    /// The definition falls under a case the convention cannot express:
    /// primitives, members whose parent type is missing, locals, macros.
    Unsupported,
    /// More than one definition matched and no qualified name told them apart.
    AmbiguousDefinition,
}

/// The rule table.
pub open spec fn rule_for(kind: DefKind) -> DocRule {
    match kind {
        DefKind::Mod => DocRule::Module,
        DefKind::Function | DefKind::Static | DefKind::Const => DocRule::Value,
        DefKind::Struct | DefKind::Enum | DefKind::Trait | DefKind::TypeAlias
        | DefKind::Union => DocRule::Type,
        DefKind::Field | DefKind::Variant | DefKind::Method
        | DefKind::TraitMethod => DocRule::Member,
        DefKind::Local | DefKind::Macro => DocRule::Unsupported,
    }
}

/// The rule for a kind of definition.
pub fn doc_rule(kind: DefKind) -> (r: DocRule)
    ensures
        r == rule_for(kind),
{
    match kind {
        DefKind::Mod => DocRule::Module,
        DefKind::Function | DefKind::Static | DefKind::Const => DocRule::Value,
        DefKind::Struct | DefKind::Enum | DefKind::Trait | DefKind::TypeAlias
        | DefKind::Union => DocRule::Type,
        DefKind::Field | DefKind::Variant | DefKind::Method
        | DefKind::TraitMethod => DocRule::Member,
        DefKind::Local | DefKind::Macro => DocRule::Unsupported,
    }
}

/// A qualified name as a URL path: each `::` becomes `/`.
pub open spec fn slashed(q: Seq<char>) -> Seq<char>
    decreases q.len(),
{
    if q.len() == 0 {
        q
    } else if q.len() >= 2 && q[0] == ':' && q[1] == ':' {
        seq!['/'] + slashed(q.skip(2))
    } else {
        seq![q[0]] + slashed(q.skip(1))
    }
}

/// Whether a qualified name has more than one segment.
pub open spec fn has_sep(q: Seq<char>) -> bool {
    exists|i: int| 0 <= i < q.len() - 1 && #[trigger] q[i] == ':' && q[i + 1] == ':'
}

/// The site's root, with a trailing slash.
pub open spec fn doc_base() -> Seq<char> {
    "https://doc.rust-lang.org/nightly/"@
}

/// Whether `parent` is what the back-reference of `def` points at.
pub open spec fn chain_ok(def: Def, parent: Option<Def>) -> bool {
    match (def.parent, parent) {
        (None, None) => true,
        (Some(i), Some(p)) => p.id == i,
        _ => false,
    }
}

/// The definition an optional reference points at.
pub open spec fn opt_def(o: Option<&Def>) -> Option<Def> {
    match o {
        Some(d) => Some(*d),
        None => None,
    }
}

/// The path of an item's page below the root, without suffix: under its
/// enclosing module where it has one, else its own qualified name, which
/// must then have a module path (a primitive has none).
pub open spec fn item_path(item: Def, container: Option<Def>) -> Option<Seq<char>> {
    match container {
        Some(c) => if c.kind == DefKind::Mod {
            Some(slashed(c.qualname@) + seq!['/'] + item.name@)
        } else {
            None
        },
        None => if has_sep(item.qualname@) {
            Some(slashed(item.qualname@))
        } else {
            None
        },
    }
}

/// The path of a module's directory below the root, without the trailing slash.
pub open spec fn dir_path(item: Def, container: Option<Def>) -> Option<Seq<char>> {
    match container {
        Some(c) => if c.kind == DefKind::Mod {
            Some(slashed(c.qualname@) + seq!['/'] + item.name@)
        } else {
            None
        },
        None => Some(slashed(item.qualname@)),
    }
}

/// The documentation URL of `def`, given its parent and grandparent along
/// the back-references; `None` where the convention cannot express it.
pub open spec fn doc_url_of(def: Def, parent: Option<Def>, grand: Option<Def>) -> Option<
    Seq<char>,
> {
    if !chain_ok(def, parent) {
        None
    } else {
        match rule_for(def.kind) {
            DocRule::Module => match dir_path(def, parent) {
                Some(p) => Some(doc_base() + p + seq!['/']),
                None => None,
            },
            DocRule::Value => match item_path(def, parent) {
                Some(p) => Some(doc_base() + p + ".v.html"@),
                None => None,
            },
            DocRule::Type => match item_path(def, parent) {
                Some(p) => Some(doc_base() + p + ".t.html"@),
                None => None,
            },
            DocRule::Member => match parent {
                Some(t) => if rule_for(t.kind) == DocRule::Type && chain_ok(t, grand) {
                    match item_path(t, grand) {
                        Some(p) => Some(doc_base() + p + ".t.html#"@ + def.name@ + ".v"@),
                        None => None,
                    }
                } else {
                    None
                },
                None => None,
            },
            DocRule::Unsupported => None,
        }
    }
}

/// Renders a qualified name as a URL path.
pub fn slash_path(q: &str) -> (r: String)
    ensures
        r@ == slashed(q@),
{
    let n = q.unicode_len();
    let mut r = String::new();
    let mut i: usize = 0;
    proof {
        reveal_strlit("/");
        assert(q@.skip(0) =~= q@);
    }
    while i < n
        invariant
            n == q@.len(),
            i <= n,
            slashed(q@) == r@ + slashed(q@.skip(i as int)),
        decreases n - i,
    {
        let ghost rest = q@.skip(i as int);
        let ghost before = r@;
        if i + 1 < n && q.get_char(i) == ':' && q.get_char(i + 1) == ':' {
            assert(rest.skip(2) =~= q@.skip(i + 2));
            assert(slashed(rest) == seq!['/'] + slashed(rest.skip(2)));
            r.append("/");
            proof {
                reveal_strlit("/");
            }
            assert("/"@ =~= seq!['/']);
            assert(r@ =~= before + seq!['/']);
            assert(slashed(q@) =~= r@ + slashed(q@.skip(i + 2)));
            i = i + 2;
        } else {
            let c = q.substring_char(i, i + 1);
            assert(rest.skip(1) =~= q@.skip(i + 1));
            assert(c@ =~= seq![rest[0]]);
            assert(slashed(rest) == seq![rest[0]] + slashed(rest.skip(1)));
            r.append(c);
            assert(slashed(q@) =~= r@ + slashed(q@.skip(i + 1)));
            i = i + 1;
        }
    }
    assert(q@.skip(i as int) =~= Seq::<char>::empty());
    assert(r@ + slashed(q@.skip(i as int)) =~= r@);
    r
}

/// Whether a qualified name has more than one segment.
pub fn has_separator(q: &str) -> (r: bool)
    ensures
        r == has_sep(q@),
{
    let n = q.unicode_len();
    let mut i: usize = 0;
    while i < n && i + 1 < n
        invariant
            n == q@.len(),
            i <= n,
            forall|j: int| 0 <= j < i && j < n - 1 ==> !(#[trigger] q@[j] == ':' && q@[j + 1] == ':'),
        decreases n - i,
    {
        if q.get_char(i) == ':' && q.get_char(i + 1) == ':' {
            return true;
        }
        i = i + 1;
    }
    false
}

fn item_path_exec(item: &Def, container: Option<&Def>) -> (r: Option<String>)
    ensures
        r matches Some(s) ==> item_path(*item, opt_def(container)) == Some(s@),
        r is None ==> item_path(*item, opt_def(container)) is None,
{
    proof {
        reveal_strlit("/");
    }
    match container {
        Some(c) => {
            if c.kind == DefKind::Mod {
                let mut s = slash_path(c.qualname.as_str());
                s.append("/");
                s.append(item.name.as_str());
                Some(s)
            } else {
                None
            }
        },
        None => {
            if has_separator(item.qualname.as_str()) {
                Some(slash_path(item.qualname.as_str()))
            } else {
                None
            }
        },
    }
}

fn chain_matches(def: &Def, parent: Option<&Def>) -> (r: bool)
    ensures
        r == chain_ok(*def, opt_def(parent)),
{
    match (def.parent, parent) {
        (None, None) => true,
        (Some(i), Some(p)) => p.id == i,
        _ => false,
    }
}

/// The documentation URL of `def`, given its parent and grandparent along
/// the back-references.
pub fn resolve_doc_url(def: &Def, parent: Option<&Def>, grand: Option<&Def>) -> (r: Result<
    String,
    DocUrlError,
>)
    ensures
        r matches Ok(s) ==> doc_url_of(*def, opt_def(parent), opt_def(grand))
            == Some(s@),
        r matches Err(e) ==> e == DocUrlError::Unsupported && doc_url_of(
            *def,
            opt_def(parent),
            opt_def(grand),
        ) is None,
{
    proof {
        reveal_strlit("/");
        reveal_strlit(".v.html");
        reveal_strlit(".t.html");
        reveal_strlit(".t.html#");
        reveal_strlit(".v");
    }
    if !chain_matches(def, parent) {
        return Err(DocUrlError::Unsupported);
    }
    let mut url = String::from_str("https://doc.rust-lang.org/nightly/");
    match doc_rule(def.kind) {
        DocRule::Module => {
            let path = match parent {
                Some(c) => {
                    if c.kind == DefKind::Mod {
                        let mut s = slash_path(c.qualname.as_str());
                        s.append("/");
                        s.append(def.name.as_str());
                        s
                    } else {
                        return Err(DocUrlError::Unsupported);
                    }
                },
                None => slash_path(def.qualname.as_str()),
            };
            url.append(path.as_str());
            url.append("/");
            Ok(url)
        },
        DocRule::Value => match item_path_exec(def, parent) {
            Some(p) => {
                url.append(p.as_str());
                url.append(".v.html");
                Ok(url)
            },
            None => Err(DocUrlError::Unsupported),
        },
        DocRule::Type => match item_path_exec(def, parent) {
            Some(p) => {
                url.append(p.as_str());
                url.append(".t.html");
                Ok(url)
            },
            None => Err(DocUrlError::Unsupported),
        },
        DocRule::Member => match parent {
            Some(t) => {
                if doc_rule(t.kind) != DocRule::Type || !chain_matches(t, grand) {
                    return Err(DocUrlError::Unsupported);
                }
                match item_path_exec(t, grand) {
                    Some(p) => {
                        url.append(p.as_str());
                        url.append(".t.html#");
                        url.append(def.name.as_str());
                        url.append(".v");
                        Ok(url)
                    },
                    None => Err(DocUrlError::Unsupported),
                }
            },
            None => Err(DocUrlError::Unsupported),
        },
        DocRule::Unsupported => Err(DocUrlError::Unsupported),
    }
}

} // verus!
