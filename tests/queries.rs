use rls_analysis::host::{AnalysisHost, LookupError, ReloadError};
use rls_analysis::index::Id;
use rls_analysis::raw::{DefKind, RawCrate, RawDef, RawId, RawRef, RefKind};
use rls_analysis::span::Span;

fn span(file: &str, row: u32, col: u32) -> Span {
    Span::new(file.to_string(), row, col, row, col + 4)
}

fn def(id: u32, kind: DefKind, name: &str, qualname: &str, at: Span, parent: Option<u32>) -> RawDef {
    RawDef {
        id,
        kind,
        name: name.to_string(),
        qualname: qualname.to_string(),
        span: at,
        parent,
        docs: String::new(),
    }
}

fn use_of(krate: &str, index: u32, at: Span) -> RawRef {
    RawRef {
        kind: RefKind::Read,
        span: at,
        target: Some(RawId { krate: krate.to_string(), index }),
    }
}

fn unit(name: &str, path: &str, defs: Vec<RawDef>, refs: Vec<RawRef>) -> RawCrate {
    RawCrate { name: name.to_string(), path: path.to_string(), defs, refs }
}

const HELLO: &str = "test_data/hello/src/main.rs";
const TYPES: &str = "test_data/types/src/main.rs";

// fn print_hello() {              row 0
//     let name = "world";         row 1
//     println!("Hello, {}!", name); row 2
// }
//
// fn main() {                     row 5
//     print_hello();              row 6
// }
fn hello_unit() -> RawCrate {
    unit(
        "hello",
        "test_data/hello/save-analysis",
        vec![
            def(0, DefKind::Function, "print_hello", "print_hello", span(HELLO, 0, 3), None),
            def(1, DefKind::Local, "name", "name$1", span(HELLO, 1, 8), Some(0)),
            def(2, DefKind::Function, "main", "main", span(HELLO, 5, 3), None),
        ],
        vec![use_of("hello", 1, span(HELLO, 2, 27)), use_of("hello", 0, span(HELLO, 6, 4))],
    )
}

fn types_unit() -> RawCrate {
    unit(
        "types",
        "test_data/types/save-analysis",
        vec![
            def(0, DefKind::Struct, "Foo", "Foo", span(TYPES, 0, 7), None),
            def(1, DefKind::Function, "main", "main", span(TYPES, 4, 3), None),
        ],
        vec![
            use_of("types", 0, span(TYPES, 9, 20)),
            use_of("types", 0, span(TYPES, 6, 11)),
            use_of("types", 0, span(TYPES, 9, 9)),
            use_of("types", 0, span(TYPES, 5, 13)),
        ],
    )
}

fn loaded(units: Vec<RawCrate>) -> AnalysisHost {
    let mut host = AnalysisHost::new();
    host.reload("test_data", true, units).unwrap();
    host
}

#[test]
fn smoke() {
    let host = loaded(vec![hello_unit(), types_unit()]);
    assert!(host.search_for_id("main").unwrap().len() == 2);
}

#[test]
fn test_hello() {
    let host = loaded(vec![hello_unit()]);

    let ids = host.search_for_id("print_hello").unwrap();
    assert_eq!(ids.len(), 1);
    let id = ids[0];
    let def = host.get_def(id).unwrap();
    assert_eq!(def.name, "print_hello");
    assert_eq!(def.kind, DefKind::Function);
    let refs = host.find_all_refs_by_id(id).unwrap();
    assert_eq!(refs.len(), 2);
    assert_eq!(refs[0].file, HELLO);
    assert_eq!(refs[0].range.row_start.0, 0);
    assert_eq!(refs[1].file, HELLO);
    assert_eq!(refs[1].range.row_start.0, 6);
    let refs = host.search("print_hello").unwrap();
    assert_eq!(refs.len(), 2);
    assert_eq!(refs[0].file, HELLO);
    assert_eq!(refs[0].range.row_start.0, 0);
    assert_eq!(refs[1].file, HELLO);
    assert_eq!(refs[1].range.row_start.0, 6);

    let ids = host.search_for_id("main").unwrap();
    assert_eq!(ids.len(), 1);
    let id = ids[0];
    let def = host.get_def(id).unwrap();
    assert_eq!(def.name, "main");
    assert_eq!(def.kind, DefKind::Function);
    let refs = host.find_all_refs_by_id(id).unwrap();
    assert_eq!(refs.len(), 1);
    assert_eq!(refs[0].file, HELLO);
    assert_eq!(refs[0].range.row_start.0, 5);
    let refs = host.search("main").unwrap();
    assert_eq!(refs.len(), 1);
    assert_eq!(refs[0].file, HELLO);
    assert_eq!(refs[0].range.row_start.0, 5);

    let ids = host.search_for_id("name").unwrap();
    assert_eq!(ids.len(), 1);
    let id = ids[0];
    let def = host.get_def(id).unwrap();
    assert_eq!(def.name, "name");
    assert_eq!(def.kind, DefKind::Local);
    let refs = host.find_all_refs_by_id(id).unwrap();
    assert_eq!(refs.len(), 2);
    assert_eq!(refs[0].file, HELLO);
    assert_eq!(refs[0].range.row_start.0, 1);
    assert_eq!(refs[1].file, HELLO);
    assert_eq!(refs[1].range.row_start.0, 2);
    let refs = host.search("name").unwrap();
    assert_eq!(refs.len(), 2);
    assert_eq!(refs[0].file, HELLO);
    assert_eq!(refs[0].range.row_start.0, 1);
    assert_eq!(refs[1].file, HELLO);
    assert_eq!(refs[1].range.row_start.0, 2);
}

#[test]
fn test_types() {
    let host = loaded(vec![types_unit()]);

    let ids = host.search_for_id("Foo").unwrap();
    assert_eq!(ids.len(), 1);
    let id = ids[0];
    let def = host.get_def(id).unwrap();
    assert_eq!(def.name, "Foo");
    assert_eq!(def.kind, DefKind::Struct);

    let refs = host.find_all_refs_by_id(id).unwrap();
    assert_eq!(refs.len(), 5);
    assert_eq!(refs[0].file, TYPES);
    assert_eq!(refs[0].range.row_start.0, 0);
    assert_eq!(refs[1].file, TYPES);
    assert_eq!(refs[1].range.row_start.0, 5);
    assert_eq!(refs[2].file, TYPES);
    assert_eq!(refs[2].range.row_start.0, 6);
    assert_eq!(refs[3].file, TYPES);
    assert_eq!(refs[3].range.row_start.0, 9);
    assert_eq!(refs[4].file, TYPES);
    assert_eq!(refs[4].range.row_start.0, 9);
    assert_eq!(refs[3].range.col_start.0, 9);
    assert_eq!(refs[4].range.col_start.0, 20);
}

#[test]
fn queries_before_reload_report_no_index() {
    let host = AnalysisHost::new();
    assert_eq!(host.search_for_id("main"), Err(LookupError::NoIndexLoaded));
    assert_eq!(host.get_def(Id { krate: 0, index: 0 }), Err(LookupError::NoIndexLoaded));
    assert_eq!(host.find_all_refs_by_id(Id { krate: 0, index: 0 }), Err(LookupError::NoIndexLoaded));
    assert_eq!(host.search("main"), Err(LookupError::NoIndexLoaded));
}

#[test]
fn unknown_id_is_not_found() {
    let host = loaded(vec![hello_unit()]);
    assert_eq!(host.get_def(Id { krate: 0, index: 9 }), Err(LookupError::NotFound));
    assert_eq!(host.find_all_refs_by_id(Id { krate: 3, index: 0 }), Err(LookupError::NotFound));
    assert_eq!(host.search_for_id("absent"), Ok(vec![]));
    assert_eq!(host.search("absent"), Ok(vec![]));
}

#[test]
fn failed_reload_keeps_previous_index() {
    let mut host = loaded(vec![hello_unit()]);
    let before_ids = host.search_for_id("print_hello").unwrap();
    let before_refs = host.find_all_refs_by_id(before_ids[0]).unwrap();
    let broken = unit(
        "broken",
        "test_data/broken",
        vec![
            def(4, DefKind::Function, "f", "f", span("b.rs", 0, 0), None),
            def(4, DefKind::Function, "g", "g", span("b.rs", 1, 0), None),
        ],
        vec![],
    );
    assert_eq!(host.reload("test_data", true, vec![broken]), Err(ReloadError::DuplicateId));
    assert_eq!(host.search_for_id("print_hello").unwrap(), before_ids);
    assert_eq!(host.find_all_refs_by_id(before_ids[0]).unwrap(), before_refs);
    assert_eq!(host.search_for_id("f"), Ok(vec![]));
}

#[test]
fn reloading_twice_gives_the_same_answers() {
    let mut host = loaded(vec![hello_unit(), types_unit()]);
    let ids = host.search_for_id("main").unwrap();
    let refs = host.search("Foo").unwrap();
    host.reload("test_data/hello", false, vec![hello_unit()]).unwrap();
    host.reload("test_data/hello", false, vec![hello_unit()]).unwrap();
    let again = host.search_for_id("main").unwrap();
    assert_eq!(again.len(), ids.len());
    assert_eq!(host.search("Foo").unwrap().len(), refs.len());
    let mut hard = loaded(vec![hello_unit()]);
    let first = hard.search_for_id("name").unwrap();
    hard.reload("test_data", true, vec![hello_unit()]).unwrap();
    assert_eq!(hard.search_for_id("name").unwrap(), first);
}

#[test]
fn merge_replaces_only_units_under_the_prefix() {
    let mut host = loaded(vec![hello_unit(), types_unit()]);
    let foo = host.search_for_id("Foo").unwrap();
    let foo_refs = host.find_all_refs_by_id(foo[0]).unwrap();
    let renamed = unit(
        "hello",
        "test_data/hello/save-analysis",
        vec![def(0, DefKind::Function, "greet", "greet", span(HELLO, 0, 3), None)],
        vec![],
    );
    host.reload("test_data/hello", false, vec![renamed]).unwrap();
    assert_eq!(host.search_for_id("print_hello"), Ok(vec![]));
    // the kept unit's definitions keep their ids
    assert_eq!(host.search_for_id("Foo").unwrap(), foo);
    assert_eq!(foo, vec![Id { krate: 1, index: 0 }]);
    assert_eq!(host.get_def(foo[0]).unwrap().name, "Foo");
    assert_eq!(host.find_all_refs_by_id(foo[0]).unwrap(), foo_refs);
    // the reloaded unit keeps the number of its name
    assert_eq!(host.search_for_id("greet").unwrap(), vec![Id { krate: 0, index: 0 }]);
}

#[test]
fn dropping_a_unit_leaves_later_ids_alone() {
    let mut host = loaded(vec![hello_unit(), types_unit()]);
    host.reload("test_data/hello", false, vec![]).unwrap();
    assert_eq!(host.search_for_id("print_hello"), Ok(vec![]));
    assert_eq!(host.search_for_id("Foo").unwrap(), vec![Id { krate: 1, index: 0 }]);
    let other = unit(
        "other",
        "test_data/other",
        vec![def(3, DefKind::Const, "LIMIT", "other::LIMIT", span("o.rs", 0, 0), None)],
        vec![],
    );
    host.reload("test_data/other", false, vec![other]).unwrap();
    assert_eq!(host.search_for_id("LIMIT").unwrap(), vec![Id { krate: 2, index: 3 }]);
    assert_eq!(host.search_for_id("Foo").unwrap(), vec![Id { krate: 1, index: 0 }]);
}

#[test]
fn units_sharing_a_name_are_refused() {
    let mut host = loaded(vec![hello_unit()]);
    let mut twin = types_unit();
    twin.name = "hello".to_string();
    assert_eq!(host.reload("test_data/types", false, vec![twin]), Err(ReloadError::DuplicateUnit));
    assert_eq!(host.search_for_id("Foo"), Ok(vec![]));
    assert_eq!(host.search_for_id("print_hello").unwrap().len(), 1);
}

#[test]
fn unresolved_references_are_left_out() {
    let mut refs = vec![use_of("nowhere", 0, span(HELLO, 7, 0)), use_of("hello", 42, span(HELLO, 8, 0))];
    refs.push(RawRef { kind: RefKind::Call, span: span(HELLO, 9, 0), target: None });
    let u = unit(
        "hello",
        "p",
        vec![def(0, DefKind::Function, "f", "f", span(HELLO, 0, 3), None)],
        refs,
    );
    let host = loaded(vec![u]);
    let id = host.search_for_id("f").unwrap()[0];
    assert_eq!(host.find_all_refs_by_id(id).unwrap().len(), 1);
}

#[test]
fn references_resolve_across_units() {
    let lib = unit(
        "lib",
        "test_data/lib",
        vec![def(7, DefKind::Function, "helper", "lib::helper", span("lib.rs", 3, 0), None)],
        vec![],
    );
    let app = unit("app", "test_data/app", vec![], vec![use_of("lib", 7, span("app.rs", 1, 2))]);
    let host = loaded(vec![app, lib]);
    let ids = host.search_for_id("helper").unwrap();
    assert_eq!(ids, vec![Id { krate: 1, index: 7 }]);
    let refs = host.find_all_refs_by_id(ids[0]).unwrap();
    assert_eq!(refs.len(), 2);
    assert_eq!(refs[0].file, "app.rs");
    assert_eq!(refs[1].file, "lib.rs");
}

#[test]
fn search_lists_each_place_once_in_id_order() {
    let a = unit(
        "a",
        "pa",
        vec![
            def(0, DefKind::Function, "run", "a::run", span("z.rs", 0, 0), None),
            def(1, DefKind::Function, "run", "a::b::run", span("m.rs", 4, 0), None),
        ],
        vec![use_of("a", 0, span("m.rs", 4, 0)), use_of("a", 1, span("x.rs", 2, 0))],
    );
    let host = loaded(vec![a]);
    let ids = host.search_for_id("run").unwrap();
    assert_eq!(ids, vec![Id { krate: 0, index: 1 }, Id { krate: 0, index: 0 }]);
    let places = host.search("run").unwrap();
    let files: Vec<&str> = places.iter().map(|s| s.file.as_str()).collect();
    assert_eq!(files, vec!["m.rs", "x.rs", "z.rs"]);
}

#[test]
fn ids_are_ordered_by_defining_span() {
    let u = unit(
        "u",
        "p",
        vec![
            def(0, DefKind::Local, "x", "x", span("b.rs", 1, 0), None),
            def(1, DefKind::Local, "x", "x", span("a.rs", 9, 0), None),
            def(2, DefKind::Local, "x", "x", span("b.rs", 0, 5), None),
        ],
        vec![],
    );
    let host = loaded(vec![u]);
    let ids: Vec<u32> = host.search_for_id("x").unwrap().iter().map(|i| i.index).collect();
    assert_eq!(ids, vec![1, 2, 0]);
}

#[test]
fn every_definition_is_found_by_its_name() {
    let host = loaded(vec![hello_unit(), types_unit()]);
    for (k, idx) in [(0u32, 0u32), (0, 1), (0, 2), (1, 0), (1, 1)] {
        let id = Id { krate: k, index: idx };
        let def = host.get_def(id).unwrap();
        assert!(host.search_for_id(&def.name).unwrap().contains(&id));
    }
}

#[test]
fn places_are_stable_across_calls() {
    let host = loaded(vec![types_unit()]);
    let id = host.search_for_id("Foo").unwrap()[0];
    assert_eq!(host.find_all_refs_by_id(id).unwrap(), host.find_all_refs_by_id(id).unwrap());
}
