use rls_analysis::docs::{DocRule, DocUrlError, doc_rule, resolve_doc_url, slash_path};
use rls_analysis::host::AnalysisHost;
use rls_analysis::index::{Def, Id};
use rls_analysis::raw::{DefKind, RawCrate, RawDef};
use rls_analysis::span::Span;

fn def(id: u32, kind: DefKind, name: &str, qualname: &str, parent: Option<u32>) -> RawDef {
    RawDef {
        id,
        kind,
        name: name.to_string(),
        qualname: qualname.to_string(),
        span: Span::new(format!("src/lib{}.rs", id), id, 0, id, 1),
        parent,
        docs: String::new(),
    }
}

fn std_host() -> AnalysisHost {
    let defs = vec![
        def(0, DefKind::Mod, "std", "std", None),
        def(1, DefKind::Mod, "path", "std::path", Some(0)),
        def(2, DefKind::Const, "MAIN_SEPARATOR", "std::path::MAIN_SEPARATOR", Some(1)),
        def(3, DefKind::Mod, "net", "std::net", Some(0)),
        def(4, DefKind::Mod, "ip", "std::net::ip", Some(3)),
        def(5, DefKind::Struct, "Ipv4Addr", "std::net::Ipv4Addr", Some(4)),
        def(6, DefKind::Mod, "env", "std::env", Some(0)),
        def(7, DefKind::Enum, "VarError", "std::env::VarError", Some(6)),
        def(8, DefKind::Variant, "NotPresent", "std::env::VarError::NotPresent", Some(7)),
        def(9, DefKind::Mod, "thread", "std::thread", Some(0)),
        def(10, DefKind::TypeAlias, "Result", "std::thread::Result", Some(9)),
        def(11, DefKind::Mod, "io", "std::io", Some(0)),
        def(12, DefKind::TypeAlias, "Result", "std::io::Result", Some(11)),
        def(13, DefKind::Function, "args", "std::env::args", Some(6)),
        def(14, DefKind::Mod, "ascii", "std::ascii", Some(0)),
        def(15, DefKind::Trait, "AsciiExt", "std::ascii::AsciiExt", Some(14)),
        def(16, DefKind::TraitMethod, "is_ascii", "u8::is_ascii", Some(15)),
        def(17, DefKind::Mod, "process", "std::process", Some(0)),
        def(18, DefKind::Struct, "Output", "std::process::Output", Some(17)),
        def(19, DefKind::Field, "status", "std::process::Output::status", Some(18)),
        def(20, DefKind::Mod, "fs", "std::fs", Some(0)),
        def(21, DefKind::Function, "copy", "std::fs::copy", Some(20)),
        def(22, DefKind::Mod, "prelude", "std::io::prelude", Some(11)),
        def(23, DefKind::Struct, "i64", "i64", None),
        def(24, DefKind::Method, "as_ptr", "std::mem::ManuallyDrop::as_ptr", Some(99)),
        def(25, DefKind::Local, "buf", "buf", Some(21)),
    ];
    let mut host = AnalysisHost::new();
    let std = RawCrate {
        name: "std".to_string(),
        path: "test_data/rust-analysis".to_string(),
        defs,
        refs: vec![],
    };
    host.reload("test_data/rust-analysis", true, vec![std]).unwrap();
    host
}

fn assert_url_for_type(host: &AnalysisHost, type_: &str, qualname: Option<&str>, url: &str) {
    let ids = host.search_for_id(type_).unwrap();
    let defs: Vec<Def> = ids
        .into_iter()
        .map(|id| host.get_def(id).unwrap())
        .filter(|def| qualname.is_none() || def.qualname == qualname.unwrap())
        .collect();
    assert_eq!(defs.len(), 1);
    assert_eq!(host.doc_url(&defs[0].span), Ok(url.to_string()));
}

#[test]
fn doc_urls_resolve_correctly() {
    let host = std_host();
    assert_url_for_type(
        &host,
        "MAIN_SEPARATOR",
        None,
        "https://doc.rust-lang.org/nightly/std/path/MAIN_SEPARATOR.v.html",
    );
    assert_url_for_type(
        &host,
        "Ipv4Addr",
        None,
        "https://doc.rust-lang.org/nightly/std/net/ip/Ipv4Addr.t.html",
    );
    assert_url_for_type(
        &host,
        "VarError",
        None,
        "https://doc.rust-lang.org/nightly/std/env/VarError.t.html",
    );
    assert_url_for_type(
        &host,
        "NotPresent",
        None,
        "https://doc.rust-lang.org/nightly/std/env/VarError.t.html#NotPresent.v",
    );
    assert_url_for_type(
        &host,
        "Result",
        Some("std::thread::Result"),
        "https://doc.rust-lang.org/nightly/std/thread/Result.t.html",
    );
    assert_url_for_type(
        &host,
        "args",
        Some("std::env::args"),
        "https://doc.rust-lang.org/nightly/std/env/args.v.html",
    );
    assert_url_for_type(
        &host,
        "AsciiExt",
        None,
        "https://doc.rust-lang.org/nightly/std/ascii/AsciiExt.t.html",
    );
    assert_url_for_type(
        &host,
        "is_ascii",
        None,
        "https://doc.rust-lang.org/nightly/std/ascii/AsciiExt.t.html#is_ascii.v",
    );
    assert_url_for_type(
        &host,
        "status",
        Some("std::process::Output::status"),
        "https://doc.rust-lang.org/nightly/std/process/Output.t.html#status.v",
    );
    assert_url_for_type(
        &host,
        "copy",
        Some("std::fs::copy"),
        "https://doc.rust-lang.org/nightly/std/fs/copy.v.html",
    );
    assert_url_for_type(
        &host,
        "prelude",
        Some("std::io::prelude"),
        "https://doc.rust-lang.org/nightly/std/io/prelude/",
    );
    assert_url_for_type(&host, "fs", Some("std::fs"), "https://doc.rust-lang.org/nightly/std/fs/");
}

#[test]
fn doc_url_by_name_needs_a_qualname_when_ambiguous() {
    let host = std_host();
    assert_eq!(
        host.doc_url_for_name("Result", None),
        Err(DocUrlError::AmbiguousDefinition)
    );
    assert_eq!(
        host.doc_url_for_name("Result", Some("std::thread::Result")),
        Ok("https://doc.rust-lang.org/nightly/std/thread/Result.t.html".to_string())
    );
    assert_eq!(
        host.doc_url_for_name("Result", Some("std::io::Result")),
        Ok("https://doc.rust-lang.org/nightly/std/io/Result.t.html".to_string())
    );
    assert_eq!(
        host.doc_url_for_name("Result", Some("std::fmt::Result")),
        Err(DocUrlError::NotFound)
    );
    assert_eq!(
        host.doc_url_for_name("VarError", None),
        Ok("https://doc.rust-lang.org/nightly/std/env/VarError.t.html".to_string())
    );
}

#[test]
fn doc_url_unsupported_cases() {
    let host = std_host();
    assert_eq!(host.doc_url_for_name("i64", None), Err(DocUrlError::Unsupported));
    assert_eq!(host.doc_url_for_name("as_ptr", None), Err(DocUrlError::Unsupported));
    assert_eq!(host.doc_url_for_name("buf", None), Err(DocUrlError::Unsupported));
}

#[test]
fn doc_url_errors_for_unknown_span_and_no_index() {
    let host = std_host();
    let nowhere = Span::new("nowhere.rs".to_string(), 1, 1, 1, 2);
    assert_eq!(host.doc_url(&nowhere), Err(DocUrlError::NotFound));
    let empty = AnalysisHost::new();
    assert_eq!(empty.doc_url(&nowhere), Err(DocUrlError::NoIndexLoaded));
    assert_eq!(empty.doc_url_for_name("std", None), Err(DocUrlError::NoIndexLoaded));
}

#[test]
fn doc_url_is_the_same_on_every_call() {
    let host = std_host();
    let first = host.doc_url_for_name("NotPresent", None);
    let second = host.doc_url_for_name("NotPresent", None);
    assert_eq!(first, second);
    assert!(first.is_ok());
}

#[test]
fn crate_root_module_url() {
    let host = std_host();
    assert_eq!(
        host.doc_url_for_name("std", None),
        Ok("https://doc.rust-lang.org/nightly/std/".to_string())
    );
}

#[test]
fn rule_table_by_kind() {
    assert_eq!(doc_rule(DefKind::Mod), DocRule::Module);
    assert_eq!(doc_rule(DefKind::Static), DocRule::Value);
    assert_eq!(doc_rule(DefKind::Union), DocRule::Type);
    assert_eq!(doc_rule(DefKind::Method), DocRule::Member);
    assert_eq!(doc_rule(DefKind::Macro), DocRule::Unsupported);
}

#[test]
fn qualified_names_become_paths() {
    assert_eq!(slash_path("std::net::ip"), "std/net/ip");
    assert_eq!(slash_path("a:b"), "a:b");
    assert_eq!(slash_path(""), "");
}

#[test]
fn resolver_checks_the_parent_chain() {
    let module = Def {
        id: Id { krate: 0, index: 1 },
        kind: DefKind::Mod,
        name: "path".to_string(),
        qualname: "std::path".to_string(),
        span: Span::new("a.rs".to_string(), 0, 0, 0, 1),
        parent: None,
        docs: String::new(),
    };
    let item = Def {
        id: Id { krate: 0, index: 2 },
        kind: DefKind::Static,
        name: "SEP".to_string(),
        qualname: "std::path::SEP".to_string(),
        span: Span::new("a.rs".to_string(), 1, 0, 1, 1),
        parent: Some(Id { krate: 0, index: 1 }),
        docs: String::new(),
    };
    assert_eq!(
        resolve_doc_url(&item, Some(&module), None),
        Ok("https://doc.rust-lang.org/nightly/std/path/SEP.v.html".to_string())
    );
    assert_eq!(resolve_doc_url(&item, None, None), Err(DocUrlError::Unsupported));
    assert_eq!(
        resolve_doc_url(&module, None, None),
        Ok("https://doc.rust-lang.org/nightly/std/path/".to_string())
    );
}
