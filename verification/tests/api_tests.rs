//! Tests of the analysis API on hand-built import/export records: the
//! documented scenarios, the resolver's probe order, the canonicalizer, the
//! default-entrypoint probe, output ordering and degenerate inputs.

use sweepy::{
    find_default_entrypoints, is_relative, resolve_relative_import_from_set, sweepy, ExportInfo,
    ExportItem, ImportInfo, ParsedFile, SweepyResult,
};

fn imp(source: &str, specifiers: &[&str], has_namespace: bool, has_default: bool) -> ImportInfo {
    ImportInfo {
        source: source.to_string(),
        specifiers: specifiers.iter().map(|s| s.to_string()).collect(),
        has_namespace,
        has_default,
    }
}

fn named(name: &str) -> ExportItem {
    ExportItem::Named(ExportInfo {
        name: name.to_string(),
        source: None,
    })
}

fn named_from(name: &str, source: &str) -> ExportItem {
    ExportItem::Named(ExportInfo {
        name: name.to_string(),
        source: Some(source.to_string()),
    })
}

fn file(imports: Vec<ImportInfo>, exports: Vec<ExportItem>) -> ParsedFile {
    ParsedFile { imports, exports }
}

fn run(sources: Vec<(&str, ParsedFile)>, entries: &[&str]) -> SweepyResult {
    sweepy(
        sources.into_iter().map(|(p, f)| (p.to_string(), f)).collect(),
        entries.iter().map(|e| e.to_string()).collect(),
    )
}

fn unused_pairs(r: &SweepyResult) -> Vec<(String, String)> {
    r.unused_exports
        .iter()
        .map(|u| (u.file.clone(), u.name.clone()))
        .collect()
}

fn strings(v: &[&str]) -> Vec<String> {
    v.iter().map(|s| s.to_string()).collect()
}

#[test]
fn scenario_named_import() {
    let r = run(
        vec![
            ("index.ts", file(vec![imp("./utils", &["foo"], false, false)], vec![])),
            ("utils.ts", file(vec![], vec![named("foo"), named("bar")])),
        ],
        &["index.ts"],
    );
    assert_eq!(r.reachable_files, strings(&["index.ts", "utils.ts"]));
    assert_eq!(
        unused_pairs(&r),
        vec![("utils.ts".to_string(), "bar".to_string())]
    );
}

#[test]
fn scenario_namespace_import() {
    let r = run(
        vec![
            ("index.ts", file(vec![imp("./utils", &[], true, false)], vec![])),
            ("utils.ts", file(vec![], vec![named("foo"), named("bar")])),
        ],
        &["index.ts"],
    );
    assert_eq!(r.reachable_files, strings(&["index.ts", "utils.ts"]));
    assert_eq!(unused_pairs(&r), vec![]);
}

#[test]
fn scenario_unreachable_exports_still_evaluated() {
    let r = run(
        vec![
            ("index.ts", file(vec![], vec![])),
            ("utils.ts", file(vec![], vec![named("foo")])),
        ],
        &["index.ts"],
    );
    assert_eq!(r.reachable_files, strings(&["index.ts"]));
    assert_eq!(
        unused_pairs(&r),
        vec![("utils.ts".to_string(), "foo".to_string())]
    );
}

#[test]
fn rerun_is_bit_identical() {
    let make = || {
        vec![
            (
                "index.ts",
                file(vec![imp("./b", &["x"], false, false)], vec![named("top")]),
            ),
            ("b.ts", file(vec![], vec![named("x"), named("y")])),
        ]
    };
    let r1 = run(make(), &["index.ts"]);
    let r2 = run(make(), &["index.ts"]);
    assert_eq!(r1.reachable_files, r2.reachable_files);
    assert_eq!(unused_pairs(&r1), unused_pairs(&r2));
}

#[test]
fn resolver_extension_probe_order() {
    let fs = strings(&["utils.ts", "utils.js"]);
    let r = resolve_relative_import_from_set("index.ts", "./utils", &fs);
    assert_eq!(r, Some("utils.ts".to_string()));
}

#[test]
fn resolver_substitutes_written_extension() {
    let fs = strings(&["utils.ts"]);
    let r = resolve_relative_import_from_set("index.ts", "./utils.js", &fs);
    assert_eq!(r, Some("utils.ts".to_string()));
}

#[test]
fn resolver_literal_match() {
    let fs = strings(&["utils.css"]);
    let r = resolve_relative_import_from_set("index.ts", "./utils.css", &fs);
    assert_eq!(r, Some("utils.css".to_string()));
}

#[test]
fn resolver_directory_index() {
    let fs = strings(&["utils/index.ts", "index.ts"]);
    let r = resolve_relative_import_from_set("index.ts", "./utils", &fs);
    assert_eq!(r, Some("utils/index.ts".to_string()));
}

#[test]
fn resolver_unresolvable_is_none() {
    let fs = strings(&["index.ts"]);
    assert_eq!(
        resolve_relative_import_from_set("index.ts", "./missing", &fs),
        None
    );
}

#[test]
fn resolver_canonicalizes_dot_segments() {
    let fs = strings(&["utils.ts", "deep/folder/module.ts"]);
    let r = resolve_relative_import_from_set("deep/folder/module.ts", "../../utils", &fs);
    assert_eq!(r, Some("utils.ts".to_string()));
}

#[test]
fn is_relative_classification() {
    assert!(is_relative("./utils"));
    assert!(is_relative("../utils"));
    assert!(!is_relative("lodash"));
    assert!(!is_relative(""));
}

#[test]
fn package_imports_produce_no_edges() {
    let r = run(
        vec![
            ("index.ts", file(vec![imp("lodash", &["map"], false, false)], vec![])),
            ("map.ts", file(vec![], vec![named("map")])),
        ],
        &["index.ts"],
    );
    assert_eq!(r.reachable_files, strings(&["index.ts"]));
    assert_eq!(
        unused_pairs(&r),
        vec![("map.ts".to_string(), "map".to_string())]
    );
}

#[test]
fn missing_entrypoints_are_ignored() {
    let r = run(
        vec![("index.ts", file(vec![], vec![]))],
        &["nope.ts", "index.ts"],
    );
    assert_eq!(r.reachable_files, strings(&["index.ts"]));
}

#[test]
fn all_entrypoints_missing_yields_empty_reachability() {
    let r = run(vec![("index.ts", file(vec![], vec![]))], &["nope.ts"]);
    assert_eq!(r.reachable_files, Vec::<String>::new());
}

#[test]
fn empty_input_yields_empty_result() {
    let r = run(vec![], &[]);
    assert_eq!(r.reachable_files, Vec::<String>::new());
    assert_eq!(unused_pairs(&r), vec![]);
}

#[test]
fn entrypoints_are_canonicalized() {
    let r = run(
        vec![("index.ts", file(vec![], vec![]))],
        &["./deep/../index.ts"],
    );
    assert_eq!(r.reachable_files, strings(&["index.ts"]));
}

#[test]
fn duplicate_canonical_keys_later_wins() {
    let r = run(
        vec![
            ("./utils.ts", file(vec![], vec![named("foo")])),
            ("utils.ts", file(vec![], vec![named("bar")])),
            ("index.ts", file(vec![], vec![])),
        ],
        &["index.ts"],
    );
    assert_eq!(
        unused_pairs(&r),
        vec![("utils.ts".to_string(), "bar".to_string())]
    );
}

#[test]
fn unused_exports_sorted_by_file_then_name() {
    let r = run(
        vec![
            ("b.ts", file(vec![], vec![named("z"), named("a")])),
            ("a.ts", file(vec![], vec![named("q")])),
        ],
        &[],
    );
    assert_eq!(
        unused_pairs(&r),
        vec![
            ("a.ts".to_string(), "q".to_string()),
            ("b.ts".to_string(), "a".to_string()),
            ("b.ts".to_string(), "z".to_string()),
        ]
    );
}

#[test]
fn duplicate_export_declarations_reported_once() {
    let r = run(
        vec![("a.ts", file(vec![], vec![named("x"), named("x")]))],
        &[],
    );
    assert_eq!(
        unused_pairs(&r),
        vec![("a.ts".to_string(), "x".to_string())]
    );
}

#[test]
fn aliased_reexport_keeps_source_name_unused() {
    let r = run(
        vec![
            ("index.ts", file(vec![imp("./barrel", &["myFoo"], false, false)], vec![])),
            ("barrel.ts", file(vec![], vec![named_from("myFoo", "./utils")])),
            ("utils.ts", file(vec![], vec![named("foo")])),
        ],
        &["index.ts"],
    );
    assert_eq!(
        r.reachable_files,
        strings(&["barrel.ts", "index.ts", "utils.ts"])
    );
    assert_eq!(
        unused_pairs(&r),
        vec![("utils.ts".to_string(), "foo".to_string())]
    );
}

#[test]
fn wildcard_reexport_forwards_requested_name() {
    let r = run(
        vec![
            ("index.ts", file(vec![imp("./barrel", &["a"], false, false)], vec![])),
            ("barrel.ts", file(vec![], vec![ExportItem::All("./utils".to_string())])),
            ("utils.ts", file(vec![], vec![named("a"), named("b")])),
        ],
        &["index.ts"],
    );
    assert_eq!(
        unused_pairs(&r),
        vec![("utils.ts".to_string(), "b".to_string())]
    );
}

#[test]
fn default_only_import_leaves_named_exports_unused() {
    let r = run(
        vec![
            ("index.ts", file(vec![imp("./utils", &[], false, true)], vec![])),
            ("utils.ts", file(vec![], vec![named("default"), named("other")])),
        ],
        &["index.ts"],
    );
    assert_eq!(
        unused_pairs(&r),
        vec![("utils.ts".to_string(), "other".to_string())]
    );
}

#[test]
fn default_entrypoints_probe_order() {
    let fs = strings(&["proj/index.ts", "proj/src/main.ts", "other.ts"]);
    let found = find_default_entrypoints("proj", &fs);
    assert_eq!(found, strings(&["proj/index.ts", "proj/src/main.ts"]));
}

#[test]
fn default_entrypoints_empty_root() {
    let fs = strings(&["src/index.ts", "index.ts"]);
    let found = find_default_entrypoints("", &fs);
    assert_eq!(found, strings(&["src/index.ts", "index.ts"]));
}

#[test]
fn resolver_replaces_only_last_extension() {
    let fs = strings(&["mod.spec.ts"]);
    let r = resolve_relative_import_from_set("index.ts", "./mod.spec.js", &fs);
    assert_eq!(r, Some("mod.spec.ts".to_string()));
}

#[test]
fn resolver_non_relative_never_resolves() {
    let fs = strings(&["lodash.ts", "lodash"]);
    assert_eq!(resolve_relative_import_from_set("index.ts", "lodash", &fs), None);
    assert_eq!(
        resolve_relative_import_from_set("index.ts", "lodash.ts", &fs),
        None
    );
}

#[test]
fn package_reexport_produces_no_edge() {
    let r = run(
        vec![
            ("index.ts", file(vec![imp("./barrel", &["map"], false, false)], vec![])),
            ("barrel.ts", file(vec![], vec![ExportItem::All("lodash".to_string())])),
            ("lodash.ts", file(vec![], vec![named("map")])),
        ],
        &["index.ts"],
    );
    assert_eq!(r.reachable_files, strings(&["barrel.ts", "index.ts"]));
    assert_eq!(
        unused_pairs(&r),
        vec![("lodash.ts".to_string(), "map".to_string())]
    );
}

#[test]
fn resolver_dots_only_component_has_no_extension() {
    let fs = strings(&["..ts", "...ts"]);
    assert_eq!(resolve_relative_import_from_set("index.ts", "..", &fs), None);
}

#[test]
fn two_hop_wildcard_chain_forwards_usage() {
    let r = run(
        vec![
            ("index.ts", file(vec![imp("./barrel2", &["foo"], false, false)], vec![])),
            ("barrel2.ts", file(vec![], vec![ExportItem::All("./barrel1".to_string())])),
            ("barrel1.ts", file(vec![], vec![ExportItem::All("./utils".to_string())])),
            ("utils.ts", file(vec![], vec![named("foo"), named("bar")])),
        ],
        &["index.ts"],
    );
    assert_eq!(
        r.reachable_files,
        strings(&["barrel1.ts", "barrel2.ts", "index.ts", "utils.ts"])
    );
    assert_eq!(
        unused_pairs(&r),
        vec![("utils.ts".to_string(), "bar".to_string())]
    );
}

#[test]
fn three_hop_named_chain_forwards_usage() {
    let r = run(
        vec![
            ("index.ts", file(vec![imp("./c", &["foo"], false, false)], vec![])),
            ("c.ts", file(vec![], vec![named_from("foo", "./b")])),
            ("b.ts", file(vec![], vec![named_from("foo", "./a")])),
            ("a.ts", file(vec![], vec![named_from("foo", "./utils")])),
            ("utils.ts", file(vec![], vec![named("foo")])),
        ],
        &["index.ts"],
    );
    assert_eq!(unused_pairs(&r), vec![]);
}

#[test]
fn namespace_import_at_end_of_chain() {
    let r = run(
        vec![
            ("index.ts", file(vec![imp("./barrel2", &[], true, false)], vec![])),
            ("barrel2.ts", file(vec![], vec![ExportItem::All("./barrel1".to_string())])),
            ("barrel1.ts", file(vec![], vec![ExportItem::All("./utils".to_string())])),
            ("utils.ts", file(vec![], vec![named("foo"), named("bar")])),
        ],
        &["index.ts"],
    );
    assert_eq!(unused_pairs(&r), vec![]);
}

#[test]
fn alias_breaks_a_forwarding_chain() {
    let r = run(
        vec![
            ("index.ts", file(vec![imp("./barrel2", &["myFoo"], false, false)], vec![])),
            ("barrel2.ts", file(vec![], vec![named_from("myFoo", "./barrel1")])),
            ("barrel1.ts", file(vec![], vec![named_from("foo", "./utils")])),
            ("utils.ts", file(vec![], vec![named("foo")])),
        ],
        &["index.ts"],
    );
    assert_eq!(
        unused_pairs(&r),
        vec![
            ("barrel1.ts".to_string(), "foo".to_string()),
            ("utils.ts".to_string(), "foo".to_string()),
        ]
    );
}

#[test]
fn unconsumed_chain_leaves_origin_unused() {
    let r = run(
        vec![
            ("index.ts", file(vec![], vec![])),
            ("barrel2.ts", file(vec![], vec![ExportItem::All("./barrel1".to_string())])),
            ("barrel1.ts", file(vec![], vec![ExportItem::All("./utils".to_string())])),
            ("utils.ts", file(vec![], vec![named("foo")])),
        ],
        &["index.ts"],
    );
    assert_eq!(
        unused_pairs(&r),
        vec![("utils.ts".to_string(), "foo".to_string())]
    );
}

#[test]
fn reexport_cycle_terminates_and_forwards() {
    let r = run(
        vec![
            ("index.ts", file(vec![imp("./a", &["foo"], false, false)], vec![])),
            (
                "a.ts",
                file(vec![], vec![ExportItem::All("./b".to_string())]),
            ),
            (
                "b.ts",
                file(vec![], vec![ExportItem::All("./a".to_string()), named("foo")]),
            ),
        ],
        &["index.ts"],
    );
    assert_eq!(unused_pairs(&r), vec![]);
}
