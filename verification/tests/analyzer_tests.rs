//! End-to-end tests: TypeScript/JavaScript sources are parsed with oxc into
//! import/export records, and the analysis is checked against expected
//! reachable sets and unused-export lists.

use oxc_allocator::Allocator;
use oxc_ast::ast::{Declaration, ImportDeclarationSpecifier, Program, Statement};
use oxc_parser::Parser;
use oxc_span::SourceType;
use std::path::Path;
use sweepy::{ExportInfo, ExportItem, ImportInfo, ParsedFile, ProjectAnalyzer};

fn named_local(name: String) -> ExportItem {
    ExportItem::Named(ExportInfo { name, source: None })
}

fn extract_records(program: &Program) -> ParsedFile {
    let mut imports: Vec<ImportInfo> = Vec::new();
    let mut exports: Vec<ExportItem> = Vec::new();

    for stmt in &program.body {
        match stmt {
            Statement::ImportDeclaration(import) => {
                let source = import.source.value.to_string();
                let mut specifiers = Vec::new();
                let mut has_namespace = false;
                let mut has_default = false;
                if let Some(specs) = &import.specifiers {
                    for spec in specs {
                        match spec {
                            ImportDeclarationSpecifier::ImportSpecifier(named) => {
                                specifiers.push(named.imported.name().to_string());
                            }
                            ImportDeclarationSpecifier::ImportNamespaceSpecifier(_) => {
                                has_namespace = true;
                            }
                            ImportDeclarationSpecifier::ImportDefaultSpecifier(_) => {
                                has_default = true;
                            }
                        }
                    }
                }
                imports.push(ImportInfo {
                    source,
                    specifiers,
                    has_namespace,
                    has_default,
                });
            }
            Statement::ExportNamedDeclaration(export) => {
                if let Some(src) = &export.source {
                    for spec in &export.specifiers {
                        let exported = spec
                            .exported
                            .identifier_name()
                            .map(|n| n.to_string())
                            .or_else(|| spec.local.identifier_name().map(|n| n.to_string()))
                            .unwrap_or_else(|| "<unknown>".to_string());
                        exports.push(ExportItem::Named(ExportInfo {
                            name: exported,
                            source: Some(src.value.to_string()),
                        }));
                    }
                } else {
                    if let Some(decl) = &export.declaration {
                        match decl {
                            Declaration::TSInterfaceDeclaration(d) => {
                                exports.push(named_local(d.id.name.to_string()));
                            }
                            Declaration::TSTypeAliasDeclaration(d) => {
                                exports.push(named_local(d.id.name.to_string()));
                            }
                            Declaration::TSEnumDeclaration(d) => {
                                exports.push(named_local(d.id.name.to_string()));
                            }
                            Declaration::TSModuleDeclaration(d) => {
                                exports.push(named_local(d.id.name().to_string()));
                            }
                            Declaration::FunctionDeclaration(d) => {
                                if let Some(id) = &d.id {
                                    exports.push(named_local(id.name.to_string()));
                                }
                            }
                            Declaration::VariableDeclaration(d) => {
                                for declarator in &d.declarations {
                                    let name = declarator
                                        .id
                                        .get_identifier_name()
                                        .map(|n| n.to_string())
                                        .unwrap_or_else(|| "<unknown>".to_string());
                                    exports.push(named_local(name));
                                }
                            }
                            Declaration::ClassDeclaration(d) => {
                                if let Some(id) = &d.id {
                                    exports.push(named_local(id.name.to_string()));
                                }
                            }
                            _ => {}
                        }
                    }
                    for spec in &export.specifiers {
                        let exported = spec
                            .exported
                            .identifier_name()
                            .map(|n| n.to_string())
                            .or_else(|| spec.local.identifier_name().map(|n| n.to_string()))
                            .unwrap_or_else(|| "<unknown>".to_string());
                        exports.push(named_local(exported));
                    }
                }
            }
            Statement::ExportDefaultDeclaration(_) => {
                exports.push(named_local("default".to_string()));
            }
            Statement::ExportAllDeclaration(e) => {
                exports.push(ExportItem::All(e.source.value.to_string()));
            }
            _ => {}
        }
    }

    ParsedFile { imports, exports }
}

fn extract(path: &str, source: &str) -> ParsedFile {
    let allocator = Allocator::default();
    let source_type = SourceType::from_path(Path::new(path)).unwrap_or_else(|_| SourceType::ts());
    let parsed = Parser::new(&allocator, source, source_type).parse();
    extract_records(&parsed.program)
}

fn build(files: &[(&str, &str)]) -> ProjectAnalyzer {
    let sources: Vec<(String, ParsedFile)> = files
        .iter()
        .map(|(p, c)| (p.to_string(), extract(p, c)))
        .collect();
    ProjectAnalyzer::from_sources(sources)
}

fn assert_reachable(analyzer: &ProjectAnalyzer, entries: &[&str], expected: &[&str]) {
    let reachable = analyzer.compute_reachable(entries.iter().map(|e| e.to_string()).collect());
    for path in expected {
        assert!(
            reachable.iter().any(|p| p == path),
            "expected {} to be reachable",
            path
        );
    }
}

fn assert_unused(analyzer: &ProjectAnalyzer, expected: &[(&str, &str)]) {
    let mut unused = analyzer.find_unused_exports();
    let mut expected_sorted: Vec<(String, String)> = expected
        .iter()
        .map(|(f, n)| (f.to_string(), n.to_string()))
        .collect();
    expected_sorted.sort();
    unused.sort();
    assert_eq!(unused, expected_sorted);
}

#[test]
fn named_exports_all_unused() {
    let analyzer = build(&[
        ("index.ts", "console.log('entry');"),
        ("utils.ts", "export const foo = 1;\nexport function bar() {}"),
    ]);
    assert_reachable(&analyzer, &["index.ts"], &["index.ts"]);
    assert_unused(&analyzer, &[("utils.ts", "bar"), ("utils.ts", "foo")]);
}

#[test]
fn named_exports_some_used() {
    let analyzer = build(&[
        ("index.ts", "import { foo } from './utils';"),
        ("utils.ts", "export const foo = 1;\nexport const bar = 2;"),
    ]);
    assert_reachable(&analyzer, &["index.ts"], &["index.ts", "utils.ts"]);
    assert_unused(&analyzer, &[("utils.ts", "bar")]);
}

#[test]
fn named_exports_all_used() {
    let analyzer = build(&[
        ("index.ts", "import { foo, bar } from './utils';"),
        ("utils.ts", "export const foo = 1;\nexport const bar = 2;"),
    ]);
    assert_reachable(&analyzer, &["index.ts"], &["index.ts", "utils.ts"]);
    assert_unused(&analyzer, &[]);
}

#[test]
fn type_only_imports() {
    let analyzer = build(&[
        (
            "index.ts",
            "import type { MyType } from './types'; import { foo } from './types';",
        ),
        (
            "types.ts",
            "export type MyType = string;\nexport const foo = 1;\nexport const bar = 2;",
        ),
    ]);
    assert_reachable(&analyzer, &["index.ts"], &["index.ts", "types.ts"]);
    assert_unused(&analyzer, &[("types.ts", "bar")]);
}

#[test]
fn default_export_unused() {
    let analyzer = build(&[
        ("index.ts", "console.log('entry');"),
        ("utils.ts", "export default function foo() {}"),
    ]);
    assert_reachable(&analyzer, &["index.ts"], &["index.ts"]);
    assert_unused(&analyzer, &[("utils.ts", "default")]);
}

#[test]
fn default_export_used() {
    let analyzer = build(&[
        ("index.ts", "import foo from './utils';"),
        ("utils.ts", "export default function foo() {}"),
    ]);
    assert_reachable(&analyzer, &["index.ts"], &["index.ts", "utils.ts"]);
    assert_unused(&analyzer, &[]);
}

#[test]
fn mixed_default_and_named() {
    let analyzer = build(&[
        ("index.ts", "import foo, { bar } from './utils';"),
        (
            "utils.ts",
            "export default function foo() {}\nexport const bar = 1;\nexport const baz = 2;",
        ),
    ]);
    assert_reachable(&analyzer, &["index.ts"], &["index.ts", "utils.ts"]);
    assert_unused(&analyzer, &[("utils.ts", "baz")]);
}

#[test]
fn namespace_import_marks_all_used() {
    let analyzer = build(&[
        ("index.ts", "import * as utils from './utils';"),
        ("utils.ts", "export const foo = 1;\nexport const bar = 2;"),
    ]);
    assert_reachable(&analyzer, &["index.ts"], &["index.ts", "utils.ts"]);
    assert_unused(&analyzer, &[]);
}

#[test]
fn reexport_all_unused() {
    let analyzer = build(&[
        ("index.ts", "console.log('entry');"),
        ("barrel.ts", "export * from './utils';"),
        ("utils.ts", "export const foo = 1;"),
    ]);
    assert_reachable(&analyzer, &["index.ts"], &["index.ts"]);
    assert_unused(&analyzer, &[("utils.ts", "foo")]);
}

#[test]
fn reexport_all_used() {
    let analyzer = build(&[
        ("index.ts", "import { foo } from './barrel';"),
        ("barrel.ts", "export * from './utils';"),
        ("utils.ts", "export const foo = 1;\nexport const bar = 2;"),
    ]);
    assert_reachable(
        &analyzer,
        &["index.ts"],
        &["index.ts", "barrel.ts", "utils.ts"],
    );
    assert_unused(&analyzer, &[("utils.ts", "bar")]);
}

#[test]
fn reexport_named() {
    let analyzer = build(&[
        ("index.ts", "import { foo } from './barrel';"),
        ("barrel.ts", "export { foo, bar } from './utils';"),
        (
            "utils.ts",
            "export const foo = 1;\nexport const bar = 2;\nexport const baz = 3;",
        ),
    ]);
    assert_reachable(
        &analyzer,
        &["index.ts"],
        &["index.ts", "barrel.ts", "utils.ts"],
    );
    assert_unused(
        &analyzer,
        &[("barrel.ts", "bar"), ("utils.ts", "bar"), ("utils.ts", "baz")],
    );
}

#[test]
fn reexport_with_alias() {
    let analyzer = build(&[
        ("index.ts", "import { myFoo } from './barrel';"),
        ("barrel.ts", "export { foo as myFoo } from './utils';"),
        ("utils.ts", "export const foo = 1;\nexport const bar = 2;"),
    ]);
    assert_reachable(
        &analyzer,
        &["index.ts"],
        &["index.ts", "barrel.ts", "utils.ts"],
    );
    // The alias export creates a new export name, so 'foo' from utils is not
    // directly used; only 'bar' remains unused besides it.
    assert_unused(&analyzer, &[("utils.ts", "bar"), ("utils.ts", "foo")]);
}

#[test]
fn namespace_import_via_reexport() {
    let analyzer = build(&[
        ("index.ts", "import * as utils from './barrel';"),
        ("barrel.ts", "export * from './utils';"),
        ("utils.ts", "export const foo = 1;\nexport const bar = 2;"),
    ]);
    assert_reachable(
        &analyzer,
        &["index.ts"],
        &["index.ts", "barrel.ts", "utils.ts"],
    );
    assert_unused(&analyzer, &[]);
}

#[test]
fn deep_relative_path() {
    let analyzer = build(&[
        ("index.ts", "import './deep/folder/module';"),
        ("deep/folder/module.ts", "import { foo } from '../../utils';"),
        ("utils.ts", "export const foo = 1;\nexport const bar = 2;"),
    ]);
    assert_reachable(
        &analyzer,
        &["index.ts"],
        &["index.ts", "deep/folder/module.ts", "utils.ts"],
    );
    assert_unused(&analyzer, &[("utils.ts", "bar")]);
}

#[test]
fn import_with_js_extension() {
    let analyzer = build(&[
        ("index.ts", "import { foo } from './utils.js';"),
        ("utils.ts", "export const foo = 1;\nexport const bar = 2;"),
    ]);
    assert_reachable(&analyzer, &["index.ts"], &["index.ts", "utils.ts"]);
    assert_unused(&analyzer, &[("utils.ts", "bar")]);
}

#[test]
fn index_file_resolution() {
    let analyzer = build(&[
        ("index.ts", "import { foo } from './utils/index';"),
        ("utils/index.ts", "export const foo = 1;\nexport const bar = 2;"),
    ]);
    assert_reachable(&analyzer, &["index.ts"], &["index.ts", "utils/index.ts"]);
    assert_unused(&analyzer, &[("utils/index.ts", "bar")]);
}

#[test]
fn side_effect_import_makes_file_reachable() {
    let analyzer = build(&[
        ("index.ts", "import './setup';"),
        ("setup.ts", "console.log('setup');\nexport const config = {};"),
    ]);
    assert_reachable(&analyzer, &["index.ts"], &["index.ts", "setup.ts"]);
    assert_unused(&analyzer, &[("setup.ts", "config")]);
}

#[test]
fn multiple_entrypoints() {
    let analyzer = build(&[
        ("entry1.ts", "import { foo } from './utils';"),
        ("entry2.ts", "import { bar } from './utils';"),
        (
            "utils.ts",
            "export const foo = 1;\nexport const bar = 2;\nexport const baz = 3;",
        ),
    ]);
    assert_reachable(
        &analyzer,
        &["entry1.ts", "entry2.ts"],
        &["entry1.ts", "entry2.ts", "utils.ts"],
    );
    assert_unused(&analyzer, &[("utils.ts", "baz")]);
}

#[test]
fn import_with_alias() {
    let analyzer = build(&[
        ("index.ts", "import { foo as myFoo } from './utils';"),
        ("utils.ts", "export const foo = 1;\nexport const bar = 2;"),
    ]);
    assert_reachable(&analyzer, &["index.ts"], &["index.ts", "utils.ts"]);
    assert_unused(&analyzer, &[("utils.ts", "bar")]);
}

#[test]
fn js_and_ts_files() {
    let analyzer = build(&[
        ("index.ts", "import { foo } from './utils.js';"),
        ("utils.js", "export const foo = 1;\nexport const bar = 2;"),
    ]);
    assert_reachable(&analyzer, &["index.ts"], &["index.ts", "utils.js"]);
    assert_unused(&analyzer, &[("utils.js", "bar")]);
}

#[test]
fn jsx_file() {
    let analyzer = build(&[
        ("index.tsx", "import { Component } from './component.jsx';"),
        (
            "component.jsx",
            "export const Component = () => {};\nexport const Other = () => {};",
        ),
    ]);
    assert_reachable(&analyzer, &["index.tsx"], &["index.tsx", "component.jsx"]);
    assert_unused(&analyzer, &[("component.jsx", "Other")]);
}

#[test]
fn circular_imports() {
    let analyzer = build(&[
        ("index.ts", "import { foo } from './a';"),
        ("a.ts", "import { bar } from './b';\nexport const foo = 1;"),
        ("b.ts", "import { foo } from './a';\nexport const bar = 2;"),
    ]);
    assert_reachable(&analyzer, &["index.ts"], &["index.ts", "a.ts", "b.ts"]);
    assert_unused(&analyzer, &[]);
}

#[test]
fn reexport_chain_two_barrels() {
    let analyzer = build(&[
        ("index.ts", "import { foo } from './barrel2';"),
        ("barrel2.ts", "export * from './barrel1';"),
        ("barrel1.ts", "export * from './utils';"),
        ("utils.ts", "export const foo = 1;\nexport const bar = 2;"),
    ]);
    assert_reachable(
        &analyzer,
        &["index.ts"],
        &["index.ts", "barrel2.ts", "barrel1.ts", "utils.ts"],
    );
    assert_unused(&analyzer, &[("utils.ts", "bar")]);
}
