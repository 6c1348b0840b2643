//! The extracted per-file import/export records the analysis consumes.
//!
//! These are the two semantic shapes of module linkage statements: import
//! records (named, default, namespace or side-effect imports) and export
//! items (a named or default export, possibly re-exported from another
//! specifier, or a wildcard re-export).

use vstd::prelude::*;

verus! {

/// One `import` statement, as extracted from a module.
#[derive(Debug)]
pub struct ImportInfo {
    /// The module specifier exactly as written, e.g. `./foo`.
    pub source: String,
    /// Imported names; empty for a side-effect or pure namespace import.
    pub specifiers: Vec<String>,
    /// True for `import * as ns from ...`.
    pub has_namespace: bool,
    /// True for `import def from ...`.
    pub has_default: bool,
}

/// Mathematical view of an [`ImportInfo`].
pub ghost struct ImportRec {
    pub source: Seq<char>,
    pub specifiers: Seq<Seq<char>>,
    pub has_namespace: bool,
    pub has_default: bool,
}

impl View for ImportInfo {
    type V = ImportRec;

    open spec fn view(&self) -> ImportRec {
        ImportRec {
            source: self.source@,
            specifiers: self.specifiers.deep_view(),
            has_namespace: self.has_namespace,
            has_default: self.has_default,
        }
    }
}

/// A named export: declared locally (`source` is `None`) or re-exported from
/// another specifier. A default export is a named export called `default`.
#[derive(Debug)]
pub struct ExportInfo {
    pub name: String,
    pub source: Option<String>,
}

/// One export item of a module.
#[derive(Debug)]
pub enum ExportItem {
    Named(ExportInfo),
    /// `export * from '<specifier>'`.
    All(String),
}

/// Mathematical view of an [`ExportItem`].
#[allow(inconsistent_fields)]
pub ghost enum ExportRec {
    Named { name: Seq<char>, source: Option<Seq<char>> },
    All { source: Seq<char> },
}

impl View for ExportItem {
    type V = ExportRec;

    open spec fn view(&self) -> ExportRec {
        match self {
            ExportItem::Named(e) => ExportRec::Named {
                name: e.name@,
                source: match e.source {
                    Some(s) => Some(s@),
                    None => None,
                },
            },
            ExportItem::All(s) => ExportRec::All { source: s@ },
        }
    }
}

/// The extracted records of one module: its imports and its exports.
#[derive(Debug)]
pub struct ParsedFile {
    pub imports: Vec<ImportInfo>,
    pub exports: Vec<ExportItem>,
}

/// Mathematical view of a [`ParsedFile`].
pub ghost struct FileRec {
    pub imports: Seq<ImportRec>,
    pub exports: Seq<ExportRec>,
}

impl View for ParsedFile {
    type V = FileRec;

    open spec fn view(&self) -> FileRec {
        FileRec {
            imports: self.imports@.map_values(|x: ImportInfo| x@),
            exports: self.exports@.map_values(|x: ExportItem| x@),
        }
    }
}

/// Clone a vector of strings, keeping its contents exactly.
pub fn clone_strings(v: &Vec<String>) -> (r: Vec<String>)
    ensures
        r.deep_view() == v.deep_view(),
{
    let mut r: Vec<String> = Vec::new();
    let mut i: usize = 0;
    while i < v.len()
        invariant
            i <= v@.len(),
            r@.len() == i,
            forall|j: int| 0 <= j < i ==> r.deep_view()[j] == v.deep_view()[j],
        decreases v@.len() - i,
    {
        r.push(v[i].clone());
        i += 1;
    }
    proof {
        assert(r.deep_view() =~= v.deep_view());
    }
    r
}

impl Clone for ImportInfo {
    /// The clone has exactly the view of the original.
    fn clone(&self) -> (r: Self)
        ensures
            r@ == self@,
    {
        let r = ImportInfo {
            source: self.source.clone(),
            specifiers: clone_strings(&self.specifiers),
            has_namespace: self.has_namespace,
            has_default: self.has_default,
        };
        r
    }
}

/// Does this import record ask for export `name` of its target? A namespace
/// import asks for every name; a default import asks for `default`; a named
/// import asks for the names it lists.
pub open spec fn import_requests(imp: ImportRec, name: Seq<char>) -> bool {
    ||| imp.has_namespace
    ||| (name == "default"@ && imp.has_default)
    ||| imp.specifiers.contains(name)
}

/// Decide [`import_requests`] for an extracted import record.
pub fn satisfies_import(imp: &ImportInfo, name: &str) -> (b: bool)
    ensures
        b == import_requests(imp@, name@),
{
    if imp.has_namespace {
        true
    } else if imp.has_default && crate::order::str_eq(name, "default") {
        true
    } else {
        crate::order::contains_str(&imp.specifiers, name)
    }
}

} // verus!
