//! Static analysis of a set of JavaScript/TypeScript modules: which files are
//! reachable from a set of entrypoints, and which exported symbols are never
//! consumed by any other module, accounting for re-exports, namespace
//! imports, default exports and aliasing.
//!
//! The analysis consumes already-extracted per-file import/export records
//! ([`ParsedFile`]); extracting them from source text is the caller's job.

mod analyzer;
mod laws;
mod order;
mod paths;
mod records;
mod resolver;

pub use analyzer::ProjectAnalyzer;
pub use paths::is_relative;
pub use records::{ExportInfo, ExportItem, ImportInfo, ParsedFile};
pub use resolver::resolve_relative_import_from_set;

use crate::analyzer::{norm_table, reachable, table_view, unused_export, TableRec};
use crate::order::{lex_lt, pair_lt, pairs_view};
use crate::paths::join_paths;
use crate::resolver::path_set;
use vstd::prelude::*;

verus! {

/// One unused export: the file that declares it and the exported name.
#[derive(Debug)]
pub struct UnusedExport {
    pub file: String,
    pub name: String,
}

impl View for UnusedExport {
    type V = (Seq<char>, Seq<char>);

    open spec fn view(&self) -> (Seq<char>, Seq<char>) {
        (self.file@, self.name@)
    }
}

/// The result of one analysis run: the reachable files and the unused
/// exports, each sorted and deduplicated.
#[derive(Debug)]
pub struct SweepyResult {
    pub reachable_files: Vec<String>,
    pub unused_exports: Vec<UnusedExport>,
}

/// What [`sweepy`] returns, characterized over the canonicalized module table
/// `t` and the entrypoint list `eps`: the reachable files, strictly sorted,
/// and the unused exports, strictly sorted by file then name.
pub open spec fn sweepy_post(
    t: TableRec,
    eps: Seq<Seq<char>>,
    reach: Seq<Seq<char>>,
    unused: Seq<(Seq<char>, Seq<char>)>,
) -> bool {
    &&& forall|a: int, b: int|
        0 <= a < b < reach.len() ==> lex_lt(#[trigger] reach[a], #[trigger] reach[b])
    &&& forall|x: Seq<char>| #[trigger] reach.contains(x) == reachable(t, eps, x)
    &&& forall|a: int, b: int|
        0 <= a < b < unused.len() ==> pair_lt(#[trigger] unused[a], #[trigger] unused[b])
    &&& forall|m: Seq<char>, n: Seq<char>|
        #[trigger] unused.contains((m, n)) == unused_export(t, m, n)
}

/// Repackage sorted `(file, name)` pairs as [`UnusedExport`] records.
fn to_unused_exports(v: &Vec<(String, String)>) -> (r: Vec<UnusedExport>)
    ensures
        r@.map_values(|u: UnusedExport| u@) == pairs_view(v@),
{
    let mut r: Vec<UnusedExport> = Vec::new();
    let mut i: usize = 0;
    while i < v.len()
        invariant
            i <= v@.len(),
            r@.len() == i,
            forall|j: int| 0 <= j < i ==> (#[trigger] r@[j])@ == pairs_view(v@)[j],
        decreases v@.len() - i,
    {
        r.push(UnusedExport { file: v[i].0.clone(), name: v[i].1.clone() });
        i += 1;
    }
    proof {
        assert(r@.map_values(|u: UnusedExport| u@) =~= pairs_view(v@));
    }
    r
}

/// Run the whole analysis on extracted sources: build the module table
/// (canonicalizing paths; a later entry for the same canonical path wins),
/// then report the files reachable from `entries` and the unused exports.
/// Reachability and export usage are independent queries: exports of
/// unreachable files are still evaluated. No input makes this fail.
pub fn sweepy(sources: Vec<(String, ParsedFile)>, entries: Vec<String>) -> (r: SweepyResult)
    ensures
        sweepy_post(
            norm_table(table_view(sources@)),
            entries.deep_view(),
            r.reachable_files.deep_view(),
            r.unused_exports@.map_values(|u: UnusedExport| u@),
        ),
{
    let ghost eps = entries.deep_view();
    let analyzer = ProjectAnalyzer::from_sources(sources);
    let reach_raw = analyzer.compute_reachable(entries);
    let ghost reach_unsorted = reach_raw.deep_view();
    let reachable_files = crate::order::sort_strings(reach_raw);
    proof {
        crate::order::lemma_sort_strings_post(reach_unsorted, reachable_files.deep_view());
    }
    let unused_pairs = analyzer.find_unused_exports();
    let unused_exports = to_unused_exports(&unused_pairs);
    SweepyResult { reachable_files, unused_exports }
}

/// The conventional entrypoint files, in their fixed probe order, kept only
/// where they exist in the file set.
pub open spec fn default_entrypoints_spec(root: Seq<char>, fs: Set<Seq<char>>) -> Seq<Seq<char>> {
    let c1 = join_paths(root, "src/index.ts"@);
    let c2 = join_paths(root, "src/index.tsx"@);
    let c3 = join_paths(root, "index.ts"@);
    let c4 = join_paths(root, "index.tsx"@);
    let c5 = join_paths(root, "src/main.ts"@);
    let c6 = join_paths(root, "src/main.tsx"@);
    (if fs.contains(c1) {
        seq![c1]
    } else {
        Seq::empty()
    }) + (if fs.contains(c2) {
        seq![c2]
    } else {
        Seq::empty()
    }) + (if fs.contains(c3) {
        seq![c3]
    } else {
        Seq::empty()
    }) + (if fs.contains(c4) {
        seq![c4]
    } else {
        Seq::empty()
    }) + (if fs.contains(c5) {
        seq![c5]
    } else {
        Seq::empty()
    }) + (if fs.contains(c6) {
        seq![c6]
    } else {
        Seq::empty()
    })
}

/// Probe the conventional entrypoint paths under `root` against the file
/// set, keeping the existing ones in the fixed probe order.
pub fn find_default_entrypoints(root: &str, file_set: &Vec<String>) -> (r: Vec<String>)
    ensures
        r.deep_view() == default_entrypoints_spec(root@, path_set(file_set@)),
{
    broadcast use vstd::set::group_set_axioms;

    let mut r: Vec<String> = Vec::new();
    let c1 = crate::paths::join_path(root, "src/index.ts");
    let c2 = crate::paths::join_path(root, "src/index.tsx");
    let c3 = crate::paths::join_path(root, "index.ts");
    let c4 = crate::paths::join_path(root, "index.tsx");
    let c5 = crate::paths::join_path(root, "src/main.ts");
    let c6 = crate::paths::join_path(root, "src/main.tsx");
    proof {
        assert(file_set@.map_values(|s: String| s@) =~= file_set.deep_view());
    }
    if crate::order::contains_str(file_set, c1.as_str()) {
        r.push(c1);
    }
    if crate::order::contains_str(file_set, c2.as_str()) {
        r.push(c2);
    }
    if crate::order::contains_str(file_set, c3.as_str()) {
        r.push(c3);
    }
    if crate::order::contains_str(file_set, c4.as_str()) {
        r.push(c4);
    }
    if crate::order::contains_str(file_set, c5.as_str()) {
        r.push(c5);
    }
    if crate::order::contains_str(file_set, c6.as_str()) {
        r.push(c6);
    }
    proof {
        assert(r.deep_view() =~= default_entrypoints_spec(root@, path_set(file_set@)));
    }
    r
}

} // verus!
