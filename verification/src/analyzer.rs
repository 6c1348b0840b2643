//! The module table, the dependency graph, the usage index, reachability and
//! the unused-export resolver.

use crate::order::{contains_str, str_eq};
use crate::paths::{is_relative, is_relative_spec, norm_of, normalize};
use crate::records::{ExportItem, FileRec, ImportInfo, ImportRec, ParsedFile};
use crate::resolver::{path_set, resolve_spec};
use vstd::prelude::*;

verus! {

/// The mathematical module table: canonical path and records of each file.
pub type TableRec = Seq<(Seq<char>, FileRec)>;

/// View of the stored module table.
pub open spec fn table_view(files: Seq<(String, ParsedFile)>) -> TableRec {
    files.map_values(|e: (String, ParsedFile)| (e.0@, e.1@))
}

/// View of the stored adjacency list.
pub open spec fn graph_view(g: Seq<(String, Vec<String>)>) -> Seq<(Seq<char>, Seq<Seq<char>>)> {
    g.map_values(|e: (String, Vec<String>)| (e.0@, e.1.deep_view()))
}

/// View of the stored usage index.
pub open spec fn usage_view(u: Seq<(String, Vec<(String, ImportInfo)>)>) -> Seq<
    (Seq<char>, Seq<(Seq<char>, ImportRec)>),
> {
    u.map_values(
        |e: (String, Vec<(String, ImportInfo)>)|
            (e.0@, e.1@.map_values(|p: (String, ImportInfo)| (p.0@, p.1@))),
    )
}

/// No two entries share a key.
pub open spec fn uniq_keys<T>(t: Seq<(Seq<char>, T)>) -> bool {
    forall|i: int, j: int| 0 <= i < j < t.len() ==> (#[trigger] t[i]).0 != (#[trigger] t[j]).0
}

pub open spec fn table_has_key<T>(t: Seq<(Seq<char>, T)>, k: Seq<char>) -> bool {
    exists|i: int| 0 <= i < t.len() && (#[trigger] t[i]).0 == k
}

pub open spec fn key_index<T>(t: Seq<(Seq<char>, T)>, k: Seq<char>) -> int {
    choose|i: int| 0 <= i < t.len() && (#[trigger] t[i]).0 == k
}

/// The keys of the table, in table order.
pub open spec fn key_seq(t: TableRec) -> Seq<Seq<char>> {
    t.map_values(|e: (Seq<char>, FileRec)| e.0)
}

/// The set of canonical paths the table knows.
pub open spec fn table_keys(t: TableRec) -> Set<Seq<char>> {
    key_seq(t).to_set()
}

/// Every key of the table is its own canonical form: canonicalizing a key
/// changes nothing.
pub open spec fn keys_canonical(t: TableRec) -> bool {
    forall|i: int| 0 <= i < t.len() ==> norm_of((#[trigger] t[i]).0) == t[i].0
}

/// Insert under key `k`, replacing an existing entry in place.
pub open spec fn insert_entry(acc: TableRec, k: Seq<char>, f: FileRec) -> TableRec {
    if table_has_key(acc, k) {
        acc.update(key_index(acc, k), (k, f))
    } else {
        acc.push((k, f))
    }
}

pub open spec fn norm_table_aux(acc: TableRec, rest: TableRec) -> TableRec
    decreases rest.len(),
{
    if rest.len() == 0 {
        acc
    } else {
        norm_table_aux(insert_entry(acc, norm_of(rest[0].0), rest[0].1), rest.drop_first())
    }
}

/// The module table built from raw sources: keys canonicalized, a later
/// entry for the same canonical path replacing the earlier one in place.
pub open spec fn norm_table(src: TableRec) -> TableRec {
    norm_table_aux(Seq::empty(), src)
}

/// Import record `j` of entry `i` resolves to file `to`: the dependency edge
/// and usage entry it generates.
pub open spec fn import_edge_at(t: TableRec, i: int, j: int, to: Seq<char>) -> bool {
    &&& 0 <= i < t.len()
    &&& 0 <= j < t[i].1.imports.len()
    &&& is_relative_spec(t[i].1.imports[j].source)
    &&& resolve_spec(t[i].0, t[i].1.imports[j].source, table_keys(t)) == Some(to)
}

/// Export item `j` of entry `i` re-exports from file `to`: the structural
/// dependency edge it generates.
pub open spec fn export_edge_at(t: TableRec, i: int, j: int, to: Seq<char>) -> bool {
    &&& 0 <= i < t.len()
    &&& 0 <= j < t[i].1.exports.len()
    &&& match t[i].1.exports[j] {
        crate::records::ExportRec::Named { name, source } => source matches Some(s)
            && resolve_spec(t[i].0, s, table_keys(t)) == Some(to),
        crate::records::ExportRec::All { source } => resolve_spec(t[i].0, source, table_keys(t))
            == Some(to),
    }
}

/// Edges generated by records strictly before position (`i0`; import `ja`,
/// export `jb`) in the table.
pub open spec fn import_edge_before(t: TableRec, i0: int, ja: int, from: Seq<char>, to: Seq<char>) -> bool {
    exists|i: int, j: int|
        t[i].0 == from && #[trigger] import_edge_at(t, i, j, to) && (i < i0 || (i == i0 && j < ja))
}

pub open spec fn export_edge_before(t: TableRec, i0: int, jb: int, from: Seq<char>, to: Seq<char>) -> bool {
    exists|i: int, j: int|
        t[i].0 == from && #[trigger] export_edge_at(t, i, j, to) && (i < i0 || (i == i0 && j < jb))
}

pub open spec fn edge_before(
    t: TableRec,
    i0: int,
    ja: int,
    jb: int,
    from: Seq<char>,
    to: Seq<char>,
) -> bool {
    import_edge_before(t, i0, ja, from, to) || export_edge_before(t, i0, jb, from, to)
}

/// The dependency graph: module `from` depends on file `to`, through a
/// resolvable relative import or a resolvable re-export source.
pub open spec fn has_edge(t: TableRec, from: Seq<char>, to: Seq<char>) -> bool {
    edge_before(t, t.len() as int, 0, 0, from, to)
}

/// Usage pairs generated by import records strictly before (`i0`, `ja`).
pub open spec fn pair_generated_before(
    t: TableRec,
    i0: int,
    ja: int,
    m: Seq<char>,
    pr: (Seq<char>, ImportRec),
) -> bool {
    exists|i: int, j: int|
        #[trigger] import_edge_at(t, i, j, m) && pr.0 == t[i].0 && pr.1 == t[i].1.imports[j] && (i
            < i0 || (i == i0 && j < ja))
}

/// The usage index of target `m` holds pair `pr`: some import record of
/// module `pr.0`, with record `pr.1`, resolves to `m`.
pub open spec fn pair_generated(t: TableRec, m: Seq<char>, pr: (Seq<char>, ImportRec)) -> bool {
    pair_generated_before(t, t.len() as int, 0, m, pr)
}

/// Membership of a pair in the stored usage index.
pub open spec fn usage_has_pair(
    u: Seq<(Seq<char>, Seq<(Seq<char>, ImportRec)>)>,
    m: Seq<char>,
    pr: (Seq<char>, ImportRec),
) -> bool {
    exists|k: int, l: int|
        #![trigger u[k].1[l]]
        0 <= k < u.len() && u[k].0 == m && 0 <= l < u[k].1.len() && u[k].1[l] == pr
}

/// Membership of an edge in the stored adjacency list.
pub open spec fn graph_has(
    g: Seq<(Seq<char>, Seq<Seq<char>>)>,
    from: Seq<char>,
    to: Seq<char>,
) -> bool {
    exists|i: int, j: int|
        #![trigger g[i].1[j]]
        0 <= i < g.len() && g[i].0 == from && 0 <= j < g[i].1.len() && g[i].1[j] == to
}

/// The analyzer: the module table and the two structures derived from it.
pub struct ProjectAnalyzer {
    /// Canonical path of each analyzed file and its extracted records.
    pub files: Vec<(String, ParsedFile)>,
    /// Adjacency: each file and the files it statically depends on.
    pub graph: Vec<(String, Vec<String>)>,
    /// Reverse index: each target file and the (importer, record) pairs
    /// whose import resolves to it.
    pub import_usage: Vec<(String, Vec<(String, ImportInfo)>)>,
}

impl ProjectAnalyzer {
    /// The mathematical module table this analyzer holds.
    pub open spec fn table(&self) -> TableRec {
        table_view(self.files@)
    }

    /// The derived structures are exactly those the table generates.
    pub open spec fn wf(&self) -> bool {
        &&& uniq_keys(self.table())
        &&& uniq_keys(graph_view(self.graph@))
        &&& uniq_keys(usage_view(self.import_usage@))
        &&& forall|from: Seq<char>, to: Seq<char>|
            graph_has(graph_view(self.graph@), from, to) == has_edge(self.table(), from, to)
        &&& forall|m: Seq<char>, pr: (Seq<char>, ImportRec)|
            usage_has_pair(usage_view(self.import_usage@), m, pr) == pair_generated(
                self.table(),
                m,
                pr,
            )
    }
}

/// First entry with key `k`, if any.
fn find_key(files: &Vec<(String, ParsedFile)>, k: &str) -> (r: Option<usize>)
    ensures
        match r {
            Some(i) => i < files@.len() && table_view(files@)[i as int].0 == k@,
            None => !table_has_key(table_view(files@), k@),
        },
{
    let mut i: usize = 0;
    while i < files.len()
        invariant
            i <= files@.len(),
            forall|j: int| 0 <= j < i ==> table_view(files@)[j].0 != k@,
        decreases files@.len() - i,
    {
        if str_eq(files[i].0.as_str(), k) {
            return Some(i);
        }
        i += 1;
    }
    None
}

/// Build the module table: canonicalize every path, a later entry for the
/// same canonical path replacing the earlier one.
#[verifier::loop_isolation(false)]
fn build_table(sources: Vec<(String, ParsedFile)>) -> (r: Vec<(String, ParsedFile)>)
    ensures
        uniq_keys(table_view(r@)),
        keys_canonical(table_view(r@)),
        table_view(r@) == norm_table(table_view(sources@)),
{
    let ghost orig: TableRec = table_view(sources@);
    let mut rest = sources;
    let mut files: Vec<(String, ParsedFile)> = Vec::new();
    proof {
        assert(table_view(files@) =~= Seq::<(Seq<char>, FileRec)>::empty());
    }
    while rest.len() > 0
        invariant
            uniq_keys(table_view(files@)),
            keys_canonical(table_view(files@)),
            norm_table_aux(table_view(files@), table_view(rest@)) == norm_table(orig),
        decreases rest@.len(),
    {
        let ghost pre_files = table_view(files@);
        let ghost pre_rest = table_view(rest@);
        let (p, f) = rest.remove(0);
        let ghost pv = p@;
        let ghost fv = f@;
        proof {
            assert(table_view(rest@) =~= pre_rest.drop_first());
            assert(pre_rest[0] == (pv, fv));
        }
        let k = normalize(p.as_str());
        match find_key(&files, k.as_str()) {
            Some(i) => {
                let _ = files.remove(i);
                files.insert(i, (k, f));
                proof {
                    assert(table_has_key(pre_files, norm_of(pv)));
                    let ci = key_index(pre_files, norm_of(pv));
                    assert(0 <= ci < pre_files.len() && pre_files[ci].0 == norm_of(pv));
                    assert(ci == i as int);
                    assert(table_view(files@) =~= pre_files.update(i as int, (norm_of(pv), fv)));
                    assert(table_view(files@) == insert_entry(pre_files, norm_of(pv), fv));
                    assert(uniq_keys(table_view(files@))) by {
                        assert(forall|x: int|
                            0 <= x < pre_files.len() ==> (#[trigger] table_view(files@)[x]).0
                                == pre_files[x].0);
                    }
                    assert(keys_canonical(table_view(files@))) by {
                        assert(forall|x: int|
                            0 <= x < pre_files.len() ==> (#[trigger] table_view(files@)[x]).0
                                == pre_files[x].0);
                    }
                }
            },
            None => {
                files.push((k, f));
                proof {
                    assert(table_view(files@) =~= pre_files.push((norm_of(pv), fv)));
                    assert(table_view(files@) == insert_entry(pre_files, norm_of(pv), fv));
                    assert(uniq_keys(table_view(files@))) by {
                        assert(forall|x: int|
                            0 <= x < pre_files.len() ==> (#[trigger] table_view(files@)[x]).0
                                == pre_files[x].0);
                        assert(forall|x: int|
                            0 <= x < pre_files.len() ==> (#[trigger] pre_files[x]).0 != norm_of(
                                pv,
                            ));
                    }
                    assert(keys_canonical(table_view(files@))) by {
                        assert(forall|x: int|
                            0 <= x < pre_files.len() ==> (#[trigger] table_view(files@)[x]).0
                                == pre_files[x].0);
                        assert(table_view(files@)[pre_files.len() as int].0 == norm_of(pv));
                    }
                }
            },
        }
    }
    proof {
        assert(table_view(rest@).len() == 0);
    }
    files
}

/// The canonical paths of the table, in order.
#[verifier::loop_isolation(false)]
fn keys_vec(files: &Vec<(String, ParsedFile)>) -> (r: Vec<String>)
    ensures
        r.deep_view() == key_seq(table_view(files@)),
{
    let mut keys: Vec<String> = Vec::new();
    let mut i: usize = 0;
    while i < files.len()
        invariant
            i <= files@.len(),
            keys@.len() == i,
            forall|j: int| 0 <= j < i ==> keys.deep_view()[j] == table_view(files@)[j].0,
        decreases files@.len() - i,
    {
        let ghost pre = keys.deep_view();
        keys.push(files[i].0.clone());
        proof {
            assert(keys.deep_view() =~= pre.push(files@[i as int].0@));
        }
        i += 1;
    }
    proof {
        assert(keys.deep_view() =~= key_seq(table_view(files@)));
    }
    keys
}

/// The path set of the keys vector is the table's key set.
pub proof fn lemma_keys_set(keys: Seq<String>, t: TableRec)
    requires
        keys.map_values(|s: String| s@) =~= key_seq(t),
    ensures
        path_set(keys) == table_keys(t),
{
}

/// First adjacency entry with key `p`, if any.
fn find_graph_key(graph: &Vec<(String, Vec<String>)>, p: &str) -> (r: Option<usize>)
    ensures
        match r {
            Some(i) => i < graph@.len() && graph_view(graph@)[i as int].0 == p@,
            None => forall|j: int| 0 <= j < graph@.len() ==> graph_view(graph@)[j].0 != p@,
        },
{
    let mut i: usize = 0;
    while i < graph.len()
        invariant
            i <= graph@.len(),
            forall|j: int| 0 <= j < i ==> graph_view(graph@)[j].0 != p@,
        decreases graph@.len() - i,
    {
        if str_eq(graph[i].0.as_str(), p) {
            return Some(i);
        }
        i += 1;
    }
    None
}

/// First usage entry with key `m`, if any.
fn find_usage_key(usage: &Vec<(String, Vec<(String, ImportInfo)>)>, m: &str) -> (r: Option<usize>)
    ensures
        match r {
            Some(i) => i < usage@.len() && usage_view(usage@)[i as int].0 == m@,
            None => forall|j: int| 0 <= j < usage@.len() ==> usage_view(usage@)[j].0 != m@,
        },
{
    let mut i: usize = 0;
    while i < usage.len()
        invariant
            i <= usage@.len(),
            forall|j: int| 0 <= j < i ==> usage_view(usage@)[j].0 != m@,
        decreases usage@.len() - i,
    {
        if str_eq(usage[i].0.as_str(), m) {
            return Some(i);
        }
        i += 1;
    }
    None
}

/// Record the edge `p -> t` in the adjacency list, once.
#[verifier::loop_isolation(false)]
fn add_edge(graph: &mut Vec<(String, Vec<String>)>, p: &String, t: &String)
    requires
        uniq_keys(graph_view(old(graph)@)),
    ensures
        uniq_keys(graph_view(final(graph)@)),
        forall|from: Seq<char>, to: Seq<char>|
            graph_has(graph_view(final(graph)@), from, to) == (graph_has(
                graph_view(old(graph)@),
                from,
                to,
            ) || (from == p@ && to == t@)),
{
    let ghost oldg = graph_view(graph@);
    match find_graph_key(graph, p.as_str()) {
        Some(x) => {
            let already = contains_str(&graph[x].1, t.as_str());
            if !already {
                let ghost oldvec = graph@;
                let mut entry = graph.remove(x);
                entry.1.push(t.clone());
                let ghost e1dv = entry.1.deep_view();
                graph.insert(x, entry);
                proof {
                    assert(e1dv =~= oldg[x as int].1.push(t@));
                    assert forall|y: int| 0 <= y < oldvec.len() && y != x as int implies graph@[y]
                        == oldvec[y] by {
                        if y < x as int {
                            assert(graph@[y] == oldvec.remove(x as int)[y]);
                        } else {
                            assert(graph@[y] == oldvec.remove(x as int)[y - 1]);
                        }
                    }
                    assert(graph_view(graph@) =~= oldg.update(
                        x as int,
                        (oldg[x as int].0, oldg[x as int].1.push(t@)),
                    ));
                    let g2 = graph_view(graph@);
                    assert(uniq_keys(g2)) by {
                        assert(forall|y: int|
                            0 <= y < oldg.len() ==> (#[trigger] g2[y]).0 == oldg[y].0);
                    }
                    assert forall|from: Seq<char>, to: Seq<char>|
                        graph_has(g2, from, to) == (graph_has(oldg, from, to) || (from == p@ && to
                        == t@)) by {
                        if graph_has(g2, from, to) {
                            let (a, b): (int, int) = choose|a: int, b: int|
                                #![trigger g2[a].1[b]]
                                0 <= a < g2.len() && g2[a].0 == from && 0 <= b < g2[a].1.len()
                                    && g2[a].1[b] == to;
                            if a == x as int && b == oldg[x as int].1.len() {
                                assert(from == p@ && to == t@);
                            } else {
                                assert(0 <= a < oldg.len() && oldg[a].0 == from && 0 <= b
                                    < oldg[a].1.len() && oldg[a].1[b] == to);
                                assert(graph_has(oldg, from, to));
                            }
                        }
                        if graph_has(oldg, from, to) {
                            let (a, b): (int, int) = choose|a: int, b: int|
                                #![trigger oldg[a].1[b]]
                                0 <= a < oldg.len() && oldg[a].0 == from && 0 <= b
                                    < oldg[a].1.len() && oldg[a].1[b] == to;
                            assert(0 <= a < g2.len() && g2[a].0 == from && 0 <= b < g2[a].1.len()
                                && g2[a].1[b] == to);
                            assert(graph_has(g2, from, to));
                        }
                        if from == p@ && to == t@ {
                            let b = oldg[x as int].1.len() as int;
                            assert(g2[x as int].0 == from);
                            assert(g2[x as int].1[b] == to);
                            assert(graph_has(g2, from, to));
                        }
                    }
                }
            } else {
                proof {
                    assert(graph_has(oldg, p@, t@)) by {
                        let dv = graph@[x as int].1.deep_view();
                        assert(dv.contains(t@));
                        let b = choose|b: int| 0 <= b < dv.len() && dv[b] == t@;
                        assert(oldg[x as int].1[b] == t@);
                    }
                }
            }
        },
        None => {
            let mut v: Vec<String> = Vec::new();
            v.push(t.clone());
            let ghost vdv = v.deep_view();
            graph.push((p.clone(), v));
            proof {
                assert(vdv =~= seq![t@]);
                assert(graph_view(graph@) =~= oldg.push((p@, vdv)));
                let g2 = graph_view(graph@);
                assert(uniq_keys(g2)) by {
                    assert(forall|y: int|
                        0 <= y < oldg.len() ==> (#[trigger] g2[y]).0 == oldg[y].0);
                    assert(forall|j: int|
                        0 <= j < oldg.len() ==> (#[trigger] oldg[j]).0 != p@);
                }
                assert forall|from: Seq<char>, to: Seq<char>|
                    graph_has(g2, from, to) == (graph_has(oldg, from, to) || (from == p@ && to
                    == t@)) by {
                    if graph_has(g2, from, to) {
                        let (a, b): (int, int) = choose|a: int, b: int|
                            #![trigger g2[a].1[b]]
                            0 <= a < g2.len() && g2[a].0 == from && 0 <= b < g2[a].1.len()
                                && g2[a].1[b] == to;
                        if a == oldg.len() {
                            assert(from == p@ && to == t@);
                        } else {
                            assert(0 <= a < oldg.len() && oldg[a].0 == from && 0 <= b
                                < oldg[a].1.len() && oldg[a].1[b] == to);
                            assert(graph_has(oldg, from, to));
                        }
                    }
                    if graph_has(oldg, from, to) {
                        let (a, b): (int, int) = choose|a: int, b: int|
                            #![trigger oldg[a].1[b]]
                            0 <= a < oldg.len() && oldg[a].0 == from && 0 <= b < oldg[a].1.len()
                                && oldg[a].1[b] == to;
                        assert(0 <= a < g2.len() && g2[a].0 == from && 0 <= b < g2[a].1.len()
                            && g2[a].1[b] == to);
                        assert(graph_has(g2, from, to));
                    }
                    if from == p@ && to == t@ {
                        assert(g2[oldg.len() as int].0 == from);
                        assert(g2[oldg.len() as int].1[0] == to);
                        assert(graph_has(g2, from, to));
                    }
                }
            }
        },
    }
}

/// Record the usage pair `(p, imp)` under target `m`.
#[verifier::loop_isolation(false)]
fn add_usage(
    usage: &mut Vec<(String, Vec<(String, ImportInfo)>)>,
    m: &String,
    p: &String,
    imp: &ImportInfo,
)
    requires
        uniq_keys(usage_view(old(usage)@)),
    ensures
        uniq_keys(usage_view(final(usage)@)),
        forall|mm: Seq<char>, pr: (Seq<char>, ImportRec)|
            usage_has_pair(usage_view(final(usage)@), mm, pr) == (usage_has_pair(
                usage_view(old(usage)@),
                mm,
                pr,
            ) || (mm == m@ && pr == (p@, imp@))),
{
    let ghost oldu = usage_view(usage@);
    match find_usage_key(usage, m.as_str()) {
        Some(x) => {
            let ghost oldvec = usage@;
            let mut entry = usage.remove(x);
            entry.1.push((p.clone(), imp.clone()));
            let ghost e1v = entry.1@.map_values(|q: (String, ImportInfo)| (q.0@, q.1@));
            usage.insert(x, entry);
            proof {
                assert(e1v =~= oldu[x as int].1.push((p@, imp@)));
                assert forall|y: int| 0 <= y < oldvec.len() && y != x as int implies usage@[y]
                    == oldvec[y] by {
                    if y < x as int {
                        assert(usage@[y] == oldvec.remove(x as int)[y]);
                    } else {
                        assert(usage@[y] == oldvec.remove(x as int)[y - 1]);
                    }
                }
                assert(usage_view(usage@) =~= oldu.update(
                    x as int,
                    (oldu[x as int].0, oldu[x as int].1.push((p@, imp@))),
                ));
                let u2 = usage_view(usage@);
                assert(uniq_keys(u2)) by {
                    assert(forall|y: int|
                        0 <= y < oldu.len() ==> (#[trigger] u2[y]).0 == oldu[y].0);
                }
                assert forall|mm: Seq<char>, pr: (Seq<char>, ImportRec)|
                    usage_has_pair(u2, mm, pr) == (usage_has_pair(oldu, mm, pr) || (mm == m@ && pr
                    == (p@, imp@))) by {
                    if usage_has_pair(u2, mm, pr) {
                        let (a, b): (int, int) = choose|a: int, b: int|
                            #![trigger u2[a].1[b]]
                            0 <= a < u2.len() && u2[a].0 == mm && 0 <= b < u2[a].1.len()
                                && u2[a].1[b] == pr;
                        if a == x as int && b == oldu[x as int].1.len() {
                            assert(mm == m@ && pr == (p@, imp@));
                        } else {
                            assert(0 <= a < oldu.len() && oldu[a].0 == mm && 0 <= b
                                < oldu[a].1.len() && oldu[a].1[b] == pr);
                            assert(usage_has_pair(oldu, mm, pr));
                        }
                    }
                    if usage_has_pair(oldu, mm, pr) {
                        let (a, b): (int, int) = choose|a: int, b: int|
                            #![trigger oldu[a].1[b]]
                            0 <= a < oldu.len() && oldu[a].0 == mm && 0 <= b < oldu[a].1.len()
                                && oldu[a].1[b] == pr;
                        assert(0 <= a < u2.len() && u2[a].0 == mm && 0 <= b < u2[a].1.len()
                            && u2[a].1[b] == pr);
                        assert(usage_has_pair(u2, mm, pr));
                    }
                    if mm == m@ && pr == (p@, imp@) {
                        let b = oldu[x as int].1.len() as int;
                        assert(u2[x as int].0 == mm);
                        assert(u2[x as int].1[b] == pr);
                        assert(usage_has_pair(u2, mm, pr));
                    }
                }
            }
        },
        None => {
            let mut v: Vec<(String, ImportInfo)> = Vec::new();
            v.push((p.clone(), imp.clone()));
            let ghost vv = v@.map_values(|q: (String, ImportInfo)| (q.0@, q.1@));
            usage.push((m.clone(), v));
            proof {
                assert(vv =~= seq![(p@, imp@)]);
                assert(usage_view(usage@) =~= oldu.push((m@, vv)));
                let u2 = usage_view(usage@);
                assert(uniq_keys(u2)) by {
                    assert(forall|y: int|
                        0 <= y < oldu.len() ==> (#[trigger] u2[y]).0 == oldu[y].0);
                    assert(forall|j: int|
                        0 <= j < oldu.len() ==> (#[trigger] oldu[j]).0 != m@);
                }
                assert forall|mm: Seq<char>, pr: (Seq<char>, ImportRec)|
                    usage_has_pair(u2, mm, pr) == (usage_has_pair(oldu, mm, pr) || (mm == m@ && pr
                    == (p@, imp@))) by {
                    if usage_has_pair(u2, mm, pr) {
                        let (a, b): (int, int) = choose|a: int, b: int|
                            #![trigger u2[a].1[b]]
                            0 <= a < u2.len() && u2[a].0 == mm && 0 <= b < u2[a].1.len()
                                && u2[a].1[b] == pr;
                        if a == oldu.len() {
                            assert(mm == m@ && pr == (p@, imp@));
                        } else {
                            assert(0 <= a < oldu.len() && oldu[a].0 == mm && 0 <= b
                                < oldu[a].1.len() && oldu[a].1[b] == pr);
                            assert(usage_has_pair(oldu, mm, pr));
                        }
                    }
                    if usage_has_pair(oldu, mm, pr) {
                        let (a, b): (int, int) = choose|a: int, b: int|
                            #![trigger oldu[a].1[b]]
                            0 <= a < oldu.len() && oldu[a].0 == mm && 0 <= b < oldu[a].1.len()
                                && oldu[a].1[b] == pr;
                        assert(0 <= a < u2.len() && u2[a].0 == mm && 0 <= b < u2[a].1.len()
                            && u2[a].1[b] == pr);
                        assert(usage_has_pair(u2, mm, pr));
                    }
                    if mm == m@ && pr == (p@, imp@) {
                        assert(u2[oldu.len() as int].0 == mm);
                        assert(u2[oldu.len() as int].1[0] == pr);
                        assert(usage_has_pair(u2, mm, pr));
                    }
                }
            }
        },
    }
}

/// The file import record `j` of entry `i` points at, if it is a relative,
/// resolvable import.
pub open spec fn import_target(t: TableRec, i: int, j: int) -> Option<Seq<char>> {
    if is_relative_spec(t[i].1.imports[j].source) {
        resolve_spec(t[i].0, t[i].1.imports[j].source, table_keys(t))
    } else {
        None
    }
}

/// The file export item `j` of entry `i` re-exports from, if any.
pub open spec fn export_target(t: TableRec, i: int, j: int) -> Option<Seq<char>> {
    match t[i].1.exports[j] {
        crate::records::ExportRec::Named { name, source } => match source {
            Some(s) => resolve_spec(t[i].0, s, table_keys(t)),
            None => None,
        },
        crate::records::ExportRec::All { source } => resolve_spec(t[i].0, source, table_keys(t)),
    }
}

/// Processing import record `j` of entry `i` adds exactly its edge and its
/// usage pair, if it has any.
proof fn lemma_import_step(t: TableRec, i: int, j: int, jb: int)
    requires
        0 <= i < t.len(),
        0 <= j < t[i].1.imports.len(),
    ensures
        forall|from: Seq<char>, to: Seq<char>|
            edge_before(t, i, j + 1, jb, from, to) == (edge_before(t, i, j, jb, from, to) || (
            import_target(t, i, j) matches Some(x) && from == t[i].0 && to == x)),
        forall|m: Seq<char>, pr: (Seq<char>, ImportRec)|
            pair_generated_before(t, i, j + 1, m, pr) == (pair_generated_before(t, i, j, m, pr)
                || (import_target(t, i, j) matches Some(x) && m == x && pr == (
            t[i].0,
            t[i].1.imports[j],
            ))),
{
    assert forall|from: Seq<char>, to: Seq<char>|
        edge_before(t, i, j + 1, jb, from, to) == (edge_before(t, i, j, jb, from, to) || (
        import_target(t, i, j) matches Some(x) && from == t[i].0 && to == x)) by {
        if import_edge_before(t, i, j + 1, from, to) {
            let (a, b): (int, int) = choose|a: int, b: int|
                t[a].0 == from && #[trigger] import_edge_at(t, a, b, to) && (a < i || (a == i && b
                    < j + 1));
            if a == i && b == j {
                assert(import_target(t, i, j) == Some(to));
            } else {
                assert(import_edge_before(t, i, j, from, to));
            }
        }
        if import_edge_before(t, i, j, from, to) {
            let (a, b): (int, int) = choose|a: int, b: int|
                t[a].0 == from && #[trigger] import_edge_at(t, a, b, to) && (a < i || (a == i && b
                    < j));
            assert(import_edge_before(t, i, j + 1, from, to));
        }
        if import_target(t, i, j) matches Some(x) && from == t[i].0 && to == x {
            assert(import_edge_at(t, i, j, to));
            assert(import_edge_before(t, i, j + 1, from, to));
        }
    }
    assert forall|m: Seq<char>, pr: (Seq<char>, ImportRec)|
        pair_generated_before(t, i, j + 1, m, pr) == (pair_generated_before(t, i, j, m, pr) || (
        import_target(t, i, j) matches Some(x) && m == x && pr == (t[i].0, t[i].1.imports[j]))) by {
        if pair_generated_before(t, i, j + 1, m, pr) {
            let (a, b): (int, int) = choose|a: int, b: int|
                #[trigger] import_edge_at(t, a, b, m) && pr.0 == t[a].0 && pr.1
                    == t[a].1.imports[b] && (a < i || (a == i && b < j + 1));
            if a == i && b == j {
                assert(import_target(t, i, j) == Some(m));
            } else {
                assert(pair_generated_before(t, i, j, m, pr));
            }
        }
        if pair_generated_before(t, i, j, m, pr) {
            let (a, b): (int, int) = choose|a: int, b: int|
                #[trigger] import_edge_at(t, a, b, m) && pr.0 == t[a].0 && pr.1
                    == t[a].1.imports[b] && (a < i || (a == i && b < j));
            assert(pair_generated_before(t, i, j + 1, m, pr));
        }
        if import_target(t, i, j) matches Some(x) && m == x && pr == (t[i].0, t[i].1.imports[j]) {
            assert(import_edge_at(t, i, j, m));
            assert(pair_generated_before(t, i, j + 1, m, pr));
        }
    }
}

/// Processing export item `j` of entry `i` adds exactly its edge, if it has
/// one.
proof fn lemma_export_step(t: TableRec, i: int, j: int, ja: int)
    requires
        0 <= i < t.len(),
        0 <= j < t[i].1.exports.len(),
    ensures
        forall|from: Seq<char>, to: Seq<char>|
            edge_before(t, i, ja, j + 1, from, to) == (edge_before(t, i, ja, j, from, to) || (
            export_target(t, i, j) matches Some(x) && from == t[i].0 && to == x)),
{
    assert forall|from: Seq<char>, to: Seq<char>|
        edge_before(t, i, ja, j + 1, from, to) == (edge_before(t, i, ja, j, from, to) || (
        export_target(t, i, j) matches Some(x) && from == t[i].0 && to == x)) by {
        if export_edge_before(t, i, j + 1, from, to) {
            let (a, b): (int, int) = choose|a: int, b: int|
                t[a].0 == from && #[trigger] export_edge_at(t, a, b, to) && (a < i || (a == i && b
                    < j + 1));
            if a == i && b == j {
                assert(export_target(t, i, j) == Some(to));
            } else {
                assert(export_edge_before(t, i, j, from, to));
            }
        }
        if export_edge_before(t, i, j, from, to) {
            let (a, b): (int, int) = choose|a: int, b: int|
                t[a].0 == from && #[trigger] export_edge_at(t, a, b, to) && (a < i || (a == i && b
                    < j));
            assert(export_edge_before(t, i, j + 1, from, to));
        }
        if export_target(t, i, j) matches Some(x) && from == t[i].0 && to == x {
            assert(export_edge_at(t, i, j, to));
            assert(export_edge_before(t, i, j + 1, from, to));
        }
    }
}

/// Finishing entry `i` is the same as standing before entry `i + 1`.
proof fn lemma_entry_roll(t: TableRec, i: int)
    requires
        0 <= i < t.len(),
    ensures
        forall|from: Seq<char>, to: Seq<char>|
            edge_before(
                t,
                i,
                t[i].1.imports.len() as int,
                t[i].1.exports.len() as int,
                from,
                to,
            ) == edge_before(t, i + 1, 0, 0, from, to),
        forall|m: Seq<char>, pr: (Seq<char>, ImportRec)|
            pair_generated_before(t, i, t[i].1.imports.len() as int, m, pr)
                == pair_generated_before(t, i + 1, 0, m, pr),
{
    let la = t[i].1.imports.len() as int;
    let lb = t[i].1.exports.len() as int;
    assert forall|from: Seq<char>, to: Seq<char>|
        edge_before(t, i, la, lb, from, to) == edge_before(t, i + 1, 0, 0, from, to) by {
        if import_edge_before(t, i, la, from, to) {
            let (a, b): (int, int) = choose|a: int, b: int|
                t[a].0 == from && #[trigger] import_edge_at(t, a, b, to) && (a < i || (a == i && b
                    < la));
            assert(import_edge_before(t, i + 1, 0, from, to));
        }
        if export_edge_before(t, i, lb, from, to) {
            let (a, b): (int, int) = choose|a: int, b: int|
                t[a].0 == from && #[trigger] export_edge_at(t, a, b, to) && (a < i || (a == i && b
                    < lb));
            assert(export_edge_before(t, i + 1, 0, from, to));
        }
        if import_edge_before(t, i + 1, 0, from, to) {
            let (a, b): (int, int) = choose|a: int, b: int|
                t[a].0 == from && #[trigger] import_edge_at(t, a, b, to) && (a < i + 1 || (a == i
                    + 1 && b < 0));
            assert(import_edge_before(t, i, la, from, to));
        }
        if export_edge_before(t, i + 1, 0, from, to) {
            let (a, b): (int, int) = choose|a: int, b: int|
                t[a].0 == from && #[trigger] export_edge_at(t, a, b, to) && (a < i + 1 || (a == i
                    + 1 && b < 0));
            assert(export_edge_before(t, i, lb, from, to));
        }
    }
    assert forall|m: Seq<char>, pr: (Seq<char>, ImportRec)|
        pair_generated_before(t, i, la, m, pr) == pair_generated_before(t, i + 1, 0, m, pr) by {
        if pair_generated_before(t, i, la, m, pr) {
            let (a, b): (int, int) = choose|a: int, b: int|
                #[trigger] import_edge_at(t, a, b, m) && pr.0 == t[a].0 && pr.1
                    == t[a].1.imports[b] && (a < i || (a == i && b < la));
            assert(pair_generated_before(t, i + 1, 0, m, pr));
        }
        if pair_generated_before(t, i + 1, 0, m, pr) {
            let (a, b): (int, int) = choose|a: int, b: int|
                #[trigger] import_edge_at(t, a, b, m) && pr.0 == t[a].0 && pr.1
                    == t[a].1.imports[b] && (a < i + 1 || (a == i + 1 && b < 0));
            assert(pair_generated_before(t, i, la, m, pr));
        }
    }
}

impl ProjectAnalyzer {
    /// Build the analyzer from extracted sources: the module table with
    /// canonicalized keys (a later entry for the same canonical path wins),
    /// the dependency graph, and the reverse usage index. Every structure is
    /// exactly what the table generates; nothing here can fail.
    #[verifier::loop_isolation(false)]
    pub fn from_sources(sources: Vec<(String, ParsedFile)>) -> (r: Self)
        ensures
            r.wf(),
            keys_canonical(r.table()),
            r.table() == norm_table(table_view(sources@)),
    {
        let files = build_table(sources);
        let keys = keys_vec(&files);
        let ghost t = table_view(files@);
        proof {
            assert(keys@.map_values(|s: String| s@) =~= keys.deep_view());
            lemma_keys_set(keys@, t);
        }
        let mut graph: Vec<(String, Vec<String>)> = Vec::new();
        let mut usage: Vec<(String, Vec<(String, ImportInfo)>)> = Vec::new();
        let mut i: usize = 0;
        while i < files.len()
            invariant
                i <= files@.len(),
                uniq_keys(graph_view(graph@)),
                uniq_keys(usage_view(usage@)),
                forall|from: Seq<char>, to: Seq<char>|
                    graph_has(graph_view(graph@), from, to) == edge_before(
                        t,
                        i as int,
                        0,
                        0,
                        from,
                        to,
                    ),
                forall|m: Seq<char>, pr: (Seq<char>, ImportRec)|
                    usage_has_pair(usage_view(usage@), m, pr) == pair_generated_before(
                        t,
                        i as int,
                        0,
                        m,
                        pr,
                    ),
            decreases files@.len() - i,
        {
            let mut j: usize = 0;
            while j < files[i].1.imports.len()
                invariant
                    i < files@.len(),
                    j <= t[i as int].1.imports.len(),
                    uniq_keys(graph_view(graph@)),
                    uniq_keys(usage_view(usage@)),
                    forall|from: Seq<char>, to: Seq<char>|
                        graph_has(graph_view(graph@), from, to) == edge_before(
                            t,
                            i as int,
                            j as int,
                            0,
                            from,
                            to,
                        ),
                    forall|m: Seq<char>, pr: (Seq<char>, ImportRec)|
                        usage_has_pair(usage_view(usage@), m, pr) == pair_generated_before(
                            t,
                            i as int,
                            j as int,
                            m,
                            pr,
                        ),
                decreases t[i as int].1.imports.len() - j,
            {
                let imp = &files[i].1.imports[j];
                proof {
                    assert(imp@ == t[i as int].1.imports[j as int]);
                }
                let mut resolved: Option<String> = None;
                if is_relative(imp.source.as_str()) {
                    resolved = crate::resolver::resolve_relative_import_from_set(
                        files[i].0.as_str(),
                        imp.source.as_str(),
                        &keys,
                    );
                }
                proof {
                    assert(crate::resolver::view_opt(resolved) == import_target(
                        t,
                        i as int,
                        j as int,
                    ));
                }
                let ghost gpre = graph_view(graph@);
                let ghost upre = usage_view(usage@);
                proof {
                    assert(files@[i as int].0@ == t[i as int].0);
                }
                match resolved {
                    Some(target) => {
                        add_edge(&mut graph, &files[i].0, &target);
                        add_usage(&mut usage, &target, &files[i].0, imp);
                        proof {
                            lemma_import_step(t, i as int, j as int, 0);
                            assert forall|from: Seq<char>, to: Seq<char>|
                                graph_has(graph_view(graph@), from, to) == edge_before(
                                t,
                                i as int,
                                j as int + 1,
                                0,
                                from,
                                to,
                            ) by {
                                assert(graph_has(graph_view(graph@), from, to) == (graph_has(
                                    gpre,
                                    from,
                                    to,
                                ) || (from == t[i as int].0 && to == target@)));
                                assert(graph_has(gpre, from, to) == edge_before(
                                    t,
                                    i as int,
                                    j as int,
                                    0,
                                    from,
                                    to,
                                ));
                                assert(edge_before(t, i as int, j as int + 1, 0, from, to) == (
                                edge_before(t, i as int, j as int, 0, from, to) || (from == t[
                                    i as int].0 && to == target@)));
                            }
                            assert forall|m: Seq<char>, pr: (Seq<char>, ImportRec)|
                                usage_has_pair(usage_view(usage@), m, pr)
                                == pair_generated_before(t, i as int, j as int + 1, m, pr) by {
                                assert(usage_has_pair(usage_view(usage@), m, pr) == (
                                usage_has_pair(upre, m, pr) || (m == target@ && pr == (
                                    t[i as int].0,
                                    t[i as int].1.imports[j as int],
                                ))));
                                assert(usage_has_pair(upre, m, pr) == pair_generated_before(
                                    t,
                                    i as int,
                                    j as int,
                                    m,
                                    pr,
                                ));
                                assert(pair_generated_before(t, i as int, j as int + 1, m, pr)
                                    == (pair_generated_before(t, i as int, j as int, m, pr) || (m
                                    == target@ && pr == (
                                    t[i as int].0,
                                    t[i as int].1.imports[j as int],
                                ))));
                            }
                        }
                    },
                    None => {
                        proof {
                            lemma_import_step(t, i as int, j as int, 0);
                            assert forall|from: Seq<char>, to: Seq<char>|
                                graph_has(graph_view(graph@), from, to) == edge_before(
                                t,
                                i as int,
                                j as int + 1,
                                0,
                                from,
                                to,
                            ) by {
                                assert(graph_has(graph_view(graph@), from, to) == edge_before(
                                    t,
                                    i as int,
                                    j as int,
                                    0,
                                    from,
                                    to,
                                ));
                                assert(edge_before(t, i as int, j as int + 1, 0, from, to)
                                    == edge_before(t, i as int, j as int, 0, from, to));
                            }
                            assert forall|m: Seq<char>, pr: (Seq<char>, ImportRec)|
                                usage_has_pair(usage_view(usage@), m, pr)
                                == pair_generated_before(t, i as int, j as int + 1, m, pr) by {
                                assert(usage_has_pair(usage_view(usage@), m, pr)
                                    == pair_generated_before(t, i as int, j as int, m, pr));
                                assert(pair_generated_before(t, i as int, j as int + 1, m, pr)
                                    == pair_generated_before(t, i as int, j as int, m, pr));
                            }
                        }
                    },
                }
                j += 1;
            }
            let mut j: usize = 0;
            proof {
                assert(t[i as int].1.imports.len() == files@[i as int].1.imports@.len());
            }
            while j < files[i].1.exports.len()
                invariant
                    i < files@.len(),
                    j <= t[i as int].1.exports.len(),
                    uniq_keys(graph_view(graph@)),
                    uniq_keys(usage_view(usage@)),
                    forall|from: Seq<char>, to: Seq<char>|
                        graph_has(graph_view(graph@), from, to) == edge_before(
                            t,
                            i as int,
                            t[i as int].1.imports.len() as int,
                            j as int,
                            from,
                            to,
                        ),
                    forall|m: Seq<char>, pr: (Seq<char>, ImportRec)|
                        usage_has_pair(usage_view(usage@), m, pr) == pair_generated_before(
                            t,
                            i as int,
                            t[i as int].1.imports.len() as int,
                            m,
                            pr,
                        ),
                decreases t[i as int].1.exports.len() - j,
            {
                let item = &files[i].1.exports[j];
                proof {
                    assert(item@ == t[i as int].1.exports[j as int]);
                }
                let mut resolved: Option<String> = None;
                match item {
                    ExportItem::Named(e) => {
                        match &e.source {
                            Some(s) => {
                                resolved = crate::resolver::resolve_relative_import_from_set(
                                    files[i].0.as_str(),
                                    s.as_str(),
                                    &keys,
                                );
                            },
                            None => {},
                        }
                    },
                    ExportItem::All(s) => {
                        resolved = crate::resolver::resolve_relative_import_from_set(
                            files[i].0.as_str(),
                            s.as_str(),
                            &keys,
                        );
                    },
                }
                proof {
                    assert(crate::resolver::view_opt(resolved) == export_target(
                        t,
                        i as int,
                        j as int,
                    ));
                }
                let ghost gpre = graph_view(graph@);
                let ghost la = t[i as int].1.imports.len() as int;
                proof {
                    assert(files@[i as int].0@ == t[i as int].0);
                }
                match resolved {
                    Some(target) => {
                        add_edge(&mut graph, &files[i].0, &target);
                        proof {
                            lemma_export_step(t, i as int, j as int, la);
                            assert forall|from: Seq<char>, to: Seq<char>|
                                graph_has(graph_view(graph@), from, to) == edge_before(
                                t,
                                i as int,
                                la,
                                j as int + 1,
                                from,
                                to,
                            ) by {
                                assert(graph_has(graph_view(graph@), from, to) == (graph_has(
                                    gpre,
                                    from,
                                    to,
                                ) || (from == t[i as int].0 && to == target@)));
                                assert(graph_has(gpre, from, to) == edge_before(
                                    t,
                                    i as int,
                                    la,
                                    j as int,
                                    from,
                                    to,
                                ));
                                assert(edge_before(t, i as int, la, j as int + 1, from, to) == (
                                edge_before(t, i as int, la, j as int, from, to) || (from == t[
                                    i as int].0 && to == target@)));
                            }
                        }
                    },
                    None => {
                        proof {
                            lemma_export_step(t, i as int, j as int, la);
                            assert forall|from: Seq<char>, to: Seq<char>|
                                graph_has(graph_view(graph@), from, to) == edge_before(
                                t,
                                i as int,
                                la,
                                j as int + 1,
                                from,
                                to,
                            ) by {
                                assert(graph_has(graph_view(graph@), from, to) == edge_before(
                                    t,
                                    i as int,
                                    la,
                                    j as int,
                                    from,
                                    to,
                                ));
                                assert(edge_before(t, i as int, la, j as int + 1, from, to)
                                    == edge_before(t, i as int, la, j as int, from, to));
                            }
                        }
                    },
                }
                j += 1;
            }
            proof {
                lemma_entry_roll(t, i as int);
            }
            i += 1;
        }
        ProjectAnalyzer { files, graph, import_usage: usage }
    }
}

/// A non-empty node sequence in which each step follows a dependency edge.
pub open spec fn is_edge_path(t: TableRec, nodes: Seq<Seq<char>>) -> bool {
    nodes.len() > 0 && (forall|k: int|
        0 <= k < nodes.len() - 1 ==> has_edge(t, #[trigger] nodes[k], nodes[k + 1]))
}

/// `x` is a live entrypoint: some entrypoint path canonicalizes to `x`, and
/// `x` is a file of the module table.
pub open spec fn is_seed(t: TableRec, eps: Seq<Seq<char>>, x: Seq<char>) -> bool {
    table_keys(t).contains(x) && exists|i: int|
        0 <= i < eps.len() && norm_of(#[trigger] eps[i]) == x
}

/// `x` is reachable from the entrypoints by following zero or more
/// dependency edges.
pub open spec fn reachable(t: TableRec, eps: Seq<Seq<char>>, x: Seq<char>) -> bool {
    exists|nodes: Seq<Seq<char>>|
        is_edge_path(t, nodes) && is_seed(t, eps, #[trigger] nodes[0]) && nodes.last() == x
}

/// A live entrypoint is reachable, by the one-node path.
pub proof fn lemma_seed_reachable(t: TableRec, eps: Seq<Seq<char>>, x: Seq<char>)
    requires
        is_seed(t, eps, x),
    ensures
        reachable(t, eps, x),
{
    let nodes: Seq<Seq<char>> = seq![x];
    assert(is_edge_path(t, nodes));
    assert(nodes[0] == x && nodes.last() == x);
}

/// Reachability is closed under following one more edge.
pub proof fn lemma_reachable_step(t: TableRec, eps: Seq<Seq<char>>, x: Seq<char>, y: Seq<char>)
    requires
        reachable(t, eps, x),
        has_edge(t, x, y),
    ensures
        reachable(t, eps, y),
{
    let nodes: Seq<Seq<char>> = choose|nodes: Seq<Seq<char>>|
        is_edge_path(t, nodes) && is_seed(t, eps, #[trigger] nodes[0]) && nodes.last() == x;
    let ext = nodes.push(y);
    assert(is_edge_path(t, ext)) by {
        assert forall|k: int| 0 <= k < ext.len() - 1 implies has_edge(
            t,
            #[trigger] ext[k],
            ext[k + 1],
        ) by {
            if k < nodes.len() - 1 {
                assert(ext[k] == nodes[k] && ext[k + 1] == nodes[k + 1]);
            } else {
                assert(ext[k] == nodes.last() && ext[k + 1] == y);
            }
        }
    }
    assert(ext[0] == nodes[0]);
    assert(ext.last() == y);
}

/// Every dependency edge points at a file of the module table.
pub proof fn lemma_edge_target_in_keys(t: TableRec, x: Seq<char>, y: Seq<char>)
    requires
        has_edge(t, x, y),
    ensures
        table_keys(t).contains(y),
{
    if import_edge_before(t, t.len() as int, 0, x, y) {
        let (a, b): (int, int) = choose|a: int, b: int|
            t[a].0 == x && #[trigger] import_edge_at(t, a, b, y) && (a < t.len() as int || (a
                == t.len() as int && b < 0));
        crate::resolver::lemma_resolve_in_set(t[a].0, t[a].1.imports[b].source, table_keys(t));
    } else {
        let (a, b): (int, int) = choose|a: int, b: int|
            t[a].0 == x && #[trigger] export_edge_at(t, a, b, y) && (a < t.len() as int || (a
                == t.len() as int && b < 0));
        match t[a].1.exports[b] {
            crate::records::ExportRec::Named { name, source } => {
                crate::resolver::lemma_resolve_in_set(t[a].0, source.unwrap(), table_keys(t));
            },
            crate::records::ExportRec::All { source } => {
                crate::resolver::lemma_resolve_in_set(t[a].0, source, table_keys(t));
            },
        }
    }
}

/// Anything reachable along a path lies in a set that contains the seeds and
/// is closed under edges.
proof fn lemma_path_covered(
    t: TableRec,
    eps: Seq<Seq<char>>,
    p: spec_fn(Seq<char>) -> bool,
    nodes: Seq<Seq<char>>,
)
    requires
        forall|x: Seq<char>| is_seed(t, eps, x) ==> #[trigger] p(x),
        forall|x: Seq<char>, y: Seq<char>| p(x) && #[trigger] has_edge(t, x, y) ==> p(y),
        is_edge_path(t, nodes),
        is_seed(t, eps, nodes[0]),
    ensures
        p(nodes.last()),
    decreases nodes.len(),
{
    if nodes.len() == 1 {
        assert(p(nodes[0]));
    } else {
        let prefix = nodes.drop_last();
        assert(is_edge_path(t, prefix)) by {
            assert forall|k: int| 0 <= k < prefix.len() - 1 implies has_edge(
                t,
                #[trigger] prefix[k],
                prefix[k + 1],
            ) by {
                assert(prefix[k] == nodes[k] && prefix[k + 1] == nodes[k + 1]);
            }
        }
        assert(prefix[0] == nodes[0]);
        lemma_path_covered(t, eps, p, prefix);
        assert(has_edge(t, nodes[nodes.len() - 2], nodes[nodes.len() - 1]));
        assert(prefix.last() == nodes[nodes.len() - 2]);
        assert(p(nodes.last()));
    }
}

/// A set that contains every live entrypoint and is closed under dependency
/// edges contains everything reachable.
pub proof fn lemma_closed_covers(t: TableRec, eps: Seq<Seq<char>>, p: spec_fn(Seq<char>) -> bool)
    requires
        forall|x: Seq<char>| is_seed(t, eps, x) ==> #[trigger] p(x),
        forall|x: Seq<char>, y: Seq<char>| p(x) && #[trigger] has_edge(t, x, y) ==> p(y),
    ensures
        forall|x: Seq<char>| reachable(t, eps, x) ==> #[trigger] p(x),
{
    assert forall|x: Seq<char>| reachable(t, eps, x) implies #[trigger] p(x) by {
        let nodes: Seq<Seq<char>> = choose|nodes: Seq<Seq<char>>|
            is_edge_path(t, nodes) && is_seed(t, eps, #[trigger] nodes[0]) && nodes.last() == x;
        lemma_path_covered(t, eps, p, nodes);
    }
}

/// A duplicate-free sequence of table keys is no longer than the table.
proof fn lemma_visited_bound(vis: Seq<Seq<char>>, t: TableRec)
    requires
        vis.no_duplicates(),
        forall|x: Seq<char>| vis.contains(x) ==> table_keys(t).contains(x),
    ensures
        vis.len() <= t.len(),
{
    broadcast use vstd::set::group_set_axioms, vstd::seq_lib::seq_to_set_is_finite;

    vis.unique_seq_to_set();
    assert(vis.to_set().subset_of(table_keys(t)));
    vstd::set_lib::lemma_len_subset(vis.to_set(), table_keys(t));
    key_seq(t).lemma_cardinality_of_set();
    assert(key_seq(t).len() == t.len());
}

/// Popping the top of the stack keeps every other visited, off-stack node
/// closed under edges.
proof fn lemma_pop_closed(
    t: TableRec,
    vis: Seq<Seq<char>>,
    stack0: Seq<Seq<char>>,
    snew: Seq<Seq<char>>,
    node: Seq<char>,
)
    requires
        stack0.len() > 0,
        node == stack0.last(),
        snew == stack0.drop_last(),
        forall|x: Seq<char>, y: Seq<char>|
            vis.contains(x) && !stack0.contains(x) && #[trigger] has_edge(t, x, y)
                ==> vis.contains(y),
    ensures
        forall|x: Seq<char>, y: Seq<char>|
            vis.contains(x) && !snew.contains(x) && x != node && #[trigger] has_edge(t, x, y)
                ==> vis.contains(y),
{
    assert forall|x: Seq<char>, y: Seq<char>|
        vis.contains(x) && !snew.contains(x) && x != node && #[trigger] has_edge(t, x, y) implies
        vis.contains(y) by {
        if stack0.contains(x) {
            let a = choose|a: int| 0 <= a < stack0.len() && stack0[a] == x;
            assert(a < stack0.len() - 1);
            assert(snew[a] == x);
            assert(snew.contains(x));
        }
    }
}

/// When every listed neighbor of `node` is visited, `node` is closed under
/// edges.
proof fn lemma_node_closed(
    t: TableRec,
    gv: Seq<(Seq<char>, Seq<Seq<char>>)>,
    gi: int,
    node: Seq<char>,
    vis: Seq<Seq<char>>,
)
    requires
        uniq_keys(gv),
        forall|from: Seq<char>, to: Seq<char>|
            graph_has(gv, from, to) == has_edge(t, from, to),
        0 <= gi < gv.len(),
        gv[gi].0 == node,
        forall|l: int| 0 <= l < gv[gi].1.len() ==> vis.contains(#[trigger] gv[gi].1[l]),
    ensures
        forall|y: Seq<char>| #[trigger] has_edge(t, node, y) ==> vis.contains(y),
{
    assert forall|y: Seq<char>| #[trigger] has_edge(t, node, y) implies vis.contains(y) by {
        assert(graph_has(gv, node, y));
        let (a, b): (int, int) = choose|a: int, b: int|
            #![trigger gv[a].1[b]]
            0 <= a < gv.len() && gv[a].0 == node && 0 <= b < gv[a].1.len() && gv[a].1[b] == y;
        assert(a == gi) by {
            if a != gi {
                assert(gv[a].0 == gv[gi].0);
            }
        }
    }
}

/// A node without an adjacency entry has no outgoing edges.
proof fn lemma_no_entry_closed(
    t: TableRec,
    gv: Seq<(Seq<char>, Seq<Seq<char>>)>,
    node: Seq<char>,
)
    requires
        forall|from: Seq<char>, to: Seq<char>|
            graph_has(gv, from, to) == has_edge(t, from, to),
        forall|j: int| 0 <= j < gv.len() ==> (#[trigger] gv[j]).0 != node,
    ensures
        forall|y: Seq<char>| !(#[trigger] has_edge(t, node, y)),
{
    assert forall|y: Seq<char>| !(#[trigger] has_edge(t, node, y)) by {
        if has_edge(t, node, y) {
            assert(graph_has(gv, node, y));
            let (a, b): (int, int) = choose|a: int, b: int|
                #![trigger gv[a].1[b]]
                0 <= a < gv.len() && gv[a].0 == node && 0 <= b < gv[a].1.len() && gv[a].1[b] == y;
            assert(false);
        }
    }
}

/// A visited set that holds the seeds, only reachable files, and is closed
/// under edges is exactly the reachable set.
proof fn lemma_dfs_post(t: TableRec, eps: Seq<Seq<char>>, vis: Seq<Seq<char>>)
    requires
        forall|x: Seq<char>| #[trigger] vis.contains(x) ==> reachable(t, eps, x),
        forall|x: Seq<char>| is_seed(t, eps, x) ==> vis.contains(x),
        forall|x: Seq<char>, y: Seq<char>|
            vis.contains(x) && #[trigger] has_edge(t, x, y) ==> vis.contains(y),
    ensures
        forall|x: Seq<char>| #[trigger] vis.contains(x) == reachable(t, eps, x),
{
    let p = |x: Seq<char>| vis.contains(x);
    assert forall|x: Seq<char>| is_seed(t, eps, x) implies #[trigger] p(x) by {}
    assert forall|x: Seq<char>, y: Seq<char>| p(x) && #[trigger] has_edge(t, x, y) implies p(
        y,
    ) by {}
    lemma_closed_covers(t, eps, p);
    assert forall|x: Seq<char>| #[trigger] vis.contains(x) == reachable(t, eps, x) by {
        if reachable(t, eps, x) {
            assert(p(x));
        }
    }
}

/// The canonicalized entrypoints that exist in the table, each once.
#[verifier::loop_isolation(false)]
fn seed_vec(keys: &Vec<String>, entrypoints: &Vec<String>, Ghost(t): Ghost<TableRec>) -> (r: Vec<
    String,
>)
    requires
        keys.deep_view() == key_seq(t),
    ensures
        r.deep_view().no_duplicates(),
        forall|x: Seq<char>|
            #[trigger] r.deep_view().contains(x) == is_seed(t, entrypoints.deep_view(), x),
{
    broadcast use vstd::set::group_set_axioms;

    let ghost eps = entrypoints.deep_view();
    let mut visited: Vec<String> = Vec::new();
    let mut i: usize = 0;
    while i < entrypoints.len()
        invariant
            i <= eps.len(),
            visited.deep_view().no_duplicates(),
            forall|x: Seq<char>| #[trigger] visited.deep_view().contains(x) ==> is_seed(t, eps, x),
            forall|j: int|
                0 <= j < i && table_keys(t).contains(norm_of(#[trigger] eps[j]))
                    ==> visited.deep_view().contains(norm_of(eps[j])),
        decreases eps.len() - i,
    {
        let ep = normalize(entrypoints[i].as_str());
        proof {
            assert(ep@ == norm_of(eps[i as int]));
        }
        if contains_str(keys, ep.as_str()) {
            proof {
                assert(keys.deep_view().contains(ep@));
                assert(table_keys(t).contains(ep@));
            }
            if !contains_str(&visited, ep.as_str()) {
                let ghost vpre = visited.deep_view();
                visited.push(ep);
                proof {
                    assert(visited.deep_view() =~= vpre.push(norm_of(eps[i as int])));
                    assert(visited.deep_view().contains(norm_of(eps[i as int]))) by {
                        assert(visited.deep_view()[vpre.len() as int] == norm_of(eps[i as int]));
                    }
                    assert forall|x: Seq<char>| vpre.contains(x) implies #[trigger]
                        visited.deep_view().contains(x) by {
                        let a = choose|a: int| 0 <= a < vpre.len() && vpre[a] == x;
                        assert(visited.deep_view()[a] == x);
                    }
                    assert(visited.deep_view().no_duplicates()) by {
                        assert(forall|a: int|
                            0 <= a < vpre.len() ==> visited.deep_view()[a] == vpre[a]);
                        assert(!vpre.contains(norm_of(eps[i as int])));
                    }
                    assert(is_seed(t, eps, norm_of(eps[i as int])));
                    assert forall|x: Seq<char>| #[trigger]
                        visited.deep_view().contains(x) implies is_seed(t, eps, x) by {
                        if x != norm_of(eps[i as int]) {
                            let a = choose|a: int|
                                0 <= a < visited.deep_view().len() && visited.deep_view()[a] == x;
                            assert(vpre[a] == x);
                            assert(vpre.contains(x));
                        }
                    }
                }
            }
        }
        i += 1;
    }
    proof {
        assert forall|x: Seq<char>| #[trigger]
            visited.deep_view().contains(x) == is_seed(t, eps, x) by {
            if is_seed(t, eps, x) {
                let j = choose|j: int| 0 <= j < eps.len() && norm_of(#[trigger] eps[j]) == x;
            }
        }
    }
    visited
}

impl ProjectAnalyzer {
    /// Visit every file `node` depends on: push the not-yet-visited ones onto
    /// the visited list and the stack. Afterwards `node` is closed under
    /// edges, and as many files were added to the stack as to the visited
    /// list.
    #[verifier::loop_isolation(false)]
    #[verifier::rlimit(100)]
    fn visit_neighbors(
        &self,
        node: &String,
        visited: &mut Vec<String>,
        stack: &mut Vec<String>,
        Ghost(eps): Ghost<Seq<Seq<char>>>,
    )
        requires
            self.wf(),
            old(visited).deep_view().no_duplicates(),
            old(stack).deep_view().no_duplicates(),
            old(visited).deep_view().len() <= self.table().len(),
            old(visited).deep_view().contains(node@),
            forall|x: Seq<char>|
                #[trigger] old(stack).deep_view().contains(x) ==> old(visited).deep_view().contains(x),
            forall|x: Seq<char>|
                #[trigger] old(visited).deep_view().contains(x) ==> table_keys(
                    self.table(),
                ).contains(x),
            forall|x: Seq<char>|
                #[trigger] old(visited).deep_view().contains(x) ==> reachable(
                    self.table(),
                    eps,
                    x,
                ),
            forall|x: Seq<char>, y: Seq<char>|
                old(visited).deep_view().contains(x) && !old(stack).deep_view().contains(x) && x
                    != node@ && #[trigger] has_edge(self.table(), x, y) ==> old(visited).deep_view().contains(y),
        ensures
            final(visited).deep_view().no_duplicates(),
            final(stack).deep_view().no_duplicates(),
            final(visited).deep_view().len() <= self.table().len(),
            final(visited).deep_view().len() - old(visited).deep_view().len() == final(stack).deep_view().len() - old(stack).deep_view().len(),
            final(stack).deep_view().len() >= old(stack).deep_view().len(),
            forall|x: Seq<char>|
                #[trigger] old(visited).deep_view().contains(x) ==> final(visited).deep_view().contains(x),
            forall|x: Seq<char>|
                #[trigger] final(stack).deep_view().contains(x) ==> final(visited).deep_view().contains(x),
            forall|x: Seq<char>|
                #[trigger] final(visited).deep_view().contains(x) ==> table_keys(
                    self.table(),
                ).contains(x),
            forall|x: Seq<char>|
                #[trigger] final(visited).deep_view().contains(x) ==> reachable(
                    self.table(),
                    eps,
                    x,
                ),
            forall|x: Seq<char>|
                is_seed(self.table(), eps, x) && old(visited).deep_view().contains(x) ==> final(visited).deep_view().contains(x),
            forall|x: Seq<char>, y: Seq<char>|
                final(visited).deep_view().contains(x) && !final(stack).deep_view().contains(x)
                    && #[trigger] has_edge(self.table(), x, y) ==> final(visited).deep_view().contains(y),
    {
        let ghost t = self.table();
        match find_graph_key(&self.graph, node.as_str()) {
            Some(gi) => {
                let ghost gv = graph_view(self.graph@);
                let ghost glist = gv[gi as int].1;
                let mut k: usize = 0;
                while k < self.graph[gi].1.len()
                    invariant
                        gi < self.graph@.len(),
                        k <= glist.len(),
                        glist == gv[gi as int].1,
                        gv[gi as int].0 == node@,
                        visited.deep_view().no_duplicates(),
                        stack.deep_view().no_duplicates(),
                        visited.deep_view().len() <= t.len(),
                        visited.deep_view().contains(node@),
                        visited.deep_view().len() - old(visited).deep_view().len()
                            == stack.deep_view().len() - old(stack).deep_view().len(),
                        stack.deep_view().len() >= old(stack).deep_view().len(),
                        forall|x: Seq<char>|
                            #[trigger] old(visited).deep_view().contains(x)
                                ==> visited.deep_view().contains(x),
                        forall|x: Seq<char>|
                            #[trigger] old(stack).deep_view().contains(x)
                                ==> stack.deep_view().contains(x),
                        forall|x: Seq<char>|
                            #[trigger] stack.deep_view().contains(x)
                                ==> visited.deep_view().contains(x),
                        forall|x: Seq<char>|
                            #[trigger] visited.deep_view().contains(x) ==> table_keys(t).contains(
                                x,
                            ),
                        forall|x: Seq<char>|
                            #[trigger] visited.deep_view().contains(x) ==> reachable(t, eps, x),
                        forall|x: Seq<char>, y: Seq<char>|
                            visited.deep_view().contains(x) && !stack.deep_view().contains(x) && x
                                != node@ && #[trigger] has_edge(t, x, y)
                                ==> visited.deep_view().contains(y),
                        forall|l: int|
                            0 <= l < k ==> visited.deep_view().contains(#[trigger] glist[l]),
                    decreases glist.len() - k,
                {
                    let tgt = &self.graph[gi].1[k];
                    proof {
                        assert(tgt@ == glist[k as int]);
                        assert(graph_has(gv, node@, tgt@)) by {
                            assert(gv[gi as int].1[k as int] == tgt@);
                        }
                        assert(has_edge(t, node@, tgt@));
                    }
                    if !contains_str(visited, tgt.as_str()) {
                        let ghost vpre = visited.deep_view();
                        let ghost spre = stack.deep_view();
                        visited.push(tgt.clone());
                        stack.push(tgt.clone());
                        proof {
                            assert(visited.deep_view() =~= vpre.push(tgt@));
                            assert(stack.deep_view() =~= spre.push(tgt@));
                            assert(visited.deep_view().contains(tgt@)) by {
                                assert(visited.deep_view()[vpre.len() as int] == tgt@);
                            }
                            assert(stack.deep_view().contains(tgt@)) by {
                                assert(stack.deep_view()[spre.len() as int] == tgt@);
                            }
                            assert(forall|a: int|
                                0 <= a < vpre.len() ==> visited.deep_view()[a] == vpre[a]);
                            assert(forall|a: int|
                                0 <= a < spre.len() ==> stack.deep_view()[a] == spre[a]);
                            assert forall|x: Seq<char>| vpre.contains(x) implies #[trigger]
                                visited.deep_view().contains(x) by {
                                let a = choose|a: int| 0 <= a < vpre.len() && vpre[a] == x;
                                assert(visited.deep_view()[a] == x);
                            }
                            assert forall|x: Seq<char>| spre.contains(x) implies #[trigger]
                                stack.deep_view().contains(x) by {
                                let a = choose|a: int| 0 <= a < spre.len() && spre[a] == x;
                                assert(stack.deep_view()[a] == x);
                            }
                            assert(visited.deep_view().no_duplicates());
                            assert(stack.deep_view().no_duplicates()) by {
                                assert(!spre.contains(tgt@));
                            }
                            lemma_reachable_step(t, eps, node@, tgt@);
                            lemma_edge_target_in_keys(t, node@, tgt@);
                            assert forall|x: Seq<char>| #[trigger]
                                visited.deep_view().contains(x) implies vpre.contains(x) || x
                                == tgt@ by {
                                let a = choose|a: int|
                                    0 <= a < visited.deep_view().len() && visited.deep_view()[a]
                                        == x;
                                if a < vpre.len() {
                                    assert(vpre[a] == x);
                                }
                            }
                            assert forall|x: Seq<char>| #[trigger]
                                stack.deep_view().contains(x) implies spre.contains(x) || x == tgt@
                                by {
                                let a = choose|a: int|
                                    0 <= a < stack.deep_view().len() && stack.deep_view()[a] == x;
                                if a < spre.len() {
                                    assert(spre[a] == x);
                                }
                            }
                            lemma_visited_bound(visited.deep_view(), t);
                        }
                    }
                    k += 1;
                }
                proof {
                    lemma_node_closed(t, gv, gi as int, node@, visited.deep_view());
                }
            },
            None => {
                proof {
                    lemma_no_entry_closed(t, graph_view(self.graph@), node@);
                }
            },
        }
    }

    /// The set of files reachable from the entrypoints, as a duplicate-free
    /// vector in traversal order. Entrypoints are canonicalized before
    /// matching; entrypoints absent from the module table are silently
    /// ignored. Cycles terminate because no file is visited twice.
    #[verifier::loop_isolation(false)]
    #[verifier::rlimit(100)]
    pub fn compute_reachable(&self, entrypoints: Vec<String>) -> (r: Vec<String>)
        requires
            self.wf(),
        ensures
            r.deep_view().no_duplicates(),
            forall|x: Seq<char>|
                #[trigger] r.deep_view().contains(x) == reachable(
                    self.table(),
                    entrypoints.deep_view(),
                    x,
                ),
    {
        let ghost t = self.table();
        let ghost eps = entrypoints.deep_view();
        let keys = keys_vec(&self.files);
        proof {
            assert(keys@.map_values(|s: String| s@) =~= keys.deep_view());
            lemma_keys_set(keys@, t);
        }
        let mut visited: Vec<String> = seed_vec(&keys, &entrypoints, Ghost(t));
        let mut stack: Vec<String> = crate::records::clone_strings(&visited);
        proof {
            assert forall|x: Seq<char>| #[trigger]
                visited.deep_view().contains(x) implies reachable(t, eps, x) && table_keys(
                t,
            ).contains(x) by {
                lemma_seed_reachable(t, eps, x);
            }
            lemma_visited_bound(visited.deep_view(), t);
        }
        while stack.len() > 0
            invariant
                visited.deep_view().no_duplicates(),
                stack.deep_view().no_duplicates(),
                visited.deep_view().len() <= t.len(),
                forall|x: Seq<char>|
                    #[trigger] stack.deep_view().contains(x) ==> visited.deep_view().contains(x),
                forall|x: Seq<char>|
                    #[trigger] visited.deep_view().contains(x) ==> table_keys(t).contains(x),
                forall|x: Seq<char>|
                    #[trigger] visited.deep_view().contains(x) ==> reachable(t, eps, x),
                forall|x: Seq<char>| is_seed(t, eps, x) ==> visited.deep_view().contains(x),
                forall|x: Seq<char>, y: Seq<char>|
                    visited.deep_view().contains(x) && !stack.deep_view().contains(x)
                        && #[trigger] has_edge(t, x, y) ==> visited.deep_view().contains(y),
            decreases t.len() - visited.deep_view().len(), stack.len(),
        {
            let ghost stack0 = stack.deep_view();
            let ghost vis0 = visited.deep_view();
            let node = stack.pop().unwrap();
            proof {
                assert(node@ == stack0.last());
                assert(stack.deep_view() =~= stack0.drop_last());
                assert(stack0.contains(node@));
                assert(visited.deep_view().contains(node@));
                assert forall|x: Seq<char>| #[trigger]
                    stack.deep_view().contains(x) implies stack0.contains(x) by {
                    let a = choose|a: int|
                        0 <= a < stack.deep_view().len() && stack.deep_view()[a] == x;
                    assert(stack0[a] == x);
                }
                lemma_pop_closed(t, visited.deep_view(), stack0, stack.deep_view(), node@);
            }
            self.visit_neighbors(&node, &mut visited, &mut stack, Ghost(eps));
            proof {
                assert forall|x: Seq<char>|
                    is_seed(t, eps, x) implies visited.deep_view().contains(x) by {
                    assert(vis0.contains(x));
                }
            }
        }
        proof {
            lemma_dfs_post(t, eps, visited.deep_view());
        }
        visited
    }
}


/// Some import record that resolves to `m` asks for export `name`.
pub open spec fn directly_used(t: TableRec, m: Seq<char>, name: Seq<char>) -> bool {
    exists|i: int, j: int|
        #[trigger] import_edge_at(t, i, j, m) && crate::records::import_requests(
            t[i].1.imports[j],
            name,
        )
}

/// Export item `j` of entry `i` re-exports `name` from module `m`: a named
/// re-export under the same exported name, or a wildcard re-export, whose
/// source resolves to `m`.
pub open spec fn reexport_at(t: TableRec, i: int, j: int, m: Seq<char>, name: Seq<char>) -> bool {
    &&& 0 <= i < t.len()
    &&& 0 <= j < t[i].1.exports.len()
    &&& match t[i].1.exports[j] {
        crate::records::ExportRec::Named { name: n2, source } => source matches Some(s)
            && resolve_spec(t[i].0, s, table_keys(t)) == Some(m) && n2 == name,
        crate::records::ExportRec::All { source } => resolve_spec(t[i].0, source, table_keys(t))
            == Some(m),
    }
}

/// Module `r` re-exports `name` from module `m`.
pub open spec fn reexports_name(t: TableRec, r: Seq<char>, m: Seq<char>, name: Seq<char>) -> bool {
    r != m && exists|i: int, j: int| t[i].0 == r && #[trigger] reexport_at(t, i, j, m, name)
}

/// A chain of modules along which export `name` is forwarded: each module
/// after the first re-exports `name` from the one before it, by a same-name
/// named re-export or a wildcard re-export. Aliased re-exports start a new
/// name and never extend a chain.
pub open spec fn is_forward_chain(t: TableRec, name: Seq<char>, nodes: Seq<Seq<char>>) -> bool {
    nodes.len() > 0 && (forall|k: int|
        0 <= k < nodes.len() - 1 ==> reexports_name(t, #[trigger] nodes[k + 1], nodes[k], name))
}

/// Module `x` forwards export `name` of module `m`: `x` is reached from `m`
/// by zero or more same-name re-export hops.
pub open spec fn forwards_from(t: TableRec, m: Seq<char>, name: Seq<char>, x: Seq<char>) -> bool {
    exists|nodes: Seq<Seq<char>>|
        #[trigger] is_forward_chain(t, name, nodes) && nodes[0] == m && nodes.last() == x
}

/// Export `name` of module `m` is consumed: some module that forwards it —
/// `m` itself, or any module reached through a chain of same-name re-export
/// hops — has an importer whose record asks for `name`. Usage thus
/// propagates through any number of pure re-export hops.
pub open spec fn export_used(t: TableRec, m: Seq<char>, name: Seq<char>) -> bool {
    exists|x: Seq<char>| #[trigger] forwards_from(t, m, name, x) && directly_used(t, x, name)
}

/// Every module forwards its own exports, by the one-module chain.
pub proof fn lemma_forwards_self(t: TableRec, m: Seq<char>, name: Seq<char>)
    ensures
        forwards_from(t, m, name, m),
{
    let nodes: Seq<Seq<char>> = seq![m];
    assert(is_forward_chain(t, name, nodes));
    assert(nodes[0] == m && nodes.last() == m);
}

/// Forwarding is closed under one more re-export hop.
pub proof fn lemma_forwards_step(
    t: TableRec,
    m: Seq<char>,
    name: Seq<char>,
    x: Seq<char>,
    y: Seq<char>,
)
    requires
        forwards_from(t, m, name, x),
        reexports_name(t, y, x, name),
    ensures
        forwards_from(t, m, name, y),
{
    let nodes: Seq<Seq<char>> = choose|nodes: Seq<Seq<char>>|
        #[trigger] is_forward_chain(t, name, nodes) && nodes[0] == m && nodes.last() == x;
    let ext = nodes.push(y);
    assert(is_forward_chain(t, name, ext)) by {
        assert forall|k: int| 0 <= k < ext.len() - 1 implies reexports_name(
            t,
            #[trigger] ext[k + 1],
            ext[k],
            name,
        ) by {
            if k < nodes.len() - 1 {
                assert(ext[k] == nodes[k] && ext[k + 1] == nodes[k + 1]);
            } else {
                assert(ext[k] == nodes.last() && ext[k + 1] == y);
            }
        }
    }
    assert(ext[0] == m);
    assert(ext.last() == y);
}

/// Anything reached along a forwarding chain lies in a set that contains the
/// chain's start and is closed under re-export hops.
proof fn lemma_chain_covered(
    t: TableRec,
    name: Seq<char>,
    p: spec_fn(Seq<char>) -> bool,
    nodes: Seq<Seq<char>>,
)
    requires
        forall|x: Seq<char>, y: Seq<char>|
            p(x) && #[trigger] reexports_name(t, y, x, name) ==> p(y),
        is_forward_chain(t, name, nodes),
        p(nodes[0]),
    ensures
        p(nodes.last()),
    decreases nodes.len(),
{
    if nodes.len() > 1 {
        let prefix = nodes.drop_last();
        assert(is_forward_chain(t, name, prefix)) by {
            assert forall|k: int| 0 <= k < prefix.len() - 1 implies reexports_name(
                t,
                #[trigger] prefix[k + 1],
                prefix[k],
                name,
            ) by {
                assert(prefix[k] == nodes[k] && prefix[k + 1] == nodes[k + 1]);
            }
        }
        assert(prefix[0] == nodes[0]);
        lemma_chain_covered(t, name, p, prefix);
        let k = nodes.len() - 2;
        assert(reexports_name(t, nodes[k + 1], nodes[k], name));
        assert(nodes[k + 1] == nodes.last());
        assert(prefix.last() == nodes[k]);
    }
}

/// A set that contains `m` and is closed under same-name re-export hops
/// contains every module that forwards export `name` of `m`.
pub proof fn lemma_forwards_covers(
    t: TableRec,
    name: Seq<char>,
    m: Seq<char>,
    p: spec_fn(Seq<char>) -> bool,
)
    requires
        p(m),
        forall|x: Seq<char>, y: Seq<char>|
            p(x) && #[trigger] reexports_name(t, y, x, name) ==> p(y),
    ensures
        forall|x: Seq<char>| #[trigger] forwards_from(t, m, name, x) ==> p(x),
{
    assert forall|x: Seq<char>| #[trigger] forwards_from(t, m, name, x) implies p(x) by {
        let nodes: Seq<Seq<char>> = choose|nodes: Seq<Seq<char>>|
            #[trigger] is_forward_chain(t, name, nodes) && nodes[0] == m && nodes.last() == x;
        lemma_chain_covered(t, name, p, nodes);
    }
}

/// Forwarding composes: a forwarder of a forwarder forwards from the start.
pub proof fn lemma_forwards_transitive(
    t: TableRec,
    name: Seq<char>,
    m: Seq<char>,
    r: Seq<char>,
    x: Seq<char>,
)
    requires
        forwards_from(t, m, name, r),
        forwards_from(t, r, name, x),
    ensures
        forwards_from(t, m, name, x),
{
    let p = |z: Seq<char>| forwards_from(t, m, name, z);
    assert forall|a: Seq<char>, b: Seq<char>|
        p(a) && #[trigger] reexports_name(t, b, a, name) implies p(b) by {
        lemma_forwards_step(t, m, name, a, b);
    }
    lemma_forwards_covers(t, name, r, p);
    assert(p(x));
}

/// Every forwarder other than the module itself is a file of the table.
pub proof fn lemma_forwarder_in_keys(t: TableRec, m: Seq<char>, name: Seq<char>, x: Seq<char>)
    requires
        forwards_from(t, m, name, x),
        x != m,
    ensures
        table_keys(t).contains(x),
{
    broadcast use vstd::set::group_set_axioms;

    let nodes: Seq<Seq<char>> = choose|nodes: Seq<Seq<char>>|
        #[trigger] is_forward_chain(t, name, nodes) && nodes[0] == m && nodes.last() == x;
    assert(nodes.len() >= 2);
    let k = nodes.len() - 2;
    assert(reexports_name(t, nodes[k + 1], nodes[k], name));
    assert(nodes[k + 1] == x);
    let (i, j): (int, int) = choose|i: int, j: int|
        t[i].0 == x && #[trigger] reexport_at(t, i, j, nodes[k], name);
    assert(0 <= i < t.len());
    assert(key_seq(t)[i] == x);
    assert(key_seq(t).contains(x));
}

/// Entry `i`, export item `j` declares `name` as a named export of module `m`.
pub open spec fn named_export_at(
    t: TableRec,
    i: int,
    j: int,
    m: Seq<char>,
    name: Seq<char>,
) -> bool {
    &&& 0 <= i < t.len()
    &&& t[i].0 == m
    &&& 0 <= j < t[i].1.exports.len()
    &&& t[i].1.exports[j] matches crate::records::ExportRec::Named { name: n2, source } && n2
        == name
}

/// Module `m` has a named export `name`.
pub open spec fn is_named_export(t: TableRec, m: Seq<char>, name: Seq<char>) -> bool {
    exists|i: int, j: int| #[trigger] named_export_at(t, i, j, m, name)
}

/// `(m, name)` is an unused export: declared, but consumed by nothing.
pub open spec fn unused_export(t: TableRec, m: Seq<char>, name: Seq<char>) -> bool {
    is_named_export(t, m, name) && !export_used(t, m, name)
}

/// Named exports declared by entries strictly before position (`i0`, `j0`).
pub open spec fn named_before(
    t: TableRec,
    i0: int,
    j0: int,
    m: Seq<char>,
    name: Seq<char>,
) -> bool {
    exists|i: int, j: int|
        #[trigger] named_export_at(t, i, j, m, name) && (i < i0 || (i == i0 && j < j0))
}

/// The name that export item `j` of entry `i` declares, if it is a named
/// export.
pub open spec fn named_target(t: TableRec, i: int, j: int) -> Option<Seq<char>> {
    match t[i].1.exports[j] {
        crate::records::ExportRec::Named { name, source } => Some(name),
        crate::records::ExportRec::All { source } => None,
    }
}

proof fn lemma_named_step(t: TableRec, i: int, j: int)
    requires
        0 <= i < t.len(),
        0 <= j < t[i].1.exports.len(),
    ensures
        forall|m: Seq<char>, n: Seq<char>|
            named_before(t, i, j + 1, m, n) == (named_before(t, i, j, m, n) || (named_target(
                t,
                i,
                j,
            ) matches Some(nm) && m == t[i].0 && n == nm)),
{
    assert forall|m: Seq<char>, n: Seq<char>|
        named_before(t, i, j + 1, m, n) == (named_before(t, i, j, m, n) || (named_target(t, i, j)
            matches Some(nm) && m == t[i].0 && n == nm)) by {
        if named_before(t, i, j + 1, m, n) {
            let (a, b): (int, int) = choose|a: int, b: int|
                #[trigger] named_export_at(t, a, b, m, n) && (a < i || (a == i && b < j + 1));
            if a == i && b == j {
                assert(named_target(t, i, j) == Some(n));
            } else {
                assert(named_before(t, i, j, m, n));
            }
        }
        if named_before(t, i, j, m, n) {
            let (a, b): (int, int) = choose|a: int, b: int|
                #[trigger] named_export_at(t, a, b, m, n) && (a < i || (a == i && b < j));
            assert(named_before(t, i, j + 1, m, n));
        }
        if named_target(t, i, j) matches Some(nm) && m == t[i].0 && n == nm {
            assert(named_export_at(t, i, j, m, n));
            assert(named_before(t, i, j + 1, m, n));
        }
    }
}

proof fn lemma_named_roll(t: TableRec, i: int)
    requires
        0 <= i < t.len(),
    ensures
        forall|m: Seq<char>, n: Seq<char>|
            named_before(t, i, t[i].1.exports.len() as int, m, n) == named_before(
                t,
                i + 1,
                0,
                m,
                n,
            ),
{
    let lb = t[i].1.exports.len() as int;
    assert forall|m: Seq<char>, n: Seq<char>|
        named_before(t, i, lb, m, n) == named_before(t, i + 1, 0, m, n) by {
        if named_before(t, i, lb, m, n) {
            let (a, b): (int, int) = choose|a: int, b: int|
                #[trigger] named_export_at(t, a, b, m, n) && (a < i || (a == i && b < lb));
            assert(named_before(t, i + 1, 0, m, n));
        }
        if named_before(t, i + 1, 0, m, n) {
            let (a, b): (int, int) = choose|a: int, b: int|
                #[trigger] named_export_at(t, a, b, m, n) && (a < i + 1 || (a == i + 1 && b < 0));
            assert(named_before(t, i, lb, m, n));
        }
    }
}

/// Direct usage can be read off the usage index.
proof fn lemma_usage_direct(
    u: Seq<(Seq<char>, Seq<(Seq<char>, ImportRec)>)>,
    t: TableRec,
    m: Seq<char>,
    name: Seq<char>,
)
    requires
        forall|mm: Seq<char>, pr: (Seq<char>, ImportRec)|
            usage_has_pair(u, mm, pr) == pair_generated(t, mm, pr),
    ensures
        directly_used(t, m, name) == (exists|k: int, l: int|
            #![trigger u[k].1[l]]
            0 <= k < u.len() && u[k].0 == m && 0 <= l < u[k].1.len()
                && crate::records::import_requests(u[k].1[l].1, name)),
{
    if directly_used(t, m, name) {
        let (i, j): (int, int) = choose|i: int, j: int|
            #[trigger] import_edge_at(t, i, j, m) && crate::records::import_requests(
                t[i].1.imports[j],
                name,
            );
        let pr = (t[i].0, t[i].1.imports[j]);
        assert(pair_generated(t, m, pr)) by {
            assert(import_edge_at(t, i, j, m) && (i < t.len() as int || (i == t.len() as int && j
                < 0)));
        }
        assert(usage_has_pair(u, m, pr));
        let (k, l): (int, int) = choose|k: int, l: int|
            #![trigger u[k].1[l]]
            0 <= k < u.len() && u[k].0 == m && 0 <= l < u[k].1.len() && u[k].1[l] == pr;
        assert(crate::records::import_requests(u[k].1[l].1, name));
    }
    if exists|k: int, l: int|
        #![trigger u[k].1[l]]
        0 <= k < u.len() && u[k].0 == m && 0 <= l < u[k].1.len()
            && crate::records::import_requests(u[k].1[l].1, name) {
        let (k, l): (int, int) = choose|k: int, l: int|
            #![trigger u[k].1[l]]
            0 <= k < u.len() && u[k].0 == m && 0 <= l < u[k].1.len()
                && crate::records::import_requests(u[k].1[l].1, name);
        let pr = u[k].1[l];
        assert(usage_has_pair(u, m, pr));
        assert(pair_generated(t, m, pr));
        let (i, j): (int, int) = choose|i: int, j: int|
            #[trigger] import_edge_at(t, i, j, m) && pr.0 == t[i].0 && pr.1 == t[i].1.imports[j]
                && (i < t.len() as int || (i == t.len() as int && j < 0));
        assert(crate::records::import_requests(t[i].1.imports[j], name));
        assert(directly_used(t, m, name));
    }
}

/// Membership of a `(path, name)` pair in a vector of pairs.
fn contains_pair(v: &Vec<(String, String)>, m: &str, name: &str) -> (b: bool)
    ensures
        b == crate::order::pairs_view(v@).contains((m@, name@)),
{
    let mut i: usize = 0;
    while i < v.len()
        invariant
            i <= v@.len(),
            forall|j: int| 0 <= j < i ==> crate::order::pairs_view(v@)[j] != (m@, name@),
        decreases v@.len() - i,
    {
        if str_eq(v[i].0.as_str(), m) && str_eq(v[i].1.as_str(), name) {
            proof {
                assert(crate::order::pairs_view(v@)[i as int] == (m@, name@));
            }
            return true;
        }
        i += 1;
    }
    false
}

impl ProjectAnalyzer {
    /// Does some importer of `m` ask for export `name` directly?
    #[verifier::loop_isolation(false)]
    fn used_directly(&self, m: &str, name: &str) -> (b: bool)
        requires
            self.wf(),
        ensures
            b == directly_used(self.table(), m@, name@),
    {
        let ghost t = self.table();
        let ghost u = usage_view(self.import_usage@);
        proof {
            lemma_usage_direct(u, t, m@, name@);
        }
        let mut k: usize = 0;
        while k < self.import_usage.len()
            invariant
                k <= u.len(),
                forall|a: int, l: int|
                    #![trigger u[a].1[l]]
                    0 <= a < k && 0 <= l < u[a].1.len() && u[a].0 == m@
                        ==> !crate::records::import_requests(u[a].1[l].1, name@),
            decreases u.len() - k,
        {
            if str_eq(self.import_usage[k].0.as_str(), m) {
                let entry = &self.import_usage[k].1;
                let mut l: usize = 0;
                while l < entry.len()
                    invariant
                        k < u.len(),
                        l <= u[k as int].1.len(),
                        entry@.map_values(|p: (String, ImportInfo)| (p.0@, p.1@)) == u[k as int].1,
                        u[k as int].0 == m@,
                        forall|a: int, ll: int|
                            #![trigger u[a].1[ll]]
                            0 <= a < k && 0 <= ll < u[a].1.len() && u[a].0 == m@
                                ==> !crate::records::import_requests(u[a].1[ll].1, name@),
                        forall|ll: int|
                            0 <= ll < l ==> !crate::records::import_requests(
                                #[trigger] u[k as int].1[ll].1,
                                name@,
                            ),
                    decreases u[k as int].1.len() - l,
                {
                    if crate::records::satisfies_import(&entry[l].1, name) {
                        proof {
                            assert(u[k as int].1[l as int].1 == entry@[l as int].1@);
                        }
                        return true;
                    }
                    l += 1;
                }
                proof {
                    assert forall|a: int, ll: int|
                        #![trigger u[a].1[ll]]
                        0 <= a < k + 1 && 0 <= ll < u[a].1.len() && u[a].0 == m@ implies
                        !crate::records::import_requests(u[a].1[ll].1, name@) by {
                        if a == k as int {
                            assert(!crate::records::import_requests(u[k as int].1[ll].1, name@));
                        }
                    }
                }
            }
            k += 1;
        }
        false
    }

    /// Does entry `ri` re-export `name` from module `m`?
    #[verifier::loop_isolation(false)]
    fn reexports_from(&self, keys: &Vec<String>, ri: usize, m: &str, name: &str) -> (b: bool)
        requires
            self.wf(),
            ri < self.files@.len(),
            keys.deep_view() == key_seq(self.table()),
        ensures
            b == exists|j: int| #[trigger] reexport_at(self.table(), ri as int, j, m@, name@),
    {
        let ghost t = self.table();
        proof {
            assert(keys@.map_values(|s: String| s@) =~= keys.deep_view());
            lemma_keys_set(keys@, t);
        }
        let exports = &self.files[ri].1.exports;
        let mut j: usize = 0;
        while j < exports.len()
            invariant
                j <= t[ri as int].1.exports.len(),
                exports@.map_values(|x: ExportItem| x@) == t[ri as int].1.exports,
                forall|jj: int| 0 <= jj < j ==> !(#[trigger] reexport_at(t, ri as int, jj, m@, name@)),
            decreases t[ri as int].1.exports.len() - j,
        {
            let item = &exports[j];
            proof {
                assert(item@ == t[ri as int].1.exports[j as int]);
            }
            match item {
                ExportItem::Named(e) => {
                    match &e.source {
                        Some(s) => {
                            if str_eq(e.name.as_str(), name) {
                                match crate::resolver::resolve_relative_import_from_set(
                                    self.files[ri].0.as_str(),
                                    s.as_str(),
                                    keys,
                                ) {
                                    Some(target) => {
                                        if str_eq(target.as_str(), m) {
                                            proof {
                                                assert(reexport_at(t, ri as int, j as int, m@, name@));
                                            }
                                            return true;
                                        }
                                    },
                                    None => {},
                                }
                            }
                        },
                        None => {},
                    }
                },
                ExportItem::All(s) => {
                    match crate::resolver::resolve_relative_import_from_set(
                        self.files[ri].0.as_str(),
                        s.as_str(),
                        keys,
                    ) {
                        Some(target) => {
                            if str_eq(target.as_str(), m) {
                                proof {
                                    assert(reexport_at(t, ri as int, j as int, m@, name@));
                                }
                                return true;
                            }
                        },
                        None => {},
                    }
                },
            }
            j += 1;
        }
        false
    }

    /// Every module that forwards export `name` of `m`, each exactly once:
    /// the closure of `m` under same-name re-export hops.
    #[verifier::loop_isolation(false)]
    #[verifier::rlimit(100)]
    fn forwarders(&self, keys: &Vec<String>, m: &String, name: &String) -> (r: Vec<String>)
        requires
            self.wf(),
            keys.deep_view() == key_seq(self.table()),
        ensures
            forall|x: Seq<char>|
                #[trigger] r.deep_view().contains(x) == forwards_from(
                    self.table(),
                    m@,
                    name@,
                    x,
                ),
    {
        broadcast use vstd::set::group_set_axioms;

        let ghost t = self.table();
        let mut visited: Vec<String> = Vec::new();
        let mut stack: Vec<String> = Vec::new();
        visited.push(m.clone());
        stack.push(m.clone());
        proof {
            assert(visited.deep_view() =~= seq![m@]);
            assert(stack.deep_view() =~= seq![m@]);
            assert(visited.deep_view()[0] == m@);
            assert(visited.deep_view().contains(m@));
            lemma_forwards_self(t, m@, name@);
            assert forall|x: Seq<char>| #[trigger]
                visited.deep_view().contains(x) implies x == m@ by {
                let a = choose|a: int|
                    0 <= a < visited.deep_view().len() && visited.deep_view()[a] == x;
            }
        }
        while stack.len() > 0
            invariant
                visited.deep_view().no_duplicates(),
                stack.deep_view().no_duplicates(),
                visited.deep_view().len() <= t.len() + 1,
                visited.deep_view().contains(m@),
                forall|x: Seq<char>|
                    #[trigger] stack.deep_view().contains(x) ==> visited.deep_view().contains(x),
                forall|x: Seq<char>|
                    #[trigger] visited.deep_view().contains(x) ==> x == m@ || table_keys(
                        t,
                    ).contains(x),
                forall|x: Seq<char>|
                    #[trigger] visited.deep_view().contains(x) ==> forwards_from(t, m@, name@, x),
                forall|x: Seq<char>, y: Seq<char>|
                    visited.deep_view().contains(x) && !stack.deep_view().contains(x)
                        && #[trigger] reexports_name(t, y, x, name@)
                        ==> visited.deep_view().contains(y),
            decreases t.len() + 1 - visited.deep_view().len(), stack.len(),
        {
            let ghost stack0 = stack.deep_view();
            let node = stack.pop().unwrap();
            proof {
                assert(node@ == stack0.last());
                assert(stack.deep_view() =~= stack0.drop_last());
                assert(stack0.contains(node@));
                assert(visited.deep_view().contains(node@));
                assert forall|x: Seq<char>| #[trigger]
                    stack.deep_view().contains(x) implies stack0.contains(x) by {
                    let a = choose|a: int|
                        0 <= a < stack.deep_view().len() && stack.deep_view()[a] == x;
                    assert(stack0[a] == x);
                }
                lemma_pop_closed_fwd(t, name@, visited.deep_view(), stack0, stack.deep_view(), node@);
            }
            let ghost vis_at_pop = visited.deep_view();
            let ghost stack_at_pop = stack.deep_view();
            let mut ri: usize = 0;
            while ri < self.files.len()
                invariant
                    ri <= t.len(),
                    visited.deep_view().len() - vis_at_pop.len() == stack.deep_view().len()
                        - stack_at_pop.len(),
                    stack.deep_view().len() >= stack_at_pop.len(),
                    visited.deep_view().no_duplicates(),
                    stack.deep_view().no_duplicates(),
                    visited.deep_view().len() <= t.len() + 1,
                    visited.deep_view().contains(m@),
                    visited.deep_view().contains(node@),
                    forall|x: Seq<char>|
                        #[trigger] stack.deep_view().contains(x) ==> visited.deep_view().contains(
                            x,
                        ),
                    forall|x: Seq<char>|
                        #[trigger] visited.deep_view().contains(x) ==> x == m@ || table_keys(
                            t,
                        ).contains(x),
                    forall|x: Seq<char>|
                        #[trigger] visited.deep_view().contains(x) ==> forwards_from(
                            t,
                            m@,
                            name@,
                            x,
                        ),
                    forall|x: Seq<char>, y: Seq<char>|
                        visited.deep_view().contains(x) && !stack.deep_view().contains(x) && x
                            != node@ && #[trigger] reexports_name(t, y, x, name@)
                            ==> visited.deep_view().contains(y),
                    forall|i: int|
                        #![trigger t[i]]
                        0 <= i < ri && t[i].0 != node@ && (exists|j: int|
                            #[trigger] reexport_at(t, i, j, node@, name@))
                            ==> visited.deep_view().contains(t[i].0),
                decreases t.len() - ri,
            {
                let is_self = str_eq(self.files[ri].0.as_str(), node.as_str());
                let mut hop = false;
                if !is_self {
                    hop = self.reexports_from(keys, ri, node.as_str(), name.as_str());
                }
                if hop {
                    proof {
                        assert(t[ri as int].0 == self.files@[ri as int].0@);
                        assert(reexports_name(t, t[ri as int].0, node@, name@));
                        lemma_forwards_step(t, m@, name@, node@, t[ri as int].0);
                        assert(key_seq(t)[ri as int] == t[ri as int].0);
                        assert(table_keys(t).contains(t[ri as int].0));
                    }
                    if !contains_str(&visited, self.files[ri].0.as_str()) {
                        let ghost vpre = visited.deep_view();
                        let ghost spre = stack.deep_view();
                        visited.push(self.files[ri].0.clone());
                        stack.push(self.files[ri].0.clone());
                        proof {
                            let ghost added = t[ri as int].0;
                            assert(visited.deep_view() =~= vpre.push(added));
                            assert(stack.deep_view() =~= spre.push(added));
                            assert(visited.deep_view().contains(added)) by {
                                assert(visited.deep_view()[vpre.len() as int] == added);
                            }
                            assert(stack.deep_view().contains(added)) by {
                                assert(stack.deep_view()[spre.len() as int] == added);
                            }
                            assert(forall|a: int|
                                0 <= a < vpre.len() ==> visited.deep_view()[a] == vpre[a]);
                            assert(forall|a: int|
                                0 <= a < spre.len() ==> stack.deep_view()[a] == spre[a]);
                            assert forall|x: Seq<char>| vpre.contains(x) implies #[trigger]
                                visited.deep_view().contains(x) by {
                                let a = choose|a: int| 0 <= a < vpre.len() && vpre[a] == x;
                                assert(visited.deep_view()[a] == x);
                            }
                            assert forall|x: Seq<char>| spre.contains(x) implies #[trigger]
                                stack.deep_view().contains(x) by {
                                let a = choose|a: int| 0 <= a < spre.len() && spre[a] == x;
                                assert(stack.deep_view()[a] == x);
                            }
                            assert(visited.deep_view().no_duplicates());
                            assert(stack.deep_view().no_duplicates()) by {
                                assert(!spre.contains(added));
                            }
                            assert forall|x: Seq<char>| #[trigger]
                                visited.deep_view().contains(x) implies vpre.contains(x) || x
                                == added by {
                                let a = choose|a: int|
                                    0 <= a < visited.deep_view().len() && visited.deep_view()[a]
                                        == x;
                                if a < vpre.len() {
                                    assert(vpre[a] == x);
                                }
                            }
                            assert forall|x: Seq<char>| #[trigger]
                                stack.deep_view().contains(x) implies spre.contains(x) || x
                                == added by {
                                let a = choose|a: int|
                                    0 <= a < stack.deep_view().len() && stack.deep_view()[a] == x;
                                if a < spre.len() {
                                    assert(spre[a] == x);
                                }
                            }
                            lemma_forward_bound(visited.deep_view(), t, m@);
                        }
                    }
                }
                ri += 1;
            }
            proof {
                assert forall|y: Seq<char>| #[trigger]
                    reexports_name(t, y, node@, name@) implies visited.deep_view().contains(y) by {
                    let (i, j): (int, int) = choose|i: int, j: int|
                        t[i].0 == y && #[trigger] reexport_at(t, i, j, node@, name@);
                    assert(0 <= i < t.len());
                    assert(t[i].0 != node@);
                    assert(exists|jj: int| #[trigger] reexport_at(t, i, jj, node@, name@));
                }
            }
        }
        proof {
            let vset = |x: Seq<char>| visited.deep_view().contains(x);
            assert forall|a: Seq<char>, b: Seq<char>|
                vset(a) && #[trigger] reexports_name(t, b, a, name@) implies vset(b) by {
                assert(!stack.deep_view().contains(a));
            }
            lemma_forwards_covers(t, name@, m@, vset);
            assert forall|x: Seq<char>| #[trigger]
                visited.deep_view().contains(x) == forwards_from(t, m@, name@, x) by {
                if forwards_from(t, m@, name@, x) {
                    assert(vset(x));
                }
            }
        }
        visited
    }

    /// Is export `name` of module `m` consumed, directly or through any
    /// chain of same-name re-export hops?
    #[verifier::loop_isolation(false)]
    fn check_used(&self, keys: &Vec<String>, m: &String, name: &String) -> (b: bool)
        requires
            self.wf(),
            keys.deep_view() == key_seq(self.table()),
        ensures
            b == export_used(self.table(), m@, name@),
    {
        let ghost t = self.table();
        let fwd = self.forwarders(keys, m, name);
        let mut i: usize = 0;
        while i < fwd.len()
            invariant
                i <= fwd.deep_view().len(),
                forall|j: int| 0 <= j < i ==> !directly_used(t, #[trigger] fwd.deep_view()[j], name@),
            decreases fwd.deep_view().len() - i,
        {
            if self.used_directly(fwd[i].as_str(), name.as_str()) {
                proof {
                    assert(fwd.deep_view().contains(fwd.deep_view()[i as int]));
                    assert(forwards_from(t, m@, name@, fwd.deep_view()[i as int]));
                }
                return true;
            }
            i += 1;
        }
        proof {
            assert(!export_used(t, m@, name@)) by {
                if export_used(t, m@, name@) {
                    let x = choose|x: Seq<char>|
                        #[trigger] forwards_from(t, m@, name@, x) && directly_used(t, x, name@);
                    assert(fwd.deep_view().contains(x));
                    let j = choose|j: int|
                        0 <= j < fwd.deep_view().len() && fwd.deep_view()[j] == x;
                    assert(!directly_used(t, fwd.deep_view()[j], name@));
                    assert(false);
                }
            }
        }
        false
    }
}


impl ProjectAnalyzer {
    /// Every unused export: each `(file, name)` pair such that `name` is a
    /// named export of `file` that nothing consumes, directly or through any
    /// chain of same-name re-export hops, deduplicated and sorted by file,
    /// then name. Wildcard re-exports are a pass-through mechanism, not
    /// declarations, so they are never reported themselves.
    #[verifier::loop_isolation(false)]
    #[verifier::rlimit(100)]
    pub fn find_unused_exports(&self) -> (r: Vec<(String, String)>)
        requires
            self.wf(),
        ensures
            crate::order::pairs_view(r@).no_duplicates(),
            forall|a: int, b: int|
                0 <= a < b < r@.len() ==> crate::order::pair_lt(
                    #[trigger] crate::order::pairs_view(r@)[a],
                    #[trigger] crate::order::pairs_view(r@)[b],
                ),
            forall|m: Seq<char>, n: Seq<char>|
                #[trigger] crate::order::pairs_view(r@).contains((m, n)) == unused_export(
                    self.table(),
                    m,
                    n,
                ),
    {
        let ghost t = self.table();
        let keys = keys_vec(&self.files);
        let mut out: Vec<(String, String)> = Vec::new();
        let mut mi: usize = 0;
        while mi < self.files.len()
            invariant
                mi <= t.len(),
                crate::order::pairs_view(out@).no_duplicates(),
                forall|m: Seq<char>, n: Seq<char>|
                    #[trigger] crate::order::pairs_view(out@).contains((m, n)) == (named_before(
                        t,
                        mi as int,
                        0,
                        m,
                        n,
                    ) && !export_used(t, m, n)),
            decreases t.len() - mi,
        {
            let mut ej: usize = 0;
            while ej < self.files[mi].1.exports.len()
                invariant
                    mi < t.len(),
                    ej <= t[mi as int].1.exports.len(),
                    crate::order::pairs_view(out@).no_duplicates(),
                    forall|m: Seq<char>, n: Seq<char>|
                        #[trigger] crate::order::pairs_view(out@).contains((m, n)) == (
                        named_before(t, mi as int, ej as int, m, n) && !export_used(t, m, n)),
                decreases t[mi as int].1.exports.len() - ej,
            {
                let item = &self.files[mi].1.exports[ej];
                proof {
                    assert(item@ == t[mi as int].1.exports[ej as int]);
                    assert(self.files@[mi as int].0@ == t[mi as int].0);
                    lemma_named_step(t, mi as int, ej as int);
                }
                match item {
                    ExportItem::Named(e) => {
                        let used = self.check_used(&keys, &self.files[mi].0, &e.name);
                        if !used {
                            if !contains_pair(&out, self.files[mi].0.as_str(), e.name.as_str()) {
                                let ghost opre = crate::order::pairs_view(out@);
                                let ghost mm = t[mi as int].0;
                                let ghost nm = e.name@;
                                out.push((self.files[mi].0.clone(), e.name.clone()));
                                proof {
                                    assert(crate::order::pairs_view(out@) =~= opre.push((mm, nm)));
                                    assert(crate::order::pairs_view(out@).contains((mm, nm))) by {
                                        assert(crate::order::pairs_view(out@)[opre.len() as int]
                                            == (mm, nm));
                                    }
                                    assert(crate::order::pairs_view(out@).no_duplicates()) by {
                                        assert(forall|a: int|
                                            0 <= a < opre.len()
                                                ==> crate::order::pairs_view(out@)[a] == opre[a]);
                                        assert(!opre.contains((mm, nm)));
                                    }
                                    assert forall|m: Seq<char>, n: Seq<char>| #[trigger]
                                        crate::order::pairs_view(out@).contains((m, n)) == (
                                    opre.contains((m, n)) || (m == mm && n == nm)) by {
                                        if crate::order::pairs_view(out@).contains((m, n)) {
                                            let a = choose|a: int|
                                                0 <= a < crate::order::pairs_view(out@).len()
                                                    && crate::order::pairs_view(out@)[a] == (m, n);
                                            if a < opre.len() {
                                                assert(opre[a] == (m, n));
                                            }
                                        }
                                        if opre.contains((m, n)) {
                                            let a = choose|a: int|
                                                0 <= a < opre.len() && opre[a] == (m, n);
                                            assert(crate::order::pairs_view(out@)[a] == (m, n));
                                        }
                                    }
                                }
                            }
                        }
                    },
                    ExportItem::All(_s) => {},
                }
                ej += 1;
            }
            proof {
                lemma_named_roll(t, mi as int);
            }
            mi += 1;
        }
        proof {
            assert forall|m: Seq<char>, n: Seq<char>|
                named_before(t, t.len() as int, 0, m, n) == is_named_export(t, m, n) by {
                if named_before(t, t.len() as int, 0, m, n) {
                    let (a, b): (int, int) = choose|a: int, b: int|
                        #[trigger] named_export_at(t, a, b, m, n) && (a < t.len() as int || (a
                            == t.len() as int && b < 0));
                    assert(is_named_export(t, m, n));
                }
                if is_named_export(t, m, n) {
                    let (a, b): (int, int) = choose|a: int, b: int|
                        #[trigger] named_export_at(t, a, b, m, n);
                    assert(named_export_at(t, a, b, m, n) && (a < t.len() as int || (a
                        == t.len() as int && b < 0)));
                    assert(named_before(t, t.len() as int, 0, m, n));
                }
            }
        }
        let ghost unsorted = crate::order::pairs_view(out@);
        let sorted = crate::order::sort_pairs(out);
        proof {
            crate::order::lemma_sort_pairs_post(unsorted, crate::order::pairs_view(sorted@));
        }
        sorted
    }
}


/// Popping the top of the stack keeps every other visited, off-stack module
/// closed under re-export hops.
proof fn lemma_pop_closed_fwd(
    t: TableRec,
    name: Seq<char>,
    vis: Seq<Seq<char>>,
    stack0: Seq<Seq<char>>,
    snew: Seq<Seq<char>>,
    node: Seq<char>,
)
    requires
        stack0.len() > 0,
        node == stack0.last(),
        snew == stack0.drop_last(),
        forall|x: Seq<char>, y: Seq<char>|
            vis.contains(x) && !stack0.contains(x) && #[trigger] reexports_name(t, y, x, name)
                ==> vis.contains(y),
    ensures
        forall|x: Seq<char>, y: Seq<char>|
            vis.contains(x) && !snew.contains(x) && x != node && #[trigger] reexports_name(
                t,
                y,
                x,
                name,
            ) ==> vis.contains(y),
{
    assert forall|x: Seq<char>, y: Seq<char>|
        vis.contains(x) && !snew.contains(x) && x != node && #[trigger] reexports_name(
            t,
            y,
            x,
            name,
        ) implies vis.contains(y) by {
        if stack0.contains(x) {
            let a = choose|a: int| 0 <= a < stack0.len() && stack0[a] == x;
            assert(a < stack0.len() - 1);
            assert(snew[a] == x);
            assert(snew.contains(x));
        }
    }
}

/// A duplicate-free sequence holding only `m` and table keys is no longer
/// than the table plus one.
proof fn lemma_forward_bound(vis: Seq<Seq<char>>, t: TableRec, m: Seq<char>)
    requires
        vis.no_duplicates(),
        forall|x: Seq<char>| vis.contains(x) ==> x == m || table_keys(t).contains(x),
    ensures
        vis.len() <= t.len() + 1,
{
    broadcast use vstd::set::group_set_axioms, vstd::seq_lib::seq_to_set_is_finite;

    vis.unique_seq_to_set();
    let big = table_keys(t).insert(m);
    assert(vis.to_set().subset_of(big));
    vstd::set_lib::lemma_len_subset(vis.to_set(), big);
    key_seq(t).lemma_cardinality_of_set();
    assert(big.len() <= table_keys(t).len() + 1);
}

} // verus!
