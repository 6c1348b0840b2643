//! The laws of the analysis, stated and proved once and for all inputs.

use crate::analyzer::{
    directly_used, export_used, has_edge, import_edge_at, is_named_export, is_seed, key_seq,
    named_export_at, reachable, reexport_at, reexports_name, table_keys, unused_export, TableRec,
};
use crate::order::{lex_lt, pair_lt};
use crate::records::{import_requests, ImportRec};
use vstd::prelude::*;

verus! {

/// Idempotence: any two results that satisfy the analysis contract for the
/// same module table and entrypoints are identical, bit for bit. Re-running
/// the analysis on an unchanged table therefore reproduces its output.
pub proof fn lemma_analysis_idempotent(
    t: TableRec,
    eps: Seq<Seq<char>>,
    reach1: Seq<Seq<char>>,
    unused1: Seq<(Seq<char>, Seq<char>)>,
    reach2: Seq<Seq<char>>,
    unused2: Seq<(Seq<char>, Seq<char>)>,
)
    requires
        crate::sweepy_post(t, eps, reach1, unused1),
        crate::sweepy_post(t, eps, reach2, unused2),
    ensures
        reach1 == reach2,
        unused1 == unused2,
{
    let slt = |x: Seq<char>, y: Seq<char>| lex_lt(x, y);
    assert forall|x: Seq<char>, y: Seq<char>| #[trigger] slt(x, y) implies !slt(y, x) && x != y by {
        crate::order::lemma_lex_lt_asymmetric(x, y);
    }
    assert forall|x: Seq<char>, y: Seq<char>| !(slt(x, y) || #[trigger] slt(y, x)) implies x
        == y by {
        crate::order::lemma_lex_lt_trichotomy(x, y);
    }
    crate::order::lemma_strict_sorted_unique(reach1, reach2, slt);

    let plt = |x: (Seq<char>, Seq<char>), y: (Seq<char>, Seq<char>)| pair_lt(x, y);
    assert forall|x: (Seq<char>, Seq<char>), y: (Seq<char>, Seq<char>)| #[trigger]
        plt(x, y) implies !plt(y, x) && x != y by {
        crate::order::lemma_pair_lt_asymmetric(x, y);
    }
    assert forall|x: (Seq<char>, Seq<char>), y: (Seq<char>, Seq<char>)|
        !(plt(x, y) || #[trigger] plt(y, x)) implies x == y by {
        crate::order::lemma_pair_lt_trichotomy(x, y);
    }
    assert forall|x: (Seq<char>, Seq<char>)| #[trigger] unused1.contains(x) == unused2.contains(
        x,
    ) by {
        assert(unused1.contains((x.0, x.1)) == crate::analyzer::unused_export(t, x.0, x.1));
        assert(unused2.contains((x.0, x.1)) == crate::analyzer::unused_export(t, x.0, x.1));
        assert((x.0, x.1) == x);
    }
    crate::order::lemma_strict_sorted_unique(unused1, unused2, plt);
}

/// Monotonicity of namespace import: a module imported anywhere through a
/// namespace import has every one of its exports used, whatever their names.
pub proof fn lemma_namespace_import_uses_all(
    t: TableRec,
    i: int,
    j: int,
    m: Seq<char>,
    name: Seq<char>,
)
    requires
        import_edge_at(t, i, j, m),
        t[i].1.imports[j].has_namespace,
    ensures
        export_used(t, m, name),
{
    assert(import_requests(t[i].1.imports[j], name));
    assert(directly_used(t, m, name));
    crate::analyzer::lemma_forwards_self(t, m, name);
    assert(export_used(t, m, name));
}

/// A default import marks the target's `default` export used.
pub proof fn lemma_default_import_uses_default(t: TableRec, i: int, j: int, m: Seq<char>)
    requires
        import_edge_at(t, i, j, m),
        t[i].1.imports[j].has_default,
    ensures
        export_used(t, m, "default"@),
{
    assert(import_requests(t[i].1.imports[j], "default"@));
    assert(directly_used(t, m, "default"@));
    crate::analyzer::lemma_forwards_self(t, m, "default"@);
    assert(export_used(t, m, "default"@));
}

/// Default matching, the exact converse: when no importer of `m` uses a
/// namespace import or lists `default` among its named specifiers, and no
/// module re-exports `m`'s `default`, then `default` is used exactly when
/// some importer of `m` carries a default import.
pub proof fn lemma_default_usage_iff(t: TableRec, m: Seq<char>)
    requires
        forall|i: int, j: int|
            #[trigger] import_edge_at(t, i, j, m) ==> !t[i].1.imports[j].has_namespace
                && !t[i].1.imports[j].specifiers.contains("default"@),
        forall|r: Seq<char>| !(#[trigger] reexports_name(t, r, m, "default"@)),
    ensures
        export_used(t, m, "default"@) == exists|i: int, j: int|
            #[trigger] import_edge_at(t, i, j, m) && t[i].1.imports[j].has_default,
{
    if export_used(t, m, "default"@) {
        lemma_no_reexporter_direct_only(t, m, "default"@);
        assert(directly_used(t, m, "default"@));
        let (i, j): (int, int) = choose|i: int, j: int|
            #[trigger] import_edge_at(t, i, j, m) && import_requests(
                t[i].1.imports[j],
                "default"@,
            );
        assert(t[i].1.imports[j].has_default);
    }
    if exists|i: int, j: int| #[trigger] import_edge_at(t, i, j, m) && t[i].1.imports[j].has_default {
        let (i, j): (int, int) = choose|i: int, j: int|
            #[trigger] import_edge_at(t, i, j, m) && t[i].1.imports[j].has_default;
        lemma_default_import_uses_default(t, i, j, m);
    }
}

/// Other exports are unaffected by default imports: whether an import record
/// asks for a name other than `default` does not depend on its default flag.
pub proof fn lemma_default_flag_local(imp: ImportRec, other: ImportRec, name: Seq<char>)
    requires
        name != "default"@,
        imp.source == other.source,
        imp.specifiers == other.specifiers,
        imp.has_namespace == other.has_namespace,
    ensures
        import_requests(imp, name) == import_requests(other, name),
{
}

/// A wildcard re-export forwards everything: when barrel `r` re-exports all
/// of `m` and some importer of `r` asks for `name`, export `name` of `m` is
/// used, whether or not `m` is imported anywhere itself.
pub proof fn lemma_wildcard_reexport_forwards(
    t: TableRec,
    i: int,
    j: int,
    m: Seq<char>,
    name: Seq<char>,
)
    requires
        0 <= i < t.len(),
        t[i].0 != m,
        0 <= j < t[i].1.exports.len(),
        t[i].1.exports[j] matches crate::records::ExportRec::All { source } && crate::resolver::resolve_spec(
            t[i].0,
            source,
            table_keys(t),
        ) == Some(m),
        directly_used(t, t[i].0, name),
    ensures
        export_used(t, m, name),
{
    assert(reexport_at(t, i, j, m, name));
    assert(reexports_name(t, t[i].0, m, name));
    crate::analyzer::lemma_forwards_self(t, m, name);
    crate::analyzer::lemma_forwards_step(t, m, name, m, t[i].0);
    assert(export_used(t, m, name));
}

/// A named re-export under an alias is no re-export of the original name: it
/// never contributes to the source module's usage under that name.
pub proof fn lemma_aliased_reexport_differs(
    t: TableRec,
    i: int,
    j: int,
    m: Seq<char>,
    name: Seq<char>,
)
    requires
        0 <= i < t.len(),
        0 <= j < t[i].1.exports.len(),
        t[i].1.exports[j] matches crate::records::ExportRec::Named { name: n2, source } && n2
            != name,
    ensures
        !reexport_at(t, i, j, m, name),
{
}

/// Re-export aliasing is name-preserving, not transitive-renaming: when no
/// module re-exports `name` from `m` (an aliased re-export does not), usage
/// of `name` in `m` reduces to direct imports of `m`; consumption of the
/// alias is evaluated against the barrel's own export name only.
pub proof fn lemma_no_reexporter_direct_only(t: TableRec, m: Seq<char>, name: Seq<char>)
    requires
        forall|r: Seq<char>| !(#[trigger] reexports_name(t, r, m, name)),
    ensures
        export_used(t, m, name) == directly_used(t, m, name),
{
    if export_used(t, m, name) {
        let x = choose|x: Seq<char>|
            #[trigger] crate::analyzer::forwards_from(t, m, name, x) && directly_used(t, x, name);
        let nodes: Seq<Seq<char>> = choose|nodes: Seq<Seq<char>>|
            #[trigger] crate::analyzer::is_forward_chain(t, name, nodes) && nodes[0] == m
                && nodes.last() == x;
        if nodes.len() >= 2 {
            assert(reexports_name(t, nodes[0int + 1], nodes[0int], name));
            assert(false);
        }
        assert(x == m);
    }
    if directly_used(t, m, name) {
        crate::analyzer::lemma_forwards_self(t, m, name);
        assert(export_used(t, m, name));
    }
}

/// Mutually importing modules are both reachable when one is an entrypoint:
/// the reachable set of a cycle is finite and contains both ends. (That the
/// traversal itself terminates on cycles is part of `compute_reachable`,
/// whose loops carry termination measures.)
pub proof fn lemma_cycle_reachable(t: TableRec, eps: Seq<Seq<char>>, a: Seq<char>, b: Seq<char>)
    requires
        is_seed(t, eps, a),
        has_edge(t, a, b),
        has_edge(t, b, a),
    ensures
        reachable(t, eps, a),
        reachable(t, eps, b),
{
    crate::analyzer::lemma_seed_reachable(t, eps, a);
    crate::analyzer::lemma_reachable_step(t, eps, a, b);
}

/// Everything reachable is a file of the module table: the reachable set is
/// a subset of the finite file set.
pub proof fn lemma_reachable_in_table(t: TableRec, eps: Seq<Seq<char>>)
    ensures
        forall|x: Seq<char>| #[trigger] reachable(t, eps, x) ==> table_keys(t).contains(x),
{
    let p = |x: Seq<char>| table_keys(t).contains(x);
    assert forall|x: Seq<char>, y: Seq<char>| p(x) && #[trigger] has_edge(t, x, y) implies p(y) by {
        crate::analyzer::lemma_edge_target_in_keys(t, x, y);
    }
    crate::analyzer::lemma_closed_covers(t, eps, p);
    assert forall|x: Seq<char>| #[trigger] reachable(t, eps, x) implies table_keys(t).contains(
        x,
    ) by {
        assert(p(x));
    }
}


/// Two tables that agree on everything except the default flags of their
/// import records.
pub open spec fn same_but_default_flags(t1: TableRec, t2: TableRec) -> bool {
    &&& t1.len() == t2.len()
    &&& forall|i: int| 0 <= i < t1.len() ==> (#[trigger] t2[i]).0 == t1[i].0
    &&& forall|i: int| 0 <= i < t1.len() ==> (#[trigger] t2[i]).1.exports == t1[i].1.exports
    &&& forall|i: int|
        0 <= i < t1.len() ==> (#[trigger] t2[i]).1.imports.len() == t1[i].1.imports.len()
    &&& forall|i: int, j: int|
        0 <= i < t1.len() && 0 <= j < t1[i].1.imports.len() ==> {
            &&& (#[trigger] t2[i].1.imports[j]).source == t1[i].1.imports[j].source
            &&& t2[i].1.imports[j].specifiers == t1[i].1.imports[j].specifiers
            &&& t2[i].1.imports[j].has_namespace == t1[i].1.imports[j].has_namespace
        }
}

/// Other exports are unaffected by default imports, in full: changing the
/// default flags of any import records — in particular, deleting every
/// default-only request by clearing its flag — changes neither whether an
/// export named anything but `default` is used, nor whether it is reported
/// unused.
pub proof fn lemma_default_flags_do_not_affect_other_exports(
    t1: TableRec,
    t2: TableRec,
    m: Seq<char>,
    name: Seq<char>,
)
    requires
        same_but_default_flags(t1, t2),
        name != "default"@,
    ensures
        export_used(t1, m, name) == export_used(t2, m, name),
        unused_export(t1, m, name) == unused_export(t2, m, name),
{
    assert(key_seq(t1) =~= key_seq(t2));
    assert(table_keys(t1) == table_keys(t2));
    assert forall|r: Seq<char>| #[trigger] directly_used(t1, r, name) == directly_used(
        t2,
        r,
        name,
    ) by {
        if directly_used(t1, r, name) {
            let (i, j): (int, int) = choose|i: int, j: int|
                #[trigger] import_edge_at(t1, i, j, r) && import_requests(
                    t1[i].1.imports[j],
                    name,
                );
            assert(import_edge_at(t2, i, j, r));
            assert(import_requests(t2[i].1.imports[j], name));
            assert(directly_used(t2, r, name));
        }
        if directly_used(t2, r, name) {
            let (i, j): (int, int) = choose|i: int, j: int|
                #[trigger] import_edge_at(t2, i, j, r) && import_requests(
                    t2[i].1.imports[j],
                    name,
                );
            assert(import_edge_at(t1, i, j, r));
            assert(import_requests(t1[i].1.imports[j], name));
            assert(directly_used(t1, r, name));
        }
    }
    assert forall|b: Seq<char>, a: Seq<char>| #[trigger] reexports_name(t1, b, a, name)
        == reexports_name(t2, b, a, name) by {
        if reexports_name(t1, b, a, name) {
            let (i, j): (int, int) = choose|i: int, j: int|
                t1[i].0 == b && #[trigger] reexport_at(t1, i, j, a, name);
            assert(reexport_at(t2, i, j, a, name));
            assert(t2[i].0 == b);
            assert(reexports_name(t2, b, a, name));
        }
        if reexports_name(t2, b, a, name) {
            let (i, j): (int, int) = choose|i: int, j: int|
                t2[i].0 == b && #[trigger] reexport_at(t2, i, j, a, name);
            assert(reexport_at(t1, i, j, a, name));
            assert(t1[i].0 == b);
            assert(reexports_name(t1, b, a, name));
        }
    }
    assert forall|nodes: Seq<Seq<char>>| #[trigger]
        crate::analyzer::is_forward_chain(t1, name, nodes) == crate::analyzer::is_forward_chain(
        t2,
        name,
        nodes,
    ) by {
        if crate::analyzer::is_forward_chain(t1, name, nodes) {
            assert forall|k: int| 0 <= k < nodes.len() - 1 implies reexports_name(
                t2,
                #[trigger] nodes[k + 1],
                nodes[k],
                name,
            ) by {
                assert(reexports_name(t1, nodes[k + 1], nodes[k], name));
            }
        }
        if crate::analyzer::is_forward_chain(t2, name, nodes) {
            assert forall|k: int| 0 <= k < nodes.len() - 1 implies reexports_name(
                t1,
                #[trigger] nodes[k + 1],
                nodes[k],
                name,
            ) by {
                assert(reexports_name(t2, nodes[k + 1], nodes[k], name));
            }
        }
    }
    assert forall|x: Seq<char>| #[trigger] crate::analyzer::forwards_from(t1, m, name, x)
        == crate::analyzer::forwards_from(t2, m, name, x) by {
        if crate::analyzer::forwards_from(t1, m, name, x) {
            let nodes: Seq<Seq<char>> = choose|nodes: Seq<Seq<char>>|
                #[trigger] crate::analyzer::is_forward_chain(t1, name, nodes) && nodes[0] == m
                    && nodes.last() == x;
            assert(crate::analyzer::is_forward_chain(t2, name, nodes));
            assert(crate::analyzer::forwards_from(t2, m, name, x));
        }
        if crate::analyzer::forwards_from(t2, m, name, x) {
            let nodes: Seq<Seq<char>> = choose|nodes: Seq<Seq<char>>|
                #[trigger] crate::analyzer::is_forward_chain(t2, name, nodes) && nodes[0] == m
                    && nodes.last() == x;
            assert(crate::analyzer::is_forward_chain(t1, name, nodes));
            assert(crate::analyzer::forwards_from(t1, m, name, x));
        }
    }
    assert(export_used(t1, m, name) == export_used(t2, m, name)) by {
        if export_used(t1, m, name) {
            let x = choose|x: Seq<char>|
                #[trigger] crate::analyzer::forwards_from(t1, m, name, x) && directly_used(
                    t1,
                    x,
                    name,
                );
            assert(crate::analyzer::forwards_from(t2, m, name, x) && directly_used(t2, x, name));
        }
        if export_used(t2, m, name) {
            let x = choose|x: Seq<char>|
                #[trigger] crate::analyzer::forwards_from(t2, m, name, x) && directly_used(
                    t2,
                    x,
                    name,
                );
            assert(crate::analyzer::forwards_from(t1, m, name, x) && directly_used(t1, x, name));
        }
    }
    assert(is_named_export(t1, m, name) == is_named_export(t2, m, name)) by {
        if is_named_export(t1, m, name) {
            let (i, j): (int, int) = choose|i: int, j: int|
                #[trigger] named_export_at(t1, i, j, m, name);
            assert(named_export_at(t2, i, j, m, name));
        }
        if is_named_export(t2, m, name) {
            let (i, j): (int, int) = choose|i: int, j: int|
                #[trigger] named_export_at(t2, i, j, m, name);
            assert(named_export_at(t1, i, j, m, name));
        }
    }
}


/// Usage propagates transitively through pure re-export hops: when `r`
/// re-exports `name` from `m` and `name` is used as an export of `r` —
/// directly or through further re-export hops — it is used as an export of
/// `m` too, for chains of any length.
pub proof fn lemma_reexport_hop_preserves_usage(
    t: TableRec,
    r: Seq<char>,
    m: Seq<char>,
    name: Seq<char>,
)
    requires
        reexports_name(t, r, m, name),
        export_used(t, r, name),
    ensures
        export_used(t, m, name),
{
    let x = choose|x: Seq<char>|
        #[trigger] crate::analyzer::forwards_from(t, r, name, x) && directly_used(t, x, name);
    crate::analyzer::lemma_forwards_self(t, m, name);
    crate::analyzer::lemma_forwards_step(t, m, name, m, r);
    crate::analyzer::lemma_forwards_transitive(t, name, m, r, x);
    assert(export_used(t, m, name));
}

} // verus!
