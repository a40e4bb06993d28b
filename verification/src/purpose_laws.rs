//! Laws that say, in terms of the inputs, what matching, comparing,
//! aggregating and connecting routes produce.
use vstd::prelude::*;
use crate::route::{EntryView, path_of, structural_id_of, aligned_names};
use crate::intent::ActualView;
use crate::diff::{DiffView, diff_of};
use crate::schema::{AlignView, EdgeView, EndpointView, PortView};
use crate::align::{
    aggregate_of, priority, target_of, matched_route, alignment_status, first_with_id,
    first_with_id_from, lemma_best_server_bound, candidate,
};
use crate::map::{
    orphans_of, server_of, consumer_alignment, alignments_of, alignments_upto, alignments_for, projects_of, edges_of, edge_keys, edge_group, edge_view, edge_key, edge_ports, ports_of, find_port,
    find_port_from, find_project, find_project_from,
};
use crate::map_laws::{law_aggregate_status, lemma_best_server_least};
use crate::names::name_less;

verus! {

// ---------- matching a consumed route ----------

/// Project `k` of the listing exposes at position `j` a route that a consumed
/// route `c` of `client` may be matched against: the project is not the client,
/// it is the named target where a target is named, and the route has the same
/// kinds of segments as `c`.
pub open spec fn may_match(c: EntryView, client: Seq<char>, ps: Seq<(Seq<char>, ActualView)>, k: int, j: int) -> bool {
    &&& 0 <= k < ps.len()
    &&& ps[k].0 != client
    &&& (target_of(c).len() == 0 || ps[k].0 == target_of(c))
    &&& 0 <= j < ps[k].1.exposed.len()
    &&& structural_id_of(ps[k].1.exposed[j].segments) == structural_id_of(c.segments)
}

/// The search for a route of a structure finds exactly the first one.
proof fn lemma_first_with_id_exact(es: Seq<EntryView>, id: Seq<char>, k: int)
    requires
        0 <= k,
    ensures
        first_with_id_from(es, id, k) matches Some(j) ==> k <= j < es.len() && structural_id_of(es[j].segments)
            == id && forall|i: int| k <= i < j ==> structural_id_of(#[trigger] es[i].segments) != id,
        first_with_id_from(es, id, k) is None ==> forall|i: int|
            k <= i < es.len() ==> structural_id_of(#[trigger] es[i].segments) != id,
    decreases es.len() - k,
{
    if k < es.len() && structural_id_of(es[k].segments) != id {
        lemma_first_with_id_exact(es, id, k + 1);
    }
}

/// A consumed route is matched against a route exactly where some other
/// project (the named target, where one is named) exposes a route of the same
/// structure. The route matched is such a route, the first of its project;
/// no project that has such a route has a name that comes before the matched
/// project's name. The alignment is recorded against the named target
/// whenever a target is named, and against the matched project otherwise.
pub proof fn law_matched_route(c: EntryView, client: Seq<char>, ps: Seq<(Seq<char>, ActualView)>)
    ensures
        matched_route(c, client, ps) is None <==> forall|k: int, j: int| !#[trigger] may_match(c, client, ps, k, j),
        matched_route(c, client, ps) matches Some(m) ==> may_match(c, client, ps, m.0, m.1),
        matched_route(c, client, ps) matches Some(m) ==> forall|i: int|
            0 <= i < m.1 ==> structural_id_of(#[trigger] ps[m.0].1.exposed[i].segments) != structural_id_of(
                c.segments,
            ),
        matched_route(c, client, ps) matches Some(m) ==> forall|k: int, j: int|
            #[trigger] may_match(c, client, ps, k, j) ==> !name_less(ps[k].0, ps[m.0].0),
        target_of(c).len() > 0 ==> server_of(c, client, ps) == target_of(c),
        target_of(c).len() == 0 && matched_route(c, client, ps) is Some ==> server_of(c, client, ps) != client,
{
    let target = target_of(c);
    let id = structural_id_of(c.segments);
    let n = ps.len() as int;
    lemma_best_server_bound(ps, client, target, id, n);
    lemma_best_server_least(ps, client, target, id, n);
    let r = matched_route(c, client, ps);
    assert forall|k: int, j: int| #[trigger] may_match(c, client, ps, k, j) implies candidate(
        ps[k],
        client,
        target,
        id,
    ) by {
        lemma_first_with_id_exact(ps[k].1.exposed, id, 0);
    }
    match r {
        Some(m) => {
            lemma_first_with_id_exact(ps[m.0].1.exposed, id, 0);
            assert(may_match(c, client, ps, m.0, m.1));
        },
        None => {
            assert forall|k: int, j: int| !#[trigger] may_match(c, client, ps, k, j) by {
                if may_match(c, client, ps, k, j) {
                    assert(candidate(ps[k], client, target, id));
                }
            }
        },
    }
}

/// The status of a consumed route: against the route it is matched with, a
/// differing method gives `MethodMismatch` whatever the segments, else
/// differing aligned parameter names give `ParamNameMismatch`, else `Aligned`;
/// unmatched, it is `Orphaned` where a target is named and empty (no
/// alignment) where none is.
pub proof fn law_alignment_status(c: EntryView, client: Seq<char>, ps: Seq<(Seq<char>, ActualView)>)
    ensures
        matched_route(c, client, ps) matches Some(m) ==> {
            let s = ps[m.0].1.exposed[m.1];
            &&& c.method != s.method ==> alignment_status(c, client, ps) == "MethodMismatch"@
            &&& c.method == s.method && aligned_names(c.segments, s.segments) != aligned_names(s.segments, c.segments)
                ==> alignment_status(c, client, ps) == "ParamNameMismatch"@
            &&& c.method == s.method && aligned_names(c.segments, s.segments) == aligned_names(s.segments, c.segments)
                ==> alignment_status(c, client, ps) == "Aligned"@
        },
        matched_route(c, client, ps) is None && target_of(c).len() > 0 ==> alignment_status(c, client, ps)
            == "Orphaned"@,
        matched_route(c, client, ps) is None && target_of(c).len() == 0 ==> alignment_status(c, client, ps).len()
            == 0,
{
    match matched_route(c, client, ps) {
        Some(m) => {
            law_compare_routes(c, ps[m.0].1.exposed[m.1]);
        },
        None => {},
    }
}

// ---------- comparing two versions of a route ----------

/// A change of method is reported whatever the segments, carrying both
/// methods; with the same method, differing names of the aligned parameters
/// are reported, carrying both lists of names; otherwise the route is
/// unchanged. A comparison never reports a route added or removed.
pub proof fn law_compare_routes(old: EntryView, new: EntryView)
    ensures
        old.method != new.method ==> diff_of(old, new) == (DiffView::MethodChanged {
            old_method: old.method,
            new_method: new.method,
        }),
        old.method == new.method && aligned_names(old.segments, new.segments) != aligned_names(
            new.segments,
            old.segments,
        ) ==> diff_of(old, new) == (DiffView::ParamNamesChanged {
            old_names: aligned_names(old.segments, new.segments),
            new_names: aligned_names(new.segments, old.segments),
        }),
        old.method == new.method && aligned_names(old.segments, new.segments) == aligned_names(
            new.segments,
            old.segments,
        ) ==> diff_of(old, new) == DiffView::Unchanged,
        !(diff_of(old, new) is Added) && !(diff_of(old, new) is Removed),
{
}

// ---------- aggregating statuses ----------

/// The status of a group of alignments goes by urgency: `MethodMismatch` if
/// any alignment has it, else `Orphaned` if any has it, else
/// `ParamNameMismatch` if any has it, else `Aligned` if any has it (or if the
/// group is empty); it is always one of the group's statuses otherwise.
pub proof fn law_aggregate_urgency(ss: Seq<Seq<char>>)
    ensures
        ss.len() == 0 ==> aggregate_of(ss) == "Aligned"@,
        ss.len() > 0 ==> ss.contains(aggregate_of(ss)),
        ss.contains("MethodMismatch"@) ==> aggregate_of(ss) == "MethodMismatch"@,
        !ss.contains("MethodMismatch"@) && ss.contains("Orphaned"@) ==> aggregate_of(ss) == "Orphaned"@,
        !ss.contains("MethodMismatch"@) && !ss.contains("Orphaned"@) && ss.contains("ParamNameMismatch"@)
            ==> aggregate_of(ss) == "ParamNameMismatch"@,
        !ss.contains("MethodMismatch"@) && !ss.contains("Orphaned"@) && !ss.contains("ParamNameMismatch"@)
            && ss.contains("Aligned"@) ==> aggregate_of(ss) == "Aligned"@,
{
    reveal_strlit("Aligned");
    reveal_strlit("ParamNameMismatch");
    reveal_strlit("MethodMismatch");
    reveal_strlit("Orphaned");
    assert("Aligned"@.len() == 7);
    assert("ParamNameMismatch"@.len() == 17);
    assert("MethodMismatch"@.len() == 14);
    assert("Orphaned"@.len() == 8);
    law_aggregate_status(ss);
    if ss.len() > 0 {
        let a = aggregate_of(ss);
        let i = choose|i: int|
            0 <= i < ss.len() && #[trigger] ss[i] == aggregate_of(ss) && (forall|j: int|
                0 <= j < ss.len() ==> priority(aggregate_of(ss)) <= priority(#[trigger] ss[j])) && (
            forall|j: int| 0 <= j < i ==> priority(aggregate_of(ss)) < priority(#[trigger] ss[j]));
        assert(ss.contains(a));
        if ss.contains("MethodMismatch"@) {
            let j = choose|j: int| 0 <= j < ss.len() && ss[j] == "MethodMismatch"@;
            assert(priority(ss[j]) == 0);
        } else if ss.contains("Orphaned"@) {
            let j = choose|j: int| 0 <= j < ss.len() && ss[j] == "Orphaned"@;
            assert(priority(ss[j]) == 1);
        } else if ss.contains("ParamNameMismatch"@) {
            let j = choose|j: int| 0 <= j < ss.len() && ss[j] == "ParamNameMismatch"@;
            assert(priority(ss[j]) == 2);
        } else if ss.contains("Aligned"@) {
            let j = choose|j: int| 0 <= j < ss.len() && ss[j] == "Aligned"@;
            assert(priority(ss[j]) == 3);
        }
    }
}

// ---------- ports of the edges ----------

/// Position `i` of the routes holds the first route with the rendered path and method.
pub open spec fn first_route_at(es: Seq<EntryView>, path: Seq<char>, method: Seq<char>, i: int) -> bool {
    &&& 0 <= i < es.len()
    &&& path_of(es[i].segments) == path
    &&& es[i].method == method
    &&& forall|j: int| 0 <= j < i ==> !(path_of(#[trigger] es[j].segments) == path && es[j].method == method)
}

/// The port joins the client's first consumed route and the server's first
/// exposed route of its path and method, and carries the path, method and
/// status of one alignment of the edge.
pub open spec fn port_in_place(
    ps: Seq<(Seq<char>, ActualView)>,
    als: Seq<AlignView>,
    edge: EdgeView,
    p: PortView,
) -> bool {
    &&& exists|ci: int| 0 <= ci < ps.len() && #[trigger] ps[ci].0 == edge.client_project
        && first_route_at(ps[ci].1.consumed, p.path, p.method, p.source_port_index)
    &&& exists|si: int| 0 <= si < ps.len() && #[trigger] ps[si].0 == edge.server_project
        && first_route_at(ps[si].1.exposed, p.path, p.method, p.target_port_index)
    &&& exists|g: int| 0 <= g < als.len() && #[trigger] edge_key(als[g]) == (edge.client_project, edge.server_project)
        && als[g].path == p.path && als[g].method == p.method && als[g].status == p.status
}

/// The search for a route of a path and method finds exactly the first one.
proof fn lemma_find_port_exact(es: Seq<EntryView>, path: Seq<char>, method: Seq<char>, k: int)
    requires
        0 <= k,
    ensures
        find_port_from(es, path, method, k) matches Some(i) ==> k <= i < es.len() && path_of(es[i].segments) == path
            && es[i].method == method && forall|j: int|
            k <= j < i ==> !(path_of(#[trigger] es[j].segments) == path && es[j].method == method),
    decreases es.len() - k,
{
    if k < es.len() && !(path_of(es[k].segments) == path && es[k].method == method) {
        lemma_find_port_exact(es, path, method, k + 1);
    }
}

/// The search for a project finds one of that name.
proof fn lemma_find_project_exact(ps: Seq<(Seq<char>, ActualView)>, name: Seq<char>, k: int)
    requires
        0 <= k,
    ensures
        find_project_from(ps, name, k) matches Some(i) ==> k <= i < ps.len() && ps[i].0 == name,
    decreases ps.len() - k,
{
    if k < ps.len() && ps[k].0 != name {
        lemma_find_project_exact(ps, name, k + 1);
    }
}

/// Each port of a group comes from an alignment of the group and points at
/// the first routes of its path and method on both sides.
proof fn lemma_ports_of_in_place(cons: Seq<EntryView>, exps: Seq<EntryView>, group: Seq<AlignView>)
    ensures
        forall|q: int|
            0 <= q < ports_of(cons, exps, group).len() ==> {
                let p = #[trigger] ports_of(cons, exps, group)[q];
                &&& first_route_at(cons, p.path, p.method, p.source_port_index)
                &&& first_route_at(exps, p.path, p.method, p.target_port_index)
                &&& exists|g: int| 0 <= g < group.len() && #[trigger] group[g].path == p.path
                    && group[g].method == p.method && group[g].status == p.status
            },
    decreases group.len(),
{
    if group.len() > 0 {
        let init = group.drop_last();
        lemma_ports_of_in_place(cons, exps, init);
        let a = group.last();
        lemma_find_port_exact(cons, a.path, a.method, 0);
        lemma_find_port_exact(exps, a.path, a.method, 0);
        let rest = ports_of(cons, exps, init);
        let all = ports_of(cons, exps, group);
        assert forall|q: int| 0 <= q < all.len() implies {
            let p = #[trigger] all[q];
            &&& first_route_at(cons, p.path, p.method, p.source_port_index)
            &&& first_route_at(exps, p.path, p.method, p.target_port_index)
            &&& exists|g: int| 0 <= g < group.len() && #[trigger] group[g].path == p.path
                && group[g].method == p.method && group[g].status == p.status
        } by {
            if q < rest.len() {
                assert(all[q] == rest[q]);
                let p = rest[q];
                let g = choose|g: int| 0 <= g < init.len() && #[trigger] init[g].path == p.path
                    && init[g].method == p.method && init[g].status == p.status;
                assert(group[g] == init[g]);
            } else {
                assert(group[group.len() - 1] == a);
            }
        }
    }
}

/// Every port of every edge joins the client's first consumed route and the
/// server's first exposed route that have the port's path and method (their
/// positions in those projects' lists), and carries the path, method and
/// status of an alignment between those two projects.
pub proof fn law_edge_ports_in_place(ps: Seq<(Seq<char>, ActualView)>, als: Seq<AlignView>)
    ensures
        forall|e: int, q: int|
            0 <= e < edges_of(ps, als).len() && 0 <= q < edges_of(ps, als)[e].ports.len() ==> port_in_place(
                ps,
                als,
                edges_of(ps, als)[e],
                #[trigger] edges_of(ps, als)[e].ports[q],
            ),
{
    assert forall|e: int, q: int|
        0 <= e < edges_of(ps, als).len() && 0 <= q < edges_of(ps, als)[e].ports.len() implies port_in_place(
            ps,
            als,
            edges_of(ps, als)[e],
            #[trigger] edges_of(ps, als)[e].ports[q],
        ) by {
        let key = edge_keys(als)[e];
        let group = edge_group(als, key);
        let edge = edges_of(ps, als)[e];
        assert(edge == edge_view(ps, key, group));
        lemma_find_project_exact(ps, key.0, 0);
        lemma_find_project_exact(ps, key.1, 0);
        match (find_project(ps, key.0), find_project(ps, key.1)) {
            (Some(ci), Some(si)) => {
                let cons = ps[ci].1.consumed;
                let exps = ps[si].1.exposed;
                assert(edge.ports == ports_of(cons, exps, group));
                lemma_ports_of_in_place(cons, exps, group);
                let p = edge.ports[q];
                let g = choose|g: int| 0 <= g < group.len() && #[trigger] group[g].path == p.path
                    && group[g].method == p.method && group[g].status == p.status;
                als.lemma_filter_pred(|a: AlignView| edge_key(a) == key, g);
                assert(edge_key(group[g]) == key);
                let x = group[g];
                assert(group.contains(x));
                als.lemma_filter_contains_rev(|a: AlignView| edge_key(a) == key, x);
                let gg = choose|gg: int| 0 <= gg < als.len() && als[gg] == x;
                assert(edge_key(als[gg]) == (edge.client_project, edge.server_project));
            },
            _ => {
                assert(edge.ports == edge_ports(ps, key, group));
            },
        }
    }
}

// ---------- alignments and project nodes ----------

/// Consumed route `k` of project `i` gives the alignment: the alignment
/// carries the project as its client, the route's rendered path and method,
/// the route's (non-empty) status, the server it is recorded against, and no
/// warning.
pub open spec fn aligns_route(ps: Seq<(Seq<char>, ActualView)>, a: AlignView, i: int, k: int) -> bool {
    &&& 0 <= i < ps.len()
    &&& 0 <= k < ps[i].1.consumed.len()
    &&& a.client_project == ps[i].0
    &&& a.path == path_of(ps[i].1.consumed[k].segments)
    &&& a.method == ps[i].1.consumed[k].method
    &&& a.status == alignment_status(ps[i].1.consumed[k], ps[i].0, ps)
    &&& a.status.len() > 0
    &&& a.server_project == server_of(ps[i].1.consumed[k], ps[i].0, ps)
    &&& a.warning is None
}

/// Some consumed route of project `i` before position `n` gives the alignment.
pub open spec fn aligns_route_of(ps: Seq<(Seq<char>, ActualView)>, a: AlignView, i: int, n: int) -> bool {
    exists|k: int| 0 <= k < n && #[trigger] aligns_route(ps, a, i, k)
}

/// Some consumed route of one of the first `n` projects gives the alignment.
pub open spec fn aligns_route_upto(ps: Seq<(Seq<char>, ActualView)>, a: AlignView, n: int) -> bool {
    exists|i: int, k: int| 0 <= i < n && #[trigger] aligns_route(ps, a, i, k)
}

/// The alignments of some consumed routes of project `i` come from them.
proof fn lemma_alignments_for_sources(ps: Seq<(Seq<char>, ActualView)>, i: int, n: int)
    requires
        0 <= i < ps.len(),
        0 <= n <= ps[i].1.consumed.len(),
    ensures
        forall|q: int|
            0 <= q < alignments_for(ps[i].0, ps[i].1.consumed.take(n), ps).len() ==> aligns_route_of(
                ps,
                #[trigger] alignments_for(ps[i].0, ps[i].1.consumed.take(n), ps)[q],
                i,
                n,
            ),
    decreases n,
{
    let cs = ps[i].1.consumed;
    if n > 0 {
        lemma_alignments_for_sources(ps, i, n - 1);
        assert(cs.take(n).drop_last() =~= cs.take(n - 1));
        assert(cs.take(n).last() == cs[n - 1]);
        let prev = alignments_for(ps[i].0, cs.take(n - 1), ps);
        let cur = alignments_for(ps[i].0, cs.take(n), ps);
        assert forall|q: int| 0 <= q < cur.len() implies aligns_route_of(ps, #[trigger] cur[q], i, n) by {
            if q < prev.len() {
                assert(cur[q] == prev[q]);
                assert(aligns_route_of(ps, prev[q], i, n - 1));
                let k = choose|k: int| 0 <= k < n - 1 && #[trigger] aligns_route(ps, prev[q], i, k);
                assert(aligns_route(ps, cur[q], i, k));
            } else {
                match consumer_alignment(ps[i].0, cs[n - 1], ps) {
                    Some(x) => {
                        assert(cur == prev.push(x));
                        assert(cur[q] == x);
                        assert(aligns_route(ps, cur[q], i, n - 1));
                    },
                    None => {
                        assert(cur == prev);
                    },
                }
            }
        }
    } else {
        assert(cs.take(0).len() == 0);
    }
}

/// The alignments of the first `n` projects come from their consumed routes.
proof fn lemma_alignments_upto_sources(ps: Seq<(Seq<char>, ActualView)>, n: int)
    requires
        0 <= n <= ps.len(),
    ensures
        forall|q: int|
            0 <= q < alignments_upto(ps, n).len() ==> aligns_route_upto(ps, #[trigger] alignments_upto(ps, n)[q], n),
    decreases n,
{
    if n > 0 {
        lemma_alignments_upto_sources(ps, n - 1);
        let j = n - 1;
        let cs = ps[j].1.consumed;
        lemma_alignments_for_sources(ps, j, cs.len() as int);
        assert(cs.take(cs.len() as int) =~= cs);
        let a = alignments_upto(ps, n - 1);
        let b = alignments_for(ps[j].0, cs, ps);
        assert(alignments_upto(ps, n) == a + b);
        assert forall|q: int| 0 <= q < (a + b).len() implies aligns_route_upto(ps, #[trigger] (a + b)[q], n) by {
            if q < a.len() {
                assert((a + b)[q] == a[q]);
                assert(aligns_route_upto(ps, a[q], n - 1));
                let (i, k) = choose|i: int, k: int| 0 <= i < n - 1 && #[trigger] aligns_route(ps, a[q], i, k);
                assert(aligns_route(ps, (a + b)[q], i, k));
            } else {
                let r = q - a.len();
                assert((a + b)[q] == b[r]);
                assert(aligns_route_of(ps, b[r], j, cs.len() as int));
                let k = choose|k: int| 0 <= k < cs.len() && #[trigger] aligns_route(ps, b[r], j, k);
                assert(aligns_route(ps, (a + b)[q], j, k));
            }
        }
    }
}

/// Every alignment of the map stands for a consumed route of its client
/// project: it carries that route's rendered path and method, its status
/// (never empty) and the server it was matched against (or the named target).
pub proof fn law_alignments_come_from_consumed_routes(ps: Seq<(Seq<char>, ActualView)>)
    ensures
        forall|q: int|
            0 <= q < alignments_of(ps).len() ==> aligns_route_upto(ps, #[trigger] alignments_of(ps)[q], ps.len() as int),
{
    lemma_alignments_upto_sources(ps, ps.len() as int);
}

/// One node per project, in the listing's order: the node carries the
/// project's name, its declared type or `mixed`, the sha `unknown`, the
/// recorded scan status or `success`, its location where one is recorded, and
/// its routes rendered in order, a consumed route without target aimed at
/// `unknown`.
pub proof fn law_project_nodes(
    ps: Seq<(Seq<char>, ActualView)>,
    scan: Map<Seq<char>, Seq<char>>,
    paths: Map<Seq<char>, Seq<char>>,
)
    ensures
        projects_of(ps, scan, paths).len() == ps.len(),
        forall|i: int| 0 <= i < ps.len() ==> {
            let n = #[trigger] projects_of(ps, scan, paths)[i];
            let a = ps[i].1;
            &&& n.name == ps[i].0
            &&& n.project_type == (if a.project_type is Some { a.project_type->0 } else { "mixed"@ })
            &&& n.sha == "unknown"@
            &&& n.scan_status == (if scan.contains_key(ps[i].0) { scan[ps[i].0] } else { "success"@ })
            &&& n.path == (if paths.contains_key(ps[i].0) { Some(paths[ps[i].0]) } else { None })
            &&& n.exposed.len() == a.exposed.len()
            &&& n.consumed.len() == a.consumed.len()
            &&& forall|k: int| 0 <= k < a.exposed.len() ==> (#[trigger] n.exposed[k]).path == path_of(a.exposed[k].segments)
                && n.exposed[k].method == a.exposed[k].method
            &&& forall|k: int| 0 <= k < a.consumed.len() ==> (#[trigger] n.consumed[k]).path == path_of(a.consumed[k].segments)
                && n.consumed[k].method == a.consumed[k].method && n.consumed[k].target_project == (
                if a.consumed[k].target_project is Some { a.consumed[k].target_project->0 } else { "unknown"@ })
        },
{
}

// ---------- orphaned consumers ----------

/// Every alignment that ended `Orphaned` is listed as an orphaned consumer:
/// its client project, path and method.
pub proof fn law_orphans_listed(als: Seq<AlignView>)
    ensures
        forall|g: int|
            0 <= g < als.len() && (#[trigger] als[g]).status == "Orphaned"@ ==> orphans_of(als).contains(
                (EndpointView { project: als[g].client_project, path: als[g].path, method: als[g].method }),
            ),
    decreases als.len(),
{
    if als.len() > 0 {
        let init = als.drop_last();
        law_orphans_listed(init);
        let prev = orphans_of(init);
        let cur = orphans_of(als);
        assert forall|g: int|
            0 <= g < als.len() && (#[trigger] als[g]).status == "Orphaned"@ implies cur.contains(
                (EndpointView { project: als[g].client_project, path: als[g].path, method: als[g].method }),
            ) by {
            let ep = EndpointView { project: als[g].client_project, path: als[g].path, method: als[g].method };
            if g < als.len() - 1 {
                assert(als[g] == init[g]);
                assert(prev.contains(ep));
                let t = choose|t: int| 0 <= t < prev.len() && prev[t] == ep;
                assert(cur[t] == prev[t]);
            } else {
                assert(cur[prev.len() as int] == ep);
            }
        }
    }
}

} // verus!
