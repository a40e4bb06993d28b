//! Laws of the topography map: statuses, alignments, edges, anomalies, and
//! independence from the order in which the projects are listed.
use vstd::prelude::*;
use crate::route::{EntryView, path_of, structural_id_of};
use crate::intent::ActualView;
use crate::schema::{AlignView, EdgeView, EndpointView};
use crate::align::{
    aggregate_of, priority, aligned_status, param_mismatch_status, method_mismatch_status,
    orphaned_status, alignment_status, target_of, matched_route, best_server_upto,
    lemma_best_server_bound, candidate,
};
use crate::map::{
    alignments_for, alignments_upto, alignments_of, orphans_of, edge_key, edge_keys, edge_group,
    edge_view, edges_of, find_project, ports_of, unused_in, unused_upto, unused_of, is_library,
    consumed_by_any, projects_of,
};
use crate::names::{
    by_name, names_distinct, lemma_same_items_same_order, name_less, lemma_name_less_transitive,
    lemma_name_less_irreflexive, lemma_name_less_total,
};

verus! {

/// The status of a group is one of its statuses, the first of the most urgent
/// ones; a group without statuses is `Aligned`.
pub proof fn law_aggregate_status(ss: Seq<Seq<char>>)
    ensures
        ss.len() == 0 ==> aggregate_of(ss) == aligned_status(),
        ss.len() > 0 ==> exists|i: int|
            0 <= i < ss.len() && #[trigger] ss[i] == aggregate_of(ss) && (forall|j: int|
                0 <= j < ss.len() ==> priority(aggregate_of(ss)) <= priority(#[trigger] ss[j])) && (
            forall|j: int| 0 <= j < i ==> priority(aggregate_of(ss)) < priority(#[trigger] ss[j])),
    decreases ss.len(),
{
    if ss.len() == 1 {
        assert(ss[0] == aggregate_of(ss));
    } else if ss.len() > 1 {
        let init = ss.drop_last();
        law_aggregate_status(init);
        let i = choose|i: int|
            0 <= i < init.len() && #[trigger] init[i] == aggregate_of(init) && (forall|j: int|
                0 <= j < init.len() ==> priority(aggregate_of(init)) <= priority(#[trigger] init[j])) && (
            forall|j: int| 0 <= j < i ==> priority(aggregate_of(init)) < priority(#[trigger] init[j]));
        if priority(ss.last()) < priority(aggregate_of(init)) {
            let n = ss.len() - 1;
            assert(ss[n] == aggregate_of(ss));
            assert forall|j: int| 0 <= j < ss.len() implies priority(aggregate_of(ss)) <= priority(#[trigger] ss[j]) by {
                if j < n {
                    assert(ss[j] == init[j]);
                }
            }
            assert forall|j: int| 0 <= j < n implies priority(aggregate_of(ss)) < priority(#[trigger] ss[j]) by {
                assert(ss[j] == init[j]);
            }
        } else {
            assert(ss[i] == init[i]);
            assert forall|j: int| 0 <= j < ss.len() implies priority(aggregate_of(ss)) <= priority(#[trigger] ss[j]) by {
                if j < ss.len() - 1 {
                    assert(ss[j] == init[j]);
                }
            }
            assert forall|j: int| 0 <= j < i implies priority(aggregate_of(ss)) < priority(#[trigger] ss[j]) by {
                assert(ss[j] == init[j]);
            }
        }
    }
}

/// A status an alignment can carry.
pub open spec fn known_status(st: Seq<char>) -> bool {
    ||| st == aligned_status()
    ||| st == param_mismatch_status()
    ||| st == method_mismatch_status()
    ||| st == orphaned_status()
}

/// A consumed route gets no alignment or one of the four statuses;
/// `Orphaned` only where a target is named, and no alignment only where none is.
pub proof fn law_alignment_outcome(c: EntryView, client: Seq<char>, ps: Seq<(Seq<char>, ActualView)>)
    ensures
        alignment_status(c, client, ps).len() == 0 || known_status(alignment_status(c, client, ps)),
        alignment_status(c, client, ps) == orphaned_status() ==> target_of(c).len() > 0,
        alignment_status(c, client, ps).len() == 0 ==> target_of(c).len() == 0,
{
    reveal_strlit("Aligned");
    reveal_strlit("ParamNameMismatch");
    reveal_strlit("MethodMismatch");
    reveal_strlit("Orphaned");
    assert(aligned_status().len() == 7);
    assert(param_mismatch_status().len() == 17);
    assert(method_mismatch_status().len() == 14);
    assert(orphaned_status().len() == 8);
}

/// A recorded alignment: one of the four statuses, and no warning.
pub open spec fn alignment_well_formed(a: AlignView) -> bool {
    known_status(a.status) && a.warning is None
}

/// The alignments of some consumed routes are well formed.
proof fn lemma_alignments_for_outcome(client: Seq<char>, cs: Seq<EntryView>, ps: Seq<(Seq<char>, ActualView)>)
    ensures
        forall|i: int|
            0 <= i < alignments_for(client, cs, ps).len() ==> alignment_well_formed(
                #[trigger] alignments_for(client, cs, ps)[i],
            ),
    decreases cs.len(),
{
    if cs.len() > 0 {
        lemma_alignments_for_outcome(client, cs.drop_last(), ps);
        law_alignment_outcome(cs.last(), client, ps);
        let rest = alignments_for(client, cs.drop_last(), ps);
        let all = alignments_for(client, cs, ps);
        assert forall|i: int| 0 <= i < all.len() implies alignment_well_formed(#[trigger] all[i]) by {
            if i < rest.len() {
                assert(all[i] == rest[i]);
            }
        }
    }
}

/// The alignments of the first `n` projects are well formed.
proof fn lemma_alignments_upto_well_formed(ps: Seq<(Seq<char>, ActualView)>, n: int)
    ensures
        forall|i: int|
            0 <= i < alignments_upto(ps, n).len() ==> alignment_well_formed(#[trigger] alignments_upto(ps, n)[i]),
    decreases n,
{
    if 0 < n <= ps.len() {
        lemma_alignments_upto_well_formed(ps, n - 1);
        lemma_alignments_for_outcome(ps[n - 1].0, ps[n - 1].1.consumed, ps);
        let a = alignments_upto(ps, n - 1);
        let b = alignments_for(ps[n - 1].0, ps[n - 1].1.consumed, ps);
        assert forall|i: int| 0 <= i < (a + b).len() implies alignment_well_formed(#[trigger] (a + b)[i]) by {
            if i < a.len() {
                assert((a + b)[i] == a[i]);
            } else {
                assert((a + b)[i] == b[i - a.len()]);
            }
        }
    }
}

/// Every alignment of the map carries one of the four statuses
/// (`Aligned`, `MethodMismatch`, `ParamNameMismatch`, `Orphaned`) and no warning.
pub proof fn law_alignments_well_formed(ps: Seq<(Seq<char>, ActualView)>)
    ensures
        forall|i: int|
            0 <= i < alignments_of(ps).len() ==> alignment_well_formed(#[trigger] alignments_of(ps)[i]),
{
    lemma_alignments_upto_well_formed(ps, ps.len() as int);
}

/// The alignment ended orphaned, and the endpoint is its client end.
pub open spec fn orphan_source(a: AlignView, ep: EndpointView) -> bool {
    a.status == orphaned_status() && a.client_project == ep.project && a.path == ep.path && a.method == ep.method
}

/// Some alignment ended orphaned and has the endpoint as its client end.
pub open spec fn has_orphan_source(als: Seq<AlignView>, ep: EndpointView) -> bool {
    exists|i: int| 0 <= i < als.len() && #[trigger] orphan_source(als[i], ep)
}

/// Each orphaned consumer is the client end of an alignment that ended
/// orphaned, and there are no more of them than alignments.
pub proof fn law_orphans_come_from_alignments(als: Seq<AlignView>)
    ensures
        orphans_of(als).len() <= als.len(),
        forall|k: int|
            0 <= k < orphans_of(als).len() ==> has_orphan_source(als, #[trigger] orphans_of(als)[k]),
    decreases als.len(),
{
    if als.len() > 0 {
        let init = als.drop_last();
        law_orphans_come_from_alignments(init);
        assert forall|k: int| 0 <= k < orphans_of(als).len() implies has_orphan_source(
            als,
            #[trigger] orphans_of(als)[k],
        ) by {
            if k < orphans_of(init).len() {
                assert(orphans_of(als)[k] == orphans_of(init)[k]);
                assert(has_orphan_source(init, orphans_of(init)[k]));
                let i = choose|i: int|
                    0 <= i < init.len() && #[trigger] orphan_source(init[i], orphans_of(init)[k]);
                assert(als[i] == init[i]);
                assert(orphan_source(als[i], orphans_of(als)[k]));
            } else {
                assert(orphan_source(als[als.len() - 1], orphans_of(als)[k]));
            }
        }
    }
}

/// The sum of the call counts of the edges.
pub open spec fn total_calls(es: Seq<EdgeView>) -> int
    decreases es.len(),
{
    if es.len() == 0 {
        0
    } else {
        total_calls(es.drop_last()) + es.last().call_count
    }
}

/// The sum of the group sizes of the given pairs.
spec fn sum_groups(als: Seq<AlignView>, ks: Seq<(Seq<char>, Seq<char>)>) -> int
    decreases ks.len(),
{
    if ks.len() == 0 {
        0
    } else {
        sum_groups(als, ks.drop_last()) + edge_group(als, ks.last()).len()
    }
}

/// How often the pair occurs in the list.
spec fn occurrences(ks: Seq<(Seq<char>, Seq<char>)>, k: (Seq<char>, Seq<char>)) -> int
    decreases ks.len(),
{
    if ks.len() == 0 {
        0
    } else {
        occurrences(ks.drop_last(), k) + if ks.last() == k { 1int } else { 0int }
    }
}

/// The pairs of `edge_keys` are distinct and are exactly the pairs of the alignments.
proof fn lemma_edge_keys(als: Seq<AlignView>)
    ensures
        edge_keys(als).no_duplicates(),
        forall|i: int| 0 <= i < als.len() ==> edge_keys(als).contains(edge_key(#[trigger] als[i])),
        forall|k: (Seq<char>, Seq<char>)|
            #[trigger] edge_keys(als).contains(k) ==> exists|i: int| 0 <= i < als.len() && edge_key(als[i]) == k,
    decreases als.len(),
{
    if als.len() > 0 {
        let init = als.drop_last();
        lemma_edge_keys(init);
        let ks = edge_keys(init);
        assert forall|i: int| 0 <= i < als.len() implies edge_keys(als).contains(edge_key(#[trigger] als[i])) by {
            if i < init.len() {
                assert(init[i] == als[i]);
                assert(ks.contains(edge_key(init[i])));
                let j = choose|j: int| 0 <= j < ks.len() && ks[j] == edge_key(init[i]);
                assert(edge_keys(als)[j] == ks[j]);
            } else if !ks.contains(edge_key(als.last())) {
                assert(edge_keys(als)[ks.len() as int] == edge_key(als.last()));
            }
        }
        assert forall|k: (Seq<char>, Seq<char>)| #[trigger] edge_keys(als).contains(k) implies exists|i: int|
            0 <= i < als.len() && edge_key(als[i]) == k by {
            let j = choose|j: int| 0 <= j < edge_keys(als).len() && edge_keys(als)[j] == k;
            if j < ks.len() {
                assert(ks[j] == k);
                assert(ks.contains(k));
                let i = choose|i: int| 0 <= i < init.len() && edge_key(init[i]) == k;
                assert(als[i] == init[i]);
            } else {
                assert(edge_key(als[als.len() - 1]) == k);
            }
        }
    }
}

/// A pair that occurs once in a list counts once.
proof fn lemma_occurrences_distinct(ks: Seq<(Seq<char>, Seq<char>)>, k: (Seq<char>, Seq<char>))
    requires
        ks.no_duplicates(),
    ensures
        occurrences(ks, k) == if ks.contains(k) { 1int } else { 0int },
    decreases ks.len(),
{
    if ks.len() > 0 {
        let init = ks.drop_last();
        assert(init.no_duplicates());
        lemma_occurrences_distinct(init, k);
        if ks.last() == k {
            if init.contains(k) {
                let j = choose|j: int| 0 <= j < init.len() && init[j] == k;
                assert(ks[j] == ks[ks.len() - 1]);
            }
        } else {
            if ks.contains(k) {
                let j = choose|j: int| 0 <= j < ks.len() && ks[j] == k;
                assert(init[j] == k);
            }
            if init.contains(k) {
                let j = choose|j: int| 0 <= j < init.len() && init[j] == k;
                assert(ks[j] == k);
            }
        }
    }
}

/// Adding one alignment adds one to the group of each listed pair equal to its own.
proof fn lemma_sum_groups_step(als: Seq<AlignView>, ks: Seq<(Seq<char>, Seq<char>)>)
    requires
        als.len() > 0,
    ensures
        sum_groups(als, ks) == sum_groups(als.drop_last(), ks) + occurrences(ks, edge_key(als.last())),
    decreases ks.len(),
{
    if ks.len() > 0 {
        lemma_sum_groups_step(als, ks.drop_last());
        reveal_with_fuel(Seq::filter, 1);
    }
}

/// Listing each pair of the alignments once accounts for every alignment once.
proof fn lemma_sum_groups(als: Seq<AlignView>, ks: Seq<(Seq<char>, Seq<char>)>)
    requires
        ks.no_duplicates(),
        forall|i: int| 0 <= i < als.len() ==> ks.contains(edge_key(#[trigger] als[i])),
    ensures
        sum_groups(als, ks) == als.len(),
    decreases als.len(),
{
    if als.len() == 0 {
        lemma_sum_groups_empty(als, ks);
    } else {
        let init = als.drop_last();
        assert forall|i: int| 0 <= i < init.len() implies ks.contains(edge_key(#[trigger] init[i])) by {
            assert(init[i] == als[i]);
        }
        lemma_sum_groups(init, ks);
        lemma_sum_groups_step(als, ks);
        assert(als[als.len() - 1] == als.last());
        lemma_occurrences_distinct(ks, edge_key(als.last()));
    }
}

/// No alignment, no group member.
proof fn lemma_sum_groups_empty(als: Seq<AlignView>, ks: Seq<(Seq<char>, Seq<char>)>)
    requires
        als.len() == 0,
    ensures
        sum_groups(als, ks) == 0,
    decreases ks.len(),
{
    if ks.len() > 0 {
        lemma_sum_groups_empty(als, ks.drop_last());
        reveal_with_fuel(Seq::filter, 1);
    }
}

/// The call counts of the edges are the sizes of their groups.
proof fn lemma_total_calls(ps: Seq<(Seq<char>, ActualView)>, als: Seq<AlignView>, ks: Seq<(Seq<char>, Seq<char>)>)
    ensures
        total_calls(ks.map_values(|k: (Seq<char>, Seq<char>)| edge_view(ps, k, edge_group(als, k))))
            == sum_groups(als, ks),
    decreases ks.len(),
{
    if ks.len() > 0 {
        lemma_total_calls(ps, als, ks.drop_last());
        assert(ks.map_values(|k: (Seq<char>, Seq<char>)| edge_view(ps, k, edge_group(als, k))).drop_last()
            =~= ks.drop_last().map_values(|k: (Seq<char>, Seq<char>)| edge_view(ps, k, edge_group(als, k))));
    }
}

/// A group has at least as many alignments as ports.
proof fn lemma_ports_len(cons: Seq<EntryView>, exps: Seq<EntryView>, group: Seq<AlignView>)
    ensures
        ports_of(cons, exps, group).len() <= group.len(),
    decreases group.len(),
{
    if group.len() > 0 {
        lemma_ports_len(cons, exps, group.drop_last());
    }
}

/// The edges account for every alignment exactly once: their call counts add
/// up to the number of alignments, no pair of projects has two edges, and each
/// edge has at least one call, one label per call and no more ports than calls.
pub proof fn law_edges_account_for_alignments(ps: Seq<(Seq<char>, ActualView)>, als: Seq<AlignView>)
    ensures
        total_calls(edges_of(ps, als)) == als.len(),
        forall|i: int, j: int|
            0 <= i < j < edges_of(ps, als).len() ==> (#[trigger] edges_of(ps, als)[i]).client_project
                != (#[trigger] edges_of(ps, als)[j]).client_project || edges_of(ps, als)[i].server_project
                != edges_of(ps, als)[j].server_project,
        forall|i: int|
            0 <= i < edges_of(ps, als).len() ==> {
                &&& (#[trigger] edges_of(ps, als)[i]).call_count >= 1
                &&& edges_of(ps, als)[i].call_count == edges_of(ps, als)[i].paths.len()
                &&& edges_of(ps, als)[i].ports.len() <= edges_of(ps, als)[i].call_count
            },
{
    let ks = edge_keys(als);
    lemma_edge_keys(als);
    lemma_total_calls(ps, als, ks);
    lemma_sum_groups(als, ks);
    let es = edges_of(ps, als);
    assert forall|i: int, j: int| 0 <= i < j < es.len() implies (#[trigger] es[i]).client_project
        != (#[trigger] es[j]).client_project || es[i].server_project != es[j].server_project by {
        assert(ks[i] != ks[j]);
    }
    assert forall|i: int| 0 <= i < es.len() implies {
        &&& (#[trigger] es[i]).call_count >= 1
        &&& es[i].call_count == es[i].paths.len()
        &&& es[i].ports.len() <= es[i].call_count
    } by {
        let k = ks[i];
        assert(ks.contains(k));
        let m = choose|m: int| 0 <= m < als.len() && edge_key(als[m]) == k;
        als.lemma_filter_contains(|a: AlignView| edge_key(a) == k, m);
        let g = edge_group(als, k);
        match (find_project(ps, k.0), find_project(ps, k.1)) {
            (Some(ci), Some(si)) => lemma_ports_len(ps[ci].1.consumed, ps[si].1.exposed, g),
            _ => {},
        }
    }
}

/// The endpoint of an exposed route of a project.
pub open spec fn endpoint_of(name: Seq<char>, e: EntryView) -> EndpointView {
    EndpointView { project: name, path: path_of(e.segments), method: e.method }
}

/// The exposed route is one of a non-library project that no alignment calls.
pub open spec fn never_reached(ps: Seq<(Seq<char>, ActualView)>, als: Seq<AlignView>, i: int, k: int) -> bool {
    &&& 0 <= i < ps.len()
    &&& 0 <= k < ps[i].1.exposed.len()
    &&& !is_library(ps[i].1)
    &&& !consumed_by_any(als, ps[i].0, path_of(ps[i].1.exposed[k].segments), ps[i].1.exposed[k].method)
}

/// The endpoint is that of an unreached exposed route.
pub open spec fn unused_source(ps: Seq<(Seq<char>, ActualView)>, als: Seq<AlignView>, ep: EndpointView) -> bool {
    exists|i: int, k: int| #[trigger] never_reached(ps, als, i, k) && ep == endpoint_of(ps[i].0, ps[i].1.exposed[k])
}

/// The unused routes of one project are its unreached exposed routes.
proof fn lemma_unused_in(ps: Seq<(Seq<char>, ActualView)>, als: Seq<AlignView>, i: int, n: int)
    requires
        0 <= i < ps.len(),
        !is_library(ps[i].1),
        0 <= n <= ps[i].1.exposed.len(),
    ensures
        forall|m: int|
            0 <= m < unused_in(ps[i].0, ps[i].1.exposed.take(n), als).len() ==> unused_source(
                ps,
                als,
                #[trigger] unused_in(ps[i].0, ps[i].1.exposed.take(n), als)[m],
            ),
        forall|k: int|
            0 <= k < n && #[trigger] never_reached(ps, als, i, k) ==> unused_in(ps[i].0, ps[i].1.exposed.take(n), als).contains(
                endpoint_of(ps[i].0, ps[i].1.exposed[k]),
            ),
    decreases n,
{
    let es = ps[i].1.exposed;
    let name = ps[i].0;
    if n > 0 {
        lemma_unused_in(ps, als, i, n - 1);
        assert(es.take(n).drop_last() =~= es.take(n - 1));
        assert(es.take(n).last() == es[n - 1]);
        let prev = unused_in(name, es.take(n - 1), als);
        let cur = unused_in(name, es.take(n), als);
        assert forall|m: int| 0 <= m < cur.len() implies unused_source(ps, als, #[trigger] cur[m]) by {
            if m < prev.len() {
                assert(cur[m] == prev[m]);
            } else {
                assert(never_reached(ps, als, i, n - 1));
            }
        }
        assert forall|k: int| 0 <= k < n && #[trigger] never_reached(ps, als, i, k) implies cur.contains(
            endpoint_of(name, es[k]),
        ) by {
            if k < n - 1 {
                let j = choose|j: int| 0 <= j < prev.len() && prev[j] == endpoint_of(name, es[k]);
                assert(cur[j] == prev[j]);
            } else {
                assert(cur[prev.len() as int] == endpoint_of(name, es[k]));
            }
        }
    } else {
        assert(es.take(0).len() == 0);
    }
}

/// The unused routes of the first `n` projects are their unreached exposed routes.
proof fn lemma_unused_upto(ps: Seq<(Seq<char>, ActualView)>, als: Seq<AlignView>, n: int)
    requires
        0 <= n <= ps.len(),
    ensures
        forall|m: int|
            0 <= m < unused_upto(ps, n, als).len() ==> unused_source(ps, als, #[trigger] unused_upto(ps, n, als)[m]),
        forall|i: int, k: int|
            0 <= i < n && #[trigger] never_reached(ps, als, i, k) ==> unused_upto(ps, n, als).contains(
                endpoint_of(ps[i].0, ps[i].1.exposed[k]),
            ),
    decreases n,
{
    if n > 0 {
        lemma_unused_upto(ps, als, n - 1);
        let prev = unused_upto(ps, n - 1, als);
        let cur = unused_upto(ps, n, als);
        let j = n - 1;
        if !is_library(ps[j].1) {
            let es = ps[j].1.exposed;
            lemma_unused_in(ps, als, j, es.len() as int);
            assert(es.take(es.len() as int) =~= es);
            let more = unused_in(ps[j].0, es, als);
            assert(cur == prev + more);
            assert forall|m: int| 0 <= m < cur.len() implies unused_source(ps, als, #[trigger] cur[m]) by {
                if m < prev.len() {
                    assert(cur[m] == prev[m]);
                } else {
                    assert(cur[m] == more[m - prev.len()]);
                }
            }
            assert forall|i: int, k: int| 0 <= i < n && #[trigger] never_reached(ps, als, i, k) implies cur.contains(
                endpoint_of(ps[i].0, ps[i].1.exposed[k]),
            ) by {
                if i < j {
                    let t = choose|t: int| 0 <= t < prev.len() && prev[t] == endpoint_of(ps[i].0, ps[i].1.exposed[k]);
                    assert(cur[t] == prev[t]);
                } else {
                    assert(more.contains(endpoint_of(ps[i].0, ps[i].1.exposed[k])));
                    let t = choose|t: int| 0 <= t < more.len() && more[t] == endpoint_of(ps[i].0, ps[i].1.exposed[k]);
                    assert(cur[prev.len() + t] == more[t]);
                }
            }
        }
    }
}

/// The unused endpoints are exactly the exposed routes of non-library projects
/// that no alignment calls (no alignment other than an orphaned one recorded
/// against that project with the same rendered path and method): each listed
/// endpoint is such a route, and each such route is listed.
pub proof fn law_unused_endpoints(ps: Seq<(Seq<char>, ActualView)>, als: Seq<AlignView>)
    ensures
        forall|m: int| 0 <= m < unused_of(ps, als).len() ==> unused_source(ps, als, #[trigger] unused_of(ps, als)[m]),
        forall|i: int, k: int|
            #[trigger] never_reached(ps, als, i, k) ==> unused_of(ps, als).contains(endpoint_of(ps[i].0, ps[i].1.exposed[k])),
{
    lemma_unused_upto(ps, als, ps.len() as int);
}

/// Two listings of the same projects (each name once, the same name/facts
/// pairs) give the same map: the same project nodes, alignments, edges,
/// unused endpoints and orphaned consumers, in the same order.
pub proof fn law_map_independent_of_listing_order(
    ps1: Seq<(Seq<char>, ActualView)>,
    ps2: Seq<(Seq<char>, ActualView)>,
    scan: Map<Seq<char>, Seq<char>>,
    paths: Map<Seq<char>, Seq<char>>,
)
    requires
        names_distinct(ps1),
        names_distinct(ps2),
        forall|y: (Seq<char>, ActualView)| #[trigger] ps1.contains(y) <==> ps2.contains(y),
    ensures
        by_name(ps1) == by_name(ps2),
        projects_of(by_name(ps1), scan, paths) == projects_of(by_name(ps2), scan, paths),
        alignments_of(by_name(ps1)) == alignments_of(by_name(ps2)),
        edges_of(by_name(ps1), alignments_of(by_name(ps1))) == edges_of(by_name(ps2), alignments_of(by_name(ps2))),
        unused_of(by_name(ps1), alignments_of(by_name(ps1))) == unused_of(
            by_name(ps2),
            alignments_of(by_name(ps2)),
        ),
        orphans_of(alignments_of(by_name(ps1))) == orphans_of(alignments_of(by_name(ps2))),
{
    lemma_same_items_same_order(ps1, ps2);
}

/// More alignments never add unused endpoints: where every alignment of the
/// first list is in the second, every endpoint reported unused with the second
/// is reported unused with the first. No endpoint reported unused names a
/// library project, where project names are distinct.
pub proof fn law_more_alignments_no_more_unused(
    ps: Seq<(Seq<char>, ActualView)>,
    als1: Seq<AlignView>,
    als2: Seq<AlignView>,
)
    requires
        forall|i: int| 0 <= i < als1.len() ==> als2.contains(#[trigger] als1[i]),
    ensures
        forall|m: int| 0 <= m < unused_of(ps, als2).len() ==> unused_of(ps, als1).contains(
            #[trigger] unused_of(ps, als2)[m],
        ),
        names_distinct(ps) ==> forall|m: int, j: int|
            0 <= m < unused_of(ps, als2).len() && 0 <= j < ps.len() && is_library(#[trigger] ps[j].1)
                ==> ps[j].0 != (#[trigger] unused_of(ps, als2)[m]).project,
{
    law_unused_endpoints(ps, als1);
    law_unused_endpoints(ps, als2);
    assert forall|m: int| 0 <= m < unused_of(ps, als2).len() implies unused_of(ps, als1).contains(
        #[trigger] unused_of(ps, als2)[m],
    ) by {
        let ep = unused_of(ps, als2)[m];
        assert(unused_source(ps, als2, ep));
        let (i, k) = choose|i: int, k: int| #[trigger] never_reached(ps, als2, i, k) && ep == endpoint_of(ps[i].0, ps[i].1.exposed[k]);
        let e = ps[i].1.exposed[k];
        if consumed_by_any(als1, ps[i].0, path_of(e.segments), e.method) {
            let t = choose|t: int|
                0 <= t < als1.len() && #[trigger] als1[t].server_project == ps[i].0 && als1[t].path == path_of(e.segments)
                    && als1[t].method == e.method && als1[t].status != orphaned_status();
            assert(als2.contains(als1[t]));
            let u = choose|u: int| 0 <= u < als2.len() && als2[u] == als1[t];
            assert(als2[u].server_project == ps[i].0);
        }
        assert(never_reached(ps, als1, i, k));
    }
    if names_distinct(ps) {
        assert forall|m: int, j: int|
            0 <= m < unused_of(ps, als2).len() && 0 <= j < ps.len() && is_library(#[trigger] ps[j].1)
                implies ps[j].0 != (#[trigger] unused_of(ps, als2)[m]).project by {
            let ep = unused_of(ps, als2)[m];
            assert(unused_source(ps, als2, ep));
            let (i, k) = choose|i: int, k: int| #[trigger] never_reached(ps, als2, i, k) && ep == endpoint_of(ps[i].0, ps[i].1.exposed[k]);
            if i != j {
                if i < j {
                    assert(ps[i].0 != ps[j].0);
                } else {
                    assert(ps[j].0 != ps[i].0);
                }
            }
        }
    }
}

/// The match search finds a candidate exactly where there is one, and the one
/// it finds has a name no other candidate's name comes before.
pub(crate) proof fn lemma_best_server_least(
    ps: Seq<(Seq<char>, ActualView)>,
    client: Seq<char>,
    target: Seq<char>,
    id: Seq<char>,
    n: int,
)
    requires
        0 <= n <= ps.len(),
    ensures
        best_server_upto(ps, client, target, id, n) is None <==> forall|k: int|
            0 <= k < n ==> !candidate(#[trigger] ps[k], client, target, id),
        best_server_upto(ps, client, target, id, n) matches Some(m) ==> forall|k: int|
            0 <= k < n && candidate(#[trigger] ps[k], client, target, id) ==> !name_less(ps[k].0, ps[m.0].0),
    decreases n,
{
    if n > 0 {
        lemma_best_server_least(ps, client, target, id, n - 1);
        lemma_best_server_bound(ps, client, target, id, n - 1);
        let prev = best_server_upto(ps, client, target, id, n - 1);
        let k0 = n - 1;
        if candidate(ps[k0], client, target, id) {
            match prev {
                Some(p) => {
                    if name_less(ps[k0].0, ps[p.0].0) {
                        assert forall|k: int| 0 <= k < n && candidate(#[trigger] ps[k], client, target, id) implies !name_less(
                            ps[k].0,
                            ps[k0].0,
                        ) by {
                            if k < k0 && name_less(ps[k].0, ps[k0].0) {
                                lemma_name_less_transitive(ps[k].0, ps[k0].0, ps[p.0].0);
                            }
                            if k == k0 {
                                lemma_name_less_irreflexive(ps[k0].0);
                            }
                        }
                    }
                },
                None => {
                    lemma_name_less_irreflexive(ps[k0].0);
                },
            }
        }
    }
}

/// Two listings with the same projects (each name once) match a consumed
/// route against the same server route and give it the same status: which
/// project comes first does not matter.
pub proof fn law_match_independent_of_listing_order(
    c: EntryView,
    client: Seq<char>,
    ps1: Seq<(Seq<char>, ActualView)>,
    ps2: Seq<(Seq<char>, ActualView)>,
)
    requires
        names_distinct(ps1),
        names_distinct(ps2),
        forall|y: (Seq<char>, ActualView)| #[trigger] ps1.contains(y) <==> ps2.contains(y),
    ensures
        matched_route(c, client, ps1) is None <==> matched_route(c, client, ps2) is None,
        matched_route(c, client, ps1) matches Some(m1) ==> (matched_route(c, client, ps2) matches Some(m2)
            && ps1[m1.0] == ps2[m2.0] && m1.1 == m2.1),
        alignment_status(c, client, ps1) == alignment_status(c, client, ps2),
{
    let target = target_of(c);
    let id = structural_id_of(c.segments);
    lemma_best_server_least(ps1, client, target, id, ps1.len() as int);
    lemma_best_server_least(ps2, client, target, id, ps2.len() as int);
    lemma_best_server_bound(ps1, client, target, id, ps1.len() as int);
    lemma_best_server_bound(ps2, client, target, id, ps2.len() as int);
    let r1 = matched_route(c, client, ps1);
    let r2 = matched_route(c, client, ps2);
    if r1 is None && r2 is Some {
        let m2 = r2->0;
        assert(ps2.contains(ps2[m2.0]));
        assert(ps1.contains(ps2[m2.0]));
        let k = choose|k: int| 0 <= k < ps1.len() && ps1[k] == ps2[m2.0];
        assert(candidate(ps1[k], client, target, id));
    }
    if r2 is None && r1 is Some {
        let m1 = r1->0;
        assert(ps1.contains(ps1[m1.0]));
        assert(ps2.contains(ps1[m1.0]));
        let k = choose|k: int| 0 <= k < ps2.len() && ps2[k] == ps1[m1.0];
        assert(candidate(ps2[k], client, target, id));
    }
    if r1 is Some && r2 is Some {
        let m1 = r1->0;
        let m2 = r2->0;
        assert(ps1.contains(ps1[m1.0]));
        assert(ps2.contains(ps1[m1.0]));
        let k2 = choose|k: int| 0 <= k < ps2.len() && ps2[k] == ps1[m1.0];
        assert(candidate(ps2[k2], client, target, id));
        assert(ps2.contains(ps2[m2.0]));
        assert(ps1.contains(ps2[m2.0]));
        let k1 = choose|k: int| 0 <= k < ps1.len() && ps1[k] == ps2[m2.0];
        assert(candidate(ps1[k1], client, target, id));
        assert(!name_less(ps2[k2].0, ps2[m2.0].0));
        assert(!name_less(ps1[k1].0, ps1[m1.0].0));
        if ps2[k2].0 != ps2[m2.0].0 {
            lemma_name_less_total(ps2[k2].0, ps2[m2.0].0);
        }
        if k2 != m2.0 {
            if k2 < m2.0 {
                assert(ps2[k2].0 != ps2[m2.0].0);
            } else {
                assert(ps2[m2.0].0 != ps2[k2].0);
            }
        }
        assert(ps1[m1.0] == ps2[m2.0]);
    }
}

} // verus!
