//! Aligning a consumed route with the routes that servers expose, and the
//! statuses that alignments carry.
use vstd::prelude::*;
use crate::route::{RouteEntry, EntryView, structural_id_of, entries_view};
use crate::diff::{compare_routes, DiffResult, DiffView, diff_of};
use crate::intent::{ActualJson, ActualView};
use crate::schema::walk_view;
use crate::names::{name_less, name_before};

verus! {

/// The status of an alignment whose routes agree.
pub open spec fn aligned_status() -> Seq<char> {
    "Aligned"@
}

/// The status of an alignment whose methods differ.
pub open spec fn method_mismatch_status() -> Seq<char> {
    "MethodMismatch"@
}

/// The status of an alignment whose parameter names differ.
pub open spec fn param_mismatch_status() -> Seq<char> {
    "ParamNameMismatch"@
}

/// The status of a consumed route whose named target exposes no such route.
pub open spec fn orphaned_status() -> Seq<char> {
    "Orphaned"@
}

/// How urgent a status is: lower is more urgent.
pub open spec fn priority(s: Seq<char>) -> int {
    if s == method_mismatch_status() {
        0
    } else if s == orphaned_status() {
        1
    } else if s == param_mismatch_status() {
        2
    } else if s == aligned_status() {
        3
    } else {
        4
    }
}

/// The status of a group of alignments: the first of the most urgent ones, or
/// `Aligned` for no alignment at all.
pub open spec fn aggregate_of(ss: Seq<Seq<char>>) -> Seq<char>
    decreases ss.len(),
{
    if ss.len() == 0 {
        aligned_status()
    } else if ss.len() == 1 {
        ss[0]
    } else {
        let best = aggregate_of(ss.drop_last());
        if priority(ss.last()) < priority(best) {
            ss.last()
        } else {
            best
        }
    }
}

/// The urgency of a status, computed.
fn status_priority(s: &String) -> (p: usize)
    ensures
        p == priority(s@),
{
    if *s == "MethodMismatch".to_owned() {
        0
    } else if *s == "Orphaned".to_owned() {
        1
    } else if *s == "ParamNameMismatch".to_owned() {
        2
    } else if *s == "Aligned".to_owned() {
        3
    } else {
        4
    }
}

/// The status of a group of alignments: the first of its most urgent statuses
/// (MethodMismatch, then Orphaned, then ParamNameMismatch, then Aligned, then any
/// other), or `Aligned` where there is none.
pub fn aggregate_status(statuses: &[String]) -> (s: String)
    ensures
        s@ == aggregate_of(statuses@.map_values(|t: String| t@)),
{
    let ghost ss = statuses@.map_values(|t: String| t@);
    if statuses.len() == 0 {
        return "Aligned".to_owned();
    }
    let mut best: usize = 0;
    let mut best_p = status_priority(&statuses[0]);
    let mut i: usize = 1;
    assert(ss.take(1).len() == 1);
    while i < statuses.len()
        invariant
            1 <= i <= statuses@.len(),
            best < i,
            ss == statuses@.map_values(|t: String| t@),
            best_p == priority(ss[best as int]),
            ss[best as int] == aggregate_of(ss.take(i as int)),
        decreases statuses@.len() - i,
    {
        let p = status_priority(&statuses[i]);
        assert(ss.take(i + 1).drop_last() =~= ss.take(i as int));
        if p < best_p {
            best = i;
            best_p = p;
        }
        i = i + 1;
    }
    assert(ss.take(i as int) =~= ss);
    statuses[best].clone()
}

/// The first position at or after `k` of a route with the given structural identity.
pub open spec fn first_with_id_from(es: Seq<EntryView>, id: Seq<char>, k: int) -> Option<int>
    decreases es.len() - k,
{
    if k < 0 || k >= es.len() {
        None
    } else if structural_id_of(es[k].segments) == id {
        Some(k)
    } else {
        first_with_id_from(es, id, k + 1)
    }
}

/// The first position of a route with the given structural identity.
pub open spec fn first_with_id(es: Seq<EntryView>, id: Seq<char>) -> Option<int> {
    first_with_id_from(es, id, 0)
}

/// A project may serve a consumed route of `client` aimed at `target` (empty
/// for no named target): it is another project, and the named one if any.
pub open spec fn may_serve(name: Seq<char>, client: Seq<char>, target: Seq<char>) -> bool {
    name != client && (target.len() == 0 || target == name)
}

/// A project that may serve the consumed route and exposes a route of its structure.
pub open spec fn candidate(p: (Seq<char>, ActualView), client: Seq<char>, target: Seq<char>, id: Seq<char>) -> bool {
    may_serve(p.0, client, target) && first_with_id(p.1.exposed, id) is Some
}

/// Among the first `n` projects, the candidate with the least name (the
/// earlier one where names are equal): its position and the position of its
/// first route of the structure.
pub open spec fn best_server_upto(
    ps: Seq<(Seq<char>, ActualView)>,
    client: Seq<char>,
    target: Seq<char>,
    id: Seq<char>,
    n: int,
) -> Option<(int, int)>
    decreases n,
{
    if n <= 0 || n > ps.len() {
        None
    } else {
        let prev = best_server_upto(ps, client, target, id, n - 1);
        let k = n - 1;
        if candidate(ps[k], client, target, id) {
            let here = Some((k, first_with_id(ps[k].1.exposed, id)->0));
            match prev {
                Some(p) => if name_less(ps[k].0, ps[p.0].0) {
                    here
                } else {
                    prev
                },
                None => here,
            }
        } else {
            prev
        }
    }
}

/// The named target of a consumed route, or the empty text.
pub open spec fn target_of(c: EntryView) -> Seq<char> {
    match c.target_project {
        Some(t) => t,
        None => Seq::empty(),
    }
}

/// The server route a consumed route of `client` is matched against: the
/// first route of its structure exposed by the candidate project with the
/// least name. Which project comes first in the listing does not matter.
pub open spec fn matched_route(c: EntryView, client: Seq<char>, ps: Seq<(Seq<char>, ActualView)>) -> Option<(int, int)> {
    best_server_upto(ps, client, target_of(c), structural_id_of(c.segments), ps.len() as int)
}

/// The status that a difference between consumer and server route gives.
pub open spec fn diff_status(d: DiffView) -> Seq<char> {
    match d {
        DiffView::MethodChanged { .. } => method_mismatch_status(),
        DiffView::ParamNamesChanged { .. } => param_mismatch_status(),
        _ => aligned_status(),
    }
}

/// The status of a consumed route of `client`: the comparison with the route
/// it is matched against; else `Orphaned` where a target is named, and the
/// empty status (no alignment) where none is.
pub open spec fn alignment_status(c: EntryView, client: Seq<char>, ps: Seq<(Seq<char>, ActualView)>) -> Seq<char> {
    match matched_route(c, client, ps) {
        Some(m) => diff_status(diff_of(c, ps[m.0].1.exposed[m.1])),
        None => if target_of(c).len() == 0 {
            Seq::empty()
        } else {
            orphaned_status()
        },
    }
}

/// A search from `k` finds nothing before `k`.
proof fn lemma_first_with_id_from_bound(es: Seq<EntryView>, id: Seq<char>, k: int)
    requires
        0 <= k,
    ensures
        first_with_id_from(es, id, k) matches Some(j) ==> k <= j < es.len()
            && structural_id_of(es[j].segments) == id,
    decreases es.len() - k,
{
    if k < es.len() && structural_id_of(es[k].segments) != id {
        lemma_first_with_id_from_bound(es, id, k + 1);
    }
}

/// A match found among the first `n` projects is a candidate among them, with
/// a route of the structure.
pub proof fn lemma_best_server_bound(
    ps: Seq<(Seq<char>, ActualView)>,
    client: Seq<char>,
    target: Seq<char>,
    id: Seq<char>,
    n: int,
)
    ensures
        best_server_upto(ps, client, target, id, n) matches Some(m) ==> 0 <= m.0 < n && m.0 < ps.len()
            && candidate(ps[m.0], client, target, id) && 0 <= m.1 < ps[m.0].1.exposed.len()
            && structural_id_of(ps[m.0].1.exposed[m.1].segments) == id
            && first_with_id(ps[m.0].1.exposed, id) == Some(m.1),
    decreases n,
{
    if 0 < n <= ps.len() {
        lemma_best_server_bound(ps, client, target, id, n - 1);
        lemma_first_with_id_from_bound(ps[n - 1].1.exposed, id, 0);
    }
}

/// The position of the first route with the given structural identity.
fn find_route_with_id(es: &Vec<RouteEntry>, id: &String) -> (r: Option<usize>)
    ensures
        r matches Some(j) ==> j < es@.len() && first_with_id(entries_view(es@), id@)
            == Some(j as int),
        r is None ==> first_with_id(entries_view(es@), id@) is None,
{
    let ghost ev = entries_view(es@);
    let mut k: usize = 0;
    while k < es.len()
        invariant
            k <= es@.len(),
            ev == entries_view(es@),
            first_with_id(ev, id@) == first_with_id_from(ev, id@, k as int),
        decreases es@.len() - k,
    {
        proof {
            lemma_first_with_id_from_bound(ev, id@, k as int);
        }
        if es[k].structural_id() == *id {
            return Some(k);
        }
        k = k + 1;
    }
    None
}

/// The positions of the server project and route that a consumed route of
/// `client_name` is matched against, if any.
pub fn find_server_route(
    consumed: &RouteEntry,
    client_name: &str,
    projects: &Vec<(String, ActualJson)>,
) -> (r: Option<(usize, usize)>)
    ensures
        r matches Some(m) ==> matched_route(consumed@, client_name@, walk_view(projects@)) == Some(
            (m.0 as int, m.1 as int),
        ),
        r is None ==> matched_route(consumed@, client_name@, walk_view(projects@)) is None,
{
    let ghost ps = walk_view(projects@);
    let target = match &consumed.target_project {
        Some(t) => t.clone(),
        None => String::new(),
    };
    let client = client_name.to_owned();
    let id = consumed.structural_id();
    let ghost id_v = structural_id_of(consumed@.segments);
    let mut best: Option<(usize, usize)> = None;
    let mut k: usize = 0;
    while k < projects.len()
        invariant
            k <= projects@.len(),
            ps == walk_view(projects@),
            client@ == client_name@,
            target@ == target_of(consumed@),
            id@ == id_v,
            id_v == structural_id_of(consumed@.segments),
            best matches Some(m) ==> best_server_upto(ps, client@, target@, id_v, k as int) == Some(
                (m.0 as int, m.1 as int),
            ),
            best is None ==> best_server_upto(ps, client@, target@, id_v, k as int) is None,
            best matches Some(m) ==> m.0 < k,
        decreases projects@.len() - k,
    {
        let server_name = &projects[k].0;
        let server_actual = &projects[k].1;
        assert(ps[k as int].0 == server_name@);
        assert(ps[k as int].1 == server_actual@);
        let eligible = *server_name != client && (target.as_str().is_empty() || target == *server_name);
        if eligible {
            match find_route_with_id(&server_actual.exposed, &id) {
                Some(j) => {
                    match best {
                        Some(m) => {
                            assert(ps[m.0 as int].0 == projects@[m.0 as int].0@);
                            if name_before(server_name, &projects[m.0].0) {
                                best = Some((k, j));
                            }
                        },
                        None => {
                            best = Some((k, j));
                        },
                    }
                },
                None => {},
            }
        }
        k = k + 1;
    }
    best
}

/// Aligns one consumed route of `client_name` with the servers of the
/// listing; the warning is always absent.
pub fn align_consumed_route(
    consumed: &RouteEntry,
    client_name: &str,
    projects: &Vec<(String, ActualJson)>,
) -> (r: (String, Option<String>))
    ensures
        r.0@ == alignment_status(consumed@, client_name@, walk_view(projects@)),
        r.1 is None,
{
    let ghost ps = walk_view(projects@);
    match find_server_route(consumed, client_name, projects) {
        Some(m) => {
            proof {
                lemma_best_server_bound(
                    ps,
                    client_name@,
                    target_of(consumed@),
                    structural_id_of(consumed@.segments),
                    ps.len() as int,
                );
            }
            assert(ps[m.0 as int].1 == projects@[m.0 as int].1@);
            let server = &projects[m.0].1;
            assert(ps[m.0 as int].1.exposed[m.1 as int] == server.exposed@[m.1 as int]@);
            let status = match compare_routes(consumed, &server.exposed[m.1]) {
                DiffResult::MethodChanged { .. } => "MethodMismatch".to_owned(),
                DiffResult::ParamNamesChanged { .. } => "ParamNameMismatch".to_owned(),
                _ => "Aligned".to_owned(),
            };
            (status, None)
        },
        None => {
            let targeted = match &consumed.target_project {
                Some(t) => !t.as_str().is_empty(),
                None => false,
            };
            if targeted {
                ("Orphaned".to_owned(), None)
            } else {
                (String::new(), None)
            }
        },
    }
}

} // verus!
