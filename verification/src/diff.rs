//! Comparing two versions of a route, and indexing routes by their structure.
use vstd::prelude::*;
use vstd::hash_map::StringHashMap;
use crate::route::{
    RouteEntry, EntryView, aligned_names, structural_id_of, entries_view, duplicate_entries,
};

verus! {

/// How a route changed between two versions.
#[derive(Debug, PartialEq)]
pub enum DiffResult {
    Added,
    Removed,
    MethodChanged { old_method: String, new_method: String },
    ParamNamesChanged { old_names: Vec<String>, new_names: Vec<String> },
    Unchanged,
}

/// The mathematical model of a [`DiffResult`].
pub enum DiffView {
    Added,
    Removed,
    MethodChanged { old_method: Seq<char>, new_method: Seq<char> },
    ParamNamesChanged { old_names: Seq<Seq<char>>, new_names: Seq<Seq<char>> },
    Unchanged,
}

impl View for DiffResult {
    type V = DiffView;

    open spec fn view(&self) -> DiffView {
        match self {
            DiffResult::Added => DiffView::Added,
            DiffResult::Removed => DiffView::Removed,
            DiffResult::MethodChanged { old_method, new_method } => DiffView::MethodChanged {
                old_method: old_method@,
                new_method: new_method@,
            },
            DiffResult::ParamNamesChanged { old_names, new_names } => DiffView::ParamNamesChanged {
                old_names: old_names.deep_view(),
                new_names: new_names.deep_view(),
            },
            DiffResult::Unchanged => DiffView::Unchanged,
        }
    }
}

/// The difference between an old and a new version of a route: a changed
/// method first, then changed names of the aligned parameters, else unchanged.
pub open spec fn diff_of(old: EntryView, new: EntryView) -> DiffView {
    if old.method != new.method {
        DiffView::MethodChanged { old_method: old.method, new_method: new.method }
    } else {
        let old_names = aligned_names(old.segments, new.segments);
        let new_names = aligned_names(new.segments, old.segments);
        if old_names != new_names {
            DiffView::ParamNamesChanged { old_names, new_names }
        } else {
            DiffView::Unchanged
        }
    }
}

/// Whether two lists of strings hold the same texts in the same order.
pub fn same_strings(a: &Vec<String>, b: &Vec<String>) -> (r: bool)
    ensures
        r == (a.deep_view() == b.deep_view()),
{
    if a.len() != b.len() {
        assert(a.deep_view().len() != b.deep_view().len());
        return false;
    }
    let mut i: usize = 0;
    while i < a.len()
        invariant
            i <= a.len(),
            a.len() == b.len(),
            forall|j: int| 0 <= j < i ==> #[trigger] a@[j]@ == b@[j]@,
        decreases a.len() - i,
    {
        if a[i] != b[i] {
            assert(a.deep_view()[i as int] != b.deep_view()[i as int]);
            return false;
        }
        i = i + 1;
    }
    assert(a.deep_view() =~= b.deep_view());
    true
}

/// Compares an old and a new version of a route.
pub fn compare_routes(old: &RouteEntry, new: &RouteEntry) -> (r: DiffResult)
    ensures
        r@ == diff_of(old@, new@),
{
    if old.method != new.method {
        return DiffResult::MethodChanged {
            old_method: old.method.clone(),
            new_method: new.method.clone(),
        };
    }
    let old_params = old.get_aligned_parameter_names(new);
    let new_params = new.get_aligned_parameter_names(old);
    if !same_strings(&old_params, &new_params) {
        return DiffResult::ParamNamesChanged { old_names: old_params, new_names: new_params };
    }
    DiffResult::Unchanged
}

/// The routes (in their order) whose structural identity is `id`.
pub open spec fn routes_with_id(rs: Seq<EntryView>, id: Seq<char>) -> Seq<EntryView> {
    rs.filter(|r: EntryView| structural_id_of(r.segments) == id)
}

/// Groups the routes by structural identity: each identity that occurs maps to
/// the routes that have it, in their order; no other key is present.
pub fn build_structural_index(routes: &[RouteEntry]) -> (index: StringHashMap<Vec<RouteEntry>>)
    ensures
        forall|id: Seq<char>|
            #[trigger] index@.contains_key(id) <==> routes_with_id(entries_view(routes@), id).len() > 0,
        forall|id: Seq<char>|
            #[trigger] index@.contains_key(id) ==> entries_view(index@[id]@) == routes_with_id(
                entries_view(routes@),
                id,
            ),
{
    let mut index: StringHashMap<Vec<RouteEntry>> = StringHashMap::new();
    let ghost all = entries_view(routes@);
    let mut i: usize = 0;
    while i < routes.len()
        invariant
            i <= routes@.len(),
            all == entries_view(routes@),
            forall|id: Seq<char>|
                #[trigger] index@.contains_key(id) <==> routes_with_id(all.take(i as int), id).len() > 0,
            forall|id: Seq<char>|
                #[trigger] index@.contains_key(id) ==> entries_view(index@[id]@) == routes_with_id(
                    all.take(i as int),
                    id,
                ),
        decreases routes@.len() - i,
    {
        let r = &routes[i];
        let id = r.structural_id();
        let ghost prev = index@;
        let ghost next = all.take(i + 1);
        assert(next.drop_last() =~= all.take(i as int));
        assert(next.last() == r@);
        let mut group = match index.get(id.as_str()) {
            Some(v) => duplicate_entries(v.as_slice()),
            None => Vec::new(),
        };
        group.push(r.duplicate());
        index.insert(id, group);
        assert forall|k: Seq<char>| #[trigger] index@.contains_key(k) <==> routes_with_id(next, k).len() > 0 by {
            reveal_with_fuel(Seq::filter, 1);
            if k != structural_id_of(r@.segments) {
                assert(routes_with_id(next, k) == routes_with_id(all.take(i as int), k));
            }
        }
        assert forall|k: Seq<char>| #[trigger] index@.contains_key(k) implies entries_view(index@[k]@)
            == routes_with_id(next, k) by {
            reveal_with_fuel(Seq::filter, 1);
            if k == structural_id_of(r@.segments) {
                assert(entries_view(index@[k]@) =~= routes_with_id(all.take(i as int), k).push(r@));
            } else {
                assert(routes_with_id(next, k) == routes_with_id(all.take(i as int), k));
            }
        }
        i = i + 1;
    }
    assert(all.take(i as int) =~= all);
    index
}

/// A route compared with itself shows no change.
pub proof fn law_compare_same_route(r: RouteEntry)
    ensures
        diff_of(r@, r@) == DiffView::Unchanged,
{
}

/// A comparison reports a changed method, changed parameter names or no
/// change; never an added or a removed route.
pub proof fn law_compare_outcomes(old: RouteEntry, new: RouteEntry)
    ensures
        !(diff_of(old@, new@) is Added),
        !(diff_of(old@, new@) is Removed),
{
}

/// Swapping the old and the new route swaps the old and new values reported.
pub proof fn law_compare_swap(a: RouteEntry, b: RouteEntry)
    ensures
        diff_of(b@, a@) == (match diff_of(a@, b@) {
            DiffView::MethodChanged { old_method, new_method } => DiffView::MethodChanged {
                old_method: new_method,
                new_method: old_method,
            },
            DiffView::ParamNamesChanged { old_names, new_names } => DiffView::ParamNamesChanged {
                old_names: new_names,
                new_names: old_names,
            },
            other => other,
        }),
{
}

/// Each route lies in the group of its own structural identity, and every
/// route of a group has that group's identity.
pub proof fn law_index_groups_by_identity(routes: Seq<RouteEntry>, i: int, id: Seq<char>)
    requires
        0 <= i < routes.len(),
    ensures
        routes_with_id(entries_view(routes), structural_id_of(routes[i]@.segments)).contains(routes[i]@),
        forall|j: int|
            0 <= j < routes_with_id(entries_view(routes), id).len() ==> structural_id_of(
                #[trigger] routes_with_id(entries_view(routes), id)[j].segments,
            ) == id,
{
    let ev = entries_view(routes);
    let own = structural_id_of(routes[i]@.segments);
    assert(ev[i] == routes[i]@);
    ev.lemma_filter_contains(|r: EntryView| structural_id_of(r.segments) == own, i);
    assert forall|j: int| 0 <= j < routes_with_id(ev, id).len() implies structural_id_of(
        #[trigger] routes_with_id(ev, id)[j].segments,
    ) == id by {
        ev.lemma_filter_pred(|r: EntryView| structural_id_of(r.segments) == id, j);
    }
}

} // verus!
