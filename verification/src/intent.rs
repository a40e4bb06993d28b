//! The declared intent overlay: parsing declared paths into segments and
//! merging declared routes into the extracted facts.
use vstd::prelude::*;
use crate::text::{literal_tag, parameter_tag, literal_text, parameter_text};
use crate::route::{
    RouteSegment, RouteEntry, SegmentView, EntryView, segment_renderable, segments_renderable,
    path_of, display_of, path_piece, display_piece, entries_view, copy_opt_string, duplicate_entries,
};

verus! {

/// Splits a path at `/`: the runs finished so far, and the run in progress.
pub open spec fn scan_parts(s: Seq<char>) -> (Seq<Seq<char>>, Seq<char>)
    decreases s.len(),
{
    if s.len() == 0 {
        (Seq::empty(), Seq::empty())
    } else {
        let prev = scan_parts(s.drop_last());
        if s.last() == '/' {
            (if prev.1.len() > 0 { prev.0.push(prev.1) } else { prev.0 }, Seq::empty())
        } else {
            (prev.0, prev.1.push(s.last()))
        }
    }
}

/// The non-empty pieces of a path between slashes, in order.
pub open spec fn path_parts(s: Seq<char>) -> Seq<Seq<char>> {
    let r = scan_parts(s);
    if r.1.len() > 0 { r.0.push(r.1) } else { r.0 }
}

/// The text before the first `:`, or all of it where there is none.
pub open spec fn first_field(s: Seq<char>) -> Seq<char>
    decreases s.len(),
{
    if s.len() == 0 {
        s
    } else if s[0] == ':' {
        Seq::empty()
    } else {
        seq![s[0]] + first_field(s.drop_first())
    }
}

/// A parameter segment with the given name.
pub open spec fn parameter_segment(name: Seq<char>) -> SegmentView {
    SegmentView { segment_type: parameter_tag(), value: None, name: Some(name), raw_constraint: None }
}

/// A literal segment with the given text.
pub open spec fn literal_segment(value: Seq<char>) -> SegmentView {
    SegmentView { segment_type: literal_tag(), value: Some(value), name: None, raw_constraint: None }
}

/// The segment that one piece of a declared path stands for: `:name` and
/// `{name}` (or `{name:constraint}`) are parameters, anything else a literal.
pub open spec fn segment_of_part(p: Seq<char>) -> SegmentView {
    if p.len() > 0 && p[0] == ':' {
        parameter_segment(p.subrange(1, p.len() as int))
    } else if p.len() > 0 && p[0] == '{' && p.last() == '}' {
        parameter_segment(first_field(p.subrange(1, p.len() - 1)))
    } else {
        literal_segment(p)
    }
}

/// The segments of a declared path.
pub open spec fn path_segments(s: Seq<char>) -> Seq<SegmentView> {
    path_parts(s).map_values(|p: Seq<char>| segment_of_part(p))
}

/// `first_field` is the prefix up to the first `:`.
proof fn lemma_first_field(s: Seq<char>, k: int)
    requires
        0 <= k <= s.len(),
        forall|i: int| 0 <= i < k ==> s[i] != ':',
        k == s.len() || s[k] == ':',
    ensures
        first_field(s) == s.take(k),
    decreases s.len(),
{
    if s.len() == 0 {
        assert(s.take(k) =~= s);
    } else if s[0] == ':' {
        assert(s.take(k) =~= Seq::<char>::empty());
    } else {
        lemma_first_field(s.drop_first(), k - 1);
        assert(seq![s[0]] + s.drop_first().take(k - 1) =~= s.take(k));
    }
}

/// The segment for the piece `path[start..end]`.
fn segment_for_part(path: &str, start: usize, end: usize) -> (seg: RouteSegment)
    requires
        start < end <= path@.len(),
    ensures
        seg@ == segment_of_part(path@.subrange(start as int, end as int)),
{
    let ghost p = path@.subrange(start as int, end as int);
    let first = path.get_char(start);
    let last = path.get_char(end - 1);
    if first == ':' {
        let name = path.substring_char(start + 1, end).to_owned();
        let seg = RouteSegment {
            segment_type: parameter_text(),
            value: None,
            name: Some(name),
            raw_constraint: None,
        };
        assert(p.subrange(1, p.len() as int) =~= path@.subrange(start + 1, end as int));
        seg
    } else if first == '{' && last == '}' {
        let mut k: usize = start + 1;
        while k < end - 1 && path.get_char(k) != ':'
            invariant
                start + 1 <= k <= end - 1,
                end <= path@.len(),
                forall|i: int| start + 1 <= i < k ==> path@[i] != ':',
            decreases end - 1 - k,
        {
            k = k + 1;
        }
        let name = path.substring_char(start + 1, k).to_owned();
        proof {
            let inner = p.subrange(1, p.len() - 1);
            assert(inner =~= path@.subrange(start + 1, end - 1));
            lemma_first_field(inner, k - start - 1);
            assert(inner.take(k - start - 1) =~= path@.subrange(start + 1, k as int));
        }
        RouteSegment {
            segment_type: parameter_text(),
            value: None,
            name: Some(name),
            raw_constraint: None,
        }
    } else {
        let value = path.substring_char(start, end).to_owned();
        RouteSegment {
            segment_type: literal_text(),
            value: Some(value),
            name: None,
            raw_constraint: None,
        }
    }
}

/// Parses a declared path such as `/users/{id}` or `/users/:id` into segments.
/// Empty pieces (leading, trailing or doubled slashes) are skipped.
pub fn parse_path_to_segments(path: &str) -> (segments: Vec<RouteSegment>)
    ensures
        segments@.map_values(|s: RouteSegment| s@) == path_segments(path@),
{
    let n = path.unicode_len();
    let mut segments: Vec<RouteSegment> = Vec::new();
    let mut start: usize = 0;
    let mut j: usize = 0;
    while j < n
        invariant
            n == path@.len(),
            start <= j <= n,
            scan_parts(path@.take(j as int)).1 == path@.subrange(start as int, j as int),
            segments@.len() == scan_parts(path@.take(j as int)).0.len(),
            forall|k: int|
                0 <= k < segments@.len() ==> #[trigger] segments@[k]@ == segment_of_part(
                    scan_parts(path@.take(j as int)).0[k],
                ),
        decreases n - j,
    {
        let c = path.get_char(j);
        let ghost prev = scan_parts(path@.take(j as int));
        assert(path@.take(j + 1).drop_last() =~= path@.take(j as int));
        if c == '/' {
            if start < j {
                let seg = segment_for_part(path, start, j);
                segments.push(seg);
            } else {
                assert(prev.1.len() == 0);
            }
            start = j + 1;
            assert(path@.subrange(start as int, j + 1) =~= Seq::<char>::empty());
        } else {
            assert(path@.subrange(start as int, j + 1) =~= prev.1.push(c));
        }
        j = j + 1;
    }
    assert(path@.take(n as int) =~= path@);
    let ghost r = scan_parts(path@);
    if start < n {
        let seg = segment_for_part(path, start, n);
        segments.push(seg);
    }
    assert(segments@.map_values(|s: RouteSegment| s@) =~= path_segments(path@));
    segments
}

/// The extracted facts of one project: the routes it exposes and consumes.
#[derive(Debug)]
pub struct ActualJson {
    pub exposed: Vec<RouteEntry>,
    pub consumed: Vec<RouteEntry>,
    pub project_type: Option<String>,
}

/// The mathematical model of [`ActualJson`].
pub struct ActualView {
    pub exposed: Seq<EntryView>,
    pub consumed: Seq<EntryView>,
    pub project_type: Option<Seq<char>>,
}

impl View for ActualJson {
    type V = ActualView;

    open spec fn view(&self) -> ActualView {
        ActualView {
            exposed: entries_view(self.exposed@),
            consumed: entries_view(self.consumed@),
            project_type: self.project_type.deep_view(),
        }
    }
}

impl ActualJson {
    /// A copy of the facts with the same content.
    pub(crate) fn duplicate(&self) -> (r: ActualJson)
        ensures
            r@ == self@,
    {
        ActualJson {
            exposed: duplicate_entries(self.exposed.as_slice()),
            consumed: duplicate_entries(self.consumed.as_slice()),
            project_type: copy_opt_string(&self.project_type),
        }
    }
}

/// One declared route of the intent overlay.
#[derive(Debug, Clone)]
pub struct InterfaceItem {
    pub path: String,
    pub method: String,
    pub reason: Option<String>,
    pub target_project: Option<String>,
}

/// The mathematical model of [`InterfaceItem`].
pub struct ItemView {
    pub path: Seq<char>,
    pub method: Seq<char>,
    pub reason: Option<Seq<char>>,
    pub target_project: Option<Seq<char>>,
}

impl View for InterfaceItem {
    type V = ItemView;

    open spec fn view(&self) -> ItemView {
        ItemView {
            path: self.path@,
            method: self.method@,
            reason: self.reason.deep_view(),
            target_project: self.target_project.deep_view(),
        }
    }
}

/// The declared intent of one project.
#[derive(Debug, Default)]
pub struct InterfacesYml {
    pub project: Option<String>,
    pub project_type: Option<String>,
    pub environment: Option<String>,
    pub exposed: Option<Vec<InterfaceItem>>,
    pub consumed: Option<Vec<InterfaceItem>>,
}

/// The models of a sequence of declared routes.
pub open spec fn items_view(items: Seq<InterfaceItem>) -> Seq<ItemView> {
    items.map_values(|i: InterfaceItem| i@)
}

/// The mathematical model of [`InterfacesYml`].
pub struct IntentView {
    pub project: Option<Seq<char>>,
    pub project_type: Option<Seq<char>>,
    pub environment: Option<Seq<char>>,
    pub exposed: Option<Seq<ItemView>>,
    pub consumed: Option<Seq<ItemView>>,
}

/// The models of an optional list of declared routes.
pub open spec fn opt_items_view(o: Option<Vec<InterfaceItem>>) -> Option<Seq<ItemView>> {
    match o {
        Some(v) => Some(items_view(v@)),
        None => None,
    }
}

impl View for InterfacesYml {
    type V = IntentView;

    open spec fn view(&self) -> IntentView {
        IntentView {
            project: self.project.deep_view(),
            project_type: self.project_type.deep_view(),
            environment: self.environment.deep_view(),
            exposed: opt_items_view(self.exposed),
            consumed: opt_items_view(self.consumed),
        }
    }
}

/// An entry answers to a declared route: same rendered path and same method.
pub open spec fn answers(e: EntryView, it: ItemView) -> bool {
    path_of(e.segments) == it.path && e.method == it.method
}

/// The first position at or after `k` whose entry answers to the declared route.
pub open spec fn first_answer_from(es: Seq<EntryView>, it: ItemView, k: int) -> Option<int>
    decreases es.len() - k,
{
    if k < 0 || k >= es.len() {
        None
    } else if answers(es[k], it) {
        Some(k)
    } else {
        first_answer_from(es, it, k + 1)
    }
}

/// The first position whose entry answers to the declared route.
pub open spec fn first_answer(es: Seq<EntryView>, it: ItemView) -> Option<int> {
    first_answer_from(es, it, 0)
}

/// The search for the declared route only meets entries that can be rendered:
/// all of them up to the first answer, or all where none answers.
pub open spec fn search_renderable(es: Seq<EntryView>, it: ItemView) -> bool {
    forall|k: int|
        0 <= k < es.len() && (first_answer(es, it) matches Some(j) ==> k <= j)
            ==> #[trigger] segments_renderable(es[k].segments)
}

/// The text `manual`.
pub open spec fn manual_tag() -> Seq<char> {
    seq!['m', 'a', 'n', 'u', 'a', 'l']
}

/// The entry added for a declared route that no extracted entry answers to.
pub open spec fn manual_entry(it: ItemView, target: Option<Seq<char>>) -> EntryView {
    EntryView {
        method: it.method,
        segments: path_segments(it.path),
        source_file: manual_tag(),
        line_number: 0,
        extraction_method: manual_tag(),
        target_project: target,
    }
}

/// An entry with another target project.
pub open spec fn retarget(e: EntryView, target: Option<Seq<char>>) -> EntryView {
    EntryView {
        method: e.method,
        segments: e.segments,
        source_file: e.source_file,
        line_number: e.line_number,
        extraction_method: e.extraction_method,
        target_project: target,
    }
}

/// Overlays one declared route: the first answering entry takes the declared
/// target where one is declared; where none answers, a manual entry is added,
/// carrying the declared target only when `keep_target` holds.
pub open spec fn overlay_one(es: Seq<EntryView>, it: ItemView, keep_target: bool) -> Seq<EntryView> {
    match first_answer(es, it) {
        Some(j) => if it.target_project is Some {
            es.update(j, retarget(es[j], it.target_project))
        } else {
            es
        },
        None => es.push(manual_entry(it, if keep_target { it.target_project } else { None })),
    }
}

/// Overlays the declared routes one after the other.
pub open spec fn overlay(es: Seq<EntryView>, items: Seq<ItemView>, keep_target: bool) -> Seq<EntryView>
    decreases items.len(),
{
    if items.len() == 0 {
        es
    } else {
        overlay_one(overlay(es, items.drop_last(), keep_target), items.last(), keep_target)
    }
}

/// Every search of the overlay meets only entries that can be rendered.
pub open spec fn overlay_renderable(es: Seq<EntryView>, items: Seq<ItemView>, keep_target: bool) -> bool
    decreases items.len(),
{
    if items.len() == 0 {
        true
    } else {
        &&& overlay_renderable(es, items.drop_last(), keep_target)
        &&& search_renderable(overlay(es, items.drop_last(), keep_target), items.last())
    }
}

/// Overlays an optional list of declared routes.
pub open spec fn overlay_opt(es: Seq<EntryView>, items: Option<Seq<ItemView>>, keep_target: bool) -> Seq<EntryView> {
    match items {
        Some(its) => overlay(es, its, keep_target),
        None => es,
    }
}

/// The facts after the intent is merged in: a declared project type replaces
/// the extracted one; declared exposed routes are overlaid without carrying a
/// target into added entries, declared consumed routes carrying it.
pub open spec fn merged(a: ActualView, y: IntentView) -> ActualView {
    ActualView {
        exposed: overlay_opt(a.exposed, y.exposed, false),
        consumed: overlay_opt(a.consumed, y.consumed, true),
        project_type: if y.project_type is Some { y.project_type } else { a.project_type },
    }
}

/// The merge meets only entries that can be rendered.
pub open spec fn merge_renderable(a: ActualView, y: IntentView) -> bool {
    &&& (y.exposed matches Some(its) ==> overlay_renderable(a.exposed, its, false))
    &&& (y.consumed matches Some(its) ==> overlay_renderable(a.consumed, its, true))
}

/// An owned `"manual"`.
fn manual_text() -> (s: String)
    ensures
        s@ == manual_tag(),
{
    let s = "manual".to_owned();
    proof {
        reveal_strlit("manual");
        assert(s@ =~= manual_tag());
    }
    s
}

/// A search from `k` finds nothing before `k`.
proof fn lemma_first_answer_from_bound(es: Seq<EntryView>, it: ItemView, k: int)
    requires
        0 <= k,
    ensures
        first_answer_from(es, it, k) matches Some(j) ==> k <= j < es.len() && answers(es[j], it),
    decreases es.len() - k,
{
    if k < es.len() && !answers(es[k], it) {
        lemma_first_answer_from_bound(es, it, k + 1);
    }
}

/// Overlays one declared route onto a list of entries.
fn overlay_item(entries: &mut Vec<RouteEntry>, item: &InterfaceItem, keep_target: bool)
    requires
        search_renderable(entries_view(old(entries)@), item@),
    ensures
        entries_view(final(entries)@) == overlay_one(entries_view(old(entries)@), item@, keep_target),
{
    let ghost es = entries_view(entries@);
    let mut k: usize = 0;
    while k < entries.len()
        invariant
            k <= entries@.len(),
            es == entries_view(entries@),
            es == entries_view(old(entries)@),
            search_renderable(es, item@),
            first_answer(es, item@) == first_answer_from(es, item@, k as int),
        decreases entries@.len() - k,
    {
        assert(first_answer_from(es, item@, k as int) == (if answers(es[k as int], item@) {
            Some(k as int)
        } else {
            first_answer_from(es, item@, k + 1)
        }));
        proof {
            lemma_first_answer_from_bound(es, item@, k as int);
        }
        assert(segments_renderable(es[k as int].segments));
        let p = entries[k].to_path();
        if p == item.path && entries[k].method == item.method {
            assert(first_answer(es, item@) == Some(k as int));
            if item.target_project.is_some() {
                let mut e = entries[k].duplicate();
                e.target_project = copy_opt_string(&item.target_project);
                entries.set(k, e);
                assert(entries_view(entries@) =~= es.update(k as int, retarget(es[k as int], item@.target_project)));
            }
            return;
        }
        k = k + 1;
    }
    let segments = parse_path_to_segments(item.path.as_str());
    let target = if keep_target { copy_opt_string(&item.target_project) } else { None };
    let e = RouteEntry {
        method: item.method.clone(),
        segments,
        source_file: manual_text(),
        line_number: 0,
        extraction_method: manual_text(),
        target_project: target,
    };
    entries.push(e);
    assert(entries_view(entries@) =~= es.push(manual_entry(item@, if keep_target { item@.target_project } else { None })));
}

/// Overlays a list of declared routes, one after the other.
fn overlay_items(entries: &mut Vec<RouteEntry>, items: &Vec<InterfaceItem>, keep_target: bool)
    requires
        overlay_renderable(entries_view(old(entries)@), items_view(items@), keep_target),
    ensures
        entries_view(final(entries)@) == overlay(entries_view(old(entries)@), items_view(items@), keep_target),
{
    let ghost es = entries_view(entries@);
    let ghost its = items_view(items@);
    let mut i: usize = 0;
    while i < items.len()
        invariant
            i <= items@.len(),
            its == items_view(items@),
            overlay_renderable(es, its, keep_target),
            entries_view(entries@) == overlay(es, its.take(i as int), keep_target),
        decreases items@.len() - i,
    {
        proof {
            lemma_overlay_renderable_prefix(es, its, i as int + 1, keep_target);
            assert(its.take(i + 1).drop_last() =~= its.take(i as int));
        }
        overlay_item(entries, &items[i], keep_target);
        i = i + 1;
    }
    assert(its.take(i as int) =~= its);
}

/// Renderability of the whole overlay holds for each of its prefixes, and its
/// last step is a renderable search.
proof fn lemma_overlay_renderable_prefix(es: Seq<EntryView>, its: Seq<ItemView>, n: int, keep_target: bool)
    requires
        overlay_renderable(es, its, keep_target),
        0 < n <= its.len(),
    ensures
        overlay_renderable(es, its.take(n), keep_target),
        search_renderable(overlay(es, its.take(n - 1), keep_target), its[n - 1]),
    decreases its.len(),
{
    if n == its.len() {
        assert(its.take(n) =~= its);
        assert(its.drop_last() =~= its.take(n - 1));
    } else {
        lemma_overlay_renderable_prefix(es, its.drop_last(), n, keep_target);
        assert(its.drop_last().take(n) =~= its.take(n));
        assert(its.drop_last().take(n - 1) =~= its.take(n - 1));
    }
    assert(its.take(n).drop_last() =~= its.take(n - 1));
}

/// Whether the search for the declared route meets only renderable entries.
fn search_is_renderable(entries: &Vec<RouteEntry>, item: &InterfaceItem) -> (r: bool)
    ensures
        r == search_renderable(entries_view(entries@), item@),
{
    let ghost es = entries_view(entries@);
    let mut k: usize = 0;
    while k < entries.len()
        invariant
            k <= entries@.len(),
            es == entries_view(entries@),
            first_answer(es, item@) == first_answer_from(es, item@, k as int),
            forall|i: int| 0 <= i < k ==> #[trigger] segments_renderable(es[i].segments),
        decreases entries@.len() - k,
    {
        proof {
            lemma_first_answer_from_bound(es, item@, k as int);
        }
        assert(entries[k as int]@ == es[k as int]);
        if !entries[k].is_renderable() {
            return false;
        }
        if entries[k].to_path() == item.path && entries[k].method == item.method {
            assert(first_answer(es, item@) == Some(k as int));
            return true;
        }
        k = k + 1;
    }
    true
}

/// Overlays a list of declared routes, first checking before each one that its
/// search meets only renderable entries; stops with `false` where one does not.
fn overlay_items_checked(entries: &mut Vec<RouteEntry>, items: &Vec<InterfaceItem>, keep_target: bool) -> (r: bool)
    ensures
        r == overlay_renderable(entries_view(old(entries)@), items_view(items@), keep_target),
        r ==> entries_view(final(entries)@) == overlay(
            entries_view(old(entries)@),
            items_view(items@),
            keep_target,
        ),
{
    let ghost es = entries_view(entries@);
    let ghost its = items_view(items@);
    let mut i: usize = 0;
    assert(its.take(0).len() == 0);
    while i < items.len()
        invariant
            i <= items@.len(),
            its == items_view(items@),
            es == entries_view(old(entries)@),
            overlay_renderable(es, its.take(i as int), keep_target),
            entries_view(entries@) == overlay(es, its.take(i as int), keep_target),
        decreases items@.len() - i,
    {
        assert(its.take(i + 1).drop_last() =~= its.take(i as int));
        assert(its.take(i + 1).last() == items@[i as int]@);
        if !search_is_renderable(entries, &items[i]) {
            proof {
                if overlay_renderable(es, its, keep_target) {
                    lemma_overlay_renderable_prefix(es, its, i as int + 1, keep_target);
                    assert(its.take(i + 1).take(i as int) =~= its.take(i as int));
                }
            }
            return false;
        }
        overlay_item(entries, &items[i], keep_target);
        i = i + 1;
    }
    assert(its.take(i as int) =~= its);
    true
}

/// Merges the declared intent into the facts where the merge meets only
/// renderable entries, and answers whether it did; otherwise the facts stay
/// as they were.
pub fn try_merge_intent_into_actual(actual: &mut ActualJson, intent: &InterfacesYml) -> (r: bool)
    ensures
        r == merge_renderable(old(actual)@, intent@),
        r ==> final(actual)@ == merged(old(actual)@, intent@),
        !r ==> final(actual)@ == old(actual)@,
{
    let mut copy = actual.duplicate();
    match &intent.exposed {
        Some(items) => {
            if !overlay_items_checked(&mut copy.exposed, items, false) {
                return false;
            }
        },
        None => {},
    }
    match &intent.consumed {
        Some(items) => {
            if !overlay_items_checked(&mut copy.consumed, items, true) {
                return false;
            }
        },
        None => {},
    }
    match &intent.project_type {
        Some(pt) => {
            copy.project_type = Some(pt.clone());
        },
        None => {},
    }
    *actual = copy;
    true
}

/// Merges the declared intent into the extracted facts of a project.
pub fn merge_intent_into_actual(actual: &mut ActualJson, intent: &InterfacesYml)
    requires
        merge_renderable(old(actual)@, intent@),
    ensures
        final(actual)@ == merged(old(actual)@, intent@),
{
    match &intent.project_type {
        Some(pt) => {
            actual.project_type = Some(pt.clone());
        },
        None => {},
    }
    match &intent.exposed {
        Some(items) => overlay_items(&mut actual.exposed, items, false),
        None => {},
    }
    match &intent.consumed {
        Some(items) => overlay_items(&mut actual.consumed, items, true),
        None => {},
    }
}

/// Every route of a project can be rendered as a path.
pub open spec fn actual_renderable(a: ActualView) -> bool {
    &&& entries_renderable(a.exposed)
    &&& entries_renderable(a.consumed)
}

/// Every entry of the list can be rendered as a path.
pub open spec fn entries_renderable(es: Seq<EntryView>) -> bool {
    forall|k: int| 0 <= k < es.len() ==> #[trigger] segments_renderable(es[k].segments)
}

/// A declared path yields only literal and parameter segments, each of which
/// can be rendered.
pub proof fn law_parsed_segments_renderable(path: Seq<char>)
    ensures
        segments_renderable(path_segments(path)),
        forall|k: int|
            0 <= k < path_segments(path).len() ==> (#[trigger] path_segments(path)[k]).segment_type
                == literal_tag() || path_segments(path)[k].segment_type == parameter_tag(),
{
    let segs = path_segments(path);
    assert forall|k: int| 0 <= k < segs.len() implies #[trigger] segment_renderable(segs[k]) by {
        assert(literal_tag().len() != parameter_tag().len());
    }
}

/// Overlaying keeps a list renderable, and every search in it meets only
/// renderable entries.
proof fn lemma_overlay_keeps_renderable(es: Seq<EntryView>, items: Seq<ItemView>, keep_target: bool)
    requires
        entries_renderable(es),
    ensures
        overlay_renderable(es, items, keep_target),
        entries_renderable(overlay(es, items, keep_target)),
    decreases items.len(),
{
    if items.len() > 0 {
        lemma_overlay_keeps_renderable(es, items.drop_last(), keep_target);
        let prev = overlay(es, items.drop_last(), keep_target);
        let it = items.last();
        law_parsed_segments_renderable(it.path);
        lemma_first_answer_from_bound(prev, it, 0);
        let next = overlay(es, items, keep_target);
        assert forall|k: int| 0 <= k < next.len() implies #[trigger] segments_renderable(next[k].segments) by {
            if k < prev.len() {
                assert(next[k].segments == prev[k].segments);
            }
        }
    }
}

/// The merge only meets renderable entries where all entries are renderable,
/// and leaves all entries renderable.
pub proof fn law_merge_keeps_renderable(actual: ActualJson, intent: InterfacesYml)
    requires
        actual_renderable(actual@),
    ensures
        merge_renderable(actual@, intent@),
        actual_renderable(merged(actual@, intent@)),
{
    match intent@.exposed {
        Some(its) => lemma_overlay_keeps_renderable(actual@.exposed, its, false),
        None => {},
    }
    match intent@.consumed {
        Some(its) => lemma_overlay_keeps_renderable(actual@.consumed, its, true),
        None => {},
    }
}

/// Two entries agree in everything but their target project.
pub open spec fn same_but_target(a: EntryView, b: EntryView) -> bool {
    &&& a.method == b.method
    &&& a.segments == b.segments
    &&& a.source_file == b.source_file
    &&& a.line_number == b.line_number
    &&& a.extraction_method == b.extraction_method
}

/// Overlaying keeps every entry in place, changing at most its target.
proof fn lemma_overlay_keeps_entries(es: Seq<EntryView>, items: Seq<ItemView>, keep_target: bool)
    ensures
        overlay(es, items, keep_target).len() >= es.len(),
        forall|k: int|
            0 <= k < es.len() ==> same_but_target(#[trigger] overlay(es, items, keep_target)[k], es[k]),
    decreases items.len(),
{
    if items.len() > 0 {
        lemma_overlay_keeps_entries(es, items.drop_last(), keep_target);
        let prev = overlay(es, items.drop_last(), keep_target);
        let next = overlay(es, items, keep_target);
        lemma_first_answer_from_bound(prev, items.last(), 0);
        assert forall|k: int| 0 <= k < es.len() implies same_but_target(#[trigger] next[k], es[k]) by {
            assert(same_but_target(prev[k], es[k]));
            assert(same_but_target(next[k], prev[k]));
        }
    }
}

/// The merge keeps every extracted entry in its place, changing at most its
/// target project; new entries only come after them.
pub proof fn law_merge_keeps_entries(actual: ActualJson, intent: InterfacesYml)
    ensures
        merged(actual@, intent@).exposed.len() >= actual@.exposed.len(),
        merged(actual@, intent@).consumed.len() >= actual@.consumed.len(),
        forall|k: int|
            0 <= k < actual@.exposed.len() ==> same_but_target(
                #[trigger] merged(actual@, intent@).exposed[k],
                actual@.exposed[k],
            ),
        forall|k: int|
            0 <= k < actual@.consumed.len() ==> same_but_target(
                #[trigger] merged(actual@, intent@).consumed[k],
                actual@.consumed[k],
            ),
{
    match intent@.exposed {
        Some(its) => lemma_overlay_keeps_entries(actual@.exposed, its, false),
        None => {},
    }
    match intent@.consumed {
        Some(its) => lemma_overlay_keeps_entries(actual@.consumed, its, true),
        None => {},
    }
}

/// A declared path in the form that rendering gives back unchanged.
pub open spec fn canonical_path(p: Seq<char>) -> bool {
    path_of(path_segments(p)) == p
}

/// Some entry of the list answers to the declared route.
pub open spec fn answered(es: Seq<EntryView>, it: ItemView) -> bool {
    exists|k: int| 0 <= k < es.len() && #[trigger] answers(es[k], it)
}

/// After overlaying, each declared route in canonical form is answered.
proof fn lemma_overlay_answers(es: Seq<EntryView>, items: Seq<ItemView>, keep_target: bool, i: int)
    requires
        0 <= i < items.len(),
        canonical_path(items[i].path),
    ensures
        answered(overlay(es, items, keep_target), items[i]),
    decreases items.len(),
{
    let prev = overlay(es, items.drop_last(), keep_target);
    let next = overlay(es, items, keep_target);
    let it = items.last();
    if i < items.len() - 1 {
        lemma_overlay_answers(es, items.drop_last(), keep_target, i);
        let k = choose|k: int| 0 <= k < prev.len() && #[trigger] answers(prev[k], items[i]);
        lemma_first_answer_from_bound(prev, it, 0);
        assert(answers(next[k], items[i]));
    } else {
        lemma_first_answer_from_bound(prev, it, 0);
        match first_answer(prev, it) {
            Some(j) => {
                assert(answers(next[j], it));
            },
            None => {
                assert(answers(next[prev.len() as int], it));
            },
        }
    }
}

/// After the merge, each declared route whose path is in canonical form is
/// answered by some entry: by the extracted one it matched or by the one added.
pub proof fn law_merge_answers_declared(actual: ActualJson, intent: InterfacesYml)
    ensures
        intent@.exposed matches Some(its) ==> forall|i: int|
            0 <= i < its.len() && canonical_path(its[i].path) ==> answered(
                merged(actual@, intent@).exposed,
                #[trigger] its[i],
            ),
        intent@.consumed matches Some(its) ==> forall|i: int|
            0 <= i < its.len() && canonical_path(its[i].path) ==> answered(
                merged(actual@, intent@).consumed,
                #[trigger] its[i],
            ),
{
    match intent@.exposed {
        Some(its) => {
            assert forall|i: int| 0 <= i < its.len() && canonical_path(its[i].path) implies answered(
                merged(actual@, intent@).exposed,
                #[trigger] its[i],
            ) by {
                lemma_overlay_answers(actual@.exposed, its, false, i);
            }
        },
        None => {},
    }
    match intent@.consumed {
        Some(its) => {
            assert forall|i: int| 0 <= i < its.len() && canonical_path(its[i].path) implies answered(
                merged(actual@, intent@).consumed,
                #[trigger] its[i],
            ) by {
                lemma_overlay_answers(actual@.consumed, its, true, i);
            }
        },
        None => {},
    }
}

/// Some entry of the list has the declared route's rendered path and method.
pub open spec fn has_route(es: Seq<EntryView>, path: Seq<char>, method: Seq<char>) -> bool {
    exists|k: int| 0 <= k < es.len() && path_of(#[trigger] es[k].segments) == path && es[k].method == method
}

/// After the merge each declared route whose path is in canonical form has an
/// entry with its rendered path and its method: an entry of another method
/// never stands for it.
pub proof fn law_merge_keeps_declared_methods(actual: ActualJson, intent: InterfacesYml)
    ensures
        intent@.exposed matches Some(its) ==> forall|i: int|
            0 <= i < its.len() && canonical_path(its[i].path) ==> has_route(
                merged(actual@, intent@).exposed,
                #[trigger] its[i].path,
                its[i].method,
            ),
        intent@.consumed matches Some(its) ==> forall|i: int|
            0 <= i < its.len() && canonical_path(its[i].path) ==> has_route(
                merged(actual@, intent@).consumed,
                #[trigger] its[i].path,
                its[i].method,
            ),
{
    law_merge_answers_declared(actual, intent);
    let m = merged(actual@, intent@);
    match intent@.exposed {
        Some(its) => {
            assert forall|i: int| 0 <= i < its.len() && canonical_path(its[i].path) implies has_route(
                m.exposed,
                #[trigger] its[i].path,
                its[i].method,
            ) by {
                assert(answered(m.exposed, its[i]));
                let k = choose|k: int| 0 <= k < m.exposed.len() && #[trigger] answers(m.exposed[k], its[i]);
                assert(path_of(m.exposed[k].segments) == its[i].path && m.exposed[k].method == its[i].method);
            }
        },
        None => {},
    }
    match intent@.consumed {
        Some(its) => {
            assert forall|i: int| 0 <= i < its.len() && canonical_path(its[i].path) implies has_route(
                m.consumed,
                #[trigger] its[i].path,
                its[i].method,
            ) by {
                assert(answered(m.consumed, its[i]));
                let k = choose|k: int| 0 <= k < m.consumed.len() && #[trigger] answers(m.consumed[k], its[i]);
                assert(path_of(m.consumed[k].segments) == its[i].path && m.consumed[k].method == its[i].method);
            }
        },
        None => {},
    }
}

/// The target of the extracted entry at `k` changed only by a declared route
/// with the entry's rendered path and method, whose target it now carries.
pub open spec fn retargeted_by(e: EntryView, after: EntryView, its: Seq<ItemView>) -> bool {
    after.target_project == e.target_project || exists|i: int|
        0 <= i < its.len() && #[trigger] its[i].path == path_of(e.segments) && its[i].method == e.method
            && its[i].target_project is Some && after.target_project == its[i].target_project
}

/// Overlaying changes the target of an entry only for a declared route of the
/// entry's path and method.
proof fn lemma_overlay_retargets(es: Seq<EntryView>, items: Seq<ItemView>, keep_target: bool)
    ensures
        forall|k: int| 0 <= k < es.len() ==> retargeted_by(es[k], #[trigger] overlay(es, items, keep_target)[k], items),
    decreases items.len(),
{
    if items.len() > 0 {
        let init = items.drop_last();
        lemma_overlay_retargets(es, init, keep_target);
        lemma_overlay_keeps_entries(es, init, keep_target);
        let prev = overlay(es, init, keep_target);
        let next = overlay(es, items, keep_target);
        let it = items.last();
        lemma_first_answer_from_bound(prev, it, 0);
        assert forall|k: int| 0 <= k < es.len() implies retargeted_by(es[k], #[trigger] next[k], items) by {
            assert(retargeted_by(es[k], prev[k], init));
            assert(same_but_target(prev[k], es[k]));
            if next[k] != prev[k] {
                assert(items[items.len() - 1] == it);
                assert(answers(prev[k], it));
            } else if prev[k].target_project != es[k].target_project {
                let i = choose|i: int|
                    0 <= i < init.len() && #[trigger] init[i].path == path_of(es[k].segments) && init[i].method
                        == es[k].method && init[i].target_project is Some && prev[k].target_project
                        == init[i].target_project;
                assert(items[i] == init[i]);
            }
        }
    }
}

/// The merge changes the target project of an extracted entry only to the
/// target of a declared route with that entry's rendered path and method; an
/// entry of another method is never retargeted.
pub proof fn law_merge_retargets_only_answering(actual: ActualJson, intent: InterfacesYml)
    ensures
        intent@.exposed matches Some(its) ==> forall|k: int|
            0 <= k < actual@.exposed.len() ==> retargeted_by(
                actual@.exposed[k],
                #[trigger] merged(actual@, intent@).exposed[k],
                its,
            ),
        intent@.exposed is None ==> merged(actual@, intent@).exposed == actual@.exposed,
        intent@.consumed matches Some(its) ==> forall|k: int|
            0 <= k < actual@.consumed.len() ==> retargeted_by(
                actual@.consumed[k],
                #[trigger] merged(actual@, intent@).consumed[k],
                its,
            ),
        intent@.consumed is None ==> merged(actual@, intent@).consumed == actual@.consumed,
{
    match intent@.exposed {
        Some(its) => lemma_overlay_retargets(actual@.exposed, its, false),
        None => {},
    }
    match intent@.consumed {
        Some(its) => lemma_overlay_retargets(actual@.consumed, its, true),
        None => {},
    }
}

/// The target last declared for position `p` by the first `n` declared
/// routes, each acting on its first answer in `f`.
spec fn last_write(f: Seq<EntryView>, its: Seq<ItemView>, p: int, n: int) -> Option<Seq<char>>
    decreases n,
{
    if n <= 0 || n > its.len() {
        None
    } else if its[n - 1].target_project is Some && first_answer(f, its[n - 1]) == Some(p) {
        its[n - 1].target_project
    } else {
        last_write(f, its, p, n - 1)
    }
}

/// A route that is answered has a first answer.
proof fn lemma_first_answer_exists(xs: Seq<EntryView>, it: ItemView, k: int, j: int)
    requires
        0 <= k <= j < xs.len(),
        answers(xs[j], it),
    ensures
        first_answer_from(xs, it, k) is Some,
    decreases j - k,
{
    if !answers(xs[k], it) {
        lemma_first_answer_exists(xs, it, k + 1, j);
    }
}

/// Lists that agree in all but targets on the first list's positions have
/// the same first answer where the first list has one.
proof fn lemma_first_answer_stable(xs: Seq<EntryView>, ys: Seq<EntryView>, it: ItemView, k: int)
    requires
        0 <= k,
        ys.len() >= xs.len(),
        forall|i: int| 0 <= i < xs.len() ==> same_but_target(#[trigger] ys[i], xs[i]),
        first_answer_from(xs, it, k) is Some,
    ensures
        first_answer_from(ys, it, k) == first_answer_from(xs, it, k),
    decreases xs.len() - k,
{
    lemma_first_answer_from_bound(xs, it, k);
    assert(same_but_target(ys[k], xs[k]));
    if !answers(xs[k], it) {
        lemma_first_answer_stable(xs, ys, it, k + 1);
    }
}

/// The last declared target depends only on the first answers.
proof fn lemma_last_write_same(f: Seq<EntryView>, g: Seq<EntryView>, its: Seq<ItemView>, p: int, n: int)
    requires
        forall|m: int| 0 <= m < n && m < its.len() ==> first_answer(f, #[trigger] its[m]) == first_answer(g, its[m]),
    ensures
        last_write(f, its, p, n) == last_write(g, its, p, n),
    decreases n,
{
    if 0 < n <= its.len() {
        lemma_last_write_same(f, g, its, p, n - 1);
    }
}

/// Every declared path is canonical, and without carried targets no declared
/// route names a target.
pub open spec fn overlay_repeatable(its: Seq<ItemView>, keep_target: bool) -> bool {
    forall|m: int|
        0 <= m < its.len() ==> canonical_path((#[trigger] its[m]).path) && (!keep_target
            ==> its[m].target_project is None)
}

/// After the first `n` declared routes, each position holds the target last
/// declared for it.
proof fn lemma_first_pass(es: Seq<EntryView>, its: Seq<ItemView>, keep_target: bool, n: int)
    requires
        0 <= n <= its.len(),
        overlay_repeatable(its, keep_target),
    ensures
        forall|p: int|
            0 <= p < overlay(es, its.take(n), keep_target).len() ==> (last_write(
                overlay(es, its.take(n), keep_target),
                its,
                p,
                n,
            ) matches Some(t) ==> (#[trigger] overlay(es, its.take(n), keep_target)[p]).target_project == Some(t)),
    decreases n,
{
    if n > 0 {
        lemma_first_pass(es, its, keep_target, n - 1);
        let prev = overlay(es, its.take(n - 1), keep_target);
        let f = overlay(es, its.take(n), keep_target);
        let it = its[n - 1];
        assert(its.take(n).drop_last() =~= its.take(n - 1));
        assert(its.take(n).last() == it);
        assert(f == overlay_one(prev, it, keep_target));
        lemma_first_answer_from_bound(prev, it, 0);
        assert(f.len() >= prev.len());
        assert forall|i: int| 0 <= i < prev.len() implies same_but_target(#[trigger] f[i], prev[i]) by {}
        assert forall|m: int| 0 <= m < n - 1 && m < its.len() implies first_answer(f, #[trigger] its[m])
            == first_answer(prev, its[m]) by {
            assert(its.take(n - 1)[m] == its[m]);
            lemma_overlay_answers(es, its.take(n - 1), keep_target, m);
            let j = choose|j: int| 0 <= j < prev.len() && #[trigger] answers(prev[j], its[m]);
            lemma_first_answer_exists(prev, its[m], 0, j);
            lemma_first_answer_stable(prev, f, its[m], 0);
        }
        // where the route acts: its first answer in `prev`, or the added entry
        let pos = match first_answer(prev, it) {
            Some(j) => j,
            None => prev.len() as int,
        };
        match first_answer(prev, it) {
            Some(j) => {
                lemma_first_answer_stable(prev, f, it, 0);
            },
            None => {
                assert(f[prev.len() as int].segments == path_segments(it.path));
                assert(answers(f[prev.len() as int], it));
                lemma_first_answer_exists(f, it, 0, prev.len() as int);
                lemma_first_answer_from_bound(f, it, 0);
                if first_answer(f, it) != Some(prev.len() as int) {
                    let j = first_answer(f, it)->0;
                    assert(same_but_target(f[j], prev[j]));
                    assert(answers(prev[j], it));
                    lemma_first_answer_exists(prev, it, 0, j);
                }
            },
        }
        assert(first_answer(f, it) == Some(pos));
        assert forall|p: int| 0 <= p < f.len() implies (last_write(f, its, p, n) matches Some(t)
            ==> (#[trigger] f[p]).target_project == Some(t)) by {
            lemma_last_write_same(f, prev, its, p, n - 1);
            if last_write(f, its, p, n) is Some {
                if it.target_project is Some && pos == p {
                    if first_answer(prev, it) is None {
                        assert(keep_target);
                    }
                } else {
                    lemma_last_write_in_range(prev, its, p, n - 1);
                    assert(p < prev.len());
                    assert(f[p] == prev[p]);
                }
            }
        }
    }
}

/// A position written by the declared routes lies in the list.
proof fn lemma_last_write_in_range(g: Seq<EntryView>, its: Seq<ItemView>, p: int, n: int)
    ensures
        last_write(g, its, p, n) is Some ==> 0 <= p < g.len(),
    decreases n,
{
    if 0 < n <= its.len() {
        lemma_last_write_in_range(g, its, p, n - 1);
        lemma_first_answer_from_bound(g, its[n - 1], 0);
    }
}

/// Replaying the declared routes on a list that answers all of them sets each
/// position to the target last declared for it, leaving all else alone.
proof fn lemma_second_pass(f: Seq<EntryView>, its: Seq<ItemView>, keep_target: bool, n: int)
    requires
        0 <= n <= its.len(),
        forall|m: int| 0 <= m < its.len() ==> answered(f, #[trigger] its[m]),
    ensures
        overlay(f, its.take(n), keep_target).len() == f.len(),
        forall|p: int|
            0 <= p < f.len() ==> same_but_target(#[trigger] overlay(f, its.take(n), keep_target)[p], f[p])
                && overlay(f, its.take(n), keep_target)[p].target_project == (match last_write(f, its, p, n) {
                Some(t) => Some(t),
                None => f[p].target_project,
            }),
    decreases n,
{
    if n == 0 {
        assert(its.take(0) =~= Seq::<ItemView>::empty());
    } else {
        lemma_second_pass(f, its, keep_target, n - 1);
        let g = overlay(f, its.take(n - 1), keep_target);
        let it = its[n - 1];
        assert(its.take(n).drop_last() =~= its.take(n - 1));
        assert(its.take(n).last() == it);
        assert(answered(f, it));
        let j0 = choose|j: int| 0 <= j < f.len() && #[trigger] answers(f[j], it);
        lemma_first_answer_exists(f, it, 0, j0);
        lemma_first_answer_stable(f, g, it, 0);
        lemma_first_answer_from_bound(f, it, 0);
    }
}

/// Merging the same intent twice gives what merging it once gave, when every
/// declared path is canonical and no declared exposed route names a target.
pub proof fn law_merge_twice_is_once(actual: ActualJson, intent: InterfacesYml)
    requires
        intent@.exposed matches Some(its) ==> overlay_repeatable(its, false),
        intent@.consumed matches Some(its) ==> overlay_repeatable(its, true),
    ensures
        merged(merged(actual@, intent@), intent@) == merged(actual@, intent@),
{
    match intent@.exposed {
        Some(its) => lemma_overlay_twice(actual@.exposed, its, false),
        None => {},
    }
    match intent@.consumed {
        Some(its) => lemma_overlay_twice(actual@.consumed, its, true),
        None => {},
    }
}

/// Overlaying the same repeatable declared routes twice is overlaying once.
proof fn lemma_overlay_twice(es: Seq<EntryView>, its: Seq<ItemView>, keep_target: bool)
    requires
        overlay_repeatable(its, keep_target),
    ensures
        overlay(overlay(es, its, keep_target), its, keep_target) == overlay(es, its, keep_target),
{
    let n = its.len() as int;
    assert(its.take(n) =~= its);
    let f = overlay(es, its, keep_target);
    lemma_first_pass(es, its, keep_target, n);
    assert forall|m: int| 0 <= m < its.len() implies answered(f, #[trigger] its[m]) by {
        lemma_overlay_answers(es, its, keep_target, m);
    }
    lemma_second_pass(f, its, keep_target, n);
    let g = overlay(f, its, keep_target);
    assert forall|p: int| 0 <= p < f.len() implies #[trigger] g[p] == f[p] by {
        assert(same_but_target(g[p], f[p]));
    }
    assert(g =~= f);
}

/// The text holds no `c`.
pub open spec fn lacks(s: Seq<char>, c: char) -> bool {
    forall|i: int| 0 <= i < s.len() ==> s[i] != c
}

/// Appending slash-free text extends the run in progress.
proof fn lemma_scan_run(y: Seq<char>, p: Seq<char>)
    requires
        lacks(p, '/'),
    ensures
        scan_parts(y + p) == (scan_parts(y).0, scan_parts(y).1 + p),
    decreases p.len(),
{
    if p.len() == 0 {
        assert(y + p =~= y);
        assert(scan_parts(y).1 + p =~= scan_parts(y).1);
    } else {
        let q = p.drop_last();
        assert(lacks(q, '/'));
        lemma_scan_run(y, q);
        assert((y + p).drop_last() =~= y + q);
        assert((y + p).last() == p.last());
        assert(scan_parts(y).1 + p =~= (scan_parts(y).1 + q).push(p.last()));
    }
}

/// A slash ends the run in progress; what follows is scanned afresh.
proof fn lemma_scan_split(x: Seq<char>, y: Seq<char>)
    ensures
        scan_parts(x + seq!['/'] + y) == (path_parts(x) + scan_parts(y).0, scan_parts(y).1),
    decreases y.len(),
{
    if y.len() == 0 {
        assert(x + seq!['/'] + y =~= x.push('/'));
        assert(x.push('/').drop_last() =~= x);
        assert(path_parts(x) + Seq::<Seq<char>>::empty() =~= path_parts(x));
    } else {
        let z = y.drop_last();
        lemma_scan_split(x, z);
        assert((x + seq!['/'] + y).drop_last() =~= x + seq!['/'] + z);
        assert((x + seq!['/'] + y).last() == y.last());
        let sz = scan_parts(z);
        if y.last() == '/' {
            if sz.1.len() > 0 {
                assert((path_parts(x) + sz.0).push(sz.1) =~= path_parts(x) + sz.0.push(sz.1));
            }
        }
    }
}

/// The pieces of two texts joined by a slash are the pieces of each.
pub proof fn lemma_parts_split(x: Seq<char>, y: Seq<char>)
    ensures
        path_parts(x + seq!['/'] + y) == path_parts(x) + path_parts(y),
{
    lemma_scan_split(x, y);
    let sy = scan_parts(y);
    if sy.1.len() > 0 {
        assert((path_parts(x) + sy.0).push(sy.1) =~= path_parts(x) + sy.0.push(sy.1));
    }
}

/// A non-empty slash-free text is one piece.
proof fn lemma_parts_single(p: Seq<char>)
    requires
        p.len() > 0,
        lacks(p, '/'),
    ensures
        path_parts(p) == seq![p],
{
    lemma_scan_run(Seq::empty(), p);
    assert(Seq::<char>::empty() + p =~= p);
    assert(Seq::<char>::empty() + p =~= p);
    assert(Seq::<Seq<char>>::empty().push(p) =~= seq![p]);
}

/// A segment that survives rendering and parsing: a non-empty slash-free
/// literal that does not look like a parameter, or a parameter whose name has
/// neither `/` nor `:`; no raw constraint.
pub open spec fn plain_segment(s: SegmentView) -> bool {
    ||| {
        &&& s.segment_type == literal_tag()
        &&& s.value matches Some(v) && v.len() > 0 && lacks(v, '/') && v[0] != ':' && !(v[0] == '{'
            && v.last() == '}')
        &&& s.name is None
        &&& s.raw_constraint is None
    }
    ||| {
        &&& s.segment_type == parameter_tag()
        &&& s.value is None
        &&& s.name matches Some(n) && lacks(n, '/') && lacks(n, ':')
        &&& s.raw_constraint is None
    }
}

/// The text of the piece that the brace-style rendering gives a segment.
spec fn brace_piece(s: SegmentView) -> Seq<char> {
    if s.segment_type == literal_tag() {
        s.value.unwrap()
    } else {
        seq!['{'] + s.name.unwrap() + seq!['}']
    }
}

/// The text of the piece that the colon-style rendering gives a segment.
spec fn colon_piece(s: SegmentView) -> Seq<char> {
    if s.segment_type == literal_tag() {
        s.value.unwrap()
    } else {
        seq![':'] + s.name.unwrap()
    }
}

/// Each piece of a plain segment is non-empty, slash-free and parses back.
proof fn lemma_plain_pieces(s: SegmentView)
    requires
        plain_segment(s),
    ensures
        brace_piece(s).len() > 0,
        lacks(brace_piece(s), '/'),
        segment_of_part(brace_piece(s)) == s,
        colon_piece(s).len() > 0,
        lacks(colon_piece(s), '/'),
        segment_of_part(colon_piece(s)) == s,
        path_piece(s) == seq!['/'] + brace_piece(s),
        display_piece(s) == seq!['/'] + colon_piece(s),
{
    assert(literal_tag().len() != parameter_tag().len());
    if s.segment_type == literal_tag() {
        let v = s.value.unwrap();
        assert(literal_segment(v) == s);
    } else {
        let n = s.name.unwrap();
        let b = seq!['{'] + n + seq!['}'];
        let c = seq![':'] + n;
        assert(lacks(b, '/')) by {
            assert forall|i: int| 0 <= i < b.len() implies b[i] != '/' by {
                if 0 < i < b.len() - 1 {
                    assert(b[i] == n[i - 1]);
                }
            }
        }
        assert(lacks(c, '/')) by {
            assert forall|i: int| 0 <= i < c.len() implies c[i] != '/' by {
                if i > 0 {
                    assert(c[i] == n[i - 1]);
                }
            }
        }
        assert(b.subrange(1, b.len() - 1) =~= n);
        lemma_first_field(n, n.len() as int);
        assert(n.take(n.len() as int) =~= n);
        assert(parameter_segment(n) == s);
        assert(c.subrange(1, c.len() as int) =~= n);
        assert(seq!['/', '{'] + n + seq!['}'] =~= seq!['/'] + b);
        assert(seq!['/', ':'] + n =~= seq!['/'] + c);
    }
}

/// Parsing a path rendered in either style gives back its segments, for
/// literal and parameter segments that survive the round trip: literals that
/// are non-empty, slash-free and do not look like parameters, parameters whose
/// names have neither `/` nor `:`, no raw constraints.
pub proof fn law_parse_rendered_path(segs: Seq<SegmentView>)
    requires
        forall|k: int| 0 <= k < segs.len() ==> plain_segment(#[trigger] segs[k]),
    ensures
        path_segments(path_of(segs)) == segs,
        path_segments(display_of(segs)) == segs,
    decreases segs.len(),
{
    if segs.len() == 0 {
        assert(path_segments(path_of(segs)) =~= segs);
        assert(path_segments(display_of(segs)) =~= segs);
    } else {
        let init = segs.drop_last();
        let last = segs.last();
        assert forall|k: int| 0 <= k < init.len() implies plain_segment(#[trigger] init[k]) by {
            assert(init[k] == segs[k]);
        }
        assert(plain_segment(segs[segs.len() - 1]));
        law_parse_rendered_path(init);
        lemma_plain_pieces(last);
        let bp = brace_piece(last);
        let cp = colon_piece(last);
        assert(path_of(segs) == path_of(init) + (seq!['/'] + bp));
        assert(path_of(init) + (seq!['/'] + bp) =~= path_of(init) + seq!['/'] + bp);
        lemma_parts_split(path_of(init), bp);
        lemma_parts_single(bp);
        let pp = path_parts(path_of(init));
        assert(pp.map_values(|p: Seq<char>| segment_of_part(p)) == init);
        assert(pp.len() == init.len());
        assert(path_parts(path_of(segs)) == pp + seq![bp]);
        assert forall|k: int| 0 <= k < segs.len() implies #[trigger] path_segments(path_of(segs))[k] == segs[k] by {
            if k < init.len() {
                assert((pp + seq![bp])[k] == pp[k]);
                assert(pp.map_values(|p: Seq<char>| segment_of_part(p))[k] == segment_of_part(pp[k]));
            } else {
                assert((pp + seq![bp])[k] == bp);
            }
        }
        assert(path_segments(path_of(segs)) =~= segs);
        assert(display_of(segs) == display_of(init) + (seq!['/'] + cp));
        assert(display_of(init) + (seq!['/'] + cp) =~= display_of(init) + seq!['/'] + cp);
        lemma_parts_split(display_of(init), cp);
        lemma_parts_single(cp);
        let dp = path_parts(display_of(init));
        assert(dp.map_values(|p: Seq<char>| segment_of_part(p)) == init);
        assert(dp.len() == init.len());
        assert(path_parts(display_of(segs)) == dp + seq![cp]);
        assert forall|k: int| 0 <= k < segs.len() implies #[trigger] path_segments(display_of(segs))[k] == segs[k] by {
            if k < init.len() {
                assert((dp + seq![cp])[k] == dp[k]);
                assert(dp.map_values(|p: Seq<char>| segment_of_part(p))[k] == segment_of_part(dp[k]));
            } else {
                assert((dp + seq![cp])[k] == cp);
            }
        }
        assert(path_segments(display_of(segs)) =~= segs);
    }
}

/// The pieces of `a` + `/` + `q` + `b`, where `q` is one piece and `b` is
/// empty or starts a new piece.
proof fn lemma_parts_around(a: Seq<char>, q: Seq<char>, b: Seq<char>)
    requires
        q.len() > 0,
        lacks(q, '/'),
        b.len() == 0 || b[0] == '/',
    ensures
        path_parts(a + seq!['/'] + q + b) == path_parts(a) + seq![q] + (if b.len() == 0 {
            Seq::<Seq<char>>::empty()
        } else {
            path_parts(b.drop_first())
        }),
{
    lemma_parts_single(q);
    if b.len() == 0 {
        assert(a + seq!['/'] + q + b =~= a + seq!['/'] + q);
        lemma_parts_split(a, q);
        assert(path_parts(a) + seq![q] + Seq::<Seq<char>>::empty() =~= path_parts(a) + seq![q]);
    } else {
        let rest = b.drop_first();
        assert(a + seq!['/'] + q + b =~= a + seq!['/'] + (q + seq!['/'] + rest));
        lemma_parts_split(a, q + seq!['/'] + rest);
        lemma_parts_split(q, rest);
        assert(path_parts(a) + (seq![q] + path_parts(rest)) =~= path_parts(a) + seq![q] + path_parts(rest));
    }
}

/// The three spellings of a parameter, `:n`, `{n}` and `{n:c}`, parse alike,
/// wherever they stand in a path (followed by nothing or by another `/` piece).
pub proof fn law_parameter_spellings(a: Seq<char>, n: Seq<char>, c: Seq<char>, b: Seq<char>)
    requires
        lacks(n, '/'),
        lacks(n, ':'),
        lacks(c, '/'),
        b.len() == 0 || b[0] == '/',
    ensures
        path_segments(a + seq!['/', ':'] + n + b) == path_segments(a + seq!['/', '{'] + n + seq!['}'] + b),
        path_segments(a + seq!['/', '{'] + n + seq![':'] + c + seq!['}'] + b) == path_segments(
            a + seq!['/', '{'] + n + seq!['}'] + b,
        ),
{
    let q1 = seq![':'] + n;
    let q2 = seq!['{'] + n + seq!['}'];
    let q3 = seq!['{'] + n + seq![':'] + c + seq!['}'];
    assert(lacks(q1, '/')) by {
        assert forall|i: int| 0 <= i < q1.len() implies q1[i] != '/' by {
            if i > 0 {
                assert(q1[i] == n[i - 1]);
            }
        }
    }
    assert(lacks(q2, '/')) by {
        assert forall|i: int| 0 <= i < q2.len() implies q2[i] != '/' by {
            if 0 < i < q2.len() - 1 {
                assert(q2[i] == n[i - 1]);
            }
        }
    }
    assert(lacks(q3, '/')) by {
        assert forall|i: int| 0 <= i < q3.len() implies q3[i] != '/' by {
            if 0 < i <= n.len() {
                assert(q3[i] == n[i - 1]);
            } else if n.len() + 1 < i < q3.len() - 1 {
                assert(q3[i] == c[i - n.len() - 2]);
            }
        }
    }
    assert(a + seq!['/', ':'] + n + b =~= a + seq!['/'] + q1 + b);
    assert(a + seq!['/', '{'] + n + seq!['}'] + b =~= a + seq!['/'] + q2 + b);
    assert(a + seq!['/', '{'] + n + seq![':'] + c + seq!['}'] + b =~= a + seq!['/'] + q3 + b);
    lemma_parts_around(a, q1, b);
    lemma_parts_around(a, q2, b);
    lemma_parts_around(a, q3, b);
    assert(q1.subrange(1, q1.len() as int) =~= n);
    assert(q2.subrange(1, q2.len() - 1) =~= n);
    lemma_first_field(n, n.len() as int);
    assert(n.take(n.len() as int) =~= n);
    let inner3 = q3.subrange(1, q3.len() - 1);
    assert(inner3 =~= n + seq![':'] + c);
    assert forall|i: int| 0 <= i < n.len() implies inner3[i] != ':' by {
        assert(inner3[i] == n[i]);
    }
    lemma_first_field(inner3, n.len() as int);
    assert(inner3.take(n.len() as int) =~= n);
    assert(segment_of_part(q1) == parameter_segment(n));
    assert(segment_of_part(q2) == parameter_segment(n));
    assert(segment_of_part(q3) == parameter_segment(n));
    let tail = if b.len() == 0 { Seq::<Seq<char>>::empty() } else { path_parts(b.drop_first()) };
    let p1 = path_parts(a) + seq![q1] + tail;
    let p2 = path_parts(a) + seq![q2] + tail;
    let p3 = path_parts(a) + seq![q3] + tail;
    assert(p1.map_values(|p: Seq<char>| segment_of_part(p)) =~= p2.map_values(|p: Seq<char>| segment_of_part(p)));
    assert(p3.map_values(|p: Seq<char>| segment_of_part(p)) =~= p2.map_values(|p: Seq<char>| segment_of_part(p)));
}

} // verus!
