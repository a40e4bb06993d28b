//! Route facts: path segments, route entries, and the paths and identities
//! rendered from them.
use vstd::prelude::*;
use crate::text::{
    literal_tag, parameter_tag, wildcard_tag, literal_text, parameter_text, wildcard_text,
    append_slash,
};

verus! {

/// One unit of a route path: a literal, a named parameter or a wildcard.
#[derive(Debug, Clone, PartialEq)]
pub struct RouteSegment {
    pub segment_type: String,
    pub value: Option<String>,
    pub name: Option<String>,
    pub raw_constraint: Option<String>,
}

/// The mathematical model of a segment.
pub struct SegmentView {
    pub segment_type: Seq<char>,
    pub value: Option<Seq<char>>,
    pub name: Option<Seq<char>>,
    pub raw_constraint: Option<Seq<char>>,
}

impl View for RouteSegment {
    type V = SegmentView;

    open spec fn view(&self) -> SegmentView {
        SegmentView {
            segment_type: self.segment_type@,
            value: self.value.deep_view(),
            name: self.name.deep_view(),
            raw_constraint: self.raw_constraint.deep_view(),
        }
    }
}

/// An endpoint extracted from source: method, segments and source location.
#[derive(Debug, Clone)]
pub struct RouteEntry {
    pub method: String,
    pub segments: Vec<RouteSegment>,
    pub source_file: String,
    pub line_number: u32,
    pub extraction_method: String,
    pub target_project: Option<String>,
}

/// The mathematical model of a route entry.
pub struct EntryView {
    pub method: Seq<char>,
    pub segments: Seq<SegmentView>,
    pub source_file: Seq<char>,
    pub line_number: u32,
    pub extraction_method: Seq<char>,
    pub target_project: Option<Seq<char>>,
}

impl View for RouteEntry {
    type V = EntryView;

    open spec fn view(&self) -> EntryView {
        EntryView {
            method: self.method@,
            segments: self.segments@.map_values(|s: RouteSegment| s@),
            source_file: self.source_file@,
            line_number: self.line_number,
            extraction_method: self.extraction_method@,
            target_project: self.target_project.deep_view(),
        }
    }
}

/// A segment can be rendered: a literal carries its value, a parameter its name.
pub open spec fn segment_renderable(seg: SegmentView) -> bool {
    &&& seg.segment_type == literal_tag() ==> seg.value is Some
    &&& seg.segment_type == parameter_tag() ==> seg.name is Some
}

/// Every segment of the sequence can be rendered.
pub open spec fn segments_renderable(segs: Seq<SegmentView>) -> bool {
    forall|i: int| 0 <= i < segs.len() ==> #[trigger] segment_renderable(segs[i])
}

/// What one segment contributes to the brace-style path (`/users/{id}/*`).
pub open spec fn path_piece(seg: SegmentView) -> Seq<char> {
    if seg.segment_type == literal_tag() {
        seq!['/'] + seg.value.unwrap()
    } else if seg.segment_type == parameter_tag() {
        seq!['/', '{'] + seg.name.unwrap() + seq!['}']
    } else if seg.segment_type == wildcard_tag() {
        seq!['/', '*']
    } else {
        Seq::empty()
    }
}

/// The brace-style path of a sequence of segments.
pub open spec fn path_of(segs: Seq<SegmentView>) -> Seq<char>
    decreases segs.len(),
{
    if segs.len() == 0 {
        Seq::empty()
    } else {
        path_of(segs.drop_last()) + path_piece(segs.last())
    }
}

/// What one segment contributes to the colon-style path (`/users/:id/*`).
pub open spec fn display_piece(seg: SegmentView) -> Seq<char> {
    if seg.segment_type == literal_tag() {
        seq!['/'] + seg.value.unwrap()
    } else if seg.segment_type == parameter_tag() {
        seq!['/', ':'] + seg.name.unwrap()
    } else if seg.segment_type == wildcard_tag() {
        seq!['/', '*']
    } else {
        Seq::empty()
    }
}

/// The colon-style path of a sequence of segments.
pub open spec fn display_of(segs: Seq<SegmentView>) -> Seq<char>
    decreases segs.len(),
{
    if segs.len() == 0 {
        Seq::empty()
    } else {
        display_of(segs.drop_last()) + display_piece(segs.last())
    }
}

/// The segment kinds joined by `:`.
pub open spec fn structural_id_of(segs: Seq<SegmentView>) -> Seq<char>
    decreases segs.len(),
{
    if segs.len() == 0 {
        Seq::empty()
    } else if segs.len() == 1 {
        segs[0].segment_type
    } else {
        structural_id_of(segs.drop_last()) + seq![':'] + segs.last().segment_type
    }
}

/// The names of the parameters among the first `n` positions where both
/// segment sequences hold a parameter; a missing name counts as empty.
pub open spec fn aligned_names_upto(a: Seq<SegmentView>, b: Seq<SegmentView>, n: nat) -> Seq<Seq<char>>
    decreases n,
{
    if n == 0 {
        Seq::empty()
    } else {
        let i = n - 1;
        let rest = aligned_names_upto(a, b, (n - 1) as nat);
        if a[i].segment_type == parameter_tag() && b[i].segment_type == parameter_tag() {
            rest.push(name_or_empty(a[i].name))
        } else {
            rest
        }
    }
}

/// The shorter of two lengths.
pub open spec fn min_len(x: nat, y: nat) -> nat {
    if x <= y { x } else { y }
}

/// The names (taken from `a`) of the parameters that stand at the same position
/// in both segment sequences, as far as the shorter one reaches.
pub open spec fn aligned_names(a: Seq<SegmentView>, b: Seq<SegmentView>) -> Seq<Seq<char>> {
    aligned_names_upto(a, b, min_len(a.len(), b.len()))
}

/// A name, or the empty text where there is none.
pub open spec fn name_or_empty(n: Option<Seq<char>>) -> Seq<char> {
    match n {
        Some(s) => s,
        None => Seq::empty(),
    }
}

impl RouteEntry {
    /// The entry can be rendered as a path.
    pub open spec fn renderable(&self) -> bool {
        segments_renderable(self@.segments)
    }

    /// Renders the path with parameters in braces: `/users/{id}/*`.
    /// Segments of an unknown kind contribute nothing.
    pub fn to_path(&self) -> (path: String)
        requires
            self.renderable(),
        ensures
            path@ == path_of(self@.segments),
    {
        let lit = literal_text();
        let param = parameter_text();
        let wild = wildcard_text();
        let mut path = String::new();
        let mut i: usize = 0;
        while i < self.segments.len()
            invariant
                i <= self.segments.len(),
                self.renderable(),
                lit@ == literal_tag(),
                param@ == parameter_tag(),
                wild@ == wildcard_tag(),
                path@ == path_of(self@.segments.take(i as int)),
            decreases self.segments.len() - i,
        {
            let seg = &self.segments[i];
            let ghost sv = self@.segments[i as int];
            assert(segment_renderable(sv));
            let ghost before = path@;
            if seg.segment_type == lit {
                append_slash(&mut path);
                match &seg.value {
                    Some(v) => path.append(v.as_str()),
                    None => {},
                }
            } else if seg.segment_type == param {
                proof {
                    reveal_strlit("/{");
                    reveal_strlit("}");
                }
                path.append("/{");
                match &seg.name {
                    Some(n) => path.append(n.as_str()),
                    None => {},
                }
                path.append("}");
            } else if seg.segment_type == wild {
                proof {
                    reveal_strlit("/*");
                }
                path.append("/*");
            }
            assert(path@ =~= before + path_piece(sv));
            assert(self@.segments.take(i + 1).drop_last() =~= self@.segments.take(i as int));
            i = i + 1;
        }
        assert(self@.segments.take(i as int) =~= self@.segments);
        path
    }

    /// Renders the path with parameters after a colon: `/users/:id/*`.
    /// Segments of an unknown kind contribute nothing.
    pub fn display_path(&self) -> (path: String)
        requires
            self.renderable(),
        ensures
            path@ == display_of(self@.segments),
    {
        let lit = literal_text();
        let param = parameter_text();
        let wild = wildcard_text();
        let mut path = String::new();
        let mut i: usize = 0;
        while i < self.segments.len()
            invariant
                i <= self.segments.len(),
                self.renderable(),
                lit@ == literal_tag(),
                param@ == parameter_tag(),
                wild@ == wildcard_tag(),
                path@ == display_of(self@.segments.take(i as int)),
            decreases self.segments.len() - i,
        {
            let seg = &self.segments[i];
            let ghost sv = self@.segments[i as int];
            assert(segment_renderable(sv));
            let ghost before = path@;
            if seg.segment_type == lit {
                append_slash(&mut path);
                match &seg.value {
                    Some(v) => path.append(v.as_str()),
                    None => {},
                }
            } else if seg.segment_type == param {
                proof {
                    reveal_strlit("/:");
                }
                path.append("/:");
                match &seg.name {
                    Some(n) => path.append(n.as_str()),
                    None => {},
                }
            } else if seg.segment_type == wild {
                proof {
                    reveal_strlit("/*");
                }
                path.append("/*");
            }
            assert(path@ =~= before + display_piece(sv));
            assert(self@.segments.take(i + 1).drop_last() =~= self@.segments.take(i as int));
            i = i + 1;
        }
        assert(self@.segments.take(i as int) =~= self@.segments);
        path
    }

    /// The segment kinds joined by `:`, e.g. `literal:parameter`.
    pub fn structural_id(&self) -> (id: String)
        ensures
            id@ == structural_id_of(self@.segments),
    {
        let mut id = String::new();
        let mut i: usize = 0;
        while i < self.segments.len()
            invariant
                i <= self.segments.len(),
                id@ == structural_id_of(self@.segments.take(i as int)),
            decreases self.segments.len() - i,
        {
            let ghost before = id@;
            let ghost segs = self@.segments.take(i + 1);
            if i == 0 {
                id.append(self.segments[i].segment_type.as_str());
                assert(id@ =~= structural_id_of(segs));
            } else {
                proof {
                    reveal_strlit(":");
                }
                id.append(":");
                id.append(self.segments[i].segment_type.as_str());
                assert(segs.drop_last() =~= self@.segments.take(i as int));
                assert(id@ =~= structural_id_of(segs));
            }
            i = i + 1;
        }
        assert(self@.segments.take(i as int) =~= self@.segments);
        id
    }

    /// The names of the parameters of `self` that stand where `other` has a
    /// parameter too, position by position up to the shorter of the two.
    pub fn get_aligned_parameter_names(&self, other: &RouteEntry) -> (names: Vec<String>)
        ensures
            names.deep_view() == aligned_names(self@.segments, other@.segments),
    {
        let param = parameter_text();
        let len = if self.segments.len() <= other.segments.len() {
            self.segments.len()
        } else {
            other.segments.len()
        };
        let mut names: Vec<String> = Vec::new();
        let mut i: usize = 0;
        while i < len
            invariant
                i <= len,
                len == min_len(self@.segments.len(), other@.segments.len()),
                param@ == parameter_tag(),
                names.deep_view() == aligned_names_upto(self@.segments, other@.segments, i as nat),
            decreases len - i,
        {
            let a = &self.segments[i];
            let b = &other.segments[i];
            if a.segment_type == param && b.segment_type == param {
                let n = match &a.name {
                    Some(n) => n.clone(),
                    None => String::new(),
                };
                names.push(n);
            }
            assert(names.deep_view() =~= aligned_names_upto(self@.segments, other@.segments, (i + 1) as nat));
            i = i + 1;
        }
        names
    }
}

impl RouteEntry {
    /// Whether the entry can be rendered as a path: every literal segment has
    /// a value and every parameter segment a name.
    pub fn is_renderable(&self) -> (r: bool)
        ensures
            r == self.renderable(),
    {
        let lit = literal_text();
        let param = parameter_text();
        let mut i: usize = 0;
        while i < self.segments.len()
            invariant
                i <= self.segments.len(),
                lit@ == literal_tag(),
                param@ == parameter_tag(),
                forall|k: int| 0 <= k < i ==> #[trigger] segment_renderable(self@.segments[k]),
            decreases self.segments.len() - i,
        {
            let seg = &self.segments[i];
            assert(self@.segments[i as int] == seg@);
            if seg.segment_type == lit && seg.value.is_none() {
                assert(!segment_renderable(self@.segments[i as int]));
                return false;
            }
            if seg.segment_type == param && seg.name.is_none() {
                assert(!segment_renderable(self@.segments[i as int]));
                return false;
            }
            i = i + 1;
        }
        true
    }
}

/// Without parameters, the brace-style and the colon-style path are the same.
pub proof fn law_renderings_agree_without_parameters(r: RouteEntry)
    requires
        forall|k: int| 0 <= k < r@.segments.len() ==> (#[trigger] r@.segments[k]).segment_type != parameter_tag(),
    ensures
        path_of(r@.segments) == display_of(r@.segments),
{
    lemma_renderings_agree(r@.segments);
}

/// Both renderings agree on segments without parameters.
proof fn lemma_renderings_agree(segs: Seq<SegmentView>)
    requires
        forall|k: int| 0 <= k < segs.len() ==> (#[trigger] segs[k]).segment_type != parameter_tag(),
    ensures
        path_of(segs) == display_of(segs),
    decreases segs.len(),
{
    if segs.len() > 0 {
        let init = segs.drop_last();
        assert forall|k: int| 0 <= k < init.len() implies (#[trigger] init[k]).segment_type != parameter_tag() by {
            assert(init[k] == segs[k]);
        }
        lemma_renderings_agree(init);
        assert(segs[segs.len() - 1] == segs.last());
    }
}

/// A copy of an optional string with the same content.
pub(crate) fn copy_opt_string(o: &Option<String>) -> (r: Option<String>)
    ensures
        r.deep_view() == o.deep_view(),
{
    match o {
        Some(s) => Some(s.clone()),
        None => None,
    }
}

impl RouteSegment {
    /// A copy of the segment with the same content.
    pub(crate) fn duplicate(&self) -> (r: RouteSegment)
        ensures
            r@ == self@,
    {
        RouteSegment {
            segment_type: self.segment_type.clone(),
            value: copy_opt_string(&self.value),
            name: copy_opt_string(&self.name),
            raw_constraint: copy_opt_string(&self.raw_constraint),
        }
    }
}

impl RouteEntry {
    /// A copy of the entry with the same content.
    pub(crate) fn duplicate(&self) -> (r: RouteEntry)
        ensures
            r@ == self@,
    {
        let mut segments: Vec<RouteSegment> = Vec::new();
        let mut i: usize = 0;
        while i < self.segments.len()
            invariant
                i <= self.segments.len(),
                segments@.len() == i,
                forall|j: int| 0 <= j < i ==> #[trigger] segments@[j]@ == self.segments@[j]@,
            decreases self.segments.len() - i,
        {
            segments.push(self.segments[i].duplicate());
            i = i + 1;
        }
        let r = RouteEntry {
            method: self.method.clone(),
            segments,
            source_file: self.source_file.clone(),
            line_number: self.line_number,
            extraction_method: self.extraction_method.clone(),
            target_project: copy_opt_string(&self.target_project),
        };
        assert(r@.segments =~= self@.segments);
        r
    }
}

/// The models of a sequence of entries.
pub open spec fn entries_view(rs: Seq<RouteEntry>) -> Seq<EntryView> {
    rs.map_values(|r: RouteEntry| r@)
}

/// A copy of a sequence of entries with the same content.
pub(crate) fn duplicate_entries(rs: &[RouteEntry]) -> (r: Vec<RouteEntry>)
    ensures
        entries_view(r@) == entries_view(rs@),
{
    let mut out: Vec<RouteEntry> = Vec::new();
    let mut i: usize = 0;
    while i < rs.len()
        invariant
            i <= rs@.len(),
            out@.len() == i,
            forall|j: int| 0 <= j < i ==> #[trigger] out@[j]@ == rs@[j]@,
        decreases rs@.len() - i,
    {
        out.push(rs[i].duplicate());
        i = i + 1;
    }
    assert(entries_view(out@) =~= entries_view(rs@));
    out
}

} // verus!
