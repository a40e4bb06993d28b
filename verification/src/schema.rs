//! The topography map's schema: project nodes, alignments, edges and
//! anomalies, with their mathematical models.
use vstd::prelude::*;
use std::collections::HashMap;
use crate::intent::{ActualJson, ActualView, actual_renderable};

verus! {

/// The declared layout of a workspace: project names and their locations.
#[derive(Debug)]
pub struct LunarMapConfig {
    pub projects: HashMap<String, String>,
}

/// A rendered route of a project: its path and method.
#[derive(Debug)]
pub struct InterfaceRef {
    pub path: String,
    pub method: String,
}

/// A rendered consumed route: its path, method and the project it calls
/// (`unknown` where none is named).
#[derive(Debug)]
pub struct ConsumedRef {
    pub path: String,
    pub method: String,
    pub target_project: String,
}

/// The rendered interface of a project.
#[derive(Debug)]
pub struct ProjectInterfaces {
    pub exposed: Vec<InterfaceRef>,
    pub consumed: Vec<ConsumedRef>,
}

/// A project node of the map.
#[derive(Debug)]
pub struct ProjectInfo {
    pub name: String,
    pub project_type: String,
    pub sha: String,
    pub scan_status: String,
    pub interfaces: ProjectInterfaces,
    pub path: Option<String>,
}

/// How one consumed route lines up with the routes that servers expose.
#[derive(Debug)]
pub struct AlignmentEntry {
    pub client_project: String,
    pub server_project: String,
    pub path: String,
    pub method: String,
    pub status: String,
    pub warning: Option<String>,
}

/// A connection between a consumed route of the client (by its position) and
/// an exposed route of the server (by its position).
#[derive(Debug)]
pub struct PortConnection {
    pub path: String,
    pub method: String,
    pub status: String,
    pub source_port_index: usize,
    pub target_port_index: usize,
}

/// All alignments from one client project to one server project.
#[derive(Debug)]
pub struct AggregatedEdge {
    pub client_project: String,
    pub server_project: String,
    pub call_count: usize,
    pub status: String,
    pub paths: Vec<String>,
    pub ports: Vec<PortConnection>,
}

/// A route of a project named in an anomaly.
#[derive(Debug)]
pub struct AnomalyEndpoint {
    pub project: String,
    pub path: String,
    pub method: String,
}

/// The architectural risks found in the facts.
#[derive(Debug)]
pub struct Anomalies {
    pub unused_endpoints: Vec<AnomalyEndpoint>,
    pub orphaned_consumers: Vec<AnomalyEndpoint>,
    pub cross_layer_violations: Vec<serde_json::Value>,
}

/// The whole topography map.
#[derive(Debug)]
pub struct LunarMap {
    pub version: String,
    pub projects: Vec<ProjectInfo>,
    pub alignments: Vec<AlignmentEntry>,
    pub aggregated_edges: Vec<AggregatedEdge>,
    pub anomalies: Anomalies,
}

/// The model of an [`InterfaceRef`] or of a [`ConsumedRef`] (whose target is then
/// the third component).
pub struct RefView {
    pub path: Seq<char>,
    pub method: Seq<char>,
    pub target_project: Seq<char>,
}

/// The model of [`ProjectInfo`].
pub struct ProjectView {
    pub name: Seq<char>,
    pub project_type: Seq<char>,
    pub sha: Seq<char>,
    pub scan_status: Seq<char>,
    pub exposed: Seq<RefView>,
    pub consumed: Seq<RefView>,
    pub path: Option<Seq<char>>,
}

/// The model of [`AlignmentEntry`].
pub struct AlignView {
    pub client_project: Seq<char>,
    pub server_project: Seq<char>,
    pub path: Seq<char>,
    pub method: Seq<char>,
    pub status: Seq<char>,
    pub warning: Option<Seq<char>>,
}

/// The model of [`PortConnection`].
pub struct PortView {
    pub path: Seq<char>,
    pub method: Seq<char>,
    pub status: Seq<char>,
    pub source_port_index: int,
    pub target_port_index: int,
}

/// The model of [`AggregatedEdge`].
pub struct EdgeView {
    pub client_project: Seq<char>,
    pub server_project: Seq<char>,
    pub call_count: int,
    pub status: Seq<char>,
    pub paths: Seq<Seq<char>>,
    pub ports: Seq<PortView>,
}

/// The model of [`AnomalyEndpoint`].
pub struct EndpointView {
    pub project: Seq<char>,
    pub path: Seq<char>,
    pub method: Seq<char>,
}

impl View for InterfaceRef {
    type V = RefView;

    open spec fn view(&self) -> RefView {
        RefView { path: self.path@, method: self.method@, target_project: Seq::empty() }
    }
}

impl View for ConsumedRef {
    type V = RefView;

    open spec fn view(&self) -> RefView {
        RefView { path: self.path@, method: self.method@, target_project: self.target_project@ }
    }
}

impl View for ProjectInfo {
    type V = ProjectView;

    open spec fn view(&self) -> ProjectView {
        ProjectView {
            name: self.name@,
            project_type: self.project_type@,
            sha: self.sha@,
            scan_status: self.scan_status@,
            exposed: self.interfaces.exposed@.map_values(|r: InterfaceRef| r@),
            consumed: self.interfaces.consumed@.map_values(|r: ConsumedRef| r@),
            path: self.path.deep_view(),
        }
    }
}

impl View for AlignmentEntry {
    type V = AlignView;

    open spec fn view(&self) -> AlignView {
        AlignView {
            client_project: self.client_project@,
            server_project: self.server_project@,
            path: self.path@,
            method: self.method@,
            status: self.status@,
            warning: self.warning.deep_view(),
        }
    }
}

impl View for PortConnection {
    type V = PortView;

    open spec fn view(&self) -> PortView {
        PortView {
            path: self.path@,
            method: self.method@,
            status: self.status@,
            source_port_index: self.source_port_index as int,
            target_port_index: self.target_port_index as int,
        }
    }
}

impl View for AggregatedEdge {
    type V = EdgeView;

    open spec fn view(&self) -> EdgeView {
        EdgeView {
            client_project: self.client_project@,
            server_project: self.server_project@,
            call_count: self.call_count as int,
            status: self.status@,
            paths: self.paths.deep_view(),
            ports: self.ports@.map_values(|p: PortConnection| p@),
        }
    }
}

impl View for AnomalyEndpoint {
    type V = EndpointView;

    open spec fn view(&self) -> EndpointView {
        EndpointView { project: self.project@, path: self.path@, method: self.method@ }
    }
}

/// The models of a list of alignments.
pub open spec fn aligns_view(v: Seq<AlignmentEntry>) -> Seq<AlignView> {
    v.map_values(|a: AlignmentEntry| a@)
}

/// The models of a list of endpoints.
pub open spec fn endpoints_view(v: Seq<AnomalyEndpoint>) -> Seq<EndpointView> {
    v.map_values(|e: AnomalyEndpoint| e@)
}

/// The model of a listing of projects: names with their facts, in the order
/// in which they are listed.
pub open spec fn walk_view(v: Seq<(String, ActualJson)>) -> Seq<(Seq<char>, ActualView)> {
    v.map_values(|p: (String, ActualJson)| (p.0@, p.1@))
}

/// Every route of every project can be rendered as a path.
pub open spec fn all_renderable(ps: Seq<(Seq<char>, ActualView)>) -> bool {
    forall|i: int| 0 <= i < ps.len() ==> #[trigger] actual_renderable(ps[i].1)
}

/// The model of a map from names to texts.
pub open spec fn text_map(m: Map<Seq<char>, String>) -> Map<Seq<char>, Seq<char>> {
    m.map_values(|s: String| s@)
}

} // verus!
