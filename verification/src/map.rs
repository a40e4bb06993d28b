//! Building the topography map: project nodes, alignments, aggregated edges
//! and anomalies.
use vstd::prelude::*;
use vstd::hash_map::StringHashMap;
use crate::route::{RouteEntry, EntryView, path_of, segments_renderable, entries_view, structural_id_of};
use crate::intent::{ActualJson, ActualView, actual_renderable, entries_renderable};
use crate::schema::{
    ProjectInfo, ProjectInterfaces, InterfaceRef, ConsumedRef, AlignmentEntry, PortConnection,
    AggregatedEdge, AnomalyEndpoint, Anomalies, LunarMap, RefView, ProjectView, AlignView, PortView,
    EdgeView, EndpointView, aligns_view, endpoints_view, walk_view, all_renderable, text_map,
};
use crate::align::{
    align_consumed_route, aggregate_of, aggregate_status, orphaned_status, alignment_status,
    matched_route, target_of, find_server_route, lemma_best_server_bound,
};
use crate::names::{by_name, name_less, name_before, lemma_insert_by_name, lemma_by_name};

verus! {

// ---------- project nodes ----------

/// The rendered form of an exposed route.
pub open spec fn exposed_ref(e: EntryView) -> RefView {
    RefView { path: path_of(e.segments), method: e.method, target_project: Seq::empty() }
}

/// The rendered form of a consumed route; `unknown` stands for a missing target.
pub open spec fn consumed_ref(e: EntryView) -> RefView {
    RefView { path: path_of(e.segments), method: e.method, target_project: server_name_of(e) }
}

/// The project a consumed route is aimed at, or `unknown`.
pub open spec fn server_name_of(e: EntryView) -> Seq<char> {
    match e.target_project {
        Some(t) => t,
        None => "unknown"@,
    }
}

/// The node of a project: its type (`mixed` where none is known), its scan
/// status (`success` where none is recorded), its rendered routes and its
/// location where one is known.
pub open spec fn project_view(
    name: Seq<char>,
    a: ActualView,
    scan: Map<Seq<char>, Seq<char>>,
    paths: Map<Seq<char>, Seq<char>>,
) -> ProjectView {
    ProjectView {
        name,
        project_type: match a.project_type {
            Some(t) => t,
            None => "mixed"@,
        },
        sha: "unknown"@,
        scan_status: if scan.contains_key(name) { scan[name] } else { "success"@ },
        exposed: a.exposed.map_values(|e: EntryView| exposed_ref(e)),
        consumed: a.consumed.map_values(|e: EntryView| consumed_ref(e)),
        path: if paths.contains_key(name) { Some(paths[name]) } else { None },
    }
}

/// A copy of a text held in a map of texts, if the key is present.
fn lookup_text(m: &StringHashMap<String>, key: &str) -> (r: Option<String>)
    ensures
        r.deep_view() == (if text_map(m@).contains_key(key@) {
            Some(text_map(m@)[key@])
        } else {
            None
        }),
{
    match m.get(key) {
        Some(v) => Some(v.clone()),
        None => None,
    }
}

/// The node of one project.
fn project_info(
    name: &String,
    actual: &ActualJson,
    scan_statuses: &StringHashMap<String>,
    project_paths: &StringHashMap<String>,
) -> (info: ProjectInfo)
    requires
        actual_renderable(actual@),
    ensures
        info@ == project_view(name@, actual@, text_map(scan_statuses@), text_map(project_paths@)),
{
    let scan_status = match lookup_text(scan_statuses, name.as_str()) {
        Some(s) => s,
        None => "success".to_owned(),
    };
    let project_type = match &actual.project_type {
        Some(t) => t.clone(),
        None => "mixed".to_owned(),
    };
    let mut exposed: Vec<InterfaceRef> = Vec::new();
    let mut i: usize = 0;
    while i < actual.exposed.len()
        invariant
            i <= actual.exposed@.len(),
            actual_renderable(actual@),
            exposed@.len() == i,
            forall|k: int| 0 <= k < i ==> #[trigger] exposed@[k]@ == exposed_ref(actual@.exposed[k]),
        decreases actual.exposed@.len() - i,
    {
        assert(segments_renderable(actual@.exposed[i as int].segments));
        let r = &actual.exposed[i];
        exposed.push(InterfaceRef { path: r.to_path(), method: r.method.clone() });
        i = i + 1;
    }
    let mut consumed: Vec<ConsumedRef> = Vec::new();
    let mut i: usize = 0;
    while i < actual.consumed.len()
        invariant
            i <= actual.consumed@.len(),
            actual_renderable(actual@),
            consumed@.len() == i,
            forall|k: int| 0 <= k < i ==> #[trigger] consumed@[k]@ == consumed_ref(actual@.consumed[k]),
        decreases actual.consumed@.len() - i,
    {
        assert(segments_renderable(actual@.consumed[i as int].segments));
        let r = &actual.consumed[i];
        let target = match &r.target_project {
            Some(t) => t.clone(),
            None => "unknown".to_owned(),
        };
        consumed.push(ConsumedRef { path: r.to_path(), method: r.method.clone(), target_project: target });
        i = i + 1;
    }
    let info = ProjectInfo {
        name: name.clone(),
        project_type,
        sha: "unknown".to_owned(),
        scan_status,
        interfaces: ProjectInterfaces { exposed, consumed },
        path: lookup_text(project_paths, name.as_str()),
    };
    assert(info@.exposed =~= actual@.exposed.map_values(|e: EntryView| exposed_ref(e)));
    assert(info@.consumed =~= actual@.consumed.map_values(|e: EntryView| consumed_ref(e)));
    info
}

/// The project nodes, one per project of the listing, in its order.
pub open spec fn projects_of(
    ps: Seq<(Seq<char>, ActualView)>,
    scan: Map<Seq<char>, Seq<char>>,
    paths: Map<Seq<char>, Seq<char>>,
) -> Seq<ProjectView> {
    ps.map_values(|p: (Seq<char>, ActualView)| project_view(p.0, p.1, scan, paths))
}

/// Builds the project nodes.
fn collect_projects(
    projects: &Vec<(String, ActualJson)>,
    scan_statuses: &StringHashMap<String>,
    project_paths: &StringHashMap<String>,
) -> (infos: Vec<ProjectInfo>)
    requires
        all_renderable(walk_view(projects@)),
    ensures
        infos@.map_values(|p: ProjectInfo| p@) == projects_of(
            walk_view(projects@),
            text_map(scan_statuses@),
            text_map(project_paths@),
        ),
{
    let ghost ps = walk_view(projects@);
    let mut infos: Vec<ProjectInfo> = Vec::new();
    let mut i: usize = 0;
    while i < projects.len()
        invariant
            i <= projects@.len(),
            ps == walk_view(projects@),
            all_renderable(ps),
            infos@.len() == i,
            forall|k: int|
                0 <= k < i ==> #[trigger] infos@[k]@ == project_view(
                    ps[k].0,
                    ps[k].1,
                    text_map(scan_statuses@),
                    text_map(project_paths@),
                ),
        decreases projects@.len() - i,
    {
        assert(actual_renderable(ps[i as int].1));
        let info = project_info(&projects[i].0, &projects[i].1, scan_statuses, project_paths);
        infos.push(info);
        i = i + 1;
    }
    assert(infos@.map_values(|p: ProjectInfo| p@) =~= projects_of(
        ps,
        text_map(scan_statuses@),
        text_map(project_paths@),
    ));
    infos
}

// ---------- alignments ----------

/// The project an alignment is recorded against: the server matched, or the
/// named target of an orphaned consumed route.
pub open spec fn server_of(c: EntryView, client: Seq<char>, ps: Seq<(Seq<char>, ActualView)>) -> Seq<char> {
    match matched_route(c, client, ps) {
        Some(m) => ps[m.0].0,
        None => target_of(c),
    }
}

/// The alignment recorded for one consumed route of `client`, if any.
pub open spec fn consumer_alignment(
    client: Seq<char>,
    c: EntryView,
    ps: Seq<(Seq<char>, ActualView)>,
) -> Option<AlignView> {
    let status = alignment_status(c, client, ps);
    if status.len() == 0 {
        None
    } else {
        Some(
            AlignView {
                client_project: client,
                server_project: server_of(c, client, ps),
                path: path_of(c.segments),
                method: c.method,
                status,
                warning: None,
            },
        )
    }
}

/// The alignments of the consumed routes of `client`, in their order.
pub open spec fn alignments_for(
    client: Seq<char>,
    cs: Seq<EntryView>,
    ps: Seq<(Seq<char>, ActualView)>,
) -> Seq<AlignView>
    decreases cs.len(),
{
    if cs.len() == 0 {
        Seq::empty()
    } else {
        let rest = alignments_for(client, cs.drop_last(), ps);
        match consumer_alignment(client, cs.last(), ps) {
            Some(a) => rest.push(a),
            None => rest,
        }
    }
}

/// The alignments of the first `n` projects of the listing, project by project.
pub open spec fn alignments_upto(ps: Seq<(Seq<char>, ActualView)>, n: int) -> Seq<AlignView>
    decreases n,
{
    if n <= 0 || n > ps.len() {
        Seq::empty()
    } else {
        alignments_upto(ps, n - 1) + alignments_for(ps[n - 1].0, ps[n - 1].1.consumed, ps)
    }
}

/// The alignments of all projects of the listing.
pub open spec fn alignments_of(ps: Seq<(Seq<char>, ActualView)>) -> Seq<AlignView> {
    alignments_upto(ps, ps.len() as int)
}

/// Aligns the consumed routes of every project, project by project.
fn collect_alignments(projects: &Vec<(String, ActualJson)>) -> (als: Vec<AlignmentEntry>)
    requires
        all_renderable(walk_view(projects@)),
    ensures
        aligns_view(als@) == alignments_of(walk_view(projects@)),
{
    let ghost ps = walk_view(projects@);
    let mut als: Vec<AlignmentEntry> = Vec::new();
    let mut i: usize = 0;
    while i < projects.len()
        invariant
            i <= projects@.len(),
            ps == walk_view(projects@),
            all_renderable(ps),
            aligns_view(als@) == alignments_upto(ps, i as int),
        decreases projects@.len() - i,
    {
        let client = &projects[i].0;
        let actual = &projects[i].1;
        assert(ps[i as int].0 == client@ && ps[i as int].1 == actual@);
        assert(actual_renderable(actual@));
        let ghost base = aligns_view(als@);
        let mut k: usize = 0;
        while k < actual.consumed.len()
            invariant
                k <= actual.consumed@.len(),
                ps == walk_view(projects@),
                actual_renderable(actual@),
                aligns_view(als@) == base + alignments_for(client@, actual@.consumed.take(k as int), ps),
            decreases actual.consumed@.len() - k,
        {
            let c = &actual.consumed[k];
            assert(segments_renderable(actual@.consumed[k as int].segments));
            assert(actual@.consumed.take(k + 1).drop_last() =~= actual@.consumed.take(k as int));
            assert(c@ == actual@.consumed[k as int]);
            let (status, _warning) = align_consumed_route(c, client.as_str(), projects);
            if !status.as_str().is_empty() {
                let server = match find_server_route(c, client.as_str(), projects) {
                    Some(m) => {
                        proof {
                            lemma_best_server_bound(
                                ps,
                                client@,
                                target_of(c@),
                                structural_id_of(c@.segments),
                                ps.len() as int,
                            );
                        }
                        assert(ps[m.0 as int].0 == projects@[m.0 as int].0@);
                        projects[m.0].0.clone()
                    },
                    None => match &c.target_project {
                        Some(t) => t.clone(),
                        None => String::new(),
                    },
                };
                let entry = AlignmentEntry {
                    client_project: client.clone(),
                    server_project: server,
                    path: c.to_path(),
                    method: c.method.clone(),
                    status,
                    warning: None,
                };
                let ghost ca = consumer_alignment(client@, c@, ps);
                assert(ca == Some(entry@));
                let ghost before = aligns_view(als@);
                als.push(entry);
                assert(aligns_view(als@) =~= before.push(entry@));
            }
            assert(aligns_view(als@) =~= base + alignments_for(client@, actual@.consumed.take(k + 1), ps));
            k = k + 1;
        }
        assert(actual@.consumed.take(k as int) =~= actual@.consumed);
        i = i + 1;
    }
    als
}

// ---------- aggregated edges ----------

/// The pair of projects an alignment connects.
pub open spec fn edge_key(a: AlignView) -> (Seq<char>, Seq<char>) {
    (a.client_project, a.server_project)
}

/// The distinct client/server pairs of the alignments, in order of first appearance.
pub open spec fn edge_keys(als: Seq<AlignView>) -> Seq<(Seq<char>, Seq<char>)>
    decreases als.len(),
{
    if als.len() == 0 {
        Seq::empty()
    } else {
        let ks = edge_keys(als.drop_last());
        if ks.contains(edge_key(als.last())) {
            ks
        } else {
            ks.push(edge_key(als.last()))
        }
    }
}

/// The alignments between the pair of projects, in their order.
pub open spec fn edge_group(als: Seq<AlignView>, key: (Seq<char>, Seq<char>)) -> Seq<AlignView> {
    als.filter(|a: AlignView| edge_key(a) == key)
}

/// The position of the first project of the listing with the given name.
pub open spec fn find_project_from(ps: Seq<(Seq<char>, ActualView)>, name: Seq<char>, k: int) -> Option<int>
    decreases ps.len() - k,
{
    if k < 0 || k >= ps.len() {
        None
    } else if ps[k].0 == name {
        Some(k)
    } else {
        find_project_from(ps, name, k + 1)
    }
}

/// The position of the project of the listing with the given name.
pub open spec fn find_project(ps: Seq<(Seq<char>, ActualView)>, name: Seq<char>) -> Option<int> {
    find_project_from(ps, name, 0)
}

/// The position of the first route at or after `k` with the given rendered path and method.
pub open spec fn find_port_from(es: Seq<EntryView>, path: Seq<char>, method: Seq<char>, k: int) -> Option<int>
    decreases es.len() - k,
{
    if k < 0 || k >= es.len() {
        None
    } else if path_of(es[k].segments) == path && es[k].method == method {
        Some(k)
    } else {
        find_port_from(es, path, method, k + 1)
    }
}

/// The position of the first route with the given rendered path and method.
pub open spec fn find_port(es: Seq<EntryView>, path: Seq<char>, method: Seq<char>) -> Option<int> {
    find_port_from(es, path, method, 0)
}

/// The port connections of a group of alignments: one for each alignment whose
/// path and method occur among the client's consumed routes and among the
/// server's exposed routes, at the first such positions.
pub open spec fn ports_of(cons: Seq<EntryView>, exps: Seq<EntryView>, group: Seq<AlignView>) -> Seq<PortView>
    decreases group.len(),
{
    if group.len() == 0 {
        Seq::empty()
    } else {
        let rest = ports_of(cons, exps, group.drop_last());
        let a = group.last();
        match (find_port(cons, a.path, a.method), find_port(exps, a.path, a.method)) {
            (Some(s), Some(t)) => rest.push(
                PortView { path: a.path, method: a.method, status: a.status, source_port_index: s, target_port_index: t },
            ),
            _ => rest,
        }
    }
}

/// The `METHOD path` label of an alignment.
pub open spec fn call_label(a: AlignView) -> Seq<char> {
    a.method + seq![' '] + a.path
}

/// The ports of a group, where both projects are in the listing.
pub open spec fn edge_ports(
    ps: Seq<(Seq<char>, ActualView)>,
    key: (Seq<char>, Seq<char>),
    group: Seq<AlignView>,
) -> Seq<PortView> {
    match (find_project(ps, key.0), find_project(ps, key.1)) {
        (Some(ci), Some(si)) => ports_of(ps[ci].1.consumed, ps[si].1.exposed, group),
        _ => Seq::empty(),
    }
}

/// The edge for a pair of projects and the group of their alignments.
pub open spec fn edge_view(
    ps: Seq<(Seq<char>, ActualView)>,
    key: (Seq<char>, Seq<char>),
    group: Seq<AlignView>,
) -> EdgeView {
    EdgeView {
        client_project: key.0,
        server_project: key.1,
        call_count: group.len() as int,
        status: aggregate_of(group.map_values(|a: AlignView| a.status)),
        paths: group.map_values(|a: AlignView| call_label(a)),
        ports: edge_ports(ps, key, group),
    }
}

/// One edge per distinct client/server pair of the alignments, in order of first appearance.
pub open spec fn edges_of(ps: Seq<(Seq<char>, ActualView)>, als: Seq<AlignView>) -> Seq<EdgeView> {
    edge_keys(als).map_values(|k: (Seq<char>, Seq<char>)| edge_view(ps, k, edge_group(als, k)))
}

/// The position of the project with the given name.
fn find_project_exec(projects: &Vec<(String, ActualJson)>, name: &String) -> (r: Option<usize>)
    ensures
        r matches Some(i) ==> i < projects@.len() && find_project(walk_view(projects@), name@) == Some(i as int),
        r is None ==> find_project(walk_view(projects@), name@) is None,
{
    let ghost ps = walk_view(projects@);
    let mut k: usize = 0;
    while k < projects.len()
        invariant
            k <= projects@.len(),
            ps == walk_view(projects@),
            find_project(ps, name@) == find_project_from(ps, name@, k as int),
        decreases projects@.len() - k,
    {
        assert(ps[k as int].0 == projects@[k as int].0@);
        if projects[k].0 == *name {
            return Some(k);
        }
        k = k + 1;
    }
    None
}

/// A search from `k` finds nothing before `k`.
proof fn lemma_find_port_from_bound(es: Seq<EntryView>, path: Seq<char>, method: Seq<char>, k: int)
    requires
        0 <= k,
    ensures
        find_port_from(es, path, method, k) matches Some(j) ==> k <= j < es.len(),
    decreases es.len() - k,
{
    if k < es.len() && !(path_of(es[k].segments) == path && es[k].method == method) {
        lemma_find_port_from_bound(es, path, method, k + 1);
    }
}

/// The position of the first route with the given rendered path and method.
fn find_port_exec(es: &Vec<RouteEntry>, path: &String, method: &String) -> (r: Option<usize>)
    requires
        forall|k: int|
            0 <= k < es@.len() ==> #[trigger] segments_renderable(
                entries_view(es@)[k].segments,
            ),
    ensures
        r matches Some(j) ==> find_port(entries_view(es@), path@, method@) == Some(j as int),
        r is None ==> find_port(entries_view(es@), path@, method@) is None,
{
    let ghost ev = entries_view(es@);
    let mut k: usize = 0;
    while k < es.len()
        invariant
            k <= es@.len(),
            ev == entries_view(es@),
            forall|k: int| 0 <= k < es@.len() ==> #[trigger] segments_renderable(ev[k].segments),
            find_port(ev, path@, method@) == find_port_from(ev, path@, method@, k as int),
        decreases es@.len() - k,
    {
        proof {
            lemma_find_port_from_bound(ev, path@, method@, k as int);
        }
        assert(segments_renderable(ev[k as int].segments));
        if es[k].to_path() == *path && es[k].method == *method {
            return Some(k);
        }
        k = k + 1;
    }
    None
}

/// The distinct client/server pairs, in order of first appearance.
fn collect_edge_keys(als: &Vec<AlignmentEntry>) -> (keys: Vec<(String, String)>)
    ensures
        keys@.map_values(|k: (String, String)| (k.0@, k.1@)) == edge_keys(aligns_view(als@)),
{
    let ghost av = aligns_view(als@);
    let mut keys: Vec<(String, String)> = Vec::new();
    let mut i: usize = 0;
    while i < als.len()
        invariant
            i <= als@.len(),
            av == aligns_view(als@),
            keys@.map_values(|k: (String, String)| (k.0@, k.1@)) == edge_keys(av.take(i as int)),
        decreases als@.len() - i,
    {
        let a = &als[i];
        let ghost kv = keys@.map_values(|k: (String, String)| (k.0@, k.1@));
        assert(av.take(i + 1).drop_last() =~= av.take(i as int));
        assert(av.take(i + 1).last() == a@);
        let mut found = false;
        let mut j: usize = 0;
        while j < keys.len()
            invariant
                j <= keys@.len(),
                kv == keys@.map_values(|k: (String, String)| (k.0@, k.1@)),
                found ==> kv.contains(edge_key(a@)),
                !found ==> forall|m: int| 0 <= m < j ==> kv[m] != edge_key(a@),
            decreases keys@.len() - j,
        {
            if keys[j].0 == a.client_project && keys[j].1 == a.server_project {
                assert(kv[j as int] == edge_key(a@));
                found = true;
            }
            j = j + 1;
        }
        if !found {
            keys.push((a.client_project.clone(), a.server_project.clone()));
            assert(keys@.map_values(|k: (String, String)| (k.0@, k.1@)) =~= kv.push(edge_key(a@)));
        }
        i = i + 1;
    }
    assert(av.take(i as int) =~= av);
    keys
}

/// One more alignment extends the group of its pair and leaves the others alone.
proof fn lemma_edge_group_step(als: Seq<AlignView>, i: int, key: (Seq<char>, Seq<char>))
    requires
        0 <= i < als.len(),
    ensures
        edge_group(als.take(i + 1), key) == (if edge_key(als[i]) == key {
            edge_group(als.take(i), key).push(als[i])
        } else {
            edge_group(als.take(i), key)
        }),
{
    reveal_with_fuel(Seq::filter, 1);
    assert(als.take(i + 1).drop_last() =~= als.take(i));
}

/// Builds the edge of one client/server pair.
fn build_edge(
    projects: &Vec<(String, ActualJson)>,
    als: &Vec<AlignmentEntry>,
    client: &String,
    server: &String,
) -> (e: AggregatedEdge)
    requires
        all_renderable(walk_view(projects@)),
    ensures
        e@ == edge_view(
            walk_view(projects@),
            (client@, server@),
            edge_group(aligns_view(als@), (client@, server@)),
        ),
{
    let ghost ps = walk_view(projects@);
    let ghost av = aligns_view(als@);
    let ghost key = (client@, server@);
    let ci = find_project_exec(projects, client);
    let si = find_project_exec(projects, server);
    let mut statuses: Vec<String> = Vec::new();
    let mut paths: Vec<String> = Vec::new();
    let mut ports: Vec<PortConnection> = Vec::new();
    let mut count: usize = 0;
    let mut i: usize = 0;
    while i < als.len()
        invariant
            i <= als@.len(),
            ps == walk_view(projects@),
            av == aligns_view(als@),
            key == (client@, server@),
            all_renderable(ps),
            ci matches Some(c) ==> c < projects@.len() && find_project(ps, client@) == Some(c as int),
            ci is None ==> find_project(ps, client@) is None,
            si matches Some(c) ==> c < projects@.len() && find_project(ps, server@) == Some(c as int),
            si is None ==> find_project(ps, server@) is None,
            count as int == edge_group(av.take(i as int), key).len(),
            count <= i,
            statuses@.map_values(|t: String| t@) == edge_group(av.take(i as int), key).map_values(
                |a: AlignView| a.status,
            ),
            paths.deep_view() == edge_group(av.take(i as int), key).map_values(
                |a: AlignView| call_label(a),
            ),
            ports@.map_values(|p: PortConnection| p@) == edge_ports(
                ps,
                key,
                edge_group(av.take(i as int), key),
            ),
        decreases als@.len() - i,
    {
        let a = &als[i];
        let ghost g = edge_group(av.take(i as int), key);
        proof {
            lemma_edge_group_step(av, i as int, key);
        }
        assert(av[i as int] == a@);
        if a.client_project == *client && a.server_project == *server {
            let ghost g2 = g.push(a@);
            assert(g2.drop_last() =~= g);
            count = count + 1;
            let ghost st_before = statuses@.map_values(|t: String| t@);
            statuses.push(a.status.clone());
            assert(statuses@.map_values(|t: String| t@) =~= st_before.push(a@.status));
            assert(g2.map_values(|a: AlignView| a.status) =~= g.map_values(|a: AlignView| a.status).push(
                a@.status,
            ));
            let mut label = a.method.clone();
            proof {
                reveal_strlit(" ");
            }
            label.append(" ");
            label.append(a.path.as_str());
            assert(label@ =~= call_label(a@));
            let ghost pa_before = paths.deep_view();
            paths.push(label);
            assert(paths.deep_view() =~= pa_before.push(call_label(a@)));
            assert(g2.map_values(|a: AlignView| call_label(a)) =~= g.map_values(
                |a: AlignView| call_label(a),
            ).push(call_label(a@)));
            match (ci, si) {
                (Some(c), Some(sv)) => {
                    let ghost cons = ps[c as int].1.consumed;
                    let ghost exps = ps[sv as int].1.exposed;
                    assert(actual_renderable(ps[c as int].1));
                    assert(actual_renderable(ps[sv as int].1));
                    assert(projects@[c as int].1@.consumed == cons);
                    assert(projects@[sv as int].1@.exposed == exps);
                    assert(ps[c as int].1 == projects@[c as int].1@);
                    assert(ps[sv as int].1 == projects@[sv as int].1@);
                    let sp = find_port_exec(&projects[c].1.consumed, &a.path, &a.method);
                    let tp = find_port_exec(&projects[sv].1.exposed, &a.path, &a.method);
                    assert(edge_ports(ps, key, g2) == ports_of(cons, exps, g2));
                    assert(edge_ports(ps, key, g) == ports_of(cons, exps, g));
                    match (sp, tp) {
                        (Some(s_idx), Some(t_idx)) => {
                            let port = PortConnection {
                                path: a.path.clone(),
                                method: a.method.clone(),
                                status: a.status.clone(),
                                source_port_index: s_idx,
                                target_port_index: t_idx,
                            };
                            let ghost before = ports@.map_values(|p: PortConnection| p@);
                            ports.push(port);
                            assert(ports@.map_values(|p: PortConnection| p@) =~= before.push(port@));
                        },
                        _ => {},
                    }
                },
                _ => {},
            }
        }
        i = i + 1;
    }
    assert(av.take(i as int) =~= av);
    let status = aggregate_status(statuses.as_slice());
    AggregatedEdge {
        client_project: client.clone(),
        server_project: server.clone(),
        call_count: count,
        status,
        paths,
        ports,
    }
}

/// Builds one edge per distinct client/server pair, in order of first appearance.
fn collect_edges(projects: &Vec<(String, ActualJson)>, als: &Vec<AlignmentEntry>) -> (edges: Vec<AggregatedEdge>)
    requires
        all_renderable(walk_view(projects@)),
    ensures
        edges@.map_values(|e: AggregatedEdge| e@) == edges_of(walk_view(projects@), aligns_view(als@)),
{
    let keys = collect_edge_keys(als);
    let ghost kv = keys@.map_values(|k: (String, String)| (k.0@, k.1@));
    let ghost ps = walk_view(projects@);
    let ghost av = aligns_view(als@);
    let mut edges: Vec<AggregatedEdge> = Vec::new();
    let mut i: usize = 0;
    while i < keys.len()
        invariant
            i <= keys@.len(),
            kv == keys@.map_values(|k: (String, String)| (k.0@, k.1@)),
            kv == edge_keys(av),
            ps == walk_view(projects@),
            av == aligns_view(als@),
            all_renderable(ps),
            edges@.len() == i,
            forall|m: int|
                0 <= m < i ==> #[trigger] edges@[m]@ == edge_view(ps, kv[m], edge_group(av, kv[m])),
        decreases keys@.len() - i,
    {
        let e = build_edge(projects, als, &keys[i].0, &keys[i].1);
        assert(kv[i as int] == (keys@[i as int].0@, keys@[i as int].1@));
        edges.push(e);
        i = i + 1;
    }
    assert(edges@.map_values(|e: AggregatedEdge| e@) =~= edges_of(ps, av));
    edges
}

// ---------- anomalies ----------

/// Some alignment that did not end orphaned calls this exposed route: it is
/// recorded against `server`, with the same rendered path and method.
pub open spec fn consumed_by_any(als: Seq<AlignView>, server: Seq<char>, path: Seq<char>, method: Seq<char>) -> bool {
    exists|i: int|
        0 <= i < als.len() && #[trigger] als[i].server_project == server && als[i].path == path
            && als[i].method == method && als[i].status != orphaned_status()
}

/// The exposed routes of project `name` that no alignment calls, in order.
pub open spec fn unused_in(name: Seq<char>, es: Seq<EntryView>, als: Seq<AlignView>) -> Seq<EndpointView>
    decreases es.len(),
{
    if es.len() == 0 {
        Seq::empty()
    } else {
        let rest = unused_in(name, es.drop_last(), als);
        let e = es.last();
        if consumed_by_any(als, name, path_of(e.segments), e.method) {
            rest
        } else {
            rest.push(EndpointView { project: name, path: path_of(e.segments), method: e.method })
        }
    }
}

/// A project declared as a library; its exposed routes are never reported unused.
pub open spec fn is_library(a: ActualView) -> bool {
    a.project_type == Some("library"@)
}

/// The unused exposed routes of the first `n` projects, project by project.
pub open spec fn unused_upto(ps: Seq<(Seq<char>, ActualView)>, n: int, als: Seq<AlignView>) -> Seq<EndpointView>
    decreases n,
{
    if n <= 0 || n > ps.len() {
        Seq::empty()
    } else if is_library(ps[n - 1].1) {
        unused_upto(ps, n - 1, als)
    } else {
        unused_upto(ps, n - 1, als) + unused_in(ps[n - 1].0, ps[n - 1].1.exposed, als)
    }
}

/// The unused exposed routes of all projects of the listing.
pub open spec fn unused_of(ps: Seq<(Seq<char>, ActualView)>, als: Seq<AlignView>) -> Seq<EndpointView> {
    unused_upto(ps, ps.len() as int, als)
}

/// Whether some alignment that did not end orphaned reaches the route.
fn reached(als: &[AlignmentEntry], server: &String, path: &String, method: &String) -> (r: bool)
    ensures
        r == consumed_by_any(aligns_view(als@), server@, path@, method@),
{
    let ghost av = aligns_view(als@);
    let orphaned = "Orphaned".to_owned();
    let mut i: usize = 0;
    while i < als.len()
        invariant
            i <= als@.len(),
            av == aligns_view(als@),
            orphaned@ == orphaned_status(),
            forall|m: int|
                0 <= m < i ==> !(#[trigger] av[m].server_project == server@ && av[m].path == path@
                    && av[m].method == method@ && av[m].status != orphaned_status()),
        decreases als@.len() - i,
    {
        let a = &als[i];
        assert(av[i as int] == a@);
        if a.server_project == *server && a.path == *path && a.method == *method && a.status != orphaned {
            assert(av[i as int].server_project == server@);
            return true;
        }
        i = i + 1;
    }
    false
}

/// The exposed routes of every project that is not a library can be rendered.
pub open spec fn exposed_renderable_outside_libraries(ps: Seq<(Seq<char>, ActualView)>) -> bool {
    forall|i: int| 0 <= i < ps.len() && !is_library(#[trigger] ps[i].1) ==> entries_renderable(ps[i].1.exposed)
}

/// The exposed routes that no alignment calls (see `consumed_by_any`), project by project; library
/// projects are left out.
pub fn detect_unused_endpoints(
    projects: &Vec<(String, ActualJson)>,
    alignments: &[AlignmentEntry],
) -> (unused: Vec<AnomalyEndpoint>)
    requires
        exposed_renderable_outside_libraries(walk_view(projects@)),
    ensures
        endpoints_view(unused@) == unused_of(walk_view(projects@), aligns_view(alignments@)),
{
    let ghost ps = walk_view(projects@);
    let ghost av = aligns_view(alignments@);
    let library = "library".to_owned();
    let mut unused: Vec<AnomalyEndpoint> = Vec::new();
    let mut i: usize = 0;
    while i < projects.len()
        invariant
            i <= projects@.len(),
            ps == walk_view(projects@),
            av == aligns_view(alignments@),
            exposed_renderable_outside_libraries(ps),
            library@ == "library"@,
            endpoints_view(unused@) == unused_upto(ps, i as int, av),
        decreases projects@.len() - i,
    {
        let name = &projects[i].0;
        let actual = &projects[i].1;
        assert(ps[i as int].0 == name@ && ps[i as int].1 == actual@);
        let is_lib = match &actual.project_type {
            Some(t) => *t == library,
            None => false,
        };
        if !is_lib {
            assert(entries_renderable(actual@.exposed));
            let ghost base = endpoints_view(unused@);
            let mut k: usize = 0;
            while k < actual.exposed.len()
                invariant
                    k <= actual.exposed@.len(),
                    av == aligns_view(alignments@),
                    entries_renderable(actual@.exposed),
                    endpoints_view(unused@) == base + unused_in(name@, actual@.exposed.take(k as int), av),
                decreases actual.exposed@.len() - k,
            {
                let e = &actual.exposed[k];
                assert(segments_renderable(actual@.exposed[k as int].segments));
                assert(actual@.exposed.take(k + 1).drop_last() =~= actual@.exposed.take(k as int));
                assert(actual@.exposed[k as int] == e@);
                let path = e.to_path();
                if !reached(alignments, name, &path, &e.method) {
                    let ep = AnomalyEndpoint { project: name.clone(), path, method: e.method.clone() };
                    let ghost before = endpoints_view(unused@);
                    unused.push(ep);
                    assert(endpoints_view(unused@) =~= before.push(ep@));
                }
                assert(endpoints_view(unused@) =~= base + unused_in(name@, actual@.exposed.take(k + 1), av));
                k = k + 1;
            }
            assert(actual@.exposed.take(k as int) =~= actual@.exposed);
        }
        i = i + 1;
    }
    unused
}

/// The orphaned alignments, as endpoints of their client projects, in order.
pub open spec fn orphans_of(als: Seq<AlignView>) -> Seq<EndpointView>
    decreases als.len(),
{
    if als.len() == 0 {
        Seq::empty()
    } else {
        let rest = orphans_of(als.drop_last());
        let a = als.last();
        if a.status == orphaned_status() {
            rest.push(EndpointView { project: a.client_project, path: a.path, method: a.method })
        } else {
            rest
        }
    }
}

/// The consumed routes whose alignment ended orphaned.
fn collect_orphans(als: &Vec<AlignmentEntry>) -> (orphans: Vec<AnomalyEndpoint>)
    ensures
        endpoints_view(orphans@) == orphans_of(aligns_view(als@)),
{
    let ghost av = aligns_view(als@);
    let orphaned = "Orphaned".to_owned();
    let mut orphans: Vec<AnomalyEndpoint> = Vec::new();
    let mut i: usize = 0;
    while i < als.len()
        invariant
            i <= als@.len(),
            av == aligns_view(als@),
            orphaned@ == orphaned_status(),
            endpoints_view(orphans@) == orphans_of(av.take(i as int)),
        decreases als@.len() - i,
    {
        let a = &als[i];
        assert(av.take(i + 1).drop_last() =~= av.take(i as int));
        assert(av[i as int] == a@);
        if a.status == orphaned {
            let ep = AnomalyEndpoint {
                project: a.client_project.clone(),
                path: a.path.clone(),
                method: a.method.clone(),
            };
            let ghost before = endpoints_view(orphans@);
            orphans.push(ep);
            assert(endpoints_view(orphans@) =~= before.push(ep@));
        }
        assert(endpoints_view(orphans@) =~= orphans_of(av.take(i + 1)));
        i = i + 1;
    }
    assert(av.take(i as int) =~= av);
    orphans
}

// ---------- the map ----------

/// The listing sorted by project name.
pub fn sort_by_name(projects: &Vec<(String, ActualJson)>) -> (sorted: Vec<(String, ActualJson)>)
    ensures
        walk_view(sorted@) == by_name(walk_view(projects@)),
{
    let ghost ps = walk_view(projects@);
    let mut sorted: Vec<(String, ActualJson)> = Vec::new();
    let mut i: usize = 0;
    while i < projects.len()
        invariant
            i <= projects@.len(),
            ps == walk_view(projects@),
            walk_view(sorted@) == by_name(ps.take(i as int)),
        decreases projects@.len() - i,
    {
        let name = &projects[i].0;
        let ghost sv = walk_view(sorted@);
        let mut j: usize = 0;
        while j < sorted.len() && !name_before(name, &sorted[j].0)
            invariant
                j <= sorted@.len(),
                sv == walk_view(sorted@),
                forall|k: int| 0 <= k < j ==> !name_less(name@, #[trigger] sv[k].0),
            decreases sorted@.len() - j,
        {
            assert(sv[j as int].0 == sorted@[j as int].0@);
            j = j + 1;
        }
        if j < sorted.len() {
            assert(sv[j as int].0 == sorted@[j as int].0@);
        }
        let item = (name.clone(), projects[i].1.duplicate());
        let ghost x = (item.0@, item.1@);
        assert(x == ps[i as int]);
        proof {
            lemma_insert_by_name(sv, x, j as int);
            assert(ps.take(i + 1).drop_last() =~= ps.take(i as int));
            assert(ps.take(i + 1).last() == x);
        }
        sorted.insert(j, item);
        assert(walk_view(sorted@) =~= sv.insert(j as int, x));
        i = i + 1;
    }
    assert(ps.take(i as int) =~= ps);
    sorted
}

/// Builds the topography map of the projects (every route renderable), given
/// the recorded scan statuses and locations. The projects are taken in the
/// order of their names, so the map does not depend on the order of the
/// listing: one node per project, the alignments of every consumed route that
/// has one, one edge per client/server pair, the exposed routes of non-library
/// projects that no alignment calls, and the orphaned consumed routes.
pub fn generate_lunar_map(
    project_actuals: &Vec<(String, ActualJson)>,
    scan_statuses: &StringHashMap<String>,
    project_paths: &StringHashMap<String>,
) -> (map: LunarMap)
    requires
        all_renderable(walk_view(project_actuals@)),
    ensures
        map.version@ == "0.5.0"@,
        map.projects@.map_values(|p: ProjectInfo| p@) == projects_of(
            by_name(walk_view(project_actuals@)),
            text_map(scan_statuses@),
            text_map(project_paths@),
        ),
        aligns_view(map.alignments@) == alignments_of(by_name(walk_view(project_actuals@))),
        map.aggregated_edges@.map_values(|e: AggregatedEdge| e@) == edges_of(
            by_name(walk_view(project_actuals@)),
            aligns_view(map.alignments@),
        ),
        endpoints_view(map.anomalies.unused_endpoints@) == unused_of(
            by_name(walk_view(project_actuals@)),
            aligns_view(map.alignments@),
        ),
        endpoints_view(map.anomalies.orphaned_consumers@) == orphans_of(aligns_view(map.alignments@)),
        map.anomalies.cross_layer_violations@.len() == 0,
{
    let listing = sort_by_name(project_actuals);
    let ghost ps = walk_view(listing@);
    assert(all_renderable(ps)) by {
        let orig = walk_view(project_actuals@);
        lemma_by_name(orig);
        assert forall|i: int| 0 <= i < ps.len() implies #[trigger] actual_renderable(ps[i].1) by {
            assert(ps.contains(ps[i]));
            assert(orig.contains(ps[i]));
            let k = choose|k: int| 0 <= k < orig.len() && orig[k] == ps[i];
            assert(actual_renderable(orig[k].1));
        }
    }
    let projects = collect_projects(&listing, scan_statuses, project_paths);
    let alignments = collect_alignments(&listing);
    let aggregated_edges = collect_edges(&listing, &alignments);
    assert(exposed_renderable_outside_libraries(ps)) by {
        assert forall|i: int| 0 <= i < ps.len() && !is_library(#[trigger] ps[i].1) implies entries_renderable(
            ps[i].1.exposed,
        ) by {
            assert(actual_renderable(ps[i].1));
        }
    }
    let unused_endpoints = detect_unused_endpoints(&listing, alignments.as_slice());
    let orphaned_consumers = collect_orphans(&alignments);
    LunarMap {
        version: "0.5.0".to_owned(),
        projects,
        alignments,
        aggregated_edges,
        anomalies: Anomalies { unused_endpoints, orphaned_consumers, cross_layer_violations: Vec::new() },
    }
}

} // verus!
