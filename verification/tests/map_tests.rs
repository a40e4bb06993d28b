use lunar_interface::{
    aggregate_status, align_consumed_route, detect_unused_endpoints, generate_lunar_map,
    merge_intent_into_actual, parse_path_to_segments, ActualJson, AlignmentEntry, InterfaceItem,
    InterfacesYml, RouteEntry, RouteSegment, StringHashMap,
};

fn lit(v: &str) -> RouteSegment {
    RouteSegment { segment_type: "literal".to_string(), value: Some(v.to_string()), name: None, raw_constraint: None }
}

fn param(n: &str) -> RouteSegment {
    RouteSegment { segment_type: "parameter".to_string(), value: None, name: Some(n.to_string()), raw_constraint: None }
}

fn entry(method: &str, segments: Vec<RouteSegment>, target: Option<&str>) -> RouteEntry {
    RouteEntry {
        method: method.to_string(),
        segments,
        source_file: "src/lib.rs".to_string(),
        line_number: 3,
        extraction_method: "axum".to_string(),
        target_project: target.map(|t| t.to_string()),
    }
}

fn actual(exposed: Vec<RouteEntry>, consumed: Vec<RouteEntry>, project_type: Option<&str>) -> ActualJson {
    ActualJson { exposed, consumed, project_type: project_type.map(|t| t.to_string()) }
}

fn texts(pairs: &[(&str, &str)]) -> StringHashMap<String> {
    let mut m = StringHashMap::new();
    for (k, v) in pairs {
        m.insert(k.to_string(), v.to_string());
    }
    m
}

fn item(path: &str, method: &str, target: Option<&str>) -> InterfaceItem {
    InterfaceItem { path: path.to_string(), method: method.to_string(), reason: None, target_project: target.map(|t| t.to_string()) }
}

fn strings(v: &[&str]) -> Vec<String> {
    v.iter().map(|s| s.to_string()).collect()
}

#[test]
fn aggregate_of_nothing_is_aligned() {
    assert_eq!(aggregate_status(&[]), "Aligned");
}

#[test]
fn aggregate_takes_most_urgent() {
    assert_eq!(aggregate_status(&strings(&["Aligned", "ParamNameMismatch", "Orphaned"])), "Orphaned");
    assert_eq!(aggregate_status(&strings(&["Orphaned", "MethodMismatch", "Aligned"])), "MethodMismatch");
    assert_eq!(aggregate_status(&strings(&["Unverified", "Aligned"])), "Aligned");
}

#[test]
fn aggregate_keeps_first_of_equally_urgent() {
    assert_eq!(aggregate_status(&strings(&["Unverified", "Other"])), "Unverified");
    assert_eq!(aggregate_status(&strings(&["Other", "Unverified"])), "Other");
}

fn two_projects() -> Vec<(String, ActualJson)> {
    vec![
        (
            "web".to_string(),
            actual(vec![], vec![entry("GET", vec![lit("users"), param("id")], Some("api"))], Some("frontend")),
        ),
        (
            "api".to_string(),
            actual(
                vec![entry("GET", vec![lit("users"), param("id")], None), entry("POST", vec![lit("users")], None)],
                vec![],
                None,
            ),
        ),
    ]
}

#[test]
fn align_matching_route_is_aligned() {
    let ps = two_projects();
    let c = entry("GET", vec![lit("accounts"), param("id")], Some("api"));
    assert_eq!(align_consumed_route(&c, "web", &ps), ("Aligned".to_string(), None));
}

#[test]
fn align_reports_param_and_method_mismatch() {
    let ps = two_projects();
    let renamed = entry("GET", vec![lit("users"), param("user")], Some("api"));
    assert_eq!(align_consumed_route(&renamed, "web", &ps).0, "ParamNameMismatch");
    let wrong_method = entry("DELETE", vec![lit("users"), param("id")], Some("api"));
    assert_eq!(align_consumed_route(&wrong_method, "web", &ps).0, "MethodMismatch");
}

#[test]
fn align_without_server_is_orphaned_or_nothing() {
    let ps = two_projects();
    let named = entry("GET", vec![lit("a"), lit("b"), lit("c")], Some("api"));
    assert_eq!(align_consumed_route(&named, "web", &ps), ("Orphaned".to_string(), None));
    let unnamed = entry("GET", vec![lit("a"), lit("b"), lit("c")], None);
    assert_eq!(align_consumed_route(&unnamed, "web", &ps), (String::new(), None));
}

#[test]
fn align_never_uses_own_project() {
    let ps = two_projects();
    let c = entry("GET", vec![lit("users"), param("id")], None);
    assert_eq!(align_consumed_route(&c, "api", &ps), (String::new(), None));
    assert_eq!(align_consumed_route(&c, "web", &ps).0, "Aligned");
}

#[test]
fn align_ignores_scan_statuses() {
    let ps = two_projects();
    let named = entry("GET", vec![lit("no"), lit("such"), lit("route")], Some("api"));
    assert_eq!(align_consumed_route(&named, "web", &ps), ("Orphaned".to_string(), None));
    let unnamed = entry("GET", vec![lit("users"), param("id")], None);
    assert_eq!(align_consumed_route(&unnamed, "web", &ps), ("Aligned".to_string(), None));
    let map = generate_lunar_map(&ps, &texts(&[("api", "failed")]), &texts(&[]));
    assert_eq!(map.projects[0].name, "api");
    assert_eq!(map.projects[0].scan_status, "failed");
    assert_eq!(map.alignments[0].status, "Aligned");
    assert_eq!(map.alignments[0].warning, None);
}

#[test]
fn align_prefers_least_server_name_whatever_the_order() {
    let client = || ("client".to_string(), actual(vec![], vec![], None));
    let a = || ("a".to_string(), actual(vec![entry("GET", vec![lit("users")], None)], vec![], None));
    let b = || ("b".to_string(), actual(vec![entry("POST", vec![lit("users")], None)], vec![], None));
    let c = entry("GET", vec![lit("users")], None);
    let one = vec![client(), a(), b()];
    let two = vec![b(), client(), a()];
    assert_eq!(align_consumed_route(&c, "client", &one).0, "Aligned");
    assert_eq!(align_consumed_route(&c, "client", &two).0, "Aligned");
}

fn alignment(client: &str, server: &str, path: &str, method: &str, status: &str) -> AlignmentEntry {
    AlignmentEntry {
        client_project: client.to_string(),
        server_project: server.to_string(),
        path: path.to_string(),
        method: method.to_string(),
        status: status.to_string(),
        warning: None,
    }
}

#[test]
fn unused_skips_libraries_and_called_routes() {
    let ps = vec![
        ("lib".to_string(), actual(vec![entry("GET", vec![lit("x")], None)], vec![], Some("library"))),
        ("api".to_string(), actual(vec![entry("GET", vec![param("id")], None), entry("GET", vec![lit("y"), lit("z")], None)], vec![], None)),
        ("web".to_string(), actual(vec![], vec![entry("GET", vec![param("key")], Some("api"))], None)),
    ];
    let als = vec![alignment("web", "api", "/{id}", "GET", "Aligned")];
    let unused = detect_unused_endpoints(&ps, &als);
    assert_eq!(unused.len(), 1);
    assert_eq!(unused[0].project, "api");
    assert_eq!(unused[0].path, "/y/z");
    assert_eq!(unused[0].method, "GET");
}

#[test]
fn unused_needs_same_path_method_and_server() {
    let ps = vec![(
        "api".to_string(),
        actual(vec![entry("GET", vec![lit("users")], None), entry("GET", vec![lit("posts")], None)], vec![], None),
    )];
    let als = vec![
        alignment("web", "api", "/posts", "GET", "Aligned"),
        alignment("web", "api", "/users", "POST", "MethodMismatch"),
        alignment("web", "other", "/users", "GET", "Aligned"),
        alignment("web", "api", "/users", "GET", "Orphaned"),
    ];
    let unused = detect_unused_endpoints(&ps, &als);
    assert_eq!(unused.len(), 1);
    assert_eq!(unused[0].path, "/users");
    let mismatched = vec![alignment("web", "api", "/users", "GET", "ParamNameMismatch")];
    let unused = detect_unused_endpoints(&ps, &mismatched);
    assert_eq!(unused.len(), 1);
    assert_eq!(unused[0].path, "/posts");
}

#[test]
fn method_mismatch_leaves_matched_route_unused() {
    let route = |m: &str, p: &str, t: Option<&str>| RouteEntry {
        method: m.to_string(),
        segments: parse_path_to_segments(p),
        source_file: "s".to_string(),
        line_number: 0,
        extraction_method: "e".to_string(),
        target_project: t.map(|t| t.to_string()),
    };
    let ps = vec![
        (
            "web".to_string(),
            actual(vec![], vec![route("GET", "/users", Some("api")), route("DELETE", "/users/{id}", Some("api"))], None),
        ),
        ("api".to_string(), actual(vec![route("GET", "/users", None), route("GET", "/users/{id}", None)], vec![], None)),
    ];
    let map = generate_lunar_map(&ps, &texts(&[]), &texts(&[]));
    assert_eq!(map.alignments.len(), 2);
    assert_eq!(map.aggregated_edges.len(), 1);
    let e = &map.aggregated_edges[0];
    assert_eq!((e.client_project.as_str(), e.server_project.as_str()), ("web", "api"));
    assert_eq!(e.call_count, 2);
    assert_eq!(e.status, "MethodMismatch");
    assert_eq!(e.paths, vec!["GET /users".to_string(), "DELETE /users/{id}".to_string()]);
    assert_eq!(e.ports.len(), 1);
    assert_eq!(e.ports[0].path, "/users");
    assert_eq!(e.ports[0].method, "GET");
    assert_eq!(e.ports[0].status, "Aligned");
    assert_eq!((e.ports[0].source_port_index, e.ports[0].target_port_index), (0, 0));
    assert_eq!(map.anomalies.unused_endpoints.len(), 1);
    let u = &map.anomalies.unused_endpoints[0];
    assert_eq!((u.project.as_str(), u.path.as_str(), u.method.as_str()), ("api", "/users/{id}", "GET"));
}

#[test]
fn unused_follows_called_path_not_shape() {
    let ps = vec![
        ("web".to_string(), actual(vec![], vec![entry("GET", vec![lit("posts")], Some("api"))], None)),
        ("api".to_string(), actual(vec![entry("GET", vec![lit("users")], None), entry("GET", vec![lit("posts")], None)], vec![], None)),
    ];
    let map = generate_lunar_map(&ps, &texts(&[]), &texts(&[]));
    assert_eq!(map.anomalies.unused_endpoints.len(), 1);
    assert_eq!(map.anomalies.unused_endpoints[0].path, "/users");
}

#[test]
fn untargeted_caller_keeps_endpoint_used() {
    let ps = vec![
        ("web".to_string(), actual(vec![], vec![entry("GET", vec![lit("users")], None)], None)),
        ("api".to_string(), actual(vec![entry("GET", vec![lit("users")], None)], vec![], None)),
    ];
    let map = generate_lunar_map(&ps, &texts(&[]), &texts(&[]));
    assert_eq!(map.alignments.len(), 1);
    assert_eq!(map.alignments[0].status, "Aligned");
    assert_eq!(map.alignments[0].server_project, "api");
    assert!(map.anomalies.unused_endpoints.is_empty());
    assert_eq!(map.aggregated_edges[0].server_project, "api");
}

#[test]
fn map_does_not_depend_on_listing_order() {
    let web = || ("web".to_string(), actual(vec![], vec![entry("GET", vec![lit("users")], None)], None));
    let a = || ("a".to_string(), actual(vec![entry("GET", vec![lit("users")], None)], vec![], None));
    let b = || ("b".to_string(), actual(vec![entry("POST", vec![lit("users")], None)], vec![], None));
    let m1 = generate_lunar_map(&vec![web(), a(), b()], &texts(&[]), &texts(&[]));
    let m2 = generate_lunar_map(&vec![b(), web(), a()], &texts(&[]), &texts(&[]));
    assert_eq!(format!("{:?}", m1), format!("{:?}", m2));
    let names: Vec<&str> = m1.projects.iter().map(|p| p.name.as_str()).collect();
    assert_eq!(names, vec!["a", "b", "web"]);
    assert_eq!(m1.alignments[0].server_project, "a");
    assert_eq!(m1.anomalies.unused_endpoints.len(), 1);
    assert_eq!(m1.anomalies.unused_endpoints[0].project, "b");
}

#[test]
fn map_of_two_projects() {
    let ps = two_projects();
    let map = generate_lunar_map(&ps, &texts(&[("api", "success")]), &texts(&[("web", "/srv/web")]));
    assert_eq!(map.version, "0.5.0");
    assert_eq!(map.projects.len(), 2);
    let web = &map.projects[1];
    assert_eq!(web.name, "web");
    assert_eq!(web.project_type, "frontend");
    assert_eq!(web.sha, "unknown");
    assert_eq!(web.scan_status, "success");
    assert_eq!(web.path.as_deref(), Some("/srv/web"));
    assert_eq!(web.interfaces.consumed.len(), 1);
    assert_eq!(web.interfaces.consumed[0].path, "/users/{id}");
    assert_eq!(web.interfaces.consumed[0].target_project, "api");
    let api = &map.projects[0];
    assert_eq!(api.project_type, "mixed");
    assert_eq!(api.path, None);
    assert_eq!(api.interfaces.exposed.len(), 2);
    assert_eq!(api.interfaces.exposed[1].path, "/users");

    assert_eq!(map.alignments.len(), 1);
    let a = &map.alignments[0];
    assert_eq!((a.client_project.as_str(), a.server_project.as_str()), ("web", "api"));
    assert_eq!((a.path.as_str(), a.method.as_str(), a.status.as_str()), ("/users/{id}", "GET", "Aligned"));

    assert_eq!(map.aggregated_edges.len(), 1);
    let e = &map.aggregated_edges[0];
    assert_eq!(e.call_count, 1);
    assert_eq!(e.status, "Aligned");
    assert_eq!(e.paths, vec!["GET /users/{id}".to_string()]);
    assert_eq!(e.ports.len(), 1);
    assert_eq!(e.ports[0].source_port_index, 0);
    assert_eq!(e.ports[0].target_port_index, 0);

    assert_eq!(map.anomalies.unused_endpoints.len(), 1);
    assert_eq!(map.anomalies.unused_endpoints[0].path, "/users");
    assert!(map.anomalies.orphaned_consumers.is_empty());
    assert!(map.anomalies.cross_layer_violations.is_empty());
}

#[test]
fn map_records_orphans_and_groups_edges() {
    let ps = vec![
        (
            "web".to_string(),
            actual(
                vec![],
                vec![
                    entry("GET", vec![lit("users")], Some("api")),
                    entry("GET", vec![lit("gone"), lit("away")], Some("api")),
                    entry("GET", vec![lit("local"), lit("only")], None),
                    entry("PUT", vec![lit("users")], Some("api")),
                ],
                None,
            ),
        ),
        ("api".to_string(), actual(vec![entry("GET", vec![lit("users")], None)], vec![], None)),
    ];
    let map = generate_lunar_map(&ps, &texts(&[]), &texts(&[]));
    let statuses: Vec<&str> = map.alignments.iter().map(|a| a.status.as_str()).collect();
    assert_eq!(statuses, vec!["Aligned", "Orphaned", "MethodMismatch"]);
    assert_eq!(map.aggregated_edges.len(), 1);
    let e = &map.aggregated_edges[0];
    assert_eq!(e.call_count, 3);
    assert_eq!(e.status, "MethodMismatch");
    assert_eq!(e.paths, vec!["GET /users".to_string(), "GET /gone/away".to_string(), "PUT /users".to_string()]);
    assert_eq!(e.ports.len(), 1);
    assert_eq!(map.anomalies.orphaned_consumers.len(), 1);
    assert_eq!(map.anomalies.orphaned_consumers[0].project, "web");
    assert_eq!(map.anomalies.orphaned_consumers[0].path, "/gone/away");
    assert!(map.anomalies.unused_endpoints.is_empty());
}

#[test]
fn map_of_single_library() {
    let ps = vec![("cellrix".to_string(), actual(vec![], vec![], Some("library")))];
    let map = generate_lunar_map(&ps, &texts(&[("cellrix", "success")]), &texts(&[("cellrix", "/opt/cellrix")]));
    assert_eq!(map.version, "0.5.0");
    assert_eq!(map.projects.len(), 1);
    assert_eq!(map.projects[0].name, "cellrix");
    assert_eq!(map.projects[0].path.as_deref(), Some("/opt/cellrix"));
    assert!(map.alignments.is_empty());
    assert!(map.aggregated_edges.is_empty());
}

#[test]
fn merge_sets_type_and_retargets() {
    let mut a = actual(vec![entry("GET", vec![lit("users"), param("id")], None)], vec![], Some("backend"));
    let intent = InterfacesYml {
        project_type: Some("service".to_string()),
        exposed: Some(vec![item("/users/{id}", "GET", Some("gateway"))]),
        ..Default::default()
    };
    merge_intent_into_actual(&mut a, &intent);
    assert_eq!(a.project_type.as_deref(), Some("service"));
    assert_eq!(a.exposed.len(), 1);
    assert_eq!(a.exposed[0].target_project.as_deref(), Some("gateway"));
    assert_eq!(a.exposed[0].source_file, "src/lib.rs");
}

#[test]
fn merge_adds_manual_entries() {
    let mut a = actual(vec![], vec![], None);
    let intent = InterfacesYml {
        exposed: Some(vec![item("/orders/:id", "GET", Some("ignored"))]),
        consumed: Some(vec![item("/users/{id}", "GET", Some("api"))]),
        ..Default::default()
    };
    merge_intent_into_actual(&mut a, &intent);
    assert_eq!(a.project_type, None);
    assert_eq!(a.exposed.len(), 1);
    assert_eq!(a.exposed[0].source_file, "manual");
    assert_eq!(a.exposed[0].extraction_method, "manual");
    assert_eq!(a.exposed[0].line_number, 0);
    assert_eq!(a.exposed[0].target_project, None);
    assert_eq!(a.exposed[0].to_path(), "/orders/{id}");
    assert_eq!(a.consumed.len(), 1);
    assert_eq!(a.consumed[0].target_project.as_deref(), Some("api"));
}

#[test]
fn merge_keeps_target_when_none_declared() {
    let mut a = actual(vec![], vec![entry("GET", vec![lit("users")], Some("api"))], None);
    let intent = InterfacesYml { consumed: Some(vec![item("/users", "GET", None)]), ..Default::default() };
    merge_intent_into_actual(&mut a, &intent);
    assert_eq!(a.consumed.len(), 1);
    assert_eq!(a.consumed[0].target_project.as_deref(), Some("api"));
}

#[test]
fn merge_matches_only_first_answering_entry() {
    let mut a = actual(
        vec![entry("GET", vec![lit("x")], None), entry("GET", vec![lit("x")], None)],
        vec![],
        None,
    );
    let intent = InterfacesYml { exposed: Some(vec![item("/x", "GET", Some("t"))]), ..Default::default() };
    merge_intent_into_actual(&mut a, &intent);
    assert_eq!(a.exposed[0].target_project.as_deref(), Some("t"));
    assert_eq!(a.exposed[1].target_project, None);
}

#[test]
fn merge_twice_of_same_new_route_matches_the_added_one() {
    let mut a = actual(vec![], vec![], None);
    let intent = InterfacesYml {
        consumed: Some(vec![item("/a/{b}", "GET", Some("s")), item("/a/{b}", "GET", Some("t"))]),
        ..Default::default()
    };
    merge_intent_into_actual(&mut a, &intent);
    assert_eq!(a.consumed.len(), 1);
    assert_eq!(a.consumed[0].target_project.as_deref(), Some("t"));
}

#[test]
fn merge_keeps_entries_renderable_and_answers_canonical_paths() {
    let mut a = actual(vec![entry("GET", vec![lit("health")], None)], vec![], None);
    let intent = InterfacesYml {
        exposed: Some(vec![item("/users/{id}", "GET", None), item("/health", "GET", Some("probe"))]),
        ..Default::default()
    };
    merge_intent_into_actual(&mut a, &intent);
    assert!(a.exposed.iter().all(|e| e.is_renderable()));
    assert_eq!(a.exposed.len(), 2);
    assert_eq!(a.exposed[0].to_path(), "/health");
    assert_eq!(a.exposed[0].target_project.as_deref(), Some("probe"));
    assert_eq!(a.exposed[1].to_path(), "/users/{id}");
    assert_eq!(a.exposed[1].method, "GET");
}

#[test]
fn edges_count_every_alignment_once() {
    let ps = vec![
        (
            "web".to_string(),
            actual(
                vec![],
                vec![
                    entry("GET", vec![lit("a")], Some("api")),
                    entry("GET", vec![lit("b"), lit("c")], Some("auth")),
                    entry("GET", vec![lit("d")], Some("api")),
                ],
                None,
            ),
        ),
        ("api".to_string(), actual(vec![entry("GET", vec![lit("a")], None)], vec![], None)),
        ("auth".to_string(), actual(vec![], vec![], None)),
    ];
    let map = generate_lunar_map(&ps, &texts(&[]), &texts(&[]));
    assert_eq!(map.alignments.len(), 3);
    let total: usize = map.aggregated_edges.iter().map(|e| e.call_count).sum();
    assert_eq!(total, 3);
    assert_eq!(map.aggregated_edges.len(), 2);
    assert_eq!(map.aggregated_edges[0].server_project, "api");
    assert_eq!(map.aggregated_edges[0].call_count, 2);
    assert_eq!(map.aggregated_edges[0].status, "Aligned");
    assert_eq!(map.aggregated_edges[1].server_project, "auth");
    assert_eq!(map.aggregated_edges[1].status, "Orphaned");
    assert!(map.aggregated_edges[1].ports.is_empty());
}

fn show(a: &ActualJson) -> String {
    format!("{:?}", a)
}

#[test]
fn merge_twice_is_merge_once() {
    let mut a = actual(vec![entry("GET", vec![lit("health")], None)], vec![entry("GET", vec![lit("x")], None)], None);
    let intent = InterfacesYml {
        project_type: Some("service".to_string()),
        exposed: Some(vec![item("/users/{id}", "GET", None), item("/health", "GET", None)]),
        consumed: Some(vec![item("/x", "GET", Some("s")), item("/y/{z}", "PUT", None), item("/x", "GET", Some("t"))]),
        ..Default::default()
    };
    merge_intent_into_actual(&mut a, &intent);
    let once = show(&a);
    merge_intent_into_actual(&mut a, &intent);
    assert_eq!(show(&a), once);
    assert_eq!(a.exposed.len(), 2);
    assert_eq!(a.consumed.len(), 2);
    assert_eq!(a.consumed[0].target_project.as_deref(), Some("t"));
}

#[test]
fn more_alignments_never_add_unused_endpoints() {
    let ps = vec![(
        "api".to_string(),
        actual(vec![entry("GET", vec![lit("a")], None), entry("GET", vec![lit("b"), lit("c")], None)], vec![], None),
    )];
    let few: Vec<AlignmentEntry> = vec![];
    let more = vec![alignment("web", "api", "/a", "GET", "Aligned"), alignment("web", "api", "/q", "GET", "Orphaned")];
    let before = detect_unused_endpoints(&ps, &few);
    let after = detect_unused_endpoints(&ps, &more);
    assert_eq!(before.len(), 2);
    assert_eq!(after.len(), 1);
    assert_eq!(after[0].path, "/b/c");
}

#[test]
fn try_merge_refuses_unrenderable_search() {
    let broken = RouteSegment { segment_type: "literal".to_string(), value: None, name: None, raw_constraint: None };
    let mut a = actual(vec![entry("GET", vec![broken], None)], vec![], None);
    let intent = InterfacesYml { project_type: Some("x".to_string()), exposed: Some(vec![item("/a", "GET", None)]), ..Default::default() };
    assert!(!lunar_interface::try_merge_intent_into_actual(&mut a, &intent));
    assert_eq!(a.project_type, None);
    assert_eq!(a.exposed.len(), 1);
}

#[test]
fn try_merge_accepts_when_search_stops_early() {
    let broken = RouteSegment { segment_type: "literal".to_string(), value: None, name: None, raw_constraint: None };
    let mut a = actual(vec![entry("GET", vec![lit("a")], None), entry("GET", vec![broken], None)], vec![], None);
    let intent = InterfacesYml { exposed: Some(vec![item("/a", "GET", Some("t"))]), ..Default::default() };
    assert!(lunar_interface::try_merge_intent_into_actual(&mut a, &intent));
    assert_eq!(a.exposed[0].target_project.as_deref(), Some("t"));
}
