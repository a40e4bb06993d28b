use lunar_interface::{
    build_structural_index, compare_routes, parse_path_to_segments, DiffResult, RouteEntry,
    RouteSegment,
};

fn lit(v: &str) -> RouteSegment {
    RouteSegment { segment_type: "literal".to_string(), value: Some(v.to_string()), name: None, raw_constraint: None }
}

fn param(n: &str) -> RouteSegment {
    RouteSegment { segment_type: "parameter".to_string(), value: None, name: Some(n.to_string()), raw_constraint: None }
}

fn wild() -> RouteSegment {
    RouteSegment { segment_type: "wildcard".to_string(), value: None, name: None, raw_constraint: None }
}

fn entry(method: &str, segments: Vec<RouteSegment>) -> RouteEntry {
    RouteEntry {
        method: method.to_string(),
        segments,
        source_file: "src/main.rs".to_string(),
        line_number: 7,
        extraction_method: "axum".to_string(),
        target_project: None,
    }
}

#[test]
fn to_path_renders_braces() {
    let r = entry("GET", vec![lit("users"), param("id"), wild()]);
    assert_eq!(r.to_path(), "/users/{id}/*");
}

#[test]
fn display_path_renders_colons() {
    let r = entry("GET", vec![lit("users"), param("id"), wild()]);
    assert_eq!(r.display_path(), "/users/:id/*");
}

#[test]
fn unknown_segment_kind_renders_nothing() {
    let other = RouteSegment { segment_type: "regex".to_string(), value: Some("x".to_string()), name: None, raw_constraint: None };
    let r = entry("GET", vec![lit("a"), other, lit("b")]);
    assert_eq!(r.to_path(), "/a/b");
    assert_eq!(r.display_path(), "/a/b");
}

#[test]
fn empty_route_renders_empty_path() {
    let r = entry("GET", vec![]);
    assert_eq!(r.to_path(), "");
    assert_eq!(r.display_path(), "");
    assert_eq!(r.structural_id(), "");
}

#[test]
fn renderings_agree_without_parameters() {
    let r = entry("GET", vec![lit("health"), wild()]);
    assert_eq!(r.to_path(), r.display_path());
}

#[test]
fn structural_id_joins_kinds() {
    let r = entry("GET", vec![lit("users"), param("id"), wild()]);
    assert_eq!(r.structural_id(), "literal:parameter:wildcard");
    let one = entry("GET", vec![param("id")]);
    assert_eq!(one.structural_id(), "parameter");
}

#[test]
fn renderable_checks_values_and_names() {
    let ok = entry("GET", vec![lit("a"), param("b")]);
    assert!(ok.is_renderable());
    let no_value = RouteSegment { segment_type: "literal".to_string(), value: None, name: None, raw_constraint: None };
    assert!(!entry("GET", vec![no_value]).is_renderable());
    let no_name = RouteSegment { segment_type: "parameter".to_string(), value: None, name: None, raw_constraint: None };
    assert!(!entry("GET", vec![no_name]).is_renderable());
}

#[test]
fn aligned_names_stop_at_shorter_route() {
    let a = entry("GET", vec![param("org"), lit("x"), param("id"), param("extra")]);
    let b = entry("GET", vec![param("o"), param("y"), param("i")]);
    assert_eq!(a.get_aligned_parameter_names(&b), vec!["org".to_string(), "id".to_string()]);
    assert_eq!(b.get_aligned_parameter_names(&a), vec!["o".to_string(), "i".to_string()]);
}

#[test]
fn aligned_names_use_empty_for_missing_name() {
    let nameless = RouteSegment { segment_type: "parameter".to_string(), value: None, name: None, raw_constraint: None };
    let a = entry("GET", vec![nameless]);
    let b = entry("GET", vec![param("id")]);
    assert_eq!(a.get_aligned_parameter_names(&b), vec![String::new()]);
}

#[test]
fn compare_reports_method_change() {
    let old = entry("GET", vec![lit("users")]);
    let new = entry("POST", vec![lit("users")]);
    assert_eq!(
        compare_routes(&old, &new),
        DiffResult::MethodChanged { old_method: "GET".to_string(), new_method: "POST".to_string() }
    );
    assert_eq!(
        compare_routes(&new, &old),
        DiffResult::MethodChanged { old_method: "POST".to_string(), new_method: "GET".to_string() }
    );
}

#[test]
fn compare_reports_param_names_change() {
    let old = entry("GET", vec![lit("users"), param("id")]);
    let new = entry("GET", vec![lit("users"), param("user_id")]);
    assert_eq!(
        compare_routes(&old, &new),
        DiffResult::ParamNamesChanged { old_names: vec!["id".to_string()], new_names: vec!["user_id".to_string()] }
    );
    assert_eq!(
        compare_routes(&new, &old),
        DiffResult::ParamNamesChanged { old_names: vec!["user_id".to_string()], new_names: vec!["id".to_string()] }
    );
}

#[test]
fn compare_same_route_is_unchanged() {
    let r = entry("GET", vec![lit("users"), param("id")]);
    assert_eq!(compare_routes(&r, &r), DiffResult::Unchanged);
    let other_literal = entry("GET", vec![lit("people"), param("id")]);
    assert_eq!(compare_routes(&r, &other_literal), DiffResult::Unchanged);
}

#[test]
fn structural_index_groups_in_order() {
    let routes = vec![
        entry("GET", vec![lit("users"), param("id")]),
        entry("GET", vec![lit("health")]),
        entry("DELETE", vec![lit("items"), param("item")]),
    ];
    let index = build_structural_index(&routes);
    assert_eq!(index.len(), 2);
    let group = index.get("literal:parameter").unwrap();
    assert_eq!(group.len(), 2);
    assert_eq!(group[0].method, "GET");
    assert_eq!(group[1].method, "DELETE");
    assert_eq!(group[1].to_path(), "/items/{item}");
    assert_eq!(index.get("literal").unwrap().len(), 1);
    assert!(index.get("parameter").is_none());
}

#[test]
fn structural_index_of_nothing_is_empty() {
    let index = build_structural_index(&[]);
    assert_eq!(index.len(), 0);
}

#[test]
fn parse_reads_both_parameter_forms() {
    let segs = parse_path_to_segments("/users/{id:int}/posts/:post_id//x/");
    assert_eq!(segs.len(), 5);
    assert_eq!(segs[0], lit("users"));
    assert_eq!(segs[1], param("id"));
    assert_eq!(segs[2], lit("posts"));
    assert_eq!(segs[3], param("post_id"));
    assert_eq!(segs[4], lit("x"));
}

#[test]
fn parse_keeps_unbalanced_braces_literal() {
    let segs = parse_path_to_segments("{open/close}/{}");
    assert_eq!(segs, vec![lit("{open"), lit("close}"), param("")]);
}

#[test]
fn parse_of_slashes_only_is_empty() {
    assert!(parse_path_to_segments("").is_empty());
    assert!(parse_path_to_segments("///").is_empty());
}

#[test]
fn parse_then_render_gives_canonical_path() {
    let r = entry("GET", parse_path_to_segments("users/:id/{name:str}"));
    assert_eq!(r.to_path(), "/users/{id}/{name}");
    let again = entry("GET", parse_path_to_segments(&r.to_path()));
    assert_eq!(again.to_path(), r.to_path());
}

#[test]
fn parsed_segments_are_renderable() {
    let r = entry("GET", parse_path_to_segments("/a/{b}/:c/*"));
    assert!(r.is_renderable());
    assert_eq!(r.structural_id(), "literal:parameter:parameter:literal");
}

#[test]
fn parameter_spellings_parse_alike() {
    let colon = parse_path_to_segments("/api/:id/items");
    let braces = parse_path_to_segments("/api/{id}/items");
    let constrained = parse_path_to_segments("/api/{id:u64}/items");
    assert_eq!(colon, braces);
    assert_eq!(constrained, braces);
    assert_eq!(braces, vec![lit("api"), param("id"), lit("items")]);
}

#[test]
fn rendered_paths_parse_back() {
    let segs = vec![lit("users"), param("id"), lit("posts"), param("")];
    let r = entry("GET", segs.clone());
    assert_eq!(parse_path_to_segments(&r.to_path()), segs);
    assert_eq!(parse_path_to_segments(&r.display_path()), segs);
}
