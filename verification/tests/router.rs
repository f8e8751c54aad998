use route_resolver::protocol::RouteInfo;
use route_resolver::route_index::RouteIndex;
use route_resolver::router::{
    index_located_routes, parse_route_listing, record_location, split_once_double_colon, RouteCandidate,
};

#[test]
fn test_filter_non_app_controller() {
    let json_str = r#"{
            "api_platform.action.placeholder": {
                "path": "/api/entities",
                "defaults": {
                    "_controller": "api_platform.action.placeholder"
                }
            }
        }"#;

    let candidates = parse_route_listing(json_str).unwrap();
    for candidate in &candidates {
        assert!(
            !candidate.class_fqcn.starts_with("App\\"),
            "Route '{}' with controller '{}' should be filtered out",
            candidate.name,
            candidate.class_fqcn
        );
    }
    assert!(candidates.is_empty());
}

#[test]
fn test_split_controller_string() {
    let controller = "App\\Controller\\HomeController::indexAction";
    let (class, method) = split_once_double_colon(controller).unwrap();
    assert_eq!(class, "App\\Controller\\HomeController");
    assert_eq!(method, "indexAction");
}

#[test]
fn test_invokable_controller_no_method() {
    let controller = "App\\Controller\\HomeController";
    assert!(split_once_double_colon(controller).is_none());
}

#[test]
fn split_uses_first_double_colon() {
    let (a, b) = split_once_double_colon("A::b::c").unwrap();
    assert_eq!(a, "A");
    assert_eq!(b, "b::c");
    let (a, b) = split_once_double_colon("::").unwrap();
    assert_eq!(a, "");
    assert_eq!(b, "");
    assert!(split_once_double_colon("a:b:").is_none());
}

#[test]
fn listing_keeps_app_controllers_only() {
    let output = r#"{
        "_profiler": {"defaults": {"_controller": "App\\Controller\\Profiler::run"}},
        "app_home": {"path": "/", "defaults": {"_controller": "App\\Controller\\HomeController::index"}},
        "app_invoke": {"defaults": {"_controller": "App\\Controller\\InvokableController"}},
        "vendor": {"defaults": {"_controller": "Vendor\\Thing::run"}},
        "no_defaults": {"path": "/x"},
        "numeric": {"defaults": {"_controller": 12}}
    }"#;
    let candidates = parse_route_listing(output).unwrap();
    assert_eq!(candidates.len(), 2);
    assert_eq!(candidates[0].name, "app_home");
    assert_eq!(candidates[0].class_fqcn, "App\\Controller\\HomeController");
    assert_eq!(candidates[0].method.as_deref(), Some("index"));
    assert_eq!(candidates[1].name, "app_invoke");
    assert_eq!(candidates[1].class_fqcn, "App\\Controller\\InvokableController");
    assert!(candidates[1].method.is_none());
}

#[test]
fn listing_errors() {
    let err = parse_route_listing("[1, 2]").unwrap_err();
    assert_eq!(err, "Expected a JSON object at top level of debug:router output");
    let err = parse_route_listing("not json").unwrap_err();
    assert!(err.starts_with("Failed to parse debug:router JSON: "));
    assert!(err.len() > "Failed to parse debug:router JSON: ".len());
}

#[test]
fn record_location_skips_failures() {
    let mut index = RouteIndex::new();
    record_location(&mut index, "a".to_string(), Ok(RouteInfo { file: "/a.php".to_string(), line: 3 }));
    record_location(&mut index, "b".to_string(), Err("Cannot read".to_string()));
    assert_eq!(index.len(), 1);
    assert_eq!(index.get("a").unwrap().line, 3);
    assert!(index.get("b").is_none());
}

#[test]
fn index_holds_exactly_the_located_routes() {
    let candidate = |name: &str| RouteCandidate {
        name: name.to_string(),
        class_fqcn: "App\\Controller\\C".to_string(),
        method: None,
    };
    let outcomes = vec![
        (candidate("a"), Ok(RouteInfo { file: "/a.php".to_string(), line: 3 })),
        (candidate("b"), Err("Cannot read '/b.php'".to_string())),
        (candidate("c"), Ok(RouteInfo { file: "/c.php".to_string(), line: 7 })),
    ];
    let index = index_located_routes(&outcomes);
    assert_eq!(index.len(), 2);
    assert_eq!(index.get("a").unwrap().line, 3);
    assert!(index.get("b").is_none());
    assert_eq!(index.get("c").unwrap().file, "/c.php");
    assert_eq!(index.route_names(), vec!["a".to_string(), "c".to_string()]);
}
