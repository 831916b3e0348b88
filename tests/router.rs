use ree::Router;

#[test]
fn test_new_router() {
    let mut router: Router<&str> = Router::new();
    router.add_route("GET", "/", "Hello, World!");
    router.add_route("GET", "/hello", "Hello!");
    assert_eq!(router.get_all_routes().len(), 2);
}

#[test]
fn test_parse_pattern() {
    let pattern = "/p/:lang/doc";
    let parts = Router::parse_pattern(pattern);
    assert_eq!(parts, vec!["p", ":lang", "doc"]);
}

#[test]
fn test_get_route() {
    let mut router: Router<&str> = Router::new();
    router.add_route("GET", "/p/:lang/doc", "Hello, World!");
    let (node, params) = router.get_route("GET", "/p/rust/doc");
    assert!(node.is_some());
    assert_eq!(params.get("lang").unwrap(), "rust");
}

#[test]
fn test_static_file_route() {
    let mut router: Router<&str> = Router::new();
    router.add_route("GET", "/static/*filepath", "Static file handler");
    let (node, params) = router.get_route("GET", "/static/js/app.js");
    assert!(node.is_some());
    assert_eq!(node.unwrap().pattern, "/static/*filepath");
    assert_eq!(params.get("filepath").unwrap(), "js/app.js");
}

#[test]
fn parse_drops_empty_segments() {
    assert_eq!(Router::parse_pattern("/a//b/"), vec!["a", "b"]);
    assert_eq!(Router::parse_pattern(""), Vec::<&str>::new());
    assert_eq!(Router::parse_pattern("///"), Vec::<&str>::new());
}

#[test]
fn parse_stops_after_first_wildcard() {
    assert_eq!(Router::parse_pattern("/static/*filepath/more"), vec!["static", "*filepath"]);
    assert_eq!(Router::parse_pattern("/*a/*b"), vec!["*a"]);
    assert_eq!(Router::parse_pattern("/x/:id/*rest"), vec!["x", ":id", "*rest"]);
}

#[test]
fn named_param_mismatch_is_no_match() {
    let mut router: Router<&str> = Router::new();
    router.add_route("GET", "/p/:lang/doc", "doc");
    let (node, params) = router.get_route("GET", "/p/rust/other");
    assert!(node.is_none());
    assert_eq!(params.len(), 0);
}

#[test]
fn wildcard_needs_a_remaining_segment() {
    let mut router: Router<&str> = Router::new();
    router.add_route("GET", "/static/*filepath", "files");
    let (node, _) = router.get_route("GET", "/static");
    assert!(node.is_none());
    let (node, params) = router.get_route("GET", "/static/a");
    assert!(node.is_some());
    assert_eq!(params.get("filepath").unwrap(), "a");
}

#[test]
fn unknown_method_is_no_match() {
    let mut router: Router<&str> = Router::new();
    router.add_route("GET", "/hello", "hi");
    let (node, _) = router.get_route("POST", "/hello");
    assert!(node.is_none());
}

#[test]
fn same_pattern_twice_replaces_handler() {
    let mut router: Router<&str> = Router::new();
    router.add_route("GET", "/users/:id", "first");
    router.add_route("GET", "/users/:id", "second");
    assert_eq!(router.get_all_routes().len(), 1);
    assert_eq!(router.handle("GET-/users/:id"), Some(&"second"));
}

#[test]
fn first_registered_sibling_wins() {
    let mut router: Router<&str> = Router::new();
    router.add_route("GET", "/a/:x", "param");
    router.add_route("GET", "/a/b", "literal");
    let (node, params) = router.get_route("GET", "/a/b");
    assert_eq!(node.unwrap().pattern, "/a/:x");
    assert_eq!(params.get("x").unwrap(), "b");

    let mut router: Router<&str> = Router::new();
    router.add_route("GET", "/a/b", "literal");
    router.add_route("GET", "/a/:x", "param");
    let (node, params) = router.get_route("GET", "/a/b");
    assert_eq!(node.unwrap().pattern, "/a/b");
    assert_eq!(params.len(), 0);
}

#[test]
fn search_backtracks_to_later_sibling() {
    let mut router: Router<&str> = Router::new();
    router.add_route("GET", "/a/:x/c", "c");
    router.add_route("GET", "/a/b/d", "d");
    let (node, _) = router.get_route("GET", "/a/b/d");
    assert_eq!(node.unwrap().pattern, "/a/b/d");
}

#[test]
fn internal_node_is_not_a_match() {
    let mut router: Router<&str> = Router::new();
    router.add_route("GET", "/a/b", "ab");
    let (node, _) = router.get_route("GET", "/a");
    assert!(node.is_none());
}

#[test]
fn root_pattern_matches_root_path() {
    let mut router: Router<&str> = Router::new();
    router.add_route("GET", "/", "root");
    let (node, _) = router.get_route("GET", "/");
    assert_eq!(node.unwrap().pattern, "/");
    let (node, _) = router.get_route("GET", "");
    assert!(node.is_some());
}

#[test]
fn several_params_are_bound() {
    let mut router: Router<&str> = Router::new();
    router.add_route("GET", "/u/:user/files/*path", "files");
    let (node, params) = router.get_route("GET", "/u/ann/files/a/b/c.txt");
    assert!(node.is_some());
    assert_eq!(params.len(), 2);
    assert_eq!(params.get("user").unwrap(), "ann");
    assert_eq!(params.get("path").unwrap(), "a/b/c.txt");
    assert!(params.get("files").is_none());
}

#[test]
fn routes_listed_per_method() {
    let mut router: Router<&str> = Router::new();
    router.add_route("GET", "/a", "1");
    router.add_route("POST", "/a", "2");
    router.add_route("GET", "/b/:id", "3");
    let routes = router.get_all_routes();
    assert_eq!(
        routes,
        vec![
            ("GET".to_string(), "/a".to_string()),
            ("GET".to_string(), "/b/:id".to_string()),
            ("POST".to_string(), "/a".to_string()),
        ]
    );
    assert_eq!(router.handle("POST-/a"), Some(&"2"));
    assert_eq!(router.handle("PUT-/a"), None);
}

#[test]
fn new_router_lists_nothing() {
    let router: Router<&str> = Router::new();
    assert!(router.get_all_routes().is_empty());
    assert!(router.handle("GET-/").is_none());
}

#[test]
fn registered_routes_are_listed() {
    let mut router: Router<&str> = Router::new();
    router.add_route("GET", "/", "root");
    router.add_route("GET", "/hello", "hello");
    let routes = router.get_all_routes();
    assert!(routes.contains(&("GET".to_string(), "/".to_string())));
    assert!(routes.contains(&("GET".to_string(), "/hello".to_string())));
    let before = router.get_all_routes();
    router.add_route("GET", "/hello", "again");
    assert_eq!(router.get_all_routes(), before);
}
