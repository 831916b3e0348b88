use ree::{trace, Engine, Step};

#[test]
fn test_new_group() {
    let mut engine: Engine<&str> = Engine::new();
    let group = engine.group("/api");
    assert_eq!(group.prefix(), "/api");
    println!("{:?}", group.prefix());
}

#[test]
fn all_routes_include_group_routes_with_prefix() {
    let mut engine: Engine<&str> = Engine::new();
    engine.get("/hello", "hello");
    let group = engine.group("/api");
    group.get("/users", "users");
    let routes = engine.get_all_routes();
    assert_eq!(
        routes,
        vec![
            ("GET".to_string(), "/hello".to_string()),
            ("GET".to_string(), "/api/users".to_string()),
        ]
    );
}

#[test]
fn group_with_same_prefix_replaces_earlier() {
    let mut engine: Engine<&str> = Engine::new();
    engine.group("/api").get("/old", "old");
    engine.group("/api").get("/new", "new");
    let routes = engine.get_all_routes();
    assert_eq!(routes, vec![("GET".to_string(), "/api/new".to_string())]);
}

#[test]
fn dispatch_runs_global_then_group_middleware() {
    let mut engine: Engine<&str> = Engine::new();
    engine.use_middleware("A");
    engine.use_middleware("B");
    engine.get("/top", "T");
    let group = engine.group("/api");
    group.use_middleware("C");
    group.add_route("GET", "/users/:id", "H");
    let app = engine.build();

    let routed = app.dispatch("GET", "/api/users/7").unwrap();
    assert_eq!(*routed.handler, "H");
    assert_eq!(routed.chain, vec![&"A", &"B", &"C"]);
    assert_eq!(routed.params.get("id").unwrap(), "7");

    let routed = app.dispatch("GET", "/top").unwrap();
    assert_eq!(*routed.handler, "T");
    assert_eq!(routed.chain, vec![&"A", &"B"]);
}

#[test]
fn dispatch_unregistered_method_is_not_found() {
    let mut engine: Engine<&str> = Engine::new();
    engine.add_route("GET", "/items", "list");
    engine.add_route("POST", "/items", "create");
    let app = engine.build();
    assert!(app.dispatch("DELETE", "/items").is_none());
    assert_eq!(*app.dispatch("POST", "/items").unwrap().handler, "create");
    assert!(app.dispatch("GET", "/nothing").is_none());
}

#[test]
fn onion_order_without_short_circuit() {
    assert_eq!(
        trace(3, None),
        vec![
            Step::Enter(0),
            Step::Enter(1),
            Step::Enter(2),
            Step::Handler,
            Step::Leave(2),
            Step::Leave(1),
            Step::Leave(0),
        ]
    );
    assert_eq!(trace(0, None), vec![Step::Handler]);
}

#[test]
fn short_circuit_skips_inner_layers() {
    assert_eq!(trace(3, Some(0)), vec![Step::Enter(0), Step::Leave(0)]);
    assert_eq!(
        trace(3, Some(1)),
        vec![Step::Enter(0), Step::Enter(1), Step::Leave(1), Step::Leave(0)]
    );
    assert_eq!(trace(2, Some(5)), trace(2, None));
}

#[test]
fn new_engine_lists_and_finds_nothing() {
    let engine: Engine<&str> = Engine::new();
    assert!(engine.get_all_routes().is_empty());
    let app = engine.build();
    assert!(app.dispatch("GET", "/").is_none());
}

#[test]
fn group_route_is_served_under_its_prefix_only() {
    let mut engine: Engine<&str> = Engine::new();
    engine.group("/api").add_route("GET", "/users", "users");
    assert_eq!(engine.get_all_routes(), vec![("GET".to_string(), "/api/users".to_string())]);
    let app = engine.build();
    assert_eq!(*app.dispatch("GET", "/api/users").unwrap().handler, "users");
    assert!(app.dispatch("GET", "/users").is_none());
}
