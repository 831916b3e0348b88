use ree::{Params, ResponseBuilder};

#[test]
fn params_insert_replaces() {
    let mut p = Params::new();
    p.insert("a".to_string(), "1".to_string());
    p.insert("a".to_string(), "2".to_string());
    assert_eq!(p.len(), 1);
    assert_eq!(p.get("a").unwrap(), "2");
    assert!(p.get("b").is_none());
}

#[test]
fn params_extend_keeps_existing() {
    let mut ctx = Params::new();
    ctx.insert("user".to_string(), "from-token".to_string());
    let mut routed = Params::new();
    routed.insert("user".to_string(), "from-path".to_string());
    routed.insert("id".to_string(), "42".to_string());
    ctx.extend_missing(routed);
    assert_eq!(ctx.len(), 2);
    assert_eq!(ctx.get("user").unwrap(), "from-token");
    assert_eq!(ctx.get("id").unwrap(), "42");
}

#[test]
fn responses() {
    let r = ResponseBuilder::with_text("hi");
    assert_eq!(r.status, 200);
    assert_eq!(r.headers, vec![("Content-Type".to_string(), "text/plain".to_string())]);
    assert_eq!(r.body, b"hi".to_vec());
    let e = ResponseBuilder::empty();
    assert_eq!(e.status, 200);
    assert!(e.body.is_empty() && e.headers.is_empty());
    let n = ResponseBuilder::not_found();
    assert_eq!(n.status, 404);
    assert!(n.body.is_empty() && n.headers.is_empty());
}
