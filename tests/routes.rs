use frame_engine::routes::{authorize, not_found, protected_route, rocket};

#[test]
fn bearer_token_is_taken() {
    let auth = authorize(Some("Bearer abc123")).unwrap();
    assert_eq!(auth.token, "abc123");
    assert!(authorize(Some("Basic abc")).is_none());
    assert!(authorize(Some("Bear")).is_none());
    assert!(authorize(None).is_none());
}

#[test]
fn protected_route_grants_access() {
    let auth = authorize(Some("Bearer tok")).unwrap();
    let reply = protected_route(auth);
    assert_eq!(reply.status, 200);
    assert_eq!(reply.message, "Access granted");
    assert_eq!(reply.token, "tok");
}

#[test]
fn not_found_text() {
    assert_eq!(not_found(), "404 - Not Found");
}

#[test]
fn server_table() {
    let t = rocket();
    assert_eq!(t.routes.len(), 2);
    assert_eq!(t.routes[0].method, "GET");
    assert_eq!(t.routes[0].path, "/delay/<seconds>");
    assert_eq!(t.routes[1].path, "/protected");
    assert_eq!(t.catchers, vec![404]);
}
