use resty::method::Method;
use resty::router::Router;
use resty::tree::Resolution;
use resty::tree::ConflictKind;
use resty::router::RegisterError;
use resty::pattern::ParseErrorKind;

fn matched_handler(r: &Resolution<usize>) -> Option<usize> {
    match r {
        Resolution::Matched { handler, .. } => Some(*handler),
        _ => None,
    }
}

#[test]
fn mounting_behaves_like_registering_with_prefix_prepended() {
    let mut child: Router<usize> = Router::new();
    child.get("/products", 1).unwrap();
    child.get("/products/{id:usize}", 2).unwrap();
    child.post("/products", 3).unwrap();

    let mut mounted: Router<usize> = Router::new();
    assert_eq!(mounted.add("/v1", child).unwrap(), 0);

    let mut direct: Router<usize> = Router::new();
    direct.get("/v1/products", 1).unwrap();
    direct.get("/v1/products/{id:usize}", 2).unwrap();
    direct.post("/v1/products", 3).unwrap();

    for (m, path) in [
        (Method::Get, "/v1/products"),
        (Method::Get, "/v1/products/17"),
        (Method::Post, "/v1/products"),
        (Method::Get, "/v1/missing"),
        (Method::Delete, "/v1/products"),
    ] {
        let a = mounted.resolve(m, path);
        let b = direct.resolve(m, path);
        match (a, b) {
            (Resolution::Matched { handler: h1, .. }, Resolution::Matched { handler: h2, .. }) => {
                assert_eq!(h1, h2)
            },
            (Resolution::MissMethodNotAllowed, Resolution::MissMethodNotAllowed) => {},
            (Resolution::MissNotFound, Resolution::MissNotFound) => {},
            _ => panic!("mounted and direct routers disagree on {path}"),
        }
    }

    assert_eq!(mounted.routes(), direct.routes());
}

#[test]
fn mount_at_root_keeps_child_paths() {
    let mut child: Router<usize> = Router::new();
    child.get("/x", 1).unwrap();

    let mut parent: Router<usize> = Router::new();
    assert_eq!(parent.add("/", child).unwrap(), 0);
    assert_eq!(matched_handler(&parent.resolve(Method::Get, "/x")), Some(1));
}

#[test]
fn first_registered_wins_on_exact_duplicate_across_mounts() {
    let mut parent: Router<usize> = Router::new();
    parent.get("/v1/products", 1).unwrap();

    let mut child: Router<usize> = Router::new();
    child.get("/products", 2).unwrap();
    child.get("/other", 3).unwrap();

    // the duplicate child route is skipped, the rest is mounted
    assert_eq!(parent.add("/v1", child).unwrap(), 1);
    assert_eq!(matched_handler(&parent.resolve(Method::Get, "/v1/products")), Some(1));
    assert_eq!(matched_handler(&parent.resolve(Method::Get, "/v1/other")), Some(3));
}

#[test]
fn routes_listing_is_stable_and_complete() {
    let mut router: Router<usize> = Router::new();
    router.get("/", 0).unwrap();
    router.get("/items", 1).unwrap();
    router.post("/items", 2).unwrap();
    router.get("/items/{id:usize}", 3).unwrap();
    router.put("/users/{name}", 4).unwrap();
    router.delete("/items/{id:usize}", 5).unwrap();

    let lines = router.routes();
    assert_eq!(
        lines,
        vec![
            "GET /".to_string(),
            "GET /items".to_string(),
            "POST /items".to_string(),
            "GET /items/{id:usize}".to_string(),
            "PUT /users/{name}".to_string(),
            "DELETE /items/{id:usize}".to_string(),
        ]
    );
    // stable across repeated calls, one line per registered route
    assert_eq!(router.routes(), lines);
    assert_eq!(lines.len(), 6);

    assert_eq!(
        router.routes_text(),
        "GET /\nGET /items\nPOST /items\nGET /items/{id:usize}\nPUT /users/{name}\nDELETE /items/{id:usize}\n"
    );
}

#[test]
fn duplicate_registration_fails_at_registration_time() {

    let mut router: Router<usize> = Router::new();
    router.get("/items/{id:usize}", 1).unwrap();
    let again = router.get("/items/{id:usize}", 2);
    assert!(matches!(again, Err(RegisterError::Conflict(ConflictKind::Duplicate))));

    // the earlier registration still answers
    assert_eq!(matched_handler(&router.resolve(Method::Get, "/items/3")), Some(1));
    assert_eq!(router.routes().len(), 1);
}

#[test]
fn conflicting_parameter_styles_fail_at_registration_time() {

    let mut router: Router<usize> = Router::new();
    router.get("/items/{id:usize}", 1).unwrap();
    let clash = router.get("/items/{name}", 2);
    assert!(matches!(clash, Err(RegisterError::Conflict(ConflictKind::ParamMismatch))));

    // a later method on the same agreeing pattern is fine
    router.post("/items/{id:usize}", 3).unwrap();
}

#[test]
fn malformed_patterns_are_rejected_with_position() {

    let mut router: Router<usize> = Router::new();

    let e = match router.get("/items/{id", 1) {
        Err(RegisterError::Pattern(e)) => e,
        _ => panic!("expected a pattern error"),
    };
    assert_eq!(e.index, 1);
    assert_eq!(e.component, "{id");
    assert_eq!(e.kind, ParseErrorKind::UnbalancedBraces);

    let e = match router.get("/items/{id:u32}", 1) {
        Err(RegisterError::Pattern(e)) => e,
        _ => panic!("expected a pattern error"),
    };
    assert_eq!(e.kind, ParseErrorKind::UnknownType);

    let e = match router.get("/{}", 1) {
        Err(RegisterError::Pattern(e)) => e,
        _ => panic!("expected a pattern error"),
    };
    assert_eq!(e.kind, ParseErrorKind::EmptyName);

    // the router is unchanged by the refused registrations
    assert_eq!(router.routes().len(), 0);
}
