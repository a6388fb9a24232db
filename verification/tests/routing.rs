use resty::dispatch::Params;
use resty::method::Method;
use resty::router::Router;
use resty::tree::PVal;
use resty::tree::Resolution;
use resty::router::Config;

fn matched_handler(r: &Resolution<usize>) -> Option<usize> {
    match r {
        Resolution::Matched { handler, .. } => Some(*handler),
        _ => None,
    }
}

fn matched_params(r: Resolution<usize>) -> Params {
    match r {
        Resolution::Matched { params, .. } => Params { items: params },
        _ => panic!("expected a match"),
    }
}

#[test]
fn typed_parameter_is_captured_and_converted() {
    let mut router: Router<usize> = Router::new();
    router.get("/items/{id:usize}", 7).unwrap();

    let r = router.resolve(Method::Get, "/items/42");
    assert_eq!(matched_handler(&r), Some(7));
    let params = matched_params(r);
    assert_eq!(params.get_usize("id").unwrap(), 42);
}

#[test]
fn non_numeric_segment_is_a_dead_end_not_a_crash() {
    let mut router: Router<usize> = Router::new();
    router.get("/items/{id:usize}", 7).unwrap();

    let r = router.resolve(Method::Get, "/items/abc");
    assert!(matches!(r, Resolution::MissNotFound));
}

#[test]
fn overlong_number_is_a_dead_end() {
    let mut router: Router<usize> = Router::new();
    router.get("/items/{id:usize}", 7).unwrap();

    let r = router.resolve(Method::Get, "/items/99999999999999999999999999");
    assert!(matches!(r, Resolution::MissNotFound));
}

#[test]
fn string_parameter_captures_raw_text() {
    let mut router: Router<usize> = Router::new();
    router.get("/users/{name}", 3).unwrap();

    let params = matched_params(router.resolve(Method::Get, "/users/ada"));
    assert_eq!(params.get_str("name").unwrap(), "ada");
}

#[test]
fn literal_wins_over_parametric_sibling() {
    let mut router: Router<usize> = Router::new();
    router.get("/items/new", 1).unwrap();
    router.get("/items/{id:usize}", 2).unwrap();

    let r = router.resolve(Method::Get, "/items/new");
    assert_eq!(matched_handler(&r), Some(1));
    let params = matched_params(r);
    assert_eq!(params.len(), 0);

    let r2 = router.resolve(Method::Get, "/items/5");
    assert_eq!(matched_handler(&r2), Some(2));
}

#[test]
fn literal_dead_end_backtracks_into_parametric_branch() {
    let mut router: Router<usize> = Router::new();
    router.get("/a/b", 1).unwrap();
    router.get("/a/{x}/c", 2).unwrap();

    let r = router.resolve(Method::Get, "/a/b/c");
    assert_eq!(matched_handler(&r), Some(2));
    let params = matched_params(r);
    assert_eq!(params.get_str("x").unwrap(), "b");
}

#[test]
fn trailing_slash_names_the_same_route() {
    let mut router: Router<usize> = Router::new();
    router.get("/products", 4).unwrap();

    assert_eq!(matched_handler(&router.resolve(Method::Get, "/products/")), Some(4));
    assert_eq!(matched_handler(&router.resolve(Method::Get, "products")), Some(4));
}

#[test]
fn root_pattern_matches_empty_path() {
    let mut router: Router<usize> = Router::new();
    router.get("/", 9).unwrap();

    assert_eq!(matched_handler(&router.resolve(Method::Get, "/")), Some(9));
    assert_eq!(matched_handler(&router.resolve(Method::Get, "")), Some(9));
}

#[test]
fn wrong_method_on_existing_path_is_method_not_allowed() {
    let mut router: Router<usize> = Router::new();
    router.post("/items", 1).unwrap();

    let r = router.resolve(Method::Get, "/items");
    assert!(matches!(r, Resolution::MissMethodNotAllowed));
}

#[test]
fn unregistered_path_is_not_found() {
    let mut router: Router<usize> = Router::new();
    router.get("/items", 1).unwrap();

    let r = router.resolve(Method::Get, "/nothing/here");
    assert!(matches!(r, Resolution::MissNotFound));
}

#[test]
fn resolving_twice_gives_identical_results() {
    let mut router: Router<usize> = Router::new();
    router.get("/items/{id:usize}", 7).unwrap();
    router.post("/items", 8).unwrap();

    for path in ["/items/42", "/items/abc", "/items"] {
        let a = router.resolve(Method::Get, path);
        let b = router.resolve(Method::Get, path);
        match (a, b) {
            (
                Resolution::Matched { handler: h1, params: p1 },
                Resolution::Matched { handler: h2, params: p2 },
            ) => {
                assert_eq!(h1, h2);
                assert_eq!(p1.len(), p2.len());
                for (x, y) in p1.iter().zip(p2.iter()) {
                    assert_eq!(x.0, y.0);
                    match (&x.1, &y.1) {
                        (PVal::Str(a), PVal::Str(b)) => assert_eq!(a, b),
                        (PVal::Uint(a), PVal::Uint(b)) => assert_eq!(a, b),
                        _ => panic!("differing capture kinds"),
                    }
                }
            },
            (Resolution::MissMethodNotAllowed, Resolution::MissMethodNotAllowed) => {},
            (Resolution::MissNotFound, Resolution::MissNotFound) => {},
            _ => panic!("resolution changed between identical calls"),
        }
    }
}

#[test]
fn head_is_served_from_get_by_default() {
    let mut router: Router<usize> = Router::new();
    router.get("/items", 1).unwrap();

    assert_eq!(matched_handler(&router.resolve(Method::Head, "/items")), Some(1));
}

#[test]
fn head_fallback_can_be_disabled() {
    let mut router: Router<usize> = Router::with_config(Config::new().handle_head(false));
    router.get("/items", 1).unwrap();

    let r = router.resolve(Method::Head, "/items");
    assert!(matches!(r, Resolution::MissMethodNotAllowed));
}

#[test]
fn accessor_errors_name_the_parameter() {
    let mut router: Router<usize> = Router::new();
    router.get("/pair/{id:usize}/{word}", 6).unwrap();

    let params = matched_params(router.resolve(Method::Get, "/pair/3/hello"));

    let missing = params.get_usize("nope").unwrap_err();
    assert_eq!(missing.code.as_u16(), 400);
    assert_eq!(missing.message, "Unknown path parameter.");
    assert_eq!(missing.details, "nope");

    let wrong_kind = params.get_usize("word").unwrap_err();
    assert_eq!(wrong_kind.code.as_u16(), 400);
    assert_eq!(wrong_kind.message, "Invalid path parameter.");
    assert_eq!(wrong_kind.details, "word");

    let not_text = params.get_str("id").unwrap_err();
    assert_eq!(not_text.code.as_u16(), 400);
    assert_eq!(not_text.message, "Invalid path parameter.");
    assert_eq!(not_text.details, "id");
}
