use resty::dispatch::Dispatch;
use resty::dispatch::body_decode_error;
use resty::dispatch::dispatch;
use resty::dispatch::respond_error;
use resty::dispatch::respond_value;
use resty::error::Error;
use resty::error::StatusCode;
use resty::method::Method;
use resty::response::Response;
use resty::router::Config;
use resty::router::Router;

fn body_json(resp: &Response) -> serde_json::Value {
    serde_json::from_slice(&resp.body).expect("response body must be valid JSON")
}

fn respond(d: Dispatch<usize>) -> Response {
    match d {
        Dispatch::Respond(r) => r,
        Dispatch::Call(..) => panic!("expected an immediate response"),
    }
}

#[test]
fn unregistered_path_yields_404_json_body() {
    let mut router: Router<usize> = Router::new();
    router.get("/items", 1).unwrap();

    let resp = respond(dispatch(&router, Method::Get, "/missing"));
    assert_eq!(resp.status, 404);
    let v = body_json(&resp);
    assert_eq!(v["code"], 404);
    assert_eq!(v["message"], "Requested resource was not found.");
    assert_eq!(v["details"], "/missing");
    assert!(resp
        .headers
        .iter()
        .any(|(n, val)| n == "Content-Type" && val == "application/json"));
}

#[test]
fn wrong_method_yields_405_json_body() {
    let mut router: Router<usize> = Router::new();
    router.post("/items", 1).unwrap();

    let resp = respond(dispatch(&router, Method::Get, "/items"));
    assert_eq!(resp.status, 405);
    let v = body_json(&resp);
    assert_eq!(v["code"], 405);
}

#[test]
fn matched_route_hands_back_handler_and_params() {
    let mut router: Router<usize> = Router::new();
    router.get("/items/{id:usize}", 42).unwrap();

    match dispatch(&router, Method::Get, "/items/8") {
        Dispatch::Call(h, params) => {
            assert_eq!(h, 42);
            assert_eq!(params.get_usize("id").unwrap(), 8);
        },
        Dispatch::Respond(_) => panic!("expected a handler call"),
    }
}

#[test]
fn failed_body_decode_yields_400_with_nonempty_details() {
    let e = body_decode_error("expected value at line 1 column 1");
    assert_eq!(e.code, StatusCode::BadRequest);
    assert!(!e.details.is_empty());

    let e2 = body_decode_error("");
    assert_eq!(e2.code, StatusCode::BadRequest);
    assert!(!e2.details.is_empty());

    let resp = respond_error(&Config::new(), &e);
    assert_eq!(resp.status, 400);
    let v = body_json(&resp);
    assert_eq!(v["code"], 400);
    assert_ne!(v["details"], "");
}

#[test]
fn failed_serialization_yields_500_json_body() {
    let resp = respond_value(&Config::new(), Err("key must be a string".to_string()));
    assert_eq!(resp.status, 500);
    let v = body_json(&resp);
    assert_eq!(v["code"], 500);
    assert_eq!(v["message"], "Unable to serialize response.");
    assert_eq!(v["details"], "key must be a string");
}

#[test]
fn successful_serialization_yields_200_with_the_body() {
    let body = serde_json::to_vec(&vec![1u32, 2, 3]).unwrap();
    let resp = respond_value(&Config::new(), Ok(body.clone()));
    assert_eq!(resp.status, 200);
    assert_eq!(resp.body, body);
}

#[test]
fn error_bodies_escape_troublesome_text() {
    let e = Error::bad_request("a \"quoted\" message\nwith control\tbytes", "back\\slash \u{1}");
    let resp = Response::from_error(&e);
    let v = body_json(&resp);
    assert_eq!(v["message"], "a \"quoted\" message\nwith control\tbytes");
    assert_eq!(v["details"], "back\\slash \u{1}");
}

#[test]
fn error_constructors_set_their_canonical_codes() {
    assert_eq!(Error::internal("m", "d").code.as_u16(), 500);
    assert_eq!(Error::not_found("d").code.as_u16(), 404);
    assert_eq!(Error::not_found("d").message, "Requested resource was not found.");
    assert_eq!(Error::bad_request("m", "d").code.as_u16(), 400);
    assert_eq!(Error::method_not_allowed("m", "d").code.as_u16(), 405);
}

#[test]
fn extra_headers_are_attached_to_every_response() {
    let config = Config::new().extra_header("X-Server", "resty");
    let mut router: Router<usize> = Router::with_config(config);
    router.get("/items", 1).unwrap();

    let miss = respond(dispatch(&router, Method::Get, "/missing"));
    assert!(miss.headers.iter().any(|(n, v)| n == "X-Server" && v == "resty"));

    let ok = respond_value(&router.config, Ok(b"{}".to_vec()));
    assert!(ok.headers.iter().any(|(n, v)| n == "X-Server" && v == "resty"));

    let err = respond_error(&router.config, &Error::internal("m", "d"));
    assert!(err.headers.iter().any(|(n, v)| n == "X-Server" && v == "resty"));
}

#[test]
fn exact_error_wire_body() {
    let e = Error::not_found("gone");
    assert_eq!(
        e.to_json_body(),
        br#"{"code":404,"message":"Requested resource was not found.","details":"gone"}"#.to_vec()
    );
}
