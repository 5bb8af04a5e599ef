use tzt::dispatch::{
    accept_body, encode, Arg, BuildReason, Method, Operation, Outcome, ParamDecl, ParamSource,
    Routed, Service, Tag, ValueKind,
};
use tzt::router::RouteError;
use tzt::template::Segment;

fn lit(s: &str) -> Segment {
    Segment::Literal(s.to_string())
}

fn cap(s: &str) -> Segment {
    Segment::Capture(s.to_string())
}

fn param(name: &str, source: ParamSource, required: bool, kind: ValueKind) -> ParamDecl {
    ParamDecl { name: name.to_string(), source, required, kind }
}

fn op(method: Method, template: Vec<Segment>, params: Vec<ParamDecl>, outcomes: Vec<Tag>, takes_body: bool) -> Operation {
    Operation { method, template, params, outcomes, default_status: 500, takes_body }
}

/// find_pets, add_pet, find_pet_by_id, delete_pet.
fn pet_store() -> Service {
    let ops = vec![
        op(
            Method::Get,
            vec![lit("pets")],
            vec![
                param("tags", ParamSource::Query, false, ValueKind::Text),
                param("limit", ParamSource::Query, false, ValueKind::Integer),
            ],
            vec![Tag::Status(200), Tag::Default],
            false,
        ),
        op(Method::Post, vec![lit("pets")], vec![], vec![Tag::Status(200), Tag::Default], true),
        op(
            Method::Get,
            vec![lit("pets"), cap("id")],
            vec![param("id", ParamSource::Path, true, ValueKind::Integer)],
            vec![Tag::Status(200), Tag::Default],
            false,
        ),
        op(
            Method::Delete,
            vec![lit("pets"), cap("id")],
            vec![param("id", ParamSource::Path, true, ValueKind::Integer)],
            vec![Tag::Status(204), Tag::Default],
            false,
        ),
    ];
    match Service::new(ops) {
        Ok(s) => s,
        Err(_) => panic!("the pet store contract is valid"),
    }
}

fn invoked(r: Routed) -> (usize, Vec<Arg>, bool) {
    match r {
        Routed::Invoke(c) => (c.op, c.args, c.reads_body),
        Routed::Respond(x) => panic!("expected an invocation, got status {}", x.status),
    }
}

fn responded(r: Routed) -> (u16, String) {
    match r {
        Routed::Respond(x) => (x.status, x.body),
        Routed::Invoke(c) => panic!("expected a response, got operation {}", c.op),
    }
}

#[test]
fn find_pets_with_limit_lists_two() {
    let s = pet_store();
    let (op, args, reads) = invoked(s.route(Method::Get, "http://localhost/pets?limit=2"));
    assert_eq!(op, 0);
    assert_eq!(args, vec![Arg::Absent, Arg::Integer(2)]);
    assert!(!reads);
    let list = "[{\"id\":1,\"name\":\"a\"},{\"id\":2,\"name\":\"b\"}]".to_string();
    let e = encode(s.operation(op), Outcome { tag: Tag::Status(200), payload: list.clone() });
    assert!(!e.violation);
    assert_eq!(e.response.status, 200);
    assert_eq!(e.response.body, list);
}

#[test]
fn non_integer_id_is_bad_request() {
    let s = pet_store();
    let (status, body) = responded(s.route(Method::Get, "http://localhost/pets/abc"));
    assert_eq!(status, 400);
    assert_eq!(body, "{\"code\":400,\"message\":\"bad request\"}");
}

#[test]
fn integer_id_is_bound() {
    let s = pet_store();
    let (op, args, _) = invoked(s.route(Method::Get, "http://localhost/pets/42"));
    assert_eq!(op, 2);
    assert_eq!(args, vec![Arg::Integer(42)]);
    let (op, args, reads) = invoked(s.route(Method::Delete, "http://localhost/pets/-7"));
    assert_eq!(op, 3);
    assert_eq!(args, vec![Arg::Integer(-7)]);
    assert!(!reads);
}

#[test]
fn patch_on_known_path_is_method_not_allowed() {
    let s = pet_store();
    let (status, body) = responded(s.route(Method::Patch, "http://localhost/pets"));
    assert_eq!(status, 405);
    assert_eq!(body, "{\"code\":405,\"message\":\"method not allowed\"}");
}

#[test]
fn unknown_path_is_not_found() {
    let s = pet_store();
    let (status, body) = responded(s.route(Method::Get, "http://localhost/missing"));
    assert_eq!(status, 404);
    assert_eq!(body, "{\"code\":404,\"message\":\"path not found\"}");
}

#[test]
fn undeclared_outcome_is_internal_error() {
    let s = pet_store();
    let e = encode(s.operation(0), Outcome { tag: Tag::Status(201), payload: "[]".to_string() });
    assert!(e.violation);
    assert_eq!(e.response.status, 500);
    assert_eq!(e.response.body, "{\"code\":500,\"message\":\"internal error\"}");
}

#[test]
fn no_content_outcome_has_empty_body() {
    let s = pet_store();
    let e = encode(s.operation(3), Outcome { tag: Tag::Status(204), payload: "ignored".to_string() });
    assert!(!e.violation);
    assert_eq!(e.response.status, 204);
    assert_eq!(e.response.body, "");
}

#[test]
fn default_outcome_uses_declared_status() {
    let s = pet_store();
    let err = "{\"code\":7,\"message\":\"nope\"}".to_string();
    let e = encode(s.operation(2), Outcome { tag: Tag::Default, payload: err.clone() });
    assert!(!e.violation);
    assert_eq!(e.response.status, 500);
    assert_eq!(e.response.body, err);
}

#[test]
fn get_never_passes_a_body() {
    let s = pet_store();
    let r = s.route(Method::Get, "http://localhost/pets");
    let call = match r {
        Routed::Invoke(c) => c,
        Routed::Respond(_) => panic!("expected an invocation"),
    };
    assert!(!call.reads_body);
    match accept_body(call, Some(vec![0xff, 0xfe])) {
        Ok(inv) => {
            assert_eq!(inv.op, 0);
            assert_eq!(inv.body, None);
        }
        Err(_) => panic!("a GET body is not read"),
    }
}

#[test]
fn post_with_invalid_utf8_is_bad_request() {
    let s = pet_store();
    let call = match s.route(Method::Post, "http://localhost/pets") {
        Routed::Invoke(c) => c,
        Routed::Respond(_) => panic!("expected an invocation"),
    };
    assert!(call.reads_body);
    match accept_body(call, Some(vec![0x7b, 0xff, 0x7d])) {
        Ok(_) => panic!("invalid UTF-8 must not reach the operation"),
        Err(x) => assert_eq!(x.status, 400),
    }
}

#[test]
fn post_with_text_body_passes_it() {
    let s = pet_store();
    let call = match s.route(Method::Post, "http://localhost/pets") {
        Routed::Invoke(c) => c,
        Routed::Respond(_) => panic!("expected an invocation"),
    };
    match accept_body(call, Some("{\"name\":\"rex\"}".as_bytes().to_vec())) {
        Ok(inv) => {
            assert_eq!(inv.op, 1);
            assert_eq!(inv.body, Some("{\"name\":\"rex\"}".to_string()));
        }
        Err(_) => panic!("valid text is accepted"),
    }
}

#[test]
fn unreadable_body_is_bad_request() {
    let s = pet_store();
    let call = match s.route(Method::Post, "http://localhost/pets") {
        Routed::Invoke(c) => c,
        Routed::Respond(_) => panic!("expected an invocation"),
    };
    match accept_body(call, None) {
        Ok(_) => panic!("an unread body must not reach the operation"),
        Err(x) => assert_eq!(x.status, 400),
    }
}

#[test]
fn unsupported_method_is_method_not_allowed_with_empty_body() {
    let s = pet_store();
    let (status, body) = responded(s.route(Method::Other, "http://localhost/pets"));
    assert_eq!(status, 405);
    assert_eq!(body, "");
}

#[test]
fn unparsable_url_is_bad_request() {
    let s = pet_store();
    let (status, body) = responded(s.route(Method::Get, "http://[::1/pets"));
    assert_eq!(status, 400);
    assert_eq!(body, "{\"code\":400,\"message\":\"bad request\"}");
}

#[test]
fn origin_form_target_is_routed() {
    let s = pet_store();
    let (op, args, _) = invoked(s.route(Method::Get, "/pets?limit=2"));
    assert_eq!(op, 0);
    assert_eq!(args, vec![Arg::Absent, Arg::Integer(2)]);
    assert_eq!(invoked(s.route(Method::Get, "/pets/5")).0, 2);
}

#[test]
fn malformed_percent_escape_is_bad_request() {
    let s = pet_store();
    assert_eq!(responded(s.route(Method::Get, "/pets?tags=%zz")).0, 400);
    assert_eq!(responded(s.route(Method::Get, "http://localhost/pets%2")).0, 400);
    assert_eq!(responded(s.route(Method::Get, "/pets?tags=a%")).0, 400);
    let (_, args, _) = invoked(s.route(Method::Get, "/pets?tags=%41%2c"));
    assert_eq!(args, vec![Arg::Text("A,".to_string()), Arg::Absent]);
}

fn many_captures(n: usize) -> Vec<Segment> {
    (0..n).map(|i| cap(&format!("p{i}"))).collect()
}

#[test]
fn too_many_captures_are_refused() {
    let ok = op(Method::Get, many_captures(25), vec![], vec![], false);
    assert!(Service::new(vec![ok]).is_ok());
    let over = op(Method::Get, many_captures(26), vec![], vec![], false);
    let e = Service::new(vec![over]).err().unwrap();
    assert_eq!(e.op, 0);
    assert_eq!(e.reason, BuildReason::Route(RouteError::Invalid));
}

#[test]
fn query_is_percent_decoded_and_last_wins() {
    let s = pet_store();
    let (_, args, _) = invoked(s.route(Method::Get, "http://localhost/pets?tags=a%20b&limit=1&limit=3"));
    assert_eq!(args, vec![Arg::Text("a b".to_string()), Arg::Integer(3)]);
}

#[test]
fn malformed_query_integer_is_bad_request() {
    let s = pet_store();
    let (status, _) = responded(s.route(Method::Get, "http://localhost/pets?limit=ten"));
    assert_eq!(status, 400);
}

#[test]
fn missing_required_query_parameter_is_bad_request() {
    let ops = vec![op(
        Method::Get,
        vec![lit("search")],
        vec![param("q", ParamSource::Query, true, ValueKind::Text)],
        vec![Tag::Status(200)],
        false,
    )];
    let s = Service::new(ops).ok().unwrap();
    let (status, _) = responded(s.route(Method::Get, "http://localhost/search"));
    assert_eq!(status, 400);
    let (_, args, _) = invoked(s.route(Method::Get, "http://localhost/search?q=x"));
    assert_eq!(args, vec![Arg::Text("x".to_string())]);
}

fn mine_and_id(mine_first: bool) -> Service {
    let mine = op(Method::Get, vec![lit("pets"), lit("mine")], vec![], vec![Tag::Status(200)], false);
    let by_id = op(
        Method::Get,
        vec![lit("pets"), cap("id")],
        vec![param("id", ParamSource::Path, true, ValueKind::Text)],
        vec![Tag::Status(200)],
        false,
    );
    let ops = if mine_first { vec![mine, by_id] } else { vec![by_id, mine] };
    Service::new(ops).ok().unwrap()
}

#[test]
fn literal_segment_beats_capture_in_either_order() {
    let s = mine_and_id(true);
    assert_eq!(invoked(s.route(Method::Get, "http://localhost/pets/mine")).0, 0);
    assert_eq!(invoked(s.route(Method::Get, "http://localhost/pets/yours")).0, 1);
    let s = mine_and_id(false);
    assert_eq!(invoked(s.route(Method::Get, "http://localhost/pets/mine")).0, 1);
    let (op, args, _) = invoked(s.route(Method::Get, "http://localhost/pets/yours"));
    assert_eq!(op, 0);
    assert_eq!(args, vec![Arg::Text("yours".to_string())]);
}

#[test]
fn literal_wins_with_backtracking() {
    let a = op(Method::Get, vec![lit("a"), lit("b"), lit("c")], vec![], vec![Tag::Status(200)], false);
    let b = op(Method::Get, vec![cap("x"), lit("b"), lit("d")], vec![], vec![Tag::Status(200)], false);
    let s = Service::new(vec![a, b]).ok().unwrap();
    assert_eq!(invoked(s.route(Method::Get, "http://localhost/a/b/c")).0, 0);
    assert_eq!(invoked(s.route(Method::Get, "http://localhost/a/b/d")).0, 1);
}

#[test]
fn ambiguous_templates_are_refused() {
    let a = op(Method::Get, vec![lit("pets"), cap("id")], vec![], vec![], false);
    let b = op(Method::Get, vec![lit("pets"), cap("name")], vec![], vec![], false);
    match Service::new(vec![a, b]) {
        Ok(_) => panic!("ambiguous templates must be refused"),
        Err(e) => {
            assert_eq!(e.op, 1);
            assert_eq!(e.reason, BuildReason::Route(RouteError::Ambiguous));
        }
    }
}

#[test]
fn same_template_under_two_methods_is_accepted() {
    let a = op(Method::Get, vec![lit("pets"), cap("id")], vec![], vec![], false);
    let b = op(Method::Delete, vec![lit("pets"), cap("id")], vec![], vec![], false);
    assert!(Service::new(vec![a, b]).is_ok());
}

#[test]
fn invalid_templates_are_refused() {
    let dup = op(Method::Get, vec![cap("id"), cap("id")], vec![], vec![], false);
    let e = Service::new(vec![dup]).err().unwrap();
    assert_eq!(e.reason, BuildReason::Route(RouteError::Invalid));
    let empty = op(Method::Get, vec![], vec![], vec![], false);
    let e = Service::new(vec![empty]).err().unwrap();
    assert_eq!(e.reason, BuildReason::Route(RouteError::Invalid));
    let braces = op(Method::Get, vec![lit("a{b")], vec![], vec![], false);
    let e = Service::new(vec![braces]).err().unwrap();
    assert_eq!(e.reason, BuildReason::Route(RouteError::Invalid));
}

#[test]
fn unsupported_method_is_refused_at_build() {
    let other = op(Method::Other, vec![lit("x")], vec![], vec![], false);
    let e = Service::new(vec![other]).err().unwrap();
    assert_eq!(e.op, 0);
    assert_eq!(e.reason, BuildReason::UnsupportedMethod);
}

#[test]
fn capture_does_not_match_an_empty_segment() {
    let s = pet_store();
    let (status, _) = responded(s.route(Method::Get, "http://localhost/pets/"));
    assert_eq!(status, 404);
}
