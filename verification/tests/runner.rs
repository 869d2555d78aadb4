use apictl::config::{Config, Error};
use apictl::dict::Dict;
use apictl::output::OutputFormat;
use apictl::request::{Body, Request};
use apictl::response::{Response, ResponseError};
use apictl::results::{Results, State};
use apictl::test::{Assert, Step, Test, TestError, TestRun};

fn response_of(status: u16, body: &str) -> Response {
    Response {
        status_code: status,
        version: "HTTP/1.1".to_string(),
        headers: Dict::new(),
        body: body.to_string(),
    }
}

fn get_request(url: &str) -> Request {
    Request {
        description: String::new(),
        tags: vec![],
        url: url.to_string(),
        method: "GET".to_string(),
        headers: Dict::new(),
        query_parameters: Dict::new(),
        body: Body::Empty,
    }
}

fn is_failed(s: &State) -> bool {
    matches!(s, State::Failed(_))
}

fn is_passed(s: &State) -> bool {
    matches!(s, State::Passed)
}

#[test]
fn assert_status_code() {
    let resp = response_of(200, "{}");
    assert!((Assert::StatusCode { value: 200 }).execute(&resp).is_ok());
    match (Assert::StatusCode { value: 404 }).execute(&resp) {
        Err(TestError::AssertError(m)) => assert_eq!(m, "got status code 200, want 404"),
        _ => panic!("expected an assert error"),
    }
}

#[test]
fn assert_headers() {
    let mut headers: Dict<String> = Dict::new();
    headers.insert("content-type".to_string(), "application/json".to_string());
    let resp = Response {
        status_code: 200,
        version: "HTTP/1.1".to_string(),
        headers,
        body: "{}".to_string(),
    };
    let ok = Assert::HeaderContains {
        key: "content-type".to_string(),
        value: "json".to_string(),
    };
    assert!(ok.execute(&resp).is_ok());
    let eq = Assert::HeaderEquals {
        key: "content-type".to_string(),
        value: "application/json".to_string(),
    };
    assert!(eq.execute(&resp).is_ok());
    let missing = Assert::HeaderEquals { key: "server".to_string(), value: "x".to_string() };
    match missing.execute(&resp) {
        Err(TestError::AssertError(m)) => assert_eq!(m, "header not found: server"),
        _ => panic!("expected an assert error"),
    }
    let wrong = Assert::HeaderContains {
        key: "content-type".to_string(),
        value: "xml".to_string(),
    };
    match wrong.execute(&resp) {
        Err(TestError::AssertError(m)) => {
            assert_eq!(m, "header 'content-type' got 'application/json', does not contain 'xml'");
        }
        _ => panic!("expected an assert error"),
    }
}

#[test]
fn assert_body_paths() {
    let resp = response_of(200, "{\"a\": {\"b\": \"Galaxy\"}}");
    let key = "a.b".to_string();
    assert!((Assert::Contains { key: key.clone(), value: "ala".to_string() }).execute(&resp).is_ok());
    assert!((Assert::Equals { key: key.clone(), value: "Galaxy".to_string() }).execute(&resp).is_ok());
    assert!((Assert::NotEquals { key: key.clone(), value: "Mars".to_string() }).execute(&resp).is_ok());
    assert!((Assert::HasPrefix { key: key.clone(), value: "Gal".to_string() }).execute(&resp).is_ok());
    assert!((Assert::HasSuffix { key: key.clone(), value: "axy".to_string() }).execute(&resp).is_ok());
    match (Assert::Equals { key: key.clone(), value: "Mars".to_string() }).execute(&resp) {
        Err(TestError::AssertError(m)) => assert_eq!(m, "body 'a.b' got 'Galaxy', want 'Mars'"),
        _ => panic!("expected an assert error"),
    }
    assert!(matches!(
        (Assert::NotEquals { key: key.clone(), value: "Galaxy".to_string() }).execute(&resp),
        Err(TestError::AssertError(_))
    ));
    assert!(matches!(
        (Assert::HasPrefix { key: key.clone(), value: "axy".to_string() }).execute(&resp),
        Err(TestError::AssertError(_))
    ));
    assert!(matches!(
        (Assert::HasSuffix { key: key.clone(), value: "Gal".to_string() }).execute(&resp),
        Err(TestError::AssertError(_))
    ));
    // a path that reaches nothing is a failure, not a pass
    match (Assert::Contains { key: "a.z".to_string(), value: "x".to_string() }).execute(&resp) {
        Err(TestError::AssertError(m)) => assert_eq!(m, "key 'a.z' not found in request"),
        _ => panic!("expected an assert error"),
    }
}

#[test]
fn assert_regex() {
    let resp = response_of(200, "{\"a\": \"Galaxy\"}");
    let good = Assert::Regex { key: "a".to_string(), value: "^Gal.*y$".to_string() };
    assert!(good.execute(&resp).is_ok());
    let bad = Assert::Regex { key: "a".to_string(), value: "^Mars$".to_string() };
    assert!(matches!(bad.execute(&resp), Err(TestError::AssertError(_))));
    let bad_msg = Assert::Regex { key: "a".to_string(), value: "^Mars$".to_string() };
    match bad_msg.execute(&resp) {
        Err(TestError::AssertError(m)) => {
            assert_eq!(m, "body 'a' got 'Galaxy', does not match regex '^Mars$'");
        }
        _ => panic!("expected an assert error"),
    }
    let invalid = Assert::Regex { key: "a".to_string(), value: "(".to_string() };
    assert!(matches!(invalid.execute(&resp), Err(TestError::RegexError(_))));
    // an unresolvable path fails as key-not-found even when the
    // pattern would not compile
    let unresolved = Assert::Regex { key: "a.z".to_string(), value: "(".to_string() };
    match unresolved.execute(&resp) {
        Err(TestError::AssertError(m)) => assert_eq!(m, "key 'a.z' not found in request"),
        _ => panic!("expected an assert error"),
    }
}

#[test]
fn results_tree_basics() {
    let mut root = Results::new("root");
    assert!(root.is_empty());
    root.add("a");
    root.add("b");
    assert!(!root.is_empty());
    assert_eq!(root.len(), 3);
    assert_eq!(root.children[0].name, "a");
    assert!(matches!(root.children[0].state, State::NotRun));
}

#[test]
fn results_update_by_names() {
    let mut root = Results::new("root");
    root.add("a");
    root.add("b");
    let names = vec!["root".to_string(), "b".to_string()];
    root.update(&names, State::Passed, 5);
    assert!(is_passed(&root.children[1].state));
    assert_eq!(root.children[1].duration_ns, 5);
    assert!(matches!(root.children[0].state, State::NotRun));
    assert!(matches!(root.state, State::NotRun));
}

#[test]
fn results_render_text() {
    let r = Results::new("hello");
    assert_eq!(r.render(""), "- (0ns) hello\n");
    let mut root = Results::new("root");
    root.add("child");
    assert_eq!(root.render(""), "- (0ns) root\n  - (0ns) child\n");
}

#[test]
fn skeleton_mirrors_test() {
    let test = Test {
        description: "d".to_string(),
        steps: vec![Step {
            name: "s1".to_string(),
            request: "r1".to_string(),
            asserts: vec![
                Assert::StatusCode { value: 200 },
                Assert::Equals { key: "a".to_string(), value: "b".to_string() },
            ],
        }],
    };
    let tree = Results::from_test("t", &test);
    assert_eq!(tree.name, "t");
    assert_eq!(tree.children.len(), 1);
    assert_eq!(tree.children[0].name, "s1");
    assert_eq!(tree.children[0].children.len(), 2);
    assert_eq!(tree.children[0].children[0].name, "status_code == 200");
    assert_eq!(tree.children[0].children[1].name, "equals(a, b)");
}

/// One step with three assertions where the second fails: the first
/// and third pass, the step and the whole test fail.
#[test]
fn three_asserts_one_fails() {
    let test = Test {
        description: "d".to_string(),
        steps: vec![Step {
            name: "s1".to_string(),
            request: "r1".to_string(),
            asserts: vec![
                Assert::StatusCode { value: 200 },
                Assert::Equals { key: "a.b".to_string(), value: "nope".to_string() },
                Assert::StatusCode { value: 200 },
            ],
        }],
    };
    let mut requests: Dict<Request> = Dict::new();
    requests.insert("r1".to_string(), get_request("http://example.test/"));

    let mut run = TestRun::new("t", test, requests, Dict::new(), Dict::new());
    assert!(!run.done());
    assert!(run.awaiting_response());
    let rendered = run.next_request().expect("request should be found");
    assert_eq!(rendered.url, "http://example.test/");

    run.provide_response(response_of(200, "{\"a\": {\"b\": \"x\"}}"));
    while run.asserts_pending() {
        run.eval_assert(3);
    }
    run.finish_step(7);
    assert!(run.done());
    run.finish(9);

    let tree = run.results();
    let step = &tree.children[0];
    assert!(is_passed(&step.children[0].state));
    assert_eq!(step.children[0].duration_ns, 3);
    assert!(is_failed(&step.children[1].state));
    assert!(is_passed(&step.children[2].state));
    match &step.children[1].state {
        State::Failed(reason) => {
            assert_eq!(reason, "body 'a.b' got 'x', want 'nope'");
        }
        _ => unreachable!(),
    }
    assert!(is_failed(&step.state));
    assert_eq!(step.duration_ns, 7);
    assert!(is_failed(&tree.state));
    assert_eq!(tree.duration_ns, 9);
}

#[test]
fn all_asserts_pass() {
    let test = Test {
        description: "d".to_string(),
        steps: vec![Step {
            name: "s1".to_string(),
            request: "r1".to_string(),
            asserts: vec![Assert::StatusCode { value: 200 }],
        }],
    };
    let mut requests: Dict<Request> = Dict::new();
    requests.insert("r1".to_string(), get_request("http://example.test/"));
    let mut run = TestRun::new("t", test, requests, Dict::new(), Dict::new());
    run.next_request().unwrap();
    run.provide_response(response_of(200, "{}"));
    while run.asserts_pending() {
        run.eval_assert(0);
    }
    run.finish_step(1);
    run.finish(2);
    let tree = run.results();
    assert!(is_passed(&tree.state));
    assert!(is_passed(&tree.children[0].state));
}

#[test]
fn unknown_request_is_fatal() {
    let test = Test {
        description: "d".to_string(),
        steps: vec![Step {
            name: "s1".to_string(),
            request: "missing".to_string(),
            asserts: vec![],
        }],
    };
    let run = TestRun::new("t", test, Dict::new(), Dict::new(), Dict::new());
    match run.next_request() {
        Err(TestError::RequestNotFound(n)) => assert_eq!(n, "missing"),
        _ => panic!("expected a request-not-found error"),
    }
}

#[test]
fn later_steps_see_earlier_responses() {
    let test = Test {
        description: "d".to_string(),
        steps: vec![
            Step {
                name: "first".to_string(),
                request: "r1".to_string(),
                asserts: vec![],
            },
            Step {
                name: "second".to_string(),
                request: "r2".to_string(),
                asserts: vec![],
            },
        ],
    };
    let mut requests: Dict<Request> = Dict::new();
    requests.insert("r1".to_string(), get_request("http://one.test/"));
    requests.insert("r2".to_string(), get_request("http://two.test/${response.r1.next}"));

    let mut run = TestRun::new("t", test, requests, Dict::new(), Dict::new());
    run.next_request().unwrap();
    run.provide_response(response_of(200, "{\"next\": \"page2\"}"));
    while run.asserts_pending() {
        run.eval_assert(0);
    }
    run.finish_step(0);
    let second = run.next_request().unwrap();
    assert_eq!(second.url, "http://two.test/page2");
}

#[test]
fn response_from_parts() {
    let headers = vec![
        ("a".to_string(), Some("1".to_string())),
        ("b".to_string(), Some("2".to_string())),
    ];
    let r = Response::from_parts(201, "HTTP/2.0".to_string(), &headers, "body".to_string())
        .expect("all headers are text");
    assert_eq!(r.status_code, 201);
    assert_eq!(r.version, "HTTP/2.0");
    assert_eq!(r.body, "body");
    assert_eq!(r.headers.get("a"), Some(&"1".to_string()));
    assert_eq!(r.headers.get("b"), Some(&"2".to_string()));

    let bad = vec![
        ("a".to_string(), Some("1".to_string())),
        ("weird".to_string(), None),
    ];
    match Response::from_parts(200, "HTTP/1.1".to_string(), &bad, String::new()) {
        Err(ResponseError::NonAsciiHeader(n)) => assert_eq!(n, "weird"),
        _ => panic!("expected a non-text header error"),
    }
}

#[test]
fn config_merge_is_right_biased() {
    let mut a = Config::new_empty();
    let mut ctx1: Dict<String> = Dict::new();
    ctx1.insert("k".to_string(), "old".to_string());
    a.contexts.insert("base".to_string(), ctx1);

    let mut b = Config::new_empty();
    let mut ctx2: Dict<String> = Dict::new();
    ctx2.insert("k".to_string(), "new".to_string());
    b.contexts.insert("base".to_string(), ctx2);

    a.merge(b);
    let merged = a.contexts.get("base").unwrap();
    assert_eq!(merged.get("k"), Some(&"new".to_string()));
}

#[test]
fn merge_contexts_overrides_and_errors() {
    let mut cfg = Config::new_empty();
    let mut c1: Dict<String> = Dict::new();
    c1.insert("k".to_string(), "one".to_string());
    c1.insert("only1".to_string(), "x".to_string());
    cfg.contexts.insert("c1".to_string(), c1);
    let mut c2: Dict<String> = Dict::new();
    c2.insert("k".to_string(), "two".to_string());
    cfg.contexts.insert("c2".to_string(), c2);

    let names = vec!["c1".to_string(), "c2".to_string()];
    let merged = cfg.merge_contexts(&names).unwrap();
    assert_eq!(merged.get("k"), Some(&"two".to_string()));
    assert_eq!(merged.get("only1"), Some(&"x".to_string()));

    let missing = vec!["c1".to_string(), "nope".to_string()];
    match cfg.merge_contexts(&missing) {
        Err(Error::ContextNotFound(n)) => assert_eq!(n, "nope"),
        _ => panic!("expected a context-not-found error"),
    }
}

#[test]
fn output_format_names() {
    assert!(matches!(OutputFormat::parse("table"), Some(OutputFormat::Table)));
    assert!(matches!(OutputFormat::parse("tsv"), Some(OutputFormat::TSV)));
    assert!(matches!(OutputFormat::parse("yaml"), Some(OutputFormat::Yaml)));
    assert!(OutputFormat::parse("csv").is_none());
}
