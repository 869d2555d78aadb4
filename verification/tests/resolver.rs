use apictl::applicator::{placeholder_names, Applicator};
use apictl::dict::Dict;
use apictl::request::{Body, MultiPartField, RawBody, Request, RequestError, Method, default_method};
use apictl::response::Response;

fn context_of(pairs: &[(&str, &str)]) -> Dict<String> {
    let mut d: Dict<String> = Dict::new();
    for (k, v) in pairs {
        d.insert(k.to_string(), v.to_string());
    }
    d
}

fn response_of(status: u16, body: &str) -> Response {
    Response {
        status_code: status,
        version: "HTTP/1.1".to_string(),
        headers: Dict::new(),
        body: body.to_string(),
    }
}

#[test]
fn variable_regex() {
    let tests: Vec<(&str, Vec<&str>)> = vec![
        ("Hello, ${name}", vec!["name"]),
        ("Hello, ${   name  }! how are you?", vec!["name"]),
        ("Hello, ${ name }! How are you, ${    name}?", vec!["name", "name"]),
        ("Hello, ${name }! How are you, ${name    }?", vec!["name", "name"]),
        (
            "Hello, ${ cheese_and_toast }${toast_and_cheese}",
            vec!["cheese_and_toast", "toast_and_cheese"],
        ),
        ("howdy, ${ responses.get.name }", vec!["responses.get.name"]),
    ];

    for (input, expected) in tests {
        let names = placeholder_names(input);
        let actual: Vec<&str> = names.iter().map(|s| s.as_str()).collect();
        assert_eq!(actual, expected);
    }
}

#[test]
fn test_apply() {
    let context = context_of(&[("name", "World"), ("age", "4.543 Billion")]);

    let mut responses: Dict<Response> = Dict::new();
    responses.insert(
        "hello".to_string(),
        response_of(200, "{ \"name\": \"Galaxy\", \"age\": \"13.61 Billion\" }"),
    );

    let app = Applicator::new(context, responses);

    let s = app.apply("Hello, ${name}! You are ${age} years old. My name is ${response.hello.name}. I am ${response.hello.age} years old.${response.hello.some.bad.one}${response.}");
    assert_eq!(
        s,
        "Hello, World! You are 4.543 Billion years old. My name is Galaxy. I am 13.61 Billion years old."
    );
}

#[test]
fn context_apply() {
    let context = context_of(&[("name", "John"), ("age", "30")]);
    let app = Applicator::new(context, Dict::new());

    let input_string = "My name is ${name} and I am ${age} years old.";
    let expected_string = "My name is John and I am 30 years old.";

    assert_eq!(app.apply(input_string), expected_string);
}

#[test]
fn body_path_resolution() {
    // A nested object path yields the leaf; a missing leaf yields the
    // empty string.
    let mut responses: Dict<Response> = Dict::new();
    responses.insert("R".to_string(), response_of(200, "{\"a\":{\"b\":\"x\"}}"));
    let app = Applicator::new(Dict::new(), responses);

    assert_eq!(app.apply("${response.R.a.b}"), "x");
    assert_eq!(app.apply("${response.R.a.c}"), "");
}

#[test]
fn context_and_store_together() {
    let context = context_of(&[("name", "World")]);
    let mut responses: Dict<Response> = Dict::new();
    responses.insert("hello".to_string(), response_of(200, "{\"name\":\"Galaxy\"}"));
    let app = Applicator::new(context, responses);

    assert_eq!(app.apply("Hi ${name}, ${response.hello.name}"), "Hi World, Galaxy");
}

#[test]
fn unknown_identifiers_resolve_empty() {
    let app = Applicator::new(Dict::new(), Dict::new());
    assert_eq!(app.apply("a ${missing} b"), "a  b");
    assert_eq!(app.apply("${response.absent.path}"), "");
    assert_eq!(app.apply("${response.noDotAfterName}"), "");
}

#[test]
fn literal_text_unchanged() {
    let app = Applicator::new(Dict::new(), Dict::new());
    let literal = "no placeholders here: $ { } ${ unclosed";
    assert_eq!(app.apply(literal), literal);
}

#[test]
fn whitespace_in_placeholders() {
    let context = context_of(&[("name", "World")]);
    let app = Applicator::new(context, Dict::new());
    assert_eq!(app.apply("${ name }"), app.apply("${name}"));
    assert_eq!(app.apply("x${   name  }y"), "xWorldy");
}

#[test]
fn identifiers_and_whitespace_beyond_ascii() {
    let context = context_of(&[("caf\u{E9}", "latte")]);
    let app = Applicator::new(context, Dict::new());
    assert_eq!(app.apply("${caf\u{E9}}"), "latte");
    // a form feed and a thin space count as placeholder whitespace
    assert_eq!(app.apply("${\u{000C}caf\u{E9}\u{2009} }"), "latte");
}

#[test]
fn json_leaf_kinds() {
    let mut responses: Dict<Response> = Dict::new();
    responses.insert(
        "r".to_string(),
        response_of(
            200,
            "{\"n\": 12.5e3, \"t\": true, \"f\": false, \"z\": null, \"arr\": [\"a\", {\"k\": 7}]}",
        ),
    );
    let app = Applicator::new(Dict::new(), responses);

    assert_eq!(app.apply("${response.r.n}"), "12.5e3");
    assert_eq!(app.apply("${response.r.t}"), "true");
    assert_eq!(app.apply("${response.r.f}"), "false");
    assert_eq!(app.apply("${response.r.z}"), "null");
    assert_eq!(app.apply("${response.r.arr.0}"), "a");
    assert_eq!(app.apply("${response.r.arr.1.k}"), "7");
    assert_eq!(app.apply("${response.r.arr.2}"), "");
}

#[test]
fn malformed_body_resolves_empty() {
    let mut responses: Dict<Response> = Dict::new();
    responses.insert("bad".to_string(), response_of(200, "{not json"));
    let app = Applicator::new(Dict::new(), responses);
    assert_eq!(app.apply("${response.bad.a}"), "");
}

#[test]
fn find_path_in_body_direct() {
    let resp = response_of(200, "{\"a\": {\"b\": \"x\"}}");
    assert_eq!(resp.find_path_in_body("a.b"), Some("x".to_string()));
    assert_eq!(resp.find_path_in_body("a.c"), None);
    assert_eq!(resp.find_path_in_body(""), None);
}

fn sample_request() -> Request {
    let mut headers: Dict<String> = Dict::new();
    headers.insert("Authorization".to_string(), "Bearer ${token}".to_string());
    let mut data: Dict<String> = Dict::new();
    data.insert("key1".to_string(), "${value1}".to_string());
    data.insert("key2".to_string(), "value2".to_string());
    Request {
        description: "post using key/value pairs".to_string(),
        tags: vec!["post".to_string(), "form".to_string()],
        url: "${base_url}/endpoint1".to_string(),
        method: "POST".to_string(),
        headers,
        query_parameters: Dict::new(),
        body: Body::Form { data },
    }
}

#[test]
fn request_apply() {
    let mut request = sample_request();
    let cxt = context_of(&[
        ("base_url", "https://api.example.com"),
        ("token", "your-token"),
        ("value1", "value1"),
    ]);

    let app = Applicator::new(cxt, Dict::new());
    request.apply(&app);

    assert_eq!(request.description, "post using key/value pairs");
    assert_eq!(request.tags, vec!["post", "form"]);
    assert_eq!(request.url, "https://api.example.com/endpoint1");
    assert_eq!(request.method, "POST");
    assert_eq!(request.headers.len(), 1);
    assert_eq!(
        request.headers.get("Authorization"),
        Some(&"Bearer your-token".to_string())
    );
    match &request.body {
        Body::Form { data } => {
            assert_eq!(data.len(), 2);
            assert_eq!(data.get("key1"), Some(&"value1".to_string()));
            assert_eq!(data.get("key2"), Some(&"value2".to_string()));
        }
        _ => panic!("wrong body variant"),
    }
}

#[test]
fn raw_and_multipart_bodies_render() {
    let cxt = context_of(&[("dir", "/tmp"), ("word", "hi")]);
    let app = Applicator::new(cxt, Dict::new());

    let mut r1 = Request {
        description: String::new(),
        tags: vec![],
        url: "u".to_string(),
        method: "GET".to_string(),
        headers: Dict::new(),
        query_parameters: Dict::new(),
        body: Body::Raw { from: RawBody::File { path: "${dir}/f.txt".to_string() } },
    };
    r1.apply(&app);
    match &r1.body {
        Body::Raw { from: RawBody::File { path } } => assert_eq!(path, "/tmp/f.txt"),
        _ => panic!("wrong body variant"),
    }

    let mut fields: Dict<MultiPartField> = Dict::new();
    fields.insert("a".to_string(), MultiPartField::Text { data: "${word} there".to_string() });
    fields.insert("b".to_string(), MultiPartField::File { path: "${dir}/g.txt".to_string() });
    let mut r2 = Request {
        description: String::new(),
        tags: vec![],
        url: "u".to_string(),
        method: "GET".to_string(),
        headers: Dict::new(),
        query_parameters: Dict::new(),
        body: Body::MultiPart { data: fields },
    };
    r2.apply(&app);
    match &r2.body {
        Body::MultiPart { data } => {
            match data.get("a") {
                Some(MultiPartField::Text { data }) => assert_eq!(data, "hi there"),
                _ => panic!("wrong field"),
            }
            match data.get("b") {
                Some(MultiPartField::File { path }) => assert_eq!(path, "/tmp/g.txt"),
                _ => panic!("wrong field"),
            }
        }
        _ => panic!("wrong body variant"),
    }
}

#[test]
fn method_kinds() {
    let mut r = sample_request();
    r.method = "GET".to_string();
    assert!(matches!(r.method_kind(), Ok(Method::Get)));
    r.method = "POST".to_string();
    assert!(matches!(r.method_kind(), Ok(Method::Post)));
    r.method = "PUT".to_string();
    assert!(matches!(r.method_kind(), Ok(Method::Put)));
    r.method = "DELETE".to_string();
    assert!(matches!(r.method_kind(), Ok(Method::Delete)));
    r.method = "PATCH".to_string();
    match r.method_kind() {
        Err(RequestError::UnsupportedMethod(m)) => assert_eq!(m, "PATCH"),
        _ => panic!("expected an unsupported-method error"),
    }
}

#[test]
fn default_method_is_get() {
    assert_eq!(default_method(), "GET");
}
