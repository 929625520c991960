use openapi_path_filter::compile::{is_http_method, parse_methods};
use openapi_path_filter::engine::{endpoint_label, should_write_header};
use openapi_path_filter::expand::{expand_server_urls, normalize_base_path, parse_server_url};
use openapi_path_filter::config::{Declared, RawServer, RawVariable};
use openapi_path_filter::host::strip_port;
use openapi_path_filter::normalize::normalize_path;

#[test]
fn t_normalize_examples() {
    assert_eq!(normalize_path("/users/"), "/users");
    assert_eq!(normalize_path("/"), "/");
    assert_eq!(normalize_path("//users///profile///"), "/users/profile");
    assert_eq!(normalize_path("/products?a=1&b=2#top"), "/products");
    assert_eq!(normalize_path(""), "/");
    assert_eq!(normalize_path("no-slash"), "/no-slash");
    assert_eq!(normalize_path("/a#frag?notquery"), "/a");
    assert_eq!(normalize_path("?x=1"), "/");
}

#[test]
fn t_normalize_idempotent_samples() {
    let samples = vec![
        "//users///profile///",
        "/products?a=1&b=2#top",
        "",
        "/",
        "/a/b/c",
        "weird//path/?q#f",
    ];
    for p in samples {
        let once = normalize_path(p);
        let twice = normalize_path(&once);
        assert_eq!(once, twice, "normalizing '{}' twice must change nothing", p);
    }
}

#[test]
fn t_strip_port() {
    assert_eq!(strip_port("example.com:8080"), "example.com");
    assert_eq!(strip_port("example.com"), "example.com");
    assert_eq!(strip_port("example.com:"), "example.com:");
    assert_eq!(strip_port("example.com:80a"), "example.com:80a");
    assert_eq!(strip_port("[::1]:8080"), "[::1]");
    assert_eq!(strip_port("[2001:db8::1]"), "[2001:db8::1]");
    assert_eq!(strip_port("[unclosed"), "[unclosed");
    assert_eq!(strip_port(""), "");
}

#[test]
fn t_parse_server_url() {
    let s = parse_server_url("https://Api.Example.com:443/v1/").unwrap();
    assert_eq!(s.host.as_deref(), Some("api.example.com"));
    assert_eq!(s.base_path, "/v1");

    let s2 = parse_server_url("/base/path/").unwrap();
    assert_eq!(s2.host, None);
    assert_eq!(s2.base_path, "/base/path");

    let s3 = parse_server_url("example.com").unwrap();
    assert_eq!(s3.host.as_deref(), Some("example.com"));
    assert_eq!(s3.base_path, "");

    // Query and fragment are stripped before parsing.
    let s4 = parse_server_url("https://h.example.com/v1?x=1#frag").unwrap();
    assert_eq!(s4.host.as_deref(), Some("h.example.com"));
    assert_eq!(s4.base_path, "/v1");

    // A base path that normalizes to "/" collapses to the empty string.
    let s5 = parse_server_url("https://h.example.com/").unwrap();
    assert_eq!(s5.base_path, "");

    // An empty trimmed URL is an error.
    let e = parse_server_url("  \t ").unwrap_err();
    assert!(e.message().contains("Server url cannot be empty"));

    // A bracketed IPv6 host keeps its brackets, loses its port.
    let s6 = parse_server_url("http://[2001:DB8::1]:8080/api").unwrap();
    assert_eq!(s6.host.as_deref(), Some("[2001:db8::1]"));
    assert_eq!(s6.base_path, "/api");
}

#[test]
fn t_normalize_base_path() {
    assert_eq!(normalize_base_path("").unwrap(), "");
    assert_eq!(normalize_base_path("/").unwrap(), "");
    assert_eq!(normalize_base_path("/v1/").unwrap(), "/v1");
    assert_eq!(normalize_base_path("//v1//v2/").unwrap(), "/v1/v2");
}

#[test]
fn t_expand_server_urls() {
    // No variables: the URL itself.
    let plain = RawServer { url: Some("https://x.example.com".to_string()), variables: None };
    assert_eq!(expand_server_urls(&plain).unwrap(), vec!["https://x.example.com".to_string()]);

    // Two variables expand as a cartesian product, declaration order
    // outermost-first.
    let two = RawServer {
        url: Some("https://{env}.example.com/{ver}".to_string()),
        variables: Some(vec![
            RawVariable {
                name: "env".to_string(),
                enum_values: Declared::List(vec!["api".to_string(), "staging".to_string()]),
                default_value: None,
            },
            RawVariable {
                name: "ver".to_string(),
                enum_values: Declared::List(vec!["v1".to_string(), "v2".to_string()]),
                default_value: None,
            },
        ]),
    };
    assert_eq!(
        expand_server_urls(&two).unwrap(),
        vec![
            "https://api.example.com/v1".to_string(),
            "https://api.example.com/v2".to_string(),
            "https://staging.example.com/v1".to_string(),
            "https://staging.example.com/v2".to_string(),
        ]
    );

    // A default used when no enum is given; an enum wins over a default.
    let with_default = RawServer {
        url: Some("https://{env}.example.com".to_string()),
        variables: Some(vec![RawVariable {
            name: "env".to_string(),
            enum_values: Declared::Absent,
            default_value: Some("api".to_string()),
        }]),
    };
    assert_eq!(
        expand_server_urls(&with_default).unwrap(),
        vec!["https://api.example.com".to_string()]
    );
}

#[test]
fn t_parse_methods() {
    let keys: Vec<String> = vec![
        "GET".to_string(),
        "post".to_string(),
        "get".to_string(),
        "banana".to_string(),
        "Delete".to_string(),
    ];
    // Lower-cased, recognized, deduplicated, sorted.
    assert_eq!(
        parse_methods(&keys),
        vec!["delete".to_string(), "get".to_string(), "post".to_string()]
    );
    assert_eq!(parse_methods(&Vec::new()), Vec::<String>::new());
}

#[test]
fn t_is_http_method() {
    for m in ["get", "post", "put", "delete", "patch", "options", "head", "trace"] {
        assert!(is_http_method(m), "{} is a method", m);
    }
    assert!(!is_http_method("GET"));
    assert!(!is_http_method("banana"));
    assert!(!is_http_method(""));
}

#[test]
fn t_endpoint_label() {
    assert_eq!(endpoint_label("GET", "/users/{id}"), "GET /users/{id}");
}

#[test]
fn t_should_write_header() {
    assert!(should_write_header(false, false));
    assert!(should_write_header(false, true));
    assert!(should_write_header(true, false));
    assert!(!should_write_header(true, true));
}
