use std::rc::Rc;

use openapi_path_filter::config::{
    Declared, RawConfig, RawPathItem, RawServer, RawService, RawVariable,
};
use openapi_path_filter::engine::Engine;

fn keyed_item(template: &str, keys: &[&str]) -> RawPathItem {
    RawPathItem {
        template: template.to_string(),
        keys: Some(keys.iter().map(|k| k.to_string()).collect()),
    }
}

fn plain_item(template: &str) -> RawPathItem {
    keyed_item(template, &[])
}

fn base_config(services: Vec<RawService>) -> RawConfig {
    RawConfig {
        preserve_existing_headers: None,
        use_host_in_match: None,
        cache_size: None,
        services: Some(services),
    }
}

fn env_service() -> RawService {
    RawService {
        name: Some("envsvc".to_string()),
        servers: Declared::List(vec![RawServer {
            url: Some("https://{env}.example.com/v1".to_string()),
            variables: Some(vec![RawVariable {
                name: "env".to_string(),
                enum_values: Declared::List(vec!["api".to_string(), "staging".to_string()]),
                default_value: Some("api".to_string()),
            }]),
        }]),
        paths: Some(vec![keyed_item("/users", &["get"])]),
    }
}

#[test]
fn t_compile_and_match_with_query() {
    let cfg = base_config(vec![RawService {
        name: Some("dockebi".to_string()),
        servers: Declared::Absent,
        paths: Some(vec![plain_item("/dockebi/v1/stuff"), plain_item("/dockebi/v1/stuff/{id_}")]),
    }]);
    let mut engine = Engine::new();
    engine.configure(&cfg).unwrap();
    let r = engine.resolve(None, "GET", "/dockebi/v1/stuff/123?x=1");
    assert_eq!(
        r,
        Some(("/dockebi/v1/stuff/{id_}".to_string(), Rc::new("dockebi".to_string())))
    );
}

#[test]
fn t_duplicate_route_across_services() {
    let cfg = base_config(vec![
        RawService {
            name: Some("one".to_string()),
            servers: Declared::Absent,
            paths: Some(vec![plain_item("/test")]),
        },
        RawService {
            name: Some("two".to_string()),
            servers: Declared::Absent,
            paths: Some(vec![plain_item("/test")]),
        },
    ]);
    let mut engine = Engine::new();
    let err = engine.configure(&cfg).unwrap_err();
    assert!(err.message().contains("Duplicate or conflicting route"));
    assert!(err.message().contains("/test"));
}

#[test]
fn t_conflicting_parameter_names_are_duplicates() {
    let cfg = base_config(vec![
        RawService {
            name: Some("one".to_string()),
            servers: Declared::Absent,
            paths: Some(vec![plain_item("/users/{id}")]),
        },
        RawService {
            name: Some("two".to_string()),
            servers: Declared::Absent,
            paths: Some(vec![plain_item("/users/{uid}")]),
        },
    ]);
    let mut engine = Engine::new();
    let err = engine.configure(&cfg).unwrap_err();
    assert!(err.message().contains("Duplicate or conflicting route"));
}

#[test]
fn t_duplicate_template_within_service() {
    // Re-declaring the same template inside one service is a conflict.
    let cfg = base_config(vec![RawService {
        name: Some("one".to_string()),
        servers: Declared::Absent,
        paths: Some(vec![plain_item("/x"), plain_item("/x")]),
    }]);
    let mut engine = Engine::new();
    let err = engine.configure(&cfg).unwrap_err();
    assert!(err.message().contains("Duplicate or conflicting route"));
}

#[test]
fn t_servers_with_one_group_key_share_one_scope() {
    // Two server declarations whose host and base path canonicalize to
    // the same grouping key scope the service's routes once; the routes
    // are not conflicting duplicates of themselves.
    let cfg = base_config(vec![RawService {
        name: Some("svc".to_string()),
        servers: Declared::List(vec![
            RawServer { url: Some("https://h.example.com/v1".to_string()), variables: None },
            RawServer { url: Some("https://H.Example.com:443/v1/".to_string()), variables: None },
        ]),
        paths: Some(vec![plain_item("/users")]),
    }]);
    let mut engine = Engine::new();
    engine.configure(&cfg).unwrap();
    assert_eq!(
        engine.resolve(Some("h.example.com"), "get", "/v1/users"),
        Some(("/users".to_string(), Rc::new("svc".to_string())))
    );
}

#[test]
fn t_malformed_fields_are_rejected() {
    let mut engine = Engine::new();

    // A `servers` field that is not an array.
    let bad_servers = base_config(vec![RawService {
        name: Some("s".to_string()),
        servers: Declared::Invalid,
        paths: Some(vec![plain_item("/a")]),
    }]);
    let e1 = engine.configure(&bad_servers).unwrap_err().message();
    assert!(e1.contains("Invalid 'servers' in service configuration"));

    // A path item that is not an object.
    let bad_item = base_config(vec![RawService {
        name: Some("s".to_string()),
        servers: Declared::Absent,
        paths: Some(vec![RawPathItem { template: "/a".to_string(), keys: None }]),
    }]);
    let e2 = engine.configure(&bad_item).unwrap_err().message();
    assert!(e2.contains("Invalid path item configuration"));
    assert!(e2.contains("/a"));

    // An `enum` array holding a value that is not a string.
    let bad_enum = base_config(vec![RawService {
        name: Some("s".to_string()),
        servers: Declared::List(vec![RawServer {
            url: Some("https://{v}.example.com".to_string()),
            variables: Some(vec![RawVariable {
                name: "v".to_string(),
                enum_values: Declared::Invalid,
                default_value: Some("x".to_string()),
            }]),
        }]),
        paths: Some(vec![plain_item("/a")]),
    }]);
    let e3 = engine.configure(&bad_enum).unwrap_err().message();
    assert!(e3.contains("Server variable enum values must be strings"));
    assert!(e3.contains("'v'"));
}

#[test]
fn t_server_variable_expansion_with_host() {
    let mut engine = Engine::new();
    engine.configure(&base_config(vec![env_service()])).unwrap();

    // Both enum values expand to concrete hosts.
    let hit = engine.resolve(Some("api.example.com"), "get", "/v1/users");
    assert_eq!(hit, Some(("/users".to_string(), Rc::new("envsvc".to_string()))));
    let hit2 = engine.resolve(Some("staging.example.com"), "get", "/v1/users");
    assert_eq!(hit2, Some(("/users".to_string(), Rc::new("envsvc".to_string()))));

    // The path declared `get` explicitly, so there is no any-method
    // fallback for another method.
    assert_eq!(engine.resolve(Some("api.example.com"), "post", "/v1/users"), None);

    // An undeclared host does not match.
    assert_eq!(engine.resolve(Some("other.example.com"), "get", "/v1/users"), None);

    // Neither does the bare path without the base path.
    assert_eq!(engine.resolve(Some("api.example.com"), "get", "/users"), None);
}

#[test]
fn t_host_ignored_when_disabled() {
    let mut cfg = base_config(vec![env_service()]);
    cfg.use_host_in_match = Some(false);
    let mut engine = Engine::new();
    engine.configure(&cfg).unwrap();

    // With useHostInMatch off, any host (or none) matches /v1/users.
    let hit = engine.resolve(Some("other.example.com"), "get", "/v1/users");
    assert_eq!(hit, Some(("/users".to_string(), Rc::new("envsvc".to_string()))));
    let hit2 = engine.resolve(None, "get", "/v1/users");
    assert_eq!(hit2, Some(("/users".to_string(), Rc::new("envsvc".to_string()))));
}

#[test]
fn t_distinct_validation_errors() {
    let mut engine = Engine::new();

    // Empty services array.
    let empty_services = base_config(vec![]);
    let e1 = engine.configure(&empty_services).unwrap_err().message();
    assert!(e1.contains("Services array cannot be empty"));

    // Missing name.
    let no_name = base_config(vec![RawService {
        name: None,
        servers: Declared::Absent,
        paths: Some(vec![plain_item("/a")]),
    }]);
    let e2 = engine.configure(&no_name).unwrap_err().message();
    assert!(e2.contains("Missing 'name' in service configuration"));

    // Empty name counts as missing.
    let empty_name = base_config(vec![RawService {
        name: Some(String::new()),
        servers: Declared::Absent,
        paths: Some(vec![plain_item("/a")]),
    }]);
    let e2b = engine.configure(&empty_name).unwrap_err().message();
    assert!(e2b.contains("Missing 'name' in service configuration"));

    // Missing paths.
    let no_paths = base_config(vec![RawService {
        name: Some("s".to_string()),
        servers: Declared::Absent,
        paths: None,
    }]);
    let e3 = engine.configure(&no_paths).unwrap_err().message();
    assert!(e3.contains("Invalid or missing 'paths' in service configuration"));

    // Empty paths.
    let empty_paths = base_config(vec![RawService {
        name: Some("s".to_string()),
        servers: Declared::Absent,
        paths: Some(vec![]),
    }]);
    let e4 = engine.configure(&empty_paths).unwrap_err().message();
    assert!(e4.contains("Invalid or missing 'paths' in service configuration"));

    // A path that does not start with '/'.
    let bad_start = base_config(vec![RawService {
        name: Some("s".to_string()),
        servers: Declared::Absent,
        paths: Some(vec![plain_item("users")]),
    }]);
    let e5 = engine.configure(&bad_start).unwrap_err().message();
    assert!(e5.contains("must start with '/'"));
    assert!(e5.contains("users"));

    // A path containing a space.
    let bad_char = base_config(vec![RawService {
        name: Some("s".to_string()),
        servers: Declared::Absent,
        paths: Some(vec![plain_item("/a b")]),
    }]);
    let e6 = engine.configure(&bad_char).unwrap_err().message();
    assert!(e6.contains("contains a forbidden character"));

    // A 1025-character path.
    let mut long_path = String::from("/");
    while long_path.len() < 1025 {
        long_path.push('x');
    }
    assert_eq!(long_path.len(), 1025);
    let too_long = base_config(vec![RawService {
        name: Some("s".to_string()),
        servers: Declared::Absent,
        paths: Some(vec![plain_item(&long_path)]),
    }]);
    let e7 = engine.configure(&too_long).unwrap_err().message();
    assert!(e7.contains("exceeds the maximum length"));

    // All seven messages are attributable and pairwise distinct (the
    // missing- and empty-paths cases share one message by design).
    let msgs = vec![e1, e2, e3, e5, e6, e7];
    for i in 0..msgs.len() {
        for j in 0..msgs.len() {
            if i != j {
                assert_ne!(msgs[i], msgs[j]);
            }
        }
    }
}

#[test]
fn t_failed_configuration_keeps_previous_routes() {
    let good = base_config(vec![RawService {
        name: Some("svc".to_string()),
        servers: Declared::Absent,
        paths: Some(vec![plain_item("/keep")]),
    }]);
    let bad = base_config(vec![]);
    let mut engine = Engine::new();
    engine.configure(&good).unwrap();
    assert!(engine.configure(&bad).is_err());
    // The previously active routes still answer.
    assert_eq!(
        engine.resolve(None, "get", "/keep"),
        Some(("/keep".to_string(), Rc::new("svc".to_string())))
    );
}

#[test]
fn t_lru_cache_capacity_two() {
    let mut cfg = base_config(vec![RawService {
        name: Some("s".to_string()),
        servers: Declared::Absent,
        paths: Some(vec![plain_item("/a"), plain_item("/b"), plain_item("/c")]),
    }]);
    cfg.cache_size = Some(2);
    let mut engine = Engine::new();
    engine.configure(&cfg).unwrap();

    assert!(engine.resolve(None, "get", "/a").is_some());
    assert!(engine.resolve(None, "get", "/b").is_some());
    assert!(engine.resolve(None, "get", "/c").is_some());

    // A was evicted; B and C remain cached.
    assert!(!engine.cache_contains(None, "get", "/a"));
    assert!(engine.cache_contains(None, "get", "/b"));
    assert!(engine.cache_contains(None, "get", "/c"));

    // Looking A up again re-descends the routes and re-caches it,
    // evicting B (the least recently used).
    assert_eq!(
        engine.resolve(None, "get", "/a"),
        Some(("/a".to_string(), Rc::new("s".to_string())))
    );
    assert!(engine.cache_contains(None, "get", "/a"));
    assert!(!engine.cache_contains(None, "get", "/b"));
    assert!(engine.cache_contains(None, "get", "/c"));
}

#[test]
fn t_cache_hit_promotes_entry() {
    let mut cfg = base_config(vec![RawService {
        name: Some("s".to_string()),
        servers: Declared::Absent,
        paths: Some(vec![plain_item("/a"), plain_item("/b"), plain_item("/c")]),
    }]);
    cfg.cache_size = Some(2);
    let mut engine = Engine::new();
    engine.configure(&cfg).unwrap();

    engine.resolve(None, "get", "/a");
    engine.resolve(None, "get", "/b");
    // A hit on /a promotes it, so the next insertion evicts /b.
    engine.resolve(None, "get", "/a");
    engine.resolve(None, "get", "/c");
    assert!(engine.cache_contains(None, "get", "/a"));
    assert!(!engine.cache_contains(None, "get", "/b"));
    assert!(engine.cache_contains(None, "get", "/c"));
}

#[test]
fn t_cache_key_includes_host_and_method() {
    let svc_a = RawService {
        name: Some("asvc".to_string()),
        servers: Declared::List(vec![RawServer {
            url: Some("https://a.example.com".to_string()),
            variables: None,
        }]),
        paths: Some(vec![plain_item("/p")]),
    };
    let svc_b = RawService {
        name: Some("bsvc".to_string()),
        servers: Declared::List(vec![RawServer {
            url: Some("https://b.example.com".to_string()),
            variables: None,
        }]),
        paths: Some(vec![plain_item("/p")]),
    };
    let mut engine = Engine::new();
    engine.configure(&base_config(vec![svc_a, svc_b])).unwrap();

    let ra = engine.resolve(Some("a.example.com"), "get", "/p");
    assert_eq!(ra, Some(("/p".to_string(), Rc::new("asvc".to_string()))));
    // The cached entry is scoped to host a; host b resolves its own
    // service, never a's cached pair.
    assert!(engine.cache_contains(Some("a.example.com"), "get", "/p"));
    assert!(!engine.cache_contains(Some("b.example.com"), "get", "/p"));
    let rb = engine.resolve(Some("b.example.com"), "get", "/p");
    assert_eq!(rb, Some(("/p".to_string(), Rc::new("bsvc".to_string()))));
}

#[test]
fn t_longest_base_path_wins() {
    let deep = RawService {
        name: Some("deep".to_string()),
        servers: Declared::List(vec![RawServer {
            url: Some("https://h.example.com/a/b".to_string()),
            variables: None,
        }]),
        paths: Some(vec![plain_item("/x")]),
    };
    let shallow = RawService {
        name: Some("shallow".to_string()),
        servers: Declared::List(vec![RawServer {
            url: Some("https://h.example.com/a".to_string()),
            variables: None,
        }]),
        paths: Some(vec![plain_item("/b/x")]),
    };
    let mut engine = Engine::new();
    engine.configure(&base_config(vec![shallow, deep])).unwrap();

    // Both groups could serve /a/b/x; the longer base path /a/b is
    // consulted first.
    let r = engine.resolve(Some("h.example.com"), "get", "/a/b/x");
    assert_eq!(r, Some(("/x".to_string(), Rc::new("deep".to_string()))));
}

#[test]
fn t_host_groups_before_host_agnostic() {
    let hosted = RawService {
        name: Some("hosted".to_string()),
        servers: Declared::List(vec![RawServer {
            url: Some("https://h.example.com".to_string()),
            variables: None,
        }]),
        paths: Some(vec![plain_item("/x")]),
    };
    let agnostic = RawService {
        name: Some("agnostic".to_string()),
        servers: Declared::Absent,
        paths: Some(vec![plain_item("/x")]),
    };
    let mut engine = Engine::new();
    engine.configure(&base_config(vec![agnostic, hosted])).unwrap();

    // The host's own groups win over the host-agnostic bucket.
    assert_eq!(
        engine.resolve(Some("h.example.com"), "get", "/x"),
        Some(("/x".to_string(), Rc::new("hosted".to_string())))
    );
    // Without a matching host, the host-agnostic bucket answers.
    assert_eq!(
        engine.resolve(Some("other.example.com"), "get", "/x"),
        Some(("/x".to_string(), Rc::new("agnostic".to_string())))
    );
    assert_eq!(
        engine.resolve(None, "get", "/x"),
        Some(("/x".to_string(), Rc::new("agnostic".to_string())))
    );
}

#[test]
fn t_method_scoping() {
    let cfg = base_config(vec![RawService {
        name: Some("s".to_string()),
        servers: Declared::Absent,
        paths: Some(vec![
            keyed_item("/only-get", &["GET"]),
            keyed_item("/get-or-post", &["get", "POST", "banana"]),
            plain_item("/any"),
        ]),
    }]);
    let mut engine = Engine::new();
    engine.configure(&cfg).unwrap();

    // Method keys are matched case-insensitively.
    assert!(engine.resolve(None, "GET", "/only-get").is_some());
    assert!(engine.resolve(None, "get", "/only-get").is_some());
    assert_eq!(engine.resolve(None, "POST", "/only-get"), None);

    assert!(engine.resolve(None, "post", "/get-or-post").is_some());
    assert!(engine.resolve(None, "get", "/get-or-post").is_some());
    // An unrecognized key does not open the route to other methods.
    assert_eq!(engine.resolve(None, "delete", "/get-or-post"), None);

    // An item with no recognized method keys matches any method.
    assert!(engine.resolve(None, "OPTIONS", "/any").is_some());
    assert!(engine.resolve(None, "get", "/any").is_some());
}

#[test]
fn t_too_many_expansions() {
    let mut values: Vec<String> = Vec::new();
    let mut i: usize = 0;
    while i < 101 {
        values.push(format!("v{}", i));
        i += 1;
    }
    let cfg = base_config(vec![RawService {
        name: Some("s".to_string()),
        servers: Declared::List(vec![RawServer {
            url: Some("https://{v}.example.com".to_string()),
            variables: Some(vec![RawVariable {
                name: "v".to_string(),
                enum_values: Declared::List(values),
                default_value: None,
            }]),
        }]),
        paths: Some(vec![plain_item("/a")]),
    }]);
    let mut engine = Engine::new();
    let err = engine.configure(&cfg).unwrap_err();
    assert!(err.message().contains("Too many expanded server URLs (max 100)"));
}

#[test]
fn t_invalid_server_variables() {
    // An empty enum fails.
    let empty_enum = base_config(vec![RawService {
        name: Some("s".to_string()),
        servers: Declared::List(vec![RawServer {
            url: Some("https://{v}.example.com".to_string()),
            variables: Some(vec![RawVariable {
                name: "v".to_string(),
                enum_values: Declared::List(vec![]),
                default_value: Some("x".to_string()),
            }]),
        }]),
        paths: Some(vec![plain_item("/a")]),
    }]);
    let mut engine = Engine::new();
    let e1 = engine.configure(&empty_enum).unwrap_err().message();
    assert!(e1.contains("Server variable enum cannot be empty"));
    assert!(e1.contains("'v'"));

    // A variable with neither enum nor default fails.
    let no_values = base_config(vec![RawService {
        name: Some("s".to_string()),
        servers: Declared::List(vec![RawServer {
            url: Some("https://{v}.example.com".to_string()),
            variables: Some(vec![RawVariable {
                name: "v".to_string(),
                enum_values: Declared::Absent,
                default_value: None,
            }]),
        }]),
        paths: Some(vec![plain_item("/a")]),
    }]);
    let e2 = engine.configure(&no_values).unwrap_err().message();
    assert!(e2.contains("Server variable must define 'enum' or 'default'"));

    // A server without a URL fails.
    let no_url = base_config(vec![RawService {
        name: Some("s".to_string()),
        servers: Declared::List(vec![RawServer { url: None, variables: None }]),
        paths: Some(vec![plain_item("/a")]),
    }]);
    let e3 = engine.configure(&no_url).unwrap_err().message();
    assert!(e3.contains("Missing 'url' in server configuration"));

    // An empty servers array fails.
    let empty_servers = base_config(vec![RawService {
        name: Some("s".to_string()),
        servers: Declared::List(vec![]),
        paths: Some(vec![plain_item("/a")]),
    }]);
    let e4 = engine.configure(&empty_servers).unwrap_err().message();
    assert!(e4.contains("Servers array cannot be empty"));

    // An empty (after trimming) URL fails.
    let empty_url = base_config(vec![RawService {
        name: Some("s".to_string()),
        servers: Declared::List(vec![RawServer { url: Some("   ".to_string()), variables: None }]),
        paths: Some(vec![plain_item("/a")]),
    }]);
    let e5 = engine.configure(&empty_url).unwrap_err().message();
    assert!(e5.contains("Server url cannot be empty"));
}

#[test]
fn t_port_stripped_from_request_host() {
    let mut engine = Engine::new();
    engine.configure(&base_config(vec![env_service()])).unwrap();
    // The request host is lower-cased and its port stripped before the
    // bucket lookup.
    let hit = engine.resolve(Some("API.example.com:8443"), "GET", "/v1/users");
    assert_eq!(hit, Some(("/users".to_string(), Rc::new("envsvc".to_string()))));
}
