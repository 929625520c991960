use std::rc::Rc;

use openapi_path_filter::config::{Declared, RawConfig, RawPathItem, RawService};
use openapi_path_filter::engine::Engine;

fn item(template: &str) -> RawPathItem {
    RawPathItem { template: template.to_string(), keys: Some(Vec::new()) }
}

fn service(name: &str, templates: &[&str]) -> RawService {
    RawService {
        name: Some(name.to_string()),
        servers: Declared::Absent,
        paths: Some(templates.iter().map(|t| item(t)).collect()),
    }
}

fn config(cache_size: Option<usize>, services: Vec<RawService>) -> RawConfig {
    RawConfig {
        preserve_existing_headers: None,
        use_host_in_match: None,
        cache_size,
        services: Some(services),
    }
}

fn test_config() -> RawConfig {
    config(
        Some(5),
        vec![
            service(
                "dockebi",
                &[
                    "/dockebi/v1/stuff",
                    "/dockebi/v1/stuff/{id_}",
                    "/dockebi/v1/stuff/{id_}/child/{child_id}/hello",
                ],
            ),
            service("userservice", &["/users", "/users/{id}", "/users/{id}/profile"]),
            service(
                "productservice",
                &["/products", "/products/{product_id}", "/categories/{category_id}/products"],
            ),
        ],
    )
}

fn minimal_config() -> RawConfig {
    config(None, vec![service("minimal", &["/test"])])
}

fn disable_cache_config() -> RawConfig {
    config(Some(0), vec![service("nocache", &["/api/v1/test"])])
}

#[test]
fn test_basic_path_and_service_matching() {
    let mut engine = Engine::new();
    engine.configure(&test_config()).unwrap();

    let test_cases = vec![
        (
            "/dockebi/v1/stuff",
            Some(("/dockebi/v1/stuff".to_string(), Rc::new("dockebi".to_string()))),
        ),
        (
            "/dockebi/v1/stuff/123",
            Some(("/dockebi/v1/stuff/{id_}".to_string(), Rc::new("dockebi".to_string()))),
        ),
        (
            "/dockebi/v1/stuff/123/child/456/hello",
            Some((
                "/dockebi/v1/stuff/{id_}/child/{child_id}/hello".to_string(),
                Rc::new("dockebi".to_string()),
            )),
        ),
        (
            "/dockebi/v1/stuff/123?key=value",
            Some(("/dockebi/v1/stuff/{id_}".to_string(), Rc::new("dockebi".to_string()))),
        ),
        ("/dockebi/v1/other", None),
        ("/users", Some(("/users".to_string(), Rc::new("userservice".to_string())))),
        ("/users/42", Some(("/users/{id}".to_string(), Rc::new("userservice".to_string())))),
        (
            "/users/42/profile",
            Some(("/users/{id}/profile".to_string(), Rc::new("userservice".to_string()))),
        ),
        ("/products", Some(("/products".to_string(), Rc::new("productservice".to_string())))),
        (
            "/products/xyz123",
            Some(("/products/{product_id}".to_string(), Rc::new("productservice".to_string()))),
        ),
        (
            "/categories/furniture/products",
            Some((
                "/categories/{category_id}/products".to_string(),
                Rc::new("productservice".to_string()),
            )),
        ),
        ("/unknownpath", None),
    ];

    for (input_path, expected) in test_cases {
        let result = engine.get_openapi_path(input_path);
        assert_eq!(
            result, expected,
            "Path '{}' should match '{:?}' but got '{:?}'",
            input_path, expected, result
        );
    }
}

#[test]
fn test_path_normalization() {
    let mut engine = Engine::new();
    engine.configure(&test_config()).unwrap();

    let test_cases = vec![
        (
            "/users/42?sortBy=name&order=asc",
            Some(("/users/{id}".to_string(), Rc::new("userservice".to_string()))),
        ),
        (
            "/products?category=electronics&inStock=true",
            Some(("/products".to_string(), Rc::new("productservice".to_string()))),
        ),
        (
            "/categories/books/products?featured=true&limit=10",
            Some((
                "/categories/{category_id}/products".to_string(),
                Rc::new("productservice".to_string()),
            )),
        ),
    ];

    for (input_path, expected) in test_cases {
        let result = engine.get_openapi_path(input_path);
        assert_eq!(
            result, expected,
            "Path with query params '{}' should match '{:?}' but got '{:?}'",
            input_path, expected, result
        );
    }
}

#[test]
fn test_cache_behavior() {
    let mut engine = Engine::new();
    engine.configure(&test_config()).unwrap();

    // First access - should go to the router
    let path1 = "/dockebi/v1/stuff/123";
    let result1 = engine.get_openapi_path(path1);
    assert_eq!(
        result1,
        Some(("/dockebi/v1/stuff/{id_}".to_string(), Rc::new("dockebi".to_string())))
    );

    // Second access - should be served from cache
    let result2 = engine.get_openapi_path(path1);
    assert_eq!(
        result2,
        Some(("/dockebi/v1/stuff/{id_}".to_string(), Rc::new("dockebi".to_string())))
    );

    // Verify cache state
    assert!(engine.cache_enabled(), "Cache should be enabled");
    assert_eq!(engine.cache_len(), 1);
    assert_eq!(engine.cache_cap(), Some(5));

    // Check that the item is in the cache
    assert!(engine.cache_contains(None, "", path1));

    // Fill up the cache and test LRU behavior
    engine.get_openapi_path("/users"); // 2nd item
    engine.get_openapi_path("/users/1"); // 3rd item
    engine.get_openapi_path("/products"); // 4th item
    engine.get_openapi_path("/products/123"); // 5th item

    // This should evict the oldest item (path1)
    engine.get_openapi_path("/categories/tech/products");

    assert!(engine.cache_enabled(), "Cache should be enabled");
    assert_eq!(engine.cache_len(), 5);
    // The oldest item should be evicted
    assert!(!engine.cache_contains(None, "", path1));
}

#[test]
fn test_default_cache_size() {
    let mut engine = Engine::new();
    engine.configure(&minimal_config()).unwrap();

    assert!(engine.cache_enabled(), "Cache should be enabled by default");
    assert_eq!(engine.cache_cap(), Some(1024));
}

#[test]
fn test_disabled_cache() {
    let mut engine = Engine::new();
    engine.configure(&disable_cache_config()).unwrap();

    assert!(!engine.cache_enabled(), "Cache should be disabled when cache_size is 0");

    // The path should still match correctly even with cache disabled
    let path = "/api/v1/test";
    let result = engine.get_openapi_path(path);
    assert_eq!(result, Some(("/api/v1/test".to_string(), Rc::new("nocache".to_string()))));
}

#[test]
fn test_complex_path_patterns() {
    let cfg = config(
        None,
        vec![service(
            "complexapi",
            &[
                "/api/v1/resources/{resource_id}/subresources/{subresource_id}/items/{item_id}",
                "/api/v1/users/{user_id}/orders/{order_id}/items/{item_id}/tracking",
                "/{tenant_id}/dashboard",
            ],
        )],
    );

    let mut engine = Engine::new();
    engine.configure(&cfg).unwrap();

    let test_cases = vec![
        (
            "/api/v1/resources/r123/subresources/sub456/items/i789",
            Some((
                "/api/v1/resources/{resource_id}/subresources/{subresource_id}/items/{item_id}"
                    .to_string(),
                Rc::new("complexapi".to_string()),
            )),
        ),
        (
            "/api/v1/users/u123/orders/o456/items/i789/tracking",
            Some((
                "/api/v1/users/{user_id}/orders/{order_id}/items/{item_id}/tracking".to_string(),
                Rc::new("complexapi".to_string()),
            )),
        ),
        (
            "/tenant1/dashboard",
            Some(("/{tenant_id}/dashboard".to_string(), Rc::new("complexapi".to_string()))),
        ),
        ("/api/v1/resources/r123/something_else", None),
    ];

    for (input_path, expected) in test_cases {
        let result = engine.get_openapi_path(input_path);
        assert_eq!(
            result, expected,
            "Complex path '{}' should match '{:?}' but got '{:?}'",
            input_path, expected, result
        );
    }
}

#[test]
fn test_invalid_configurations() {
    // Missing services array
    let no_services = RawConfig {
        preserve_existing_headers: None,
        use_host_in_match: None,
        cache_size: Some(10),
        services: None,
    };
    // Service without name
    let no_name = config(
        None,
        vec![RawService {
            name: None,
            servers: Declared::Absent,
            paths: Some(vec![item("/test")]),
        }],
    );
    // Service without paths
    let no_paths = config(
        None,
        vec![RawService {
            name: Some("test".to_string()),
            servers: Declared::Absent,
            paths: None,
        }],
    );
    // Paths of an invalid kind arrive as absent paths
    let invalid_paths = config(
        None,
        vec![RawService {
            name: Some("test".to_string()),
            servers: Declared::Absent,
            paths: None,
        }],
    );

    let test_cases = vec![
        (no_services, "Invalid or missing 'services' in configuration"),
        (no_name, "Missing 'name' in service configuration"),
        (no_paths, "Invalid or missing 'paths' in service configuration"),
        (invalid_paths, "Invalid or missing 'paths' in service configuration"),
    ];

    for (cfg, expected_error) in test_cases {
        let mut engine = Engine::new();
        let result = engine.configure(&cfg);

        assert!(result.is_err(), "Configuration should fail: {}", expected_error);
        let error = result.err().unwrap();
        assert!(
            error.message().contains(expected_error),
            "Error message should contain '{}', but got '{}'",
            expected_error,
            error.message()
        );
    }
}

#[test]
fn test_multiple_service_overlapping_routes() {
    let cfg = config(
        None,
        vec![
            service("service1", &["/api/v1/shared", "/api/v1/service1/specific"]),
            service("service2", &["/api/v1/shared/{id}", "/api/v1/service2/specific"]),
        ],
    );

    let mut engine = Engine::new();
    engine.configure(&cfg).unwrap();

    // For exact path matches, the first service should win
    assert_eq!(
        engine.get_openapi_path("/api/v1/shared"),
        Some(("/api/v1/shared".to_string(), Rc::new("service1".to_string())))
    );

    // For parameterized paths, the match should work correctly
    assert_eq!(
        engine.get_openapi_path("/api/v1/shared/123"),
        Some(("/api/v1/shared/{id}".to_string(), Rc::new("service2".to_string())))
    );

    // Service-specific paths should go to the correct service
    assert_eq!(
        engine.get_openapi_path("/api/v1/service1/specific"),
        Some(("/api/v1/service1/specific".to_string(), Rc::new("service1".to_string())))
    );

    assert_eq!(
        engine.get_openapi_path("/api/v1/service2/specific"),
        Some(("/api/v1/service2/specific".to_string(), Rc::new("service2".to_string())))
    );
}
