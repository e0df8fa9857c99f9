use codesearch::channel_link::{build_report, ChannelLinkOptions};
use codesearch::channel_routes::{
    glob_match, http_route_matches, mqtt_topic_matches, normalize_http_route, split_http_url,
};
use codesearch::channels::{ChannelEndpoint, ChannelRole, EndpointSource, Protocol};
use codesearch::claims::CONFIDENCE_ONE;

fn endpoint(
    repo: &str,
    file: &str,
    line: u32,
    protocol: Protocol,
    role: ChannelRole,
    channel: &str,
    confidence: i64,
) -> ChannelEndpoint {
    ChannelEndpoint::new(
        repo.to_string(),
        file.to_string(),
        line,
        protocol,
        role,
        channel.to_string(),
        channel.to_string(),
        confidence,
        EndpointSource::TreeSitter,
    )
}

#[test]
fn test_normalize_http_route() {
    assert_eq!(normalize_http_route("/users/{id}"), "/users/{}");
    assert_eq!(normalize_http_route("/users/:id/posts"), "/users/{}/posts");
    assert_eq!(
        normalize_http_route("/api/orders/<order_id>"),
        "/api/orders/{}"
    );
    assert_eq!(
        normalize_http_route("/api/orders/<int:order_id>"),
        "/api/orders/{}"
    );
    assert_eq!(normalize_http_route("/users/123?page=2"), "/users/123");
    assert_eq!(normalize_http_route("/users/"), "/users");
    assert_eq!(normalize_http_route("/"), "/");
    assert_eq!(normalize_http_route(""), "/");
}

#[test]
fn test_split_http_url() {
    assert_eq!(
        split_http_url("http://orders-svc/api/orders?x=1"),
        (
            Some("orders-svc".to_string()),
            "/api/orders?x=1".to_string()
        )
    );
    assert_eq!(
        split_http_url("https://example.com"),
        (Some("example.com".to_string()), "/".to_string())
    );
    assert_eq!(
        split_http_url("/api/orders"),
        (None, "/api/orders".to_string())
    );
}

#[test]
fn test_http_route_matches() {
    assert!(http_route_matches("/users/123", "/users/{}"));
    assert!(http_route_matches("/users/{}", "/users/{}"));
    assert!(http_route_matches("/api/orders/123", "/api/orders/{}"));
    assert!(!http_route_matches("/users/123/posts", "/users/{}"));
    assert!(!http_route_matches("/orders/123", "/users/{}"));
    assert!(http_route_matches("/health", "/health"));
}

#[test]
fn test_mqtt_topic_matches() {
    assert!(mqtt_topic_matches("orders/+", "orders/created"));
    assert!(!mqtt_topic_matches("orders/+", "orders/created/eu"));
    assert!(mqtt_topic_matches("orders/#", "orders/created/eu"));
    assert!(mqtt_topic_matches("orders/#", "orders"));
    assert!(mqtt_topic_matches("orders/+/eu", "orders/created/eu"));
    assert!(!mqtt_topic_matches("orders/+/eu", "orders/created/us"));
    assert!(mqtt_topic_matches("orders/created", "orders/created"));
    assert!(!mqtt_topic_matches("orders/created", "orders/deleted"));
}

#[test]
fn test_glob_match() {
    assert!(glob_match("/health*", "/health"));
    assert!(glob_match("/health*", "/healthz"));
    assert!(glob_match("*.internal", "orders.internal"));
    assert!(glob_match("orders.?", "orders.a"));
    assert!(!glob_match("orders.?", "orders.ab"));
    assert!(glob_match("*", "anything"));
    assert!(!glob_match("/health", "/metrics"));
}

#[test]
fn test_exact_kafka_join_and_unmatched() {
    let endpoints = vec![
        endpoint(
            "a",
            "p.py",
            3,
            Protocol::Kafka,
            ChannelRole::Producer,
            "orders.created",
            CONFIDENCE_ONE * 9 / 10,
        ),
        endpoint(
            "b",
            "c.js",
            8,
            Protocol::Kafka,
            ChannelRole::Consumer,
            "orders.created",
            CONFIDENCE_ONE * 8 / 10,
        ),
        endpoint(
            "a",
            "p.py",
            9,
            Protocol::Kafka,
            ChannelRole::Producer,
            "orders.bogus",
            CONFIDENCE_ONE * 9 / 10,
        ),
    ];
    let report = build_report(&endpoints, &ChannelLinkOptions::default());

    assert_eq!(report.edges.len(), 1);
    let edge = &report.edges[0];
    assert_eq!(edge.channel(), "orders.created");
    assert!(edge.is_cross_repo());
    assert_eq!(edge.weight, 1);
    assert_eq!(edge.confidence, CONFIDENCE_ONE * 8 / 10);
    assert_eq!(report.unmatched_producers.len(), 1);
    assert_eq!(report.unmatched_producers[0].channel_raw, "orders.bogus");
    assert!(report.unmatched_consumers.is_empty());
}

#[test]
fn test_pattern_consumer_join() {
    let producer = endpoint(
        "a",
        "p.py",
        3,
        Protocol::Mqtt,
        ChannelRole::Producer,
        "orders/created",
        CONFIDENCE_ONE * 6 / 10,
    );
    let consumer = endpoint(
        "b",
        "c.py",
        5,
        Protocol::Mqtt,
        ChannelRole::Consumer,
        "orders/+",
        CONFIDENCE_ONE * 5 / 10,
    )
    .as_pattern();
    let report = build_report(&[producer, consumer], &ChannelLinkOptions::default());
    assert_eq!(report.edges.len(), 1);
    assert_eq!(report.edges[0].channel(), "orders/+");
}

#[test]
fn test_unresolved_endpoints_never_match_but_are_reported() {
    let producer = endpoint(
        "a",
        "p.py",
        3,
        Protocol::Kafka,
        ChannelRole::Producer,
        "TOPIC_NAME",
        CONFIDENCE_ONE * 9 / 10,
    )
    .unresolved();
    let consumer = endpoint(
        "b",
        "c.js",
        8,
        Protocol::Kafka,
        ChannelRole::Consumer,
        "TOPIC_NAME",
        CONFIDENCE_ONE * 8 / 10,
    );
    let report = build_report(&[producer, consumer], &ChannelLinkOptions::default());
    assert!(report.edges.is_empty());
    assert_eq!(report.unmatched_producers.len(), 1);
    assert_eq!(report.unmatched_consumers.len(), 1);
}

#[test]
fn test_min_confidence_prunes_edges() {
    let endpoints = vec![
        endpoint(
            "a",
            "p.py",
            3,
            Protocol::Kafka,
            ChannelRole::Producer,
            "t",
            CONFIDENCE_ONE * 4 / 10,
        ),
        endpoint(
            "b",
            "c.js",
            8,
            Protocol::Kafka,
            ChannelRole::Consumer,
            "t",
            CONFIDENCE_ONE * 9 / 10,
        ),
    ];
    let options = ChannelLinkOptions {
        min_confidence: Some(CONFIDENCE_ONE / 2),
        ..Default::default()
    };
    let report = build_report(&endpoints, &options);
    assert!(report.edges.is_empty());
}

#[test]
fn test_weight_collapses_multiple_call_sites() {
    let endpoints = vec![
        endpoint(
            "a",
            "p.py",
            3,
            Protocol::Kafka,
            ChannelRole::Producer,
            "t",
            CONFIDENCE_ONE * 9 / 10,
        ),
        endpoint(
            "a",
            "p.py",
            7,
            Protocol::Kafka,
            ChannelRole::Producer,
            "t",
            CONFIDENCE_ONE * 9 / 10,
        ),
        endpoint(
            "b",
            "c.js",
            8,
            Protocol::Kafka,
            ChannelRole::Consumer,
            "t",
            CONFIDENCE_ONE * 8 / 10,
        ),
    ];
    let report = build_report(&endpoints, &ChannelLinkOptions::default());
    assert_eq!(report.edges.len(), 1);
    assert_eq!(report.edges[0].weight, 2);
    assert_eq!(report.edges[0].producer.line, 3);
}
