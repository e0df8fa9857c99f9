use codesearch::channels::{ChannelEndpoint, ChannelRole, EndpointSource, Protocol};
use codesearch::claims::CONFIDENCE_ONE;
use codesearch::collections::TextMap;
use codesearch::domain::{Language, ReferenceKind, SymbolReference};
use codesearch::resolve_channels::{
    http_server_package, http_verb_for_symbol, role_for_symbol, ChannelResolver,
    ResolveChannelsUseCase, ResolvedConfigValue, CONFIRMED_CONFIDENCE,
    PACKAGE_DRIVEN_CONFIDENCE,
};

#[derive(Default)]
struct StubResolver {
    value: Option<ResolvedConfigValue>,
    pattern: Option<String>,
    /// Channel argument the stub reports for any call site (simulates
    /// reading the topic expression out of the source).
    channel_arg: Option<String>,
    /// Loop-array path fan-out the stub reports for any call site.
    loop_paths: Option<Vec<String>>,
    /// Whether a call site looks like a route registration. `None` (the
    /// default) reports `true`, so route synthesis is not gated unless a
    /// test opts into the settings-getter case with `Some(false)`.
    is_route_call: Option<bool>,
}

impl ChannelResolver for StubResolver {
    fn resolve_config_expression(
        &self,
        _expression: &str,
        _enclosing_class: Option<&str>,
        _candidates: &[(String, String)],
    ) -> Option<ResolvedConfigValue> {
        self.value.as_ref().map(|v| ResolvedConfigValue {
            value: v.value.clone(),
            env_var: v.env_var.clone(),
        })
    }

    fn resolve_topic_pattern(
        &self,
        _expression: &str,
        _call_site_source: &str,
        _call_line: u32,
        _candidates: &[(String, String)],
    ) -> Option<String> {
        self.pattern.clone()
    }

    fn channel_argument_at(&self, _call_site_source: &str, _call_line: u32) -> Option<String> {
        self.channel_arg.clone()
    }

    fn resolve_loop_array_paths(
        &self,
        _expression: &str,
        _call_site_source: &str,
        _call_line: u32,
    ) -> Option<Vec<String>> {
        self.loop_paths.clone()
    }

    fn is_http_route_call_at(&self, _call_site_source: &str, _call_line: u32) -> bool {
        self.is_route_call.unwrap_or(true)
    }
}

fn endpoint(protocol: Protocol, channel: &str, resolved: bool) -> ChannelEndpoint {
    let e = ChannelEndpoint::new(
        "repo".to_string(),
        "src/app.ts".to_string(),
        42,
        protocol,
        ChannelRole::Producer,
        channel.to_string(),
        channel.to_string(),
        CONFIDENCE_ONE * 5 / 10,
        EndpointSource::TreeSitter,
    );
    if resolved {
        e
    } else {
        e.unresolved()
    }
}

fn scip_ref(line: u32, package: Option<&str>) -> SymbolReference {
    let r = SymbolReference::new(
        None,
        "EventProducer#produce".to_string(),
        "src/app.ts".to_string(),
        "src/app.ts".to_string(),
        line,
        1,
        ReferenceKind::MethodCall,
        Language::TypeScript,
        "repo".to_string(),
    );
    match package {
        Some(p) => r.with_callee_package(p),
        None => r,
    }
}

fn refs_map(refs: Vec<SymbolReference>) -> TextMap<Vec<SymbolReference>> {
    let mut m = TextMap::new();
    m.insert("src/app.ts".to_string(), refs);
    m
}

#[test]
fn confirms_library_and_boosts_confidence() {
    let uc = ResolveChannelsUseCase::new(StubResolver::default());
    let refs = refs_map(vec![scip_ref(42, Some("kafkajs"))]);

    let out = uc.resolve(
        "repo",
        vec![endpoint(Protocol::Kafka, "orders", true)],
        &refs,
        &[],
        &TextMap::new(),
    );
    assert_eq!(out[0].library.as_deref(), Some("kafkajs"));
    assert!(out[0].confirmed);
    assert_eq!(out[0].confidence, CONFIRMED_CONFIDENCE);
}

#[test]
fn does_not_confirm_on_protocol_mismatch() {
    // An MQTT endpoint must not be confirmed by a kafka package.
    let uc = ResolveChannelsUseCase::new(StubResolver::default());
    let refs = refs_map(vec![scip_ref(42, Some("kafkajs"))]);

    let out = uc.resolve(
        "repo",
        vec![endpoint(Protocol::Mqtt, "sensors/x", true)],
        &refs,
        &[],
        &TextMap::new(),
    );
    assert!(!out[0].confirmed);
    assert_eq!(out[0].library.as_deref(), None);
}

#[test]
fn resolves_config_value_and_env() {
    let resolved = ResolvedConfigValue {
        value: "shipment_event".to_string(),
        env_var: Some("KAFKA_SHIPMENT_EVENT_TOPIC".to_string()),
    };
    let uc = ResolveChannelsUseCase::new(StubResolver {
        value: Some(resolved),
        ..Default::default()
    });
    let refs = refs_map(vec![scip_ref(42, Some("kafkajs"))]);

    let out = uc.resolve(
        "repo",
        vec![endpoint(
            Protocol::Kafka,
            "this.config.broker.topics.shipmentEvent",
            false,
        )],
        &refs,
        &[("config".to_string(), "…".to_string())],
        &TextMap::new(),
    );
    assert_eq!(out[0].channel_raw.as_str(), "shipment_event");
    assert!(out[0].resolved);
    assert_eq!(out[0].env_var.as_deref(), Some("KAFKA_SHIPMENT_EVENT_TOPIC"));
    // Library confirmation still applied.
    assert!(out[0].confirmed);
}

#[test]
fn leaves_unconfirmed_when_no_package() {
    let uc = ResolveChannelsUseCase::new(StubResolver::default());
    let refs = refs_map(vec![scip_ref(42, None)]);

    let out = uc.resolve(
        "repo",
        vec![endpoint(Protocol::Kafka, "orders", true)],
        &refs,
        &[],
        &TextMap::new(),
    );
    assert!(!out[0].confirmed);
    assert_eq!(out[0].confidence, CONFIDENCE_ONE / 2);
}

#[test]
fn infers_topic_pattern_and_marks_endpoint() {
    // An unresolved computed topic gets an inferred pattern from its source.
    let uc = ResolveChannelsUseCase::new(StubResolver {
        pattern: Some("+/request".to_string()),
        ..Default::default()
    });
    let mut sources = TextMap::new();
    sources.insert("src/app.ts".to_string(), "…".to_string());

    let out = uc.resolve(
        "repo",
        vec![endpoint(Protocol::Mqtt, "requestTopic", false)],
        &TextMap::new(),
        &[],
        &sources,
    );
    assert_eq!(out[0].channel_raw.as_str(), "+/request");
    assert!(out[0].resolved);
    assert!(out[0].pattern);
}

#[test]
fn role_for_symbol_classifies_channel_verbs() {
    // A consumer's `connect`/`run` is its subscription loop — a channel op.
    assert_eq!(
        role_for_symbol("Consumer#connect"),
        Some(ChannelRole::Consumer)
    );
    assert_eq!(role_for_symbol("Consumer#run"), Some(ChannelRole::Consumer));
    // A producer's `connect` is pure setup — not a channel op.
    assert_eq!(role_for_symbol("Producer#connect"), None);
    // Unambiguous verbs need no type.
    assert_eq!(role_for_symbol("send"), Some(ChannelRole::Producer));
    assert_eq!(role_for_symbol("subscribe"), Some(ChannelRole::Consumer));
    assert_eq!(
        role_for_symbol("Client#produce"),
        Some(ChannelRole::Producer)
    );
    assert_eq!(
        role_for_symbol("Consumer#consumeOne"),
        Some(ChannelRole::Consumer)
    );
    // Lifecycle methods and bare shared verbs originate nothing.
    assert_eq!(role_for_symbol("connect"), None);
    assert_eq!(role_for_symbol("Consumer#close"), None);
    assert_eq!(role_for_symbol("Producer#<constructor>"), None);
    assert_eq!(role_for_symbol("Client#commit"), None);
}

/// A wrapper/fork consumer call (`consumer.connect({ topics })`) that no
/// framework detector matched is originated from the SCIP package reference:
/// the package gives the protocol, the receiver type gives the role.
#[test]
fn synthesizes_consumer_from_wrapper_package() {
    let uc = ResolveChannelsUseCase::new(StubResolver::default());

    // SCIP resolves `this.consumer.connect(...)` to the fork's
    // `Consumer#connect`, defined in `@backend/kafkajs`.
    let mut refs = TextMap::new();
    refs.insert(
        "src/kafka-client-adapter.ts".to_string(),
        vec![SymbolReference::new(
            None,
            "Consumer#connect".to_string(),
            "src/kafka-client-adapter.ts".to_string(),
            "src/kafka-client-adapter.ts".to_string(),
            38,
            9,
            ReferenceKind::MethodCall,
            Language::TypeScript,
            "repo".to_string(),
        )
        .with_callee_package("@backend/kafkajs")
        .with_enclosing_scope("KafkaClientAdapter")],
    );

    // Extraction found nothing in this file.
    let out = uc.resolve("repo", vec![], &refs, &[], &TextMap::new());

    assert_eq!(out.len(), 1, "one synthesized consumer endpoint");
    let ep = &out[0];
    assert_eq!(ep.protocol, Protocol::Kafka);
    assert_eq!(ep.role, ChannelRole::Consumer);
    assert!(!ep.resolved, "no concrete topic from SCIP");
    assert!(ep.confirmed);
    assert_eq!(ep.library.as_deref(), Some("@backend/kafkajs"));
    assert_eq!(ep.enclosing_symbol.as_deref(), Some("KafkaClientAdapter"));
    assert_eq!(ep.line, 38);
}

/// The reference that originates an endpoint confirms it no further: it stays
/// below an extracted endpoint whose library is confirmed, also where its
/// configuration names the topic.
#[test]
fn originated_endpoints_stay_below_confirmed_ones() {
    let refs = || {
        let mut refs = TextMap::new();
        refs.insert(
            "k.ts".to_string(),
            vec![SymbolReference::new(
                None,
                "Consumer#connect".to_string(),
                "k.ts".to_string(),
                "k.ts".to_string(),
                38,
                9,
                ReferenceKind::MethodCall,
                Language::TypeScript,
                "repo".to_string(),
            )
            .with_callee_package("@backend/kafkajs")],
        );
        refs
    };
    let uc = ResolveChannelsUseCase::new(StubResolver::default());
    let out = uc.resolve("repo", vec![], &refs(), &[], &TextMap::new());
    assert_eq!(out.len(), 1);
    assert_eq!(out[0].confidence, 600_000);
    assert!(!out[0].resolved);

    let uc = ResolveChannelsUseCase::new(StubResolver {
        value: Some(ResolvedConfigValue {
            value: "orders".to_string(),
            env_var: Some("ORDERS_TOPIC".to_string()),
        }),
        ..Default::default()
    });
    let out = uc.resolve("repo", vec![], &refs(), &[], &TextMap::new());
    assert_eq!(out.len(), 1);
    assert!(out[0].resolved);
    assert_eq!(out[0].channel_normalized, "orders");
    assert_eq!(out[0].confidence, PACKAGE_DRIVEN_CONFIDENCE);
}

/// A consumer's read-loop call (`consumer.consumeOne()`) carries no channel
/// argument — the topic was named at the earlier `subscribe`/`connect`. With
/// no argument to read, synthesis must skip it rather than fabricate an
/// endpoint labelled with the receiver type (`Consumer`).
#[test]
fn does_not_synthesize_from_read_loop_call_without_argument() {
    // Default stub reports no channel argument at any call site.
    let uc = ResolveChannelsUseCase::new(StubResolver::default());

    let mut refs = TextMap::new();
    refs.insert(
        "src/consumer.ts".to_string(),
        vec![SymbolReference::new(
            None,
            "Consumer#consumeOne".to_string(),
            "src/consumer.ts".to_string(),
            "src/consumer.ts".to_string(),
            94,
            9,
            ReferenceKind::MethodCall,
            Language::TypeScript,
            "repo".to_string(),
        )
        .with_callee_package("@backend/kafkajs")
        .with_enclosing_scope("Consumer")],
    );

    let out = uc.resolve("repo", vec![], &refs, &[], &TextMap::new());
    assert!(
        out.is_empty(),
        "read-loop call with no channel argument must not synthesize, got {:?}",
        out.iter().map(|e| e.channel_raw.as_str()).collect::<Vec<_>>()
    );
}

/// A read-loop call *does* originate an endpoint when the call site actually
/// carries a topic argument the resolver can read (some wrappers pass the
/// topic into `run`/`consume`), so the skip is gated on the missing argument.
#[test]
fn synthesizes_from_read_loop_call_with_argument() {
    let resolver = StubResolver {
        channel_arg: Some("'orders'".to_string()),
        ..Default::default()
    };
    let uc = ResolveChannelsUseCase::new(resolver);

    let mut refs = TextMap::new();
    refs.insert(
        "src/consumer.ts".to_string(),
        vec![SymbolReference::new(
            None,
            "Consumer#consume".to_string(),
            "src/consumer.ts".to_string(),
            "src/consumer.ts".to_string(),
            50,
            9,
            ReferenceKind::MethodCall,
            Language::TypeScript,
            "repo".to_string(),
        )
        .with_callee_package("@backend/kafkajs")],
    );

    // The channel argument is read from the call-site source, so a source
    // entry must exist for the resolver stub to be consulted at all.
    let mut sources = TextMap::new();
    sources.insert("src/consumer.ts".to_string(), "// source".to_string());

    let out = uc.resolve("repo", vec![], &refs, &[], &sources);
    assert_eq!(out.len(), 1, "argument present → synthesize");
    assert_eq!(out[0].role, ChannelRole::Consumer);
}

/// A literal `produce("orders", …)` the extractor already resolved must not
/// gain a weaker synthesized twin from the SCIP reference at the same site.
#[test]
fn does_not_shadow_extracted_endpoint() {
    let uc = ResolveChannelsUseCase::new(StubResolver::default());

    let mut refs = TextMap::new();
    refs.insert(
        "src/app.ts".to_string(),
        vec![SymbolReference::new(
            None,
            "Producer#produce".to_string(),
            "src/app.ts".to_string(),
            "src/app.ts".to_string(),
            42,
            1,
            ReferenceKind::MethodCall,
            Language::TypeScript,
            "repo".to_string(),
        )
        .with_callee_package("@confluentinc/kafka-javascript")],
    );

    // The extractor already produced a resolved producer at line 42.
    let extracted = endpoint(Protocol::Kafka, "orders", true);
    let out = uc.resolve("repo", vec![extracted], &refs, &[], &TextMap::new());

    // Only the extracted endpoint survives — no synthesized duplicate.
    assert_eq!(out.len(), 1);
    assert_eq!(out[0].channel_raw.as_str(), "orders");
    assert!(out[0].resolved);
}

/// An unresolved HTTP endpoint whose channel is a loop-variable field access
/// (`route.path`) is expanded into one resolved endpoint per route-table
/// entry the resolver reports, and the placeholder is dropped.
#[test]
fn expands_loop_registered_routes() {
    let resolver = StubResolver {
        loop_paths: Some(vec![
            "/search".to_string(),
            "/delete".to_string(),
            "/create".to_string(),
        ]),
        ..Default::default()
    };
    let uc = ResolveChannelsUseCase::new(resolver);

    // The placeholder the synthesizer would leave: unresolved HTTP consumer
    // whose raw channel is the loop-variable access.
    let placeholder = ChannelEndpoint::new(
        "repo".to_string(),
        "src/routes/index.ts".to_string(),
        79,
        Protocol::Http,
        ChannelRole::Consumer,
        "route.path".to_string(),
        "route.path".to_string(),
        CONFIDENCE_ONE * 6 / 10,
        EndpointSource::Config,
    )
    .with_method("POST")
    .unresolved();

    let mut sources = TextMap::new();
    sources.insert("src/routes/index.ts".to_string(), "// source".to_string());

    let out = uc.resolve("repo", vec![placeholder], &TextMap::new(), &[], &sources);

    // Three resolved routes, no `route.path` placeholder left behind.
    assert_eq!(out.len(), 3);
    assert!(out.iter().all(|e| e.resolved));
    assert!(out.iter().all(|e| e.method.as_deref() == Some("POST")));
    let mut paths: Vec<_> = out.iter().map(|e| e.channel_normalized.as_str()).collect();
    paths.sort();
    assert_eq!(paths, vec!["/create", "/delete", "/search"]);
    assert!(out.iter().all(|e| e.channel_raw.as_str() != "route.path"));
}

/// A non-messaging package reference never originates an endpoint.
#[test]
fn ignores_non_messaging_packages() {
    let uc = ResolveChannelsUseCase::new(StubResolver::default());

    let mut refs = TextMap::new();
    refs.insert(
        "src/db.ts".to_string(),
        vec![SymbolReference::new(
            None,
            "Client#connect".to_string(),
            "src/db.ts".to_string(),
            "src/db.ts".to_string(),
            10,
            1,
            ReferenceKind::MethodCall,
            Language::TypeScript,
            "repo".to_string(),
        )
        .with_callee_package("pg")],
    );

    let out = uc.resolve("repo", vec![], &refs, &[], &TextMap::new());
    assert!(out.is_empty());
}

#[test]
fn http_verb_and_package_classification() {
    // express route methods resolve into express's own router type.
    assert!(http_server_package("@types/express-serve-static-core"));
    assert!(http_server_package("express"));
    assert!(http_server_package("fastify"));
    assert!(!http_server_package("axios"));
    assert!(!http_server_package("pg"));

    assert_eq!(http_verb_for_symbol("IRouter#get"), Some("GET"));
    assert_eq!(http_verb_for_symbol("FastifyInstance#post"), Some("POST"));
    assert_eq!(http_verb_for_symbol("Application#all"), Some("ANY"));
    assert_eq!(http_verb_for_symbol("Router#route"), Some("ANY"));
    // `use` registers middleware, not a route — excluded to avoid flooding
    // the report with `app.use(express.json())`-style non-endpoints.
    assert_eq!(http_verb_for_symbol("IRouter#use"), None);
    assert_eq!(http_verb_for_symbol("Server#listen"), None);
    // Receiver-type gate: `req.get('Header')` is a header read, not a route.
    assert_eq!(http_verb_for_symbol("Request#get"), None);
    assert_eq!(http_verb_for_symbol("Response#get"), None);
}

/// A `this.router.get('/p', …)` route whose object is a field access — missed
/// by a bare-identifier syntactic detector — is originated from the SCIP
/// reference into express's router type, with the verb and normalized path.
#[test]
fn synthesizes_http_route_from_express_type() {
    let uc = ResolveChannelsUseCase::new(StubResolver {
        // The resolver reads the path literal off the call site.
        channel_arg: Some("'/minHeatingTime/:id'".to_string()),
        ..Default::default()
    });

    let mut refs = TextMap::new();
    refs.insert(
        "src/router.ts".to_string(),
        vec![SymbolReference::new(
            None,
            "IRouter#get".to_string(),
            "src/router.ts".to_string(),
            "src/router.ts".to_string(),
            22,
            9,
            ReferenceKind::MethodCall,
            Language::TypeScript,
            "repo".to_string(),
        )
        .with_callee_package("@types/express-serve-static-core")
        .with_enclosing_scope("ThermoregulationRouter")],
    );
    // The call-site source must be present for the resolver to read the path.
    let mut sources = TextMap::new();
    sources.insert("src/router.ts".to_string(), "…".to_string());

    let out = uc.resolve("repo", vec![], &refs, &[], &sources);

    assert_eq!(out.len(), 1);
    let ep = &out[0];
    assert_eq!(ep.protocol, Protocol::Http);
    assert_eq!(ep.role, ChannelRole::Consumer);
    assert_eq!(ep.method.as_deref(), Some("GET"));
    // Path parameters normalized to `{}`, literal is resolved (joinable).
    assert_eq!(ep.channel_normalized.as_str(), "/minHeatingTime/{}");
    assert!(ep.resolved);
    assert_eq!(ep.library.as_deref(), Some("@types/express-serve-static-core"));
    assert_eq!(ep.enclosing_symbol.as_deref(), Some("ThermoregulationRouter"));
}

/// Express's `app.get('title')` settings getter resolves into the same route
/// type as a real route (SCIP `IRouter#get`), but has a single argument.
/// Synthesis must reject it so it does not become a bogus `GET` route.
#[test]
fn does_not_synthesize_route_from_settings_getter() {
    let uc = ResolveChannelsUseCase::new(StubResolver {
        // The call site is a one-argument getter, not a route registration.
        is_route_call: Some(false),
        ..Default::default()
    });

    let mut refs = TextMap::new();
    refs.insert(
        "src/app.ts".to_string(),
        vec![SymbolReference::new(
            None,
            "Application#get".to_string(),
            "src/app.ts".to_string(),
            "src/app.ts".to_string(),
            28,
            9,
            ReferenceKind::MethodCall,
            Language::TypeScript,
            "repo".to_string(),
        )
        .with_callee_package("@types/express-serve-static-core")],
    );
    let mut sources = TextMap::new();
    sources.insert("src/app.ts".to_string(), "// source".to_string());

    let out = uc.resolve("repo", vec![], &refs, &[], &sources);
    assert!(
        out.is_empty(),
        "settings getter must not synthesize a route, got {:?}",
        out.iter().map(|e| e.channel_raw.as_str()).collect::<Vec<_>>()
    );
}

/// An HTTP **client** package (axios) must never originate a server route —
/// its calls are producers, covered by syntactic detectors.
#[test]
fn does_not_synthesize_http_route_from_client_package() {
    let uc = ResolveChannelsUseCase::new(StubResolver {
        channel_arg: Some("'http://svc/api'".to_string()),
        ..Default::default()
    });

    let mut refs = TextMap::new();
    refs.insert(
        "src/client.ts".to_string(),
        vec![SymbolReference::new(
            None,
            "AxiosInstance#get".to_string(),
            "src/client.ts".to_string(),
            "src/client.ts".to_string(),
            5,
            1,
            ReferenceKind::MethodCall,
            Language::TypeScript,
            "repo".to_string(),
        )
        .with_callee_package("axios")],
    );

    let out = uc.resolve("repo", vec![], &refs, &[], &TextMap::new());
    assert!(out.is_empty());
}

/// An HTTP route already extracted by a syntactic detector must not gain a
/// synthesized twin from the SCIP reference at the same line.
#[test]
fn does_not_shadow_extracted_http_route() {
    let uc = ResolveChannelsUseCase::new(StubResolver {
        channel_arg: Some("'/rhc'".to_string()),
        ..Default::default()
    });

    let mut refs = TextMap::new();
    refs.insert(
        "src/router.ts".to_string(),
        vec![SymbolReference::new(
            None,
            "IRouter#post".to_string(),
            "src/router.ts".to_string(),
            "src/router.ts".to_string(),
            25,
            1,
            ReferenceKind::MethodCall,
            Language::TypeScript,
            "repo".to_string(),
        )
        .with_callee_package("@types/express-serve-static-core")],
    );

    // The syntactic detector already produced an HTTP consumer at line 25.
    let extracted = ChannelEndpoint::new(
        "repo".to_string(),
        "src/router.ts".to_string(),
        25,
        Protocol::Http,
        ChannelRole::Consumer,
        "/rhc".to_string(),
        "/rhc".to_string(),
        CONFIDENCE_ONE * 8 / 10,
        EndpointSource::TreeSitter,
    )
    .with_method("post");
    let out = uc.resolve("repo", vec![extracted], &refs, &[], &TextMap::new());

    assert_eq!(out.len(), 1, "no synthesized duplicate");
    assert_eq!(out[0].source, EndpointSource::TreeSitter);
}
