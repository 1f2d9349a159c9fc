use route_provider::config::{ParsedServer, ServerConfig, ServiceConfig};
use route_provider::named::{get, put};
use route_provider::routing::{
    Http, LoadBalancer, ProviderAPIResponse, RenderParams, Router, Server, Service, Tls,
};
use route_provider::value::Value;

fn params() -> RenderParams {
    RenderParams {
        domain: "example.org".to_string(),
        entry_point: "websecure".to_string(),
        cert_resolver: "production".to_string(),
    }
}

fn service(port: i32) -> ServiceConfig {
    ServiceConfig { port, authelia: false, authentik: false, https: false, extra_domains: vec![] }
}

fn server(name: &str, ip: &str, services: Vec<(&str, ServiceConfig)>) -> ParsedServer {
    ParsedServer {
        ip: ip.to_string(),
        name: name.to_string(),
        services: services.into_iter().map(|(k, v)| (k.to_string(), v)).collect(),
    }
}

fn router(name: &str, middlewares: Vec<&str>) -> Router {
    Router {
        middlewares: middlewares.into_iter().map(|m| m.to_string()).collect(),
        entry_points: vec!["websecure".to_string()],
        service: name.to_string(),
        rule: format!("Host(`{}.example.org`)", name),
        tls: Tls { certresolver: "production".to_string() },
    }
}

fn backend(url: &str) -> Service {
    Service { load_balancer: LoadBalancer { servers: vec![Server { url: url.to_string() }] } }
}

fn names<T>(entries: &[(String, T)]) -> Vec<&str> {
    entries.iter().map(|(name, _)| name.as_str()).collect()
}

#[test]
fn renders_router_and_target_of_one_service() {
    let svc = ServiceConfig { authelia: true, ..service(80) };
    let model = vec![server("serverA", "10.0.0.1", vec![("svcX", svc)])];
    let doc = ProviderAPIResponse::from_config(&model, &params());
    assert_eq!(
        doc,
        ProviderAPIResponse {
            http: Http {
                routers: vec![("svcX".to_string(), router("svcX", vec!["authelia@docker"]))],
                services: vec![("svcX".to_string(), backend("http://10.0.0.1:80"))],
            },
        }
    );
    let found = doc.router("svcX").unwrap();
    assert_eq!(found.middlewares, vec!["authelia@docker".to_string()]);
    assert_eq!(found.entry_points, vec!["websecure".to_string()]);
    assert_eq!(found.service, "svcX");
    assert_eq!(found.rule, "Host(`svcX.example.org`)");
    assert_eq!(found.tls.certresolver, "production");
    let target = doc.service("svcX").unwrap();
    assert_eq!(target.load_balancer.servers.len(), 1);
    assert_eq!(target.load_balancer.servers[0].url, "http://10.0.0.1:80");
}

#[test]
fn resolve_then_render_gives_the_scenario_document() {
    let raw = ServerConfig {
        server: vec![(
            "serverA".to_string(),
            Value::Table(vec![
                ("ip".to_string(), Value::Str("10.0.0.1".to_string())),
                (
                    "svcX".to_string(),
                    Value::Table(vec![
                        ("port".to_string(), Value::Integer(80)),
                        ("authelia".to_string(), Value::Boolean(true)),
                    ]),
                ),
            ]),
        )],
    };
    let model = raw.service_map().unwrap();
    let doc = ProviderAPIResponse::from_config(&model, &params());
    assert_eq!(doc.router("svcX").unwrap().middlewares, vec!["authelia@docker".to_string()]);
    assert_eq!(doc.service("svcX").unwrap().load_balancer.servers[0].url, "http://10.0.0.1:80");
    assert_eq!(doc.http.routers.len(), 1);
    assert_eq!(doc.http.services.len(), 1);
}

#[test]
fn empty_model_renders_an_empty_document() {
    let doc = ProviderAPIResponse::from_config(&[], &params());
    assert!(doc.http.routers.is_empty());
    assert!(doc.http.services.is_empty());
    assert!(doc.router("svcX").is_none());
    assert!(doc.service("svcX").is_none());
}

#[test]
fn rendered_middlewares_follow_the_flags() {
    let model = vec![server(
        "s",
        "10.0.0.1",
        vec![
            ("both", ServiceConfig { authelia: true, authentik: true, ..service(1) }),
            ("authelia", ServiceConfig { authelia: true, ..service(2) }),
            ("authentik", ServiceConfig { authentik: true, ..service(3) }),
            ("open", service(4)),
        ],
    )];
    let doc = ProviderAPIResponse::from_config(&model, &params());
    assert_eq!(doc.router("both").unwrap().middlewares, vec!["authelia@docker".to_string()]);
    assert_eq!(doc.router("authelia").unwrap().middlewares, vec!["authelia@docker".to_string()]);
    assert_eq!(doc.router("authentik").unwrap().middlewares, vec!["authentik@file".to_string()]);
    assert_eq!(doc.router("open").unwrap().middlewares, Vec::<String>::new());
}

#[test]
fn parameters_go_into_every_router() {
    let custom = RenderParams {
        domain: "lab.test".to_string(),
        entry_point: "web".to_string(),
        cert_resolver: "staging".to_string(),
    };
    let model = vec![server("s", "192.168.0.7", vec![("wiki", service(3000)), ("git", service(3001))])];
    let doc = ProviderAPIResponse::from_config(&model, &custom);
    for name in ["wiki", "git"] {
        let found = doc.router(name).unwrap();
        assert_eq!(found.rule, format!("Host(`{}.lab.test`)", name));
        assert_eq!(found.entry_points, vec!["web".to_string()]);
        assert_eq!(found.tls.certresolver, "staging");
        assert_eq!(found.service, name);
    }
}

#[test]
fn target_scheme_is_http_whatever_the_https_flag() {
    let model = vec![server(
        "s",
        "10.1.2.3",
        vec![("secure", ServiceConfig { https: true, ..service(8443) })],
    )];
    let doc = ProviderAPIResponse::from_config(&model, &params());
    assert_eq!(doc.service("secure").unwrap().load_balancer.servers[0].url, "http://10.1.2.3:8443");
}

#[test]
fn extra_domains_do_not_change_the_rule() {
    let svc = ServiceConfig { extra_domains: vec!["other.example".to_string()], ..service(80) };
    let model = vec![server("s", "10.0.0.1", vec![("svc", svc)])];
    let doc = ProviderAPIResponse::from_config(&model, &params());
    assert_eq!(doc.router("svc").unwrap().rule, "Host(`svc.example.org`)");
}

#[test]
fn target_port_is_written_in_decimal() {
    let model = vec![server(
        "s",
        "h",
        vec![
            ("zero", service(0)),
            ("top", service(i32::MAX)),
            ("negative", service(-5)),
            ("bottom", service(i32::MIN)),
        ],
    )];
    let doc = ProviderAPIResponse::from_config(&model, &params());
    let url = |name: &str| doc.service(name).unwrap().load_balancer.servers[0].url.clone();
    assert_eq!(url("zero"), "http://h:0");
    assert_eq!(url("top"), "http://h:2147483647");
    assert_eq!(url("negative"), "http://h:-5");
    assert_eq!(url("bottom"), "http://h:-2147483648");
}

#[test]
fn routers_and_services_have_the_same_names() {
    let model = vec![
        server("a", "10.0.0.1", vec![("web", service(80)), ("api", service(81))]),
        server("b", "10.0.0.2", vec![("db", service(5432)), ("web", service(8080))]),
        server("c", "10.0.0.3", vec![]),
    ];
    let doc = ProviderAPIResponse::from_config(&model, &params());
    assert_eq!(names(&doc.http.routers), vec!["web", "api", "db"]);
    assert_eq!(names(&doc.http.services), vec!["web", "api", "db"]);
}

#[test]
fn later_service_of_a_name_takes_the_place_of_the_earlier() {
    let model = vec![
        server("a", "10.0.0.1", vec![("web", ServiceConfig { authelia: true, ..service(80) })]),
        server("b", "10.0.0.2", vec![("api", service(81))]),
        server("c", "10.0.0.3", vec![("web", ServiceConfig { authentik: true, ..service(8080) })]),
    ];
    let doc = ProviderAPIResponse::from_config(&model, &params());
    assert_eq!(
        doc.http.routers,
        vec![
            ("web".to_string(), router("web", vec!["authentik@file"])),
            ("api".to_string(), router("api", vec![])),
        ]
    );
    assert_eq!(
        doc.http.services,
        vec![
            ("web".to_string(), backend("http://10.0.0.3:8080")),
            ("api".to_string(), backend("http://10.0.0.2:81")),
        ]
    );
}

#[test]
fn rendering_twice_gives_the_same_document() {
    let raw = || ServerConfig {
        server: vec![
            (
                "a".to_string(),
                Value::Table(vec![
                    ("ip".to_string(), Value::Str("10.0.0.1".to_string())),
                    ("web".to_string(), Value::Table(vec![("port".to_string(), Value::Integer(80))])),
                    ("api".to_string(), Value::Table(vec![("port".to_string(), Value::Integer(81))])),
                ]),
            ),
            (
                "b".to_string(),
                Value::Table(vec![
                    ("ip".to_string(), Value::Str("10.0.0.2".to_string())),
                    ("web".to_string(), Value::Table(vec![("port".to_string(), Value::Integer(90))])),
                ]),
            ),
        ],
    };
    let first = ProviderAPIResponse::from_config(&raw().service_map().unwrap(), &params());
    let second = ProviderAPIResponse::from_config(&raw().service_map().unwrap(), &params());
    assert_eq!(first, second);
    assert_eq!(format!("{:?}", first), format!("{:?}", second));
}

#[test]
fn put_replaces_in_place_or_appends() {
    let mut entries: Vec<(String, Service)> = Vec::new();
    put(&mut entries, "a".to_string(), backend("http://h:1"));
    put(&mut entries, "b".to_string(), backend("http://h:2"));
    put(&mut entries, "a".to_string(), backend("http://h:3"));
    assert_eq!(
        entries,
        vec![("a".to_string(), backend("http://h:3")), ("b".to_string(), backend("http://h:2"))]
    );
    assert_eq!(get(&entries, "b"), Some(&backend("http://h:2")));
    assert_eq!(get(&entries, "c"), None);
}
