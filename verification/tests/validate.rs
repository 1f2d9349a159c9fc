use route_provider::config::{ParsedServer, ServerConfig, ServiceConfig};
use route_provider::ports::{validate, PortConflict};
use route_provider::value::Value;

fn service(port: i32) -> ServiceConfig {
    ServiceConfig { port, authelia: false, authentik: false, https: false, extra_domains: vec![] }
}

fn server(name: &str, ports: Vec<(&str, i32)>) -> ParsedServer {
    ParsedServer {
        ip: "10.0.0.1".to_string(),
        name: name.to_string(),
        services: ports.into_iter().map(|(k, p)| (k.to_string(), service(p))).collect(),
    }
}

fn conflict(server: &str, service: &str, port: i32) -> PortConflict {
    PortConflict { server: server.to_string(), service: service.to_string(), port }
}

#[test]
fn distinct_ports_validate() {
    let model = vec![
        server("a", vec![("web", 80), ("api", 81), ("db", 5432)]),
        server("b", vec![("web2", 8080)]),
        server("c", vec![]),
    ];
    assert_eq!(validate(&model), Ok(()));
}

#[test]
fn empty_model_validates() {
    assert_eq!(validate(&[]), Ok(()));
}

#[test]
fn one_port_on_two_servers_is_no_conflict() {
    let model = vec![server("a", vec![("web", 80)]), server("b", vec![("web", 80)])];
    assert_eq!(validate(&model), Ok(()));
}

#[test]
fn two_services_on_one_port_conflict() {
    let model = vec![server("serverA", vec![("svcX", 80), ("svcY", 80)])];
    assert_eq!(validate(&model), Err(conflict("serverA", "svcY", 80)));
}

#[test]
fn scenario_of_two_services_on_port_80() {
    let raw = ServerConfig {
        server: vec![(
            "serverA".to_string(),
            Value::Table(vec![
                ("ip".to_string(), Value::Str("10.0.0.1".to_string())),
                ("svcX".to_string(), Value::Table(vec![("port".to_string(), Value::Integer(80))])),
                ("svcY".to_string(), Value::Table(vec![("port".to_string(), Value::Integer(80))])),
            ]),
        )],
    };
    let model = raw.service_map().unwrap();
    let found = validate(&model).unwrap_err();
    assert_eq!(found.server, "serverA");
    assert_eq!(found.port, 80);
    assert!(found.service == "svcX" || found.service == "svcY");
}

#[test]
fn first_conflict_of_the_first_server_is_reported() {
    let model = vec![
        server("clean", vec![("a", 1), ("b", 2)]),
        server("first", vec![("a", 10), ("b", 20), ("c", 30), ("d", 20), ("e", 10), ("f", 20)]),
        server("second", vec![("x", 7), ("y", 7)]),
    ];
    assert_eq!(validate(&model), Err(conflict("first", "d", 20)));
}

#[test]
fn conflict_in_a_later_server_is_found() {
    let model = vec![
        server("a", vec![("web", 80)]),
        server("b", vec![("web", 80), ("api", 81), ("again", 81)]),
    ];
    assert_eq!(validate(&model), Err(conflict("b", "again", 81)));
}

#[test]
fn negative_ports_conflict_like_any_other() {
    let model = vec![server("a", vec![("x", -1), ("y", 1), ("z", -1)])];
    assert_eq!(validate(&model), Err(conflict("a", "z", -1)));
}

#[test]
fn message_names_port_server_and_service() {
    assert_eq!(
        conflict("serverA", "svcY", 80).message(),
        "Port 80 is already in use for server serverA and service svcY"
    );
    assert_eq!(
        conflict("s", "t", -2147483648).message(),
        "Port -2147483648 is already in use for server s and service t"
    );
}
