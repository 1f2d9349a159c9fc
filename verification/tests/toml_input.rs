use route_provider::config::{ConfigError, ServerConfig};
use route_provider::ports::validate;
use route_provider::routing::{ProviderAPIResponse, RenderParams};
use route_provider::value::Value;

fn tree(value: toml::Value) -> Value {
    match value {
        toml::Value::String(text) => Value::Str(text),
        toml::Value::Integer(number) => Value::Integer(number),
        toml::Value::Boolean(flag) => Value::Boolean(flag),
        toml::Value::Array(items) => Value::Array(items.into_iter().map(tree).collect()),
        toml::Value::Table(table) => {
            Value::Table(table.into_iter().map(|(key, value)| (key, tree(value))).collect())
        }
        toml::Value::Float(_) | toml::Value::Datetime(_) => Value::Other,
    }
}

fn read(text: &str) -> ServerConfig {
    let mut root: toml::Table = text.parse().unwrap();
    match root.remove("server") {
        Some(toml::Value::Table(servers)) => ServerConfig {
            server: servers.into_iter().map(|(key, value)| (key, tree(value))).collect(),
        },
        other => panic!("no table `server`: {:?}", other),
    }
}

fn params() -> RenderParams {
    RenderParams {
        domain: "evercode.se".to_string(),
        entry_point: "websecure".to_string(),
        cert_resolver: "production".to_string(),
    }
}

#[test]
fn toml_two_services_on_port_80_conflict() {
    let config = read(
        "[server.serverA]\nip = \"10.0.0.1\"\n\n[server.serverA.svcX]\nport = 80\n\n[server.serverA.svcY]\nport = 80\n",
    );
    let model = config.service_map().unwrap();
    let conflict = validate(&model).unwrap_err();
    assert_eq!(conflict.server, "serverA");
    assert_eq!(conflict.port, 80);
    assert_eq!(conflict.service, "svcY");
    assert_eq!(conflict.message(), "Port 80 is already in use for server serverA and service svcY");
}

#[test]
fn toml_service_behind_authelia_is_rendered() {
    let config = read(
        "[server.serverA]\nip = \"10.0.0.1\"\nmac = \"aa:bb:cc:dd:ee:ff\"\n\n[server.serverA.svcX]\nport = 80\nauthelia = true\n",
    );
    let model = config.service_map().unwrap();
    assert_eq!(validate(&model), Ok(()));
    let doc = ProviderAPIResponse::from_config(&model, &params());
    let router = doc.router("svcX").unwrap();
    assert_eq!(router.middlewares, vec!["authelia@docker".to_string()]);
    assert_eq!(router.rule, "Host(`svcX.evercode.se`)");
    assert_eq!(doc.service("svcX").unwrap().load_balancer.servers[0].url, "http://10.0.0.1:80");
}

#[test]
fn toml_server_without_ip_does_not_resolve() {
    let config = read("[server.serverA.svcX]\nport = 80\n");
    assert_eq!(
        config.service_map(),
        Err(ConfigError::MissingField { server: "serverA".to_string(), field: "ip".to_string() })
    );
}

#[test]
fn toml_fractional_port_is_no_port() {
    let config = read("[server.a]\nip = \"10.0.0.1\"\n\n[server.a.web]\nport = 80.0\n");
    assert_eq!(
        config.service_map(),
        Err(ConfigError::InvalidServiceShape { server: "a".to_string(), service: "web".to_string() })
    );
}

#[test]
fn toml_attributes_and_inline_tables_are_read() {
    let config = read(
        "[server.a]\nip = \"10.0.0.1\"\nweb = { port = 443, https = true, extra_domains = [\"w.example\"] }\napi = { port = 8080, authentik = true }\n",
    );
    let model = config.service_map().unwrap();
    assert_eq!(model.len(), 1);
    let names: Vec<&str> = model[0].services.iter().map(|(name, _)| name.as_str()).collect();
    assert_eq!(names, vec!["api", "web"]);
    assert_eq!(model[0].services[0].1.port, 8080);
    assert!(model[0].services[0].1.authentik);
    assert_eq!(model[0].services[1].1.port, 443);
    assert!(model[0].services[1].1.https);
    assert_eq!(model[0].services[1].1.extra_domains, vec!["w.example".to_string()]);
}
