//! Servers and their services: the records that the resolver builds from a
//! configuration tree, and the resolver itself.

use crate::named::{distinct, named, names};
use crate::value::{find, lemma_lookup_same, lookup, same_entries, same_tree, Value};
use vstd::prelude::*;

verus! {

/// What a service is, as a mathematical value.
pub struct ServiceRecord {
    pub port: int,
    pub authelia: bool,
    pub authentik: bool,
    pub https: bool,
    pub extra_domains: Seq<Seq<char>>,
}

/// What a server is, as a mathematical value: its name, its address and its
/// services by name, in the order of the configuration.
pub struct ServerRecord {
    pub name: Seq<char>,
    pub ip: Seq<char>,
    pub services: Seq<(Seq<char>, ServiceRecord)>,
}

/// The texts of a list of strings.
pub open spec fn texts(strings: Seq<String>) -> Seq<Seq<char>> {
    strings.map_values(|s: String| s@)
}

/// One service of a backend server.
#[derive(Debug, Clone, PartialEq, Eq)]
pub struct ServiceConfig {
    /// The port on which the service listens on its server.
    pub port: i32,
    /// Whether access goes through the Authelia middleware.
    pub authelia: bool,
    /// Whether access goes through the Authentik middleware. Authelia comes
    /// first where both are set.
    pub authentik: bool,
    /// Whether the service itself speaks HTTPS. Carried, not yet used.
    pub https: bool,
    /// Further host names of the service. Carried, not yet used.
    pub extra_domains: Vec<String>,
}

impl View for ServiceConfig {
    type V = ServiceRecord;

    open spec fn view(&self) -> ServiceRecord {
        ServiceRecord {
            port: self.port as int,
            authelia: self.authelia,
            authentik: self.authentik,
            https: self.https,
            extra_domains: texts(self.extra_domains@),
        }
    }
}

/// The middleware chain of a service: the Authelia middleware where
/// `authelia` is set, else the Authentik middleware where `authentik` is
/// set, else none.
pub open spec fn middleware_chain(service: ServiceRecord) -> Seq<Seq<char>> {
    if service.authelia {
        seq!["authelia@docker"@]
    } else if service.authentik {
        seq!["authentik@file"@]
    } else {
        Seq::empty()
    }
}

impl ServiceConfig {
    /// The names of the middlewares that guard this service: at most one.
    pub fn middlewares(&self) -> (chain: Vec<String>)
        ensures
            texts(chain@) == middleware_chain(self@),
            self.authelia ==> texts(chain@) == seq!["authelia@docker"@],
            !self.authelia && self.authentik ==> texts(chain@) == seq!["authentik@file"@],
            !self.authelia && !self.authentik ==> chain@.len() == 0,
    {
        let mut chain: Vec<String> = Vec::new();
        if self.authelia {
            chain.push(String::from_str("authelia@docker"));
        } else if self.authentik {
            chain.push(String::from_str("authentik@file"));
        }
        assert(texts(chain@) =~= middleware_chain(self@));
        chain
    }
}

/// One backend server with its services.
#[derive(Debug, Clone, PartialEq, Eq)]
pub struct ParsedServer {
    /// The server's network address.
    pub ip: String,
    /// The server's name: its key in the configuration.
    pub name: String,
    /// The server's services by name, in the order of the configuration.
    pub services: Vec<(String, ServiceConfig)>,
}

/// The model: the servers of a configuration, in its order.
pub type ServiceConfigTranslate = Vec<ParsedServer>;

impl View for ParsedServer {
    type V = ServerRecord;

    open spec fn view(&self) -> ServerRecord {
        ServerRecord { name: self.name@, ip: self.ip@, services: named(self.services@) }
    }
}

/// A list of servers as mathematical values.
pub open spec fn server_records(servers: Seq<ParsedServer>) -> Seq<ServerRecord> {
    servers.map_values(|server: ParsedServer| server@)
}

/// Whether `key`, in a server's table, is an attribute of the server
/// itself and names no service.
pub open spec fn is_reserved(key: Seq<char>) -> bool {
    key == "ip"@ || key == "mac"@
}

/// The port that a service's table gives: its `port`, which must be there
/// and be an integer of 32 bits.
pub open spec fn port_of(entries: Seq<(String, Value)>) -> Option<int> {
    match lookup(entries, "port"@) {
        Some(Value::Integer(n)) => if i32::MIN <= n <= i32::MAX {
            Some(n as int)
        } else {
            None
        },
        _ => None,
    }
}

/// The flag that a service's table gives under `key`: false where the key
/// is absent, nothing where its value is no boolean.
pub open spec fn flag_of(entries: Seq<(String, Value)>, key: Seq<char>) -> Option<bool> {
    match lookup(entries, key) {
        None => Some(false),
        Some(Value::Boolean(b)) => Some(b),
        Some(_) => None,
    }
}

/// Whether every item is a string.
pub open spec fn all_strings(items: Seq<Value>) -> bool {
    forall|i: int| 0 <= i < items.len() ==> (#[trigger] items[i]) is Str
}

/// The texts of a list of values that are all strings.
pub open spec fn string_texts(items: Seq<Value>) -> Seq<Seq<char>> {
    items.map_values(|item: Value| item->Str_0@)
}

/// The list of strings that a service's table gives under `key`: empty
/// where the key is absent, nothing where its value is no list of strings.
pub open spec fn strings_of(entries: Seq<(String, Value)>, key: Seq<char>) -> Option<
    Seq<Seq<char>>,
> {
    match lookup(entries, key) {
        None => Some(Seq::empty()),
        Some(Value::Array(items)) => if all_strings(items@) {
            Some(string_texts(items@))
        } else {
            None
        },
        Some(_) => None,
    }
}

/// The service that `value` describes, if it has the shape of one: a table
/// with a valid `port` and, where they are present, boolean `authelia`,
/// `authentik` and `https` and a list of strings `extra_domains`. Other
/// keys are ignored.
pub open spec fn service_record(value: Value) -> Option<ServiceRecord> {
    match value {
        Value::Table(entries) => {
            let port = port_of(entries@);
            let authelia = flag_of(entries@, "authelia"@);
            let authentik = flag_of(entries@, "authentik"@);
            let https = flag_of(entries@, "https"@);
            let extra_domains = strings_of(entries@, "extra_domains"@);
            if port is Some && authelia is Some && authentik is Some && https is Some
                && extra_domains is Some {
                Some(
                    ServiceRecord {
                        port: port->Some_0,
                        authelia: authelia->Some_0,
                        authentik: authentik->Some_0,
                        https: https->Some_0,
                        extra_domains: extra_domains->Some_0,
                    },
                )
            } else {
                None
            }
        },
        _ => None,
    }
}

/// Reads the port of a service.
fn read_port(entries: &Vec<(String, Value)>) -> (port: Option<i32>)
    ensures
        match port {
            Some(p) => port_of(entries@) == Some(p as int),
            None => port_of(entries@) is None,
        },
{
    match find(entries, "port") {
        Some(Value::Integer(n)) => {
            if i32::MIN as i64 <= *n && *n <= i32::MAX as i64 {
                Some(*n as i32)
            } else {
                None
            }
        },
        _ => None,
    }
}

/// Reads the flag under `key`.
fn read_flag(entries: &Vec<(String, Value)>, key: &str) -> (flag: Option<bool>)
    ensures
        flag == flag_of(entries@, key@),
{
    match find(entries, key) {
        None => Some(false),
        Some(Value::Boolean(b)) => Some(*b),
        Some(_) => None,
    }
}

/// Reads the list of strings under `key`.
fn read_strings(entries: &Vec<(String, Value)>, key: &str) -> (list: Option<Vec<String>>)
    ensures
        match list {
            Some(strings) => strings_of(entries@, key@) == Some(texts(strings@)),
            None => strings_of(entries@, key@) is None,
        },
{
    match find(entries, key) {
        None => {
            let strings: Vec<String> = Vec::new();
            assert(texts(strings@) =~= Seq::empty());
            Some(strings)
        },
        Some(Value::Array(items)) => {
            let mut strings: Vec<String> = Vec::new();
            let mut i: usize = 0;
            while i < items.len()
                invariant
                    i <= items.len(),
                    lookup(entries@, key@) == Some(Value::Array(*items)),
                    all_strings(items@.take(i as int)),
                    texts(strings@) == string_texts(items@.take(i as int)),
                decreases items.len() - i,
            {
                match &items[i] {
                    Value::Str(s) => {
                        strings.push(s.clone());
                    },
                    _ => {
                        assert(!(items@[i as int] is Str));
                        return None;
                    },
                }
                proof {
                    let before = items@.take(i as int);
                    let next = items@.take(i as int + 1);
                    assert(next =~= before.push(items@[i as int]));
                    assert(string_texts(next) =~= string_texts(before).push(
                        items@[i as int]->Str_0@,
                    ));
                    assert(texts(strings@) =~= string_texts(next));
                }
                i += 1;
            }
            proof {
                assert(items@.take(i as int) =~= items@);
            }
            Some(strings)
        },
        Some(_) => None,
    }
}

impl ServiceConfig {
    /// Reads a service from its value in a server's table.
    pub fn from_value(value: &Value) -> (service: Option<ServiceConfig>)
        ensures
            match service {
                Some(s) => service_record(*value) == Some(s@),
                None => service_record(*value) is None,
            },
    {
        match value {
            Value::Table(entries) => {
                let port = read_port(entries);
                let authelia = read_flag(entries, "authelia");
                let authentik = read_flag(entries, "authentik");
                let https = read_flag(entries, "https");
                let extra_domains = read_strings(entries, "extra_domains");
                match (port, authelia, authentik, https, extra_domains) {
                    (
                        Some(port),
                        Some(authelia),
                        Some(authentik),
                        Some(https),
                        Some(extra_domains),
                    ) => Some(ServiceConfig { port, authelia, authentik, https, extra_domains }),
                    _ => None,
                }
            },
            _ => None,
        }
    }
}

/// Why a configuration does not resolve.
#[derive(Debug, Clone, PartialEq, Eq)]
pub enum ConfigError {
    /// A required attribute of a server is absent or is no string.
    MissingField { server: String, field: String },
    /// What stands under a service's name has not the shape of a service.
    InvalidServiceShape { server: String, service: String },
}

/// A `ConfigError` as a mathematical value.
pub enum ConfigFault {
    MissingField { server: Seq<char>, field: Seq<char> },
    InvalidServiceShape { server: Seq<char>, service: Seq<char> },
}

impl View for ConfigError {
    type V = ConfigFault;

    open spec fn view(&self) -> ConfigFault {
        match self {
            ConfigError::MissingField { server, field } => ConfigFault::MissingField {
                server: server@,
                field: field@,
            },
            ConfigError::InvalidServiceShape { server, service } => {
                ConfigFault::InvalidServiceShape { server: server@, service: service@ }
            },
        }
    }
}

/// The sentence that reports a fault.
pub open spec fn fault_message(fault: ConfigFault) -> Seq<char> {
    match fault {
        ConfigFault::MissingField { server, field } => "Missing field "@ + field
            + " for server "@ + server,
        ConfigFault::InvalidServiceShape { server, service } => "Invalid service "@ + service
            + " for server "@ + server,
    }
}

impl ConfigError {
    /// The sentence that reports this error: it names the server and the
    /// field or service at fault.
    pub fn message(&self) -> (text: String)
        ensures
            text@ == fault_message(self@),
    {
        match self {
            ConfigError::MissingField { server, field } => {
                let mut text = String::from_str("Missing field ");
                text.append(field.as_str());
                text.append(" for server ");
                text.append(server.as_str());
                text
            },
            ConfigError::InvalidServiceShape { server, service } => {
                let mut text = String::from_str("Invalid service ");
                text.append(service.as_str());
                text.append(" for server ");
                text.append(server.as_str());
                text
            },
        }
    }
}

/// The services that the table of the server `server` holds: one for each
/// entry whose key is not reserved, in the order of the entries. The first
/// such entry that has not the shape of a service fails the whole list.
pub open spec fn resolve_services(server: Seq<char>, entries: Seq<(String, Value)>) -> Result<
    Seq<(Seq<char>, ServiceRecord)>,
    ConfigFault,
>
    decreases entries.len(),
{
    if entries.len() == 0 {
        Ok(Seq::empty())
    } else {
        match resolve_services(server, entries.drop_last()) {
            Err(fault) => Err(fault),
            Ok(services) => {
                let name = entries.last().0@;
                if is_reserved(name) {
                    Ok(services)
                } else {
                    match service_record(entries.last().1) {
                        Some(service) => Ok(services.push((name, service))),
                        None => Err(
                            ConfigFault::InvalidServiceShape { server: server, service: name },
                        ),
                    }
                }
            },
        }
    }
}

/// The server that `value` describes under the key `name`. Its `ip` must
/// be there and be a string; then all its services must resolve.
pub open spec fn resolve_server(name: Seq<char>, value: Value) -> Result<
    ServerRecord,
    ConfigFault,
> {
    match value {
        Value::Table(entries) => match lookup(entries@, "ip"@) {
            Some(Value::Str(ip)) => match resolve_services(name, entries@) {
                Ok(services) => Ok(ServerRecord { name: name, ip: ip@, services: services }),
                Err(fault) => Err(fault),
            },
            _ => Err(ConfigFault::MissingField { server: name, field: "ip"@ }),
        },
        _ => Err(ConfigFault::MissingField { server: name, field: "ip"@ }),
    }
}

/// The model that a configuration describes: one server for each entry, in
/// the order of the entries. The first entry that does not resolve fails
/// the whole configuration.
pub open spec fn resolve(entries: Seq<(String, Value)>) -> Result<Seq<ServerRecord>, ConfigFault>
    decreases entries.len(),
{
    if entries.len() == 0 {
        Ok(Seq::empty())
    } else {
        match resolve(entries.drop_last()) {
            Err(fault) => Err(fault),
            Ok(servers) => match resolve_server(entries.last().0@, entries.last().1) {
                Ok(server) => Ok(servers.push(server)),
                Err(fault) => Err(fault),
            },
        }
    }
}

/// A fault among the first entries of a table is the fault of the whole
/// table.
proof fn lemma_services_fault_stays(server: Seq<char>, entries: Seq<(String, Value)>, n: int)
    requires
        0 <= n <= entries.len(),
        resolve_services(server, entries.take(n)) is Err,
    ensures
        resolve_services(server, entries) == resolve_services(server, entries.take(n)),
    decreases entries.len(),
{
    if n < entries.len() {
        assert(entries.drop_last().take(n) =~= entries.take(n));
        lemma_services_fault_stays(server, entries.drop_last(), n);
    } else {
        assert(entries.take(n) =~= entries);
    }
}

/// A fault among the first entries of a configuration is the fault of the
/// whole configuration.
proof fn lemma_fault_stays(entries: Seq<(String, Value)>, n: int)
    requires
        0 <= n <= entries.len(),
        resolve(entries.take(n)) is Err,
    ensures
        resolve(entries) == resolve(entries.take(n)),
    decreases entries.len(),
{
    if n < entries.len() {
        assert(entries.drop_last().take(n) =~= entries.take(n));
        lemma_fault_stays(entries.drop_last(), n);
    } else {
        assert(entries.take(n) =~= entries);
    }
}

/// The entries of a server's table that stand for services: those whose
/// key is not reserved, in order.
pub open spec fn service_entries(entries: Seq<(String, Value)>) -> Seq<(String, Value)> {
    entries.filter(|entry: (String, Value)| !is_reserved(entry.0@))
}

/// The services of a server resolve where every entry that stands for a
/// service has the shape of one; they are then those services, under the
/// entries' keys and in their order. Otherwise the fault names the first
/// such entry that has not the shape of a service.
pub proof fn lemma_resolve_services(server: Seq<char>, entries: Seq<(String, Value)>)
    ensures
        match resolve_services(server, entries) {
            Ok(services) => {
                &&& services.len() == service_entries(entries).len()
                &&& forall|k: int|
                    0 <= k < services.len() ==> (#[trigger] services[k]).0 == service_entries(
                        entries,
                    )[k].0@ && Some(services[k].1) == service_record(
                        service_entries(entries)[k].1,
                    )
            },
            Err(fault) => exists|k: int|
                {
                    &&& 0 <= k < service_entries(entries).len()
                    &&& forall|m: int|
                        0 <= m < k ==> service_record(
                            (#[trigger] service_entries(entries)[m]).1,
                        ) is Some
                    &&& service_record((#[trigger] service_entries(entries)[k]).1) is None
                    &&& fault == ConfigFault::InvalidServiceShape {
                        server: server,
                        service: service_entries(entries)[k].0@,
                    }
                },
        },
    decreases entries.len(),
{
    reveal(Seq::filter);
    if entries.len() > 0 {
        let front = entries.drop_last();
        let kept = service_entries(entries);
        let kept_front = service_entries(front);
        lemma_resolve_services(server, front);
        assert(kept == if is_reserved(entries.last().0@) {
            kept_front
        } else {
            kept_front.push(entries.last())
        });
        match resolve_services(server, front) {
            Err(fault) => {
                let k = choose|k: int|
                    {
                        &&& 0 <= k < kept_front.len()
                        &&& forall|m: int|
                            0 <= m < k ==> service_record((#[trigger] kept_front[m]).1) is Some
                        &&& service_record((#[trigger] kept_front[k]).1) is None
                        &&& fault == ConfigFault::InvalidServiceShape {
                            server: server,
                            service: kept_front[k].0@,
                        }
                    };
                assert(kept[k] == kept_front[k]);
                assert forall|m: int| 0 <= m < k implies service_record(
                    (#[trigger] kept[m]).1,
                ) is Some by {
                    assert(kept[m] == kept_front[m]);
                }
            },
            Ok(services) => {
                if !is_reserved(entries.last().0@) {
                    let end = kept_front.len() as int;
                    assert(kept[end] == entries.last());
                    match service_record(entries.last().1) {
                        Some(service) => {
                            let all = services.push((entries.last().0@, service));
                            assert forall|k: int| 0 <= k < all.len() implies (#[trigger] all[k]).0
                                == kept[k].0@ && Some(all[k].1) == service_record(kept[k].1) by {
                                if k < end {
                                    assert(all[k] == services[k]);
                                    assert(kept[k] == kept_front[k]);
                                }
                            }
                        },
                        None => {
                            assert forall|m: int| 0 <= m < end implies service_record(
                                (#[trigger] kept[m]).1,
                            ) is Some by {
                                assert(kept[m] == kept_front[m]);
                                assert(Some(services[m].1) == service_record(kept_front[m].1));
                            }
                        },
                    }
                }
            },
        }
    }
}

/// A configuration resolves where every entry resolves to a server; the
/// servers are then those of the entries, in their order. Otherwise the
/// fault is that of the first entry that does not resolve.
pub proof fn lemma_resolve(entries: Seq<(String, Value)>)
    ensures
        match resolve(entries) {
            Ok(servers) => {
                &&& servers.len() == entries.len()
                &&& forall|i: int|
                    0 <= i < servers.len() ==> Ok::<_, ConfigFault>(#[trigger] servers[i])
                        == resolve_server(entries[i].0@, entries[i].1)
            },
            Err(fault) => exists|i: int|
                {
                    &&& 0 <= i < entries.len()
                    &&& forall|j: int|
                        0 <= j < i ==> resolve_server(
                            (#[trigger] entries[j]).0@,
                            entries[j].1,
                        ) is Ok
                    &&& Err::<ServerRecord, _>(fault) == resolve_server(
                        (#[trigger] entries[i]).0@,
                        entries[i].1,
                    )
                },
        },
    decreases entries.len(),
{
    if entries.len() > 0 {
        let front = entries.drop_last();
        let end = front.len() as int;
        lemma_resolve(front);
        match resolve(front) {
            Err(fault) => {
                let i = choose|i: int|
                    {
                        &&& 0 <= i < front.len()
                        &&& forall|j: int|
                            0 <= j < i ==> resolve_server(
                                (#[trigger] front[j]).0@,
                                front[j].1,
                            ) is Ok
                        &&& Err::<ServerRecord, _>(fault) == resolve_server(
                            (#[trigger] front[i]).0@,
                            front[i].1,
                        )
                    };
                assert(entries[i] == front[i]);
                assert forall|j: int| 0 <= j < i implies resolve_server(
                    (#[trigger] entries[j]).0@,
                    entries[j].1,
                ) is Ok by {
                    assert(entries[j] == front[j]);
                }
            },
            Ok(servers) => {
                match resolve_server(entries.last().0@, entries.last().1) {
                    Ok(server) => {
                        let all = servers.push(server);
                        assert forall|i: int| 0 <= i < all.len() implies Ok::<_, ConfigFault>(
                            #[trigger] all[i],
                        ) == resolve_server(entries[i].0@, entries[i].1) by {
                            if i < end {
                                assert(all[i] == servers[i]);
                                assert(entries[i] == front[i]);
                            }
                        }
                    },
                    Err(fault) => {
                        assert forall|j: int| 0 <= j < end implies resolve_server(
                            (#[trigger] entries[j]).0@,
                            entries[j].1,
                        ) is Ok by {
                            assert(entries[j] == front[j]);
                            assert(Ok::<_, ConfigFault>(servers[j]) == resolve_server(
                                front[j].0@,
                                front[j].1,
                            ));
                        }
                        assert(entries[end] == entries.last());
                    },
                }
            },
        }
    }
}

/// The keys of a table, in order.
pub open spec fn keys(entries: Seq<(String, Value)>) -> Seq<Seq<char>> {
    entries.map_values(|entry: (String, Value)| entry.0@)
}

/// The names of the servers of a model, in order.
pub open spec fn server_names(model: Seq<ServerRecord>) -> Seq<Seq<char>> {
    model.map_values(|server: ServerRecord| server.name)
}

/// Whether a model names each server once and, within a server, each
/// service once.
pub open spec fn names_unique(model: Seq<ServerRecord>) -> bool {
    &&& distinct(server_names(model))
    &&& forall|i: int| 0 <= i < model.len() ==> distinct(names((#[trigger] model[i]).services))
}

/// The entries of a table that stand for services have distinct keys where
/// the table has, and each of their keys is a key of the table.
proof fn lemma_service_entries_distinct(entries: Seq<(String, Value)>)
    requires
        distinct(keys(entries)),
    ensures
        distinct(keys(service_entries(entries))),
        forall|k: int|
            0 <= k < service_entries(entries).len() ==> keys(entries).contains(
                #[trigger] keys(service_entries(entries))[k],
            ),
    decreases entries.len(),
{
    reveal(Seq::filter);
    if entries.len() > 0 {
        let front = entries.drop_last();
        let kept = service_entries(entries);
        let kept_front = service_entries(front);
        let end = front.len() as int;
        assert forall|i: int, j: int| 0 <= i < j < front.len() implies keys(front)[i] != keys(
            front,
        )[j] by {
            assert(keys(entries)[i] == keys(front)[i]);
            assert(keys(entries)[j] == keys(front)[j]);
        }
        lemma_service_entries_distinct(front);
        assert(kept == if is_reserved(entries.last().0@) {
            kept_front
        } else {
            kept_front.push(entries.last())
        });
        assert forall|k: int| 0 <= k < kept.len() implies keys(entries).contains(
            #[trigger] keys(kept)[k],
        ) by {
            if k < kept_front.len() {
                assert(keys(kept)[k] == keys(kept_front)[k]);
                let at = choose|at: int|
                    0 <= at < keys(front).len() && keys(front)[at] == keys(kept_front)[k];
                assert(keys(entries)[at] == keys(kept)[k]);
            } else {
                assert(keys(entries)[end] == keys(kept)[k]);
            }
        }
        assert forall|i: int, j: int| 0 <= i < j < kept.len() implies keys(kept)[i] != keys(
            kept,
        )[j] by {
            assert(keys(kept)[i] == keys(kept_front)[i]);
            if j < kept_front.len() {
                assert(keys(kept)[j] == keys(kept_front)[j]);
            } else {
                let at = choose|at: int|
                    0 <= at < keys(front).len() && keys(front)[at] == keys(kept_front)[i];
                assert(keys(entries)[at] == keys(kept)[i]);
                assert(keys(entries)[end] == keys(kept)[j]);
            }
        }
    }
}

/// A configuration that is a mapping of mappings resolves to a model that
/// names each server once and, within a server, each service once: where
/// no key occurs twice in the configuration, nor in the table of any one
/// server, no name occurs twice in the model.
pub proof fn lemma_names_stay_unique(entries: Seq<(String, Value)>)
    requires
        distinct(keys(entries)),
        forall|i: int|
            0 <= i < entries.len() && (#[trigger] entries[i]).1 is Table ==> distinct(
                keys(entries[i].1->Table_0@),
            ),
        resolve(entries) is Ok,
    ensures
        names_unique(resolve(entries)->Ok_0),
{
    let model = resolve(entries)->Ok_0;
    lemma_resolve(entries);
    assert forall|i: int| 0 <= i < model.len() implies model[i].name == keys(entries)[i]
        && distinct(names((#[trigger] model[i]).services)) by {
        let table = entries[i].1->Table_0@;
        let services = model[i].services;
        assert(Ok::<_, ConfigFault>(model[i]) == resolve_server(entries[i].0@, entries[i].1));
        assert(entries[i].1 is Table);
        lemma_resolve_services(entries[i].0@, table);
        lemma_service_entries_distinct(table);
        let kept = service_entries(table);
        assert forall|a: int, b: int| 0 <= a < b < services.len() implies names(services)[a]
            != names(services)[b] by {
            assert(services[a].0 == kept[a].0@);
            assert(services[b].0 == kept[b].0@);
            assert(keys(kept)[a] != keys(kept)[b]);
        }
    }
    assert forall|i: int, j: int| 0 <= i < j < model.len() implies server_names(model)[i]
        != server_names(model)[j] by {
        assert(model[i].name == keys(entries)[i]);
        assert(model[j].name == keys(entries)[j]);
    }
}

/// Values that are the same tree describe the same service, or both none.
pub proof fn lemma_service_record_same(a: Value, b: Value)
    requires
        same_tree(a, b),
    ensures
        service_record(a) == service_record(b),
{
    if a is Table {
        let x = a->Table_0@;
        let y = b->Table_0@;
        assert(same_entries(x, y));
        lemma_lookup_same(x, y, "port"@);
        lemma_lookup_same(x, y, "authelia"@);
        lemma_lookup_same(x, y, "authentik"@);
        lemma_lookup_same(x, y, "https"@);
        lemma_lookup_same(x, y, "extra_domains"@);
        let left = lookup(x, "extra_domains"@);
        let right = lookup(y, "extra_domains"@);
        if left is Some && left->Some_0 is Array {
            let items = left->Some_0->Array_0@;
            let others = right->Some_0->Array_0@;
            assert forall|i: int| 0 <= i < items.len() implies ((#[trigger] items[i]) is Str
                <==> others[i] is Str) && (items[i] is Str ==> items[i]->Str_0@
                == others[i]->Str_0@) by {
                assert(same_tree(items[i], others[i]));
            }
            if all_strings(items) {
                assert forall|i: int| 0 <= i < others.len() implies (#[trigger] others[i]) is Str by {
                    assert(items[i] is Str);
                }
                assert(string_texts(items) =~= string_texts(others));
            } else {
                let bad = choose|i: int| 0 <= i < items.len() && !((#[trigger] items[i]) is Str);
                assert(!(others[bad] is Str));
            }
        }
    }
}

/// Tables that are the same hold the same services, or fail alike.
pub proof fn lemma_resolve_services_same(
    server: Seq<char>,
    a: Seq<(String, Value)>,
    b: Seq<(String, Value)>,
)
    requires
        same_entries(a, b),
    ensures
        resolve_services(server, a) == resolve_services(server, b),
    decreases a.len(),
{
    if a.len() > 0 {
        let end = a.len() - 1;
        assert forall|i: int| 0 <= i < end implies (#[trigger] a.drop_last()[i]).0@
            == b.drop_last()[i].0@ && same_tree(a.drop_last()[i].1, b.drop_last()[i].1) by {
            assert(a[i].0@ == b[i].0@ && same_tree(a[i].1, b[i].1));
        }
        lemma_resolve_services_same(server, a.drop_last(), b.drop_last());
        assert(a[end].0@ == b[end].0@ && same_tree(a[end].1, b[end].1));
        lemma_service_record_same(a.last().1, b.last().1);
    }
}

/// Values that are the same tree describe the same server, or fail alike.
pub proof fn lemma_resolve_server_same(name: Seq<char>, a: Value, b: Value)
    requires
        same_tree(a, b),
    ensures
        resolve_server(name, a) == resolve_server(name, b),
{
    if a is Table {
        let x = a->Table_0@;
        let y = b->Table_0@;
        assert(same_entries(x, y));
        lemma_lookup_same(x, y, "ip"@);
        lemma_resolve_services_same(name, x, y);
    }
}

/// Configurations that are the same resolve to the same model, or fail
/// alike: the outcome depends on nothing but what the configuration holds.
pub proof fn lemma_resolve_same(a: Seq<(String, Value)>, b: Seq<(String, Value)>)
    requires
        same_entries(a, b),
    ensures
        resolve(a) == resolve(b),
    decreases a.len(),
{
    if a.len() > 0 {
        let end = a.len() - 1;
        assert forall|i: int| 0 <= i < end implies (#[trigger] a.drop_last()[i]).0@
            == b.drop_last()[i].0@ && same_tree(a.drop_last()[i].1, b.drop_last()[i].1) by {
            assert(a[i].0@ == b[i].0@ && same_tree(a[i].1, b[i].1));
        }
        lemma_resolve_same(a.drop_last(), b.drop_last());
        assert(a[end].0@ == b[end].0@ && same_tree(a[end].1, b[end].1));
        lemma_resolve_server_same(a.last().0@, a.last().1, b.last().1);
    }
}

/// Whether `key` is reserved.
fn reserved(key: &String) -> (yes: bool)
    ensures
        yes == is_reserved(key@),
{
    *key == String::from_str("ip") || *key == String::from_str("mac")
}

/// Reads the services of the server `server` from its table.
fn read_services(server: &str, entries: &Vec<(String, Value)>) -> (outcome: Result<
    Vec<(String, ServiceConfig)>,
    ConfigError,
>)
    ensures
        match outcome {
            Ok(services) => resolve_services(server@, entries@) == Ok::<_, ConfigFault>(
                named(services@),
            ),
            Err(error) => resolve_services(server@, entries@) == Err::<
                Seq<(Seq<char>, ServiceRecord)>,
                _,
            >(error@),
        },
{
    let mut services: Vec<(String, ServiceConfig)> = Vec::new();
    let mut i: usize = 0;
    proof {
        assert(named(services@) =~= Seq::empty());
    }
    while i < entries.len()
        invariant
            i <= entries.len(),
            resolve_services(server@, entries@.take(i as int)) == Ok::<_, ConfigFault>(
                named(services@),
            ),
        decreases entries.len() - i,
    {
        let name = &entries[i].0;
        proof {
            assert(entries@.take(i as int + 1).drop_last() =~= entries@.take(i as int));
        }
        if !reserved(name) {
            match ServiceConfig::from_value(&entries[i].1) {
                Some(service) => {
                    let ghost before = named(services@);
                    services.push((name.clone(), service));
                    assert(named(services@) =~= before.push((name@, service@)));
                },
                None => {
                    proof {
                        lemma_services_fault_stays(server@, entries@, i as int + 1);
                    }
                    return Err(
                        ConfigError::InvalidServiceShape {
                            server: String::from_str(server),
                            service: name.clone(),
                        },
                    );
                },
            }
        }
        i += 1;
    }
    proof {
        assert(entries@.take(i as int) =~= entries@);
    }
    Ok(services)
}

impl ParsedServer {
    /// Reads the server that stands under the key `name`.
    pub fn from_value(name: &str, value: &Value) -> (outcome: Result<ParsedServer, ConfigError>)
        ensures
            match outcome {
                Ok(server) => resolve_server(name@, *value) == Ok::<_, ConfigFault>(server@),
                Err(error) => resolve_server(name@, *value) == Err::<ServerRecord, _>(error@),
            },
    {
        if let Value::Table(entries) = value {
            if let Some(Value::Str(ip)) = find(entries, "ip") {
                return match read_services(name, entries) {
                    Ok(services) => Ok(
                        ParsedServer { ip: ip.clone(), name: String::from_str(name), services },
                    ),
                    Err(error) => Err(error),
                };
            }
        }
        Err(
            ConfigError::MissingField {
                server: String::from_str(name),
                field: String::from_str("ip"),
            },
        )
    }
}

/// A configuration: what stands under each server's name, in the order in
/// which the servers were written.
#[derive(Debug, Clone, PartialEq, Eq)]
pub struct ServerConfig {
    pub server: Vec<(String, Value)>,
}

impl ServerConfig {
    /// Resolves the configuration into its servers and their services.
    ///
    /// Fails as a whole on the first server without an address, or with
    /// something under a service's name that has not the shape of a
    /// service.
    pub fn service_map(&self) -> (outcome: Result<ServiceConfigTranslate, ConfigError>)
        ensures
            match outcome {
                Ok(servers) => resolve(self.server@) == Ok::<_, ConfigFault>(
                    server_records(servers@),
                ),
                Err(error) => resolve(self.server@) == Err::<Seq<ServerRecord>, _>(error@),
            },
    {
        let mut servers: Vec<ParsedServer> = Vec::new();
        let mut i: usize = 0;
        proof {
            assert(server_records(servers@) =~= Seq::empty());
        }
        while i < self.server.len()
            invariant
                i <= self.server.len(),
                resolve(self.server@.take(i as int)) == Ok::<_, ConfigFault>(
                    server_records(servers@),
                ),
            decreases self.server.len() - i,
        {
            proof {
                assert(self.server@.take(i as int + 1).drop_last() =~= self.server@.take(
                    i as int,
                ));
            }
            match ParsedServer::from_value(self.server[i].0.as_str(), &self.server[i].1) {
                Ok(server) => {
                    let ghost before = server_records(servers@);
                    servers.push(server);
                    assert(server_records(servers@) =~= before.push(server@));
                },
                Err(error) => {
                    proof {
                        lemma_fault_stays(self.server@, i as int + 1);
                    }
                    return Err(error);
                },
            }
            i += 1;
        }
        proof {
            assert(self.server@.take(i as int) =~= self.server@);
        }
        Ok(servers)
    }
}

} // verus!
