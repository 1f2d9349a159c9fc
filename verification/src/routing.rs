//! The routing document: one router and one load-balanced service for each
//! service name of the model.

use crate::config::{
    lemma_resolve_same, middleware_chain, resolve, server_records, texts, ConfigFault,
    ParsedServer, ServerConfig, ServerRecord, ServiceRecord,
};
use crate::named::{
    distinct, entry_for, get, lemma_upsert_entry, lemma_upsert_names, named, names, put, upsert,
};
use crate::text::{append_decimal, decimal};
use crate::value::same_entries;
use vstd::prelude::*;

verus! {

/// What the projector takes besides the model.
#[derive(Debug, Clone, PartialEq, Eq)]
pub struct RenderParams {
    /// The domain under which every service gets its host name.
    pub domain: String,
    /// The entry point on which every router listens.
    pub entry_point: String,
    /// The certificate resolver that every router names.
    pub cert_resolver: String,
}

/// The settings of the projector as mathematical values.
pub struct ParamsSpec {
    pub domain: Seq<char>,
    pub entry_point: Seq<char>,
    pub cert_resolver: Seq<char>,
}

impl View for RenderParams {
    type V = ParamsSpec;

    open spec fn view(&self) -> ParamsSpec {
        ParamsSpec {
            domain: self.domain@,
            entry_point: self.entry_point@,
            cert_resolver: self.cert_resolver@,
        }
    }
}

/// The TLS settings of a router.
#[derive(Debug, Clone, PartialEq, Eq)]
pub struct Tls {
    pub certresolver: String,
}

/// A router: which requests it takes and where it sends them.
#[derive(Debug, Clone, PartialEq, Eq)]
pub struct Router {
    pub middlewares: Vec<String>,
    pub entry_points: Vec<String>,
    pub service: String,
    pub rule: String,
    pub tls: Tls,
}

/// A router as a mathematical value.
pub struct RouterSpec {
    pub middlewares: Seq<Seq<char>>,
    pub entry_points: Seq<Seq<char>>,
    pub service: Seq<char>,
    pub rule: Seq<char>,
    pub certresolver: Seq<char>,
}

impl View for Router {
    type V = RouterSpec;

    open spec fn view(&self) -> RouterSpec {
        RouterSpec {
            middlewares: texts(self.middlewares@),
            entry_points: texts(self.entry_points@),
            service: self.service@,
            rule: self.rule@,
            certresolver: self.tls.certresolver@,
        }
    }
}

/// One target of a load balancer.
#[derive(Debug, Clone, PartialEq, Eq)]
pub struct Server {
    pub url: String,
}

/// The targets among which a service's requests are spread.
#[derive(Debug, Clone, PartialEq, Eq)]
pub struct LoadBalancer {
    pub servers: Vec<Server>,
}

/// A service of the routing document.
#[derive(Debug, Clone, PartialEq, Eq)]
pub struct Service {
    pub load_balancer: LoadBalancer,
}

/// A service of the routing document as a mathematical value: the
/// addresses of its targets.
pub struct BackendSpec {
    pub urls: Seq<Seq<char>>,
}

impl View for Service {
    type V = BackendSpec;

    open spec fn view(&self) -> BackendSpec {
        BackendSpec { urls: self.load_balancer.servers@.map_values(|target: Server| target.url@) }
    }
}

/// The routers and services of the HTTP section, each list by name, in the
/// order in which the names first came up.
#[derive(Debug, Clone, PartialEq, Eq)]
pub struct Http {
    pub routers: Vec<(String, Router)>,
    pub services: Vec<(String, Service)>,
}

/// The routing document.
#[derive(Debug, Clone, PartialEq, Eq)]
pub struct ProviderAPIResponse {
    pub http: Http,
}

/// The routing document as a mathematical value.
pub struct RoutingDocument {
    pub routers: Seq<(Seq<char>, RouterSpec)>,
    pub services: Seq<(Seq<char>, BackendSpec)>,
}

impl View for ProviderAPIResponse {
    type V = RoutingDocument;

    open spec fn view(&self) -> RoutingDocument {
        RoutingDocument {
            routers: named(self.http.routers@),
            services: named(self.http.services@),
        }
    }
}

/// The rule that matches requests for the host of the service `name`.
pub open spec fn host_rule(name: Seq<char>, domain: Seq<char>) -> Seq<char> {
    "Host(`"@ + name + "."@ + domain + "`)"@
}

/// The address of the service that listens on `port` of the server at `ip`.
/// The scheme is plain HTTP, whatever the service's `https` flag says.
pub open spec fn target_url(ip: Seq<char>, port: int) -> Seq<char> {
    "http://"@ + ip + ":"@ + decimal(port)
}

/// The router of the service `name`.
pub open spec fn router_for(name: Seq<char>, service: ServiceRecord, params: ParamsSpec)
    -> RouterSpec {
    RouterSpec {
        middlewares: middleware_chain(service),
        entry_points: seq![params.entry_point],
        service: name,
        rule: host_rule(name, params.domain),
        certresolver: params.cert_resolver,
    }
}

/// The load-balanced service for a service on the server at `ip`: one
/// target.
pub open spec fn backend_for(ip: Seq<char>, service: ServiceRecord) -> BackendSpec {
    BackendSpec { urls: seq![target_url(ip, service.port)] }
}

/// A service together with the address of the server that runs it.
pub struct Exposure {
    pub ip: Seq<char>,
    pub name: Seq<char>,
    pub service: ServiceRecord,
}

/// The services of one server, in order.
pub open spec fn exposures_of(server: ServerRecord) -> Seq<Exposure> {
    server.services.map_values(
        |entry: (Seq<char>, ServiceRecord)|
            Exposure { ip: server.ip, name: entry.0, service: entry.1 },
    )
}

/// The services of all servers: server by server, each server's services
/// in order.
pub open spec fn exposures(model: Seq<ServerRecord>) -> Seq<Exposure>
    decreases model.len(),
{
    if model.len() == 0 {
        Seq::empty()
    } else {
        exposures(model.drop_last()) + exposures_of(model.last())
    }
}

/// `doc` with the router and the service of `exposure` under its name.
pub open spec fn with_exposure(doc: RoutingDocument, exposure: Exposure, params: ParamsSpec)
    -> RoutingDocument {
    RoutingDocument {
        routers: upsert(
            doc.routers,
            exposure.name,
            router_for(exposure.name, exposure.service, params),
        ),
        services: upsert(
            doc.services,
            exposure.name,
            backend_for(exposure.ip, exposure.service),
        ),
    }
}

/// The document that holds, for each of `all` in turn, its router and its
/// service under its name. A later service takes the place of an earlier
/// one of the same name.
pub open spec fn render_exposures(all: Seq<Exposure>, params: ParamsSpec) -> RoutingDocument
    decreases all.len(),
{
    if all.len() == 0 {
        RoutingDocument { routers: Seq::empty(), services: Seq::empty() }
    } else {
        with_exposure(render_exposures(all.drop_last(), params), all.last(), params)
    }
}

/// The routing document of a model.
pub open spec fn render(model: Seq<ServerRecord>, params: ParamsSpec) -> RoutingDocument {
    render_exposures(exposures(model), params)
}

/// The last of `all` that has the name `name`, if there is one.
pub open spec fn last_exposure(all: Seq<Exposure>, name: Seq<char>) -> Option<Exposure>
    decreases all.len(),
{
    if all.len() == 0 {
        None
    } else if all.last().name == name {
        Some(all.last())
    } else {
        last_exposure(all.drop_last(), name)
    }
}

/// What a rendered document holds under a name is the router and the
/// service of the last service of that name; it holds nothing under a name
/// that no service has.
pub proof fn lemma_last_exposure_wins(all: Seq<Exposure>, params: ParamsSpec, name: Seq<char>)
    ensures
        entry_for(render_exposures(all, params).routers, name) == match last_exposure(all, name) {
            Some(exposure) => Some(router_for(name, exposure.service, params)),
            None => None,
        },
        entry_for(render_exposures(all, params).services, name) == match last_exposure(
            all,
            name,
        ) {
            Some(exposure) => Some(backend_for(exposure.ip, exposure.service)),
            None => None,
        },
    decreases all.len(),
{
    if all.len() == 0 {
        let none = render_exposures(all, params);
        names(none.routers).index_of_first_ensures(name);
        names(none.services).index_of_first_ensures(name);
    } else {
        let before = render_exposures(all.drop_last(), params);
        let last = all.last();
        lemma_last_exposure_wins(all.drop_last(), params, name);
        lemma_upsert_entry(
            before.routers,
            last.name,
            router_for(last.name, last.service, params),
            name,
        );
        lemma_upsert_entry(
            before.services,
            last.name,
            backend_for(last.ip, last.service),
            name,
        );
    }
}

/// The routers and the services of a rendered document have the same
/// names in the same order, and no name occurs twice among them.
pub proof fn lemma_names_agree(all: Seq<Exposure>, params: ParamsSpec)
    ensures
        names(render_exposures(all, params).routers) == names(
            render_exposures(all, params).services,
        ),
        distinct(names(render_exposures(all, params).routers)),
    decreases all.len(),
{
    if all.len() == 0 {
        let none = render_exposures(all, params);
        assert(names(none.routers) =~= names(none.services));
    } else {
        let before = render_exposures(all.drop_last(), params);
        let last = all.last();
        lemma_names_agree(all.drop_last(), params);
        lemma_upsert_names(
            before.routers,
            last.name,
            router_for(last.name, last.service, params),
        );
        lemma_upsert_names(before.services, last.name, backend_for(last.ip, last.service));
    }
}

/// For every model, the routers of its document have the names of its
/// services, as a set and in their order, and every name once.
pub proof fn lemma_router_and_service_names(model: Seq<ServerRecord>, params: ParamsSpec)
    ensures
        names(render(model, params).routers) == names(render(model, params).services),
        names(render(model, params).routers).to_set() == names(
            render(model, params).services,
        ).to_set(),
        distinct(names(render(model, params).routers)),
{
    lemma_names_agree(exposures(model), params);
}

/// The service at place `j` of the server at place `i`, with that server's
/// address.
pub open spec fn exposure_at(model: Seq<ServerRecord>, i: int, j: int) -> Exposure {
    Exposure {
        ip: model[i].ip,
        name: model[i].services[j].0,
        service: model[i].services[j].1,
    }
}

/// Whether `exposure` is a service of some server of `model`.
pub open spec fn exposed_by(model: Seq<ServerRecord>, exposure: Exposure) -> bool {
    exists|i: int, j: int|
        0 <= i < model.len() && 0 <= j < model[i].services.len() && exposure
            == #[trigger] exposure_at(model, i, j)
}

/// The exposures of a model are the services of its servers: each service
/// is among them, and each of them is a service of some server.
pub proof fn lemma_exposures_are_services(model: Seq<ServerRecord>)
    ensures
        forall|i: int, j: int|
            0 <= i < model.len() && 0 <= j < model[i].services.len() ==> exposures(
                model,
            ).contains(#[trigger] exposure_at(model, i, j)),
        forall|t: int|
            0 <= t < exposures(model).len() ==> exposed_by(model, #[trigger] exposures(model)[t]),
    decreases model.len(),
{
    if model.len() > 0 {
        let front = model.drop_last();
        let last = model.len() - 1;
        let head = exposures(front);
        let tail = exposures_of(model.last());
        lemma_exposures_are_services(front);
        assert forall|i: int, j: int|
            0 <= i < model.len() && 0 <= j < model[i].services.len() implies exposures(
            model,
        ).contains(#[trigger] exposure_at(model, i, j)) by {
            if i < last {
                assert(exposure_at(front, i, j) == exposure_at(model, i, j));
                assert(head.contains(exposure_at(front, i, j)));
                let t = choose|t: int| 0 <= t < head.len() && head[t] == exposure_at(front, i, j);
                assert(exposures(model)[t] == exposure_at(model, i, j));
            } else {
                assert(tail[j] == exposure_at(model, i, j));
                assert(exposures(model)[head.len() + j] == exposure_at(model, i, j));
            }
        }
        assert forall|t: int| 0 <= t < exposures(model).len() implies exposed_by(
            model,
            #[trigger] exposures(model)[t],
        ) by {
            if t < head.len() {
                assert(exposed_by(front, head[t]));
                let (i, j) = choose|i: int, j: int|
                    0 <= i < front.len() && 0 <= j < front[i].services.len() && head[t]
                        == #[trigger] exposure_at(front, i, j);
                assert(exposure_at(front, i, j) == exposure_at(model, i, j));
            } else {
                let j = t - head.len();
                assert(tail[j] == exposure_at(model, last, j));
            }
        }
    }
}

/// Resolving a configuration and rendering its model is a function of what
/// the configuration and the parameters hold. Take two runs, on
/// configurations that are the same tree and on parameters that are the
/// same texts: whatever the two return, the two models are the same and
/// the two documents are the same, entry for entry and character for
/// character.
pub proof fn lemma_resolve_then_render_is_a_function(
    config: ServerConfig,
    params: RenderParams,
    model: Seq<ParsedServer>,
    document: ProviderAPIResponse,
    config_again: ServerConfig,
    params_again: RenderParams,
    model_again: Seq<ParsedServer>,
    document_again: ProviderAPIResponse,
)
    requires
        same_entries(config.server@, config_again.server@),
        params@ == params_again@,
        resolve(config.server@) == Ok::<_, ConfigFault>(server_records(model)),
        document@ == render(server_records(model), params@),
        resolve(config_again.server@) == Ok::<_, ConfigFault>(server_records(model_again)),
        document_again@ == render(server_records(model_again), params_again@),
    ensures
        server_records(model) == server_records(model_again),
        document@ == document_again@,
{
    lemma_resolve_same(config.server@, config_again.server@);
}

/// The middlewares of a service's router: the Authelia middleware alone
/// where `authelia` is set, whatever `authentik` says; the Authentik
/// middleware alone where only `authentik` is set; none where neither is.
pub proof fn lemma_router_middlewares(name: Seq<char>, service: ServiceRecord, params: ParamsSpec)
    ensures
        service.authelia ==> router_for(name, service, params).middlewares
            == seq!["authelia@docker"@],
        !service.authelia && service.authentik ==> router_for(name, service, params).middlewares
            == seq!["authentik@file"@],
        !service.authelia && !service.authentik ==> router_for(
            name,
            service,
            params,
        ).middlewares.len() == 0,
{
}

/// Builds the rule that matches requests for the host of the service
/// `name`.
fn make_rule(name: &String, domain: &String) -> (rule: String)
    ensures
        rule@ == host_rule(name@, domain@),
{
    let mut rule = String::from_str("Host(`");
    rule.append(name.as_str());
    rule.append(".");
    rule.append(domain.as_str());
    rule.append("`)");
    rule
}

/// Builds the address of the service that listens on `port` of the server
/// at `ip`.
fn make_url(ip: &String, port: i32) -> (url: String)
    ensures
        url@ == target_url(ip@, port as int),
{
    let mut url = String::from_str("http://");
    url.append(ip.as_str());
    url.append(":");
    append_decimal(&mut url, port);
    url
}

impl ProviderAPIResponse {
    /// Whether the document is a mapping from names to routers and
    /// services: both lists have the same names in the same order, and no
    /// name occurs twice.
    pub open spec fn well_formed(&self) -> bool {
        &&& names(self@.routers) == names(self@.services)
        &&& distinct(names(self@.routers))
    }

    /// The router under `name`.
    pub fn router(&self, name: &str) -> (found: Option<&Router>)
        ensures
            match found {
                Some(router) => entry_for(self@.routers, name@) == Some(router@),
                None => entry_for(self@.routers, name@) is None,
            },
    {
        get(&self.http.routers, name)
    }

    /// The service under `name`.
    pub fn service(&self, name: &str) -> (found: Option<&Service>)
        ensures
            match found {
                Some(service) => entry_for(self@.services, name@) == Some(service@),
                None => entry_for(self@.services, name@) is None,
            },
    {
        get(&self.http.services, name)
    }

    /// Renders the routing document of `servers`.
    ///
    /// Every service gets a router and a load-balanced service under its
    /// own name. Where two services have one name, the later one takes the
    /// place of the earlier one in the document.
    pub fn from_config(servers: &[ParsedServer], params: &RenderParams) -> (doc:
        ProviderAPIResponse)
        ensures
            doc@ == render(server_records(servers@), params@),
            doc.well_formed(),
    {
        let ghost model = server_records(servers@);
        let mut routers: Vec<(String, Router)> = Vec::new();
        let mut services: Vec<(String, Service)> = Vec::new();
        let mut i: usize = 0;
        proof {
            assert(model.take(0) =~= Seq::<ServerRecord>::empty());
            assert(named(routers@) =~= Seq::<(Seq<char>, RouterSpec)>::empty());
            assert(named(services@) =~= Seq::<(Seq<char>, BackendSpec)>::empty());
        }
        while i < servers.len()
            invariant
                i <= servers.len(),
                model == server_records(servers@),
                named(routers@) == render(model.take(i as int), params@).routers,
                named(services@) == render(model.take(i as int), params@).services,
            decreases servers.len() - i,
        {
            let server = &servers[i];
            let ghost done = exposures(model.take(i as int));
            let ghost current = exposures_of(model[i as int]);
            let mut j: usize = 0;
            proof {
                assert(done + current.take(0) =~= done);
            }
            while j < server.services.len()
                invariant
                    i < servers.len(),
                    j <= server.services.len(),
                    server == &servers[i as int],
                    model == server_records(servers@),
                    current == exposures_of(model[i as int]),
                    named(routers@) == render_exposures(
                        done + current.take(j as int),
                        params@,
                    ).routers,
                    named(services@) == render_exposures(
                        done + current.take(j as int),
                        params@,
                    ).services,
                decreases server.services.len() - j,
            {
                let name = &server.services[j].0;
                let service = &server.services[j].1;
                let mut entry_points: Vec<String> = Vec::new();
                entry_points.push(params.entry_point.clone());
                let router = Router {
                    middlewares: service.middlewares(),
                    entry_points,
                    service: name.clone(),
                    rule: make_rule(name, &params.domain),
                    tls: Tls { certresolver: params.cert_resolver.clone() },
                };
                let mut targets: Vec<Server> = Vec::new();
                targets.push(Server { url: make_url(&server.ip, service.port) });
                let backend = Service { load_balancer: LoadBalancer { servers: targets } };
                proof {
                    let exposure = current[j as int];
                    let so_far = done + current.take(j as int);
                    let next = done + current.take(j as int + 1);
                    assert(next.drop_last() =~= so_far);
                    assert(next.last() == exposure);
                    assert(exposure.name == name@);
                    assert(exposure.ip == server.ip@);
                    assert(exposure.service == service@);
                    assert(router@.entry_points =~= seq![params@.entry_point]);
                    assert(router@ == router_for(name@, service@, params@));
                    assert(backend@.urls =~= seq![target_url(server.ip@, service.port as int)]);
                    assert(backend@ == backend_for(server.ip@, service@));
                }
                put(&mut routers, name.clone(), router);
                put(&mut services, name.clone(), backend);
                j += 1;
            }
            proof {
                assert(current.take(j as int) =~= current);
                assert(model.take(i as int + 1).drop_last() =~= model.take(i as int));
                assert(model.take(i as int + 1).last() == model[i as int]);
            }
            i += 1;
        }
        proof {
            assert(model.take(i as int) =~= model);
            lemma_router_and_service_names(model, params@);
        }
        ProviderAPIResponse { http: Http { routers, services } }
    }
}

} // verus!
