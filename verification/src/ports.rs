//! Port conflicts: no two services of one server may listen on the same
//! port.

use crate::config::{server_records, ParsedServer, ServerRecord, ServiceRecord};
use crate::text::{append_decimal, decimal};
use std::collections::HashSet;
use vstd::prelude::*;

verus! {

broadcast use vstd::std_specs::hash::group_hash_axioms;

/// Two services of one server on one port.
#[derive(Debug, Clone, PartialEq, Eq)]
pub struct PortConflict {
    /// The server's name.
    pub server: String,
    /// The name of the later of the two services.
    pub service: String,
    /// The port that both listen on.
    pub port: i32,
}

/// A `PortConflict` as a mathematical value.
pub struct Conflict {
    pub server: Seq<char>,
    pub service: Seq<char>,
    pub port: int,
}

impl View for PortConflict {
    type V = Conflict;

    open spec fn view(&self) -> Conflict {
        Conflict { server: self.server@, service: self.service@, port: self.port as int }
    }
}

/// The sentence that reports a conflict.
pub open spec fn conflict_message(conflict: Conflict) -> Seq<char> {
    "Port "@ + decimal(conflict.port) + " is already in use for server "@ + conflict.server
        + " and service "@ + conflict.service
}

impl PortConflict {
    /// The sentence that reports this conflict: it names the port, the
    /// server and the service.
    pub fn message(&self) -> (text: String)
        ensures
            text@ == conflict_message(self@),
    {
        let mut text = String::from_str("Port ");
        append_decimal(&mut text, self.port);
        text.append(" is already in use for server ");
        text.append(self.server.as_str());
        text.append(" and service ");
        text.append(self.service.as_str());
        text
    }
}

/// The ports of a server's services, in order.
pub open spec fn ports(services: Seq<(Seq<char>, ServiceRecord)>) -> Seq<int> {
    services.map_values(|entry: (Seq<char>, ServiceRecord)| entry.1.port)
}

/// Whether no port occurs twice.
pub open spec fn pairwise_distinct(ports: Seq<int>) -> bool {
    forall|i: int, j: int| 0 <= i < j < ports.len() ==> ports[i] != ports[j]
}

/// The first place in `ports` that holds a port of an earlier place.
pub open spec fn first_repeat(ports: Seq<int>) -> Option<int>
    decreases ports.len(),
{
    if ports.len() == 0 {
        None
    } else {
        match first_repeat(ports.drop_last()) {
            Some(at) => Some(at),
            None => if ports.drop_last().contains(ports.last()) {
                Some(ports.len() - 1)
            } else {
                None
            },
        }
    }
}

/// The first conflict within one server: its first service that listens on
/// the port of an earlier one.
pub open spec fn server_conflict(server: ServerRecord) -> Option<Conflict> {
    match first_repeat(ports(server.services)) {
        Some(at) => Some(
            Conflict {
                server: server.name,
                service: server.services[at].0,
                port: server.services[at].1.port,
            },
        ),
        None => None,
    }
}

/// The first conflict of a model: that of its first server that has one.
pub open spec fn first_conflict(model: Seq<ServerRecord>) -> Option<Conflict>
    decreases model.len(),
{
    if model.len() == 0 {
        None
    } else {
        match first_conflict(model.drop_last()) {
            Some(conflict) => Some(conflict),
            None => server_conflict(model.last()),
        }
    }
}

/// A repeat among the first ports is the first repeat of them all.
proof fn lemma_repeat_stays(ports: Seq<int>, n: int)
    requires
        0 <= n <= ports.len(),
        first_repeat(ports.take(n)) is Some,
    ensures
        first_repeat(ports) == first_repeat(ports.take(n)),
    decreases ports.len(),
{
    if n < ports.len() {
        assert(ports.drop_last().take(n) =~= ports.take(n));
        lemma_repeat_stays(ports.drop_last(), n);
    } else {
        assert(ports.take(n) =~= ports);
    }
}

/// A conflict among the first servers is the first conflict of them all.
proof fn lemma_conflict_stays(model: Seq<ServerRecord>, n: int)
    requires
        0 <= n <= model.len(),
        first_conflict(model.take(n)) is Some,
    ensures
        first_conflict(model) == first_conflict(model.take(n)),
    decreases model.len(),
{
    if n < model.len() {
        assert(model.drop_last().take(n) =~= model.take(n));
        lemma_conflict_stays(model.drop_last(), n);
    } else {
        assert(model.take(n) =~= model);
    }
}

/// Whether no two services of `server` listen on the same port.
pub open spec fn conflict_free(server: ServerRecord) -> bool {
    pairwise_distinct(ports(server.services))
}

/// Whether the service at place `at` of the server at place `s` is the
/// first conflict of `model`: the servers before `s` are free of conflicts,
/// the services of `s` before `at` listen on distinct ports, and one of them
/// listens on the port of the service at `at`.
pub open spec fn is_first_conflict(model: Seq<ServerRecord>, s: int, at: int) -> bool {
    &&& 0 <= s < model.len()
    &&& 0 <= at < model[s].services.len()
    &&& forall|e: int| 0 <= e < s ==> conflict_free(#[trigger] model[e])
    &&& pairwise_distinct(ports(model[s].services).take(at))
    &&& ports(model[s].services).take(at).contains(model[s].services[at].1.port)
}

/// Where no port occurs twice there is no first repeat. Where one does, the
/// first repeat is the first place that holds a port of an earlier place.
pub proof fn lemma_first_repeat(ports: Seq<int>)
    ensures
        match first_repeat(ports) {
            None => pairwise_distinct(ports),
            Some(at) => {
                &&& 0 <= at < ports.len()
                &&& pairwise_distinct(ports.take(at))
                &&& ports.take(at).contains(ports[at])
            },
        },
    decreases ports.len(),
{
    if ports.len() > 0 {
        let front = ports.drop_last();
        lemma_first_repeat(front);
        match first_repeat(front) {
            Some(at) => {
                assert(front.take(at) =~= ports.take(at));
            },
            None => {
                assert(ports.take(ports.len() - 1) =~= front);
                if !front.contains(ports.last()) {
                    assert forall|i: int, j: int| 0 <= i < j < ports.len() implies ports[i]
                        != ports[j] by {
                        assert(front[i] == ports[i]);
                        if j < front.len() {
                            assert(front[j] == ports[j]);
                        }
                    }
                }
            },
        }
    }
}

/// A model has no conflict exactly where every server's services listen on
/// pairwise distinct ports. Where it has one, the conflict names the first
/// server that has two services on one port, the first service of that
/// server that listens on the port of an earlier one, and that port.
pub proof fn lemma_first_conflict(model: Seq<ServerRecord>)
    ensures
        first_conflict(model) is None <==> forall|s: int|
            0 <= s < model.len() ==> conflict_free(#[trigger] model[s]),
        first_conflict(model) is Some ==> exists|s: int, at: int|
            #[trigger] is_first_conflict(model, s, at) && first_conflict(model) == Some(
                Conflict {
                    server: model[s].name,
                    service: model[s].services[at].0,
                    port: model[s].services[at].1.port,
                },
            ),
    decreases model.len(),
{
    if model.len() > 0 {
        let front = model.drop_last();
        let last = model.len() - 1;
        lemma_first_conflict(front);
        lemma_first_repeat(ports(model.last().services));
        assert forall|e: int| 0 <= e < front.len() implies front[e] == model[e] by {}
        match first_conflict(front) {
            Some(conflict) => {
                let (s, at) = choose|s: int, at: int|
                    #[trigger] is_first_conflict(front, s, at) && first_conflict(front) == Some(
                        Conflict {
                            server: front[s].name,
                            service: front[s].services[at].0,
                            port: front[s].services[at].1.port,
                        },
                    );
                assert(front[s] == model[s]);
                assert(is_first_conflict(model, s, at));
                let bad = choose|e: int| 0 <= e < front.len() && !conflict_free(#[trigger] front[e]);
                assert(!conflict_free(model[bad]));
            },
            None => {
                match first_repeat(ports(model.last().services)) {
                    Some(at) => {
                        let repeated = ports(model.last().services);
                        let witness = choose|k: int|
                            0 <= k < repeated.take(at).len() && repeated.take(at)[k]
                                == repeated[at];
                        assert(repeated[witness] == repeated[at]);
                        assert(!conflict_free(model[last]));
                        assert(is_first_conflict(model, last, at));
                    },
                    None => {
                        assert forall|s: int| 0 <= s < model.len() implies conflict_free(
                            #[trigger] model[s],
                        ) by {
                            if s < last {
                                assert(conflict_free(front[s]));
                            }
                        }
                    },
                }
            },
        }
    }
}

/// One port on two servers is no conflict: two servers that are each free
/// of conflicts make a model without conflict, whatever ports they share.
pub proof fn lemma_ports_shared_between_servers(first: ServerRecord, second: ServerRecord)
    requires
        conflict_free(first),
        conflict_free(second),
    ensures
        first_conflict(seq![first, second]) is None,
{
    let model = seq![first, second];
    lemma_first_conflict(model);
    assert forall|s: int| 0 <= s < model.len() implies conflict_free(#[trigger] model[s]) by {}
}

/// Checks that no two services of one server listen on the same port.
///
/// Fails with the first conflict: in the first server that has one, the
/// first service whose port an earlier service of that server has. One
/// port on two servers is no conflict.
pub fn validate(servers: &[ParsedServer]) -> (verdict: Result<(), PortConflict>)
    ensures
        match verdict {
            Ok(()) => first_conflict(server_records(servers@)) is None,
            Err(conflict) => first_conflict(server_records(servers@)) == Some(conflict@),
        },
        verdict is Ok <==> forall|s: int|
            0 <= s < servers.len() ==> conflict_free(#[trigger] servers[s]@),
{
    let ghost model = server_records(servers@);
    let mut i: usize = 0;
    while i < servers.len()
        invariant
            i <= servers.len(),
            model == server_records(servers@),
            first_conflict(model.take(i as int)) is None,
        decreases servers.len() - i,
    {
        let server = &servers[i];
        let ghost listening = ports(model[i as int].services);
        let mut seen: HashSet<i32> = HashSet::new();
        let mut j: usize = 0;
        while j < server.services.len()
            invariant
                i < servers.len(),
                j <= server.services.len(),
                server == &servers[i as int],
                model == server_records(servers@),
                listening == ports(model[i as int].services),
                first_conflict(model.take(i as int)) is None,
                first_repeat(listening.take(j as int)) is None,
                forall|port: i32|
                    seen@.contains(port) <==> listening.take(j as int).contains(port as int),
            decreases server.services.len() - j,
        {
            let port = server.services[j].1.port;
            proof {
                assert(listening.take(j as int + 1).drop_last() =~= listening.take(j as int));
                assert(listening.take(j as int + 1).last() == port as int);
            }
            if seen.contains(&port) {
                proof {
                    lemma_repeat_stays(listening, j as int + 1);
                    assert(model.take(i as int + 1).drop_last() =~= model.take(i as int));
                    assert(model.take(i as int + 1).last() == model[i as int]);
                    lemma_conflict_stays(model, i as int + 1);
                    lemma_first_conflict(model);
                    let bad = choose|s: int|
                        0 <= s < model.len() && !conflict_free(#[trigger] model[s]);
                    assert(model[bad] == servers[bad]@);
                }
                return Err(
                    PortConflict {
                        server: server.name.clone(),
                        service: server.services[j].0.clone(),
                        port,
                    },
                );
            }
            seen.insert(port);
            proof {
                let before = listening.take(j as int);
                let after = listening.take(j as int + 1);
                assert(after =~= before.push(port as int));
                assert forall|other: i32|
                    seen@.contains(other) <==> after.contains(other as int) by {
                    if after.contains(other as int) {
                        let k = choose|k: int| 0 <= k < after.len() && after[k] == other as int;
                        if k < j {
                            assert(before[k] == other as int);
                        }
                    }
                    if before.contains(other as int) {
                        let k = choose|k: int| 0 <= k < before.len() && before[k] == other as int;
                        assert(after[k] == other as int);
                    }
                    if other == port {
                        assert(after[j as int] == other as int);
                    }
                }
            }
            j += 1;
        }
        proof {
            assert(listening.take(j as int) =~= listening);
            assert(model.take(i as int + 1).drop_last() =~= model.take(i as int));
            assert(model.take(i as int + 1).last() == model[i as int]);
        }
        i += 1;
    }
    proof {
        assert(model.take(i as int) =~= model);
        lemma_first_conflict(model);
        assert forall|s: int| 0 <= s < servers.len() implies conflict_free(
            #[trigger] servers[s]@,
        ) by {
            assert(model[s] == servers[s]@);
            assert(conflict_free(model[s]));
        }
    }
    Ok(())
}

} // verus!
