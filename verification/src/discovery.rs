//! Discovery of advertised endpoints: the deduplicated set of reachable
//! clients, recomputed from whatever services the network browser reports.
//! Listening on the network itself stays outside; this logic only decides
//! which client each reported service denotes and keeps the set free of
//! duplicates, in first-sighting order.

use crate::serialization::str_eq;
use vstd::prelude::*;

verus! {

/// One reachable endpoint.
pub struct Client {
    pub host: String,
    pub port: u16,
}

impl View for Client {
    type V = (Seq<char>, u16);

    open spec fn view(&self) -> (Seq<char>, u16) {
        (self.host@, self.port)
    }
}

/// What the network browser reports for one advertised service.
pub struct ServiceInfo {
    pub host: String,
    pub port: u16,
    pub preferred_address: Option<String>,
}

/// The client a reported service denotes: its preferred address when it has
/// one, else its host name, with the advertised port.
pub open spec fn service_client(s: ServiceInfo) -> (Seq<char>, u16) {
    (
        if s.preferred_address is Some {
            s.preferred_address->0@
        } else {
            s.host@
        },
        s.port,
    )
}

/// The clients denoted by a list of services.
pub open spec fn clients_of_services(services: Seq<ServiceInfo>) -> Seq<(Seq<char>, u16)> {
    services.map_values(|s: ServiceInfo| service_client(s))
}

/// `s` with every repeated element dropped, keeping first occurrences in
/// order.
pub open spec fn dedup_first(s: Seq<(Seq<char>, u16)>) -> Seq<(Seq<char>, u16)>
    decreases s.len(),
{
    if s.len() == 0 {
        Seq::empty()
    } else {
        let prefix = dedup_first(s.drop_last());
        if prefix.contains(s.last()) {
            prefix
        } else {
            prefix.push(s.last())
        }
    }
}

/// The set of clients currently visible on the network, without duplicates,
/// in the order they were first seen.
pub struct ClientDiscovery {
    clients: Vec<Client>,
}

impl ClientDiscovery {
    /// The clients held, in order.
    pub closed spec fn clients_view(self) -> Seq<(Seq<char>, u16)> {
        self.clients@.map_values(|c: Client| c@)
    }

    /// No two held clients are the same endpoint.
    pub open spec fn wf(self) -> bool {
        forall|i: int, j: int|
            0 <= i < j < self.clients_view().len() ==> #[trigger] self.clients_view()[i]
                != #[trigger] self.clients_view()[j]
    }

    /// A discovery with no clients seen yet.
    pub fn new() -> (discovery: Self)
        ensures
            discovery.wf(),
            discovery.clients_view().len() == 0,
    {
        let discovery = ClientDiscovery { clients: Vec::new() };
        proof {
            assert(discovery.clients_view() =~= Seq::<(Seq<char>, u16)>::empty());
        }
        discovery
    }

    /// Whether the endpoint `(host, port)` is already held.
    fn contains_client(&self, host: &str, port: u16) -> (found: bool)
        ensures
            found == self.clients_view().contains((host@, port)),
    {
        let n = self.clients.len();
        let mut i: usize = 0;
        while i < n
            invariant
                0 <= i <= n,
                n == self.clients_view().len(),
                n == self.clients@.len(),
                forall|k: int| 0 <= k < i ==> #[trigger] self.clients_view()[k] != (host@, port),
            decreases n - i,
        {
            proof {
                assert(self.clients_view()[i as int] == self.clients@[i as int]@);
            }
            if str_eq(self.clients[i].host.as_str(), host) && self.clients[i].port == port {
                proof {
                    assert(self.clients_view()[i as int] == (host@, port));
                }
                return true;
            }
            i += 1;
        }
        proof {
            assert forall|k: int|
                0 <= k < self.clients_view().len() implies #[trigger] self.clients_view()[k] != (
                host@,
                port,
            ) by {}
            assert(!self.clients_view().contains((host@, port)));
        }
        false
    }

    /// Replace the held set with the clients the given services denote:
    /// every reported service's client is present, nothing else is, no
    /// endpoint twice, first sightings first.
    pub fn update_from_services(&mut self, services: Vec<ServiceInfo>)
        ensures
            final(self).wf(),
            final(self).clients_view() == dedup_first(clients_of_services(services@)),
    {
        let ghost all = services@;
        let mut services = services;
        self.clients.clear();
        proof {
            assert(self.clients_view() =~= Seq::<(Seq<char>, u16)>::empty());
            assert(dedup_first(clients_of_services(all.take(0))) =~= Seq::<(
                Seq<char>,
                u16,
            )>::empty()) by {
                assert(clients_of_services(all.take(0)) =~= Seq::<(Seq<char>, u16)>::empty());
            }
        }
        let ghost mut k: int = 0;
        while services.len() > 0
            invariant
                0 <= k <= all.len(),
                services@ =~= all.skip(k),
                self.wf(),
                self.clients_view() == dedup_first(clients_of_services(all.take(k))),
            decreases services@.len(),
        {
            let service = services.remove(0);
            proof {
                assert(service == all[k]);
                assert(services@ =~= all.skip(k + 1));
            }
            let client = match service.preferred_address {
                Some(address) => Client { host: address, port: service.port },
                None => Client { host: service.host, port: service.port },
            };
            proof {
                assert(client@ == service_client(all[k]));
            }
            let ghost pre = self.clients_view();
            let present = self.contains_client(client.host.as_str(), client.port);
            proof {
                assert(clients_of_services(all.take(k + 1)).drop_last() =~= clients_of_services(
                    all.take(k),
                )) by {
                    assert forall|m: int|
                        0 <= m < all.take(k + 1).len() implies #[trigger] clients_of_services(
                        all.take(k + 1),
                    )[m] == service_client(all[m]) by {}
                }
                assert(clients_of_services(all.take(k + 1)).last() == service_client(all[k]));
            }
            if !present {
                self.clients.push(client);
                proof {
                    assert(self.clients_view() =~= pre.push(service_client(all[k])));
                    assert forall|a: int, b: int|
                        0 <= a < b < self.clients_view().len() implies #[trigger] self.clients_view()[a]
                        != #[trigger] self.clients_view()[b] by {
                        if b == self.clients_view().len() - 1 {
                            assert(!pre.contains(service_client(all[k])));
                            assert(self.clients_view()[a] == pre[a]);
                        } else {
                            assert(self.clients_view()[a] == pre[a]);
                            assert(self.clients_view()[b] == pre[b]);
                        }
                    }
                }
            } else {
                proof {
                    assert(pre.contains(service_client(all[k])));
                }
            }
            proof {
                k = k + 1;
                assert(self.clients_view() == dedup_first(clients_of_services(all.take(k))));
            }
        }
        proof {
            assert(all.take(k) =~= all);
        }
    }

    /// A snapshot of the held clients, in order.
    pub fn get_clients(&self) -> (clients: Vec<Client>)
        ensures
            clients@.map_values(|c: Client| c@) == self.clients_view(),
    {
        let mut clients: Vec<Client> = Vec::new();
        let n = self.clients.len();
        let mut i: usize = 0;
        while i < n
            invariant
                0 <= i <= n,
                n == self.clients@.len(),
                clients@.len() == i,
                forall|m: int| 0 <= m < i ==> (#[trigger] clients@[m])@ == self.clients@[m]@,
            decreases n - i,
        {
            let copy = Client { host: self.clients[i].host.clone(), port: self.clients[i].port };
            clients.push(copy);
            i += 1;
        }
        proof {
            assert forall|m: int|
                0 <= m < clients@.len() implies clients@.map_values(|c: Client| c@)[m]
                == self.clients_view()[m] by {
                assert((#[trigger] clients@[m])@ == self.clients@[m]@);
            }
            assert(clients@.map_values(|c: Client| c@) =~= self.clients_view());
        }
        clients
    }
}

/// Membership in the deduplicated list is the same as membership in the
/// list it was made from: deduplication drops repeats and nothing else.
pub proof fn lemma_dedup_first_same_members(s: Seq<(Seq<char>, u16)>, x: (Seq<char>, u16))
    ensures
        dedup_first(s).contains(x) <==> s.contains(x),
    decreases s.len(),
{
    if s.len() > 0 {
        lemma_dedup_first_same_members(s.drop_last(), x);
        if s.contains(x) {
            let i = choose|i: int| 0 <= i < s.len() && s[i] == x;
            if i < s.len() - 1 {
                assert(s.drop_last()[i] == x);
                assert(s.drop_last().contains(x));
            }
            if !dedup_first(s).contains(x) {
                if x == s.last() {
                    if !dedup_first(s.drop_last()).contains(x) {
                        assert(dedup_first(s).last() == x);
                    }
                    assert(false);
                } else {
                    assert(s.drop_last().contains(x));
                    if dedup_first(s.drop_last()).contains(x) {
                        let j = choose|j: int|
                            0 <= j < dedup_first(s.drop_last()).len() && dedup_first(
                                s.drop_last(),
                            )[j] == x;
                        if !dedup_first(s.drop_last()).contains(s.last()) {
                            assert(dedup_first(s)[j] == x);
                        }
                        assert(dedup_first(s).contains(x));
                    }
                    assert(false);
                }
            }
        } else {
            if dedup_first(s).contains(x) {
                let j = choose|j: int| 0 <= j < dedup_first(s).len() && dedup_first(s)[j] == x;
                if !dedup_first(s.drop_last()).contains(s.last()) {
                    if j < dedup_first(s).len() - 1 {
                        assert(dedup_first(s.drop_last())[j] == x);
                    } else {
                        assert(s.contains(s.last()));
                    }
                } else {
                    assert(dedup_first(s.drop_last())[j] == x);
                }
                assert(s.drop_last().contains(x) ==> s.contains(x)) by {
                    if s.drop_last().contains(x) {
                        let m = choose|m: int| 0 <= m < s.drop_last().len() && s.drop_last()[m] == x;
                        assert(s[m] == x);
                    }
                }
                assert(false);
            }
        }
    }
}

} // verus!
