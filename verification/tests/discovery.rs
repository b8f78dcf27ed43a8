//! The discovery set: deduplication, address preference, sighting order.

use remote_devtools::discovery::Client;
use remote_devtools::discovery::ClientDiscovery;
use remote_devtools::discovery::ServiceInfo;

fn service(host: &str, port: u16, preferred: Option<&str>) -> ServiceInfo {
    ServiceInfo {
        host: String::from(host),
        port,
        preferred_address: preferred.map(String::from),
    }
}

fn pairs(clients: &[Client]) -> Vec<(String, u16)> {
    clients.iter().map(|c| (c.host.clone(), c.port)).collect()
}

#[test]
fn preferred_address_wins_over_host_name() {
    let mut discovery = ClientDiscovery::new();
    discovery.update_from_services(vec![
        service("machine.local", 3030, Some("192.168.0.9")),
        service("other.local", 3030, None),
    ]);
    let clients = discovery.get_clients();
    assert_eq!(
        pairs(&clients),
        vec![(String::from("192.168.0.9"), 3030), (String::from("other.local"), 3030)]
    );
}

#[test]
fn duplicate_services_yield_one_client() {
    let mut discovery = ClientDiscovery::new();
    discovery.update_from_services(vec![
        service("a.local", 3030, None),
        service("b.local", 3030, None),
        service("a.local", 3030, None),
        service("a.local", 3031, None),
    ]);
    let clients = discovery.get_clients();
    assert_eq!(
        pairs(&clients),
        vec![
            (String::from("a.local"), 3030),
            (String::from("b.local"), 3030),
            (String::from("a.local"), 3031),
        ]
    );
}

#[test]
fn update_replaces_what_was_held() {
    let mut discovery = ClientDiscovery::new();
    discovery.update_from_services(vec![service("a.local", 3030, None)]);
    discovery.update_from_services(vec![service("b.local", 4040, None)]);
    let clients = discovery.get_clients();
    assert_eq!(pairs(&clients), vec![(String::from("b.local"), 4040)]);
}

#[test]
fn no_services_means_no_clients() {
    let mut discovery = ClientDiscovery::new();
    discovery.update_from_services(Vec::new());
    assert_eq!(discovery.get_clients().len(), 0);
}
