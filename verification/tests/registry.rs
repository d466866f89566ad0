use telemetry::identity::ClientId;
use telemetry::registry::{Clients, Registry};
use telemetry::render::HttpServer;
use telemetry::wire::Timestamp;

const ID: &str = "deadbeef-dead-dead-dead-beefbeefbeef";
const ID2: &str = "00000000-0000-0000-0000-000000000001";
const ID3: &str = "11111111-2222-3333-4444-555555555555";

fn packet(id: &str, sec: i64, nsec: i32, payload: &str) -> String {
    let mut s = String::from(id);
    s.push_str(&format!("({},{})", sec, nsec));
    s.push_str(payload);
    s
}

#[test]
fn unknown_identity_read_is_empty_and_creates_nothing() {
    let clients = Clients::new();
    let unknown = ClientId::parse_str(ID).unwrap();
    assert_eq!(clients.get_messages_for_uuid(&unknown).len(), 0);
    assert_eq!(clients.get_clients_uuids().len(), 0);
    assert_eq!(clients.get_clients().len(), 0);

    // also when other identities exist
    clients.add_message(packet(ID2, 1, 1, "x")).unwrap();
    assert_eq!(clients.get_messages_for_uuid(&unknown).len(), 0);
    let uuids = clients.get_clients_uuids();
    assert_eq!(uuids.len(), 1);
    assert!(uuids.iter().all(|u| *u != unknown));
}

#[test]
fn sort_correctness_scenario() {
    let clients = Clients::new();
    clients.add_message(packet(ID, 2, 0, "a")).unwrap();
    clients.add_message(packet(ID, 1, 500, "b")).unwrap();
    clients.add_message(packet(ID, 1, 0, "c")).unwrap();
    let id = ClientId::parse_str(ID).unwrap();
    let msgs = clients.get_messages_for_uuid(&id);
    let got: Vec<(String, String)> = msgs;
    assert_eq!(
        got,
        vec![
            (String::from("(1,0)"), String::from("c")),
            (String::from("(1,500)"), String::from("b")),
            (String::from("(2,0)"), String::from("a")),
        ]
    );
}

#[test]
fn equal_timestamps_keep_insertion_order() {
    let clients = Clients::new();
    clients.add_message(packet(ID, 5, 5, "first")).unwrap();
    clients.add_message(packet(ID, 5, 5, "second")).unwrap();
    clients.add_message(packet(ID, 1, 0, "early")).unwrap();
    let id = ClientId::parse_str(ID).unwrap();
    let msgs = clients.get_messages_for_uuid(&id);
    let payloads: Vec<&str> = msgs.iter().map(|p| p.1.as_str()).collect();
    assert_eq!(payloads, vec!["early", "first", "second"]);
}

#[test]
fn bounded_per_client_history() {
    let clients = Clients::new();
    for i in 0..12 {
        clients.add_message(packet(ID, i, 0, "m")).unwrap();
    }
    let id = ClientId::parse_str(ID).unwrap();
    let msgs = clients.get_messages_for_uuid(&id);
    assert_eq!(msgs.len(), 10);
    // the two oldest entries were evicted
    assert_eq!(msgs[0].0, "(2,0)");
    assert_eq!(msgs[9].0, "(11,0)");
}

#[test]
fn distinct_identities_do_not_interfere() {
    let clients = Clients::new();
    for id in [ID, ID2, ID3] {
        for i in 0..2 {
            clients.add_message(packet(id, i, 0, "m")).unwrap();
        }
    }
    assert_eq!(clients.get_clients_uuids().len(), 3);
    for id in [ID, ID2, ID3] {
        let parsed = ClientId::parse_str(id).unwrap();
        assert_eq!(clients.get_messages_for_uuid(&parsed).len(), 2);
    }
}

#[test]
fn interleaved_records_keep_min_m_k_per_identity() {
    // the serialized interleaving that concurrent writers produce under the
    // registry's exclusion guard: writes to distinct identities alternate
    let clients = Clients::new();
    let m = 13; // above the history capacity of 10
    for j in 0..m {
        for id in [ID, ID2, ID3] {
            clients.add_message(packet(id, j, 0, "m")).unwrap();
        }
    }
    assert_eq!(clients.get_clients_uuids().len(), 3);
    for id in [ID, ID2, ID3] {
        let parsed = ClientId::parse_str(id).unwrap();
        assert_eq!(clients.get_messages_for_uuid(&parsed).len(), 10);
    }
}

#[test]
fn add_client_is_idempotent_and_keeps_history() {
    let clients = Clients::new();
    let id = ClientId::parse_str(ID).unwrap();
    clients.add_client(id.clone());
    clients.add_message(packet(ID, 3, 0, "kept")).unwrap();
    clients.add_client(id.clone());
    assert_eq!(clients.get_clients_uuids().len(), 1);
    let msgs = clients.get_messages_for_uuid(&id);
    assert_eq!(msgs.len(), 1);
    assert_eq!(msgs[0].1, "kept");
}

#[test]
fn labels_join_name_and_identity() {
    let clients = Clients::new();
    clients.add_client(ClientId::parse_str(ID).unwrap());
    let labels = clients.get_clients();
    assert_eq!(labels, vec![format!(" :: {}", ID)]);
}

#[test]
fn malformed_packets_leave_state_alone() {
    let clients = Clients::new();
    assert!(clients.add_message(String::from("garbage")).is_err());
    let mut no_paren = String::from(ID);
    no_paren.push_str("rest");
    assert!(clients.add_message(no_paren).is_err());
    assert_eq!(clients.get_clients_uuids().len(), 0);
}

#[test]
fn created_message_parses_back() {
    let id = ClientId::parse_str(ID).unwrap();
    let text = Clients::create_message(&id, &String::from("ping"));
    let (pid, entry) = Clients::parse_packet_message(&text).unwrap();
    assert_eq!(pid, id);
    assert_eq!(entry.message, "ping");
    assert!(entry.timestamp.nsec >= 0 && entry.timestamp.nsec < 1_000_000_000);
}

#[test]
fn sequential_registry_records_directly() {
    let mut reg = Registry::new();
    let id = ClientId::parse_str(ID).unwrap();
    let entry = telemetry::wire::Data::<String>::new_from_message("(4,2)direct").unwrap();
    reg.add_data_message(id.clone(), entry);
    let msgs = reg.get_messages_for_uuid(&id);
    assert_eq!(msgs, vec![(String::from("(4,2)"), String::from("direct"))]);
    assert_eq!(reg.get_clients_uuids(), vec![id]);
}

#[test]
fn timestamp_order_is_lexicographic() {
    let a = Timestamp::new(1, 999_999_999);
    let b = Timestamp::new(2, 0);
    assert!(a.le(&b));
    assert!(!b.le(&a));
    let c = Timestamp::new(2, 1);
    assert!(b.le(&c));
    assert!(b.le(&b));
}

#[test]
fn markup_list_rendering() {
    let items = vec![String::from("a"), String::from("b")];
    assert_eq!(
        HttpServer::format_vec_as_list(&items),
        "<ul><li>a</li><li>b</li></ul>"
    );
    assert_eq!(HttpServer::format_vec_as_list(&Vec::new()), "<ul></ul>");
}
