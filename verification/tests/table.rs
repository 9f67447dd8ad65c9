use peer_session::table::{PeerNegotiation, PeerNegotiationTable};

#[test]
fn enrolled_peer_starts_at_zero() {
    let mut table = PeerNegotiationTable::new();
    assert_eq!(table.len(), 0);
    table.enroll(String::from("P1"));
    assert_eq!(table.len(), 1);
    assert_eq!(
        table.get(&String::from("P1")),
        Some(PeerNegotiation { seq_out: 0, last_seen: 0 })
    );
}

#[test]
fn enroll_is_idempotent() {
    let mut table = PeerNegotiationTable::new();
    table.enroll(String::from("P1"));
    table.record_seen(String::from("P1"), 5);
    let before = table.get(&String::from("P1"));
    table.enroll(String::from("P1"));
    assert_eq!(table.len(), 1);
    assert_eq!(table.get(&String::from("P1")), before);
    assert_eq!(
        table.get(&String::from("P1")),
        Some(PeerNegotiation { seq_out: 0, last_seen: 5 })
    );
}

#[test]
fn record_seen_creates_missing_row() {
    let mut table = PeerNegotiationTable::new();
    table.record_seen(String::from("P9"), 42);
    assert_eq!(
        table.get(&String::from("P9")),
        Some(PeerNegotiation { seq_out: 0, last_seen: 42 })
    );
}

#[test]
fn record_seen_overwrites_without_ordering() {
    let mut table = PeerNegotiationTable::new();
    table.enroll(String::from("P1"));
    table.record_seen(String::from("P1"), 3);
    table.record_seen(String::from("P1"), 1);
    assert_eq!(
        table.get(&String::from("P1")),
        Some(PeerNegotiation { seq_out: 0, last_seen: 1 })
    );
}

#[test]
fn unknown_peer_is_absent() {
    let mut table = PeerNegotiationTable::new();
    table.enroll(String::from("P1"));
    assert_eq!(table.get(&String::from("P2")), None);
}

#[test]
fn rows_are_readable_by_index() {
    let mut table = PeerNegotiationTable::new();
    table.enroll(String::from("P1"));
    table.enroll(String::from("P2"));
    assert_eq!(table.len(), 2);
    assert_eq!(table.peer_id_at(0).as_str(), "P1");
    assert_eq!(table.peer_id_at(1).as_str(), "P2");
    assert_eq!(table.negotiation_at(0), PeerNegotiation { seq_out: 0, last_seen: 0 });
}
