use peer_session::codec::{decode, encode, Message, MessageBody, MessageHeader};
use peer_session::common::{GameState, LoginState};
use peer_session::network::{
    handle_new_peers, heartbeat, heartbeat_fire, lobby_tick, process_received, room_url,
    HeartbeatTimer, InboundEntry, OutboundFrame, HEARTBEAT_INTERVAL_MS,
};
use peer_session::table::{PeerNegotiation, PeerNegotiationTable};

fn heartbeat_bytes(seq: u64) -> Vec<u8> {
    encode(&Message { header: MessageHeader { seq }, body: MessageBody::Heartbeat }).unwrap()
}

fn negotiation_of(table: &PeerNegotiationTable, id: &str) -> Option<PeerNegotiation> {
    table.get(&String::from(id))
}

#[test]
fn timer_fires_on_the_interval() {
    let mut timer = HeartbeatTimer::new();
    assert_eq!(HEARTBEAT_INTERVAL_MS, 1000);
    assert!(!timer.tick(999));
    assert!(timer.tick(1));
    assert!(!timer.tick(999));
    assert!(timer.tick(1));
}

#[test]
fn timer_discards_excess_on_fire() {
    let mut timer = HeartbeatTimer::new();
    assert!(timer.tick(2500));
    assert!(!timer.tick(999));
    assert!(timer.tick(1));
}

#[test]
fn admission_loop_inserts_defaults_once() {
    let mut table = PeerNegotiationTable::new();
    let batch = vec![String::from("P1"), String::from("P2"), String::from("P1")];
    handle_new_peers(&mut table, &batch);
    assert_eq!(table.len(), 2);
    assert_eq!(negotiation_of(&table, "P1"), Some(PeerNegotiation { seq_out: 0, last_seen: 0 }));
    assert_eq!(negotiation_of(&table, "P2"), Some(PeerNegotiation { seq_out: 0, last_seen: 0 }));
    handle_new_peers(&mut table, &Vec::new());
    assert_eq!(table.len(), 2);
}

#[test]
fn fire_sends_current_counter_to_every_peer() {
    let mut table = PeerNegotiationTable::new();
    table.enroll(String::from("P1"));
    table.enroll(String::from("P2"));
    let frames = heartbeat_fire(&mut table);
    assert_eq!(frames.len(), 2);
    for (frame, peer) in frames.iter().zip(["P1", "P2"]) {
        assert_eq!(frame.peer.as_str(), peer);
        assert_eq!(frame.payload, heartbeat_bytes(0));
    }
    assert_eq!(negotiation_of(&table, "P1"), Some(PeerNegotiation { seq_out: 1, last_seen: 0 }));
    assert_eq!(negotiation_of(&table, "P2"), Some(PeerNegotiation { seq_out: 1, last_seen: 0 }));
}

#[test]
fn successive_fires_count_up_in_order() {
    let mut table = PeerNegotiationTable::new();
    table.enroll(String::from("P1"));
    let mut sent: Vec<u64> = Vec::new();
    for _ in 0..3 {
        let frames = heartbeat_fire(&mut table);
        assert_eq!(frames.len(), 1);
        let msg = decode(&frames[0].payload).unwrap();
        sent.push(msg.header.seq);
    }
    assert_eq!(sent, vec![0, 1, 2]);
    assert_eq!(negotiation_of(&table, "P1"), Some(PeerNegotiation { seq_out: 3, last_seen: 0 }));
}

#[test]
fn heartbeat_between_fires_sends_nothing() {
    let mut table = PeerNegotiationTable::new();
    table.enroll(String::from("P1"));
    let mut timer = HeartbeatTimer::new();
    let frames = heartbeat(&mut timer, 400, &mut table);
    assert!(frames.is_empty());
    assert_eq!(negotiation_of(&table, "P1"), Some(PeerNegotiation { seq_out: 0, last_seen: 0 }));
    let frames = heartbeat(&mut timer, 600, &mut table);
    assert_eq!(frames.len(), 1);
    assert_eq!(negotiation_of(&table, "P1"), Some(PeerNegotiation { seq_out: 1, last_seen: 0 }));
}

#[test]
fn inbound_loop_overwrites_last_seen_in_arrival_order() {
    let mut table = PeerNegotiationTable::new();
    table.enroll(String::from("P1"));
    let entries = vec![
        InboundEntry { peer: String::from("P1"), payload: heartbeat_bytes(3) },
        InboundEntry { peer: String::from("P1"), payload: heartbeat_bytes(1) },
    ];
    process_received(&mut table, &entries);
    assert_eq!(negotiation_of(&table, "P1"), Some(PeerNegotiation { seq_out: 0, last_seen: 1 }));
}

#[test]
fn malformed_entry_is_dropped_and_the_rest_proceed() {
    let mut table = PeerNegotiationTable::new();
    let entries = vec![
        InboundEntry { peer: String::from("P1"), payload: vec![0, 1, 2] },
        InboundEntry { peer: String::from("P2"), payload: heartbeat_bytes(5) },
    ];
    process_received(&mut table, &entries);
    assert_eq!(negotiation_of(&table, "P1"), None);
    assert_eq!(negotiation_of(&table, "P2"), Some(PeerNegotiation { seq_out: 0, last_seen: 5 }));
}

#[test]
fn malformed_only_batch_leaves_table_unchanged() {
    let mut table = PeerNegotiationTable::new();
    table.enroll(String::from("P1"));
    let entries = vec![InboundEntry { peer: String::from("P1"), payload: vec![9; 12] }];
    process_received(&mut table, &entries);
    assert_eq!(table.len(), 1);
    assert_eq!(negotiation_of(&table, "P1"), Some(PeerNegotiation { seq_out: 0, last_seen: 0 }));
}

#[test]
fn scenario_room_alpha() {
    assert_eq!(room_url("alpha"), "ws://127.0.0.1:3536/alpha");
    let mut table = PeerNegotiationTable::new();
    let mut timer = HeartbeatTimer::new();

    // tick 0: P1 appears via admission
    let frames = lobby_tick(&mut table, &mut timer, 0, &vec![String::from("P1")], &Vec::new());
    assert!(frames.is_empty());
    assert_eq!(negotiation_of(&table, "P1"), Some(PeerNegotiation { seq_out: 0, last_seen: 0 }));

    // tick 1: the timer fires and P1 is sent seq 0
    let frames = lobby_tick(&mut table, &mut timer, 1000, &Vec::new(), &Vec::new());
    assert_eq!(frames.len(), 1);
    assert_eq!(frames[0].peer.as_str(), "P1");
    assert_eq!(decode(&frames[0].payload).unwrap().header.seq, 0);
    assert_eq!(negotiation_of(&table, "P1"), Some(PeerNegotiation { seq_out: 1, last_seen: 0 }));

    // tick 2: a message with seq 7 arrives from P1
    let received = vec![InboundEntry { peer: String::from("P1"), payload: heartbeat_bytes(7) }];
    let frames = lobby_tick(&mut table, &mut timer, 10, &Vec::new(), &received);
    assert!(frames.is_empty());
    assert_eq!(negotiation_of(&table, "P1"), Some(PeerNegotiation { seq_out: 1, last_seen: 7 }));
}

#[test]
fn scenario_two_peers_first_fire() {
    let mut table = PeerNegotiationTable::new();
    let mut timer = HeartbeatTimer::new();
    let batch = vec![String::from("P1"), String::from("P2")];
    let frames = lobby_tick(&mut table, &mut timer, 0, &batch, &Vec::new());
    assert!(frames.is_empty());

    let frames: Vec<OutboundFrame> =
        lobby_tick(&mut table, &mut timer, 1000, &Vec::new(), &Vec::new());
    assert_eq!(frames.len(), 2);
    for frame in &frames {
        assert_eq!(decode(&frame.payload).unwrap().header.seq, 0);
    }
    assert_eq!(negotiation_of(&table, "P1"), Some(PeerNegotiation { seq_out: 1, last_seen: 0 }));
    assert_eq!(negotiation_of(&table, "P2"), Some(PeerNegotiation { seq_out: 1, last_seen: 0 }));
}

#[test]
fn room_url_percent_encodes_the_room_name() {
    assert_eq!(room_url("my room"), "ws://127.0.0.1:3536/my%20room");
    assert_eq!(room_url("a/b?c"), "ws://127.0.0.1:3536/a%2Fb%3Fc");
    assert_eq!(room_url(""), "ws://127.0.0.1:3536/");
}

#[test]
fn mode_transitions() {
    assert_eq!(GameState::Login.on_login_submitted(), GameState::Connecting);
    assert_eq!(GameState::Connecting.on_login_submitted(), GameState::Connecting);
    assert_eq!(GameState::Connecting.on_connection_established(), GameState::Lobby);
    assert_eq!(GameState::Lobby.on_connection_established(), GameState::Lobby);
    assert_eq!(GameState::Login.on_connection_established(), GameState::Login);
    assert_eq!(GameState::Lobby.on_login_submitted(), GameState::Lobby);
}

#[test]
fn login_state_holds_its_fields() {
    let login = LoginState::new(String::from("insert name"), String::from("default room"));
    assert_eq!(login.name, "insert name");
    assert_eq!(login.room, "default room");
}
