use it_server::frame::{frame_line, line_payload};
use it_server::message::{
    AcceptEvent, ClientEvent, LeaveEvent, UdpUpgradeEvent, Player, PosUpdateEvent, Position, ServerEvent, StartEvent,
};
use it_server::server::{Datagram, Delivery, PeerAddr, Server, ServerError, LOBBY_CAPACITY};

fn fresh_player(id: &str) -> Player {
    Player { id: id.to_string(), it_count: 0, position: Position { x_bits: 0, y_bits: 0 } }
}

fn session(server: &mut Server) -> String {
    server.connect().expect("a fresh session id")
}

fn v4(last: u8, port: u16) -> PeerAddr {
    PeerAddr::V4 { ip: u32::from_be_bytes([127, 0, 0, last]), port }
}

fn report(id: &str, x: f32, y: f32) -> PosUpdateEvent {
    PosUpdateEvent { client_id: id.to_string(), x_bits: x.to_bits(), y_bits: y.to_bits() }
}

#[test]
fn two_joins_accept_wait_then_start() {
    let mut s = Server::new();
    let c1 = session(&mut s);
    let c2 = session(&mut s);

    let first = s.join(&c1).unwrap();
    let l1 = first.lobby_id.clone();
    assert_eq!(
        first.immediate,
        vec![
            Delivery {
                to: c1.clone(),
                event: ServerEvent::Accept(AcceptEvent { lobby_id: l1.clone(), client_id: c1.clone() }),
            },
            Delivery { to: c1.clone(), event: ServerEvent::Wait },
        ]
    );
    assert!(first.after_grace.is_empty());

    let second = s.join(&c2).unwrap();
    assert_eq!(second.lobby_id, l1);
    assert_eq!(
        second.immediate,
        vec![Delivery {
            to: c2.clone(),
            event: ServerEvent::Accept(AcceptEvent { lobby_id: l1.clone(), client_id: c2.clone() }),
        }]
    );
    let roster = vec![fresh_player(&c1), fresh_player(&c2)];
    let start_for = |id: &String| Delivery {
        to: id.clone(),
        event: ServerEvent::Start(StartEvent {
            lobby_id: l1.clone(),
            client_id: id.clone(),
            players: roster.clone(),
        }),
    };
    assert_eq!(second.after_grace, vec![start_for(&c1), start_for(&c2)]);
    assert!(s.is_full(&l1));
}

#[test]
fn joins_fill_lobbies_pairwise() {
    let mut s = Server::new();
    for n in 1..=7usize {
        let c = session(&mut s);
        s.join(&c).unwrap();
        assert_eq!(s.lobbies.len(), (n + 1) / 2);
        assert!(s.lobbies.iter().all(|l| l.players.len() <= LOBBY_CAPACITY));
    }
    assert_eq!(s.lobbies.last().unwrap().players.len(), 1);
}

#[test]
fn start_is_sent_once_per_lobby() {
    let mut s = Server::new();
    let mut starts = 0;
    for _ in 0..6 {
        let c = session(&mut s);
        let plan = s.join(&c).unwrap();
        if !plan.after_grace.is_empty() {
            starts += 1;
            assert_eq!(plan.after_grace.len(), 2);
        }
    }
    assert_eq!(starts, 3);
}

#[test]
fn lone_member_leaving_deletes_lobby_silently() {
    let mut s = Server::new();
    let c1 = session(&mut s);
    s.join(&c1).unwrap();
    let out = s.disconnect(&c1);
    assert!(out.is_empty());
    assert!(s.lobbies.is_empty());
    assert!(!s.is_registered(&c1));
}

#[test]
fn leaving_a_pair_notifies_the_other_once() {
    let mut s = Server::new();
    let c1 = session(&mut s);
    let c2 = session(&mut s);
    let l1 = s.join(&c1).unwrap().lobby_id;
    s.join(&c2).unwrap();
    let out = s.disconnect(&c1);
    assert_eq!(
        out,
        vec![Delivery { to: c2.clone(), event: ServerEvent::Leave(LeaveEvent { client_id: c1.clone() }) }]
    );
    assert_eq!(s.lobbies.len(), 1);
    assert_eq!(s.lobbies[0].id, l1);
    assert_eq!(s.lobbies[0].players, vec![fresh_player(&c2)]);
}

#[test]
fn removal_keeps_an_emptied_lobby_for_the_caller() {
    let mut s = Server::new();
    let c1 = session(&mut s);
    let c2 = session(&mut s);
    let l1 = s.join(&c1).unwrap().lobby_id;
    s.join(&c2).unwrap();
    assert_eq!(s.remove_from_lobby(&c1), Some(l1.clone()));
    assert_eq!(s.lobbies.len(), 1);
    assert_eq!(s.lobbies[0].players, vec![fresh_player(&c2)]);
    assert_eq!(s.remove_from_lobby(&c2), Some(l1.clone()));
    assert_eq!(s.lobbies.len(), 1);
    assert_eq!(s.lobbies[0].id, l1);
    assert!(s.lobbies[0].players.is_empty());
}

#[test]
fn session_outside_any_lobby_leaves_quietly() {
    let mut s = Server::new();
    let c1 = session(&mut s);
    assert!(s.disconnect(&c1).is_empty());
    assert!(s.remove_from_lobby(&c1).is_none());
}

#[test]
fn relay_skips_unbound_peer() {
    let mut s = Server::new();
    let c1 = session(&mut s);
    let c2 = session(&mut s);
    s.join(&c1).unwrap();
    s.join(&c2).unwrap();
    s.bind_telemetry(c2.clone(), v4(2, 4002));
    assert!(s.relay_position(&report(&c2, 5.0, 7.0)).is_empty());
}

#[test]
fn relay_goes_to_the_bound_peer_only() {
    let mut s = Server::new();
    let c1 = session(&mut s);
    let c2 = session(&mut s);
    s.join(&c1).unwrap();
    s.join(&c2).unwrap();
    s.bind_telemetry(c2.clone(), v4(2, 4002));
    s.bind_telemetry(c1.clone(), v4(1, 4001));
    let out = s.relay_position(&report(&c2, 5.0, 7.0));
    assert_eq!(out, vec![Datagram { to: v4(1, 4001), update: report(&c2, 5.0, 7.0) }]);
    let back = s.relay_position(&report(&c1, 1.5, -2.0));
    assert_eq!(back, vec![Datagram { to: v4(2, 4002), update: report(&c1, 1.5, -2.0) }]);
}

#[test]
fn relay_from_session_in_no_lobby_is_empty() {
    let mut s = Server::new();
    let c1 = session(&mut s);
    s.bind_telemetry(c1.clone(), v4(1, 4001));
    assert!(s.relay_position(&report(&c1, 0.0, 0.0)).is_empty());
}

#[test]
fn rebinding_replaces_the_address() {
    let mut s = Server::new();
    let c1 = session(&mut s);
    assert_eq!(s.telemetry_addr(&c1), None);
    s.bind_telemetry(c1.clone(), v4(1, 4001));
    s.bind_telemetry("other".to_string(), v4(9, 9000));
    s.bind_telemetry(c1.clone(), v4(1, 5001));
    assert_eq!(s.telemetry_addr(&c1), Some(v4(1, 5001)));
    assert_eq!(s.telemetry_addr(&"other".to_string()), Some(v4(9, 9000)));
    assert_eq!(s.udp_client_addrs.len(), 2);
}

#[test]
fn join_errors() {
    let mut s = Server::new();
    assert_eq!(s.join(&"ghost".to_string()).unwrap_err(), ServerError::UnknownSession);
    let c1 = session(&mut s);
    s.join(&c1).unwrap();
    assert_eq!(s.join(&c1).unwrap_err(), ServerError::AlreadyInLobby);
    assert_eq!(s.lobbies.len(), 1);
}

#[test]
fn taken_lobby_id_is_refused() {
    let mut s = Server::new();
    assert!(s.register("a".to_string()));
    assert!(s.register("b".to_string()));
    assert!(s.register("c".to_string()));
    assert_eq!(s.assign_with_fresh_id(&"a".to_string(), "L".to_string()), Ok("L".to_string()));
    assert_eq!(s.assign_with_fresh_id(&"b".to_string(), "unused".to_string()), Ok("L".to_string()));
    assert_eq!(
        s.assign_with_fresh_id(&"c".to_string(), "L".to_string()),
        Err(ServerError::LobbyIdTaken)
    );
    assert_eq!(s.assign_with_fresh_id(&"c".to_string(), "M".to_string()), Ok("M".to_string()));
    assert_eq!(s.lobbies.len(), 2);
}

#[test]
fn registering_twice_is_refused() {
    let mut s = Server::new();
    assert!(s.register("a".to_string()));
    assert!(!s.register("a".to_string()));
    assert_eq!(s.tcp_clients.len(), 1);
}

#[test]
fn a_departed_id_is_never_reused() {
    let mut s = Server::new();
    assert!(s.register("a".to_string()));
    s.disconnect(&"a".to_string());
    assert!(!s.is_registered(&"a".to_string()));
    assert!(s.was_issued(&"a".to_string()));
    assert!(!s.register("a".to_string()));
    assert!(s.tcp_clients.is_empty());
}

#[test]
fn control_channel_acts_on_join_only() {
    let mut s = Server::new();
    let c1 = session(&mut s);
    let refused = s.handle_control(&c1, ClientEvent::UdpUpgrade(UdpUpgradeEvent { client_id: c1.clone() }));
    assert_eq!(refused.unwrap_err(), ServerError::UnexpectedEvent);
    assert_eq!(s.handle_control(&c1, ClientEvent::PosUpdate(report(&c1, 1.0, 2.0))).unwrap_err(), ServerError::UnexpectedEvent);
    assert!(s.lobbies.is_empty());
    let plan = s.handle_control(&c1, ClientEvent::Join).unwrap();
    assert_eq!(plan.immediate.len(), 2);
    assert_eq!(s.lobbies.len(), 1);
}

#[test]
fn send_to_unknown_session_is_dropped() {
    let s = Server::new();
    let mut out = Vec::new();
    s.send(&"nobody".to_string(), ServerEvent::Wait, &mut out);
    assert!(out.is_empty());
}

#[test]
fn connect_draws_distinct_uuid_ids() {
    let mut s = Server::new();
    let a = session(&mut s);
    let b = session(&mut s);
    assert_eq!(a.len(), 36);
    assert_ne!(a, b);
    for (i, c) in a.chars().enumerate() {
        if [8, 13, 18, 23].contains(&i) {
            assert_eq!(c, '-');
        } else {
            assert!(c.is_ascii_digit() || ('a'..='f').contains(&c));
        }
    }
    let plan = s.join(&a).unwrap();
    assert_eq!(plan.lobby_id.len(), 36);
    assert_ne!(plan.lobby_id, a);
}

#[test]
fn framing_round_trip() {
    let line = frame_line(b"{\"type\":\"Join\"}".to_vec());
    assert_eq!(line, b"{\"type\":\"Join\"}\n".to_vec());
    assert_eq!(line_payload(&line), b"{\"type\":\"Join\"}".to_vec());
    assert_eq!(line_payload(b"abc"), b"abc".to_vec());
    assert_eq!(line_payload(b""), Vec::<u8>::new());
    assert_eq!(line_payload(&frame_line(Vec::new())), Vec::<u8>::new());
}
