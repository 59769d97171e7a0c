use rustroom::{ClientMessage, Delivery, RegistryError, Server, ServerMessage, User};

fn s(x: &str) -> String {
    x.to_string()
}

fn member(id: &str, room: &str, is_streaming: bool) -> User {
    User { id: s(id), room: Some(s(room)), is_streaming }
}

fn to<'a>(out: &'a [Delivery], who: &str) -> Vec<&'a ServerMessage> {
    out.iter().filter(|d| d.to == who).map(|d| &d.message).collect()
}

fn server_with(ids: &[&str]) -> Server {
    let mut server = Server::new();
    for id in ids {
        assert_eq!(server.register(s(id)), Ok(()));
    }
    server
}

fn join(server: &mut Server, id: &str, room: &str) -> Vec<Delivery> {
    server.handle_client_message(&s(id), ClientMessage::JoinRoom { room_name: s(room) })
}

fn check_rooms(server: &Server) {
    for room in server.rooms() {
        assert!(!room.users.is_empty());
        for u in &room.users {
            assert_eq!(u.room.as_deref(), Some(room.name.as_str()));
            assert_eq!(u.is_streaming, room.streamer.as_deref() == Some(u.id.as_str()));
        }
        if let Some(st) = &room.streamer {
            assert!(room.users.iter().any(|u| &u.id == st));
        }
    }
}

#[test]
fn two_members_stream_and_chat() {
    let mut server = server_with(&["A", "B"]);
    let out = join(&mut server, "A", "r1");
    assert_eq!(
        to(&out, "A"),
        vec![&ServerMessage::RoomJoined {
            room_name: s("r1"),
            users: vec![member("A", "r1", false)],
            streamer: None
        }]
    );
    let out = join(&mut server, "B", "r1");
    assert_eq!(
        to(&out, "B"),
        vec![&ServerMessage::RoomJoined {
            room_name: s("r1"),
            users: vec![member("A", "r1", false), member("B", "r1", false)],
            streamer: None
        }]
    );
    assert_eq!(to(&out, "A"), vec![&ServerMessage::UserJoined { user: member("B", "r1", false) }]);
    let out = server.handle_client_message(&s("A"), ClientMessage::StartStream);
    let started = ServerMessage::StreamStarted { user_id: s("A") };
    assert_eq!(to(&out, "A"), vec![&started]);
    assert_eq!(to(&out, "B"), vec![&started]);
    assert_eq!(out.len(), 2);
    let out = server.handle_client_message(&s("B"), ClientMessage::ChatMessage { content: s("hi") });
    assert_eq!(out.len(), 1);
    assert_eq!(
        to(&out, "A"),
        vec![&ServerMessage::ChatMessage { user_id: s("B"), content: s("hi") }]
    );
}

#[test]
fn join_confirms_before_notices() {
    let mut server = server_with(&["A", "B", "C"]);
    join(&mut server, "A", "r");
    join(&mut server, "B", "r");
    let out = join(&mut server, "C", "r");
    assert_eq!(out[0].to, "C");
    match &out[0].message {
        ServerMessage::RoomJoined { users, .. } => assert!(users.iter().any(|u| u.id == "C")),
        other => panic!("unexpected {:?}", other),
    }
    assert_eq!(out.len(), 3);
    assert!(out[1..].iter().all(|d| d.to != "C"));
}

#[test]
fn start_stream_demotes_previous_streamer() {
    let mut server = server_with(&["A", "B"]);
    join(&mut server, "A", "r");
    join(&mut server, "B", "r");
    server.handle_client_message(&s("B"), ClientMessage::StartStream);
    let out = server.handle_client_message(&s("A"), ClientMessage::StartStream);
    let room = &server.rooms()[0];
    assert_eq!(room.streamer.as_deref(), Some("A"));
    assert!(room.users.iter().all(|u| u.is_streaming == (u.id == "A")));
    let started = ServerMessage::StreamStarted { user_id: s("A") };
    assert_eq!(to(&out, "A"), vec![&started]);
    assert_eq!(to(&out, "B"), vec![&started]);
    assert_eq!(out.len(), 2);
    check_rooms(&server);
}

#[test]
fn stop_stream_by_non_streamer_is_no_op() {
    let mut server = server_with(&["A", "B"]);
    join(&mut server, "A", "r");
    join(&mut server, "B", "r");
    server.handle_client_message(&s("A"), ClientMessage::StartStream);
    let out = server.handle_client_message(&s("B"), ClientMessage::StopStream);
    assert!(out.is_empty());
    assert_eq!(server.rooms()[0].streamer.as_deref(), Some("A"));
    let out = server.handle_client_message(&s("A"), ClientMessage::StopStream);
    assert_eq!(out.len(), 2);
    assert_eq!(server.rooms()[0].streamer, None);
    check_rooms(&server);
}

#[test]
fn disconnecting_streamer_notifies_and_removes_room() {
    let mut server = server_with(&["A", "B"]);
    join(&mut server, "A", "r");
    join(&mut server, "B", "r");
    server.handle_client_message(&s("A"), ClientMessage::StartStream);
    let out = server.cleanup_user(&s("A"));
    assert_eq!(
        to(&out, "B"),
        vec![
            &ServerMessage::StreamStopped { user_id: s("A") },
            &ServerMessage::UserLeft { user_id: s("A") }
        ]
    );
    assert!(!server.is_registered(&s("A")));
    assert_eq!(server.rooms()[0].streamer, None);
    server.handle_client_message(&s("B"), ClientMessage::StartStream);
    let out = server.cleanup_user(&s("B"));
    assert!(out.is_empty());
    assert!(server.rooms().is_empty());
    assert_eq!(server.register(s("C")), Ok(()));
    join(&mut server, "C", "r");
    assert_eq!(server.rooms()[0].streamer, None);
    assert_eq!(server.rooms()[0].users, vec![member("C", "r", false)]);
}

#[test]
fn signal_to_unregistered_is_dropped() {
    let mut server = server_with(&["A"]);
    let out = server.handle_client_message(
        &s("A"),
        ClientMessage::WebRTCSignal { target_user: s("nobody"), signal: serde_json::Value::Null },
    );
    assert!(out.is_empty());
    assert!(server.rooms().is_empty());
}

#[test]
fn signal_is_relayed_unchanged() {
    let mut server = server_with(&["A", "B"]);
    let payload = serde_json::Value::String(s("offer-sdp"));
    let out = server.handle_client_message(
        &s("A"),
        ClientMessage::WebRTCSignal { target_user: s("B"), signal: payload.clone() },
    );
    assert_eq!(out.len(), 1);
    assert_eq!(out[0].to, "B");
    let expected = ServerMessage::WebRTCSignal { from_user: s("A"), signal: payload };
    assert_eq!(out[0].message, expected);
    assert_eq!(out[0].message.duplicate(), expected);
}

#[test]
fn duplicate_registration_is_refused() {
    let mut server = server_with(&["A"]);
    assert_eq!(server.register(s("A")), Err(RegistryError::DuplicateIdentity));
    server.deregister(&s("A"));
    server.deregister(&s("A"));
    assert!(!server.is_registered(&s("A")));
    assert_eq!(server.register(s("A")), Ok(()));
}

#[test]
fn connect_draws_distinct_identities() {
    let mut server = Server::new();
    let a = server.connect().unwrap();
    let b = server.connect().unwrap();
    assert_ne!(a, b);
    assert_eq!(a.len(), 36);
    assert!(server.is_registered(&a));
    assert!(server.is_registered(&b));
}

#[test]
fn chat_and_leave_without_room_do_nothing() {
    let mut server = server_with(&["A"]);
    assert!(server.handle_client_message(&s("A"), ClientMessage::ChatMessage { content: s("x") }).is_empty());
    assert!(server.handle_client_message(&s("A"), ClientMessage::LeaveRoom).is_empty());
    assert!(server.handle_client_message(&s("A"), ClientMessage::StartStream).is_empty());
    assert!(server.rooms().is_empty());
}

#[test]
fn unregistered_members_receive_nothing() {
    let mut server = server_with(&["A"]);
    join(&mut server, "A", "r");
    let out = join(&mut server, "ghost", "r");
    assert!(to(&out, "ghost").is_empty());
    assert_eq!(to(&out, "A"), vec![&ServerMessage::UserJoined { user: member("ghost", "r", false) }]);
    assert_eq!(out.len(), 1);
    assert_eq!(server.rooms()[0].users.len(), 2);
}

#[test]
fn switching_rooms_leaves_the_old_one() {
    let mut server = server_with(&["A", "B"]);
    join(&mut server, "A", "r1");
    join(&mut server, "B", "r1");
    let out = join(&mut server, "A", "r2");
    assert_eq!(to(&out, "B"), vec![&ServerMessage::UserLeft { user_id: s("A") }]);
    assert_eq!(server.rooms().len(), 2);
    assert_eq!(server.rooms()[0].users, vec![member("B", "r1", false)]);
    assert_eq!(server.rooms()[1].users, vec![member("A", "r2", false)]);
    let out = join(&mut server, "B", "r2");
    assert_eq!(server.rooms().len(), 1);
    assert_eq!(to(&out, "A"), vec![&ServerMessage::UserJoined { user: member("B", "r2", false) }]);
}

#[test]
fn membership_sequences_keep_rooms_well_formed() {
    let ids = ["a", "b", "c", "d"];
    let mut server = server_with(&ids);
    let rooms = ["x", "y", "z"];
    for step in 0..60usize {
        let id = ids[(step * 7 + 3) % ids.len()];
        if step % 3 == 2 {
            server.handle_client_message(&s(id), ClientMessage::LeaveRoom);
        } else if step % 5 == 4 {
            server.handle_client_message(&s(id), ClientMessage::StartStream);
        } else {
            join(&mut server, id, rooms[(step * 5 + 1) % rooms.len()]);
        }
        check_rooms(&server);
    }
}
