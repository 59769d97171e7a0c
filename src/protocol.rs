//! The protocol as mathematics: the state of the relay, what each operation
//! makes of it, and which deliveries it decides on.

use vstd::prelude::*;
use crate::message::{ClientView, MsgView};
use crate::model::{RoomView, UserView};

verus! {

/// The room table, in order of creation, and the registered identities.
pub struct ServerView {
    pub rooms: Seq<RoomView>,
    pub connections: Seq<Seq<char>>,
}

pub type Outbox = Seq<(Seq<char>, MsgView)>;

pub open spec fn has_user(users: Seq<UserView>, id: Seq<char>) -> bool {
    exists|k: int| 0 <= k < users.len() && #[trigger] users[k].id == id
}

/// The first position of `id` among `users`.
pub open spec fn first_user(users: Seq<UserView>, id: Seq<char>) -> Option<int> {
    if has_user(users, id) {
        Some(
            choose|k: int|
                0 <= k < users.len() && #[trigger] users[k].id == id && forall|j: int|
                    0 <= j < k ==> #[trigger] users[j].id != id,
        )
    } else {
        None
    }
}

pub open spec fn in_some_room(rooms: Seq<RoomView>, id: Seq<char>) -> bool {
    exists|i: int| 0 <= i < rooms.len() && has_user(#[trigger] rooms[i].users, id)
}

/// The first room that holds `id` as a member.
pub open spec fn room_of(rooms: Seq<RoomView>, id: Seq<char>) -> Option<int> {
    if in_some_room(rooms, id) {
        Some(
            choose|i: int|
                0 <= i < rooms.len() && has_user(#[trigger] rooms[i].users, id) && forall|j: int|
                    0 <= j < i ==> !has_user(#[trigger] rooms[j].users, id),
        )
    } else {
        None
    }
}

pub open spec fn has_room(rooms: Seq<RoomView>, name: Seq<char>) -> bool {
    exists|i: int| 0 <= i < rooms.len() && #[trigger] rooms[i].name == name
}

/// The first room called `name`.
pub open spec fn room_named(rooms: Seq<RoomView>, name: Seq<char>) -> Option<int> {
    if has_room(rooms, name) {
        Some(
            choose|i: int|
                0 <= i < rooms.len() && #[trigger] rooms[i].name == name && forall|j: int|
                    0 <= j < i ==> #[trigger] rooms[j].name != name,
        )
    } else {
        None
    }
}

/// The first position of `id` in the registry.
pub open spec fn first_conn(conns: Seq<Seq<char>>, id: Seq<char>) -> Option<int> {
    if conns.contains(id) {
        Some(
            choose|k: int|
                0 <= k < conns.len() && conns[k] == id && forall|j: int|
                    0 <= j < k ==> #[trigger] conns[j] != id,
        )
    } else {
        None
    }
}

/// `msg` to each member in order, skipping `except` and identities that are
/// not registered.
pub open spec fn fanout(
    members: Seq<UserView>,
    conns: Seq<Seq<char>>,
    except: Option<Seq<char>>,
    msg: MsgView,
) -> Outbox
    decreases members.len(),
{
    if members.len() == 0 {
        Seq::empty()
    } else {
        let prev = fanout(members.drop_last(), conns, except, msg);
        let id = members.last().id;
        if conns.contains(id) && except != Some(id) {
            prev.push((id, msg))
        } else {
            prev
        }
    }
}

/// Each member's streaming flag set to whether it is `streamer`.
pub open spec fn with_streamer(users: Seq<UserView>, streamer: Option<Seq<char>>) -> Seq<UserView> {
    users.map_values(
        |u: UserView| UserView { id: u.id, room: u.room, is_streaming: streamer == Some(u.id) },
    )
}

pub open spec fn leave_spec(s: ServerView, id: Seq<char>) -> (ServerView, Outbox) {
    match room_of(s.rooms, id) {
        None => (s, Seq::empty()),
        Some(ri) => {
            let room = s.rooms[ri];
            let rest = room.users.remove(first_user(room.users, id)->0);
            let was = room.streamer == Some(id);
            let stopped = if was {
                fanout(rest, s.connections, None, MsgView::StreamStopped { user_id: id })
            } else {
                Seq::empty()
            };
            let left = fanout(rest, s.connections, None, MsgView::UserLeft { user_id: id });
            let rooms = if rest.len() == 0 {
                s.rooms.remove(ri)
            } else {
                s.rooms.update(
                    ri,
                    RoomView {
                        name: room.name,
                        users: rest,
                        streamer: if was {
                            None
                        } else {
                            room.streamer
                        },
                    },
                )
            };
            (ServerView { rooms, connections: s.connections }, stopped + left)
        },
    }
}

/// The member record that joining `name` puts in the room.
pub open spec fn joiner(id: Seq<char>, name: Seq<char>) -> UserView {
    UserView { id, room: Some(name), is_streaming: false }
}

/// The room that `id` is in after joining `name` from state `s`, in which
/// `id` is in no room.
pub open spec fn joined_room(s: ServerView, id: Seq<char>, name: Seq<char>) -> RoomView {
    match room_named(s.rooms, name) {
        None => RoomView { name, users: seq![joiner(id, name)], streamer: None },
        Some(ri) => RoomView {
            name: s.rooms[ri].name,
            users: s.rooms[ri].users.push(joiner(id, name)),
            streamer: s.rooms[ri].streamer,
        },
    }
}

/// Entering `name` from state `s`, in which `id` is in no room.
pub open spec fn enter_spec(s: ServerView, id: Seq<char>, name: Seq<char>) -> (ServerView, Outbox) {
    let room = joined_room(s, id, name);
    let rooms = match room_named(s.rooms, name) {
        None => s.rooms.push(room),
        Some(ri) => s.rooms.update(ri, room),
    };
    let confirm = if s.connections.contains(id) {
        seq![(id, MsgView::RoomJoined { room_name: name, users: room.users, streamer: room.streamer })]
    } else {
        Seq::empty()
    };
    let notify = fanout(
        room.users,
        s.connections,
        Some(id),
        MsgView::UserJoined { user: joiner(id, name) },
    );
    (ServerView { rooms, connections: s.connections }, confirm + notify)
}

pub open spec fn join_spec(s: ServerView, id: Seq<char>, name: Seq<char>) -> (ServerView, Outbox) {
    let (s1, gone) = leave_spec(s, id);
    let (s2, entered) = enter_spec(s1, id, name);
    (s2, gone + entered)
}

pub open spec fn start_spec(s: ServerView, id: Seq<char>) -> (ServerView, Outbox) {
    match room_of(s.rooms, id) {
        None => (s, Seq::empty()),
        Some(ri) => {
            let room = s.rooms[ri];
            let users = with_streamer(room.users, Some(id));
            let rooms = s.rooms.update(
                ri,
                RoomView { name: room.name, users, streamer: Some(id) },
            );
            (
                ServerView { rooms, connections: s.connections },
                fanout(users, s.connections, None, MsgView::StreamStarted { user_id: id }),
            )
        },
    }
}

pub open spec fn stop_spec(s: ServerView, id: Seq<char>) -> (ServerView, Outbox) {
    match room_of(s.rooms, id) {
        None => (s, Seq::empty()),
        Some(ri) => {
            let room = s.rooms[ri];
            if room.streamer != Some(id) {
                (s, Seq::empty())
            } else {
                let users = with_streamer(room.users, None);
                let rooms = s.rooms.update(
                    ri,
                    RoomView { name: room.name, users, streamer: None },
                );
                (
                    ServerView { rooms, connections: s.connections },
                    fanout(users, s.connections, None, MsgView::StreamStopped { user_id: id }),
                )
            }
        },
    }
}

pub open spec fn chat_spec(s: ServerView, id: Seq<char>, content: Seq<char>) -> Outbox {
    match room_of(s.rooms, id) {
        None => Seq::empty(),
        Some(ri) => fanout(
            s.rooms[ri].users,
            s.connections,
            Some(id),
            MsgView::ChatMessage { user_id: id, content },
        ),
    }
}

pub open spec fn signal_spec(
    s: ServerView,
    id: Seq<char>,
    target: Seq<char>,
    signal: serde_json::Value,
) -> Outbox {
    if s.connections.contains(target) {
        seq![(target, MsgView::WebRTCSignal { from_user: id, signal })]
    } else {
        Seq::empty()
    }
}

/// What handling one client message from `id` does.
pub open spec fn handle_spec(s: ServerView, id: Seq<char>, m: ClientView) -> (ServerView, Outbox) {
    match m {
        ClientView::JoinRoom { room_name } => join_spec(s, id, room_name),
        ClientView::LeaveRoom => leave_spec(s, id),
        ClientView::StartStream => start_spec(s, id),
        ClientView::StopStream => stop_spec(s, id),
        ClientView::ChatMessage { content } => (s, chat_spec(s, id, content)),
        ClientView::WebRTCSignal { target_user, signal } => (
            s,
            signal_spec(s, id, target_user, signal),
        ),
    }
}

pub open spec fn deregister_spec(s: ServerView, id: Seq<char>) -> ServerView {
    match first_conn(s.connections, id) {
        None => s,
        Some(k) => ServerView { rooms: s.rooms, connections: s.connections.remove(k) },
    }
}

/// The single cleanup path of a closed connection: leave, then deregister.
pub open spec fn cleanup_spec(s: ServerView, id: Seq<char>) -> (ServerView, Outbox) {
    let (s1, out) = leave_spec(s, id);
    (deregister_spec(s1, id), out)
}

pub open spec fn unique_ids(users: Seq<UserView>) -> bool {
    forall|a: int, b: int|
        0 <= a < users.len() && 0 <= b < users.len() && #[trigger] users[a].id
            == #[trigger] users[b].id ==> a == b
}

/// A room as the table may hold it: not empty, members unique and in
/// lockstep with the room, and a streamer that is a member and the only one
/// flagged as streaming.
pub open spec fn room_wf(r: RoomView) -> bool {
    &&& r.users.len() > 0
    &&& unique_ids(r.users)
    &&& forall|k: int|
        0 <= k < r.users.len() ==> (#[trigger] r.users[k]).room == Some(r.name) && (
        r.users[k].is_streaming <==> r.streamer == Some(r.users[k].id))
    &&& r.streamer is Some ==> has_user(r.users, r.streamer->0)
}

impl ServerView {
    /// The invariant of the relay's state.
    pub open spec fn wf(self) -> bool {
        &&& forall|i: int| 0 <= i < self.rooms.len() ==> room_wf(#[trigger] self.rooms[i])
        &&& forall|i: int, j: int|
            0 <= i < self.rooms.len() && 0 <= j < self.rooms.len() && #[trigger] self.rooms[i].name
                == #[trigger] self.rooms[j].name ==> i == j
        &&& forall|i: int, j: int, id: Seq<char>|
            0 <= i < self.rooms.len() && 0 <= j < self.rooms.len() && #[trigger] has_user(
                self.rooms[i].users,
                id,
            ) && #[trigger] has_user(self.rooms[j].users, id) ==> i == j
        &&& forall|a: int, b: int|
            0 <= a < self.connections.len() && 0 <= b < self.connections.len()
                && #[trigger] self.connections[a] == #[trigger] self.connections[b] ==> a == b
    }
}

} // verus!
