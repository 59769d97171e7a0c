//! The relay's state and the operations of the session coordinator.

use vstd::prelude::*;
use crate::identity::fresh_identity;
use crate::message::{deliveries_view, ClientMessage, Delivery, MsgView, ServerMessage};
use crate::model::{copy_opt, copy_users, opt_ref, opt_str, users_view, Room, RoomView, User, UserView};
use crate::laws::{
    lemma_cleanup_wf, lemma_deregister_wf, lemma_handle_wf, lemma_join_wf, lemma_leave_wf,
    lemma_register_wf, lemma_start_wf, lemma_stop_wf,
};
use crate::protocol::{
    cleanup_spec, deregister_spec, fanout, first_conn, first_user, handle_spec, has_room, has_user,
    in_some_room, join_spec, with_streamer, joined_room, joiner, enter_spec, chat_spec, signal_spec, leave_spec, room_named, room_of, start_spec, stop_spec, ServerView,
};

verus! {

pub open spec fn rooms_view(v: Seq<Room>) -> Seq<RoomView> {
    v.map_values(|r: Room| r@)
}

pub open spec fn conns_view(v: Seq<String>) -> Seq<Seq<char>> {
    v.map_values(|s: String| s@)
}

/// The position of `id` among `users`, the first one.
fn find_user(users: &Vec<User>, id: &String) -> (r: Option<usize>)
    ensures
        match r {
            Some(k) => first_user(users_view(users@), id@) == Some(k as int) && k < users@.len()
                && users@[k as int].id@ == id@,
            None => first_user(users_view(users@), id@) is None && !has_user(
                users_view(users@),
                id@,
            ),
        },
{
    let ghost uv = users_view(users@);
    let mut i: usize = 0;
    while i < users.len()
        invariant
            i <= users.len(),
            uv == users_view(users@),
            forall|j: int| 0 <= j < i ==> #[trigger] uv[j].id != id@,
        decreases users.len() - i,
    {
        if users[i].id == *id {
            proof {
                assert(uv[i as int].id == id@);
                assert(has_user(uv, id@));
                let c = choose|k: int|
                    0 <= k < uv.len() && #[trigger] uv[k].id == id@ && forall|j: int|
                        0 <= j < k ==> #[trigger] uv[j].id != id@;
                assert(c == i as int);
            }
            return Some(i);
        }
        i = i + 1;
    }
    None
}

/// The room that holds `id` as a member, the first one.
fn find_room_of(rooms: &Vec<Room>, id: &String) -> (r: Option<usize>)
    ensures
        match r {
            Some(k) => room_of(rooms_view(rooms@), id@) == Some(k as int) && k < rooms@.len()
                && has_user(rooms_view(rooms@)[k as int].users, id@),
            None => room_of(rooms_view(rooms@), id@) is None,
        },
{
    let ghost rv = rooms_view(rooms@);
    let mut i: usize = 0;
    while i < rooms.len()
        invariant
            i <= rooms.len(),
            rv == rooms_view(rooms@),
            forall|j: int| 0 <= j < i ==> !has_user(#[trigger] rv[j].users, id@),
        decreases rooms.len() - i,
    {
        let found = find_user(&rooms[i].users, id);
        assert(rv[i as int].users == users_view(rooms@[i as int].users@));
        if found.is_some() {
            proof {
                assert(has_user(rv[i as int].users, id@));
                assert(in_some_room(rv, id@));
                let c = choose|k: int|
                    0 <= k < rv.len() && has_user(#[trigger] rv[k].users, id@) && forall|j: int|
                        0 <= j < k ==> !has_user(#[trigger] rv[j].users, id@);
                assert(c == i as int);
            }
            return Some(i);
        }
        i = i + 1;
    }
    None
}

/// The room called `name`, the first one.
fn find_room_named(rooms: &Vec<Room>, name: &String) -> (r: Option<usize>)
    ensures
        match r {
            Some(k) => room_named(rooms_view(rooms@), name@) == Some(k as int) && k < rooms@.len(),
            None => room_named(rooms_view(rooms@), name@) is None && !has_room(
                rooms_view(rooms@),
                name@,
            ),
        },
{
    let ghost rv = rooms_view(rooms@);
    let mut i: usize = 0;
    while i < rooms.len()
        invariant
            i <= rooms.len(),
            rv == rooms_view(rooms@),
            forall|j: int| 0 <= j < i ==> #[trigger] rv[j].name != name@,
        decreases rooms.len() - i,
    {
        if rooms[i].name == *name {
            proof {
                assert(rv[i as int].name == name@);
                assert(has_room(rv, name@));
                let c = choose|k: int|
                    0 <= k < rv.len() && #[trigger] rv[k].name == name@ && forall|j: int|
                        0 <= j < k ==> #[trigger] rv[j].name != name@;
                assert(c == i as int);
            }
            return Some(i);
        }
        i = i + 1;
    }
    None
}

/// The position of `id` in the registry, the first one.
fn find_conn(conns: &Vec<String>, id: &String) -> (r: Option<usize>)
    ensures
        match r {
            Some(k) => first_conn(conns_view(conns@), id@) == Some(k as int) && k < conns@.len(),
            None => first_conn(conns_view(conns@), id@) is None && !conns_view(conns@).contains(id@),
        },
{
    let ghost cv = conns_view(conns@);
    let mut i: usize = 0;
    while i < conns.len()
        invariant
            i <= conns.len(),
            cv == conns_view(conns@),
            forall|j: int| 0 <= j < i ==> #[trigger] cv[j] != id@,
        decreases conns.len() - i,
    {
        if conns[i] == *id {
            proof {
                assert(cv[i as int] == id@);
                assert(cv.contains(id@));
                let c = choose|k: int|
                    0 <= k < cv.len() && cv[k] == id@ && forall|j: int|
                        0 <= j < k ==> #[trigger] cv[j] != id@;
                assert(c == i as int);
            }
            return Some(i);
        }
        i = i + 1;
    }
    proof {
        if cv.contains(id@) {
            let k = choose|k: int| 0 <= k < cv.len() && cv[k] == id@;
            assert(cv[k] != id@);
        }
    }
    None
}

/// Appends `msg` for each member of `members`, in order, that is registered
/// and is not `except`.
fn broadcast_to_room(
    members: &Vec<User>,
    conns: &Vec<String>,
    except: Option<&String>,
    msg: &ServerMessage,
    out: &mut Vec<Delivery>,
)
    ensures
        deliveries_view(final(out)@) == deliveries_view(old(out)@) + fanout(
            users_view(members@),
            conns_view(conns@),
            opt_ref(except),
            msg@,
        ),
{
    let ghost uv = users_view(members@);
    let ghost cv = conns_view(conns@);
    let ghost start = deliveries_view(out@);
    let mut i: usize = 0;
    while i < members.len()
        invariant
            i <= members.len(),
            uv == users_view(members@),
            cv == conns_view(conns@),
            deliveries_view(out@) == start + fanout(uv.take(i as int), cv, opt_ref(except), msg@),
        decreases members.len() - i,
    {
        let ghost before = out@;
        assert(uv.take(i + 1).drop_last() =~= uv.take(i as int));
        let registered = find_conn(conns, &members[i].id);
        let skipped = match except {
            Some(e) => members[i].id == *e,
            None => false,
        };
        if registered.is_some() && !skipped {
            out.push(Delivery { to: members[i].id.clone(), message: msg.duplicate() });
            assert(deliveries_view(out@) =~= deliveries_view(before).push(out@.last()@));
        } else {
            proof {
                if cv.contains(uv[i as int].id) {
                    let k = choose|k: int| 0 <= k < cv.len() && cv[k] == uv[i as int].id;
                    assert(first_conn(cv, uv[i as int].id) is Some);
                }
            }
        }
        i = i + 1;
    }
    assert(uv.take(members.len() as int) =~= uv);
}

/// Each member copied with its streaming flag set to whether it is `streamer`.
fn mark_streaming(users: &Vec<User>, streamer: Option<&String>) -> (r: Vec<User>)
    ensures
        users_view(r@) == with_streamer(users_view(users@), opt_ref(streamer)),
{
    let mut r: Vec<User> = Vec::new();
    let mut i: usize = 0;
    while i < users.len()
        invariant
            i <= users.len(),
            r@.len() == i,
            forall|k: int|
                0 <= k < i ==> #[trigger] r@[k]@ == (UserView {
                    id: users@[k].id@,
                    room: opt_str(users@[k].room),
                    is_streaming: opt_ref(streamer) == Some(users@[k].id@),
                }),
        decreases users.len() - i,
    {
        let flag = match streamer {
            Some(s) => users[i].id == *s,
            None => false,
        };
        r.push(User { id: users[i].id.clone(), room: copy_opt(&users[i].room), is_streaming: flag });
        i = i + 1;
    }
    assert(users_view(r@) =~= with_streamer(users_view(users@), opt_ref(streamer)));
    r
}

/// Registration refused.
#[derive(Debug, Clone, Copy, PartialEq, Eq, Structural)]
pub enum RegistryError {
    /// The identity is registered already.
    DuplicateIdentity,
}

/// The room table and the registry of reachable identities.
pub struct Server {
    rooms: Vec<Room>,
    connections: Vec<String>,
}

impl View for Server {
    type V = ServerView;

    closed spec fn view(&self) -> ServerView {
        ServerView { rooms: rooms_view(self.rooms@), connections: conns_view(self.connections@) }
    }
}

impl Server {
    /// No rooms and no registered identities.
    pub fn new() -> (r: Server)
        ensures
            r@.rooms.len() == 0,
            r@.connections.len() == 0,
            r@.wf(),
    {
        Server { rooms: Vec::new(), connections: Vec::new() }
    }

    /// The room table, in order of creation.
    pub fn rooms(&self) -> (r: &Vec<Room>)
        ensures
            rooms_view(r@) == self@.rooms,
    {
        &self.rooms
    }

    /// The room called `name`, if the table holds one.
    pub fn room(&self, name: &String) -> (r: Option<&Room>)
        ensures
            match r {
                Some(room) => has_room(self@.rooms, name@) && room@ == self@.rooms[room_named(
                    self@.rooms,
                    name@,
                )->0],
                None => !has_room(self@.rooms, name@),
            },
    {
        match find_room_named(&self.rooms, name) {
            Some(i) => Some(&self.rooms[i]),
            None => None,
        }
    }

    /// Whether `id` is registered, that is reachable.
    pub fn is_registered(&self, id: &String) -> (r: bool)
        ensures
            r == self@.connections.contains(id@),
    {
        let found = find_conn(&self.connections, id);
        proof {
            if self@.connections.contains(id@) {
                let k = choose|k: int| 0 <= k < self@.connections.len() && self@.connections[k] == id@;
            }
        }
        found.is_some()
    }

    /// Registers `id`; an identity that is registered already is refused.
    pub fn register(&mut self, id: String) -> (r: Result<(), RegistryError>)
        ensures
            old(self)@.connections.contains(id@) ==> r == Err::<(), RegistryError>(
                RegistryError::DuplicateIdentity,
            ) && final(self)@ == old(self)@,
            !old(self)@.connections.contains(id@) ==> r is Ok && final(self)@ == (ServerView {
                rooms: old(self)@.rooms,
                connections: old(self)@.connections.push(id@),
            }),
            old(self)@.wf() ==> final(self)@.wf(),
    {
        proof {
            if old(self)@.wf() && !old(self)@.connections.contains(id@) {
                lemma_register_wf(old(self)@, id@);
            }
        }
        if self.is_registered(&id) {
            return Err(RegistryError::DuplicateIdentity);
        }
        let ghost before = self.connections@;
        self.connections.push(id);
        assert(conns_view(self.connections@) =~= conns_view(before).push(id@));
        Ok(())
    }

    /// Removes `id` from the registry if it is there.
    pub fn deregister(&mut self, id: &String)
        ensures
            final(self)@ == deregister_spec(old(self)@, id@),
            old(self)@.wf() ==> final(self)@.wf(),
    {
        proof {
            if old(self)@.wf() {
                lemma_deregister_wf(old(self)@, id@);
            }
        }
        match find_conn(&self.connections, id) {
            Some(k) => {
                let ghost before = self.connections@;
                self.connections.remove(k);
                assert(conns_view(self.connections@) =~= conns_view(before).remove(k as int));
            },
            None => {},
        }
    }

    /// Accepts a connection: draws a fresh random identity and registers it.
    /// Only a draw that is registered already fails, so with an empty
    /// registry it succeeds.
    pub fn connect(&mut self) -> (r: Result<String, RegistryError>)
        ensures
            match r {
                Ok(id) => id@.len() == 36 && !old(self)@.connections.contains(id@) && final(self)@ == (
                ServerView {
                    rooms: old(self)@.rooms,
                    connections: old(self)@.connections.push(id@),
                }),
                Err(e) => e == RegistryError::DuplicateIdentity && final(self)@ == old(self)@,
            },
            r is Err ==> old(self)@.connections.len() > 0,
            old(self)@.wf() ==> final(self)@.wf(),
    {
        let id = fresh_identity();
        match self.register(id.clone()) {
            Ok(()) => Ok(id),
            Err(e) => Err(e),
        }
    }

    /// Takes `id` out of its room, tells the remaining members, and deletes
    /// the room if it is left empty.
    #[verifier::rlimit(40)]
    pub fn leave_room(&mut self, id: &String) -> (out: Vec<Delivery>)
        ensures
            (final(self)@, deliveries_view(out@)) == leave_spec(old(self)@, id@),
            old(self)@.wf() ==> final(self)@.wf(),
    {
        proof {
            if old(self)@.wf() {
                lemma_leave_wf(old(self)@, id@);
            }
        }
        let ghost s = self@;
        let mut out: Vec<Delivery> = Vec::new();
        match find_room_of(&self.rooms, id) {
            None => {
                assert(deliveries_view(out@) =~= Seq::empty());
                out
            },
            Some(ri) => {
                let ghost rv = rooms_view(self.rooms@);
                let ghost room_v = rv[ri as int];
                let room = self.rooms.remove(ri);
                assert(room@ == room_v);
                assert(rooms_view(self.rooms@) =~= rv.remove(ri as int));
                let Room { name, users, streamer } = room;
                let mut rest = users;
                let ui = match find_user(&rest, id) {
                    Some(ui) => ui,
                    None => {
                        assert(false);
                        return out;
                    },
                };
                let ghost uv = users_view(rest@);
                assert(uv == room_v.users);
                rest.remove(ui);
                let ghost rest_v = room_v.users.remove(ui as int);
                assert(users_view(rest@) =~= rest_v);
                let was = match &streamer {
                    Some(st) => *st == *id,
                    None => false,
                };
                assert(was == (room_v.streamer == Some(id@)));
                let ghost stopped = if was {
                    fanout(rest_v, s.connections, None, MsgView::StreamStopped { user_id: id@ })
                } else {
                    Seq::empty()
                };
                let ghost left = fanout(rest_v, s.connections, None, MsgView::UserLeft { user_id: id@ });
                assert(deliveries_view(out@) =~= Seq::empty());
                if was {
                    broadcast_to_room(
                        &rest,
                        &self.connections,
                        None,
                        &ServerMessage::StreamStopped { user_id: id.clone() },
                        &mut out,
                    );
                }
                broadcast_to_room(
                    &rest,
                    &self.connections,
                    None,
                    &ServerMessage::UserLeft { user_id: id.clone() },
                    &mut out,
                );
                assert(deliveries_view(out@) =~= stopped + left);
                if rest.len() > 0 {
                    let kept = if was {
                        None
                    } else {
                        streamer
                    };
                    self.rooms.insert(ri, Room { name, users: rest, streamer: kept });
                    assert(rooms_view(self.rooms@) =~= rv.update(ri as int, self.rooms@[ri as int]@));
                }
                out
            },
        }
    }

    /// Puts `id`, which is in no room, into `name`, creating the room if
    /// there is none of that name. The joiner is confirmed first, with the
    /// member list and streamer; the other members are told after.
    #[verifier::rlimit(40)]
    fn enter_room(&mut self, id: &String, name: &String) -> (out: Vec<Delivery>)
        ensures
            (final(self)@, deliveries_view(out@)) == enter_spec(old(self)@, id@, name@),
    {
        let ghost s1 = self@;
        let mut out: Vec<Delivery> = Vec::new();
        let me = User { id: id.clone(), room: Some(name.clone()), is_streaming: false };
        assert(me@ == joiner(id@, name@));
        let ghost named = room_named(s1.rooms, name@);
        let ri = match find_room_named(&self.rooms, name) {
            Some(ri) => ri,
            None => {
                self.rooms.push(Room { name: name.clone(), users: Vec::new(), streamer: None });
                assert(rooms_view(self.rooms@) =~= s1.rooms.push(self.rooms@.last()@));
                self.rooms.len() - 1
            },
        };
        let ghost rv = rooms_view(self.rooms@);
        let mut room = self.rooms.remove(ri);
        assert(rooms_view(self.rooms@) =~= rv.remove(ri as int));
        let ghost uv = users_view(room.users@);
        room.users.push(me.snapshot());
        assert(users_view(room.users@) =~= uv.push(joiner(id@, name@)));
        let ghost jr = joined_room(s1, id@, name@);
        proof {
            match named {
                None => {
                    assert(uv =~= Seq::<UserView>::empty());
                    assert(jr.users =~= uv.push(joiner(id@, name@)));
                },
                Some(i) => {
                    assert(i == ri as int);
                    assert(rv[i] == s1.rooms[i]);
                },
            }
        }
        assert(room@ == jr);
        if self.is_registered(id) {
            out.push(
                Delivery {
                    to: id.clone(),
                    message: ServerMessage::RoomJoined {
                        room_name: name.clone(),
                        users: copy_users(&room.users),
                        streamer: copy_opt(&room.streamer),
                    },
                },
            );
        }
        let ghost confirmed = deliveries_view(out@);
        proof {
            let confirm = if s1.connections.contains(id@) {
                seq![
                    (id@, MsgView::RoomJoined {
                        room_name: name@,
                        users: jr.users,
                        streamer: jr.streamer,
                    }),
                ]
            } else {
                Seq::empty()
            };
            assert(confirmed =~= confirm);
        }
        broadcast_to_room(
            &room.users,
            &self.connections,
            Some(id),
            &ServerMessage::UserJoined { user: me },
            &mut out,
        );
        self.rooms.insert(ri, room);
        proof {
            let rooms = match named {
                None => s1.rooms.push(jr),
                Some(i) => s1.rooms.update(i, jr),
            };
            assert(rooms_view(self.rooms@) =~= rooms);
        }
        out
    }

    /// Leaves the current room if any, then joins `name`, creating the room
    /// if there is none of that name. The joiner is confirmed first, with the
    /// member list and streamer; the other members are told after.
    pub fn join_room(&mut self, id: &String, name: &String) -> (out: Vec<Delivery>)
        ensures
            (final(self)@, deliveries_view(out@)) == join_spec(old(self)@, id@, name@),
            old(self)@.wf() ==> final(self)@.wf(),
    {
        proof {
            if old(self)@.wf() {
                lemma_join_wf(old(self)@, id@, name@);
            }
        }
        let mut out = self.leave_room(id);
        let ghost gone = deliveries_view(out@);
        let mut entered = self.enter_room(id, name);
        let ghost ev = deliveries_view(entered@);
        out.append(&mut entered);
        assert(deliveries_view(out@) =~= gone + ev);
        out
    }

    /// Makes `id` the streamer of its room, demoting any other, and tells
    /// every member of the room, `id` included.
    pub fn start_stream(&mut self, id: &String) -> (out: Vec<Delivery>)
        ensures
            (final(self)@, deliveries_view(out@)) == start_spec(old(self)@, id@),
            old(self)@.wf() ==> final(self)@.wf(),
    {
        proof {
            if old(self)@.wf() {
                lemma_start_wf(old(self)@, id@);
            }
        }
        let ghost s = self@;
        let mut out: Vec<Delivery> = Vec::new();
        match find_room_of(&self.rooms, id) {
            None => {
                assert(deliveries_view(out@) =~= Seq::empty());
                out
            },
            Some(ri) => {
                let users = mark_streaming(&self.rooms[ri].users, Some(id));
                broadcast_to_room(
                    &users,
                    &self.connections,
                    None,
                    &ServerMessage::StreamStarted { user_id: id.clone() },
                    &mut out,
                );
                let name = self.rooms[ri].name.clone();
                self.rooms.remove(ri);
                self.rooms.insert(ri, Room { name, users, streamer: Some(id.clone()) });
                assert(rooms_view(self.rooms@) =~= s.rooms.update(ri as int, self.rooms@[ri as int]@));
                assert(deliveries_view(out@) =~= start_spec(s, id@).1);
                out
            },
        }
    }

    /// Ends the stream of `id`, if it is its room's streamer, and tells every
    /// member of the room. Anyone else's request changes nothing.
    #[verifier::rlimit(80)]
    pub fn stop_stream(&mut self, id: &String) -> (out: Vec<Delivery>)
        ensures
            (final(self)@, deliveries_view(out@)) == stop_spec(old(self)@, id@),
            old(self)@.wf() ==> final(self)@.wf(),
    {
        proof {
            if old(self)@.wf() {
                lemma_stop_wf(old(self)@, id@);
            }
        }
        let ghost s = self@;
        let mut out: Vec<Delivery> = Vec::new();
        assert(deliveries_view(out@) =~= Seq::empty());
        match find_room_of(&self.rooms, id) {
            None => out,
            Some(ri) => {
                let is_streamer = match &self.rooms[ri].streamer {
                    Some(st) => *st == *id,
                    None => false,
                };
                assert(is_streamer == (s.rooms[ri as int].streamer == Some(id@)));
                if !is_streamer {
                    return out;
                }
                assert(self@.rooms[ri as int].users == users_view(self.rooms@[ri as int].users@));
                let users = mark_streaming(&self.rooms[ri].users, None);
                broadcast_to_room(
                    &users,
                    &self.connections,
                    None,
                    &ServerMessage::StreamStopped { user_id: id.clone() },
                    &mut out,
                );
                let name = self.rooms[ri].name.clone();
                self.rooms.remove(ri);
                self.rooms.insert(ri, Room { name, users, streamer: None });
                assert(rooms_view(self.rooms@) =~= s.rooms.update(ri as int, self.rooms@[ri as int]@));
                assert(deliveries_view(out@) =~= stop_spec(s, id@).1);
                out
            },
        }
    }

    /// Relays chat text from `id` to the other members of its room.
    #[verifier::rlimit(40)]
    pub fn chat(&self, id: &String, content: String) -> (out: Vec<Delivery>)
        ensures
            deliveries_view(out@) == chat_spec(self@, id@, content@),
    {
        let mut out: Vec<Delivery> = Vec::new();
        assert(deliveries_view(out@) =~= Seq::empty());
        match find_room_of(&self.rooms, id) {
            None => out,
            Some(ri) => {
                assert(self@.rooms[ri as int].users == users_view(self.rooms@[ri as int].users@));
                broadcast_to_room(
                    &self.rooms[ri].users,
                    &self.connections,
                    Some(id),
                    &ServerMessage::ChatMessage { user_id: id.clone(), content },
                    &mut out,
                );
                assert(deliveries_view(out@) =~= chat_spec(self@, id@, content@));
                out
            },
        }
    }

    /// Relays an opaque negotiation payload from `id` to `target` alone; to
    /// an identity that is not registered nothing is delivered.
    pub fn relay_signal(&self, id: &String, target: String, signal: serde_json::Value) -> (out: Vec<
        Delivery,
    >)
        ensures
            deliveries_view(out@) == signal_spec(self@, id@, target@, signal),
    {
        let mut out: Vec<Delivery> = Vec::new();
        if self.is_registered(&target) {
            out.push(
                Delivery {
                    to: target,
                    message: ServerMessage::WebRTCSignal { from_user: id.clone(), signal },
                },
            );
        }
        assert(deliveries_view(out@) =~= signal_spec(self@, id@, target@, signal));
        out
    }

    /// Handles one message from the client `id`: changes the state and
    /// returns the deliveries to make, in order.
    pub fn handle_client_message(&mut self, id: &String, message: ClientMessage) -> (out: Vec<
        Delivery,
    >)
        ensures
            (final(self)@, deliveries_view(out@)) == handle_spec(old(self)@, id@, message@),
            old(self)@.wf() ==> final(self)@.wf(),
    {
        proof {
            if old(self)@.wf() {
                lemma_handle_wf(old(self)@, id@, message@);
            }
        }
        match message {
            ClientMessage::JoinRoom { room_name } => self.join_room(id, &room_name),
            ClientMessage::LeaveRoom => self.leave_room(id),
            ClientMessage::StartStream => self.start_stream(id),
            ClientMessage::StopStream => self.stop_stream(id),
            ClientMessage::ChatMessage { content } => self.chat(id, content),
            ClientMessage::WebRTCSignal { target_user, signal } => self.relay_signal(
                id,
                target_user,
                signal,
            ),
        }
    }

    /// The single cleanup path of a closed connection: leaves the room, with
    /// its notices, then deregisters `id`.
    pub fn cleanup_user(&mut self, id: &String) -> (out: Vec<Delivery>)
        ensures
            (final(self)@, deliveries_view(out@)) == cleanup_spec(old(self)@, id@),
            old(self)@.wf() ==> final(self)@.wf(),
    {
        proof {
            if old(self)@.wf() {
                lemma_cleanup_wf(old(self)@, id@);
            }
        }
        let out = self.leave_room(id);
        self.deregister(id);
        out
    }
}

} // verus!
