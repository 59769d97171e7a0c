//! Properties of the protocol that hold across operations, proved over the
//! spec functions that the operations' contracts use.

use vstd::prelude::*;
use crate::message::{ClientView, MsgView};
use crate::model::{RoomView, UserView};
use crate::protocol::{
    cleanup_spec, deregister_spec, enter_spec, fanout, first_user, handle_spec, has_room,
    has_user, in_some_room, join_spec, joined_room, joiner, leave_spec, room_named, room_of,
    room_wf, start_spec, with_streamer, stop_spec, unique_ids, ServerView,
};

verus! {

/// Every delivery of a fan-out carries its message to a registered member
/// other than the excluded one.
pub proof fn lemma_fanout_entries(
    members: Seq<UserView>,
    conns: Seq<Seq<char>>,
    except: Option<Seq<char>>,
    msg: MsgView,
)
    ensures
        forall|k: int|
            0 <= k < fanout(members, conns, except, msg).len() ==> {
                let d = #[trigger] fanout(members, conns, except, msg)[k];
                &&& d.1 == msg
                &&& conns.contains(d.0)
                &&& except != Some(d.0)
                &&& has_user(members, d.0)
            },
    decreases members.len(),
{
    if members.len() > 0 {
        let prev = members.drop_last();
        lemma_fanout_entries(prev, conns, except, msg);
        assert forall|k: int| 0 <= k < fanout(members, conns, except, msg).len() implies has_user(
            members,
            #[trigger] fanout(members, conns, except, msg)[k].0,
        ) by {
            let f = fanout(prev, conns, except, msg);
            if k < f.len() {
                let j = choose|j: int| 0 <= j < prev.len() && #[trigger] prev[j].id == f[k].0;
                assert(members[j].id == f[k].0);
            } else {
                assert(members[members.len() - 1].id == members.last().id);
            }
        }
    }
}

/// A fan-out reaches every registered member other than the excluded one.
pub proof fn lemma_fanout_reaches(
    members: Seq<UserView>,
    conns: Seq<Seq<char>>,
    except: Option<Seq<char>>,
    msg: MsgView,
    k: int,
)
    requires
        0 <= k < members.len(),
        conns.contains(members[k].id),
        except != Some(members[k].id),
    ensures
        fanout(members, conns, except, msg).contains((members[k].id, msg)),
    decreases members.len(),
{
    let f = fanout(members, conns, except, msg);
    if k == members.len() - 1 {
        assert(f[f.len() - 1] == (members[k].id, msg));
    } else {
        let prev = members.drop_last();
        lemma_fanout_reaches(prev, conns, except, msg, k);
        let g = fanout(prev, conns, except, msg);
        let i = choose|i: int| 0 <= i < g.len() && g[i] == (members[k].id, msg);
        assert(f[i] == g[i]);
    }
}

/// Over members with distinct identities a fan-out reaches each at most once.
pub proof fn lemma_fanout_once(
    members: Seq<UserView>,
    conns: Seq<Seq<char>>,
    except: Option<Seq<char>>,
    msg: MsgView,
)
    requires
        unique_ids(members),
    ensures
        forall|p: int, q: int|
            0 <= p < fanout(members, conns, except, msg).len() && 0 <= q < fanout(
                members,
                conns,
                except,
                msg,
            ).len() && #[trigger] fanout(members, conns, except, msg)[p].0 == #[trigger] fanout(
                members,
                conns,
                except,
                msg,
            )[q].0 ==> p == q,
    decreases members.len(),
{
    if members.len() > 0 {
        let prev = members.drop_last();
        assert(unique_ids(prev)) by {
            assert forall|a: int, b: int|
                0 <= a < prev.len() && 0 <= b < prev.len() && #[trigger] prev[a].id
                    == #[trigger] prev[b].id implies a == b by {
                assert(members[a].id == members[b].id);
            }
        }
        lemma_fanout_once(prev, conns, except, msg);
        lemma_fanout_entries(prev, conns, except, msg);
        let g = fanout(prev, conns, except, msg);
        let f = fanout(members, conns, except, msg);
        if f.len() > g.len() {
            assert forall|p: int| 0 <= p < g.len() implies #[trigger] g[p].0 != members.last().id by {
                if g[p].0 == members.last().id {
                    let j = choose|j: int| 0 <= j < prev.len() && #[trigger] prev[j].id == g[p].0;
                    assert(members[j].id == members[members.len() - 1].id);
                }
            }
        }
    }
}

/// Joining confirms to a registered joiner, with a member list that holds
/// it, before any notice that someone joined is delivered.
pub proof fn lemma_join_confirms_first(s: ServerView, id: Seq<char>, name: Seq<char>)
    requires
        s.connections.contains(id),
    ensures
        ({
            let (s1, gone) = leave_spec(s, id);
            let out = join_spec(s, id, name).1;
            let room = joined_room(s1, id, name);
            &&& out[gone.len() as int] == (id, MsgView::RoomJoined {
                room_name: name,
                users: room.users,
                streamer: room.streamer,
            })
            &&& has_user(room.users, id)
            &&& forall|q: int|
                0 <= q < out.len() && (#[trigger] out[q]).1 is UserJoined ==> q > gone.len()
        }),
{
    let (s1, gone) = leave_spec(s, id);
    let out = join_spec(s, id, name).1;
    let room = joined_room(s1, id, name);
    assert(room.users[room.users.len() - 1].id == id);
    match room_of(s.rooms, id) {
        None => {},
        Some(ri) => {
            let r = s.rooms[ri];
            let rest = r.users.remove(first_user(r.users, id)->0);
            lemma_fanout_entries(rest, s.connections, None, MsgView::StreamStopped { user_id: id });
            lemma_fanout_entries(rest, s.connections, None, MsgView::UserLeft { user_id: id });
        },
    }
    assert forall|q: int| 0 <= q < out.len() && (#[trigger] out[q]).1 is UserJoined implies q
        > gone.len() by {
        if q < gone.len() {
            assert(out[q] == gone[q]);
        }
    }
}

/// Starting a stream demotes every other member of the room, and tells each
/// registered member of the room, the new streamer included, once.
pub proof fn lemma_start_demotes(s: ServerView, a: Seq<char>)
    requires
        s.wf(),
        in_some_room(s.rooms, a),
    ensures
        ({
            let ri = room_of(s.rooms, a)->0;
            let (s2, out) = start_spec(s, a);
            let room = s2.rooms[ri];
            &&& room.streamer == Some(a)
            &&& room.users.len() == s.rooms[ri].users.len()
            &&& forall|k: int|
                0 <= k < room.users.len() ==> (#[trigger] room.users[k]).id == s.rooms[ri].users[k].id
                    && (room.users[k].is_streaming <==> room.users[k].id == a)
            &&& forall|k: int|
                0 <= k < room.users.len() && s.connections.contains(#[trigger] room.users[k].id)
                    ==> out.contains((room.users[k].id, MsgView::StreamStarted { user_id: a }))
            &&& forall|q: int|
                0 <= q < out.len() ==> (#[trigger] out[q]).1 == MsgView::StreamStarted { user_id: a }
                    && has_user(room.users, out[q].0)
            &&& forall|p: int, q: int|
                0 <= p < out.len() && 0 <= q < out.len() && #[trigger] out[p].0 == #[trigger] out[q].0
                    ==> p == q
        }),
{
    let ri = room_of(s.rooms, a)->0;
    lemma_room_of_wf(s, a);
    let (s2, out) = start_spec(s, a);
    let room = s2.rooms[ri];
    let msg = MsgView::StreamStarted { user_id: a };
    assert(room_wf(s.rooms[ri]));
    assert(unique_ids(room.users)) by {
        assert forall|x: int, y: int|
            0 <= x < room.users.len() && 0 <= y < room.users.len() && #[trigger] room.users[x].id
                == #[trigger] room.users[y].id implies x == y by {
            assert(s.rooms[ri].users[x].id == s.rooms[ri].users[y].id);
        }
    }
    lemma_fanout_entries(room.users, s.connections, None, msg);
    lemma_fanout_once(room.users, s.connections, None, msg);
    assert forall|k: int|
        0 <= k < room.users.len() && s.connections.contains(#[trigger] room.users[k].id) implies out.contains(
        (room.users[k].id, msg),
    ) by {
        lemma_fanout_reaches(room.users, s.connections, None, msg, k);
    }
}

/// In a well-formed state, `room_of` names the one room that holds `id`.
pub proof fn lemma_room_of_wf(s: ServerView, id: Seq<char>)
    requires
        s.wf(),
    ensures
        match room_of(s.rooms, id) {
            Some(ri) => 0 <= ri < s.rooms.len() && has_user(s.rooms[ri].users, id),
            None => !in_some_room(s.rooms, id),
        },
{
    if in_some_room(s.rooms, id) {
        let w = choose|i: int| 0 <= i < s.rooms.len() && has_user(#[trigger] s.rooms[i].users, id);
        assert forall|j: int| 0 <= j < w implies !has_user(#[trigger] s.rooms[j].users, id) by {
            if has_user(s.rooms[j].users, id) {
                assert(has_user(s.rooms[w].users, id));
            }
        }
    }
}

/// A request to stop from anyone but the room's streamer changes nothing
/// and delivers nothing.
pub proof fn lemma_stop_by_other(s: ServerView, id: Seq<char>)
    requires
        room_of(s.rooms, id) is None || s.rooms[room_of(s.rooms, id)->0].streamer != Some(id),
    ensures
        stop_spec(s, id) == (s, Seq::<(Seq<char>, MsgView)>::empty()),
{
}

/// A negotiation payload for an identity that is not registered changes
/// nothing and is delivered to no one.
pub proof fn lemma_signal_to_unregistered(
    s: ServerView,
    id: Seq<char>,
    target: Seq<char>,
    signal: serde_json::Value,
)
    requires
        !s.connections.contains(target),
    ensures
        handle_spec(s, id, ClientView::WebRTCSignal { target_user: target, signal }) == (
            s,
            Seq::<(Seq<char>, MsgView)>::empty(),
        ),
{
}

/// With distinct identities, `first_user` names the position of `id`.
pub proof fn lemma_first_user_unique(users: Seq<UserView>, id: Seq<char>)
    requires
        unique_ids(users),
        has_user(users, id),
    ensures
        first_user(users, id) is Some,
        0 <= first_user(users, id)->0 < users.len(),
        users[first_user(users, id)->0].id == id,
{
    let w = choose|k: int| 0 <= k < users.len() && #[trigger] users[k].id == id;
    assert forall|j: int| 0 <= j < w implies #[trigger] users[j].id != id by {
        if users[j].id == id {
            assert(users[j].id == users[w].id);
        }
    }
}

/// In a well-formed state, `room_named` names the one room called `name`.
pub proof fn lemma_room_named_wf(s: ServerView, name: Seq<char>)
    requires
        s.wf(),
    ensures
        match room_named(s.rooms, name) {
            Some(ri) => 0 <= ri < s.rooms.len() && s.rooms[ri].name == name,
            None => !has_room(s.rooms, name),
        },
{
    if has_room(s.rooms, name) {
        let w = choose|i: int| 0 <= i < s.rooms.len() && #[trigger] s.rooms[i].name == name;
        assert forall|j: int| 0 <= j < w implies #[trigger] s.rooms[j].name != name by {
            if s.rooms[j].name == name {
                assert(s.rooms[j].name == s.rooms[w].name);
            }
        }
    }
}

/// Leaving keeps the state well-formed, and afterwards `id` is in no room.
pub proof fn lemma_leave_wf(s: ServerView, id: Seq<char>)
    requires
        s.wf(),
    ensures
        leave_spec(s, id).0.wf(),
        !in_some_room(leave_spec(s, id).0.rooms, id),
        leave_spec(s, id).0.connections == s.connections,
{
    lemma_room_of_wf(s, id);
    match room_of(s.rooms, id) {
        None => {},
        Some(ri) => {
            let r = s.rooms[ri];
            assert(room_wf(r));
            lemma_first_user_unique(r.users, id);
            let fi = first_user(r.users, id)->0;
            let rest = r.users.remove(fi);
            let was = r.streamer == Some(id);
            let nr = RoomView {
                name: r.name,
                users: rest,
                streamer: if was {
                    None
                } else {
                    r.streamer
                },
            };
            let s2 = leave_spec(s, id).0;
            assert forall|k: int| 0 <= k < rest.len() implies #[trigger] rest[k] == r.users[if k
                < fi {
                k
            } else {
                k + 1
            }] by {}
            assert forall|y: Seq<char>| has_user(rest, y) implies has_user(r.users, y) && y != id by {
                let k = choose|k: int| 0 <= k < rest.len() && #[trigger] rest[k].id == y;
                let m = if k < fi {
                    k
                } else {
                    k + 1
                };
                assert(r.users[m].id == y);
                if y == id {
                    assert(r.users[m].id == r.users[fi].id);
                }
            }
            assert forall|i: int, y: Seq<char>|
                0 <= i < s.rooms.len() && i != ri && #[trigger] has_user(s.rooms[i].users, y)
                    implies y != id by {
                if y == id {
                    assert(has_user(s.rooms[ri].users, id));
                }
            }
            if rest.len() > 0 {
                assert(unique_ids(rest)) by {
                    assert forall|a: int, b: int|
                        0 <= a < rest.len() && 0 <= b < rest.len() && #[trigger] rest[a].id
                            == #[trigger] rest[b].id implies a == b by {
                        let ma = if a < fi {
                            a
                        } else {
                            a + 1
                        };
                        let mb = if b < fi {
                            b
                        } else {
                            b + 1
                        };
                        assert(r.users[ma].id == r.users[mb].id);
                    }
                }
                assert forall|k: int| 0 <= k < rest.len() implies (#[trigger] rest[k]).room == Some(
                    nr.name,
                ) && (rest[k].is_streaming <==> nr.streamer == Some(rest[k].id)) by {
                    let m = if k < fi {
                        k
                    } else {
                        k + 1
                    };
                    assert(r.users[m] == rest[k]);
                    if rest[k].id == id {
                        assert(r.users[m].id == r.users[fi].id);
                    }
                }
                if nr.streamer is Some {
                    let st = nr.streamer->0;
                    let w = choose|k: int| 0 <= k < r.users.len() && #[trigger] r.users[k].id == st;
                    let k = if w < fi {
                        w
                    } else {
                        w - 1
                    };
                    assert(w != fi);
                    assert(rest[k].id == st);
                }
                assert(room_wf(nr));
                assert(s2.rooms == s.rooms.update(ri, nr));
                assert forall|i: int| 0 <= i < s2.rooms.len() implies room_wf(#[trigger] s2.rooms[i]) by {
                    if i != ri {
                        assert(s2.rooms[i] == s.rooms[i]);
                    }
                }
                assert forall|i: int, j: int|
                    0 <= i < s2.rooms.len() && 0 <= j < s2.rooms.len() && #[trigger] s2.rooms[i].name
                        == #[trigger] s2.rooms[j].name implies i == j by {
                    assert(s.rooms[i].name == s.rooms[j].name);
                }
                assert forall|i: int, y: Seq<char>|
                    0 <= i < s2.rooms.len() && #[trigger] has_user(s2.rooms[i].users, y) implies has_user(
                        s.rooms[i].users,
                        y,
                    ) && (i == ri ==> y != id) by {}
                assert forall|i: int, j: int, y: Seq<char>|
                    0 <= i < s2.rooms.len() && 0 <= j < s2.rooms.len() && #[trigger] has_user(
                        s2.rooms[i].users,
                        y,
                    ) && #[trigger] has_user(s2.rooms[j].users, y) implies i == j by {
                    assert(has_user(s.rooms[i].users, y));
                    assert(has_user(s.rooms[j].users, y));
                }
                assert(s2.wf());
                assert forall|i: int| 0 <= i < s2.rooms.len() implies !has_user(
                    #[trigger] s2.rooms[i].users,
                    id,
                ) by {}
            } else {
                assert(s2.rooms == s.rooms.remove(ri));
                assert forall|i: int| 0 <= i < s2.rooms.len() implies #[trigger] s2.rooms[i]
                    == s.rooms[if i < ri {
                    i
                } else {
                    i + 1
                }] by {}
                assert forall|i: int| 0 <= i < s2.rooms.len() implies room_wf(#[trigger] s2.rooms[i]) by {
                    let m = if i < ri {
                        i
                    } else {
                        i + 1
                    };
                    assert(room_wf(s.rooms[m]));
                }
                assert forall|i: int, j: int|
                    0 <= i < s2.rooms.len() && 0 <= j < s2.rooms.len() && #[trigger] s2.rooms[i].name
                        == #[trigger] s2.rooms[j].name implies i == j by {
                    let mi = if i < ri {
                        i
                    } else {
                        i + 1
                    };
                    let mj = if j < ri {
                        j
                    } else {
                        j + 1
                    };
                    assert(s.rooms[mi].name == s.rooms[mj].name);
                }
                assert forall|i: int, j: int, y: Seq<char>|
                    0 <= i < s2.rooms.len() && 0 <= j < s2.rooms.len() && #[trigger] has_user(
                        s2.rooms[i].users,
                        y,
                    ) && #[trigger] has_user(s2.rooms[j].users, y) implies i == j by {
                    let mi = if i < ri {
                        i
                    } else {
                        i + 1
                    };
                    let mj = if j < ri {
                        j
                    } else {
                        j + 1
                    };
                    assert(has_user(s.rooms[mi].users, y));
                    assert(has_user(s.rooms[mj].users, y));
                }
                assert forall|i: int| 0 <= i < s2.rooms.len() implies !has_user(
                    #[trigger] s2.rooms[i].users,
                    id,
                ) by {
                    let m = if i < ri {
                        i
                    } else {
                        i + 1
                    };
                    assert(s2.rooms[i] == s.rooms[m]);
                }
            }
        },
    }
}

/// Entering a room from no room keeps the state well-formed.
pub proof fn lemma_enter_wf(s: ServerView, id: Seq<char>, name: Seq<char>)
    requires
        s.wf(),
        !in_some_room(s.rooms, id),
    ensures
        enter_spec(s, id, name).0.wf(),
{
    let me = joiner(id, name);
    let s2 = enter_spec(s, id, name).0;
    let nr = joined_room(s, id, name);
    lemma_room_named_wf(s, name);
    assert forall|i: int| 0 <= i < s.rooms.len() implies !has_user(#[trigger] s.rooms[i].users, id) by {}
    match room_named(s.rooms, name) {
        None => {
            assert(s2.rooms == s.rooms.push(nr));
            assert(nr.users[0] == me);
            assert forall|y: Seq<char>| has_user(nr.users, y) implies y == id by {
                let k = choose|k: int| 0 <= k < nr.users.len() && #[trigger] nr.users[k].id == y;
                assert(k == 0);
            }
            assert(room_wf(nr));
            assert forall|i: int| 0 <= i < s2.rooms.len() implies room_wf(#[trigger] s2.rooms[i]) by {
                if i < s.rooms.len() {
                    assert(s2.rooms[i] == s.rooms[i]);
                }
            }
            assert forall|i: int, j: int|
                0 <= i < s2.rooms.len() && 0 <= j < s2.rooms.len() && #[trigger] s2.rooms[i].name
                    == #[trigger] s2.rooms[j].name implies i == j by {
                if i < s.rooms.len() && j == s.rooms.len() {
                    assert(s.rooms[i].name == name);
                }
                if j < s.rooms.len() && i == s.rooms.len() {
                    assert(s.rooms[j].name == name);
                }
            }
            assert forall|i: int, j: int, y: Seq<char>|
                0 <= i < s2.rooms.len() && 0 <= j < s2.rooms.len() && #[trigger] has_user(
                    s2.rooms[i].users,
                    y,
                ) && #[trigger] has_user(s2.rooms[j].users, y) implies i == j by {
                if i < s.rooms.len() && j < s.rooms.len() {
                    assert(has_user(s.rooms[i].users, y) && has_user(s.rooms[j].users, y));
                } else if i < s.rooms.len() {
                    assert(has_user(s.rooms[i].users, y));
                } else if j < s.rooms.len() {
                    assert(has_user(s.rooms[j].users, y));
                }
            }
        },
        Some(ri) => {
            let r = s.rooms[ri];
            assert(room_wf(r));
            assert(s2.rooms == s.rooms.update(ri, nr));
            assert(nr.users == r.users.push(me));
            assert forall|y: Seq<char>| has_user(nr.users, y) implies y == id || has_user(r.users, y) by {
                let k = choose|k: int| 0 <= k < nr.users.len() && #[trigger] nr.users[k].id == y;
                if k < r.users.len() {
                    assert(r.users[k].id == y);
                }
            }
            assert(unique_ids(nr.users)) by {
                assert forall|a: int, b: int|
                    0 <= a < nr.users.len() && 0 <= b < nr.users.len() && #[trigger] nr.users[a].id
                        == #[trigger] nr.users[b].id implies a == b by {
                    if a < r.users.len() && b < r.users.len() {
                        assert(r.users[a].id == r.users[b].id);
                    } else if a < r.users.len() {
                        assert(r.users[a].id == id);
                        assert(has_user(s.rooms[ri].users, id));
                    } else if b < r.users.len() {
                        assert(r.users[b].id == id);
                        assert(has_user(s.rooms[ri].users, id));
                    }
                }
            }
            if r.streamer is Some {
                let st = r.streamer->0;
                let w = choose|k: int| 0 <= k < r.users.len() && #[trigger] r.users[k].id == st;
                assert(nr.users[w].id == st);
                assert(st != id) by {
                    if st == id {
                        assert(has_user(s.rooms[ri].users, id));
                    }
                }
            }
            assert forall|k: int| 0 <= k < nr.users.len() implies (#[trigger] nr.users[k]).room == Some(
                nr.name,
            ) && (nr.users[k].is_streaming <==> nr.streamer == Some(nr.users[k].id)) by {
                if k < r.users.len() {
                    assert(nr.users[k] == r.users[k]);
                }
            }
            assert(room_wf(nr));
            assert forall|i: int| 0 <= i < s2.rooms.len() implies room_wf(#[trigger] s2.rooms[i]) by {
                if i != ri {
                    assert(s2.rooms[i] == s.rooms[i]);
                }
            }
            assert forall|i: int, j: int|
                0 <= i < s2.rooms.len() && 0 <= j < s2.rooms.len() && #[trigger] s2.rooms[i].name
                    == #[trigger] s2.rooms[j].name implies i == j by {
                assert(s.rooms[i].name == s.rooms[j].name);
            }
            assert forall|i: int, j: int, y: Seq<char>|
                0 <= i < s2.rooms.len() && 0 <= j < s2.rooms.len() && #[trigger] has_user(
                    s2.rooms[i].users,
                    y,
                ) && #[trigger] has_user(s2.rooms[j].users, y) implies i == j by {
                if y == id {
                    if i != ri {
                        assert(has_user(s.rooms[i].users, id));
                    }
                    if j != ri {
                        assert(has_user(s.rooms[j].users, id));
                    }
                } else {
                    assert(has_user(s.rooms[i].users, y));
                    assert(has_user(s.rooms[j].users, y));
                }
            }
        },
    }
}

/// Joining keeps the state well-formed.
pub proof fn lemma_join_wf(s: ServerView, id: Seq<char>, name: Seq<char>)
    requires
        s.wf(),
    ensures
        join_spec(s, id, name).0.wf(),
{
    lemma_leave_wf(s, id);
    lemma_enter_wf(leave_spec(s, id).0, id, name);
}

/// The state after a sequence of joins (`Some(room)`) and leaves (`None`),
/// each by the identity that it names.
pub open spec fn run_membership(s: ServerView, ops: Seq<(Seq<char>, Option<Seq<char>>)>) -> ServerView
    decreases ops.len(),
{
    if ops.len() == 0 {
        s
    } else {
        let prev = run_membership(s, ops.drop_last());
        match ops.last().1 {
            Some(name) => join_spec(prev, ops.last().0, name).0,
            None => leave_spec(prev, ops.last().0).0,
        }
    }
}

/// After any sequence of joins and leaves by any identities, from a
/// well-formed state, every room in the table has members, and its streamer,
/// if any, is one of them.
pub proof fn lemma_membership_keeps_rooms_sound(
    s: ServerView,
    ops: Seq<(Seq<char>, Option<Seq<char>>)>,
)
    requires
        s.wf(),
    ensures
        run_membership(s, ops).wf(),
        forall|i: int|
            0 <= i < run_membership(s, ops).rooms.len() ==> {
                let r = #[trigger] run_membership(s, ops).rooms[i];
                r.users.len() > 0 && (r.streamer is Some ==> has_user(r.users, r.streamer->0))
            },
    decreases ops.len(),
{
    if ops.len() > 0 {
        lemma_membership_keeps_rooms_sound(s, ops.drop_last());
        let prev = run_membership(s, ops.drop_last());
        match ops.last().1 {
            Some(name) => lemma_join_wf(prev, ops.last().0, name),
            None => lemma_leave_wf(prev, ops.last().0),
        }
    }
    let t = run_membership(s, ops);
    assert forall|i: int| 0 <= i < t.rooms.len() implies {
        let r = #[trigger] t.rooms[i];
        r.users.len() > 0 && (r.streamer is Some ==> has_user(r.users, r.streamer->0))
    } by {
        assert(room_wf(t.rooms[i]));
    }
}

/// Leaving creates no room: a name that the table lacks stays absent.
pub proof fn lemma_leave_keeps_absent(s: ServerView, id: Seq<char>, name: Seq<char>)
    requires
        s.wf(),
        !has_room(s.rooms, name),
    ensures
        !has_room(leave_spec(s, id).0.rooms, name),
{
    let s2 = leave_spec(s, id).0;
    lemma_room_of_wf(s, id);
    match room_of(s.rooms, id) {
        None => {},
        Some(ri) => {
            assert forall|i: int| 0 <= i < s2.rooms.len() implies #[trigger] s2.rooms[i].name != name by {
                if s2.rooms.len() == s.rooms.len() {
                    assert(s2.rooms[i].name == s.rooms[i].name);
                } else {
                    let m = if i < ri {
                        i
                    } else {
                        i + 1
                    };
                    assert(s2.rooms[i] == s.rooms[m]);
                }
            }
        },
    }
}

/// Deregistering keeps the state well-formed, and the identity is no longer
/// registered afterwards.
pub proof fn lemma_deregister_wf(s: ServerView, id: Seq<char>)
    requires
        s.wf(),
    ensures
        deregister_spec(s, id).wf(),
        !deregister_spec(s, id).connections.contains(id),
{
    let c = s.connections;
    let s2 = deregister_spec(s, id);
    if c.contains(id) {
        let w = choose|k: int| 0 <= k < c.len() && c[k] == id;
        assert forall|j: int| 0 <= j < w implies #[trigger] c[j] != id by {
            if c[j] == id {
                assert(c[j] == c[w]);
            }
        }
        let k = choose|k: int|
            0 <= k < c.len() && c[k] == id && forall|j: int| 0 <= j < k ==> #[trigger] c[j] != id;
        assert(s2.connections == c.remove(k));
        assert forall|i: int| 0 <= i < s2.connections.len() implies #[trigger] s2.connections[i]
            == c[if i < k {
            i
        } else {
            i + 1
        }] by {}
        assert forall|i: int| 0 <= i < s2.connections.len() implies #[trigger] s2.connections[i] != id by {
            let m = if i < k {
                i
            } else {
                i + 1
            };
            if c[m] == id {
                assert(c[m] == c[k]);
            }
        }
        assert forall|a: int, b: int|
            0 <= a < s2.connections.len() && 0 <= b < s2.connections.len()
                && #[trigger] s2.connections[a] == #[trigger] s2.connections[b] implies a == b by {
            let ma = if a < k {
                a
            } else {
                a + 1
            };
            let mb = if b < k {
                b
            } else {
                b + 1
            };
            assert(c[ma] == c[mb]);
        }
    }
}

/// Disconnecting the streamer of a room tells each remaining registered
/// member that the stream stopped and that it left, and delivers to no one
/// else; the identity is no longer registered. If it was the last member,
/// the room is gone, and joining that name again creates a fresh room
/// without a streamer.
#[verifier::rlimit(40)]
pub proof fn lemma_disconnect_streamer(s: ServerView, id: Seq<char>)
    requires
        s.wf(),
        in_some_room(s.rooms, id),
        s.rooms[room_of(s.rooms, id)->0].streamer == Some(id),
    ensures
        ({
            let r = s.rooms[room_of(s.rooms, id)->0];
            let rest = r.users.remove(first_user(r.users, id)->0);
            let (s2, out) = cleanup_spec(s, id);
            &&& forall|k: int|
                0 <= k < rest.len() && s.connections.contains(#[trigger] rest[k].id) ==> out.contains(
                    (rest[k].id, MsgView::StreamStopped { user_id: id }),
                ) && out.contains((rest[k].id, MsgView::UserLeft { user_id: id }))
            &&& forall|q: int| 0 <= q < out.len() ==> has_user(rest, (#[trigger] out[q]).0)
            &&& !s2.connections.contains(id)
            &&& rest.len() == 0 ==> !has_room(s2.rooms, r.name) && forall|x: Seq<char>|
                (#[trigger] join_spec(s2, x, r.name).0).rooms.last() == (RoomView {
                    name: r.name,
                    users: seq![joiner(x, r.name)],
                    streamer: None,
                })
        }),
{
    lemma_room_of_wf(s, id);
    let ri = room_of(s.rooms, id)->0;
    let r = s.rooms[ri];
    let rest = r.users.remove(first_user(r.users, id)->0);
    let (s1, out) = leave_spec(s, id);
    let s2 = cleanup_spec(s, id).0;
    let stopped = MsgView::StreamStopped { user_id: id };
    let left = MsgView::UserLeft { user_id: id };
    let f1 = fanout(rest, s.connections, None, stopped);
    let f2 = fanout(rest, s.connections, None, left);
    assert(out == f1 + f2);
    lemma_fanout_entries(rest, s.connections, None, stopped);
    lemma_fanout_entries(rest, s.connections, None, left);
    assert forall|q: int| 0 <= q < out.len() implies has_user(rest, (#[trigger] out[q]).0) by {
        if q < f1.len() {
            assert(out[q] == f1[q]);
        } else {
            assert(out[q] == f2[q - f1.len()]);
        }
    }
    assert forall|k: int| 0 <= k < rest.len() && s.connections.contains(#[trigger] rest[k].id) implies out.contains(
        (rest[k].id, stopped),
    ) && out.contains((rest[k].id, left)) by {
        lemma_fanout_reaches(rest, s.connections, None, stopped, k);
        lemma_fanout_reaches(rest, s.connections, None, left, k);
        let i = choose|i: int| 0 <= i < f1.len() && f1[i] == (rest[k].id, stopped);
        let j = choose|j: int| 0 <= j < f2.len() && f2[j] == (rest[k].id, left);
        assert(out[i] == f1[i]);
        assert(out[f1.len() + j] == f2[j]);
    }
    lemma_leave_wf(s, id);
    lemma_deregister_wf(s1, id);
    if rest.len() == 0 {
        assert(s2.rooms == s.rooms.remove(ri));
        assert forall|i: int| 0 <= i < s2.rooms.len() implies #[trigger] s2.rooms[i].name != r.name by {
            let m = if i < ri {
                i
            } else {
                i + 1
            };
            assert(s2.rooms[i] == s.rooms[m]);
        }
        lemma_deregister_wf(s1, id);
        assert forall|x: Seq<char>|
            (#[trigger] join_spec(s2, x, r.name).0).rooms.last() == (RoomView {
                name: r.name,
                users: seq![joiner(x, r.name)],
                streamer: None,
            }) by {
            lemma_leave_keeps_absent(s2, x, r.name);
        }
    }
}

/// Resetting the streaming flags of a room's members keeps their identities.
pub proof fn lemma_with_streamer_ids(users: Seq<UserView>, streamer: Option<Seq<char>>)
    ensures
        with_streamer(users, streamer).len() == users.len(),
        forall|k: int|
            0 <= k < users.len() ==> (#[trigger] with_streamer(users, streamer)[k]).id == users[k].id
                && with_streamer(users, streamer)[k].room == users[k].room,
        forall|y: Seq<char>| has_user(with_streamer(users, streamer), y) == has_user(users, y),
{
    let v = with_streamer(users, streamer);
    assert forall|y: Seq<char>| has_user(v, y) == has_user(users, y) by {
        if has_user(v, y) {
            let k = choose|k: int| 0 <= k < v.len() && #[trigger] v[k].id == y;
            assert(users[k].id == y);
        }
        if has_user(users, y) {
            let k = choose|k: int| 0 <= k < users.len() && #[trigger] users[k].id == y;
            assert(v[k].id == y);
        }
    }
}

/// Replacing one room by another with the same name and the same members,
/// that is itself well-formed, keeps the state well-formed.
pub proof fn lemma_replace_room_wf(s: ServerView, ri: int, nr: RoomView)
    requires
        s.wf(),
        0 <= ri < s.rooms.len(),
        room_wf(nr),
        nr.name == s.rooms[ri].name,
        forall|y: Seq<char>| has_user(nr.users, y) == has_user(s.rooms[ri].users, y),
    ensures
        (ServerView { rooms: s.rooms.update(ri, nr), connections: s.connections }).wf(),
{
    let rooms = s.rooms.update(ri, nr);
    assert forall|i: int| 0 <= i < rooms.len() implies room_wf(#[trigger] rooms[i]) by {
        if i != ri {
            assert(rooms[i] == s.rooms[i]);
        }
    }
    assert forall|i: int, j: int|
        0 <= i < rooms.len() && 0 <= j < rooms.len() && #[trigger] rooms[i].name
            == #[trigger] rooms[j].name implies i == j by {
        assert(s.rooms[i].name == s.rooms[j].name);
    }
    assert forall|i: int, j: int, y: Seq<char>|
        0 <= i < rooms.len() && 0 <= j < rooms.len() && #[trigger] has_user(rooms[i].users, y)
            && #[trigger] has_user(rooms[j].users, y) implies i == j by {
        assert(has_user(s.rooms[i].users, y));
        assert(has_user(s.rooms[j].users, y));
    }
}

/// Starting a stream keeps the state well-formed.
pub proof fn lemma_start_wf(s: ServerView, id: Seq<char>)
    requires
        s.wf(),
    ensures
        start_spec(s, id).0.wf(),
{
    lemma_room_of_wf(s, id);
    if let Some(ri) = room_of(s.rooms, id) {
        let r = s.rooms[ri];
        assert(room_wf(r));
        let users = with_streamer(r.users, Some(id));
        lemma_with_streamer_ids(r.users, Some(id));
        let nr = RoomView { name: r.name, users, streamer: Some(id) };
        assert(unique_ids(users)) by {
            assert forall|a: int, b: int|
                0 <= a < users.len() && 0 <= b < users.len() && #[trigger] users[a].id
                    == #[trigger] users[b].id implies a == b by {
                assert(r.users[a].id == r.users[b].id);
            }
        }
        assert forall|k: int| 0 <= k < users.len() implies (#[trigger] users[k]).room == Some(nr.name)
            && (users[k].is_streaming <==> nr.streamer == Some(users[k].id)) by {
            assert(r.users[k].room == Some(r.name));
        }
        assert(room_wf(nr));
        lemma_replace_room_wf(s, ri, nr);
    }
}

/// Stopping a stream keeps the state well-formed.
pub proof fn lemma_stop_wf(s: ServerView, id: Seq<char>)
    requires
        s.wf(),
    ensures
        stop_spec(s, id).0.wf(),
{
    lemma_room_of_wf(s, id);
    if let Some(ri) = room_of(s.rooms, id) {
        let r = s.rooms[ri];
        if r.streamer == Some(id) {
            assert(room_wf(r));
            let users = with_streamer(r.users, None);
            lemma_with_streamer_ids(r.users, None);
            let nr = RoomView { name: r.name, users, streamer: None };
            assert(unique_ids(users)) by {
                assert forall|a: int, b: int|
                    0 <= a < users.len() && 0 <= b < users.len() && #[trigger] users[a].id
                        == #[trigger] users[b].id implies a == b by {
                    assert(r.users[a].id == r.users[b].id);
                }
            }
            assert forall|k: int| 0 <= k < users.len() implies (#[trigger] users[k]).room == Some(
                nr.name,
            ) && (users[k].is_streaming <==> nr.streamer == Some(users[k].id)) by {
                assert(r.users[k].room == Some(r.name));
            }
            assert(room_wf(nr));
            lemma_replace_room_wf(s, ri, nr);
        }
    }
}

/// Every client message keeps the state well-formed.
pub proof fn lemma_handle_wf(s: ServerView, id: Seq<char>, m: ClientView)
    requires
        s.wf(),
    ensures
        handle_spec(s, id, m).0.wf(),
{
    match m {
        ClientView::JoinRoom { room_name } => lemma_join_wf(s, id, room_name),
        ClientView::LeaveRoom => lemma_leave_wf(s, id),
        ClientView::StartStream => lemma_start_wf(s, id),
        ClientView::StopStream => lemma_stop_wf(s, id),
        _ => {},
    }
}

/// The cleanup of a closed connection keeps the state well-formed.
pub proof fn lemma_cleanup_wf(s: ServerView, id: Seq<char>)
    requires
        s.wf(),
    ensures
        cleanup_spec(s, id).0.wf(),
{
    lemma_leave_wf(s, id);
    lemma_deregister_wf(leave_spec(s, id).0, id);
}

/// Registering an identity that is not registered keeps the state
/// well-formed.
pub proof fn lemma_register_wf(s: ServerView, id: Seq<char>)
    requires
        s.wf(),
        !s.connections.contains(id),
    ensures
        (ServerView { rooms: s.rooms, connections: s.connections.push(id) }).wf(),
{
    let c = s.connections.push(id);
    assert forall|a: int, b: int|
        0 <= a < c.len() && 0 <= b < c.len() && #[trigger] c[a] == #[trigger] c[b] implies a == b by {
        if a < s.connections.len() && b == s.connections.len() {
            assert(s.connections[a] == id);
        }
        if b < s.connections.len() && a == s.connections.len() {
            assert(s.connections[b] == id);
        }
        if a < s.connections.len() && b < s.connections.len() {
            assert(s.connections[a] == s.connections[b]);
        }
    }
}

/// Joining puts `id` in the room called `name` and in no other. A room of
/// that name that existed without `id` keeps its members, in order, and its
/// streamer, with `id` added last.
#[verifier::rlimit(40)]
pub proof fn lemma_join_places(s: ServerView, id: Seq<char>, name: Seq<char>)
    requires
        s.wf(),
    ensures
        ({
            let s2 = join_spec(s, id, name).0;
            &&& room_named(s2.rooms, name) is Some
            &&& room_of(s2.rooms, id) == room_named(s2.rooms, name)
            &&& has_user(s2.rooms[room_named(s2.rooms, name)->0].users, id)
            &&& has_room(s.rooms, name) && !has_user(
                s.rooms[room_named(s.rooms, name)->0].users,
                id,
            ) ==> s2.rooms[room_named(s2.rooms, name)->0] == (RoomView {
                name,
                users: s.rooms[room_named(s.rooms, name)->0].users.push(joiner(id, name)),
                streamer: s.rooms[room_named(s.rooms, name)->0].streamer,
            })
        }),
{
    let s1 = leave_spec(s, id).0;
    let s2 = join_spec(s, id, name).0;
    lemma_leave_wf(s, id);
    lemma_join_wf(s, id, name);
    lemma_room_named_wf(s, name);
    lemma_room_named_wf(s1, name);
    lemma_room_named_wf(s2, name);
    let nr = joined_room(s1, id, name);
    let t = match room_named(s1.rooms, name) {
        None => s1.rooms.len() as int,
        Some(t) => t,
    };
    assert(s2.rooms[t] == nr);
    assert(nr.name == name);
    assert(nr.users[nr.users.len() - 1].id == id);
    assert(has_user(s2.rooms[t].users, id));
    assert(has_room(s2.rooms, name));
    let i = room_named(s2.rooms, name)->0;
    assert(s2.rooms[i].name == s2.rooms[t].name);
    assert(i == t);
    assert(in_some_room(s2.rooms, id));
    lemma_room_of_wf(s2, id);
    let j = room_of(s2.rooms, id)->0;
    assert(has_user(s2.rooms[j].users, id) && has_user(s2.rooms[t].users, id));
    assert(j == t);
    if has_room(s.rooms, name) && !has_user(s.rooms[room_named(s.rooms, name)->0].users, id) {
        let t0 = room_named(s.rooms, name)->0;
        lemma_room_of_wf(s, id);
        let t1: int = match room_of(s.rooms, id) {
            None => t0,
            Some(ri) => {
                assert(ri != t0);
                if s1.rooms.len() == s.rooms.len() {
                    t0
                } else if t0 < ri {
                    t0
                } else {
                    t0 - 1
                }
            },
        };
        match room_of(s.rooms, id) {
            None => {},
            Some(ri) => {
                if s1.rooms.len() == s.rooms.len() {
                    assert(s1.rooms[t0] == s.rooms[t0]);
                } else {
                    let m = if t1 < ri {
                        t1
                    } else {
                        t1 + 1
                    };
                    assert(m == t0);
                    assert(s1.rooms[t1] == s.rooms[m]);
                }
            },
        }
        assert(s1.rooms[t1] == s.rooms[t0]);
        assert(has_room(s1.rooms, name));
        let u = room_named(s1.rooms, name)->0;
        assert(s1.rooms[u].name == s1.rooms[t1].name);
        assert(u == t1);
    }
}

/// Joining tells each registered member of the joined room other than the
/// joiner, once, that the joiner arrived, and no one else; every such notice
/// comes after the confirmation to a registered joiner.
#[verifier::rlimit(40)]
pub proof fn lemma_join_notifies(s: ServerView, id: Seq<char>, name: Seq<char>)
    requires
        s.wf(),
    ensures
        ({
            let (s1, gone) = leave_spec(s, id);
            let room = joined_room(s1, id, name);
            let out = join_spec(s, id, name).1;
            let notice = MsgView::UserJoined { user: joiner(id, name) };
            &&& forall|q: int|
                0 <= q < out.len() && (#[trigger] out[q]).1 is UserJoined ==> out[q].1 == notice
                    && out[q].0 != id && has_user(room.users, out[q].0) && q >= gone.len() && (
                s.connections.contains(id) ==> q > gone.len())
            &&& forall|k: int|
                0 <= k < room.users.len() && #[trigger] room.users[k].id != id
                    && s.connections.contains(room.users[k].id) ==> out.contains(
                    (room.users[k].id, notice),
                )
            &&& forall|p: int, q: int|
                0 <= p < out.len() && 0 <= q < out.len() && (#[trigger] out[p]).1 is UserJoined && (
                #[trigger] out[q]).1 is UserJoined && out[p].0 == out[q].0 ==> p == q
        }),
{
    let (s1, gone) = leave_spec(s, id);
    let room = joined_room(s1, id, name);
    let out = join_spec(s, id, name).1;
    let notice = MsgView::UserJoined { user: joiner(id, name) };
    let s2 = join_spec(s, id, name).0;
    lemma_leave_wf(s, id);
    lemma_join_wf(s, id, name);
    lemma_room_named_wf(s1, name);
    let t = match room_named(s1.rooms, name) {
        None => s1.rooms.len() as int,
        Some(t) => t,
    };
    assert(s2.rooms[t] == room);
    assert(room_wf(s2.rooms[t]));
    let conns = s.connections;
    let confirm = if conns.contains(id) {
        seq![(id, MsgView::RoomJoined { room_name: name, users: room.users, streamer: room.streamer })]
    } else {
        Seq::<(Seq<char>, MsgView)>::empty()
    };
    let notify = fanout(room.users, conns, Some(id), notice);
    assert(out == gone + confirm + notify);
    lemma_fanout_entries(room.users, conns, Some(id), notice);
    lemma_fanout_once(room.users, conns, Some(id), notice);
    match room_of(s.rooms, id) {
        None => {},
        Some(ri) => {
            let r = s.rooms[ri];
            let rest = r.users.remove(first_user(r.users, id)->0);
            lemma_fanout_entries(rest, conns, None, MsgView::StreamStopped { user_id: id });
            lemma_fanout_entries(rest, conns, None, MsgView::UserLeft { user_id: id });
        },
    }
    let base = gone.len() + confirm.len();
    assert forall|q: int| 0 <= q < out.len() && (#[trigger] out[q]).1 is UserJoined implies q
        >= base && out[q] == notify[q - base] && out[q].1 == notice && out[q].0 != id && has_user(
        room.users,
        out[q].0,
    ) by {
        if q < gone.len() {
            assert(out[q] == gone[q]);
        } else if q < base {
            assert(out[q] == confirm[q - gone.len()]);
        }
    }
    assert forall|k: int|
        0 <= k < room.users.len() && #[trigger] room.users[k].id != id && s.connections.contains(
            room.users[k].id,
        ) implies out.contains((room.users[k].id, notice)) by {
        lemma_fanout_reaches(room.users, conns, Some(id), notice, k);
        let i = choose|i: int| 0 <= i < notify.len() && notify[i] == (room.users[k].id, notice);
        assert(out[base + i] == notify[i]);
    }
    assert forall|p: int, q: int|
        0 <= p < out.len() && 0 <= q < out.len() && (#[trigger] out[p]).1 is UserJoined && (
        #[trigger] out[q]).1 is UserJoined && out[p].0 == out[q].0 implies p == q by {
        assert(notify[p - base].0 == notify[q - base].0);
    }
}

} // verus!
