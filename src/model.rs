//! Members and rooms, with their mathematical views.

use vstd::prelude::*;

verus! {

/// What a member is, as plain sequences of characters.
pub struct UserView {
    pub id: Seq<char>,
    pub room: Option<Seq<char>>,
    pub is_streaming: bool,
}

/// What a room is: its name, its members in order of joining, its streamer.
pub struct RoomView {
    pub name: Seq<char>,
    pub users: Seq<UserView>,
    pub streamer: Option<Seq<char>>,
}

pub open spec fn opt_str(o: Option<String>) -> Option<Seq<char>> {
    match o {
        Some(s) => Some(s@),
        None => None,
    }
}

pub open spec fn opt_ref(o: Option<&String>) -> Option<Seq<char>> {
    match o {
        Some(s) => Some(s@),
        None => None,
    }
}

/// The session state of one live connection.
#[derive(Debug, Clone, PartialEq)]
pub struct User {
    pub id: String,
    pub room: Option<String>,
    pub is_streaming: bool,
}

impl View for User {
    type V = UserView;

    open spec fn view(&self) -> UserView {
        UserView { id: self.id@, room: opt_str(self.room), is_streaming: self.is_streaming }
    }
}

pub open spec fn users_view(v: Seq<User>) -> Seq<UserView> {
    v.map_values(|u: User| u@)
}

/// A named group of members with at most one streamer.
#[derive(Debug, Clone, PartialEq)]
pub struct Room {
    pub name: String,
    pub users: Vec<User>,
    pub streamer: Option<String>,
}

impl View for Room {
    type V = RoomView;

    open spec fn view(&self) -> RoomView {
        RoomView { name: self.name@, users: users_view(self.users@), streamer: opt_str(self.streamer) }
    }
}

pub fn copy_opt(o: &Option<String>) -> (r: Option<String>)
    ensures
        opt_str(r) == opt_str(*o),
{
    match o {
        Some(s) => Some(s.clone()),
        None => None,
    }
}

impl User {
    /// A copy of this member with the same view.
    pub fn snapshot(&self) -> (r: User)
        ensures
            r@ == self@,
    {
        User { id: self.id.clone(), room: copy_opt(&self.room), is_streaming: self.is_streaming }
    }
}

/// A copy of a member list, element by element.
pub fn copy_users(v: &Vec<User>) -> (r: Vec<User>)
    ensures
        users_view(r@) == users_view(v@),
{
    let mut r: Vec<User> = Vec::new();
    let mut i: usize = 0;
    while i < v.len()
        invariant
            i <= v.len(),
            r@.len() == i,
            forall|k: int| 0 <= k < i ==> #[trigger] r@[k]@ == v@[k]@,
        decreases v.len() - i,
    {
        r.push(v[i].snapshot());
        i = i + 1;
    }
    assert(users_view(r@) =~= users_view(v@));
    r
}

} // verus!
