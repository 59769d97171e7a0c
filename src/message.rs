//! Inbound and outbound protocol messages, and the deliveries of the latter.

use vstd::prelude::*;
use crate::model::{copy_opt, copy_users, opt_str, users_view, User, UserView};

verus! {

#[verifier::external_type_specification]
#[verifier::external_body]
pub struct ExValue(serde_json::Value);

/// Relies on the derived `Clone` of `serde_json::Value`: a copy of the same
/// value. Used to hand an opaque negotiation payload on unchanged.
pub assume_specification[ <serde_json::Value as Clone>::clone ](v: &serde_json::Value) -> (r:
    serde_json::Value)
    ensures
        r == *v,
;

/// A message that a client sends.
#[derive(Debug, PartialEq)]
pub enum ClientMessage {
    JoinRoom { room_name: String },
    LeaveRoom,
    StartStream,
    StopStream,
    ChatMessage { content: String },
    WebRTCSignal { target_user: String, signal: serde_json::Value },
}

pub enum ClientView {
    JoinRoom { room_name: Seq<char> },
    LeaveRoom,
    StartStream,
    StopStream,
    ChatMessage { content: Seq<char> },
    WebRTCSignal { target_user: Seq<char>, signal: serde_json::Value },
}

impl View for ClientMessage {
    type V = ClientView;

    open spec fn view(&self) -> ClientView {
        match self {
            ClientMessage::JoinRoom { room_name } => ClientView::JoinRoom { room_name: room_name@ },
            ClientMessage::LeaveRoom => ClientView::LeaveRoom,
            ClientMessage::StartStream => ClientView::StartStream,
            ClientMessage::StopStream => ClientView::StopStream,
            ClientMessage::ChatMessage { content } => ClientView::ChatMessage { content: content@ },
            ClientMessage::WebRTCSignal { target_user, signal } => ClientView::WebRTCSignal {
                target_user: target_user@,
                signal: *signal,
            },
        }
    }
}

/// A message that the server sends to one client.
#[derive(Debug, PartialEq)]
pub enum ServerMessage {
    RoomJoined { room_name: String, users: Vec<User>, streamer: Option<String> },
    UserJoined { user: User },
    UserLeft { user_id: String },
    StreamStarted { user_id: String },
    StreamStopped { user_id: String },
    ChatMessage { user_id: String, content: String },
    WebRTCSignal { from_user: String, signal: serde_json::Value },
    Error { message: String },
}

pub enum MsgView {
    RoomJoined { room_name: Seq<char>, users: Seq<UserView>, streamer: Option<Seq<char>> },
    UserJoined { user: UserView },
    UserLeft { user_id: Seq<char> },
    StreamStarted { user_id: Seq<char> },
    StreamStopped { user_id: Seq<char> },
    ChatMessage { user_id: Seq<char>, content: Seq<char> },
    WebRTCSignal { from_user: Seq<char>, signal: serde_json::Value },
    Error { message: Seq<char> },
}

impl View for ServerMessage {
    type V = MsgView;

    open spec fn view(&self) -> MsgView {
        match self {
            ServerMessage::RoomJoined { room_name, users, streamer } => MsgView::RoomJoined {
                room_name: room_name@,
                users: users_view(users@),
                streamer: opt_str(*streamer),
            },
            ServerMessage::UserJoined { user } => MsgView::UserJoined { user: user@ },
            ServerMessage::UserLeft { user_id } => MsgView::UserLeft { user_id: user_id@ },
            ServerMessage::StreamStarted { user_id } => MsgView::StreamStarted { user_id: user_id@ },
            ServerMessage::StreamStopped { user_id } => MsgView::StreamStopped { user_id: user_id@ },
            ServerMessage::ChatMessage { user_id, content } => MsgView::ChatMessage {
                user_id: user_id@,
                content: content@,
            },
            ServerMessage::WebRTCSignal { from_user, signal } => MsgView::WebRTCSignal {
                from_user: from_user@,
                signal: *signal,
            },
            ServerMessage::Error { message } => MsgView::Error { message: message@ },
        }
    }
}

impl ServerMessage {
    /// A copy of this message with the same view, one per recipient.
    pub fn duplicate(&self) -> (r: ServerMessage)
        ensures
            r@ == self@,
    {
        match self {
            ServerMessage::RoomJoined { room_name, users, streamer } => ServerMessage::RoomJoined {
                room_name: room_name.clone(),
                users: copy_users(users),
                streamer: copy_opt(streamer),
            },
            ServerMessage::UserJoined { user } => ServerMessage::UserJoined { user: user.snapshot() },
            ServerMessage::UserLeft { user_id } => ServerMessage::UserLeft { user_id: user_id.clone() },
            ServerMessage::StreamStarted { user_id } => ServerMessage::StreamStarted {
                user_id: user_id.clone(),
            },
            ServerMessage::StreamStopped { user_id } => ServerMessage::StreamStopped {
                user_id: user_id.clone(),
            },
            ServerMessage::ChatMessage { user_id, content } => ServerMessage::ChatMessage {
                user_id: user_id.clone(),
                content: content.clone(),
            },
            ServerMessage::WebRTCSignal { from_user, signal } => ServerMessage::WebRTCSignal {
                from_user: from_user.clone(),
                signal: signal.clone(),
            },
            ServerMessage::Error { message } => ServerMessage::Error { message: message.clone() },
        }
    }
}

/// One message addressed to one identity.
#[derive(Debug, PartialEq)]
pub struct Delivery {
    pub to: String,
    pub message: ServerMessage,
}

impl View for Delivery {
    type V = (Seq<char>, MsgView);

    open spec fn view(&self) -> (Seq<char>, MsgView) {
        (self.to@, self.message@)
    }
}

pub open spec fn deliveries_view(v: Seq<Delivery>) -> Seq<(Seq<char>, MsgView)> {
    v.map_values(|d: Delivery| d@)
}

} // verus!
