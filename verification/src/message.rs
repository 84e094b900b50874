//! The event vocabulary between clients and the coordinator.
//!
//! Coordinates travel as fixed-point micro-degrees and scores as
//! milli-points, so every field is an exact value; the transport layer
//! converts to and from the floating wire representation.

use vstd::prelude::*;

verus! {

/// What a client can ask of the coordinator.
#[derive(Clone, Debug)]
pub enum ClientEvent {
    Connect { name: String },
    Chat { message: String },
    JoinGame { game: u16 },
    LeaveGame,
    /// `x`, `y` in micro-degrees; the game runs for `minutes` minutes.
    CreateGame { x: i64, y: i64, minutes: u64 },
    StartGame,
    /// `x`, `y` in micro-degrees.
    UpdatePosition { x: i64, y: i64 },
    TagPlayer { player: i64, photo: String },
}

/// What the coordinator says back. `scores` carries milli-points.
#[derive(Clone, Debug)]
pub enum ServerEvent {
    Connected { id: i64 },
    Chat { sender: i64, message: String },
    Error { message: String },
    JoinedGame { id: u16, x: i64, y: i64, players: Vec<(i64, String)>, host: i64 },
    PlayerJoined { id: i64, name: String },
    PlayerLeft { id: i64, new_host: i64 },
    LeftGame,
    GameStarted { seeker: i64 },
    PlayerTagged { tagger: i64, tagged: i64, photo: String },
    ScoreUpdate { scores: Vec<(i64, u64)>, seconds_left: u64 },
    GameEnded { winner: i64 },
}

/// `e` is the error reply carrying exactly the text `msg`.
pub open spec fn is_error(e: ServerEvent, msg: Seq<char>) -> bool {
    e matches ServerEvent::Error { message } && message@ == msg
}

impl ServerEvent {
    /// An error reply with the given text.
    pub fn error(message: &str) -> (e: ServerEvent)
        ensures
            is_error(e, message@),
    {
        ServerEvent::Error { message: message.to_string() }
    }
}

/// One fan-out of a single event to an ordered list of recipients, in the
/// order the coordinator enqueued it.
pub struct Outbound {
    pub to: Vec<i64>,
    pub event: ServerEvent,
}

/// A client request as the coordinator receives it: the event, credited to
/// the sending session's player id.
pub struct ClientMessage {
    pub sender: i64,
    pub event: ClientEvent,
}

/// A server event addressed to one session.
pub struct ServerMessage {
    pub event: ServerEvent,
}

/// Notice that a session has gone away.
pub struct Disconnect {
    pub id: i64,
}

} // verus!
