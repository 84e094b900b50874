//! A compact lobby-control message set for simple clients.

use vstd::prelude::*;

verus! {

pub enum Message {
    Info { message: String },
    Error { message: String },
    JoinGame { game: u32 },
    SetName { name: String },
    StartGame,
    CreateGame,
}

} // verus!
