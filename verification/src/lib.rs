//! Authoritative coordinator for a real-time, location-based game of tag.
//!
//! Clients hold long-lived connections, announce a name, then create or join
//! a lobby identified by a short numeric code. Once the host starts a match
//! the coordinator designates a seeker, scores the other players each second
//! by their distance from the game origin, relays tagging events, and ends
//! the match when the configured time is up.
//!
//! This crate is the coordinator alone: the single owner of the player and
//! game tables and of every state transition. Transport, JSON framing and
//! timers live outside; handlers return the events to deliver, and the tick
//! takes the measured distances as arguments.

pub mod json;
pub mod laws;
pub mod message;
pub mod score;
pub mod server;
pub mod table;
pub mod util;
