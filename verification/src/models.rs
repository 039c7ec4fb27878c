//! The shapes in which a room is shown to its clients.
use vstd::prelude::*;

use crate::cards::{CardSuite, CardValue};

verus! {

/// A card as the clients see it.
pub type ClientCard = (CardSuite, CardValue);

/// Where a room stands, as shown to its clients.
#[derive(Debug, Clone, Copy, PartialEq, Eq, Structural)]
pub enum GamePhase {
    Offline,
    Idle,
    Waiting,
    Playing,
    Complete,
}

/// How a finished game ended: who won, with what, and every seated player's
/// cards.
#[derive(Debug)]
pub struct CompletedGame {
    pub winner_name: String,
    pub winning_hand: String,
    pub player_cards: Vec<(ClientCard, ClientCard)>,
}

/// A seated player as the room's screen shows them.
#[derive(Debug)]
pub struct GameClientPlayer {
    pub name: String,
    pub balance: u64,
    pub folded: bool,
    pub photo: Option<String>,
    pub turn_expires_dt: Option<u64>,
}

/// How long a client is ready to wait for a change, and since when.
#[derive(Debug, Clone, Copy, PartialEq, Eq, Structural)]
pub struct PollQuery {
    pub since: Option<u64>,
    pub timeout: Option<u64>,
}

} // verus!
