//! The state of a game room and the types it is made of.
use vstd::prelude::*;

pub mod config;
pub mod dt;
pub mod id;
pub mod room;
pub mod ticker;
pub mod token;

pub mod players;

pub use id::PlayerId;
pub use ticker::TickerEvent;

use crate::cards::{Card, Deck, HandStrength};
use config::RoomConfig;
use dt::Instant;
use players::Players;
use ticker::{Ticker, TickerEmoji};
use token::Token;

verus! {

pub const STARTING_BALANCE: u64 = 1000;

pub const SMALL_BLIND: u64 = 10;

pub const BIG_BLIND: u64 = SMALL_BLIND * 2;

pub const PLAYER_EMOJI_TIMEOUT_SECONDS: u64 = 5;

pub const TICKER_ITEM_TIMEOUT_SECONDS: u64 = 10;

pub const TICKER_ITEM_GAP_MILLISECONDS: u64 = 500;

pub const PLAYER_TURN_TIMEOUT_SECONDS: u64 = 60;

pub const GAME_IDLE_TIMEOUT_SECONDS: u64 = 300;

pub const ROOM_CODE_LENGTH: usize = 4;

pub const MAX_PLAYERS: usize = 10;

#[derive(Debug, Default, Clone, Copy, PartialEq, Eq, Structural)]
pub enum GameStatus {
    #[default]
    Joining,
    Playing,
    Complete,
    Idle,
}

#[derive(Debug, Clone, Copy, PartialEq, Eq, Structural)]
pub enum BetAction {
    Check,
    Call,
    RaiseTo(u64),
}

/// A player's photo: its bytes and the token it is served under.
#[derive(Debug)]
pub struct PlayerPhoto(pub Vec<u8>, pub Token);

impl Clone for PlayerPhoto {
    fn clone(&self) -> (photo: Self)
        ensures
            photo.0@ == self.0@,
            photo.1 == self.1,
    {
        let bytes = self.0.clone();
        assert(bytes@ =~= self.0@);
        PlayerPhoto(bytes, self.1.clone())
    }
}

#[derive(Debug)]
pub struct Player {
    pub name: String,
    pub id: PlayerId,
    pub emoji: Option<(TickerEmoji, Instant)>,
    pub funds_token: Token,
    pub balance: u64,
    pub stake: u64,
    pub folded: bool,
    pub photo: Option<PlayerPhoto>,
    pub ttl: Option<Instant>,
    pub apid: String,
    pub cards: (Card, Card),
}

/// A player as plain values.
#[verifier::ext_equal]
pub struct PlayerView {
    pub name: Seq<char>,
    pub id: Seq<char>,
    pub emoji: Option<(char, u64)>,
    pub funds_token: Seq<char>,
    pub balance: u64,
    pub stake: u64,
    pub folded: bool,
    pub photo: Option<(Seq<u8>, Seq<char>)>,
    pub ttl: Option<u64>,
    pub apid: Seq<char>,
    pub cards: (Card, Card),
}

impl View for Player {
    type V = PlayerView;

    open spec fn view(&self) -> PlayerView {
        PlayerView {
            name: self.name@,
            id: self.id@,
            emoji: match self.emoji {
                Some((e, at)) => Some((e@, at@)),
                None => None,
            },
            funds_token: self.funds_token.value@,
            balance: self.balance,
            stake: self.stake,
            folded: self.folded,
            photo: match self.photo {
                Some(p) => Some((p.0@, p.1.value@)),
                None => None,
            },
            ttl: match self.ttl {
                Some(t) => Some(t@),
                None => None,
            },
            apid: self.apid@,
            cards: self.cards,
        }
    }
}

impl Clone for Player {
    fn clone(&self) -> (player: Self)
        ensures
            player@ == self@,
    {
        let photo = match &self.photo {
            Some(p) => Some(p.clone()),
            None => None,
        };
        Player {
            name: self.name.clone(),
            id: self.id.clone(),
            emoji: self.emoji,
            funds_token: self.funds_token.clone(),
            balance: self.balance,
            stake: self.stake,
            folded: self.folded,
            photo,
            ttl: self.ttl,
            apid: self.apid.clone(),
            cards: self.cards,
        }
    }
}

#[derive(Debug)]
pub struct RoundWinner {
    pub player_id: PlayerId,
    pub hand: Option<HandStrength>,
    pub winnings: u64,
    pub total_pot_winnings: u64,
}

#[derive(Debug)]
pub struct CompletedRound {
    pub winners: Vec<RoundWinner>,
    pub best_hand: Option<(Vec<PlayerId>, HandStrength)>,
    pub hide_cards: bool,
}

#[derive(Debug)]
pub struct Round {
    pub pot: u64,
    pub deck: Deck,
    pub cards_on_table: Vec<Card>,
    pub players_turn: Option<PlayerId>,
    pub raises: Vec<(PlayerId, u64)>,
    pub calls: Vec<(PlayerId, u64)>,
    pub completed: Option<CompletedRound>,
}

impl Round {
    /// An empty round with a shuffled deck.
    pub fn new() -> (round: Round)
        ensures
            round.pot == 0,
            round.deck@.len() == 52,
            round.deck@.to_multiset() == crate::cards::ordered_deck().to_multiset(),
            round.cards_on_table@.len() == 0,
            round.players_turn is None,
            round.raises@.len() == 0,
            round.calls@.len() == 0,
            round.completed is None,
    {
        Round {
            pot: 0,
            deck: Deck::default(),
            cards_on_table: Vec::new(),
            players_turn: None,
            raises: Vec::new(),
            calls: Vec::new(),
            completed: None,
        }
    }
}

impl Default for Round {
    /// An empty round with a shuffled deck.
    fn default() -> (round: Round)
        ensures
            round.pot == 0,
            round.deck@.len() == 52,
            round.deck@.to_multiset() == crate::cards::ordered_deck().to_multiset(),
            round.cards_on_table@.len() == 0,
            round.players_turn is None,
            round.raises@.len() == 0,
            round.calls@.len() == 0,
            round.completed is None,
    {
        Round::new()
    }
}

#[derive(Debug)]
pub struct State {
    pub players: Players,
    pub round: Round,
    pub last_update: Instant,
    pub ticker: Ticker,
    pub status: GameStatus,
    pub config: RoomConfig,
    pub disposed: bool,
}

/// What the game rules read and change in a room's state, as plain values.
#[verifier::ext_equal]
pub struct GameView {
    /// The seated players in seating order, each under its key.
    pub seats: Seq<(Seq<char>, PlayerView)>,
    pub dormant: Seq<PlayerView>,
    pub pot: u64,
    /// The deck; cards are dealt from its end.
    pub deck: Seq<Card>,
    pub table: Seq<Card>,
    pub turn: Option<Seq<char>>,
    pub raises: Seq<(Seq<char>, u64)>,
    pub calls: Seq<(Seq<char>, u64)>,
    pub status: GameStatus,
}

pub open spec fn bet_view(bet: (PlayerId, u64)) -> (Seq<char>, u64) {
    (bet.0@, bet.1)
}

impl State {
    pub open spec fn game(&self) -> GameView {
        GameView {
            seats: self.players.seats(),
            dormant: self.players.dormant(),
            pot: self.round.pot,
            deck: self.round.deck@,
            table: self.round.cards_on_table@,
            turn: match self.round.players_turn {
                Some(id) => Some(id@),
                None => None,
            },
            raises: self.round.raises@.map_values(|b: (PlayerId, u64)| bet_view(b)),
            calls: self.round.calls@.map_values(|b: (PlayerId, u64)| bet_view(b)),
            status: self.status,
        }
    }

    /// The parts of the state that the game rules leave alone are the same.
    pub open spec fn same_surroundings(&self, other: &State) -> bool {
        &&& self.last_update == other.last_update
        &&& self.ticker == other.ticker
        &&& self.config == other.config
        &&& self.disposed == other.disposed
        &&& self.round.completed == other.round.completed
    }

    /// A room with no players, a shuffled deck and the given settings.
    pub fn new(config: RoomConfig) -> (state: State)
        ensures
            state.game().seats.len() == 0,
            state.game().dormant.len() == 0,
            state.game().pot == 0,
            state.game().deck.len() == 52,
            state.game().deck.to_multiset() == crate::cards::ordered_deck().to_multiset(),
            state.game().table.len() == 0,
            state.game().turn is None,
            state.game().raises.len() == 0,
            state.game().calls.len() == 0,
            state.game().status == GameStatus::Joining,
            state.config == config,
            state.ticker.items().len() == 0,
            state.ticker.wf(),
            !state.disposed,
    {
        let state = State {
            players: Players::new(),
            round: Round::new(),
            last_update: Instant::now(),
            ticker: Ticker::new(),
            status: GameStatus::Joining,
            config,
            disposed: false,
        };
        assert(state.game().raises =~= Seq::<(Seq<char>, u64)>::empty());
        assert(state.game().calls =~= Seq::<(Seq<char>, u64)>::empty());
        state
    }
}

} // verus!
