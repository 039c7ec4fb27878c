//! The text that the ticker shows for each event.
use vstd::prelude::*;

use super::TickerEvent;
use crate::cards::{strength_name, HandStrength};
use crate::state::players::{first_dormant_with_id, seat_of};
use crate::state::{BetAction, GameView, PlayerId, State};
use crate::text::{char_to_string, decimal, u64_to_string, usize_to_string};

verus! {

/// "Player <name> <action>" for a seated player or one who left, and
/// "Previous player <id>" for anybody else.
pub open spec fn player_action_text(g: GameView, id: Seq<char>, action: Seq<char>) -> Seq<char> {
    let i = seat_of(g.seats, id);
    let k = first_dormant_with_id(g.dormant, id);
    if i < g.seats.len() {
        "Player "@ + g.seats[i].1.name + " "@ + action
    } else if k >= 0 {
        "Player "@ + g.dormant[k].name + " "@ + action
    } else {
        "Previous player "@ + id
    }
}

/// The name of the seated player, or nothing.
pub open spec fn seated_name(g: GameView, id: Seq<char>) -> Seq<char> {
    let i = seat_of(g.seats, id);
    if i < g.seats.len() {
        g.seats[i].1.name
    } else {
        Seq::empty()
    }
}

/// The seated players' names, separated by commas.
pub open spec fn names_joined(g: GameView, ids: Seq<Seq<char>>) -> Seq<char>
    decreases ids.len(),
{
    if ids.len() == 0 {
        Seq::empty()
    } else if ids.len() == 1 {
        seated_name(g, ids[0])
    } else {
        names_joined(g, ids.drop_last()) + ", "@ + seated_name(g, ids.last())
    }
}

pub open spec fn bet_text(action: BetAction) -> Seq<char> {
    match action {
        BetAction::Check => "checked"@,
        BetAction::Call => "called"@,
        BetAction::RaiseTo(amount) => "raised to \u{a3}"@ + decimal(amount as nat),
    }
}

/// The name of a kind of hand as written in code.
pub open spec fn strength_code_name(h: HandStrength) -> Seq<char> {
    match h {
        HandStrength::HighCard => "HighCard"@,
        HandStrength::OnePair => "OnePair"@,
        HandStrength::TwoPair => "TwoPair"@,
        HandStrength::ThreeOfAKind => "ThreeOfAKind"@,
        HandStrength::Straight => "Straight"@,
        HandStrength::Flush => "Flush"@,
        HandStrength::FullHouse => "FullHouse"@,
        HandStrength::FourOfAKind => "FourOfAKind"@,
        HandStrength::StraightFlush => "StraightFlush"@,
        HandStrength::RoyalFlush => "RoyalFlush"@,
    }
}

pub open spec fn ids_of(ids: Seq<PlayerId>) -> Seq<Seq<char>> {
    ids.map_values(|id: PlayerId| id@)
}

/// The text of an event, with players named as the room knows them.
pub open spec fn event_text(e: TickerEvent, g: GameView) -> Seq<char> {
    match e {
        TickerEvent::GameStarted => "Game started"@,
        TickerEvent::PlayerJoined(id) => player_action_text(g, id@, "joined the game"@),
        TickerEvent::PlayerTurnTimeout(name) => "Player "@ + name@ + " timed out"@,
        TickerEvent::PlayerLeft(name) => "Player "@ + name@ + " left the game"@,
        TickerEvent::PlayerResumed(id) => player_action_text(g, id@, "rejoined the game"@),
        TickerEvent::PlayerFolded(id) => player_action_text(g, id@, "folded"@),
        TickerEvent::PlayerBet(id, action) => player_action_text(g, id@, bet_text(action)),
        TickerEvent::DealerRotated(id) => player_action_text(g, id@, "is the next dealer"@),
        TickerEvent::SmallBlindPosted(id) => player_action_text(g, id@, "posted the small blind"@),
        TickerEvent::BigBlindPosted(id) => player_action_text(g, id@, "posted the big blind"@),
        TickerEvent::CardsDealtToTable(count) => if count == 1 {
            "Dealt another card"@
        } else {
            "Dealt "@ + decimal(count as nat) + " cards to table"@
        },
        TickerEvent::RoundComplete => "Round complete"@,
        TickerEvent::Winner(id, strength) => player_action_text(g, id@, "won with "@ + strength_name(strength)),
        TickerEvent::SplitPotWinners(ids, strength) => "Players "@ + names_joined(g, ids_of(ids@)) + " split pot with "@
            + strength_code_name(strength),
        TickerEvent::PaidPot(id, amount) => "Player "@ + seated_name(g, id@) + " won \u{a3}"@ + decimal(amount as nat)
            + " from pot"@,
        TickerEvent::PlayerPhotoUploaded(id) => player_action_text(g, id@, "added a photo"@),
        TickerEvent::PlayerSentEmoji(id, emoji) => "Player "@ + seated_name(g, id@) + ": "@ + seq![emoji@],
        TickerEvent::PlayerTransferredBalance(from, to, amount) => "Player "@ + seated_name(g, from@) + " transferred \u{a3}"@
            + decimal(amount as nat) + " to "@ + seated_name(g, to@),
    }
}

fn strength_code(h: HandStrength) -> (s: &'static str)
    ensures
        s@ == strength_code_name(h),
{
    match h {
        HandStrength::HighCard => "HighCard",
        HandStrength::OnePair => "OnePair",
        HandStrength::TwoPair => "TwoPair",
        HandStrength::ThreeOfAKind => "ThreeOfAKind",
        HandStrength::Straight => "Straight",
        HandStrength::Flush => "Flush",
        HandStrength::FullHouse => "FullHouse",
        HandStrength::FourOfAKind => "FourOfAKind",
        HandStrength::StraightFlush => "StraightFlush",
        HandStrength::RoyalFlush => "RoyalFlush",
    }
}

fn format_player_action(state: &State, player_id: &PlayerId, action: &str) -> (s: String)
    ensures
        s@ == player_action_text(state.game(), player_id@, action@),
{
    let found = match state.players.get(player_id) {
        Some(p) => Some(p),
        None => state.players.get_dormant(player_id),
    };
    match found {
        Some(p) => "Player ".to_string().concat(p.name.as_str()).concat(" ").concat(action),
        None => "Previous player ".to_string().concat(player_id.as_str()),
    }
}

fn seated_name_of(state: &State, player_id: &PlayerId) -> (name: String)
    ensures
        name@ == seated_name(state.game(), player_id@),
{
    match state.players.get(player_id) {
        Some(p) => p.name.clone(),
        None => String::new(),
    }
}

fn bet_action_text(action: &BetAction) -> (s: String)
    ensures
        s@ == bet_text(*action),
{
    match action {
        BetAction::Check => "checked".to_string(),
        BetAction::Call => "called".to_string(),
        BetAction::RaiseTo(amount) => "raised to \u{a3}".to_string().concat(u64_to_string(*amount).as_str()),
    }
}

fn names_of(state: &State, ids: &Vec<PlayerId>) -> (s: String)
    ensures
        s@ == names_joined(state.game(), ids_of(ids@)),
{
    let ghost g = state.game();
    let n = ids.len();
    let mut s = String::new();
    let mut i: usize = 0;
    while i < n
        invariant
            n == ids@.len(),
            g == state.game(),
            i <= n,
            s@ == names_joined(g, ids_of(ids@).take(i as int)),
        decreases n - i,
    {
        let name = seated_name_of(state, &ids[i]);
        assert(ids_of(ids@).take(i + 1).drop_last() =~= ids_of(ids@).take(i as int));
        if i > 0 {
            s = s.concat(", ");
        }
        s = s.concat(name.as_str());
        i = i + 1;
    }
    assert(ids_of(ids@).take(n as int) =~= ids_of(ids@));
    s
}

impl TickerEvent {
    /// The event as the ticker shows it.
    pub fn format(&self, state: &State) -> (s: String)
        ensures
            s@ == event_text(*self, state.game()),
    {
        match self {
            TickerEvent::GameStarted => "Game started".to_string(),
            TickerEvent::PlayerJoined(id) => format_player_action(state, id, "joined the game"),
            TickerEvent::PlayerTurnTimeout(name) => "Player ".to_string().concat(name.as_str()).concat(" timed out"),
            TickerEvent::PlayerLeft(name) => "Player ".to_string().concat(name.as_str()).concat(" left the game"),
            TickerEvent::PlayerResumed(id) => format_player_action(state, id, "rejoined the game"),
            TickerEvent::PlayerFolded(id) => format_player_action(state, id, "folded"),
            TickerEvent::PlayerBet(id, action) => {
                let text = bet_action_text(action);
                format_player_action(state, id, text.as_str())
            },
            TickerEvent::DealerRotated(id) => format_player_action(state, id, "is the next dealer"),
            TickerEvent::SmallBlindPosted(id) => format_player_action(state, id, "posted the small blind"),
            TickerEvent::BigBlindPosted(id) => format_player_action(state, id, "posted the big blind"),
            TickerEvent::CardsDealtToTable(count) => {
                if *count == 1 {
                    "Dealt another card".to_string()
                } else {
                    "Dealt ".to_string().concat(usize_to_string(*count).as_str()).concat(" cards to table")
                }
            },
            TickerEvent::RoundComplete => "Round complete".to_string(),
            TickerEvent::Winner(id, strength) => {
                let text = "won with ".to_string().concat(strength.name());
                format_player_action(state, id, text.as_str())
            },
            TickerEvent::SplitPotWinners(ids, strength) => {
                let names = names_of(state, ids);
                "Players ".to_string().concat(names.as_str()).concat(" split pot with ").concat(strength_code(*strength))
            },
            TickerEvent::PaidPot(id, amount) => {
                let name = seated_name_of(state, id);
                "Player ".to_string().concat(name.as_str()).concat(" won \u{a3}").concat(u64_to_string(*amount).as_str()).concat(
                    " from pot",
                )
            },
            TickerEvent::PlayerPhotoUploaded(id) => format_player_action(state, id, "added a photo"),
            TickerEvent::PlayerSentEmoji(id, emoji) => {
                let name = seated_name_of(state, id);
                "Player ".to_string().concat(name.as_str()).concat(": ").concat(char_to_string(emoji.as_char()).as_str())
            },
            TickerEvent::PlayerTransferredBalance(from, to, amount) => {
                let from_name = seated_name_of(state, from);
                let to_name = seated_name_of(state, to);
                "Player ".to_string().concat(from_name.as_str()).concat(" transferred \u{a3}").concat(
                    u64_to_string(*amount).as_str(),
                ).concat(" to ").concat(to_name.as_str())
            },
        }
    }
}

} // verus!
