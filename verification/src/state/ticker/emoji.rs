//! The emoji players can send to the room.
use vstd::prelude::*;

use crate::state::players::str_eq;

verus! {

#[derive(Debug, Clone, Copy, PartialEq, Eq, Structural)]
pub struct TickerEmoji(char);

impl View for TickerEmoji {
    type V = char;

    closed spec fn view(&self) -> char {
        self.0
    }
}

impl TickerEmoji {
    pub fn thumbs_up() -> (e: Self)
        ensures
            e@ == '\u{1F44D}',
    {
        Self('\u{1F44D}')
    }

    pub fn thumbs_down() -> (e: Self)
        ensures
            e@ == '\u{1F44E}',
    {
        Self('\u{1F44E}')
    }

    pub fn clapping() -> (e: Self)
        ensures
            e@ == '\u{1F44F}',
    {
        Self('\u{1F44F}')
    }

    pub fn time() -> (e: Self)
        ensures
            e@ == '\u{23F3}',
    {
        Self('\u{23F3}')
    }

    pub fn thinking() -> (e: Self)
        ensures
            e@ == '\u{1F914}',
    {
        Self('\u{1F914}')
    }

    pub fn money() -> (e: Self)
        ensures
            e@ == '\u{1F4B0}',
    {
        Self('\u{1F4B0}')
    }

    pub fn angry() -> (e: Self)
        ensures
            e@ == '\u{1F621}',
    {
        Self('\u{1F621}')
    }

    pub fn as_char(&self) -> (c: char)
        ensures
            c == self@,
    {
        self.0
    }
}

/// The emoji a player's message names: the emoji itself or its short name.
pub open spec fn emoji_named(message: Seq<char>) -> Option<char> {
    if message == "\u{1F44D}"@ || message == ":+1:"@ {
        Some('\u{1F44D}')
    } else if message == "\u{1F44E}"@ || message == ":-1:"@ {
        Some('\u{1F44E}')
    } else if message == "\u{1F44F}"@ || message == ":clapping:"@ {
        Some('\u{1F44F}')
    } else if message == "\u{23F3}"@ || message == ":time:"@ {
        Some('\u{23F3}')
    } else if message == "\u{1F914}"@ || message == ":thinking:"@ {
        Some('\u{1F914}')
    } else if message == "\u{1F602}"@ || message == ":money:"@ {
        Some('\u{1F4B0}')
    } else if message == "\u{1F621}"@ || message == ":angry:"@ {
        Some('\u{1F621}')
    } else {
        None
    }
}

impl TickerEmoji {
    /// The emoji that a player's message names, if any.
    pub fn from_message(message: &str) -> (emoji: Option<TickerEmoji>)
        ensures
            match emoji {
                Some(e) => emoji_named(message@) == Some(e@),
                None => emoji_named(message@) is None,
            },
    {
        if str_eq(message, "\u{1F44D}") || str_eq(message, ":+1:") {
            Some(Self::thumbs_up())
        } else if str_eq(message, "\u{1F44E}") || str_eq(message, ":-1:") {
            Some(Self::thumbs_down())
        } else if str_eq(message, "\u{1F44F}") || str_eq(message, ":clapping:") {
            Some(Self::clapping())
        } else if str_eq(message, "\u{23F3}") || str_eq(message, ":time:") {
            Some(Self::time())
        } else if str_eq(message, "\u{1F914}") || str_eq(message, ":thinking:") {
            Some(Self::thinking())
        } else if str_eq(message, "\u{1F602}") || str_eq(message, ":money:") {
            Some(Self::money())
        } else if str_eq(message, "\u{1F621}") || str_eq(message, ":angry:") {
            Some(Self::angry())
        } else {
            None
        }
    }
}

} // verus!
