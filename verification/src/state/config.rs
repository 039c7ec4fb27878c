//! The settings of a room: blinds, seats, starting balance, ticker.
use vstd::prelude::*;

use super::{MAX_PLAYERS, SMALL_BLIND, STARTING_BALANCE};

verus! {

#[derive(Debug, Clone)]
pub struct RoomConfig {
    small_blind: u64,
    max_players: usize,
    starting_balance: u64,
    ticker_disabled: bool,
}

impl RoomConfig {
    pub closed spec fn spec_small_blind(&self) -> u64 {
        self.small_blind
    }

    pub closed spec fn spec_max_players(&self) -> usize {
        self.max_players
    }

    pub closed spec fn spec_starting_balance(&self) -> u64 {
        self.starting_balance
    }

    pub closed spec fn spec_ticker_disabled(&self) -> bool {
        self.ticker_disabled
    }

    /// The small blind is positive and below the starting balance, and the
    /// room has between one and the game's limit of seats.
    pub open spec fn wf(&self) -> bool {
        &&& 0 < self.spec_small_blind() < self.spec_starting_balance()
        &&& 0 < self.spec_max_players() <= MAX_PLAYERS
    }

    /// The standard settings; whether the ticker is off is the caller's choice
    /// (the server takes it from its environment).
    pub fn with_defaults(ticker_disabled: bool) -> (config: Self)
        ensures
            config.spec_small_blind() == SMALL_BLIND,
            config.spec_max_players() == MAX_PLAYERS,
            config.spec_starting_balance() == STARTING_BALANCE,
            config.spec_ticker_disabled() == ticker_disabled,
            config.wf(),
    {
        RoomConfig {
            small_blind: SMALL_BLIND,
            max_players: MAX_PLAYERS,
            starting_balance: STARTING_BALANCE,
            ticker_disabled,
        }
    }

    pub fn small_blind(&self) -> (blind: u64)
        ensures
            blind == self.spec_small_blind(),
    {
        self.small_blind
    }

    /// The big blind is twice the small blind.
    pub fn big_blind(&self) -> (blind: u64)
        requires
            self.spec_small_blind() * 2 <= u64::MAX,
        ensures
            blind == self.spec_small_blind() * 2,
    {
        self.small_blind * 2
    }

    /// The small blind must be positive and below the starting balance.
    pub fn with_small_blind(self, small_blind: u64) -> (config: Self)
        requires
            small_blind > 0,
            small_blind < self.spec_starting_balance(),
        ensures
            config.spec_small_blind() == small_blind,
            config.spec_max_players() == self.spec_max_players(),
            config.spec_starting_balance() == self.spec_starting_balance(),
            config.spec_ticker_disabled() == self.spec_ticker_disabled(),
            self.wf() ==> config.wf(),
    {
        let mut config = self;
        config.small_blind = small_blind;
        config
    }

    pub fn max_players(&self) -> (n: usize)
        ensures
            n == self.spec_max_players(),
    {
        self.max_players
    }

    /// At least one seat; never more than the game's limit.
    pub fn with_max_players(self, max_players: usize) -> (config: Self)
        requires
            max_players > 0,
        ensures
            config.spec_max_players() == (if max_players < MAX_PLAYERS {
                max_players
            } else {
                MAX_PLAYERS
            }),
            config.spec_small_blind() == self.spec_small_blind(),
            config.spec_starting_balance() == self.spec_starting_balance(),
            config.spec_ticker_disabled() == self.spec_ticker_disabled(),
            self.wf() ==> config.wf(),
    {
        let mut config = self;
        config.max_players = if max_players < MAX_PLAYERS {
            max_players
        } else {
            MAX_PLAYERS
        };
        config
    }

    pub fn starting_balance(&self) -> (balance: u64)
        ensures
            balance == self.spec_starting_balance(),
    {
        self.starting_balance
    }

    /// The starting balance must be positive and above the small blind.
    pub fn with_starting_balance(self, starting_balance: u64) -> (config: Self)
        requires
            starting_balance > 0,
            starting_balance > self.spec_small_blind(),
        ensures
            config.spec_starting_balance() == starting_balance,
            config.spec_small_blind() == self.spec_small_blind(),
            config.spec_max_players() == self.spec_max_players(),
            config.spec_ticker_disabled() == self.spec_ticker_disabled(),
            self.wf() ==> config.wf(),
    {
        let mut config = self;
        config.starting_balance = starting_balance;
        config
    }

    pub fn ticker_disabled(&self) -> (disabled: bool)
        ensures
            disabled == self.spec_ticker_disabled(),
    {
        self.ticker_disabled
    }

    pub fn with_ticker_enabled(self) -> (config: Self)
        ensures
            !config.spec_ticker_disabled(),
            config.spec_small_blind() == self.spec_small_blind(),
            config.spec_max_players() == self.spec_max_players(),
            config.spec_starting_balance() == self.spec_starting_balance(),
            self.wf() ==> config.wf(),
    {
        let mut config = self;
        config.ticker_disabled = false;
        config
    }

    pub fn with_ticker_disabled(self) -> (config: Self)
        ensures
            config.spec_ticker_disabled(),
            config.spec_small_blind() == self.spec_small_blind(),
            config.spec_max_players() == self.spec_max_players(),
            config.spec_starting_balance() == self.spec_starting_balance(),
            self.wf() ==> config.wf(),
    {
        let mut config = self;
        config.ticker_disabled = true;
        config
    }
}

} // verus!
