//! The ticker: a timeline of short messages about what happens in a room.
use vstd::prelude::*;

use super::dt::Instant;
use super::{BetAction, PlayerId, TICKER_ITEM_GAP_MILLISECONDS, TICKER_ITEM_TIMEOUT_SECONDS};
use crate::cards::HandStrength;

pub use emoji::TickerEmoji;

pub mod emoji;
pub mod format;

verus! {

#[derive(Debug)]
pub enum TickerEvent {
    GameStarted,
    PlayerJoined(PlayerId),
    PlayerTurnTimeout(String),
    PlayerLeft(String),
    PlayerResumed(PlayerId),
    PlayerFolded(PlayerId),
    PlayerBet(PlayerId, BetAction),
    DealerRotated(PlayerId),
    SmallBlindPosted(PlayerId),
    BigBlindPosted(PlayerId),
    CardsDealtToTable(usize),
    RoundComplete,
    Winner(PlayerId, HandStrength),
    SplitPotWinners(Vec<PlayerId>, HandStrength),
    PaidPot(PlayerId, u64),
    PlayerPhotoUploaded(PlayerId),
    PlayerSentEmoji(PlayerId, TickerEmoji),
    PlayerTransferredBalance(PlayerId, PlayerId, u64),
}

#[derive(Debug)]
pub struct TickerItem {
    pub seq_index: usize,
    pub start: Instant,
    pub end: Instant,
    pub payload: TickerEvent,
}

#[derive(Debug)]
pub struct Ticker {
    events: Vec<TickerItem>,
    counter: usize,
    last_event: Option<Instant>,
}

/// How long an item stays on the ticker, in milliseconds.
pub open spec fn item_timeout_ms() -> int {
    TICKER_ITEM_TIMEOUT_SECONDS * 1000
}

/// When an item emitted at `now` with `delay` starts: at `now + delay`, but
/// never sooner than the gap after the previous item's start.
pub open spec fn next_start(last: Option<u64>, now: u64, delay: u64) -> int {
    let instant = now + delay;
    match last {
        Some(l) => {
            let since = if instant >= l { instant - l } else { 0 };
            let gap = if since >= TICKER_ITEM_GAP_MILLISECONDS { since } else { TICKER_ITEM_GAP_MILLISECONDS as int };
            l + gap
        },
        None => instant,
    }
}

/// Emitting at `now` with `delay` stays within the range of the clock.
pub open spec fn emit_fits(last: Option<u64>, counter: usize, now: u64, delay: u64) -> bool {
    &&& now + delay + TICKER_ITEM_GAP_MILLISECONDS + item_timeout_ms() <= u64::MAX
    &&& (last matches Some(l) ==> l + TICKER_ITEM_GAP_MILLISECONDS + item_timeout_ms() <= u64::MAX)
    &&& counter < usize::MAX
}

/// An item never starts sooner than the gap after the one before it, nor
/// sooner than it was asked for.
pub proof fn law_items_keep_their_gap(last: Option<u64>, now: u64, delay: u64)
    ensures
        next_start(last, now, delay) >= now + delay,
        last matches Some(l) ==> next_start(last, now, delay) >= l + TICKER_ITEM_GAP_MILLISECONDS,
{
}

/// Items in the order they were emitted: each later one has a higher
/// sequence number and starts at least the gap after every earlier one.
pub open spec fn items_in_order(items: Seq<TickerItem>) -> bool {
    forall|i: int, j: int|
        0 <= i < j < items.len() ==> (#[trigger] items[i]).seq_index < (#[trigger] items[j]).seq_index && items[j].start@
            >= items[i].start@ + TICKER_ITEM_GAP_MILLISECONDS
}

/// An item of a ticker that has emitted `counter` items, the last starting
/// at `last`: it lasts the timeout, was numbered before the counter, and
/// starts no later than the last one.
pub open spec fn item_fits(item: TickerItem, counter: usize, last: Option<u64>) -> bool {
    &&& item.end@ == item.start@ + item_timeout_ms()
    &&& item.seq_index < counter
    &&& last matches Some(l) && item.start@ <= l
}

/// On a ticker reached from an empty one by emitting and clearing, every
/// item lasts the timeout, and each later item has a higher sequence number
/// and starts at least the gap after every earlier one.
pub proof fn law_ticker_items_in_order(t: Ticker)
    requires
        t.wf(),
    ensures
        forall|i: int| 0 <= i < t.items().len() ==> (#[trigger] t.items()[i]).end@ - t.items()[i].start@ == item_timeout_ms(),
        forall|i: int, j: int|
            0 <= i < j < t.items().len() ==> (#[trigger] t.items()[i]).seq_index < (#[trigger] t.items()[j]).seq_index
                && t.items()[j].start@ - t.items()[i].start@ >= TICKER_ITEM_GAP_MILLISECONDS,
{
    assert forall|i: int| 0 <= i < t.items().len() implies (#[trigger] t.items()[i]).end@ - t.items()[i].start@ == item_timeout_ms() by {
        assert(item_fits(t.items()[i], t.counter(), t.last_start()));
    }
}

/// Keeping only some items keeps them in order and each of them as it was.
pub proof fn lemma_filter_keeps_order(items: Seq<TickerItem>, p: spec_fn(TickerItem) -> bool, counter: usize, last: Option<u64>)
    requires
        items_in_order(items),
        forall|i: int| 0 <= i < items.len() ==> item_fits(#[trigger] items[i], counter, last),
    ensures
        items_in_order(items.filter(p)),
        forall|i: int| 0 <= i < items.filter(p).len() ==> item_fits(#[trigger] items.filter(p)[i], counter, last),
    decreases items.len(),
{
    reveal_with_fuel(Seq::<_>::filter, 1);
    if items.len() > 0 {
        let d = items.drop_last();
        assert forall|i: int, j: int| 0 <= i < j < d.len() implies (#[trigger] d[i]).seq_index < (#[trigger] d[j]).seq_index
            && d[j].start@ >= d[i].start@ + TICKER_ITEM_GAP_MILLISECONDS by {
            assert(d[i] == items[i] && d[j] == items[j]);
        }
        assert forall|i: int| 0 <= i < d.len() implies item_fits(#[trigger] d[i], counter, last) by {
            assert(d[i] == items[i]);
        }
        lemma_filter_keeps_order(d, p, counter, last);
        let f = d.filter(p);
        if p(items.last()) {
            let g = f.push(items.last());
            assert forall|i: int, j: int| 0 <= i < j < g.len() implies (#[trigger] g[i]).seq_index < (#[trigger] g[j]).seq_index
                && g[j].start@ >= g[i].start@ + TICKER_ITEM_GAP_MILLISECONDS by {
                if j == g.len() - 1 {
                    assert(f.contains(f[i]));
                    d.lemma_filter_contains_rev(p, f[i]);
                    let k = choose|k: int| 0 <= k < d.len() && d[k] == f[i];
                    assert(items[k] == d[k]);
                    assert(items[items.len() - 1] == items.last());
                } else {
                    assert(g[i] == f[i] && g[j] == f[j]);
                }
            }
            assert forall|i: int| 0 <= i < g.len() implies item_fits(#[trigger] g[i], counter, last) by {
                if i == g.len() - 1 {
                    assert(items[items.len() - 1] == items.last());
                } else {
                    assert(g[i] == f[i]);
                }
            }
        }
    }
}

pub open spec fn is_expired(item: TickerItem, now: u64) -> bool {
    item.end@ <= now
}

pub open spec fn unexpired(now: u64) -> spec_fn(TickerItem) -> bool {
    |item: TickerItem| !is_expired(item, now)
}

pub open spec fn is_active(item: TickerItem, now: u64) -> bool {
    item.start@ <= now && item.end@ > now
}

impl Default for Ticker {
    fn default() -> (ticker: Ticker)
        ensures
            ticker.items().len() == 0,
            ticker.counter() == 0,
            ticker.last_start() is None,
            ticker.wf(),
    {
        Ticker::new()
    }
}

impl Ticker {
    /// An empty ticker.
    pub fn new() -> (ticker: Ticker)
        ensures
            ticker.items().len() == 0,
            ticker.counter() == 0,
            ticker.last_start() is None,
            ticker.wf(),
    {
        Ticker { events: Vec::new(), counter: 0, last_event: None }
    }

    /// The items on the ticker, oldest first.
    pub closed spec fn items(&self) -> Seq<TickerItem> {
        self.events@
    }

    /// How many items have been emitted.
    pub closed spec fn counter(&self) -> usize {
        self.counter
    }

    /// When the last emitted item starts.
    pub closed spec fn last_start(&self) -> Option<u64> {
        match self.last_event {
            Some(i) => Some(i@),
            None => None,
        }
    }

    /// The items are in the order emitted, each lasting the timeout.
    pub open spec fn wf(&self) -> bool {
        &&& items_in_order(self.items())
        &&& forall|i: int| 0 <= i < self.items().len() ==> item_fits(#[trigger] self.items()[i], self.counter(), self.last_start())
    }

    /// The effect of emitting `event` with `delay` at `now`.
    pub open spec fn emitted(old: Ticker, new: Ticker, event: TickerEvent, delay: u64, now: u64) -> bool {
        let start = next_start(old.last_start(), now, delay);
        &&& new.items().len() == old.items().len() + 1
        &&& new.items().drop_last() == old.items()
        &&& new.items().last().seq_index == old.counter()
        &&& new.items().last().start@ == start
        &&& new.items().last().end@ == start + item_timeout_ms()
        &&& new.items().last().payload == event
        &&& new.counter() == old.counter() + 1
        &&& new.last_start() == Some(start as u64)
    }

    /// Emits an event now.
    pub fn emit(&mut self, event: TickerEvent)
        ensures
            exists|now: u64| Self::emitted(*old(self), *final(self), event, 0, now) || (!#[trigger] emit_fits(
                old(self).last_start(),
                old(self).counter(),
                now,
                0,
            ) && *final(self) == *old(self)),
            old(self).wf() ==> final(self).wf(),
    {
        let now = Instant::now().as_u64();
        let ghost ev = event;
        if self.fits(now, 0) {
            self.emit_with_delay_at(event, 0, now);
        }
        assert(Self::emitted(*old(self), *self, ev, 0, now) || (!emit_fits(
            old(self).last_start(),
            old(self).counter(),
            now,
            0,
        ) && *self == *old(self)));
    }

    /// Emits an event to show `delay` milliseconds from now. Should the time
    /// run past the clock's range, the ticker is left as it is.
    pub fn emit_with_delay(&mut self, event: TickerEvent, delay: u64)
        ensures
            exists|now: u64| Self::emitted(*old(self), *final(self), event, delay, now) || (!#[trigger] emit_fits(
                old(self).last_start(),
                old(self).counter(),
                now,
                delay,
            ) && *final(self) == *old(self)),
            old(self).wf() ==> final(self).wf(),
    {
        let now = Instant::now().as_u64();
        let ghost before = *self;
        let ghost ev = event;
        if self.fits(now, delay) {
            self.emit_with_delay_at(event, delay, now);
        }
        assert(Self::emitted(*old(self), *self, ev, delay, now) || (!emit_fits(
            old(self).last_start(),
            old(self).counter(),
            now,
            delay,
        ) && *self == *old(self)));
    }

    fn fits(&self, now: u64, delay: u64) -> (fits: bool)
        ensures
            fits == emit_fits(self.last_start(), self.counter(), now, delay),
    {
        let room: u64 = TICKER_ITEM_GAP_MILLISECONDS + TICKER_ITEM_TIMEOUT_SECONDS * 1000;
        if now > u64::MAX - room || delay > u64::MAX - room - now {
            return false;
        }
        if let Some(last) = self.last_event {
            if last.as_u64() > u64::MAX - room {
                return false;
            }
        }
        self.counter < usize::MAX
    }

    /// Emits an event to show `delay` milliseconds after `now`.
    pub fn emit_with_delay_at(&mut self, event: TickerEvent, delay: u64, now: u64)
        requires
            emit_fits(old(self).last_start(), old(self).counter(), now, delay),
        ensures
            Self::emitted(*old(self), *final(self), event, delay, now),
            old(self).wf() ==> final(self).wf(),
    {
        let ghost ev = event;
        let instant = now + delay;
        let start = match self.last_event {
            Some(last) => {
                let l = last.as_u64();
                let since = if instant >= l { instant - l } else { 0 };
                let gap = if since >= TICKER_ITEM_GAP_MILLISECONDS { since } else { TICKER_ITEM_GAP_MILLISECONDS };
                l + gap
            },
            None => instant,
        };
        let end = start + TICKER_ITEM_TIMEOUT_SECONDS * 1000;
        let start_at = Instant::from_ms(start);
        let end_at = Instant::from_ms(end);
        let ghost before = self.events@;
        self.events.push(TickerItem { seq_index: self.counter, start: start_at, end: end_at, payload: event });
        assert(self.events@.drop_last() =~= before);
        self.counter = self.counter + 1;
        self.last_event = Some(start_at);
        proof {
            if old(self).wf() {
                Self::lemma_emitted_keeps_order(*old(self), *self, ev, delay, now);
            }
        }
    }

    /// Emitting keeps the items in order, each lasting the timeout.
    pub proof fn lemma_emitted_keeps_order(old: Ticker, new: Ticker, event: TickerEvent, delay: u64, now: u64)
        requires
            old.wf(),
            Self::emitted(old, new, event, delay, now),
        ensures
            new.wf(),
    {
        let o = old.items();
        let n = new.items();
        law_items_keep_their_gap(old.last_start(), now, delay);
        assert forall|i: int| 0 <= i < o.len() implies #[trigger] n[i] == o[i] by {
            assert(n.drop_last()[i] == n[i]);
        }
        assert forall|i: int, j: int| 0 <= i < j < n.len() implies (#[trigger] n[i]).seq_index < (#[trigger] n[j]).seq_index
            && n[j].start@ >= n[i].start@ + TICKER_ITEM_GAP_MILLISECONDS by {
            if j == n.len() - 1 {
                assert(item_fits(o[i], old.counter(), old.last_start()));
            } else {
                assert(n[i] == o[i] && n[j] == o[j]);
            }
        }
        assert forall|i: int| 0 <= i < n.len() implies item_fits(#[trigger] n[i], new.counter(), new.last_start()) by {
            if i < n.len() - 1 {
                assert(item_fits(o[i], old.counter(), old.last_start()));
            }
        }
    }

    /// Drops the items that have ended by `now`.
    pub fn clear_expired_items(&mut self, now: Instant)
        ensures
            final(self).items() == old(self).items().filter(unexpired(now@)),
            final(self).counter() == old(self).counter(),
            final(self).last_start() == old(self).last_start(),
            old(self).wf() ==> final(self).wf(),
    {
        let ghost initial = self.events@;
        let mut i: usize = 0;
        let ghost mut k: int = 0;
        while i < self.events.len()
            invariant
                0 <= i <= k <= initial.len(),
                self.events@.len() == i + (initial.len() - k),
                self.events@.take(i as int) == initial.take(k).filter(unexpired(now@)),
                self.events@.skip(i as int) == initial.skip(k),
                self.counter == old(self).counter,
                self.last_event == old(self).last_event,
            decreases initial.len() - k,
        {
            let ghost before = self.events@;
            assert(before[i as int] == initial[k]) by {
                assert(before.skip(i as int)[0] == initial.skip(k)[0]);
            }
            assert(initial.take(k + 1).drop_last() =~= initial.take(k));
            assert(initial.take(k + 1).last() == initial[k]);
            assert(initial.take(k + 1).filter(unexpired(now@)) == (if unexpired(now@)(initial[k]) {
                initial.take(k).filter(unexpired(now@)).push(initial[k])
            } else {
                initial.take(k).filter(unexpired(now@))
            })) by {
                reveal_with_fuel(Seq::<_>::filter, 1);
            }
            assert forall|j: int| 0 <= j < initial.len() - (k + 1) implies #[trigger] initial.skip(k + 1)[j]
                == before[i + 1 + j] by {
                assert(initial.skip(k + 1)[j] == initial.skip(k)[j + 1]);
                assert(before.skip(i as int)[j + 1] == before[i + 1 + j]);
            }
            if self.events[i].end.as_u64() <= now.as_u64() {
                self.events.remove(i);
                assert(self.events@.take(i as int) =~= before.take(i as int));
                assert(!unexpired(now@)(initial[k]));
                assert(self.events@.take(i as int) == initial.take(k + 1).filter(unexpired(now@)));
                assert(self.events@.skip(i as int) =~= initial.skip(k + 1));
            } else {
                i = i + 1;
                assert(self.events@.take(i as int) =~= before.take(i - 1).push(before[i - 1]));
                assert(unexpired(now@)(initial[k]));
                assert(self.events@.take(i as int) == initial.take(k + 1).filter(unexpired(now@)));
                assert(self.events@.skip(i as int) =~= initial.skip(k + 1));
            }
            proof {
                k = k + 1;
            }
        }
        assert(initial.take(k) =~= initial);
        assert(self.events@ =~= self.events@.take(i as int));
        proof {
            if old(self).wf() {
                lemma_filter_keeps_order(initial, unexpired(now@), old(self).counter(), old(self).last_start());
            }
        }
    }

    /// Whether some item has ended by `now`.
    pub fn has_expired_items(&self, now: Instant) -> (expired: bool)
        ensures
            expired == exists|i: int| 0 <= i < self.items().len() && is_expired(#[trigger] self.items()[i], now@),
    {
        let mut i: usize = 0;
        while i < self.events.len()
            invariant
                i <= self.events@.len(),
                forall|j: int| 0 <= j < i ==> !is_expired(#[trigger] self.events@[j], now@),
            decreases self.events@.len() - i,
        {
            if self.events[i].end.as_u64() <= now.as_u64() {
                assert(is_expired(self.items()[i as int], now@));
                return true;
            }
            i = i + 1;
        }
        false
    }

    pub fn len(&self) -> (n: usize)
        ensures
            n == self.items().len(),
    {
        self.events.len()
    }

    /// The items on the ticker, oldest first.
    pub fn iter(&self) -> (items: &[TickerItem])
        ensures
            items@ == self.items(),
    {
        self.events.as_slice()
    }

    /// Positions of the items showing at `now`: started and not yet ended.
    pub fn active_items(&self, now: Instant) -> (active: Vec<usize>)
        ensures
            forall|k: int| 0 <= k < active@.len() ==> #[trigger] active@[k] < self.items().len()
                && is_active(self.items()[active@[k] as int], now@),
            forall|k: int, l: int| 0 <= k < l < active@.len() ==> active@[k] < active@[l],
            forall|i: int| 0 <= i < self.items().len() && is_active(#[trigger] self.items()[i], now@)
                ==> active@.contains(i as usize),
    {
        let mut active: Vec<usize> = Vec::new();
        let mut i: usize = 0;
        while i < self.events.len()
            invariant
                i <= self.events@.len(),
                forall|k: int| 0 <= k < active@.len() ==> #[trigger] active@[k] < i && is_active(
                    self.events@[active@[k] as int],
                    now@,
                ),
                forall|k: int, l: int| 0 <= k < l < active@.len() ==> active@[k] < active@[l],
                forall|j: int| 0 <= j < i && is_active(#[trigger] self.events@[j], now@) ==> active@.contains(j as usize),
            decreases self.events@.len() - i,
        {
            let item = &self.events[i];
            if item.start.as_u64() <= now.as_u64() && item.end.as_u64() > now.as_u64() {
                let ghost before = active@;
                active.push(i);
                assert forall|j: int| 0 <= j < i + 1 && is_active(#[trigger] self.events@[j], now@) implies active@.contains(j as usize) by {
                    if j < i {
                        let w = choose|w: int| 0 <= w < before.len() && before[w] == j as usize;
                        assert(active@[w] == j as usize);
                    } else {
                        assert(active@[active@.len() - 1] == i);
                    }
                }
            }
            i = i + 1;
        }
        active
    }

    /// How long an item stays on the ticker, in milliseconds.
    pub fn timeout_ms(&self) -> (ms: u64)
        ensures
            ms == item_timeout_ms(),
    {
        TICKER_ITEM_TIMEOUT_SECONDS * 1000
    }
}

} // verus!
