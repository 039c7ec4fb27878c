//! The players of a room, in seating order, and those who have left.
use vstd::prelude::*;

use super::{Player, PlayerId, PlayerPhoto, PlayerView};

verus! {

/// The seated players, in order, each under their identifier; and those who
/// left, who may come back.
#[derive(Debug)]
pub struct Players {
    seated: Vec<(PlayerId, Player)>,
    dormant: Vec<Player>,
}

pub open spec fn seat_view(entry: (PlayerId, Player)) -> (Seq<char>, PlayerView) {
    (entry.0@, entry.1@)
}

/// The position of the first entry under `id`, or the number of entries.
pub open spec fn seat_of(seats: Seq<(Seq<char>, PlayerView)>, id: Seq<char>) -> int
    decreases seats.len(),
{
    if seats.len() == 0 {
        0
    } else if seats[0].0 == id {
        0
    } else {
        1 + seat_of(seats.drop_first(), id)
    }
}

pub proof fn lemma_seat_of(seats: Seq<(Seq<char>, PlayerView)>, id: Seq<char>, i: int)
    requires
        0 <= i <= seats.len(),
        forall|j: int| 0 <= j < i ==> #[trigger] seats[j].0 != id,
        i == seats.len() || seats[i].0 == id,
    ensures
        seat_of(seats, id) == i,
    decreases seats.len(),
{
    if seats.len() > 0 && seats[0].0 != id {
        assert forall|j: int| 0 <= j < i - 1 implies #[trigger] seats.drop_first()[j].0 != id by {
            assert(seats.drop_first()[j] == seats[j + 1]);
        }
        lemma_seat_of(seats.drop_first(), id, i - 1);
    }
}

pub proof fn lemma_seat_of_bounds(seats: Seq<(Seq<char>, PlayerView)>, id: Seq<char>)
    ensures
        0 <= seat_of(seats, id) <= seats.len(),
        seat_of(seats, id) < seats.len() ==> seats[seat_of(seats, id)].0 == id,
        forall|j: int| 0 <= j < seat_of(seats, id) ==> #[trigger] seats[j].0 != id,
    decreases seats.len(),
{
    if seats.len() > 0 && seats[0].0 != id {
        lemma_seat_of_bounds(seats.drop_first(), id);
        let t = seats.drop_first();
        assert forall|j: int| 0 <= j < seat_of(seats, id) implies #[trigger] seats[j].0 != id by {
            if j > 0 {
                assert(seats[j] == t[j - 1]);
            }
        }
    }
}

/// Where a player sits depends on the keys alone.
pub proof fn lemma_seat_of_keys(a: Seq<(Seq<char>, PlayerView)>, b: Seq<(Seq<char>, PlayerView)>, id: Seq<char>)
    requires
        a.len() == b.len(),
        forall|k: int| 0 <= k < a.len() ==> (#[trigger] a[k]).0 == b[k].0,
    ensures
        seat_of(a, id) == seat_of(b, id),
    decreases a.len(),
{
    if a.len() > 0 {
        assert forall|k: int| 0 <= k < a.drop_first().len() implies (#[trigger] a.drop_first()[k]).0 == b.drop_first()[k].0 by {
            assert(a.drop_first()[k] == a[k + 1]);
            assert(b.drop_first()[k] == b[k + 1]);
        }
        assert(a[0].0 == b[0].0);
        lemma_seat_of_keys(a.drop_first(), b.drop_first(), id);
    }
}

/// The position of the last dormant player with the given browser id, or -1.
pub open spec fn last_dormant_with_apid(dormant: Seq<PlayerView>, apid: Seq<char>) -> int
    decreases dormant.len(),
{
    if dormant.len() == 0 {
        -1
    } else if dormant.last().apid == apid {
        dormant.len() - 1
    } else {
        last_dormant_with_apid(dormant.drop_last(), apid)
    }
}

/// The position of the first dormant player with the given identifier, or -1.
pub open spec fn first_dormant_with_id(dormant: Seq<PlayerView>, id: Seq<char>) -> int
    decreases dormant.len(),
{
    if dormant.len() == 0 {
        -1
    } else if dormant[0].id == id {
        0
    } else if first_dormant_with_id(dormant.drop_first(), id) < 0 {
        -1
    } else {
        1 + first_dormant_with_id(dormant.drop_first(), id)
    }
}

/// The position of the first seated player with the given browser id, or -1.
pub open spec fn first_seated_with_apid(seats: Seq<(Seq<char>, PlayerView)>, apid: Seq<char>) -> int
    decreases seats.len(),
{
    if seats.len() == 0 {
        -1
    } else if seats[0].1.apid == apid {
        0
    } else if first_seated_with_apid(seats.drop_first(), apid) < 0 {
        -1
    } else {
        1 + first_seated_with_apid(seats.drop_first(), apid)
    }
}

/// Whether the seated player's photo is served under `token`.
pub open spec fn photo_under(p: PlayerView, token: Seq<char>) -> bool {
    p.photo matches Some((_, t)) && t == token
}

impl Default for Players {
    fn default() -> (players: Self)
        ensures
            players.seats().len() == 0,
            players.dormant().len() == 0,
    {
        Players::new()
    }
}

impl Players {
    /// The seated players, each under the text of their identifier.
    pub closed spec fn seats(&self) -> Seq<(Seq<char>, PlayerView)> {
        self.seated@.map_values(|e: (PlayerId, Player)| seat_view(e))
    }

    /// The players who left, oldest first.
    pub closed spec fn dormant(&self) -> Seq<PlayerView> {
        self.dormant@.map_values(|p: Player| p@)
    }

    /// No one seated.
    pub fn new() -> (players: Self)
        ensures
            players.seats().len() == 0,
            players.dormant().len() == 0,
    {
        let players = Players { seated: Vec::new(), dormant: Vec::new() };
        assert(players.seats() =~= Seq::<(Seq<char>, PlayerView)>::empty());
        assert(players.dormant() =~= Seq::<PlayerView>::empty());
        players
    }

    /// Seats a player last.
    pub fn insert(&mut self, player_id: PlayerId, player: Player)
        ensures
            final(self).seats() == old(self).seats().push((player_id@, player@)),
            final(self).dormant() == old(self).dormant(),
    {
        self.seated.push((player_id, player));
        assert(self.seats() =~= old(self).seats().push((player_id@, player@)));
    }

    pub(crate) fn position(&self, id: &PlayerId) -> (i: usize)
        ensures
            i == seat_of(self.seats(), id@),
            i <= self.seats().len(),
    {
        let mut i: usize = 0;
        while i < self.seated.len()
            invariant
                i <= self.seated@.len(),
                forall|j: int| 0 <= j < i ==> #[trigger] self.seats()[j].0 != id@,
            decreases self.seated@.len() - i,
        {
            if self.seated[i].0 == *id {
                proof {
                    lemma_seat_of(self.seats(), id@, i as int);
                }
                return i;
            }
            i = i + 1;
        }
        proof {
            lemma_seat_of(self.seats(), id@, i as int);
        }
        i
    }

    /// The first seated player under the identifier.
    pub fn get(&self, id: &PlayerId) -> (player: Option<&Player>)
        ensures
            match player {
                Some(p) => seat_of(self.seats(), id@) < self.seats().len() && p@ == self.seats()[seat_of(self.seats(), id@)].1,
                None => seat_of(self.seats(), id@) == self.seats().len(),
            },
    {
        let i = self.position(id);
        if i < self.seated.len() {
            Some(&self.seated[i].1)
        } else {
            None
        }
    }

    /// The first seated player under the identifier, to change.
    pub fn get_mut(&mut self, id: &PlayerId) -> (player: Option<&mut Player>)
        ensures
            final(self).dormant() == old(self).dormant(),
            match player {
                Some(p) => {
                    let i = seat_of(old(self).seats(), id@);
                    &&& i < old(self).seats().len()
                    &&& p@ == old(self).seats()[i].1
                    &&& final(self).seats() == old(self).seats().update(i, (id@, final(p)@))
                },
                None => seat_of(old(self).seats(), id@) == old(self).seats().len() && final(self).seats() == old(self).seats(),
            },
    {
        let i = self.position(id);
        if i < self.seated.len() {
            proof {
                lemma_seat_of_bounds(self.seats(), id@);
            }
            Some(&mut self.seated[i].1)
        } else {
            None
        }
    }

    /// The seated player at a position, to change.
    pub fn at_mut(&mut self, i: usize) -> (player: &mut Player)
        requires
            i < old(self).seats().len(),
        ensures
            final(self).dormant() == old(self).dormant(),
            player@ == old(self).seats()[i as int].1,
            final(self).seats() == old(self).seats().update(i as int, (old(self).seats()[i as int].0, final(player)@)),
    {
        &mut self.seated[i].1
    }

    /// The seated player at a position.
    pub fn at(&self, i: usize) -> (entry: &(PlayerId, Player))
        requires
            i < self.seats().len(),
        ensures
            seat_view(*entry) == self.seats()[i as int],
    {
        &self.seated[i]
    }

    /// Unseats the first player under the identifier; they are kept among
    /// those who left.
    pub fn remove(&mut self, id: &PlayerId) -> (player: Option<Player>)
        ensures
            match player {
                Some(p) => {
                    let i = seat_of(old(self).seats(), id@);
                    &&& i < old(self).seats().len()
                    &&& p@ == old(self).seats()[i].1
                    &&& final(self).seats() == old(self).seats().remove(i)
                    &&& final(self).dormant() == old(self).dormant().push(p@)
                },
                None => seat_of(old(self).seats(), id@) == old(self).seats().len() && final(self).seats()
                    == old(self).seats() && final(self).dormant() == old(self).dormant(),
            },
    {
        let i = self.position(id);
        if i >= self.seated.len() {
            return None;
        }
        let (_, player) = self.seated.remove(i);
        assert(self.seats() =~= old(self).seats().remove(i as int));
        self.dormant.push(player.clone());
        assert(self.dormant() =~= old(self).dormant().push(player@));
        Some(player)
    }

    /// Unseats the first player.
    pub fn pop_first(&mut self) -> (entry: Option<(PlayerId, Player)>)
        ensures
            final(self).dormant() == old(self).dormant(),
            match entry {
                Some(e) => old(self).seats().len() > 0 && seat_view(e) == old(self).seats()[0] && final(self).seats()
                    == old(self).seats().drop_first(),
                None => old(self).seats().len() == 0 && final(self).seats() == old(self).seats(),
            },
    {
        if self.seated.len() == 0 {
            return None;
        }
        let entry = self.seated.remove(0);
        assert(self.seats() =~= old(self).seats().drop_first());
        Some(entry)
    }

    /// The seated players, in order.
    pub fn iter(&self) -> (entries: &[(PlayerId, Player)])
        ensures
            entries@.map_values(|e: (PlayerId, Player)| seat_view(e)) == self.seats(),
    {
        self.seated.as_slice()
    }

    /// The identifiers of the seated players, in order.
    pub fn keys(&self) -> (ids: Vec<PlayerId>)
        ensures
            ids@.len() == self.seats().len(),
            forall|i: int| 0 <= i < ids@.len() ==> #[trigger] ids@[i]@ == self.seats()[i].0,
    {
        let mut ids: Vec<PlayerId> = Vec::new();
        let mut i: usize = 0;
        while i < self.seated.len()
            invariant
                i <= self.seated@.len(),
                ids@.len() == i,
                forall|j: int| 0 <= j < i ==> #[trigger] ids@[j]@ == self.seats()[j].0,
            decreases self.seated@.len() - i,
        {
            ids.push(self.seated[i].0.clone());
            i = i + 1;
        }
        ids
    }

    pub fn len(&self) -> (n: usize)
        ensures
            n == self.seats().len(),
    {
        self.seated.len()
    }

    /// The last player who left from the browser `apid`, seated again.
    pub fn promote_dormant(&mut self, apid: &str) -> (player: Option<Player>)
        ensures
            match player {
                Some(p) => {
                    let d = last_dormant_with_apid(old(self).dormant(), apid@);
                    let k = first_dormant_with_id(old(self).dormant(), old(self).dormant()[d].id);
                    &&& d >= 0
                    &&& p@ == old(self).dormant()[k]
                    &&& final(self).dormant() == old(self).dormant().remove(k)
                    &&& final(self).seats() == old(self).seats().push((p@.id, p@))
                },
                None => last_dormant_with_apid(old(self).dormant(), apid@) < 0 && final(self).seats()
                    == old(self).seats() && final(self).dormant() == old(self).dormant(),
            },
    {
        let d = match self.last_dormant_index(apid) {
            Some(d) => d,
            None => return None,
        };
        let id = self.dormant[d].id.clone();
        let k = match self.first_dormant_index(&id) {
            Some(k) => k,
            None => {
                proof {
                    lemma_first_dormant_found(self.dormant(), id@, d as int);
                }
                return None;
            },
        };
        let player = self.dormant.remove(k);
        assert(self.dormant() =~= old(self).dormant().remove(k as int));
        let copy = player.clone();
        self.seated.push((player.id.clone(), copy));
        assert(self.seats() =~= old(self).seats().push((player@.id, player@)));
        Some(player)
    }

    fn last_dormant_index(&self, apid: &str) -> (d: Option<usize>)
        ensures
            match d {
                Some(d) => d == last_dormant_with_apid(self.dormant(), apid@) && d < self.dormant().len(),
                None => last_dormant_with_apid(self.dormant(), apid@) < 0,
            },
    {
        let mut i: usize = self.dormant.len();
        assert(self.dormant().take(i as int) =~= self.dormant());
        while i > 0
            invariant
                i <= self.dormant@.len(),
                last_dormant_with_apid(self.dormant(), apid@) == last_dormant_with_apid(self.dormant().take(i as int), apid@),
            decreases i,
        {
            let ghost prefix = self.dormant().take(i as int);
            assert(prefix.drop_last() =~= self.dormant().take(i - 1));
            assert(prefix.last() == self.dormant@[i - 1]@);
            if str_eq(self.dormant[i - 1].apid.as_str(), apid) {
                return Some(i - 1);
            }
            i = i - 1;
        }
        None
    }

    fn first_dormant_index(&self, id: &PlayerId) -> (k: Option<usize>)
        ensures
            match k {
                Some(k) => k == first_dormant_with_id(self.dormant(), id@) && k < self.dormant().len(),
                None => first_dormant_with_id(self.dormant(), id@) < 0,
            },
    {
        let mut i: usize = 0;
        assert(self.dormant().skip(0) =~= self.dormant());
        while i < self.dormant.len()
            invariant
                i <= self.dormant@.len(),
                first_dormant_with_id(self.dormant(), id@) == (if first_dormant_with_id(self.dormant().skip(i as int), id@) < 0 {
                    -1
                } else {
                    i + first_dormant_with_id(self.dormant().skip(i as int), id@)
                }),
            decreases self.dormant@.len() - i,
        {
            let ghost rest = self.dormant().skip(i as int);
            assert(rest.drop_first() =~= self.dormant().skip(i + 1));
            assert(rest[0] == self.dormant@[i as int]@);
            if self.dormant[i].id == *id {
                return Some(i);
            }
            i = i + 1;
        }
        None
    }

    /// The last player who left from the browser `apid`.
    pub fn peek_dormant(&self, apid: &str) -> (player: Option<&Player>)
        ensures
            match player {
                Some(p) => {
                    let d = last_dormant_with_apid(self.dormant(), apid@);
                    d >= 0 && p@ == self.dormant()[d]
                },
                None => last_dormant_with_apid(self.dormant(), apid@) < 0,
            },
    {
        match self.last_dormant_index(apid) {
            Some(d) => Some(&self.dormant[d]),
            None => None,
        }
    }

    /// The first player who left under the identifier.
    pub fn get_dormant(&self, player_id: &PlayerId) -> (player: Option<&Player>)
        ensures
            match player {
                Some(p) => {
                    let k = first_dormant_with_id(self.dormant(), player_id@);
                    k >= 0 && p@ == self.dormant()[k]
                },
                None => first_dormant_with_id(self.dormant(), player_id@) < 0,
            },
    {
        match self.first_dormant_index(player_id) {
            Some(k) => Some(&self.dormant[k]),
            None => None,
        }
    }

    /// The photo of a seated player that is served under `token`, the first
    /// such when there are several.
    pub fn photo_with_token(&self, token: &str) -> (photo: Option<&PlayerPhoto>)
        ensures
            match photo {
                Some(ph) => exists|i: int|
                    0 <= i < self.seats().len() && photo_under(#[trigger] self.seats()[i].1, token@)
                        && self.seats()[i].1.photo == Some((ph.0@, ph.1.value@)) && forall|j: int|
                        0 <= j < i ==> !photo_under(#[trigger] self.seats()[j].1, token@),
                None => forall|i: int| 0 <= i < self.seats().len() ==> !photo_under(#[trigger] self.seats()[i].1, token@),
            },
    {
        let n = self.seated.len();
        let mut i: usize = 0;
        while i < n
            invariant
                n == self.seats().len(),
                i <= n,
                forall|j: int| 0 <= j < i ==> !photo_under(#[trigger] self.seats()[j].1, token@),
            decreases n - i,
        {
            assert(self.seats()[i as int] == seat_view(self.seated@[i as int]));
            match &self.seated[i].1.photo {
                Some(ph) => {
                    if str_eq(ph.1.value.as_str(), token) {
                        assert(self.seats()[i as int].1.photo == Some((ph.0@, ph.1.value@)));
                        assert(photo_under(self.seats()[i as int].1, token@));
                        return Some(ph);
                    }
                },
                None => {},
            }
            i = i + 1;
        }
        None
    }

    /// The first seated player from the browser `apid`.
    pub fn get_non_dormant(&self, apid: &str) -> (player: Option<&Player>)
        ensures
            match player {
                Some(p) => {
                    let k = first_seated_with_apid(self.seats(), apid@);
                    k >= 0 && p@ == self.seats()[k].1
                },
                None => first_seated_with_apid(self.seats(), apid@) < 0,
            },
    {
        let mut i: usize = 0;
        assert(self.seats().skip(0) =~= self.seats());
        while i < self.seated.len()
            invariant
                i <= self.seated@.len(),
                first_seated_with_apid(self.seats(), apid@) == (if first_seated_with_apid(self.seats().skip(i as int), apid@) < 0 {
                    -1
                } else {
                    i + first_seated_with_apid(self.seats().skip(i as int), apid@)
                }),
            decreases self.seated@.len() - i,
        {
            let ghost rest = self.seats().skip(i as int);
            assert(rest.drop_first() =~= self.seats().skip(i + 1));
            assert(rest[0] == seat_view(self.seated@[i as int]));
            if str_eq(self.seated[i].1.apid.as_str(), apid) {
                return Some(&self.seated[i].1);
            }
            i = i + 1;
        }
        None
    }
}

/// Whether two texts are the same.
pub fn str_eq(a: &str, b: &str) -> (same: bool)
    ensures
        same == (a@ == b@),
{
    let n = a.unicode_len();
    if n != b.unicode_len() {
        return false;
    }
    let mut i: usize = 0;
    while i < n
        invariant
            n == a@.len(),
            n == b@.len(),
            i <= n,
            forall|j: int| 0 <= j < i ==> a@[j] == b@[j],
        decreases n - i,
    {
        if a.get_char(i) != b.get_char(i) {
            return false;
        }
        i = i + 1;
    }
    assert(a@ =~= b@);
    true
}

proof fn lemma_first_dormant_found(dormant: Seq<PlayerView>, id: Seq<char>, d: int)
    requires
        0 <= d < dormant.len(),
        dormant[d].id == id,
    ensures
        first_dormant_with_id(dormant, id) >= 0,
    decreases dormant.len(),
{
    if dormant[0].id != id {
        assert(dormant.drop_first()[d - 1] == dormant[d]);
        lemma_first_dormant_found(dormant.drop_first(), id, d - 1);
    }
}

} // verus!
