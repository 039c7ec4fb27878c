//! Room codes and the registry of which player is in which room.
use vstd::prelude::*;

use super::{PlayerId, ROOM_CODE_LENGTH};
use rand::Rng;
use vstd::std_specs::cmp::PartialEqSpecImpl;

verus! {

/// `rand`'s thread-local generator drawing from `0..n`; the range must not be
/// empty. The draw rests on chance: only that it lies in the range is stated.
#[verifier::external_body]
fn random_below(n: usize) -> (r: usize)
    requires
        n > 0,
    ensures
        r < n,
{
    let mut rng = rand::thread_rng();
    rng.gen_range(0..n)
}

pub open spec fn is_ascii_letter(c: char) -> bool {
    ('a' <= c && c <= 'z') || ('A' <= c && c <= 'Z')
}

pub open spec fn is_upper_letter(c: char) -> bool {
    'A' <= c && c <= 'Z'
}

pub open spec fn upper_char(c: char) -> char {
    if 'a' <= c && c <= 'z' {
        ((c as u32) - 32) as char
    } else {
        c
    }
}

/// The text of the code a string parses to, when it is one.
pub open spec fn parse_room_code(s: Seq<char>) -> Option<Seq<char>> {
    if s.len() == ROOM_CODE_LENGTH && forall|i: int| 0 <= i < s.len() ==> is_ascii_letter(#[trigger] s[i]) {
        Some(s.map_values(|c: char| upper_char(c)))
    } else {
        None
    }
}

/// A parsed code parses to itself: codes are kept in the form they are read
/// back in.
pub proof fn law_room_code_parse_idempotent(s: Seq<char>)
    requires
        parse_room_code(s) is Some,
    ensures
        parse_room_code(parse_room_code(s)->0) == parse_room_code(s),
{
    let t = parse_room_code(s)->0;
    assert forall|i: int| 0 <= i < t.len() implies is_upper_letter(#[trigger] t[i]) by {
        assert(is_ascii_letter(s[i]));
    }
    assert(t.map_values(|c: char| upper_char(c)) =~= t);
}

/// Every room that a player is in exists.
pub open spec fn rooms_cover(player_rooms: Map<Seq<char>, Seq<char>>, rooms: Set<Seq<char>>) -> bool {
    forall|p: Seq<char>| #[trigger] player_rooms.dom().contains(p) ==> rooms.contains(player_rooms[p])
}

/// Creating a room for a player, or putting a player in a room that exists,
/// keeps every player's room in existence.
pub proof fn law_joining_keeps_rooms_covered(
    player_rooms: Map<Seq<char>, Seq<char>>,
    rooms: Set<Seq<char>>,
    player: Seq<char>,
    code: Seq<char>,
)
    requires
        rooms_cover(player_rooms, rooms),
    ensures
        rooms_cover(player_rooms.insert(player, code), rooms.insert(code)),
        rooms.contains(code) ==> rooms_cover(player_rooms.insert(player, code), rooms),
{
}

/// A player leaving keeps every other player's room in existence: their room
/// goes only when nobody is left in it.
pub proof fn law_leaving_keeps_rooms_covered(
    player_rooms: Map<Seq<char>, Seq<char>>,
    rooms: Set<Seq<char>>,
    player: Seq<char>,
)
    requires
        rooms_cover(player_rooms, rooms),
        player_rooms.dom().contains(player),
    ensures
        rooms_cover(player_rooms.remove(player), rooms),
        !player_rooms.remove(player).values().contains(player_rooms[player]) ==> rooms_cover(
            player_rooms.remove(player),
            rooms.remove(player_rooms[player]),
        ),
{
    let m = player_rooms.remove(player);
    let code = player_rooms[player];
    if !m.values().contains(code) {
        assert forall|p: Seq<char>| #[trigger] m.dom().contains(p) implies rooms.remove(code).contains(m[p]) by {
            if m[p] == code {
                assert(m.values().contains(m[p]));
            }
        }
    }
}

/// `str::to_ascii_uppercase`: ASCII lower-case letters become upper-case, every
/// other character stays as it is.
#[verifier::external_body]
fn ascii_uppercase(s: &str) -> (r: String)
    ensures
        r@ == s@.map_values(|c: char| upper_char(c)),
{
    s.to_ascii_uppercase()
}

/// A room code: four upper-case letters.
#[derive(Debug, Hash)]
pub struct RoomCode(String);

impl View for RoomCode {
    type V = Seq<char>;

    closed spec fn view(&self) -> Seq<char> {
        self.0@
    }
}

impl Clone for RoomCode {
    fn clone(&self) -> (code: Self)
        ensures
            code == *self,
    {
        RoomCode(self.0.clone())
    }
}

impl PartialEq for RoomCode {
    fn eq(&self, other: &Self) -> (same: bool) {
        self.0 == other.0
    }
}

impl PartialEqSpecImpl for RoomCode {
    open spec fn obeys_eq_spec() -> bool {
        true
    }

    open spec fn eq_spec(&self, other: &Self) -> bool {
        self@ == other@
    }
}

impl Eq for RoomCode {

}

/// The text given is not four ASCII letters.
#[derive(Debug, Clone, Copy, PartialEq, Eq, Structural)]
pub struct InvalidRoomCode;

impl RoomCode {
    /// Four ASCII letters, in either case, make a code; it is kept in upper case.
    pub fn parse(s: &str) -> (code: Result<RoomCode, InvalidRoomCode>)
        ensures
            code is Ok <==> parse_room_code(s@) is Some,
            code matches Ok(c) ==> parse_room_code(s@) == Some(c@),
    {
        let n = s.unicode_len();
        if n != ROOM_CODE_LENGTH {
            return Err(InvalidRoomCode);
        }
        let mut i: usize = 0;
        while i < n
            invariant
                n == s@.len(),
                i <= n,
                forall|j: int| 0 <= j < i ==> is_ascii_letter(#[trigger] s@[j]),
            decreases n - i,
        {
            let c = s.get_char(i);
            if !(('a' <= c && c <= 'z') || ('A' <= c && c <= 'Z')) {
                return Err(InvalidRoomCode);
            }
            i = i + 1;
        }
        Ok(RoomCode(ascii_uppercase(s)))
    }

    /// A random code of four upper-case letters.
    pub fn random() -> (code: RoomCode)
        ensures
            code@.len() == ROOM_CODE_LENGTH,
            forall|i: int| 0 <= i < code@.len() ==> is_upper_letter(#[trigger] code@[i]),
    {
        let alphabet = "ABCDEFGHIJKLMNOPQRSTUVWXYZ";
        proof {
            reveal_strlit("ABCDEFGHIJKLMNOPQRSTUVWXYZ");
        }
        let mut code = String::new();
        let mut k: usize = 0;
        while k < ROOM_CODE_LENGTH
            invariant
                k <= ROOM_CODE_LENGTH,
                alphabet@ == "ABCDEFGHIJKLMNOPQRSTUVWXYZ"@,
                alphabet@.len() == 26,
                forall|i: int| 0 <= i < 26 ==> is_upper_letter(#[trigger] alphabet@[i]),
                code@.len() == k,
                forall|i: int| 0 <= i < code@.len() ==> is_upper_letter(#[trigger] code@[i]),
            decreases ROOM_CODE_LENGTH - k,
        {
            let idx = random_below(26);
            let letter = alphabet.substring_char(idx, idx + 1);
            let ghost before = code@;
            code.append(letter);
            assert(code@ =~= before + alphabet@.subrange(idx as int, idx + 1));
            assert(code@[k as int] == alphabet@[idx as int]);
            k = k + 1;
        }
        RoomCode(code)
    }

    pub fn as_str(&self) -> (s: &str)
        ensures
            s@ == self@,
    {
        self.0.as_str()
    }

    pub fn to_string(&self) -> (s: String)
        ensures
            s@ == self@,
    {
        self.0.clone()
    }
}

impl Default for RoomCode {
    /// A random code of four upper-case letters.
    fn default() -> (code: RoomCode)
        ensures
            code@.len() == ROOM_CODE_LENGTH,
    {
        Self::random()
    }
}

impl std::str::FromStr for RoomCode {
    type Err = InvalidRoomCode;

    /// Four ASCII letters, in either case, make a code; it is kept in upper case.
    fn from_str(s: &str) -> (code: Result<Self, Self::Err>)
        ensures
            code is Ok <==> parse_room_code(s@) is Some,
            code matches Ok(c) ==> parse_room_code(s@) == Some(c@),
    {
        Self::parse(s)
    }
}

/// The player-to-room entries as a map from player text to code text.
pub open spec fn entries_map(v: Seq<(PlayerId, RoomCode)>) -> Map<Seq<char>, Seq<char>>
    decreases v.len(),
{
    if v.len() == 0 {
        Map::empty()
    } else {
        entries_map(v.drop_last()).insert(v.last().0@, v.last().1@)
    }
}

pub open spec fn keys_distinct(v: Seq<(PlayerId, RoomCode)>) -> bool {
    forall|i: int, j: int| 0 <= i < j < v.len() ==> #[trigger] v[i].0@ != #[trigger] v[j].0@
}

pub open spec fn codes_distinct(v: Seq<RoomCode>) -> bool {
    forall|i: int, j: int| 0 <= i < j < v.len() ==> #[trigger] v[i]@ != #[trigger] v[j]@
}

pub open spec fn codes_set(v: Seq<RoomCode>) -> Set<Seq<char>> {
    Set::new(|c: Seq<char>| exists|i: int| 0 <= i < v.len() && #[trigger] v[i]@ == c)
}

proof fn lemma_entries_map(v: Seq<(PlayerId, RoomCode)>)
    requires
        keys_distinct(v),
    ensures
        forall|k: Seq<char>| #[trigger] entries_map(v).dom().contains(k) <==> exists|i: int| 0 <= i < v.len() && v[i].0@ == k,
        forall|i: int| 0 <= i < v.len() ==> #[trigger] entries_map(v)[v[i].0@] == v[i].1@,
    decreases v.len(),
{
    if v.len() > 0 {
        let p = v.drop_last();
        assert(keys_distinct(p)) by {
            assert forall|i: int, j: int| 0 <= i < j < p.len() implies #[trigger] p[i].0@ != #[trigger] p[j].0@ by {
                assert(p[i] == v[i] && p[j] == v[j]);
            }
        }
        lemma_entries_map(p);
        assert forall|k: Seq<char>| #[trigger] entries_map(v).dom().contains(k) <==> exists|i: int| 0 <= i < v.len() && v[i].0@ == k by {
            if entries_map(v).dom().contains(k) {
                if k == v.last().0@ {
                    assert(v[v.len() - 1].0@ == k);
                } else {
                    assert(entries_map(p).dom().contains(k));
                    let i = choose|i: int| 0 <= i < p.len() && p[i].0@ == k;
                    assert(v[i] == p[i]);
                    assert(v[i].0@ == k);
                }
            }
            if exists|i: int| 0 <= i < v.len() && v[i].0@ == k {
                let i = choose|i: int| 0 <= i < v.len() && v[i].0@ == k;
                if i < p.len() {
                    assert(p[i] == v[i]);
                    assert(p[i].0@ == k);
                    assert(entries_map(p).dom().contains(k));
                }
                assert(entries_map(v).dom().contains(k));
            }
        }
        assert forall|i: int| 0 <= i < v.len() implies #[trigger] entries_map(v)[v[i].0@] == v[i].1@ by {
            if i < p.len() {
                assert(p[i] == v[i]);
                assert(v[i].0@ != v[v.len() - 1].0@);
                assert(entries_map(p)[p[i].0@] == p[i].1@);
            }
        }
    }
}

/// Which player is in which room, which rooms exist, and the default room.
#[derive(Debug)]
pub struct RoomRegistry {
    player_rooms: Vec<(PlayerId, RoomCode)>,
    rooms: Vec<RoomCode>,
    default: Option<RoomCode>,
}

impl Default for RoomRegistry {
    fn default() -> (registry: Self)
        ensures
            registry.wf(),
            registry.player_rooms() == Map::<Seq<char>, Seq<char>>::empty(),
            registry.rooms() == Set::<Seq<char>>::empty(),
            registry.default_room() is None,
    {
        RoomRegistry::new()
    }
}

impl RoomRegistry {
    /// The room of each player, by the texts of their identifiers and codes.
    pub closed spec fn player_rooms(&self) -> Map<Seq<char>, Seq<char>> {
        entries_map(self.player_rooms@)
    }

    /// The codes of the rooms that exist.
    pub closed spec fn rooms(&self) -> Set<Seq<char>> {
        codes_set(self.rooms@)
    }

    /// The code of the default room, when there is one.
    pub closed spec fn default_room(&self) -> Option<Seq<char>> {
        match self.default {
            Some(c) => Some(c@),
            None => None,
        }
    }

    /// No player or room is recorded twice, and the default room exists.
    pub closed spec fn wf(&self) -> bool {
        &&& keys_distinct(self.player_rooms@)
        &&& codes_distinct(self.rooms@)
        &&& (self.default matches Some(c) ==> self.rooms().contains(c@))
    }

    /// The default room, when there is one, is among the rooms.
    pub proof fn law_default_room_exists(&self)
        requires
            self.wf(),
        ensures
            self.default_room() matches Some(c) ==> self.rooms().contains(c),
    {
    }

    /// An empty registry.
    pub fn new() -> (registry: Self)
        ensures
            registry.wf(),
            registry.player_rooms() == Map::<Seq<char>, Seq<char>>::empty(),
            registry.rooms() == Set::<Seq<char>>::empty(),
            registry.default_room() is None,
    {
        let registry = RoomRegistry { player_rooms: Vec::new(), rooms: Vec::new(), default: None };
        assert(registry.rooms() =~= Set::<Seq<char>>::empty());
        registry
    }

    fn find_player(&self, player_id: &PlayerId) -> (idx: Option<usize>)
        requires
            self.wf(),
        ensures
            match idx {
                Some(i) => i < self.player_rooms@.len() && self.player_rooms@[i as int].0@ == player_id@,
                None => !self.player_rooms().dom().contains(player_id@),
            },
    {
        proof {
            lemma_entries_map(self.player_rooms@);
        }
        let mut i: usize = 0;
        while i < self.player_rooms.len()
            invariant
                i <= self.player_rooms@.len(),
                forall|j: int| 0 <= j < i ==> #[trigger] self.player_rooms@[j].0@ != player_id@,
            decreases self.player_rooms@.len() - i,
        {
            if self.player_rooms[i].0 == *player_id {
                return Some(i);
            }
            i = i + 1;
        }
        None
    }

    fn find_room(&self, room: &RoomCode) -> (idx: Option<usize>)
        ensures
            match idx {
                Some(i) => i < self.rooms@.len() && self.rooms@[i as int]@ == room@,
                None => !self.rooms().contains(room@),
            },
    {
        let mut i: usize = 0;
        while i < self.rooms.len()
            invariant
                i <= self.rooms@.len(),
                forall|j: int| 0 <= j < i ==> #[trigger] self.rooms@[j]@ != room@,
            decreases self.rooms@.len() - i,
        {
            if self.rooms[i] == *room {
                return Some(i);
            }
            i = i + 1;
        }
        None
    }

    /// Records `room` as the room of `player_id`.
    fn set_player_room(&mut self, player_id: &PlayerId, room: &RoomCode)
        requires
            old(self).wf(),
        ensures
            final(self).player_rooms() == old(self).player_rooms().insert(player_id@, room@),
            final(self).rooms@ == old(self).rooms@,
            final(self).default == old(self).default,
            keys_distinct(final(self).player_rooms@),
    {
        let ghost before = self.player_rooms@;
        proof {
            lemma_entries_map(before);
        }
        match self.find_player(player_id) {
            Some(i) => {
                self.player_rooms.set(i, (player_id.clone(), room.clone()));
                let ghost after = self.player_rooms@;
                assert(keys_distinct(after));
                proof {
                    lemma_entries_map(after);
                }
                assert(entries_map(after) =~= entries_map(before).insert(player_id@, room@)) by {
                    assert forall|k: Seq<char>| entries_map(after).dom().contains(k) <==> entries_map(before).insert(player_id@, room@).dom().contains(k) by {
                        if exists|j: int| 0 <= j < after.len() && after[j].0@ == k {
                            let j = choose|j: int| 0 <= j < after.len() && after[j].0@ == k;
                            if j != i {
                                assert(before[j] == after[j]);
                            }
                        }
                        if exists|j: int| 0 <= j < before.len() && before[j].0@ == k {
                            let j = choose|j: int| 0 <= j < before.len() && before[j].0@ == k;
                            if j != i {
                                assert(before[j] == after[j]);
                            } else {
                                assert(after[j].0@ == k);
                            }
                        }
                    }
                    assert forall|k: Seq<char>| #[trigger] entries_map(after).dom().contains(k) implies entries_map(after)[k] == entries_map(before).insert(player_id@, room@)[k] by {
                        let j = choose|j: int| 0 <= j < after.len() && after[j].0@ == k;
                        assert(entries_map(after)[after[j].0@] == after[j].1@);
                        if j != i {
                            assert(before[j] == after[j]);
                            assert(entries_map(before)[before[j].0@] == before[j].1@);
                        }
                    }
                }
            },
            None => {
                self.player_rooms.push((player_id.clone(), room.clone()));
                let ghost after = self.player_rooms@;
                assert(after.drop_last() =~= before);
                assert(keys_distinct(after)) by {
                    assert forall|i: int, j: int| 0 <= i < j < after.len() implies #[trigger] after[i].0@ != #[trigger] after[j].0@ by {
                        if j == after.len() - 1 {
                            assert(before[i] == after[i]);
                        } else {
                            assert(before[i] == after[i] && before[j] == after[j]);
                        }
                    }
                }
            },
        }
    }

    /// Creates a room with a random code and puts the player in it.
    pub fn create_room(&mut self, player_id: &PlayerId) -> (code: RoomCode)
        requires
            old(self).wf(),
        ensures
            final(self).wf(),
            final(self).rooms() == old(self).rooms().insert(code@),
            final(self).player_rooms() == old(self).player_rooms().insert(player_id@, code@),
            final(self).default_room() == old(self).default_room(),
            code@.len() == ROOM_CODE_LENGTH,
            forall|i: int| 0 <= i < code@.len() ==> is_upper_letter(#[trigger] code@[i]),
    {
        let room = RoomCode::random();
        self.add_room(&room);
        self.set_player_room(player_id, &room);
        room
    }

    fn add_room(&mut self, room: &RoomCode)
        requires
            old(self).wf(),
        ensures
            final(self).wf(),
            final(self).rooms() == old(self).rooms().insert(room@),
            final(self).player_rooms@ == old(self).player_rooms@,
            final(self).default == old(self).default,
    {
        let ghost before = self.rooms@;
        if self.find_room(room).is_none() {
            self.rooms.push(room.clone());
            let ghost after = self.rooms@;
            assert(codes_distinct(after)) by {
                assert forall|i: int, j: int| 0 <= i < j < after.len() implies #[trigger] after[i]@ != #[trigger] after[j]@ by {
                    assert(before.contains(before[i]) || true);
                    if j == after.len() - 1 {
                        assert(after[i] == before[i]);
                        assert(codes_set(before).contains(before[i]@));
                    } else {
                        assert(after[i] == before[i] && after[j] == before[j]);
                    }
                }
            }
            assert forall|c: Seq<char>| codes_set(before).contains(c) implies #[trigger] codes_set(after).contains(c) by {
                let i = choose|i: int| 0 <= i < before.len() && #[trigger] before[i]@ == c;
                assert(after[i] == before[i]);
            }
            assert(codes_set(after).contains(room@)) by {
                assert(after[after.len() - 1]@ == room@);
            }
            assert forall|c: Seq<char>| codes_set(after).contains(c) implies #[trigger] codes_set(before).insert(room@).contains(c) by {
                let i = choose|i: int| 0 <= i < after.len() && #[trigger] after[i]@ == c;
                if i < before.len() {
                    assert(after[i] == before[i]);
                }
            }
            assert(codes_set(after) =~= codes_set(before).insert(room@));
        } else {
            assert(codes_set(before) =~= codes_set(before).insert(room@));
        }
    }

    /// Puts the player in the default room, creating it when there is none.
    pub fn get_or_create_default_room(&mut self, player_id: &PlayerId) -> (code: RoomCode)
        requires
            old(self).wf(),
        ensures
            final(self).wf(),
            final(self).default_room() == Some(code@),
            final(self).player_rooms() == old(self).player_rooms().insert(player_id@, code@),
            old(self).default_room() matches Some(d) ==> d == code@ && final(self).rooms() == old(self).rooms(),
            old(self).default_room() is None ==> final(self).rooms() == old(self).rooms().insert(code@),
    {
        match &self.default {
            Some(room) => {
                let room = room.clone();
                self.set_player_room(player_id, &room);
                room
            },
            None => {
                let room = self.create_room(player_id);
                self.default = Some(room.clone());
                room
            },
        }
    }

    /// Puts the player in an existing room; a room that does not exist is an
    /// error and changes nothing.
    pub fn insert_player(&mut self, player_id: &PlayerId, room: &RoomCode) -> (r: Result<(), ()>)
        requires
            old(self).wf(),
        ensures
            final(self).wf(),
            r is Ok <==> old(self).rooms().contains(room@),
            r is Ok ==> final(self).player_rooms() == old(self).player_rooms().insert(player_id@, room@),
            r is Err ==> final(self).player_rooms() == old(self).player_rooms(),
            final(self).rooms() == old(self).rooms(),
            final(self).default_room() == old(self).default_room(),
    {
        if self.find_room(room).is_none() {
            return Err(());
        }
        self.set_player_room(player_id, room);
        Ok(())
    }

    /// The room the player is in.
    pub fn get_room(&self, player_id: &PlayerId) -> (room: Option<&RoomCode>)
        requires
            self.wf(),
        ensures
            match room {
                Some(c) => self.player_rooms().dom().contains(player_id@) && self.player_rooms()[player_id@] == c@,
                None => !self.player_rooms().dom().contains(player_id@),
            },
    {
        proof {
            lemma_entries_map(self.player_rooms@);
        }
        match self.find_player(player_id) {
            Some(i) => Some(&self.player_rooms[i].1),
            None => None,
        }
    }

    pub fn get_default_room(&self) -> (room: Option<&RoomCode>)
        ensures
            match room {
                Some(c) => self.default_room() == Some(c@),
                None => self.default_room() is None,
            },
    {
        self.default.as_ref()
    }

    /// Takes the player out of their room. The room goes too, and is returned,
    /// when no other player is left in it; it is then no longer the default.
    pub fn remove_room(&mut self, player_id: &PlayerId) -> (removed: Option<RoomCode>)
        requires
            old(self).wf(),
        ensures
            final(self).wf(),
            final(self).player_rooms() == old(self).player_rooms().remove(player_id@),
            match removed {
                Some(code) => {
                    &&& old(self).player_rooms().dom().contains(player_id@)
                    &&& code@ == old(self).player_rooms()[player_id@]
                    &&& !final(self).player_rooms().values().contains(code@)
                    &&& final(self).rooms() == old(self).rooms().remove(code@)
                    &&& final(self).default_room() == (if old(self).default_room() == Some(code@) {
                        None
                    } else {
                        old(self).default_room()
                    })
                },
                None => {
                    &&& final(self).rooms() == old(self).rooms()
                    &&& final(self).default_room() == old(self).default_room()
                    &&& (old(self).player_rooms().dom().contains(player_id@) ==> final(self).player_rooms().values().contains(
                        old(self).player_rooms()[player_id@],
                    ))
                },
            },
    {
        let ghost before = self.player_rooms@;
        proof {
            lemma_entries_map(before);
        }
        let i = match self.find_player(player_id) {
            Some(i) => i,
            None => {
                assert(entries_map(before).remove(player_id@) =~= entries_map(before));
                return None;
            },
        };
        let (_, code) = self.player_rooms.remove(i);
        assert(code@ == entries_map(before)[player_id@]) by {
            assert(entries_map(before)[before[i as int].0@] == before[i as int].1@);
        }
        let ghost after = self.player_rooms@;
        assert(keys_distinct(after)) by {
            assert forall|a: int, b: int| 0 <= a < b < after.len() implies #[trigger] after[a].0@ != #[trigger] after[b].0@ by {
                let a0 = if a < i { a } else { a + 1 };
                let b0 = if b < i { b } else { b + 1 };
                assert(after[a] == before[a0] && after[b] == before[b0]);
            }
        }
        proof {
            lemma_entries_map(after);
        }
        assert(entries_map(after) =~= entries_map(before).remove(player_id@)) by {
            assert forall|k: Seq<char>| entries_map(after).dom().contains(k) <==> entries_map(before).remove(player_id@).dom().contains(k) by {
                if exists|j: int| 0 <= j < after.len() && after[j].0@ == k {
                    let j = choose|j: int| 0 <= j < after.len() && after[j].0@ == k;
                    let j0 = if j < i { j } else { j + 1 };
                    assert(after[j] == before[j0]);
                }
                if exists|j: int| 0 <= j < before.len() && before[j].0@ == k {
                    let j = choose|j: int| 0 <= j < before.len() && before[j].0@ == k;
                    if j < i {
                        assert(after[j] == before[j]);
                    } else if j > i {
                        assert(after[j - 1] == before[j]);
                    }
                }
            }
            assert forall|k: Seq<char>| #[trigger] entries_map(after).dom().contains(k) implies entries_map(after)[k] == entries_map(before)[k] by {
                let j = choose|j: int| 0 <= j < after.len() && after[j].0@ == k;
                let j0 = if j < i { j } else { j + 1 };
                assert(after[j] == before[j0]);
                assert(entries_map(after)[after[j].0@] == after[j].1@);
                assert(entries_map(before)[before[j0].0@] == before[j0].1@);
            }
        }
        let mut j: usize = 0;
        while j < self.player_rooms.len()
            invariant
                self.player_rooms@ == after,
                before == old(self).player_rooms@,
                self.rooms@ == old(self).rooms@,
                self.default == old(self).default,
                old(self).wf(),
                keys_distinct(after),
                entries_map(after) == entries_map(before).remove(player_id@),
                entries_map(before).dom().contains(player_id@),
                code@ == entries_map(before)[player_id@],
                j <= after.len(),
                forall|m: int| 0 <= m < j ==> #[trigger] after[m].1@ != code@,
            decreases after.len() - j,
        {
            if self.player_rooms[j].1 == code {
                assert(entries_map(after).values().contains(code@)) by {
                    lemma_entries_map(after);
                    assert(entries_map(after)[after[j as int].0@] == after[j as int].1@);
                    assert(entries_map(after).dom().contains(after[j as int].0@));
                }
                return None;
            }
            j = j + 1;
        }
        assert(!entries_map(after).values().contains(code@)) by {
            if entries_map(after).values().contains(code@) {
                let k = choose|k: Seq<char>| #[trigger] entries_map(after).dom().contains(k) && entries_map(after)[k] == code@;
                let m = choose|m: int| 0 <= m < after.len() && after[m].0@ == k;
                assert(entries_map(after)[after[m].0@] == after[m].1@);
            }
        }
        let ghost rooms_before = self.rooms@;
        if let Some(r) = self.find_room(&code) {
            self.rooms.remove(r);
            let ghost rooms_after = self.rooms@;
            assert(codes_distinct(rooms_after)) by {
                assert forall|a: int, b: int| 0 <= a < b < rooms_after.len() implies #[trigger] rooms_after[a]@ != #[trigger] rooms_after[b]@ by {
                    let a0 = if a < r { a } else { a + 1 };
                    let b0 = if b < r { b } else { b + 1 };
                    assert(rooms_after[a] == rooms_before[a0] && rooms_after[b] == rooms_before[b0]);
                }
            }
            assert(codes_set(rooms_after) =~= codes_set(rooms_before).remove(code@)) by {
                assert forall|c: Seq<char>| codes_set(rooms_after).contains(c) <==> codes_set(rooms_before).remove(code@).contains(c) by {
                    if codes_set(rooms_after).contains(c) {
                        let a = choose|a: int| 0 <= a < rooms_after.len() && #[trigger] rooms_after[a]@ == c;
                        let a0 = if a < r { a } else { a + 1 };
                        assert(rooms_after[a] == rooms_before[a0]);
                        assert(a0 != r);
                    }
                    if codes_set(rooms_before).remove(code@).contains(c) {
                        let a = choose|a: int| 0 <= a < rooms_before.len() && #[trigger] rooms_before[a]@ == c;
                        if a < r {
                            assert(rooms_after[a] == rooms_before[a]);
                        } else {
                            assert(rooms_after[a - 1] == rooms_before[a]);
                        }
                    }
                }
            }
        } else {
            assert(codes_set(rooms_before).remove(code@) =~= codes_set(rooms_before));
        }
        let is_default = match &self.default {
            Some(d) => *d == code,
            None => false,
        };
        if is_default {
            self.default = None;
        }
        Some(code)
    }

    /// Whether a room with this code exists.
    pub fn room_exists(&self, room: &RoomCode) -> (exists: bool)
        ensures
            exists == self.rooms().contains(room@),
    {
        self.find_room(room).is_some()
    }
}

} // verus!
