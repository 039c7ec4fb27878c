//! Player identifiers: the text of a UUID.
use vstd::prelude::*;

use vstd::std_specs::cmp::PartialEqSpecImpl;

verus! {

#[verifier::external_type_specification]
#[verifier::external_body]
pub struct ExUuidError(uuid::Error);

/// What `uuid::Uuid::parse_str` followed by `to_string` makes of a text: the
/// UUID's canonical hyphenated lower-case form, or nothing when the text is
/// not a UUID.
pub uninterp spec fn uuid_canonical(s: Seq<char>) -> Option<Seq<char>>;

/// `uuid::Uuid::parse_str`, then `to_string` of the parsed UUID. The result is
/// `Ok` exactly when the text is a UUID, and then it is the canonical text of
/// that UUID; which texts are UUIDs is left to the crate.
#[verifier::external_body]
pub(crate) fn parse_uuid(s: &str) -> (r: Result<String, uuid::Error>)
    ensures
        r is Ok <==> uuid_canonical(s@) is Some,
        r matches Ok(t) ==> uuid_canonical(s@) == Some(t@),
{
    uuid::Uuid::parse_str(s).map(|u| u.to_string())
}

/// A lower-case hexadecimal digit.
pub open spec fn is_lower_hex(c: char) -> bool {
    ('0' <= c && c <= '9') || ('a' <= c && c <= 'f')
}

/// The hyphenated text of a UUID: 36 characters, hyphens at 8, 13, 18 and 23,
/// lower-case hexadecimal digits everywhere else.
pub open spec fn uuid_shape(s: Seq<char>) -> bool {
    &&& s.len() == 36
    &&& forall|i: int|
        0 <= i < 36 ==> if i == 8 || i == 13 || i == 18 || i == 23 {
            #[trigger] s[i] == '-'
        } else {
            is_lower_hex(s[i])
        }
}

/// `uuid::Uuid::new_v4` written as text. The UUID is random; its text is in
/// the lower-case hyphenated form.
#[verifier::external_body]
pub(crate) fn new_uuid_string() -> (s: String)
    ensures
        uuid_shape(s@),
{
    uuid::Uuid::new_v4().to_string()
}

/// The text given was not a UUID.
#[derive(Debug, Clone, Copy, PartialEq, Eq, Structural)]
pub struct InvalidPlayerId;

#[derive(Debug, Hash)]
pub struct PlayerId(String);

impl View for PlayerId {
    type V = Seq<char>;

    closed spec fn view(&self) -> Seq<char> {
        self.0@
    }
}

impl Clone for PlayerId {
    fn clone(&self) -> (id: Self)
        ensures
            id == *self,
    {
        PlayerId(self.0.clone())
    }
}

impl PartialEq for PlayerId {
    fn eq(&self, other: &Self) -> (same: bool) {
        self.0 == other.0
    }
}

impl PartialEqSpecImpl for PlayerId {
    open spec fn obeys_eq_spec() -> bool {
        true
    }

    open spec fn eq_spec(&self, other: &Self) -> bool {
        self@ == other@
    }
}

impl Eq for PlayerId {

}

impl PlayerId {
    /// An identifier with the given text, not checked to be a UUID.
    pub fn new_unchecked(player_id: &str) -> (id: Self)
        ensures
            id@ == player_id@,
    {
        PlayerId(player_id.to_string())
    }

    /// A fresh random identifier.
    pub fn new_random() -> (id: Self)
        ensures
            uuid_shape(id@),
    {
        PlayerId(new_uuid_string())
    }

    /// The identifier in canonical form, when the text is a UUID.
    pub fn parse(s: &str) -> (id: Result<Self, InvalidPlayerId>)
        ensures
            id is Ok <==> uuid_canonical(s@) is Some,
            id matches Ok(id) ==> uuid_canonical(s@) == Some(id@),
    {
        match parse_uuid(s) {
            Ok(text) => Ok(PlayerId(text)),
            Err(_) => Err(InvalidPlayerId),
        }
    }

    pub fn as_str(&self) -> (s: &str)
        ensures
            s@ == self@,
    {
        self.0.as_str()
    }

    pub fn to_string(&self) -> (s: String)
        ensures
            s@ == self@,
    {
        self.0.clone()
    }

    /// Whether two identifiers have the same text.
    pub fn same(&self, other: &Self) -> (same: bool)
        ensures
            same == (self@ == other@),
    {
        self.0 == other.0
    }
}

impl Default for PlayerId {
    /// A fresh random identifier.
    fn default() -> (id: Self)
        ensures
            uuid_shape(id@),
    {
        Self::new_random()
    }
}

impl std::str::FromStr for PlayerId {
    type Err = InvalidPlayerId;

    /// The identifier in canonical form, when the text is a UUID.
    fn from_str(s: &str) -> (id: Result<Self, Self::Err>)
        ensures
            id is Ok <==> uuid_canonical(s@) is Some,
            id matches Ok(id) ==> uuid_canonical(s@) == Some(id@),
    {
        Self::parse(s)
    }
}

} // verus!
