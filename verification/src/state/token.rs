//! Short random tokens, made of the first group of a UUID's hex digits.
use vstd::prelude::*;

use super::id::{is_lower_hex, new_uuid_string, uuid_shape};

verus! {

#[derive(Debug)]
pub struct Token {
    pub value: String,
}

impl Clone for Token {
    fn clone(&self) -> (t: Self)
        ensures
            t == *self,
    {
        Token { value: self.value.clone() }
    }
}

/// The characters of `s` before its first hyphen, all of `s` when it has none.
pub open spec fn before_hyphen(s: Seq<char>) -> Seq<char>
    decreases s.len(),
{
    if s.len() == 0 {
        s
    } else if s[0] == '-' {
        Seq::empty()
    } else {
        seq![s[0]] + before_hyphen(s.drop_first())
    }
}

/// The position of the first hyphen in `s`, or its length.
pub open spec fn hyphen_index(s: Seq<char>) -> int
    decreases s.len(),
{
    if s.len() == 0 {
        0
    } else if s[0] == '-' {
        0
    } else {
        1 + hyphen_index(s.drop_first())
    }
}

proof fn lemma_before_hyphen(s: Seq<char>, i: int)
    requires
        0 <= i <= s.len(),
        forall|j: int| 0 <= j < i ==> s[j] != '-',
        i == s.len() || s[i] == '-',
    ensures
        before_hyphen(s) == s.take(i),
    decreases s.len(),
{
    if s.len() > 0 && s[0] != '-' {
        lemma_before_hyphen(s.drop_first(), i - 1);
        assert(seq![s[0]] + s.drop_first().take(i - 1) =~= s.take(i));
    } else {
        assert(s.take(i) =~= Seq::<char>::empty());
    }
}

impl Token {
    /// The token's text up to the first hyphen of a UUID's text.
    pub fn from_uuid_text(text: &str) -> (t: Token)
        ensures
            t.value@ == before_hyphen(text@),
    {
        let n = text.unicode_len();
        let mut i: usize = 0;
        while i < n && text.get_char(i) != '-'
            invariant
                n == text@.len(),
                i <= n,
                forall|j: int| 0 <= j < i ==> text@[j] != '-',
            decreases n - i,
        {
            i = i + 1;
        }
        proof {
            lemma_before_hyphen(text@, i as int);
        }
        let prefix = text.substring_char(0, i);
        Token { value: prefix.to_string() }
    }

    pub fn as_str(&self) -> (s: &str)
        ensures
            s@ == self.value@,
    {
        self.value.as_str()
    }

    pub fn to_string(&self) -> (s: String)
        ensures
            s@ == self.value@,
    {
        self.value.clone()
    }
}

impl Default for Token {
    /// A fresh random token: the first group of hex digits of a random UUID.
    fn default() -> (t: Token)
        ensures
            t.value@.len() == 8,
            forall|i: int| 0 <= i < 8 ==> is_lower_hex(#[trigger] t.value@[i]),
    {
        let guid = new_uuid_string();
        let t = Self::from_uuid_text(guid.as_str());
        proof {
            let g = guid@;
            assert forall|j: int| 0 <= j < 8 implies g[j] != '-' by {
                assert(is_lower_hex(g[j]));
            }
            assert(g[8] == '-');
            lemma_before_hyphen(g, 8);
            assert forall|i: int| 0 <= i < 8 implies is_lower_hex(#[trigger] t.value@[i]) by {
                assert(t.value@[i] == g[i]);
            }
        }
        t
    }
}

} // verus!
