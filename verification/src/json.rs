//! JSON: the values that replies are made of, and the texts that requests and saved progress are
//! made of.

use vstd::prelude::*;

use crate::text;

verus! {

/// A JSON value, with what is read of it. Null, booleans and fractions are only told apart from
/// the rest.
#[derive(Debug)]
pub enum Json {
    /// Null, a boolean, or a number that is not an integer of 64 bits.
    Other,
    /// An integer, signed or unsigned, of 64 bits.
    Integer(i128),
    /// A string.
    Text(String),
    /// An array.
    List(Vec<Json>),
    /// An object: its members by name. Where a name occurs twice, the first counts.
    Object(Vec<(String, Json)>),
}

/// The member of an object with the name `name`.
pub open spec fn member(members: Seq<(String, Json)>, name: Seq<char>) -> Option<Json>
    decreases members.len(),
{
    if members.len() == 0 {
        None
    } else if members[0].0@ == name {
        Some(members[0].1)
    } else {
        member(members.skip(1), name)
    }
}

impl Json {
    /// The text, if the value is a string.
    pub open spec fn text(self) -> Option<Seq<char>> {
        match self {
            Json::Text(s) => Some(s@),
            _ => None,
        }
    }

    /// The number, if the value is an integer that `u64` holds.
    pub open spec fn unsigned(self) -> Option<u64> {
        match self {
            Json::Integer(n) => if 0 <= n <= u64::MAX {
                Some(n as u64)
            } else {
                None
            },
            _ => None,
        }
    }

    /// The number, if the value is an integer that `i64` holds.
    pub open spec fn signed(self) -> Option<i64> {
        match self {
            Json::Integer(n) => if i64::MIN <= n <= i64::MAX {
                Some(n as i64)
            } else {
                None
            },
            _ => None,
        }
    }

    /// The items, if the value is an array.
    pub open spec fn items(self) -> Option<Seq<Json>> {
        match self {
            Json::List(v) => Some(v@),
            _ => None,
        }
    }

    /// The member `name`, if the value is an object that has it.
    pub open spec fn field(self, name: Seq<char>) -> Option<Json> {
        match self {
            Json::Object(members) => member(members@, name),
            _ => None,
        }
    }

    /// The text of the member `name`, if there is such a member and it is a string.
    pub open spec fn text_field(self, name: Seq<char>) -> Option<Seq<char>> {
        match self.field(name) {
            Some(value) => value.text(),
            None => None,
        }
    }

    /// The number in the member `name`, if there is such a member and `u64` holds it.
    pub open spec fn unsigned_field(self, name: Seq<char>) -> Option<u64> {
        match self.field(name) {
            Some(value) => value.unsigned(),
            None => None,
        }
    }

    /// The text, if the value is a string.
    pub fn as_str(&self) -> (r: Option<&str>)
        ensures
            r is Some <==> self.text() is Some,
            r is Some ==> r->0@ == self.text()->0,
            match self {
                Json::Text(s) => r is Some && r->0@ == s@,
                _ => r is None,
            },
    {
        match self {
            Json::Text(s) => Some(s.as_str()),
            _ => None,
        }
    }

    /// The number, if the value is an integer that `u64` holds.
    pub fn as_u64(&self) -> (r: Option<u64>)
        ensures
            r == self.unsigned(),
            match self {
                Json::Integer(n) => if 0 <= *n <= u64::MAX {
                    r is Some && r->0 == *n
                } else {
                    r is None
                },
                _ => r is None,
            },
    {
        match self {
            Json::Integer(n) => if 0 <= *n && *n <= u64::MAX as i128 {
                Some(*n as u64)
            } else {
                None
            },
            _ => None,
        }
    }

    /// The number, if the value is an integer that `i64` holds.
    pub fn as_i64(&self) -> (r: Option<i64>)
        ensures
            r == self.signed(),
            match self {
                Json::Integer(n) => if i64::MIN <= *n <= i64::MAX {
                    r is Some && r->0 == *n
                } else {
                    r is None
                },
                _ => r is None,
            },
    {
        match self {
            Json::Integer(n) => if i64::MIN as i128 <= *n && *n <= i64::MAX as i128 {
                Some(*n as i64)
            } else {
                None
            },
            _ => None,
        }
    }

    /// The items, if the value is an array.
    pub fn as_array(&self) -> (r: Option<&Vec<Json>>)
        ensures
            r is Some <==> self.items() is Some,
            r is Some ==> r->0@ == self.items()->0,
            match self {
                Json::List(v) => r is Some && r->0@ == v@,
                _ => r is None,
            },
    {
        match self {
            Json::List(v) => Some(v),
            _ => None,
        }
    }

    /// The member `name`, if the value is an object that has it.
    pub fn get(&self, name: &str) -> (r: Option<&Json>)
        ensures
            r is Some <==> self.field(name@) is Some,
            r is Some ==> *r->0 == self.field(name@)->0,
    {
        match self {
            Json::Object(members) => {
                let mut i: usize = 0;
                assert(members@.skip(0) =~= members@);
                while i < members.len()
                    invariant
                        *self == Json::Object(*members),
                        i <= members.len(),
                        member(members@, name@) == member(members@.skip(i as int), name@),
                    decreases members.len() - i,
                {
                    assert(members@.skip(i as int).skip(1) =~= members@.skip(i + 1));
                    if text::same_text(members[i].0.as_str(), name) {
                        return Some(&members[i].1);
                    }
                    i = i + 1;
                }
                None
            },
            _ => None,
        }
    }

    /// The text of the member `name`, if there is such a member and it is a string.
    pub fn get_str(&self, name: &str) -> (r: Option<&str>)
        ensures
            r is Some <==> self.text_field(name@) is Some,
            r is Some ==> r->0@ == self.text_field(name@)->0,
    {
        match self.get(name) {
            Some(value) => value.as_str(),
            None => None,
        }
    }

    /// The number in the member `name`, if there is such a member and `u64` holds it.
    pub fn get_u64(&self, name: &str) -> (r: Option<u64>)
        ensures
            r == self.unsigned_field(name@),
    {
        match self.get(name) {
            Some(value) => value.as_u64(),
            None => None,
        }
    }
}

/// The member of an object with a name is the first that has it; where none has, there is none; and
/// nothing but an object has members.
pub proof fn law_field(value: Json, members: Vec<(String, Json)>, name: Seq<char>, k: int)
    ensures
        value == Json::Object(members) && 0 <= k < members@.len() && members@[k].0@ == name && (
        forall|j: int| 0 <= j < k ==> (#[trigger] members@[j]).0@ != name) ==> value.field(name)
            == Some(members@[k].1),
        value == Json::Object(members) && (forall|j: int|
            0 <= j < members@.len() ==> (#[trigger] members@[j]).0@ != name) ==> value.field(name)
            is None,
        value !is Object ==> value.field(name) is None,
{
    lemma_member(members@, name, k);
}

proof fn lemma_member(members: Seq<(String, Json)>, name: Seq<char>, k: int)
    ensures
        0 <= k < members.len() && members[k].0@ == name && (forall|j: int|
            0 <= j < k ==> (#[trigger] members[j]).0@ != name) ==> member(members, name) == Some(
            members[k].1,
        ),
        (forall|j: int| 0 <= j < members.len() ==> (#[trigger] members[j]).0@ != name)
            ==> member(members, name) is None,
    decreases members.len(),
{
    if members.len() > 0 {
        let rest = members.skip(1);
        lemma_member(rest, name, k - 1);
        assert(forall|j: int| 0 <= j < rest.len() ==> #[trigger] rest[j] == members[j + 1]);
        if 0 < k < members.len() && members[k].0@ == name && (forall|j: int|
            0 <= j < k ==> (#[trigger] members[j]).0@ != name) {
            assert(members[0].0@ != name);
            assert(rest[k - 1] == members[k]);
            assert forall|j: int| 0 <= j < k - 1 implies (#[trigger] rest[j]).0@ != name by {
                assert(members[j + 1].0@ != name);
            }
        }
        if forall|j: int| 0 <= j < members.len() ==> (#[trigger] members[j]).0@ != name {
            assert(members[0].0@ != name);
            assert forall|j: int| 0 <= j < rest.len() implies (#[trigger] rest[j]).0@ != name by {
                assert(members[j + 1].0@ != name);
            }
        }
    }
}

/// What a member holds is what its value holds: a text, or a number without a sign.
pub proof fn law_member_values(value: Json, name: Seq<char>)
    ensures
        value.field(name) is None ==> value.text_field(name) is None && value.unsigned_field(
            name,
        ) is None,
        value.field(name) matches Some(v) ==> {
            &&& v matches Json::Text(s) ==> value.text_field(name) == Some(s@)
            &&& v !is Text ==> value.text_field(name) is None
            &&& v matches Json::Integer(n) ==> (0 <= n <= u64::MAX ==> value.unsigned_field(name)
                == Some(n as u64)) && (n < 0 || n > u64::MAX ==> value.unsigned_field(name) is None)
            &&& v !is Integer ==> value.unsigned_field(name) is None
        },
{
}

/// The text in the member `name` of the JSON object that `json` writes, if `json` is JSON, an
/// object, and has such a member that is a string.
pub uninterp spec fn json_text_member(json: Seq<char>, name: Seq<char>) -> Option<Seq<char>>;

/// The numbers in the JSON array that `json` writes, if `json` is JSON, an array, and holds
/// nothing but numbers of `bits` bits without a sign.
pub uninterp spec fn json_numbers(json: Seq<char>, bits: nat) -> Option<Seq<usize>>;

/// The hexadecimal digit `d`.
pub open spec fn hex_digit(d: int) -> char {
    if d < 10 {
        (d + '0' as int) as char
    } else {
        (d - 10 + 'a' as int) as char
    }
}

/// `c` inside a JSON string.
pub open spec fn json_char(c: char) -> Seq<char> {
    if c == '"' || c == '\\' {
        seq!['\\', c]
    } else if c == '\u{8}' {
        seq!['\\', 'b']
    } else if c == '\t' {
        seq!['\\', 't']
    } else if c == '\n' {
        seq!['\\', 'n']
    } else if c == '\u{c}' {
        seq!['\\', 'f']
    } else if c == '\r' {
        seq!['\\', 'r']
    } else if c as int <= 31 {
        seq!['\\', 'u', '0', '0', hex_digit(c as int / 16), hex_digit(c as int % 16)]
    } else {
        seq![c]
    }
}

/// `s` as a JSON string.
pub open spec fn json_string(s: Seq<char>) -> Seq<char> {
    seq!['"'] + s.flat_map(|c: char| json_char(c)) + seq!['"']
}

/// The numbers `v` in decimal, with commas between them.
pub open spec fn json_items(v: Seq<usize>) -> Seq<char>
    decreases v.len(),
{
    if v.len() == 0 {
        seq![]
    } else if v.len() == 1 {
        text::decimal(v[0] as nat)
    } else {
        json_items(v.drop_last()).push(',') + text::decimal(v.last() as nat)
    }
}

/// The numbers `v` as a JSON array.
pub open spec fn json_array(v: Seq<usize>) -> Seq<char> {
    seq!['['] + json_items(v) + seq![']']
}

/// Calls `serde_json::to_string` on a text. Believed of it: it succeeds, and gives the text as a
/// JSON string that escapes quotation marks, backslashes and control characters, nothing else.
#[verifier::external_body]
pub(crate) fn string_literal(s: &str) -> (r: Option<String>)
    ensures
        r is Some,
        r->0@ == json_string(s@),
{
    serde_json::to_string(s).ok()
}

/// Calls `serde_json::from_str` for a `serde_json::Value` and reads one member of it as text.
/// The result is named, not described.
#[verifier::external_body]
pub(crate) fn text_member(json: &str, name: &str) -> (r: Option<String>)
    ensures
        r.deep_view() == json_text_member(json@, name@),
{
    let value: serde_json::Value = serde_json::from_str(json).ok()?;
    value[name].as_str().map(str::to_owned)
}

/// Calls `serde_json::to_string` on a list of numbers. Believed of it: it succeeds, gives the
/// JSON array of the numbers in decimal, and reading that array gives the numbers back.
#[verifier::external_body]
pub(crate) fn write_numbers(v: &Vec<usize>) -> (r: Option<String>)
    ensures
        r is Some,
        r->0@ == json_array(v@),
        json_numbers(r->0@, usize::BITS as nat) == Some(v@),
{
    serde_json::to_string(v).ok()
}

/// Calls `serde_json::from_str` for a list of numbers. The result is named, not described; it
/// depends on how many bits a number may have here.
#[verifier::external_body]
pub(crate) fn read_numbers(json: &str) -> (r: Option<Vec<usize>>)
    ensures
        r is Some <==> json_numbers(json@, usize::BITS as nat) is Some,
        r is Some ==> r->0@ == json_numbers(json@, usize::BITS as nat)->0,
{
    serde_json::from_str(json).ok()
}

} // verus!
