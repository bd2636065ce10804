//! JSON values, as they are sent to the node and as its replies are read.

use crate::text::{
    bytes_of_hex, decimal_text, decimal_value, hex_text, law_decimal_denotes, law_hex_round_trip,
    law_signed_decimal_denotes, push_decimal, push_signed_decimal, signed_decimal_text,
};
use vstd::prelude::*;

verus! {

/// A JSON number.
#[derive(Debug, PartialEq, Eq)]
pub enum JsonNumber {
    /// An integer that is not negative.
    PosInt(u64),
    /// An integer that may be negative. One that is not counts like `PosInt`.
    NegInt(i64),
    /// Any other number: the bits of a binary64 number, which is what it counts as, and how it is
    /// written.
    Binary64 { bits: u64, text: String },
}

/// A JSON value.
#[derive(Debug, PartialEq, Eq)]
pub enum Json {
    Null,
    Bool(bool),
    Number(JsonNumber),
    Text(String),
    Array(Vec<Json>),
    /// The members in their order.
    Object(Vec<(String, Json)>),
}

/// The value of the first member with this name.
pub open spec fn find_member(members: Seq<(String, Json)>, name: Seq<char>) -> Option<Json>
    decreases members.len(),
{
    if members.len() == 0 {
        None
    } else if members[0].0@ == name {
        Some(members[0].1)
    } else {
        find_member(members.drop_first(), name)
    }
}

/// How a character stands in a JSON string.
pub open spec fn escaped(c: char) -> Seq<char> {
    if c == '"' || c == '\\' {
        seq!['\\', c]
    } else if c == '\u{8}' {
        seq!['\\', 'b']
    } else if c == '\t' {
        seq!['\\', 't']
    } else if c == '\n' {
        seq!['\\', 'n']
    } else if c == '\u{c}' {
        seq!['\\', 'f']
    } else if c == '\r' {
        seq!['\\', 'r']
    } else if (c as u32) <= 0x1f {
        seq!['\\', 'u', '0', '0'] + hex_text(seq![c as u8])
    } else {
        seq![c]
    }
}

/// The characters as they stand in a JSON string.
pub open spec fn escaped_all(s: Seq<char>) -> Seq<char>
    decreases s.len(),
{
    if s.len() == 0 {
        Seq::empty()
    } else {
        escaped_all(s.drop_last()) + escaped(s.last())
    }
}

/// The JSON string literal for `s`.
pub open spec fn string_literal(s: Seq<char>) -> Seq<char> {
    seq!['"'] + escaped_all(s) + seq!['"']
}

/// The text of a number.
pub open spec fn number_text(n: JsonNumber) -> Seq<char> {
    match n {
        JsonNumber::PosInt(n) => decimal_text(n as nat),
        JsonNumber::NegInt(n) => signed_decimal_text(n as int),
        JsonNumber::Binary64 { bits, text } => text@,
    }
}

/// The compact text of a value: no white space between the tokens.
pub open spec fn json_text(j: Json) -> Seq<char>
    decreases j,
{
    match j {
        Json::Null => "null"@,
        Json::Bool(true) => "true"@,
        Json::Bool(false) => "false"@,
        Json::Number(n) => number_text(n),
        Json::Text(s) => string_literal(s@),
        Json::Array(items) => seq!['['] + items_text(items@) + seq![']'],
        Json::Object(members) => seq!['{'] + members_text(members@) + seq!['}'],
    }
}

/// The texts of the values, separated by commas.
pub open spec fn items_text(items: Seq<Json>) -> Seq<char>
    decreases items,
{
    if items.len() == 0 {
        Seq::empty()
    } else if items.len() == 1 {
        json_text(items[0])
    } else {
        items_text(items.drop_last()) + seq![','] + json_text(items.last())
    }
}

/// The texts of the members, separated by commas.
pub open spec fn members_text(members: Seq<(String, Json)>) -> Seq<char>
    decreases members,
{
    if members.len() == 0 {
        Seq::empty()
    } else if members.len() == 1 {
        string_literal(members[0].0@) + seq![':'] + json_text(members[0].1)
    } else {
        members_text(members.drop_last()) + seq![','] + string_literal(members.last().0@)
            + seq![':'] + json_text(members.last().1)
    }
}

/// `serde_json::Value::to_string` of a string value: the string literal in which the quotation
/// mark, the backslash and the control characters below U+0020 are escaped, the latter by their
/// short forms where they have one, and every other character stands for itself.
#[verifier::external_body]
fn quote(s: &str) -> (literal: String)
    ensures
        literal@ == string_literal(s@),
{
    serde_json::Value::String(s.to_string()).to_string()
}

impl JsonNumber {
    /// Appends the text of the number.
    fn push_text(&self, out: &mut String)
        ensures
            final(out)@ == old(out)@ + number_text(*self),
    {
        match self {
            JsonNumber::PosInt(n) => push_decimal(out, *n),
            JsonNumber::NegInt(n) => push_signed_decimal(out, *n),
            JsonNumber::Binary64 { bits: _, text } => out.append(text.as_str()),
        }
    }
}

impl Json {
    /// The member that `value[name]` denotes: absent ones, and those of values that are no
    /// objects, are null.
    pub open spec fn member_or_null(self, name: Seq<char>) -> Json {
        match self {
            Json::Object(members) => match find_member(members@, name) {
                Some(value) => value,
                None => Json::Null,
            },
            _ => Json::Null,
        }
    }

    /// The number, where the value is an integer that is not negative.
    pub open spec fn unsigned(self) -> Option<u64> {
        match self {
            Json::Number(JsonNumber::PosInt(n)) => Some(n),
            Json::Number(JsonNumber::NegInt(n)) => if n >= 0 {
                Some(n as u64)
            } else {
                None
            },
            _ => None,
        }
    }

    /// The value of the first member with this name; nothing where the value is no object.
    pub fn member(&self, name: &str) -> (value: Option<&Json>)
        ensures
            match *self {
                Json::Object(members) => match value {
                    Some(v) => find_member(members@, name@) == Some(*v),
                    None => find_member(members@, name@) is None,
                },
                _ => value is None,
            },
    {
        match self {
            Json::Object(members) => {
                let wanted: String = name.to_owned();
                let mut i: usize = 0;
                assert(members@.skip(0) =~= members@);
                while i < members.len()
                    invariant
                        i <= members@.len(),
                        wanted@ == name@,
                        *self == Json::Object(*members),
                        find_member(members@, name@) == find_member(
                            members@.skip(i as int),
                            name@,
                        ),
                    decreases members@.len() - i,
                {
                    assert(members@.skip(i as int)[0] == members@[i as int]);
                    if members[i].0 == wanted {
                        return Some(&members[i].1);
                    }
                    assert(members@.skip(i as int).drop_first() =~= members@.skip(i + 1));
                    i += 1;
                }
                None
            },
            _ => None,
        }
    }

    /// The number, where the value is an integer that is not negative.
    pub fn as_u64(&self) -> (n: Option<u64>)
        ensures
            n == self.unsigned(),
    {
        match self {
            Json::Number(JsonNumber::PosInt(n)) => Some(*n),
            Json::Number(JsonNumber::NegInt(n)) => if *n >= 0 {
                Some(*n as u64)
            } else {
                None
            },
            _ => None,
        }
    }

    /// Appends the compact text of the value.
    fn push_text(&self, out: &mut String)
        ensures
            final(out)@ == old(out)@ + json_text(*self),
        decreases *self,
    {
        match self {
            Json::Null => out.append("null"),
            Json::Bool(b) => if *b {
                out.append("true")
            } else {
                out.append("false")
            },
            Json::Number(n) => n.push_text(out),
            Json::Text(s) => out.append(quote(s.as_str()).as_str()),
            Json::Array(items) => {
                out.push('[');
                let ghost start = out@;
                let mut i: usize = 0;
                assert(items_text(items@.take(0)) =~= Seq::empty());
                while i < items.len()
                    invariant
                        i <= items@.len(),
                        *self == Json::Array(*items),
                        out@ == start + items_text(items@.take(i as int)),
                    decreases items@.len() - i,
                {
                    if i > 0 {
                        out.push(',');
                    }
                    assert(decreases_to!(*self => self->Array_0@[i as int]));
                    items[i].push_text(out);
                    proof {
                        let more = items@.take(i + 1);
                        assert(more.drop_last() =~= items@.take(i as int));
                        assert(more.last() == items@[i as int]);
                        assert(out@ =~= start + items_text(more));
                    }
                    i += 1;
                }
                assert(items@.take(i as int) =~= items@);
                out.push(']');
                assert(out@ =~= old(out)@ + json_text(*self));
            },
            Json::Object(members) => {
                out.push('{');
                let ghost start = out@;
                let mut i: usize = 0;
                assert(members_text(members@.take(0)) =~= Seq::empty());
                while i < members.len()
                    invariant
                        i <= members@.len(),
                        *self == Json::Object(*members),
                        out@ == start + members_text(members@.take(i as int)),
                    decreases members@.len() - i,
                {
                    if i > 0 {
                        out.push(',');
                    }
                    out.append(quote(members[i].0.as_str()).as_str());
                    out.push(':');
                    assert(decreases_to!(*self => self->Object_0@[i as int].1));
                    members[i].1.push_text(out);
                    proof {
                        let more = members@.take(i + 1);
                        assert(more.drop_last() =~= members@.take(i as int));
                        assert(more.last() == members@[i as int]);
                        assert(out@ =~= start + members_text(more));
                    }
                    i += 1;
                }
                assert(members@.take(i as int) =~= members@);
                out.push('}');
                assert(out@ =~= old(out)@ + json_text(*self));
            },
        }
    }

    /// The compact text of the value.
    pub fn to_text(&self) -> (text: String)
        ensures
            text@ == json_text(*self),
    {
        let mut text = String::new();
        self.push_text(&mut text);
        assert(text@ =~= json_text(*self));
        text
    }
}

/// Looking up a name gives the value of the member that has it, wherever it stands; of several
/// that have it, the first.
pub proof fn law_member_is_found(members: Seq<(String, Json)>, i: int)
    requires
        0 <= i < members.len(),
        forall|j: int| 0 <= j < i ==> (#[trigger] members[j]).0@ != members[i].0@,
    ensures
        find_member(members, members[i].0@) == Some(members[i].1),
    decreases i,
{
    if i > 0 {
        let rest = members.drop_first();
        assert(members[0].0@ != members[i].0@);
        assert forall|j: int| 0 <= j < i - 1 implies (#[trigger] rest[j]).0@ != rest[i - 1].0@ by {
            assert(rest[j] == members[j + 1]);
        }
        law_member_is_found(rest, i - 1);
    }
}

/// Nothing is found exactly where no member has the name.
pub proof fn law_member_is_missing(members: Seq<(String, Json)>, name: Seq<char>)
    ensures
        find_member(members, name) is None <==> forall|i: int|
            0 <= i < members.len() ==> (#[trigger] members[i]).0@ != name,
    decreases members.len(),
{
    if members.len() > 0 {
        let rest = members.drop_first();
        law_member_is_missing(rest, name);
        if members[0].0@ == name {
            assert(!(forall|i: int| 0 <= i < members.len() ==> (#[trigger] members[i]).0@ != name));
        } else {
            if find_member(members, name) is None {
                assert forall|i: int| 0 <= i < members.len() implies (#[trigger] members[i]).0@
                    != name by {
                    if i > 0 {
                        assert(members[i] == rest[i - 1]);
                    }
                }
            } else {
                let i = choose|i: int| 0 <= i < rest.len() && (#[trigger] rest[i]).0@ == name;
                assert(members[i + 1].0@ == name);
            }
        }
    }
}

/// A member that is asked for by its name is the first one that has it; what has no such member,
/// and what is no object, gives null.
pub proof fn law_member_or_null(value: Json, name: Seq<char>)
    ensures
        value matches Json::Object(members) ==> forall|i: int|
            0 <= i < members@.len() && (#[trigger] members@[i]).0@ == name && (forall|j: int|
                0 <= j < i ==> (#[trigger] members@[j]).0@ != name) ==> value.member_or_null(name)
                == members@[i].1,
        value matches Json::Object(members) ==> (forall|i: int|
            0 <= i < members@.len() ==> (#[trigger] members@[i]).0@ != name)
            ==> value.member_or_null(name) == Json::Null,
        !(value is Object) ==> value.member_or_null(name) == Json::Null,
{
    if let Json::Object(members) = value {
        law_member_is_missing(members@, name);
        assert forall|i: int|
            0 <= i < members@.len() && (#[trigger] members@[i]).0@ == name && (forall|j: int|
                0 <= j < i ==> (#[trigger] members@[j]).0@ != name) implies value.member_or_null(
            name,
        ) == members@[i].1 by {
            law_member_is_found(members@, i);
        }
    }
}

/// An integer that is not negative is read as itself, and nothing else is read as one.
pub proof fn law_unsigned(value: Json)
    ensures
        value.unsigned() matches Some(n) ==> (value == Json::Number(JsonNumber::PosInt(n)) || (
        value matches Json::Number(JsonNumber::NegInt(m)) && m == n)),
        value matches Json::Number(JsonNumber::PosInt(_)) ==> value.unsigned() is Some,
        value matches Json::Number(JsonNumber::NegInt(m)) ==> (m >= 0 <==> value.unsigned() is Some),
{
}

/// The literal of a text stands between quotation marks. A character more is one that stands for
/// itself, or else an escape that begins with a backslash.
pub proof fn law_string_literal(s: Seq<char>, c: char)
    ensures
        string_literal(Seq::empty()) == seq!['"', '"'],
        string_literal(s).len() >= 2,
        string_literal(s)[0] == '"',
        string_literal(s).last() == '"',
        c as int >= 32 && c != '"' && c != '\\' ==> string_literal(s.push(c)) == string_literal(
            s,
        ).drop_last().push(c).push('"'),
        c == '"' || c == '\\' ==> string_literal(s.push(c)) == string_literal(s).drop_last().push(
            '\\',
        ).push(c).push('"'),
        (c as int) < 32 ==> {
            let more = string_literal(s.push(c));
            let start = string_literal(s).len() - 1;
            &&& more.len() > start + 2
            &&& more.take(start) == string_literal(s).drop_last()
            &&& more[start] == '\\'
            &&& (c as int == 8 ==> more[start + 1] == 'b' && more.len() == start + 3)
            &&& (c as int == 9 ==> more[start + 1] == 't' && more.len() == start + 3)
            &&& (c as int == 10 ==> more[start + 1] == 'n' && more.len() == start + 3)
            &&& (c as int == 12 ==> more[start + 1] == 'f' && more.len() == start + 3)
            &&& (c as int == 13 ==> more[start + 1] == 'r' && more.len() == start + 3)
            &&& (c as int != 8 && c as int != 9 && c as int != 10 && c as int != 12 && c as int
                != 13 ==> {
                &&& more.len() == start + 7
                &&& more[start + 1] == 'u'
                &&& more[start + 2] == '0'
                &&& more[start + 3] == '0'
                &&& bytes_of_hex(more.subrange(start + 4, start + 6)) == Some(seq![c as u8])
            })
        },
{
    assert(string_literal(Seq::empty()) =~= seq!['"', '"']);
    assert(s.push(c).drop_last() =~= s);
    assert(escaped_all(s.push(c)) == escaped_all(s) + escaped(c));
    let more = string_literal(s.push(c));
    let start = string_literal(s).len() - 1;
    assert(string_literal(s).drop_last() =~= seq!['"'] + escaped_all(s));
    if c as int >= 32 && c != '"' && c != '\\' {
        assert(more =~= string_literal(s).drop_last().push(c).push('"'));
    } else if c == '"' || c == '\\' {
        assert(more =~= string_literal(s).drop_last().push('\\').push(c).push('"'));
    } else {
        assert(more.take(start) =~= string_literal(s).drop_last());
        if c as int != 8 && c as int != 9 && c as int != 10 && c as int != 12 && c as int != 13 {
            law_hex_round_trip(seq![c as u8]);
            assert(more.subrange(start + 4, start + 6) =~= hex_text(seq![c as u8]));
        }
    }
}

/// The text of a value that holds no others: the words for null and the truth values, decimal
/// numbers that denote the integers, and the literal of a text.
pub proof fn law_scalar_text(n: u64, m: i64, s: String)
    ensures
        json_text(Json::Null) == "null"@,
        json_text(Json::Bool(true)) == "true"@,
        json_text(Json::Bool(false)) == "false"@,
        decimal_value(json_text(Json::Number(JsonNumber::PosInt(n)))) == n,
        m < 0 ==> json_text(Json::Number(JsonNumber::NegInt(m)))[0] == '-' && decimal_value(
            json_text(Json::Number(JsonNumber::NegInt(m))).skip(1),
        ) == -m,
        forall|bits: u64|
            json_text(Json::Number(JsonNumber::Binary64 { bits, text: s })) == #[trigger] number_text(
                JsonNumber::Binary64 { bits, text: s },
            ) && number_text(JsonNumber::Binary64 { bits, text: s }) == s@,
        json_text(Json::Text(s)) == string_literal(s@),
{
    law_decimal_denotes(n as nat);
    law_signed_decimal_denotes(m as int);
}

/// The text of an array stands between brackets, and each item more adds a comma, unless it is the
/// first, and its own text.
pub proof fn law_array_text(items: Vec<Json>, item: Json, more: Vec<Json>)
    requires
        more@ == items@.push(item),
    ensures
        items@.len() == 0 ==> json_text(Json::Array(items)) == seq!['[', ']'],
        items@.len() == 0 ==> json_text(Json::Array(more)) == seq!['['] + json_text(item) + seq![
            ']',
        ],
        items@.len() > 0 ==> json_text(Json::Array(more)) == json_text(
            Json::Array(items),
        ).drop_last() + seq![','] + json_text(item) + seq![']'],
        json_text(Json::Array(items)).last() == ']',
{
    assert(more@.drop_last() =~= items@);
    assert(json_text(Json::Array(items)) =~= seq!['['] + items_text(items@) + seq![']']);
    assert(json_text(Json::Array(items)).drop_last() =~= seq!['['] + items_text(items@));
    if items@.len() == 0 {
        assert(json_text(Json::Array(items)) =~= seq!['[', ']']);
        assert(more@[0] == item);
    } else {
        assert(json_text(Json::Array(more)) =~= json_text(Json::Array(items)).drop_last() + seq![
            ',',
        ] + json_text(item) + seq![']']);
    }
}

/// The text of an object stands between braces, and each member more adds a comma, unless it is
/// the first, the literal of its name, a colon and the text of its value.
pub proof fn law_object_text(
    members: Vec<(String, Json)>,
    name: String,
    value: Json,
    more: Vec<(String, Json)>,
)
    requires
        more@ == members@.push((name, value)),
    ensures
        members@.len() == 0 ==> json_text(Json::Object(members)) == seq!['{', '}'],
        members@.len() == 0 ==> json_text(Json::Object(more)) == seq!['{'] + string_literal(name@)
            + seq![':'] + json_text(value) + seq!['}'],
        members@.len() > 0 ==> json_text(Json::Object(more)) == json_text(
            Json::Object(members),
        ).drop_last() + seq![','] + string_literal(name@) + seq![':'] + json_text(value) + seq!['}'],
        json_text(Json::Object(members)).last() == '}',
{
    assert(more@.drop_last() =~= members@);
    assert(json_text(Json::Object(members)) =~= seq!['{'] + members_text(members@) + seq!['}']);
    assert(json_text(Json::Object(members)).drop_last() =~= seq!['{'] + members_text(members@));
    if members@.len() == 0 {
        assert(json_text(Json::Object(members)) =~= seq!['{', '}']);
        assert(more@[0] == (name, value));
        assert(json_text(Json::Object(more)) =~= seq!['{'] + string_literal(name@) + seq![':']
            + json_text(value) + seq!['}']);
    } else {
        assert(more@.last() == (name, value));
        assert(json_text(Json::Object(more)) =~= json_text(Json::Object(members)).drop_last()
            + seq![','] + string_literal(name@) + seq![':'] + json_text(value) + seq!['}']);
    }
}

} // verus!
