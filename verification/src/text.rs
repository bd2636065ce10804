//! Text building blocks: decimal and hexadecimal numbers.

use vstd::prelude::*;

verus! {

/// `String::push`: appends one character at the end.
pub assume_specification[ String::push ](s: &mut String, c: char)
    ensures
        final(s)@ == old(s)@.push(c),
;

/// The character for a decimal or (lower-case) hexadecimal digit.
pub open spec fn digit_char(d: nat) -> char {
    if d < 10 {
        ('0' as u32 + d) as char
    } else {
        ('a' as u32 + (d - 10)) as char
    }
}

/// `n` in decimal, without leading zeros.
pub open spec fn decimal_text(n: nat) -> Seq<char>
    decreases n,
{
    if n < 10 {
        seq![digit_char(n)]
    } else {
        decimal_text(n / 10).push(digit_char(n % 10))
    }
}

/// `n` in decimal, with a minus sign where it is negative.
pub open spec fn signed_decimal_text(n: int) -> Seq<char> {
    if n < 0 {
        seq!['-'] + decimal_text((-n) as nat)
    } else {
        decimal_text(n as nat)
    }
}

/// Two lower-case hexadecimal digits per byte, high digit first.
pub open spec fn hex_text(bytes: Seq<u8>) -> Seq<char> {
    Seq::new(
        2 * bytes.len(),
        |i: int|
            if i % 2 == 0 {
                digit_char(bytes[i / 2] as nat / 16)
            } else {
                digit_char(bytes[i / 2] as nat % 16)
            },
    )
}

/// The value of a hexadecimal digit of either case.
pub open spec fn hex_value(c: char) -> Option<nat> {
    if '0' <= c <= '9' {
        Some((c as u32 - '0' as u32) as nat)
    } else if 'a' <= c <= 'f' {
        Some((c as u32 - 'a' as u32 + 10) as nat)
    } else if 'A' <= c <= 'F' {
        Some((c as u32 - 'A' as u32 + 10) as nat)
    } else {
        None
    }
}

/// The bytes that a text of hexadecimal digits of either case denotes, two digits each.
pub open spec fn bytes_of_hex(text: Seq<char>) -> Option<Seq<u8>> {
    if text.len() % 2 == 0 && forall|i: int|
        0 <= i < text.len() ==> hex_value(#[trigger] text[i]) is Some {
        Some(
            Seq::new(
                text.len() / 2,
                |i: int|
                    (16 * hex_value(text[2 * i])->Some_0 + hex_value(
                        text[2 * i + 1],
                    )->Some_0) as u8,
            ),
        )
    } else {
        None
    }
}

/// The character for the digit `d`.
fn digit(d: u8) -> (c: char)
    requires
        d < 16,
    ensures
        c == digit_char(d as nat),
{
    if d < 10 {
        (48 + d) as char
    } else {
        (87 + d) as char
    }
}

/// Appends `n` in decimal.
pub fn push_decimal(out: &mut String, n: u64)
    ensures
        final(out)@ == old(out)@ + decimal_text(n as nat),
    decreases n,
{
    if n >= 10 {
        push_decimal(out, n / 10);
    }
    out.push(digit((n % 10) as u8));
}

/// Appends `n` in decimal, with a minus sign where it is negative.
pub fn push_signed_decimal(out: &mut String, n: i64)
    ensures
        final(out)@ == old(out)@ + signed_decimal_text(n as int),
{
    if n >= 0 {
        push_decimal(out, n as u64);
    } else {
        out.push('-');
        let magnitude: u64 = (-(n as i128)) as u64;
        push_decimal(out, magnitude);
    }
}

/// The lower-case hexadecimal text of `bytes`.
pub fn to_hex(bytes: &[u8]) -> (text: String)
    ensures
        text@ == hex_text(bytes@),
{
    let mut text = String::new();
    let mut i: usize = 0;
    while i < bytes.len()
        invariant
            i <= bytes.len(),
            text@ == hex_text(bytes@.take(i as int)),
        decreases bytes.len() - i,
    {
        let b: u8 = bytes[i];
        text.push(digit(b / 16));
        text.push(digit(b % 16));
        proof {
            let before = bytes@.take(i as int);
            let after = bytes@.take(i as int + 1);
            assert(after == before.push(b));
            assert(text@ =~= hex_text(after));
        }
        i += 1;
    }
    assert(bytes@.take(bytes@.len() as int) == bytes@);
    text
}

/// The value of a hexadecimal digit of either case.
fn digit_value(c: char) -> (value: Option<u8>)
    ensures
        match value {
            Some(v) => hex_value(c) == Some(v as nat),
            None => hex_value(c) is None,
        },
{
    let code: u32 = c as u32;
    if 48 <= code && code <= 57 {
        Some((code - 48) as u8)
    } else if 97 <= code && code <= 102 {
        Some((code - 87) as u8)
    } else if 65 <= code && code <= 70 {
        Some((code - 55) as u8)
    } else {
        None
    }
}

/// The bytes that a text of hexadecimal digits of either case denotes.
pub fn from_hex(text: &str) -> (bytes: Option<Vec<u8>>)
    ensures
        match bytes {
            Some(b) => bytes_of_hex(text@) == Some(b@),
            None => bytes_of_hex(text@) is None,
        },
{
    let mut bytes: Vec<u8> = Vec::new();
    let mut high: Option<u8> = None;
    for c in it: text.chars()
        invariant
            it.seq() == text@,
            bytes@.len() == it.index() / 2,
            high is Some <==> it.index() % 2 == 1,
            high matches Some(h) ==> hex_value(text@[it.index() - 1]) == Some(h as nat),
            forall|j: int| 0 <= j < it.index() ==> hex_value(#[trigger] text@[j]) is Some,
            forall|j: int|
                0 <= j < bytes@.len() ==> #[trigger] bytes@[j] == (16 * hex_value(
                    text@[2 * j],
                )->Some_0 + hex_value(text@[2 * j + 1])->Some_0) as u8,
    {
        let ghost at = it.index();
        let value = match digit_value(c) {
            Some(value) => value,
            None => {
                assert(hex_value(text@[at]) is None);
                return None;
            },
        };
        match high {
            Some(h) => {
                bytes.push(16 * h + value);
                high = None;
            },
            None => {
                high = Some(value);
            },
        }
    }
    match high {
        Some(_) => None,
        None => {
            assert(bytes@ =~= bytes_of_hex(text@)->Some_0);
            Some(bytes)
        },
    }
}

/// Reading back what was written in hexadecimal gives the bytes.
pub proof fn law_hex_round_trip(bytes: Seq<u8>)
    ensures
        bytes_of_hex(hex_text(bytes)) == Some(bytes),
{
    let text = hex_text(bytes);
    assert forall|i: int| 0 <= i < bytes.len() implies {
        &&& hex_value(#[trigger] text[2 * i]) == Some(bytes[i] as nat / 16)
        &&& hex_value(text[2 * i + 1]) == Some(bytes[i] as nat % 16)
    } by {
        assert((2 * i) / 2 == i);
        assert((2 * i + 1) / 2 == i);
    }
    assert forall|i: int| 0 <= i < text.len() implies hex_value(#[trigger] text[i]) is Some by {
        let j = i / 2;
        assert(text[2 * j] == text[2 * j]);
        assert(i == 2 * j || i == 2 * j + 1);
    }
    assert(bytes_of_hex(text)->Some_0 =~= bytes) by {
        assert forall|i: int| 0 <= i < bytes.len() implies bytes_of_hex(text)->Some_0[i]
            == bytes[i] by {
            assert(hex_value(text[2 * i]) == Some(bytes[i] as nat / 16));
        }
    }
}

/// Whether the text is made of decimal digits and the letters `a` to `f`.
pub open spec fn is_lower_hex(text: Seq<char>) -> bool {
    forall|i: int|
        0 <= i < text.len() ==> '0' <= #[trigger] text[i] <= '9' || 'a' <= text[i] <= 'f'
}

/// Writing bytes that were read from a hexadecimal text gives the text, in lower case.
pub proof fn law_hex_rewrite(text: Seq<char>, bytes: Seq<u8>)
    requires
        bytes_of_hex(text) == Some(bytes),
    ensures
        hex_text(bytes) == Seq::new(text.len(), |i: int| digit_char(hex_value(text[i])->Some_0)),
        is_lower_hex(text) ==> hex_text(bytes) == text,
{
    let out = hex_text(bytes);
    assert(out.len() == text.len());
    assert forall|i: int| 0 <= i < text.len() implies #[trigger] out[i] == digit_char(
        hex_value(text[i])->Some_0,
    ) by {
        let j = i / 2;
        let hi = hex_value(text[2 * j])->Some_0;
        let lo = hex_value(text[2 * j + 1])->Some_0;
        assert(hi < 16 && lo < 16);
        assert(bytes[j] == (16 * hi + lo) as u8);
        assert(bytes[j] as nat / 16 == hi);
        assert(bytes[j] as nat % 16 == lo);
        assert(i == 2 * j || i == 2 * j + 1);
    }
    assert(out =~= Seq::new(text.len(), |i: int| digit_char(hex_value(text[i])->Some_0)));
    if is_lower_hex(text) {
        assert forall|i: int| 0 <= i < text.len() implies out[i] == text[i] by {
            assert('0' <= text[i] <= '9' || 'a' <= text[i] <= 'f');
        }
        assert(out =~= text);
    }
}

/// The number that a text of decimal digits denotes.
pub open spec fn decimal_value(text: Seq<char>) -> int
    decreases text.len(),
{
    if text.len() == 0 {
        0
    } else {
        10 * decimal_value(text.drop_last()) + (text.last() as int - 48)
    }
}

/// A number in decimal is made of the digits `0` to `9`, begins with none that is superfluous, and
/// denotes the number.
pub proof fn law_decimal_denotes(n: nat)
    ensures
        decimal_text(n).len() > 0,
        forall|i: int|
            0 <= i < decimal_text(n).len() ==> 48 <= (#[trigger] decimal_text(n)[i]) as int <= 57,
        decimal_text(n).len() == 1 <==> n < 10,
        decimal_text(n).len() > 1 ==> decimal_text(n)[0] as int != 48,
        decimal_value(decimal_text(n)) == n,
    decreases n,
{
    let text = decimal_text(n);
    if n < 10 {
        assert(text.drop_last() =~= Seq::empty());
        assert(text.last() as int == 48 + n);
        assert(decimal_value(text.drop_last()) == 0);
    } else {
        law_decimal_denotes(n / 10);
        assert(text.drop_last() =~= decimal_text(n / 10));
        assert(text.last() as int == 48 + n % 10);
        if n / 10 < 10 {
            assert(decimal_text(n / 10)[0] as int == 48 + n / 10);
        }
        assert(text[0] == decimal_text(n / 10)[0]);
        assert forall|i: int| 0 <= i < text.len() implies 48 <= (#[trigger] text[i]) as int <= 57 by {
            if i < text.len() - 1 {
                assert(text[i] == decimal_text(n / 10)[i]);
            }
        }
    }
}

/// A number with a sign begins with a minus sign exactly where it is negative, and what follows
/// denotes its magnitude.
pub proof fn law_signed_decimal_denotes(n: int)
    ensures
        n < 0 ==> signed_decimal_text(n)[0] as int == 45,
        n < 0 ==> decimal_value(signed_decimal_text(n).skip(1)) == -n,
        n >= 0 ==> decimal_value(signed_decimal_text(n)) == n,
        n >= 0 ==> signed_decimal_text(n)[0] as int != 45,
{
    let magnitude = (if n < 0 { -n } else { n }) as nat;
    law_decimal_denotes(magnitude);
    if n < 0 {
        assert(signed_decimal_text(n).skip(1) =~= decimal_text(magnitude));
    } else {
        assert(48 <= decimal_text(magnitude)[0] as int);
    }
}

/// In hexadecimal, byte `i` stands at positions `2 * i` and `2 * i + 1`, its high half first, as
/// the digits `0` to `9` and `a` to `f`; nothing else stands there.
pub proof fn law_hex_digits(bytes: Seq<u8>)
    ensures
        hex_text(bytes).len() == 2 * bytes.len(),
        forall|i: int|
            0 <= i < bytes.len() ==> {
                let byte = (#[trigger] bytes[i]) as int;
                let high = hex_text(bytes)[2 * i] as int;
                let low = hex_text(bytes)[2 * i + 1] as int;
                &&& byte < 160 ==> high == 48 + byte / 16
                &&& byte >= 160 ==> high == 87 + byte / 16
                &&& byte % 16 < 10 ==> low == 48 + byte % 16
                &&& byte % 16 >= 10 ==> low == 87 + byte % 16
            },
{
    assert forall|i: int| 0 <= i < bytes.len() implies {
        let byte = (#[trigger] bytes[i]) as int;
        let high = hex_text(bytes)[2 * i] as int;
        let low = hex_text(bytes)[2 * i + 1] as int;
        &&& byte < 160 ==> high == 48 + byte / 16
        &&& byte >= 160 ==> high == 87 + byte / 16
        &&& byte % 16 < 10 ==> low == 48 + byte % 16
        &&& byte % 16 >= 10 ==> low == 87 + byte % 16
    } by {
        assert((2 * i) / 2 == i);
        assert((2 * i + 1) / 2 == i);
    }
}

/// Whether the character is a hexadecimal digit of either case.
pub open spec fn is_hex_digit(c: char) -> bool {
    48 <= c as int <= 57 || 65 <= c as int <= 70 || 97 <= c as int <= 102
}

/// Exactly the texts with an even number of hexadecimal digits, of either case, denote bytes. There
/// is one byte for each two digits, and it is what writing it would give, but for the case.
pub proof fn law_hex_denotes(text: Seq<char>)
    ensures
        bytes_of_hex(text) is Some <==> text.len() % 2 == 0 && forall|i: int|
            0 <= i < text.len() ==> is_hex_digit(#[trigger] text[i]),
        bytes_of_hex(text) matches Some(bytes) ==> {
            &&& text.len() == 2 * bytes.len()
            &&& hex_text(bytes).len() == text.len()
            &&& forall|i: int|
                0 <= i < text.len() ==> {
                    let c = (#[trigger] text[i]) as int;
                    hex_text(bytes)[i] as int == if 65 <= c <= 70 {
                        c + 32
                    } else {
                        c
                    }
                }
        },
{
    assert forall|c: char| (hex_value(c) is Some) == #[trigger] is_hex_digit(c) by {}
    if bytes_of_hex(text) is Some {
        let bytes = bytes_of_hex(text)->Some_0;
        law_hex_rewrite(text, bytes);
        assert forall|i: int| 0 <= i < text.len() implies {
            let c = (#[trigger] text[i]) as int;
            hex_text(bytes)[i] as int == if 65 <= c <= 70 {
                c + 32
            } else {
                c
            }
        } by {
            assert(is_hex_digit(text[i]));
        }
    } else if text.len() % 2 == 0 {
        let i = choose|i: int| 0 <= i < text.len() && hex_value(#[trigger] text[i]) is None;
        assert(!is_hex_digit(text[i]));
    }
    if text.len() % 2 == 0 && forall|i: int|
        0 <= i < text.len() ==> is_hex_digit(#[trigger] text[i]) {
        assert forall|i: int| 0 <= i < text.len() implies hex_value(#[trigger] text[i]) is Some by {
            assert(is_hex_digit(text[i]));
        }
    }
}

} // verus!
