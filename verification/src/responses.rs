//! The node's replies, read out of JSON.

use crate::fee_rate::{law_binary64, law_rate_is_nearest, sat_per_kwu};
use crate::hash_table::{Hash256, Txid};
use crate::json::{
    find_member, json_text, law_member_is_missing, law_member_or_null, Json, JsonNumber,
};
use crate::mempool::Transaction;
use crate::text::{
    bytes_of_hex, from_hex, hex_text, is_hex_digit, is_lower_hex, law_hex_denotes, law_hex_rewrite,
    law_hex_round_trip,
};
use bitcoin::consensus::encode::deserialize_hex;
use vstd::arithmetic::power2::pow2;
use vstd::prelude::*;

verus! {

/// A fee rate in satoshis per 1000 weight units, as estimated by the node.
#[derive(Clone, Copy, Debug, PartialEq, Eq)]
pub struct FeeResponse(pub u64);

/// The least fee rate of the mempool, in satoshis per 1000 weight units.
#[derive(Clone, Copy, Debug, PartialEq, Eq)]
pub struct MempoolMinFeeResponse(pub u64);

/// What is said of a fee rate: the rate, or why there is none.
pub open spec fn fee_rate_of(value: Json) -> Result<u64, Seq<char>> {
    match value {
        Json::Number(n) => Ok(sat_per_kwu(n)),
        _ => Err("Failed to parse fee rate"@),
    }
}

/// Reads a fee rate.
fn read_fee_rate(value: Option<&Json>) -> (rate: Result<u64, String>)
    ensures
        match (rate, fee_rate_of(match value { Some(v) => *v, None => Json::Null })) {
            (Ok(r), Ok(want)) => r == want,
            (Err(e), Err(want)) => e@ == want,
            _ => false,
        },
{
    match value {
        Some(Json::Number(n)) => Ok(n.btc_per_kvb_to_sat_per_kwu()),
        _ => Err("Failed to parse fee rate".to_owned()),
    }
}

impl FeeResponse {
    /// Reads the reply to `estimatesmartfee`. Where the node reports errors, their JSON text is
    /// the failure.
    pub fn from_json(json: &Json) -> (response: Result<FeeResponse, String>)
        ensures
            match response {
                Ok(r) => {
                    &&& json.member_or_null("errors"@) is Null
                    &&& fee_rate_of(json.member_or_null("feerate"@)) == Ok::<u64, Seq<char>>(r.0)
                },
                Err(e) => if json.member_or_null("errors"@) is Null {
                    fee_rate_of(json.member_or_null("feerate"@)) == Err::<u64, Seq<char>>(e@)
                } else {
                    e@ == json_text(json.member_or_null("errors"@))
                },
            },
    {
        match json.member("errors") {
            None | Some(Json::Null) => {},
            Some(errors) => {
                return Err(errors.to_text());
            },
        }
        match read_fee_rate(json.member("feerate")) {
            Ok(rate) => Ok(FeeResponse(rate)),
            Err(e) => Err(e),
        }
    }
}

impl MempoolMinFeeResponse {
    /// Reads the reply to `getmempoolinfo`.
    pub fn from_json(json: &Json) -> (response: Result<MempoolMinFeeResponse, String>)
        ensures
            match response {
                Ok(r) => fee_rate_of(json.member_or_null("mempoolminfee"@)) == Ok::<
                    u64,
                    Seq<char>,
                >(r.0),
                Err(e) => fee_rate_of(json.member_or_null("mempoolminfee"@)) == Err::<
                    u64,
                    Seq<char>,
                >(e@),
            },
    {
        match read_fee_rate(json.member("mempoolminfee")) {
            Ok(rate) => Ok(MempoolMinFeeResponse(rate)),
            Err(e) => Err(e),
        }
    }
}

/// Whether a text is the hexadecimal consensus encoding of a transaction.
pub uninterp spec fn denotes_transaction(text: Seq<char>) -> bool;

/// `deserialize_hex` of a `bitcoin::Transaction`, of which only the success is told: a text is
/// accepted where it is made of pairs of hexadecimal digits and all of its bytes are the encoding
/// of a transaction. Which bytes encode one is not said here.
#[verifier::external_body]
fn is_transaction(text: &str) -> (r: bool)
    ensures
        r == denotes_transaction(text@),
        r ==> bytes_of_hex(text@) is Some,
{
    deserialize_hex::<bitcoin::Transaction>(text).is_ok()
}

/// The bytes of the hash that a text denotes: 64 hexadecimal digits.
pub open spec fn hash_of_hex(text: Seq<char>) -> Option<Seq<u8>> {
    if text.len() == 64 {
        bytes_of_hex(text)
    } else {
        None
    }
}

/// `deserialize_hex` of a `bitcoin::Txid`: exactly the texts of 64 hexadecimal digits, of either
/// case, are accepted, and the digits are taken in their order.
#[verifier::external_body]
fn parse_txid(text: &str) -> (txid: Option<Txid>)
    ensures
        match txid {
            Some(t) => hash_of_hex(text@) == Some(t.bytes@),
            None => hash_of_hex(text@) is None,
        },
{
    match deserialize_hex::<bitcoin::Txid>(text) {
        Ok(txid) => Some(Hash256 { bytes: bitcoin::hashes::Hash::to_byte_array(txid) }),
        Err(_) => None,
    }
}

/// A transaction, as the node has it.
#[derive(Debug, PartialEq, Eq)]
pub struct GetRawTransactionResponse(pub Transaction);

impl GetRawTransactionResponse {
    /// The response for a text of which it is known whether it denotes a transaction.
    pub fn decoded(text: &str, valid: bool) -> (response: Result<GetRawTransactionResponse, String>)
        ensures
            match response {
                Ok(r) => valid && bytes_of_hex(text@) == Some(r.0@),
                Err(e) => {
                    &&& !valid || bytes_of_hex(text@) is None
                    &&& e@ == "Failed to parse getrawtransaction response"@
                },
            },
    {
        if valid {
            if let Some(encoding) = from_hex(text) {
                return Ok(GetRawTransactionResponse(Transaction { encoding }));
            }
        }
        Err("Failed to parse getrawtransaction response".to_owned())
    }

    /// Reads the reply to a request for a transaction.
    pub fn from_json(json: &Json) -> (response: Result<GetRawTransactionResponse, String>)
        ensures
            match response {
                Ok(r) => *json matches Json::Text(s) && denotes_transaction(s@) && bytes_of_hex(s@)
                    == Some(r.0@),
                Err(e) => {
                    &&& e@ == "Failed to parse getrawtransaction response"@
                    &&& !(*json matches Json::Text(s) && denotes_transaction(s@))
                },
            },
    {
        match json {
            Json::Text(s) => {
                let valid = is_transaction(s.as_str());
                Self::decoded(s.as_str(), valid)
            },
            _ => Err("Failed to parse getrawtransaction response".to_owned()),
        }
    }
}

/// The ids of the transactions in the mempool.
#[derive(Debug, PartialEq, Eq)]
pub struct GetRawMempoolResponse(pub Vec<Txid>);

/// The bytes of the hash that a value denotes.
pub open spec fn hash_of_json(value: Json) -> Option<Seq<u8>> {
    match value {
        Json::Text(s) => hash_of_hex(s@),
        _ => None,
    }
}

/// Whether the value is an array of hashes.
pub open spec fn lists_hashes(value: Json) -> bool {
    value matches Json::Array(items) && forall|i: int|
        0 <= i < items@.len() ==> hash_of_json(#[trigger] items@[i]) is Some
}

impl GetRawMempoolResponse {
    /// Reads the reply to `getrawmempool`.
    pub fn from_json(json: &Json) -> (response: Result<GetRawMempoolResponse, String>)
        ensures
            match response {
                Ok(r) => {
                    &&& *json matches Json::Array(items) && {
                        &&& r.0@.len() == items@.len()
                        &&& forall|i: int|
                            0 <= i < items@.len() ==> hash_of_json(#[trigger] items@[i]) == Some(
                                r.0@[i].bytes@,
                            )
                    }
                },
                Err(e) => {
                    &&& !lists_hashes(*json)
                    &&& e@ == "Failed to parse getrawmempool response"@
                },
            },
    {
        match json {
            Json::Array(items) => {
                let mut mempool_transactions: Vec<Txid> = Vec::new();
                let mut i: usize = 0;
                while i < items.len()
                    invariant
                        i <= items@.len(),
                        *json == Json::Array(*items),
                        mempool_transactions@.len() == i,
                        forall|j: int|
                            0 <= j < i ==> hash_of_json(#[trigger] items@[j]) == Some(
                                mempool_transactions@[j].bytes@,
                            ),
                    decreases items@.len() - i,
                {
                    let txid = match &items[i] {
                        Json::Text(s) => parse_txid(s.as_str()),
                        _ => None,
                    };
                    match txid {
                        Some(txid) => mempool_transactions.push(txid),
                        None => {
                            assert(hash_of_json(items@[i as int]) is None);
                            return Err("Failed to parse getrawmempool response".to_owned());
                        },
                    }
                    i += 1;
                }
                Ok(GetRawMempoolResponse(mempool_transactions))
            },
            _ => Err("Failed to parse getrawmempool response".to_owned()),
        }
    }
}

/// When a transaction entered the mempool.
#[derive(Clone, Copy, Debug, PartialEq, Eq)]
pub struct GetMempoolEntryResponse {
    /// Local time transaction entered pool in seconds since 1 Jan 1970 GMT.
    pub time: u64,
    /// Block height when transaction entered pool.
    pub height: u32,
}

/// Whether an object has the members that are read of it: `time` and, where that is a time,
/// `height`.
pub open spec fn has_entry_members(value: Json) -> bool {
    value matches Json::Object(members) ==> {
        &&& find_member(members@, "time"@) is Some
        &&& find_member(members@, "time"@)->Some_0.unsigned() is Some ==> find_member(
            members@,
            "height"@,
        ) is Some
    }
}

/// The time and the height that a value gives.
pub open spec fn entry_of(value: Json) -> Option<(u64, u32)> {
    match value {
        Json::Object(_) => match (
            value.member_or_null("time"@).unsigned(),
            value.member_or_null("height"@).unsigned(),
        ) {
            (Some(time), Some(height)) => if height <= u32::MAX {
                Some((time, height as u32))
            } else {
                None
            },
            _ => None,
        },
        _ => None,
    }
}

impl GetMempoolEntryResponse {
    /// Whether `from_json` may be called on the value.
    pub fn can_read(json: &Json) -> (r: bool)
        ensures
            r == has_entry_members(*json),
    {
        match json {
            Json::Object(_) => match json.member("time") {
                Some(time) => time.as_u64().is_none() || json.member("height").is_some(),
                None => false,
            },
            _ => true,
        }
    }

    /// Reads the reply to `getmempoolentry`.
    pub fn from_json(json: &Json) -> (response: Result<GetMempoolEntryResponse, String>)
        requires
            has_entry_members(*json),
        ensures
            match response {
                Ok(r) => entry_of(*json) == Some((r.time, r.height)),
                Err(e) => {
                    &&& entry_of(*json) is None
                    &&& e@ == "Failed to parse getmempoolentry response"@
                },
            },
    {
        if let Json::Object(_) = json {
            if let Some(value) = json.member("time") {
                if let Some(time) = value.as_u64() {
                    if let Some(value) = json.member("height") {
                        if let Some(height) = value.as_u64() {
                            if height <= u32::MAX as u64 {
                                return Ok(
                                    GetMempoolEntryResponse { time, height: height as u32 },
                                );
                            }
                        }
                    }
                }
            }
        }
        Err("Failed to parse getmempoolentry response".to_owned())
    }
}

/// Exactly the texts of 64 hexadecimal digits denote a hash, and it is written as the text, but for
/// the case of the digits.
pub proof fn law_hash_of_json(value: Json)
    ensures
        hash_of_json(value) is Some <==> (value matches Json::Text(s) && s@.len() == 64 && forall|
            i: int,
        |
            0 <= i < 64 ==> is_hex_digit(#[trigger] s@[i])),
        hash_of_json(value) matches Some(bytes) ==> {
            &&& bytes.len() == 32
            &&& value matches Json::Text(s) && {
                &&& forall|i: int|
                    0 <= i < 64 ==> {
                        let c = (#[trigger] s@[i]) as int;
                        hex_text(bytes)[i] as int == if 65 <= c <= 70 {
                            c + 32
                        } else {
                            c
                        }
                    }
                &&& is_lower_hex(s@) ==> hex_text(bytes) == s@
            }
        },
{
    if let Json::Text(s) = value {
        law_hex_denotes(s@);
        if let Some(bytes) = bytes_of_hex(s@) {
            law_hex_rewrite(s@, bytes);
        }
    }
}

/// Each id that is read from the list of the mempool is the text that stands at its place, read as
/// hexadecimal: written again it is that text, and there is one for each item.
pub proof fn law_ids_as_listed(items: Seq<Json>, ids: Seq<Txid>)
    requires
        ids.len() == items.len(),
        forall|i: int|
            0 <= i < items.len() ==> hash_of_json(#[trigger] items[i]) == Some(ids[i].bytes@),
    ensures
        forall|i: int|
            0 <= i < items.len() ==> {
                &&& (#[trigger] items[i]) matches Json::Text(s) && {
                    &&& s@.len() == 64
                    &&& bytes_of_hex(s@) == Some(ids[i].bytes@)
                    &&& is_lower_hex(s@) ==> hex_text(ids[i].bytes@) == s@
                }
            },
{
    assert forall|i: int| 0 <= i < items.len() implies {
        &&& (#[trigger] items[i]) matches Json::Text(s) && {
            &&& s@.len() == 64
            &&& bytes_of_hex(s@) == Some(ids[i].bytes@)
            &&& is_lower_hex(s@) ==> hex_text(ids[i].bytes@) == s@
        }
    } by {
        law_hash_of_json(items[i]);
        if let Json::Text(s) = items[i] {
            law_hex_round_trip(ids[i].bytes@);
            law_hex_denotes(s@);
            let bytes = bytes_of_hex(s@)->Some_0;
            lemma_same_digits(s@, bytes, ids[i].bytes@);
        }
    }
}

/// Bytes that are written alike are the same.
proof fn lemma_same_digits(text: Seq<char>, one: Seq<u8>, other: Seq<u8>)
    requires
        hex_text(one).len() == hex_text(other).len(),
        hex_text(one).len() == text.len(),
        forall|i: int|
            0 <= i < text.len() ==> {
                let c = (#[trigger] text[i]) as int;
                let low = if 65 <= c <= 70 {
                    c + 32
                } else {
                    c
                };
                hex_text(one)[i] as int == low && hex_text(other)[i] as int == low
            },
    ensures
        one == other,
{
    assert forall|i: int| 0 <= i < text.len() implies hex_text(one)[i] == hex_text(other)[i] by {
        assert(hex_text(one)[i] as int == hex_text(other)[i] as int) by {
            let c = text[i];
        }
    }
    assert(hex_text(one) =~= hex_text(other));
    law_hex_round_trip(one);
    law_hex_round_trip(other);
}

/// A value lists hashes exactly where it is an array of texts of 64 hexadecimal digits each.
pub proof fn law_lists_hashes(value: Json)
    ensures
        lists_hashes(value) <==> (value matches Json::Array(items) && forall|i: int|
            0 <= i < items@.len() ==> is_hash_text(#[trigger] items@[i])),
{
    if let Json::Array(items) = value {
        assert forall|i: int| 0 <= i < items@.len() implies (hash_of_json(
            #[trigger] items@[i],
        ) is Some) == is_hash_text(items@[i]) by {
            law_hash_of_json(items@[i]);
        }
        if !lists_hashes(value) {
            let i = choose|i: int|
                0 <= i < items@.len() && hash_of_json(#[trigger] items@[i]) is None;
            assert(!is_hash_text(items@[i]));
        }
        if lists_hashes(value) {
            assert forall|i: int| 0 <= i < items@.len() implies is_hash_text(
                #[trigger] items@[i],
            ) by {
                assert(hash_of_json(items@[i]) is Some);
            }
        }
    }
}

/// Whether the value is a text of 64 hexadecimal digits.
pub open spec fn is_hash_text(value: Json) -> bool {
    value matches Json::Text(s) && s@.len() == 64 && forall|i: int|
        0 <= i < 64 ==> is_hex_digit(#[trigger] s@[i])
}

/// Every number is read as a fee rate, and nothing else is.
pub proof fn law_fee_rate_of(value: Json)
    ensures
        fee_rate_of(value) is Ok <==> value is Number,
        fee_rate_of(value) matches Err(m) ==> m == "Failed to parse fee rate"@,
        value matches Json::Number(n) ==> fee_rate_of(value) == Ok::<u64, Seq<char>>(sat_per_kwu(n)),
{
}

/// A reply that has a rate under a name, wherever among its members, is read as that rate: for `k`
/// satoshis per 1000 virtual bytes, given as the binary64 number of this exponent and fraction, a
/// whole number of satoshis/kwu than which none is nearer to `k / 4`.
pub proof fn law_fee_rate_is_read(
    members: Vec<(String, Json)>,
    i: int,
    exponent: u64,
    fraction: u64,
    text: String,
    k: nat,
)
    requires
        0 <= i < members@.len(),
        forall|j: int| 0 <= j < i ==> (#[trigger] members@[j]).0@ != members@[i].0@,
        0 < exponent <= 1048,
        fraction < 0x10_0000_0000_0000,
        members@[i].1 == Json::Number(
            JsonNumber::Binary64 {
                bits: (exponent * 0x10_0000_0000_0000 + fraction) as u64,
                text,
            },
        ),
        -100_000_000 <= 2 * ((fraction + 0x10_0000_0000_0000) * 100_000_000 - k * pow2(
            (1075 - exponent) as nat,
        )) <= 100_000_000,
    ensures
        fee_rate_of(Json::Object(members).member_or_null(members@[i].0@)) matches Ok(rate) && -2
            <= 4 * rate - k <= 2,
{
    law_member_or_null(Json::Object(members), members@[i].0@);
    assert(members@[i].0@ == members@[i].0@);
    law_binary64(exponent, fraction, text);
    law_rate_is_nearest((fraction + 0x10_0000_0000_0000) as nat, exponent - 1075, k);
}

/// A reply that gives no number under the name it is asked for has no rate.
pub proof fn law_missing_rate(value: Json, name: Seq<char>)
    ensures
        value matches Json::Object(members) ==> (forall|i: int|
            0 <= i < members@.len() ==> (#[trigger] members@[i]).0@ != name) ==> fee_rate_of(
            value.member_or_null(name),
        ) is Err,
        !(value is Object) ==> fee_rate_of(value.member_or_null(name)) is Err,
{
    law_member_or_null(value, name);
}

/// The time and the height of an entry are the numbers that stand under these names, wherever among
/// the members, and as they stand; a height beyond 32 bits is none.
pub proof fn law_entry_is_read(members: Vec<(String, Json)>, i: int, j: int, time: u64, height: u64)
    requires
        0 <= i < members@.len(),
        0 <= j < members@.len(),
        members@[i].0@ == "time"@,
        members@[j].0@ == "height"@,
        forall|l: int| 0 <= l < i ==> (#[trigger] members@[l]).0@ != "time"@,
        forall|l: int| 0 <= l < j ==> (#[trigger] members@[l]).0@ != "height"@,
        members@[i].1 == Json::Number(JsonNumber::PosInt(time)),
        members@[j].1 == Json::Number(JsonNumber::PosInt(height)),
    ensures
        has_entry_members(Json::Object(members)),
        height <= 0xffff_ffff ==> entry_of(Json::Object(members)) == Some((time, height as u32)),
        height > 0xffff_ffff ==> entry_of(Json::Object(members)) is None,
{
    law_member_or_null(Json::Object(members), "time"@);
    law_member_or_null(Json::Object(members), "height"@);
    law_member_is_missing(members@, "time"@);
    law_member_is_missing(members@, "height"@);
    assert(members@[i].0@ == "time"@);
    assert(members@[j].0@ == "height"@);
}

/// A value has the time and the height of an entry only where it is an object that has under
/// `time` and `height` integers that are not negative.
pub proof fn law_entry_needs_numbers(value: Json)
    ensures
        entry_of(value) matches Some((time, height)) ==> {
            &&& value is Object
            &&& value.member_or_null("time"@).unsigned() == Some(time)
            &&& value.member_or_null("height"@).unsigned() matches Some(h) && h == height
        },
        !(value is Object) ==> has_entry_members(value),
        value matches Json::Object(members) ==> (has_entry_members(value) <==> {
            &&& exists|i: int| 0 <= i < members@.len() && (#[trigger] members@[i]).0@ == "time"@
            &&& value.member_or_null("time"@).unsigned() is Some ==> exists|i: int|
                0 <= i < members@.len() && (#[trigger] members@[i]).0@ == "height"@
        }),
{
    if let Json::Object(members) = value {
        law_member_is_missing(members@, "time"@);
        law_member_is_missing(members@, "height"@);
    }
}

} // verus!
