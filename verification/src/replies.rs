//! What the answers to a client's requests mean.

use crate::client::{tx_path, tx_resource, BitcoindApiClient};
use crate::hash_table::Txid;
use crate::http::{http_error_text, law_error_text_is_unambiguous, HttpError};
use crate::json::{json_text, Json};
use crate::mempool::{MempoolEntry, Transaction};
use crate::responses::{
    denotes_transaction, entry_of, fee_rate_of, has_entry_members, hash_of_hex, hash_of_json,
    lists_hashes, FeeResponse, GetMempoolEntryResponse, GetRawMempoolResponse,
    GetRawTransactionResponse, MempoolMinFeeResponse,
};
use crate::text::{bytes_of_hex, hex_text, is_lower_hex};
use vstd::prelude::*;

verus! {

/// The code with which the RPC interface says that something was not found.
pub const RPC_NOT_FOUND: i64 = -5;

/// An error reported by the RPC interface.
#[derive(Debug, PartialEq, Eq)]
pub struct RpcError {
    pub code: i64,
    pub message: String,
}

/// What a failed call carries.
#[derive(Debug, PartialEq, Eq)]
pub enum CallErrorSource {
    /// An error reported by the RPC interface.
    Rpc(RpcError),
    /// A reply that is no success.
    Http(HttpError),
    /// Any other error, of which only the text is known.
    Other(String),
    /// Nothing.
    Nothing,
}

/// A failed call: what it carries, and whether its kind says no more than that it failed.
#[derive(Debug, PartialEq, Eq)]
pub struct CallError {
    pub kind_is_other: bool,
    pub source: CallErrorSource,
}

/// Why a request that may find nothing failed.
#[derive(Debug, PartialEq, Eq)]
pub enum ApiError {
    Rpc(RpcError),
    Http(HttpError),
    Message(String),
}

/// Why a request failed: the call failed, or its reply could not be read.
#[derive(Debug, PartialEq, Eq)]
pub enum ReplyError<E> {
    Call(E),
    Message(String),
}

/// Whether this says that the thing asked for does not exist.
pub open spec fn rpc_says_not_found(error: CallError) -> bool {
    error.source matches CallErrorSource::Rpc(e) && e.code == RPC_NOT_FOUND
}

/// Whether a text is that of a reply with this status code.
pub open spec fn tells_status(text: Seq<char>, status_code: Seq<char>) -> bool {
    exists|contents: Seq<char>| text == #[trigger] http_error_text(status_code, contents)
}

/// Whether this says that the thing asked for does not exist.
pub open spec fn rest_says_not_found(error: CallError) -> bool {
    error.kind_is_other && match error.source {
        CallErrorSource::Http(e) => e.status_code@ == "404"@,
        CallErrorSource::Other(text) => tells_status(text@, "404"@),
        _ => false,
    }
}

/// Whether a text is that of a reply that says that something was not found.
fn tells_not_found(text: &str) -> (r: bool)
    ensures
        r == tells_status(text@, "404"@),
{
    let not_found: String = "404".to_owned();
    match HttpError::from_text(text) {
        Some(http_error) => {
            let r = http_error.status_code == not_found;
            proof {
                reveal_strlit("404");
                let code = http_error.status_code@;
                let contents = choose|contents: Seq<char>|
                    text@ == #[trigger] http_error_text(code, contents);
                if tells_status(text@, "404"@) {
                    let other = choose|other: Seq<char>|
                        text@ == #[trigger] http_error_text("404"@, other);
                    law_error_text_is_unambiguous(code, contents, "404"@, other);
                }
            }
            r
        },
        None => {
            proof {
                reveal_strlit("404");
            }
            false
        },
    }
}

/// What is made of a failed RPC call: that nothing was found, the error reported, or that the
/// reply could not be processed.
fn rpc_failure<T>(error: CallError, unprocessed: &str) -> (outcome: Result<Option<T>, ApiError>)
    ensures
        match error.source {
            CallErrorSource::Rpc(e) => if e.code == RPC_NOT_FOUND {
                outcome == Ok::<Option<T>, ApiError>(None)
            } else {
                outcome == Err::<Option<T>, ApiError>(ApiError::Rpc(e))
            },
            _ => outcome matches Err(ApiError::Message(m)) && m@ == unprocessed@,
        },
{
    match error.source {
        CallErrorSource::Rpc(rpc_error) => {
            // Check if it's the 'not found' error code.
            if rpc_error.code == RPC_NOT_FOUND {
                Ok(None)
            } else {
                Err(ApiError::Rpc(rpc_error))
            }
        },
        _ => Err(ApiError::Message(unprocessed.to_owned())),
    }
}

/// The message on a REST resource that could not be processed.
pub open spec fn unprocessed_resource(resource: Seq<char>) -> Seq<char> {
    "Failed to process "@ + resource + " response."@
}

/// What is made of a failed REST call: that nothing was found, the failure reported, or that the
/// reply could not be processed. A failure of which only the text is known is told apart where it
/// says that nothing was found.
fn rest_failure<T>(error: CallError, resource: &str) -> (outcome: Result<Option<T>, ApiError>)
    ensures
        match error.source {
            CallErrorSource::Http(e) if error.kind_is_other => if e.status_code@ == "404"@ {
                outcome == Ok::<Option<T>, ApiError>(None)
            } else {
                outcome == Err::<Option<T>, ApiError>(ApiError::Http(e))
            },
            CallErrorSource::Other(text) if error.kind_is_other && tells_status(
                text@,
                "404"@,
            ) => outcome == Ok::<Option<T>, ApiError>(None),
            _ => outcome matches Err(ApiError::Message(m)) && m@ == unprocessed_resource(
                resource@,
            ),
        },
{
    if error.kind_is_other {
        match error.source {
            CallErrorSource::Http(http_error) => {
                // Check if it's the HTTP NOT_FOUND error code.
                let not_found: String = "404".to_owned();
                return if http_error.status_code == not_found {
                    Ok(None)
                } else {
                    Err(ApiError::Http(http_error))
                };
            },
            CallErrorSource::Other(text) => {
                if tells_not_found(text.as_str()) {
                    return Ok(None);
                }
            },
            _ => {},
        }
    }
    let mut message: String = "Failed to process ".to_owned();
    message.append(resource);
    message.append(" response.");
    Err(ApiError::Message(message))
}

/// A reply that arrived but could not be read.
fn unreadable() -> (error: CallError)
    ensures
        error == (CallError { kind_is_other: true, source: CallErrorSource::Nothing }),
{
    CallError { kind_is_other: true, source: CallErrorSource::Nothing }
}

/// The outcome of a request for a fee estimate: the rate in satoshis/kwu.
pub fn fee_estimate_reply<E>(outcome: Result<Json, E>) -> (rate: Result<u64, ReplyError<E>>)
    ensures
        match outcome {
            Err(e) => rate == Err::<u64, ReplyError<E>>(ReplyError::Call(e)),
            Ok(json) => match rate {
                Ok(r) => {
                    &&& json.member_or_null("errors"@) is Null
                    &&& fee_rate_of(json.member_or_null("feerate"@)) == Ok::<u64, Seq<char>>(r)
                },
                Err(ReplyError::Message(m)) => if json.member_or_null("errors"@) is Null {
                    fee_rate_of(json.member_or_null("feerate"@)) == Err::<u64, Seq<char>>(m@)
                } else {
                    m@ == json_text(json.member_or_null("errors"@))
                },
                Err(ReplyError::Call(_)) => false,
            },
        },
{
    match outcome {
        Err(e) => Err(ReplyError::Call(e)),
        Ok(json) => match FeeResponse::from_json(&json) {
            Ok(response) => Ok(response.0),
            Err(m) => Err(ReplyError::Message(m)),
        },
    }
}

/// The outcome of a request for the mempool minimum fee rate: the rate in satoshis/kwu.
pub fn mempool_minimum_fee_rate_reply<E>(outcome: Result<Json, E>) -> (rate: Result<
    u64,
    ReplyError<E>,
>)
    ensures
        match outcome {
            Err(e) => rate == Err::<u64, ReplyError<E>>(ReplyError::Call(e)),
            Ok(json) => match rate {
                Ok(r) => fee_rate_of(json.member_or_null("mempoolminfee"@)) == Ok::<
                    u64,
                    Seq<char>,
                >(r),
                Err(ReplyError::Message(m)) => fee_rate_of(json.member_or_null("mempoolminfee"@))
                    == Err::<u64, Seq<char>>(m@),
                Err(ReplyError::Call(_)) => false,
            },
        },
{
    match outcome {
        Err(e) => Err(ReplyError::Call(e)),
        Ok(json) => match MempoolMinFeeResponse::from_json(&json) {
            Ok(response) => Ok(response.0),
            Err(m) => Err(ReplyError::Message(m)),
        },
    }
}

/// The outcome of a request for the raw mempool: the ids.
pub fn raw_mempool_reply<E>(outcome: Result<Json, E>) -> (txids: Result<Vec<Txid>, ReplyError<E>>)
    ensures
        match outcome {
            Err(e) => txids == Err::<Vec<Txid>, ReplyError<E>>(ReplyError::Call(e)),
            Ok(json) => match txids {
                Ok(ids) => json matches Json::Array(items) && {
                    &&& ids@.len() == items@.len()
                    &&& forall|i: int|
                        0 <= i < items@.len() ==> hash_of_json(#[trigger] items@[i]) == Some(
                            ids@[i].bytes@,
                        )
                },
                Err(ReplyError::Message(m)) => {
                    &&& !lists_hashes(json)
                    &&& m@ == "Failed to parse getrawmempool response"@
                },
                Err(ReplyError::Call(_)) => false,
            },
        },
{
    match outcome {
        Err(e) => Err(ReplyError::Call(e)),
        Ok(json) => match GetRawMempoolResponse::from_json(&json) {
            Ok(response) => Ok(response.0),
            Err(m) => Err(ReplyError::Message(m)),
        },
    }
}

/// The outcome of a request for the mempool entry of `txid`, its reply read: nothing where the
/// node has none.
pub fn mempool_entry_outcome(
    txid: Txid,
    reply: Result<GetMempoolEntryResponse, CallError>,
) -> (entry: Result<Option<MempoolEntry>, ApiError>)
    ensures
        match reply {
            Ok(r) => entry == Ok::<Option<MempoolEntry>, ApiError>(
                Some(MempoolEntry { txid, time: r.time, height: r.height }),
            ),
            Err(error) => match error.source {
                CallErrorSource::Rpc(e) => if e.code == RPC_NOT_FOUND {
                    entry == Ok::<Option<MempoolEntry>, ApiError>(None)
                } else {
                    entry == Err::<Option<MempoolEntry>, ApiError>(ApiError::Rpc(e))
                },
                _ => entry matches Err(ApiError::Message(m)) && m@
                    == "Failed to process getmempoolentry response"@,
            },
        },
{
    match reply {
        Ok(resp) => Ok(Some(MempoolEntry { txid, time: resp.time, height: resp.height })),
        Err(error) => rpc_failure(error, "Failed to process getmempoolentry response"),
    }
}

/// The outcome of a request for the mempool entry of `txid`. A reply that cannot be read counts
/// as one that could not be processed.
pub fn mempool_entry_reply(txid: Txid, outcome: Result<Json, CallError>) -> (entry: Result<
    Option<MempoolEntry>,
    ApiError,
>)
    requires
        outcome matches Ok(json) ==> has_entry_members(json),
    ensures
        match outcome {
            Ok(json) => match entry_of(json) {
                Some((time, height)) => entry == Ok::<Option<MempoolEntry>, ApiError>(
                    Some(MempoolEntry { txid, time, height }),
                ),
                None => entry matches Err(ApiError::Message(m)) && m@
                    == "Failed to process getmempoolentry response"@,
            },
            Err(error) => match error.source {
                CallErrorSource::Rpc(e) => if e.code == RPC_NOT_FOUND {
                    entry == Ok::<Option<MempoolEntry>, ApiError>(None)
                } else {
                    entry == Err::<Option<MempoolEntry>, ApiError>(ApiError::Rpc(e))
                },
                _ => entry matches Err(ApiError::Message(m)) && m@
                    == "Failed to process getmempoolentry response"@,
            },
        },
{
    let reply = match outcome {
        Ok(json) => match GetMempoolEntryResponse::from_json(&json) {
            Ok(response) => Ok(response),
            Err(_) => Err(unreadable()),
        },
        Err(error) => Err(error),
    };
    mempool_entry_outcome(txid, reply)
}

impl BitcoindApiClient {
    /// What is made of a request for a transaction that failed or whose reply could not be
    /// read: over RPC, and over REST.
    pub open spec fn raw_transaction_failure(
        self,
        txid: Txid,
        error: CallError,
        outcome: Result<Option<Transaction>, ApiError>,
    ) -> bool {
        match self {
            BitcoindApiClient::Rpc { .. } => match error.source {
                CallErrorSource::Rpc(e) => if e.code == RPC_NOT_FOUND {
                    outcome == Ok::<Option<Transaction>, ApiError>(None)
                } else {
                    outcome == Err::<Option<Transaction>, ApiError>(ApiError::Rpc(e))
                },
                _ => outcome matches Err(ApiError::Message(m)) && m@
                    == "Failed to process getrawtransaction response"@,
            },
            BitcoindApiClient::Rest { .. } => match error.source {
                CallErrorSource::Http(e) if error.kind_is_other => if e.status_code@ == "404"@ {
                    outcome == Ok::<Option<Transaction>, ApiError>(None)
                } else {
                    outcome == Err::<Option<Transaction>, ApiError>(ApiError::Http(e))
                },
                CallErrorSource::Other(text) if error.kind_is_other && tells_status(
                    text@,
                    "404"@,
                ) => outcome == Ok::<Option<Transaction>, ApiError>(None),
                _ => outcome matches Err(ApiError::Message(m)) && m@ == unprocessed_resource(
                    tx_resource(txid),
                ),
            },
        }
    }

    /// The outcome of a request for the transaction `txid`, its reply read. Returns `None` if
    /// not found.
    pub fn raw_transaction_outcome(
        &self,
        txid: &Txid,
        reply: Result<GetRawTransactionResponse, CallError>,
    ) -> (tx: Result<Option<Transaction>, ApiError>)
        ensures
            match reply {
                Ok(r) => tx == Ok::<Option<Transaction>, ApiError>(Some(r.0)),
                Err(error) => self.raw_transaction_failure(*txid, error, tx),
            },
    {
        match reply {
            Ok(resp) => Ok(Some(resp.0)),
            Err(error) => match self {
                BitcoindApiClient::Rpc { .. } => rpc_failure(
                    error,
                    "Failed to process getrawtransaction response",
                ),
                BitcoindApiClient::Rest { .. } => rest_failure(error, tx_path(txid).as_str()),
            },
        }
    }

    /// The outcome of a request for the transaction `txid`. Returns `None` if not found. A reply
    /// that cannot be read counts as one that could not be processed.
    pub fn raw_transaction_reply(
        &self,
        txid: &Txid,
        outcome: Result<Json, CallError>,
    ) -> (tx: Result<Option<Transaction>, ApiError>)
        ensures
            match outcome {
                Ok(json) => if json matches Json::Text(s) && denotes_transaction(s@) {
                    tx matches Ok(Some(t)) && bytes_of_hex(json->Text_0@) == Some(t@)
                } else {
                    self.raw_transaction_failure(
                        *txid,
                        CallError { kind_is_other: true, source: CallErrorSource::Nothing },
                        tx,
                    )
                },
                Err(error) => self.raw_transaction_failure(*txid, error, tx),
            },
    {
        let reply = match outcome {
            Ok(json) => match GetRawTransactionResponse::from_json(&json) {
                Ok(response) => Ok(response),
                Err(_) => Err(unreadable()),
            },
            Err(error) => Err(error),
        };
        self.raw_transaction_outcome(txid, reply)
    }
}

/// A transaction counts as not found exactly where the interface that was asked says so: by its
/// error code over RPC, by the status code over REST.
pub proof fn law_none_if_not_found(
    client: BitcoindApiClient,
    txid: Txid,
    error: CallError,
    outcome: Result<Option<Transaction>, ApiError>,
)
    requires
        client.raw_transaction_failure(txid, error, outcome),
    ensures
        outcome matches Ok(tx) ==> tx is None,
        outcome is Ok <==> match client {
            BitcoindApiClient::Rpc { .. } => rpc_says_not_found(error),
            BitcoindApiClient::Rest { .. } => rest_says_not_found(error),
        },
{
}

/// An id is asked for by the text under which the mempool listed it, where that is in lower
/// case.
pub proof fn law_asked_for_as_listed(text: Seq<char>, txid: Txid)
    requires
        hash_of_hex(text) == Some(txid.bytes@),
        is_lower_hex(text),
    ensures
        hex_text(txid.bytes@) == text,
{
    crate::text::law_hex_rewrite(text, txid.bytes@);
}

/// A transaction is broadcast by the text that a request for it yielded, where that is in lower
/// case.
pub proof fn law_broadcast_as_fetched(text: Seq<char>, tx: Transaction)
    requires
        bytes_of_hex(text) == Some(tx@),
        is_lower_hex(text),
    ensures
        hex_text(tx@) == text,
{
    crate::text::law_hex_rewrite(text, tx@);
}

/// A resource that could not be processed is named whole in the message.
pub proof fn law_unprocessed_resource(resource: Seq<char>)
    ensures
        ({
            let message = unprocessed_resource(resource);
            let n = resource.len() as int;
            &&& message.len() == 18 + n + 10
            &&& message.take(18) == "Failed to process "@
            &&& message.subrange(18, 18 + n) == resource
            &&& message.skip(18 + n) == " response."@
        }),
{
    reveal_strlit("Failed to process ");
    reveal_strlit(" response.");
    let message = unprocessed_resource(resource);
    let n = resource.len() as int;
    assert(message.take(18) =~= "Failed to process "@);
    assert(message.subrange(18, 18 + n) =~= resource);
    assert(message.skip(18 + n) =~= " response."@);
}

/// A failure to get a transaction is told as it was reported, whatever its code, message, status
/// and contents: over RPC an error with a code other than that for what is not found, over REST a
/// failure with another status.
pub proof fn law_reported_failures_are_told(
    client: BitcoindApiClient,
    txid: Txid,
    error: CallError,
    outcome: Result<Option<Transaction>, ApiError>,
)
    requires
        client.raw_transaction_failure(txid, error, outcome),
    ensures
        client is Rpc ==> (error.source matches CallErrorSource::Rpc(e) ==> {
            &&& e.code == -5 ==> outcome == Ok::<Option<Transaction>, ApiError>(None)
            &&& e.code != -5 ==> (outcome matches Err(ApiError::Rpc(told)) && told.code == e.code
                && told.message@ == e.message@)
        }),
        client is Rpc ==> (!(error.source is Rpc) ==> (outcome matches Err(ApiError::Message(m))
            && m@ == "Failed to process getrawtransaction response"@)),
        client is Rest && error.kind_is_other ==> (error.source matches CallErrorSource::Http(e)
            ==> {
            &&& e.status_code@ == "404"@ ==> outcome == Ok::<Option<Transaction>, ApiError>(None)
            &&& e.status_code@ != "404"@ ==> (outcome matches Err(ApiError::Http(told))
                && told.status_code@ == e.status_code@ && told.contents@ == e.contents@)
        }),
        client is Rest && error.kind_is_other ==> (error.source matches CallErrorSource::Other(text)
            ==> {
            &&& (exists|contents: Seq<char>| text@ == #[trigger] http_error_text("404"@, contents))
                ==> outcome == Ok::<Option<Transaction>, ApiError>(None)
            &&& !(exists|contents: Seq<char>| text@ == #[trigger] http_error_text("404"@, contents))
                ==> outcome is Err
        }),
        client is Rest && (!error.kind_is_other || error.source is Rpc || error.source is Nothing)
            ==> outcome is Err,
        client is Rest && outcome is Err && !(outcome matches Err(ApiError::Http(_))) ==> (
        outcome matches Err(ApiError::Message(m)) && m@ == "Failed to process "@ + ("tx/"@
            + hex_text(txid.bytes@) + ".json"@) + " response."@),
{
}

} // verus!
