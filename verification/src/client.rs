//! What is asked of the node, and over which of its interfaces.

use crate::hash_table::Txid;
use crate::http::{
    base64_text, endpoint, joined_credentials, rest_endpoint, rpc_credentials, Endpoint,
};
use crate::json::{Json, JsonNumber};
use crate::mempool::Transaction;
use crate::text::{bytes_of_hex, hex_text, law_hex_round_trip, to_hex};
use vstd::prelude::*;
use vstd::utf8::encode_utf8;

verus! {

/// One of the two interfaces of the node.
#[derive(Clone, Copy, Debug, PartialEq, Eq)]
pub enum Interface {
    Rpc,
    Rest,
}

/// A request to the node.
#[derive(Debug, PartialEq, Eq)]
pub enum Request {
    /// A method of the RPC interface, with its parameters.
    Rpc { method: String, params: Vec<Json> },
    /// A resource of the REST interface.
    Rest { path: String },
}

/// How the node estimates fee rates.
#[derive(Clone, Copy, Debug, PartialEq, Eq)]
pub enum FeeRateEstimationMode {
    Economical,
    Conservative,
}

impl FeeRateEstimationMode {
    /// The name of the mode.
    pub open spec fn name_spec(self) -> Seq<char> {
        match self {
            FeeRateEstimationMode::Economical => "ECONOMICAL"@,
            FeeRateEstimationMode::Conservative => "CONSERVATIVE"@,
        }
    }

    /// The name of the mode.
    pub fn name(&self) -> (name: String)
        ensures
            name@ == self.name_spec(),
    {
        match self {
            FeeRateEstimationMode::Economical => "ECONOMICAL".to_owned(),
            FeeRateEstimationMode::Conservative => "CONSERVATIVE".to_owned(),
        }
    }
}

impl Request {
    /// Whether this calls an RPC method with a text as its only parameter.
    pub open spec fn calls_with_text(self, called: Seq<char>, text: Seq<char>) -> bool {
        self matches Request::Rpc { method, params } && {
            &&& method@ == called
            &&& params@.len() == 1
            &&& params@[0] matches Json::Text(t) && t@ == text
        }
    }

    /// Whether this asks for a REST resource.
    pub open spec fn asks_for(self, resource: Seq<char>) -> bool {
        self matches Request::Rest { path } && path@ == resource
    }

    /// A call of an RPC method with a text as its only parameter.
    fn with_text(method: &str, text: String) -> (request: Request)
        ensures
            request.calls_with_text(method@, text@),
    {
        let mut params: Vec<Json> = Vec::new();
        params.push(Json::Text(text));
        Request::Rpc { method: method.to_owned(), params }
    }
}

/// How the RPC interface is reached.
#[derive(Debug, PartialEq, Eq)]
pub struct RpcAccess {
    pub endpoint: Endpoint,
    pub credentials: String,
}

/// A client of the node.
#[derive(Debug, PartialEq, Eq)]
pub enum BitcoindApiClient {
    Rpc { rpc_client: RpcAccess },
    Rest { rest_client: Endpoint, rpc_client: RpcAccess },
}

/// Whether the RPC interface is reached at this place with these credentials.
pub open spec fn reaches(
    access: RpcAccess,
    host: Seq<char>,
    port: u16,
    user: Seq<char>,
    password: Seq<char>,
) -> bool {
    &&& access.endpoint.host@ == host
    &&& access.endpoint.port == port
    &&& access.endpoint.path@ == "/"@
    &&& access.credentials@ == base64_text(encode_utf8(joined_credentials(user, password)))
}

/// The REST resource of a transaction.
pub open spec fn tx_resource(txid: Txid) -> Seq<char> {
    "tx/"@ + hex_text(txid.bytes@) + ".json"@
}

/// The REST resource of a transaction.
pub fn tx_path(txid: &Txid) -> (path: String)
    ensures
        path@ == tx_resource(*txid),
{
    let mut path: String = "tx/".to_owned();
    path.append(to_hex(&txid.bytes).as_str());
    path.append(".json");
    path
}

impl BitcoindApiClient {
    /// Creates a new RPC API client for the chain interactions with Bitcoin Core.
    pub fn new_rpc(host: String, port: u16, rpc_user: String, rpc_password: String) -> (client:
        BitcoindApiClient)
        ensures
            client matches BitcoindApiClient::Rpc { rpc_client } && reaches(
                rpc_client,
                host@,
                port,
                rpc_user@,
                rpc_password@,
            ),
    {
        let http_endpoint = endpoint(host, port);
        let credentials = rpc_credentials(rpc_user, rpc_password);
        BitcoindApiClient::Rpc { rpc_client: RpcAccess { endpoint: http_endpoint, credentials } }
    }

    /// Creates a new, primarily REST API client for the chain interactions with Bitcoin Core.
    ///
    /// Aside the required REST host and port, RPC configuration options are taken for necessary
    /// calls not supported by the REST interface.
    pub fn new_rest(
        rest_host: String,
        rest_port: u16,
        rpc_host: String,
        rpc_port: u16,
        rpc_user: String,
        rpc_password: String,
    ) -> (client: BitcoindApiClient)
        ensures
            client matches BitcoindApiClient::Rest { rest_client, rpc_client } && {
                &&& rest_client.host@ == rest_host@
                &&& rest_client.port == rest_port
                &&& rest_client.path@ == "/rest"@
                &&& reaches(rpc_client, rpc_host@, rpc_port, rpc_user@, rpc_password@)
            },
    {
        let rest_client = rest_endpoint(rest_host, rest_port);
        let rpc_endpoint = endpoint(rpc_host, rpc_port);
        let credentials = rpc_credentials(rpc_user, rpc_password);
        BitcoindApiClient::Rest {
            rest_client,
            rpc_client: RpcAccess { endpoint: rpc_endpoint, credentials },
        }
    }

    /// The interface that looks up unspent outputs.
    pub fn utxo_source(&self) -> (interface: Interface)
        ensures
            interface == match *self {
                BitcoindApiClient::Rpc { .. } => Interface::Rpc,
                BitcoindApiClient::Rest { .. } => Interface::Rest,
            },
    {
        match self {
            BitcoindApiClient::Rpc { .. } => Interface::Rpc,
            BitcoindApiClient::Rest { .. } => Interface::Rest,
        }
    }

    /// The interface that serves headers, blocks and the best block.
    pub fn block_source(&self) -> (interface: Interface)
        ensures
            interface == match *self {
                BitcoindApiClient::Rpc { .. } => Interface::Rpc,
                BitcoindApiClient::Rest { .. } => Interface::Rest,
            },
    {
        match self {
            BitcoindApiClient::Rpc { .. } => Interface::Rpc,
            BitcoindApiClient::Rest { .. } => Interface::Rest,
        }
    }

    /// Broadcasts the provided transaction. The REST interface does not support this, so the RPC
    /// interface is used by either client.
    pub fn broadcast_transaction(&self, tx: &Transaction) -> (request: Request)
        ensures
            request.calls_with_text("sendrawtransaction"@, hex_text(tx@)),
    {
        Request::with_text("sendrawtransaction", to_hex(tx.encoding.as_slice()))
    }

    /// Retrieves the fee estimate needed for a transaction to begin confirmation within the
    /// provided `num_blocks`. The REST interface does not support this, so the RPC interface is
    /// used by either client.
    pub fn get_fee_estimate_for_target(
        &self,
        num_blocks: usize,
        estimation_mode: FeeRateEstimationMode,
    ) -> (request: Request)
        ensures
            request matches Request::Rpc { method, params } && {
                &&& method@ == "estimatesmartfee"@
                &&& params@.len() == 2
                &&& params@[0] == Json::Number(JsonNumber::PosInt(num_blocks as u64))
                &&& params@[1] matches Json::Text(t) && t@ == estimation_mode.name_spec()
            },
    {
        let mut params: Vec<Json> = Vec::new();
        params.push(Json::Number(JsonNumber::PosInt(num_blocks as u64)));
        params.push(Json::Text(estimation_mode.name()));
        Request::Rpc { method: "estimatesmartfee".to_owned(), params }
    }

    /// Gets the mempool minimum fee rate.
    pub fn get_mempool_minimum_fee_rate(&self) -> (request: Request)
        ensures
            match *self {
                BitcoindApiClient::Rpc { .. } => request matches Request::Rpc { method, params }
                    && method@ == "getmempoolinfo"@ && params@.len() == 0,
                BitcoindApiClient::Rest { .. } => request.asks_for("mempool/info.json"@),
            },
    {
        match self {
            BitcoindApiClient::Rpc { .. } => Request::Rpc {
                method: "getmempoolinfo".to_owned(),
                params: Vec::new(),
            },
            BitcoindApiClient::Rest { .. } => Request::Rest {
                path: "mempool/info.json".to_owned(),
            },
        }
    }

    /// Gets the raw transaction for the provided transaction ID.
    pub fn get_raw_transaction(&self, txid: &Txid) -> (request: Request)
        ensures
            match *self {
                BitcoindApiClient::Rpc { .. } => request.calls_with_text(
                    "getrawtransaction"@,
                    hex_text(txid.bytes@),
                ),
                BitcoindApiClient::Rest { .. } => request.asks_for(tx_resource(*txid)),
            },
    {
        match self {
            BitcoindApiClient::Rpc { .. } => Request::with_text(
                "getrawtransaction",
                to_hex(&txid.bytes),
            ),
            BitcoindApiClient::Rest { .. } => Request::Rest { path: tx_path(txid) },
        }
    }

    /// Retrieves the raw mempool.
    pub fn get_raw_mempool(&self) -> (request: Request)
        ensures
            match *self {
                BitcoindApiClient::Rpc { .. } => request matches Request::Rpc { method, params }
                    && method@ == "getrawmempool"@ && params@ == seq![Json::Bool(false)],
                BitcoindApiClient::Rest { .. } => request.asks_for(
                    "mempool/contents.json?verbose=false"@,
                ),
            },
    {
        match self {
            BitcoindApiClient::Rpc { .. } => {
                let mut params: Vec<Json> = Vec::new();
                params.push(Json::Bool(false));
                assert(params@ =~= seq![Json::Bool(false)]);
                Request::Rpc { method: "getrawmempool".to_owned(), params }
            },
            BitcoindApiClient::Rest { .. } => Request::Rest {
                path: "mempool/contents.json?verbose=false".to_owned(),
            },
        }
    }

    /// Retrieves an entry from the mempool. The RPC interface is used by either client.
    pub fn get_mempool_entry(&self, txid: Txid) -> (request: Request)
        ensures
            request.calls_with_text("getmempoolentry"@, hex_text(txid.bytes@)),
    {
        Request::with_text("getmempoolentry", to_hex(&txid.bytes))
    }
}

/// A call with a text has the method that is named and one parameter, the whole text.
pub proof fn law_called_with_whole_text(request: Request, called: Seq<char>, text: Seq<char>)
    requires
        request.calls_with_text(called, text),
    ensures
        request matches Request::Rpc { method, params } && {
            &&& method@ == called
            &&& params@.len() == 1
            &&& params@[0] matches Json::Text(t) && t@.len() == text.len() && forall|i: int|
                0 <= i < text.len() ==> (#[trigger] t@[i]) == text[i]
        },
{
}

/// A transaction is broadcast whole: the only parameter of the call reads back, as hexadecimal, to
/// its encoding, whatever the length.
pub proof fn law_broadcast_is_whole(request: Request, tx: Transaction)
    requires
        request.calls_with_text("sendrawtransaction"@, hex_text(tx@)),
    ensures
        request matches Request::Rpc { method, params } && {
            &&& method@ == "sendrawtransaction"@
            &&& params@.len() == 1
            &&& params@[0] matches Json::Text(t) && t@.len() == 2 * tx.encoding@.len()
                && bytes_of_hex(t@) == Some(tx.encoding@)
        },
{
    law_hex_round_trip(tx.encoding@);
}

/// What is asked for by an id over RPC is asked for by the whole id: the only parameter of the call
/// reads back, as hexadecimal, to its 32 bytes in their order.
pub proof fn law_asked_for_by_id(request: Request, called: Seq<char>, txid: Txid)
    requires
        request.calls_with_text(called, hex_text(txid.bytes@)),
    ensures
        request matches Request::Rpc { method, params } && {
            &&& method@ == called
            &&& params@.len() == 1
            &&& params@[0] matches Json::Text(t) && t@.len() == 64 && bytes_of_hex(t@) == Some(
                txid.bytes@,
            )
        },
{
    law_hex_round_trip(txid.bytes@);
}

/// What is asked for by an id over REST is asked for by the whole id, which reads back from the
/// path between the kind of the resource and its format.
pub proof fn law_resource_of_id(request: Request, txid: Txid)
    requires
        request.asks_for(tx_resource(txid)),
    ensures
        request matches Request::Rest { path } && {
            &&& path@.len() == 72
            &&& path@.take(3) == "tx/"@
            &&& bytes_of_hex(path@.subrange(3, 67)) == Some(txid.bytes@)
            &&& path@.skip(67) == ".json"@
        },
{
    reveal_strlit("tx/");
    reveal_strlit(".json");
    let path = tx_resource(txid);
    law_hex_round_trip(txid.bytes@);
    assert(path.take(3) =~= "tx/"@);
    assert(path.subrange(3, 67) =~= hex_text(txid.bytes@));
    assert(path.skip(67) =~= ".json"@);
}

/// A resource is asked for by its path, whole.
pub proof fn law_asked_for_whole_path(request: Request, resource: Seq<char>)
    ensures
        request.asks_for(resource) <==> (request matches Request::Rest { path } && path@.len()
            == resource.len() && forall|i: int|
            0 <= i < resource.len() ==> (#[trigger] path@[i]) == resource[i]),
{
    if let Request::Rest { path } = request {
        if path@.len() == resource.len() && forall|i: int|
            0 <= i < resource.len() ==> (#[trigger] path@[i]) == resource[i] {
            assert(path@ =~= resource);
        }
    }
}

/// The RPC interface is reached at the host and port that are given, at its root, and with the
/// base64 text of the user name, a colon and the password.
pub proof fn law_reached_as_given(
    access: RpcAccess,
    host: Seq<char>,
    port: u16,
    user: Seq<char>,
    password: Seq<char>,
)
    requires
        reaches(access, host, port, user, password),
    ensures
        access.endpoint.host@ == host,
        access.endpoint.port == port,
        access.endpoint.path@ == "/"@,
        access.credentials@ == base64_text(encode_utf8(user + seq![':'] + password)),
{
    assert(joined_credentials(user, password) =~= user + seq![':'] + password);
}

} // verus!
