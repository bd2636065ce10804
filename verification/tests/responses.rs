use bitcoin::consensus::encode::{deserialize_hex, serialize_hex};
use ldk_node::client::{
    BitcoindApiClient, FeeRateEstimationMode, Interface, Request, tx_path,
};
use ldk_node::hash_table::Hash256;
use ldk_node::http::HttpError;
use ldk_node::json::{Json, JsonNumber};
use ldk_node::mempool::{MempoolEntry, Transaction};
use ldk_node::replies::{
    fee_estimate_reply, mempool_entry_outcome, mempool_entry_reply,
    mempool_minimum_fee_rate_reply, raw_mempool_reply, ApiError, CallError, CallErrorSource,
    ReplyError, RpcError,
};
use ldk_node::responses::{
    FeeResponse, GetMempoolEntryResponse, GetRawMempoolResponse, GetRawTransactionResponse,
    MempoolMinFeeResponse,
};

const TX: &str = "0100000001000000000000000000000000000000000000000000000000000000000000000\
0ffffffff4d04ffff001d0104455468652054696d65732030332f4a616e2f32303039204368616e63656c6c6f72206f6e\
206272696e6b206f66207365636f6e64206261696c6f757420666f722062616e6b73ffffffff0100f2052a01000000434\
104678afdb0fe5548271967f1a67130b7105cd6a828e03909a67962e0ea1f61deb649f6bc3f4cef38c4f35504e51ec112\
de5c384df7ba0b8d578a4c702b6bf11d5fac00000000";

fn text(s: &str) -> Json {
    Json::Text(s.to_string())
}

fn whole(n: u64) -> Json {
    Json::Number(JsonNumber::PosInt(n))
}

fn float(x: f64) -> Json {
    Json::Number(JsonNumber::Binary64 { bits: x.to_bits(), text: x.to_string() })
}

fn object(members: Vec<(&str, Json)>) -> Json {
    Json::Object(members.into_iter().map(|(k, v)| (k.to_string(), v)).collect())
}

fn hash(first: u8) -> Hash256 {
    let mut bytes = [0x5a; 32];
    bytes[0] = first;
    Hash256 { bytes }
}

fn hash_text(first: u8) -> String {
    format!("{:02x}{}", first, "5a".repeat(31))
}

fn rpc() -> BitcoindApiClient {
    BitcoindApiClient::new_rpc(
        "localhost".to_string(),
        8332,
        "user".to_string(),
        "password".to_string(),
    )
}

fn rest() -> BitcoindApiClient {
    BitcoindApiClient::new_rest(
        "127.0.0.1".to_string(),
        8333,
        "localhost".to_string(),
        8332,
        "user".to_string(),
        "password".to_string(),
    )
}

fn rpc_call(method: &str, params: Vec<Json>) -> Request {
    Request::Rpc { method: method.to_string(), params }
}

fn rest_call(path: &str) -> Request {
    Request::Rest { path: path.to_string() }
}

fn rpc_error(code: i64) -> CallError {
    CallError {
        kind_is_other: true,
        source: CallErrorSource::Rpc(RpcError { code, message: "oops".to_string() }),
    }
}

fn http_error(status_code: &str, kind_is_other: bool) -> CallError {
    CallError {
        kind_is_other,
        source: CallErrorSource::Http(HttpError {
            status_code: status_code.to_string(),
            contents: b"gone".to_vec(),
        }),
    }
}

fn no_source() -> CallError {
    CallError { kind_is_other: true, source: CallErrorSource::Nothing }
}

fn other_error(text: &str, kind_is_other: bool) -> CallError {
    CallError { kind_is_other, source: CallErrorSource::Other(text.to_string()) }
}

fn message<T>(m: &str) -> Result<T, ApiError> {
    Err(ApiError::Message(m.to_string()))
}

#[test]
fn a_fee_estimate_is_read() {
    let json = object(vec![("feerate", float(0.00012)), ("blocks", whole(6))]);
    assert_eq!(FeeResponse::from_json(&json), Ok(FeeResponse(3000)));
    let json = object(vec![("errors", Json::Null), ("feerate", whole(1))]);
    assert_eq!(FeeResponse::from_json(&json), Ok(FeeResponse(25_000_000)));
}

#[test]
fn errors_of_a_fee_estimate_are_handed_on_as_json() {
    let json = object(vec![
        ("errors", Json::Array(vec![text("Insufficient data or no feerate found")])),
        ("feerate", float(0.00012)),
    ]);
    assert_eq!(
        FeeResponse::from_json(&json),
        Err("[\"Insufficient data or no feerate found\"]".to_string())
    );
}

#[test]
fn a_fee_estimate_needs_a_number() {
    for json in [
        object(vec![]),
        object(vec![("feerate", text("0.1"))]),
        Json::Null,
        Json::Array(vec![whole(1)]),
    ] {
        assert_eq!(FeeResponse::from_json(&json), Err("Failed to parse fee rate".to_string()));
        assert_eq!(
            MempoolMinFeeResponse::from_json(&json),
            Err("Failed to parse fee rate".to_string())
        );
    }
}

#[test]
fn the_mempool_minimum_fee_is_read() {
    let json = object(vec![("loaded", Json::Bool(true)), ("mempoolminfee", float(0.00001))]);
    assert_eq!(MempoolMinFeeResponse::from_json(&json), Ok(MempoolMinFeeResponse(250)));
}

#[test]
fn a_transaction_is_read() {
    let response = GetRawTransactionResponse::from_json(&text(TX)).unwrap();
    let tx: bitcoin::Transaction = deserialize_hex(TX).unwrap();
    assert_eq!(response.0.encoding, bitcoin::consensus::encode::serialize(&tx));
    assert_eq!(GetRawTransactionResponse::from_json(&text(&TX.to_uppercase())), Ok(response));
}

#[test]
fn what_is_no_transaction_is_refused() {
    for json in [
        text(""),
        text("00"),
        text("zz"),
        text(&TX[..TX.len() - 2]),
        text(&format!("{}00", TX)),
        whole(1),
        Json::Null,
        Json::Array(vec![text(TX)]),
    ] {
        assert_eq!(
            GetRawTransactionResponse::from_json(&json),
            Err("Failed to parse getrawtransaction response".to_string())
        );
    }
}

#[test]
fn a_transaction_is_its_encoding() {
    assert_eq!(
        GetRawTransactionResponse::decoded("00fE", true),
        Ok(GetRawTransactionResponse(Transaction { encoding: vec![0x00, 0xfe] }))
    );
    for (text, valid) in [("00fe", false), ("00f", true), ("00fg", true), ("\u{e9}0", true)] {
        assert_eq!(
            GetRawTransactionResponse::decoded(text, valid),
            Err("Failed to parse getrawtransaction response".to_string())
        );
    }
}

#[test]
fn the_mempool_is_read_in_its_order() {
    let json = Json::Array(vec![
        text(&hash_text(2)),
        text(&hash_text(0xab).to_uppercase()),
        text(&hash_text(2)),
    ]);
    assert_eq!(
        GetRawMempoolResponse::from_json(&json),
        Ok(GetRawMempoolResponse(vec![hash(2), hash(0xab), hash(2)]))
    );
    assert_eq!(
        GetRawMempoolResponse::from_json(&Json::Array(vec![])),
        Ok(GetRawMempoolResponse(vec![]))
    );
}

#[test]
fn a_mempool_with_something_else_in_it_is_refused() {
    for json in [
        Json::Null,
        text(&hash_text(1)),
        object(vec![("txids", Json::Array(vec![]))]),
        Json::Array(vec![text(&hash_text(1)), whole(2)]),
        Json::Array(vec![text(&hash_text(1)[2..])]),
        Json::Array(vec![text(&format!("{}00", hash_text(1)))]),
        Json::Array(vec![text(&hash_text(1).replacen('5', "g", 1))]),
    ] {
        assert_eq!(
            GetRawMempoolResponse::from_json(&json),
            Err("Failed to parse getrawmempool response".to_string())
        );
    }
}

#[test]
fn a_mempool_entry_is_read() {
    let json = object(vec![
        ("vsize", whole(140)),
        ("time", whole(1_700_000_000)),
        ("height", whole(u32::MAX as u64)),
    ]);
    assert!(GetMempoolEntryResponse::can_read(&json));
    assert_eq!(
        GetMempoolEntryResponse::from_json(&json),
        Ok(GetMempoolEntryResponse { time: 1_700_000_000, height: u32::MAX })
    );
}

#[test]
fn a_mempool_entry_needs_its_numbers() {
    for json in [
        Json::Null,
        Json::Array(vec![]),
        object(vec![("time", text("1")), ("height", whole(2))]),
        object(vec![("time", Json::Null)]),
        object(vec![("time", whole(1)), ("height", whole(u32::MAX as u64 + 1))]),
        object(vec![("time", whole(1)), ("height", float(2.0))]),
    ] {
        assert!(GetMempoolEntryResponse::can_read(&json));
        assert_eq!(
            GetMempoolEntryResponse::from_json(&json),
            Err("Failed to parse getmempoolentry response".to_string())
        );
    }
    assert!(!GetMempoolEntryResponse::can_read(&object(vec![("height", whole(2))])));
    assert!(!GetMempoolEntryResponse::can_read(&object(vec![("time", whole(2))])));
}

#[test]
fn clients_know_how_to_reach_the_node() {
    match rpc() {
        BitcoindApiClient::Rpc { rpc_client } => {
            assert_eq!(rpc_client.endpoint.host, "localhost");
            assert_eq!(rpc_client.endpoint.port, 8332);
            assert_eq!(rpc_client.endpoint.path, "/");
            assert_eq!(rpc_client.credentials, "dXNlcjpwYXNzd29yZA==");
        }
        other => panic!("{:?}", other),
    }
    match rest() {
        BitcoindApiClient::Rest { rest_client, rpc_client } => {
            assert_eq!(rest_client.host, "127.0.0.1");
            assert_eq!(rest_client.port, 8333);
            assert_eq!(rest_client.path, "/rest");
            assert_eq!(rpc_client.endpoint.port, 8332);
            assert_eq!(rpc_client.credentials, "dXNlcjpwYXNzd29yZA==");
        }
        other => panic!("{:?}", other),
    }
}

#[test]
fn requests_go_to_the_interface_that_supports_them() {
    assert_eq!(rpc().utxo_source(), Interface::Rpc);
    assert_eq!(rest().utxo_source(), Interface::Rest);
    assert_eq!(rpc().block_source(), Interface::Rpc);
    assert_eq!(rest().block_source(), Interface::Rest);

    let tx = Transaction { encoding: vec![1, 0xfe] };
    let txid = hash(0x0c);
    for client in [rpc(), rest()] {
        assert_eq!(
            client.broadcast_transaction(&tx),
            rpc_call("sendrawtransaction", vec![text("01fe")])
        );
        assert_eq!(
            client.get_fee_estimate_for_target(6, FeeRateEstimationMode::Economical),
            rpc_call("estimatesmartfee", vec![whole(6), text("ECONOMICAL")])
        );
        assert_eq!(
            client.get_fee_estimate_for_target(144, FeeRateEstimationMode::Conservative),
            rpc_call("estimatesmartfee", vec![whole(144), text("CONSERVATIVE")])
        );
        assert_eq!(
            client.get_mempool_entry(txid),
            rpc_call("getmempoolentry", vec![text(&hash_text(0x0c))])
        );
    }

    assert_eq!(rpc().get_mempool_minimum_fee_rate(), rpc_call("getmempoolinfo", vec![]));
    assert_eq!(rest().get_mempool_minimum_fee_rate(), rest_call("mempool/info.json"));
    assert_eq!(
        rpc().get_raw_mempool(),
        rpc_call("getrawmempool", vec![Json::Bool(false)])
    );
    assert_eq!(rest().get_raw_mempool(), rest_call("mempool/contents.json?verbose=false"));
    assert_eq!(
        rpc().get_raw_transaction(&txid),
        rpc_call("getrawtransaction", vec![text(&hash_text(0x0c))])
    );
    assert_eq!(
        rest().get_raw_transaction(&txid),
        rest_call(&format!("tx/{}.json", hash_text(0x0c)))
    );
    assert_eq!(tx_path(&txid), format!("tx/{}.json", hash_text(0x0c)));
}

#[test]
fn what_was_fetched_is_broadcast_and_asked_for_as_it_was_written() {
    let tx = GetRawTransactionResponse::from_json(&text(TX)).unwrap().0;
    assert_eq!(rpc().broadcast_transaction(&tx), rpc_call("sendrawtransaction", vec![text(TX)]));
    let ids = GetRawMempoolResponse::from_json(&Json::Array(vec![text(&hash_text(9))])).unwrap();
    assert_eq!(
        rpc().get_mempool_entry(ids.0[0]),
        rpc_call("getmempoolentry", vec![text(&hash_text(9))])
    );
}

#[test]
fn hexadecimal_is_that_of_bitcoin() {
    let tx: bitcoin::Transaction = deserialize_hex(TX).unwrap();
    let txid = tx.compute_txid();
    let bytes = bitcoin::hashes::Hash::to_byte_array(txid);
    assert_eq!(
        rpc().get_mempool_entry(Hash256 { bytes }),
        rpc_call("getmempoolentry", vec![text(&serialize_hex(&txid))])
    );
}

#[test]
fn fee_replies_are_read_or_handed_on() {
    assert_eq!(fee_estimate_reply::<()>(Ok(object(vec![("feerate", float(0.0001))]))), Ok(2500));
    assert_eq!(fee_estimate_reply(Err("timeout")), Err(ReplyError::Call("timeout")));
    assert_eq!(
        fee_estimate_reply::<()>(Ok(object(vec![("errors", text("no"))]))),
        Err(ReplyError::Message("\"no\"".to_string()))
    );
    assert_eq!(
        mempool_minimum_fee_rate_reply::<()>(Ok(object(vec![("mempoolminfee", float(0.0001))]))),
        Ok(2500)
    );
    assert_eq!(mempool_minimum_fee_rate_reply(Err("timeout")), Err(ReplyError::Call("timeout")));
    assert_eq!(
        mempool_minimum_fee_rate_reply::<()>(Ok(Json::Null)),
        Err(ReplyError::Message("Failed to parse fee rate".to_string()))
    );
}

#[test]
fn mempool_replies_are_read_or_handed_on() {
    assert_eq!(
        raw_mempool_reply::<()>(Ok(Json::Array(vec![text(&hash_text(3))]))),
        Ok(vec![hash(3)])
    );
    assert_eq!(raw_mempool_reply(Err("timeout")), Err(ReplyError::Call("timeout")));
    assert_eq!(
        raw_mempool_reply::<()>(Ok(Json::Bool(true))),
        Err(ReplyError::Message("Failed to parse getrawmempool response".to_string()))
    );
}

#[test]
fn an_entry_is_filed_under_the_id_asked_for() {
    let json = object(vec![("time", whole(11)), ("height", whole(12))]);
    assert_eq!(
        mempool_entry_reply(hash(1), Ok(json)),
        Ok(Some(MempoolEntry { txid: hash(1), time: 11, height: 12 }))
    );
    assert_eq!(
        mempool_entry_outcome(hash(2), Ok(GetMempoolEntryResponse { time: 1, height: 2 })),
        Ok(Some(MempoolEntry { txid: hash(2), time: 1, height: 2 }))
    );
}

#[test]
fn an_entry_that_is_not_found_is_none() {
    assert_eq!(mempool_entry_reply(hash(1), Err(rpc_error(-5))), Ok(None));
}

#[test]
fn failures_to_get_an_entry_are_told_apart() {
    assert_eq!(
        mempool_entry_reply(hash(1), Err(rpc_error(-8))),
        Err(ApiError::Rpc(RpcError { code: -8, message: "oops".to_string() }))
    );
    let unprocessed = "Failed to process getmempoolentry response";
    assert_eq!(mempool_entry_reply(hash(1), Err(no_source())), message(unprocessed));
    let text = "status_code: 404, contents: gone";
    assert_eq!(mempool_entry_reply(hash(1), Err(other_error(text, true))), message(unprocessed));
    assert_eq!(mempool_entry_reply(hash(1), Err(http_error("404", true))), message(unprocessed));
    assert_eq!(mempool_entry_reply(hash(1), Ok(Json::Null)), message(unprocessed));
}

#[test]
fn a_transaction_that_is_not_found_is_none() {
    assert_eq!(rpc().raw_transaction_reply(&hash(1), Err(rpc_error(-5))), Ok(None));
    assert_eq!(rest().raw_transaction_reply(&hash(1), Err(http_error("404", true))), Ok(None));
    let text = format!("status_code: 404, contents: {} not found\r\n", hash_text(1));
    assert_eq!(rest().raw_transaction_reply(&hash(1), Err(other_error(&text, true))), Ok(None));
}

#[test]
fn a_fetched_transaction_is_handed_out() {
    let tx = GetRawTransactionResponse::from_json(&text(TX)).unwrap().0;
    for client in [rpc(), rest()] {
        assert_eq!(
            client.raw_transaction_reply(&hash(1), Ok(text(TX))),
            Ok(Some(tx.clone()))
        );
        assert_eq!(
            client.raw_transaction_outcome(&hash(1), Ok(GetRawTransactionResponse(tx.clone()))),
            Ok(Some(tx.clone()))
        );
    }
}

#[test]
fn failures_to_get_a_transaction_are_told_apart_over_rpc() {
    let unprocessed = "Failed to process getrawtransaction response";
    assert_eq!(
        rpc().raw_transaction_reply(&hash(1), Err(rpc_error(-1))),
        Err(ApiError::Rpc(RpcError { code: -1, message: "oops".to_string() }))
    );
    for outcome in [
        Err(no_source()),
        Err(http_error("404", true)),
        Err(other_error("status_code: 404, contents: gone", true)),
        Ok(text("zz")),
    ] {
        assert_eq!(rpc().raw_transaction_reply(&hash(1), outcome), message(unprocessed));
    }
}

#[test]
fn failures_to_get_a_transaction_are_told_apart_over_rest() {
    let unprocessed = format!("Failed to process tx/{}.json response.", hash_text(1));
    assert_eq!(
        rest().raw_transaction_reply(&hash(1), Err(http_error("503", true))),
        Err(ApiError::Http(HttpError {
            status_code: "503".to_string(),
            contents: b"gone".to_vec(),
        }))
    );
    for outcome in [
        Err(no_source()),
        Err(http_error("404", false)),
        Err(other_error("status_code: 404, contents: gone", false)),
        Err(other_error("status_code: 503, contents: gone", true)),
        Err(other_error("status_code: 4040, contents: gone", true)),
        Err(other_error("connection refused", true)),
        Err(rpc_error(-5)),
        Ok(object(vec![("hex", text(TX))])),
    ] {
        assert_eq!(rest().raw_transaction_reply(&hash(1), outcome), message(&unprocessed));
    }
}
