use ldk_node::http::{endpoint, join_credentials, rest_endpoint, rpc_credentials, Endpoint, HttpError};

fn failure(status_code: &str, contents: &[u8]) -> HttpError {
    HttpError { status_code: status_code.to_string(), contents: contents.to_vec() }
}

#[test]
fn a_failure_has_a_text() {
    assert_eq!(
        failure("404", b"Not Found").to_text(),
        "status_code: 404, contents: Not Found"
    );
    assert_eq!(failure("503", b"").to_text(), "status_code: 503, contents: ");
    assert_eq!(failure("500", b"").text_with("x"), "status_code: 500, contents: x");
}

#[test]
fn contents_that_are_no_utf8_are_replaced() {
    assert_eq!(
        failure("500", b"a\xffb").to_text(),
        "status_code: 500, contents: a\u{fffd}b"
    );
}

#[test]
fn a_failure_is_read_back_from_its_text() {
    for e in [
        failure("404", b"Not Found"),
        failure("500", b""),
        failure("", b"x"),
        failure("503", "status_code: 1, contents: \u{20ac}, contents: y".as_bytes()),
    ] {
        let text = e.to_text();
        assert_eq!(HttpError::from_text(&text), Some(e));
    }
}

#[test]
fn other_texts_are_no_failures() {
    for text in [
        "",
        "status_code",
        "status_code: ",
        "status_code: 404",
        "status_code: 404, content: x",
        "status_code: 404,contents: x",
        " status_code: 404, contents: x",
        "RPC error -5: No such mempool or blockchain transaction",
    ] {
        assert_eq!(HttpError::from_text(text), None, "{}", text);
    }
}

#[test]
fn endpoints_are_at_their_host_and_port() {
    assert_eq!(
        endpoint("127.0.0.1".to_string(), 18443),
        Endpoint { host: "127.0.0.1".to_string(), port: 18443, path: "/".to_string() }
    );
    assert_eq!(
        rest_endpoint("localhost".to_string(), 8332),
        Endpoint { host: "localhost".to_string(), port: 8332, path: "/rest".to_string() }
    );
    // The port that HTTP defaults to is kept when it is asked for.
    assert_eq!(endpoint("h".to_string(), 80).port, 80);
    assert_eq!(endpoint("h".to_string(), 0).port, 0);
}

#[test]
fn credentials_are_encoded_for_basic_authentication() {
    assert_eq!(join_credentials("Aladdin", "open sesame"), "Aladdin:open sesame");
    assert_eq!(
        rpc_credentials("Aladdin".to_string(), "open sesame".to_string()),
        "QWxhZGRpbjpvcGVuIHNlc2FtZQ=="
    );
    assert_eq!(rpc_credentials(String::new(), String::new()), "Og==");
    assert_eq!(rpc_credentials("a".to_string(), "".to_string()), "YTo=");
    assert_eq!(rpc_credentials("a".to_string(), "b".to_string()), "YTpi");
    assert_eq!(rpc_credentials("\u{fc}".to_string(), "\u{ffff}>?".to_string()), "w7w677+/Pj8=");
}
