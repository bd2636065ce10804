use ldk_node::logger::{LogLevel, LogRecord};
use ldk_node::tracing::{get_headers, EventLevel, HeaderInjector, TracingEvent, TracingLogWriter};

#[test]
fn records_become_events() {
    let levels = [
        (LogLevel::Gossip, EventLevel::Trace),
        (LogLevel::Trace, EventLevel::Trace),
        (LogLevel::Debug, EventLevel::Debug),
        (LogLevel::Info, EventLevel::Info),
        (LogLevel::Warn, EventLevel::Warn),
        (LogLevel::Error, EventLevel::Error),
    ];
    for (level, expected) in levels {
        let event = TracingLogWriter {}.log(LogRecord {
            level,
            args: "synced".to_string(),
            module: "ldk_node::wallet".to_string(),
            line: 7,
        });
        assert_eq!(
            event,
            TracingEvent {
                level: expected,
                target: "ldk_node".to_string(),
                module: "ldk_node::wallet".to_string(),
                line: 7,
                message: "synced".to_string(),
            }
        );
    }
}

fn pair(name: &str, value: &str) -> (String, String) {
    (name.to_string(), value.to_string())
}

#[test]
fn setting_a_header_replaces_one_of_its_name() {
    let mut headers = HeaderInjector::new();
    headers.set("traceparent", "a".to_string());
    headers.set("authorization", "b".to_string());
    headers.set("traceparent", "c".to_string());
    assert_eq!(headers.get("traceparent"), Some(&"c".to_string()));
    assert_eq!(headers.get("authorization"), Some(&"b".to_string()));
    assert_eq!(headers.get("tracestate"), None);
    assert_eq!(headers.into_pairs(), vec![pair("traceparent", "c"), pair("authorization", "b")]);
}

#[test]
fn the_trace_context_joins_the_headers() {
    let mut inner = HeaderInjector::new();
    inner.set("authorization", "token".to_string());
    inner.set("traceparent", "stale".to_string());
    let headers: Result<HeaderInjector, ()> = get_headers(
        Ok(inner),
        vec![pair("traceparent", "00-1-2-01"), pair("tracestate", ""), pair("tracestate", "x=1")],
    );
    let headers = headers.unwrap();
    assert_eq!(headers.get("authorization"), Some(&"token".to_string()));
    assert_eq!(headers.get("traceparent"), Some(&"00-1-2-01".to_string()));
    assert_eq!(headers.get("tracestate"), Some(&"x=1".to_string()));
    assert_eq!(headers.into_pairs().len(), 3);
}

#[test]
fn without_headers_nothing_is_injected() {
    let headers = get_headers(Err("unauthorized"), vec![pair("traceparent", "00-1-2-01")]);
    assert_eq!(headers.err(), Some("unauthorized"));
}
