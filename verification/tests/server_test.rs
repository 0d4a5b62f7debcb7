use proc_siding_lib::config::{
    action_from_config, default_http_method, default_hysteresis, default_poll_interval_ms,
    ActionConfig, ConfiguredAction,
};
use proc_siding_lib::logging::{log_settings, parse_log_level};
use proc_siding_lib::metrics_server::{
    metrics_response, not_found_response, path_of, route, MetricsRoute,
};
use proc_siding_lib::{LogFormat, LogLevel};

#[test]
fn metrics_path_is_routed() {
    assert_eq!(route("GET /metrics HTTP/1.0\r\n"), MetricsRoute::Metrics);
    assert_eq!(route("GET /nonexistent HTTP/1.0\r\n"), MetricsRoute::NotFound);
    assert_eq!(route("GET /metrics/x HTTP/1.0"), MetricsRoute::NotFound);
    assert_eq!(route(""), MetricsRoute::NotFound);
    assert_eq!(path_of("GET"), "/");
    assert_eq!(path_of("  GET   /a  HTTP/1.0"), "/a");
}

#[test]
fn replies_are_framed() {
    assert_eq!(
        not_found_response(),
        "HTTP/1.0 404 Not Found\r\nContent-Type: text/plain; charset=utf-8\r\nContent-Length: 10\r\n\r\nNot found\n"
    );
    assert_eq!(
        metrics_response("é 1\n"),
        "HTTP/1.0 200 OK\r\nContent-Type: text/plain; charset=utf-8\r\nContent-Length: 5\r\n\r\né 1\n"
    );
}

#[test]
fn configuration_defaults() {
    assert_eq!(default_http_method(), "POST");
    assert_eq!(default_hysteresis(), 3);
    assert_eq!(default_poll_interval_ms(), 2000);
}

#[test]
fn actions_from_configuration() {
    match action_from_config(ActionConfig::Exec {
        pressure_cmd: "a".to_string(),
        clear_cmd: "b".to_string(),
    }) {
        ConfiguredAction::Exec(e) => {
            assert_eq!(e.pressure_cmd, "a");
            assert_eq!(e.clear_cmd, "b");
        }
        _ => panic!("expected an exec action"),
    }
    match action_from_config(ActionConfig::Http {
        pressure_url: "p".to_string(),
        pressure_method: "PUT".to_string(),
        clear_url: "c".to_string(),
        clear_method: "DELETE".to_string(),
    }) {
        ConfiguredAction::Http(h) => {
            assert_eq!(h.pressure_method, "PUT");
            assert_eq!(h.clear_url, "c");
        }
        _ => panic!("expected an http action"),
    }
    assert!(matches!(
        action_from_config(ActionConfig::HttpPost {
            pressure_url: "p".to_string(),
            clear_url: "c".to_string()
        }),
        ConfiguredAction::HttpPost(_)
    ));
}

#[test]
fn log_settings_defaults_and_errors() {
    assert_eq!(log_settings(None, None), Ok((LogLevel::Info, LogFormat::Text)));
    assert_eq!(log_settings(Some("debug"), Some("json")), Ok((LogLevel::Debug, LogFormat::Json)));
    assert_eq!(log_settings(Some("loud"), Some("xml")), Err("invalid log level: loud".to_string()));
    assert_eq!(log_settings(None, Some("xml")), Err("invalid log format: xml".to_string()));
    assert_eq!(parse_log_level("WARN"), None);
    assert_eq!(parse_log_level("warn"), Some(LogLevel::Warn));
}
