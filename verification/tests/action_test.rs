use proc_siding_lib::action::{
    command_result, http_request, parse_http_url, parse_unix_url, parse_url, write_and_check,
    ActionError, ActionRequest, CommandOutcome, ExecAction, HttpAction, HttpPostAction,
    HttpTarget, PressureAction,
};

fn tcp(url: &str) -> (String, u16, String) {
    match parse_url(url) {
        Ok(HttpTarget::Tcp { host, port, path }) => (host, port, path),
        other => panic!("expected a TCP target, got {other:?}"),
    }
}

fn detail<T: std::fmt::Debug>(r: Result<T, ActionError>) -> String {
    match r {
        Err(ActionError::HttpRequest { detail, .. }) => detail,
        other => panic!("expected an HTTP error, got {other:?}"),
    }
}

#[test]
fn http_url_with_port_and_path() {
    assert_eq!(
        tcp("http://127.0.0.1:8080/test-path"),
        ("127.0.0.1".to_string(), 8080, "/test-path".to_string())
    );
}

#[test]
fn http_url_defaults() {
    assert_eq!(tcp("http://example.com"), ("example.com".to_string(), 80, "/".to_string()));
    assert_eq!(tcp("http://host/a/b:c"), ("host".to_string(), 80, "/a/b:c".to_string()));
    assert_eq!(tcp("http://host:+81/"), ("host".to_string(), 81, "/".to_string()));
}

#[test]
fn http_url_bad_port() {
    for url in ["http://host:99999/x", "http://host:/x", "http://host:12a/x", "http://host:-1/"] {
        assert_eq!(parse_http_url(url).unwrap_err(), format!("invalid port in URL: {url}"));
    }
}

#[test]
fn http_url_scheme_is_required() {
    let err = parse_url("ftp://not-http/path").unwrap_err();
    assert_eq!(err, "URL must start with http:// or unix: — got ftp://not-http/path");
}

#[test]
fn unix_urls() {
    match parse_url("unix:/tmp/test.sock:/mute") {
        Ok(HttpTarget::Unix { socket_path, url_path }) => {
            assert_eq!(socket_path, "/tmp/test.sock");
            assert_eq!(url_path, "/mute");
        }
        other => panic!("unexpected {other:?}"),
    }
    match parse_unix_url("/run/a:b.sock:") {
        Ok(HttpTarget::Unix { socket_path, url_path }) => {
            assert_eq!(socket_path, "/run/a:b.sock");
            assert_eq!(url_path, "/");
        }
        other => panic!("unexpected {other:?}"),
    }
    assert_eq!(
        parse_unix_url(":/x").unwrap_err(),
        "Unix URL must be unix:/socket/path:/url-path — got unix::/x"
    );
    assert!(parse_url("unix:/no/colon").is_err());
}

#[test]
fn tcp_request_text() {
    let ex = http_request("PUT", "http://127.0.0.1:8080/mute").unwrap();
    assert_eq!(ex.method, "PUT");
    assert_eq!(ex.url, "http://127.0.0.1:8080/mute");
    assert_eq!(ex.address(), "127.0.0.1:8080");
    assert_eq!(
        ex.request,
        "PUT /mute HTTP/1.0\r\nHost: 127.0.0.1:8080\r\nContent-Length: 0\r\n\r\n"
    );
}

#[test]
fn unix_request_text() {
    let ex = http_request("DELETE", "unix:/run/x.sock:/unmute").unwrap();
    assert_eq!(ex.address(), "/run/x.sock");
    assert_eq!(
        ex.request,
        "DELETE /unmute HTTP/1.0\r\nHost: localhost\r\nContent-Length: 0\r\n\r\n"
    );
}

#[test]
fn malformed_url_is_an_http_error() {
    let err = http_request("GET", "ftp://not-http/path");
    match err {
        Err(ActionError::HttpRequest { method, url, detail }) => {
            assert_eq!(method, "GET");
            assert_eq!(url, "ftp://not-http/path");
            assert!(detail.contains("http://") || detail.contains("unix:"));
        }
        Ok(_) => panic!("expected an error"),
        Err(other) => panic!("unexpected {other:?}"),
    }
}

#[test]
fn connect_errors_name_the_target() {
    let ex = http_request("PUT", "http://127.0.0.1:1/should-fail").unwrap();
    assert_eq!(detail(Err::<(), _>(ex.connect_error("refused"))), "connect failed: refused");
    let ex = http_request("PUT", "unix:/tmp/nonexistent.sock:/path").unwrap();
    assert_eq!(
        detail(Err::<(), _>(ex.connect_error("No such file"))),
        "connect to /tmp/nonexistent.sock failed: No such file"
    );
}

#[test]
fn write_and_check_accepts_2xx() {
    let ok = write_and_check("POST", "u", Ok(()), Ok(b"HTTP/1.0 200 OK\r\n\r\n".to_vec()));
    assert!(ok.is_ok());
    let ok = write_and_check("POST", "u", Ok(()), Ok(b"HTTP/1.1 204 No Content".to_vec()));
    assert!(ok.is_ok());
}

#[test]
fn write_and_check_rejects_other_replies() {
    let r = write_and_check("POST", "u", Ok(()), Ok(b"HTTP/1.0 404 Not Found\r\n".to_vec()));
    assert_eq!(detail(r), "non-2xx response: HTTP/1.0 404 Not Found");
    let r = write_and_check("POST", "u", Ok(()), Ok(b"HTTP/1.0 300\r\n".to_vec()));
    assert_eq!(detail(r), "non-2xx response: HTTP/1.0 300");
    let r = write_and_check("POST", "u", Ok(()), Ok(b"SMTP 250 ok".to_vec()));
    assert_eq!(detail(r), "non-2xx response: SMTP 250 ok");
    let r = write_and_check("POST", "u", Ok(()), Ok(b"HTTP/1.0\r\n".to_vec()));
    assert_eq!(detail(r), "non-2xx response: HTTP/1.0");
    let r = write_and_check("POST", "u", Ok(()), Ok(vec![0xff, 0xfe]));
    assert_eq!(detail(r), "non-2xx response: ");
    let r = write_and_check("POST", "u", Ok(()), Ok(vec![]));
    assert_eq!(detail(r), "non-2xx response: ");
}

#[test]
fn write_and_check_reports_io_failures() {
    let r = write_and_check("POST", "u", Err("broken pipe".to_string()), Ok(vec![]));
    assert_eq!(detail(r), "write failed: broken pipe");
    let r = write_and_check("POST", "u", Ok(()), Err("reset".to_string()));
    assert_eq!(detail(r), "read failed: reset");
}

#[test]
fn command_results() {
    assert!(command_result(
        "true",
        CommandOutcome::Exited { success: true, status: "exit status: 0".to_string() }
    )
    .is_ok());
    match command_result(
        "false",
        CommandOutcome::Exited { success: false, status: "exit status: 1".to_string() },
    ) {
        Err(ActionError::Exec { cmd, detail }) => {
            assert_eq!(cmd, "false");
            assert_eq!(detail, "exited exit status: 1");
        }
        other => panic!("unexpected {other:?}"),
    }
    match command_result("x", CommandOutcome::SpawnFailed("denied".to_string())) {
        Err(ActionError::Exec { detail, .. }) => {
            assert_eq!(detail, "failed to spawn shell: denied")
        }
        other => panic!("unexpected {other:?}"),
    }
}

fn http(r: ActionRequest) -> (String, String) {
    match r {
        ActionRequest::Http { method, url } => (method, url),
        other => panic!("unexpected {other:?}"),
    }
}

#[test]
fn http_post_action_posts() {
    let a = HttpPostAction { pressure_url: "http://a/p".to_string(), clear_url: "http://a/c".to_string() };
    assert_eq!(http(a.on_pressure()), ("POST".to_string(), "http://a/p".to_string()));
    assert_eq!(http(a.on_clear()), ("POST".to_string(), "http://a/c".to_string()));
}

#[test]
fn http_action_uses_configured_methods() {
    let a = HttpAction {
        pressure_url: "http://a/p".to_string(),
        pressure_method: "PUT".to_string(),
        clear_url: "http://a/c".to_string(),
        clear_method: "DELETE".to_string(),
    };
    assert_eq!(http(a.on_pressure()), ("PUT".to_string(), "http://a/p".to_string()));
    assert_eq!(http(a.on_clear()), ("DELETE".to_string(), "http://a/c".to_string()));
}

#[test]
fn exec_action_runs_commands() {
    let a = ExecAction { pressure_cmd: "pause".to_string(), clear_cmd: "resume".to_string() };
    assert!(matches!(a.on_pressure(), ActionRequest::Exec { cmd } if cmd == "pause"));
    assert!(matches!(a.on_clear(), ActionRequest::Exec { cmd } if cmd == "resume"));
}

#[test]
fn http_url_reads_back_host_port_and_path() {
    assert_eq!(
        tcp("http://127.0.0.1:1/should-fail"),
        ("127.0.0.1".to_string(), 1, "/should-fail".to_string())
    );
    assert_eq!(tcp("http://h:65535/"), ("h".to_string(), 65535, "/".to_string()));
}
