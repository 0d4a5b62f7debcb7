//! Outbound operations triggered on pressure state transitions: what each
//! action asks for, how an HTTP target is read from its URL, the request that
//! is sent, and how the reply is judged.  Opening connections and running
//! commands is the caller's part.

use vstd::prelude::*;
use vstd::utf8::{decode_utf8, valid_utf8};

use crate::text::{
    is_ascii_digit, lemma_decimal_has_no, lemma_decimal_reads_back, lemma_find_from_at,
    lemma_find_from_none, lemma_parse_decimal, lemma_rfind_at, lemma_rfind_none, chars_of, decimal, decimal_string, find_char, find_from, first_line, first_line_of, has_prefix,
    lemma_find_from, parse_u16, parse_unsigned, rfind, rfind_char, starts_with,
};

verus! {

/// Why an action failed.
#[derive(Debug)]
pub enum ActionError {
    HttpRequest { method: String, url: String, detail: String },
    Exec { cmd: String, detail: String },
}

/// What an action asks the caller to do.
#[derive(Debug)]
pub enum ActionRequest {
    /// An HTTP request with an empty body, with this method, to this URL.
    Http { method: String, url: String },
    /// A shell command.
    Exec { cmd: String },
}

/// Outbound operations triggered on pressure state transitions.
pub trait PressureAction {
    /// The operation to perform when pressure is detected.
    fn on_pressure(&self) -> ActionRequest;

    /// The operation to perform when pressure clears.
    fn on_clear(&self) -> ActionRequest;
}

pub open spec fn is_http(r: ActionRequest, method: Seq<char>, url: Seq<char>) -> bool {
    r matches ActionRequest::Http { method: m, url: u } && m@ == method && u@ == url
}

pub open spec fn is_exec(r: ActionRequest, cmd: Seq<char>) -> bool {
    r matches ActionRequest::Exec { cmd: c } && c@ == cmd
}

// ── HttpPostAction ──────────────────────────────────────────────────────────

/// POSTs to one URL on pressure and to another on clear.
pub struct HttpPostAction {
    pub pressure_url: String,
    pub clear_url: String,
}

impl PressureAction for HttpPostAction {
    fn on_pressure(&self) -> (r: ActionRequest)
        ensures
            is_http(r, "POST"@, self.pressure_url@),
    {
        ActionRequest::Http { method: "POST".to_owned(), url: self.pressure_url.clone() }
    }

    fn on_clear(&self) -> (r: ActionRequest)
        ensures
            is_http(r, "POST"@, self.clear_url@),
    {
        ActionRequest::Http { method: "POST".to_owned(), url: self.clear_url.clone() }
    }
}

// ── HttpAction ──────────────────────────────────────────────────────────────

/// Sends a request with a configured method to one URL on pressure and to
/// another on clear.
pub struct HttpAction {
    pub pressure_url: String,
    pub pressure_method: String,
    pub clear_url: String,
    pub clear_method: String,
}

impl PressureAction for HttpAction {
    fn on_pressure(&self) -> (r: ActionRequest)
        ensures
            is_http(r, self.pressure_method@, self.pressure_url@),
    {
        ActionRequest::Http {
            method: self.pressure_method.clone(),
            url: self.pressure_url.clone(),
        }
    }

    fn on_clear(&self) -> (r: ActionRequest)
        ensures
            is_http(r, self.clear_method@, self.clear_url@),
    {
        ActionRequest::Http { method: self.clear_method.clone(), url: self.clear_url.clone() }
    }
}

// ── ExecAction ──────────────────────────────────────────────────────────────

/// Runs one shell command on pressure and another on clear.
pub struct ExecAction {
    pub pressure_cmd: String,
    pub clear_cmd: String,
}

impl PressureAction for ExecAction {
    fn on_pressure(&self) -> (r: ActionRequest)
        ensures
            is_exec(r, self.pressure_cmd@),
    {
        ActionRequest::Exec { cmd: self.pressure_cmd.clone() }
    }

    fn on_clear(&self) -> (r: ActionRequest)
        ensures
            is_exec(r, self.clear_cmd@),
    {
        ActionRequest::Exec { cmd: self.clear_cmd.clone() }
    }
}

/// How a shell command ended.
pub enum CommandOutcome {
    /// The shell could not be started; the text says why.
    SpawnFailed(String),
    /// The shell ran; `status` is its exit status as text.
    Exited { success: bool, status: String },
}

/// The result of running `cmd`, given how it ended.
pub fn command_result(cmd: &str, outcome: CommandOutcome) -> (r: Result<(), ActionError>)
    ensures
        match outcome {
            CommandOutcome::SpawnFailed(e) => r matches Err(ActionError::Exec { cmd: c, detail })
                && c@ == cmd@ && detail@ == "failed to spawn shell: "@ + e@,
            CommandOutcome::Exited { success, status } => if success {
                r is Ok
            } else {
                r matches Err(ActionError::Exec { cmd: c, detail }) && c@ == cmd@ && detail@
                    == "exited "@ + status@
            },
        },
{
    match outcome {
        CommandOutcome::SpawnFailed(e) => Err(
            ActionError::Exec {
                cmd: cmd.to_owned(),
                detail: "failed to spawn shell: ".to_owned().concat(e.as_str()),
            },
        ),
        CommandOutcome::Exited { success, status } => {
            if success {
                Ok(())
            } else {
                Err(
                    ActionError::Exec {
                        cmd: cmd.to_owned(),
                        detail: "exited ".to_owned().concat(status.as_str()),
                    },
                )
            }
        },
    }
}

} // verus!

verus! {

// ── URLs ────────────────────────────────────────────────────────────────────

/// Where an HTTP request goes.
#[derive(Debug)]
pub enum HttpTarget {
    /// `http://host:port/path`.
    Tcp { host: String, port: u16, path: String },
    /// `unix:/path/to/sock:/url-path`.
    Unix { socket_path: String, url_path: String },
}

/// An HTTP target as text.
pub enum TargetSpec {
    Tcp { host: Seq<char>, port: u16, path: Seq<char> },
    Unix { socket_path: Seq<char>, url_path: Seq<char> },
}

impl View for HttpTarget {
    type V = TargetSpec;

    open spec fn view(&self) -> TargetSpec {
        match self {
            HttpTarget::Tcp { host, port, path } => TargetSpec::Tcp {
                host: host@,
                port: *port,
                path: path@,
            },
            HttpTarget::Unix { socket_path, url_path } => TargetSpec::Unix {
                socket_path: socket_path@,
                url_path: url_path@,
            },
        }
    }
}

/// The target that an `http://` URL names, or why it names none: the host
/// runs up to the first `/` (the rest is the path, `/` when there is none);
/// the port follows the last `:` of the host part and defaults to 80.
pub open spec fn http_url_target(url: Seq<char>) -> Result<TargetSpec, Seq<char>> {
    if !has_prefix(url, "http://"@) {
        Err("URL must start with http:// or unix: — got "@ + url)
    } else {
        let w = url.skip(7);
        let slash = find_from(w, 0, '/') as int;
        let authority = w.take(slash);
        let path = if slash < w.len() {
            w.skip(slash)
        } else {
            "/"@
        };
        let colon = rfind(authority, ':');
        if colon >= 0 {
            match parse_unsigned(authority.skip(colon + 1), 0xffff) {
                Some(p) => Ok(TargetSpec::Tcp { host: authority.take(colon), port: p as u16, path }),
                None => Err("invalid port in URL: "@ + url),
            }
        } else {
            Ok(TargetSpec::Tcp { host: authority, port: 80, path })
        }
    }
}

/// The target that the part of a `unix:` URL after `unix:` names, or why it
/// names none: the socket path runs up to the last `:`, which must not be the
/// first character; the URL path follows it and defaults to `/`.
pub open spec fn unix_url_target(rest: Seq<char>) -> Result<TargetSpec, Seq<char>> {
    let colon = rfind(rest, ':');
    if colon <= 0 {
        Err("Unix URL must be unix:/socket/path:/url-path — got unix:"@ + rest)
    } else {
        let url_path = rest.skip(colon + 1);
        Ok(
            TargetSpec::Unix {
                socket_path: rest.take(colon),
                url_path: if url_path.len() == 0 {
                    "/"@
                } else {
                    url_path
                },
            },
        )
    }
}

/// The target that `url` names: a `unix:` URL or an `http://` URL.
pub open spec fn url_target(url: Seq<char>) -> Result<TargetSpec, Seq<char>> {
    if has_prefix(url, "unix:"@) {
        unix_url_target(url.skip(5))
    } else {
        http_url_target(url)
    }
}

pub open spec fn target_result_matches(
    r: Result<HttpTarget, String>,
    spec: Result<TargetSpec, Seq<char>>,
) -> bool {
    match spec {
        Ok(t) => r matches Ok(target) && target@ == t,
        Err(d) => r matches Err(detail) && detail@ == d,
    }
}

/// Reads an `http://host:port/path` URL.
pub fn parse_http_url(url: &str) -> (r: Result<HttpTarget, String>)
    ensures
        target_result_matches(r, http_url_target(url@)),
{
    proof {
        reveal_strlit("http://");
        reveal_strlit("/");
    }
    if !starts_with(url, "http://") {
        return Err("URL must start with http:// or unix: — got ".to_owned().concat(url));
    }
    let cs = chars_of(url);
    let n = cs.len();
    let ghost w = url@.skip(7);
    let slash = find_char(&cs, 7, '/');
    proof {
        lemma_find_from(cs@, 7, '/');
        lemma_find_from(w, 0, '/');
        assert forall|k: int| 0 <= k < w.len() implies w[k] == cs@[k + 7] by {}
        lemma_find_shift(cs@, 7, 0, '/');
    }
    assert(slash - 7 == find_from(w, 0, '/'));
    let path = if slash < n {
        url.substring_char(slash, n).to_owned()
    } else {
        "/".to_owned()
    };
    assert(path@ == if (slash - 7) < w.len() {
        w.skip(slash - 7)
    } else {
        "/"@
    });
    let ghost authority = w.take(slash - 7);
    assert(authority =~= cs@.subrange(7, slash as int));
    match rfind_char(&cs, 7, slash, ':') {
        Some(colon) => {
            let port_text = url.substring_char(colon + 1, slash);
            assert(port_text@ =~= authority.skip(colon - 7 + 1));
            match parse_u16(port_text) {
                Some(port) => {
                    let host = url.substring_char(7, colon).to_owned();
                    assert(host@ =~= authority.take(colon - 7));
                    Ok(HttpTarget::Tcp { host, port, path })
                },
                None => Err("invalid port in URL: ".to_owned().concat(url)),
            }
        },
        None => {
            let host = url.substring_char(7, slash).to_owned();
            Ok(HttpTarget::Tcp { host, port: 80, path })
        },
    }
}

proof fn lemma_find_shift(s: Seq<char>, off: nat, start: nat, c: char)
    requires
        off + start <= s.len(),
    ensures
        find_from(s, off + start, c) == off + find_from(s.skip(off as int), start, c),
    decreases s.len() - (off + start),
{
    if off + start < s.len() {
        assert(s.skip(off as int)[start as int] == s[(off + start) as int]);
        lemma_find_shift(s, off, start + 1, c);
    }
}

/// Reads the part of a `unix:/path/to/sock:/url-path` URL after `unix:`.
pub fn parse_unix_url(rest: &str) -> (r: Result<HttpTarget, String>)
    ensures
        target_result_matches(r, unix_url_target(rest@)),
{
    proof {
        reveal_strlit("/");
    }
    let cs = chars_of(rest);
    let n = cs.len();
    assert(cs@.subrange(0, n as int) =~= rest@);
    match rfind_char(&cs, 0, n, ':') {
        Some(colon) if colon > 0 => {
            let socket_path = rest.substring_char(0, colon).to_owned();
            let tail = rest.substring_char(colon + 1, n);
            let url_path = if colon + 1 == n {
                "/".to_owned()
            } else {
                tail.to_owned()
            };
            assert(socket_path@ =~= rest@.take(colon as int));
            assert(tail@ =~= rest@.skip(colon + 1));
            Ok(HttpTarget::Unix { socket_path, url_path })
        },
        _ => Err(
            "Unix URL must be unix:/socket/path:/url-path — got unix:".to_owned().concat(rest),
        ),
    }
}

/// Reads a URL: `http://host:port/path` or `unix:/path/to/sock:/url-path`.
pub fn parse_url(url: &str) -> (r: Result<HttpTarget, String>)
    ensures
        target_result_matches(r, url_target(url@)),
{
    proof {
        reveal_strlit("unix:");
    }
    if starts_with(url, "unix:") {
        let n = url.unicode_len();
        let rest = url.substring_char(5, n);
        assert(rest@ =~= url@.skip(5));
        parse_unix_url(rest)
    } else {
        parse_http_url(url)
    }
}

} // verus!

verus! {

// ── HTTP exchanges ──────────────────────────────────────────────────────────

/// An HTTP request ready to be sent: the method and URL it was made from,
/// where it goes, and the request text (HTTP/1.0, empty body).
pub struct HttpExchange {
    pub method: String,
    pub url: String,
    pub target: HttpTarget,
    pub request: String,
}

/// The HTTP/1.0 request text, with an empty body, for `method` to `t`.
pub open spec fn request_text(method: Seq<char>, t: TargetSpec) -> Seq<char> {
    match t {
        TargetSpec::Tcp { host, port, path } => method + " "@ + path + " HTTP/1.0\r\nHost: "@
            + host + ":"@ + decimal(port as nat) + "\r\nContent-Length: 0\r\n\r\n"@,
        TargetSpec::Unix { url_path, .. } => method + " "@ + url_path
            + " HTTP/1.0\r\nHost: localhost\r\nContent-Length: 0\r\n\r\n"@,
    }
}

/// The address to connect to: `host:port`, or the socket's path.
pub open spec fn target_address(t: TargetSpec) -> Seq<char> {
    match t {
        TargetSpec::Tcp { host, port, .. } => host + ":"@ + decimal(port as nat),
        TargetSpec::Unix { socket_path, .. } => socket_path,
    }
}

/// Whether `r` is the HTTP error for `method` to `url` with `detail`.
pub open spec fn is_http_error<T>(
    r: Result<T, ActionError>,
    method: Seq<char>,
    url: Seq<char>,
    detail: Seq<char>,
) -> bool {
    r matches Err(ActionError::HttpRequest { method: m, url: u, detail: d }) && m@ == method && u@
        == url && d@ == detail
}

fn render_request(method: &str, target: &HttpTarget) -> (r: String)
    ensures
        r@ == request_text(method@, target@),
{
    match target {
        HttpTarget::Tcp { host, port, path } => method.to_owned().concat(" ").concat(
            path.as_str(),
        ).concat(" HTTP/1.0\r\nHost: ").concat(host.as_str()).concat(":").concat(
            decimal_string(*port as u64).as_str(),
        ).concat("\r\nContent-Length: 0\r\n\r\n"),
        HttpTarget::Unix { url_path, .. } => method.to_owned().concat(" ").concat(
            url_path.as_str(),
        ).concat(" HTTP/1.0\r\nHost: localhost\r\nContent-Length: 0\r\n\r\n"),
    }
}

/// Prepares an HTTP request with an empty body: reads the URL and writes the
/// request text.  A URL that names no target is an error.
pub fn http_request(method: &str, url: &str) -> (r: Result<HttpExchange, ActionError>)
    ensures
        match url_target(url@) {
            Err(d) => is_http_error(r, method@, url@, d),
            Ok(t) => r matches Ok(ex) && ex.method@ == method@ && ex.url@ == url@ && ex.target@ == t
                && ex.request@ == request_text(method@, t),
        },
{
    match parse_url(url) {
        Err(detail) => Err(
            ActionError::HttpRequest { method: method.to_owned(), url: url.to_owned(), detail },
        ),
        Ok(target) => {
            let request = render_request(method, &target);
            Ok(HttpExchange { method: method.to_owned(), url: url.to_owned(), target, request })
        },
    }
}

impl HttpExchange {
    /// The address to connect to.
    pub fn address(&self) -> (r: String)
        ensures
            r@ == target_address(self.target@),
    {
        match &self.target {
            HttpTarget::Tcp { host, port, .. } => host.clone().concat(":").concat(
                decimal_string(*port as u64).as_str(),
            ),
            HttpTarget::Unix { socket_path, .. } => socket_path.clone(),
        }
    }

    /// The error for a connection that could not be made, `error` saying why.
    pub fn connect_error(&self, error: &str) -> (r: ActionError)
        ensures
            is_http_error(
                Err::<(), ActionError>(r),
                self.method@,
                self.url@,
                match self.target@ {
                    TargetSpec::Tcp { .. } => "connect failed: "@ + error@,
                    TargetSpec::Unix { socket_path, .. } => "connect to "@ + socket_path
                        + " failed: "@ + error@,
                },
            ),
    {
        let detail = match &self.target {
            HttpTarget::Tcp { .. } => "connect failed: ".to_owned().concat(error),
            HttpTarget::Unix { socket_path, .. } => "connect to ".to_owned().concat(
                socket_path.as_str(),
            ).concat(" failed: ").concat(error),
        };
        ActionError::HttpRequest { method: self.method.clone(), url: self.url.clone(), detail }
    }
}

// ── Replies ─────────────────────────────────────────────────────────────────

/// `std::str::from_utf8`: the bytes as text when they are valid UTF-8.
#[verifier::external_body]
fn utf8_text(bytes: &[u8]) -> (r: Option<&str>)
    ensures
        r is Some <==> valid_utf8(bytes@),
        r matches Some(s) ==> s@ == decode_utf8(bytes@),
{
    std::str::from_utf8(bytes).ok()
}

/// The reply as text: empty when it is not valid UTF-8.
pub open spec fn response_text(bytes: Seq<u8>) -> Seq<char> {
    if valid_utf8(bytes) {
        decode_utf8(bytes)
    } else {
        seq![]
    }
}

/// The second space-separated field of a status line, when it has one.
pub open spec fn status_code_field(line: Seq<char>) -> Option<Seq<char>> {
    let a = find_from(line, 0, ' ');
    if a < line.len() {
        let rest = line.skip((a + 1) as int);
        Some(rest.take(find_from(rest, 0, ' ') as int))
    } else {
        None
    }
}

/// Whether a status line reports success: it starts with `HTTP/` and its
/// status code is in 200..300.
pub open spec fn is_success_status(line: Seq<char>) -> bool {
    &&& has_prefix(line, "HTTP/"@)
    &&& status_code_field(line) matches Some(f)
    &&& parse_unsigned(f, 0xffff) matches Some(code)
    &&& 200 <= code < 300
}

fn success_status(line: &str) -> (b: bool)
    ensures
        b == is_success_status(line@),
{
    if !starts_with(line, "HTTP/") {
        return false;
    }
    let cs = chars_of(line);
    let n = cs.len();
    let a = find_char(&cs, 0, ' ');
    if a == n {
        return false;
    }
    let b = find_char(&cs, a + 1, ' ');
    proof {
        lemma_find_shift(line@, (a + 1) as nat, 0, ' ');
    }
    let field = line.substring_char(a + 1, b);
    assert(field@ =~= line@.skip(a + 1).take(find_from(line@.skip(a + 1), 0, ' ') as int));
    match parse_u16(field) {
        Some(code) => 200 <= code && code < 300,
        None => false,
    }
}

/// Judges an HTTP exchange from what writing the request and reading the
/// reply gave: a failed write, a failed read, or a reply whose first line is
/// not a 2xx status line is an error.  The reply is read as text, and is empty
/// text when it is not valid UTF-8.  When the write failed, the read is not
/// looked at.
pub fn write_and_check(
    method: &str,
    url: &str,
    written: Result<(), String>,
    read: Result<Vec<u8>, String>,
) -> (r: Result<(), ActionError>)
    ensures
        match written {
            Err(e) => is_http_error(r, method@, url@, "write failed: "@ + e@),
            Ok(_) => match read {
                Err(e) => is_http_error(r, method@, url@, "read failed: "@ + e@),
                Ok(bytes) => {
                    let line = first_line(response_text(bytes@));
                    if is_success_status(line) {
                        r is Ok
                    } else {
                        is_http_error(r, method@, url@, "non-2xx response: "@ + line)
                    }
                },
            },
        },
{
    proof {
        reveal_strlit("");
    }
    if let Err(e) = written {
        return Err(
            ActionError::HttpRequest {
                method: method.to_owned(),
                url: url.to_owned(),
                detail: "write failed: ".to_owned().concat(e.as_str()),
            },
        );
    }
    match read {
        Err(e) => Err(
            ActionError::HttpRequest {
                method: method.to_owned(),
                url: url.to_owned(),
                detail: "read failed: ".to_owned().concat(e.as_str()),
            },
        ),
        Ok(bytes) => {
            let text = match utf8_text(bytes.as_slice()) {
                Some(t) => t,
                None => "",
            };
            let line = first_line_of(text);
            if success_status(line) {
                Ok(())
            } else {
                Err(
                    ActionError::HttpRequest {
                        method: method.to_owned(),
                        url: url.to_owned(),
                        detail: "non-2xx response: ".to_owned().concat(line),
                    },
                )
            }
        },
    }
}

} // verus!

verus! {

/// Writing a host, a port and a path into an `http://` URL and reading it
/// back gives them again, when the host holds neither `:` nor `/` and the
/// path starts with `/`.
pub proof fn lemma_http_url_round_trip(host: Seq<char>, port: u16, path: Seq<char>)
    requires
        !host.contains(':'),
        !host.contains('/'),
        path.len() > 0,
        path[0] == '/',
    ensures
        http_url_target("http://"@ + host + ":"@ + decimal(port as nat) + path) == Ok::<
            TargetSpec,
            Seq<char>,
        >(TargetSpec::Tcp { host, port, path }),
{
    reveal_strlit("http://");
    reveal_strlit(":");
    let dec = decimal(port as nat);
    lemma_decimal_reads_back(port as nat);
    let url = "http://"@ + host + ":"@ + dec + path;
    assert(url.subrange(0, 7) =~= "http://"@);
    let w = url.skip(7);
    let authority = host + ":"@ + dec;
    assert(w =~= authority + path);
    let slash = authority.len() as int;
    assert forall|m: int| 0 <= m < slash implies w[m] != '/' by {
        if m < host.len() {
            assert(w[m] == host[m]);
            assert(host.contains(host[m]));
        } else if m > host.len() {
            assert(w[m] == dec[m - host.len() - 1]);
            assert(is_ascii_digit(dec[m - host.len() - 1]));
        }
    }
    assert(w[slash] == path[0]);
    lemma_find_from_at(w, 0, '/', slash);
    assert(w.take(slash) =~= authority);
    assert(w.skip(slash) =~= path);
    let colon = host.len() as int;
    assert forall|m: int| colon < m < authority.len() implies authority[m] != ':' by {
        assert(authority[m] == dec[m - colon - 1]);
        assert(is_ascii_digit(dec[m - colon - 1]));
    }
    lemma_rfind_at(authority, ':', colon);
    assert(authority.skip(colon + 1) =~= dec);
    assert(authority.take(colon) =~= host);
    assert(is_ascii_digit(dec[0]));
    assert(parse_unsigned(dec, 0xffff) == Some(port as nat));
}

} // verus!

verus! {

/// The authority text of a URL: the host, then `:` and the port in decimal
/// when a port is written.
pub open spec fn authority_text(host: Seq<char>, port: Option<u16>) -> Seq<char> {
    match port {
        Some(p) => host + ":"@ + decimal(p as nat),
        None => host,
    }
}

/// Reading an `http://` URL gives back what it was written from: for a host
/// holding neither `:` nor `/`, an optional port and a path that is empty or
/// starts with `/`, `http://host[:port]path` names the TCP target with that
/// host, that port (80 when none is written) and that path (`/` when it is
/// empty), whether or not a path follows the port.  The address to connect
/// to is then the host, `:` and the port, `:80` included.
pub proof fn lemma_http_url_reads_back(host: Seq<char>, port: Option<u16>, path: Seq<char>)
    requires
        !host.contains(':'),
        !host.contains('/'),
        path.len() == 0 || path[0] == '/',
    ensures
        url_target("http://"@ + authority_text(host, port) + path) == Ok::<TargetSpec, Seq<char>>(
            TargetSpec::Tcp {
                host,
                port: match port {
                    Some(p) => p,
                    None => 80u16,
                },
                path: if path.len() == 0 {
                    "/"@
                } else {
                    path
                },
            },
        ),
        target_address(
            url_target("http://"@ + authority_text(host, port) + path)->Ok_0,
        ) == host + match port {
            Some(p) => ":"@ + decimal(p as nat),
            None => ":80"@,
        },
{
    reveal_strlit("http://");
    reveal_strlit("unix:");
    reveal_strlit(":");
    reveal_strlit(":80");
    reveal_strlit("/");
    let authority = authority_text(host, port);
    let url = "http://"@ + authority + path;
    assert(url[0] == 'h');
    assert(!has_prefix(url, "unix:"@)) by {
        if has_prefix(url, "unix:"@) {
            assert(url.subrange(0, 5)[0] == 'u');
        }
    }
    assert(url.subrange(0, 7) =~= "http://"@);
    let w = url.skip(7);
    assert(w =~= authority + path);
    let n = match port {
        Some(p) => p as nat,
        None => 0,
    };
    lemma_decimal_has_no(n, '/');
    lemma_decimal_has_no(n, ':');
    assert forall|m: int| 0 <= m < authority.len() implies authority[m] != '/' by {
        if m < host.len() {
            assert(authority[m] == host[m]);
            assert(host.contains(host[m]));
        } else if m > host.len() {
            assert(authority[m] == decimal(n)[m - host.len() - 1]);
        }
    }
    let slash = authority.len() as int;
    if path.len() > 0 {
        assert(w[slash] == path[0]);
        lemma_find_from_at(w, 0, '/', slash);
    } else {
        lemma_find_from_none(w, 0, '/');
    }
    assert(w.take(slash) =~= authority);
    assert(path.len() > 0 ==> w.skip(slash) =~= path);
    match port {
        Some(p) => {
            let colon = host.len() as int;
            assert forall|m: int| colon < m < authority.len() implies authority[m] != ':' by {
                assert(authority[m] == decimal(n)[m - colon - 1]);
            }
            lemma_rfind_at(authority, ':', colon);
            assert(authority.skip(colon + 1) =~= decimal(n));
            assert(authority.take(colon) =~= host);
            lemma_parse_decimal(n, 0xffff);
            assert(decimal(80) =~= seq!['8', '0']) by {
                assert(decimal(8) =~= seq!['8']);
            }
        },
        None => {
            assert forall|m: int| 0 <= m < authority.len() implies authority[m] != ':' by {
                assert(host.contains(host[m]));
            }
            lemma_rfind_none(authority, ':');
            assert(":"@ + decimal(80) =~= ":80"@) by {
                assert(decimal(8) =~= seq!['8']);
            }
        },
    }
}

} // verus!

verus! {

/// A status line `HTTP/<version> <code><rest>` reports success exactly when
/// its code is in 200..300, for every version without spaces, every code and
/// every rest that is empty or starts with a space: a reply with any other
/// code, 500 included, is judged a failure by `write_and_check`.
pub proof fn lemma_status_line_judged_by_code(version: Seq<char>, code: u16, rest: Seq<char>)
    requires
        !version.contains(' '),
        rest.len() == 0 || rest[0] == ' ',
    ensures
        is_success_status("HTTP/"@ + version + " "@ + decimal(code as nat) + rest) == (200 <= code
            < 300),
{
    reveal_strlit("HTTP/");
    reveal_strlit(" ");
    let dec = decimal(code as nat);
    let line = "HTTP/"@ + version + " "@ + dec + rest;
    assert(line.subrange(0, 5) =~= "HTTP/"@);
    let a: int = 5 + version.len() as int;
    assert forall|m: int| 0 <= m < a implies line[m] != ' ' by {
        if m >= 5 {
            assert(line[m] == version[m - 5]);
            assert(version.contains(version[m - 5]));
        }
    }
    assert(line[a] == ' ');
    lemma_find_from_at(line, 0, ' ', a);
    let tail = line.skip(a + 1);
    assert(tail =~= dec + rest);
    lemma_decimal_has_no(code as nat, ' ');
    if rest.len() > 0 {
        assert(tail[dec.len() as int] == rest[0]);
        lemma_find_from_at(tail, 0, ' ', dec.len() as int);
    } else {
        lemma_find_from_none(tail, 0, ' ');
    }
    assert(tail.take(dec.len() as int) =~= dec);
    lemma_parse_decimal(code as nat, 0xffff);
}

} // verus!
