//! The metrics endpoint's replies: which resource a request asks for, and
//! the HTTP/1.0 reply that carries it.  Listening, accepting connections and
//! encoding the metrics is the caller's part.

use vstd::prelude::*;
use vstd::utf8::encode_utf8;

use crate::text::{decimal, decimal_string, same_text, split_tokens, tokens};

verus! {

/// The metrics server could not bind its listen address.
#[derive(Debug)]
pub struct MetricsServerBindError {
    listen: String,
    source: std::io::Error,
}

impl MetricsServerBindError {
    pub fn new(listen: &str, source: std::io::Error) -> (e: Self)
        ensures
            e.listen()@ == listen@,
            e.cause() == source,
    {
        MetricsServerBindError { listen: listen.to_owned(), source }
    }

    pub closed spec fn listen(&self) -> String {
        self.listen
    }

    pub closed spec fn cause(&self) -> std::io::Error {
        self.source
    }

    /// The address that could not be bound.
    pub fn listen_address(&self) -> (r: &str)
        ensures
            r@ == self.listen()@,
    {
        self.listen.as_str()
    }

    /// Why it could not be bound.
    pub fn source(&self) -> (r: &std::io::Error)
        ensures
            *r == self.cause(),
    {
        &self.source
    }
}

/// What a request to the metrics server asks for.
#[derive(Clone, Copy, Debug, PartialEq, Eq, Structural)]
pub enum MetricsRoute {
    /// `/metrics`: the metrics in Prometheus text format.
    Metrics,
    /// Any other path.
    NotFound,
}

/// The path of a request line: its second white-space separated field, or
/// `/` when it has none.
pub open spec fn request_path(request_line: Seq<char>) -> Seq<char> {
    if tokens(request_line).len() >= 2 {
        tokens(request_line)[1]
    } else {
        "/"@
    }
}

/// The path of a request line.
pub fn path_of(request_line: &str) -> (r: String)
    ensures
        r@ == request_path(request_line@),
{
    let fields = split_tokens(request_line);
    if fields.len() >= 2 {
        assert(fields@[1]@ == tokens(request_line@)[1]);
        fields[1].clone()
    } else {
        "/".to_owned()
    }
}

/// What a request asks for, from its request line.
pub fn route(request_line: &str) -> (r: MetricsRoute)
    ensures
        r == if request_path(request_line@) == "/metrics"@ {
            MetricsRoute::Metrics
        } else {
            MetricsRoute::NotFound
        },
{
    let path = path_of(request_line);
    if same_text(path.as_str(), "/metrics") {
        MetricsRoute::Metrics
    } else {
        MetricsRoute::NotFound
    }
}

/// An HTTP/1.0 reply with status `status` and a plain-text body; the length
/// is the body's length in bytes.
pub open spec fn http_reply(status: Seq<char>, body: Seq<char>) -> Seq<char> {
    "HTTP/1.0 "@ + status + "\r\nContent-Type: text/plain; charset=utf-8\r\nContent-Length: "@
        + decimal(encode_utf8(body).len()) + "\r\n\r\n"@ + body
}

fn reply(status: &str, body: &str) -> (r: String)
    requires
        encode_utf8(body@).len() <= usize::MAX,
    ensures
        r@ == http_reply(status@, body@),
{
    let r = "HTTP/1.0 ".to_owned().concat(status).concat(
        "\r\nContent-Type: text/plain; charset=utf-8\r\nContent-Length: ",
    ).concat(decimal_string(body.len() as u64).as_str()).concat("\r\n\r\n").concat(body);
    assert(r@ =~= http_reply(status@, body@));
    r
}

/// The reply to `/metrics`: `200 OK` with the encoded metrics.
pub fn metrics_response(body: &str) -> (r: String)
    requires
        encode_utf8(body@).len() <= usize::MAX,
    ensures
        r@ == http_reply("200 OK"@, body@),
{
    reply("200 OK", body)
}

/// The reply to any other path: `404 Not Found`.
pub fn not_found_response() -> (r: String)
    ensures
        r@ == http_reply("404 Not Found"@, "Not found\n"@),
{
    proof {
        reveal_strlit("Not found\n");
        vstd::string::is_ascii_spec_bytes("Not found\n");
    }
    reply("404 Not Found", "Not found\n")
}

} // verus!
