//! The HTTP/1.1 endpoint for `/metrics` and `/healthz`: which page a request asks for, and
//! the response that carries it.

use vstd::prelude::*;
use vstd::utf8;

use crate::text;

verus! {

/// The pages that the endpoint serves.
#[derive(Clone, Copy, Debug, PartialEq, Eq, Structural)]
pub enum Page {
    Metrics,
    Health,
    Missing,
}

/// The path that a request line asks for: its second word, or `/`.
pub open spec fn requested_path(request_line: Seq<char>) -> Seq<char> {
    let words = text::words(request_line);
    if words.len() >= 2 {
        words[1]
    } else {
        "/"@
    }
}

/// The page at a path.
pub open spec fn page_at(path: Seq<char>) -> Page {
    if text::has_prefix(path, "/metrics"@) {
        Page::Metrics
    } else if text::has_prefix(path, "/healthz"@) {
        Page::Health
    } else {
        Page::Missing
    }
}

/// The response that carries a page; `metrics` is the text of the metrics page.
pub open spec fn response_text(page: Page, metrics: Seq<char>) -> Seq<char> {
    let (status, ctype, body) = match page {
        Page::Metrics => ("200 OK"@, "text/plain; version=0.0.4"@, metrics),
        Page::Health => ("200 OK"@, "text/plain"@, "ok\n"@),
        Page::Missing => ("404 Not Found"@, "text/plain"@, "not found\n"@),
    };
    "HTTP/1.1 "@ + status + "\r\nContent-Type: "@ + ctype + "\r\nContent-Length: "@
        + text::dec_text(utf8::encode_utf8(body).len()) + "\r\nConnection: close\r\n\r\n"@ + body
}

/// The page that a request line asks for.
pub fn route(request_line: &str) -> (page: Page)
    ensures
        page == page_at(requested_path(request_line@)),
{
    let chars = text::chars_of(request_line);
    let words = text::split_whitespace(chars.as_slice());
    let root = text::chars_of("/");
    assert(text::texts(words@) == text::words(request_line@));
    let path: &[char] = if words.len() >= 2 {
        assert(text::texts(words@)[1] == words@[1]@);
        words[1]
    } else {
        root.as_slice()
    };
    if text::starts_with(path, "/metrics") {
        Page::Metrics
    } else if text::starts_with(path, "/healthz") {
        Page::Health
    } else {
        Page::Missing
    }
}

/// Whether a line ends the head of a request; an empty one stands for the end of input.
pub fn ends_head(line: &str) -> (r: bool)
    ensures
        r == (line@.len() == 0 || line@ == "\r\n"@ || line@ == "\n"@),
{
    let chars = text::chars_of(line);
    chars.len() == 0 || text::text_is(chars.as_slice(), "\r\n") || text::text_is(
        chars.as_slice(),
        "\n",
    )
}

/// The response that carries a page; `metrics` is the text of the metrics page.
pub fn respond(page: Page, metrics: &str) -> (s: String)
    ensures
        s@ == response_text(page, metrics@),
{
    let (status, ctype, body) = match page {
        Page::Metrics => ("200 OK", "text/plain; version=0.0.4", metrics),
        Page::Health => ("200 OK", "text/plain", "ok\n"),
        Page::Missing => ("404 Not Found", "text/plain", "not found\n"),
    };
    let mut s = "HTTP/1.1 ".to_owned();
    s.append(status);
    s.append("\r\nContent-Type: ");
    s.append(ctype);
    s.append("\r\nContent-Length: ");
    s.append(text::decimal(text::byte_len(body) as u128).as_str());
    s.append("\r\nConnection: close\r\n\r\n");
    s.append(body);
    s
}

} // verus!
