//! The explorer's HTTP exchange: when a request head is complete, what it asks for,
//! and the response to it.
use vstd::prelude::*;
use crate::gitdiff::text_lines;
use crate::text::{chars_equal, chars_of, concat, decimal, decimal_chars, lit, string_of};

verus! {

/// What a request asks for.
#[derive(Debug)]
pub enum Route {
    /// Any method but `GET`.
    MethodNotAllowed,
    /// The explorer page, `/`.
    Page,
    /// The explorer script, `/explorer.js`.
    Script,
    /// The analysis report, `/api/report`.
    Report,
    /// Anything else.
    NotFound,
}

/// A response: its status line, content type and body.
#[derive(Debug)]
pub struct Response {
    pub status: String,
    pub content_type: String,
    pub body: String,
}

/// The longest request head that is read.
pub open spec fn head_limit() -> nat {
    8192
}

/// A request head ends with an empty line, or has reached the read limit.
pub open spec fn head_done(buf: Seq<u8>) -> bool {
    buf.len() >= head_limit() || exists|i: int|
        0 <= i && i + 4 <= buf.len() && #[trigger] buf.subrange(i, i + 4) == seq![13u8, 10u8, 13u8, 10u8]
}

/// A whitespace character (`char::is_whitespace`).
pub open spec fn white(c: char) -> bool {
    ||| '\u{9}' <= c <= '\u{d}'
    ||| c == ' '
    ||| c == '\u{85}'
    ||| c == '\u{a0}'
    ||| c == '\u{1680}'
    ||| '\u{2000}' <= c <= '\u{200a}'
    ||| c == '\u{2028}'
    ||| c == '\u{2029}'
    ||| c == '\u{202f}'
    ||| c == '\u{205f}'
    ||| c == '\u{3000}'
}

/// The whitespace-separated words of a text.
pub open spec fn words(s: Seq<char>) -> Seq<Seq<char>>
    decreases s.len(),
{
    if s.len() == 0 {
        Seq::empty()
    } else {
        let prev = words(s.drop_last());
        let c = s.last();
        if white(c) {
            prev
        } else if s.len() >= 2 && !white(s[s.len() - 2]) {
            prev.update(prev.len() - 1, prev.last().push(c))
        } else {
            prev.push(seq![c])
        }
    }
}

/// The `k`-th word of the request's first line, or nothing.
pub open spec fn request_word(request: Seq<char>, k: int) -> Seq<char> {
    let lines = text_lines(request);
    let first = if lines.len() > 0 {
        lines[0]
    } else {
        Seq::empty()
    };
    if k < words(first).len() {
        words(first)[k]
    } else {
        Seq::empty()
    }
}

/// The route of a request with this method and path.
pub open spec fn route_of(method: Seq<char>, path: Seq<char>) -> Route {
    if method != "GET"@ {
        Route::MethodNotAllowed
    } else if path == "/"@ {
        Route::Page
    } else if path == "/explorer.js"@ {
        Route::Script
    } else if path == "/api/report"@ {
        Route::Report
    } else {
        Route::NotFound
    }
}

/// The response text as status, content type and body.
pub open spec fn response_text(r: Response) -> (Seq<char>, Seq<char>, Seq<char>) {
    (r.status@, r.content_type@, r.body@)
}

/// The response to a route, given the page, the script and the outcome of building
/// the report (its JSON, or the error's text).
pub open spec fn response_to(
    route: Route,
    page: Seq<char>,
    script: Seq<char>,
    report: Result<Seq<char>, Seq<char>>,
) -> (Seq<char>, Seq<char>, Seq<char>) {
    match route {
        Route::MethodNotAllowed => ("405 Method Not Allowed"@, "text/plain"@, "Only GET is supported"@),
        Route::Page => ("200 OK"@, "text/html; charset=utf-8"@, page),
        Route::Script => ("200 OK"@, "text/javascript; charset=utf-8"@, script),
        Route::Report => match report {
            Ok(json) => ("200 OK"@, "application/json"@, json),
            Err(e) => ("500 Internal Server Error"@, "text/plain; charset=utf-8"@, e),
        },
        Route::NotFound => ("404 Not Found"@, "text/plain"@, "Not found"@),
    }
}

/// The headers sent after the content length.
pub open spec fn fixed_headers() -> Seq<char> {
    "\r\nCache-Control: no-store\r\nX-Content-Type-Options: nosniff\r\nContent-Security-Policy: default-src 'self'; style-src 'self' 'unsafe-inline'; frame-ancestors 'none'\r\nConnection: close\r\n\r\n"@
}

/// Whether the request head is complete.
pub fn head_complete(buf: &Vec<u8>) -> (r: bool)
    ensures
        r == head_done(buf@),
{
    if buf.len() >= 8192 {
        return true;
    }
    let mut i: usize = 0;
    while i + 4 <= buf.len()
        invariant
            buf@.len() < head_limit(),
            i <= buf@.len(),
            forall|j: int| 0 <= j < i && j + 4 <= buf@.len() ==> #[trigger] buf@.subrange(j, j + 4) != seq![13u8, 10u8, 13u8, 10u8],
        decreases buf@.len() - i,
    {
        if buf[i] == 13 && buf[i + 1] == 10 && buf[i + 2] == 13 && buf[i + 3] == 10 {
            assert(buf@.subrange(i as int, i + 4) =~= seq![13u8, 10u8, 13u8, 10u8]);
            return true;
        }
        proof {
            if buf@.subrange(i as int, i + 4) == seq![13u8, 10u8, 13u8, 10u8] {
                assert(buf@.subrange(i as int, i + 4)[0] == buf@[i as int]);
                assert(buf@.subrange(i as int, i + 4)[1] == buf@[i + 1]);
                assert(buf@.subrange(i as int, i + 4)[2] == buf@[i + 2]);
                assert(buf@.subrange(i as int, i + 4)[3] == buf@[i + 3]);
            }
        }
        i = i + 1;
    }
    false
}

/// Whether a character is whitespace.
fn is_white(c: char) -> (r: bool)
    ensures
        r == white(c),
{
    ('\u{9}' <= c && c <= '\u{d}') || c == ' ' || c == '\u{85}' || c == '\u{a0}' || c == '\u{1680}'
        || ('\u{2000}' <= c && c <= '\u{200a}') || c == '\u{2028}' || c == '\u{2029}' || c
        == '\u{202f}' || c == '\u{205f}' || c == '\u{3000}'
}

/// The whitespace-separated words of a text.
fn words_of(s: &Vec<char>) -> (r: Vec<Vec<char>>)
    ensures
        r@.len() == words(s@).len(),
        forall|k: int| 0 <= k < r@.len() ==> #[trigger] r@[k]@ == words(s@)[k],
{
    let mut done: Vec<Vec<char>> = Vec::new();
    let mut cur: Vec<char> = Vec::new();
    let mut in_word = false;
    let mut i: usize = 0;
    while i < s.len()
        invariant
            i <= s@.len(),
            in_word == (i > 0 && !white(s@[i - 1])),
            words(s@.subrange(0, i as int)).len() == done@.len() + if in_word {
                1int
            } else {
                0int
            },
            forall|k: int| 0 <= k < done@.len() ==> #[trigger] done@[k]@ == words(s@.subrange(0, i as int))[k],
            in_word ==> cur@ == words(s@.subrange(0, i as int)).last(),
        decreases s@.len() - i,
    {
        let ghost prefix = s@.subrange(0, i as int);
        let ghost next = s@.subrange(0, i + 1);
        proof {
            assert(next.drop_last() =~= prefix);
            assert(next.last() == s@[i as int]);
            if i > 0 {
                assert(next[next.len() - 2] == s@[i - 1]);
            }
        }
        let c = s[i];
        if is_white(c) {
            if in_word {
                done.push(cur);
                cur = Vec::new();
            }
            in_word = false;
        } else {
            if in_word {
                cur.push(c);
            } else {
                cur = Vec::new();
                cur.push(c);
                assert(cur@ =~= seq![c]);
            }
            in_word = true;
        }
        i = i + 1;
    }
    if in_word {
        done.push(cur);
    }
    assert(s@.subrange(0, s@.len() as int) =~= s@);
    done
}

/// The method and path of a request: the first two words of its first line (empty
/// when missing).
pub fn request_target(request: &str) -> (r: (String, String))
    ensures
        r.0@ == request_word(request@, 0),
        r.1@ == request_word(request@, 1),
{
    let lines = crate::gitdiff::lines_of(request);
    let first = if lines.len() > 0 {
        chars_of(lines[0].as_str())
    } else {
        Vec::new()
    };
    let w = words_of(&first);
    let method = if w.len() > 0 {
        string_of(&w[0])
    } else {
        String::new()
    };
    let path = if w.len() > 1 {
        string_of(&w[1])
    } else {
        String::new()
    };
    (method, path)
}

/// What a request with this method and path asks for.
pub fn route(method: &str, path: &str) -> (r: Route)
    ensures
        r == route_of(method@, path@),
{
    let m = chars_of(method);
    let p = chars_of(path);
    if !chars_equal(&m, &lit("GET")) {
        Route::MethodNotAllowed
    } else if chars_equal(&p, &lit("/")) {
        Route::Page
    } else if chars_equal(&p, &lit("/explorer.js")) {
        Route::Script
    } else if chars_equal(&p, &lit("/api/report")) {
        Route::Report
    } else {
        Route::NotFound
    }
}

/// The text of a report outcome.
pub open spec fn outcome_text(report: Result<String, String>) -> Result<Seq<char>, Seq<char>> {
    match report {
        Ok(s) => Ok(s@),
        Err(e) => Err(e@),
    }
}

/// The response to a route. The report outcome is only read for the report route.
pub fn respond(route: Route, page: &str, script: &str, report: Result<String, String>) -> (r: Response)
    ensures
        response_text(r) == response_to(route, page@, script@, outcome_text(report)),
{
    let (status, content_type, body) = match route {
        Route::MethodNotAllowed => (
            String::from_str("405 Method Not Allowed"),
            String::from_str("text/plain"),
            String::from_str("Only GET is supported"),
        ),
        Route::Page => (String::from_str("200 OK"), String::from_str("text/html; charset=utf-8"), String::from_str(page)),
        Route::Script => (
            String::from_str("200 OK"),
            String::from_str("text/javascript; charset=utf-8"),
            String::from_str(script),
        ),
        Route::Report => match report {
            Ok(json) => (String::from_str("200 OK"), String::from_str("application/json"), json),
            Err(e) => (String::from_str("500 Internal Server Error"), String::from_str("text/plain; charset=utf-8"), e),
        },
        Route::NotFound => (String::from_str("404 Not Found"), String::from_str("text/plain"), String::from_str("Not found")),
    };
    Response { status, content_type, body }
}

/// The HTTP message for a response; the content length counts the body's UTF-8 bytes.
pub fn http_message(status: &str, content_type: &str, body: &str) -> (m: String)
    ensures
        m@ == "HTTP/1.1 "@ + status@ + "\r\nContent-Type: "@ + content_type@ + "\r\nContent-Length: "@
            + decimal(body.len() as nat) + fixed_headers() + body@,
{
    let mut m = concat("HTTP/1.1 ", status);
    m.append("\r\nContent-Type: ");
    m.append(content_type);
    m.append("\r\nContent-Length: ");
    m.append(string_of(&decimal_chars(body.len())).as_str());
    m.append(
        "\r\nCache-Control: no-store\r\nX-Content-Type-Options: nosniff\r\nContent-Security-Policy: default-src 'self'; style-src 'self' 'unsafe-inline'; frame-ancestors 'none'\r\nConnection: close\r\n\r\n",
    );
    m.append(body);
    m
}

} // verus!
