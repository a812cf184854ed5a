//! The text of the sync protocol's HTTP/1.0 exchange: the requests the
//! client writes, the lines it and the server read, which endpoint a request
//! names, and the head of each answer. The sockets live with the caller.

use vstd::prelude::*;

use crate::text::{
    chars_of, decimal, decimal_text, is_white_space, parse_bounded, parse_unsigned, slice_chars,
    string_of, trim, trim_back, trimmed, white_space,
};
use vstd::string::StringExecFns;

verus! {

broadcast use vstd::string::group_string_axioms;

/// The TCP port the sync server listens on.
pub const SYNC_PORT: u16 = 5878;

/// The UDP port discovery announcements go out on.
pub const DISCOVERY_PORT: u16 = 5879;

/// What `GET /` answers: the endpoint list.
pub const INDEX_TEXT: &'static str = "Quire LAN sync\n\nGET  /sync/info             this device\nGET  /sync/snapshot       the workspace snapshot\nPOST /sync/snapshot       merge a snapshot and answer the merged one\nGET  /sync/attachment/<id> one attachment's bytes\nPOST /sync/pair           pair with the sending device\n";

/// The white-space separated words of `s`, as `str::split_whitespace`
/// yields them.
pub open spec fn words(s: Seq<char>) -> Seq<Seq<char>>
    decreases s.len(),
{
    if s.len() == 0 {
        seq![]
    } else {
        let prev = words(s.drop_last());
        let c = s.last();
        if white_space(c) {
            prev
        } else if s.len() > 1 && !white_space(s[s.len() - 2]) && prev.len() > 0 {
            prev.update(prev.len() - 1, prev.last().push(c))
        } else {
            prev.push(seq![c])
        }
    }
}

/// The first `n` words of `line` (fewer when it has fewer).
fn first_words(line: &str, n: usize) -> (r: Vec<Vec<char>>)
    ensures
        r@.len() == if words(line@).len() < n { words(line@).len() } else { n as nat },
        forall|i: int| 0 <= i < r@.len() ==> (#[trigger] r@[i])@ == words(line@)[i],
{
    let cs = chars_of(line);
    let mut out: Vec<Vec<char>> = Vec::new();
    let mut i: usize = 0;
    while i < cs.len()
        invariant
            i <= cs@.len(),
            cs@ == line@,
            out@.len() == words(cs@.take(i as int)).len(),
            forall|t: int| 0 <= t < out@.len() ==> (#[trigger] out@[t])@ == words(cs@.take(i as int))[t],
        decreases cs@.len() - i,
    {
        let c = cs[i];
        let ghost t = cs@.take(i + 1);
        assert(t.drop_last() =~= cs@.take(i as int));
        assert(t.last() == c);
        if !is_white_space(c) {
            if i > 0 && !is_white_space(cs[i - 1]) && out.len() > 0 {
                assert(t[t.len() - 2] == cs@[i - 1]);
                let last = out.len() - 1;
                let mut w = out[last].clone();
                w.push(c);
                let ghost o = out@;
                out.set(last, w);
                proof {
                    assert forall|u: int| 0 <= u < out@.len() implies (#[trigger] out@[u])@ == words(t)[u] by {
                        if u == last {
                            assert(out@[u]@ =~= words(cs@.take(i as int)).last().push(c));
                        } else {
                            assert(out@[u] == o[u]);
                        }
                    }
                }
            } else {
                proof {
                    if i > 0 {
                        assert(t[t.len() - 2] == cs@[i - 1]);
                    }
                }
                let mut w: Vec<char> = Vec::new();
                w.push(c);
                out.push(w);
                proof {
                    assert forall|u: int| 0 <= u < out@.len() implies (#[trigger] out@[u])@ == words(t)[u] by {
                        if u == out@.len() - 1 {
                            assert(out@[u]@ =~= seq![c]);
                        }
                    }
                }
            }
        }
        i = i + 1;
    }
    assert(cs@.take(cs@.len() as int) =~= cs@);
    let mut r: Vec<Vec<char>> = Vec::new();
    let mut j: usize = 0;
    while j < out.len() && j < n
        invariant
            j <= out@.len(),
            j <= n,
            out@.len() == words(line@).len(),
            forall|t: int| 0 <= t < out@.len() ==> (#[trigger] out@[t])@ == words(line@)[t],
            r@.len() == j,
            forall|t: int| 0 <= t < j ==> (#[trigger] r@[t])@ == words(line@)[t],
        decreases out@.len() - j,
    {
        let w = out[j].clone();
        assert(w@ =~= out@[j as int]@);
        r.push(w);
        j = j + 1;
    }
    r
}

/// The `i`-th word of `s`, or nothing.
pub open spec fn word(s: Seq<char>, i: int) -> Seq<char> {
    if i < words(s).len() { words(s)[i] } else { Seq::empty() }
}

/// The method and the target of a request line (empty when missing).
pub fn request_target(line: &str) -> (r: (String, String))
    ensures
        r.0@ == word(line@, 0),
        r.1@ == word(line@, 1),
{
    let w = first_words(line, 2);
    let method = if w.len() > 0 { string_of(w[0].as_slice()) } else { String::new() };
    let path = if w.len() > 1 { string_of(w[1].as_slice()) } else { String::new() };
    (method, path)
}

/// The status code of a response's status line: its second word as a
/// number, if it is one.
pub fn parse_status_line(line: &str) -> (r: Option<u16>)
    ensures
        match r {
            Some(v) => parse_unsigned(word(line@, 1), u16::MAX as nat) == Some(v as nat),
            None => parse_unsigned(word(line@, 1), u16::MAX as nat) is None,
        },
{
    let w = first_words(line, 2);
    let second = if w.len() > 1 { string_of(w[1].as_slice()) } else { String::new() };
    match parse_bounded(second.as_str(), u16::MAX as u64) {
        Some(v) => Some(v as u16),
        None => None,
    }
}

/// What one header line means to the sync exchange.
pub enum HeaderLine {
    /// The blank line that ends the head.
    End,
    /// A `Content-Length` header, with its value if it is a number.
    ContentLength(Option<usize>),
    /// Anything else.
    Other,
}

/// `s` with the prefix `p` taken off, when `s` starts with `p`.
pub open spec fn strip(s: Seq<char>, p: Seq<char>) -> Option<Seq<char>> {
    if p.is_prefix_of(s) {
        Some(s.skip(p.len() as int))
    } else {
        None
    }
}

/// The reading of a header line: trailing white space dropped; empty ends
/// the head; `Content-Length:` (either case as written) carries its trimmed
/// value parsed as a length.
pub open spec fn header_spec(line: Seq<char>) -> (HeaderLine, Option<nat>) {
    let l = trim_back(line);
    if l.len() == 0 {
        (HeaderLine::End, None)
    } else {
        let v = match strip(l, "Content-Length:"@) {
            Some(v) => Some(v),
            None => strip(l, "content-length:"@),
        };
        match v {
            Some(x) => (HeaderLine::ContentLength(None), parse_unsigned(trim(x), usize::MAX as nat)),
            None => (HeaderLine::Other, None),
        }
    }
}

fn strip_chars(s: &Vec<char>, lo: usize, hi: usize, p: &str) -> (r: Option<usize>)
    requires
        lo <= hi <= s@.len(),
    ensures
        match r {
            Some(k) => strip(s@.subrange(lo as int, hi as int), p@) == Some(s@.subrange(k as int, hi as int)) && lo <= k <= hi,
            None => strip(s@.subrange(lo as int, hi as int), p@) is None,
        },
{
    let pc = chars_of(p);
    let ghost w = s@.subrange(lo as int, hi as int);
    if pc.len() > hi - lo {
        return None;
    }
    let mut i: usize = 0;
    while i < pc.len()
        invariant
            pc@ == p@,
            pc@.len() <= hi - lo,
            lo <= hi <= s@.len(),
            w == s@.subrange(lo as int, hi as int),
            i <= pc@.len(),
            forall|j: int| 0 <= j < i ==> w[j] == pc@[j],
        decreases pc@.len() - i,
    {
        if s[lo + i] != pc[i] {
            assert(w[i as int] != pc@[i as int]);
            assert(!p@.is_prefix_of(w));
            return None;
        }
        i = i + 1;
    }
    assert(w.take(pc@.len() as int) =~= p@);
    assert(w.skip(pc@.len() as int) =~= s@.subrange(lo + pc@.len(), hi as int));
    Some(lo + pc.len())
}

/// Read one header line (see `header_spec`).
pub fn classify_header(line: &str) -> (r: HeaderLine)
    ensures
        match r {
            HeaderLine::End => header_spec(line@).0 is End,
            HeaderLine::Other => header_spec(line@).0 is Other,
            HeaderLine::ContentLength(v) => header_spec(line@).0 is ContentLength && match v {
                Some(n) => header_spec(line@).1 == Some(n as nat),
                None => header_spec(line@).1 is None,
            },
        },
{
    let cs = chars_of(line);
    let mut b: usize = cs.len();
    assert(cs@.subrange(0, b as int) =~= cs@);
    while b > 0 && is_white_space(cs[b - 1])
        invariant
            b <= cs@.len(),
            cs@ == line@,
            trim_back(line@) == trim_back(cs@.subrange(0, b as int)),
        decreases b,
    {
        assert(cs@.subrange(0, b as int).drop_last() =~= cs@.subrange(0, b - 1));
        b = b - 1;
    }
    assert(trim_back(cs@.subrange(0, b as int)) == cs@.subrange(0, b as int));
    if b == 0 {
        return HeaderLine::End;
    }
    let k = match strip_chars(&cs, 0, b, "Content-Length:") {
        Some(k) => Some(k),
        None => strip_chars(&cs, 0, b, "content-length:"),
    };
    match k {
        Some(k) => {
            let v = trimmed(cs.as_slice(), k, b);
            let vs = string_of(v.as_slice());
            match parse_bounded(vs.as_str(), usize::MAX as u64) {
                Some(n) => HeaderLine::ContentLength(Some(n as usize)),
                None => HeaderLine::ContentLength(None),
            }
        },
        None => HeaderLine::Other,
    }
}

/// The part of a request target before its query string.
pub open spec fn path_part(p: Seq<char>) -> Seq<char>
    decreases p.len(),
{
    if p.len() == 0 {
        p
    } else if path_part(p.drop_last()).len() < p.len() - 1 {
        path_part(p.drop_last())
    } else if p.last() == '?' {
        p.drop_last()
    } else {
        p
    }
}

/// The endpoint a request names.
#[derive(Clone, Copy, PartialEq, Eq, Structural)]
pub enum Route {
    /// `GET /sync/info`: this device.
    Info,
    /// `GET /sync/snapshot`: the workspace snapshot.
    ExportSnapshot,
    /// `POST /sync/snapshot`: merge the sent snapshot, answer the merged one.
    MergeSnapshot,
    /// `GET /sync/attachment/<id>`: one attachment's bytes (id 0 when the
    /// tail is not a number).
    Attachment(u64),
    /// `POST /sync/pair`: pair with the sending device.
    Pair,
    /// `GET /` or `GET /sync`: the endpoint list.
    Index,
    /// Anything else.
    NotFound,
}

/// The endpoint a method and target name; the query string is ignored.
pub open spec fn route_spec(method: Seq<char>, target: Seq<char>) -> Route {
    let p = path_part(target);
    if method == "GET"@ && p == "/sync/info"@ {
        Route::Info
    } else if method == "GET"@ && p == "/sync/snapshot"@ {
        Route::ExportSnapshot
    } else if method == "POST"@ && p == "/sync/snapshot"@ {
        Route::MergeSnapshot
    } else if method == "GET"@ && strip(p, "/sync/attachment/"@) is Some {
        Route::Attachment(
            match parse_unsigned(strip(p, "/sync/attachment/"@)->0, u64::MAX as nat) {
                Some(v) => v as u64,
                None => 0,
            },
        )
    } else if method == "POST"@ && p == "/sync/pair"@ {
        Route::Pair
    } else if method == "GET"@ && (p == "/"@ || p == "/sync"@) {
        Route::Index
    } else {
        Route::NotFound
    }
}

fn path_before_query(target: &str) -> (r: Vec<char>)
    ensures
        r@ == path_part(target@),
{
    let cs = chars_of(target);
    let mut out: Vec<char> = Vec::new();
    let mut i: usize = 0;
    let mut stopped = false;
    while i < cs.len()
        invariant
            i <= cs@.len(),
            cs@ == target@,
            path_part(cs@.take(i as int)) == out@,
            stopped ==> out@.len() < i,
            !stopped ==> out@ == cs@.take(i as int),
        decreases cs@.len() - i,
    {
        let ghost t = cs@.take(i + 1);
        assert(t.drop_last() =~= cs@.take(i as int));
        if !stopped {
            if cs[i] == '?' {
                stopped = true;
            } else {
                out.push(cs[i]);
                assert(out@ =~= t);
            }
        }
        i = i + 1;
    }
    assert(cs@.take(cs@.len() as int) =~= cs@);
    out
}

fn eq_str(a: &Vec<char>, b: &str) -> (r: bool)
    ensures
        r == (a@ == b@),
{
    let bc = chars_of(b);
    if a.len() != bc.len() {
        return false;
    }
    let mut i: usize = 0;
    while i < a.len()
        invariant
            bc@ == b@,
            a@.len() == bc@.len(),
            i <= a@.len(),
            forall|j: int| 0 <= j < i ==> a@[j] == bc@[j],
        decreases a@.len() - i,
    {
        if a[i] != bc[i] {
            return false;
        }
        i = i + 1;
    }
    assert(a@ =~= b@);
    true
}

/// The endpoint a request names (see `route_spec`).
pub fn route(method: &str, target: &str) -> (r: Route)
    ensures
        r == route_spec(method@, target@),
{
    let m = chars_of(method);
    let p = path_before_query(target);
    let get = eq_str(&m, "GET");
    let post = eq_str(&m, "POST");
    if get && eq_str(&p, "/sync/info") {
        return Route::Info;
    }
    if get && eq_str(&p, "/sync/snapshot") {
        return Route::ExportSnapshot;
    }
    if post && eq_str(&p, "/sync/snapshot") {
        return Route::MergeSnapshot;
    }
    if get {
        if let Some(k) = strip_chars(&p, 0, p.len(), "/sync/attachment/") {
            assert(p@.subrange(0, p@.len() as int) =~= p@);
            let tail = string_of(slice_chars(p.as_slice(), k, p.len()).as_slice());
            let id = match parse_bounded(tail.as_str(), u64::MAX) {
                Some(v) => v,
                None => 0,
            };
            return Route::Attachment(id);
        }
        assert(p@.subrange(0, p@.len() as int) =~= p@);
    }
    if post && eq_str(&p, "/sync/pair") {
        return Route::Pair;
    }
    if get && (eq_str(&p, "/") || eq_str(&p, "/sync")) {
        return Route::Index;
    }
    Route::NotFound
}

/// The reason phrase of a status code the server sends.
pub open spec fn reason_spec(status: u16) -> Seq<char> {
    if status == 200 {
        "OK"@
    } else if status == 400 {
        "Bad Request"@
    } else if status == 404 {
        "Not Found"@
    } else if status == 503 {
        "Service Unavailable"@
    } else {
        "Error"@
    }
}

pub fn reason_phrase(status: u16) -> (r: &'static str)
    ensures
        r@ == reason_spec(status),
{
    if status == 200 {
        "OK"
    } else if status == 400 {
        "Bad Request"
    } else if status == 404 {
        "Not Found"
    } else if status == 503 {
        "Service Unavailable"
    } else {
        "Error"
    }
}

/// The head of an answer carrying `len` body bytes.
pub open spec fn response_head_spec(status: u16, len: nat) -> Seq<char> {
    "HTTP/1.0 "@ + decimal(status as nat) + " "@ + reason_spec(status)
        + "\r\nContent-Type: application/octet-stream\r\nContent-Length: "@ + decimal(len)
        + "\r\nConnection: close\r\n\r\n"@
}

pub fn response_head(status: u16, len: usize) -> (r: String)
    ensures
        r@ == response_head_spec(status, len as nat),
{
    let mut s = String::from_str("HTTP/1.0 ");
    let code = decimal_text(status as u64);
    s.append(code.as_str());
    s.append(" ");
    s.append(reason_phrase(status));
    s.append("\r\nContent-Type: application/octet-stream\r\nContent-Length: ");
    let n = decimal_text(len as u64);
    s.append(n.as_str());
    s.append("\r\nConnection: close\r\n\r\n");
    s
}

/// How many bytes UTF-8 takes for one character.
pub open spec fn utf8_width(c: char) -> nat {
    if (c as u32) < 0x80 {
        1
    } else if (c as u32) < 0x800 {
        2
    } else if (c as u32) < 0x10000 {
        3
    } else {
        4
    }
}

/// How many bytes UTF-8 takes for a string.
pub open spec fn utf8_len(s: Seq<char>) -> nat
    decreases s.len(),
{
    if s.len() == 0 {
        0
    } else {
        utf8_len(s.drop_last()) + utf8_width(s.last())
    }
}

proof fn lemma_utf8_len_bound(s: Seq<char>)
    ensures
        utf8_len(s) <= 4 * s.len(),
    decreases s.len(),
{
    if s.len() > 0 {
        lemma_utf8_len_bound(s.drop_last());
    }
}

/// The UTF-8 length of `s` in bytes.
pub fn utf8_byte_len(s: &str) -> (r: u64)
    requires
        4 * s@.len() <= u64::MAX,
    ensures
        r as nat == utf8_len(s@),
{
    let cs = chars_of(s);
    let mut n: u64 = 0;
    let mut i: usize = 0;
    while i < cs.len()
        invariant
            i <= cs@.len(),
            cs@ == s@,
            4 * cs@.len() <= u64::MAX,
            n as nat == utf8_len(cs@.take(i as int)),
        decreases cs@.len() - i,
    {
        proof {
            assert(cs@.take(i + 1).drop_last() =~= cs@.take(i as int));
            lemma_utf8_len_bound(cs@.take(i as int));
        }
        let c = cs[i] as u32;
        let w: u64 = if c < 0x80 {
            1
        } else if c < 0x800 {
            2
        } else if c < 0x10000 {
            3
        } else {
            4
        };
        n = n + w;
        i = i + 1;
    }
    assert(cs@.take(cs@.len() as int) =~= cs@);
    n
}

/// The GET request for `path` on `host`.
pub open spec fn get_request_spec(path: Seq<char>, host: Seq<char>) -> Seq<char> {
    "GET "@ + path + " HTTP/1.0\r\nHost: "@ + host + "\r\nConnection: close\r\n\r\n"@
}

pub fn get_request(path: &str, host: &str) -> (r: String)
    ensures
        r@ == get_request_spec(path@, host@),
{
    let mut s = String::from_str("GET ");
    s.append(path);
    s.append(" HTTP/1.0\r\nHost: ");
    s.append(host);
    s.append("\r\nConnection: close\r\n\r\n");
    s
}

/// The POST request carrying the UTF-8 `body` to `path` on `host`.
pub open spec fn post_request_spec(path: Seq<char>, host: Seq<char>, body: Seq<char>) -> Seq<char> {
    "POST "@ + path + " HTTP/1.0\r\nHost: "@ + host + "\r\nContent-Type: application/json\r\nContent-Length: "@
        + decimal(utf8_len(body)) + "\r\nConnection: close\r\n\r\n"@ + body
}

pub fn post_request(path: &str, host: &str, body: &str) -> (r: String)
    requires
        4 * body@.len() <= u64::MAX,
    ensures
        r@ == post_request_spec(path@, host@, body@),
{
    let mut s = String::from_str("POST ");
    s.append(path);
    s.append(" HTTP/1.0\r\nHost: ");
    s.append(host);
    s.append("\r\nContent-Type: application/json\r\nContent-Length: ");
    let n = decimal_text(utf8_byte_len(body));
    s.append(n.as_str());
    s.append("\r\nConnection: close\r\n\r\n");
    s.append(body);
    s
}


/// What the server answers a pushed snapshot: a body that did not read as a
/// snapshot is a bad request (400) carrying the reason; otherwise the
/// workspace's merge answers with the merged snapshot's text (200), the
/// merge's refusal (409), or nothing because the app went away (503).
pub fn push_answer(reply: Result<Option<Result<String, String>>, String>) -> (r: (u16, String))
    ensures
        match reply {
            Err(e) => r.0 == 400 && r.1@ == e@,
            Ok(Some(Ok(merged))) => r.0 == 200 && r.1@ == merged@,
            Ok(Some(Err(e))) => r.0 == 409 && r.1@ == e@,
            Ok(None) => r.0 == 503 && r.1@ == "the app is shutting down"@,
        },
{
    match reply {
        Err(e) => (400, e),
        Ok(Some(Ok(merged))) => (200, merged),
        Ok(Some(Err(e))) => (409, e),
        Ok(None) => (503, String::from_str("the app is shutting down")),
    }
}

/// What the server answers a pairing request: a body that did not read as
/// device info is a bad request (400); an accepted pairing is 200 "ok";
/// anything else (refused, or the app went away) is 503 "pairing refused".
pub fn pair_answer(reply: Result<Option<bool>, String>) -> (r: (u16, String))
    ensures
        match reply {
            Err(e) => r.0 == 400 && r.1@ == e@,
            Ok(Some(true)) => r.0 == 200 && r.1@ == "ok"@,
            Ok(_) => r.0 == 503 && r.1@ == "pairing refused"@,
        },
{
    match reply {
        Err(e) => (400, e),
        Ok(Some(true)) => (200, String::from_str("ok")),
        Ok(_) => (503, String::from_str("pairing refused")),
    }
}

} // verus!
