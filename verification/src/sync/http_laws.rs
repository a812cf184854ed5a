//! The two ends of the sync exchange agree: the head an answer carries, read
//! line by line the way the client reads it, gives back the status and the
//! length the server wrote, and ends where the server ended it; a request,
//! read the way the server reads it, gives back the method, the path and the
//! body's length.

use vstd::prelude::*;

use crate::sync::http::{
    get_request_spec, header_spec, post_request_spec, reason_spec, response_head_spec, strip, utf8_len, word,
    words, HeaderLine,
};
use crate::text::{
    decimal, is_digit, lemma_decimal_digits, lemma_decimal_reads_back, parse_unsigned,
    trim, trim_back, trim_front, white_space,
};

verus! {

/// A string whose last character is not white space has a word.
proof fn lemma_words_nonempty(s: Seq<char>)
    requires
        s.len() > 0,
        !white_space(s.last()),
    ensures
        words(s).len() > 0,
{
}

/// A string that ends in white space splits where it ends.
proof fn lemma_words_concat(a: Seq<char>, b: Seq<char>)
    requires
        a.len() > 0,
        white_space(a.last()),
    ensures
        words(a + b) == words(a) + words(b),
    decreases b.len(),
{
    if b.len() == 0 {
        assert(a + b =~= a);
        assert(words(b) =~= Seq::<Seq<char>>::empty());
        assert(words(a) + words(b) =~= words(a));
    } else {
        let b1 = b.drop_last();
        let c = b.last();
        lemma_words_concat(a, b1);
        let ab = a + b;
        assert(ab.drop_last() =~= a + b1);
        assert(ab.last() == c);
        let prev = words(a + b1);
        if white_space(c) {
        } else if b1.len() == 0 {
            assert(ab[ab.len() - 2] == a.last());
            assert(b1 =~= Seq::<char>::empty());
            assert(words(b1) =~= Seq::<Seq<char>>::empty());
            assert(words(ab) == prev.push(seq![c]));
            assert(words(b) == words(b1).push(seq![c]));
            assert(words(ab) =~= words(a) + words(b));
        } else {
            assert(ab[ab.len() - 2] == b1.last());
            assert(b[b.len() - 2] == b1.last());
            if !white_space(b1.last()) {
                lemma_words_nonempty(b1);
                let wb1 = words(b1);
                assert(prev == words(a) + wb1);
                assert(prev.len() > 0);
                assert(prev.last() == wb1.last());
                assert(words(ab) == prev.update(prev.len() - 1, prev.last().push(c)));
                assert(words(b) == wb1.update(wb1.len() - 1, wb1.last().push(c)));
                assert(words(ab) =~= words(a) + words(b));
            } else {
                assert(words(ab) == prev.push(seq![c]));
                assert(words(b) == words(b1).push(seq![c]));
                assert(words(ab) =~= words(a) + words(b));
            }
        }
    }
}

/// A run of characters none of which is white space is one word.
proof fn lemma_words_single(w: Seq<char>)
    requires
        w.len() > 0,
        forall|i: int| 0 <= i < w.len() ==> !white_space(#[trigger] w[i]),
    ensures
        words(w) == seq![w],
    decreases w.len(),
{
    let w1 = w.drop_last();
    if w1.len() == 0 {
        assert(w1 =~= Seq::<char>::empty());
        assert(words(w1) =~= Seq::<Seq<char>>::empty());
        assert(!white_space(w[0]));
        assert(words(w) == words(w1).push(seq![w.last()]));
        assert(seq![w.last()] =~= w);
    } else {
        assert forall|i: int| 0 <= i < w1.len() implies !white_space(#[trigger] w1[i]) by {
            assert(w1[i] == w[i]);
        }
        lemma_words_single(w1);
        assert(!white_space(w[w.len() - 1]));
        assert(!white_space(w[w.len() - 2]));
        assert(w1.push(w.last()) =~= w);
    }
}

/// Two line ends come off the back of a line.
proof fn lemma_trim_back_line_end(x: Seq<char>)
    requires
        x.len() > 0,
        !white_space(x.last()),
    ensures
        trim_back(x + "\r\n"@) == x,
{
    reveal_strlit("\r\n");
    let y = x + "\r\n"@;
    assert(y.drop_last() =~= x.push('\r'));
    assert(x.push('\r').drop_last() =~= x);
    assert(trim_back(x.push('\r')) == trim_back(x));
}

/// A number written in decimal is one word.
proof fn lemma_decimal_word(n: nat)
    ensures
        decimal(n).len() > 0,
        forall|i: int| 0 <= i < decimal(n).len() ==> !white_space(#[trigger] decimal(n)[i]),
        !white_space(decimal(n).last()),
{
    lemma_decimal_digits(n);
    assert forall|i: int| 0 <= i < decimal(n).len() implies !white_space(#[trigger] decimal(n)[i]) by {
        assert(is_digit(decimal(n)[i]));
    }
    assert(!white_space(decimal(n)[decimal(n).len() - 1]));
}

/// A `Content-Length` line written for `len` reads back as `len`.
proof fn lemma_length_line_reads_back(len: nat)
    requires
        len <= usize::MAX,
    ensures
        header_spec("Content-Length: "@ + decimal(len) + "\r\n"@) == (HeaderLine::ContentLength(None), Some(len)),
{
    reveal_strlit("Content-Length: ");
    reveal_strlit("Content-Length:");
    reveal_strlit(" ");
    reveal_strlit("\r\n");
    let n = decimal(len);
    lemma_decimal_word(len);
    lemma_decimal_reads_back(len, usize::MAX as nat);
    let l = "Content-Length: "@ + n;
    assert("Content-Length: "@ + n + "\r\n"@ =~= l + "\r\n"@);
    assert(l.last() == n.last());
    lemma_trim_back_line_end(l);
    assert("Content-Length:"@.is_prefix_of(l));
    let v = l.skip(15);
    assert(v =~= " "@ + n);
    assert(strip(l, "Content-Length:"@) == Some(v));
    assert(v.drop_first() =~= n);
    assert(trim_front(v) == trim_front(n));
    assert(trim_front(n) == n);
    assert(trim_back(n) == n);
    assert(trim(v) == n);
}

/// The first two words of `verb + " " + target + " " + rest` are the verb
/// and the target, when neither holds white space.
proof fn lemma_two_words(verb: Seq<char>, target: Seq<char>, rest: Seq<char>)
    requires
        verb.len() > 0,
        target.len() > 0,
        forall|i: int| 0 <= i < verb.len() ==> !white_space(#[trigger] verb[i]),
        forall|i: int| 0 <= i < target.len() ==> !white_space(#[trigger] target[i]),
    ensures
        word(verb + " "@ + target + " "@ + rest, 0) == verb,
        word(verb + " "@ + target + " "@ + rest, 1) == target,
{
    reveal_strlit(" ");
    let a = verb + " "@;
    let b = target + " "@;
    let line = verb + " "@ + target + " "@ + rest;
    assert(line =~= a + (b + rest));
    assert(a.last() == ' ');
    lemma_words_concat(a, b + rest);
    assert(b.last() == ' ');
    lemma_words_concat(b, rest);
    assert(a.drop_last() =~= verb);
    assert(words(a) == words(a.drop_last()));
    lemma_words_single(verb);
    assert(b.drop_last() =~= target);
    assert(words(b) == words(b.drop_last()));
    lemma_words_single(target);
    assert(words(line) =~= seq![verb] + (seq![target] + words(rest)));
}

/// The client reads the head an answer carries as the server wrote it: the
/// status line's second word is the status code; the type and connection
/// lines are headers the client passes over; the length line gives the body
/// length; and the blank line ends the head.
pub proof fn lemma_answer_head_reads_back(status: u16, len: nat)
    requires
        len <= usize::MAX,
    ensures
        ({
            let status_line = "HTTP/1.0 "@ + decimal(status as nat) + " "@ + reason_spec(status) + "\r\n"@;
            let type_line = "Content-Type: application/octet-stream\r\n"@;
            let length_line = "Content-Length: "@ + decimal(len) + "\r\n"@;
            let close_line = "Connection: close\r\n"@;
            &&& response_head_spec(status, len) == status_line + type_line + length_line + close_line + "\r\n"@
            &&& parse_unsigned(word(status_line, 1), u16::MAX as nat) == Some(status as nat)
            &&& header_spec(type_line).0 is Other
            &&& header_spec(length_line) == (HeaderLine::ContentLength(None), Some(len))
            &&& header_spec(close_line).0 is Other
            &&& header_spec("\r\n"@).0 is End
        }),
{
    reveal_strlit("HTTP/1.0 ");
    reveal_strlit(" ");
    reveal_strlit("\r\n");
    reveal_strlit("Content-Type: application/octet-stream\r\n");
    reveal_strlit("Content-Length: ");
    reveal_strlit("Content-Length:");
    reveal_strlit("content-length:");
    reveal_strlit("Connection: close\r\n");
    reveal_strlit("\r\nContent-Type: application/octet-stream\r\nContent-Length: ");
    reveal_strlit("\r\nConnection: close\r\n\r\n");
    reveal_strlit("HTTP/1.0");
    reveal_strlit("Content-Type: application/octet-stream");
    reveal_strlit("Connection: close");
    let d = decimal(status as nat);
    let n = decimal(len);
    let status_line = "HTTP/1.0 "@ + d + " "@ + reason_spec(status) + "\r\n"@;
    let type_line = "Content-Type: application/octet-stream\r\n"@;
    let length_line = "Content-Length: "@ + n + "\r\n"@;
    let close_line = "Connection: close\r\n"@;

    // the head, line by line
    assert("\r\nContent-Type: application/octet-stream\r\nContent-Length: "@ =~= "\r\n"@ + type_line + "Content-Length: "@);
    assert("\r\nConnection: close\r\n\r\n"@ =~= "\r\n"@ + close_line + "\r\n"@);
    assert(response_head_spec(status, len) =~= status_line + type_line + length_line + close_line + "\r\n"@);

    // the status line's words
    lemma_decimal_word(status as nat);
    lemma_decimal_reads_back(status as nat, u16::MAX as nat);
    let a = "HTTP/1.0 "@;
    let b = d + " "@;
    let rest = reason_spec(status) + "\r\n"@;
    assert(status_line =~= a + (b + rest));
    assert(a.last() == ' ');
    lemma_words_concat(a, b + rest);
    assert(b.last() == ' ');
    lemma_words_concat(b, rest);
    assert(a.drop_last() =~= "HTTP/1.0"@);
    assert(words(a) == words(a.drop_last()));
    assert forall|i: int| 0 <= i < a.drop_last().len() implies !white_space(#[trigger] a.drop_last()[i]) by {}
    lemma_words_single(a.drop_last());
    assert(b.drop_last() =~= d);
    assert(words(b) == words(d));
    lemma_words_single(d);
    assert(words(status_line) =~= seq![a.drop_last()] + (seq![d] + words(rest)));
    assert(word(status_line, 1) == d);

    // the type and connection lines
    assert(type_line =~= "Content-Type: application/octet-stream"@ + "\r\n"@);
    lemma_trim_back_line_end("Content-Type: application/octet-stream"@);
    assert(("Content-Length:"@)[8] != ("Content-Type: application/octet-stream"@)[8]);
    assert(("content-length:"@)[0] != ("Content-Type: application/octet-stream"@)[0]);
    assert(strip("Content-Type: application/octet-stream"@, "Content-Length:"@) is None);
    assert(strip("Content-Type: application/octet-stream"@, "content-length:"@) is None);
    assert(close_line =~= "Connection: close"@ + "\r\n"@);
    lemma_trim_back_line_end("Connection: close"@);
    assert(("Content-Length:"@)[3] != ("Connection: close"@)[3]);
    assert(("content-length:"@)[0] != ("Connection: close"@)[0]);
    assert(strip("Connection: close"@, "Content-Length:"@) is None);
    assert(strip("Connection: close"@, "content-length:"@) is None);

    // the length line
    lemma_length_line_reads_back(len);

    // the blank line
    let e = "\r\n"@;
    assert(e.drop_last().drop_last() =~= Seq::<char>::empty());
    assert(e.last() == '\n' && white_space('\n'));
    assert(e.drop_last().last() == '\r' && white_space('\r'));
    assert(trim_back(e.drop_last().drop_last()) == Seq::<char>::empty());
    assert(trim_back(e.drop_last()) == trim_back(e.drop_last().drop_last()));
    assert(trim_back(e) == trim_back(e.drop_last()));
    assert(trim_back(e).len() == 0);
}

/// The server reads the request the client writes: the request line's first
/// two words are the method and the path (a path without white space, as
/// the sync endpoints are), and a POST's length line gives the body's length
/// in bytes.
pub proof fn lemma_request_reads_back(path: Seq<char>, host: Seq<char>, body: Seq<char>)
    requires
        path.len() > 0,
        forall|i: int| 0 <= i < path.len() ==> !white_space(#[trigger] path[i]),
        utf8_len(body) <= usize::MAX,
    ensures
        ({
            let get_line = "GET "@ + path + " HTTP/1.0\r\n"@;
            let post_line = "POST "@ + path + " HTTP/1.0\r\n"@;
            let length_line = "Content-Length: "@ + decimal(utf8_len(body)) + "\r\n"@;
            &&& get_request_spec(path, host) == get_line + "Host: "@ + host + "\r\n"@ + "Connection: close\r\n"@ + "\r\n"@
            &&& post_request_spec(path, host, body) == post_line + "Host: "@ + host + "\r\n"@
                + "Content-Type: application/json\r\n"@ + length_line + "Connection: close\r\n"@ + "\r\n"@ + body
            &&& word(get_line, 0) == "GET"@
            &&& word(get_line, 1) == path
            &&& word(post_line, 0) == "POST"@
            &&& word(post_line, 1) == path
            &&& header_spec(length_line) == (HeaderLine::ContentLength(None), Some(utf8_len(body)))
        }),
{
    reveal_strlit("GET ");
    reveal_strlit("GET");
    reveal_strlit("POST ");
    reveal_strlit("POST");
    reveal_strlit(" ");
    reveal_strlit(" HTTP/1.0\r\n");
    reveal_strlit("HTTP/1.0\r\n");
    reveal_strlit(" HTTP/1.0\r\nHost: ");
    reveal_strlit("Host: ");
    reveal_strlit("\r\n");
    reveal_strlit("\r\nConnection: close\r\n\r\n");
    reveal_strlit("Connection: close\r\n");
    reveal_strlit("\r\nContent-Type: application/json\r\nContent-Length: ");
    reveal_strlit("Content-Type: application/json\r\n");
    reveal_strlit("Content-Length: ");
    let get_line = "GET "@ + path + " HTTP/1.0\r\n"@;
    let post_line = "POST "@ + path + " HTTP/1.0\r\n"@;
    let n = decimal(utf8_len(body));
    let length_line = "Content-Length: "@ + n + "\r\n"@;

    assert(" HTTP/1.0\r\nHost: "@ =~= " HTTP/1.0\r\n"@ + "Host: "@);
    assert("\r\nConnection: close\r\n\r\n"@ =~= "\r\n"@ + "Connection: close\r\n"@ + "\r\n"@);
    assert("\r\nContent-Type: application/json\r\nContent-Length: "@ =~= "\r\n"@ + "Content-Type: application/json\r\n"@ + "Content-Length: "@);
    assert(get_request_spec(path, host) =~= get_line + "Host: "@ + host + "\r\n"@ + "Connection: close\r\n"@ + "\r\n"@);
    assert(post_request_spec(path, host, body) =~= post_line + "Host: "@ + host + "\r\n"@
        + "Content-Type: application/json\r\n"@ + length_line + "Connection: close\r\n"@ + "\r\n"@ + body);

    assert forall|i: int| 0 <= i < ("GET"@).len() implies !white_space(#[trigger] ("GET"@)[i]) by {}
    assert forall|i: int| 0 <= i < ("POST"@).len() implies !white_space(#[trigger] ("POST"@)[i]) by {}
    assert(get_line =~= "GET"@ + " "@ + path + " "@ + "HTTP/1.0\r\n"@);
    lemma_two_words("GET"@, path, "HTTP/1.0\r\n"@);
    assert(post_line =~= "POST"@ + " "@ + path + " "@ + "HTTP/1.0\r\n"@);
    lemma_two_words("POST"@, path, "HTTP/1.0\r\n"@);
    lemma_length_line_reads_back(utf8_len(body));
}

} // verus!
