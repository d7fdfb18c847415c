//! The request builder: the bytes of one HTTP/1.1 GET or POST request.

use vstd::prelude::*;

use crate::response::{
    body_of, digits_value, feeds_closed, head_of, lemma_feeds_closed_concat, lemma_first_sep,
    lemma_lines_cons, lemma_lines_single, lemma_no_feed_closed, lines,
};
use crate::text::string_of;
use crate::{HttpClient, HttpMethod};

verus! {

/// The character of a decimal digit.
pub open spec fn digit_char(d: nat) -> char {
    if d == 0 {
        '0'
    } else if d == 1 {
        '1'
    } else if d == 2 {
        '2'
    } else if d == 3 {
        '3'
    } else if d == 4 {
        '4'
    } else if d == 5 {
        '5'
    } else if d == 6 {
        '6'
    } else if d == 7 {
        '7'
    } else if d == 8 {
        '8'
    } else {
        '9'
    }
}

/// The character of a decimal digit.
fn digit(d: usize) -> (c: char)
    requires
        d < 10,
    ensures
        c == digit_char(d as nat),
{
    if d == 0 {
        '0'
    } else if d == 1 {
        '1'
    } else if d == 2 {
        '2'
    } else if d == 3 {
        '3'
    } else if d == 4 {
        '4'
    } else if d == 5 {
        '5'
    } else if d == 6 {
        '6'
    } else if d == 7 {
        '7'
    } else if d == 8 {
        '8'
    } else {
        '9'
    }
}

/// The decimal form of `n`: its digits, most significant first, with no
/// leading zero.
pub open spec fn decimal_of(n: nat) -> Seq<char>
    decreases n,
{
    if n < 10 {
        seq![digit_char(n)]
    } else {
        decimal_of(n / 10).push(digit_char(n % 10))
    }
}

/// The decimal form of a number reads back as that number.
pub proof fn lemma_decimal_value(n: nat)
    ensures
        digits_value(decimal_of(n)) == n,
        decimal_of(n).len() > 0,
        forall|i: int|
            0 <= i < decimal_of(n).len() ==> '0' <= #[trigger] decimal_of(n)[i] <= '9',
    decreases n,
{
    assert(digit_char(n % 10) as nat == n % 10 + '0' as nat);
    if n < 10 {
        assert(seq![digit_char(n)].drop_last() =~= Seq::<char>::empty());
        assert(seq![digit_char(n)].last() == digit_char(n));
        assert(digits_value(Seq::<char>::empty()) == 0);
    } else {
        lemma_decimal_value(n / 10);
        assert(decimal_of(n).last() == digit_char(n % 10));
        assert(n == (n / 10) * 10 + n % 10);
        assert(decimal_of(n).drop_last() =~= decimal_of(n / 10));
        let s = decimal_of(n);
        assert forall|i: int| 0 <= i < s.len() implies '0' <= #[trigger] s[i] <= '9' by {
            if i < s.len() - 1 {
                assert(s[i] == decimal_of(n / 10)[i]);
            }
        }
    }
}

/// The text of a request.  A GET request carries no body and no content
/// headers; a POST request carries `body` as JSON, with `body_len`, its
/// length in bytes, as its content length.
pub open spec fn request_text(
    method: HttpMethod,
    host: Seq<char>,
    path: Seq<char>,
    body: Seq<char>,
    body_len: nat,
) -> Seq<char> {
    match method {
        HttpMethod::GET => "GET "@ + path + " HTTP/1.1\r\nHost: "@ + host
            + "\r\nUser-Agent: mini-http-client/0.1.0\r\nConnection: close\r\n\r\n"@,
        HttpMethod::POST => "POST "@ + path + " HTTP/1.1\r\nHost: "@ + host
            + "\r\nUser-Agent: mini-http-client/0.1.0\r\nContent-Type: application/json\r\nContent-Length: "@
            + decimal_of(body_len) + "\r\nConnection: close\r\n\r\n"@ + body,
    }
}

/// The body text that a request carries: the JSON text where one is given,
/// else nothing.
pub open spec fn body_text(json_body: Option<&str>) -> Seq<char> {
    match json_body {
        Some(b) => b@,
        None => Seq::empty(),
    }
}

/// The length in bytes of the body text that a request carries.
pub open spec fn body_len(json_body: Option<&str>) -> nat {
    match json_body {
        Some(b) => b.len() as nat,
        None => 0,
    }
}

/// The digits of `n` in decimal.
fn decimal_digits(n: usize) -> (r: Vec<char>)
    ensures
        r@ == decimal_of(n as nat),
    decreases n,
{
    if n < 10 {
        vec![digit(n)]
    } else {
        let mut v = decimal_digits(n / 10);
        v.push(digit(n % 10));
        v
    }
}

impl HttpClient {
    /// Builds the text of a request for `full_path` (path and query) on
    /// `host`.  A POST request carries `json_body`, or an empty body where
    /// there is none; a GET request carries no body.
    pub fn build_request(
        method: HttpMethod,
        host: &str,
        full_path: &str,
        json_body: Option<&str>,
    ) -> (r: String)
        ensures
            r@ == request_text(method, host@, full_path@, body_text(json_body), body_len(json_body)),
    {
        match method {
            HttpMethod::GET => {
                let mut req = String::from_str("GET ");
                req.append(full_path);
                req.append(" HTTP/1.1\r\nHost: ");
                req.append(host);
                req.append("\r\nUser-Agent: mini-http-client/0.1.0\r\nConnection: close\r\n\r\n");
                req
            },
            HttpMethod::POST => {
                let body: &str = match json_body {
                    Some(b) => b,
                    None => "",
                };
                proof {
                    reveal_strlit("");
                }
                assert(body@ == body_text(json_body));
                assert(body.len() as nat == body_len(json_body));
                let digits = decimal_digits(body.len());
                let len_text = string_of(&digits, 0, digits.len());
                assert(digits@.subrange(0, digits@.len() as int) =~= digits@);
                let mut req = String::from_str("POST ");
                req.append(full_path);
                req.append(" HTTP/1.1\r\nHost: ");
                req.append(host);
                req.append(
                    "\r\nUser-Agent: mini-http-client/0.1.0\r\nContent-Type: application/json\r\nContent-Length: ",
                );
                req.append(len_text.as_str());
                req.append("\r\nConnection: close\r\n\r\n");
                req.append(body);
                req
            },
        }
    }
}

} // verus!

verus! {

/// The header block of a POST request, up to its blank line.
pub open spec fn post_head(host: Seq<char>, path: Seq<char>, body_len: nat) -> Seq<char> {
    "POST "@ + path + " HTTP/1.1\r\nHost: "@ + host
        + "\r\nUser-Agent: mini-http-client/0.1.0\r\nContent-Type: application/json"@
        + "\r\nContent-Length: "@ + decimal_of(body_len) + "\r\nConnection: close"@
}

/// A POST request frames its body: what follows its first blank line is the
/// body text exactly (absent where that is empty), and its header block holds
/// a `Content-Length` line whose digits read back as the given byte length.
pub proof fn lemma_post_frames_body(host: Seq<char>, path: Seq<char>, body: Seq<char>, body_len: nat)
    requires
        forall|p: int| 0 <= p < host.len() ==> host[p] != '\n',
        forall|p: int| 0 <= p < path.len() ==> path[p] != '\n',
    ensures
        body_of(request_text(HttpMethod::POST, host, path, body, body_len)) == (if body.len() > 0 {
            Some(body)
        } else {
            None::<Seq<char>>
        }),
        exists|pre: Seq<char>, post: Seq<char>|
            head_of(request_text(HttpMethod::POST, host, path, body, body_len)) == pre
                + "\r\nContent-Length: "@ + decimal_of(body_len) + "\r\n"@ + post,
        digits_value(decimal_of(body_len)) == body_len,
        head_of(request_text(HttpMethod::POST, host, path, body, body_len)) == post_head(
            host,
            path,
            body_len,
        ),
{
    reveal_strlit("POST ");
    reveal_strlit(" HTTP/1.1\r\nHost: ");
    reveal_strlit(
        "\r\nUser-Agent: mini-http-client/0.1.0\r\nContent-Type: application/json\r\nContent-Length: ",
    );
    reveal_strlit("\r\nUser-Agent: mini-http-client/0.1.0\r\nContent-Type: application/json");
    reveal_strlit("\r\nContent-Length: ");
    reveal_strlit("\r\nConnection: close\r\n\r\n");
    reveal_strlit("\r\nConnection: close");
    reveal_strlit("Connection: close");
    reveal_strlit("\r\n\r\n");
    reveal_strlit("\r\n");
    lemma_decimal_value(body_len);
    let dec = decimal_of(body_len);
    let ua = "\r\nUser-Agent: mini-http-client/0.1.0\r\nContent-Type: application/json"@;
    let pre = "POST "@ + path + " HTTP/1.1\r\nHost: "@ + host + ua;
    let conn = "\r\nConnection: close"@;
    let head = pre + "\r\nContent-Length: "@ + dec + conn;
    let req = request_text(HttpMethod::POST, host, path, body, body_len);
    assert(ua + "\r\nContent-Length: "@ =~= "\r\nUser-Agent: mini-http-client/0.1.0\r\nContent-Type: application/json\r\nContent-Length: "@);
    assert(conn + "\r\n\r\n"@ =~= "\r\nConnection: close\r\n\r\n"@);
    assert(req =~= head + "\r\n\r\n"@ + body);
    lemma_no_feed_closed("POST "@);
    lemma_no_feed_closed(path);
    lemma_no_feed_closed(host);
    assert(feeds_closed(" HTTP/1.1\r\nHost: "@));
    assert(feeds_closed(ua));
    assert(feeds_closed("\r\nContent-Length: "@));
    assert(feeds_closed(conn));
    assert forall|p: int| 0 <= p < dec.len() implies #[trigger] dec[p] != '\n' by {
        assert('0' <= dec[p] <= '9');
    }
    lemma_no_feed_closed(dec);
    lemma_feeds_closed_concat("POST "@, path);
    lemma_feeds_closed_concat("POST "@ + path, " HTTP/1.1\r\nHost: "@);
    lemma_feeds_closed_concat("POST "@ + path + " HTTP/1.1\r\nHost: "@, host);
    lemma_feeds_closed_concat("POST "@ + path + " HTTP/1.1\r\nHost: "@ + host, ua);
    lemma_feeds_closed_concat(pre, "\r\nContent-Length: "@);
    lemma_feeds_closed_concat(pre + "\r\nContent-Length: "@, dec);
    lemma_feeds_closed_concat(pre + "\r\nContent-Length: "@ + dec, conn);
    lemma_first_sep(head, body);
    let post = "Connection: close"@;
    assert(head =~= pre + "\r\nContent-Length: "@ + dec + "\r\n"@ + post);
}

} // verus!

verus! {

/// Whether a line starts with a prefix.
pub open spec fn starts_with(l: Seq<char>, p: Seq<char>) -> bool {
    p.len() <= l.len() && l.subrange(0, p.len() as int) == p
}

/// The lines of a POST request's header block.
proof fn lemma_post_head_lines(host: Seq<char>, path: Seq<char>, body_len: nat)
    requires
        forall|p: int| 0 <= p < host.len() ==> host[p] != '\n',
        forall|p: int| 0 <= p < path.len() ==> path[p] != '\n',
    ensures
        lines(post_head(host, path, body_len)) == seq![
            "POST "@ + path + " HTTP/1.1"@,
            "Host: "@ + host,
            "User-Agent: mini-http-client/0.1.0"@,
            "Content-Type: application/json"@,
            "Content-Length: "@ + decimal_of(body_len),
            "Connection: close"@,
        ],
{
    reveal_strlit("POST ");
    reveal_strlit(" HTTP/1.1");
    reveal_strlit(" HTTP/1.1\r\nHost: ");
    reveal_strlit("Host: ");
    reveal_strlit("User-Agent: mini-http-client/0.1.0");
    reveal_strlit("Content-Type: application/json");
    reveal_strlit("Content-Length: ");
    reveal_strlit("Connection: close");
    reveal_strlit("\r\nUser-Agent: mini-http-client/0.1.0\r\nContent-Type: application/json");
    reveal_strlit("\r\nContent-Length: ");
    reveal_strlit("\r\nConnection: close");
    reveal_strlit("\r\n");
    lemma_decimal_value(body_len);
    let dec = decimal_of(body_len);
    let crlf = "\r\n"@;
    let l1 = "POST "@ + path + " HTTP/1.1"@;
    let l2 = "Host: "@ + host;
    let l3 = "User-Agent: mini-http-client/0.1.0"@;
    let l4 = "Content-Type: application/json"@;
    let l5 = "Content-Length: "@ + dec;
    let l6 = "Connection: close"@;
    assert(" HTTP/1.1\r\nHost: "@ =~= " HTTP/1.1"@ + crlf + "Host: "@);
    assert("\r\nUser-Agent: mini-http-client/0.1.0\r\nContent-Type: application/json"@
        =~= crlf + l3 + crlf + l4);
    assert("\r\nContent-Length: "@ =~= crlf + "Content-Length: "@);
    assert("\r\nConnection: close"@ =~= crlf + l6);
    let t5 = l5 + crlf + l6;
    let t4 = l4 + crlf + t5;
    let t3 = l3 + crlf + t4;
    let t2 = l2 + crlf + t3;
    let t1 = l1 + crlf + t2;
    assert(post_head(host, path, body_len) =~= t1);
    assert forall|k: int| 0 <= k < l1.len() implies l1[k] != '\n' by {
        if 5 <= k < 5 + path.len() {
            assert(l1[k] == path[k - 5]);
        }
    }
    assert forall|k: int| 0 <= k < l2.len() implies l2[k] != '\n' by {
        if 6 <= k {
            assert(l2[k] == host[k - 6]);
        }
    }
    assert forall|k: int| 0 <= k < l5.len() implies l5[k] != '\n' by {
        if 16 <= k {
            assert(l5[k] == dec[k - 16]);
            assert('0' <= dec[k - 16] <= '9');
        }
    }
    lemma_lines_single(l6);
    lemma_lines_cons(l5, l6);
    lemma_lines_cons(l4, t5);
    lemma_lines_cons(l3, t4);
    lemma_lines_cons(l2, t3);
    lemma_lines_cons(l1, t2);
    assert(lines(t1) =~= seq![l1, l2, l3, l4, l5, l6]);
}

/// The header block of a POST request is exactly its six lines, and exactly
/// one of them, the fifth, is a `Content-Length` line.
pub proof fn lemma_post_single_length(host: Seq<char>, path: Seq<char>, body: Seq<char>, body_len: nat)
    requires
        forall|p: int| 0 <= p < host.len() ==> host[p] != '\n',
        forall|p: int| 0 <= p < path.len() ==> path[p] != '\n',
    ensures
        lines(head_of(request_text(HttpMethod::POST, host, path, body, body_len))) == seq![
            "POST "@ + path + " HTTP/1.1"@,
            "Host: "@ + host,
            "User-Agent: mini-http-client/0.1.0"@,
            "Content-Type: application/json"@,
            "Content-Length: "@ + decimal_of(body_len),
            "Connection: close"@,
        ],
        forall|i: int|
            0 <= i < 6 ==> (starts_with(
                #[trigger] lines(head_of(request_text(HttpMethod::POST, host, path, body, body_len)))[i],
                "Content-Length:"@,
            ) <==> i == 4),
{
    lemma_post_frames_body(host, path, body, body_len);
    lemma_post_head_lines(host, path, body_len);
    reveal_strlit("POST ");
    reveal_strlit("Host: ");
    reveal_strlit("User-Agent: mini-http-client/0.1.0");
    reveal_strlit("Content-Type: application/json");
    reveal_strlit("Content-Length: ");
    reveal_strlit("Content-Length:");
    reveal_strlit("Connection: close");
    let l1 = "POST "@ + path + " HTTP/1.1"@;
    let l2 = "Host: "@ + host;
    let l3 = "User-Agent: mini-http-client/0.1.0"@;
    let l4 = "Content-Type: application/json"@;
    let l5 = "Content-Length: "@ + decimal_of(body_len);
    let l6 = "Connection: close"@;
    let p = "Content-Length:"@;
    assert(l5.subrange(0, 15) =~= p);
    assert(!starts_with(l1, p)) by {
        if starts_with(l1, p) {
            assert(l1.subrange(0, 15)[0] == l1[0]);
        }
    }
    assert(!starts_with(l2, p)) by {
        if starts_with(l2, p) {
            assert(l2.subrange(0, 15)[0] == l2[0]);
        }
    }
    assert(!starts_with(l3, p)) by {
        if starts_with(l3, p) {
            assert(l3.subrange(0, 15)[0] == l3[0]);
        }
    }
    assert(!starts_with(l4, p)) by {
        if starts_with(l4, p) {
            assert(l4.subrange(0, 15)[8] == l4[8]);
        }
    }
    assert(!starts_with(l6, p)) by {
        if starts_with(l6, p) {
            assert(l6.subrange(0, 15)[3] == l6[3]);
        }
    }
}

} // verus!
