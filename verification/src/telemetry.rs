//! The event log's lines and the loopback metrics answer.

use vstd::prelude::*;

use crate::text;

verus! {

/// Bytes beyond which the event log is moved aside.
pub const LOG_LIMIT: u64 = 1_000_000;

/// Bytes beyond which a metrics request is read no further.
pub const REQUEST_LIMIT: usize = 4096;

/// Content type of the metrics text.
pub const CONTENT_TYPE: &'static str = "text/plain; version=0.0.4; charset=utf-8";

/// Whether the event log is to be moved aside before the next line.
pub fn rotates(size: u64) -> (r: bool)
    ensures
        r == (size > LOG_LIMIT),
{
    size > LOG_LIMIT
}

/// A line of the event log: one JSON object. Double quotes in the detail are
/// written as single ones.
pub open spec fn event_of(ts: nat, kind: Seq<char>, detail: Seq<char>) -> Seq<char> {
    "{\"ts\":"@ + text::decimal(ts) + ",\"kind\":\""@ + kind + "\",\"detail\":\""@
        + text::replaced(detail, '"', "'"@) + "\"}"@
}

/// Writes a line of the event log.
pub fn event_line(ts: u64, kind: &str, detail: &str) -> (r: String)
    ensures
        r@ == event_of(ts as nat, kind@, detail@),
{
    let mut out = text::chars("{\"ts\":");
    let t = text::dec(ts);
    text::push_all(&mut out, t.as_slice());
    text::push_str(&mut out, ",\"kind\":\"");
    text::push_str(&mut out, kind);
    text::push_str(&mut out, "\",\"detail\":\"");
    let dc = text::chars(detail);
    let d = text::replace_char(dc.as_slice(), '"', "'");
    text::push_all(&mut out, d.as_slice());
    text::push_str(&mut out, "\"}");
    text::string(out.as_slice())
}

proof fn lemma_replaced_absent(s: Seq<char>, c: char, with: Seq<char>)
    requires
        forall|i: int| 0 <= i < with.len() ==> #[trigger] with[i] != c,
    ensures
        forall|i: int| 0 <= i < text::replaced(s, c, with).len() ==> #[trigger] text::replaced(
            s,
            c,
            with,
        )[i] != c,
    decreases s.len(),
{
    if s.len() > 0 {
        lemma_replaced_absent(s.drop_last(), c, with);
        let a = text::replaced(s.drop_last(), c, with);
        let b = if s.last() == c {
            with
        } else {
            seq![s.last()]
        };
        assert forall|i: int| 0 <= i < (a + b).len() implies #[trigger] (a + b)[i] != c by {
            if i < a.len() {
                assert((a + b)[i] == a[i]);
            } else {
                assert((a + b)[i] == b[i - a.len()]);
            }
        }
    }
}

/// A detail cannot close the string it is written into.
pub proof fn law_detail_stays_inside(detail: Seq<char>)
    ensures
        !text::replaced(detail, '"', "'"@).contains('"'),
{
    reveal_strlit("'");
    lemma_replaced_absent(detail, '"', "'"@);
}

/// Whether a request has been read far enough: a blank line, or too much.
pub fn request_done(buf: &Vec<u8>) -> (r: bool)
    ensures
        r == {
            let n = buf@.len() as int;
            ||| n >= 4 && buf@.subrange(n - 4, n) == seq![13u8, 10u8, 13u8, 10u8]
            ||| n >= 2 && buf@.subrange(n - 2, n) == seq![10u8, 10u8]
            ||| n > REQUEST_LIMIT
        },
{
    let n: usize = buf.len();
    if n > REQUEST_LIMIT {
        return true;
    }
    if n >= 2 && buf[n - 1] == 10 && buf[n - 2] == 10 {
        assert(buf@.subrange(n - 2, n as int) =~= seq![10u8, 10u8]);
        return true;
    }
    if n >= 4 && buf[n - 1] == 10 && buf[n - 2] == 13 && buf[n - 3] == 10 && buf[n - 4] == 13 {
        assert(buf@.subrange(n - 4, n as int) =~= seq![13u8, 10u8, 13u8, 10u8]);
        return true;
    }
    proof {
        if n >= 4 {
            let t = buf@.subrange(n - 4, n as int);
            assert(t[0] == buf@[n - 4] && t[1] == buf@[n - 3] && t[2] == buf@[n - 2] && t[3]
                == buf@[n - 1]);
        }
        if n >= 2 {
            let t = buf@.subrange(n - 2, n as int);
            assert(t[0] == buf@[n - 2] && t[1] == buf@[n - 1]);
        }
    }
    false
}

/// The path a request asks for; the root where it names none.
pub open spec fn path_of(req: Seq<char>) -> Seq<char> {
    let ws = text::words(req);
    if ws.len() >= 2 {
        ws[1]
    } else {
        "/"@
    }
}

/// The answer to a metrics request: the metrics under their path, else a
/// not-found. The length is that of the body in bytes.
pub open spec fn answer_of(req: Seq<char>, metrics: Seq<char>) -> Seq<char> {
    let found = text::has_prefix(path_of(req), "/metrics"@);
    let status = if found {
        "200 OK"@
    } else {
        "404 Not Found"@
    };
    let body = if found {
        metrics
    } else {
        "not found\n"@
    };
    "HTTP/1.0 "@ + status + "\r\ncontent-type: "@ + CONTENT_TYPE@ + "\r\ncontent-length: "@
        + text::decimal(vstd::utf8::encode_utf8(body).len()) + "\r\nconnection: close\r\n\r\n"@
        + body
}

/// Answers a request that is already text.
pub fn metrics_answer(req: &str, metrics: &str) -> (r: String)
    ensures
        r@ == answer_of(req@, metrics@),
{
    let cs = text::chars(req);
    let ws = text::split_words(cs.as_slice());
    assert(text::views(ws@).len() == ws@.len());
    let found = if ws.len() >= 2 {
        assert(text::views(ws@)[1] == ws@[1]@);
        text::starts_with_str(ws[1].as_slice(), "/metrics")
    } else {
        proof {
            reveal_strlit("/");
            reveal_strlit("/metrics");
        }
        assert("/"@.len() < "/metrics"@.len());
        false
    };
    let status = if found {
        "200 OK"
    } else {
        "404 Not Found"
    };
    let body = if found {
        metrics
    } else {
        "not found\n"
    };
    let mut out = text::chars("HTTP/1.0 ");
    text::push_str(&mut out, status);
    text::push_str(&mut out, "\r\ncontent-type: ");
    text::push_str(&mut out, CONTENT_TYPE);
    text::push_str(&mut out, "\r\ncontent-length: ");
    let n = text::dec(body.as_bytes().len() as u64);
    text::push_all(&mut out, n.as_slice());
    text::push_str(&mut out, "\r\nconnection: close\r\n\r\n");
    text::push_str(&mut out, body);
    text::string(out.as_slice())
}

/// Answers the bytes of a metrics request.
pub fn metrics_http_serve(req: &[u8], metrics: &str) -> (r: String)
    ensures
        r@ == answer_of(text::lossy(req@), metrics@),
{
    let t = text::from_utf8_lossy(req);
    metrics_answer(t.as_str(), metrics)
}

/// Law: a line of the event log reads back. Cut at its double quotes it holds
/// the time in digits behind `ts`, the kind behind `kind` and the detail
/// behind `detail`, its own double quotes turned into single ones.
#[verifier::spinoff_prover]
#[verifier::rlimit(60)]
pub proof fn law_event_reads_back(ts: nat, kind: Seq<char>, detail: Seq<char>)
    requires
        !kind.contains('"'),
    ensures
        ({
            let p = text::split(event_of(ts, kind, detail), '"');
            &&& p.len() == 11
            &&& p[1] == "ts"@ && p[2] == ":"@ + text::decimal(ts) + ","@
            &&& p[3] == "kind"@ && p[5] == kind
            &&& p[7] == "detail"@ && p[9] == text::replaced(detail, '"', "'"@)
            &&& p[0] == "{"@ && p[10] == "}"@
        }),
{
    reveal_strlit("{\"ts\":");
    reveal_strlit(",\"kind\":\"");
    reveal_strlit("\",\"detail\":\"");
    reveal_strlit("\"}");
    reveal_strlit("ts");
    reveal_strlit("kind");
    reveal_strlit("detail");
    reveal_strlit("{");
    reveal_strlit("}");
    reveal_strlit(":");
    reveal_strlit(",");
    let q = seq!['"'];
    let d = text::replaced(detail, '"', "'"@);
    let t = text::decimal(ts);
    law_detail_stays_inside(detail);
    text::lemma_decimal_value(ts);
    if t.contains('"') {
        let i = choose|i: int| 0 <= i < t.len() && t[i] == '"';
        assert(text::is_digit(t[i]));
    }
    let p2 = ":"@ + t + ","@;
    if p2.contains('"') {
        let i = choose|i: int| 0 <= i < p2.len() && p2[i] == '"';
        assert(0 < i < p2.len() - 1);
        assert(t[i - 1] == '"');
    }
    let a = seq!["{"@, "ts"@, p2, "kind"@, ":"@];
    let b = seq![kind, ","@, "detail"@, ":"@, d, "}"@];
    let p = a + b;
    lemma_five("{"@, "ts"@, p2, "kind"@, ":"@);
    lemma_five(kind, ","@, "detail"@, ":"@, d);
    let b5 = seq![kind, ","@, "detail"@, ":"@, d];
    assert(b.drop_last() =~= b5);
    text::law_joined(a, b, q);
    let e = event_of(ts, kind, detail);
    assert("{\"ts\":"@ =~= "{"@ + q + "ts"@ + q + ":"@);
    assert(",\"kind\":\""@ =~= ","@ + q + "kind"@ + q + ":"@ + q);
    assert("\",\"detail\":\""@ =~= q + ","@ + q + "detail"@ + q + ":"@ + q);
    assert("\"}"@ =~= q + "}"@);
    assert(e =~= text::joined(p, q));
    assert forall|k: int| 0 <= k < p.len() implies !(#[trigger] p[k]).contains('"') by {
        if k < 5 {
            assert(p[k] == a[k]);
        } else {
            assert(p[k] == b[k - 5]);
        }
    }
    text::lemma_joined_split(p, '"');
}

proof fn lemma_five(
    p1: Seq<char>,
    p2: Seq<char>,
    p3: Seq<char>,
    p4: Seq<char>,
    p5: Seq<char>,
)
    ensures
        ({
            let q = seq!['"'];
            text::joined(seq![p1, p2, p3, p4, p5], q) == p1 + q + p2 + q + p3 + q + p4 + q + p5
        }),
{
    let q = seq!['"'];
    let s5 = seq![p1, p2, p3, p4, p5];
    let s4 = seq![p1, p2, p3, p4];
    let s3 = seq![p1, p2, p3];
    let s2 = seq![p1, p2];
    let s1 = seq![p1];
    assert(s5.drop_last() =~= s4);
    assert(s4.drop_last() =~= s3);
    assert(s3.drop_last() =~= s2);
    assert(s2.drop_last() =~= s1);
    assert(text::joined(s1, q) == p1);
    assert(text::joined(s2, q) == p1 + q + p2);
    assert(text::joined(s3, q) == text::joined(s2, q) + q + p3);
    assert(text::joined(s4, q) == text::joined(s3, q) + q + p4);
    assert(text::joined(s5, q) == text::joined(s4, q) + q + p5);
}

/// Law: under a path that begins with `/metrics` the metrics are the body, and
/// under every other path nothing is found; a request that names no path asks
/// for the root. The body comes last, and its length in bytes is announced.
pub proof fn law_metrics_answer(req: Seq<char>, metrics: Seq<char>)
    ensures
        ({
            let a = answer_of(req, metrics);
            let found = text::words(req).len() >= 2 && text::has_prefix(
                text::words(req)[1],
                "/metrics"@,
            );
            let body = if found {
                metrics
            } else {
                "not found\n"@
            };
            let announced = "\r\ncontent-length: "@ + text::decimal(
                vstd::utf8::encode_utf8(body).len(),
            ) + "\r\nconnection: close\r\n\r\n"@ + body;
            &&& text::has_prefix(
                a,
                if found {
                    "HTTP/1.0 200 OK\r\n"@
                } else {
                    "HTTP/1.0 404 Not Found\r\n"@
                },
            )
            &&& text::has_suffix(a, announced)
        }),
{
    reveal_strlit("/");
    reveal_strlit("/metrics");
    reveal_strlit("HTTP/1.0 ");
    reveal_strlit("200 OK");
    reveal_strlit("404 Not Found");
    reveal_strlit("\r\ncontent-type: ");
    reveal_strlit("HTTP/1.0 200 OK\r\n");
    reveal_strlit("HTTP/1.0 404 Not Found\r\n");
    let a = answer_of(req, metrics);
    let found = text::words(req).len() >= 2 && text::has_prefix(
        text::words(req)[1],
        "/metrics"@,
    );
    assert("/"@.len() < "/metrics"@.len());
    let body = if found {
        metrics
    } else {
        "not found\n"@
    };
    let announced = "\r\ncontent-length: "@ + text::decimal(vstd::utf8::encode_utf8(body).len())
        + "\r\nconnection: close\r\n\r\n"@ + body;
    let head = if found {
        "HTTP/1.0 200 OK\r\n"@
    } else {
        "HTTP/1.0 404 Not Found\r\n"@
    };
    assert(a.subrange(0, head.len() as int) =~= head);
    assert(a.subrange(a.len() - announced.len(), a.len() as int) =~= announced);
}

} // verus!
