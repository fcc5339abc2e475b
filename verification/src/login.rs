//! Browser sign-in: authorization code with a proof key (S256), a loopback
//! redirect, and the checks on what comes back.

use vstd::prelude::*;

use crate::addr::split_once_at;
use crate::crypto;
use crate::text;

verus! {

/// Preferred port of the redirect listener.
pub const REDIRECT_PORT: u16 = 27_555;

/// Seconds to wait for the redirect, and the least that can be set.
pub const WAIT_SECS: u64 = 180;

pub const MIN_WAIT_SECS: u64 = 30;

/// Client id where the controller names none.
pub const DEFAULT_CLIENT_ID: &'static str = "aztna-controller";

/// The challenge for a verifier: the URL-safe digest of its text.
pub open spec fn challenge_of(verifier: Seq<char>) -> Seq<char> {
    crypto::b64(crypto::sha256_of(vstd::utf8::encode_utf8(verifier)), true)
}

/// Computes the challenge for a verifier.
pub fn challenge(verifier: &str) -> (r: String)
    ensures
        r@ == challenge_of(verifier@),
{
    let d = crypto::sha256(verifier.as_bytes());
    crypto::base64url_encode(d.as_slice())
}

/// The single-use values of one sign-in.
#[derive(Debug)]
pub struct LoginSecrets {
    pub verifier: String,
    pub challenge: String,
    pub state: String,
    pub nonce: String,
}

/// Whether a text is the URL-safe encoding of `n` bytes.
pub open spec fn encodes(s: Seq<char>, n: nat) -> bool {
    exists|b: Seq<u8>| b.len() == n && #[trigger] crypto::b64(b, true) == s
}

/// Draws the values of one sign-in; none where the system has no randomness.
pub fn login_secrets() -> (r: Option<LoginSecrets>)
    ensures
        r matches Some(l) ==> {
            &&& encodes(l.verifier@, 48)
            &&& l.challenge@ == challenge_of(l.verifier@)
            &&& encodes(l.state@, 16)
            &&& encodes(l.nonce@, 16)
        },
{
    let vb = crypto::random_bytes::<48>();
    let sb = crypto::random_bytes::<16>();
    let nb = crypto::random_bytes::<16>();
    secrets_drawn(vb, sb, nb)
}

/// The values of one sign-in out of three draws; none where a draw failed.
pub fn secrets_drawn(vb: Option<[u8; 48]>, sb: Option<[u8; 16]>, nb: Option<[u8; 16]>) -> (r: Option<
    LoginSecrets,
>)
    ensures
        match (vb, sb, nb) {
            (Some(v), Some(s), Some(n)) => r matches Some(l) && {
                &&& l.verifier@ == crypto::b64(v@, true)
                &&& l.challenge@ == challenge_of(l.verifier@)
                &&& l.state@ == crypto::b64(s@, true)
                &&& l.nonce@ == crypto::b64(n@, true)
                &&& encodes(l.verifier@, 48)
                &&& encodes(l.state@, 16)
                &&& encodes(l.nonce@, 16)
            },
            _ => r is None,
        },
{
    match (vb, sb, nb) {
        (Some(v), Some(s), Some(n)) => Some(secrets_from(v, s, n)),
        _ => None,
    }
}

/// The values of one sign-in out of random bytes.
pub fn secrets_from(vb: [u8; 48], sb: [u8; 16], nb: [u8; 16]) -> (r: LoginSecrets)
    ensures
        r.verifier@ == crypto::b64(vb@, true),
        r.challenge@ == challenge_of(r.verifier@),
        r.state@ == crypto::b64(sb@, true),
        r.nonce@ == crypto::b64(nb@, true),
        encodes(r.verifier@, 48),
        encodes(r.state@, 16),
        encodes(r.nonce@, 16),
{
    let verifier = crypto::base64url_encode(vb.as_slice());
    let state = crypto::base64url_encode(sb.as_slice());
    let nonce = crypto::base64url_encode(nb.as_slice());
    let c = challenge(verifier.as_str());
    assert(crypto::b64(vb@, true) == verifier@);
    assert(crypto::b64(sb@, true) == state@);
    assert(crypto::b64(nb@, true) == nonce@);
    LoginSecrets { verifier, challenge: c, state, nonce }
}

/// The port to listen on: the setting where it is a port number.
pub fn redirect_port(setting: &Option<String>) -> (r: u16)
    ensures
        r == match *setting {
            Some(s) => match text::number(text::trimmed(s@), u16::MAX as nat) {
                Some(n) => n as u16,
                None => REDIRECT_PORT,
            },
            None => REDIRECT_PORT,
        },
{
    if let Some(s) = setting {
        let cs = text::chars(s.as_str());
        let t = text::trim(cs.as_slice());
        if let Some(n) = text::parse_number(t.as_slice(), u16::MAX as u64) {
            return n as u16;
        }
    }
    REDIRECT_PORT
}

/// Seconds to wait for the redirect: the setting where it is a number, but
/// never under the least.
pub fn wait_secs(setting: &Option<String>) -> (r: u64)
    ensures
        r == {
            let n = match *setting {
                Some(s) => match text::number(text::trimmed(s@), u64::MAX as nat) {
                    Some(n) => n as u64,
                    None => WAIT_SECS,
                },
                None => WAIT_SECS,
            };
            if n < MIN_WAIT_SECS {
                MIN_WAIT_SECS
            } else {
                n
            }
        },
{
    let mut n: u64 = WAIT_SECS;
    if let Some(s) = setting {
        let cs = text::chars(s.as_str());
        let t = text::trim(cs.as_slice());
        if let Some(v) = text::parse_number(t.as_slice(), u64::MAX) {
            n = v;
        }
    }
    if n < MIN_WAIT_SECS {
        MIN_WAIT_SECS
    } else {
        n
    }
}

/// Whether the browser is to be opened: unless suppressed by a "1".
pub fn opens_browser(setting: &Option<String>) -> (r: bool)
    ensures
        r == !(*setting matches Some(s) && s@ == "1"@),
{
    match setting {
        Some(s) => !text::str_eq(s.as_str(), "1"),
        None => true,
    }
}

/// The loopback address the browser returns to.
pub open spec fn redirect_address(port: u16) -> Seq<char> {
    "http://127.0.0.1:"@ + text::decimal(port as nat) + "/"@
}

/// Writes the loopback address the browser returns to.
pub fn redirect_uri(port: u16) -> (r: String)
    ensures
        r@ == redirect_address(port),
{
    let mut out = text::chars("http://127.0.0.1:");
    let p = text::dec(port as u64);
    text::push_all(&mut out, p.as_slice());
    text::push_str(&mut out, "/");
    text::string(out.as_slice())
}

/// An address inside a query: colons and slashes escaped.
pub open spec fn query_escaped(s: Seq<char>) -> Seq<char> {
    text::replaced(text::replaced(s, ':', "%3A"@), '/', "%2F"@)
}

/// The address that starts the sign-in.
pub open spec fn authorize_address(
    endpoint: Seq<char>,
    client_id: Seq<char>,
    redirect: Seq<char>,
    state: Seq<char>,
    nonce: Seq<char>,
    challenge: Seq<char>,
) -> Seq<char> {
    endpoint + "?response_type=code&client_id="@ + client_id + "&redirect_uri="@ + query_escaped(
        redirect,
    ) + "&scope=openid&state="@ + state + "&nonce="@ + nonce + "&code_challenge="@ + challenge
        + "&code_challenge_method=S256"@
}

/// Writes the address that starts the sign-in.
pub fn authorize_url(endpoint: &str, client_id: &str, redirect: &str, l: &LoginSecrets) -> (r:
    String)
    ensures
        r@ == authorize_address(
            endpoint@,
            client_id@,
            redirect@,
            l.state@,
            l.nonce@,
            l.challenge@,
        ),
{
    let mut out = text::chars(endpoint);
    text::push_str(&mut out, "?response_type=code&client_id=");
    text::push_str(&mut out, client_id);
    text::push_str(&mut out, "&redirect_uri=");
    let rc = text::chars(redirect);
    let e1 = text::replace_char(rc.as_slice(), ':', "%3A");
    let e2 = text::replace_char(e1.as_slice(), '/', "%2F");
    text::push_all(&mut out, e2.as_slice());
    text::push_str(&mut out, "&scope=openid&state=");
    text::push_str(&mut out, l.state.as_str());
    text::push_str(&mut out, "&nonce=");
    text::push_str(&mut out, l.nonce.as_str());
    text::push_str(&mut out, "&code_challenge=");
    text::push_str(&mut out, l.challenge.as_str());
    text::push_str(&mut out, "&code_challenge_method=S256");
    text::string(out.as_slice())
}

/// The client id to sign in with.
pub fn client_id(named: Option<String>) -> (r: String)
    ensures
        r@ == match named {
            Some(c) => c@,
            None => DEFAULT_CLIENT_ID@,
        },
{
    match named {
        Some(c) => c,
        None => DEFAULT_CLIENT_ID.to_owned(),
    }
}

// ---------------------------------------------------------------------
// The redirect
// ---------------------------------------------------------------------

/// The first line of a request.
pub open spec fn first_line(req: Seq<char>) -> Seq<char> {
    let ls = text::lines(req);
    if ls.len() == 0 {
        Seq::empty()
    } else {
        ls[0]
    }
}

/// The query of a request line's path.
pub open spec fn query_of(line: Seq<char>) -> Seq<char> {
    let ws = text::words(line);
    if ws.len() < 2 {
        Seq::empty()
    } else {
        match crate::addr::split_once(ws[1], '?') {
            Some((_, q)) => q,
            None => Seq::empty(),
        }
    }
}

/// The last value of a key among the parts of a query; empty where it is not
/// there.
pub open spec fn last_value(parts: Seq<Seq<char>>, key: Seq<char>) -> Seq<char>
    decreases parts.len(),
{
    if parts.len() == 0 {
        Seq::empty()
    } else {
        match crate::addr::split_once(parts.last(), '=') {
            Some((k, v)) => if k == key {
                v
            } else {
                last_value(parts.drop_last(), key)
            },
            None => last_value(parts.drop_last(), key),
        }
    }
}

/// A value of a request's query.
pub open spec fn query_value(req: Seq<char>, key: Seq<char>) -> Seq<char> {
    last_value(text::split(query_of(first_line(req)), '&'), key)
}

/// Why a redirect is refused.
#[derive(Debug)]
pub enum LoginError {
    /// It carried no code; the request line.
    NoCode(String),
    /// Its state is not the one sent out.
    StateMismatch,
}

/// Takes the code out of a redirect request, checking its state.
pub fn redirect_code(req: &str, state: &str) -> (r: Result<String, LoginError>)
    ensures
        match r {
            Ok(c) => {
                &&& c@ == query_value(req@, "code"@)
                &&& c@.len() > 0
                &&& query_value(req@, "state"@) == state@
            },
            Err(LoginError::NoCode(line)) => query_value(req@, "code"@).len() == 0 && line@
                == first_line(req@),
            Err(LoginError::StateMismatch) => query_value(req@, "code"@).len() > 0 && query_value(
                req@,
                "state"@,
            ) != state@,
        },
{
    let cs = text::chars(req);
    let ls = text::split_lines(cs.as_slice());
    assert(text::views(ls@).len() == ls@.len());
    let line: Vec<char> = if ls.len() == 0 {
        Vec::new()
    } else {
        assert(text::views(ls@)[0] == ls@[0]@);
        text::cut(ls[0].as_slice(), 0, ls[0].len())
    };
    assert(line@ =~= first_line(req@));
    let ws = text::split_words(line.as_slice());
    assert(text::views(ws@).len() == ws@.len());
    let query: Vec<char> = if ws.len() < 2 {
        Vec::new()
    } else {
        assert(text::views(ws@)[1] == ws@[1]@);
        match split_once_at(ws[1].as_slice(), '?') {
            Some((_, q)) => q,
            None => Vec::new(),
        }
    };
    assert(query@ =~= query_of(line@));
    let parts = text::split_at_char(query.as_slice(), '&');
    let ghost all = text::views(parts@);
    let mut code: Vec<char> = Vec::new();
    let mut got: Vec<char> = Vec::new();
    let mut i: usize = 0;
    while i < parts.len()
        invariant
            i <= parts@.len(),
            all == text::views(parts@),
            code@ == last_value(all.subrange(0, i as int), "code"@),
            got@ == last_value(all.subrange(0, i as int), "state"@),
        decreases parts@.len() - i,
    {
        let ghost next = all.subrange(0, i + 1);
        assert(next.drop_last() =~= all.subrange(0, i as int));
        assert(next.last() == parts@[i as int]@);
        proof {
            reveal_strlit("code");
            reveal_strlit("state");
            assert("code"@.len() != "state"@.len());
        }
        if let Some((k, v)) = split_once_at(parts[i].as_slice(), '=') {
            if text::is_str(k.as_slice(), "code") {
                code = v;
            } else if text::is_str(k.as_slice(), "state") {
                got = v;
            }
        }
        i += 1;
    }
    assert(all.subrange(0, i as int) =~= all);
    if code.len() == 0 {
        return Err(LoginError::NoCode(text::string(line.as_slice())));
    }
    if !text::is_str(got.as_slice(), state) {
        return Err(LoginError::StateMismatch);
    }
    Ok(text::string(code.as_slice()))
}

/// Takes the code out of the bytes of a redirect request.
pub fn redirect_code_bytes(req: &[u8], state: &str) -> (r: Result<String, LoginError>)
    ensures
        ({
            let q = text::lossy(req@);
            match r {
                Ok(c) => c@ == query_value(q, "code"@) && c@.len() > 0 && query_value(q, "state"@)
                    == state@,
                Err(LoginError::NoCode(line)) => query_value(q, "code"@).len() == 0 && line@
                    == first_line(q),
                Err(LoginError::StateMismatch) => query_value(q, "code"@).len() > 0
                    && query_value(q, "state"@) != state@,
            }
        }),
{
    let t = text::from_utf8_lossy(req);
    redirect_code(t.as_str(), state)
}

/// What the browser is shown once the redirect is in.
pub fn redirect_page() -> (r: &'static str)
    ensures
        r@
            == "HTTP/1.1 200 OK\r\nContent-Type: text/plain\r\nConnection: close\r\n\r\naZTNA sign-in complete - you can close this tab and return to the terminal."@,
{
    "HTTP/1.1 200 OK\r\nContent-Type: text/plain\r\nConnection: close\r\n\r\naZTNA sign-in complete - you can close this tab and return to the terminal."
}

// ---------------------------------------------------------------------
// Laws
// ---------------------------------------------------------------------

/// Law: the address that starts the sign-in reads back. Its query holds eight
/// settings, each under its own name: the response type, the client, where to
/// return to, the scope, the state, the nonce, the challenge and its method.
#[verifier::spinoff_prover]
#[verifier::rlimit(60)]
pub proof fn law_authorize_address_reads_back(
    endpoint: Seq<char>,
    client_id: Seq<char>,
    redirect: Seq<char>,
    state: Seq<char>,
    nonce: Seq<char>,
    challenge: Seq<char>,
)
    requires
        !client_id.contains('&'),
        !redirect.contains('&'),
        !state.contains('&'),
        !nonce.contains('&'),
        !challenge.contains('&'),
    ensures
        ({
            let a = authorize_address(endpoint, client_id, redirect, state, nonce, challenge);
            let q = text::rest(a, endpoint.len() as int + 1);
            &&& a.len() > endpoint.len() && a.subrange(0, endpoint.len() as int) == endpoint
            &&& a[endpoint.len() as int] == '?'
            &&& text::split(q, '&') == seq![
                "response_type=code"@,
                "client_id="@ + client_id,
                "redirect_uri="@ + query_escaped(redirect),
                "scope=openid"@,
                "state="@ + state,
                "nonce="@ + nonce,
                "code_challenge="@ + challenge,
                "code_challenge_method=S256"@,
            ]
        }),
{
    reveal_strlit("?response_type=code&client_id=");
    reveal_strlit("&redirect_uri=");
    reveal_strlit("&scope=openid&state=");
    reveal_strlit("&nonce=");
    reveal_strlit("&code_challenge=");
    reveal_strlit("&code_challenge_method=S256");
    reveal_strlit("response_type=code");
    reveal_strlit("client_id=");
    reveal_strlit("redirect_uri=");
    reveal_strlit("scope=openid");
    reveal_strlit("state=");
    reveal_strlit("nonce=");
    reveal_strlit("code_challenge=");
    reveal_strlit("code_challenge_method=S256");
    reveal_strlit("%3A");
    reveal_strlit("%2F");
    let r = query_escaped(redirect);
    text::law_replaced_brings_nothing(redirect, ':', "%3A"@, '&');
    text::law_replaced_brings_nothing(text::replaced(redirect, ':', "%3A"@), '/', "%2F"@, '&');
    let amp = seq!['&'];
    let p1 = "response_type=code"@;
    let p2 = "client_id="@ + client_id;
    let p3 = "redirect_uri="@ + r;
    let p4 = "scope=openid"@;
    let p5 = "state="@ + state;
    let p6 = "nonce="@ + nonce;
    let p7 = "code_challenge="@ + challenge;
    let p8 = "code_challenge_method=S256"@;
    lemma_no_amp("client_id="@, client_id);
    lemma_no_amp("redirect_uri="@, r);
    lemma_no_amp("state="@, state);
    lemma_no_amp("nonce="@, nonce);
    lemma_no_amp("code_challenge="@, challenge);
    let p = seq![p1, p2, p3, p4, p5, p6, p7, p8];
    lemma_eight(p1, p2, p3, p4, p5, p6, p7, p8);
    let a = authorize_address(endpoint, client_id, redirect, state, nonce, challenge);
    assert("?response_type=code&client_id="@ =~= seq!['?'] + p1 + amp + "client_id="@);
    assert("&redirect_uri="@ =~= amp + "redirect_uri="@);
    assert("&scope=openid&state="@ =~= amp + p4 + amp + "state="@);
    assert("&nonce="@ =~= amp + "nonce="@);
    assert("&code_challenge="@ =~= amp + "code_challenge="@);
    assert("&code_challenge_method=S256"@ =~= amp + p8);
    let body = p1 + amp + p2 + amp + p3 + amp + p4 + amp + p5 + amp + p6 + amp + p7 + amp + p8;
    assert(a =~= endpoint + seq!['?'] + body);
    assert(a.subrange(0, endpoint.len() as int) =~= endpoint);
    assert(text::rest(a, endpoint.len() as int + 1) =~= body);
    text::lemma_joined_split(p, '&');
}

proof fn lemma_no_amp(a: Seq<char>, b: Seq<char>)
    requires
        !a.contains('&'),
        !b.contains('&'),
    ensures
        !(a + b).contains('&'),
{
    let s = a + b;
    if s.contains('&') {
        let i = choose|i: int| 0 <= i < s.len() && s[i] == '&';
        if i < a.len() {
            assert(a[i] == '&');
        } else {
            assert(b[i - a.len()] == '&');
        }
    }
}

proof fn lemma_eight(
    p1: Seq<char>,
    p2: Seq<char>,
    p3: Seq<char>,
    p4: Seq<char>,
    p5: Seq<char>,
    p6: Seq<char>,
    p7: Seq<char>,
    p8: Seq<char>,
)
    ensures
        ({
            let amp = seq!['&'];
            text::joined(seq![p1, p2, p3, p4, p5, p6, p7, p8], amp) == p1 + amp + p2 + amp + p3
                + amp + p4 + amp + p5 + amp + p6 + amp + p7 + amp + p8
        }),
{
    let amp = seq!['&'];
    let s8 = seq![p1, p2, p3, p4, p5, p6, p7, p8];
    let s7 = seq![p1, p2, p3, p4, p5, p6, p7];
    let s6 = seq![p1, p2, p3, p4, p5, p6];
    let s5 = seq![p1, p2, p3, p4, p5];
    let s4 = seq![p1, p2, p3, p4];
    let s3 = seq![p1, p2, p3];
    let s2 = seq![p1, p2];
    let s1 = seq![p1];
    assert(s8.drop_last() =~= s7);
    assert(s7.drop_last() =~= s6);
    assert(s6.drop_last() =~= s5);
    assert(s5.drop_last() =~= s4);
    assert(s4.drop_last() =~= s3);
    assert(s3.drop_last() =~= s2);
    assert(s2.drop_last() =~= s1);
    assert(text::joined(s1, amp) == p1);
    assert(text::joined(s2, amp) == p1 + amp + p2);
    assert(text::joined(s3, amp) == text::joined(s2, amp) + amp + p3);
    assert(text::joined(s4, amp) == text::joined(s3, amp) + amp + p4);
    assert(text::joined(s5, amp) == text::joined(s4, amp) + amp + p5);
    assert(text::joined(s6, amp) == text::joined(s5, amp) + amp + p6);
    assert(text::joined(s7, amp) == text::joined(s6, amp) + amp + p7);
    assert(text::joined(s8, amp) == text::joined(s7, amp) + amp + p8);
}

/// Law: inside a query no colon and no slash is left, and nothing else changes.
pub proof fn law_escaping(s: Seq<char>, t: Seq<char>, c: char)
    ensures
        !query_escaped(s).contains(':'),
        !query_escaped(s).contains('/'),
        query_escaped(s + t) == query_escaped(s) + query_escaped(t),
        query_escaped(seq![':']) == "%3A"@,
        query_escaped(seq!['/']) == "%2F"@,
        c != ':' && c != '/' ==> query_escaped(seq![c]) == seq![c],
{
    reveal_strlit("%3A");
    reveal_strlit("%2F");
    let a = text::replaced(s, ':', "%3A"@);
    let b = text::replaced(t, ':', "%3A"@);
    text::law_replaced_brings_nothing(s, ':', "%3A"@, ':');
    text::law_replaced_brings_nothing(a, '/', "%2F"@, ':');
    text::law_replaced_brings_nothing(a, '/', "%2F"@, '/');
    text::law_replaced(s, t, ':', c, "%3A"@);
    text::law_replaced(a, b, '/', c, "%2F"@);
    text::law_replaced(seq!['%', '3'], seq!['A'], '/', '%', "%2F"@);
    text::law_replaced(seq!['%'], seq!['3'], '/', '3', "%2F"@);
    text::law_replaced(seq!['%'], seq!['3'], '/', 'A', "%2F"@);
    assert("%3A"@ =~= seq!['%', '3'] + seq!['A']);
    assert(seq!['%', '3'] =~= seq!['%'] + seq!['3']);
    assert(text::replaced("%3A"@, '/', "%2F"@) =~= "%3A"@);
    text::law_replaced(s, t, ':', '/', "%3A"@);
}

/// Law: the browser returns to the loopback address, at the port that is
/// listened on.
pub proof fn law_redirect_address(port: u16)
    ensures
        ({
            let a = redirect_address(port);
            let n = "http://127.0.0.1:"@.len() as int;
            &&& text::has_prefix(a, "http://127.0.0.1:"@)
            &&& a.last() == '/'
            &&& text::is_digits(a.subrange(n, a.len() - 1))
            &&& text::dec_value(a.subrange(n, a.len() - 1)) == port
        }),
{
    reveal_strlit("http://127.0.0.1:");
    reveal_strlit("/");
    text::lemma_decimal_value(port as nat);
    let a = redirect_address(port);
    let n = "http://127.0.0.1:"@.len() as int;
    assert(a.subrange(0, n) =~= "http://127.0.0.1:"@);
    assert(a.subrange(n, a.len() - 1) =~= text::decimal(port as nat));
}

/// Law: the query of a request line is what stands behind the first question
/// mark of its second word; a line whose second word has none has no query.
pub proof fn law_query_of_line(
    method: Seq<char>,
    path: Seq<char>,
    query: Seq<char>,
    tail: Seq<char>,
)
    requires
        method.len() > 0,
        path.len() > 0,
        !path.contains('?'),
        forall|i: int| 0 <= i < method.len() ==> !text::is_space(#[trigger] method[i]),
        forall|i: int| 0 <= i < path.len() ==> !text::is_space(#[trigger] path[i]),
        forall|i: int| 0 <= i < query.len() ==> !text::is_space(#[trigger] query[i]),
    ensures
        query_of(method + seq![' '] + (path + seq!['?'] + query + seq![' '] + tail)) == query,
        query_of(method + seq![' '] + (path + seq![' '] + tail)).len() == 0,
{
    let w = path + seq!['?'] + query;
    assert forall|i: int| 0 <= i < w.len() implies !text::is_space(#[trigger] w[i]) by {
        if i < path.len() {
            assert(w[i] == path[i]);
        } else if i > path.len() {
            assert(w[i] == query[i - path.len() - 1]);
        }
    }
    text::law_words(w, ' ', tail);
    text::law_words(method, ' ', w + seq![' '] + tail);
    text::law_words(path, ' ', tail);
    text::law_words(method, ' ', path + seq![' '] + tail);
    crate::addr::law_split_once(path, '?', query);
    let l = method + seq![' '] + (w + seq![' '] + tail);
    assert(text::words(l)[1] == w);
    let m = method + seq![' '] + (path + seq![' '] + tail);
    assert(text::words(m)[1] == path);
}

/// Whether a part of a query is a value of a key.
pub open spec fn sets(part: Seq<char>, key: Seq<char>, value: Seq<char>) -> bool {
    crate::addr::split_once(part, '=') == Some((key, value))
}

/// Law: the value of a key is that of the last part that has it, and empty
/// exactly where no part has it, or the last one has it empty.
pub proof fn law_last_value(parts: Seq<Seq<char>>, key: Seq<char>, i: int, value: Seq<char>)
    ensures
        0 <= i < parts.len() && sets(parts[i], key, value) && (forall|j: int|
            i < j < parts.len() ==> (crate::addr::split_once(#[trigger] parts[j], '=') matches Some(
                (k, _),
            ) ==> k != key)) ==> last_value(parts, key) == value,
        (forall|j: int|
            0 <= j < parts.len() ==> (crate::addr::split_once(
                #[trigger] parts[j],
                '=',
            ) matches Some((k, _)) ==> k != key)) ==> last_value(parts, key).len() == 0,
    decreases parts.len(),
{
    if parts.len() > 0 {
        let t = parts.drop_last();
        let n = t.len() as int;
        law_last_value(t, key, i, value);
        assert(parts[n] == parts.last());
        assert(forall|j: int| 0 <= j < n ==> #[trigger] t[j] == parts[j]);
    }
}

/// Law: a part `key=value` sets the key to the value, equals signs in the
/// value included.
pub proof fn law_part_sets(key: Seq<char>, value: Seq<char>)
    requires
        !key.contains('='),
    ensures
        sets(key + seq!['='] + value, key, value),
{
    crate::addr::law_split_once(key, '=', value);
}

/// Law: only the first line of a request counts.
pub proof fn law_first_line(line: Seq<char>, tail: Seq<char>)
    requires
        !line.contains('\n'),
    ensures
        first_line(line + seq!['\r', '\n'] + tail) == line,
        line.len() > 0 ==> first_line(line) == line,
        first_line(Seq::empty()).len() == 0,
{
    text::law_lines(line, tail);
}

} // verus!
