//! The device certificate: when it expires, and PEM bundles.

use asn1_rs::FromDer;
use vstd::prelude::*;

use crate::bytes::copy_range;
use crate::calendar;
use crate::text;

verus! {

/// Seconds in a day.
pub const DAY: i64 = 86400;

/// Why a certificate's expiry could not be read, with the parser's own words.
#[derive(Debug, Clone, PartialEq, Eq)]
pub enum CertError {
    /// There is no PEM block.
    Pem(String),
    /// The block holds no certificate.
    Der(String),
}

/// Model of a [`CertError`].
pub enum CertErrorView {
    Pem(Seq<char>),
    Der(Seq<char>),
}

impl View for CertError {
    type V = CertErrorView;

    open spec fn view(&self) -> CertErrorView {
        match *self {
            CertError::Pem(e) => CertErrorView::Pem(e@),
            CertError::Der(e) => CertErrorView::Der(e@),
        }
    }
}

/// The bytes of the first block of a PEM text, or why there is none.
pub uninterp spec fn pem_block(pem: Seq<char>) -> Result<Seq<u8>, Seq<char>>;

/// `x509_parser::pem::parse_x509_pem`: the bytes of the first block, which
/// depend on the text alone; an error, with the parser's words for it, where
/// there is none.
#[verifier::external_body]
fn x509_pem(pem: &str) -> (r: Result<Vec<u8>, String>)
    ensures
        match r {
            Ok(d) => pem_block(pem@) == Ok::<Seq<u8>, Seq<char>>(d@),
            Err(e) => pem_block(pem@) == Err::<Seq<u8>, Seq<char>>(e@),
        },
{
    x509_parser::pem::parse_x509_pem(pem.as_bytes()).map(|p| p.1.contents).map_err(|e| e.to_string())
}

/// The end of validity of a certificate in seconds of Unix time, and the bits
/// of its subject's public key, or why the bytes are no certificate.
pub uninterp spec fn x509_read(der: Seq<u8>) -> Result<(i64, Seq<u8>), Seq<char>>;

/// `x509_parser::certificate::X509Certificate::from_der`, its `notAfter` and
/// its subject public key: both depend on the bytes alone; an error, with the
/// parser's words for it, where they hold no certificate.
#[verifier::external_body]
pub(crate) fn x509_fields(der: &[u8]) -> (r: Result<(i64, Vec<u8>), String>)
    ensures
        match r {
            Ok((t, k)) => x509_read(der@) == Ok::<(i64, Seq<u8>), Seq<char>>((t, k@)),
            Err(e) => x509_read(der@) == Err::<(i64, Seq<u8>), Seq<char>>(e@),
        },
{
    let (_, c) = x509_parser::certificate::X509Certificate::from_der(der).map_err(|e| e.to_string())?;
    let key = c.tbs_certificate.subject_pki.subject_public_key.data.to_vec();
    Ok((c.tbs_certificate.validity.not_after.timestamp(), key))
}

/// The end of validity of the certificate in the first block of a PEM text, or
/// why there is none.
pub open spec fn not_after(pem: Seq<char>) -> Result<i64, CertErrorView> {
    match pem_block(pem) {
        Err(e) => Err(CertErrorView::Pem(e)),
        Ok(d) => match x509_read(d) {
            Err(e) => Err(CertErrorView::Der(e)),
            Ok((t, _)) => Ok(t),
        },
    }
}

/// When a certificate expires, in seconds of Unix time.
pub fn cert_expiry_unix(cert_pem: &str) -> (r: Result<i64, CertError>)
    ensures
        match r {
            Ok(t) => not_after(cert_pem@) == Ok::<i64, CertErrorView>(t),
            Err(e) => not_after(cert_pem@) == Err::<i64, CertErrorView>(e@),
        },
{
    match x509_pem(cert_pem) {
        Err(e) => Err(CertError::Pem(e)),
        Ok(d) => match x509_fields(d.as_slice()) {
            Err(e) => Err(CertError::Der(e)),
            Ok((t, _)) => Ok(t),
        },
    }
}

/// Whole days from `now_unix` to `expiry_unix`, rounded down: any expiry in
/// the past is at most -1, even by a second.
pub fn cert_days_remaining(now_unix: i64, expiry_unix: i64) -> (r: i64)
    ensures
        r == (expiry_unix - now_unix) / (DAY as int),
{
    let d: i128 = expiry_unix as i128 - now_unix as i128;
    if d >= 0 {
        (d as u128 / 86400) as i64
    } else {
        let m: u128 = (-d) as u128;
        let q: u128 = (m + 86399) / 86400;
        proof {
            let (mi, qi) = (m as int, q as int);
            assert(86400 * qi - 86399 <= mi <= 86400 * qi);
            assert((-mi) / 86400 == -qi) by (nonlinear_arith)
                requires
                    86400 * qi - 86399 <= mi <= 86400 * qi,
            ;
        }
        -(q as i64)
    }
}

/// Law: a certificate has days left exactly while it has not expired.
pub proof fn law_expired_means_negative(now_unix: i64, expiry_unix: i64)
    ensures
        (expiry_unix - now_unix) / (DAY as int) < 0 <==> expiry_unix < now_unix,
{
}

/// Two decimal digits.
pub open spec fn two_digits(n: int) -> Seq<char> {
    seq![(48 + n / 10) as char, (48 + n % 10) as char]
}

/// A Unix time in RFC 3339, where its year has four digits: date and time of
/// day in UTC.
pub open spec fn rfc3339_of(unix: int) -> Option<Seq<char>> {
    let (y, m, d) = calendar::date_of(unix / 86400);
    let s = unix % 86400;
    if 0 <= y <= 9999 {
        Some(
            two_digits(y / 100) + two_digits(y % 100) + "-"@ + two_digits(m) + "-"@ + two_digits(d)
                + "T"@ + two_digits(s / 3600) + ":"@ + two_digits(s / 60 % 60) + ":"@ + two_digits(
                s % 60,
            ) + "Z"@,
        )
    } else {
        None
    }
}

/// `time::OffsetDateTime::from_unix_timestamp` and `format` with `Rfc3339`:
/// the date and the time of day in UTC, without fractions; nothing where the
/// year is not one of four digits.
#[verifier::external_body]
pub(crate) fn rfc3339(unix: i64) -> (r: Option<String>)
    ensures
        match r {
            Some(s) => rfc3339_of(unix as int) == Some(s@),
            None => rfc3339_of(unix as int) is None,
        },
{
    let t = time::OffsetDateTime::from_unix_timestamp(unix).ok()?;
    t.format(&time::format_description::well_known::Rfc3339).ok()
}

/// The expiry in words, from what is known of it.
pub open spec fn expiry_words(
    exp: Result<i64, CertErrorView>,
    iso: Option<Seq<char>>,
    now: i64,
) -> Seq<char> {
    match exp {
        Err(CertErrorView::Pem(e)) => "? (parse failed: cert pem parse: "@ + e + ")"@,
        Err(CertErrorView::Der(e)) => "? (parse failed: cert der parse: "@ + e + ")"@,
        Ok(t) => {
            let days = (t - now) / (DAY as int);
            let when = match iso {
                Some(s) => s,
                None => text::decimal_int(t as int),
            };
            if days < 0 {
                when + " (EXPIRED "@ + text::decimal_int(-days) + " days ago)"@
            } else {
                when + " ("@ + text::decimal_int(days) + " days)"@
            }
        },
    }
}

/// Words for an expiry.
pub fn expiry_line(exp: Result<i64, CertError>, iso: Option<String>, now: i64) -> (r: String)
    ensures
        r@ == expiry_words(
            match exp {
                Ok(t) => Ok(t),
                Err(e) => Err(e@),
            },
            match iso {
                Some(s) => Some(s@),
                None => None,
            },
            now,
        ),
{
    let t: i64 = match exp {
        Err(CertError::Pem(e)) => {
            return "? (parse failed: cert pem parse: ".to_owned().concat(e.as_str()).concat(")");
        },
        Err(CertError::Der(e)) => {
            return "? (parse failed: cert der parse: ".to_owned().concat(e.as_str()).concat(")");
        },
        Ok(t) => t,
    };
    let days: i64 = cert_days_remaining(now, t);
    let when: String = match iso {
        Some(s) => s,
        None => text::string(text::dec_int(t).as_slice()),
    };
    if days < 0 {
        proof {
            lemma_days_range(now, t);
        }
        let n = text::string(text::dec_int(-days).as_slice());
        when.concat(" (EXPIRED ").concat(n.as_str()).concat(" days ago)")
    } else {
        let n = text::string(text::dec_int(days).as_slice());
        when.concat(" (").concat(n.as_str()).concat(" days)")
    }
}

proof fn lemma_days_range(now: i64, t: i64)
    ensures
        -0x8000_0000_0000_0000 < (t - now) / (DAY as int) < 0x7fff_ffff_ffff_ffff,
{
}

/// The certificate's expiry in words, as shown to the user.
pub fn cert_expiry_line(cert_pem: &str, now: i64) -> (r: String)
    ensures
        r@ == expiry_words(
            not_after(cert_pem@),
            match not_after(cert_pem@) {
                Ok(t) => rfc3339_of(t as int),
                Err(_) => None,
            },
            now,
        ),
{
    let exp = cert_expiry_unix(cert_pem);
    let iso = match &exp {
        Ok(t) => rfc3339(*t),
        Err(_) => None,
    };
    expiry_line(exp, iso, now)
}

/// Whether a line ends a certificate.
pub open spec fn ends_block(line: Seq<char>) -> bool {
    text::contains(line, "END CERTIFICATE"@)
}

/// The blocks of a bundle: the lines up to and with each end line, `pending`
/// first. What follows the last end line is no block.
pub open spec fn blocks(lines: Seq<Seq<char>>, pending: Seq<char>) -> Seq<Seq<char>>
    decreases lines.len(),
{
    if lines.len() == 0 {
        Seq::empty()
    } else {
        let cur = pending + lines[0] + seq!['\n'];
        if ends_block(lines[0]) {
            seq![cur] + blocks(lines.drop_first(), Seq::empty())
        } else {
            blocks(lines.drop_first(), cur)
        }
    }
}

/// Splits a bundle of certificates into its blocks.
pub fn pem_blocks(bundle: &str) -> (r: Vec<String>)
    ensures
        text::strs(r@) == blocks(text::lines(bundle@), Seq::empty()),
{
    let cs = text::chars(bundle);
    let ls = text::split_lines(cs.as_slice());
    let ghost all = text::lines(bundle@);
    let mut out: Vec<String> = Vec::new();
    let mut cur: Vec<char> = Vec::new();
    let mut i: usize = 0;
    proof {
        assert(all.subrange(0, all.len() as int) =~= all);
        assert(text::strs(out@) + blocks(all, Seq::empty()) =~= blocks(all, Seq::empty()));
        assert(cur@ =~= Seq::<char>::empty());
    }
    while i < ls.len()
        invariant
            i <= ls@.len(),
            text::views(ls@) == all,
            all.len() == ls@.len(),
            text::strs(out@) + blocks(all.subrange(i as int, all.len() as int), cur@) == blocks(
                all,
                Seq::empty(),
            ),
        decreases ls@.len() - i,
    {
        let ghost tail = all.subrange(i as int, all.len() as int);
        let ghost pending = cur@;
        let ghost before = out@;
        proof {
            assert(text::views(ls@)[i as int] == ls@[i as int]@);
            assert(tail[0] == ls@[i as int]@);
            assert(tail.drop_first() =~= all.subrange(i + 1, all.len() as int));
        }
        text::push_all(&mut cur, ls[i].as_slice());
        cur.push('\n');
        assert(cur@ =~= pending + tail[0] + seq!['\n']);
        if text::has_str(ls[i].as_slice(), "END CERTIFICATE") {
            let s = text::string(cur.as_slice());
            let ghost sv = s@;
            out.push(s);
            cur = Vec::new();
            proof {
                assert(text::strs(out@) =~= text::strs(before).push(sv));
                assert(cur@ =~= Seq::<char>::empty());
                assert(text::strs(out@) + blocks(tail.drop_first(), Seq::empty()) =~= text::strs(
                    before,
                ) + blocks(tail, pending));
            }
        }
        i += 1;
    }
    proof {
        assert(all.subrange(i as int, all.len() as int) =~= Seq::<Seq<char>>::empty());
        assert(text::strs(out@) =~= blocks(all, Seq::empty()));
    }
    out
}

// ---------------------------------------------------------------------
// Chains
// ---------------------------------------------------------------------

/// What reading the certificates of a PEM text gives, in order: the bytes of
/// each, or why a part could not be read.
pub uninterp spec fn certs_in(pem: Seq<char>) -> Seq<Result<Seq<u8>, Seq<char>>>;

/// What was read, as values.
pub open spec fn item_views(items: Seq<Result<Vec<u8>, String>>) -> Seq<
    Result<Seq<u8>, Seq<char>>,
> {
    items.map_values(
        |r: Result<Vec<u8>, String>|
            match r {
                Ok(d) => Ok::<Seq<u8>, Seq<char>>(d@),
                Err(e) => Err::<Seq<u8>, Seq<char>>(e@),
            },
    )
}

/// `rustls_pemfile::certs`, all its items: the bytes of each certificate, or
/// the reader's words for what could not be read. They depend on the text
/// alone.
#[verifier::external_body]
fn pem_certs(pem: &str) -> (r: Vec<Result<Vec<u8>, String>>)
    ensures
        item_views(r@) == certs_in(pem@),
{
    rustls_pemfile::certs(&mut pem.as_bytes()).map(
        |c| c.map(|d| d.to_vec()).map_err(|e| e.to_string()),
    ).collect()
}

/// The certificates that were read, or the first failure.
pub open spec fn chain_of(items: Seq<Result<Seq<u8>, Seq<char>>>) -> Result<
    Seq<Seq<u8>>,
    Seq<char>,
>
    decreases items.len(),
{
    if items.len() == 0 {
        Ok(Seq::empty())
    } else {
        match (chain_of(items.drop_last()), items.last()) {
            (Err(e), _) => Err(e),
            (Ok(_), Err(e)) => Err(e),
            (Ok(c), Ok(d)) => Ok(c.push(d)),
        }
    }
}

/// Byte strings, as values.
pub open spec fn byte_seqs(v: Seq<Vec<u8>>) -> Seq<Seq<u8>> {
    v.map_values(|d: Vec<u8>| d@)
}

/// A failure stays the first one.
proof fn lemma_failed_chain(items: Seq<Result<Seq<u8>, Seq<char>>>, i: int)
    requires
        0 <= i <= items.len(),
        chain_of(items.subrange(0, i)) is Err,
    ensures
        chain_of(items) == chain_of(items.subrange(0, i)),
    decreases items.len() - i,
{
    if i < items.len() {
        assert(items.subrange(0, i + 1).drop_last() =~= items.subrange(0, i));
        lemma_failed_chain(items, i + 1);
    } else {
        assert(items.subrange(0, i) =~= items);
    }
}

/// Takes what was read for a chain: every certificate, or the first failure.
pub fn chain_from(items: &Vec<Result<Vec<u8>, String>>) -> (r: Result<Vec<Vec<u8>>, String>)
    ensures
        match r {
            Ok(c) => chain_of(item_views(items@)) == Ok::<Seq<Seq<u8>>, Seq<char>>(byte_seqs(c@)),
            Err(e) => chain_of(item_views(items@)) == Err::<Seq<Seq<u8>>, Seq<char>>(e@),
        },
{
    let ghost all = item_views(items@);
    let mut out: Vec<Vec<u8>> = Vec::new();
    let mut i: usize = 0;
    assert(byte_seqs(out@) =~= Seq::empty());
    while i < items.len()
        invariant
            i <= items@.len(),
            all == item_views(items@),
            chain_of(all.subrange(0, i as int)) == Ok::<Seq<Seq<u8>>, Seq<char>>(byte_seqs(out@)),
        decreases items@.len() - i,
    {
        let ghost next = all.subrange(0, i + 1);
        let ghost before = byte_seqs(out@);
        assert(next.drop_last() =~= all.subrange(0, i as int));
        match &items[i] {
            Err(e) => {
                proof {
                    lemma_failed_chain(all, i + 1);
                }
                return Err(e.clone());
            },
            Ok(d) => {
                let c = copy_range(d.as_slice(), 0, d.len());
                assert(c@ =~= d@);
                let ghost cv = c@;
                out.push(c);
                assert(byte_seqs(out@) =~= before.push(cv));
            },
        }
        i += 1;
    }
    assert(all.subrange(0, i as int) =~= all);
    Ok(out)
}

/// The certificates of a PEM text, in order; an error where any part cannot be
/// read.
pub fn cert_chain(pem: &str) -> (r: Result<Vec<Vec<u8>>, String>)
    ensures
        match r {
            Ok(c) => chain_of(certs_in(pem@)) == Ok::<Seq<Seq<u8>>, Seq<char>>(byte_seqs(c@)),
            Err(e) => chain_of(certs_in(pem@)) == Err::<Seq<Seq<u8>>, Seq<char>>(e@),
        },
{
    let items = pem_certs(pem);
    chain_from(&items)
}

/// The first thing read, where it is a certificate.
pub open spec fn first_cert(items: Seq<Result<Seq<u8>, Seq<char>>>) -> Option<Seq<u8>> {
    if items.len() > 0 {
        match items[0] {
            Ok(d) => Some(d),
            Err(_) => None,
        }
    } else {
        None
    }
}

/// The first certificate of a PEM text; none where there is none or the text
/// cannot be read up to it.
pub fn leaf_cert(pem: &str) -> (r: Option<Vec<u8>>)
    ensures
        match r {
            Some(d) => first_cert(certs_in(pem@)) == Some(d@),
            None => first_cert(certs_in(pem@)) is None,
        },
{
    let items = pem_certs(pem);
    let ghost all = item_views(items@);
    if items.len() == 0 {
        return None;
    }
    assert(all[0] == certs_in(pem@)[0]);
    match &items[0] {
        Ok(d) => {
            let c = copy_range(d.as_slice(), 0, d.len());
            assert(c@ =~= d@);
            Some(c)
        },
        Err(_) => None,
    }
}

// ---------------------------------------------------------------------
// Laws
// ---------------------------------------------------------------------

proof fn lemma_two_digits(n: int)
    requires
        0 <= n <= 99,
    ensures
        two_digits(n).len() == 2,
        text::is_digits(two_digits(n)),
        text::dec_value(two_digits(n)) == n,
{
    let d = two_digits(n);
    assert(text::is_digit(d[0]) && text::is_digit(d[1]));
    assert(d.drop_last() =~= seq![d[0]]);
    assert(seq![d[0]].drop_last() =~= Seq::<char>::empty());
    reveal_with_fuel(text::dec_value, 3);
}

proof fn lemma_four_digits(n: int)
    requires
        0 <= n <= 9999,
    ensures
        ({
            let d = two_digits(n / 100) + two_digits(n % 100);
            d.len() == 4 && text::is_digits(d) && text::dec_value(d) == n
        }),
{
    let (a, b) = (two_digits(n / 100), two_digits(n % 100));
    let d = a + b;
    lemma_two_digits(n / 100);
    lemma_two_digits(n % 100);
    assert(d.drop_last() =~= a + seq![b[0]]);
    assert((a + seq![b[0]]).drop_last() =~= a);
    assert forall|i: int| 0 <= i < d.len() implies text::is_digit(#[trigger] d[i]) by {
        if i < 2 {
            assert(d[i] == a[i]);
        } else {
            assert(d[i] == b[i - 2]);
        }
    }
    reveal_with_fuel(text::dec_value, 3);
    assert(d.last() == b[1]);
    assert((a + seq![b[0]]).last() == b[0]);
    assert(text::dec_value(d) == (text::dec_value(a) * 10 + (b[0] as u32 - '0' as u32)) * 10 + (
    b[1] as u32 - '0' as u32));
}

/// Law: a time in RFC 3339 reads back: its date is the day that the time falls
/// on, its hours, minutes and seconds are those since that day began, and it is
/// twenty characters long.
#[verifier::spinoff_prover]
#[verifier::rlimit(60)]
pub proof fn law_rfc3339_reads_back(unix: int)
    ensures
        rfc3339_of(unix) matches Some(t) ==> {
            &&& t.len() == 20 && t[10] == 'T' && t[13] == ':' && t[16] == ':' && t[19] == 'Z'
            &&& calendar::iso_date(t) matches Some((y, m, d)) && calendar::is_date(y, m, d)
                && calendar::civil_days(y, m, d) * 86400 + text::dec_value(t.subrange(11, 13))
                * 3600 + text::dec_value(t.subrange(14, 16)) * 60 + text::dec_value(
                t.subrange(17, 19),
            ) == unix
        },
{
    reveal_strlit("-");
    reveal_strlit("T");
    reveal_strlit(":");
    reveal_strlit("Z");
    if let Some(t) = rfc3339_of(unix) {
        let (y, m, d) = calendar::date_of(unix / 86400);
        calendar::lemma_date_exists(unix / 86400);
        let s = unix % 86400;
        let (h, mi, se) = (s / 3600, s / 60 % 60, s % 60);
        let ys = two_digits(y / 100) + two_digits(y % 100);
        lemma_four_digits(y);
        lemma_two_digits(m);
        assert(1 <= d <= 31);
        lemma_two_digits(d);
        lemma_two_digits(h);
        lemma_two_digits(mi);
        lemma_two_digits(se);
        let tail = seq!['T'] + two_digits(h) + seq![':'] + two_digits(mi) + seq![':'] + two_digits(
            se,
        ) + seq!['Z'];
        assert(t =~= ys + seq!['-'] + two_digits(m) + seq!['-'] + two_digits(d) + tail);
        assert(tail.last() == 'Z');
        calendar::law_iso_date_reads_back(ys, two_digits(m), two_digits(d), tail);
        assert(t.subrange(11, 13) =~= two_digits(h));
        assert(t.subrange(14, 16) =~= two_digits(mi));
        assert(t.subrange(17, 19) =~= two_digits(se));
        assert(s == h * 3600 + mi * 60 + se);
    }
}

/// Law: a time whose year has more or fewer than four digits has no such text,
/// and every other one has.
pub proof fn law_rfc3339_range(unix: int, y: int, m: int, d: int)
    requires
        calendar::is_date(y, m, d),
        calendar::civil_days(y, m, d) == unix / 86400,
    ensures
        rfc3339_of(unix) is Some <==> 0 <= y <= 9999,
{
    calendar::law_day_is_one_date(unix / 86400, y, m, d);
}

/// Law: the end of validity is that of the first block; what is no block and
/// what is no certificate are told apart.
pub proof fn law_not_after(pem: Seq<char>)
    ensures
        pem_block(pem) matches Err(e) ==> not_after(pem) == Err::<i64, CertErrorView>(
            CertErrorView::Pem(e),
        ),
        pem_block(pem) matches Ok(b) ==> (x509_read(b) matches Err(e) ==> not_after(pem) == Err::<
            i64,
            CertErrorView,
        >(CertErrorView::Der(e))),
        pem_block(pem) matches Ok(b) ==> (x509_read(b) matches Ok((t, _)) ==> not_after(pem)
            == Ok::<i64, CertErrorView>(t)),
{
}

/// Law: what the expiry reads. Until then, the whole days that are left; from
/// then on, the days begun since, as expired; with the time as a number where
/// there is no text for it.
pub proof fn law_expiry_words(t: i64, iso: Option<Seq<char>>, now: i64)
    ensures
        ({
            let w = expiry_words(Ok(t), iso, now);
            let when = if iso is Some {
                iso->Some_0
            } else {
                text::decimal_int(t as int)
            };
            &&& t >= now ==> w == when + " ("@ + text::decimal(((t - now) / 86400) as nat)
                + " days)"@
            &&& t < now ==> w == when + " (EXPIRED "@ + text::decimal(
                ((now - t + 86399) / 86400) as nat,
            ) + " days ago)"@
        }),
{
    if t < now {
        let x = now - t;
        assert(-((-x) / 86400int) == (x + 86399) / 86400);
        assert(t - now == -x);
    }
}

/// Lines, each with its line feed.
pub open spec fn unlined(lines: Seq<Seq<char>>) -> Seq<char>
    decreases lines.len(),
{
    if lines.len() == 0 {
        Seq::empty()
    } else {
        lines[0] + seq!['\n'] + unlined(lines.drop_first())
    }
}

/// Law: a block is all lines up to its end line, that one included; the next
/// block begins behind it, and what has no end line is no block.
pub proof fn law_blocks(
    pending: Seq<char>,
    body: Seq<Seq<char>>,
    end: Seq<char>,
    more: Seq<Seq<char>>,
)
    requires
        forall|i: int|
            0 <= i < body.len() ==> !text::contains(#[trigger] body[i], "END CERTIFICATE"@),
        text::contains(end, "END CERTIFICATE"@),
    ensures
        blocks(body.push(end) + more, pending) == seq![pending + unlined(body) + end + seq!['\n']]
            + blocks(more, Seq::empty()),
        blocks(body, pending).len() == 0,
    decreases body.len(),
{
    let all = body.push(end) + more;
    if body.len() == 0 {
        assert(all[0] == end);
        assert(all.drop_first() =~= more);
        assert(pending + unlined(body) + end + seq!['\n'] =~= pending + end + seq!['\n']);
    } else {
        let t = body.drop_first();
        assert forall|i: int| 0 <= i < t.len() implies !text::contains(
            #[trigger] t[i],
            "END CERTIFICATE"@,
        ) by {
            assert(t[i] == body[i + 1]);
        }
        let cur = pending + body[0] + seq!['\n'];
        law_blocks(cur, t, end, more);
        assert(all[0] == body[0]);
        assert(all.drop_first() =~= t.push(end) + more);
        assert(cur + unlined(t) + end + seq!['\n'] =~= pending + unlined(body) + end + seq!['\n']);
    }
}

/// Law: a chain is whole or not at all: there is one exactly if every item was
/// read, and it holds them in order; else the failure is the first.
pub proof fn law_chain(items: Seq<Result<Seq<u8>, Seq<char>>>)
    ensures
        match chain_of(items) {
            Ok(c) => c.len() == items.len() && forall|i: int|
                0 <= i < items.len() ==> #[trigger] items[i] == Ok::<Seq<u8>, Seq<char>>(c[i]),
            Err(e) => exists|i: int|
                #![trigger items[i]]
                0 <= i < items.len() && items[i] == Err::<Seq<u8>, Seq<char>>(e) && forall|j: int|
                    0 <= j < i ==> (#[trigger] items[j]) is Ok,
        },
    decreases items.len(),
{
    if items.len() > 0 {
        let t = items.drop_last();
        law_chain(t);
        let n = t.len() as int;
        match chain_of(t) {
            Ok(c) => {
                assert forall|j: int| 0 <= j < n implies (#[trigger] items[j]) is Ok by {
                    assert(items[j] == t[j]);
                }
                if chain_of(items) is Err {
                    assert(items[n] == Err::<Seq<u8>, Seq<char>>(chain_of(items)->Err_0));
                } else {
                    let k = chain_of(items)->Ok_0;
                    assert forall|i: int| 0 <= i < items.len() implies #[trigger] items[i] == Ok::<
                        Seq<u8>,
                        Seq<char>,
                    >(k[i]) by {
                        if i < n {
                            assert(items[i] == t[i]);
                        }
                    }
                }
            },
            Err(e) => {
                let i = choose|i: int|
                    #![trigger t[i]]
                    0 <= i < t.len() && t[i] == Err::<Seq<u8>, Seq<char>>(e) && forall|j: int|
                        0 <= j < i ==> (#[trigger] t[j]) is Ok;
                assert(items[i] == t[i]);
                assert forall|j: int| 0 <= j < i implies (#[trigger] items[j]) is Ok by {
                    assert(items[j] == t[j]);
                }
            },
        }
    }
}

/// Law: the first certificate is the first thing read, where that is one.
pub proof fn law_first_cert(first: Result<Seq<u8>, Seq<char>>, more: Seq<Result<Seq<u8>, Seq<char>>>)
    ensures
        first matches Ok(d) ==> first_cert(seq![first] + more) == Some(d),
        first is Err ==> first_cert(seq![first] + more) is None,
        first_cert(Seq::empty()) is None,
{
    assert((seq![first] + more)[0] == first);
}

} // verus!
