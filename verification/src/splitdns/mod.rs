//! System-wide split DNS: which names are steered to the loopback resolver,
//! how the client marks what is its own, and how names are brought to one
//! form.
//!
//! Ownership rides on a tag: in a rule's comment, or in the first line of a
//! resolver file. What does not carry it is never touched.

use vstd::prelude::*;

use crate::addr;
use crate::crypto;
use crate::hex::to_hex;
use crate::text;

pub mod channel;
pub mod cycle;
pub mod journal;
pub mod lifecycle;
pub mod nrpt;
pub mod punycode;
pub mod reconciler;
pub mod resolver_files;
pub mod watchdog;
pub mod watchdog_macos;

verus! {

// ---------------------------------------------------------------------
// Ownership
// ---------------------------------------------------------------------

/// Beginning of the ownership tag; the generation follows.
pub const TAG_PREFIX: &'static str = "aztna:w43:";

/// The tag of a generation.
pub open spec fn tag_of(generation: Seq<char>) -> Seq<char> {
    TAG_PREFIX@ + generation
}

/// Writes the tag of a generation.
pub fn comment_for(generation: &str) -> (r: String)
    ensures
        r@ == tag_of(generation@),
{
    let mut out = text::chars(TAG_PREFIX);
    text::push_str(&mut out, generation);
    text::string(out.as_slice())
}

/// Whether a comment carries the tag.
pub fn is_ours(comment: &str) -> (r: bool)
    ensures
        r == text::has_prefix(comment@, TAG_PREFIX@),
{
    let cs = text::chars(comment);
    text::starts_with_str(cs.as_slice(), TAG_PREFIX)
}

/// The generation of a comment that carries the tag.
pub open spec fn tag_generation(comment: Seq<char>) -> Option<Seq<char>> {
    if text::has_prefix(comment, TAG_PREFIX@) {
        Some(text::rest(comment, TAG_PREFIX@.len() as int))
    } else {
        None
    }
}

fn tail_of(cs: &[char], prefix: &str) -> (r: Option<Vec<char>>)
    ensures
        match r {
            Some(v) => text::has_prefix(cs@, prefix@) && v@ == text::rest(
                cs@,
                prefix@.len() as int,
            ),
            None => !text::has_prefix(cs@, prefix@),
        },
{
    let p = text::chars(prefix);
    if text::starts_with(cs, p.as_slice()) {
        Some(text::cut(cs, p.len(), cs.len()))
    } else {
        None
    }
}

/// The generation of a comment that carries the tag.
pub fn generation_of(comment: &str) -> (r: Option<String>)
    ensures
        match r {
            Some(g) => tag_generation(comment@) == Some(g@),
            None => tag_generation(comment@) is None,
        },
{
    let cs = text::chars(comment);
    match tail_of(cs.as_slice(), TAG_PREFIX) {
        Some(v) => Some(text::string(v.as_slice())),
        None => None,
    }
}

/// The first line of a resolver file of a generation.
pub open spec fn marker_of(generation: Seq<char>) -> Seq<char> {
    "# "@ + tag_of(generation) + " managed"@
}

/// Writes the first line of a resolver file.
pub fn marker_line(generation: &str) -> (r: String)
    ensures
        r@ == marker_of(generation@),
{
    let mut out = text::chars("# ");
    let tag = comment_for(generation);
    text::push_str(&mut out, tag.as_str());
    text::push_str(&mut out, " managed");
    text::string(out.as_slice())
}

/// The generation that a first line carries; none for any other line, which
/// is someone else's.
pub open spec fn line_generation(line: Seq<char>) -> Option<Seq<char>> {
    if !text::has_prefix(line, "# "@) {
        None
    } else {
        let body = text::rest(line, 2);
        if !text::has_suffix(body, " managed"@) {
            None
        } else {
            tag_generation(body.subrange(0, body.len() - 8))
        }
    }
}

/// The generation that a first line carries.
pub fn marker_generation(first_line: &str) -> (r: Option<String>)
    ensures
        match r {
            Some(g) => line_generation(first_line@) == Some(g@),
            None => line_generation(first_line@) is None,
        },
{
    proof {
        reveal_strlit("# ");
        reveal_strlit(" managed");
    }
    let cs = text::chars(first_line);
    let body = match tail_of(cs.as_slice(), "# ") {
        Some(b) => b,
        None => {
            return None;
        },
    };
    if !text::ends_with_str(body.as_slice(), " managed") {
        return None;
    }
    let inner = text::cut(body.as_slice(), 0, body.len() - 8);
    match tail_of(inner.as_slice(), TAG_PREFIX) {
        Some(v) => Some(text::string(v.as_slice())),
        None => None,
    }
}

/// The contents of a resolver file: the marker, and the loopback resolver.
pub fn resolver_file_body(generation: &str) -> (r: String)
    ensures
        r@ == marker_of(generation@) + "\nnameserver 127.0.0.1\n"@,
{
    let m = marker_line(generation);
    let mut out = text::chars(m.as_str());
    text::push_str(&mut out, "\nnameserver 127.0.0.1\n");
    text::string(out.as_slice())
}

/// What is tagged reads back as its generation, in either form.
pub proof fn law_tag_reads_back(generation: Seq<char>)
    ensures
        tag_generation(tag_of(generation)) == Some(generation),
        line_generation(marker_of(generation)) == Some(generation),
{
    reveal_strlit("# ");
    reveal_strlit(" managed");
    let p = TAG_PREFIX@;
    let t = tag_of(generation);
    assert(t.subrange(0, p.len() as int) =~= p);
    assert(text::rest(t, p.len() as int) =~= generation);
    let m = marker_of(generation);
    assert(m.subrange(0, 2) =~= "# "@);
    let body = text::rest(m, 2);
    assert(body =~= t + " managed"@);
    assert(body.subrange(body.len() - 8, body.len() as int) =~= " managed"@);
    assert(body.subrange(0, body.len() - 8) =~= t);
}

/// Two generations never share a tag.
pub proof fn law_tags_are_distinct(a: Seq<char>, b: Seq<char>)
    requires
        a != b,
    ensures
        tag_of(a) != tag_of(b),
        marker_of(a) != marker_of(b),
{
    law_tag_reads_back(a);
    law_tag_reads_back(b);
}

// ---------------------------------------------------------------------
// Generations
// ---------------------------------------------------------------------

/// The eight bytes of a value, highest first.
pub open spec fn be64(v: u64) -> Seq<u8> {
    crate::bytes::be32((v / 0x1_0000_0000) as u32) + crate::bytes::be32(
        (v % 0x1_0000_0000) as u32,
    )
}

/// A generation out of eight random bytes and a time in microseconds: both in
/// hexadecimal, sixteen digits each.
pub fn generation_from(b: [u8; 8], now_micros: u64) -> (r: String)
    ensures
        r@ == crate::hex::hex(b@) + "-"@ + crate::hex::hex(be64(now_micros)),
{
    let mut out = to_hex(b.as_slice());
    text::push_str(&mut out, "-");
    let mut t: Vec<u8> = Vec::new();
    crate::bytes::push_be32(&mut t, (now_micros / 0x1_0000_0000) as u32);
    crate::bytes::push_be32(&mut t, (now_micros % 0x1_0000_0000) as u32);
    assert(t@ =~= be64(now_micros));
    let h = to_hex(t.as_slice());
    text::push_all(&mut out, h.as_slice());
    text::string(out.as_slice())
}

/// Whether a generation was minted at a time.
pub open spec fn minted_at(g: Seq<char>, now_micros: u64) -> bool {
    exists|b: Seq<u8>|
        b.len() == 8 && g == #[trigger] crate::hex::hex(b) + "-"@ + crate::hex::hex(
            be64(now_micros),
        )
}

/// Mints a generation; none where the system has no randomness.
pub fn new_generation(now_micros: u64) -> (r: Option<String>)
    ensures
        r matches Some(g) ==> minted_at(g@, now_micros),
{
    generation_drawn(crypto::random_bytes::<8>(), now_micros)
}

/// A generation out of a draw; none where the draw failed.
pub fn generation_drawn(drawn: Option<[u8; 8]>, now_micros: u64) -> (r: Option<String>)
    ensures
        match drawn {
            Some(b) => r matches Some(g) && g@ == crate::hex::hex(b@) + "-"@ + crate::hex::hex(
                be64(now_micros),
            ) && minted_at(g@, now_micros),
            None => r is None,
        },
{
    match drawn {
        Some(b) => {
            let g = generation_from(b, now_micros);
            assert(g@ == crate::hex::hex(b@) + "-"@ + crate::hex::hex(be64(now_micros)));
            Some(g)
        },
        None => None,
    }
}

// ---------------------------------------------------------------------
// Configuration
// ---------------------------------------------------------------------

/// How split DNS is run.
#[derive(Clone, Copy, Debug, PartialEq, Eq, Structural)]
pub enum SplitDnsMode {
    Off,
    Manual,
    Auto,
}

/// The mode where none is configured: automatic on Windows, manual elsewhere.
pub fn default_mode(windows: bool) -> (r: SplitDnsMode)
    ensures
        r == if windows {
            SplitDnsMode::Auto
        } else {
            SplitDnsMode::Manual
        },
{
    if windows {
        SplitDnsMode::Auto
    } else {
        SplitDnsMode::Manual
    }
}

/// Split-DNS settings: the mode, and the suffixes that may be steered. With
/// no suffix, nothing is.
#[derive(Debug)]
pub struct SplitDnsConfig {
    pub mode: SplitDnsMode,
    pub suffix_allowlist: Vec<String>,
}

// ---------------------------------------------------------------------
// Names
// ---------------------------------------------------------------------

/// Why a name is refused.
#[derive(Clone, Copy, Debug, PartialEq, Eq, Structural)]
pub enum SuffixError {
    Empty,
    Wildcard,
    LeadingDot,
    EmptyLabel,
    IpLiteral,
    InvalidIdn,
}

impl SuffixError {
    /// What the operator is told.
    pub fn message(&self) -> (r: &'static str)
        ensures
            r@ == match *self {
                SuffixError::Empty => "empty suffix"@,
                SuffixError::Wildcard => "wildcards are not allowed"@,
                SuffixError::LeadingDot => "leading dot"@,
                SuffixError::EmptyLabel => "empty label"@,
                SuffixError::IpLiteral => "IP literals are not allowed"@,
                SuffixError::InvalidIdn => "IDN label could not be punycoded"@,
            },
    {
        match self {
            SuffixError::Empty => "empty suffix",
            SuffixError::Wildcard => "wildcards are not allowed",
            SuffixError::LeadingDot => "leading dot",
            SuffixError::EmptyLabel => "empty label",
            SuffixError::IpLiteral => "IP literals are not allowed",
            SuffixError::InvalidIdn => "IDN label could not be punycoded",
        }
    }
}

/// Whether a text holds a letter.
pub open spec fn has_letter(s: Seq<char>) -> bool {
    exists|i: int| 0 <= i < s.len() && text::is_alphabetic(#[trigger] s[i])
}

/// `s` without brackets around it.
pub open spec fn unbracketed(s: Seq<char>) -> Seq<char> {
    text::drop_char(text::skip_char(s, '['), ']')
}

/// Whether a text reads as an address: an IPv4 one, an IPv6 one with or
/// without brackets, or anything with a colon and no letter.
pub open spec fn is_ip_like(s: Seq<char>) -> bool {
    ||| addr::is_ipv4(s)
    ||| addr::is_ipv6(unbracketed(s))
    ||| unbracketed(s).contains(':') && !has_letter(unbracketed(s))
}

fn looks_like_ip(s: &[char]) -> (r: bool)
    ensures
        r == is_ip_like(s@),
{
    if addr::ipv4(s) {
        return true;
    }
    let a = text::trim_start_char(s, '[');
    let t = text::trim_end_char(a.as_slice(), ']');
    if addr::ipv6(t.as_slice()) {
        return true;
    }
    let mut colon = false;
    let mut letter = false;
    let mut i: usize = 0;
    while i < t.len()
        invariant
            i <= t@.len(),
            colon == exists|j: int| 0 <= j < i && t@[j] == ':',
            letter == exists|j: int| 0 <= j < i && text::is_alphabetic(#[trigger] t@[j]),
        decreases t@.len() - i,
    {
        if t[i] == ':' {
            colon = true;
        }
        if text::alphabetic(t[i]) {
            assert(text::is_alphabetic(t@[i as int]));
            letter = true;
        }
        i += 1;
    }
    colon && !letter
}

/// The form of a label: itself within ASCII, else its encoding. None where it
/// cannot be encoded.
pub open spec fn label_form(label: Seq<char>) -> Option<Seq<char>> {
    if vstd::utf8::is_ascii_chars(label) {
        Some(label)
    } else {
        match punycode::encoded(label) {
            Some(e) => Some("xn--"@ + e),
            None => None,
        }
    }
}

/// The forms of labels; none where one has none.
pub open spec fn label_forms(labels: Seq<Seq<char>>) -> Option<Seq<Seq<char>>>
    decreases labels.len(),
{
    if labels.len() == 0 {
        Some(Seq::empty())
    } else {
        match (label_forms(labels.drop_last()), label_form(labels.last())) {
            (Some(fs), Some(f)) => Some(fs.push(f)),
            _ => None,
        }
    }
}

/// A lower-case name without one dot at its end.
pub open spec fn undotted(low: Seq<char>) -> Seq<char> {
    if low.len() > 0 && low.last() == '.' {
        low.drop_last()
    } else {
        low
    }
}

/// Whether a label is empty.
pub open spec fn has_empty(labels: Seq<Seq<char>>) -> bool {
    exists|i: int| 0 <= i < labels.len() && (#[trigger] labels[i]).len() == 0
}

/// The normal form of a lower-case name.
pub open spec fn normal_lowered(low: Seq<char>) -> Result<Seq<char>, SuffixError> {
    let s = undotted(low);
    if s.len() == 0 {
        Err(SuffixError::Empty)
    } else if s.contains('*') {
        Err(SuffixError::Wildcard)
    } else if s[0] == '.' {
        Err(SuffixError::LeadingDot)
    } else if has_empty(text::split(s, '.')) {
        Err(SuffixError::EmptyLabel)
    } else if is_ip_like(s) {
        Err(SuffixError::IpLiteral)
    } else {
        match label_forms(text::split(s, '.')) {
            Some(fs) => Ok(text::joined(fs, "."@)),
            None => Err(SuffixError::InvalidIdn),
        }
    }
}

/// The normal form of a name: trimmed, in lower case, without one dot at its
/// end, and with every label within ASCII.
pub open spec fn normal(raw: Seq<char>) -> Result<Seq<char>, SuffixError> {
    normal_lowered(text::lowercase(text::trimmed(raw)))
}

fn ascii(s: &[char]) -> (r: bool)
    ensures
        r == vstd::utf8::is_ascii_chars(s@),
{
    let mut i: usize = 0;
    while i < s.len()
        invariant
            i <= s.len(),
            forall|j: int| 0 <= j < i ==> '\0' <= #[trigger] s@[j] <= '\u{7f}',
        decreases s.len() - i,
    {
        let c: char = s[i];
        if !('\0' <= c && c <= '\u{7f}') {
            return false;
        }
        i += 1;
    }
    true
}

fn has_char(s: &[char], c: char) -> (r: bool)
    ensures
        r == s@.contains(c),
{
    let mut i: usize = 0;
    while i < s.len()
        invariant
            i <= s.len(),
            forall|j: int| 0 <= j < i ==> #[trigger] s@[j] != c,
        decreases s.len() - i,
    {
        if s[i] == c {
            assert(s@[i as int] == c);
            return true;
        }
        i += 1;
    }
    false
}

proof fn lemma_forms_prefix(labels: Seq<Seq<char>>, i: int)
    requires
        0 <= i <= labels.len(),
        label_forms(labels) is Some,
    ensures
        label_forms(labels.subrange(0, i)) is Some,
    decreases labels.len() - i,
{
    if i < labels.len() {
        lemma_forms_prefix(labels, i + 1);
        assert(labels.subrange(0, i + 1).drop_last() =~= labels.subrange(0, i));
    } else {
        assert(labels.subrange(0, i) =~= labels);
    }
}

fn form_labels(labels: &Vec<Vec<char>>) -> (r: Option<Vec<Vec<char>>>)
    ensures
        match r {
            Some(fs) => label_forms(text::views(labels@)) == Some(text::views(fs@)),
            None => label_forms(text::views(labels@)) is None,
        },
{
    let ghost all = text::views(labels@);
    let mut out: Vec<Vec<char>> = Vec::new();
    let mut i: usize = 0;
    assert(all.subrange(0, 0) =~= Seq::<Seq<char>>::empty());
    assert(text::views(out@) =~= Seq::<Seq<char>>::empty());
    while i < labels.len()
        invariant
            i <= labels@.len(),
            all == text::views(labels@),
            label_forms(all.subrange(0, i as int)) == Some(text::views(out@)),
        decreases labels@.len() - i,
    {
        let ghost next = all.subrange(0, i + 1);
        assert(next.drop_last() =~= all.subrange(0, i as int));
        assert(next.last() == labels@[i as int]@);
        let l = labels[i].as_slice();
        let f: Vec<char> = if ascii(l) {
            text::cut(l, 0, l.len())
        } else {
            match punycode::encode_chars(l) {
                Some(e) => {
                    let mut x = text::chars("xn--");
                    text::push_all(&mut x, e.as_slice());
                    x
                },
                None => {
                    proof {
                        if label_forms(all) is Some {
                            lemma_forms_prefix(all, i + 1);
                        }
                    }
                    return None;
                },
            }
        };
        let ghost fv = f@;
        assert(label_form(labels@[i as int]@) == Some(fv)) by {
            if vstd::utf8::is_ascii_chars(labels@[i as int]@) {
                assert(fv =~= labels@[i as int]@);
            }
        }
        let ghost before = out@;
        out.push(f);
        assert(text::views(out@) =~= text::views(before).push(fv));
        i += 1;
    }
    assert(all.subrange(0, i as int) =~= all);
    Some(out)
}

/// Brings a name that is already trimmed and in lower case to its normal form.
pub fn normalize_lowered(low: &str) -> (r: Result<String, SuffixError>)
    ensures
        match r {
            Ok(n) => normal_lowered(low@) == Ok::<Seq<char>, SuffixError>(n@),
            Err(e) => normal_lowered(low@) == Err::<Seq<char>, SuffixError>(e),
        },
{
    let cs = text::chars(low);
    let n: usize = cs.len();
    let s = if n > 0 && cs[n - 1] == '.' {
        text::cut(cs.as_slice(), 0, n - 1)
    } else {
        text::cut(cs.as_slice(), 0, n)
    };
    assert(s@ =~= undotted(low@));
    if s.len() == 0 {
        return Err(SuffixError::Empty);
    }
    if has_char(s.as_slice(), '*') {
        return Err(SuffixError::Wildcard);
    }
    if s[0] == '.' {
        return Err(SuffixError::LeadingDot);
    }
    let labels = text::split_at_char(s.as_slice(), '.');
    let mut i: usize = 0;
    while i < labels.len()
        invariant
            i <= labels@.len(),
            forall|j: int| 0 <= j < i ==> (#[trigger] labels@[j])@.len() > 0,
            text::views(labels@) == text::split(s@, '.'),
            s@ == undotted(low@),
            s@.len() > 0,
            !s@.contains('*'),
            s@[0] != '.',
        decreases labels@.len() - i,
    {
        if labels[i].len() == 0 {
            assert(text::views(labels@)[i as int].len() == 0);
            return Err(SuffixError::EmptyLabel);
        }
        i += 1;
    }
    assert(!has_empty(text::views(labels@))) by {
        if has_empty(text::views(labels@)) {
            let j = choose|j: int|
                0 <= j < text::views(labels@).len() && (#[trigger] text::views(labels@)[j]).len()
                    == 0;
            assert(labels@[j]@.len() > 0);
        }
    }
    if looks_like_ip(s.as_slice()) {
        return Err(SuffixError::IpLiteral);
    }
    match form_labels(&labels) {
        Some(fs) => {
            let j = text::join(&fs, ".");
            Ok(text::string(j.as_slice()))
        },
        None => Err(SuffixError::InvalidIdn),
    }
}

/// Brings a suffix or a zone name to its normal form, or says why it is none.
/// A normal form is well formed and in lower case, and where it has no white
/// space at its ends, it is its own normal form.
pub fn normalize_name(raw: &str) -> (r: Result<String, SuffixError>)
    ensures
        match r {
            Ok(n) => normal(raw@) == Ok::<Seq<char>, SuffixError>(n@),
            Err(e) => normal(raw@) == Err::<Seq<char>, SuffixError>(e),
        },
        r matches Ok(n) ==> {
            &&& is_formed(n@)
            &&& has_no_capital(n@)
            &&& text::trimmed(n@) == n@ ==> normal(n@) == Ok::<Seq<char>, SuffixError>(n@)
        },
{
    let cs = text::chars(raw);
    let t = text::trim(cs.as_slice());
    let ts = text::string(t.as_slice());
    let low = text::to_lowercase(ts.as_str());
    let r = normalize_lowered(low.as_str());
    proof {
        if let Ok(n) = &r {
            law_normal_form_is_formed(raw@);
            assert forall|c: char| #[trigger] n@.contains(c) implies !('A' <= c <= 'Z') by {
                if low@.contains(c) {
                    let j = choose|j: int| 0 <= j < low@.len() && low@[j] == c;
                    assert(!('A' <= low@[j] <= 'Z'));
                }
            }
            lemma_lower_stays(n@);
        }
    }
    r
}

proof fn lemma_forms_len(labels: Seq<Seq<char>>)
    requires
        label_forms(labels) is Some,
    ensures
        label_forms(labels)->Some_0.len() == labels.len(),
        forall|k: int|
            0 <= k < labels.len() ==> label_form(labels[k]) == Some(
                #[trigger] label_forms(labels)->Some_0[k],
            ),
    decreases labels.len(),
{
    if labels.len() > 0 {
        let t = labels.drop_last();
        lemma_forms_len(t);
        let fs = label_forms(labels)->Some_0;
        let ft = label_forms(t)->Some_0;
        assert(fs =~= ft.push(label_form(labels.last())->Some_0));
        assert forall|k: int| 0 <= k < labels.len() implies label_form(labels[k]) == Some(
            #[trigger] fs[k],
        ) by {
            if k < t.len() {
                assert(t[k] == labels[k]);
                assert(fs[k] == ft[k]);
            }
        }
    }
}

/// Whether a character is neither white space nor a capital letter of ASCII.
pub open spec fn is_plain_char(c: char) -> bool {
    !text::is_space(c) && !('A' <= c <= 'Z')
}

/// Whether a text holds neither white space nor a capital letter of ASCII.
pub open spec fn is_plain(s: Seq<char>) -> bool {
    forall|i: int| 0 <= i < s.len() ==> is_plain_char(#[trigger] s[i])
}

/// Whether a text holds no capital letter of ASCII.
pub open spec fn has_no_capital(s: Seq<char>) -> bool {
    forall|c: char| #[trigger] s.contains(c) ==> !('A' <= c <= 'Z')
}

/// Whether a character is a lower-case letter of ASCII, a digit or a hyphen.
pub open spec fn is_ldh(c: char) -> bool {
    'a' <= c <= 'z' || '0' <= c <= '9' || c == '-'
}

proof fn lemma_basic_char(c: char)
    ensures
        punycode::is_basic(c) ==> '\0' <= c <= '\u{7f}',
        punycode::digit_value(c) is Some || c == '-' ==> is_ldh(c),
{
}

/// A label's form is ASCII, not empty, and holds nothing that is neither in the
/// label nor a letter, a digit or a hyphen. The form of one beyond ASCII holds
/// an `x`.
proof fn lemma_label_form(label: Seq<char>)
    requires
        label.len() > 0,
        label_form(label) is Some,
    ensures
        ({
            let f = label_form(label)->Some_0;
            &&& f.len() > 0
            &&& vstd::utf8::is_ascii_chars(f)
            &&& label_form(f) == Some(f)
            &&& forall|c: char| #[trigger] f.contains(c) ==> label.contains(c) || is_ldh(c)
            &&& f == label || f.contains('x')
        }),
{
    let f = label_form(label)->Some_0;
    if !vstd::utf8::is_ascii_chars(label) {
        let e = punycode::encoded(label)->Some_0;
        reveal_strlit("xn--");
        let head = "xn--"@;
        assert(f == head + e);
        assert(f[0] == 'x');
        assert forall|i: int| 0 <= i < f.len() implies {
            &&& '\0' <= #[trigger] f[i] <= '\u{7f}'
            &&& label.contains(f[i]) || is_ldh(f[i])
        } by {
            if i >= 4 {
                punycode::lemma_encoded_chars(label, i - 4);
                assert(f[i] == e[i - 4]);
                lemma_basic_char(f[i]);
            } else {
                assert(f[i] == head[i]);
            }
        }
        assert forall|c: char| #[trigger] f.contains(c) implies label.contains(c) || is_ldh(c) by {
            let i = choose|i: int| 0 <= i < f.len() && f[i] == c;
            assert(f[i] == c);
        }
    }
}

/// Forms that are forms already stay as they are.
proof fn lemma_forms_stay(fs: Seq<Seq<char>>)
    requires
        forall|k: int| 0 <= k < fs.len() ==> label_form(#[trigger] fs[k]) == Some(fs[k]),
    ensures
        label_forms(fs) == Some(fs),
    decreases fs.len(),
{
    if fs.len() > 0 {
        let t = fs.drop_last();
        assert forall|k: int| 0 <= k < t.len() implies label_form(#[trigger] t[k]) == Some(
            t[k],
        ) by {
            assert(t[k] == fs[k]);
        }
        lemma_forms_stay(t);
        assert(fs.last() == fs[fs.len() - 1]);
        assert(t.push(fs.last()) =~= fs);
    }
}

proof fn lemma_x_is_no_ip(n: Seq<char>)
    requires
        n.contains('x'),
    ensures
        !is_ip_like(n),
{
    if addr::is_ipv4(n) {
        addr::lemma_ipv4_chars(n, 'x');
    }
    text::lemma_trim_keeps(n, '[', 'x');
    text::lemma_trim_keeps(text::skip_char(n, '['), ']', 'x');
    let u = unbracketed(n);
    if addr::is_ipv6(u) {
        addr::lemma_ipv6_chars(u, 'x');
    }
    let i = choose|i: int| 0 <= i < u.len() && u[i] == 'x';
    assert(text::is_alphabetic(u[i]));
}

/// Whether a name is well formed: within ASCII, with labels none of which is
/// empty, without a wildcard, and not an address.
pub open spec fn is_formed(n: Seq<char>) -> bool {
    &&& n.len() > 0
    &&& vstd::utf8::is_ascii_chars(n)
    &&& !n.contains('*')
    &&& !has_empty(text::split(n, '.'))
    &&& !is_ip_like(n)
}

/// Whether a name is settled: well formed, without white space or a capital
/// letter, and its own normal form.
pub open spec fn is_settled(n: Seq<char>) -> bool {
    &&& is_formed(n)
    &&& is_plain(n)
    &&& normal(n) == Ok::<Seq<char>, SuffixError>(n)
}

/// Law: a normal form is well formed. It has as many labels as the name in
/// lower case has without one dot at its end, and no character that is neither
/// in that name nor a lower-case letter, a digit, a hyphen or a dot. Taken as a
/// name in lower case, it is its own normal form.
pub proof fn law_normal_form_is_formed(raw: Seq<char>)
    requires
        normal(raw) is Ok,
    ensures
        ({
            let low = text::lowercase(text::trimmed(raw));
            let n = normal(raw)->Ok_0;
            &&& is_formed(n)
            &&& text::split(n, '.').len() == text::split(undotted(low), '.').len()
            &&& forall|c: char| #[trigger] n.contains(c) ==> low.contains(c) || is_ldh(c) || c == '.'
            &&& normal_lowered(n) == Ok::<Seq<char>, SuffixError>(n)
        }),
{
    lemma_normal_form(text::lowercase(text::trimmed(raw)));
}

/// A name within ASCII in lower case is its own lower case.
proof fn lemma_lower_stays(n: Seq<char>)
    requires
        vstd::utf8::is_ascii_chars(n),
        has_no_capital(n),
    ensures
        text::lowercase(n) == n,
{
    assert(text::ascii_lower(n) =~= n) by {
        assert forall|i: int| 0 <= i < n.len() implies text::lower(#[trigger] n[i]) == n[i] by {
            assert(n.contains(n[i]));
        }
    }
}

/// Law: the normal form of a name without white space is settled, and has as
/// many labels as the name without one dot at its end. This is of a name in
/// lower case; what the lower case of a text is beyond ASCII is not said here,
/// so it asks that no capital letter of ASCII and no white space is left in it.
pub proof fn law_normal_form_is_settled(low: Seq<char>)
    requires
        normal_lowered(low) is Ok,
        is_plain(low),
    ensures
        is_settled(normal_lowered(low)->Ok_0),
        text::split(normal_lowered(low)->Ok_0, '.').len() == text::split(undotted(low), '.').len(),
{
    let n = normal_lowered(low)->Ok_0;
    lemma_normal_form(low);
    assert forall|c: char| #[trigger] n.contains(c) implies is_plain_char(c) by {
        if low.contains(c) {
            let j = choose|j: int| 0 <= j < low.len() && low[j] == c;
            assert(is_plain_char(low[j]));
        }
    }
    assert forall|i: int| 0 <= i < n.len() implies is_plain_char(#[trigger] n[i]) by {
        assert(n.contains(n[i]));
    }
    lemma_lower_stays(n);
    lemma_plain_trimmed(n);
}

/// Law: the same of every ASCII name without white space, in any case.
pub proof fn law_ascii_name_settles(raw: Seq<char>)
    requires
        vstd::utf8::is_ascii_chars(raw),
        forall|i: int| 0 <= i < raw.len() ==> !text::is_space(#[trigger] raw[i]),
        normal(raw) is Ok,
    ensures
        is_settled(normal(raw)->Ok_0),
        text::split(normal(raw)->Ok_0, '.').len() == text::split(undotted(raw), '.').len(),
{
    lemma_no_space_trimmed(raw);
    let low = text::ascii_lower(raw);
    assert forall|i: int| 0 <= i < low.len() implies is_plain_char(#[trigger] low[i]) by {
        assert(!text::is_space(raw[i]));
        assert(low[i] == text::lower(raw[i]));
    }
    law_normal_form_is_settled(low);
    assert(undotted(low) =~= text::ascii_lower(undotted(raw)));
    lemma_split_lower(undotted(raw));
}

proof fn lemma_no_space_trimmed(s: Seq<char>)
    requires
        forall|i: int| 0 <= i < s.len() ==> !text::is_space(#[trigger] s[i]),
    ensures
        text::trimmed(s) == s,
{
    if s.len() > 0 {
        assert(!text::is_space(s[0]));
        assert(!text::is_space(s[s.len() - 1]));
    }
}

proof fn lemma_plain_trimmed(s: Seq<char>)
    requires
        is_plain(s),
    ensures
        text::trimmed(s) == s,
{
    assert forall|i: int| 0 <= i < s.len() implies !text::is_space(#[trigger] s[i]) by {
        assert(is_plain_char(s[i]));
    }
    lemma_no_space_trimmed(s);
}

/// The lower case of a text is cut at dots into as many pieces as the text.
proof fn lemma_split_lower(s: Seq<char>)
    ensures
        text::split(text::ascii_lower(s), '.').len() == text::split(s, '.').len(),
    decreases s.len(),
{
    let t = text::ascii_lower(s);
    lemma_until_lower(s);
    text::lemma_until(s, '.');
    let k = text::until(s, '.') as int;
    if k < s.len() {
        let rest = s.subrange(k + 1, s.len() as int);
        lemma_split_lower(rest);
        assert(t.subrange(k + 1, t.len() as int) =~= text::ascii_lower(rest));
    }
}

proof fn lemma_until_lower(s: Seq<char>)
    ensures
        text::until(text::ascii_lower(s), '.') == text::until(s, '.'),
    decreases s.len(),
{
    if s.len() > 0 {
        lemma_until_lower(s.drop_first());
        assert(text::ascii_lower(s).drop_first() =~= text::ascii_lower(s.drop_first()));
        assert(text::ascii_lower(s)[0] == text::lower(s[0]));
    }
}

proof fn lemma_normal_form(low: Seq<char>)
    requires
        normal_lowered(low) is Ok,
    ensures
        ({
            let n = normal_lowered(low)->Ok_0;
            &&& is_formed(n)
            &&& forall|c: char| #[trigger] n.contains(c) ==> low.contains(c) || is_ldh(c) || c == '.'
            &&& text::split(n, '.').len() == text::split(undotted(low), '.').len()
            &&& normal_lowered(n) == Ok::<Seq<char>, SuffixError>(n)
        }),
{
    let s = undotted(low);
    let labels = text::split(s, '.');
    let fs = label_forms(labels)->Some_0;
    let n = normal_lowered(low)->Ok_0;
    reveal_strlit(".");
    assert("."@ =~= seq!['.']);
    text::lemma_split_pieces(s, '.');
    lemma_forms_len(labels);
    assert forall|k: int| 0 <= k < fs.len() implies {
        let f = #[trigger] fs[k];
        &&& f.len() > 0
        &&& vstd::utf8::is_ascii_chars(f)
        &&& label_form(f) == Some(f)
        &&& !f.contains('.')
        &&& !f.contains('*')
        &&& f == labels[k] || f.contains('x')
        &&& forall|c: char| #[trigger] f.contains(c) ==> low.contains(c) || is_ldh(c)
    } by {
        assert(labels[k].len() > 0);
        lemma_label_form(labels[k]);
        assert forall|c: char| #[trigger] fs[k].contains(c) implies low.contains(c) || is_ldh(c) by {
            if labels[k].contains(c) {
                assert(text::in_piece(labels, c));
                let j = choose|j: int| 0 <= j < s.len() && s[j] == c;
                assert(low[j] == c);
            }
        }
        if fs[k].contains('*') {
            assert(labels[k].contains('*'));
            assert(text::in_piece(labels, '*'));
        }
        if fs[k].contains('.') {
            assert(labels[k].contains('.'));
        }
    }
    text::lemma_joined_split(fs, '.');
    text::lemma_split_pieces(n, '.');
    assert(text::split(n, '.') == fs);
    assert(n.len() > 0) by {
        assert(text::in_piece(fs, fs[0][0])) by {
            assert(fs[0].contains(fs[0][0]));
        }
    }
    assert forall|c: char| #[trigger] n.contains(c) implies low.contains(c) || is_ldh(c) || c
        == '.' by {
        if c != '.' {
            assert(text::in_piece(fs, c));
            let k = choose|k: int| 0 <= k < fs.len() && (#[trigger] fs[k]).contains(c);
            assert(fs[k].contains(c));
        }
    }
    assert forall|i: int| 0 <= i < n.len() implies '\0' <= #[trigger] n[i] <= '\u{7f}' by {
        assert(n.contains(n[i]));
        if n[i] != '.' {
            assert(text::in_piece(fs, n[i]));
            let k = choose|k: int| 0 <= k < fs.len() && (#[trigger] fs[k]).contains(n[i]);
            let j = choose|j: int| 0 <= j < fs[k].len() && fs[k][j] == n[i];
            assert('\0' <= fs[k][j] <= '\u{7f}');
        }
    }
    assert(!n.contains('*')) by {
        if n.contains('*') {
            assert(text::in_piece(fs, '*'));
        }
    }
    // neither end is a dot
    let last = fs.len() - 1;
    if fs.len() > 1 {
        text::lemma_joined_front(fs[0], fs.drop_first(), "."@);
        assert(seq![fs[0]] + fs.drop_first() =~= fs);
    }
    assert(n[0] == fs[0][0]);
    assert(fs[0].contains(fs[0][0]));
    assert(n.last() == fs[last].last());
    assert(fs[last].contains(fs[last].last()));
    assert(undotted(n) == n);
    // not an address
    if forall|k: int| 0 <= k < fs.len() ==> #[trigger] fs[k] == labels[k] {
        assert(fs =~= labels);
        text::lemma_split_joined(s, '.');
        assert(n == s);
    } else {
        let k = choose|k: int| 0 <= k < fs.len() && #[trigger] fs[k] != labels[k];
        assert(text::in_piece(fs, 'x'));
        lemma_x_is_no_ip(n);
    }
    lemma_forms_stay(fs);
}

/// Whether a name is a suffix, or lies under it.
pub open spec fn under(name: Seq<char>, suffix: Seq<char>) -> bool {
    name == suffix || text::has_suffix(name, "."@ + suffix)
}

/// Whether a name is a suffix, or lies under it.
pub fn suffix_matches(name: &str, suffix: &str) -> (r: bool)
    ensures
        r == under(name@, suffix@),
{
    if text::str_eq(name, suffix) {
        return true;
    }
    let mut dotted = text::chars(".");
    text::push_str(&mut dotted, suffix);
    let cs = text::chars(name);
    text::ends_with(cs.as_slice(), dotted.as_slice())
}

/// A match is aligned to labels: what stands before the suffix is nothing, or
/// ends in a dot.
pub proof fn law_suffix_is_label_aligned(name: Seq<char>, suffix: Seq<char>)
    requires
        under(name, suffix),
    ensures
        text::has_suffix(name, suffix),
        name.len() > suffix.len() ==> name[name.len() - suffix.len() - 1] == '.',
{
    reveal_strlit(".");
    if name == suffix {
        assert(name.subrange(0, name.len() as int) =~= suffix);
    } else {
        let d = "."@ + suffix;
        let k = name.len() - d.len();
        assert(name.subrange(k, name.len() as int)[0] == d[0]);
        assert(name.subrange(k + 1, name.len() as int) =~= suffix) by {
            assert forall|i: int| 0 <= i < suffix.len() implies name[k + 1 + i] == suffix[i] by {
                assert(name.subrange(k, name.len() as int)[i + 1] == d[i + 1]);
            }
        }
    }
}

/// A name that lies under a suffix which lies under another, lies under that.
pub proof fn law_under_is_transitive(a: Seq<char>, b: Seq<char>, c: Seq<char>)
    requires
        under(a, b),
        under(b, c),
    ensures
        under(a, c),
{
    if a != b && b != c {
        let (db, dc) = ("."@ + b, "."@ + c);
        let ka = a.len() - db.len();
        let kb = b.len() - dc.len();
        reveal_strlit(".");
        assert(a.subrange(a.len() - dc.len(), a.len() as int) =~= dc) by {
            assert forall|i: int| 0 <= i < dc.len() implies a[a.len() - dc.len() + i] == dc[i] by {
                assert(b.subrange(kb, b.len() as int)[i] == dc[i]);
                assert(a.subrange(ka, a.len() as int)[1 + kb + i] == db[1 + kb + i]);
            }
        }
    }
}

// ---------------------------------------------------------------------
// Desired names
// ---------------------------------------------------------------------

/// Why a zone name is not steered.
#[derive(Clone, Copy, Debug, PartialEq, Eq, Structural)]
pub enum RejectReason {
    /// It has no normal form.
    InvalidSuffix,
    /// It lies under no allowed suffix.
    NotAllowlisted,
}

/// Whether a name lies under an allowed suffix; an entry of the list that has
/// no normal form allows nothing.
pub open spec fn allowed(name: Seq<char>, allow: Seq<Seq<char>>) -> bool {
    exists|i: int|
        0 <= i < allow.len() && (#[trigger] normal(allow[i]) matches Ok(s) && under(name, s))
}

/// Why a zone name is not steered, if it is not.
pub open spec fn rejection(raw: Seq<char>, allow: Seq<Seq<char>>) -> Option<RejectReason> {
    match normal(raw) {
        Err(_) => Some(RejectReason::InvalidSuffix),
        Ok(n) => if allowed(n, allow) {
            None
        } else {
            Some(RejectReason::NotAllowlisted)
        },
    }
}

/// The zone names that are not steered, in order, with the reasons.
pub open spec fn rejections(names: Seq<Seq<char>>, allow: Seq<Seq<char>>) -> Seq<
    (Seq<char>, RejectReason),
>
    decreases names.len(),
{
    if names.len() == 0 {
        Seq::empty()
    } else {
        match rejection(names.last(), allow) {
            Some(r) => rejections(names.drop_last(), allow).push((names.last(), r)),
            None => rejections(names.drop_last(), allow),
        }
    }
}

/// Whether a name is to be steered: it is the normal form of a zone name, and
/// allowed.
pub open spec fn is_desired(n: Seq<char>, names: Seq<Seq<char>>, allow: Seq<Seq<char>>) -> bool {
    allowed(n, allow) && exists|i: int|
        0 <= i < names.len() && #[trigger] normal(names[i]) == Ok::<Seq<char>, SuffixError>(n)
}

/// In order, with nothing twice.
pub open spec fn strictly_sorted(v: Seq<Seq<char>>) -> bool {
    forall|i: int, j: int|
        0 <= i < j < v.len() ==> text::precedes(#[trigger] v[i], #[trigger] v[j])
}

/// Puts a name into its place among sorted names, unless it is there.
fn put_name(v: &mut Vec<String>, name: String)
    requires
        strictly_sorted(text::strs(old(v)@)),
    ensures
        strictly_sorted(text::strs(final(v)@)),
        forall|n: Seq<char>| #[trigger]
            text::strs(final(v)@).contains(n) <==> text::strs(old(v)@).contains(n) || n == name@,
{
    let ghost before = text::strs(v@);
    let ghost nv = name@;
    let nc = text::chars(name.as_str());
    let mut i: usize = 0;
    while i < v.len()
        invariant_except_break
            forall|j: int| 0 <= j < i ==> text::precedes(#[trigger] before[j], nv),
        invariant
            i <= v@.len(),
            before == text::strs(v@),
            strictly_sorted(before),
            nc@ == nv,
            name@ == nv,
            v@ == old(v)@,
        ensures
            forall|j: int| 0 <= j < i ==> text::precedes(#[trigger] before[j], nv),
            i == v@.len() || !text::precedes(before[i as int], nv),
        decreases v@.len() - i,
    {
        let c = text::chars(v[i].as_str());
        assert(before[i as int] == v@[i as int]@);
        if !text::comes_before(c.as_slice(), nc.as_slice()) {
            break;
        }
        i += 1;
    }
    if i < v.len() {
        assert(before[i as int] == v@[i as int]@);
        if text::str_eq(v[i].as_str(), name.as_str()) {
            assert forall|n: Seq<char>| #[trigger]
                text::strs(v@).contains(n) <==> before.contains(n) || n == nv by {
                if n == nv {
                    assert(before[i as int] == n);
                }
            }
            return;
        }
    }
    v.insert(i, name);
    let ghost after = text::strs(v@);
    proof {
        assert(after =~= before.insert(i as int, nv));
        assert forall|a: int, b: int| 0 <= a < b < after.len() implies text::precedes(
            #[trigger] after[a],
            #[trigger] after[b],
        ) by {
            let x = if a < i {
                a
            } else {
                a - 1
            };
            let y = if b < i {
                b
            } else {
                b - 1
            };
            if a == i {
                text::lemma_precedes_total(nv, before[i as int]);
                assert(text::precedes(nv, before[i as int]));
                if y > i {
                    assert(text::precedes(before[i as int], before[y]));
                    text::lemma_precedes_trans(nv, before[i as int], before[y]);
                }
                assert(after[b] == before[y]);
            } else if b == i {
                assert(after[a] == before[a]);
            } else {
                assert(after[a] == before[x] && after[b] == before[y]);
                assert(text::precedes(before[x], before[y]));
            }
        }
        assert forall|n: Seq<char>| #[trigger] after.contains(n) <==> before.contains(n) || n
            == nv by {
            if after.contains(n) {
                let k = choose|k: int| 0 <= k < after.len() && after[k] == n;
                if k < i {
                    assert(before[k] == n);
                } else if k > i {
                    assert(before[k - 1] == n);
                }
            }
            if before.contains(n) {
                let k = choose|k: int| 0 <= k < before.len() && before[k] == n;
                if k < i {
                    assert(after[k] == n);
                } else {
                    assert(after[k + 1] == n);
                }
            }
            if n == nv {
                assert(after[i as int] == n);
            }
        }
    }
}

fn is_allowed(name: &str, allow: &Vec<String>, Ghost(raw): Ghost<Seq<Seq<char>>>) -> (r: bool)
    requires
        forall|n: Seq<char>| #[trigger]
            text::strs(allow@).contains(n) <==> exists|i: int|
                0 <= i < raw.len() && #[trigger] normal(raw[i]) == Ok::<Seq<char>, SuffixError>(n),
    ensures
        r == allowed(name@, raw),
{
    let mut i: usize = 0;
    while i < allow.len()
        invariant
            i <= allow@.len(),
            forall|j: int| 0 <= j < i ==> !under(name@, (#[trigger] allow@[j])@),
            forall|n: Seq<char>| #[trigger]
                text::strs(allow@).contains(n) <==> exists|k: int|
                    0 <= k < raw.len() && #[trigger] normal(raw[k]) == Ok::<
                        Seq<char>,
                        SuffixError,
                    >(n),
        decreases allow@.len() - i,
    {
        if suffix_matches(name, allow[i].as_str()) {
            proof {
                let s = allow@[i as int]@;
                assert(text::strs(allow@)[i as int] == s);
                assert(text::strs(allow@).contains(s));
                let k = choose|k: int|
                    0 <= k < raw.len() && #[trigger] normal(raw[k]) == Ok::<
                        Seq<char>,
                        SuffixError,
                    >(s);
                assert(normal(raw[k]) matches Ok(x) && under(name@, x));
            }
            return true;
        }
        i += 1;
    }
    proof {
        if allowed(name@, raw) {
            let k = choose|k: int|
                0 <= k < raw.len() && (#[trigger] normal(raw[k]) matches Ok(s) && under(name@, s));
            let s = normal(raw[k])->Ok_0;
            assert(text::strs(allow@).contains(s));
            let j = choose|j: int| 0 <= j < text::strs(allow@).len() && text::strs(allow@)[j] == s;
            assert(allow@[j]@ == s);
        }
    }
    false
}

/// The names to steer, in order and each once, and the zone names that are
/// not, with the reasons.
pub fn desired_namespaces(zone_names: &Vec<String>, allowlist: &Vec<String>) -> (r: (
    Vec<String>,
    Vec<(String, RejectReason)>,
))
    ensures
        strictly_sorted(text::strs(r.0@)),
        forall|n: Seq<char>| #[trigger]
            text::strs(r.0@).contains(n) <==> is_desired(
                n,
                text::strs(zone_names@),
                text::strs(allowlist@),
            ),
        r.1@.map_values(|p: (String, RejectReason)| (p.0@, p.1)) == rejections(
            text::strs(zone_names@),
            text::strs(allowlist@),
        ),
{
    let ghost raw = text::strs(allowlist@);
    let ghost names = text::strs(zone_names@);
    let mut allow: Vec<String> = Vec::new();
    let mut i: usize = 0;
    while i < allowlist.len()
        invariant
            i <= allowlist@.len(),
            raw == text::strs(allowlist@),
            forall|n: Seq<char>| #[trigger]
                text::strs(allow@).contains(n) <==> exists|k: int|
                    0 <= k < i && #[trigger] normal(raw[k]) == Ok::<Seq<char>, SuffixError>(n),
        decreases allowlist@.len() - i,
    {
        let ghost before = text::strs(allow@);
        let x = normalize_name(allowlist[i].as_str());
        assert(raw[i as int] == allowlist@[i as int]@);
        if let Ok(n) = x {
            let ghost nv = n@;
            let ghost old_allow = allow@;
            allow.push(n);
            assert(text::strs(allow@) =~= before.push(nv));
            assert forall|m: Seq<char>| #[trigger]
                text::strs(allow@).contains(m) <==> exists|k: int|
                    0 <= k < i + 1 && #[trigger] normal(raw[k]) == Ok::<Seq<char>, SuffixError>(
                        m,
                    ) by {
                if text::strs(allow@).contains(m) {
                    let j = choose|j: int|
                        0 <= j < text::strs(allow@).len() && text::strs(allow@)[j] == m;
                    if j < before.len() {
                        assert(before[j] == m);
                        assert(before.contains(m));
                    } else {
                        assert(normal(raw[i as int]) == Ok::<Seq<char>, SuffixError>(m));
                    }
                }
                if exists|k: int|
                    0 <= k < i + 1 && #[trigger] normal(raw[k]) == Ok::<Seq<char>, SuffixError>(
                        m,
                    ) {
                    let k = choose|k: int|
                        0 <= k < i + 1 && #[trigger] normal(raw[k]) == Ok::<
                            Seq<char>,
                            SuffixError,
                        >(m);
                    if k < i {
                        assert(before.contains(m));
                        let j = choose|j: int| 0 <= j < before.len() && before[j] == m;
                        assert(text::strs(allow@)[j] == m);
                    } else {
                        assert(text::strs(allow@)[before.len() as int] == m);
                    }
                }
            }
        } else {
            assert forall|m: Seq<char>| #[trigger]
                text::strs(allow@).contains(m) <==> exists|k: int|
                    0 <= k < i + 1 && #[trigger] normal(raw[k]) == Ok::<Seq<char>, SuffixError>(
                        m,
                    ) by {
                if text::strs(allow@).contains(m) {
                    let k = choose|k: int|
                        0 <= k < i && #[trigger] normal(raw[k]) == Ok::<Seq<char>, SuffixError>(
                            m,
                        );
                    assert(0 <= k < i + 1);
                }
            }
        }
        i += 1;
    }
    assert(i == raw.len());
    let mut desired: Vec<String> = Vec::new();
    let mut rejected: Vec<(String, RejectReason)> = Vec::new();
    let mut j: usize = 0;
    assert(names.subrange(0, 0) =~= Seq::<Seq<char>>::empty());
    assert(reject_views(rejected@) =~= Seq::<(Seq<char>, RejectReason)>::empty());
    while j < zone_names.len()
        invariant
            j <= zone_names@.len(),
            names == text::strs(zone_names@),
            forall|n: Seq<char>| #[trigger]
                text::strs(allow@).contains(n) <==> exists|k: int|
                    0 <= k < raw.len() && #[trigger] normal(raw[k]) == Ok::<
                        Seq<char>,
                        SuffixError,
                    >(n),
            strictly_sorted(text::strs(desired@)),
            forall|n: Seq<char>| #[trigger]
                text::strs(desired@).contains(n) <==> desired_up_to(n, names, raw, j as int),
            reject_views(rejected@) == rejections(names.subrange(0, j as int), raw),
        decreases zone_names@.len() - j,
    {
        let ghost next = names.subrange(0, j + 1);
        assert(next.drop_last() =~= names.subrange(0, j as int));
        assert(next.last() == zone_names@[j as int]@);
        let ghost jn = names[j as int];
        assert(jn == zone_names@[j as int]@);
        let ghost d0 = text::strs(desired@);
        match normalize_name(zone_names[j].as_str()) {
            Err(_) => {
                let ghost before = rejected@;
                rejected.push((zone_names[j].clone(), RejectReason::InvalidSuffix));
                assert(reject_views(rejected@) =~= reject_views(before).push(
                    (jn, RejectReason::InvalidSuffix),
                ));
                assert forall|n: Seq<char>| #[trigger]
                    d0.contains(n) <==> desired_up_to(n, names, raw, j + 1) by {
                    lemma_up_to(n, names, raw, j as int);
                }
            },
            Ok(n) => {
                let ghost nv = n@;
                if is_allowed(n.as_str(), &allow, Ghost(raw)) {
                    put_name(&mut desired, n);
                    assert forall|m: Seq<char>| #[trigger]
                        text::strs(desired@).contains(m) <==> desired_up_to(
                            m,
                            names,
                            raw,
                            j + 1,
                        ) by {
                        lemma_up_to(m, names, raw, j as int);
                        assert(d0.contains(m) <==> desired_up_to(m, names, raw, j as int));
                    }
                } else {
                    let ghost before = rejected@;
                    rejected.push((zone_names[j].clone(), RejectReason::NotAllowlisted));
                    assert(reject_views(rejected@) =~= reject_views(before).push(
                        (jn, RejectReason::NotAllowlisted),
                    ));
                    assert forall|m: Seq<char>| #[trigger]
                        d0.contains(m) <==> desired_up_to(m, names, raw, j + 1) by {
                        lemma_up_to(m, names, raw, j as int);
                    }
                }
            },
        }
        j += 1;
    }
    assert(names.subrange(0, j as int) =~= names);
    (desired, rejected)
}

spec fn reject_views(v: Seq<(String, RejectReason)>) -> Seq<(Seq<char>, RejectReason)> {
    v.map_values(|p: (String, RejectReason)| (p.0@, p.1))
}

spec fn desired_up_to(
    n: Seq<char>,
    names: Seq<Seq<char>>,
    allow: Seq<Seq<char>>,
    j: int,
) -> bool {
    allowed(n, allow) && exists|i: int|
        0 <= i < j && #[trigger] normal(names[i]) == Ok::<Seq<char>, SuffixError>(n)
}

proof fn lemma_up_to(n: Seq<char>, names: Seq<Seq<char>>, allow: Seq<Seq<char>>, j: int)
    requires
        0 <= j < names.len(),
    ensures
        desired_up_to(n, names, allow, j + 1) <==> desired_up_to(n, names, allow, j) || (allowed(
            n,
            allow,
        ) && normal(names[j]) == Ok::<Seq<char>, SuffixError>(n)),
{
    if desired_up_to(n, names, allow, j) {
        let i = choose|i: int|
            0 <= i < j && #[trigger] normal(names[i]) == Ok::<Seq<char>, SuffixError>(n);
        assert(0 <= i < j + 1);
    }
}

/// With no allowed suffix, nothing is steered.
pub proof fn law_empty_allowlist_desires_nothing(n: Seq<char>, names: Seq<Seq<char>>)
    ensures
        !is_desired(n, names, Seq::empty()),
{
}

// ---------------------------------------------------------------------
// More laws
// ---------------------------------------------------------------------

/// Law: eight bytes of a value, the high half first, and in each half the high
/// bytes first.
pub proof fn law_be64(v: u64)
    ensures
        be64(v).len() == 8,
        crate::bytes::val32(be64(v), 0) * 0x1_0000_0000 + crate::bytes::val32(be64(v), 4) == v,
{
    let (h, l) = ((v / 0x1_0000_0000) as u32, (v % 0x1_0000_0000) as u32);
    crate::bytes::law_network_order(0, h);
    crate::bytes::law_network_order(0, l);
    let b = be64(v);
    assert(b[4] == crate::bytes::be32(l)[0] && b[5] == crate::bytes::be32(l)[1] && b[6]
        == crate::bytes::be32(l)[2] && b[7] == crate::bytes::be32(l)[3]);
    assert(v == h * 0x1_0000_0000 + l);
}

/// Law: a generation is sixteen digits that were drawn, a hyphen, and the time
/// in sixteen digits; of two times there are never the same.
pub proof fn law_generation_holds_its_time(g: Seq<char>, a: u64, b: u64)
    requires
        minted_at(g, a),
    ensures
        g.len() == 33,
        g[16] == '-',
        text::rest(g, 17) == crate::hex::hex(be64(a)),
        minted_at(g, b) ==> text::rest(g, 17) == crate::hex::hex(be64(b)),
{
    reveal_strlit("-");
    let x = choose|x: Seq<u8>|
        x.len() == 8 && g == #[trigger] crate::hex::hex(x) + "-"@ + crate::hex::hex(be64(a));
    assert(text::rest(g, 17) =~= crate::hex::hex(be64(a)));
    if minted_at(g, b) {
        let y = choose|y: Seq<u8>|
            y.len() == 8 && g == #[trigger] crate::hex::hex(y) + "-"@ + crate::hex::hex(be64(b));
        assert(text::rest(g, 17) =~= crate::hex::hex(be64(b)));
    }
}

/// Law: a comment is tagged exactly if it begins with the tag, and any other
/// line than a marker carries no generation.
pub proof fn law_what_is_tagged(comment: Seq<char>, line: Seq<char>)
    ensures
        tag_generation(comment) is Some <==> text::has_prefix(comment, "aztna:w43:"@),
        tag_generation(comment) matches Some(g) ==> comment == tag_of(g),
        line_generation(line) matches Some(g) ==> line == marker_of(g),
{
    reveal_strlit("aztna:w43:");
    reveal_strlit("# ");
    reveal_strlit(" managed");
    if let Some(g) = tag_generation(comment) {
        assert(comment =~= tag_of(g));
    }
    if let Some(g) = line_generation(line) {
        let body = text::rest(line, 2);
        let t = body.subrange(0, body.len() - 8);
        assert(t =~= tag_of(g));
        assert(body =~= t + " managed"@);
        assert(line =~= "# "@ + body);
        assert(line =~= marker_of(g));
    }
}

/// Law: what reads as an address: an IPv4 one, an IPv6 one with or without its
/// brackets, and what has a colon but no letter; a plain name does not.
pub proof fn law_address_like(s: Seq<char>)
    ensures
        addr::is_ipv4(s) ==> is_ip_like(s),
        s.len() > 0 && s[0] != '[' && s.last() != ']' && addr::is_ipv6(s) ==> is_ip_like(s)
            && is_ip_like(seq!['['] + s + seq![']']),
        s.len() > 0 && s[0] != '[' && s.last() != ']' && !s.contains(':') && !addr::is_ipv4(s)
            && !addr::is_ipv6(s) ==> !is_ip_like(s),
{
    if s.len() > 0 && s[0] != '[' && s.last() != ']' {
        assert(text::skip_char(s, '[') == s);
        assert(text::drop_char(s, ']') == s);
        let b = seq!['['] + s + seq![']'];
        let t = s + seq![']'];
        assert(b.drop_first() =~= t);
        assert(t[0] == s[0]);
        assert(text::skip_char(t, '[') == t);
        assert(text::skip_char(b, '[') == t);
        assert(t.drop_last() =~= s);
        assert(text::drop_char(t, ']') == s);
        assert(unbracketed(b) == s);
        assert(unbracketed(s) == s);
    }
}

/// Law: a label within ASCII is its own form; any other one's begins with the
/// mark of an encoded label, and is none exactly where it cannot be encoded.
pub proof fn law_label_form(l: Seq<char>)
    ensures
        vstd::utf8::is_ascii_chars(l) ==> label_form(l) == Some(l),
        !vstd::utf8::is_ascii_chars(l) ==> (label_form(l) is Some <==> punycode::encoded(l) is Some),
        !vstd::utf8::is_ascii_chars(l) ==> (label_form(l) matches Some(f) ==> text::has_prefix(
            f,
            "xn--"@,
        ) && text::rest(f, "xn--"@.len() as int) == punycode::encoded(l)->Some_0),
{
    if !vstd::utf8::is_ascii_chars(l) {
        if let Some(e) = punycode::encoded(l) {
            let f = "xn--"@ + e;
            assert(f.subrange(0, "xn--"@.len() as int) =~= "xn--"@);
            assert(text::rest(f, "xn--"@.len() as int) =~= e);
        }
    }
}

/// Law: labels have forms exactly if each has one, and they are those, in
/// order.
pub proof fn law_label_forms(ls: Seq<Seq<char>>)
    ensures
        label_forms(ls) is Some <==> forall|i: int|
            0 <= i < ls.len() ==> (#[trigger] label_form(ls[i])) is Some,
        label_forms(ls) matches Some(fs) ==> fs.len() == ls.len() && forall|i: int|
            0 <= i < ls.len() ==> #[trigger] label_form(ls[i]) == Some(fs[i]),
    decreases ls.len(),
{
    if ls.len() > 0 {
        let t = ls.drop_last();
        let k = ls.len() - 1;
        law_label_forms(t);
        assert(forall|i: int| 0 <= i < k ==> #[trigger] ls[i] == t[i]);
        if label_forms(ls) is Some {
            let fs = label_forms(ls)->Some_0;
            let gs = label_forms(t)->Some_0;
            assert forall|i: int| 0 <= i < ls.len() implies #[trigger] label_form(ls[i]) == Some(
                fs[i],
            ) by {
                if i < k {
                    assert(label_form(t[i]) == Some(gs[i]));
                }
            }
        } else if forall|i: int| 0 <= i < ls.len() ==> (#[trigger] label_form(ls[i])) is Some {
            assert(label_form(ls[k]) is Some);
            assert forall|i: int| 0 <= i < t.len() implies (#[trigger] label_form(
                t[i],
            )) is Some by {
                assert(label_form(ls[i]) is Some);
            }
        }
    }
}

/// Law: why a name has no normal form, in this order: nothing is left of it,
/// it holds a wildcard, it begins with a dot, a label of it is empty, it reads
/// as an address, or a label of it cannot be encoded. One dot at its end does
/// not count.
pub proof fn law_why_no_normal_form(low: Seq<char>)
    ensures
        ({
            let s = undotted(low);
            let r = normal_lowered(low);
            &&& s.len() == 0 <==> r == Err::<Seq<char>, SuffixError>(SuffixError::Empty)
            &&& s.len() > 0 && s.contains('*') <==> r == Err::<Seq<char>, SuffixError>(
                SuffixError::Wildcard,
            )
            &&& s.len() > 0 && !s.contains('*') && s[0] == '.' <==> r == Err::<
                Seq<char>,
                SuffixError,
            >(SuffixError::LeadingDot)
            &&& r == Err::<Seq<char>, SuffixError>(SuffixError::EmptyLabel) ==> has_empty(
                text::split(s, '.'),
            )
            &&& r == Err::<Seq<char>, SuffixError>(SuffixError::IpLiteral) ==> is_ip_like(s)
            &&& r == Err::<Seq<char>, SuffixError>(SuffixError::InvalidIdn) ==> label_forms(
                text::split(s, '.'),
            ) is None
            &&& has_empty(text::split(s, '.')) || is_ip_like(s) ==> r is Err
            &&& r is Ok ==> label_forms(text::split(s, '.')) is Some
            &&& r is Err || r->Ok_0 == text::joined(
                label_forms(text::split(s, '.'))->Some_0,
                "."@,
            )
        }),
        low.len() > 0 && low.last() == '.' ==> undotted(low).push('.') == low,
        low.len() == 0 || low.last() != '.' ==> undotted(low) == low,
{
    if low.len() > 0 && low.last() == '.' {
        assert(undotted(low).push('.') =~= low);
    }
}

/// Law: what is steered: a name that has a normal form under an allowed
/// suffix; one without a normal form is invalid, and one under no allowed
/// suffix is not on the list.
pub proof fn law_what_is_steered(raw: Seq<char>, allow: Seq<Seq<char>>)
    ensures
        normal(raw) is Err <==> rejection(raw, allow) == Some(RejectReason::InvalidSuffix),
        normal(raw) matches Ok(n) ==> (rejection(raw, allow) is None <==> exists|i: int|
            0 <= i < allow.len() && (#[trigger] normal(allow[i]) matches Ok(s) && (n == s
                || text::has_suffix(n, "."@ + s)))),
        normal(raw) is Ok && rejection(raw, allow) is Some ==> rejection(raw, allow) == Some(
            RejectReason::NotAllowlisted,
        ),
        normal(raw) matches Ok(n) ==> (rejection(raw, allow) is None <==> is_desired(
            n,
            seq![raw],
            allow,
        )),
{
    if let Ok(n) = normal(raw) {
        assert(seq![raw][0] == raw);
        if is_desired(n, seq![raw], allow) {
        }
        if allowed(n, allow) {
            assert(normal(seq![raw][0]) == Ok::<Seq<char>, SuffixError>(n));
            assert(is_desired(n, seq![raw], allow));
            let i = choose|i: int|
                0 <= i < allow.len() && (#[trigger] normal(allow[i]) matches Ok(s) && under(n, s));
            assert(normal(allow[i]) is Ok);
        }
        if exists|i: int|
            0 <= i < allow.len() && (#[trigger] normal(allow[i]) matches Ok(s) && (n == s
                || text::has_suffix(n, "."@ + s))) {
            let i = choose|i: int|
                0 <= i < allow.len() && (#[trigger] normal(allow[i]) matches Ok(s) && (n == s
                    || text::has_suffix(n, "."@ + s)));
            assert(under(n, normal(allow[i])->Ok_0));
            assert(allowed(n, allow));
        }
    }
}

/// Law: rejections are those of the names, in order, each with its reason, and
/// a name that is steered is not among them.
pub proof fn law_rejections(
    a: Seq<Seq<char>>,
    b: Seq<Seq<char>>,
    allow: Seq<Seq<char>>,
    raw: Seq<char>,
)
    ensures
        rejections(a + b, allow) == rejections(a, allow) + rejections(b, allow),
        rejection(raw, allow) is None ==> rejections(seq![raw], allow).len() == 0,
        rejection(raw, allow) matches Some(r) ==> rejections(seq![raw], allow) == seq![(raw, r)],
    decreases b.len(),
{
    assert(seq![raw].drop_last() =~= Seq::<Seq<char>>::empty());
    reveal_with_fuel(rejections, 2);
    if let Some(r) = rejection(raw, allow) {
        assert(rejections(seq![raw], allow) =~= seq![(raw, r)]);
    }
    if b.len() == 0 {
        assert(a + b =~= a);
        assert(rejections(a, allow) + rejections(b, allow) =~= rejections(a, allow));
    } else {
        assert((a + b).drop_last() =~= a + b.drop_last());
        assert((a + b).last() == b.last());
        law_rejections(a, b.drop_last(), allow, raw);
        assert(rejections(a + b, allow) =~= rejections(a, allow) + rejections(b, allow));
    }
}

/// Law: a longer allowlist allows no less, and more names desire no less.
pub proof fn law_desire_grows(
    n: Seq<char>,
    names: Seq<Seq<char>>,
    allow: Seq<Seq<char>>,
    more: Seq<Seq<char>>,
)
    requires
        is_desired(n, names, allow),
    ensures
        is_desired(n, names, allow + more),
        is_desired(n, names + more, allow),
{
    let i = choose|i: int|
        0 <= i < allow.len() && (#[trigger] normal(allow[i]) matches Ok(s) && under(n, s));
    assert((allow + more)[i] == allow[i]);
    assert(normal((allow + more)[i]) is Ok);
    let j = choose|j: int|
        0 <= j < names.len() && #[trigger] normal(names[j]) == Ok::<Seq<char>, SuffixError>(n);
    assert((names + more)[j] == names[j]);
    assert(normal((names + more)[j]) == Ok::<Seq<char>, SuffixError>(n));
}

} // verus!
