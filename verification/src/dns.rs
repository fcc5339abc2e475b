//! Split-horizon DNS answers: address queries for known names get the mapped
//! loopback address, other queries for known names an empty answer, and
//! everything else a name error. Nothing is ever forwarded.

use vstd::prelude::*;

use crate::bytes;
use crate::bytes::{append, copy_range, get_be16, push_be16, push_be32};
use crate::text;
use crate::zones::Zones;

verus! {

/// Query type of IPv4 addresses.
pub const TYPE_A: u16 = 1;

/// The Internet class.
pub const CLASS_IN: u16 = 1;

/// Seconds an answer may be kept; short, so that policy changes take hold.
pub const ANSWER_TTL_SECS: u32 = 5;

/// Compression pointers followed in one name.
pub const MAX_JUMPS: usize = 16;

/// Bytes that the labels of a name may take.
pub const MAX_NAME: usize = 255;

/// Response codes.
pub const NO_ERROR: u16 = 0;

pub const NX_DOMAIN: u16 = 3;

// ---------------------------------------------------------------------
// Queries
// ---------------------------------------------------------------------

/// Puts a label before the others of a name.
pub open spec fn with_label(
    label: Seq<u8>,
    r: Option<(Seq<Seq<u8>>, int)>,
) -> Option<(Seq<Seq<u8>>, int)> {
    match r {
        Some((ls, e)) => Some((seq![label] + ls, e)),
        None => None,
    }
}

/// The labels of the name at `pos` and the place behind its end. A length
/// byte with both top bits set is a pointer to an earlier place; `jumps`
/// pointers have been followed and `used` bytes taken up by labels so far.
pub open spec fn labels_at(pkt: Seq<u8>, pos: int, jumps: int, used: int) -> Option<
    (Seq<Seq<u8>>, int),
>
    decreases
            if jumps < MAX_JUMPS {
                MAX_JUMPS - jumps
            } else {
                0
            },
            pkt.len() - pos,
{
    if pos < 0 || pos >= pkt.len() {
        None
    } else if pkt[pos] == 0 {
        Some((Seq::empty(), pos + 1))
    } else if pkt[pos] >= 192 {
        let target = (pkt[pos] - 192) * 256 + pkt[pos + 1];
        if pos + 2 > pkt.len() || jumps >= MAX_JUMPS || target >= pos {
            None
        } else {
            labels_at(pkt, target, jumps + 1, used)
        }
    } else {
        let l = pkt[pos] as int;
        if pos + 1 + l > pkt.len() || used + l + 1 > MAX_NAME {
            None
        } else {
            with_label(
                pkt.subrange(pos + 1, pos + 1 + l),
                labels_at(pkt, pos + 1 + l, jumps, used + l + 1),
            )
        }
    }
}

/// Labels with their lengths before them.
pub open spec fn prefixed(ls: Seq<Seq<u8>>) -> Seq<u8>
    decreases ls.len(),
{
    if ls.len() == 0 {
        Seq::empty()
    } else {
        prefixed(ls.drop_last()) + seq![ls.last().len() as u8] + ls.last()
    }
}

/// A name on the wire, without compression.
pub open spec fn wire_name(ls: Seq<Seq<u8>>) -> Seq<u8> {
    prefixed(ls).push(0)
}

/// Labels with a dot behind each.
pub open spec fn dotted(ls: Seq<Seq<char>>) -> Seq<char>
    decreases ls.len(),
{
    if ls.len() == 0 {
        Seq::empty()
    } else {
        dotted(ls.drop_last()) + ls.last() + "."@
    }
}

/// The name that is looked up: dotted, without dots at the end, in ASCII
/// lower case.
pub open spec fn zone_name_of(ls: Seq<Seq<char>>) -> Seq<char> {
    text::ascii_lower(text::drop_char(dotted(ls), '.'))
}

/// Labels as text.
pub open spec fn label_texts(ls: Seq<Seq<u8>>) -> Seq<Seq<char>> {
    ls.map_values(|l: Seq<u8>| text::lossy(l))
}

/// A question.
#[derive(Debug)]
pub struct Question {
    pub id: u16,
    /// Whether recursion was asked for; echoed, never done.
    pub rd: bool,
    /// The name on the wire, without compression; echoed in the reply.
    pub raw_name: Vec<u8>,
    /// The name that is looked up.
    pub name: String,
    pub qtype: u16,
    pub qclass: u16,
}

/// Model of a [`Question`].
#[verifier::ext_equal]
pub struct QuestionView {
    pub id: int,
    pub rd: bool,
    pub raw_name: Seq<u8>,
    pub name: Seq<char>,
    pub qtype: int,
    pub qclass: int,
}

impl View for Question {
    type V = QuestionView;

    open spec fn view(&self) -> QuestionView {
        QuestionView {
            id: self.id as int,
            rd: self.rd,
            raw_name: self.raw_name@,
            name: self.name@,
            qtype: self.qtype as int,
            qclass: self.qclass as int,
        }
    }
}

/// The question of a query packet: a header that says query with at least one
/// question, a name, a type and a class. Anything else is none.
pub open spec fn question_of(pkt: Seq<u8>) -> Option<QuestionView> {
    if pkt.len() < 12 || pkt[2] >= 128 || bytes::val16(pkt, 4) < 1 {
        None
    } else {
        match labels_at(pkt, 12, 0, 0) {
            None => None,
            Some((ls, end)) => if end + 4 > pkt.len() {
                None
            } else {
                Some(
                    QuestionView {
                        id: bytes::val16(pkt, 0),
                        rd: pkt[2] % 2 == 1,
                        raw_name: wire_name(ls),
                        name: zone_name_of(label_texts(ls)),
                        qtype: bytes::val16(pkt, end),
                        qclass: bytes::val16(pkt, end + 2),
                    },
                )
            },
        }
    }
}

spec fn byte_views(v: Seq<Vec<u8>>) -> Seq<Seq<u8>> {
    v.map_values(|b: Vec<u8>| b@)
}

/// Puts labels before the others of a name.
spec fn with_labels(
    acc: Seq<Seq<u8>>,
    r: Option<(Seq<Seq<u8>>, int)>,
) -> Option<(Seq<Seq<u8>>, int)> {
    match r {
        Some((ls, e)) => Some((acc + ls, e)),
        None => None,
    }
}

fn read_labels(pkt: &[u8]) -> (r: Option<(Vec<Vec<u8>>, usize)>)
    requires
        pkt.len() >= 12,
    ensures
        match r {
            Some((ls, end)) => labels_at(pkt@, 12, 0, 0) == Some((byte_views(ls@), end as int))
                && end <= pkt.len(),
            None => labels_at(pkt@, 12, 0, 0) is None,
        },
{
    let n: usize = pkt.len();
    let mut out: Vec<Vec<u8>> = Vec::new();
    let mut pos: usize = 12;
    let mut jumps: usize = 0;
    let mut used: usize = 0;
    proof {
        if let Some((ls, e)) = labels_at(pkt@, 12, 0, 0) {
            assert(byte_views(out@) + ls =~= ls);
        }
    }
    loop
        invariant
            n == pkt.len(),
            jumps <= MAX_JUMPS,
            used <= MAX_NAME,
            pos <= n,
            labels_at(pkt@, 12, 0, 0) == with_labels(
                byte_views(out@),
                labels_at(pkt@, pos as int, jumps as int, used as int),
            ),
        decreases MAX_JUMPS - jumps, n - pos,
    {
        if pos >= n {
            return None;
        }
        let b: u8 = pkt[pos];
        if b == 0 {
            assert(byte_views(out@) + Seq::<Seq<u8>>::empty() =~= byte_views(out@));
            return Some((out, pos + 1));
        }
        if b >= 192 {
            if n - pos < 2 || jumps >= MAX_JUMPS {
                return None;
            }
            let target: usize = (b as usize - 192) * 256 + pkt[pos + 1] as usize;
            if target >= pos {
                return None;
            }
            pos = target;
            jumps += 1;
        } else {
            let l: usize = b as usize;
            if n - pos < 1 + l || used + l + 1 > MAX_NAME {
                return None;
            }
            let label = copy_range(pkt, pos + 1, pos + 1 + l);
            let ghost lv = label@;
            let ghost before = out@;
            out.push(label);
            assert(byte_views(out@) =~= byte_views(before).push(lv));
            proof {
                let tail = labels_at(pkt@, pos + 1 + l, jumps as int, used + l + 1);
                if let Some((ls, e)) = tail {
                    assert(byte_views(before) + (seq![lv] + ls) =~= byte_views(out@) + ls);
                }
            }
            pos = pos + 1 + l;
            used = used + l + 1;
        }
    }
}

fn wire_bytes(ls: &Vec<Vec<u8>>) -> (r: Vec<u8>)
    requires
        forall|i: int| 0 <= i < ls@.len() ==> (#[trigger] ls@[i])@.len() < 256,
    ensures
        r@ == wire_name(byte_views(ls@)),
{
    let ghost all = byte_views(ls@);
    let mut out: Vec<u8> = Vec::new();
    let mut i: usize = 0;
    assert(all.subrange(0, 0) =~= Seq::<Seq<u8>>::empty());
    while i < ls.len()
        invariant
            i <= ls@.len(),
            all == byte_views(ls@),
            forall|j: int| 0 <= j < ls@.len() ==> (#[trigger] ls@[j])@.len() < 256,
            out@ == prefixed(all.subrange(0, i as int)),
        decreases ls@.len() - i,
    {
        let ghost next = all.subrange(0, i + 1);
        assert(next.drop_last() =~= all.subrange(0, i as int));
        assert(next.last() == ls@[i as int]@);
        let ghost before = out@;
        out.push(ls[i].len() as u8);
        append(&mut out, ls[i].as_slice());
        assert(out@ =~= before + seq![ls@[i as int]@.len() as u8] + ls@[i as int]@);
        i += 1;
    }
    assert(all.subrange(0, i as int) =~= all);
    out.push(0);
    out
}

/// The name that is looked up for labels that are already text.
pub fn zone_name(ls: &Vec<String>) -> (r: String)
    ensures
        r@ == zone_name_of(text::strs(ls@)),
{
    let ghost all = text::strs(ls@);
    let mut out: Vec<char> = Vec::new();
    let mut i: usize = 0;
    assert(all.subrange(0, 0) =~= Seq::<Seq<char>>::empty());
    while i < ls.len()
        invariant
            i <= ls@.len(),
            all == text::strs(ls@),
            out@ == dotted(all.subrange(0, i as int)),
        decreases ls@.len() - i,
    {
        let ghost next = all.subrange(0, i + 1);
        assert(next.drop_last() =~= all.subrange(0, i as int));
        assert(next.last() == ls@[i as int]@);
        text::push_str(&mut out, ls[i].as_str());
        text::push_str(&mut out, ".");
        i += 1;
    }
    assert(all.subrange(0, i as int) =~= all);
    let t = text::trim_end_char(out.as_slice(), '.');
    let low = text::to_ascii_lower(t.as_slice());
    text::string(low.as_slice())
}

proof fn lemma_label_sizes(pkt: Seq<u8>, pos: int, jumps: int, used: int, i: int)
    requires
        labels_at(pkt, pos, jumps, used) matches Some((ls, _)) && 0 <= i < ls.len(),
    ensures
        0 < labels_at(pkt, pos, jumps, used)->Some_0.0[i].len() < 192,
    decreases
            if jumps < MAX_JUMPS {
                MAX_JUMPS - jumps
            } else {
                0
            },
            pkt.len() - pos,
{
    if pkt[pos] >= 192 {
        let target = (pkt[pos] - 192) * 256 + pkt[pos + 1];
        lemma_label_sizes(pkt, target, jumps + 1, used, i);
    } else if pkt[pos] != 0 {
        let l = pkt[pos] as int;
        if i > 0 {
            lemma_label_sizes(pkt, pos + 1 + l, jumps, used + l + 1, i - 1);
        }
    }
}

/// Reads a query packet; none where it is not one well-formed query.
pub fn parse_query(pkt: &[u8]) -> (r: Option<Question>)
    ensures
        match r {
            Some(q) => question_of(pkt@) == Some(q@),
            None => question_of(pkt@) is None,
        },
{
    if pkt.len() < 12 {
        return None;
    }
    if pkt[2] >= 128 {
        return None;
    }
    if get_be16(pkt, 4) < 1 {
        return None;
    }
    let (ls, end) = match read_labels(pkt) {
        Some(x) => x,
        None => {
            return None;
        },
    };
    if pkt.len() - end < 4 {
        return None;
    }
    proof {
        assert forall|i: int| 0 <= i < ls@.len() implies (#[trigger] ls@[i])@.len() < 256 by {
            lemma_label_sizes(pkt@, 12, 0, 0, i);
            assert(byte_views(ls@)[i] == ls@[i]@);
        }
    }
    let raw_name = wire_bytes(&ls);
    let mut texts: Vec<String> = Vec::new();
    let mut i: usize = 0;
    while i < ls.len()
        invariant
            i <= ls@.len(),
            text::strs(texts@) == label_texts(byte_views(ls@)).subrange(0, i as int),
        decreases ls@.len() - i,
    {
        let t = text::from_utf8_lossy(ls[i].as_slice());
        let ghost tv = t@;
        let ghost before = texts@;
        texts.push(t);
        assert(text::strs(texts@) =~= text::strs(before).push(tv));
        assert(byte_views(ls@)[i as int] == ls@[i as int]@);
        i += 1;
        assert(text::strs(texts@) =~= label_texts(byte_views(ls@)).subrange(0, i as int));
    }
    assert(text::strs(texts@) =~= label_texts(byte_views(ls@)));
    Some(
        Question {
            id: get_be16(pkt, 0),
            rd: pkt[2] % 2 == 1,
            raw_name,
            name: zone_name(&texts),
            qtype: get_be16(pkt, end),
            qclass: get_be16(pkt, end + 2),
        },
    )
}

// ---------------------------------------------------------------------
// Replies
// ---------------------------------------------------------------------

/// Whether every part is a number of one byte.
pub open spec fn all_bytes(parts: Seq<Seq<char>>) -> bool {
    forall|i: int| 0 <= i < parts.len() ==> text::number(#[trigger] parts[i], 255) is Some
}

/// The numbers of parts that are numbers of one byte.
pub open spec fn part_bytes(parts: Seq<Seq<char>>) -> Seq<u8> {
    parts.map_values(|p: Seq<char>| text::number(p, 255)->Some_0 as u8)
}

/// The four bytes of a mapped address: four numbers of one byte with dots
/// between; none where it is not one.
pub open spec fn octets_of(ip: Option<Seq<char>>) -> Option<Seq<u8>> {
    match ip {
        Some(s) => {
            let parts = text::split(s, '.');
            if parts.len() == 4 && all_bytes(parts) {
                Some(part_bytes(parts))
            } else {
                None
            }
        },
        None => None,
    }
}

/// Whether a question asks for IPv4 addresses.
pub open spec fn asks_address(q: QuestionView) -> bool {
    q.qtype == TYPE_A && q.qclass == CLASS_IN
}

/// Response code: a name error exactly for names without an address.
pub open spec fn rcode_of(octets: Option<Seq<u8>>) -> u16 {
    if octets is Some {
        NO_ERROR
    } else {
        NX_DOMAIN
    }
}

/// The reply to a question whose name has the given bytes as its address.
pub open spec fn reply_of(q: QuestionView, octets: Option<Seq<u8>>) -> Seq<u8> {
    let answered = asks_address(q) && octets is Some;
    let flags = 0x8000 + if q.rd {
        0x0100int
    } else {
        0
    } + rcode_of(octets);
    let head = bytes::be16(q.id as u16) + bytes::be16(flags as u16) + bytes::be16(1) + bytes::be16(
        if answered {
            1
        } else {
            0
        },
    ) + bytes::be16(0) + bytes::be16(0) + q.raw_name + bytes::be16(q.qtype as u16) + bytes::be16(
        q.qclass as u16,
    );
    if answered {
        head + bytes::be16(0xC00C) + bytes::be16(TYPE_A) + bytes::be16(CLASS_IN) + bytes::be32(
            ANSWER_TTL_SECS,
        ) + bytes::be16(4) + octets->Some_0
    } else {
        head
    }
}

fn address_bytes(ip: Option<&str>) -> (r: Option<Vec<u8>>)
    ensures
        match r {
            Some(o) => octets_of(
                match ip {
                    Some(s) => Some(s@),
                    None => None,
                },
            ) == Some(o@),
            None => octets_of(
                match ip {
                    Some(s) => Some(s@),
                    None => None,
                },
            ) is None,
        },
{
    let s = match ip {
        Some(s) => s,
        None => {
            return None;
        },
    };
    let cs = text::chars(s);
    let parts = text::split_at_char(cs.as_slice(), '.');
    let ghost all = text::views(parts@);
    if parts.len() != 4 {
        return None;
    }
    let mut out: Vec<u8> = Vec::new();
    let mut i: usize = 0;
    while i < 4
        invariant
            i <= 4,
            parts@.len() == 4,
            ip == Some(s),
            all == text::views(parts@),
            all == text::split(s@, '.'),
            out@.len() == i,
            forall|j: int|
                0 <= j < i ==> text::number(#[trigger] all[j], 255) is Some && out@[j]
                    == part_bytes(all)[j],
        decreases 4 - i,
    {
        assert(all[i as int] == parts@[i as int]@);
        match text::parse_number(parts[i].as_slice(), 255) {
            Some(n) => {
                out.push(n as u8);
            },
            None => {
                assert(!all_bytes(all));
                return None;
            },
        }
        i += 1;
    }
    assert(out@ =~= part_bytes(all));
    Some(out)
}

/// Builds the reply to a question, given the address its name maps to.
pub fn build_reply(q: &Question, answer_ip: Option<&str>) -> (r: Vec<u8>)
    ensures
        r@ == reply_of(
            q@,
            octets_of(
                match answer_ip {
                    Some(s) => Some(s@),
                    None => None,
                },
            ),
        ),
{
    let octets = address_bytes(answer_ip);
    let rcode: u16 = if octets.is_some() {
        NO_ERROR
    } else {
        NX_DOMAIN
    };
    let answered = q.qtype == TYPE_A && q.qclass == CLASS_IN && octets.is_some();
    let rd_flag: u16 = if q.rd {
        0x0100
    } else {
        0
    };
    let mut out: Vec<u8> = Vec::new();
    push_be16(&mut out, q.id);
    push_be16(&mut out, 0x8000 + rd_flag + rcode);
    push_be16(&mut out, 1);
    push_be16(
        &mut out,
        if answered {
            1
        } else {
            0
        },
    );
    push_be16(&mut out, 0);
    push_be16(&mut out, 0);
    append(&mut out, q.raw_name.as_slice());
    push_be16(&mut out, q.qtype);
    push_be16(&mut out, q.qclass);
    if answered {
        if let Some(o) = &octets {
            push_be16(&mut out, 0xC00C);
            push_be16(&mut out, TYPE_A);
            push_be16(&mut out, CLASS_IN);
            push_be32(&mut out, ANSWER_TTL_SECS);
            push_be16(&mut out, 4);
            append(&mut out, o.as_slice());
        }
    }
    out
}

/// How a query is counted.
pub open spec fn result_of(q: QuestionView, known: bool) -> Seq<char> {
    if !known {
        "nxdomain"@
    } else if asks_address(q) {
        "answered"@
    } else {
        "empty"@
    }
}

/// Answers a packet from the zones: the reply and how it is counted. What is
/// not a query gets no reply.
pub fn respond(pkt: &[u8], zones: &Zones) -> (r: Option<(Vec<u8>, &'static str)>)
    requires
        zones.wf(),
    ensures
        match r {
            Some((reply, label)) => {
                &&& question_of(pkt@) matches Some(q)
                &&& reply@ == reply_of(
                    q,
                    octets_of(
                        if zones@.names.contains_key(q.name) {
                            Some(zones@.names[q.name])
                        } else {
                            None
                        },
                    ),
                )
                &&& label@ == result_of(q, zones@.names.contains_key(q.name))
            },
            None => question_of(pkt@) is None,
        },
{
    let q = match parse_query(pkt) {
        Some(q) => q,
        None => {
            return None;
        },
    };
    let ip = zones.lookup(q.name.as_str());
    match ip {
        Some(s) => {
            let label = if q.qtype == TYPE_A && q.qclass == CLASS_IN {
                "answered"
            } else {
                "empty"
            };
            Some((build_reply(&q, Some(s.as_str())), label))
        },
        None => Some((build_reply(&q, None), "nxdomain")),
    }
}

// ---------------------------------------------------------------------
// Laws
// ---------------------------------------------------------------------

/// A reply carries the question's id and echoes the question, whatever the
/// answer is.
pub proof fn law_reply_echoes_question(q: QuestionView, octets: Option<Seq<u8>>)
    requires
        0 <= q.id <= u16::MAX,
        0 <= q.qtype <= u16::MAX,
        0 <= q.qclass <= u16::MAX,
    ensures
        ({
            let r = reply_of(q, octets);
            let n = q.raw_name.len() as int;
            &&& r.len() >= 16 + n
            &&& bytes::val16(r, 0) == q.id
            &&& r.subrange(12, 12 + n) == q.raw_name
            &&& bytes::val16(r, 12 + n) == q.qtype
            &&& bytes::val16(r, 14 + n) == q.qclass
        }),
{
    let r = reply_of(q, octets);
    let n = q.raw_name.len() as int;
    assert(r.subrange(12, 12 + n) =~= q.raw_name);
    assert(r[12 + n] == bytes::be16(q.qtype as u16)[0]);
    assert(r[13 + n] == bytes::be16(q.qtype as u16)[1]);
    assert(r[14 + n] == bytes::be16(q.qclass as u16)[0]);
    assert(r[15 + n] == bytes::be16(q.qclass as u16)[1]);
}

/// A name without an address is answered with a name error and no record;
/// one with an address never is.
pub proof fn law_unknown_name_is_name_error(q: QuestionView, octets: Option<Seq<u8>>)
    requires
        octets matches Some(o) ==> o.len() == 4,
    ensures
        bytes::val16(reply_of(q, octets), 2) % 16 == (if octets is None {
            NX_DOMAIN
        } else {
            NO_ERROR
        }),
        bytes::val16(reply_of(q, octets), 6) == (if octets is Some && asks_address(q) {
            1int
        } else {
            0
        }),
        octets is None ==> reply_of(q, octets).len() == 16 + q.raw_name.len(),
{
    let r = reply_of(q, octets);
    let flags = (0x8000 + if q.rd {
        0x0100int
    } else {
        0
    } + rcode_of(octets)) as u16;
    assert(r[2] == bytes::be16(flags)[0] && r[3] == bytes::be16(flags)[1]);
    let a: u16 = if octets is Some && asks_address(q) {
        1
    } else {
        0
    };
    assert(r[6] == bytes::be16(a)[0] && r[7] == bytes::be16(a)[1]);
}

/// A reply is not a query: two responders never answer each other.
pub proof fn law_reply_is_no_query(q: QuestionView, octets: Option<Seq<u8>>)
    ensures
        question_of(reply_of(q, octets)) is None,
{
    let r = reply_of(q, octets);
    let flags = (0x8000 + if q.rd {
        0x0100int
    } else {
        0
    } + rcode_of(octets)) as u16;
    assert(r[2] == bytes::be16(flags)[0]);
}

/// A query packet with one question.
pub open spec fn query_packet(id: u16, rd: bool, ls: Seq<Seq<u8>>, qtype: u16, qclass: u16) -> Seq<
    u8,
> {
    bytes::be16(id) + bytes::be16(
        if rd {
            0x0100
        } else {
            0
        },
    ) + bytes::be16(1) + bytes::be16(0) + bytes::be16(0) + bytes::be16(0) + wire_name(ls)
        + bytes::be16(qtype) + bytes::be16(qclass)
}

/// Bytes that labels take up on the wire.
pub open spec fn wire_len(ls: Seq<Seq<u8>>) -> int {
    prefixed(ls).len() as int
}

proof fn lemma_prefixed_first(ls: Seq<Seq<u8>>)
    requires
        ls.len() > 0,
    ensures
        prefixed(ls) == seq![ls[0].len() as u8] + ls[0] + prefixed(ls.drop_first()),
    decreases ls.len(),
{
    let t = ls.drop_first();
    if ls.len() == 1 {
        assert(ls.drop_last() =~= Seq::<Seq<u8>>::empty());
        assert(t =~= Seq::<Seq<u8>>::empty());
        assert(prefixed(ls) =~= seq![ls[0].len() as u8] + ls[0] + prefixed(t));
    } else {
        lemma_prefixed_first(ls.drop_last());
        assert(ls.drop_last().drop_first() =~= t.drop_last());
        assert(t.last() == ls.last());
        assert(prefixed(ls) =~= seq![ls[0].len() as u8] + ls[0] + prefixed(t));
    }
}

proof fn lemma_labels_read_back(pkt: Seq<u8>, pos: int, used: int, ls: Seq<Seq<u8>>)
    requires
        0 <= pos,
        0 <= used,
        pos + wire_len(ls) + 1 <= pkt.len(),
        pkt.subrange(pos, pos + wire_len(ls) + 1) == wire_name(ls),
        used + wire_len(ls) <= MAX_NAME,
        forall|i: int| 0 <= i < ls.len() ==> 0 < (#[trigger] ls[i]).len() < 64,
    ensures
        labels_at(pkt, pos, 0, used) == Some((ls, pos + wire_len(ls) + 1)),
    decreases ls.len(),
{
    let w = wire_name(ls);
    assert(w[0] == pkt[pos]);
    if ls.len() == 0 {
        assert(prefixed(ls).len() == 0);
        assert(ls =~= Seq::<Seq<u8>>::empty());
    } else {
        lemma_prefixed_first(ls);
        let l = ls[0].len() as int;
        let t = ls.drop_first();
        assert(0 < ls[0].len() < 64);
        assert(prefixed(ls).len() == 1 + l + prefixed(t).len());
        let next = pos + 1 + l;
        assert(pkt.subrange(pos + 1, next) =~= ls[0]) by {
            assert forall|k: int| 0 <= k < l implies pkt[pos + 1 + k] == ls[0][k] by {
                assert(w[1 + k] == pkt.subrange(pos, pos + wire_len(ls) + 1)[1 + k]);
                assert(w[1 + k] == ls[0][k]);
            }
        }
        assert(pkt.subrange(next, next + wire_len(t) + 1) =~= wire_name(t)) by {
            assert forall|k: int| 0 <= k < wire_len(t) + 1 implies pkt[next + k] == wire_name(
                t,
            )[k] by {
                assert(w[1 + l + k] == pkt.subrange(pos, pos + wire_len(ls) + 1)[1 + l + k]);
            }
        }
        assert forall|i: int| 0 <= i < t.len() implies 0 < (#[trigger] t[i]).len() < 64 by {
            assert(t[i] == ls[i + 1]);
        }
        lemma_labels_read_back(pkt, next, used + l + 1, t);
        assert(seq![ls[0]] + t =~= ls);
    }
}

/// A query for any name that fits is read as just that query.
pub proof fn law_query_reads_back(id: u16, rd: bool, ls: Seq<Seq<u8>>, qtype: u16, qclass: u16)
    requires
        forall|i: int| 0 <= i < ls.len() ==> 0 < (#[trigger] ls[i]).len() < 64,
        wire_len(ls) <= MAX_NAME,
    ensures
        question_of(query_packet(id, rd, ls, qtype, qclass)) == Some(
            QuestionView {
                id: id as int,
                rd,
                raw_name: wire_name(ls),
                name: zone_name_of(label_texts(ls)),
                qtype: qtype as int,
                qclass: qclass as int,
            },
        ),
{
    let p = query_packet(id, rd, ls, qtype, qclass);
    let n = wire_len(ls);
    assert(p.len() == 12 + n + 1 + 4);
    assert(p.subrange(12, 12 + n + 1) =~= wire_name(ls));
    lemma_labels_read_back(p, 12, 0, ls);
    let e = 12 + n + 1;
    assert(p[e] == bytes::be16(qtype)[0] && p[e + 1] == bytes::be16(qtype)[1]);
    assert(p[e + 2] == bytes::be16(qclass)[0] && p[e + 3] == bytes::be16(qclass)[1]);
    let f: u16 = if rd {
        0x0100
    } else {
        0
    };
    assert(p[2] == bytes::be16(f)[0]);
    assert(p[4] == 0 && p[5] == 1);
}

/// Law: an address question about a name with an address is answered with one
/// record for the asked name: an IPv4 address of the Internet class, kept for
/// five seconds, and its four bytes are those of the address, in order.
pub proof fn law_answer_carries_the_address(q: QuestionView, octets: Seq<u8>)
    requires
        q.qtype == 1,
        q.qclass == 1,
        octets.len() == 4,
    ensures
        ({
            let r = reply_of(q, Some(octets));
            let at = 16 + q.raw_name.len() as int;
            &&& r.len() == at + 16
            &&& bytes::val16(r, 6) == 1
            &&& r[at] == 0xC0 && r[at + 1] == 12
            &&& bytes::val16(r, at + 2) == 1
            &&& bytes::val16(r, at + 4) == 1
            &&& bytes::val32(r, at + 6) == 5
            &&& bytes::val16(r, at + 10) == 4
            &&& r.subrange(at + 12, at + 16) == octets
        }),
{
    let r = reply_of(q, Some(octets));
    let at = 16 + q.raw_name.len() as int;
    law_unknown_name_is_name_error(q, Some(octets));
    assert(bytes::be32(5) =~= seq![0u8, 0u8, 0u8, 5u8]);
    assert(bytes::be16(0xC00C) =~= seq![0xC0u8, 12u8]);
    assert(bytes::be16(1) =~= seq![0u8, 1u8]);
    assert(bytes::be16(4) =~= seq![0u8, 4u8]);
    assert(r[at] == 0xC0 && r[at + 1] == 12);
    assert(r[at + 2] == 0 && r[at + 3] == 1);
    assert(r[at + 4] == 0 && r[at + 5] == 1);
    assert(r[at + 6] == 0 && r[at + 7] == 0 && r[at + 8] == 0 && r[at + 9] == 5);
    assert(r[at + 10] == 0 && r[at + 11] == 4);
    assert(r.subrange(at + 12, at + 16) =~= octets);
}

/// Law: a question of another type or class about a known name gets an empty
/// answer: no record, and no error.
pub proof fn law_other_questions_get_nothing(q: QuestionView, octets: Seq<u8>)
    requires
        q.qtype != 1 || q.qclass != 1,
        octets.len() == 4,
    ensures
        reply_of(q, Some(octets)).len() == 16 + q.raw_name.len(),
        bytes::val16(reply_of(q, Some(octets)), 6) == 0,
        bytes::val16(reply_of(q, Some(octets)), 2) % 16 == 0,
{
    law_unknown_name_is_name_error(q, Some(octets));
}

/// Law: the flags of a reply say that it is one and echo whether recursion was
/// asked for, and nothing else but the response code; one question, no other
/// records.
pub proof fn law_reply_header(q: QuestionView, octets: Option<Seq<u8>>)
    ensures
        ({
            let r = reply_of(q, octets);
            &&& r[2] == (if q.rd {
                0x81u8
            } else {
                0x80u8
            })
            &&& r[3] < 16
            &&& bytes::val16(r, 4) == 1
            &&& bytes::val16(r, 8) == 0
            &&& bytes::val16(r, 10) == 0
        }),
{
    let r = reply_of(q, octets);
    let flags = (0x8000 + if q.rd {
        0x0100int
    } else {
        0
    } + rcode_of(octets)) as u16;
    assert(r[2] == bytes::be16(flags)[0] && r[3] == bytes::be16(flags)[1]);
    assert(r[4] == bytes::be16(1)[0] && r[5] == bytes::be16(1)[1]);
    assert(r[8] == bytes::be16(0)[0] && r[9] == bytes::be16(0)[1]);
    assert(r[10] == bytes::be16(0)[0] && r[11] == bytes::be16(0)[1]);
}

/// Law: an address written as four numbers with dots between gives those four
/// bytes, in that order.
pub proof fn law_address_gives_its_bytes(a: u8, b: u8, c: u8, d: u8)
    ensures
        octets_of(
            Some(
                text::joined(
                    seq![
                        text::decimal(a as nat),
                        text::decimal(b as nat),
                        text::decimal(c as nat),
                        text::decimal(d as nat),
                    ],
                    seq!['.'],
                ),
            ),
        ) == Some(seq![a, b, c, d]),
        octets_of(None) is None,
{
    let p = seq![
        text::decimal(a as nat),
        text::decimal(b as nat),
        text::decimal(c as nat),
        text::decimal(d as nat),
    ];
    let v = seq![a, b, c, d];
    assert forall|k: int| 0 <= k < p.len() implies !(#[trigger] p[k]).contains('.')
        && text::number(p[k], 255) == Some(v[k] as nat) by {
        assert(p[k] == text::decimal(v[k] as nat));
        text::lemma_decimal_value(v[k] as nat);
        text::lemma_decimal_number(v[k] as nat, 255);
        if p[k].contains('.') {
            let i = choose|i: int| 0 <= i < p[k].len() && p[k][i] == '.';
            assert(text::is_digit(p[k][i]));
        }
    }
    text::lemma_joined_split(p, '.');
    assert(part_bytes(p) =~= v);
}

/// Law: an address that does not have exactly four parts between its dots is
/// none.
pub proof fn law_address_has_four_parts(ip: Seq<char>, parts: Seq<Seq<char>>)
    requires
        parts.len() > 0,
        forall|k: int| 0 <= k < parts.len() ==> !(#[trigger] parts[k]).contains('.'),
        ip == text::joined(parts, seq!['.']),
        parts.len() != 4,
    ensures
        octets_of(Some(ip)) is None,
{
    text::lemma_joined_split(parts, '.');
}

/// Law: labels are looked up with dots between them, in lower case, without
/// a dot at the end.
pub proof fn law_name_joins_labels(ls: Seq<Seq<char>>)
    requires
        ls.len() > 0,
        ls.last().len() > 0,
        ls.last().last() != '.',
    ensures
        zone_name_of(ls) == text::ascii_lower(text::joined(ls, seq!['.'])),
{
    reveal_strlit(".");
    assert("."@ =~= seq!['.']);
    lemma_dotted(ls);
    let j = text::joined(ls, seq!['.']);
    let d = dotted(ls);
    assert(d.drop_last() =~= j);
    lemma_joined_last(ls);
    reveal_with_fuel(text::drop_char, 3);
}

proof fn lemma_dotted(ls: Seq<Seq<char>>)
    requires
        ls.len() > 0,
    ensures
        dotted(ls) == text::joined(ls, seq!['.']) + seq!['.'],
    decreases ls.len(),
{
    reveal_strlit(".");
    assert("."@ =~= seq!['.']);
    if ls.len() == 1 {
        assert(ls.drop_last() =~= Seq::<Seq<char>>::empty());
        reveal_with_fuel(dotted, 2);
        assert(dotted(ls) =~= ls[0] + seq!['.']);
    } else {
        lemma_dotted(ls.drop_last());
    }
}

proof fn lemma_joined_last(ls: Seq<Seq<char>>)
    requires
        ls.len() > 0,
        ls.last().len() > 0,
    ensures
        text::joined(ls, seq!['.']).len() > 0,
        text::joined(ls, seq!['.']).last() == ls.last().last(),
{
}

/// Law: what is no query. A packet shorter than a header, one that says it is
/// a reply, or one without a question has none.
pub proof fn law_what_is_no_query(pkt: Seq<u8>)
    ensures
        pkt.len() < 12 ==> question_of(pkt) is None,
        pkt.len() >= 12 && pkt[2] >= 0x80 ==> question_of(pkt) is None,
        pkt.len() >= 12 && pkt[4] == 0 && pkt[5] == 0 ==> question_of(pkt) is None,
        question_of(pkt) matches Some(q) ==> q.id == pkt[0] * 256 + pkt[1] && (q.rd <==> pkt[2] % 2
            == 1),
{
}

/// Law: a compressed name is the name it points to: a pointer leads only
/// backwards, at most sixteen times, and reads on there.
pub proof fn law_pointers_lead_back(pkt: Seq<u8>, pos: int, jumps: int, used: int)
    requires
        0 <= pos < pkt.len() - 1,
        0 <= jumps,
        pkt[pos] >= 0xC0,
    ensures
        ({
            let target = (pkt[pos] - 0xC0) * 256 + pkt[pos + 1];
            &&& target >= pos || jumps >= 16 ==> labels_at(pkt, pos, jumps, used) is None
            &&& target < pos && jumps < 16 ==> labels_at(pkt, pos, jumps, used) == labels_at(
                pkt,
                target,
                jumps + 1,
                used,
            )
        }),
{
}

/// Law: no name is longer than a name may be: its labels with their length
/// bytes take at most 255 bytes.
pub proof fn law_names_are_bounded(pkt: Seq<u8>, pos: int, jumps: int, used: int)
    requires
        0 <= used <= MAX_NAME,
    ensures
        labels_at(pkt, pos, jumps, used) matches Some((ls, _)) ==> used + wire_len(ls) <= 255,
    decreases
            if jumps < MAX_JUMPS {
                MAX_JUMPS - jumps
            } else {
                0
            },
            pkt.len() - pos,
{
    if 0 <= pos < pkt.len() && pkt[pos] != 0 && labels_at(pkt, pos, jumps, used) is Some {
        if pkt[pos] >= 192 {
            law_names_are_bounded(
                pkt,
                (pkt[pos] - 192) * 256 + pkt[pos + 1],
                jumps + 1,
                used,
            );
        } else {
            let l = pkt[pos] as int;
            law_names_are_bounded(pkt, pos + 1 + l, jumps, used + l + 1);
            let ls = labels_at(pkt, pos, jumps, used)->Some_0.0;
            lemma_prefixed_first(ls);
            assert(ls.drop_first() =~= labels_at(pkt, pos + 1 + l, jumps, used + l + 1)->Some_0.0);
        }
    }
}

/// Law: how a query is counted: by whether its name is known, and for a known
/// one by whether an address was asked for.
pub proof fn law_query_labels(q: QuestionView)
    ensures
        result_of(q, false) == "nxdomain"@,
        q.qtype == 1 && q.qclass == 1 ==> result_of(q, true) == "answered"@,
        q.qtype != 1 || q.qclass != 1 ==> result_of(q, true) == "empty"@,
{
}

/// Law: the model of a question holds each part under its own name.
pub proof fn law_question_model(q: Question)
    ensures
        q@.id == q.id,
        q@.rd == q.rd,
        q@.raw_name == q.raw_name@,
        q@.name == q.name@,
        q@.qtype == q.qtype,
        q@.qclass == q.qclass,
{
}

} // verus!
