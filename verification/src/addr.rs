//! Destinations, relays and listener addresses as users and the controller
//! write them.

use vstd::prelude::*;

use crate::text;

verus! {

/// Whether a text is one decimal number of an IPv4 address.
pub open spec fn is_octet(s: Seq<char>) -> bool {
    &&& text::is_digits(s)
    &&& s.len() <= 3
    &&& s.len() > 1 ==> s[0] != '0'
    &&& text::dec_value(s) <= 255
}

/// Whether a text is an IPv4 address: four numbers separated by dots.
pub open spec fn is_ipv4(s: Seq<char>) -> bool {
    let parts = text::split(s, '.');
    parts.len() == 4 && forall|i: int| 0 <= i < 4 ==> is_octet(#[trigger] parts[i])
}

fn octet(s: &[char]) -> (r: bool)
    ensures
        r == is_octet(s@),
{
    if s.len() == 0 || s.len() > 3 || (s.len() > 1 && s[0] == '0') || s[0] == '+' {
        proof {
            if s.len() > 0 && s@[0] == '+' {
                assert(!text::is_digit(s@[0]));
            }
        }
        return false;
    }
    match text::parse_number(s, 255) {
        Some(_) => true,
        None => false,
    }
}

/// Whether a text is an IPv4 address.
pub fn ipv4(s: &[char]) -> (r: bool)
    ensures
        r == is_ipv4(s@),
{
    let parts = text::split_at_char(s, '.');
    assert(text::views(parts@).len() == parts@.len());
    if parts.len() != 4 {
        return false;
    }
    let mut i: usize = 0;
    while i < 4
        invariant
            i <= 4,
            parts@.len() == 4,
            text::views(parts@) == text::split(s@, '.'),
            forall|j: int| 0 <= j < i ==> is_octet(#[trigger] text::split(s@, '.')[j]),
        decreases 4 - i,
    {
        assert(text::views(parts@)[i as int] == parts@[i as int]@);
        if !octet(parts[i].as_slice()) {
            return false;
        }
        i += 1;
    }
    true
}

/// The signed number that a text spells, if it does and fits: digits after an
/// optional sign.
pub open spec fn signed_number(s: Seq<char>) -> Option<int> {
    if s.len() > 0 && s[0] == '-' {
        let d = s.drop_first();
        if text::is_digits(d) && text::dec_value(d) <= 0x8000_0000_0000_0000 {
            Some(-(text::dec_value(d) as int))
        } else {
            None
        }
    } else {
        match text::number(s, i64::MAX as nat) {
            Some(v) => Some(v as int),
            None => None,
        }
    }
}

/// Reads a signed number.
pub fn parse_signed(s: &[char]) -> (r: Option<i64>)
    ensures
        match r {
            Some(v) => signed_number(s@) == Some(v as int),
            None => signed_number(s@) is None,
        },
{
    if s.len() > 0 && s[0] == '-' {
        let d = text::cut(s, 1, s.len());
        assert(d@ =~= s@.drop_first());
        if d.len() > 0 && d[0] == '+' {
            assert(!text::is_digit(d@[0]));
            return None;
        }
        assert(text::strip_plus(d@) == d@);
        match text::parse_number(d.as_slice(), 0x8000_0000_0000_0000) {
            Some(v) => {
                if v == 0x8000_0000_0000_0000 {
                    Some(i64::MIN)
                } else {
                    Some(-(v as i64))
                }
            },
            None => None,
        }
    } else {
        match text::parse_number(s, i64::MAX as u64) {
            Some(v) => Some(v as i64),
            None => None,
        }
    }
}

/// Whether `k` is the place of the last `c`.
pub open spec fn is_last_at(s: Seq<char>, c: char, k: int) -> bool {
    0 <= k < s.len() && s[k] == c && forall|i: int| k < i < s.len() ==> s[i] != c
}

/// Place of the last `c`.
pub fn last_index_of(s: &[char], c: char) -> (r: Option<usize>)
    ensures
        match r {
            Some(k) => is_last_at(s@, c, k as int),
            None => forall|i: int| 0 <= i < s@.len() ==> s@[i] != c,
        },
{
    let mut n: usize = s.len();
    while n > 0
        invariant
            n <= s.len(),
            forall|i: int| n <= i < s@.len() ==> s@[i] != c,
        decreases n,
    {
        if s[n - 1] == c {
            return Some(n - 1);
        }
        n -= 1;
    }
    None
}

/// `(before, after)` the last `c`.
pub open spec fn rsplit(s: Seq<char>, c: char) -> Option<(Seq<char>, Seq<char>)> {
    if exists|k: int| is_last_at(s, c, k) {
        let k = choose|k: int| is_last_at(s, c, k);
        Some((s.subrange(0, k), text::rest(s, k + 1)))
    } else {
        None
    }
}

/// Splits at the last `c`.
pub fn rsplit_at(s: &[char], c: char) -> (r: Option<(Vec<char>, Vec<char>)>)
    ensures
        match r {
            Some((a, b)) => rsplit(s@, c) == Some((a@, b@)),
            None => rsplit(s@, c) is None,
        },
{
    match last_index_of(s, c) {
        Some(k) => {
            proof {
                assert(is_last_at(s@, c, k as int));
                let m = choose|m: int| is_last_at(s@, c, m);
                assert(m == k) by {
                    if m < k {
                        assert(s@[k as int] != c);
                    }
                    if k < m {
                        assert(s@[m] != c);
                    }
                }
            }
            assert(k < s.len());
            Some((text::cut(s, 0, k), text::cut(s, k + 1, s.len())))
        },
        None => {
            assert(forall|k: int| !is_last_at(s@, c, k));
            None
        },
    }
}

/// `(before, after)` the first `c`.
pub open spec fn split_once(s: Seq<char>, c: char) -> Option<(Seq<char>, Seq<char>)> {
    let k = text::until(s, c) as int;
    if k < s.len() {
        Some((s.subrange(0, k), text::rest(s, k + 1)))
    } else {
        None
    }
}

/// Splits at the first `c`.
pub fn split_once_at(s: &[char], c: char) -> (r: Option<(Vec<char>, Vec<char>)>)
    ensures
        match r {
            Some((a, b)) => split_once(s@, c) == Some((a@, b@)),
            None => split_once(s@, c) is None,
        },
{
    let k: usize = text::index_of_char(s, c, 0);
    assert(text::rest(s@, 0) =~= s@);
    if k < s.len() {
        Some((text::cut(s, 0, k), text::cut(s, k + 1, s.len())))
    } else {
        None
    }
}

/// A destination: a host, whether it is an address rather than a name, and a
/// port.
#[derive(Debug, Clone, PartialEq, Eq)]
pub struct Target {
    pub host: String,
    pub is_ip: bool,
    pub port: i64,
}

impl Target {
    /// The host as a decision request names it: a name, or an address.
    pub fn named(&self) -> (r: (Option<&str>, Option<&str>))
        ensures
            match r {
                (Some(name), None) => !self.is_ip && name@ == self.host@,
                (None, Some(address)) => self.is_ip && address@ == self.host@,
                _ => false,
            },
    {
        if self.is_ip {
            (None, Some(self.host.as_str()))
        } else {
            (Some(self.host.as_str()), None)
        }
    }
}

/// Why a destination could not be read.
#[derive(Debug, Clone, Copy, PartialEq, Eq, Structural)]
pub enum DestError {
    /// No colon between host and port.
    NoColon,
    /// The port is not a number.
    BadPort,
}

/// The destination a text names, as `(host, is_ip, port)`.
pub open spec fn target(dest: Seq<char>) -> Result<(Seq<char>, bool, int), DestError> {
    match split_once(dest, ':') {
        None => Err(DestError::NoColon),
        Some((host, port)) => match signed_number(port) {
            None => Err(DestError::BadPort),
            Some(p) => Ok((host, is_ipv4(host), p)),
        },
    }
}

/// Reads `host:port`.
pub fn parse_dest(dest: &str) -> (r: Result<Target, DestError>)
    ensures
        match r {
            Ok(t) => target(dest@) == Ok::<(Seq<char>, bool, int), DestError>(
                (t.host@, t.is_ip, t.port as int),
            ),
            Err(e) => target(dest@) == Err::<(Seq<char>, bool, int), DestError>(e),
        },
{
    let cs = text::chars(dest);
    match split_once_at(cs.as_slice(), ':') {
        None => Err(DestError::NoColon),
        Some((host, port)) => match parse_signed(port.as_slice()) {
            None => Err(DestError::BadPort),
            Some(p) => {
                let is_ip = ipv4(host.as_slice());
                Ok(Target { host: text::string(host.as_slice()), is_ip, port: p })
            },
        },
    }
}

/// The relay a text names, as `(host, port)`.
pub open spec fn relay(s: Seq<char>) -> Result<(Seq<char>, nat), DestError> {
    match rsplit(s, ':') {
        None => Err(DestError::NoColon),
        Some((host, port)) => match text::number(port, u16::MAX as nat) {
            None => Err(DestError::BadPort),
            Some(p) => Ok((host, p)),
        },
    }
}

/// Reads a relay's `host:port`.
pub fn parse_relay(s: &str) -> (r: Result<(String, u16), DestError>)
    ensures
        match r {
            Ok((h, p)) => relay(s@) == Ok::<(Seq<char>, nat), DestError>((h@, p as nat)),
            Err(e) => relay(s@) == Err::<(Seq<char>, nat), DestError>(e),
        },
{
    let cs = text::chars(s);
    match rsplit_at(cs.as_slice(), ':') {
        None => Err(DestError::NoColon),
        Some((host, port)) => match text::parse_number(port.as_slice(), u16::MAX as u64) {
            None => Err(DestError::BadPort),
            Some(p) => Ok((text::string(host.as_slice()), p as u16)),
        },
    }
}

/// Port of the DNS responder where none is given.
pub const DNS_PORT: u16 = 53;

/// The host, or the loopback address where it is empty.
pub open spec fn host_or_loopback(h: Seq<char>) -> Seq<char> {
    if h.len() == 0 {
        "127.0.0.1"@
    } else {
        h
    }
}

/// The responder address that `[host][:port]` names.
pub open spec fn dns_addr(spec_text: Seq<char>) -> Option<(Seq<char>, nat)> {
    match rsplit(spec_text, ':') {
        Some((h, p)) => match text::number(p, u16::MAX as nat) {
            Some(port) => Some((host_or_loopback(h), port)),
            None => None,
        },
        None => Some((host_or_loopback(spec_text), DNS_PORT as nat)),
    }
}

fn host_text(h: &Vec<char>) -> (r: String)
    ensures
        r@ == host_or_loopback(h@),
{
    if h.len() == 0 {
        "127.0.0.1".to_owned()
    } else {
        text::string(h.as_slice())
    }
}

/// Reads `[host][:port]`; the host defaults to the loopback address, the port
/// to the DNS port. `None` where the port is not a number.
pub fn parse_dns_addr(spec_text: &str) -> (r: Option<(String, u16)>)
    ensures
        match r {
            Some((h, p)) => dns_addr(spec_text@) == Some((h@, p as nat)),
            None => dns_addr(spec_text@) is None,
        },
{
    let cs = text::chars(spec_text);
    match rsplit_at(cs.as_slice(), ':') {
        Some((h, p)) => match text::parse_number(p.as_slice(), u16::MAX as u64) {
            Some(port) => Some((host_text(&h), port as u16)),
            None => None,
        },
        None => Some((host_text(&cs), DNS_PORT)),
    }
}

// ---------------------------------------------------------------------
// IPv6
// ---------------------------------------------------------------------

/// Whether a text is one to four hexadecimal digits.
pub open spec fn is_hextet(s: Seq<char>) -> bool {
    &&& 1 <= s.len() <= 4
    &&& forall|i: int| 0 <= i < s.len() ==> (#[trigger] crate::hex::digit_value(s[i])) is Some
}

/// Number of sixteen-bit groups that parts between colons stand for; the last
/// may be an IPv4 address where `v4` allows it, and stands for two. None where
/// a part is neither.
pub open spec fn group_count(parts: Seq<Seq<char>>, v4: bool) -> Option<nat>
    decreases parts.len(),
{
    if parts.len() == 0 {
        Some(0)
    } else if is_hextet(parts[0]) {
        match group_count(parts.drop_first(), v4) {
            Some(n) => Some(1 + n),
            None => None,
        }
    } else if v4 && parts.len() == 1 && is_ipv4(parts[0]) {
        Some(2)
    } else {
        None
    }
}

/// Number of groups that a text stands for; none of them for an empty one.
pub open spec fn groups_in(s: Seq<char>, v4: bool) -> Option<nat> {
    if s.len() == 0 {
        Some(0)
    } else {
        group_count(text::split(s, ':'), v4)
    }
}

/// Whether a text is an IPv6 address: eight groups, or fewer with a double
/// colon for the zero groups left out. The last two may be written as an IPv4
/// address, though not before the double colon.
pub open spec fn is_ipv6(s: Seq<char>) -> bool {
    match text::find(s, "::"@) {
        None => groups_in(s, true) == Some(8nat),
        Some(i) => match (groups_in(s.subrange(0, i), false), groups_in(text::rest(s, i + 2), true)) {
            (Some(a), Some(b)) => a + b <= 7,
            _ => false,
        },
    }
}

/// An IPv4 address holds digits and dots only.
pub proof fn lemma_ipv4_chars(s: Seq<char>, x: char)
    requires
        is_ipv4(s),
        s.contains(x),
    ensures
        x == '.' || text::is_digit(x),
{
    let parts = text::split(s, '.');
    text::lemma_split_pieces(s, '.');
    if x != '.' {
        assert(text::in_piece(parts, x));
        let k = choose|k: int| 0 <= k < parts.len() && (#[trigger] parts[k]).contains(x);
        assert(is_octet(parts[k]));
        let i = choose|i: int| 0 <= i < parts[k].len() && parts[k][i] == x;
        assert(text::is_digit(parts[k][i]));
    }
}

proof fn lemma_groups_chars(parts: Seq<Seq<char>>, v4: bool, x: char)
    requires
        group_count(parts, v4) is Some,
        text::in_piece(parts, x),
    ensures
        x == '.' || crate::hex::digit_value(x) is Some,
    decreases parts.len(),
{
    let k = choose|k: int| 0 <= k < parts.len() && (#[trigger] parts[k]).contains(x);
    if is_hextet(parts[0]) {
        if k == 0 {
            let i = choose|i: int| 0 <= i < parts[0].len() && parts[0][i] == x;
            assert(crate::hex::digit_value(parts[0][i]) is Some);
        } else {
            assert(parts.drop_first()[k - 1].contains(x));
            lemma_groups_chars(parts.drop_first(), v4, x);
        }
    } else {
        lemma_ipv4_chars(parts[0], x);
    }
}

/// An IPv6 address holds hexadecimal digits, colons and dots only.
pub proof fn lemma_ipv6_chars(s: Seq<char>, x: char)
    requires
        is_ipv6(s),
        s.contains(x),
    ensures
        x == ':' || x == '.' || crate::hex::digit_value(x) is Some,
{
    if x != ':' {
        match text::find(s, "::"@) {
            None => {
                text::lemma_split_pieces(s, ':');
                assert(text::in_piece(text::split(s, ':'), x));
                lemma_groups_chars(text::split(s, ':'), true, x);
            },
            Some(i) => {
                reveal_strlit("::");
                text::lemma_find_from(s, "::"@, 0);
                let (a, b) = (s.subrange(0, i), text::rest(s, i + 2));
                let j = choose|j: int| 0 <= j < s.len() && s[j] == x;
                assert(s.subrange(i, i + 2) == "::"@);
                assert(s.subrange(i, i + 2)[0] == ':' && s.subrange(i, i + 2)[1] == ':');
                assert(j < i || j >= i + 2);
                let (t, v4) = if j < i {
                    (a, false)
                } else {
                    (b, true)
                };
                assert(t.contains(x)) by {
                    if j < i {
                        assert(a[j] == x);
                    } else {
                        assert(b[j - i - 2] == x);
                    }
                }
                text::lemma_split_pieces(t, ':');
                assert(text::in_piece(text::split(t, ':'), x));
                lemma_groups_chars(text::split(t, ':'), v4, x);
            },
        }
    }
}

fn hextet(s: &[char]) -> (r: bool)
    ensures
        r == is_hextet(s@),
{
    if s.len() < 1 || s.len() > 4 {
        return false;
    }
    let mut i: usize = 0;
    while i < s.len()
        invariant
            i <= s.len(),
            1 <= s.len() <= 4,
            forall|j: int|
                0 <= j < i ==> (#[trigger] crate::hex::digit_value(s@[j])) is Some,
        decreases s.len() - i,
    {
        if crate::hex::digit_of(s[i]).is_none() {
            assert(crate::hex::digit_value(s@[i as int]) is None);
            return false;
        }
        i += 1;
    }
    true
}

fn count_groups(s: &[char], v4: bool) -> (r: Option<u128>)
    ensures
        match r {
            Some(n) => groups_in(s@, v4) == Some(n as nat),
            None => groups_in(s@, v4) is None,
        },
{
    if s.len() == 0 {
        return Some(0u128);
    }
    let parts = text::split_at_char(s, ':');
    let ghost all = text::views(parts@);
    let mut i: usize = 0;
    assert(all.subrange(0, all.len() as int) =~= all);
    while i < parts.len()
        invariant
            i <= parts@.len(),
            all == text::views(parts@),
            group_count(all, v4) == match group_count(
                all.subrange(i as int, all.len() as int),
                v4,
            ) {
                Some(n) => Some(i as nat + n),
                None => None,
            },
            s@.len() > 0,
            all == text::split(s@, ':'),
        decreases parts@.len() - i,
    {
        let ghost tail = all.subrange(i as int, all.len() as int);
        assert(tail[0] == parts@[i as int]@);
        assert(tail.drop_first() =~= all.subrange(i + 1, all.len() as int));
        if hextet(parts[i].as_slice()) {
            i += 1;
        } else if v4 && i + 1 == parts.len() && ipv4(parts[i].as_slice()) {
            return Some(i as u128 + 2);
        } else {
            return None;
        }
    }
    assert(all.subrange(i as int, all.len() as int) =~= Seq::<Seq<char>>::empty());
    Some(i as u128)
}

/// Whether a text is an IPv6 address.
pub fn ipv6(s: &[char]) -> (r: bool)
    ensures
        r == is_ipv6(s@),
{
    let colons = text::chars("::");
    proof {
        reveal_strlit("::");
    }
    let n: usize = s.len();
    match text::index_of(s, colons.as_slice(), 0) {
        None => match count_groups(s, true) {
            Some(k) => k == 8,
            None => false,
        },
        Some(i) => {
            let head = text::cut(s, 0, i);
            let tail = text::cut(s, i + 2, n);
            match (count_groups(head.as_slice(), false), count_groups(tail.as_slice(), true)) {
                (Some(a), Some(b)) => a <= 7 && b <= 7 && a + b <= 7,
                _ => false,
            }
        },
    }
}

// ---------------------------------------------------------------------
// Laws
// ---------------------------------------------------------------------

proof fn lemma_cut_at(a: Seq<char>, c: char, b: Seq<char>)
    requires
        !a.contains(c),
    ensures
        text::until(a + seq![c] + b, c) == a.len(),
        text::until(a, c) == a.len(),
{
    let s = a + seq![c] + b;
    assert forall|i: int| 0 <= i < a.len() implies #[trigger] a[i] != c by {
        assert(a.contains(a[i]));
    }
    assert forall|i: int| 0 <= i < a.len() implies #[trigger] s[i] != c by {
        assert(s[i] == a[i]);
    }
    text::lemma_until_unique(s, c, a.len() as int);
    text::lemma_until_unique(a, c, a.len() as int);
}

/// Law: a text is split at its first separator; without one it is not split.
pub proof fn law_split_once(a: Seq<char>, c: char, b: Seq<char>)
    requires
        !a.contains(c),
    ensures
        split_once(a + seq![c] + b, c) == Some((a, b)),
        split_once(a, c) is None,
{
    lemma_cut_at(a, c, b);
    let s = a + seq![c] + b;
    assert(s.subrange(0, a.len() as int) =~= a);
    assert(text::rest(s, a.len() as int + 1) =~= b);
}

/// Law: from behind, a text is split at its last separator; without one it is
/// not split.
pub proof fn law_rsplit(a: Seq<char>, c: char, b: Seq<char>)
    requires
        !b.contains(c),
    ensures
        rsplit(a + seq![c] + b, c) == Some((a, b)),
        rsplit(b, c) is None,
{
    let s = a + seq![c] + b;
    let n = a.len() as int;
    assert forall|i: int| n < i < s.len() implies s[i] != c by {
        assert(s[i] == b[i - n - 1]);
        assert(b.contains(b[i - n - 1]));
    }
    assert(is_last_at(s, c, n));
    let k = choose|k: int| is_last_at(s, c, k);
    assert(k == n) by {
        if k < n {
            assert(s[n] != c);
        }
        if n < k {
            assert(s[k] != c);
        }
    }
    assert(s.subrange(0, n) =~= a);
    assert(text::rest(s, n + 1) =~= b);
    assert forall|k: int| !is_last_at(b, c, k) by {
        if 0 <= k < b.len() {
            assert(b.contains(b[k]));
        }
    }
}

/// Law: a signed number is read as it is written, over the whole range of the
/// machine's signed numbers.
pub proof fn law_signed_number(n: int)
    ensures
        i64::MIN <= n <= i64::MAX ==> signed_number(text::decimal_int(n)) == Some(n),
        n > i64::MAX ==> signed_number(text::decimal_int(n)) is None,
        n < i64::MIN ==> signed_number(text::decimal_int(n)) is None,
        signed_number(Seq::empty()) is None,
{
    let m: nat = if n < 0 {
        (-n) as nat
    } else {
        n as nat
    };
    text::lemma_decimal_value(m);
    let d = text::decimal_int(n);
    if n < 0 {
        assert(d.drop_first() =~= text::decimal(m));
    } else {
        assert(text::is_digit(d[0]));
    }
}

/// Law: a destination reads back: the host up to the first colon, and the
/// number behind it as the port; a text without a colon, or with something
/// else behind it, is none.
pub proof fn law_target_reads_back(host: Seq<char>, port: int, other: Seq<char>)
    requires
        !host.contains(':'),
        i64::MIN <= port <= i64::MAX,
        signed_number(other) is None,
    ensures
        target(host + seq![':'] + text::decimal_int(port)) == Ok::<
            (Seq<char>, bool, int),
            DestError,
        >((host, is_ipv4(host), port)),
        target(host) == Err::<(Seq<char>, bool, int), DestError>(DestError::NoColon),
        target(host + seq![':'] + other) == Err::<(Seq<char>, bool, int), DestError>(
            DestError::BadPort,
        ),
{
    law_split_once(host, ':', text::decimal_int(port));
    law_split_once(host, ':', other);
    law_signed_number(port);
}

/// Law: a relay reads back: the host up to the last colon, and the port behind
/// it; a text without a colon is no relay, and a port out of range is a bad
/// one.
pub proof fn law_relay_reads_back(host: Seq<char>, port: nat)
    ensures
        port <= u16::MAX ==> relay(host + seq![':'] + text::decimal(port)) == Ok::<
            (Seq<char>, nat),
            DestError,
        >((host, port)),
        port > u16::MAX ==> relay(host + seq![':'] + text::decimal(port)) == Err::<
            (Seq<char>, nat),
            DestError,
        >(DestError::BadPort),
        !host.contains(':') ==> relay(host) == Err::<(Seq<char>, nat), DestError>(
            DestError::NoColon,
        ),
{
    text::lemma_decimal_value(port);
    let d = text::decimal(port);
    if d.contains(':') {
        let i = choose|i: int| 0 <= i < d.len() && d[i] == ':';
        assert(text::is_digit(d[i]));
    }
    law_rsplit(host, ':', d);
    text::law_number(port, u16::MAX as nat, d);
    if !host.contains(':') {
        law_rsplit(host, ':', host);
    }
}

/// Law: the responder's address reads back, with the loopback address for a
/// host that is not named and the DNS port where none is given.
pub proof fn law_dns_addr_reads_back(host: Seq<char>, port: nat)
    ensures
        port <= u16::MAX && host.len() > 0 ==> dns_addr(host + seq![':'] + text::decimal(port))
            == Some((host, port)),
        port <= u16::MAX ==> dns_addr(seq![':'] + text::decimal(port)) == Some(
            ("127.0.0.1"@, port),
        ),
        port > u16::MAX ==> dns_addr(host + seq![':'] + text::decimal(port)) is None,
        !host.contains(':') && host.len() > 0 ==> dns_addr(host) == Some((host, DNS_PORT as nat)),
        dns_addr(Seq::empty()) == Some(("127.0.0.1"@, DNS_PORT as nat)),
{
    let d = text::decimal(port);
    text::lemma_decimal_value(port);
    if d.contains(':') {
        let i = choose|i: int| 0 <= i < d.len() && d[i] == ':';
        assert(text::is_digit(d[i]));
    }
    law_rsplit(host, ':', d);
    law_rsplit(Seq::empty(), ':', d);
    assert(Seq::<char>::empty() + seq![':'] + d =~= seq![':'] + d);
    text::law_number(port, u16::MAX as nat, d);
    if !host.contains(':') {
        law_rsplit(host, ':', host);
    }
    law_rsplit(host, ':', Seq::empty());
}

/// Law: four numbers of one byte, as they are written, with dots between are
/// an IPv4 address; with any of them over a byte they are not.
#[verifier::spinoff_prover]
#[verifier::rlimit(40)]
pub proof fn law_ipv4(a: nat, b: nat, c: nat, d: nat)
    ensures
        is_ipv4(
            text::joined(
                seq![text::decimal(a), text::decimal(b), text::decimal(c), text::decimal(d)],
                seq!['.'],
            ),
        ) <==> a <= 255 && b <= 255 && c <= 255 && d <= 255,
{
    let p = seq![text::decimal(a), text::decimal(b), text::decimal(c), text::decimal(d)];
    let v = seq![a, b, c, d];
    assert forall|k: int| 0 <= k < p.len() implies !(#[trigger] p[k]).contains('.') && (is_octet(
        p[k],
    ) <==> v[k] <= 255) by {
        let n = v[k];
        assert(p[k] == text::decimal(n));
        text::law_decimal(n, n);
        lemma_octet_length(n);
        if p[k].contains('.') {
            let i = choose|i: int| 0 <= i < p[k].len() && p[k][i] == '.';
            assert(text::is_digit(p[k][i]));
        }
    }
    text::lemma_joined_split(p, '.');
    assert(v[0] == a && v[1] == b && v[2] == c && v[3] == d);
    assert(is_octet(p[0]) <==> a <= 255);
    assert(is_octet(p[1]) <==> b <= 255);
    assert(is_octet(p[2]) <==> c <= 255);
    assert(is_octet(p[3]) <==> d <= 255);
}

proof fn lemma_octet_length(n: nat)
    ensures
        n <= 255 ==> text::decimal(n).len() <= 3,
        text::decimal(n).len() > 1 ==> n > 0,
{
    reveal_with_fuel(text::decimal, 4);
}

/// Law: a text with another number of parts than four between its dots is no
/// IPv4 address, and neither is one with a part that is not digits.
pub proof fn law_not_ipv4(parts: Seq<Seq<char>>)
    requires
        parts.len() > 0,
        forall|k: int| 0 <= k < parts.len() ==> !(#[trigger] parts[k]).contains('.'),
        parts.len() != 4 || exists|k: int|
            0 <= k < parts.len() && !text::is_digits(#[trigger] parts[k]),
    ensures
        !is_ipv4(text::joined(parts, seq!['.'])),
{
    text::lemma_joined_split(parts, '.');
    if parts.len() == 4 {
        let k = choose|k: int| 0 <= k < parts.len() && !text::is_digits(#[trigger] parts[k]);
        assert(!is_octet(parts[k]));
    }
}

/// Law: groups of hexadecimal digits count one each, an IPv4 address at the
/// end, where it may stand there, counts two, and any other part leaves no
/// address at all.
pub proof fn law_groups(parts: Seq<Seq<char>>, last: Seq<char>, v4: bool)
    requires
        forall|k: int| 0 <= k < parts.len() ==> is_hextet(#[trigger] parts[k]),
    ensures
        group_count(parts, v4) == Some(parts.len()),
        !is_hextet(last) && is_ipv4(last) && v4 ==> group_count(parts.push(last), v4) == Some(
            parts.len() + 2,
        ),
        !is_hextet(last) && !(is_ipv4(last) && v4) ==> group_count(parts.push(last), v4) is None,
    decreases parts.len(),
{
    reveal_with_fuel(group_count, 2);
    let t = parts.drop_first();
    let p = parts.push(last);
    if parts.len() > 0 {
        assert forall|k: int| 0 <= k < t.len() implies is_hextet(#[trigger] t[k]) by {
            assert(t[k] == parts[k + 1]);
        }
        law_groups(t, last, v4);
        assert(p.drop_first() =~= t.push(last));
        assert(p[0] == parts[0]);
    } else {
        assert(p[0] == last);
    }
}

} // verus!
