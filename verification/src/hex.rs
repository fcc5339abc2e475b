//! Hexadecimal text.

use vstd::prelude::*;

use crate::text;

verus! {

/// The lower-case digit for a value below sixteen.
pub open spec fn hex_digit(n: int) -> char {
    if n < 10 {
        (48 + n) as char
    } else {
        (97 + n - 10) as char
    }
}

/// Two lower-case digits per byte.
pub open spec fn hex(b: Seq<u8>) -> Seq<char> {
    Seq::new(
        b.len() * 2,
        |i: int|
            if i % 2 == 0 {
                hex_digit(b[i / 2] as int / 16)
            } else {
                hex_digit(b[i / 2] as int % 16)
            },
    )
}

/// The value of a hexadecimal digit of either case.
pub open spec fn digit_value(c: char) -> Option<int> {
    if '0' <= c <= '9' {
        Some(c as int - 48)
    } else if 'a' <= c <= 'f' {
        Some(c as int - 97 + 10)
    } else if 'A' <= c <= 'F' {
        Some(c as int - 65 + 10)
    } else {
        None
    }
}

fn digit_char(n: u8) -> (r: char)
    requires
        n < 16,
    ensures
        r == hex_digit(n as int),
{
    if n < 10 {
        (48 + n) as char
    } else {
        (97 + (n - 10)) as char
    }
}

/// The value of a hexadecimal digit.
pub fn digit_of(c: char) -> (r: Option<u8>)
    ensures
        match r {
            Some(v) => digit_value(c) == Some(v as int) && v < 16,
            None => digit_value(c) is None,
        },
{
    if '0' <= c && c <= '9' {
        Some((c as u32 - 48) as u8)
    } else if 'a' <= c && c <= 'f' {
        Some((c as u32 - 97 + 10) as u8)
    } else if 'A' <= c && c <= 'F' {
        Some((c as u32 - 65 + 10) as u8)
    } else {
        None
    }
}

/// Writes bytes in lower-case hexadecimal.
pub fn to_hex(b: &[u8]) -> (r: Vec<char>)
    ensures
        r@ == hex(b@),
{
    let mut out: Vec<char> = Vec::new();
    let mut i: usize = 0;
    while i < b.len()
        invariant
            i <= b.len(),
            out@ == hex(b@.subrange(0, i as int)),
        decreases b.len() - i,
    {
        let ghost before = out@;
        out.push(digit_char(b[i] / 16));
        out.push(digit_char(b[i] % 16));
        i += 1;
        proof {
            let h = hex(b@.subrange(0, i as int));
            assert(out@ =~= h) by {
                assert forall|k: int| 0 <= k < out@.len() implies out@[k] == h[k] by {
                    if k < before.len() {
                        assert(before[k] == hex(b@.subrange(0, i - 1))[k]);
                        assert(b@.subrange(0, i - 1)[k / 2] == b@.subrange(0, i as int)[k / 2]);
                    }
                }
            }
        }
    }
    assert(b@.subrange(0, i as int) =~= b@);
    out
}

/// Why a seed could not be read.
#[derive(Debug, Clone, Copy, PartialEq, Eq, Structural)]
pub enum HexError {
    /// The text has another length (in bytes).
    BadLength(usize),
    /// There is no pair of digits at this place.
    BadDigit(usize),
}

/// Whether a digit pair stands at place `i` of the text.
pub open spec fn pair_at(s: Seq<char>, i: int) -> bool {
    digit_value(s[2 * i]) is Some && digit_value(s[2 * i + 1]) is Some
}

/// The byte of the digit pair at place `i`.
pub open spec fn pair_value(s: Seq<char>, i: int) -> int {
    digit_value(s[2 * i])->Some_0 * 16 + digit_value(s[2 * i + 1])->Some_0
}

/// Whether a text spells a seed: 64 hexadecimal digits of either case.
pub open spec fn is_seed_text(t: Seq<char>) -> bool {
    t.len() == 64 && forall|i: int| 0 <= i < 64 ==> (#[trigger] digit_value(t[i])) is Some
}

/// What reading a seed gives: the bytes of 64 digits, else why there are none.
pub open spec fn seed_read(hexs: Seq<char>, r: Result<[u8; 32], HexError>) -> bool {
    let t = text::trimmed(hexs);
    let n = vstd::utf8::encode_utf8(t).len();
    match r {
        Ok(seed) => is_seed_text(t) && forall|i: int|
            0 <= i < 32 ==> #[trigger] seed@[i] == pair_value(t, i),
        Err(HexError::BadLength(m)) => !is_seed_text(t) && n != 64 && m == n,
        Err(HexError::BadDigit(k)) => {
            &&& !is_seed_text(t)
            &&& n == 64
            &&& k % 2 == 0 && k < t.len()
            &&& !pair_at(t, k as int / 2) || k + 1 == t.len()
            &&& forall|i: int| 0 <= i < k / 2 ==> #[trigger] pair_at(t, i)
        },
    }
}

/// Reads 64 hexadecimal digits of either case, with white space around them
/// ignored, as a 32-byte seed. Any other text is an error.
pub fn seed_from_hex(hexs: &str) -> (r: Result<[u8; 32], HexError>)
    ensures
        r is Ok <==> is_seed_text(text::trimmed(hexs@)),
        seed_read(hexs@, r),
{
    let cs = text::chars(hexs);
    let t = text::trim(cs.as_slice());
    let s = text::string(t.as_slice());
    let n: usize = s.as_str().as_bytes().len();
    if n != 64 {
        proof {
            if is_seed_text(t@) {
                lemma_seed_bytes(t@);
            }
        }
        return Err(HexError::BadLength(n));
    }
    let mut seed: [u8; 32] = [0u8; 32];
    let mut b: usize = 0;
    while b < 32
        invariant
            b <= 32,
            2 * b <= t@.len(),
            t@ == text::trimmed(hexs@),
            vstd::utf8::encode_utf8(t@).len() == 64,
            forall|i: int| 0 <= i < b ==> #[trigger] pair_at(t@, i),
            forall|i: int|
                #![trigger seed@[i]]
                0 <= i < b ==> pair_at(t@, i) && seed@[i] == pair_value(t@, i),
        decreases 32 - b,
    {
        proof {
            lemma_digits_are_bytes(t@, b as int);
        }
        if b * 2 + 1 >= t.len() {
            assert(!is_seed_text(t@));
            return Err(HexError::BadDigit(b * 2));
        }
        match (digit_of(t[b * 2]), digit_of(t[b * 2 + 1])) {
            (Some(h), Some(l)) => {
                assert(pair_at(t@, b as int));
                seed[b] = h * 16 + l;
            },
            _ => {
                assert(!pair_at(t@, b as int));
                assert((b * 2) as int / 2 == b);
                assert(!is_seed_text(t@)) by {
                    if is_seed_text(t@) {
                        assert(digit_value(t@[2 * b]) is Some);
                        assert(digit_value(t@[2 * b + 1]) is Some);
                    }
                }
                return Err(HexError::BadDigit(b * 2));
            },
        }
        b += 1;
    }
    proof {
        lemma_digits_are_bytes(t@, 32);
        assert forall|i: int| 0 <= i < 64 implies (#[trigger] digit_value(t@[i])) is Some by {
            assert(pair_at(t@, i / 2));
            assert(i == 2 * (i / 2) || i == 2 * (i / 2) + 1);
        }
    }
    Ok(seed)
}

/// The digits of a seed take one byte each.
proof fn lemma_seed_bytes(t: Seq<char>)
    requires
        is_seed_text(t),
    ensures
        vstd::utf8::encode_utf8(t).len() == 64,
{
    assert forall|i: int| 0 <= i < t.len() implies '\0' <= #[trigger] t[i] <= '\u{7f}' by {
        assert(digit_value(t[i]) is Some);
    }
    assert(vstd::utf8::is_ascii_chars(t));
    vstd::utf8::is_ascii_chars_encode_utf8(t);
}

/// Digits take one byte each: a text of 64 bytes that begins with pairs of
/// digits goes on behind them, and ends with the last of 32.
proof fn lemma_digits_are_bytes(t: Seq<char>, b: int)
    requires
        0 <= b <= 32,
        2 * b <= t.len(),
        vstd::utf8::encode_utf8(t).len() == 64,
        forall|i: int| 0 <= i < b ==> #[trigger] pair_at(t, i),
    ensures
        b < 32 ==> 2 * b < t.len(),
        b == 32 ==> t.len() == 64,
{
    let head = t.subrange(0, 2 * b);
    let tail = t.subrange(2 * b, t.len() as int);
    assert(head + tail =~= t);
    assert forall|i: int| 0 <= i < head.len() implies '\0' <= #[trigger] head[i] <= '\u{7f}' by {
        assert(pair_at(t, i / 2));
        assert(head[i] == t[i]);
        if i % 2 == 0 {
            assert(2 * (i / 2) == i);
        } else {
            assert(2 * (i / 2) + 1 == i);
        }
    }
    assert(vstd::utf8::is_ascii_chars(head));
    vstd::utf8::is_ascii_chars_encode_utf8(head);
    lemma_encode_concat(head, tail);
    lemma_encode_len(tail);
}

proof fn lemma_encode_concat(a: Seq<char>, b: Seq<char>)
    ensures
        vstd::utf8::encode_utf8(a + b) == vstd::utf8::encode_utf8(a) + vstd::utf8::encode_utf8(b),
    decreases a.len(),
{
    if a.len() == 0 {
        assert(a + b =~= b);
        assert(vstd::utf8::encode_utf8(a) =~= Seq::<u8>::empty());
    } else {
        lemma_encode_concat(a.drop_first(), b);
        assert((a + b).drop_first() =~= a.drop_first() + b);
        assert((a + b)[0] == a[0]);
    }
}

proof fn lemma_encode_len(s: Seq<char>)
    ensures
        vstd::utf8::encode_utf8(s).len() >= s.len(),
    decreases s.len(),
{
    if s.len() > 0 {
        lemma_encode_len(s.drop_first());
    }
}

/// A text in hexadecimal: digits only, so that trimming leaves it as it is.
pub proof fn lemma_hex_text(b: Seq<u8>)
    ensures
        hex(b).len() == 2 * b.len(),
        forall|i: int|
            0 <= i < hex(b).len() ==> '0' <= #[trigger] hex(b)[i] <= '9' || 'a' <= hex(b)[i] <= 'f',
        text::trimmed(hex(b)) == hex(b),
{
    let h = hex(b);
    assert forall|i: int| 0 <= i < h.len() implies ('0' <= #[trigger] h[i] <= '9' || 'a' <= h[i]
        <= 'f') && !text::is_space(h[i]) by {
        let n = if i % 2 == 0 {
            b[i / 2] as int / 16
        } else {
            b[i / 2] as int % 16
        };
        assert(h[i] == hex_digit(n));
        assert(0 <= n < 16);
    }
    assert(text::skip_space(h) == h);
    assert(text::drop_space(h) == h);
}

/// Law: a seed written in hexadecimal reads back as itself, byte for byte.
pub proof fn law_hex_roundtrip(b: Seq<u8>, i: int)
    requires
        0 <= i < b.len(),
    ensures
        hex(b).len() == 2 * b.len(),
        pair_at(hex(b), i),
        pair_value(hex(b), i) == b[i],
{
    let h = hex(b);
    assert((2 * i) / 2 == i && (2 * i) % 2 == 0);
    assert((2 * i + 1) / 2 == i && (2 * i + 1) % 2 == 1);
    assert(h[2 * i] == hex_digit(b[i] as int / 16));
    assert(h[2 * i + 1] == hex_digit(b[i] as int % 16));
}

/// A seed written in hexadecimal reads back as itself, so the key it stands
/// for survives storage.
pub proof fn law_seed_survives_hex(seed: Seq<u8>, r: Result<[u8; 32], HexError>)
    requires
        seed.len() == 32,
        seed_read(hex(seed), r),
    ensures
        r is Ok,
        r->Ok_0@ == seed,
{
    let h = hex(seed);
    assert(h.len() == 64);
    lemma_hex_text(seed);
    assert(vstd::utf8::is_ascii_chars(h));
    vstd::utf8::is_ascii_chars_encode_utf8(h);
    assert forall|i: int| 0 <= i < 32 implies #[trigger] pair_at(h, i) && pair_value(h, i)
        == seed[i] by {
        law_hex_roundtrip(seed, i);
    }
    match r {
        Ok(s) => {
            assert(s@ =~= seed) by {
                assert forall|i: int| 0 <= i < 32 implies s@[i] == seed[i] by {
                    assert(pair_at(h, i));
                }
            }
        },
        Err(HexError::BadDigit(k)) => {
            assert(pair_at(h, k as int / 2));
        },
        _ => {},
    }
}

/// Law: the sixteen digits, written in lower case and read in either: ten
/// numerals and six letters, each with its value; nothing else is a digit.
pub proof fn law_hex_digits(n: int, c: char)
    ensures
        0 <= n < 10 ==> hex_digit(n) as int == '0' as int + n,
        10 <= n < 16 ==> hex_digit(n) as int == 'a' as int + n - 10,
        0 <= n < 16 ==> digit_value(hex_digit(n)) == Some(n),
        10 <= n < 16 ==> digit_value(('A' as int + n - 10) as char) == Some(n),
        digit_value(c) is Some <==> '0' <= c <= '9' || 'a' <= c <= 'f' || 'A' <= c <= 'F',
        digit_value(c) matches Some(v) ==> 0 <= v < 16,
{
}

/// Law: of a byte's two digits the first counts sixteen times the second.
pub proof fn law_hex_layout(b: Seq<u8>, i: int)
    requires
        0 <= i < b.len(),
    ensures
        hex(b).len() == 2 * b.len(),
        digit_value(hex(b)[2 * i]) matches Some(h) && (digit_value(hex(b)[2 * i + 1]) matches Some(
            l,
        ) && 16 * h + l == b[i]),
        16 * digit_value(hex(b)[2 * i])->Some_0 + digit_value(hex(b)[2 * i + 1])->Some_0
            == pair_value(hex(b), i),
{
    assert((2 * i) / 2 == i && (2 * i + 1) / 2 == i);
}

} // verus!
