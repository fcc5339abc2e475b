//! Text as sequences of characters: searching, trimming, splitting, numbers.
//!
//! The executable functions work on `char` slices; `chars` and `string`
//! convert from and to the string types.

use vstd::prelude::*;
use vstd::string::*;

verus! {

/// `String::push` appends one character.
pub assume_specification[ String::push ](s: &mut String, c: char)
    ensures
        final(s)@ == old(s)@.push(c),
;

/// The text a byte string that is not UTF-8 stands for.
pub uninterp spec fn utf8_lossy(b: Seq<u8>) -> Seq<char>;

/// `String::from_utf8_lossy`: the decoded text where the bytes are UTF-8;
/// otherwise a text that depends on the bytes alone, with invalid parts
/// replaced.
#[verifier::external_body]
pub(crate) fn from_utf8_lossy(b: &[u8]) -> (r: String)
    ensures
        vstd::utf8::valid_utf8(b@) ==> r@ == vstd::utf8::decode_utf8(b@),
        !vstd::utf8::valid_utf8(b@) ==> r@ == utf8_lossy(b@),
{
    String::from_utf8_lossy(b).into_owned()
}

/// The text a byte string stands for.
pub open spec fn lossy(b: Seq<u8>) -> Seq<char> {
    if vstd::utf8::valid_utf8(b) {
        vstd::utf8::decode_utf8(b)
    } else {
        utf8_lossy(b)
    }
}

/// `String::from_utf8`: the decoded text, or nothing where the bytes are not
/// UTF-8.
#[verifier::external_body]
pub(crate) fn from_utf8(b: Vec<u8>) -> (r: Option<String>)
    ensures
        match r {
            Some(s) => vstd::utf8::valid_utf8(b@) && s@ == vstd::utf8::decode_utf8(b@),
            None => !vstd::utf8::valid_utf8(b@),
        },
{
    String::from_utf8(b).ok()
}

/// The lower case of a text with characters beyond ASCII.
pub uninterp spec fn unicode_lower(s: Seq<char>) -> Seq<char>;

/// `str::to_lowercase`: the ASCII lower case of ASCII text; of other text, one
/// that depends on the text alone. No capital letter of ASCII is left.
#[verifier::external_body]
fn std_lowercase(s: &str) -> (r: String)
    ensures
        forall|i: int| 0 <= i < r@.len() ==> !('A' <= #[trigger] r@[i] <= 'Z'),
        vstd::utf8::is_ascii_chars(s@) ==> r@ == ascii_lower(s@),
        !vstd::utf8::is_ascii_chars(s@) ==> r@ == unicode_lower(s@),
{
    s.to_lowercase()
}

/// The lower case of a text.
pub open spec fn lowercase(s: Seq<char>) -> Seq<char> {
    if vstd::utf8::is_ascii_chars(s) {
        ascii_lower(s)
    } else {
        unicode_lower(s)
    }
}

/// The lower case of a text.
pub fn to_lowercase(s: &str) -> (r: String)
    ensures
        r@ == lowercase(s@),
        forall|i: int| 0 <= i < r@.len() ==> !('A' <= #[trigger] r@[i] <= 'Z'),
{
    std_lowercase(s)
}

/// Whether a character beyond ASCII is a letter.
pub uninterp spec fn unicode_alphabetic(c: char) -> bool;

/// `char::is_alphabetic`: the letters of ASCII; beyond it, a property of the
/// character alone.
#[verifier::external_body]
fn std_alphabetic(c: char) -> (r: bool)
    ensures
        (c as u32) < 128 ==> r == (('a' <= c && c <= 'z') || ('A' <= c && c <= 'Z')),
        (c as u32) >= 128 ==> r == unicode_alphabetic(c),
{
    c.is_alphabetic()
}

/// Whether a character is a letter.
pub open spec fn is_alphabetic(c: char) -> bool {
    if (c as u32) < 128 {
        ('a' <= c && c <= 'z') || ('A' <= c && c <= 'Z')
    } else {
        unicode_alphabetic(c)
    }
}

/// Whether a character is a letter.
pub fn alphabetic(c: char) -> (r: bool)
    ensures
        r == is_alphabetic(c),
{
    std_alphabetic(c)
}

/// The characters of a string.
pub fn chars(s: &str) -> (r: Vec<char>)
    ensures
        r@ == s@,
{
    let mut out: Vec<char> = Vec::new();
    for c in it: s.chars()
        invariant
            it.seq() == s@,
            out@ == s@.subrange(0, it.index() as int),
    {
        out.push(c);
        assert(out@ =~= s@.subrange(0, it.index() + 1));
    }
    assert(out@ =~= s@);
    out
}

/// The string made of the given characters.
pub fn string(cs: &[char]) -> (r: String)
    ensures
        r@ == cs@,
{
    let mut out = String::new();
    let mut i: usize = 0;
    while i < cs.len()
        invariant
            i <= cs.len(),
            out@ == cs@.subrange(0, i as int),
        decreases cs.len() - i,
    {
        out.push(cs[i]);
        i += 1;
        assert(out@ =~= cs@.subrange(0, i as int));
    }
    assert(out@ =~= cs@);
    out
}

/// The sequences that a list of character vectors stands for.
pub open spec fn views(v: Seq<Vec<char>>) -> Seq<Seq<char>> {
    Seq::new(v.len(), |i: int| v[i]@)
}

/// The sequences that a list of strings stands for.
pub open spec fn strs(v: Seq<String>) -> Seq<Seq<char>> {
    Seq::new(v.len(), |i: int| v[i]@)
}

/// Converts each element to a string.
pub fn strings(v: &Vec<Vec<char>>) -> (r: Vec<String>)
    ensures
        strs(r@) == views(v@),
{
    let mut out: Vec<String> = Vec::new();
    let mut i: usize = 0;
    while i < v.len()
        invariant
            i <= v.len(),
            strs(out@) == views(v@).subrange(0, i as int),
        decreases v.len() - i,
    {
        let s = string(v[i].as_slice());
        let ghost before = out@;
        out.push(s);
        i += 1;
        assert(strs(out@) =~= strs(before).push(v@[i - 1]@));
        assert(strs(out@) =~= views(v@).subrange(0, i as int));
    }
    assert(strs(out@) =~= views(v@));
    out
}

/// A copy of `s[from..to]`.
pub fn cut(s: &[char], from: usize, to: usize) -> (r: Vec<char>)
    requires
        from <= to <= s.len(),
    ensures
        r@ == s@.subrange(from as int, to as int),
{
    vstd::slice::slice_to_vec(vstd::slice::slice_subrange(s, from, to))
}

/// Appends `b` to `a`.
pub fn push_all(a: &mut Vec<char>, b: &[char])
    ensures
        final(a)@ == old(a)@ + b@,
{
    a.extend_from_slice(b);
    assert(a@ =~= old(a)@ + b@);
}

/// Appends the characters of a string to `a`.
pub fn push_str(a: &mut Vec<char>, b: &str)
    ensures
        final(a)@ == old(a)@ + b@,
{
    let cs = chars(b);
    push_all(a, cs.as_slice());
}

/// Whether two character sequences are equal.
pub fn same(a: &[char], b: &[char]) -> (r: bool)
    ensures
        r == (a@ == b@),
{
    if a.len() != b.len() {
        return false;
    }
    let mut i: usize = 0;
    while i < a.len()
        invariant
            a.len() == b.len(),
            i <= a.len(),
            forall|j: int| 0 <= j < i ==> a@[j] == b@[j],
        decreases a.len() - i,
    {
        if a[i] != b[i] {
            return false;
        }
        i += 1;
    }
    assert(a@ =~= b@);
    true
}

/// Whether `a` is the given literal.
pub fn is_str(a: &[char], lit: &str) -> (r: bool)
    ensures
        r == (a@ == lit@),
{
    let l = chars(lit);
    same(a, l.as_slice())
}

/// Whether two strings are equal.
pub fn str_eq(a: &str, b: &str) -> (r: bool)
    ensures
        r == (a@ == b@),
{
    let l = chars(a);
    let m = chars(b);
    same(l.as_slice(), m.as_slice())
}

/// Whether `s` begins with `p`.
pub open spec fn has_prefix(s: Seq<char>, p: Seq<char>) -> bool {
    p.len() <= s.len() && s.subrange(0, p.len() as int) == p
}

/// Whether `s` ends with `p`.
pub open spec fn has_suffix(s: Seq<char>, p: Seq<char>) -> bool {
    p.len() <= s.len() && s.subrange(s.len() - p.len(), s.len() as int) == p
}

/// Whether `p` stands in `s` at `i`.
pub open spec fn stands_at(s: Seq<char>, p: Seq<char>, i: int) -> bool {
    0 <= i && i + p.len() <= s.len() && s.subrange(i, i + p.len()) == p
}

/// First place at or after `i` where `p` stands in `s`.
pub open spec fn find_from(s: Seq<char>, p: Seq<char>, i: int) -> Option<int>
    decreases s.len() + 1 - i,
{
    if i < 0 || i + p.len() > s.len() {
        None
    } else if stands_at(s, p, i) {
        Some(i)
    } else {
        find_from(s, p, i + 1)
    }
}

/// First place where `p` stands in `s`.
pub open spec fn find(s: Seq<char>, p: Seq<char>) -> Option<int> {
    find_from(s, p, 0)
}

/// Whether `p` stands anywhere in `s`.
pub open spec fn contains(s: Seq<char>, p: Seq<char>) -> bool {
    find(s, p) is Some
}

/// What `find_from` finds, and that nothing stands before it.
pub proof fn lemma_find_from(s: Seq<char>, p: Seq<char>, i: int)
    requires
        0 <= i,
    ensures
        find_from(s, p, i) matches Some(k) ==> i <= k && stands_at(s, p, k),
        forall|j: int|
            i <= j && (find_from(s, p, i) matches Some(k) ==> j < k) ==> !#[trigger] stands_at(
                s,
                p,
                j,
            ),
    decreases s.len() + 1 - i,
{
    if i + p.len() <= s.len() && !stands_at(s, p, i) {
        lemma_find_from(s, p, i + 1);
    }
}

/// `contains` is the existence of a place.
pub proof fn lemma_contains(s: Seq<char>, p: Seq<char>)
    ensures
        contains(s, p) <==> exists|i: int| #[trigger] stands_at(s, p, i),
{
    lemma_find_from(s, p, 0);
    if contains(s, p) {
        assert(stands_at(s, p, find(s, p)->Some_0));
    }
}

fn at(s: &[char], p: &[char], i: usize) -> (r: bool)
    requires
        i + p.len() <= s.len(),
    ensures
        r == stands_at(s@, p@, i as int),
{
    same(vstd::slice::slice_subrange(s, i, i + p.len()), p)
}

/// Whether `s` begins with `p`.
pub fn starts_with(s: &[char], p: &[char]) -> (r: bool)
    ensures
        r == has_prefix(s@, p@),
{
    if s.len() < p.len() {
        return false;
    }
    at(s, p, 0)
}

/// Whether `s` ends with `p`.
pub fn ends_with(s: &[char], p: &[char]) -> (r: bool)
    ensures
        r == has_suffix(s@, p@),
{
    if s.len() < p.len() {
        return false;
    }
    at(s, p, s.len() - p.len())
}

/// First place at or after `from` where `p` stands in `s`.
pub fn index_of(s: &[char], p: &[char], from: usize) -> (r: Option<usize>)
    ensures
        match r {
            Some(k) => find_from(s@, p@, from as int) == Some(k as int) && from <= k && stands_at(
                s@,
                p@,
                k as int,
            ),
            None => find_from(s@, p@, from as int) is None,
        },
{
    let mut i: usize = from;
    while i <= s.len() && p.len() <= s.len() - i
        invariant
            from <= i,
            find_from(s@, p@, from as int) == find_from(s@, p@, i as int),
        decreases s.len() + 1 - i,
    {
        if at(s, p, i) {
            return Some(i);
        }
        if i == s.len() {
            assert(s@.subrange(i as int, i as int) =~= p@);
            return None;
        }
        i += 1;
    }
    None
}

/// Whether `p` stands anywhere in `s`.
pub fn has(s: &[char], p: &[char]) -> (r: bool)
    ensures
        r == contains(s@, p@),
{
    index_of(s, p, 0).is_some()
}

/// Whether the literal stands anywhere in `s`.
pub fn has_str(s: &[char], p: &str) -> (r: bool)
    ensures
        r == contains(s@, p@),
{
    let cs = chars(p);
    has(s, cs.as_slice())
}

/// Whether `s` begins with the literal.
pub fn starts_with_str(s: &[char], p: &str) -> (r: bool)
    ensures
        r == has_prefix(s@, p@),
{
    let cs = chars(p);
    starts_with(s, cs.as_slice())
}

/// Whether `s` ends with the literal.
pub fn ends_with_str(s: &[char], p: &str) -> (r: bool)
    ensures
        r == has_suffix(s@, p@),
{
    let cs = chars(p);
    ends_with(s, cs.as_slice())
}

// ---------------------------------------------------------------------
// White space
// ---------------------------------------------------------------------

/// The characters with Unicode's `White_Space` property.
pub open spec fn is_space(c: char) -> bool {
    ||| '\u{9}' <= c <= '\u{d}'
    ||| c == ' '
    ||| c == '\u{85}'
    ||| c == '\u{a0}'
    ||| c == '\u{1680}'
    ||| '\u{2000}' <= c <= '\u{200a}'
    ||| c == '\u{2028}'
    ||| c == '\u{2029}'
    ||| c == '\u{202f}'
    ||| c == '\u{205f}'
    ||| c == '\u{3000}'
}

/// Whether the character is white space.
pub fn space(c: char) -> (r: bool)
    ensures
        r == is_space(c),
{
    ('\u{9}' <= c && c <= '\u{d}') || c == ' ' || c == '\u{85}' || c == '\u{a0}' || c == '\u{1680}'
        || ('\u{2000}' <= c && c <= '\u{200a}') || c == '\u{2028}' || c == '\u{2029}' || c
        == '\u{202f}' || c == '\u{205f}' || c == '\u{3000}'
}

/// `s` without leading white space.
pub open spec fn skip_space(s: Seq<char>) -> Seq<char>
    decreases s.len(),
{
    if s.len() > 0 && is_space(s[0]) {
        skip_space(s.drop_first())
    } else {
        s
    }
}

/// `s` without trailing white space.
pub open spec fn drop_space(s: Seq<char>) -> Seq<char>
    decreases s.len(),
{
    if s.len() > 0 && is_space(s.last()) {
        drop_space(s.drop_last())
    } else {
        s
    }
}

/// `s` without white space at either end.
pub open spec fn trimmed(s: Seq<char>) -> Seq<char> {
    drop_space(skip_space(s))
}

/// Removes leading white space.
pub fn trim_start(s: &[char]) -> (r: Vec<char>)
    ensures
        r@ == skip_space(s@),
{
    let mut i: usize = 0;
    assert(s@.subrange(0, s.len() as int) =~= s@);
    while i < s.len() && space(s[i])
        invariant
            i <= s.len(),
            skip_space(s@) == skip_space(s@.subrange(i as int, s.len() as int)),
        decreases s.len() - i,
    {
        assert(s@.subrange(i as int, s.len() as int).drop_first() =~= s@.subrange(
            i + 1,
            s.len() as int,
        ));
        i += 1;
    }
    cut(s, i, s.len())
}

/// Removes trailing white space.
pub fn trim_end(s: &[char]) -> (r: Vec<char>)
    ensures
        r@ == drop_space(s@),
{
    let mut n: usize = s.len();
    assert(s@.subrange(0, n as int) =~= s@);
    while n > 0 && space(s[n - 1])
        invariant
            n <= s.len(),
            drop_space(s@) == drop_space(s@.subrange(0, n as int)),
        decreases n,
    {
        assert(s@.subrange(0, n as int).drop_last() =~= s@.subrange(0, n - 1));
        n -= 1;
    }
    cut(s, 0, n)
}

/// Removes white space at both ends.
pub fn trim(s: &[char]) -> (r: Vec<char>)
    ensures
        r@ == trimmed(s@),
{
    let t = trim_start(s);
    trim_end(t.as_slice())
}

pub proof fn lemma_skip_space(s: Seq<char>)
    ensures
        skip_space(s).len() <= s.len(),
        skip_space(s).len() > 0 ==> !is_space(skip_space(s)[0]),
    decreases s.len(),
{
    if s.len() > 0 && is_space(s[0]) {
        lemma_skip_space(s.drop_first());
    }
}

/// `s` without trailing occurrences of `c`.
pub open spec fn drop_char(s: Seq<char>, c: char) -> Seq<char>
    decreases s.len(),
{
    if s.len() > 0 && s.last() == c {
        drop_char(s.drop_last(), c)
    } else {
        s
    }
}

/// Removes trailing occurrences of `c`.
pub fn trim_end_char(s: &[char], c: char) -> (r: Vec<char>)
    ensures
        r@ == drop_char(s@, c),
{
    let mut n: usize = s.len();
    assert(s@.subrange(0, n as int) =~= s@);
    while n > 0 && s[n - 1] == c
        invariant
            n <= s.len(),
            drop_char(s@, c) == drop_char(s@.subrange(0, n as int), c),
        decreases n,
    {
        assert(s@.subrange(0, n as int).drop_last() =~= s@.subrange(0, n - 1));
        n -= 1;
    }
    cut(s, 0, n)
}

/// `s` without leading occurrences of `c`.
pub open spec fn skip_char(s: Seq<char>, c: char) -> Seq<char>
    decreases s.len(),
{
    if s.len() > 0 && s[0] == c {
        skip_char(s.drop_first(), c)
    } else {
        s
    }
}

/// Removes leading occurrences of `c`.
pub fn trim_start_char(s: &[char], c: char) -> (r: Vec<char>)
    ensures
        r@ == skip_char(s@, c),
{
    let mut i: usize = 0;
    assert(s@.subrange(0, s.len() as int) =~= s@);
    while i < s.len() && s[i] == c
        invariant
            i <= s.len(),
            skip_char(s@, c) == skip_char(s@.subrange(i as int, s.len() as int), c),
        decreases s.len() - i,
    {
        assert(s@.subrange(i as int, s.len() as int).drop_first() =~= s@.subrange(
            i + 1,
            s.len() as int,
        ));
        i += 1;
    }
    cut(s, i, s.len())
}

// ---------------------------------------------------------------------
// Splitting
// ---------------------------------------------------------------------

/// The rest of `s` from `i` on.
pub open spec fn rest(s: Seq<char>, i: int) -> Seq<char> {
    s.subrange(i, s.len() as int)
}

/// Length of the part of `s` before the first `c`.
pub open spec fn until(s: Seq<char>, c: char) -> nat
    decreases s.len(),
{
    if s.len() == 0 || s[0] == c {
        0
    } else {
        1 + until(s.drop_first(), c)
    }
}

/// The part before the first `c`: no `c` in it, and a `c` or the end after it.
pub proof fn lemma_until(s: Seq<char>, c: char)
    ensures
        until(s, c) <= s.len(),
        until(s, c) < s.len() ==> s[until(s, c) as int] == c,
        forall|i: int| 0 <= i < until(s, c) ==> #[trigger] s[i] != c,
    decreases s.len(),
{
    if s.len() > 0 && s[0] != c {
        let t = s.drop_first();
        lemma_until(t, c);
        assert forall|i: int| 0 <= i < until(s, c) implies #[trigger] s[i] != c by {
            if i > 0 {
                assert(s[i] == t[i - 1]);
            }
        }
    }
}

/// The only length with these properties.
pub proof fn lemma_until_unique(s: Seq<char>, c: char, n: int)
    requires
        0 <= n <= s.len(),
        n < s.len() ==> s[n] == c,
        forall|i: int| 0 <= i < n ==> #[trigger] s[i] != c,
    ensures
        until(s, c) == n,
{
    lemma_until(s, c);
    let u = until(s, c) as int;
    if u < n {
        assert(s[u] != c);
    }
    if n < u {
        assert(s[n] != c);
    }
}

/// `s` cut at every `c`.
pub open spec fn split(s: Seq<char>, c: char) -> Seq<Seq<char>>
    decreases s.len(),
{
    let k = until(s, c) as int;
    if k >= s.len() {
        seq![s]
    } else {
        seq![s.subrange(0, k)] + split(rest(s, k + 1), c)
    }
}

/// Place of the first `c` at or after `from`, or the end.
pub fn index_of_char(s: &[char], c: char, from: usize) -> (r: usize)
    requires
        from <= s.len(),
    ensures
        from <= r <= s.len(),
        r < s.len() ==> s@[r as int] == c,
        forall|j: int| from <= j < r ==> s@[j] != c,
        r == from + until(rest(s@, from as int), c),
{
    let mut i: usize = from;
    while i < s.len() && s[i] != c
        invariant
            from <= i <= s.len(),
            forall|j: int| from <= j < i ==> s@[j] != c,
        decreases s.len() - i,
    {
        i += 1;
    }
    proof {
        lemma_until_unique(rest(s@, from as int), c, i - from);
    }
    i
}

/// Cuts `s` at every `c`.
pub fn split_at_char(s: &[char], c: char) -> (r: Vec<Vec<char>>)
    ensures
        views(r@) == split(s@, c),
{
    let mut out: Vec<Vec<char>> = Vec::new();
    let mut i: usize = 0;
    proof {
        assert(rest(s@, 0) =~= s@);
        assert(views(out@) + split(rest(s@, 0), c) =~= split(s@, c));
    }
    loop
        invariant_except_break
            i <= s.len(),
            views(out@) + split(rest(s@, i as int), c) == split(s@, c),
        ensures
            views(out@) == split(s@, c),
        decreases s.len() - i + 1,
    {
        let k: usize = index_of_char(s, c, i);
        let piece = cut(s, i, k);
        let ghost before = out@;
        let ghost tail = rest(s@, i as int);
        out.push(piece);
        proof {
            lemma_until(tail, c);
            assert(views(out@) =~= views(before).push(s@.subrange(i as int, k as int)));
            assert(s@.subrange(i as int, k as int) =~= tail.subrange(0, k - i));
        }
        if k == s.len() {
            proof {
                assert(s@.subrange(i as int, k as int) =~= tail);
                assert(views(out@) =~= views(before) + split(tail, c));
            }
            break ;
        }
        proof {
            assert(rest(tail, k - i + 1) =~= rest(s@, k + 1));
            assert(views(out@) + split(rest(s@, k + 1), c) =~= views(before) + split(tail, c));
        }
        i = k + 1;
    }
    out
}

/// `s` without one trailing carriage return.
pub open spec fn strip_cr(s: Seq<char>) -> Seq<char> {
    if s.len() > 0 && s.last() == '\r' {
        s.drop_last()
    } else {
        s
    }
}

/// The lines of `s`: each ends at a line feed (with an optional carriage
/// return before it) or at the end; a final line feed adds no empty line.
pub open spec fn lines(s: Seq<char>) -> Seq<Seq<char>>
    decreases s.len(),
{
    let k = until(s, '\n') as int;
    if s.len() == 0 {
        Seq::empty()
    } else if k >= s.len() {
        seq![s]
    } else {
        seq![strip_cr(s.subrange(0, k))] + lines(rest(s, k + 1))
    }
}

/// The lines of `s`.
pub fn split_lines(s: &[char]) -> (r: Vec<Vec<char>>)
    ensures
        views(r@) == lines(s@),
{
    let mut out: Vec<Vec<char>> = Vec::new();
    let mut i: usize = 0;
    proof {
        assert(rest(s@, 0) =~= s@);
        assert(views(out@) + lines(rest(s@, 0)) =~= lines(s@));
    }
    while i < s.len()
        invariant
            i <= s.len(),
            views(out@) + lines(rest(s@, i as int)) == lines(s@),
        decreases s.len() - i,
    {
        let k: usize = index_of_char(s, '\n', i);
        let ghost before = out@;
        let ghost tail = rest(s@, i as int);
        proof {
            lemma_until(tail, '\n');
        }
        if k == s.len() {
            let piece = cut(s, i, k);
            out.push(piece);
            proof {
                assert(s@.subrange(i as int, k as int) =~= tail);
                assert(views(out@) =~= views(before).push(tail));
                assert(rest(s@, k as int) =~= Seq::<char>::empty());
                assert(views(out@) + lines(rest(s@, k as int)) =~= views(before) + lines(tail));
            }
            i = k;
        } else {
            let end: usize = if k > i && s[k - 1] == '\r' {
                k - 1
            } else {
                k
            };
            let piece = cut(s, i, end);
            out.push(piece);
            proof {
                let body = tail.subrange(0, k - i);
                assert(strip_cr(body) =~= s@.subrange(i as int, end as int));
                assert(views(out@) =~= views(before).push(strip_cr(body)));
                assert(rest(tail, k - i + 1) =~= rest(s@, k + 1));
                assert(views(out@) + lines(rest(s@, k + 1)) =~= views(before) + lines(tail));
            }
            i = k + 1;
        }
    }
    proof {
        assert(rest(s@, i as int) =~= Seq::<char>::empty());
        assert(views(out@) =~= lines(s@));
    }
    out
}

/// Length of the word at the start of `s`.
pub open spec fn word_len(s: Seq<char>) -> nat
    decreases s.len(),
{
    if s.len() == 0 || is_space(s[0]) {
        0
    } else {
        1 + word_len(s.drop_first())
    }
}

proof fn lemma_word_len(s: Seq<char>)
    ensures
        word_len(s) <= s.len(),
    decreases s.len(),
{
    if s.len() > 0 && !is_space(s[0]) {
        lemma_word_len(s.drop_first());
    }
}

/// The words of `s`, separated by white space.
pub open spec fn words(s: Seq<char>) -> Seq<Seq<char>>
    decreases s.len(),
{
    let t = skip_space(s);
    let k = word_len(t) as int;
    if k == 0 || k > t.len() {
        Seq::empty()
    } else {
        proof {
            lemma_skip_space(s);
        }
        seq![t.subrange(0, k)] + words(rest(t, k))
    }
}

/// The words of `s`.
pub fn split_words(s: &[char]) -> (r: Vec<Vec<char>>)
    ensures
        views(r@) == words(s@),
{
    let mut out: Vec<Vec<char>> = Vec::new();
    let mut cur: Vec<char> = vstd::slice::slice_to_vec(s);
    proof {
        assert(views(out@) + words(s@) =~= words(s@));
    }
    loop
        invariant_except_break
            views(out@) + words(cur@) == words(s@),
        ensures
            views(out@) == words(s@),
        decreases cur@.len(),
    {
        let t = trim_start(cur.as_slice());
        let ghost tv = t@;
        proof {
            lemma_skip_space(cur@);
            lemma_word_len(tv);
        }
        let mut k: usize = 0;
        proof {
            assert(rest(tv, 0) =~= tv);
        }
        while k < t.len() && !space(t[k])
            invariant
                k <= t.len(),
                t@ == tv,
                word_len(tv) == k + word_len(rest(tv, k as int)),
            decreases t.len() - k,
        {
            assert(rest(tv, k as int).drop_first() =~= rest(tv, k + 1));
            k += 1;
        }
        if k == 0 {
            proof {
                assert(words(cur@) =~= Seq::<Seq<char>>::empty());
                assert(views(out@) =~= words(s@));
            }
            break ;
        }
        let piece = cut(t.as_slice(), 0, k);
        let ghost before = out@;
        out.push(piece);
        let next = cut(t.as_slice(), k, t.len());
        proof {
            assert(views(out@) =~= views(before).push(tv.subrange(0, k as int)));
            assert(views(out@) + words(next@) =~= views(before) + words(cur@));
        }
        cur = next;
    }
    out
}

// ---------------------------------------------------------------------
// Case
// ---------------------------------------------------------------------

/// ASCII lower case of one character; others are unchanged.
pub open spec fn lower(c: char) -> char {
    if 'A' <= c <= 'Z' {
        ((c as u32) + 32) as u8 as char
    } else {
        c
    }
}

/// ASCII lower case of a text.
pub open spec fn ascii_lower(s: Seq<char>) -> Seq<char> {
    s.map_values(|c: char| lower(c))
}

/// ASCII lower case of one character.
pub fn lower_char(c: char) -> (r: char)
    ensures
        r == lower(c),
{
    if 'A' <= c && c <= 'Z' {
        ((c as u32) + 32) as u8 as char
    } else {
        c
    }
}

/// ASCII lower case of a text.
pub fn to_ascii_lower(s: &[char]) -> (r: Vec<char>)
    ensures
        r@ == ascii_lower(s@),
{
    let mut out: Vec<char> = Vec::new();
    let mut i: usize = 0;
    while i < s.len()
        invariant
            i <= s.len(),
            out@ == ascii_lower(s@).subrange(0, i as int),
        decreases s.len() - i,
    {
        out.push(lower_char(s[i]));
        i += 1;
        assert(out@ =~= ascii_lower(s@).subrange(0, i as int));
    }
    assert(out@ =~= ascii_lower(s@));
    out
}

// ---------------------------------------------------------------------
// Numbers
// ---------------------------------------------------------------------

/// Whether `c` is a decimal digit.
pub open spec fn is_digit(c: char) -> bool {
    '0' <= c <= '9'
}

/// Whether `s` is one or more decimal digits.
pub open spec fn is_digits(s: Seq<char>) -> bool {
    s.len() > 0 && forall|i: int| 0 <= i < s.len() ==> is_digit(#[trigger] s[i])
}

/// The number that decimal digits stand for.
pub open spec fn dec_value(s: Seq<char>) -> nat
    decreases s.len(),
{
    if s.len() == 0 {
        0
    } else {
        dec_value(s.drop_last()) * 10 + ((s.last() as u32) - ('0' as u32)) as nat
    }
}

/// `s` without one leading plus sign.
pub open spec fn strip_plus(s: Seq<char>) -> Seq<char> {
    if s.len() > 0 && s[0] == '+' {
        s.drop_first()
    } else {
        s
    }
}

/// The unsigned number that `s` spells, if it does and is at most `max`:
/// digits after an optional plus sign.
pub open spec fn number(s: Seq<char>, max: nat) -> Option<nat> {
    let d = strip_plus(s);
    if is_digits(d) && dec_value(d) <= max {
        Some(dec_value(d))
    } else {
        None
    }
}

proof fn lemma_dec_value_mono(s: Seq<char>, i: int)
    requires
        0 <= i <= s.len(),
        forall|j: int| 0 <= j < s.len() ==> is_digit(#[trigger] s[j]),
    ensures
        dec_value(s.subrange(0, i)) <= dec_value(s),
    decreases s.len() - i,
{
    if i == s.len() {
        assert(s.subrange(0, i) =~= s);
    } else {
        lemma_dec_value_mono(s, i + 1);
        assert(s.subrange(0, i + 1).drop_last() =~= s.subrange(0, i));
        assert(is_digit(s[i]));
    }
}

/// Reads an unsigned number of at most `max`.
pub fn parse_number(s: &[char], max: u64) -> (r: Option<u64>)
    ensures
        match r {
            Some(v) => number(s@, max as nat) == Some(v as nat),
            None => number(s@, max as nat) is None,
        },
{
    let from: usize = if s.len() > 0 && s[0] == '+' {
        1
    } else {
        0
    };
    let ghost d = strip_plus(s@);
    assert(d =~= rest(s@, from as int));
    if from == s.len() {
        return None;
    }
    let mut v: u64 = 0;
    let mut i: usize = from;
    assert(d.subrange(0, 0) =~= Seq::<char>::empty());
    while i < s.len()
        invariant
            from <= i <= s.len(),
            d == rest(s@, from as int),
            forall|j: int| 0 <= j < i - from ==> is_digit(#[trigger] d[j]),
            v == dec_value(d.subrange(0, i - from)),
            v <= max,
            d == strip_plus(s@),
            d.len() == s.len() - from,
        decreases s.len() - i,
    {
        let c: char = s[i];
        assert(d[i - from] == c);
        if c < '0' || '9' < c {
            assert(!is_digit(d[i - from]));
            return None;
        }
        let x: u64 = (c as u32 - '0' as u32) as u64;
        proof {
            assert(d.subrange(0, i + 1 - from).drop_last() =~= d.subrange(0, i - from));
            assert(dec_value(d.subrange(0, i + 1 - from)) == v * 10 + x);
        }
        if v > max / 10 || (v == max / 10 && x > max % 10) {
            proof {
                if is_digits(d) {
                    lemma_dec_value_mono(d, i + 1 - from);
                    assert(v * 10 + x > max);
                }
            }
            return None;
        }
        assert(v * 10 + x <= max);
        v = v * 10 + x;
        i += 1;
    }
    assert(d.subrange(0, i - from) =~= d);
    assert(is_digits(d));
    Some(v)
}

/// The digit for a value below ten.
pub open spec fn digit(n: nat) -> char {
    ((('0' as u32) + n) as u8) as char
}

/// Decimal digits of a natural number, without leading zeros.
pub open spec fn decimal(n: nat) -> Seq<char>
    decreases n,
{
    if n < 10 {
        seq![digit(n)]
    } else {
        decimal(n / 10).push(digit(n % 10))
    }
}

/// Decimal digits of an integer, with a minus sign where it is negative.
pub open spec fn decimal_int(n: int) -> Seq<char> {
    if n < 0 {
        seq!['-'] + decimal((-n) as nat)
    } else {
        decimal(n as nat)
    }
}

/// Decimal digits of `n`.
pub fn dec(n: u64) -> (r: Vec<char>)
    ensures
        r@ == decimal(n as nat),
    decreases n,
{
    if n < 10 {
        let mut v: Vec<char> = Vec::new();
        v.push((48 + n as u8) as char);
        assert(v@ =~= decimal(n as nat));
        v
    } else {
        let mut v = dec(n / 10);
        v.push((48 + (n % 10) as u8) as char);
        v
    }
}

/// Decimal digits of `n`, with its sign.
pub fn dec_int(n: i64) -> (r: Vec<char>)
    ensures
        r@ == decimal_int(n as int),
{
    if n >= 0 {
        return dec(n as u64);
    }
    let m: u64 = if n == i64::MIN {
        9223372036854775808
    } else {
        (-n) as u64
    };
    let d = dec(m);
    let mut v: Vec<char> = Vec::new();
    v.push('-');
    push_all(&mut v, d.as_slice());
    assert(v@ =~= decimal_int(n as int));
    v
}

/// Reading back a number that was written.
pub proof fn lemma_decimal_number(n: nat, max: nat)
    requires
        n <= max,
    ensures
        number(decimal(n), max) == Some(n),
{
    lemma_decimal_value(n);
    assert(decimal(n)[0] != '+') by {
        assert(is_digit(decimal(n)[0]));
    }
}

/// What is written is digits that stand for the number.
pub proof fn lemma_decimal_value(n: nat)
    ensures
        is_digits(decimal(n)),
        dec_value(decimal(n)) == n,
    decreases n,
{
    if n < 10 {
        assert(decimal(n).drop_last() =~= Seq::<char>::empty());
        reveal_with_fuel(dec_value, 2);
        assert(is_digit(digit(n)));
    } else {
        lemma_decimal_value(n / 10);
        let d = decimal(n);
        assert(d.drop_last() =~= decimal(n / 10));
        assert(is_digit(digit(n % 10)));
        assert forall|i: int| 0 <= i < d.len() implies is_digit(#[trigger] d[i]) by {
            if i < d.len() - 1 {
                assert(d[i] == decimal(n / 10)[i]);
            }
        }
    }
}

/// The rest of the first line that begins with `p`.
pub open spec fn after_prefix(ls: Seq<Seq<char>>, p: Seq<char>) -> Option<Seq<char>>
    decreases ls.len(),
{
    if ls.len() == 0 {
        None
    } else if has_prefix(ls[0], p) {
        Some(rest(ls[0], p.len() as int))
    } else {
        after_prefix(ls.drop_first(), p)
    }
}

/// The rest of the first line that begins with `p`.
pub fn line_after(ls: &Vec<Vec<char>>, p: &[char]) -> (r: Option<Vec<char>>)
    ensures
        match r {
            Some(v) => after_prefix(views(ls@), p@) == Some(v@),
            None => after_prefix(views(ls@), p@) is None,
        },
{
    let ghost all = views(ls@);
    let mut i: usize = 0;
    assert(all.subrange(0, all.len() as int) =~= all);
    while i < ls.len()
        invariant
            i <= ls@.len(),
            all == views(ls@),
            after_prefix(all, p@) == after_prefix(all.subrange(i as int, all.len() as int), p@),
        decreases ls@.len() - i,
    {
        let ghost tail = all.subrange(i as int, all.len() as int);
        assert(tail[0] == ls@[i as int]@);
        assert(tail.drop_first() =~= all.subrange(i + 1, all.len() as int));
        if starts_with(ls[i].as_slice(), p) {
            let v = cut(ls[i].as_slice(), p.len(), ls[i].len());
            return Some(v);
        }
        i += 1;
    }
    assert(all.subrange(i as int, all.len() as int) =~= Seq::<Seq<char>>::empty());
    None
}

/// `s` without occurrences of `c` at either end.
pub open spec fn strip_char(s: Seq<char>, c: char) -> Seq<char> {
    drop_char(skip_char(s, c), c)
}

/// Removes occurrences of `c` at both ends.
pub fn trim_char(s: &[char], c: char) -> (r: Vec<char>)
    ensures
        r@ == strip_char(s@, c),
{
    let t = trim_start_char(s, c);
    trim_end_char(t.as_slice(), c)
}

/// `s` without white space around each line.
pub open spec fn trimmed_lines(s: Seq<char>) -> Seq<Seq<char>> {
    lines(s).map_values(|l: Seq<char>| trimmed(l))
}

/// The lines of `s`, each without white space around it.
pub fn split_trimmed_lines(s: &[char]) -> (r: Vec<Vec<char>>)
    ensures
        views(r@) == trimmed_lines(s@),
{
    let ls = split_lines(s);
    let mut out: Vec<Vec<char>> = Vec::new();
    let mut i: usize = 0;
    while i < ls.len()
        invariant
            i <= ls@.len(),
            views(ls@) == lines(s@),
            views(out@) == trimmed_lines(s@).subrange(0, i as int),
        decreases ls@.len() - i,
    {
        let t = trim(ls[i].as_slice());
        let ghost before = out@;
        let ghost tv = t@;
        assert(views(ls@)[i as int] == ls@[i as int]@);
        out.push(t);
        i += 1;
        assert(views(out@) =~= views(before).push(tv));
        assert(views(out@) =~= trimmed_lines(s@).subrange(0, i as int));
    }
    assert(views(out@) =~= trimmed_lines(s@));
    out
}

/// Whether one of the lines is the given text.
pub fn has_line(ls: &Vec<Vec<char>>, lit: &str) -> (r: bool)
    ensures
        r == views(ls@).contains(lit@),
{
    let cs = chars(lit);
    let mut i: usize = 0;
    while i < ls.len()
        invariant
            i <= ls@.len(),
            cs@ == lit@,
            forall|j: int| 0 <= j < i ==> (#[trigger] ls@[j])@ != lit@,
        decreases ls@.len() - i,
    {
        if same(ls[i].as_slice(), cs.as_slice()) {
            assert(views(ls@)[i as int] == lit@);
            return true;
        }
        i += 1;
    }
    proof {
        if views(ls@).contains(lit@) {
            let j = choose|j: int| 0 <= j < views(ls@).len() && views(ls@)[j] == lit@;
            assert(ls@[j]@ == lit@);
        }
    }
    false
}

/// The pieces of `s` between occurrences of `p`.
pub open spec fn pieces(s: Seq<char>, p: Seq<char>) -> Seq<Seq<char>>
    decreases s.len(),
{
    match find(s, p) {
        Some(i) => if 0 <= i && p.len() > 0 && i + p.len() <= s.len() {
            seq![s.subrange(0, i)] + pieces(rest(s, i + p.len()), p)
        } else {
            seq![s]
        },
        None => seq![s],
    }
}

/// Splits `s` at the occurrences of `p`.
pub fn split_at_str(s: &[char], p: &[char]) -> (r: Vec<Vec<char>>)
    requires
        p@.len() > 0,
    ensures
        views(r@) == pieces(s@, p@),
{
    let mut out: Vec<Vec<char>> = Vec::new();
    let mut cur: Vec<char> = cut(s, 0, s.len());
    assert(cur@ =~= s@);
    assert(views(out@) + pieces(cur@, p@) =~= pieces(s@, p@));
    loop
        invariant
            p@.len() > 0,
            views(out@) + pieces(cur@, p@) == pieces(s@, p@),
        decreases cur@.len(),
    {
        match index_of(cur.as_slice(), p, 0) {
            None => {
                let ghost before = out@;
                let ghost last = cur@;
                assert(find(cur@, p@) is None);
                out.push(cur);
                assert(views(out@) =~= views(before).push(last));
                assert(views(out@) =~= views(before) + seq![last]);
                return out;
            },
            Some(i) => {
                proof {
                    lemma_find_from(cur@, p@, 0);
                }
                assert(find(cur@, p@) == Some(i as int));
                assert(i + p@.len() <= cur@.len());
                let head = cut(cur.as_slice(), 0, i);
                let n: usize = cur.len();
                let tail = cut(cur.as_slice(), i + p.len(), n);
                let ghost before = out@;
                let ghost hv = head@;
                out.push(head);
                assert(views(out@) =~= views(before).push(hv));
                assert(views(out@) + pieces(tail@, p@) =~= views(before) + (seq![hv] + pieces(
                    tail@,
                    p@,
                )));
                cur = tail;
            },
        }
    }
}

/// `s` with every `c` replaced by `with`.
pub open spec fn replaced(s: Seq<char>, c: char, with: Seq<char>) -> Seq<char>
    decreases s.len(),
{
    if s.len() == 0 {
        Seq::empty()
    } else {
        replaced(s.drop_last(), c, with) + if s.last() == c {
            with
        } else {
            seq![s.last()]
        }
    }
}

/// Replaces every `c`.
pub fn replace_char(s: &[char], c: char, with: &str) -> (r: Vec<char>)
    ensures
        r@ == replaced(s@, c, with@),
{
    let w = chars(with);
    let mut out: Vec<char> = Vec::new();
    let mut i: usize = 0;
    while i < s.len()
        invariant
            i <= s.len(),
            w@ == with@,
            out@ == replaced(s@.subrange(0, i as int), c, with@),
        decreases s.len() - i,
    {
        let ghost next = s@.subrange(0, i + 1);
        assert(next.drop_last() =~= s@.subrange(0, i as int));
        assert(next.last() == s@[i as int]);
        if s[i] == c {
            push_all(&mut out, w.as_slice());
        } else {
            let x: char = s[i];
            let ghost before = out@;
            out.push(x);
            assert(out@ =~= before + seq![x]);
        }
        i += 1;
    }
    assert(s@.subrange(0, i as int) =~= s@);
    out
}

/// The value of the first pair with a key.
pub open spec fn lookup(pairs: Seq<(Seq<char>, Seq<char>)>, key: Seq<char>) -> Option<Seq<char>>
    decreases pairs.len(),
{
    if pairs.len() == 0 {
        None
    } else if pairs[0].0 == key {
        Some(pairs[0].1)
    } else {
        lookup(pairs.drop_first(), key)
    }
}

/// The contents of pairs of strings.
pub open spec fn pair_views(v: Seq<(String, String)>) -> Seq<(Seq<char>, Seq<char>)> {
    v.map_values(|p: (String, String)| (p.0@, p.1@))
}

/// Finds the value of the first pair with a key.
pub fn find_pair(pairs: &Vec<(String, String)>, key: &[char]) -> (r: Option<String>)
    ensures
        match r {
            Some(v) => lookup(pair_views(pairs@), key@) == Some(v@),
            None => lookup(pair_views(pairs@), key@) is None,
        },
{
    let ghost all = pair_views(pairs@);
    let mut i: usize = 0;
    assert(all.subrange(0, all.len() as int) =~= all);
    while i < pairs.len()
        invariant
            i <= pairs@.len(),
            all == pair_views(pairs@),
            lookup(all, key@) == lookup(all.subrange(i as int, all.len() as int), key@),
        decreases pairs@.len() - i,
    {
        let ghost tail = all.subrange(i as int, all.len() as int);
        assert(tail[0] == all[i as int]);
        assert(tail.drop_first() =~= all.subrange(i + 1, all.len() as int));
        if is_str(key, pairs[i].0.as_str()) {
            return Some(pairs[i].1.clone());
        }
        i += 1;
    }
    assert(all.subrange(i as int, all.len() as int) =~= Seq::<(Seq<char>, Seq<char>)>::empty());
    None
}

/// Texts joined by a separator.
pub open spec fn joined(parts: Seq<Seq<char>>, sep: Seq<char>) -> Seq<char>
    decreases parts.len(),
{
    if parts.len() == 0 {
        Seq::empty()
    } else if parts.len() == 1 {
        parts[0]
    } else {
        joined(parts.drop_last(), sep) + sep + parts.last()
    }
}

/// Joins texts by a separator.
pub fn join(parts: &Vec<Vec<char>>, sep: &str) -> (r: Vec<char>)
    ensures
        r@ == joined(views(parts@), sep@),
{
    let ghost all = views(parts@);
    let mut out: Vec<char> = Vec::new();
    let mut i: usize = 0;
    while i < parts.len()
        invariant
            i <= parts@.len(),
            all == views(parts@),
            out@ == joined(all.subrange(0, i as int), sep@),
        decreases parts@.len() - i,
    {
        let ghost next = all.subrange(0, i + 1);
        assert(next.drop_last() =~= all.subrange(0, i as int));
        assert(next.last() == parts@[i as int]@);
        if i > 0 {
            push_str(&mut out, sep);
        }
        push_all(&mut out, parts[i].as_slice());
        proof {
            if i == 0 {
                assert(out@ =~= next[0]);
            } else {
                assert(out@ =~= joined(next.drop_last(), sep@) + sep@ + next.last());
            }
        }
        i += 1;
    }
    assert(all.subrange(0, i as int) =~= all);
    out
}

/// Whether one of the pieces holds a character.
pub open spec fn in_piece(parts: Seq<Seq<char>>, x: char) -> bool {
    exists|k: int| 0 <= k < parts.len() && (#[trigger] parts[k]).contains(x)
}

/// Pieces hold the characters of the text but the one that it was cut at.
pub proof fn lemma_split_pieces(s: Seq<char>, c: char)
    ensures
        split(s, c).len() > 0,
        forall|k: int|
            0 <= k < split(s, c).len() ==> !(#[trigger] split(s, c)[k]).contains(c),
        forall|x: char| #[trigger] in_piece(split(s, c), x) <==> s.contains(x) && x != c,
    decreases s.len(),
{
    lemma_until(s, c);
    let k = until(s, c) as int;
    let parts = split(s, c);
    if k >= s.len() {
        assert(parts =~= seq![s]);
        assert(!s.contains(c)) by {
            if s.contains(c) {
                let i = choose|i: int| 0 <= i < s.len() && s[i] == c;
                assert(s[i] != c);
            }
        }
        assert forall|x: char| #[trigger] in_piece(parts, x) <==> s.contains(x) && x != c by {
            if s.contains(x) {
                assert(parts[0].contains(x));
            }
        }
    } else {
        let (a, t) = (s.subrange(0, k), rest(s, k + 1));
        let tail = split(t, c);
        lemma_split_pieces(t, c);
        assert(parts =~= seq![a] + tail);
        assert(!a.contains(c)) by {
            if a.contains(c) {
                let i = choose|i: int| 0 <= i < a.len() && a[i] == c;
                assert(s[i] != c);
            }
        }
        assert forall|j: int| 0 <= j < parts.len() implies !(#[trigger] parts[j]).contains(c) by {
            if j > 0 {
                assert(parts[j] == tail[j - 1]);
            }
        }
        assert forall|x: char| #[trigger] in_piece(parts, x) <==> s.contains(x) && x != c by {
            assert(in_piece(tail, x) <==> t.contains(x) && x != c);
            if in_piece(parts, x) {
                let j = choose|j: int| 0 <= j < parts.len() && (#[trigger] parts[j]).contains(x);
                if j == 0 {
                    let i = choose|i: int| 0 <= i < a.len() && a[i] == x;
                    assert(s[i] == x);
                } else {
                    assert(tail[j - 1].contains(x));
                    assert(in_piece(tail, x));
                    let i = choose|i: int| 0 <= i < t.len() && t[i] == x;
                    assert(s[k + 1 + i] == x);
                }
            }
            if s.contains(x) && x != c {
                let i = choose|i: int| 0 <= i < s.len() && s[i] == x;
                if i < k {
                    assert(a[i] == x);
                    assert(parts[0].contains(x));
                } else {
                    assert(t[i - k - 1] == x);
                    assert(in_piece(tail, x));
                    let j = choose|j: int| 0 <= j < tail.len() && (#[trigger] tail[j]).contains(x);
                    assert(parts[j + 1].contains(x));
                }
            }
        }
    }
}

/// Joining from the front.
pub proof fn lemma_joined_front(a: Seq<char>, parts: Seq<Seq<char>>, sep: Seq<char>)
    requires
        parts.len() > 0,
    ensures
        joined(seq![a] + parts, sep) == a + sep + joined(parts, sep),
    decreases parts.len(),
{
    let all = seq![a] + parts;
    assert(all.drop_last() =~= seq![a] + parts.drop_last());
    assert(all.last() == parts.last());
    if parts.len() == 1 {
        assert(all.drop_last() =~= seq![a]);
        assert(joined(seq![a], sep) == a);
        assert(joined(parts, sep) == parts.last());
    } else {
        lemma_joined_front(a, parts.drop_last(), sep);
        assert(a + sep + joined(parts.drop_last(), sep) + sep + parts.last() =~= a + sep + (joined(
            parts.drop_last(),
            sep,
        ) + sep + parts.last()));
    }
}

/// The pieces of a text, joined again, are the text.
pub proof fn lemma_split_joined(s: Seq<char>, c: char)
    ensures
        joined(split(s, c), seq![c]) == s,
    decreases s.len(),
{
    lemma_until(s, c);
    let k = until(s, c) as int;
    if k < s.len() {
        let t = rest(s, k + 1);
        lemma_split_joined(t, c);
        lemma_split_pieces(t, c);
        lemma_joined_front(s.subrange(0, k), split(t, c), seq![c]);
        assert(s.subrange(0, k) + seq![c] + t =~= s);
    }
}

/// Parts without the character, joined by it, are the pieces again.
pub proof fn lemma_joined_split(parts: Seq<Seq<char>>, c: char)
    requires
        parts.len() > 0,
        forall|k: int| 0 <= k < parts.len() ==> !(#[trigger] parts[k]).contains(c),
    ensures
        split(joined(parts, seq![c]), c) == parts,
    decreases parts.len(),
{
    let a = parts[0];
    if parts.len() == 1 {
        assert(forall|i: int| 0 <= i < a.len() ==> a.contains(#[trigger] a[i]));
        lemma_until_unique(a, c, a.len() as int);
        assert(parts =~= seq![a]);
    } else {
        let tail = parts.drop_first();
        assert forall|k: int| 0 <= k < tail.len() implies !(#[trigger] tail[k]).contains(c) by {
            assert(tail[k] == parts[k + 1]);
        }
        lemma_joined_split(tail, c);
        lemma_joined_front(a, tail, seq![c]);
        assert(seq![a] + tail =~= parts);
        let s = joined(parts, seq![c]);
        let n = a.len() as int;
        assert(s == a + seq![c] + joined(tail, seq![c]));
        assert forall|i: int| 0 <= i < n implies #[trigger] s[i] != c by {
            assert(a.contains(a[i]));
            assert(s[i] == a[i]);
        }
        lemma_until_unique(s, c, n);
        assert(s.subrange(0, n) =~= a);
        assert(rest(s, n + 1) =~= joined(tail, seq![c]));
        assert(split(s, c) =~= parts);
    }
}

/// Trimming a character keeps every other.
pub proof fn lemma_trim_keeps(s: Seq<char>, c: char, x: char)
    requires
        s.contains(x),
        x != c,
    ensures
        skip_char(s, c).contains(x),
        drop_char(s, c).contains(x),
    decreases s.len(),
{
    let i = choose|i: int| 0 <= i < s.len() && s[i] == x;
    if s[0] == c {
        assert(s.drop_first()[i - 1] == x);
        lemma_trim_keeps(s.drop_first(), c, x);
    }
    if s.last() == c {
        assert(s.drop_last()[i] == x);
        lemma_trim_keeps(s.drop_last(), c, x);
    }
}

// ---------------------------------------------------------------------
// Order
// ---------------------------------------------------------------------

/// Whether `a` comes before `b`, character by character; a proper beginning
/// comes first.
pub open spec fn precedes(a: Seq<char>, b: Seq<char>) -> bool
    decreases a.len(),
{
    if b.len() == 0 {
        false
    } else if a.len() == 0 {
        true
    } else if a[0] != b[0] {
        a[0] < b[0]
    } else {
        precedes(a.drop_first(), b.drop_first())
    }
}

/// Nothing precedes itself.
pub proof fn lemma_precedes_strict(a: Seq<char>)
    ensures
        !precedes(a, a),
    decreases a.len(),
{
    if a.len() > 0 {
        lemma_precedes_strict(a.drop_first());
    }
}

/// Of two texts one precedes the other, or they are the same.
pub proof fn lemma_precedes_total(a: Seq<char>, b: Seq<char>)
    ensures
        precedes(a, b) || precedes(b, a) || a == b,
    decreases a.len(),
{
    if a.len() > 0 && b.len() > 0 {
        if a[0] == b[0] {
            lemma_precedes_total(a.drop_first(), b.drop_first());
            if a.drop_first() == b.drop_first() {
                assert(a =~= seq![a[0]] + a.drop_first());
                assert(b =~= seq![b[0]] + b.drop_first());
            }
        }
    } else if a.len() == 0 && b.len() == 0 {
        assert(a =~= b);
    }
}

/// The order is transitive.
pub proof fn lemma_precedes_trans(a: Seq<char>, b: Seq<char>, c: Seq<char>)
    requires
        precedes(a, b),
        precedes(b, c),
    ensures
        precedes(a, c),
    decreases a.len(),
{
    if a.len() > 0 && a[0] == b[0] && b[0] == c[0] {
        lemma_precedes_trans(a.drop_first(), b.drop_first(), c.drop_first());
    }
}

/// Whether `a` comes before `b`.
pub fn comes_before(a: &[char], b: &[char]) -> (r: bool)
    ensures
        r == precedes(a@, b@),
{
    let mut i: usize = 0;
    assert(rest(a@, 0) =~= a@);
    assert(rest(b@, 0) =~= b@);
    while i < a.len() && i < b.len()
        invariant
            i <= a.len(),
            i <= b.len(),
            precedes(a@, b@) == precedes(rest(a@, i as int), rest(b@, i as int)),
        decreases a.len() - i,
    {
        let ghost (x, y) = (rest(a@, i as int), rest(b@, i as int));
        assert(x[0] == a@[i as int] && y[0] == b@[i as int]);
        assert(x.drop_first() =~= rest(a@, i + 1));
        assert(y.drop_first() =~= rest(b@, i + 1));
        if a[i] != b[i] {
            return a[i] < b[i];
        }
        i += 1;
    }
    i < b.len()
}

/// `s` without the occurrences of `p` that it begins with.
pub open spec fn skip_prefix(s: Seq<char>, p: Seq<char>) -> Seq<char>
    decreases s.len(),
{
    if p.len() > 0 && has_prefix(s, p) {
        skip_prefix(rest(s, p.len() as int), p)
    } else {
        s
    }
}

/// Removes the occurrences of `p` that `s` begins with.
pub fn trim_start_str(s: &[char], p: &str) -> (r: Vec<char>)
    ensures
        r@ == skip_prefix(s@, p@),
{
    let pc = chars(p);
    let mut cur = cut(s, 0, s.len());
    assert(cur@ =~= s@);
    while pc.len() > 0 && starts_with(cur.as_slice(), pc.as_slice())
        invariant
            pc@ == p@,
            skip_prefix(s@, p@) == skip_prefix(cur@, p@),
        decreases cur@.len(),
    {
        let n: usize = cur.len();
        let next = cut(cur.as_slice(), pc.len(), n);
        cur = next;
    }
    cur
}

/// Reads an unsigned number of up to 128 bits.
pub fn parse_big(s: &[char]) -> (r: Option<u128>)
    ensures
        match r {
            Some(v) => number(s@, u128::MAX as nat) == Some(v as nat),
            None => number(s@, u128::MAX as nat) is None,
        },
{
    let from: usize = if s.len() > 0 && s[0] == '+' {
        1
    } else {
        0
    };
    let ghost d = strip_plus(s@);
    assert(d =~= rest(s@, from as int));
    if from == s.len() {
        return None;
    }
    let max: u128 = u128::MAX;
    let mut v: u128 = 0;
    let mut i: usize = from;
    assert(d.subrange(0, 0) =~= Seq::<char>::empty());
    while i < s.len()
        invariant
            max == u128::MAX,
            from <= i <= s.len(),
            d == rest(s@, from as int),
            forall|j: int| 0 <= j < i - from ==> is_digit(#[trigger] d[j]),
            v == dec_value(d.subrange(0, i - from)),
            d == strip_plus(s@),
            d.len() == s.len() - from,
        decreases s.len() - i,
    {
        let c: char = s[i];
        assert(d[i - from] == c);
        if c < '0' || '9' < c {
            assert(!is_digit(d[i - from]));
            return None;
        }
        let x: u128 = (c as u32 - '0' as u32) as u128;
        proof {
            assert(d.subrange(0, i + 1 - from).drop_last() =~= d.subrange(0, i - from));
            assert(dec_value(d.subrange(0, i + 1 - from)) == v * 10 + x);
        }
        if v > max / 10 || (v == max / 10 && x > max % 10) {
            proof {
                if is_digits(d) {
                    lemma_dec_value_mono(d, i + 1 - from);
                    assert(v * 10 + x > max);
                }
            }
            return None;
        }
        assert(v * 10 + x <= max);
        v = v * 10 + x;
        i += 1;
    }
    assert(d.subrange(0, i - from) =~= d);
    assert(is_digits(d));
    Some(v)
}

/// Whole lines before a text come before its lines.
pub proof fn lemma_lines_append(a: Seq<char>, b: Seq<char>)
    requires
        a.len() == 0 || a.last() == '\n',
    ensures
        lines(a + b) == lines(a) + lines(b),
    decreases a.len(),
{
    if a.len() == 0 {
        assert(a + b =~= b);
        assert(lines(a) + lines(b) =~= lines(b));
    } else {
        let t = a + b;
        lemma_until(a, '\n');
        let k = until(a, '\n') as int;
        if k == a.len() {
            assert(a[a.len() - 1] != '\n');
        }
        assert forall|i: int| 0 <= i < k implies #[trigger] t[i] != '\n' by {
            assert(t[i] == a[i]);
        }
        assert(t[k] == a[k]);
        lemma_until_unique(t, '\n', k);
        let ra = rest(a, k + 1);
        assert(rest(t, k + 1) =~= ra + b);
        assert(t.subrange(0, k) =~= a.subrange(0, k));
        if ra.len() > 0 {
            assert(ra.last() == a.last());
        }
        lemma_lines_append(ra, b);
        let h = seq![strip_cr(a.subrange(0, k))];
        assert(h + (lines(ra) + lines(b)) =~= (h + lines(ra)) + lines(b));
    }
}

// ---------------------------------------------------------------------
// Laws
// ---------------------------------------------------------------------

/// Law: lower case moves the 26 capitals to their small letters and leaves
/// every other character as it is.
pub proof fn law_lower(c: char)
    ensures
        'A' <= c <= 'Z' ==> lower(c) as u32 == c as u32 + 32 && 'a' <= lower(c) <= 'z',
        !('A' <= c <= 'Z') ==> lower(c) == c,
        lower(lower(c)) == lower(c),
{
}

/// Law: lower case works character by character, and doing it twice is doing
/// it once.
pub proof fn law_ascii_lower(s: Seq<char>, t: Seq<char>)
    ensures
        ascii_lower(s).len() == s.len(),
        forall|i: int| 0 <= i < s.len() ==> #[trigger] ascii_lower(s)[i] == lower(s[i]),
        ascii_lower(ascii_lower(s)) == ascii_lower(s),
        ascii_lower(s + t) == ascii_lower(s) + ascii_lower(t),
        (forall|i: int| 0 <= i < s.len() ==> !('A' <= #[trigger] s[i] <= 'Z')) ==> ascii_lower(s)
            == s,
{
    assert(ascii_lower(ascii_lower(s)) =~= ascii_lower(s));
    assert(ascii_lower(s + t) =~= ascii_lower(s) + ascii_lower(t));
    if forall|i: int| 0 <= i < s.len() ==> !('A' <= #[trigger] s[i] <= 'Z') {
        assert(ascii_lower(s) =~= s);
    }
}

/// Law: among the first 128 characters white space is the blank and the five
/// from tab to carriage return; no letter, digit or sign is.
pub proof fn law_ascii_space(c: char)
    requires
        (c as u32) < 128,
    ensures
        is_space(c) <==> c == ' ' || 9 <= c as u32 <= 13,
{
}

/// Law: what is trimmed is white space and nothing else: the result is the
/// part of the text from its first character that is none to its last.
pub proof fn law_trimmed(s: Seq<char>)
    ensures
        exists|i: int, j: int| #[trigger] is_core(s, trimmed(s), i, j),
        trimmed(trimmed(s)) == trimmed(s),
{
    law_skip_space(s);
    let a = skip_space(s);
    let i = s.len() - a.len();
    law_drop_space(a);
    let b = drop_space(a);
    assert(is_core(s, b, i, i + b.len())) by {
        assert forall|k: int| (0 <= k < i || i + b.len() <= k < s.len()) implies is_space(
            #[trigger] s[k],
        ) by {
            if k >= i {
                assert(s[k] == a[k - i]);
            }
        }
        assert(b =~= s.subrange(i, i + b.len()));
    }
    assert(trimmed(s) == b);
    assert(is_core(s, trimmed(s), i, i + b.len()));
    if b.len() > 0 {
        assert(b[0] == a[0]);
        assert(skip_space(b) == b);
        assert(drop_space(b) == b);
    }
}

/// Whether `core` is what stands in `s` from `i` to `j`, white space around it
/// and none at its own ends.
pub open spec fn is_core(s: Seq<char>, core: Seq<char>, i: int, j: int) -> bool {
    &&& 0 <= i <= j <= s.len()
    &&& core == s.subrange(i, j)
    &&& forall|k: int| (0 <= k < i || j <= k < s.len()) ==> is_space(#[trigger] s[k])
    &&& core.len() > 0 ==> !is_space(core[0]) && !is_space(core.last())
}

/// Law: only white space goes from the front, and all of it.
pub proof fn law_skip_space(s: Seq<char>)
    ensures
        skip_space(s).len() <= s.len(),
        skip_space(s) == rest(s, s.len() - skip_space(s).len()),
        forall|k: int| 0 <= k < s.len() - skip_space(s).len() ==> is_space(#[trigger] s[k]),
        skip_space(s).len() > 0 ==> !is_space(skip_space(s)[0]),
    decreases s.len(),
{
    if s.len() > 0 && is_space(s[0]) {
        let t = s.drop_first();
        law_skip_space(t);
        let n = s.len() - skip_space(s).len();
        assert forall|k: int| 0 <= k < n implies is_space(#[trigger] s[k]) by {
            if k > 0 {
                assert(s[k] == t[k - 1]);
            }
        }
        assert(skip_space(s) =~= rest(s, n));
    } else {
        assert(rest(s, 0) =~= s);
    }
}

/// Law: only white space goes from the end, and all of it.
pub proof fn law_drop_space(s: Seq<char>)
    ensures
        drop_space(s).len() <= s.len(),
        drop_space(s) == s.subrange(0, drop_space(s).len() as int),
        forall|k: int| drop_space(s).len() <= k < s.len() ==> is_space(#[trigger] s[k]),
        drop_space(s).len() > 0 ==> !is_space(drop_space(s).last()),
    decreases s.len(),
{
    if s.len() > 0 && is_space(s.last()) {
        let t = s.drop_last();
        law_drop_space(t);
        assert forall|k: int| drop_space(s).len() <= k < s.len() implies is_space(#[trigger] s[k]) by {
            if k < t.len() {
                assert(s[k] == t[k]);
            }
        }
        assert(drop_space(s) =~= s.subrange(0, drop_space(s).len() as int));
    } else {
        assert(s.subrange(0, s.len() as int) =~= s);
    }
}

/// Law: only the character goes from the end, and every one of it there.
pub proof fn law_drop_char(s: Seq<char>, c: char)
    ensures
        drop_char(s, c).len() <= s.len(),
        drop_char(s, c) == s.subrange(0, drop_char(s, c).len() as int),
        forall|k: int| drop_char(s, c).len() <= k < s.len() ==> #[trigger] s[k] == c,
        drop_char(s, c).len() > 0 ==> drop_char(s, c).last() != c,
    decreases s.len(),
{
    if s.len() > 0 && s.last() == c {
        let t = s.drop_last();
        law_drop_char(t, c);
        assert forall|k: int| drop_char(s, c).len() <= k < s.len() implies #[trigger] s[k] == c by {
            if k < t.len() {
                assert(s[k] == t[k]);
            }
        }
        assert(drop_char(s, c) =~= s.subrange(0, drop_char(s, c).len() as int));
    } else {
        assert(s.subrange(0, s.len() as int) =~= s);
    }
}

/// Law: only the character goes from the front, and every one of it there.
pub proof fn law_skip_char(s: Seq<char>, c: char)
    ensures
        skip_char(s, c).len() <= s.len(),
        skip_char(s, c) == rest(s, s.len() - skip_char(s, c).len()),
        forall|k: int| 0 <= k < s.len() - skip_char(s, c).len() ==> #[trigger] s[k] == c,
        skip_char(s, c).len() > 0 ==> skip_char(s, c)[0] != c,
    decreases s.len(),
{
    if s.len() > 0 && s[0] == c {
        let t = s.drop_first();
        law_skip_char(t, c);
        let n = s.len() - skip_char(s, c).len();
        assert forall|k: int| 0 <= k < n implies #[trigger] s[k] == c by {
            if k > 0 {
                assert(s[k] == t[k - 1]);
            }
        }
        assert(skip_char(s, c) =~= rest(s, n));
    } else {
        assert(rest(s, 0) =~= s);
    }
}

/// Law: a beginning goes as often as it stands there, and what is left does
/// not begin with it.
pub proof fn law_skip_prefix(s: Seq<char>, p: Seq<char>)
    requires
        p.len() > 0,
    ensures
        !has_prefix(skip_prefix(s, p), p),
        skip_prefix(p + s, p) == skip_prefix(s, p),
        !has_prefix(s, p) ==> skip_prefix(s, p) == s,
    decreases s.len(),
{
    assert((p + s).subrange(0, p.len() as int) =~= p);
    assert(rest(p + s, p.len() as int) =~= s);
    if has_prefix(s, p) {
        law_skip_prefix(rest(s, p.len() as int), p);
    }
}

/// Law: what it is to begin, to end and to stand somewhere, character by
/// character.
pub proof fn law_places(s: Seq<char>, p: Seq<char>, i: int)
    ensures
        has_prefix(s, p) <==> p.len() <= s.len() && forall|k: int|
            0 <= k < p.len() ==> s[k] == #[trigger] p[k],
        has_suffix(s, p) <==> p.len() <= s.len() && forall|k: int|
            0 <= k < p.len() ==> s[s.len() - p.len() + k] == #[trigger] p[k],
        stands_at(s, p, i) <==> 0 <= i && i + p.len() <= s.len() && forall|k: int|
            0 <= k < p.len() ==> s[i + k] == #[trigger] p[k],
{
    if p.len() <= s.len() {
        let a = s.subrange(0, p.len() as int);
        let b = s.subrange(s.len() - p.len(), s.len() as int);
        if forall|k: int| 0 <= k < p.len() ==> s[k] == #[trigger] p[k] {
            assert(a =~= p);
        }
        if a == p {
            assert forall|k: int| 0 <= k < p.len() implies s[k] == #[trigger] p[k] by {
                assert(a[k] == s[k]);
            }
        }
        if forall|k: int| 0 <= k < p.len() ==> s[s.len() - p.len() + k] == #[trigger] p[k] {
            assert(b =~= p);
        }
        if b == p {
            assert forall|k: int| 0 <= k < p.len() implies s[s.len() - p.len() + k]
                == #[trigger] p[k] by {
                assert(b[k] == s[s.len() - p.len() + k]);
            }
        }
    }
    if 0 <= i && i + p.len() <= s.len() {
        let a = s.subrange(i, i + p.len());
        if forall|k: int| 0 <= k < p.len() ==> s[i + k] == #[trigger] p[k] {
            assert(a =~= p);
        }
        if a == p {
            assert forall|k: int| 0 <= k < p.len() implies s[i + k] == #[trigger] p[k] by {
                assert(a[k] == s[i + k]);
            }
        }
    }
}

/// Law: a line ends at its line feed; one carriage return before that is not
/// part of it, and the lines behind are those of the rest. Without a line feed
/// all of it is one line; of nothing there are no lines.
pub proof fn law_lines(l: Seq<char>, tail: Seq<char>)
    requires
        !l.contains('\n'),
    ensures
        lines(Seq::empty()).len() == 0,
        l.len() > 0 ==> lines(l) == seq![l],
        l.len() == 0 || l.last() != '\r' ==> lines(l + seq!['\n'] + tail) == seq![l] + lines(tail),
        lines(l + seq!['\r', '\n'] + tail) == seq![l] + lines(tail),
{
    lemma_until_of(l);
    if l.len() > 0 {
        lemma_until_unique(l, '\n', l.len() as int);
    }
    let s = l + seq!['\n'] + tail;
    assert forall|i: int| 0 <= i < l.len() implies #[trigger] s[i] != '\n' by {
        assert(l[i] != '\n');
    }
    lemma_until_unique(s, '\n', l.len() as int);
    assert(s.subrange(0, l.len() as int) =~= l);
    assert(rest(s, l.len() as int + 1) =~= tail);
    let r = l + seq!['\r', '\n'] + tail;
    let n = l.len() as int;
    assert forall|i: int| 0 <= i < n + 1 implies #[trigger] r[i] != '\n' by {
        if i < n {
            assert(l[i] != '\n');
        }
    }
    lemma_until_unique(r, '\n', n + 1);
    assert(strip_cr(r.subrange(0, n + 1)) =~= l);
    assert(rest(r, n + 2) =~= tail);
}

proof fn lemma_until_of(l: Seq<char>)
    requires
        !l.contains('\n'),
    ensures
        forall|i: int| 0 <= i < l.len() ==> #[trigger] l[i] != '\n',
{
    assert forall|i: int| 0 <= i < l.len() implies #[trigger] l[i] != '\n' by {
        assert(l.contains(l[i]));
    }
}

/// Law: a word is what stands between white space: blanks before words do not
/// count, a word ends at the next blank, and the words behind are those of the
/// rest.
pub proof fn law_words(w: Seq<char>, b: char, tail: Seq<char>)
    requires
        w.len() > 0,
        forall|i: int| 0 <= i < w.len() ==> !is_space(#[trigger] w[i]),
        is_space(b),
    ensures
        words(Seq::empty()).len() == 0,
        words(w) == seq![w],
        words(w + seq![b] + tail) == seq![w] + words(tail),
        words(seq![b] + tail) == words(tail),
{
    reveal_with_fuel(words, 2);
    let none = Seq::<char>::empty();
    assert(skip_space(none) == none);
    assert(word_len(none) == 0);
    lemma_word_of(w, none);
    assert(w + none =~= w);
    assert(w.subrange(0, w.len() as int) =~= w);
    assert(rest(w, w.len() as int) =~= none);
    assert(words(w) =~= seq![w]);
    let s = w + seq![b] + tail;
    let t = seq![b] + tail;
    assert(w + t =~= s);
    lemma_word_of(w, t);
    assert(s[0] == w[0]);
    assert(s.subrange(0, w.len() as int) =~= w);
    assert(rest(s, w.len() as int) =~= t);
    assert(t.drop_first() =~= tail);
    assert(skip_space(t) == skip_space(tail));
    assert(words(t) == words(tail));
    assert(skip_space(s) == s);
}

proof fn lemma_word_of(w: Seq<char>, t: Seq<char>)
    requires
        forall|i: int| 0 <= i < w.len() ==> !is_space(#[trigger] w[i]),
        t.len() > 0 ==> is_space(t[0]),
    ensures
        word_len(w + t) == w.len(),
    decreases w.len(),
{
    let s = w + t;
    if w.len() > 0 {
        assert(s[0] == w[0]);
        assert(s.drop_first() =~= w.drop_first() + t);
        lemma_word_of(w.drop_first(), t);
    } else {
        assert(s =~= t);
    }
}

/// Law: replacing works character by character: what stands for the character
/// is put in its place, and every other character stays.
pub proof fn law_replaced(a: Seq<char>, b: Seq<char>, c: char, d: char, with: Seq<char>)
    ensures
        replaced(a + b, c, with) == replaced(a, c, with) + replaced(b, c, with),
        replaced(seq![c], c, with) == with,
        c != d ==> replaced(seq![d], c, with) == seq![d],
        replaced(Seq::empty(), c, with).len() == 0,
    decreases b.len(),
{
    assert(seq![c].drop_last() =~= Seq::<char>::empty());
    assert(seq![d].drop_last() =~= Seq::<char>::empty());
    reveal_with_fuel(replaced, 2);
    assert(Seq::<char>::empty() + with =~= with);
    assert(Seq::<char>::empty() + seq![d] =~= seq![d]);
    if b.len() == 0 {
        assert(a + b =~= a);
        assert(replaced(a, c, with) + replaced(b, c, with) =~= replaced(a, c, with));
    } else {
        assert((a + b).drop_last() =~= a + b.drop_last());
        law_replaced(a, b.drop_last(), c, d, with);
        let last = if b.last() == c {
            with
        } else {
            seq![b.last()]
        };
        assert(replaced(a, c, with) + replaced(b.drop_last(), c, with) + last =~= replaced(
            a,
            c,
            with,
        ) + (replaced(b.drop_last(), c, with) + last));
    }
}

/// Law: a replacement brings in nothing but itself: a character that is
/// neither in the text nor in what is put in is not in the result.
pub proof fn law_replaced_brings_nothing(s: Seq<char>, c: char, with: Seq<char>, x: char)
    requires
        !s.contains(x) || x == c,
        !with.contains(x),
    ensures
        !replaced(s, c, with).contains(x),
    decreases s.len(),
{
    if s.len() > 0 {
        let t = s.drop_last();
        if t.contains(x) {
            let i = choose|i: int| 0 <= i < t.len() && t[i] == x;
            assert(s[i] == x);
        }
        law_replaced_brings_nothing(t, c, with, x);
        let a = replaced(t, c, with);
        let r = replaced(s, c, with);
        if r.contains(x) {
            let i = choose|i: int| 0 <= i < r.len() && r[i] == x;
            if i < a.len() {
                assert(a[i] == x);
            } else if s.last() == c {
                assert(with[i - a.len()] == x);
            } else {
                assert(s[s.len() - 1] == x);
            }
        }
    }
}

/// Law: the value of a key is that of the first pair with it; there is none
/// exactly where no pair has it.
pub proof fn law_lookup(pairs: Seq<(Seq<char>, Seq<char>)>, key: Seq<char>)
    ensures
        match lookup(pairs, key) {
            Some(v) => exists|i: int|
                #![trigger pairs[i]]
                0 <= i < pairs.len() && pairs[i] == (key, v) && forall|j: int|
                    0 <= j < i ==> (#[trigger] pairs[j]).0 != key,
            None => forall|j: int| 0 <= j < pairs.len() ==> (#[trigger] pairs[j]).0 != key,
        },
    decreases pairs.len(),
{
    if pairs.len() > 0 {
        if pairs[0].0 == key {
            assert(pairs[0] == (key, lookup(pairs, key)->Some_0));
        } else {
            let t = pairs.drop_first();
            law_lookup(t, key);
            match lookup(t, key) {
                Some(v) => {
                    let k = choose|i: int|
                        #![trigger t[i]]
                        0 <= i < t.len() && t[i] == (key, v) && forall|j: int|
                            0 <= j < i ==> (#[trigger] t[j]).0 != key;
                    assert(pairs[k + 1] == (key, v));
                    assert forall|j: int| 0 <= j < k + 1 implies (#[trigger] pairs[j]).0 != key by {
                        if j > 0 {
                            assert(pairs[j] == t[j - 1]);
                        }
                    }
                },
                None => {
                    assert forall|j: int| 0 <= j < pairs.len() implies (#[trigger] pairs[j]).0
                        != key by {
                        if j > 0 {
                            assert(pairs[j] == t[j - 1]);
                        }
                    }
                },
            }
        }
    }
}

/// Law: what is found behind a beginning comes from the first line that has
/// it; nothing is found exactly where no line has it.
pub proof fn law_after_prefix(ls: Seq<Seq<char>>, p: Seq<char>)
    ensures
        match after_prefix(ls, p) {
            Some(v) => exists|i: int|
                #![trigger ls[i]]
                0 <= i < ls.len() && ls[i] == p + v && forall|j: int|
                    0 <= j < i ==> !has_prefix(#[trigger] ls[j], p),
            None => forall|j: int| 0 <= j < ls.len() ==> !has_prefix(#[trigger] ls[j], p),
        },
    decreases ls.len(),
{
    if ls.len() > 0 {
        if has_prefix(ls[0], p) {
            assert(ls[0] =~= p + after_prefix(ls, p)->Some_0);
        } else {
            let t = ls.drop_first();
            law_after_prefix(t, p);
            match after_prefix(t, p) {
                Some(v) => {
                    let k = choose|i: int|
                        #![trigger t[i]]
                        0 <= i < t.len() && t[i] == p + v && forall|j: int|
                            0 <= j < i ==> !has_prefix(#[trigger] t[j], p);
                    assert(ls[k + 1] == p + v);
                    assert forall|j: int| 0 <= j < k + 1 implies !has_prefix(
                        #[trigger] ls[j],
                        p,
                    ) by {
                        if j > 0 {
                            assert(ls[j] == t[j - 1]);
                        }
                    }
                },
                None => {
                    assert forall|j: int| 0 <= j < ls.len() implies !has_prefix(
                        #[trigger] ls[j],
                        p,
                    ) by {
                        if j > 0 {
                            assert(ls[j] == t[j - 1]);
                        }
                    }
                },
            }
        }
    }
}

/// Law: the pieces of a text, with what it was cut at put between them again,
/// are the text, and it is cut at every place: what was cut at stands in no
/// piece.
pub proof fn law_pieces(s: Seq<char>, p: Seq<char>)
    requires
        p.len() > 0,
    ensures
        pieces(s, p).len() > 0,
        joined(pieces(s, p), p) == s,
        forall|k: int| 0 <= k < pieces(s, p).len() ==> !contains(#[trigger] pieces(s, p)[k], p),
    decreases s.len(),
{
    lemma_find_from(s, p, 0);
    match find(s, p) {
        Some(i) => {
            let t = rest(s, i + p.len());
            let head = s.subrange(0, i);
            law_pieces(t, p);
            lemma_joined_front(head, pieces(t, p), p);
            assert(s =~= head + p + t);
            assert(!contains(head, p)) by {
                lemma_contains(head, p);
                if contains(head, p) {
                    let k = choose|k: int| #[trigger] stands_at(head, p, k);
                    assert(s.subrange(k, k + p.len()) =~= head.subrange(k, k + p.len()));
                    assert(stands_at(s, p, k));
                }
            }
            assert forall|k: int| 0 <= k < pieces(s, p).len() implies !contains(
                #[trigger] pieces(s, p)[k],
                p,
            ) by {
                if k > 0 {
                    assert(pieces(s, p)[k] == pieces(t, p)[k - 1]);
                }
            }
        },
        None => {},
    }
}

/// Law: joining two lists is joining each and putting the separator between
/// them; one text alone is joined to itself.
pub proof fn law_joined(a: Seq<Seq<char>>, b: Seq<Seq<char>>, sep: Seq<char>)
    requires
        a.len() > 0,
        b.len() > 0,
    ensures
        joined(a + b, sep) == joined(a, sep) + sep + joined(b, sep),
        joined(seq![a[0]], sep) == a[0],
        joined(Seq::empty(), sep).len() == 0,
    decreases b.len(),
{
    let s = a + b;
    assert(s.drop_last() =~= a + b.drop_last());
    assert(s.last() == b.last());
    if b.len() == 1 {
        assert(b.drop_last() =~= Seq::<Seq<char>>::empty());
        assert(s.drop_last() =~= a);
    } else {
        law_joined(a, b.drop_last(), sep);
        assert(joined(a, sep) + sep + joined(b.drop_last(), sep) + sep + b.last() =~= joined(a, sep)
            + sep + (joined(b.drop_last(), sep) + sep + b.last()));
    }
}

/// Law: how numbers are read. Digits count by their places, a plus sign in
/// front does not count, leading zeros do not either; nothing but digits is a
/// number, and none is over the limit.
pub proof fn law_number(n: nat, max: nat, s: Seq<char>)
    ensures
        n <= max ==> number(decimal(n), max) == Some(n),
        n <= max ==> number(seq!['+'] + decimal(n), max) == Some(n),
        n > max ==> number(decimal(n), max) is None,
        number(Seq::empty(), max) is None,
        number(s, max) matches Some(v) ==> v <= max,
        s.len() > 0 && s[0] != '+' && !is_digits(s) ==> number(s, max) is None,
        number(seq!['-'] + s, max) is None,
        is_digits(s) ==> dec_value(seq!['0'] + s) == dec_value(s),
{
    lemma_decimal_value(n);
    let p = seq!['+'] + decimal(n);
    assert(p.drop_first() =~= decimal(n));
    assert(is_digit(decimal(n)[0]));
    let m = seq!['-'] + s;
    assert(m[0] == '-');
    if is_digits(m) {
        assert(is_digit(m[0]));
    }
    lemma_leading_nought(s);
}

proof fn lemma_leading_nought(s: Seq<char>)
    ensures
        dec_value(seq!['0'] + s) == dec_value(s),
    decreases s.len(),
{
    let z = seq!['0'] + s;
    if s.len() == 0 {
        assert(z.drop_last() =~= Seq::<char>::empty());
        reveal_with_fuel(dec_value, 2);
    } else {
        assert(z.drop_last() =~= seq!['0'] + s.drop_last());
        lemma_leading_nought(s.drop_last());
    }
}

/// Law: how numbers are written. Different numbers are written differently,
/// without a leading zero but for zero itself, and a negative one has a minus
/// sign before the digits of its opposite.
pub proof fn law_decimal(a: nat, b: nat)
    ensures
        decimal(a) == decimal(b) ==> a == b,
        is_digits(decimal(a)),
        dec_value(decimal(a)) == a,
        a > 0 ==> decimal(a)[0] != '0',
        decimal(0) == seq!['0'],
        a > 0 ==> decimal_int(-(a as int)) == seq!['-'] + decimal(a),
        decimal_int(a as int) == decimal(a),
    decreases a,
{
    lemma_decimal_value(a);
    lemma_decimal_value(b);
    if a >= 10 {
        law_decimal(a / 10, b);
        lemma_decimal_value(a / 10);
        assert(decimal(a)[0] == decimal(a / 10)[0]);
    }
}

/// Law: the order of texts is that of their first difference, and a proper
/// beginning comes first.
pub proof fn law_order_by_first_difference(h: Seq<char>, a: Seq<char>, b: Seq<char>)
    requires
        b.len() > 0,
        a.len() == 0 || a[0] != b[0],
    ensures
        precedes(h + a, h + b) <==> a.len() == 0 || a[0] < b[0],
    decreases h.len(),
{
    if h.len() > 0 {
        let (s, t) = (h + a, h + b);
        assert(s.drop_first() =~= h.drop_first() + a);
        assert(t.drop_first() =~= h.drop_first() + b);
        law_order_by_first_difference(h.drop_first(), a, b);
    } else {
        assert(h + a =~= a);
        assert(h + b =~= b);
    }
}

/// Law: lower case beyond the rule for ASCII is asked for only where the text
/// is not ASCII, and bytes that are text are read as that text.
pub proof fn law_ascii_and_valid_text(s: Seq<char>, t: Seq<char>, c: char)
    ensures
        vstd::utf8::is_ascii_chars(s) ==> lowercase(s) == ascii_lower(s),
        lossy(vstd::utf8::encode_utf8(t)) == t,
        (c as u32) < 128 ==> (is_alphabetic(c) <==> 'a' <= c <= 'z' || 'A' <= c <= 'Z'),
{
    vstd::utf8::encode_utf8_valid_utf8(t);
    vstd::utf8::encode_utf8_decode_utf8(t);
}

/// Law: the contents of a list of strings are those of its elements, in order.
pub proof fn law_list_views(v: Seq<String>, p: Seq<(String, String)>, i: int)
    ensures
        strs(v).len() == v.len(),
        0 <= i < v.len() ==> strs(v)[i] == v[i]@,
        pair_views(p).len() == p.len(),
        0 <= i < p.len() ==> pair_views(p)[i] == (p[i].0@, p[i].1@),
{
}

} // verus!
