//! Punycode (RFC 3492), encoding only: operators may type suffixes with
//! letters beyond ASCII; names on the wire are encoded already.

use vstd::prelude::*;

use crate::text;

verus! {

pub const BASE: u64 = 36;

pub const TMIN: u64 = 1;

pub const TMAX: u64 = 26;

pub const SKEW: u64 = 38;

pub const DAMP: u64 = 700;

/// A delta at which the halving stops: half of the largest threshold times
/// the smallest base.
pub const SETTLED: u64 = 455;

pub const INITIAL_BIAS: u64 = 72;

pub const INITIAL_N: u64 = 128;

/// Largest delta that is encoded; beyond it a label is rejected.
pub const MAX_DELTA: u64 = 0xffff_ffff;

// ---------------------------------------------------------------------
// Numbers
// ---------------------------------------------------------------------

/// The character of a digit below 36.
pub open spec fn digit_char(d: nat) -> char {
    if d < 26 {
        (97 + d) as char
    } else {
        (48 + d - 26) as char
    }
}

fn char_of_digit(d: u64) -> (r: char)
    requires
        d < BASE,
    ensures
        r == digit_char(d as nat),
{
    if d < 26 {
        (97 + d as u8) as char
    } else {
        (48 + (d - 26) as u8) as char
    }
}

/// The threshold at a place under a bias.
pub open spec fn threshold(k: nat, bias: nat) -> nat {
    if k <= bias {
        TMIN as nat
    } else if k >= bias + TMAX {
        TMAX as nat
    } else {
        (k - bias) as nat
    }
}

/// A number with digits of varying base, lowest first: a digit below its
/// threshold is the last.
pub open spec fn variable(q: nat, k: nat, bias: nat) -> Seq<char>
    decreases q,
{
    let t = threshold(k, bias);
    if q < t || t < 1 || t > 26 {
        seq![digit_char(q)]
    } else {
        proof {
            assert((q - t) / (BASE - t) < q) by (nonlinear_arith)
                requires
                    q >= t,
                    1 <= t <= 26,
            ;
        }
        seq![digit_char((t + (q - t) % (BASE - t)) as nat)] + variable(
            ((q - t) / (BASE - t)) as nat,
            k + BASE as nat,
            bias,
        )
    }
}

/// The halving of a delta that sets the next bias.
pub open spec fn settle(delta: nat, k: nat) -> nat
    decreases delta,
{
    if delta > SETTLED {
        settle(delta / 35, k + BASE as nat)
    } else {
        k + (36 * delta) / (delta + SKEW as nat)
    }
}

/// The bias after a delta.
pub open spec fn adapted(delta: nat, points: nat, first: bool) -> nat {
    let d = if first {
        delta / (DAMP as nat)
    } else {
        delta / 2
    };
    settle(d + d / points, 0)
}

fn adapt(delta: u64, points: u128, first: bool) -> (r: u64)
    requires
        delta <= MAX_DELTA,
        points >= 1,
    ensures
        r == adapted(delta as nat, points as nat, first),
        r <= 36 * MAX_DELTA + 36,
{
    let d: u64 = if first {
        delta / DAMP
    } else {
        delta / 2
    };
    let share: u128 = d as u128 / points;
    proof {
        assert(share <= d) by (nonlinear_arith)
            requires
                points >= 1,
                share == d as int / points as int,
        ;
    }
    let start: u64 = d + share as u64;
    assert(start <= MAX_DELTA);
    let mut e: u64 = start;
    let mut k: u64 = 0;
    while e > SETTLED
        invariant
            e <= MAX_DELTA,
            k + 36 * e <= 36 * MAX_DELTA,
            settle(start as nat, 0) == settle(e as nat, k as nat),
        decreases e,
    {
        e = e / 35;
        k = k + 36;
    }
    let top: u64 = 36 * e;
    proof {
        let (tn, en) = (top as nat, e as nat);
        assert(tn / (en + 38) <= 36) by (nonlinear_arith)
            requires
                tn == 36 * en,
        ;
    }
    k + top / (e + 38)
}

// ---------------------------------------------------------------------
// Labels
// ---------------------------------------------------------------------

/// Whether a character is within ASCII.
pub open spec fn is_basic(c: char) -> bool {
    (c as u32) < 128
}

/// The characters of a label within ASCII.
pub open spec fn basic_of(s: Seq<char>) -> Seq<char>
    decreases s.len(),
{
    if s.len() == 0 {
        s
    } else if is_basic(s.last()) {
        basic_of(s.drop_last()).push(s.last())
    } else {
        basic_of(s.drop_last())
    }
}

/// Where an encoding stands: the delta so far, the bias, how many characters
/// have been handled, and what has been written.
#[verifier::ext_equal]
pub struct Progress {
    pub delta: nat,
    pub bias: nat,
    pub handled: nat,
    pub out: Seq<char>,
}

/// One character of the pass for code point `n`: a lower one counts, an equal
/// one is written. None where the delta grows too large.
pub open spec fn one(c: char, n: nat, basic: nat, p: Progress) -> Option<Progress> {
    let cp = c as u32 as nat;
    if cp < n {
        if p.delta + 1 > MAX_DELTA {
            None
        } else {
            Some(Progress { delta: p.delta + 1, ..p })
        }
    } else if cp == n {
        Some(
            Progress {
                delta: 0,
                bias: adapted(p.delta, p.handled + 1, p.handled == basic),
                handled: p.handled + 1,
                out: p.out + variable(p.delta, BASE as nat, p.bias),
            },
        )
    } else {
        Some(p)
    }
}

/// The pass for code point `n` over the characters.
pub open spec fn pass(s: Seq<char>, n: nat, basic: nat, p: Progress) -> Option<Progress>
    decreases s.len(),
{
    if s.len() == 0 {
        Some(p)
    } else {
        match pass(s.drop_last(), n, basic, p) {
            Some(q) => one(s.last(), n, basic, q),
            None => None,
        }
    }
}

/// The lowest code point of at least `n`.
pub open spec fn next_point(s: Seq<char>, n: nat) -> Option<nat>
    decreases s.len(),
{
    if s.len() == 0 {
        None
    } else {
        let cp = s.last() as u32 as nat;
        match next_point(s.drop_last(), n) {
            Some(m) => if n <= cp < m {
                Some(cp)
            } else {
                Some(m)
            },
            None => if n <= cp {
                Some(cp)
            } else {
                None
            },
        }
    }
}

/// The passes from code point `n` on.
pub open spec fn passes(s: Seq<char>, n: nat, basic: nat, p: Progress) -> Option<Seq<char>>
    decreases 0x110000 - n,
{
    if p.handled >= s.len() || n >= 0x110000 {
        Some(p.out)
    } else {
        match next_point(s, n) {
            None => None,
            Some(m) => {
                let d = p.delta + (m - n) * (p.handled + 1);
                if d > MAX_DELTA || m < n || m >= 0x110000 {
                    None
                } else {
                    match pass(s, m, basic, Progress { delta: d as nat, ..p }) {
                        None => None,
                        Some(q) => if q.delta + 1 > MAX_DELTA {
                            None
                        } else {
                            passes(s, m + 1, basic, Progress { delta: q.delta + 1, ..q })
                        },
                    }
                }
            },
        }
    }
}

/// The encoding of a label: its ASCII characters, a hyphen behind them, and
/// where the others go. None where it cannot be written within the limits.
pub open spec fn encoded(s: Seq<char>) -> Option<Seq<char>> {
    let b = basic_of(s);
    passes(
        s,
        INITIAL_N as nat,
        b.len(),
        Progress {
            delta: 0,
            bias: INITIAL_BIAS as nat,
            handled: b.len(),
            out: if b.len() > 0 {
                b.push('-')
            } else {
                b
            },
        },
    )
}

fn push_variable(out: &mut Vec<char>, delta: u64, bias: u64)
    requires
        delta <= MAX_DELTA,
        bias <= 36 * MAX_DELTA + 36,
    ensures
        final(out)@ == old(out)@ + variable(delta as nat, BASE as nat, bias as nat),
{
    let ghost start = out@;
    let mut q: u64 = delta;
    let mut k: u64 = BASE;
    assert(start + variable(delta as nat, BASE as nat, bias as nat) =~= out@ + variable(
        q as nat,
        k as nat,
        bias as nat,
    ));
    loop
        invariant_except_break
            q <= MAX_DELTA,
            bias <= 36 * MAX_DELTA + 36,
            k + 36 * q <= 36 * MAX_DELTA + 36,
            start + variable(delta as nat, BASE as nat, bias as nat) == out@ + variable(
                q as nat,
                k as nat,
                bias as nat,
            ),
        ensures
            out@ == start + variable(delta as nat, BASE as nat, bias as nat),
        decreases q,
    {
        let t: u64 = if k <= bias {
            TMIN
        } else if k >= bias + TMAX {
            TMAX
        } else {
            k - bias
        };
        assert(t == threshold(k as nat, bias as nat));
        if q < t {
            let ghost before = out@;
            out.push(char_of_digit(q));
            assert(out@ =~= before + seq![digit_char(q as nat)]);
            break;
        }
        let m: u64 = BASE - t;
        let rem: u64 = (q - t) % m;
        let div: u64 = (q - t) / m;
        proof {
            assert(div < q) by (nonlinear_arith)
                requires
                    q >= t,
                    1 <= t <= 26,
                    m == 36 - t,
                    div == (q - t) / (m as int),
            ;
            assert(t + rem < 36) by (nonlinear_arith)
                requires
                    m == 36 - t,
                    1 <= t <= 26,
                    rem == (q - t) % (m as int),
            ;
        }
        let ghost before = out@;
        let ghost d = digit_char((t + rem) as nat);
        out.push(char_of_digit(t + rem));
        assert(before + (seq![d] + variable(div as nat, (k + 36) as nat, bias as nat)) =~= out@
            + variable(div as nat, (k + 36) as nat, bias as nat));
        q = div;
        k = k + 36;
    }
}

fn lowest(s: &[char], n: u64) -> (r: Option<u64>)
    ensures
        match r {
            Some(m) => next_point(s@, n as nat) == Some(m as nat) && n <= m < 0x110000,
            None => next_point(s@, n as nat) is None,
        },
{
    let mut best: Option<u64> = None;
    let mut i: usize = 0;
    assert(s@.subrange(0, 0) =~= Seq::<char>::empty());
    while i < s.len()
        invariant
            i <= s.len(),
            match best {
                Some(m) => next_point(s@.subrange(0, i as int), n as nat) == Some(m as nat) && n
                    <= m < 0x110000,
                None => next_point(s@.subrange(0, i as int), n as nat) is None,
            },
        decreases s.len() - i,
    {
        let ghost next = s@.subrange(0, i + 1);
        assert(next.drop_last() =~= s@.subrange(0, i as int));
        assert(next.last() == s@[i as int]);
        proof {
            vstd::utf8::char_is_scalar(s@[i as int]);
        }
        let cp: u64 = s[i] as u32 as u64;
        best = match best {
            Some(m) => if n <= cp && cp < m {
                Some(cp)
            } else {
                Some(m)
            },
            None => if n <= cp {
                Some(cp)
            } else {
                None
            },
        };
        i += 1;
    }
    assert(s@.subrange(0, i as int) =~= s@);
    best
}

fn basic_chars(s: &[char]) -> (r: Vec<char>)
    ensures
        r@ == basic_of(s@),
        r@.len() <= s@.len(),
{
    let mut out: Vec<char> = Vec::new();
    let mut i: usize = 0;
    assert(s@.subrange(0, 0) =~= Seq::<char>::empty());
    while i < s.len()
        invariant
            i <= s.len(),
            out@ == basic_of(s@.subrange(0, i as int)),
            out@.len() <= i,
        decreases s.len() - i,
    {
        let ghost next = s@.subrange(0, i + 1);
        assert(next.drop_last() =~= s@.subrange(0, i as int));
        assert(next.last() == s@[i as int]);
        if (s[i] as u32) < 128 {
            out.push(s[i]);
        }
        i += 1;
    }
    assert(s@.subrange(0, i as int) =~= s@);
    out
}

proof fn lemma_pass_prefix(s: Seq<char>, n: nat, basic: nat, p: Progress, i: int)
    requires
        0 <= i <= s.len(),
        pass(s, n, basic, p) is Some,
    ensures
        pass(s.subrange(0, i), n, basic, p) is Some,
    decreases s.len() - i,
{
    if i < s.len() {
        lemma_pass_prefix(s, n, basic, p, i + 1);
        assert(s.subrange(0, i + 1).drop_last() =~= s.subrange(0, i));
    } else {
        assert(s.subrange(0, i) =~= s);
    }
}

/// Progress of the running encoding.
struct Run {
    delta: u64,
    bias: u64,
    handled: u128,
    out: Vec<char>,
}

impl Run {
    spec fn progress(&self) -> Progress {
        Progress {
            delta: self.delta as nat,
            bias: self.bias as nat,
            handled: self.handled as nat,
            out: self.out@,
        }
    }

    spec fn within(&self) -> bool {
        self.delta <= MAX_DELTA && self.bias <= 36 * MAX_DELTA + 36
    }
}

fn run_pass(s: &[char], n: u64, basic: u128, run: &mut Run) -> (ok: bool)
    requires
        old(run).within(),
        old(run).handled + s.len() <= 0xffff_ffff_ffff_ffff_ffff,
    ensures
        ok == (pass(s@, n as nat, basic as nat, old(run).progress()) is Some),
        ok ==> final(run).within() && pass(s@, n as nat, basic as nat, old(run).progress()) == Some(
            final(run).progress(),
        ) && final(run).handled <= old(run).handled + s.len(),
{
    let ghost start = run.progress();
    let ghost h0 = run.handled;
    let mut i: usize = 0;
    assert(s@.subrange(0, 0) =~= Seq::<char>::empty());
    while i < s.len()
        invariant
            i <= s.len(),
            run.within(),
            start == old(run).progress(),
            h0 + s.len() <= 0xffff_ffff_ffff_ffff_ffff,
            run.handled <= h0 + i,
            pass(s@.subrange(0, i as int), n as nat, basic as nat, start) == Some(run.progress()),
        decreases s.len() - i,
    {
        let ghost next = s@.subrange(0, i + 1);
        assert(next.drop_last() =~= s@.subrange(0, i as int));
        assert(next.last() == s@[i as int]);
        let cp: u64 = s[i] as u32 as u64;
        let ghost before = run.progress();
        assert(cp == s@[i as int] as u32 as nat);
        if cp < n {
            if run.delta >= MAX_DELTA {
                assert(one(s@[i as int], n as nat, basic as nat, before) is None);
                assert(pass(next, n as nat, basic as nat, start) is None);
                proof {
                    if pass(s@, n as nat, basic as nat, start) is Some {
                        lemma_pass_prefix(s@, n as nat, basic as nat, start, i + 1);
                    }
                }
                return false;
            }
            run.delta = run.delta + 1;
        } else if cp == n {
            push_variable(&mut run.out, run.delta, run.bias);
            run.bias = adapt(run.delta, run.handled + 1, run.handled == basic);
            run.delta = 0;
            run.handled = run.handled + 1;
        }
        assert(one(s@[i as int], n as nat, basic as nat, before) == Some(run.progress()));
        i += 1;
    }
    assert(s@.subrange(0, i as int) =~= s@);
    true
}

/// Encodes a label; none where it cannot be written within the limits.
pub fn punycode_encode(input: &str) -> (r: Option<String>)
    ensures
        match r {
            Some(t) => encoded(input@) == Some(t@),
            None => encoded(input@) is None,
        },
{
    let cs = text::chars(input);
    let r = encode_chars(cs.as_slice());
    match r {
        Some(v) => Some(text::string(v.as_slice())),
        None => None,
    }
}

/// Encodes the characters of a label.
pub fn encode_chars(s: &[char]) -> (r: Option<Vec<char>>)
    ensures
        match r {
            Some(t) => encoded(s@) == Some(t@),
            None => encoded(s@) is None,
        },
{
    let basic = basic_chars(s);
    let b: u128 = basic.len() as u128;
    let mut out: Vec<char> = Vec::new();
    text::push_all(&mut out, basic.as_slice());
    assert(out@ =~= basic@);
    if b > 0 {
        out.push('-');
    }
    let total: u128 = s.len() as u128;
    let mut run = Run { delta: 0, bias: INITIAL_BIAS, handled: b, out };
    let mut n: u64 = INITIAL_N;
    assert(encoded(s@) == passes(s@, n as nat, b as nat, run.progress()));
    while run.handled < total && n < 0x110000
        invariant
            total == s.len(),
            b == basic_of(s@).len(),
            n <= 0x110000,
            run.within(),
            run.handled <= 2 * total,
            encoded(s@) == passes(s@, n as nat, b as nat, run.progress()),
        decreases 0x110000 - n,
    {
        let m = match lowest(s, n) {
            Some(m) => m,
            None => {
                return None;
            },
        };
        proof {
            assert((m - n) * (run.handled + 1) <= 0x110000 * 0x4_0000_0000_0000_0000)
                by (nonlinear_arith)
                requires
                    0 <= m - n <= 0x110000,
                    0 <= run.handled + 1 <= 0x4_0000_0000_0000_0000,
            ;
        }
        let gap: u128 = (m - n) as u128 * (run.handled + 1);
        let d: u128 = run.delta as u128 + gap;
        if d > MAX_DELTA as u128 {
            return None;
        }
        let ghost p = run.progress();
        let ghost h0 = run.handled;
        run.delta = d as u64;
        let ghost q = run.progress();
        assert(q =~= (Progress { delta: d as nat, ..p }));
        if !run_pass(s, m, b, &mut run) {
            return None;
        }
        if run.delta >= MAX_DELTA {
            return None;
        }
        run.delta = run.delta + 1;
        n = m + 1;
    }
    Some(run.out)
}

// ---------------------------------------------------------------------
// Decoding
// ---------------------------------------------------------------------

/// The value of a digit's character.
pub open spec fn digit_value(c: char) -> Option<nat> {
    let n = c as u32 as nat;
    if 97 <= n < 123 {
        Some((n - 97) as nat)
    } else if 48 <= n < 58 {
        Some((n - 48 + 26) as nat)
    } else {
        None
    }
}

/// Reads a number with digits of varying base, and what follows it.
pub open spec fn read_variable(s: Seq<char>, k: nat, bias: nat) -> Option<(nat, Seq<char>)>
    decreases s.len(),
{
    if s.len() == 0 {
        None
    } else {
        let t = threshold(k, bias);
        match digit_value(s[0]) {
            None => None,
            Some(d) => if d < t {
                Some((d, s.drop_first()))
            } else {
                match read_variable(s.drop_first(), k + BASE as nat, bias) {
                    Some((q, tail)) => Some((d + ((BASE - t) as nat) * q, tail)),
                    None => None,
                }
            },
        }
    }
}

/// Where a decoding stands: what it has, the code point and the place of the
/// last insertion, and the bias.
#[verifier::ext_equal]
pub struct Decoding {
    pub out: Seq<char>,
    pub n: nat,
    pub i: nat,
    pub bias: nat,
}

/// One insertion: the distance tells the code point and the place.
pub open spec fn insertion(d: Decoding, distance: nat, basic: nat) -> Decoding {
    let h = d.out.len();
    let total = d.i + distance;
    let m = d.n + total / (h + 1);
    let at = total % (h + 1);
    Decoding {
        out: d.out.insert(at as int, m as char),
        n: m,
        i: at + 1,
        bias: adapted(distance, h + 1, h == basic),
    }
}

/// What the rest of an encoding makes of a decoding.
pub open spec fn decoded_from(rest: Seq<char>, d: Decoding, basic: nat) -> Option<Seq<char>>
    decreases rest.len(),
{
    if rest.len() == 0 {
        Some(d.out)
    } else {
        match read_variable(rest, BASE as nat, d.bias) {
            None => None,
            Some((distance, tail)) => if tail.len() < rest.len() {
                decoded_from(tail, insertion(d, distance, basic), basic)
            } else {
                None
            },
        }
    }
}

/// Length of the part up to and with the last hyphen; nothing without one.
pub open spec fn head_len(e: Seq<char>) -> nat
    decreases e.len(),
{
    if e.len() == 0 {
        0
    } else if e.last() == '-' {
        e.len()
    } else {
        head_len(e.drop_last())
    }
}

/// The label that an encoding stands for.
pub open spec fn decoded(e: Seq<char>) -> Option<Seq<char>> {
    let h = head_len(e);
    let b = if h > 0 {
        e.subrange(0, h - 1)
    } else {
        Seq::empty()
    };
    decoded_from(
        e.subrange(h as int, e.len() as int),
        Decoding { out: b, n: INITIAL_N as nat, i: 0, bias: INITIAL_BIAS as nat },
        b.len(),
    )
}

/// Whether all characters are digits.
pub open spec fn all_digits(s: Seq<char>) -> bool {
    forall|x: int| 0 <= x < s.len() ==> digit_value(#[trigger] s[x]) is Some
}

proof fn lemma_digit(d: nat)
    requires
        d < BASE,
    ensures
        digit_value(digit_char(d)) == Some(d),
{
}

proof fn lemma_read_variable(q: nat, k: nat, bias: nat, tail: Seq<char>)
    ensures
        read_variable(variable(q, k, bias) + tail, k, bias) == Some((q, tail)),
        all_digits(variable(q, k, bias)),
        variable(q, k, bias).len() > 0,
    decreases q,
{
    let t = threshold(k, bias);
    let v = variable(q, k, bias);
    let s = v + tail;
    assert(1 <= t <= 26);
    if q < t {
        lemma_digit(q);
        assert(s[0] == digit_char(q));
        assert(s.drop_first() =~= tail);
    } else {
        let base = (BASE - t) as nat;
        let r = ((q - t) % (base as int)) as nat;
        let next = ((q - t) / (base as int)) as nat;
        assert(next < q && r < base && q - t == base * next + r) by (nonlinear_arith)
            requires
                q >= t,
                1 <= t <= 26,
                base == 36 - t,
                r == (q - t) % (base as int),
                next == (q - t) / (base as int),
        ;
        lemma_digit(t + r);
        lemma_read_variable(next, k + BASE as nat, bias, tail);
        let w = variable(next, k + BASE as nat, bias);
        assert(v =~= seq![digit_char(t + r)] + w);
        assert(s[0] == digit_char(t + r));
        assert(s.drop_first() =~= w + tail);
    }
}

/// The code point of a character.
pub open spec fn point(c: char) -> nat {
    c as u32 as nat
}

proof fn lemma_point(c: char)
    ensures
        point(c) < 0x110000,
        point(c) as char == c,
{
}

/// The characters below a code point, and those at it among the first `j`.
spec fn below(s: Seq<char>, m: nat, j: int) -> Seq<char>
    decreases s.len(),
{
    if s.len() == 0 {
        s
    } else {
        let b = below(s.drop_last(), m, j);
        let cp = point(s.last());
        if cp < m || (cp == m && s.len() - 1 < j) {
            b.push(s.last())
        } else {
            b
        }
    }
}

/// Place of the next insertion.
spec fn place(s: Seq<char>, m: nat, j: int) -> nat {
    below(s.subrange(0, j), m, j).len()
}

proof fn lemma_below_prefix(s: Seq<char>, m: nat, j: int, k: int)
    requires
        s.len() <= j,
        s.len() <= k,
    ensures
        below(s, m, j) == below(s, m, k),
    decreases s.len(),
{
    if s.len() > 0 {
        lemma_below_prefix(s.drop_last(), m, j, k);
    }
}

proof fn lemma_below_len(s: Seq<char>, m: nat, j: int)
    requires
        0 <= j <= s.len(),
    ensures
        place(s, m, j) <= below(s, m, j).len() <= s.len(),
    decreases s.len(),
{
    if s.len() == j {
        assert(s.subrange(0, j) =~= s);
        if s.len() > 0 {
            lemma_below_len(s.drop_last(), m, j - 1);
            lemma_below_prefix(s.drop_last(), m, j, j - 1);
        }
    } else {
        lemma_below_len(s.drop_last(), m, j);
        assert(s.drop_last().subrange(0, j) =~= s.subrange(0, j));
    }
}

/// The next character at the code point goes to its place.
proof fn lemma_below_insert(s: Seq<char>, m: nat, j: int)
    requires
        0 <= j < s.len(),
        point(s[j]) == m,
    ensures
        below(s, m, j + 1) == below(s, m, j).insert(place(s, m, j) as int, s[j]),
        place(s, m, j + 1) == place(s, m, j) + 1,
    decreases s.len(),
{
    let t = s.drop_last();
    let c = s[j];
    assert(s.subrange(0, j + 1).drop_last() =~= s.subrange(0, j));
    assert(s.subrange(0, j + 1).last() == c);
    lemma_below_prefix(s.subrange(0, j), m, j, j + 1);
    if s.len() - 1 == j {
        assert(t =~= s.subrange(0, j));
        assert(below(s, m, j) == below(t, m, j));
        assert(below(s, m, j + 1) == below(t, m, j).push(c));
        assert(below(t, m, j).push(c) =~= below(t, m, j).insert(place(s, m, j) as int, c));
    } else {
        lemma_below_insert(t, m, j);
        lemma_below_len(t, m, j);
        assert(t.subrange(0, j) =~= s.subrange(0, j));
        let (x, p) = (below(t, m, j), place(s, m, j) as int);
        let last = s.last();
        assert(x.insert(p, c).push(last) =~= x.push(last).insert(p, c));
    }
}

/// A character above the code point changes nothing; one below it moves the
/// place.
proof fn lemma_below_skip(s: Seq<char>, m: nat, j: int)
    requires
        0 <= j < s.len(),
        point(s[j]) != m,
    ensures
        below(s, m, j + 1) == below(s, m, j),
        place(s, m, j + 1) == place(s, m, j) + if (point(s[j])) < m {
            1nat
        } else {
            0nat
        },
    decreases s.len(),
{
    let t = s.drop_last();
    assert(s.subrange(0, j + 1).drop_last() =~= s.subrange(0, j));
    assert(s.subrange(0, j + 1).last() == s[j]);
    lemma_below_prefix(s.subrange(0, j), m, j, j + 1);
    if s.len() - 1 == j {
        lemma_below_prefix(t, m, j, j + 1);
    } else {
        lemma_below_skip(t, m, j);
        assert(t.subrange(0, j) =~= s.subrange(0, j));
    }
}

/// All characters up to a code point are the ones below the next; and the same
/// for any later one that no character lies before.
proof fn lemma_below_next(s: Seq<char>, m: nat, n: nat)
    requires
        m < n,
        forall|x: int| 0 <= x < s.len() ==> !(m < point(#[trigger] s[x]) < n),
    ensures
        below(s, m, s.len() as int) == below(s, n, 0),
    decreases s.len(),
{
    if s.len() > 0 {
        let t = s.drop_last();
        assert forall|x: int| 0 <= x < t.len() implies !(m < point(#[trigger] t[x])
            < n) by {
            assert(t[x] == s[x]);
        }
        lemma_below_next(t, m, n);
        lemma_below_prefix(t, m, s.len() as int, t.len() as int);
        assert(s.last() == s[s.len() - 1]);
    }
}

proof fn lemma_below_all(s: Seq<char>, m: nat)
    requires
        forall|x: int| 0 <= x < s.len() ==> (point(#[trigger] s[x])) < m,
    ensures
        below(s, m, 0) == s,
    decreases s.len(),
{
    if s.len() > 0 {
        let t = s.drop_last();
        assert forall|x: int| 0 <= x < t.len() implies (point(#[trigger] t[x])) < m by {
            assert(t[x] == s[x]);
        }
        lemma_below_all(t, m);
        assert(s.last() == s[s.len() - 1]);
        assert(t.push(s.last()) =~= s);
    }
}

/// The whole of the characters is reached only as the label itself.
proof fn lemma_below_whole(s: Seq<char>, m: nat, j: int)
    requires
        0 <= j <= s.len(),
        below(s, m, j).len() == s.len(),
    ensures
        below(s, m, j) == s,
    decreases s.len(),
{
    if s.len() > 0 {
        let t = s.drop_last();
        if j == s.len() {
            lemma_below_prefix(t, m, j, j - 1);
            lemma_below_len(t, m, j - 1);
            lemma_below_whole_step(s, m, j);
            lemma_below_whole(t, m, j - 1);
        } else {
            lemma_below_len(t, m, j);
            lemma_below_whole(t, m, j);
        }
        assert(t.push(s.last()) =~= s);
    }
}

proof fn lemma_below_whole_step(s: Seq<char>, m: nat, j: int)
    requires
        s.len() > 0,
        j == s.len(),
        below(s, m, j).len() == s.len(),
    ensures
        below(s.drop_last(), m, j).len() == s.len() - 1,
        below(s, m, j) == below(s.drop_last(), m, j).push(s.last()),
{
    lemma_below_prefix(s.drop_last(), m, j, j - 1);
    lemma_below_len(s.drop_last(), m, j - 1);
}

proof fn lemma_basic(s: Seq<char>)
    ensures
        basic_of(s) == below(s, INITIAL_N as nat, 0),
    decreases s.len(),
{
    if s.len() > 0 {
        lemma_basic(s.drop_last());
    }
}

/// Whether a decoding has got as far as an encoding at code point `m` and place
/// `j`: it has the characters written so far, and the distance fits.
spec fn in_step(s: Seq<char>, m: nat, j: int, p: Progress, d: Decoding) -> bool {
    &&& d.out == below(s, m, j)
    &&& p.handled == d.out.len()
    &&& p.bias == d.bias
    &&& d.n <= m
    &&& d.i + p.delta == (m - d.n) * (p.handled + 1) + place(s, m, j)
}

/// Whether what was written since `from` takes one decoding to another.
spec fn leads(written: Seq<char>, from: Decoding, to: Decoding, basic: nat) -> bool {
    forall|tail: Seq<char>| #[trigger]
        decoded_from(written + tail, from, basic) == decoded_from(tail, to, basic)
}

proof fn lemma_emit(s: Seq<char>, m: nat, j: int, p: Progress, d: Decoding, basic: nat)
    requires
        0 <= j < s.len(),
        point(s[j]) == m,
        in_step(s, m, j, p, d),
    ensures
        in_step(s, m, j + 1, one(s[j], m, basic, p)->Some_0, insertion(d, p.delta, basic)),
        insertion(d, p.delta, basic).out == below(s, m, j + 1),
{
    let h = d.out.len();
    let at = place(s, m, j);
    lemma_below_len(s, m, j);
    lemma_below_insert(s, m, j);
    let total = d.i + p.delta;
    let gap = (m - d.n) as nat;
    assert(total / (h + 1) == gap && total % (h + 1) == at) by (nonlinear_arith)
        requires
            total == gap * (h + 1) + at,
            at < h + 1,
    ;
    let e = insertion(d, p.delta, basic);
    assert(e.n == m);
    lemma_point(s[j]);
    assert(e.out == below(s, m, j + 1));
    let q = one(s[j], m, basic, p)->Some_0;
    assert((m - e.n) * (q.handled + 1) == 0) by (nonlinear_arith)
        requires
            m == e.n,
    ;
}

proof fn lemma_leads_emit(
    w: Seq<char>,
    from: Decoding,
    d: Decoding,
    distance: nat,
    basic: nat,
)
    requires
        leads(w, from, d, basic),
    ensures
        leads(
            w + variable(distance, BASE as nat, d.bias),
            from,
            insertion(d, distance, basic),
            basic,
        ),
{
    let v = variable(distance, BASE as nat, d.bias);
    assert forall|tail: Seq<char>| #[trigger]
        decoded_from((w + v) + tail, from, basic) == decoded_from(
            tail,
            insertion(d, distance, basic),
            basic,
        ) by {
        assert((w + v) + tail =~= w + (v + tail));
        assert(decoded_from(w + (v + tail), from, basic) == decoded_from(v + tail, d, basic));
        lemma_read_variable(distance, BASE as nat, d.bias, tail);
        assert((v + tail).len() > tail.len());
    }
}

/// A pass keeps the decoding in step.
proof fn lemma_pass_in_step(
    s: Seq<char>,
    m: nat,
    j: int,
    basic: nat,
    p: Progress,
    head: Seq<char>,
    w: Seq<char>,
    from: Decoding,
    d: Decoding,
) -> (r: (Seq<char>, Decoding))
    requires
        0 <= j <= s.len(),
        in_step(s, m, 0, p, d),
        leads(w, from, d, basic),
        all_digits(w),
        p.out == head + w,
        pass(s.subrange(0, j), m, basic, p) is Some,
    ensures
        ({
            let q = pass(s.subrange(0, j), m, basic, p)->Some_0;
            &&& in_step(s, m, j, q, r.1)
            &&& leads(r.0, from, r.1, basic)
            &&& all_digits(r.0)
            &&& q.out == head + r.0
        }),
    decreases j,
{
    if j == 0 {
        assert(s.subrange(0, 0).len() == 0);
        (w, d)
    } else {
        let u = s.subrange(0, j);
        assert(u.drop_last() =~= s.subrange(0, j - 1));
        assert(u.last() == s[j - 1]);
        let (w1, d1) = lemma_pass_in_step(s, m, j - 1, basic, p, head, w, from, d);
        let p1 = pass(s.subrange(0, j - 1), m, basic, p)->Some_0;
        let c = s[j - 1];
        if point(c) == m {
            lemma_emit(s, m, j - 1, p1, d1, basic);
            lemma_leads_emit(w1, from, d1, p1.delta, basic);
            lemma_read_variable(p1.delta, BASE as nat, p1.bias, Seq::empty());
            let v = variable(p1.delta, BASE as nat, p1.bias);
            let w2 = w1 + v;
            assert((head + w1) + v =~= head + w2);
            (w2, insertion(d1, p1.delta, basic))
        } else {
            lemma_below_skip(s, m, j - 1);
            (w1, d1)
        }
    }
}

proof fn lemma_next_point(s: Seq<char>, n: nat)
    ensures
        match next_point(s, n) {
            Some(m) => {
                &&& n <= m
                &&& exists|x: int| 0 <= x < s.len() && point(#[trigger] s[x]) == m
                &&& forall|x: int|
                    0 <= x < s.len() ==> !(n <= point(#[trigger] s[x]) && (point(s[x])) < m)
            },
            None => forall|x: int| 0 <= x < s.len() ==> (point(#[trigger] s[x])) < n,
        },
    decreases s.len(),
{
    if s.len() > 0 {
        let t = s.drop_last();
        lemma_next_point(t, n);
        assert forall|x: int| 0 <= x < t.len() implies #[trigger] t[x] == s[x] by {}
        match next_point(s, n) {
            Some(m) => {
                if next_point(t, n) == Some(m) {
                    let x = choose|x: int| 0 <= x < t.len() && point(#[trigger] t[x]) == m;
                    assert(point(s[x]) == m);
                } else {
                    assert(point(s[s.len() - 1]) == m);
                }
                assert forall|x: int| 0 <= x < s.len() implies !(n <= point(#[trigger] s[x]) && (point(s[x])) < m) by {
                    if x < t.len() {
                        assert(t[x] == s[x]);
                    }
                }
            },
            None => {
                assert forall|x: int| 0 <= x < s.len() implies point(#[trigger] s[x]) < n by {
                    if x < t.len() {
                        assert(t[x] == s[x]);
                    }
                }
            },
        }
    }
}

/// The passes from a code point on are decoded to the label.
proof fn lemma_passes_decode(
    s: Seq<char>,
    n: nat,
    basic: nat,
    p: Progress,
    head: Seq<char>,
    w: Seq<char>,
    from: Decoding,
    d: Decoding,
) -> (r: Seq<char>)
    requires
        n <= 0x110000,
        in_step(s, n, 0, p, d),
        leads(w, from, d, basic),
        all_digits(w),
        p.out == head + w,
        passes(s, n, basic, p) is Some,
    ensures
        passes(s, n, basic, p) == Some(head + r),
        all_digits(r),
        decoded_from(r, from, basic) == Some(s),
    decreases 0x110000 - n,
{
    assert forall|x: int| 0 <= x < s.len() implies point(#[trigger] s[x])
        < 0x110000 by {
        lemma_point(s[x]);
    }
    lemma_below_len(s, n, 0);
    if p.handled >= s.len() || n >= 0x110000 {
        if n >= 0x110000 {
            lemma_below_all(s, n);
        } else {
            lemma_below_whole(s, n, 0);
        }
        assert(w + Seq::<char>::empty() =~= w);
        assert(decoded_from(w + Seq::empty(), from, basic) == decoded_from(Seq::empty(), d, basic));
        w
    } else {
        lemma_next_point(s, n);
        let m = next_point(s, n)->Some_0;
        let jump = (p.delta + (m - n) * (p.handled + 1)) as nat;
        let p1 = Progress { delta: jump, ..p };
        assert((m - n) * (p.handled + 1) >= 0) by (nonlinear_arith)
            requires
                m >= n,
                p.handled >= 0,
        ;
        // no character lies between
        if n < m {
            lemma_below_gap(s, n, m);
        }
        assert(s.subrange(0, 0).len() == 0);
        assert(place(s, m, 0) == 0 && place(s, n, 0) == 0);
        assert(in_step(s, m, 0, p1, d)) by {
            let h = p.handled + 1;
            assert((n - d.n) * h + (m - n) * h == (m - d.n) * h) by (nonlinear_arith);
        }
        assert(s.subrange(0, s.len() as int) =~= s);
        let (w1, d1) = lemma_pass_in_step(s, m, s.len() as int, basic, p1, head, w, from, d);
        let q = pass(s, m, basic, p1)->Some_0;
        let q1 = Progress { delta: q.delta + 1, ..q };
        lemma_below_next(s, m, m + 1);
        lemma_below_len(s, m, s.len() as int);
        assert(place(s, m, s.len() as int) == q.handled);
        assert(in_step(s, m + 1, 0, q1, d1)) by {
            let h = q.handled + 1;
            assert((m - d1.n) * h + h == (m + 1 - d1.n) * h) by (nonlinear_arith);
        }
        lemma_passes_decode(s, m + 1, basic, q1, head, w1, from, d1)
    }
}

proof fn lemma_below_gap(s: Seq<char>, n: nat, m: nat)
    requires
        n < m,
        forall|x: int|
            0 <= x < s.len() ==> !(n <= point(#[trigger] s[x]) && (point(s[x])) < m),
    ensures
        below(s, n, 0) == below(s, m, 0),
    decreases s.len(),
{
    if s.len() > 0 {
        let t = s.drop_last();
        assert forall|x: int| 0 <= x < t.len() implies !(n <= point(#[trigger] t[x]) && point(t[x]) < m) by {
            assert(t[x] == s[x]);
        }
        lemma_below_gap(t, n, m);
        assert(s.last() == s[s.len() - 1]);
    }
}

proof fn lemma_head_len(head: Seq<char>, r: Seq<char>)
    requires
        head.len() > 0 ==> head.last() == '-',
        all_digits(r),
    ensures
        head_len(head + r) == head.len(),
    decreases r.len(),
{
    let e = head + r;
    if r.len() == 0 {
        assert(e =~= head);
    } else {
        assert(e.last() == r[r.len() - 1]);
        assert(digit_value(r[r.len() - 1]) is Some);
        assert(e.drop_last() =~= head + r.drop_last());
        lemma_head_len(head, r.drop_last());
    }
}

/// The ASCII part of an encoding, with the hyphen behind it.
pub open spec fn head_of(s: Seq<char>) -> Seq<char> {
    let b = basic_of(s);
    if b.len() > 0 {
        b.push('-')
    } else {
        b
    }
}

/// An encoding is its ASCII part and digits, which are decoded to the label.
proof fn lemma_encoded(s: Seq<char>) -> (r: Seq<char>)
    requires
        encoded(s) is Some,
    ensures
        encoded(s) == Some(head_of(s) + r),
        all_digits(r),
        decoded_from(
            r,
            Decoding {
                out: basic_of(s),
                n: INITIAL_N as nat,
                i: 0,
                bias: INITIAL_BIAS as nat,
            },
            basic_of(s).len(),
        ) == Some(s),
{
    let b = basic_of(s);
    let head = head_of(s);
    let from = Decoding { out: b, n: INITIAL_N as nat, i: 0, bias: INITIAL_BIAS as nat };
    let p = Progress { delta: 0, bias: INITIAL_BIAS as nat, handled: b.len(), out: head };
    lemma_basic(s);
    assert(s.subrange(0, 0).len() == 0);
    assert(in_step(s, INITIAL_N as nat, 0, p, from)) by {
        assert((INITIAL_N - from.n) * (p.handled + 1) == 0) by (nonlinear_arith)
            requires
                INITIAL_N == from.n,
        ;
    }
    let none = Seq::<char>::empty();
    assert(leads(none, from, from, b.len())) by {
        assert forall|tail: Seq<char>| #[trigger]
            decoded_from(none + tail, from, b.len()) == decoded_from(tail, from, b.len()) by {
            assert(none + tail =~= tail);
        }
    }
    assert(head + none =~= head);
    lemma_passes_decode(s, INITIAL_N as nat, b.len(), p, head, none, from, from)
}

proof fn lemma_basic_chars(s: Seq<char>)
    ensures
        forall|x: int|
            0 <= x < basic_of(s).len() ==> is_basic(#[trigger] basic_of(s)[x]) && s.contains(
                basic_of(s)[x],
            ),
    decreases s.len(),
{
    if s.len() > 0 {
        let t = s.drop_last();
        lemma_basic_chars(t);
        assert forall|x: int| 0 <= x < basic_of(s).len() implies is_basic(
            #[trigger] basic_of(s)[x],
        ) && s.contains(basic_of(s)[x]) by {
            if x < basic_of(t).len() {
                let c = basic_of(t)[x];
                assert(basic_of(s)[x] == c);
                let i = choose|i: int| 0 <= i < t.len() && t[i] == c;
                assert(s[i] == c);
            } else {
                assert(s[s.len() - 1] == basic_of(s)[x]);
            }
        }
    }
}

/// The characters of an encoding: ASCII ones of the label, hyphens and digits.
pub proof fn lemma_encoded_chars(s: Seq<char>, x: int)
    requires
        encoded(s) is Some,
        0 <= x < encoded(s)->Some_0.len(),
    ensures
        ({
            let c = encoded(s)->Some_0[x];
            is_basic(c) && (c == '-' || digit_value(c) is Some || s.contains(c))
        }),
{
    let r = lemma_encoded(s);
    lemma_basic_chars(s);
    let b = basic_of(s);
    let head = head_of(s);
    let c = (head + r)[x];
    if x < b.len() {
        assert(c == b[x]);
    } else if x >= head.len() {
        assert(c == r[x - head.len()]);
    }
}

// ---------------------------------------------------------------------
// Laws
// ---------------------------------------------------------------------

/// Law: an encoding stands for its label: decoding gives it back.
pub proof fn law_decode_encode(s: Seq<char>)
    requires
        encoded(s) is Some,
    ensures
        decoded(encoded(s)->Some_0) == Some(s),
{
    let b = basic_of(s);
    let head = head_of(s);
    let r = lemma_encoded(s);
    let e = head + r;
    lemma_head_len(head, r);
    assert(e.subrange(head.len() as int, e.len() as int) =~= r);
    if b.len() > 0 {
        assert(e.subrange(0, head.len() - 1) =~= b);
    } else {
        assert(b =~= Seq::<char>::empty());
    }
}

/// Law: different labels have different encodings.
pub proof fn law_encodings_are_distinct(s: Seq<char>, t: Seq<char>)
    requires
        encoded(s) is Some,
        encoded(s) == encoded(t),
    ensures
        s == t,
{
    law_decode_encode(s);
    law_decode_encode(t);
}

/// Law: the digits are the letters from `a` to `z` for the first 26 values and
/// the numerals for the last ten, and each reads back as its value.
pub proof fn law_digits(d: nat, c: char)
    ensures
        d < 26 ==> digit_char(d) as int == 'a' as int + d,
        26 <= d < 36 ==> digit_char(d) as int == '0' as int + d - 26,
        d < 36 ==> digit_value(digit_char(d)) == Some(d),
        digit_value(c) is Some <==> 'a' <= c <= 'z' || '0' <= c <= '9',
{
}

/// Law: the threshold is the distance of the place from the bias, kept between
/// 1 and 26.
pub proof fn law_threshold(k: nat, bias: nat)
    ensures
        1 <= threshold(k, bias) <= 26,
        bias + 1 <= k <= bias + 26 ==> threshold(k, bias) == k - bias,
        k <= bias ==> threshold(k, bias) == 1,
        k >= bias + 26 ==> threshold(k, bias) == 26,
{
}

/// Law: a number below its threshold is one digit; else its lowest digit is
/// its threshold and the remainder by what is left of 36, and the quotient
/// follows at the next place.
pub proof fn law_variable(q: nat, k: nat, bias: nat)
    ensures
        ({
            let t = threshold(k, bias);
            &&& q < t ==> variable(q, k, bias) == seq![digit_char(q)]
            &&& q >= t ==> variable(q, k, bias) == seq![
                digit_char((t + (q - t) % (36 - t)) as nat),
            ] + variable(((q - t) / (36 - t)) as nat, k + 36, bias)
        }),
{
}

/// Law: the bias after a delta: it is cut by 700 for the first insertion and
/// halved for every other, grows by its share of the points, goes down by 35
/// for every place while it is over 455, and is then weighed by 38.
pub proof fn law_adapted(delta: nat, points: nat, k: nat)
    requires
        points > 0,
    ensures
        adapted(delta, points, true) == settle(delta / 700 + delta / 700 / points, 0),
        adapted(delta, points, false) == settle(delta / 2 + delta / 2 / points, 0),
        delta <= 455 ==> settle(delta, k) == k + 36 * delta / (delta + 38),
        delta > 455 ==> settle(delta, k) == settle(delta / 35, k + 36),
{
}

/// Law: a label of one character beyond ASCII is its distance from the first
/// such character, as a number at the first place under the first bias, which
/// is 72.
pub proof fn law_single_character(c: char)
    requires
        c as u32 >= 128,
    ensures
        encoded(seq![c]) == Some(variable((c as u32 - 128) as nat, 36, 72)),
{
    let s = seq![c];
    let none = Seq::<char>::empty();
    assert(s.drop_last() =~= none);
    reveal_with_fuel(basic_of, 2);
    reveal_with_fuel(next_point, 2);
    reveal_with_fuel(pass, 2);
    reveal_with_fuel(passes, 3);
    let cp = c as u32 as nat;
    assert(basic_of(none) == none);
    assert(basic_of(s) == none);
    assert(next_point(s, 128) == Some(cp));
    let v = variable((cp - 128) as nat, 36, 72);
    assert(none + v =~= v);
}

/// Law: a label's ASCII characters are kept in their order, and a label of
/// such characters alone is itself.
pub proof fn law_basic_of(a: Seq<char>, b: Seq<char>, c: char)
    ensures
        basic_of(a + b) == basic_of(a) + basic_of(b),
        (c as u32) < 128 ==> basic_of(seq![c]) == seq![c],
        c as u32 >= 128 ==> basic_of(seq![c]).len() == 0,
    decreases b.len(),
{
    assert(seq![c].drop_last() =~= Seq::<char>::empty());
    reveal_with_fuel(basic_of, 2);
    if (c as u32) < 128 {
        assert(basic_of(seq![c]) =~= seq![c]);
    }
    if b.len() == 0 {
        assert(a + b =~= a);
        assert(basic_of(a) + basic_of(b) =~= basic_of(a));
    } else {
        assert((a + b).drop_last() =~= a + b.drop_last());
        assert((a + b).last() == b.last());
        law_basic_of(a, b.drop_last(), c);
        assert(basic_of(a + b) =~= basic_of(a) + basic_of(b));
    }
}

/// Law: the next code point is one of the label's, at least the one asked for,
/// and none of the label's lies between.
pub proof fn law_next_point(s: Seq<char>, n: nat)
    ensures
        match next_point(s, n) {
            Some(m) => n <= m && (exists|i: int|
                0 <= i < s.len() && point(#[trigger] s[i]) == m) && forall|i: int|
                0 <= i < s.len() ==> !(n <= point(#[trigger] s[i]) && point(s[i]) < m),
            None => forall|i: int| 0 <= i < s.len() ==> point(#[trigger] s[i]) < n,
        },
    decreases s.len(),
{
    if s.len() > 0 {
        let t = s.drop_last();
        let k = s.len() - 1;
        law_next_point(t, n);
        assert(s[k] == s.last());
        assert(forall|i: int| 0 <= i < k ==> #[trigger] s[i] == t[i]);
        if let Some(m) = next_point(s, n) {
            if next_point(t, n) == Some(m) {
                let i = choose|i: int| 0 <= i < t.len() && point(#[trigger] t[i]) == m;
                assert(point(s[i]) == m);
            } else {
                assert(point(s[k]) == m);
            }
        }
    }
}

} // verus!
