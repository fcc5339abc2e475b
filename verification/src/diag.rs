//! The diagnostics bundle: what goes into it, and what is taken out. No
//! token, private key or certificate leaves in it; a fingerprint stands for
//! the certificate.

use vstd::prelude::*;

use crate::certs;
use crate::crypto;
use crate::hex::to_hex;
use crate::posture_collector::copy_opt;
use crate::posture_collector::CLIENT_VERSION;
use crate::state::ClientState;
use crate::text;

verus! {

/// Lines of the event log that go into a bundle.
pub const TAIL_LINES: usize = 200;

/// Longest run of base64 characters that is left in a bundle.
pub const MAX_RUN: usize = 80;

// ---------------------------------------------------------------------
// Redaction
// ---------------------------------------------------------------------

/// Whether a character belongs to base64 text.
pub open spec fn is_b64_char(c: char) -> bool {
    ||| 'a' <= c <= 'z'
    ||| 'A' <= c <= 'Z'
    ||| '0' <= c <= '9'
    ||| c == '+'
    ||| c == '/'
    ||| c == '='
}

fn b64_char(c: char) -> (r: bool)
    ensures
        r == is_b64_char(c),
{
    ('a' <= c && c <= 'z') || ('A' <= c && c <= 'Z') || ('0' <= c && c <= '9') || c == '+' || c
        == '/' || c == '='
}

/// Whether a text is base64 characters alone.
pub fn is_base64ish(s: &str) -> (r: bool)
    ensures
        r == (forall|i: int| 0 <= i < s@.len() ==> is_b64_char(#[trigger] s@[i])),
{
    let cs = text::chars(s);
    let mut i: usize = 0;
    while i < cs.len()
        invariant
            i <= cs@.len(),
            cs@ == s@,
            forall|j: int| 0 <= j < i ==> is_b64_char(#[trigger] s@[j]),
        decreases cs@.len() - i,
    {
        if !b64_char(cs[i]) {
            assert(!is_b64_char(s@[i as int]));
            return false;
        }
        i += 1;
    }
    true
}

/// Length of the run of base64 characters that a text begins with.
pub open spec fn run_len(s: Seq<char>) -> nat
    decreases s.len(),
{
    if s.len() == 0 || !is_b64_char(s[0]) {
        0
    } else {
        1 + run_len(s.drop_first())
    }
}

/// What stands for a redacted run.
pub open spec fn run_mark() -> Seq<char> {
    "[REDACTED-B64]"@
}

/// A text with every over-long run of base64 characters replaced.
pub open spec fn masked(s: Seq<char>) -> Seq<char>
    decreases s.len(),
{
    let k = run_len(s) as int;
    if s.len() == 0 {
        s
    } else if k == 0 {
        seq![s[0]] + masked(s.drop_first())
    } else if k > s.len() {
        s
    } else if k > MAX_RUN {
        run_mark() + masked(text::rest(s, k))
    } else {
        s.subrange(0, k) + masked(text::rest(s, k))
    }
}

proof fn lemma_run_len(s: Seq<char>)
    ensures
        run_len(s) <= s.len(),
        forall|i: int| 0 <= i < run_len(s) ==> is_b64_char(#[trigger] s[i]),
        run_len(s) < s.len() ==> !is_b64_char(s[run_len(s) as int]),
    decreases s.len(),
{
    if s.len() > 0 && is_b64_char(s[0]) {
        let t = s.drop_first();
        lemma_run_len(t);
        assert forall|i: int| 0 <= i < run_len(s) implies is_b64_char(#[trigger] s[i]) by {
            if i > 0 {
                assert(s[i] == t[i - 1]);
            }
        }
    }
}

fn run_at(s: &[char], from: usize) -> (r: usize)
    requires
        from <= s.len(),
    ensures
        r == run_len(text::rest(s@, from as int)),
        from + r <= s.len(),
{
    let mut i: usize = from;
    while i < s.len() && b64_char(s[i])
        invariant
            from <= i <= s.len(),
            run_len(text::rest(s@, from as int)) == (i - from) + run_len(
                text::rest(s@, i as int),
            ),
        decreases s.len() - i,
    {
        assert(text::rest(s@, i as int).drop_first() =~= text::rest(s@, i + 1));
        i += 1;
    }
    i - from
}

/// Replaces every over-long run of base64 characters.
pub fn mask_runs(s: &[char]) -> (r: Vec<char>)
    ensures
        r@ == masked(s@),
{
    let mut out: Vec<char> = Vec::new();
    let mut i: usize = 0;
    assert(text::rest(s@, 0) =~= s@);
    assert(out@ + masked(s@) =~= masked(s@));
    while i < s.len()
        invariant
            i <= s.len(),
            masked(s@) == out@ + masked(text::rest(s@, i as int)),
        decreases s.len() - i,
    {
        let ghost cur = text::rest(s@, i as int);
        let ghost before = out@;
        let k = run_at(s, i);
        if k == 0 {
            out.push(s[i]);
            assert(cur.drop_first() =~= text::rest(s@, i + 1));
            assert(before + (seq![cur[0]] + masked(cur.drop_first())) =~= out@ + masked(
                cur.drop_first(),
            ));
            i += 1;
        } else {
            assert(text::rest(cur, k as int) =~= text::rest(s@, i + k));
            if k > MAX_RUN {
                text::push_str(&mut out, "[REDACTED-B64]");
                assert(before + (run_mark() + masked(text::rest(cur, k as int))) =~= out@ + masked(
                    text::rest(cur, k as int),
                ));
            } else {
                let part = text::cut(s, i, i + k);
                text::push_all(&mut out, part.as_slice());
                assert(part@ =~= cur.subrange(0, k as int));
                assert(before + (cur.subrange(0, k as int) + masked(text::rest(cur, k as int)))
                    =~= out@ + masked(text::rest(cur, k as int)));
            }
            i = i + k;
        }
    }
    assert(text::rest(s@, i as int) =~= Seq::<char>::empty());
    assert(out@ + masked(Seq::<char>::empty()) =~= out@);
    out
}

/// The lines of a text with PEM blocks and over-long base64 runs replaced,
/// each with its line end; `in_pem` tells whether the first is inside a block.
pub open spec fn clean_lines(ls: Seq<Seq<char>>, in_pem: bool) -> Seq<char>
    decreases ls.len(),
{
    if ls.len() == 0 {
        Seq::empty()
    } else if text::contains(ls[0], "-----BEGIN"@) {
        "[REDACTED-PEM]\n"@ + clean_lines(ls.drop_first(), true)
    } else if text::contains(ls[0], "-----END"@) {
        clean_lines(ls.drop_first(), false)
    } else if in_pem {
        clean_lines(ls.drop_first(), true)
    } else {
        masked(ls[0]) + seq!['\n'] + clean_lines(ls.drop_first(), false)
    }
}

/// What of a text goes into a bundle.
pub open spec fn clean(s: Seq<char>) -> Seq<char> {
    clean_lines(text::lines(s), false)
}

/// Takes PEM blocks, and base64 runs that could be a token, out of a text.
pub fn sanitize(content: &str) -> (r: String)
    ensures
        r@ == clean(content@),
{
    let cs = text::chars(content);
    let ls = text::split_lines(cs.as_slice());
    let ghost all = text::views(ls@);
    let mut out: Vec<char> = Vec::new();
    let mut in_pem = false;
    let mut i: usize = 0;
    assert(all.subrange(0, all.len() as int) =~= all);
    assert(out@ + clean_lines(all, false) =~= clean_lines(all, false));
    while i < ls.len()
        invariant
            i <= ls@.len(),
            all == text::views(ls@),
            clean_lines(all, false) == out@ + clean_lines(
                all.subrange(i as int, all.len() as int),
                in_pem,
            ),
        decreases ls@.len() - i,
    {
        let ghost tail = all.subrange(i as int, all.len() as int);
        let ghost before = out@;
        assert(tail[0] == ls@[i as int]@);
        assert(tail.drop_first() =~= all.subrange(i + 1, all.len() as int));
        if text::has_str(ls[i].as_slice(), "-----BEGIN") {
            in_pem = true;
            text::push_str(&mut out, "[REDACTED-PEM]\n");
            assert(before + ("[REDACTED-PEM]\n"@ + clean_lines(tail.drop_first(), true)) =~= out@
                + clean_lines(tail.drop_first(), true));
        } else if text::has_str(ls[i].as_slice(), "-----END") {
            in_pem = false;
        } else if !in_pem {
            let m = mask_runs(ls[i].as_slice());
            text::push_all(&mut out, m.as_slice());
            out.push('\n');
            assert(before + (masked(tail[0]) + seq!['\n'] + clean_lines(tail.drop_first(), false))
                =~= out@ + clean_lines(tail.drop_first(), false));
        }
        i += 1;
    }
    assert(all.subrange(i as int, all.len() as int) =~= Seq::<Seq<char>>::empty());
    assert(out@ + Seq::<char>::empty() =~= out@);
    text::string(out.as_slice())
}

// ---------------------------------------------------------------------
// Laws of redaction
// ---------------------------------------------------------------------

/// Whether an over-long run of base64 characters stands at `i`.
pub open spec fn long_run_at(s: Seq<char>, i: int) -> bool {
    &&& 0 <= i
    &&& i + MAX_RUN < s.len()
    &&& forall|j: int| i <= j <= i + MAX_RUN ==> is_b64_char(#[trigger] s[j])
}

/// No over-long run, and nothing that could lengthen one from the left.
spec fn tame(s: Seq<char>) -> bool {
    forall|i: int| !#[trigger] long_run_at(s, i)
}

/// A tame text before one that is tame and does not begin with a base64
/// character stays tame.
proof fn lemma_tame_join(a: Seq<char>, b: Seq<char>)
    requires
        tame(a),
        tame(b),
        b.len() > 0 ==> !is_b64_char(b[0]),
    ensures
        tame(a + b),
{
    let t = a + b;
    assert forall|i: int| !#[trigger] long_run_at(t, i) by {
        if long_run_at(t, i) {
            let m = MAX_RUN as int;
            if i >= a.len() {
                assert forall|j: int| i - a.len() <= j <= i - a.len() + m implies is_b64_char(
                    #[trigger] b[j],
                ) by {
                    assert(t[j + a.len()] == b[j]);
                }
                assert(long_run_at(b, i - a.len()));
            } else if i + m >= a.len() {
                assert(t[a.len() as int] == b[0]);
                assert(is_b64_char(t[a.len() as int]));
            } else {
                assert forall|j: int| i <= j <= i + m implies is_b64_char(#[trigger] a[j]) by {
                    assert(t[j] == a[j]);
                }
                assert(long_run_at(a, i));
            }
        }
    }
}

/// A tame text that does not end in a base64 character, before a tame one.
proof fn lemma_tame_after_break(a: Seq<char>, b: Seq<char>)
    requires
        tame(a),
        tame(b),
        a.len() > 0,
        !is_b64_char(a.last()),
    ensures
        tame(a + b),
{
    let t = a + b;
    assert forall|i: int| !#[trigger] long_run_at(t, i) by {
        if long_run_at(t, i) {
            let m = MAX_RUN as int;
            if i >= a.len() {
                assert forall|j: int| i - a.len() <= j <= i - a.len() + m implies is_b64_char(
                    #[trigger] b[j],
                ) by {
                    assert(t[j + a.len()] == b[j]);
                }
                assert(long_run_at(b, i - a.len()));
            } else if i + m >= a.len() {
                assert(t[a.len() - 1] == a.last());
                assert(is_b64_char(t[a.len() - 1]));
            } else {
                assert forall|j: int| i <= j <= i + m implies is_b64_char(#[trigger] a[j]) by {
                    assert(t[j] == a[j]);
                }
                assert(long_run_at(a, i));
            }
        }
    }
}

proof fn lemma_short_tame(s: Seq<char>)
    requires
        s.len() <= MAX_RUN,
    ensures
        tame(s),
{
}

proof fn lemma_masked_tame(s: Seq<char>)
    ensures
        tame(masked(s)),
        s.len() > 0 && !is_b64_char(s[0]) ==> masked(s).len() > 0 && !is_b64_char(masked(s)[0]),
        s.len() == 0 ==> masked(s).len() == 0,
    decreases s.len(),
{
    lemma_run_len(s);
    let k = run_len(s) as int;
    if s.len() == 0 {
    } else if k == 0 {
        lemma_masked_tame(s.drop_first());
        lemma_short_tame(seq![s[0]]);
        assert(!is_b64_char(seq![s[0]].last()));
        lemma_tame_after_break(seq![s[0]], masked(s.drop_first()));
    } else {
        let r = text::rest(s, k);
        lemma_masked_tame(r);
        if k > MAX_RUN {
            reveal_strlit("[REDACTED-B64]");
            lemma_short_tame(run_mark());
            lemma_tame_after_break(run_mark(), masked(r));
        } else {
            lemma_short_tame(s.subrange(0, k));
            if r.len() > 0 {
                assert(r[0] == s[k]);
            }
            lemma_tame_join(s.subrange(0, k), masked(r));
        }
    }
}

proof fn lemma_clean_tame(ls: Seq<Seq<char>>, in_pem: bool)
    ensures
        tame(clean_lines(ls, in_pem)),
    decreases ls.len(),
{
    if ls.len() > 0 {
        lemma_clean_tame(ls.drop_first(), true);
        lemma_clean_tame(ls.drop_first(), false);
        if text::contains(ls[0], "-----BEGIN"@) {
            reveal_strlit("[REDACTED-PEM]\n");
            lemma_short_tame("[REDACTED-PEM]\n"@);
            lemma_tame_after_break("[REDACTED-PEM]\n"@, clean_lines(ls.drop_first(), true));
        } else if !text::contains(ls[0], "-----END"@) && !in_pem {
            lemma_masked_tame(ls[0]);
            lemma_short_tame(seq!['\n']);
            lemma_tame_join(masked(ls[0]), seq!['\n']);
            lemma_tame_after_break(
                masked(ls[0]) + seq!['\n'],
                clean_lines(ls.drop_first(), false),
            );
        }
    }
}

/// Nothing token-shaped is left: no run of more than the allowed number of
/// base64 characters stands anywhere in what goes into a bundle.
pub proof fn law_no_long_run(s: Seq<char>, i: int)
    ensures
        !long_run_at(clean(s), i),
{
    lemma_clean_tame(text::lines(s), false);
}

/// What begins a redacted text, and holds no bracket, began the text.
proof fn lemma_masked_prefix(s: Seq<char>, q: Seq<char>)
    requires
        text::has_prefix(masked(s), q),
        forall|i: int| 0 <= i < q.len() ==> #[trigger] q[i] != '[',
    ensures
        text::has_prefix(s, q),
    decreases s.len(),
{
    lemma_run_len(s);
    let k = run_len(s) as int;
    let m = masked(s);
    assert forall|i: int| 0 <= i < q.len() implies m[i] == q[i] by {
        assert(m.subrange(0, q.len() as int)[i] == q[i]);
    }
    if q.len() == 0 {
        assert(s.subrange(0, 0) =~= q);
    } else if s.len() == 0 {
    } else if k > MAX_RUN {
        reveal_strlit("[REDACTED-B64]");
        assert(m[0] == '[');
        assert(q[0] == m[0]);
    } else {
        let n = if k == 0 {
            1
        } else {
            k
        };
        let head = s.subrange(0, n);
        let r = text::rest(s, n);
        if k == 0 {
            assert(s.drop_first() =~= r);
            assert(seq![s[0]] =~= head);
        }
        assert(m == head + masked(r));
        if q.len() <= n {
            assert(s.subrange(0, q.len() as int) =~= q) by {
                assert forall|i: int| 0 <= i < q.len() implies s[i] == q[i] by {
                    assert(m[i] == head[i]);
                }
            }
        } else {
            let q2 = text::rest(q, n);
            assert(masked(r).subrange(0, q2.len() as int) =~= q2) by {
                assert forall|i: int| 0 <= i < q2.len() implies masked(r)[i] == q2[i] by {
                    assert(m[n + i] == q[n + i]);
                }
            }
            assert forall|i: int| 0 <= i < q2.len() implies #[trigger] q2[i] != '[' by {
                assert(q2[i] == q[n + i]);
            }
            lemma_masked_prefix(r, q2);
            assert(s.subrange(0, q.len() as int) =~= q) by {
                assert forall|i: int| 0 <= i < q.len() implies s[i] == q[i] by {
                    if i < n {
                        assert(m[i] == head[i]);
                    } else {
                        assert(r.subrange(0, q2.len() as int)[i - n] == q2[i - n]);
                        assert(r[i - n] == s[i]);
                    }
                }
            }
        }
    }
}

/// A PEM heading in a redacted line was in the line.
proof fn lemma_masked_begin(s: Seq<char>, i: int)
    requires
        text::stands_at(masked(s), "-----BEGIN"@, i),
    ensures
        text::contains(s, "-----BEGIN"@),
    decreases s.len(),
{
    let p = "-----BEGIN"@;
    reveal_strlit("-----BEGIN");
    lemma_run_len(s);
    text::lemma_contains(s, p);
    let k = run_len(s) as int;
    let m = masked(s);
    assert forall|j: int| 0 <= j < p.len() implies m[i + j] == p[j] by {
        assert(m.subrange(i, i + p.len())[j] == p[j]);
    }
    if i == 0 {
        assert(text::has_prefix(m, p));
        lemma_masked_prefix(s, p);
        assert(text::stands_at(s, p, 0));
    } else if s.len() > 0 {
        let marked = k > MAX_RUN;
        let n = if k == 0 {
            1
        } else {
            k
        };
        let r = text::rest(s, n);
        if k == 0 {
            assert(s.drop_first() =~= r);
            assert(seq![s[0]] =~= s.subrange(0, 1));
        }
        let head = if marked {
            run_mark()
        } else {
            s.subrange(0, n)
        };
        assert(m == head + masked(r));
        text::lemma_contains(r, p);
        if i >= head.len() {
            let i2 = i - head.len();
            assert(masked(r).subrange(i2, i2 + p.len()) =~= p) by {
                assert forall|j: int| 0 <= j < p.len() implies masked(r)[i2 + j] == p[j] by {
                    assert(m[i + j] == masked(r)[i2 + j]);
                }
            }
            lemma_masked_begin(r, i2);
            let j = choose|j: int| text::stands_at(r, p, j);
            assert(s.subrange(n + j, n + j + p.len()) =~= r.subrange(j, j + p.len()));
            assert(text::stands_at(s, p, n + j));
        } else if marked {
            reveal_strlit("[REDACTED-B64]");
            assert(p[0] == '-' && p[1] == '-');
            assert(m[i + 0] == p[0]);
            assert(m[i] == run_mark()[i]);
            assert(i == 9);
            assert(m[i + 1] == p[1]);
            assert(m[i + 1] == run_mark()[10]);
        } else {
            // The part in the head, and the part behind it.
            let q = text::rest(p, n - i);
            if n - i < p.len() {
                assert(masked(r).subrange(0, q.len() as int) =~= q) by {
                    assert forall|j: int| 0 <= j < q.len() implies masked(r)[j] == q[j] by {
                        assert(m[n + j] == p[n - i + j]);
                    }
                }
                assert forall|j: int| 0 <= j < q.len() implies #[trigger] q[j] != '[' by {
                    assert(q[j] == p[n - i + j]);
                }
                lemma_masked_prefix(r, q);
                assert forall|j: int| 0 <= j < q.len() implies r[j] == q[j] by {
                    assert(r.subrange(0, q.len() as int)[j] == q[j]);
                }
            }
            assert(s.subrange(i, i + p.len()) =~= p) by {
                assert forall|j: int| 0 <= j < p.len() implies s[i + j] == p[j] by {
                    if i + j < n {
                        assert(m[i + j] == head[i + j]);
                    } else {
                        assert(r[i + j - n] == s[i + j]);
                        assert(q[i + j - n] == p[j]);
                    }
                }
            }
            assert(text::stands_at(s, p, i));
        }
    }
}

/// Whether the heading of a PEM block stands within one line of `s` at `i`.
spec fn begin_at(s: Seq<char>, i: int) -> bool {
    text::stands_at(s, "-----BEGIN"@, i)
}

/// A text that ends in a line end has no heading across it.
proof fn lemma_no_begin_join(a: Seq<char>, b: Seq<char>, i: int)
    requires
        a.len() > 0,
        a.last() == '\n',
        begin_at(a + b, i),
    ensures
        begin_at(a, i) || begin_at(b, i - a.len()),
{
    reveal_strlit("-----BEGIN");
    let p = "-----BEGIN"@;
    let t = a + b;
    let n = p.len() as int;
    assert forall|j: int| 0 <= j < n implies t[i + j] == p[j] by {
        assert(t.subrange(i, i + n)[j] == p[j]);
    }
    if i + n <= a.len() {
        assert(a.subrange(i, i + n) =~= p) by {
            assert forall|j: int| 0 <= j < n implies a[i + j] == p[j] by {
                assert(t[i + j] == a[i + j]);
            }
        }
    } else if i >= a.len() {
        let i2 = i - a.len();
        assert(b.subrange(i2, i2 + n) =~= p) by {
            assert forall|j: int| 0 <= j < n implies b[i2 + j] == p[j] by {
                assert(t[i + j] == b[i2 + j]);
            }
        }
    } else {
        let j = a.len() - 1 - i;
        assert(t[i + j] == a.last());
        assert(p[j] == '\n');
    }
}

proof fn lemma_no_begin(ls: Seq<Seq<char>>, in_pem: bool, i: int)
    ensures
        !begin_at(clean_lines(ls, in_pem), i),
    decreases ls.len(),
{
    reveal_strlit("-----BEGIN");
    if ls.len() > 0 && begin_at(clean_lines(ls, in_pem), i) {
        let t = ls.drop_first();
        if text::contains(ls[0], "-----BEGIN"@) {
            reveal_strlit("[REDACTED-PEM]\n");
            let a = "[REDACTED-PEM]\n"@;
            let b = clean_lines(t, true);
            lemma_no_begin_join(a, b, i);
            lemma_no_begin(t, true, i - a.len());
            assert(begin_at(a, i));
            let p = "-----BEGIN"@;
            assert(a.subrange(i, i + p.len())[0] == '-');
            assert(a.subrange(i, i + p.len())[1] == '-');
            assert(a[i] == '-' && a[i + 1] == '-');
        } else if text::contains(ls[0], "-----END"@) {
            lemma_no_begin(t, false, i);
        } else if in_pem {
            lemma_no_begin(t, true, i);
        } else {
            let m = masked(ls[0]);
            let a = m + seq!['\n'];
            let b = clean_lines(t, false);
            assert(clean_lines(ls, in_pem) =~= a + b);
            lemma_no_begin_join(a, b, i);
            lemma_no_begin(t, false, i - a.len());
            assert(begin_at(a, i));
            let p = "-----BEGIN"@;
            if i + p.len() == a.len() {
                assert(a.subrange(i, i + p.len())[p.len() - 1] == 'N');
                assert(a.last() == '\n');
            } else {
                assert(m.subrange(i, i + p.len()) =~= a.subrange(i, i + p.len()));
                assert(text::stands_at(m, p, i));
                lemma_masked_begin(ls[0], i);
            }
        }
    }
}

/// No PEM block is left: no heading of one stands anywhere in what goes into
/// a bundle.
pub proof fn law_no_pem_heading(s: Seq<char>)
    ensures
        !text::contains(clean(s), "-----BEGIN"@),
{
    let c = clean(s);
    text::lemma_contains(c, "-----BEGIN"@);
    assert forall|i: int| !#[trigger] text::stands_at(c, "-----BEGIN"@, i) by {
        lemma_no_begin(text::lines(s), false, i);
        assert(!begin_at(c, i));
    }
}

// ---------------------------------------------------------------------
// Contents
// ---------------------------------------------------------------------

/// The last `n` of lines.
pub open spec fn last_of(ls: Seq<Seq<char>>, n: int) -> Seq<Seq<char>> {
    if ls.len() <= n {
        ls
    } else {
        ls.subrange(ls.len() - n, ls.len() as int)
    }
}

/// The last `n` lines of a file, or a note that there is none.
pub fn tail_lines(content: &Option<String>, n: usize) -> (r: String)
    ensures
        r@ == match *content {
            Some(c) => text::joined(last_of(text::lines(c@), n as int), "\n"@),
            None => "<no client.log>"@,
        },
{
    match content {
        Some(c) => {
            let cs = text::chars(c.as_str());
            let ls = text::split_lines(cs.as_slice());
            let ghost all = text::views(ls@);
            let m: usize = ls.len();
            let start: usize = if m <= n {
                0
            } else {
                m - n
            };
            let mut out: Vec<Vec<char>> = Vec::new();
            let mut i: usize = start;
            while i < m
                invariant
                    start <= i <= m,
                    m == ls@.len(),
                    all == text::views(ls@),
                    text::views(out@) == all.subrange(start as int, i as int),
                decreases m - i,
            {
                let l = text::cut(ls[i].as_slice(), 0, ls[i].len());
                let ghost lv = l@;
                assert(lv =~= all[i as int]);
                let ghost before = out@;
                out.push(l);
                assert(text::views(out@) =~= text::views(before).push(lv));
                i += 1;
                assert(text::views(out@) =~= all.subrange(start as int, i as int));
            }
            assert(all.subrange(start as int, m as int) =~= last_of(all, n as int));
            let j = text::join(&out, "\n");
            text::string(j.as_slice())
        },
        None => "<no client.log>".to_owned(),
    }
}

/// The subject public key bits of a certificate; none where the bytes are no
/// certificate.
pub open spec fn public_key_bits(der: Seq<u8>) -> Option<Seq<u8>> {
    match certs::x509_read(der) {
        Ok((_, k)) => Some(k),
        Err(_) => None,
    }
}

/// The fingerprint of public key bits, where they could be read.
pub open spec fn fingerprint_of(bits: Option<Seq<u8>>) -> Seq<char> {
    match bits {
        Some(b) => crate::hex::hex(crypto::sha256_of(b)),
        None => "<fingerprint-error>"@,
    }
}

/// The fingerprint of public key bits, where they could be read.
pub fn key_fingerprint(bits: &Option<Vec<u8>>) -> (r: String)
    ensures
        r@ == fingerprint_of(
            match *bits {
                Some(b) => Some(b@),
                None => None,
            },
        ),
{
    match bits {
        Some(b) => {
            let d = crypto::sha256(b.as_slice());
            let h = to_hex(d.as_slice());
            text::string(h.as_slice())
        },
        None => "<fingerprint-error>".to_owned(),
    }
}

/// The fingerprint of a certificate: the digest of its public key.
pub fn spki_fp(cert_der: &[u8]) -> (r: String)
    ensures
        r@ == fingerprint_of(public_key_bits(cert_der@)),
{
    let bits = match certs::x509_fields(cert_der) {
        Ok((_, k)) => Some(k),
        Err(_) => None,
    };
    key_fingerprint(&bits)
}

/// What stands for the device certificate in a bundle.
pub open spec fn cert_mark(cert_pem: Option<Seq<char>>) -> Seq<char> {
    match cert_pem {
        None => "<none>"@,
        Some(p) => match certs::first_cert(certs::certs_in(p)) {
            None => "<unreadable>"@,
            Some(d) => fingerprint_of(public_key_bits(d)),
        },
    }
}

/// What a bundle says of the client.
#[derive(Debug)]
pub struct Manifest {
    pub version: String,
    pub generated_unix: i64,
    pub controller_url: String,
    pub device_id: Option<String>,
    /// A fingerprint, never the certificate.
    pub device_cert_fingerprint: String,
    pub key_origin: Option<String>,
    /// Whether there is a token, never the token.
    pub has_token: bool,
}

/// Builds the manifest.
pub fn manifest(st: &ClientState, now_unix: i64) -> (r: Manifest)
    ensures
        r.version@ == CLIENT_VERSION@,
        r.generated_unix == now_unix,
        r.controller_url@ == st@.controller_url,
        crate::atrest::opt(r.device_id) == st@.device_id,
        r.device_cert_fingerprint@ == cert_mark(st@.cert_pem),
        crate::atrest::opt(r.key_origin) == st@.key_origin,
        r.has_token == (st.access_token is Some),
{
    let fp = match &st.cert_pem {
        None => "<none>".to_owned(),
        Some(p) => match certs::leaf_cert(p.as_str()) {
            None => "<unreadable>".to_owned(),
            Some(d) => spki_fp(d.as_slice()),
        },
    };
    Manifest {
        version: CLIENT_VERSION.to_owned(),
        generated_unix: now_unix,
        controller_url: st.controller_url.clone(),
        device_id: copy_opt(&st.device_id),
        device_cert_fingerprint: fp,
        key_origin: copy_opt(&st.key_origin),
        has_token: st.access_token.is_some(),
    }
}

/// Name of a bundle's directory.
pub fn bundle_name(now_unix: i64) -> (r: String)
    ensures
        r@ == "aztna-diag-"@ + text::decimal_int(now_unix as int),
{
    let mut out = text::chars("aztna-diag-");
    let d = text::dec_int(now_unix);
    text::push_all(&mut out, d.as_slice());
    text::string(out.as_slice())
}

/// How a bundle is counted: partial where the controller's CA could not be
/// reached.
pub fn bundle_class(ca_reached: bool) -> (r: &'static str)
    ensures
        r@ == if ca_reached {
            "ok"@
        } else {
            "partial"@
        },
{
    if ca_reached {
        "ok"
    } else {
        "partial"
    }
}

// ---------------------------------------------------------------------
// What stays
// ---------------------------------------------------------------------

/// Law: a text without an over-long run stays as it is.
pub proof fn law_short_runs_stay(s: Seq<char>)
    requires
        forall|i: int| !#[trigger] long_run_at(s, i),
    ensures
        masked(s) == s,
    decreases s.len(),
{
    lemma_run_chars(s);
    let k = run_len(s) as int;
    if s.len() > 0 {
        if k > MAX_RUN {
            assert(long_run_at(s, 0));
        }
        let n = if k == 0 {
            1
        } else {
            k
        };
        let t = text::rest(s, n);
        assert forall|i: int| !#[trigger] long_run_at(t, i) by {
            if long_run_at(t, i) {
                assert forall|j: int| i + n <= j <= i + n + MAX_RUN implies is_b64_char(
                    #[trigger] s[j],
                ) by {
                    assert(s[j] == t[j - n]);
                }
                assert(long_run_at(s, i + n));
            }
        }
        law_short_runs_stay(t);
        if k == 0 {
            assert(s.drop_first() =~= t);
            assert(seq![s[0]] + t =~= s);
        } else {
            assert(s.subrange(0, k) + t =~= s);
        }
    }
}

proof fn lemma_run_chars(s: Seq<char>)
    ensures
        run_len(s) <= s.len(),
        forall|i: int| 0 <= i < run_len(s) ==> is_b64_char(#[trigger] s[i]),
    decreases s.len(),
{
    if s.len() > 0 && is_b64_char(s[0]) {
        let t = s.drop_first();
        lemma_run_chars(t);
        assert forall|i: int| 0 <= i < run_len(s) implies is_b64_char(#[trigger] s[i]) by {
            if i > 0 {
                assert(s[i] == t[i - 1]);
            }
        }
    }
}

/// Law: an over-long run is replaced as a whole, whatever follows it, and what
/// follows is treated on its own.
pub proof fn law_long_run_is_replaced(run: Seq<char>, tail: Seq<char>)
    requires
        run.len() > MAX_RUN,
        forall|i: int| 0 <= i < run.len() ==> is_b64_char(#[trigger] run[i]),
        tail.len() > 0 ==> !is_b64_char(tail[0]),
    ensures
        masked(run + tail) == "[REDACTED-B64]"@ + masked(tail),
{
    lemma_run_is(run, tail);
    assert(text::rest(run + tail, run.len() as int) =~= tail);
}

proof fn lemma_run_is(run: Seq<char>, tail: Seq<char>)
    requires
        forall|i: int| 0 <= i < run.len() ==> is_b64_char(#[trigger] run[i]),
        tail.len() > 0 ==> !is_b64_char(tail[0]),
    ensures
        run_len(run + tail) == run.len(),
    decreases run.len(),
{
    let s = run + tail;
    if run.len() > 0 {
        assert(s[0] == run[0]);
        assert(s.drop_first() =~= run.drop_first() + tail);
        lemma_run_is(run.drop_first(), tail);
    } else {
        assert(s =~= tail);
    }
}

/// Law: base64 text is made of the characters that are looked for, padding
/// included.
pub proof fn law_base64_is_recognised(v: int)
    requires
        0 <= v < 64,
    ensures
        is_b64_char(crypto::b64_symbol(v, false)),
        is_b64_char('='),
        !is_b64_char(' ') && !is_b64_char('-') && !is_b64_char('\n') && !is_b64_char('.'),
{
}

/// Law: a line outside of PEM blocks stays, but for its over-long runs, and
/// the lines behind it are treated on their own.
pub proof fn law_lines_outside_stay(l: Seq<char>, more: Seq<Seq<char>>)
    requires
        !text::contains(l, "-----BEGIN"@),
        !text::contains(l, "-----END"@),
    ensures
        clean_lines(seq![l] + more, false) == masked(l) + seq!['\n'] + clean_lines(more, false),
        clean_lines(seq![l] + more, true) == clean_lines(more, true),
{
    let s = seq![l] + more;
    assert(s[0] == l);
    assert(s.drop_first() =~= more);
}

/// Law: of a PEM block one mark is left, and nothing of what stands between its
/// heading and its end.
pub proof fn law_block_leaves_a_mark(
    head: Seq<char>,
    body: Seq<Seq<char>>,
    end: Seq<char>,
    more: Seq<Seq<char>>,
    in_pem: bool,
)
    requires
        text::contains(head, "-----BEGIN"@),
        text::contains(end, "-----END"@),
        !text::contains(end, "-----BEGIN"@),
        forall|i: int|
            0 <= i < body.len() ==> !text::contains(#[trigger] body[i], "-----BEGIN"@)
                && !text::contains(body[i], "-----END"@),
    ensures
        clean_lines(seq![head] + (body + (seq![end] + more)), in_pem) == "[REDACTED-PEM]\n"@
            + clean_lines(more, false),
{
    let tail = body + (seq![end] + more);
    let s = seq![head] + tail;
    assert(s[0] == head);
    assert(s.drop_first() =~= tail);
    lemma_body_goes(body, end, more);
}

proof fn lemma_body_goes(body: Seq<Seq<char>>, end: Seq<char>, more: Seq<Seq<char>>)
    requires
        text::contains(end, "-----END"@),
        !text::contains(end, "-----BEGIN"@),
        forall|i: int|
            0 <= i < body.len() ==> !text::contains(#[trigger] body[i], "-----BEGIN"@)
                && !text::contains(body[i], "-----END"@),
    ensures
        clean_lines(body + (seq![end] + more), true) == clean_lines(more, false),
    decreases body.len(),
{
    let s = body + (seq![end] + more);
    if body.len() == 0 {
        assert(s[0] == end);
        assert(s.drop_first() =~= more);
    } else {
        let t = body.drop_first();
        assert(s[0] == body[0]);
        assert(s.drop_first() =~= t + (seq![end] + more));
        assert forall|i: int| 0 <= i < t.len() implies !text::contains(
            #[trigger] t[i],
            "-----BEGIN"@,
        ) && !text::contains(t[i], "-----END"@) by {
            assert(t[i] == body[i + 1]);
        }
        lemma_body_goes(t, end, more);
    }
}

/// Law: the last lines are the end of all lines: as many as asked for, or all
/// where there are fewer.
pub proof fn law_last_lines(ls: Seq<Seq<char>>, n: int)
    requires
        0 <= n,
    ensures
        last_of(ls, n).len() == if ls.len() < n {
            ls.len() as int
        } else {
            n
        },
        forall|i: int|
            0 <= i < last_of(ls, n).len() ==> #[trigger] last_of(ls, n)[i] == ls[ls.len()
                - last_of(ls, n).len() + i],
{
}

/// Law: what stands for the certificate: the digest of its public key in
/// hexadecimal, and a mark of its own for a certificate that is not there,
/// cannot be read, or has no key that can.
pub proof fn law_cert_mark(p: Seq<char>)
    ensures
        cert_mark(None) == "<none>"@,
        certs::first_cert(certs::certs_in(p)) is None ==> cert_mark(Some(p)) == "<unreadable>"@,
        certs::first_cert(certs::certs_in(p)) matches Some(d) ==> {
            &&& certs::x509_read(d) matches Ok((_, k)) ==> cert_mark(Some(p)) == crate::hex::hex(
                crypto::sha256_of(k),
            )
            &&& certs::x509_read(d) is Err ==> cert_mark(Some(p)) == "<fingerprint-error>"@
        },
{
}

} // verus!
