//! The clean-up of tagged rules when their client is gone or hangs, and the
//! evidence it leaves. The watchdog never installs anything.

use vstd::prelude::*;

use super::reconciler::STALENESS_SECS;
use crate::text;

verus! {

/// Seconds between looks at the heartbeat.
pub const HANG_POLL_SECS: u64 = 5;

/// Name of the scheduled task.
pub const TASK_NAME: &'static str = "aztna-splitdns-watchdog";

// ---------------------------------------------------------------------
// Evidence
// ---------------------------------------------------------------------

/// A line of evidence: one JSON object.
pub open spec fn evidence_of(ts: nat, source: Seq<char>, rules: nat) -> Seq<char> {
    "{\"ts\":"@ + text::decimal(ts)
        + ",\"kind\":\"splitdns_watchdog_recovered\",\"source\":\""@ + source + "\",\"rules\":"@
        + text::decimal(rules) + "}"@
}

/// Writes a line of evidence, with its line end.
pub fn evidence_line(ts_micros: u64, source: &str, rules: usize) -> (r: String)
    ensures
        r@ == evidence_of(ts_micros as nat, source@, rules as nat) + "\n"@,
{
    let mut out = text::chars("{\"ts\":");
    let t = text::dec(ts_micros);
    text::push_all(&mut out, t.as_slice());
    text::push_str(&mut out, ",\"kind\":\"splitdns_watchdog_recovered\",\"source\":\"");
    text::push_str(&mut out, source);
    text::push_str(&mut out, "\",\"rules\":");
    let n = text::dec(rules as u64);
    text::push_all(&mut out, n.as_slice());
    text::push_str(&mut out, "}");
    text::push_str(&mut out, "\n");
    text::string(out.as_slice())
}

/// Whether a line tells of a recovery.
pub open spec fn is_recovery(line: Seq<char>) -> bool {
    text::contains(line, "\"kind\":\"splitdns_watchdog_recovered\""@)
}

/// Number of lines that tell of a recovery.
pub open spec fn recoveries_in(ls: Seq<Seq<char>>) -> nat
    decreases ls.len(),
{
    if ls.len() == 0 {
        0
    } else {
        recoveries_in(ls.drop_last()) + if is_recovery(ls.last()) {
            1nat
        } else {
            0nat
        }
    }
}

/// Counts the recoveries that the evidence tells of; none without evidence.
pub fn count_recoveries(evidence: &Option<String>) -> (n: usize)
    ensures
        n == match *evidence {
            Some(t) => recoveries_in(text::lines(t@)),
            None => 0,
        },
{
    let t = match evidence {
        Some(t) => t,
        None => {
            return 0;
        },
    };
    let cs = text::chars(t.as_str());
    let ls = text::split_lines(cs.as_slice());
    let ghost all = text::views(ls@);
    let mut n: usize = 0;
    let mut i: usize = 0;
    assert(all.subrange(0, 0) =~= Seq::<Seq<char>>::empty());
    while i < ls.len()
        invariant
            i <= ls@.len(),
            all == text::views(ls@),
            n <= i,
            n == recoveries_in(all.subrange(0, i as int)),
        decreases ls@.len() - i,
    {
        let ghost next = all.subrange(0, i + 1);
        assert(next.drop_last() =~= all.subrange(0, i as int));
        assert(next.last() == ls@[i as int]@);
        if text::has_str(ls[i].as_slice(), "\"kind\":\"splitdns_watchdog_recovered\"") {
            n = n + 1;
        }
        i += 1;
    }
    assert(all.subrange(0, i as int) =~= all);
    n
}

/// What a clean-up reports: nothing where it removed nothing.
pub fn recovery_note(source: &str, removed: usize) -> (r: Option<String>)
    ensures
        match r {
            Some(t) => removed > 0 && t@ == "source="@ + source@ + " rules="@ + text::decimal(
                removed as nat,
            ),
            None => removed == 0,
        },
{
    if removed == 0 {
        return None;
    }
    let mut out = text::chars("source=");
    text::push_str(&mut out, source);
    text::push_str(&mut out, " rules=");
    let n = text::dec(removed as u64);
    text::push_all(&mut out, n.as_slice());
    Some(text::string(out.as_slice()))
}

proof fn lemma_recoveries_add(a: Seq<Seq<char>>, b: Seq<Seq<char>>)
    ensures
        recoveries_in(a + b) == recoveries_in(a) + recoveries_in(b),
    decreases b.len(),
{
    if b.len() == 0 {
        assert(a + b =~= a);
    } else {
        lemma_recoveries_add(a, b.drop_last());
        assert((a + b).drop_last() =~= a + b.drop_last());
        assert((a + b).last() == b.last());
    }
}

proof fn lemma_recovery_line(ts: nat, source: Seq<char>, rules: nat)
    ensures
        is_recovery(evidence_of(ts, source, rules)),
{
    let p = "\"kind\":\"splitdns_watchdog_recovered\""@;
    let m = ",\"kind\":\"splitdns_watchdog_recovered\",\"source\":\""@;
    reveal_strlit("\"kind\":\"splitdns_watchdog_recovered\"");
    reveal_strlit(",\"kind\":\"splitdns_watchdog_recovered\",\"source\":\"");
    let e = evidence_of(ts, source, rules);
    let h = "{\"ts\":"@ + text::decimal(ts);
    let k = h.len() as int + 1;
    let pn = p.len() as int;
    assert(m.subrange(1, 1 + pn) =~= p);
    assert(e.subrange(k, k + pn) =~= p) by {
        assert forall|i: int| 0 <= i < p.len() implies e[k + i] == p[i] by {
            assert(e[k + i] == m[1 + i]);
            assert(m.subrange(1, 1 + pn)[i] == p[i]);
        }
    }
    text::lemma_contains(e, p);
    assert(text::stands_at(e, p, k));
}

/// Evidence survives: a line appended to whole lines is counted, and what was
/// counted before still is.
pub proof fn law_evidence_counts(t: Seq<char>, ts: nat, source: Seq<char>, rules: nat)
    requires
        t.len() == 0 || t.last() == '\n',
        !source.contains('\n'),
    ensures
        recoveries_in(text::lines(t + (evidence_of(ts, source, rules) + "\n"@))) == recoveries_in(
            text::lines(t),
        ) + 1,
{
    reveal_strlit("\n");
    reveal_strlit("{\"ts\":");
    reveal_strlit(",\"kind\":\"splitdns_watchdog_recovered\",\"source\":\"");
    reveal_strlit("\",\"rules\":");
    reveal_strlit("}");
    let e = evidence_of(ts, source, rules);
    let b = e + "\n"@;
    text::lemma_lines_append(t, b);
    text::lemma_decimal_value(ts);
    text::lemma_decimal_value(rules);
    let n = e.len() as int;
    let (a0, a1) = ("{\"ts\":"@, text::decimal(ts));
    let a2 = ",\"kind\":\"splitdns_watchdog_recovered\",\"source\":\""@;
    let (a4, a5) = ("\",\"rules\":"@, text::decimal(rules));
    let (n1, n2, n3, n4, n5) = (
        a0.len() as int,
        (a0 + a1).len() as int,
        (a0 + a1 + a2).len() as int,
        (a0 + a1 + a2 + source).len() as int,
        (a0 + a1 + a2 + source + a4).len() as int,
    );
    assert forall|i: int| 0 <= i < n implies #[trigger] e[i] != '\n' by {
        if i < n1 {
            assert(e[i] == a0[i]);
        } else if i < n2 {
            assert(e[i] == a1[i - n1]);
            assert(text::is_digit(a1[i - n1]));
        } else if i < n3 {
            assert(e[i] == a2[i - n2]);
        } else if i < n4 {
            assert(e[i] == source[i - n3]);
        } else if i < n5 {
            assert(e[i] == a4[i - n4]);
        } else if i < n - 1 {
            assert(e[i] == a5[i - n5]);
            assert(text::is_digit(a5[i - n5]));
        } else {
            assert(e[i] == "}"@[0]);
        }
    }
    assert forall|i: int| 0 <= i < n implies #[trigger] b[i] != '\n' by {
        assert(b[i] == e[i]);
    }
    text::lemma_until_unique(b, '\n', n);
    assert(b.subrange(0, n) =~= e);
    assert(e.last() == '}');
    assert(text::rest(b, n + 1) =~= Seq::<char>::empty());
    assert(text::lines(text::rest(b, n + 1)) =~= Seq::<Seq<char>>::empty());
    assert(text::lines(b) =~= seq![e]);
    lemma_recovery_line(ts, source, rules);
    lemma_recoveries_add(text::lines(t), seq![e]);
    assert(seq![e].drop_last() =~= Seq::<Seq<char>>::empty());
    reveal_with_fuel(recoveries_in, 2);
}

// ---------------------------------------------------------------------
// Staleness
// ---------------------------------------------------------------------

/// Whether a heartbeat is stale. A missing or unreadable one is; one in the
/// future is not, and none is without a clock.
pub open spec fn is_stale(heartbeat: Option<Seq<char>>, now_micros: Option<nat>) -> bool {
    match heartbeat {
        None => true,
        Some(s) => match (text::number(text::trimmed(s), u128::MAX as nat), now_micros) {
            (None, _) => true,
            (Some(_), None) => false,
            (Some(m), Some(now)) => now > m && now - m > STALENESS_SECS * 1_000_000,
        },
    }
}

/// Whether a heartbeat is stale.
pub fn heartbeat_stale(heartbeat: &Option<String>, now_micros: Option<u64>) -> (r: bool)
    ensures
        r == is_stale(
            crate::atrest::opt(*heartbeat),
            match now_micros {
                Some(n) => Some(n as nat),
                None => None,
            },
        ),
{
    let s = match heartbeat {
        Some(s) => s,
        None => {
            return true;
        },
    };
    let cs = text::chars(s.as_str());
    let t = text::trim(cs.as_slice());
    match (text::parse_big(t.as_slice()), now_micros) {
        (None, _) => true,
        (Some(_), None) => false,
        (Some(m), Some(now)) => now as u128 > m && now as u128 - m > 25_000_000,
    }
}

// ---------------------------------------------------------------------
// Session objects and decisions
// ---------------------------------------------------------------------

/// Name of the object that a live client holds.
pub fn alive_name(generation: &str) -> (r: String)
    ensures
        r@ == "Global\\aztna-dns-"@ + generation@ + "-alive"@,
{
    let mut out = text::chars("Global\\aztna-dns-");
    text::push_str(&mut out, generation);
    text::push_str(&mut out, "-alive");
    text::string(out.as_slice())
}

/// Name of the object that ends the companion.
pub fn standdown_name(generation: &str) -> (r: String)
    ensures
        r@ == "Global\\aztna-dns-"@ + generation@ + "-standdown"@,
{
    let mut out = text::chars("Global\\aztna-dns-");
    text::push_str(&mut out, generation);
    text::push_str(&mut out, "-standdown");
    text::string(out.as_slice())
}

/// What woke the companion.
#[derive(Clone, Copy, Debug, PartialEq, Eq, Structural)]
pub enum Wake {
    /// The client has cleaned up and is leaving.
    StandDown,
    /// The client died.
    Abandoned,
    /// Time to look at the heartbeat.
    Timeout,
}

/// What the companion does: clean up for a reason or not, and stay or leave.
#[derive(Clone, Copy, Debug, PartialEq, Eq, Structural)]
pub struct CompanionStep {
    pub clean: Option<CleanReason>,
    pub leave: bool,
}

/// Why tagged rules are removed.
#[derive(Clone, Copy, Debug, PartialEq, Eq, Structural)]
pub enum CleanReason {
    CompanionDeath,
    CompanionHang,
    TaskHang,
    TaskMutexDead,
    TaskNoSession,
    LaunchdTick,
    ManualClean,
}

impl CleanReason {
    /// How the reason is named in evidence.
    pub fn source(&self) -> (r: &'static str)
        ensures
            r@ == match *self {
                CleanReason::CompanionDeath => "companion-death"@,
                CleanReason::CompanionHang => "companion-hang"@,
                CleanReason::TaskHang => "task-hang"@,
                CleanReason::TaskMutexDead => "task-mutex-dead"@,
                CleanReason::TaskNoSession => "task-no-session"@,
                CleanReason::LaunchdTick => "launchd-tick"@,
                CleanReason::ManualClean => "manual-clean"@,
            },
    {
        match self {
            CleanReason::CompanionDeath => "companion-death",
            CleanReason::CompanionHang => "companion-hang",
            CleanReason::TaskHang => "task-hang",
            CleanReason::TaskMutexDead => "task-mutex-dead",
            CleanReason::TaskNoSession => "task-no-session",
            CleanReason::LaunchdTick => "launchd-tick",
            CleanReason::ManualClean => "manual-clean",
        }
    }
}

/// What the companion does when woken: a client that stood down needs no
/// clean-up; a dead one does, at once; a stale heartbeat does, and the
/// companion stays.
pub fn companion_step(wake: Wake, stale: bool) -> (r: CompanionStep)
    ensures
        r == match wake {
            Wake::StandDown => CompanionStep { clean: None, leave: true },
            Wake::Abandoned => CompanionStep {
                clean: Some(CleanReason::CompanionDeath),
                leave: true,
            },
            Wake::Timeout => CompanionStep {
                clean: if stale {
                    Some(CleanReason::CompanionHang)
                } else {
                    None
                },
                leave: false,
            },
        },
{
    match wake {
        Wake::StandDown => CompanionStep { clean: None, leave: true },
        Wake::Abandoned => CompanionStep {
            clean: Some(CleanReason::CompanionDeath),
            leave: true,
        },
        Wake::Timeout => CompanionStep {
            clean: if stale {
                Some(CleanReason::CompanionHang)
            } else {
                None
            },
            leave: false,
        },
    }
}

/// How the journalled generation's client is found.
#[derive(Clone, Copy, Debug, PartialEq, Eq, Structural)]
pub enum Session {
    /// Its object is held: the process lives.
    Held,
    /// Its object is there, and not held.
    Dead,
    /// There is no such object.
    Absent,
}

/// What the scheduled check does; nothing where no journal was ever written.
pub fn check_main(journalled: bool, session: Session, stale: bool) -> (r: Option<CleanReason>)
    ensures
        r == if !journalled {
            None
        } else {
            match session {
                Session::Held => if stale {
                    Some(CleanReason::TaskHang)
                } else {
                    None
                },
                Session::Dead => Some(CleanReason::TaskMutexDead),
                Session::Absent => Some(CleanReason::TaskNoSession),
            }
        },
{
    if !journalled {
        return None;
    }
    match session {
        Session::Held => if stale {
            Some(CleanReason::TaskHang)
        } else {
            None
        },
        Session::Dead => Some(CleanReason::TaskMutexDead),
        Session::Absent => Some(CleanReason::TaskNoSession),
    }
}

// ---------------------------------------------------------------------
// The scheduled task
// ---------------------------------------------------------------------

/// The sixteen-bit units of a character.
pub open spec fn utf16_units(c: char) -> Seq<u16> {
    let v = c as u32;
    if v < 0x10000 {
        seq![v as u16]
    } else {
        seq![
            (0xD800 + (v - 0x10000) / 0x400) as u16,
            (0xDC00 + (v - 0x10000) % 0x400) as u16,
        ]
    }
}

/// A unit's bytes, the low one first.
pub open spec fn unit_bytes(u: u16) -> Seq<u8> {
    seq![(u % 256) as u8, (u / 256) as u8]
}

/// The bytes of a character's units.
pub open spec fn char_bytes(c: char) -> Seq<u8> {
    let u = utf16_units(c);
    if u.len() == 1 {
        unit_bytes(u[0])
    } else {
        unit_bytes(u[0]) + unit_bytes(u[1])
    }
}

/// A text in UTF-16, low bytes first.
pub open spec fn utf16le(s: Seq<char>) -> Seq<u8>
    decreases s.len(),
{
    if s.len() == 0 {
        Seq::empty()
    } else {
        utf16le(s.drop_last()) + char_bytes(s.last())
    }
}

fn push_unit(out: &mut Vec<u8>, u: u16)
    ensures
        final(out)@ == old(out)@ + unit_bytes(u),
{
    out.push((u % 256) as u8);
    out.push((u / 256) as u8);
    assert(out@ =~= old(out)@ + unit_bytes(u));
}

fn push_utf16(out: &mut Vec<u8>, s: &[char])
    ensures
        final(out)@ == old(out)@ + utf16le(s@),
{
    let ghost start = out@;
    let mut i: usize = 0;
    assert(s@.subrange(0, 0) =~= Seq::<char>::empty());
    assert(start + utf16le(Seq::<char>::empty()) =~= start);
    while i < s.len()
        invariant
            i <= s.len(),
            out@ == start + utf16le(s@.subrange(0, i as int)),
        decreases s.len() - i,
    {
        let ghost next = s@.subrange(0, i + 1);
        assert(next.drop_last() =~= s@.subrange(0, i as int));
        assert(next.last() == s@[i as int]);
        let ghost before = out@;
        proof {
            vstd::utf8::char_is_scalar(s@[i as int]);
        }
        let v: u32 = s[i] as u32;
        if v < 0x10000 {
            push_unit(out, v as u16);
        } else {
            push_unit(out, (0xD800 + (v - 0x10000) / 0x400) as u16);
            push_unit(out, (0xDC00 + (v - 0x10000) % 0x400) as u16);
            assert(out@ =~= before + char_bytes(s@[i as int]));
        }
        assert(out@ =~= start + utf16le(next));
        i += 1;
    }
    assert(s@.subrange(0, i as int) =~= s@);
}

/// The description of the scheduled task around its command.
pub const TASK_HEAD: &'static str =
    "<?xml version=\"1.0\" encoding=\"UTF-16\"?>\r\n<Task version=\"1.2\" xmlns=\"http://schemas.microsoft.com/windows/2004/02/mit/task\">\r\n<Triggers><BootTrigger><Enabled>true</Enabled></BootTrigger><TimeTrigger><StartBoundary>2026-01-01T00:00:00</StartBoundary><Repetition><Interval>PT1M</Interval></Repetition></TimeTrigger></Triggers>\r\n<Settings><StartWhenAvailable>true</StartWhenAvailable><DisallowStartIfOnBatteries>false</DisallowStartIfOnBatteries><StopIfGoingOnBatteries>false</StopIfGoingOnBatteries><ExecutionTimeLimit>PT1M</ExecutionTimeLimit><MultipleInstancesPolicy>IgnoreNew</MultipleInstancesPolicy></Settings>\r\n<Actions Context=\"Author\"><Exec><Command>";

pub const TASK_TAIL: &'static str =
    "</Command><Arguments>--splitdns-watchdog-check</Arguments></Exec></Actions>\r\n</Task>\r\n";

/// The bytes of the scheduled task's description: a byte-order mark, and the
/// text in UTF-16.
pub fn task_xml(exe: &str) -> (r: Vec<u8>)
    ensures
        r@ == seq![0xFFu8, 0xFEu8] + utf16le(TASK_HEAD@ + exe@ + TASK_TAIL@),
{
    let mut t = text::chars(TASK_HEAD);
    text::push_str(&mut t, exe);
    text::push_str(&mut t, TASK_TAIL);
    let mut out: Vec<u8> = Vec::new();
    out.push(0xFF);
    out.push(0xFE);
    assert(out@ =~= seq![0xFFu8, 0xFEu8]);
    push_utf16(&mut out, t.as_slice());
    out
}

/// Law: a line of evidence reads back: cut at its double quotes it holds the
/// time, the kind by which recoveries are counted, the source and the number of
/// rules.
#[verifier::spinoff_prover]
#[verifier::rlimit(60)]
pub proof fn law_evidence_reads_back(ts: nat, source: Seq<char>, rules: nat)
    requires
        !source.contains('"'),
    ensures
        ({
            let p = text::split(evidence_of(ts, source, rules), '"');
            &&& p.len() == 13
            &&& p[1] == "ts"@ && p[2] == ":"@ + text::decimal(ts) + ","@
            &&& p[3] == "kind"@ && p[5] == "splitdns_watchdog_recovered"@
            &&& p[7] == "source"@ && p[9] == source
            &&& p[11] == "rules"@ && p[12] == ":"@ + text::decimal(rules) + "}"@
        }),
{
    reveal_strlit("{\"ts\":");
    reveal_strlit(",\"kind\":\"splitdns_watchdog_recovered\",\"source\":\"");
    reveal_strlit("\",\"rules\":");
    reveal_strlit("}");
    reveal_strlit(":");
    reveal_strlit(",");
    reveal_strlit("ts");
    reveal_strlit("kind");
    reveal_strlit("splitdns_watchdog_recovered");
    reveal_strlit("source");
    reveal_strlit("rules");
    let q = seq!['"'];
    let o = seq!['{'];
    let (t, n) = (text::decimal(ts), text::decimal(rules));
    let p2 = ":"@ + t + ","@;
    let p12 = ":"@ + n + "}"@;
    lemma_no_quote_in(ts, ":"@, ","@);
    lemma_no_quote_in(rules, ":"@, "}"@);
    let kind = "splitdns_watchdog_recovered"@;
    let a = seq![o, "ts"@, p2, "kind"@, ":"@, kind];
    let b = seq![","@, "source"@, ":"@, source, ","@, "rules"@];
    super::channel::lemma_six(o, "ts"@, p2, "kind"@, ":"@, kind);
    super::channel::lemma_six(","@, "source"@, ":"@, source, ","@, "rules"@);
    text::law_joined(a, b, q);
    let ab = a + b;
    let p = ab.push(p12);
    assert(p.drop_last() =~= ab);
    assert("{\"ts\":"@ =~= o + q + "ts"@ + q + ":"@);
    assert(",\"kind\":\"splitdns_watchdog_recovered\",\"source\":\""@ =~= ","@ + q + "kind"@ + q
        + ":"@ + q + kind + q + ","@ + q + "source"@ + q + ":"@ + q);
    assert("\",\"rules\":"@ =~= q + ","@ + q + "rules"@ + q + ":"@);
    let left = o + q + "ts"@ + q + p2 + q + "kind"@ + q + ":"@ + q + kind;
    let right = ","@ + q + "source"@ + q + ":"@ + q + source + q + ","@ + q + "rules"@;
    assert(evidence_of(ts, source, rules) =~= left + q + right + q + p12);
    assert forall|i: int| 0 <= i < p.len() implies !(#[trigger] p[i]).contains('"') by {
        if i < 6 {
            assert(p[i] == a[i]);
        } else if i < 12 {
            assert(p[i] == b[i - 6]);
        }
    }
    text::lemma_joined_split(p, '"');
}

proof fn lemma_no_quote_in(n: nat, a: Seq<char>, b: Seq<char>)
    requires
        a.len() == 1 && a[0] != '"',
        b.len() == 1 && b[0] != '"',
    ensures
        !(a + text::decimal(n) + b).contains('"'),
{
    let d = text::decimal(n);
    let s = a + d + b;
    text::lemma_decimal_value(n);
    if s.contains('"') {
        let i = choose|i: int| 0 <= i < s.len() && s[i] == '"';
        if 0 < i < s.len() - 1 {
            assert(s[i] == d[i - 1]);
            assert(text::is_digit(d[i - 1]));
        }
    }
}

/// Law: recoveries are counted line by line: two logs in a row tell of as many
/// as both together, and a line of evidence of one.
pub proof fn law_recoveries_are_counted(
    a: Seq<Seq<char>>,
    b: Seq<Seq<char>>,
    l: Seq<char>,
)
    ensures
        recoveries_in(a + b) == recoveries_in(a) + recoveries_in(b),
        is_recovery(l) ==> recoveries_in(seq![l]) == 1,
        !is_recovery(l) ==> recoveries_in(seq![l]) == 0,
        l.len() == 0 ==> !is_recovery(l),
    decreases b.len(),
{
    reveal_strlit("\"kind\":\"splitdns_watchdog_recovered\"");
    assert(seq![l].drop_last() =~= Seq::<Seq<char>>::empty());
    reveal_with_fuel(recoveries_in, 2);
    if b.len() == 0 {
        assert(a + b =~= a);
    } else {
        assert((a + b).drop_last() =~= a + b.drop_last());
        law_recoveries_are_counted(a, b.drop_last(), l);
    }
}

/// Law: when a heartbeat is stale: where there is none or none that can be
/// read, and where it is more than 25 seconds old; not where it lies ahead, nor
/// without a clock.
pub proof fn law_stale_heartbeat(written: nat, now: nat, s: Seq<char>)
    requires
        written <= u128::MAX,
        text::number(text::trimmed(s), u128::MAX as nat) is None,
    ensures
        is_stale(None, Some(now)),
        is_stale(None, None),
        is_stale(Some(s), Some(now)),
        is_stale(Some(text::decimal(written)), Some(now)) <==> now > written + 25_000_000,
        !is_stale(Some(text::decimal(written)), None),
{
    let d = text::decimal(written);
    text::lemma_decimal_value(written);
    text::lemma_decimal_number(written, u128::MAX as nat);
    assert(text::is_digit(d[0]) && text::is_digit(d[d.len() - 1]));
    assert(text::trimmed(d) == d);
}

/// Law: a character's units give it back: one unit below 65536, else a high
/// and a low one from their own ranges; and a unit's low byte comes first.
pub proof fn law_utf16_units(c: char, u: u16)
    ensures
        ({
            let us = utf16_units(c);
            let v = c as u32;
            &&& v < 0x10000 ==> us.len() == 1 && us[0] == v
            &&& v >= 0x10000 ==> us.len() == 2 && 0xD800 <= us[0] < 0xDC00 && 0xDC00 <= us[1]
                < 0xE000 && 0x10000 + (us[0] - 0xD800) * 0x400 + (us[1] - 0xDC00) == v
        }),
        unit_bytes(u).len() == 2,
        unit_bytes(u)[0] + 256 * unit_bytes(u)[1] == u,
{
}

/// Law: a text's bytes are those of its characters, one after the other.
pub proof fn law_utf16le(a: Seq<char>, b: Seq<char>, c: char)
    ensures
        utf16le(a + b) == utf16le(a) + utf16le(b),
        utf16le(Seq::empty()).len() == 0,
        (c as u32) < 0x10000 ==> utf16le(seq![c]) == seq![
            (c as u32 % 256) as u8,
            (c as u32 / 256) as u8,
        ],
    decreases b.len(),
{
    assert(seq![c].drop_last() =~= Seq::<char>::empty());
    reveal_with_fuel(utf16le, 2);
    if (c as u32) < 0x10000 {
        assert(utf16le(seq![c]) =~= seq![(c as u32 % 256) as u8, (c as u32 / 256) as u8]);
    }
    if b.len() == 0 {
        assert(a + b =~= a);
        assert(utf16le(a) + utf16le(b) =~= utf16le(a));
    } else {
        assert((a + b).drop_last() =~= a + b.drop_last());
        assert((a + b).last() == b.last());
        law_utf16le(a, b.drop_last(), c);
        assert(utf16le(a + b) =~= utf16le(a) + utf16le(b));
    }
}

} // verus!
