//! The macOS clean-up job: one periodic check, gated by the heartbeat.

use vstd::prelude::*;

use super::channel::InstalledRule;
use super::reconciler::tagged;
use super::watchdog::CleanReason;
use crate::text;

verus! {

/// Label of the job.
pub const JOB_LABEL: &'static str = "com.aztna.splitdns.watchdog";

/// What the periodic check does: nothing with a fresh heartbeat or without
/// tagged rules, and nothing where the heartbeat was renewed while it looked.
pub fn check_main(
    stale_before: bool,
    ground: &Option<Vec<InstalledRule>>,
    stale_after: bool,
) -> (r: Option<CleanReason>)
    ensures
        r == if stale_before && stale_after && (*ground matches Some(g) && exists|i: int|
            0 <= i < g@.len() && (#[trigger] g@[i]).generation is Some) {
            Some(CleanReason::LaunchdTick)
        } else {
            None
        },
{
    if !stale_before || !stale_after {
        return None;
    }
    match ground {
        None => None,
        Some(g) => {
            let n: usize = g.len();
            let own = tagged(g);
            if own.len() == 0 {
                proof {
                    if exists|i: int| 0 <= i < g@.len() && (#[trigger] g@[i]).generation is Some {
                        let i = choose|i: int|
                            0 <= i < g@.len() && (#[trigger] g@[i]).generation is Some;
                        assert(i < n);
                        assert(own@.contains(i as usize));
                    }
                }
                None
            } else {
                proof {
                    let x = own@[0];
                    assert(own@.contains(x));
                    assert(g@[x as int].generation is Some);
                }
                Some(CleanReason::LaunchdTick)
            }
        },
    }
}

/// A text inside XML.
pub open spec fn escaped(s: Seq<char>) -> Seq<char> {
    text::replaced(
        text::replaced(text::replaced(s, '&', "&amp;"@), '<', "&lt;"@),
        '>',
        "&gt;"@,
    )
}

fn escape(s: &str) -> (r: Vec<char>)
    ensures
        r@ == escaped(s@),
{
    let cs = text::chars(s);
    let a = text::replace_char(cs.as_slice(), '&', "&amp;");
    let b = text::replace_char(a.as_slice(), '<', "&lt;");
    text::replace_char(b.as_slice(), '>', "&gt;")
}

/// The parts of the job's description.
pub const PLIST_HEAD: &'static str =
    "<?xml version=\"1.0\" encoding=\"UTF-8\"?>\n<!DOCTYPE plist PUBLIC \"-//Apple//DTD PLIST 1.0//EN\" \"http://www.apple.com/DTDs/PropertyList-1.0.dtd\">\n<plist version=\"1.0\">\n<dict>\n\t<key>Label</key><string>";

pub const PLIST_ARGS: &'static str =
    "</string>\n\t<key>ProgramArguments</key>\n\t<array>\n\t\t<string>";

pub const PLIST_ENV: &'static str =
    "</string>\n\t\t<string>--splitdns-watchdog-check</string>\n\t</array>\n\t<key>EnvironmentVariables</key>\n\t<dict>\n\t\t<key>AZTNA_SVC_HOME</key><string>";

pub const PLIST_TAIL: &'static str =
    "</string>\n\t</dict>\n\t<key>RunAtLoad</key><true/>\n\t<key>StartInterval</key><integer>30</integer>\n</dict>\n</plist>\n";

/// The job's description. It carries the service's home, which the job must
/// share.
pub fn plist_xml(exe: &str, svc_home: &str) -> (r: String)
    ensures
        r@ == PLIST_HEAD@ + JOB_LABEL@ + PLIST_ARGS@ + escaped(exe@) + PLIST_ENV@ + escaped(
            svc_home@,
        ) + PLIST_TAIL@,
{
    let mut out = text::chars(PLIST_HEAD);
    text::push_str(&mut out, JOB_LABEL);
    text::push_str(&mut out, PLIST_ARGS);
    let e = escape(exe);
    text::push_all(&mut out, e.as_slice());
    text::push_str(&mut out, PLIST_ENV);
    let h = escape(svc_home);
    text::push_all(&mut out, h.as_slice());
    text::push_str(&mut out, PLIST_TAIL);
    text::string(out.as_slice())
}

/// Law: inside XML no angle bracket is left, the three signs are written by
/// their names, and nothing else changes.
pub proof fn law_escaped(a: Seq<char>, b: Seq<char>, c: char)
    ensures
        !escaped(a).contains('<'),
        !escaped(a).contains('>'),
        escaped(a + b) == escaped(a) + escaped(b),
        escaped(seq!['&']) == "&amp;"@,
        escaped(seq!['<']) == "&lt;"@,
        escaped(seq!['>']) == "&gt;"@,
        c != '&' && c != '<' && c != '>' ==> escaped(seq![c]) == seq![c],
{
    reveal_strlit("&amp;");
    reveal_strlit("&lt;");
    reveal_strlit("&gt;");
    let (x, y, z) = ("&amp;"@, "&lt;"@, "&gt;"@);
    let a1 = text::replaced(a, '&', x);
    let b1 = text::replaced(b, '&', x);
    let a2 = text::replaced(a1, '<', y);
    let b2 = text::replaced(b1, '<', y);
    text::law_replaced(a, b, '&', c, x);
    text::law_replaced(a1, b1, '<', c, y);
    text::law_replaced(a2, b2, '>', c, z);
    text::law_replaced_brings_nothing(a1, '<', y, '<');
    text::law_replaced_brings_nothing(a2, '>', z, '<');
    text::law_replaced_brings_nothing(a2, '>', z, '>');
    lemma_unchanged(x, '<', y);
    lemma_unchanged(x, '>', z);
    lemma_unchanged(y, '>', z);
    text::law_replaced(a, b, '&', '<', x);
    text::law_replaced(a, b, '&', '>', x);
    text::law_replaced(a1, b1, '<', '>', y);
}

proof fn lemma_unchanged(s: Seq<char>, c: char, with: Seq<char>)
    requires
        forall|i: int| 0 <= i < s.len() ==> #[trigger] s[i] != c,
    ensures
        text::replaced(s, c, with) == s,
    decreases s.len(),
{
    if s.len() > 0 {
        let t = s.drop_last();
        assert forall|i: int| 0 <= i < t.len() implies #[trigger] t[i] != c by {
            assert(t[i] == s[i]);
        }
        lemma_unchanged(t, c, with);
        assert(s[s.len() - 1] != c);
        assert(text::replaced(s, c, with) =~= s);
    } else {
        assert(text::replaced(s, c, with) =~= s);
    }
}

} // verus!
