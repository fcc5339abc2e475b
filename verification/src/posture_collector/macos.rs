//! macOS posture signals, read out of what the system's tools say.
//!
//! `bitlocker_on` is FileVault, `firewall_enabled` the application firewall's
//! state, `domain_joined` a detected management enrollment, and
//! `days_since_patch` the age of the newest update receipt.

use vstd::prelude::*;

use super::later;
use super::patch_age_from;
use super::Snapshot;
use crate::calendar::iso_date_to_unix;
use crate::text;

verus! {

/// The value of a `key: value` row, not empty.
pub open spec fn row_value(out: Seq<char>, key: Seq<char>) -> Option<Seq<char>> {
    match text::after_prefix(text::trimmed_lines(out), key + ":"@) {
        Some(v) => if text::trimmed(v).len() == 0 {
            None
        } else {
            Some(text::trimmed(v))
        },
        None => None,
    }
}

/// Reads one row of `sw_vers` output.
pub fn swvers_field(swvers_out: &str, key: &str) -> (r: Option<String>)
    ensures
        super::opt_text(r) == row_value(swvers_out@, key@),
{
    let cs = text::chars(swvers_out);
    let ls = text::split_trimmed_lines(cs.as_slice());
    let mut prefix = text::chars(key);
    text::push_str(&mut prefix, ":");
    match text::line_after(&ls, prefix.as_slice()) {
        Some(v) => {
            let t = text::trim(v.as_slice());
            if t.len() == 0 {
                None
            } else {
                Some(text::string(t.as_slice()))
            }
        },
        None => None,
    }
}

/// The version text: name, version and build.
pub open spec fn version_text(name: Seq<char>, ver: Seq<char>, build: Seq<char>) -> Seq<char> {
    name + " "@ + ver + " (build "@ + build + ")"@
}

/// The version text of `sw_vers` output and a kernel build, where all three
/// parts are there.
pub open spec fn os_version(swvers: Seq<char>, build: Seq<char>) -> Option<Seq<char>> {
    match (row_value(swvers, "ProductName"@), row_value(swvers, "ProductVersion"@)) {
        (Some(n), Some(v)) => if text::trimmed(build).len() == 0 {
            None
        } else {
            Some(version_text(n, v, text::trimmed(build)))
        },
        _ => None,
    }
}

/// Formats the version text.
pub fn os_version_text(swvers: &str, build: &str) -> (r: Option<String>)
    ensures
        super::opt_text(r) == os_version(swvers@, build@),
{
    match (swvers_field(swvers, "ProductName"), swvers_field(swvers, "ProductVersion")) {
        (Some(n), Some(v)) => {
            let bcs = text::chars(build);
            let b = text::trim(bcs.as_slice());
            if b.len() == 0 {
                return None;
            }
            let mut out = text::chars(n.as_str());
            text::push_str(&mut out, " ");
            text::push_str(&mut out, v.as_str());
            text::push_str(&mut out, " (build ");
            text::push_all(&mut out, b.as_slice());
            text::push_str(&mut out, ")");
            Some(text::string(out.as_slice()))
        },
        _ => None,
    }
}

/// The text between the first `open` at or after `from` and the next `close`.
pub open spec fn between(s: Seq<char>, from: int, open: Seq<char>, close: Seq<char>) -> Option<
    Seq<char>,
> {
    match text::find_from(s, open, from) {
        Some(i) => match text::find_from(s, close, i + open.len()) {
            Some(j) => Some(s.subrange(i + open.len(), j)),
            None => None,
        },
        None => None,
    }
}

/// Date of an update receipt: the `<date>` behind the date key of an entry
/// that names an update package, as Unix seconds.
pub open spec fn receipt_unix(entry: Seq<char>) -> Option<int> {
    if !text::contains(entry, "com.apple.pkg.update"@) {
        None
    } else {
        match text::find(entry, "<key>date</key>"@) {
            Some(k) => match between(
                entry,
                k + "<key>date</key>"@.len(),
                "<date>"@,
                "</date>"@,
            ) {
                Some(d) => match crate::calendar::iso_date(d) {
                    Some((y, m, day)) => Some(86400 * crate::calendar::civil_days(y, m, day)),
                    None => None,
                },
                None => None,
            },
            None => None,
        }
    }
}

/// Dates of the update receipts of an install history.
pub open spec fn receipts(plist: Seq<char>) -> Seq<Option<int>> {
    text::pieces(plist, "</dict>"@).map_values(|e: Seq<char>| receipt_unix(e))
}

fn receipt(entry: &[char]) -> (r: Option<i64>)
    ensures
        super::opt_int(r) == receipt_unix(entry@),
{
    if !text::has_str(entry, "com.apple.pkg.update") {
        return None;
    }
    let key = text::chars("<key>date</key>");
    let open = text::chars("<date>");
    let close = text::chars("</date>");
    let n: usize = entry.len();
    let k = match text::index_of(entry, key.as_slice(), 0) {
        Some(k) => k,
        None => {
            return None;
        },
    };
    let i = match text::index_of(entry, open.as_slice(), k + key.len()) {
        Some(i) => i,
        None => {
            return None;
        },
    };
    let j = match text::index_of(entry, close.as_slice(), i + open.len()) {
        Some(j) => j,
        None => {
            return None;
        },
    };
    let d = text::cut(entry, i + open.len(), j);
    let ds = text::string(d.as_slice());
    iso_date_to_unix(ds.as_str())
}

/// The newest update receipt of an install history, as Unix seconds at day
/// precision. Receipts of other packages and unreadable dates do not count.
pub fn newest_update_receipt_unix(install_history_plist: &str) -> (r: Option<i64>)
    ensures
        super::opt_int(r) == super::newest(receipts(install_history_plist@)),
{
    let cs = text::chars(install_history_plist);
    let close = text::chars("</dict>");
    proof {
        reveal_strlit("</dict>");
    }
    let es = text::split_at_str(cs.as_slice(), close.as_slice());
    let ghost all = receipts(install_history_plist@);
    let mut newest: Option<i64> = None;
    let mut i: usize = 0;
    while i < es.len()
        invariant
            i <= es@.len(),
            text::views(es@) == text::pieces(install_history_plist@, "</dict>"@),
            all == receipts(install_history_plist@),
            super::opt_int(newest) == super::newest(all.subrange(0, i as int)),
        decreases es@.len() - i,
    {
        assert(text::views(es@)[i as int] == es@[i as int]@);
        let d = receipt(es[i].as_slice());
        let ghost next = all.subrange(0, i + 1);
        assert(next.drop_last() =~= all.subrange(0, i as int));
        assert(next.last() == super::opt_int(d));
        newest = later(newest, d);
        i += 1;
    }
    assert(all.subrange(0, i as int) =~= all);
    newest
}

/// FileVault state of lower-cased `fdesetup status` output. "Deferred" is
/// armed but not active, so not on.
pub open spec fn filevault(low: Seq<char>) -> Option<bool> {
    if text::contains(low, "filevault is on"@) {
        Some(true)
    } else if text::contains(low, "filevault is off"@) || text::contains(
        low,
        "filevault is deferred"@,
    ) {
        Some(false)
    } else {
        None
    }
}

/// FileVault state of output that is already in lower case.
pub fn fdesetup_of(low: &str) -> (r: Option<bool>)
    ensures
        r == filevault(low@),
{
    let cs = text::chars(low);
    if text::has_str(cs.as_slice(), "filevault is on") {
        Some(true)
    } else if text::has_str(cs.as_slice(), "filevault is off") || text::has_str(
        cs.as_slice(),
        "filevault is deferred",
    ) {
        Some(false)
    } else {
        None
    }
}

/// FileVault state of `fdesetup status` output, whatever its case.
pub fn fdesetup_from(fdesetup_out: &str) -> (r: Option<bool>)
    ensures
        r == filevault(text::lowercase(fdesetup_out@)),
{
    let low = text::to_lowercase(fdesetup_out);
    fdesetup_of(low.as_str())
}

/// Firewall state of lower-cased `socketfilterfw` output.
pub open spec fn firewall_state(low: Seq<char>) -> Option<bool> {
    if text::contains(low, "firewall is enabled"@) {
        Some(true)
    } else if text::contains(low, "firewall is disabled"@) {
        Some(false)
    } else {
        None
    }
}

/// Firewall state of output that is already in lower case.
pub fn firewall_macos_of(low: &str) -> (r: Option<bool>)
    ensures
        r == firewall_state(low@),
{
    let cs = text::chars(low);
    if text::has_str(cs.as_slice(), "firewall is enabled") {
        Some(true)
    } else if text::has_str(cs.as_slice(), "firewall is disabled") {
        Some(false)
    } else {
        None
    }
}

/// Firewall state of `socketfilterfw` output, whatever its case.
pub fn firewall_macos_from(out: &str) -> (r: Option<bool>)
    ensures
        r == firewall_state(text::lowercase(out@)),
{
    let low = text::to_lowercase(out);
    firewall_macos_of(low.as_str())
}

/// Management enrollment of lower-cased `profiles` output. A denial anywhere
/// wins over a confirmation.
pub open spec fn enrollment(low: Seq<char>) -> Option<bool> {
    if text::contains(low, "not enrolled"@) || text::contains(low, "enrolled via dep: no"@) {
        Some(false)
    } else if text::contains(low, "enrolled via dep: yes"@) || text::contains(
        low,
        "enrolled via credential provider"@,
    ) || text::contains(low, "enrolled via user approved mdm"@) || text::has_suffix(
        text::trimmed(low),
        "enrolled"@,
    ) {
        Some(true)
    } else {
        None
    }
}

/// Management enrollment of output that is already in lower case.
pub fn enrollment_of(low: &str) -> (r: Option<bool>)
    ensures
        r == enrollment(low@),
{
    let cs = text::chars(low);
    if text::has_str(cs.as_slice(), "not enrolled") || text::has_str(
        cs.as_slice(),
        "enrolled via dep: no",
    ) {
        return Some(false);
    }
    let t = text::trim(cs.as_slice());
    if text::has_str(cs.as_slice(), "enrolled via dep: yes") || text::has_str(
        cs.as_slice(),
        "enrolled via credential provider",
    ) || text::has_str(cs.as_slice(), "enrolled via user approved mdm") || text::ends_with_str(
        t.as_slice(),
        "enrolled",
    ) {
        return Some(true);
    }
    None
}

/// Management enrollment of `profiles` output, whatever its case.
pub fn enrollment_from(out: &str) -> (r: Option<bool>)
    ensures
        r == enrollment(text::lowercase(out@)),
{
    let low = text::to_lowercase(out);
    enrollment_of(low.as_str())
}

/// What one pass read from a macOS system; `None` where a read failed.
#[derive(Debug)]
pub struct Readings {
    pub swvers: Option<String>,
    pub kernel_build: Option<String>,
    /// The install history property list.
    pub install_history: Option<String>,
    /// Unix time of the pass.
    pub now_unix: i64,
    pub firewall_state: Option<String>,
    pub fdesetup: Option<String>,
    pub enrollment: Option<String>,
}

/// One collection pass.
pub fn collect(x: &Readings) -> (r: Snapshot)
    ensures
        r.defender_healthy is None,
        r.slot_age_secs == Some(0i64),
        super::opt_text(r.os_version) == match (x.swvers, x.kernel_build) {
            (Some(s), Some(b)) => os_version(s@, b@),
            _ => None,
        },
        super::opt_int(r.days_since_patch) == match x.install_history {
            Some(h) => match super::newest(receipts(h@)) {
                Some(t) => Some(super::days_between(x.now_unix as int, t)),
                None => None,
            },
            None => None,
        },
        r.firewall_enabled == match x.firewall_state {
            Some(o) => firewall_state(text::lowercase(o@)),
            None => None,
        },
        r.bitlocker_on == match x.fdesetup {
            Some(o) => filevault(text::lowercase(o@)),
            None => None,
        },
        r.domain_joined == match x.enrollment {
            Some(o) => enrollment(text::lowercase(o@)),
            None => None,
        },
{
    let os_version = match (&x.swvers, &x.kernel_build) {
        (Some(s), Some(b)) => os_version_text(s.as_str(), b.as_str()),
        _ => None,
    };
    let days_since_patch = match &x.install_history {
        Some(h) => match newest_update_receipt_unix(h.as_str()) {
            Some(t) => Some(patch_age_from(x.now_unix, t)),
            None => None,
        },
        None => None,
    };
    let firewall_enabled = match &x.firewall_state {
        Some(o) => firewall_macos_from(o.as_str()),
        None => None,
    };
    let bitlocker_on = match &x.fdesetup {
        Some(o) => fdesetup_from(o.as_str()),
        None => None,
    };
    let domain_joined = match &x.enrollment {
        Some(o) => enrollment_from(o.as_str()),
        None => None,
    };
    Snapshot {
        bitlocker_on,
        defender_healthy: None,
        firewall_enabled,
        os_version,
        days_since_patch,
        domain_joined,
        slot_age_secs: Some(0),
    }
}

/// Law: a row's value is that of the first line with its key and a colon,
/// without white space around it; a blank one is none.
pub proof fn law_row_value(out: Seq<char>, key: Seq<char>)
    ensures
        ({
            let ls = text::trimmed_lines(out);
            let p = key + ":"@;
            &&& row_value(out, key) matches Some(v) ==> v.len() > 0 && exists|i: int|
                #![trigger ls[i]]
                0 <= i < ls.len() && text::has_prefix(ls[i], p) && v == text::trimmed(
                    text::rest(ls[i], p.len() as int),
                ) && forall|j: int| 0 <= j < i ==> !text::has_prefix(#[trigger] ls[j], p)
            &&& (forall|j: int| 0 <= j < ls.len() ==> !text::has_prefix(#[trigger] ls[j], p))
                ==> row_value(out, key) is None
        }),
{
    let ls = text::trimmed_lines(out);
    let p = key + ":"@;
    text::law_after_prefix(ls, p);
    if let Some(w) = text::after_prefix(ls, p) {
        let i = choose|i: int|
            #![trigger ls[i]]
            0 <= i < ls.len() && ls[i] == p + w && forall|j: int|
                0 <= j < i ==> !text::has_prefix(#[trigger] ls[j], p);
        assert(ls[i].subrange(0, p.len() as int) =~= p);
        assert(text::rest(ls[i], p.len() as int) =~= w);
        assert(text::has_prefix(ls[i], p));
    }
}

/// Law: the version is known exactly where the name, the version and the build
/// are, and its text holds all three.
pub proof fn law_os_version(swvers: Seq<char>, build: Seq<char>)
    ensures
        os_version(swvers, build) is Some <==> row_value(swvers, "ProductName"@) is Some
            && row_value(swvers, "ProductVersion"@) is Some && text::trimmed(build).len() > 0,
        os_version(swvers, build) matches Some(t) ==> {
            let n = row_value(swvers, "ProductName"@)->Some_0;
            let v = row_value(swvers, "ProductVersion"@)->Some_0;
            t == n + " "@ + v + " (build "@ + text::trimmed(build) + ")"@
        },
{
}

/// Law: disk encryption, the firewall and management as their tools word them;
/// what is armed but not active is not on, and a denial of management wins
/// over a confirmation. Other words say nothing.
pub proof fn law_tool_words(low: Seq<char>)
    ensures
        filevault(low) == Some(true) <==> text::contains(low, "filevault is on"@),
        !text::contains(low, "filevault is on"@) && (text::contains(low, "filevault is off"@)
            || text::contains(low, "filevault is deferred"@)) <==> filevault(low) == Some(false),
        firewall_state(low) == Some(true) <==> text::contains(low, "firewall is enabled"@),
        !text::contains(low, "firewall is enabled"@) && text::contains(low, "firewall is disabled"@)
            <==> firewall_state(low) == Some(false),
        enrollment(low) == Some(false) <==> text::contains(low, "not enrolled"@) || text::contains(
            low,
            "enrolled via dep: no"@,
        ),
        enrollment(low) == Some(true) ==> !text::contains(low, "not enrolled"@) && (text::contains(
            low,
            "enrolled via dep: yes"@,
        ) || text::contains(low, "enrolled via credential provider"@) || text::contains(
            low,
            "enrolled via user approved mdm"@,
        ) || text::has_suffix(text::trimmed(low), "enrolled"@)),
        text::contains(low, "enrolled via dep: yes"@) && !text::contains(low, "not enrolled"@)
            && !text::contains(low, "enrolled via dep: no"@) ==> enrollment(low) == Some(true),
{
}

/// Law: a receipt counts only for an update package, and its date is the day
/// that stands between the date's tags behind the date's key.
pub proof fn law_receipt_date(entry: Seq<char>, k: int, y: int, m: int, d: int)
    ensures
        !text::contains(entry, "com.apple.pkg.update"@) ==> receipt_unix(entry) is None,
        text::find(entry, "<key>date</key>"@) is None ==> receipt_unix(entry) is None,
        text::contains(entry, "com.apple.pkg.update"@) && text::find(entry, "<key>date</key>"@)
            == Some(k) ==> (between(
            entry,
            k + "<key>date</key>"@.len(),
            "<date>"@,
            "</date>"@,
        ) matches Some(t) ==> (crate::calendar::iso_date(t) == Some((y, m, d)) ==> receipt_unix(
            entry,
        ) == Some(86400 * crate::calendar::civil_days(y, m, d)))),
{
}

/// Law: what stands between two marks is the text from the end of the first
/// mark found to the next closing one; nothing lies between where one is
/// missing.
pub proof fn law_between(s: Seq<char>, from: int, open: Seq<char>, close: Seq<char>)
    requires
        0 <= from,
    ensures
        between(s, from, open, close) matches Some(v) ==> exists|i: int|
            #![trigger text::stands_at(s, open, i)]
            from <= i && text::stands_at(s, open, i) && text::stands_at(
                s,
                close,
                i + open.len() + v.len(),
            ) && v == s.subrange(i + open.len(), i + open.len() + v.len()),
        (forall|i: int| from <= i ==> !#[trigger] text::stands_at(s, open, i)) ==> between(
            s,
            from,
            open,
            close,
        ) is None,
{
    text::lemma_find_from(s, open, from);
    if let Some(i) = text::find_from(s, open, from) {
        text::lemma_find_from(s, close, i + open.len());
        assert(text::stands_at(s, open, i));
    }
}

/// Law: the entries of an install history are read one by one, in order.
pub proof fn law_receipts(plist: Seq<char>, i: int)
    requires
        0 <= i < receipts(plist).len(),
    ensures
        receipts(plist).len() == text::pieces(plist, "</dict>"@).len(),
        receipts(plist)[i] == receipt_unix(text::pieces(plist, "</dict>"@)[i]),
{
}

} // verus!
