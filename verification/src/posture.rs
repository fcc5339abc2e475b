//! Signed posture reports: the values sent, their canonical text and
//! signature, and when the reporter sends them in full.

use vstd::prelude::*;

use crate::crypto;
use crate::hex::seed_from_hex;
use crate::hex::to_hex;
use crate::hex::HexError;
use crate::posture_collector::Snapshot;
use crate::posture_collector::CLIENT_VERSION;
use crate::posture_probes::truth_text;
use crate::text;

verus! {

// ---------------------------------------------------------------------
// Values
// ---------------------------------------------------------------------

/// The values of a report.
#[derive(Debug)]
pub struct Values {
    pub bitlocker_on: bool,
    pub defender_healthy: bool,
    pub firewall_enabled: bool,
    pub entra_joined: bool,
    pub os_version: String,
    pub days_since_patch: i64,
    pub client_version: String,
}

/// Model of [`Values`].
pub struct ValuesView {
    pub bitlocker_on: bool,
    pub defender_healthy: bool,
    pub firewall_enabled: bool,
    pub entra_joined: bool,
    pub os_version: Seq<char>,
    pub days_since_patch: int,
    pub client_version: Seq<char>,
}

impl View for Values {
    type V = ValuesView;

    open spec fn view(&self) -> ValuesView {
        ValuesView {
            bitlocker_on: self.bitlocker_on,
            defender_healthy: self.defender_healthy,
            firewall_enabled: self.firewall_enabled,
            entra_joined: self.entra_joined,
            os_version: self.os_version@,
            days_since_patch: self.days_since_patch as int,
            client_version: self.client_version@,
        }
    }
}

/// Whether a simulation name forces the three health signals.
pub open spec fn forces(sim: Seq<char>) -> bool {
    sim == "healthy"@ || sim == "defender_off"@ || sim == "bitlocker_off"@ || sim
        == "firewall_off"@
}

/// A health signal as reported: as found, true where unknown; under a
/// simulation, true unless the simulation is the one that turns it off.
pub open spec fn signal(found: Option<bool>, sim: Seq<char>, off: Seq<char>) -> bool {
    if forces(sim) {
        sim != off
    } else {
        found != Some(false)
    }
}

/// The values reported for a snapshot under a simulation name (empty for
/// none).
pub open spec fn values_of(
    s: crate::posture_collector::SnapshotView,
    sim: Seq<char>,
) -> ValuesView {
    ValuesView {
        bitlocker_on: signal(s.bitlocker_on, sim, "bitlocker_off"@),
        defender_healthy: signal(s.defender_healthy, sim, "defender_off"@),
        firewall_enabled: signal(s.firewall_enabled, sim, "firewall_off"@),
        entra_joined: s.domain_joined != Some(false),
        os_version: match s.os_version {
            Some(v) => v,
            None => "unknown"@,
        },
        days_since_patch: match s.days_since_patch {
            Some(d) => d as int,
            None => -1,
        },
        client_version: CLIENT_VERSION@,
    }
}

fn signal_on(found: Option<bool>, sim: &str, off: &str) -> (r: bool)
    ensures
        r == signal(found, sim@, off@),
{
    if text::str_eq(sim, "healthy") || text::str_eq(sim, "defender_off") || text::str_eq(
        sim,
        "bitlocker_off",
    ) || text::str_eq(sim, "firewall_off") {
        !text::str_eq(sim, off)
    } else {
        found_on(found)
    }
}

fn found_on(found: Option<bool>) -> (r: bool)
    ensures
        r == (found != Some(false)),
{
    match found {
        Some(b) => b,
        None => true,
    }
}

/// The values to report for a snapshot.
pub fn report_values(snap: &Snapshot, sim: &str) -> (r: Values)
    ensures
        r@ == values_of(snap@, sim@),
{
    let os_version = match &snap.os_version {
        Some(v) => v.clone(),
        None => "unknown".to_owned(),
    };
    Values {
        bitlocker_on: signal_on(snap.bitlocker_on, sim, "bitlocker_off"),
        defender_healthy: signal_on(snap.defender_healthy, sim, "defender_off"),
        firewall_enabled: signal_on(snap.firewall_enabled, sim, "firewall_off"),
        entra_joined: found_on(snap.domain_joined),
        os_version,
        days_since_patch: match snap.days_since_patch {
            Some(d) => d,
            None => -1,
        },
        client_version: CLIENT_VERSION.to_owned(),
    }
}

/// A signal that could not be determined never denies: without a simulation,
/// only an explicit false is reported as false.
pub proof fn law_unknown_never_denies(s: crate::posture_collector::SnapshotView, sim: Seq<char>)
    requires
        !forces(sim),
    ensures
        !values_of(s, sim).bitlocker_on <==> s.bitlocker_on == Some(false),
        !values_of(s, sim).defender_healthy <==> s.defender_healthy == Some(false),
        !values_of(s, sim).firewall_enabled <==> s.firewall_enabled == Some(false),
        !values_of(s, sim).entra_joined <==> s.domain_joined == Some(false),
{
}

/// A simulation changes no more than the three health signals, and turns off
/// at most one of them.
pub proof fn law_simulation_is_bounded(s: crate::posture_collector::SnapshotView, sim: Seq<char>)
    requires
        forces(sim),
    ensures
        values_of(s, sim) == (ValuesView {
            bitlocker_on: sim != "bitlocker_off"@,
            defender_healthy: sim != "defender_off"@,
            firewall_enabled: sim != "firewall_off"@,
            ..values_of(s, ""@)
        }),
{
    reveal_strlit("");
    reveal_strlit("healthy");
    reveal_strlit("defender_off");
    reveal_strlit("bitlocker_off");
    reveal_strlit("firewall_off");
    assert(""@.len() == 0);
}

// ---------------------------------------------------------------------
// Canonical text
// ---------------------------------------------------------------------

/// A truth value and the bar after it.
pub open spec fn flag(b: bool) -> Seq<char> {
    crate::posture_probes::truth(b) + "|"@
}

/// The four flags of a report.
pub open spec fn flags_text(v: ValuesView) -> Seq<char> {
    flag(v.bitlocker_on) + flag(v.defender_healthy) + flag(v.firewall_enabled) + flag(
        v.entra_joined,
    )
}

/// The values of a report in canonical form, without its time.
pub open spec fn values_text(v: ValuesView) -> Seq<char> {
    flags_text(v) + v.os_version + "|"@ + text::decimal_int(v.days_since_patch) + "|"@
        + v.client_version
}

fn push_flag(out: &mut Vec<char>, b: bool)
    ensures
        final(out)@ == old(out)@ + flag(b),
{
    let t = truth_text(b);
    text::push_str(out, t.as_str());
    text::push_str(out, "|");
    assert(out@ =~= old(out)@ + flag(b));
}

fn push_values(
    out: &mut Vec<char>,
    flags: (bool, bool, bool, bool),
    os_version: &str,
    days_since_patch: i64,
    client_version: &str,
)
    ensures
        final(out)@ == old(out)@ + values_text(
            ValuesView {
                bitlocker_on: flags.0,
                defender_healthy: flags.1,
                firewall_enabled: flags.2,
                entra_joined: flags.3,
                os_version: os_version@,
                days_since_patch: days_since_patch as int,
                client_version: client_version@,
            },
        ),
{
    let ghost start = out@;
    push_flag(out, flags.0);
    push_flag(out, flags.1);
    push_flag(out, flags.2);
    push_flag(out, flags.3);
    text::push_str(out, os_version);
    text::push_str(out, "|");
    let d = text::dec_int(days_since_patch);
    text::push_all(out, d.as_slice());
    text::push_str(out, "|");
    text::push_str(out, client_version);
    assert(out@ =~= start + values_text(
        ValuesView {
            bitlocker_on: flags.0,
            defender_healthy: flags.1,
            firewall_enabled: flags.2,
            entra_joined: flags.3,
            os_version: os_version@,
            days_since_patch: days_since_patch as int,
            client_version: client_version@,
        },
    ));
}

/// `x` put into sorted extensions, behind those whose id does not come later.
pub open spec fn put_in(
    s: Seq<(Seq<char>, Seq<char>)>,
    x: (Seq<char>, Seq<char>),
) -> Seq<(Seq<char>, Seq<char>)>
    decreases s.len(),
{
    if s.len() == 0 || !text::precedes(x.0, s.last().0) {
        s.push(x)
    } else {
        put_in(s.drop_last(), x).push(s.last())
    }
}

/// Extensions in the order of their ids; those with the same id keep their
/// order.
pub open spec fn sorted_ext(e: Seq<(Seq<char>, Seq<char>)>) -> Seq<(Seq<char>, Seq<char>)>
    decreases e.len(),
{
    if e.len() == 0 {
        e
    } else {
        put_in(sorted_ext(e.drop_last()), e.last())
    }
}

/// The values reported under one id, in order.
pub open spec fn under_id(e: Seq<(Seq<char>, Seq<char>)>, id: Seq<char>) -> Seq<Seq<char>>
    decreases e.len(),
{
    if e.len() == 0 {
        Seq::empty()
    } else if e.last().0 == id {
        under_id(e.drop_last(), id).push(e.last().1)
    } else {
        under_id(e.drop_last(), id)
    }
}

/// No id comes before an earlier one.
pub open spec fn in_id_order(e: Seq<(Seq<char>, Seq<char>)>) -> bool {
    forall|i: int, j: int|
        0 <= i < j < e.len() ==> !text::precedes((#[trigger] e[j]).0, (#[trigger] e[i]).0)
}

proof fn lemma_put_in(s: Seq<(Seq<char>, Seq<char>)>, x: (Seq<char>, Seq<char>), id: Seq<char>)
    requires
        in_id_order(s),
    ensures
        in_id_order(put_in(s, x)),
        put_in(s, x).len() == s.len() + 1,
        under_id(put_in(s, x), id) == under_id(s.push(x), id),
        forall|i: int|
            0 <= i < s.len() + 1 ==> (#[trigger] put_in(s, x)[i] == x || exists|k: int|
                0 <= k < s.len() && s[k] == put_in(s, x)[i]),
    decreases s.len(),
{
    let r = put_in(s, x);
    assert(s.push(x).drop_last() =~= s);
    if s.len() == 0 || !text::precedes(x.0, s.last().0) {
        assert forall|i: int, j: int| 0 <= i < j < r.len() implies !text::precedes(
            (#[trigger] r[j]).0,
            (#[trigger] r[i]).0,
        ) by {
            if j == s.len() {
                if text::precedes(x.0, s[i].0) {
                    let last = s.last();
                    if i < s.len() - 1 {
                        assert(!text::precedes(s[s.len() - 1].0, s[i].0));
                        text::lemma_precedes_total(s[i].0, last.0);
                        if s[i].0 != last.0 {
                            text::lemma_precedes_trans(x.0, s[i].0, last.0);
                        }
                    }
                }
            } else {
                assert(r[i] == s[i] && r[j] == s[j]);
            }
        }
        assert forall|i: int| 0 <= i < s.len() + 1 implies (#[trigger] r[i] == x || exists|k: int|
            0 <= k < s.len() && s[k] == r[i]) by {
            if i < s.len() {
                assert(s[i] == r[i]);
            }
        }
    } else {
        let t = s.drop_last();
        assert forall|i: int, j: int| 0 <= i < j < t.len() implies !text::precedes(
            (#[trigger] t[j]).0,
            (#[trigger] t[i]).0,
        ) by {
            assert(t[i] == s[i] && t[j] == s[j]);
        }
        lemma_put_in(t, x, id);
        let p = put_in(t, x);
        assert(r =~= p.push(s.last()));
        assert(r.drop_last() =~= p);
        text::lemma_precedes_strict(x.0);
        assert(x.0 != s.last().0);
        assert(r.last() == s.last());
        assert(t.push(x).last() == x);
        assert(s.push(x).last() == x);
        reveal_with_fuel(under_id, 3);
        assert(t.push(x).drop_last() =~= t);
        assert(s.push(x).drop_last() =~= s);
        assert forall|i: int, j: int| 0 <= i < j < r.len() implies !text::precedes(
            (#[trigger] r[j]).0,
            (#[trigger] r[i]).0,
        ) by {
            if j == p.len() {
                assert(p[i] == r[i]);
                if p[i] == x {
                    if text::precedes(s.last().0, x.0) {
                        text::lemma_precedes_trans(s.last().0, x.0, s.last().0);
                        text::lemma_precedes_strict(s.last().0);
                    }
                } else {
                    let k = choose|k: int| 0 <= k < t.len() && t[k] == p[i];
                    assert(s[k] == t[k]);
                    assert(!text::precedes(s[s.len() - 1].0, s[k].0));
                }
            } else {
                assert(r[i] == p[i] && r[j] == p[j]);
            }
        }
        assert forall|i: int| 0 <= i < s.len() + 1 implies (#[trigger] r[i] == x || exists|k: int|
            0 <= k < s.len() && s[k] == r[i]) by {
            if i < p.len() {
                assert(r[i] == p[i]);
                if p[i] != x {
                    let k = choose|k: int| 0 <= k < t.len() && t[k] == p[i];
                    assert(s[k] == r[i]);
                }
            } else {
                assert(s[s.len() - 1] == r[i]);
            }
        }
    }
}

/// Sorting puts ids in order and keeps, for every id, its values in the order
/// they came in.
pub proof fn law_sorted_ext(e: Seq<(Seq<char>, Seq<char>)>, id: Seq<char>)
    ensures
        in_id_order(sorted_ext(e)),
        sorted_ext(e).len() == e.len(),
        under_id(sorted_ext(e), id) == under_id(e, id),
    decreases e.len(),
{
    if e.len() > 0 {
        let t = e.drop_last();
        law_sorted_ext(t, id);
        lemma_put_in(sorted_ext(t), e.last(), id);
        assert(sorted_ext(t).push(e.last()).drop_last() =~= sorted_ext(t));
    }
}

/// Extensions as `id=value`, joined by commas.
pub open spec fn ext_text(e: Seq<(Seq<char>, Seq<char>)>) -> Seq<char> {
    text::joined(e.map_values(|p: (Seq<char>, Seq<char>)| p.0 + "="@ + p.1), ","@)
}

/// The text that a report signs: time and values; with a specification, also
/// its version and the extensions in id order.
pub open spec fn canonical(
    ts: nat,
    v: ValuesView,
    ext: Option<(i64, Seq<(Seq<char>, Seq<char>)>)>,
) -> Seq<char> {
    let core = text::decimal(ts) + "|"@ + values_text(v);
    match ext {
        None => core,
        Some((version, e)) => "v2|"@ + core + "|"@ + text::decimal_int(version as int) + "|"@
            + ext_text(sorted_ext(e)),
    }
}

fn sort_ext(e: &Vec<(String, String)>) -> (r: Vec<(Vec<char>, Vec<char>)>)
    ensures
        r@.map_values(|p: (Vec<char>, Vec<char>)| (p.0@, p.1@)) == sorted_ext(
            text::pair_views(e@),
        ),
{
    let ghost all = text::pair_views(e@);
    let mut out: Vec<(Vec<char>, Vec<char>)> = Vec::new();
    let mut i: usize = 0;
    assert(all.subrange(0, 0) =~= Seq::<(Seq<char>, Seq<char>)>::empty());
    assert(ext_views(out@) =~= Seq::<(Seq<char>, Seq<char>)>::empty());
    while i < e.len()
        invariant
            i <= e@.len(),
            all == text::pair_views(e@),
            ext_views(out@) == sorted_ext(all.subrange(0, i as int)),
        decreases e@.len() - i,
    {
        let ghost next = all.subrange(0, i + 1);
        assert(next.drop_last() =~= all.subrange(0, i as int));
        assert(next.last() == (e@[i as int].0@, e@[i as int].1@));
        let x = (text::chars(e[i].0.as_str()), text::chars(e[i].1.as_str()));
        put_ext(&mut out, x);
        i += 1;
    }
    assert(all.subrange(0, i as int) =~= all);
    out
}

spec fn ext_views(e: Seq<(Vec<char>, Vec<char>)>) -> Seq<(Seq<char>, Seq<char>)> {
    e.map_values(|p: (Vec<char>, Vec<char>)| (p.0@, p.1@))
}

fn put_ext(out: &mut Vec<(Vec<char>, Vec<char>)>, x: (Vec<char>, Vec<char>))
    ensures
        ext_views(final(out)@) == put_in(ext_views(old(out)@), (x.0@, x.1@)),
    decreases old(out)@.len(),
{
    let ghost before = out@;
    let ghost xv = (x.0@, x.1@);
    let n: usize = out.len();
    if n == 0 || !text::comes_before(x.0.as_slice(), out[n - 1].0.as_slice()) {
        out.push(x);
        assert(ext_views(out@) =~= ext_views(before).push(xv));
        return;
    }
    let last = out.pop();
    assert(ext_views(out@) =~= ext_views(before).drop_last());
    put_ext(out, x);
    if let Some(l) = last {
        let ghost mid = out@;
        let ghost lv = (l.0@, l.1@);
        out.push(l);
        assert(ext_views(out@) =~= ext_views(mid).push(lv));
        assert(ext_views(before).last() == lv);
    }
}

fn ext_string(e: &Vec<(String, String)>) -> (r: Vec<char>)
    ensures
        r@ == ext_text(sorted_ext(text::pair_views(e@))),
{
    let sorted = sort_ext(e);
    let ghost want = ext_views(sorted@).map_values(
        |p: (Seq<char>, Seq<char>)| p.0 + "="@ + p.1,
    );
    let mut parts: Vec<Vec<char>> = Vec::new();
    let mut i: usize = 0;
    while i < sorted.len()
        invariant
            i <= sorted@.len(),
            want == ext_views(sorted@).map_values(|p: (Seq<char>, Seq<char>)| p.0 + "="@ + p.1),
            text::views(parts@) == want.subrange(0, i as int),
        decreases sorted@.len() - i,
    {
        let mut p: Vec<char> = Vec::new();
        text::push_all(&mut p, sorted[i].0.as_slice());
        text::push_str(&mut p, "=");
        text::push_all(&mut p, sorted[i].1.as_slice());
        let ghost pv = p@;
        assert(ext_views(sorted@)[i as int] == (sorted@[i as int].0@, sorted@[i as int].1@));
        assert(pv =~= want[i as int]);
        let ghost before = parts@;
        parts.push(p);
        assert(text::views(parts@) =~= text::views(before).push(pv));
        i += 1;
        assert(text::views(parts@) =~= want.subrange(0, i as int));
    }
    assert(want.subrange(0, i as int) =~= want);
    text::join(&parts, ",")
}

/// The version and extensions of a specification, as texts.
pub open spec fn ext_view(ext: Option<(i64, Vec<(String, String)>)>) -> Option<
    (i64, Seq<(Seq<char>, Seq<char>)>),
> {
    match ext {
        Some((v, e)) => Some((v, text::pair_views(e@))),
        None => None,
    }
}

/// Writes the text that a report signs.
pub fn canonical_text(ts: u64, v: &Values, ext: &Option<(i64, Vec<(String, String)>)>) -> (r:
    String)
    ensures
        r@ == canonical(ts as nat, v@, ext_view(*ext)),
{
    let mut out: Vec<char> = Vec::new();
    if ext.is_some() {
        text::push_str(&mut out, "v2|");
    }
    let ghost head = out@;
    let t = text::dec(ts);
    text::push_all(&mut out, t.as_slice());
    text::push_str(&mut out, "|");
    push_values(
        &mut out,
        (v.bitlocker_on, v.defender_healthy, v.firewall_enabled, v.entra_joined),
        v.os_version.as_str(),
        v.days_since_patch,
        v.client_version.as_str(),
    );
    let ghost core = text::decimal(ts as nat) + "|"@ + values_text(v@);
    assert(out@ =~= head + core);
    match ext {
        Some((version, e)) => {
            text::push_str(&mut out, "|");
            let n = text::dec_int(*version);
            text::push_all(&mut out, n.as_slice());
            text::push_str(&mut out, "|");
            let x = ext_string(e);
            text::push_all(&mut out, x.as_slice());
        },
        None => {
            assert(out@ =~= core);
        },
    }
    text::string(out.as_slice())
}

// ---------------------------------------------------------------------
// Report
// ---------------------------------------------------------------------

/// A signed report.
#[derive(Debug)]
pub struct Report {
    pub collected_at: u64,
    pub values: Values,
    pub sig_b64: String,
    /// Version and extensions where a specification is in force, in the
    /// specification's order.
    pub extensions: Option<(i64, Vec<(String, String)>)>,
}

/// Builds a report from a snapshot: none without a signing key.
pub fn signed_posture_from(
    snap: &Snapshot,
    sim: &str,
    ts: u64,
    seed: &Option<[u8; 32]>,
    ext: Option<(i64, Vec<(String, String)>)>,
) -> (r: Option<Report>)
    ensures
        r is Some <==> seed is Some,
        r matches Some(rep) ==> {
            &&& rep.collected_at == ts
            &&& rep.values@ == values_of(snap@, sim@)
            &&& rep.extensions == ext
            &&& rep.sig_b64@ == crypto::b64(
                crypto::ed25519_signature(
                    seed->Some_0@,
                    vstd::utf8::encode_utf8(
                        canonical(ts as nat, values_of(snap@, sim@), ext_view(ext)),
                    ),
                ),
                false,
            )
        },
{
    let seed = match seed {
        Some(s) => s,
        None => {
            return None;
        },
    };
    let values = report_values(snap, sim);
    let text_out = canonical_text(ts, &values, &ext);
    let sig = crypto::ed25519_sign(seed, text_out.as_str().as_bytes());
    Some(
        Report {
            collected_at: ts,
            values,
            sig_b64: crypto::base64_encode(sig.as_slice()),
            extensions: ext,
        },
    )
}

/// The posture signing key last read, with the device it belongs to.
#[derive(Debug)]
pub struct KeyCache {
    pub entry: Option<(String, [u8; 32])>,
}

impl KeyCache {
    /// The key held for a device.
    pub open spec fn held(&self, device: Seq<char>) -> Option<Seq<u8>> {
        match self.entry {
            Some((id, k)) => if id@ == device {
                Some(k@)
            } else {
                None
            },
            None => None,
        }
    }

    /// An empty cache.
    pub fn new() -> (r: KeyCache)
        ensures
            r.entry is None,
    {
        KeyCache { entry: None }
    }

    /// The key of a device, if it is held.
    pub fn get(&self, device_id: &str) -> (r: Option<[u8; 32]>)
        ensures
            match r {
                Some(k) => self.held(device_id@) == Some(k@),
                None => self.held(device_id@) is None,
            },
    {
        match &self.entry {
            Some((id, k)) => if text::str_eq(id.as_str(), device_id) {
                Some(*k)
            } else {
                None
            },
            None => None,
        }
    }

    /// The key of a device: the one held, else the one its key file spells
    /// (`None` where there is no file), which is then held.
    pub fn load_posture_key(&mut self, device_id: &str, file: Option<String>) -> (r: Result<
        Option<[u8; 32]>,
        HexError,
    >)
        ensures
            match (old(self).held(device_id@), file) {
                (Some(k), _) => r matches Ok(Some(s)) && s@ == k && *final(self) == *old(self),
                (None, None) => r matches Ok(None) && *final(self) == *old(self),
                (None, Some(f)) => match r {
                    Ok(Some(s)) => crate::hex::seed_read(f@, Ok(s)) && final(self).held(device_id@)
                        == Some(s@),
                    Ok(None) => false,
                    Err(e) => crate::hex::seed_read(f@, Err(e)) && *final(self) == *old(self),
                },
            },
    {
        if let Some(k) = self.get(device_id) {
            return Ok(Some(k));
        }
        match file {
            None => Ok(None),
            Some(f) => match seed_from_hex(f.as_str()) {
                Ok(s) => {
                    self.entry = Some((device_id.to_owned(), s));
                    Ok(Some(s))
                },
                Err(e) => Err(e),
            },
        }
    }
}

// ---------------------------------------------------------------------
// Change detection
// ---------------------------------------------------------------------

/// Hash of the values of a report, which leaves out its time and signature.
pub open spec fn values_hash(v: ValuesView) -> Seq<char> {
    crate::hex::hex(crypto::sha256_of(vstd::utf8::encode_utf8(values_text(v))))
}

/// Hash of a report's values, for telling a changed posture from an
/// unchanged one.
pub fn posture_values_hash(
    bitlocker_on: bool,
    defender_healthy: bool,
    firewall_enabled: bool,
    entra_joined: bool,
    os_version: &str,
    days_since_patch: i32,
    client_version: &str,
) -> (r: String)
    ensures
        r@ == values_hash(
            ValuesView {
                bitlocker_on,
                defender_healthy,
                firewall_enabled,
                entra_joined,
                os_version: os_version@,
                days_since_patch: days_since_patch as int,
                client_version: client_version@,
            },
        ),
        r@.len() == 64,
{
    let mut out: Vec<char> = Vec::new();
    push_values(
        &mut out,
        (bitlocker_on, defender_healthy, firewall_enabled, entra_joined),
        os_version,
        days_since_patch as i64,
        client_version,
    );
    let s = text::string(out.as_slice());
    let d = crypto::sha256(s.as_str().as_bytes());
    let h = to_hex(d.as_slice());
    text::string(h.as_slice())
}

/// The fields of a received or built report that its hash speaks of; `None`
/// where a field is missing or of another type.
#[derive(Debug)]
pub struct ReportFields {
    pub bitlocker_on: Option<bool>,
    pub defender_healthy: Option<bool>,
    pub firewall_enabled: Option<bool>,
    pub entra_joined: Option<bool>,
    pub os_version: Option<String>,
    pub days_since_patch: Option<i64>,
    pub client_version: Option<String>,
}

/// The values of a report, where all are there; a missing client version
/// counts as empty, and days are cut to thirty-two bits.
pub open spec fn fields_values(r: ReportFields) -> Option<ValuesView> {
    match (
        r.bitlocker_on,
        r.defender_healthy,
        r.firewall_enabled,
        r.entra_joined,
        r.os_version,
        r.days_since_patch,
    ) {
        (Some(b), Some(d), Some(f), Some(e), Some(os), Some(days)) => Some(
            ValuesView {
                bitlocker_on: b,
                defender_healthy: d,
                firewall_enabled: f,
                entra_joined: e,
                os_version: os@,
                days_since_patch: (days as i32) as int,
                client_version: match r.client_version {
                    Some(v) => v@,
                    None => ""@,
                },
            },
        ),
        _ => None,
    }
}

/// Hash of a report's values.
pub fn hash_of_report(r: &ReportFields) -> (h: Option<String>)
    ensures
        match h {
            Some(s) => fields_values(*r) matches Some(v) && s@ == values_hash(v),
            None => fields_values(*r) is None,
        },
{
    match (
        r.bitlocker_on,
        r.defender_healthy,
        r.firewall_enabled,
        r.entra_joined,
        &r.os_version,
        r.days_since_patch,
    ) {
        (Some(b), Some(d), Some(f), Some(e), Some(os), Some(days)) => {
            let version = match &r.client_version {
                Some(v) => v.as_str(),
                None => "",
            };
            Some(
                posture_values_hash(
                    b,
                    d,
                    f,
                    e,
                    os.as_str(),
                    #[verifier::truncate]
                    (days as i32),
                    version,
                ),
            )
        },
        _ => None,
    }
}

proof fn lemma_flag_differs(
    head: Seq<char>,
    a: bool,
    b: bool,
    ta: Seq<char>,
    tb: Seq<char>,
)
    requires
        a != b,
    ensures
        head + flag(a) + ta != head + flag(b) + tb,
{
    reveal_strlit("true");
    reveal_strlit("false");
    let n = head.len() as int;
    assert((head + flag(a) + ta)[n] == flag(a)[0]);
    assert((head + flag(b) + tb)[n] == flag(b)[0]);
    assert(flag(a)[0] == crate::posture_probes::truth(a)[0]);
    assert(flag(b)[0] == crate::posture_probes::truth(b)[0]);
}

/// A flag that flips changes the text that is hashed, whatever the other
/// values are; in particular a degradation is never taken for no change
/// before hashing.
pub proof fn law_flag_flip_changes_text(a: ValuesView, b: ValuesView)
    requires
        a.bitlocker_on != b.bitlocker_on || a.defender_healthy != b.defender_healthy
            || a.firewall_enabled != b.firewall_enabled || a.entra_joined != b.entra_joined,
    ensures
        values_text(a) != values_text(b),
{
    let (ta, tb) = (after_flags(a), after_flags(b));
    let e = Seq::<char>::empty();
    let (f1, f2, f3, f4) = (
        flag(a.bitlocker_on),
        flag(a.defender_healthy),
        flag(a.firewall_enabled),
        flag(a.entra_joined),
    );
    let (g1, g2, g3, g4) = (
        flag(b.bitlocker_on),
        flag(b.defender_healthy),
        flag(b.firewall_enabled),
        flag(b.entra_joined),
    );
    lemma_flags_then(a);
    lemma_flags_then(b);
    lemma_regroup(f1, f2, f3, f4, ta);
    lemma_regroup(g1, g2, g3, g4, tb);
    if a.bitlocker_on != b.bitlocker_on {
        lemma_flag_differs(
            e,
            a.bitlocker_on,
            b.bitlocker_on,
            f2 + f3 + f4 + ta,
            g2 + g3 + g4 + tb,
        );
    } else if a.defender_healthy != b.defender_healthy {
        lemma_flag_differs(
            f1,
            a.defender_healthy,
            b.defender_healthy,
            f3 + f4 + ta,
            g3 + g4 + tb,
        );
    } else if a.firewall_enabled != b.firewall_enabled {
        lemma_flag_differs(f1 + f2, a.firewall_enabled, b.firewall_enabled, f4 + ta, g4 + tb);
    } else {
        lemma_flag_differs(f1 + f2 + f3, a.entra_joined, b.entra_joined, ta, tb);
    }
}

/// What follows the flags in the canonical text.
spec fn after_flags(v: ValuesView) -> Seq<char> {
    v.os_version + "|"@ + text::decimal_int(v.days_since_patch) + "|"@ + v.client_version
}

proof fn lemma_flags_then(v: ValuesView)
    ensures
        values_text(v) == flags_text(v) + after_flags(v),
{
    assert(values_text(v) =~= flags_text(v) + after_flags(v));
}

proof fn lemma_regroup(
    f1: Seq<char>,
    f2: Seq<char>,
    f3: Seq<char>,
    f4: Seq<char>,
    t: Seq<char>,
)
    ensures
        f1 + f2 + f3 + f4 + t == Seq::<char>::empty() + f1 + (f2 + f3 + f4 + t),
        f1 + f2 + f3 + f4 + t == f1 + f2 + (f3 + f4 + t),
        f1 + f2 + f3 + f4 + t == f1 + f2 + f3 + (f4 + t),
{
    let s = f1 + f2 + f3 + f4 + t;
    assert(s =~= Seq::<char>::empty() + f1 + (f2 + f3 + f4 + t));
    assert(s =~= f1 + f2 + (f3 + f4 + t));
    assert(s =~= f1 + f2 + f3 + (f4 + t));
}

proof fn lemma_middle(h: Seq<char>, x: Seq<char>, y: Seq<char>, t: Seq<char>)
    requires
        h + x + t == h + y + t,
    ensures
        x == y,
{
    let (l, r) = (h + x + t, h + y + t);
    assert(l.len() == r.len());
    assert forall|i: int| 0 <= i < x.len() implies x[i] == y[i] by {
        assert(l[h.len() + i] == x[i]);
        assert(r[h.len() + i] == y[i]);
    }
    assert(x =~= y);
}

proof fn lemma_decimal_int_injective(a: int, b: int)
    requires
        text::decimal_int(a) == text::decimal_int(b),
    ensures
        a == b,
{
    text::lemma_decimal_value(if a < 0 {
        (-a) as nat
    } else {
        a as nat
    });
    text::lemma_decimal_value(if b < 0 {
        (-b) as nat
    } else {
        b as nat
    });
    let (da, db) = (text::decimal_int(a), text::decimal_int(b));
    if a < 0 {
        assert(da[0] == '-');
        assert(da.drop_first() =~= text::decimal((-a) as nat));
    } else {
        assert(text::is_digit(da[0]));
    }
    if b < 0 {
        assert(db[0] == '-');
        assert(db.drop_first() =~= text::decimal((-b) as nat));
    } else {
        assert(text::is_digit(db[0]));
    }
}

/// Whether exactly one of the values besides the flags differs.
pub open spec fn one_text_differs(a: ValuesView, b: ValuesView) -> bool {
    ||| a.os_version != b.os_version && a.days_since_patch == b.days_since_patch
        && a.client_version == b.client_version
    ||| a.os_version == b.os_version && a.days_since_patch != b.days_since_patch
        && a.client_version == b.client_version
    ||| a.os_version == b.os_version && a.days_since_patch == b.days_since_patch
        && a.client_version != b.client_version
}

/// A change of one other value alone also changes the text that is hashed.
pub proof fn law_single_change_changes_text(a: ValuesView, b: ValuesView)
    requires
        a.bitlocker_on == b.bitlocker_on,
        a.defender_healthy == b.defender_healthy,
        a.firewall_enabled == b.firewall_enabled,
        a.entra_joined == b.entra_joined,
        one_text_differs(a, b),
    ensures
        values_text(a) != values_text(b),
{
    let h = flags_text(a);
    let (da, db) = (text::decimal_int(a.days_since_patch), text::decimal_int(b.days_since_patch));
    let e = Seq::<char>::empty();
    if values_text(a) == values_text(b) {
        if a.os_version != b.os_version {
            let t = "|"@ + da + "|"@ + a.client_version;
            assert(values_text(a) =~= h + a.os_version + t);
            assert(values_text(b) =~= h + b.os_version + t);
            lemma_middle(h, a.os_version, b.os_version, t);
        } else if a.days_since_patch != b.days_since_patch {
            let g = h + a.os_version + "|"@;
            let t = "|"@ + a.client_version;
            assert(values_text(a) =~= g + da + t);
            assert(values_text(b) =~= g + db + t);
            lemma_middle(g, da, db, t);
            lemma_decimal_int_injective(a.days_since_patch, b.days_since_patch);
        } else {
            let g = h + a.os_version + "|"@ + da + "|"@;
            assert(values_text(a) =~= g + a.client_version + e);
            assert(values_text(b) =~= g + b.client_version + e);
            lemma_middle(g, a.client_version, b.client_version, e);
        }
    }
}

// ---------------------------------------------------------------------
// Reading the signed text back
// ---------------------------------------------------------------------

proof fn lemma_digits_hold_no(n: int, c: char)
    requires
        !text::is_digit(c),
        c != '-',
    ensures
        !text::decimal_int(n).contains(c),
        n >= 0 ==> !text::decimal(n as nat).contains(c),
{
    let m: nat = if n < 0 {
        (-n) as nat
    } else {
        n as nat
    };
    text::lemma_decimal_value(m);
    let d = text::decimal_int(n);
    if d.contains(c) {
        let i = choose|i: int| 0 <= i < d.len() && d[i] == c;
        if n < 0 {
            assert(i > 0 ==> d[i] == text::decimal(m)[i - 1]);
        }
        assert(text::is_digit(c));
    }
}

/// The parts of the values between the bars.
spec fn value_parts(v: ValuesView) -> Seq<Seq<char>> {
    seq![truth_word(v.bitlocker_on)] + (seq![truth_word(v.defender_healthy)] + (seq![
        truth_word(v.firewall_enabled),
    ] + (seq![truth_word(v.entra_joined)] + (seq![v.os_version] + (seq![
        text::decimal_int(v.days_since_patch),
    ] + seq![v.client_version])))))
}

/// How a flag is written.
pub open spec fn truth_word(b: bool) -> Seq<char> {
    if b {
        "true"@
    } else {
        "false"@
    }
}

proof fn lemma_values_joined(v: ValuesView)
    ensures
        values_text(v) == text::joined(value_parts(v), seq!['|']),
        value_parts(v).len() == 7,
{
    reveal_strlit("|");
    let bar = seq!['|'];
    assert("|"@ =~= bar);
    let p7 = seq![v.client_version];
    let p6 = seq![text::decimal_int(v.days_since_patch)] + p7;
    let p5 = seq![v.os_version] + p6;
    let p4 = seq![truth_word(v.entra_joined)] + p5;
    let p3 = seq![truth_word(v.firewall_enabled)] + p4;
    let p2 = seq![truth_word(v.defender_healthy)] + p3;
    text::lemma_joined_front(text::decimal_int(v.days_since_patch), p7, bar);
    text::lemma_joined_front(v.os_version, p6, bar);
    text::lemma_joined_front(truth_word(v.entra_joined), p5, bar);
    text::lemma_joined_front(truth_word(v.firewall_enabled), p4, bar);
    text::lemma_joined_front(truth_word(v.defender_healthy), p3, bar);
    text::lemma_joined_front(truth_word(v.bitlocker_on), p2, bar);
    assert(text::joined(p7, bar) == v.client_version);
    let t5 = text::joined(p5, bar);
    let d = text::decimal_int(v.days_since_patch);
    lemma_nested(v.os_version + bar, d + bar, Seq::empty(), Seq::empty(), v.client_version);
    assert(t5 =~= after_flags(v));
    lemma_flags_then(v);
    lemma_nested(
        flag(v.bitlocker_on),
        flag(v.defender_healthy),
        flag(v.firewall_enabled),
        flag(v.entra_joined),
        t5,
    );
}

proof fn lemma_nested(
    f1: Seq<char>,
    f2: Seq<char>,
    f3: Seq<char>,
    f4: Seq<char>,
    t: Seq<char>,
)
    ensures
        f1 + (f2 + (f3 + (f4 + t))) == f1 + f2 + f3 + f4 + t,
{
    assert(f1 + (f2 + (f3 + (f4 + t))) =~= f1 + f2 + f3 + f4 + t);
}

proof fn lemma_value_parts_hold_no_bar(v: ValuesView)
    requires
        !v.os_version.contains('|'),
        !v.client_version.contains('|'),
    ensures
        forall|k: int| 0 <= k < value_parts(v).len() ==> !(#[trigger] value_parts(v)[k]).contains(
            '|',
        ),
{
    reveal_strlit("true");
    reveal_strlit("false");
    lemma_digits_hold_no(v.days_since_patch, '|');
    let p = value_parts(v);
    assert(p[0] == truth_word(v.bitlocker_on));
    assert(p[1] == truth_word(v.defender_healthy));
    assert(p[2] == truth_word(v.firewall_enabled));
    assert(p[3] == truth_word(v.entra_joined));
    assert(p[4] == v.os_version);
    assert(p[5] == text::decimal_int(v.days_since_patch));
    assert(p[6] == v.client_version);
}

/// Law: the text that is hashed reads back. Cut at its bars it is the four
/// flags in the order encryption, antivirus, firewall, domain, each as `true`
/// or `false`, and the version of the system, the days since its last patch
/// and the version of the client.
pub proof fn law_hashed_text_reads_back(v: ValuesView)
    requires
        !v.os_version.contains('|'),
        !v.client_version.contains('|'),
    ensures
        ({
            let p = text::split(values_text(v), '|');
            &&& p.len() == 7
            &&& p[0] == truth_word(v.bitlocker_on)
            &&& p[1] == truth_word(v.defender_healthy)
            &&& p[2] == truth_word(v.firewall_enabled)
            &&& p[3] == truth_word(v.entra_joined)
            &&& p[4] == v.os_version
            &&& p[5] == text::decimal_int(v.days_since_patch)
            &&& p[6] == v.client_version
        }),
{
    lemma_values_joined(v);
    lemma_value_parts_hold_no_bar(v);
    text::lemma_joined_split(value_parts(v), '|');
}

/// A signed text without the mark of a specification.
pub open spec fn skip_mark(t: Seq<char>, marked: bool) -> Seq<char> {
    if marked {
        text::rest(t, "v2|"@.len() as int)
    } else {
        t
    }
}

/// Law: the time is signed. Behind `v2|` where a specification is in force,
/// and else at its very start, the signed text holds digits that stand for the
/// time, up to the first bar, and the values follow.
pub proof fn law_signed_text_begins_with_time(
    ts: nat,
    v: ValuesView,
    ext: Option<(i64, Seq<(Seq<char>, Seq<char>)>)>,
)
    ensures
        ({
            let t = canonical(ts, v, ext);
            let s = skip_mark(t, ext is Some);
            let k = text::until(s, '|') as int;
            &&& ext is Some ==> text::has_prefix(t, "v2|"@)
            &&& 0 < k < s.len()
            &&& text::is_digits(s.subrange(0, k))
            &&& text::dec_value(s.subrange(0, k)) == ts
            &&& text::has_prefix(text::rest(s, k + 1), values_text(v))
            &&& ext is None ==> text::rest(s, k + 1) == values_text(v)
        }),
{
    reveal_strlit("|");
    reveal_strlit("v2|");
    text::lemma_decimal_value(ts);
    lemma_digits_hold_no(ts as int, '|');
    let d = text::decimal(ts);
    let t = canonical(ts, v, ext);
    let s = skip_mark(t, ext is Some);
    let tail = match ext {
        None => Seq::<char>::empty(),
        Some((version, e)) => "|"@ + text::decimal_int(version as int) + "|"@ + ext_text(
            sorted_ext(e),
        ),
    };
    assert(s =~= d + "|"@ + (values_text(v) + tail));
    assert forall|i: int| 0 <= i < d.len() implies #[trigger] s[i] != '|' by {
        assert(d.contains(d[i]));
        assert(s[i] == d[i]);
    }
    text::lemma_until_unique(s, '|', d.len() as int);
    assert(s.subrange(0, d.len() as int) =~= d);
    assert(text::rest(s, d.len() as int + 1) =~= values_text(v) + tail);
    assert((values_text(v) + tail).subrange(0, values_text(v).len() as int) =~= values_text(v));
    if ext is Some {
        assert(t.subrange(0, 3) =~= "v2|"@);
    } else {
        assert(values_text(v) + tail =~= values_text(v));
    }
}

/// Law: reports of different times sign different texts, whatever else they
/// hold; and so do a report under a specification and one without.
pub proof fn law_times_sign_differently(
    a: nat,
    b: nat,
    v: ValuesView,
    w: ValuesView,
    ext: Option<(i64, Seq<(Seq<char>, Seq<char>)>)>,
    other: Option<(i64, Seq<(Seq<char>, Seq<char>)>)>,
)
    requires
        a != b || (ext is Some) != (other is Some),
    ensures
        canonical(a, v, ext) != canonical(b, w, other),
{
    law_signed_text_begins_with_time(a, v, ext);
    law_signed_text_begins_with_time(b, w, other);
    reveal_strlit("v2|");
    let (s, t) = (canonical(a, v, ext), canonical(b, w, other));
    if s == t && (ext is Some) != (other is Some) {
        let plain = skip_mark(s, false);
        let k = text::until(plain, '|') as int;
        assert(plain =~= s);
        assert(s.subrange(0, 3) == "v2|"@);
        assert(s.subrange(0, 3)[0] == 'v');
        assert(s.subrange(0, k)[0] == 'v');
    }
}

/// Law: the signed text reads back. Cut at its bars it holds the time, every
/// value, and under a specification the mark `v2` in front and the version and
/// the extensions behind.
#[verifier::spinoff_prover]
#[verifier::rlimit(60)]
pub proof fn law_signed_text_reads_back(
    ts: nat,
    v: ValuesView,
    ext: Option<(i64, Seq<(Seq<char>, Seq<char>)>)>,
)
    requires
        !v.os_version.contains('|'),
        !v.client_version.contains('|'),
        ext matches Some((_, e)) ==> !ext_text(sorted_ext(e)).contains('|'),
    ensures
        ({
            let p = text::split(canonical(ts, v, ext), '|');
            let at: int = if ext is Some {
                1
            } else {
                0
            };
            &&& ext is Some ==> p[0] == "v2"@
            &&& p[at] == text::decimal(ts)
            &&& p[at + 1] == truth_word(v.bitlocker_on)
            &&& p[at + 2] == truth_word(v.defender_healthy)
            &&& p[at + 3] == truth_word(v.firewall_enabled)
            &&& p[at + 4] == truth_word(v.entra_joined)
            &&& p[at + 5] == v.os_version
            &&& p[at + 6] == text::decimal_int(v.days_since_patch)
            &&& p[at + 7] == v.client_version
            &&& match ext {
                None => p.len() == 8,
                Some((version, e)) => p.len() == 11 && p[9] == text::decimal_int(version as int)
                    && p[10] == ext_text(sorted_ext(e)),
            }
        }),
{
    reveal_strlit("|");
    reveal_strlit("v2");
    reveal_strlit("v2|");
    let bar = seq!['|'];
    assert("|"@ =~= bar);
    lemma_values_joined(v);
    lemma_value_parts_hold_no_bar(v);
    lemma_digits_hold_no(ts as int, '|');
    let vp = value_parts(v);
    let core = seq![text::decimal(ts)] + vp;
    text::lemma_joined_front(text::decimal(ts), vp, bar);
    assert forall|k: int| 0 <= k < core.len() implies !(#[trigger] core[k]).contains('|') by {
        if k > 0 {
            assert(core[k] == vp[k - 1]);
        }
    }
    match ext {
        None => {
            text::lemma_joined_split(core, '|');
        },
        Some((version, e)) => {
            lemma_digits_hold_no(version as int, '|');
            let dv = text::decimal_int(version as int);
            let x = ext_text(sorted_ext(e));
            let a = core.push(dv);
            let b = a.push(x);
            assert(a.drop_last() =~= core);
            assert(b.drop_last() =~= a);
            let all = seq!["v2"@] + b;
            text::lemma_joined_front("v2"@, b, bar);
            assert("v2"@ + bar =~= "v2|"@);
            let c = text::joined(core, bar);
            assert(text::joined(a, bar) == c + bar + dv);
            assert(text::joined(b, bar) == c + bar + dv + bar + x);
            assert("v2|"@ + c + bar + dv + bar + x =~= "v2|"@ + (c + bar + dv + bar + x));
            assert forall|k: int| 0 <= k < all.len() implies !(#[trigger] all[k]).contains('|') by {
                if 0 < k <= core.len() {
                    assert(all[k] == core[k - 1]);
                }
            }
            text::lemma_joined_split(all, '|');
        },
    }
}

/// Law: the extensions read back. Cut at its commas, the text holds one piece
/// for every extension, in order, and each piece is the id, the first equals
/// sign and the value.
pub proof fn law_extensions_read_back(e: Seq<(Seq<char>, Seq<char>)>, i: int)
    requires
        0 <= i < e.len(),
        forall|k: int|
            0 <= k < e.len() ==> !(#[trigger] e[k]).0.contains(',') && !e[k].1.contains(',')
                && !e[k].0.contains('='),
    ensures
        ({
            let p = text::split(ext_text(e), ',');
            let n = text::until(p[i], '=') as int;
            &&& p.len() == e.len()
            &&& n < p[i].len()
            &&& p[i].subrange(0, n) == e[i].0
            &&& text::rest(p[i], n + 1) == e[i].1
        }),
{
    reveal_strlit("=");
    reveal_strlit(",");
    assert(","@ =~= seq![',']);
    let q = e.map_values(|p: (Seq<char>, Seq<char>)| p.0 + "="@ + p.1);
    assert forall|k: int| 0 <= k < q.len() implies !(#[trigger] q[k]).contains(',') by {
        assert(q[k] == e[k].0 + "="@ + e[k].1);
        if q[k].contains(',') {
            let j = choose|j: int| 0 <= j < q[k].len() && q[k][j] == ',';
            let n = e[k].0.len();
            if j < n {
                assert(e[k].0[j] == ',');
            } else if j > n {
                assert(e[k].1[j - n - 1] == ',');
            }
        }
    }
    text::lemma_joined_split(q, ',');
    let s = q[i];
    let n = e[i].0.len() as int;
    assert(s == e[i].0 + "="@ + e[i].1);
    assert forall|j: int| 0 <= j < n implies #[trigger] s[j] != '=' by {
        assert(s[j] == e[i].0[j]);
        assert(e[i].0.contains(e[i].0[j]));
    }
    text::lemma_until_unique(s, '=', n);
    assert(s.subrange(0, n) =~= e[i].0);
    assert(text::rest(s, n + 1) =~= e[i].1);
}

/// Law: what a report says comes from the snapshot where no simulation is
/// asked for: the system's version and patch age as found, `unknown` and -1
/// where they are not.
pub proof fn law_report_says_what_was_found(
    s: crate::posture_collector::SnapshotView,
    sim: Seq<char>,
)
    ensures
        s.os_version matches Some(o) ==> values_of(s, sim).os_version == o,
        s.os_version is None ==> values_of(s, sim).os_version == "unknown"@,
        s.days_since_patch matches Some(d) ==> values_of(s, sim).days_since_patch == d,
        s.days_since_patch is None ==> values_of(s, sim).days_since_patch == -1,
        values_of(s, sim).client_version == CLIENT_VERSION@,
        values_of(s, "healthy"@).bitlocker_on,
        values_of(s, "healthy"@).defender_healthy,
        values_of(s, "healthy"@).firewall_enabled,
        !values_of(s, "defender_off"@).defender_healthy,
        !values_of(s, "bitlocker_off"@).bitlocker_on,
        !values_of(s, "firewall_off"@).firewall_enabled,
{
    reveal_strlit("healthy");
    reveal_strlit("defender_off");
    reveal_strlit("bitlocker_off");
    reveal_strlit("firewall_off");
    assert("healthy"@.len() == 7);
}

// ---------------------------------------------------------------------
// Reporter
// ---------------------------------------------------------------------

/// A full report goes out at least every this many ticks.
pub const FULL_REFRESH_TICKS: u64 = 10;

/// What became of building the report of a tick.
#[derive(Debug)]
pub enum Built {
    /// A report, with the hash of its values.
    Report(Option<String>),
    /// There is no posture key.
    NoKey,
    /// It could not be built.
    Failed,
}

/// What a tick sends first.
#[derive(Clone, Copy, Debug, PartialEq, Eq, Structural)]
pub enum Push {
    Full,
    /// The hash alone, as a sign of life.
    Marker,
    /// Nothing; counted as skipped.
    Skip,
    /// Nothing; counted as an error.
    Fail,
}

/// How the controller answered a full report.
#[derive(Clone, Copy, Debug, PartialEq, Eq, Structural)]
pub enum FullAnswer {
    /// Taken, with what it says of the device's health.
    Taken(Option<bool>),
    /// Rejected, or not reachable.
    Refused,
}

/// The periodic reporter: the hash last taken in full, and the tick within
/// the refresh cycle.
#[derive(Debug)]
pub struct Reporter {
    pub last_hash: Option<String>,
    pub tick: u64,
}

impl Reporter {
    /// The tick stays within the refresh cycle.
    pub open spec fn wf(&self) -> bool {
        self.tick < FULL_REFRESH_TICKS
    }

    /// Whether a report with this hash goes out in full.
    pub open spec fn wants_full(&self, hash: Option<String>) -> bool {
        self.tick == 0 || hash is None || crate::posture_collector::opt_text(hash)
            != crate::posture_collector::opt_text(self.last_hash)
    }

    /// A reporter that has sent nothing.
    pub fn new() -> (r: Reporter)
        ensures
            r.wf(),
            r.last_hash is None,
            r.tick == 0,
    {
        Reporter { last_hash: None, tick: 0 }
    }

    /// What to send on this tick.
    pub fn decide(&self, built: &Built) -> (r: Push)
        requires
            self.wf(),
        ensures
            r == match *built {
                Built::Report(h) => if self.wants_full(h) {
                    Push::Full
                } else {
                    Push::Marker
                },
                Built::NoKey => Push::Skip,
                Built::Failed => Push::Fail,
            },
    {
        match built {
            Built::Report(h) => {
                let unchanged = match (h, &self.last_hash) {
                    (Some(a), Some(b)) => text::str_eq(a.as_str(), b.as_str()),
                    _ => false,
                };
                if unchanged && self.tick != 0 {
                    Push::Marker
                } else {
                    Push::Full
                }
            },
            Built::NoKey => Push::Skip,
            Built::Failed => Push::Fail,
        }
    }

    /// What follows a marker: nothing where the controller acknowledged it as
    /// unchanged, else a full report at once.
    pub fn after_marker(&self, acknowledged: bool) -> (r: Option<Push>)
        ensures
            r == if acknowledged {
                None
            } else {
                Some(Push::Full)
            },
    {
        if acknowledged {
            None
        } else {
            Some(Push::Full)
        }
    }

    /// Takes the answer to a full report; how it is counted.
    pub fn after_full(&mut self, answer: FullAnswer, hash: Option<String>) -> (label: &'static str)
        ensures
            final(self).tick == old(self).tick,
            answer is Taken ==> final(self).last_hash == hash,
            answer is Refused ==> final(self).last_hash == old(self).last_hash,
            label@ == match answer {
                FullAnswer::Taken(Some(false)) => "unhealthy"@,
                FullAnswer::Taken(_) => "healthy"@,
                FullAnswer::Refused => "error"@,
            },
    {
        match answer {
            FullAnswer::Taken(h) => {
                self.last_hash = hash;
                match h {
                    Some(false) => "unhealthy",
                    _ => "healthy",
                }
            },
            FullAnswer::Refused => "error",
        }
    }

    /// Ends the tick.
    pub fn end_tick(&mut self)
        requires
            old(self).wf(),
        ensures
            final(self).wf(),
            final(self).last_hash == old(self).last_hash,
            final(self).tick == (old(self).tick + 1) % FULL_REFRESH_TICKS as int,
    {
        self.tick = if self.tick + 1 == FULL_REFRESH_TICKS {
            0
        } else {
            self.tick + 1
        };
    }
}

/// Values that are not the ones last taken are pushed in full, whatever the
/// tick; and the first tick of every cycle pushes in full, whatever the
/// values.
pub proof fn law_change_is_pushed_in_full(r: Reporter, hash: Option<String>)
    ensures
        crate::posture_collector::opt_text(hash) != crate::posture_collector::opt_text(r.last_hash)
            ==> r.wants_full(hash),
        r.tick == 0 ==> r.wants_full(hash),
{
}

/// Within any ten ticks in a row, one comes at the start of a cycle.
pub proof fn law_full_refresh_is_bounded(tick: int)
    requires
        0 <= tick < FULL_REFRESH_TICKS,
    ensures
        exists|k: int|
            0 <= k < FULL_REFRESH_TICKS && #[trigger] cycle_place(tick, k) == 0,
{
    let k = if tick == 0 {
        0
    } else {
        FULL_REFRESH_TICKS - tick
    };
    assert(cycle_place(tick, k) == 0);
}

/// Place in the cycle `k` ticks later.
pub open spec fn cycle_place(tick: int, k: int) -> int {
    (tick + k) % (FULL_REFRESH_TICKS as int)
}

/// Address that posture reports go to.
pub fn report_url(controller_url: &str) -> (r: String)
    ensures
        r@ == text::drop_char(controller_url@, '/') + "/v1/posture"@,
{
    let cs = text::chars(controller_url);
    let mut u = text::trim_end_char(cs.as_slice(), '/');
    text::push_str(&mut u, "/v1/posture");
    text::string(u.as_slice())
}

/// Whether a fetched specification version differs from the one in force; a
/// version that is not positive stands for none.
pub fn spec_changed(current: Option<i64>, fetched: i64) -> (r: bool)
    ensures
        r == (current != if fetched > 0 {
            Some(fetched)
        } else {
            None
        }),
{
    match current {
        Some(c) => !(fetched > 0 && c == fetched),
        None => fetched > 0,
    }
}

/// Law: a report is hashed exactly if it has the four flags, the system's
/// version and the patch age; its values are those fields, with no client
/// version where it has none.
pub proof fn law_fields_of_a_report(r: ReportFields)
    ensures
        fields_values(r) is Some <==> r.bitlocker_on is Some && r.defender_healthy is Some
            && r.firewall_enabled is Some && r.entra_joined is Some && r.os_version is Some
            && r.days_since_patch is Some,
        fields_values(r) matches Some(v) ==> {
            &&& r.bitlocker_on == Some(v.bitlocker_on)
            &&& r.defender_healthy == Some(v.defender_healthy)
            &&& r.firewall_enabled == Some(v.firewall_enabled)
            &&& r.entra_joined == Some(v.entra_joined)
            &&& r.os_version->Some_0@ == v.os_version
            &&& i32::MIN <= r.days_since_patch->Some_0 <= i32::MAX ==> r.days_since_patch->Some_0
                == v.days_since_patch
            &&& r.client_version matches Some(c) ==> c@ == v.client_version
            &&& r.client_version is None ==> v.client_version.len() == 0
        },
{
    reveal_strlit("");
}

/// Law: after a full report was taken, the same values go out as a marker and
/// any other values in full, until the cycle starts anew.
pub proof fn law_marker_only_for_the_same_values(r: Reporter, hash: Option<String>)
    ensures
        !r.wants_full(hash) ==> hash is Some && r.last_hash is Some && hash->Some_0@
            == r.last_hash->Some_0@ && r.tick != 0,
        hash is Some && r.last_hash is Some && hash->Some_0@ == r.last_hash->Some_0@ && r.tick != 0
            ==> !r.wants_full(hash),
{
}

/// Law: a key is held for the one device it was read for.
pub proof fn law_key_is_held_for_its_device(c: KeyCache, id: String, key: [u8; 32], other: Seq<char>)
    requires
        c.entry == Some((id, key)),
    ensures
        c.held(id@) == Some(key@),
        other != id@ ==> c.held(other) is None,
{
}

/// Law: signing puts an extension's values under its id, and the ids in order,
/// and leaves none out.
pub proof fn law_extensions_are_ordered(e: Seq<(Seq<char>, Seq<char>)>, i: int, j: int)
    requires
        0 <= i < j < sorted_ext(e).len(),
    ensures
        !text::precedes(sorted_ext(e)[j].0, sorted_ext(e)[i].0),
        sorted_ext(e).len() == e.len(),
{
    law_sorted_ext(e, sorted_ext(e)[i].0);
}

/// Law: the model of a report's values holds each under its own name.
pub proof fn law_values_model(v: Values)
    ensures
        v@.bitlocker_on == v.bitlocker_on,
        v@.defender_healthy == v.defender_healthy,
        v@.firewall_enabled == v.firewall_enabled,
        v@.entra_joined == v.entra_joined,
        v@.os_version == v.os_version@,
        v@.days_since_patch == v.days_since_patch,
        v@.client_version == v.client_version@,
{
}

} // verus!
