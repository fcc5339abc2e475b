//! Device posture: what one collection pass found, and the single slot that
//! serves the last pass while a worker refreshes it in the background.

use vstd::prelude::*;


pub mod linux;
pub mod macos;
pub mod windows;

verus! {

/// Version this client reports.
pub const CLIENT_VERSION: &'static str = "0.1.0";

/// Age in seconds at which a collected snapshot counts as stale.
pub const TTL_SECS: u64 = 30;

/// Milliseconds after which a collection worker counts as wedged.
pub const COLLECT_DEADLINE_MS: u64 = 15_000;

/// One collected posture. `None` stands for a signal that could not be
/// determined.
#[derive(Debug)]
pub struct Snapshot {
    pub bitlocker_on: Option<bool>,
    pub defender_healthy: Option<bool>,
    pub firewall_enabled: Option<bool>,
    pub os_version: Option<String>,
    pub days_since_patch: Option<i64>,
    pub domain_joined: Option<bool>,
    /// Age of the slot that served this snapshot; `None` for an empty slot.
    pub slot_age_secs: Option<i64>,
}

/// Model of a [`Snapshot`].
pub struct SnapshotView {
    pub bitlocker_on: Option<bool>,
    pub defender_healthy: Option<bool>,
    pub firewall_enabled: Option<bool>,
    pub os_version: Option<Seq<char>>,
    pub days_since_patch: Option<i64>,
    pub domain_joined: Option<bool>,
    pub slot_age_secs: Option<i64>,
}

/// The characters of an optional string.
pub open spec fn opt_text(s: Option<String>) -> Option<Seq<char>> {
    match s {
        Some(v) => Some(v@),
        None => None,
    }
}

/// A copy of an optional string.
pub fn copy_opt(s: &Option<String>) -> (r: Option<String>)
    ensures
        opt_text(r) == opt_text(*s),
{
    match s {
        Some(v) => Some(v.clone()),
        None => None,
    }
}

impl View for Snapshot {
    type V = SnapshotView;

    open spec fn view(&self) -> SnapshotView {
        SnapshotView {
            bitlocker_on: self.bitlocker_on,
            defender_healthy: self.defender_healthy,
            firewall_enabled: self.firewall_enabled,
            os_version: opt_text(self.os_version),
            days_since_patch: self.days_since_patch,
            domain_joined: self.domain_joined,
            slot_age_secs: self.slot_age_secs,
        }
    }
}

impl SnapshotView {
    /// The same findings served at another slot age.
    pub open spec fn aged(self, age: Option<i64>) -> SnapshotView {
        SnapshotView { slot_age_secs: age, ..self }
    }

    /// Nothing determined, nothing collected.
    pub open spec fn unknown() -> SnapshotView {
        SnapshotView {
            bitlocker_on: None,
            defender_healthy: None,
            firewall_enabled: None,
            os_version: None,
            days_since_patch: None,
            domain_joined: None,
            slot_age_secs: None,
        }
    }
}

/// How a slot age is reported.
pub open spec fn class_of(age: Option<i64>) -> Seq<char> {
    match age {
        None => "empty"@,
        Some(a) => if a < TTL_SECS {
            "fresh"@
        } else {
            "stale"@
        },
    }
}

impl Snapshot {
    /// Reporting class of the slot that served this snapshot.
    pub fn slot_class(&self) -> (r: &'static str)
        ensures
            r@ == class_of(self.slot_age_secs),
    {
        match self.slot_age_secs {
            None => "empty",
            Some(a) => if a < TTL_SECS as i64 {
                "fresh"
            } else {
                "stale"
            },
        }
    }

    /// The snapshot of an empty slot.
    pub fn unknown() -> (r: Snapshot)
        ensures
            r@ == SnapshotView::unknown(),
    {
        Snapshot {
            bitlocker_on: None,
            defender_healthy: None,
            firewall_enabled: None,
            os_version: None,
            days_since_patch: None,
            domain_joined: None,
            slot_age_secs: None,
        }
    }

    fn at_age(&self, age: Option<i64>) -> (r: Snapshot)
        ensures
            r@ == self@.aged(age),
    {
        Snapshot {
            bitlocker_on: self.bitlocker_on,
            defender_healthy: self.defender_healthy,
            firewall_enabled: self.firewall_enabled,
            os_version: copy_opt(&self.os_version),
            days_since_patch: self.days_since_patch,
            domain_joined: self.domain_joined,
            slot_age_secs: age,
        }
    }
}

/// Whole seconds from `at` to `now`, both in milliseconds; never negative.
pub open spec fn elapsed_secs(at: int, now: int) -> int {
    if now < at {
        0
    } else {
        (now - at) / 1000
    }
}

fn age_secs(at: u64, now: u64) -> (r: i64)
    ensures
        r == elapsed_secs(at as int, now as int),
{
    if now < at {
        0
    } else {
        ((now - at) / 1000) as i64
    }
}

/// What a refresh request leads to.
#[derive(Clone, Copy, Debug, PartialEq, Eq, Structural)]
pub enum Refresh {
    /// The slot is fresh, or a worker is already on it.
    Idle,
    /// Start a worker.
    Start,
    /// The running worker is wedged: count a failure and start another.
    Replace,
}

/// What a bounded wait for a fresh snapshot does next.
#[derive(Debug)]
pub enum Wait {
    /// A fresh snapshot is there.
    Ready(Snapshot),
    /// The wait is over without one; the last known findings.
    TimedOut(Snapshot),
    /// Look again later.
    Again,
}

/// Model of a [`Collector`].
pub struct CollectorView {
    /// Time and findings of the last pass that finished.
    pub slot: Option<(int, SnapshotView)>,
    /// Start of the running pass.
    pub collecting: Option<int>,
}

impl CollectorView {
    /// Whether the slot wants a refresh at `now`.
    pub open spec fn stale(self, now: int) -> bool {
        match self.slot {
            Some((at, _)) => elapsed_secs(at, now) >= TTL_SECS,
            None => true,
        }
    }

    /// The snapshot served at `now`.
    pub open spec fn served(self, now: int) -> SnapshotView {
        match self.slot {
            Some((at, s)) => s.aged(Some(elapsed_secs(at, now) as i64)),
            None => SnapshotView::unknown(),
        }
    }

    /// Answer to a refresh request at `now`.
    pub open spec fn refresh(self, now: int) -> Refresh {
        if !self.stale(now) {
            Refresh::Idle
        } else {
            match self.collecting {
                Some(t0) => if now - t0 < COLLECT_DEADLINE_MS {
                    Refresh::Idle
                } else {
                    Refresh::Replace
                },
                None => Refresh::Start,
            }
        }
    }

    /// State after a refresh request at `now`.
    pub open spec fn refreshed(self, now: int) -> CollectorView {
        if self.refresh(now) is Idle {
            self
        } else {
            CollectorView { slot: self.slot, collecting: Some(now) }
        }
    }
}

/// The posture slot and its single background worker. Times are milliseconds
/// of a monotonic clock.
#[derive(Debug)]
pub struct Collector {
    slot: Option<(u64, Snapshot)>,
    collecting: Option<u64>,
}

impl View for Collector {
    type V = CollectorView;

    closed spec fn view(&self) -> CollectorView {
        CollectorView {
            slot: match self.slot {
                Some((at, s)) => Some((at as int, s@)),
                None => None,
            },
            collecting: match self.collecting {
                Some(t) => Some(t as int),
                None => None,
            },
        }
    }
}

impl Collector {
    /// An empty slot with no worker.
    pub fn new() -> (r: Collector)
        ensures
            r@ == (CollectorView { slot: None, collecting: None }),
    {
        Collector { slot: None, collecting: None }
    }

    /// Serves the last findings without waiting for any worker.
    pub fn collect_cached(&self, now: u64) -> (r: Snapshot)
        ensures
            r@ == self@.served(now as int),
    {
        match &self.slot {
            Some((at, s)) => s.at_age(Some(age_secs(*at, now))),
            None => Snapshot::unknown(),
        }
    }

    /// Decides whether a worker is to start at `now`, and notes its start.
    pub fn kick_refresh(&mut self, now: u64) -> (r: Refresh)
        ensures
            r == old(self)@.refresh(now as int),
            final(self)@ == old(self)@.refreshed(now as int),
    {
        let stale = match &self.slot {
            Some((at, _)) => age_secs(*at, now) >= TTL_SECS as i64,
            None => true,
        };
        if !stale {
            return Refresh::Idle;
        }
        let r = match self.collecting {
            Some(t0) => {
                if now < t0 || now - t0 < COLLECT_DEADLINE_MS {
                    return Refresh::Idle;
                }
                Refresh::Replace
            },
            None => Refresh::Start,
        };
        self.collecting = Some(now);
        r
    }

    /// Takes the outcome of a worker: its findings, or `None` where it
    /// panicked. Whether that counts as a failure.
    pub fn worker_done(&mut self, now: u64, found: Option<Snapshot>) -> (failed: bool)
        ensures
            failed == (found is None),
            final(self)@ == (CollectorView {
                slot: match found {
                    Some(s) => Some((now as int, s@)),
                    None => old(self)@.slot,
                },
                collecting: None,
            }),
    {
        self.collecting = None;
        match found {
            Some(s) => {
                self.slot = Some((now, s));
                false
            },
            None => true,
        }
    }

    /// One look of a wait for fresh findings that ends at `deadline`.
    pub fn collect_fresh_bounded(&self, now: u64, deadline: u64) -> (r: Wait)
        ensures
            match r {
                Wait::Ready(s) => !self@.stale(now as int) && s@ == self@.served(now as int),
                Wait::TimedOut(s) => self@.stale(now as int) && now >= deadline && s@
                    == self@.served(now as int),
                Wait::Again => self@.stale(now as int) && now < deadline,
            },
    {
        let fresh = match &self.slot {
            Some((at, _)) => age_secs(*at, now) < TTL_SECS as i64,
            None => false,
        };
        if fresh {
            Wait::Ready(self.collect_cached(now))
        } else if now >= deadline {
            Wait::TimedOut(self.collect_cached(now))
        } else {
            Wait::Again
        }
    }
}

/// Findings are classed "fresh" exactly while the slot wants no refresh, and
/// "empty" only where nothing was ever collected.
pub proof fn law_class_tells_staleness(c: CollectorView, now: int)
    requires
        now <= u64::MAX,
        c.slot matches Some((at, _)) ==> 0 <= at,
    ensures
        class_of(c.served(now).slot_age_secs) == "fresh"@ <==> !c.stale(now),
        class_of(c.served(now).slot_age_secs) == "empty"@ <==> c.slot is None,
{
    reveal_strlit("fresh");
    reveal_strlit("stale");
    reveal_strlit("empty");
    assert("fresh"@[0] == 'f' && "stale"@[0] == 's' && "empty"@[0] == 'e');
}

/// Once a worker was started, no other starts before it is done or its
/// deadline passes.
pub proof fn law_one_worker(c: CollectorView, started: int, now: int)
    requires
        c.refresh(started) != Refresh::Idle,
        now - started < COLLECT_DEADLINE_MS,
    ensures
        c.refreshed(started).refresh(now) == Refresh::Idle,
        c.refreshed(started).refreshed(now) == c.refreshed(started),
{
}

/// A worker that panicked leaves the last findings served, and does not
/// block the next one.
pub proof fn law_failed_worker_unblocks(before: CollectorView, after: CollectorView, now: int)
    requires
        after == (CollectorView { slot: before.slot, collecting: None }),
    ensures
        after.served(now) == before.served(now),
        after.stale(now) ==> after.refresh(now) == Refresh::Start,
{
}

/// The largest of the dates that are known.
pub open spec fn newest(ds: Seq<Option<int>>) -> Option<int>
    decreases ds.len(),
{
    if ds.len() == 0 {
        None
    } else {
        match (newest(ds.drop_last()), ds.last()) {
            (Some(a), Some(b)) => Some(if a < b {
                b
            } else {
                a
            }),
            (Some(a), None) => Some(a),
            (None, b) => b,
        }
    }
}

/// The larger of two dates, of which either may be unknown.
fn later(a: Option<i64>, b: Option<i64>) -> (r: Option<i64>)
    ensures
        r == match (a, b) {
            (Some(x), Some(y)) => Some(if x < y {
                y
            } else {
                x
            }),
            (Some(x), None) => Some(x),
            (None, y) => y,
        },
{
    match (a, b) {
        (Some(x), Some(y)) => Some(if x < y {
            y
        } else {
            x
        }),
        (Some(x), None) => Some(x),
        (None, y) => y,
    }
}

/// Whole days from `since` to `now`; a date in the future counts as today.
pub open spec fn days_between(now: int, since: int) -> int {
    if now <= since {
        0
    } else {
        (now - since) / 86_400
    }
}

/// Days since a patch; clock skew clamps to 0.
pub fn patch_age_from(now_unix: i64, mtime_unix: i64) -> (r: i64)
    ensures
        r == days_between(now_unix as int, mtime_unix as int),
{
    if now_unix <= mtime_unix {
        0
    } else {
        let d: u128 = (now_unix as i128 - mtime_unix as i128) as u128;
        (d / 86_400) as i64
    }
}

/// An optional number as a mathematical integer.
pub open spec fn opt_int(x: Option<i64>) -> Option<int> {
    match x {
        Some(v) => Some(v as int),
        None => None,
    }
}

/// Law: ages are whole seconds, rounded down, and a clock that steps back
/// makes nothing older.
pub proof fn law_elapsed_secs(at: int, now: int)
    ensures
        now >= at ==> 1000 * elapsed_secs(at, now) <= now - at < 1000 * (elapsed_secs(at, now) + 1),
        now < at ==> elapsed_secs(at, now) == 0,
{
}

/// Law: what is served is what was collected, with its age; before anything
/// was collected, nothing is known.
pub proof fn law_served_is_what_was_collected(c: CollectorView, now: int)
    ensures
        c.slot matches Some((at, s)) ==> {
            let v = c.served(now);
            &&& v.bitlocker_on == s.bitlocker_on && v.defender_healthy == s.defender_healthy
            &&& v.firewall_enabled == s.firewall_enabled && v.os_version == s.os_version
            &&& v.days_since_patch == s.days_since_patch && v.domain_joined == s.domain_joined
            &&& v.slot_age_secs is Some
            &&& 0 <= now - at <= i64::MAX ==> v.slot_age_secs == Some(((now - at) / 1000) as i64)
        },
        c.slot is None ==> c.served(now).slot_age_secs is None && c.served(now).bitlocker_on is None
            && c.served(now).defender_healthy is None && c.served(now).firewall_enabled is None
            && c.served(now).os_version is None && c.served(now).days_since_patch is None
            && c.served(now).domain_joined is None,
{
}

/// Law: when a worker is started. Never while the slot is fresh; else at once
/// where none is at it, and in place of one that has been at it for fifteen
/// seconds. A slot is fresh for thirty seconds.
pub proof fn law_when_a_worker_starts(c: CollectorView, now: int)
    ensures
        (c.slot matches Some((at, _)) && now < at + 30_000) ==> c.refresh(now) == Refresh::Idle,
        c.slot is None || c.slot->Some_0.0 + 30_000 <= now ==> {
            &&& c.collecting is None ==> c.refresh(now) == Refresh::Start
            &&& c.collecting matches Some(t) ==> (now - t < 15_000 ==> c.refresh(now)
                == Refresh::Idle)
            &&& c.collecting matches Some(t) ==> (now - t >= 15_000 ==> c.refresh(now)
                == Refresh::Replace)
        },
        c.refresh(now) == Refresh::Idle ==> c.refreshed(now) == c,
        c.refresh(now) != Refresh::Idle ==> c.refreshed(now).collecting == Some(now)
            && c.refreshed(now).slot == c.slot,
{
}

/// Law: the newest date is one of those known and none of them is later; there
/// is none exactly where none is known.
pub proof fn law_newest(ds: Seq<Option<int>>)
    ensures
        match newest(ds) {
            Some(n) => ds.contains(Some(n)) && forall|i: int|
                0 <= i < ds.len() ==> (#[trigger] ds[i] matches Some(d) ==> d <= n),
            None => forall|i: int| 0 <= i < ds.len() ==> (#[trigger] ds[i]) is None,
        },
    decreases ds.len(),
{
    if ds.len() > 0 {
        let t = ds.drop_last();
        let k = ds.len() - 1;
        law_newest(t);
        assert(ds[k] == ds.last());
        assert forall|i: int| 0 <= i < k implies #[trigger] ds[i] == t[i] by {}
        if let Some(n) = newest(ds) {
            if newest(t) == Some(n) {
                let j = choose|j: int| 0 <= j < t.len() && t[j] == Some(n);
                assert(ds[j] == Some(n));
            }
        }
    }
}

/// Law: days are whole, rounded down, and what lies ahead counts as today.
pub proof fn law_days_between(now: int, since: int)
    ensures
        now >= since ==> 86_400 * days_between(now, since) <= now - since < 86_400 * (days_between(
            now,
            since,
        ) + 1),
        now < since ==> days_between(now, since) == 0,
{
}

/// Law: the model of a snapshot holds each finding under its own name.
pub proof fn law_snapshot_model(s: Snapshot)
    ensures
        s@.bitlocker_on == s.bitlocker_on,
        s@.defender_healthy == s.defender_healthy,
        s@.firewall_enabled == s.firewall_enabled,
        s@.domain_joined == s.domain_joined,
        s@.days_since_patch == s.days_since_patch,
        s@.slot_age_secs == s.slot_age_secs,
        s@.os_version is Some <==> s.os_version is Some,
        s.os_version matches Some(o) ==> s@.os_version == Some(o@),
{
}

} // verus!
