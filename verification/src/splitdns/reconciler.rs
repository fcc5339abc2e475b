//! Convergence of the resolver's rules to the names that are to be steered.
//!
//! One cycle compares the previous heartbeat with now before it writes a new
//! one. A gap past the staleness limit engages a hold on installs and starts
//! a new generation; one fully healthy cycle later lifts the hold. Removals
//! go on under the hold. Only tagged rules are ever removed, and a name with
//! a foreign rule is left alone.

use vstd::prelude::*;

use super::channel::InstalledRule;
use super::journal::{Journal, JournalEntry};
use super::{desired_namespaces, normalize_name, RejectReason, SplitDnsConfig, SplitDnsMode, SuffixError};
use crate::table::Table;
use crate::text;

verus! {

/// Seconds past which a heartbeat is stale.
pub const STALENESS_SECS: u64 = 25;

// ---------------------------------------------------------------------
// Lease
// ---------------------------------------------------------------------

/// What a cycle finds of its lease.
#[derive(Clone, Copy, Debug, PartialEq, Eq, Structural)]
pub struct LeaseDecision {
    /// The previous heartbeat is too old: hold installs, start a generation.
    pub stale: bool,
    /// The hold may be lifted.
    pub clear_hold: bool,
}

/// Decides on the lease, from the age of the previous heartbeat (none on the
/// first cycle), the health of this cycle, and whether a hold is on.
pub fn lease_decision(prev_age_secs: Option<u64>, fetch_ok: bool, hold: bool) -> (r: LeaseDecision)
    ensures
        r.stale == (prev_age_secs matches Some(a) && a > STALENESS_SECS),
        r.clear_hold == (hold && !r.stale && fetch_ok),
{
    let stale = match prev_age_secs {
        Some(age) => age > STALENESS_SECS,
        None => false,
    };
    LeaseDecision { stale, clear_hold: hold && !stale && fetch_ok }
}

/// Whether the hold is on after a cycle has looked at its lease.
pub open spec fn holds_after(prev_age_secs: Option<u64>, fetch_ok: bool, hold: bool) -> bool {
    if prev_age_secs matches Some(a) && a > STALENESS_SECS {
        true
    } else {
        hold && !fetch_ok
    }
}

/// Whether a lease is stale: the previous heartbeat is too old.
pub open spec fn is_stale(prev_age_secs: Option<u64>) -> bool {
    prev_age_secs matches Some(a) && a > STALENESS_SECS
}

/// The reconciler after a cycle has looked at its lease: a stale one engages
/// the hold and takes the fresh generation, with nothing installed under it.
pub open spec fn begun(
    r: ReconcilerView,
    prev_age_secs: Option<u64>,
    fetch_ok: bool,
    fresh: Seq<char>,
) -> ReconcilerView {
    ReconcilerView {
        hold: holds_after(prev_age_secs, fetch_ok, r.hold),
        generation: if is_stale(prev_age_secs) {
            fresh
        } else {
            r.generation
        },
        installed: if is_stale(prev_age_secs) {
            Map::empty()
        } else {
            r.installed
        },
        ..r
    }
}

/// The age of a heartbeat in whole seconds: its text is the time in
/// microseconds. None where it cannot be read or lies in the future.
pub open spec fn heartbeat_age(t: Option<Seq<char>>, now_micros: nat) -> Option<nat> {
    match t {
        Some(s) => match text::number(text::trimmed(s), u128::MAX as nat) {
            Some(m) => if m > now_micros {
                None
            } else {
                Some(((now_micros - m) / 1_000_000) as nat)
            },
            None => None,
        },
        None => None,
    }
}

/// Reads the age of a heartbeat.
pub fn read_prev_heartbeat_secs(t: &Option<String>, now_micros: u64) -> (r: Option<u64>)
    ensures
        match r {
            Some(a) => heartbeat_age(crate::atrest::opt(*t), now_micros as nat) == Some(a as nat),
            None => heartbeat_age(crate::atrest::opt(*t), now_micros as nat) is None,
        },
{
    match t {
        Some(s) => {
            let cs = text::chars(s.as_str());
            let tr = text::trim(cs.as_slice());
            match text::parse_big(tr.as_slice()) {
                Some(m) => if m > now_micros as u128 {
                    None
                } else {
                    Some((now_micros - m as u64) / 1_000_000)
                },
                None => None,
            }
        },
        None => None,
    }
}

/// The text of a heartbeat.
pub fn heartbeat_text(now_micros: u64) -> (r: String)
    ensures
        r@ == text::decimal(now_micros as nat),
{
    let d = text::dec(now_micros);
    text::string(d.as_slice())
}

proof fn lemma_digits_trim(s: Seq<char>)
    requires
        text::is_digits(s),
    ensures
        text::trimmed(s) == s,
{
    assert(text::is_digit(s[0]) && text::is_digit(s[s.len() - 1]));
    assert(text::skip_space(s) == s);
    assert(text::drop_space(s) == s);
}

/// A heartbeat reads back as the time since it was written.
pub proof fn law_heartbeat_reads_back(written: nat, now_micros: nat)
    requires
        written <= now_micros <= u64::MAX,
    ensures
        heartbeat_age(Some(text::decimal(written)), now_micros) == Some(
            ((now_micros - written) / 1_000_000) as nat,
        ),
{
    text::lemma_decimal_value(written);
    lemma_digits_trim(text::decimal(written));
    text::lemma_decimal_number(written, u128::MAX as nat);
}

// ---------------------------------------------------------------------
// Plans
// ---------------------------------------------------------------------

/// Whether a foreign rule stands for a name.
pub open spec fn foreign_in(ground: Seq<super::channel::RuleView>, n: Seq<char>) -> bool {
    exists|i: int|
        0 <= i < ground.len() && (#[trigger] ground[i]).generation is None && ground[i].namespace
            == n
}

/// Whether a name is to have a rule: it is desired, and not someone else's.
pub open spec fn wanted(
    n: Seq<char>,
    names: Seq<Seq<char>>,
    allow: Seq<Seq<char>>,
    ground: Seq<super::channel::RuleView>,
) -> bool {
    super::is_desired(n, names, allow) && !foreign_in(ground, n)
}

/// The desired names that someone else has a rule for, in the order of the
/// rules and each once.
pub open spec fn conflicts_of(
    ground: Seq<super::channel::RuleView>,
    names: Seq<Seq<char>>,
    allow: Seq<Seq<char>>,
) -> Seq<Seq<char>>
    decreases ground.len(),
{
    if ground.len() == 0 {
        Seq::empty()
    } else {
        let c = conflicts_of(ground.drop_last(), names, allow);
        let r = ground.last();
        if r.generation is None && super::is_desired(r.namespace, names, allow) && !c.contains(
            r.namespace,
        ) {
            c.push(r.namespace)
        } else {
            c
        }
    }
}

/// Whether a rule is to be removed: a tagged one that is no longer wanted, or
/// of another generation.
pub open spec fn removable(
    r: super::channel::RuleView,
    generation: Seq<char>,
    names: Seq<Seq<char>>,
    allow: Seq<Seq<char>>,
    ground: Seq<super::channel::RuleView>,
) -> bool {
    r.generation is Some && (!wanted(r.namespace, names, allow, ground) || r.generation != Some(
        generation,
    ))
}

/// What a cycle is to do, before it has done anything.
#[derive(Debug)]
pub struct Plan {
    /// Names to have a rule, in order.
    pub desired: Vec<String>,
    /// Desired names left to someone else.
    pub conflicts: Vec<String>,
    /// Places of the rules to remove, in order.
    pub removals: Vec<usize>,
    pub rejected_invalid: usize,
    pub rejected_not_allowlisted: usize,
}

/// Whether these are the names to have a rule, the names left to someone else,
/// and the places of the rules to remove.
pub open spec fn is_plan(
    r: ReconcilerView,
    ground: Seq<super::channel::RuleView>,
    names: Seq<Seq<char>>,
    desired: Seq<Seq<char>>,
    conflicts: Seq<Seq<char>>,
    removals: Seq<usize>,
) -> bool {
    &&& super::strictly_sorted(desired)
    &&& forall|n: Seq<char>| #[trigger]
        desired.contains(n) <==> wanted(n, names, r.allow, ground)
    &&& conflicts == conflicts_of(ground, names, r.allow)
    &&& forall|k: int, l: int|
        0 <= k < l < removals.len() ==> #[trigger] removals[k] < #[trigger] removals[l]
    &&& forall|i: usize| #[trigger]
        removals.contains(i) <==> i < ground.len() && removable(
            ground[i as int],
            r.generation,
            names,
            r.allow,
            ground,
        )
}

/// Number of rejections for a reason.
pub open spec fn count_reason(rs: Seq<(Seq<char>, RejectReason)>, why: RejectReason) -> nat
    decreases rs.len(),
{
    if rs.len() == 0 {
        0
    } else {
        count_reason(rs.drop_last(), why) + if rs.last().1 == why {
            1nat
        } else {
            0nat
        }
    }
}

/// Model of a [`Reconciler`].
#[verifier::ext_equal]
pub struct ReconcilerView {
    pub active: bool,
    pub mode: SplitDnsMode,
    pub allow: Seq<Seq<char>>,
    pub generation: Seq<char>,
    pub hold: bool,
    /// Names with a rule of this generation, and the rules' ids.
    pub installed: Map<Seq<char>, Seq<char>>,
}

/// The state of convergence.
pub struct Reconciler {
    active: bool,
    cfg: SplitDnsConfig,
    generation: String,
    hold: bool,
    installed: Table<String, String>,
}

impl View for Reconciler {
    type V = ReconcilerView;

    closed spec fn view(&self) -> ReconcilerView {
        ReconcilerView {
            active: self.active,
            mode: self.cfg.mode,
            allow: text::strs(self.cfg.suffix_allowlist@),
            generation: self.generation@,
            hold: self.hold,
            installed: crate::posture_probes::texts(self.installed@),
        }
    }
}

/// Place of the first string with a text.
fn place_of(v: &Vec<String>, s: &str) -> (r: Option<usize>)
    ensures
        match r {
            Some(i) => i < v@.len() && v@[i as int]@ == s@,
            None => !text::strs(v@).contains(s@),
        },
{
    let mut i: usize = 0;
    while i < v.len()
        invariant
            i <= v@.len(),
            forall|j: int| 0 <= j < i ==> (#[trigger] v@[j])@ != s@,
        decreases v@.len() - i,
    {
        if text::str_eq(v[i].as_str(), s) {
            return Some(i);
        }
        i += 1;
    }
    proof {
        if text::strs(v@).contains(s@) {
            let j = choose|j: int| 0 <= j < text::strs(v@).len() && text::strs(v@)[j] == s@;
            assert(v@[j]@ == s@);
        }
    }
    None
}

/// Takes the one place of a name out of sorted names.
fn take_out(v: &mut Vec<String>, i: usize)
    requires
        i < old(v)@.len(),
        super::strictly_sorted(text::strs(old(v)@)),
    ensures
        super::strictly_sorted(text::strs(final(v)@)),
        forall|n: Seq<char>| #[trigger]
            text::strs(final(v)@).contains(n) <==> text::strs(old(v)@).contains(n) && n != old(
                v,
            )@[i as int]@,
{
    let ghost before = text::strs(v@);
    let ghost gone = v@[i as int]@;
    let _x = v.remove(i);
    let ghost after = text::strs(v@);
    proof {
        assert(before[i as int] == gone);
        assert(after =~= before.remove(i as int));
        assert forall|a: int, b: int| 0 <= a < b < after.len() implies text::precedes(
            #[trigger] after[a],
            #[trigger] after[b],
        ) by {
            let x = if a < i {
                a
            } else {
                a + 1
            };
            let y = if b < i {
                b
            } else {
                b + 1
            };
            assert(after[a] == before[x] && after[b] == before[y]);
        }
        assert forall|n: Seq<char>| #[trigger] after.contains(n) <==> before.contains(n) && n
            != gone by {
            if after.contains(n) {
                let k = choose|k: int| 0 <= k < after.len() && after[k] == n;
                let x = if k < i {
                    k
                } else {
                    k + 1
                };
                assert(before[x] == n);
                if n == gone {
                    text::lemma_precedes_strict(gone);
                    if x < i {
                        assert(text::precedes(before[x], before[i as int]));
                    } else {
                        assert(text::precedes(before[i as int], before[x]));
                    }
                }
            }
            if before.contains(n) && n != gone {
                let k = choose|k: int| 0 <= k < before.len() && before[k] == n;
                if k < i {
                    assert(after[k] == n);
                } else {
                    assert(after[k - 1] == n);
                }
            }
        }
    }
}

proof fn lemma_conflicts(
    ground: Seq<super::channel::RuleView>,
    names: Seq<Seq<char>>,
    allow: Seq<Seq<char>>,
    n: Seq<char>,
)
    ensures
        conflicts_of(ground, names, allow).contains(n) <==> super::is_desired(n, names, allow)
            && foreign_in(ground, n),
    decreases ground.len(),
{
    if ground.len() > 0 {
        let g = ground.drop_last();
        let r = ground.last();
        lemma_conflicts(g, names, allow, n);
        lemma_conflicts(g, names, allow, r.namespace);
        let c = conflicts_of(g, names, allow);
        assert(foreign_in(ground, n) <==> foreign_in(g, n) || (r.generation is None && r.namespace
            == n)) by {
            if foreign_in(ground, n) {
                let i = choose|i: int|
                    0 <= i < ground.len() && (#[trigger] ground[i]).generation is None
                        && ground[i].namespace == n;
                if i < g.len() {
                    assert(g[i] == ground[i]);
                }
            }
            if foreign_in(g, n) {
                let i = choose|i: int|
                    0 <= i < g.len() && (#[trigger] g[i]).generation is None && g[i].namespace == n;
                assert(ground[i] == g[i]);
            }
            if r.generation is None && r.namespace == n {
                assert(ground[ground.len() - 1] == r);
            }
        }
        let d = conflicts_of(ground, names, allow);
        if d != c {
            assert(d == c.push(r.namespace));
            if d.contains(n) {
                let i = choose|i: int| 0 <= i < d.len() && d[i] == n;
                if i < c.len() {
                    assert(c[i] == n);
                }
            }
            if c.contains(n) {
                let i = choose|i: int| 0 <= i < c.len() && c[i] == n;
                assert(d[i] == n);
            }
            if n == r.namespace {
                assert(d[c.len() as int] == n);
            }
        }
    }
}

impl Reconciler {
    pub closed spec fn wf(&self) -> bool {
        self.installed.wf()
    }

    /// A reconciler of a generation; active in automatic mode on a platform
    /// with a channel.
    pub fn new(cfg: SplitDnsConfig, supported: bool, generation: String) -> (r: Reconciler)
        ensures
            r.wf(),
            r@ == (ReconcilerView {
                active: cfg.mode == SplitDnsMode::Auto && supported,
                mode: cfg.mode,
                allow: text::strs(cfg.suffix_allowlist@),
                generation: generation@,
                hold: false,
                installed: Map::empty(),
            }),
    {
        let active = cfg.mode == SplitDnsMode::Auto && supported;
        let r = Reconciler { active, cfg, generation, hold: false, installed: Table::new() };
        assert(crate::posture_probes::texts(r.installed@) =~= Map::<Seq<char>, Seq<char>>::empty());
        r
    }

    /// The entries of the allowed suffixes that have no normal form, in order.
    pub fn config_problems(&self) -> (r: Vec<(usize, SuffixError)>)
        ensures
            forall|k: int|
                0 <= k < r@.len() ==> (#[trigger] r@[k]).0 < self@.allow.len() && super::normal(
                    self@.allow[r@[k].0 as int],
                ) == Err::<Seq<char>, SuffixError>(r@[k].1),
            forall|i: int|
                0 <= i < self@.allow.len() && (#[trigger] super::normal(self@.allow[i])) is Err
                    ==> exists|k: int| 0 <= k < r@.len() && (#[trigger] r@[k]).0 == i,
            forall|a: int, b: int|
                0 <= a < b < r@.len() ==> (#[trigger] r@[a]).0 < (#[trigger] r@[b]).0,
    {
        let ghost allow = text::strs(self.cfg.suffix_allowlist@);
        let mut out: Vec<(usize, SuffixError)> = Vec::new();
        let mut i: usize = 0;
        while i < self.cfg.suffix_allowlist.len()
            invariant
                i <= self.cfg.suffix_allowlist@.len(),
                allow == text::strs(self.cfg.suffix_allowlist@),
                forall|k: int|
                    0 <= k < out@.len() ==> (#[trigger] out@[k]).0 < allow.len() && super::normal(
                        allow[out@[k].0 as int],
                    ) == Err::<Seq<char>, SuffixError>(out@[k].1),
                forall|j: int|
                    0 <= j < i && (#[trigger] super::normal(allow[j])) is Err ==> exists|k: int|
                        0 <= k < out@.len() && (#[trigger] out@[k]).0 == j,
                forall|k: int| 0 <= k < out@.len() ==> (#[trigger] out@[k]).0 < i,
                forall|a: int, b: int|
                    0 <= a < b < out@.len() ==> (#[trigger] out@[a]).0 < (#[trigger] out@[b]).0,
            decreases self.cfg.suffix_allowlist@.len() - i,
        {
            assert(allow[i as int] == self.cfg.suffix_allowlist@[i as int]@);
            let ghost before = out@;
            if let Err(e) = normalize_name(self.cfg.suffix_allowlist[i].as_str()) {
                out.push((i, e));
                assert(out@[before.len() as int].0 == i);
            }
            proof {
                assert forall|j: int|
                    0 <= j < i + 1 && (#[trigger] super::normal(allow[j])) is Err implies exists|
                    k: int,
                |
                    0 <= k < out@.len() && (#[trigger] out@[k]).0 == j by {
                    if j < i {
                        let k = choose|k: int| 0 <= k < before.len() && (#[trigger] before[k]).0
                            == j;
                        assert(out@[k] == before[k]);
                    }
                }
            }
            i += 1;
        }
        out
    }

    /// Whether the reconciler does anything.
    pub fn active(&self) -> (r: bool)
        ensures
            r == self@.active,
    {
        self.active
    }

    /// Whether installs are held back.
    pub fn on_hold(&self) -> (r: bool)
        ensures
            r == self@.hold,
    {
        self.hold
    }

    /// Turns it off, where the clean-up owner could not be started.
    pub fn deactivate(&mut self)
        requires
            old(self).wf(),
        ensures
            final(self).wf(),
            final(self)@ == (ReconcilerView { active: false, ..old(self)@ }),
    {
        self.active = false;
    }

    /// The current generation.
    pub fn generation(&self) -> (r: &str)
        ensures
            r@ == self@.generation,
    {
        self.generation.as_str()
    }

    /// Looks at the lease at the start of a cycle: a stale one engages the
    /// hold and takes the fresh generation, with nothing installed under it.
    pub fn begin(&mut self, prev_age_secs: Option<u64>, fetch_ok: bool, fresh: String) -> (r:
        LeaseDecision)
        requires
            old(self).wf(),
        ensures
            final(self).wf(),
            r.stale == is_stale(prev_age_secs),
            r.clear_hold == (old(self)@.hold && !r.stale && fetch_ok),
            final(self)@ == begun(old(self)@, prev_age_secs, fetch_ok, fresh@),
    {
        let dec = lease_decision(prev_age_secs, fetch_ok, self.hold);
        if dec.stale {
            self.hold = true;
            self.generation = fresh;
            self.installed = Table::new();
            assert(crate::posture_probes::texts(self.installed@) =~= Map::<
                Seq<char>,
                Seq<char>,
            >::empty());
        } else if dec.clear_hold {
            self.hold = false;
        }
        dec
    }

    /// Plans a cycle from the resolver's rules and the zone names.
    pub fn plan(&self, ground: &Vec<InstalledRule>, zone_names: &Vec<String>) -> (p: Plan)
        requires
            self.wf(),
        ensures
            is_plan(
                self@,
                super::channel::rule_views(ground@),
                text::strs(zone_names@),
                text::strs(p.desired@),
                text::strs(p.conflicts@),
                p.removals@,
            ),
            p.rejected_invalid == count_reason(
                super::rejections(text::strs(zone_names@), self@.allow),
                RejectReason::InvalidSuffix,
            ),
            p.rejected_invalid + p.rejected_not_allowlisted == super::rejections(
                text::strs(zone_names@),
                self@.allow,
            ).len(),
    {
        let ghost g = super::channel::rule_views(ground@);
        let ghost names = text::strs(zone_names@);
        let ghost allow = text::strs(self.cfg.suffix_allowlist@);
        let (mut desired, rejected) = desired_namespaces(zone_names, &self.cfg.suffix_allowlist);
        let ghost rv = rejected@.map_values(|p: (String, RejectReason)| (p.0@, p.1));
        let mut invalid: usize = 0;
        let mut k: usize = 0;
        assert(rv.subrange(0, 0) =~= Seq::<(Seq<char>, RejectReason)>::empty());
        while k < rejected.len()
            invariant
                k <= rejected@.len(),
                rv == rejected@.map_values(|p: (String, RejectReason)| (p.0@, p.1)),
                invalid <= k,
                invalid == count_reason(rv.subrange(0, k as int), RejectReason::InvalidSuffix),
            decreases rejected@.len() - k,
        {
            let ghost next = rv.subrange(0, k + 1);
            assert(next.drop_last() =~= rv.subrange(0, k as int));
            assert(next.last().1 == rejected@[k as int].1);
            match rejected[k].1 {
                RejectReason::InvalidSuffix => {
                    invalid = invalid + 1;
                },
                RejectReason::NotAllowlisted => {},
            }
            k += 1;
        }
        assert(rv.subrange(0, k as int) =~= rv);
        let others: usize = rejected.len() - invalid;
        let mut conflicts: Vec<String> = Vec::new();
        let mut i: usize = 0;
        assert(g.subrange(0, 0) =~= Seq::<super::channel::RuleView>::empty());
        assert(text::strs(conflicts@) =~= Seq::<Seq<char>>::empty());
        while i < ground.len()
            invariant
                i <= ground@.len(),
                g == super::channel::rule_views(ground@),
                super::strictly_sorted(text::strs(desired@)),
                forall|n: Seq<char>| #[trigger]
                    text::strs(desired@).contains(n) <==> wanted(
                        n,
                        names,
                        allow,
                        g.subrange(0, i as int),
                    ),
                text::strs(conflicts@) == conflicts_of(g.subrange(0, i as int), names, allow),
            decreases ground@.len() - i,
        {
            let ghost cur = g.subrange(0, i as int);
            let ghost next = g.subrange(0, i + 1);
            let ghost r = g[i as int];
            assert(next.drop_last() =~= cur);
            assert(next.last() == r);
            assert(r == ground@[i as int]@);
            let ghost d0 = text::strs(desired@);
            proof {
                lemma_conflicts(cur, names, allow, r.namespace);
                assert forall|n: Seq<char>| foreign_in(next, n) <==> #[trigger] foreign_in(cur, n)
                    || (r.generation is None && r.namespace == n) by {
                    lemma_foreign_step(cur, r, n);
                    assert(cur.push(r) =~= next);
                }
            }
            if ground[i].generation.is_none() {
                match place_of(&desired, ground[i].namespace.as_str()) {
                    Some(at) => {
                        assert(d0[at as int] == r.namespace);
                        assert(d0.contains(r.namespace));
                        take_out(&mut desired, at);
                        let ghost before = conflicts@;
                        conflicts.push(ground[i].namespace.clone());
                        assert(text::strs(conflicts@) =~= text::strs(before).push(r.namespace));
                    },
                    None => {
                        assert(!d0.contains(r.namespace));
                    },
                }
                assert forall|n: Seq<char>| #[trigger]
                    text::strs(desired@).contains(n) <==> wanted(n, names, allow, next) by {
                    assert(d0.contains(n) <==> wanted(n, names, allow, cur));
                    assert(d0.contains(r.namespace) <==> wanted(r.namespace, names, allow, cur));
                    assert(foreign_in(cur, n) || !foreign_in(cur, n));
                }
            } else {
                assert forall|n: Seq<char>| #[trigger]
                    text::strs(desired@).contains(n) <==> wanted(n, names, allow, next) by {
                    assert(d0.contains(n) <==> wanted(n, names, allow, cur));
                    assert(foreign_in(cur, n) || !foreign_in(cur, n));
                }
            }
            i += 1;
        }
        assert(g.subrange(0, i as int) =~= g);
        let mut removals: Vec<usize> = Vec::new();
        let mut j: usize = 0;
        while j < ground.len()
            invariant
                j <= ground@.len(),
                g == super::channel::rule_views(ground@),
                forall|n: Seq<char>| #[trigger]
                    text::strs(desired@).contains(n) <==> wanted(n, names, allow, g),
                forall|a: int, b: int|
                    0 <= a < b < removals@.len() ==> #[trigger] removals@[a]
                        < #[trigger] removals@[b],
                forall|x: usize| #[trigger]
                    removals@.contains(x) <==> x < j && removable(
                        g[x as int],
                        self.generation@,
                        names,
                        allow,
                        g,
                    ),
            decreases ground@.len() - j,
        {
            let ghost r = g[j as int];
            assert(r == ground@[j as int]@);
            let ghost before = removals@;
            let take = match &ground[j].generation {
                None => false,
                Some(gen) => {
                    let keep = match place_of(&desired, ground[j].namespace.as_str()) {
                        Some(at) => {
                            assert(text::strs(desired@)[at as int] == r.namespace);
                            true
                        },
                        None => false,
                    };
                    assert(keep == text::strs(desired@).contains(r.namespace));
                    !keep || !text::str_eq(gen.as_str(), self.generation.as_str())
                },
            };
            assert(take == removable(r, self.generation@, names, allow, g));
            if take {
                removals.push(j);
            }
            proof {
                assert forall|x: usize| #[trigger]
                    removals@.contains(x) <==> x < j + 1 && removable(
                        g[x as int],
                        self.generation@,
                        names,
                        allow,
                        g,
                    ) by {
                    if removals@.contains(x) {
                        let a = choose|a: int| 0 <= a < removals@.len() && removals@[a] == x;
                        if a < before.len() {
                            assert(before[a] == x);
                            assert(before.contains(x));
                        }
                    }
                    if before.contains(x) {
                        let a = choose|a: int| 0 <= a < before.len() && before[a] == x;
                        assert(removals@[a] == x);
                    }
                    if x == j && take {
                        assert(removals@[before.len() as int] == x);
                    }
                }
                assert forall|a: int, b: int| 0 <= a < b < removals@.len() implies
                    #[trigger] removals@[a] < #[trigger] removals@[b] by {
                    if b == before.len() {
                        assert(before[a] == removals@[a]);
                        assert(before.contains(before[a]));
                    } else {
                        assert(before[a] == removals@[a] && before[b] == removals@[b]);
                    }
                }
            }
            j += 1;
        }
        Plan {
            desired,
            conflicts,
            removals,
            rejected_invalid: invalid,
            rejected_not_allowlisted: others,
        }
    }

    /// Notes that a rule for a name was removed.
    pub fn removed(&mut self, namespace: &String)
        requires
            old(self).wf(),
        ensures
            final(self).wf(),
            final(self)@ == (ReconcilerView {
                installed: old(self)@.installed.remove(namespace@),
                ..old(self)@
            }),
    {
        let ghost before = self.installed@;
        let _gone = self.installed.remove(namespace);
        assert(crate::posture_probes::texts(self.installed@) =~= crate::posture_probes::texts(
            before,
        ).remove(namespace@));
    }

    /// The names to install a rule for: none under a hold, else the desired
    /// ones that have none, in order.
    pub fn installs(&self, desired: &Vec<String>) -> (r: Vec<String>)
        requires
            self.wf(),
        ensures
            text::strs(r@) == installs_of(self@, text::strs(desired@)),
    {
        let ghost all = text::strs(desired@);
        let mut out: Vec<String> = Vec::new();
        if self.hold {
            assert(text::strs(out@) =~= Seq::<Seq<char>>::empty());
            return out;
        }
        let mut i: usize = 0;
        assert(all.subrange(0, 0) =~= Seq::<Seq<char>>::empty());
        assert(text::strs(out@) =~= Seq::<Seq<char>>::empty());
        while i < desired.len()
            invariant
                i <= desired@.len(),
                all == text::strs(desired@),
                self.installed.wf(),
                text::strs(out@) == missing(
                    crate::posture_probes::texts(self.installed@),
                    all.subrange(0, i as int),
                ),
            decreases desired@.len() - i,
        {
            let ghost next = all.subrange(0, i + 1);
            assert(next.drop_last() =~= all.subrange(0, i as int));
            assert(next.last() == desired@[i as int]@);
            if self.installed.get(&desired[i]).is_none() {
                let ghost before = out@;
                out.push(desired[i].clone());
                assert(text::strs(out@) =~= text::strs(before).push(desired@[i as int]@));
            }
            i += 1;
        }
        assert(all.subrange(0, i as int) =~= all);
        out
    }

    /// Takes the rules of this generation from a fresh look at the resolver.
    pub fn refresh(&mut self, ground: &Vec<InstalledRule>)
        requires
            old(self).wf(),
        ensures
            final(self).wf(),
            final(self)@ == (ReconcilerView {
                installed: own_rules(
                    super::channel::rule_views(ground@),
                    old(self)@.generation,
                ),
                ..old(self)@
            }),
    {
        let ghost g = super::channel::rule_views(ground@);
        let mut fresh: Table<String, String> = Table::new();
        let mut i: usize = 0;
        assert(g.subrange(0, 0) =~= Seq::<super::channel::RuleView>::empty());
        assert(crate::posture_probes::texts(fresh@) =~= Map::<Seq<char>, Seq<char>>::empty());
        while i < ground.len()
            invariant
                i <= ground@.len(),
                g == super::channel::rule_views(ground@),
                fresh.wf(),
                crate::posture_probes::texts(fresh@) == own_rules(
                    g.subrange(0, i as int),
                    self.generation@,
                ),
            decreases ground@.len() - i,
        {
            let ghost next = g.subrange(0, i + 1);
            assert(next.drop_last() =~= g.subrange(0, i as int));
            assert(next.last() == ground@[i as int]@);
            let own = match &ground[i].generation {
                Some(x) => text::str_eq(x.as_str(), self.generation.as_str()),
                None => false,
            };
            if own {
                let ghost before = fresh@;
                fresh.insert(ground[i].namespace.clone(), ground[i].id.clone());
                assert(crate::posture_probes::texts(fresh@) =~= crate::posture_probes::texts(
                    before,
                ).insert(next.last().namespace, next.last().id));
            }
            i += 1;
        }
        assert(g.subrange(0, i as int) =~= g);
        self.installed = fresh;
    }

    /// The journal of what is installed.
    pub fn journal(&self) -> (j: Journal)
        requires
            self.wf(),
        ensures
            j.schema == super::journal::SCHEMA,
            j.generation@ == self@.generation,
            forall|k: int|
                0 <= k < j.installed@.len() ==> {
                    let e = #[trigger] j.installed@[k];
                    self@.installed.contains_key(e.namespace@)
                        && self@.installed[e.namespace@] == e.guid@
                },
            forall|n: Seq<char>| #[trigger]
                self@.installed.contains_key(n) ==> lists(j.installed@, n),
            j.installed@.len() == self@.installed.len(),
    {
        let mut out: Vec<JournalEntry> = Vec::new();
        let n: usize = self.installed.count();
        let mut i: usize = 0;
        let ghost ids = self.installed.ids();
        proof {
            self.installed.lemma_ids();
            assert(crate::posture_probes::texts(self.installed@).dom() =~= self.installed@.dom());
        }
        while i < n
            invariant
                i <= n,
                n == ids.len(),
                ids == self.installed.ids(),
                self.installed.wf(),
                out@.len() == i,
                forall|k: int|
                    0 <= k < i ==> {
                        let e = #[trigger] out@[k];
                        e.namespace@ == ids[k] && self.installed@.contains_key(ids[k])
                            && self.installed@[ids[k]]@ == e.guid@
                    },
            decreases n - i,
        {
            let (ns, id) = self.installed.entry(i);
            out.push(JournalEntry { namespace: ns.clone(), guid: id.clone() });
            i += 1;
        }
        proof {
            assert forall|m: Seq<char>| #[trigger] self@.installed.contains_key(m) implies lists(
                out@,
                m,
            ) by {
                assert(self.installed@.contains_key(m));
                assert(ids.contains(m));
                let k = choose|k: int| 0 <= k < ids.len() && ids[k] == m;
                assert(out@[k].namespace@ == m);
            }
        }
        Journal {
            schema: super::journal::SCHEMA,
            generation: self.generation.clone(),
            installed: out,
        }
    }

    /// Number of installed rules.
    pub fn rules_active(&self) -> (n: usize)
        requires
            self.wf(),
        ensures
            n == self@.installed.len(),
    {
        proof {
            assert(crate::posture_probes::texts(self.installed@).dom() =~= self.installed@.dom());
        }
        self.installed.len()
    }

    /// Ends the session: the places of the rules to remove, which are all that
    /// carry the tag, whatever their generation, and the journal to write, which
    /// lists nothing; no rule is then active. Where the rules could not be
    /// looked at, none is removed. An inactive reconciler does nothing.
    pub fn shutdown(&mut self, ground: &Option<Vec<InstalledRule>>, fresh: String) -> (r: Option<
        (Vec<usize>, Journal),
    >)
        requires
            old(self).wf(),
        ensures
            final(self).wf(),
            match r {
                None => !old(self)@.active && final(self)@ == old(self)@,
                Some((rm, j)) => {
                    &&& old(self)@.active
                    &&& final(self)@ == ended(old(self)@)
                    &&& match *ground {
                        Some(g) => are_tagged(super::channel::rule_views(g@), rm@),
                        None => rm@.len() == 0,
                    }
                    &&& j.schema == super::journal::SCHEMA
                    &&& j.generation@ == fresh@
                    &&& j.installed@.len() == 0
                },
            },
    {
        if !self.active {
            return None;
        }
        self.clear();
        let rm: Vec<usize> = match ground {
            Some(g) => tagged(g),
            None => Vec::new(),
        };
        Some((rm, Journal::new(fresh)))
    }

    /// Forgets what is installed, at the end of a session.
    pub fn clear(&mut self)
        ensures
            final(self).wf(),
            final(self)@ == ended(old(self)@),
    {
        self.installed = Table::new();
        assert(crate::posture_probes::texts(self.installed@) =~= Map::<
            Seq<char>,
            Seq<char>,
        >::empty());
    }
}

proof fn lemma_foreign_step(
    cur: Seq<super::channel::RuleView>,
    r: super::channel::RuleView,
    n: Seq<char>,
)
    ensures
        foreign_in(cur.push(r), n) <==> foreign_in(cur, n) || (r.generation is None && r.namespace
            == n),
{
    let next = cur.push(r);
    if foreign_in(next, n) {
        let i = choose|i: int|
            0 <= i < next.len() && (#[trigger] next[i]).generation is None && next[i].namespace
                == n;
        if i < cur.len() {
            assert(cur[i] == next[i]);
        }
    }
    if foreign_in(cur, n) {
        let i = choose|i: int|
            0 <= i < cur.len() && (#[trigger] cur[i]).generation is None && cur[i].namespace == n;
        assert(next[i] == cur[i]);
    }
    if r.generation is None && r.namespace == n {
        assert(next[cur.len() as int] == r);
    }
}

/// Whether a journal lists a name.
pub open spec fn lists(entries: Seq<JournalEntry>, n: Seq<char>) -> bool {
    exists|k: int| 0 <= k < entries.len() && (#[trigger] entries[k]).namespace@ == n
}

/// The names without an installed rule.
pub open spec fn missing(
    installed: Map<Seq<char>, Seq<char>>,
    desired: Seq<Seq<char>>,
) -> Seq<Seq<char>>
    decreases desired.len(),
{
    if desired.len() == 0 {
        Seq::empty()
    } else if installed.contains_key(desired.last()) {
        missing(installed, desired.drop_last())
    } else {
        missing(installed, desired.drop_last()).push(desired.last())
    }
}

/// The names to install a rule for.
pub open spec fn installs_of(r: ReconcilerView, desired: Seq<Seq<char>>) -> Seq<Seq<char>> {
    if r.hold {
        Seq::empty()
    } else {
        missing(r.installed, desired)
    }
}

/// The names and ids of the rules of a generation; of two for a name, the
/// later.
pub open spec fn own_rules(ground: Seq<super::channel::RuleView>, generation: Seq<char>) -> Map<
    Seq<char>,
    Seq<char>,
>
    decreases ground.len(),
{
    if ground.len() == 0 {
        Map::empty()
    } else {
        let m = own_rules(ground.drop_last(), generation);
        let r = ground.last();
        if r.generation == Some(generation) {
            m.insert(r.namespace, r.id)
        } else {
            m
        }
    }
}

/// The reconciler after the end of a session: nothing is installed.
pub open spec fn ended(r: ReconcilerView) -> ReconcilerView {
    ReconcilerView { installed: Map::empty(), ..r }
}

/// Whether these are the places of all tagged rules, in order.
pub open spec fn are_tagged(ground: Seq<super::channel::RuleView>, places: Seq<usize>) -> bool {
    &&& forall|i: usize| #[trigger]
        places.contains(i) <==> i < ground.len() && ground[i as int].generation is Some
    &&& forall|a: int, b: int|
        0 <= a < b < places.len() ==> #[trigger] places[a] < #[trigger] places[b]
}

/// The places of all tagged rules: what a session's end, and the watchdog,
/// remove.
pub fn tagged(ground: &Vec<InstalledRule>) -> (r: Vec<usize>)
    ensures
        are_tagged(super::channel::rule_views(ground@), r@),
{
    let mut out: Vec<usize> = Vec::new();
    let mut j: usize = 0;
    while j < ground.len()
        invariant
            j <= ground@.len(),
            forall|x: usize| #[trigger]
                out@.contains(x) <==> x < j && ground@[x as int].generation is Some,
            forall|a: int, b: int|
                0 <= a < b < out@.len() ==> #[trigger] out@[a] < #[trigger] out@[b],
        decreases ground@.len() - j,
    {
        let ghost before = out@;
        if ground[j].generation.is_some() {
            out.push(j);
        }
        proof {
            assert forall|x: usize| #[trigger]
                out@.contains(x) <==> x < j + 1 && ground@[x as int].generation is Some by {
                if out@.contains(x) {
                    let a = choose|a: int| 0 <= a < out@.len() && out@[a] == x;
                    if a < before.len() {
                        assert(before[a] == x);
                        assert(before.contains(x));
                    }
                }
                if before.contains(x) {
                    let a = choose|a: int| 0 <= a < before.len() && before[a] == x;
                    assert(out@[a] == x);
                }
                if x == j && ground@[j as int].generation is Some {
                    assert(out@[before.len() as int] == x);
                }
            }
            assert forall|a: int, b: int| 0 <= a < b < out@.len() implies #[trigger] out@[a]
                < #[trigger] out@[b] by {
                if b == before.len() {
                    assert(before[a] == out@[a]);
                    assert(before.contains(before[a]));
                } else {
                    assert(before[a] == out@[a] && before[b] == out@[b]);
                }
            }
        }
        j += 1;
    }
    out
}

/// What a cycle came to.
#[derive(Debug)]
pub struct TickStats {
    pub installed: usize,
    pub removed: usize,
    /// Desired names left to someone else.
    pub conflicts: Vec<String>,
    pub rejected_invalid: usize,
    pub rejected_not_allowlisted: usize,
    pub errors: usize,
}

/// Model of [`TickStats`].
#[verifier::ext_equal]
pub struct StatsView {
    pub installed: usize,
    pub removed: usize,
    pub conflicts: Seq<Seq<char>>,
    pub rejected_invalid: usize,
    pub rejected_not_allowlisted: usize,
    pub errors: usize,
}

impl View for TickStats {
    type V = StatsView;

    open spec fn view(&self) -> StatsView {
        StatsView {
            installed: self.installed,
            removed: self.removed,
            conflicts: text::strs(self.conflicts@),
            rejected_invalid: self.rejected_invalid,
            rejected_not_allowlisted: self.rejected_not_allowlisted,
            errors: self.errors,
        }
    }
}

impl TickStats {
    /// Whether the resolver is looked at again after the cycle: only without a
    /// hold, and only where something changed.
    pub fn rereads(&self, hold: bool) -> (r: bool)
        ensures
            r == (!hold && (self.installed > 0 || self.removed > 0)),
    {
        !hold && (self.installed > 0 || self.removed > 0)
    }

    /// The operations and results that the cycle counts once each, in order.
    pub open spec fn counted(&self) -> Seq<(Seq<char>, Seq<char>)> {
        let a = if self.rejected_invalid > 0 {
            seq![("conflict"@, "invalid_suffix"@)]
        } else {
            Seq::empty()
        };
        let b = if self.conflicts@.len() > 0 {
            a.push(("conflict"@, "conflict"@))
        } else {
            a
        };
        let c = if self.installed > 0 {
            b.push(("install"@, "ok"@))
        } else {
            b
        };
        let d = if self.removed > 0 {
            c.push(("remove"@, "ok"@))
        } else {
            c
        };
        if self.errors > 0 {
            d.push(("install"@, "error"@))
        } else {
            d
        }
    }

    /// The operations and results to count.
    pub fn counts(&self) -> (r: Vec<(&'static str, &'static str)>)
        ensures
            r@.map_values(|p: (&'static str, &'static str)| (p.0@, p.1@)) == self.counted(),
    {
        let mut out: Vec<(&'static str, &'static str)> = Vec::new();
        if self.rejected_invalid > 0 {
            out.push(("conflict", "invalid_suffix"));
        }
        if self.conflicts.len() > 0 {
            out.push(("conflict", "conflict"));
        }
        if self.installed > 0 {
            out.push(("install", "ok"));
        }
        if self.removed > 0 {
            out.push(("remove", "ok"));
        }
        if self.errors > 0 {
            out.push(("install", "error"));
        }
        assert(out@.map_values(|p: (&'static str, &'static str)| (p.0@, p.1@))
            =~= self.counted());
        out
    }
}

/// Name of the platform in metrics.
pub fn platform_label(windows: bool, linux: bool) -> (r: &'static str)
    ensures
        r@ == if windows {
            "windows"@
        } else if linux {
            "linux"@
        } else {
            "macos"@
        },
{
    if windows {
        "windows"
    } else if linux {
        "linux"
    } else {
        "macos"
    }
}

// ---------------------------------------------------------------------
// Laws
// ---------------------------------------------------------------------

/// A stale lease engages the hold, whatever else the cycle finds; and a hold
/// ends only in a cycle that is neither stale nor unhealthy.
pub proof fn law_hold_needs_a_healthy_cycle(prev: Option<u64>, fetch_ok: bool, hold: bool)
    ensures
        (prev matches Some(a) && a > STALENESS_SECS) ==> holds_after(prev, fetch_ok, hold),
        hold && !holds_after(prev, fetch_ok, hold) ==> fetch_ok && !(prev matches Some(a) && a
            > STALENESS_SECS),
{
}

/// Nothing is installed under a hold.
pub proof fn law_hold_blocks_installs(r: ReconcilerView, desired: Seq<Seq<char>>)
    requires
        r.hold,
    ensures
        installs_of(r, desired).len() == 0,
{
}

/// A foreign rule is never removed, and its name never gets a rule.
pub proof fn law_foreign_rules_are_left_alone(
    ground: Seq<super::channel::RuleView>,
    i: int,
    generation: Seq<char>,
    names: Seq<Seq<char>>,
    allow: Seq<Seq<char>>,
)
    requires
        0 <= i < ground.len(),
        ground[i].generation is None,
    ensures
        !removable(ground[i], generation, names, allow, ground),
        !wanted(ground[i].namespace, names, allow, ground),
{
}

proof fn lemma_missing(installed: Map<Seq<char>, Seq<char>>, desired: Seq<Seq<char>>, n: Seq<char>)
    ensures
        missing(installed, desired).contains(n) <==> desired.contains(n)
            && !installed.contains_key(n),
    decreases desired.len(),
{
    if desired.len() > 0 {
        let d = desired.drop_last();
        lemma_missing(installed, d, n);
        let m = missing(installed, d);
        let r = missing(installed, desired);
        assert(desired.contains(n) <==> d.contains(n) || desired.last() == n) by {
            if desired.contains(n) {
                let k = choose|k: int| 0 <= k < desired.len() && desired[k] == n;
                if k < d.len() {
                    assert(d[k] == n);
                }
            }
            if d.contains(n) {
                let k = choose|k: int| 0 <= k < d.len() && d[k] == n;
                assert(desired[k] == n);
            }
            if desired.last() == n {
                assert(desired[desired.len() - 1] == n);
            }
        }
        if r != m {
            assert(r == m.push(desired.last()));
            if r.contains(n) {
                let k = choose|k: int| 0 <= k < r.len() && r[k] == n;
                if k < m.len() {
                    assert(m[k] == n);
                }
            }
            if m.contains(n) {
                let k = choose|k: int| 0 <= k < m.len() && m[k] == n;
                assert(r[k] == n);
            }
            if n == desired.last() {
                assert(r[m.len() as int] == n);
            }
        }
    }
}

/// Whether a rule of the generation for a name stays through the removals.
pub open spec fn stays(
    n: Seq<char>,
    generation: Seq<char>,
    names: Seq<Seq<char>>,
    allow: Seq<Seq<char>>,
    ground: Seq<super::channel::RuleView>,
) -> bool {
    exists|i: int|
        0 <= i < ground.len() && (#[trigger] ground[i]).namespace == n && ground[i].generation
            == Some(generation) && !removable(ground[i], generation, names, allow, ground)
}

/// Where every call succeeds, a cycle without a hold converges: the names
/// with a rule of the generation are then exactly the wanted ones. What is
/// noted as installed before must be there.
pub proof fn law_cycle_converges(
    r: ReconcilerView,
    after_removals: Map<Seq<char>, Seq<char>>,
    ground: Seq<super::channel::RuleView>,
    names: Seq<Seq<char>>,
    desired: Seq<Seq<char>>,
    n: Seq<char>,
)
    requires
        !r.hold,
        forall|m: Seq<char>| #[trigger]
            desired.contains(m) <==> wanted(m, names, r.allow, ground),
        forall|m: Seq<char>| #[trigger]
            r.installed.contains_key(m) ==> exists|i: int|
                0 <= i < ground.len() && (#[trigger] ground[i]).namespace == m
                    && ground[i].generation == Some(r.generation),
        after_removals.submap_of(r.installed),
    ensures
        ({
            let added = installs_of(
                ReconcilerView { installed: after_removals, ..r },
                desired,
            );
            stays(n, r.generation, names, r.allow, ground) || added.contains(n) <==> wanted(
                n,
                names,
                r.allow,
                ground,
            )
        }),
{
    lemma_missing(after_removals, desired, n);
    if wanted(n, names, r.allow, ground) && after_removals.contains_key(n) {
        assert(r.installed.contains_key(n));
        let i = choose|i: int|
            0 <= i < ground.len() && (#[trigger] ground[i]).namespace == n
                && ground[i].generation == Some(r.generation);
        assert(!removable(ground[i], r.generation, names, r.allow, ground));
        assert(stays(n, r.generation, names, r.allow, ground));
    }
    assert(desired.contains(n) <==> wanted(n, names, r.allow, ground));
}

/// Law: what a cycle makes of its lease. One older than 25 seconds engages the
/// hold, whatever else; else a fetch that worked lifts it and one that did not
/// leaves it. Without a heartbeat there is nothing stale.
pub proof fn law_hold_goes_by_the_lease(age: Option<u64>, fetch_ok: bool, hold: bool)
    ensures
        is_stale(age) <==> age is Some && age->Some_0 > 25,
        age is Some && age->Some_0 > 25 ==> holds_after(age, fetch_ok, hold),
        !is_stale(age) && fetch_ok ==> !holds_after(age, fetch_ok, hold),
        !is_stale(age) && !fetch_ok ==> holds_after(age, fetch_ok, hold) == hold,
{
}

/// Law: a stale lease starts a new generation with nothing installed under it;
/// any other keeps both. Whether the reconciler is active, its mode and its
/// allowlist never change by it.
pub proof fn law_stale_lease_starts_anew(
    r: ReconcilerView,
    age: Option<u64>,
    fetch_ok: bool,
    fresh: Seq<char>,
)
    ensures
        ({
            let b = begun(r, age, fetch_ok, fresh);
            &&& age is Some && age->Some_0 > 25 ==> b.generation == fresh && b.installed == Map::<
                Seq<char>,
                Seq<char>,
            >::empty() && b.hold
            &&& !(age is Some && age->Some_0 > 25) ==> b.generation == r.generation && b.installed
                == r.installed
            &&& b.active == r.active && b.mode == r.mode && b.allow == r.allow
        }),
{
}

/// Law: a heartbeat that cannot be read, or lies ahead, has no age; any other
/// has its age in whole seconds, rounded down.
pub proof fn law_heartbeat_age(t: Seq<char>, m: nat, now_micros: nat)
    ensures
        heartbeat_age(None, now_micros) is None,
        text::number(text::trimmed(t), u128::MAX as nat) is None ==> heartbeat_age(
            Some(t),
            now_micros,
        ) is None,
        text::number(text::trimmed(t), u128::MAX as nat) == Some(m) && m > now_micros
            ==> heartbeat_age(Some(t), now_micros) is None,
        text::number(text::trimmed(t), u128::MAX as nat) == Some(m) && m <= now_micros ==> (
        heartbeat_age(Some(t), now_micros) matches Some(a) && a * 1_000_000 <= now_micros - m < (a
            + 1) * 1_000_000),
{
}

/// Law: conflicts are the desired names that a foreign rule stands for, each
/// once.
#[verifier::spinoff_prover]
#[verifier::rlimit(40)]
pub proof fn law_conflicts(
    ground: Seq<super::channel::RuleView>,
    names: Seq<Seq<char>>,
    allow: Seq<Seq<char>>,
    n: Seq<char>,
)
    ensures
        conflicts_of(ground, names, allow).contains(n) <==> super::is_desired(n, names, allow)
            && exists|i: int|
            0 <= i < ground.len() && (#[trigger] ground[i]).generation is None
                && ground[i].namespace == n,
        conflicts_of(ground, names, allow).no_duplicates(),
    decreases ground.len(),
{
    if ground.len() > 0 {
        let t = ground.drop_last();
        let k = ground.len() - 1;
        let r = ground[k];
        law_conflicts(t, names, allow, n);
        law_conflicts(t, names, allow, r.namespace);
        let c = conflicts_of(t, names, allow);
        assert(forall|i: int| 0 <= i < k ==> #[trigger] ground[i] == t[i]);
        if exists|i: int|
            0 <= i < t.len() && (#[trigger] t[i]).generation is None && t[i].namespace == n {
            let i = choose|i: int|
                0 <= i < t.len() && (#[trigger] t[i]).generation is None && t[i].namespace == n;
            assert(ground[i].generation is None);
        }
        let d = conflicts_of(ground, names, allow);
        if d != c {
            assert(d == c.push(r.namespace));
            if c.contains(n) {
                let i = choose|i: int| 0 <= i < c.len() && c[i] == n;
                assert(d[i] == n);
            }
            if r.namespace == n {
                assert(d[c.len() as int] == n);
            }
            if d.contains(n) {
                let i = choose|i: int| 0 <= i < d.len() && d[i] == n;
                if i < c.len() {
                    assert(c[i] == n);
                }
            }
        }
    }
}

/// Law: a rule of ours goes exactly if it is of another generation or its name
/// is no longer wanted; someone else's never does.
pub proof fn law_what_is_removed(
    r: super::channel::RuleView,
    generation: Seq<char>,
    names: Seq<Seq<char>>,
    allow: Seq<Seq<char>>,
    ground: Seq<super::channel::RuleView>,
)
    ensures
        r.generation is None ==> !removable(r, generation, names, allow, ground),
        r.generation is Some && r.generation != Some(generation) ==> removable(
            r,
            generation,
            names,
            allow,
            ground,
        ),
        r.generation == Some(generation) ==> (removable(r, generation, names, allow, ground)
            <==> !super::is_desired(r.namespace, names, allow) || exists|i: int|
            0 <= i < ground.len() && (#[trigger] ground[i]).generation is None
                && ground[i].namespace == r.namespace),
{
}

/// Law: without a hold a rule is installed for exactly the names that are to
/// have one and have none; under a hold for none.
pub proof fn law_what_is_installed(r: ReconcilerView, desired: Seq<Seq<char>>, n: Seq<char>)
    ensures
        r.hold ==> installs_of(r, desired).len() == 0,
        !r.hold ==> (installs_of(r, desired).contains(n) <==> desired.contains(n)
            && !r.installed.contains_key(n)),
{
    lemma_missing(r.installed, desired, n);
}

/// Law: the names without a rule keep their order.
pub proof fn law_missing_keeps_order(
    installed: Map<Seq<char>, Seq<char>>,
    a: Seq<Seq<char>>,
    b: Seq<Seq<char>>,
    n: Seq<char>,
)
    ensures
        missing(installed, a + b) == missing(installed, a) + missing(installed, b),
        installed.contains_key(n) ==> missing(installed, seq![n]).len() == 0,
        !installed.contains_key(n) ==> missing(installed, seq![n]) == seq![n],
    decreases b.len(),
{
    assert(seq![n].drop_last() =~= Seq::<Seq<char>>::empty());
    reveal_with_fuel(missing, 2);
    if !installed.contains_key(n) {
        assert(missing(installed, seq![n]) =~= seq![n]);
    }
    if b.len() == 0 {
        assert(a + b =~= a);
        assert(missing(installed, a) + missing(installed, b) =~= missing(installed, a));
    } else {
        assert((a + b).drop_last() =~= a + b.drop_last());
        assert((a + b).last() == b.last());
        law_missing_keeps_order(installed, a, b.drop_last(), n);
        assert(missing(installed, a + b) =~= missing(installed, a) + missing(installed, b));
    }
}

/// Whether a rule is one of a generation for a name.
pub open spec fn is_rule_for(
    r: super::channel::RuleView,
    generation: Seq<char>,
    n: Seq<char>,
) -> bool {
    r.generation == Some(generation) && r.namespace == n
}

/// Law: what counts as installed is exactly what has a rule of the generation.
#[verifier::spinoff_prover]
#[verifier::rlimit(40)]
pub proof fn law_own_rules(
    ground: Seq<super::channel::RuleView>,
    generation: Seq<char>,
    n: Seq<char>,
)
    ensures
        own_rules(ground, generation).contains_key(n) <==> exists|i: int|
            0 <= i < ground.len() && is_rule_for(#[trigger] ground[i], generation, n),
    decreases ground.len(),
{
    if ground.len() > 0 {
        let t = ground.drop_last();
        let k = ground.len() - 1;
        law_own_rules(t, generation, n);
        if own_rules(t, generation).contains_key(n) {
            let i = choose|i: int| 0 <= i < t.len() && is_rule_for(#[trigger] t[i], generation, n);
            assert(is_rule_for(ground[i], generation, n));
        }
        if is_rule_for(ground[k], generation, n) {
            assert(own_rules(ground, generation).contains_key(n));
        } else if exists|i: int|
            0 <= i < ground.len() && is_rule_for(#[trigger] ground[i], generation, n) {
            let i = choose|i: int|
                0 <= i < ground.len() && is_rule_for(#[trigger] ground[i], generation, n);
            assert(is_rule_for(t[i], generation, n));
        }
    }
}

/// Law: of two rules of the generation for a name the later one's id counts.
pub proof fn law_last_own_rule_counts(
    ground: Seq<super::channel::RuleView>,
    generation: Seq<char>,
    n: Seq<char>,
    i: int,
)
    requires
        0 <= i < ground.len(),
        is_rule_for(ground[i], generation, n),
        forall|j: int| i < j < ground.len() ==> !is_rule_for(#[trigger] ground[j], generation, n),
    ensures
        own_rules(ground, generation)[n] == ground[i].id,
    decreases ground.len(),
{
    let t = ground.drop_last();
    let k = ground.len() - 1;
    if i < k {
        assert(!is_rule_for(ground[k], generation, n));
        assert forall|j: int| i < j < t.len() implies !is_rule_for(
            #[trigger] t[j],
            generation,
            n,
        ) by {
            assert(t[j] == ground[j]);
        }
        law_last_own_rule_counts(t, generation, n, i);
    }
}

/// Law: rejections are counted by their reason, each once.
pub proof fn law_reasons_are_counted(
    a: Seq<(Seq<char>, RejectReason)>,
    b: Seq<(Seq<char>, RejectReason)>,
    n: Seq<char>,
    why: RejectReason,
    other: RejectReason,
)
    ensures
        count_reason(a + b, why) == count_reason(a, why) + count_reason(b, why),
        count_reason(seq![(n, why)], why) == 1,
        why != other ==> count_reason(seq![(n, other)], why) == 0,
    decreases b.len(),
{
    assert(seq![(n, why)].drop_last() =~= Seq::<(Seq<char>, RejectReason)>::empty());
    assert(seq![(n, other)].drop_last() =~= Seq::<(Seq<char>, RejectReason)>::empty());
    reveal_with_fuel(count_reason, 2);
    if b.len() == 0 {
        assert(a + b =~= a);
    } else {
        assert((a + b).drop_last() =~= a + b.drop_last());
        law_reasons_are_counted(a, b.drop_last(), n, why, other);
    }
}

/// Law: a session's end leaves nothing installed and changes nothing else.
pub proof fn law_session_end(r: ReconcilerView, n: Seq<char>)
    ensures
        !ended(r).installed.contains_key(n),
        ended(r).generation == r.generation,
        ended(r).active == r.active,
        ended(r).hold == r.hold,
        ended(r).allow == r.allow,
{
}

/// Law: what a cycle counts: each operation once and only where it happened.
pub proof fn law_what_is_counted(t: TickStats)
    ensures
        t.counted().contains(("install"@, "ok"@)) <==> t.installed > 0,
        t.counted().contains(("remove"@, "ok"@)) <==> t.removed > 0,
        t.counted().contains(("install"@, "error"@)) <==> t.errors > 0,
        t.counted().contains(("conflict"@, "conflict"@)) <==> t.conflicts@.len() > 0,
        t.counted().contains(("conflict"@, "invalid_suffix"@)) <==> t.rejected_invalid > 0,
        t.counted().len() <= 5,
{
    reveal_strlit("install");
    reveal_strlit("remove");
    reveal_strlit("conflict");
    reveal_strlit("invalid_suffix");
    reveal_strlit("ok");
    reveal_strlit("error");
    assert("install"@.len() == 7);
    assert("remove"@.len() == 6);
    assert("conflict"@.len() == 8);
    assert("invalid_suffix"@.len() == 14);
    assert("ok"@.len() == 2);
    assert("error"@.len() == 5);
    let e = Seq::<(Seq<char>, Seq<char>)>::empty();
    let a = if t.rejected_invalid > 0 {
        seq![("conflict"@, "invalid_suffix"@)]
    } else {
        e
    };
    let b = if t.conflicts@.len() > 0 {
        a.push(("conflict"@, "conflict"@))
    } else {
        a
    };
    let c = if t.installed > 0 {
        b.push(("install"@, "ok"@))
    } else {
        b
    };
    let d = if t.removed > 0 {
        c.push(("remove"@, "ok"@))
    } else {
        c
    };
    lemma_pushed(e, ("conflict"@, "invalid_suffix"@));
    assert(e.push(("conflict"@, "invalid_suffix"@)) =~= seq![("conflict"@, "invalid_suffix"@)]);
    lemma_pushed(a, ("conflict"@, "conflict"@));
    lemma_pushed(b, ("install"@, "ok"@));
    lemma_pushed(c, ("remove"@, "ok"@));
    lemma_pushed(d, ("install"@, "error"@));
}

proof fn lemma_pushed(s: Seq<(Seq<char>, Seq<char>)>, x: (Seq<char>, Seq<char>))
    ensures
        forall|y: (Seq<char>, Seq<char>)| #[trigger]
            s.push(x).contains(y) <==> s.contains(y) || y == x,
{
    assert forall|y: (Seq<char>, Seq<char>)| #[trigger]
        s.push(x).contains(y) <==> s.contains(y) || y == x by {
        if s.contains(y) {
            let i = choose|i: int| 0 <= i < s.len() && s[i] == y;
            assert(s.push(x)[i] == y);
        }
        if y == x {
            assert(s.push(x)[s.len() as int] == y);
        }
        if s.push(x).contains(y) {
            let i = choose|i: int| 0 <= i < s.push(x).len() && s.push(x)[i] == y;
            if i < s.len() {
                assert(s[i] == y);
            }
        }
    }
}

} // verus!
