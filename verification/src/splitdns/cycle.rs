//! One cycle of convergence, call by call.
//!
//! The caller makes each call on the resolver and says what came of it. The
//! heartbeat is renewed by the cycle's last action alone, so that a cycle that
//! hangs in a call never renews it.

use vstd::prelude::*;

use super::channel::{InstalledRule, RuleView};
use super::reconciler::{LeaseDecision, Reconciler, ReconcilerView, StatsView, TickStats};
use super::{channel, reconciler, RejectReason};
use crate::text;

verus! {

/// Where a cycle stands.
#[derive(Clone, Copy, Debug, PartialEq, Eq, Structural)]
pub enum CyclePhase {
    /// The rules are being looked at.
    Look,
    /// The removal with this number is being made.
    Remove { at: usize },
    /// The install with this number is being made.
    Install { at: usize },
    /// The rules are being looked at again, for their ids.
    Reread,
    Over,
}

/// What came of a call.
#[derive(Debug)]
pub enum CycleEvent {
    /// The rules that are there.
    Seen(Vec<InstalledRule>),
    /// The rules could not be looked at.
    Unseen,
    /// The rule was removed, or installed.
    Done,
    /// It was not.
    Failed,
}

/// What to do next.
#[derive(Clone, Copy, Debug, PartialEq, Eq, Structural)]
pub enum CycleAction {
    /// Remove the rule at this place of the rules that were seen.
    Remove(usize),
    /// Install a rule for this one of the names to install.
    Install(usize),
    LookAgain,
    /// Write the journal, publish the counts, renew the heartbeat.
    Finish,
    /// Renew the heartbeat.
    Beat,
    /// The event does not belong to the phase.
    Ignore,
}

/// A cycle: what it saw, what it is to do, and what it came to.
pub struct Cycle {
    phase: CyclePhase,
    ground: Vec<InstalledRule>,
    desired: Vec<String>,
    removals: Vec<usize>,
    installs: Vec<String>,
    stats: TickStats,
}

/// Model of a [`Cycle`].
#[verifier::ext_equal]
pub struct CycleView {
    pub phase: CyclePhase,
    pub ground: Seq<RuleView>,
    pub desired: Seq<Seq<char>>,
    pub removals: Seq<usize>,
    pub installs: Seq<Seq<char>>,
    pub stats: StatsView,
}

impl View for Cycle {
    type V = CycleView;

    closed spec fn view(&self) -> CycleView {
        CycleView {
            phase: self.phase,
            ground: channel::rule_views(self.ground@),
            desired: text::strs(self.desired@),
            removals: self.removals@,
            installs: text::strs(self.installs@),
            stats: self.stats@,
        }
    }
}

/// Nothing done.
pub open spec fn no_stats() -> StatsView {
    StatsView {
        installed: 0,
        removed: 0,
        conflicts: Seq::empty(),
        rejected_invalid: 0,
        rejected_not_allowlisted: 0,
        errors: 0,
    }
}

/// A cycle that has seen and done nothing.
pub open spec fn fresh_cycle() -> CycleView {
    CycleView {
        phase: CyclePhase::Look,
        ground: Seq::empty(),
        desired: Seq::empty(),
        removals: Seq::empty(),
        installs: Seq::empty(),
        stats: no_stats(),
    }
}

/// One more, within the counter's range.
pub open spec fn one_more(n: usize) -> usize {
    if n == usize::MAX {
        n
    } else {
        (n + 1) as usize
    }
}

fn add_one(n: usize) -> (r: usize)
    ensures
        r == one_more(n),
{
    if n == usize::MAX {
        n
    } else {
        n + 1
    }
}

/// The end of the installs: another look where something changed and nothing
/// is held back, else the end.
pub open spec fn at_end(v: CycleView, r: ReconcilerView) -> (CycleView, CycleAction) {
    if !r.hold && (v.stats.installed > 0 || v.stats.removed > 0) {
        (CycleView { phase: CyclePhase::Reread, ..v }, CycleAction::LookAgain)
    } else {
        (CycleView { phase: CyclePhase::Over, ..v }, CycleAction::Finish)
    }
}

/// The install with a number, or what follows the last.
pub open spec fn at_install(v: CycleView, r: ReconcilerView, at: int) -> (CycleView, CycleAction) {
    if at < v.installs.len() {
        (
            CycleView { phase: CyclePhase::Install { at: at as usize }, ..v },
            CycleAction::Install(at as usize),
        )
    } else {
        at_end(v, r)
    }
}

/// The removal with a number, or what follows the last: the installs, decided
/// on what is installed by then.
pub open spec fn at_removal(v: CycleView, r: ReconcilerView, at: int) -> (CycleView, CycleAction) {
    if at < v.removals.len() {
        (
            CycleView { phase: CyclePhase::Remove { at: at as usize }, ..v },
            CycleAction::Remove(v.removals[at]),
        )
    } else {
        at_install(
            CycleView { installs: reconciler::installs_of(r, v.desired), ..v },
            r,
            0,
        )
    }
}

/// Whether this is the cycle after a look at the rules: nothing done, and the
/// plan made.
pub open spec fn looked(
    v: CycleView,
    r: ReconcilerView,
    ground: Seq<RuleView>,
    names: Seq<Seq<char>>,
) -> bool {
    &&& v.phase == CyclePhase::Look
    &&& v.ground == ground
    &&& reconciler::is_plan(r, ground, names, v.desired, v.stats.conflicts, v.removals)
    &&& v.installs.len() == 0
    &&& v.stats == (StatsView {
        conflicts: v.stats.conflicts,
        rejected_invalid: v.stats.rejected_invalid,
        rejected_not_allowlisted: v.stats.rejected_not_allowlisted,
        ..no_stats()
    })
    &&& v.stats.rejected_invalid == reconciler::count_reason(
        super::rejections(names, r.allow),
        RejectReason::InvalidSuffix,
    )
    &&& v.stats.rejected_invalid + v.stats.rejected_not_allowlisted == super::rejections(
        names,
        r.allow,
    ).len()
}

/// Whether a cycle and a reconciler go on like this after an event.
pub open spec fn goes_on(
    v: CycleView,
    r: ReconcilerView,
    event: CycleEvent,
    names: Seq<Seq<char>>,
    w: CycleView,
    s: ReconcilerView,
    a: CycleAction,
) -> bool {
    match (v.phase, event) {
        (CyclePhase::Look, CycleEvent::Seen(g)) => s == r && exists|u: CycleView| #[trigger]
            looked(u, r, channel::rule_views(g@), names) && (w, a) == at_removal(u, r, 0),
        (CyclePhase::Look, CycleEvent::Unseen) => s == r && a == CycleAction::Beat && w
            == (CycleView { phase: CyclePhase::Over, ..v }),
        (CyclePhase::Remove { at }, CycleEvent::Done) => {
            let gone = v.ground[v.removals[at as int] as int].namespace;
            let u = CycleView {
                stats: StatsView { removed: one_more(v.stats.removed), ..v.stats },
                ..v
            };
            s == (ReconcilerView { installed: r.installed.remove(gone), ..r }) && (w, a)
                == at_removal(u, s, at + 1)
        },
        (CyclePhase::Remove { at }, CycleEvent::Failed) => {
            let u = CycleView {
                stats: StatsView { errors: one_more(v.stats.errors), ..v.stats },
                ..v
            };
            s == r && (w, a) == at_removal(u, r, at + 1)
        },
        (CyclePhase::Install { at }, CycleEvent::Done) => {
            let u = CycleView {
                stats: StatsView { installed: one_more(v.stats.installed), ..v.stats },
                ..v
            };
            s == r && (w, a) == at_install(u, r, at + 1)
        },
        (CyclePhase::Install { at }, CycleEvent::Failed) => {
            let u = CycleView {
                stats: StatsView { errors: one_more(v.stats.errors), ..v.stats },
                ..v
            };
            s == r && (w, a) == at_install(u, r, at + 1)
        },
        (CyclePhase::Reread, CycleEvent::Seen(g)) => s == (ReconcilerView {
            installed: reconciler::own_rules(channel::rule_views(g@), r.generation),
            ..r
        }) && a == CycleAction::Finish && w == (CycleView { phase: CyclePhase::Over, ..v }),
        (CyclePhase::Reread, CycleEvent::Unseen) => s == r && a == CycleAction::Finish && w
            == (CycleView { phase: CyclePhase::Over, ..v }),
        _ => s == r && w == v && a == CycleAction::Ignore,
    }
}

/// Whether the places to remove are places of tagged rules that were seen, the
/// number in the phase is one of the removals or installs, and the lists fit in
/// memory.
pub open spec fn sound(v: CycleView) -> bool {
    &&& forall|k: int|
        0 <= k < v.removals.len() ==> (#[trigger] v.removals[k]) < v.ground.len()
            && v.ground[v.removals[k] as int].generation is Some
    &&& v.phase matches CyclePhase::Remove { at } ==> at < v.removals.len()
    &&& v.phase matches CyclePhase::Install { at } ==> at < v.installs.len()
    &&& v.removals.len() <= usize::MAX
    &&& v.desired.len() <= usize::MAX
    &&& v.installs.len() <= usize::MAX
}

impl Cycle {
    /// The cycle's bookkeeping fits together.
    pub open spec fn wf(&self) -> bool {
        sound(self@)
    }

    /// Begins a cycle: the lease is looked at first, then the rules. An
    /// inactive reconciler has no cycles.
    pub fn start(
        r: &mut Reconciler,
        prev_age_secs: Option<u64>,
        fetch_ok: bool,
        fresh: String,
    ) -> (c: Option<(Cycle, LeaseDecision)>)
        requires
            old(r).wf(),
        ensures
            final(r).wf(),
            c is Some <==> old(r)@.active,
            c is None ==> final(r)@ == old(r)@,
            c matches Some((c, lease)) ==> {
                &&& c.wf()
                &&& c@ == fresh_cycle()
                &&& lease.stale == reconciler::is_stale(prev_age_secs)
                &&& lease.clear_hold == (old(r)@.hold && !lease.stale && fetch_ok)
                &&& final(r)@ == reconciler::begun(old(r)@, prev_age_secs, fetch_ok, fresh@)
            },
    {
        if !r.active() {
            return None;
        }
        let lease = r.begin(prev_age_secs, fetch_ok, fresh);
        let c = Cycle {
            phase: CyclePhase::Look,
            ground: Vec::new(),
            desired: Vec::new(),
            removals: Vec::new(),
            installs: Vec::new(),
            stats: TickStats {
                installed: 0,
                removed: 0,
                conflicts: Vec::new(),
                rejected_invalid: 0,
                rejected_not_allowlisted: 0,
                errors: 0,
            },
        };
        assert(c@ == fresh_cycle());
        Some((c, lease))
    }

    /// The rule that an action names.
    pub fn rule(&self, at: usize) -> (r: Option<&InstalledRule>)
        ensures
            match r {
                Some(x) => at < self@.ground.len() && x@ == self@.ground[at as int],
                None => at >= self@.ground.len(),
            },
    {
        if at < self.ground.len() {
            Some(&self.ground[at])
        } else {
            None
        }
    }

    /// The name that an action names.
    pub fn name(&self, at: usize) -> (r: Option<&String>)
        ensures
            match r {
                Some(x) => at < self@.installs.len() && x@ == self@.installs[at as int],
                None => at >= self@.installs.len(),
            },
    {
        if at < self.installs.len() {
            Some(&self.installs[at])
        } else {
            None
        }
    }

    /// The desired names left to someone else.
    pub fn conflicts(&self) -> (r: &Vec<String>)
        ensures
            text::strs(r@) == self@.stats.conflicts,
    {
        &self.stats.conflicts
    }

    /// What the cycle came to.
    pub fn stats(&self) -> (r: &TickStats)
        ensures
            r@ == self@.stats,
    {
        &self.stats
    }

    fn enter_end(&mut self, r: &Reconciler) -> (a: CycleAction)
        requires
            sound(old(self)@),
            r.wf(),
        ensures
            sound(final(self)@),
            (final(self)@, a) == at_end(old(self)@, r@),
    {
        if self.stats.rereads(r.on_hold()) {
            self.phase = CyclePhase::Reread;
            CycleAction::LookAgain
        } else {
            self.phase = CyclePhase::Over;
            CycleAction::Finish
        }
    }

    fn enter_install(&mut self, r: &Reconciler, at: usize) -> (a: CycleAction)
        requires
            sound(old(self)@),
            r.wf(),
        ensures
            sound(final(self)@),
            (final(self)@, a) == at_install(old(self)@, r@, at as int),
    {
        if at < self.installs.len() {
            self.phase = CyclePhase::Install { at };
            CycleAction::Install(at)
        } else {
            self.enter_end(r)
        }
    }

    fn enter_removal(&mut self, r: &Reconciler, at: usize) -> (a: CycleAction)
        requires
            sound(old(self)@),
            !(old(self)@.phase is Install),
            r.wf(),
        ensures
            sound(final(self)@),
            (final(self)@, a) == at_removal(old(self)@, r@, at as int),
    {
        if at < self.removals.len() {
            self.phase = CyclePhase::Remove { at };
            CycleAction::Remove(self.removals[at])
        } else {
            self.installs = r.installs(&self.desired);
            let _n: usize = self.installs.len();
            self.enter_install(r, 0)
        }
    }

    fn seen(&mut self, r: &Reconciler, g: Vec<InstalledRule>, zone_names: &Vec<String>) -> (a:
        CycleAction)
        requires
            old(self)@.phase == CyclePhase::Look,
            r.wf(),
        ensures
            sound(final(self)@),
            exists|u: CycleView| #[trigger]
                looked(u, r@, channel::rule_views(g@), text::strs(zone_names@)) && (
                    final(self)@,
                    a,
                ) == at_removal(u, r@, 0),
    {
        let p = r.plan(&g, zone_names);
        let _removals: usize = p.removals.len();
        let _desired: usize = p.desired.len();
        let c = Cycle {
            phase: CyclePhase::Look,
            ground: g,
            desired: p.desired,
            removals: p.removals,
            installs: Vec::new(),
            stats: TickStats {
                installed: 0,
                removed: 0,
                conflicts: p.conflicts,
                rejected_invalid: p.rejected_invalid,
                rejected_not_allowlisted: p.rejected_not_allowlisted,
                errors: 0,
            },
        };
        let ghost u = c@;
        let ghost names = text::strs(zone_names@);
        proof {
            assert(u.installs.len() == 0);
            assert(looked(u, r@, channel::rule_views(g@), names));
            lemma_looked(u, r@, channel::rule_views(g@), names);
        }
        *self = c;
        self.enter_removal(r, 0)
    }

    /// Takes a cycle one call further.
    pub fn step(
        &mut self,
        r: &mut Reconciler,
        event: CycleEvent,
        zone_names: &Vec<String>,
    ) -> (a: CycleAction)
        requires
            old(self).wf(),
            old(r).wf(),
        ensures
            final(self).wf(),
            final(r).wf(),
            goes_on(
                old(self)@,
                old(r)@,
                event,
                text::strs(zone_names@),
                final(self)@,
                final(r)@,
                a,
            ),
    {
        match (self.phase, event) {
            (CyclePhase::Look, CycleEvent::Seen(g)) => self.seen(r, g, zone_names),
            (CyclePhase::Look, CycleEvent::Unseen) => {
                self.phase = CyclePhase::Over;
                CycleAction::Beat
            },
            (CyclePhase::Remove { at }, CycleEvent::Done) => {
                let i: usize = self.removals[at];
                assert(self@.removals[at as int] == i);
                r.removed(&self.ground[i].namespace);
                self.stats.removed = add_one(self.stats.removed);
                self.enter_removal(r, at + 1)
            },
            (CyclePhase::Remove { at }, CycleEvent::Failed) => {
                self.stats.errors = add_one(self.stats.errors);
                self.enter_removal(r, at + 1)
            },
            (CyclePhase::Install { at }, CycleEvent::Done) => {
                self.stats.installed = add_one(self.stats.installed);
                self.enter_install(r, at + 1)
            },
            (CyclePhase::Install { at }, CycleEvent::Failed) => {
                self.stats.errors = add_one(self.stats.errors);
                self.enter_install(r, at + 1)
            },
            (CyclePhase::Reread, CycleEvent::Seen(g)) => {
                r.refresh(&g);
                self.phase = CyclePhase::Over;
                CycleAction::Finish
            },
            (CyclePhase::Reread, CycleEvent::Unseen) => {
                self.phase = CyclePhase::Over;
                CycleAction::Finish
            },
            _ => CycleAction::Ignore,
        }
    }
}

proof fn lemma_looked(
    v: CycleView,
    r: ReconcilerView,
    ground: Seq<RuleView>,
    names: Seq<Seq<char>>,
)
    requires
        looked(v, r, ground, names),
    ensures
        forall|k: int|
            0 <= k < v.removals.len() ==> (#[trigger] v.removals[k]) < v.ground.len()
                && v.ground[v.removals[k] as int].generation is Some,
{
    assert forall|k: int| 0 <= k < v.removals.len() implies (#[trigger] v.removals[k])
        < v.ground.len() && v.ground[v.removals[k] as int].generation is Some by {
        assert(v.removals.contains(v.removals[k]));
    }
}

// ---------------------------------------------------------------------
// Laws
// ---------------------------------------------------------------------

/// Whether an action renews the heartbeat.
pub open spec fn renews(a: CycleAction) -> bool {
    a == CycleAction::Finish || a == CycleAction::Beat
}

/// Law: the heartbeat is renewed by the action that ends the cycle and by no
/// other. A cycle that hangs in a call has not renewed it, and one that is over
/// does not renew it again.
pub proof fn law_heartbeat_comes_last(
    v: CycleView,
    r: ReconcilerView,
    event: CycleEvent,
    names: Seq<Seq<char>>,
    w: CycleView,
    s: ReconcilerView,
    a: CycleAction,
)
    requires
        goes_on(v, r, event, names, w, s, a),
    ensures
        v.phase != CyclePhase::Over ==> (renews(a) <==> w.phase == CyclePhase::Over),
        v.phase == CyclePhase::Over ==> w == v && s == r && !renews(a),
{
}

/// Law: under a hold a cycle installs nothing. The hold does not change within
/// a cycle.
pub proof fn law_held_cycle_installs_nothing(
    v: CycleView,
    r: ReconcilerView,
    event: CycleEvent,
    names: Seq<Seq<char>>,
    w: CycleView,
    s: ReconcilerView,
    a: CycleAction,
)
    requires
        goes_on(v, r, event, names, w, s, a),
        r.hold,
        !(v.phase is Install),
    ensures
        s.hold,
        !(w.phase is Install),
        !(a is Install),
{
}

/// Law: a cycle removes tagged rules only: a foreign rule is never touched.
pub proof fn law_cycle_removes_tagged_rules_only(
    v: CycleView,
    r: ReconcilerView,
    event: CycleEvent,
    names: Seq<Seq<char>>,
    w: CycleView,
    s: ReconcilerView,
    a: CycleAction,
)
    requires
        sound(v),
        goes_on(v, r, event, names, w, s, a),
    ensures
        a matches CycleAction::Remove(i) ==> i < w.ground.len()
            && w.ground[i as int].generation is Some,
{
    if v.phase == CyclePhase::Look {
        if let CycleEvent::Seen(g) = event {
            let u = choose|u: CycleView| #[trigger]
                looked(u, r, channel::rule_views(g@), names) && (w, a) == at_removal(u, r, 0);
            lemma_looked(u, r, channel::rule_views(g@), names);
        }
    }
}

/// How far a cycle still has to go: stages, and calls within the stage.
pub open spec fn left(v: CycleView) -> (nat, nat) {
    match v.phase {
        CyclePhase::Look => (4, 0),
        CyclePhase::Remove { at } => (3, (v.removals.len() - at) as nat),
        CyclePhase::Install { at } => (2, (v.installs.len() - at) as nat),
        CyclePhase::Reread => (1, 0),
        CyclePhase::Over => (0, 0),
    }
}

/// Law: every event that belongs to its phase brings the cycle nearer its end,
/// so that it ends after finitely many calls.
pub proof fn law_cycle_ends(
    v: CycleView,
    r: ReconcilerView,
    event: CycleEvent,
    names: Seq<Seq<char>>,
    w: CycleView,
    s: ReconcilerView,
    a: CycleAction,
)
    requires
        sound(v),
        sound(w),
        goes_on(v, r, event, names, w, s, a),
        a != CycleAction::Ignore,
    ensures
        left(w).0 < left(v).0 || (left(w).0 == left(v).0 && left(w).1 < left(v).1),
{
}

/// Law: removals come first, one after the other, and none is left out; the
/// installs follow the last one, and none of them is left out either.
pub proof fn law_removals_before_installs(v: CycleView, r: ReconcilerView, at: int)
    requires
        0 <= at,
        v.removals.len() <= usize::MAX,
        v.installs.len() <= usize::MAX,
    ensures
        at < v.removals.len() ==> at_removal(v, r, at).1 == CycleAction::Remove(v.removals[at])
            && at_removal(v, r, at).0.phase == (CyclePhase::Remove { at: at as usize }),
        at >= v.removals.len() && reconciler::installs_of(r, v.desired).len() > 0 ==> at_removal(
            v,
            r,
            at,
        ).1 == CycleAction::Install(0) && at_removal(v, r, at).0.installs
            == reconciler::installs_of(r, v.desired),
        at < v.installs.len() ==> at_install(v, r, at).1 == CycleAction::Install(at as usize)
            && at_install(v, r, at).0.phase == (CyclePhase::Install { at: at as usize }),
        at >= v.installs.len() ==> at_install(v, r, at).1 == CycleAction::Finish || at_install(
            v,
            r,
            at,
        ).1 == CycleAction::LookAgain,
{
}

/// Law: a cycle ends with another look exactly if it changed something and
/// nothing is held back.
pub proof fn law_changes_are_looked_at(v: CycleView, r: ReconcilerView)
    ensures
        at_end(v, r).1 == CycleAction::LookAgain <==> !r.hold && (v.stats.installed > 0
            || v.stats.removed > 0),
        at_end(v, r).1 == CycleAction::LookAgain || at_end(v, r).1 == CycleAction::Finish,
        at_end(v, r).1 == CycleAction::LookAgain <==> at_end(v, r).0.phase == CyclePhase::Reread,
        at_end(v, r).0.stats == v.stats,
{
}

/// Law: what a cycle counts and keeps. A removal that worked counts, and its
/// name no longer has a rule; one that failed counts as an error and changes
/// nothing; installs count likewise; and either way the next one follows.
pub proof fn law_outcomes_are_counted(
    v: CycleView,
    r: ReconcilerView,
    event: CycleEvent,
    names: Seq<Seq<char>>,
    w: CycleView,
    s: ReconcilerView,
    a: CycleAction,
)
    requires
        goes_on(v, r, event, names, w, s, a),
        sound(v),
    ensures
        v.phase matches CyclePhase::Remove { at } ==> {
            &&& event == CycleEvent::Done ==> w.stats.removed == one_more(v.stats.removed)
                && w.stats.errors == v.stats.errors && !s.installed.contains_key(
                v.ground[v.removals[at as int] as int].namespace,
            )
            &&& event == CycleEvent::Failed ==> w.stats.errors == one_more(v.stats.errors)
                && w.stats.removed == v.stats.removed && s == r
            &&& (event == CycleEvent::Done || event == CycleEvent::Failed) && at + 1
                < v.removals.len() ==> a == CycleAction::Remove(v.removals[at + 1])
        },
        v.phase matches CyclePhase::Install { at } ==> {
            &&& s == r
            &&& event == CycleEvent::Done ==> w.stats.installed == one_more(v.stats.installed)
                && w.stats.errors == v.stats.errors
            &&& event == CycleEvent::Failed ==> w.stats.errors == one_more(v.stats.errors)
                && w.stats.installed == v.stats.installed
            &&& (event == CycleEvent::Done || event == CycleEvent::Failed) && at + 1
                < v.installs.len() ==> a == CycleAction::Install((at + 1) as usize)
        },
        v.phase == CyclePhase::Reread ==> (event matches CycleEvent::Seen(g) ==> s.installed
            == reconciler::own_rules(channel::rule_views(g@), r.generation) && a
            == CycleAction::Finish),
        v.phase == CyclePhase::Look && event == CycleEvent::Unseen ==> s == r && a
            == CycleAction::Beat && w.phase == CyclePhase::Over,
        v.phase == CyclePhase::Over ==> a == CycleAction::Ignore && w == v && s == r,
        s.generation == r.generation && s.hold == r.hold && s.active == r.active && s.allow
            == r.allow,
{
}

/// Law: counters go up by one, and stay at their end.
pub proof fn law_one_more(n: usize)
    ensures
        n < usize::MAX ==> one_more(n) == n + 1,
        n == usize::MAX ==> one_more(n) == n,
{
}

} // verus!
