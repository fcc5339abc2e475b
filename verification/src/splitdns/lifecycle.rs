//! What holds of a reconciler over a whole session: cycle after cycle, up to
//! its end.

use vstd::prelude::*;

use super::channel::RuleView;
use super::cycle::{CycleAction, CycleEvent, CyclePhase, CycleView};
use super::reconciler::ReconcilerView;
use super::{cycle, reconciler};

verus! {

/// A reconciler and the cycle it is in, if any.
#[verifier::ext_equal]
pub struct LifeView {
    pub r: ReconcilerView,
    pub cycle: Option<CycleView>,
}

/// What happens to a reconciler.
pub enum LifeEvent {
    /// A cycle is begun.
    Begin { prev_age_secs: Option<u64>, fetch_ok: bool, fresh: Seq<char> },
    /// A call of the cycle has come back.
    Call { event: CycleEvent, names: Seq<Seq<char>> },
    Deactivate,
    /// The session ends; the rules that are there, if they could be looked at.
    Shutdown { ground: Option<Seq<RuleView>> },
}

/// What a reconciler has its caller do.
pub enum LifeAction {
    /// Nothing: no rule is added or removed, nothing is written.
    Quiet,
    /// Look at the rules that are there.
    Look,
    Cycle(CycleAction),
    /// Remove the rules at these places and write an empty journal.
    Clean(Seq<usize>),
}

/// Whether no cycle is under way.
pub open spec fn idle(x: LifeView) -> bool {
    x.cycle matches Some(v) ==> v.phase == CyclePhase::Over
}

/// Whether a reconciler goes on like this: as its operations say. A cycle under
/// way runs to its end before anything else is begun.
pub open spec fn lives_on(x: LifeView, e: LifeEvent, y: LifeView, a: LifeAction) -> bool {
    match e {
        LifeEvent::Begin { prev_age_secs, fetch_ok, fresh } => idle(x) && if x.r.active {
            &&& y.r == reconciler::begun(x.r, prev_age_secs, fetch_ok, fresh)
            &&& y.cycle == Some(cycle::fresh_cycle())
            &&& a == LifeAction::Look
        } else {
            y == x && a == LifeAction::Quiet
        },
        LifeEvent::Call { event, names } => match (x.cycle, y.cycle, a) {
            (Some(v), Some(w), LifeAction::Cycle(c)) => cycle::goes_on(
                v,
                x.r,
                event,
                names,
                w,
                y.r,
                c,
            ) && v.phase != CyclePhase::Over,
            _ => false,
        },
        LifeEvent::Deactivate => idle(x) && y == (LifeView {
            r: ReconcilerView { active: false, ..x.r },
            ..x
        }) && a == LifeAction::Quiet,
        LifeEvent::Shutdown { ground } => idle(x) && if x.r.active {
            &&& y == (LifeView { r: reconciler::ended(x.r), ..x })
            &&& a matches LifeAction::Clean(places)
            &&& match ground {
                Some(g) => reconciler::are_tagged(g, places),
                None => places.len() == 0,
            }
        } else {
            y == x && a == LifeAction::Quiet
        },
    }
}

/// Whether `states` is a life: each state follows from the one before by the
/// event between them, with the action between them.
pub open spec fn is_life(
    states: Seq<LifeView>,
    events: Seq<LifeEvent>,
    actions: Seq<LifeAction>,
) -> bool {
    &&& states.len() == events.len() + 1
    &&& actions.len() == events.len()
    &&& forall|k: int|
        0 <= k < events.len() ==> lives_on(states[k], #[trigger] events[k], states[k + 1], actions[k])
}

/// Law: a reconciler that was turned off stays off for good. Every later cycle,
/// and the session's end, adds and removes no rule and writes neither the
/// journal nor the heartbeat; turning it off again changes nothing.
pub proof fn law_deactivated_does_nothing(
    states: Seq<LifeView>,
    events: Seq<LifeEvent>,
    actions: Seq<LifeAction>,
    n: int,
)
    requires
        is_life(states, events, actions),
        !states[0].r.active,
        idle(states[0]),
        0 <= n <= events.len(),
    ensures
        states[n] == states[0],
        forall|k: int| 0 <= k < n ==> #[trigger] actions[k] == LifeAction::Quiet,
    decreases n,
{
    if n > 0 {
        law_deactivated_does_nothing(states, events, actions, n - 1);
        assert(lives_on(states[n - 1], events[n - 1], states[n], actions[n - 1]));
    }
}

/// Whether an event lifts a hold: a cycle begun on a lease that is not stale,
/// in good health.
pub open spec fn lifts(e: LifeEvent) -> bool {
    e matches LifeEvent::Begin { prev_age_secs, fetch_ok, .. } && fetch_ok && !reconciler::is_stale(
        prev_age_secs,
    )
}

/// Whether nothing is being installed in this state.
pub open spec fn held(x: LifeView) -> bool {
    x.r.hold && (x.cycle matches Some(v) ==> !(v.phase is Install))
}

/// Law: once a cycle was begun on a stale lease, nothing is installed, in that
/// cycle or a later one, until one is begun in good health on a lease that is
/// not stale. The heartbeat that the stale cycle itself renews does not lift
/// the hold.
pub proof fn law_stale_lease_holds_installs(
    states: Seq<LifeView>,
    events: Seq<LifeEvent>,
    actions: Seq<LifeAction>,
    n: int,
)
    requires
        is_life(states, events, actions),
        events.len() > 0,
        states[0].r.active,
        events[0] matches LifeEvent::Begin { prev_age_secs, .. } && reconciler::is_stale(
            prev_age_secs,
        ),
        0 < n <= events.len(),
        forall|k: int| 0 < k < n ==> !lifts(#[trigger] events[k]),
    ensures
        events[0] matches LifeEvent::Begin { fresh, .. } ==> states[1].r.generation == fresh,
        held(states[n]),
        forall|k: int|
            0 <= k < n ==> !(#[trigger] actions[k] matches LifeAction::Cycle(CycleAction::Install(_))),
    decreases n,
{
    assert(lives_on(states[0], events[0], states[1], actions[0]));
    if n > 1 {
        law_stale_lease_holds_installs(states, events, actions, n - 1);
        assert(lives_on(states[n - 1], events[n - 1], states[n], actions[n - 1]));
        assert(!lifts(events[n - 1]));
    }
}

/// Law: in a cycle under a generation that no rule carries, as it is after a
/// stale lease, every tagged rule is to be removed.
pub proof fn law_fresh_generation_removes_all(
    u: CycleView,
    r: ReconcilerView,
    ground: Seq<RuleView>,
    names: Seq<Seq<char>>,
    i: usize,
)
    requires
        cycle::looked(u, r, ground, names),
        forall|k: int| 0 <= k < ground.len() ==> (#[trigger] ground[k]).generation != Some(
            r.generation,
        ),
        i < ground.len(),
        ground[i as int].generation is Some,
    ensures
        u.removals.contains(i),
{
    assert(ground[i as int].generation != Some(r.generation));
}

/// Law: at the end of a session every tagged rule is to be removed, and no
/// other. Nothing is noted as installed afterwards.
pub proof fn law_shutdown_removes_all_tagged(
    x: LifeView,
    ground: Seq<RuleView>,
    y: LifeView,
    places: Seq<usize>,
    i: usize,
)
    requires
        lives_on(
            x,
            LifeEvent::Shutdown { ground: Some(ground) },
            y,
            LifeAction::Clean(places),
        ),
        i < ground.len(),
    ensures
        places.contains(i) <==> ground[i as int].generation is Some,
        y.r.installed == Map::<Seq<char>, Seq<char>>::empty(),
{
}

/// Law: an active reconciler begins every cycle with a look, and nothing seen
/// or done before counts in it; one that is not active stays quiet and as it
/// is. Deactivating changes nothing else.
pub proof fn law_begin_looks(x: LifeView, e: LifeEvent, y: LifeView, a: LifeAction)
    requires
        lives_on(x, e, y, a),
    ensures
        e is Begin && x.r.active ==> a == LifeAction::Look && (y.cycle matches Some(v) && v.phase
            == CyclePhase::Look && v.stats.installed == 0 && v.stats.removed == 0 && v.stats.errors
            == 0),
        e is Begin && !x.r.active ==> a == LifeAction::Quiet && y == x,
        e == LifeEvent::Deactivate ==> !y.r.active && a == LifeAction::Quiet && y.r.installed
            == x.r.installed && y.r.generation == x.r.generation && y.cycle == x.cycle,
        e is Shutdown && x.r.active ==> a is Clean && y.r.installed == Map::<
            Seq<char>,
            Seq<char>,
        >::empty(),
        e is Shutdown && !x.r.active ==> a == LifeAction::Quiet && y == x,
        e is Begin || e is Shutdown || e == LifeEvent::Deactivate ==> idle(x),
{
}

/// Law: which beginnings lift a hold: those whose fetch worked and whose lease
/// is not over 25 seconds old.
pub proof fn law_what_lifts(age: Option<u64>, fetch_ok: bool, fresh: Seq<char>)
    ensures
        lifts(LifeEvent::Begin { prev_age_secs: age, fetch_ok, fresh }) <==> fetch_ok && !(age
            is Some && age->Some_0 > 25),
        !lifts(LifeEvent::Deactivate),
{
}

} // verus!
