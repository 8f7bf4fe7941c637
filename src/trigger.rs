use crate::probe::ProbeError;
use std::time::Duration;
use vstd::prelude::*;

verus! {

/// What an observation ends with: the condition was met, or the probe failed.
pub type Resolution = Result<(), ProbeError>;

/// Re-checks on a fixed period whether the Wi-Fi interface is active.
#[derive(Debug, Clone, Copy)]
pub struct WifiConnected {
    pub interval: Duration,
}

/// Resolves with success as soon as it is observed, with no check.
#[derive(Debug, Clone, Copy, PartialEq, Eq, Structural)]
pub struct AfterLaunchSchedulerLaunched {}

/// The trigger of one configured application.
#[derive(Debug, Clone, Copy)]
pub enum TriggerKind {
    WifiConnected(WifiConnected),
    AfterLaunchSchedulerLaunched(AfterLaunchSchedulerLaunched),
}

/// Where an observation stands.
#[derive(Debug, Clone, Copy, PartialEq, Eq, Structural)]
pub enum Phase {
    /// Not started.
    Idle,
    /// Waiting for the answer of the probe.
    Probing,
    /// Waiting for the end of the pause between two probes.
    Sleeping,
    /// The resolution was handed out; nothing more happens.
    Resolved,
}

/// What the runner reports to an observation.
#[derive(Debug, Clone, Copy, PartialEq, Eq)]
pub enum Event {
    /// Observation begins.
    Start,
    /// The probe answered.
    Probed(Result<bool, ProbeError>),
    /// The pause asked for is over.
    Woke,
}

/// What an observation asks the runner to do next.
#[derive(Debug, Clone, Copy, PartialEq, Eq)]
pub enum Action {
    /// Run the condition probe once and report its answer.
    RunProbe,
    /// Pause for the duration, then report `Woke`.
    Sleep(Duration),
    /// Write the resolution to the channel; the observation is over.
    Deliver(Resolution),
    /// Nothing: the event does not apply in this phase.
    Wait,
}

/// The periodic check: probe, pause for `interval` after each `false`, and
/// resolve on the first `true` or on the first probe error.
pub open spec fn periodic_step(interval: Duration, phase: Phase, event: Event) -> (Phase, Action) {
    match (phase, event) {
        (Phase::Idle, Event::Start) => (Phase::Probing, Action::RunProbe),
        (Phase::Probing, Event::Probed(Ok(true))) => (Phase::Resolved, Action::Deliver(Ok(()))),
        (Phase::Probing, Event::Probed(Ok(false))) => (Phase::Sleeping, Action::Sleep(interval)),
        (Phase::Probing, Event::Probed(Err(e))) => (Phase::Resolved, Action::Deliver(Err(e))),
        (Phase::Sleeping, Event::Woke) => (Phase::Probing, Action::RunProbe),
        _ => (phase, Action::Wait),
    }
}

/// The immediate trigger: success on start.
pub open spec fn immediate_step(phase: Phase, event: Event) -> (Phase, Action) {
    match (phase, event) {
        (Phase::Idle, Event::Start) => (Phase::Resolved, Action::Deliver(Ok(()))),
        _ => (phase, Action::Wait),
    }
}

/// A watchable condition: its decisions, one event at a time, and the channel
/// capacity that its single resolution needs.
pub trait Trigger {
    spec fn step_spec(&self, phase: Phase, event: Event) -> (Phase, Action);

    /// The next phase and the action to perform, after `event` in `phase`.
    fn observe(&self, phase: Phase, event: Event) -> (r: (Phase, Action))
        ensures
            r == self.step_spec(phase, event),
    ;

    fn channel_buffer_size(&self) -> (r: usize)
        ensures
            r == 1,
    ;
}

impl Trigger for WifiConnected {
    open spec fn step_spec(&self, phase: Phase, event: Event) -> (Phase, Action) {
        periodic_step(self.interval, phase, event)
    }

    fn observe(&self, phase: Phase, event: Event) -> (r: (Phase, Action)) {
        match (phase, event) {
            (Phase::Idle, Event::Start) => (Phase::Probing, Action::RunProbe),
            (Phase::Probing, Event::Probed(Ok(true))) => (Phase::Resolved, Action::Deliver(Ok(()))),
            (Phase::Probing, Event::Probed(Ok(false))) => (Phase::Sleeping, Action::Sleep(self.interval)),
            (Phase::Probing, Event::Probed(Err(e))) => (Phase::Resolved, Action::Deliver(Err(e))),
            (Phase::Sleeping, Event::Woke) => (Phase::Probing, Action::RunProbe),
            _ => (phase, Action::Wait),
        }
    }

    fn channel_buffer_size(&self) -> (r: usize) {
        1
    }
}

impl Trigger for AfterLaunchSchedulerLaunched {
    open spec fn step_spec(&self, phase: Phase, event: Event) -> (Phase, Action) {
        immediate_step(phase, event)
    }

    fn observe(&self, phase: Phase, event: Event) -> (r: (Phase, Action)) {
        match (phase, event) {
            (Phase::Idle, Event::Start) => (Phase::Resolved, Action::Deliver(Ok(()))),
            _ => (phase, Action::Wait),
        }
    }

    fn channel_buffer_size(&self) -> (r: usize) {
        1
    }
}

impl Trigger for TriggerKind {
    open spec fn step_spec(&self, phase: Phase, event: Event) -> (Phase, Action) {
        match self {
            TriggerKind::WifiConnected(t) => periodic_step(t.interval, phase, event),
            TriggerKind::AfterLaunchSchedulerLaunched(_) => immediate_step(phase, event),
        }
    }

    fn observe(&self, phase: Phase, event: Event) -> (r: (Phase, Action)) {
        match self {
            TriggerKind::WifiConnected(t) => t.observe(phase, event),
            TriggerKind::AfterLaunchSchedulerLaunched(t) => t.observe(phase, event),
        }
    }

    fn channel_buffer_size(&self) -> (r: usize) {
        match self {
            TriggerKind::WifiConnected(t) => t.channel_buffer_size(),
            TriggerKind::AfterLaunchSchedulerLaunched(t) => t.channel_buffer_size(),
        }
    }
}

/// The phase reached and the actions asked for, when `events` are reported in
/// turn to an observation of `t` that stands in `phase`.
pub open spec fn run(t: TriggerKind, phase: Phase, events: Seq<Event>) -> (Phase, Seq<Action>)
    decreases events.len(),
{
    if events.len() == 0 {
        (phase, seq![])
    } else {
        let (p, acts) = run(t, phase, events.drop_last());
        let (q, a) = t.step_spec(p, events.last());
        (q, acts.push(a))
    }
}

/// How many resolutions `acts` hand out.
pub open spec fn deliveries(acts: Seq<Action>) -> nat
    decreases acts.len(),
{
    if acts.len() == 0 {
        0
    } else {
        deliveries(acts.drop_last()) + if acts.last() is Deliver {
            1nat
        } else {
            0nat
        }
    }
}

/// How many probe runs `acts` ask for.
pub open spec fn probe_runs(acts: Seq<Action>) -> nat
    decreases acts.len(),
{
    if acts.len() == 0 {
        0
    } else {
        probe_runs(acts.drop_last()) + if acts.last() is RunProbe {
            1nat
        } else {
            0nat
        }
    }
}

/// The events that a runner reports when the probe answers `outcomes` in turn:
/// the start, then each answer followed by the end of its pause.
pub open spec fn poll_events(outcomes: Seq<Result<bool, ProbeError>>) -> Seq<Event>
    decreases outcomes.len(),
{
    if outcomes.len() == 0 {
        seq![Event::Start]
    } else {
        poll_events(outcomes.drop_last()) + seq![Event::Probed(outcomes.last()), Event::Woke]
    }
}

/// A first probe run, then `n` times a pause of `interval` and another probe run.
pub open spec fn polling_trace(interval: Duration, n: nat) -> Seq<Action>
    decreases n,
{
    if n == 0 {
        seq![Action::RunProbe]
    } else {
        polling_trace(interval, (n - 1) as nat) + seq![Action::Sleep(interval), Action::RunProbe]
    }
}

/// `n` times `Wait`.
pub open spec fn waits(n: nat) -> Seq<Action> {
    Seq::new(n, |i: int| Action::Wait)
}

proof fn lemma_run_append(t: TriggerKind, phase: Phase, a: Seq<Event>, b: Seq<Event>)
    ensures
        run(t, phase, a + b) == ({
            let (q, x) = run(t, phase, a);
            let (r, y) = run(t, q, b);
            (r, x + y)
        }),
    decreases b.len(),
{
    if b.len() == 0 {
        assert(a + b =~= a);
        assert(run(t, phase, a).1 + seq![] =~= run(t, phase, a).1);
    } else {
        assert((a + b).drop_last() =~= a + b.drop_last());
        lemma_run_append(t, phase, a, b.drop_last());
        let (q, x) = run(t, phase, a);
        let (r, y) = run(t, q, b.drop_last());
        let (s, z) = t.step_spec(r, b.last());
        assert((x + y).push(z) =~= x + y.push(z));
    }
}

proof fn lemma_resolved_is_final(t: TriggerKind, events: Seq<Event>)
    ensures
        run(t, Phase::Resolved, events) == (Phase::Resolved, waits(events.len())),
    decreases events.len(),
{
    if events.len() > 0 {
        lemma_resolved_is_final(t, events.drop_last());
        assert(waits((events.len() - 1) as nat).push(Action::Wait) =~= waits(events.len()));
    }
}

proof fn lemma_deliveries_follow_phase(t: TriggerKind, events: Seq<Event>)
    ensures
        ({
            let (p, acts) = run(t, Phase::Idle, events);
            &&& p == Phase::Resolved ==> deliveries(acts) == 1
            &&& p != Phase::Resolved ==> deliveries(acts) == 0
        }),
    decreases events.len(),
{
    if events.len() > 0 {
        lemma_deliveries_follow_phase(t, events.drop_last());
        let (p, acts) = run(t, Phase::Idle, events.drop_last());
        let (q, a) = t.step_spec(p, events.last());
        assert(acts.push(a).drop_last() =~= acts);
    }
}

proof fn lemma_polling_while_false(w: WifiConnected, outcomes: Seq<Result<bool, ProbeError>>)
    requires
        forall|j: int| 0 <= j < outcomes.len() ==> outcomes[j] == Ok::<bool, ProbeError>(false),
    ensures
        run(TriggerKind::WifiConnected(w), Phase::Idle, poll_events(outcomes)) == (
            Phase::Probing,
            polling_trace(w.interval, outcomes.len()),
        ),
    decreases outcomes.len(),
{
    let t = TriggerKind::WifiConnected(w);
    if outcomes.len() == 0 {
        let evs = seq![Event::Start];
        assert(evs.drop_last() =~= Seq::<Event>::empty());
        assert(run(t, Phase::Idle, evs.drop_last()) == (Phase::Idle, Seq::<Action>::empty()));
        assert(evs.last() == Event::Start);
        assert(Seq::<Action>::empty().push(Action::RunProbe) =~= seq![Action::RunProbe]);
        assert(poll_events(outcomes) == evs);
    } else {
        let o = outcomes.drop_last();
        lemma_polling_while_false(w, o);
        let evs = poll_events(outcomes);
        assert(evs.drop_last() =~= poll_events(o).push(Event::Probed(outcomes.last())));
        assert(evs.drop_last().drop_last() =~= poll_events(o));
        let tr = polling_trace(w.interval, o.len());
        assert(outcomes.last() == outcomes[outcomes.len() - 1]);
        assert(evs.drop_last().last() == Event::Probed(Ok(false)));
        assert(run(t, Phase::Idle, evs.drop_last()) == (
            Phase::Sleeping,
            tr.push(Action::Sleep(w.interval)),
        ));
        assert(evs.last() == Event::Woke);
        assert(tr.push(Action::Sleep(w.interval)).push(Action::RunProbe) =~= tr + seq![
            Action::Sleep(w.interval),
            Action::RunProbe,
        ]);
    }
}

/// A periodic trigger resolves with success on the first probe that answers
/// `true`, and not before: until then it only probes and pauses.
pub proof fn periodic_resolves_on_first_true(
    w: WifiConnected,
    outcomes: Seq<Result<bool, ProbeError>>,
)
    requires
        outcomes.len() > 0,
        outcomes.last() == Ok::<bool, ProbeError>(true),
        forall|j: int| 0 <= j < outcomes.len() - 1 ==> outcomes[j] == Ok::<bool, ProbeError>(false),
    ensures
        forall|i: int|
            0 <= i < outcomes.len() ==> #[trigger] run(
                TriggerKind::WifiConnected(w),
                Phase::Idle,
                poll_events(outcomes.take(i)),
            ) == (Phase::Probing, polling_trace(w.interval, i as nat)),
        run(
            TriggerKind::WifiConnected(w),
            Phase::Idle,
            poll_events(outcomes.drop_last()).push(Event::Probed(outcomes.last())),
        ) == (
            Phase::Resolved,
            polling_trace(w.interval, (outcomes.len() - 1) as nat).push(Action::Deliver(Ok(()))),
        ),
{
    assert forall|i: int| 0 <= i < outcomes.len() implies #[trigger] run(
        TriggerKind::WifiConnected(w),
        Phase::Idle,
        poll_events(outcomes.take(i)),
    ) == (Phase::Probing, polling_trace(w.interval, i as nat)) by {
        lemma_polling_while_false(w, outcomes.take(i));
    }
    let o = outcomes.drop_last();
    lemma_polling_while_false(w, o);
    assert(poll_events(o).push(Event::Probed(outcomes.last())).drop_last() =~= poll_events(o));
}

/// A probe error on any tick of a periodic trigger resolves it with that error at
/// once, and whatever is reported afterwards, no probe runs again.
pub proof fn periodic_fails_on_first_error(
    w: WifiConnected,
    outcomes: Seq<Result<bool, ProbeError>>,
    e: ProbeError,
    later: Seq<Event>,
)
    requires
        outcomes.len() > 0,
        outcomes.last() == Err::<bool, ProbeError>(e),
        forall|j: int| 0 <= j < outcomes.len() - 1 ==> outcomes[j] == Ok::<bool, ProbeError>(false),
    ensures
        ({
            let evs = poll_events(outcomes.drop_last()).push(Event::Probed(outcomes.last()));
            let acts = polling_trace(w.interval, (outcomes.len() - 1) as nat).push(
                Action::Deliver(Err(e)),
            );
            &&& run(TriggerKind::WifiConnected(w), Phase::Idle, evs) == (Phase::Resolved, acts)
            &&& run(TriggerKind::WifiConnected(w), Phase::Idle, evs + later) == (
                Phase::Resolved,
                acts + waits(later.len()),
            )
        }),
{
    let t = TriggerKind::WifiConnected(w);
    let o = outcomes.drop_last();
    lemma_polling_while_false(w, o);
    let evs = poll_events(o).push(Event::Probed(outcomes.last()));
    assert(evs.drop_last() =~= poll_events(o));
    lemma_run_append(t, Phase::Idle, evs, later);
    lemma_resolved_is_final(t, later);
}

/// The immediate trigger resolves with success on start, and never runs a probe,
/// whatever is reported to it.
pub proof fn immediate_resolves_without_probe(
    t: AfterLaunchSchedulerLaunched,
    events: Seq<Event>,
)
    ensures
        run(TriggerKind::AfterLaunchSchedulerLaunched(t), Phase::Idle, seq![Event::Start]) == (
            Phase::Resolved,
            seq![Action::Deliver(Ok(()))],
        ),
        probe_runs(run(TriggerKind::AfterLaunchSchedulerLaunched(t), Phase::Idle, events).1) == 0,
    decreases events.len(),
{
    let k = TriggerKind::AfterLaunchSchedulerLaunched(t);
    let start = seq![Event::Start];
    assert(start.drop_last() =~= Seq::<Event>::empty());
    assert(run(k, Phase::Idle, start.drop_last()) == (Phase::Idle, Seq::<Action>::empty()));
    assert(start.last() == Event::Start);
    assert(Seq::<Action>::empty().push(Action::Deliver(Ok(()))) =~= seq![Action::Deliver(Ok(()))]);
    if events.len() > 0 {
        immediate_resolves_without_probe(t, events.drop_last());
        let (p, acts) = run(k, Phase::Idle, events.drop_last());
        let (q, a) = k.step_spec(p, events.last());
        assert(acts.push(a).drop_last() =~= acts);
    }
}

/// Whatever is reported to an observation, it hands out at most one resolution,
/// and exactly one once it has resolved.
pub proof fn at_most_one_resolution(t: TriggerKind, events: Seq<Event>)
    ensures
        deliveries(run(t, Phase::Idle, events).1) <= 1,
        run(t, Phase::Idle, events).0 == Phase::Resolved ==> deliveries(
            run(t, Phase::Idle, events).1,
        ) == 1,
{
    lemma_deliveries_follow_phase(t, events);
}

} // verus!
