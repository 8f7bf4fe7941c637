use appvis::probe::ProbeError;
use appvis::trigger::{
    Action, AfterLaunchSchedulerLaunched, Event, Phase, Trigger, TriggerKind, WifiConnected,
};
use appvis::watch::{on_resolution, Watch, WatchAction};
use std::time::Duration;

fn periodic(secs: u64) -> TriggerKind {
    TriggerKind::WifiConnected(WifiConnected { interval: Duration::from_secs(secs) })
}

fn immediate() -> TriggerKind {
    TriggerKind::AfterLaunchSchedulerLaunched(AfterLaunchSchedulerLaunched {})
}

/// Runs a watch the way the runner does, with the probe answering `outcomes`
/// in turn. Returns the resolution (if any), the probe runs and the pauses.
fn drive(
    trigger: TriggerKind,
    outcomes: &[Result<bool, ProbeError>],
) -> (Option<Result<(), ProbeError>>, usize, usize) {
    let mut w = Watch::new(trigger);
    let mut action = w.handle(Event::Start);
    let (mut probes, mut sleeps) = (0usize, 0usize);
    loop {
        match action {
            Action::RunProbe => {
                if probes == outcomes.len() {
                    return (None, probes, sleeps);
                }
                let o = outcomes[probes];
                probes += 1;
                action = w.handle(Event::Probed(o));
            }
            Action::Sleep(_) => {
                sleeps += 1;
                action = w.handle(Event::Woke);
            }
            Action::Deliver(r) => {
                assert_eq!(w.phase(), Phase::Resolved);
                return (Some(r), probes, sleeps);
            }
            Action::Wait => panic!("the runner reported an event out of turn"),
        }
    }
}

#[test]
fn periodic_resolves_on_third_probe_after_two_sleeps() {
    let (r, probes, sleeps) = drive(periodic(1), &[Ok(false), Ok(false), Ok(true)]);
    assert_eq!(r, Some(Ok(())));
    assert_eq!(probes, 3);
    assert_eq!(sleeps, 2);
}

#[test]
fn periodic_does_not_resolve_before_true() {
    let (r, probes, sleeps) = drive(periodic(1), &[Ok(false), Ok(false)]);
    assert_eq!(r, None);
    assert_eq!(probes, 2);
    assert_eq!(sleeps, 2);
}

#[test]
fn periodic_resolves_on_first_probe_when_true() {
    let (r, probes, sleeps) = drive(periodic(5), &[Ok(true)]);
    assert_eq!(r, Some(Ok(())));
    assert_eq!((probes, sleeps), (1, 0));
}

#[test]
fn probe_error_fails_at_once_without_launch() {
    let (r, probes, sleeps) = drive(periodic(1), &[Err(ProbeError::CommandError), Ok(true)]);
    assert_eq!(r, Some(Err(ProbeError::CommandError)));
    assert_eq!((probes, sleeps), (1, 0));
    assert_eq!(
        on_resolution(r.unwrap()),
        WatchAction::Report(ProbeError::CommandError)
    );
}

#[test]
fn probe_error_on_later_tick_stops_polling() {
    let (r, probes, sleeps) =
        drive(periodic(1), &[Ok(false), Err(ProbeError::InterfaceNotFound), Ok(true)]);
    assert_eq!(r, Some(Err(ProbeError::InterfaceNotFound)));
    assert_eq!((probes, sleeps), (2, 1));
}

#[test]
fn immediate_resolves_without_probing() {
    let (r, probes, sleeps) = drive(immediate(), &[]);
    assert_eq!(r, Some(Ok(())));
    assert_eq!((probes, sleeps), (0, 0));
}

#[test]
fn periodic_pause_uses_the_interval() {
    let t = periodic(7);
    let (p, a) = t.observe(Phase::Probing, Event::Probed(Ok(false)));
    assert_eq!(p, Phase::Sleeping);
    assert_eq!(a, Action::Sleep(Duration::from_secs(7)));
}

#[test]
fn resolved_watch_hands_out_nothing_more() {
    for t in [periodic(1), immediate()] {
        let mut w = Watch::new(t);
        let mut delivered = 0;
        let events = [
            Event::Start,
            Event::Probed(Ok(true)),
            Event::Woke,
            Event::Start,
            Event::Probed(Ok(true)),
            Event::Probed(Err(ProbeError::CommandError)),
        ];
        for e in events {
            if let Action::Deliver(_) = w.handle(e) {
                delivered += 1;
            }
        }
        assert_eq!(delivered, 1);
        assert_eq!(w.phase(), Phase::Resolved);
    }
}

#[test]
fn out_of_turn_events_are_ignored() {
    let mut w = Watch::new(periodic(1));
    assert_eq!(w.handle(Event::Woke), Action::Wait);
    assert_eq!(w.phase(), Phase::Idle);
    assert_eq!(w.handle(Event::Start), Action::RunProbe);
    assert_eq!(w.handle(Event::Start), Action::Wait);
    assert_eq!(w.phase(), Phase::Probing);
}

#[test]
fn every_trigger_needs_a_channel_of_one() {
    assert_eq!(periodic(1).channel_buffer_size(), 1);
    assert_eq!(immediate().channel_buffer_size(), 1);
    assert_eq!(WifiConnected { interval: Duration::from_secs(2) }.channel_buffer_size(), 1);
    assert_eq!(AfterLaunchSchedulerLaunched {}.channel_buffer_size(), 1);
    assert_eq!(Watch::new(immediate()).channel_buffer_size(), 1);
}

#[test]
fn success_launches() {
    assert_eq!(on_resolution(Ok(())), WatchAction::Launch);
}

#[test]
fn immediate_watch_launches_while_periodic_stays_pending() {
    let mut slow = Watch::new(periodic(1));
    let mut fast = Watch::new(immediate());
    let mut slow_action = slow.handle(Event::Start);
    let fast_action = fast.handle(Event::Start);
    let mut launched = false;
    if let Action::Deliver(r) = fast_action {
        launched = on_resolution(r) == WatchAction::Launch;
    }
    assert!(launched);
    for _ in 0..100 {
        slow_action = match slow_action {
            Action::RunProbe => slow.handle(Event::Probed(Ok(false))),
            Action::Sleep(_) => slow.handle(Event::Woke),
            other => panic!("unexpected {:?}", other),
        };
    }
    assert_eq!(fast.phase(), Phase::Resolved);
    assert_ne!(slow.phase(), Phase::Resolved);
}
