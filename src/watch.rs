use crate::probe::ProbeError;
use crate::trigger::{Action, Event, Phase, Resolution, Trigger, TriggerKind};
use vstd::prelude::*;

verus! {

/// What a watch does with the resolution of its trigger.
#[derive(Debug, Clone, Copy, PartialEq, Eq, Structural)]
pub enum WatchAction {
    /// Start the configured executable.
    Launch,
    /// Report the error under the application's name; launch nothing.
    Report(ProbeError),
}

/// Success launches the application; a failure is reported and nothing starts.
pub fn on_resolution(resolution: Resolution) -> (r: WatchAction)
    ensures
        r == match resolution {
            Ok(()) => WatchAction::Launch,
            Err(e) => WatchAction::Report(e),
        },
{
    match resolution {
        Ok(()) => WatchAction::Launch,
        Err(e) => WatchAction::Report(e),
    }
}

/// One observation of a trigger, from its start to its single resolution.
pub struct Watch {
    trigger: TriggerKind,
    phase: Phase,
}

impl Watch {
    pub closed spec fn trigger_spec(&self) -> TriggerKind {
        self.trigger
    }

    pub closed spec fn phase_spec(&self) -> Phase {
        self.phase
    }

    pub fn new(trigger: TriggerKind) -> (r: Watch)
        ensures
            r.trigger_spec() == trigger,
            r.phase_spec() == Phase::Idle,
    {
        Watch { trigger, phase: Phase::Idle }
    }

    pub fn phase(&self) -> (r: Phase)
        ensures
            r == self.phase_spec(),
    {
        self.phase
    }

    /// The capacity of the channel that carries the resolution.
    pub fn channel_buffer_size(&self) -> (r: usize)
        ensures
            r == 1,
    {
        self.trigger.channel_buffer_size()
    }

    /// Reports `event` to the trigger, moves to the phase it decides, and returns
    /// the action to perform.
    pub fn handle(&mut self, event: Event) -> (r: Action)
        ensures
            final(self).trigger_spec() == old(self).trigger_spec(),
            (final(self).phase_spec(), r) == old(self).trigger_spec().step_spec(
                old(self).phase_spec(),
                event,
            ),
    {
        let (p, a) = self.trigger.observe(self.phase, event);
        self.phase = p;
        a
    }
}

} // verus!
