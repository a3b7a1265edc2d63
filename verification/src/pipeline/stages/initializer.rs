//! The initializer: it pulls the work items from the caller and forwards them
//! to the mapper until the items run out or the pipeline is shut down.

use crate::pipeline::monitoring::Event;
use crate::pipeline::monitoring::EventMonitor;
use crate::pipeline::monitoring::Process;
use vstd::prelude::*;

verus! {

/// What the initializer waits for.
#[derive(Clone, Copy, Debug, PartialEq, Eq, Structural)]
pub enum InitializerRequest {
    /// Whether the pipeline is being shut down.
    ShutdownFlag,
    /// Whether the caller has one more item; the item stays with whoever
    /// answers.
    NextItem,
    /// Whether the item just pulled could be forwarded to the mapper; waits
    /// while the mapper is behind.
    Forward,
    /// Nothing more: the initializer has stopped.
    Exit,
}

/// The answer to a request of the initializer.
#[derive(Clone, Copy, Debug, PartialEq, Eq, Structural)]
pub enum InitializerReply {
    /// Answers `ShutdownFlag`.
    Flag(bool),
    /// Answers `NextItem`: `false` once the items have run out.
    Item(bool),
    /// Answers `Forward`: `false` when the mapper is gone.
    Forwarded(bool),
}

/// Where the initializer stands between two steps.
#[derive(Clone, Copy, Debug, PartialEq, Eq, Structural)]
pub enum InitializerPhase {
    Created,
    AwaitingFlag,
    AwaitingItem,
    Forwarding,
    Stopped,
}

/// What the initializer answers when it is resumed: events to report in
/// order, then the request whose answer resumes it again.
#[derive(Debug)]
pub struct InitializerStep {
    pub events: Vec<Event>,
    pub request: InitializerRequest,
}

/// The initializer.
#[derive(Clone, Copy, Debug, PartialEq, Eq, Structural)]
pub struct InputInitializer {
    pub monitoring: EventMonitor,
    pub phase: InitializerPhase,
}

/// The phase, the events and the request that follow when the initializer is
/// resumed in `phase` with `reply`: before each pull it looks at the shutdown
/// flag; it stops when the flag is set, when the items have run out, or when
/// an item cannot be forwarded; every pulled item is reported and forwarded.
pub open spec fn initializer_next(phase: InitializerPhase, reply: InitializerReply) -> (
    InitializerPhase,
    Seq<Event>,
    InitializerRequest,
) {
    match (phase, reply) {
        (InitializerPhase::AwaitingFlag, InitializerReply::Flag(false)) => (
            InitializerPhase::AwaitingItem,
            Seq::empty(),
            InitializerRequest::NextItem,
        ),
        (InitializerPhase::AwaitingItem, InitializerReply::Item(true)) => (
            InitializerPhase::Forwarding,
            seq![Event::NewInput],
            InitializerRequest::Forward,
        ),
        (InitializerPhase::Forwarding, InitializerReply::Forwarded(true)) => (
            InitializerPhase::AwaitingFlag,
            Seq::empty(),
            InitializerRequest::ShutdownFlag,
        ),
        (InitializerPhase::Stopped, _) => (
            InitializerPhase::Stopped,
            Seq::empty(),
            InitializerRequest::Exit,
        ),
        (InitializerPhase::Created, _) => (
            InitializerPhase::Stopped,
            Seq::empty(),
            InitializerRequest::Exit,
        ),
        _ => (InitializerPhase::Stopped, seq![Event::ProcessEnd], InitializerRequest::Exit),
    }
}

/// The phase, the events and the request that follow when an initializer in
/// `phase` is started.
pub open spec fn initializer_first(phase: InitializerPhase) -> (
    InitializerPhase,
    Seq<Event>,
    InitializerRequest,
) {
    match phase {
        InitializerPhase::Created => (
            InitializerPhase::AwaitingFlag,
            seq![Event::ProcessBegin],
            InitializerRequest::ShutdownFlag,
        ),
        InitializerPhase::Stopped => (
            InitializerPhase::Stopped,
            Seq::empty(),
            InitializerRequest::Exit,
        ),
        _ => (InitializerPhase::Stopped, seq![Event::ProcessEnd], InitializerRequest::Exit),
    }
}

impl InputInitializer {
    pub fn new(monitoring: EventMonitor) -> (initializer: InputInitializer)
        ensures
            initializer.monitoring == (EventMonitor {
                process: Process::Initializer,
                policy: monitoring.policy,
            }),
            initializer.phase == InitializerPhase::Created,
    {
        let mut monitoring = monitoring;
        monitoring.set_process(Process::Initializer);
        InputInitializer { monitoring, phase: InitializerPhase::Created }
    }

    /// Starts the initializer: it reports the beginning of its process and
    /// asks for the shutdown flag. An initializer that was started before
    /// stops.
    pub fn start(&mut self) -> (step: InitializerStep)
        ensures
            final(self).monitoring == old(self).monitoring,
            (final(self).phase, step.events@, step.request) == initializer_first(old(self).phase),
    {
        match self.phase {
            InitializerPhase::Created => {
                self.phase = InitializerPhase::AwaitingFlag;
                let events: Vec<Event> = vec![Event::ProcessBegin];
                proof {
                    assert(events@ =~= seq![Event::ProcessBegin]);
                }
                InitializerStep { events, request: InitializerRequest::ShutdownFlag }
            },
            _ => self.stop(),
        }
    }

    fn stop(&mut self) -> (step: InitializerStep)
        ensures
            final(self).monitoring == old(self).monitoring,
            final(self).phase == InitializerPhase::Stopped,
            step.request == InitializerRequest::Exit,
            step.events@ == if old(self).phase == InitializerPhase::Stopped || old(self).phase
                == InitializerPhase::Created {
                Seq::<Event>::empty()
            } else {
                seq![Event::ProcessEnd]
            },
    {
        let mut events: Vec<Event> = Vec::new();
        match self.phase {
            InitializerPhase::Stopped | InitializerPhase::Created => {},
            _ => {
                events.push(Event::ProcessEnd);
            },
        }
        self.phase = InitializerPhase::Stopped;
        InitializerStep { events, request: InitializerRequest::Exit }
    }

    /// Resumes the initializer with the answer to its last request.
    pub fn resume(&mut self, reply: InitializerReply) -> (step: InitializerStep)
        ensures
            final(self).monitoring == old(self).monitoring,
            (final(self).phase, step.events@, step.request) == initializer_next(
                old(self).phase,
                reply,
            ),
    {
        match (self.phase, reply) {
            (InitializerPhase::AwaitingFlag, InitializerReply::Flag(false)) => {
                self.phase = InitializerPhase::AwaitingItem;
                InitializerStep { events: Vec::new(), request: InitializerRequest::NextItem }
            },
            (InitializerPhase::AwaitingItem, InitializerReply::Item(true)) => {
                self.phase = InitializerPhase::Forwarding;
                let events: Vec<Event> = vec![Event::NewInput];
                proof {
                    assert(events@ =~= seq![Event::NewInput]);
                }
                InitializerStep { events, request: InitializerRequest::Forward }
            },
            (InitializerPhase::Forwarding, InitializerReply::Forwarded(true)) => {
                self.phase = InitializerPhase::AwaitingFlag;
                InitializerStep { events: Vec::new(), request: InitializerRequest::ShutdownFlag }
            },
            _ => self.stop(),
        }
    }
}

} // verus!
