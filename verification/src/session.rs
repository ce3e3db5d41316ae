//! One connection session: the rounds of probe and response over a single
//! connection, as a state machine. The caller owns the connection and the
//! clock; it performs each command and reports what happened as an event.

use crate::config::Target;
use vstd::prelude::*;

verus! {

/// The size of the buffer that a response is read into, in bytes.
pub const RESPONSE_BUFFER_SIZE: usize = 1024;

/// The length of the probe in bytes.
pub const PROBE_LENGTH: usize = 11;

/// The probe that is sent in every round.
pub fn probe() -> (text: &'static str)
    ensures
        text@ == "hello world"@,
        text@.len() == PROBE_LENGTH,
        text.is_ascii(),
{
    proof {
        reveal_strlit("hello world");
    }
    "hello world"
}

/// Why a session failed.
#[derive(Clone, Copy, Debug, PartialEq, Eq, Structural)]
pub enum SessionError {
    /// The connection attempt timed out.
    ConnectTimedOut,
    /// The connection could not be established for another reason.
    ConnectFailed,
    /// The probe could not be written, or not in full.
    SendFailed,
    /// No response could be read.
    ReceiveFailed,
}

/// How loudly an event is logged.
#[derive(Clone, Copy, Debug, PartialEq, Eq, Structural)]
pub enum Severity {
    Debug,
    Info,
    Error,
}

impl SessionError {
    /// The connection was never established.
    pub open spec fn is_connect(self) -> bool {
        self == SessionError::ConnectTimedOut || self == SessionError::ConnectFailed
    }

    /// The failure happened while connecting.
    pub fn is_connect_error(&self) -> (b: bool)
        ensures
            b == self.is_connect(),
    {
        match self {
            SessionError::ConnectTimedOut => true,
            SessionError::ConnectFailed => true,
            _ => false,
        }
    }

    /// The failure happened on an established connection, while sending or
    /// receiving.
    pub fn is_transfer_error(&self) -> (b: bool)
        ensures
            b == !self.is_connect(),
    {
        !self.is_connect_error()
    }

    /// A timeout while connecting is expected now and then and is logged
    /// quietly; every other failure is logged as an error.
    pub fn severity(&self) -> (level: Severity)
        ensures
            level == if *self == SessionError::ConnectTimedOut {
                Severity::Debug
            } else {
                Severity::Error
            },
    {
        match self {
            SessionError::ConnectTimedOut => Severity::Debug,
            _ => Severity::Error,
        }
    }
}

/// Where a session stands.
#[derive(Clone, Copy, Debug, PartialEq, Eq, Structural)]
pub enum Phase {
    /// Waiting for the connection to be established.
    Connecting,
    /// Waiting for the probe of the current round to be written.
    Sending,
    /// Waiting for the response of the current round.
    Receiving,
    /// All rounds are done and the connection is closed.
    Closed,
    /// The session has ended with an error.
    Failed(SessionError),
}

/// What the caller reports to a session.
#[derive(Clone, Copy, Debug, PartialEq, Eq, Structural)]
pub enum Event {
    /// The connection is established.
    Connected,
    /// The connection attempt timed out.
    ConnectTimedOut,
    /// The connection attempt failed for another reason.
    ConnectRefused,
    /// A write returned after `bytes` bytes of the probe.
    Wrote { bytes: usize },
    /// The write failed.
    WriteFailed,
    /// A read returned `bytes` bytes, `latency_ms` milliseconds after the
    /// round began. No bytes means that the peer has closed the connection.
    Received { bytes: usize, latency_ms: u64 },
    /// The read failed.
    ReadFailed,
}

/// What the caller does next for a session.
#[derive(Clone, Copy, Debug, PartialEq, Eq, Structural)]
pub enum Command {
    /// Connect to the session's target.
    Connect,
    /// Note the time and write the probe.
    SendProbe,
    /// Read a response into the buffer.
    AwaitResponse,
    /// Close the connection: the session has succeeded.
    Close,
    /// Drop the connection and report the error: the session has failed.
    Abort(SessionError),
}

/// The answer of a session to an event.
#[derive(Clone, Copy, Debug, PartialEq, Eq)]
pub struct Step {
    /// The latency sample of the round that the event completed, if it
    /// completed one.
    pub emit: Option<u64>,
    /// What to do next.
    pub command: Command,
}

/// The state of one session.
#[derive(Clone, Copy, Debug, PartialEq, Eq, Structural)]
pub struct Session {
    /// The endpoint that the session measures.
    pub target: Target,
    /// The number of rounds to run.
    pub limit: u16,
    /// The number of rounds completed, each of which gave one sample.
    pub rounds: u16,
    pub phase: Phase,
}

/// The session for `target` before anything has happened.
pub open spec fn fresh(target: Target, limit: u16) -> Session {
    Session { target, limit, rounds: 0, phase: Phase::Connecting }
}

/// The command that a session in `phase` is waiting on.
pub open spec fn command_of(phase: Phase) -> Command {
    match phase {
        Phase::Connecting => Command::Connect,
        Phase::Sending => Command::SendProbe,
        Phase::Receiving => Command::AwaitResponse,
        Phase::Closed => Command::Close,
        Phase::Failed(error) => Command::Abort(error),
    }
}

/// The phase after a completed round: the next round, or the end.
pub open spec fn after_round(rounds: int, limit: u16) -> Phase {
    if rounds >= limit {
        Phase::Closed
    } else {
        Phase::Sending
    }
}

/// The round counter after one more round: it counts up to the limit and
/// stays there.
pub open spec fn counted(rounds: u16, limit: u16) -> u16 {
    if rounds < limit {
        (rounds + 1) as u16
    } else {
        rounds
    }
}

/// The session after `event`. An event that the session is not waiting for
/// leaves it as it is; so does every event once the session has ended.
pub open spec fn next(s: Session, event: Event) -> Session {
    match s.phase {
        Phase::Connecting => match event {
            Event::Connected => Session { phase: after_round(0, s.limit), ..s },
            Event::ConnectTimedOut => Session {
                phase: Phase::Failed(SessionError::ConnectTimedOut),
                ..s
            },
            Event::ConnectRefused => Session {
                phase: Phase::Failed(SessionError::ConnectFailed),
                ..s
            },
            _ => s,
        },
        Phase::Sending => match event {
            Event::Wrote { bytes } => if bytes == PROBE_LENGTH {
                Session { phase: Phase::Receiving, ..s }
            } else {
                Session { phase: Phase::Failed(SessionError::SendFailed), ..s }
            },
            Event::WriteFailed => Session { phase: Phase::Failed(SessionError::SendFailed), ..s },
            _ => s,
        },
        Phase::Receiving => match event {
            Event::Received { bytes, latency_ms } => if bytes > 0 {
                let rounds = counted(s.rounds, s.limit);
                Session { rounds, phase: after_round(rounds as int, s.limit), ..s }
            } else {
                Session { phase: Phase::Failed(SessionError::ReceiveFailed), ..s }
            },
            Event::ReadFailed => Session {
                phase: Phase::Failed(SessionError::ReceiveFailed),
                ..s
            },
            _ => s,
        },
        _ => s,
    }
}

/// The sample that `event` yields: the latency of a response that arrived
/// while the session was waiting for one, and nothing otherwise. A round that
/// fails yields no sample.
pub open spec fn emitted(s: Session, event: Event) -> Option<u64> {
    match event {
        Event::Received { bytes, latency_ms } => if s.phase == Phase::Receiving && bytes > 0 {
            Some(latency_ms)
        } else {
            None
        },
        _ => None,
    }
}

/// The session after a sequence of events.
pub open spec fn replay(s: Session, events: Seq<Event>) -> Session
    decreases events.len(),
{
    if events.len() == 0 {
        s
    } else {
        next(replay(s, events.drop_last()), events.last())
    }
}

/// The samples that a sequence of events yields, in their order.
pub open spec fn emissions(s: Session, events: Seq<Event>) -> Seq<u64>
    decreases events.len(),
{
    if events.len() == 0 {
        Seq::empty()
    } else {
        let earlier = emissions(s, events.drop_last());
        match emitted(replay(s, events.drop_last()), events.last()) {
            Some(sample) => earlier.push(sample),
            None => earlier,
        }
    }
}

impl Session {
    /// The round counter never passes the limit, a session between rounds
    /// has rounds left, and one that closed has run them all.
    pub open spec fn wf(&self) -> bool {
        &&& self.rounds <= self.limit
        &&& self.phase == Phase::Connecting ==> self.rounds == 0
        &&& (self.phase == Phase::Sending || self.phase == Phase::Receiving) ==> self.rounds
            < self.limit
        &&& self.phase == Phase::Closed ==> self.rounds == self.limit
    }

    /// The session has ended, in success or in failure.
    pub open spec fn ended(&self) -> bool {
        self.phase == Phase::Closed || self.phase is Failed
    }

    /// A session for `target` that is to run `limit` rounds.
    pub fn new(target: Target, limit: u16) -> (s: Session)
        ensures
            s == fresh(target, limit),
            s.wf(),
    {
        Session { target, limit, rounds: 0, phase: Phase::Connecting }
    }

    /// What the session is waiting on.
    pub fn command(&self) -> (c: Command)
        ensures
            c == command_of(self.phase),
    {
        match self.phase {
            Phase::Connecting => Command::Connect,
            Phase::Sending => Command::SendProbe,
            Phase::Receiving => Command::AwaitResponse,
            Phase::Closed => Command::Close,
            Phase::Failed(error) => Command::Abort(error),
        }
    }

    /// How the session ended: `None` while it is running, `Ok` once it has
    /// closed after its last round, and the error once it has failed.
    pub fn outcome(&self) -> (r: Option<Result<(), SessionError>>)
        ensures
            r is None <==> !self.ended(),
            r == Some(Ok::<(), SessionError>(())) <==> self.phase == Phase::Closed,
            forall|error: SessionError|
                r == Some(Err::<(), SessionError>(error)) <==> self.phase == Phase::Failed(error),
    {
        match self.phase {
            Phase::Closed => Some(Ok(())),
            Phase::Failed(error) => Some(Err(error)),
            _ => None,
        }
    }

    /// Takes in what happened and says what to do next.
    pub fn step(&mut self, event: Event) -> (out: Step)
        ensures
            *final(self) == next(*old(self), event),
            old(self).wf() ==> final(self).wf(),
            out.emit == emitted(*old(self), event),
            out.command == command_of(final(self).phase),
    {
        let mut emit: Option<u64> = None;
        match self.phase {
            Phase::Connecting => match event {
                Event::Connected => {
                    if self.limit == 0 {
                        self.phase = Phase::Closed;
                    } else {
                        self.phase = Phase::Sending;
                    }
                },
                Event::ConnectTimedOut => {
                    self.phase = Phase::Failed(SessionError::ConnectTimedOut);
                },
                Event::ConnectRefused => {
                    self.phase = Phase::Failed(SessionError::ConnectFailed);
                },
                _ => {},
            },
            Phase::Sending => match event {
                Event::Wrote { bytes } => {
                    if bytes == PROBE_LENGTH {
                        self.phase = Phase::Receiving;
                    } else {
                        self.phase = Phase::Failed(SessionError::SendFailed);
                    }
                },
                Event::WriteFailed => {
                    self.phase = Phase::Failed(SessionError::SendFailed);
                },
                _ => {},
            },
            Phase::Receiving => match event {
                Event::Received { bytes, latency_ms } => {
                    if bytes > 0 {
                        if self.rounds < self.limit {
                            self.rounds = self.rounds + 1;
                        }
                        emit = Some(latency_ms);
                        if self.rounds >= self.limit {
                            self.phase = Phase::Closed;
                        } else {
                            self.phase = Phase::Sending;
                        }
                    } else {
                        self.phase = Phase::Failed(SessionError::ReceiveFailed);
                    }
                },
                Event::ReadFailed => {
                    self.phase = Phase::Failed(SessionError::ReceiveFailed);
                },
                _ => {},
            },
            _ => {},
        }
        Step { emit, command: self.command() }
    }
}

/// One event keeps a session well formed and raises its round counter by one
/// exactly when it yields a sample.
pub proof fn lemma_next_counts(s: Session, event: Event)
    requires
        s.wf(),
    ensures
        next(s, event).wf(),
        next(s, event).target == s.target,
        next(s, event).limit == s.limit,
        next(s, event).rounds == s.rounds + if emitted(s, event) is Some {
            1int
        } else {
            0int
        },
{
}

/// The event on which a session fails yields no sample: a round that does
/// not complete is not measured.
pub proof fn lemma_failing_round_yields_nothing(s: Session, event: Event)
    requires
        !(s.phase is Failed),
        next(s, event).phase is Failed,
    ensures
        emitted(s, event) is None,
        next(s, event).rounds == s.rounds,
{
}

/// Probes are sent one at a time: a session asks for the next probe only on
/// connecting or on the response to the probe before.
pub proof fn lemma_probes_do_not_overlap(s: Session, event: Event)
    requires
        s.phase != Phase::Sending,
        next(s, event).phase == Phase::Sending,
    ensures
        event == Event::Connected || emitted(s, event) is Some,
{
}

/// A session that has ended ignores whatever is reported to it and yields no
/// further sample.
pub proof fn lemma_ended_is_final(s: Session, event: Event)
    requires
        s.ended(),
    ensures
        next(s, event) == s,
        emitted(s, event) is None,
{
}

/// However a session goes, its samples are as many as the rounds it has
/// completed, and never more than its limit.
pub proof fn lemma_samples_are_rounds(s: Session, events: Seq<Event>)
    requires
        s.wf(),
    ensures
        replay(s, events).wf(),
        replay(s, events).target == s.target,
        replay(s, events).limit == s.limit,
        replay(s, events).rounds == s.rounds + emissions(s, events).len(),
        s.rounds + emissions(s, events).len() <= s.limit,
    decreases events.len(),
{
    if events.len() > 0 {
        lemma_samples_are_rounds(s, events.drop_last());
        lemma_next_counts(replay(s, events.drop_last()), events.last());
    }
}

/// A session that closes has yielded exactly as many samples as it was to
/// run rounds; one that failed has yielded fewer or as many.
pub proof fn lemma_closed_session_is_complete(target: Target, limit: u16, events: Seq<Event>)
    ensures
        emissions(fresh(target, limit), events).len() <= limit,
        replay(fresh(target, limit), events).phase == Phase::Closed ==> emissions(
            fresh(target, limit),
            events,
        ).len() == limit,
{
    lemma_samples_are_rounds(fresh(target, limit), events);
}

} // verus!
