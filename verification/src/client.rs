//! The orchestrator of a run: one session per target, all running at once,
//! the first failure cancelling the rest, and a report only when every
//! session has closed.
//!
//! The caller runs the sessions and carries their samples; the run decides
//! what follows from how each session ends.

use crate::aggregator::{summarize, summarizes, AggregationError, Summary};
use crate::config::{Config, Target};
use crate::session::{emissions, fresh, lemma_closed_session_is_complete, replay, Event, Phase,
    Session, SessionError};
use vstd::prelude::*;

verus! {

/// The failure of a run: the session that failed first, its target, and what
/// went wrong.
#[derive(Clone, Copy, Debug, PartialEq, Eq, Structural)]
pub struct RunError {
    pub session: usize,
    pub target: Target,
    pub error: SessionError,
}

/// Why a run has no report.
#[derive(Clone, Copy, Debug, PartialEq, Eq, Structural)]
pub enum RunFault {
    /// A session failed; the run was aborted.
    Aborted(RunError),
    /// Sessions are still running: their samples cannot be read yet.
    Unfinished,
}

/// What the caller does next for the run as a whole.
#[derive(Clone, Copy, Debug, PartialEq, Eq, Structural)]
pub enum Directive {
    /// Keep waiting for sessions to end.
    Wait,
    /// A session has failed: cancel all sessions that are still running.
    CancelAll,
    /// Every session has closed: release the last sender, read the samples
    /// and finish the run.
    Finalize,
}

/// The report of a run in which every session succeeded.
#[derive(Clone, Copy, Debug, PartialEq, Eq)]
pub struct Report {
    /// The number of probes the run set out to send: the configured messages
    /// per connection times the number of targets. Divided by the seconds
    /// the run took, this is its throughput.
    pub attempted: u128,
    /// The latency statistics, or `NoData` where the run gave no sample.
    pub latency: Result<Summary, AggregationError>,
}

/// What a run knows: its targets, the rounds each session is to run, which
/// sessions have closed, and the first failure.
pub struct RunView {
    pub targets: Seq<Target>,
    pub limit: u16,
    pub closed: Seq<bool>,
    pub failure: Option<RunError>,
}

/// The run as it starts: no session has closed and none has failed.
pub open spec fn begun(targets: Seq<Target>, limit: u16) -> RunView {
    RunView { targets, limit, closed: Seq::new(targets.len(), |i: int| false), failure: None }
}

/// How many sessions have not closed.
pub open spec fn running(closed: Seq<bool>) -> nat
    decreases closed.len(),
{
    if closed.len() == 0 {
        0
    } else {
        running(closed.drop_last()) + if closed.last() {
            0nat
        } else {
            1nat
        }
    }
}

/// The end of session `index` counts: the run has not failed, and the
/// session is one of the run and has not closed before.
pub open spec fn counts(v: RunView, index: int) -> bool {
    &&& v.failure is None
    &&& 0 <= index < v.closed.len()
    &&& !v.closed[index]
}

/// The run after session `index` has ended with `result`. The first failure
/// is kept and nothing changes after it.
pub open spec fn settle(v: RunView, index: int, result: Result<(), SessionError>) -> RunView {
    if !counts(v, index) {
        v
    } else {
        match result {
            Ok(_) => RunView { closed: v.closed.update(index, true), ..v },
            Err(error) => RunView {
                failure: Some(RunError { session: index as usize, target: v.targets[index], error }),
                ..v
            },
        }
    }
}

/// The run after the sessions have ended as `ends` tells, one after another.
pub open spec fn settle_all(v: RunView, ends: Seq<(int, Result<(), SessionError>)>) -> RunView
    decreases ends.len(),
{
    if ends.len() == 0 {
        v
    } else {
        settle(settle_all(v, ends.drop_last()), ends.last().0, ends.last().1)
    }
}

/// What the run asks for.
pub open spec fn directive_of(v: RunView) -> Directive {
    if v.failure is Some {
        Directive::CancelAll
    } else if running(v.closed) == 0 {
        Directive::Finalize
    } else {
        Directive::Wait
    }
}

/// What finishing the run gives, for the samples that were collected: the
/// first failure and no report if a session failed, no report while sessions
/// run, and otherwise the report.
pub open spec fn finishes(v: RunView, samples: Seq<u64>, r: Result<Report, RunFault>) -> bool {
    match v.failure {
        Some(error) => r == Err::<Report, RunFault>(RunFault::Aborted(error)),
        None => if running(v.closed) > 0 {
            r == Err::<Report, RunFault>(RunFault::Unfinished)
        } else {
            &&& r is Ok
            &&& r->Ok_0.attempted == v.limit * v.targets.len()
            &&& samples.len() == 0 ==> r->Ok_0.latency == Err::<Summary, AggregationError>(
                AggregationError::NoData,
            )
            &&& samples.len() > 0 ==> r->Ok_0.latency is Ok && summarizes(
                samples,
                r->Ok_0.latency->Ok_0,
            )
        },
    }
}

/// All samples of a run: those of the first session, then those of the
/// second, and so on, where `traces` holds what each session was told.
pub open spec fn collected(targets: Seq<Target>, limit: u16, traces: Seq<Seq<Event>>) -> Seq<u64>
    decreases targets.len(),
{
    if targets.len() == 0 {
        Seq::empty()
    } else {
        collected(targets.drop_last(), limit, traces.drop_last()) + emissions(
            fresh(targets.last(), limit),
            traces[targets.len() - 1],
        )
    }
}

/// No session is running exactly when all have closed.
pub proof fn lemma_running_none(closed: Seq<bool>)
    ensures
        running(closed) == 0 <==> forall|i: int| 0 <= i < closed.len() ==> closed[i],
    decreases closed.len(),
{
    if closed.len() > 0 {
        let front = closed.drop_last();
        lemma_running_none(front);
        if running(closed) == 0 {
            assert forall|i: int| 0 <= i < closed.len() implies closed[i] by {
                if i < closed.len() - 1 {
                    assert(front[i] == closed[i]);
                }
            }
        } else if closed.last() {
            let i = choose|i: int| 0 <= i < front.len() && !front[i];
            assert(!closed[i]);
        } else {
            assert(!closed[closed.len() - 1]);
        }
    }
}

proof fn lemma_running_begun(n: nat)
    ensures
        running(Seq::new(n, |i: int| false)) == n,
    decreases n,
{
    if n > 0 {
        assert(Seq::new(n, |i: int| false).drop_last() =~= Seq::new(
            (n - 1) as nat,
            |i: int| false,
        ));
        lemma_running_begun((n - 1) as nat);
    }
}

proof fn lemma_running_closes(closed: Seq<bool>, index: int)
    requires
        0 <= index < closed.len(),
        !closed[index],
    ensures
        running(closed.update(index, true)) == running(closed) - 1,
    decreases closed.len(),
{
    let after = closed.update(index, true);
    if index == closed.len() - 1 {
        assert(after.drop_last() =~= closed.drop_last());
    } else {
        lemma_running_closes(closed.drop_last(), index);
        assert(after.drop_last() =~= closed.drop_last().update(index, true));
    }
}

/// When every session of a run closes, the run has collected exactly as many
/// samples as it has targets times the messages per connection; and however
/// the sessions go, it never collects more.
pub proof fn lemma_successful_run_collects_all(
    targets: Seq<Target>,
    limit: u16,
    traces: Seq<Seq<Event>>,
)
    requires
        traces.len() == targets.len(),
    ensures
        collected(targets, limit, traces).len() <= targets.len() * limit,
        (forall|i: int|
            0 <= i < targets.len() ==> (#[trigger] replay(
                fresh(targets[i], limit),
                traces[i],
            )).phase == Phase::Closed) ==> collected(targets, limit, traces).len()
            == targets.len() * limit,
    decreases targets.len(),
{
    if targets.len() > 0 {
        let n = targets.len() as int;
        let front = targets.drop_last();
        let earlier = traces.drop_last();
        lemma_successful_run_collects_all(front, limit, earlier);
        lemma_closed_session_is_complete(targets.last(), limit, traces[n - 1]);
        assert(front.len() * limit + limit == n * limit) by (nonlinear_arith)
            requires
                front.len() + 1 == n,
        ;
        if forall|i: int|
            0 <= i < targets.len() ==> (#[trigger] replay(
                fresh(targets[i], limit),
                traces[i],
            )).phase == Phase::Closed {
            assert forall|i: int| 0 <= i < front.len() implies (#[trigger] replay(
                fresh(front[i], limit),
                earlier[i],
            )).phase == Phase::Closed by {
                assert(front[i] == targets[i] && earlier[i] == traces[i]);
                assert(replay(fresh(targets[i], limit), traces[i]).phase == Phase::Closed);
            }
            assert(replay(fresh(targets[n - 1], limit), traces[n - 1]).phase == Phase::Closed);
        }
    }
}

/// Once a session has failed, the run stays failed with that first error,
/// whatever ends after it, and finishing it gives that error and no report.
pub proof fn lemma_first_failure_is_final(
    v: RunView,
    ends: Seq<(int, Result<(), SessionError>)>,
    samples: Seq<u64>,
    r: Result<Report, RunFault>,
)
    requires
        v.failure is Some,
        finishes(settle_all(v, ends), samples, r),
    ensures
        settle_all(v, ends) == v,
        directive_of(settle_all(v, ends)) == Directive::CancelAll,
        r == Err::<Report, RunFault>(RunFault::Aborted(v.failure->Some_0)),
{
    lemma_failure_stays(v, ends);
}

proof fn lemma_failure_stays(v: RunView, ends: Seq<(int, Result<(), SessionError>)>)
    requires
        v.failure is Some,
    ensures
        settle_all(v, ends) == v,
    decreases ends.len(),
{
    if ends.len() > 0 {
        lemma_failure_stays(v, ends.drop_last());
    }
}

/// A session that fails while the run is sound fails the run: from then on
/// the run asks to cancel all sessions, and finishing it gives no report.
pub proof fn lemma_failure_aborts(
    v: RunView,
    index: int,
    error: SessionError,
    samples: Seq<u64>,
    r: Result<Report, RunFault>,
)
    requires
        counts(v, index),
        finishes(settle(v, index, Err(error)), samples, r),
    ensures
        directive_of(settle(v, index, Err(error))) == Directive::CancelAll,
        r is Err,
        r == Err::<Report, RunFault>(
            RunFault::Aborted(RunError { session: index as usize, target: v.targets[index], error }),
        ),
{
}

/// A run without targets has nothing to wait for: it is ready to finish as
/// soon as it starts.
pub proof fn lemma_run_without_targets_is_done(limit: u16)
    ensures
        directive_of(begun(Seq::<Target>::empty(), limit)) == Directive::Finalize,
{
    assert(begun(Seq::<Target>::empty(), limit).closed =~= Seq::<bool>::empty());
}

/// A run with no message to send collects no sample, however its sessions
/// go.
pub proof fn lemma_run_without_messages_collects_nothing(
    targets: Seq<Target>,
    traces: Seq<Seq<Event>>,
)
    requires
        traces.len() == targets.len(),
    ensures
        collected(targets, 0, traces) == Seq::<u64>::empty(),
{
    lemma_successful_run_collects_all(targets, 0, traces);
    assert(targets.len() * 0 == 0) by (nonlinear_arith);
    assert(collected(targets, 0, traces) =~= Seq::<u64>::empty());
}

/// A run without targets, or with no message to send, finishes in success
/// once no session is running: it sets out to send nothing, and with no
/// sample collected its report says that there is no data.
pub proof fn lemma_empty_run_reports_no_data(v: RunView, r: Result<Report, RunFault>)
    requires
        v.failure is None,
        running(v.closed) == 0,
        v.targets.len() == 0 || v.limit == 0,
        finishes(v, Seq::<u64>::empty(), r),
    ensures
        r is Ok,
        r->Ok_0.attempted == 0,
        r->Ok_0.latency == Err::<Summary, AggregationError>(AggregationError::NoData),
{
    assert(v.limit * v.targets.len() == 0) by (nonlinear_arith)
        requires
            v.targets.len() == 0 || v.limit == 0,
    ;
}

/// A run in progress.
pub struct Run {
    targets: Vec<Target>,
    limit: u16,
    closed: Vec<bool>,
    open: usize,
    failure: Option<RunError>,
}

impl View for Run {
    type V = RunView;

    closed spec fn view(&self) -> RunView {
        RunView {
            targets: self.targets@,
            limit: self.limit,
            closed: self.closed@,
            failure: self.failure,
        }
    }
}

impl Run {
    /// There is one flag for each target, and the count of running sessions
    /// agrees with the flags.
    pub closed spec fn wf(&self) -> bool {
        &&& self.closed@.len() == self.targets@.len()
        &&& self.open == running(self.closed@)
    }

    /// The sessions to launch: one for each target, in the order of the
    /// targets, each to run the configured number of rounds.
    pub fn sessions(&self) -> (all: Vec<Session>)
        ensures
            all@.len() == self@.targets.len(),
            forall|i: int|
                0 <= i < all@.len() ==> #[trigger] all@[i] == fresh(self@.targets[i], self@.limit),
    {
        let mut all: Vec<Session> = Vec::new();
        let mut i: usize = 0;
        while i < self.targets.len()
            invariant
                i <= self.targets@.len(),
                all@.len() == i,
                forall|j: int|
                    0 <= j < i ==> #[trigger] all@[j] == fresh(self.targets@[j], self.limit),
            decreases self.targets@.len() - i,
        {
            all.push(Session::new(self.targets[i], self.limit));
            i = i + 1;
        }
        all
    }

    /// What the run asks for now.
    pub fn directive(&self) -> (d: Directive)
        requires
            self.wf(),
        ensures
            d == directive_of(self@),
            d == Directive::Finalize ==> forall|i: int|
                0 <= i < self@.targets.len() ==> self@.closed[i],
    {
        proof {
            lemma_running_none(self.closed@);
        }
        if self.failure.is_some() {
            Directive::CancelAll
        } else if self.open == 0 {
            Directive::Finalize
        } else {
            Directive::Wait
        }
    }

    /// The first failure, if a session has failed.
    pub fn failure(&self) -> (f: Option<RunError>)
        ensures
            f == self@.failure,
    {
        self.failure
    }

    /// Takes in that session `index` has ended, in success or with an error,
    /// and says what to do next.
    pub fn session_ended(&mut self, index: usize, result: Result<(), SessionError>) -> (d:
        Directive)
        requires
            old(self).wf(),
        ensures
            final(self).wf(),
            final(self)@ == settle(old(self)@, index as int, result),
            d == directive_of(final(self)@),
    {
        if self.failure.is_none() && index < self.closed.len() && !self.closed[index] {
            match result {
                Ok(_) => {
                    proof {
                        lemma_running_closes(self.closed@, index as int);
                    }
                    self.closed.set(index, true);
                    self.open = self.open - 1;
                },
                Err(error) => {
                    self.failure = Some(RunError { session: index, target: self.targets[index], error });
                },
            }
        }
        self.directive()
    }

    /// Finishes the run with the samples that the sessions have sent.
    pub fn finish(&self, samples: &Vec<u64>) -> (r: Result<Report, RunFault>)
        requires
            self.wf(),
        ensures
            finishes(self@, samples@, r),
    {
        match self.failure {
            Some(error) => Err(RunFault::Aborted(error)),
            None => {
                if self.open > 0 {
                    Err(RunFault::Unfinished)
                } else {
                    let per: u128 = self.limit as u128;
                    let count: u128 = self.targets.len() as u128;
                    proof {
                        assert(per * count <= 0xFFFF * 0xFFFF_FFFF_FFFF_FFFF) by (nonlinear_arith)
                            requires
                                per <= 0xFFFF,
                                count <= 0xFFFF_FFFF_FFFF_FFFF,
                        ;
                    }
                    Ok(Report { attempted: per * count, latency: summarize(samples) })
                }
            },
        }
    }
}

/// Starts a run: one session is to be launched for each server of the
/// configuration, and none has ended yet.
pub fn start(config: Config) -> (run: Run)
    ensures
        run.wf(),
        run@ == begun(config.servers@, config.message_per_connection),
{
    let limit: u16 = config.message_per_connection;
    let targets: Vec<Target> = config.servers;
    let mut closed: Vec<bool> = Vec::new();
    let mut i: usize = 0;
    while i < targets.len()
        invariant
            i <= targets@.len(),
            closed@ == Seq::new(i as nat, |j: int| false),
        decreases targets@.len() - i,
    {
        closed.push(false);
        proof {
            assert(closed@ =~= Seq::new((i + 1) as nat, |j: int| false));
        }
        i = i + 1;
    }
    proof {
        lemma_running_begun(targets@.len());
    }
    let open: usize = targets.len();
    Run { targets, limit, closed, open, failure: None }
}

} // verus!
