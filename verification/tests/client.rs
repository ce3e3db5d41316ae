use proxy_client::aggregator::{AggregationError, Summary};
use proxy_client::client::{start, Directive, Report, Run, RunError, RunFault};
use proxy_client::config::{Config, Target};
use proxy_client::session::{Event, Session, SessionError, PROBE_LENGTH};

fn config(ports: Vec<u16>, messages: u16) -> Config {
    Config::new(vec![ports], messages)
}

/// Runs one session to its end: it connects, then answers every round in
/// `latency_ms` milliseconds, but closes the connection once `closes_after`
/// rounds are done, if that is given.
fn drive(session: &mut Session, latency_ms: u64, closes_after: Option<u16>, out: &mut Vec<u64>) {
    let mut event = Event::Connected;
    while session.outcome().is_none() {
        let step = session.step(event);
        if let Some(sample) = step.emit {
            out.push(sample);
        }
        event = match event {
            Event::Wrote { .. } => {
                if closes_after == Some(session.rounds) {
                    Event::Received { bytes: 0, latency_ms }
                } else {
                    Event::Received { bytes: 64, latency_ms }
                }
            }
            _ => Event::Wrote { bytes: PROBE_LENGTH },
        };
    }
}

fn run_all(run: &mut Run, latency_ms: u64) -> (Directive, Vec<u64>) {
    let mut samples = Vec::new();
    let mut directive = run.directive();
    for (index, mut session) in run.sessions().into_iter().enumerate() {
        drive(&mut session, latency_ms, None, &mut samples);
        directive = run.session_ended(index, session.outcome().unwrap());
    }
    (directive, samples)
}

#[test]
fn start_launches_one_session_per_target() {
    let run = start(config(vec![8001, 8002, 8003], 5));
    let sessions = run.sessions();
    assert_eq!(sessions.len(), 3);
    assert_eq!(sessions[0], Session::new(Target::loopback(8001), 5));
    assert_eq!(sessions[1], Session::new(Target::loopback(8002), 5));
    assert_eq!(sessions[2], Session::new(Target::loopback(8003), 5));
    assert_eq!(run.directive(), Directive::Wait);
    assert_eq!(run.failure(), None);
}

#[test]
fn three_targets_five_messages_ten_milliseconds() {
    let mut run = start(config(vec![8001, 8002, 8003], 5));
    let (directive, samples) = run_all(&mut run, 10);
    assert_eq!(directive, Directive::Finalize);
    assert_eq!(samples.len(), 15);
    let report = run.finish(&samples).unwrap();
    assert_eq!(report.attempted, 15);
    assert_eq!(
        report.latency,
        Ok(Summary {
            count: 15,
            minimum: 10,
            maximum: 10,
            mean: 10,
            p50: 10,
            p90: 10,
            p99: 10,
            p999: 10,
        })
    );
}

#[test]
fn successful_run_collects_targets_times_messages() {
    let mut run = start(config(vec![1, 2, 3, 4], 7));
    let (directive, samples) = run_all(&mut run, 3);
    assert_eq!(directive, Directive::Finalize);
    assert_eq!(samples.len(), 28);
    let report = run.finish(&samples).unwrap();
    assert_eq!(report.attempted, 28);
    assert_eq!(report.latency.unwrap().count, 28);
}

#[test]
fn run_waits_until_the_last_session_closes() {
    let mut run = start(config(vec![1, 2, 3], 1));
    assert_eq!(run.session_ended(2, Ok(())), Directive::Wait);
    assert_eq!(run.finish(&vec![5]), Err(RunFault::Unfinished));
    assert_eq!(run.session_ended(0, Ok(())), Directive::Wait);
    assert_eq!(run.finish(&vec![5, 6]), Err(RunFault::Unfinished));
    assert_eq!(run.session_ended(1, Ok(())), Directive::Finalize);
    assert!(run.finish(&vec![5, 6, 7]).is_ok());
}

#[test]
fn refused_connection_aborts_the_run() {
    let mut run = start(config(vec![8001, 8002, 8003], 5));
    let mut sessions = run.sessions();
    let mut samples = Vec::new();
    drive(&mut sessions[0], 10, None, &mut samples);
    assert_eq!(run.session_ended(0, sessions[0].outcome().unwrap()), Directive::Wait);
    sessions[1].step(Event::ConnectRefused);
    let directive = run.session_ended(1, sessions[1].outcome().unwrap());
    assert_eq!(directive, Directive::CancelAll);
    let error = RunError {
        session: 1,
        target: Target::loopback(8002),
        error: SessionError::ConnectFailed,
    };
    assert_eq!(run.failure(), Some(error));
    assert_eq!(run.finish(&samples), Err(RunFault::Aborted(error)));
}

#[test]
fn first_failure_is_kept() {
    let mut run = start(config(vec![1, 2, 3], 2));
    assert_eq!(run.session_ended(2, Err(SessionError::ConnectTimedOut)), Directive::CancelAll);
    assert_eq!(run.session_ended(0, Err(SessionError::SendFailed)), Directive::CancelAll);
    assert_eq!(run.session_ended(1, Ok(())), Directive::CancelAll);
    assert_eq!(run.session_ended(0, Ok(())), Directive::CancelAll);
    let error = RunError {
        session: 2,
        target: Target::loopback(3),
        error: SessionError::ConnectTimedOut,
    };
    assert_eq!(run.finish(&vec![1, 2, 3, 4]), Err(RunFault::Aborted(error)));
}

#[test]
fn target_closing_after_forty_rounds_fails_the_run() {
    let mut run = start(config(vec![8001], 100));
    let mut session = run.sessions()[0];
    let mut samples = Vec::new();
    drive(&mut session, 1, Some(40), &mut samples);
    assert_eq!(samples.len(), 40);
    assert_eq!(session.outcome(), Some(Err(SessionError::ReceiveFailed)));
    let directive = run.session_ended(0, session.outcome().unwrap());
    assert_eq!(directive, Directive::CancelAll);
    let result = run.finish(&samples);
    assert_eq!(
        result,
        Err(RunFault::Aborted(RunError {
            session: 0,
            target: Target::loopback(8001),
            error: SessionError::ReceiveFailed,
        }))
    );
}

#[test]
fn run_without_targets_reports_no_data() {
    let run = start(config(vec![], 10));
    assert!(run.sessions().is_empty());
    assert_eq!(run.directive(), Directive::Finalize);
    assert_eq!(
        run.finish(&Vec::new()),
        Ok(Report { attempted: 0, latency: Err(AggregationError::NoData) })
    );
}

#[test]
fn run_without_messages_reports_no_data() {
    let mut run = start(config(vec![8001, 8002], 0));
    let (directive, samples) = run_all(&mut run, 10);
    assert_eq!(directive, Directive::Finalize);
    assert!(samples.is_empty());
    assert_eq!(
        run.finish(&samples),
        Ok(Report { attempted: 0, latency: Err(AggregationError::NoData) })
    );
}

#[test]
fn attempted_counts_the_configured_messages() {
    let mut run = start(config(vec![1, 2], 3));
    run.session_ended(0, Ok(()));
    run.session_ended(1, Ok(()));
    let report = run.finish(&vec![4, 8]).unwrap();
    assert_eq!(report.attempted, 6);
    assert_eq!(report.latency.unwrap().count, 2);
}

#[test]
fn reports_of_unknown_or_repeated_sessions_are_ignored() {
    let mut run = start(config(vec![1, 2], 1));
    assert_eq!(run.session_ended(7, Err(SessionError::SendFailed)), Directive::Wait);
    assert_eq!(run.failure(), None);
    assert_eq!(run.session_ended(0, Ok(())), Directive::Wait);
    assert_eq!(run.session_ended(0, Ok(())), Directive::Wait);
    assert_eq!(run.session_ended(0, Err(SessionError::ReceiveFailed)), Directive::Wait);
    assert_eq!(run.failure(), None);
    assert_eq!(run.session_ended(1, Ok(())), Directive::Finalize);
}

#[test]
fn report_does_not_depend_on_sample_order() {
    let mut run = start(config(vec![1, 2], 2));
    run.session_ended(1, Ok(()));
    run.session_ended(0, Ok(()));
    let one = run.finish(&vec![9, 3, 7, 3]).unwrap();
    let other = run.finish(&vec![3, 3, 7, 9]).unwrap();
    assert_eq!(one, other);
    assert_eq!(
        one.latency,
        Ok(Summary {
            count: 4,
            minimum: 3,
            maximum: 9,
            mean: 6,
            p50: 3,
            p90: 9,
            p99: 9,
            p999: 9,
        })
    );
}
