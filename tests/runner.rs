use squealmate::runner::{RunPhase, Runner, ScriptOutcome};
use squealmate::selection::{AppState, ScriptState};

fn queue(paths: &[&str]) -> AppState {
    let mut state = AppState::new();
    let v: Vec<String> = paths.iter().map(|s| s.to_string()).collect();
    state.add_many(&v);
    state
}

/// Drives one run cycle; `fails` names the scripts whose attempt fails.
fn cycle(runner: &mut Runner, skip_errors: bool, fails: &[&str]) -> Vec<String> {
    let mut attempted = Vec::new();
    let mut next = runner.run(skip_errors);
    while let Some(path) = next {
        attempted.push(path.clone());
        let outcome = if fails.contains(&path.as_str()) {
            ScriptOutcome::Failed { message: "failed".to_string(), checksum: Some(1) }
        } else {
            ScriptOutcome::Succeeded { elapsed: 3, checksum: 2 }
        };
        let step = runner.finish(path.clone(), outcome);
        let record = step.record.unwrap();
        assert_eq!(path, record.path);
        assert_eq!(!fails.contains(&path.as_str()), record.success);
        next = if step.resume { runner.run(skip_errors) } else { None };
    }
    attempted
}

fn states(runner: &Runner) -> Vec<ScriptState> {
    runner.queue.selected.iter().map(|s| s.state).collect()
}

#[test]
fn skipping_errors_attempts_everything() {
    let mut runner = Runner::new(queue(&["a.sql", "b.sql", "c.sql", "d.sql"]));
    let attempted = cycle(&mut runner, true, &["b.sql", "d.sql"]);
    assert_eq!(vec!["a.sql", "b.sql", "c.sql", "d.sql"], attempted);
    assert_eq!(
        vec![ScriptState::Finished, ScriptState::Error, ScriptState::Finished, ScriptState::Error],
        states(&runner)
    );
    assert!(matches!(runner.phase, RunPhase::Idle));
    assert_eq!(None, runner.run(true));
}

#[test]
fn halting_at_first_failure_leaves_the_rest() {
    let mut runner = Runner::new(queue(&["a.sql", "b.sql", "c.sql"]));
    let attempted = cycle(&mut runner, false, &["b.sql"]);
    assert_eq!(vec!["a.sql", "b.sql"], attempted);
    assert_eq!(
        vec![ScriptState::Finished, ScriptState::Error, ScriptState::Pending],
        states(&runner)
    );
    // a later run request resumes with the rest
    assert_eq!(vec!["c.sql"], cycle(&mut runner, false, &[]));
}

#[test]
fn one_script_in_flight_at_a_time() {
    let mut runner = Runner::new(queue(&["a.sql", "b.sql"]));
    assert_eq!(Some("a.sql".to_string()), runner.run(false));
    assert_eq!(None, runner.run(false));
    assert_eq!(ScriptState::Running, runner.queue.selected[0].state);
    assert_eq!(ScriptState::Pending, runner.queue.selected[1].state);
}

#[test]
fn unreadable_file_records_nothing_but_follows_skip() {
    let mut runner = Runner::new(queue(&["a.sql", "b.sql"]));
    let path = runner.run(true).unwrap();
    let step = runner.finish(
        path,
        ScriptOutcome::Failed { message: "cannot read".to_string(), checksum: None },
    );
    assert!(step.record.is_none());
    assert!(step.resume);
    assert_eq!(Some("cannot read".to_string()), runner.queue.selected[0].error.clone());
}

#[test]
fn result_for_removed_entry_is_ignored() {
    let mut runner = Runner::new(queue(&["a.sql", "b.sql"]));
    let path = runner.run(false).unwrap();
    runner.queue.remove(path.clone());
    let step = runner.finish(path, ScriptOutcome::Succeeded { elapsed: 1, checksum: 5 });
    assert!(step.resume);
    assert_eq!(1, runner.queue.selected.len());
    assert_eq!(ScriptState::Pending, runner.queue.selected[0].state);
}

#[test]
fn advance_hands_out_the_next_script() {
    let mut runner = Runner::new(queue(&["a.sql", "b.sql", "c.sql"]));
    let first = runner.run(true).unwrap();
    assert_eq!("a.sql", first);
    let step = runner.advance(first, ScriptOutcome::Failed { message: "x".to_string(), checksum: Some(4) });
    let record = step.record.unwrap();
    assert_eq!(("a.sql", 4, false), (record.path.as_str(), record.checksum, record.success));
    assert_eq!(Some("b.sql".to_string()), step.next);
    assert_eq!(ScriptState::Running, runner.queue.selected[1].state);
    let step = runner.advance("b.sql".to_string(), ScriptOutcome::Succeeded { elapsed: 1, checksum: 2 });
    assert_eq!(Some("c.sql".to_string()), step.next);
    let step = runner.advance("c.sql".to_string(), ScriptOutcome::Succeeded { elapsed: 1, checksum: 3 });
    assert_eq!(None, step.next);
    assert!(matches!(runner.phase, RunPhase::Idle));
    assert_eq!(
        vec![ScriptState::Error, ScriptState::Finished, ScriptState::Finished],
        states(&runner)
    );
}

#[test]
fn advance_stops_at_failure_without_skipping() {
    let mut runner = Runner::new(queue(&["a.sql", "b.sql"]));
    let first = runner.run(false).unwrap();
    let step = runner.advance(first, ScriptOutcome::Failed { message: "x".to_string(), checksum: None });
    assert!(step.record.is_none());
    assert_eq!(None, step.next);
    assert_eq!(vec![ScriptState::Error, ScriptState::Pending], states(&runner));
}
