use manifest_edit::workflow::advance;
use manifest_edit::workflow::begin;
use manifest_edit::workflow::Action;
use manifest_edit::workflow::Cause;
use manifest_edit::workflow::Event;
use manifest_edit::workflow::Extras;
use manifest_edit::workflow::Outcome;
use manifest_edit::workflow::Stage;
use manifest_edit::workflow::State;
use manifest_edit::workflow::Upgrade;
use manifest_edit::PackageName;

fn names(texts: &[&str]) -> Vec<PackageName> {
    texts.iter().map(|text| PackageName::new(text.as_bytes()).ok().unwrap()).collect()
}

fn discovered(manifest: &str) -> Event {
    Event::Discovered { manifest: manifest.as_bytes().to_vec() }
}

/// Runs the workflow on `manifest` up to the action that writes it.
fn up_to_write(manifest: &str, packages: &[&str]) -> (State, String) {
    let (state, action) = begin(names(packages));
    assert!(matches!(action, Action::Discover));
    match advance(state, discovered(manifest)) {
        (state, Action::WriteManifest { text }) => (state, String::from_utf8(text).unwrap()),
        _ => panic!("nothing is to be written"),
    }
}

const DEMO: &str = "[project]\nname = \"demo\"\n# what we need\ndependencies = [\"requests>=2,<3\", \"click\"] # for now\n";

#[test]
fn removing_click_succeeds_and_keeps_the_comments() {
    let (state, written) = up_to_write(DEMO, &["click"]);
    assert_eq!(
        written,
        "[project]\nname = \"demo\"\n# what we need\ndependencies = [\"requests>=2,<3\"] # for now\n"
    );
    assert!(matches!(state, State::EditsApplied { .. }));

    let (state, action) = advance(state, Event::Completed);
    assert!(matches!(state, State::ManifestPersisted { .. }));
    assert!(matches!(action, Action::PrepareEnvironment));

    let (state, action) = advance(state, Event::Completed);
    assert!(matches!(state, State::EnvironmentReady));
    match action {
        Action::Lock(input) => {
            assert_eq!(input.root_project.map(|name| name.as_bytes().to_vec()), Some(b"demo".to_vec()));
            assert_eq!(input.upgrade, Upgrade::Nothing);
            assert_eq!(input.exclude_newer, None);
            assert!(input.index_locations.index.is_none());
            assert!(input.index_locations.extra_index.is_empty());
            assert!(input.index_locations.flat_index.is_empty());
            assert!(!input.index_locations.no_index);
        }
        _ => panic!("no lock is asked for"),
    }

    let (state, action) = advance(state, Event::Completed);
    assert!(matches!(state, State::Locked));
    match action {
        Action::Sync(input) => {
            assert_eq!(input.extras, Extras::All);
            assert!(input.dev);
            assert!(input.index_locations.index.is_none());
            assert!(input.index_locations.extra_index.is_empty());
            assert!(!input.index_locations.no_index);
        }
        _ => panic!("no synchronization is asked for"),
    }

    let (state, action) = advance(state, Event::Completed);
    assert!(matches!(state, State::Done));
    assert!(matches!(action, Action::Finish(Outcome::Success)));
}

#[test]
fn removing_what_is_not_there_fails_and_writes_nothing() {
    let (state, _) = begin(names(&["django"]));
    let (state, action) = advance(state, discovered("[project]\ndependencies = [\"flask\"]\n"));
    match action {
        Action::Finish(Outcome::Failure { stage, cause: Cause::DependencyNotFound(missing) }) => {
            assert_eq!(stage, Stage::ManifestLoaded);
            assert_eq!(missing.as_bytes(), b"django");
        }
        _ => panic!("no failure is reported"),
    }
    match state {
        State::Failed { stage, cause: Cause::DependencyNotFound(missing) } => {
            assert_eq!(stage, Stage::ManifestLoaded);
            assert_eq!(missing.as_bytes(), b"django");
        }
        _ => panic!("the workflow has not failed"),
    }
}

#[test]
fn a_failed_lock_leaves_the_manifest_written() {
    let (state, written) = up_to_write(DEMO, &["click"]);
    assert!(!written.contains("click"));
    let (state, _) = advance(state, Event::Completed);
    let (state, action) = advance(state, Event::Completed);
    assert!(matches!(action, Action::Lock(_)));
    let (state, action) = advance(state, Event::Failed);
    assert!(matches!(
        action,
        Action::Finish(Outcome::Failure { stage: Stage::EnvironmentReady, cause: Cause::Lock })
    ));
    assert!(matches!(state, State::Failed { stage: Stage::EnvironmentReady, cause: Cause::Lock }));
    // Whatever comes after, the outcome stays and nothing is written again.
    let (state, action) = advance(state, Event::Completed);
    assert!(matches!(
        action,
        Action::Finish(Outcome::Failure { stage: Stage::EnvironmentReady, cause: Cause::Lock })
    ));
    assert!(matches!(state, State::Failed { stage: Stage::EnvironmentReady, cause: Cause::Lock }));
}

#[test]
fn one_missing_name_fails_the_whole_request() {
    for packages in [["requests", "django"], ["django", "requests"]] {
        let (state, _) = begin(names(&packages));
        let (state, action) = advance(state, discovered(DEMO));
        match action {
            Action::Finish(Outcome::Failure { stage, cause: Cause::DependencyNotFound(missing) }) => {
                assert_eq!(stage, Stage::ManifestLoaded);
                assert_eq!(missing.as_bytes(), b"django");
            }
            _ => panic!("no failure is reported"),
        }
        assert!(matches!(state, State::Failed { .. }));
    }
}

#[test]
fn several_names_are_removed_by_one_write() {
    let (_, written) = up_to_write(DEMO, &["Click", "Requests"]);
    assert_eq!(written, "[project]\nname = \"demo\"\n# what we need\ndependencies = [] # for now\n");
}

#[test]
fn a_project_that_is_not_found_fails_at_the_start() {
    let (state, _) = begin(names(&["click"]));
    let (state, action) = advance(state, Event::Failed);
    assert!(matches!(
        action,
        Action::Finish(Outcome::Failure { stage: Stage::Start, cause: Cause::ProjectNotFound })
    ));
    assert!(matches!(state, State::Failed { stage: Stage::Start, cause: Cause::ProjectNotFound }));
}

#[test]
fn a_manifest_that_cannot_be_read_fails_at_the_start() {
    let (state, _) = begin(names(&["click"]));
    let (_, action) = advance(state, discovered("[project]\ndependencies = [\"click\"\n"));
    match action {
        Action::Finish(Outcome::Failure { stage, cause: Cause::Parse(error) }) => {
            assert_eq!(stage, Stage::Start);
            assert_eq!(error.offset, 10);
        }
        _ => panic!("no parse failure is reported"),
    }
}

#[test]
fn a_failed_write_fails_after_the_edits() {
    let (state, _) = up_to_write(DEMO, &["click"]);
    let (_, action) = advance(state, Event::Failed);
    assert!(matches!(
        action,
        Action::Finish(Outcome::Failure { stage: Stage::EditsApplied, cause: Cause::Persist })
    ));
}

#[test]
fn a_failed_environment_fails_after_the_write() {
    let (state, _) = up_to_write(DEMO, &["click"]);
    let (state, _) = advance(state, Event::Completed);
    let (_, action) = advance(state, Event::Failed);
    assert!(matches!(
        action,
        Action::Finish(Outcome::Failure { stage: Stage::ManifestPersisted, cause: Cause::Environment })
    ));
}

#[test]
fn a_failed_synchronization_fails_after_the_lock() {
    let (state, _) = up_to_write(DEMO, &["click"]);
    let (state, _) = advance(state, Event::Completed);
    let (state, _) = advance(state, Event::Completed);
    let (state, _) = advance(state, Event::Completed);
    let (_, action) = advance(state, Event::Failed);
    assert!(matches!(
        action,
        Action::Finish(Outcome::Failure { stage: Stage::Locked, cause: Cause::Sync })
    ));
}

#[test]
fn an_event_that_is_not_awaited_fails_the_workflow() {
    let (state, _) = begin(names(&["click"]));
    let (_, action) = advance(state, Event::Completed);
    assert!(matches!(
        action,
        Action::Finish(Outcome::Failure { stage: Stage::Start, cause: Cause::OutOfOrder })
    ));
    let (state, _) = up_to_write(DEMO, &["click"]);
    let (_, action) = advance(state, discovered(DEMO));
    assert!(matches!(
        action,
        Action::Finish(Outcome::Failure { stage: Stage::EditsApplied, cause: Cause::OutOfOrder })
    ));
}

#[test]
fn a_finished_workflow_stays_finished() {
    let (state, _) = up_to_write(DEMO, &["click"]);
    let (state, _) = advance(state, Event::Completed);
    let (state, _) = advance(state, Event::Completed);
    let (state, _) = advance(state, Event::Completed);
    let (state, _) = advance(state, Event::Completed);
    let (state, action) = advance(state, Event::Failed);
    assert!(matches!(state, State::Done));
    assert!(matches!(action, Action::Finish(Outcome::Success)));
}

#[test]
fn a_manifest_without_a_name_locks_without_a_root() {
    let (state, _) = up_to_write("[project]\ndependencies = [\"click\"]\n", &["click"]);
    let (state, _) = advance(state, Event::Completed);
    let (_, action) = advance(state, Event::Completed);
    match action {
        Action::Lock(input) => assert!(input.root_project.is_none()),
        _ => panic!("no lock is asked for"),
    }
}
