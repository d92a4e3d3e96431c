use lockfile_update::lockfile::{
    generate_lockfile, is_expected, update_lockfile, Action, Event, Session,
};
use lockfile_update::package::{PackageId, Version};
use lockfile_update::policy::{UpdateError, UpdateOptions};
use lockfile_update::report::Verb;
use lockfile_update::resolve::Resolve;
use lockfile_update::source::{SourceId, SourceKind};

fn registry() -> SourceId {
    SourceId::new(SourceKind::Registry, String::from("https://registry.example/index"))
}

fn id(name: &str, patch: u64) -> PackageId {
    PackageId::new(String::from(name), Version::new(0, 0, patch), registry())
}

fn previous() -> Resolve {
    Resolve::new(vec![id("foo", 1), id("bar", 1), id("log", 1)], vec![vec![1], vec![2], vec![]])
        .unwrap()
}

fn next() -> Resolve {
    Resolve::new(vec![id("foo", 1), id("bar", 2), id("log", 1)], vec![vec![1], vec![2], vec![]])
        .unwrap()
}

fn names(list: &[&str]) -> Vec<String> {
    list.iter().map(|s| String::from(*s)).collect()
}

#[test]
fn update_runs_through_all_steps() {
    let to_update = names(&["bar"]);
    let opts = UpdateOptions { to_update: &to_update, precise: None, aggressive: false };

    let (session, action) = update_lockfile(&opts, Session::Initial, Event::Started);
    assert!(matches!(session, Session::LoadingPackage));
    assert!(matches!(action, Action::LoadPackage));

    let (session, action) = update_lockfile(&opts, session, Event::PackageLoaded);
    assert!(matches!(session, Session::LoadingLockfile));
    assert!(matches!(action, Action::LoadLockfile));

    let (session, action) =
        update_lockfile(&opts, session, Event::LockfileLoaded(Some(previous())));
    match &session {
        Session::Resolving(Some(kept)) => assert_eq!(kept.nodes(), previous().nodes()),
        other => panic!("unexpected session {:?}", other),
    }
    match action {
        Action::Resolve(Some(plan)) => {
            assert_eq!(plan.to_avoid, vec![false, true, false]);
            assert_eq!(plan.sources, vec![registry()]);
            assert_eq!(plan.sources[0].precise(), None);
        }
        other => panic!("unexpected action {:?}", other),
    }

    let (session, action) = update_lockfile(&opts, session, Event::Resolved(next()));
    match &session {
        Session::Persisting(kept) => assert_eq!(kept.nodes(), next().nodes()),
        other => panic!("unexpected session {:?}", other),
    }
    match action {
        Action::Persist(lines) => {
            assert_eq!(lines.len(), 1);
            assert_eq!(lines[0].verb, Verb::Updating);
            assert_eq!(lines[0].message, "bar v0.0.1 -> v0.0.2");
        }
        other => panic!("unexpected action {:?}", other),
    }

    let (session, action) = update_lockfile(&opts, session, Event::Persisted);
    assert!(matches!(session, Session::Finished));
    assert!(matches!(action, Action::Finish(Ok(()))));
}

#[test]
fn conflicting_update_stops_at_once() {
    let to_update = names(&["bar"]);
    let opts = UpdateOptions { to_update: &to_update, precise: Some("0.0.2"), aggressive: true };
    let (session, action) = update_lockfile(&opts, Session::Initial, Event::Started);
    assert!(matches!(session, Session::Finished));
    assert!(matches!(action, Action::Finish(Err(UpdateError::ConfigurationConflict))));
}

#[test]
fn conflicting_update_stops_at_every_step() {
    let none: Vec<String> = Vec::new();
    let opts = UpdateOptions { to_update: &none, precise: Some("0.0.2"), aggressive: true };
    let (session, action) =
        update_lockfile(&opts, Session::LoadingLockfile, Event::LockfileLoaded(Some(previous())));
    assert!(matches!(session, Session::Finished));
    assert!(matches!(action, Action::Finish(Err(UpdateError::ConfigurationConflict))));
    let (session, action) =
        update_lockfile(&opts, Session::Resolving(Some(previous())), Event::Resolved(next()));
    assert!(matches!(session, Session::Finished));
    assert!(matches!(action, Action::Finish(Err(UpdateError::ConfigurationConflict))));
}

#[test]
fn conflicting_update_stops_whatever_the_event() {
    let none: Vec<String> = Vec::new();
    let opts = UpdateOptions { to_update: &none, precise: Some(""), aggressive: true };
    let (session, action) = update_lockfile(&opts, Session::Finished, Event::Persisted);
    assert!(matches!(session, Session::Finished));
    assert!(matches!(action, Action::Finish(Err(UpdateError::ConfigurationConflict))));
    let (session, action) = update_lockfile(&opts, Session::Initial, Event::Resolved(next()));
    assert!(matches!(session, Session::Finished));
    assert!(matches!(action, Action::Finish(Err(UpdateError::ConfigurationConflict))));
}

#[test]
fn update_without_a_lockfile_resolves_from_scratch() {
    let none: Vec<String> = Vec::new();
    let opts = UpdateOptions { to_update: &none, precise: None, aggressive: false };
    let (session, action) =
        update_lockfile(&opts, Session::LoadingLockfile, Event::LockfileLoaded(None));
    assert!(matches!(session, Session::Resolving(None)));
    assert!(matches!(action, Action::Resolve(None)));
    let (session, action) = update_lockfile(&opts, session, Event::Resolved(next()));
    assert!(matches!(session, Session::Persisting(_)));
    match action {
        Action::Persist(lines) => assert!(lines.is_empty()),
        other => panic!("unexpected action {:?}", other),
    }
}

#[test]
fn update_of_everything_avoids_every_node() {
    let none: Vec<String> = Vec::new();
    let opts = UpdateOptions { to_update: &none, precise: None, aggressive: false };
    let (session, action) =
        update_lockfile(&opts, Session::LoadingLockfile, Event::LockfileLoaded(Some(previous())));
    assert!(matches!(session, Session::Resolving(Some(_))));
    match action {
        Action::Resolve(Some(plan)) => {
            assert_eq!(plan.to_avoid, vec![true, true, true]);
            assert!(plan.sources.is_empty());
        }
        other => panic!("unexpected action {:?}", other),
    }
    let (_, action) = update_lockfile(&opts, session, Event::Resolved(previous()));
    match action {
        Action::Persist(lines) => assert!(lines.is_empty()),
        other => panic!("unexpected action {:?}", other),
    }
}

#[test]
fn update_of_an_unknown_name_stops_before_the_solver() {
    let to_update = names(&["nope"]);
    let opts = UpdateOptions { to_update: &to_update, precise: None, aggressive: false };
    let (session, action) =
        update_lockfile(&opts, Session::LoadingLockfile, Event::LockfileLoaded(Some(previous())));
    assert!(matches!(session, Session::Finished));
    match action {
        Action::Finish(Err(e)) => {
            assert_eq!(e, UpdateError::AmbiguousOrUnknownPackageName(String::from("nope")))
        }
        other => panic!("unexpected action {:?}", other),
    }
}

#[test]
fn failure_ends_an_update() {
    let none: Vec<String> = Vec::new();
    let opts = UpdateOptions { to_update: &none, precise: None, aggressive: false };
    let failure = || UpdateError::ResolutionFailure(String::from("no matching version"));
    let (session, action) =
        update_lockfile(&opts, Session::Resolving(Some(previous())), Event::Failed(failure()));
    assert!(matches!(session, Session::Finished));
    match action {
        Action::Finish(Err(e)) => assert_eq!(e, failure()),
        other => panic!("unexpected action {:?}", other),
    }
    let failure = || UpdateError::PersistenceFailure(String::from("disk full"));
    for session in [Session::LoadingPackage, Session::LoadingLockfile, Session::Persisting(next())]
    {
        let (session, action) = update_lockfile(&opts, session, Event::Failed(failure()));
        assert!(matches!(session, Session::Finished));
        match action {
            Action::Finish(Err(e)) => assert_eq!(e, failure()),
            other => panic!("unexpected action {:?}", other),
        }
    }
}

#[test]
fn generate_runs_through_all_steps() {
    let (session, action) = generate_lockfile(Session::Initial, Event::Started);
    assert!(matches!(session, Session::LoadingPackage));
    assert!(matches!(action, Action::LoadPackage));
    let (session, action) = generate_lockfile(session, Event::PackageLoaded);
    assert!(matches!(session, Session::Resolving(None)));
    assert!(matches!(action, Action::Resolve(None)));
    let (session, action) = generate_lockfile(session, Event::Resolved(next()));
    match &session {
        Session::Persisting(kept) => assert_eq!(kept.nodes(), next().nodes()),
        other => panic!("unexpected session {:?}", other),
    }
    match action {
        Action::Persist(lines) => assert!(lines.is_empty()),
        other => panic!("unexpected action {:?}", other),
    }
    let (session, action) = generate_lockfile(session, Event::Persisted);
    assert!(matches!(session, Session::Finished));
    assert!(matches!(action, Action::Finish(Ok(()))));
}

#[test]
fn generate_does_not_look_at_a_lockfile() {
    let (session, action) =
        generate_lockfile(Session::LoadingLockfile, Event::LockfileLoaded(Some(previous())));
    assert!(matches!(session, Session::Resolving(None)));
    assert!(matches!(action, Action::Resolve(None)));
}

#[test]
fn failure_ends_a_generation() {
    let failure = || UpdateError::ResolutionFailure(String::from("no matching version"));
    let (session, action) = generate_lockfile(Session::Resolving(None), Event::Failed(failure()));
    assert!(matches!(session, Session::Finished));
    match action {
        Action::Finish(Err(e)) => assert_eq!(e, failure()),
        other => panic!("unexpected action {:?}", other),
    }
}

#[test]
fn expected_events_follow_the_action() {
    assert!(is_expected(&Session::Initial, &Event::Started));
    assert!(!is_expected(&Session::Initial, &Event::PackageLoaded));
    assert!(is_expected(&Session::LoadingPackage, &Event::PackageLoaded));
    assert!(is_expected(
        &Session::LoadingPackage,
        &Event::Failed(UpdateError::PersistenceFailure(String::from("missing manifest")))
    ));
    assert!(!is_expected(&Session::LoadingPackage, &Event::Started));
    assert!(is_expected(&Session::LoadingLockfile, &Event::LockfileLoaded(None)));
    assert!(!is_expected(&Session::LoadingLockfile, &Event::Resolved(next())));
    assert!(is_expected(&Session::Resolving(None), &Event::Resolved(next())));
    assert!(!is_expected(&Session::Resolving(None), &Event::Persisted));
    assert!(is_expected(&Session::Persisting(next()), &Event::Persisted));
    assert!(!is_expected(&Session::Persisting(next()), &Event::Resolved(next())));
    assert!(!is_expected(&Session::Finished, &Event::Started));
    assert!(!is_expected(&Session::Finished, &Event::Failed(UpdateError::ConfigurationConflict)));
}
