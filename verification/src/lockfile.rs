//! Generating and updating a lockfile, one step at a time.
//!
//! Loading a manifest, reading and writing the lockfile and solving the
//! dependency constraints are done by the caller. What to do next is
//! decided here: the caller starts with [`Session::Initial`] and
//! [`Event::Started`], performs the [`Action`] it is handed, and reports
//! the outcome as the next [`Event`], until the action is
//! [`Action::Finish`].

use crate::diff::{compare_dependency_graphs, is_change_set, ChangeEntryView};
use crate::policy::{
    all_known, conflicting, is_plan, is_rejection, option_str, plan_update, UpdateError,
    UpdateOptions, UpdatePlan,
};
use crate::report::{report_changes, report_lines, StatusLine};
use crate::resolve::Resolve;
use vstd::prelude::*;

verus! {

/// What the caller reports back.
#[derive(Debug)]
pub enum Event {
    /// Nothing has happened yet.
    Started,
    /// The manifest was loaded.
    PackageLoaded,
    /// The lockfile was read; `None` if there is none.
    LockfileLoaded(Option<Resolve>),
    /// The solver produced a graph.
    Resolved(Resolve),
    /// The report was shown and the lockfile written.
    Persisted,
    /// The action failed.
    Failed(UpdateError),
}

/// What the caller has to do next.
#[derive(Debug)]
pub enum Action {
    /// Load the manifest.
    LoadPackage,
    /// Read the lockfile of the package.
    LoadLockfile,
    /// Run the solver: from scratch for `None`; else with the previous
    /// graph of the session as a hint, forbidding the nodes that the
    /// plan marks and with the sources of the plan made known.
    Resolve(Option<UpdatePlan>),
    /// Show the lines, then write the graph of the session as the new
    /// lockfile.
    Persist(Vec<StatusLine>),
    /// Stop, with this result.
    Finish(Result<(), UpdateError>),
}

/// How far an operation has come.
#[derive(Debug)]
pub enum Session {
    Initial,
    LoadingPackage,
    LoadingLockfile,
    /// Waiting for the solver; holds the previous graph, if there is one.
    Resolving(Option<Resolve>),
    /// Waiting for the lockfile to be written; holds the new graph.
    Persisting(Resolve),
    Finished,
}

/// The events that can follow the action last handed out in `session`.
pub open spec fn expects(session: Session, event: Event) -> bool {
    match session {
        Session::Initial => event is Started,
        Session::LoadingPackage => event is PackageLoaded || event is Failed,
        Session::LoadingLockfile => event is LockfileLoaded || event is Failed,
        Session::Resolving(_) => event is Resolved || event is Failed,
        Session::Persisting(_) => event is Persisted || event is Failed,
        Session::Finished => false,
    }
}

/// Whether `event` can follow the action last handed out in `session`.
pub fn is_expected(session: &Session, event: &Event) -> (r: bool)
    ensures
        r == expects(*session, *event),
{
    match session {
        Session::Initial => match event {
            Event::Started => true,
            _ => false,
        },
        Session::LoadingPackage => match event {
            Event::PackageLoaded => true,
            Event::Failed(_) => true,
            _ => false,
        },
        Session::LoadingLockfile => match event {
            Event::LockfileLoaded(_) => true,
            Event::Failed(_) => true,
            _ => false,
        },
        Session::Resolving(_) => match event {
            Event::Resolved(_) => true,
            Event::Failed(_) => true,
            _ => false,
        },
        Session::Persisting(_) => match event {
            Event::Persisted => true,
            Event::Failed(_) => true,
            _ => false,
        },
        Session::Finished => false,
    }
}

/// The operation stops with `result`.
pub open spec fn stops_with(next: Session, action: Action, result: Result<(), UpdateError>) -> bool {
    next is Finished && action == Action::Finish(result)
}

/// After the solver answered with `resolve`: the session holds the new
/// graph and the action shows the report of the changes against
/// `previous`, or nothing where there was no previous graph.
pub open spec fn persists(
    previous: Option<Resolve>,
    resolve: Resolve,
    next: Session,
    action: Action,
) -> bool {
    &&& next matches Session::Persisting(kept)
    &&& kept@ == resolve@
    &&& action matches Action::Persist(lines)
    &&& match previous {
        Some(p) => exists|groups: Seq<ChangeEntryView>| #[trigger]
            is_change_set(p@.nodes, resolve@.nodes, groups) && lines.deep_view() == report_lines(
                groups,
            ),
        None => lines.len() == 0,
    }
}

/// What [`generate_lockfile`] decides: load the manifest, solve from
/// scratch, write the result. A lockfile that is there already is not
/// looked at. A failure ends the operation. Stated for the events that
/// [`expects`] admits.
pub open spec fn generate_step(session: Session, event: Event, next: Session, action: Action) -> bool {
    match (session, event) {
        (_, Event::Failed(e)) => stops_with(next, action, Err(e)),
        (Session::Initial, _) => next is LoadingPackage && action is LoadPackage,
        (Session::LoadingPackage, _) | (Session::LoadingLockfile, _) => next == Session::Resolving(
            None,
        ) && action == Action::Resolve(None),
        (Session::Resolving(previous), Event::Resolved(resolve)) => persists(
            previous,
            resolve,
            next,
            action,
        ),
        _ => stops_with(next, action, Ok(())),
    }
}

/// What [`update_lockfile`] decides on a request that is not conflicting.
///
/// Load the manifest, then the lockfile. Without a lockfile, solve from
/// scratch. With one, stop if a name of the request does not single out
/// a node of its graph; else solve with the plan for the request. Then
/// report the changes and write the result. A failure ends the operation.
/// Stated for the events that [`expects`] admits.
pub open spec fn update_step(
    opts: UpdateOptions,
    session: Session,
    event: Event,
    next: Session,
    action: Action,
) -> bool {
    let names = opts.to_update.deep_view();
    match (session, event) {
        (_, Event::Failed(e)) => stops_with(next, action, Err(e)),
        (Session::Initial, _) => next is LoadingPackage && action is LoadPackage,
        (Session::LoadingPackage, _) => next is LoadingLockfile && action is LoadLockfile,
        (Session::LoadingLockfile, Event::LockfileLoaded(None)) => next == Session::Resolving(None)
            && action == Action::Resolve(None),
        (Session::LoadingLockfile, Event::LockfileLoaded(Some(previous))) => if all_known(
            previous@,
            names,
        ) {
            &&& next matches Session::Resolving(Some(kept))
            &&& kept@ == previous@
            &&& action matches Action::Resolve(Some(plan))
            &&& is_plan(previous@, names, opts.aggressive, option_str(opts.precise), plan)
        } else {
            &&& next is Finished
            &&& action matches Action::Finish(Err(e))
            &&& is_rejection(previous@, names, e)
        },
        (Session::Resolving(previous), Event::Resolved(resolve)) => persists(
            previous,
            resolve,
            next,
            action,
        ),
        _ => stops_with(next, action, Ok(())),
    }
}

/// Shows what changed between `previous` and `resolve`.
fn persist(previous: Option<Resolve>, resolve: Resolve) -> (r: (Session, Action))
    ensures
        persists(previous, resolve, r.0, r.1),
{
    let lines = match &previous {
        Some(p) => {
            let changes = compare_dependency_graphs(p, &resolve);
            assert(is_change_set(p@.nodes, resolve@.nodes, changes.deep_view()));
            report_changes(&changes)
        },
        None => Vec::new(),
    };
    (Session::Persisting(resolve), Action::Persist(lines))
}

/// One step of generating a lockfile from scratch.
pub fn generate_lockfile(session: Session, event: Event) -> (r: (Session, Action))
    requires
        expects(session, event),
    ensures
        generate_step(session, event, r.0, r.1),
{
    match (session, event) {
        (_, Event::Failed(e)) => (Session::Finished, Action::Finish(Err(e))),
        (Session::Initial, _) => (Session::LoadingPackage, Action::LoadPackage),
        (Session::LoadingPackage, _) => (Session::Resolving(None), Action::Resolve(None)),
        (Session::LoadingLockfile, _) => (Session::Resolving(None), Action::Resolve(None)),
        (Session::Resolving(previous), Event::Resolved(resolve)) => persist(previous, resolve),
        _ => (Session::Finished, Action::Finish(Ok(()))),
    }
}

/// One step of updating a lockfile.
///
/// A request with both `aggressive` and `precise` set is refused at
/// every step, whatever the session and the event, before anything is
/// loaded or looked at.
pub fn update_lockfile(opts: &UpdateOptions, session: Session, event: Event) -> (r: (
    Session,
    Action,
))
    requires
        conflicting(opts.aggressive, option_str(opts.precise)) || expects(session, event),
    ensures
        conflicting(opts.aggressive, option_str(opts.precise)) ==> stops_with(
            r.0,
            r.1,
            Err(UpdateError::ConfigurationConflict),
        ),
        !conflicting(opts.aggressive, option_str(opts.precise)) ==> update_step(
            *opts,
            session,
            event,
            r.0,
            r.1,
        ),
{
    if opts.aggressive && opts.precise.is_some() {
        return (Session::Finished, Action::Finish(Err(UpdateError::ConfigurationConflict)));
    }
    match (session, event) {
        (_, Event::Failed(e)) => (Session::Finished, Action::Finish(Err(e))),
        (Session::Initial, _) => (Session::LoadingPackage, Action::LoadPackage),
        (Session::LoadingPackage, _) => (Session::LoadingLockfile, Action::LoadLockfile),
        (Session::LoadingLockfile, Event::LockfileLoaded(None)) => (
            Session::Resolving(None),
            Action::Resolve(None),
        ),
        (Session::LoadingLockfile, Event::LockfileLoaded(Some(previous))) => {
            match plan_update(&previous, opts) {
                Ok(plan) => (Session::Resolving(Some(previous)), Action::Resolve(Some(plan))),
                Err(e) => (Session::Finished, Action::Finish(Err(e))),
            }
        },
        (Session::Resolving(previous), Event::Resolved(resolve)) => persist(previous, resolve),
        _ => (Session::Finished, Action::Finish(Ok(()))),
    }
}

} // verus!
