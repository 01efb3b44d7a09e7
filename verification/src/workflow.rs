//! The decisions of the remove workflow.
//!
//! The workflow runs a fixed line of stages: the project is discovered, its
//! manifest read and edited, the edited manifest written, the environment
//! made ready, the project locked, and the environment synchronized. The
//! work of each stage is done elsewhere; this module decides, from the state
//! and from how the last piece of work ended, which state comes next and what
//! is to be done. Nothing is taken back: once the manifest is written, a later
//! failure leaves it written.
//!
//! The workflow waits at five of its stages, each time for one piece of
//! outside work. Two stages are passed within a step: the manifest is loaded
//! and edited in the step that follows the discovery, and the environment is
//! synchronized and the workflow done in the step that follows the
//! synchronization.

use crate::document::parse_text;
use crate::document::ParseError;
use crate::model::Document;
use crate::name::PackageName;
use crate::request::edited_text;
use crate::request::lemma_edited_text_reads_back;
use crate::request::lemma_missing_name_fails;
use crate::request::lemma_request_is_whole;
use crate::request::names_view;
use crate::request::remove_each;
use crate::request::EditErrorView;
use vstd::prelude::*;

verus! {

/// The stages of the workflow, in their order.
#[derive(Debug, Clone, Copy, PartialEq, Eq, Structural)]
pub enum Stage {
    Start,
    ManifestLoaded,
    EditsApplied,
    ManifestPersisted,
    EnvironmentReady,
    Locked,
    Synced,
    Done,
}

impl Stage {
    /// The place of the stage in the line.
    pub open spec fn rank(self) -> int {
        match self {
            Stage::Start => 0,
            Stage::ManifestLoaded => 1,
            Stage::EditsApplied => 2,
            Stage::ManifestPersisted => 3,
            Stage::EnvironmentReady => 4,
            Stage::Locked => 5,
            Stage::Synced => 6,
            Stage::Done => 7,
        }
    }
}

/// Why the workflow failed.
pub enum Cause {
    /// No project was found.
    ProjectNotFound,
    /// The manifest could not be read.
    Parse(ParseError),
    /// The manifest has no dependency on this name.
    DependencyNotFound(PackageName),
    /// The edited manifest could not be written.
    Persist,
    /// The environment could not be made ready.
    Environment,
    /// The project could not be locked.
    Lock,
    /// The environment could not be synchronized.
    Sync,
    /// The event is none that the state waits for.
    OutOfOrder,
}

/// Why the workflow failed, as mathematical data.
pub ghost enum CauseView {
    ProjectNotFound,
    Parse(int),
    DependencyNotFound(Seq<u8>),
    Persist,
    Environment,
    Lock,
    Sync,
    OutOfOrder,
}

impl View for Cause {
    type V = CauseView;

    open spec fn view(&self) -> CauseView {
        match self {
            Cause::ProjectNotFound => CauseView::ProjectNotFound,
            Cause::Parse(error) => CauseView::Parse(error.offset as int),
            Cause::DependencyNotFound(name) => CauseView::DependencyNotFound(name@),
            Cause::Persist => CauseView::Persist,
            Cause::Environment => CauseView::Environment,
            Cause::Lock => CauseView::Lock,
            Cause::Sync => CauseView::Sync,
            Cause::OutOfOrder => CauseView::OutOfOrder,
        }
    }
}

/// Which packages the lock may move to newer versions.
#[derive(Debug, Clone, Copy, PartialEq, Eq, Structural)]
pub enum Upgrade {
    Nothing,
    All,
}

/// Which optional dependency groups the environment gets.
#[derive(Debug, Clone, Copy, PartialEq, Eq, Structural)]
pub enum Extras {
    Nothing,
    All,
}

/// Where packages are looked for.
pub struct IndexLocations {
    pub index: Option<Vec<u8>>,
    pub extra_index: Vec<Vec<u8>>,
    pub flat_index: Vec<Vec<u8>>,
    pub no_index: bool,
}

impl IndexLocations {
    /// Whether no location is named and the default index is in use.
    pub open spec fn is_default(&self) -> bool {
        &&& self.index is None
        &&& self.extra_index@.len() == 0
        &&& self.flat_index@.len() == 0
        &&& !self.no_index
    }

    /// The default: no location named.
    pub fn new() -> (r: IndexLocations)
        ensures
            r.is_default(),
    {
        IndexLocations { index: None, extra_index: Vec::new(), flat_index: Vec::new(), no_index: false }
    }
}

/// What the lock is asked to work from.
pub struct LockInput {
    /// The project's own name, if the manifest gives one.
    pub root_project: Option<PackageName>,
    pub index_locations: IndexLocations,
    pub upgrade: Upgrade,
    /// Packages published after this time are left out.
    pub exclude_newer: Option<u64>,
}

/// What the synchronization is asked to work from.
pub struct SyncInput {
    pub index_locations: IndexLocations,
    pub extras: Extras,
    /// Whether development dependencies are installed.
    pub dev: bool,
}

/// How the workflow ended.
pub enum Outcome {
    Success,
    Failure { stage: Stage, cause: Cause },
}

/// How the workflow ended, as mathematical data.
pub ghost enum OutcomeView {
    Success,
    Failure { stage: Stage, cause: CauseView },
}

impl View for Outcome {
    type V = OutcomeView;

    open spec fn view(&self) -> OutcomeView {
        match self {
            Outcome::Success => OutcomeView::Success,
            Outcome::Failure { stage, cause } => OutcomeView::Failure {
                stage: *stage,
                cause: cause@,
            },
        }
    }
}

/// Where the workflow stands between two pieces of outside work.
pub enum State {
    /// The discovery of the project is awaited.
    Start { names: Vec<PackageName> },
    /// The manifest was edited in memory; its writing is awaited.
    EditsApplied { root_project: Option<PackageName> },
    /// The manifest is written; the environment is awaited.
    ManifestPersisted { root_project: Option<PackageName> },
    /// The environment is ready; the lock is awaited.
    EnvironmentReady,
    /// The lock is made; the synchronization is awaited.
    Locked,
    /// All is done.
    Done,
    /// The workflow failed after it had reached `stage`.
    Failed { stage: Stage, cause: Cause },
}

/// A state, as mathematical data.
pub ghost enum StateView {
    Start { names: Seq<Seq<u8>> },
    EditsApplied { root_project: Option<Seq<u8>> },
    ManifestPersisted { root_project: Option<Seq<u8>> },
    EnvironmentReady,
    Locked,
    Done,
    Failed { stage: Stage, cause: CauseView },
}

/// An optional name, as mathematical data.
pub open spec fn optional_name_view(name: Option<PackageName>) -> Option<Seq<u8>> {
    match name {
        Some(name) => Some(name@),
        None => None,
    }
}

impl View for State {
    type V = StateView;

    open spec fn view(&self) -> StateView {
        match self {
            State::Start { names } => StateView::Start { names: names_view(names@) },
            State::EditsApplied { root_project } => StateView::EditsApplied {
                root_project: optional_name_view(*root_project),
            },
            State::ManifestPersisted { root_project } => StateView::ManifestPersisted {
                root_project: optional_name_view(*root_project),
            },
            State::EnvironmentReady => StateView::EnvironmentReady,
            State::Locked => StateView::Locked,
            State::Done => StateView::Done,
            State::Failed { stage, cause } => StateView::Failed { stage: *stage, cause: cause@ },
        }
    }
}

impl StateView {
    /// The stage that the state has reached.
    pub open spec fn stage(self) -> Stage {
        match self {
            StateView::Start { .. } => Stage::Start,
            StateView::EditsApplied { .. } => Stage::EditsApplied,
            StateView::ManifestPersisted { .. } => Stage::ManifestPersisted,
            StateView::EnvironmentReady => Stage::EnvironmentReady,
            StateView::Locked => Stage::Locked,
            StateView::Done => Stage::Done,
            StateView::Failed { stage, .. } => stage,
        }
    }
}

/// How a piece of outside work ended.
pub enum Event {
    /// The project was found; this is the text of its manifest.
    Discovered { manifest: Vec<u8> },
    /// The work that was asked for is done.
    Completed,
    /// The work that was asked for failed.
    Failed,
}

/// An event, as mathematical data.
pub ghost enum EventView {
    Discovered { manifest: Seq<u8> },
    Completed,
    Failed,
}

impl View for Event {
    type V = EventView;

    open spec fn view(&self) -> EventView {
        match self {
            Event::Discovered { manifest } => EventView::Discovered { manifest: manifest@ },
            Event::Completed => EventView::Completed,
            Event::Failed => EventView::Failed,
        }
    }
}

/// What is to be done next.
pub enum Action {
    /// Find the project and read its manifest.
    Discover,
    /// Write this text over the manifest.
    WriteManifest { text: Vec<u8> },
    /// Find or create the environment.
    PrepareEnvironment,
    /// Lock the project.
    Lock(LockInput),
    /// Synchronize the environment with the lock.
    Sync(SyncInput),
    /// Stop, with this outcome.
    Finish(Outcome),
}

/// An action, as mathematical data. The lock and the synchronization are
/// given by what the workflow chooses for them.
pub ghost enum ActionView {
    Discover,
    WriteManifest { text: Seq<u8> },
    PrepareEnvironment,
    Lock {
        root_project: Option<Seq<u8>>,
        default_locations: bool,
        upgrade: Upgrade,
        exclude_newer: Option<u64>,
    },
    Sync { default_locations: bool, extras: Extras, dev: bool },
    Finish(OutcomeView),
}

impl View for Action {
    type V = ActionView;

    open spec fn view(&self) -> ActionView {
        match self {
            Action::Discover => ActionView::Discover,
            Action::WriteManifest { text } => ActionView::WriteManifest { text: text@ },
            Action::PrepareEnvironment => ActionView::PrepareEnvironment,
            Action::Lock(input) => ActionView::Lock {
                root_project: optional_name_view(input.root_project),
                default_locations: input.index_locations.is_default(),
                upgrade: input.upgrade,
                exclude_newer: input.exclude_newer,
            },
            Action::Sync(input) => ActionView::Sync {
                default_locations: input.index_locations.is_default(),
                extras: input.extras,
                dev: input.dev,
            },
            Action::Finish(outcome) => ActionView::Finish(outcome@),
        }
    }
}

/// The failure after `stage` for `cause`: the state, and the action that
/// reports it.
pub open spec fn failure(stage: Stage, cause: CauseView) -> (StateView, ActionView) {
    (
        StateView::Failed { stage, cause },
        ActionView::Finish(OutcomeView::Failure { stage, cause }),
    )
}

/// What follows the discovery of a project with the manifest `manifest`, when
/// `names` are to be removed. A text that is no manifest fails at the start. A
/// name without a dependency at its turn fails once the manifest is loaded.
/// Else the edits are applied and the edited text is to be written.
pub open spec fn after_discovery(manifest: Seq<u8>, names: Seq<Seq<u8>>) -> (
    StateView,
    ActionView,
) {
    match parse_text(manifest) {
        Err(offset) => failure(Stage::Start, CauseView::Parse(offset)),
        Ok(document) => match remove_each(document, names, 0) {
            Err(missing) => failure(
                Stage::ManifestLoaded,
                CauseView::DependencyNotFound(names[missing]),
            ),
            Ok(edited) => (
                StateView::EditsApplied { root_project: document.project_name() },
                ActionView::WriteManifest { text: edited.text() },
            ),
        },
    }
}

/// The lock that a removal asks for: nothing is upgraded, no package is left
/// out for its date, and the default locations are used.
pub open spec fn lock_action(root_project: Option<Seq<u8>>) -> ActionView {
    ActionView::Lock {
        root_project,
        default_locations: true,
        upgrade: Upgrade::Nothing,
        exclude_newer: None,
    }
}

/// The synchronization that a removal asks for: a full one, with every extra
/// and the development dependencies.
pub open spec fn sync_action() -> ActionView {
    ActionView::Sync { default_locations: true, extras: Extras::All, dev: true }
}

/// The state that follows `state` on `event`, and what is to be done next.
pub open spec fn transition(state: StateView, event: EventView) -> (StateView, ActionView) {
    match state {
        StateView::Start { names } => match event {
            EventView::Discovered { manifest } => after_discovery(manifest, names),
            EventView::Failed => failure(Stage::Start, CauseView::ProjectNotFound),
            EventView::Completed => failure(Stage::Start, CauseView::OutOfOrder),
        },
        StateView::EditsApplied { root_project } => match event {
            EventView::Completed => (
                StateView::ManifestPersisted { root_project },
                ActionView::PrepareEnvironment,
            ),
            EventView::Failed => failure(Stage::EditsApplied, CauseView::Persist),
            EventView::Discovered { .. } => failure(Stage::EditsApplied, CauseView::OutOfOrder),
        },
        StateView::ManifestPersisted { root_project } => match event {
            EventView::Completed => (StateView::EnvironmentReady, lock_action(root_project)),
            EventView::Failed => failure(Stage::ManifestPersisted, CauseView::Environment),
            EventView::Discovered { .. } => failure(
                Stage::ManifestPersisted,
                CauseView::OutOfOrder,
            ),
        },
        StateView::EnvironmentReady => match event {
            EventView::Completed => (StateView::Locked, sync_action()),
            EventView::Failed => failure(Stage::EnvironmentReady, CauseView::Lock),
            EventView::Discovered { .. } => failure(Stage::EnvironmentReady, CauseView::OutOfOrder),
        },
        StateView::Locked => match event {
            EventView::Completed => (StateView::Done, ActionView::Finish(OutcomeView::Success)),
            EventView::Failed => failure(Stage::Locked, CauseView::Sync),
            EventView::Discovered { .. } => failure(Stage::Locked, CauseView::OutOfOrder),
        },
        StateView::Done => (StateView::Done, ActionView::Finish(OutcomeView::Success)),
        StateView::Failed { stage, cause } => failure(stage, cause),
    }
}

/// Starts a workflow that is to remove `names`.
pub fn begin(names: Vec<PackageName>) -> (r: (State, Action))
    ensures
        r.0@ == (StateView::Start { names: names_view(names@) }),
        r.1@ == ActionView::Discover,
{
    (State::Start { names }, Action::Discover)
}

/// A failure after `stage` for `cause`.
fn fail(stage: Stage, cause: Cause, again: Cause) -> (r: (State, Action))
    requires
        cause@ == again@,
    ensures
        (r.0@, r.1@) == failure(stage, cause@),
{
    (State::Failed { stage, cause }, Action::Finish(Outcome::Failure { stage, cause: again }))
}

/// Decides what follows the discovery of the project.
fn discovered(manifest: &[u8], names: &[PackageName]) -> (r: (State, Action))
    ensures
        (r.0@, r.1@) == after_discovery(manifest@, names_view(names@)),
{
    let document = match Document::parse(manifest) {
        Ok(document) => document,
        Err(error) => {
            return fail(Stage::Start, Cause::Parse(error), Cause::Parse(error));
        },
    };
    let root_project = document.project_name();
    match document.remove_each(names) {
        Ok(edited) => (State::EditsApplied { root_project }, Action::WriteManifest { text: edited.to_bytes() }),
        Err(missing) => fail(
            Stage::ManifestLoaded,
            Cause::DependencyNotFound(names[missing].duplicate()),
            Cause::DependencyNotFound(names[missing].duplicate()),
        ),
    }
}

/// A copy of a cause.
fn copy_cause(cause: &Cause) -> (r: Cause)
    ensures
        r@ == cause@,
{
    match cause {
        Cause::ProjectNotFound => Cause::ProjectNotFound,
        Cause::Parse(error) => Cause::Parse(*error),
        Cause::DependencyNotFound(name) => Cause::DependencyNotFound(name.duplicate()),
        Cause::Persist => Cause::Persist,
        Cause::Environment => Cause::Environment,
        Cause::Lock => Cause::Lock,
        Cause::Sync => Cause::Sync,
        Cause::OutOfOrder => Cause::OutOfOrder,
    }
}

/// Takes the workflow one step on: from `state`, on `event`, to the state
/// that follows and the action to take.
pub fn advance(state: State, event: Event) -> (r: (State, Action))
    ensures
        (r.0@, r.1@) == transition(state@, event@),
{
    match state {
        State::Start { names } => match event {
            Event::Discovered { manifest } => discovered(manifest.as_slice(), names.as_slice()),
            Event::Failed => fail(Stage::Start, Cause::ProjectNotFound, Cause::ProjectNotFound),
            Event::Completed => fail(Stage::Start, Cause::OutOfOrder, Cause::OutOfOrder),
        },
        State::EditsApplied { root_project } => match event {
            Event::Completed => (State::ManifestPersisted { root_project }, Action::PrepareEnvironment),
            Event::Failed => fail(Stage::EditsApplied, Cause::Persist, Cause::Persist),
            Event::Discovered { .. } => fail(
                Stage::EditsApplied,
                Cause::OutOfOrder,
                Cause::OutOfOrder,
            ),
        },
        State::ManifestPersisted { root_project } => match event {
            Event::Completed => {
                let input = LockInput {
                    root_project,
                    index_locations: IndexLocations::new(),
                    upgrade: Upgrade::Nothing,
                    exclude_newer: None,
                };
                (State::EnvironmentReady, Action::Lock(input))
            },
            Event::Failed => fail(Stage::ManifestPersisted, Cause::Environment, Cause::Environment),
            Event::Discovered { .. } => fail(
                Stage::ManifestPersisted,
                Cause::OutOfOrder,
                Cause::OutOfOrder,
            ),
        },
        State::EnvironmentReady => match event {
            Event::Completed => {
                let input = SyncInput {
                    index_locations: IndexLocations::new(),
                    extras: Extras::All,
                    dev: true,
                };
                (State::Locked, Action::Sync(input))
            },
            Event::Failed => fail(Stage::EnvironmentReady, Cause::Lock, Cause::Lock),
            Event::Discovered { .. } => fail(
                Stage::EnvironmentReady,
                Cause::OutOfOrder,
                Cause::OutOfOrder,
            ),
        },
        State::Locked => match event {
            Event::Completed => (State::Done, Action::Finish(Outcome::Success)),
            Event::Failed => fail(Stage::Locked, Cause::Sync, Cause::Sync),
            Event::Discovered { .. } => fail(Stage::Locked, Cause::OutOfOrder, Cause::OutOfOrder),
        },
        State::Done => (State::Done, Action::Finish(Outcome::Success)),
        State::Failed { stage, cause } => {
            let again = copy_cause(&cause);
            fail(stage, cause, again)
        },
    }
}


/// Whether `text` is due to be written on `event` in `state`: the event is
/// the discovery, `text` is its manifest without the names, and each name had
/// a dependency in the manifest as it was read.
pub open spec fn write_is_due(state: StateView, event: EventView, text: Seq<u8>) -> bool {
    match (state, event) {
        (StateView::Start { names }, EventView::Discovered { manifest }) => {
            match parse_text(manifest) {
                Ok(document) => {
                    &&& edited_text(manifest, names) == Ok::<Seq<u8>, EditErrorView>(text)
                    &&& forall|k: int|
                        0 <= k < names.len() ==> document.asking(#[trigger] names[k]).len() > 0
                },
                Err(_) => false,
            }
        },
        _ => false,
    }
}

/// The manifest is written only when every name was found: an action that
/// writes comes from the discovery alone, and its text is due.
pub proof fn lemma_write_needs_every_name(state: StateView, event: EventView)
    ensures
        match transition(state, event).1 {
            ActionView::WriteManifest { text } => write_is_due(state, event, text),
            _ => true,
        },
{
    match (state, event) {
        (StateView::Start { names }, EventView::Discovered { manifest }) => {
            match parse_text(manifest) {
                Ok(document) => {
                    lemma_request_is_whole(document, names);
                },
                Err(_) => {},
            }
        },
        _ => {},
    }
}

/// What the workflow hands out to be written is a manifest: it can be read
/// again, and is then read as the manifest without the names.
pub proof fn lemma_written_is_a_manifest(state: StateView, event: EventView)
    ensures
        match transition(state, event).1 {
            ActionView::WriteManifest { text } => parse_text(text) is Ok,
            _ => true,
        },
{
    match (state, event) {
        (StateView::Start { names }, EventView::Discovered { manifest }) => {
            lemma_edited_text_reads_back(manifest, names);
        },
        _ => {},
    }
}

/// A name without a dependency in the manifest fails the workflow before
/// anything is written: what follows the discovery is a failure for a name
/// that was not found, and the action reports it.
pub proof fn lemma_missing_name_writes_nothing(
    manifest: Seq<u8>,
    names: Seq<Seq<u8>>,
    missing: int,
)
    requires
        0 <= missing < names.len(),
        parse_text(manifest) matches Ok(document) && document.asking(names[missing]).len() == 0,
    ensures
        exists|at: int|
            0 <= at <= missing && #[trigger] after_discovery(manifest, names) == failure(
                Stage::ManifestLoaded,
                CauseView::DependencyNotFound(names[at]),
            ),
{
    let document = parse_text(manifest)->Ok_0;
    lemma_missing_name_fails(document, names, 0, missing);
    let at = remove_each(document, names, 0)->Err_0;
    assert(after_discovery(manifest, names) == failure(
        Stage::ManifestLoaded,
        CauseView::DependencyNotFound(names[at]),
    ));
}

/// The stages are passed in their order: no step leads back.
pub proof fn lemma_never_back(state: StateView, event: EventView)
    ensures
        transition(state, event).0.stage().rank() >= state.stage().rank(),
{
}

/// Whether `event` is what `state` waits for when its work succeeded.
pub open spec fn awaited(state: StateView, event: EventView) -> bool {
    match state {
        StateView::Start { names } => event matches EventView::Discovered { manifest }
            && edited_text(manifest, names) is Ok,
        StateView::EditsApplied { .. } | StateView::ManifestPersisted { .. }
        | StateView::EnvironmentReady | StateView::Locked => event is Completed,
        StateView::Done | StateView::Failed { .. } => false,
    }
}

/// Each piece of work that succeeds takes the workflow on, and nothing else
/// does: the next state is further along the line, and no failure, exactly
/// when the event is the one awaited.
pub proof fn lemma_success_steps_on(state: StateView, event: EventView)
    ensures
        awaited(state, event) ==> transition(state, event).0.stage().rank()
            > state.stage().rank() && !(transition(state, event).0 is Failed),
        !awaited(state, event) ==> transition(state, event).0 is Failed || transition(
            state,
            event,
        ).0 is Done,
{
}

/// Nothing is taken back: once the edited manifest was handed out to be
/// written, no later step writes the manifest again, whatever fails.
pub proof fn lemma_written_once(state: StateView, event: EventView)
    requires
        state.stage().rank() >= Stage::EditsApplied.rank(),
    ensures
        !(transition(state, event).1 is WriteManifest),
{
}

/// The workflow ends with one outcome: a state that is done or failed stays
/// what it is, and every step from it reports the same outcome.
pub proof fn lemma_outcome_is_final(state: StateView, event: EventView)
    requires
        state is Done || state is Failed,
    ensures
        transition(state, event).0 == state,
        state is Done ==> transition(state, event).1 == ActionView::Finish(OutcomeView::Success),
        state matches StateView::Failed { stage, cause } ==> transition(state, event).1
            == ActionView::Finish(OutcomeView::Failure { stage, cause }),
{
}

} // verus!
