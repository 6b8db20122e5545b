//! A restore as a whole.
//!
//! A restore has three phases: the windows that are open already are moved to their saved
//! places; the others are launched and positioned as they appear; and the tabbed groups are
//! put together. It asks for one thing at a time, and goes on by what came of it.
use vstd::hash_map::StringHashMap;
use vstd::hash_set::StringHashSet;
use vstd::prelude::*;

use super::action::{Action, ActionView};
use super::note::{Note, NoteView};
use super::observe;
use super::observe::{grouped_count, Condition, ConditionView};
use super::plan;
use super::plan::{
    abandon, collect_addresses, decide_group, give_up, launch_missing, place, push_builds, regroup,
    relocate, restore_groups, Step, StepView, LAUNCH_TIMEOUT, POLL_INTERVAL,
};
use super::rebuild::{BuildStep, BuildStepView};
use super::reconcile;
use super::reconcile::match_launched;
use super::task;
use super::task::{group_tasks, GroupTask, GroupTaskView};
use crate::ipc::{HyprActiveWorkspace, HyprClient};
use crate::text;

verus! {

/// How long to wait before a condition is looked at again, in milliseconds.
pub const WAIT_INTERVAL: u64 = 150;

/// The first workspace that groups are put together on. It is far from the workspaces in use,
/// so that groups headed for the same workspace do not merge.
pub const TEMP_WORKSPACE: i32 = 90111;

/// The workspace that is returned to when the active one is not known.
pub const DEFAULT_WORKSPACE: i32 = 1;

/// The most windows that a session can have: with this many, the numbers of the workspaces that
/// groups are put together on still fit.
pub const MAX_WINDOWS: usize = 1073696768;

/// What a restore asks for next.
#[derive(Debug)]
pub enum Request {
    /// Read the open windows.
    Capture,
    /// Read which workspace is active.
    ActiveWorkspace,
    /// Print this.
    Tell(Note),
    /// Show this as a desktop notification.
    Notify(String),
    /// Ask this of the compositor.
    Perform(Action),
    /// Wait for so many milliseconds.
    Pause(u64),
    /// Start the clock anew.
    StartClock,
    /// Read how many milliseconds have passed since the clock was started.
    ReadClock,
    /// Read `group:group_on_movetoworkspace`.
    ReadMerging,
    /// The restore is over: it has succeeded, or failed for this reason.
    Finish(Option<String>),
}

/// A request by the texts in it.
pub enum RequestView {
    Capture,
    ActiveWorkspace,
    Tell(NoteView),
    Notify(Seq<char>),
    Perform(ActionView),
    Pause(nat),
    StartClock,
    ReadClock,
    ReadMerging,
    Finish(Option<Seq<char>>),
}

impl View for Request {
    type V = RequestView;

    open spec fn view(&self) -> RequestView {
        match self {
            Request::Capture => RequestView::Capture,
            Request::ActiveWorkspace => RequestView::ActiveWorkspace,
            Request::Tell(note) => RequestView::Tell(note@),
            Request::Notify(body) => RequestView::Notify(body@),
            Request::Perform(action) => RequestView::Perform(action@),
            Request::Pause(ms) => RequestView::Pause(*ms as nat),
            Request::StartClock => RequestView::StartClock,
            Request::ReadClock => RequestView::ReadClock,
            Request::ReadMerging => RequestView::ReadMerging,
            Request::Finish(reason) => RequestView::Finish(text::opt_text(*reason)),
        }
    }
}

/// What came of a request.
#[derive(Debug)]
pub enum Event {
    /// It is done.
    Done,
    /// It failed, for this reason.
    Failed(String),
    /// These windows are open.
    Windows(Vec<HyprClient>),
    /// This workspace is active.
    Workspace(HyprActiveWorkspace),
    /// So many milliseconds have passed.
    Elapsed(u64),
    /// Merging is on, or off.
    Merging(bool),
}

/// What came of a request, by the texts in it.
pub enum EventView {
    Done,
    Failed(Seq<char>),
    Windows(Seq<HyprClient>),
    Workspace(int),
    Elapsed(nat),
    Merging(bool),
}

impl View for Event {
    type V = EventView;

    open spec fn view(&self) -> EventView {
        match self {
            Event::Done => EventView::Done,
            Event::Failed(reason) => EventView::Failed(reason@),
            Event::Windows(clients) => EventView::Windows(clients@),
            Event::Workspace(active) => EventView::Workspace(active.id as int),
            Event::Elapsed(ms) => EventView::Elapsed(*ms as nat),
            Event::Merging(enabled) => EventView::Merging(*enabled),
        }
    }
}

impl EventView {
    /// The open windows, where they could be read.
    pub open spec fn windows(self) -> Option<Seq<HyprClient>> {
        match self {
            EventView::Windows(clients) => Some(clients),
            _ => None,
        }
    }

    /// The reason of a failure.
    pub open spec fn reason(self) -> Seq<char> {
        match self {
            EventView::Failed(reason) => reason,
            _ => Seq::empty(),
        }
    }

    /// The active workspace, or the default where it is not known.
    pub open spec fn workspace(self) -> int {
        match self {
            EventView::Workspace(id) => id,
            _ => DEFAULT_WORKSPACE as int,
        }
    }

    /// Less time than this has passed.
    pub open spec fn within(self, ms: nat) -> bool {
        self matches EventView::Elapsed(passed) && passed < ms
    }

    /// Merging is known to be on.
    pub open spec fn merging(self) -> bool {
        self == EventView::Merging(true)
    }
}

impl Event {
    /// The open windows, or the reason why they could not be read.
    fn into_windows(self) -> (result: Result<Vec<HyprClient>, String>)
        ensures
            match result {
                Ok(clients) => self@.windows() == Some(clients@),
                Err(reason) => self@.windows() is None && reason@ == self@.reason(),
            },
    {
        match self {
            Event::Windows(clients) => Ok(clients),
            Event::Failed(reason) => Err(reason),
            _ => Err(String::new()),
        }
    }

    /// Whether less time than this has passed.
    fn is_within(&self, ms: u64) -> (yes: bool)
        ensures
            yes == self@.within(ms as nat),
    {
        match self {
            Event::Elapsed(passed) => *passed < ms,
            _ => false,
        }
    }
}

/// What a restore is waiting for.
#[derive(Debug)]
pub enum Awaiting {
    /// The first event.
    Start,
    /// The windows that are open at the start.
    FirstWindows,
    /// The active workspace; these windows are open.
    Home(Vec<HyprClient>),
    /// The end of something that may fail.
    Any,
    /// The outcome of something that must not fail.
    Must,
    /// The outcome of an action for the group that is being put together, and what merging is
    /// switched to by it, if it is.
    Build(Option<bool>),
    /// Whether merging is on, before these groups are put together.
    Merging(Vec<GroupTask>),
    /// The outcome of switching merging on, which was as given before.
    Enabled(Vec<GroupTask>, bool),
    /// The time that launched windows have been waited for.
    PollClock,
    /// The open windows, launched ones among them.
    PollWindows,
    /// The open windows, to decide about a group.
    GroupWindows(GroupTask),
    /// The open windows, to resolve a step.
    StepWindows(BuildStep),
    /// The clock to start, for a wait.
    WaitStart(Condition, u64),
    /// The time that a condition has been waited for.
    WaitClock(Condition, u64),
    /// The open windows, to see whether a condition holds.
    WaitWindows(Condition, u64),
    /// The time to look at a condition again.
    WaitPause(Condition, u64),
    /// Nothing more; this is how it ended.
    Over(Option<String>),
}

/// What a restore is waiting for, by the texts in it.
pub enum AwaitingView {
    Start,
    FirstWindows,
    Home(Seq<HyprClient>),
    Any,
    Must,
    Build(Option<bool>),
    Merging(Seq<GroupTaskView>),
    Enabled(Seq<GroupTaskView>, bool),
    PollClock,
    PollWindows,
    GroupWindows(GroupTaskView),
    StepWindows(BuildStepView),
    WaitStart(ConditionView, nat),
    WaitClock(ConditionView, nat),
    WaitWindows(ConditionView, nat),
    WaitPause(ConditionView, nat),
    Over(Option<Seq<char>>),
}

impl View for Awaiting {
    type V = AwaitingView;

    open spec fn view(&self) -> AwaitingView {
        match self {
            Awaiting::Start => AwaitingView::Start,
            Awaiting::FirstWindows => AwaitingView::FirstWindows,
            Awaiting::Home(clients) => AwaitingView::Home(clients@),
            Awaiting::Any => AwaitingView::Any,
            Awaiting::Must => AwaitingView::Must,
            Awaiting::Build(switch) => AwaitingView::Build(*switch),
            Awaiting::Merging(list) => AwaitingView::Merging(task::tasks(list@)),
            Awaiting::Enabled(list, previous) => AwaitingView::Enabled(
                task::tasks(list@),
                *previous,
            ),
            Awaiting::PollClock => AwaitingView::PollClock,
            Awaiting::PollWindows => AwaitingView::PollWindows,
            Awaiting::GroupWindows(task) => AwaitingView::GroupWindows(task@),
            Awaiting::StepWindows(step) => AwaitingView::StepWindows(step@),
            Awaiting::WaitStart(condition, ms) => AwaitingView::WaitStart(condition@, *ms as nat),
            Awaiting::WaitClock(condition, ms) => AwaitingView::WaitClock(condition@, *ms as nat),
            Awaiting::WaitWindows(condition, ms) => AwaitingView::WaitWindows(
                condition@,
                *ms as nat,
            ),
            Awaiting::WaitPause(condition, ms) => AwaitingView::WaitPause(condition@, *ms as nat),
            Awaiting::Over(reason) => AwaitingView::Over(text::opt_text(*reason)),
        }
    }
}

/// The state of a restore.
pub struct SessionView {
    /// The saved windows.
    pub saved: Seq<HyprClient>,
    /// The steps that are still ahead.
    pub todo: Seq<StepView>,
    /// The saved windows that were launched and have not appeared, by index.
    pub pending: Seq<int>,
    /// The addresses of windows that cannot be launched ones, or are taken for one already.
    pub known: Set<Seq<char>>,
    /// The address that each saved window has now, by its saved address.
    pub moved: Map<Seq<char>, Seq<char>>,
    /// The workspace that the next group is put together on.
    pub temp_ws: int,
    /// The label of the group that is being put together.
    pub building: Seq<char>,
    /// The group that is being put together has switched merging off, and not on again.
    pub apart: bool,
    /// What is waited for.
    pub awaiting: AwaitingView,
}

/// The steps behind those for the group that is being put together.
pub open spec fn after_build(todo: Seq<StepView>) -> Seq<StepView>
    decreases todo.len(),
{
    if todo.len() > 0 && todo[0] is Build {
        after_build(todo.drop_first())
    } else {
        todo
    }
}

/// What a step asks for, and what is awaited then.
pub open spec fn asked_by(step: StepView) -> (AwaitingView, RequestView) {
    match step {
        StepView::Tell(note) => (AwaitingView::Any, RequestView::Tell(note)),
        StepView::Notify(body) => (AwaitingView::Any, RequestView::Notify(body)),
        StepView::Must(action) => (AwaitingView::Must, RequestView::Perform(action)),
        StepView::Try(action) => (AwaitingView::Any, RequestView::Perform(action)),
        StepView::Pause(ms) => (AwaitingView::Any, RequestView::Pause(ms)),
        StepView::StartClock => (AwaitingView::Any, RequestView::StartClock),
        StepView::Poll => (AwaitingView::PollClock, RequestView::ReadClock),
        StepView::Regroup(list) => (AwaitingView::Merging(list), RequestView::ReadMerging),
        StepView::Group(task) => (AwaitingView::GroupWindows(task), RequestView::Capture),
        StepView::Build(step) => match step {
            BuildStepView::Act(action) => (
                AwaitingView::Build(action.switches()),
                RequestView::Perform(action),
            ),
            BuildStepView::Await(condition, ms) => (
                AwaitingView::WaitStart(condition, ms),
                RequestView::StartClock,
            ),
            BuildStepView::Settle(ms) => (AwaitingView::Any, RequestView::Pause(ms)),
            _ => (AwaitingView::StepWindows(step), RequestView::Capture),
        },
    }
}

impl SessionView {
    /// The restore waits for this, and asks for that.
    pub open spec fn ask(self, awaiting: AwaitingView, request: RequestView) -> (
        SessionView,
        RequestView,
    ) {
        (SessionView { awaiting, ..self }, request)
    }

    /// The restore is over.
    pub open spec fn end(self, reason: Option<Seq<char>>) -> (SessionView, RequestView) {
        self.ask(AwaitingView::Over(reason), RequestView::Finish(reason))
    }

    /// These steps come first.
    pub open spec fn first(self, steps: Seq<StepView>) -> SessionView {
        SessionView { todo: steps + self.todo, ..self }
    }

    /// The next step is taken, or the restore is over where there is none.
    pub open spec fn proceed(self) -> (SessionView, RequestView) {
        if self.todo.len() == 0 {
            self.end(None)
        } else {
            let (awaiting, request) = asked_by(self.todo[0]);
            SessionView { todo: self.todo.drop_first(), ..self }.ask(awaiting, request)
        }
    }

    /// The third phase comes next.
    pub open spec fn with_groups(self) -> SessionView {
        self.first(plan::regroup_steps(task::tasks_of(self.saved, self.moved)))
    }

    /// These windows are open at the start, and all that is ahead so far is the return to this
    /// workspace.
    pub open spec fn begun(self, current: Seq<HyprClient>, home: int) -> SessionView {
        let paired = reconcile::pairing(current, self.saved);
        let n = self.saved.len() as int;
        SessionView {
            todo: seq![StepView::Try(ActionView::FocusWorkspace(home))],
            pending: plan::unpaired(paired, n),
            known: plan::address_set(current),
            moved: plan::paired_addresses(current, self.saved, paired, n),
            ..self
        }
    }

    /// The restore is planned: these windows are open, and this workspace is returned to.
    pub open spec fn planned(self, current: Seq<HyprClient>, home: int) -> SessionView {
        let paired = reconcile::pairing(current, self.saved);
        let n = self.saved.len() as int;
        let begun = self.begun(current, home);
        let missing = begun.pending;
        let second = if missing.len() == 0 {
            begun.with_groups().first(seq![StepView::Tell(NoteView::NothingToLaunch)])
        } else {
            begun.first(
                seq![StepView::Tell(NoteView::LaunchingMissing(missing.len()))]
                    + plan::launch_steps(self.saved, missing) + seq![
                    StepView::StartClock,
                    StepView::Poll,
                ],
            )
        };
        second.first(
            seq![StepView::Tell(NoteView::Relocating)] + plan::relocate_steps(
                current,
                self.saved,
                paired,
                n,
            ),
        )
    }

    /// These windows are open now, launched ones among them, which are recorded.
    pub open spec fn seen(self, clients: Seq<HyprClient>) -> SessionView {
        let found = reconcile::sighting(self.saved, clients, self.pending, self.known);
        SessionView {
            pending: found.pending,
            known: found.known,
            moved: plan::placed_addresses(clients, self.saved, found.placed, self.moved),
            ..self
        }
    }

    /// These windows are open now: those that were launched are positioned, and the others
    /// are looked for again, if there are any.
    pub open spec fn sighted(self, clients: Seq<HyprClient>) -> SessionView {
        let found = reconcile::sighting(self.saved, clients, self.pending, self.known);
        let after = self.seen(clients);
        let later = if found.pending.len() == 0 {
            after.with_groups()
        } else {
            after.first(seq![StepView::Pause(POLL_INTERVAL as nat), StepView::Poll])
        };
        later.first(plan::placed_steps(clients, self.saved, found.placed))
    }

    /// The launched windows have been waited for long enough.
    pub open spec fn given_up(self) -> SessionView {
        self.with_groups().first(plan::give_up_steps(self.saved, self.pending))
    }

    /// It is decided what becomes of a group.
    pub open spec fn decided(
        self,
        task: GroupTaskView,
        windows: Option<Seq<HyprClient>>,
    ) -> SessionView {
        let next = if observe::intact_on(windows, task.members) is None {
            SessionView { temp_ws: self.temp_ws + 2, building: task.label, ..self }
        } else {
            self
        };
        next.first(plan::decided_steps(task, windows, self.temp_ws))
    }

    /// The group that is being put together is given up, for this reason. What is left to do for
    /// it is dropped. Where it has left merging off, merging is switched on again for the next
    /// group.
    pub open spec fn abandoned(self, reason: Seq<char>) -> SessionView {
        SessionView { todo: after_build(self.todo), apart: false, ..self }.first(
            plan::abandon_steps(self.building, reason, self.apart),
        )
    }

    /// An action for the group that is being put together is done, and has switched merging, if
    /// it has.
    pub open spec fn switched(self, switch: Option<bool>) -> SessionView {
        match switch {
            Some(enabled) => SessionView { apart: !enabled, ..self },
            None => self,
        }
    }

    /// What a restore does when something has come of its last request.
    #[verifier::opaque]
    pub open spec fn respond(self, event: EventView) -> (SessionView, RequestView) {
        match self.awaiting {
            AwaitingView::Start => self.ask(AwaitingView::FirstWindows, RequestView::Capture),
            AwaitingView::FirstWindows => match event.windows() {
                Some(clients) => self.ask(
                    AwaitingView::Home(clients),
                    RequestView::ActiveWorkspace,
                ),
                None => self.end(Some(event.reason())),
            },
            AwaitingView::Home(clients) => self.planned(clients, event.workspace()).proceed(),
            AwaitingView::Any => self.proceed(),
            AwaitingView::Must => if event is Failed {
                self.end(Some(event.reason()))
            } else {
                self.proceed()
            },
            AwaitingView::Build(switch) => if event is Failed {
                self.abandoned(event.reason()).proceed()
            } else {
                self.switched(switch).proceed()
            },
            AwaitingView::Merging(list) => self.ask(
                AwaitingView::Enabled(list, event.merging()),
                RequestView::Perform(ActionView::SetMerging(true)),
            ),
            AwaitingView::Enabled(list, previous) => if event is Failed {
                self.first(seq![StepView::Tell(NoteView::CannotMerge(event.reason()))]).proceed()
            } else {
                self.first(plan::group_steps(list, previous)).proceed()
            },
            AwaitingView::PollClock => if event.within(LAUNCH_TIMEOUT as nat) {
                self.ask(AwaitingView::PollWindows, RequestView::Capture)
            } else {
                self.given_up().proceed()
            },
            AwaitingView::PollWindows => match event.windows() {
                Some(clients) => self.sighted(clients).proceed(),
                None => self.end(Some(event.reason())),
            },
            AwaitingView::GroupWindows(task) => self.decided(task, event.windows()).proceed(),
            AwaitingView::StepWindows(step) => self.first(
                plan::builds(
                    step.resolved(
                        match step.depends_on() {
                            Some(window) => observe::count_in_group(event.windows(), window),
                            None => 0,
                        },
                    ),
                ),
            ).proceed(),
            AwaitingView::WaitStart(condition, ms) => self.ask(
                AwaitingView::WaitClock(condition, ms),
                RequestView::ReadClock,
            ),
            AwaitingView::WaitClock(condition, ms) => if event.within(ms) {
                self.ask(AwaitingView::WaitWindows(condition, ms), RequestView::Capture)
            } else {
                self.proceed()
            },
            AwaitingView::WaitWindows(condition, ms) => if condition.holds(event.windows()) {
                self.proceed()
            } else {
                self.ask(
                    AwaitingView::WaitPause(condition, ms),
                    RequestView::Pause(WAIT_INTERVAL as nat),
                )
            },
            AwaitingView::WaitPause(condition, ms) => self.ask(
                AwaitingView::WaitClock(condition, ms),
                RequestView::ReadClock,
            ),
            AwaitingView::Over(reason) => self.end(reason),
        }
    }
}

/// The state of a restore before it has begun.
pub open spec fn new_session(saved: Seq<HyprClient>) -> SessionView {
    SessionView {
        saved,
        todo: Seq::empty(),
        pending: Seq::empty(),
        known: Set::empty(),
        moved: Map::empty(),
        temp_ws: TEMP_WORKSPACE as int,
        building: Seq::empty(),
        apart: false,
        awaiting: AwaitingView::Start,
    }
}

/// How many groups a step may still lead to, in a session of `n` windows.
pub open spec fn weight(step: StepView, n: nat) -> nat {
    match step {
        StepView::Poll => n,
        StepView::Regroup(list) => list.len(),
        StepView::Group(_) => 1,
        _ => 0,
    }
}

/// How many groups the steps may still lead to.
pub open spec fn total_weight(todo: Seq<StepView>, n: nat) -> nat
    decreases todo.len(),
{
    if todo.len() == 0 {
        0
    } else {
        weight(todo[0], n) + total_weight(todo.drop_first(), n)
    }
}

/// Each group to put together has at least two windows.
pub open spec fn groups_are_large(todo: Seq<StepView>) -> bool {
    forall|i: int|
        0 <= i < todo.len() ==> ((#[trigger] todo[i]) matches StepView::Group(task)
            ==> task.members.len() >= 2)
}

impl AwaitingView {
    /// How many groups may come of what is awaited.
    pub open spec fn weight(self, n: nat) -> nat {
        match self {
            AwaitingView::Start => n,
            AwaitingView::FirstWindows => n,
            AwaitingView::Home(_) => n,
            AwaitingView::Merging(list) => list.len(),
            AwaitingView::Enabled(list, _) => list.len(),
            AwaitingView::PollClock => n,
            AwaitingView::PollWindows => n,
            AwaitingView::GroupWindows(_) => 1,
            _ => 0,
        }
    }
}

impl SessionView {
    /// The state is valid, when so many groups may come of what is awaited.
    pub open spec fn valid_with(self, extra: nat) -> bool {
        let n = self.saved.len();
        &&& n <= MAX_WINDOWS
        &&& TEMP_WORKSPACE <= self.temp_ws
        &&& self.temp_ws + 2 * (total_weight(self.todo, n) + extra) <= TEMP_WORKSPACE + 2 * n
        &&& groups_are_large(self.todo)
        &&& forall|k: int|
            0 <= k < self.pending.len() ==> 0 <= #[trigger] self.pending[k] < self.saved.len()
    }

    /// The state is valid: there is room for the workspaces that groups are put together on;
    /// each group to put together has at least two windows; and the windows that are looked for
    /// are windows of the session.
    pub open spec fn valid(self) -> bool {
        &&& self.valid_with(self.awaiting.weight(self.saved.len()))
        &&& self.awaiting matches AwaitingView::GroupWindows(task) ==> task.members.len() >= 2
    }
}

/// None of the steps leads to a group.
pub open spec fn light(list: Seq<StepView>) -> bool {
    forall|i: int|
        0 <= i < list.len() ==> !((#[trigger] list[i]) is Poll) && !(list[i] is Regroup) && !(
        list[i] is Group)
}

/// The steps are only told, shown or asked of the compositor.
pub open spec fn is_simple(list: Seq<StepView>) -> bool {
    forall|i: int|
        0 <= i < list.len() ==> (#[trigger] list[i]) is Tell || list[i] is Notify || list[i] is Must
            || list[i] is Try
}

proof fn lemma_weight_append(a: Seq<StepView>, b: Seq<StepView>, n: nat)
    ensures
        total_weight(a + b, n) == total_weight(a, n) + total_weight(b, n),
        groups_are_large(a) && groups_are_large(b) ==> groups_are_large(a + b),
    decreases a.len(),
{
    if a.len() == 0 {
        assert(a + b =~= b);
    } else {
        lemma_weight_append(a.drop_first(), b, n);
        assert((a + b).drop_first() =~= a.drop_first() + b);
    }
    if groups_are_large(a) && groups_are_large(b) {
        assert forall|i: int| 0 <= i < (a + b).len() implies ((
        #[trigger] (a + b)[i]) matches StepView::Group(task) ==> task.members.len() >= 2) by {
            if i < a.len() {
                assert((a + b)[i] == a[i]);
            } else {
                assert((a + b)[i] == b[i - a.len()]);
            }
        }
    }
}

proof fn lemma_light(list: Seq<StepView>, n: nat)
    requires
        light(list),
    ensures
        total_weight(list, n) == 0,
        groups_are_large(list),
    decreases list.len(),
{
    if list.len() > 0 {
        let rest = list.drop_first();
        assert forall|i: int| 0 <= i < rest.len() implies !((#[trigger] rest[i]) is Poll) && !(
        rest[i] is Regroup) && !(rest[i] is Group) by {
            assert(rest[i] == list[i + 1]);
        }
        lemma_light(rest, n);
    }
}

/// Rows of simple steps can be joined.
pub proof fn lemma_simple_append(a: Seq<StepView>, b: Seq<StepView>)
    requires
        is_simple(a),
        is_simple(b),
    ensures
        is_simple(a + b),
{
    assert forall|i: int| 0 <= i < (a + b).len() implies (#[trigger] (a + b)[i]) is Tell || (a
        + b)[i] is Notify || (a + b)[i] is Must || (a + b)[i] is Try by {
        if i < a.len() {
            assert((a + b)[i] == a[i]);
        } else {
            assert((a + b)[i] == b[i - a.len()]);
        }
    }
}

/// Moving open windows takes simple steps.
pub proof fn lemma_relocate_simple(
    current: Seq<HyprClient>,
    saved: Seq<HyprClient>,
    paired: Seq<Option<int>>,
    n: int,
)
    ensures
        is_simple(plan::relocate_steps(current, saved, paired, n)),
    decreases n,
{
    if n > 0 {
        lemma_relocate_simple(current, saved, paired, n - 1);
        match paired[n - 1] {
            Some(j) => {
                lemma_simple_append(
                    plan::relocate_steps(current, saved, paired, n - 1),
                    plan::relocate_one(current[j], saved[n - 1]),
                );
            },
            None => {},
        }
    }
}

/// Launching windows takes simple steps.
pub proof fn lemma_launch_simple(saved: Seq<HyprClient>, missing: Seq<int>)
    ensures
        is_simple(plan::launch_steps(saved, missing)),
    decreases missing.len(),
{
    if missing.len() > 0 {
        lemma_launch_simple(saved, missing.drop_last());
        lemma_simple_append(
            plan::launch_steps(saved, missing.drop_last()),
            plan::launch_one(saved[missing.last()]),
        );
    }
}

/// Positioning windows that have appeared takes simple steps.
pub proof fn lemma_placed_simple(
    clients: Seq<HyprClient>,
    saved: Seq<HyprClient>,
    placed: Seq<(int, int)>,
)
    ensures
        is_simple(plan::placed_steps(clients, saved, placed)),
    decreases placed.len(),
{
    if placed.len() > 0 {
        lemma_placed_simple(clients, saved, placed.drop_last());
        lemma_simple_append(
            plan::placed_steps(clients, saved, placed.drop_last()),
            plan::placed_one(clients[placed.last().0], saved[placed.last().1]),
        );
    }
}

proof fn lemma_unpaired_range(paired: Seq<Option<int>>, n: int)
    ensures
        forall|k: int|
            0 <= k < plan::unpaired(paired, n).len() ==> 0 <= #[trigger] plan::unpaired(paired, n)[k]
                < n,
    decreases n,
{
    if n > 0 {
        lemma_unpaired_range(paired, n - 1);
        let before = plan::unpaired(paired, n - 1);
        assert forall|k: int| 0 <= k < plan::unpaired(paired, n).len() implies 0
            <= #[trigger] plan::unpaired(paired, n)[k] < n by {
            if k < before.len() {
                assert(plan::unpaired(paired, n)[k] == before[k]);
            }
        }
    }
}

proof fn lemma_first_light(s: SessionView, list: Seq<StepView>, extra: nat)
    requires
        s.valid_with(extra),
        light(list),
    ensures
        s.first(list).valid_with(extra),
{
    lemma_light(list, s.saved.len());
    lemma_weight_append(list, s.todo, s.saved.len());
}

proof fn lemma_first_weighed(s: SessionView, list: Seq<StepView>, extra: nat)
    requires
        s.valid_with(extra),
        total_weight(list, s.saved.len()) <= extra,
        groups_are_large(list),
    ensures
        s.first(list).valid_with(0),
{
    lemma_weight_append(list, s.todo, s.saved.len());
}

proof fn lemma_with_groups(s: SessionView)
    requires
        s.valid_with(s.saved.len()),
    ensures
        s.with_groups().valid_with(0),
{
    let n = s.saved.len();
    let list = task::tasks_of(s.saved, s.moved);
    let steps = plan::regroup_steps(list);
    super::groups::lemma_planned_group_len(s.saved, n as int, 0);
    if list.len() > 0 {
        assert(steps.drop_first().drop_first() =~= Seq::<StepView>::empty());
        assert(total_weight(steps.drop_first().drop_first(), n) == 0);
        assert(total_weight(steps.drop_first(), n) == list.len());
    }
    lemma_first_weighed(s, steps, n);
}

proof fn lemma_proceed_valid(s: SessionView)
    requires
        s.valid_with(0),
    ensures
        s.proceed().0.valid(),
{
    if s.todo.len() > 0 {
        let rest = s.todo.drop_first();
        assert forall|i: int| 0 <= i < rest.len() implies ((
        #[trigger] rest[i]) matches StepView::Group(task) ==> task.members.len() >= 2) by {
            assert(rest[i] == s.todo[i + 1]);
        }
        assert(s.todo[0] matches StepView::Group(task) ==> task.members.len() >= 2);
    }
}

proof fn lemma_after_build(todo: Seq<StepView>, n: nat)
    ensures
        total_weight(after_build(todo), n) == total_weight(todo, n),
        groups_are_large(todo) ==> groups_are_large(after_build(todo)),
    decreases todo.len(),
{
    if todo.len() > 0 && todo[0] is Build {
        let rest = todo.drop_first();
        lemma_after_build(rest, n);
        if groups_are_large(todo) {
            assert forall|i: int| 0 <= i < rest.len() implies ((
            #[trigger] rest[i]) matches StepView::Group(task) ==> task.members.len() >= 2) by {
                assert(rest[i] == todo[i + 1]);
            }
        }
    }
}

proof fn lemma_group_steps(list: Seq<GroupTaskView>, previous: bool, n: nat)
    ensures
        total_weight(plan::group_steps(list, previous), n) <= list.len(),
        groups_are_large(plan::group_steps(list, previous)),
    decreases list.len(),
{
    let steps = plan::group_steps(list, previous);
    if list.len() == 0 {
        assert(steps.drop_first() =~= Seq::<StepView>::empty());
        assert(total_weight(steps.drop_first(), n) == 0);
    } else {
        lemma_group_steps(list.drop_first(), previous, n);
        assert(steps.drop_first() =~= plan::group_steps(list.drop_first(), previous));
        assert(steps[0] == plan::group_step(list[0]));
    }
    assert forall|i: int| 0 <= i < steps.len() implies ((
    #[trigger] steps[i]) matches StepView::Group(task) ==> task.members.len() >= 2) by {
        if i < list.len() {
            assert(steps[i] == plan::group_step(list[i]));
        }
    }
}

proof fn lemma_planned_valid(s: SessionView, current: Seq<HyprClient>, home: int)
    requires
        s.valid_with(s.saved.len()),
    ensures
        s.planned(current, home).valid_with(0),
{
    let paired = reconcile::pairing(current, s.saved);
    let n = s.saved.len();
    let begun = s.begun(current, home);
    let missing = begun.pending;
    lemma_unpaired_range(paired, n as int);
    lemma_light(begun.todo, n);
    assert(begun.valid_with(n));
    let head = seq![StepView::Tell(NoteView::Relocating)];
    let relocations = plan::relocate_steps(current, s.saved, paired, n as int);
    lemma_relocate_simple(current, s.saved, paired, n as int);
    lemma_simple_append(head, relocations);
    if missing.len() == 0 {
        lemma_with_groups(begun);
        let second = begun.with_groups().first(seq![StepView::Tell(NoteView::NothingToLaunch)]);
        lemma_first_light(
            begun.with_groups(),
            seq![StepView::Tell(NoteView::NothingToLaunch)],
            0,
        );
        lemma_first_light(second, head + relocations, 0);
    } else {
        let told = seq![StepView::Tell(NoteView::LaunchingMissing(missing.len()))];
        let launches = plan::launch_steps(s.saved, missing);
        let polls = seq![StepView::StartClock, StepView::Poll];
        lemma_launch_simple(s.saved, missing);
        lemma_simple_append(told, launches);
        lemma_light(told + launches, n);
        assert(polls.drop_first().drop_first() =~= Seq::<StepView>::empty());
        assert(total_weight(polls.drop_first().drop_first(), n) == 0);
        assert(total_weight(polls.drop_first(), n) == n);
        assert(groups_are_large(polls));
        lemma_weight_append(told + launches, polls, n);
        let second = begun.first(told + launches + polls);
        lemma_first_weighed(begun, told + launches + polls, n);
        lemma_first_light(second, head + relocations, 0);
    }
}

proof fn lemma_sighted_valid(s: SessionView, clients: Seq<HyprClient>)
    requires
        s.valid_with(s.saved.len()),
    ensures
        s.sighted(clients).valid_with(0),
{
    let n = s.saved.len();
    let found = reconcile::sighting(s.saved, clients, s.pending, s.known);
    let after = s.seen(clients);
    reconcile::law_sighting_is_sound(s.saved, clients, s.pending, s.known);
    assert forall|k: int| 0 <= k < found.pending.len() implies 0 <= #[trigger] found.pending[k]
        < n by {
        assert(found.pending.contains(found.pending[k]));
        assert(s.pending.contains(found.pending[k]));
    }
    assert(after.valid_with(n));
    lemma_placed_simple(clients, s.saved, found.placed);
    if found.pending.len() == 0 {
        lemma_with_groups(after);
        lemma_first_light(
            after.with_groups(),
            plan::placed_steps(clients, s.saved, found.placed),
            0,
        );
    } else {
        let again = seq![StepView::Pause(POLL_INTERVAL as nat), StepView::Poll];
        assert(again.drop_first().drop_first() =~= Seq::<StepView>::empty());
        assert(total_weight(again.drop_first().drop_first(), n) == 0);
        assert(total_weight(again.drop_first(), n) == n);
        assert(groups_are_large(again));
        lemma_first_weighed(after, again, n);
        lemma_first_light(
            after.first(again),
            plan::placed_steps(clients, s.saved, found.placed),
            0,
        );
    }
}

proof fn lemma_decided_valid(
    s: SessionView,
    task: GroupTaskView,
    windows: Option<Seq<HyprClient>>,
)
    requires
        s.valid_with(1),
    ensures
        s.decided(task, windows).valid_with(0),
{
    let list = plan::decided_steps(task, windows, s.temp_ws);
    assert(light(list));
    let next = if observe::intact_on(windows, task.members) is None {
        SessionView { temp_ws: s.temp_ws + 2, building: task.label, ..s }
    } else {
        s
    };
    lemma_first_light(next, list, 0);
}

/// Whatever comes of a request, a valid state is followed by a valid state.
pub proof fn law_state_stays_valid(s: SessionView, event: EventView)
    requires
        s.valid(),
    ensures
        s.respond(event).0.valid(),
        s.respond(event).0.saved == s.saved,
{
    reveal(SessionView::respond);
    let n = s.saved.len();
    match s.awaiting {
        AwaitingView::Home(clients) => {
            lemma_planned_valid(s, clients, event.workspace());
            lemma_proceed_valid(s.planned(clients, event.workspace()));
        },
        AwaitingView::Any => {
            lemma_proceed_valid(s);
        },
        AwaitingView::Must => {
            lemma_proceed_valid(s);
        },
        AwaitingView::Build(switch) => {
            lemma_after_build(s.todo, n);
            let short = SessionView { todo: after_build(s.todo), apart: false, ..s };
            let steps = plan::abandon_steps(s.building, event.reason(), s.apart);
            assert(light(steps));
            lemma_first_light(short, steps, 0);
            lemma_proceed_valid(s.abandoned(event.reason()));
            lemma_proceed_valid(s.switched(switch));
        },
        AwaitingView::Enabled(list, previous) => {
            let told = seq![StepView::Tell(NoteView::CannotMerge(event.reason()))];
            lemma_first_light(s, told, list.len());
            lemma_proceed_valid(s.first(told));
            lemma_group_steps(list, previous, n);
            lemma_first_weighed(s, plan::group_steps(list, previous), list.len());
            lemma_proceed_valid(s.first(plan::group_steps(list, previous)));
        },
        AwaitingView::PollClock => {
            lemma_with_groups(s);
            let list = plan::give_up_steps(s.saved, s.pending);
            assert(light(list));
            lemma_first_light(s.with_groups(), list, 0);
            lemma_proceed_valid(s.given_up());
        },
        AwaitingView::PollWindows => {
            match event.windows() {
                Some(clients) => {
                    lemma_sighted_valid(s, clients);
                    lemma_proceed_valid(s.sighted(clients));
                },
                None => {},
            }
        },
        AwaitingView::GroupWindows(task) => {
            lemma_decided_valid(s, task, event.windows());
            lemma_proceed_valid(s.decided(task, event.windows()));
        },
        AwaitingView::StepWindows(step) => {
            let count = match step.depends_on() {
                Some(window) => observe::count_in_group(event.windows(), window),
                None => 0,
            };
            let list = plan::builds(step.resolved(count));
            assert(light(list));
            lemma_first_light(s, list, 0);
            lemma_proceed_valid(s.first(list));
        },
        AwaitingView::WaitClock(_, _) => {
            lemma_proceed_valid(s);
        },
        AwaitingView::WaitWindows(_, _) => {
            lemma_proceed_valid(s);
        },
        _ => {},
    }
}

/// A restore in progress.
pub struct Session {
    saved: Vec<HyprClient>,
    todo: Vec<Step>,
    pending: Vec<usize>,
    known: StringHashSet,
    moved: StringHashMap<String>,
    temp_ws: i32,
    building: String,
    apart: bool,
    awaiting: Awaiting,
}

impl View for Session {
    type V = SessionView;

    closed spec fn view(&self) -> SessionView {
        SessionView {
            saved: self.saved@,
            todo: plan::steps(self.todo@),
            pending: reconcile::indices(self.pending@),
            known: self.known@,
            moved: task::addresses(self.moved@),
            temp_ws: self.temp_ws as int,
            building: self.building@,
            apart: self.apart,
            awaiting: self.awaiting@,
        }
    }
}

/// Begins to restore a session with these windows.
pub fn restore_session(saved: Vec<HyprClient>) -> (session: Session)
    requires
        saved@.len() <= MAX_WINDOWS,
    ensures
        session@ == new_session(saved@),
        session@.valid(),
{
    let session = Session {
        saved,
        todo: Vec::new(),
        pending: Vec::new(),
        known: StringHashSet::new(),
        moved: StringHashMap::new(),
        temp_ws: TEMP_WORKSPACE,
        building: String::new(),
        apart: false,
        awaiting: Awaiting::Start,
    };
    proof {
        assert(plan::steps(session.todo@) =~= Seq::<StepView>::empty());
        assert(reconcile::indices(session.pending@) =~= Seq::<int>::empty());
        assert(task::addresses(session.moved@) =~= Map::<Seq<char>, Seq<char>>::empty());
    }
    session
}

impl Session {
    fn end(&mut self, reason: Option<String>) -> (request: Request)
        ensures
            (final(self)@, request@) == old(self)@.end(text::opt_text(reason)),
    {
        let copy = match &reason {
            Some(reason) => Some(reason.clone()),
            None => None,
        };
        self.awaiting = Awaiting::Over(reason);
        Request::Finish(copy)
    }

    fn first(&mut self, list: Vec<Step>)
        ensures
            final(self)@ == old(self)@.first(plan::steps(list@)),
    {
        let mut list = list;
        let ghost added = plan::steps(list@);
        let ghost before = plan::steps(self.todo@);
        list.append(&mut self.todo);
        self.todo = list;
        proof {
            assert(plan::steps(self.todo@) =~= added + before);
        }
    }

    fn proceed(&mut self) -> (request: Request)
        ensures
            (final(self)@, request@) == old(self)@.proceed(),
    {
        if self.todo.len() == 0 {
            return self.end(None);
        }
        let ghost before = plan::steps(self.todo@);
        let step = self.todo.remove(0);
        proof {
            assert(before[0] == step@);
            assert(plan::steps(self.todo@) =~= before.drop_first());
        }
        match step {
            Step::Tell(note) => {
                self.awaiting = Awaiting::Any;
                Request::Tell(note)
            },
            Step::Notify(body) => {
                self.awaiting = Awaiting::Any;
                Request::Notify(body)
            },
            Step::Must(action) => {
                self.awaiting = Awaiting::Must;
                Request::Perform(action)
            },
            Step::Try(action) => {
                self.awaiting = Awaiting::Any;
                Request::Perform(action)
            },
            Step::Pause(ms) => {
                self.awaiting = Awaiting::Any;
                Request::Pause(ms)
            },
            Step::StartClock => {
                self.awaiting = Awaiting::Any;
                Request::StartClock
            },
            Step::Poll => {
                self.awaiting = Awaiting::PollClock;
                Request::ReadClock
            },
            Step::Regroup(list) => {
                self.awaiting = Awaiting::Merging(list);
                Request::ReadMerging
            },
            Step::Group(task) => {
                self.awaiting = Awaiting::GroupWindows(task);
                Request::Capture
            },
            Step::Build(step) => match step {
                BuildStep::Act(action) => {
                    self.awaiting = Awaiting::Build(action.switches());
                    Request::Perform(action)
                },
                BuildStep::Await(condition, ms) => {
                    self.awaiting = Awaiting::WaitStart(condition, ms);
                    Request::StartClock
                },
                BuildStep::Settle(ms) => {
                    self.awaiting = Awaiting::Any;
                    Request::Pause(ms)
                },
                other => {
                    self.awaiting = Awaiting::StepWindows(other);
                    Request::Capture
                },
            },
        }
    }

    fn with_groups(&mut self)
        ensures
            final(self)@ == old(self)@.with_groups(),
    {
        let list = group_tasks(self.saved.as_slice(), &self.moved);
        self.first(regroup(list));
    }

    fn plan_restore(&mut self, current: Vec<HyprClient>, home: i32)
        ensures
            final(self)@ == old(self)@.planned(current@, home as int),
    {
        let relocation = relocate(current.as_slice(), self.saved.as_slice());
        let ghost paired = reconcile::pairing(current@, self.saved@);
        proof {
            lemma_unpaired_range(paired, self.saved@.len() as int);
            assert forall|k: int| 0 <= k < relocation.missing@.len() implies
                #[trigger] relocation.missing@[k] < self.saved@.len() by {
                assert(reconcile::indices(relocation.missing@)[k] == relocation.missing@[k]);
            }
        }
        self.known = collect_addresses(current.as_slice());
        self.moved = relocation.moved;
        self.pending = relocation.missing;
        self.todo = Vec::new();
        self.todo.push(Step::Try(Action::FocusWorkspace(home)));
        proof {
            assert(plan::steps(self.todo@) =~= seq![
                StepView::Try(ActionView::FocusWorkspace(home as int)),
            ]);
            assert(reconcile::indices(self.pending@).len() == self.pending@.len());
        }
        let mut list: Vec<Step> = Vec::new();
        if self.pending.len() == 0 {
            self.with_groups();
            list.push(Step::Tell(Note::NothingToLaunch));
            proof {
                assert(plan::steps(list@) =~= seq![StepView::Tell(NoteView::NothingToLaunch)]);
            }
        } else {
            list.push(Step::Tell(Note::LaunchingMissing(self.pending.len())));
            let ghost told = seq![
                StepView::Tell(NoteView::LaunchingMissing(self.pending@.len())),
            ];
            proof {
                assert(plan::steps(list@) =~= told);
            }
            launch_missing(self.saved.as_slice(), &self.pending, &mut list);
            let ghost launched = plan::steps(list@);
            list.push(Step::StartClock);
            list.push(Step::Poll);
            proof {
                assert(plan::steps(list@) =~= launched + seq![
                    StepView::StartClock,
                    StepView::Poll,
                ]);
            }
        }
        self.first(list);
        let mut head: Vec<Step> = Vec::new();
        head.push(Step::Tell(Note::Relocating));
        let mut moves = relocation.steps;
        let ghost relocations = plan::steps(moves@);
        head.append(&mut moves);
        proof {
            assert(plan::steps(head@) =~= seq![StepView::Tell(NoteView::Relocating)]
                + relocations);
        }
        self.first(head);
    }

    fn position_launched(&mut self, clients: Vec<HyprClient>)
        requires
            old(self)@.valid_with(old(self)@.saved.len()),
        ensures
            final(self)@ == old(self)@.sighted(clients@),
    {
        proof {
            assert forall|k: int| 0 <= k < self.pending@.len() implies #[trigger] self.pending@[k]
                < self.saved@.len() by {
                assert(self@.pending[k] == self.pending@[k]);
            }
        }
        let placed = match_launched(
            self.saved.as_slice(),
            clients.as_slice(),
            &mut self.pending,
            &mut self.known,
        );
        let list = place(
            clients.as_slice(),
            self.saved.as_slice(),
            &placed,
            &mut self.moved,
        );
        proof {
            assert(reconcile::indices(self.pending@).len() == self.pending@.len());
        }
        if self.pending.len() == 0 {
            self.with_groups();
        } else {
            let mut again: Vec<Step> = Vec::new();
            again.push(Step::Pause(POLL_INTERVAL));
            again.push(Step::Poll);
            proof {
                assert(plan::steps(again@) =~= seq![
                    StepView::Pause(POLL_INTERVAL as nat),
                    StepView::Poll,
                ]);
            }
            self.first(again);
        }
        self.first(list);
    }

    fn give_up_waiting(&mut self)
        requires
            old(self)@.valid_with(old(self)@.saved.len()),
        ensures
            final(self)@ == old(self)@.given_up(),
    {
        proof {
            assert forall|k: int| 0 <= k < self.pending@.len() implies #[trigger] self.pending@[k]
                < self.saved@.len() by {
                assert(self@.pending[k] == self.pending@[k]);
            }
        }
        let list = give_up(self.saved.as_slice(), &self.pending);
        self.with_groups();
        self.first(list);
    }

    fn decide(&mut self, task: GroupTask, windows: Option<&Vec<HyprClient>>)
        requires
            old(self)@.valid_with(1),
            task@.members.len() >= 2,
        ensures
            final(self)@ == old(self)@.decided(task@, observe::read_windows(windows)),
    {
        proof {
            assert(task@.members.len() == task.members@.len());
        }
        let (list, anew) = decide_group(&task, windows, self.temp_ws);
        if anew {
            self.temp_ws = self.temp_ws + 2;
            self.building = task.label;
        }
        self.first(list);
    }

    fn abandon_group(&mut self, reason: String)
        ensures
            final(self)@ == old(self)@.abandoned(reason@),
    {
        let ghost start = plan::steps(self.todo@);
        let ghost begun = self@;
        while self.todo.len() > 0 && is_build(&self.todo[0])
            invariant
                after_build(plan::steps(self.todo@)) == after_build(start),
                self@ == (SessionView { todo: plan::steps(self.todo@), ..begun }),
            decreases self.todo@.len(),
        {
            let ghost before = plan::steps(self.todo@);
            self.todo.remove(0);
            proof {
                assert(plan::steps(self.todo@) =~= before.drop_first());
            }
        }
        proof {
            if self.todo@.len() > 0 {
                assert(plan::steps(self.todo@)[0] == self.todo@[0]@);
            }
            assert(plan::steps(self.todo@).len() == self.todo@.len());
        }
        let list = abandon(self.building.clone(), reason, self.apart);
        self.apart = false;
        self.first(list);
    }

    /// Goes on, now that this has come of the last request, and asks for the next thing.
    pub fn step(&mut self, event: Event) -> (request: Request)
        requires
            old(self)@.valid(),
        ensures
            (final(self)@, request@) == old(self)@.respond(event@),
            final(self)@.valid(),
    {
        let ghost start = self@;
        proof {
            law_state_stays_valid(start, event@);
            reveal(SessionView::respond);
        }
        let mut awaiting = Awaiting::Any;
        std::mem::swap(&mut awaiting, &mut self.awaiting);
        match awaiting {
            Awaiting::Start => {
                self.awaiting = Awaiting::FirstWindows;
                Request::Capture
            },
            Awaiting::FirstWindows => match event.into_windows() {
                Ok(clients) => {
                    self.awaiting = Awaiting::Home(clients);
                    Request::ActiveWorkspace
                },
                Err(reason) => self.end(Some(reason)),
            },
            Awaiting::Home(clients) => {
                let home: i32 = match event {
                    Event::Workspace(active) => active.id,
                    _ => DEFAULT_WORKSPACE,
                };
                self.plan_restore(clients, home);
                self.proceed()
            },
            Awaiting::Any => self.proceed(),
            Awaiting::Must => match event {
                Event::Failed(reason) => self.end(Some(reason)),
                _ => self.proceed(),
            },
            Awaiting::Build(switch) => match event {
                Event::Failed(reason) => {
                    self.abandon_group(reason);
                    self.proceed()
                },
                _ => {
                    match switch {
                        Some(enabled) => {
                            self.apart = !enabled;
                        },
                        None => {},
                    }
                    self.proceed()
                },
            },
            Awaiting::Merging(list) => {
                let previous = match event {
                    Event::Merging(enabled) => enabled,
                    _ => false,
                };
                self.awaiting = Awaiting::Enabled(list, previous);
                Request::Perform(Action::SetMerging(true))
            },
            Awaiting::Enabled(list, previous) => match event {
                Event::Failed(reason) => {
                    let mut told: Vec<Step> = Vec::new();
                    told.push(Step::Tell(Note::CannotMerge(reason)));
                    proof {
                        assert(plan::steps(told@) =~= seq![
                            StepView::Tell(NoteView::CannotMerge(event@.reason())),
                        ]);
                    }
                    self.first(told);
                    self.proceed()
                },
                _ => {
                    self.first(restore_groups(list, previous));
                    self.proceed()
                },
            },
            Awaiting::PollClock => {
                if event.is_within(LAUNCH_TIMEOUT) {
                    self.awaiting = Awaiting::PollWindows;
                    Request::Capture
                } else {
                    self.give_up_waiting();
                    self.proceed()
                }
            },
            Awaiting::PollWindows => match event.into_windows() {
                Ok(clients) => {
                    self.position_launched(clients);
                    self.proceed()
                },
                Err(reason) => self.end(Some(reason)),
            },
            Awaiting::GroupWindows(task) => {
                match event {
                    Event::Windows(clients) => {
                        self.decide(task, Some(&clients));
                    },
                    _ => {
                        self.decide(task, None);
                    },
                }
                self.proceed()
            },
            Awaiting::StepWindows(step) => {
                let mut list: Vec<Step> = Vec::new();
                let count: usize = match event {
                    Event::Windows(clients) => step.count(Some(&clients)),
                    _ => step.count(None),
                };
                push_builds(&mut list, step.resolve(count));
                proof {
                    assert(plan::steps(list@) =~= plan::builds(step@.resolved(count as nat)));
                }
                self.first(list);
                self.proceed()
            },
            Awaiting::WaitStart(condition, ms) => {
                self.awaiting = Awaiting::WaitClock(condition, ms);
                Request::ReadClock
            },
            Awaiting::WaitClock(condition, ms) => {
                if event.is_within(ms) {
                    self.awaiting = Awaiting::WaitWindows(condition, ms);
                    Request::Capture
                } else {
                    self.proceed()
                }
            },
            Awaiting::WaitWindows(condition, ms) => {
                let met = match event {
                    Event::Windows(clients) => condition.holds(Some(&clients)),
                    _ => condition.holds(None),
                };
                if met {
                    self.proceed()
                } else {
                    self.awaiting = Awaiting::WaitPause(condition, ms);
                    Request::Pause(WAIT_INTERVAL)
                }
            },
            Awaiting::WaitPause(condition, ms) => {
                self.awaiting = Awaiting::WaitClock(condition, ms);
                Request::ReadClock
            },
            Awaiting::Over(reason) => self.end(reason),
        }
    }
}

fn is_build(step: &Step) -> (yes: bool)
    ensures
        yes == (step@ is Build),
{
    match step {
        Step::Build(_) => true,
        _ => false,
    }
}

impl BuildStep {
    /// The number of windows in the group that the step depends on.
    pub fn count(&self, windows: Option<&Vec<HyprClient>>) -> (count: usize)
        ensures
            count == match self@.depends_on() {
                Some(window) => observe::count_in_group(observe::read_windows(windows), window),
                None => 0,
            },
    {
        match self {
            BuildStep::Dissolve(window) => grouped_count(windows, window.as_str()),
            BuildStep::StartGroup(window) => grouped_count(windows, window.as_str()),
            BuildStep::Join(_, lead, _) => grouped_count(windows, lead.as_str()),
            _ => 0,
        }
    }
}

} // verus!
