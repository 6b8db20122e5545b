//! What a restore does at each turn, by what it was waiting for and what came.
use vstd::prelude::*;

use super::action::{Action, ActionView};
use super::note::{Note, NoteView};
use super::observe;
use super::observe::ConditionView;
use super::plan;
use super::plan::StepView;
use super::rebuild::BuildStepView;
use super::reconcile;
use super::session;
use super::session::{
    AwaitingView, Event, EventView, Request, RequestView, SessionView, DEFAULT_WORKSPACE,
    MAX_WINDOWS, TEMP_WORKSPACE, WAIT_INTERVAL,
};
use super::task;
use super::task::GroupTaskView;
use crate::ipc::{HyprActiveWorkspace, HyprClient};

verus! {

/// How often a condition is looked at, which workspaces are used, and that the largest session is
/// the largest for which two workspaces for each window can be numbered.
pub proof fn law_session_numbers()
    ensures
        WAIT_INTERVAL == 150,
        TEMP_WORKSPACE == 90111,
        DEFAULT_WORKSPACE == 1,
        TEMP_WORKSPACE + 2 * MAX_WINDOWS <= i32::MAX,
        TEMP_WORKSPACE + 2 * (MAX_WINDOWS + 1) > i32::MAX,
{
}

/// A request shows what is in it as it is.
pub proof fn law_requests_are_shown(note: Note, text: String, action: Action, ms: u64)
    ensures
        Request::Capture@ == RequestView::Capture,
        Request::ActiveWorkspace@ == RequestView::ActiveWorkspace,
        Request::Tell(note)@ == RequestView::Tell(note@),
        Request::Notify(text)@ == RequestView::Notify(text@),
        Request::Perform(action)@ == RequestView::Perform(action@),
        Request::Pause(ms)@ == RequestView::Pause(ms as nat),
        Request::StartClock@ == RequestView::StartClock,
        Request::ReadClock@ == RequestView::ReadClock,
        Request::ReadMerging@ == RequestView::ReadMerging,
        Request::Finish(None)@ == RequestView::Finish(None),
        Request::Finish(Some(text))@ == RequestView::Finish(Some(text@)),
{
}

/// An event shows what is in it as it is.
pub proof fn law_events_are_shown(
    reason: String,
    clients: Vec<HyprClient>,
    active: HyprActiveWorkspace,
    ms: u64,
    enabled: bool,
)
    ensures
        Event::Done@ == EventView::Done,
        Event::Failed(reason)@ == EventView::Failed(reason@),
        Event::Windows(clients)@ == EventView::Windows(clients@),
        Event::Workspace(active)@ == EventView::Workspace(active.id as int),
        Event::Elapsed(ms)@ == EventView::Elapsed(ms as nat),
        Event::Merging(enabled)@ == EventView::Merging(enabled),
{
}

/// What an event says: windows only where it brings some, a reason only where something failed,
/// and that time is left or that merging is on only where it says so. A workspace is the default
/// one where it names none.
pub proof fn law_what_events_say(event: EventView, ms: nat)
    ensures
        match event {
            EventView::Windows(clients) => event.windows() == Some(clients),
            _ => event.windows() is None,
        },
        match event {
            EventView::Failed(reason) => event.reason() == reason,
            _ => event.reason().len() == 0,
        },
        match event {
            EventView::Workspace(id) => event.workspace() == id,
            _ => event.workspace() == 1,
        },
        match event {
            EventView::Elapsed(passed) => event.within(ms) <==> passed < ms,
            _ => !event.within(ms),
        },
        match event {
            EventView::Merging(enabled) => event.merging() == enabled,
            _ => !event.merging(),
        },
{
}

/// A restore begins with nothing done and nothing known but the saved windows.
pub proof fn law_restore_begins_with_nothing(saved: Seq<HyprClient>)
    ensures
        ({
            let s = session::new_session(saved);
            &&& s.saved == saved
            &&& s.todo.len() == 0
            &&& s.pending.len() == 0
            &&& s.known == Set::<Seq<char>>::empty()
            &&& s.moved == Map::<Seq<char>, Seq<char>>::empty()
            &&& s.temp_ws == 90111
            &&& s.building.len() == 0
            &&& !s.apart
            &&& s.awaiting == AwaitingView::Start
        }),
{
}

/// The request that a step makes, and what is awaited then.
pub proof fn law_what_steps_ask_for(
    note: NoteView,
    body: Seq<char>,
    action: ActionView,
    condition: ConditionView,
    ms: nat,
    list: Seq<GroupTaskView>,
    task: GroupTaskView,
    build: BuildStepView,
)
    ensures
        session::asked_by(StepView::Tell(note)) == (AwaitingView::Any, RequestView::Tell(note)),
        session::asked_by(StepView::Notify(body)) == (AwaitingView::Any, RequestView::Notify(body)),
        session::asked_by(StepView::Must(action)) == (
            AwaitingView::Must,
            RequestView::Perform(action),
        ),
        session::asked_by(StepView::Try(action)) == (
            AwaitingView::Any,
            RequestView::Perform(action),
        ),
        session::asked_by(StepView::Pause(ms)) == (AwaitingView::Any, RequestView::Pause(ms)),
        session::asked_by(StepView::StartClock) == (AwaitingView::Any, RequestView::StartClock),
        session::asked_by(StepView::Poll) == (AwaitingView::PollClock, RequestView::ReadClock),
        session::asked_by(StepView::Regroup(list)) == (
            AwaitingView::Merging(list),
            RequestView::ReadMerging,
        ),
        session::asked_by(StepView::Group(task)) == (
            AwaitingView::GroupWindows(task),
            RequestView::Capture,
        ),
        session::asked_by(StepView::Build(BuildStepView::Act(action))) == (
            AwaitingView::Build(action.switches()),
            RequestView::Perform(action),
        ),
        session::asked_by(StepView::Build(BuildStepView::Await(condition, ms))) == (
            AwaitingView::WaitStart(condition, ms),
            RequestView::StartClock,
        ),
        session::asked_by(StepView::Build(BuildStepView::Settle(ms))) == (
            AwaitingView::Any,
            RequestView::Pause(ms),
        ),
        build is Dissolve || build is StartGroup || build is Join ==> session::asked_by(
            StepView::Build(build),
        ) == (AwaitingView::StepWindows(build), RequestView::Capture),
{
}

/// A restore that goes on takes the step that is next, and changes nothing else. Where no step is
/// left it has succeeded.
pub proof fn law_next_step_is_taken(s: SessionView)
    ensures
        s.todo.len() == 0 ==> s.proceed() == (
            SessionView { awaiting: AwaitingView::Over(None), ..s },
            RequestView::Finish(None),
        ),
        s.todo.len() > 0 ==> s.proceed() == (
            SessionView {
                awaiting: session::asked_by(s.todo[0]).0,
                todo: s.todo.drop_first(),
                ..s
            },
            session::asked_by(s.todo[0]).1,
        ),
{
}

/// What is behind the steps for a group: a part of the steps, before which all are for the group,
/// and whose first is not.
pub proof fn law_steps_behind_a_group(todo: Seq<StepView>) -> (k: int)
    ensures
        0 <= k <= todo.len(),
        session::after_build(todo) == todo.skip(k),
        forall|i: int| 0 <= i < k ==> (#[trigger] todo[i]) is Build,
        k < todo.len() ==> !(todo[k] is Build),
    decreases todo.len(),
{
    if todo.len() > 0 && todo[0] is Build {
        let rest = todo.drop_first();
        let k = law_steps_behind_a_group(rest);
        assert(rest.skip(k) =~= todo.skip(k + 1));
        assert forall|i: int| 0 <= i < k + 1 implies (#[trigger] todo[i]) is Build by {
            if i > 0 {
                assert(rest[i - 1] == todo[i]);
            }
        }
        k + 1
    } else {
        assert(todo.skip(0) =~= todo);
        0
    }
}

/// A restore first reads the open windows, and then the active workspace. It fails where the
/// windows cannot be read, for the reason given.
pub proof fn law_first_turns(
    s: SessionView,
    event: EventView,
    clients: Seq<HyprClient>,
    reason: Seq<char>,
)
    ensures
        s.awaiting is Start ==> s.respond(event) == (
            SessionView { awaiting: AwaitingView::FirstWindows, ..s },
            RequestView::Capture,
        ),
        s.awaiting is FirstWindows ==> s.respond(EventView::Windows(clients)) == (
            SessionView { awaiting: AwaitingView::Home(clients), ..s },
            RequestView::ActiveWorkspace,
        ),
        s.awaiting is FirstWindows ==> s.respond(EventView::Failed(reason)) == (
            SessionView { awaiting: AwaitingView::Over(Some(reason)), ..s },
            RequestView::Finish(Some(reason)),
        ),
        s.awaiting is FirstWindows && !(event is Windows) ==> s.respond(event) == (
            SessionView { awaiting: AwaitingView::Over(Some(event.reason())), ..s },
            RequestView::Finish(Some(event.reason())),
        ),
{
    reveal(SessionView::respond);
}

/// The plan of a restore: the first phase; then the launch of the missing windows and a look for
/// them, or, where none is missing, the third phase; and in the end the return to the workspace
/// that was active, or to the first one where that is not known.
pub proof fn law_restore_is_planned(
    s: SessionView,
    clients: Seq<HyprClient>,
    home: int,
    event: EventView,
)
    requires
        s.awaiting == AwaitingView::Home(clients),
        event == EventView::Workspace(home) || (!(event is Workspace) && home == 1),
    ensures
        ({
            let paired = reconcile::pairing(clients, s.saved);
            let n = s.saved.len() as int;
            let missing = plan::unpaired(paired, n);
            let moved = plan::paired_addresses(clients, s.saved, paired, n);
            let first = seq![StepView::Tell(NoteView::Relocating)] + plan::relocate_steps(
                clients,
                s.saved,
                paired,
                n,
            );
            let launches = seq![StepView::Tell(NoteView::LaunchingMissing(missing.len()))]
                + plan::launch_steps(s.saved, missing) + seq![StepView::StartClock, StepView::Poll];
            let nothing = seq![StepView::Tell(NoteView::NothingToLaunch)];
            let third = plan::regroup_steps(task::tasks_of(s.saved, moved));
            let last = seq![StepView::Try(ActionView::FocusWorkspace(home))];
            let planned = SessionView {
                pending: missing,
                known: plan::address_set(clients),
                moved,
                ..s
            };
            &&& missing.len() > 0 ==> s.respond(event) == (SessionView {
                todo: first + launches + last,
                ..planned
            }).proceed()
            &&& missing.len() == 0 ==> s.respond(event) == (SessionView {
                todo: first + nothing + third + last,
                ..planned
            }).proceed()
        }),
{
    reveal(SessionView::respond);
    let paired = reconcile::pairing(clients, s.saved);
    let n = s.saved.len() as int;
    let missing = plan::unpaired(paired, n);
    let moved = plan::paired_addresses(clients, s.saved, paired, n);
    let first = seq![StepView::Tell(NoteView::Relocating)] + plan::relocate_steps(
        clients,
        s.saved,
        paired,
        n,
    );
    let launches = seq![StepView::Tell(NoteView::LaunchingMissing(missing.len()))]
        + plan::launch_steps(s.saved, missing) + seq![StepView::StartClock, StepView::Poll];
    let nothing = seq![StepView::Tell(NoteView::NothingToLaunch)];
    let third = plan::regroup_steps(task::tasks_of(s.saved, moved));
    let last = seq![StepView::Try(ActionView::FocusWorkspace(home))];
    assert(event.workspace() == home);
    if missing.len() == 0 {
        assert(first + (nothing + (third + last)) =~= first + nothing + third + last);
    } else {
        assert(first + (launches + last) =~= first + launches + last);
    }
}

/// What may fail is left behind whatever came of it. What must succeed ends the restore where it
/// failed, for the reason given.
pub proof fn law_outcomes(s: SessionView, event: EventView, reason: Seq<char>)
    ensures
        s.awaiting is Any ==> s.respond(event) == s.proceed(),
        s.awaiting is Must ==> s.respond(EventView::Failed(reason)) == (
            SessionView { awaiting: AwaitingView::Over(Some(reason)), ..s },
            RequestView::Finish(Some(reason)),
        ),
        s.awaiting is Must && !(event is Failed) ==> s.respond(event) == s.proceed(),
{
    reveal(SessionView::respond);
}

/// An action for a group that failed has the group given up, with a warning that names it and the
/// reason, and with merging switched on again where the group had switched it off. One that did
/// not fail is recorded where it has switched merging.
pub proof fn law_outcomes_for_a_group(
    s: SessionView,
    event: EventView,
    reason: Seq<char>,
    enabled: bool,
)
    requires
        s.awaiting is Build,
    ensures
        s.respond(EventView::Failed(reason)) == (SessionView {
            todo: plan::abandon_steps(s.building, reason, s.apart) + session::after_build(s.todo),
            apart: false,
            ..s
        }).proceed(),
        !(event is Failed) && s.awaiting == AwaitingView::Build(Some(enabled)) ==> s.respond(event)
            == (SessionView { apart: !enabled, ..s }).proceed(),
        !(event is Failed) && s.awaiting == AwaitingView::Build(None) ==> s.respond(event)
            == s.proceed(),
{
    reveal(SessionView::respond);
}

/// Before groups are put together merging is switched on, and what it was is remembered. Where it
/// cannot be switched on there is a warning with the reason, and no group is touched; otherwise
/// the groups come next.
pub proof fn law_merging_turns(
    s: SessionView,
    event: EventView,
    list: Seq<GroupTaskView>,
    previous: bool,
    reason: Seq<char>,
)
    ensures
        s.awaiting == AwaitingView::Merging(list) ==> s.respond(event) == (
            SessionView {
                awaiting: AwaitingView::Enabled(list, event == EventView::Merging(true)),
                ..s
            },
            RequestView::Perform(ActionView::SetMerging(true)),
        ),
        s.awaiting == AwaitingView::Enabled(list, previous) ==> s.respond(EventView::Failed(reason))
            == (
            SessionView { awaiting: AwaitingView::Any, ..s },
            RequestView::Tell(NoteView::CannotMerge(reason)),
        ),
        s.awaiting == AwaitingView::Enabled(list, previous) && !(event is Failed) ==> s.respond(
            event,
        ) == (SessionView { todo: plan::group_steps(list, previous) + s.todo, ..s }).proceed(),
{
    reveal(SessionView::respond);
    let told = seq![StepView::Tell(NoteView::CannotMerge(reason))];
    assert((told + s.todo).drop_first() =~= s.todo);
    assert((told + s.todo)[0] == told[0]);
}

/// Launched windows are looked for until the time is up. Then each that has not appeared is warned
/// about, and the third phase comes next.
pub proof fn law_looking_for_launched_windows(s: SessionView, event: EventView, passed: nat)
    requires
        s.awaiting is PollClock,
    ensures
        passed < 15000 ==> s.respond(EventView::Elapsed(passed)) == (
            SessionView { awaiting: AwaitingView::PollWindows, ..s },
            RequestView::Capture,
        ),
        (event == EventView::Elapsed(passed) && passed >= 15000) || !(event is Elapsed)
            ==> s.respond(event) == (SessionView {
            todo: plan::give_up_steps(s.saved, s.pending) + plan::regroup_steps(
                task::tasks_of(s.saved, s.moved),
            ) + s.todo,
            ..s
        }).proceed(),
{
    reveal(SessionView::respond);
    let warnings = plan::give_up_steps(s.saved, s.pending);
    let third = plan::regroup_steps(task::tasks_of(s.saved, s.moved));
    assert(warnings + (third + s.todo) =~= warnings + third + s.todo);
}

/// Launched windows that have appeared are recorded and positioned. The others are looked for
/// again after a while; where there are none, the third phase comes next. The restore fails where
/// the windows cannot be read, for the reason given.
pub proof fn law_launched_windows_appear(
    s: SessionView,
    event: EventView,
    clients: Seq<HyprClient>,
    reason: Seq<char>,
)
    requires
        s.awaiting is PollWindows,
    ensures
        ({
            let found = reconcile::sighting(s.saved, clients, s.pending, s.known);
            let moved = plan::placed_addresses(clients, s.saved, found.placed, s.moved);
            let positions = plan::placed_steps(clients, s.saved, found.placed);
            let again = seq![StepView::Pause(250), StepView::Poll];
            let third = plan::regroup_steps(task::tasks_of(s.saved, moved));
            let seen = SessionView { pending: found.pending, known: found.known, moved, ..s };
            &&& found.pending.len() > 0 ==> s.respond(EventView::Windows(clients)) == (
            SessionView { todo: positions + again + s.todo, ..seen }).proceed()
            &&& found.pending.len() == 0 ==> s.respond(EventView::Windows(clients)) == (
            SessionView { todo: positions + third + s.todo, ..seen }).proceed()
        }),
        s.respond(EventView::Failed(reason)) == (
            SessionView { awaiting: AwaitingView::Over(Some(reason)), ..s },
            RequestView::Finish(Some(reason)),
        ),
        !(event is Windows) ==> s.respond(event) == (
            SessionView { awaiting: AwaitingView::Over(Some(event.reason())), ..s },
            RequestView::Finish(Some(event.reason())),
        ),
{
    reveal(SessionView::respond);
    let found = reconcile::sighting(s.saved, clients, s.pending, s.known);
    let moved = plan::placed_addresses(clients, s.saved, found.placed, s.moved);
    let positions = plan::placed_steps(clients, s.saved, found.placed);
    let again = seq![StepView::Pause(250), StepView::Poll];
    let third = plan::regroup_steps(task::tasks_of(s.saved, moved));
    assert(positions + (again + s.todo) =~= positions + again + s.todo);
    assert(positions + (third + s.todo) =~= positions + third + s.todo);
}

/// When a group has its turn, what becomes of it comes next. Only a group that is put together
/// anew uses two workspaces up, and is remembered by its label.
pub proof fn law_group_has_its_turn(s: SessionView, task: GroupTaskView, event: EventView)
    requires
        s.awaiting == AwaitingView::GroupWindows(task),
    ensures
        ({
            let windows = event.windows();
            let todo = plan::decided_steps(task, windows, s.temp_ws) + s.todo;
            &&& observe::intact_on(windows, task.members) is None ==> s.respond(event) == (
            SessionView { todo, temp_ws: s.temp_ws + 2, building: task.label, ..s }).proceed()
            &&& observe::intact_on(windows, task.members) is Some ==> s.respond(event) == (
            SessionView { todo, ..s }).proceed()
        }),
{
    reveal(SessionView::respond);
}

/// A step that depends on a group is replaced by what it comes to, with the number of windows that
/// the group has now. One that depends on none is not counted for.
pub proof fn law_step_is_resolved(s: SessionView, step: BuildStepView, event: EventView)
    requires
        s.awaiting == AwaitingView::StepWindows(step),
    ensures
        step.depends_on() is Some ==> s.respond(event) == (SessionView {
            todo: plan::builds(
                step.resolved(observe::count_in_group(event.windows(), step.depends_on()->0)),
            ) + s.todo,
            ..s
        }).proceed(),
        step.depends_on() is None ==> s.respond(event) == (SessionView {
            todo: plan::builds(step.resolved(0)) + s.todo,
            ..s
        }).proceed(),
{
    reveal(SessionView::respond);
}

/// A condition is looked at, and again after each pause, until it holds or the time is up; then
/// the restore goes on. It is not looked at once the time is up.
pub proof fn law_waiting(
    s: SessionView,
    condition: ConditionView,
    ms: nat,
    event: EventView,
    passed: nat,
)
    ensures
        s.awaiting == AwaitingView::WaitStart(condition, ms) || s.awaiting
            == AwaitingView::WaitPause(condition, ms) ==> s.respond(event) == (
            SessionView { awaiting: AwaitingView::WaitClock(condition, ms), ..s },
            RequestView::ReadClock,
        ),
        s.awaiting == AwaitingView::WaitClock(condition, ms) && event == EventView::Elapsed(passed)
            && passed < ms ==> s.respond(event) == (
            SessionView { awaiting: AwaitingView::WaitWindows(condition, ms), ..s },
            RequestView::Capture,
        ),
        s.awaiting == AwaitingView::WaitClock(condition, ms) && ((event == EventView::Elapsed(
            passed,
        ) && passed >= ms) || !(event is Elapsed)) ==> s.respond(event) == s.proceed(),
        s.awaiting == AwaitingView::WaitWindows(condition, ms) && condition.holds(event.windows())
            ==> s.respond(event) == s.proceed(),
        s.awaiting == AwaitingView::WaitWindows(condition, ms) && !condition.holds(event.windows())
            ==> s.respond(event) == (
            SessionView { awaiting: AwaitingView::WaitPause(condition, ms), ..s },
            RequestView::Pause(150),
        ),
{
    reveal(SessionView::respond);
}

/// A restore that is over stays as it ended.
pub proof fn law_over_stays_over(s: SessionView, reason: Option<Seq<char>>, event: EventView)
    requires
        s.awaiting == AwaitingView::Over(reason),
    ensures
        s.respond(event) == (s, RequestView::Finish(reason)),
{
    reveal(SessionView::respond);
}

} // verus!
