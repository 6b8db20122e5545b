//! Merging is on whenever a group is put together.
use vstd::prelude::*;

use super::action::ActionView;
use super::course;
use super::note::NoteView;
use super::observe;
use super::plan;
use super::plan::StepView;
use super::rebuild;
use super::rebuild::BuildStepView;
use super::reconcile;
use super::session;
use super::session::{AwaitingView, EventView, RequestView, SessionView};
use super::task;
use crate::ipc::HyprClient;
use crate::numbers;

verus! {

/// What merging was last asked to be, once this request has been answered too. A request to
/// switch it off that was refused does not count.
pub open spec fn settle(
    before: Option<bool>,
    request: RequestView,
    answer: EventView,
) -> Option<bool> {
    match request {
        RequestView::Perform(ActionView::SetMerging(enabled)) => if !enabled && answer is Failed {
            before
        } else {
            Some(enabled)
        },
        _ => before,
    }
}

/// What merging was last asked to be, by the requests that these events have answered.
pub open spec fn settled(s: SessionView, events: Seq<EventView>) -> Option<bool>
    decreases events.len(),
{
    if events.len() <= 1 {
        None
    } else {
        settle(
            settled(s, events.drop_last()),
            course::asked(s, events.drop_last()),
            events.last(),
        )
    }
}

/// Merging is on once this request has been met, where it was as given before.
spec fn on_after(on: bool, request: RequestView) -> bool {
    match request {
        RequestView::Perform(ActionView::SetMerging(enabled)) => enabled,
        _ => on,
    }
}

/// The group that is being put together has merging off once this step has been taken.
spec fn apart_after(apart: bool, step: StepView) -> bool {
    match step {
        StepView::Build(BuildStepView::Act(ActionView::SetMerging(enabled))) => !enabled,
        _ => apart,
    }
}

proof fn lemma_after_build_len(todo: Seq<StepView>)
    ensures
        session::after_build(todo).len() <= todo.len(),
        todo.len() > 0 && todo[0] is Build ==> session::after_build(todo).len() < todo.len(),
    decreases todo.len(),
{
    if todo.len() > 0 && todo[0] is Build {
        lemma_after_build_len(todo.drop_first());
    }
}

/// Merging is on when the turn of each group comes, also where the group before it is given up
/// at any of its steps; and it is known at each step of a group whether the group has switched
/// merging off.
spec fn is_prepared(todo: Seq<StepView>, on: bool, apart: bool) -> bool
    decreases todo.len(),
{
    if todo.len() == 0 {
        !apart
    } else {
        proof {
            lemma_after_build_len(todo);
        }
        &&& todo[0] is Group ==> on
        &&& !(todo[0] is Build) ==> !apart
        &&& todo[0] is Build ==> on == !apart && is_prepared(
            session::after_build(todo),
            true,
            false,
        )
        &&& is_prepared(
            todo.drop_first(),
            on_after(on, session::asked_by(todo[0]).1),
            apart_after(apart, todo[0]),
        )
    }
}

/// The request switches merging.
spec fn switch_of(request: RequestView) -> Option<bool> {
    match request {
        RequestView::Perform(action) => action.switches(),
        _ => None,
    }
}

/// The state goes with what is asked for, and with what merging was last asked to be before.
spec fn is_ready(s: SessionView, request: RequestView, before: Option<bool>) -> bool {
    let on = on_after(before == Some(true), request);
    &&& s.awaiting is Start || s.awaiting is FirstWindows || s.awaiting is Home ==> !s.apart
    &&& course::under_way(s) ==> (s.apart ==> before == Some(false))
    &&& course::under_way(s) && !(s.awaiting is Build) ==> {
        &&& is_prepared(s.todo, on, s.apart)
        &&& switch_of(request) is Some ==> !s.apart
    }
    &&& s.awaiting matches AwaitingView::Build(switch) ==> {
        &&& switch == switch_of(request)
        &&& !s.apart ==> before == Some(true)
        &&& is_prepared(s.todo, on, s.switched(switch).apart)
        &&& is_prepared(session::after_build(s.todo), true, false)
    }
    &&& s.awaiting matches AwaitingView::StepWindows(step) ==> {
        &&& step.depends_on() is Some
        &&& on == !s.apart
        &&& is_prepared(session::after_build(s.todo), true, false)
    }
    &&& s.awaiting is Enabled || s.awaiting is GroupWindows ==> on
}

/// The state after this event goes with what is asked for then.
spec fn goes_on(s: SessionView, event: EventView, now: Option<bool>) -> bool {
    is_ready(s.respond(event).0, s.respond(event).1, now)
}

/// There is no group among the steps.
spec fn is_groupless(list: Seq<StepView>) -> bool {
    forall|i: int| 0 <= i < list.len() ==> !((#[trigger] list[i]) is Group) && !(list[i] is Build)
}

proof fn lemma_groupless_append(a: Seq<StepView>, b: Seq<StepView>)
    requires
        is_groupless(a),
        is_groupless(b),
    ensures
        is_groupless(a + b),
{
    assert forall|i: int| 0 <= i < (a + b).len() implies !((#[trigger] (a + b)[i]) is Group) && !((a
        + b)[i] is Build) by {
        if i < a.len() {
            assert((a + b)[i] == a[i]);
        } else {
            assert((a + b)[i] == b[i - a.len()]);
        }
    }
}

proof fn lemma_groupless_prepared(todo: Seq<StepView>, on: bool)
    requires
        is_groupless(todo),
    ensures
        is_prepared(todo, on, false),
    decreases todo.len(),
{
    if todo.len() > 0 {
        let rest = todo.drop_first();
        assert forall|i: int| 0 <= i < rest.len() implies !((#[trigger] rest[i]) is Group) && !(
        rest[i] is Build) by {
            assert(rest[i] == todo[i + 1]);
        }
        assert(!(todo[0] is Group) && !(todo[0] is Build));
        lemma_groupless_prepared(rest, on_after(on, session::asked_by(todo[0]).1));
    }
}

proof fn lemma_with_groups_groupless(s: SessionView)
    requires
        is_groupless(s.todo),
    ensures
        is_groupless(s.with_groups().todo),
{
    let steps = plan::regroup_steps(task::tasks_of(s.saved, s.moved));
    assert(is_groupless(steps));
    lemma_groupless_append(steps, s.todo);
}

proof fn lemma_planned_groupless(s: SessionView, current: Seq<HyprClient>, home: int)
    ensures
        is_groupless(s.planned(current, home).todo),
{
    let paired = reconcile::pairing(current, s.saved);
    let n = s.saved.len() as int;
    let begun = s.begun(current, home);
    let missing = begun.pending;
    let head = seq![StepView::Tell(NoteView::Relocating)];
    let moves = plan::relocate_steps(current, s.saved, paired, n);
    session::lemma_relocate_simple(current, s.saved, paired, n);
    lemma_groupless_append(head, moves);
    assert(is_groupless(begun.todo));
    if missing.len() == 0 {
        let told = seq![StepView::Tell(NoteView::NothingToLaunch)];
        lemma_with_groups_groupless(begun);
        lemma_groupless_append(told, begun.with_groups().todo);
        lemma_groupless_append(head + moves, begun.with_groups().first(told).todo);
    } else {
        let told = seq![StepView::Tell(NoteView::LaunchingMissing(missing.len()))];
        let launches = plan::launch_steps(s.saved, missing);
        let polls = seq![StepView::StartClock, StepView::Poll];
        session::lemma_launch_simple(s.saved, missing);
        lemma_groupless_append(told, launches);
        lemma_groupless_append(told + launches, polls);
        lemma_groupless_append(told + launches + polls, begun.todo);
        lemma_groupless_append(head + moves, begun.first(told + launches + polls).todo);
    }
}

proof fn lemma_sighted_groupless(s: SessionView, clients: Seq<HyprClient>)
    requires
        is_groupless(s.todo),
    ensures
        is_groupless(s.sighted(clients).todo),
{
    let found = reconcile::sighting(s.saved, clients, s.pending, s.known);
    let then = s.seen(clients);
    let placed = plan::placed_steps(clients, s.saved, found.placed);
    session::lemma_placed_simple(clients, s.saved, found.placed);
    if found.pending.len() == 0 {
        lemma_with_groups_groupless(then);
        lemma_groupless_append(placed, then.with_groups().todo);
    } else {
        let again = seq![StepView::Pause(plan::POLL_INTERVAL as nat), StepView::Poll];
        lemma_groupless_append(again, then.todo);
        lemma_groupless_append(placed, then.first(again).todo);
    }
}

/// What is prepared with merging off is prepared with merging on.
proof fn lemma_prepared_on(todo: Seq<StepView>)
    requires
        is_prepared(todo, false, false),
    ensures
        is_prepared(todo, true, false),
    decreases todo.len(),
{
    if todo.len() > 0 && switch_of(session::asked_by(todo[0]).1) is None {
        lemma_prepared_on(todo.drop_first());
    }
}

/// An answer leaves what is ahead prepared.
proof fn lemma_answered(
    s: SessionView,
    event: EventView,
    request: RequestView,
    before: Option<bool>,
)
    requires
        is_ready(s, request, before),
        course::under_way(s),
        !(s.awaiting is Build),
    ensures
        ({
            let now = settle(before, request, event);
            &&& is_prepared(s.todo, now == Some(true), s.apart)
            &&& s.apart ==> now == Some(false)
            &&& on_after(before == Some(true), request) ==> now == Some(true)
        }),
{
    let now = settle(before, request, event);
    let on = on_after(before == Some(true), request);
    if now == Some(true) && !on {
        lemma_prepared_on(s.todo);
    }
}

proof fn lemma_ready_proceed(s: SessionView, event: EventView, u: SessionView, now: Option<bool>)
    requires
        s.respond(event) == u.proceed(),
        is_prepared(u.todo, now == Some(true), u.apart),
        u.apart ==> now == Some(false),
    ensures
        goes_on(s, event, now),
{
    if u.todo.len() > 0 {
        lemma_after_build_len(u.todo);
    }
}

/// Merging is on once these steps for a group have been taken, where it was as given before.
spec fn on_after_all(on: bool, list: Seq<BuildStepView>) -> bool
    decreases list.len(),
{
    if list.len() == 0 {
        on
    } else {
        on_after_all(
            on_after(on, session::asked_by(StepView::Build(list[0])).1),
            list.drop_first(),
        )
    }
}

proof fn lemma_builds_prepared(list: Seq<BuildStepView>, todo: Seq<StepView>, on: bool)
    requires
        is_prepared(todo, on_after_all(on, list), !on_after_all(on, list)),
        is_prepared(session::after_build(todo), true, false),
    ensures
        is_prepared(plan::builds(list) + todo, on, !on),
        session::after_build(plan::builds(list) + todo) == session::after_build(todo),
    decreases list.len(),
{
    let all = plan::builds(list) + todo;
    if list.len() == 0 {
        assert(all =~= todo);
    } else {
        let rest = list.drop_first();
        let next = on_after(on, session::asked_by(StepView::Build(list[0])).1);
        lemma_builds_prepared(rest, todo, next);
        assert(all.drop_first() =~= plan::builds(rest) + todo);
        assert(all[0] == StepView::Build(list[0]));
        assert(apart_after(!on, all[0]) == !next);
    }
}

proof fn lemma_ends_on(on: bool, list: Seq<BuildStepView>)
    requires
        list.len() > 0,
        list.last() == BuildStepView::Act(ActionView::SetMerging(true)),
    ensures
        on_after_all(on, list),
    decreases list.len(),
{
    let rest = list.drop_first();
    let next = on_after(on, session::asked_by(StepView::Build(list[0])).1);
    if list.len() > 1 {
        assert(rest.last() == list.last());
        lemma_ends_on(next, rest);
    } else {
        assert(list[0] == list.last());
        assert(on_after_all(next, rest) == next);
    }
}

proof fn lemma_keeps(on: bool, list: Seq<BuildStepView>)
    requires
        forall|i: int|
            0 <= i < list.len() ==> !((#[trigger] list[i]) matches BuildStepView::Act(
                ActionView::SetMerging(_),
            )),
    ensures
        on_after_all(on, list) == on,
    decreases list.len(),
{
    if list.len() > 0 {
        let rest = list.drop_first();
        assert forall|i: int| 0 <= i < rest.len() implies !((
        #[trigger] rest[i]) matches BuildStepView::Act(ActionView::SetMerging(_))) by {
            assert(rest[i] == list[i + 1]);
        }
        assert(!(list[0] matches BuildStepView::Act(ActionView::SetMerging(_))));
        lemma_keeps(on, rest);
    }
}

proof fn lemma_group_steps_prepared(steps: Seq<StepView>, previous: bool, home: StepView)
    requires
        course::is_home(home),
        forall|i: int|
            0 <= i < steps.len() ==> (#[trigger] steps[i]) is Group || steps[i] is Tell,
    ensures
        is_prepared(
            steps + seq![StepView::Try(ActionView::SetMerging(previous)), home],
            true,
            false,
        ),
    decreases steps.len(),
{
    let tail = seq![StepView::Try(ActionView::SetMerging(previous)), home];
    let all = steps + tail;
    if steps.len() == 0 {
        assert(all =~= tail);
        assert(is_groupless(tail));
        lemma_groupless_prepared(tail, true);
    } else {
        let rest = steps.drop_first();
        assert forall|i: int| 0 <= i < rest.len() implies (#[trigger] rest[i]) is Group
            || rest[i] is Tell by {
            assert(rest[i] == steps[i + 1]);
        }
        lemma_group_steps_prepared(rest, previous, home);
        assert(all.drop_first() =~= rest + tail);
        assert(all[0] == steps[0]);
        assert(steps[0] is Group || steps[0] is Tell);
    }
}

proof fn lemma_told_prepared(note: NoteView, todo: Seq<StepView>, on: bool)
    requires
        is_prepared(todo, on, false),
    ensures
        is_prepared(seq![StepView::Tell(note)] + todo, on, false),
{
    assert((seq![StepView::Tell(note)] + todo).drop_first() =~= todo);
}

proof fn lemma_tried_prepared(action: ActionView, todo: Seq<StepView>, on: bool)
    requires
        is_prepared(todo, on_after(on, RequestView::Perform(action)), false),
    ensures
        is_prepared(seq![StepView::Try(action)] + todo, on, false),
{
    assert((seq![StepView::Try(action)] + todo).drop_first() =~= todo);
}

proof fn lemma_decided_prepared(s: SessionView, event: EventView)
    requires
        s.awaiting is GroupWindows,
        is_prepared(s.todo, true, false),
    ensures
        is_prepared(s.decided(s.awaiting->GroupWindows_0, event.windows()).todo, true, false),
{
    let task = s.awaiting->GroupWindows_0;
    let steps = plan::decided_steps(task, event.windows(), s.temp_ws);
    let all = steps + s.todo;
    match observe::intact_on(event.windows(), task.members) {
        Some(on) => {
            if on == task.dest {
                lemma_told_prepared(NoteView::Intact(task.label, task.place), s.todo, true);
            } else {
                let lead = task.members[0];
                let f = seq![steps[5]] + s.todo;
                let e = seq![steps[4]] + f;
                let d = seq![steps[3]] + e;
                let c = seq![steps[2]] + d;
                let b = seq![steps[1]] + c;
                lemma_tried_prepared(ActionView::SetMerging(true), s.todo, false);
                assert(e.drop_first() =~= f);
                lemma_tried_prepared(ActionView::MoveToWorkspace(lead, task.dest), e, false);
                lemma_tried_prepared(ActionView::FocusWindow(lead), d, false);
                lemma_tried_prepared(ActionView::SetMerging(false), c, true);
                lemma_told_prepared(NoteView::Relocated(task.label, task.place), b, true);
                assert(all =~= seq![steps[0]] + b);
            }
        },
        None => {
            let list = rebuild::rebuild_steps(task.members, s.temp_ws, task.dest);
            let note = NoteView::Grouping(task.members.len(), task.label, task.place);
            let finish = rebuild::finish_steps(task.members[0], task.dest);
            assert(list.last() == finish.last());
            lemma_ends_on(true, list);
            lemma_builds_prepared(list, s.todo, true);
            lemma_told_prepared(note, plan::builds(list) + s.todo, true);
            assert(all =~= seq![StepView::Tell(note)] + (plan::builds(list) + s.todo));
        },
    }
}

proof fn lemma_build_answered(
    s: SessionView,
    event: EventView,
    request: RequestView,
    before: Option<bool>,
)
    requires
        s.awaiting is Build,
        is_ready(s, request, before),
    ensures
        goes_on(s, event, settle(before, request, event)),
{
    let now = settle(before, request, event);
    if event is Failed {
        let u = s.abandoned(event.reason());
        let rest = session::after_build(s.todo);
        let note = NoteView::RebuildFailed(s.building, event.reason());
        if s.apart {
            let tried = seq![StepView::Try(ActionView::SetMerging(true))] + rest;
            lemma_tried_prepared(ActionView::SetMerging(true), rest, now == Some(true));
            lemma_told_prepared(note, tried, now == Some(true));
            assert(u.todo =~= seq![StepView::Tell(note)] + tried);
        } else {
            assert(now == Some(true));
            lemma_told_prepared(note, rest, true);
            assert(u.todo =~= seq![StepView::Tell(note)] + rest);
        }
        assert(s.respond(event) == u.proceed()) by {
            reveal(SessionView::respond);
        }
        lemma_ready_proceed(s, event, u, now);
    } else {
        let u = s.switched(s.awaiting->Build_0);
        assert(s.respond(event) == u.proceed()) by {
            reveal(SessionView::respond);
        }
        lemma_ready_proceed(s, event, u, now);
    }
}

proof fn lemma_stays_ready(
    s: SessionView,
    event: EventView,
    request: RequestView,
    before: Option<bool>,
)
    requires
        course::in_order(s),
        is_ready(s, request, before),
    ensures
        goes_on(s, event, settle(before, request, event)),
{
    let now = settle(before, request, event);
    if course::under_way(s) && !(s.awaiting is Build) {
        lemma_answered(s, event, request, before);
    }
    match s.awaiting {
        AwaitingView::Home(clients) => {
            let planned = s.planned(clients, event.workspace());
            lemma_planned_groupless(s, clients, event.workspace());
            lemma_groupless_prepared(planned.todo, now == Some(true));
            assert(s.respond(event) == planned.proceed()) by {
                reveal(SessionView::respond);
            }
            lemma_ready_proceed(s, event, planned, now);
        },
        AwaitingView::Any => {
            assert(s.respond(event) == s.proceed()) by {
                reveal(SessionView::respond);
            }
            lemma_ready_proceed(s, event, s, now);
        },
        AwaitingView::Must => {
            if !(event is Failed) {
                assert(s.respond(event) == s.proceed()) by {
                    reveal(SessionView::respond);
                }
                lemma_ready_proceed(s, event, s, now);
            } else {
                assert(goes_on(s, event, now)) by {
                    reveal(SessionView::respond);
                }
            }
        },
        AwaitingView::Build(_) => {
            lemma_build_answered(s, event, request, before);
        },
        AwaitingView::Merging(_) => {
            assert(is_groupless(s.todo));
            assert(!s.apart);
            lemma_groupless_prepared(s.todo, true);
            assert(goes_on(s, event, now)) by {
                reveal(SessionView::respond);
            }
        },
        AwaitingView::Enabled(list, previous) => {
            assert(!s.apart);
            if event is Failed {
                let note = NoteView::CannotMerge(event.reason());
                let u = s.first(seq![StepView::Tell(note)]);
                lemma_told_prepared(note, s.todo, true);
                assert(s.respond(event) == u.proceed()) by {
                    reveal(SessionView::respond);
                }
                lemma_ready_proceed(s, event, u, now);
            } else {
                let steps = list.map_values(plan::stepped());
                let all = s.first(plan::group_steps(list, previous));
                lemma_group_steps_prepared(steps, previous, s.todo[0]);
                assert(all.todo =~= steps + seq![
                    StepView::Try(ActionView::SetMerging(previous)),
                    s.todo[0],
                ]);
                assert(s.respond(event) == all.proceed()) by {
                    reveal(SessionView::respond);
                }
                lemma_ready_proceed(s, event, all, now);
            }
        },
        AwaitingView::PollClock => {
            assert(!s.apart);
            if !event.within(plan::LAUNCH_TIMEOUT as nat) {
                let list = plan::give_up_steps(s.saved, s.pending);
                assert(is_groupless(s.todo));
                assert(is_groupless(list));
                lemma_with_groups_groupless(s);
                lemma_groupless_append(list, s.with_groups().todo);
                lemma_groupless_prepared(s.given_up().todo, now == Some(true));
                assert(s.respond(event) == s.given_up().proceed()) by {
                    reveal(SessionView::respond);
                }
                lemma_ready_proceed(s, event, s.given_up(), now);
            } else {
                assert(goes_on(s, event, now)) by {
                    reveal(SessionView::respond);
                }
            }
        },
        AwaitingView::PollWindows => {
            assert(!s.apart);
            match event.windows() {
                Some(clients) => {
                    assert(is_groupless(s.todo));
                    lemma_sighted_groupless(s, clients);
                    lemma_groupless_prepared(s.sighted(clients).todo, now == Some(true));
                    assert(s.respond(event) == s.sighted(clients).proceed()) by {
                        reveal(SessionView::respond);
                    }
                    lemma_ready_proceed(s, event, s.sighted(clients), now);
                },
                None => {
                    assert(goes_on(s, event, now)) by {
                        reveal(SessionView::respond);
                    }
                },
            }
        },
        AwaitingView::GroupWindows(task) => {
            let u = s.decided(task, event.windows());
            assert(!s.apart);
            lemma_decided_prepared(s, event);
            assert(s.respond(event) == u.proceed()) by {
                reveal(SessionView::respond);
            }
            lemma_ready_proceed(s, event, u, now);
        },
        AwaitingView::StepWindows(step) => {
            let count = match step.depends_on() {
                Some(window) => observe::count_in_group(event.windows(), window),
                None => 0,
            };
            let list = step.resolved(count);
            let u = s.first(plan::builds(list));
            lemma_keeps(!s.apart, list);
            assert((now == Some(true)) == !s.apart);
            lemma_builds_prepared(list, s.todo, !s.apart);
            assert(s.respond(event) == u.proceed()) by {
                reveal(SessionView::respond);
            }
            lemma_ready_proceed(s, event, u, now);
        },
        AwaitingView::WaitClock(_, ms) => {
            if !event.within(ms) {
                assert(s.respond(event) == s.proceed()) by {
                    reveal(SessionView::respond);
                }
                lemma_ready_proceed(s, event, s, now);
            } else {
                assert(goes_on(s, event, now)) by {
                    reveal(SessionView::respond);
                }
            }
        },
        AwaitingView::WaitWindows(condition, _) => {
            if condition.holds(event.windows()) {
                assert(s.respond(event) == s.proceed()) by {
                    reveal(SessionView::respond);
                }
                lemma_ready_proceed(s, event, s, now);
            } else {
                assert(goes_on(s, event, now)) by {
                    reveal(SessionView::respond);
                }
            }
        },
        _ => {
            assert(goes_on(s, event, now)) by {
                reveal(SessionView::respond);
            }
        },
    }
}

proof fn lemma_ready_throughout(saved: Seq<HyprClient>, events: Seq<EventView>)
    requires
        events.len() > 0,
    ensures
        ({
            let s = session::new_session(saved);
            &&& course::in_order(course::after(s, events))
            &&& is_ready(
                course::after(s, events),
                course::asked(s, events),
                settled(s, events),
            )
        }),
    decreases events.len(),
{
    let s = session::new_session(saved);
    let fewer = events.drop_last();
    if events.len() == 1 {
        assert(course::after(s, fewer) == s);
        course::law_phases_stay_in_order(s, events.last());
        reveal(SessionView::respond);
    } else {
        lemma_ready_throughout(saved, fewer);
        course::law_phases_stay_in_order(course::after(s, fewer), events.last());
        lemma_stays_ready(
            course::after(s, fewer),
            events.last(),
            course::asked(s, fewer),
            settled(s, fewer),
        );
    }
}

/// What is asked for when it is looked into what becomes of a group.
proof fn lemma_looking(s: SessionView, event: EventView)
    requires
        s.respond(event).0.awaiting is GroupWindows,
    ensures
        s.respond(event).1 == RequestView::Capture,
{
    reveal(SessionView::respond);
}

/// Whatever has happened, merging was last asked to be on whenever it is looked into what
/// becomes of a group, apart from requests to switch it off that were refused.
pub proof fn law_merging_is_on_for_each_group(saved: Seq<HyprClient>, events: Seq<EventView>)
    ensures
        course::after(session::new_session(saved), events).awaiting is GroupWindows ==> settled(
            session::new_session(saved),
            events,
        ) == Some(true),
{
    let s = session::new_session(saved);
    if events.len() > 0 && course::after(s, events).awaiting is GroupWindows {
        lemma_ready_throughout(saved, events);
        lemma_looking(course::after(s, events.drop_last()), events.last());
    }
}

proof fn lemma_first_of(a: Seq<BuildStepView>, b: Seq<BuildStepView>, c: Seq<BuildStepView>)
    requires
        a.len() > 0,
    ensures
        plan::builds(a + b + c).len() > 0,
        plan::builds(a + b + c)[0] == StepView::Build(a[0]),
{
    assert((a + b + c)[0] == a[0]);
}

proof fn lemma_first_build(members: Seq<Seq<char>>, temp_ws: int, dest: Seq<char>)
    ensures
        plan::builds(rebuild::rebuild_steps(members, temp_ws, dest)).len() > 0,
        plan::builds(rebuild::rebuild_steps(members, temp_ws, dest))[0] == StepView::Build(
            BuildStepView::Act(
                ActionView::MoveToWorkspace(members[0], numbers::decimal(temp_ws)),
            ),
        ),
{
    let temp = numbers::decimal(temp_ws);
    let staging = numbers::decimal(temp_ws + 1);
    lemma_first_of(
        rebuild::start_steps(members[0], temp),
        rebuild::gather_steps(members.drop_first(), members[0], temp, staging),
        rebuild::finish_steps(members[0], dest),
    );
}

proof fn lemma_proceed_twice(u: SessionView, note: NoteView, action: ActionView, told: EventView)
    requires
        u.todo.len() > 1,
        u.todo[0] == StepView::Tell(note),
        u.todo[1] == StepView::Build(BuildStepView::Act(action)),
    ensures
        u.proceed().1 == RequestView::Tell(note),
        u.proceed().0.respond(told).1 == RequestView::Perform(action),
{
    let t = u.proceed().0;
    assert(t.todo[0] == u.todo[1]);
    assert(t.respond(told) == t.proceed()) by {
        reveal(SessionView::respond);
    }
}

proof fn lemma_rebuilding_begins(before: SessionView, looked: EventView, told: EventView)
    requires
        before.awaiting is GroupWindows,
        observe::intact_on(looked.windows(), before.awaiting->GroupWindows_0.members) is None,
    ensures
        ({
            let task = before.awaiting->GroupWindows_0;
            let (t, request) = before.respond(looked);
            &&& request == RequestView::Tell(
                NoteView::Grouping(task.members.len(), task.label, task.place),
            )
            &&& t.respond(told).1 == RequestView::Perform(
                ActionView::MoveToWorkspace(task.members[0], numbers::decimal(before.temp_ws)),
            )
        }),
{
    let task = before.awaiting->GroupWindows_0;
    let decided = before.decided(task, looked.windows());
    let note = NoteView::Grouping(task.members.len(), task.label, task.place);
    let builds = plan::builds(rebuild::rebuild_steps(task.members, before.temp_ws, task.dest));
    assert(before.respond(looked) == decided.proceed()) by {
        reveal(SessionView::respond);
    }
    lemma_first_build(task.members, before.temp_ws, task.dest);
    assert(decided.todo == seq![StepView::Tell(note)] + builds + before.todo);
    lemma_proceed_twice(
        decided,
        note,
        ActionView::MoveToWorkspace(task.members[0], numbers::decimal(before.temp_ws)),
        told,
    );
}

/// Whatever has happened, also where an earlier group was given up at any of its steps, merging
/// was last asked to be on when a group begins to be rebuilt, that is, when its first window is
/// moved to the workspace that the group is put together on, apart from requests to switch it
/// off that were refused.
pub proof fn law_rebuilding_begins_with_merging_on(
    saved: Seq<HyprClient>,
    events: Seq<EventView>,
    looked: EventView,
    told: EventView,
)
    requires
        course::after(session::new_session(saved), events).awaiting is GroupWindows,
        observe::intact_on(
            looked.windows(),
            course::after(
                session::new_session(saved),
                events,
            ).awaiting->GroupWindows_0.members,
        ) is None,
    ensures
        ({
            let s = session::new_session(saved);
            let before = course::after(s, events);
            let task = before.awaiting->GroupWindows_0;
            &&& course::asked(s, events.push(looked)) == RequestView::Tell(
                NoteView::Grouping(task.members.len(), task.label, task.place),
            )
            &&& course::asked(s, events.push(looked).push(told)) == RequestView::Perform(
                ActionView::MoveToWorkspace(task.members[0], numbers::decimal(before.temp_ws)),
            )
            &&& settled(s, events.push(looked).push(told)) == Some(true)
        }),
{
    let s = session::new_session(saved);
    let before = course::after(s, events);
    let one = events.push(looked);
    let two = one.push(told);
    law_merging_is_on_for_each_group(saved, events);
    lemma_rebuilding_begins(before, looked, told);
    assert(one.drop_last() =~= events);
    assert(two.drop_last() =~= one);
    assert(course::after(s, one) == before.respond(looked).0);
    lemma_looking(course::after(s, events.drop_last()), events.last());
    assert(settled(s, one) == settled(s, events));
    assert(settled(s, two) == settled(s, one));
}

/// Where a group is given up, merging is switched on again exactly if it was off before the
/// request that failed; nothing else is added to what comes behind the group.
pub proof fn law_merging_is_switched_back_where_it_was_off(
    saved: Seq<HyprClient>,
    events: Seq<EventView>,
    failure: EventView,
)
    requires
        course::after(session::new_session(saved), events).awaiting is Build,
        failure is Failed,
    ensures
        ({
            let s = session::new_session(saved);
            let before = course::after(s, events);
            let (t, request) = before.respond(failure);
            let rest = session::after_build(before.todo);
            &&& settled(s, events) is Some
            &&& request == RequestView::Tell(
                NoteView::RebuildFailed(before.building, failure.reason()),
            )
            &&& t.todo == if settled(s, events) == Some(false) {
                seq![StepView::Try(ActionView::SetMerging(true))] + rest
            } else {
                rest
            }
        }),
{
    let s = session::new_session(saved);
    let before = course::after(s, events);
    let rest = session::after_build(before.todo);
    let u = before.abandoned(failure.reason());
    lemma_ready_throughout(saved, events);
    assert(before.respond(failure) == u.proceed()) by {
        reveal(SessionView::respond);
    }
    if before.apart {
        assert(u.todo.drop_first() =~= seq![StepView::Try(ActionView::SetMerging(true))] + rest);
    } else {
        assert(u.todo.drop_first() =~= rest);
    }
}

} // verus!
