//! What holds of the course of every restore.
use vstd::prelude::*;

use super::action::ActionView;
use super::launch;
use super::note::NoteView;
use super::observe;
use super::plan;
use super::plan::StepView;
use super::position;
use super::reconcile;
use super::session;
use super::session::{AwaitingView, EventView, RequestView, SessionView};
use super::task;
use super::workspace;
use crate::ipc::HyprClient;
use crate::numbers;

verus! {

/// The state after these events.
pub open spec fn after(s: SessionView, events: Seq<EventView>) -> SessionView
    decreases events.len(),
{
    if events.len() == 0 {
        s
    } else {
        after(s, events.drop_last()).respond(events.last()).0
    }
}

/// What is asked for after these events, of which there is at least one.
pub open spec fn asked(s: SessionView, events: Seq<EventView>) -> RequestView {
    after(s, events.drop_last()).respond(events.last()).1
}

/// The last steps of `a` are those of `b`.
pub open spec fn ends_with(a: Seq<StepView>, b: Seq<StepView>) -> bool {
    a.len() >= b.len() && a.skip(a.len() - b.len()) == b
}

/// The restore has been planned and is not over.
pub open spec fn under_way(s: SessionView) -> bool {
    !(s.awaiting is Start) && !(s.awaiting is FirstWindows) && !(s.awaiting is Home) && !(
    s.awaiting is Over)
}

/// The restore has failed.
pub open spec fn is_failure(request: RequestView) -> bool {
    request matches RequestView::Finish(Some(_))
}

proof fn lemma_ends_with_prefix(
    list: Seq<StepView>,
    todo: Seq<StepView>,
    tail: Seq<StepView>,
)
    requires
        ends_with(todo, tail),
    ensures
        ends_with(list + todo, tail),
{
    let all = list + todo;
    assert(all.skip(all.len() - tail.len()) =~= todo.skip(todo.len() - tail.len()));
}

proof fn lemma_proceed_keeps(u: SessionView, tail: Seq<StepView>)
    requires
        ends_with(u.todo, tail),
        tail.len() > 0,
    ensures
        ({
            let (t, request) = u.proceed();
            ||| ends_with(t.todo, tail)
            ||| t.todo == tail.drop_first() && request == session::asked_by(tail[0]).1
                && t.awaiting == session::asked_by(tail[0]).0
        }),
        !is_failure(u.proceed().1),
{
    let t = u.proceed().0;
    assert(u.todo.skip(u.todo.len() - tail.len())[0] == u.todo[u.todo.len() - tail.len()]);
    if u.todo.len() > tail.len() {
        assert(t.todo.skip(t.todo.len() - tail.len()) =~= u.todo.skip(
            u.todo.len() - tail.len(),
        ));
    } else {
        assert(u.todo =~= tail);
    }
}

proof fn lemma_after_build_keeps(todo: Seq<StepView>, tail: Seq<StepView>)
    requires
        ends_with(todo, tail),
        tail.len() > 0,
        !(tail[0] is Build),
    ensures
        ends_with(session::after_build(todo), tail),
    decreases todo.len(),
{
    if todo.len() > 0 && todo[0] is Build {
        assert(todo.skip(todo.len() - tail.len())[0] == todo[todo.len() - tail.len()]);
        let rest = todo.drop_first();
        assert(rest.skip(rest.len() - tail.len()) =~= todo.skip(todo.len() - tail.len()));
        lemma_after_build_keeps(rest, tail);
    }
}

/// A row of steps at the end of those that are ahead stays at the end, until its first step is
/// taken, unless the restore fails. A step for a group that is being put together may be
/// dropped, so the row must not begin with one.
proof fn lemma_tail_is_kept(s: SessionView, event: EventView, tail: Seq<StepView>)
    requires
        ends_with(s.todo, tail),
        tail.len() > 0,
        !(tail[0] is Build),
        !(s.awaiting is Home),
    ensures
        ({
            let (t, request) = s.respond(event);
            ||| is_failure(request)
            ||| ends_with(t.todo, tail)
            ||| t.todo == tail.drop_first() && request == session::asked_by(tail[0]).1
                && t.awaiting == session::asked_by(tail[0]).0
        }),
{
    reveal(SessionView::respond);
    match s.awaiting {
        AwaitingView::Any => {
            lemma_proceed_keeps(s, tail);
        },
        AwaitingView::Must => {
            lemma_proceed_keeps(s, tail);
        },
        AwaitingView::Build(switch) => {
            if event is Failed {
                lemma_after_build_keeps(s.todo, tail);
                lemma_ends_with_prefix(
                    plan::abandon_steps(s.building, event.reason(), s.apart),
                    session::after_build(s.todo),
                    tail,
                );
                lemma_proceed_keeps(s.abandoned(event.reason()), tail);
            } else {
                lemma_proceed_keeps(s.switched(switch), tail);
            }
        },
        AwaitingView::Enabled(list, previous) => {
            if event is Failed {
                let told = seq![StepView::Tell(NoteView::CannotMerge(event.reason()))];
                lemma_ends_with_prefix(told, s.todo, tail);
                lemma_proceed_keeps(s.first(told), tail);
            } else {
                let steps = plan::group_steps(list, previous);
                lemma_ends_with_prefix(steps, s.todo, tail);
                lemma_proceed_keeps(s.first(steps), tail);
            }
        },
        AwaitingView::PollClock => {
            if !event.within(plan::LAUNCH_TIMEOUT as nat) {
                lemma_with_groups_keeps(s, tail);
                lemma_ends_with_prefix(
                    plan::give_up_steps(s.saved, s.pending),
                    s.with_groups().todo,
                    tail,
                );
                lemma_proceed_keeps(s.given_up(), tail);
            }
        },
        AwaitingView::PollWindows => {
            match event.windows() {
                Some(clients) => {
                    lemma_sighted_keeps(s, clients, tail);
                    lemma_proceed_keeps(s.sighted(clients), tail);
                },
                None => {},
            }
        },
        AwaitingView::GroupWindows(task) => {
            lemma_ends_with_prefix(
                plan::decided_steps(task, event.windows(), s.temp_ws),
                s.todo,
                tail,
            );
            lemma_proceed_keeps(s.decided(task, event.windows()), tail);
        },
        AwaitingView::StepWindows(step) => {
            let count = match step.depends_on() {
                Some(window) => observe::count_in_group(event.windows(), window),
                None => 0,
            };
            let list = plan::builds(step.resolved(count));
            lemma_ends_with_prefix(list, s.todo, tail);
            lemma_proceed_keeps(s.first(list), tail);
        },
        AwaitingView::WaitClock(_, _) => {
            lemma_proceed_keeps(s, tail);
        },
        AwaitingView::WaitWindows(_, _) => {
            lemma_proceed_keeps(s, tail);
        },
        _ => {},
    }
}

proof fn lemma_with_groups_keeps(s: SessionView, tail: Seq<StepView>)
    requires
        ends_with(s.todo, tail),
    ensures
        ends_with(s.with_groups().todo, tail),
{
    lemma_ends_with_prefix(
        plan::regroup_steps(task::tasks_of(s.saved, s.moved)),
        s.todo,
        tail,
    );
}

proof fn lemma_sighted_keeps(s: SessionView, clients: Seq<HyprClient>, tail: Seq<StepView>)
    requires
        ends_with(s.todo, tail),
    ensures
        ends_with(s.sighted(clients).todo, tail),
{
    let found = reconcile::sighting(s.saved, clients, s.pending, s.known);
    let then = s.seen(clients);
    let placed = plan::placed_steps(clients, s.saved, found.placed);
    if found.pending.len() == 0 {
        lemma_with_groups_keeps(then, tail);
        lemma_ends_with_prefix(placed, then.with_groups().todo, tail);
    } else {
        let again = seq![StepView::Pause(plan::POLL_INTERVAL as nat), StepView::Poll];
        lemma_ends_with_prefix(again, then.todo, tail);
        lemma_ends_with_prefix(placed, then.first(again).todo, tail);
    }
}

/// No step is lost: whatever comes of a request, a step that is ahead stays ahead, with the
/// same steps behind it, until it is taken, or the restore fails. Only the steps for a group
/// that is being put together can be dropped.
pub proof fn law_no_step_is_lost(s: SessionView, event: EventView, i: int)
    requires
        0 <= i < s.todo.len(),
        !(s.todo[i] is Build),
        under_way(s),
    ensures
        ({
            let (t, request) = s.respond(event);
            ||| is_failure(request)
            ||| ends_with(t.todo, s.todo.skip(i))
            ||| t.todo == s.todo.skip(i + 1) && request == session::asked_by(s.todo[i]).1
        }),
{
    let tail = s.todo.skip(i);
    assert(s.todo.skip(s.todo.len() - tail.len()) =~= tail);
    assert(tail[0] == s.todo[i]);
    lemma_tail_is_kept(s, event, tail);
    assert(tail.drop_first() =~= s.todo.skip(i + 1));
}

/// A restore ends with a failure only where the open windows could not be read, at the start
/// or while launched windows are looked for, or where a window that is open could not be put in
/// its place; and the reason given is the reason of that failure. A failure while a group is
/// put together does not end it.
pub proof fn law_what_ends_a_restore(s: SessionView, event: EventView)
    requires
        !(s.awaiting is Over),
    ensures
        is_failure(s.respond(event).1) ==> {
            &&& s.respond(event).1 == RequestView::Finish(Some(event.reason()))
            &&& s.respond(event).0.awaiting == AwaitingView::Over(Some(event.reason()))
            &&& (s.awaiting is FirstWindows || s.awaiting is PollWindows) && event.windows() is None
                || s.awaiting is Must && event is Failed
        },
{
    reveal(SessionView::respond);
}

/// When a restore is over it stays over, with the same outcome.
pub proof fn law_over_is_final(s: SessionView, event: EventView)
    requires
        s.awaiting is Over,
    ensures
        s.respond(event) == (s, RequestView::Finish(s.awaiting->Over_0)),
{
    reveal(SessionView::respond);
}

proof fn lemma_success(s: SessionView, event: EventView)
    requires
        s.respond(event).1 == RequestView::Finish(None),
        !(s.awaiting is Over),
    ensures
        s.respond(event).0.todo.len() == 0,
{
    reveal(SessionView::respond);
}

/// A restore that is under way stays so until it is over.
pub proof fn lemma_stays_under_way(s: SessionView, event: EventView)
    requires
        under_way(s),
    ensures
        under_way(s.respond(event).0) || s.respond(event).1 is Finish,
        s.respond(event).0.awaiting is Over ==> s.respond(event).1 == RequestView::Finish(
            s.respond(event).0.awaiting->Over_0,
        ),
{
    reveal(SessionView::respond);
}

/// The first event can be taken apart from the others.
pub proof fn lemma_after_step(s: SessionView, events: Seq<EventView>)
    requires
        events.len() > 0,
    ensures
        after(s, events) == after(s.respond(events[0]).0, events.drop_first()),
        events.len() > 1 ==> asked(s, events) == asked(
            s.respond(events[0]).0,
            events.drop_first(),
        ),
        events.len() == 1 ==> asked(s, events) == s.respond(events[0]).1,
    decreases events.len(),
{
    let rest = events.drop_first();
    if events.len() == 1 {
        assert(events.drop_last() =~= Seq::<EventView>::empty());
        assert(rest =~= Seq::<EventView>::empty());
        assert(after(s, events.drop_last()) == s);
    } else {
        lemma_after_step(s, events.drop_last());
        assert(events.drop_last().drop_first() =~= rest.drop_last());
        assert(events.drop_last()[0] == events[0]);
        assert(rest.last() == events.last());
    }
}

proof fn lemma_over_after(s: SessionView, events: Seq<EventView>)
    requires
        s.awaiting is Over,
    ensures
        after(s, events) == s,
        events.len() > 0 ==> asked(s, events) == RequestView::Finish(s.awaiting->Over_0),
    decreases events.len(),
{
    if events.len() > 0 {
        lemma_over_after(s, events.drop_last());
        law_over_is_final(s, events.last());
    }
}

/// A step that is ahead, other than one for a group that is being put together, has been
/// asked for by the time that the restore succeeds.
pub proof fn law_step_is_taken(s: SessionView, events: Seq<EventView>, i: int)
    requires
        under_way(s),
        0 <= i < s.todo.len(),
        !(s.todo[i] is Build),
        events.len() > 0,
        asked(s, events) == RequestView::Finish(None),
    ensures
        exists|m: int|
            1 <= m <= events.len() && #[trigger] asked(s, events.take(m)) == session::asked_by(
                s.todo[i],
            ).1,
    decreases events.len(),
{
    let event = events[0];
    let (t, request) = s.respond(event);
    let rest = events.drop_first();
    law_no_step_is_lost(s, event, i);
    lemma_after_step(s, events);
    lemma_stays_under_way(s, event);
    let one = events.take(1);
    lemma_after_step(s, one);
    assert(one[0] == event);
    if is_failure(request) {
        law_what_ends_a_restore(s, event);
        if rest.len() > 0 {
            lemma_over_after(t, rest);
        }
        assert(false);
    } else if ends_with(t.todo, s.todo.skip(i)) {
        let k = t.todo.len() - (s.todo.len() - i);
        assert(t.todo.skip(k)[0] == t.todo[k]);
        assert(s.todo.skip(i)[0] == s.todo[i]);
        if request == RequestView::Finish(None) {
            lemma_success(s, event);
            assert(false);
        }
        assert(rest.len() > 0);
        law_step_is_taken(t, rest, k);
        let m = choose|m: int|
            1 <= m <= rest.len() && #[trigger] asked(t, rest.take(m)) == session::asked_by(
                t.todo[k],
            ).1;
        let longer = events.take(m + 1);
        assert(longer.drop_first() =~= rest.take(m));
        assert(longer[0] == event);
        lemma_after_step(s, longer);
        assert(asked(s, events.take(m + 1)) == session::asked_by(s.todo[i]).1);
    } else {
        assert(asked(s, events.take(1)) == session::asked_by(s.todo[i]).1);
    }
}

/// The return to a workspace.
pub open spec fn go_home(home: int) -> StepView {
    StepView::Try(ActionView::FocusWorkspace(home))
}

proof fn lemma_planned_ends_home(s: SessionView, current: Seq<HyprClient>, home: int)
    ensures
        ends_with(s.planned(current, home).todo, seq![go_home(home)]),
        s.planned(current, home).todo.len() > 1,
{
    let paired = reconcile::pairing(current, s.saved);
    let n = s.saved.len() as int;
    let begun = s.begun(current, home);
    let missing = begun.pending;
    let tail = seq![go_home(home)];
    assert(begun.todo.skip(0) =~= tail);
    let head = seq![StepView::Tell(NoteView::Relocating)] + plan::relocate_steps(
        current,
        s.saved,
        paired,
        n,
    );
    if missing.len() == 0 {
        let told = seq![StepView::Tell(NoteView::NothingToLaunch)];
        lemma_with_groups_keeps(begun, tail);
        lemma_ends_with_prefix(told, begun.with_groups().todo, tail);
        lemma_ends_with_prefix(head, begun.with_groups().first(told).todo, tail);
    } else {
        let launches = seq![StepView::Tell(NoteView::LaunchingMissing(missing.len()))]
            + plan::launch_steps(s.saved, missing) + seq![StepView::StartClock, StepView::Poll];
        lemma_ends_with_prefix(launches, begun.todo, tail);
        lemma_ends_with_prefix(head, begun.first(launches).todo, tail);
    }
}

proof fn lemma_home_is_ahead(s: SessionView, event: EventView)
    requires
        s.awaiting is Home,
    ensures
        s.respond(event) == s.planned(s.awaiting->Home_0, event.workspace()).proceed(),
        s.planned(s.awaiting->Home_0, event.workspace()).todo.len() > 1,
        s.planned(s.awaiting->Home_0, event.workspace()).todo.last() == go_home(event.workspace()),
        under_way(s.respond(event).0),
{
    let home = event.workspace();
    let planned = s.planned(s.awaiting->Home_0, home);
    let tail = seq![go_home(home)];
    assert(s.respond(event) == planned.proceed()) by {
        reveal(SessionView::respond);
    }
    lemma_planned_ends_home(s, s.awaiting->Home_0, home);
    assert(planned.todo.skip(planned.todo.len() - 1)[0] == planned.todo.last());
}

/// Steps that a response plans, behind the first, have been asked for by the time that the
/// restore succeeds.
proof fn lemma_planned_step_is_taken(
    s: SessionView,
    events: Seq<EventView>,
    u: SessionView,
    i: int,
)
    requires
        events.len() > 0,
        s.respond(events[0]) == u.proceed(),
        under_way(u.proceed().0),
        asked(s, events) == RequestView::Finish(None),
        1 <= i < u.todo.len(),
        !(u.todo[i] is Build),
    ensures
        exists|m: int|
            1 <= m <= events.len() && #[trigger] asked(s, events.take(m)) == session::asked_by(
                u.todo[i],
            ).1,
{
    let t = s.respond(events[0]).0;
    let rest = events.drop_first();
    lemma_after_step(s, events);
    assert(t.todo[i - 1] == u.todo[i]);
    law_step_is_taken(t, rest, i - 1);
    let m = choose|m: int|
        1 <= m <= rest.len() && #[trigger] asked(t, rest.take(m)) == session::asked_by(
            t.todo[i - 1],
        ).1;
    let longer = events.take(m + 1);
    assert(longer.drop_first() =~= rest.take(m));
    assert(longer[0] == events[0]);
    lemma_after_step(s, longer);
}

/// A restore that succeeds has asked for the workspace that was active at the start, or for
/// the default where that was not known.
pub proof fn law_success_returns_home(s: SessionView, events: Seq<EventView>)
    requires
        s.awaiting is Home,
        events.len() > 0,
        asked(s, events) == RequestView::Finish(None),
    ensures
        exists|m: int|
            1 <= m <= events.len() && #[trigger] asked(s, events.take(m)) == RequestView::Perform(
                ActionView::FocusWorkspace(events[0].workspace()),
            ),
{
    let u = s.planned(s.awaiting->Home_0, events[0].workspace());
    lemma_home_is_ahead(s, events[0]);
    lemma_planned_step_is_taken(s, events, u, u.todo.len() - 1);
}

proof fn lemma_relocation_is_planned(
    current: Seq<HyprClient>,
    saved: Seq<HyprClient>,
    paired: Seq<Option<int>>,
    n: int,
    k: int,
    i: int,
) -> (at: int)
    requires
        0 <= k < n,
        paired[k] is Some,
        0 <= i < position::placement_actions(current[paired[k]->0], saved[k]).len(),
    ensures
        0 <= at < plan::relocate_steps(current, saved, paired, n).len(),
        plan::relocate_steps(current, saved, paired, n)[at] == StepView::Must(
            position::placement_actions(current[paired[k]->0], saved[k])[i],
        ),
    decreases n,
{
    if k < n - 1 {
        lemma_relocation_is_planned(current, saved, paired, n - 1, k, i)
    } else {
        plan::relocate_steps(current, saved, paired, n - 1).len() + 1 + i
    }
}

/// A saved window that is open is put in its place: by the time that the restore succeeds it
/// has asked for everything that takes the window there.
pub proof fn law_open_window_is_put_in_place(
    s: SessionView,
    events: Seq<EventView>,
    k: int,
    i: int,
)
    requires
        s.awaiting is Home,
        events.len() > 0,
        asked(s, events) == RequestView::Finish(None),
        0 <= k < s.saved.len(),
        reconcile::pairing(s.awaiting->Home_0, s.saved)[k] is Some,
        0 <= i < position::placement_actions(
            s.awaiting->Home_0[reconcile::pairing(s.awaiting->Home_0, s.saved)[k]->0],
            s.saved[k],
        ).len(),
    ensures
        exists|m: int|
            1 <= m <= events.len() && #[trigger] asked(s, events.take(m)) == RequestView::Perform(
                position::placement_actions(
                    s.awaiting->Home_0[reconcile::pairing(s.awaiting->Home_0, s.saved)[k]->0],
                    s.saved[k],
                )[i],
            ),
{
    let current = s.awaiting->Home_0;
    let paired = reconcile::pairing(current, s.saved);
    let n = s.saved.len() as int;
    let u = s.planned(current, events[0].workspace());
    let steps = plan::relocate_steps(current, s.saved, paired, n);
    let at = lemma_relocation_is_planned(current, s.saved, paired, n, k, i);
    assert(u.todo[1 + at] == steps[at]);
    lemma_home_is_ahead(s, events[0]);
    lemma_planned_step_is_taken(s, events, u, 1 + at);
}

proof fn lemma_unpaired_has(paired: Seq<Option<int>>, n: int, k: int) -> (at: int)
    requires
        0 <= k < n,
        paired[k] is None,
    ensures
        0 <= at < plan::unpaired(paired, n).len(),
        plan::unpaired(paired, n)[at] == k,
    decreases n,
{
    if k < n - 1 {
        lemma_unpaired_has(paired, n - 1, k)
    } else {
        plan::unpaired(paired, n - 1).len() as int
    }
}

proof fn lemma_launch_is_planned(saved: Seq<HyprClient>, missing: Seq<int>, p: int) -> (at: int)
    requires
        0 <= p < missing.len(),
    ensures
        0 <= at < plan::launch_steps(saved, missing).len(),
        plan::launch_steps(saved, missing)[at] == StepView::Try(
            ActionView::Exec(
                launch::launch_line(saved[missing[p]]),
                workspace::selector(saved[missing[p]].workspace),
            ),
        ),
    decreases missing.len(),
{
    let fewer = missing.drop_last();
    if p < fewer.len() {
        lemma_launch_is_planned(saved, fewer, p)
    } else {
        plan::launch_steps(saved, fewer).len() + 2int
    }
}

/// A saved window that is not open is launched onto its workspace: by the time that the
/// restore succeeds it has asked for that.
pub proof fn law_missing_window_is_launched(s: SessionView, events: Seq<EventView>, k: int)
    requires
        s.awaiting is Home,
        events.len() > 0,
        asked(s, events) == RequestView::Finish(None),
        0 <= k < s.saved.len(),
        reconcile::pairing(s.awaiting->Home_0, s.saved)[k] is None,
    ensures
        exists|m: int|
            1 <= m <= events.len() && #[trigger] asked(s, events.take(m)) == RequestView::Perform(
                ActionView::Exec(
                    launch::launch_line(s.saved[k]),
                    workspace::selector(s.saved[k].workspace),
                ),
            ),
{
    let current = s.awaiting->Home_0;
    let paired = reconcile::pairing(current, s.saved);
    let n = s.saved.len() as int;
    let u = s.planned(current, events[0].workspace());
    let missing = plan::unpaired(paired, n);
    let moves = plan::relocate_steps(current, s.saved, paired, n);
    let launches = plan::launch_steps(s.saved, missing);
    let p = lemma_unpaired_has(paired, n, k);
    let at = lemma_launch_is_planned(s.saved, missing, p);
    assert(u.todo[1 + moves.len() + 1 + at] == launches[at]);
    lemma_home_is_ahead(s, events[0]);
    lemma_planned_step_is_taken(s, events, u, 1 + moves.len() + 1 + at);
}

proof fn lemma_placing_is_planned(
    clients: Seq<HyprClient>,
    saved: Seq<HyprClient>,
    placed: Seq<(int, int)>,
    p: int,
    i: int,
) -> (at: int)
    requires
        0 <= p < placed.len(),
        0 <= i < position::placement_actions(clients[placed[p].0], saved[placed[p].1]).len(),
    ensures
        1 <= at < plan::placed_steps(clients, saved, placed).len(),
        plan::placed_steps(clients, saved, placed)[at] == StepView::Must(
            position::placement_actions(clients[placed[p].0], saved[placed[p].1])[i],
        ),
    decreases placed.len(),
{
    let fewer = placed.drop_last();
    if p < fewer.len() {
        lemma_placing_is_planned(clients, saved, fewer, p, i)
    } else {
        plan::placed_steps(clients, saved, fewer).len() + 1 + i
    }
}

/// A launched window that has appeared is put in its place: by the time that the restore
/// succeeds it has asked for everything that takes the window there.
pub proof fn law_launched_window_is_put_in_place(
    s: SessionView,
    events: Seq<EventView>,
    clients: Seq<HyprClient>,
    p: int,
    i: int,
)
    requires
        s.awaiting is PollWindows,
        events.len() > 0,
        events[0].windows() == Some(clients),
        asked(s, events) == RequestView::Finish(None),
        0 <= p < reconcile::sighting(s.saved, clients, s.pending, s.known).placed.len(),
        ({
            let (c, k) = reconcile::sighting(s.saved, clients, s.pending, s.known).placed[p];
            0 <= i < position::placement_actions(clients[c], s.saved[k]).len()
        }),
    ensures
        ({
            let (c, k) = reconcile::sighting(s.saved, clients, s.pending, s.known).placed[p];
            exists|m: int|
                1 <= m <= events.len() && #[trigger] asked(s, events.take(m))
                    == RequestView::Perform(
                    position::placement_actions(clients[c], s.saved[k])[i],
                )
        }),
{
    let found = reconcile::sighting(s.saved, clients, s.pending, s.known);
    let steps = plan::placed_steps(clients, s.saved, found.placed);
    let u = s.sighted(clients);
    let at = lemma_placing_is_planned(clients, s.saved, found.placed, p, i);
    assert(u.todo[at] == steps[at]);
    assert(s.respond(events[0]) == u.proceed()) by {
        reveal(SessionView::respond);
    }
    lemma_planned_step_is_taken(s, events, u, at);
}

proof fn lemma_temp_grows(s: SessionView, events: Seq<EventView>)
    ensures
        s.temp_ws <= after(s, events).temp_ws,
    decreases events.len(),
{
    if events.len() > 0 {
        lemma_temp_grows(s, events.drop_last());
        reveal(SessionView::respond);
    }
}

/// No two groups are put together on the same workspaces: once a group has got its two, no
/// later one gets either of them.
pub proof fn law_groups_get_workspaces_of_their_own(s: SessionView, events: Seq<EventView>)
    requires
        s.awaiting is GroupWindows,
        events.len() > 0,
        observe::intact_on(events[0].windows(), s.awaiting->GroupWindows_0.members) is None,
    ensures
        ({
            let later = after(s, events).temp_ws;
            &&& numbers::decimal(later) != numbers::decimal(s.temp_ws)
            &&& numbers::decimal(later) != numbers::decimal(s.temp_ws + 1)
            &&& numbers::decimal(later + 1) != numbers::decimal(s.temp_ws)
            &&& numbers::decimal(later + 1) != numbers::decimal(s.temp_ws + 1)
        }),
{
    let t = s.respond(events[0]).0;
    let later = after(s, events).temp_ws;
    assert(t.temp_ws == s.temp_ws + 2) by {
        reveal(SessionView::respond);
    }
    lemma_after_step(s, events);
    lemma_temp_grows(t, events.drop_first());
    if numbers::decimal(later) == numbers::decimal(s.temp_ws) {
        numbers::law_decimal_is_injective(later, s.temp_ws);
    }
    if numbers::decimal(later) == numbers::decimal(s.temp_ws + 1) {
        numbers::law_decimal_is_injective(later, s.temp_ws + 1);
    }
    if numbers::decimal(later + 1) == numbers::decimal(s.temp_ws) {
        numbers::law_decimal_is_injective(later + 1, s.temp_ws);
    }
    if numbers::decimal(later + 1) == numbers::decimal(s.temp_ws + 1) {
        numbers::law_decimal_is_injective(later + 1, s.temp_ws + 1);
    }
}

/// The return to some workspace.
pub open spec fn is_home(step: StepView) -> bool {
    step matches StepView::Try(ActionView::FocusWorkspace(_))
}

/// None of the steps begins a wait for launched windows or the third phase.
pub open spec fn is_plain(list: Seq<StepView>) -> bool {
    forall|i: int| 0 <= i < list.len() ==> !((#[trigger] list[i]) is Poll) && !(list[i] is Regroup)
}

/// Behind the wait for launched windows, and behind the beginning of the third phase, there is
/// only the return to a workspace.
pub open spec fn is_ordered(todo: Seq<StepView>) -> bool {
    forall|i: int|
        0 <= i < todo.len() && ((#[trigger] todo[i]) is Poll || todo[i] is Regroup) ==> i + 2
            == todo.len() && is_home(todo[i + 1])
}

/// The phases come in order: while launched windows are waited for, and when the third phase
/// begins, all that is ahead otherwise is the return to a workspace.
pub open spec fn in_order(s: SessionView) -> bool {
    &&& under_way(s) ==> is_ordered(s.todo)
    &&& s.awaiting is PollClock || s.awaiting is PollWindows || s.awaiting is Merging
        || s.awaiting is Enabled ==> s.todo.len() == 1 && is_home(s.todo[0])
}

proof fn lemma_ordered_first(list: Seq<StepView>, todo: Seq<StepView>)
    requires
        is_plain(list),
        is_ordered(todo),
    ensures
        is_ordered(list + todo),
{
    let all = list + todo;
    assert forall|i: int|
        0 <= i < all.len() && ((#[trigger] all[i]) is Poll || all[i] is Regroup) implies i + 2
        == all.len() && is_home(all[i + 1]) by {
        if i < list.len() {
            assert(all[i] == list[i]);
        } else {
            assert(all[i] == todo[i - list.len()]);
            assert(all[i + 1] == todo[i + 1 - list.len()]);
        }
    }
}

proof fn lemma_ordered_proceed(u: SessionView)
    requires
        is_ordered(u.todo),
    ensures
        in_order(u.proceed().0),
{
    if u.todo.len() > 0 {
        let rest = u.todo.drop_first();
        assert(u.todo[0] is Poll || u.todo[0] is Regroup ==> u.todo.len() == 2 && is_home(
            u.todo[1],
        ));
        assert forall|i: int|
            0 <= i < rest.len() && ((#[trigger] rest[i]) is Poll || rest[i] is Regroup) implies i
            + 2 == rest.len() && is_home(rest[i + 1]) by {
            assert(rest[i] == u.todo[i + 1]);
            assert(rest[i + 1] == u.todo[i + 2]);
        }
    }
}

proof fn lemma_ordered_after_build(todo: Seq<StepView>)
    requires
        is_ordered(todo),
    ensures
        is_ordered(session::after_build(todo)),
    decreases todo.len(),
{
    if todo.len() > 0 && todo[0] is Build {
        let rest = todo.drop_first();
        assert forall|i: int|
            0 <= i < rest.len() && ((#[trigger] rest[i]) is Poll || rest[i] is Regroup) implies i
            + 2 == rest.len() && is_home(rest[i + 1]) by {
            assert(rest[i] == todo[i + 1]);
            assert(rest[i + 1] == todo[i + 2]);
        }
        lemma_ordered_after_build(rest);
    }
}

proof fn lemma_ordered_with_groups(s: SessionView)
    requires
        s.todo.len() == 1,
        is_home(s.todo[0]),
    ensures
        is_ordered(s.with_groups().todo),
{
    let list = task::tasks_of(s.saved, s.moved);
    let all = s.with_groups().todo;
    if list.len() > 0 {
        assert(all =~= seq![
            StepView::Tell(NoteView::Rebuilding(list.len())),
            StepView::Regroup(list),
            s.todo[0],
        ]);
    } else {
        assert(all =~= s.todo);
    }
}

proof fn lemma_ordered_planned(s: SessionView, current: Seq<HyprClient>, home: int)
    ensures
        is_ordered(s.planned(current, home).todo),
{
    let paired = reconcile::pairing(current, s.saved);
    let n = s.saved.len() as int;
    let begun = s.begun(current, home);
    let missing = begun.pending;
    let head = seq![StepView::Tell(NoteView::Relocating)];
    let moves = plan::relocate_steps(current, s.saved, paired, n);
    session::lemma_relocate_simple(current, s.saved, paired, n);
    session::lemma_simple_append(head, moves);
    if missing.len() == 0 {
        let told = seq![StepView::Tell(NoteView::NothingToLaunch)];
        lemma_ordered_with_groups(begun);
        lemma_ordered_first(told, begun.with_groups().todo);
        lemma_ordered_first(head + moves, begun.with_groups().first(told).todo);
    } else {
        let told = seq![StepView::Tell(NoteView::LaunchingMissing(missing.len()))];
        let launches = plan::launch_steps(s.saved, missing);
        let polls = seq![StepView::StartClock, StepView::Poll];
        session::lemma_launch_simple(s.saved, missing);
        session::lemma_simple_append(told, launches);
        assert(is_ordered(polls + begun.todo));
        lemma_ordered_first(told + launches, polls + begun.todo);
        let second = begun.first(told + launches + polls);
        assert(second.todo =~= (told + launches) + (polls + begun.todo));
        lemma_ordered_first(head + moves, second.todo);
    }
}

proof fn lemma_ordered_sighted(s: SessionView, clients: Seq<HyprClient>)
    requires
        s.todo.len() == 1,
        is_home(s.todo[0]),
    ensures
        is_ordered(s.sighted(clients).todo),
{
    let found = reconcile::sighting(s.saved, clients, s.pending, s.known);
    let then = s.seen(clients);
    let placed = plan::placed_steps(clients, s.saved, found.placed);
    session::lemma_placed_simple(clients, s.saved, found.placed);
    if found.pending.len() == 0 {
        lemma_ordered_with_groups(then);
        lemma_ordered_first(placed, then.with_groups().todo);
    } else {
        let again = seq![StepView::Pause(plan::POLL_INTERVAL as nat), StepView::Poll];
        assert(is_ordered(then.first(again).todo));
        lemma_ordered_first(placed, then.first(again).todo);
    }
}

/// The phases come in order from the start, whatever happens.
pub proof fn law_phases_stay_in_order(s: SessionView, event: EventView)
    requires
        in_order(s),
    ensures
        in_order(s.respond(event).0),
{
    reveal(SessionView::respond);
    match s.awaiting {
        AwaitingView::Home(clients) => {
            lemma_ordered_planned(s, clients, event.workspace());
            lemma_ordered_proceed(s.planned(clients, event.workspace()));
        },
        AwaitingView::Any => {
            lemma_ordered_proceed(s);
        },
        AwaitingView::Must => {
            lemma_ordered_proceed(s);
        },
        AwaitingView::Build(switch) => {
            let steps = plan::abandon_steps(s.building, event.reason(), s.apart);
            assert(is_plain(steps));
            lemma_ordered_after_build(s.todo);
            lemma_ordered_first(steps, session::after_build(s.todo));
            lemma_ordered_proceed(s.abandoned(event.reason()));
            lemma_ordered_proceed(s.switched(switch));
        },
        AwaitingView::Enabled(list, previous) => {
            let told = seq![StepView::Tell(NoteView::CannotMerge(event.reason()))];
            lemma_ordered_first(told, s.todo);
            lemma_ordered_proceed(s.first(told));
            let steps = plan::group_steps(list, previous);
            assert forall|i: int| 0 <= i < steps.len() implies !((#[trigger] steps[i]) is Poll) && !(
            steps[i] is Regroup) by {
                if i < list.len() {
                    assert(steps[i] == plan::group_step(list[i]));
                }
            }
            lemma_ordered_first(steps, s.todo);
            lemma_ordered_proceed(s.first(steps));
        },
        AwaitingView::PollClock => {
            lemma_ordered_with_groups(s);
            let list = plan::give_up_steps(s.saved, s.pending);
            assert(is_plain(list));
            lemma_ordered_first(list, s.with_groups().todo);
            lemma_ordered_proceed(s.given_up());
        },
        AwaitingView::PollWindows => {
            match event.windows() {
                Some(clients) => {
                    lemma_ordered_sighted(s, clients);
                    lemma_ordered_proceed(s.sighted(clients));
                },
                None => {},
            }
        },
        AwaitingView::GroupWindows(task) => {
            let list = plan::decided_steps(task, event.windows(), s.temp_ws);
            assert(is_plain(list));
            lemma_ordered_first(list, s.todo);
            lemma_ordered_proceed(s.decided(task, event.windows()));
        },
        AwaitingView::StepWindows(step) => {
            let count = match step.depends_on() {
                Some(window) => observe::count_in_group(event.windows(), window),
                None => 0,
            };
            let list = plan::builds(step.resolved(count));
            assert(is_plain(list));
            lemma_ordered_first(list, s.todo);
            lemma_ordered_proceed(s.first(list));
        },
        AwaitingView::WaitClock(_, _) => {
            lemma_ordered_proceed(s);
        },
        AwaitingView::WaitWindows(_, _) => {
            lemma_ordered_proceed(s);
        },
        _ => {},
    }
}

/// A restore begins in a valid state, with its phases in order and no window taken for two.
pub proof fn law_restore_begins_valid(saved: Seq<HyprClient>)
    requires
        saved.len() <= session::MAX_WINDOWS,
    ensures
        session::new_session(saved).valid(),
        in_order(session::new_session(saved)),
        is_faithful(session::new_session(saved)),
{
}

/// What merging was last asked to be, in the course of these events.
pub open spec fn last_merging(s: SessionView, events: Seq<EventView>) -> Option<bool>
    decreases events.len(),
{
    if events.len() == 0 {
        None
    } else {
        match asked(s, events) {
            RequestView::Perform(ActionView::SetMerging(enabled)) => Some(enabled),
            _ => last_merging(s, events.drop_last()),
        }
    }
}

proof fn lemma_last_merging_step(s: SessionView, events: Seq<EventView>)
    requires
        events.len() > 0,
    ensures
        ({
            let (t, request) = s.respond(events[0]);
            last_merging(s, events) == match last_merging(t, events.drop_first()) {
                Some(enabled) => Some(enabled),
                None => match request {
                    RequestView::Perform(ActionView::SetMerging(enabled)) => Some(enabled),
                    _ => None,
                },
            }
        }),
    decreases events.len(),
{
    lemma_after_step(s, events);
    let rest = events.drop_first();
    let short = events.drop_last();
    if events.len() == 1 {
        assert(last_merging(s, short) is None);
        assert(last_merging(s.respond(events[0]).0, rest) is None);
    } else {
        lemma_last_merging_step(s, short);
        assert(short.drop_first() =~= rest.drop_last());
        assert(short[0] == events[0]);
    }
}

/// Only the return to a workspace is ahead, or nothing is.
spec fn is_quiet(s: SessionView) -> bool {
    s.awaiting is Over || s.awaiting is Any && (s.todo.len() == 0 || s.todo.len() == 1 && is_home(
        s.todo[0],
    ))
}

proof fn lemma_quiet(s: SessionView, events: Seq<EventView>)
    requires
        is_quiet(s),
    ensures
        last_merging(s, events) is None,
    decreases events.len(),
{
    if events.len() > 0 {
        reveal(SessionView::respond);
        lemma_last_merging_step(s, events);
        lemma_quiet(s.respond(events[0]).0, events.drop_first());
    }
}

proof fn lemma_merging_end(
    s: SessionView,
    events: Seq<EventView>,
    previous: bool,
    home: StepView,
)
    requires
        under_way(s),
        is_home(home),
        ends_with(s.todo, seq![StepView::Try(ActionView::SetMerging(previous)), home]),
        events.len() > 0,
        asked(s, events) == RequestView::Finish(None),
    ensures
        last_merging(s, events) == Some(previous),
    decreases events.len(),
{
    let tail = seq![StepView::Try(ActionView::SetMerging(previous)), home];
    let event = events[0];
    let (t, request) = s.respond(event);
    let rest = events.drop_first();
    lemma_tail_is_kept(s, event, tail);
    lemma_after_step(s, events);
    lemma_last_merging_step(s, events);
    lemma_stays_under_way(s, event);
    if is_failure(request) {
        law_what_ends_a_restore(s, event);
        if rest.len() > 0 {
            lemma_over_after(t, rest);
        }
        assert(false);
    } else if ends_with(t.todo, tail) {
        if request == RequestView::Finish(None) {
            lemma_success(s, event);
            assert(false);
        }
        lemma_merging_end(t, rest, previous, home);
    } else {
        assert(t.todo =~= seq![home]);
        lemma_quiet(t, rest);
    }
}

/// Nothing that could end the restore with a failure is among the steps, nor anything that
/// leads to it.
spec fn is_harmless(list: Seq<StepView>) -> bool {
    forall|i: int|
        0 <= i < list.len() ==> !((#[trigger] list[i]) is Must) && !(list[i] is Poll) && !(
        list[i] is Regroup)
}

/// Nothing that is ahead or awaited can end the restore with a failure.
spec fn is_safe(s: SessionView) -> bool {
    &&& is_harmless(s.todo)
    &&& match s.awaiting {
        AwaitingView::Start => false,
        AwaitingView::FirstWindows => false,
        AwaitingView::Home(_) => false,
        AwaitingView::Must => false,
        AwaitingView::PollClock => false,
        AwaitingView::PollWindows => false,
        AwaitingView::Over(reason) => reason is None,
        _ => true,
    }
}

proof fn lemma_harmless_append(a: Seq<StepView>, b: Seq<StepView>)
    requires
        is_harmless(a),
        is_harmless(b),
    ensures
        is_harmless(a + b),
{
    assert forall|i: int| 0 <= i < (a + b).len() implies !((#[trigger] (a + b)[i]) is Must) && !((a
        + b)[i] is Poll) && !((a + b)[i] is Regroup) by {
        if i < a.len() {
            assert((a + b)[i] == a[i]);
        } else {
            assert((a + b)[i] == b[i - a.len()]);
        }
    }
}

proof fn lemma_harmless_rest(list: Seq<StepView>)
    requires
        is_harmless(list),
    ensures
        list.len() > 0 ==> is_harmless(list.drop_first()),
        is_harmless(session::after_build(list)),
    decreases list.len(),
{
    if list.len() > 0 {
        let rest = list.drop_first();
        assert forall|i: int| 0 <= i < rest.len() implies !((#[trigger] rest[i]) is Must) && !(
        rest[i] is Poll) && !(rest[i] is Regroup) by {
            assert(rest[i] == list[i + 1]);
        }
        lemma_harmless_rest(rest);
    }
}

proof fn lemma_safe_proceed(u: SessionView)
    requires
        is_harmless(u.todo),
    ensures
        is_safe(u.proceed().0),
        !is_failure(u.proceed().1),
{
    lemma_harmless_rest(u.todo);
    if u.todo.len() > 0 {
        assert(!(u.todo[0] is Must) && !(u.todo[0] is Poll) && !(u.todo[0] is Regroup));
    }
}

proof fn lemma_stays_safe(s: SessionView, event: EventView)
    requires
        is_safe(s),
    ensures
        is_safe(s.respond(event).0),
        !is_failure(s.respond(event).1),
{
    reveal(SessionView::respond);
    match s.awaiting {
        AwaitingView::Any => {
            lemma_safe_proceed(s);
        },
        AwaitingView::Build(switch) => {
            let steps = plan::abandon_steps(s.building, event.reason(), s.apart);
            assert(is_harmless(steps));
            lemma_harmless_rest(s.todo);
            lemma_harmless_append(steps, session::after_build(s.todo));
            lemma_safe_proceed(s.abandoned(event.reason()));
            lemma_safe_proceed(s.switched(switch));
        },
        AwaitingView::Enabled(list, previous) => {
            let told = seq![StepView::Tell(NoteView::CannotMerge(event.reason()))];
            let steps = plan::group_steps(list, previous);
            assert(is_harmless(told));
            assert forall|i: int| 0 <= i < steps.len() implies !((#[trigger] steps[i]) is Must) && !(
            steps[i] is Poll) && !(steps[i] is Regroup) by {
                if i < list.len() {
                    assert(steps[i] == plan::group_step(list[i]));
                }
            }
            lemma_harmless_append(told, s.todo);
            lemma_harmless_append(steps, s.todo);
            lemma_safe_proceed(s.first(told));
            lemma_safe_proceed(s.first(steps));
        },
        AwaitingView::GroupWindows(task) => {
            let steps = plan::decided_steps(task, event.windows(), s.temp_ws);
            assert(is_harmless(steps));
            lemma_harmless_append(steps, s.todo);
            lemma_safe_proceed(s.decided(task, event.windows()));
        },
        AwaitingView::StepWindows(step) => {
            let count = match step.depends_on() {
                Some(window) => observe::count_in_group(event.windows(), window),
                None => 0,
            };
            let list = plan::builds(step.resolved(count));
            assert(is_harmless(list));
            lemma_harmless_append(list, s.todo);
            lemma_safe_proceed(s.first(list));
        },
        AwaitingView::WaitClock(_, _) => {
            lemma_safe_proceed(s);
        },
        AwaitingView::WaitWindows(_, _) => {
            lemma_safe_proceed(s);
        },
        _ => {},
    }
}

proof fn lemma_safe_throughout(s: SessionView, events: Seq<EventView>)
    requires
        is_safe(s),
    ensures
        is_safe(after(s, events)),
        events.len() > 0 ==> !is_failure(asked(s, events)),
    decreases events.len(),
{
    if events.len() > 0 {
        lemma_safe_throughout(s, events.drop_last());
        lemma_stays_safe(after(s, events.drop_last()), events.last());
    }
}

/// Once the third phase has begun a restore cannot fail any more, whatever happens.
pub proof fn law_third_phase_cannot_fail(s: SessionView, events: Seq<EventView>)
    requires
        in_order(s),
        s.awaiting is Merging || s.awaiting is Enabled,
        events.len() > 0,
    ensures
        !is_failure(asked(s, events)),
{
    assert(is_harmless(s.todo));
    lemma_safe_throughout(s, events);
}

/// A restore that has switched merging on leaves it as it was: what it last asks merging to be,
/// before it is over, is what it had been.
pub proof fn law_merging_is_left_as_it_was(s: SessionView, events: Seq<EventView>)
    requires
        in_order(s),
        s.awaiting is Enabled,
        events.len() > 0,
        !(events[0] is Failed),
        asked(s, events) is Finish,
    ensures
        last_merging(s, events) == Some(s.awaiting->Enabled_1),
{
    law_third_phase_cannot_fail(s, events);
    assert(asked(s, events) == RequestView::Finish(None));
    let list = s.awaiting->Enabled_0;
    let previous = s.awaiting->Enabled_1;
    let home = s.todo[0];
    let tail = seq![StepView::Try(ActionView::SetMerging(previous)), home];
    let steps = plan::group_steps(list, previous);
    let all = steps + s.todo;
    assert(all.skip(all.len() - 2) =~= tail);
    let (t, request) = s.respond(events[0]);
    let rest = events.drop_first();
    assert((t, request) == s.first(steps).proceed()) by {
        reveal(SessionView::respond);
    }
    lemma_proceed_keeps(s.first(steps), tail);
    lemma_after_step(s, events);
    lemma_last_merging_step(s, events);
    assert(rest.len() > 0);
    if ends_with(t.todo, tail) {
        lemma_stays_under_way(s, events[0]);
        lemma_merging_end(t, rest, previous, home);
    } else {
        assert(t.todo =~= seq![home]);
        lemma_quiet(t, rest);
    }
}

/// Where merging cannot be switched on, no group is touched: a warning is given, and all that
/// is left is the return to a workspace.
pub proof fn law_no_groups_without_merging(s: SessionView, event: EventView)
    requires
        in_order(s),
        s.awaiting is Enabled,
        event is Failed,
    ensures
        s.respond(event).1 == RequestView::Tell(NoteView::CannotMerge(event.reason())),
        s.respond(event).0.todo == s.todo,
        s.todo.len() == 1 && is_home(s.todo[0]),
{
    reveal(SessionView::respond);
    let told = seq![StepView::Tell(NoteView::CannotMerge(event.reason()))];
    assert((told + s.todo).drop_first() =~= s.todo);
}

/// Different saved addresses lead to different windows, and all these are known.
pub open spec fn is_faithful(s: SessionView) -> bool {
    &&& task::tells_apart(s.moved)
    &&& forall|a: Seq<char>| #[trigger] s.moved.contains_key(a) ==> s.known.contains(s.moved[a])
}

proof fn lemma_address_set(clients: Seq<HyprClient>, i: int)
    requires
        0 <= i < clients.len(),
    ensures
        plan::address_set(clients).contains(clients[i].address@),
    decreases clients.len(),
{
    if i < clients.len() - 1 {
        lemma_address_set(clients.drop_last(), i);
    }
}

proof fn lemma_paired_address(
    current: Seq<HyprClient>,
    saved: Seq<HyprClient>,
    paired: Seq<Option<int>>,
    n: int,
    a: Seq<char>,
) -> (k: int)
    requires
        plan::paired_addresses(current, saved, paired, n).contains_key(a),
    ensures
        0 <= k < n,
        paired[k] is Some,
        saved[k].address@ == a,
        plan::paired_addresses(current, saved, paired, n)[a] == current[paired[k]->0].address@,
    decreases n,
{
    if n > 0 && paired[n - 1] is Some && saved[n - 1].address@ == a {
        n - 1
    } else {
        lemma_paired_address(current, saved, paired, n - 1, a)
    }
}

proof fn lemma_paired_faithful(current: Seq<HyprClient>, saved: Seq<HyprClient>)
    requires
        task::are_distinct(current),
    ensures
        ({
            let paired = reconcile::pairing(current, saved);
            let moved = plan::paired_addresses(current, saved, paired, saved.len() as int);
            &&& task::tells_apart(moved)
            &&& forall|a: Seq<char>| #[trigger]
                moved.contains_key(a) ==> plan::address_set(current).contains(moved[a])
        }),
{
    let paired = reconcile::pairing(current, saved);
    let n = saved.len() as int;
    let moved = plan::paired_addresses(current, saved, paired, n);
    assert forall|a: Seq<char>, b: Seq<char>|
        #[trigger] moved.contains_key(a) && #[trigger] moved.contains_key(b) && moved[a]
            == moved[b] implies a == b by {
        let k = lemma_paired_address(current, saved, paired, n, a);
        let l = lemma_paired_address(current, saved, paired, n, b);
        reconcile::law_pairing_is_first_match(current, saved, k);
        reconcile::law_pairing_is_first_match(current, saved, l);
        let i = paired[k]->0;
        let j = paired[l]->0;
        if i < j {
            assert(current[i].address@ != current[j].address@);
        } else if j < i {
            assert(current[j].address@ != current[i].address@);
        }
        if k < l {
            reconcile::law_window_is_used_once(current, saved, k, l);
        } else if l < k {
            reconcile::law_window_is_used_once(current, saved, l, k);
        }
    }
    assert forall|a: Seq<char>| #[trigger] moved.contains_key(a) implies plan::address_set(
        current,
    ).contains(moved[a]) by {
        let k = lemma_paired_address(current, saved, paired, n, a);
        reconcile::law_pairing_is_first_match(current, saved, k);
        lemma_address_set(current, paired[k]->0);
    }
}

proof fn lemma_placed_address(
    clients: Seq<HyprClient>,
    saved: Seq<HyprClient>,
    placed: Seq<(int, int)>,
    moved: Map<Seq<char>, Seq<char>>,
    a: Seq<char>,
) -> (p: int)
    requires
        plan::placed_addresses(clients, saved, placed, moved).contains_key(a),
    ensures
        -1 <= p < placed.len(),
        p >= 0 ==> saved[placed[p].1].address@ == a && plan::placed_addresses(
            clients,
            saved,
            placed,
            moved,
        )[a] == clients[placed[p].0].address@,
        p < 0 ==> moved.contains_key(a) && plan::placed_addresses(clients, saved, placed, moved)[a]
            == moved[a],
    decreases placed.len(),
{
    if placed.len() == 0 {
        -1
    } else if saved[placed.last().1].address@ == a {
        placed.len() - 1
    } else {
        lemma_placed_address(clients, saved, placed.drop_last(), moved, a)
    }
}

proof fn lemma_placed_faithful(s: SessionView, clients: Seq<HyprClient>)
    requires
        is_faithful(s),
    ensures
        is_faithful(s.sighted(clients)),
{
    let found = reconcile::sighting(s.saved, clients, s.pending, s.known);
    let moved = plan::placed_addresses(clients, s.saved, found.placed, s.moved);
    reconcile::law_sighting_is_sound(s.saved, clients, s.pending, s.known);
    assert forall|a: Seq<char>, b: Seq<char>|
        #[trigger] moved.contains_key(a) && #[trigger] moved.contains_key(b) && moved[a]
            == moved[b] implies a == b by {
        let p = lemma_placed_address(clients, s.saved, found.placed, s.moved, a);
        let q = lemma_placed_address(clients, s.saved, found.placed, s.moved, b);
        if p >= 0 {
            assert(!s.known.contains(clients[found.placed[p].0].address@));
        }
        if q >= 0 {
            assert(!s.known.contains(clients[found.placed[q].0].address@));
        }
        if p >= 0 && q >= 0 {
            if p < q {
                assert(clients[found.placed[p].0].address@ != clients[found.placed[q].0].address@);
            } else if q < p {
                assert(clients[found.placed[q].0].address@ != clients[found.placed[p].0].address@);
            }
        }
    }
    assert forall|a: Seq<char>| #[trigger] moved.contains_key(a) implies found.known.contains(
        moved[a],
    ) by {
        let p = lemma_placed_address(clients, s.saved, found.placed, s.moved, a);
        if p >= 0 {
            assert(found.known.contains(clients[found.placed[p].0].address@));
        }
    }
}

/// No open window stands for two saved ones, at any time, as long as no two of the windows that
/// are open at the start have the same address.
pub proof fn law_no_window_stands_for_two(s: SessionView, event: EventView)
    requires
        is_faithful(s),
        s.awaiting matches AwaitingView::Home(clients) ==> task::are_distinct(clients),
    ensures
        is_faithful(s.respond(event).0),
{
    reveal(SessionView::respond);
    match s.awaiting {
        AwaitingView::Home(clients) => {
            lemma_paired_faithful(clients, s.saved);
        },
        AwaitingView::PollWindows => {
            match event.windows() {
                Some(clients) => {
                    lemma_placed_faithful(s, clients);
                },
                None => {},
            }
        },
        _ => {},
    }
}

} // verus!
