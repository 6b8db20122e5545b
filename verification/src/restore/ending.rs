//! Why a restore comes to an end.
//!
//! Each state of a restore has a cost, which bounds how many events it can still take without
//! being told that there is time left.
use vstd::prelude::*;

use super::action::ActionView;
use super::course;
use super::groups;
use super::note::NoteView;
use super::observe;
use super::plan;
use super::plan::StepView;
use super::position;
use super::rebuild;
use super::rebuild::BuildStepView;
use super::reconcile;
use super::session;
use super::session::{AwaitingView, EventView, SessionView};
use super::task;
use super::task::GroupTaskView;
use crate::ipc::HyprClient;
use crate::numbers;

verus! {

/// The cost of putting a group of so many windows together.
pub open spec fn group_cost(n: nat) -> nat {
    15 + 23 * n
}

/// The cost of these groups, and of leaving merging as it was.
pub open spec fn tasks_cost(list: Seq<GroupTaskView>) -> nat
    decreases list.len(),
{
    if list.len() == 0 {
        1
    } else {
        tasks_cost(list.drop_last()) + group_cost(list.last().members.len())
    }
}

/// The cost of the third phase, for these groups with all their windows.
pub open spec fn groups_cost(list: Seq<Seq<HyprClient>>) -> nat
    decreases list.len(),
{
    if list.len() == 0 {
        4
    } else {
        groups_cost(list.drop_last()) + group_cost(list.last().len())
    }
}

/// The cost of what is awaited, when so many launched windows have not appeared and the third
/// phase costs so much.
pub open spec fn awaiting_cost(awaiting: AwaitingView, pending: nat, groups: nat) -> nat {
    match awaiting {
        AwaitingView::Any => 1,
        AwaitingView::Must => 1,
        AwaitingView::Build(_) => 3,
        AwaitingView::Merging(list) => 2 + tasks_cost(list),
        AwaitingView::Enabled(list, _) => 1 + tasks_cost(list),
        AwaitingView::PollClock => 1 + pending + groups,
        AwaitingView::PollWindows => 3 + 6 * pending + groups,
        AwaitingView::GroupWindows(task) => group_cost(task.members.len()),
        AwaitingView::StepWindows(step) => match step {
            BuildStepView::Dissolve(_) => 9,
            BuildStepView::StartGroup(_) => 6,
            BuildStepView::Join(_, _, _) => 6,
            _ => 4,
        },
        AwaitingView::WaitStart(_, _) => 2,
        AwaitingView::WaitClock(_, _) => 1,
        AwaitingView::WaitWindows(_, _) => 3,
        AwaitingView::WaitPause(_, _) => 2,
        _ => 0,
    }
}

/// The cost of the steps that are ahead.
pub open spec fn steps_cost(todo: Seq<StepView>, pending: nat, groups: nat) -> nat
    decreases todo.len(),
{
    if todo.len() == 0 {
        0
    } else {
        awaiting_cost(session::asked_by(todo[0]).0, pending, groups) + steps_cost(
            todo.drop_first(),
            pending,
            groups,
        )
    }
}

/// The cost of the third phase of a restore.
pub open spec fn regroup_cost(s: SessionView) -> nat {
    groups_cost(groups::planned_groups(s.saved))
}

/// The cost of a state.
pub open spec fn cost(s: SessionView) -> nat {
    awaiting_cost(s.awaiting, s.pending.len(), regroup_cost(s)) + steps_cost(
        s.todo,
        s.pending.len(),
        regroup_cost(s),
    )
}

/// The event says that there is time left, for what is waited for.
pub open spec fn is_early(s: SessionView, event: EventView) -> bool {
    match s.awaiting {
        AwaitingView::PollClock => event.within(plan::LAUNCH_TIMEOUT as nat),
        AwaitingView::WaitClock(_, ms) => event.within(ms),
        _ => false,
    }
}

/// How many events another look at the open windows takes at most.
pub open spec fn look_cost(s: SessionView) -> nat {
    3 + 5 * s.pending.len()
}

/// How many of these events say that there is time left.
pub open spec fn early_events(s: SessionView, events: Seq<EventView>) -> nat
    decreases events.len(),
{
    if events.len() == 0 {
        0
    } else {
        (if is_early(s, events[0]) {
            1nat
        } else {
            0nat
        }) + early_events(s.respond(events[0]).0, events.drop_first())
    }
}

proof fn lemma_cost_append(a: Seq<StepView>, b: Seq<StepView>, pending: nat, groups: nat)
    ensures
        steps_cost(a + b, pending, groups) == steps_cost(a, pending, groups) + steps_cost(
            b,
            pending,
            groups,
        ),
    decreases a.len(),
{
    if a.len() == 0 {
        assert(a + b =~= b);
    } else {
        lemma_cost_append(a.drop_first(), b, pending, groups);
        assert((a + b).drop_first() =~= a.drop_first() + b);
    }
}

proof fn lemma_cost_one(step: StepView, pending: nat, groups: nat)
    ensures
        steps_cost(seq![step], pending, groups) == awaiting_cost(
            session::asked_by(step).0,
            pending,
            groups,
        ),
{
    assert(seq![step].drop_first() =~= Seq::<StepView>::empty());
    assert(steps_cost(seq![step].drop_first(), pending, groups) == 0);
}

proof fn lemma_cost_fewer(todo: Seq<StepView>, fewer: nat, pending: nat, groups: nat)
    requires
        fewer <= pending,
    ensures
        steps_cost(todo, fewer, groups) <= steps_cost(todo, pending, groups),
    decreases todo.len(),
{
    if todo.len() > 0 {
        lemma_cost_fewer(todo.drop_first(), fewer, pending, groups);
    }
}

proof fn lemma_cost_proceed(u: SessionView)
    ensures
        cost(u.proceed().0) == steps_cost(u.todo, u.pending.len(), regroup_cost(u)),
        u.proceed().0.pending == u.pending,
        u.proceed().0.saved == u.saved,
{
}

/// Steps that each cost one.
spec fn is_cheap(list: Seq<StepView>) -> bool {
    forall|i: int|
        0 <= i < list.len() ==> (#[trigger] list[i]) is Tell || list[i] is Must || list[i] is Try
            || list[i] is Pause
}

proof fn lemma_cheap(list: Seq<StepView>, pending: nat, groups: nat)
    requires
        is_cheap(list),
    ensures
        steps_cost(list, pending, groups) == list.len(),
    decreases list.len(),
{
    if list.len() > 0 {
        let rest = list.drop_first();
        assert forall|i: int| 0 <= i < rest.len() implies (#[trigger] rest[i]) is Tell
            || rest[i] is Must || rest[i] is Try || rest[i] is Pause by {
            assert(rest[i] == list[i + 1]);
        }
        lemma_cheap(rest, pending, groups);
        assert(list[0] is Tell || list[0] is Must || list[0] is Try || list[0] is Pause);
    }
}

proof fn lemma_after_build_cost(todo: Seq<StepView>, pending: nat, groups: nat)
    ensures
        steps_cost(session::after_build(todo), pending, groups) <= steps_cost(
            todo,
            pending,
            groups,
        ),
    decreases todo.len(),
{
    if todo.len() > 0 && todo[0] is Build {
        lemma_after_build_cost(todo.drop_first(), pending, groups);
    }
}

proof fn lemma_group_steps_cost(
    list: Seq<GroupTaskView>,
    previous: bool,
    pending: nat,
    groups: nat,
)
    ensures
        steps_cost(plan::group_steps(list, previous), pending, groups) <= tasks_cost(list),
    decreases list.len(),
{
    let last = StepView::Try(ActionView::SetMerging(previous));
    let steps = plan::group_steps(list, previous);
    lemma_cost_one(last, pending, groups);
    if list.len() == 0 {
        assert(steps =~= seq![last]);
    } else {
        let fewer = list.drop_last();
        let before = fewer.map_values(plan::stepped());
        let step = plan::group_step(list.last());
        lemma_group_steps_cost(fewer, previous, pending, groups);
        lemma_cost_one(step, pending, groups);
        assert(plan::group_steps(fewer, previous) =~= before + seq![last]);
        assert(steps =~= (before + seq![step]) + seq![last]);
        lemma_cost_append(before, seq![last], pending, groups);
        lemma_cost_append(before + seq![step], seq![last], pending, groups);
        lemma_cost_append(before, seq![step], pending, groups);
    }
}

proof fn lemma_addresses_now_len(
    group: Seq<HyprClient>,
    moved: Map<Seq<char>, Seq<char>>,
)
    ensures
        task::addresses_now(group, moved).len() <= group.len(),
    decreases group.len(),
{
    if group.len() > 0 {
        lemma_addresses_now_len(group.drop_last(), moved);
    }
}

proof fn lemma_tasks_cost(planned: Seq<Seq<HyprClient>>, moved: Map<Seq<char>, Seq<char>>)
    ensures
        tasks_cost(planned.map_values(|g: Seq<HyprClient>| task::task_of(g, moved))) + 3
            <= groups_cost(planned),
    decreases planned.len(),
{
    let list = planned.map_values(|g: Seq<HyprClient>| task::task_of(g, moved));
    if planned.len() > 0 {
        lemma_tasks_cost(planned.drop_last(), moved);
        assert(list.drop_last() =~= planned.drop_last().map_values(
            |g: Seq<HyprClient>| task::task_of(g, moved),
        ));
        lemma_addresses_now_len(planned.last(), moved);
        assert(list.last().members.len() <= planned.last().len());
    }
}

proof fn lemma_regroup_cost(s: SessionView, pending: nat)
    ensures
        steps_cost(
            plan::regroup_steps(task::tasks_of(s.saved, s.moved)),
            pending,
            regroup_cost(s),
        ) <= regroup_cost(s),
{
    let list = task::tasks_of(s.saved, s.moved);
    let steps = plan::regroup_steps(list);
    lemma_tasks_cost(groups::planned_groups(s.saved), s.moved);
    if list.len() > 0 {
        assert(steps =~= seq![steps[0]] + seq![steps[1]]);
        lemma_cost_append(seq![steps[0]], seq![steps[1]], pending, regroup_cost(s));
        lemma_cost_one(steps[0], pending, regroup_cost(s));
        lemma_cost_one(steps[1], pending, regroup_cost(s));
    }
}

spec fn build_cost(step: BuildStepView) -> nat {
    match step {
        BuildStepView::Act(_) => 3,
        BuildStepView::Await(_, _) => 2,
        BuildStepView::Settle(_) => 1,
        BuildStepView::Dissolve(_) => 9,
        BuildStepView::StartGroup(_) => 6,
        BuildStepView::Join(_, _, _) => 6,
    }
}

spec fn builds_cost(list: Seq<BuildStepView>) -> nat
    decreases list.len(),
{
    if list.len() == 0 {
        0
    } else {
        builds_cost(list.drop_last()) + build_cost(list.last())
    }
}

proof fn lemma_builds_cost(list: Seq<BuildStepView>, pending: nat, groups: nat)
    ensures
        steps_cost(plan::builds(list), pending, groups) == builds_cost(list),
    decreases list.len(),
{
    if list.len() > 0 {
        let fewer = list.drop_last();
        let last = StepView::Build(list.last());
        lemma_builds_cost(fewer, pending, groups);
        assert(plan::builds(list) =~= plan::builds(fewer) + seq![last]);
        lemma_cost_append(plan::builds(fewer), seq![last], pending, groups);
        lemma_cost_one(last, pending, groups);
    }
}

proof fn lemma_builds_append(a: Seq<BuildStepView>, b: Seq<BuildStepView>)
    ensures
        builds_cost(a + b) == builds_cost(a) + builds_cost(b),
    decreases b.len(),
{
    if b.len() == 0 {
        assert(a + b =~= a);
    } else {
        lemma_builds_append(a, b.drop_last());
        assert((a + b).drop_last() =~= a + b.drop_last());
    }
}

proof fn lemma_five_cost(
    a: BuildStepView,
    b: BuildStepView,
    c: BuildStepView,
    d: BuildStepView,
    e: BuildStepView,
)
    ensures
        builds_cost(seq![a, b, c, d, e]) == build_cost(a) + build_cost(b) + build_cost(c)
            + build_cost(d) + build_cost(e),
{
    assert(seq![a, b, c, d, e].drop_last() =~= seq![a, b, c, d]);
    assert(seq![a, b, c, d].drop_last() =~= seq![a, b, c]);
    assert(seq![a, b, c].drop_last() =~= seq![a, b]);
    assert(seq![a, b].drop_last() =~= seq![a]);
    assert(seq![a].drop_last() =~= Seq::<BuildStepView>::empty());
    assert(builds_cost(seq![a].drop_last()) == 0);
    assert(builds_cost(seq![a]) == build_cost(a));
    assert(builds_cost(seq![a, b]) == build_cost(a) + build_cost(b));
    assert(builds_cost(seq![a, b, c]) == build_cost(a) + build_cost(b) + build_cost(c));
    assert(builds_cost(seq![a, b, c, d]) == build_cost(a) + build_cost(b) + build_cost(c)
        + build_cost(d));
    assert(seq![a, b, c, d, e].last() == e);
}

proof fn lemma_gather_cost(
    members: Seq<Seq<char>>,
    lead: Seq<char>,
    temp: Seq<char>,
    staging: Seq<char>,
)
    ensures
        builds_cost(rebuild::gather_steps(members, lead, temp, staging)) == 23 * members.len(),
    decreases members.len(),
{
    if members.len() > 0 {
        let fewer = members.drop_last();
        let these = rebuild::member_steps(members.last(), lead, temp, staging);
        lemma_gather_cost(fewer, lead, temp, staging);
        lemma_builds_append(rebuild::gather_steps(fewer, lead, temp, staging), these);
        lemma_five_cost(these[0], these[1], these[2], these[3], these[4]);
        assert(these =~= seq![these[0], these[1], these[2], these[3], these[4]]);
    }
}

proof fn lemma_rebuild_cost(members: Seq<Seq<char>>, temp_ws: int, dest: Seq<char>)
    requires
        members.len() > 0,
    ensures
        builds_cost(rebuild::rebuild_steps(members, temp_ws, dest)) == 13 + 23 * members.len(),
{
    let lead = members[0];
    let temp = numbers::decimal(temp_ws);
    let staging = numbers::decimal(temp_ws + 1);
    let start = rebuild::start_steps(lead, temp);
    let gather = rebuild::gather_steps(members.drop_first(), lead, temp, staging);
    let finish = rebuild::finish_steps(lead, dest);
    lemma_gather_cost(members.drop_first(), lead, temp, staging);
    lemma_builds_append(start, gather);
    lemma_builds_append(start + gather, finish);
    lemma_five_cost(start[0], start[1], start[2], start[3], start[4]);
    assert(start =~= seq![start[0], start[1], start[2], start[3], start[4]]);
    lemma_five_cost(finish[0], finish[1], finish[2], finish[3], finish[4]);
    assert(finish =~= seq![finish[0], finish[1], finish[2], finish[3], finish[4]]);
}

proof fn lemma_decided_cost(
    task: GroupTaskView,
    windows: Option<Seq<HyprClient>>,
    temp_ws: int,
    pending: nat,
    groups: nat,
)
    requires
        task.members.len() > 0,
    ensures
        steps_cost(plan::decided_steps(task, windows, temp_ws), pending, groups) < group_cost(
            task.members.len(),
        ),
{
    let steps = plan::decided_steps(task, windows, temp_ws);
    match observe::intact_on(windows, task.members) {
        Some(_) => {
            assert(is_cheap(steps));
            lemma_cheap(steps, pending, groups);
        },
        None => {
            let list = rebuild::rebuild_steps(task.members, temp_ws, task.dest);
            let told = seq![
                StepView::Tell(NoteView::Grouping(task.members.len(), task.label, task.place)),
            ];
            lemma_rebuild_cost(task.members, temp_ws, task.dest);
            lemma_builds_cost(list, pending, groups);
            lemma_cost_append(told, plan::builds(list), pending, groups);
            assert(is_cheap(told));
            lemma_cheap(told, pending, groups);
        },
    }
}

proof fn lemma_placed_cost(
    clients: Seq<HyprClient>,
    saved: Seq<HyprClient>,
    placed: Seq<(int, int)>,
    pending: nat,
    groups: nat,
)
    ensures
        steps_cost(plan::placed_steps(clients, saved, placed), pending, groups) <= 5 * placed.len(),
    decreases placed.len(),
{
    if placed.len() > 0 {
        let fewer = placed.drop_last();
        let c = clients[placed.last().0];
        let s = saved[placed.last().1];
        let one = plan::placed_one(c, s);
        lemma_placed_cost(clients, saved, fewer, pending, groups);
        lemma_cost_append(plan::placed_steps(clients, saved, fewer), one, pending, groups);
        assert(position::placement_actions(c, s).len() <= 4);
        assert(is_cheap(one));
        lemma_cheap(one, pending, groups);
    }
}

proof fn lemma_sighted_cost(s: SessionView, clients: Seq<HyprClient>)
    ensures
        s.sighted(clients).pending.len() <= s.pending.len(),
        steps_cost(
            s.sighted(clients).todo,
            s.sighted(clients).pending.len(),
            regroup_cost(s),
        ) <= 2 + 6 * s.pending.len() + regroup_cost(s) + steps_cost(
            s.todo,
            s.pending.len(),
            regroup_cost(s),
        ),
{
    broadcast use {
        vstd::multiset::group_multiset_axioms,
        vstd::seq_lib::group_to_multiset_ensures,
    };

    let found = reconcile::sighting(s.saved, clients, s.pending, s.known);
    let then = s.seen(clients);
    let p = found.pending.len();
    let g = regroup_cost(s);
    let placed = plan::placed_steps(clients, s.saved, found.placed);
    reconcile::law_sighting_is_sound(s.saved, clients, s.pending, s.known);
    let these = reconcile::found_windows(found.placed);
    assert(found.pending.to_multiset().len() == p);
    assert(these.to_multiset().len() == these.len());
    assert(s.pending.to_multiset().len() == s.pending.len());
    assert(p + found.placed.len() == s.pending.len());
    lemma_placed_cost(clients, s.saved, found.placed, p, g);
    lemma_cost_fewer(s.todo, p, s.pending.len(), g);
    if p == 0 {
        let steps = plan::regroup_steps(task::tasks_of(then.saved, then.moved));
        lemma_regroup_cost(then, p);
        lemma_cost_append(steps, s.todo, p, g);
        lemma_cost_append(placed, steps + s.todo, p, g);
    } else {
        let pause = StepView::Pause(plan::POLL_INTERVAL as nat);
        let again = seq![pause, StepView::Poll];
        assert(again =~= seq![pause] + seq![StepView::Poll]);
        lemma_cost_one(pause, p, g);
        lemma_cost_one(StepView::Poll, p, g);
        lemma_cost_append(seq![pause], seq![StepView::Poll], p, g);
        lemma_cost_append(again, s.todo, p, g);
        lemma_cost_append(placed, again + s.todo, p, g);
    }
}

/// Every event brings a restore closer to its end, except that one which says that there is
/// time left may cost another look at the open windows.
pub proof fn law_every_event_counts(s: SessionView, event: EventView)
    requires
        s.valid(),
        course::under_way(s),
    ensures
        ({
            let t = s.respond(event).0;
            &&& t.pending.len() <= s.pending.len()
            &&& !is_early(s, event) ==> cost(t) < cost(s)
            &&& is_early(s, event) ==> cost(t) < cost(s) + look_cost(s)
        }),
{
    reveal(SessionView::respond);
    let p = s.pending.len();
    let g = regroup_cost(s);
    match s.awaiting {
        AwaitingView::Any => {
            lemma_cost_proceed(s);
        },
        AwaitingView::Must => {
            lemma_cost_proceed(s);
        },
        AwaitingView::Build(switch) => {
            let steps = plan::abandon_steps(s.building, event.reason(), s.apart);
            assert(is_cheap(steps));
            lemma_cheap(steps, p, g);
            lemma_after_build_cost(s.todo, p, g);
            lemma_cost_append(steps, session::after_build(s.todo), p, g);
            lemma_cost_proceed(s.abandoned(event.reason()));
            lemma_cost_proceed(s.switched(switch));
        },
        AwaitingView::Enabled(list, previous) => {
            let told = seq![StepView::Tell(NoteView::CannotMerge(event.reason()))];
            lemma_tasks_cost_positive(list);
            lemma_cost_append(told, s.todo, p, g);
            lemma_cost_one(told[0], p, g);
            lemma_cost_proceed(s.first(told));
            lemma_group_steps_cost(list, previous, p, g);
            lemma_cost_append(plan::group_steps(list, previous), s.todo, p, g);
            lemma_cost_proceed(s.first(plan::group_steps(list, previous)));
        },
        AwaitingView::PollClock => {
            let list = plan::give_up_steps(s.saved, s.pending);
            let regroup = plan::regroup_steps(task::tasks_of(s.saved, s.moved));
            assert(is_cheap(list));
            lemma_cheap(list, p, g);
            lemma_regroup_cost(s, p);
            lemma_cost_append(regroup, s.todo, p, g);
            lemma_cost_append(list, regroup + s.todo, p, g);
            lemma_cost_proceed(s.given_up());
        },
        AwaitingView::PollWindows => {
            match event.windows() {
                Some(clients) => {
                    lemma_sighted_cost(s, clients);
                    lemma_cost_proceed(s.sighted(clients));
                },
                None => {},
            }
        },
        AwaitingView::GroupWindows(task) => {
            lemma_decided_cost(task, event.windows(), s.temp_ws, p, g);
            lemma_cost_append(
                plan::decided_steps(task, event.windows(), s.temp_ws),
                s.todo,
                p,
                g,
            );
            lemma_cost_proceed(s.decided(task, event.windows()));
        },
        AwaitingView::StepWindows(step) => {
            let count = match step.depends_on() {
                Some(window) => observe::count_in_group(event.windows(), window),
                None => 0,
            };
            let list = step.resolved(count);
            lemma_builds_cost(list, p, g);
            assert(builds_cost(list) < awaiting_cost(s.awaiting, p, g)) by {
                reveal_with_fuel(builds_cost, 4);
            }
            lemma_cost_append(plan::builds(list), s.todo, p, g);
            lemma_cost_proceed(s.first(plan::builds(list)));
        },
        AwaitingView::WaitClock(_, _) => {
            lemma_cost_proceed(s);
        },
        AwaitingView::WaitWindows(_, _) => {
            lemma_cost_proceed(s);
        },
        _ => {},
    }
}

proof fn lemma_tasks_cost_positive(list: Seq<GroupTaskView>)
    ensures
        tasks_cost(list) >= 1,
    decreases list.len(),
{
    if list.len() > 0 {
        lemma_tasks_cost_positive(list.drop_last());
    }
}

/// A restore ends, as long as time passes: however many events there are before it is over,
/// they are bounded by what was planned and by how often there was time left.
pub proof fn law_restore_ends(s: SessionView, events: Seq<EventView>)
    requires
        s.valid(),
        course::under_way(s),
        forall|m: int|
            1 <= m <= events.len() ==> !(#[trigger] course::asked(s, events.take(m)) is Finish),
    ensures
        events.len() <= cost(s) + look_cost(s) * early_events(s, events),
    decreases events.len(),
{
    if events.len() > 0 {
        let event = events[0];
        let (t, request) = s.respond(event);
        let rest = events.drop_first();
        let one = events.take(1);
        course::lemma_after_step(s, one);
        assert(one[0] == event);
        assert(course::asked(s, events.take(1)) == request);
        course::lemma_stays_under_way(s, event);
        session::law_state_stays_valid(s, event);
        law_every_event_counts(s, event);
        assert forall|m: int| 1 <= m <= rest.len() implies !(#[trigger] course::asked(
            t,
            rest.take(m),
        ) is Finish) by {
            let longer = events.take(m + 1);
            course::lemma_after_step(s, longer);
            assert(longer[0] == event);
            assert(longer.drop_first() =~= rest.take(m));
            assert(!(course::asked(s, events.take(m + 1)) is Finish));
        }
        law_restore_ends(t, rest);
        let k = look_cost(s);
        let l = look_cost(t);
        let n = early_events(t, rest);
        assert(l * n <= k * n) by (nonlinear_arith)
            requires
                l <= k,
        ;
        assert(k * (n + 1) == k * n + k) by (nonlinear_arith);
    }
}

} // verus!
