//! The steps of a restore, and how they follow from what is open.
use vstd::hash_map::StringHashMap;
use vstd::hash_set::StringHashSet;
use vstd::prelude::*;

use super::action;
use super::action::{Action, ActionView};
use super::launch;
use super::launch::launch_command;
use super::note::{Note, NoteView};
use super::observe;
use super::observe::existing_group_ws;
use super::position;
use super::position::restore_window_position;
use super::rebuild;
use super::rebuild::{rebuild_group, BuildStep, BuildStepView, SETTLE_TIME};
use super::reconcile;
use super::task;
use super::task::{GroupTask, GroupTaskView};
use super::workspace;
use super::workspace::{workspace_label, workspace_target};
use crate::ipc::HyprClient;

verus! {

/// A step of a restore.
#[derive(Debug)]
pub enum Step {
    /// Report this.
    Tell(Note),
    /// Show this as a desktop notification.
    Notify(String),
    /// Do this; the restore ends if it fails.
    Must(Action),
    /// Do this, whether it succeeds or not.
    Try(Action),
    /// Let so many milliseconds pass.
    Pause(u64),
    /// Start the clock.
    StartClock,
    /// See whether windows that were launched have appeared.
    Poll,
    /// Put these groups together, with merging on meanwhile.
    Regroup(Vec<GroupTask>),
    /// Put this group together.
    Group(GroupTask),
    /// Do this for the group that is being put together; the group is given up if it fails.
    Build(BuildStep),
}

/// A step by the texts in it.
pub enum StepView {
    Tell(NoteView),
    Notify(Seq<char>),
    Must(ActionView),
    Try(ActionView),
    Pause(nat),
    StartClock,
    Poll,
    Regroup(Seq<GroupTaskView>),
    Group(GroupTaskView),
    Build(BuildStepView),
}

impl View for Step {
    type V = StepView;

    open spec fn view(&self) -> StepView {
        match self {
            Step::Tell(note) => StepView::Tell(note@),
            Step::Notify(body) => StepView::Notify(body@),
            Step::Must(action) => StepView::Must(action@),
            Step::Try(action) => StepView::Try(action@),
            Step::Pause(ms) => StepView::Pause(*ms as nat),
            Step::StartClock => StepView::StartClock,
            Step::Poll => StepView::Poll,
            Step::Regroup(list) => StepView::Regroup(task::tasks(list@)),
            Step::Group(task) => StepView::Group(task@),
            Step::Build(step) => StepView::Build(step@),
        }
    }
}

/// The steps that a list holds.
pub open spec fn steps(list: Seq<Step>) -> Seq<StepView> {
    list.map_values(|s: Step| s@)
}

/// How long the launched windows are waited for, in milliseconds.
pub const LAUNCH_TIMEOUT: u64 = 15000;

/// How long to wait before looking for launched windows again, in milliseconds.
pub const POLL_INTERVAL: u64 = 250;

/// Taking over one more item: what is left, and what has been added, each behind `start`.
proof fn lemma_take_over<T, U>(start: Seq<U>, all: Seq<T>, f: spec_fn(T) -> U, n: int)
    requires
        0 <= n < all.len(),
    ensures
        all.skip(n)[0] == all[n],
        all.skip(n).skip(1) == all.skip(n + 1),
        start + all.take(n + 1).map_values(f) == (start + all.take(n).map_values(f)).push(
            f(all[n]),
        ),
{
    assert(all.skip(n).skip(1) =~= all.skip(n + 1));
    assert(start + all.take(n + 1).map_values(f) =~= (start + all.take(n).map_values(f)).push(
        f(all[n]),
    ));
}

/// Taking over begins with nothing and ends with everything.
proof fn lemma_take_over_ends<T, U>(start: Seq<U>, all: Seq<T>, f: spec_fn(T) -> U)
    ensures
        all.skip(0) == all,
        start + all.take(0).map_values(f) == start,
        all.take(all.len() as int) == all,
{
    assert(all.skip(0) =~= all);
    assert(start + all.take(0).map_values(f) =~= start);
    assert(all.take(all.len() as int) =~= all);
}

/// The step that makes an action have to succeed.
pub open spec fn must() -> spec_fn(ActionView) -> StepView {
    |a: ActionView| StepView::Must(a)
}

/// Actions that have to succeed.
pub open spec fn musts(list: Seq<ActionView>) -> Seq<StepView> {
    list.map_values(must())
}

fn push_musts(list: &mut Vec<Step>, actions: Vec<Action>)
    ensures
        steps(final(list)@) == steps(old(list)@) + musts(action::actions(actions@)),
{
    let ghost all = action::actions(actions@);
    let ghost start = steps(list@);
    let mut actions = actions;
    proof {
        lemma_take_over_ends(start, all, must());
    }
    while actions.len() > 0
        invariant
            actions@.len() <= all.len(),
            action::actions(actions@) == all.skip(all.len() - actions@.len()),
            steps(list@) == start + musts(all.take(all.len() - actions@.len())),
        decreases actions@.len(),
    {
        let ghost n = all.len() - actions@.len();
        let ghost before = steps(list@);
        let ghost left = action::actions(actions@);
        let first = actions.remove(0);
        let ghost view = first@;
        list.push(Step::Must(first));
        proof {
            assert(left[0] == view);
            assert(action::actions(actions@) =~= left.skip(1));
            assert(steps(list@) =~= before.push(StepView::Must(view)));
            lemma_take_over(start, all, must(), n);
        }
    }
    proof {
        lemma_take_over_ends(start, all, must());
    }
}

/// The step that does something for the group that is being put together.
pub open spec fn for_group() -> spec_fn(BuildStepView) -> StepView {
    |s: BuildStepView| StepView::Build(s)
}

/// Steps for the group that is being put together.
pub open spec fn builds(list: Seq<BuildStepView>) -> Seq<StepView> {
    list.map_values(for_group())
}

/// Adds steps for the group that is being put together.
pub fn push_builds(list: &mut Vec<Step>, build: Vec<BuildStep>)
    ensures
        steps(final(list)@) == steps(old(list)@) + builds(rebuild::build_steps(build@)),
{
    let ghost all = rebuild::build_steps(build@);
    let ghost start = steps(list@);
    let mut build = build;
    proof {
        lemma_take_over_ends(start, all, for_group());
    }
    while build.len() > 0
        invariant
            build@.len() <= all.len(),
            rebuild::build_steps(build@) == all.skip(all.len() - build@.len()),
            steps(list@) == start + builds(all.take(all.len() - build@.len())),
        decreases build@.len(),
    {
        let ghost n = all.len() - build@.len();
        let ghost before = steps(list@);
        let ghost left = rebuild::build_steps(build@);
        let first = build.remove(0);
        let ghost view = first@;
        list.push(Step::Build(first));
        proof {
            assert(left[0] == view);
            assert(rebuild::build_steps(build@) =~= left.skip(1));
            assert(steps(list@) =~= before.push(StepView::Build(view)));
            lemma_take_over(start, all, for_group(), n);
        }
    }
    proof {
        lemma_take_over_ends(start, all, for_group());
    }
}

/// The addresses of windows.
pub open spec fn address_set(clients: Seq<HyprClient>) -> Set<Seq<char>>
    decreases clients.len(),
{
    if clients.len() == 0 {
        Set::empty()
    } else {
        address_set(clients.drop_last()).insert(clients.last().address@)
    }
}

/// Collects the addresses of windows.
pub fn collect_addresses(clients: &[HyprClient]) -> (set: StringHashSet)
    ensures
        set@ == address_set(clients@),
{
    let mut set = StringHashSet::new();
    let mut i: usize = 0;
    proof {
        assert(clients@.take(0) =~= Seq::<HyprClient>::empty());
    }
    while i < clients.len()
        invariant
            i <= clients@.len(),
            set@ == address_set(clients@.take(i as int)),
        decreases clients@.len() - i,
    {
        set.insert(clients[i].address.clone());
        proof {
            assert(clients@.take(i + 1).drop_last() =~= clients@.take(i as int));
            assert(clients@.take(i + 1).last() == clients@[i as int]);
        }
        i = i + 1;
    }
    proof {
        assert(clients@.take(i as int) =~= clients@);
    }
    set
}

/// The saved windows, among the first `n`, that are paired with no open window.
pub open spec fn unpaired(paired: Seq<Option<int>>, n: int) -> Seq<int>
    decreases n,
{
    if n <= 0 {
        Seq::empty()
    } else if paired[n - 1] is None {
        unpaired(paired, n - 1).push(n - 1)
    } else {
        unpaired(paired, n - 1)
    }
}

/// Which address each of the first `n` saved windows has now, where it is open.
pub open spec fn paired_addresses(
    current: Seq<HyprClient>,
    saved: Seq<HyprClient>,
    paired: Seq<Option<int>>,
    n: int,
) -> Map<Seq<char>, Seq<char>>
    decreases n,
{
    if n <= 0 {
        Map::empty()
    } else {
        let before = paired_addresses(current, saved, paired, n - 1);
        match paired[n - 1] {
            Some(j) => before.insert(saved[n - 1].address@, current[j].address@),
            None => before,
        }
    }
}

/// The steps that move the open windows of the first `n` saved ones to their places.
pub open spec fn relocate_steps(
    current: Seq<HyprClient>,
    saved: Seq<HyprClient>,
    paired: Seq<Option<int>>,
    n: int,
) -> Seq<StepView>
    decreases n,
{
    if n <= 0 {
        Seq::empty()
    } else {
        let before = relocate_steps(current, saved, paired, n - 1);
        match paired[n - 1] {
            Some(j) => before + relocate_one(current[j], saved[n - 1]),
            None => before,
        }
    }
}

/// The steps that move an open window to the place of a saved one.
pub open spec fn relocate_one(current: HyprClient, saved: HyprClient) -> Seq<StepView> {
    seq![
        StepView::Tell(
            NoteView::Moving(current.class@, "workspace "@ + workspace::selector(saved.workspace)),
        ),
    ] + musts(position::placement_actions(current, saved))
}

/// What the first phase of a restore finds out and decides.
pub struct Relocation {
    pub steps: Vec<Step>,
    pub missing: Vec<usize>,
    pub moved: StringHashMap<String>,
}

/// Works out the first phase: which saved windows are open and how they get to their places,
/// and which are missing.
pub fn relocate(current: &[HyprClient], saved: &[HyprClient]) -> (result: Relocation)
    ensures
        ({
            let paired = reconcile::pairing(current@, saved@);
            let n = saved@.len() as int;
            &&& steps(result.steps@) == relocate_steps(current@, saved@, paired, n)
            &&& reconcile::indices(result.missing@) == unpaired(paired, n)
            &&& task::addresses(result.moved@) == paired_addresses(current@, saved@, paired, n)
        }),
{
    let pairs = super::reconcile::reconcile(current, saved);
    let ghost paired = reconcile::pairing(current@, saved@);
    let mut list: Vec<Step> = Vec::new();
    let mut missing: Vec<usize> = Vec::new();
    let mut moved: StringHashMap<String> = StringHashMap::new();
    let mut k: usize = 0;
    proof {
        assert(reconcile::opt_indices(pairs@).len() == pairs@.len());
        reconcile::lemma_pairing_len(current@, saved@);
        assert(steps(list@) =~= Seq::<StepView>::empty());
        assert(reconcile::indices(missing@) =~= Seq::<int>::empty());
        assert(task::addresses(moved@) =~= Map::<Seq<char>, Seq<char>>::empty());
    }
    while k < saved.len()
        invariant
            k <= saved@.len(),
            pairs@.len() == saved@.len(),
            reconcile::opt_indices(pairs@) == paired,
            forall|k: int|
                0 <= k < pairs@.len() && (#[trigger] pairs@[k]) is Some ==> pairs@[k]->0
                    < current@.len(),
            steps(list@) == relocate_steps(current@, saved@, paired, k as int),
            reconcile::indices(missing@) == unpaired(paired, k as int),
            task::addresses(moved@) == paired_addresses(current@, saved@, paired, k as int),
        decreases saved@.len() - k,
    {
        proof {
            assert(paired[k as int] == reconcile::opt_index(pairs@[k as int]));
        }
        match pairs[k] {
            Some(j) => {
                let ghost before = steps(list@);
                let ghost moved_before = task::addresses(moved@);
                list.push(
                    Step::Tell(
                        Note::Moving(current[j].class.clone(), workspace_label(&saved[k].workspace)),
                    ),
                );
                let ghost told = steps(list@);
                push_musts(&mut list, restore_window_position(&current[j], &saved[k]));
                moved.insert(saved[k].address.clone(), current[j].address.clone());
                proof {
                    let one = relocate_one(current@[j as int], saved@[k as int]);
                    assert(told =~= before.push(one[0]));
                    assert(steps(list@) =~= before + one);
                    assert(task::addresses(moved@) =~= moved_before.insert(
                        saved@[k as int].address@,
                        current@[j as int].address@,
                    ));
                }
            },
            None => {
                let ghost before = reconcile::indices(missing@);
                missing.push(k);
                proof {
                    assert(reconcile::indices(missing@) =~= before.push(k as int));
                }
            },
        }
        k = k + 1;
    }
    Relocation { steps: list, missing, moved }
}

/// The steps that launch one saved window.
pub open spec fn launch_one(saved: HyprClient) -> Seq<StepView> {
    seq![
        StepView::Tell(NoteView::Launching(launch::launch_line(saved))),
        StepView::Notify("Launching "@ + saved.class@ + "..."@),
        StepView::Try(
            ActionView::Exec(launch::launch_line(saved), workspace::selector(saved.workspace)),
        ),
    ]
}

/// The steps that launch the saved windows with these indices.
pub open spec fn launch_steps(saved: Seq<HyprClient>, missing: Seq<int>) -> Seq<StepView>
    decreases missing.len(),
{
    if missing.len() == 0 {
        Seq::empty()
    } else {
        launch_steps(saved, missing.drop_last()) + launch_one(saved[missing.last()])
    }
}

/// Fire-and-forget launch of a missing window onto its saved workspace.
pub fn launch_app(saved: &HyprClient, list: &mut Vec<Step>)
    ensures
        steps(final(list)@) == steps(old(list)@) + launch_one(*saved),
{
    let ghost before = steps(list@);
    let line = launch_command(saved);
    list.push(Step::Tell(Note::Launching(line.clone())));
    let mut body = "Launching ".to_owned();
    body.append(saved.class.as_str());
    body.append("...");
    list.push(Step::Notify(body));
    list.push(Step::Try(Action::Exec(line, workspace_target(&saved.workspace))));
    proof {
        assert(steps(list@) =~= before + launch_one(*saved));
    }
}

/// Adds the steps that launch the missing windows.
pub fn launch_missing(saved: &[HyprClient], missing: &Vec<usize>, list: &mut Vec<Step>)
    requires
        forall|k: int| 0 <= k < missing@.len() ==> #[trigger] missing@[k] < saved@.len(),
    ensures
        steps(final(list)@) == steps(old(list)@) + launch_steps(
            saved@,
            reconcile::indices(missing@),
        ),
{
    let ghost start = steps(list@);
    let ghost all = reconcile::indices(missing@);
    let mut i: usize = 0;
    proof {
        assert(all.take(0) =~= Seq::<int>::empty());
        assert(start + Seq::<StepView>::empty() =~= start);
    }
    while i < missing.len()
        invariant
            i <= missing@.len(),
            all == reconcile::indices(missing@),
            forall|k: int| 0 <= k < missing@.len() ==> #[trigger] missing@[k] < saved@.len(),
            steps(list@) == start + launch_steps(saved@, all.take(i as int)),
        decreases missing@.len() - i,
    {
        let ghost before = steps(list@);
        launch_app(&saved[missing[i]], list);
        proof {
            assert(all.take(i + 1).drop_last() =~= all.take(i as int));
            assert(all.take(i + 1).last() == missing@[i as int]);
            assert(start + launch_steps(saved@, all.take(i + 1)) =~= before + launch_one(
                saved@[missing@[i as int] as int],
            ));
        }
        i = i + 1;
    }
    proof {
        assert(all.take(i as int) =~= all);
    }
}

/// The steps that position the windows which have appeared.
pub open spec fn placed_steps(
    clients: Seq<HyprClient>,
    saved: Seq<HyprClient>,
    placed: Seq<(int, int)>,
) -> Seq<StepView>
    decreases placed.len(),
{
    if placed.len() == 0 {
        Seq::empty()
    } else {
        placed_steps(clients, saved, placed.drop_last()) + placed_one(
            clients[placed.last().0],
            saved[placed.last().1],
        )
    }
}

/// The steps that position one window which has appeared.
pub open spec fn placed_one(client: HyprClient, saved: HyprClient) -> Seq<StepView> {
    seq![StepView::Tell(NoteView::Positioned(client.class@))] + musts(
        position::placement_actions(client, saved),
    )
}

/// Which address each saved window has now, with those that have appeared.
pub open spec fn placed_addresses(
    clients: Seq<HyprClient>,
    saved: Seq<HyprClient>,
    placed: Seq<(int, int)>,
    moved: Map<Seq<char>, Seq<char>>,
) -> Map<Seq<char>, Seq<char>>
    decreases placed.len(),
{
    if placed.len() == 0 {
        moved
    } else {
        placed_addresses(clients, saved, placed.drop_last(), moved).insert(
            saved[placed.last().1].address@,
            clients[placed.last().0].address@,
        )
    }
}

/// Works out how the windows that have appeared get to their places, and records where they
/// are.
pub fn place(
    clients: &[HyprClient],
    saved: &[HyprClient],
    placed: &Vec<(usize, usize)>,
    moved: &mut StringHashMap<String>,
) -> (list: Vec<Step>)
    requires
        forall|k: int|
            0 <= k < placed@.len() ==> (#[trigger] placed@[k]).0 < clients@.len() && placed@[k].1
                < saved@.len(),
    ensures
        steps(list@) == placed_steps(clients@, saved@, reconcile::index_pairs(placed@)),
        task::addresses(final(moved)@) == placed_addresses(
            clients@,
            saved@,
            reconcile::index_pairs(placed@),
            task::addresses(old(moved)@),
        ),
{
    let ghost all = reconcile::index_pairs(placed@);
    let ghost start = task::addresses(moved@);
    let mut list: Vec<Step> = Vec::new();
    let mut i: usize = 0;
    proof {
        assert(all.take(0) =~= Seq::<(int, int)>::empty());
        assert(steps(list@) =~= Seq::<StepView>::empty());
    }
    while i < placed.len()
        invariant
            i <= placed@.len(),
            all == reconcile::index_pairs(placed@),
            forall|k: int|
                0 <= k < placed@.len() ==> (#[trigger] placed@[k]).0 < clients@.len()
                    && placed@[k].1 < saved@.len(),
            steps(list@) == placed_steps(clients@, saved@, all.take(i as int)),
            task::addresses(moved@) == placed_addresses(
                clients@,
                saved@,
                all.take(i as int),
                start,
            ),
        decreases placed@.len() - i,
    {
        let pair = placed[i];
        let c: usize = pair.0;
        let s: usize = pair.1;
        proof {
            assert(placed@[i as int] == pair);
            assert(all.take(i + 1).drop_last() =~= all.take(i as int));
            assert(all.take(i + 1).last() == (c as int, s as int));
        }
        let ghost before = steps(list@);
        let ghost moved_before = task::addresses(moved@);
        list.push(Step::Tell(Note::Positioned(clients[c].class.clone())));
        let ghost told = steps(list@);
        push_musts(&mut list, restore_window_position(&clients[c], &saved[s]));
        moved.insert(saved[s].address.clone(), clients[c].address.clone());
        proof {
            let one = placed_one(clients@[c as int], saved@[s as int]);
            assert(told =~= before.push(one[0]));
            assert(steps(list@) =~= before + one);
            assert(task::addresses(moved@) =~= moved_before.insert(
                saved@[s as int].address@,
                clients@[c as int].address@,
            ));
        }
        i = i + 1;
    }
    proof {
        assert(all.take(i as int) =~= all);
    }
    list
}

/// The warnings about windows that have not appeared.
pub open spec fn give_up_steps(saved: Seq<HyprClient>, pending: Seq<int>) -> Seq<StepView> {
    pending.map_values(|k: int| StepView::Tell(NoteView::GaveUp(saved[k].class@)))
}

/// Warns about the windows that have not appeared.
pub fn give_up(saved: &[HyprClient], pending: &Vec<usize>) -> (list: Vec<Step>)
    requires
        forall|k: int| 0 <= k < pending@.len() ==> #[trigger] pending@[k] < saved@.len(),
    ensures
        steps(list@) == give_up_steps(saved@, reconcile::indices(pending@)),
{
    let ghost wanted = give_up_steps(saved@, reconcile::indices(pending@));
    let mut list: Vec<Step> = Vec::new();
    let mut i: usize = 0;
    proof {
        assert(steps(list@) =~= wanted.take(0));
    }
    while i < pending.len()
        invariant
            i <= pending@.len(),
            wanted == give_up_steps(saved@, reconcile::indices(pending@)),
            forall|k: int| 0 <= k < pending@.len() ==> #[trigger] pending@[k] < saved@.len(),
            steps(list@) == wanted.take(i as int),
        decreases pending@.len() - i,
    {
        let ghost before = steps(list@);
        let k: usize = pending[i];
        list.push(Step::Tell(Note::GaveUp(saved[k].class.clone())));
        proof {
            assert(reconcile::indices(pending@)[i as int] == k);
            assert(steps(list@) =~= before.push(wanted[i as int]));
            assert(wanted.take(i + 1) =~= wanted.take(i as int).push(wanted[i as int]));
        }
        i = i + 1;
    }
    proof {
        assert(wanted.take(i as int) =~= wanted);
    }
    list
}

/// The steps of the third phase: none where the session has no groups.
pub open spec fn regroup_steps(list: Seq<GroupTaskView>) -> Seq<StepView> {
    if list.len() == 0 {
        Seq::empty()
    } else {
        seq![StepView::Tell(NoteView::Rebuilding(list.len())), StepView::Regroup(list)]
    }
}

/// The steps of the third phase.
pub fn regroup(list: Vec<GroupTask>) -> (result: Vec<Step>)
    ensures
        steps(result@) == regroup_steps(task::tasks(list@)),
{
    let mut result: Vec<Step> = Vec::new();
    let ghost wanted = regroup_steps(task::tasks(list@));
    if list.len() > 0 {
        result.push(Step::Tell(Note::Rebuilding(list.len())));
        result.push(Step::Regroup(list));
    }
    proof {
        assert(steps(result@) =~= wanted);
    }
    result
}

/// The step for one group: it is put together, where at least two of its windows are open.
pub open spec fn group_step(task: GroupTaskView) -> StepView {
    if task.members.len() < 2 {
        StepView::Tell(NoteView::TooFew(task.label))
    } else {
        StepView::Group(task)
    }
}

/// The step for a group, as a function.
pub open spec fn stepped() -> spec_fn(GroupTaskView) -> StepView {
    |t: GroupTaskView| group_step(t)
}

/// The steps once merging is on: each group in turn, and then merging as it was.
pub open spec fn group_steps(list: Seq<GroupTaskView>, previous: bool) -> Seq<StepView> {
    list.map_values(stepped()).push(StepView::Try(ActionView::SetMerging(previous)))
}

/// The steps once merging is on.
pub fn restore_groups(list: Vec<GroupTask>, previous: bool) -> (result: Vec<Step>)
    ensures
        steps(result@) == group_steps(task::tasks(list@), previous),
{
    let ghost all = task::tasks(list@);
    let ghost start = Seq::<StepView>::empty();
    let mut list = list;
    let mut result: Vec<Step> = Vec::new();
    proof {
        lemma_take_over_ends(start, all, stepped());
        assert(steps(result@) =~= start);
    }
    while list.len() > 0
        invariant
            list@.len() <= all.len(),
            task::tasks(list@) == all.skip(all.len() - list@.len()),
            steps(result@) == start + all.take(all.len() - list@.len()).map_values(stepped()),
        decreases list@.len(),
    {
        let ghost n = all.len() - list@.len();
        let ghost before = steps(result@);
        let ghost left = task::tasks(list@);
        let first = list.remove(0);
        let ghost view = first@;
        if first.members.len() < 2 {
            result.push(Step::Tell(Note::TooFew(first.label)));
        } else {
            result.push(Step::Group(first));
        }
        proof {
            assert(left[0] == view);
            assert(task::tasks(list@) =~= left.skip(1));
            assert(steps(result@) =~= before.push(group_step(view)));
            lemma_take_over(start, all, stepped(), n);
        }
    }
    let ghost grouped = steps(result@);
    result.push(Step::Try(Action::SetMerging(previous)));
    proof {
        lemma_take_over_ends(start, all, stepped());
        assert(start + all.map_values(stepped()) =~= all.map_values(stepped()));
        assert(steps(result@) =~= grouped.push(StepView::Try(ActionView::SetMerging(previous))));
    }
    result
}

/// What is done when a group is given up: a warning, and merging is switched on again where the
/// group had switched it off.
pub open spec fn abandon_steps(label: Seq<char>, reason: Seq<char>, apart: bool) -> Seq<StepView> {
    if apart {
        seq![
            StepView::Tell(NoteView::RebuildFailed(label, reason)),
            StepView::Try(ActionView::SetMerging(true)),
        ]
    } else {
        seq![StepView::Tell(NoteView::RebuildFailed(label, reason))]
    }
}

/// Gives up the group with this label, for this reason. `apart` tells whether the group had
/// switched merging off.
pub fn abandon(label: String, reason: String, apart: bool) -> (list: Vec<Step>)
    ensures
        steps(list@) == abandon_steps(label@, reason@, apart),
{
    let mut list: Vec<Step> = Vec::new();
    let ghost wanted = abandon_steps(label@, reason@, apart);
    list.push(Step::Tell(Note::RebuildFailed(label, reason)));
    if apart {
        list.push(Step::Try(Action::SetMerging(true)));
    }
    proof {
        assert(steps(list@) =~= wanted);
    }
    list
}

/// The steps that an intact group takes to its place: moving one window drags all of it.
pub open spec fn move_group_steps(task: GroupTaskView) -> Seq<StepView> {
    seq![
        StepView::Tell(NoteView::Relocated(task.label, task.place)),
        StepView::Try(ActionView::SetMerging(false)),
        StepView::Try(ActionView::FocusWindow(task.members[0])),
        StepView::Try(ActionView::MoveToWorkspace(task.members[0], task.dest)),
        StepView::Pause(SETTLE_TIME as nat),
        StepView::Try(ActionView::SetMerging(true)),
    ]
}

/// A group that is intact where it belongs is left alone; one that is intact elsewhere is
/// moved; any other is put together anew.
pub open spec fn decided_steps(
    task: GroupTaskView,
    windows: Option<Seq<HyprClient>>,
    temp_ws: int,
) -> Seq<StepView> {
    match observe::intact_on(windows, task.members) {
        Some(on) => if on == task.dest {
            seq![StepView::Tell(NoteView::Intact(task.label, task.place))]
        } else {
            move_group_steps(task)
        },
        None => seq![
            StepView::Tell(NoteView::Grouping(task.members.len(), task.label, task.place)),
        ] + builds(rebuild::rebuild_steps(task.members, temp_ws, task.dest)),
    }
}

/// Decides what becomes of a group. The second part of the result is whether it is put
/// together anew, on workspace `temp_ws`.
pub fn decide_group(task: &GroupTask, windows: Option<&Vec<HyprClient>>, temp_ws: i32) -> (result: (
    Vec<Step>,
    bool,
))
    requires
        task.members@.len() > 0,
        temp_ws < i32::MAX,
    ensures
        steps(result.0@) == decided_steps(
            task@,
            observe::read_windows(windows),
            temp_ws as int,
        ),
        result.1 == observe::intact_on(observe::read_windows(windows), task@.members) is None,
{
    let mut list: Vec<Step> = Vec::new();
    let ghost wanted = decided_steps(task@, observe::read_windows(windows), temp_ws as int);
    proof {
        assert(task@.members[0] == task.members@[0]@);
    }
    match existing_group_ws(windows, &task.members) {
        Some(on) => {
            if on == task.dest {
                list.push(Step::Tell(Note::Intact(task.label.clone(), task.place.clone())));
            } else {
                let lead = &task.members[0];
                list.push(Step::Tell(Note::Relocated(task.label.clone(), task.place.clone())));
                list.push(Step::Try(Action::SetMerging(false)));
                list.push(Step::Try(Action::FocusWindow(lead.clone())));
                list.push(Step::Try(Action::MoveToWorkspace(lead.clone(), task.dest.clone())));
                list.push(Step::Pause(SETTLE_TIME));
                list.push(Step::Try(Action::SetMerging(true)));
            }
            proof {
                assert(steps(list@) =~= wanted);
            }
            (list, false)
        },
        None => {
            list.push(
                Step::Tell(
                    Note::Grouping(task.members.len(), task.label.clone(), task.place.clone()),
                ),
            );
            let ghost told = steps(list@);
            push_builds(&mut list, rebuild_group(&task.members, temp_ws, task.dest.as_str()));
            proof {
                assert(told =~= seq![
                    StepView::Tell(
                        NoteView::Grouping(task@.members.len(), task@.label, task@.place),
                    ),
                ]);
                assert(steps(list@) =~= wanted);
            }
            (list, true)
        },
    }
}

proof fn lemma_paired_addresses(
    current: Seq<HyprClient>,
    saved: Seq<HyprClient>,
    paired: Seq<Option<int>>,
    n: int,
    k: int,
)
    requires
        0 <= k < n,
        paired[k] is Some,
        forall|l: int|
            k < l < n && paired[l] is Some ==> (#[trigger] saved[l]).address@ != saved[k].address@,
    ensures
        paired_addresses(current, saved, paired, n).contains_key(saved[k].address@),
        paired_addresses(current, saved, paired, n)[saved[k].address@]
            == current[paired[k]->0].address@,
    decreases n,
{
    if k < n - 1 {
        lemma_paired_addresses(current, saved, paired, n - 1, k);
        assert(paired[n - 1] is Some ==> saved[n - 1].address@ != saved[k].address@);
    }
}

/// A saved window that is open leads to the window that it was paired with, by its saved
/// address, unless a later one was saved under the same address and is open too.
pub proof fn law_saved_address_leads_to_open_window(
    current: Seq<HyprClient>,
    saved: Seq<HyprClient>,
    k: int,
)
    requires
        0 <= k < saved.len(),
        reconcile::pairing(current, saved)[k] is Some,
        forall|l: int|
            k < l < saved.len() && reconcile::pairing(current, saved)[l] is Some ==> (
            #[trigger] saved[l]).address@ != saved[k].address@,
    ensures
        ({
            let paired = reconcile::pairing(current, saved);
            let moved = paired_addresses(current, saved, paired, saved.len() as int);
            &&& moved.contains_key(saved[k].address@)
            &&& moved[saved[k].address@] == current[paired[k]->0].address@
        }),
{
    lemma_paired_addresses(
        current,
        saved,
        reconcile::pairing(current, saved),
        saved.len() as int,
        k,
    );
}

proof fn lemma_placed_window(
    clients: Seq<HyprClient>,
    saved: Seq<HyprClient>,
    placed: Seq<(int, int)>,
    moved: Map<Seq<char>, Seq<char>>,
    p: int,
)
    requires
        0 <= p < placed.len(),
        forall|q: int|
            p < q < placed.len() ==> saved[(#[trigger] placed[q]).1].address@
                != saved[placed[p].1].address@,
    ensures
        placed_addresses(clients, saved, placed, moved).contains_key(saved[placed[p].1].address@),
        placed_addresses(clients, saved, placed, moved)[saved[placed[p].1].address@]
            == clients[placed[p].0].address@,
    decreases placed.len(),
{
    let last = placed.len() - 1;
    if p < last {
        let fewer = placed.drop_last();
        assert(saved[placed[last].1].address@ != saved[placed[p].1].address@);
        assert(fewer[p] == placed[p]);
        assert forall|q: int| p < q < fewer.len() implies saved[(#[trigger] fewer[q]).1].address@
            != saved[fewer[p].1].address@ by {
            assert(fewer[q] == placed[q]);
        }
        lemma_placed_window(clients, saved, fewer, moved, p);
    }
}

proof fn lemma_placed_nothing(
    clients: Seq<HyprClient>,
    saved: Seq<HyprClient>,
    placed: Seq<(int, int)>,
    moved: Map<Seq<char>, Seq<char>>,
    address: Seq<char>,
)
    requires
        forall|q: int|
            0 <= q < placed.len() ==> saved[(#[trigger] placed[q]).1].address@ != address,
    ensures
        placed_addresses(clients, saved, placed, moved).contains_key(address)
            == moved.contains_key(address),
        placed_addresses(clients, saved, placed, moved)[address] == moved[address],
    decreases placed.len(),
{
    if placed.len() > 0 {
        let fewer = placed.drop_last();
        assert(saved[placed[placed.len() - 1].1].address@ != address);
        assert forall|q: int| 0 <= q < fewer.len() implies saved[(#[trigger] fewer[q]).1].address@
            != address by {
            assert(fewer[q] == placed[q]);
        }
        lemma_placed_nothing(clients, saved, fewer, moved, address);
    }
}

/// A saved window that has appeared leads to the window that was taken for it, by its saved
/// address, unless a later one was saved under the same address and has appeared too. Saved
/// addresses of other windows lead where they led before.
pub proof fn law_saved_address_leads_to_launched_window(
    clients: Seq<HyprClient>,
    saved: Seq<HyprClient>,
    placed: Seq<(int, int)>,
    moved: Map<Seq<char>, Seq<char>>,
)
    ensures
        forall|p: int|
            0 <= p < placed.len() && (forall|q: int|
                p < q < placed.len() ==> saved[(#[trigger] placed[q]).1].address@
                    != saved[placed[p].1].address@) ==> placed_addresses(
                clients,
                saved,
                placed,
                moved,
            ).contains_key(saved[(#[trigger] placed[p]).1].address@) && placed_addresses(
                clients,
                saved,
                placed,
                moved,
            )[saved[placed[p].1].address@] == clients[placed[p].0].address@,
        forall|address: Seq<char>|
            (forall|q: int|
                0 <= q < placed.len() ==> saved[(#[trigger] placed[q]).1].address@ != address) ==> (
            #[trigger] placed_addresses(clients, saved, placed, moved).contains_key(address)
                == moved.contains_key(address)) && placed_addresses(clients, saved, placed, moved)[
                address] == moved[address],
{
    let after = placed_addresses(clients, saved, placed, moved);
    assert forall|p: int|
        0 <= p < placed.len() && (forall|q: int|
            p < q < placed.len() ==> saved[(#[trigger] placed[q]).1].address@
                != saved[placed[p].1].address@) implies after.contains_key(
        saved[(#[trigger] placed[p]).1].address@,
    ) && after[saved[placed[p].1].address@] == clients[placed[p].0].address@ by {
        lemma_placed_window(clients, saved, placed, moved, p);
    }
    assert forall|address: Seq<char>|
        (forall|q: int|
            0 <= q < placed.len() ==> saved[(#[trigger] placed[q]).1].address@ != address) implies (
    #[trigger] after.contains_key(address) == moved.contains_key(address)) && after[address]
        == moved[address] by {
        lemma_placed_nothing(clients, saved, placed, moved, address);
    }
}

/// How long launched windows are waited for, and how often they are looked for.
pub proof fn law_launch_times()
    ensures
        LAUNCH_TIMEOUT == 15000,
        POLL_INTERVAL == 250,
{
}

/// A step shows what is in it as it is.
pub proof fn law_steps_are_shown(
    note: Note,
    body: String,
    action: Action,
    ms: u64,
    groups: Vec<GroupTask>,
    group: GroupTask,
    build: BuildStep,
    list: Seq<Step>,
    i: int,
)
    ensures
        Step::Tell(note)@ == StepView::Tell(note@),
        Step::Notify(body)@ == StepView::Notify(body@),
        Step::Must(action)@ == StepView::Must(action@),
        Step::Try(action)@ == StepView::Try(action@),
        Step::Pause(ms)@ == StepView::Pause(ms as nat),
        Step::StartClock@ == StepView::StartClock,
        Step::Poll@ == StepView::Poll,
        Step::Regroup(groups)@ == StepView::Regroup(task::tasks(groups@)),
        Step::Group(group)@ == StepView::Group(group@),
        Step::Build(build)@ == StepView::Build(build@),
        steps(list).len() == list.len(),
        0 <= i < list.len() ==> steps(list)[i] == list[i]@,
{
}

/// Actions become steps one by one, in order: those on windows must succeed, and those for a group
/// are its own.
pub proof fn law_actions_become_steps(
    actions: Seq<ActionView>,
    list: Seq<BuildStepView>,
    i: int,
)
    ensures
        musts(actions).len() == actions.len(),
        0 <= i < actions.len() ==> musts(actions)[i] == StepView::Must(actions[i]),
        builds(list).len() == list.len(),
        0 <= i < list.len() ==> builds(list)[i] == StepView::Build(list[i]),
{
}

/// The addresses of windows are those that some window has.
pub proof fn law_addresses_are_collected(clients: Seq<HyprClient>, address: Seq<char>)
    ensures
        address_set(clients).contains(address) <==> exists|i: int|
            0 <= i < clients.len() && (#[trigger] clients[i]).address@ == address,
    decreases clients.len(),
{
    if clients.len() > 0 {
        let fewer = clients.drop_last();
        law_addresses_are_collected(fewer, address);
        if address_set(fewer).contains(address) {
            let i = choose|i: int| 0 <= i < fewer.len() && (#[trigger] fewer[i]).address@ == address;
            assert(clients[i].address@ == address);
        }
        if clients.last().address@ == address {
            assert(clients[clients.len() - 1].address@ == address);
        }
        if exists|i: int| 0 <= i < clients.len() && (#[trigger] clients[i]).address@ == address {
            let i = choose|i: int|
                0 <= i < clients.len() && (#[trigger] clients[i]).address@ == address;
            if i < fewer.len() {
                assert(fewer[i].address@ == address);
            }
        }
    }
}

/// The missing windows are exactly those that are paired with none, in their order.
pub proof fn law_missing_windows(paired: Seq<Option<int>>, n: int)
    requires
        0 <= n <= paired.len(),
    ensures
        forall|k: int| #[trigger]
            unpaired(paired, n).contains(k) <==> 0 <= k < n && paired[k] is None,
        forall|a: int, b: int|
            0 <= a < b < unpaired(paired, n).len() ==> unpaired(paired, n)[a] < unpaired(
                paired,
                n,
            )[b],
    decreases n,
{
    if n > 0 {
        law_missing_windows(paired, n - 1);
        let before = unpaired(paired, n - 1);
        let after = unpaired(paired, n);
        assert forall|k: int| #[trigger] after.contains(k) <==> 0 <= k < n && paired[k] is None by {
            assert(before.contains(k) <==> 0 <= k < n - 1 && paired[k] is None);
            if before.contains(k) {
                let i = choose|i: int| 0 <= i < before.len() && before[i] == k;
                assert(after[i] == k);
            }
            if after.contains(k) {
                let i = choose|i: int| 0 <= i < after.len() && after[i] == k;
                if i < before.len() {
                    assert(before[i] == k);
                }
            }
            if paired[n - 1] is None {
                assert(after[before.len() as int] == n - 1);
            }
        }
        assert forall|a: int, b: int| 0 <= a < b < after.len() implies after[a] < after[b] by {
            if b == before.len() {
                assert(before.contains(before[a]));
            }
        }
    }
}

/// Only the addresses of saved windows that are paired with an open one lead anywhere.
pub proof fn law_only_open_windows_are_recorded(
    current: Seq<HyprClient>,
    saved: Seq<HyprClient>,
    paired: Seq<Option<int>>,
    n: int,
    address: Seq<char>,
)
    requires
        paired_addresses(current, saved, paired, n).contains_key(address),
    ensures
        exists|k: int|
            0 <= k < n && paired[k] is Some && (#[trigger] saved[k]).address@ == address,
    decreases n,
{
    if n > 0 {
        if paired[n - 1] is Some && saved[n - 1].address@ == address {
        } else {
            law_only_open_windows_are_recorded(current, saved, paired, n - 1, address);
        }
    }
}

/// The first phase, window by window: one that is paired is told about and moved to its place,
/// behind what is done for those before it; for any other nothing is done.
pub proof fn law_first_phase(
    current: Seq<HyprClient>,
    saved: Seq<HyprClient>,
    paired: Seq<Option<int>>,
    k: int,
    i: int,
)
    requires
        0 <= k,
    ensures
        ({
            let before = relocate_steps(current, saved, paired, k);
            let after = relocate_steps(current, saved, paired, k + 1);
            &&& relocate_steps(current, saved, paired, 0).len() == 0
            &&& paired[k] is None ==> after == before
            &&& paired[k] is Some ==> {
                let actions = position::placement_actions(current[paired[k]->0], saved[k]);
                &&& after.len() == before.len() + 1 + actions.len()
                &&& 0 <= i < before.len() ==> after[i] == before[i]
                &&& after[before.len() as int] == StepView::Tell(
                    NoteView::Moving(
                        current[paired[k]->0].class@,
                        "workspace "@ + workspace::selector(saved[k].workspace),
                    ),
                )
                &&& 0 <= i < actions.len() ==> after[before.len() + 1 + i] == StepView::Must(
                    actions[i],
                )
            }
        }),
{
}

/// Launching the windows of two lists is launching those of the first and then those of the
/// second. One window is told about, shown, and launched on its saved workspace, whether that
/// succeeds or not.
pub proof fn law_windows_are_launched(saved: Seq<HyprClient>, a: Seq<int>, b: Seq<int>, k: int)
    ensures
        launch_steps(saved, a + b) == launch_steps(saved, a) + launch_steps(saved, b),
        launch_steps(saved, Seq::empty()).len() == 0,
        launch_steps(saved, seq![k]) == seq![
            StepView::Tell(NoteView::Launching(launch::launch_line(saved[k]))),
            StepView::Notify("Launching "@ + saved[k].class@ + "..."@),
            StepView::Try(
                ActionView::Exec(
                    launch::launch_line(saved[k]),
                    workspace::selector(saved[k].workspace),
                ),
            ),
        ],
        launch_one(saved[k]) == launch_steps(saved, seq![k]),
    decreases b.len(),
{
    let none = Seq::<int>::empty();
    assert(seq![k].drop_last() =~= none);
    assert(launch_steps(saved, none) =~= Seq::<StepView>::empty());
    assert(launch_steps(saved, seq![k]) =~= launch_one(saved[k]));
    if b.len() == 0 {
        assert(a + b =~= a);
        assert(launch_steps(saved, a) + launch_steps(saved, b) =~= launch_steps(saved, a));
    } else {
        law_windows_are_launched(saved, a, b.drop_last(), k);
        assert((a + b).drop_last() =~= a + b.drop_last());
        assert((a + b).last() == b.last());
        assert(launch_steps(saved, a + b) =~= launch_steps(saved, a) + launch_steps(saved, b));
    }
}

/// Positioning two lists of windows that have appeared is positioning the first and then the
/// second. One window is told about and moved to its place.
pub proof fn law_windows_are_positioned(
    clients: Seq<HyprClient>,
    saved: Seq<HyprClient>,
    a: Seq<(int, int)>,
    b: Seq<(int, int)>,
    c: int,
    s: int,
    i: int,
)
    ensures
        placed_steps(clients, saved, a + b) == placed_steps(clients, saved, a) + placed_steps(
            clients,
            saved,
            b,
        ),
        placed_steps(clients, saved, Seq::empty()).len() == 0,
        ({
            let one = placed_steps(clients, saved, seq![(c, s)]);
            let actions = position::placement_actions(clients[c], saved[s]);
            &&& one.len() == 1 + actions.len()
            &&& one[0] == StepView::Tell(NoteView::Positioned(clients[c].class@))
            &&& 0 <= i < actions.len() ==> one[1 + i] == StepView::Must(actions[i])
        }),
    decreases b.len(),
{
    let none = Seq::<(int, int)>::empty();
    assert(seq![(c, s)].drop_last() =~= none);
    assert(placed_steps(clients, saved, none) =~= Seq::<StepView>::empty());
    assert(placed_steps(clients, saved, seq![(c, s)]) =~= placed_one(clients[c], saved[s]));
    if b.len() == 0 {
        assert(a + b =~= a);
        assert(placed_steps(clients, saved, a) + placed_steps(clients, saved, b) =~= placed_steps(
            clients,
            saved,
            a,
        ));
    } else {
        law_windows_are_positioned(clients, saved, a, b.drop_last(), c, s, i);
        assert((a + b).drop_last() =~= a + b.drop_last());
        assert((a + b).last() == b.last());
        assert(placed_steps(clients, saved, a + b) =~= placed_steps(clients, saved, a)
            + placed_steps(clients, saved, b));
    }
}

/// Each window that has not appeared is warned about, in order, and nothing else is done.
pub proof fn law_giving_up(saved: Seq<HyprClient>, pending: Seq<int>, i: int)
    ensures
        give_up_steps(saved, pending).len() == pending.len(),
        0 <= i < pending.len() ==> give_up_steps(saved, pending)[i] == StepView::Tell(
            NoteView::GaveUp(saved[pending[i]].class@),
        ),
{
}

/// The third phase is told about and goes through all the groups, where there are any, and does
/// nothing where there are none.
pub proof fn law_third_phase(list: Seq<GroupTaskView>)
    ensures
        list.len() == 0 ==> regroup_steps(list).len() == 0,
        list.len() > 0 ==> regroup_steps(list) == seq![
            StepView::Tell(NoteView::Rebuilding(list.len())),
            StepView::Regroup(list),
        ],
{
}

/// Once merging is on, each group has its turn, in order: it is put together if at least two of
/// its windows are open, and warned about if not. After them all merging is switched to what it
/// was.
pub proof fn law_every_group_has_its_turn(list: Seq<GroupTaskView>, previous: bool, i: int)
    ensures
        group_steps(list, previous).len() == list.len() + 1,
        0 <= i < list.len() && list[i].members.len() >= 2 ==> group_steps(list, previous)[i]
            == StepView::Group(list[i]),
        0 <= i < list.len() && list[i].members.len() < 2 ==> group_steps(list, previous)[i]
            == StepView::Tell(NoteView::TooFew(list[i].label)),
        group_steps(list, previous)[list.len() as int] == StepView::Try(
            ActionView::SetMerging(previous),
        ),
{
}

/// A group that is given up is warned about, and merging is switched on again exactly if the group
/// had switched it off.
pub proof fn law_abandoning(label: Seq<char>, reason: Seq<char>)
    ensures
        abandon_steps(label, reason, true) == seq![
            StepView::Tell(NoteView::RebuildFailed(label, reason)),
            StepView::Try(ActionView::SetMerging(true)),
        ],
        abandon_steps(label, reason, false) == seq![
            StepView::Tell(NoteView::RebuildFailed(label, reason)),
        ],
{
}

/// What becomes of a group: one that is intact where it belongs is only told about; one that is
/// intact elsewhere is moved by its first window, with merging off meanwhile; any other is
/// assembled on the temporary workspace.
pub proof fn law_what_becomes_of_a_group(
    task: GroupTaskView,
    windows: Option<Seq<HyprClient>>,
    temp_ws: int,
    i: int,
)
    ensures
        ({
            let list = decided_steps(task, windows, temp_ws);
            let on = observe::intact_on(windows, task.members);
            &&& on == Some(task.dest) ==> list == seq![
                StepView::Tell(NoteView::Intact(task.label, task.place)),
            ]
            &&& on is Some && on != Some(task.dest) ==> list == seq![
                StepView::Tell(NoteView::Relocated(task.label, task.place)),
                StepView::Try(ActionView::SetMerging(false)),
                StepView::Try(ActionView::FocusWindow(task.members[0])),
                StepView::Try(ActionView::MoveToWorkspace(task.members[0], task.dest)),
                StepView::Pause(300),
                StepView::Try(ActionView::SetMerging(true)),
            ]
            &&& on is None ==> {
                let assembly = rebuild::rebuild_steps(task.members, temp_ws, task.dest);
                &&& list.len() == 1 + assembly.len()
                &&& list[0] == StepView::Tell(
                    NoteView::Grouping(task.members.len(), task.label, task.place),
                )
                &&& 0 <= i < assembly.len() ==> list[1 + i] == StepView::Build(assembly[i])
            }
        }),
{
}

} // verus!
