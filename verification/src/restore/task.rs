//! The groups that are to be put together from the windows that are open now.
use vstd::hash_map::StringHashMap;
use vstd::prelude::*;

use super::groups;
use super::groups::plan_groups;
use super::workspace;
use super::workspace::{workspace_label, workspace_target};
use crate::ipc::HyprClient;
use crate::text;

verus! {

/// Which address each saved window has now, by its saved address.
pub open spec fn addresses(map: Map<Seq<char>, String>) -> Map<Seq<char>, Seq<char>> {
    map.map_values(|s: String| s@)
}

/// A group to put together.
#[derive(Debug)]
pub struct GroupTask {
    /// The class of its first saved member.
    pub label: String,
    /// The workspace that it belongs to, for people.
    pub place: String,
    /// The workspace that it belongs to, for the compositor.
    pub dest: String,
    /// The addresses that its members have now.
    pub members: Vec<String>,
}

/// A group to put together, by the texts in it.
pub struct GroupTaskView {
    pub label: Seq<char>,
    pub place: Seq<char>,
    pub dest: Seq<char>,
    pub members: Seq<Seq<char>>,
}

impl View for GroupTask {
    type V = GroupTaskView;

    open spec fn view(&self) -> GroupTaskView {
        GroupTaskView {
            label: self.label@,
            place: self.place@,
            dest: self.dest@,
            members: text::texts(self.members@),
        }
    }
}

/// The tasks that a list holds.
pub open spec fn tasks(list: Seq<GroupTask>) -> Seq<GroupTaskView> {
    list.map_values(|t: GroupTask| t@)
}

/// The addresses that saved windows have now; windows that are not there are passed over.
pub open spec fn addresses_now(
    group: Seq<HyprClient>,
    moved: Map<Seq<char>, Seq<char>>,
) -> Seq<Seq<char>>
    decreases group.len(),
{
    if group.len() == 0 {
        Seq::empty()
    } else {
        let before = addresses_now(group.drop_last(), moved);
        if moved.contains_key(group.last().address@) {
            before.push(moved[group.last().address@])
        } else {
            before
        }
    }
}

/// The task of putting a saved group together.
pub open spec fn task_of(
    group: Seq<HyprClient>,
    moved: Map<Seq<char>, Seq<char>>,
) -> GroupTaskView {
    GroupTaskView {
        label: group[0].class@,
        place: "workspace "@ + workspace::selector(group[0].workspace),
        dest: workspace::selector(group[0].workspace),
        members: addresses_now(group, moved),
    }
}

/// The tasks of putting the groups of a session together.
pub open spec fn tasks_of(
    saved: Seq<HyprClient>,
    moved: Map<Seq<char>, Seq<char>>,
) -> Seq<GroupTaskView> {
    groups::planned_groups(saved).map_values(|g: Seq<HyprClient>| task_of(g, moved))
}

/// The addresses that the members of a saved group have now.
pub fn live_members(group: &Vec<&HyprClient>, moved: &StringHashMap<String>) -> (members: Vec<
    String,
>)
    ensures
        text::texts(members@) == addresses_now(groups::window_list(group@), addresses(moved@)),
{
    let ghost windows = groups::window_list(group@);
    let mut members: Vec<String> = Vec::new();
    let mut i: usize = 0;
    proof {
        assert(text::texts(members@) =~= Seq::<Seq<char>>::empty());
        assert(windows.take(0) =~= Seq::<HyprClient>::empty());
    }
    while i < group.len()
        invariant
            i <= group@.len(),
            windows == groups::window_list(group@),
            text::texts(members@) == addresses_now(windows.take(i as int), addresses(moved@)),
        decreases group@.len() - i,
    {
        let ghost before = text::texts(members@);
        proof {
            assert(windows.take(i + 1).drop_last() =~= windows.take(i as int));
            assert(windows.take(i + 1).last() == *group@[i as int]);
        }
        match moved.get(group[i].address.as_str()) {
            Some(address) => {
                members.push(address.clone());
                proof {
                    assert(text::texts(members@) =~= before.push(address@));
                }
            },
            None => {},
        }
        i = i + 1;
    }
    proof {
        assert(windows.take(i as int) =~= windows);
    }
    members
}

/// The tasks of putting the groups of a session together.
pub fn group_tasks(saved: &[HyprClient], moved: &StringHashMap<String>) -> (list: Vec<GroupTask>)
    ensures
        tasks(list@) == tasks_of(saved@, addresses(moved@)),
{
    let groups = plan_groups(saved);
    let ghost planned = groups::planned_groups(saved@);
    let ghost wanted = tasks_of(saved@, addresses(moved@));
    let mut list: Vec<GroupTask> = Vec::new();
    let mut i: usize = 0;
    proof {
        assert(groups::window_lists(groups@).len() == groups@.len());
        assert(tasks(list@) =~= wanted.take(0));
    }
    while i < groups.len()
        invariant
            i <= groups@.len(),
            groups::window_lists(groups@) == planned,
            groups@.len() == planned.len(),
            planned == groups::planned_groups(saved@),
            wanted == tasks_of(saved@, addresses(moved@)),
            tasks(list@) == wanted.take(i as int),
        decreases groups@.len() - i,
    {
        let group = &groups[i];
        proof {
            assert(planned[i as int] == groups::window_list(group@));
            groups::lemma_planned_group_len(saved@, saved@.len() as int, i as int);
            assert(groups::window_list(group@)[0] == *group@[0]);
        }
        let lead = group[0];
        let ghost before = tasks(list@);
        let task = GroupTask {
            label: lead.class.clone(),
            place: workspace_label(&lead.workspace),
            dest: workspace_target(&lead.workspace),
            members: live_members(group, moved),
        };
        let ghost view = task@;
        list.push(task);
        proof {
            assert(view == task_of(planned[i as int], addresses(moved@)));
            assert(tasks(list@) =~= before.push(view));
            assert(wanted.take(i + 1) =~= wanted.take(i as int).push(wanted[i as int]));
        }
        i = i + 1;
    }
    proof {
        assert(wanted.take(i as int) =~= wanted);
    }
    list
}

/// Different saved addresses lead to different windows.
pub open spec fn tells_apart(moved: Map<Seq<char>, Seq<char>>) -> bool {
    forall|a: Seq<char>, b: Seq<char>|
        #[trigger] moved.contains_key(a) && #[trigger] moved.contains_key(b) && moved[a] == moved[b]
            ==> a == b
}

/// The windows have different addresses.
pub open spec fn are_distinct(clients: Seq<HyprClient>) -> bool {
    forall|i: int, j: int|
        0 <= i < j < clients.len() ==> (#[trigger] clients[i]).address@ != (
        #[trigger] clients[j]).address@
}

proof fn lemma_addresses_now(
    group: Seq<HyprClient>,
    moved: Map<Seq<char>, Seq<char>>,
    k: int,
) -> (i: int)
    requires
        0 <= k < addresses_now(group, moved).len(),
    ensures
        0 <= i < group.len(),
        moved.contains_key(group[i].address@),
        addresses_now(group, moved)[k] == moved[group[i].address@],
    decreases group.len(),
{
    let fewer = group.drop_last();
    if k < addresses_now(fewer, moved).len() {
        lemma_addresses_now(fewer, moved, k)
    } else {
        group.len() - 1
    }
}

/// The members of a group to put together are different windows, where the saved members were
/// and saved addresses lead to different windows.
pub proof fn law_members_are_different_windows(
    group: Seq<HyprClient>,
    moved: Map<Seq<char>, Seq<char>>,
)
    requires
        are_distinct(group),
        tells_apart(moved),
    ensures
        addresses_now(group, moved).no_duplicates(),
    decreases group.len(),
{
    if group.len() > 0 {
        let fewer = group.drop_last();
        let last = group.len() - 1;
        assert forall|i: int, j: int| 0 <= i < j < fewer.len() implies (
        #[trigger] fewer[i]).address@ != (#[trigger] fewer[j]).address@ by {
            assert(group[i].address@ != group[j].address@);
        }
        law_members_are_different_windows(fewer, moved);
        let before = addresses_now(fewer, moved);
        if moved.contains_key(group[last].address@) {
            let now = moved[group[last].address@];
            assert(!before.contains(now)) by {
                if before.contains(now) {
                    let k = choose|k: int| 0 <= k < before.len() && before[k] == now;
                    let i = lemma_addresses_now(fewer, moved, k);
                    assert(group[i].address@ != group[last].address@);
                    assert(fewer[i] == group[i]);
                }
            }
            let all = addresses_now(group, moved);
            assert(all == before.push(now));
            assert forall|i: int, j: int| 0 <= i < all.len() && 0 <= j < all.len() && i
                != j implies all[i] != all[j] by {
                if i < before.len() && j < before.len() {
                    assert(before[i] != before[j]);
                } else if i < before.len() {
                    assert(before.contains(before[i]));
                } else {
                    assert(before.contains(before[j]));
                }
            }
        }
    }
}

/// Addresses, tasks and what is in them are shown as they are.
pub proof fn law_tasks_are_shown(
    map: Map<Seq<char>, String>,
    address: Seq<char>,
    list: Seq<GroupTask>,
    k: int,
    m: int,
)
    ensures
        addresses(map).contains_key(address) == map.contains_key(address),
        map.contains_key(address) ==> addresses(map)[address] == map[address]@,
        tasks(list).len() == list.len(),
        0 <= k < list.len() ==> {
            let task = tasks(list)[k];
            &&& task.label == list[k].label@
            &&& task.place == list[k].place@
            &&& task.dest == list[k].dest@
            &&& task.members.len() == list[k].members@.len()
            &&& 0 <= m < list[k].members@.len() ==> task.members[m] == list[k].members@[m]@
        },
{
}

/// The members of a group that is made of two parts are those of the first part and then those of
/// the second. One saved window gives the address that it leads to, and nothing where it leads to
/// none.
pub proof fn law_members_in_tab_order(
    a: Seq<HyprClient>,
    b: Seq<HyprClient>,
    one: HyprClient,
    moved: Map<Seq<char>, Seq<char>>,
)
    ensures
        addresses_now(a + b, moved) == addresses_now(a, moved) + addresses_now(b, moved),
        addresses_now(Seq::empty(), moved).len() == 0,
        moved.contains_key(one.address@) ==> addresses_now(seq![one], moved) == seq![
            moved[one.address@],
        ],
        !moved.contains_key(one.address@) ==> addresses_now(seq![one], moved).len() == 0,
    decreases b.len(),
{
    assert(seq![one].drop_last() =~= Seq::<HyprClient>::empty());
    assert(addresses_now(Seq::<HyprClient>::empty(), moved) =~= Seq::<Seq<char>>::empty());
    if moved.contains_key(one.address@) {
        assert(addresses_now(seq![one], moved) =~= seq![moved[one.address@]]);
    }
    if b.len() == 0 {
        assert(a + b =~= a);
        assert(addresses_now(a, moved) + addresses_now(b, moved) =~= addresses_now(a, moved));
    } else {
        law_members_in_tab_order(a, b.drop_last(), one, moved);
        assert((a + b).drop_last() =~= a + b.drop_last());
        assert((a + b).last() == b.last());
        assert(addresses_now(a + b, moved) =~= addresses_now(a, moved) + addresses_now(b, moved));
    }
}

/// Each planned group becomes one task, in order. It is named after the class of its first saved
/// window, and belongs where that window was.
pub proof fn law_one_task_for_each_group(
    saved: Seq<HyprClient>,
    moved: Map<Seq<char>, Seq<char>>,
    g: int,
)
    ensures
        tasks_of(saved, moved).len() == groups::planned_groups(saved).len(),
        0 <= g < tasks_of(saved, moved).len() ==> {
            let task = tasks_of(saved, moved)[g];
            let group = groups::planned_groups(saved)[g];
            &&& task.label == group[0].class@
            &&& task.dest == workspace::selector(group[0].workspace)
            &&& task.place == "workspace "@ + task.dest
            &&& task.members == addresses_now(group, moved)
        },
{
}

} // verus!
