//! Assembling a tabbed group.
//!
//! A group is assembled in a clean workspace of its own and then moved whole to where it
//! belongs. Some of the steps depend on how many windows a group has when their turn comes;
//! they are resolved into further steps then.
use vstd::prelude::*;

use super::action::{Action, ActionView};
use super::observe::{Condition, ConditionView};
use crate::numbers;
use crate::numbers::i32_text;
use crate::text;

verus! {

/// How long a window may take to get to a workspace, or into a group, in milliseconds.
pub const MOVE_TIMEOUT: u64 = 3000;

/// How long a group may take to form or to dissolve, in milliseconds.
pub const TOGGLE_TIMEOUT: u64 = 2000;

/// How long a moved group is left to settle, in milliseconds.
pub const SETTLE_TIME: u64 = 300;

/// A step in assembling a group. Windows are given by address.
#[derive(Debug)]
pub enum BuildStep {
    /// Do this.
    Act(Action),
    /// Wait for this, for at most so many milliseconds.
    Await(Condition, u64),
    /// Take the window's group apart, where it is in one with others.
    Dissolve(String),
    /// Make the focused window a group of one, where it is in no group.
    StartGroup(String),
    /// Bring a window into the group of another, on this workspace.
    Join(String, String, String),
    /// Let so many milliseconds pass.
    Settle(u64),
}

/// A step by the texts in it.
pub enum BuildStepView {
    Act(ActionView),
    Await(ConditionView, nat),
    Dissolve(Seq<char>),
    StartGroup(Seq<char>),
    Join(Seq<char>, Seq<char>, Seq<char>),
    Settle(nat),
}

impl View for BuildStep {
    type V = BuildStepView;

    open spec fn view(&self) -> BuildStepView {
        match self {
            BuildStep::Act(action) => BuildStepView::Act(action@),
            BuildStep::Await(condition, ms) => BuildStepView::Await(condition@, *ms as nat),
            BuildStep::Dissolve(window) => BuildStepView::Dissolve(window@),
            BuildStep::StartGroup(window) => BuildStepView::StartGroup(window@),
            BuildStep::Join(window, lead, target) => BuildStepView::Join(window@, lead@, target@),
            BuildStep::Settle(ms) => BuildStepView::Settle(*ms as nat),
        }
    }
}

/// The steps that a list holds.
pub open spec fn build_steps(list: Seq<BuildStep>) -> Seq<BuildStepView> {
    list.map_values(|s: BuildStep| s@)
}

/// The leader goes to a workspace where it is alone and becomes a group of one.
pub open spec fn start_steps(lead: Seq<char>, temp: Seq<char>) -> Seq<BuildStepView> {
    seq![
        BuildStepView::Act(ActionView::MoveToWorkspace(lead, temp)),
        BuildStepView::Await(ConditionView::OnWorkspace(lead, temp), MOVE_TIMEOUT as nat),
        BuildStepView::Dissolve(lead),
        BuildStepView::Act(ActionView::FocusWindow(lead)),
        BuildStepView::StartGroup(lead),
    ]
}

/// A member leaves its group, steps aside to the staging workspace, and joins the leader. The
/// detour makes the move cross workspaces, which is what merges it into the group.
pub open spec fn member_steps(
    member: Seq<char>,
    lead: Seq<char>,
    temp: Seq<char>,
    staging: Seq<char>,
) -> Seq<BuildStepView> {
    seq![
        BuildStepView::Dissolve(member),
        BuildStepView::Act(ActionView::MoveToWorkspace(member, staging)),
        BuildStepView::Await(ConditionView::OnWorkspace(member, staging), MOVE_TIMEOUT as nat),
        BuildStepView::Act(ActionView::FocusWindow(lead)),
        BuildStepView::Join(member, lead, temp),
    ]
}

/// The members join the leader, one after the other.
pub open spec fn gather_steps(
    members: Seq<Seq<char>>,
    lead: Seq<char>,
    temp: Seq<char>,
    staging: Seq<char>,
) -> Seq<BuildStepView>
    decreases members.len(),
{
    if members.len() == 0 {
        Seq::empty()
    } else {
        gather_steps(members.drop_last(), lead, temp, staging) + member_steps(
            members.last(),
            lead,
            temp,
            staging,
        )
    }
}

/// The group is moved whole, with merging off, so that it does not merge into a group that is
/// at its destination already. Merging is on again afterwards.
pub open spec fn finish_steps(lead: Seq<char>, dest: Seq<char>) -> Seq<BuildStepView> {
    seq![
        BuildStepView::Act(ActionView::SetMerging(false)),
        BuildStepView::Act(ActionView::FocusWindow(lead)),
        BuildStepView::Act(ActionView::MoveToWorkspace(lead, dest)),
        BuildStepView::Settle(SETTLE_TIME as nat),
        BuildStepView::Act(ActionView::SetMerging(true)),
    ]
}

/// The steps that assemble a group on workspace `temp_ws` and move it to `dest`.
pub open spec fn rebuild_steps(members: Seq<Seq<char>>, temp_ws: int, dest: Seq<char>) -> Seq<
    BuildStepView,
> {
    start_steps(members[0], numbers::decimal(temp_ws)) + gather_steps(
        members.drop_first(),
        members[0],
        numbers::decimal(temp_ws),
        numbers::decimal(temp_ws + 1),
    ) + finish_steps(members[0], dest)
}

/// Assembles one group in a clean temporary workspace, then moves it whole to its destination.
/// The workspace after the temporary one serves for staging.
pub fn rebuild_group(members: &Vec<String>, temp_ws: i32, dest: &str) -> (steps: Vec<BuildStep>)
    requires
        members@.len() > 0,
        temp_ws < i32::MAX,
    ensures
        build_steps(steps@) == rebuild_steps(text::texts(members@), temp_ws as int, dest@),
{
    let staging = i32_text(temp_ws + 1);
    let temp = i32_text(temp_ws);
    let lead = &members[0];
    let mut steps: Vec<BuildStep> = Vec::new();
    steps.push(BuildStep::Act(Action::MoveToWorkspace(lead.clone(), temp.clone())));
    steps.push(
        BuildStep::Await(Condition::OnWorkspace(lead.clone(), temp.clone()), MOVE_TIMEOUT),
    );
    steps.push(BuildStep::Dissolve(lead.clone()));
    steps.push(BuildStep::Act(Action::FocusWindow(lead.clone())));
    steps.push(BuildStep::StartGroup(lead.clone()));
    let ghost all = text::texts(members@);
    let ghost rest = all.drop_first();
    let ghost begin = start_steps(lead@, temp@);
    proof {
        assert(all[0] == lead@);
        assert(build_steps(steps@) =~= begin);
        assert(rest.take(0) =~= Seq::<Seq<char>>::empty());
        assert(begin + gather_steps(rest.take(0), lead@, temp@, staging@) =~= begin);
    }
    let mut i: usize = 1;
    while i < members.len()
        invariant
            1 <= i <= members@.len(),
            all == text::texts(members@),
            rest == all.drop_first(),
            build_steps(steps@) == begin + gather_steps(
                rest.take(i - 1),
                lead@,
                temp@,
                staging@,
            ),
        decreases members@.len() - i,
    {
        let member = &members[i];
        let ghost before = build_steps(steps@);
        steps.push(BuildStep::Dissolve(member.clone()));
        steps.push(BuildStep::Act(Action::MoveToWorkspace(member.clone(), staging.clone())));
        steps.push(
            BuildStep::Await(
                Condition::OnWorkspace(member.clone(), staging.clone()),
                MOVE_TIMEOUT,
            ),
        );
        steps.push(BuildStep::Act(Action::FocusWindow(lead.clone())));
        steps.push(BuildStep::Join(member.clone(), lead.clone(), temp.clone()));
        proof {
            let taken = rest.take(i as int);
            let these = member_steps(member@, lead@, temp@, staging@);
            assert(taken.drop_last() =~= rest.take(i - 1));
            assert(taken.last() == member@);
            assert(build_steps(steps@) =~= before + these);
            assert(begin + gather_steps(taken, lead@, temp@, staging@) =~= before + these);
        }
        i = i + 1;
    }
    let ghost gathered = build_steps(steps@);
    steps.push(BuildStep::Act(Action::SetMerging(false)));
    steps.push(BuildStep::Act(Action::FocusWindow(lead.clone())));
    steps.push(BuildStep::Act(Action::MoveToWorkspace(lead.clone(), dest.to_owned())));
    steps.push(BuildStep::Settle(SETTLE_TIME));
    steps.push(BuildStep::Act(Action::SetMerging(true)));
    proof {
        assert(rest.take(i - 1) =~= rest);
        assert(build_steps(steps@) =~= gathered + finish_steps(lead@, dest@));
    }
    steps
}

/// The steps that take a group of so many windows apart: none where the window is alone.
pub open spec fn dissolve_steps(window: Seq<char>, count: nat) -> Seq<BuildStepView> {
    if count > 1 {
        seq![
            BuildStepView::Act(ActionView::FocusWindow(window)),
            BuildStepView::Act(ActionView::ToggleGroup),
            BuildStepView::Await(ConditionView::GroupAtMost(window, 1), TOGGLE_TIMEOUT as nat),
        ]
    } else {
        Seq::empty()
    }
}

/// Dissolves the group of `count` windows that a window currently belongs to, if any (leaves
/// all its former members as standalone windows).
pub fn dissolve_group(address: &str, count: usize) -> (steps: Vec<BuildStep>)
    ensures
        build_steps(steps@) == dissolve_steps(address@, count as nat),
{
    let mut steps: Vec<BuildStep> = Vec::new();
    if count > 1 {
        steps.push(BuildStep::Act(Action::FocusWindow(address.to_owned())));
        steps.push(BuildStep::Act(Action::ToggleGroup));
        steps.push(BuildStep::Await(Condition::GroupAtMost(address.to_owned(), 1), TOGGLE_TIMEOUT));
    }
    proof {
        assert(build_steps(steps@) =~= dissolve_steps(address@, count as nat));
    }
    steps
}

impl BuildStepView {
    /// The window whose group a step depends on.
    pub open spec fn depends_on(self) -> Option<Seq<char>> {
        match self {
            BuildStepView::Dissolve(window) => Some(window),
            BuildStepView::StartGroup(window) => Some(window),
            BuildStepView::Join(_, lead, _) => Some(lead),
            _ => None,
        }
    }

    /// What a step comes to when the group that it depends on has so many windows.
    pub open spec fn resolved(self, count: nat) -> Seq<BuildStepView> {
        match self {
            BuildStepView::Dissolve(window) => dissolve_steps(window, count),
            BuildStepView::StartGroup(window) => if count == 0 {
                seq![
                    BuildStepView::Act(ActionView::ToggleGroup),
                    BuildStepView::Await(
                        ConditionView::GroupAtLeast(window, 1),
                        TOGGLE_TIMEOUT as nat,
                    ),
                ]
            } else {
                Seq::empty()
            },
            BuildStepView::Join(window, lead, target) => seq![
                BuildStepView::Act(ActionView::MoveToWorkspace(window, target)),
                BuildStepView::Await(ConditionView::GroupAbove(lead, count), MOVE_TIMEOUT as nat),
            ],
            _ => seq![self],
        }
    }
}

impl BuildStep {
    /// What the step comes to when the group that it depends on has `count` windows.
    pub fn resolve(self, count: usize) -> (steps: Vec<BuildStep>)
        ensures
            build_steps(steps@) == self@.resolved(count as nat),
    {
        let mut steps: Vec<BuildStep> = Vec::new();
        match self {
            BuildStep::Dissolve(window) => {
                return dissolve_group(window.as_str(), count);
            },
            BuildStep::StartGroup(window) => {
                if count == 0 {
                    steps.push(BuildStep::Act(Action::ToggleGroup));
                    steps.push(
                        BuildStep::Await(Condition::GroupAtLeast(window, 1), TOGGLE_TIMEOUT),
                    );
                }
            },
            BuildStep::Join(window, lead, target) => {
                steps.push(BuildStep::Act(Action::MoveToWorkspace(window, target)));
                steps.push(BuildStep::Await(Condition::GroupAbove(lead, count), MOVE_TIMEOUT));
            },
            other => {
                steps.push(other);
            },
        }
        proof {
            assert(build_steps(steps@) =~= self@.resolved(count as nat));
        }
        steps
    }
}

/// How long each thing may take.
pub proof fn law_rebuild_times()
    ensures
        MOVE_TIMEOUT == 3000,
        TOGGLE_TIMEOUT == 2000,
        SETTLE_TIME == 300,
{
}

/// A step shows its texts and numbers as they are.
pub proof fn law_build_steps_are_shown(
    action: Action,
    condition: Condition,
    a: String,
    b: String,
    c: String,
    ms: u64,
    list: Seq<BuildStep>,
    i: int,
)
    ensures
        BuildStep::Act(action)@ == BuildStepView::Act(action@),
        BuildStep::Await(condition, ms)@ == BuildStepView::Await(condition@, ms as nat),
        BuildStep::Dissolve(a)@ == BuildStepView::Dissolve(a@),
        BuildStep::StartGroup(a)@ == BuildStepView::StartGroup(a@),
        BuildStep::Join(a, b, c)@ == BuildStepView::Join(a@, b@, c@),
        BuildStep::Settle(ms)@ == BuildStepView::Settle(ms as nat),
        build_steps(list).len() == list.len(),
        0 <= i < list.len() ==> build_steps(list)[i] == list[i]@,
{
}

proof fn lemma_gather_blocks(
    members: Seq<Seq<char>>,
    lead: Seq<char>,
    temp: Seq<char>,
    staging: Seq<char>,
    k: int,
    j: int,
)
    ensures
        gather_steps(members, lead, temp, staging).len() == 5 * members.len(),
        0 <= k < members.len() && 0 <= j < 5 ==> gather_steps(members, lead, temp, staging)[5 * k
            + j] == member_steps(members[k], lead, temp, staging)[j],
    decreases members.len(),
{
    if members.len() > 0 {
        lemma_gather_blocks(members.drop_last(), lead, temp, staging, k, j);
    }
}

/// How a group is assembled. Its first window goes to the temporary workspace, leaves its group
/// there, is focused and becomes a group. Then each other window in turn leaves its group, goes to
/// the workspace behind the temporary one, and, with the first window focused, joins it on the
/// temporary one. In the end, with merging off, the first window is focused and moved to the
/// destination, and merging goes on again after a while.
pub proof fn law_assembly(members: Seq<Seq<char>>, temp_ws: int, dest: Seq<char>, k: int)
    requires
        members.len() > 0,
    ensures
        ({
            let all = rebuild_steps(members, temp_ws, dest);
            let n = members.len() as int;
            let lead = members[0];
            let temp = numbers::decimal(temp_ws);
            let staging = numbers::decimal(temp_ws + 1);
            &&& all.len() == 5 * n + 5
            &&& all[0] == BuildStepView::Act(ActionView::MoveToWorkspace(lead, temp))
            &&& all[1] == BuildStepView::Await(ConditionView::OnWorkspace(lead, temp), 3000)
            &&& all[2] == BuildStepView::Dissolve(lead)
            &&& all[3] == BuildStepView::Act(ActionView::FocusWindow(lead))
            &&& all[4] == BuildStepView::StartGroup(lead)
            &&& 0 < k < n ==> {
                let own = members[k];
                &&& all[5 * k] == BuildStepView::Dissolve(own)
                &&& all[5 * k + 1] == BuildStepView::Act(ActionView::MoveToWorkspace(own, staging))
                &&& all[5 * k + 2] == BuildStepView::Await(
                    ConditionView::OnWorkspace(own, staging),
                    3000,
                )
                &&& all[5 * k + 3] == BuildStepView::Act(ActionView::FocusWindow(lead))
                &&& all[5 * k + 4] == BuildStepView::Join(own, lead, temp)
            }
            &&& all[5 * n] == BuildStepView::Act(ActionView::SetMerging(false))
            &&& all[5 * n + 1] == BuildStepView::Act(ActionView::FocusWindow(lead))
            &&& all[5 * n + 2] == BuildStepView::Act(ActionView::MoveToWorkspace(lead, dest))
            &&& all[5 * n + 3] == BuildStepView::Settle(300)
            &&& all[5 * n + 4] == BuildStepView::Act(ActionView::SetMerging(true))
        }),
{
    let lead = members[0];
    let temp = numbers::decimal(temp_ws);
    let staging = numbers::decimal(temp_ws + 1);
    let n = members.len() as int;
    let rest = members.drop_first();
    let start = start_steps(lead, temp);
    let mid = gather_steps(rest, lead, temp, staging);
    let end = finish_steps(lead, dest);
    let all = rebuild_steps(members, temp_ws, dest);
    lemma_gather_blocks(rest, lead, temp, staging, k - 1, 0);
    lemma_gather_blocks(rest, lead, temp, staging, k - 1, 1);
    lemma_gather_blocks(rest, lead, temp, staging, k - 1, 2);
    lemma_gather_blocks(rest, lead, temp, staging, k - 1, 3);
    lemma_gather_blocks(rest, lead, temp, staging, k - 1, 4);
    assert(start.len() == 5 && end.len() == 5 && mid.len() == 5 * (n - 1));
    assert(all == start + mid + end);
    assert(forall|i: int| 0 <= i < 5 ==> all[i] == #[trigger] start[i]);
    assert(forall|i: int| 0 <= i < mid.len() ==> all[i + 5] == #[trigger] mid[i]);
    assert(forall|i: int| 0 <= i < 5 ==> all[i + 5 * n] == #[trigger] end[i]);
    if 0 < k < n {
        let own = member_steps(members[k], lead, temp, staging);
        assert(all[5 * k] == mid[5 * (k - 1)]);
        assert(all[5 * k + 1] == mid[5 * (k - 1) + 1]);
        assert(all[5 * k + 2] == mid[5 * (k - 1) + 2]);
        assert(all[5 * k + 3] == mid[5 * (k - 1) + 3]);
        assert(all[5 * k + 4] == mid[5 * (k - 1) + 4]);
        assert(own[0] == BuildStepView::Dissolve(members[k]));
    }
    assert(all[0] == start[0] && all[1] == start[1] && all[2] == start[2] && all[3] == start[3]
        && all[4] == start[4]);
    assert(all[5 * n] == end[0] && all[5 * n + 1] == end[1] && all[5 * n + 2] == end[2] && all[5
        * n + 3] == end[3] && all[5 * n + 4] == end[4]);
}

/// What the steps that depend on the size of a group come to. A window in a group with others is
/// focused, and its group taken apart. A window that is in no group is made one. A window that
/// joins another is moved, and the group of the other must grow. A step that depends on nothing
/// stays as it is.
pub proof fn law_steps_are_resolved(
    window: Seq<char>,
    lead: Seq<char>,
    target: Seq<char>,
    count: nat,
    step: BuildStepView,
)
    ensures
        count > 1 ==> BuildStepView::Dissolve(window).resolved(count) == seq![
            BuildStepView::Act(ActionView::FocusWindow(window)),
            BuildStepView::Act(ActionView::ToggleGroup),
            BuildStepView::Await(ConditionView::GroupAtMost(window, 1), 2000),
        ],
        count <= 1 ==> BuildStepView::Dissolve(window).resolved(count).len() == 0,
        count == 0 ==> BuildStepView::StartGroup(window).resolved(count) == seq![
            BuildStepView::Act(ActionView::ToggleGroup),
            BuildStepView::Await(ConditionView::GroupAtLeast(window, 1), 2000),
        ],
        count > 0 ==> BuildStepView::StartGroup(window).resolved(count).len() == 0,
        BuildStepView::Join(window, lead, target).resolved(count) == seq![
            BuildStepView::Act(ActionView::MoveToWorkspace(window, target)),
            BuildStepView::Await(ConditionView::GroupAbove(lead, count), 3000),
        ],
        step is Act || step is Await || step is Settle ==> step.resolved(count) == seq![step]
            && step.depends_on() is None,
        BuildStepView::Dissolve(window).depends_on() == Some(window),
        BuildStepView::StartGroup(window).depends_on() == Some(window),
        BuildStepView::Join(window, lead, target).depends_on() == Some(lead),
        dissolve_steps(window, count) == BuildStepView::Dissolve(window).resolved(count),
{
}

} // verus!
