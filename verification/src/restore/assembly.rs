//! What the steps for a group come to, in a compositor that does what it is asked.
//!
//! The compositor is taken to work as Hyprland does, as far as groups go: a window that is moved
//! drags its whole group along; a window that comes from another workspace merges into the
//! group of the focused window, where merging is on and that group is on the workspace that it
//! is moved to; and toggling makes a window that is in no group a group of one, and takes a
//! group apart.
use vstd::prelude::*;

use super::action::ActionView;
use super::plan;
use super::plan::StepView;
use super::rebuild;
use super::rebuild::BuildStepView;
use super::task::GroupTaskView;
use crate::numbers;

verus! {

/// A window as the compositor has it: its workspace, and the windows in its group, itself
/// among them. A window in no group has an empty one.
pub struct Tab {
    pub workspace: Seq<char>,
    pub group: Set<Seq<char>>,
}

/// The windows of a compositor by address, the focused one, and whether merging is on.
pub struct World {
    pub windows: Map<Seq<char>, Tab>,
    pub focus: Seq<char>,
    pub merging: bool,
}

impl World {
    /// The window is open.
    pub open spec fn has(self, v: Seq<char>) -> bool {
        self.windows.contains_key(v)
    }

    /// The workspace that a window is on.
    pub open spec fn on(self, v: Seq<char>) -> Seq<char> {
        self.windows[v].workspace
    }

    /// The group of a window.
    pub open spec fn group(self, v: Seq<char>) -> Set<Seq<char>> {
        self.windows[v].group
    }

    /// The windows in a group all have that group.
    pub open spec fn consistent(self) -> bool {
        &&& forall|v: Seq<char>| self.has(v) ==> (#[trigger] self.group(v)).finite()
        &&& forall|v: Seq<char>, u: Seq<char>|
            self.has(v) && #[trigger] self.group(v).contains(u) ==> self.has(u) && self.group(u)
                == self.group(v) && self.group(v).contains(v)
    }

    /// The windows that move when a window is moved.
    pub open spec fn moving(self, v: Seq<char>) -> Set<Seq<char>> {
        if self.group(v).contains(v) {
            self.group(v)
        } else {
            set![v]
        }
    }

    /// A window that is moved there merges into the group of the focused window.
    pub open spec fn merges(self, v: Seq<char>, target: Seq<char>) -> bool {
        &&& self.merging
        &&& self.has(self.focus)
        &&& self.group(self.focus).contains(self.focus)
        &&& !self.moving(v).contains(self.focus)
        &&& self.on(self.focus) == target
        &&& self.on(v) != target
    }

    /// A window, and what moves with it, after a move of the window `v`.
    pub open spec fn moved(self, v: Seq<char>, target: Seq<char>, u: Seq<char>) -> Tab {
        let united = self.group(self.focus).union(self.moving(v));
        Tab {
            workspace: if self.moving(v).contains(u) {
                target
            } else {
                self.on(u)
            },
            group: if self.merges(v, target) && united.contains(u) {
                united
            } else {
                self.group(u)
            },
        }
    }

    /// A window after the focused window was toggled.
    pub open spec fn toggled(self, u: Seq<char>) -> Tab {
        if self.group(self.focus).contains(self.focus) {
            if self.group(self.focus).contains(u) {
                Tab { group: Set::empty(), ..self.windows[u] }
            } else {
                self.windows[u]
            }
        } else if u == self.focus {
            Tab { group: set![u], ..self.windows[u] }
        } else {
            self.windows[u]
        }
    }

    /// What an action does.
    pub open spec fn act(self, action: ActionView) -> World {
        match action {
            ActionView::MoveToWorkspace(v, target) => World {
                windows: Map::new(|u: Seq<char>| self.has(u), |u: Seq<char>|
                    self.moved(v, target, u)),
                ..self
            },
            ActionView::FocusWindow(v) => World { focus: v, ..self },
            ActionView::ToggleGroup => World {
                windows: Map::new(|u: Seq<char>| self.has(u), |u: Seq<char>| self.toggled(u)),
                ..self
            },
            ActionView::SetMerging(enabled) => World { merging: enabled, ..self },
            _ => self,
        }
    }

    /// What the actions among some steps do, in order.
    pub open spec fn act_all(self, steps: Seq<BuildStepView>) -> World
        decreases steps.len(),
    {
        if steps.len() == 0 {
            self
        } else {
            let before = self.act_all(steps.drop_last());
            match steps.last() {
                BuildStepView::Act(action) => before.act(action),
                _ => before,
            }
        }
    }

    /// What a step for a group does. A step that depends on a group is resolved by its size.
    pub open spec fn build_one(self, step: BuildStepView) -> World {
        match step.depends_on() {
            Some(window) => self.act_all(step.resolved(self.group(window).len())),
            None => self.act_all(seq![step]),
        }
    }

    /// What the steps for a group do, in order.
    pub open spec fn build(self, steps: Seq<BuildStepView>) -> World
        decreases steps.len(),
    {
        if steps.len() == 0 {
            self
        } else {
            self.build(steps.drop_last()).build_one(steps.last())
        }
    }

    /// What the steps of a restore do, in order, as far as they are actions.
    pub open spec fn run(self, steps: Seq<StepView>) -> World
        decreases steps.len(),
    {
        if steps.len() == 0 {
            self
        } else {
            let before = self.run(steps.drop_last());
            match steps.last() {
                StepView::Must(action) => before.act(action),
                StepView::Try(action) => before.act(action),
                _ => before,
            }
        }
    }

    /// The same windows are open.
    pub open spec fn same_windows(self, other: World) -> bool {
        forall|v: Seq<char>| #[trigger] self.has(v) == other.has(v)
    }
}

proof fn lemma_build_append(w: World, a: Seq<BuildStepView>, b: Seq<BuildStepView>)
    ensures
        w.build(a + b) == w.build(a).build(b),
    decreases b.len(),
{
    if b.len() == 0 {
        assert(a + b =~= a);
    } else {
        lemma_build_append(w, a, b.drop_last());
        assert((a + b).drop_last() =~= a + b.drop_last());
        assert((a + b).last() == b.last());
    }
}

proof fn lemma_act_one(w: World, step: BuildStepView)
    ensures
        w.act_all(seq![step]) == (match step {
            BuildStepView::Act(action) => w.act(action),
            _ => w,
        }),
{
    assert(seq![step].drop_last() =~= Seq::<BuildStepView>::empty());
    assert(w.act_all(seq![step].drop_last()) == w);
}

proof fn lemma_act_two(w: World, a: BuildStepView, b: BuildStepView)
    ensures
        w.act_all(seq![a, b]) == w.act_all(seq![a]).act_all(seq![b]),
{
    assert(seq![a, b].drop_last() =~= seq![a]);
    lemma_act_one(w.act_all(seq![a]), b);
}

proof fn lemma_consistent_act(w: World, action: ActionView)
    requires
        w.consistent(),
        action matches ActionView::MoveToWorkspace(v, _) ==> w.has(v),
        action is ToggleGroup ==> w.has(w.focus),
    ensures
        w.act(action).consistent(),
        w.act(action).same_windows(w),
{
    let e = w.act(action);
    match action {
        ActionView::MoveToWorkspace(x, target) => {
            let united = w.group(w.focus).union(w.moving(x));
            assert forall|v: Seq<char>| e.has(v) implies (#[trigger] e.group(v)).finite() by {
                assert(e.windows[v] == w.moved(x, target, v));
                assert(w.group(v).finite());
                assert(w.group(x).finite());
                if w.merges(x, target) {
                    assert(w.group(w.focus).finite());
                }
            }
            assert forall|v: Seq<char>, u: Seq<char>|
                e.has(v) && #[trigger] e.group(v).contains(u) implies e.has(u) && e.group(u)
                == e.group(v) && e.group(v).contains(v) by {
                assert(e.windows[v] == w.moved(x, target, v));
                if w.merges(x, target) {
                    if united.contains(v) {
                        if w.group(w.focus).contains(u) {
                            assert(w.has(u));
                        } else if w.group(x).contains(x) {
                            assert(w.group(x).contains(u));
                            assert(w.has(u));
                        }
                        assert(e.windows[u] == w.moved(x, target, u));
                    } else {
                        assert(w.group(v).contains(u));
                        if united.contains(u) {
                            if w.group(w.focus).contains(u) {
                                assert(w.group(u) == w.group(w.focus));
                            } else if w.group(x).contains(x) {
                                assert(w.group(x).contains(u));
                                assert(w.group(u) == w.group(x));
                            } else {
                                assert(u == x);
                                assert(w.group(x).contains(x));
                            }
                            assert(united.contains(v));
                        }
                        assert(e.windows[u] == w.moved(x, target, u));
                    }
                } else {
                    assert(w.group(v).contains(u));
                    assert(e.windows[u] == w.moved(x, target, u));
                }
            }
        },
        ActionView::ToggleGroup => {
            let f = w.focus;
            assert forall|v: Seq<char>| e.has(v) implies (#[trigger] e.group(v)).finite() by {
                assert(e.windows[v] == w.toggled(v));
                assert(w.group(v).finite());
            }
            assert forall|v: Seq<char>, u: Seq<char>|
                e.has(v) && #[trigger] e.group(v).contains(u) implies e.has(u) && e.group(u)
                == e.group(v) && e.group(v).contains(v) by {
                assert(e.windows[v] == w.toggled(v));
                if w.group(f).contains(f) {
                    assert(w.group(v).contains(u));
                    if w.group(f).contains(u) {
                        assert(w.group(u) == w.group(f));
                        assert(w.group(f).contains(v));
                    }
                    assert(e.windows[u] == w.toggled(u));
                } else if v == f {
                    assert(u == f);
                } else {
                    assert(w.group(v).contains(u));
                    if u == f {
                        assert(w.group(f).contains(f));
                    }
                    assert(e.windows[u] == w.toggled(u));
                }
            }
        },
        _ => {
            assert forall|v: Seq<char>| e.has(v) implies (#[trigger] e.group(v)).finite() by {
                assert(w.group(v).finite());
            }
            assert forall|v: Seq<char>, u: Seq<char>|
                e.has(v) && #[trigger] e.group(v).contains(u) implies e.has(u) && e.group(u)
                == e.group(v) && e.group(v).contains(v) by {
                assert(w.group(v).contains(u));
            }
        },
    }
}

/// A group is counted as more than one exactly if there is another window in it.
proof fn lemma_count(w: World, v: Seq<char>)
    requires
        w.consistent(),
        w.has(v),
    ensures
        w.group(v).len() == 0 <==> !w.group(v).contains(v),
        w.group(v).len() <= 1 ==> forall|u: Seq<char>| #[trigger] w.group(v).contains(u) ==> u == v,
        w.group(v).len() > 1 ==> w.group(v).contains(v),
{
    let g = w.group(v);
    assert(g.finite());
    if g.contains(v) {
        assert(g.remove(v).len() == g.len() - 1);
        if g.len() <= 1 {
            assert forall|u: Seq<char>| #[trigger] g.contains(u) implies u == v by {
                if u != v {
                    assert(g.remove(v).contains(u));
                    assert(g.remove(v).remove(u).len() == g.remove(v).len() - 1);
                }
            }
        }
    } else {
        if g.len() > 0 {
            let u = g.choose();
            assert(g.contains(u));
        }
        assert forall|u: Seq<char>| #[trigger] g.contains(u) implies u == v by {}
    }
}

/// Dissolving leaves the window in no group with another, and what shared a group with it in
/// none.
proof fn lemma_dissolve(w: World, x: Seq<char>)
    requires
        w.consistent(),
        w.has(x),
    ensures
        ({
            let e = w.build_one(BuildStepView::Dissolve(x));
            &&& e.consistent()
            &&& e.same_windows(w)
            &&& e.merging == w.merging
            &&& e.focus == w.focus || e.focus == x
            &&& forall|u: Seq<char>| #[trigger] e.on(u) == w.on(u) || !w.has(u)
            &&& forall|u: Seq<char>| #[trigger] e.group(x).contains(u) ==> u == x
            &&& forall|u: Seq<char>|
                w.has(u) && u != x && w.group(x).contains(u) ==> #[trigger] e.group(u) == Set::<
                    Seq<char>,
                >::empty()
            &&& forall|u: Seq<char>|
                w.has(u) && !w.group(x).contains(u) ==> #[trigger] e.windows[u] == w.windows[u]
            &&& w.group(x).len() > 1 ==> e.group(x) == Set::<Seq<char>>::empty()
        }),
{
    let n = w.group(x).len();
    let e = w.build_one(BuildStepView::Dissolve(x));
    lemma_count(w, x);
    if n > 1 {
        let focus = BuildStepView::Act(ActionView::FocusWindow(x));
        let toggle = BuildStepView::Act(ActionView::ToggleGroup);
        let steps = rebuild::dissolve_steps(x, n);
        let f = w.act(ActionView::FocusWindow(x));
        let t = f.act(ActionView::ToggleGroup);
        assert(steps.drop_last() =~= seq![focus, toggle]);
        lemma_act_two(w, focus, toggle);
        lemma_act_one(w, focus);
        lemma_act_one(f, toggle);
        assert(e == t);
        lemma_consistent_act(w, ActionView::FocusWindow(x));
        lemma_consistent_act(f, ActionView::ToggleGroup);
        assert forall|u: Seq<char>| w.has(u) implies #[trigger] e.windows[u] == f.toggled(u) by {}
        assert(f.group(x) == w.group(x));
        assert forall|u: Seq<char>| #[trigger] e.on(u) == w.on(u) || !w.has(u) by {
            if w.has(u) {
                assert(e.windows[u] == f.toggled(u));
            }
        }
        assert forall|u: Seq<char>|
            w.has(u) && u != x && w.group(x).contains(u) implies #[trigger] e.group(u) == Set::<
            Seq<char>,
        >::empty() by {
            assert(e.windows[u] == f.toggled(u));
        }
        assert(e.windows[x] == f.toggled(x));
    } else {
        assert(rebuild::dissolve_steps(x, n) =~= Seq::<BuildStepView>::empty());
        assert(e == w);
    }
}

proof fn lemma_build_first(w: World, steps: Seq<BuildStepView>)
    requires
        steps.len() > 0,
    ensures
        w.build(steps) == w.build_one(steps[0]).build(steps.drop_first()),
{
    let one = seq![steps[0]];
    lemma_build_append(w, one, steps.drop_first());
    assert(one + steps.drop_first() =~= steps);
    assert(one.drop_last() =~= Seq::<BuildStepView>::empty());
    assert(w.build(one.drop_last()) == w);
    assert(w.build(one) == w.build_one(steps[0]));
}

proof fn lemma_build_five(
    w: World,
    a: BuildStepView,
    b: BuildStepView,
    c: BuildStepView,
    d: BuildStepView,
    e: BuildStepView,
)
    ensures
        w.build(seq![a, b, c, d, e]) == w.build_one(a).build_one(b).build_one(c).build_one(
            d,
        ).build_one(e),
{
    let w1 = w.build_one(a);
    let w2 = w1.build_one(b);
    let w3 = w2.build_one(c);
    let w4 = w3.build_one(d);
    let w5 = w4.build_one(e);
    lemma_build_first(w, seq![a, b, c, d, e]);
    assert(seq![a, b, c, d, e].drop_first() =~= seq![b, c, d, e]);
    lemma_build_first(w1, seq![b, c, d, e]);
    assert(seq![b, c, d, e].drop_first() =~= seq![c, d, e]);
    lemma_build_first(w2, seq![c, d, e]);
    assert(seq![c, d, e].drop_first() =~= seq![d, e]);
    lemma_build_first(w3, seq![d, e]);
    assert(seq![d, e].drop_first() =~= seq![e]);
    lemma_build_first(w4, seq![e]);
    assert(seq![e].drop_first() =~= Seq::<BuildStepView>::empty());
    assert(w5.build(Seq::<BuildStepView>::empty()) == w5);
}

/// The leader is a group of one on a workspace of its own, and what shared a group with it is
/// in none.
proof fn lemma_start(w: World, lead: Seq<char>, temp: Seq<char>)
    requires
        w.consistent(),
        w.has(lead),
        forall|v: Seq<char>| w.has(v) ==> #[trigger] w.on(v) != temp,
    ensures
        ({
            let e = w.build(rebuild::start_steps(lead, temp));
            &&& e.consistent()
            &&& e.same_windows(w)
            &&& e.merging == w.merging
            &&& e.focus == lead
            &&& e.on(lead) == temp
            &&& e.group(lead) == set![lead]
            &&& forall|u: Seq<char>|
                w.has(u) && u != lead && w.group(lead).contains(u) ==> #[trigger] e.group(u)
                    == Set::<Seq<char>>::empty()
            &&& forall|u: Seq<char>|
                w.has(u) && u != lead && !w.group(lead).contains(u) ==> #[trigger] e.windows[u]
                    == w.windows[u]
        }),
{
    let move_to = BuildStepView::Act(ActionView::MoveToWorkspace(lead, temp));
    let wait = rebuild::start_steps(lead, temp)[1];
    let dissolve = BuildStepView::Dissolve(lead);
    let focus = BuildStepView::Act(ActionView::FocusWindow(lead));
    let start = BuildStepView::StartGroup(lead);
    lemma_build_five(w, move_to, wait, dissolve, focus, start);
    assert(rebuild::start_steps(lead, temp) =~= seq![move_to, wait, dissolve, focus, start]);
    let a = w.act(ActionView::MoveToWorkspace(lead, temp));
    lemma_act_one(w, move_to);
    lemma_act_one(a, wait);
    lemma_consistent_act(w, ActionView::MoveToWorkspace(lead, temp));
    assert(!w.merges(lead, temp));
    assert forall|u: Seq<char>| w.has(u) implies #[trigger] a.windows[u] == w.moved(
        lead,
        temp,
        u,
    ) by {}
    assert(a.windows[lead] == w.moved(lead, temp, lead));
    assert(a.has(lead));
    assert(a.group(lead) == w.group(lead));
    let b = a.build_one(dissolve);
    lemma_dissolve(a, lead);
    let c = b.act(ActionView::FocusWindow(lead));
    lemma_act_one(b, focus);
    lemma_consistent_act(b, ActionView::FocusWindow(lead));
    assert(b.on(lead) == a.on(lead));
    assert(b.has(lead) && c.has(lead));
    lemma_count(c, lead);
    let e = c.build_one(start);
    assert(forall|u: Seq<char>| #[trigger] b.group(lead).contains(u) ==> u == lead);
    if c.group(lead).len() == 0 {
        let toggle = BuildStepView::Act(ActionView::ToggleGroup);
        let steps = start.resolved(0);
        assert(steps.drop_last() =~= seq![toggle]);
        lemma_act_one(c, toggle);
        assert(e == c.act(ActionView::ToggleGroup));
        lemma_consistent_act(c, ActionView::ToggleGroup);
        assert forall|u: Seq<char>| w.has(u) implies #[trigger] e.windows[u] == c.toggled(u) by {
            assert(a.has(u) && b.has(u) && c.has(u));
        }
        assert(e.windows[lead] == c.toggled(lead));
    } else {
        assert(start.resolved(c.group(lead).len()) =~= Seq::<BuildStepView>::empty());
        assert(e == c);
        assert(e.group(lead) =~= set![lead]);
    }
    assert forall|u: Seq<char>| #[trigger] e.has(u) == w.has(u) by {
        assert(a.has(u) == w.has(u));
        assert(b.has(u) == a.has(u));
        assert(c.has(u) == b.has(u));
    }
    assert forall|u: Seq<char>| w.has(u) && u != lead && w.group(lead).contains(u) implies
        #[trigger] e.group(u) == Set::<Seq<char>>::empty() by {
        assert(a.has(u));
        assert(b.group(u) == Set::<Seq<char>>::empty());
        if c.group(lead).len() == 0 {
            assert(e.windows[u] == c.toggled(u));
        }
    }
    assert forall|u: Seq<char>| w.has(u) && u != lead && !w.group(lead).contains(u) implies
        #[trigger] e.windows[u] == w.windows[u] by {
        assert(a.windows[u] == w.moved(lead, temp, u));
        assert(a.windows[u] == w.windows[u]);
        assert(a.has(u));
        assert(b.windows[u] == a.windows[u]);
        if c.group(lead).len() == 0 {
            assert(e.windows[u] == c.toggled(u));
        }
    }
}

/// A member joins the group of the leader, and what shared a group with it is in none.
proof fn lemma_member(
    w: World,
    member: Seq<char>,
    lead: Seq<char>,
    temp: Seq<char>,
    staging: Seq<char>,
)
    requires
        w.consistent(),
        w.has(member),
        w.has(lead),
        member != lead,
        w.group(lead).contains(lead),
        !w.group(lead).contains(member),
        w.on(lead) == temp,
        temp != staging,
        w.focus == lead,
        w.merging,
    ensures
        ({
            let e = w.build(rebuild::member_steps(member, lead, temp, staging));
            &&& e.consistent()
            &&& e.same_windows(w)
            &&& e.merging
            &&& e.focus == lead
            &&& e.on(member) == temp
            &&& forall|u: Seq<char>| w.has(u) && u != member ==> #[trigger] e.on(u) == w.on(u)
            &&& forall|u: Seq<char>|
                w.group(lead).contains(u) || u == member ==> #[trigger] e.group(u) == w.group(
                    lead,
                ).insert(member)
            &&& forall|u: Seq<char>|
                w.has(u) && u != member && w.group(member).contains(u) ==> #[trigger] e.group(u)
                    == Set::<Seq<char>>::empty()
            &&& forall|u: Seq<char>|
                w.has(u) && u != member && !w.group(member).contains(u) && !w.group(lead).contains(u)
                    ==> #[trigger] e.windows[u] == w.windows[u]
        }),
{
    let dissolve = BuildStepView::Dissolve(member);
    let aside = BuildStepView::Act(ActionView::MoveToWorkspace(member, staging));
    let wait = rebuild::member_steps(member, lead, temp, staging)[2];
    let focus = BuildStepView::Act(ActionView::FocusWindow(lead));
    let join = BuildStepView::Join(member, lead, temp);
    lemma_build_five(w, dissolve, aside, wait, focus, join);
    assert(rebuild::member_steps(member, lead, temp, staging) =~= seq![
        dissolve,
        aside,
        wait,
        focus,
        join,
    ]);
    let a = w.build_one(dissolve);
    lemma_dissolve(w, member);
    assert(!w.group(member).contains(lead));
    assert(a.windows[lead] == w.windows[lead]);
    assert(a.has(member) && a.has(lead));
    let b = a.act(ActionView::MoveToWorkspace(member, staging));
    lemma_act_one(a, aside);
    lemma_act_one(b, wait);
    lemma_consistent_act(a, ActionView::MoveToWorkspace(member, staging));
    assert(a.moving(member) =~= set![member]);
    assert(!a.merges(member, staging)) by {
        assert(a.on(lead) == temp);
    }
    let c = b.act(ActionView::FocusWindow(lead));
    lemma_act_one(b, focus);
    lemma_consistent_act(b, ActionView::FocusWindow(lead));
    assert(b.has(member) && b.has(lead) && c.has(member) && c.has(lead));
    assert(c.windows[member] == a.moved(member, staging, member));
    assert(c.windows[lead] == a.moved(member, staging, lead));
    assert(c.group(member) == a.group(member));
    assert(c.moving(member) =~= set![member]);
    let e = c.build_one(join);
    let enter = BuildStepView::Act(ActionView::MoveToWorkspace(member, temp));
    let steps = join.resolved(c.group(lead).len());
    assert(steps.drop_last() =~= seq![enter]);
    lemma_act_one(c, enter);
    assert(e == c.act(ActionView::MoveToWorkspace(member, temp)));
    lemma_consistent_act(c, ActionView::MoveToWorkspace(member, temp));
    assert(c.merges(member, temp));
    let united = c.group(lead).union(c.moving(member));
    assert(united =~= w.group(lead).insert(member));
    assert forall|u: Seq<char>| #[trigger] e.has(u) == w.has(u) by {
        assert(a.has(u) == w.has(u));
        assert(b.has(u) == a.has(u));
        assert(c.has(u) == b.has(u));
    }
    assert forall|u: Seq<char>| w.has(u) implies #[trigger] e.windows[u] == c.moved(
        member,
        temp,
        u,
    ) && c.windows[u] == a.moved(member, staging, u) by {
        assert(a.has(u) && b.has(u) && c.has(u));
    }
    assert(e.windows[member] == c.moved(member, temp, member));
    assert forall|u: Seq<char>| w.has(u) && u != member implies #[trigger] e.on(u) == w.on(u) by {
        assert(e.windows[u] == c.moved(member, temp, u));
        assert(a.on(u) == w.on(u));
    }
    assert forall|u: Seq<char>| w.group(lead).contains(u) || u == member implies
        #[trigger] e.group(u) == w.group(lead).insert(member) by {
        assert(w.has(u));
        assert(e.windows[u] == c.moved(member, temp, u));
    }
    assert forall|u: Seq<char>| w.has(u) && u != member && w.group(member).contains(u) implies
        #[trigger] e.group(u) == Set::<Seq<char>>::empty() by {
        assert(e.windows[u] == c.moved(member, temp, u));
        assert(a.group(u) == Set::<Seq<char>>::empty());
        if w.group(lead).contains(u) {
            assert(w.group(u) == w.group(lead));
            assert(w.group(u) == w.group(member));
            assert(w.group(member).contains(member));
        }
    }
    assert forall|u: Seq<char>|
        w.has(u) && u != member && !w.group(member).contains(u) && !w.group(lead).contains(
            u,
        ) implies #[trigger] e.windows[u] == w.windows[u] by {
        assert(e.windows[u] == c.moved(member, temp, u));
        assert(a.windows[u] == w.windows[u]);
    }
}

/// The members join the leader one after the other.
proof fn lemma_gather(
    w: World,
    rest: Seq<Seq<char>>,
    lead: Seq<char>,
    temp: Seq<char>,
    staging: Seq<char>,
)
    requires
        w.consistent(),
        w.has(lead),
        w.group(lead) == set![lead],
        w.on(lead) == temp,
        temp != staging,
        w.focus == lead,
        w.merging,
        rest.no_duplicates(),
        !rest.contains(lead),
        forall|i: int| 0 <= i < rest.len() ==> w.has(#[trigger] rest[i]),
    ensures
        ({
            let e = w.build(rebuild::gather_steps(rest, lead, temp, staging));
            let all = rest.to_set().insert(lead);
            &&& e.consistent()
            &&& e.same_windows(w)
            &&& e.merging
            &&& e.focus == lead
            &&& forall|u: Seq<char>| all.contains(u) ==> #[trigger] e.group(u) == all
            &&& forall|u: Seq<char>| all.contains(u) ==> #[trigger] e.on(u) == temp
            &&& forall|u: Seq<char>|
                w.has(u) && !all.contains(u) ==> #[trigger] e.windows[u] == w.windows[u] || e.group(
                    u,
                ) == Set::<Seq<char>>::empty()
            &&& forall|u: Seq<char>|
                w.has(u) && !all.contains(u) && w.group(u).disjoint(all)
                    ==> #[trigger] e.windows[u] == w.windows[u]
        }),
    decreases rest.len(),
{
    let steps = rebuild::gather_steps(rest, lead, temp, staging);
    let all = rest.to_set().insert(lead);
    if rest.len() == 0 {
        assert(all =~= set![lead]);
        assert(w.build(steps) == w);
    } else {
        let fewer = rest.drop_last();
        let m = rest.last();
        let before = w.build(rebuild::gather_steps(fewer, lead, temp, staging));
        let some = fewer.to_set().insert(lead);
        assert(w.has(rest[rest.len() - 1]));
        assert forall|i: int| 0 <= i < fewer.len() implies w.has(#[trigger] fewer[i]) by {
            assert(fewer[i] == rest[i]);
        }
        assert(!fewer.contains(lead)) by {
            if fewer.contains(lead) {
                let i = choose|i: int| 0 <= i < fewer.len() && fewer[i] == lead;
                assert(rest[i] == lead);
            }
        }
        assert(rest.contains(m));
        assert(!fewer.contains(m)) by {
            if fewer.contains(m) {
                let i = choose|i: int| 0 <= i < fewer.len() && fewer[i] == m;
                assert(rest[i] == rest[rest.len() - 1]);
            }
        }
        lemma_gather(w, fewer, lead, temp, staging);
        assert(some.contains(lead));
        assert(before.group(lead) == some);
        assert(before.on(lead) == temp);
        assert(before.has(m) && before.has(lead));
        assert(!some.contains(m));
        lemma_member(before, m, lead, temp, staging);
        lemma_build_append(
            w,
            rebuild::gather_steps(fewer, lead, temp, staging),
            rebuild::member_steps(m, lead, temp, staging),
        );
        let e = w.build(steps);
        assert(e == before.build(rebuild::member_steps(m, lead, temp, staging)));
        assert(all =~= some.insert(m)) by {
            assert forall|u: Seq<char>| all.contains(u) == some.insert(m).contains(u) by {
                if rest.contains(u) {
                    let i = choose|i: int| 0 <= i < rest.len() && rest[i] == u;
                    if i < fewer.len() {
                        assert(fewer[i] == u);
                    }
                }
                if fewer.contains(u) {
                    let i = choose|i: int| 0 <= i < fewer.len() && fewer[i] == u;
                    assert(rest[i] == u);
                }
            }
        }
        assert forall|u: Seq<char>| #[trigger] e.has(u) == w.has(u) by {
            assert(before.has(u) == w.has(u));
        }
        assert forall|u: Seq<char>| all.contains(u) implies #[trigger] e.group(u) == all by {
            assert(before.group(lead).contains(u) || u == m);
        }
        assert forall|u: Seq<char>| all.contains(u) implies #[trigger] e.on(u) == temp by {
            if u != m {
                assert(some.contains(u));
                assert(before.on(u) == temp);
                assert(before.group(lead).contains(u));
                assert(before.has(u));
            }
        }
        assert forall|u: Seq<char>| w.has(u) && !all.contains(u) implies #[trigger] e.windows[u]
            == w.windows[u] || e.group(u) == Set::<Seq<char>>::empty() by {
            assert(before.has(u));
            assert(before.windows[u] == w.windows[u] || before.group(u) == Set::<
                Seq<char>,
            >::empty());
            if !before.group(m).contains(u) {
                assert(e.windows[u] == before.windows[u]);
            } else {
                assert(e.group(u) == Set::<Seq<char>>::empty());
            }
        }
        assert forall|u: Seq<char>|
            w.has(u) && !all.contains(u) && w.group(u).disjoint(all) implies
            #[trigger] e.windows[u] == w.windows[u] by {
            assert(before.has(u));
            assert(w.group(u).disjoint(some));
            assert(before.windows[u] == w.windows[u]);
            if before.group(m).contains(u) {
                assert(before.group(u) == before.group(m));
                assert(before.group(m).contains(m));
                assert(w.group(u).contains(m));
            }
            assert(e.windows[u] == before.windows[u]);
        }
    }
}

/// The group is moved whole, and merges with nothing.
proof fn lemma_finish(w: World, lead: Seq<char>, dest: Seq<char>)
    requires
        w.consistent(),
        w.has(lead),
        w.group(lead).contains(lead),
    ensures
        ({
            let e = w.build(rebuild::finish_steps(lead, dest));
            &&& e.consistent()
            &&& e.same_windows(w)
            &&& e.merging
            &&& forall|u: Seq<char>| w.has(u) ==> #[trigger] e.group(u) == w.group(u)
            &&& forall|u: Seq<char>| w.group(lead).contains(u) ==> #[trigger] e.on(u) == dest
            &&& forall|u: Seq<char>|
                w.has(u) && !w.group(lead).contains(u) ==> #[trigger] e.windows[u] == w.windows[u]
        }),
{
    let off = BuildStepView::Act(ActionView::SetMerging(false));
    let focus = BuildStepView::Act(ActionView::FocusWindow(lead));
    let move_to = BuildStepView::Act(ActionView::MoveToWorkspace(lead, dest));
    let settle = rebuild::finish_steps(lead, dest)[3];
    let on = BuildStepView::Act(ActionView::SetMerging(true));
    lemma_build_five(w, off, focus, move_to, settle, on);
    assert(rebuild::finish_steps(lead, dest) =~= seq![off, focus, move_to, settle, on]);
    let a = w.act(ActionView::SetMerging(false)).act(ActionView::FocusWindow(lead));
    let b = a.act(ActionView::MoveToWorkspace(lead, dest));
    let e = b.act(ActionView::SetMerging(true));
    lemma_act_one(w, off);
    lemma_act_one(w.act(ActionView::SetMerging(false)), focus);
    lemma_act_one(a, move_to);
    lemma_act_one(b, settle);
    lemma_act_one(b, on);
    assert(e == w.build(rebuild::finish_steps(lead, dest)));
    lemma_consistent_act(w, ActionView::SetMerging(false));
    lemma_consistent_act(w.act(ActionView::SetMerging(false)), ActionView::FocusWindow(lead));
    assert(a.has(lead));
    lemma_consistent_act(a, ActionView::MoveToWorkspace(lead, dest));
    lemma_consistent_act(b, ActionView::SetMerging(true));
    lemma_moved_whole(w, a, e, lead, dest);
}

/// A group that is moved with merging off.
proof fn lemma_moved_whole(w: World, a: World, e: World, lead: Seq<char>, dest: Seq<char>)
    requires
        w.consistent(),
        w.has(lead),
        w.group(lead).contains(lead),
        a.windows == w.windows,
        !a.merging,
        e.windows == a.act(ActionView::MoveToWorkspace(lead, dest)).windows,
    ensures
        e.same_windows(w),
        forall|u: Seq<char>| w.has(u) ==> #[trigger] e.group(u) == w.group(u),
        forall|u: Seq<char>| w.group(lead).contains(u) ==> #[trigger] e.on(u) == dest,
        forall|u: Seq<char>|
            w.has(u) && !w.group(lead).contains(u) ==> #[trigger] e.windows[u] == w.windows[u],
{
    assert forall|u: Seq<char>| w.has(u) implies #[trigger] e.windows[u] == a.moved(
        lead,
        dest,
        u,
    ) by {
        assert(a.has(u));
    }
    assert forall|u: Seq<char>| #[trigger] e.has(u) == w.has(u) by {
        assert(a.has(u) == w.has(u));
    }
    assert forall|u: Seq<char>| w.has(u) implies #[trigger] e.group(u) == w.group(u) by {
        assert(e.windows[u] == a.moved(lead, dest, u));
    }
    assert forall|u: Seq<char>| w.group(lead).contains(u) implies #[trigger] e.on(u) == dest by {
        assert(w.has(u));
        assert(e.windows[u] == a.moved(lead, dest, u));
    }
    assert forall|u: Seq<char>| w.has(u) && !w.group(lead).contains(u) implies
        #[trigger] e.windows[u] == w.windows[u] by {
        assert(e.windows[u] == a.moved(lead, dest, u));
    }
}

/// Dissolving the group of a window leaves all its members in no group, where they are, and
/// changes no other window.
pub proof fn law_dissolved_windows_stand_alone(w: World, x: Seq<char>, u: Seq<char>)
    requires
        w.consistent(),
        w.has(x),
        w.has(u),
        w.group(x).len() > 1,
    ensures
        ({
            let e = w.build_one(BuildStepView::Dissolve(x));
            &&& w.group(x).contains(u) ==> e.group(u) == Set::<Seq<char>>::empty() && e.on(u)
                == w.on(u)
            &&& !w.group(x).contains(u) ==> e.windows[u] == w.windows[u]
        }),
{
    let e = w.build_one(BuildStepView::Dissolve(x));
    lemma_dissolve(w, x);
    assert(e.on(u) == w.on(u) || !w.has(u));
    if w.group(x).contains(u) && u != x {
        assert(e.group(u) == Set::<Seq<char>>::empty());
    }
}

/// The steps that rebuild a group do so: with merging on, and nothing on the workspaces that
/// the group is put together on, the members end up as one group of exactly them, on their
/// workspace, whatever groups they were in and whatever is on that workspace already. Merging
/// is on again afterwards. A window that is no member and shared no group with one is left as
/// it was; one that shared a group with a member is in no group.
pub proof fn law_group_is_rebuilt(
    w: World,
    members: Seq<Seq<char>>,
    temp_ws: int,
    dest: Seq<char>,
)
    requires
        w.consistent(),
        w.merging,
        members.len() > 0,
        members.no_duplicates(),
        forall|i: int| 0 <= i < members.len() ==> w.has(#[trigger] members[i]),
        forall|v: Seq<char>|
            w.has(v) ==> #[trigger] w.on(v) != numbers::decimal(temp_ws) && w.on(v)
                != numbers::decimal(temp_ws + 1),
    ensures
        ({
            let e = w.build(rebuild::rebuild_steps(members, temp_ws, dest));
            &&& e.merging
            &&& forall|i: int|
                0 <= i < members.len() ==> e.group(#[trigger] members[i]) == members.to_set()
                    && e.on(members[i]) == dest
            &&& forall|u: Seq<char>|
                w.has(u) && !members.contains(u) && w.group(u).disjoint(members.to_set())
                    ==> #[trigger] e.windows[u] == w.windows[u]
            &&& forall|u: Seq<char>|
                w.has(u) && !members.contains(u) && !w.group(u).disjoint(members.to_set())
                    ==> #[trigger] e.group(u) == Set::<Seq<char>>::empty()
        }),
{
    let lead = members[0];
    let rest = members.drop_first();
    let temp = numbers::decimal(temp_ws);
    let staging = numbers::decimal(temp_ws + 1);
    let start = rebuild::start_steps(lead, temp);
    let gather = rebuild::gather_steps(rest, lead, temp, staging);
    let finish = rebuild::finish_steps(lead, dest);
    let a = w.build(start);
    let b = a.build(gather);
    let e = b.build(finish);
    let all = members.to_set();
    if temp == staging {
        numbers::law_decimal_is_injective(temp_ws, temp_ws + 1);
    }
    lemma_build_append(w, start + gather, finish);
    lemma_build_append(w, start, gather);
    assert(e == w.build(rebuild::rebuild_steps(members, temp_ws, dest)));
    lemma_start(w, lead, temp);
    assert(a.has(lead));
    assert forall|i: int| 0 <= i < rest.len() implies a.has(#[trigger] rest[i]) by {
        assert(rest[i] == members[i + 1]);
        assert(a.has(members[i + 1]) == w.has(members[i + 1]));
    }
    assert(!rest.contains(lead)) by {
        if rest.contains(lead) {
            let i = choose|i: int| 0 <= i < rest.len() && rest[i] == lead;
            assert(members[i + 1] == members[0]);
        }
    }
    lemma_gather(a, rest, lead, temp, staging);
    assert(rest.to_set().insert(lead) =~= all) by {
        assert forall|u: Seq<char>| rest.to_set().insert(lead).contains(u) == all.contains(u) by {
            if members.contains(u) {
                let i = choose|i: int| 0 <= i < members.len() && members[i] == u;
                if i > 0 {
                    assert(rest[i - 1] == u);
                }
            }
            if rest.contains(u) {
                let i = choose|i: int| 0 <= i < rest.len() && rest[i] == u;
                assert(members[i + 1] == u);
            }
        }
    }
    assert(all.contains(lead));
    assert(b.has(lead));
    assert(b.group(lead) == all);
    lemma_finish(b, lead, dest);
    assert forall|i: int| 0 <= i < members.len() implies e.group(#[trigger] members[i]) == all
        && e.on(members[i]) == dest by {
        let m = members[i];
        assert(all.contains(m));
        assert(w.has(m) && a.has(m) && b.has(m));
        assert(b.group(m) == all);
        assert(e.group(m) == b.group(m));
        assert(b.group(lead).contains(m));
    }
    assert forall|u: Seq<char>| w.has(u) && !members.contains(u) && w.group(u).disjoint(
        all,
    ) implies #[trigger] e.windows[u] == w.windows[u] by {
        assert(a.has(u) && b.has(u));
        assert(!all.contains(u));
        if w.group(lead).contains(u) {
            assert(w.group(u) == w.group(lead));
            assert(w.group(u).contains(lead));
        }
        assert(a.windows[u] == w.windows[u]);
        assert(a.group(u) == w.group(u));
        assert(b.windows[u] == a.windows[u]);
    }
    assert forall|u: Seq<char>| w.has(u) && !members.contains(u) && !w.group(u).disjoint(
        all,
    ) implies #[trigger] e.group(u) == Set::<Seq<char>>::empty() by {
        assert(a.has(u) && b.has(u));
        assert(!all.contains(u));
        assert(e.group(u) == b.group(u));
        if b.group(u) != Set::<Seq<char>>::empty() {
            assert(b.windows[u] == a.windows[u]);
            if w.group(lead).contains(u) {
                assert(a.group(u) == Set::<Seq<char>>::empty());
            } else {
                assert(a.windows[u] == w.windows[u]);
            }
            let x = choose|x: Seq<char>| w.group(u).contains(x) && all.contains(x);
            assert(w.group(u).contains(x) && all.contains(x));
            assert(b.group(u).contains(x));
            assert(b.group(x) == b.group(u));
            assert(b.group(u).contains(u));
            assert(b.group(x) == all);
        }
    }
}

/// An intact group that is on another workspace is moved whole: all its windows end up where
/// they belong, still as one group, and no other window changes. Merging is on afterwards.
pub proof fn law_intact_group_is_moved_whole(w: World, task: GroupTaskView)
    requires
        w.consistent(),
        w.has(task.members[0]),
        w.group(task.members[0]).contains(task.members[0]),
    ensures
        ({
            let e = w.run(plan::move_group_steps(task));
            let lead = task.members[0];
            &&& e.merging
            &&& forall|u: Seq<char>| w.has(u) ==> #[trigger] e.group(u) == w.group(u)
            &&& forall|u: Seq<char>| w.group(lead).contains(u) ==> #[trigger] e.on(u) == task.dest
            &&& forall|u: Seq<char>|
                w.has(u) && !w.group(lead).contains(u) ==> #[trigger] e.windows[u] == w.windows[u]
        }),
{
    let lead = task.members[0];
    let steps = plan::move_group_steps(task);
    let a = w.act(ActionView::SetMerging(false)).act(ActionView::FocusWindow(lead));
    let b = a.act(ActionView::MoveToWorkspace(lead, task.dest));
    let e = b.act(ActionView::SetMerging(true));
    assert(steps.take(0) =~= Seq::<StepView>::empty());
    assert(steps.take(1).drop_last() =~= steps.take(0));
    assert(steps.take(2).drop_last() =~= steps.take(1));
    assert(steps.take(3).drop_last() =~= steps.take(2));
    assert(steps.take(4).drop_last() =~= steps.take(3));
    assert(steps.take(5).drop_last() =~= steps.take(4));
    assert(steps.drop_last() =~= steps.take(5));
    assert(w.run(steps.take(0)) == w);
    assert(w.run(steps.take(1)) == w);
    assert(w.run(steps.take(2)) == w.act(ActionView::SetMerging(false)));
    assert(w.run(steps.take(3)) == a);
    assert(w.run(steps.take(4)) == b);
    assert(w.run(steps.take(5)) == b);
    assert(w.run(steps) == e);
    lemma_moved_whole(w, a, e, lead, task.dest);
}

} // verus!
