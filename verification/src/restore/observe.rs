//! What the open windows show.
use vstd::prelude::*;

use super::workspace;
use super::workspace::workspace_target;
use crate::ipc::HyprClient;
use crate::text;
use crate::text::same_text;

verus! {

/// The first window with this address.
pub open spec fn window_at(clients: Seq<HyprClient>, address: Seq<char>) -> Option<HyprClient>
    decreases clients.len(),
{
    if clients.len() == 0 {
        None
    } else if clients[0].address@ == address {
        Some(clients[0])
    } else {
        window_at(clients.drop_first(), address)
    }
}

/// Finds the first window with this address.
pub fn find_window<'a>(clients: &'a [HyprClient], address: &str) -> (found: Option<&'a HyprClient>)
    ensures
        match found {
            Some(client) => window_at(clients@, address@) == Some(*client),
            None => window_at(clients@, address@) is None,
        },
{
    let mut i: usize = 0;
    proof {
        assert(clients@.skip(0) =~= clients@);
    }
    while i < clients.len()
        invariant
            i <= clients@.len(),
            window_at(clients@, address@) == window_at(clients@.skip(i as int), address@),
        decreases clients@.len() - i,
    {
        if same_text(clients[i].address.as_str(), address) {
            return Some(&clients[i]);
        }
        proof {
            assert(clients@.skip(i as int).drop_first() =~= clients@.skip(i + 1));
        }
        i = i + 1;
    }
    None
}

/// The open windows, where they could be read.
pub open spec fn read_windows(clients: Option<&Vec<HyprClient>>) -> Option<Seq<HyprClient>> {
    match clients {
        Some(clients) => Some(clients@),
        None => None,
    }
}

/// The first window with this address, where the windows could be read.
pub open spec fn seen_at(clients: Option<Seq<HyprClient>>, address: Seq<char>) -> Option<
    HyprClient,
> {
    match clients {
        Some(clients) => window_at(clients, address),
        None => None,
    }
}

/// The number of windows in the group of the window with this address; zero where it is in
/// none, is not open, or the windows could not be read.
pub open spec fn count_in_group(clients: Option<Seq<HyprClient>>, address: Seq<char>) -> nat {
    match seen_at(clients, address) {
        Some(client) => client.grouped@.len(),
        None => 0,
    }
}

/// Number of windows in the group the given address belongs to (0 if ungrouped).
pub fn grouped_count(clients: Option<&Vec<HyprClient>>, address: &str) -> (count: usize)
    ensures
        count == count_in_group(read_windows(clients), address@),
{
    match clients {
        Some(clients) => match find_window(clients.as_slice(), address) {
            Some(client) => client.grouped.len(),
            None => 0,
        },
        None => 0,
    }
}

/// The selector of the workspace that the window with this address is on.
pub open spec fn workspace_of(clients: Option<Seq<HyprClient>>, address: Seq<char>) -> Option<
    Seq<char>,
> {
    match seen_at(clients, address) {
        Some(client) => Some(workspace::selector(client.workspace)),
        None => None,
    }
}

/// The workspace target string the given window is currently on, if found.
pub fn client_ws(clients: Option<&Vec<HyprClient>>, address: &str) -> (target: Option<String>)
    ensures
        text::opt_text(target) == workspace_of(read_windows(clients), address@),
{
    match clients {
        Some(clients) => match find_window(clients.as_slice(), address) {
            Some(client) => Some(workspace_target(&client.workspace)),
            None => None,
        },
        None => None,
    }
}

fn contains_text(list: &Vec<String>, s: &String) -> (yes: bool)
    ensures
        yes == text::texts(list@).contains(s@),
{
    let mut i: usize = 0;
    while i < list.len()
        invariant
            i <= list@.len(),
            forall|k: int| 0 <= k < i ==> #[trigger] text::texts(list@)[k] != s@,
        decreases list@.len() - i,
    {
        if list[i] == *s {
            proof {
                assert(text::texts(list@)[i as int] == s@);
            }
            return true;
        }
        i = i + 1;
    }
    false
}

fn all_in(list: &Vec<String>, other: &Vec<String>) -> (yes: bool)
    ensures
        yes == text::texts(list@).to_set().subset_of(text::texts(other@).to_set()),
{
    let mut i: usize = 0;
    while i < list.len()
        invariant
            i <= list@.len(),
            forall|k: int|
                0 <= k < i ==> text::texts(other@).contains(#[trigger] text::texts(list@)[k]),
        decreases list@.len() - i,
    {
        if !contains_text(other, &list[i]) {
            proof {
                let x = text::texts(list@)[i as int];
                assert(text::texts(list@).to_set().contains(x));
                assert(!text::texts(other@).to_set().contains(x));
            }
            return false;
        }
        proof {
            assert(text::texts(list@)[i as int] == list@[i as int]@);
        }
        i = i + 1;
    }
    true
}

/// Where an intact group is: the workspace of its first member, if that window is open and its
/// group has exactly these members.
pub open spec fn intact_on(clients: Option<Seq<HyprClient>>, members: Seq<Seq<char>>) -> Option<
    Seq<char>,
> {
    match seen_at(clients, members[0]) {
        Some(lead) => if text::texts(lead.grouped@).to_set() == members.to_set() {
            Some(workspace::selector(lead.workspace))
        } else {
            None
        },
        None => None,
    }
}

/// If the live windows for `members` already form exactly this group (same member set, no more,
/// no fewer), the workspace target they are on; otherwise `None`.
pub fn existing_group_ws(clients: Option<&Vec<HyprClient>>, members: &Vec<String>) -> (target:
    Option<String>)
    requires
        members@.len() > 0,
    ensures
        text::opt_text(target) == intact_on(read_windows(clients), text::texts(members@)),
{
    proof {
        assert(text::texts(members@)[0] == members@[0]@);
    }
    match clients {
        Some(clients) => match find_window(clients.as_slice(), members[0].as_str()) {
            Some(lead) => {
                let forth = all_in(&lead.grouped, members);
                let back = all_in(members, &lead.grouped);
                if forth && back {
                    proof {
                        assert(text::texts(lead.grouped@).to_set() =~= text::texts(
                            members@,
                        ).to_set());
                    }
                    Some(workspace_target(&lead.workspace))
                } else {
                    None
                }
            },
            None => None,
        },
        None => None,
    }
}

/// Something to wait for.
#[derive(Debug)]
pub enum Condition {
    /// The window with this address is on this workspace.
    OnWorkspace(String, String),
    /// The group of the window has at most so many windows.
    GroupAtMost(String, usize),
    /// The group of the window has at least so many windows.
    GroupAtLeast(String, usize),
    /// The group of the window has more windows than this.
    GroupAbove(String, usize),
}

/// A condition by the texts in it.
pub enum ConditionView {
    OnWorkspace(Seq<char>, Seq<char>),
    GroupAtMost(Seq<char>, nat),
    GroupAtLeast(Seq<char>, nat),
    GroupAbove(Seq<char>, nat),
}

impl View for Condition {
    type V = ConditionView;

    open spec fn view(&self) -> ConditionView {
        match self {
            Condition::OnWorkspace(window, target) => ConditionView::OnWorkspace(window@, target@),
            Condition::GroupAtMost(window, n) => ConditionView::GroupAtMost(window@, *n as nat),
            Condition::GroupAtLeast(window, n) => ConditionView::GroupAtLeast(window@, *n as nat),
            Condition::GroupAbove(window, n) => ConditionView::GroupAbove(window@, *n as nat),
        }
    }
}

impl ConditionView {
    /// The open windows meet the condition.
    pub open spec fn holds(self, clients: Option<Seq<HyprClient>>) -> bool {
        match self {
            ConditionView::OnWorkspace(window, target) => workspace_of(clients, window) == Some(
                target,
            ),
            ConditionView::GroupAtMost(window, n) => count_in_group(clients, window) <= n,
            ConditionView::GroupAtLeast(window, n) => count_in_group(clients, window) >= n,
            ConditionView::GroupAbove(window, n) => count_in_group(clients, window) > n,
        }
    }
}

impl Condition {
    /// Whether the open windows meet the condition. Windows that could not be read show no
    /// workspace and no group.
    pub fn holds(&self, clients: Option<&Vec<HyprClient>>) -> (yes: bool)
        ensures
            yes == self@.holds(read_windows(clients)),
    {
        match self {
            Condition::OnWorkspace(window, target) => match client_ws(clients, window.as_str()) {
                Some(on) => on == *target,
                None => false,
            },
            Condition::GroupAtMost(window, n) => grouped_count(clients, window.as_str()) <= *n,
            Condition::GroupAtLeast(window, n) => grouped_count(clients, window.as_str()) >= *n,
            Condition::GroupAbove(window, n) => grouped_count(clients, window.as_str()) > *n,
        }
    }
}

/// The window with an address is the first that has it, and there is none exactly if no window
/// has it.
pub proof fn law_first_window_is_found(clients: Seq<HyprClient>, address: Seq<char>)
    ensures
        match window_at(clients, address) {
            Some(client) => exists|i: int|
                0 <= i < clients.len() && (#[trigger] clients[i]) == client && client.address@
                    == address && forall|j: int|
                    0 <= j < i ==> (#[trigger] clients[j]).address@ != address,
            None => forall|j: int|
                0 <= j < clients.len() ==> (#[trigger] clients[j]).address@ != address,
        },
    decreases clients.len(),
{
    if clients.len() > 0 {
        let rest = clients.drop_first();
        if clients[0].address@ != address {
            law_first_window_is_found(rest, address);
            match window_at(rest, address) {
                Some(client) => {
                    let k = choose|k: int|
                        0 <= k < rest.len() && (#[trigger] rest[k]) == client && client.address@
                            == address && forall|j: int|
                            0 <= j < k ==> (#[trigger] rest[j]).address@ != address;
                    assert(clients[k + 1] == client);
                    assert forall|j: int| 0 <= j < k + 1 implies (#[trigger] clients[j]).address@
                        != address by {
                        if j > 0 {
                            assert(rest[j - 1] == clients[j]);
                        }
                    }
                },
                None => {
                    assert forall|j: int| 0 <= j < clients.len() implies (
                    #[trigger] clients[j]).address@ != address by {
                        if j > 0 {
                            assert(rest[j - 1] == clients[j]);
                        }
                    }
                },
            }
        } else {
            assert(clients[0] == window_at(clients, address)->0);
        }
    }
}

/// Of a window that is open, its own group and workspace count; of one that is not, or where the
/// windows could not be read, there is no group and no workspace.
pub proof fn law_what_is_seen_of_a_window(clients: Seq<HyprClient>, address: Seq<char>)
    ensures
        window_at(clients, address) is Some ==> {
            let client = window_at(clients, address)->0;
            &&& count_in_group(Some(clients), address) == client.grouped@.len()
            &&& workspace_of(Some(clients), address) == Some(workspace::selector(client.workspace))
        },
        window_at(clients, address) is None ==> {
            &&& count_in_group(Some(clients), address) == 0
            &&& workspace_of(Some(clients), address) is None
        },
        count_in_group(None, address) == 0,
        workspace_of(None, address) is None,
{
}

/// A group is intact exactly if its first member is open, every window in that one's live group
/// is a member, and every member is in that live group. It is then where its first member is.
pub proof fn law_intact_groups(clients: Seq<HyprClient>, members: Seq<Seq<char>>)
    requires
        members.len() > 0,
    ensures
        ({
            let lead = window_at(clients, members[0]);
            let intact = lead is Some && (forall|i: int|
                0 <= i < lead->0.grouped@.len() ==> members.contains(
                    #[trigger] lead->0.grouped@[i]@,
                )) && (forall|m: int|
                0 <= m < members.len() ==> exists|i: int|
                    0 <= i < lead->0.grouped@.len() && #[trigger] lead->0.grouped@[i]@
                        == #[trigger] members[m]);
            &&& intact ==> intact_on(Some(clients), members) == Some(
                workspace::selector(lead->0.workspace),
            )
            &&& !intact ==> intact_on(Some(clients), members) is None
        }),
        intact_on(None, members) is None,
{
    let lead = window_at(clients, members[0]);
    if lead is Some {
        let live = text::texts(lead->0.grouped@);
        let there = forall|i: int|
            0 <= i < lead->0.grouped@.len() ==> members.contains(#[trigger] lead->0.grouped@[i]@);
        let back = forall|m: int|
            0 <= m < members.len() ==> exists|i: int|
                0 <= i < lead->0.grouped@.len() && #[trigger] lead->0.grouped@[i]@
                    == #[trigger] members[m];
        if there && back {
            assert forall|x: Seq<char>| live.to_set().contains(x) == members.to_set().contains(
                x,
            ) by {
                if live.contains(x) {
                    let i = choose|i: int| 0 <= i < live.len() && live[i] == x;
                    assert(lead->0.grouped@[i]@ == x);
                }
                if members.contains(x) {
                    let m = choose|m: int| 0 <= m < members.len() && members[m] == x;
                    let i = choose|i: int|
                        0 <= i < lead->0.grouped@.len() && #[trigger] lead->0.grouped@[i]@
                            == members[m];
                    assert(live[i] == x);
                }
            }
            assert(live.to_set() =~= members.to_set());
        }
        if live.to_set() == members.to_set() {
            assert forall|i: int| 0 <= i < lead->0.grouped@.len() implies members.contains(
                #[trigger] lead->0.grouped@[i]@,
            ) by {
                assert(live[i] == lead->0.grouped@[i]@);
                assert(live.to_set().contains(live[i]));
                assert(members.to_set().contains(live[i]));
            }
            assert forall|m: int| 0 <= m < members.len() implies exists|i: int|
                0 <= i < lead->0.grouped@.len() && #[trigger] lead->0.grouped@[i]@
                    == #[trigger] members[m] by {
                assert(members.to_set().contains(members[m]));
                assert(live.to_set().contains(members[m]));
                let i = choose|i: int| 0 <= i < live.len() && live[i] == members[m];
                assert(lead->0.grouped@[i]@ == members[m]);
            }
        }
    }
}

/// A condition shows its texts and numbers as they are.
pub proof fn law_condition_is_shown(a: String, b: String, n: usize)
    ensures
        Condition::OnWorkspace(a, b)@ == ConditionView::OnWorkspace(a@, b@),
        Condition::GroupAtMost(a, n)@ == ConditionView::GroupAtMost(a@, n as nat),
        Condition::GroupAtLeast(a, n)@ == ConditionView::GroupAtLeast(a@, n as nat),
        Condition::GroupAbove(a, n)@ == ConditionView::GroupAbove(a@, n as nat),
{
}

/// When each condition is met.
pub proof fn law_conditions(
    clients: Option<Seq<HyprClient>>,
    window: Seq<char>,
    target: Seq<char>,
    n: nat,
)
    ensures
        ConditionView::OnWorkspace(window, target).holds(clients) <==> workspace_of(clients, window)
            == Some(target),
        ConditionView::GroupAtMost(window, n).holds(clients) <==> count_in_group(clients, window)
            <= n,
        ConditionView::GroupAtLeast(window, n).holds(clients) <==> count_in_group(clients, window)
            >= n,
        ConditionView::GroupAbove(window, n).holds(clients) <==> count_in_group(clients, window)
            > n,
{
}

/// Windows that were read are shown as they are.
pub proof fn law_read_windows(clients: &Vec<HyprClient>)
    ensures
        read_windows(Some(clients)) == Some(clients@),
        read_windows(None) is None,
{
}

} // verus!
