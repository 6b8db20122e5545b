//! Which windows of a session form tabbed groups.
use vstd::hash_map::StringHashMap;
use vstd::prelude::*;

use crate::ipc::HyprClient;
use crate::text;
use crate::text::sort_texts;

verus! {

/// The index of the window with this address; of the last one, should there be several.
pub open spec fn owner(clients: Seq<HyprClient>, address: Seq<char>) -> Option<int>
    decreases clients.len(),
{
    if clients.len() == 0 {
        None
    } else if clients.last().address@ == address {
        Some(clients.len() - 1)
    } else {
        owner(clients.drop_last(), address)
    }
}

/// The window with an address is in the list and has that address.
pub proof fn lemma_owner(clients: Seq<HyprClient>, address: Seq<char>)
    ensures
        match owner(clients, address) {
            Some(i) => 0 <= i < clients.len() && clients[i].address@ == address && forall|j: int|
                i < j < clients.len() ==> (#[trigger] clients[j]).address@ != address,
            None => forall|j: int|
                0 <= j < clients.len() ==> (#[trigger] clients[j]).address@ != address,
        },
    decreases clients.len(),
{
    if clients.len() > 0 && clients.last().address@ != address {
        let short = clients.drop_last();
        lemma_owner(short, address);
        let from = match owner(short, address) {
            Some(i) => i + 1,
            None => 0,
        };
        assert forall|j: int| from <= j < clients.len() implies (#[trigger] clients[j]).address@
            != address by {
            if j < short.len() {
                assert(short[j] == clients[j]);
            }
        }
    }
}

/// The windows with these addresses, in the order of the addresses. Addresses of no window
/// are passed over.
pub open spec fn windows_at(clients: Seq<HyprClient>, addresses: Seq<Seq<char>>) -> Seq<HyprClient>
    decreases addresses.len(),
{
    if addresses.len() == 0 {
        Seq::empty()
    } else {
        let before = windows_at(clients, addresses.drop_last());
        match owner(clients, addresses.last()) {
            Some(i) => before.push(clients[i]),
            None => before,
        }
    }
}

/// The group that a window belongs to: its member list, in sorted order.
pub open spec fn group_key(client: HyprClient) -> Seq<Seq<char>> {
    text::sorted_texts(text::texts(client.grouped@))
}

/// The window names at least two members of its group.
pub open spec fn is_grouped(client: HyprClient) -> bool {
    client.grouped@.len() >= 2
}

/// The members of a window's group that are in the session, in tab order.
pub open spec fn group_members(clients: Seq<HyprClient>, client: HyprClient) -> Seq<HyprClient> {
    windows_at(clients, text::texts(client.grouped@))
}

/// A window before the `i`-th belongs to this group already.
pub open spec fn group_seen(clients: Seq<HyprClient>, i: int, key: Seq<Seq<char>>) -> bool {
    exists|j: int| 0 <= j < i && is_grouped(clients[j]) && #[trigger] group_key(clients[j]) == key
}

/// The `i`-th window is the first of its group, and at least two members are in the session.
pub open spec fn opens_group(clients: Seq<HyprClient>, i: int) -> bool {
    &&& is_grouped(clients[i])
    &&& !group_seen(clients, i, group_key(clients[i]))
    &&& group_members(clients, clients[i]).len() >= 2
}

/// The groups that the first `n` windows open, in order.
pub open spec fn groups_of(clients: Seq<HyprClient>, n: int) -> Seq<Seq<HyprClient>>
    decreases n,
{
    if n <= 0 {
        Seq::empty()
    } else if opens_group(clients, n - 1) {
        groups_of(clients, n - 1).push(group_members(clients, clients[n - 1]))
    } else {
        groups_of(clients, n - 1)
    }
}

/// The tabbed groups of a session.
pub open spec fn planned_groups(clients: Seq<HyprClient>) -> Seq<Seq<HyprClient>> {
    groups_of(clients, clients.len() as int)
}

/// The windows that a list refers to.
pub open spec fn window_list(list: Seq<&HyprClient>) -> Seq<HyprClient> {
    list.map_values(|c: &HyprClient| *c)
}

/// The windows that a list of lists refers to.
pub open spec fn window_lists(list: Seq<Vec<&HyprClient>>) -> Seq<Seq<HyprClient>> {
    list.map_values(|g: Vec<&HyprClient>| window_list(g@))
}

/// A map gives for each address the index of its window.
pub open spec fn indexed(index: Map<Seq<char>, usize>, clients: Seq<HyprClient>) -> bool {
    forall|address: Seq<char>|
        {
            &&& #[trigger] index.contains_key(address) <==> owner(clients, address) is Some
            &&& index.contains_key(address) ==> owner(clients, address) == Some(
                index[address] as int,
            )
        }
}

/// The windows of a session, by address.
fn index_by_address(clients: &[HyprClient]) -> (index: StringHashMap<usize>)
    ensures
        indexed(index@, clients@),
{
    let mut index: StringHashMap<usize> = StringHashMap::new();
    let mut i: usize = 0;
    while i < clients.len()
        invariant
            i <= clients@.len(),
            indexed(index@, clients@.take(i as int)),
        decreases clients@.len() - i,
    {
        index.insert(clients[i].address.clone(), i);
        proof {
            assert(clients@.take(i + 1).drop_last() =~= clients@.take(i as int));
            assert(clients@.take(i + 1).last() == clients@[i as int]);
        }
        i = i + 1;
    }
    proof {
        assert(clients@.take(i as int) =~= clients@);
    }
    index
}

fn collect_members<'a>(
    clients: &'a [HyprClient],
    index: &StringHashMap<usize>,
    addresses: &Vec<String>,
) -> (members: Vec<&'a HyprClient>)
    requires
        indexed(index@, clients@),
    ensures
        window_list(members@) == windows_at(clients@, text::texts(addresses@)),
{
    let mut members: Vec<&'a HyprClient> = Vec::new();
    let mut i: usize = 0;
    proof {
        assert(window_list(members@) =~= Seq::<HyprClient>::empty());
    }
    while i < addresses.len()
        invariant
            i <= addresses@.len(),
            indexed(index@, clients@),
            window_list(members@) == windows_at(
                clients@,
                text::texts(addresses@).take(i as int),
            ),
        decreases addresses@.len() - i,
    {
        let ghost before = window_list(members@);
        let ghost address = addresses@[i as int]@;
        proof {
            let taken = text::texts(addresses@).take(i + 1);
            assert(taken.drop_last() =~= text::texts(addresses@).take(i as int));
            assert(taken.last() == address);
            lemma_owner(clients@, address);
        }
        match index.get(addresses[i].as_str()) {
            Some(k) => {
                members.push(&clients[*k]);
                proof {
                    assert(window_list(members@) =~= before.push(clients@[*k as int]));
                }
            },
            None => {},
        }
        i = i + 1;
    }
    proof {
        assert(text::texts(addresses@).take(i as int) =~= text::texts(addresses@));
    }
    members
}

/// The member lists that a list of lists holds.
pub open spec fn member_lists(list: Seq<Vec<String>>) -> Seq<Seq<Seq<char>>> {
    list.map_values(|m: Vec<String>| text::texts(m@))
}

fn same_list(a: &Vec<String>, b: &Vec<String>) -> (same: bool)
    ensures
        same == (text::texts(a@) == text::texts(b@)),
{
    proof {
        assert(text::texts(a@).len() == a@.len());
        assert(text::texts(b@).len() == b@.len());
    }
    if a.len() != b.len() {
        return false;
    }
    let mut i: usize = 0;
    while i < a.len()
        invariant
            i <= a@.len(),
            a@.len() == b@.len(),
            forall|k: int| 0 <= k < i ==> #[trigger] text::texts(a@)[k] == text::texts(b@)[k],
        decreases a@.len() - i,
    {
        if a[i] != b[i] {
            proof {
                assert(text::texts(a@)[i as int] != text::texts(b@)[i as int]);
            }
            return false;
        }
        proof {
            assert(text::texts(a@)[i as int] == text::texts(b@)[i as int]);
        }
        i = i + 1;
    }
    proof {
        assert(text::texts(a@) =~= text::texts(b@));
    }
    true
}

fn holds_list(lists: &Vec<Vec<String>>, list: &Vec<String>) -> (yes: bool)
    ensures
        yes == member_lists(lists@).contains(text::texts(list@)),
{
    let mut i: usize = 0;
    while i < lists.len()
        invariant
            i <= lists@.len(),
            forall|k: int| 0 <= k < i ==> #[trigger] member_lists(lists@)[k] != text::texts(list@),
        decreases lists@.len() - i,
    {
        if same_list(&lists[i], list) {
            proof {
                assert(member_lists(lists@)[i as int] == text::texts(list@));
            }
            return true;
        }
        i = i + 1;
    }
    false
}

/// Detects every tabbed group in the snapshot. A group is the set of windows sharing the same
/// `grouped` member list; members are returned in tab order.
pub fn plan_groups<'a>(clients: &'a [HyprClient]) -> (groups: Vec<Vec<&'a HyprClient>>)
    ensures
        window_lists(groups@) == planned_groups(clients@),
{
    let index = index_by_address(clients);
    let mut seen: Vec<Vec<String>> = Vec::new();
    let mut groups: Vec<Vec<&'a HyprClient>> = Vec::new();
    let mut i: usize = 0;
    proof {
        assert(window_lists(groups@) =~= Seq::<Seq<HyprClient>>::empty());
    }
    while i < clients.len()
        invariant
            i <= clients@.len(),
            indexed(index@, clients@),
            forall|key: Seq<Seq<char>>| #[trigger]
                member_lists(seen@).contains(key) == group_seen(clients@, i as int, key),
            window_lists(groups@) == groups_of(clients@, i as int),
        decreases clients@.len() - i,
    {
        let client = &clients[i];
        let ghost before = window_lists(groups@);
        let ghost seen_before = member_lists(seen@);
        if client.grouped.len() >= 2 {
            let key = sort_texts(&client.grouped);
            let ghost this = text::texts(key@);
            if !holds_list(&seen, &key) {
                seen.push(key);
                proof {
                    assert(member_lists(seen@) =~= seen_before.push(this));
                }
                let members = collect_members(clients, &index, &client.grouped);
                if members.len() >= 2 {
                    groups.push(members);
                    proof {
                        assert(window_lists(groups@) =~= before.push(
                            group_members(clients@, clients@[i as int]),
                        ));
                    }
                }
            }
            proof {
                assert(this == group_key(clients@[i as int]));
                assert forall|k: Seq<Seq<char>>| #[trigger]
                    member_lists(seen@).contains(k) == group_seen(clients@, i + 1, k) by {
                    lemma_seen_grows(seen_before, this, k);
                    assert(member_lists(seen@).contains(k) == (seen_before.contains(k) || k
                        == this));
                    if group_seen(clients@, i as int, k) {
                        let j = choose|j: int|
                            0 <= j < i && is_grouped(clients@[j]) && #[trigger] group_key(
                                clients@[j],
                            ) == k;
                        assert(group_key(clients@[j]) == k);
                    }
                }
            }
        } else {
            proof {
                assert forall|k: Seq<Seq<char>>| #[trigger]
                    member_lists(seen@).contains(k) == group_seen(clients@, i + 1, k) by {
                    assert(member_lists(seen@).contains(k) == group_seen(clients@, i as int, k));
                    if group_seen(clients@, i as int, k) {
                        let j = choose|j: int|
                            0 <= j < i && is_grouped(clients@[j]) && #[trigger] group_key(
                                clients@[j],
                            ) == k;
                        assert(group_key(clients@[j]) == k);
                    }
                }
            }
        }
        i = i + 1;
    }
    groups
}

proof fn lemma_seen_grows(lists: Seq<Seq<Seq<char>>>, x: Seq<Seq<char>>, k: Seq<Seq<char>>)
    ensures
        lists.push(x).contains(k) == (lists.contains(k) || k == x),
{
    let all = lists.push(x);
    if lists.contains(k) {
        let i = choose|i: int| 0 <= i < lists.len() && lists[i] == k;
        assert(all[i] == k);
    }
    if k == x {
        assert(all[lists.len() as int] == k);
    }
    if all.contains(k) {
        let i = choose|i: int| 0 <= i < all.len() && all[i] == k;
        if i < lists.len() {
            assert(lists[i] == k);
        }
    }
}

proof fn lemma_windows_at_append(
    clients: Seq<HyprClient>,
    a: Seq<Seq<char>>,
    b: Seq<Seq<char>>,
)
    ensures
        windows_at(clients, a + b) == windows_at(clients, a) + windows_at(clients, b),
    decreases b.len(),
{
    if b.len() == 0 {
        assert(a + b =~= a);
        assert(windows_at(clients, a) + windows_at(clients, b) =~= windows_at(clients, a));
    } else {
        lemma_windows_at_append(clients, a, b.drop_last());
        assert((a + b).drop_last() =~= a + b.drop_last());
        assert(windows_at(clients, a + b) =~= windows_at(clients, a) + windows_at(clients, b));
    }
}

/// Rearranging the addresses rearranges the windows.
proof fn lemma_windows_at_rearranged(
    clients: Seq<HyprClient>,
    a: Seq<Seq<char>>,
    b: Seq<Seq<char>>,
)
    requires
        a.to_multiset() == b.to_multiset(),
    ensures
        windows_at(clients, a).to_multiset() == windows_at(clients, b).to_multiset(),
    decreases a.len(),
{
    broadcast use {
        vstd::multiset::group_multiset_axioms,
        vstd::seq_lib::group_to_multiset_ensures,
    };

    assert(a.to_multiset().len() == a.len());
    assert(b.to_multiset().len() == b.len());
    if a.len() > 0 {
        let x = a.last();
        assert(a.contains(x));
        assert(b.to_multiset().count(x) > 0);
        assert(b.contains(x));
        let k = choose|k: int| 0 <= k < b.len() && b[k] == x;
        let shorter = b.remove(k);
        assert(a =~= a.drop_last().push(x));
        assert(a.drop_last().to_multiset() =~= shorter.to_multiset());
        lemma_windows_at_rearranged(clients, a.drop_last(), shorter);
        let front = b.take(k);
        let back = b.skip(k + 1);
        assert(shorter =~= front + back);
        assert(b =~= (front + seq![x]) + back);
        lemma_windows_at_append(clients, front, back);
        lemma_windows_at_append(clients, front + seq![x], back);
        lemma_windows_at_append(clients, front, seq![x]);
        lemma_windows_at_append(clients, a.drop_last(), seq![x]);
        assert(a =~= a.drop_last() + seq![x]);
        let w = windows_at(clients, seq![x]);
        let f = windows_at(clients, front);
        let r = windows_at(clients, back);
        let l = windows_at(clients, a.drop_last());
        vstd::seq_lib::lemma_multiset_commutative(f + w, r);
        vstd::seq_lib::lemma_multiset_commutative(f, w);
        vstd::seq_lib::lemma_multiset_commutative(f, r);
        vstd::seq_lib::lemma_multiset_commutative(l, w);
        assert(windows_at(clients, b).to_multiset() =~= windows_at(clients, a).to_multiset());
    } else {
        assert(a =~= b);
    }
}

proof fn lemma_groups_contain(clients: Seq<HyprClient>, n: int, j: int)
    requires
        0 <= j < n <= clients.len(),
        opens_group(clients, j),
    ensures
        groups_of(clients, n).contains(group_members(clients, clients[j])),
    decreases n,
{
    let shorter = groups_of(clients, n - 1);
    if j < n - 1 {
        lemma_groups_contain(clients, n - 1, j);
        let k = choose|k: int|
            0 <= k < shorter.len() && shorter[k] == group_members(clients, clients[j]);
        assert(groups_of(clients, n)[k] == shorter[k]);
    } else {
        assert(groups_of(clients, n)[shorter.len() as int] == group_members(clients, clients[j]));
    }
}

proof fn lemma_first_of_group(clients: Seq<HyprClient>, i: int) -> (first: int)
    requires
        0 <= i < clients.len(),
        is_grouped(clients[i]),
    ensures
        0 <= first <= i,
        is_grouped(clients[first]),
        group_key(clients[first]) == group_key(clients[i]),
        !group_seen(clients, first, group_key(clients[first])),
    decreases i,
{
    if group_seen(clients, i, group_key(clients[i])) {
        let j = choose|j: int|
            0 <= j < i && is_grouped(clients[j]) && #[trigger] group_key(clients[j]) == group_key(
                clients[i],
            );
        lemma_first_of_group(clients, j)
    } else {
        i
    }
}

/// Member lists that are rearrangements of each other name the same group.
pub proof fn law_tab_order_does_not_matter(a: HyprClient, b: HyprClient)
    requires
        text::texts(a.grouped@).to_multiset() == text::texts(b.grouped@).to_multiset(),
    ensures
        group_key(a) == group_key(b),
{
    text::lemma_text_order_is_total();
    text::texts(a.grouped@).lemma_sort_by_ensures(text::text_order());
    text::texts(b.grouped@).lemma_sort_by_ensures(text::text_order());
    vstd::seq_lib::lemma_sorted_unique(
        text::sorted_texts(text::texts(a.grouped@)),
        text::sorted_texts(text::texts(b.grouped@)),
        text::text_order(),
    );
}

/// Only member lists that are rearrangements of each other name the same group.
pub proof fn law_group_key_identifies_members(a: HyprClient, b: HyprClient)
    requires
        group_key(a) == group_key(b),
    ensures
        text::texts(a.grouped@).to_multiset() == text::texts(b.grouped@).to_multiset(),
{
    text::lemma_text_order_is_total();
    text::texts(a.grouped@).lemma_sort_by_ensures(text::text_order());
    text::texts(b.grouped@).lemma_sort_by_ensures(text::text_order());
}

/// Every group is found: for each window whose group has at least two members in the session
/// there is a planned group with exactly those members.
pub proof fn law_every_group_is_planned(clients: Seq<HyprClient>, i: int)
    requires
        0 <= i < clients.len(),
        is_grouped(clients[i]),
        group_members(clients, clients[i]).len() >= 2,
    ensures
        exists|g: int|
            0 <= g < planned_groups(clients).len() && (#[trigger] planned_groups(
                clients,
            )[g]).to_multiset() == group_members(clients, clients[i]).to_multiset(),
{
    broadcast use vstd::seq_lib::group_to_multiset_ensures;

    let j = lemma_first_of_group(clients, i);
    law_group_key_identifies_members(clients[i], clients[j]);
    lemma_windows_at_rearranged(
        clients,
        text::texts(clients[i].grouped@),
        text::texts(clients[j].grouped@),
    );
    assert(group_members(clients, clients[i]).to_multiset().len() == group_members(
        clients,
        clients[i],
    ).len());
    assert(group_members(clients, clients[j]).to_multiset().len() == group_members(
        clients,
        clients[j],
    ).len());
    assert(opens_group(clients, j));
    lemma_groups_contain(clients, clients.len() as int, j);
    let members = group_members(clients, clients[j]);
    let g = choose|g: int|
        0 <= g < planned_groups(clients).len() && planned_groups(clients)[g] == members;
    assert(planned_groups(clients)[g].to_multiset() == group_members(
        clients,
        clients[i],
    ).to_multiset());
}

/// No group is planned twice: of the windows that name one group, one opens it.
pub proof fn law_group_is_planned_once(clients: Seq<HyprClient>, i: int, j: int)
    requires
        0 <= i < j < clients.len(),
        opens_group(clients, i),
        group_key(clients[i]) == group_key(clients[j]),
    ensures
        !opens_group(clients, j),
{
    assert(group_seen(clients, j, group_key(clients[j])));
}

proof fn lemma_windows_at_known(clients: Seq<HyprClient>, addresses: Seq<Seq<char>>, k: int)
    requires
        0 <= k < windows_at(clients, addresses).len(),
    ensures
        clients.contains(windows_at(clients, addresses)[k]),
        addresses.contains(windows_at(clients, addresses)[k].address@),
    decreases addresses.len(),
{
    let before = windows_at(clients, addresses.drop_last());
    lemma_owner(clients, addresses.last());
    if k < before.len() {
        lemma_windows_at_known(clients, addresses.drop_last(), k);
        let a = before[k].address@;
        let n = choose|n: int| 0 <= n < addresses.drop_last().len() && addresses.drop_last()[n] == a;
        assert(addresses[n] == a);
    } else {
        assert(addresses[addresses.len() - 1] == addresses.last());
    }
}

/// A planned group has at least two members, and there are no more groups than windows.
pub proof fn lemma_planned_group_len(clients: Seq<HyprClient>, n: int, g: int)
    requires
        0 <= n,
    ensures
        groups_of(clients, n).len() <= n,
        0 <= g < groups_of(clients, n).len() ==> groups_of(clients, n)[g].len() >= 2,
    decreases n,
{
    if n > 0 {
        lemma_planned_group_len(clients, n - 1, g);
    }
}

/// A planned group has at least two members, and they are windows of the session.
pub proof fn law_planned_group_is_known(clients: Seq<HyprClient>, g: int, k: int)
    requires
        0 <= g < planned_groups(clients).len(),
        0 <= k < planned_groups(clients)[g].len(),
    ensures
        planned_groups(clients)[g].len() >= 2,
        clients.contains(planned_groups(clients)[g][k]),
{
    lemma_planned_group_is_known(clients, clients.len() as int, g, k);
}

proof fn lemma_planned_group_is_known(clients: Seq<HyprClient>, n: int, g: int, k: int)
    requires
        0 <= n <= clients.len(),
        0 <= g < groups_of(clients, n).len(),
        0 <= k < groups_of(clients, n)[g].len(),
    ensures
        groups_of(clients, n)[g].len() >= 2,
        clients.contains(groups_of(clients, n)[g][k]),
    decreases n,
{
    let shorter = groups_of(clients, n - 1);
    if g < shorter.len() {
        assert(groups_of(clients, n)[g] == shorter[g]);
        lemma_planned_group_is_known(clients, n - 1, g, k);
    } else {
        lemma_windows_at_known(clients, text::texts(clients[n - 1].grouped@), k);
    }
}

/// The windows of a list of addresses are those of its parts, one part after the other. One
/// address gives the last window that has it, and nothing where no window has it.
pub proof fn law_windows_of_addresses(
    clients: Seq<HyprClient>,
    a: Seq<Seq<char>>,
    b: Seq<Seq<char>>,
    address: Seq<char>,
    i: int,
)
    ensures
        windows_at(clients, a + b) == windows_at(clients, a) + windows_at(clients, b),
        windows_at(clients, Seq::empty()) == Seq::<HyprClient>::empty(),
        (forall|j: int| 0 <= j < clients.len() ==> (#[trigger] clients[j]).address@ != address)
            ==> windows_at(clients, seq![address]) == Seq::<HyprClient>::empty(),
        0 <= i < clients.len() && clients[i].address@ == address && (forall|j: int|
            i < j < clients.len() ==> (#[trigger] clients[j]).address@ != address) ==> windows_at(
            clients,
            seq![address],
        ) == seq![clients[i]],
{
    lemma_windows_at_append(clients, a, b);
    lemma_owner(clients, address);
    assert(seq![address].drop_last() =~= Seq::<Seq<char>>::empty());
    assert(windows_at(clients, Seq::<Seq<char>>::empty()) =~= Seq::<HyprClient>::empty());
    match owner(clients, address) {
        Some(k) => {
            assert(windows_at(clients, seq![address]) =~= seq![clients[k]]);
            if 0 <= i < k {
                assert(clients[k].address@ == address);
            }
        },
        None => {},
    }
}

/// The window that is the last with its address is among the windows of a list of addresses
/// exactly if its address is in the list.
pub proof fn law_window_is_among_addresses(
    clients: Seq<HyprClient>,
    addresses: Seq<Seq<char>>,
    i: int,
)
    requires
        0 <= i < clients.len(),
        forall|j: int|
            i < j < clients.len() ==> (#[trigger] clients[j]).address@ != clients[i].address@,
    ensures
        windows_at(clients, addresses).contains(clients[i]) <==> addresses.contains(
            clients[i].address@,
        ),
{
    let there = windows_at(clients, addresses);
    let address = clients[i].address@;
    if there.contains(clients[i]) {
        let k = choose|k: int| 0 <= k < there.len() && there[k] == clients[i];
        lemma_windows_at_known(clients, addresses, k);
    }
    if addresses.contains(address) {
        let k = choose|k: int| 0 <= k < addresses.len() && addresses[k] == address;
        let front = addresses.take(k);
        let back = addresses.skip(k + 1);
        assert(addresses =~= (front + seq![address]) + back);
        law_windows_of_addresses(clients, front, seq![address], address, i);
        law_windows_of_addresses(clients, front + seq![address], back, address, i);
        assert(there[windows_at(clients, front).len() as int] == clients[i]);
    }
}

proof fn lemma_one_window_at_least(clients: Seq<HyprClient>, address: Seq<char>, x: int)
    requires
        0 <= x < clients.len(),
        clients[x].address@ == address,
    ensures
        windows_at(clients, seq![address]).len() == 1,
{
    lemma_owner(clients, address);
    let k = owner(clients, address)->0;
    law_windows_of_addresses(clients, Seq::empty(), Seq::empty(), address, k);
}

/// A window whose member list names two windows of the session, at two places of that list, has
/// its group planned, with exactly the windows that the list names, however long the list is.
pub proof fn law_every_tab_list_is_planned(
    clients: Seq<HyprClient>,
    i: int,
    a: int,
    b: int,
    x: int,
    y: int,
)
    requires
        0 <= i < clients.len(),
        0 <= a < b < clients[i].grouped@.len(),
        0 <= x < clients.len(),
        0 <= y < clients.len(),
        clients[x].address@ == clients[i].grouped@[a]@,
        clients[y].address@ == clients[i].grouped@[b]@,
    ensures
        exists|g: int|
            0 <= g < planned_groups(clients).len() && (#[trigger] planned_groups(
                clients,
            )[g]).to_multiset() == windows_at(
                clients,
                text::texts(clients[i].grouped@),
            ).to_multiset(),
{
    let list = text::texts(clients[i].grouped@);
    let one = seq![list[a]];
    let two = seq![list[b]];
    let p = list.take(a);
    let q = list.subrange(a + 1, b);
    let r = list.skip(b + 1);
    assert(list =~= p + one + q + two + r);
    lemma_windows_at_append(clients, p, one);
    lemma_windows_at_append(clients, p + one, q);
    lemma_windows_at_append(clients, p + one + q, two);
    lemma_windows_at_append(clients, p + one + q + two, r);
    lemma_one_window_at_least(clients, list[a], x);
    lemma_one_window_at_least(clients, list[b], y);
    law_every_group_is_planned(clients, i);
}

/// The `i`-th window has a member list of at least two addresses that name at least two windows
/// of the session, and no earlier window has a member list with the same addresses.
pub open spec fn is_first_of_tabs(clients: Seq<HyprClient>, i: int) -> bool {
    &&& clients[i].grouped@.len() >= 2
    &&& windows_at(clients, text::texts(clients[i].grouped@)).len() >= 2
    &&& forall|j: int|
        0 <= j < i && (#[trigger] clients[j]).grouped@.len() >= 2 ==> text::texts(
            clients[j].grouped@,
        ).to_multiset() != text::texts(clients[i].grouped@).to_multiset()
}

proof fn lemma_first_of_tabs(clients: Seq<HyprClient>, i: int)
    requires
        0 <= i < clients.len(),
    ensures
        is_first_of_tabs(clients, i) == opens_group(clients, i),
{
    if opens_group(clients, i) {
        assert forall|j: int|
            0 <= j < i && (#[trigger] clients[j]).grouped@.len() >= 2 implies text::texts(
            clients[j].grouped@,
        ).to_multiset() != text::texts(clients[i].grouped@).to_multiset() by {
            if text::texts(clients[j].grouped@).to_multiset() == text::texts(
                clients[i].grouped@,
            ).to_multiset() {
                law_tab_order_does_not_matter(clients[j], clients[i]);
                assert(group_key(clients[j]) == group_key(clients[i]));
            }
        }
    }
    if is_first_of_tabs(clients, i) {
        if group_seen(clients, i, group_key(clients[i])) {
            let j = choose|j: int|
                0 <= j < i && is_grouped(clients[j]) && #[trigger] group_key(clients[j])
                    == group_key(clients[i]);
            law_group_key_identifies_members(clients[j], clients[i]);
            assert(clients[j].grouped@.len() >= 2);
        }
    }
}

proof fn lemma_groups_in_order(clients: Seq<HyprClient>, n: int) -> (from: Seq<int>)
    requires
        0 <= n <= clients.len(),
    ensures
        from.len() == groups_of(clients, n).len(),
        forall|g: int| 0 <= g < from.len() ==> 0 <= #[trigger] from[g] < n,
        forall|g: int|
            0 <= g < from.len() ==> groups_of(clients, n)[g] == windows_at(
                clients,
                text::texts(clients[#[trigger] from[g]].grouped@),
            ),
        forall|g: int, h: int| 0 <= g < h < from.len() ==> from[g] < from[h],
        forall|i: int|
            0 <= i < n ==> (is_first_of_tabs(clients, i) <==> #[trigger] from.contains(i)),
    decreases n,
{
    if n <= 0 {
        Seq::empty()
    } else {
        let before = lemma_groups_in_order(clients, n - 1);
        lemma_first_of_tabs(clients, n - 1);
        if opens_group(clients, n - 1) {
            let from = before.push(n - 1);
            assert forall|i: int| 0 <= i < n implies (is_first_of_tabs(clients, i)
                <==> #[trigger] from.contains(i)) by {
                if i == n - 1 {
                    assert(from[before.len() as int] == i);
                } else {
                    assert(is_first_of_tabs(clients, i) <==> before.contains(i));
                    if before.contains(i) {
                        let k = choose|k: int| 0 <= k < before.len() && before[k] == i;
                        assert(from[k] == i);
                    }
                    if from.contains(i) {
                        let k = choose|k: int| 0 <= k < from.len() && from[k] == i;
                        assert(before[k] == i);
                    }
                }
            }
            from
        } else {
            assert(!before.contains(n - 1)) by {
                if before.contains(n - 1) {
                    let k = choose|k: int| 0 <= k < before.len() && before[k] == n - 1;
                    assert(before[k] < n - 1);
                }
            }
            before
        }
    }
}

/// The planned groups are exactly those of the windows that are the first to name theirs, in the
/// order of these windows, each with its windows in the order of its member list.
pub proof fn law_planned_groups_in_order(clients: Seq<HyprClient>) -> (from: Seq<int>)
    ensures
        from.len() == planned_groups(clients).len(),
        forall|g: int|
            0 <= g < from.len() ==> planned_groups(clients)[g] == windows_at(
                clients,
                text::texts(clients[#[trigger] from[g]].grouped@),
            ),
        forall|g: int, h: int| 0 <= g < h < from.len() ==> from[g] < from[h],
        forall|i: int|
            #[trigger] from.contains(i) <==> 0 <= i < clients.len() && is_first_of_tabs(clients, i),
{
    let from = lemma_groups_in_order(clients, clients.len() as int);
    assert forall|i: int| #[trigger] from.contains(i) implies 0 <= i < clients.len() by {
        let k = choose|k: int| 0 <= k < from.len() && from[k] == i;
        assert(0 <= from[k] < clients.len());
    }
    from
}

/// A list of windows shows the windows that it refers to, one by one, and so does each list in a
/// list of lists.
pub proof fn law_window_lists_are_shown(list: Seq<Vec<&HyprClient>>, g: int, k: int)
    ensures
        window_lists(list).len() == list.len(),
        0 <= g < list.len() ==> {
            &&& window_lists(list)[g] == window_list(list[g]@)
            &&& window_list(list[g]@).len() == list[g]@.len()
            &&& 0 <= k < list[g]@.len() ==> window_list(list[g]@)[k] == *list[g]@[k]
        },
{
}

} // verus!
