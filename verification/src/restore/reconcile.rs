//! Pairing saved windows with windows that are open.
use vstd::hash_set::StringHashSet;
use vstd::prelude::*;

use super::matching;
use super::matching::launched_window_matches;
use crate::ipc::HyprClient;

verus! {

/// The first open window, from index `from` on, that is taken for the saved one and that none
/// of the pairings so far has used.
pub open spec fn first_free(
    current: Seq<HyprClient>,
    saved: HyprClient,
    paired: Seq<Option<int>>,
    from: int,
) -> Option<int>
    decreases current.len() - from,
{
    if from < 0 || from >= current.len() {
        None
    } else if !paired.contains(Some(from)) && matching::windows_match(current[from], saved) {
        Some(from)
    } else {
        first_free(current, saved, paired, from + 1)
    }
}

/// For each saved window in turn, the open window that it is paired with: the first that is
/// taken for it and that no earlier saved window has got.
pub open spec fn pairing(current: Seq<HyprClient>, saved: Seq<HyprClient>) -> Seq<Option<int>>
    decreases saved.len(),
{
    if saved.len() == 0 {
        Seq::empty()
    } else {
        let before = pairing(current, saved.drop_last());
        before.push(first_free(current, saved.last(), before, 0))
    }
}

/// An optional index as an integer.
pub open spec fn opt_index(i: Option<usize>) -> Option<int> {
    match i {
        Some(i) => Some(i as int),
        None => None,
    }
}

/// Optional indices as integers.
pub open spec fn opt_indices(list: Seq<Option<usize>>) -> Seq<Option<int>> {
    list.map_values(|i: Option<usize>| opt_index(i))
}

/// Pairs every saved window with the first window that is open, is taken for it and has not
/// been paired with an earlier one.
pub fn reconcile(current: &[HyprClient], saved: &[HyprClient]) -> (paired: Vec<Option<usize>>)
    ensures
        opt_indices(paired@) == pairing(current@, saved@),
        forall|k: int|
            0 <= k < paired@.len() && (#[trigger] paired@[k]) is Some ==> paired@[k]->0
                < current@.len(),
{
    let mut taken: Vec<bool> = Vec::new();
    while taken.len() < current.len()
        invariant
            taken@.len() <= current@.len(),
            forall|j: int| 0 <= j < taken@.len() ==> !#[trigger] taken@[j],
        decreases current@.len() - taken@.len(),
    {
        taken.push(false);
    }
    let mut paired: Vec<Option<usize>> = Vec::new();
    let mut i: usize = 0;
    proof {
        assert(opt_indices(paired@) =~= Seq::<Option<int>>::empty());
        assert(saved@.take(0) =~= Seq::<HyprClient>::empty());
    }
    while i < saved.len()
        invariant
            i <= saved@.len(),
            taken@.len() == current@.len(),
            opt_indices(paired@) == pairing(current@, saved@.take(i as int)),
            forall|j: int|
                0 <= j < taken@.len() ==> #[trigger] taken@[j] == opt_indices(paired@).contains(
                    Some(j),
                ),
            forall|k: int|
                0 <= k < paired@.len() && (#[trigger] paired@[k]) is Some ==> paired@[k]->0
                    < current@.len(),
        decreases saved@.len() - i,
    {
        let ghost before = opt_indices(paired@);
        let mut found: Option<usize> = None;
        let mut j: usize = 0;
        while j < current.len() && found.is_none()
            invariant
                i < saved@.len(),
                j <= current@.len(),
                taken@.len() == current@.len(),
                before == opt_indices(paired@),
                forall|j: int|
                    0 <= j < taken@.len() ==> #[trigger] taken@[j] == before.contains(Some(j)),
                match found {
                    Some(f) => f < current@.len() && first_free(
                        current@,
                        saved@[i as int],
                        before,
                        0,
                    ) == Some(f as int),
                    None => first_free(current@, saved@[i as int], before, 0) == first_free(
                        current@,
                        saved@[i as int],
                        before,
                        j as int,
                    ),
                },
            decreases current@.len() - j,
        {
            if !taken[j] && launched_window_matches(&current[j], &saved[i]) {
                found = Some(j);
            }
            j = j + 1;
        }
        paired.push(found);
        proof {
            assert(saved@.take(i + 1).drop_last() =~= saved@.take(i as int));
            assert(saved@.take(i + 1).last() == saved@[i as int]);
            assert(opt_indices(paired@) =~= before.push(opt_index(found)));
        }
        match found {
            Some(f) => {
                taken.set(f, true);
            },
            None => {},
        }
        proof {
            let after = before.push(opt_index(found));
            assert forall|j: int| 0 <= j < taken@.len() implies #[trigger] taken@[j]
                == after.contains(Some(j)) by {
                if before.contains(Some(j)) {
                    let k = choose|k: int| 0 <= k < before.len() && before[k] == Some(j);
                    assert(after[k] == Some(j));
                }
                if after.contains(Some(j)) {
                    let k = choose|k: int| 0 <= k < after.len() && after[k] == Some(j);
                    if k < before.len() {
                        assert(before[k] == Some(j));
                    }
                }
                if opt_index(found) == Some(j) {
                    assert(after[before.len() as int] == Some(j));
                }
            }
        }
        i = i + 1;
    }
    proof {
        assert(saved@.take(i as int) =~= saved@);
    }
    paired
}

proof fn lemma_pairing_prefix(current: Seq<HyprClient>, saved: Seq<HyprClient>, k: int)
    requires
        0 <= k <= saved.len(),
    ensures
        pairing(current, saved).len() == saved.len(),
        pairing(current, saved.take(k)) == pairing(current, saved).take(k),
    decreases saved.len(),
{
    if k < saved.len() {
        let shorter = saved.drop_last();
        lemma_pairing_prefix(current, shorter, k);
        assert(shorter.take(k) =~= saved.take(k));
        assert(pairing(current, saved).take(k) =~= pairing(current, shorter).take(k));
    } else {
        assert(saved.take(k) =~= saved);
        if saved.len() > 0 {
            lemma_pairing_prefix(current, saved.drop_last(), saved.len() - 1);
        }
        assert(pairing(current, saved).take(k) =~= pairing(current, saved));
    }
}

/// There is one entry for each saved window.
pub proof fn lemma_pairing_len(current: Seq<HyprClient>, saved: Seq<HyprClient>)
    ensures
        pairing(current, saved).len() == saved.len(),
{
    lemma_pairing_prefix(current, saved, 0);
}

proof fn lemma_first_free(
    current: Seq<HyprClient>,
    saved: HyprClient,
    paired: Seq<Option<int>>,
    from: int,
)
    requires
        0 <= from <= current.len(),
    ensures
        match first_free(current, saved, paired, from) {
            Some(j) => {
                &&& from <= j < current.len()
                &&& matching::windows_match(current[j], saved)
                &&& !paired.contains(Some(j))
                &&& forall|i: int|
                    from <= i < j ==> paired.contains(Some(i)) || !matching::windows_match(
                        #[trigger] current[i],
                        saved,
                    )
            },
            None => forall|i: int|
                from <= i < current.len() ==> paired.contains(Some(i)) || !matching::windows_match(
                    #[trigger] current[i],
                    saved,
                ),
        },
    decreases current.len() - from,
{
    if from < current.len() {
        if !(!paired.contains(Some(from)) && matching::windows_match(current[from], saved)) {
            lemma_first_free(current, saved, paired, from + 1);
        }
    }
}

/// A saved window is paired with the first open window that is taken for it among those that
/// no earlier saved window has got, and stays without one exactly if there is none.
pub proof fn law_pairing_is_first_match(current: Seq<HyprClient>, saved: Seq<HyprClient>, k: int)
    requires
        0 <= k < saved.len(),
    ensures
        pairing(current, saved).len() == saved.len(),
        ({
            let earlier = pairing(current, saved).take(k);
            match pairing(current, saved)[k] {
                Some(j) => {
                    &&& 0 <= j < current.len()
                    &&& matching::windows_match(current[j], saved[k])
                    &&& !earlier.contains(Some(j))
                    &&& forall|i: int|
                        0 <= i < j ==> earlier.contains(Some(i)) || !matching::windows_match(
                            #[trigger] current[i],
                            saved[k],
                        )
                },
                None => forall|i: int|
                    0 <= i < current.len() ==> earlier.contains(Some(i))
                        || !matching::windows_match(#[trigger] current[i], saved[k]),
            }
        }),
{
    lemma_pairing_prefix(current, saved, k);
    lemma_pairing_prefix(current, saved, k + 1);
    let upto = saved.take(k + 1);
    assert(upto.drop_last() =~= saved.take(k));
    assert(upto.last() == saved[k]);
    let earlier = pairing(current, saved).take(k);
    assert(pairing(current, upto) == earlier.push(first_free(current, saved[k], earlier, 0)));
    assert(pairing(current, saved)[k] == pairing(current, saved).take(k + 1)[k]);
    lemma_first_free(current, saved[k], earlier, 0);
}

/// No open window is given to two saved windows.
pub proof fn law_window_is_used_once(
    current: Seq<HyprClient>,
    saved: Seq<HyprClient>,
    k: int,
    l: int,
)
    requires
        0 <= k < l < saved.len(),
    ensures
        pairing(current, saved).len() == saved.len(),
        pairing(current, saved)[k] is Some ==> pairing(current, saved)[k] != pairing(
            current,
            saved,
        )[l],
{
    law_pairing_is_first_match(current, saved, l);
    let earlier = pairing(current, saved).take(l);
    assert(earlier[k] == pairing(current, saved)[k]);
}

/// What a look at the open windows has found: the saved windows that are still awaited, by
/// index; the addresses that are no longer new; and which open window was taken for which
/// saved one.
pub struct Sighting {
    pub pending: Seq<int>,
    pub known: Set<Seq<char>>,
    pub placed: Seq<(int, int)>,
}

/// The first awaited window, from position `from` on, that an open window is taken for.
pub open spec fn first_pending(
    saved: Seq<HyprClient>,
    client: HyprClient,
    pending: Seq<int>,
    from: int,
) -> Option<int>
    decreases pending.len() - from,
{
    if from < 0 || from >= pending.len() {
        None
    } else if matching::windows_match(client, saved[pending[from]]) {
        Some(from)
    } else {
        first_pending(saved, client, pending, from + 1)
    }
}

/// A look at the open windows, in order: each that is new is taken for the first awaited
/// window that it matches, which is then awaited no more.
pub open spec fn sighting(
    saved: Seq<HyprClient>,
    clients: Seq<HyprClient>,
    pending: Seq<int>,
    known: Set<Seq<char>>,
) -> Sighting
    decreases clients.len(),
{
    if clients.len() == 0 {
        Sighting { pending, known, placed: Seq::empty() }
    } else {
        let before = sighting(saved, clients.drop_last(), pending, known);
        let client = clients.last();
        if before.known.contains(client.address@) {
            before
        } else {
            match first_pending(saved, client, before.pending, 0) {
                Some(p) => Sighting {
                    pending: before.pending.remove(p),
                    known: before.known.insert(client.address@),
                    placed: before.placed.push((clients.len() - 1, before.pending[p])),
                },
                None => before,
            }
        }
    }
}

/// Indices as integers.
pub open spec fn indices(list: Seq<usize>) -> Seq<int> {
    list.map_values(|i: usize| i as int)
}

/// Pairs of indices as integers.
pub open spec fn index_pairs(list: Seq<(usize, usize)>) -> Seq<(int, int)> {
    list.map_values(|p: (usize, usize)| (p.0 as int, p.1 as int))
}

/// Looks through the open windows for windows that were launched. `pending` holds the indices
/// of the saved windows that are awaited, `known` the addresses of windows that are not new.
/// The result pairs open windows with saved ones, by index.
pub fn match_launched(
    saved: &[HyprClient],
    clients: &[HyprClient],
    pending: &mut Vec<usize>,
    known: &mut StringHashSet,
) -> (placed: Vec<(usize, usize)>)
    requires
        forall|k: int| 0 <= k < old(pending)@.len() ==> #[trigger] old(pending)@[k] < saved@.len(),
    ensures
        ({
            let found = sighting(saved@, clients@, indices(old(pending)@), old(known)@);
            &&& indices(final(pending)@) == found.pending
            &&& final(known)@ == found.known
            &&& index_pairs(placed@) == found.placed
        }),
        forall|k: int| 0 <= k < final(pending)@.len() ==> #[trigger] final(pending)@[k] < saved@.len(),
        forall|k: int|
            0 <= k < placed@.len() ==> (#[trigger] placed@[k]).0 < clients@.len() && placed@[k].1
                < saved@.len(),
{
    let mut placed: Vec<(usize, usize)> = Vec::new();
    let ghost start = indices(pending@);
    let ghost start_known = known@;
    let mut i: usize = 0;
    proof {
        assert(clients@.take(0) =~= Seq::<HyprClient>::empty());
        assert(index_pairs(placed@) =~= Seq::<(int, int)>::empty());
    }
    while i < clients.len()
        invariant
            i <= clients@.len(),
            ({
                let found = sighting(saved@, clients@.take(i as int), start, start_known);
                &&& indices(pending@) == found.pending
                &&& known@ == found.known
                &&& index_pairs(placed@) == found.placed
            }),
            forall|k: int| 0 <= k < pending@.len() ==> #[trigger] pending@[k] < saved@.len(),
            forall|k: int|
                0 <= k < placed@.len() ==> (#[trigger] placed@[k]).0 < clients@.len()
                    && placed@[k].1 < saved@.len(),
        decreases clients@.len() - i,
    {
        proof {
            assert(clients@.take(i + 1).drop_last() =~= clients@.take(i as int));
            assert(clients@.take(i + 1).last() == clients@[i as int]);
        }
        let client = &clients[i];
        if !known.contains(client.address.as_str()) {
            let ghost before = indices(pending@);
            let ghost placed_before = index_pairs(placed@);
            let mut found: Option<usize> = None;
            let mut p: usize = 0;
            while p < pending.len() && found.is_none()
                invariant
                    p <= pending@.len(),
                    *client == clients@[i as int],
                    before == indices(pending@),
                    forall|k: int| 0 <= k < pending@.len() ==> #[trigger] pending@[k] < saved@.len(),
                    match found {
                        Some(f) => f < pending@.len() && first_pending(saved@, *client, before, 0)
                            == Some(f as int),
                        None => first_pending(saved@, *client, before, 0) == first_pending(
                            saved@,
                            *client,
                            before,
                            p as int,
                        ),
                    },
                decreases pending@.len() - p,
            {
                let k: usize = pending[p];
                proof {
                    assert(before[p as int] == k);
                }
                if launched_window_matches(client, &saved[k]) {
                    found = Some(p);
                }
                p = p + 1;
            }
            match found {
                Some(f) => {
                    let k: usize = pending.remove(f);
                    known.insert(client.address.clone());
                    placed.push((i, k));
                    proof {
                        assert(indices(pending@) =~= before.remove(f as int));
                        assert(index_pairs(placed@) =~= placed_before.push((i as int, k as int)));
                    }
                },
                None => {},
            }
        }
        i = i + 1;
    }
    proof {
        assert(clients@.take(i as int) =~= clients@);
    }
    placed
}

proof fn lemma_first_pending(
    saved: Seq<HyprClient>,
    client: HyprClient,
    pending: Seq<int>,
    from: int,
)
    requires
        0 <= from <= pending.len(),
    ensures
        match first_pending(saved, client, pending, from) {
            Some(p) => from <= p < pending.len() && matching::windows_match(
                client,
                saved[pending[p]],
            ),
            None => forall|p: int|
                from <= p < pending.len() ==> !matching::windows_match(
                    client,
                    saved[#[trigger] pending[p]],
                ),
        },
    decreases pending.len() - from,
{
    if from < pending.len() {
        lemma_first_pending(saved, client, pending, from + 1);
    }
}

/// The saved windows that a look at the open windows has found.
pub open spec fn found_windows(placed: Seq<(int, int)>) -> Seq<int> {
    placed.map_values(|p: (int, int)| p.1)
}

/// A look at the open windows takes only windows that are new, each at most once and only for
/// an awaited window that it matches; every window taken is known afterwards; and the awaited
/// windows are those of before without the ones that were found.
pub proof fn law_sighting_is_sound(
    saved: Seq<HyprClient>,
    clients: Seq<HyprClient>,
    pending: Seq<int>,
    known: Set<Seq<char>>,
)
    ensures
        ({
            let found = sighting(saved, clients, pending, known);
            &&& found.pending.to_multiset().add(found_windows(found.placed).to_multiset())
                == pending.to_multiset()
            &&& known.subset_of(found.known)
            &&& forall|k: int|
                0 <= k < found.placed.len() ==> {
                    let (c, s) = #[trigger] found.placed[k];
                    &&& 0 <= c < clients.len()
                    &&& !known.contains(clients[c].address@)
                    &&& found.known.contains(clients[c].address@)
                    &&& pending.contains(s)
                    &&& matching::windows_match(clients[c], saved[s])
                }
            &&& forall|k: int, l: int|
                0 <= k < l < found.placed.len() ==> clients[(#[trigger] found.placed[k]).0].address@
                    != clients[(#[trigger] found.placed[l]).0].address@
            &&& forall|s: int| #[trigger] found.pending.contains(s) ==> pending.contains(s)
        }),
    decreases clients.len(),
{
    broadcast use {
        vstd::multiset::group_multiset_axioms,
        vstd::seq_lib::group_to_multiset_ensures,
    };

    let found = sighting(saved, clients, pending, known);
    if clients.len() == 0 {
        assert(found_windows(found.placed) =~= Seq::<int>::empty());
        assert(found.pending.to_multiset().add(found_windows(found.placed).to_multiset())
            =~= pending.to_multiset());
    } else {
        let fewer = clients.drop_last();
        law_sighting_is_sound(saved, fewer, pending, known);
        let before = sighting(saved, fewer, pending, known);
        let client = clients.last();
        lemma_first_pending(saved, client, before.pending, 0);
        assert forall|k: int| 0 <= k < before.placed.len() implies clients[(
        #[trigger] before.placed[k]).0] == fewer[before.placed[k].0] by {}
        if !before.known.contains(client.address@) {
            match first_pending(saved, client, before.pending, 0) {
                Some(p) => {
                    let x = before.pending[p];
                    assert(before.pending.contains(x));
                    assert(found_windows(found.placed) =~= found_windows(before.placed).push(x));
                    assert(found.pending.to_multiset().add(
                        found_windows(found.placed).to_multiset(),
                    ) =~= pending.to_multiset());
                    assert forall|s: int| #[trigger] found.pending.contains(s) implies pending.contains(
                        s,
                    ) by {
                        let k = choose|k: int| 0 <= k < found.pending.len() && found.pending[k] == s;
                        if k < p {
                            assert(before.pending[k] == s);
                        } else {
                            assert(before.pending[k + 1] == s);
                        }
                        assert(before.pending.contains(s));
                    }
                    assert forall|k: int| 0 <= k < found.placed.len() implies {
                        let (c, s) = #[trigger] found.placed[k];
                        &&& 0 <= c < clients.len()
                        &&& !known.contains(clients[c].address@)
                        &&& found.known.contains(clients[c].address@)
                        &&& pending.contains(s)
                        &&& matching::windows_match(clients[c], saved[s])
                    } by {
                        if k < before.placed.len() {
                            assert(found.placed[k] == before.placed[k]);
                        }
                    }
                    assert forall|k: int, l: int| 0 <= k < l < found.placed.len() implies clients[(
                    #[trigger] found.placed[k]).0].address@ != clients[(
                    #[trigger] found.placed[l]).0].address@ by {
                        assert(found.placed[k] == before.placed[k]);
                        if l < before.placed.len() {
                            assert(found.placed[l] == before.placed[l]);
                        }
                    }
                },
                None => {},
            }
        }
    }
}

/// A look at the open windows misses nothing: a window that is still not known afterwards
/// matches no window that is still awaited.
pub proof fn law_sighting_is_complete(
    saved: Seq<HyprClient>,
    clients: Seq<HyprClient>,
    pending: Seq<int>,
    known: Set<Seq<char>>,
    c: int,
    p: int,
)
    requires
        0 <= c < clients.len(),
        !sighting(saved, clients, pending, known).known.contains(clients[c].address@),
        0 <= p < sighting(saved, clients, pending, known).pending.len(),
    ensures
        !matching::windows_match(
            clients[c],
            saved[sighting(saved, clients, pending, known).pending[p]],
        ),
    decreases clients.len(),
{
    let fewer = clients.drop_last();
    let before = sighting(saved, fewer, pending, known);
    let found = sighting(saved, clients, pending, known);
    lemma_first_pending(saved, clients.last(), before.pending, 0);
    let q = match first_pending(saved, clients.last(), before.pending, 0) {
        Some(at) => if before.known.contains(clients.last().address@) || p < at {
            p
        } else {
            p + 1
        },
        None => p,
    };
    assert(before.pending[q] == found.pending[p]);
    if c < fewer.len() {
        law_sighting_is_complete(saved, fewer, pending, known, c, q);
    }
}

/// Indices and pairs of indices are shown one by one.
pub proof fn law_indices_are_shown(
    optional: Seq<Option<usize>>,
    list: Seq<usize>,
    pairs: Seq<(usize, usize)>,
    k: int,
)
    ensures
        opt_indices(optional).len() == optional.len(),
        0 <= k < optional.len() && optional[k] is None ==> opt_indices(optional)[k] is None,
        0 <= k < optional.len() && optional[k] is Some ==> opt_indices(optional)[k] == Some(
            optional[k]->0 as int,
        ),
        indices(list).len() == list.len(),
        0 <= k < list.len() ==> indices(list)[k] == list[k],
        index_pairs(pairs).len() == pairs.len(),
        0 <= k < pairs.len() ==> index_pairs(pairs)[k].0 == pairs[k].0 && index_pairs(pairs)[k].1
            == pairs[k].1,
{
}

proof fn lemma_first_pending_is(
    saved: Seq<HyprClient>,
    client: HyprClient,
    pending: Seq<int>,
    from: int,
    p: int,
)
    requires
        0 <= from <= p < pending.len(),
        matching::windows_match(client, saved[pending[p]]),
        forall|q: int|
            from <= q < p ==> !matching::windows_match(client, saved[#[trigger] pending[q]]),
    ensures
        first_pending(saved, client, pending, from) == Some(p),
    decreases p - from,
{
    if from < p {
        assert(!matching::windows_match(client, saved[pending[from]]));
        lemma_first_pending_is(saved, client, pending, from + 1, p);
    }
}

/// A look at one more window, behind the others: where its address is known nothing changes;
/// otherwise it is taken for the first window that is still awaited then and that it matches,
/// which is awaited no more; and where it matches none nothing changes either.
pub proof fn law_sighting_goes_window_by_window(
    saved: Seq<HyprClient>,
    clients: Seq<HyprClient>,
    client: HyprClient,
    pending: Seq<int>,
    known: Set<Seq<char>>,
    p: int,
)
    ensures
        ({
            let nothing = sighting(saved, Seq::empty(), pending, known);
            let before = sighting(saved, clients, pending, known);
            let after = sighting(saved, clients.push(client), pending, known);
            let awaited = before.pending;
            &&& nothing.pending == pending
            &&& nothing.known == known
            &&& nothing.placed.len() == 0
            &&& before.known.contains(client.address@) ==> after == before
            &&& !before.known.contains(client.address@) && 0 <= p < awaited.len()
                && matching::windows_match(client, saved[awaited[p]]) && (forall|q: int|
                0 <= q < p ==> !matching::windows_match(client, saved[#[trigger] awaited[q]])) ==> {
                &&& after.pending == awaited.remove(p)
                &&& after.known == before.known.insert(client.address@)
                &&& after.placed == before.placed.push((clients.len() as int, awaited[p]))
            }
            &&& (forall|q: int|
                0 <= q < awaited.len() ==> !matching::windows_match(
                    client,
                    saved[#[trigger] awaited[q]],
                )) ==> after == before
        }),
{
    let before = sighting(saved, clients, pending, known);
    let awaited = before.pending;
    assert(clients.push(client).drop_last() =~= clients);
    lemma_first_pending(saved, client, awaited, 0);
    if 0 <= p < awaited.len() && matching::windows_match(client, saved[awaited[p]]) && (forall|
        q: int,
    |
        0 <= q < p ==> !matching::windows_match(client, saved[#[trigger] awaited[q]])) {
        lemma_first_pending_is(saved, client, awaited, 0, p);
    }
}

} // verus!
