//! Editing commands of the network editor: add a junction bus, add a line
//! between buses, delete the selection (buses cascade to their branches).

use vstd::prelude::*;
use crate::edit::{
    Selection, branch_id_list, is_bus_selection, selects_branch, selects_branch_exec, selects_bus, selects_bus_exec, branch_ids_of, bus_id_list, bus_ids_of, first_free, ids_of,
    lemma_branch_ids_len, lemma_ids_push, numbered, unique_id,
};
use crate::topology::{Branch, Bus, BusKind, Element, Network};

verus! {

/// Adds a junction bus whose id is the first free one among `b1`, `b2`, ...
/// and returns that id.
pub fn add_junction(net: &mut Network) -> (r: String)
    requires
        old(net).buses@.len() < usize::MAX,
    ensures
        r@ == first_free(bus_ids_of(old(net).buses@), |n: nat| numbered("b"@, n)),
        !bus_ids_of(old(net).buses@).contains(r@),
        final(net).buses@ == old(net).buses@.push(Bus { id: r, kind: BusKind::Junction }),
        final(net).branches@ == old(net).branches@,
{
    let used = bus_id_list(net);
    assert(used@.len() == ids_of(used@).len() && ids_of(used@).len() == bus_ids_of(net.buses@).len());
    let id = unique_id(&used, "b");
    net.buses.push(Bus { id: id.clone(), kind: BusKind::Junction });
    id
}

/// Ids of the selected buses, in selection order.
pub open spec fn selected_bus_ids(sel: Seq<Selection>) -> Seq<Seq<char>>
    decreases sel.len(),
{
    if sel.len() == 0 {
        Seq::empty()
    } else {
        let prev = selected_bus_ids(sel.drop_last());
        match sel.last() {
            Selection::Bus(id) => prev.push(id@),
            Selection::Branch(_) => prev,
        }
    }
}

/// Terminals of the line that the editor adds: the selected buses when at
/// least two are selected, else the last two buses declared; none when the
/// network has fewer than two buses either.
pub open spec fn new_line_nodes(buses: Seq<Bus>, sel: Seq<Selection>) -> Option<Seq<Seq<char>>> {
    let chosen = selected_bus_ids(sel);
    if chosen.len() >= 2 {
        Some(chosen)
    } else if buses.len() >= 2 {
        Some(bus_ids_of(buses).subrange(buses.len() - 2, buses.len() as int))
    } else {
        None
    }
}

/// Adds a line without consumers between the buses that `new_line_nodes`
/// picks, with the first free id among `ramo1`, `ramo2`, ... (ids of other
/// branches count). Returns the new branch's index, or `None` (and changes
/// nothing) when there are no two buses to join.
pub fn add_line(net: &mut Network, selections: &Vec<Selection>) -> (r: Option<usize>)
    requires
        old(net).branches@.len() < usize::MAX,
    ensures
        match new_line_nodes(old(net).buses@, selections@) {
            None => r is None && *final(net) == *old(net),
            Some(nodes) => {
                let m = old(net).branches@.len() as int;
                let b = final(net).branches@[m];
                &&& r == Some(m as usize)
                &&& final(net).buses@ == old(net).buses@
                &&& final(net).branches@.len() == m + 1
                &&& final(net).branches@.take(m) == old(net).branches@
                &&& b.id is Some
                &&& b.id->Some_0@ == first_free(branch_ids_of(old(net).branches@), |n: nat| numbered("ramo"@, n))
                &&& !branch_ids_of(old(net).branches@).contains(b.id->Some_0@)
                &&& b.node_ids() == nodes
                &&& b.element == Element::Line { consumers: 0 }
            },
        },
{
    let mut nodes: Vec<String> = Vec::new();
    let mut i: usize = 0;
    while i < selections.len()
        invariant
            i <= selections@.len(),
            ids_of(nodes@) == selected_bus_ids(selections@.take(i as int)),
        decreases selections@.len() - i,
    {
        assert(selections@.take(i + 1).drop_last() =~= selections@.take(i as int));
        let ghost n0 = nodes@;
        match &selections[i] {
            Selection::Bus(id) => {
                let c = id.clone();
                nodes.push(c);
                proof {
                    lemma_ids_push(n0, c);
                }
            },
            Selection::Branch(_) => {},
        }
        i = i + 1;
    }
    assert(selections@.take(selections@.len() as int) =~= selections@);
    assert(nodes@.len() == ids_of(nodes@).len());
    if nodes.len() < 2 {
        let nb = net.buses.len();
        if nb < 2 {
            return None;
        }
        nodes = Vec::new();
        nodes.push(net.buses[nb - 2].id.clone());
        nodes.push(net.buses[nb - 1].id.clone());
        assert(ids_of(nodes@) =~= bus_ids_of(net.buses@).subrange(nb - 2, nb as int));
    }
    let used = branch_id_list(net);
    proof {
        lemma_branch_ids_len(net.branches@);
        assert(used@.len() == ids_of(used@).len());
    }
    let id = unique_id(&used, "ramo");
    let m = net.branches.len();
    let ghost nodes_v = nodes@;
    net.branches.push(Branch { id: Some(id), nodes, element: Element::Line { consumers: 0 } });
    assert(net.branches@[m as int].node_ids() =~= ids_of(nodes_v));
    assert(net.branches@.take(m as int) =~= old(net).branches@);
    Some(m)
}

/// Branch `b`, at index `k`, goes with a deletion of `sel`: it is selected,
/// or one of its terminals is a selected bus.
pub open spec fn deletes_branch(sel: Seq<Selection>, k: int, b: Branch) -> bool {
    ||| selects_branch(sel, k)
    ||| exists|t: int| 0 <= t < b.nodes@.len() && selects_bus(sel, #[trigger] b.nodes@[t]@)
}

/// The buses that a deletion of `sel` keeps, in order.
pub open spec fn kept_buses(buses: Seq<Bus>, sel: Seq<Selection>) -> Seq<Bus>
    decreases buses.len(),
{
    if buses.len() == 0 {
        Seq::empty()
    } else {
        let prev = kept_buses(buses.drop_last(), sel);
        if selects_bus(sel, buses.last().id@) {
            prev
        } else {
            prev.push(buses.last())
        }
    }
}

/// The branches that a deletion of `sel` keeps, in order.
pub open spec fn kept_branches(branches: Seq<Branch>, sel: Seq<Selection>) -> Seq<Branch>
    decreases branches.len(),
{
    if branches.len() == 0 {
        Seq::empty()
    } else {
        let prev = kept_branches(branches.drop_last(), sel);
        if deletes_branch(sel, branches.len() - 1, branches.last()) {
            prev
        } else {
            prev.push(branches.last())
        }
    }
}

fn touches_selected_bus(sel: &Vec<Selection>, b: &Branch) -> (r: bool)
    ensures
        r == exists|t: int| 0 <= t < b.nodes@.len() && selects_bus(sel@, #[trigger] b.nodes@[t]@),
{
    let mut t: usize = 0;
    while t < b.nodes.len()
        invariant
            t <= b.nodes@.len(),
            forall|u: int| 0 <= u < t ==> !selects_bus(sel@, #[trigger] b.nodes@[u]@),
        decreases b.nodes@.len() - t,
    {
        if selects_bus_exec(sel, &b.nodes[t]) {
            return true;
        }
        t = t + 1;
    }
    false
}

proof fn lemma_kept_buses(buses: Seq<Bus>, sel: Seq<Selection>)
    ensures
        forall|i: int| 0 <= i < kept_buses(buses, sel).len()
            ==> !selects_bus(sel, (#[trigger] kept_buses(buses, sel)[i]).id@),
        sel.len() == 0 ==> kept_buses(buses, sel) == buses,
    decreases buses.len(),
{
    if buses.len() > 0 {
        lemma_kept_buses(buses.drop_last(), sel);
        let prev = kept_buses(buses.drop_last(), sel);
        assert forall|i: int| 0 <= i < kept_buses(buses, sel).len()
            implies !selects_bus(sel, (#[trigger] kept_buses(buses, sel)[i]).id@) by {
            if i < prev.len() {
                assert(kept_buses(buses, sel)[i] == prev[i]);
            }
        }
        if sel.len() == 0 {
            assert(buses.drop_last().push(buses.last()) =~= buses);
        }
    }
}

proof fn lemma_kept_branches(branches: Seq<Branch>, sel: Seq<Selection>)
    ensures
        forall|k: int, t: int| 0 <= k < kept_branches(branches, sel).len()
            && 0 <= t < kept_branches(branches, sel)[k].nodes@.len()
            ==> !selects_bus(sel, (#[trigger] kept_branches(branches, sel)[k].nodes@[t])@),
        sel.len() == 0 ==> kept_branches(branches, sel) == branches,
    decreases branches.len(),
{
    if branches.len() > 0 {
        lemma_kept_branches(branches.drop_last(), sel);
        let prev = kept_branches(branches.drop_last(), sel);
        let cur = kept_branches(branches, sel);
        assert forall|k: int, t: int| 0 <= k < cur.len() && 0 <= t < cur[k].nodes@.len()
            implies !selects_bus(sel, (#[trigger] cur[k].nodes@[t])@) by {
            if k < prev.len() {
                assert(cur[k] == prev[k]);
            } else {
                assert(cur[k] == branches.last());
                assert(!deletes_branch(sel, branches.len() - 1, branches.last()));
                assert(!selects_bus(sel, branches.last().nodes@[t]@));
            }
        }
        if sel.len() == 0 {
            assert(branches.drop_last().push(branches.last()) =~= branches);
        }
    }
}

/// Deleting a selection cascades: no bus left is selected, no branch left has
/// a selected bus among its terminals; deleting an empty selection changes
/// nothing.
pub proof fn lemma_delete_cascades(buses: Seq<Bus>, branches: Seq<Branch>, sel: Seq<Selection>)
    ensures
        forall|i: int| 0 <= i < kept_buses(buses, sel).len()
            ==> !selects_bus(sel, (#[trigger] kept_buses(buses, sel)[i]).id@),
        forall|k: int, t: int| 0 <= k < kept_branches(branches, sel).len()
            && 0 <= t < kept_branches(branches, sel)[k].nodes@.len()
            ==> !selects_bus(sel, (#[trigger] kept_branches(branches, sel)[k].nodes@[t])@),
        sel.len() == 0 ==> kept_buses(buses, sel) == buses && kept_branches(branches, sel) == branches,
{
    lemma_kept_buses(buses, sel);
    lemma_kept_branches(branches, sel);
}

/// Branch `b`, at index `k`, is left by a deletion of `sel`: it is not
/// selected and none of its terminals is a selected bus.
pub open spec fn survives(sel: Seq<Selection>, k: int, b: Branch) -> bool {
    &&& !selects_branch(sel, k)
    &&& forall|t: int| 0 <= t < b.nodes@.len() ==> !selects_bus(sel, #[trigger] b.nodes@[t]@)
}

spec fn kept_positions(branches: Seq<Branch>, sel: Seq<Selection>) -> Seq<int>
    decreases branches.len(),
{
    if branches.len() == 0 {
        Seq::empty()
    } else {
        let prev = kept_positions(branches.drop_last(), sel);
        if deletes_branch(sel, branches.len() - 1, branches.last()) {
            prev
        } else {
            prev.push(branches.len() - 1)
        }
    }
}

proof fn lemma_kept_positions(branches: Seq<Branch>, sel: Seq<Selection>)
    ensures
        ({
            let idx = kept_positions(branches, sel);
            let kept = kept_branches(branches, sel);
            &&& idx.len() == kept.len()
            &&& forall|a: int, b: int| 0 <= a < b < idx.len() ==> idx[a] < idx[b]
            &&& forall|a: int| 0 <= a < idx.len() ==> 0 <= #[trigger] idx[a] < branches.len()
                && kept[a] == branches[idx[a]] && survives(sel, idx[a], branches[idx[a]])
            &&& forall|k: int| 0 <= k < branches.len() && survives(sel, k, #[trigger] branches[k]) ==> idx.contains(k)
        }),
    decreases branches.len(),
{
    if branches.len() > 0 {
        let init = branches.drop_last();
        lemma_kept_positions(init, sel);
        let n = branches.len() - 1;
        let b = branches.last();
        let idx0 = kept_positions(init, sel);
        let idx = kept_positions(branches, sel);
        let kept = kept_branches(branches, sel);
        assert forall|k: int| 0 <= k < n implies #[trigger] branches[k] == init[k] by {}
        assert(survives(sel, n, b) == !deletes_branch(sel, n, b));
        assert forall|a: int| 0 <= a < idx0.len() implies 0 <= #[trigger] idx[a] < branches.len()
            && kept[a] == branches[idx[a]] && survives(sel, idx[a], branches[idx[a]]) by {
            assert(idx[a] == idx0[a]);
            assert(branches[idx0[a]] == init[idx0[a]]);
        }
        assert forall|k: int| 0 <= k < branches.len() && survives(sel, k, #[trigger] branches[k]) implies idx.contains(k) by {
            if k < n {
                assert(init[k] == branches[k]);
                assert(idx0.contains(k));
                let q = choose|q: int| 0 <= q < idx0.len() && idx0[q] == k;
                assert(idx[q] == k);
            } else {
                assert(idx[idx.len() - 1] == k);
            }
        }
    }
}

/// `idx` lists, in increasing order, the positions in `branches` of the
/// branches `kept`: each of them survives the deletion of `sel`, and every
/// surviving position is listed.
pub open spec fn kept_at_positions(branches: Seq<Branch>, sel: Seq<Selection>, kept: Seq<Branch>, idx: Seq<int>) -> bool {
    &&& idx.len() == kept.len()
    &&& forall|a: int, b: int| 0 <= a < b < idx.len() ==> idx[a] < idx[b]
    &&& forall|a: int| 0 <= a < idx.len() ==> 0 <= #[trigger] idx[a] < branches.len()
        && kept[a] == branches[idx[a]] && survives(sel, idx[a], branches[idx[a]])
    &&& forall|k: int| 0 <= k < branches.len() && survives(sel, k, #[trigger] branches[k]) ==> idx.contains(k)
}

/// Deleting keeps exactly the branches that are neither selected nor have a
/// selected bus among their terminals, in their order; in particular no
/// selected branch is left.
pub proof fn lemma_delete_keeps_exactly(branches: Seq<Branch>, sel: Seq<Selection>)
    ensures
        exists|idx: Seq<int>| #[trigger] kept_at_positions(branches, sel, kept_branches(branches, sel), idx),
{
    lemma_kept_positions(branches, sel);
    assert(kept_at_positions(branches, sel, kept_branches(branches, sel), kept_positions(branches, sel)));
}

spec fn kept_bus_positions(buses: Seq<Bus>, sel: Seq<Selection>) -> Seq<int>
    decreases buses.len(),
{
    if buses.len() == 0 {
        Seq::empty()
    } else {
        let prev = kept_bus_positions(buses.drop_last(), sel);
        if selects_bus(sel, buses.last().id@) {
            prev
        } else {
            prev.push(buses.len() - 1)
        }
    }
}

/// `idx` lists, in increasing order, the positions in `buses` of the buses
/// `kept`: none of them is selected, and every unselected position is
/// listed.
pub open spec fn buses_kept_at_positions(buses: Seq<Bus>, sel: Seq<Selection>, kept: Seq<Bus>, idx: Seq<int>) -> bool {
    &&& idx.len() == kept.len()
    &&& forall|a: int, b: int| 0 <= a < b < idx.len() ==> idx[a] < idx[b]
    &&& forall|a: int| 0 <= a < idx.len() ==> 0 <= #[trigger] idx[a] < buses.len()
        && kept[a] == buses[idx[a]] && !selects_bus(sel, buses[idx[a]].id@)
    &&& forall|k: int| 0 <= k < buses.len() && !selects_bus(sel, (#[trigger] buses[k]).id@) ==> idx.contains(k)
}

/// Deleting keeps exactly the buses that are not selected, in their order.
pub proof fn lemma_delete_keeps_unselected_buses(buses: Seq<Bus>, sel: Seq<Selection>)
    ensures
        exists|idx: Seq<int>| #[trigger] buses_kept_at_positions(buses, sel, kept_buses(buses, sel), idx),
    decreases buses.len(),
{
    lemma_kept_bus_positions(buses, sel);
    assert(buses_kept_at_positions(buses, sel, kept_buses(buses, sel), kept_bus_positions(buses, sel)));
}

proof fn lemma_kept_bus_positions(buses: Seq<Bus>, sel: Seq<Selection>)
    ensures
        buses_kept_at_positions(buses, sel, kept_buses(buses, sel), kept_bus_positions(buses, sel)),
    decreases buses.len(),
{
    if buses.len() > 0 {
        let init = buses.drop_last();
        lemma_kept_bus_positions(init, sel);
        let n = buses.len() - 1;
        let idx0 = kept_bus_positions(init, sel);
        let idx = kept_bus_positions(buses, sel);
        let kept = kept_buses(buses, sel);
        assert forall|k: int| 0 <= k < n implies #[trigger] buses[k] == init[k] by {}
        assert forall|a: int| 0 <= a < idx0.len() implies 0 <= #[trigger] idx[a] < buses.len()
            && kept[a] == buses[idx[a]] && !selects_bus(sel, buses[idx[a]].id@) by {
            assert(idx[a] == idx0[a]);
            assert(buses[idx0[a]] == init[idx0[a]]);
        }
        assert forall|k: int| 0 <= k < buses.len() && !selects_bus(sel, (#[trigger] buses[k]).id@) implies idx.contains(k) by {
            if k < n {
                assert(init[k] == buses[k]);
                assert(idx0.contains(k));
                let q = choose|q: int| 0 <= q < idx0.len() && idx0[q] == k;
                assert(idx[q] == k);
            } else {
                assert(idx[idx.len() - 1] == k);
            }
        }
    }
}

/// The ids of the selected buses are exactly the selected ids, in
/// selection order: each comes from a bus selection, and every bus
/// selection contributes its id.
pub proof fn lemma_selected_bus_ids(sel: Seq<Selection>)
    ensures
        forall|x: Seq<char>| selected_bus_ids(sel).contains(x) <==> selects_bus(sel, x),
        selected_bus_ids(sel).len() <= sel.len(),
    decreases sel.len(),
{
    if sel.len() > 0 {
        let init = sel.drop_last();
        lemma_selected_bus_ids(init);
        let prev = selected_bus_ids(init);
        let cur = selected_bus_ids(sel);
        assert forall|x: Seq<char>| cur.contains(x) <==> selects_bus(sel, x) by {
            if cur.contains(x) {
                let q = choose|q: int| 0 <= q < cur.len() && cur[q] == x;
                match sel.last() {
                    Selection::Bus(id) => {
                        assert(cur == prev.push(id@));
                    },
                    Selection::Branch(_) => {
                        assert(cur == prev);
                    },
                }
                if q < prev.len() {
                    assert(cur[q] == prev[q]);
                    assert(prev.contains(x));
                    assert(selects_bus(init, x));
                    let i = choose|i: int| 0 <= i < init.len() && is_bus_selection(#[trigger] init[i], x);
                    assert(sel[i] == init[i]);
                    assert(is_bus_selection(sel[i], x));
                } else {
                    assert(is_bus_selection(sel[sel.len() - 1], x));
                }
            }
            if selects_bus(sel, x) {
                let i = choose|i: int| 0 <= i < sel.len() && is_bus_selection(#[trigger] sel[i], x);
                match sel.last() {
                    Selection::Bus(id) => {
                        assert(cur == prev.push(id@));
                    },
                    Selection::Branch(_) => {
                        assert(cur == prev);
                    },
                }
                if i < init.len() {
                    assert(init[i] == sel[i]);
                    assert(is_bus_selection(init[i], x));
                    assert(selects_bus(init, x));
                    assert(prev.contains(x));
                    let q = choose|q: int| 0 <= q < prev.len() && prev[q] == x;
                    assert(cur[q] == x);
                } else {
                    assert(cur[cur.len() - 1] == x);
                }
            }
        }
    }
}

/// The terminals of a new line: with fewer than two buses selected, the
/// last two buses declared, in declaration order.
pub proof fn lemma_new_line_fallback(buses: Seq<Bus>, sel: Seq<Selection>)
    requires
        selected_bus_ids(sel).len() < 2,
        buses.len() >= 2,
    ensures
        new_line_nodes(buses, sel) == Some(seq![buses[buses.len() - 2].id@, buses[buses.len() - 1].id@]),
{
    let n = buses.len();
    assert(bus_ids_of(buses).subrange(n - 2, n as int) =~= seq![buses[n - 2].id@, buses[n - 1].id@]);
}

/// Deletes the selection: the selected buses, the selected branches, and
/// every branch with a selected bus among its terminals. What is kept keeps
/// its order.
pub fn delete_selection(net: &mut Network, selections: &Vec<Selection>)
    ensures
        final(net).buses@ == kept_buses(old(net).buses@, selections@),
        final(net).branches@ == kept_branches(old(net).branches@, selections@),
        exists|idx: Seq<int>| #[trigger] kept_at_positions(old(net).branches@, selections@, final(net).branches@, idx),
        exists|idx: Seq<int>| #[trigger] buses_kept_at_positions(old(net).buses@, selections@, final(net).buses@, idx),
{
    let ghost b0 = net.buses@;
    let ghost j: int = 0;
    let mut i: usize = 0;
    while i < net.buses.len()
        invariant
            0 <= j <= b0.len(),
            i == kept_buses(b0.take(j), selections@).len(),
            net.buses@ == kept_buses(b0.take(j), selections@) + b0.skip(j),
            b0 == old(net).buses@,
            net.branches@ == old(net).branches@,
        decreases net.buses@.len() - i,
    {
        proof {
            assert(b0.take(j + 1).drop_last() =~= b0.take(j));
            assert(net.buses@[i as int] == b0[j]);
        }
        if selects_bus_exec(selections, &net.buses[i].id) {
            net.buses.remove(i);
        } else {
            i = i + 1;
        }
        proof {
            j = j + 1;
            assert(net.buses@ =~= kept_buses(b0.take(j), selections@) + b0.skip(j));
        }
    }
    assert(b0.take(j) =~= b0);
    assert(net.buses@ =~= kept_buses(b0, selections@));
    let ghost r0 = net.branches@;
    let nr0 = net.branches.len();
    let mut k: usize = 0;
    let mut i: usize = 0;
    while i < net.branches.len()
        invariant
            k <= r0.len(),
            r0.len() == nr0,
            r0 == old(net).branches@,
            net.buses@ == kept_buses(old(net).buses@, selections@),
            i == kept_branches(r0.take(k as int), selections@).len(),
            net.branches@ == kept_branches(r0.take(k as int), selections@) + r0.skip(k as int),
        decreases net.branches@.len() - i,
    {
        proof {
            assert(r0.take(k + 1).drop_last() =~= r0.take(k as int));
            assert(net.branches@.len() == i + (r0.len() - k));
            assert(net.branches@[i as int] == r0[k as int]);
        }
        let gone = selects_branch_exec(selections, k) || touches_selected_bus(selections, &net.branches[i]);
        if gone {
            net.branches.remove(i);
        } else {
            i = i + 1;
        }
        k = k + 1;
        assert(net.branches@ =~= kept_branches(r0.take(k as int), selections@) + r0.skip(k as int));
    }
    assert(r0.take(k as int) =~= r0);
    assert(net.branches@ =~= kept_branches(r0, selections@));
    proof {
        lemma_delete_keeps_exactly(r0, selections@);
        lemma_delete_keeps_unselected_buses(old(net).buses@, selections@);
    }
}

} // verus!
