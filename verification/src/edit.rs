//! Graph edits offered by the network editor: fresh ids, checks for repeated
//! ids, and copy/paste of a selection of buses and branches.

use vstd::prelude::*;
use crate::text::{decimal, decimal_text, digit_text};
use crate::topology::{Branch, Bus, Element, Network, consumers_total, ids_where};
use vstd::pervasive::VecAdditionalExecFns;
use crate::fault::{Action, Event};

verus! {

/// An element selected in the editor: a bus (by id) or a branch (by index).
#[derive(Debug, Clone, PartialEq, Eq)]
pub enum Selection {
    Bus(String),
    Branch(usize),
}

/// The ids of `v`, as character sequences.
pub open spec fn ids_of(v: Seq<String>) -> Seq<Seq<char>> {
    v.map_values(|s: String| s@)
}

/// Whether `v` holds a string equal to `s`.
pub fn holds(v: &Vec<String>, s: &String) -> (r: bool)
    ensures
        r == ids_of(v@).contains(s@),
{
    let mut i: usize = 0;
    while i < v.len()
        invariant
            i <= v@.len(),
            forall|j: int| 0 <= j < i ==> v@[j]@ != s@,
        decreases v@.len() - i,
    {
        if v[i] == *s {
            assert(ids_of(v@)[i as int] == s@);
            return true;
        }
        i = i + 1;
    }
    proof {
        if ids_of(v@).contains(s@) {
            let j = choose|j: int| 0 <= j < ids_of(v@).len() && ids_of(v@)[j] == s@;
            assert(v@[j]@ == s@);
        }
    }
    false
}

/// Whether another bus than `current_id` already has the id `candidate`.
pub fn bus_id_already_exists(net: &Network, current_id: &str, candidate: &str) -> (r: bool)
    ensures
        r == exists|i: int| 0 <= i < net.n_buses() && #[trigger] net.bus_id(i) != current_id@
            && net.bus_id(i) == candidate@,
{
    let cur = String::from_str(current_id);
    let cand = String::from_str(candidate);
    let mut i: usize = 0;
    while i < net.buses.len()
        invariant
            i <= net.buses@.len(),
            cur@ == current_id@,
            cand@ == candidate@,
            forall|j: int| 0 <= j < i ==> !(#[trigger] net.bus_id(j) != current_id@ && net.bus_id(j) == candidate@),
        decreases net.buses@.len() - i,
    {
        if !(net.buses[i].id == cur) && net.buses[i].id == cand {
            assert(net.bus_id(i as int) != current_id@ && net.bus_id(i as int) == candidate@);
            return true;
        }
        i = i + 1;
    }
    false
}

proof fn lemma_digit_text(d: nat)
    requires
        d < 10,
    ensures
        digit_text(d).len() == 1,
        forall|e: nat| e < 10 && e != d ==> #[trigger] digit_text(e)[0] != digit_text(d)[0],
{
    reveal_strlit("0");
    reveal_strlit("1");
    reveal_strlit("2");
    reveal_strlit("3");
    reveal_strlit("4");
    reveal_strlit("5");
    reveal_strlit("6");
    reveal_strlit("7");
    reveal_strlit("8");
    reveal_strlit("9");
}

proof fn lemma_decimal_shape(n: nat)
    ensures
        decimal_text(n).len() >= 1,
        n < 10 ==> decimal_text(n).len() == 1,
        n >= 10 ==> decimal_text(n).len() >= 2,
        decimal_text(n).last() == digit_text(n % 10)[0],
        n >= 10 ==> decimal_text(n).drop_last() == decimal_text(n / 10),
    decreases n,
{
    lemma_digit_text(n % 10);
    if n >= 10 {
        lemma_decimal_shape(n / 10);
        let a = decimal_text(n / 10);
        let b = digit_text(n % 10);
        assert((a + b).drop_last() =~= a);
    }
}

/// Distinct numbers have distinct decimal notations.
pub proof fn lemma_decimal_injective(a: nat, b: nat)
    requires
        decimal_text(a) == decimal_text(b),
    ensures
        a == b,
    decreases a + b,
{
    lemma_decimal_shape(a);
    lemma_decimal_shape(b);
    lemma_digit_text(a % 10);
    lemma_digit_text(b % 10);
    assert(a % 10 == b % 10) by {
        if a % 10 != b % 10 {
            assert(digit_text(b % 10)[0] != digit_text(a % 10)[0]);
        }
    }
    if a >= 10 && b >= 10 {
        lemma_decimal_injective(a / 10, b / 10);
    }
}

/// The `n`-th candidate id with prefix `prefix`: `prefix` followed by `n`.
pub open spec fn numbered(prefix: Seq<char>, n: nat) -> Seq<char> {
    prefix + decimal_text(n)
}

/// The `n`-th candidate copy of `base`: `base_copy`, then `base_copy2`, ...
pub open spec fn copy_name(base: Seq<char>, n: nat) -> Seq<char> {
    if n == 1 {
        base + "_copy"@
    } else {
        base + "_copy"@ + decimal_text(n)
    }
}

/// `n` is the least number from 1 on whose name `f(n)` is not in `used`.
pub open spec fn least_free(used: Seq<Seq<char>>, f: spec_fn(nat) -> Seq<char>, n: nat) -> bool {
    &&& n >= 1
    &&& !used.contains(f(n))
    &&& forall|m: nat| 1 <= m < n ==> used.contains(#[trigger] f(m))
}

/// The first name `f(n)`, `n` from 1 on, that is not in `used`.
pub open spec fn first_free(used: Seq<Seq<char>>, f: spec_fn(nat) -> Seq<char>) -> Seq<char> {
    f(choose|n: nat| least_free(used, f, n))
}

proof fn lemma_least_free_unique(used: Seq<Seq<char>>, f: spec_fn(nat) -> Seq<char>, n: nat)
    requires
        least_free(used, f, n),
    ensures
        first_free(used, f) == f(n),
{
    let c = choose|c: nat| least_free(used, f, c);
    if c < n {
        assert(used.contains(f(c)));
    } else if n < c {
        assert(used.contains(f(n)));
    }
}

/// Among `used.len() + 1` distinct names, one is not in `used`.
proof fn lemma_pigeonhole(used: Seq<Seq<char>>, f: spec_fn(nat) -> Seq<char>)
    requires
        forall|a: nat, b: nat| 1 <= a < b <= used.len() + 1 ==> #[trigger] f(a) != #[trigger] f(b),
    ensures
        exists|m: nat| 1 <= m <= used.len() + 1 && !used.contains(#[trigger] f(m)),
{
    if forall|m: nat| 1 <= m <= used.len() + 1 ==> used.contains(#[trigger] f(m)) {
    let names = Seq::new((used.len() + 1) as nat, |i: int| f((i + 1) as nat));
    assert(names.no_duplicates()) by {
        assert forall|i: int, j: int| 0 <= i < names.len() && 0 <= j < names.len() && i != j implies names[i] != names[j] by {
            if i < j {
                assert(f((i + 1) as nat) != f((j + 1) as nat));
            } else {
                assert(f((j + 1) as nat) != f((i + 1) as nat));
            }
        }
    }
    names.unique_seq_to_set();
    used.lemma_cardinality_of_set();
    vstd::seq_lib::seq_to_set_is_finite(used);
    assert(names.to_set().subset_of(used.to_set())) by {
        assert forall|x: Seq<char>| names.to_set().contains(x) implies used.to_set().contains(x) by {
            let i = choose|i: int| 0 <= i < names.len() && names[i] == x;
            assert(used.contains(f((i + 1) as nat)));
        }
    }
    vstd::set_lib::lemma_len_subset(names.to_set(), used.to_set());
    }
}

proof fn lemma_numbered_injective(prefix: Seq<char>, a: nat, b: nat)
    requires
        numbered(prefix, a) == numbered(prefix, b),
    ensures
        a == b,
{
    assert(decimal_text(a) =~= numbered(prefix, a).subrange(prefix.len() as int, numbered(prefix, a).len() as int));
    assert(decimal_text(b) =~= numbered(prefix, b).subrange(prefix.len() as int, numbered(prefix, b).len() as int));
    lemma_decimal_injective(a, b);
}

proof fn lemma_copy_name_injective(base: Seq<char>, a: nat, b: nat)
    requires
        a >= 1,
        b >= 1,
        copy_name(base, a) == copy_name(base, b),
    ensures
        a == b,
{
    let p = base + "_copy"@;
    lemma_decimal_shape(a);
    lemma_decimal_shape(b);
    if a == 1 && b != 1 {
        assert(copy_name(base, b).len() > p.len());
    } else if b == 1 && a != 1 {
        assert(copy_name(base, a).len() > p.len());
    } else if a != 1 && b != 1 {
        lemma_numbered_injective(p, a, b);
    }
}

/// First id `{prefixo}{n}` (n >= 1) that does not collide with `existing`.
pub fn unique_id(existing: &Vec<String>, prefixo: &str) -> (r: String)
    requires
        existing@.len() < usize::MAX,
    ensures
        r@ == first_free(ids_of(existing@), |n: nat| numbered(prefixo@, n)),
        !ids_of(existing@).contains(r@),
{
    let ghost used = ids_of(existing@);
    let ghost f = |n: nat| numbered(prefixo@, n);
    let mut n: usize = 1;
    loop
        invariant
            1 <= n <= existing@.len() + 1,
            used == ids_of(existing@),
            f == (|n: nat| numbered(prefixo@, n)),
            existing@.len() < usize::MAX,
            forall|m: nat| 1 <= m < n ==> used.contains(#[trigger] f(m)),
        decreases existing@.len() + 1 - n,
    {
        let mut cand = String::from_str(prefixo);
        let digits = decimal(n);
        cand.append(digits.as_str());
        assert(cand@ == f(n as nat));
        if !holds(existing, &cand) {
            proof {
                lemma_least_free_unique(used, f, n as nat);
            }
            return cand;
        }
        proof {
            if n == existing@.len() + 1 {
                assert forall|a: nat, b: nat| 1 <= a < b <= used.len() + 1 implies #[trigger] f(a) != #[trigger] f(b) by {
                    if f(a) == f(b) {
                        lemma_numbered_injective(prefixo@, a, b);
                    }
                }
                lemma_pigeonhole(used, f);
                let m = choose|m: nat| 1 <= m <= used.len() + 1 && !used.contains(#[trigger] f(m));
                if m < n {
                    assert(used.contains(f(m)));
                }
            }
        }
        n = n + 1;
    }
}

/// First copy name of `base` (`base_copy`, `base_copy2`, ...) not in `used`.
pub fn unique_suffixed_id(used: &Vec<String>, base: &str) -> (r: String)
    requires
        used@.len() < usize::MAX,
    ensures
        r@ == first_free(ids_of(used@), |n: nat| copy_name(base@, n)),
        !ids_of(used@).contains(r@),
{
    let ghost u = ids_of(used@);
    let ghost f = |n: nat| copy_name(base@, n);
    let mut n: usize = 1;
    loop
        invariant
            1 <= n <= used@.len() + 1,
            u == ids_of(used@),
            f == (|n: nat| copy_name(base@, n)),
            used@.len() < usize::MAX,
            forall|m: nat| 1 <= m < n ==> u.contains(#[trigger] f(m)),
        decreases used@.len() + 1 - n,
    {
        let mut cand = String::from_str(base);
        cand.append("_copy");
        if n > 1 {
            let digits = decimal(n);
            cand.append(digits.as_str());
        }
        assert(cand@ == f(n as nat));
        if !holds(used, &cand) {
            proof {
                lemma_least_free_unique(u, f, n as nat);
            }
            return cand;
        }
        proof {
            if n == used@.len() + 1 {
                assert forall|a: nat, b: nat| 1 <= a < b <= u.len() + 1 implies #[trigger] f(a) != #[trigger] f(b) by {
                    if f(a) == f(b) {
                        lemma_copy_name_injective(base@, a, b);
                    }
                }
                lemma_pigeonhole(u, f);
                let m = choose|m: nat| 1 <= m <= u.len() + 1 && !u.contains(#[trigger] f(m));
                if m < n {
                    assert(u.contains(f(m)));
                }
            }
        }
        n = n + 1;
    }
}


/// Buses and branches copied from a network by the editor.
#[derive(Debug, Clone)]
pub struct GraphClipboard {
    pub buses: Vec<Bus>,
    pub branches: Vec<Branch>,
}

/// `x` selects the bus with id `id`.
pub open spec fn is_bus_selection(x: Selection, id: Seq<char>) -> bool {
    match x {
        Selection::Bus(s) => s@ == id,
        Selection::Branch(_) => false,
    }
}

/// `x` selects branch `k`.
pub open spec fn is_branch_selection(x: Selection, k: int) -> bool {
    match x {
        Selection::Branch(b) => b == k,
        Selection::Bus(_) => false,
    }
}

/// The selection holds the bus with id `id`.
pub open spec fn selects_bus(sel: Seq<Selection>, id: Seq<char>) -> bool {
    exists|i: int| 0 <= i < sel.len() && is_bus_selection(#[trigger] sel[i], id)
}

/// The selection holds branch `k`.
pub open spec fn selects_branch(sel: Seq<Selection>, k: int) -> bool {
    exists|i: int| 0 <= i < sel.len() && is_branch_selection(#[trigger] sel[i], k)
}

/// The selection holds at least one bus.
pub open spec fn selects_some_bus(sel: Seq<Selection>) -> bool {
    exists|i: int| 0 <= i < sel.len() && (#[trigger] sel[i]) is Bus
}

/// Two branches with the same id, terminals and element.
pub open spec fn same_branch(a: Branch, b: Branch) -> bool {
    &&& a.id == b.id
    &&& a.nodes@ == b.nodes@
    &&& a.element == b.element
}

impl Network {
    /// Branch `k` is copied: selected itself, or all its terminals are
    /// selected buses (when some bus is selected).
    pub open spec fn copies_branch(self, sel: Seq<Selection>, k: int) -> bool {
        ||| selects_branch(sel, k)
        ||| selects_some_bus(sel) && forall|t: int| 0 <= t < self.branches@[k].node_ids().len()
            ==> selects_bus(sel, #[trigger] self.branches@[k].node_ids()[t])
    }

    /// Buses with id `id` are copied: selected, or terminals of a copied branch.
    pub open spec fn copies_bus_id(self, sel: Seq<Selection>, id: Seq<char>) -> bool {
        ||| selects_bus(sel, id)
        ||| exists|k: int| 0 <= k < self.n_branches() && #[trigger] self.copies_branch(sel, k)
            && self.branches@[k].node_ids().contains(id)
    }

    /// The branches among the first `c` that are copied, in order.
    pub open spec fn copied_branches(self, sel: Seq<Selection>, c: int) -> Seq<Branch>
        decreases c,
    {
        if c <= 0 {
            Seq::empty()
        } else {
            let prev = self.copied_branches(sel, c - 1);
            if self.copies_branch(sel, c - 1) {
                prev.push(self.branches@[c - 1])
            } else {
                prev
            }
        }
    }
}

/// Whether the selection holds the bus with id `id`.
pub(crate) fn selects_bus_exec(sel: &Vec<Selection>, id: &String) -> (r: bool)
    ensures
        r == selects_bus(sel@, id@),
{
    let mut i: usize = 0;
    while i < sel.len()
        invariant
            i <= sel@.len(),
            forall|j: int| 0 <= j < i ==> !is_bus_selection(#[trigger] sel@[j], id@),
        decreases sel@.len() - i,
    {
        match &sel[i] {
            Selection::Bus(s) => {
                if *s == *id {
                    return true;
                }
            },
            Selection::Branch(_) => {},
        }
        i = i + 1;
    }
    false
}

/// Whether the selection holds branch `k`.
pub(crate) fn selects_branch_exec(sel: &Vec<Selection>, k: usize) -> (r: bool)
    ensures
        r == selects_branch(sel@, k as int),
{
    let mut i: usize = 0;
    while i < sel.len()
        invariant
            i <= sel@.len(),
            forall|j: int| 0 <= j < i ==> !is_branch_selection(#[trigger] sel@[j], k as int),
        decreases sel@.len() - i,
    {
        match &sel[i] {
            Selection::Branch(b) => {
                if *b == k {
                    return true;
                }
            },
            Selection::Bus(_) => {},
        }
        i = i + 1;
    }
    false
}

fn copy_strings(v: &Vec<String>) -> (r: Vec<String>)
    ensures
        r@ == v@,
{
    let mut r: Vec<String> = Vec::new();
    let mut i: usize = 0;
    while i < v.len()
        invariant
            i <= v@.len(),
            r@ == v@.take(i as int),
        decreases v@.len() - i,
    {
        r.push(v[i].clone());
        i = i + 1;
        assert(r@ =~= v@.take(i as int));
    }
    assert(v@.take(v@.len() as int) =~= v@);
    r
}

fn copy_bus(b: &Bus) -> (r: Bus)
    ensures
        r == *b,
{
    Bus { id: b.id.clone(), kind: b.kind }
}

fn copy_branch(b: &Branch) -> (r: Branch)
    ensures
        same_branch(r, *b),
{
    let id = match &b.id {
        Some(s) => Some(s.clone()),
        None => None,
    };
    Branch { id, nodes: copy_strings(&b.nodes), element: b.element }
}

/// Copies the selection: the selected buses, the selected branches, the
/// branches whose terminals are all selected buses, and the terminals of the
/// copied branches. `None` when no bus would be copied.
pub fn copy_graph_selection(net: &Network, selections: &Vec<Selection>) -> (r: Option<GraphClipboard>)
    ensures
        ({
            let buses = net.buses@.filter(|b: Bus| net.copies_bus_id(selections@, b.id@));
            let branches = net.copied_branches(selections@, net.n_branches());
            &&& r is None <==> buses.len() == 0
            &&& r matches Some(c) ==> {
                &&& c.buses@ == buses
                &&& c.branches@.len() == branches.len()
                &&& forall|i: int| 0 <= i < branches.len() ==> same_branch(#[trigger] c.branches@[i], branches[i])
            }
        }),
{
    let ghost sel = selections@;
    let m = net.branches.len();
    let n = net.buses.len();
    let mut any_bus = false;
    let mut i: usize = 0;
    while i < selections.len()
        invariant
            i <= sel.len(),
            sel == selections@,
            any_bus <==> exists|j: int| 0 <= j < i && (#[trigger] sel[j]) is Bus,
        decreases sel.len() - i,
    {
        if let Selection::Bus(_) = &selections[i] {
            any_bus = true;
        }
        i = i + 1;
    }
    assert(any_bus == selects_some_bus(sel));
    // Branches to copy, in order.
    let mut chosen: Vec<usize> = Vec::new();
    let mut branches: Vec<Branch> = Vec::new();
    let mut k: usize = 0;
    while k < m
        invariant
            m == net.n_branches(),
            k <= m,
            sel == selections@,
            any_bus == selects_some_bus(sel),
            forall|x: usize| #[trigger] chosen@.contains(x) <==> (x < k && net.copies_branch(sel, x as int)),
            forall|j: int| 0 <= j < chosen@.len() ==> #[trigger] chosen@[j] < k,
            branches@.len() == net.copied_branches(sel, k as int).len(),
            forall|j: int| 0 <= j < branches@.len() ==> same_branch(#[trigger] branches@[j], net.copied_branches(sel, k as int)[j]),
        decreases m - k,
    {
        let mut take = selects_branch_exec(selections, k);
        if !take && any_bus {
            let nodes = &net.branches[k].nodes;
            let mut all = true;
            let mut t: usize = 0;
            while t < nodes.len()
                invariant
                    k < m,
                    m == net.n_branches(),
                    nodes@ == net.branches@[k as int].nodes@,
                    t <= nodes@.len(),
                    sel == selections@,
                    all <==> forall|t2: int| 0 <= t2 < t ==> selects_bus(sel, #[trigger] net.branches@[k as int].node_ids()[t2]),
                decreases nodes@.len() - t,
            {
                assert(net.branches@[k as int].node_ids()[t as int] == nodes@[t as int]@);
                if !selects_bus_exec(selections, &nodes[t]) {
                    all = false;
                }
                t = t + 1;
            }
            take = all;
        }
        assert(take == net.copies_branch(sel, k as int));
        let ghost old_chosen = chosen@;
        let ghost old_branches = branches@;
        if take {
            chosen.push(k);
            let copy = copy_branch(&net.branches[k]);
            branches.push(copy);
        }
        proof {
            assert forall|x: usize| #[trigger] chosen@.contains(x) <==> (x < k + 1 && net.copies_branch(sel, x as int)) by {
                if chosen@.contains(x) {
                    let j = choose|j: int| 0 <= j < chosen@.len() && chosen@[j] == x;
                    if j < old_chosen.len() {
                        assert(old_chosen[j] == x);
                        assert(old_chosen.contains(x));
                    }
                }
                if x < k && net.copies_branch(sel, x as int) {
                    assert(old_chosen.contains(x));
                    let j = choose|j: int| 0 <= j < old_chosen.len() && old_chosen[j] == x;
                    assert(chosen@[j] == x);
                }
                if x == k && take {
                    assert(chosen@[chosen@.len() - 1] == x);
                }
            }
            assert forall|j: int| 0 <= j < branches@.len() implies same_branch(#[trigger] branches@[j], net.copied_branches(sel, k + 1)[j]) by {
                if j < old_branches.len() {
                    assert(branches@[j] == old_branches[j]);
                }
            }
        }
        k = k + 1;
    }
    // Buses to copy, in declaration order.
    let mut buses: Vec<Bus> = Vec::new();
    let ghost pred = |b: Bus| net.copies_bus_id(sel, b.id@);
    let mut i: usize = 0;
    while i < n
        invariant
            n == net.n_buses(),
            m == net.n_branches(),
            i <= n,
            sel == selections@,
            pred == (|b: Bus| net.copies_bus_id(sel, b.id@)),
            forall|x: usize| #[trigger] chosen@.contains(x) <==> (x < m && net.copies_branch(sel, x as int)),
            forall|j: int| 0 <= j < chosen@.len() ==> #[trigger] chosen@[j] < m,
            buses@ == net.buses@.take(i as int).filter(pred),
        decreases n - i,
    {
        let id = &net.buses[i].id;
        let mut copy = selects_bus_exec(selections, id);
        let mut j: usize = 0;
        while j < chosen.len()
            invariant
                m == net.n_branches(),
                i < n,
                n == net.n_buses(),
                id@ == net.bus_id(i as int),
                j <= chosen@.len(),
                forall|j2: int| 0 <= j2 < chosen@.len() ==> #[trigger] chosen@[j2] < m,
                copy <==> (selects_bus(sel, id@) || exists|j2: int| 0 <= j2 < j
                    && net.branches@[chosen@[j2] as int].node_ids().contains(id@)),
            decreases chosen@.len() - j,
        {
            let kk = chosen[j];
            if net.branch_has_node(kk, id) {
                copy = true;
            }
            j = j + 1;
        }
        proof {
            assert(copy == net.copies_bus_id(sel, id@)) by {
                if copy && !selects_bus(sel, id@) {
                    let j2 = choose|j2: int| 0 <= j2 < chosen@.len()
                        && net.branches@[chosen@[j2] as int].node_ids().contains(id@);
                    let kk = chosen@[j2];
                    assert(chosen@.contains(kk));
                    assert(net.copies_branch(sel, kk as int));
                }
                if net.copies_bus_id(sel, id@) && !selects_bus(sel, id@) {
                    let kk = choose|kk: int| 0 <= kk < net.n_branches() && #[trigger] net.copies_branch(sel, kk)
                        && net.branches@[kk].node_ids().contains(id@);
                    assert(chosen@.contains(kk as usize));
                    let j2 = choose|j2: int| 0 <= j2 < chosen@.len() && chosen@[j2] == kk as usize;
                }
            }
            assert(net.buses@.take(i + 1).drop_last() =~= net.buses@.take(i as int));
            reveal_with_fuel(Seq::filter, 1);
        }
        if copy {
            buses.push(copy_bus(&net.buses[i]));
        }
        assert(buses@ =~= net.buses@.take(i + 1).filter(pred));
        i = i + 1;
    }
    assert(net.buses@.take(n as int) =~= net.buses@);
    if buses.len() == 0 {
        return None;
    }
    Some(GraphClipboard { buses, branches })
}


/// Ids of a sequence of buses.
pub open spec fn bus_ids_of(buses: Seq<Bus>) -> Seq<Seq<char>> {
    buses.map_values(|b: Bus| b.id@)
}

/// Ids carried by a sequence of branches (those that have one), in order.
pub open spec fn branch_ids_of(branches: Seq<Branch>) -> Seq<Seq<char>>
    decreases branches.len(),
{
    if branches.len() == 0 {
        Seq::empty()
    } else {
        let prev = branch_ids_of(branches.drop_last());
        match branches.last().id {
            Some(s) => prev.push(s@),
            None => prev,
        }
    }
}

/// Fresh ids of the pasted buses: for each copied bus in order, the first
/// copy name of its id that neither the network (`used0`) nor an earlier
/// pasted bus uses.
pub open spec fn pasted_bus_ids(used0: Seq<Seq<char>>, buses: Seq<Bus>) -> Seq<Seq<char>>
    decreases buses.len(),
{
    if buses.len() == 0 {
        Seq::empty()
    } else {
        let prev = pasted_bus_ids(used0, buses.drop_last());
        prev.push(first_free(used0 + prev, |n: nat| copy_name(buses.last().id@, n)))
    }
}

/// The fresh id given to the copied bus with id `name` (the last such bus
/// when several share it).
pub open spec fn renamed(buses: Seq<Bus>, fresh: Seq<Seq<char>>, name: Seq<char>) -> Option<Seq<char>>
    decreases buses.len(),
{
    if buses.len() == 0 {
        None
    } else if buses.last().id@ == name {
        Some(fresh[buses.len() - 1])
    } else {
        renamed(buses.drop_last(), fresh, name)
    }
}

/// Every terminal in `nodes` names a copied bus.
pub open spec fn all_renamed(buses: Seq<Bus>, fresh: Seq<Seq<char>>, nodes: Seq<Seq<char>>) -> bool {
    forall|t: int| 0 <= t < nodes.len() ==> (#[trigger] renamed(buses, fresh, nodes[t])) is Some
}

/// Id, terminals and element of a branch.
pub open spec fn branch_model(b: Branch) -> (Option<Seq<char>>, Seq<Seq<char>>, Element) {
    (match b.id {
        Some(s) => Some(s@),
        None => None,
    }, b.node_ids(), b.element)
}

/// The pasted branches (id, terminals, element) and the ids in use after
/// them: each copied branch whose terminals are all copied buses, with the
/// terminals renamed and, if it has an id, the first copy name of the id not
/// yet in use.
pub open spec fn pasted_branches(used0: Seq<Seq<char>>, buses: Seq<Bus>, fresh: Seq<Seq<char>>, branches: Seq<Branch>)
    -> (Seq<(Option<Seq<char>>, Seq<Seq<char>>, Element)>, Seq<Seq<char>>)
    decreases branches.len(),
{
    if branches.len() == 0 {
        (Seq::empty(), used0)
    } else {
        let (prev, used) = pasted_branches(used0, buses, fresh, branches.drop_last());
        let b = branches.last();
        if !all_renamed(buses, fresh, b.node_ids()) {
            (prev, used)
        } else {
            let nodes = b.node_ids().map_values(|x: Seq<char>| renamed(buses, fresh, x)->Some_0);
            match b.id {
                None => (prev.push((None, nodes, b.element)), used),
                Some(s) => {
                    let nid = first_free(used, |n: nat| copy_name(s@, n));
                    (prev.push((Some(nid), nodes, b.element)), used.push(nid))
                },
            }
        }
    }
}


pub(crate) proof fn lemma_ids_push(v: Seq<String>, c: String)
    ensures
        ids_of(v.push(c)) == ids_of(v).push(c@),
{
    assert(ids_of(v.push(c)) =~= ids_of(v).push(c@)) by {
        assert forall|k: int| 0 <= k < v.len() + 1 implies ids_of(v.push(c))[k] == ids_of(v).push(c@)[k] by {
            if k < v.len() {
                assert(v.push(c)[k] == v[k]);
            }
        }
    }
}

proof fn lemma_bus_ids_take(buses: Seq<Bus>, i: int)
    requires
        0 <= i < buses.len(),
    ensures
        bus_ids_of(buses.take(i + 1)) == bus_ids_of(buses.take(i)).push(buses[i].id@),
{
    assert(bus_ids_of(buses.take(i + 1)) =~= bus_ids_of(buses.take(i)).push(buses[i].id@)) by {
        assert forall|k: int| 0 <= k < i + 1 implies bus_ids_of(buses.take(i + 1))[k] == bus_ids_of(buses.take(i)).push(buses[i].id@)[k] by {
            if k < i {
                assert(buses.take(i + 1)[k] == buses.take(i)[k]);
            }
        }
    }
}

proof fn lemma_take_push<A>(s: Seq<A>, i: int)
    requires
        0 <= i < s.len(),
    ensures
        s.take(i + 1) == s.take(i).push(s[i]),
{
    assert(s.take(i + 1) =~= s.take(i).push(s[i]));
}

/// The ids of the buses of `net`, in declaration order.
pub fn bus_id_list(net: &Network) -> (r: Vec<String>)
    ensures
        ids_of(r@) == bus_ids_of(net.buses@),
{
    let mut r: Vec<String> = Vec::new();
    let mut i: usize = 0;
    while i < net.buses.len()
        invariant
            i <= net.buses@.len(),
            ids_of(r@) == bus_ids_of(net.buses@.take(i as int)),
        decreases net.buses@.len() - i,
    {
        let ghost r0 = r@;
        let c = net.buses[i].id.clone();
        r.push(c);
        proof {
            lemma_ids_push(r0, c);
            lemma_bus_ids_take(net.buses@, i as int);
        }
        i = i + 1;
    }
    assert(net.buses@.take(net.buses@.len() as int) =~= net.buses@);
    r
}

/// The ids of the branches of `net` that have one, in order.
pub fn branch_id_list(net: &Network) -> (r: Vec<String>)
    ensures
        ids_of(r@) == branch_ids_of(net.branches@),
{
    let mut r: Vec<String> = Vec::new();
    let mut k: usize = 0;
    while k < net.branches.len()
        invariant
            k <= net.branches@.len(),
            ids_of(r@) == branch_ids_of(net.branches@.take(k as int)),
        decreases net.branches@.len() - k,
    {
        assert(net.branches@.take(k + 1).drop_last() =~= net.branches@.take(k as int));
        let ghost r0 = r@;
        match &net.branches[k].id {
            Some(s) => {
                let c = s.clone();
                r.push(c);
                proof {
                    lemma_ids_push(r0, c);
                }
            },
            None => {},
        }
        k = k + 1;
    }
    assert(net.branches@.take(net.branches@.len() as int) =~= net.branches@);
    r
}

pub(crate) proof fn lemma_branch_ids_len(branches: Seq<Branch>)
    ensures
        branch_ids_of(branches).len() <= branches.len(),
    decreases branches.len(),
{
    if branches.len() > 0 {
        lemma_branch_ids_len(branches.drop_last());
    }
}

proof fn lemma_pasted_bus_ids_len(used0: Seq<Seq<char>>, buses: Seq<Bus>)
    ensures
        pasted_bus_ids(used0, buses).len() == buses.len(),
    decreases buses.len(),
{
    if buses.len() > 0 {
        lemma_pasted_bus_ids_len(used0, buses.drop_last());
    }
}

proof fn lemma_pasted_bus_ids_prefix(used0: Seq<Seq<char>>, buses: Seq<Bus>, i: int)
    requires
        0 <= i <= buses.len(),
    ensures
        pasted_bus_ids(used0, buses.take(i)) == pasted_bus_ids(used0, buses).take(i),
    decreases buses.len() - i,
{
    lemma_pasted_bus_ids_len(used0, buses);
    if i == buses.len() {
        assert(buses.take(i) =~= buses);
        assert(pasted_bus_ids(used0, buses).take(i) =~= pasted_bus_ids(used0, buses));
    } else {
        lemma_pasted_bus_ids_prefix(used0, buses, i + 1);
        assert(buses.take(i + 1).drop_last() =~= buses.take(i));
        lemma_pasted_bus_ids_len(used0, buses.take(i + 1));
        assert(pasted_bus_ids(used0, buses).take(i + 1).drop_last() =~= pasted_bus_ids(used0, buses).take(i));
    }
}

proof fn lemma_renamed_suffix(buses: Seq<Bus>, fresh: Seq<Seq<char>>, name: Seq<char>, i: int)
    requires
        0 <= i <= buses.len(),
        forall|j: int| i <= j < buses.len() ==> (#[trigger] buses[j]).id@ != name,
    ensures
        renamed(buses, fresh, name) == renamed(buses.take(i), fresh, name),
    decreases buses.len() - i,
{
    if i == buses.len() {
        assert(buses.take(i) =~= buses);
    } else {
        assert(buses[buses.len() - 1].id@ != name);
        assert(buses.drop_last().take(i) =~= buses.take(i));
        assert forall|j: int| i <= j < buses.drop_last().len() implies (#[trigger] buses.drop_last()[j]).id@ != name by {
            assert(buses.drop_last()[j] == buses[j]);
        }
        lemma_renamed_suffix(buses.drop_last(), fresh, name, i);
    }
}

/// The string paired with the last `from` entry equal to `name`.
fn rename(from: &Vec<String>, to: &Vec<String>, name: &String, Ghost(buses): Ghost<Seq<Bus>>, Ghost(fresh): Ghost<Seq<Seq<char>>>) -> (r: Option<String>)
    requires
        from@.len() == to@.len(),
        from@.len() == buses.len(),
        ids_of(from@) == bus_ids_of(buses),
        ids_of(to@) == fresh,
    ensures
        match r {
            Some(s) => renamed(buses, fresh, name@) == Some(s@),
            None => renamed(buses, fresh, name@) is None,
        },
{
    let mut i: usize = from.len();
    while i > 0
        invariant
            i <= from@.len(),
            from@.len() == to@.len(),
            from@.len() == buses.len(),
            ids_of(from@) == bus_ids_of(buses),
            ids_of(to@) == fresh,
            forall|j: int| i <= j < buses.len() ==> (#[trigger] buses[j]).id@ != name@,
        decreases i,
    {
        assert(bus_ids_of(buses)[i - 1] == from@[i - 1]@);
        if from[i - 1] == *name {
            proof {
                lemma_renamed_suffix(buses, fresh, name@, i as int);
                assert(buses.take(i as int).last() == buses[i - 1]);
                assert(ids_of(to@)[i - 1] == to@[i - 1]@);
            }
            return Some(to[i - 1].clone());
        }
        i = i - 1;
    }
    proof {
        lemma_renamed_suffix(buses, fresh, name@, 0);
    }
    None
}

/// The clipboard branches that a paste adds, in order: those whose
/// terminals are all copied buses.
pub open spec fn pasteable(buses: Seq<Bus>, fresh: Seq<Seq<char>>, branches: Seq<Branch>) -> Seq<Branch>
    decreases branches.len(),
{
    if branches.len() == 0 {
        Seq::empty()
    } else {
        let prev = pasteable(buses, fresh, branches.drop_last());
        if all_renamed(buses, fresh, branches.last().node_ids()) {
            prev.push(branches.last())
        } else {
            prev
        }
    }
}

/// Each pasted branch comes from the clipboard branch in the same position
/// among the pasteable ones: it keeps that branch's element (and so its
/// consumers), has an id exactly when that branch has one, and its
/// terminals are that branch's terminals, each replaced by the fresh id of
/// the copied bus it names.
pub proof fn lemma_pasted_follow_clipboard(used0: Seq<Seq<char>>, buses: Seq<Bus>, fresh: Seq<Seq<char>>, branches: Seq<Branch>)
    ensures
        ({
            let models = pasted_branches(used0, buses, fresh, branches).0;
            let src = pasteable(buses, fresh, branches);
            &&& models.len() == src.len()
            &&& forall|j: int| 0 <= j < models.len() ==> {
                &&& (#[trigger] models[j]).2 == src[j].element
                &&& (models[j].0 is Some <==> src[j].id is Some)
                &&& models[j].1.len() == src[j].node_ids().len()
                &&& forall|t: int| 0 <= t < models[j].1.len()
                    ==> renamed(buses, fresh, src[j].node_ids()[t]) == Some(#[trigger] models[j].1[t])
            }
        }),
    decreases branches.len(),
{
    if branches.len() > 0 {
        lemma_pasted_follow_clipboard(used0, buses, fresh, branches.drop_last());
        let prev = pasted_branches(used0, buses, fresh, branches.drop_last()).0;
        let models = pasted_branches(used0, buses, fresh, branches).0;
        let src0 = pasteable(buses, fresh, branches.drop_last());
        let src = pasteable(buses, fresh, branches);
        let b = branches.last();
        if all_renamed(buses, fresh, b.node_ids()) {
            assert forall|j: int| 0 <= j < prev.len() implies models[j] == prev[j] && src[j] == src0[j] by {}
            let nodes = b.node_ids().map_values(|x: Seq<char>| renamed(buses, fresh, x)->Some_0);
            let j = prev.len() as int;
            assert(models[j].1 == nodes);
            assert(src[j] == b);
            assert forall|t: int| 0 <= t < models[j].1.len()
                implies renamed(buses, fresh, src[j].node_ids()[t]) == Some(#[trigger] models[j].1[t]) by {
                assert(renamed(buses, fresh, b.node_ids()[t]) is Some);
            }
        }
    }
}

/// Where some name `f(m)` is free, a least free one exists.
proof fn lemma_least_free_exists(used: Seq<Seq<char>>, f: spec_fn(nat) -> Seq<char>, m: nat)
    requires
        m >= 1,
        !used.contains(f(m)),
    ensures
        exists|n: nat| least_free(used, f, n),
    decreases m,
{
    if forall|k: nat| 1 <= k < m ==> used.contains(#[trigger] f(k)) {
        assert(least_free(used, f, m));
    } else {
        let k = choose|k: nat| 1 <= k < m && !used.contains(#[trigger] f(k));
        lemma_least_free_exists(used, f, k);
    }
}

/// The first free copy name of `base` is not in use.
pub proof fn lemma_copy_name_free(used: Seq<Seq<char>>, base: Seq<char>)
    ensures
        !used.contains(first_free(used, |n: nat| copy_name(base, n))),
{
    let f = |n: nat| copy_name(base, n);
    assert forall|a: nat, b: nat| 1 <= a < b <= used.len() + 1 implies #[trigger] f(a) != #[trigger] f(b) by {
        if f(a) == f(b) {
            lemma_copy_name_injective(base, a, b);
        }
    }
    lemma_pigeonhole(used, f);
    let m = choose|m: nat| 1 <= m <= used.len() + 1 && !used.contains(#[trigger] f(m));
    lemma_least_free_exists(used, f, m);
    let n = choose|n: nat| least_free(used, f, n);
    lemma_least_free_unique(used, f, n);
}

/// Pasted branches get new ids: none of them was in use before the paste
/// (`used0`), and no two of them are equal.
pub proof fn lemma_pasted_branch_ids_fresh(used0: Seq<Seq<char>>, buses: Seq<Bus>, fresh: Seq<Seq<char>>, branches: Seq<Branch>)
    ensures
        ({
            let (models, used) = pasted_branches(used0, buses, fresh, branches);
            &&& forall|x: Seq<char>| used0.contains(x) ==> used.contains(x)
            &&& forall|k: int| 0 <= k < models.len()
                ==> (#[trigger] models[k].0 matches Some(x) ==> !used0.contains(x) && used.contains(x))
            &&& forall|k1: int, k2: int| 0 <= k1 < k2 < models.len()
                ==> (#[trigger] models[k1].0 matches Some(x1) ==> (#[trigger] models[k2].0 matches Some(x2) ==> x1 != x2))
        }),
    decreases branches.len(),
{
    if branches.len() > 0 {
        lemma_pasted_branch_ids_fresh(used0, buses, fresh, branches.drop_last());
        let (prev, used) = pasted_branches(used0, buses, fresh, branches.drop_last());
        let b = branches.last();
        if all_renamed(buses, fresh, b.node_ids()) {
            match b.id {
                None => {
                    let (models, u2) = pasted_branches(used0, buses, fresh, branches);
                    assert forall|k: int| 0 <= k < prev.len() implies models[k] == prev[k] by {}
                },
                Some(s) => {
                    let nid = first_free(used, |n: nat| copy_name(s@, n));
                    lemma_copy_name_free(used, s@);
                    let (models, u2) = pasted_branches(used0, buses, fresh, branches);
                    assert(u2 == used.push(nid));
                    assert forall|k: int| 0 <= k < prev.len() implies models[k] == prev[k] by {}
                    assert forall|x: Seq<char>| used.contains(x) implies u2.contains(x) by {
                        let q = choose|q: int| 0 <= q < used.len() && used[q] == x;
                        assert(u2[q] == x);
                    }
                    assert(u2[used.len() as int] == nid);
                }
            }
        }
    }
}

/// Pastes the clipboard into the network: each copied bus gets the first
/// free copy name of its id (`id_copy`, `id_copy2`, ...); each copied branch
/// whose terminals were all copied is added with its terminals renamed and,
/// if it has an id, the first free copy name of it. The new ids are not in
/// use before the paste and differ from one another. Returns the selection of
/// the pasted buses (in clipboard order), then of the pasted branches.
pub fn paste_graph_clipboard(net: &mut Network, clipboard: &GraphClipboard) -> (r: Vec<Selection>)
    requires
        old(net).buses@.len() + clipboard.buses@.len() + old(net).branches@.len() + clipboard.branches@.len() < usize::MAX,
    ensures
        clipboard.buses@.len() == 0 ==> r@.len() == 0 && *final(net) == *old(net),
        clipboard.buses@.len() > 0 ==> ({
            let n0 = old(net).buses@.len() as int;
            let m0 = old(net).branches@.len() as int;
            let nb = clipboard.buses@.len() as int;
            let fresh = pasted_bus_ids(bus_ids_of(old(net).buses@), clipboard.buses@);
            let used_b = branch_ids_of(old(net).branches@) + bus_ids_of(old(net).buses@) + fresh;
            let models = pasted_branches(used_b, clipboard.buses@, fresh, clipboard.branches@).0;
            &&& final(net).buses@.len() == n0 + nb
            &&& forall|i: int| 0 <= i < n0 ==> #[trigger] final(net).buses@[i] == old(net).buses@[i]
            &&& forall|i: int| 0 <= i < nb ==> (#[trigger] final(net).buses@[n0 + i]).id@ == fresh[i]
                && final(net).buses@[n0 + i].kind == clipboard.buses@[i].kind
            &&& forall|i: int| 0 <= i < nb ==> !bus_ids_of(old(net).buses@).contains(#[trigger] fresh[i])
            &&& forall|i: int, j: int| 0 <= i < j < nb ==> #[trigger] fresh[i] != #[trigger] fresh[j]
            &&& final(net).branches@.len() == m0 + models.len()
            &&& forall|j: int| 0 <= j < m0 ==> #[trigger] final(net).branches@[j] == old(net).branches@[j]
            &&& forall|j: int| 0 <= j < models.len() ==> branch_model(#[trigger] final(net).branches@[m0 + j]) == models[j]
            &&& models.len() == pasteable(clipboard.buses@, fresh, clipboard.branches@).len()
            &&& forall|j: int| 0 <= j < models.len() ==> (#[trigger] final(net).branches@[m0 + j]).element
                == pasteable(clipboard.buses@, fresh, clipboard.branches@)[j].element
            &&& forall|j: int| 0 <= j < models.len()
                ==> (#[trigger] models[j].0 matches Some(x) ==> !used_b.contains(x))
            &&& forall|j1: int, j2: int| 0 <= j1 < j2 < models.len()
                ==> (#[trigger] models[j1].0 matches Some(x1) ==> (#[trigger] models[j2].0 matches Some(x2) ==> x1 != x2))
            &&& r@.len() == nb + models.len()
            &&& forall|i: int| 0 <= i < nb ==> is_bus_selection(#[trigger] r@[i], fresh[i])
            &&& forall|j: int| 0 <= j < models.len() ==> is_branch_selection(#[trigger] r@[nb + j], m0 + j)
        }),
{
    if clipboard.buses.len() == 0 {
        return Vec::new();
    }
    let ghost old_net = *net;
    let ghost cb = clipboard.buses@;
    let ghost used0 = bus_ids_of(old_net.buses@);
    let ghost fresh_all = pasted_bus_ids(used0, cb);
    proof {
        lemma_pasted_bus_ids_len(used0, cb);
    }
    let n0 = net.buses.len();
    let m0 = net.branches.len();
    let nb = clipboard.buses.len();
    let mut used = bus_id_list(net);
    let mut from: Vec<String> = Vec::new();
    let mut to: Vec<String> = Vec::new();
    let mut sel: Vec<Selection> = Vec::new();
    let mut i: usize = 0;
    while i < nb
        invariant
            nb == cb.len(),
            cb == clipboard.buses@,
            n0 == old_net.buses@.len(),
            m0 == old_net.branches@.len(),
            old_net.buses@.len() + cb.len() + old_net.branches@.len() + clipboard.branches@.len() < usize::MAX,
            used0 == bus_ids_of(old_net.buses@),
            fresh_all == pasted_bus_ids(used0, cb),
            fresh_all.len() == nb,
            i <= nb,
            ids_of(used@) == used0 + fresh_all.take(i as int),
            used@.len() == n0 + i,
            from@.len() == i,
            to@.len() == i,
            ids_of(from@) == bus_ids_of(cb.take(i as int)),
            ids_of(to@) == fresh_all.take(i as int),
            net.branches@ == old_net.branches@,
            net.buses@.len() == n0 + i,
            forall|k: int| 0 <= k < n0 ==> #[trigger] net.buses@[k] == old_net.buses@[k],
            forall|k: int| 0 <= k < i ==> (#[trigger] net.buses@[n0 + k]).id@ == fresh_all[k]
                && net.buses@[n0 + k].kind == cb[k].kind,
            sel@.len() == i,
            forall|k: int| 0 <= k < i ==> is_bus_selection(#[trigger] sel@[k], fresh_all[k]),
            forall|k: int| 0 <= k < i ==> !used0.contains(#[trigger] fresh_all[k]),
            forall|k1: int, k2: int| 0 <= k1 < k2 < i ==> #[trigger] fresh_all[k1] != #[trigger] fresh_all[k2],
        decreases nb - i,
    {
        let copied = &clipboard.buses[i];
        proof {
            lemma_pasted_bus_ids_prefix(used0, cb, i + 1);
            assert(cb.take(i + 1).drop_last() =~= cb.take(i as int));
            lemma_pasted_bus_ids_prefix(used0, cb, i as int);
            assert(cb.take(i + 1).last() == cb[i as int]);
            let pi = pasted_bus_ids(used0, cb.take(i as int));
            assert(pasted_bus_ids(used0, cb.take(i + 1)) == pi.push(first_free(used0 + pi, |n: nat| copy_name(cb[i as int].id@, n))));
            assert(fresh_all[i as int] == fresh_all.take(i + 1)[i as int]);
            assert(fresh_all[i as int] == first_free(used0 + pi, |n: nat| copy_name(cb[i as int].id@, n)));
            assert(ids_of(used@) == used0 + pi);
        }
        let new_id = unique_suffixed_id(&used, copied.id.as_str());
        assert(new_id@ == fresh_all[i as int]);
        proof {
            let pi = fresh_all.take(i as int);
            if used0.contains(new_id@) {
                let q = choose|q: int| 0 <= q < used0.len() && used0[q] == new_id@;
                assert((used0 + pi)[q] == new_id@);
            }
            assert forall|k: int| 0 <= k < i implies fresh_all[k] != new_id@ by {
                if fresh_all[k] == new_id@ {
                    assert((used0 + pi)[used0.len() + k] == new_id@);
                }
            }
        }
        let ghost (u0, f0, t0) = (used@, from@, to@);
        let c1 = new_id.clone();
        let c2 = copied.id.clone();
        let c3 = new_id.clone();
        used.push(c1);
        from.push(c2);
        to.push(c3);
        proof {
            lemma_ids_push(u0, c1);
            lemma_ids_push(f0, c2);
            lemma_ids_push(t0, c3);
            lemma_bus_ids_take(cb, i as int);
            lemma_take_push(fresh_all, i as int);
        }
        net.buses.push(Bus { id: new_id.clone(), kind: copied.kind });
        sel.push(Selection::Bus(new_id));
        proof {
            assert(ids_of(used@) =~= used0 + fresh_all.take(i + 1));
            assert(ids_of(from@) =~= bus_ids_of(cb.take(i + 1)));
            assert(ids_of(to@) =~= fresh_all.take(i + 1));
        }
        i = i + 1;
    }
    assert(cb.take(nb as int) =~= cb);
    assert(fresh_all.take(nb as int) =~= fresh_all);
    // Ids in use for branches: the branches' own ids and every bus id.
    let mut used_b = branch_id_list(net);
    let ghost bid0 = ids_of(used_b@);
    let mut q: usize = 0;
    while q < used.len()
        invariant
            q <= used@.len(),
            ids_of(used_b@) == bid0 + ids_of(used@).take(q as int),
        decreases used@.len() - q,
    {
        let ghost ub0 = used_b@;
        let c = used[q].clone();
        used_b.push(c);
        assert(used_b@ == ub0.push(c));
        assert(c@ == ids_of(used@)[q as int]);
        assert(ids_of(used@).take(q + 1) =~= ids_of(used@).take(q as int).push(c@));
        proof {
            lemma_ids_push(ub0, c);
        }
        q = q + 1;
        assert(ids_of(used_b@) =~= bid0 + ids_of(used@).take(q as int));
    }
    assert(ids_of(used@).take(used@.len() as int) =~= ids_of(used@));
    let ghost used_b0 = branch_ids_of(old_net.branches@) + used0 + fresh_all;
    assert(ids_of(used_b@) =~= used_b0);
    proof {
        lemma_branch_ids_len(old_net.branches@);
    }
    let ghost cr = clipboard.branches@;
    let nr = clipboard.branches.len();
    let mut j: usize = 0;
    while j < nr
        invariant
            nr == cr.len(),
            cr == clipboard.branches@,
            cb == clipboard.buses@,
            nb == cb.len(),
            n0 == old_net.buses@.len(),
            m0 == old_net.branches@.len(),
            old_net.buses@.len() + cb.len() + old_net.branches@.len() + cr.len() < usize::MAX,
            branch_ids_of(old_net.branches@).len() <= m0,
            fresh_all.len() == nb,
            used0.len() == n0,
            used_b0 == branch_ids_of(old_net.branches@) + used0 + fresh_all,
            from@.len() == nb,
            to@.len() == nb,
            ids_of(from@) == bus_ids_of(cb),
            ids_of(to@) == fresh_all,
            j <= nr,
            ({
                let (models, used_j) = pasted_branches(used_b0, cb, fresh_all, cr.take(j as int));
                &&& ids_of(used_b@) == used_j
                &&& used_j.len() <= used_b0.len() + j
                &&& net.branches@.len() == m0 + models.len()
                &&& models.len() <= j
                &&& forall|k2: int| 0 <= k2 < m0 ==> #[trigger] net.branches@[k2] == old_net.branches@[k2]
                &&& forall|k2: int| 0 <= k2 < models.len() ==> branch_model(#[trigger] net.branches@[m0 + k2]) == models[k2]
                &&& sel@.len() == nb + models.len()
                &&& forall|k2: int| 0 <= k2 < models.len() ==> is_branch_selection(#[trigger] sel@[nb + k2], m0 + k2)
            }),
            net.buses@.len() == n0 + nb,
            forall|k2: int| 0 <= k2 < n0 ==> #[trigger] net.buses@[k2] == old_net.buses@[k2],
            forall|k2: int| 0 <= k2 < nb ==> (#[trigger] net.buses@[n0 + k2]).id@ == fresh_all[k2]
                && net.buses@[n0 + k2].kind == cb[k2].kind,
            forall|k2: int| 0 <= k2 < nb ==> is_bus_selection(#[trigger] sel@[k2], fresh_all[k2]),
        decreases nr - j,
    {
        let copied = &clipboard.branches[j];
        let ghost nids = copied.node_ids();
        let mut nodes: Vec<String> = Vec::new();
        let mut ok = true;
        let mut t: usize = 0;
        while t < copied.nodes.len()
            invariant
                t <= copied.nodes@.len(),
                nids == copied.node_ids(),
                from@.len() == nb,
                to@.len() == nb,
                nb == cb.len(),
                ids_of(from@) == bus_ids_of(cb),
                ids_of(to@) == fresh_all,
                ok <==> forall|t2: int| 0 <= t2 < t ==> (#[trigger] renamed(cb, fresh_all, nids[t2])) is Some,
                ok ==> nodes@.len() == t,
                ok ==> forall|t2: int| 0 <= t2 < t ==> (#[trigger] nodes@[t2])@ == renamed(cb, fresh_all, nids[t2])->Some_0,
            decreases copied.nodes@.len() - t,
        {
            assert(nids[t as int] == copied.nodes@[t as int]@);
            match rename(&from, &to, &copied.nodes[t], Ghost(cb), Ghost(fresh_all)) {
                Some(x) => {
                    if ok {
                        nodes.push(x);
                    }
                },
                None => {
                    ok = false;
                },
            }
            t = t + 1;
        }
        let ghost prev = pasted_branches(used_b0, cb, fresh_all, cr.take(j as int));
        assert(cr.take(j + 1).drop_last() =~= cr.take(j as int));
        assert(cr.take(j + 1).last() == cr[j as int]);
        assert(ok == all_renamed(cb, fresh_all, nids));
        if ok {
            let ghost mapped = nids.map_values(|x: Seq<char>| renamed(cb, fresh_all, x)->Some_0);
            assert(ids_of(nodes@) =~= mapped);
            let id = match &copied.id {
                Some(id) => {
                    let nid = unique_suffixed_id(&used_b, id.as_str());
                    used_b.push(nid.clone());
                    Some(nid)
                },
                None => None,
            };
            let new_idx = net.branches.len();
            let ghost old_branches = net.branches@;
            let ghost old_sel = sel@;
            net.branches.push(Branch { id, nodes, element: copied.element });
            sel.push(Selection::Branch(new_idx));
            proof {
                let cur = pasted_branches(used_b0, cb, fresh_all, cr.take(j + 1));
                assert(ids_of(used_b@) =~= cur.1);
                assert(branch_model(net.branches@[m0 + prev.0.len()]) == cur.0[prev.0.len() as int]);
                assert forall|k2: int| 0 <= k2 < cur.0.len() implies branch_model(#[trigger] net.branches@[m0 + k2]) == cur.0[k2] by {
                    if k2 < prev.0.len() {
                        assert(net.branches@[m0 + k2] == old_branches[m0 + k2]);
                    }
                }
                assert forall|k2: int| 0 <= k2 < m0 implies #[trigger] net.branches@[k2] == old_net.branches@[k2] by {
                    assert(net.branches@[k2] == old_branches[k2]);
                }
                assert forall|k2: int| 0 <= k2 < cur.0.len() implies is_branch_selection(#[trigger] sel@[nb + k2], m0 + k2) by {
                    if k2 < prev.0.len() {
                        assert(sel@[nb + k2] == old_sel[nb + k2]);
                    }
                }
                assert forall|k2: int| 0 <= k2 < nb implies is_bus_selection(#[trigger] sel@[k2], fresh_all[k2]) by {
                    assert(sel@[k2] == old_sel[k2]);
                }
            }
        }
        j = j + 1;
    }
    assert(cr.take(nr as int) =~= cr);
    proof {
        lemma_pasted_branch_ids_fresh(used_b0, cb, fresh_all, cr);
        lemma_pasted_follow_clipboard(used_b0, cb, fresh_all, cr);
        let models = pasted_branches(used_b0, cb, fresh_all, cr).0;
        assert forall|j: int| 0 <= j < models.len() implies (#[trigger] net.branches@[m0 + j]).element
            == pasteable(cb, fresh_all, cr)[j].element by {
            assert(branch_model(net.branches@[m0 + j]) == models[j]);
        }
    }
    sel
}


/// Label of an event action.
pub fn action_label(a: Action) -> (r: &'static str)
    ensures
        r@ == match a {
            Action::Fault => "Falta"@,
            Action::Repair => "Reparo"@,
            Action::Open => "Abrir"@,
            Action::Close => "Fechar"@,
        },
{
    match a {
        Action::Fault => "Falta",
        Action::Repair => "Reparo",
        Action::Open => "Abrir",
        Action::Close => "Fechar",
    }
}

/// Label drawn on a branch: its number of consumers.
pub fn edge_label(el: &Element) -> (r: String)
    ensures
        r@ == match *el {
            Element::Line { consumers } => decimal_text(consumers as nat),
        },
{
    match el {
        Element::Line { consumers } => decimal(*consumers as usize),
    }
}

/// Kind of RON document exchanged by the editor.
#[derive(Debug, Clone, Copy, PartialEq, Eq, Structural)]
pub enum RonKind {
    Network,
    Scenario,
}

/// Direction of a RON exchange.
#[derive(Debug, Clone, Copy, PartialEq, Eq, Structural)]
pub enum RonMode {
    Import,
    Export,
}

/// Title of the import/export dialog.
pub fn dialog_title(kind: RonKind, mode: RonMode) -> (r: &'static str)
    ensures
        r@ == match (kind, mode) {
            (RonKind::Network, RonMode::Import) => "Importar rede"@,
            (RonKind::Network, RonMode::Export) => "Exportar rede"@,
            (RonKind::Scenario, RonMode::Import) => "Importar eventos"@,
            (RonKind::Scenario, RonMode::Export) => "Exportar eventos"@,
        },
{
    match (kind, mode) {
        (RonKind::Network, RonMode::Import) => "Importar rede",
        (RonKind::Network, RonMode::Export) => "Exportar rede",
        (RonKind::Scenario, RonMode::Import) => "Importar eventos",
        (RonKind::Scenario, RonMode::Export) => "Exportar eventos",
    }
}

/// Default file name of an exported document.
pub fn default_file_name(kind: RonKind) -> (r: &'static str)
    ensures
        r@ == match kind {
            RonKind::Network => "rede-layout.ron"@,
            RonKind::Scenario => "eventos.ron"@,
        },
{
    match kind {
        RonKind::Network => "rede-layout.ron",
        RonKind::Scenario => "eventos.ron",
    }
}

/// One-line summary of a network: substations, switches and total consumers.
pub fn network_summary(net: &Network) -> (r: String)
    requires
        consumers_total(net.branches@) <= u32::MAX,
    ensures
        r@ == decimal_text(ids_where(net.buses@, |b: Bus| b.spec_is_source()).len()) + " Subestações, "@
            + decimal_text(ids_where(net.buses@, |b: Bus| b.spec_is_switch()).len()) + " Chaves, Cc total = "@
            + decimal_text(consumers_total(net.branches@) as nat),
{
    let sources = net.sources();
    let switches = net.switches();
    let total = net.total_consumers();
    let mut r = decimal(sources.len());
    r.append(" Subestações, ");
    let sw = decimal(switches.len());
    r.append(sw.as_str());
    r.append(" Chaves, Cc total = ");
    let t = decimal(total as usize);
    r.append(t.as_str());
    r
}


/// White space as Rust's `char::is_whitespace` defines it (the Unicode
/// `White_Space` property).
pub open spec fn is_space(c: char) -> bool {
    let v = c as u32;
    ||| 9 <= v <= 13
    ||| v == 32
    ||| v == 0x85
    ||| v == 0xA0
    ||| v == 0x1680
    ||| 0x2000 <= v <= 0x200A
    ||| v == 0x2028
    ||| v == 0x2029
    ||| v == 0x202F
    ||| v == 0x205F
    ||| v == 0x3000
}

fn space(c: char) -> (r: bool)
    ensures
        r == is_space(c),
{
    let v = c as u32;
    (9 <= v && v <= 13) || v == 32 || v == 0x85 || v == 0xA0 || v == 0x1680 || (0x2000 <= v && v <= 0x200A)
        || v == 0x2028 || v == 0x2029 || v == 0x202F || v == 0x205F || v == 0x3000
}

/// The pieces of `s` between commas (one more than the number of commas).
pub open spec fn split_commas(s: Seq<char>) -> Seq<Seq<char>>
    decreases s.len(),
{
    if s.len() == 0 {
        seq![Seq::empty()]
    } else {
        let prev = split_commas(s.drop_last());
        if s.last() == ',' {
            prev.push(Seq::empty())
        } else {
            prev.update(prev.len() - 1, prev.last().push(s.last()))
        }
    }
}

pub open spec fn trim_start(s: Seq<char>) -> Seq<char>
    decreases s.len(),
{
    if s.len() > 0 && is_space(s[0]) {
        trim_start(s.drop_first())
    } else {
        s
    }
}

pub open spec fn trim_end(s: Seq<char>) -> Seq<char>
    decreases s.len(),
{
    if s.len() > 0 && is_space(s.last()) {
        trim_end(s.drop_last())
    } else {
        s
    }
}

/// `s` without leading and trailing white space.
pub open spec fn trim(s: Seq<char>) -> Seq<char> {
    trim_end(trim_start(s))
}

/// The trimmed pieces that are not empty, in order.
pub open spec fn kept_pieces(pieces: Seq<Seq<char>>) -> Seq<Seq<char>>
    decreases pieces.len(),
{
    if pieces.len() == 0 {
        Seq::empty()
    } else {
        let prev = kept_pieces(pieces.drop_last());
        let t = trim(pieces.last());
        if t.len() > 0 {
            prev.push(t)
        } else {
            prev
        }
    }
}

proof fn lemma_split_nonempty(s: Seq<char>)
    ensures
        split_commas(s).len() >= 1,
    decreases s.len(),
{
    if s.len() > 0 {
        lemma_split_nonempty(s.drop_last());
    }
}

proof fn lemma_trim_start_at(s: Seq<char>, a0: int, a: int, b: int)
    requires
        0 <= a0 <= a <= b <= s.len(),
        forall|k: int| a0 <= k < a ==> is_space(#[trigger] s[k]),
        a == b || !is_space(s[a]),
    ensures
        trim_start(s.subrange(a0, b)) == s.subrange(a, b),
    decreases a - a0,
{
    if a0 < a {
        assert(s.subrange(a0, b).drop_first() =~= s.subrange(a0 + 1, b));
        assert(s.subrange(a0, b)[0] == s[a0]);
        lemma_trim_start_at(s, a0 + 1, a, b);
    } else if a < b {
        assert(s.subrange(a0, b)[0] == s[a]);
    }
}

proof fn lemma_trim_end_at(s: Seq<char>, a: int, b: int, b0: int)
    requires
        0 <= a <= b <= b0 <= s.len(),
        forall|k: int| b <= k < b0 ==> is_space(#[trigger] s[k]),
        b == a || !is_space(s[b - 1]),
    ensures
        trim_end(s.subrange(a, b0)) == s.subrange(a, b),
    decreases b0 - b,
{
    if b < b0 {
        assert(s.subrange(a, b0).drop_last() =~= s.subrange(a, b0 - 1));
        assert(s.subrange(a, b0).last() == s[b0 - 1]);
        lemma_trim_end_at(s, a, b, b0 - 1);
    } else if a < b {
        assert(s.subrange(a, b0).last() == s[b - 1]);
    }
}

/// The trimmed piece `text[start..end)` (in chars), if it is not empty.
pub(crate) fn trimmed_piece(text: &str, start: usize, end: usize) -> (r: Option<String>)
    requires
        start <= end <= text@.len(),
    ensures
        match r {
            Some(p) => p@ == trim(text@.subrange(start as int, end as int)) && p@.len() > 0,
            None => trim(text@.subrange(start as int, end as int)).len() == 0,
        },
{
    let mut a = start;
    while a < end && space(text.get_char(a))
        invariant
            start <= a <= end,
            end <= text@.len(),
            forall|k: int| start <= k < a ==> is_space(#[trigger] text@[k]),
        decreases end - a,
    {
        a = a + 1;
    }
    let mut b = end;
    while b > a && space(text.get_char(b - 1))
        invariant
            a <= b <= end,
            end <= text@.len(),
            forall|k: int| b <= k < end ==> is_space(#[trigger] text@[k]),
        decreases b - a,
    {
        b = b - 1;
    }
    proof {
        lemma_trim_start_at(text@, start as int, a as int, end as int);
        lemma_trim_end_at(text@, a as int, b as int, end as int);
        assert(trim(text@.subrange(start as int, end as int)) == text@.subrange(a as int, b as int));
    }
    if a < b {
        Some(String::from_str(text.substring_char(a, b)))
    } else {
        None
    }
}

/// Terminals typed as a comma-separated list: each piece trimmed, empty
/// pieces dropped.
pub fn parse_branch_nodes(text: &str) -> (r: Vec<String>)
    ensures
        ids_of(r@) == kept_pieces(split_commas(text@)),
{
    let n = text.unicode_len();
    let ghost s = text@;
    let ghost mut done: Seq<Seq<char>> = Seq::empty();
    let mut out: Vec<String> = Vec::new();
    let mut start: usize = 0;
    let mut i: usize = 0;
    assert(s.take(0) =~= Seq::<char>::empty());
    assert(s.subrange(0, 0) =~= Seq::<char>::empty());
    while i < n
        invariant
            n == s.len(),
            s == text@,
            start <= i <= n,
            split_commas(s.take(i as int)) == done.push(s.subrange(start as int, i as int)),
            ids_of(out@) == kept_pieces(done),
        decreases n - i,
    {
        let c = text.get_char(i);
        assert(s.take(i + 1).drop_last() =~= s.take(i as int));
        assert(s.take(i + 1).last() == c);
        if c == ',' {
            let ghost piece = s.subrange(start as int, i as int);
            match trimmed_piece(text, start, i) {
                Some(p) => {
                    let ghost o0 = out@;
                    out.push(p);
                    proof {
                        lemma_ids_push(o0, p);
                    }
                },
                None => {},
            }
            proof {
                assert(done.push(piece).drop_last() =~= done);
                done = done.push(piece);
            }
            start = i + 1;
            assert(s.subrange(start as int, start as int) =~= Seq::<char>::empty());
        } else {
            proof {
                let prev = done.push(s.subrange(start as int, i as int));
                assert(s.subrange(start as int, i as int).push(c) =~= s.subrange(start as int, i + 1));
                assert(prev.update(prev.len() - 1, prev.last().push(c)) =~= done.push(s.subrange(start as int, i + 1)));
            }
        }
        i = i + 1;
    }
    let ghost last_piece = s.subrange(start as int, n as int);
    match trimmed_piece(text, start, n) {
        Some(p) => {
            let ghost o0 = out@;
            out.push(p);
            proof {
                lemma_ids_push(o0, p);
            }
        },
        None => {},
    }
    proof {
        assert(s.take(n as int) =~= s);
        assert(done.push(last_piece).drop_last() =~= done);
    }
    out
}


/// The id `x` after renaming `from` to `to`.
pub open spec fn renamed_to(x: Seq<char>, from: Seq<char>, to: Seq<char>) -> Seq<char> {
    if x == from {
        to
    } else {
        x
    }
}

/// Renaming `from` to `to` changes `from` into `to` and leaves every other
/// id as it is.
pub proof fn lemma_renamed_to(x: Seq<char>, from: Seq<char>, to: Seq<char>)
    ensures
        renamed_to(from, from, to) == to,
        x != from ==> renamed_to(x, from, to) == x,
{
}

/// The bus `id` can take the id typed as `typed`: the bus exists, the
/// trimmed text is not empty and differs from `id`, and no other bus has it.
pub open spec fn rename_allowed(net: Network, id: Seq<char>, typed: Seq<char>) -> bool {
    let nid = trim(typed);
    &&& net.declares(id)
    &&& nid.len() > 0
    &&& nid != id
    &&& !exists|i: int| 0 <= i < net.n_buses() && #[trigger] net.bus_id(i) != id && net.bus_id(i) == nid
}

/// Whether a rename is allowed depends on the bus ids alone: two networks
/// with the same bus ids in the same order (whatever the kinds of the buses
/// and the branches) allow the same renames; a junction, a switch and a
/// substation can be renamed alike.
pub proof fn lemma_rename_ignores_kinds(net: Network, net2: Network, id: Seq<char>, typed: Seq<char>)
    requires
        net2.buses@.len() == net.buses@.len(),
        forall|i: int| 0 <= i < net.buses@.len() ==> (#[trigger] net2.buses@[i]).id@ == net.buses@[i].id@,
    ensures
        rename_allowed(net2, id, typed) == rename_allowed(net, id, typed),
{
    assert forall|i: int| 0 <= i < net.n_buses() implies #[trigger] net2.bus_id(i) == net.bus_id(i) by {
        assert(net2.buses@[i].id@ == net.buses@[i].id@);
    }
    let nid = trim(typed);
    assert(net2.declares(id) == net.declares(id)) by {
        if net2.declares(id) {
            let i = choose|i: int| 0 <= i < net2.n_buses() && net2.bus_id(i) == id;
            assert(net.bus_id(i) == id);
        }
        if net.declares(id) {
            let i = choose|i: int| 0 <= i < net.n_buses() && net.bus_id(i) == id;
            assert(net2.bus_id(i) == id);
        }
    }
    assert((exists|i: int| 0 <= i < net2.n_buses() && #[trigger] net2.bus_id(i) != id && net2.bus_id(i) == nid)
        == (exists|i: int| 0 <= i < net.n_buses() && #[trigger] net.bus_id(i) != id && net.bus_id(i) == nid)) by {
        if exists|i: int| 0 <= i < net2.n_buses() && #[trigger] net2.bus_id(i) != id && net2.bus_id(i) == nid {
            let i = choose|i: int| 0 <= i < net2.n_buses() && #[trigger] net2.bus_id(i) != id && net2.bus_id(i) == nid;
            assert(net.bus_id(i) != id && net.bus_id(i) == nid);
        }
        if exists|i: int| 0 <= i < net.n_buses() && #[trigger] net.bus_id(i) != id && net.bus_id(i) == nid {
            let i = choose|i: int| 0 <= i < net.n_buses() && #[trigger] net.bus_id(i) != id && net.bus_id(i) == nid;
            assert(net2.bus_id(i) != id && net2.bus_id(i) == nid);
        }
    }
}

/// A rename is refused only for a reason: the bus is not declared, the
/// trimmed new id is empty, it is the old id, or another bus has it.
pub proof fn lemma_rename_refused_only_for_a_reason(net: Network, id: Seq<char>, typed: Seq<char>)
    ensures
        !rename_allowed(net, id, typed) ==> {
            ||| !net.declares(id)
            ||| trim(typed).len() == 0
            ||| trim(typed) == id
            ||| exists|i: int| 0 <= i < net.n_buses() && #[trigger] net.bus_id(i) == trim(typed)
        },
{
}

/// Renames bus `id` (the first declared with it) to the trimmed `typed`, and
/// with it every branch terminal and every event that names `id`. Returns
/// whether the rename was done; when it is refused nothing changes.
pub fn rename_bus(net: &mut Network, events: &mut Vec<Event>, id: &str, typed: &str) -> (r: bool)
    ensures
        r == rename_allowed(*old(net), id@, typed@),
        !r ==> *final(net) == *old(net) && final(events)@ == old(events)@,
        r ==> ({
            let nid = trim(typed@);
            &&& final(net).buses@.len() == old(net).buses@.len()
            &&& forall|i: int| 0 <= i < old(net).buses@.len() ==>
                (#[trigger] final(net).buses@[i]).kind == old(net).buses@[i].kind
                && final(net).buses@[i].id@ == (if old(net).is_first_bus(i) && old(net).bus_id(i) == id@ {
                    nid
                } else {
                    old(net).bus_id(i)
                })
            &&& final(net).branches@.len() == old(net).branches@.len()
            &&& forall|k: int| 0 <= k < old(net).branches@.len() ==>
                (#[trigger] final(net).branches@[k]).id == old(net).branches@[k].id
                && final(net).branches@[k].element == old(net).branches@[k].element
                && final(net).branches@[k].node_ids()
                    == old(net).branches@[k].node_ids().map_values(|x: Seq<char>| renamed_to(x, id@, nid))
            &&& final(events)@.len() == old(events)@.len()
            &&& forall|e: int| 0 <= e < old(events)@.len() ==>
                (#[trigger] final(events)@[e]).at == old(events)@[e].at
                && final(events)@[e].action == old(events)@[e].action
                && final(events)@[e].bus@ == renamed_to(old(events)@[e].bus@, id@, nid)
        }),
{
    let j = match net.bus_index(id) {
        None => {
            return false;
        },
        Some(j) => j,
    };
    let n = typed.unicode_len();
    assert(typed@.subrange(0, n as int) =~= typed@);
    let nid = match trimmed_piece(typed, 0, n) {
        None => {
            return false;
        },
        Some(p) => p,
    };
    let cur = String::from_str(id);
    if nid == cur {
        return false;
    }
    if bus_id_already_exists(net, id, nid.as_str()) {
        return false;
    }
    let ghost on = *net;
    let ghost target = nid@;
    let kind = net.buses[j].kind;
    net.buses.set(j, Bus { id: nid.clone(), kind });
    assert forall|i: int| 0 <= i < on.buses@.len() implies
        on.is_first_bus(i) && on.bus_id(i) == id@ <==> i == j by {
        if on.is_first_bus(i) && on.bus_id(i) == id@ {
            on.lemma_first_bus_unique(i, j as int);
        }
    }
    let mut k: usize = 0;
    while k < net.branches.len()
        invariant
            net.buses@ == on.buses@.update(j as int, Bus { id: nid, kind }),
            net.branches@.len() == on.branches@.len(),
            k <= net.branches@.len(),
            cur@ == id@,
            nid@ == target,
            forall|k2: int| k <= k2 < on.branches@.len() ==> #[trigger] net.branches@[k2] == on.branches@[k2],
            forall|k2: int| 0 <= k2 < k ==>
                (#[trigger] net.branches@[k2]).id == on.branches@[k2].id
                && net.branches@[k2].element == on.branches@[k2].element
                && net.branches@[k2].node_ids()
                    == on.branches@[k2].node_ids().map_values(|x: Seq<char>| renamed_to(x, id@, target)),
        decreases net.branches@.len() - k,
    {
        let ghost mapped = on.branches@[k as int].node_ids().map_values(|x: Seq<char>| renamed_to(x, id@, target));
        let mut nodes: Vec<String> = Vec::new();
        let mut t: usize = 0;
        while t < net.branches[k].nodes.len()
            invariant
                k < net.branches@.len(),
                net.branches@[k as int] == on.branches@[k as int],
                mapped == on.branches@[k as int].node_ids().map_values(|x: Seq<char>| renamed_to(x, id@, target)),
                t <= net.branches@[k as int].nodes@.len(),
                cur@ == id@,
                nid@ == target,
                ids_of(nodes@) == mapped.take(t as int),
            decreases net.branches@[k as int].nodes@.len() - t,
        {
            let ghost n0 = nodes@;
            let c = if net.branches[k].nodes[t] == cur { nid.clone() } else { net.branches[k].nodes[t].clone() };
            nodes.push(c);
            proof {
                lemma_ids_push(n0, c);
                assert(mapped.take(t + 1) =~= mapped.take(t as int).push(c@));
            }
            t = t + 1;
        }
        assert(mapped.take(mapped.len() as int) =~= mapped);
        let bid = match &net.branches[k].id {
            Some(s) => Some(s.clone()),
            None => None,
        };
        let el = net.branches[k].element;
        let ghost nv = nodes@;
        net.branches.set(k, Branch { id: bid, nodes, element: el });
        assert(net.branches@[k as int].node_ids() =~= ids_of(nv));
        k = k + 1;
    }
    let ghost oe = events@;
    let mut e: usize = 0;
    while e < events.len()
        invariant
            events@.len() == oe.len(),
            e <= events@.len(),
            cur@ == id@,
            nid@ == target,
            forall|e2: int| e <= e2 < oe.len() ==> #[trigger] events@[e2] == oe[e2],
            forall|e2: int| 0 <= e2 < e ==>
                (#[trigger] events@[e2]).at == oe[e2].at
                && events@[e2].action == oe[e2].action
                && events@[e2].bus@ == renamed_to(oe[e2].bus@, id@, target),
        decreases events@.len() - e,
    {
        let b = if events[e].bus == cur { nid.clone() } else { events[e].bus.clone() };
        let at = events[e].at;
        let action = events[e].action;
        events.set(e, Event { at, bus: b, action });
        e = e + 1;
    }
    true
}

} // verus!
