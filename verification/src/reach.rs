//! Connectivity of the network: which buses a source reaches through the
//! branches and buses that conduct, which buses are energized, and which
//! lines lie downstream of a switch.

use vstd::prelude::*;
use crate::topology::{Branch, Network};
use crate::edit::{ids_of, lemma_ids_push};
use vstd::pervasive::VecAdditionalExecFns;

verus! {

/// Number of `true` entries of a mask.
pub open spec fn count_true(s: Seq<bool>) -> nat
    decreases s.len(),
{
    if s.len() == 0 {
        0
    } else {
        count_true(s.drop_last()) + if s.last() { 1nat } else { 0nat }
    }
}

proof fn lemma_count_true_bound(s: Seq<bool>)
    ensures
        count_true(s) <= s.len(),
    decreases s.len(),
{
    if s.len() > 0 {
        lemma_count_true_bound(s.drop_last());
    }
}

proof fn lemma_count_true_set(s: Seq<bool>, i: int)
    requires
        0 <= i < s.len(),
        !s[i],
    ensures
        count_true(s.update(i, true)) == count_true(s) + 1,
    decreases s.len(),
{
    let u = s.update(i, true);
    if i == s.len() - 1 {
        assert(u.drop_last() =~= s.drop_last());
    } else {
        assert(u.drop_last() =~= s.drop_last().update(i, true));
        lemma_count_true_set(s.drop_last(), i);
    }
}

/// A mask of `n` entries, all equal to `value`.
pub fn filled(n: usize, value: bool) -> (r: Vec<bool>)
    ensures
        r@ == Seq::new(n as nat, |i: int| value),
{
    let mut r: Vec<bool> = Vec::new();
    let mut i: usize = 0;
    while i < n
        invariant
            i <= n,
            r@ == Seq::new(i as nat, |k: int| value),
        decreases n - i,
    {
        r.push(value);
        i = i + 1;
        assert(r@ =~= Seq::new(i as nat, |k: int| value));
    }
    r
}

/// `k` once per occurrence of `name` among `nodes`.
pub open spec fn occurrences(nodes: Seq<Seq<char>>, name: Seq<char>, k: usize) -> Seq<usize>
    decreases nodes.len(),
{
    if nodes.len() == 0 {
        Seq::empty()
    } else {
        let rest = occurrences(nodes.drop_last(), name, k);
        if nodes.last() == name {
            rest.push(k)
        } else {
            rest
        }
    }
}

/// Indices of the branches incident to the node name `name`, in increasing
/// order, each once per occurrence of `name` among the branch's terminals.
pub open spec fn incidence(branches: Seq<Branch>, name: Seq<char>) -> Seq<usize>
    decreases branches.len(),
{
    if branches.len() == 0 {
        Seq::empty()
    } else {
        incidence(branches.drop_last(), name) + occurrences(branches.last().node_ids(), name, (branches.len() - 1) as usize)
    }
}

/// Some branch has `name` among its terminals.
pub open spec fn names_node(branches: Seq<Branch>, name: Seq<char>) -> bool {
    exists|k: int| 0 <= k < branches.len() && #[trigger] branches[k].node_ids().contains(name)
}

proof fn lemma_occurrences_empty(nodes: Seq<Seq<char>>, name: Seq<char>, k: usize)
    requires
        !nodes.contains(name),
    ensures
        occurrences(nodes, name, k) == Seq::<usize>::empty(),
    decreases nodes.len(),
{
    if nodes.len() > 0 {
        assert(nodes[nodes.len() - 1] != name);
        assert forall|y| nodes.drop_last().contains(y) implies nodes.contains(y) by {
            let t = choose|t: int| 0 <= t < nodes.drop_last().len() && nodes.drop_last()[t] == y;
            assert(nodes[t] == y);
        }
        lemma_occurrences_empty(nodes.drop_last(), name, k);
    }
}

proof fn lemma_incidence_empty(branches: Seq<Branch>, name: Seq<char>)
    requires
        !names_node(branches, name),
    ensures
        incidence(branches, name) == Seq::<usize>::empty(),
    decreases branches.len(),
{
    if branches.len() > 0 {
        let init = branches.drop_last();
        assert(!names_node(init, name)) by {
            if names_node(init, name) {
                let k = choose|k: int| 0 <= k < init.len() && #[trigger] init[k].node_ids().contains(name);
                assert(branches[k] == init[k]);
            }
        }
        lemma_incidence_empty(init, name);
        assert(!branches[branches.len() - 1].node_ids().contains(name));
        lemma_occurrences_empty(branches.last().node_ids(), name, (branches.len() - 1) as usize);
    }
}

impl Network {
    /// Branch `k` joins bus `i` to bus `j`: both ids are terminals of `k`, they
    /// differ, and `j` is the bus that its id names (the first declared).
    pub open spec fn links(self, k: int, i: int, j: int) -> bool {
        &&& 0 <= k < self.n_branches()
        &&& 0 <= i < self.n_buses()
        &&& self.is_first_bus(j)
        &&& self.branches@[k as int].node_ids().contains(self.bus_id(i))
        &&& self.branches@[k as int].node_ids().contains(self.bus_id(j))
        &&& self.bus_id(i) != self.bus_id(j)
    }

    /// Power flows from bus `i` to bus `j` in one hop: both conduct and some
    /// conducting branch links them.
    pub open spec fn step(self, cb: Seq<bool>, cn: Seq<bool>, i: int, j: int) -> bool {
        &&& cn[i]
        &&& cn[j]
        &&& exists|k: int| #[trigger] self.links(k, i, j) && cb[k]
    }

    pub open spec fn path_step_ok(self, cb: Seq<bool>, cn: Seq<bool>, p: Seq<int>, t: int) -> bool {
        self.step(cb, cn, p[t], p[t + 1])
    }

    /// `p` is a walk over conducting buses along conducting branches.
    pub open spec fn is_path(self, cb: Seq<bool>, cn: Seq<bool>, p: Seq<int>) -> bool {
        &&& p.len() > 0
        &&& forall|t: int| 0 <= t < p.len() ==> 0 <= #[trigger] p[t] < self.n_buses() && cn[p[t]]
        &&& forall|t: int| 0 <= t < p.len() - 1 ==> #[trigger] self.path_step_ok(cb, cn, p, t)
    }

    /// Bus `j` is reachable from bus `s`.
    pub open spec fn reaches(self, cb: Seq<bool>, cn: Seq<bool>, s: int, j: int) -> bool {
        exists|p: Seq<int>| #[trigger] self.is_path(cb, cn, p) && p[0] == s && p.last() == j
    }

    /// Bus `j` is reachable from the bus that the id `id` names.
    pub open spec fn reached_from_id(self, cb: Seq<bool>, cn: Seq<bool>, id: Seq<char>, j: int) -> bool {
        exists|s: int| #[trigger] self.is_first_bus(s) && self.bus_id(s) == id && self.reaches(cb, cn, s, j)
    }

    /// Two first declarations of the same id are the same bus.
    pub proof fn lemma_first_bus_unique(self, a: int, b: int)
        requires
            self.is_first_bus(a),
            self.is_first_bus(b),
            self.bus_id(a) == self.bus_id(b),
        ensures
            a == b,
    {
        if a < b {
            assert(self.bus_id(a) != self.bus_id(b));
        } else if b < a {
            assert(self.bus_id(b) != self.bus_id(a));
        }
    }

    proof fn lemma_path_extend(self, cb: Seq<bool>, cn: Seq<bool>, p: Seq<int>, j: int)
        requires
            self.is_path(cb, cn, p),
            self.step(cb, cn, p.last(), j),
            0 <= j < self.n_buses(),
        ensures
            self.is_path(cb, cn, p.push(j)),
            p.push(j)[0] == p[0],
            p.push(j).last() == j,
    {
        let q = p.push(j);
        assert forall|t: int| 0 <= t < q.len() implies 0 <= #[trigger] q[t] < self.n_buses() && cn[q[t]] by {
            if t < p.len() {
                assert(q[t] == p[t]);
            }
        }
        assert forall|t: int| 0 <= t < q.len() - 1 implies #[trigger] self.path_step_ok(cb, cn, q, t) by {
            assert(q[t] == p[t]);
            if t < p.len() - 1 {
                assert(self.path_step_ok(cb, cn, p, t));
                assert(q[t + 1] == p[t + 1]);
            } else {
                assert(q[t + 1] == j);
            }
        }
    }

    proof fn lemma_path_prefix(self, cb: Seq<bool>, cn: Seq<bool>, p: Seq<int>)
        requires
            self.is_path(cb, cn, p),
            p.len() > 1,
        ensures
            self.is_path(cb, cn, p.drop_last()),
            self.step(cb, cn, p.drop_last().last(), p.last()),
    {
        let q = p.drop_last();
        assert forall|t: int| 0 <= t < q.len() implies 0 <= #[trigger] q[t] < self.n_buses() && cn[q[t]] by {
            assert(q[t] == p[t]);
        }
        assert forall|t: int| 0 <= t < q.len() - 1 implies #[trigger] self.path_step_ok(cb, cn, q, t) by {
            assert(self.path_step_ok(cb, cn, p, t));
            assert(q[t] == p[t]);
            assert(q[t + 1] == p[t + 1]);
        }
        assert(self.path_step_ok(cb, cn, p, p.len() - 2));
    }

    /// A mask that holds `s` and is closed under `step` holds every bus on a
    /// path from `s`.
    proof fn lemma_closed_holds_path(self, cb: Seq<bool>, cn: Seq<bool>, m: Seq<bool>, p: Seq<int>)
        requires
            self.is_path(cb, cn, p),
            m.len() == self.n_buses(),
            m[p[0]],
            forall|i: int, j: int| 0 <= i < m.len() && m[i] && #[trigger] self.step(cb, cn, i, j) ==> m[j],
        ensures
            m[p.last()],
        decreases p.len(),
    {
        if p.len() > 1 {
            self.lemma_path_prefix(cb, cn, p);
            let q = p.drop_last();
            self.lemma_closed_holds_path(cb, cn, m, q);
            assert(self.step(cb, cn, q.last(), p.last()));
        }
    }

    /// Whether branch `k` has the bus id `id` among its terminals.
    pub fn branch_has_node(&self, k: usize, id: &String) -> (r: bool)
        requires
            k < self.branches@.len(),
        ensures
            r == self.branches@[k as int].node_ids().contains(id@),
    {
        let nodes = &self.branches[k].nodes;
        let mut t: usize = 0;
        while t < nodes.len()
            invariant
                t <= nodes@.len(),
                nodes@ == self.branches@[k as int].nodes@,
                forall|u: int| 0 <= u < t ==> nodes@[u]@ != id@,
            decreases nodes@.len() - t,
        {
            if nodes[t] == *id {
                assert(self.branches@[k as int].node_ids()[t as int] == id@);
                return true;
            }
            t = t + 1;
        }
        proof {
            if self.branches@[k as int].node_ids().contains(id@) {
                let u = choose|u: int| 0 <= u < self.branches@[k as int].node_ids().len() && self.branches@[k as int].node_ids()[u] == id@;
                assert(nodes@[u]@ == id@);
            }
        }
        false
    }

    /// Buses reachable from `start`, with explicit conduction of branches
    /// (`conduz_branch[k]` for branch `k`) and of buses (`conduz_node[i]` for
    /// bus `i`). Entry `j` of the result tells whether bus `j` is reached; only
    /// the first bus declared with a given id is ever reached.
    pub fn reachable_from_with(&self, start: &str, conduz_branch: &Vec<bool>, conduz_node: &Vec<bool>) -> (r: Vec<bool>)
        requires
            conduz_branch@.len() == self.n_branches(),
            conduz_node@.len() == self.n_buses(),
        ensures
            r@.len() == self.n_buses(),
            forall|j: int| 0 <= j < self.n_buses() ==>
                (r@[j] <==> self.reached_from_id(conduz_branch@, conduz_node@, start@, j)),
    {
        let ghost cb = conduz_branch@;
        let ghost cn = conduz_node@;
        let n = self.buses.len();
        let mut visited = filled(n, false);
        let s = match self.bus_index(start) {
            None => {
                return visited;
            },
            Some(s) => s,
        };
        if !conduz_node[s] {
            proof {
                assert forall|j: int| 0 <= j < self.n_buses() implies
                    !self.reached_from_id(cb, cn, start@, j) by {
                    if self.reached_from_id(cb, cn, start@, j) {
                        let s2 = choose|s2: int| #[trigger] self.is_first_bus(s2) && self.bus_id(s2) == start@ && self.reaches(cb, cn, s2, j);
                        self.lemma_first_bus_unique(s as int, s2);
                        let p = choose|p: Seq<int>| #[trigger] self.is_path(cb, cn, p) && p[0] == s2 && p.last() == j;
                        assert(cn[p[0]]);
                    }
                }
            }
            return visited;
        }
        visited.set(s, true);
        let mut stack: Vec<usize> = Vec::new();
        stack.push(s);
        proof {
            assert(stack@[0] == s);
            assert(stack@.contains(s));
            lemma_count_true_bound(visited@);
            let p0 = seq![s as int];
            assert(self.is_path(cb, cn, p0));
            assert forall|j: int| 0 <= j < n && visited@[j] implies self.is_first_bus(j) && self.reaches(cb, cn, s as int, j) by {
                assert(j == s);
                assert(self.is_path(cb, cn, p0) && p0[0] == s && p0.last() == j);
            }
        }
        while stack.len() > 0
            invariant
                n == self.n_buses(),
                cb == conduz_branch@,
                cn == conduz_node@,
                cb.len() == self.n_branches(),
                cn.len() == n,
                visited@.len() == n,
                s < n,
                self.is_first_bus(s as int),
                self.bus_id(s as int) == start@,
                visited@[s as int],
                count_true(visited@) <= n,
                stack@.no_duplicates(),
                forall|t: int| 0 <= t < stack@.len() ==> #[trigger] stack@[t] < n && visited@[stack@[t] as int],
                forall|j: int| 0 <= j < n && #[trigger] visited@[j] ==> self.is_first_bus(j) && self.reaches(cb, cn, s as int, j),
                forall|i: int, j: int| 0 <= i < n && visited@[i] && !stack@.contains(i as usize)
                    && #[trigger] self.step(cb, cn, i, j) ==> visited@[j],
            decreases 2 * (n - count_true(visited@)) + stack@.len(),
        {
            let ghost m0: int = 2 * (n - count_true(visited@)) + stack@.len();
            let ghost stack0 = stack@;
            let i = stack.pop().unwrap();
            assert(stack0[stack0.len() - 1] == i);
            assert(stack@ =~= stack0.drop_last());
            proof {
                if stack@.contains(i) {
                    let t = choose|t: int| 0 <= t < stack@.len() && stack@[t] == i;
                    assert(stack0[t] == stack0[stack0.len() - 1]);
                }
                assert forall|x: usize| x != i && !#[trigger] stack@.contains(x) implies !stack0.contains(x) by {
                    if stack0.contains(x) {
                        let t = choose|t: int| 0 <= t < stack0.len() && stack0[t] == x;
                        assert(stack@[t] == stack0[t]);
                    }
                }
            }
            let id_i = &self.buses[i].id;
            let m = self.branches.len();
            let mut k: usize = 0;
            while k < m
                invariant
                    n == self.n_buses(),
                    m == self.n_branches(),
                    cb == conduz_branch@,
                    cn == conduz_node@,
                    cb.len() == m,
                    cn.len() == n,
                    visited@.len() == n,
                    i < n,
                    id_i@ == self.bus_id(i as int),
                    visited@[i as int],
                    !stack@.contains(i),
                    s < n,
                    self.is_first_bus(s as int),
                    self.bus_id(s as int) == start@,
                    visited@[s as int],
                    count_true(visited@) <= n,
                    2 * (n - count_true(visited@)) + stack@.len() < m0,
                    stack@.no_duplicates(),
                    forall|t: int| 0 <= t < stack@.len() ==> #[trigger] stack@[t] < n && visited@[stack@[t] as int],
                    forall|j: int| 0 <= j < n && #[trigger] visited@[j] ==> self.is_first_bus(j) && self.reaches(cb, cn, s as int, j),
                    forall|i2: int, j: int| 0 <= i2 < n && i2 != i && visited@[i2] && !stack@.contains(i2 as usize)
                        && #[trigger] self.step(cb, cn, i2, j) ==> visited@[j],
                    forall|k2: int, j: int| 0 <= k2 < k && #[trigger] self.links(k2, i as int, j) && cb[k2] && cn[j] ==> visited@[j],
                decreases m - k,
            {
                if conduz_branch[k] && self.branch_has_node(k, id_i) {
                    let nodes = &self.branches[k].nodes;
                    let mut t: usize = 0;
                    while t < nodes.len()
                        invariant
                            n == self.n_buses(),
                            m == self.n_branches(),
                            k < m,
                            nodes@ == self.branches@[k as int].nodes@,
                            cb == conduz_branch@,
                            cn == conduz_node@,
                            cb.len() == m,
                            cn.len() == n,
                            cb[k as int],
                            self.branches@[k as int].node_ids().contains(self.bus_id(i as int)),
                            t <= nodes@.len(),
                            visited@.len() == n,
                            i < n,
                            id_i@ == self.bus_id(i as int),
                            visited@[i as int],
                            !stack@.contains(i),
                            s < n,
                            self.is_first_bus(s as int),
                            self.bus_id(s as int) == start@,
                            visited@[s as int],
                            count_true(visited@) <= n,
                            2 * (n - count_true(visited@)) + stack@.len() < m0,
                            stack@.no_duplicates(),
                            forall|t2: int| 0 <= t2 < stack@.len() ==> #[trigger] stack@[t2] < n && visited@[stack@[t2] as int],
                            forall|j: int| 0 <= j < n && #[trigger] visited@[j] ==> self.is_first_bus(j) && self.reaches(cb, cn, s as int, j),
                            forall|i2: int, j: int| 0 <= i2 < n && i2 != i && visited@[i2] && !stack@.contains(i2 as usize)
                                && #[trigger] self.step(cb, cn, i2, j) ==> visited@[j],
                            forall|k2: int, j: int| 0 <= k2 < k && #[trigger] self.links(k2, i as int, j) && cb[k2] && cn[j] ==> visited@[j],
                            forall|t2: int, j: int| 0 <= t2 < t && 0 <= j < n && self.is_first_bus(j)
                                && #[trigger] nodes@[t2]@ == #[trigger] self.bus_id(j)
                                && nodes@[t2]@ != self.bus_id(i as int) && cn[j] ==> visited@[j],
                        decreases nodes@.len() - t,
                    {
                        let same = nodes[t] == *id_i;
                        if !same {
                            match self.bus_index(nodes[t].as_str()) {
                                Some(j) => {
                                    if conduz_node[j] && !visited[j] {
                                        proof {
                                            assert(self.reaches(cb, cn, s as int, i as int));
                                            let p = choose|p: Seq<int>| #[trigger] self.is_path(cb, cn, p) && p[0] == s && p.last() == i;
                                            assert(cn[p.last()]);
                                            assert(self.branches@[k as int].node_ids()[t as int] == self.bus_id(j as int));
                                            assert(self.links(k as int, i as int, j as int));
                                            assert(self.step(cb, cn, i as int, j as int));
                                            self.lemma_path_extend(cb, cn, p, j as int);
                                            assert(self.is_path(cb, cn, p.push(j as int)) && p.push(j as int)[0] == s && p.push(j as int).last() == j);
                                            lemma_count_true_set(visited@, j as int);
                                            lemma_count_true_bound(visited@.update(j as int, true));
                                            if stack@.contains(j) {
                                                let t3 = choose|t3: int| 0 <= t3 < stack@.len() && stack@[t3] == j;
                                                assert(visited@[stack@[t3] as int]);
                                            }
                                        }
                                        let ghost old_stack = stack@;
                                        let ghost old_visited = visited@;
                                        visited.set(j, true);
                                        stack.push(j);
                                        proof {
                                            assert forall|x: usize| !#[trigger] stack@.contains(x) implies !old_stack.contains(x) by {
                                                if old_stack.contains(x) {
                                                    let t4 = choose|t4: int| 0 <= t4 < old_stack.len() && old_stack[t4] == x;
                                                    assert(stack@[t4] == old_stack[t4]);
                                                }
                                            }
                                            assert(!stack@.contains(i)) by {
                                                if stack@.contains(i) {
                                                    let t5 = choose|t5: int| 0 <= t5 < stack@.len() && stack@[t5] == i;
                                                    if t5 < old_stack.len() {
                                                        assert(old_stack[t5] == i);
                                                    }
                                                }
                                            }
                                            assert(stack@[stack@.len() - 1] == j);
                                            assert forall|i2: int, j2: int| 0 <= i2 < n && i2 != i && visited@[i2]
                                                && !stack@.contains(i2 as usize) && #[trigger] self.step(cb, cn, i2, j2) implies visited@[j2] by {
                                                assert(!old_stack.contains(i2 as usize));
                                                if i2 == j {
                                                    assert(stack@.contains(j));
                                                }
                                                assert(old_visited[i2]);
                                            }
                                        }
                                    }
                                    proof {
                                        assert forall|j2: int| 0 <= j2 < n && self.is_first_bus(j2)
                                            && nodes@[t as int]@ == self.bus_id(j2)
                                            && nodes@[t as int]@ != self.bus_id(i as int) && cn[j2] implies visited@[j2] by {
                                            self.lemma_first_bus_unique(j as int, j2);
                                        }
                                    }
                                },
                                None => {
                                    assert(!self.declares(nodes@[t as int]@));
                                },
                            }
                        }
                        t = t + 1;
                    }
                    proof {
                        assert forall|j: int| #[trigger] self.links(k as int, i as int, j) && cb[k as int] && cn[j] implies visited@[j] by {
                            let nids = self.branches@[k as int].node_ids();
                            let t2 = choose|t2: int| 0 <= t2 < nids.len() && nids[t2] == self.bus_id(j);
                            assert(nodes@[t2]@ == self.bus_id(j));
                        }
                    }
                } else {
                    proof {
                        assert forall|j: int| #[trigger] self.links(k as int, i as int, j) && cb[k as int] && cn[j] implies visited@[j] by {
                        }
                    }
                }
                k = k + 1;
            }
            proof {
                assert forall|j: int| #[trigger] self.step(cb, cn, i as int, j) implies visited@[j] by {
                    let k2 = choose|k2: int| #[trigger] self.links(k2, i as int, j) && cb[k2];
                }
            }
        }
        proof {
            assert forall|j: int| 0 <= j < self.n_buses() implies
                (visited@[j] <==> self.reached_from_id(cb, cn, start@, j)) by {
                if visited@[j] {
                    assert(self.is_first_bus(s as int) && self.bus_id(s as int) == start@ && self.reaches(cb, cn, s as int, j));
                }
                if self.reached_from_id(cb, cn, start@, j) {
                    let s2 = choose|s2: int| #[trigger] self.is_first_bus(s2) && self.bus_id(s2) == start@ && self.reaches(cb, cn, s2, j);
                    self.lemma_first_bus_unique(s as int, s2);
                    let p = choose|p: Seq<int>| #[trigger] self.is_path(cb, cn, p) && p[0] == s2 && p.last() == j;
                    self.lemma_closed_holds_path(cb, cn, visited@, p);
                }
            }
        }
        visited
    }
}


impl Network {
    /// Whether each bus conducts in the normal configuration.
    pub open spec fn normal_mask(self) -> Seq<bool> {
        Seq::new(self.buses@.len(), |i: int| self.buses@[i].spec_conducts_normally())
    }

    /// Bus `j` is energized: some conducting source reaches it.
    pub open spec fn energized_at(self, cb: Seq<bool>, cn: Seq<bool>, j: int) -> bool {
        exists|i: int|
            0 <= i < self.n_buses() && self.buses@[i].spec_is_source() && cn[i]
                && #[trigger] self.reached_from_id(cb, cn, self.bus_id(i), j)
    }

    pub open spec fn energized_mask(self, cb: Seq<bool>, cn: Seq<bool>) -> Seq<bool> {
        Seq::new(self.buses@.len(), |j: int| self.energized_at(cb, cn, j))
    }

    /// Branch `k` is served by the energized buses `e`: one of its terminals
    /// is the id of an energized bus.
    pub open spec fn serves(self, k: int, e: Seq<bool>) -> bool {
        exists|t: int, j: int|
            0 <= t < self.branches@[k].node_ids().len() && 0 <= j < self.n_buses() && e[j]
                && #[trigger] self.bus_id(j) == #[trigger] self.branches@[k].node_ids()[t]
    }

    /// Bus `s` is the switch that the id `id` names.
    pub open spec fn names_switch(self, s: int, id: Seq<char>) -> bool {
        &&& self.is_first_bus(s)
        &&& self.bus_id(s) == id
        &&& self.buses@[s].spec_is_switch()
    }

    /// Line `k` loses power when switch `s` alone is opened in the normal
    /// configuration: it is served normally and no longer served then.
    pub open spec fn is_downstream(self, s: int, k: int) -> bool {
        let all = Seq::new(self.branches@.len(), |x: int| true);
        &&& self.serves(k, self.energized_mask(all, self.normal_mask()))
        &&& !self.serves(k, self.energized_mask(all, self.normal_mask().update(s, false)))
    }

    /// Conduction of every bus in the normal configuration.
    pub fn normal_conduction(&self) -> (r: Vec<bool>)
        ensures
            r@ == self.normal_mask(),
    {
        let mut r: Vec<bool> = Vec::new();
        let mut i: usize = 0;
        while i < self.buses.len()
            invariant
                i <= self.buses@.len(),
                r@ == Seq::new(i as nat, |x: int| self.buses@[x].spec_conducts_normally()),
            decreases self.buses@.len() - i,
        {
            let c = self.buses[i].conducts_normally();
            r.push(c);
            i = i + 1;
            assert(r@ =~= Seq::new(i as nat, |x: int| self.buses@[x].spec_conducts_normally()));
        }
        r
    }

    /// Buses reachable from `start` with switches in their normal state,
    /// through the branches `k` with `conduz_branch[k]`.
    pub fn reachable_from(&self, start: &str, conduz_branch: &Vec<bool>) -> (r: Vec<bool>)
        requires
            conduz_branch@.len() == self.n_branches(),
        ensures
            r@.len() == self.n_buses(),
            forall|j: int| 0 <= j < self.n_buses() ==>
                (r@[j] <==> self.reached_from_id(conduz_branch@, self.normal_mask(), start@, j)),
    {
        let cn = self.normal_conduction();
        self.reachable_from_with(start, conduz_branch, &cn)
    }

    /// Buses energized in an arbitrary configuration: entry `j` tells whether
    /// some source `i` with `conduz_node[i]` reaches bus `j`.
    pub fn energized(&self, conduz_branch: &Vec<bool>, conduz_node: &Vec<bool>) -> (r: Vec<bool>)
        requires
            conduz_branch@.len() == self.n_branches(),
            conduz_node@.len() == self.n_buses(),
        ensures
            r@ == self.energized_mask(conduz_branch@, conduz_node@),
    {
        let ghost cb = conduz_branch@;
        let ghost cn = conduz_node@;
        let n = self.buses.len();
        let mut r = filled(n, false);
        let mut i: usize = 0;
        while i < n
            invariant
                n == self.n_buses(),
                i <= n,
                cb == conduz_branch@,
                cn == conduz_node@,
                cb.len() == self.n_branches(),
                cn.len() == n,
                r@.len() == n,
                forall|j: int| 0 <= j < n ==> (r@[j] <==> exists|i2: int|
                    0 <= i2 < i && self.buses@[i2].spec_is_source() && cn[i2]
                        && #[trigger] self.reached_from_id(cb, cn, self.bus_id(i2), j)),
            decreases n - i,
        {
            if self.buses[i].is_source() && conduz_node[i] {
                let reach = self.reachable_from_with(self.buses[i].id.as_str(), conduz_branch, conduz_node);
                let ghost r0 = r@;
                assert(forall|x: int| 0 <= x < n ==> (r0[x] <==> exists|i2: int|
                    0 <= i2 < i && self.buses@[i2].spec_is_source() && cn[i2]
                        && #[trigger] self.reached_from_id(cb, cn, self.bus_id(i2), x)));
                let mut j: usize = 0;
                while j < n
                    invariant
                        n == self.n_buses(),
                        i < n,
                        j <= n,
                        reach@.len() == n,
                        r@.len() == n,
                        r0.len() == n,
                        cb == conduz_branch@,
                        cn == conduz_node@,
                        self.buses@[i as int].spec_is_source(),
                        cn.len() == n,
                        cn[i as int],
                        forall|x: int| 0 <= x < n ==> (reach@[x] <==> self.reached_from_id(cb, cn, self.bus_id(i as int), x)),
                        forall|x: int| 0 <= x < j ==> r@[x] == (r0[x] || reach@[x]),
                        forall|x: int| j <= x < n ==> r@[x] == r0[x],
                    decreases n - j,
                {
                    let ghost r1 = r@;
                    assert(forall|x: int| 0 <= x < j ==> r1[x] == (r0[x] || reach@[x]));
                    if reach[j] {
                        r.set(j, true);
                    }
                    assert(r@ == if reach@[j as int] { r1.update(j as int, true) } else { r1 });
                    assert(r@[j as int] == (r0[j as int] || reach@[j as int]));
                    assert forall|x: int| 0 <= x < j + 1 implies r@[x] == (r0[x] || reach@[x]) by {
                        if x < j {
                            assert(r1[x] == (r0[x] || reach@[x]));
                        }
                    }
                    j = j + 1;
                }
                proof {
                    assert forall|x: int| 0 <= x < n implies (r@[x] <==> exists|i2: int|
                        0 <= i2 < i + 1 && self.buses@[i2].spec_is_source() && cn[i2]
                            && #[trigger] self.reached_from_id(cb, cn, self.bus_id(i2), x)) by {
                        assert(r@[x] == (r0[x] || reach@[x]));
                        assert(r0[x] <==> exists|i2: int| 0 <= i2 < i && self.buses@[i2].spec_is_source() && cn[i2]
                            && #[trigger] self.reached_from_id(cb, cn, self.bus_id(i2), x));
                        if r@[x] {
                            if r0[x] {
                                let i2 = choose|i2: int| 0 <= i2 < i && self.buses@[i2].spec_is_source() && cn[i2]
                                    && #[trigger] self.reached_from_id(cb, cn, self.bus_id(i2), x);
                                assert(0 <= i2 < i + 1);
                            } else {
                                assert(self.reached_from_id(cb, cn, self.bus_id(i as int), x));
                            }
                        }
                        if exists|i2: int| 0 <= i2 < i + 1 && self.buses@[i2].spec_is_source() && cn[i2]
                            && #[trigger] self.reached_from_id(cb, cn, self.bus_id(i2), x) {
                            let i2 = choose|i2: int| 0 <= i2 < i + 1 && self.buses@[i2].spec_is_source() && cn[i2]
                                && #[trigger] self.reached_from_id(cb, cn, self.bus_id(i2), x);
                            if i2 < i {
                                assert(r0[x]);
                            } else {
                                assert(reach@[x]);
                            }
                        }
                    }
                }
            }
            i = i + 1;
        }
        assert(r@ =~= self.energized_mask(cb, cn));
        r
    }

    /// A line is served if at least one of its terminals is an energized bus.
    pub fn line_served(&self, branch_idx: usize, energized: &Vec<bool>) -> (r: bool)
        requires
            branch_idx < self.n_branches(),
            energized@.len() == self.n_buses(),
        ensures
            r == self.serves(branch_idx as int, energized@),
    {
        let nodes = &self.branches[branch_idx].nodes;
        let n = self.buses.len();
        let mut t: usize = 0;
        while t < nodes.len()
            invariant
                n == self.n_buses(),
                energized@.len() == n,
                branch_idx < self.n_branches(),
                nodes@ == self.branches@[branch_idx as int].nodes@,
                t <= nodes@.len(),
                forall|t2: int, j: int| 0 <= t2 < t && 0 <= j < n && energized@[j]
                    ==> #[trigger] self.bus_id(j) != #[trigger] self.branches@[branch_idx as int].node_ids()[t2],
            decreases nodes@.len() - t,
        {
            let mut j: usize = 0;
            while j < n
                invariant
                    n == self.n_buses(),
                    energized@.len() == n,
                    branch_idx < self.n_branches(),
                    nodes@ == self.branches@[branch_idx as int].nodes@,
                    t < nodes@.len(),
                    j <= n,
                    forall|j2: int| 0 <= j2 < j && energized@[j2]
                        ==> self.bus_id(j2) != self.branches@[branch_idx as int].node_ids()[t as int],
                decreases n - j,
            {
                if energized[j] && self.buses[j].id == nodes[t] {
                    assert(self.bus_id(j as int) == self.branches@[branch_idx as int].node_ids()[t as int]);
                    return true;
                }
                j = j + 1;
            }
            t = t + 1;
        }
        false
    }

    /// Index of the switch with the given id.
    pub fn switch_index(&self, id: &str) -> (r: Option<usize>)
        ensures
            match r {
                Some(s) => self.names_switch(s as int, id@),
                None => forall|s: int| !self.names_switch(s, id@),
            },
    {
        match self.bus_index(id) {
            Some(i) => {
                if self.buses[i].is_switch() {
                    Some(i)
                } else {
                    proof {
                        assert forall|s: int| !self.names_switch(s, id@) by {
                            if self.names_switch(s, id@) {
                                self.lemma_first_bus_unique(s, i as int);
                            }
                        }
                    }
                    None
                }
            },
            None => None,
        }
    }

    /// Line branches **downstream** of switch `switch_id` in the normal
    /// configuration: the lines that lose power if only that switch opens.
    /// The indices come in increasing order.
    pub fn downstream_lines(&self, switch_id: &str) -> (r: Option<Vec<usize>>)
        ensures
            r is None <==> forall|s: int| !self.names_switch(s, switch_id@),
            r matches Some(v) ==> forall|s: int| self.names_switch(s, switch_id@) ==> {
                &&& forall|a: int, b: int| 0 <= a < b < v@.len() ==> v@[a] < v@[b]
                &&& forall|x: usize| #[trigger] v@.contains(x) <==> (x < self.n_branches() && self.is_downstream(s, x as int))
            },
    {
        let s = match self.switch_index(switch_id) {
            Some(s) => s,
            None => { return None; },
        };
        let m = self.branches.len();
        let all = filled(m, true);
        let normal_cn = self.normal_conduction();
        let mut cut_cn = self.normal_conduction();
        cut_cn.set(s, false);
        let normal = self.energized(&all, &normal_cn);
        let cut = self.energized(&all, &cut_cn);
        let ghost allm = Seq::new(self.branches@.len(), |x: int| true);
        assert(all@ =~= allm);
        let mut lines: Vec<usize> = Vec::new();
        let mut k: usize = 0;
        while k < m
            invariant
                m == self.n_branches(),
                k <= m,
                s < self.n_buses(),
                self.names_switch(s as int, switch_id@),
                normal@ == self.energized_mask(allm, self.normal_mask()),
                cut@ == self.energized_mask(allm, self.normal_mask().update(s as int, false)),
                allm == Seq::new(self.branches@.len(), |x: int| true),
                forall|a: int, b: int| 0 <= a < b < lines@.len() ==> lines@[a] < lines@[b],
                forall|a: int| 0 <= a < lines@.len() ==> lines@[a] < k,
                forall|x: usize| #[trigger] lines@.contains(x) <==> (x < k && self.is_downstream(s as int, x as int)),
            decreases m - k,
        {
            let a = self.line_served(k, &normal);
            let b = self.line_served(k, &cut);
            let ghost old_lines = lines@;
            if a && !b {
                lines.push(k);
            }
            proof {
                assert forall|x: usize| #[trigger] lines@.contains(x) <==> (x < k + 1 && self.is_downstream(s as int, x as int)) by {
                    if x == k && a && !b {
                        assert(lines@[lines@.len() - 1] == k);
                    }
                    if lines@.contains(x) && x != k {
                        let t = choose|t: int| 0 <= t < lines@.len() && lines@[t] == x;
                        if a && !b {
                            assert(t < old_lines.len());
                            assert(old_lines[t] == x);
                        }
                        assert(old_lines.contains(x));
                    }
                    if x < k && self.is_downstream(s as int, x as int) {
                        assert(old_lines.contains(x));
                        let t = choose|t: int| 0 <= t < old_lines.len() && old_lines[t] == x;
                        assert(lines@[t] == x);
                    }
                    if lines@.contains(x) && x == k {
                        let t = choose|t: int| 0 <= t < lines@.len() && lines@[t] == x;
                        if t < old_lines.len() {
                            assert(old_lines[t] < k);
                        }
                    }
                }
            }
            k = k + 1;
        }
        proof {
            assert forall|s2: int| self.names_switch(s2, switch_id@) implies s2 == s by {
                self.lemma_first_bus_unique(s2, s as int);
            }
        }
        Some(lines)
    }
}


impl Network {
    /// Every bus on a walk that starts at a first-declared bus is itself the
    /// first declared with its id.
    proof fn lemma_path_first(self, cb: Seq<bool>, cn: Seq<bool>, p: Seq<int>, t: int)
        requires
            self.is_path(cb, cn, p),
            self.is_first_bus(p[0]),
            0 <= t < p.len(),
        ensures
            self.is_first_bus(p[t]),
    {
        if t > 0 {
            assert(self.path_step_ok(cb, cn, p, t - 1));
            let k = choose|k: int| #[trigger] self.links(k, p[t - 1], p[t]) && cb[k];
        }
    }

    /// Connectivity is symmetric: if bus `j` is reachable from the bus `s`
    /// that its id names, then `s` is reachable from `j`.
    pub proof fn lemma_reach_symmetric(self, cb: Seq<bool>, cn: Seq<bool>, s: int, j: int)
        requires
            self.is_first_bus(s),
            self.reaches(cb, cn, s, j),
        ensures
            self.reaches(cb, cn, j, s),
    {
        let p = choose|p: Seq<int>| #[trigger] self.is_path(cb, cn, p) && p[0] == s && p.last() == j;
        let q = p.reverse();
        assert forall|t: int| 0 <= t < q.len() implies 0 <= #[trigger] q[t] < self.n_buses() && cn[q[t]] by {
            assert(q[t] == p[p.len() - 1 - t]);
        }
        assert forall|t: int| 0 <= t < q.len() - 1 implies #[trigger] self.path_step_ok(cb, cn, q, t) by {
            let a = p.len() - 2 - t;
            assert(self.path_step_ok(cb, cn, p, a));
            assert(q[t] == p[a + 1]);
            assert(q[t + 1] == p[a]);
            let k = choose|k: int| #[trigger] self.links(k, p[a], p[a + 1]) && cb[k];
            self.lemma_path_first(cb, cn, p, a);
            assert(self.links(k, p[a + 1], p[a]));
        }
        assert(self.is_path(cb, cn, q));
        assert(q[0] == j && q.last() == s);
    }

    /// Walks chain: a bus reachable from a bus reachable from `a` is
    /// reachable from `a`.
    pub proof fn lemma_reach_trans(self, cb: Seq<bool>, cn: Seq<bool>, a: int, b: int, j: int)
        requires
            self.reaches(cb, cn, a, b),
            self.reaches(cb, cn, b, j),
        ensures
            self.reaches(cb, cn, a, j),
    {
        let p = choose|p: Seq<int>| #[trigger] self.is_path(cb, cn, p) && p[0] == a && p.last() == b;
        let q = choose|q: Seq<int>| #[trigger] self.is_path(cb, cn, q) && q[0] == b && q.last() == j;
        let r = p + q.skip(1);
        assert forall|t: int| 0 <= t < r.len() implies 0 <= #[trigger] r[t] < self.n_buses() && cn[r[t]] by {
            if t >= p.len() {
                assert(r[t] == q[t - p.len() + 1]);
            }
        }
        assert forall|t: int| 0 <= t < r.len() - 1 implies #[trigger] self.path_step_ok(cb, cn, r, t) by {
            if t < p.len() - 1 {
                assert(self.path_step_ok(cb, cn, p, t));
                assert(r[t] == p[t] && r[t + 1] == p[t + 1]);
            } else {
                let u = t - p.len() + 1;
                assert(self.path_step_ok(cb, cn, q, u));
                assert(r[t + 1] == q[u + 1]);
                if t == p.len() - 1 {
                    assert(r[t] == p.last());
                } else {
                    assert(r[t] == q[u]);
                }
            }
        }
        assert(self.is_path(cb, cn, r));
        if q.len() > 1 {
            assert(r.last() == q.last());
        } else {
            assert(r =~= p);
        }
        assert(r[0] == a);
    }

    /// Reachability splits the conducting buses into components: when two
    /// first-declared buses `a` and `b` reach one another, each reaches
    /// exactly the buses that the other reaches, and the ids of `a` and `b`
    /// reach the same buses.
    pub proof fn lemma_reach_same_set(self, cb: Seq<bool>, cn: Seq<bool>, a: int, b: int)
        requires
            self.is_first_bus(a),
            self.is_first_bus(b),
            self.reaches(cb, cn, a, b),
        ensures
            self.reaches(cb, cn, b, a),
            forall|j: int| self.reaches(cb, cn, a, j) <==> self.reaches(cb, cn, b, j),
            forall|j: int| #[trigger] self.reached_from_id(cb, cn, self.bus_id(a), j)
                <==> self.reached_from_id(cb, cn, self.bus_id(b), j),
    {
        self.lemma_reach_symmetric(cb, cn, a, b);
        assert forall|j: int| self.reaches(cb, cn, a, j) <==> self.reaches(cb, cn, b, j) by {
            if self.reaches(cb, cn, a, j) {
                self.lemma_reach_trans(cb, cn, b, a, j);
            }
            if self.reaches(cb, cn, b, j) {
                self.lemma_reach_trans(cb, cn, a, b, j);
            }
        }
        assert forall|j: int| #[trigger] self.reached_from_id(cb, cn, self.bus_id(a), j)
            <==> self.reached_from_id(cb, cn, self.bus_id(b), j) by {
            if self.reached_from_id(cb, cn, self.bus_id(a), j) {
                let s = choose|s: int| #[trigger] self.is_first_bus(s) && self.bus_id(s) == self.bus_id(a) && self.reaches(cb, cn, s, j);
                self.lemma_first_bus_unique(s, a);
                assert(self.reaches(cb, cn, b, j));
                assert(self.is_first_bus(b) && self.bus_id(b) == self.bus_id(b));
            }
            if self.reached_from_id(cb, cn, self.bus_id(b), j) {
                let s = choose|s: int| #[trigger] self.is_first_bus(s) && self.bus_id(s) == self.bus_id(b) && self.reaches(cb, cn, s, j);
                self.lemma_first_bus_unique(s, b);
                assert(self.reaches(cb, cn, a, j));
                assert(self.is_first_bus(a) && self.bus_id(a) == self.bus_id(a));
            }
        }
    }

    /// What is energized: only conducting buses; every conducting
    /// substation (the first declared with its id); and everything one
    /// conducting step away from an energized bus.
    pub proof fn lemma_energized_closure(self, cb: Seq<bool>, cn: Seq<bool>, j: int, i: int)
        ensures
            0 <= j < self.n_buses() && self.energized_at(cb, cn, j) ==> cn[j],
            self.is_first_bus(j) && self.buses@[j].spec_is_source() && cn[j] ==> self.energized_at(cb, cn, j),
            self.energized_at(cb, cn, j) && self.step(cb, cn, j, i) ==> self.energized_at(cb, cn, i),
    {
        if 0 <= j < self.n_buses() && self.energized_at(cb, cn, j) {
            let s0 = choose|s0: int| 0 <= s0 < self.n_buses() && self.buses@[s0].spec_is_source() && cn[s0]
                && #[trigger] self.reached_from_id(cb, cn, self.bus_id(s0), j);
            let s = choose|s: int| #[trigger] self.is_first_bus(s) && self.bus_id(s) == self.bus_id(s0) && self.reaches(cb, cn, s, j);
            let p = choose|p: Seq<int>| #[trigger] self.is_path(cb, cn, p) && p[0] == s && p.last() == j;
            assert(p[p.len() - 1] == j);
        }
        if self.is_first_bus(j) && self.buses@[j].spec_is_source() && cn[j] {
            let p = seq![j];
            assert(self.is_path(cb, cn, p));
            assert(self.reaches(cb, cn, j, j));
            assert(self.reached_from_id(cb, cn, self.bus_id(j), j));
        }
        if self.energized_at(cb, cn, j) && self.step(cb, cn, j, i) {
            let s0 = choose|s0: int| 0 <= s0 < self.n_buses() && self.buses@[s0].spec_is_source() && cn[s0]
                && #[trigger] self.reached_from_id(cb, cn, self.bus_id(s0), j);
            let s = choose|s: int| #[trigger] self.is_first_bus(s) && self.bus_id(s) == self.bus_id(s0) && self.reaches(cb, cn, s, j);
            let k = choose|k: int| #[trigger] self.links(k, j, i) && cb[k];
            let q = seq![j, i];
            assert(self.path_step_ok(cb, cn, q, 0));
            assert(self.is_path(cb, cn, q));
            assert(self.reaches(cb, cn, j, i));
            self.lemma_reach_trans(cb, cn, s, j, i);
            assert(self.reached_from_id(cb, cn, self.bus_id(s0), i));
        }
    }

    /// More conduction never energizes fewer buses: if every branch and bus
    /// that conducts in (`cb`, `cn`) conducts in (`cb2`, `cn2`), every bus
    /// energized under the first is energized under the second.
    pub proof fn lemma_energized_monotone(self, cb: Seq<bool>, cn: Seq<bool>, cb2: Seq<bool>, cn2: Seq<bool>, j: int)
        requires
            forall|k: int| 0 <= k < self.n_branches() && #[trigger] cb[k] ==> cb2[k],
            forall|i: int| 0 <= i < self.n_buses() && #[trigger] cn[i] ==> cn2[i],
            self.energized_at(cb, cn, j),
        ensures
            self.energized_at(cb2, cn2, j),
    {
        let i = choose|i: int| 0 <= i < self.n_buses() && self.buses@[i].spec_is_source() && cn[i]
            && #[trigger] self.reached_from_id(cb, cn, self.bus_id(i), j);
        let s = choose|s: int| #[trigger] self.is_first_bus(s) && self.bus_id(s) == self.bus_id(i) && self.reaches(cb, cn, s, j);
        let p = choose|p: Seq<int>| #[trigger] self.is_path(cb, cn, p) && p[0] == s && p.last() == j;
        assert forall|t: int| 0 <= t < p.len() - 1 implies #[trigger] self.path_step_ok(cb2, cn2, p, t) by {
            assert(self.path_step_ok(cb, cn, p, t));
            let k = choose|k: int| #[trigger] self.links(k, p[t], p[t + 1]) && cb[k];
            assert(self.links(k, p[t], p[t + 1]) && cb2[k]);
        }
        assert(self.is_path(cb2, cn2, p));
        assert(self.reached_from_id(cb2, cn2, self.bus_id(i), j));
    }

    /// A branch served by some energized buses stays served when more buses
    /// are energized.
    pub proof fn lemma_serves_monotone(self, k: int, e: Seq<bool>, e2: Seq<bool>)
        requires
            forall|j: int| 0 <= j < self.n_buses() && #[trigger] e[j] ==> e2[j],
            self.serves(k, e),
        ensures
            self.serves(k, e2),
    {
        let (t, j) = choose|t: int, j: int|
            0 <= t < self.branches@[k].node_ids().len() && 0 <= j < self.n_buses() && e[j]
                && #[trigger] self.bus_id(j) == #[trigger] self.branches@[k].node_ids()[t];
        assert(e2[j]);
    }

    /// Opening a switch never brings power to a line: every line served with
    /// switch `s` opened is served in the normal configuration.
    pub proof fn lemma_opening_never_energizes(self, s: int, k: int)
        requires
            0 <= s < self.n_buses(),
            self.serves(k, self.energized_mask(Seq::new(self.branches@.len(), |x: int| true),
                self.normal_mask().update(s, false))),
        ensures
            self.serves(k, self.energized_mask(Seq::new(self.branches@.len(), |x: int| true), self.normal_mask())),
    {
        let all = Seq::new(self.branches@.len(), |x: int| true);
        let cut = self.normal_mask().update(s, false);
        let e1 = self.energized_mask(all, cut);
        let e2 = self.energized_mask(all, self.normal_mask());
        assert forall|j: int| 0 <= j < self.n_buses() && #[trigger] e1[j] implies e2[j] by {
            self.lemma_energized_monotone(all, cut, all, self.normal_mask(), j);
        }
        self.lemma_serves_monotone(k, e1, e2);
    }
}


impl Network {
    /// Adjacency list: for each node name that some branch references (each
    /// once), the indices of the branches incident to it.
    pub fn adjacency(&self) -> (r: Vec<(String, Vec<usize>)>)
        ensures
            forall|a: int, b: int| 0 <= a < b < r@.len() ==> (#[trigger] r@[a]).0@ != (#[trigger] r@[b]).0@,
            forall|name: Seq<char>| (exists|a: int| 0 <= a < r@.len() && (#[trigger] r@[a]).0@ == name)
                <==> names_node(self.branches@, name),
            forall|a: int| 0 <= a < r@.len() ==> (#[trigger] r@[a]).1@ == incidence(self.branches@, r@[a].0@),
    {
        let m = self.branches.len();
        let mut adj: Vec<(String, Vec<usize>)> = Vec::new();
        let mut k: usize = 0;
        while k < m
            invariant
                m == self.n_branches(),
                k <= m,
                forall|a: int, b: int| 0 <= a < b < adj@.len() ==> (#[trigger] adj@[a]).0@ != (#[trigger] adj@[b]).0@,
                forall|name: Seq<char>| #![trigger names_node(self.branches@.take(k as int), name)]
                    (exists|a: int| 0 <= a < adj@.len() && (#[trigger] adj@[a]).0@ == name)
                    <==> names_node(self.branches@.take(k as int), name),
                forall|a: int| 0 <= a < adj@.len() ==> (#[trigger] adj@[a]).1@ == incidence(self.branches@.take(k as int), adj@[a].0@),
            decreases m - k,
        {
            let ghost pre = self.branches@.take(k as int);
            let ghost nids = self.branches@[k as int].node_ids();
            assert(self.branches@.take(k + 1).drop_last() =~= pre);
            assert(self.branches@.take(k + 1).last() == self.branches@[k as int]);
            let nodes = &self.branches[k].nodes;
            let mut t: usize = 0;
            while t < nodes.len()
                invariant
                    m == self.n_branches(),
                    k < m,
                    pre == self.branches@.take(k as int),
                    nids == self.branches@[k as int].node_ids(),
                    nodes@ == self.branches@[k as int].nodes@,
                    t <= nodes@.len(),
                    forall|a: int, b: int| 0 <= a < b < adj@.len() ==> (#[trigger] adj@[a]).0@ != (#[trigger] adj@[b]).0@,
                    forall|name: Seq<char>|
                        #![trigger names_node(pre, name)]
                        #![trigger nids.take(t as int).contains(name)]
                        (exists|a: int| 0 <= a < adj@.len() && (#[trigger] adj@[a]).0@ == name)
                        <==> (names_node(pre, name) || nids.take(t as int).contains(name)),
                    forall|a: int| 0 <= a < adj@.len() ==> (#[trigger] adj@[a]).1@
                        == incidence(pre, adj@[a].0@) + occurrences(nids.take(t as int), adj@[a].0@, k),
                decreases nodes@.len() - t,
            {
                let ghost adj0 = adj@;
                let ghost name = nids[t as int];
                assert(nodes@[t as int]@ == name);
                assert(nids.take(t + 1).drop_last() =~= nids.take(t as int));
                assert(nids.take(t + 1).last() == name);
                assert forall|y: Seq<char>| #[trigger] nids.take(t + 1).contains(y) <==> (nids.take(t as int).contains(y) || y == name) by {
                    if nids.take(t + 1).contains(y) {
                        let u = choose|u: int| 0 <= u < t + 1 && #[trigger] nids.take(t + 1)[u] == y;
                        if u < t {
                            assert(nids.take(t as int)[u] == y);
                        }
                    }
                    if nids.take(t as int).contains(y) {
                        let u = choose|u: int| 0 <= u < t && #[trigger] nids.take(t as int)[u] == y;
                        assert(nids.take(t + 1)[u] == y);
                    }
                    if y == name {
                        assert(nids.take(t + 1)[t as int] == y);
                    }
                }
                let mut a: usize = 0;
                let mut found: Option<usize> = None;
                while a < adj.len()
                    invariant
                        a <= adj@.len(),
                        adj@ == adj0,
                        nodes@[t as int]@ == name,
                        t < nodes@.len(),
                        match found {
                            Some(f) => f < adj@.len() && adj@[f as int].0@ == name,
                            None => forall|a2: int| 0 <= a2 < a ==> (#[trigger] adj@[a2]).0@ != name,
                        },
                    decreases adj@.len() - a,
                {
                    if found.is_none() && adj[a].0 == nodes[t] {
                        found = Some(a);
                    }
                    a = a + 1;
                }
                match found {
                    Some(f) => {
                        adj[f].1.push(k);
                        proof {
                            assert forall|a2: int| 0 <= a2 < adj@.len() implies (#[trigger] adj@[a2]).1@
                                == incidence(pre, adj@[a2].0@) + occurrences(nids.take(t + 1), adj@[a2].0@, k) by {
                                assert(adj@[a2].0 == adj0[a2].0);
                                if a2 != f {
                                    assert(adj@[a2] == adj0[a2]);
                                    assert(adj0[a2].0@ != name);
                                }
                            }
                            assert forall|a2: int, b: int| 0 <= a2 < b < adj@.len() implies (#[trigger] adj@[a2]).0@ != (#[trigger] adj@[b]).0@ by {
                                assert(adj@[a2].0 == adj0[a2].0);
                                assert(adj@[b].0 == adj0[b].0);
                            }
                            assert forall|y: Seq<char>| (exists|a2: int| 0 <= a2 < adj@.len() && (#[trigger] adj@[a2]).0@ == y)
                                <==> (names_node(pre, y) || nids.take(t + 1).contains(y)) by {
                                if exists|a2: int| 0 <= a2 < adj@.len() && (#[trigger] adj@[a2]).0@ == y {
                                    let a2 = choose|a2: int| 0 <= a2 < adj@.len() && (#[trigger] adj@[a2]).0@ == y;
                                    assert(adj@[a2].0 == adj0[a2].0);
                                }
                                if names_node(pre, y) || nids.take(t as int).contains(y) {
                                    assert(names_node(pre, y) || nids.take(t as int).contains(y));
                                    let a2 = choose|a2: int| 0 <= a2 < adj0.len() && (#[trigger] adj0[a2]).0@ == y;
                                    assert(adj@[a2].0 == adj0[a2].0);
                                }
                                if y == name {
                                    assert(adj@[f as int].0 == adj0[f as int].0);
                                }
                            }
                        }
                    },
                    None => {
                        let mut list: Vec<usize> = Vec::new();
                        list.push(k);
                        adj.push((nodes[t].clone(), list));
                        proof {
                            assert(!names_node(pre, name) && !nids.take(t as int).contains(name)) by {
                                if names_node(pre, name) || nids.take(t as int).contains(name) {
                                    let a2 = choose|a2: int| 0 <= a2 < adj0.len() && (#[trigger] adj0[a2]).0@ == name;
                                }
                            }
                            lemma_incidence_empty(pre, name);
                            lemma_occurrences_empty(nids.take(t as int), name, k);
                            assert(occurrences(nids.take(t + 1), name, k) =~= seq![k]);
                            assert(adj@[adj0.len() as int].1@ =~= incidence(pre, name) + occurrences(nids.take(t + 1), name, k));
                            assert forall|a2: int| 0 <= a2 < adj@.len() implies (#[trigger] adj@[a2]).1@
                                == incidence(pre, adj@[a2].0@) + occurrences(nids.take(t + 1), adj@[a2].0@, k) by {
                                if a2 < adj0.len() {
                                    assert(adj@[a2] == adj0[a2]);
                                    assert(adj0[a2].0@ != name);
                                }
                            }
                            assert forall|a2: int, b: int| 0 <= a2 < b < adj@.len() implies (#[trigger] adj@[a2]).0@ != (#[trigger] adj@[b]).0@ by {
                                assert(adj@[a2] == adj0[a2]);
                                if b < adj0.len() {
                                    assert(adj@[b] == adj0[b]);
                                }
                            }
                            assert forall|y: Seq<char>| (exists|a2: int| 0 <= a2 < adj@.len() && (#[trigger] adj@[a2]).0@ == y)
                                <==> (names_node(pre, y) || nids.take(t + 1).contains(y)) by {
                                if exists|a2: int| 0 <= a2 < adj@.len() && (#[trigger] adj@[a2]).0@ == y {
                                    let a2 = choose|a2: int| 0 <= a2 < adj@.len() && (#[trigger] adj@[a2]).0@ == y;
                                    if a2 < adj0.len() {
                                        assert(adj@[a2] == adj0[a2]);
                                    }
                                }
                                if names_node(pre, y) || nids.take(t as int).contains(y) {
                                    let a2 = choose|a2: int| 0 <= a2 < adj0.len() && (#[trigger] adj0[a2]).0@ == y;
                                    assert(adj@[a2] == adj0[a2]);
                                }
                                if y == name {
                                    assert(adj@[adj0.len() as int].0@ == y);
                                }
                            }
                        }
                    },
                }
                assert(forall|y: Seq<char>|
                    #![trigger names_node(pre, y)]
                    #![trigger nids.take(t + 1).contains(y)]
                    (exists|a2: int| 0 <= a2 < adj@.len() && (#[trigger] adj@[a2]).0@ == y)
                    <==> (names_node(pre, y) || nids.take(t + 1).contains(y)));
                t = t + 1;
            }
            proof {
                assert(nids.take(nids.len() as int) =~= nids);
                assert forall|y: Seq<char>| names_node(self.branches@.take(k + 1), y) <==> (names_node(pre, y) || nids.contains(y)) by {
                    let pk = self.branches@.take(k + 1);
                    if names_node(pk, y) {
                        let k2 = choose|k2: int| 0 <= k2 < pk.len() && #[trigger] pk[k2].node_ids().contains(y);
                        if k2 < k {
                            assert(pre[k2] == pk[k2]);
                        }
                    }
                    if names_node(pre, y) {
                        let k2 = choose|k2: int| 0 <= k2 < pre.len() && #[trigger] pre[k2].node_ids().contains(y);
                        assert(pre[k2] == pk[k2]);
                    }
                    if nids.contains(y) {
                        assert(pk[k as int] == self.branches@[k as int]);
                    }
                }
                assert forall|a2: int| 0 <= a2 < adj@.len() implies (#[trigger] adj@[a2]).1@
                    == incidence(self.branches@.take(k + 1), adj@[a2].0@) by {
                }
                assert forall|y: Seq<char>| #[trigger] names_node(self.branches@.take(k + 1), y) <==>
                    (exists|a2: int| 0 <= a2 < adj@.len() && (#[trigger] adj@[a2]).0@ == y) by {
                    assert(names_node(self.branches@.take(k + 1), y) <==> (names_node(pre, y) || nids.contains(y)));
                    assert(nids.take(t as int) == nids);
                    assert(names_node(pre, y) || nids.take(t as int).contains(y) <==>
                        (exists|a2: int| 0 <= a2 < adj@.len() && (#[trigger] adj@[a2]).0@ == y));
                }
            }
            k = k + 1;
        }
        assert(self.branches@.take(m as int) =~= self.branches@);
        adj
    }
}


/// Number of entries without a value.
pub open spec fn count_none(s: Seq<Option<usize>>) -> nat
    decreases s.len(),
{
    if s.len() == 0 {
        0
    } else {
        count_none(s.drop_last()) + if s.last() is None { 1nat } else { 0nat }
    }
}

proof fn lemma_count_none_le(s: Seq<Option<usize>>)
    ensures
        count_none(s) <= s.len(),
    decreases s.len(),
{
    if s.len() > 0 {
        lemma_count_none_le(s.drop_last());
    }
}

proof fn lemma_count_none_update(s: Seq<Option<usize>>, q: int, v: usize)
    requires
        0 <= q < s.len(),
        s[q] is None,
    ensures
        count_none(s.update(q, Some(v))) + 1 == count_none(s),
    decreases s.len(),
{
    let u = s.update(q, Some(v));
    if q == s.len() - 1 {
        assert(u.drop_last() =~= s.drop_last());
    } else {
        assert(u.drop_last() =~= s.drop_last().update(q, Some(v)));
        lemma_count_none_update(s.drop_last(), q, v);
    }
}

impl Network {
    /// Some branch has both `x` and `y` among its terminals.
    pub open spec fn co_terminal(self, x: Seq<char>, y: Seq<char>) -> bool {
        exists|k: int| 0 <= k < self.n_branches() && #[trigger] self.branches@[k].node_ids().contains(x)
            && self.branches@[k].node_ids().contains(y)
    }

    /// A substation has the id `x`.
    pub open spec fn names_source(self, x: Seq<char>) -> bool {
        exists|i: int| 0 <= i < self.n_buses() && self.buses@[i].spec_is_source() && #[trigger] self.bus_id(i) == x
    }

    /// `p` is a walk from a substation: it starts at a substation's id and
    /// each next node shares a branch with the one before.
    pub open spec fn hop_walk(self, p: Seq<Seq<char>>) -> bool {
        &&& p.len() > 0
        &&& self.names_source(p[0])
        &&& forall|t: int| 0 <= t < p.len() - 1 ==> #[trigger] self.co_terminal(p[t], p[t + 1])
    }

    /// The node `x` is at most `d` hops, each along one branch, from a
    /// substation.
    pub open spec fn within_hops(self, x: Seq<char>, d: nat) -> bool {
        exists|p: Seq<Seq<char>>| #[trigger] self.hop_walk(p) && p.len() <= d + 1 && p.last() == x
    }

    /// `d` is the fewest hops from a substation to the node `x`.
    pub open spec fn hop_depth(self, x: Seq<char>, d: nat) -> bool {
        &&& self.within_hops(x, d)
        &&& forall|d2: nat| d2 < d ==> !#[trigger] self.within_hops(x, d2)
    }

    /// Depth 0 holds exactly the substations.
    pub proof fn lemma_within_zero(self, x: Seq<char>)
        ensures
            self.within_hops(x, 0) == self.names_source(x),
    {
        if self.names_source(x) {
            let p = seq![x];
            assert(self.hop_walk(p));
        }
    }

    /// What is within `d` hops is within any larger number of hops.
    pub proof fn lemma_within_mono(self, x: Seq<char>, d: nat, d2: nat)
        requires
            self.within_hops(x, d),
            d <= d2,
        ensures
            self.within_hops(x, d2),
    {
        let p = choose|p: Seq<Seq<char>>| #[trigger] self.hop_walk(p) && p.len() <= d + 1 && p.last() == x;
        assert(self.hop_walk(p) && p.len() <= d2 + 1 && p.last() == x);
    }

    /// One more hop along a branch: nodes sharing a branch are at most one
    /// layer apart.
    pub proof fn lemma_within_step(self, y: Seq<char>, x: Seq<char>, d: nat)
        requires
            self.within_hops(y, d),
            self.co_terminal(y, x),
        ensures
            self.within_hops(x, d + 1),
    {
        let p = choose|p: Seq<Seq<char>>| #[trigger] self.hop_walk(p) && p.len() <= d + 1 && p.last() == y;
        let q = p.push(x);
        assert forall|t: int| 0 <= t < q.len() - 1 implies #[trigger] self.co_terminal(q[t], q[t + 1]) by {
            if t < p.len() - 1 {
                assert(q[t] == p[t] && q[t + 1] == p[t + 1]);
                assert(self.co_terminal(p[t], p[t + 1]));
            }
        }
        assert(self.hop_walk(q));
    }

    /// A node within `d + 1` hops is within `d`, or one hop from a node
    /// within `d`.
    proof fn lemma_within_last(self, x: Seq<char>, d: nat)
        requires
            self.within_hops(x, d + 1),
            !self.within_hops(x, d),
        ensures
            exists|y: Seq<char>| #[trigger] self.within_hops(y, d) && self.co_terminal(y, x),
    {
        let p = choose|p: Seq<Seq<char>>| #[trigger] self.hop_walk(p) && p.len() <= d + 2 && p.last() == x;
        if p.len() <= d + 1 {
            assert(self.hop_walk(p) && p.len() <= d + 1 && p.last() == x);
        }
        let q = p.drop_last();
        assert forall|t: int| 0 <= t < q.len() - 1 implies #[trigger] self.co_terminal(q[t], q[t + 1]) by {
            assert(self.co_terminal(p[t], p[t + 1]));
        }
        assert(self.hop_walk(q));
        let y = p[p.len() - 2];
        assert(self.within_hops(y, d));
        assert(self.co_terminal(p[p.len() - 2], p[p.len() - 1]));
    }

    /// When no node gets within `d + 1` hops without being within `d`,
    /// nothing farther is ever reached.
    proof fn lemma_within_stable(self, d: nat, d2: nat, x: Seq<char>)
        requires
            forall|y: Seq<char>| #[trigger] self.within_hops(y, d + 1) ==> self.within_hops(y, d),
            self.within_hops(x, d2),
        ensures
            self.within_hops(x, d),
        decreases d2,
    {
        if d2 > d {
            if self.within_hops(x, (d2 - 1) as nat) {
                self.lemma_within_stable(d, (d2 - 1) as nat, x);
            } else {
                self.lemma_within_last(x, (d2 - 1) as nat);
                let y = choose|y: Seq<char>| #[trigger] self.within_hops(y, (d2 - 1) as nat) && self.co_terminal(y, x);
                self.lemma_within_stable(d, (d2 - 1) as nat, y);
                self.lemma_within_step(y, x, d);
            }
        } else if d2 < d {
            self.lemma_within_mono(x, d2, d);
        }
    }

    /// Every node within some hops of a substation is a bus id or a terminal,
    /// so it is among `nv` when `nv` holds all of those.
    proof fn lemma_within_named(self, nv: Seq<Seq<char>>, x: Seq<char>, d: nat)
        requires
            forall|i: int| 0 <= i < self.n_buses() ==> nv.contains(#[trigger] self.bus_id(i)),
            forall|k: int, t: int| 0 <= k < self.n_branches() && 0 <= t < self.branches@[k].node_ids().len()
                ==> nv.contains(#[trigger] self.branches@[k].node_ids()[t]),
            self.within_hops(x, d),
        ensures
            nv.contains(x),
    {
        let p = choose|p: Seq<Seq<char>>| #[trigger] self.hop_walk(p) && p.len() <= d + 1 && p.last() == x;
        if p.len() == 1 {
            let i = choose|i: int| 0 <= i < self.n_buses() && self.buses@[i].spec_is_source() && #[trigger] self.bus_id(i) == p[0];
            assert(nv.contains(self.bus_id(i)));
        } else {
            let t0 = p.len() - 2;
            assert(self.co_terminal(p[t0], p[t0 + 1]));
            let k = choose|k: int| 0 <= k < self.n_branches() && #[trigger] self.branches@[k].node_ids().contains(p[t0])
                && self.branches@[k].node_ids().contains(p[t0 + 1]);
            let t = choose|t: int| 0 <= t < self.branches@[k].node_ids().len() && self.branches@[k].node_ids()[t] == x;
            assert(nv.contains(self.branches@[k].node_ids()[t]));
        }
    }
}

/// Index of the name `x` in `names`, if it is there.
fn name_index(names: &Vec<String>, x: &String) -> (r: Option<usize>)
    ensures
        r matches Some(q) ==> q < names@.len() && names@[q as int]@ == x@,
        r is None ==> !ids_of(names@).contains(x@),
{
    let mut q: usize = 0;
    while q < names.len()
        invariant
            q <= names@.len(),
            forall|q2: int| 0 <= q2 < q ==> names@[q2]@ != x@,
        decreases names@.len() - q,
    {
        if names[q] == *x {
            return Some(q);
        }
        q = q + 1;
    }
    proof {
        if ids_of(names@).contains(x@) {
            let q2 = choose|q2: int| 0 <= q2 < ids_of(names@).len() && ids_of(names@)[q2] == x@;
            assert(names@[q2]@ == x@);
        }
    }
    None
}

/// Adds `x` to the distinct names `names` unless it is there.
fn add_name(names: &mut Vec<String>, x: &String)
    requires
        forall|a: int, b: int| 0 <= a < b < old(names)@.len() ==> old(names)@[a]@ != old(names)@[b]@,
    ensures
        forall|a: int, b: int| 0 <= a < b < final(names)@.len() ==> final(names)@[a]@ != final(names)@[b]@,
        ids_of(final(names)@).contains(x@),
        forall|y: Seq<char>| ids_of(old(names)@).contains(y) ==> ids_of(final(names)@).contains(y),
{
    match name_index(names, x) {
        Some(q) => {
            assert(ids_of(names@)[q as int] == x@);
        },
        None => {
            let ghost n0 = names@;
            let c = x.clone();
            names.push(c);
            proof {
                lemma_ids_push(n0, c);
                assert(ids_of(names@)[n0.len() as int] == x@);
                assert forall|y: Seq<char>| ids_of(n0).contains(y) implies ids_of(names@).contains(y) by {
                    let q = choose|q: int| 0 <= q < ids_of(n0).len() && ids_of(n0)[q] == y;
                    assert(ids_of(names@)[q] == y);
                }
                assert forall|a: int, b: int| 0 <= a < b < names@.len() implies names@[a]@ != names@[b]@ by {
                    if b == n0.len() {
                        assert(ids_of(n0)[a] == names@[a]@);
                    }
                }
            }
        },
    }
}


/// Names pairwise different.
pub open spec fn distinct_names(names: Seq<String>) -> bool {
    forall|a: int, b: int| 0 <= a < b < names.len() ==> names[a]@ != names[b]@
}

impl Network {
    /// Some terminal of branch `k` is a name `nv[q]` whose entry in `ds` is
    /// `Some(d)`.
    pub open spec fn touches_depth(self, nv: Seq<Seq<char>>, ds: Seq<Option<usize>>, k: int, d: usize) -> bool {
        exists|t: int, q: int|
            #![trigger nv[q], self.branches@[k].node_ids()[t]]
            0 <= t < self.branches@[k].node_ids().len() && 0 <= q < nv.len()
                && nv[q] == self.branches@[k].node_ids()[t] && ds[q] == Some(d)
    }

    fn branch_touches_depth(&self, names: &Vec<String>, dist: &Vec<Option<usize>>, k: usize, d: usize) -> (r: bool)
        requires
            k < self.n_branches(),
            dist@.len() == names@.len(),
            distinct_names(names@),
        ensures
            r == self.touches_depth(ids_of(names@), dist@, k as int, d),
    {
        let ghost nv = ids_of(names@);
        let ghost nodes = self.branches@[k as int].node_ids();
        let mut t: usize = 0;
        while t < self.branches[k].nodes.len()
            invariant
                k < self.n_branches(),
                nodes == self.branches@[k as int].node_ids(),
                nv == ids_of(names@),
                dist@.len() == names@.len(),
                distinct_names(names@),
                t <= nodes.len(),
                forall|t2: int, q: int| 0 <= t2 < t && 0 <= q < nv.len() && #[trigger] nv[q] == #[trigger] nodes[t2]
                    ==> dist@[q] != Some(d),
            decreases nodes.len() - t,
        {
            assert(nodes[t as int] == self.branches@[k as int].nodes@[t as int]@);
            match name_index(names, &self.branches[k].nodes[t]) {
                Some(q) => {
                    let hit = match dist[q] {
                        Some(e) => e == d,
                        None => false,
                    };
                    if hit {
                        assert(nv[q as int] == nodes[t as int]);
                        return true;
                    }
                    assert forall|q2: int| 0 <= q2 < nv.len() && #[trigger] nv[q2] == nodes[t as int]
                        implies dist@[q2] != Some(d) by {
                        if q2 != q {
                            if q2 < q {
                                assert(names@[q2]@ != names@[q as int]@);
                            } else {
                                assert(names@[q as int]@ != names@[q2]@);
                            }
                        }
                    }
                },
                None => {
                    assert forall|q2: int| 0 <= q2 < nv.len() && #[trigger] nv[q2] == nodes[t as int]
                        implies dist@[q2] != Some(d) by {
                        assert(nv.contains(nv[q2]));
                    }
                },
            }
            t = t + 1;
        }
        false
    }
}


impl Network {
    /// Every bus id and every branch terminal, each once.
    fn all_names(&self) -> (names: Vec<String>)
        ensures
            distinct_names(names@),
            forall|i: int| 0 <= i < self.n_buses() ==> ids_of(names@).contains(#[trigger] self.bus_id(i)),
            forall|k: int, t: int| 0 <= k < self.n_branches() && 0 <= t < self.branches@[k].node_ids().len()
                ==> ids_of(names@).contains(#[trigger] self.branches@[k].node_ids()[t]),
    {
        let mut names: Vec<String> = Vec::new();
        let mut i: usize = 0;
        while i < self.buses.len()
            invariant
                i <= self.n_buses(),
                distinct_names(names@),
                forall|i2: int| 0 <= i2 < i ==> ids_of(names@).contains(#[trigger] self.bus_id(i2)),
            decreases self.n_buses() - i,
        {
            add_name(&mut names, &self.buses[i].id);
            i = i + 1;
        }
        let mut k: usize = 0;
        while k < self.branches.len()
            invariant
                k <= self.n_branches(),
                distinct_names(names@),
                forall|i2: int| 0 <= i2 < self.n_buses() ==> ids_of(names@).contains(#[trigger] self.bus_id(i2)),
                forall|k2: int, t: int| 0 <= k2 < k && 0 <= t < self.branches@[k2].node_ids().len()
                    ==> ids_of(names@).contains(#[trigger] self.branches@[k2].node_ids()[t]),
            decreases self.n_branches() - k,
        {
            let mut t: usize = 0;
            while t < self.branches[k].nodes.len()
                invariant
                    k < self.n_branches(),
                    t <= self.branches@[k as int].nodes@.len(),
                    distinct_names(names@),
                    forall|i2: int| 0 <= i2 < self.n_buses() ==> ids_of(names@).contains(#[trigger] self.bus_id(i2)),
                    forall|k2: int, t2: int| 0 <= k2 < k && 0 <= t2 < self.branches@[k2].node_ids().len()
                        ==> ids_of(names@).contains(#[trigger] self.branches@[k2].node_ids()[t2]),
                    forall|t2: int| 0 <= t2 < t ==> ids_of(names@).contains(#[trigger] self.branches@[k as int].node_ids()[t2]),
                decreases self.branches@[k as int].nodes@.len() - t,
            {
                add_name(&mut names, &self.branches[k].nodes[t]);
                t = t + 1;
            }
            k = k + 1;
        }
        names
    }

    /// For each bus, the fewest hops from a substation to it, each hop along
    /// one branch (the layer of the bus in the drawing of the network), or
    /// `None` when no substation reaches it.
    pub fn layer_depths(&self) -> (r: Vec<Option<usize>>)
        ensures
            r@.len() == self.n_buses(),
            forall|j: int| 0 <= j < self.n_buses() ==>
                (#[trigger] r@[j] matches Some(d) ==> self.hop_depth(self.bus_id(j), d as nat)),
            forall|j: int| 0 <= j < self.n_buses() ==>
                (#[trigger] r@[j] is None ==> forall|d: nat| !#[trigger] self.within_hops(self.bus_id(j), d)),
    {
        let names = self.all_names();
        let ghost nv = ids_of(names@);
        let nl = names.len();
        let mut dist: Vec<Option<usize>> = Vec::new();
        while dist.len() < nl
            invariant
                dist@.len() <= nl,
                count_none(dist@) == dist@.len(),
                forall|q: int| 0 <= q < dist@.len() ==> #[trigger] dist@[q] is None,
            decreases nl - dist@.len(),
        {
            let ghost d0 = dist@;
            dist.push(None);
            assert(dist@.drop_last() =~= d0);
        }
        let mut unknown: usize = nl;
        let mut i: usize = 0;
        while i < self.buses.len()
            invariant
                nv == ids_of(names@),
                nl == names@.len(),
                distinct_names(names@),
                dist@.len() == nl,
                unknown == count_none(dist@),
                i <= self.n_buses(),
                forall|q: int| 0 <= q < nl ==> (#[trigger] dist@[q] matches Some(e) ==> e == 0 && self.names_source(nv[q])),
                forall|i2: int, q: int| 0 <= i2 < i && self.buses@[i2].spec_is_source() && 0 <= q < nl
                    && #[trigger] nv[q] == #[trigger] self.bus_id(i2) ==> dist@[q] is Some,
            decreases self.n_buses() - i,
        {
            if self.buses[i].is_source() {
                match name_index(&names, &self.buses[i].id) {
                    Some(q) => {
                        let is_none = match dist[q] {
                            Some(_) => false,
                            None => true,
                        };
                        if is_none {
                            proof {
                                lemma_count_none_update(dist@, q as int, 0);
                            }
                            dist.set(q, Some(0));
                            unknown = unknown - 1;
                        }
                        proof {
                            assert(nv[q as int] == self.bus_id(i as int));
                            assert forall|i2: int, q2: int| 0 <= i2 <= i && self.buses@[i2].spec_is_source() && 0 <= q2 < nl
                                && #[trigger] nv[q2] == #[trigger] self.bus_id(i2) implies dist@[q2] is Some by {
                                if i2 == i && q2 != q {
                                    if q2 < q {
                                        assert(names@[q2]@ != names@[q as int]@);
                                    } else {
                                        assert(names@[q as int]@ != names@[q2]@);
                                    }
                                }
                            }
                        }
                    },
                    None => {},
                }
            }
            i = i + 1;
        }
        proof {
            lemma_count_none_le(dist@);
            assert forall|q: int| 0 <= q < nl implies
                (#[trigger] dist@[q] matches Some(e) ==> e <= 0 && self.hop_depth(nv[q], e as nat)) by {
                self.lemma_within_zero(nv[q]);
            }
            assert forall|q: int| 0 <= q < nl implies
                (#[trigger] dist@[q] is None ==> !self.within_hops(nv[q], 0)) by {
                self.lemma_within_zero(nv[q]);
                if self.names_source(nv[q]) {
                    let i2 = choose|i2: int| 0 <= i2 < self.n_buses() && self.buses@[i2].spec_is_source()
                        && #[trigger] self.bus_id(i2) == nv[q];
                    assert(nv[q] == self.bus_id(i2));
                }
            }
        }
        let mut d: usize = 0;
        loop
            invariant
                nv == ids_of(names@),
                nl == names@.len(),
                distinct_names(names@),
                forall|i2: int| 0 <= i2 < self.n_buses() ==> nv.contains(#[trigger] self.bus_id(i2)),
                forall|k: int, t: int| 0 <= k < self.n_branches() && 0 <= t < self.branches@[k].node_ids().len()
                    ==> nv.contains(#[trigger] self.branches@[k].node_ids()[t]),
                dist@.len() == nl,
                unknown == count_none(dist@),
                count_none(dist@) <= nl,
                d + unknown <= nl,
                forall|q: int| 0 <= q < nl ==>
                    (#[trigger] dist@[q] matches Some(e) ==> e <= d && self.hop_depth(nv[q], e as nat)),
                forall|q: int| 0 <= q < nl ==> (#[trigger] dist@[q] is None ==> !self.within_hops(nv[q], d as nat)),
            ensures
                forall|q: int| 0 <= q < nl && #[trigger] dist@[q] is None
                    ==> forall|d2: nat| !#[trigger] self.within_hops(nv[q], d2),
            decreases unknown,
        {
            let ghost d0 = dist@;
            let ghost u0 = unknown;
            let mut changed = false;
            let mut k: usize = 0;
            while k < self.branches.len()
                invariant
                    nv == ids_of(names@),
                    nl == names@.len(),
                    distinct_names(names@),
                    forall|k2: int, t: int| 0 <= k2 < self.n_branches() && 0 <= t < self.branches@[k2].node_ids().len()
                        ==> nv.contains(#[trigger] self.branches@[k2].node_ids()[t]),
                    d0.len() == nl,
                    dist@.len() == nl,
                    k <= self.n_branches(),
                    unknown == count_none(dist@),
                    unknown <= u0,
                    d + u0 <= nl,
                    changed ==> unknown < u0,
                    !changed ==> dist@ == d0,
                    forall|q: int| 0 <= q < nl ==> (#[trigger] d0[q] matches Some(e) ==> e <= d && self.hop_depth(nv[q], e as nat)),
                    forall|q: int| 0 <= q < nl ==> (#[trigger] d0[q] is None ==> !self.within_hops(nv[q], d as nat)),
                    forall|q: int| 0 <= q < nl && (#[trigger] d0[q]) is Some ==> dist@[q] == d0[q],
                    forall|q: int| 0 <= q < nl && (#[trigger] d0[q]) is None && dist@[q] is Some
                        ==> dist@[q] == Some((d + 1) as usize) && self.within_hops(nv[q], (d + 1) as nat),
                    forall|k2: int, t: int, q: int| 0 <= k2 < k && self.touches_depth(nv, d0, k2, d)
                        && 0 <= t < self.branches@[k2].node_ids().len() && 0 <= q < nl
                        && #[trigger] nv[q] == #[trigger] self.branches@[k2].node_ids()[t] ==> dist@[q] is Some,
                decreases self.n_branches() - k,
            {
                let touches = self.branch_touches_depth(&names, &dist, k, d);
                proof {
                    assert forall|q: int| 0 <= q < nl implies (#[trigger] dist@[q] == Some(d)) == (d0[q] == Some(d)) by {
                        if d0[q] is None && dist@[q] is Some {
                            assert(dist@[q] == Some((d + 1) as usize));
                        }
                    }
                    if self.touches_depth(nv, dist@, k as int, d) {
                        let (t, q) = choose|t: int, q: int|
                            #![trigger nv[q], self.branches@[k as int].node_ids()[t]]
                            0 <= t < self.branches@[k as int].node_ids().len() && 0 <= q < nv.len()
                                && nv[q] == self.branches@[k as int].node_ids()[t] && dist@[q] == Some(d);
                        assert(dist@[q] == Some(d));
                    }
                    if self.touches_depth(nv, d0, k as int, d) {
                        let (t, q) = choose|t: int, q: int|
                            #![trigger nv[q], self.branches@[k as int].node_ids()[t]]
                            0 <= t < self.branches@[k as int].node_ids().len() && 0 <= q < nv.len()
                                && nv[q] == self.branches@[k as int].node_ids()[t] && d0[q] == Some(d);
                        assert(dist@[q] == Some(d));
                    }
                }
                if touches {
                    let ghost (tw, qw) = choose|t: int, q: int|
                        #![trigger nv[q], self.branches@[k as int].node_ids()[t]]
                        0 <= t < self.branches@[k as int].node_ids().len() && 0 <= q < nv.len()
                            && nv[q] == self.branches@[k as int].node_ids()[t] && d0[q] == Some(d);
                    proof {
                        assert(self.hop_depth(nv[qw], d as nat));
                    }
                    let ghost before = dist@;
                    let mut t: usize = 0;
                    while t < self.branches[k].nodes.len()
                        invariant
                            nv == ids_of(names@),
                            nl == names@.len(),
                            distinct_names(names@),
                            k < self.n_branches(),
                            forall|k2: int, t2: int| 0 <= k2 < self.n_branches() && 0 <= t2 < self.branches@[k2].node_ids().len()
                                ==> nv.contains(#[trigger] self.branches@[k2].node_ids()[t2]),
                            0 <= tw < self.branches@[k as int].node_ids().len(),
                            0 <= qw < nl,
                            nv[qw] == self.branches@[k as int].node_ids()[tw],
                            self.within_hops(nv[qw], d as nat),
                            t <= self.branches@[k as int].nodes@.len(),
                            d0.len() == nl,
                            dist@.len() == nl,
                            unknown == count_none(dist@),
                            unknown <= u0,
                            d + u0 <= nl,
                            changed ==> unknown < u0,
                            !changed ==> dist@ == d0,
                            forall|q: int| 0 <= q < nl ==> (#[trigger] d0[q] is None ==> !self.within_hops(nv[q], d as nat)),
                            forall|q: int| 0 <= q < nl && (#[trigger] d0[q]) is Some ==> dist@[q] == d0[q],
                            forall|q: int| 0 <= q < nl && (#[trigger] d0[q]) is None && dist@[q] is Some
                                ==> dist@[q] == Some((d + 1) as usize) && self.within_hops(nv[q], (d + 1) as nat),
                            forall|q: int| 0 <= q < nl && (#[trigger] before[q]) is Some ==> dist@[q] is Some,
                            forall|t2: int, q: int| 0 <= t2 < t && 0 <= q < nl
                                && #[trigger] nv[q] == #[trigger] self.branches@[k as int].node_ids()[t2] ==> dist@[q] is Some,
                        decreases self.branches@[k as int].nodes@.len() - t,
                    {
                        let ghost x = self.branches@[k as int].node_ids()[t as int];
                        assert(x == self.branches@[k as int].nodes@[t as int]@);
                        match name_index(&names, &self.branches[k].nodes[t]) {
                            Some(q) => {
                                let is_none = match dist[q] {
                                    Some(_) => false,
                                    None => true,
                                };
                                if is_none {
                                    proof {
                                        lemma_count_none_update(dist@, q as int, (d + 1) as usize);
                                        assert(self.co_terminal(nv[qw], x)) by {
                                            assert(self.branches@[k as int].node_ids().contains(nv[qw]));
                                            assert(self.branches@[k as int].node_ids().contains(x));
                                        }
                                        self.lemma_within_step(nv[qw], x, d as nat);
                                        assert(d0[q as int] is None);
                                    }
                                    dist.set(q, Some(d + 1));
                                    unknown = unknown - 1;
                                    changed = true;
                                }
                                proof {
                                    assert(nv[q as int] == x);
                                    assert forall|t2: int, q2: int| 0 <= t2 <= t && 0 <= q2 < nl
                                        && #[trigger] nv[q2] == #[trigger] self.branches@[k as int].node_ids()[t2]
                                        implies dist@[q2] is Some by {
                                        if t2 == t && q2 != q {
                                            if q2 < q {
                                                assert(names@[q2]@ != names@[q as int]@);
                                            } else {
                                                assert(names@[q as int]@ != names@[q2]@);
                                            }
                                        }
                                    }
                                }
                            },
                            None => {
                                proof {
                                    assert(nv.contains(x));
                                }
                            },
                        }
                        t = t + 1;
                    }
                }
                k = k + 1;
            }
            proof {
                // Every name still without a depth is more than `d + 1` hops away.
                assert forall|q: int| 0 <= q < nl implies
                    (#[trigger] dist@[q] is None ==> !self.within_hops(nv[q], (d + 1) as nat)) by {
                    let x = nv[q];
                    if dist@[q] is None && self.within_hops(x, (d + 1) as nat) {
                        assert(d0[q] is None);
                        self.lemma_within_last(x, d as nat);
                        let y = choose|y: Seq<char>| #[trigger] self.within_hops(y, d as nat) && self.co_terminal(y, x);
                        let kk = choose|kk: int| 0 <= kk < self.n_branches() && #[trigger] self.branches@[kk].node_ids().contains(y)
                            && self.branches@[kk].node_ids().contains(x);
                        let ty = choose|ty: int| 0 <= ty < self.branches@[kk].node_ids().len() && self.branches@[kk].node_ids()[ty] == y;
                        let tx = choose|tx: int| 0 <= tx < self.branches@[kk].node_ids().len() && self.branches@[kk].node_ids()[tx] == x;
                        assert(nv.contains(self.branches@[kk].node_ids()[ty]));
                        let qy = choose|qy: int| 0 <= qy < nv.len() && nv[qy] == y;
                        assert(d0[qy] is Some);
                        let e = d0[qy]->Some_0;
                        assert(self.hop_depth(nv[qy], e as nat));
                        if e < d {
                            assert(self.co_terminal(y, x));
                            self.lemma_within_step(y, x, e as nat);
                            self.lemma_within_mono(x, (e + 1) as nat, d as nat);
                        }
                        assert(e == d);
                        assert(self.touches_depth(nv, d0, kk, d)) by {
                            assert(nv[qy] == self.branches@[kk].node_ids()[ty]);
                        }
                        assert(nv[q] == self.branches@[kk].node_ids()[tx]);
                        assert(dist@[q] is Some);
                    }
                }
                lemma_count_none_le(dist@);
            }
            if !changed {
                proof {
                    assert forall|y: Seq<char>| #[trigger] self.within_hops(y, (d + 1) as nat)
                        implies self.within_hops(y, d as nat) by {
                        self.lemma_within_named(nv, y, (d + 1) as nat);
                        let q = choose|q: int| 0 <= q < nv.len() && nv[q] == y;
                        if dist@[q] is Some {
                            let e = dist@[q]->Some_0;
                            self.lemma_within_mono(y, e as nat, d as nat);
                        }
                    }
                    assert forall|q: int| 0 <= q < nl && #[trigger] dist@[q] is None
                        implies forall|d2: nat| !#[trigger] self.within_hops(nv[q], d2) by {
                        assert forall|d2: nat| !#[trigger] self.within_hops(nv[q], d2) by {
                            if self.within_hops(nv[q], d2) {
                                self.lemma_within_stable(d as nat, d2, nv[q]);
                            }
                        }
                    }
                }
                break;
            }
            proof {
                assert forall|q: int| 0 <= q < nl implies
                    (#[trigger] dist@[q] matches Some(e) ==> e <= d + 1 && self.hop_depth(nv[q], e as nat)) by {
                    if d0[q] is None && dist@[q] is Some {
                        assert forall|d2: nat| d2 < d + 1 implies !#[trigger] self.within_hops(nv[q], d2) by {
                            if self.within_hops(nv[q], d2) {
                                self.lemma_within_mono(nv[q], d2, d as nat);
                            }
                        }
                    }
                }
            }
            d = d + 1;
        }
        let mut r: Vec<Option<usize>> = Vec::new();
        let mut j: usize = 0;
        while j < self.buses.len()
            invariant
                nv == ids_of(names@),
                nl == names@.len(),
                dist@.len() == nl,
                forall|i2: int| 0 <= i2 < self.n_buses() ==> nv.contains(#[trigger] self.bus_id(i2)),
                forall|q: int| 0 <= q < nl ==>
                    (#[trigger] dist@[q] matches Some(e) ==> self.hop_depth(nv[q], e as nat)),
                forall|q: int| 0 <= q < nl && #[trigger] dist@[q] is None
                    ==> forall|d2: nat| !#[trigger] self.within_hops(nv[q], d2),
                j <= self.n_buses(),
                r@.len() == j,
                forall|j2: int| 0 <= j2 < j ==>
                    (#[trigger] r@[j2] matches Some(e) ==> self.hop_depth(self.bus_id(j2), e as nat)),
                forall|j2: int| 0 <= j2 < j ==>
                    (#[trigger] r@[j2] is None ==> forall|d2: nat| !#[trigger] self.within_hops(self.bus_id(j2), d2)),
            decreases self.n_buses() - j,
        {
            match name_index(&names, &self.buses[j].id) {
                Some(q) => {
                    assert(nv[q as int] == self.bus_id(j as int));
                    r.push(dist[q]);
                },
                None => {
                    proof {
                        assert(nv.contains(self.bus_id(j as int)));
                    }
                    r.push(None);
                },
            }
            j = j + 1;
        }
        r
    }
}

} // verus!
