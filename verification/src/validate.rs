//! Structural validation of a network ("closed world"): duplicate ids,
//! references to undeclared buses, degenerate branches, missing substation
//! and disconnected buses are reported, each with a readable message.

use vstd::prelude::*;
use crate::topology::{Branch, Bus, Network};
use crate::reach::filled;
use crate::text::{decimal, decimal_text, quoted, quoted2};

verus! {

/// Set of structural problems found by the validation, one message each.
#[derive(Debug, Clone)]
pub struct TopologyError(pub Vec<String>);

pub open spec fn msg_dup_bus(id: Seq<char>) -> Seq<char> {
    "id de barramento duplicado: '"@ + id + "'"@
}

pub open spec fn msg_no_source() -> Seq<char> {
    "a rede não tem nenhuma subestação (kind: Substation)"@
}

pub open spec fn msg_unknown_node(label: Seq<char>, node: Seq<char>) -> Seq<char> {
    "ramo '"@ + label + "' referencia barramento inexistente '"@ + node + "'"@
}

pub open spec fn msg_repeated_node(label: Seq<char>, node: Seq<char>) -> Seq<char> {
    "ramo '"@ + label + "' referencia o nó '"@ + node + "' mais de uma vez"@
}

pub open spec fn msg_too_few_nodes(label: Seq<char>) -> Seq<char> {
    "ramo '"@ + label + "' precisa interligar ao menos dois nós distintos"@
}

pub open spec fn msg_dup_branch(id: Seq<char>) -> Seq<char> {
    "id de ramo duplicado: '"@ + id + "'"@
}

pub open spec fn msg_branch_id_collides(id: Seq<char>) -> Seq<char> {
    "id de ramo '"@ + id + "' colide com id de barramento/chave"@
}

pub open spec fn msg_disconnected(id: Seq<char>) -> Seq<char> {
    "barramento '"@ + id + "' está desconectado do restante da rede"@
}

/// Text of the error: a header with the number of problems, then one line
/// per problem.
pub open spec fn topology_error_text(problems: Seq<Seq<char>>) -> Seq<char> {
    "topologia inválida ("@ + decimal_text(problems.len()) + " problema(s)):\n"@ + problem_lines(problems)
}

pub open spec fn problem_lines(problems: Seq<Seq<char>>) -> Seq<char>
    decreases problems.len(),
{
    if problems.len() == 0 {
        Seq::empty()
    } else {
        problem_lines(problems.drop_last()) + "  - "@ + problems.last() + "\n"@
    }
}

impl TopologyError {
    /// Readable text of the error.
    pub fn message(&self) -> (r: String)
        ensures
            r@ == topology_error_text(self.0@.map_values(|s: String| s@)),
    {
        let ghost ps = self.0@.map_values(|s: String| s@);
        let mut r = String::from_str("topologia inválida (");
        let count = decimal(self.0.len());
        r.append(count.as_str());
        r.append(" problema(s)):\n");
        let ghost head = r@;
        let mut i: usize = 0;
        while i < self.0.len()
            invariant
                i <= self.0@.len(),
                ps == self.0@.map_values(|s: String| s@),
                r@ == head + problem_lines(ps.take(i as int)),
            decreases self.0@.len() - i,
        {
            assert(ps.take(i + 1).drop_last() =~= ps.take(i as int));
            r.append("  - ");
            r.append(self.0[i].as_str());
            r.append("\n");
            i = i + 1;
        }
        assert(ps.take(ps.len() as int) =~= ps);
        r
    }
}

impl Network {
    /// Problems with repeated bus ids among the first `c` buses.
    pub open spec fn dup_bus_problems(self, c: int) -> Seq<Seq<char>>
        decreases c,
    {
        if c <= 0 {
            Seq::empty()
        } else {
            let rest = self.dup_bus_problems(c - 1);
            if exists|j: int| 0 <= j < c - 1 && #[trigger] self.bus_id(j) == self.bus_id(c - 1) {
                rest.push(msg_dup_bus(self.bus_id(c - 1)))
            } else {
                rest
            }
        }
    }

    pub open spec fn has_source(self) -> bool {
        exists|i: int| 0 <= i < self.n_buses() && self.buses@[i].spec_is_source()
    }

    /// Problems with the first `c` terminals of branch `k`.
    pub open spec fn node_problems(self, k: int, c: int) -> Seq<Seq<char>>
        decreases c,
    {
        if c <= 0 {
            Seq::empty()
        } else {
            let nodes = self.branches@[k].node_ids();
            let label = self.branches@[k].spec_label();
            let node = nodes[c - 1];
            let rest = self.node_problems(k, c - 1);
            let rest2 = if self.declares(node) { rest } else { rest.push(msg_unknown_node(label, node)) };
            if nodes.take(c - 1).contains(node) {
                rest2.push(msg_repeated_node(label, node))
            } else {
                rest2
            }
        }
    }

    /// Branch `k` joins at least two distinct nodes.
    pub open spec fn joins_two(self, k: int) -> bool {
        exists|t1: int, t2: int|
            0 <= t1 < self.branches@[k].node_ids().len() && 0 <= t2 < self.branches@[k].node_ids().len()
                && #[trigger] self.branches@[k].node_ids()[t1] != #[trigger] self.branches@[k].node_ids()[t2]
    }

    /// Problems with the id of branch `k`.
    pub open spec fn branch_id_problems(self, k: int) -> Seq<Seq<char>> {
        match self.branches@[k].id {
            None => Seq::empty(),
            Some(s) => {
                let a: Seq<Seq<char>> = if exists|k2: int| 0 <= k2 < k && self.branch_has_id(k2, s@) {
                    seq![msg_dup_branch(s@)]
                } else {
                    Seq::empty()
                };
                if self.declares(s@) {
                    a.push(msg_branch_id_collides(s@))
                } else {
                    a
                }
            },
        }
    }

    /// Problems of branch `k`.
    pub open spec fn one_branch_problems(self, k: int) -> Seq<Seq<char>> {
        let nodes_part = self.node_problems(k, self.branches@[k].node_ids().len() as int);
        let few: Seq<Seq<char>> = if self.joins_two(k) {
            Seq::empty()
        } else {
            seq![msg_too_few_nodes(self.branches@[k].spec_label())]
        };
        nodes_part + few + self.branch_id_problems(k)
    }

    /// Problems of the first `c` branches.
    pub open spec fn branch_problems(self, c: int) -> Seq<Seq<char>>
        decreases c,
    {
        if c <= 0 {
            Seq::empty()
        } else {
            self.branch_problems(c - 1) + self.one_branch_problems(c - 1)
        }
    }

    /// Bus `i` is physically connected to the first bus (switch states are
    /// ignored: the existing network must be one piece even with ties open).
    pub open spec fn connected_to_first(self, i: int) -> bool {
        let all_b = Seq::new(self.branches@.len(), |x: int| true);
        let all_n = Seq::new(self.buses@.len(), |x: int| true);
        exists|j: int| 0 <= j < self.n_buses() && self.bus_id(j) == self.bus_id(i)
            && #[trigger] self.reached_from_id(all_b, all_n, self.bus_id(0), j)
    }

    /// Problems with disconnected buses among the first `c`.
    pub open spec fn disconnected_problems(self, c: int) -> Seq<Seq<char>>
        decreases c,
    {
        if c <= 0 {
            Seq::empty()
        } else {
            let rest = self.disconnected_problems(c - 1);
            if self.connected_to_first(c - 1) {
                rest
            } else {
                rest.push(msg_disconnected(self.bus_id(c - 1)))
            }
        }
    }

    /// Every problem found by the validation, in the order it reports them.
    pub open spec fn problems(self) -> Seq<Seq<char>> {
        let no_source: Seq<Seq<char>> = if self.has_source() { Seq::empty() } else { seq![msg_no_source()] };
        self.dup_bus_problems(self.n_buses()) + no_source + self.branch_problems(self.n_branches())
            + self.disconnected_problems(self.n_buses())
    }

    /// Structural validation. `Err` holds the list of problems found.
    pub fn validate(&self) -> (r: Result<(), TopologyError>)
        ensures
            match r {
                Ok(()) => self.problems().len() == 0,
                Err(e) => e.0@.map_values(|s: String| s@) == self.problems() && self.problems().len() > 0,
            },
    {
        let n = self.buses.len();
        let m = self.branches.len();
        let mut problems: Vec<String> = Vec::new();

        // Repeated bus ids.
        let mut i: usize = 0;
        while i < n
            invariant
                n == self.n_buses(),
                i <= n,
                problems@.map_values(|s: String| s@) == self.dup_bus_problems(i as int),
            decreases n - i,
        {
            let mut j: usize = 0;
            let mut seen = false;
            while j < i
                invariant
                    n == self.n_buses(),
                    j <= i,
                    i < n,
                    seen <==> exists|j2: int| 0 <= j2 < j && self.bus_id(j2) == self.bus_id(i as int),
                decreases i - j,
            {
                if self.buses[j].id == self.buses[i].id {
                    assert(self.bus_id(j as int) == self.bus_id(i as int));
                    seen = true;
                }
                j = j + 1;
            }
            if seen {
                let msg = quoted("id de barramento duplicado: '", self.buses[i].id.as_str(), "'");
                problems.push(msg);
            }
            assert(problems@.map_values(|s: String| s@) =~= self.dup_bus_problems(i + 1));
            i = i + 1;
        }

        // At least one substation.
        let mut has_source = false;
        let mut i: usize = 0;
        while i < n
            invariant
                n == self.n_buses(),
                i <= n,
                has_source <==> exists|i2: int| 0 <= i2 < i && self.buses@[i2].spec_is_source(),
            decreases n - i,
        {
            if self.buses[i].is_source() {
                has_source = true;
            }
            i = i + 1;
        }
        let ghost before_branches = problems@.map_values(|s: String| s@);
        if !has_source {
            problems.push(String::from_str("a rede não tem nenhuma subestação (kind: Substation)"));
        }
        let ghost no_source: Seq<Seq<char>> = if self.has_source() { Seq::empty() } else { seq![msg_no_source()] };
        assert(problems@.map_values(|s: String| s@) =~= before_branches + no_source);
        let ghost head = problems@.map_values(|s: String| s@);

        // Branches.
        let mut k: usize = 0;
        while k < m
            invariant
                n == self.n_buses(),
                m == self.n_branches(),
                k <= m,
                problems@.map_values(|s: String| s@) == head + self.branch_problems(k as int),
            decreases m - k,
        {
            let ghost before = problems@.map_values(|s: String| s@);
            let branch = &self.branches[k];
            let label = branch.label();
            let nodes = &branch.nodes;
            let ghost nids = branch.node_ids();
            // Terminals.
            let mut t: usize = 0;
            let mut distinct = false;
            while t < nodes.len()
                invariant
                    n == self.n_buses(),
                    k < m,
                    m == self.n_branches(),
                    *branch == self.branches@[k as int],
                    nodes@ == branch.nodes@,
                    nids == branch.node_ids(),
                    label@ == branch.spec_label(),
                    t <= nodes@.len(),
                    problems@.map_values(|s: String| s@) == before + self.node_problems(k as int, t as int),
                    distinct <==> exists|t1: int, t2: int| 0 <= t1 < t && 0 <= t2 < t && #[trigger] nids[t1] != #[trigger] nids[t2],
                decreases nodes@.len() - t,
            {
                let ghost p0 = problems@.map_values(|s: String| s@);
                assert(nids[t as int] == nodes@[t as int]@);
                let declared = match self.bus_index(nodes[t].as_str()) {
                    Some(j) => {
                        assert(self.bus_id(j as int) == nids[t as int]);
                        true
                    },
                    None => false,
                };
                assert(declared == self.declares(nids[t as int]));
                if !declared {
                    let msg = quoted2("ramo '", label.as_str(), "' referencia barramento inexistente '", nodes[t].as_str(), "'");
                    problems.push(msg);
                }
                let ghost p1 = problems@.map_values(|s: String| s@);
                assert(p1 =~= if self.declares(nids[t as int]) { p0 } else {
                    p0.push(msg_unknown_node(branch.spec_label(), nids[t as int])) });
                let mut u: usize = 0;
                let mut repeated = false;
                while u < t
                    invariant
                        t < nodes@.len(),
                        u <= t,
                        nids == branch.node_ids(),
                        nodes@ == branch.nodes@,
                        repeated <==> exists|u2: int| 0 <= u2 < u && nids[u2] == nids[t as int],
                    decreases t - u,
                {
                    if nodes[u] == nodes[t] {
                        assert(nids[u as int] == nids[t as int]);
                        repeated = true;
                    }
                    u = u + 1;
                }
                proof {
                    assert(repeated <==> nids.take(t as int).contains(nids[t as int])) by {
                        if repeated {
                            let u2 = choose|u2: int| 0 <= u2 < t && nids[u2] == nids[t as int];
                            assert(nids.take(t as int)[u2] == nids[t as int]);
                        }
                        if nids.take(t as int).contains(nids[t as int]) {
                            let u2 = choose|u2: int| 0 <= u2 < t && nids.take(t as int)[u2] == nids[t as int];
                            assert(nids[u2] == nids[t as int]);
                        }
                    }
                }
                if repeated {
                    let msg = quoted2("ramo '", label.as_str(), "' referencia o nó '", nodes[t].as_str(), "' mais de uma vez");
                    problems.push(msg);
                }
                let ghost p2 = problems@.map_values(|s: String| s@);
                assert(p2 =~= if nids.take(t as int).contains(nids[t as int]) {
                    p1.push(msg_repeated_node(branch.spec_label(), nids[t as int])) } else { p1 });
                if t > 0 && !(nodes[t] == nodes[0]) {
                    assert(nids[t as int] != nids[0]);
                    distinct = true;
                }
                proof {
                    assert(problems@.map_values(|s: String| s@) =~= before + self.node_problems(k as int, t + 1));
                    if distinct {
                        if !(exists|t1: int, t2: int| 0 <= t1 < t && 0 <= t2 < t && #[trigger] nids[t1] != #[trigger] nids[t2]) {
                            assert(nids[t as int] != nids[0]);
                        }
                    }
                    if exists|t1: int, t2: int| 0 <= t1 < t + 1 && 0 <= t2 < t + 1 && #[trigger] nids[t1] != #[trigger] nids[t2] {
                        let (t1, t2) = choose|t1: int, t2: int| 0 <= t1 < t + 1 && 0 <= t2 < t + 1 && #[trigger] nids[t1] != #[trigger] nids[t2];
                        if !distinct {
                            assert(forall|a: int, b: int| 0 <= a < t && 0 <= b < t ==> #[trigger] nids[a] == #[trigger] nids[b]);
                            if t > 0 {
                                assert(nids[t as int] == nids[0]);
                                assert(nids[t1] == nids[0]);
                                assert(nids[t2] == nids[0]);
                            }
                        }
                    }
                }
                t = t + 1;
            }
            let ghost after_nodes = problems@.map_values(|s: String| s@);
            if !distinct {
                let msg = quoted("ramo '", label.as_str(), "' precisa interligar ao menos dois nós distintos");
                problems.push(msg);
            }
            let ghost after_few = problems@.map_values(|s: String| s@);
            assert(distinct == self.joins_two(k as int));
            match &branch.id {
                Some(id) => {
                    let mut k2: usize = 0;
                    let mut dup = false;
                    while k2 < k
                        invariant
                            k < m,
                            m == self.n_branches(),
                            k2 <= k,
                            dup <==> exists|k3: int| 0 <= k3 < k2 && self.branch_has_id(k3, id@),
                        decreases k - k2,
                    {
                        match &self.branches[k2].id {
                            Some(other) => {
                                if *other == *id {
                                    assert(self.branch_has_id(k2 as int, id@));
                                    dup = true;
                                }
                            },
                            None => {},
                        }
                        k2 = k2 + 1;
                    }
                    if dup {
                        let msg = quoted("id de ramo duplicado: '", id.as_str(), "'");
                        problems.push(msg);
                    }
                    if self.bus_index(id.as_str()).is_some() {
                        let msg = quoted("id de ramo '", id.as_str(), "' colide com id de barramento/chave");
                        problems.push(msg);
                    }
                    assert(problems@.map_values(|s: String| s@) =~= after_few + self.branch_id_problems(k as int));
                },
                None => {
                    assert(problems@.map_values(|s: String| s@) =~= after_few + self.branch_id_problems(k as int));
                },
            }
            proof {
                let np = self.node_problems(k as int, nids.len() as int);
                let few: Seq<Seq<char>> = if self.joins_two(k as int) { Seq::empty() } else {
                    seq![msg_too_few_nodes(self.branches@[k as int].spec_label())] };
                assert(after_nodes =~= before + np);
                assert(after_few =~= after_nodes + few);
                assert(self.one_branch_problems(k as int) =~= np + few + self.branch_id_problems(k as int));
                assert(self.branch_problems(k + 1) =~= self.branch_problems(k as int) + self.one_branch_problems(k as int));
            }
            assert(problems@.map_values(|s: String| s@) =~= head + self.branch_problems(k + 1));
            k = k + 1;
        }

        // Physical connectivity.
        let ghost before_conn = problems@.map_values(|s: String| s@);
        if n > 0 {
            let all_b = filled(m, true);
            let all_n = filled(n, true);
            let reach = self.reachable_from_with(self.buses[0].id.as_str(), &all_b, &all_n);
            let ghost ab = Seq::new(self.branches@.len(), |x: int| true);
            let ghost an = Seq::new(self.buses@.len(), |x: int| true);
            assert(all_b@ =~= ab);
            assert(all_n@ =~= an);
            let mut i: usize = 0;
            while i < n
                invariant
                    n == self.n_buses(),
                    m == self.n_branches(),
                    n > 0,
                    i <= n,
                    reach@.len() == n,
                    ab == Seq::new(self.branches@.len(), |x: int| true),
                    an == Seq::new(self.buses@.len(), |x: int| true),
                    forall|j: int| 0 <= j < n ==> (reach@[j] <==> self.reached_from_id(ab, an, self.bus_id(0), j)),
                    problems@.map_values(|s: String| s@) == before_conn + self.disconnected_problems(i as int),
                decreases n - i,
            {
                let mut j: usize = 0;
                let mut found = false;
                while j < n
                    invariant
                        n == self.n_buses(),
                        i < n,
                        j <= n,
                        reach@.len() == n,
                        found <==> exists|j2: int| 0 <= j2 < j && reach@[j2] && self.bus_id(j2) == self.bus_id(i as int),
                    decreases n - j,
                {
                    if reach[j] && self.buses[j].id == self.buses[i].id {
                        assert(self.bus_id(j as int) == self.bus_id(i as int));
                        found = true;
                    }
                    j = j + 1;
                }
                proof {
                    assert(found == self.connected_to_first(i as int)) by {
                        if found {
                            let j2 = choose|j2: int| 0 <= j2 < n && reach@[j2] && self.bus_id(j2) == self.bus_id(i as int);
                            assert(self.reached_from_id(ab, an, self.bus_id(0), j2));
                        }
                        if self.connected_to_first(i as int) {
                            let j2 = choose|j2: int| 0 <= j2 < self.n_buses() && self.bus_id(j2) == self.bus_id(i as int)
                                && #[trigger] self.reached_from_id(ab, an, self.bus_id(0), j2);
                            assert(reach@[j2]);
                        }
                    }
                }
                let ghost q0 = problems@.map_values(|s: String| s@);
                if !found {
                    let msg = quoted("barramento '", self.buses[i].id.as_str(), "' está desconectado do restante da rede");
                    problems.push(msg);
                }
                assert(problems@.map_values(|s: String| s@) =~= if found { q0 } else {
                    q0.push(msg_disconnected(self.bus_id(i as int))) });
                assert(self.disconnected_problems(i + 1) =~= if self.connected_to_first(i as int) {
                    self.disconnected_problems(i as int) } else {
                    self.disconnected_problems(i as int).push(msg_disconnected(self.bus_id(i as int))) });
                assert(problems@.map_values(|s: String| s@) =~= before_conn + self.disconnected_problems(i + 1));
                i = i + 1;
            }
        }
        proof {
            if n == 0 {
                assert(self.disconnected_problems(0) =~= Seq::<Seq<char>>::empty());
            }
            assert(problems@.map_values(|s: String| s@) =~= self.problems());
        }
        if problems.len() == 0 {
            Ok(())
        } else {
            Err(TopologyError(problems))
        }
    }
}


impl Network {
    /// The structural rules: bus ids are unique, there is a substation,
    /// branches reference declared buses, each only once, and join at least
    /// two distinct buses, branch ids are unique and differ from bus ids, and
    /// every bus is physically connected to the rest.
    pub open spec fn well_formed(self) -> bool {
        &&& forall|i: int, j: int| 0 <= i < j < self.n_buses() ==> #[trigger] self.bus_id(i) != #[trigger] self.bus_id(j)
        &&& self.has_source()
        &&& forall|k: int, t: int| 0 <= k < self.n_branches() && 0 <= t < self.branches@[k].node_ids().len()
            ==> self.declares(#[trigger] self.branches@[k].node_ids()[t])
        &&& forall|k: int| 0 <= k < self.n_branches() ==> (#[trigger] self.branches@[k]).node_ids().no_duplicates()
        &&& forall|k: int| 0 <= k < self.n_branches() ==> #[trigger] self.joins_two(k)
        &&& forall|k1: int, k2: int| 0 <= k1 < k2 < self.n_branches() && self.branches@[k2].id is Some
            ==> !#[trigger] self.branch_has_id(k1, (#[trigger] self.branches@[k2]).id->0@)
        &&& forall|k: int| 0 <= k < self.n_branches() && (#[trigger] self.branches@[k]).id is Some
            ==> !self.declares(self.branches@[k].id->0@)
        &&& forall|i: int| 0 <= i < self.n_buses() ==> #[trigger] self.connected_to_first(i)
    }

    proof fn lemma_dup_bus_none(self, c: int)
        requires
            0 <= c <= self.n_buses(),
        ensures
            self.dup_bus_problems(c).len() == 0 <==> forall|i: int, j: int| 0 <= i < j < c ==> #[trigger] self.bus_id(i) != #[trigger] self.bus_id(j),
        decreases c,
    {
        if c > 0 {
            self.lemma_dup_bus_none(c - 1);
            if exists|j: int| 0 <= j < c - 1 && #[trigger] self.bus_id(j) == self.bus_id(c - 1) {
                let j = choose|j: int| 0 <= j < c - 1 && #[trigger] self.bus_id(j) == self.bus_id(c - 1);
                assert(self.bus_id(j) == self.bus_id(c - 1));
            } else {
                if forall|i: int, j: int| 0 <= i < j < c - 1 ==> #[trigger] self.bus_id(i) != #[trigger] self.bus_id(j) {
                    assert forall|i: int, j: int| 0 <= i < j < c implies #[trigger] self.bus_id(i) != #[trigger] self.bus_id(j) by {
                        if j == c - 1 {
                            assert(!(0 <= i < c - 1 && self.bus_id(i) == self.bus_id(c - 1)));
                        }
                    }
                }
            }
        }
    }

    proof fn lemma_node_none(self, k: int, c: int)
        requires
            0 <= k < self.n_branches(),
            0 <= c <= self.branches@[k].node_ids().len(),
        ensures
            self.node_problems(k, c).len() == 0 <==> forall|t: int| 0 <= t < c ==>
                self.declares(#[trigger] self.branches@[k].node_ids()[t])
                    && !self.branches@[k].node_ids().take(t).contains(self.branches@[k].node_ids()[t]),
        decreases c,
    {
        if c > 0 {
            self.lemma_node_none(k, c - 1);
        }
    }

    proof fn lemma_no_dup_iff(s: Seq<Seq<char>>)
        ensures
            s.no_duplicates() <==> forall|t: int| 0 <= t < s.len() ==> !s.take(t).contains(#[trigger] s[t]),
    {
        if s.no_duplicates() {
            assert forall|t: int| 0 <= t < s.len() implies !s.take(t).contains(#[trigger] s[t]) by {
                if s.take(t).contains(s[t]) {
                    let u = choose|u: int| 0 <= u < t && s.take(t)[u] == s[t];
                    assert(s[u] == s[t]);
                }
            }
        }
        if forall|t: int| 0 <= t < s.len() ==> !s.take(t).contains(#[trigger] s[t]) {
            assert forall|a: int, b: int| 0 <= a < s.len() && 0 <= b < s.len() && a != b implies s[a] != s[b] by {
                if a < b {
                    assert(s.take(b)[a] == s[a]);
                    assert(!s.take(b).contains(s[b]));
                } else {
                    assert(s.take(a)[b] == s[b]);
                    assert(!s.take(a).contains(s[a]));
                }
            }
        }
    }

    proof fn lemma_branch_none(self, c: int)
        requires
            0 <= c <= self.n_branches(),
        ensures
            self.branch_problems(c).len() == 0 <==> forall|k: int| 0 <= k < c ==> (#[trigger] self.one_branch_problems(k)).len() == 0,
        decreases c,
    {
        if c > 0 {
            self.lemma_branch_none(c - 1);
        }
    }

    proof fn lemma_disconnected_none(self, c: int)
        requires
            0 <= c <= self.n_buses(),
        ensures
            self.disconnected_problems(c).len() == 0 <==> forall|i: int| 0 <= i < c ==> #[trigger] self.connected_to_first(i),
        decreases c,
    {
        if c > 0 {
            self.lemma_disconnected_none(c - 1);
        }
    }

    proof fn lemma_one_branch_none(self, k: int)
        requires
            0 <= k < self.n_branches(),
        ensures
            self.one_branch_problems(k).len() == 0 <==> {
                &&& forall|t: int| 0 <= t < self.branches@[k].node_ids().len() ==> self.declares(#[trigger] self.branches@[k].node_ids()[t])
                &&& self.branches@[k].node_ids().no_duplicates()
                &&& self.joins_two(k)
                &&& self.branches@[k].id is Some ==> !(exists|k2: int| 0 <= k2 < k && self.branch_has_id(k2, self.branches@[k].id->0@))
                &&& self.branches@[k].id is Some ==> !self.declares(self.branches@[k].id->0@)
            },
    {
        let nids = self.branches@[k].node_ids();
        self.lemma_node_none(k, nids.len() as int);
        Self::lemma_no_dup_iff(nids);
    }

    /// Validation accepts exactly the well-formed networks: `validate`
    /// returns `Ok` if and only if every structural rule holds.
    pub proof fn lemma_validate_accepts_exactly(self)
        ensures
            self.problems().len() == 0 <==> self.well_formed(),
    {
        self.lemma_dup_bus_none(self.n_buses());
        self.lemma_branch_none(self.n_branches());
        self.lemma_disconnected_none(self.n_buses());
        assert forall|k: int| 0 <= k < self.n_branches() implies
            #[trigger] self.one_branch_problems(k).len() == 0 <==> {
                &&& forall|t: int| 0 <= t < self.branches@[k].node_ids().len() ==> self.declares(#[trigger] self.branches@[k].node_ids()[t])
                &&& self.branches@[k].node_ids().no_duplicates()
                &&& self.joins_two(k)
                &&& self.branches@[k].id is Some ==> !(exists|k2: int| 0 <= k2 < k && self.branch_has_id(k2, self.branches@[k].id->0@))
                &&& self.branches@[k].id is Some ==> !self.declares(self.branches@[k].id->0@)
            } by {
            self.lemma_one_branch_none(k);
        }
        if self.well_formed() {
            assert forall|k: int| 0 <= k < self.n_branches() implies (#[trigger] self.one_branch_problems(k)).len() == 0 by {
                assert(self.branches@[k].node_ids().no_duplicates());
                assert(self.joins_two(k));
                if self.branches@[k].id is Some {
                    if exists|k2: int| 0 <= k2 < k && self.branch_has_id(k2, self.branches@[k].id->0@) {
                        let k2 = choose|k2: int| 0 <= k2 < k && self.branch_has_id(k2, self.branches@[k].id->0@);
                        assert(!self.branch_has_id(k2, self.branches@[k].id->0@));
                    }
                }
            }
        }
        if self.problems().len() == 0 {
            assert forall|k1: int, k2: int| 0 <= k1 < k2 < self.n_branches() && self.branches@[k2].id is Some
                implies !#[trigger] self.branch_has_id(k1, (#[trigger] self.branches@[k2]).id->0@) by {
                assert(self.one_branch_problems(k2).len() == 0);
            }
            assert forall|k: int, t: int| 0 <= k < self.n_branches() && 0 <= t < self.branches@[k].node_ids().len()
                implies self.declares(#[trigger] self.branches@[k].node_ids()[t]) by {
                assert(self.one_branch_problems(k).len() == 0);
            }
            assert forall|k: int| 0 <= k < self.n_branches() implies (#[trigger] self.branches@[k]).node_ids().no_duplicates() by {
                assert(self.one_branch_problems(k).len() == 0);
            }
            assert forall|k: int| 0 <= k < self.n_branches() implies #[trigger] self.joins_two(k) by {
                assert(self.one_branch_problems(k).len() == 0);
            }
            assert forall|k: int| 0 <= k < self.n_branches() && (#[trigger] self.branches@[k]).id is Some
                implies !self.declares(self.branches@[k].id->0@) by {
                assert(self.one_branch_problems(k).len() == 0);
            }
        }
    }

    /// `net2` is this network with, at most, other normal states of its
    /// switches: same buses in order (same ids, same kinds but for the
    /// state of a switch) and same branches.
    pub open spec fn same_but_switch_states(self, net2: Network) -> bool {
        &&& net2.branches@ == self.branches@
        &&& net2.buses@.len() == self.buses@.len()
        &&& forall|i: int| 0 <= i < self.buses@.len() ==> {
            &&& (#[trigger] net2.buses@[i]).id@ == self.buses@[i].id@
            &&& (net2.buses@[i].kind == self.buses@[i].kind
                || (net2.buses@[i].kind is Switch && self.buses@[i].kind is Switch))
        }
    }

    proof fn lemma_same_dup_bus(self, net2: Network, c: int)
        requires
            self.same_but_switch_states(net2),
            c <= self.n_buses(),
        ensures
            net2.dup_bus_problems(c) == self.dup_bus_problems(c),
        decreases c,
    {
        if c > 0 {
            self.lemma_same_dup_bus(net2, c - 1);
            assert(net2.bus_id(c - 1) == self.bus_id(c - 1));
            assert((exists|j: int| 0 <= j < c - 1 && #[trigger] net2.bus_id(j) == net2.bus_id(c - 1))
                == (exists|j: int| 0 <= j < c - 1 && #[trigger] self.bus_id(j) == self.bus_id(c - 1))) by {
                if exists|j: int| 0 <= j < c - 1 && #[trigger] net2.bus_id(j) == net2.bus_id(c - 1) {
                    let j = choose|j: int| 0 <= j < c - 1 && #[trigger] net2.bus_id(j) == net2.bus_id(c - 1);
                    assert(self.bus_id(j) == net2.bus_id(j));
                }
                if exists|j: int| 0 <= j < c - 1 && #[trigger] self.bus_id(j) == self.bus_id(c - 1) {
                    let j = choose|j: int| 0 <= j < c - 1 && #[trigger] self.bus_id(j) == self.bus_id(c - 1);
                    assert(self.bus_id(j) == net2.bus_id(j));
                }
            }
        }
    }

    proof fn lemma_same_declares(self, net2: Network)
        requires
            self.same_but_switch_states(net2),
        ensures
            forall|x: Seq<char>| #[trigger] net2.declares(x) == self.declares(x),
            forall|i: int| 0 <= i < self.n_buses() ==> #[trigger] net2.bus_id(i) == self.bus_id(i),
            forall|i: int| #[trigger] net2.is_first_bus(i) == self.is_first_bus(i),
    {
        assert forall|i: int| 0 <= i < self.n_buses() implies #[trigger] net2.bus_id(i) == self.bus_id(i) by {
            assert(net2.buses@[i].id@ == self.buses@[i].id@);
        }
        assert forall|x: Seq<char>| #[trigger] net2.declares(x) == self.declares(x) by {
            if net2.declares(x) {
                let i = choose|i: int| 0 <= i < net2.n_buses() && net2.bus_id(i) == x;
                assert(self.bus_id(i) == x);
            }
            if self.declares(x) {
                let i = choose|i: int| 0 <= i < self.n_buses() && self.bus_id(i) == x;
                assert(net2.bus_id(i) == x);
            }
        }
        assert forall|i: int| #[trigger] net2.is_first_bus(i) == self.is_first_bus(i) by {
            if 0 <= i < self.n_buses() {
                assert forall|j: int| 0 <= j < i implies (net2.bus_id(j) != net2.bus_id(i)) == (self.bus_id(j) != self.bus_id(i)) by {
                    assert(net2.bus_id(j) == self.bus_id(j));
                }
            }
        }
    }

    proof fn lemma_same_node_problems(self, net2: Network, k: int, c: int)
        requires
            self.same_but_switch_states(net2),
            forall|x: Seq<char>| #[trigger] net2.declares(x) == self.declares(x),
            0 <= k < self.n_branches(),
        ensures
            net2.node_problems(k, c) == self.node_problems(k, c),
        decreases c,
    {
        if c > 0 {
            self.lemma_same_node_problems(net2, k, c - 1);
        }
    }

    proof fn lemma_same_branch_problems(self, net2: Network, c: int)
        requires
            self.same_but_switch_states(net2),
            forall|x: Seq<char>| #[trigger] net2.declares(x) == self.declares(x),
            c <= self.n_branches(),
        ensures
            net2.branch_problems(c) == self.branch_problems(c),
        decreases c,
    {
        if c > 0 {
            self.lemma_same_branch_problems(net2, c - 1);
            let k = c - 1;
            self.lemma_same_node_problems(net2, k, self.branches@[k].node_ids().len() as int);
            assert(net2.joins_two(k) == self.joins_two(k));
            assert forall|k2: int, x: Seq<char>| #[trigger] net2.branch_has_id(k2, x) == self.branch_has_id(k2, x) by {}
            if let Some(sid) = self.branches@[k].id {
                assert((exists|k2: int| 0 <= k2 < k && net2.branch_has_id(k2, sid@))
                    == (exists|k2: int| 0 <= k2 < k && self.branch_has_id(k2, sid@))) by {
                    if exists|k2: int| 0 <= k2 < k && net2.branch_has_id(k2, sid@) {
                        let k2 = choose|k2: int| 0 <= k2 < k && net2.branch_has_id(k2, sid@);
                        assert(self.branch_has_id(k2, sid@));
                    }
                    if exists|k2: int| 0 <= k2 < k && self.branch_has_id(k2, sid@) {
                        let k2 = choose|k2: int| 0 <= k2 < k && self.branch_has_id(k2, sid@);
                        assert(net2.branch_has_id(k2, sid@));
                    }
                }
                assert(net2.declares(sid@) == self.declares(sid@));
            }
            assert(net2.branch_id_problems(k) == self.branch_id_problems(k));
            assert(net2.one_branch_problems(k) == self.one_branch_problems(k));
        }
    }

    proof fn lemma_same_reach(self, net2: Network)
        requires
            self.same_but_switch_states(net2),
            forall|i: int| 0 <= i < self.n_buses() ==> #[trigger] net2.bus_id(i) == self.bus_id(i),
            forall|i: int| #[trigger] net2.is_first_bus(i) == self.is_first_bus(i),
        ensures
            forall|cb: Seq<bool>, cn: Seq<bool>, id: Seq<char>, j: int|
                #[trigger] net2.reached_from_id(cb, cn, id, j) == self.reached_from_id(cb, cn, id, j),
    {
        assert forall|k: int, i: int, j: int| #[trigger] net2.links(k, i, j) == self.links(k, i, j) by {}
        assert forall|cb: Seq<bool>, cn: Seq<bool>, p: Seq<int>| #[trigger] net2.is_path(cb, cn, p) == self.is_path(cb, cn, p) by {
            assert forall|t: int| 0 <= t < p.len() - 1 implies
                #[trigger] net2.path_step_ok(cb, cn, p, t) == self.path_step_ok(cb, cn, p, t) by {
                if net2.step(cb, cn, p[t], p[t + 1]) {
                    let k = choose|k: int| #[trigger] net2.links(k, p[t], p[t + 1]) && cb[k];
                    assert(self.links(k, p[t], p[t + 1]));
                }
                if self.step(cb, cn, p[t], p[t + 1]) {
                    let k = choose|k: int| #[trigger] self.links(k, p[t], p[t + 1]) && cb[k];
                    assert(net2.links(k, p[t], p[t + 1]));
                }
            }
            if net2.is_path(cb, cn, p) {
                assert forall|t: int| 0 <= t < p.len() - 1 implies #[trigger] self.path_step_ok(cb, cn, p, t) by {
                    assert(net2.path_step_ok(cb, cn, p, t));
                }
            }
            if self.is_path(cb, cn, p) {
                assert forall|t: int| 0 <= t < p.len() - 1 implies #[trigger] net2.path_step_ok(cb, cn, p, t) by {
                    assert(self.path_step_ok(cb, cn, p, t));
                }
            }
        }
        assert forall|cb: Seq<bool>, cn: Seq<bool>, id: Seq<char>, j: int|
            #[trigger] net2.reached_from_id(cb, cn, id, j) == self.reached_from_id(cb, cn, id, j) by {
            if net2.reached_from_id(cb, cn, id, j) {
                let s = choose|s: int| #[trigger] net2.is_first_bus(s) && net2.bus_id(s) == id && net2.reaches(cb, cn, s, j);
                let p = choose|p: Seq<int>| #[trigger] net2.is_path(cb, cn, p) && p[0] == s && p.last() == j;
                assert(self.is_path(cb, cn, p));
                assert(self.is_first_bus(s) && self.bus_id(s) == id && self.reaches(cb, cn, s, j));
            }
            if self.reached_from_id(cb, cn, id, j) {
                let s = choose|s: int| #[trigger] self.is_first_bus(s) && self.bus_id(s) == id && self.reaches(cb, cn, s, j);
                let p = choose|p: Seq<int>| #[trigger] self.is_path(cb, cn, p) && p[0] == s && p.last() == j;
                assert(net2.is_path(cb, cn, p));
                assert(net2.is_first_bus(s) && net2.bus_id(s) == id && net2.reaches(cb, cn, s, j));
            }
        }
    }

    proof fn lemma_same_disconnected(self, net2: Network, c: int)
        requires
            self.same_but_switch_states(net2),
            forall|i: int| 0 <= i < self.n_buses() ==> #[trigger] net2.bus_id(i) == self.bus_id(i),
            forall|cb: Seq<bool>, cn: Seq<bool>, id: Seq<char>, j: int|
                #[trigger] net2.reached_from_id(cb, cn, id, j) == self.reached_from_id(cb, cn, id, j),
            c <= self.n_buses(),
        ensures
            net2.disconnected_problems(c) == self.disconnected_problems(c),
        decreases c,
    {
        if c > 0 {
            self.lemma_same_disconnected(net2, c - 1);
            let i = c - 1;
            let all_b = Seq::new(self.branches@.len(), |x: int| true);
            let all_n = Seq::new(self.buses@.len(), |x: int| true);
            assert(Seq::new(net2.branches@.len(), |x: int| true) == all_b);
            assert(Seq::new(net2.buses@.len(), |x: int| true) =~= all_n);
            if self.n_buses() > 0 {
                assert(net2.bus_id(0) == self.bus_id(0));
            }
            assert(net2.connected_to_first(i) == self.connected_to_first(i)) by {
                if net2.connected_to_first(i) {
                    let j = choose|j: int| 0 <= j < net2.n_buses() && net2.bus_id(j) == net2.bus_id(i)
                        && #[trigger] net2.reached_from_id(all_b, all_n, net2.bus_id(0), j);
                    assert(self.reached_from_id(all_b, all_n, self.bus_id(0), j));
                }
                if self.connected_to_first(i) {
                    let j = choose|j: int| 0 <= j < self.n_buses() && self.bus_id(j) == self.bus_id(i)
                        && #[trigger] self.reached_from_id(all_b, all_n, self.bus_id(0), j);
                    assert(net2.reached_from_id(all_b, all_n, net2.bus_id(0), j));
                }
            }
        }
    }

    /// Validation ignores the normal state of switches: two networks that
    /// differ only in it have the same problems, so `validate` accepts both
    /// or rejects both with the same messages (a normally open tie never
    /// counts as a disconnection).
    pub proof fn lemma_validate_ignores_switch_states(self, net2: Network)
        requires
            self.same_but_switch_states(net2),
        ensures
            net2.problems() == self.problems(),
    {
        self.lemma_same_declares(net2);
        self.lemma_same_dup_bus(net2, self.n_buses());
        assert(net2.has_source() == self.has_source()) by {
            if net2.has_source() {
                let i = choose|i: int| 0 <= i < net2.n_buses() && net2.buses@[i].spec_is_source();
                assert(net2.buses@[i].kind == self.buses@[i].kind || self.buses@[i].kind is Switch);
            }
            if self.has_source() {
                let i = choose|i: int| 0 <= i < self.n_buses() && self.buses@[i].spec_is_source();
                assert(net2.buses@[i].kind == self.buses@[i].kind || net2.buses@[i].kind is Switch);
            }
        }
        self.lemma_same_branch_problems(net2, self.n_branches());
        self.lemma_same_reach(net2);
        self.lemma_same_disconnected(net2, self.n_buses());
    }

    /// Bus `j` is reachable from bus `i` along the branches, every bus and
    /// every branch conducting.
    pub open spec fn physically_reaches(self, i: int, j: int) -> bool {
        self.reaches(Seq::new(self.branches@.len(), |x: int| true), Seq::new(self.buses@.len(), |x: int| true), i, j)
    }

    proof fn lemma_disconnected_reported(self, i: int, c: int)
        requires
            0 <= i < c <= self.n_buses(),
            !self.connected_to_first(i),
        ensures
            self.disconnected_problems(c).contains(msg_disconnected(self.bus_id(i))),
        decreases c,
    {
        let rest = self.disconnected_problems(c - 1);
        if i == c - 1 {
            let cur = self.disconnected_problems(c);
            assert(cur[cur.len() - 1] == msg_disconnected(self.bus_id(i)));
        } else {
            self.lemma_disconnected_reported(i, c - 1);
            let q = choose|q: int| 0 <= q < rest.len() && rest[q] == msg_disconnected(self.bus_id(i));
            let cur = self.disconnected_problems(c);
            assert(cur[q] == rest[q]);
        }
    }

    /// A network that validation accepts is one piece: every bus is reachable
    /// from the first bus along the branches, with every bus conducting
    /// (switch states and substations play no role). Conversely, each bus
    /// that the first bus reaches by no bus of its id is reported as
    /// disconnected.
    pub proof fn lemma_accepted_is_one_piece(self)
        ensures
            self.problems().len() == 0 ==> forall|i: int| 0 <= i < self.n_buses() ==> #[trigger] self.physically_reaches(0, i),
            forall|i: int| 0 <= i < self.n_buses() && !(exists|j: int| 0 <= j < self.n_buses() && self.bus_id(j) == self.bus_id(i)
                && #[trigger] self.physically_reaches(0, j))
                ==> self.problems().contains(#[trigger] msg_disconnected(self.bus_id(i))),
    {
        let ab = Seq::new(self.branches@.len(), |x: int| true);
        let an = Seq::new(self.buses@.len(), |x: int| true);
        if self.n_buses() > 0 {
            assert(self.is_first_bus(0));
        }
        // Reaching from the id of bus 0 is reaching from bus 0.
        assert forall|j: int| 0 < self.n_buses() implies
            #[trigger] self.reached_from_id(ab, an, self.bus_id(0), j) == self.reaches(ab, an, 0, j) by {
            assert(self.is_first_bus(0));
            if self.reached_from_id(ab, an, self.bus_id(0), j) {
                let s = choose|s: int| #[trigger] self.is_first_bus(s) && self.bus_id(s) == self.bus_id(0) && self.reaches(ab, an, s, j);
                self.lemma_first_bus_unique(s, 0);
            }
        }
        self.lemma_validate_accepts_exactly();
        if self.problems().len() == 0 {
            assert forall|i: int| 0 <= i < self.n_buses() implies #[trigger] self.physically_reaches(0, i) by {
                assert(self.connected_to_first(i));
                let j = choose|j: int| 0 <= j < self.n_buses() && self.bus_id(j) == self.bus_id(i)
                    && #[trigger] self.reached_from_id(ab, an, self.bus_id(0), j);
                if j < i {
                    assert(self.bus_id(j) != self.bus_id(i));
                } else if i < j {
                    assert(self.bus_id(i) != self.bus_id(j));
                }
            }
        }
        assert forall|i: int| 0 <= i < self.n_buses() && !(exists|j: int| 0 <= j < self.n_buses() && self.bus_id(j) == self.bus_id(i)
            && #[trigger] self.physically_reaches(0, j))
            implies self.problems().contains(#[trigger] msg_disconnected(self.bus_id(i))) by {
            if self.connected_to_first(i) {
                let j = choose|j: int| 0 <= j < self.n_buses() && self.bus_id(j) == self.bus_id(i)
                    && #[trigger] self.reached_from_id(ab, an, self.bus_id(0), j);
                assert(self.physically_reaches(0, j));
            }
            self.lemma_disconnected_reported(i, self.n_buses());
            let d = self.disconnected_problems(self.n_buses());
            let q = choose|q: int| 0 <= q < d.len() && d[q] == msg_disconnected(self.bus_id(i));
            let no_source: Seq<Seq<char>> = if self.has_source() { Seq::empty() } else { seq![msg_no_source()] };
            let pre = self.dup_bus_problems(self.n_buses()) + no_source + self.branch_problems(self.n_branches());
            assert(self.problems() == pre + d);
            assert(self.problems()[pre.len() + q] == d[q]);
        }
    }

    proof fn lemma_dup_reported(self, j: int, c: int)
        requires
            0 <= j < c <= self.n_buses(),
            exists|i: int| 0 <= i < j && #[trigger] self.bus_id(i) == self.bus_id(j),
        ensures
            self.dup_bus_problems(c).contains(msg_dup_bus(self.bus_id(j))),
        decreases c,
    {
        let cur = self.dup_bus_problems(c);
        if j == c - 1 {
            assert(cur[cur.len() - 1] == msg_dup_bus(self.bus_id(j)));
        } else {
            self.lemma_dup_reported(j, c - 1);
            let rest = self.dup_bus_problems(c - 1);
            let q = choose|q: int| 0 <= q < rest.len() && rest[q] == msg_dup_bus(self.bus_id(j));
            assert(cur[q] == rest[q]);
        }
    }

    proof fn lemma_branch_part_reported(self, k: int, c: int, m: Seq<char>)
        requires
            0 <= k < c <= self.n_branches(),
            self.one_branch_problems(k).contains(m),
        ensures
            self.branch_problems(c).contains(m),
        decreases c,
    {
        let cur = self.branch_problems(c);
        let rest = self.branch_problems(c - 1);
        if k == c - 1 {
            let q = choose|q: int| 0 <= q < self.one_branch_problems(k).len() && self.one_branch_problems(k)[q] == m;
            assert(cur[rest.len() + q] == m);
        } else {
            self.lemma_branch_part_reported(k, c - 1, m);
            let q = choose|q: int| 0 <= q < rest.len() && rest[q] == m;
            assert(cur[q] == rest[q]);
        }
    }

    proof fn lemma_unknown_node_reported(self, k: int, t: int, c: int)
        requires
            0 <= k < self.n_branches(),
            0 <= t < c <= self.branches@[k].node_ids().len(),
            !self.declares(self.branches@[k].node_ids()[t]),
        ensures
            self.node_problems(k, c).contains(msg_unknown_node(self.branches@[k].spec_label(), self.branches@[k].node_ids()[t])),
        decreases c,
    {
        let m = msg_unknown_node(self.branches@[k].spec_label(), self.branches@[k].node_ids()[t]);
        let cur = self.node_problems(k, c);
        let rest = self.node_problems(k, c - 1);
        if t == c - 1 {
            assert(cur[rest.len() as int] == m);
        } else {
            self.lemma_unknown_node_reported(k, t, c - 1);
            let q = choose|q: int| 0 <= q < rest.len() && rest[q] == m;
            assert(cur[q] == rest[q]);
        }
    }

    /// Each broken rule is reported with its message: a repeated bus id, a
    /// network without substation, a branch terminal that names no bus, a
    /// branch joining fewer than two distinct nodes.
    pub proof fn lemma_rules_reported(self)
        ensures
            forall|i: int, j: int| 0 <= i < j < self.n_buses() && #[trigger] self.bus_id(i) == #[trigger] self.bus_id(j)
                ==> self.problems().contains(msg_dup_bus(self.bus_id(j))),
            !(exists|i: int| 0 <= i < self.n_buses() && self.buses@[i].spec_is_source())
                ==> self.problems().contains(msg_no_source()),
            forall|k: int, t: int| 0 <= k < self.n_branches() && 0 <= t < self.branches@[k].node_ids().len()
                && !self.declares(#[trigger] self.branches@[k].node_ids()[t])
                ==> self.problems().contains(msg_unknown_node(self.branches@[k].spec_label(), self.branches@[k].node_ids()[t])),
            forall|k: int| 0 <= k < self.n_branches() && !(exists|t1: int, t2: int|
                0 <= t1 < self.branches@[k].node_ids().len() && 0 <= t2 < self.branches@[k].node_ids().len()
                    && self.branches@[k].node_ids()[t1] != self.branches@[k].node_ids()[t2])
                ==> self.problems().contains(#[trigger] msg_too_few_nodes(self.branches@[k].spec_label())),
    {
        let dup = self.dup_bus_problems(self.n_buses());
        let no_source: Seq<Seq<char>> = if self.has_source() { Seq::empty() } else { seq![msg_no_source()] };
        let br = self.branch_problems(self.n_branches());
        let disc = self.disconnected_problems(self.n_buses());
        assert(self.problems() == dup + no_source + br + disc);
        assert forall|i: int, j: int| 0 <= i < j < self.n_buses() && #[trigger] self.bus_id(i) == #[trigger] self.bus_id(j)
            implies self.problems().contains(msg_dup_bus(self.bus_id(j))) by {
            self.lemma_dup_reported(j, self.n_buses());
            let q = choose|q: int| 0 <= q < dup.len() && dup[q] == msg_dup_bus(self.bus_id(j));
            assert(self.problems()[q] == dup[q]);
        }
        if !self.has_source() {
            assert(self.problems()[dup.len() as int] == msg_no_source());
        }
        assert forall|k: int, t: int| 0 <= k < self.n_branches() && 0 <= t < self.branches@[k].node_ids().len()
            && !self.declares(#[trigger] self.branches@[k].node_ids()[t])
            implies self.problems().contains(msg_unknown_node(self.branches@[k].spec_label(), self.branches@[k].node_ids()[t])) by {
            let m = msg_unknown_node(self.branches@[k].spec_label(), self.branches@[k].node_ids()[t]);
            let nlen = self.branches@[k].node_ids().len() as int;
            self.lemma_unknown_node_reported(k, t, nlen);
            let np = self.node_problems(k, nlen);
            let q = choose|q: int| 0 <= q < np.len() && np[q] == m;
            let ob = self.one_branch_problems(k);
            assert(ob[q] == m);
            self.lemma_branch_part_reported(k, self.n_branches(), m);
            let q2 = choose|q2: int| 0 <= q2 < br.len() && br[q2] == m;
            assert(self.problems()[dup.len() + no_source.len() + q2] == m);
        }
        assert forall|k: int| 0 <= k < self.n_branches() && !(exists|t1: int, t2: int|
            0 <= t1 < self.branches@[k].node_ids().len() && 0 <= t2 < self.branches@[k].node_ids().len()
                && self.branches@[k].node_ids()[t1] != self.branches@[k].node_ids()[t2])
            implies self.problems().contains(#[trigger] msg_too_few_nodes(self.branches@[k].spec_label())) by {
            let m = msg_too_few_nodes(self.branches@[k].spec_label());
            let nlen = self.branches@[k].node_ids().len() as int;
            let np = self.node_problems(k, nlen);
            assert(!self.joins_two(k));
            let ob = self.one_branch_problems(k);
            assert(ob[np.len() as int] == m);
            self.lemma_branch_part_reported(k, self.n_branches(), m);
            let q2 = choose|q2: int| 0 <= q2 < br.len() && br[q2] == m;
            assert(self.problems()[dup.len() + no_source.len() + q2] == m);
        }
    }
}

} // verus!
