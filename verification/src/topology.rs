//! Distribution network as a graph of buses (nodes) and multi-terminal
//! branches. A switch is a bus (`BusKind::Switch`) with a normal open/closed
//! state; a branch joins two or more buses and carries consumers.

use vstd::prelude::*;
use crate::text::{lemma_lex_total, lemma_lex_trans, lex_lt, lex_less, quoted};

verus! {

/// State of a switch.
#[derive(Debug, Clone, Copy, PartialEq, Eq, Structural)]
pub enum State {
    /// Closed: conducts.
    Closed,
    /// Open: does not conduct.
    Open,
}

/// Kind of a bus.
#[derive(Debug, Clone, Copy, PartialEq, Eq, Structural)]
pub enum BusKind {
    /// Substation: injects power (a source of the system).
    Substation,
    /// Connection point, neither source nor switch.
    Junction,
    /// Operable switch. `Open` is a normally-open tie; `Closed`, a sectionalizer.
    Switch { normal: State },
}

/// Bus (node) of the network.
#[derive(Debug, Clone)]
pub struct Bus {
    pub id: String,
    pub kind: BusKind,
}

impl Bus {
    pub open spec fn spec_is_source(self) -> bool {
        self.kind == BusKind::Substation
    }

    pub open spec fn spec_is_switch(self) -> bool {
        self.kind is Switch
    }

    pub open spec fn spec_conducts_normally(self) -> bool {
        match self.kind {
            BusKind::Substation | BusKind::Junction => true,
            BusKind::Switch { normal } => normal == State::Closed,
        }
    }

    pub fn is_source(&self) -> (r: bool)
        ensures
            r == self.spec_is_source(),
    {
        match self.kind {
            BusKind::Substation => true,
            _ => false,
        }
    }

    pub fn is_switch(&self) -> (r: bool)
        ensures
            r == self.spec_is_switch(),
    {
        match self.kind {
            BusKind::Switch { .. } => true,
            _ => false,
        }
    }

    /// A tie is a switch that is normally open.
    pub fn is_tie(&self) -> (r: bool)
        ensures
            r == (self.kind == BusKind::Switch { normal: State::Open }),
    {
        match self.kind {
            BusKind::Switch { normal: State::Open } => true,
            _ => false,
        }
    }

    pub fn conducts_normally(&self) -> (r: bool)
        ensures
            r == self.spec_conducts_normally(),
    {
        match self.kind {
            BusKind::Substation | BusKind::Junction => true,
            BusKind::Switch { normal } => match normal {
                State::Closed => true,
                State::Open => false,
            },
        }
    }
}

/// What a branch physically is.
#[derive(Debug, Clone, Copy, PartialEq, Eq, Structural)]
pub enum Element {
    /// Section/block with `consumers` consumer units.
    Line { consumers: u32 },
}

/// Branch of the graph: joins two or more nodes through an [`Element`].
#[derive(Debug, Clone)]
pub struct Branch {
    /// Optional identifier; events and reports refer to branches by it.
    pub id: Option<String>,
    /// Terminal nodes of the branch (ids of buses); may be more than two.
    pub nodes: Vec<String>,
    pub element: Element,
}

impl Branch {
    pub open spec fn spec_consumers(self) -> u32 {
        match self.element {
            Element::Line { consumers } => consumers,
        }
    }

    /// The ids of the terminal nodes, as character sequences.
    pub open spec fn node_ids(self) -> Seq<Seq<char>> {
        self.nodes@.map_values(|s: String| s@)
    }

    /// Readable label: the id, or the terminals joined by `-` when there is no id.
    pub open spec fn spec_label(self) -> Seq<char> {
        match self.id {
            Some(id) => id@,
            None => join_with(self.node_ids(), "-"@),
        }
    }

    /// Readable label for messages (the id, or the terminals if there is no id).
    pub fn label(&self) -> (r: String)
        ensures
            r@ == self.spec_label(),
    {
        match &self.id {
            Some(id) => id.clone(),
            None => join(&self.nodes, "-"),
        }
    }

    /// Consumers on this branch.
    pub fn consumers(&self) -> (r: u32)
        ensures
            r == self.spec_consumers(),
    {
        match self.element {
            Element::Line { consumers } => consumers,
        }
    }
}

/// Distribution network (graph of buses and branches).
#[derive(Debug, Clone)]
pub struct Network {
    pub buses: Vec<Bus>,
    pub branches: Vec<Branch>,
}

impl Network {
    pub open spec fn n_buses(self) -> int {
        self.buses@.len() as int
    }

    pub open spec fn n_branches(self) -> int {
        self.branches@.len() as int
    }

    pub open spec fn bus_id(self, i: int) -> Seq<char> {
        self.buses@[i].id@
    }

    /// Bus `j` is the first bus declared with its id.
    pub open spec fn is_first_bus(self, j: int) -> bool {
        &&& 0 <= j < self.n_buses()
        &&& forall|i: int| 0 <= i < j ==> self.bus_id(i) != self.bus_id(j)
    }

    /// Some bus is declared with id `id`.
    pub open spec fn declares(self, id: Seq<char>) -> bool {
        exists|i: int| 0 <= i < self.n_buses() && self.bus_id(i) == id
    }

    /// Index of the bus with the given id (the first one, if repeated).
    pub fn bus_index(&self, id: &str) -> (r: Option<usize>)
        ensures
            match r {
                Some(j) => self.is_first_bus(j as int) && self.bus_id(j as int) == id@,
                None => !self.declares(id@),
            },
    {
        let target = String::from_str(id);
        let mut i: usize = 0;
        while i < self.buses.len()
            invariant
                i <= self.buses@.len(),
                target@ == id@,
                forall|k: int| 0 <= k < i ==> self.bus_id(k) != id@,
            decreases self.buses@.len() - i,
        {
            if self.buses[i].id == target {
                return Some(i);
            }
            i = i + 1;
        }
        None
    }
}


/// `x` is the view of one of the ids in `v`.
pub open spec fn lists_id(v: Seq<&str>, x: Seq<char>) -> bool {
    exists|k: int| 0 <= k < v.len() && #[trigger] v[k]@ == x
}

/// The pieces joined by `sep`, in order.
pub open spec fn join_with(pieces: Seq<Seq<char>>, sep: Seq<char>) -> Seq<char>
    decreases pieces.len(),
{
    if pieces.len() == 0 {
        Seq::empty()
    } else if pieces.len() == 1 {
        pieces[0]
    } else {
        join_with(pieces.drop_last(), sep) + sep + pieces.last()
    }
}

/// Joins `pieces` with `sep` between consecutive pieces.
pub fn join(pieces: &Vec<String>, sep: &str) -> (r: String)
    ensures
        r@ == join_with(pieces@.map_values(|s: String| s@), sep@),
{
    let ghost all = pieces@.map_values(|s: String| s@);
    let mut r = String::new();
    let mut i: usize = 0;
    while i < pieces.len()
        invariant
            i <= pieces@.len(),
            all == pieces@.map_values(|s: String| s@),
            r@ == join_with(all.take(i as int), sep@),
        decreases pieces@.len() - i,
    {
        if i > 0 {
            r.append(sep);
        }
        r.append(pieces[i].as_str());
        assert(all.take(i + 1).drop_last() =~= all.take(i as int));
        i = i + 1;
    }
    assert(all.take(pieces@.len() as int) =~= all);
    r
}

/// Ids of the buses that satisfy `pred`, in declaration order.
pub open spec fn ids_where(buses: Seq<Bus>, pred: spec_fn(Bus) -> bool) -> Seq<Seq<char>>
    decreases buses.len(),
{
    if buses.len() == 0 {
        Seq::empty()
    } else {
        let rest = ids_where(buses.drop_last(), pred);
        if pred(buses.last()) {
            rest.push(buses.last().id@)
        } else {
            rest
        }
    }
}

/// Distinct bus ids, in order of first declaration.
pub open spec fn distinct_ids(buses: Seq<Bus>) -> Seq<Seq<char>>
    decreases buses.len(),
{
    if buses.len() == 0 {
        Seq::empty()
    } else {
        let rest = distinct_ids(buses.drop_last());
        if rest.contains(buses.last().id@) {
            rest
        } else {
            rest.push(buses.last().id@)
        }
    }
}

proof fn lemma_distinct_ids_contains(buses: Seq<Bus>, x: Seq<char>)
    ensures
        distinct_ids(buses).contains(x) <==> exists|j: int| 0 <= j < buses.len() && buses[j].id@ == x,
    decreases buses.len(),
{
    if buses.len() > 0 {
        let init = buses.drop_last();
        let last = buses.last().id@;
        lemma_distinct_ids_contains(init, x);
        let rest = distinct_ids(init);
        let res = distinct_ids(buses);
        assert forall|y: Seq<char>| rest.contains(y) implies res.contains(y) by {
            let t = choose|t: int| 0 <= t < rest.len() && rest[t] == y;
            if !rest.contains(last) {
                assert(res[t] == y);
            }
        }
        assert(res.contains(last)) by {
            if !rest.contains(last) {
                assert(res[rest.len() as int] == last);
            }
        }
        if exists|j: int| 0 <= j < buses.len() && buses[j].id@ == x {
            let j = choose|j: int| 0 <= j < buses.len() && buses[j].id@ == x;
            if j < buses.len() - 1 {
                assert(init[j] == buses[j]);
                assert(rest.contains(x));
            }
        }
        if res.contains(x) {
            if rest.contains(x) {
                let j = choose|j: int| 0 <= j < init.len() && init[j].id@ == x;
                assert(buses[j] == init[j]);
            } else {
                if rest.contains(last) {
                    assert(res == rest);
                    assert(false);
                } else {
                    let t = choose|t: int| 0 <= t < res.len() && res[t] == x;
                    if t < rest.len() {
                        assert(rest[t] == x);
                        assert(false);
                    }
                    assert(x == last);
                }
                assert(buses[buses.len() - 1].id@ == x);
            }
        }
    }
}

/// Total consumers of a sequence of branches.
pub open spec fn consumers_total(branches: Seq<Branch>) -> int
    decreases branches.len(),
{
    if branches.len() == 0 {
        0
    } else {
        consumers_total(branches.drop_last()) + branches.last().spec_consumers()
    }
}

/// The consumers of a prefix of the branches are at most those of all of them.
pub proof fn lemma_consumers_total_monotone(branches: Seq<Branch>, i: int)
    requires
        0 <= i <= branches.len(),
    ensures
        0 <= consumers_total(branches.take(i)) <= consumers_total(branches),
    decreases branches.len(),
{
    if branches.len() > 0 {
        if i == branches.len() {
            assert(branches.take(i) =~= branches);
            lemma_consumers_total_monotone(branches.drop_last(), i - 1);
        } else {
            assert(branches.drop_last().take(i) =~= branches.take(i));
            lemma_consumers_total_monotone(branches.drop_last(), i);
        }
    }
}

/// Problems found when resolving a bus as an individual consumer point.
#[derive(Debug, Clone, PartialEq, Eq)]
pub enum PointLoadError {
    UnknownBus(String),
    NoConsumerLine(String),
    AmbiguousConsumerLine(String),
}

impl PointLoadError {
    pub open spec fn text(self) -> Seq<char> {
        match self {
            PointLoadError::UnknownBus(id) => "barramento '"@ + id@ + "' não encontrado"@,
            PointLoadError::NoConsumerLine(id) => "barramento '"@ + id@ + "' não pertence a nenhum ramo com consumidores"@,
            PointLoadError::AmbiguousConsumerLine(id) => "barramento '"@ + id@ + "' pertence a mais de um ramo com consumidores"@,
        }
    }

    /// Readable text of the error.
    pub fn message(&self) -> (r: String)
        ensures
            r@ == self.text(),
    {
        match self {
            PointLoadError::UnknownBus(id) => quoted("barramento '", id.as_str(), "' não encontrado"),
            PointLoadError::NoConsumerLine(id) => quoted("barramento '", id.as_str(), "' não pertence a nenhum ramo com consumidores"),
            PointLoadError::AmbiguousConsumerLine(id) => quoted("barramento '", id.as_str(), "' pertence a mais de um ramo com consumidores"),
        }
    }
}

impl Network {
    /// Ids of the buses that are sources (substations), in declaration order.
    pub fn sources(&self) -> (r: Vec<&str>)
        ensures
            r@.map_values(|s: &str| s@) == ids_where(self.buses@, |b: Bus| b.spec_is_source()),
    {
        let ghost pred = |b: Bus| b.spec_is_source();
        let mut r: Vec<&str> = Vec::new();
        let mut i: usize = 0;
        while i < self.buses.len()
            invariant
                i <= self.buses@.len(),
                pred == (|b: Bus| b.spec_is_source()),
                r@.map_values(|s: &str| s@) == ids_where(self.buses@.take(i as int), pred),
            decreases self.buses@.len() - i,
        {
            assert(self.buses@.take(i + 1).drop_last() =~= self.buses@.take(i as int));
            if self.buses[i].is_source() {
                r.push(self.buses[i].id.as_str());
            }
            assert(r@.map_values(|s: &str| s@) =~= ids_where(self.buses@.take(i + 1), pred));
            i = i + 1;
        }
        assert(self.buses@.take(self.buses@.len() as int) =~= self.buses@);
        r
    }

    /// Ids of the switches declared as buses, in declaration order.
    pub fn switches(&self) -> (r: Vec<&str>)
        ensures
            r@.map_values(|s: &str| s@) == ids_where(self.buses@, |b: Bus| b.spec_is_switch()),
    {
        let ghost pred = |b: Bus| b.spec_is_switch();
        let mut r: Vec<&str> = Vec::new();
        let mut i: usize = 0;
        while i < self.buses.len()
            invariant
                i <= self.buses@.len(),
                pred == (|b: Bus| b.spec_is_switch()),
                r@.map_values(|s: &str| s@) == ids_where(self.buses@.take(i as int), pred),
            decreases self.buses@.len() - i,
        {
            assert(self.buses@.take(i + 1).drop_last() =~= self.buses@.take(i as int));
            if self.buses[i].is_switch() {
                r.push(self.buses[i].id.as_str());
            }
            assert(r@.map_values(|s: &str| s@) =~= ids_where(self.buses@.take(i + 1), pred));
            i = i + 1;
        }
        assert(self.buses@.take(self.buses@.len() as int) =~= self.buses@);
        r
    }

    /// Ids of all declared buses, each once, in increasing order.
    pub fn bus_ids(&self) -> (r: Vec<&str>)
        ensures
            forall|a: int, b: int| 0 <= a < b < r@.len() ==> lex_lt((#[trigger] r@[a])@, (#[trigger] r@[b])@),
            forall|x: Seq<char>| lists_id(r@, x) <==> #[trigger] self.declares(x),
    {
        let mut r: Vec<&str> = Vec::new();
        let mut i: usize = 0;
        while i < self.buses.len()
            invariant
                i <= self.buses@.len(),
                forall|a: int, b: int| 0 <= a < b < r@.len() ==> lex_lt((#[trigger] r@[a])@, (#[trigger] r@[b])@),
                forall|x: Seq<char>| #[trigger] lists_id(r@, x) <==>
                    exists|j: int| 0 <= j < i && #[trigger] self.bus_id(j) == x,
            decreases self.buses@.len() - i,
        {
            let x = self.buses[i].id.as_str();
            let ghost r0 = r@;
            let mut p: usize = 0;
            while p < r.len() && lex_less(r[p], x)
                invariant
                    p <= r@.len(),
                    r@ == r0,
                    forall|q: int| 0 <= q < p ==> lex_lt(#[trigger] r@[q]@, x@),
                decreases r@.len() - p,
            {
                p = p + 1;
            }
            proof {
                assert forall|q: int| p <= q < r@.len() implies !lex_lt(#[trigger] r@[q]@, x@) by {
                    if q > p {
                        assert(!lex_lt(r@[p as int]@, x@));
                        lemma_lex_total(r@[p as int]@, x@);
                        lemma_lex_total(r@[p as int]@, r@[q]@);
                        if lex_lt(r@[q]@, x@) {
                            if r@[p as int]@ == x@ {
                                lemma_lex_total(r@[q]@, x@);
                            } else {
                                lemma_lex_trans(x@, r@[p as int]@, r@[q]@);
                                lemma_lex_total(r@[q]@, x@);
                            }
                        }
                    }
                }
            }
            let present = p < r.len() && !lex_less(x, r[p]);
            proof {
                if p < r@.len() {
                    lemma_lex_total(r@[p as int]@, x@);
                }
                if lists_id(r0, x@) {
                    let q = choose|q: int| 0 <= q < r0.len() && #[trigger] r0[q]@ == x@;
                    lemma_lex_total(x@, x@);
                    if q < p {
                        assert(lex_lt(r0[q]@, x@));
                    }
                    if q > p {
                        assert(lex_lt(r0[p as int]@, r0[q]@));
                    }
                }
                assert(present <==> lists_id(r0, x@));
            }
            if !present {
                r.insert(p, x);
                proof {
                    assert forall|a: int, b: int| 0 <= a < b < r@.len() implies lex_lt((#[trigger] r@[a])@, (#[trigger] r@[b])@) by {
                        if p < r0.len() {
                            lemma_lex_total(r0[p as int]@, x@);
                        }
                        if a < p && b == p {
                            assert(r@[a] == r0[a]);
                        } else if a == p && b > p {
                            assert(r@[b] == r0[b - 1]);
                            if b - 1 > p {
                                assert(lex_lt(r0[p as int]@, r0[b - 1]@));
                                lemma_lex_trans(x@, r0[p as int]@, r0[b - 1]@);
                            }
                        } else if a < p && b > p {
                            assert(r@[a] == r0[a]);
                            assert(r@[b] == r0[b - 1]);
                            assert(lex_lt(r0[a]@, r0[b - 1]@));
                        } else if b < p {
                            assert(r@[a] == r0[a] && r@[b] == r0[b]);
                        } else {
                            assert(r@[a] == r0[a - 1] && r@[b] == r0[b - 1]);
                        }
                    }
                }
            }
            proof {
                assert forall|y: Seq<char>| #[trigger] lists_id(r@, y) <==>
                    exists|j: int| 0 <= j < i + 1 && #[trigger] self.bus_id(j) == y by {
                    if lists_id(r@, y) {
                        let q = choose|q: int| 0 <= q < r@.len() && #[trigger] r@[q]@ == y;
                        if !present {
                            if q < p {
                                assert(r0[q]@ == y);
                            } else if q > p {
                                assert(r0[q - 1]@ == y);
                            } else {
                                assert(self.bus_id(i as int) == y);
                            }
                        } else {
                            assert(r0[q]@ == y);
                        }
                        if lists_id(r0, y) {
                            let j = choose|j: int| 0 <= j < i && #[trigger] self.bus_id(j) == y;
                        }
                    }
                    if exists|j: int| 0 <= j < i + 1 && #[trigger] self.bus_id(j) == y {
                        let j = choose|j: int| 0 <= j < i + 1 && #[trigger] self.bus_id(j) == y;
                        if j < i {
                            assert(lists_id(r0, y));
                            let q = choose|q: int| 0 <= q < r0.len() && #[trigger] r0[q]@ == y;
                            if !present {
                                if q < p {
                                    assert(r@[q]@ == y);
                                } else {
                                    assert(r@[q + 1]@ == y);
                                }
                            } else {
                                assert(r@[q]@ == y);
                            }
                        } else {
                            if !present {
                                assert(r@[p as int]@ == y);
                            } else {
                                let q = choose|q: int| 0 <= q < r0.len() && #[trigger] r0[q]@ == y;
                                assert(r@[q]@ == y);
                            }
                        }
                    }
                }
            }
            i = i + 1;
        }
        proof {
            assert forall|x: Seq<char>| lists_id(r@, x) <==> #[trigger] self.declares(x) by {
                if self.declares(x) {
                    let j = choose|j: int| 0 <= j < self.buses@.len() && #[trigger] self.bus_id(j) == x;
                }
            }
        }
        r
    }

    /// Total consumer units of the network (the `Cc` of the whole system).
    pub fn total_consumers(&self) -> (r: u32)
        requires
            consumers_total(self.branches@) <= u32::MAX,
        ensures
            r == consumers_total(self.branches@),
    {
        let mut sum: u32 = 0;
        let mut i: usize = 0;
        while i < self.branches.len()
            invariant
                i <= self.branches@.len(),
                consumers_total(self.branches@) <= u32::MAX,
                sum == consumers_total(self.branches@.take(i as int)),
            decreases self.branches@.len() - i,
        {
            assert(self.branches@.take(i + 1).drop_last() =~= self.branches@.take(i as int));
            proof {
                lemma_consumers_total_monotone(self.branches@, i + 1);
            }
            sum = sum + self.branches[i].consumers();
            i = i + 1;
        }
        assert(self.branches@.take(self.branches@.len() as int) =~= self.branches@);
        sum
    }

    /// Branch `k` carries the id `id`.
    pub open spec fn branch_has_id(self, k: int, id: Seq<char>) -> bool {
        self.branches@[k].id matches Some(s) && s@ == id
    }

    /// Index of the first branch with the given id.
    pub fn branch_index(&self, id: &str) -> (r: Option<usize>)
        ensures
            match r {
                Some(k) => k < self.n_branches() && self.branch_has_id(k as int, id@)
                    && forall|k2: int| 0 <= k2 < k ==> !self.branch_has_id(k2, id@),
                None => forall|k2: int| 0 <= k2 < self.n_branches() ==> !self.branch_has_id(k2, id@),
            },
    {
        let target = String::from_str(id);
        let mut k: usize = 0;
        while k < self.branches.len()
            invariant
                k <= self.branches@.len(),
                target@ == id@,
                forall|k2: int| 0 <= k2 < k ==> !self.branch_has_id(k2, id@),
            decreases self.branches@.len() - k,
        {
            match &self.branches[k].id {
                Some(s) => {
                    if *s == target {
                        return Some(k);
                    }
                },
                None => {},
            }
            k = k + 1;
        }
        None
    }

    /// Indices of all line branches, in increasing order (every element is a
    /// line, so these are all the branch indices).
    pub fn line_indices(&self) -> (r: Vec<usize>)
        ensures
            r@ == Seq::new(self.branches@.len(), |k: int| k as usize),
    {
        let mut r: Vec<usize> = Vec::new();
        let mut k: usize = 0;
        while k < self.branches.len()
            invariant
                k <= self.branches@.len(),
                r@ == Seq::new(k as nat, |x: int| x as usize),
            decreases self.branches@.len() - k,
        {
            match self.branches[k].element {
                Element::Line { .. } => {
                    r.push(k);
                },
            }
            k = k + 1;
            assert(r@ =~= Seq::new(k as nat, |x: int| x as usize));
        }
        r
    }

    /// Sum of the consumers of the branches listed in `lines`.
    pub open spec fn consumers_in(self, lines: Seq<usize>) -> int
        decreases lines.len(),
    {
        if lines.len() == 0 {
            0
        } else {
            self.consumers_in(lines.drop_last()) + self.branches@[lines.last() as int].spec_consumers()
        }
    }

    /// The consumers of a prefix of `lines` are at most those of all of them.
    pub proof fn lemma_consumers_in_prefix(self, lines: Seq<usize>, i: int)
        requires
            0 <= i <= lines.len(),
        ensures
            0 <= self.consumers_in(lines.take(i)) <= self.consumers_in(lines),
        decreases lines.len(),
    {
        if lines.len() > 0 {
            if i == lines.len() {
                assert(lines.take(i) =~= lines);
                self.lemma_consumers_in_prefix(lines.drop_last(), i - 1);
            } else {
                assert(lines.drop_last().take(i) =~= lines.take(i));
                self.lemma_consumers_in_prefix(lines.drop_last(), i);
            }
        }
    }

    /// Sums of consumers add up over concatenated lists of lines:
    /// `consumers_in(a + b) == consumers_in(a) + consumers_in(b)`, and the
    /// empty list has none. So the consumers of two disjoint sets of lines
    /// together are the sum of the consumers of each.
    pub proof fn lemma_consumers_in_append(self, a: Seq<usize>, b: Seq<usize>)
        ensures
            self.consumers_in(Seq::empty()) == 0,
            self.consumers_in(a + b) == self.consumers_in(a) + self.consumers_in(b),
        decreases b.len(),
    {
        if b.len() == 0 {
            assert(a + b =~= a);
        } else {
            self.lemma_consumers_in_append(a, b.drop_last());
            assert((a + b).drop_last() =~= a + b.drop_last());
            assert((a + b).last() == b.last());
        }
    }

    /// Sum of consumers of the line branches in `lines`.
    pub fn consumers_of(&self, lines: &Vec<usize>) -> (r: u32)
        requires
            forall|t: int| 0 <= t < lines@.len() ==> #[trigger] lines@[t] < self.n_branches(),
            self.consumers_in(lines@) <= u32::MAX,
        ensures
            r == self.consumers_in(lines@),
    {
        let mut sum: u32 = 0;
        let mut i: usize = 0;
        while i < lines.len()
            invariant
                i <= lines@.len(),
                forall|t: int| 0 <= t < lines@.len() ==> #[trigger] lines@[t] < self.n_branches(),
                self.consumers_in(lines@) <= u32::MAX,
                sum == self.consumers_in(lines@.take(i as int)),
            decreases lines@.len() - i,
        {
            assert(lines@.take(i + 1).drop_last() =~= lines@.take(i as int));
            proof {
                self.lemma_consumers_in_prefix(lines@, i + 1);
            }
            let k = lines[i];
            sum = sum + self.branches[k].consumers();
            i = i + 1;
        }
        assert(lines@.take(lines@.len() as int) =~= lines@);
        sum
    }

    proof fn lemma_prefix_sum(self, c: int)
        requires
            0 <= c <= self.n_branches(),
            self.n_branches() <= usize::MAX,
        ensures
            self.consumers_in(Seq::new(c as nat, |k: int| k as usize)) == consumers_total(self.branches@.take(c)),
        decreases c,
    {
        if c > 0 {
            self.lemma_prefix_sum(c - 1);
            assert(Seq::new(c as nat, |k: int| k as usize).drop_last() =~= Seq::new((c - 1) as nat, |k: int| k as usize));
            assert(self.branches@.take(c).drop_last() =~= self.branches@.take(c - 1));
            assert(Seq::new(c as nat, |k: int| k as usize).last() == (c - 1) as usize);
            assert(self.branches@.take(c).last() == self.branches@[c - 1]);
        }
    }

    /// The consumers of the whole network are the consumers of all its
    /// lines: `total_consumers` equals `consumers_of(line_indices())`.
    pub proof fn lemma_total_is_sum_of_lines(self)
        requires
            self.n_branches() <= usize::MAX,
        ensures
            self.consumers_in(Seq::new(self.branches@.len(), |k: int| k as usize)) == consumers_total(self.branches@),
    {
        self.lemma_prefix_sum(self.n_branches());
        assert(self.branches@.take(self.n_branches()) =~= self.branches@);
    }

    /// Branch `k` carries consumers and has the bus id `id` as a terminal.
    pub open spec fn is_consumer_line(self, k: int, id: Seq<char>) -> bool {
        &&& 0 <= k < self.n_branches()
        &&& self.branches@[k].spec_consumers() > 0
        &&& self.branches@[k].node_ids().contains(id)
    }

    /// The line with consumers associated with a consumer point (`bus_id`).
    ///
    /// The point must exist and lie on exactly one branch with `consumers > 0`.
    /// If there is more than one, the point is ambiguous and the caller must
    /// pick the branch directly.
    pub fn point_load_line(&self, bus_id: &str) -> (r: Result<usize, PointLoadError>)
        ensures
            !self.declares(bus_id@) ==> (r matches Err(PointLoadError::UnknownBus(s)) && s@ == bus_id@),
            self.declares(bus_id@) && (forall|k: int| !self.is_consumer_line(k, bus_id@))
                ==> (r matches Err(PointLoadError::NoConsumerLine(s)) && s@ == bus_id@),
            self.declares(bus_id@) && (exists|k1: int, k2: int| k1 != k2
                && #[trigger] self.is_consumer_line(k1, bus_id@) && #[trigger] self.is_consumer_line(k2, bus_id@))
                ==> (r matches Err(PointLoadError::AmbiguousConsumerLine(s)) && s@ == bus_id@),
            r matches Ok(k) ==> self.declares(bus_id@) && self.is_consumer_line(k as int, bus_id@)
                && forall|k2: int| k2 != k ==> !self.is_consumer_line(k2, bus_id@),
            r is Err ==> !self.declares(bus_id@) || (forall|k: int| !self.is_consumer_line(k, bus_id@))
                || (exists|k1: int, k2: int| k1 != k2
                    && #[trigger] self.is_consumer_line(k1, bus_id@) && #[trigger] self.is_consumer_line(k2, bus_id@)),
    {
        match self.bus_index(bus_id) {
            None => {
                return Err(PointLoadError::UnknownBus(String::from_str(bus_id)));
            },
            Some(j) => {
                assert(self.bus_id(j as int) == bus_id@);
            },
        }
        let target = String::from_str(bus_id);
        let mut first: Option<usize> = None;
        let mut k: usize = 0;
        while k < self.branches.len()
            invariant
                k <= self.branches@.len(),
                target@ == bus_id@,
                self.declares(bus_id@),
                match first {
                    Some(f) => f < k && self.is_consumer_line(f as int, bus_id@)
                        && forall|k2: int| 0 <= k2 < k && k2 != f ==> !self.is_consumer_line(k2, bus_id@),
                    None => forall|k2: int| 0 <= k2 < k ==> !self.is_consumer_line(k2, bus_id@),
                },
            decreases self.branches@.len() - k,
        {
            if self.branches[k].consumers() > 0 && self.branch_has_node(k, &target) {
                match first {
                    Some(f) => {
                        proof {
                            assert(self.is_consumer_line(k as int, bus_id@));
                            assert(self.is_consumer_line(f as int, bus_id@));
                        }
                        return Err(PointLoadError::AmbiguousConsumerLine(String::from_str(bus_id)));
                    },
                    None => {
                        first = Some(k);
                    },
                }
            }
            k = k + 1;
        }
        match first {
            Some(f) => Ok(f),
            None => Err(PointLoadError::NoConsumerLine(String::from_str(bus_id))),
        }
    }
}

} // verus!
