//! Faults as a **discrete-event simulation**.
//!
//! Instead of describing the outcome of each fault, a scenario describes what
//! happens in the network over time (a timeline of [`Event`]s) and the
//! simulation **derives** who lost power by computing connectivity between
//! consecutive instants. Simultaneous faults, a network already reconfigured
//! when the next fault arrives, and blocks interrupted more than once compose
//! naturally.
//!
//! Instants are order keys: events with equal keys happen together and a
//! smaller key happens earlier. Turning instants into durations (minutes) is
//! left to the caller.

use vstd::prelude::*;
use crate::topology::{BusKind, Network, State};
use crate::reach::filled;
use crate::text::quoted;

verus! {

/// What an event does to a bus.
#[derive(Debug, Clone, Copy, PartialEq, Eq, Structural)]
pub enum Action {
    /// The bus short-circuits: it stops conducting until repaired.
    Fault,
    /// A faulted bus conducts again.
    Repair,
    /// The switch opens.
    Open,
    /// The switch closes.
    Close,
}

/// An event of the timeline: at instant `at`, apply `action` to bus `bus`.
/// `Fault`/`Repair` apply to any bus; `Open`/`Close`, to switches.
#[derive(Debug, Clone)]
pub struct Event {
    pub at: u64,
    pub bus: String,
    pub action: Action,
}

/// Timeline of events to simulate.
#[derive(Debug, Clone)]
pub struct Scenario {
    pub events: Vec<Event>,
}

/// Continuous stretch during which a line was without power, from instant
/// `start` to instant `end`.
#[derive(Debug, Clone, Copy, PartialEq, Eq, Structural)]
pub struct OutageInterval {
    pub start: u64,
    pub end: u64,
}

/// Errors of the simulation.
#[derive(Debug, Clone, PartialEq, Eq)]
pub enum SimError {
    UnknownBus(String),
    UnknownSwitch(String),
}

impl SimError {
    pub open spec fn text(self) -> Seq<char> {
        match self {
            SimError::UnknownBus(id) => "evento referencia barra inexistente: '"@ + id@ + "'"@,
            SimError::UnknownSwitch(id) => "evento referencia chave inexistente: '"@ + id@ + "'"@,
        }
    }

    /// Readable text of the error.
    pub fn message(&self) -> (r: String)
        ensures
            r@ == self.text(),
    {
        match self {
            SimError::UnknownBus(id) => quoted("evento referencia barra inexistente: '", id.as_str(), "'"),
            SimError::UnknownSwitch(id) => quoted("evento referencia chave inexistente: '", id.as_str(), "'"),
        }
    }
}

/// `x` inserted in the ascending sequence `ts`, unless already there.
pub open spec fn insert_sorted(ts: Seq<u64>, x: u64) -> Seq<u64>
    decreases ts.len(),
{
    if ts.len() == 0 {
        seq![x]
    } else if ts.last() < x {
        ts.push(x)
    } else if ts.last() == x {
        ts
    } else {
        insert_sorted(ts.drop_last(), x).push(ts.last())
    }
}

/// The distinct instants of the events, in increasing order.
pub open spec fn time_axis(events: Seq<Event>) -> Seq<u64>
    decreases events.len(),
{
    if events.len() == 0 {
        Seq::empty()
    } else {
        insert_sorted(time_axis(events.drop_last()), events.last().at)
    }
}

pub open spec fn strictly_increasing(ts: Seq<u64>) -> bool {
    forall|a: int, b: int| 0 <= a < b < ts.len() ==> ts[a] < ts[b]
}

proof fn lemma_insert_sorted_props(ts: Seq<u64>, x: u64)
    requires
        strictly_increasing(ts),
    ensures
        strictly_increasing(insert_sorted(ts, x)),
        insert_sorted(ts, x).to_set() == ts.to_set().insert(x),
    decreases ts.len(),
{
    let r = insert_sorted(ts, x);
    if ts.len() == 0 {
        assert(r.to_set() =~= ts.to_set().insert(x)) by {
            assert(r[0] == x);
        }
    } else if ts.last() < x {
        assert(r.to_set() =~= ts.to_set().insert(x)) by {
            assert(r[ts.len() as int] == x);
            assert forall|y: u64| r.to_set().contains(y) implies ts.to_set().insert(x).contains(y) by {
                let t = choose|t: int| 0 <= t < r.len() && r[t] == y;
                if t < ts.len() {
                    assert(ts[t] == y);
                }
            }
            assert forall|y: u64| ts.to_set().contains(y) implies r.to_set().contains(y) by {
                let t = choose|t: int| 0 <= t < ts.len() && ts[t] == y;
                assert(r[t] == y);
            }
        }
    } else if ts.last() == x {
        assert(r.to_set() =~= ts.to_set().insert(x)) by {
            assert(ts[ts.len() - 1] == x);
        }
    } else {
        let init = ts.drop_last();
        lemma_insert_sorted_props(init, x);
        let ri = insert_sorted(init, x);
        assert forall|y: u64| ri.to_set().contains(y) implies y < ts.last() by {
            assert(ri.to_set().contains(y));
            assert(init.to_set().insert(x).contains(y));
            if y != x {
                let t = choose|t: int| 0 <= t < init.len() && init[t] == y;
                assert(ts[t] < ts[ts.len() - 1]);
            }
        }
        assert forall|a: int, b: int| 0 <= a < b < r.len() implies r[a] < r[b] by {
            if b == r.len() - 1 {
                assert(ri.to_set().contains(ri[a]));
            }
        }
        assert(r.to_set() =~= ts.to_set().insert(x)) by {
            assert forall|y: u64| r.to_set().contains(y) implies ts.to_set().insert(x).contains(y) by {
                let t = choose|t: int| 0 <= t < r.len() && r[t] == y;
                if t < ri.len() {
                    assert(ri.to_set().contains(y));
                    assert(init.to_set().insert(x).contains(y));
                    if y != x {
                        let u = choose|u: int| 0 <= u < init.len() && init[u] == y;
                        assert(ts[u] == y);
                    }
                } else {
                    assert(ts[ts.len() - 1] == y);
                }
            }
            assert forall|y: u64| ts.to_set().insert(x).contains(y) implies r.to_set().contains(y) by {
                if y == x {
                    assert(ri.to_set().contains(x));
                    let t = choose|t: int| 0 <= t < ri.len() && ri[t] == x;
                    assert(r[t] == x);
                } else {
                    let t = choose|t: int| 0 <= t < ts.len() && ts[t] == y;
                    if t == ts.len() - 1 {
                        assert(r[ri.len() as int] == y);
                    } else {
                        assert(init[t] == y);
                        assert(init.to_set().insert(x).contains(y));
                        assert(ri.to_set().contains(y));
                        let u = choose|u: int| 0 <= u < ri.len() && ri[u] == y;
                        assert(r[u] == y);
                    }
                }
            }
        }
    }
}

/// The time axis is strictly increasing and holds exactly the instants of
/// the events.
pub proof fn lemma_time_axis_props(events: Seq<Event>)
    ensures
        strictly_increasing(time_axis(events)),
        forall|x: u64| time_axis(events).contains(x)
            <==> exists|i: int| 0 <= i < events.len() && #[trigger] events[i].at == x,
    decreases events.len(),
{
    if events.len() > 0 {
        let init = events.drop_last();
        lemma_time_axis_props(init);
        lemma_insert_sorted_props(time_axis(init), events.last().at);
        assert forall|x: u64| time_axis(events).contains(x)
            <==> exists|i: int| 0 <= i < events.len() && #[trigger] events[i].at == x by {
            assert(time_axis(events).to_set().contains(x) == time_axis(events).contains(x));
            assert(time_axis(init).to_set().contains(x) == time_axis(init).contains(x));
            if time_axis(init).contains(x) {
                let i = choose|i: int| 0 <= i < init.len() && #[trigger] init[i].at == x;
                assert(events[i] == init[i]);
            }
            if exists|i: int| 0 <= i < events.len() && #[trigger] events[i].at == x {
                let i = choose|i: int| 0 <= i < events.len() && #[trigger] events[i].at == x;
                if i < init.len() {
                    assert(init[i] == events[i]);
                    assert(init[i].at == x);
                }
            }
        }
    }
}

proof fn lemma_insert_position(ts: Seq<u64>, x: u64, p: int)
    requires
        0 <= p <= ts.len(),
        forall|q: int| p <= q < ts.len() ==> ts[q] > x,
        p == 0 || ts[p - 1] <= x,
    ensures
        insert_sorted(ts, x) == if p > 0 && ts[p - 1] == x { ts } else { ts.insert(p, x) },
    decreases ts.len(),
{
    if ts.len() == 0 {
        assert(ts.insert(p, x) =~= seq![x]);
    } else if p == ts.len() {
        if ts.last() == x {
        } else {
            assert(ts.insert(p, x) =~= ts.push(x));
        }
    } else {
        let init = ts.drop_last();
        lemma_insert_position(init, x, p);
        if p > 0 && ts[p - 1] == x {
            assert(init[p - 1] == x);
            assert(init.push(ts.last()) =~= ts);
        } else {
            assert(init.insert(p, x).push(ts.last()) =~= ts.insert(p, x));
        }
    }
}

/// Inserts `x` in the ascending vector `ts`, unless already there.
fn insert_time(ts: &mut Vec<u64>, x: u64)
    ensures
        final(ts)@ == insert_sorted(old(ts)@, x),
{
    let mut p: usize = ts.len();
    while p > 0 && ts[p - 1] > x
        invariant
            p <= ts@.len(),
            forall|q: int| p <= q < ts@.len() ==> ts@[q] > x,
        decreases p,
    {
        p = p - 1;
    }
    proof {
        lemma_insert_position(ts@, x, p as int);
    }
    if p > 0 && ts[p - 1] == x {
        return;
    }
    ts.insert(p, x);
}

impl Scenario {
    /// The distinct instants of the events, in increasing order.
    pub fn instants(&self) -> (r: Vec<u64>)
        ensures
            r@ == time_axis(self.events@),
    {
        let mut ts: Vec<u64> = Vec::new();
        let mut i: usize = 0;
        while i < self.events.len()
            invariant
                i <= self.events@.len(),
                ts@ == time_axis(self.events@.take(i as int)),
            decreases self.events@.len() - i,
        {
            assert(self.events@.take(i + 1).drop_last() =~= self.events@.take(i as int));
            insert_time(&mut ts, self.events[i].at);
            i = i + 1;
        }
        assert(self.events@.take(self.events@.len() as int) =~= self.events@);
        ts
    }
}


/// Which switches are open in the normal configuration.
pub open spec fn initial_open(net: Network) -> Seq<bool> {
    Seq::new(net.buses@.len(), |i: int| net.buses@[i].kind == BusKind::Switch { normal: State::Open })
}

/// The bus that the id `id` names (the first declared with it).
pub open spec fn bus_named(net: Network, id: Seq<char>) -> int {
    choose|j: int| net.is_first_bus(j) && net.bus_id(j) == id
}

/// The switch that the id `id` names.
pub open spec fn switch_named(net: Network, id: Seq<char>) -> int {
    choose|s: int| net.names_switch(s, id)
}

/// Effect of one event on the state (open switches, faulted buses).
pub open spec fn apply_event(net: Network, st: (Seq<bool>, Seq<bool>), e: Event) -> Result<(Seq<bool>, Seq<bool>), SimError> {
    match e.action {
        Action::Fault => if net.declares(e.bus@) {
            Ok((st.0, st.1.update(bus_named(net, e.bus@), true)))
        } else {
            Err(SimError::UnknownBus(e.bus))
        },
        Action::Repair => if net.declares(e.bus@) {
            Ok((st.0, st.1.update(bus_named(net, e.bus@), false)))
        } else {
            Err(SimError::UnknownBus(e.bus))
        },
        Action::Open => if exists|s: int| net.names_switch(s, e.bus@) {
            Ok((st.0.update(switch_named(net, e.bus@), true), st.1))
        } else {
            Err(SimError::UnknownSwitch(e.bus))
        },
        Action::Close => if exists|s: int| net.names_switch(s, e.bus@) {
            Ok((st.0.update(switch_named(net, e.bus@), false), st.1))
        } else {
            Err(SimError::UnknownSwitch(e.bus))
        },
    }
}

/// Applies, in order, the events of `events` that happen at instant `t`;
/// the first failing event stops the batch.
pub open spec fn apply_batch(net: Network, st: (Seq<bool>, Seq<bool>), events: Seq<Event>, t: u64) -> Result<(Seq<bool>, Seq<bool>), SimError>
    decreases events.len(),
{
    if events.len() == 0 {
        Ok(st)
    } else {
        match apply_batch(net, st, events.drop_last(), t) {
            Err(e) => Err(e),
            Ok(st2) => if events.last().at == t {
                apply_event(net, st2, events.last())
            } else {
                Ok(st2)
            },
        }
    }
}

/// State after the events of the first `c` instants of `ts`, starting from
/// the normal configuration with nothing faulted.
pub open spec fn state_after(net: Network, events: Seq<Event>, ts: Seq<u64>, c: nat) -> Result<(Seq<bool>, Seq<bool>), SimError>
    decreases c,
{
    if c == 0 {
        Ok((initial_open(net), Seq::new(net.buses@.len(), |i: int| false)))
    } else {
        match state_after(net, events, ts, (c - 1) as nat) {
            Err(e) => Err(e),
            Ok(st) => apply_batch(net, st, events, ts[c - 1]),
        }
    }
}

/// A bus conducts when it is neither an open switch nor faulted.
pub open spec fn conduction(st: (Seq<bool>, Seq<bool>)) -> Seq<bool> {
    Seq::new(st.0.len(), |i: int| !st.0[i] && !st.1[i])
}

/// Line `k` is without power in state `st` (every branch conducts).
pub open spec fn line_out(net: Network, st: (Seq<bool>, Seq<bool>), k: int) -> bool {
    !net.serves(k, net.energized_mask(Seq::new(net.branches@.len(), |x: int| true), conduction(st)))
}

/// Whether line `k` is without power in each phase `[ts[p], ts[p + 1])`.
pub open spec fn phase_outs(net: Network, events: Seq<Event>, ts: Seq<u64>, k: int) -> Seq<bool> {
    Seq::new((ts.len() - 1) as nat, |p: int| match state_after(net, events, ts, (p + 1) as nat) {
        Ok(st) => line_out(net, st, k),
        Err(_) => false,
    })
}

/// Outages closed and the start of the one still open after the first `c`
/// phases.
pub open spec fn runs_upto(outs: Seq<bool>, ts: Seq<u64>, c: nat) -> (Seq<OutageInterval>, Option<u64>)
    decreases c,
{
    if c == 0 {
        (Seq::empty(), None)
    } else {
        let prev = runs_upto(outs, ts, (c - 1) as nat);
        let p = c - 1;
        if outs[p] {
            match prev.1 {
                None => (prev.0, Some(ts[p])),
                Some(_) => prev,
            }
        } else {
            match prev.1 {
                Some(s) => (prev.0.push(OutageInterval { start: s, end: ts[p] }), None),
                None => prev,
            }
        }
    }
}

/// Contiguous phases without power become **one** interruption; one still
/// open at the end closes at the last instant.
pub open spec fn outage_runs(outs: Seq<bool>, ts: Seq<u64>) -> Seq<OutageInterval> {
    let r = runs_upto(outs, ts, outs.len());
    match r.1 {
        Some(s) => r.0.push(OutageInterval { start: s, end: ts.last() }),
        None => r.0,
    }
}

/// Interval `iv` covers the phase that starts at instant `t`.
pub open spec fn covers(iv: OutageInterval, t: u64) -> bool {
    iv.start <= t < iv.end
}

proof fn lemma_runs_upto(outs: Seq<bool>, ts: Seq<u64>, c: nat)
    requires
        strictly_increasing(ts),
        ts.len() == outs.len() + 1,
        c <= outs.len(),
    ensures
        ({
            let (done, open) = runs_upto(outs, ts, c);
            &&& forall|a: int| 0 <= a < done.len() ==> (#[trigger] done[a]).start < done[a].end
            &&& forall|a: int, b: int| 0 <= a < b < done.len() ==> (#[trigger] done[a]).end < (#[trigger] done[b]).start
            &&& forall|a: int| 0 <= a < done.len() ==> ts.contains((#[trigger] done[a]).start) && ts.contains(done[a].end)
            &&& c == 0 ==> done.len() == 0
            &&& c > 0 ==> forall|a: int| 0 <= a < done.len() ==> (#[trigger] done[a]).end <= ts[c - 1]
            &&& (open is Some <==> (c > 0 && outs[c - 1]))
            &&& open matches Some(s) ==> c > 0 && s <= ts[c - 1] && ts.contains(s)
                && forall|a: int| 0 <= a < done.len() ==> (#[trigger] done[a]).end < s
            &&& forall|p: int| 0 <= p < c ==> (outs[p] <==> ((exists|a: int| 0 <= a < done.len() && #[trigger] covers(done[a], ts[p]))
                || (open matches Some(s) && s <= ts[p])))
        }),
    decreases c,
{
    if c > 0 {
        let p = c - 1;
        lemma_runs_upto(outs, ts, (c - 1) as nat);
        let (done0, open0) = runs_upto(outs, ts, (c - 1) as nat);
        let (done, open) = runs_upto(outs, ts, c);
        assert(ts.contains(ts[p]));
        if p > 0 {
            assert(ts[p - 1] < ts[p]);
        }
        // Instants of earlier phases come before ts[p].
        assert forall|p2: int| 0 <= p2 < p implies ts[p2] < ts[p] by {}
        if outs[p] {
            match open0 {
                None => {
                    assert(done == done0);
                    assert forall|a: int| 0 <= a < done.len() implies (#[trigger] done[a]).end < ts[p] by {
                        if p > 0 {
                            assert(done0[a].end <= ts[p - 1]);
                        }
                    }
                    assert forall|p2: int| 0 <= p2 < c implies (outs[p2] <==> ((exists|a: int| 0 <= a < done.len() && #[trigger] covers(done[a], ts[p2]))
                        || (open matches Some(s) && s <= ts[p2]))) by {
                        if p2 == p {
                        }
                    }
                },
                Some(s0) => {
                    assert(done == done0 && open == open0);
                    assert forall|a: int| 0 <= a < done.len() implies (#[trigger] done[a]).end <= ts[c - 1] by {
                        assert(done0[a].end <= ts[p - 1]);
                    }
                    assert forall|p2: int| 0 <= p2 < c implies (outs[p2] <==> ((exists|a: int| 0 <= a < done.len() && #[trigger] covers(done[a], ts[p2]))
                        || (open matches Some(s) && s <= ts[p2]))) by {
                        if p2 == p {
                            assert(s0 <= ts[p - 1]);
                        }
                    }
                },
            }
        } else {
            match open0 {
                Some(s0) => {
                    let iv = OutageInterval { start: s0, end: ts[p] };
                    assert(done == done0.push(iv));
                    assert(s0 <= ts[p - 1]);
                    assert forall|a: int| 0 <= a < done.len() implies (#[trigger] done[a]).end <= ts[c - 1] by {
                        if a < done0.len() {
                            assert(done[a] == done0[a]);
                        }
                    }
                    assert forall|a: int| 0 <= a < done.len() implies (#[trigger] done[a]).start < done[a].end by {
                        if a < done0.len() {
                            assert(done[a] == done0[a]);
                        }
                    }
                    assert forall|a: int| 0 <= a < done.len() implies ts.contains((#[trigger] done[a]).start) && ts.contains(done[a].end) by {
                        if a < done0.len() {
                            assert(done[a] == done0[a]);
                        }
                    }
                    assert forall|a: int, b: int| 0 <= a < b < done.len() implies (#[trigger] done[a]).end < (#[trigger] done[b]).start by {
                        assert(done[a] == done0[a]);
                        if b < done0.len() {
                            assert(done[b] == done0[b]);
                        }
                    }
                    assert forall|p2: int| 0 <= p2 < c implies (outs[p2] <==> ((exists|a: int| 0 <= a < done.len() && #[trigger] covers(done[a], ts[p2]))
                        || (open matches Some(s) && s <= ts[p2]))) by {
                        if exists|a: int| 0 <= a < done.len() && #[trigger] covers(done[a], ts[p2]) {
                            let a = choose|a: int| 0 <= a < done.len() && #[trigger] covers(done[a], ts[p2]);
                            if a < done0.len() {
                                assert(done[a] == done0[a]);
                                assert(covers(done0[a], ts[p2]));
                                if p2 == p {
                                    assert(done0[a].end <= ts[p - 1]);
                                }
                            } else {
                                assert(done[a] == iv);
                            }
                        }
                        if p2 < p {
                            if exists|a: int| 0 <= a < done0.len() && #[trigger] covers(done0[a], ts[p2]) {
                                let a = choose|a: int| 0 <= a < done0.len() && #[trigger] covers(done0[a], ts[p2]);
                                assert(done[a] == done0[a]);
                                assert(covers(done[a], ts[p2]));
                            }
                            if s0 <= ts[p2] {
                                assert(covers(done[done0.len() as int], ts[p2]));
                            }
                        } else {
                            assert forall|a: int| 0 <= a < done.len() implies !#[trigger] covers(done[a], ts[p2]) by {
                                if a < done0.len() {
                                    assert(done[a] == done0[a]);
                                    assert(done0[a].end <= ts[p - 1]);
                                }
                            }
                        }
                    }
                },
                None => {
                    assert(done == done0 && open == open0);
                    assert forall|a: int| 0 <= a < done.len() implies (#[trigger] done[a]).end <= ts[c - 1] by {
                        assert(done0[a].end <= ts[p - 1]);
                    }
                    assert forall|p2: int| 0 <= p2 < c implies (outs[p2] <==> ((exists|a: int| 0 <= a < done.len() && #[trigger] covers(done[a], ts[p2]))
                        || (open matches Some(s) && s <= ts[p2]))) by {
                        if p2 == p {
                            assert forall|a: int| 0 <= a < done.len() implies !#[trigger] covers(done[a], ts[p2]) by {
                                assert(done0[a].end <= ts[p - 1]);
                            }
                        }
                    }
                },
            }
        }
    }
}

/// The outages of a line are well formed: each is a nonempty stretch between
/// two instants of the timeline, they come in order without overlapping, and
/// a phase is inside one of them exactly when the line is without power in
/// that phase.
pub proof fn lemma_outage_runs_props(outs: Seq<bool>, ts: Seq<u64>)
    requires
        strictly_increasing(ts),
        ts.len() == outs.len() + 1,
    ensures
        ({
            let runs = outage_runs(outs, ts);
            &&& forall|a: int| 0 <= a < runs.len() ==> (#[trigger] runs[a]).start < runs[a].end
            &&& forall|a: int, b: int| 0 <= a < b < runs.len() ==> (#[trigger] runs[a]).end < (#[trigger] runs[b]).start
            &&& forall|a: int| 0 <= a < runs.len() ==> ts.contains((#[trigger] runs[a]).start) && ts.contains(runs[a].end)
            &&& forall|p: int| 0 <= p < outs.len() ==> (outs[p] <==> exists|a: int| 0 <= a < runs.len() && #[trigger] covers(runs[a], ts[p]))
        }),
{
    let c = outs.len();
    lemma_runs_upto(outs, ts, c);
    let (done, open) = runs_upto(outs, ts, c);
    let runs = outage_runs(outs, ts);
    let last = ts[ts.len() - 1];
    assert(ts.contains(last));
    assert forall|p: int| 0 <= p < c implies ts[p] < last by {}
    match open {
        None => {
            assert(runs == done);
        },
        Some(s) => {
            let iv = OutageInterval { start: s, end: last };
            assert(runs == done.push(iv));
            assert(s <= ts[c - 1]);
            assert forall|a: int| 0 <= a < runs.len() implies (#[trigger] runs[a]).start < runs[a].end by {
                if a < done.len() {
                    assert(runs[a] == done[a]);
                }
            }
            assert forall|a: int| 0 <= a < runs.len() implies ts.contains((#[trigger] runs[a]).start) && ts.contains(runs[a].end) by {
                if a < done.len() {
                    assert(runs[a] == done[a]);
                }
            }
            assert forall|a: int, b: int| 0 <= a < b < runs.len() implies (#[trigger] runs[a]).end < (#[trigger] runs[b]).start by {
                assert(runs[a] == done[a]);
                if b < done.len() {
                    assert(runs[b] == done[b]);
                }
            }
            assert forall|p: int| 0 <= p < c implies (outs[p] <==> exists|a: int| 0 <= a < runs.len() && #[trigger] covers(runs[a], ts[p])) by {
                if exists|a: int| 0 <= a < done.len() && #[trigger] covers(done[a], ts[p]) {
                    let a = choose|a: int| 0 <= a < done.len() && #[trigger] covers(done[a], ts[p]);
                    assert(runs[a] == done[a]);
                    assert(covers(runs[a], ts[p]));
                }
                if s <= ts[p] {
                    assert(covers(runs[done.len() as int], ts[p]));
                }
                if exists|a: int| 0 <= a < runs.len() && #[trigger] covers(runs[a], ts[p]) {
                    let a = choose|a: int| 0 <= a < runs.len() && #[trigger] covers(runs[a], ts[p]);
                    if a < done.len() {
                        assert(runs[a] == done[a]);
                        assert(covers(done[a], ts[p]));
                    }
                }
            }
        },
    }
}

/// The outages that the simulation reports for line `k` are nonempty,
/// ordered, disjoint stretches between instants at which some event happens,
/// and cover exactly the phases in which the line is without power.
pub proof fn lemma_sim_outages_well_formed(net: Network, events: Seq<Event>, k: int)
    requires
        time_axis(events).len() >= 2,
    ensures
        ({
            let ts = time_axis(events);
            let outs = phase_outs(net, events, ts, k);
            let runs = outage_runs(outs, ts);
            &&& forall|a: int| 0 <= a < runs.len() ==> (#[trigger] runs[a]).start < runs[a].end
            &&& forall|a: int, b: int| 0 <= a < b < runs.len() ==> (#[trigger] runs[a]).end < (#[trigger] runs[b]).start
            &&& forall|a: int| 0 <= a < runs.len() ==>
                (exists|i: int| 0 <= i < events.len() && #[trigger] events[i].at == (#[trigger] runs[a]).start)
                && (exists|i: int| 0 <= i < events.len() && #[trigger] events[i].at == runs[a].end)
            &&& forall|p: int| 0 <= p < outs.len() ==> (outs[p] <==> exists|a: int| 0 <= a < runs.len() && #[trigger] covers(runs[a], ts[p]))
        }),
{
    let ts = time_axis(events);
    lemma_time_axis_props(events);
    let outs = phase_outs(net, events, ts, k);
    lemma_outage_runs_props(outs, ts);
    let runs = outage_runs(outs, ts);
    assert forall|a: int| 0 <= a < runs.len() implies
        (exists|i: int| 0 <= i < events.len() && #[trigger] events[i].at == (#[trigger] runs[a]).start)
        && (exists|i: int| 0 <= i < events.len() && #[trigger] events[i].at == runs[a].end) by {
        assert(ts.contains(runs[a].start));
        assert(ts.contains(runs[a].end));
    }
}

/// One event changes one flag of one bus, and nothing else: a fault or a
/// repair sets (or clears) the faulted flag of the bus it names, an opening
/// or a closing sets (or clears) the open flag of the switch it names; every
/// other bus keeps both flags, so simultaneous faults compose and a repair
/// clears only its own fault.
pub proof fn lemma_event_frame(net: Network, st: (Seq<bool>, Seq<bool>), e: Event)
    requires
        st.0.len() == net.n_buses(),
        st.1.len() == net.n_buses(),
    ensures
        apply_event(net, st, e) matches Ok(st2) ==> ({
            &&& st2.0.len() == st.0.len()
            &&& st2.1.len() == st.1.len()
            &&& match e.action {
                Action::Fault | Action::Repair => {
                    let b = bus_named(net, e.bus@);
                    &&& net.is_first_bus(b) && net.bus_id(b) == e.bus@
                    &&& st2.0 == st.0
                    &&& st2.1[b] == (e.action == Action::Fault)
                    &&& forall|j: int| 0 <= j < st.1.len() && j != b ==> #[trigger] st2.1[j] == st.1[j]
                },
                Action::Open | Action::Close => {
                    let s = switch_named(net, e.bus@);
                    &&& net.names_switch(s, e.bus@)
                    &&& st2.1 == st.1
                    &&& st2.0[s] == (e.action == Action::Open)
                    &&& forall|j: int| 0 <= j < st.0.len() && j != s ==> #[trigger] st2.0[j] == st.0[j]
                },
            }
        }),
{
    match e.action {
        Action::Fault | Action::Repair => {
            if net.declares(e.bus@) {
                let i = choose|i: int| 0 <= i < net.n_buses() && net.bus_id(i) == e.bus@;
                lemma_first_of_id(net, i);
            }
        },
        _ => {
            if exists|s: int| net.names_switch(s, e.bus@) {
                let s = switch_named(net, e.bus@);
                assert(net.is_first_bus(s));
            }
        },
    }
}

/// Some bus declared with the id of bus `i` is the first with it.
proof fn lemma_first_of_id(net: Network, i: int)
    requires
        0 <= i < net.n_buses(),
    ensures
        exists|j: int| #[trigger] net.is_first_bus(j) && net.bus_id(j) == net.bus_id(i),
    decreases i,
{
    if !net.is_first_bus(i) {
        let j = choose|j: int| 0 <= j < i && net.bus_id(j) == net.bus_id(i);
        lemma_first_of_id(net, j);
    }
}

/// The events of one instant change the flags of a bus only through events
/// that name it: a bus that no event of instant `t` names keeps whether it is
/// open and whether it is faulted.
pub proof fn lemma_batch_frame(net: Network, st: (Seq<bool>, Seq<bool>), events: Seq<Event>, t: u64, j: int)
    requires
        st.0.len() == net.n_buses(),
        st.1.len() == net.n_buses(),
        0 <= j < net.n_buses(),
        forall|i: int| 0 <= i < events.len() && (#[trigger] events[i]).at == t ==> net.bus_id(j) != events[i].bus@,
    ensures
        apply_batch(net, st, events, t) matches Ok(st2) ==> st2.0.len() == st.0.len() && st2.1.len() == st.1.len()
            && st2.0[j] == st.0[j] && st2.1[j] == st.1[j],
    decreases events.len(),
{
    if events.len() > 0 {
        let init = events.drop_last();
        assert forall|i: int| 0 <= i < init.len() && (#[trigger] init[i]).at == t implies net.bus_id(j) != init[i].bus@ by {
            assert(init[i] == events[i]);
        }
        lemma_batch_frame(net, st, init, t, j);
        match apply_batch(net, st, init, t) {
            Err(_) => {},
            Ok(st1) => {
                let e = events.last();
                if e.at == t {
                    assert(events[events.len() - 1] == e);
                    lemma_event_frame(net, st1, e);
                }
            },
        }
    }
}

/// A line is without power in a state exactly when none of its terminals is
/// a bus that a conducting substation reaches through buses that are neither
/// open nor faulted (every branch conducts).
pub proof fn lemma_line_out_meaning(net: Network, st: (Seq<bool>, Seq<bool>), k: int)
    requires
        st.0.len() == net.n_buses(),
        st.1.len() == net.n_buses(),
    ensures
        forall|i: int| 0 <= i < net.n_buses() ==> (#[trigger] conduction(st)[i] <==> !st.0[i] && !st.1[i]),
        line_out(net, st, k) <==> forall|t: int, j: int|
            0 <= t < net.branches@[k].node_ids().len() && 0 <= j < net.n_buses()
                && #[trigger] net.bus_id(j) == #[trigger] net.branches@[k].node_ids()[t]
                ==> !net.energized_at(Seq::new(net.branches@.len(), |x: int| true), conduction(st), j),
{
}

/// The events of instant `t`, in list order.
pub open spec fn at_instant(events: Seq<Event>, t: u64) -> Seq<Event>
    decreases events.len(),
{
    if events.len() == 0 {
        Seq::empty()
    } else if events.last().at == t {
        at_instant(events.drop_last(), t).push(events.last())
    } else {
        at_instant(events.drop_last(), t)
    }
}

proof fn lemma_at_instant_nonempty(events: Seq<Event>, t: u64)
    ensures
        at_instant(events, t).len() > 0 <==> exists|i: int| 0 <= i < events.len() && #[trigger] events[i].at == t,
    decreases events.len(),
{
    if events.len() > 0 {
        let init = events.drop_last();
        lemma_at_instant_nonempty(init, t);
        if exists|i: int| 0 <= i < init.len() && #[trigger] init[i].at == t {
            let i = choose|i: int| 0 <= i < init.len() && #[trigger] init[i].at == t;
            assert(events[i] == init[i]);
        }
        if exists|i: int| 0 <= i < events.len() && #[trigger] events[i].at == t {
            let i = choose|i: int| 0 <= i < events.len() && #[trigger] events[i].at == t;
            if i < init.len() {
                assert(init[i] == events[i]);
            }
        }
    }
}

/// Only the events of instant `t` count in the batch of `t`.
proof fn lemma_batch_at_instant(net: Network, st: (Seq<bool>, Seq<bool>), events: Seq<Event>, t: u64)
    ensures
        apply_batch(net, st, events, t) == apply_batch(net, st, at_instant(events, t), t),
    decreases events.len(),
{
    if events.len() > 0 {
        let init = events.drop_last();
        lemma_batch_at_instant(net, st, init, t);
        if events.last().at == t {
            let a = at_instant(events, t);
            assert(a.drop_last() =~= at_instant(init, t));
            assert(a.last() == events.last());
        }
    }
}

/// Two strictly increasing sequences with the same elements are equal.
proof fn lemma_sorted_unique(a: Seq<u64>, b: Seq<u64>)
    requires
        strictly_increasing(a),
        strictly_increasing(b),
        forall|x: u64| a.contains(x) <==> b.contains(x),
    ensures
        a == b,
    decreases a.len() + b.len(),
{
    if a.len() == 0 {
        if b.len() > 0 {
            assert(b.contains(b[0]));
        }
        assert(a =~= b);
    } else if b.len() == 0 {
        assert(a.contains(a[0]));
    } else {
        let la = a.last();
        let lb = b.last();
        assert(a.contains(la));
        assert(b.contains(lb));
        let i = choose|i: int| 0 <= i < b.len() && b[i] == la;
        let j = choose|j: int| 0 <= j < a.len() && a[j] == lb;
        if i < b.len() - 1 {
            assert(b[i] < lb);
            if j < a.len() - 1 {
                assert(a[j] < la);
            }
        }
        if j < a.len() - 1 {
            assert(a[j] < la);
        }
        assert(la == lb);
        let a2 = a.drop_last();
        let b2 = b.drop_last();
        assert forall|x: u64| a2.contains(x) <==> b2.contains(x) by {
            if a2.contains(x) {
                let p = choose|p: int| 0 <= p < a2.len() && a2[p] == x;
                assert(a[p] < la);
                assert(a.contains(x));
                let q = choose|q: int| 0 <= q < b.len() && b[q] == x;
                assert(q != b.len() - 1);
                assert(b2[q] == x);
            }
            if b2.contains(x) {
                let p = choose|p: int| 0 <= p < b2.len() && b2[p] == x;
                assert(b[p] < lb);
                assert(b.contains(x));
                let q = choose|q: int| 0 <= q < a.len() && a[q] == x;
                assert(q != a.len() - 1);
                assert(a2[q] == x);
            }
        }
        lemma_sorted_unique(a2, b2);
        assert(a =~= a2.push(la));
        assert(b =~= b2.push(lb));
    }
}

/// Reordering the events while keeping, at every instant, the events of
/// that instant in the same order (as a stable sort by instant does) leaves
/// the simulation unchanged: the same time axis, the same state (or the same
/// error) after every instant, and the same phases without power for every
/// line; so `simulate` gives the same outages, or the same error.
pub proof fn lemma_stable_reorder(net: Network, e1: Seq<Event>, e2: Seq<Event>)
    requires
        forall|t: u64| #[trigger] at_instant(e1, t) == at_instant(e2, t),
    ensures
        time_axis(e1) == time_axis(e2),
        forall|c: nat| #[trigger] state_after(net, e1, time_axis(e1), c) == state_after(net, e2, time_axis(e2), c),
        forall|k: int| #[trigger] phase_outs(net, e1, time_axis(e1), k) == phase_outs(net, e2, time_axis(e2), k),
{
    lemma_time_axis_props(e1);
    lemma_time_axis_props(e2);
    assert forall|x: u64| time_axis(e1).contains(x) <==> time_axis(e2).contains(x) by {
        lemma_at_instant_nonempty(e1, x);
        lemma_at_instant_nonempty(e2, x);
        assert(at_instant(e1, x) == at_instant(e2, x));
    }
    lemma_sorted_unique(time_axis(e1), time_axis(e2));
    let ts = time_axis(e1);
    assert forall|c: nat| #[trigger] state_after(net, e1, ts, c) == state_after(net, e2, ts, c) by {
        lemma_stable_reorder_state(net, e1, e2, ts, c);
    }
    assert forall|k: int| #[trigger] phase_outs(net, e1, ts, k) == phase_outs(net, e2, ts, k) by {
        assert forall|p: int| 0 <= p < ts.len() - 1 implies
            phase_outs(net, e1, ts, k)[p] == phase_outs(net, e2, ts, k)[p] by {
            assert(state_after(net, e1, ts, (p + 1) as nat) == state_after(net, e2, ts, (p + 1) as nat));
        }
        assert(phase_outs(net, e1, ts, k) =~= phase_outs(net, e2, ts, k));
    }
}

proof fn lemma_stable_reorder_state(net: Network, e1: Seq<Event>, e2: Seq<Event>, ts: Seq<u64>, c: nat)
    requires
        forall|t: u64| #[trigger] at_instant(e1, t) == at_instant(e2, t),
    ensures
        state_after(net, e1, ts, c) == state_after(net, e2, ts, c),
    decreases c,
{
    if c > 0 {
        lemma_stable_reorder_state(net, e1, e2, ts, (c - 1) as nat);
        match state_after(net, e1, ts, (c - 1) as nat) {
            Err(_) => {},
            Ok(st) => {
                let t = ts[c - 1];
                lemma_batch_at_instant(net, st, e1, t);
                lemma_batch_at_instant(net, st, e2, t);
                assert(at_instant(e1, t) == at_instant(e2, t));
            },
        }
    }
}

proof fn lemma_state_err_stays(net: Network, events: Seq<Event>, ts: Seq<u64>, c: nat, d: nat, e: SimError)
    requires
        state_after(net, events, ts, c) == Err::<(Seq<bool>, Seq<bool>), SimError>(e),
        c <= d,
    ensures
        state_after(net, events, ts, d) == Err::<(Seq<bool>, Seq<bool>), SimError>(e),
    decreases d - c,
{
    if c < d {
        lemma_state_err_stays(net, events, ts, c, (d - 1) as nat, e);
    }
}

proof fn lemma_batch_err_stays(net: Network, st: (Seq<bool>, Seq<bool>), events: Seq<Event>, t: u64, i: int, e: SimError)
    requires
        0 <= i <= events.len(),
        apply_batch(net, st, events.take(i), t) == Err::<(Seq<bool>, Seq<bool>), SimError>(e),
    ensures
        apply_batch(net, st, events, t) == Err::<(Seq<bool>, Seq<bool>), SimError>(e),
    decreases events.len() - i,
{
    if i < events.len() {
        assert(events.take(i + 1).drop_last() =~= events.take(i));
        lemma_batch_err_stays(net, st, events, t, i + 1, e);
    } else {
        assert(events.take(i) =~= events);
    }
}

/// Applies one event to the state (open switches, faulted buses).
fn apply(net: &Network, open: &mut Vec<bool>, failed: &mut Vec<bool>, e: &Event) -> (r: Result<(), SimError>)
    requires
        old(open)@.len() == net.n_buses(),
        old(failed)@.len() == net.n_buses(),
    ensures
        final(open)@.len() == old(open)@.len(),
        final(failed)@.len() == old(failed)@.len(),
        match apply_event(*net, (old(open)@, old(failed)@), *e) {
            Ok(st) => r is Ok && (final(open)@, final(failed)@) == st,
            Err(x) => r == Err::<(), SimError>(x),
        },
{
    match e.action {
        Action::Fault | Action::Repair => {
            match net.bus_index(e.bus.as_str()) {
                Some(j) => {
                    proof {
                        let j2 = bus_named(*net, e.bus@);
                        assert(net.is_first_bus(j as int) && net.bus_id(j as int) == e.bus@);
                        net.lemma_first_bus_unique(j as int, j2);
                    }
                    let v = match e.action {
                        Action::Fault => true,
                        _ => false,
                    };
                    failed.set(j, v);
                    Ok(())
                },
                None => Err(SimError::UnknownBus(e.bus.clone())),
            }
        },
        Action::Open | Action::Close => {
            match net.switch_index(e.bus.as_str()) {
                Some(s) => {
                    proof {
                        let s2 = switch_named(*net, e.bus@);
                        net.lemma_first_bus_unique(s as int, s2);
                    }
                    let v = match e.action {
                        Action::Open => true,
                        _ => false,
                    };
                    open.set(s, v);
                    Ok(())
                },
                None => Err(SimError::UnknownSwitch(e.bus.clone())),
            }
        },
    }
}

/// Result of the simulation: for each branch (by index), the outages it
/// suffered, as intervals between instants of the timeline, in order.
#[derive(Debug, Clone)]
pub struct SimResult {
    pub intervals: Vec<Vec<OutageInterval>>,
}


impl Scenario {
    /// Simulates the timeline and returns the interruptions of each block.
    ///
    /// The state of the network is constant between two event instants; in
    /// each phase the energization is computed and the blocks without power
    /// are marked. Contiguous phases without power become **one**
    /// interruption. The events of an instant apply in the order of the list,
    /// before the phase that starts there; those of the last instant close the
    /// timeline and are not applied. With fewer than two instants there is no
    /// phase and no interruption.
    pub fn simulate(&self, net: &Network) -> (r: Result<SimResult, SimError>)
        ensures
            ({
                let ts = time_axis(self.events@);
                &&& ts.len() < 2 ==> (r matches Ok(res) && res.intervals@.len() == net.n_branches()
                    && forall|k: int| 0 <= k < net.n_branches() ==> (#[trigger] res.intervals@[k])@.len() == 0)
                &&& ts.len() >= 2 ==> match state_after(*net, self.events@, ts, (ts.len() - 1) as nat) {
                    Err(e) => r == Err::<SimResult, SimError>(e),
                    Ok(_) => r matches Ok(res) && res.intervals@.len() == net.n_branches()
                        && forall|k: int| 0 <= k < net.n_branches() ==>
                            (#[trigger] res.intervals@[k])@ == outage_runs(phase_outs(*net, self.events@, ts, k), ts),
                }
            }),
    {
        let n = net.buses.len();
        let m = net.branches.len();
        let times = self.instants();
        let ghost ts = times@;
        let ghost evs = self.events@;
        if times.len() < 2 {
            let mut empty: Vec<Vec<OutageInterval>> = Vec::new();
            let mut k: usize = 0;
            while k < m
                invariant
                    k <= m,
                    empty@.len() == k,
                    forall|k2: int| 0 <= k2 < k ==> (#[trigger] empty@[k2])@.len() == 0,
                decreases m - k,
            {
                empty.push(Vec::new());
                k = k + 1;
            }
            return Ok(SimResult { intervals: empty });
        }
        // Normal configuration: ties open, sectionalizers closed, nothing faulted.
        let mut open: Vec<bool> = Vec::new();
        let mut i: usize = 0;
        while i < n
            invariant
                n == net.n_buses(),
                i <= n,
                open@ == Seq::new(i as nat, |x: int| net.buses@[x].kind == BusKind::Switch { normal: State::Open }),
            decreases n - i,
        {
            let is_tie = net.buses[i].is_tie();
            open.push(is_tie);
            i = i + 1;
            assert(open@ =~= Seq::new(i as nat, |x: int| net.buses@[x].kind == BusKind::Switch { normal: State::Open }));
        }
        let mut failed = filled(n, false);
        assert(open@ =~= initial_open(*net));
        let all = filled(m, true);
        let ghost allm = Seq::new(net.branches@.len(), |x: int| true);
        assert(all@ =~= allm);
        let phases = times.len() - 1;
        let mut rows: Vec<Vec<bool>> = Vec::new();
        let mut p: usize = 0;
        while p < phases
            invariant
                n == net.n_buses(),
                m == net.n_branches(),
                ts == times@,
                evs == self.events@,
                ts == time_axis(evs),
                phases == ts.len() - 1,
                p <= phases,
                all@ == allm,
                allm == Seq::new(net.branches@.len(), |x: int| true),
                state_after(*net, evs, ts, p as nat) == Ok::<(Seq<bool>, Seq<bool>), SimError>((open@, failed@)),
                open@.len() == n,
                failed@.len() == n,
                rows@.len() == p,
                forall|p2: int| 0 <= p2 < p ==> (#[trigger] rows@[p2])@.len() == m,
                forall|p2: int, k: int| 0 <= p2 < p && 0 <= k < m ==>
                    #[trigger] rows@[p2]@[k] == phase_outs(*net, evs, ts, k)[p2],
            decreases phases - p,
        {
            let t = times[p];
            let ghost st0 = (open@, failed@);
            let mut e: usize = 0;
            while e < self.events.len()
                invariant
                    n == net.n_buses(),
                    e <= evs.len(),
                    evs == self.events@,
                    ts == times@,
                    ts == time_axis(evs),
                    p < phases,
                    phases == ts.len() - 1,
                    t == ts[p as int],
                    state_after(*net, evs, ts, p as nat) == Ok::<(Seq<bool>, Seq<bool>), SimError>(st0),
                    open@.len() == n,
                    failed@.len() == n,
                    apply_batch(*net, st0, evs.take(e as int), t) == Ok::<(Seq<bool>, Seq<bool>), SimError>((open@, failed@)),
                decreases evs.len() - e,
            {
                assert(evs.take(e + 1).drop_last() =~= evs.take(e as int));
                if self.events[e].at == t {
                    match apply(net, &mut open, &mut failed, &self.events[e]) {
                        Ok(()) => {},
                        Err(err) => {
                            proof {
                                lemma_batch_err_stays(*net, st0, evs, t, e + 1, err);
                                assert(state_after(*net, evs, ts, (p + 1) as nat) == Err::<(Seq<bool>, Seq<bool>), SimError>(err));
                                lemma_state_err_stays(*net, evs, ts, (p + 1) as nat, (ts.len() - 1) as nat, err);
                            }
                            return Err(err);
                        },
                    }
                }
                e = e + 1;
            }
            assert(evs.take(evs.len() as int) =~= evs);
            assert(state_after(*net, evs, ts, (p + 1) as nat) == Ok::<(Seq<bool>, Seq<bool>), SimError>((open@, failed@)));
            // Energization in this phase: branches always conduct; a bus
            // conducts if it is neither an open switch nor faulted.
            let mut cn: Vec<bool> = Vec::new();
            let mut i: usize = 0;
            while i < n
                invariant
                    n == net.n_buses(),
                    i <= n,
                    open@.len() == n,
                    failed@.len() == n,
                    cn@ == Seq::new(i as nat, |x: int| !open@[x] && !failed@[x]),
                decreases n - i,
            {
                cn.push(!open[i] && !failed[i]);
                i = i + 1;
                assert(cn@ =~= Seq::new(i as nat, |x: int| !open@[x] && !failed@[x]));
            }
            assert(cn@ =~= conduction((open@, failed@)));
            let energ = net.energized(&all, &cn);
            let mut row: Vec<bool> = Vec::new();
            let mut k: usize = 0;
            while k < m
                invariant
                    n == net.n_buses(),
                    m == net.n_branches(),
                    k <= m,
                    allm == Seq::new(net.branches@.len(), |x: int| true),
                    energ@ == net.energized_mask(allm, conduction((open@, failed@))),
                    row@.len() == k,
                    forall|k2: int| 0 <= k2 < k ==> row@[k2] == line_out(*net, (open@, failed@), k2),
                decreases m - k,
            {
                let served = net.line_served(k, &energ);
                row.push(!served);
                k = k + 1;
            }
            proof {
                assert forall|k2: int| 0 <= k2 < m implies row@[k2] == phase_outs(*net, evs, ts, k2)[p as int] by {
                }
            }
            rows.push(row);
            proof {
                assert forall|p2: int, k2: int| 0 <= p2 < p + 1 && 0 <= k2 < m implies
                    #[trigger] rows@[p2]@[k2] == phase_outs(*net, evs, ts, k2)[p2] by {
                }
            }
            p = p + 1;
        }
        // Turn the phases without power into outage intervals per block.
        let last = times[times.len() - 1];
        let mut intervals: Vec<Vec<OutageInterval>> = Vec::new();
        let mut k: usize = 0;
        while k < m
            invariant
                m == net.n_branches(),
                k <= m,
                ts == times@,
                evs == self.events@,
                ts == time_axis(evs),
                ts.len() >= 2,
                phases == ts.len() - 1,
                last == ts.last(),
                rows@.len() == phases,
                forall|p2: int| 0 <= p2 < phases ==> (#[trigger] rows@[p2])@.len() == m,
                forall|p2: int, k2: int| 0 <= p2 < phases && 0 <= k2 < m ==>
                    #[trigger] rows@[p2]@[k2] == phase_outs(*net, evs, ts, k2)[p2],
                intervals@.len() == k,
                forall|k2: int| 0 <= k2 < k ==>
                    (#[trigger] intervals@[k2])@ == outage_runs(phase_outs(*net, evs, ts, k2), ts),
            decreases m - k,
        {
            let ghost outs = phase_outs(*net, evs, ts, k as int);
            let mut done: Vec<OutageInterval> = Vec::new();
            let mut start: Option<u64> = None;
            let mut q: usize = 0;
            while q < phases
                invariant
                    m == net.n_branches(),
                    k < m,
                    q <= phases,
                    ts == times@,
                    phases == ts.len() - 1,
                    outs.len() == phases,
                    rows@.len() == phases,
                    forall|p2: int| 0 <= p2 < phases ==> (#[trigger] rows@[p2])@.len() == m,
                    forall|p2: int| 0 <= p2 < phases ==> (#[trigger] rows@[p2])@[k as int] == outs[p2],
                    (done@, start) == runs_upto(outs, ts, q as nat),
                decreases phases - q,
            {
                let out = rows[q][k];
                match (out, start) {
                    (true, None) => {
                        start = Some(times[q]);
                    },
                    (false, Some(s)) => {
                        done.push(OutageInterval { start: s, end: times[q] });
                        start = None;
                    },
                    _ => {},
                }
                q = q + 1;
            }
            if let Some(s) = start {
                done.push(OutageInterval { start: s, end: last });
            }
            intervals.push(done);
            k = k + 1;
        }
        Ok(SimResult { intervals })
    }
}

} // verus!
