use decfec::fault::{Action, Event, OutageInterval, Scenario, SimError};
use decfec::topology::{Branch, Bus, BusKind, Element, Network, State};

fn bus(id: &str, kind: BusKind) -> Bus {
    Bus { id: id.to_string(), kind }
}

fn line(id: &str, nodes: &[&str], consumers: u32) -> Branch {
    Branch {
        id: Some(id.to_string()),
        nodes: nodes.iter().map(|n| n.to_string()).collect(),
        element: Element::Line { consumers },
    }
}

fn closed() -> BusKind {
    BusKind::Switch { normal: State::Closed }
}

fn open() -> BusKind {
    BusKind::Switch { normal: State::Open }
}

fn ev(at: u64, bus: &str, action: Action) -> Event {
    Event { at, bus: bus.to_string(), action }
}

// Radial feeder: S -- br -- A(100) -- sw_mid -- B(200) -- F -- C(300) -- NA -- S2.
fn net() -> Network {
    Network {
        buses: vec![
            bus("S", BusKind::Substation),
            bus("br", closed()),
            bus("sw_mid", closed()),
            bus("F", BusKind::Junction),
            bus("NA", open()),
            bus("S2", BusKind::Substation),
        ],
        branches: vec![
            line("feed", &["S", "br"], 0),
            line("A", &["br", "sw_mid"], 100),
            line("B", &["sw_mid", "F"], 200),
            line("C", &["F", "NA"], 300),
            line("tie", &["NA", "S2"], 0),
        ],
    }
}

// Fault at F; protection (br) trips everything; at 2 it isolates F and
// recloses upstream (A); at 30 C is transferred through NA; at 120 B is
// repaired. Instants are minutes.
fn scenario() -> Scenario {
    Scenario {
        events: vec![
            ev(0, "F", Action::Fault),
            ev(0, "br", Action::Open),
            ev(2, "sw_mid", Action::Open),
            ev(2, "br", Action::Close),
            ev(30, "NA", Action::Close),
            ev(120, "F", Action::Repair),
            ev(120, "sw_mid", Action::Close),
            ev(121, "br", Action::Close),
        ],
    }
}

fn iv(start: u64, end: u64) -> OutageInterval {
    OutageInterval { start, end }
}

#[test]
fn outage_durations_per_block() {
    let net = net();
    let res = scenario().simulate(&net).unwrap();
    let at = |id: &str| res.intervals[net.branch_index(id).unwrap()].clone();
    assert_eq!(at("A"), vec![iv(0, 2)]);
    assert_eq!(at("B"), vec![iv(0, 120)]);
    assert_eq!(at("C"), vec![iv(0, 30)]);
    assert_eq!(at("feed"), vec![]);
    assert_eq!(at("tie"), vec![]);
}

/// DEC (hours) and FEC of `conjunto`, instants being minutes; interruptions
/// shorter than 3 min do not count.
fn dec_fec(net: &Network, res: &decfec::fault::SimResult, conjunto: &Vec<usize>) -> (f64, f64) {
    let cc = net.consumers_of(conjunto) as f64;
    let mut dec = 0.0;
    let mut fec = 0.0;
    for &i in conjunto {
        let c = net.branches[i].consumers() as f64;
        for interval in &res.intervals[i] {
            let d = (interval.end - interval.start) as f64;
            if d >= 3.0 {
                dec += c * d;
                fec += c;
            }
        }
    }
    (dec / 60.0 / cc, fec / cc)
}

#[test]
fn dec_fec_whole_feeder_drops_momentary() {
    let net = net();
    let res = scenario().simulate(&net).unwrap();
    let (dec_h, fec) = dec_fec(&net, &res, &net.line_indices());
    // A (2 min) is dropped. DEC = (200*120 + 300*30)/60/600.
    assert!((dec_h - (200.0 * 120.0 + 300.0 * 30.0) / 60.0 / 600.0).abs() < 1e-9);
    // FEC = (200 + 300)/600 (A does not count).
    assert!((fec - 500.0 / 600.0).abs() < 1e-9);
}

#[test]
fn dec_fec_restricted_to_downstream_conjunto() {
    let net = net();
    let res = scenario().simulate(&net).unwrap();
    let conjunto = net.downstream_lines("sw_mid").unwrap(); // blocks B and C
    let (dec_h, fec) = dec_fec(&net, &res, &conjunto);
    assert!((dec_h - (200.0 * 120.0 + 300.0 * 30.0) / 60.0 / 500.0).abs() < 1e-9);
    assert!((fec - 1.0).abs() < 1e-9);
}

#[test]
fn open_switch_can_deenergize_multiterminal_branch_until_tie_closes() {
    let net = Network {
        buses: vec![
            bus("S", BusKind::Substation),
            bus("3", closed()),
            bus("4", closed()),
            bus("5", closed()),
            bus("NA1", open()),
            bus("S2", BusKind::Substation),
        ],
        branches: vec![
            line("feed", &["S", "3"], 0),
            line("bloco_700", &["3", "4", "5", "NA1"], 700),
            line("tie", &["NA1", "S2"], 0),
        ],
    };
    net.validate().unwrap();
    let scenario = Scenario {
        events: vec![ev(0, "3", Action::Open), ev(20, "NA1", Action::Close)],
    };
    let res = scenario.simulate(&net).unwrap();
    assert_eq!(
        res.intervals[net.branch_index("bloco_700").unwrap()],
        vec![iv(0, 20)]
    );
}

#[test]
fn unknown_bus_is_error() {
    let net = net();
    let bad = Scenario {
        events: vec![ev(0, "naoexiste", Action::Fault), ev(1, "br", Action::Open)],
    };
    assert_eq!(
        bad.simulate(&net).unwrap_err(),
        SimError::UnknownBus("naoexiste".into())
    );
}

#[test]
fn unknown_switch_is_error() {
    let net = net();
    let bad = Scenario {
        events: vec![ev(0, "F", Action::Open), ev(1, "br", Action::Open)],
    };
    assert_eq!(
        bad.simulate(&net).unwrap_err(),
        SimError::UnknownSwitch("F".into())
    );
}

#[test]
fn events_of_the_last_instant_are_not_applied() {
    let net = net();
    let sc = Scenario {
        events: vec![ev(0, "br", Action::Open), ev(5, "naoexiste", Action::Fault)],
    };
    let res = sc.simulate(&net).unwrap();
    assert_eq!(res.intervals[1], vec![iv(0, 5)]);
}

#[test]
fn single_instant_gives_no_interruption() {
    let net = net();
    let sc = Scenario {
        events: vec![ev(7, "br", Action::Open), ev(7, "naoexiste", Action::Fault)],
    };
    let res = sc.simulate(&net).unwrap();
    assert_eq!(res.intervals.len(), 5);
    assert!(res.intervals.iter().all(|v| v.is_empty()));
}

#[test]
fn instants_are_sorted_and_distinct() {
    let sc = Scenario {
        events: vec![ev(30, "a", Action::Fault), ev(2, "b", Action::Open), ev(30, "c", Action::Close), ev(0, "d", Action::Repair)],
    };
    assert_eq!(sc.instants(), vec![0, 2, 30]);
}

#[test]
fn repeated_interruptions_become_separate_intervals() {
    let net = net();
    let sc = Scenario {
        events: vec![
            ev(0, "br", Action::Open),
            ev(10, "br", Action::Close),
            ev(20, "br", Action::Open),
            ev(25, "br", Action::Close),
            ev(40, "sw_mid", Action::Open),
        ],
    };
    let res = sc.simulate(&net).unwrap();
    assert_eq!(res.intervals[1], vec![iv(0, 10), iv(20, 25)]);
    // Opened at the last instant-but-one and never closed: runs to the end.
    let sc2 = Scenario {
        events: vec![ev(0, "br", Action::Open), ev(9, "F", Action::Fault)],
    };
    let res2 = sc2.simulate(&net).unwrap();
    assert_eq!(res2.intervals[3], vec![iv(0, 9)]);
}
