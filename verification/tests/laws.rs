use decfec::fault::{Action, Event, Scenario};
use decfec::topology::{Branch, Bus, BusKind, Element, Network, State};

fn bus(id: &str, kind: BusKind) -> Bus {
    Bus { id: id.to_string(), kind }
}

fn line(id: &str, nodes: &[&str], consumers: u32) -> Branch {
    Branch {
        id: Some(id.to_string()),
        nodes: nodes.iter().map(|n| n.to_string()).collect(),
        element: Element::Line { consumers },
    }
}

fn closed() -> BusKind {
    BusKind::Switch { normal: State::Closed }
}

fn open() -> BusKind {
    BusKind::Switch { normal: State::Open }
}

fn net() -> Network {
    Network {
        buses: vec![
            bus("S", BusKind::Substation),
            bus("br", closed()),
            bus("sw_mid", closed()),
            bus("F", BusKind::Junction),
            bus("NA", open()),
            bus("S2", BusKind::Substation),
        ],
        branches: vec![
            line("feed", &["S", "br"], 0),
            line("A", &["br", "sw_mid"], 100),
            line("B", &["sw_mid", "F"], 200),
            line("C", &["F", "NA"], 300),
            line("tie", &["NA", "S2"], 0),
        ],
    }
}

fn ev(at: u64, bus: &str, action: Action) -> Event {
    Event { at, bus: bus.to_string(), action }
}

#[test]
fn consumers_add_up_over_disjoint_sets() {
    let n = net();
    assert_eq!(n.consumers_of(&vec![]), 0);
    let a = vec![1, 3];
    let b = vec![2];
    assert_eq!(n.consumers_of(&vec![1, 3, 2]), n.consumers_of(&a) + n.consumers_of(&b));
    assert_eq!(n.consumers_of(&n.line_indices()), n.total_consumers());
}

#[test]
fn stable_reordering_of_events_keeps_the_simulation() {
    let n = net();
    let sc = Scenario {
        events: vec![
            ev(120, "F", Action::Repair),
            ev(0, "F", Action::Fault),
            ev(2, "sw_mid", Action::Open),
            ev(0, "br", Action::Open),
            ev(120, "sw_mid", Action::Close),
            ev(2, "br", Action::Close),
            ev(30, "NA", Action::Close),
        ],
    };
    // Sorted stably by instant: events of one instant keep their order.
    let mut sorted = sc.events.clone();
    sorted.sort_by_key(|e| e.at);
    let sc2 = Scenario { events: sorted };
    let r1 = sc.simulate(&n).unwrap();
    let r2 = sc2.simulate(&n).unwrap();
    assert_eq!(r1.intervals, r2.intervals);
    let bad = Scenario { events: vec![ev(5, "x", Action::Fault), ev(0, "F", Action::Open), ev(9, "br", Action::Open)] };
    let mut sorted = bad.events.clone();
    sorted.sort_by_key(|e| e.at);
    assert_eq!(bad.simulate(&n).unwrap_err(), Scenario { events: sorted }.simulate(&n).unwrap_err());
}

#[test]
fn validation_ignores_switch_states() {
    let n = net();
    let mut n2 = net();
    n2.buses[4].kind = closed();
    n2.buses[1].kind = open();
    assert!(n.validate().is_ok());
    assert!(n2.validate().is_ok());
    let mut bad = net();
    bad.buses.push(bus("solta", BusKind::Junction));
    let mut bad2 = bad.clone();
    bad2.buses[2].kind = open();
    assert_eq!(bad.validate().unwrap_err().message(), bad2.validate().unwrap_err().message());
}

#[test]
fn mutually_reachable_buses_reach_the_same_set() {
    let n = net();
    let all = vec![true; n.branches.len()];
    let from_s = n.reachable_from("S", &all);
    let from_f = n.reachable_from("F", &all);
    // F is reachable from S in the normal configuration, so both reach the same buses.
    assert!(from_s[3]);
    assert_eq!(from_s, from_f);
    // NA is open: it conducts to nobody, S2 reaches only itself.
    let from_s2 = n.reachable_from("S2", &all);
    assert_eq!(from_s2, vec![false, false, false, false, false, true]);
}
