use decfec::edit::rename_bus;
use decfec::fault::{Action, Event};
use decfec::topology::{Branch, Bus, BusKind, Element, Network, State};

fn bus(id: &str, kind: BusKind) -> Bus {
    Bus { id: id.to_string(), kind }
}

fn line(id: &str, nodes: &[&str], consumers: u32) -> Branch {
    Branch {
        id: Some(id.to_string()),
        nodes: nodes.iter().map(|n| n.to_string()).collect(),
        element: Element::Line { consumers },
    }
}

fn closed() -> BusKind {
    BusKind::Switch { normal: State::Closed }
}

fn net() -> Network {
    Network {
        buses: vec![
            bus("S", BusKind::Substation),
            bus("br", closed()),
            bus("a", BusKind::Junction),
            bus("b", BusKind::Junction),
            bus("NA", BusKind::Switch { normal: State::Open }),
            bus("S2", BusKind::Substation),
            bus("ilha", BusKind::Junction),
        ],
        branches: vec![
            line("feed", &["S", "br"], 0),
            line("A", &["br", "a", "b"], 10),
            line("B", &["b", "NA"], 20),
            line("tie", &["NA", "S2"], 0),
        ],
    }
}

fn events() -> Vec<Event> {
    vec![
        Event { at: 0, bus: "br".to_string(), action: Action::Open },
        Event { at: 5, bus: "a".to_string(), action: Action::Fault },
        Event { at: 9, bus: "br".to_string(), action: Action::Close },
    ]
}

#[test]
fn rename_bus_renames_terminals_and_events() {
    let mut n = net();
    let mut ev = events();
    assert!(rename_bus(&mut n, &mut ev, "br", "  disj "));
    assert_eq!(n.buses[1].id, "disj");
    assert_eq!(n.buses[1].kind, closed());
    assert_eq!(n.branches[0].nodes, vec!["S", "disj"]);
    assert_eq!(n.branches[1].nodes, vec!["disj", "a", "b"]);
    assert_eq!(n.branches[2].nodes, vec!["b", "NA"]);
    let buses: Vec<&str> = ev.iter().map(|e| e.bus.as_str()).collect();
    assert_eq!(buses, vec!["disj", "a", "disj"]);
    assert_eq!(ev[2].at, 9);
}

#[test]
fn rename_bus_refusals_change_nothing() {
    for (id, typed) in [("br", "   "), ("br", "br"), ("br", " a"), ("nada", "x")] {
        let mut n = net();
        let mut ev = events();
        assert!(!rename_bus(&mut n, &mut ev, id, typed));
        let ids: Vec<&str> = n.buses.iter().map(|b| b.id.as_str()).collect();
        assert_eq!(ids, vec!["S", "br", "a", "b", "NA", "S2", "ilha"]);
        assert_eq!(n.branches[0].nodes, vec!["S", "br"]);
        assert_eq!(ev[0].bus, "br");
    }
}

#[test]
fn layer_depths_count_hops_from_nearest_substation() {
    let n = net();
    // S, S2: 0; br, NA: 1; a, b: 2 (b is also 2 hops from S2); ilha: none.
    assert_eq!(
        n.layer_depths(),
        vec![Some(0), Some(1), Some(2), Some(2), Some(1), Some(0), None]
    );
}

#[test]
fn layer_depths_without_substation() {
    let n = Network {
        buses: vec![bus("x", BusKind::Junction), bus("y", BusKind::Junction)],
        branches: vec![line("l", &["x", "y"], 1)],
    };
    assert_eq!(n.layer_depths(), vec![None, None]);
}
