use decfec::commands::{add_junction, add_line, delete_selection};
use decfec::edit::Selection;
use decfec::topology::{Branch, Bus, BusKind, Element, Network, State};

fn bus(id: &str, kind: BusKind) -> Bus {
    Bus { id: id.to_string(), kind }
}

fn line(id: Option<&str>, nodes: &[&str], consumers: u32) -> Branch {
    Branch {
        id: id.map(|s| s.to_string()),
        nodes: nodes.iter().map(|n| n.to_string()).collect(),
        element: Element::Line { consumers },
    }
}

fn sample() -> Network {
    Network {
        buses: vec![
            bus("SE", BusKind::Substation),
            bus("b1", BusKind::Junction),
            bus("ch", BusKind::Switch { normal: State::Closed }),
            bus("b3", BusKind::Junction),
        ],
        branches: vec![
            line(Some("ramo1"), &["SE", "b1"], 10),
            line(None, &["b1", "ch"], 20),
            line(Some("ramo3"), &["ch", "b3"], 30),
        ],
    }
}

fn bus_view(net: &Network) -> Vec<(String, BusKind)> {
    net.buses.iter().map(|b| (b.id.clone(), b.kind)).collect()
}

fn branch_view(b: &Branch) -> (Option<String>, Vec<String>, Element) {
    (b.id.clone(), b.nodes.clone(), b.element)
}

fn branches_view(net: &Network) -> Vec<(Option<String>, Vec<String>, Element)> {
    net.branches.iter().map(branch_view).collect()
}

#[test]
fn add_junction_takes_first_free_id() {
    let mut net = sample();
    let id = add_junction(&mut net);
    assert_eq!(id, "b2");
    assert_eq!(net.buses.len(), 5);
    assert_eq!(net.buses[4].id, "b2");
    assert_eq!(net.buses[4].kind, BusKind::Junction);
    assert_eq!(net.branches.len(), 3);
    assert_eq!(add_junction(&mut net), "b4");
}

#[test]
fn add_junction_on_empty_network() {
    let mut net = Network { buses: vec![], branches: vec![] };
    assert_eq!(add_junction(&mut net), "b1");
}

#[test]
fn add_line_joins_selected_buses_in_order() {
    let mut net = sample();
    let sel = vec![
        Selection::Bus("b3".to_string()),
        Selection::Branch(0),
        Selection::Bus("SE".to_string()),
        Selection::Bus("b1".to_string()),
    ];
    assert_eq!(add_line(&mut net, &sel), Some(3));
    assert_eq!(branch_view(&net.branches[3]), branch_view(&line(Some("ramo2"), &["b3", "SE", "b1"], 0)));
    assert_eq!(bus_view(&net), bus_view(&sample()));
}

#[test]
fn add_line_falls_back_to_last_two_buses() {
    let mut net = sample();
    let sel = vec![Selection::Bus("SE".to_string())];
    assert_eq!(add_line(&mut net, &sel), Some(3));
    assert_eq!(branch_view(&net.branches[3]), branch_view(&line(Some("ramo2"), &["ch", "b3"], 0)));
    assert_eq!(add_line(&mut net, &vec![]), Some(4));
    assert_eq!(branch_view(&net.branches[4]), branch_view(&line(Some("ramo4"), &["ch", "b3"], 0)));
}

#[test]
fn add_line_needs_two_buses() {
    let mut net = Network { buses: vec![bus("x", BusKind::Junction)], branches: vec![] };
    assert_eq!(add_line(&mut net, &vec![Selection::Bus("x".to_string())]), None);
    assert!(net.branches.is_empty());
}

#[test]
fn delete_selection_cascades_to_branches() {
    let mut net = sample();
    let sel = vec![Selection::Bus("ch".to_string()), Selection::Branch(0)];
    delete_selection(&mut net, &sel);
    assert_eq!(
        bus_view(&net),
        vec![
            ("SE".to_string(), BusKind::Substation),
            ("b1".to_string(), BusKind::Junction),
            ("b3".to_string(), BusKind::Junction),
        ]
    );
    assert!(net.branches.is_empty());
}

#[test]
fn delete_selection_of_a_branch_keeps_buses() {
    let mut net = sample();
    delete_selection(&mut net, &vec![Selection::Branch(1), Selection::Bus("nada".to_string())]);
    assert_eq!(bus_view(&net), bus_view(&sample()));
    assert_eq!(
        branches_view(&net),
        vec![
            branch_view(&line(Some("ramo1"), &["SE", "b1"], 10)),
            branch_view(&line(Some("ramo3"), &["ch", "b3"], 30)),
        ]
    );
}

#[test]
fn delete_empty_selection_changes_nothing() {
    let mut net = sample();
    delete_selection(&mut net, &vec![]);
    assert_eq!(bus_view(&net), bus_view(&sample()));
    assert_eq!(branches_view(&net), branches_view(&sample()));
}
