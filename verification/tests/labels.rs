use decfec::edit::{
    action_label, default_file_name, dialog_title, edge_label, network_summary,
    parse_branch_nodes, RonKind, RonMode,
};
use decfec::fault::Action;
use decfec::topology::{Branch, Bus, BusKind, Element, Network, State};

#[test]
fn parses_comma_separated_terminals() {
    assert_eq!(parse_branch_nodes(" a, b ,,c "), vec!["a", "b", "c"]);
    assert_eq!(parse_branch_nodes(""), Vec::<String>::new());
    assert_eq!(parse_branch_nodes(" , ,"), Vec::<String>::new());
    assert_eq!(parse_branch_nodes("\u{a0}x y\t,\nz"), vec!["x y", "z"]);
    assert_eq!(parse_branch_nodes("nó1,nó2"), vec!["nó1", "nó2"]);
}

#[test]
fn labels() {
    assert_eq!(action_label(Action::Fault), "Falta");
    assert_eq!(action_label(Action::Repair), "Reparo");
    assert_eq!(action_label(Action::Open), "Abrir");
    assert_eq!(action_label(Action::Close), "Fechar");
    assert_eq!(edge_label(&Element::Line { consumers: 1700 }), "1700");
    assert_eq!(dialog_title(RonKind::Network, RonMode::Import), "Importar rede");
    assert_eq!(dialog_title(RonKind::Scenario, RonMode::Export), "Exportar eventos");
    assert_eq!(default_file_name(RonKind::Network), "rede-layout.ron");
    assert_eq!(default_file_name(RonKind::Scenario), "eventos.ron");
}

#[test]
fn summary_line() {
    let net = Network {
        buses: vec![
            Bus { id: "S".into(), kind: BusKind::Substation },
            Bus { id: "k".into(), kind: BusKind::Switch { normal: State::Open } },
            Bus { id: "j".into(), kind: BusKind::Junction },
        ],
        branches: vec![
            Branch { id: None, nodes: vec!["S".into(), "k".into()], element: Element::Line { consumers: 120 } },
            Branch { id: None, nodes: vec!["k".into(), "j".into()], element: Element::Line { consumers: 30 } },
        ],
    };
    assert_eq!(network_summary(&net), "1 Subestações, 1 Chaves, Cc total = 150");
}
