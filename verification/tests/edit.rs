use decfec::edit::{
    bus_id_already_exists, copy_graph_selection, paste_graph_clipboard, unique_id,
    unique_suffixed_id, Selection,
};
use decfec::topology::{Branch, Bus, BusKind, Element, Network};

#[test]
fn detecta_id_de_barra_duplicado_ignorando_barra_atual() {
    let net = Network {
        buses: vec![
            Bus { id: "b1".to_string(), kind: BusKind::Junction },
            Bus { id: "b2".to_string(), kind: BusKind::Junction },
        ],
        branches: Vec::new(),
    };

    assert!(bus_id_already_exists(&net, "b2", "b1"));
    assert!(!bus_id_already_exists(&net, "b2", "b2"));
    assert!(!bus_id_already_exists(&net, "b2", "b3"));
}

#[test]
fn copia_e_cola_barras_com_ramo_entre_selecionadas() {
    let mut net = Network {
        buses: vec![
            Bus { id: "s".to_string(), kind: BusKind::Substation },
            Bus { id: "b1".to_string(), kind: BusKind::Junction },
        ],
        branches: vec![Branch {
            id: Some("tr_s_b1".to_string()),
            nodes: vec!["s".to_string(), "b1".to_string()],
            element: Element::Line { consumers: 10 },
        }],
    };
    let selections = vec![Selection::Bus("s".to_string()), Selection::Bus("b1".to_string())];
    let clipboard = copy_graph_selection(&net, &selections).expect("seleção deve ser copiável");

    let pasted = paste_graph_clipboard(&mut net, &clipboard);

    assert_eq!(net.buses[2].id, "s_copy");
    assert_eq!(net.buses[3].id, "b1_copy");
    assert_eq!(net.branches[1].id.as_deref(), Some("tr_s_b1_copy"));
    assert_eq!(net.branches[1].nodes, vec!["s_copy".to_string(), "b1_copy".to_string()]);
    assert!(pasted.iter().any(|selection| matches!(selection, Selection::Branch(1))));
    assert_eq!(
        pasted,
        vec![
            Selection::Bus("s_copy".to_string()),
            Selection::Bus("b1_copy".to_string()),
            Selection::Branch(1)
        ]
    );

    paste_graph_clipboard(&mut net, &clipboard);

    assert_eq!(net.buses[4].id, "s_copy2");
    assert_eq!(net.buses[5].id, "b1_copy2");
    assert_eq!(net.branches[2].id.as_deref(), Some("tr_s_b1_copy2"));
}

#[test]
fn copia_de_ramo_selecionado_inclui_barras_terminais() {
    let net = Network {
        buses: vec![
            Bus { id: "a".to_string(), kind: BusKind::Substation },
            Bus { id: "b".to_string(), kind: BusKind::Junction },
        ],
        branches: vec![Branch {
            id: Some("ramo".to_string()),
            nodes: vec!["a".to_string(), "b".to_string()],
            element: Element::Line { consumers: 0 },
        }],
    };

    let clipboard = copy_graph_selection(&net, &vec![Selection::Branch(0)])
        .expect("ramo selecionado deve copiar seus terminais");

    assert_eq!(clipboard.buses.len(), 2);
    assert_eq!(clipboard.branches.len(), 1);
}

#[test]
fn nothing_selected_copies_nothing() {
    let net = Network {
        buses: vec![Bus { id: "a".to_string(), kind: BusKind::Junction }],
        branches: Vec::new(),
    };
    assert!(copy_graph_selection(&net, &vec![]).is_none());
    assert!(copy_graph_selection(&net, &vec![Selection::Branch(3)]).is_none());
}

#[test]
fn branch_with_an_uncopied_terminal_is_not_pasted() {
    let mut net = Network {
        buses: vec![
            Bus { id: "a".to_string(), kind: BusKind::Substation },
            Bus { id: "b".to_string(), kind: BusKind::Junction },
            Bus { id: "c".to_string(), kind: BusKind::Junction },
        ],
        branches: vec![Branch {
            id: None,
            nodes: vec!["a".to_string(), "b".to_string(), "c".to_string()],
            element: Element::Line { consumers: 4 },
        }],
    };
    let clipboard = copy_graph_selection(&net, &vec![Selection::Bus("a".to_string())]).unwrap();
    assert_eq!(clipboard.buses.len(), 1);
    assert_eq!(clipboard.branches.len(), 0);
    let mut clip2 = clipboard.clone();
    clip2.branches.push(net.branches[0].clone());
    let pasted = paste_graph_clipboard(&mut net, &clip2);
    assert_eq!(pasted, vec![Selection::Bus("a_copy".to_string())]);
    assert_eq!(net.branches.len(), 1);
}

#[test]
fn fresh_ids() {
    let existing = vec!["b1".to_string(), "b2".to_string(), "x".to_string()];
    assert_eq!(unique_id(&existing, "b"), "b3");
    assert_eq!(unique_id(&existing, "r"), "r1");
    let used = vec!["n_copy".to_string(), "n_copy2".to_string()];
    assert_eq!(unique_suffixed_id(&used, "n"), "n_copy3");
    assert_eq!(unique_suffixed_id(&used, "m"), "m_copy");
}
