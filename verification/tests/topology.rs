use decfec::topology::{Branch, Bus, BusKind, Element, Network, PointLoadError, State};

fn bus(id: &str, kind: BusKind) -> Bus {
    Bus { id: id.to_string(), kind }
}

fn line(id: &str, nodes: &[&str], consumers: u32) -> Branch {
    Branch {
        id: Some(id.to_string()),
        nodes: nodes.iter().map(|n| n.to_string()).collect(),
        element: Element::Line { consumers },
    }
}

fn closed() -> BusKind {
    BusKind::Switch { normal: State::Closed }
}

fn open() -> BusKind {
    BusKind::Switch { normal: State::Open }
}

fn sample() -> Network {
    Network {
        buses: vec![
            bus("SD_A", BusKind::Substation),
            bus("dA", closed()),
            bus("a1", BusKind::Junction),
            bus("sa", closed()),
            bus("a2", BusKind::Junction),
            bus("NA", open()),
            bus("SD_B", BusKind::Substation),
            bus("dB", closed()),
            bus("b1", BusKind::Junction),
        ],
        branches: vec![
            line("feed_a", &["SD_A", "dA"], 0),
            line("A", &["dA", "a1", "sa"], 500),
            line("B", &["sa", "a2", "NA"], 300),
            line("feed_b", &["SD_B", "dB"], 0),
            line("C", &["dB", "b1", "NA"], 400),
        ],
    }
}

fn reached_ids(net: &Network, mask: &[bool]) -> Vec<String> {
    let mut ids: Vec<String> = net
        .buses
        .iter()
        .zip(mask)
        .filter(|(_, &r)| r)
        .map(|(b, _)| b.id.clone())
        .collect();
    ids.sort();
    ids
}

#[test]
fn parses_and_counts() {
    let net = sample();
    assert_eq!(net.total_consumers(), 1200);
    assert_eq!(net.buses.len(), 9);
    assert_eq!(net.sources(), ["SD_A", "SD_B"]);
    net.validate().expect("rede válida");
}

#[test]
fn tie_is_recognized() {
    let net = sample();
    let na = net.buses.iter().find(|b| b.id == "NA").unwrap();
    assert!(na.is_tie());
}

#[test]
fn reachability_respects_open_switches() {
    let net = sample();
    let all = vec![true; net.branches.len()];
    let energizado = net.reachable_from("SD_A", &all);
    let ids = reached_ids(&net, &energizado);
    assert!(ids.contains(&"a2".to_string()));
    assert!(!ids.contains(&"b1".to_string()));
}

#[test]
fn downstream_uses_service_loss_instead_of_all_terminals() {
    let net = sample();
    let down = net.downstream_lines("sa").unwrap();
    let ids: Vec<&str> = down
        .iter()
        .filter_map(|&i| net.branches[i].id.as_deref())
        .collect();
    assert_eq!(ids, vec!["B"]);
}

#[test]
fn rejects_reference_to_undeclared_bus() {
    let mut net = sample();
    net.branches.push(line("solta", &["a2", "fantasma"], 10));
    assert!(net.validate().is_err());
}

#[test]
fn rejects_duplicate_bus_id() {
    let mut net = sample();
    net.buses.push(bus("a1", BusKind::Junction));
    assert!(net.validate().is_err());
}

#[test]
fn validation_messages_in_order() {
    let mut net = sample();
    net.buses.push(bus("a1", BusKind::Junction));
    net.branches.push(line("solta", &["a2", "fantasma", "a2"], 10));
    let err = net.validate().unwrap_err();
    assert_eq!(
        err.0,
        vec![
            "id de barramento duplicado: 'a1'".to_string(),
            "ramo 'solta' referencia barramento inexistente 'fantasma'".to_string(),
            "ramo 'solta' referencia o nó 'a2' mais de uma vez".to_string(),
        ]
    );
}

#[test]
fn validation_reports_missing_substation_and_disconnection() {
    let net = Network {
        buses: vec![bus("x", BusKind::Junction), bus("y", BusKind::Junction), bus("z", closed())],
        branches: vec![line("xy", &["x", "y"], 1), line("zz", &["z", "z"], 0)],
    };
    let err = net.validate().unwrap_err();
    assert_eq!(
        err.0,
        vec![
            "a rede não tem nenhuma subestação (kind: Substation)".to_string(),
            "ramo 'zz' referencia o nó 'z' mais de uma vez".to_string(),
            "ramo 'zz' precisa interligar ao menos dois nós distintos".to_string(),
            "barramento 'z' está desconectado do restante da rede".to_string(),
        ]
    );
}

#[test]
fn branch_id_problems() {
    let mut net = sample();
    net.branches.push(line("A", &["a1", "a2"], 0));
    net.branches.push(line("a1", &["a1", "a2"], 0));
    let err = net.validate().unwrap_err();
    assert_eq!(
        err.0,
        vec![
            "id de ramo duplicado: 'A'".to_string(),
            "id de ramo 'a1' colide com id de barramento/chave".to_string(),
        ]
    );
}

#[test]
fn label_joins_terminals_without_id() {
    let b = Branch {
        id: None,
        nodes: vec!["p".to_string(), "q".to_string(), "r".to_string()],
        element: Element::Line { consumers: 3 },
    };
    assert_eq!(b.label(), "p-q-r");
    assert_eq!(b.consumers(), 3);
    assert_eq!(line("id", &["p"], 0).label(), "id");
}

#[test]
fn indices_and_counts() {
    let net = sample();
    assert_eq!(net.bus_index("sa"), Some(3));
    assert_eq!(net.bus_index("nada"), None);
    assert_eq!(net.switch_index("sa"), Some(3));
    assert_eq!(net.switch_index("a1"), None);
    assert_eq!(net.branch_index("C"), Some(4));
    assert_eq!(net.branch_index("nada"), None);
    assert_eq!(net.line_indices(), vec![0, 1, 2, 3, 4]);
    assert_eq!(net.consumers_of(&vec![1, 4]), 900);
    assert_eq!(net.switches(), ["dA", "sa", "NA", "dB"]);
    assert_eq!(net.bus_ids().len(), 9);
}

#[test]
fn bus_ids_are_sorted_and_distinct() {
    let mut net = sample();
    net.buses.push(bus("a1", BusKind::Junction));
    assert_eq!(
        net.bus_ids(),
        ["NA", "SD_A", "SD_B", "a1", "a2", "b1", "dA", "dB", "sa"]
    );
}

#[test]
fn point_load_line_cases() {
    let net = sample();
    assert_eq!(net.point_load_line("a1"), Ok(1));
    assert_eq!(
        net.point_load_line("NA"),
        Err(PointLoadError::AmbiguousConsumerLine("NA".to_string()))
    );
    assert_eq!(
        net.point_load_line("SD_A"),
        Err(PointLoadError::NoConsumerLine("SD_A".to_string()))
    );
    assert_eq!(
        net.point_load_line("zz"),
        Err(PointLoadError::UnknownBus("zz".to_string()))
    );
}

#[test]
fn energized_and_served() {
    let net = sample();
    let all = vec![true; net.branches.len()];
    let normal = net.normal_conduction();
    let e = net.energized(&all, &normal);
    assert_eq!(e, vec![true, true, true, true, true, false, true, true, true]);
    assert!(net.line_served(2, &e));
    let mut cut = normal.clone();
    cut[1] = false;
    let e2 = net.energized(&all, &cut);
    assert!(!net.line_served(1, &e2));
    assert!(!net.line_served(2, &e2));
    assert!(net.line_served(4, &e2));
}
