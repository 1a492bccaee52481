use decfec::fault::{Action, Event, Scenario};
use decfec::target::resolve_target;
use decfec::topology::{Branch, Bus, BusKind, Element, Network, State};

fn bus(id: &str, kind: BusKind) -> Bus {
    Bus { id: id.to_string(), kind }
}

fn line(id: &str, nodes: &[&str], consumers: u32) -> Branch {
    Branch {
        id: Some(id.to_string()),
        nodes: nodes.iter().map(|n| n.to_string()).collect(),
        element: Element::Line { consumers },
    }
}

fn closed() -> BusKind {
    BusKind::Switch { normal: State::Closed }
}

fn sample() -> Network {
    Network {
        buses: vec![
            bus("SD_A", BusKind::Substation),
            bus("dA", closed()),
            bus("a1", BusKind::Junction),
            bus("sa", closed()),
            bus("a2", BusKind::Junction),
            bus("NA", BusKind::Switch { normal: State::Open }),
            bus("SD_B", BusKind::Substation),
            bus("dB", closed()),
            bus("b1", BusKind::Junction),
        ],
        branches: vec![
            line("feed_a", &["SD_A", "dA"], 0),
            line("A", &["dA", "a1", "sa"], 500),
            line("B", &["sa", "a2", "NA"], 300),
            line("feed_b", &["SD_B", "dB"], 0),
            line("C", &["dB", "b1", "NA"], 400),
        ],
    }
}

#[test]
fn no_target_is_the_whole_system() {
    let net = sample();
    for t in [None, Some("")] {
        let tg = resolve_target(&net, t).unwrap();
        assert_eq!(tg.lines, vec![0, 1, 2, 3, 4]);
        assert_eq!(tg.alvo, "sistema inteiro");
        assert!(tg.point.is_none());
    }
}

#[test]
fn point_target_is_trimmed_and_resolved() {
    let net = sample();
    let tg = resolve_target(&net, Some("bus: a1 ")).unwrap();
    assert_eq!(tg.lines, vec![1]);
    assert_eq!(tg.alvo, "ponto consumidor 'a1'");
    let p = tg.point.unwrap();
    assert_eq!(p.bus, "a1");
    assert_eq!(p.line, 1);
    assert_eq!(p.line_label, "A");
}

#[test]
fn point_target_errors() {
    let net = sample();
    assert_eq!(
        resolve_target(&net, Some("bus:NA")).unwrap_err(),
        "barramento 'NA' pertence a mais de um ramo com consumidores"
    );
    assert_eq!(
        resolve_target(&net, Some("bus:zz")).unwrap_err(),
        "barramento 'zz' não encontrado"
    );
    assert_eq!(
        resolve_target(&net, Some("bus:SD_A")).unwrap_err(),
        "barramento 'SD_A' não pertence a nenhum ramo com consumidores"
    );
}

#[test]
fn switch_target_is_its_downstream_set() {
    let net = sample();
    let tg = resolve_target(&net, Some("sa")).unwrap();
    assert_eq!(tg.lines, vec![2]);
    assert_eq!(tg.alvo, "a jusante da chave 'sa'");
    assert!(tg.point.is_none());
    assert_eq!(
        resolve_target(&net, Some("a1")).unwrap_err(),
        "chave 'a1' não encontrada"
    );
}

#[test]
fn point_target_gives_individual_indicators() {
    let net = Network {
        buses: vec![
            bus("S", BusKind::Substation),
            bus("br", closed()),
            bus("X", BusKind::Junction),
        ],
        branches: vec![line("feed", &["S", "br"], 0), line("carga_x", &["br", "X"], 10)],
    };
    let scenario = Scenario {
        events: vec![
            Event { at: 0, bus: "br".to_string(), action: Action::Open },
            Event { at: 30, bus: "br".to_string(), action: Action::Close },
        ],
    };
    let tg = resolve_target(&net, Some("bus:X")).unwrap();
    let point = tg.point.expect("a consumer point");
    assert_eq!(point.bus, "X");
    assert_eq!(point.line_label, "carga_x");
    let res = scenario.simulate(&net).unwrap();
    // Instants are minutes; interruptions under 3 min do not count.
    let counted: Vec<f64> = res.intervals[point.line]
        .iter()
        .map(|iv| (iv.end - iv.start) as f64)
        .filter(|d| *d >= 3.0)
        .collect();
    let dic_h = counted.iter().sum::<f64>() / 60.0;
    let dmic_h = counted.iter().cloned().fold(0.0, f64::max) / 60.0;
    assert!((dic_h - 0.5).abs() < 1e-9);
    assert_eq!(counted.len(), 1);
    assert!((dmic_h - 0.5).abs() < 1e-9);
}
