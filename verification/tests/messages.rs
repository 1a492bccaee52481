use decfec::fault::SimError;
use decfec::text::decimal;
use decfec::topology::{Branch, Bus, BusKind, Element, Network, PointLoadError, State};
use decfec::validate::TopologyError;

#[test]
fn topology_error_text() {
    let e = TopologyError(vec!["a".to_string(), "bc".to_string()]);
    assert_eq!(e.message(), "topologia inválida (2 problema(s)):\n  - a\n  - bc\n");
}

#[test]
fn point_load_error_text() {
    assert_eq!(
        PointLoadError::UnknownBus("X".into()).message(),
        "barramento 'X' não encontrado"
    );
    assert_eq!(
        PointLoadError::NoConsumerLine("X".into()).message(),
        "barramento 'X' não pertence a nenhum ramo com consumidores"
    );
    assert_eq!(
        PointLoadError::AmbiguousConsumerLine("X".into()).message(),
        "barramento 'X' pertence a mais de um ramo com consumidores"
    );
}

#[test]
fn sim_error_text() {
    assert_eq!(
        SimError::UnknownBus("q".into()).message(),
        "evento referencia barra inexistente: 'q'"
    );
    assert_eq!(
        SimError::UnknownSwitch("q".into()).message(),
        "evento referencia chave inexistente: 'q'"
    );
}

#[test]
fn decimal_numbers() {
    assert_eq!(decimal(0), "0");
    assert_eq!(decimal(7), "7");
    assert_eq!(decimal(10), "10");
    assert_eq!(decimal(5400), "5400");
    assert_eq!(decimal(1234567890), "1234567890");
}

#[test]
fn adjacency_lists_incident_branches() {
    let net = Network {
        buses: vec![
            Bus { id: "a".into(), kind: BusKind::Substation },
            Bus { id: "b".into(), kind: BusKind::Switch { normal: State::Closed } },
            Bus { id: "c".into(), kind: BusKind::Junction },
        ],
        branches: vec![
            Branch { id: None, nodes: vec!["a".into(), "b".into()], element: Element::Line { consumers: 1 } },
            Branch { id: None, nodes: vec!["b".into(), "c".into(), "b".into()], element: Element::Line { consumers: 2 } },
            Branch { id: None, nodes: vec!["c".into(), "ghost".into()], element: Element::Line { consumers: 3 } },
        ],
    };
    let adj = net.adjacency();
    let find = |k: &str| adj.iter().find(|(n, _)| n == k).map(|(_, v)| v.clone());
    assert_eq!(adj.len(), 4);
    assert_eq!(find("a"), Some(vec![0]));
    assert_eq!(find("b"), Some(vec![0, 1, 1]));
    assert_eq!(find("c"), Some(vec![1, 2]));
    assert_eq!(find("ghost"), Some(vec![2]));
}
