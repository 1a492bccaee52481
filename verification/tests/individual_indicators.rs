use decfec::fault::{Action, Event, Scenario};
use decfec::topology::{Branch, Bus, BusKind, Element, Network, State};

fn network() -> Network {
    let buses = [
        ("SD1", BusKind::Substation),
        ("A", BusKind::Switch { normal: State::Closed }),
        ("F2", BusKind::Junction),
        ("B", BusKind::Switch { normal: State::Closed }),
        ("D", BusKind::Switch { normal: State::Closed }),
        ("C", BusKind::Switch { normal: State::Closed }),
        ("E", BusKind::Switch { normal: State::Closed }),
        ("F1", BusKind::Junction),
        ("X", BusKind::Junction),
        ("NA1", BusKind::Switch { normal: State::Open }),
        ("G", BusKind::Switch { normal: State::Closed }),
        ("F", BusKind::Switch { normal: State::Closed }),
        ("H", BusKind::Switch { normal: State::Closed }),
        ("SD2", BusKind::Substation),
        ("J", BusKind::Switch { normal: State::Closed }),
        ("I", BusKind::Switch { normal: State::Closed }),
        ("F4", BusKind::Junction),
        ("K", BusKind::Switch { normal: State::Closed }),
        ("NA2", BusKind::Switch { normal: State::Open }),
        ("b1_copy", BusKind::Junction),
        ("O", BusKind::Switch { normal: State::Closed }),
        ("N", BusKind::Switch { normal: State::Closed }),
        ("F3", BusKind::Junction),
        ("P", BusKind::Switch { normal: State::Closed }),
        ("M", BusKind::Switch { normal: State::Closed }),
        ("b2", BusKind::Junction),
        ("L", BusKind::Switch { normal: State::Closed }),
        ("F5", BusKind::Junction),
        ("SD3", BusKind::Substation),
        ("Y", BusKind::Junction),
    ];
    let branches: [(&str, &[&str], u32); 23] = [
        ("ramo_SD1_A", &["SD1", "A"], 0),
        ("ramo_A_F2", &["A", "F2"], 0),
        ("ramo_A_B", &["F2", "B"], 300),
        ("ramo_D_C_B", &["D", "C", "B"], 200),
        ("ramo_D_E", &["D", "E"], 100),
        ("ramo_F1_E", &["F1", "E"], 0),
        ("ramo_F1_b1", &["F1", "X"], 50),
        ("ramo_NA1_C", &["NA1", "C"], 150),
        ("ramo_NA1_G", &["NA1", "G"], 100),
        ("ramo_H_G_F", &["H", "G", "F"], 300),
        ("ramo_SD2_F", &["SD2", "F"], 0),
        ("ramo_J_H_I", &["J", "H", "I"], 400),
        ("ramo_J_F4", &["J", "F4"], 200),
        ("ramo_NA2_K_I", &["NA2", "K", "I"], 100),
        ("ramo_b1_copy_K", &["b1_copy", "K"], 100),
        ("ramo_F3_N", &["F3", "N"], 0),
        ("ramo_O_F3", &["O", "F3"], 200),
        ("ramo_P_b2", &["P", "b2"], 150),
        ("ramo_P_M_N", &["P", "M", "N"], 300),
        ("ramo_L_F5", &["L", "F5"], 0),
        ("ramo_F5_M", &["F5", "M"], 500),
        ("ramo_SD3_L", &["SD3", "L"], 0),
        ("ramo_O_Y_NA2", &["O", "Y", "NA2"], 100),
    ];
    Network {
        buses: buses.iter().map(|(id, kind)| Bus { id: id.to_string(), kind: *kind }).collect(),
        branches: branches
            .iter()
            .map(|(id, nodes, consumers)| Branch {
                id: Some(id.to_string()),
                nodes: nodes.iter().map(|n| n.to_string()).collect(),
                element: Element::Line { consumers: *consumers },
            })
            .collect(),
    }
}

fn scenario() -> Scenario {
    let events = [
        (0, "F1", Action::Fault),
        (0, "E", Action::Open),
        (120, "F1", Action::Repair),
        (120, "E", Action::Close),
        (200, "F2", Action::Fault),
        (200, "A", Action::Open),
        (220, "B", Action::Open),
        (220, "NA1", Action::Close),
        (250, "F2", Action::Repair),
        (250, "A", Action::Close),
        (250, "NA1", Action::Open),
        (250, "B", Action::Close),
        (300, "F3", Action::Fault),
        (300, "N", Action::Open),
        (480, "F3", Action::Repair),
        (480, "N", Action::Close),
        (500, "F4", Action::Fault),
        (500, "J", Action::Open),
        (540, "F4", Action::Repair),
        (540, "J", Action::Close),
        (600, "F5", Action::Fault),
        (600, "L", Action::Open),
        (690, "M", Action::Open),
        (690, "NA2", Action::Close),
        (840, "F5", Action::Repair),
        (840, "L", Action::Close),
        (840, "NA2", Action::Open),
        (840, "M", Action::Close),
    ];
    Scenario {
        events: events
            .iter()
            .map(|(at, bus, action)| Event { at: *at, bus: bus.to_string(), action: *action })
            .collect(),
    }
}

/// DIC (h), FIC and DMIC (h) from the outages of a line, instants in minutes,
/// dropping outages shorter than 3 minutes.
fn dic_fic_dmic(intervals: &[decfec::fault::OutageInterval]) -> (f64, u32, f64) {
    let mut total = 0.0;
    let mut max: f64 = 0.0;
    let mut count = 0;
    for iv in intervals {
        let d = (iv.end - iv.start) as f64;
        if d >= 3.0 {
            total += d;
            max = max.max(d);
            count += 1;
        }
    }
    (total / 60.0, count, max / 60.0)
}

#[test]
fn calcula_dic_fic_dmic_para_x_e_y() {
    let net = network();
    net.validate().expect("topologia válida");
    let result = scenario().simulate(&net).expect("simulação válida");

    let x = net.point_load_line("X").expect("X é um ponto consumidor");
    let (dic, fic, dmic) = dic_fic_dmic(&result.intervals[x]);
    assert!((dic - 2.33).abs() < 0.01, "DIC X = {}", dic);
    assert_eq!(fic, 2, "FIC X");
    assert!((dmic - 2.0).abs() < 0.01, "DMIC X = {}", dmic);

    let y = net.point_load_line("Y").expect("Y é um ponto consumidor");
    let (dic, fic, dmic) = dic_fic_dmic(&result.intervals[y]);
    assert!((dic - 4.50).abs() < 0.01, "DIC Y = {}", dic);
    assert_eq!(fic, 2, "FIC Y");
    assert!((dmic - 3.0).abs() < 0.01, "DMIC Y = {}", dmic);
}

#[test]
fn downstream_consumers_of_the_reference_network() {
    let net = network();
    let down = |s: &str| net.consumers_of(&net.downstream_lines(s).unwrap());
    assert_eq!(down("A"), 800);
    assert_eq!(down("E"), 50);
    assert_eq!(net.total_consumers(), 3250);
    assert_eq!(net.consumers_of(&net.line_indices()), net.total_consumers());
}
