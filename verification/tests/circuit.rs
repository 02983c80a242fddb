use quantum_circuit_wars::Amp;
use quantum_circuit_wars::Matrix;
use quantum_circuit_wars::circuit::{Game, Edge, port};
use quantum_circuit_wars::circuit::gate::{Gate, Input, Output, Not};

#[test]
fn gate_arities() {
    assert_eq!(0, Input::new().max_in());
    assert_eq!(1, Input::new().max_out());
    assert_eq!(1, Output::new().max_in());
    assert_eq!(0, Output::new().max_out());
    assert_eq!(1, Not::new().max_in());
    assert_eq!(1, Not::new().max_out());
}

#[test]
fn process_wrong_arity_yields_nothing() {
    // A gate fed the wrong number of inputs yields an empty sequence and
    // never fails.
    let one_qubit = Matrix::from_rows(2, 1, vec![Amp::one(), Amp::zero()]);
    let none: Vec<Matrix> = Vec::new();
    let one = vec![one_qubit.clone()];
    let two = vec![one_qubit.clone(), one_qubit.clone()];

    assert_eq!(0, Input::new().process(&one).len());
    assert_eq!(0, Input::new().process(&two).len());
    assert_eq!(0, Not::new().process(&none).len());
    assert_eq!(0, Not::new().process(&two).len());
    assert_eq!(0, Output::new().process(&none).len());
    assert_eq!(0, Output::new().process(&two).len());
}

#[test]
fn process_right_arity() {
    // A fresh source emits the basis state 0; the sink emits nothing; NOT
    // exchanges the two amplitudes.
    let source_out = Input::new().process(&Vec::new());
    assert_eq!(1, source_out.len());
    assert_eq!(
        Matrix::from_rows(2, 1, vec![Amp::one(), Amp::zero()]),
        source_out[0]
    );

    let sink_in = vec![Matrix::from_rows(2, 1, vec![Amp::one(), Amp::zero()])];
    assert_eq!(0, Output::new().process(&sink_in).len());

    let state = Matrix::from_rows(2, 1, vec![Amp::new(0, 1, 0, 0, 1), Amp::zero()]);
    let flipped = Not::new().process(&vec![state]);
    assert_eq!(1, flipped.len());
    assert_eq!(
        Matrix::from_rows(2, 1, vec![Amp::zero(), Amp::new(0, 1, 0, 0, 1)]),
        flipped[0]
    );
}

#[test]
fn connect_replaces_prior_edge() {
    // An input port never carries two incoming edges: a second connect into
    // the same port replaces the first.
    let mut gv: Game<u32> = Game::new();
    let a = gv.add(Input::new(), 10);
    let b = gv.add(Input::new(), 11);
    let c = gv.add(Output::new(), 12);
    assert!(gv.connect(port(a, 0), port(c, 0)));
    assert_eq!(1, gv.connections());
    assert!(gv.connect(port(b, 0), port(c, 0)));
    assert_eq!(1, gv.connections());
    let edges = gv.iter_connections();
    assert_eq!(1, edges.len());
    assert_eq!(port(b, 0), edges[0].from);
    assert_eq!(port(c, 0), edges[0].to);
}

#[test]
fn connect_rejects_bad_ports() {
    let mut gv: Game<u32> = Game::new();
    let a = gv.add(Input::new(), 0);
    let b = gv.add(Output::new(), 1);
    // Dead handle.
    assert!(!gv.connect(port(7, 0), port(b, 0)));
    // Port number at the declared arity.
    assert!(!gv.connect(port(a, 1), port(b, 0)));
    assert!(!gv.connect(port(a, 0), port(b, 1)));
    // An Input gate has no input ports at all.
    assert!(!gv.connect(port(a, 0), port(a, 0)));
    assert_eq!(0, gv.connections());
    assert!(gv.connect(port(a, 0), port(b, 0)));
    assert_eq!(1, gv.connections());
}

#[test]
fn remove_severs_edges_and_handle() {
    // Removing a node removes every edge it touches and makes the handle
    // absent from reads and iteration.
    let mut gv: Game<u32> = Game::new();
    let a = gv.add(Input::new(), 1);
    let b = gv.add(Not::new(), 2);
    let c = gv.add(Output::new(), 3);
    assert!(gv.connect(port(a, 0), port(b, 0)));
    assert!(gv.connect(port(b, 0), port(c, 0)));
    assert_eq!(2, gv.connections());

    let removed = gv.remove(b);
    assert!(removed.is_some());
    let (gate, data) = removed.unwrap();
    assert!(matches!(gate, Gate::Not));
    assert_eq!(2, data);

    assert!(gv.get(b).is_none());
    assert_eq!(0, gv.connections());
    let ids = gv.iter();
    assert_eq!(vec![a, c], ids);

    // A second removal of the same handle yields nothing.
    assert!(gv.remove(b).is_none());
    // A dead handle is never handed out again.
    let d = gv.add(Output::new(), 4);
    assert_ne!(b, d);
}

#[test]
fn disconnect_returns_source() {
    let mut gv: Game<&str> = Game::new();
    let a = gv.add(Input::new(), "src");
    let b = gv.add(Output::new(), "snk");
    assert!(gv.connect(port(a, 0), port(b, 0)));
    assert_eq!(Some(port(a, 0)), gv.disconnect(port(b, 0)));
    assert_eq!(0, gv.connections());
    assert_eq!(None, gv.disconnect(port(b, 0)));
}

#[test]
fn get_and_mutate() {
    let mut gv: Game<i64> = Game::new();
    let a = gv.add(Input::new(), -5);
    {
        let (gate, data) = gv.get(a).unwrap();
        assert_eq!(0, gate.max_in());
        assert_eq!(&-5, data);
    }
    *gv.get_data_mut(a) = 9;
    assert_eq!(&9, gv.get(a).unwrap().1);
    *gv.get_process_mut(a) = Not::new();
    assert_eq!(1, gv.get(a).unwrap().0.max_in());
    assert!(gv.get(99).is_none());
}

#[test]
fn edges_are_plain_pairs() {
    let e = Edge { from: port(0, 0), to: port(1, 0) };
    assert_eq!(e, Edge { from: port(0, 0), to: port(1, 0) });
}

#[test]
fn view_reads_nodes() {
    let mut gv: Game<u8> = Game::new();
    let a = gv.add(Input::new(), 7);
    let v = gv.view();
    let (gate, data) = v.get(a).unwrap();
    assert_eq!(0, gate.max_in());
    assert_eq!(&7, data);
    assert!(v.get(a + 1).is_none());
}
