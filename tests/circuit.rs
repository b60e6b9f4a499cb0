use logic_graph::circuit::{Circuit, ConnectError};
use logic_graph::components::{AndGate, Element, InputPin, NorGate, OutputPin};
use logic_graph::pin_state::PinState;

use PinState::{Floating, High, Low, Undefined};

fn input(c: &mut Circuit, value: PinState) -> usize {
    c.add_component(Element::Input(InputPin::new(value)))
}

fn output(c: &mut Circuit) -> usize {
    c.add_component(Element::Output(OutputPin::new()))
}

#[test]
fn handles_are_given_in_order() {
    let mut c = Circuit::new();
    assert_eq!(c.node_count(), 0);
    assert_eq!(input(&mut c, Low), 0);
    assert_eq!(output(&mut c), 1);
    assert_eq!(c.add_component(Element::And(AndGate)), 2);
    assert_eq!(c.node_count(), 3);
}

#[test]
fn new_output_pin_reads_undefined() {
    let mut c = Circuit::new();
    let q = output(&mut c);
    assert_eq!(c.pin_value(q), Some(Undefined));
    let g = c.add_component(Element::And(AndGate));
    assert_eq!(c.pin_value(g), None);
    assert_eq!(c.pin_value(99), None);
}

#[test]
fn connect_to_missing_node_fails() {
    let mut c = Circuit::new();
    let a = input(&mut c, High);
    assert_eq!(c.connect(a, 0, 7, 0), Err(ConnectError::ComponentNotFound(7)));
    assert_eq!(c.connect(5, 0, a, 0), Err(ConnectError::ComponentNotFound(5)));
}

#[test]
fn connect_into_driven_input_fails_and_changes_nothing() {
    let mut c = Circuit::new();
    let a = input(&mut c, High);
    let b = input(&mut c, Low);
    let q = output(&mut c);
    c.recalculate(a);
    c.recalculate(b);
    assert_eq!(c.connect(a, 0, q, 0), Ok(()));
    assert_eq!(c.pin_value(q), Some(High));
    assert_eq!(c.connect(b, 0, q, 0), Err(ConnectError::InputAlreadyConnected));
    assert_eq!(c.pin_value(q), Some(High));
    assert_eq!(c.connect(a, 0, q, 0), Err(ConnectError::InputAlreadyConnected));
    assert_eq!(c.node_count(), 3);
}

#[test]
fn connect_from_missing_output_pin_fails() {
    let mut c = Circuit::new();
    let a = input(&mut c, High);
    let q = output(&mut c);
    assert_eq!(c.connect(a, 1, q, 0), Err(ConnectError::OutputPinDoesntExist));
    assert_eq!(c.connect(q, 0, a, 0), Err(ConnectError::OutputPinDoesntExist));
    assert_eq!(c.pin_value(q), Some(Undefined));
    assert_eq!(c.connect(a, 0, q, 0), Ok(()));
}

#[test]
fn connect_delivers_current_value() {
    let mut c = Circuit::new();
    let a = input(&mut c, High);
    c.recalculate(a);
    let q = output(&mut c);
    assert_eq!(c.connect(a, 0, q, 0), Ok(()));
    assert_eq!(c.pin_value(q), Some(High));
}

#[test]
fn unrecalculated_input_drives_floating() {
    let mut c = Circuit::new();
    let a = input(&mut c, High);
    let q = output(&mut c);
    assert_eq!(c.connect(a, 0, q, 0), Ok(()));
    assert_eq!(c.pin_value(q), Some(Floating));
}

#[test]
fn recalculate_twice_is_a_fixed_point() {
    let mut c = Circuit::new();
    let a = input(&mut c, Low);
    let g = c.add_component(Element::Nor(NorGate));
    let q = output(&mut c);
    assert_eq!(c.connect(a, 0, g, 0), Ok(()));
    assert_eq!(c.connect(g, 0, q, 0), Ok(()));
    c.set_pin_value(a, High);
    c.recalculate(a);
    assert_eq!(c.pin_value(q), Some(Low));
    c.recalculate(a);
    assert_eq!(c.pin_value(q), Some(Low));
    c.recalculate(g);
    assert_eq!(c.pin_value(q), Some(Low));
}

#[test]
fn and_gate_in_circuit() {
    let mut c = Circuit::new();
    let a = input(&mut c, High);
    let b = input(&mut c, Low);
    let g = c.add_component(Element::And(AndGate));
    let q = output(&mut c);
    c.recalculate(a);
    c.recalculate(b);
    assert_eq!(c.connect(a, 0, g, 0), Ok(()));
    assert_eq!(c.connect(b, 0, g, 1), Ok(()));
    assert_eq!(c.connect(g, 0, q, 0), Ok(()));
    assert_eq!(c.pin_value(q), Some(Low));
    c.set_pin_value(b, High);
    c.recalculate(b);
    assert_eq!(c.pin_value(q), Some(High));
}

#[test]
fn sparse_inputs_are_padded_with_undefined() {
    let mut c = Circuit::new();
    let a = input(&mut c, High);
    let g = c.add_component(Element::And(AndGate));
    let q = output(&mut c);
    c.recalculate(a);
    assert_eq!(c.connect(g, 0, q, 0), Ok(()));
    assert_eq!(c.connect(a, 0, g, 2), Ok(()));
    assert_eq!(c.pin_value(q), Some(Undefined));
}

#[test]
fn propagate_pushes_a_value_to_sinks() {
    let mut c = Circuit::new();
    let a = input(&mut c, Low);
    let q = output(&mut c);
    assert_eq!(c.connect(a, 0, q, 0), Ok(()));
    c.propagate(a, 0, High);
    assert_eq!(c.pin_value(q), Some(High));
    c.propagate(a, 1, Low);
    assert_eq!(c.pin_value(q), Some(High));
}

#[test]
fn accepts_input_follows_arity() {
    let mut c = Circuit::new();
    let a = input(&mut c, Low);
    let q = output(&mut c);
    let g = c.add_component(Element::Nor(NorGate));
    assert!(!c.accepts_input(a, 0));
    assert!(c.accepts_input(q, 0));
    assert!(!c.accepts_input(q, 1));
    assert!(c.accepts_input(g, 40));
    assert!(!c.accepts_input(9, 0));
}

#[test]
fn set_reset_latch_holds_its_state() {
    let mut c = Circuit::new();
    let top_nor = c.add_component(Element::Nor(NorGate));
    let bottom_nor = c.add_component(Element::Nor(NorGate));
    let set_input = input(&mut c, Low);
    let reset_input = input(&mut c, Low);
    let q_output = output(&mut c);
    let not_q_output = output(&mut c);

    assert_eq!(c.connect(set_input, 0, top_nor, 0), Ok(()));
    assert_eq!(c.connect(reset_input, 0, bottom_nor, 0), Ok(()));
    assert_eq!(c.connect(top_nor, 0, bottom_nor, 1), Ok(()));
    assert_eq!(c.connect(bottom_nor, 0, top_nor, 1), Ok(()));
    assert_eq!(c.connect(top_nor, 0, not_q_output, 0), Ok(()));
    assert_eq!(c.connect(bottom_nor, 0, q_output, 0), Ok(()));
    c.recalculate(reset_input);

    c.set_pin_value(set_input, High);
    c.recalculate(set_input);
    assert_eq!(c.pin_value(q_output), Some(High));
    assert_eq!(c.pin_value(not_q_output), Some(Low));

    c.set_pin_value(set_input, Low);
    c.recalculate(set_input);
    assert_eq!(c.pin_value(q_output), Some(High));
    assert_eq!(c.pin_value(not_q_output), Some(Low));

    c.set_pin_value(reset_input, High);
    c.recalculate(reset_input);
    assert_eq!(c.pin_value(q_output), Some(Low));
    assert_eq!(c.pin_value(not_q_output), Some(High));

    c.set_pin_value(reset_input, Low);
    c.recalculate(reset_input);
    assert_eq!(c.pin_value(q_output), Some(Low));
    assert_eq!(c.pin_value(not_q_output), Some(High));
}

#[test]
fn two_connections_between_the_same_nodes_both_stay() {
    let mut c = Circuit::new();
    let a = input(&mut c, High);
    let b = input(&mut c, Low);
    let g = c.add_component(Element::Nor(NorGate));
    let q = output(&mut c);
    c.recalculate(a);
    c.recalculate(b);
    assert_eq!(c.connect(g, 0, q, 0), Ok(()));
    assert_eq!(c.connect(a, 0, g, 0), Ok(()));
    assert_eq!(c.connect(a, 0, g, 1), Ok(()));
    assert_eq!(c.pin_value(q), Some(Low));
    assert_eq!(c.connect(b, 0, g, 0), Err(ConnectError::InputAlreadyConnected));
    assert_eq!(c.connect(b, 0, g, 1), Err(ConnectError::InputAlreadyConnected));
    c.set_pin_value(a, Low);
    c.recalculate(a);
    assert_eq!(c.pin_value(q), Some(High));
}

#[test]
fn errors_come_before_the_sink_pin_is_looked_at() {
    let mut c = Circuit::new();
    let a = input(&mut c, High);
    let b = input(&mut c, Low);
    assert_eq!(c.connect(9, 0, b, 3), Err(ConnectError::ComponentNotFound(9)));
    assert_eq!(c.connect(a, 1, b, 3), Err(ConnectError::OutputPinDoesntExist));
}

#[test]
fn connect_into_empty_and_gate_sets_its_inputs() {
    let mut c = Circuit::new();
    let i = input(&mut c, Low);
    let a = c.add_component(Element::Nor(NorGate));
    let b = c.add_component(Element::And(AndGate));
    let o = output(&mut c);
    c.recalculate(i);
    assert_eq!(c.connect(i, 0, a, 0), Ok(()));
    assert_eq!(c.connect(b, 0, o, 0), Ok(()));
    assert_eq!(c.pin_value(o), Some(Floating));
    assert_eq!(c.connect(a, 0, b, 0), Ok(()));
    assert_eq!(c.pin_value(o), Some(High));
    c.set_pin_value(i, High);
    c.recalculate(i);
    assert_eq!(c.pin_value(o), Some(Low));
}
