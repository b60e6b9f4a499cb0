use logic_graph::components::{AndGate, NandGate, NorGate, OrGate};
use logic_graph::pin_state::PinState;
use logic_graph::Component;

use PinState::{Conflicting, Floating, High, Low, Undefined};

const ALL: [PinState; 5] = [High, Low, Floating, Conflicting, Undefined];

fn level(b: bool) -> PinState {
    if b {
        High
    } else {
        Low
    }
}

#[test]
fn real_operands_follow_two_valued_logic() {
    for a in [true, false] {
        assert_eq!(!level(a), level(!a));
        for b in [true, false] {
            assert_eq!(level(a) & level(b), level(a && b));
            assert_eq!(level(a) | level(b), level(a || b));
            assert_eq!(level(a) ^ level(b), level(a != b));
        }
    }
}

#[test]
fn not_of_non_real_is_undefined() {
    assert_eq!(!Floating, Undefined);
    assert_eq!(!Conflicting, Undefined);
    assert_eq!(!Undefined, Undefined);
}

#[test]
fn dominant_operand_wins_over_errors() {
    for s in ALL {
        assert_eq!(Low & s, Low);
        assert_eq!(s & Low, Low);
        assert_eq!(High | s, High);
        assert_eq!(s | High, High);
    }
}

#[test]
fn error_operand_without_dominant_gives_undefined() {
    assert_eq!(High & Undefined, Undefined);
    assert_eq!(Conflicting & High, Undefined);
    assert_eq!(Low | Conflicting, Undefined);
    assert_eq!(Undefined | Floating, Undefined);
    assert_eq!(High ^ Floating, Undefined);
    assert_eq!(Conflicting ^ Low, Undefined);
}

#[test]
fn floating_without_error_falls_through() {
    assert_eq!(High & Floating, High);
    assert_eq!(Low | Floating, Low);
}

#[test]
fn assign_operators_match_binary_ones() {
    for a in ALL {
        for b in ALL {
            let mut x = a;
            x &= b;
            assert_eq!(x, a & b);
            let mut y = a;
            y |= b;
            assert_eq!(y, a | b);
            let mut z = a;
            z ^= b;
            assert_eq!(z, a ^ b);
        }
    }
}

#[test]
fn real_and_error_predicates() {
    assert!(High.is_real() && Low.is_real());
    assert!(!Floating.is_real() && !Conflicting.is_real() && !Undefined.is_real());
    assert!(Conflicting.is_error() && Undefined.is_error());
    assert!(!High.is_error() && !Low.is_error() && !Floating.is_error());
}

#[test]
fn and_gate_high_low_gives_low() {
    assert_eq!(AndGate.calculate(&[High, Low]), vec![Low]);
    assert_eq!(AndGate.calculate(&[High, High]), vec![High]);
}

#[test]
fn nor_gate_low_low_gives_high() {
    assert_eq!(NorGate.calculate(&[Low, Low]), vec![High]);
}

#[test]
fn nor_gate_high_dominates_floating() {
    assert_eq!(NorGate.calculate(&[High, Floating]), vec![Low]);
}

#[test]
fn gates_with_error_and_no_dominant_input_are_undefined() {
    assert_eq!(AndGate.calculate(&[High, Undefined]), vec![Undefined]);
    assert_eq!(OrGate.calculate(&[Low, Conflicting]), vec![Undefined]);
    assert_eq!(NandGate.calculate(&[Floating, Undefined, High]), vec![Undefined]);
    assert_eq!(NorGate.calculate(&[Conflicting]), vec![Undefined]);
}

#[test]
fn nand_gate_low_dominates_errors() {
    assert_eq!(NandGate.calculate(&[Undefined, Low, Conflicting]), vec![High]);
    assert_eq!(NandGate.calculate(&[High, High]), vec![Low]);
}

#[test]
fn or_gate_truth_values() {
    assert_eq!(OrGate.calculate(&[Low, High]), vec![High]);
    assert_eq!(OrGate.calculate(&[Low, Low]), vec![Low]);
    assert_eq!(OrGate.calculate(&[]), vec![Low]);
}

#[test]
fn gate_arities() {
    assert_eq!(AndGate.output_count(), 1);
    assert_eq!(NorGate.input_count(), logic_graph::InputPinCount::Any);
}
