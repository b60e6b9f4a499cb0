use vstd::prelude::*;

use crate::pin_state::PinState;
use crate::{Component, InputPinCount};

verus! {

/// `true` when some input holds `v`.
pub open spec fn holds(inputs: Seq<PinState>, v: PinState) -> bool {
    exists|i: int| 0 <= i < inputs.len() && inputs[i] == v
}

/// `true` when some input is `Conflicting` or `Undefined`.
pub open spec fn holds_error(inputs: Seq<PinState>) -> bool {
    exists|i: int| 0 <= i < inputs.len() && inputs[i].spec_is_error()
}

/// The output of an N-ary gate: `on_dominant` when some input holds the
/// dominant value, else `Undefined` when some input is an error state, else
/// `otherwise`.
pub open spec fn reduce(
    inputs: Seq<PinState>,
    dominant: PinState,
    on_dominant: PinState,
    otherwise: PinState,
) -> PinState {
    if holds(inputs, dominant) {
        on_dominant
    } else if holds_error(inputs) {
        PinState::Undefined
    } else {
        otherwise
    }
}

fn contains_state(inputs: &[PinState], v: PinState) -> (r: bool)
    ensures
        r == holds(inputs@, v),
{
    let mut i: usize = 0;
    while i < inputs.len()
        invariant
            i <= inputs@.len(),
            forall|j: int| 0 <= j < i ==> inputs@[j] != v,
        decreases inputs@.len() - i,
    {
        if inputs[i] == v {
            return true;
        }
        i = i + 1;
    }
    false
}

fn contains_error(inputs: &[PinState]) -> (r: bool)
    ensures
        r == holds_error(inputs@),
{
    let mut i: usize = 0;
    while i < inputs.len()
        invariant
            i <= inputs@.len(),
            forall|j: int| 0 <= j < i ==> !inputs@[j].spec_is_error(),
        decreases inputs@.len() - i,
    {
        if inputs[i].is_error() {
            return true;
        }
        i = i + 1;
    }
    false
}

fn gate_output(inputs: &[PinState], dominant: PinState, on_dominant: PinState, otherwise: PinState) -> (r: PinState)
    ensures
        r == reduce(inputs@, dominant, on_dominant, otherwise),
{
    if contains_state(inputs, dominant) {
        on_dominant
    } else if contains_error(inputs) {
        PinState::Undefined
    } else {
        otherwise
    }
}

/// A source whose single output is a value set from outside the circuit.
#[derive(Clone, Copy, Debug)]
pub struct InputPin {
    pub value: PinState,
}

impl InputPin {
    pub fn new(value: PinState) -> (r: Self)
        ensures
            r.value == value,
    {
        InputPin { value }
    }
}

impl Component for InputPin {
    open spec fn outputs_for(&self, inputs: Seq<PinState>) -> Seq<PinState> {
        seq![self.value]
    }

    open spec fn spec_input_count(&self) -> InputPinCount {
        InputPinCount::Fixed(0)
    }

    open spec fn spec_output_count(&self) -> nat {
        1
    }

    fn calculate(&self, _inputs: &[PinState]) -> (r: Vec<PinState>) {
        vec![self.value]
    }

    fn input_count(&self) -> (r: InputPinCount) {
        InputPinCount::Fixed(0)
    }

    fn output_count(&self) -> (r: usize) {
        1
    }
}

/// A sink with one input and no outputs; the value it observes is the state
/// of that input, read through the circuit.
#[derive(Clone, Copy, Debug)]
pub struct OutputPin;

impl OutputPin {
    pub fn new() -> (r: Self) {
        OutputPin
    }
}

impl Component for OutputPin {
    open spec fn outputs_for(&self, inputs: Seq<PinState>) -> Seq<PinState> {
        Seq::empty()
    }

    open spec fn spec_input_count(&self) -> InputPinCount {
        InputPinCount::Fixed(1)
    }

    open spec fn spec_output_count(&self) -> nat {
        0
    }

    fn calculate(&self, _inputs: &[PinState]) -> (r: Vec<PinState>) {
        Vec::new()
    }

    fn input_count(&self) -> (r: InputPinCount) {
        InputPinCount::Fixed(1)
    }

    fn output_count(&self) -> (r: usize) {
        0
    }
}

/// `Low` if any input is `Low`, else `Undefined` if any is an error, else `High`.
#[derive(Clone, Copy, Debug)]
pub struct AndGate;

impl Component for AndGate {
    open spec fn outputs_for(&self, inputs: Seq<PinState>) -> Seq<PinState> {
        seq![reduce(inputs, PinState::Low, PinState::Low, PinState::High)]
    }

    open spec fn spec_input_count(&self) -> InputPinCount {
        InputPinCount::Any
    }

    open spec fn spec_output_count(&self) -> nat {
        1
    }

    fn calculate(&self, inputs: &[PinState]) -> (r: Vec<PinState>) {
        vec![gate_output(inputs, PinState::Low, PinState::Low, PinState::High)]
    }

    fn input_count(&self) -> (r: InputPinCount) {
        InputPinCount::Any
    }

    fn output_count(&self) -> (r: usize) {
        1
    }
}

/// `High` if any input is `High`, else `Undefined` if any is an error, else `Low`.
#[derive(Clone, Copy, Debug)]
pub struct OrGate;

impl Component for OrGate {
    open spec fn outputs_for(&self, inputs: Seq<PinState>) -> Seq<PinState> {
        seq![reduce(inputs, PinState::High, PinState::High, PinState::Low)]
    }

    open spec fn spec_input_count(&self) -> InputPinCount {
        InputPinCount::Any
    }

    open spec fn spec_output_count(&self) -> nat {
        1
    }

    fn calculate(&self, inputs: &[PinState]) -> (r: Vec<PinState>) {
        vec![gate_output(inputs, PinState::High, PinState::High, PinState::Low)]
    }

    fn input_count(&self) -> (r: InputPinCount) {
        InputPinCount::Any
    }

    fn output_count(&self) -> (r: usize) {
        1
    }
}

/// `High` if any input is `Low`, else `Undefined` if any is an error, else `Low`.
#[derive(Clone, Copy, Debug)]
pub struct NandGate;

impl Component for NandGate {
    open spec fn outputs_for(&self, inputs: Seq<PinState>) -> Seq<PinState> {
        seq![reduce(inputs, PinState::Low, PinState::High, PinState::Low)]
    }

    open spec fn spec_input_count(&self) -> InputPinCount {
        InputPinCount::Any
    }

    open spec fn spec_output_count(&self) -> nat {
        1
    }

    fn calculate(&self, inputs: &[PinState]) -> (r: Vec<PinState>) {
        vec![gate_output(inputs, PinState::Low, PinState::High, PinState::Low)]
    }

    fn input_count(&self) -> (r: InputPinCount) {
        InputPinCount::Any
    }

    fn output_count(&self) -> (r: usize) {
        1
    }
}

/// `Low` if any input is `High`, else `Undefined` if any is an error, else `High`.
#[derive(Clone, Copy, Debug)]
pub struct NorGate;

impl Component for NorGate {
    open spec fn outputs_for(&self, inputs: Seq<PinState>) -> Seq<PinState> {
        seq![reduce(inputs, PinState::High, PinState::Low, PinState::High)]
    }

    open spec fn spec_input_count(&self) -> InputPinCount {
        InputPinCount::Any
    }

    open spec fn spec_output_count(&self) -> nat {
        1
    }

    fn calculate(&self, inputs: &[PinState]) -> (r: Vec<PinState>) {
        vec![gate_output(inputs, PinState::High, PinState::Low, PinState::High)]
    }

    fn input_count(&self) -> (r: InputPinCount) {
        InputPinCount::Any
    }

    fn output_count(&self) -> (r: usize) {
        1
    }
}

/// Any element a circuit can hold.
#[derive(Clone, Copy, Debug)]
pub enum Element {
    Input(InputPin),
    Output(OutputPin),
    And(AndGate),
    Or(OrGate),
    Nand(NandGate),
    Nor(NorGate),
}

impl Component for Element {
    open spec fn outputs_for(&self, inputs: Seq<PinState>) -> Seq<PinState> {
        match self {
            Element::Input(c) => c.outputs_for(inputs),
            Element::Output(c) => c.outputs_for(inputs),
            Element::And(c) => c.outputs_for(inputs),
            Element::Or(c) => c.outputs_for(inputs),
            Element::Nand(c) => c.outputs_for(inputs),
            Element::Nor(c) => c.outputs_for(inputs),
        }
    }

    open spec fn spec_input_count(&self) -> InputPinCount {
        match self {
            Element::Input(c) => c.spec_input_count(),
            Element::Output(c) => c.spec_input_count(),
            Element::And(c) => c.spec_input_count(),
            Element::Or(c) => c.spec_input_count(),
            Element::Nand(c) => c.spec_input_count(),
            Element::Nor(c) => c.spec_input_count(),
        }
    }

    open spec fn spec_output_count(&self) -> nat {
        match self {
            Element::Input(c) => c.spec_output_count(),
            Element::Output(c) => c.spec_output_count(),
            Element::And(c) => c.spec_output_count(),
            Element::Or(c) => c.spec_output_count(),
            Element::Nand(c) => c.spec_output_count(),
            Element::Nor(c) => c.spec_output_count(),
        }
    }

    fn calculate(&self, inputs: &[PinState]) -> (r: Vec<PinState>) {
        match self {
            Element::Input(c) => c.calculate(inputs),
            Element::Output(c) => c.calculate(inputs),
            Element::And(c) => c.calculate(inputs),
            Element::Or(c) => c.calculate(inputs),
            Element::Nand(c) => c.calculate(inputs),
            Element::Nor(c) => c.calculate(inputs),
        }
    }

    fn input_count(&self) -> (r: InputPinCount) {
        match self {
            Element::Input(c) => c.input_count(),
            Element::Output(c) => c.input_count(),
            Element::And(c) => c.input_count(),
            Element::Or(c) => c.input_count(),
            Element::Nand(c) => c.input_count(),
            Element::Nor(c) => c.input_count(),
        }
    }

    fn output_count(&self) -> (r: usize) {
        match self {
            Element::Input(c) => c.output_count(),
            Element::Output(c) => c.output_count(),
            Element::And(c) => c.output_count(),
            Element::Or(c) => c.output_count(),
            Element::Nand(c) => c.output_count(),
            Element::Nor(c) => c.output_count(),
        }
    }
}

pub open spec fn is_gate(e: Element) -> bool {
    e is And || e is Or || e is Nand || e is Nor
}

/// The input value that decides a gate's output on its own.
pub open spec fn dominant(e: Element) -> PinState {
    match e {
        Element::And(_) | Element::Nand(_) => PinState::Low,
        _ => PinState::High,
    }
}

/// A gate with an error input and no dominant input outputs `Undefined`.
pub proof fn lemma_error_without_dominant(e: Element, inputs: Seq<PinState>)
    requires
        is_gate(e),
        holds_error(inputs),
        !holds(inputs, dominant(e)),
    ensures
        e.outputs_for(inputs) == seq![PinState::Undefined],
{
}

/// A gate with a dominant input outputs what that value decides, whatever
/// the other inputs hold.
pub proof fn lemma_dominant_decides(e: Element, inputs: Seq<PinState>)
    requires
        is_gate(e),
        holds(inputs, dominant(e)),
    ensures
        e.outputs_for(inputs) == seq![
            if e is And || e is Nor { PinState::Low } else { PinState::High }
        ],
{
}

} // verus!
