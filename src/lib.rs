pub mod circuit;
pub mod components;
pub mod pin_state;

use vstd::prelude::*;

use crate::pin_state::PinState;

verus! {

/// One wire, from an output pin of its source node to an input pin of its
/// sink node, with the state last sent along it.
#[derive(Clone, Copy, Debug)]
pub struct Connection {
    pub state: PinState,
    pub source_id: usize,
    pub sink_id: usize,
}

/// How many input pins a component has.
#[derive(Clone, Copy, Debug, PartialEq, Eq, Structural)]
pub enum InputPinCount {
    /// The component has a fixed number of pins.
    Fixed(usize),
    /// The component can have any number of pins on this side.
    Any,
}

/// What every circuit element offers: outputs computed from inputs, and the
/// number of pins on each side.
pub trait Component {
    /// The outputs for the given input vector.
    spec fn outputs_for(&self, inputs: Seq<PinState>) -> Seq<PinState>;

    spec fn spec_input_count(&self) -> InputPinCount;

    spec fn spec_output_count(&self) -> nat;

    fn calculate(&self, inputs: &[PinState]) -> (r: Vec<PinState>)
        ensures
            r@ == self.outputs_for(inputs@),
            r@.len() == self.spec_output_count(),
    ;

    fn input_count(&self) -> (r: InputPinCount)
        ensures
            r == self.spec_input_count(),
    ;

    fn output_count(&self) -> (r: usize)
        ensures
            r == self.spec_output_count(),
    ;
}

} // verus!
