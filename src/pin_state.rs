use vstd::prelude::*;

verus! {

/// The value carried by one pin: two real logic levels and three states
/// that stand for a missing, disputed or unknown value.
#[derive(Clone, Copy, Debug, PartialEq, Eq, Structural)]
pub enum PinState {
    High,
    Low,
    /// Nothing drives the pin.
    Floating,
    /// Several drivers disagree.
    Conflicting,
    /// Computed from unknown or erroneous inputs.
    Undefined,
}

impl PinState {
    pub open spec fn spec_is_real(self) -> bool {
        self == PinState::High || self == PinState::Low
    }

    pub open spec fn spec_is_error(self) -> bool {
        self == PinState::Conflicting || self == PinState::Undefined
    }

    /// `true` for `High` and `Low`.
    pub fn is_real(&self) -> (r: bool)
        ensures
            r == self.spec_is_real(),
    {
        match self {
            PinState::High | PinState::Low => true,
            _ => false,
        }
    }

    /// `true` for `Conflicting` and `Undefined`.
    pub fn is_error(&self) -> (r: bool)
        ensures
            r == self.spec_is_error(),
    {
        match self {
            PinState::Conflicting | PinState::Undefined => true,
            _ => false,
        }
    }
}

/// Two-valued truth read off a real state.
pub open spec fn truth(s: PinState) -> bool {
    s == PinState::High
}

pub open spec fn level(b: bool) -> PinState {
    if b {
        PinState::High
    } else {
        PinState::Low
    }
}

/// Negation: swaps the real levels, anything else becomes `Undefined`.
pub open spec fn negation(a: PinState) -> PinState {
    match a {
        PinState::High => PinState::Low,
        PinState::Low => PinState::High,
        _ => PinState::Undefined,
    }
}

/// Conjunction: `Low` dominates, then an error operand gives `Undefined`.
pub open spec fn conjunction(a: PinState, b: PinState) -> PinState {
    if a == PinState::Low || b == PinState::Low {
        PinState::Low
    } else if a.spec_is_error() || b.spec_is_error() {
        PinState::Undefined
    } else {
        PinState::High
    }
}

/// Disjunction: `High` dominates, then an error operand gives `Undefined`.
pub open spec fn disjunction(a: PinState, b: PinState) -> PinState {
    if a == PinState::High || b == PinState::High {
        PinState::High
    } else if a.spec_is_error() || b.spec_is_error() {
        PinState::Undefined
    } else {
        PinState::Low
    }
}

/// Exclusive or: defined only on two real operands.
pub open spec fn exclusive(a: PinState, b: PinState) -> PinState {
    if a.spec_is_real() && b.spec_is_real() {
        level(truth(a) != truth(b))
    } else {
        PinState::Undefined
    }
}

impl std::ops::Not for PinState {
    type Output = PinState;

    fn not(self) -> PinState {
        match self {
            PinState::High => PinState::Low,
            PinState::Low => PinState::High,
            _ => PinState::Undefined,
        }
    }
}

impl vstd::std_specs::ops::NotSpecImpl for PinState {
    open spec fn obeys_not_spec() -> bool {
        true
    }

    open spec fn not_req(self) -> bool {
        true
    }

    open spec fn not_spec(self) -> PinState {
        negation(self)
    }
}

impl std::ops::BitAnd for PinState {
    type Output = PinState;

    fn bitand(self, rhs: PinState) -> PinState {
        if self == PinState::Low || rhs == PinState::Low {
            PinState::Low
        } else if self.is_error() || rhs.is_error() {
            PinState::Undefined
        } else {
            PinState::High
        }
    }
}

impl vstd::std_specs::ops::BitAndSpecImpl for PinState {
    open spec fn obeys_bitand_spec() -> bool {
        true
    }

    open spec fn bitand_req(self, rhs: PinState) -> bool {
        true
    }

    open spec fn bitand_spec(self, rhs: PinState) -> PinState {
        conjunction(self, rhs)
    }
}

impl std::ops::BitAndAssign for PinState {
    fn bitand_assign(&mut self, rhs: PinState) {
        *self = *self & rhs;
    }
}

impl std::ops::BitOr for PinState {
    type Output = PinState;

    fn bitor(self, rhs: PinState) -> PinState {
        if self == PinState::High || rhs == PinState::High {
            PinState::High
        } else if self.is_error() || rhs.is_error() {
            PinState::Undefined
        } else {
            PinState::Low
        }
    }
}

impl vstd::std_specs::ops::BitOrSpecImpl for PinState {
    open spec fn obeys_bitor_spec() -> bool {
        true
    }

    open spec fn bitor_req(self, rhs: PinState) -> bool {
        true
    }

    open spec fn bitor_spec(self, rhs: PinState) -> PinState {
        disjunction(self, rhs)
    }
}

impl std::ops::BitOrAssign for PinState {
    fn bitor_assign(&mut self, rhs: PinState) {
        *self = *self | rhs;
    }
}

impl std::ops::BitXor for PinState {
    type Output = PinState;

    fn bitxor(self, rhs: PinState) -> PinState {
        match (self, rhs) {
            (PinState::High, PinState::Low) | (PinState::Low, PinState::High) => PinState::High,
            (PinState::High, PinState::High) | (PinState::Low, PinState::Low) => PinState::Low,
            _ => PinState::Undefined,
        }
    }
}

impl vstd::std_specs::ops::BitXorSpecImpl for PinState {
    open spec fn obeys_bitxor_spec() -> bool {
        true
    }

    open spec fn bitxor_req(self, rhs: PinState) -> bool {
        true
    }

    open spec fn bitxor_spec(self, rhs: PinState) -> PinState {
        exclusive(self, rhs)
    }
}

impl std::ops::BitXorAssign for PinState {
    fn bitxor_assign(&mut self, rhs: PinState) {
        *self = *self ^ rhs;
    }
}

/// On real operands the four operators agree with two-valued logic.
pub proof fn lemma_real_truth_tables(a: PinState, b: PinState)
    requires
        a.spec_is_real(),
        b.spec_is_real(),
    ensures
        negation(a) == level(!truth(a)),
        conjunction(a, b) == level(truth(a) && truth(b)),
        disjunction(a, b) == level(truth(a) || truth(b)),
        exclusive(a, b) == level(truth(a) != truth(b)),
{
}

} // verus!
