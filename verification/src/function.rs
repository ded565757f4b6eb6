//! Functions and the primitives that array operations single out.
use vstd::prelude::*;

verus! {

/// How many values a function takes from the stack and how many it leaves there.
#[derive(Clone, Copy, PartialEq, Eq, Structural, Debug)]
pub struct Signature {
    pub args: usize,
    pub outputs: usize,
}

impl Signature {
    /// The signature with the given counts.
    pub fn new(args: usize, outputs: usize) -> (r: Self)
        ensures
            r == (Signature { args, outputs }),
    {
        Signature { args, outputs }
    }
}

/// The primitives that reducing and scanning treat specially. `Other` stands for every other one.
#[derive(Clone, Copy, PartialEq, Eq, Structural, Debug)]
pub enum Primitive {
    Join,
    Eq,
    Ne,
    Add,
    Sub,
    Mul,
    Div,
    Mod,
    Atan,
    Max,
    Min,
    Other,
}

/// An operation on two numbers.
#[derive(Clone, Copy, PartialEq, Eq, Structural, Debug)]
pub enum Dyadic {
    Eq,
    Ne,
    Add,
    Sub,
    Mul,
    Div,
    Mod,
    Atan,
    Max,
    Min,
}

/// The number that reducing no numbers gives.
#[derive(Clone, Copy, PartialEq, Eq, Structural, Debug)]
pub enum Identity {
    Zero,
    One,
    NegInfinity,
    Infinity,
}

impl Dyadic {
    /// Whether the order of the operands is minded. The other operations ignore a flip.
    pub open spec fn spec_ordered(self) -> bool {
        self == Dyadic::Sub || self == Dyadic::Div || self == Dyadic::Mod || self == Dyadic::Atan
    }

    /// Whether the order of the operands is minded. The other operations ignore a flip.
    #[verifier::when_used_as_spec(spec_ordered)]
    pub fn ordered(self) -> (r: bool)
        ensures
            r == self.ordered(),
    {
        match self {
            Dyadic::Sub | Dyadic::Div | Dyadic::Mod | Dyadic::Atan => true,
            _ => false,
        }
    }

    /// Whether the operation gives a byte for two bytes.
    pub open spec fn spec_bytewise(self) -> bool {
        self == Dyadic::Eq || self == Dyadic::Ne || self == Dyadic::Max || self == Dyadic::Min
    }

    /// Whether the operation gives a byte for two bytes.
    #[verifier::when_used_as_spec(spec_bytewise)]
    pub fn bytewise(self) -> (r: bool)
        ensures
            r == self.bytewise(),
    {
        match self {
            Dyadic::Eq | Dyadic::Ne | Dyadic::Max | Dyadic::Min => true,
            _ => false,
        }
    }
}

impl Primitive {
    /// The operation on numbers that a primitive reduces with, and what it makes of no numbers.
    pub open spec fn spec_reduction(self) -> Option<(Dyadic, Identity)> {
        match self {
            Primitive::Add => Some((Dyadic::Add, Identity::Zero)),
            Primitive::Sub => Some((Dyadic::Sub, Identity::Zero)),
            Primitive::Mul => Some((Dyadic::Mul, Identity::One)),
            Primitive::Div => Some((Dyadic::Div, Identity::One)),
            Primitive::Mod => Some((Dyadic::Mod, Identity::One)),
            Primitive::Atan => Some((Dyadic::Atan, Identity::Zero)),
            Primitive::Max => Some((Dyadic::Max, Identity::NegInfinity)),
            Primitive::Min => Some((Dyadic::Min, Identity::Infinity)),
            _ => None,
        }
    }

    /// The operation on numbers that a primitive reduces with, and what it makes of no numbers.
    #[verifier::when_used_as_spec(spec_reduction)]
    pub fn reduction(self) -> (r: Option<(Dyadic, Identity)>)
        ensures
            r == self.reduction(),
    {
        match self {
            Primitive::Add => Some((Dyadic::Add, Identity::Zero)),
            Primitive::Sub => Some((Dyadic::Sub, Identity::Zero)),
            Primitive::Mul => Some((Dyadic::Mul, Identity::One)),
            Primitive::Div => Some((Dyadic::Div, Identity::One)),
            Primitive::Mod => Some((Dyadic::Mod, Identity::One)),
            Primitive::Atan => Some((Dyadic::Atan, Identity::Zero)),
            Primitive::Max => Some((Dyadic::Max, Identity::NegInfinity)),
            Primitive::Min => Some((Dyadic::Min, Identity::Infinity)),
            _ => None,
        }
    }

    /// The operation on numbers that a primitive scans with.
    pub open spec fn spec_scanning(self) -> Option<Dyadic> {
        match self {
            Primitive::Eq => Some(Dyadic::Eq),
            Primitive::Ne => Some(Dyadic::Ne),
            _ => match self.spec_reduction() {
                Some((op, _)) => Some(op),
                None => None,
            },
        }
    }

    /// The operation on numbers that a primitive scans with.
    #[verifier::when_used_as_spec(spec_scanning)]
    pub fn scanning(self) -> (r: Option<Dyadic>)
        ensures
            r == self.scanning(),
    {
        match self {
            Primitive::Eq => Some(Dyadic::Eq),
            Primitive::Ne => Some(Dyadic::Ne),
            _ => match self.reduction() {
                Some((op, _)) => Some(op),
                None => None,
            },
        }
    }
}

/// A function: its name, its signature, the primitive it consists of, if any, and its body, which
/// a runtime executes. The flag beside the primitive says that its operands are flipped.
pub struct Function<F> {
    pub name: String,
    pub signature: Signature,
    pub primitive: Option<(Primitive, bool)>,
    pub body: F,
}

impl<F> Function<F> {
    /// How many values the function takes and leaves.
    pub fn signature(&self) -> (r: Signature)
        ensures
            r == self.signature,
    {
        self.signature
    }

    /// The primitive that the function consists of and whether its operands are flipped.
    pub fn as_flipped_primitive(&self) -> (r: Option<(Primitive, bool)>)
        ensures
            r == self.primitive,
    {
        self.primitive
    }
}

} // verus!
