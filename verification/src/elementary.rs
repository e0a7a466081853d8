//! The elementary functions, which the caller supplies.
//!
//! Arithmetic here is exact up to one rounding and the same on every machine.
//! Exponentials, logarithms, powers, roots and the trigonometric functions
//! are not: each platform has its own.  So a caller hands them in as two
//! functions, one for each precision, and what the engine computes is stated
//! over what they answer.
use crate::double::Double;
use crate::single::Single;
use vstd::prelude::*;

verus! {

/// A question in single precision.
#[derive(Clone, Copy, Debug, PartialEq, Eq, Structural)]
pub enum Narrow {
    Exp(Single),
    Sqrt(Single),
    Cos(Single),
    Sin(Single),
    /// The length of the vector with the two components.
    Hypot(Single, Single),
    /// The angle of the vector with a vertical and a horizontal component.
    Atan2(Single, Single),
    /// A base and an exponent.
    Pow(Single, Single),
}

/// A question in double precision.
#[derive(Clone, Copy, Debug, PartialEq, Eq, Structural)]
pub enum Wide {
    Ln(Double),
    Cos(Double),
    Sin(Double),
}

/// The elementary functions.
pub struct Elementary<N, W> {
    pub narrow: N,
    pub wide: W,
}

/// What the elementary functions answer.
pub struct Answers {
    pub narrow: spec_fn(Narrow) -> Single,
    pub wide: spec_fn(Wide) -> Double,
}

impl Answers {
    pub open spec fn exp(self, x: Single) -> Single {
        (self.narrow)(Narrow::Exp(x))
    }

    pub open spec fn sqrt(self, x: Single) -> Single {
        (self.narrow)(Narrow::Sqrt(x))
    }

    pub open spec fn cos(self, x: Single) -> Single {
        (self.narrow)(Narrow::Cos(x))
    }

    pub open spec fn sin(self, x: Single) -> Single {
        (self.narrow)(Narrow::Sin(x))
    }

    pub open spec fn hypot(self, x: Single, y: Single) -> Single {
        (self.narrow)(Narrow::Hypot(x, y))
    }

    pub open spec fn atan2(self, y: Single, x: Single) -> Single {
        (self.narrow)(Narrow::Atan2(y, x))
    }

    pub open spec fn pow(self, x: Single, p: Single) -> Single {
        (self.narrow)(Narrow::Pow(x, p))
    }

    pub open spec fn wide_ln(self, x: Double) -> Double {
        (self.wide)(Wide::Ln(x))
    }

    pub open spec fn wide_cos(self, x: Double) -> Double {
        (self.wide)(Wide::Cos(x))
    }

    pub open spec fn wide_sin(self, x: Double) -> Double {
        (self.wide)(Wide::Sin(x))
    }
}

impl<N: Fn(Narrow) -> Single, W: Fn(Wide) -> Double> Elementary<N, W> {
    /// Every question is answered, always in the same way.
    pub open spec fn wf(&self) -> bool {
        &&& forall|c: Narrow| call_requires(self.narrow, (c,))
        &&& forall|c: Narrow, y: Single, z: Single|
            call_ensures(self.narrow, (c,), y) && call_ensures(self.narrow, (c,), z) ==> y == z
        &&& forall|c: Wide| call_requires(self.wide, (c,))
        &&& forall|c: Wide, y: Double, z: Double|
            call_ensures(self.wide, (c,), y) && call_ensures(self.wide, (c,), z) ==> y == z
    }

    #[verifier::opaque]
    pub open spec fn answers(&self) -> Answers {
        Answers {
            narrow: |c: Narrow| choose|y: Single| call_ensures(self.narrow, (c,), y),
            wide: |c: Wide| choose|y: Double| call_ensures(self.wide, (c,), y),
        }
    }

    fn ask(&self, c: Narrow) -> (y: Single)
        requires
            self.wf(),
        ensures
            y == (self.answers().narrow)(c),
    {
        reveal(Elementary::answers);
        (self.narrow)(c)
    }

    fn ask_wide(&self, c: Wide) -> (y: Double)
        requires
            self.wf(),
        ensures
            y == (self.answers().wide)(c),
    {
        reveal(Elementary::answers);
        (self.wide)(c)
    }

    pub fn exp(&self, x: Single) -> (y: Single)
        requires
            self.wf(),
        ensures
            y == self.answers().exp(x),
    {
        self.ask(Narrow::Exp(x))
    }

    pub fn sqrt(&self, x: Single) -> (y: Single)
        requires
            self.wf(),
        ensures
            y == self.answers().sqrt(x),
    {
        self.ask(Narrow::Sqrt(x))
    }

    pub fn cos(&self, x: Single) -> (y: Single)
        requires
            self.wf(),
        ensures
            y == self.answers().cos(x),
    {
        self.ask(Narrow::Cos(x))
    }

    pub fn sin(&self, x: Single) -> (y: Single)
        requires
            self.wf(),
        ensures
            y == self.answers().sin(x),
    {
        self.ask(Narrow::Sin(x))
    }

    pub fn hypot(&self, x: Single, y: Single) -> (r: Single)
        requires
            self.wf(),
        ensures
            r == self.answers().hypot(x, y),
    {
        self.ask(Narrow::Hypot(x, y))
    }

    pub fn atan2(&self, y: Single, x: Single) -> (r: Single)
        requires
            self.wf(),
        ensures
            r == self.answers().atan2(y, x),
    {
        self.ask(Narrow::Atan2(y, x))
    }

    pub fn pow(&self, x: Single, p: Single) -> (y: Single)
        requires
            self.wf(),
        ensures
            y == self.answers().pow(x, p),
    {
        self.ask(Narrow::Pow(x, p))
    }

    pub fn wide_ln(&self, x: Double) -> (y: Double)
        requires
            self.wf(),
        ensures
            y == self.answers().wide_ln(x),
    {
        self.ask_wide(Wide::Ln(x))
    }

    pub fn wide_cos(&self, x: Double) -> (y: Double)
        requires
            self.wf(),
        ensures
            y == self.answers().wide_cos(x),
    {
        self.ask_wide(Wide::Cos(x))
    }

    pub fn wide_sin(&self, x: Double) -> (y: Double)
        requires
            self.wf(),
        ensures
            y == self.answers().wide_sin(x),
    {
        self.ask_wide(Wide::Sin(x))
    }
}

} // verus!
