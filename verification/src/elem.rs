//! Element types and the ambient fill context.
//!
//! Each concrete array element type implements [`ArrayElem`]: decidable
//! equality and a lookup into the [`Fill`] context. The fill context is an
//! explicit, caller-supplied capability: "does a fill value of this type
//! exist right now, and if so what is it".

use vstd::prelude::*;

verus! {

/// A complex number with integer components; only its shape-level movement is
/// in scope here, never its arithmetic.
#[derive(Clone, Copy, Debug, PartialEq, Eq, Structural)]
pub struct Complex {
    pub re: i64,
    pub im: i64,
}

/// The ambient fill context: at most one fill value per element type,
/// supplied transiently by the caller for the duration of one operation.
#[derive(Clone, Copy, Debug)]
pub struct Fill {
    pub num: Option<i64>,
    pub byte: Option<u8>,
    pub ch: Option<char>,
    pub complex: Option<Complex>,
}

impl Fill {
    /// A context with no fill value of any type.
    pub fn none() -> (r: Fill)
        ensures
            r.num.is_none() && r.byte.is_none() && r.ch.is_none() && r.complex.is_none(),
    {
        Fill { num: None, byte: None, ch: None, complex: None }
    }

    /// A context holding only a numeric fill value.
    pub fn with_num(n: i64) -> (r: Fill)
        ensures
            r.num == Some(n) && r.byte.is_none() && r.ch.is_none() && r.complex.is_none(),
    {
        Fill { num: Some(n), byte: None, ch: None, complex: None }
    }
}

/// Capability bound of array elements: plain copyable data with decidable
/// equality and a per-type slot in the fill context.
pub trait ArrayElem: Copy + Sized {
    /// Which fill value, if any, the context holds for this element type.
    spec fn fill_spec(fill: Fill) -> Option<Self>;

    /// Look this element type's fill value up in the context.
    fn fill_of(fill: &Fill) -> (r: Option<Self>)
        ensures
            r == Self::fill_spec(*fill),
    ;

    /// Decidable equality agreeing with mathematical equality.
    fn eq_elem(&self, other: &Self) -> (r: bool)
        ensures
            r == (*self == *other),
    ;
}

impl ArrayElem for i64 {
    open spec fn fill_spec(fill: Fill) -> Option<i64> {
        fill.num
    }

    fn fill_of(fill: &Fill) -> (r: Option<i64>) {
        fill.num
    }

    fn eq_elem(&self, other: &Self) -> (r: bool) {
        *self == *other
    }
}

impl ArrayElem for u8 {
    open spec fn fill_spec(fill: Fill) -> Option<u8> {
        fill.byte
    }

    fn fill_of(fill: &Fill) -> (r: Option<u8>) {
        fill.byte
    }

    fn eq_elem(&self, other: &Self) -> (r: bool) {
        *self == *other
    }
}

impl ArrayElem for char {
    open spec fn fill_spec(fill: Fill) -> Option<char> {
        fill.ch
    }

    fn fill_of(fill: &Fill) -> (r: Option<char>) {
        fill.ch
    }

    fn eq_elem(&self, other: &Self) -> (r: bool) {
        *self == *other
    }
}

impl ArrayElem for Complex {
    open spec fn fill_spec(fill: Fill) -> Option<Complex> {
        fill.complex
    }

    fn fill_of(fill: &Fill) -> (r: Option<Complex>) {
        fill.complex
    }

    fn eq_elem(&self, other: &Self) -> (r: bool) {
        self.re == other.re && self.im == other.im
    }
}

} // verus!
