//! The plain values that cross the C interface.

#![allow(non_camel_case_types)]

use vstd::prelude::*;
use crate::pixmap::Pixmap;
use crate::FillRule;

verus! {

/// A straight-alpha 8-bit color.
#[derive(Debug, Clone, Copy)]
pub struct sp_color {
    pub r: u8,
    pub g: u8,
    pub b: u8,
    pub a: u8,
}

/// A fill rule, as the C interface names it.
#[derive(Debug, Clone, Copy, PartialEq, Eq, Structural)]
pub enum sp_fill_rule {
    Winding,
    EvenOdd,
}

impl From<sp_fill_rule> for FillRule {
    fn from(value: sp_fill_rule) -> (r: FillRule)
        ensures
            r == sp_fill_rule_spec(value),
    {
        match value {
            sp_fill_rule::Winding => FillRule::NonZero,
            sp_fill_rule::EvenOdd => FillRule::EvenOdd,
        }
    }
}

/// The fill rule that a C fill rule names: winding is non-zero.
pub open spec fn sp_fill_rule_spec(value: sp_fill_rule) -> FillRule {
    match value {
        sp_fill_rule::Winding => FillRule::NonZero,
        sp_fill_rule::EvenOdd => FillRule::EvenOdd,
    }
}

impl vstd::std_specs::convert::FromSpecImpl<sp_fill_rule> for FillRule {
    open spec fn obeys_from_spec() -> bool {
        true
    }

    open spec fn from_spec(value: sp_fill_rule) -> FillRule {
        sp_fill_rule_spec(value)
    }
}

/// A paint, as the C interface passes it.
#[derive(Debug, Clone, Copy)]
pub enum sp_paint {
    Color(sp_color),
}

/// A pixmap handed out through the C interface.
pub struct sp_pixmap(pub Pixmap);

} // verus!
