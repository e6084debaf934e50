//! Zones of the map and the brushes that shape them.

use vstd::prelude::*;

verus! {

/// How a brush combines with the brushes before it.
#[derive(Clone, Copy, PartialEq, Eq, Structural, Debug)]
pub enum ShapeOperation {
    Union,
    Subtraction,
}

impl ShapeOperation {
    /// The name shown for the operation.
    pub fn name(&self) -> (r: &'static str)
        ensures
            *self is Union ==> r@ == "union"@,
            *self is Subtraction ==> r@ == "subtraction"@,
    {
        match self {
            ShapeOperation::Union => "union",
            ShapeOperation::Subtraction => "subtraction",
        }
    }
}

/// The kind of shape a brush has.
#[derive(Clone, Copy, PartialEq, Eq, Structural, Debug)]
pub enum ZoneShapeKind {
    Circle,
    Square,
    Segment,
    Curve,
}

impl ZoneShapeKind {
    /// The name shown for the shape.
    pub fn name(&self) -> (r: &'static str)
        ensures
            *self is Circle ==> r@ == "circle"@,
            *self is Square ==> r@ == "square"@,
            *self is Segment ==> r@ == "segment"@,
            *self is Curve ==> r@ == "curve"@,
    {
        match self {
            ZoneShapeKind::Circle => "circle",
            ZoneShapeKind::Square => "square",
            ZoneShapeKind::Segment => "segment",
            ZoneShapeKind::Curve => "curve",
        }
    }
}

/// A zone of the map.
pub struct Zone {
    pub name: String,
    pub order: u32,
}

impl Default for Zone {
    fn default() -> (r: Self)
        ensures
            r.name@ == Seq::<char>::empty(),
            r.order == 0,
    {
        Zone { name: String::new(), order: 0 }
    }
}

} // verus!
