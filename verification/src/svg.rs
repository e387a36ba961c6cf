//! How strokes are to be drawn.
use vstd::prelude::*;

verus! {

/// The colour of a stroke.
#[derive(Clone, Copy, Debug)]
pub enum PolyLineStroke {
    Black,
    Red,
    Green,
}

impl Default for PolyLineStroke {
    fn default() -> (r: Self)
        ensures
            r is Black,
    {
        PolyLineStroke::Black
    }
}

impl PolyLineStroke {
    /// The name of the colour.
    pub open spec fn text(self) -> Seq<char> {
        match self {
            PolyLineStroke::Black => "black"@,
            PolyLineStroke::Red => "red"@,
            PolyLineStroke::Green => "green"@,
        }
    }

    /// The name of the colour, as it stands in a drawing.
    pub fn name(&self) -> (r: String)
        ensures
            r@ == self.text(),
    {
        match self {
            PolyLineStroke::Black => "black".to_string(),
            PolyLineStroke::Red => "red".to_string(),
            PolyLineStroke::Green => "green".to_string(),
        }
    }
}

/// How a polyline is to be drawn.
#[derive(Clone, Copy, Debug)]
pub struct PolyLineProperties {
    pub stroke: PolyLineStroke,
}

impl Default for PolyLineProperties {
    fn default() -> (r: Self)
        ensures
            r.stroke is Black,
    {
        PolyLineProperties { stroke: PolyLineStroke::Black }
    }
}

} // verus!
