//! What a stroke may carry besides its geometry.
use vstd::prelude::*;

verus! {

/// An attribute that can follow its stroke when the stroke is reversed.
pub trait AttributeReverse: Sized {
    /// What the attribute is once the stroke is reversed.
    spec fn reversed(&self) -> Self;

    /// The attribute of the reversed stroke.
    fn reverse(&self) -> (r: Self)
        ensures
            r == self.reversed(),
    ;
}

/// An attribute that knows how its stroke is to be drawn.
pub trait AttributeSVGLine {
    /// The text that describes the stroke.
    spec fn line_text(&self) -> Seq<char>;

    /// The text that describes the stroke, as it stands in the opening tag
    /// of a path.
    fn line_attributes(&self) -> (r: String)
        ensures
            r@ == self.line_text(),
    ;
}

impl AttributeReverse for () {
    open spec fn reversed(&self) -> Self {
        ()
    }

    fn reverse(&self) -> Self {
        ()
    }
}

impl AttributeSVGLine for () {
    open spec fn line_text(&self) -> Seq<char> {
        "stroke=\"black\""@
    }

    fn line_attributes(&self) -> String {
        "stroke=\"black\"".to_string()
    }
}

} // verus!
