//! Visual attributes of a text run and their composition rule.

use vstd::prelude::*;

verus! {

/// An RGB color, standing in for the renderer's color type.
#[derive(Clone, Copy, Debug, PartialEq, Eq, Structural)]
pub struct Color {
    pub r: u8,
    pub g: u8,
    pub b: u8,
}

impl Color {
    pub fn rgb(r: u8, g: u8, b: u8) -> (c: Color)
        ensures
            c == (Color { r, g, b }),
    {
        Color { r, g, b }
    }
}

/// A handle naming a loaded font; the font itself lives with the renderer.
#[derive(Clone, Copy, Debug, PartialEq, Eq, Structural)]
pub struct FontId(pub u32);

/// A fragment of style. A `None` field means "inherit from the enclosing
/// context".
#[derive(Clone, Copy, Debug, PartialEq, Eq)]
pub struct Attributes {
    pub font: Option<FontId>,
    pub color: Option<Color>,
}

impl Attributes {
    /// The style that sets nothing: every field inherits.
    pub open spec fn empty() -> Attributes {
        Attributes { font: None, color: None }
    }

    /// The composition rule: each field comes from `other` if `other` sets
    /// it, else from `self`.
    pub open spec fn spec_override(self, other: Attributes) -> Attributes {
        Attributes {
            font: if other.font is Some {
                other.font
            } else {
                self.font
            },
            color: if other.color is Some {
                other.color
            } else {
                self.color
            },
        }
    }

    /// Merge a newly applied fragment over this accumulated style.
    pub fn override_with(self, other: &Attributes) -> (r: Attributes)
        ensures
            r == self.spec_override(*other),
    {
        Attributes {
            font: if other.font.is_some() {
                other.font
            } else {
                self.font
            },
            color: if other.color.is_some() {
                other.color
            } else {
                self.color
            },
        }
    }
}

impl Default for Attributes {
    fn default() -> (r: Attributes)
        ensures
            r == Attributes::empty(),
    {
        Attributes { font: None, color: None }
    }
}

/// Composition of style fragments is associative, which is what lets a stack
/// of open scopes be folded into one effective style.
pub proof fn lemma_override_associative(a: Attributes, b: Attributes, c: Attributes)
    ensures
        a.spec_override(b).spec_override(c) == a.spec_override(b.spec_override(c)),
{
}

/// The empty style is the identity of composition.
pub proof fn lemma_override_identity(a: Attributes)
    ensures
        Attributes::empty().spec_override(a) == a,
        a.spec_override(Attributes::empty()) == a,
{
}

} // verus!
