use vstd::prelude::*;

verus! {

/// Whether the position and size of a node are absolute layout units or
/// fractions of the parent's size (in units of `RATIO_ONE`).
#[derive(Clone, Copy, Debug, PartialEq, Eq, Structural)]
pub enum ScaleMode {
    Pixel,
    Percent,
}

/// A point of a rectangle: used both as the anchor on the parent and as the
/// pivot on the node itself.
#[derive(Clone, Copy, Debug, PartialEq, Eq, Structural)]
pub enum Anchor {
    TopLeft,
    TopMiddle,
    TopRight,
    MiddleLeft,
    Middle,
    MiddleRight,
    BottomLeft,
    BottomMiddle,
    BottomRight,
}

/// The offset of an anchor from the centre, in half sizes: each coordinate
/// is -1, 0 or 1, standing for -0.5, 0 and 0.5 of the rectangle's size.
/// The y axis points up.
pub open spec fn anchor_offset(a: Anchor) -> (int, int) {
    match a {
        Anchor::TopLeft => (-1, 1),
        Anchor::TopMiddle => (0, 1),
        Anchor::TopRight => (1, 1),
        Anchor::MiddleLeft => (-1, 0),
        Anchor::Middle => (0, 0),
        Anchor::MiddleRight => (1, 0),
        Anchor::BottomLeft => (-1, -1),
        Anchor::BottomMiddle => (0, -1),
        Anchor::BottomRight => (1, -1),
    }
}

impl Anchor {
    /// Returns the offset of the anchor from the centre in half sizes
    /// (see `anchor_offset`).
    pub fn normalized_offset(self) -> (r: (i64, i64))
        ensures
            r.0 as int == anchor_offset(self).0,
            r.1 as int == anchor_offset(self).1,
            -1 <= r.0 <= 1,
            -1 <= r.1 <= 1,
    {
        match self {
            Anchor::TopLeft => (-1, 1),
            Anchor::TopMiddle => (0, 1),
            Anchor::TopRight => (1, 1),
            Anchor::MiddleLeft => (-1, 0),
            Anchor::Middle => (0, 0),
            Anchor::MiddleRight => (1, 0),
            Anchor::BottomLeft => (-1, -1),
            Anchor::BottomMiddle => (0, -1),
            Anchor::BottomRight => (1, -1),
        }
    }
}

/// How a node stretches to its parent's size.
#[derive(Clone, Copy, Debug, PartialEq, Eq, Structural)]
pub enum Stretch {
    NoStretch,
    X { x_margin: i64 },
    Y { y_margin: i64 },
    XY { x_margin: i64, y_margin: i64, keep_aspect_ratio: bool },
}

} // verus!
