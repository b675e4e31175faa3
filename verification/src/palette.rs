//! Colours of the rings and the order in which a ring's outline is drawn.
use vstd::prelude::*;

verus! {

/// A colour as red, green and blue intensities.
#[derive(Debug, Clone, Copy, PartialEq, Eq, Structural)]
pub struct Rgb {
    pub r: u8,
    pub g: u8,
    pub b: u8,
}

/// The eight colours that the rings take in turn.
pub open spec fn palette(i: nat) -> Rgb {
    if i == 0 {
        Rgb { r: 56, g: 189, b: 248 }
    } else if i == 1 {
        Rgb { r: 251, g: 146, b: 60 }
    } else if i == 2 {
        Rgb { r: 74, g: 222, b: 128 }
    } else if i == 3 {
        Rgb { r: 244, g: 114, b: 182 }
    } else if i == 4 {
        Rgb { r: 167, g: 139, b: 250 }
    } else if i == 5 {
        Rgb { r: 250, g: 204, b: 21 }
    } else if i == 6 {
        Rgb { r: 94, g: 234, b: 212 }
    } else {
        Rgb { r: 248, g: 113, b: 113 }
    }
}

/// The colour of ring `index`: the palette taken in turn.
pub fn ring_color(index: usize) -> (c: Rgb)
    ensures
        c == palette((index % 8) as nat),
{
    let i = index % 8;
    if i == 0 {
        Rgb { r: 56, g: 189, b: 248 }
    } else if i == 1 {
        Rgb { r: 251, g: 146, b: 60 }
    } else if i == 2 {
        Rgb { r: 74, g: 222, b: 128 }
    } else if i == 3 {
        Rgb { r: 244, g: 114, b: 182 }
    } else if i == 4 {
        Rgb { r: 167, g: 139, b: 250 }
    } else if i == 5 {
        Rgb { r: 250, g: 204, b: 21 }
    } else if i == 6 {
        Rgb { r: 94, g: 234, b: 212 }
    } else {
        Rgb { r: 248, g: 113, b: 113 }
    }
}

/// The points of a ring of `n` points in the order its outline joins them:
/// none below two points, the points in order from two on, and back to the
/// first from three on.
pub open spec fn outline(n: nat) -> Seq<usize> {
    if n < 2 {
        seq![]
    } else if n == 2 {
        seq![0, 1]
    } else {
        Seq::new(n + 1, |i: int| if i < n { i as usize } else { 0usize })
    }
}

/// The order in which the outline of a ring of `point_count` points joins
/// them; a ring of three points or more is closed.
pub fn ring_outline(point_count: usize) -> (v: Vec<usize>)
    ensures
        v@ == outline(point_count as nat),
        point_count >= 3 ==> v@.len() == point_count + 1 && v@[0] == v@.last(),
{
    let mut v: Vec<usize> = Vec::new();
    if point_count < 2 {
        return v;
    }
    let mut i: usize = 0;
    while i < point_count
        invariant
            2 <= point_count,
            i <= point_count,
            v@ == Seq::new(i as nat, |j: int| j as usize),
        decreases point_count - i,
    {
        v.push(i);
        i = i + 1;
        assert(v@ =~= Seq::new(i as nat, |j: int| j as usize));
    }
    if point_count >= 3 {
        v.push(0);
        assert(v@ =~= outline(point_count as nat));
    } else {
        assert(v@ =~= outline(point_count as nat));
    }
    v
}

} // verus!
