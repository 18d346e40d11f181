//! Hexagonal grid coordinates: offset ("odd-r") and axial indices.
//!
//! Rows are indexed by `y`/`r`; odd rows are shifted by half a cell. The height
//! `z`/`h` is carried along unchanged.
use vstd::prelude::*;

verus! {

/// Half of `r`, rounded towards negative infinity.
pub open spec fn floor_half(r: int) -> int {
    r / 2
}

/// `(v - (v & 1)) / 2` computed on `i32` is `floor(v / 2)`.
fn half_down(v: i32) -> (h: i32)
    ensures
        h as int == floor_half(v as int),
{
    proof {
        assert((v & 1i32) == 0i32 || ((v & 1i32) == 1i32 && v > i32::MIN)) by (bit_vector);
        assert(((v - (v & 1i32)) as int) % 2 == 0) by (bit_vector);
    }
    let d = v - (v & 1);
    d / 2
}

/// Index of a hexagon in offset coordinates.
#[derive(Debug, Default, Copy, Clone, Eq, PartialEq, Hash)]
pub struct OffsetIndex {
    pub x: i32,
    pub y: i32,
    pub z: i32,
}

/// Index of a hexagon in axial coordinates.
#[derive(Debug, Default, Copy, Clone, Eq, PartialEq, Hash)]
pub struct AxialIndex {
    pub q: i32,
    pub r: i32,
    pub h: i32,
}

/// The axial index of an offset index, over unbounded integers.
pub open spec fn spec_to_axial(o: OffsetIndex) -> (int, int, int) {
    (o.x - floor_half(o.y as int), o.y as int, o.z as int)
}

/// The offset index of an axial index, over unbounded integers.
pub open spec fn spec_to_offset(a: AxialIndex) -> (int, int, int) {
    (a.q + floor_half(a.r as int), a.r as int, a.h as int)
}

/// Whether an integer fits in an `i32`.
pub open spec fn fits_i32(v: int) -> bool {
    i32::MIN <= v <= i32::MAX
}

impl OffsetIndex {
    /// Converts to axial coordinates: `q = x - floor(y / 2)`, `r = y`, `h = z`.
    pub fn to_axial(self) -> (a: AxialIndex)
        requires
            fits_i32(spec_to_axial(self).0),
        ensures
            (a.q as int, a.r as int, a.h as int) == spec_to_axial(self),
    {
        let shift = half_down(self.y);
        AxialIndex { q: self.x - shift, r: self.y, h: self.z }
    }

    /// `to_axial`, or `None` where `q` does not fit in an `i32`.
    pub fn try_to_axial(self) -> (a: Option<AxialIndex>)
        ensures
            fits_i32(spec_to_axial(self).0) <==> a is Some,
            a matches Some(a) ==> (a.q as int, a.r as int, a.h as int) == spec_to_axial(self),
    {
        let shift = half_down(self.y);
        match self.x.checked_sub(shift) {
            Some(q) => Some(AxialIndex { q, r: self.y, h: self.z }),
            None => None,
        }
    }
}

impl AxialIndex {
    /// Converts to offset coordinates: `x = q + floor(r / 2)`, `y = r`, `z = h`.
    pub fn to_offset(self) -> (o: OffsetIndex)
        requires
            fits_i32(spec_to_offset(self).0),
        ensures
            (o.x as int, o.y as int, o.z as int) == spec_to_offset(self),
    {
        let shift = half_down(self.r);
        OffsetIndex { x: self.q + shift, y: self.r, z: self.h }
    }

    /// `to_offset`, or `None` where `x` does not fit in an `i32`.
    pub fn try_to_offset(self) -> (o: Option<OffsetIndex>)
        ensures
            fits_i32(spec_to_offset(self).0) <==> o is Some,
            o matches Some(o) ==> (o.x as int, o.y as int, o.z as int) == spec_to_offset(self),
    {
        let shift = half_down(self.r);
        match self.q.checked_add(shift) {
            Some(x) => Some(OffsetIndex { x, y: self.r, z: self.h }),
            None => None,
        }
    }
}

/// Converting an offset index to axial coordinates and back gives it back.
pub proof fn lemma_offset_axial_roundtrip(o: OffsetIndex)
    requires
        fits_i32(spec_to_axial(o).0),
    ensures
        ({
            let a = AxialIndex {
                q: spec_to_axial(o).0 as i32,
                r: o.y,
                h: o.z,
            };
            spec_to_offset(a) == (o.x as int, o.y as int, o.z as int)
        }),
{
}

/// Converting an axial index to offset coordinates and back gives it back.
pub proof fn lemma_axial_offset_roundtrip(a: AxialIndex)
    requires
        fits_i32(spec_to_offset(a).0),
    ensures
        ({
            let o = OffsetIndex {
                x: spec_to_offset(a).0 as i32,
                y: a.r,
                z: a.h,
            };
            spec_to_axial(o) == (a.q as int, a.r as int, a.h as int)
        }),
{
}

} // verus!
