//! Dense buffers held in `ndarray` arrays.
//!
//! The contents of an array are modelled as a map from in-bounds index tuples
//! to elements: the map's domain is exactly the set of indices that ndarray
//! accepts, so its shape is part of the model.
use vstd::prelude::*;

verus! {

// `ndarray::ArrayBase` is bounded by a trait with an associated element type,
// which Verus does not accept in a type declaration, so each array is held
// in a field of an opaque struct of this crate instead.
/// A three-axis array of `u64`, such as a depth buffer or an occupancy mask.
#[verifier::external_body]
pub struct Grid3 {
    pub array: ndarray::Array3<u64>,
}

/// A four-axis array of `u64`, such as a stack of colour images.
#[verifier::external_body]
pub struct Grid4 {
    pub array: ndarray::Array4<u64>,
}

/// The model of a three-axis array: element by index.
pub type Cells3 = Map<(usize, usize, usize), u64>;

/// The model of a four-axis array: element by index.
pub type Cells4 = Map<(usize, usize, usize, usize), u64>;

/// The elements of a three-axis array, by index.
pub uninterp spec fn cells3(g: Grid3) -> Map<(usize, usize, usize), u64>;

/// The elements of a four-axis array, by index.
pub uninterp spec fn cells4(g: Grid4) -> Map<(usize, usize, usize, usize), u64>;

/// Every index of a box of extents `(d0, d1, d2)` holds `v`.
pub open spec fn filled3(d0: usize, d1: usize, d2: usize, v: u64) -> Cells3 {
    Map::new(|k: (usize, usize, usize)| k.0 < d0 && k.1 < d1 && k.2 < d2, |k: (usize, usize, usize)| v)
}

/// Every index of a box of extents `(d0, d1, d2, d3)` holds `v`.
pub open spec fn filled4(d0: usize, d1: usize, d2: usize, d3: usize, v: u64) -> Cells4 {
    Map::new(
        |k: (usize, usize, usize, usize)| k.0 < d0 && k.1 < d1 && k.2 < d2 && k.3 < d3,
        |k: (usize, usize, usize, usize)| v,
    )
}

/// Relies on `ndarray::ArrayBase::from_elem`: an array of the given shape
/// whose every element is `v`. It panics when the product of the non-zero
/// extents overflows `isize`, and its buffer (`vec![v; n]`) when the byte
/// count does. With every extent positive, the bound on their product rules
/// out both.
#[verifier::external_body]
pub(crate) fn new3(d0: usize, d1: usize, d2: usize, v: u64) -> (r: Grid3)
    requires
        0 < d0,
        0 < d1,
        0 < d2,
        d0 * d1 * d2 * 8 <= isize::MAX,
    ensures
        cells3(r) == filled3(d0, d1, d2, v),
{
    Grid3 { array: ndarray::Array3::from_elem((d0, d1, d2), v) }
}

/// Relies on `ndarray::ArrayBase::from_elem`, as for three axes: every
/// extent positive and the byte count within `isize` rule out its panics.
#[verifier::external_body]
pub(crate) fn new4(d0: usize, d1: usize, d2: usize, d3: usize, v: u64) -> (r: Grid4)
    requires
        0 < d0,
        0 < d1,
        0 < d2,
        0 < d3,
        d0 * d1 * d2 * d3 * 8 <= isize::MAX,
    ensures
        cells4(r) == filled4(d0, d1, d2, d3, v),
{
    Grid4 { array: ndarray::Array4::from_elem((d0, d1, d2, d3), v) }
}

/// Relies on ndarray's `Index` for `[usize; 3]`: the element at an in-bounds
/// index (it panics on any other).
#[verifier::external_body]
pub(crate) fn get3(g: &Grid3, i: usize, j: usize, k: usize) -> (r: u64)
    requires
        cells3(*g).dom().contains((i, j, k)),
    ensures
        r == cells3(*g)[(i, j, k)],
{
    g.array[[i, j, k]]
}

/// Relies on ndarray's `IndexMut` for `[usize; 3]`: overwrites the element at
/// an in-bounds index and no other.
#[verifier::external_body]
pub(crate) fn set3(g: &mut Grid3, i: usize, j: usize, k: usize, v: u64)
    requires
        cells3(*old(g)).dom().contains((i, j, k)),
    ensures
        cells3(*final(g)) == cells3(*old(g)).insert((i, j, k), v),
{
    g.array[[i, j, k]] = v;
}

/// Relies on ndarray's `IndexMut` for `[usize; 4]`: overwrites the element at
/// an in-bounds index and no other.
#[verifier::external_body]
pub(crate) fn set4(g: &mut Grid4, i: usize, j: usize, k: usize, c: usize, v: u64)
    requires
        cells4(*old(g)).dom().contains((i, j, k, c)),
    ensures
        cells4(*final(g)) == cells4(*old(g)).insert((i, j, k, c), v),
{
    g.array[[i, j, k, c]] = v;
}

} // verus!
