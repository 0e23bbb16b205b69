//! The node of the graph: a coordinate pair with exact equality.

use vstd::prelude::*;
use crate::ieee::{is_nan, is_nan_bits};

verus! {

/// Why a value of this module could not be made.
#[derive(Clone, Copy, Debug, PartialEq, Eq, Structural)]
pub enum PointError {
    /// An ordinate was a NaN.
    NanCoordinate,
}

impl PointError {
    /// The words for the error.
    pub fn message(&self) -> (r: String)
        ensures
            r@ == "GIS Coordinate shouldn't be NaN"@,
    {
        "GIS Coordinate shouldn't be NaN".to_owned()
    }
}

/// A 2D coordinate, the identity of a graph node. Each ordinate is the bit
/// pattern of a double that is not a NaN. Two points are one node exactly when
/// both patterns agree.
#[derive(Clone, Copy, Debug, PartialEq, Eq, Hash, Structural)]
pub struct Point2D {
    x: u64,
    y: u64,
}

/// The bit pattern of the double `0.0`.
pub const ZERO_BITS: u64 = 0;

/// `2^64`: the factor by which a point's key separates its two ordinates.
pub const KEY_BASE: u128 = 0x1_0000_0000_0000_0000u128;

impl Point2D {
    #[verifier::type_invariant]
    spec fn no_nan(self) -> bool {
        !is_nan(self.x) && !is_nan(self.y)
    }

    /// The two ordinates' bit patterns.
    pub closed spec fn bits(self) -> (u64, u64) {
        (self.x, self.y)
    }

    /// One integer per node: `x * 2^64 + y`, for the patterns `x` and `y`.
    pub open spec fn spec_key(self) -> u128 {
        (self.bits().0 * KEY_BASE + self.bits().1) as u128
    }

    /// What construction from two patterns gives: the node that holds them,
    /// or an error when one of them is a NaN.
    pub closed spec fn construct(coord: (u64, u64)) -> Result<Point2D, PointError> {
        if is_nan(coord.0) || is_nan(coord.1) {
            Err(PointError::NanCoordinate)
        } else {
            Ok(Point2D { x: coord.0, y: coord.1 })
        }
    }

    /// A point from the patterns of two doubles; fails exactly when one is a NaN.
    pub fn new2(coord: (u64, u64)) -> (r: Result<Point2D, PointError>)
        ensures
            r == Point2D::construct(coord),
            r is Err <==> is_nan(coord.0) || is_nan(coord.1),
            r is Err ==> r == Err::<Point2D, PointError>(PointError::NanCoordinate),
            r is Ok ==> r->Ok_0.bits() == coord,
    {
        if is_nan_bits(coord.0) || is_nan_bits(coord.1) {
            Err(PointError::NanCoordinate)
        } else {
            Ok(Point2D { x: coord.0, y: coord.1 })
        }
    }

    /// A point from the patterns of three doubles: the third is dropped,
    /// whatever it holds.
    pub fn new3(coord: (u64, u64, u64)) -> (r: Result<Point2D, PointError>)
        ensures
            r == Point2D::construct((coord.0, coord.1)),
            r is Err <==> is_nan(coord.0) || is_nan(coord.1),
            r is Err ==> r == Err::<Point2D, PointError>(PointError::NanCoordinate),
            r is Ok ==> r->Ok_0.bits() == (coord.0, coord.1),
    {
        Point2D::new2((coord.0, coord.1))
    }

    /// The ordinates, with `0.0` for the third.
    pub fn coord3(&self) -> (r: (u64, u64, u64))
        ensures
            (r.0, r.1) == self.bits(),
            r.2 == ZERO_BITS,
            !is_nan(r.0),
            !is_nan(r.1),
    {
        proof {
            use_type_invariant(self);
        }
        (self.x, self.y, ZERO_BITS)
    }

    /// The ordinates.
    pub fn coord2(&self) -> (r: (u64, u64))
        ensures
            r == self.bits(),
            !is_nan(r.0),
            !is_nan(r.1),
    {
        proof {
            use_type_invariant(self);
        }
        (self.x, self.y)
    }

    /// The integer that stands for this node in hashed collections.
    pub fn key(&self) -> (k: u128)
        ensures
            k == self.spec_key(),
    {
        let x: u128 = self.x as u128;
        let y: u128 = self.y as u128;
        x * KEY_BASE + y
    }

    /// Whether two points are the same node.
    pub fn same(&self, other: &Point2D) -> (r: bool)
        ensures
            r == (*self == *other),
    {
        self.x == other.x && self.y == other.y
    }
}

/// Node identity: points made from the same patterns are equal, and equal
/// points have the same patterns.
pub proof fn lemma_bits_decide_identity(a: Point2D, b: Point2D)
    ensures
        a.bits() == b.bits() <==> a == b,
{
}

/// A node's key is its own: points with one key are one node.
pub proof fn lemma_key_decides_identity(a: Point2D, b: Point2D)
    ensures
        a.spec_key() == b.spec_key() <==> a == b,
{
}

/// Node identity: construction is a function of the patterns, so equal
/// patterns give equal nodes with equal keys; a NaN always fails, and nothing
/// else does; and different patterns give different nodes.
pub proof fn lemma_node_identity(a: (u64, u64), b: (u64, u64))
    ensures
        a == b ==> Point2D::construct(a) == Point2D::construct(b),
        a == b && Point2D::construct(a) is Ok ==> Point2D::construct(a)->Ok_0.spec_key()
            == Point2D::construct(b)->Ok_0.spec_key(),
        Point2D::construct(a) is Err <==> is_nan(a.0) || is_nan(a.1),
        Point2D::construct(a) is Ok ==> Point2D::construct(a)->Ok_0.bits() == a,
        Point2D::construct(a) is Ok && Point2D::construct(a) == Point2D::construct(b) ==> a == b,
{
}

/// What a list of geometries reads as: each as the sequence of its vertices.
pub open spec fn shapes(geoms: Seq<Vec<Point2D>>) -> Seq<Seq<Point2D>> {
    geoms.map_values(|g: Vec<Point2D>| g@)
}

/// Whether one of a vertex's first two ordinates is a NaN.
pub open spec fn vertex_has_nan(c: (u64, u64, u64)) -> bool {
    is_nan(c.0) || is_nan(c.1)
}

/// Whether a vertex of the sequence has a NaN among its first two ordinates.
pub open spec fn has_nan(coords: Seq<(u64, u64, u64)>) -> bool {
    exists|i: int| 0 <= i < coords.len() && vertex_has_nan(#[trigger] coords[i])
}

/// Turns a geometry's vertices into points, dropping each third ordinate.
/// One NaN among the first two ordinates of any vertex rejects the geometry.
pub fn points_from_coords(coords: &Vec<(u64, u64, u64)>) -> (r: Result<Vec<Point2D>, PointError>)
    ensures
        r is Err <==> has_nan(coords@),
        r is Ok ==> r->Ok_0.len() == coords.len(),
        r is Ok ==> forall|i: int|
            0 <= i < coords.len() ==> (#[trigger] r->Ok_0[i]).bits() == (coords[i].0, coords[i].1),
{
    let mut out: Vec<Point2D> = Vec::new();
    let mut i: usize = 0;
    while i < coords.len()
        invariant
            i <= coords.len(),
            out.len() == i,
            forall|j: int| 0 <= j < i ==> !vertex_has_nan(#[trigger] coords[j]),
            forall|j: int| 0 <= j < i ==> (#[trigger] out[j]).bits() == (coords[j].0, coords[j].1),
        decreases coords.len() - i,
    {
        match Point2D::new3(coords[i]) {
            Ok(p) => {
                assert(!vertex_has_nan(coords[i as int]));
                out.push(p);
            },
            Err(e) => {
                assert(vertex_has_nan(coords[i as int]));
                return Err(e);
            },
        }
        i += 1;
    }
    Ok(out)
}

} // verus!
