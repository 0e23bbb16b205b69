//! What a command line says of files and layers, and how the spatial
//! references of two layers compare.

use vstd::prelude::*;
use vstd::string::{StrSliceExecFns, StringExecFns};

verus! {

/// Whether two texts are the same.
pub fn same_text(a: &str, b: &str) -> (r: bool)
    ensures
        r == (a@ == b@),
{
    let x = String::from_str(a);
    let y = String::from_str(b);
    x == y
}

/// Splits `FILE[:LAYER]` at its first colon into the file and the layer.
/// Without a colon the whole is the file, and no layer is named.
pub fn parse_new_layer(arg: &str) -> (r: (String, Option<String>))
    ensures
        !r.0@.contains(':'),
        match r.1 {
            Some(layer) => arg@ == r.0@ + seq![':'] + layer@,
            None => arg@ == r.0@,
        },
{
    let n: usize = arg.unicode_len();
    let mut i: usize = 0;
    while i < n
        invariant
            i <= n,
            n == arg@.len(),
            forall|j: int| 0 <= j < i ==> arg@[j] != ':',
        decreases n - i,
    {
        if arg.get_char(i) == ':' {
            let path = String::from_str(arg.substring_char(0, i));
            let layer = String::from_str(arg.substring_char(i + 1, n));
            proof {
                assert(arg@ =~= path@ + seq![':'] + layer@);
            }
            return (path, Some(layer));
        }
        i += 1;
    }
    (String::from_str(arg), None)
}

/// How the spatial references of the points and of the streams compare.
#[derive(Clone, Copy, Debug, PartialEq, Eq, Structural)]
pub enum SpatialRefs {
    /// Both layers have one, and the two are the same.
    Same,
    /// Both layers have one, and the two differ: the layers do not go
    /// together.
    Mismatch,
    /// Only the points have one.
    StreamsMissing,
    /// Only the streams have one.
    PointsMissing,
    /// Neither has one.
    BothMissing,
}

impl SpatialRefs {
    /// Whether the layers may be used together: everything but a mismatch.
    pub fn is_ok(&self) -> (r: bool)
        ensures
            r == (*self != SpatialRefs::Mismatch),
    {
        match self {
            SpatialRefs::Mismatch => false,
            _ => true,
        }
    }
}

/// Compares the spatial references of two layers, each given as its text or
/// as nothing where the layer has none.
pub fn compare_spatial_refs(points: Option<&str>, streams: Option<&str>) -> (r: SpatialRefs)
    ensures
        r == (match (points, streams) {
            (Some(p), Some(s)) => if p@ == s@ {
                SpatialRefs::Same
            } else {
                SpatialRefs::Mismatch
            },
            (Some(_), None) => SpatialRefs::StreamsMissing,
            (None, Some(_)) => SpatialRefs::PointsMissing,
            (None, None) => SpatialRefs::BothMissing,
        }),
{
    match (points, streams) {
        (Some(p), Some(s)) => {
            if same_text(p, s) {
                SpatialRefs::Same
            } else {
                SpatialRefs::Mismatch
            }
        },
        (Some(_), None) => SpatialRefs::StreamsMissing,
        (None, Some(_)) => SpatialRefs::PointsMissing,
        (None, None) => SpatialRefs::BothMissing,
    }
}

} // verus!
