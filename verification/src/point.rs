//! Positions, the trait that hands them to the encoder, and the two errors.
use vstd::prelude::*;
use vstd::string::*;

verus! {

/// A position in fixed point: latitude, then longitude, each counted in units
/// of `10^-precision` degrees.
#[derive(Debug, Clone, Copy)]
pub struct LatLng(pub i64, pub i64);

/// Anything that has a position. The encoder reads a path through this trait,
/// so a caller can encode its own type without copying it into `LatLng`s.
pub trait Point {
    /// The position that the two accessors report.
    spec fn position(&self) -> LatLng;

    fn lat(&self) -> (r: i64)
        ensures
            r == self.position().0,
    ;

    fn lng(&self) -> (r: i64)
        ensures
            r == self.position().1,
    ;
}

impl Point for LatLng {
    open spec fn position(&self) -> LatLng {
        *self
    }

    fn lat(&self) -> (r: i64) {
        self.0
    }

    fn lng(&self) -> (r: i64) {
        self.1
    }
}

impl<P: Point> PartialEq<P> for LatLng {
    fn eq(&self, other: &P) -> (r: bool) {
        self.0 == other.lat() && self.1 == other.lng()
    }
}

impl<P: Point> vstd::std_specs::cmp::PartialEqSpecImpl<P> for LatLng {
    open spec fn obeys_eq_spec() -> bool {
        true
    }

    /// A position equals any point that stands at it.
    open spec fn eq_spec(&self, other: &P) -> bool {
        *self == other.position()
    }
}

impl Point for (i64, i64) {
    open spec fn position(&self) -> LatLng {
        LatLng(self.0, self.1)
    }

    fn lat(&self) -> (r: i64) {
        self.0
    }

    fn lng(&self) -> (r: i64) {
        self.1
    }
}

/// The positions of a sequence of points, in order.
pub open spec fn positions<P: Point>(path: Seq<P>) -> Seq<LatLng> {
    Seq::new(path.len(), |i: int| path[i].position())
}

/// Whether a position lies on the globe when one degree is `factor` units:
/// at most 90 degrees from the equator and 180 from the prime meridian.
pub open spec fn in_range(p: LatLng, factor: int) -> bool {
    &&& -90 * factor <= p.0 <= 90 * factor
    &&& -180 * factor <= p.1 <= 180 * factor
}

/// Whether `i` is the first index of `path` whose position is out of range.
pub open spec fn first_out_of_range(path: Seq<LatLng>, factor: int, i: int) -> bool {
    &&& 0 <= i < path.len()
    &&& !in_range(path[i], factor)
    &&& forall|j: int| 0 <= j < i ==> in_range(#[trigger] path[j], factor)
}

/// A string that is no encoding of a path.
#[derive(Debug)]
pub struct InvalidEncodingError {
    pub encoded_path: String,
}

impl InvalidEncodingError {
    /// The text of the error: a fixed prefix, then the rejected string.
    pub fn message(&self) -> (text: String)
        ensures
            text@ == "error: invalid encoding: "@ + self.encoded_path@,
    {
        let mut text = String::from_str("error: invalid encoding: ");
        text.append(self.encoded_path.as_str());
        text
    }
}

/// A position that does not lie on the globe.
#[derive(Debug)]
pub struct InvalidLatLngError {
    pub lat: i64,
    pub lng: i64,
}

} // verus!
