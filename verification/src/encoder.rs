//! From a path to its encoding.
use crate::chunk::{encode_signed, signed_chunk};
use crate::point::{first_out_of_range, in_range, positions, InvalidLatLngError, LatLng, Point};
use vstd::arithmetic::power::{lemma_pow_increases, pow};
use vstd::prelude::*;

verus! {

/// The characters of one position: its latitude as a difference to `start`,
/// then its longitude.
pub open spec fn point_chunks(p: LatLng, start: LatLng) -> Seq<char> {
    signed_chunk(p.0 - start.0) + signed_chunk(p.1 - start.1)
}

/// The encoding of `path` when the position before its first one is `start`.
pub open spec fn encoded_from(path: Seq<LatLng>, start: LatLng) -> Seq<char>
    decreases path.len(),
{
    if path.len() == 0 {
        Seq::empty()
    } else {
        let before = if path.len() == 1 {
            start
        } else {
            path[path.len() - 2]
        };
        encoded_from(path.drop_last(), start) + point_chunks(path.last(), before)
    }
}

/// The encoding of a path: every position as a difference to the one before
/// it, the first as a difference to the origin.
pub open spec fn encoded(path: Seq<LatLng>) -> Seq<char> {
    encoded_from(path, LatLng(0, 0))
}

/// The number of units in one degree at `precision` decimal digits.
pub open spec fn scale(precision: nat) -> int {
    pow(10, precision)
}

/// Whether every position of `path` lies on the globe.
pub open spec fn all_in_range(path: Seq<LatLng>, factor: int) -> bool {
    forall|i: int| 0 <= i < path.len() ==> in_range(#[trigger] path[i], factor)
}

/// Checks that a point lies on the globe when one degree is `factor` units,
/// and reports its position if it does not.
pub fn validate<P: Point>(p: &P, factor: u64) -> (r: Result<(), InvalidLatLngError>)
    ensures
        r is Ok <==> in_range(p.position(), factor as int),
        r is Err ==> r->Err_0 == (InvalidLatLngError { lat: p.position().0, lng: p.position().1 }),
{
    let lat: i64 = p.lat();
    let lng: i64 = p.lng();
    let lat_limit: i128 = 90 * (factor as i128);
    let lng_limit: i128 = 180 * (factor as i128);
    if (lat as i128) < -lat_limit || (lat as i128) > lat_limit || (lng as i128) < -lng_limit || (
    lng as i128) > lng_limit {
        Err(InvalidLatLngError { lat, lng })
    } else {
        Ok(())
    }
}

/// Encodes a path whose positions count `factor` units to the degree.
///
/// Fails at the first point that lies off the globe, with that point's
/// position; otherwise returns the encoding of the whole path.
pub fn polyline_encode_line<P: Point>(array: &[P], factor: u64) -> (r: Result<
    String,
    InvalidLatLngError,
>)
    ensures
        r is Ok <==> all_in_range(positions(array@), factor as int),
        r is Ok ==> r->Ok_0@ == encoded(positions(array@)),
        r is Err ==> exists|i: int|
            first_out_of_range(positions(array@), factor as int, i) && r->Err_0 == (
            InvalidLatLngError {
                lat: (#[trigger] positions(array@)[i]).0,
                lng: positions(array@)[i].1,
            }),
{
    let ghost path = positions(array@);
    let mut v = String::new();
    let mut start = LatLng(0, 0);
    let mut i: usize = 0;
    while i < array.len()
        invariant
            0 <= i <= array.len(),
            path == positions(array@),
            start == if i == 0 {
                LatLng(0, 0)
            } else {
                path[i - 1]
            },
            all_in_range(path.take(i as int), factor as int),
            v@ == encoded(path.take(i as int)),
        decreases array.len() - i,
    {
        let p = &array[i];
        match validate(p, factor) {
            Err(e) => {
                proof {
                    assert forall|j: int| 0 <= j < i implies in_range(
                        #[trigger] path[j],
                        factor as int,
                    ) by {
                        assert(path.take(i as int)[j] == path[j]);
                    }
                    assert(first_out_of_range(path, factor as int, i as int));
                }
                return Err(e);
            },
            Ok(()) => {},
        }
        let end = LatLng(p.lat(), p.lng());
        encode_signed(end.0 as i128 - start.0 as i128, &mut v);
        encode_signed(end.1 as i128 - start.1 as i128, &mut v);
        proof {
            let longer = path.take(i + 1);
            assert(longer.drop_last() == path.take(i as int));
            assert(longer.last() == end);
            assert(i > 0 ==> longer[longer.len() - 2] == start);
            assert(v@ == encoded(path.take(i as int)) + point_chunks(end, start));
            assert forall|j: int| 0 <= j < longer.len() implies in_range(
                #[trigger] longer[j],
                factor as int,
            ) by {
                if j < i {
                    assert(path.take(i as int)[j] == longer[j]);
                }
            }
        }
        start = end;
        i += 1;
    }
    proof {
        assert(path.take(i as int) == path);
    }
    Ok(v)
}

/// The scales of 17 and 18 digits, written out. At 18 digits 90 degrees are
/// more units than an `i64` can count.
proof fn lemma_scale_eighteen()
    ensures
        scale(18) == 1_000_000_000_000_000_000,
        scale(17) == 100_000_000_000_000_000,
{
    reveal_with_fuel(pow, 19);
}

/// The scale of `precision`, held at `10^18` from 18 digits on, where it no
/// longer changes which positions are in range.
fn capped_scale(precision: u32) -> (factor: u64)
    ensures
        factor == if precision < 18 {
            scale(precision as nat)
        } else {
            scale(18)
        },
{
    let mut factor: u64 = 1;
    let mut digits: u32 = 0;
    proof {
        reveal_with_fuel(pow, 1);
    }
    while digits < precision && digits < 18
        invariant
            digits <= 18,
            digits <= precision,
            factor == scale(digits as nat),
        decreases 18 - digits,
    {
        proof {
            lemma_scale_eighteen();
            lemma_pow_increases(10, digits as nat, 17);
            reveal_with_fuel(pow, 2);
            assert(scale((digits + 1) as nat) == 10 * scale(digits as nat));
        }
        factor = factor * 10;
        digits += 1;
    }
    factor
}

/// From 18 digits on every position is in range.
proof fn lemma_capped_scale_in_range(p: LatLng, precision: nat)
    requires
        precision >= 18,
    ensures
        in_range(p, scale(18)),
        in_range(p, scale(precision)),
{
    lemma_scale_eighteen();
    lemma_pow_increases(10, 18, precision);
}

/// Encodes a path of positions that carry `precision` decimal digits.
///
/// Fails at the first point that lies off the globe, with that point's
/// position; otherwise returns the encoding of the whole path, which is empty
/// for an empty path.
pub fn encode<P: Point>(path: &[P], precision: u32) -> (r: Result<String, InvalidLatLngError>)
    ensures
        r is Ok <==> all_in_range(positions(path@), scale(precision as nat)),
        r is Ok ==> r->Ok_0@ == encoded(positions(path@)),
        r is Err ==> exists|i: int|
            first_out_of_range(positions(path@), scale(precision as nat), i) && r->Err_0 == (
            InvalidLatLngError {
                lat: (#[trigger] positions(path@)[i]).0,
                lng: positions(path@)[i].1,
            }),
        path@.len() == 0 ==> r is Ok && r->Ok_0@ == Seq::<char>::empty(),
{
    let factor = capped_scale(precision);
    proof {
        if precision >= 18 {
            assert forall|p: LatLng|
                in_range(p, factor as int) == in_range(p, scale(precision as nat)) by {
                lemma_capped_scale_in_range(p, precision as nat);
            }
        }
    }
    polyline_encode_line(path, factor)
}

} // verus!
