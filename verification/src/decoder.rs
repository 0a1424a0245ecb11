//! From an encoding back to the path.
use crate::chunk::{chunk_stop, chunk_value, digit, is_continuation, unzigzag};
use crate::point::{InvalidEncodingError, LatLng};
use vstd::prelude::*;
use vstd::string::*;
use vstd::utf8::is_ascii_chars;

verus! {

broadcast use vstd::string::group_string_axioms, vstd::utf8::is_ascii_chars_nat_bound;

/// One axis of the next position: the chunk that starts at `from`, added as a
/// difference to `current`. The result is the new coordinate and the index
/// behind the chunk; there is none where the chunk never ends or the new
/// coordinate does not fit in 64 bits.
pub open spec fn next_coordinate(s: Seq<char>, from: int, current: int) -> Option<(i64, int)> {
    let stop = chunk_stop(s, from);
    let value = current + unzigzag(chunk_value(s, from, stop));
    if stop < s.len() && i64::MIN <= value <= i64::MAX {
        Some((value as i64, stop + 1))
    } else {
        None
    }
}

/// The path that the characters from `from` on stand for, when the position
/// before the first one is `start`: two chunks for each position, latitude
/// first, until the string ends.
pub open spec fn decoded_from(s: Seq<char>, from: int, start: LatLng) -> Option<Seq<LatLng>>
    decreases s.len() - from,
    via decoded_from_decreases
{
    if from >= s.len() {
        Some(Seq::empty())
    } else {
        match next_coordinate(s, from, start.0 as int) {
            None => None,
            Some((lat, mid)) => match next_coordinate(s, mid, start.1 as int) {
                None => None,
                Some((lng, next)) => match decoded_from(s, next, LatLng(lat, lng)) {
                    None => None,
                    Some(rest) => Some(seq![LatLng(lat, lng)] + rest),
                },
            },
        }
    }
}

#[via_fn]
proof fn decoded_from_decreases(s: Seq<char>, from: int, start: LatLng) {
    if from < s.len() {
        lemma_chunk_stop_bounds(s, from);
        lemma_chunk_stop_bounds(s, chunk_stop(s, from) + 1);
    }
}

/// The end of a chunk lies at or after its start, and within the string or
/// just behind it.
proof fn lemma_chunk_stop_bounds(s: Seq<char>, from: int)
    ensures
        from <= s.len() ==> from <= chunk_stop(s, from) <= s.len(),
        from >= s.len() ==> chunk_stop(s, from) == s.len(),
    decreases s.len() - from,
{
    if 0 <= from < s.len() && is_continuation(s[from]) {
        lemma_chunk_stop_bounds(s, from + 1);
    }
}

/// The path that a string stands for. A string with a character outside
/// ASCII stands for none.
pub open spec fn decoded(s: Seq<char>) -> Option<Seq<LatLng>> {
    if is_ascii_chars(s) {
        decoded_from(s, 0, LatLng(0, 0))
    } else {
        None
    }
}

/// The number of characters of an ASCII string.
fn ascii_len(s: &str) -> (len: usize)
    requires
        s.is_ascii(),
    ensures
        len == s@.len(),
{
    s.as_bytes().len()
}

/// Finds the end of the chunk that starts at `from`.
fn find_chunk_stop(s: &str, from: usize) -> (stop: usize)
    requires
        s.is_ascii(),
        from <= s@.len(),
    ensures
        stop == chunk_stop(s@, from as int),
        from <= stop <= s@.len(),
{
    let len = ascii_len(s);
    let mut stop = from;
    while stop < len && s.get_ascii(stop) >= 95
        invariant
            s.is_ascii(),
            len == s@.len(),
            from <= stop <= len,
            chunk_stop(s@, from as int) == chunk_stop(s@, stop as int),
        decreases len - stop,
    {
        stop += 1;
    }
    stop
}

/// Reads the difference that the characters from `from` to `stop` stand for.
/// Returns `None` only for a difference that no two 64-bit coordinates have.
fn read_delta(s: &str, from: usize, stop: usize) -> (delta: Option<i128>)
    requires
        s.is_ascii(),
        from <= stop < s@.len(),
        stop < usize::MAX,
    ensures
        match delta {
            Some(d) => d == unzigzag(chunk_value(s@, from as int, stop as int)),
            None => {
                let d = unzigzag(chunk_value(s@, from as int, stop as int));
                d <= -0x1_0000_0000_0000_0000 || d >= 0x1_0000_0000_0000_0000
            },
        },
{
    let mut i: usize = stop + 1;
    let mut value: i128 = 0;
    let mut large = false;
    while i > from
        invariant
            s.is_ascii(),
            from <= i <= stop + 1,
            stop < s@.len(),
            !large ==> value == chunk_value(s@, i as int, stop as int),
            !large ==> -0x4_0000_0000_0000_0000 < value < 0x4_0000_0000_0000_0000,
            large ==> chunk_value(s@, i as int, stop as int) <= -0x4_0000_0000_0000_0000
                || chunk_value(s@, i as int, stop as int) >= 0x4_0000_0000_0000_0000,
        decreases i,
    {
        i -= 1;
        let b: u8 = s.get_ascii(i);
        let d: i128 = if b >= 95 {
            b as i128 - 95
        } else {
            b as i128 - 63
        };
        assert(d == digit(s@[i as int]));
        assert(-63 <= d <= 32);
        if !large {
            let next: i128 = value * 32 + d;
            if next <= -0x4_0000_0000_0000_0000 || next >= 0x4_0000_0000_0000_0000 {
                large = true;
            } else {
                value = next;
            }
        }
    }
    if large {
        None
    } else {
        let half: i128 = value >> 1;
        let delta: i128 = if value & 1 != 0 {
            !half
        } else {
            half
        };
        proof {
            assert(delta == if value % 2 != 0 {
                -(value / 2) - 1
            } else {
                value / 2
            }) by (bit_vector)
                requires
                    half == value >> 1,
                    delta == if value & 1 != 0 {
                        !half
                    } else {
                        half
                    },
            ;
        }
        Some(delta)
    }
}

/// Reads one axis of the next position.
fn read_coordinate(s: &str, from: usize, current: i64) -> (r: Option<(i64, usize)>)
    requires
        s.is_ascii(),
        from <= s@.len(),
    ensures
        match r {
            Some((value, next)) => next_coordinate(s@, from as int, current as int) == Some(
                (value, next as int),
            ),
            None => next_coordinate(s@, from as int, current as int) is None,
        },
{
    let stop = find_chunk_stop(s, from);
    if stop >= ascii_len(s) {
        return None;
    }
    match read_delta(s, from, stop) {
        None => None,
        Some(delta) => {
            if delta <= -0x1_0000_0000_0000_0000 || delta >= 0x1_0000_0000_0000_0000 {
                return None;
            }
            let value: i128 = current as i128 + delta;
            if value < i64::MIN as i128 || value > i64::MAX as i128 {
                None
            } else {
                Some((value as i64, stop + 1))
            }
        },
    }
}

/// Decodes a string into the path it stands for, in units of `10^-precision`
/// degrees. The string does not record its precision and the positions come
/// out the same for each; nothing checks that they lie on the globe.
///
/// Fails, with the string, where a chunk is cut short, where the string ends
/// between a latitude and its longitude, where a coordinate does not fit in
/// 64 bits, and where a character lies outside ASCII. The empty string is the
/// empty path.
pub fn decode(encoded_path: &str, precision: u32) -> (r: Result<Vec<LatLng>, InvalidEncodingError>)
    ensures
        match r {
            Ok(path) => decoded(encoded_path@) == Some(path@),
            Err(e) => decoded(encoded_path@) is None && e.encoded_path@ == encoded_path@,
        },
        encoded_path@.len() == 0 ==> r is Ok && r->Ok_0@ == Seq::<LatLng>::empty(),
{
    if !encoded_path.is_ascii() {
        return Err(InvalidEncodingError { encoded_path: String::from_str(encoded_path) });
    }
    let len = ascii_len(encoded_path);
    let mut path: Vec<LatLng> = Vec::new();
    let mut index: usize = 0;
    let mut current = LatLng(0, 0);
    while index < len
        invariant
            encoded_path.is_ascii(),
            len == encoded_path@.len(),
            index <= len,
            decoded(encoded_path@) == match decoded_from(encoded_path@, index as int, current) {
                Some(rest) => Some(path@ + rest),
                None => None,
            },
        decreases len - index,
    {
        let (lat, mid) = match read_coordinate(encoded_path, index, current.0) {
            Some(read) => read,
            None => {
                return Err(InvalidEncodingError { encoded_path: String::from_str(encoded_path) });
            },
        };
        let (lng, next) = match read_coordinate(encoded_path, mid, current.1) {
            Some(read) => read,
            None => {
                return Err(InvalidEncodingError { encoded_path: String::from_str(encoded_path) });
            },
        };
        proof {
            lemma_chunk_stop_bounds(encoded_path@, index as int);
            lemma_chunk_stop_bounds(encoded_path@, mid as int);
            let rest = decoded_from(encoded_path@, next as int, LatLng(lat, lng));
            if rest is Some {
                assert(path@ + (seq![LatLng(lat, lng)] + rest->Some_0) == path@.push(
                    LatLng(lat, lng),
                ) + rest->Some_0);
            }
        }
        current = LatLng(lat, lng);
        path.push(current);
        index = next;
    }
    Ok(path)
}

} // verus!
