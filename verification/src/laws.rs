//! What holds between encoding and decoding.
use crate::chunk::{chunk_stop, chunk_value, signed_chunk, unsigned_chunk, unzigzag, zigzag};
use crate::decoder::{decoded, decoded_from, next_coordinate};
use crate::encoder::{encoded, encoded_from, point_chunks, scale};
use crate::point::LatLng;
use vstd::arithmetic::power::{lemma_pow1, lemma_pow_increases};
use vstd::prelude::*;
use vstd::utf8::is_ascii_chars;

verus! {

/// Folding gives a non-negative value, and unfolding undoes it.
pub proof fn lemma_unzigzag_zigzag(delta: int)
    ensures
        zigzag(delta) >= 0,
        unzigzag(zigzag(delta)) == delta,
{
}

/// Folding undoes unfolding on the non-negative values: the two are inverse
/// to each other, so small differences and small values go together.
pub proof fn lemma_zigzag_unzigzag(value: int)
    requires
        value >= 0,
    ensures
        zigzag(unzigzag(value)) == value,
{
}

/// A chunk has at least one character; all but the last are continuations
/// from `'_'` to `'~'`, and the last lies from `'?'` to `'^'`.
pub proof fn lemma_chunk_shape(value: int)
    requires
        value >= 0,
    ensures
        unsigned_chunk(value).len() >= 1,
        forall|i: int|
            0 <= i < unsigned_chunk(value).len() - 1 ==> 95 <= (#[trigger] unsigned_chunk(
                value,
            )[i]) as int <= 126,
        63 <= unsigned_chunk(value).last() as int <= 94,
    decreases value,
{
    if value >= 32 {
        lemma_chunk_shape(value / 32);
        let head = seq![(value % 32 + 95) as char];
        let tail = unsigned_chunk(value / 32);
        assert(unsigned_chunk(value) == head + tail);
        assert forall|i: int| 0 <= i < unsigned_chunk(value).len() - 1 implies 95 <= (
        #[trigger] unsigned_chunk(value)[i]) as int <= 126 by {
            if i > 0 {
                assert((head + tail)[i] == tail[i - 1]);
            }
        }
        assert((head + tail).last() == tail.last());
    }
}

/// Where the characters of a value stand in a string, the chunk that starts
/// there ends with the last of them and has that value.
proof fn lemma_chunk_reads_back(t: Seq<char>, from: int, value: int)
    requires
        value >= 0,
        0 <= from,
        from + unsigned_chunk(value).len() <= t.len(),
        forall|i: int|
            0 <= i < unsigned_chunk(value).len() ==> t[from + i] == #[trigger] unsigned_chunk(
                value,
            )[i],
    ensures
        chunk_stop(t, from) == from + unsigned_chunk(value).len() - 1,
        chunk_value(t, from, from + unsigned_chunk(value).len() - 1) == value,
    decreases value,
{
    let c = unsigned_chunk(value);
    assert(t[from + 0] == c[0]);
    if value < 32 {
        assert(chunk_value(t, from + 1, from) == 0);
    } else {
        let head = seq![(value % 32 + 95) as char];
        let tail = unsigned_chunk(value / 32);
        assert(c == head + tail);
        assert forall|i: int| 0 <= i < tail.len() implies t[from + 1 + i] == #[trigger] tail[i] by {
            assert(c[i + 1] == tail[i]);
            assert(t[from + (i + 1)] == c[i + 1]);
        }
        lemma_chunk_reads_back(t, from + 1, value / 32);
    }
}

/// Where a string ends inside the characters of a value, the chunk that
/// starts there never ends.
proof fn lemma_chunk_cut_short(t: Seq<char>, from: int, value: int)
    requires
        value >= 0,
        0 <= from <= t.len(),
        t.len() - from < unsigned_chunk(value).len(),
        forall|i: int|
            0 <= i < t.len() - from ==> t[from + i] == #[trigger] unsigned_chunk(value)[i],
    ensures
        chunk_stop(t, from) == t.len(),
    decreases value,
{
    let c = unsigned_chunk(value);
    if from < t.len() {
        assert(t[from + 0] == c[0]);
        let head = seq![(value % 32 + 95) as char];
        let tail = unsigned_chunk(value / 32);
        assert(c == head + tail);
        assert forall|i: int| 0 <= i < t.len() - (from + 1) implies t[from + 1 + i]
            == #[trigger] tail[i] by {
            assert(c[i + 1] == tail[i]);
            assert(t[from + (i + 1)] == c[i + 1]);
        }
        lemma_chunk_cut_short(t, from + 1, value / 32);
    }
}

/// Where the characters of a difference stand in a string, reading a
/// coordinate there adds the difference and stops behind them.
proof fn lemma_reads_coordinate(t: Seq<char>, from: int, current: i64, target: i64)
    requires
        0 <= from,
        from + signed_chunk(target - current).len() <= t.len(),
        forall|i: int|
            0 <= i < signed_chunk(target - current).len() ==> t[from + i] == #[trigger] signed_chunk(
                target - current,
            )[i],
    ensures
        next_coordinate(t, from, current as int) == Some(
            (target, from + signed_chunk(target - current).len()),
        ),
{
    lemma_unzigzag_zigzag(target - current);
    lemma_chunk_shape(zigzag(target - current));
    lemma_chunk_reads_back(t, from, zigzag(target - current));
}

/// The encoding of a path starts with the characters of its first position;
/// the rest is the encoding of the other positions from there.
proof fn lemma_encoded_from_first(path: Seq<LatLng>, start: LatLng)
    requires
        path.len() > 0,
    ensures
        encoded_from(path, start) == point_chunks(path[0], start) + encoded_from(
            path.drop_first(),
            path[0],
        ),
    decreases path.len(),
{
    if path.len() == 1 {
        assert(encoded_from(path.drop_last(), start) == Seq::<char>::empty());
        assert(encoded_from(path.drop_first(), path[0]) == Seq::<char>::empty());
        assert(encoded_from(path, start) == encoded_from(path.drop_last(), start) + point_chunks(
            path.last(),
            start,
        ));
        assert(encoded_from(path, start) =~= point_chunks(path[0], start) + encoded_from(
            path.drop_first(),
            path[0],
        ));
    } else {
        let before = path[path.len() - 2];
        lemma_encoded_from_first(path.drop_last(), start);
        assert(path.drop_last().drop_first() == path.drop_first().drop_last());
        assert(path.drop_last()[0] == path[0]);
        assert(path.drop_first().last() == path.last());
        let shorter = path.drop_first();
        let before_shorter = if shorter.len() == 1 {
            path[0]
        } else {
            shorter[shorter.len() - 2]
        };
        assert(before_shorter == before);
        assert(encoded_from(shorter, path[0]) == encoded_from(shorter.drop_last(), path[0])
            + point_chunks(shorter.last(), before_shorter));
        assert(encoded_from(path, start) == encoded_from(path.drop_last(), start) + point_chunks(
            path.last(),
            before,
        ));
        assert(encoded_from(path, start) =~= point_chunks(path[0], start) + encoded_from(
            path.drop_first(),
            path[0],
        ));
    }
}

/// Decoding, from any place in a string where the encoding of a path starts
/// and runs to the end, gives that path.
proof fn lemma_decoded_from_encoded(s: Seq<char>, from: int, path: Seq<LatLng>, start: LatLng)
    requires
        0 <= from <= s.len(),
        s.skip(from) == encoded_from(path, start),
    ensures
        decoded_from(s, from, start) == Some(path),
    decreases path.len(),
{
    if path.len() == 0 {
        assert(s.skip(from).len() == 0);
        assert(path == Seq::<LatLng>::empty());
    } else {
        let p = path[0];
        let lat_chunk = signed_chunk(p.0 - start.0);
        let lng_chunk = signed_chunk(p.1 - start.1);
        let rest = encoded_from(path.drop_first(), p);
        lemma_encoded_from_first(path, start);
        lemma_chunk_shape(zigzag(p.0 - start.0));
        lemma_chunk_shape(zigzag(p.1 - start.1));
        let tail = s.skip(from);
        assert(tail == lat_chunk + lng_chunk + rest);
        let mid = from + lat_chunk.len();
        let next = mid + lng_chunk.len();
        assert(tail.len() == lat_chunk.len() + lng_chunk.len() + rest.len());
        assert forall|i: int| 0 <= i < lat_chunk.len() implies s[from + i] == #[trigger] lat_chunk[i] by {
            assert(tail[i] == s[from + i]);
        }
        assert forall|i: int| 0 <= i < lng_chunk.len() implies s[mid + i] == #[trigger] lng_chunk[i] by {
            assert(tail[lat_chunk.len() + i] == s[mid + i]);
        }
        lemma_reads_coordinate(s, from, start.0, p.0);
        lemma_reads_coordinate(s, mid, start.1, p.1);
        assert forall|i: int| 0 <= i < rest.len() implies s.skip(next)[i] == rest[i] by {
            assert(tail[lat_chunk.len() + lng_chunk.len() + i] == s[next + i]);
        }
        assert(s.skip(next) =~= rest);
        lemma_decoded_from_encoded(s, next, path.drop_first(), p);
        assert(seq![p] + path.drop_first() =~= path);
        assert(LatLng(p.0, p.1) == p);
    }
}

/// Every character of an encoding lies in the alphabet, from `'?'` to `'~'`.
pub proof fn lemma_encoded_alphabet(path: Seq<LatLng>)
    ensures
        forall|i: int|
            0 <= i < encoded(path).len() ==> 63 <= (#[trigger] encoded(path)[i]) as int <= 126,
        is_ascii_chars(encoded(path)),
{
    lemma_encoded_from_alphabet(path, LatLng(0, 0));
}

/// The same, from any position before the first.
proof fn lemma_encoded_from_alphabet(path: Seq<LatLng>, start: LatLng)
    ensures
        forall|i: int|
            0 <= i < encoded_from(path, start).len() ==> 63 <= (#[trigger] encoded_from(
                path,
                start,
            )[i]) as int <= 126,
        is_ascii_chars(encoded_from(path, start)),
    decreases path.len(),
{
    if path.len() > 0 {
        let before = if path.len() == 1 {
            start
        } else {
            path[path.len() - 2]
        };
        let p = path.last();
        lemma_encoded_from_alphabet(path.drop_last(), start);
        lemma_chunk_shape(zigzag(p.0 - before.0));
        lemma_chunk_shape(zigzag(p.1 - before.1));
        let head = encoded_from(path.drop_last(), start);
        let lat_chunk = signed_chunk(p.0 - before.0);
        let lng_chunk = signed_chunk(p.1 - before.1);
        assert(encoded_from(path, start) == head + (lat_chunk + lng_chunk));
        assert forall|i: int| 0 <= i < encoded_from(path, start).len() implies 63 <= (
        #[trigger] encoded_from(path, start)[i]) as int <= 126 by {
            if i < head.len() {
                assert(encoded_from(path, start)[i] == head[i]);
            } else if i < head.len() + lat_chunk.len() {
                assert(encoded_from(path, start)[i] == lat_chunk[i - head.len()]);
            } else {
                assert(encoded_from(path, start)[i] == lng_chunk[i - head.len()
                    - lat_chunk.len()]);
            }
        }
    }
}

/// Decoding the encoding of a path gives the path back, so encoding what was
/// decoded gives the same string again.
pub proof fn lemma_round_trip(path: Seq<LatLng>)
    ensures
        decoded(encoded(path)) == Some(path),
        encoded(decoded(encoded(path))->Some_0) == encoded(path),
{
    let s = encoded(path);
    lemma_encoded_alphabet(path);
    assert(s.skip(0) =~= s);
    lemma_decoded_from_encoded(s, 0, path, LatLng(0, 0));
}

/// Where a string ends inside the encoding of a path that starts at `from`,
/// anywhere but behind a whole position, decoding from there fails.
proof fn lemma_cut_from(t: Seq<char>, from: int, path: Seq<LatLng>, start: LatLng)
    requires
        0 <= from <= t.len(),
        t.len() - from <= encoded_from(path, start).len(),
        forall|i: int| 0 <= i < t.len() - from ==> t[from + i] == encoded_from(path, start)[i],
        forall|j: int|
            0 <= j <= path.len() ==> t.len() - from != (#[trigger] encoded_from(
                path.take(j),
                start,
            )).len(),
    ensures
        decoded_from(t, from, start) is None,
    decreases path.len(),
{
    let e = encoded_from(path, start);
    assert(encoded_from(path.take(0), start).len() == 0);
    assert(path.len() > 0);
    let p = path[0];
    let lat_chunk = signed_chunk(p.0 - start.0);
    let lng_chunk = signed_chunk(p.1 - start.1);
    let others = path.drop_first();
    let rest = encoded_from(others, p);
    lemma_encoded_from_first(path, start);
    lemma_chunk_shape(zigzag(p.0 - start.0));
    lemma_chunk_shape(zigzag(p.1 - start.1));
    assert(e == lat_chunk + lng_chunk + rest);
    let mid = from + lat_chunk.len();
    let next = mid + lng_chunk.len();
    if t.len() < mid {
        assert forall|i: int| 0 <= i < t.len() - from implies t[from + i]
            == #[trigger] lat_chunk[i] by {
            assert(e[i] == lat_chunk[i]);
        }
        lemma_chunk_cut_short(t, from, zigzag(p.0 - start.0));
    } else {
        assert forall|i: int| 0 <= i < lat_chunk.len() implies t[from + i]
            == #[trigger] lat_chunk[i] by {
            assert(e[i] == lat_chunk[i]);
        }
        lemma_reads_coordinate(t, from, start.0, p.0);
        if t.len() < next {
            assert forall|i: int| 0 <= i < t.len() - mid implies t[mid + i]
                == #[trigger] lng_chunk[i] by {
                assert(e[lat_chunk.len() + i] == lng_chunk[i]);
                assert(t[from + (lat_chunk.len() + i)] == e[lat_chunk.len() + i]);
            }
            lemma_chunk_cut_short(t, mid, zigzag(p.1 - start.1));
        } else {
            assert forall|i: int| 0 <= i < lng_chunk.len() implies t[mid + i]
                == #[trigger] lng_chunk[i] by {
                assert(e[lat_chunk.len() + i] == lng_chunk[i]);
                assert(t[from + (lat_chunk.len() + i)] == e[lat_chunk.len() + i]);
            }
            lemma_reads_coordinate(t, mid, start.1, p.1);
            assert forall|i: int| 0 <= i < t.len() - next implies t[next + i] == rest[i] by {
                assert(e[lat_chunk.len() + lng_chunk.len() + i] == rest[i]);
                assert(t[from + (lat_chunk.len() + lng_chunk.len() + i)] == e[lat_chunk.len()
                    + lng_chunk.len() + i]);
            }
            assert forall|j: int| 0 <= j <= others.len() implies t.len() - next != (
            #[trigger] encoded_from(others.take(j), p)).len() by {
                let longer = path.take(j + 1);
                lemma_encoded_from_first(longer, start);
                assert(longer.drop_first() == others.take(j));
                assert(longer[0] == p);
                assert(encoded_from(longer, start).len() == lat_chunk.len() + lng_chunk.len()
                    + encoded_from(others.take(j), p).len());
            }
            lemma_cut_from(t, next, others, p);
            assert(LatLng(p.0, p.1) == p);
        }
    }
}

/// A string cut out of the front of an encoding stands for no path, unless
/// the cut falls behind a whole position: one that ends inside a chunk, or
/// between a latitude and its longitude, is rejected.
pub proof fn lemma_truncated_rejected(path: Seq<LatLng>, k: int)
    requires
        0 <= k <= encoded(path).len(),
        forall|j: int| 0 <= j <= path.len() ==> k != (#[trigger] encoded(path.take(j))).len(),
    ensures
        decoded(encoded(path).take(k)) is None,
{
    let origin = LatLng(0, 0);
    let t = encoded(path).take(k);
    lemma_encoded_alphabet(path);
    assert forall|j: int| 0 <= j <= path.len() implies t.len() - 0 != (#[trigger] encoded_from(
        path.take(j),
        origin,
    )).len() by {
        assert(encoded(path.take(j)) == encoded_from(path.take(j), origin));
    }
    lemma_cut_from(t, 0, path, origin);
}

/// The encoding of the first `j` positions of a path is the front of the
/// encoding of the path: these are the places behind a whole position.
pub proof fn lemma_encoded_prefix(path: Seq<LatLng>, j: int)
    requires
        0 <= j <= path.len(),
    ensures
        encoded(path.take(j)).len() <= encoded(path).len(),
        encoded(path.take(j)) == encoded(path).take(encoded(path.take(j)).len() as int),
    decreases path.len() - j,
{
    let origin = LatLng(0, 0);
    if j == path.len() {
        assert(path.take(j) == path);
        assert(encoded(path).take(encoded(path).len() as int) == encoded(path));
    } else {
        lemma_encoded_prefix(path, j + 1);
        let longer = path.take(j + 1);
        assert(longer.drop_last() == path.take(j));
        let before = if longer.len() == 1 {
            origin
        } else {
            longer[longer.len() - 2]
        };
        assert(encoded_from(longer, origin) == encoded_from(longer.drop_last(), origin)
            + point_chunks(longer.last(), before));
        assert(encoded(path.take(j)) =~= encoded(path).take(encoded(path.take(j)).len() as int));
    }
}

/// Two paths with one encoding are one path. So a route scaled at two
/// precisions has two encodings wherever the scaled positions differ.
pub proof fn lemma_encoded_injective(a: Seq<LatLng>, b: Seq<LatLng>)
    requires
        encoded(a) == encoded(b),
    ensures
        a == b,
{
    lemma_round_trip(a);
    lemma_round_trip(b);
}

/// Whether `coarse` is `fine` rounded to whole multiples of `step`, a half
/// going either way.
pub open spec fn rounded_to(fine: int, coarse: int, step: int) -> bool {
    -step <= 2 * (fine - step * coarse) <= step
}

/// Whether `coarse` is the path `fine` with `digits` fewer decimal digits:
/// each coordinate rounded to the nearest whole unit of the lower precision.
pub open spec fn coarsened(fine: Seq<LatLng>, coarse: Seq<LatLng>, digits: nat) -> bool {
    &&& fine.len() == coarse.len()
    &&& forall|i: int|
        0 <= i < fine.len() ==> rounded_to(
            (#[trigger] fine[i]).0 as int,
            coarse[i].0 as int,
            scale(digits),
        ) && rounded_to(fine[i].1 as int, coarse[i].1 as int, scale(digits))
}

/// A route scaled at two precisions has two encodings, unless every
/// coordinate is zero at the higher one. So the encodings differ at the least
/// wherever a coordinate is no whole number of the lower precision's units.
pub proof fn lemma_precision_sensitive(fine: Seq<LatLng>, coarse: Seq<LatLng>, digits: nat)
    requires
        digits >= 1,
        coarsened(fine, coarse, digits),
        exists|i: int| 0 <= i < fine.len() && (#[trigger] fine[i]) != LatLng(0, 0),
    ensures
        encoded(fine) != encoded(coarse),
{
    let step = scale(digits);
    lemma_pow1(10);
    lemma_pow_increases(10, 1, digits);
    if encoded(fine) == encoded(coarse) {
        lemma_encoded_injective(fine, coarse);
        let i = choose|i: int| 0 <= i < fine.len() && (#[trigger] fine[i]) != LatLng(0, 0);
        lemma_fixed_by_rounding(fine[i].0 as int, step);
        lemma_fixed_by_rounding(fine[i].1 as int, step);
    }
}

/// Only zero is its own rounding to multiples of ten or more.
proof fn lemma_fixed_by_rounding(x: int, step: int)
    requires
        step >= 10,
        rounded_to(x, x, step),
    ensures
        x == 0,
{
    assert(x == 0) by (nonlinear_arith)
        requires
            step >= 10,
            -step <= 2 * (x - step * x) <= step,
    ;
}

} // verus!
