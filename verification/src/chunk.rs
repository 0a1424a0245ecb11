//! One number of the wire format: a signed difference, folded to a
//! non-negative value and written five bits to a character.
use vstd::prelude::*;

verus! {

/// Appending one character to a string: `String::push` puts `ch` behind the
/// characters the string already holds and changes none of them.
pub assume_specification[ String::push ](s: &mut String, ch: char)
    ensures
        final(s)@ == old(s)@.push(ch),
;

/// Folds a signed difference to a non-negative value: 0, -1, 1, -2, 2, ...
/// become 0, 1, 2, 3, 4, ...
pub open spec fn zigzag(delta: int) -> int {
    if delta < 0 {
        -2 * delta - 1
    } else {
        2 * delta
    }
}

/// Unfolds what `zigzag` folded. It is defined on negative values too, where
/// it agrees with the same steps done on a two's complement number.
pub open spec fn unzigzag(value: int) -> int {
    if value % 2 != 0 {
        -(value / 2) - 1
    } else {
        value / 2
    }
}

/// The characters that stand for a non-negative value: its five-bit groups
/// from the lowest up, each but the last with the continuation bit set, each
/// moved up by the alphabet offset.
pub open spec fn unsigned_chunk(value: int) -> Seq<char>
    recommends
        value >= 0,
    decreases value,
{
    if value < 32 {
        seq![(value + 63) as char]
    } else {
        seq![(value % 32 + 95) as char] + unsigned_chunk(value / 32)
    }
}

/// The characters that stand for a signed difference.
pub open spec fn signed_chunk(delta: int) -> Seq<char> {
    unsigned_chunk(zigzag(delta))
}

/// Whether a character says that its chunk goes on: its group has the
/// continuation bit set. Every character below `'_'` ends a chunk.
pub open spec fn is_continuation(c: char) -> bool {
    c as int >= 95
}

/// The number that a character adds to its chunk, before the weight of its
/// place: the low five bits of its group for a character of the alphabet.
/// Outside the alphabet it goes on linearly, so a character below `'?'` counts
/// as a negative digit and the one above `'~'` as 32.
pub open spec fn digit(c: char) -> int {
    if is_continuation(c) {
        c as int - 95
    } else {
        c as int - 63
    }
}

/// The index of the character that ends the chunk starting at `from`: the
/// first one at or after `from` that is no continuation. It is the length of
/// `s` where the chunk never ends.
pub open spec fn chunk_stop(s: Seq<char>, from: int) -> int
    decreases s.len() - from,
{
    if from < 0 || from >= s.len() {
        s.len() as int
    } else if is_continuation(s[from]) {
        chunk_stop(s, from + 1)
    } else {
        from
    }
}

/// The value of the characters from `from` to `stop`, both included: the
/// digit at `from` counts once, the next 32 times, the next 1024 times, ...
pub open spec fn chunk_value(s: Seq<char>, from: int, stop: int) -> int
    decreases stop - from + 1,
{
    if from > stop {
        0
    } else {
        digit(s[from]) + 32 * chunk_value(s, from + 1, stop)
    }
}

/// Appends the characters of `value`, a non-negative number, to `v`.
pub fn encode_unsigned(value: u128, v: &mut String)
    ensures
        final(v)@ == old(v)@ + unsigned_chunk(value as int),
{
    let mut value = value;
    let ghost whole: int = value as int;
    let ghost before: Seq<char> = v@;
    while value >= 0x20
        invariant
            before + unsigned_chunk(whole) == v@ + unsigned_chunk(value as int),
        decreases value,
    {
        let group: u128 = 0x20 | (value & 0x1f);
        let rest: u128 = value >> 5;
        proof {
            assert(group == value % 32 + 32 && rest == value / 32) by (bit_vector)
                requires
                    group == 0x20u128 | (value & 0x1f),
                    rest == value >> 5,
            ;
            assert(v@ + unsigned_chunk(value as int) == v@.push((value % 32 + 95) as char)
                + unsigned_chunk(value as int / 32));
        }
        v.push((group + 63) as u8 as char);
        value = rest;
    }
    proof {
        assert(v@ + unsigned_chunk(value as int) == v@.push((value + 63) as char));
    }
    v.push((value + 63) as u8 as char);
}

/// Appends the characters of `value`, a signed difference, to `v`.
pub fn encode_signed(value: i128, v: &mut String)
    ensures
        final(v)@ == old(v)@ + signed_chunk(value as int),
{
    let shifted: u128 = (value as u128) << 1;
    let folded: u128 = if value < 0 {
        !shifted
    } else {
        shifted
    };
    proof {
        assert(folded == if value < 0 {
            -2 * value - 1
        } else {
            2 * value
        }) by (bit_vector)
            requires
                shifted == (value as u128) << 1,
                folded == if value < 0 {
                    !shifted
                } else {
                    shifted
                },
        ;
    }
    encode_unsigned(folded, v)
}

} // verus!
