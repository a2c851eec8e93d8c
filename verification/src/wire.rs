//! Canonical base-128 varints, the primitive of the key-dump format.
//! Low seven bits come first; a set top bit means more bytes follow;
//! the encoding is minimal, so value and byte form determine each
//! other.

use vstd::arithmetic::div_mod::{
    lemma_div_is_ordered,
    lemma_fundamental_div_mod,
    lemma_fundamental_div_mod_converse,
};
use vstd::prelude::*;

verus! {

/// The bytes of a value's varint form.
pub open spec fn spec_varint(x: u64) -> Seq<u8>
    decreases x,
{
    if x < 128 {
        seq![x as u8]
    } else {
        seq![(x % 128 + 128) as u8] + spec_varint(x / 128)
    }
}

/// What reading a varint at `pos` gives: the value and the position
/// after it, or nothing when no canonical varint starts there.
pub open spec fn spec_varint_decode(bytes: Seq<u8>, pos: int) -> Option<(u64, int)>
    decreases bytes.len() - pos,
{
    if pos < 0 || pos >= bytes.len() {
        None
    } else {
        let b = bytes[pos];
        if b < 128 {
            Some((b as u64, pos + 1))
        } else {
            match spec_varint_decode(bytes, pos + 1) {
                None => None,
                Some((v, p2)) => if v == 0 {
                    None
                } else if v > (u64::MAX - ((b - 128) as u64)) / 128 {
                    None
                } else {
                    Some((((b - 128) + 128 * v) as u64, p2))
                },
            }
        }
    }
}

/// Wherever a value's varint form sits, reading there gives the value
/// back and stops right after it.
pub proof fn lemma_varint_roundtrip(bytes: Seq<u8>, pos: int, x: u64)
    requires
        0 <= pos,
        pos + spec_varint(x).len() <= bytes.len(),
        bytes.subrange(pos, pos + spec_varint(x).len()) == spec_varint(x),
    ensures
        spec_varint_decode(bytes, pos) == Some((x, pos + spec_varint(x).len())),
    decreases x,
{
    let enc = spec_varint(x);
    assert(bytes[pos] == enc[0]);
    if x < 128 {
    } else {
        let tail = spec_varint(x / 128);
        assert forall|i: int| 0 <= i < tail.len() implies bytes[pos + 1 + i] == tail[i] by {
            assert(bytes.subrange(pos, pos + enc.len() as int)[i + 1] == bytes[pos + 1 + i]);
            assert(enc[i + 1] == tail[i]);
        }
        assert(bytes.subrange(pos + 1, pos + 1 + tail.len() as int) =~= tail);
        lemma_varint_roundtrip(bytes, pos + 1, x / 128);
        lemma_fundamental_div_mod(x as int, 128);
        assert(x / 128 >= 1);
        assert(x / 128 <= (u64::MAX - (x % 128)) / 128) by {
            lemma_div_is_ordered(128 * (x / 128), u64::MAX - (x % 128), 128);
            lemma_fundamental_div_mod_converse(128 * (x / 128), 128, x as int / 128, 0);
        }
        assert(bytes[pos] - 128 == x % 128);
        assert(((x % 128) + 128 * (x / 128)) as u64 == x);
    }
}

/// Whatever a read gives back was written exactly as its varint form:
/// the bytes consumed are the value's canonical encoding.
pub proof fn lemma_varint_decode_sound(bytes: Seq<u8>, pos: int)
    requires
        spec_varint_decode(bytes, pos) is Some,
    ensures
        ({
            let (v, p) = spec_varint_decode(bytes, pos).unwrap();
            &&& 0 <= pos < p <= bytes.len()
            &&& p == pos + spec_varint(v).len()
            &&& bytes.subrange(pos, p) == spec_varint(v)
        }),
    decreases bytes.len() - pos,
{
    let b = bytes[pos];
    if b < 128 {
        assert(bytes.subrange(pos, pos + 1) =~= spec_varint(b as u64));
    } else {
        lemma_varint_decode_sound(bytes, pos + 1);
        let (v2, p) = spec_varint_decode(bytes, pos + 1).unwrap();
        let v = ((b - 128) + 128 * v2) as u64;
        assert(v == (b - 128) + 128 * v2) by {
            assert(128 * v2 <= u64::MAX - ((b - 128) as u64)) by {
                lemma_fundamental_div_mod((u64::MAX - ((b - 128) as u64)) as int, 128);
            }
        }
        lemma_fundamental_div_mod_converse(v as int, 128, v2 as int, (b - 128) as int);
        assert(v >= 128);
        assert(spec_varint(v) == seq![b] + spec_varint(v2));
        assert(bytes.subrange(pos, p) =~= seq![b] + bytes.subrange(pos + 1, p));
    }
}

/// Append a value's varint form to a byte buffer.
pub fn encode_varint(out: &mut Vec<u8>, x: u64)
    ensures
        final(out)@ == old(out)@ + spec_varint(x),
    decreases x,
{
    if x < 128 {
        out.push(x as u8);
        proof {
            assert(out@ =~= old(out)@ + spec_varint(x));
        }

    } else {
        out.push((x % 128 + 128) as u8);
        encode_varint(out, x / 128);
        proof {
            assert(out@ =~= old(out)@ + spec_varint(x));
        }
    }
}

/// Read a varint at `pos`: the value and the position after it, or
/// nothing when no canonical varint starts there.
pub fn decode_varint(bytes: &Vec<u8>, pos: usize) -> (r: Option<(u64, usize)>)
    ensures
        match r {
            Some((v, p)) => spec_varint_decode(bytes@, pos as int) == Some((v, p as int)),
            None => spec_varint_decode(bytes@, pos as int) is None,
        },
    decreases bytes@.len() - pos,
{
    if pos >= bytes.len() {
        return None;
    }
    let b = bytes[pos];
    if b < 128 {
        Some((b as u64, pos + 1))
    } else {
        match decode_varint(bytes, pos + 1) {
            None => None,
            Some((v, p2)) => {
                if v == 0 {
                    None
                } else if v > (u64::MAX - ((b - 128) as u64)) / 128 {
                    None
                } else {
                    proof {
                        lemma_fundamental_div_mod((u64::MAX - ((b - 128) as u64)) as int, 128);
                    }
                    Some(((b - 128) as u64 + 128 * v, p2))
                }
            },
        }
    }
}

} // verus!
