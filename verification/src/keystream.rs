//! Probes for specific cipher hypotheses: a fixed 31-bit keystream
//! read out bit by bit, majority-vote error correction over repeated
//! messages, and a whole-message shift.

use crate::arx::{spec_decrypt_round, spec_wsub8, round_valid, ror8, ARXRound};
use vstd::prelude::*;

verus! {

/// The fixed 31-bit key a keystream hypothesis reads from.
pub const CAULDRON_KEY: u32 = 0b1100111101001111001010010101101;

/// Its length in bits.
pub const CAULDRON_KEY_LEN: u32 = 31;

/// The bits a keystream read gives back, and the bits left after it.
pub open spec fn spec_key_bits(key_left: u32, wanted_bits: u32) -> (u32, u32) {
    let mask = !(0xffff_ffffu32 << wanted_bits);
    if key_left >= wanted_bits {
        ((CAULDRON_KEY >> (key_left - wanted_bits) as u32) & mask, (key_left - wanted_bits) as u32)
    } else {
        let new_left = (CAULDRON_KEY_LEN - wanted_bits + key_left) as u32;
        (((CAULDRON_KEY << (wanted_bits - key_left) as u32) & mask) | ((CAULDRON_KEY >> new_left)
            & mask), new_left)
    }
}

/// Read `wanted_bits` bits from the keystream, wrapping around the key
/// when it runs out.
pub fn get_key_bits(key_left: &mut u32, wanted_bits: u32) -> (r: u32)
    requires
        *old(key_left) <= CAULDRON_KEY_LEN,
        1 <= wanted_bits <= CAULDRON_KEY_LEN,
    ensures
        r == spec_key_bits(*old(key_left), wanted_bits).0,
        *final(key_left) == spec_key_bits(*old(key_left), wanted_bits).1,
        *final(key_left) <= CAULDRON_KEY_LEN,
{
    let mask = !(0xffff_ffffu32 << wanted_bits);
    let mut key_bits: u32;
    if *key_left >= wanted_bits {
        *key_left = *key_left - wanted_bits;
        key_bits = (CAULDRON_KEY >> *key_left) & mask;
    } else {
        key_bits = (CAULDRON_KEY << (wanted_bits - *key_left)) & mask;
        *key_left = CAULDRON_KEY_LEN - wanted_bits + *key_left;
        key_bits = key_bits | ((CAULDRON_KEY >> *key_left) & mask);
    }
    key_bits
}

/// Read one keystream byte.
pub fn get_key_byte(key_left: &mut u32) -> (r: u8)
    requires
        *old(key_left) <= CAULDRON_KEY_LEN,
    ensures
        r == spec_key_bits(*old(key_left), 8).0 as u8,
        *final(key_left) == spec_key_bits(*old(key_left), 8).1,
        *final(key_left) <= CAULDRON_KEY_LEN,
{
    let ghost kl = *old(key_left);
    let bits = get_key_bits(key_left, 8);
    proof {
        lemma_key_bits_byte(kl);
    }
    bits as u8
}

/// Eight keystream bits fit a byte.
proof fn lemma_key_bits_byte(kl: u32)
    ensures
        spec_key_bits(kl, 8).0 < 256,
{
    assert(forall|x: u32| #[trigger] (x & !(0xffff_ffffu32 << 8u32)) < 256) by (bit_vector);
    assert(forall|a: u32, b: u32|
        #[trigger] ((a & !(0xffff_ffffu32 << 8u32)) | (b & !(0xffff_ffffu32 << 8u32)))
            < 256) by (bit_vector);
}

/// Read one keystream bit.
pub fn get_key_bit(key_left: &mut u32) -> (r: bool)
    requires
        *old(key_left) <= CAULDRON_KEY_LEN,
    ensures
        r == (spec_key_bits(*old(key_left), 1).0 > 0),
        *final(key_left) == spec_key_bits(*old(key_left), 1).1,
        *final(key_left) <= CAULDRON_KEY_LEN,
{
    get_key_bits(key_left, 1) > 0
}

/// One canonical cipher round applied to one byte: add, rotate right,
/// xor, in that order.
pub fn apply_rax_round(in_byte: u8, round: &ARXRound) -> (r: u8)
    requires
        round_valid(*round),
    ensures
        r == spec_decrypt_round(in_byte, *round),
{
    ror8(in_byte.wrapping_add(round.add), round.rot) ^ round.xor
}

/// Shift every byte of a message down by 32, wrapping.
pub fn sub32_message(msg: &Vec<u8>) -> (r: Vec<u8>)
    ensures
        r@.len() == msg@.len(),
        forall|i: int| 0 <= i < msg@.len() ==> r@[i] == spec_wsub8(#[trigger] msg@[i], 32),
{
    let mut out: Vec<u8> = Vec::new();
    let mut i: usize = 0;
    while i < msg.len()
        invariant
            i <= msg@.len(),
            out@.len() == i,
            forall|j: int| 0 <= j < i ==> out@[j] == spec_wsub8(#[trigger] msg@[j], 32),
        decreases msg@.len() - i,
    {
        out.push(msg[i].wrapping_sub(32));
        i = i + 1;
    }
    out
}

/// How many of the messages have bit `mask` set at position `i`.
pub open spec fn ones_at(msgs: Seq<Seq<u8>>, i: int, mask: u8) -> int
    decreases msgs.len(),
{
    if msgs.len() == 0 {
        0
    } else {
        ones_at(msgs.drop_last(), i, mask) + (if msgs.last()[i] & mask != 0 {
            1int
        } else {
            0int
        })
    }
}

/// The majority byte at position `i`: each bit is set when more than
/// half the messages have it set.
pub open spec fn majority_byte(msgs: Seq<Seq<u8>>, i: int, bits: int) -> u8
    decreases bits,
{
    if bits <= 0 {
        0
    } else {
        majority_byte(msgs, i, bits - 1) | (if ones_at(msgs, i, (1u8 << (bits - 1) as u8))
            > msgs.len() / 2 {
            1u8 << (bits - 1) as u8
        } else {
            0u8
        })
    }
}

/// Majority-vote error correction over repeated transmissions: the
/// output is as long as the shortest message, and each output bit is
/// the bit most of the messages agree on.
pub fn error_correction(messages: &Vec<Vec<u8>>) -> (r: Vec<u8>)
    requires
        messages@.len() > 0,
    ensures
        r@.len() == min_message_len(messages@.map_values(|m: Vec<u8>| m@)),
        forall|i: int|
            0 <= i < r@.len() ==> r@[i] == majority_byte(
                messages@.map_values(|m: Vec<u8>| m@),
                i,
                8,
            ),
{
    let ghost msgs = messages@.map_values(|m: Vec<u8>| m@);
    let mut max_len = messages[0].len();
    let mut m: usize = 1;
    while m < messages.len()
        invariant
            messages@.len() > 0,
            msgs == messages@.map_values(|mv: Vec<u8>| mv@),
            1 <= m <= messages@.len(),
            max_len == min_len_upto(msgs, m as int),
        decreases messages@.len() - m,
    {
        let len = messages[m].len();
        if len < max_len {
            max_len = len;
        }
        m = m + 1;
    }
    proof {
        assert(min_message_len(msgs) == min_len_upto(msgs, msgs.len() as int));
    }
    let threshold = messages.len() / 2;
    let mut output: Vec<u8> = Vec::new();
    let mut i: usize = 0;
    while i < max_len
        invariant
            messages@.len() > 0,
            msgs == messages@.map_values(|mv: Vec<u8>| mv@),
            max_len == min_message_len(msgs),
            threshold == msgs.len() / 2,
            i <= max_len,
            output@.len() == i,
            forall|j: int| 0 <= j < i ==> output@[j] == majority_byte(msgs, j, 8),
        decreases max_len - i,
    {
        let mut byte: u8 = 0;
        let mut b: usize = 0;
        while b < 8
            invariant
                messages@.len() > 0,
                msgs == messages@.map_values(|mv: Vec<u8>| mv@),
                max_len == min_message_len(msgs),
                threshold == msgs.len() / 2,
                i < max_len,
                b <= 8,
                byte == majority_byte(msgs, i as int, b as int),
            decreases 8 - b,
        {
            let mask: u8 = 1u8 << b;
            let mut ones: usize = 0;
            let mut m2: usize = 0;
            while m2 < messages.len()
                invariant
                    messages@.len() > 0,
                    msgs == messages@.map_values(|mv: Vec<u8>| mv@),
                    max_len == min_message_len(msgs),
                    i < max_len,
                    mask == 1u8 << b,
                    m2 <= msgs.len(),
                    ones == ones_at(msgs.take(m2 as int), i as int, mask),
                    ones <= m2,
                decreases messages@.len() - m2,
            {
                proof {
                    lemma_min_len_bounds(msgs, m2 as int);
                    assert(msgs.take(m2 + 1).drop_last() =~= msgs.take(m2 as int));
                    assert(msgs.take(m2 + 1).last() == msgs[m2 as int]);
                }
                if (messages[m2][i] & mask) > 0 {
                    ones = ones + 1;
                }
                m2 = m2 + 1;
            }
            proof {
                assert(msgs.take(msgs.len() as int) =~= msgs);
            }
            if ones > threshold {
                byte = byte | mask;
            } else {
                proof {
                    assert(forall|x: u8| #[trigger] (x | 0u8) == x) by (bit_vector);
                }
            }
            b = b + 1;
        }
        output.push(byte);
        i = i + 1;
    }
    output
}

/// The shortest message length over the first `m` messages.
pub open spec fn min_len_upto(msgs: Seq<Seq<u8>>, m: int) -> int
    decreases m,
{
    if m <= 1 {
        msgs[0].len() as int
    } else {
        let prev = min_len_upto(msgs, m - 1);
        if msgs[m - 1].len() < prev {
            msgs[m - 1].len() as int
        } else {
            prev
        }
    }
}

/// The shortest message length over all messages.
pub open spec fn min_message_len(msgs: Seq<Seq<u8>>) -> int {
    min_len_upto(msgs, msgs.len() as int)
}

/// The minimum is below every message's length.
proof fn lemma_min_len_bounds(msgs: Seq<Seq<u8>>, m: int)
    requires
        0 <= m < msgs.len(),
    ensures
        min_message_len(msgs) <= msgs[m].len(),
    decreases msgs.len() - m,
{
    lemma_min_len_upto_bounds(msgs, m, msgs.len() as int);
}

proof fn lemma_min_len_upto_bounds(msgs: Seq<Seq<u8>>, m: int, n: int)
    requires
        0 <= m < n <= msgs.len(),
    ensures
        min_len_upto(msgs, n) <= msgs[m].len(),
    decreases n,
{
    if m < n - 1 {
        lemma_min_len_upto_bounds(msgs, m, n - 1);
    }
    if n - 1 > 0 {
    }
}

} // verus!
