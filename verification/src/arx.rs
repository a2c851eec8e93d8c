//! The ARX reference cipher: a key is `N` rounds of (add, rotate, xor)
//! on bytes, with wrapping 8-bit arithmetic. Decryption applies the
//! rounds forward, encryption applies the inverted rounds backward, and
//! the two are proved inverse to each other for every key and byte.

use crate::messages::{data_list_view, InterleavedMessageData, MessageData, MessageDataList};
use crate::smallbuf::{unit_buf, UnitBuf};
use crate::stackvec::StackVec;
use vstd::prelude::*;

verus! {

/// Most rounds a key may hold.
pub const MAX_ROUNDS: usize = 8;

/// One ARX round: add `add`, rotate right by `rot` (0..=7), xor `xor`.
#[derive(Clone, Copy, PartialEq, Eq, Structural, Debug)]
pub struct ARXRound {
    pub add: u8,
    /// Rotation amount; only 0..=7 are meaningful.
    pub rot: u8,
    pub xor: u8,
}

impl ARXRound {
    /// The all-zero round, which leaves a byte unchanged.
    pub fn zero() -> (r: ARXRound)
        ensures
            r == (ARXRound { add: 0, rot: 0, xor: 0 }),
    {
        ARXRound { add: 0, rot: 0, xor: 0 }
    }
}

/// A round is well formed when its rotation is a bit position.
pub open spec fn round_valid(rd: ARXRound) -> bool {
    rd.rot < 8
}

/// Rotate `b` right by `r` bits.
pub open spec fn spec_ror8(b: u8, r: u8) -> u8 {
    if r == 0 {
        b
    } else {
        (b >> r) | (b << ((8 - r) as u8))
    }
}

/// Rotate `b` left by `r` bits.
pub open spec fn spec_rol8(b: u8, r: u8) -> u8 {
    if r == 0 {
        b
    } else {
        (b << r) | (b >> ((8 - r) as u8))
    }
}

/// Wrapping byte addition.
pub open spec fn spec_wadd8(b: u8, a: u8) -> u8 {
    if b + a > 255 {
        (b + a - 256) as u8
    } else {
        (b + a) as u8
    }
}

/// Wrapping byte subtraction.
pub open spec fn spec_wsub8(b: u8, a: u8) -> u8 {
    if b - a < 0 {
        (b - a + 256) as u8
    } else {
        (b - a) as u8
    }
}

/// One decryption round: `((b + add) ror rot) ^ xor`.
pub open spec fn spec_decrypt_round(b: u8, rd: ARXRound) -> u8 {
    spec_ror8(spec_wadd8(b, rd.add), rd.rot) ^ rd.xor
}

/// One encryption round, the inverse: `((b ^ xor) rol rot) - add`.
pub open spec fn spec_encrypt_round(b: u8, rd: ARXRound) -> u8 {
    spec_wsub8(spec_rol8(b ^ rd.xor, rd.rot), rd.add)
}

/// Decrypt a byte under a whole key: rounds applied first to last.
pub open spec fn spec_decrypt_byte(b: u8, rounds: Seq<ARXRound>) -> u8
    decreases rounds.len(),
{
    if rounds.len() == 0 {
        b
    } else {
        spec_decrypt_byte(spec_decrypt_round(b, rounds[0]), rounds.skip(1))
    }
}

/// Encrypt a byte under a whole key: inverted rounds, last to first.
pub open spec fn spec_encrypt_byte(b: u8, rounds: Seq<ARXRound>) -> u8
    decreases rounds.len(),
{
    if rounds.len() == 0 {
        b
    } else {
        spec_encrypt_round(spec_encrypt_byte(b, rounds.skip(1)), rounds[0])
    }
}

/// A single encryption round undoes a single decryption round and the
/// other way around, for every byte and well-formed round.
pub proof fn lemma_round_inverse(b: u8, rd: ARXRound)
    requires
        round_valid(rd),
    ensures
        spec_encrypt_round(spec_decrypt_round(b, rd), rd) == b,
        spec_decrypt_round(spec_encrypt_round(b, rd), rd) == b,
{
    let a = rd.add;
    let r = rd.rot;
    let x = rd.xor;
    assert(spec_wsub8(spec_rol8((spec_ror8(spec_wadd8(b, a), r) ^ x) ^ x, r), a) == b
        && spec_ror8(spec_wadd8(spec_wsub8(spec_rol8(b ^ x, r), a), a), r) ^ x == b)
        by (bit_vector)
        requires
            r < 8,
    ;
}

/// Encrypting a decrypted byte gives the byte back, and the other way
/// around, for every key whose rounds are well formed.
pub proof fn lemma_byte_roundtrip(b: u8, rounds: Seq<ARXRound>)
    requires
        forall|i: int| 0 <= i < rounds.len() ==> round_valid(#[trigger] rounds[i]),
    ensures
        spec_encrypt_byte(spec_decrypt_byte(b, rounds), rounds) == b,
        spec_decrypt_byte(spec_encrypt_byte(b, rounds), rounds) == b,
    decreases rounds.len(),
{
    if rounds.len() > 0 {
        assert(forall|i: int|
            0 <= i < rounds.skip(1).len() ==> round_valid(#[trigger] rounds.skip(1)[i]));
        lemma_round_inverse(b, rounds[0]);
        lemma_byte_roundtrip(spec_decrypt_round(b, rounds[0]), rounds.skip(1));
        lemma_byte_roundtrip(b, rounds.skip(1));
        lemma_round_inverse(spec_encrypt_byte(b, rounds.skip(1)), rounds[0]);
    }
}

/// Rotate a byte right, executable form.
pub fn ror8(b: u8, r: u8) -> (out: u8)
    requires
        r < 8,
    ensures
        out == spec_ror8(b, r),
{
    if r == 0 {
        b
    } else {
        (b >> r) | (b << (8 - r))
    }
}

/// Rotate a byte left, executable form.
pub fn rol8(b: u8, r: u8) -> (out: u8)
    requires
        r < 8,
    ensures
        out == spec_rol8(b, r),
{
    if r == 0 {
        b
    } else {
        (b << r) | (b >> (8 - r))
    }
}

/// An ARX key: an ordered list of rounds.
pub struct ARXKey {
    pub rounds: StackVec<ARXRound, MAX_ROUNDS>,
}

/// A key is well formed when every round is.
pub open spec fn key_valid(rounds: Seq<ARXRound>) -> bool {
    forall|i: int| 0 <= i < rounds.len() ==> round_valid(#[trigger] rounds[i])
}

impl ARXKey {
    /// The rounds as a sequence.
    pub open spec fn view(&self) -> Seq<ARXRound> {
        self.rounds.view()
    }

    pub fn new() -> (r: Self)
        ensures
            r@ == Seq::<ARXRound>::empty(),
    {
        ARXKey { rounds: StackVec::new() }
    }
}

/// Decrypt one byte under `key`, applying the rounds first to last.
pub fn decrypt_byte(b: u8, key: &ARXKey) -> (out: u8)
    requires
        key_valid(key@),
    ensures
        out == spec_decrypt_byte(b, key@),
{
    let mut byte: u8 = b;
    let n: usize = key.rounds.len();
    let mut i: usize = 0;
    proof {
        assert(key@.skip(0) =~= key@);
    }
    while i < n
        invariant
            key_valid(key@),
            n == key@.len(),
            i <= n,
            spec_decrypt_byte(byte, key@.skip(i as int)) == spec_decrypt_byte(b, key@),
        decreases n - i,
    {
        let rd = *key.rounds.get(i);
        proof {
            assert(key@.skip(i as int)[0] == key@[i as int]);
            assert(key@.skip(i as int).skip(1) =~= key@.skip(i + 1));
        }
        let ghost prev = byte;
        byte = ror8(byte.wrapping_add(rd.add), rd.rot) ^ rd.xor;
        proof {
            assert(byte == spec_decrypt_round(prev, rd));
        }
        i = i + 1;
    }
    proof {
        assert(key@.skip(n as int) =~= Seq::<ARXRound>::empty());
    }
    byte
}

/// What one output byte is: decryption applies the rounds forward,
/// encryption applies the inverted rounds backward.
pub open spec fn spec_output_byte(decrypt: bool, b: u8, rounds: Seq<ARXRound>) -> u8 {
    if decrypt {
        spec_decrypt_byte(b, rounds)
    } else {
        spec_encrypt_byte(b, rounds)
    }
}

/// The whole output of a cipher run over interleaved messages: every
/// unit of every message, transformed under the key.
pub open spec fn spec_output_messages(
    decrypt: bool,
    msgs: Seq<Seq<u8>>,
    rounds: Seq<ARXRound>,
) -> Seq<Seq<u8>> {
    msgs.map_values(|msg: Seq<u8>| msg.map_values(|b: u8| spec_output_byte(decrypt, b, rounds)))
}

/// Encrypt one byte under `key`, applying the inverted rounds last to
/// first.
pub fn encrypt_byte(b: u8, key: &ARXKey) -> (out: u8)
    requires
        key_valid(key@),
    ensures
        out == spec_encrypt_byte(b, key@),
{
    let mut byte: u8 = b;
    let mut i: usize = key.rounds.len();
    proof {
        assert(key@.skip(i as int) =~= Seq::<ARXRound>::empty());
    }
    while i > 0
        invariant
            key_valid(key@),
            i <= key@.len(),
            spec_encrypt_byte(b, key@.skip(i as int)) == byte,
        decreases i,
    {
        i = i - 1;
        let rd = *key.rounds.get(i);
        proof {
            assert(key@.skip(i as int)[0] == key@[i as int]);
            assert(key@.skip(i as int).skip(1) =~= key@.skip(i + 1));
        }
        byte = rol8(byte ^ rd.xor, rd.rot).wrapping_sub(rd.add);
        proof {
            assert(byte == spec_encrypt_round(spec_encrypt_byte(b, key@.skip(i + 1)), rd));
        }
    }
    proof {
        assert(key@.skip(0) =~= key@);
    }
    byte
}

/// A transient pairing of one key with the input messages, exposing the
/// cipher's output per cell. The direction is a compile-time choice so
/// both variants monomorphize without a branch in the hot loop.
pub struct ARXCodecContext<'codec, const DECRYPT: bool> {
    pub key: &'codec ARXKey,
    pub input_messages: &'codec InterleavedMessageData,
}

impl<'codec, const DECRYPT: bool> ARXCodecContext<'codec, DECRYPT> {
    pub open spec fn spec_key(&self) -> Seq<ARXRound> {
        self.key@
    }

    pub open spec fn spec_input(&self) -> &InterleavedMessageData {
        self.input_messages
    }

    /// The context is usable: messages well shaped, key rounds valid.
    pub open spec fn wf(&self) -> bool {
        &&& self.input_messages.wf()
        &&& key_valid(self.key@)
    }

    /// What the whole output is under this context.
    pub open spec fn spec_output(&self) -> Seq<Seq<u8>> {
        spec_output_messages(DECRYPT, self.input_messages@, self.key@)
    }

    pub fn new(input_messages: &'codec InterleavedMessageData, key: &'codec ARXKey) -> (r: Self)
        ensures
            r.spec_key() == key@,
            r.spec_input() == input_messages,
    {
        ARXCodecContext { input_messages, key }
    }

    pub fn get_input_messages(&self) -> (r: &InterleavedMessageData)
        ensures
            r == self.spec_input(),
    {
        self.input_messages
    }

    /// One output unit. Bounds are demanded, not re-checked, as the
    /// specialized getter of the hot loop.
    pub fn get_output(&self, message_index: usize, unit_index: usize) -> (r: u8)
        requires
            self.wf(),
            message_index < self.spec_input()@.len(),
            unit_index < self.spec_input()@[message_index as int].len(),
        ensures
            r == self.spec_output()[message_index as int][unit_index as int],
    {
        let b = self.input_messages.get_unit(message_index, unit_index);
        if DECRYPT {
            decrypt_byte(b, self.key)
        } else {
            encrypt_byte(b, self.key)
        }
    }

    /// One whole output message.
    pub fn get_output_message(&self, message_index: usize) -> (r: MessageData)
        requires
            self.wf(),
            message_index < self.spec_input()@.len(),
        ensures
            unit_buf(r) == self.spec_output()[message_index as int],
    {
        let unit_count = self.input_messages.get_unit_count(message_index);
        let mut data = UnitBuf::new();
        let mut u: usize = 0;
        while u < unit_count
            invariant
                self.wf(),
                message_index < self.spec_input()@.len(),
                unit_count == self.spec_input()@[message_index as int].len(),
                u <= unit_count,
                unit_buf(data) == self.spec_output()[message_index as int].take(u as int),
            decreases unit_count - u,
        {
            let b = self.get_output(message_index, u);
            data.push(b);
            proof {
                assert(self.spec_output()[message_index as int].take(u + 1)
                    =~= self.spec_output()[message_index as int].take(u as int).push(b));
            }
            u = u + 1;
        }
        proof {
            assert(self.spec_output()[message_index as int].take(unit_count as int)
                =~= self.spec_output()[message_index as int]);
        }
        data
    }

    /// The whole output, one data buffer per message.
    pub fn get_output_messages(&self) -> (r: MessageDataList)
        requires
            self.wf(),
        ensures
            data_list_view(r@) == self.spec_output(),
    {
        let mut messages: MessageDataList = Vec::new();
        let message_count = self.input_messages.get_message_count();
        let mut m: usize = 0;
        while m < message_count
            invariant
                self.wf(),
                message_count == self.spec_input()@.len(),
                m <= message_count,
                messages@.len() == m,
                data_list_view(messages@) == self.spec_output().take(m as int),
            decreases message_count - m,
        {
            let data = self.get_output_message(m);
            let ghost prev_view = messages@;
            let ghost data_snap = data;
            messages.push(data);
            proof {
                assert(messages@ == prev_view.push(data_snap));
                assert forall|i: int| 0 <= i < m + 1 implies data_list_view(messages@)[i]
                    == self.spec_output().take(m + 1)[i] by {
                    if i < m {
                        assert(data_list_view(prev_view)[i] == self.spec_output().take(
                            m as int,
                        )[i]);
                        assert(messages@[i] == prev_view[i]);
                    } else {
                        assert(messages@[i] == data_snap);
                    }
                }
                assert(data_list_view(messages@) =~= self.spec_output().take(m + 1));
            }
            m = m + 1;
        }
        proof {
            assert(self.spec_output().take(message_count as int) =~~= self.spec_output());
        }
        messages
    }
}


/// Encrypting a decrypted message list gives the messages back, and
/// the other way around: unit by unit, for every well-formed key.
pub proof fn lemma_messages_roundtrip(msgs: Seq<Seq<u8>>, rounds: Seq<ARXRound>)
    requires
        key_valid(rounds),
    ensures
        spec_output_messages(false, spec_output_messages(true, msgs, rounds), rounds) == msgs,
        spec_output_messages(true, spec_output_messages(false, msgs, rounds), rounds) == msgs,
{
    assert forall|m: int|
        0 <= m < msgs.len() implies #[trigger] spec_output_messages(
        false,
        spec_output_messages(true, msgs, rounds),
        rounds,
    )[m] =~= msgs[m] by {
        assert forall|u: int|
            0 <= u < msgs[m].len() implies #[trigger] spec_output_messages(
            false,
            spec_output_messages(true, msgs, rounds),
            rounds,
        )[m][u] == msgs[m][u] by {
            lemma_byte_roundtrip(msgs[m][u], rounds);
        }
    }
    assert(spec_output_messages(false, spec_output_messages(true, msgs, rounds), rounds)
        =~~= msgs);
    assert forall|m: int|
        0 <= m < msgs.len() implies #[trigger] spec_output_messages(
        true,
        spec_output_messages(false, msgs, rounds),
        rounds,
    )[m] =~= msgs[m] by {
        assert forall|u: int|
            0 <= u < msgs[m].len() implies #[trigger] spec_output_messages(
            true,
            spec_output_messages(false, msgs, rounds),
            rounds,
        )[m][u] == msgs[m][u] by {
            lemma_byte_roundtrip(msgs[m][u], rounds);
        }
    }
    assert(spec_output_messages(true, spec_output_messages(false, msgs, rounds), rounds)
        =~~= msgs);
}

} // verus!
