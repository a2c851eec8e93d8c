//! The key-dump format and the ARX key codec. A dump starts with one
//! length-framed header record carrying the build hash, the cipher
//! name and its configuration, followed by the matched keys in the
//! cipher's self-delimited encoding, concatenated with no separator. An
//! ARX key encodes as a varint round count and then, per round, varints
//! for `add`, `rot` and `xor`.

use crate::arx::{key_valid, round_valid, ARXKey, ARXRound, MAX_ROUNDS};
use crate::wire::{
    decode_varint,
    encode_varint,
    lemma_varint_decode_sound,
    lemma_varint_roundtrip,
    spec_varint,
    spec_varint_decode,
};
use vstd::prelude::*;
use vstd::utf8::encode_utf8;

verus! {

/// Why a byte buffer failed to decode.
#[derive(Clone, Copy, PartialEq, Eq, Structural, Debug)]
pub enum KeyDecodeError {
    /// The bytes are not one whole canonical key encoding.
    Malformed,
}

/// The bytes of one round: `add`, `rot`, `xor` as varints.
pub open spec fn spec_round_encoding(rd: ARXRound) -> Seq<u8> {
    spec_varint(rd.add as u64) + spec_varint(rd.rot as u64) + spec_varint(rd.xor as u64)
}

/// The bytes of a round list, in order.
pub open spec fn spec_rounds_encoding(rs: Seq<ARXRound>) -> Seq<u8>
    decreases rs.len(),
{
    if rs.len() == 0 {
        Seq::empty()
    } else {
        spec_round_encoding(rs[0]) + spec_rounds_encoding(rs.skip(1))
    }
}

/// The self-delimited bytes of a whole key: round count, then rounds.
pub open spec fn spec_key_encoding(rs: Seq<ARXRound>) -> Seq<u8> {
    spec_varint(rs.len() as u64) + spec_rounds_encoding(rs)
}

/// Reading one byte-sized varint: fails when the value is no byte.
pub open spec fn spec_byte_field_decode(bytes: Seq<u8>, pos: int) -> Option<(u8, int)> {
    match spec_varint_decode(bytes, pos) {
        None => None,
        Some((v, p)) => if v <= 255 {
            Some((v as u8, p))
        } else {
            None
        },
    }
}

/// Reading the rotation field: a byte-sized varint that must be a bit
/// position, 0 through 7. A larger value is no rotation and fails.
pub open spec fn spec_rot_field_decode(bytes: Seq<u8>, pos: int) -> Option<(u8, int)> {
    match spec_byte_field_decode(bytes, pos) {
        None => None,
        Some((v, p)) => if v < 8 {
            Some((v, p))
        } else {
            None
        },
    }
}

/// Reading `n` rounds at `pos`.
pub open spec fn spec_rounds_decode(bytes: Seq<u8>, pos: int, n: nat) -> Option<
    (Seq<ARXRound>, int),
>
    decreases n,
{
    if n == 0 {
        Some((Seq::empty(), pos))
    } else {
        match spec_byte_field_decode(bytes, pos) {
            None => None,
            Some((add, p1)) => match spec_rot_field_decode(bytes, p1) {
                None => None,
                Some((rot, p2)) => match spec_byte_field_decode(bytes, p2) {
                    None => None,
                    Some((xor, p3)) => match spec_rounds_decode(bytes, p3, (n - 1) as nat) {
                        None => None,
                        Some((tail, p4)) => Some(
                            (seq![ARXRound { add, rot, xor }] + tail, p4),
                        ),
                    },
                },
            },
        }
    }
}

/// Reading one whole key at `pos`: the rounds and the position after
/// them, or nothing when no key encoding of at most `MAX_ROUNDS`
/// rounds starts there.
pub open spec fn spec_key_decode(bytes: Seq<u8>, pos: int) -> Option<(Seq<ARXRound>, int)> {
    match spec_varint_decode(bytes, pos) {
        None => None,
        Some((n, p1)) => if n > 8 {
            None
        } else {
            spec_rounds_decode(bytes, p1, n as nat)
        },
    }
}

/// A round list's encoding grows round by round at the end.
pub proof fn lemma_rounds_encoding_push(rs: Seq<ARXRound>, rd: ARXRound)
    ensures
        spec_rounds_encoding(rs.push(rd)) == spec_rounds_encoding(rs) + spec_round_encoding(rd),
    decreases rs.len(),
{
    if rs.len() == 0 {
        assert(rs.push(rd).len() == 1);
        assert(rs.push(rd)[0] == rd);
        assert(rs.push(rd).skip(1) =~= Seq::<ARXRound>::empty());
        assert(spec_rounds_encoding(rs.push(rd)) == spec_round_encoding(rd)
            + spec_rounds_encoding(Seq::<ARXRound>::empty()));
        assert(spec_rounds_encoding(rs.push(rd)) =~= spec_rounds_encoding(rs)
            + spec_round_encoding(rd));
    } else {
        assert(rs.push(rd)[0] == rs[0]);
        assert(rs.push(rd).skip(1) =~= rs.skip(1).push(rd));
        lemma_rounds_encoding_push(rs.skip(1), rd);
        assert(spec_rounds_encoding(rs.push(rd)) == spec_round_encoding(rs[0]) + (
        spec_rounds_encoding(rs.skip(1)) + spec_round_encoding(rd)));
        assert(spec_rounds_encoding(rs.push(rd)) =~= spec_rounds_encoding(rs)
            + spec_round_encoding(rd));
    }
}

/// Wherever a byte's varint form sits, the byte field reader gives it
/// back.
proof fn lemma_byte_field_roundtrip(bytes: Seq<u8>, pos: int, x: u8)
    requires
        0 <= pos,
        pos + spec_varint(x as u64).len() <= bytes.len(),
        bytes.subrange(pos, pos + spec_varint(x as u64).len()) == spec_varint(x as u64),
    ensures
        spec_byte_field_decode(bytes, pos) == Some((x, pos + spec_varint(x as u64).len())),
{
    lemma_varint_roundtrip(bytes, pos, x as u64);
}

/// Wherever a bit position's varint form sits, the rotation reader
/// gives it back.
proof fn lemma_rot_field_roundtrip(bytes: Seq<u8>, pos: int, x: u8)
    requires
        x < 8,
        0 <= pos,
        pos + spec_varint(x as u64).len() <= bytes.len(),
        bytes.subrange(pos, pos + spec_varint(x as u64).len()) == spec_varint(x as u64),
    ensures
        spec_rot_field_decode(bytes, pos) == Some((x, pos + spec_varint(x as u64).len())),
{
    lemma_byte_field_roundtrip(bytes, pos, x);
}

/// Wherever a valid round list's encoding sits, reading that many
/// rounds gives the list back.
proof fn lemma_rounds_roundtrip(bytes: Seq<u8>, pos: int, rs: Seq<ARXRound>)
    requires
        key_valid(rs),
        0 <= pos,
        pos + spec_rounds_encoding(rs).len() <= bytes.len(),
        bytes.subrange(pos, pos + spec_rounds_encoding(rs).len()) == spec_rounds_encoding(rs),
    ensures
        spec_rounds_decode(bytes, pos, rs.len()) == Some(
            (rs, pos + spec_rounds_encoding(rs).len()),
        ),
    decreases rs.len(),
{
    let enc = spec_rounds_encoding(rs);
    if rs.len() == 0 {
        assert(spec_rounds_decode(bytes, pos, 0) == Some((Seq::<ARXRound>::empty(), pos)));
        assert(rs =~= Seq::<ARXRound>::empty());
    } else {
        let rd = rs[0];
        let ea = spec_varint(rd.add as u64);
        let er = spec_varint(rd.rot as u64);
        let ex = spec_varint(rd.xor as u64);
        let tail_enc = spec_rounds_encoding(rs.skip(1));
        assert(enc == ((ea + er) + ex) + tail_enc);
        assert(forall|j: int| 0 <= j < enc.len() ==> bytes[pos + j] == #[trigger] enc[j]) by {
            assert(forall|j: int|
                0 <= j < enc.len() ==> #[trigger] bytes.subrange(pos, pos + enc.len() as int)[j]
                    == bytes[pos + j]);
        }
        let p1 = pos + ea.len();
        let p2 = p1 + er.len();
        let p3 = p2 + ex.len();
        assert forall|j: int| 0 <= j < ea.len() implies bytes[pos + j] == ea[j] by {
            assert((((ea + er) + ex) + tail_enc)[j] == ea[j]);
        }
        assert forall|j: int| 0 <= j < er.len() implies bytes[p1 + j] == er[j] by {
            assert((((ea + er) + ex) + tail_enc)[ea.len() + j] == er[j]);
        }
        assert forall|j: int| 0 <= j < ex.len() implies bytes[p2 + j] == ex[j] by {
            assert((((ea + er) + ex) + tail_enc)[ea.len() + er.len() + j] == ex[j]);
        }
        assert forall|j: int| 0 <= j < tail_enc.len() implies bytes[p3 + j] == tail_enc[j] by {
            assert((((ea + er) + ex) + tail_enc)[ea.len() + er.len() + ex.len() + j]
                == tail_enc[j]);
        }
        assert(bytes.subrange(pos, p1 as int) =~= ea);
        assert(bytes.subrange(p1 as int, p2 as int) =~= er);
        assert(bytes.subrange(p2 as int, p3 as int) =~= ex);
        assert(bytes.subrange(p3 as int, p3 + tail_enc.len() as int) =~= tail_enc);
        lemma_byte_field_roundtrip(bytes, pos, rd.add);
        assert(round_valid(rs[0]));
        lemma_rot_field_roundtrip(bytes, p1, rd.rot);
        lemma_byte_field_roundtrip(bytes, p2, rd.xor);
        assert(key_valid(rs.skip(1))) by {
            assert(forall|i: int|
                0 <= i < rs.skip(1).len() ==> #[trigger] rs.skip(1)[i] == rs[i + 1]);
        }
        lemma_rounds_roundtrip(bytes, p3, rs.skip(1));
        assert(seq![rd] + rs.skip(1) =~= rs);
    }
}

/// Wherever a valid key's encoding sits, reading a key there gives the
/// key back and stops right after it: encode then decode is the
/// identity.
pub proof fn lemma_key_roundtrip(bytes: Seq<u8>, pos: int, rs: Seq<ARXRound>)
    requires
        key_valid(rs),
        0 <= pos,
        rs.len() <= 8,
        pos + spec_key_encoding(rs).len() <= bytes.len(),
        bytes.subrange(pos, pos + spec_key_encoding(rs).len()) == spec_key_encoding(rs),
    ensures
        spec_key_decode(bytes, pos) == Some((rs, pos + spec_key_encoding(rs).len())),
{
    let enc = spec_key_encoding(rs);
    let en = spec_varint(rs.len() as u64);
    let erest = spec_rounds_encoding(rs);
    assert(forall|j: int| 0 <= j < enc.len() ==> bytes[pos + j] == #[trigger] enc[j]) by {
        assert(forall|j: int|
            0 <= j < enc.len() ==> #[trigger] bytes.subrange(pos, pos + enc.len() as int)[j]
                == bytes[pos + j]);
    }
    assert(enc == en + erest);
    assert forall|j: int| 0 <= j < en.len() implies bytes[pos + j] == en[j] by {
        assert((en + erest)[j] == en[j]);
    }
    assert(bytes.subrange(pos, pos + en.len() as int) =~= en);
    lemma_varint_roundtrip(bytes, pos, rs.len() as u64);
    let p1 = pos + en.len();
    assert forall|j: int| 0 <= j < erest.len() implies bytes[p1 + j] == erest[j] by {
        assert((en + erest)[en.len() + j] == erest[j]);
    }
    assert(bytes.subrange(p1 as int, p1 + erest.len() as int) =~= erest);
    lemma_rounds_roundtrip(bytes, p1, rs);
}

impl ARXKey {
    /// The key as its self-delimited byte form.
    pub fn encode_to_buffer(&self) -> (r: Vec<u8>)
        ensures
            r@ == spec_key_encoding(self@),
    {
        let mut out: Vec<u8> = Vec::new();
        let n = self.rounds.len();
        encode_varint(&mut out, n as u64);
        let mut i: usize = 0;
        while i < n
            invariant
                n == self@.len(),
                i <= n,
                out@ == spec_varint(n as u64) + spec_rounds_encoding(self@.take(i as int)),
            decreases n - i,
        {
            let rd = *self.rounds.get(i);
            encode_varint(&mut out, rd.add as u64);
            encode_varint(&mut out, rd.rot as u64);
            encode_varint(&mut out, rd.xor as u64);
            proof {
                lemma_rounds_encoding_push(self@.take(i as int), rd);
                assert(self@.take(i + 1) =~= self@.take(i as int).push(rd));
                assert(out@ =~= spec_varint(n as u64) + spec_rounds_encoding(self@.take(i + 1)));
            }
            i = i + 1;
        }
        proof {
            assert(self@.take(n as int) =~= self@);
        }
        out
    }

    /// Decode one whole buffer as a key. Succeeds exactly when the
    /// buffer is one canonical key encoding, nothing more; a round
    /// whose rotation is no bit position is no key.
    pub fn from_buffer(buffer: &Vec<u8>) -> (r: Result<ARXKey, KeyDecodeError>)
        ensures
            match r {
                Ok(k) => spec_key_decode(buffer@, 0) == Some((k@, buffer@.len() as int))
                    && key_valid(k@),
                Err(_) => match spec_key_decode(buffer@, 0) {
                    Some((rs, p)) => p != buffer@.len(),
                    None => true,
                },
            },
    {
        match decode_key_at(buffer, 0) {
            Some((k, p)) => {
                if p == buffer.len() {
                    Ok(k)
                } else {
                    Err(KeyDecodeError::Malformed)
                }
            },
            None => Err(KeyDecodeError::Malformed),
        }
    }
}

/// Read one byte-sized varint field.
fn decode_byte_field(bytes: &Vec<u8>, pos: usize) -> (r: Option<(u8, usize)>)
    ensures
        match r {
            Some((v, p)) => spec_byte_field_decode(bytes@, pos as int) == Some((v, p as int)),
            None => spec_byte_field_decode(bytes@, pos as int) is None,
        },
{
    match decode_varint(bytes, pos) {
        None => None,
        Some((v, p)) => {
            if v <= 255 {
                Some((v as u8, p))
            } else {
                None
            }
        },
    }
}

/// Read one self-delimited key at `pos`.
pub fn decode_key_at(bytes: &Vec<u8>, pos: usize) -> (r: Option<(ARXKey, usize)>)
    ensures
        match r {
            Some((k, p)) => spec_key_decode(bytes@, pos as int) == Some((k@, p as int)) && pos < p
                <= bytes@.len() && key_valid(k@),
            None => spec_key_decode(bytes@, pos as int) is None,
        },
{
    let (n, p1) = match decode_varint(bytes, pos) {
        None => {
            return None;
        },
        Some(x) => x,
    };
    proof {
        lemma_varint_decode_sound(bytes@, pos as int);
    }
    if n > 8 {
        return None;
    }
    let mut key = ARXKey::new();
    let mut pos2 = p1;
    let mut left: u64 = n;
    proof {
        assert forall|t: Seq<ARXRound>| true implies Seq::<ARXRound>::empty() + t == t by {
            assert(Seq::<ARXRound>::empty() + t =~= t);
        }
    }
    loop
        invariant
            spec_varint_decode(bytes@, pos as int) == Some((n, p1 as int)),
            n <= 8,
            left <= n,
            key@.len() == n - left,
            key_valid(key@),
            pos < p1 <= pos2 <= bytes@.len(),
            spec_rounds_decode(bytes@, p1 as int, n as nat) == match spec_rounds_decode(
                bytes@,
                pos2 as int,
                left as nat,
            ) {
                None => None::<(Seq<ARXRound>, int)>,
                Some((tail, p)) => Some((key@ + tail, p)),
            },
        decreases left,
    {
        if left == 0 {
            proof {
                assert(key@ + Seq::<ARXRound>::empty() =~= key@);
            }
            return Some((key, pos2));
        }
        let (add, q1) = match decode_byte_field(bytes, pos2) {
            None => {
                return None;
            },
            Some(x) => x,
        };
        let (rot, q2) = match decode_byte_field(bytes, q1) {
            None => {
                return None;
            },
            Some(x) => x,
        };
        if rot >= 8 {
            return None;
        }
        let (xor, q3) = match decode_byte_field(bytes, q2) {
            None => {
                return None;
            },
            Some(x) => x,
        };
        proof {
            lemma_byte_field_bounds(bytes@, pos2 as int);
            lemma_byte_field_bounds(bytes@, q1 as int);
            lemma_byte_field_bounds(bytes@, q2 as int);
        }
        let ghost prev = key@;
        key.rounds.push(ARXRound { add, rot, xor });
        proof {
            assert(key@ == prev.push(ARXRound { add, rot, xor }));
            assert(key_valid(key@)) by {
                assert(forall|i: int| 0 <= i < prev.len() ==> #[trigger] key@[i] == prev[i]);
                assert(key@[prev.len() as int] == ARXRound { add, rot, xor });
            }
            assert forall|tail: Seq<ARXRound>|
                true implies prev + (seq![ARXRound { add, rot, xor }] + tail) == key@ + tail by {
                assert(prev + (seq![ARXRound { add, rot, xor }] + tail) =~= key@ + tail);
            }
        }
        pos2 = q3;
        left = left - 1;
    }
}

/// A successful byte-field read lands inside the buffer.
proof fn lemma_byte_field_bounds(bytes: Seq<u8>, pos: int)
    requires
        spec_byte_field_decode(bytes, pos) is Some,
    ensures
        ({
            let (v, p) = spec_byte_field_decode(bytes, pos).unwrap();
            0 <= pos < p <= bytes.len()
        }),
{
    lemma_varint_decode_sound(bytes, pos);
}

/// The dump header: what search produced the matched keys that follow.
pub struct KeyDumpMeta {
    pub build_hash: String,
    pub cipher_name: String,
    pub cipher_config: Option<String>,
}

/// The header's message bytes: each field as a tag, a length and the
/// string's bytes; a missing configuration is simply absent.
pub open spec fn spec_meta_body(bh: Seq<u8>, cn: Seq<u8>, cc: Option<Seq<u8>>) -> Seq<u8> {
    seq![10u8] + spec_varint(bh.len() as u64) + bh + seq![18u8] + spec_varint(cn.len() as u64) + cn
        + (match cc {
        Some(c) => seq![26u8] + spec_varint(c.len() as u64) + c,
        None => Seq::<u8>::empty(),
    })
}

/// The whole header record: the message bytes behind their length.
pub open spec fn spec_meta_encoding(bh: Seq<u8>, cn: Seq<u8>, cc: Option<Seq<u8>>) -> Seq<u8> {
    spec_varint(spec_meta_body(bh, cn, cc).len() as u64) + spec_meta_body(bh, cn, cc)
}

impl KeyDumpMeta {
    /// The strings' byte forms, the shape the header is stated over.
    pub open spec fn spec_fields(&self) -> (Seq<u8>, Seq<u8>, Option<Seq<u8>>) {
        (
            encode_utf8(self.build_hash@),
            encode_utf8(self.cipher_name@),
            match self.cipher_config {
                Some(ref c) => Some(encode_utf8(c@)),
                None => None,
            },
        )
    }

    /// The header record's bytes.
    pub fn encode(&self) -> (r: Vec<u8>)
        ensures
            ({
                let (bh, cn, cc) = self.spec_fields();
                r@ == spec_meta_encoding(bh, cn, cc)
            }),
    {
        let ghost bh = encode_utf8(self.build_hash@);
        let ghost cn = encode_utf8(self.cipher_name@);
        let ghost part1 = seq![10u8] + spec_varint(bh.len() as u64) + bh;
        let ghost part2 = seq![18u8] + spec_varint(cn.len() as u64) + cn;
        let mut body: Vec<u8> = Vec::new();
        body.push(10);
        let bh_bytes = self.build_hash.as_str().as_bytes();
        encode_varint(&mut body, bh_bytes.len() as u64);
        body.extend_from_slice(bh_bytes);
        proof {
            assert(body@ =~= part1);
        }
        let ghost snap1 = body@;
        body.push(18);
        let cn_bytes = self.cipher_name.as_str().as_bytes();
        encode_varint(&mut body, cn_bytes.len() as u64);
        body.extend_from_slice(cn_bytes);
        proof {
            assert(body@ =~= snap1 + part2);
        }
        let ghost snap2 = body@;
        match &self.cipher_config {
            Some(c) => {
                body.push(26);
                let cc_bytes = c.as_str().as_bytes();
                encode_varint(&mut body, cc_bytes.len() as u64);
                body.extend_from_slice(cc_bytes);
                proof {
                    let cb = encode_utf8(c@);
                    assert(body@ =~= snap2 + (seq![26u8] + spec_varint(cb.len() as u64) + cb));
                }
            },
            None => {},
        }
        proof {
            let (bh2, cn2, cc) = self.spec_fields();
            let part3 = match cc {
                Some(c) => seq![26u8] + spec_varint(c.len() as u64) + c,
                None => Seq::<u8>::empty(),
            };
            assert(spec_meta_body(bh2, cn2, cc) == part1 + part2 + part3);
            assert(body@ =~= part1 + part2 + part3);
        }
        let mut out: Vec<u8> = Vec::new();
        encode_varint(&mut out, body.len() as u64);
        let mut body = body;
        out.append(&mut body);
        proof {
            let (bh, cn, cc) = self.spec_fields();
            assert(out@ =~= spec_meta_encoding(bh, cn, cc));
        }
        out
    }
}


/// A successful byte-field read consumed exactly the byte's varint
/// form.
proof fn lemma_byte_field_decode_sound(bytes: Seq<u8>, pos: int)
    requires
        spec_byte_field_decode(bytes, pos) is Some,
    ensures
        ({
            let (v, p) = spec_byte_field_decode(bytes, pos).unwrap();
            &&& 0 <= pos < p <= bytes.len()
            &&& p == pos + spec_varint(v as u64).len()
            &&& bytes.subrange(pos, p) == spec_varint(v as u64)
        }),
{
    lemma_varint_decode_sound(bytes, pos);
}

/// A successful rounds read consumed exactly the rounds' encoding,
/// and every round it read is valid.
proof fn lemma_rounds_decode_sound(bytes: Seq<u8>, pos: int, n: nat)
    requires
        0 <= pos <= bytes.len(),
        spec_rounds_decode(bytes, pos, n) is Some,
    ensures
        ({
            let (rs, p) = spec_rounds_decode(bytes, pos, n).unwrap();
            &&& rs.len() == n
            &&& key_valid(rs)
            &&& 0 <= pos <= p <= bytes.len()
            &&& p == pos + spec_rounds_encoding(rs).len()
            &&& bytes.subrange(pos, p) == spec_rounds_encoding(rs)
        }),
    decreases n,
{
    if n == 0 {
        let (rs, p) = spec_rounds_decode(bytes, pos, n).unwrap();
        assert(bytes.subrange(pos, pos) =~= spec_rounds_encoding(rs));
    } else {
        let (add, p1) = spec_byte_field_decode(bytes, pos).unwrap();
        let (rot, p2) = spec_rot_field_decode(bytes, p1).unwrap();
        let (xor, p3) = spec_byte_field_decode(bytes, p2).unwrap();
        let (tail, p4) = spec_rounds_decode(bytes, p3, (n - 1) as nat).unwrap();
        lemma_byte_field_decode_sound(bytes, pos);
        lemma_byte_field_decode_sound(bytes, p1);
        lemma_byte_field_decode_sound(bytes, p2);
        lemma_rounds_decode_sound(bytes, p3, (n - 1) as nat);
        let rs = seq![ARXRound { add, rot, xor }] + tail;
        assert(rs[0] == ARXRound { add, rot, xor });
        assert(rs.skip(1) =~= tail);
        assert(key_valid(rs)) by {
            assert(forall|i: int| 1 <= i < rs.len() ==> #[trigger] rs[i] == tail[i - 1]);
        }
        assert(spec_rounds_encoding(rs) == spec_round_encoding(rs[0]) + spec_rounds_encoding(
            tail,
        ));
        assert(bytes.subrange(pos, p4) =~= spec_rounds_encoding(rs));
    }
}

/// A successful key read consumed exactly the key's encoding: only a
/// valid key's own byte form reads back as that key.
pub proof fn lemma_key_decode_sound(bytes: Seq<u8>, pos: int)
    requires
        spec_key_decode(bytes, pos) is Some,
    ensures
        ({
            let (rs, p) = spec_key_decode(bytes, pos).unwrap();
            &&& rs.len() <= 8
            &&& key_valid(rs)
            &&& 0 <= pos < p <= bytes.len()
            &&& p == pos + spec_key_encoding(rs).len()
            &&& bytes.subrange(pos, p) == spec_key_encoding(rs)
        }),
{
    let (n, p1) = spec_varint_decode(bytes, pos).unwrap();
    lemma_varint_decode_sound(bytes, pos);
    lemma_rounds_decode_sound(bytes, p1, n as nat);
    let (rs, p) = spec_key_decode(bytes, pos).unwrap();
    assert(bytes.subrange(pos, p) =~= spec_key_encoding(rs));
}

/// The header as read back from a dump: the raw bytes of each string
/// field, exactly as they were written.
pub struct KeyDumpMetaRaw {
    pub build_hash: Vec<u8>,
    pub cipher_name: Vec<u8>,
    pub cipher_config: Option<Vec<u8>>,
}

/// Reading one length-framed byte field inside a window ending at
/// `end`.
pub open spec fn spec_bytes_field_decode(bytes: Seq<u8>, pos: int, end: int) -> Option<
    (Seq<u8>, int),
> {
    match spec_varint_decode(bytes, pos) {
        None => None,
        Some((l, p)) => if p + l <= end {
            Some((bytes.subrange(p, p + l), p + l))
        } else {
            None
        },
    }
}

/// Reading the header record at `pos`: the three field byte strings
/// and the position after the record.
pub open spec fn spec_meta_decode(bytes: Seq<u8>, pos: int) -> Option<
    ((Seq<u8>, Seq<u8>, Option<Seq<u8>>), int),
> {
    match spec_varint_decode(bytes, pos) {
        None => None,
        Some((blen, p1)) => {
            let end = p1 + blen;
            if end > bytes.len() || p1 >= end || bytes[p1] != 10 {
                None
            } else {
                match spec_bytes_field_decode(bytes, p1 + 1, end) {
                    None => None,
                    Some((bh, p2)) => if p2 >= end || bytes[p2] != 18 {
                        None
                    } else {
                        match spec_bytes_field_decode(bytes, p2 + 1, end) {
                            None => None,
                            Some((cn, p3)) => if p3 == end {
                                Some(((bh, cn, None), end))
                            } else if bytes[p3] != 26 {
                                None
                            } else {
                                match spec_bytes_field_decode(bytes, p3 + 1, end) {
                                    None => None,
                                    Some((cc, p4)) => if p4 == end {
                                        Some(((bh, cn, Some(cc)), end))
                                    } else {
                                        None
                                    },
                                }
                            },
                        }
                    },
                }
            }
        },
    }
}

/// The keys after the header: one self-delimited key after another,
/// to the very end of the dump.
pub open spec fn spec_dump_keys_decode(bytes: Seq<u8>, pos: int) -> Option<Seq<Seq<ARXRound>>>
    decreases bytes.len() - pos,
{
    if pos == bytes.len() {
        Some(Seq::empty())
    } else {
        match spec_key_decode(bytes, pos) {
            None => None,
            Some((rs, p)) => if !(pos < p <= bytes.len()) {
                None
            } else {
                match spec_dump_keys_decode(bytes, p) {
                    None => None,
                    Some(tail) => Some(seq![rs] + tail),
                }
            },
        }
    }
}

/// A whole dump: the header and every key it carries.
pub open spec fn spec_dump_decode(bytes: Seq<u8>) -> Option<
    ((Seq<u8>, Seq<u8>, Option<Seq<u8>>), Seq<Seq<ARXRound>>),
> {
    match spec_meta_decode(bytes, 0) {
        None => None,
        Some((fields, p)) => if 0 <= p <= bytes.len() {
            match spec_dump_keys_decode(bytes, p) {
                None => None,
                Some(keys) => Some((fields, keys)),
            }
        } else {
            None
        },
    }
}

/// The bytes of a subrange, copied out.
fn vec_subrange(v: &Vec<u8>, from: usize, to: usize) -> (r: Vec<u8>)
    requires
        from <= to <= v@.len(),
    ensures
        r@ == v@.subrange(from as int, to as int),
{
    let mut out: Vec<u8> = Vec::new();
    let mut i = from;
    while i < to
        invariant
            from <= i <= to <= v@.len(),
            out@ == v@.subrange(from as int, i as int),
        decreases to - i,
    {
        out.push(v[i]);
        proof {
            assert(v@.subrange(from as int, i + 1) =~= v@.subrange(from as int, i as int).push(
                v@[i as int],
            ));
        }
        i = i + 1;
    }
    out
}

/// Read one length-framed byte field inside a window ending at `end`.
fn decode_bytes_field(bytes: &Vec<u8>, pos: usize, end: usize) -> (r: Option<(Vec<u8>, usize)>)
    requires
        end <= bytes@.len(),
    ensures
        match r {
            Some((v, p)) => spec_bytes_field_decode(bytes@, pos as int, end as int) == Some(
                (v@, p as int),
            ) && p <= end,
            None => spec_bytes_field_decode(bytes@, pos as int, end as int) is None,
        },
{
    match decode_varint(bytes, pos) {
        None => None,
        Some((l, p)) => {
            proof {
                lemma_varint_decode_sound(bytes@, pos as int);
            }
            if p > end {
                return None;
            }
            if l <= (end - p) as u64 {
                let p2 = p + (l as usize);
                Some((vec_subrange(bytes, p, p2), p2))
            } else {
                None
            }
        },
    }
}

/// Read the header record at the start of a dump.
pub fn decode_meta_at(bytes: &Vec<u8>, pos: usize) -> (r: Option<(KeyDumpMetaRaw, usize)>)
    ensures
        match r {
            Some((m, p)) => spec_meta_decode(bytes@, pos as int) == Some(
                (
                    (
                        m.build_hash@,
                        m.cipher_name@,
                        match m.cipher_config {
                            Some(ref c) => Some(c@),
                            None => None,
                        },
                    ),
                    p as int,
                ),
            ) && p <= bytes@.len(),
            None => spec_meta_decode(bytes@, pos as int) is None,
        },
{
    let (blen, p1) = match decode_varint(bytes, pos) {
        None => {
            return None;
        },
        Some(x) => x,
    };
    proof {
        lemma_varint_decode_sound(bytes@, pos as int);
    }
    if blen > (bytes.len() - p1) as u64 {
        return None;
    }
    let end = p1 + (blen as usize);
    if p1 >= end || bytes[p1] != 10 {
        return None;
    }
    let (bh, p2) = match decode_bytes_field(bytes, p1 + 1, end) {
        None => {
            return None;
        },
        Some(x) => x,
    };
    if p2 >= end || bytes[p2] != 18 {
        return None;
    }
    let (cn, p3) = match decode_bytes_field(bytes, p2 + 1, end) {
        None => {
            return None;
        },
        Some(x) => x,
    };
    if p3 == end {
        return Some((KeyDumpMetaRaw { build_hash: bh, cipher_name: cn, cipher_config: None }, end));
    }
    if bytes[p3] != 26 {
        return None;
    }
    let (cc, p4) = match decode_bytes_field(bytes, p3 + 1, end) {
        None => {
            return None;
        },
        Some(x) => x,
    };
    if p4 == end {
        Some((KeyDumpMetaRaw { build_hash: bh, cipher_name: cn, cipher_config: Some(cc) }, end))
    } else {
        None
    }
}

/// Read a whole dump back: the header and every matched key, in the
/// order they were appended.
pub fn read_dump(bytes: &Vec<u8>) -> (r: Option<(KeyDumpMetaRaw, Vec<ARXKey>)>)
    ensures
        match r {
            Some((m, keys)) => spec_dump_decode(bytes@) == Some(
                (
                    (
                        m.build_hash@,
                        m.cipher_name@,
                        match m.cipher_config {
                            Some(ref c) => Some(c@),
                            None => None,
                        },
                    ),
                    keys@.map_values(|k: ARXKey| k@),
                ),
            ),
            None => spec_dump_decode(bytes@) is None,
        },
{
    let (meta, mut pos) = match decode_meta_at(bytes, 0) {
        None => {
            return None;
        },
        Some(x) => x,
    };
    let mut keys: Vec<ARXKey> = Vec::new();
    loop
        invariant
            pos <= bytes@.len(),
            spec_meta_decode(bytes@, 0) matches Some((fields, p)) ==> spec_dump_decode(bytes@)
                == (match spec_dump_keys_decode(bytes@, pos as int) {
                None => None::<((Seq<u8>, Seq<u8>, Option<Seq<u8>>), Seq<Seq<ARXRound>>)>,
                Some(tail) => Some((fields, keys@.map_values(|k: ARXKey| k@) + tail)),
            }),
            spec_meta_decode(bytes@, 0) == Some(
                (
                    (
                        meta.build_hash@,
                        meta.cipher_name@,
                        match meta.cipher_config {
                            Some(ref c) => Some(c@),
                            None => None,
                        },
                    ),
                    spec_meta_decode(bytes@, 0).unwrap().1,
                ),
            ),
        decreases bytes@.len() - pos,
    {
        if pos == bytes.len() {
            proof {
                assert(keys@.map_values(|k: ARXKey| k@) + Seq::<Seq<ARXRound>>::empty()
                    =~= keys@.map_values(|k: ARXKey| k@));
            }
            return Some((meta, keys));
        }
        let (k, p) = match decode_key_at(bytes, pos) {
            None => {
                return None;
            },
            Some(x) => x,
        };
        let ghost prev = keys@;
        let ghost kview = k@;
        keys.push(k);
        proof {
            assert(keys@.map_values(|q: ARXKey| q@) =~= prev.map_values(|q: ARXKey| q@).push(
                kview,
            ));
            assert forall|tail: Seq<Seq<ARXRound>>|
                true implies prev.map_values(|q: ARXKey| q@) + (seq![kview] + tail) == keys@
                .map_values(|q: ARXKey| q@) + tail by {
                assert(prev.map_values(|q: ARXKey| q@) + (seq![kview] + tail) =~= keys@.map_values(
                    |q: ARXKey| q@,
                ) + tail);
            }
        }
        pos = p;
    }
}

} // verus!
