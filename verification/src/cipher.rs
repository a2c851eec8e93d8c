//! The cipher registry: named ciphers built from a configuration
//! string. The ARX reference cipher is the one entry; its
//! configuration is the round count, a decimal in `1..=8`.

use crate::arx_enum::{ctx_wf, worker_context_spec, ARXWorkerContext};
use crate::arx::ARXKey;
use crate::keydump::{lemma_key_decode_sound, spec_key_encoding, KeyDecodeError};
use crate::compare::str_eq;
use crate::partition::{get_worker_slice, lemma_slice_lo_in_range, lemma_slice_lo_monotone, slice_lo};
use vstd::arithmetic::div_mod::{lemma_div_is_ordered, lemma_div_multiples_vanish};
use vstd::arithmetic::mul::lemma_mul_inequality;
use vstd::prelude::*;


verus! {

/// What stops a cipher from being built.
#[derive(Debug)]
pub enum StandardCipherError {
    UnknownCipher,
    NotConfigurable,
    MissingConfiguration,
    BadConfiguration { msg: String },
}

impl StandardCipherError {
    /// The error as words, for logs.
    pub fn to_message(&self) -> (r: String)
        ensures
            self is UnknownCipher ==> r@ == "Unknown cipher"@,
            self is NotConfigurable ==> r@ == "This cipher is not configurable"@,
            self is MissingConfiguration ==> r@ == "This cipher needs configuration"@,
    {
        match self {
            StandardCipherError::UnknownCipher => String::from_str("Unknown cipher"),
            StandardCipherError::NotConfigurable => String::from_str(
                "This cipher is not configurable",
            ),
            StandardCipherError::MissingConfiguration => String::from_str(
                "This cipher needs configuration",
            ),
            StandardCipherError::BadConfiguration { msg } => {
                let mut s = String::from_str("Bad cipher configuration: ");
                s.append(msg.as_str());
                s
            },
        }
    }
}

/// A key that can cross the worker-coordinator boundary: it has one
/// self-delimited byte form.
pub trait CipherKey: Sized {
    /// The key's byte form.
    spec fn spec_net_encoding(&self) -> Seq<u8>;

    /// Encode the key to its byte form.
    fn encode_net_key(&self) -> (r: Vec<u8>)
        ensures
            r@ == self.spec_net_encoding(),
    ;

    /// Decode a whole buffer back into a key. Succeeds only on a
    /// buffer that is exactly some key's byte form.
    fn decode_net_key(buffer: &Vec<u8>) -> (r: Result<Self, KeyDecodeError>)
        ensures
            r matches Ok(k) ==> k.spec_net_encoding() == buffer@,
    ;
}

/// Whether a character sequence is a decimal number.
pub open spec fn all_digits(s: Seq<char>) -> bool {
    forall|i: int| 0 <= i < s.len() ==> '0' <= #[trigger] s[i] <= '9'
}

/// The number a decimal character sequence stands for.
pub open spec fn dec_value(s: Seq<char>) -> int
    decreases s.len(),
{
    if s.len() == 0 {
        0
    } else {
        dec_value(s.drop_last()) * 10 + (s.last() as u32 - 48)
    }
}

/// A configuration string names a round count when it is a nonempty
/// decimal spelling a number in `1..=8`.
pub open spec fn valid_round_count_config(s: Seq<char>) -> bool {
    &&& s.len() > 0
    &&& all_digits(s)
    &&& 1 <= dec_value(s) <= 8
}

/// Appending digits never shrinks the number spelled so far.
proof fn lemma_dec_value_monotone(s: Seq<char>, i: int)
    requires
        all_digits(s),
        0 <= i <= s.len(),
    ensures
        dec_value(s.take(i)) >= 0,
        dec_value(s.take(i)) <= dec_value(s),
    decreases s.len() - i, s.len(),
{
    if i == s.len() {
        assert(s.take(i) =~= s);
        if s.len() > 0 {
            assert(all_digits(s.drop_last())) by {
                assert(forall|j: int|
                    0 <= j < s.drop_last().len() ==> #[trigger] s.drop_last()[j] == s[j]);
            }
            lemma_dec_value_monotone(s.drop_last(), s.drop_last().len() as int);
            assert(s.drop_last().take(s.drop_last().len() as int) =~= s.drop_last());
        }
    } else {
        lemma_dec_value_monotone(s, i + 1);
        assert(s.take(i + 1).drop_last() =~= s.take(i));
        assert(all_digits(s.take(i))) by {
            assert(forall|j: int| 0 <= j < i ==> #[trigger] s.take(i)[j] == s[j]);
        }
        if i > 0 {
            assert(all_digits(s.take(i).drop_last())) by {
                assert(forall|j: int|
                    0 <= j < i - 1 ==> #[trigger] s.take(i).drop_last()[j] == s[j]);
            }
            lemma_dec_value_monotone(s.take(i).drop_last(), i - 1);
            assert(s.take(i).drop_last().take(i - 1) =~= s.take(i).drop_last());
        }
        assert(dec_value(s.take(i + 1)) == dec_value(s.take(i)) * 10 + (s[i] as u32 - 48));
    }
}

/// Parse a decimal round count, accepting exactly the values `1..=8`.
pub fn parse_round_count(s: &str) -> (r: Option<usize>)
    ensures
        match r {
            Some(v) => valid_round_count_config(s@) && v == dec_value(s@),
            None => !valid_round_count_config(s@),
        },
{
    let len = s.unicode_len();
    if len == 0 {
        return None;
    }
    let mut acc: usize = 0;
    let mut i: usize = 0;
    while i < len
        invariant
            len == s@.len(),
            i <= len,
            all_digits(s@.take(i as int)),
            acc == dec_value(s@.take(i as int)),
            acc <= 8,
        decreases len - i,
    {
        let c = s.get_char(i);
        if c < '0' || c > '9' {
            proof {
                assert(!all_digits(s@));
            }
            return None;
        }
        let d: u32 = c as u32;
        let next: usize = acc * 10 + ((d - 48) as usize);
        proof {
            assert(s@.take(i + 1).drop_last() =~= s@.take(i as int));
            assert(all_digits(s@.take(i + 1))) by {
                assert(forall|j: int|
                    0 <= j < i + 1 ==> #[trigger] s@.take(i + 1)[j] == (if j < i {
                        s@.take(i as int)[j]
                    } else {
                        s@[j]
                    }));
            }
        }
        if next > 8 {
            proof {
                if all_digits(s@) && s@.len() > 0 {
                    lemma_dec_value_monotone(s@, i + 1);
                    assert(s@.take(s@.len() as int) =~= s@);
                }
            }
            return None;
        }
        acc = next;
        i = i + 1;
    }
    proof {
        assert(s@.take(len as int) =~= s@);
    }
    if acc == 0 {
        return None;
    }
    Some(acc)
}

/// The ARX cipher, configured with its round count.
#[derive(Clone, Copy, PartialEq, Eq, Structural, Debug)]
pub struct ARXCipher {
    pub round_count: usize,
}

/// A built cipher always carries an accepted round count.
pub open spec fn cipher_wf(c: ARXCipher) -> bool {
    1 <= c.round_count <= 8
}

impl ARXCipher {
    /// Build the cipher from its configuration string: the decimal
    /// round count, which must lie in `1..=8`.
    pub fn new(config: Option<&str>) -> (r: Result<ARXCipher, StandardCipherError>)
        ensures
            match r {
                Ok(c) => {
                    &&& config matches Some(s) && valid_round_count_config(s@)
                    &&& c.round_count == dec_value(config.unwrap()@)
                    &&& cipher_wf(c)
                },
                Err(e) => match config {
                    None => e is MissingConfiguration,
                    Some(s) => !valid_round_count_config(s@) && e is BadConfiguration,
                },
            },
    {
        match config {
            Some(s) => {
                match parse_round_count(s) {
                    Some(round_count) => Ok(ARXCipher { round_count }),
                    None => Err(
                        StandardCipherError::BadConfiguration {
                            msg: String::from_str("Round count must be in the range 1..=8"),
                        },
                    ),
                }
            },
            None => Err(StandardCipherError::MissingConfiguration),
        }
    }

    /// Sharding the first-round `add` axis finer than its 256 slots
    /// would leave workers idle.
    pub fn get_max_parallelism(&self) -> (r: u32)
        ensures
            r == 256,
    {
        256
    }

    /// The partition for one worker of `worker_total`. Partitions of
    /// the same worker count tile the keyspace: each key falls in
    /// exactly one of them.
    pub fn create_worker_context_parallel(&self, worker_id: u32, worker_total: u32) -> (r:
        ARXWorkerContext)
        requires
            cipher_wf(*self),
            worker_id < worker_total,
            worker_total <= 256,
        ensures
            r == worker_context_spec(self.round_count, worker_id, worker_total),
            ctx_wf(r),
    {
        proof {
            lemma_slice_lo_in_range(255, worker_total as int, worker_id as int);
            lemma_slice_lo_in_range(255, worker_total as int, worker_id + 1);
            lemma_slice_lo_monotone(255, worker_total as int, worker_id as int, worker_id + 1);
            lemma_mul_inequality(1, worker_total as int, 256);
            assert(slice_lo(255, worker_total as int, worker_id + 1) >= 1) by {
                lemma_mul_inequality(1, worker_id + 1, 256);
                lemma_div_is_ordered(256, (worker_id + 1) * 256, worker_total as int);
                lemma_div_is_ordered(worker_total as int, 256, worker_total as int);
                lemma_div_multiples_vanish(1, worker_total as int);
            }
        }
        let (a_min, a_max) = get_worker_slice(255, worker_id, worker_total);
        ARXWorkerContext {
            round_count: self.round_count,
            a_lo: a_min as u16,
            a_hi_excl: (a_max + 1) as u16,
        }
    }

    /// The single-worker context covering the whole keyspace.
    pub fn create_worker_context(&self) -> (r: ARXWorkerContext)
        requires
            cipher_wf(*self),
        ensures
            r == worker_context_spec(self.round_count, 0, 1),
            ctx_wf(r),
    {
        self.create_worker_context_parallel(0, 1)
    }
}

/// Look a cipher up by name and build it from its configuration.
pub fn deserialise_cipher(cipher_name: &str, config: Option<&str>) -> (r: Result<
    ARXCipher,
    StandardCipherError,
>)
    ensures
        cipher_name@ != "arx"@ ==> (r matches Err(e) && e is UnknownCipher),
        cipher_name@ == "arx"@ ==> match r {
            Ok(c) => {
                &&& config matches Some(s) && valid_round_count_config(s@)
                &&& c.round_count == dec_value(config.unwrap()@)
                &&& cipher_wf(c)
            },
            Err(e) => match config {
                None => e is MissingConfiguration,
                Some(s) => !valid_round_count_config(s@) && e is BadConfiguration,
            },
        },
{
    if str_eq(cipher_name, "arx") {
        ARXCipher::new(config)
    } else {
        Err(StandardCipherError::UnknownCipher)
    }
}


impl CipherKey for ARXKey {
    /// An ARX key's byte form is its self-delimited key encoding.
    open spec fn spec_net_encoding(&self) -> Seq<u8> {
        spec_key_encoding(self@)
    }

    fn encode_net_key(&self) -> (r: Vec<u8>) {
        self.encode_to_buffer()
    }

    fn decode_net_key(buffer: &Vec<u8>) -> (r: Result<ARXKey, KeyDecodeError>) {
        let r = ARXKey::from_buffer(buffer);
        proof {
            if r is Ok {
                lemma_key_decode_sound(buffer@, 0);
                assert(buffer@.subrange(0, buffer@.len() as int) =~= buffer@);
            }
        }
        r
    }
}

} // verus!
