//! Rendering values as text: hex escapes for units outside the
//! alphabet, decimal numbers, and the human form of an ARX key. Every
//! renderer is a function of its input alone, so equal values always
//! render equally.

use crate::arx::{ARXKey, ARXRound};
use crate::cipher::ARXCipher;
use crate::keydump::{spec_key_decode, KeyDecodeError};
use vstd::prelude::*;

verus! {

/// How one message is printed.
pub struct MessagePrintConfig {
    pub max_len: u32,
    pub multiview: bool,
    pub unit_count_digits_hint: Option<usize>,
    pub msg_len_digits_hint: Option<usize>,
    pub msg_name_len_hint: Option<usize>,
}

impl Default for MessagePrintConfig {
    /// No truncation, single view, no width hints.
    fn default() -> (r: MessagePrintConfig)
        ensures
            r.max_len == 0,
            !r.multiview,
            r.unit_count_digits_hint is None,
            r.msg_len_digits_hint is None,
            r.msg_name_len_hint is None,
    {
        MessagePrintConfig {
            max_len: 0,
            multiview: false,
            unit_count_digits_hint: None,
            msg_len_digits_hint: None,
            msg_name_len_hint: None,
        }
    }
}

/// How a message list is printed.
pub struct MessagesPrintConfig {
    pub max_len: u32,
    pub multiview: bool,
}

impl Default for MessagesPrintConfig {
    /// No truncation, single view.
    fn default() -> (r: MessagesPrintConfig)
        ensures
            r.max_len == 0,
            !r.multiview,
    {
        MessagesPrintConfig { max_len: 0, multiview: false }
    }
}

/// How one unit is printed.
pub struct UnitPrintConfig {
    pub is_original: bool,
    pub allow_long: bool,
}

/// The character of one decimal digit.
pub open spec fn digit_char(d: int) -> char {
    if d == 0 {
        '0'
    } else if d == 1 {
        '1'
    } else if d == 2 {
        '2'
    } else if d == 3 {
        '3'
    } else if d == 4 {
        '4'
    } else if d == 5 {
        '5'
    } else if d == 6 {
        '6'
    } else if d == 7 {
        '7'
    } else if d == 8 {
        '8'
    } else {
        '9'
    }
}

/// The character of one hex digit, lower case.
pub open spec fn hex_char(d: int) -> char {
    if d < 10 {
        digit_char(d)
    } else if d == 10 {
        'a'
    } else if d == 11 {
        'b'
    } else if d == 12 {
        'c'
    } else if d == 13 {
        'd'
    } else if d == 14 {
        'e'
    } else {
        'f'
    }
}

/// A byte's decimal spelling, most significant digit first, no leading
/// zeros.
pub open spec fn dec_str(v: int) -> Seq<char>
    decreases v,
{
    if v < 10 {
        seq![digit_char(v)]
    } else {
        dec_str(v / 10).push(digit_char(v % 10))
    }
}

/// A byte's hex escape: a backslash, an `x`, and the digits with no
/// leading zero.
pub open spec fn hex_escape(v: int) -> Seq<char> {
    if v < 16 {
        seq!['\\', 'x', hex_char(v)]
    } else {
        seq!['\\', 'x', hex_char(v / 16), hex_char(v % 16)]
    }
}

/// One decimal digit as text.
fn digit_str(d: u8) -> (r: &'static str)
    requires
        d < 10,
    ensures
        r@ == seq![digit_char(d as int)],
{
    proof {
        reveal_strlit("0");
        reveal_strlit("1");
        reveal_strlit("2");
        reveal_strlit("3");
        reveal_strlit("4");
        reveal_strlit("5");
        reveal_strlit("6");
        reveal_strlit("7");
        reveal_strlit("8");
        reveal_strlit("9");
    }
    match d {
        0 => "0",
        1 => "1",
        2 => "2",
        3 => "3",
        4 => "4",
        5 => "5",
        6 => "6",
        7 => "7",
        8 => "8",
        _ => "9",
    }
}

/// One hex digit as text, lower case.
fn hex_digit_str(d: u8) -> (r: &'static str)
    requires
        d < 16,
    ensures
        r@ == seq![hex_char(d as int)],
{
    if d < 10 {
        digit_str(d)
    } else {
        proof {
            reveal_strlit("a");
            reveal_strlit("b");
            reveal_strlit("c");
            reveal_strlit("d");
            reveal_strlit("e");
            reveal_strlit("f");
        }
        match d {
            10 => "a",
            11 => "b",
            12 => "c",
            13 => "d",
            14 => "e",
            _ => "f",
        }
    }
}

/// Append a byte's decimal spelling.
pub fn push_decimal_u8(s: &mut String, v: u8)
    ensures
        final(s)@ == old(s)@ + dec_str(v as int),
{
    if v >= 100 {
        s.append(digit_str(v / 100));
        s.append(digit_str((v / 10) % 10));
        s.append(digit_str(v % 10));
        proof {
            assert((v as int) / 10 / 10 == (v as int) / 100) by (nonlinear_arith);
            assert(dec_str(v as int / 100) =~= seq![digit_char(v as int / 100)]);
            assert(dec_str(v as int / 10) =~= seq![
                digit_char(v as int / 100),
                digit_char((v as int / 10) % 10),
            ]);
            assert(dec_str(v as int) =~= seq![
                digit_char(v as int / 100),
                digit_char((v as int / 10) % 10),
                digit_char(v as int % 10),
            ]);
            assert(final(s)@ =~= old(s)@ + dec_str(v as int));
        }
    } else if v >= 10 {
        s.append(digit_str(v / 10));
        s.append(digit_str(v % 10));
        proof {
            assert(dec_str(v as int / 10) =~= seq![digit_char(v as int / 10)]);
            assert(dec_str(v as int) =~= seq![
                digit_char(v as int / 10),
                digit_char(v as int % 10),
            ]);
            assert(final(s)@ =~= old(s)@ + dec_str(v as int));
        }
    } else {
        s.append(digit_str(v));
        proof {
            assert(final(s)@ =~= old(s)@ + dec_str(v as int));
        }
    }
}

/// Append a number's decimal spelling.
pub fn push_decimal_usize(s: &mut String, v: usize)
    ensures
        final(s)@ == old(s)@ + dec_str(v as int),
    decreases v,
{
    if v >= 10 {
        push_decimal_usize(s, v / 10);
        s.append(digit_str((v % 10) as u8));
        proof {
            assert(final(s)@ =~= old(s)@ + dec_str(v as int));
        }
    } else {
        s.append(digit_str(v as u8));
        proof {
            assert(final(s)@ =~= old(s)@ + dec_str(v as int));
        }
    }
}

/// A unit outside the alphabet, rendered as a hex escape.
pub fn format_hex_char(c: u8) -> (r: String)
    ensures
        r@ == hex_escape(c as int),
{
    let mut s = String::new();
    proof {
        reveal_strlit("\\x");
    }
    s.append("\\x");
    if c >= 16 {
        s.append(hex_digit_str(c / 16));
    }
    s.append(hex_digit_str(c % 16));
    proof {
        assert(s@ =~= hex_escape(c as int));
    }
    s
}

/// The parts a round contributes to a key's rendering: letters `a`,
/// `r`, `x` with their values, zero values left out.
pub open spec fn round_render_parts(rd: ARXRound) -> Seq<Seq<char>> {
    (if rd.add != 0 {
        seq![seq!['a'] + dec_str(rd.add as int)]
    } else {
        Seq::empty()
    }) + (if rd.rot != 0 {
        seq![seq!['r'] + dec_str(rd.rot as int)]
    } else {
        Seq::empty()
    }) + (if rd.xor != 0 {
        seq![seq!['x'] + dec_str(rd.xor as int)]
    } else {
        Seq::empty()
    })
}

/// All parts of a key, in round order.
pub open spec fn key_render_parts(rs: Seq<ARXRound>) -> Seq<Seq<char>>
    decreases rs.len(),
{
    if rs.len() == 0 {
        Seq::empty()
    } else {
        round_render_parts(rs[0]) + key_render_parts(rs.skip(1))
    }
}

/// Parts joined with an arrow.
pub open spec fn join_arrow(parts: Seq<Seq<char>>) -> Seq<char>
    decreases parts.len(),
{
    if parts.len() == 0 {
        Seq::empty()
    } else if parts.len() == 1 {
        parts[0]
    } else {
        parts[0] + seq!['-', '>'] + join_arrow(parts.skip(1))
    }
}

/// The human form of a key: its parts joined and bracketed, or a
/// fixed marker for the key that changes nothing.
pub open spec fn spec_render_key(rs: Seq<ARXRound>) -> Seq<char> {
    if key_render_parts(rs).len() == 0 {
        "[no-op key]"@
    } else {
        seq!['['] + join_arrow(key_render_parts(rs)) + seq![']']
    }
}

/// Joining grows part by part at the end.
proof fn lemma_join_arrow_push(parts: Seq<Seq<char>>, p: Seq<char>)
    ensures
        parts.len() == 0 ==> join_arrow(parts.push(p)) == p,
        parts.len() > 0 ==> join_arrow(parts.push(p)) == join_arrow(parts) + seq!['-', '>'] + p,
    decreases parts.len(),
{
    if parts.len() == 0 {
        assert(join_arrow(parts.push(p)) == parts.push(p)[0]);
        assert(parts.push(p)[0] == p);
    } else {
        assert(parts.push(p).skip(1) =~= parts.skip(1).push(p));
        lemma_join_arrow_push(parts.skip(1), p);
        if parts.len() == 1 {
            assert(join_arrow(parts.push(p)) =~= join_arrow(parts) + seq!['-', '>'] + p);
        } else {
            assert(join_arrow(parts.push(p)) =~= join_arrow(parts) + seq!['-', '>'] + p);
        }
    }
}

/// The parts grow round by round at the end.
proof fn lemma_key_render_parts_push(rs: Seq<ARXRound>, rd: ARXRound)
    ensures
        key_render_parts(rs.push(rd)) == key_render_parts(rs) + round_render_parts(rd),
    decreases rs.len(),
{
    if rs.len() == 0 {
        assert(rs.push(rd)[0] == rd);
        assert(rs.push(rd).skip(1) =~= Seq::<ARXRound>::empty());
        assert(key_render_parts(rs.push(rd)) == round_render_parts(rd) + key_render_parts(
            Seq::<ARXRound>::empty(),
        ));
        assert(key_render_parts(Seq::<ARXRound>::empty()) == Seq::<Seq<char>>::empty());
        assert(key_render_parts(rs) == Seq::<Seq<char>>::empty());
        assert(round_render_parts(rd) + Seq::<Seq<char>>::empty() =~= Seq::<Seq<char>>::empty()
            + round_render_parts(rd));
    } else {
        assert(rs.push(rd)[0] == rs[0]);
        assert(rs.push(rd).skip(1) =~= rs.skip(1).push(rd));
        lemma_key_render_parts_push(rs.skip(1), rd);
        assert(key_render_parts(rs.push(rd)) == round_render_parts(rs[0]) + key_render_parts(
            rs.skip(1).push(rd),
        ));
        assert(round_render_parts(rs[0]) + (key_render_parts(rs.skip(1)) + round_render_parts(rd))
            =~= (round_render_parts(rs[0]) + key_render_parts(rs.skip(1))) + round_render_parts(
            rd,
        ));
        assert(key_render_parts(rs) == round_render_parts(rs[0]) + key_render_parts(rs.skip(1)));
    }
}

impl ARXKey {
    /// Render the key for people: each round's nonzero parts, joined
    /// with arrows. Equal keys always render equally.
    #[verifier::rlimit(60)]
    pub fn to_string(&self) -> (r: String)
        ensures
            r@ == spec_render_key(self@),
    {
        let mut have_parts: bool = false;
        let mut joined = String::new();
        let n = self.rounds.len();
        let mut i: usize = 0;
        proof {
            assert(self@.take(0) =~= Seq::<ARXRound>::empty());
        }
        while i < n
            invariant
                n == self@.len(),
                i <= n,
                have_parts == (key_render_parts(self@.take(i as int)).len() > 0),
                joined@ == join_arrow(key_render_parts(self@.take(i as int))),
            decreases n - i,
        {
            let rd = *self.rounds.get(i);
            proof {
                assert(self@.take(i + 1) =~= self@.take(i as int).push(rd));
                lemma_key_render_parts_push(self@.take(i as int), rd);
            }
            let ghost parts_before = key_render_parts(self@.take(i as int));
            if rd.add != 0 {
                proof {
                    reveal_strlit("a");
                }
                if have_parts {
                    proof {
                        reveal_strlit("->");
                    }
                    joined.append("->");
                }
                joined.append("a");
                push_decimal_u8(&mut joined, rd.add);
                have_parts = true;
            }
            let ghost parts_mid1 = if rd.add != 0 {
                parts_before.push(seq!['a'] + dec_str(rd.add as int))
            } else {
                parts_before
            };
            proof {
                if rd.add != 0 {
                    lemma_join_arrow_push(parts_before, seq!['a'] + dec_str(rd.add as int));
                    assert(joined@ =~= join_arrow(parts_mid1));
                }
            }
            if rd.rot != 0 {
                proof {
                    reveal_strlit("r");
                }
                if have_parts {
                    proof {
                        reveal_strlit("->");
                    }
                    joined.append("->");
                }
                joined.append("r");
                push_decimal_u8(&mut joined, rd.rot);
                have_parts = true;
            }
            let ghost parts_mid2 = if rd.rot != 0 {
                parts_mid1.push(seq!['r'] + dec_str(rd.rot as int))
            } else {
                parts_mid1
            };
            proof {
                if rd.rot != 0 {
                    lemma_join_arrow_push(parts_mid1, seq!['r'] + dec_str(rd.rot as int));
                    assert(joined@ =~= join_arrow(parts_mid2));
                }
            }
            if rd.xor != 0 {
                proof {
                    reveal_strlit("x");
                }
                if have_parts {
                    proof {
                        reveal_strlit("->");
                    }
                    joined.append("->");
                }
                joined.append("x");
                push_decimal_u8(&mut joined, rd.xor);
                have_parts = true;
            }
            let ghost parts_mid3 = if rd.xor != 0 {
                parts_mid2.push(seq!['x'] + dec_str(rd.xor as int))
            } else {
                parts_mid2
            };
            proof {
                if rd.xor != 0 {
                    lemma_join_arrow_push(parts_mid2, seq!['x'] + dec_str(rd.xor as int));
                    assert(joined@ =~= join_arrow(parts_mid3));
                }
                assert(key_render_parts(self@.take(i + 1)) =~= parts_mid3);
            }
            i = i + 1;
        }
        proof {
            assert(self@.take(n as int) =~= self@);
        }
        if !have_parts {
            String::from_str("[no-op key]")
        } else {
            let mut out = String::new();
            proof {
                reveal_strlit("[");
                reveal_strlit("]");
            }
            out.append("[");
            out.append(joined.as_str());
            out.append("]");
            proof {
                assert(out@ =~= spec_render_key(self@));
            }
            out
        }
    }
}

impl ARXCipher {
    /// Decode a key's byte form and render it for logs.
    pub fn net_key_to_string(&self, net_key: &Vec<u8>) -> (r: Result<String, KeyDecodeError>)
        ensures
            match r {
                Ok(s) => spec_key_decode(net_key@, 0) matches Some((rs, p)) && p == net_key@.len()
                    && s@ == spec_render_key(rs),
                Err(_) => match spec_key_decode(net_key@, 0) {
                    Some((rs, p)) => p != net_key@.len(),
                    None => true,
                },
            },
    {
        match ARXKey::from_buffer(net_key) {
            Ok(k) => Ok(k.to_string()),
            Err(e) => Err(e),
        }
    }
}

} // verus!
