//! Message data as CSV text: one row per message, the name first, then
//! the units as decimal bytes. Importing drops units the alphabet does
//! not know; exporting writes every unit back in decimal.

use crate::alphabet::{grapheme_count, grapheme_split, graphemes_of, Alphabet};
use crate::messages::{Message, MessageList};
use crate::render::{dec_str, digit_char, push_decimal_u8, push_decimal_usize};
use crate::smallbuf::{unit_buf, UnitBuf};
use vstd::prelude::*;

verus! {

/// Where and why a data file was rejected.
#[derive(Clone, Copy, PartialEq, Eq, Structural, Debug)]
pub enum InvalidFormatErrorKind {
    /// A row starts with an empty name.
    EmptyMessageName,
    /// A row carries no units at all.
    EmptyMessage,
    /// A cell is not a decimal byte, or text that is not UTF-8.
    InvalidDatum,
    /// The file holds no messages.
    NoMessages,
    /// A row carries more cells than its format allows.
    UnexpectedDatum,
    /// An alphabet file with no name row.
    MissingAlphabetName,
    /// An alphabet row without its weight cell.
    MissingAlphabetWeight,
    /// An alphabet file whose rows define no unit.
    EmptyAlphabet,
    /// An alphabet row that the alphabet itself refuses.
    BadAlphabetUnit,
}

/// A format error with the place it was found.
#[derive(Clone, Copy, PartialEq, Eq, Structural, Debug)]
pub struct InvalidFormatError {
    pub kind: InvalidFormatErrorKind,
    pub row: usize,
    pub col: usize,
}

/// Whether a byte string is a decimal spelling of a byte value.
pub open spec fn is_dec_byte(s: Seq<u8>) -> bool {
    &&& s.len() > 0
    &&& forall|i: int| 0 <= i < s.len() ==> 48 <= #[trigger] s[i] <= 57
    &&& byte_dec_value(s) <= 255
}

/// The number a decimal byte string spells.
pub open spec fn byte_dec_value(s: Seq<u8>) -> int
    decreases s.len(),
{
    if s.len() == 0 {
        0
    } else {
        byte_dec_value(s.drop_last()) * 10 + (s.last() - 48)
    }
}

/// Parse one trimmed cell as a decimal byte.
fn parse_dec_byte(cell: &[u8]) -> (r: Option<u8>)
    ensures
        match r {
            Some(v) => is_dec_byte(cell@) && v == byte_dec_value(cell@),
            None => !is_dec_byte(cell@),
        },
{
    let n = cell.len();
    if n == 0 {
        return None;
    }
    let mut acc: u32 = 0;
    let mut i: usize = 0;
    while i < n
        invariant
            n == cell@.len(),
            i <= n,
            forall|j: int| 0 <= j < i ==> 48 <= #[trigger] cell@[j] <= 57,
            acc == byte_dec_value(cell@.take(i as int)),
            acc <= 255,
        decreases n - i,
    {
        let b = cell[i];
        if b < 48 || b > 57 {
            return None;
        }
        proof {
            assert(cell@.take(i + 1).drop_last() =~= cell@.take(i as int));
            assert(cell@.take(i + 1).last() == cell@[i as int]);
        }
        let next: u32 = acc * 10 + ((b - 48) as u32);
        if next > 255 {
            proof {
                lemma_byte_dec_monotone(cell@, i + 1);
                assert(cell@.take(cell@.len() as int) =~= cell@);
            }
            return None;
        }
        acc = next;
        i = i + 1;
    }
    proof {
        assert(cell@.take(n as int) =~= cell@);
    }
    Some(acc as u8)
}

/// A longer spelling never spells a smaller number.
proof fn lemma_byte_dec_monotone(s: Seq<u8>, i: int)
    requires
        0 <= i <= s.len(),
        byte_dec_value(s.take(i)) > 255,
    ensures
        byte_dec_value(s.take(s.len() as int)) > 255,
    decreases s.len() - i,
{
    if i < s.len() {
        assert(s.take(i + 1).drop_last() =~= s.take(i));
        assert(byte_dec_value(s.take(i + 1)) == byte_dec_value(s.take(i)) * 10 + (s[i] - 48));
        lemma_byte_dec_monotone(s, i + 1);
    }
}

/// A byte trimmed off a cell's ends: a space, a tab or a carriage
/// return.
pub open spec fn is_trim_byte(b: u8) -> bool {
    b == 32 || b == 9 || b == 13
}

/// Where the line starting at `pos` ends: at the first line break, or
/// at the end of the text.
pub open spec fn line_end(bytes: Seq<u8>, pos: int) -> int
    decreases bytes.len() - pos,
{
    if 0 <= pos < bytes.len() && bytes[pos] != 10 {
        line_end(bytes, pos + 1)
    } else {
        pos
    }
}

/// Where the cell starting at `pos` ends, inside a line ending at
/// `end`: at the first comma, or at `end`.
pub open spec fn cell_end(bytes: Seq<u8>, pos: int, end: int) -> int
    decreases end - pos,
{
    if 0 <= pos < end && pos < bytes.len() && bytes[pos] != 44 {
        cell_end(bytes, pos + 1, end)
    } else {
        pos
    }
}

/// The left bound of `bytes[a..b)` with leading trim bytes dropped.
pub open spec fn trim_left(bytes: Seq<u8>, a: int, b: int) -> int
    decreases b - a,
{
    if 0 <= a < b && a < bytes.len() && is_trim_byte(bytes[a]) {
        trim_left(bytes, a + 1, b)
    } else {
        a
    }
}

/// The right bound of `bytes[a..b)` with trailing trim bytes dropped.
pub open spec fn trim_right(bytes: Seq<u8>, a: int, b: int) -> int
    decreases b - a,
{
    if 0 <= a < b && b <= bytes.len() && is_trim_byte(bytes[b - 1]) {
        trim_right(bytes, a, b - 1)
    } else {
        b
    }
}

/// The cell `bytes[a..b)`, trimmed at both ends.
pub open spec fn spec_trimmed(bytes: Seq<u8>, a: int, b: int) -> Seq<u8> {
    bytes.subrange(trim_left(bytes, a, b), trim_right(bytes, trim_left(bytes, a, b), b))
}

/// How many cells the row `bytes[pos..end)` holds: one more than its
/// commas.
pub open spec fn cell_count_from(bytes: Seq<u8>, pos: int, end: int) -> int
    decreases end + 1 - pos,
{
    if !(0 <= pos <= end <= bytes.len()) {
        1
    } else {
        let ce = cell_end(bytes, pos, end);
        if pos <= ce < end {
            1 + cell_count_from(bytes, ce + 1, end)
        } else {
            1
        }
    }
}

/// The units of the cells from `pos` on, each a decimal byte, keeping
/// those the alphabet knows; or the column of the first cell that is
/// no decimal byte.
pub open spec fn spec_row_units(
    bytes: Seq<u8>,
    pos: int,
    end: int,
    col: int,
    alpha: Alphabet,
) -> Result<Seq<u8>, int>
    decreases end + 1 - pos,
{
    if !(0 <= pos <= end <= bytes.len()) {
        Ok(Seq::empty())
    } else {
        let ce = cell_end(bytes, pos, end);
        if !(pos <= ce <= end) {
            Ok(Seq::empty())
        } else {
            let cell = spec_trimmed(bytes, pos, ce);
            if !is_dec_byte(cell) {
                Err(col)
            } else {
                let u = byte_dec_value(cell) as u8;
                match (if ce < end {
                    spec_row_units(bytes, ce + 1, end, col + 1, alpha)
                } else {
                    Ok(Seq::empty())
                }) {
                    Err(c) => Err(c),
                    Ok(tail) => Ok(
                        if alpha.has_unit(u as int) {
                            seq![u] + tail
                        } else {
                            tail
                        },
                    ),
                }
            }
        }
    }
}

/// One row of message CSV: nothing for an empty line, the name's bytes
/// with the kept units, or the first fault with its column. The name
/// is the first cell, which must be nonempty ASCII; every further cell
/// must be a decimal byte; a row whose known units all vanished is a
/// fault.
pub open spec fn spec_csv_row(bytes: Seq<u8>, pos: int, end: int, alpha: Alphabet) -> Result<
    Option<(Seq<u8>, Seq<u8>)>,
    (InvalidFormatErrorKind, int),
> {
    if pos == end {
        Ok(None)
    } else {
        let ce = cell_end(bytes, pos, end);
        let name = spec_trimmed(bytes, pos, ce);
        if name.len() == 0 {
            Err((InvalidFormatErrorKind::EmptyMessageName, 0))
        } else if exists|i: int| 0 <= i < name.len() && #[trigger] name[i] >= 128 {
            Err((InvalidFormatErrorKind::InvalidDatum, 0))
        } else {
            match (if ce < end {
                spec_row_units(bytes, ce + 1, end, 1, alpha)
            } else {
                Ok(Seq::empty())
            }) {
                Err(col) => Err((InvalidFormatErrorKind::InvalidDatum, col)),
                Ok(units) => if units.len() == 0 {
                    Err((InvalidFormatErrorKind::EmptyMessage, cell_count_from(bytes, pos, end)))
                } else {
                    Ok(Some((name, units)))
                },
            }
        }
    }
}

/// The rows of message CSV from `pos` on, empty lines skipped: the
/// name bytes and kept units of each message, or the first fault.
pub open spec fn spec_csv_msgs_from(
    bytes: Seq<u8>,
    pos: int,
    row: int,
    alpha: Alphabet,
) -> Result<Seq<(Seq<u8>, Seq<u8>)>, InvalidFormatError>
    decreases bytes.len() + 1 - pos,
{
    if !(0 <= pos <= bytes.len()) {
        Ok(Seq::empty())
    } else {
        let end = line_end(bytes, pos);
        if !(pos <= end <= bytes.len()) {
            Ok(Seq::empty())
        } else {
            match spec_csv_row(bytes, pos, end, alpha) {
                Err((kind, col)) => Err(
                    InvalidFormatError { kind, row: row as usize, col: col as usize },
                ),
                Ok(None) => spec_csv_msgs_from(bytes, end + 1, row + 1, alpha),
                Ok(Some(m)) => match spec_csv_msgs_from(bytes, end + 1, row + 1, alpha) {
                    Err(e) => Err(e),
                    Ok(rest) => Ok(seq![m] + rest),
                },
            }
        }
    }
}

/// How many lines the text has: one more than its line breaks.
pub open spec fn line_count(bytes: Seq<u8>, pos: int) -> int
    decreases bytes.len() + 1 - pos,
{
    if !(0 <= pos <= bytes.len()) {
        0
    } else {
        let end = line_end(bytes, pos);
        if !(pos <= end <= bytes.len()) {
            0
        } else {
            1 + line_count(bytes, end + 1)
        }
    }
}

/// What message CSV denotes: each row's name bytes and kept units, or
/// the first fault with its row and column; a file with no message
/// rows at all is a fault.
pub open spec fn spec_csv_messages(bytes: Seq<u8>, alpha: Alphabet) -> Result<
    Seq<(Seq<u8>, Seq<u8>)>,
    InvalidFormatError,
> {
    match spec_csv_msgs_from(bytes, 0, 0, alpha) {
        Err(e) => Err(e),
        Ok(rows) => if rows.len() == 0 {
            Err(
                InvalidFormatError {
                    kind: InvalidFormatErrorKind::NoMessages,
                    row: line_count(bytes, 0) as usize,
                    col: 0,
                },
            )
        } else {
            Ok(rows)
        },
    }
}

/// Parse message CSV: one row per message, `name,u0,u1,...`; cells are
/// trimmed of spaces; blank rows are skipped; a unit the alphabet does
/// not know is dropped from the message. A row with an empty name, a
/// cell that is no decimal byte, or a row whose known units all
/// vanished is rejected, as is a file with no messages at all: the
/// outcome is exactly what `spec_csv_messages` gives the bytes.
pub fn parse_csv_messages(csv: &[u8], alphabet: &Alphabet) -> (r: Result<
    MessageList,
    InvalidFormatError,
>)
    requires
        alphabet.wf(),
        csv@.len() < usize::MAX,
    ensures
        match r {
            Ok(msgs) => {
                &&& msgs@.len() > 0
                &&& forall|m: int, u: int|
                    0 <= m < msgs@.len() && 0 <= u < unit_buf(#[trigger] msgs@[m].data).len()
                        ==> alphabet.has_unit(#[trigger] unit_buf(msgs@[m].data)[u] as int)
                &&& forall|m: int|
                    0 <= m < msgs@.len() ==> (#[trigger] msgs@[m].name)@.len() > 0
                &&& forall|m: int| 0 <= m < msgs@.len() ==> unit_buf(#[trigger] msgs@[m].data).len() > 0
                &&& spec_csv_messages(csv@, *alphabet) matches Ok(rows) && rows.len()
                    == msgs@.len() && (forall|m: int|
                    0 <= m < msgs@.len() ==> unit_buf(#[trigger] msgs@[m].data) == rows[m].1
                        && msgs@[m].name@ == Seq::new(
                        rows[m].0.len(),
                        |i: int| rows[m].0[i] as char,
                    ))
            },
            Err(e) => spec_csv_messages(csv@, *alphabet) == Err::<
                Seq<(Seq<u8>, Seq<u8>)>,
                InvalidFormatError,
            >(e),
        },
{
    let mut messages: MessageList = Vec::new();
    let ghost mut done: Seq<(Seq<u8>, Seq<u8>)> = Seq::empty();
    let n = csv.len();
    let mut pos: usize = 0;
    let mut row: usize = 0;
    proof {
        assert forall|rest: Seq<(Seq<u8>, Seq<u8>)>| true implies Seq::<
            (Seq<u8>, Seq<u8>),
        >::empty() + rest == rest by {
            assert(Seq::<(Seq<u8>, Seq<u8>)>::empty() + rest =~= rest);
        }
    }
    while pos <= n
        invariant
            alphabet.wf(),
            n == csv@.len(),
            n < usize::MAX,
            pos <= n + 1,
            row <= pos,
            done.len() == messages@.len(),
            forall|m: int|
                0 <= m < messages@.len() ==> unit_buf(#[trigger] messages@[m].data) == done[m].1,
            forall|m: int|
                0 <= m < messages@.len() ==> (#[trigger] messages@[m].name)@ == Seq::new(
                    done[m].0.len(),
                    |i: int| done[m].0[i] as char,
                ),
            forall|m: int, u: int|
                0 <= m < messages@.len() && 0 <= u < unit_buf(#[trigger] messages@[m].data).len()
                    ==> alphabet.has_unit(#[trigger] unit_buf(messages@[m].data)[u] as int),
            forall|m: int|
                0 <= m < messages@.len() ==> (#[trigger] messages@[m].name)@.len() > 0,
            forall|m: int|
                0 <= m < messages@.len() ==> unit_buf(#[trigger] messages@[m].data).len() > 0,
            spec_csv_msgs_from(csv@, 0, 0, *alphabet) == (match spec_csv_msgs_from(
                csv@,
                pos as int,
                row as int,
                *alphabet,
            ) {
                Err(e) => Err::<Seq<(Seq<u8>, Seq<u8>)>, InvalidFormatError>(e),
                Ok(rest) => Ok(done + rest),
            }),
            line_count(csv@, 0) == row + line_count(csv@, pos as int),
        decreases n + 1 - pos,
    {
        // Find the end of this line.
        let mut end = pos;
        while end < n && csv[end] != 10
            invariant
                n == csv@.len(),
                pos <= end <= n,
                line_end(csv@, pos as int) == line_end(csv@, end as int),
            decreases n - end,
        {
            end = end + 1;
        }
        proof {
            assert(line_end(csv@, end as int) == end);
        }
        if pos == end {
            // An empty line holds no message.
            row = row + 1;
            pos = end + 1;
            continue ;
        }
        // The name cell: up to the first comma, trimmed, nonempty
        // ASCII.
        let mut ce = pos;
        while ce < end && csv[ce] != 44
            invariant
                n == csv@.len(),
                pos <= ce <= end <= n,
                cell_end(csv@, pos as int, end as int) == cell_end(csv@, ce as int, end as int),
            decreases end - ce,
        {
            ce = ce + 1;
        }
        proof {
            assert(cell_end(csv@, ce as int, end as int) == ce);
        }
        let mut a = pos;
        let mut b = ce;
        while a < b && (csv[a] == 32 || csv[a] == 9 || csv[a] == 13)
            invariant
                n == csv@.len(),
                pos <= a <= b <= n,
                b == ce,
                trim_left(csv@, pos as int, ce as int) == trim_left(csv@, a as int, ce as int),
            decreases b - a,
        {
            a = a + 1;
        }
        proof {
            assert(trim_left(csv@, a as int, ce as int) == a);
        }
        while b > a && (csv[b - 1] == 32 || csv[b - 1] == 9 || csv[b - 1] == 13)
            invariant
                n == csv@.len(),
                a <= b <= ce <= n,
                trim_right(csv@, a as int, ce as int) == trim_right(csv@, a as int, b as int),
            decreases b,
        {
            b = b - 1;
        }
        proof {
            assert(trim_right(csv@, a as int, b as int) == b);
        }
        let ghost namebytes = csv@.subrange(a as int, b as int);
        proof {
            assert(namebytes == spec_trimmed(csv@, pos as int, ce as int));
        }
        if a == b {
            return Err(
                InvalidFormatError {
                    kind: InvalidFormatErrorKind::EmptyMessageName,
                    row,
                    col: 0,
                },
            );
        }
        let mut ok = true;
        let mut k = a;
        while k < b
            invariant
                n == csv@.len(),
                a <= k <= b <= n,
                ok ==> forall|j: int| a <= j < k ==> #[trigger] csv@[j] < 128,
                !ok ==> exists|j: int| a <= j < b && #[trigger] csv@[j] >= 128,
            decreases b - k,
        {
            if csv[k] >= 128 {
                ok = false;
            }
            k = k + 1;
        }
        if !ok {
            proof {
                let j = choose|j: int| a <= j < b && #[trigger] csv@[j] >= 128;
                assert(namebytes[j - a] >= 128);
            }
            return Err(
                InvalidFormatError { kind: InvalidFormatErrorKind::InvalidDatum, row, col: 0 },
            );
        }
        proof {
            assert forall|i: int| 0 <= i < namebytes.len() implies !(#[trigger] namebytes[i]
                >= 128) by {
                assert(namebytes[i] == csv@[a + i]);
            }
        }
        let raw = slice_range(csv, a, b);
        let name = ascii_to_string(raw.as_slice());
        // The unit cells: each a decimal byte; those the alphabet
        // knows are kept.
        let ghost funits: Result<Seq<u8>, int> = if ce < end {
            spec_row_units(csv@, ce as int + 1, end as int, 1, *alphabet)
        } else {
            Ok(Seq::empty())
        };
        let mut data = UnitBuf::new();
        let mut col: usize = 1;
        let mut more = ce < end;
        let mut cs = ce + 1;
        proof {
            assert forall|tail: Seq<u8>| true implies Seq::<u8>::empty() + tail == tail by {
                assert(Seq::<u8>::empty() + tail =~= tail);
            }
        }
        while more
            invariant
                alphabet.wf(),
                n == csv@.len(),
                n < usize::MAX,
                pos < end <= n,
                line_end(csv@, pos as int) == end,
                cell_end(csv@, pos as int, end as int) == ce,
                pos <= ce <= end,
                ce < end ==> funits == spec_row_units(csv@, ce as int + 1, end as int, 1, *alphabet),
                !(ce < end) ==> funits == Ok::<Seq<u8>, int>(Seq::empty()),
                namebytes == spec_trimmed(csv@, pos as int, ce as int),
                namebytes.len() > 0,
                forall|i: int| 0 <= i < namebytes.len() ==> !(#[trigger] namebytes[i] >= 128),
                spec_csv_msgs_from(csv@, 0, 0, *alphabet) == (match spec_csv_msgs_from(
                    csv@,
                    pos as int,
                    row as int,
                    *alphabet,
                ) {
                    Err(e) => Err::<Seq<(Seq<u8>, Seq<u8>)>, InvalidFormatError>(e),
                    Ok(rest) => Ok(done + rest),
                }),
                more ==> pos < cs <= end,
                1 <= col <= cs,
                unit_buf(data).len() < col,
                forall|u: int|
                    0 <= u < unit_buf(data).len() ==> alphabet.has_unit(
                        #[trigger] unit_buf(data)[u] as int,
                    ),
                (match (if more {
                    spec_row_units(csv@, cs as int, end as int, col as int, *alphabet)
                } else {
                    Ok::<Seq<u8>, int>(Seq::empty())
                }) {
                    Err(c) => funits == Err::<Seq<u8>, int>(c),
                    Ok(tail) => funits == Ok::<Seq<u8>, int>(unit_buf(data) + tail),
                }),
                cell_count_from(csv@, pos as int, end as int) == col + (if more {
                    cell_count_from(csv@, cs as int, end as int)
                } else {
                    0int
                }),
            decreases end + 1 - cs,
        {
            let mut ce2 = cs;
            while ce2 < end && csv[ce2] != 44
                invariant
                    n == csv@.len(),
                    cs <= ce2 <= end <= n,
                    cell_end(csv@, cs as int, end as int) == cell_end(
                        csv@,
                        ce2 as int,
                        end as int,
                    ),
                decreases end - ce2,
            {
                ce2 = ce2 + 1;
            }
            proof {
                assert(cell_end(csv@, ce2 as int, end as int) == ce2);
            }
            let mut a2 = cs;
            let mut b2 = ce2;
            while a2 < b2 && (csv[a2] == 32 || csv[a2] == 9 || csv[a2] == 13)
                invariant
                    n == csv@.len(),
                    cs <= a2 <= b2 <= n,
                    b2 == ce2,
                    trim_left(csv@, cs as int, ce2 as int) == trim_left(
                        csv@,
                        a2 as int,
                        ce2 as int,
                    ),
                decreases b2 - a2,
            {
                a2 = a2 + 1;
            }
            proof {
                assert(trim_left(csv@, a2 as int, ce2 as int) == a2);
            }
            while b2 > a2 && (csv[b2 - 1] == 32 || csv[b2 - 1] == 9 || csv[b2 - 1] == 13)
                invariant
                    n == csv@.len(),
                    a2 <= b2 <= ce2 <= n,
                    trim_right(csv@, a2 as int, ce2 as int) == trim_right(
                        csv@,
                        a2 as int,
                        b2 as int,
                    ),
                decreases b2,
            {
                b2 = b2 - 1;
            }
            proof {
                assert(trim_right(csv@, a2 as int, b2 as int) == b2);
                assert(csv@.subrange(a2 as int, b2 as int) == spec_trimmed(
                    csv@,
                    cs as int,
                    ce2 as int,
                ));
            }
            let cell = slice_range(csv, a2, b2);
            let ghost prev_data = unit_buf(data);
            match parse_dec_byte(cell.as_slice()) {
                Some(unit) => {
                    if alphabet.get_unit(unit).is_some() {
                        data.push(unit);
                        proof {
                            assert forall|tail: Seq<u8>| true implies prev_data + (seq![unit]
                                + tail) == unit_buf(data) + tail by {
                                assert(prev_data + (seq![unit] + tail) =~= unit_buf(data) + tail);
                            }
                        }
                    }
                },
                None => {
                    return Err(
                        InvalidFormatError {
                            kind: InvalidFormatErrorKind::InvalidDatum,
                            row,
                            col,
                        },
                    );
                },
            }
            col = col + 1;
            more = ce2 < end;
            cs = ce2 + 1;
        }
        proof {
            assert(unit_buf(data) + Seq::<u8>::empty() =~= unit_buf(data));
            assert(funits == Ok::<Seq<u8>, int>(unit_buf(data)));
            assert(spec_csv_row(csv@, pos as int, end as int, *alphabet) == (if unit_buf(
                data,
            ).len() == 0 {
                Err::<Option<(Seq<u8>, Seq<u8>)>, (InvalidFormatErrorKind, int)>(
                    (
                        InvalidFormatErrorKind::EmptyMessage,
                        cell_count_from(csv@, pos as int, end as int),
                    ),
                )
            } else {
                Ok::<Option<(Seq<u8>, Seq<u8>)>, (InvalidFormatErrorKind, int)>(
                    Some((namebytes, unit_buf(data))),
                )
            }));
        }
        if data.len() == 0 {
            return Err(
                InvalidFormatError { kind: InvalidFormatErrorKind::EmptyMessage, row, col },
            );
        }
        let ghost prev = messages@;
        let ghost prevdone = done;
        let ghost newrow = (namebytes, unit_buf(data));
        messages.push(Message { name, data });
        proof {
            done = done.push(newrow);
            assert(forall|m: int| 0 <= m < prev.len() ==> #[trigger] messages@[m] == prev[m]);
            assert forall|rest: Seq<(Seq<u8>, Seq<u8>)>|
                true implies prevdone + (seq![newrow] + rest) == done + rest by {
                assert(prevdone + (seq![newrow] + rest) =~= done + rest);
            }
        }
        row = row + 1;
        pos = end + 1;
    }
    proof {
        assert(done + Seq::<(Seq<u8>, Seq<u8>)>::empty() =~= done);
        assert(spec_csv_msgs_from(csv@, 0, 0, *alphabet) == Ok::<
            Seq<(Seq<u8>, Seq<u8>)>,
            InvalidFormatError,
        >(done));
    }
    if messages.len() == 0 {
        return Err(
            InvalidFormatError { kind: InvalidFormatErrorKind::NoMessages, row, col: 0 },
        );
    }
    Ok(messages)
}

/// Relies on `core::str::from_utf8`: bytes below 128 are valid UTF-8
/// and decode one character per byte, each character the byte's own
/// code point.
#[verifier::external_body]
fn ascii_to_string(bytes: &[u8]) -> (r: String)
    requires
        forall|i: int| 0 <= i < bytes@.len() ==> #[trigger] bytes@[i] < 128,
    ensures
        r@.len() == bytes@.len(),
        forall|i: int| 0 <= i < bytes@.len() ==> #[trigger] r@[i] == bytes@[i] as char,
{
    match core::str::from_utf8(bytes) {
        Ok(s) => s.to_string(),
        Err(_) => String::new(),
    }
}

/// Copy a byte range out of a slice.
fn slice_range(s: &[u8], a: usize, b: usize) -> (r: Vec<u8>)
    requires
        a <= b <= s@.len(),
    ensures
        r@ == s@.subrange(a as int, b as int),
{
    let mut out: Vec<u8> = Vec::new();
    let mut i = a;
    while i < b
        invariant
            a <= i <= b <= s@.len(),
            out@ == s@.subrange(a as int, i as int),
        decreases b - i,
    {
        out.push(s[i]);
        proof {
            assert(s@.subrange(a as int, i + 1) =~= s@.subrange(a as int, i as int).push(
                s@[i as int],
            ));
        }
        i = i + 1;
    }
    out
}

/// One message as a CSV line: the name, then each unit in decimal.
pub open spec fn spec_csv_line(name: Seq<char>, data: Seq<u8>) -> Seq<char>
    decreases data.len(),
{
    if data.len() == 0 {
        name
    } else {
        spec_csv_line(name, data.drop_last()) + seq![','] + dec_str(data.last() as int)
    }
}

/// A message list as CSV text: one line per message, newline-separated.
pub open spec fn spec_csv_text(msgs: Seq<Message>) -> Seq<char>
    decreases msgs.len(),
{
    if msgs.len() == 0 {
        Seq::empty()
    } else if msgs.len() == 1 {
        spec_csv_line(msgs[0].name@, unit_buf(msgs[0].data))
    } else {
        spec_csv_text(msgs.drop_last()) + seq!['\n'] + spec_csv_line(
            msgs.last().name@,
            unit_buf(msgs.last().data),
        )
    }
}

/// Write a message list as CSV text.
pub fn export_csv_messages(messages: &MessageList) -> (r: String)
    ensures
        r@ == spec_csv_text(messages@),
{
    let mut out = String::new();
    let n = messages.len();
    let mut m: usize = 0;
    proof {
        assert(messages@.take(0) =~= Seq::<Message>::empty());
    }
    while m < n
        invariant
            n == messages@.len(),
            m <= n,
            out@ == spec_csv_text(messages@.take(m as int)),
        decreases n - m,
    {
        if m > 0 {
            proof {
                reveal_strlit("\n");
            }
            out.append("\n");
        }
        let msg = &messages[m];
        out.append(msg.name.as_str());
        let ghost line_start = out@;
        let ulen = msg.data.len();
        let mut u: usize = 0;
        proof {
            assert(unit_buf(msg.data).take(0) =~= Seq::<u8>::empty());
        }
        while u < ulen
            invariant
                ulen == unit_buf(msg.data).len(),
                u <= ulen,
                msg == &messages@[m as int],
                out@ == spec_csv_line(Seq::<char>::empty(), unit_buf(msg.data).take(u as int))
                    .subrange(0, 0) + line_start + spec_csv_line(
                    Seq::<char>::empty(),
                    unit_buf(msg.data).take(u as int),
                ),
            decreases ulen - u,
        {
            proof {
                reveal_strlit(",");
            }
            out.append(",");
            push_decimal_u8(&mut out, msg.data.get(u));
            proof {
                assert(unit_buf(msg.data).take(u + 1).drop_last() =~= unit_buf(msg.data).take(
                    u as int,
                ));
                assert(out@ =~= spec_csv_line(Seq::<char>::empty(), unit_buf(msg.data).take(u + 1))
                    .subrange(0, 0) + line_start + spec_csv_line(
                    Seq::<char>::empty(),
                    unit_buf(msg.data).take(u + 1),
                ));
            }
            u = u + 1;
        }
        proof {
            assert(unit_buf(msg.data).take(ulen as int) =~= unit_buf(msg.data));
            assert(messages@.take(m + 1).drop_last() =~= messages@.take(m as int));
            assert(messages@.take(m + 1).last() == messages@[m as int]);
            lemma_csv_line_prefix(messages@[m as int].name@, unit_buf(msg.data));
            if m > 0 {
                assert(out@ =~= spec_csv_text(messages@.take(m + 1)));
            } else {
                assert(out@ =~= spec_csv_text(messages@.take(1)));
            }
        }
        m = m + 1;
    }
    proof {
        assert(messages@.take(n as int) =~= messages@);
    }
    out
}

/// A line is its name followed by the units' cells.
proof fn lemma_csv_line_prefix(name: Seq<char>, data: Seq<u8>)
    ensures
        spec_csv_line(name, data) == name + spec_csv_line(Seq::<char>::empty(), data),
    decreases data.len(),
{
    if data.len() == 0 {
        assert(spec_csv_line(name, data) =~= name + spec_csv_line(Seq::<char>::empty(), data));
    } else {
        lemma_csv_line_prefix(name, data.drop_last());
        assert(spec_csv_line(name, data) =~= name + spec_csv_line(Seq::<char>::empty(), data));
    }
}


/// Relies on `core::str::from_utf8`: it accepts exactly the valid
/// UTF-8 byte strings, and the characters it gives back encode to the
/// input bytes.
#[verifier::external_body]
fn utf8_to_string(bytes: &[u8]) -> (r: Option<String>)
    ensures
        r matches Some(s) ==> vstd::utf8::encode_utf8(s@) == bytes@,
        r is None ==> !vstd::utf8::valid_utf8(bytes@),
{
    match core::str::from_utf8(bytes) {
        Ok(s) => Some(s.to_string()),
        Err(_) => None,
    }
}

/// One unit row of alphabet CSV, against the units accepted so far:
/// the code and grapheme it adds, or the first fault with its column.
/// A row needs exactly three cells; the code must be a decimal byte;
/// the grapheme must be UTF-8, one grapheme cluster, and fresh, at a
/// fresh code, in an alphabet with room.
pub open spec fn spec_alpha_row(
    bytes: Seq<u8>,
    pos: int,
    end: int,
    pairs: Seq<(u8, Seq<char>)>,
) -> Result<(u8, Seq<char>), (InvalidFormatErrorKind, int)> {
    let ce0 = cell_end(bytes, pos, end);
    let c0 = spec_trimmed(bytes, pos, ce0);
    let ncells = cell_count_from(bytes, pos, end);
    if ncells > 3 {
        Err((InvalidFormatErrorKind::UnexpectedDatum, 3))
    } else if ncells < 3 {
        Err((InvalidFormatErrorKind::MissingAlphabetWeight, ncells))
    } else if !is_dec_byte(c0) {
        Err((InvalidFormatErrorKind::InvalidDatum, 0))
    } else {
        let code = byte_dec_value(c0) as u8;
        let c1 = spec_trimmed(bytes, ce0 + 1, cell_end(bytes, ce0 + 1, end));
        if !vstd::utf8::valid_utf8(c1) {
            Err((InvalidFormatErrorKind::InvalidDatum, 1))
        } else {
            let g = vstd::utf8::decode_utf8(c1);
            if pairs.len() >= 256 || grapheme_count(g) != 1 || (exists|i: int|
                0 <= i < pairs.len() && #[trigger] pairs[i].1 == g) || (exists|i: int|
                0 <= i < pairs.len() && #[trigger] pairs[i].0 == code) {
                Err((InvalidFormatErrorKind::BadAlphabetUnit, 1))
            } else {
                Ok((code, g))
            }
        }
    }
}

/// The alphabet a CSV text denotes, from `pos` on, given the name (if
/// its row was seen) and the units accepted so far: the name with
/// every accepted unit, in row order, or the first fault. Blank lines
/// are skipped; the first other row names the alphabet; a file that
/// never names it, or defines no unit, is a fault.
pub open spec fn spec_alpha_from(
    bytes: Seq<u8>,
    pos: int,
    row: int,
    named: Option<Seq<char>>,
    pairs: Seq<(u8, Seq<char>)>,
) -> Result<(Seq<char>, Seq<(u8, Seq<char>)>), InvalidFormatError>
    decreases bytes.len() + 1 - pos,
{
    if !(0 <= pos <= bytes.len()) {
        match named {
            None => Err(
                InvalidFormatError {
                    kind: InvalidFormatErrorKind::MissingAlphabetName,
                    row: row as usize,
                    col: 0,
                },
            ),
            Some(name) => if pairs.len() == 0 {
                Err(
                    InvalidFormatError {
                        kind: InvalidFormatErrorKind::EmptyAlphabet,
                        row: row as usize,
                        col: 0,
                    },
                )
            } else {
                Ok((name, pairs))
            },
        }
    } else {
        let end = line_end(bytes, pos);
        if !(pos <= end <= bytes.len()) {
            Err(
                InvalidFormatError {
                    kind: InvalidFormatErrorKind::MissingAlphabetName,
                    row: row as usize,
                    col: 0,
                },
            )
        } else {
            let ce0 = cell_end(bytes, pos, end);
            let c0 = spec_trimmed(bytes, pos, ce0);
            if cell_count_from(bytes, pos, end) == 1 && c0.len() == 0 {
                spec_alpha_from(bytes, end + 1, row + 1, named, pairs)
            } else {
                match named {
                    None => if !vstd::utf8::valid_utf8(c0) {
                        Err(
                            InvalidFormatError {
                                kind: InvalidFormatErrorKind::InvalidDatum,
                                row: row as usize,
                                col: 0,
                            },
                        )
                    } else {
                        spec_alpha_from(
                            bytes,
                            end + 1,
                            row + 1,
                            Some(vstd::utf8::decode_utf8(c0)),
                            pairs,
                        )
                    },
                    Some(_) => match spec_alpha_row(bytes, pos, end, pairs) {
                        Err((kind, col)) => Err(
                            InvalidFormatError { kind, row: row as usize, col: col as usize },
                        ),
                        Ok(p) => spec_alpha_from(bytes, end + 1, row + 1, named, pairs.push(p)),
                    },
                }
            }
        }
    }
}

/// What alphabet CSV denotes: the name and the accepted units, or the
/// first fault.
pub open spec fn spec_csv_alphabet(bytes: Seq<u8>) -> Result<
    (Seq<char>, Seq<(u8, Seq<char>)>),
    InvalidFormatError,
> {
    spec_alpha_from(bytes, 0, 0, None, Seq::empty())
}

/// Parse an alphabet CSV: a name row, then `code,grapheme,weight`
/// rows. The grapheme must be one grapheme cluster, codes and
/// graphemes must be fresh; the weight cell must be present, though
/// what it holds is left to frequency analysis. The outcome is exactly
/// what `spec_csv_alphabet` gives the bytes: on success the alphabet
/// holds the accepted units and nothing else.
pub fn parse_csv_alphabet(csv: &[u8]) -> (r: Result<Alphabet, InvalidFormatError>)
    requires
        csv@.len() < usize::MAX,
    ensures
        match r {
            Ok(a) => {
                &&& a.wf() && a.spec_len() > 0
                &&& spec_csv_alphabet(csv@) matches Ok((name, pairs)) && a.name_spec() == name
                    && a.spec_len() == pairs.len() && (forall|i: int|
                    0 <= i < pairs.len() ==> a.has_unit(#[trigger] pairs[i].0 as int)
                        && a.grapheme_at(pairs[i].0 as int) == pairs[i].1) && (forall|u: int|
                    0 <= u < 256 && #[trigger] a.has_unit(u) ==> exists|i: int|
                        0 <= i < pairs.len() && #[trigger] (pairs[i].0 as int) == u)
            },
            Err(e) => spec_csv_alphabet(csv@) == Err::<
                (Seq<char>, Seq<(u8, Seq<char>)>),
                InvalidFormatError,
            >(e),
        },
{
    let mut alphabet: Option<Alphabet> = None;
    let ghost mut pairs: Seq<(u8, Seq<char>)> = Seq::empty();
    let n = csv.len();
    let mut pos: usize = 0;
    let mut row: usize = 0;
    while pos <= n
        invariant
            n == csv@.len(),
            n < usize::MAX,
            pos <= n + 1,
            row <= pos,
            match alphabet {
                Some(a) => {
                    &&& a.wf()
                    &&& a.spec_len() == pairs.len()
                    &&& pairs.len() <= 256
                    &&& forall|i: int|
                        0 <= i < pairs.len() ==> a.has_unit(#[trigger] pairs[i].0 as int)
                            && a.grapheme_at(pairs[i].0 as int) == pairs[i].1
                            && pairs[i].1.len() > 0
                    &&& forall|u: int|
                        0 <= u < 256 && #[trigger] a.has_unit(u) ==> exists|i: int|
                            0 <= i < pairs.len() && #[trigger] (pairs[i].0 as int) == u
                },
                None => pairs.len() == 0,
            },
            spec_csv_alphabet(csv@) == spec_alpha_from(
                csv@,
                pos as int,
                row as int,
                match alphabet {
                    Some(a) => Some(a.name_spec()),
                    None => None::<Seq<char>>,
                },
                pairs,
            ),
        decreases n + 1 - pos,
    {
        let mut end = pos;
        while end < n && csv[end] != 10
            invariant
                n == csv@.len(),
                pos <= end <= n,
                line_end(csv@, pos as int) == line_end(csv@, end as int),
            decreases n - end,
        {
            end = end + 1;
        }
        proof {
            assert(line_end(csv@, end as int) == end);
        }
        // The first cell, trimmed.
        let mut ce = pos;
        while ce < end && csv[ce] != 44
            invariant
                n == csv@.len(),
                pos <= ce <= end <= n,
                cell_end(csv@, pos as int, end as int) == cell_end(csv@, ce as int, end as int),
            decreases end - ce,
        {
            ce = ce + 1;
        }
        proof {
            assert(cell_end(csv@, ce as int, end as int) == ce);
        }
        let mut a = pos;
        let mut b = ce;
        while a < b && (csv[a] == 32 || csv[a] == 9 || csv[a] == 13)
            invariant
                n == csv@.len(),
                pos <= a <= b <= n,
                b == ce,
                trim_left(csv@, pos as int, ce as int) == trim_left(csv@, a as int, ce as int),
            decreases b - a,
        {
            a = a + 1;
        }
        proof {
            assert(trim_left(csv@, a as int, ce as int) == a);
        }
        while b > a && (csv[b - 1] == 32 || csv[b - 1] == 9 || csv[b - 1] == 13)
            invariant
                n == csv@.len(),
                a <= b <= ce <= n,
                trim_right(csv@, a as int, ce as int) == trim_right(csv@, a as int, b as int),
            decreases b,
        {
            b = b - 1;
        }
        proof {
            assert(trim_right(csv@, a as int, b as int) == b);
            assert(csv@.subrange(a as int, b as int) == spec_trimmed(
                csv@,
                pos as int,
                ce as int,
            ));
        }
        // Count the cells and keep the second one's trimmed bounds.
        let mut ncells: usize = 1;
        let mut c1a: usize = 0;
        let mut c1b: usize = 0;
        let mut more = ce < end;
        let mut cs = ce + 1;
        while more
            invariant
                n == csv@.len(),
                n < usize::MAX,
                pos <= ce <= end <= n,
                cell_end(csv@, pos as int, end as int) == ce,
                more ==> ce < cs <= end,
                ncells == 1 ==> cs == ce + 1,
                1 <= ncells <= cs,
                cell_count_from(csv@, pos as int, end as int) == ncells + (if more {
                    cell_count_from(csv@, cs as int, end as int)
                } else {
                    0int
                }),
                ncells >= 2 ==> (ce < end && c1a <= c1b <= n && csv@.subrange(
                    c1a as int,
                    c1b as int,
                ) == spec_trimmed(csv@, ce as int + 1, cell_end(csv@, ce as int + 1, end as int))),
            decreases end + 1 - cs,
        {
            let mut ce2 = cs;
            while ce2 < end && csv[ce2] != 44
                invariant
                    n == csv@.len(),
                    cs <= ce2 <= end <= n,
                    cell_end(csv@, cs as int, end as int) == cell_end(
                        csv@,
                        ce2 as int,
                        end as int,
                    ),
                decreases end - ce2,
            {
                ce2 = ce2 + 1;
            }
            proof {
                assert(cell_end(csv@, ce2 as int, end as int) == ce2);
            }
            let mut a2 = cs;
            let mut b2 = ce2;
            while a2 < b2 && (csv[a2] == 32 || csv[a2] == 9 || csv[a2] == 13)
                invariant
                    n == csv@.len(),
                    cs <= a2 <= b2 <= n,
                    b2 == ce2,
                    trim_left(csv@, cs as int, ce2 as int) == trim_left(
                        csv@,
                        a2 as int,
                        ce2 as int,
                    ),
                decreases b2 - a2,
            {
                a2 = a2 + 1;
            }
            proof {
                assert(trim_left(csv@, a2 as int, ce2 as int) == a2);
            }
            while b2 > a2 && (csv[b2 - 1] == 32 || csv[b2 - 1] == 9 || csv[b2 - 1] == 13)
                invariant
                    n == csv@.len(),
                    a2 <= b2 <= ce2 <= n,
                    trim_right(csv@, a2 as int, ce2 as int) == trim_right(
                        csv@,
                        a2 as int,
                        b2 as int,
                    ),
                decreases b2,
            {
                b2 = b2 - 1;
            }
            proof {
                assert(trim_right(csv@, a2 as int, b2 as int) == b2);
            }
            if ncells == 1 {
                c1a = a2;
                c1b = b2;
                proof {
                    assert(csv@.subrange(a2 as int, b2 as int) == spec_trimmed(
                        csv@,
                        cs as int,
                        ce2 as int,
                    ));
                }
            }
            ncells = ncells + 1;
            more = ce2 < end;
            cs = ce2 + 1;
        }
        // A blank row: one empty cell.
        if ncells == 1 && a == b {
            row = row + 1;
            pos = end + 1;
            continue ;
        }
        let named = alphabet.is_some();
        if !named {
            let c0 = slice_range(csv, a, b);
            match utf8_to_string(c0.as_slice()) {
                Some(name) => {
                    proof {
                        vstd::utf8::encode_utf8_valid_utf8(name@);
                        vstd::utf8::encode_utf8_decode_utf8(name@);
                    }
                    alphabet = Some(Alphabet::new(name));
                },
                None => {
                    return Err(
                        InvalidFormatError {
                            kind: InvalidFormatErrorKind::InvalidDatum,
                            row,
                            col: 0,
                        },
                    );
                },
            }
        } else {
            if ncells > 3 {
                return Err(
                    InvalidFormatError {
                        kind: InvalidFormatErrorKind::UnexpectedDatum,
                        row,
                        col: 3,
                    },
                );
            }
            if ncells < 3 {
                return Err(
                    InvalidFormatError {
                        kind: InvalidFormatErrorKind::MissingAlphabetWeight,
                        row,
                        col: ncells,
                    },
                );
            }
            let c0 = slice_range(csv, a, b);
            let code = match parse_dec_byte(c0.as_slice()) {
                Some(c) => c,
                None => {
                    return Err(
                        InvalidFormatError {
                            kind: InvalidFormatErrorKind::InvalidDatum,
                            row,
                            col: 0,
                        },
                    );
                },
            };
            let c1 = slice_range(csv, c1a, c1b);
            let grapheme = match utf8_to_string(c1.as_slice()) {
                Some(g) => g,
                None => {
                    return Err(
                        InvalidFormatError {
                            kind: InvalidFormatErrorKind::InvalidDatum,
                            row,
                            col: 1,
                        },
                    );
                },
            };
            proof {
                vstd::utf8::encode_utf8_valid_utf8(grapheme@);
                vstd::utf8::encode_utf8_decode_utf8(grapheme@);
            }
            let ghost gv = grapheme@;
            let alpha = match &mut alphabet {
                Some(alpha) => alpha,
                None => {
                    proof {
                        assert(false);
                    }
                    return Err(
                        InvalidFormatError {
                            kind: InvalidFormatErrorKind::MissingAlphabetName,
                            row,
                            col: 0,
                        },
                    );
                },
            };
            let ghost prev = *alpha;
            match alpha.add_unit(code, grapheme) {
                Ok(_) => {
                    proof {
                        assert(!(exists|i: int|
                            0 <= i < pairs.len() && #[trigger] pairs[i].0 == code)) by {
                            if exists|i: int|
                                0 <= i < pairs.len() && #[trigger] pairs[i].0 == code {
                                let i = choose|i: int|
                                    0 <= i < pairs.len() && #[trigger] pairs[i].0 == code;
                                assert(prev.has_unit(pairs[i].0 as int));
                            }
                        }
                        assert(!(exists|i: int|
                            0 <= i < pairs.len() && #[trigger] pairs[i].1 == gv)) by {
                            if exists|i: int| 0 <= i < pairs.len() && #[trigger] pairs[i].1 == gv {
                                let i = choose|i: int|
                                    0 <= i < pairs.len() && #[trigger] pairs[i].1 == gv;
                                let u = pairs[i].0 as int;
                                assert(prev.has_unit(u) && prev.grapheme_at(u) == gv);
                                assert(alpha.has_unit(u) && alpha.grapheme_at(u) == gv);
                                crate::alphabet::lemma_printable_grapheme_unique(
                                    alpha,
                                    u,
                                    code as int,
                                );
                            }
                        }
                        let prevpairs = pairs;
                        pairs = pairs.push((code, gv));
                        assert forall|i: int| 0 <= i < pairs.len() implies alpha.has_unit(
                            #[trigger] pairs[i].0 as int,
                        ) && alpha.grapheme_at(pairs[i].0 as int) == pairs[i].1
                            && pairs[i].1.len() > 0 by {
                            if i < prevpairs.len() {
                                assert(prev.has_unit(pairs[i].0 as int));
                                if pairs[i].0 != code {
                                    assert(alpha.grapheme_at(pairs[i].0 as int)
                                        == prev.grapheme_at(pairs[i].0 as int));
                                }
                            }
                        }
                        assert forall|u: int| 0 <= u < 256 && #[trigger] alpha.has_unit(
                            u,
                        ) implies exists|i: int|
                            0 <= i < pairs.len() && #[trigger] (pairs[i].0 as int) == u by {
                            if u == code as int {
                                assert(pairs[pairs.len() - 1].0 as int == u);
                            } else {
                                assert(prev.has_unit(u));
                                let i = choose|i: int|
                                    0 <= i < prevpairs.len() && #[trigger] (prevpairs[i].0 as int)
                                        == u;
                                assert(pairs[i].0 as int == u);
                            }
                        }
                    }
                },
                Err(_) => {
                    proof {
                        if prev.spec_len() < 256 && grapheme_count(gv) == 1 {
                            if exists|u: int|
                                0 <= u < 256 && prev.has_unit(u) && #[trigger] prev.grapheme_at(u)
                                    == gv {
                                let u = choose|u: int|
                                    0 <= u < 256 && prev.has_unit(u)
                                        && #[trigger] prev.grapheme_at(u) == gv;
                                let i = choose|i: int|
                                    0 <= i < pairs.len() && #[trigger] (pairs[i].0 as int) == u;
                                assert(pairs[i].1 == gv);
                            } else if prev.has_unit(code as int) {
                                let i = choose|i: int|
                                    0 <= i < pairs.len() && #[trigger] (pairs[i].0 as int)
                                        == code as int;
                                assert(pairs[i].0 == code);
                            }
                        }
                    }
                    return Err(
                        InvalidFormatError {
                            kind: InvalidFormatErrorKind::BadAlphabetUnit,
                            row,
                            col: 1,
                        },
                    );
                },
            }
        }
        row = row + 1;
        pos = end + 1;
    }
    match alphabet {
        Some(alphabet) => {
            if alphabet.len() == 0 {
                Err(InvalidFormatError { kind: InvalidFormatErrorKind::EmptyAlphabet, row, col: 0 })
            } else {
                Ok(alphabet)
            }
        },
        None => Err(
            InvalidFormatError { kind: InvalidFormatErrorKind::MissingAlphabetName, row, col: 0 },
        ),
    }
}


/// The units a line of plain text keeps: its grapheme clusters in
/// order, each mapped to the printable unit that carries it, unknown
/// clusters dropped.
pub open spec fn spec_txt_units(alpha: Alphabet, gs: Seq<Seq<char>>) -> Seq<u8>
    decreases gs.len(),
{
    if gs.len() == 0 {
        Seq::empty()
    } else {
        spec_txt_units(alpha, gs.drop_last()) + (if exists|u: int|
            0 <= u < 256 && alpha.has_unit(u) && #[trigger] alpha.grapheme_at(u) == gs.last()
                && gs.last().len() > 0 {
            seq![
                (choose|u: int|
                    0 <= u < 256 && alpha.has_unit(u) && #[trigger] alpha.grapheme_at(u)
                        == gs.last() && gs.last().len() > 0) as u8,
            ]
        } else {
            Seq::empty()
        })
    }
}

/// The rows of plain text from `pos` on: each line's kept units, or
/// the first fault. One empty final line is skipped; any other line
/// must be UTF-8 and keep at least one unit.
pub open spec fn spec_txt_msgs_from(bytes: Seq<u8>, alpha: Alphabet, pos: int, row: int) -> Result<
    Seq<Seq<u8>>,
    InvalidFormatError,
>
    decreases bytes.len() + 1 - pos,
{
    if !(0 <= pos <= bytes.len()) {
        Ok(Seq::empty())
    } else {
        let end = line_end(bytes, pos);
        if !(pos <= end <= bytes.len()) {
            Ok(Seq::empty())
        } else if pos == end && end == bytes.len() {
            spec_txt_msgs_from(bytes, alpha, end + 1, row)
        } else {
            let line = bytes.subrange(pos, end);
            if !vstd::utf8::valid_utf8(line) {
                Err(
                    InvalidFormatError {
                        kind: InvalidFormatErrorKind::InvalidDatum,
                        row: row as usize,
                        col: 0,
                    },
                )
            } else {
                let units = spec_txt_units(alpha, grapheme_split(vstd::utf8::decode_utf8(line)));
                if units.len() == 0 {
                    Err(
                        InvalidFormatError {
                            kind: InvalidFormatErrorKind::EmptyMessage,
                            row: row as usize,
                            col: 0,
                        },
                    )
                } else {
                    match spec_txt_msgs_from(bytes, alpha, end + 1, row + 1) {
                        Err(e) => Err(e),
                        Ok(rest) => Ok(seq![units] + rest),
                    }
                }
            }
        }
    }
}

/// What plain-text messages denote: each line's kept units, or the
/// first fault; a file with no message lines at all is a fault.
pub open spec fn spec_txt_messages(bytes: Seq<u8>, alpha: Alphabet) -> Result<
    Seq<Seq<u8>>,
    InvalidFormatError,
> {
    match spec_txt_msgs_from(bytes, alpha, 0, 0) {
        Err(e) => Err(e),
        Ok(rows) => if rows.len() == 0 {
            Err(InvalidFormatError { kind: InvalidFormatErrorKind::NoMessages, row: 0, col: 0 })
        } else {
            Ok(rows)
        },
    }
}

/// Parse plain-text messages: each line is one message, cut into
/// grapheme clusters; a cluster the alphabet does not know is dropped.
/// Messages are named `message-0`, `message-1` and so on. A line that
/// is not UTF-8 or keeps no unit is rejected, as is a file with no
/// messages; one empty final line is allowed and skipped. The outcome
/// is exactly what `spec_txt_messages` gives the bytes.
pub fn parse_txt_messages(txt: &[u8], alphabet: &Alphabet) -> (r: Result<
    MessageList,
    InvalidFormatError,
>)
    requires
        alphabet.wf(),
        txt@.len() < usize::MAX,
    ensures
        match r {
            Ok(msgs) => {
                &&& msgs@.len() > 0
                &&& forall|m: int, u: int|
                    0 <= m < msgs@.len() && 0 <= u < unit_buf(#[trigger] msgs@[m].data).len()
                        ==> alphabet.has_unit(#[trigger] unit_buf(msgs@[m].data)[u] as int)
                &&& forall|m: int|
                    0 <= m < msgs@.len() ==> (#[trigger] msgs@[m].name)@.len() > 0
                &&& forall|m: int| 0 <= m < msgs@.len() ==> unit_buf(#[trigger] msgs@[m].data).len() > 0
                &&& spec_txt_messages(txt@, *alphabet) matches Ok(rows) && rows.len()
                    == msgs@.len() && (forall|m: int|
                    0 <= m < msgs@.len() ==> unit_buf(#[trigger] msgs@[m].data) == rows[m]
                        && msgs@[m].name@ == "message-"@ + dec_str(m))
            },
            Err(e) => spec_txt_messages(txt@, *alphabet) == Err::<Seq<Seq<u8>>, InvalidFormatError>(
                e,
            ),
        },
{
    let mut messages: MessageList = Vec::new();
    let ghost mut done: Seq<Seq<u8>> = Seq::empty();
    let n = txt.len();
    let mut pos: usize = 0;
    let mut row: usize = 0;
    proof {
        assert forall|rest: Seq<Seq<u8>>| true implies Seq::<Seq<u8>>::empty() + rest == rest by {
            assert(Seq::<Seq<u8>>::empty() + rest =~= rest);
        }
    }
    while pos <= n
        invariant
            alphabet.wf(),
            n == txt@.len(),
            n < usize::MAX,
            pos <= n + 1,
            row <= pos,
            row == messages@.len(),
            done.len() == messages@.len(),
            forall|m: int|
                0 <= m < messages@.len() ==> unit_buf(#[trigger] messages@[m].data) == done[m],
            forall|m: int|
                0 <= m < messages@.len() ==> (#[trigger] messages@[m].name)@ == "message-"@
                    + dec_str(m),
            forall|m: int, u: int|
                0 <= m < messages@.len() && 0 <= u < unit_buf(#[trigger] messages@[m].data).len()
                    ==> alphabet.has_unit(#[trigger] unit_buf(messages@[m].data)[u] as int),
            forall|m: int|
                0 <= m < messages@.len() ==> (#[trigger] messages@[m].name)@.len() > 0,
            forall|m: int|
                0 <= m < messages@.len() ==> unit_buf(#[trigger] messages@[m].data).len() > 0,
            spec_txt_msgs_from(txt@, *alphabet, 0, 0) == (match spec_txt_msgs_from(
                txt@,
                *alphabet,
                pos as int,
                row as int,
            ) {
                Err(e) => Err::<Seq<Seq<u8>>, InvalidFormatError>(e),
                Ok(rest) => Ok(done + rest),
            }),
        decreases n + 1 - pos,
    {
        let mut end = pos;
        while end < n && txt[end] != 10
            invariant
                n == txt@.len(),
                pos <= end <= n,
                line_end(txt@, pos as int) == line_end(txt@, end as int),
            decreases n - end,
        {
            end = end + 1;
        }
        proof {
            assert(line_end(txt@, end as int) == end);
        }
        if pos == end && end == n {
            // One empty final line, from a trailing line break.
            pos = end + 1;
            continue ;
        }
        let line = slice_range(txt, pos, end);
        let text = match utf8_to_string(line.as_slice()) {
            Some(t) => t,
            None => {
                return Err(
                    InvalidFormatError { kind: InvalidFormatErrorKind::InvalidDatum, row, col: 0 },
                );
            },
        };
        proof {
            vstd::utf8::encode_utf8_valid_utf8(text@);
            vstd::utf8::encode_utf8_decode_utf8(text@);
            assert(vstd::utf8::valid_utf8(txt@.subrange(pos as int, end as int)));
            assert(vstd::utf8::decode_utf8(txt@.subrange(pos as int, end as int)) == text@);
        }
        let graphemes = graphemes_of(text.as_str());
        let ghost gviews = graphemes@.map_values(|s: String| s@);
        proof {
            assert(gviews == grapheme_split(text@));
            assert(gviews.take(0) =~= Seq::<Seq<char>>::empty());
        }
        let mut data = UnitBuf::new();
        let gcount = graphemes.len();
        let mut g: usize = 0;
        while g < gcount
            invariant
                alphabet.wf(),
                gcount == graphemes@.len(),
                gviews == graphemes@.map_values(|s: String| s@),
                g <= gcount,
                unit_buf(data).len() <= g,
                unit_buf(data) == spec_txt_units(*alphabet, gviews.take(g as int)),
                forall|u: int|
                    0 <= u < unit_buf(data).len() ==> alphabet.has_unit(
                        #[trigger] unit_buf(data)[u] as int,
                    ),
            decreases gcount - g,
        {
            let ghost prev_data = unit_buf(data);
            proof {
                assert(gviews.take(g + 1).drop_last() =~= gviews.take(g as int));
                assert(gviews.take(g + 1).last() == gviews[g as int]);
                assert(graphemes@[g as int]@ == gviews[g as int]);
            }
            match alphabet.get_unit_idx(&graphemes[g]) {
                Some(unit) => {
                    data.push(unit);
                    proof {
                        let gl = gviews[g as int];
                        assert(alphabet.has_unit(unit as int) && alphabet.grapheme_at(unit as int)
                            == gl && gl.len() > 0);
                        let u2 = choose|u: int|
                            0 <= u < 256 && alphabet.has_unit(u) && #[trigger] alphabet.grapheme_at(
                                u,
                            ) == gl && gl.len() > 0;
                        if u2 != unit as int {
                            crate::alphabet::lemma_printable_grapheme_unique(
                                alphabet,
                                u2,
                                unit as int,
                            );
                        }
                        assert(unit_buf(data) =~= prev_data + seq![unit]);
                        assert(spec_txt_units(*alphabet, gviews.take(g + 1)) == prev_data + seq![
                            unit,
                        ]);
                    }
                },
                None => {
                    proof {
                        let gl = gviews[g as int];
                        if exists|u: int|
                            0 <= u < 256 && alphabet.has_unit(u) && #[trigger] alphabet.grapheme_at(
                                u,
                            ) == gl && gl.len() > 0 {
                            let u2 = choose|u: int|
                                0 <= u < 256 && alphabet.has_unit(u)
                                    && #[trigger] alphabet.grapheme_at(u) == gl && gl.len() > 0;
                            assert(alphabet.grapheme_at(u2).len() > 0);
                            assert(false);
                        }
                        assert(prev_data + Seq::<u8>::empty() =~= prev_data);
                        assert(spec_txt_units(*alphabet, gviews.take(g + 1)) == prev_data);
                    }
                },
            }
            g = g + 1;
        }
        proof {
            assert(gviews.take(gcount as int) =~= gviews);
        }
        if data.len() == 0 {
            return Err(
                InvalidFormatError { kind: InvalidFormatErrorKind::EmptyMessage, row, col: 0 },
            );
        }
        let mut name = String::new();
        proof {
            reveal_strlit("message-");
        }
        name.append("message-");
        proof {
            assert(name@.len() == 8);
            assert(name@ == "message-"@);
        }
        push_decimal_usize(&mut name, messages.len());
        let ghost prev = messages@;
        let ghost prevdone = done;
        let ghost newunits = unit_buf(data);
        messages.push(Message { name, data });
        proof {
            done = done.push(newunits);
            assert(forall|m: int| 0 <= m < prev.len() ==> #[trigger] messages@[m] == prev[m]);
            assert forall|rest: Seq<Seq<u8>>|
                true implies prevdone + (seq![newunits] + rest) == done + rest by {
                assert(prevdone + (seq![newunits] + rest) =~= done + rest);
            }
        }
        row = row + 1;
        pos = end + 1;
    }
    proof {
        assert(done + Seq::<Seq<u8>>::empty() =~= done);
        assert(spec_txt_msgs_from(txt@, *alphabet, 0, 0) == Ok::<Seq<Seq<u8>>, InvalidFormatError>(
            done,
        ));
    }
    if messages.len() == 0 {
        return Err(InvalidFormatError { kind: InvalidFormatErrorKind::NoMessages, row, col: 0 });
    }
    Ok(messages)
}

} // verus!
