//! Unit counting and frequency comparison. Occurrences of each unit
//! are counted exactly; frequencies are fixed-point fractions of
//! `FREQ_SCALE`; distributions are compared by the L1 distance of
//! their descending-sorted frequency vectors, so that which unit had
//! which frequency plays no part.

use crate::messages::{data_list_view, messages_data, InterleavedMessageData, MessageDataList, MessageList};
use crate::expr::abs_int;
use crate::smallbuf::unit_buf;
use vstd::arithmetic::div_mod::{lemma_div_is_ordered, lemma_div_multiples_vanish};
use vstd::arithmetic::mul::lemma_mul_inequality;
use vstd::prelude::*;
use vstd::relations::{sorted_by, total_ordering};
use vstd::seq_lib::lemma_sorted_unique;

verus! {

/// Number of unit codes.
pub const MAX_UNITS: usize = 256;

/// One unit of frequency weight: fixed-point denominator.
pub const FREQ_SCALE: i64 = 1_000_000_000;

/// How many times byte `b` occurs in one message.
pub open spec fn count_byte(s: Seq<u8>, b: u8) -> int
    decreases s.len(),
{
    if s.len() == 0 {
        0
    } else {
        count_byte(s.drop_last(), b) + (if s.last() == b {
            1int
        } else {
            0int
        })
    }
}

/// How many times byte `b` occurs over a message list.
pub open spec fn total_count(msgs: Seq<Seq<u8>>, b: u8) -> int
    decreases msgs.len(),
{
    if msgs.len() == 0 {
        0
    } else {
        total_count(msgs.drop_last(), b) + count_byte(msgs.last(), b)
    }
}

/// Units over a whole message list.
pub open spec fn total_len(msgs: Seq<Seq<u8>>) -> int
    decreases msgs.len(),
{
    if msgs.len() == 0 {
        0
    } else {
        total_len(msgs.drop_last()) + msgs.last().len()
    }
}

/// A byte occurs at most as often as the message is long.
proof fn lemma_count_byte_le_len(s: Seq<u8>, b: u8)
    ensures
        0 <= count_byte(s, b) <= s.len(),
    decreases s.len(),
{
    if s.len() > 0 {
        lemma_count_byte_le_len(s.drop_last(), b);
    }
}

/// A byte occurs at most as often as all messages are long together.
proof fn lemma_total_count_le_len(msgs: Seq<Seq<u8>>, b: u8)
    ensures
        0 <= total_count(msgs, b) <= total_len(msgs),
    decreases msgs.len(),
{
    if msgs.len() > 0 {
        lemma_total_count_le_len(msgs.drop_last(), b);
        lemma_count_byte_le_len(msgs.last(), b);
    }
}

/// Counting one more unit bumps exactly its own bucket.
proof fn lemma_count_byte_step(s: Seq<u8>, u: int, b: u8)
    requires
        0 <= u < s.len(),
    ensures
        count_byte(s.take(u + 1), b) == count_byte(s.take(u), b) + (if s[u] == b {
            1int
        } else {
            0int
        }),
{
    assert(s.take(u + 1).drop_last() =~= s.take(u));
    assert(s.take(u + 1).last() == s[u]);
}

/// Finishing one message moves its count from the partial to the done
/// column.
proof fn lemma_total_count_step(msgs: Seq<Seq<u8>>, m: int, b: u8)
    requires
        0 <= m < msgs.len(),
    ensures
        total_count(msgs.take(m + 1), b) == total_count(msgs.take(m), b) + count_byte(msgs[m], b),
        total_len(msgs.take(m + 1)) == total_len(msgs.take(m)) + msgs[m].len(),
{
    assert(msgs.take(m + 1).drop_last() =~= msgs.take(m));
    assert(msgs.take(m + 1).last() == msgs[m]);
}

/// The total occurrences of every unit over a collection of messages:
/// entry `b` is how many times unit `b` occurs.
pub struct UnitTotals {
    pub data: Vec<usize>,
}

impl UnitTotals {
    /// The counts are exactly the occurrences over `msgs`.
    pub open spec fn matches(&self, msgs: Seq<Seq<u8>>) -> bool {
        &&& self.data@.len() == 256
        &&& forall|b: int| 0 <= b < 256 ==> self.data@[b] == total_count(msgs, b as u8)
    }

    /// Count the units of a list of bare message data.
    pub fn from_message_data_list(message_data_list: &MessageDataList) -> (r: UnitTotals)
        requires
            total_len(data_list_view(message_data_list@)) <= usize::MAX,
        ensures
            r.matches(data_list_view(message_data_list@)),
    {
        let ghost msgs = data_list_view(message_data_list@);
        let mut data: Vec<usize> = Vec::new();
        let mut z: usize = 0;
        while z < 256
            invariant
                data@.len() == z <= 256,
                forall|b: int| 0 <= b < z ==> data@[b] == 0,
            decreases 256 - z,
        {
            data.push(0);
            z = z + 1;
        }
        proof {
            assert(msgs.take(0) =~= Seq::<Seq<u8>>::empty());
        }
        let mut m: usize = 0;
        let mcount = message_data_list.len();
        while m < mcount
            invariant
                mcount == msgs.len(),
                m <= mcount,
                msgs == data_list_view(message_data_list@),
                total_len(msgs) <= usize::MAX,
                data@.len() == 256,
                forall|b: int|
                    0 <= b < 256 ==> data@[b] == total_count(msgs.take(m as int), b as u8),
            decreases mcount - m,
        {
            let buf = &message_data_list[m];
            let ulen = buf.len();
            proof {
                assert(unit_buf(*buf) == msgs[m as int]);
                assert(msgs[m as int].take(0) =~= Seq::<u8>::empty());
            }
            let mut u: usize = 0;
            while u < ulen
                invariant
                    mcount == msgs.len(),
                    m < mcount,
                    u <= ulen,
                    msgs == data_list_view(message_data_list@),
                    total_len(msgs) <= usize::MAX,
                    unit_buf(*buf) == msgs[m as int],
                    buf == &message_data_list@[m as int],
                    ulen == msgs[m as int].len(),
                    data@.len() == 256,
                    forall|b: int|
                        0 <= b < 256 ==> data@[b] == total_count(msgs.take(m as int), b as u8)
                            + count_byte(msgs[m as int].take(u as int), b as u8),
                decreases ulen - u,
            {
                let c = buf.get(u);
                proof {
                    lemma_counting_headroom(msgs, m as int, u as int, c);
                    assert forall|b: int| 0 <= b < 256 implies total_count(msgs.take(m as int), b as u8)
                        + #[trigger] count_byte(msgs[m as int].take(u + 1), b as u8) == data@[b] + (
                    if b == c as int {
                        1int
                    } else {
                        0int
                    }) by {
                        lemma_count_byte_step(msgs[m as int], u as int, b as u8);
                    }
                }
                let old_val = data[c as usize];
                data.set(c as usize, old_val + 1);
                u = u + 1;
            }
            proof {
                assert(msgs[m as int].take(ulen as int) =~= msgs[m as int]);
                assert forall|b: int| 0 <= b < 256 implies #[trigger] total_count(
                    msgs.take(m + 1),
                    b as u8,
                ) == total_count(msgs.take(m as int), b as u8) + count_byte(
                    msgs[m as int],
                    b as u8,
                ) by {
                    lemma_total_count_step(msgs, m as int, b as u8);
                }
            }
            m = m + 1;
        }
        proof {
            assert(msgs.take(mcount as int) =~= msgs);
        }
        UnitTotals { data }
    }

    /// Count the units of a named message list.
    pub fn from_messages(messages: &MessageList) -> (r: UnitTotals)
        requires
            total_len(messages_data(messages@)) <= usize::MAX,
        ensures
            r.matches(messages_data(messages@)),
    {
        let mut datas: MessageDataList = Vec::new();
        let mut m: usize = 0;
        let mcount = messages.len();
        while m < mcount
            invariant
                mcount == messages@.len(),
                m <= mcount,
                datas@.len() == m,
                forall|i: int|
                    0 <= i < m ==> unit_buf(#[trigger] datas@[i]) == unit_buf(
                        messages@[i].data,
                    ),
            decreases mcount - m,
        {
            datas.push(messages[m].data.clone());
            m = m + 1;
        }
        proof {
            assert(data_list_view(datas@) =~= messages_data(messages@));
        }
        UnitTotals::from_message_data_list(&datas)
    }

    /// Count the units of interleaved message data.
    pub fn from_interleaved_message_data(imd: &InterleavedMessageData) -> (r: UnitTotals)
        requires
            imd.wf(),
            total_len(imd@) <= usize::MAX,
        ensures
            r.matches(imd@),
    {
        let mut datas: MessageDataList = Vec::new();
        let mut m: usize = 0;
        let mcount = imd.get_message_count();
        while m < mcount
            invariant
                imd.wf(),
                mcount == imd@.len(),
                m <= mcount,
                datas@.len() == m,
                forall|i: int| 0 <= i < m ==> unit_buf(#[trigger] datas@[i]) == imd@[i],
            decreases mcount - m,
        {
            let ulen = imd.get_unit_count(m);
            let mut buf = crate::smallbuf::UnitBuf::new();
            let mut u: usize = 0;
            while u < ulen
                invariant
                    imd.wf(),
                    m < imd@.len(),
                    u <= ulen,
                    ulen == imd@[m as int].len(),
                    unit_buf(buf) == imd@[m as int].take(u as int),
                decreases ulen - u,
            {
                buf.push(imd.get_unit(m, u));
                proof {
                    assert(imd@[m as int].take(u + 1) =~= imd@[m as int].take(u as int).push(
                        imd@[m as int][u as int],
                    ));
                }
                u = u + 1;
            }
            proof {
                assert(imd@[m as int].take(ulen as int) =~= imd@[m as int]);
            }
            datas.push(buf);
            m = m + 1;
        }
        proof {
            assert(data_list_view(datas@) =~= imd@);
        }
        UnitTotals::from_message_data_list(&datas)
    }
}

/// There is room to count one more unit: the done and partial columns
/// together stay under the total.
proof fn lemma_counting_headroom(msgs: Seq<Seq<u8>>, m: int, u: int, c: u8)
    requires
        0 <= m < msgs.len(),
        0 <= u < msgs[m].len(),
    ensures
        total_count(msgs.take(m), c) + count_byte(msgs[m].take(u), c) < total_len(msgs),
    decreases msgs.len(),
{
    lemma_total_count_le_len(msgs.take(m), c);
    lemma_count_byte_le_len(msgs[m].take(u), c);
    lemma_total_len_parts(msgs, m);
}

/// The units before message `m` plus message `m`'s own are at most the
/// total.
proof fn lemma_total_len_parts(msgs: Seq<Seq<u8>>, m: int)
    requires
        0 <= m < msgs.len(),
    ensures
        total_len(msgs.take(m)) + msgs[m].len() <= total_len(msgs),
    decreases msgs.len(),
{
    if m == msgs.len() - 1 {
        assert(msgs.take(m) =~= msgs.drop_last());
        lemma_total_len_nonneg(msgs.drop_last());
    } else {
        assert(msgs.drop_last().take(m) =~= msgs.take(m));
        assert(msgs.drop_last()[m] == msgs[m]);
        lemma_total_len_parts(msgs.drop_last(), m);
    }
}

proof fn lemma_total_len_nonneg(msgs: Seq<Seq<u8>>)
    ensures
        total_len(msgs) >= 0,
    decreases msgs.len(),
{
    if msgs.len() > 0 {
        lemma_total_len_nonneg(msgs.drop_last());
    }
}

/// Frequencies ordered largest first.
pub open spec fn desc_leq() -> spec_fn(i64, i64) -> bool {
    |x: i64, y: i64| x >= y
}

/// Counts as fixed-point frequencies: bucket `b` holds
/// `counts[b] * FREQ_SCALE / total`, or zero when there are no units.
pub open spec fn scale_counts(counts: Seq<usize>, total: int) -> Seq<i64> {
    Seq::new(
        256,
        |b: int|
            if total == 0 {
                0i64
            } else {
                ((counts[b] * FREQ_SCALE) / total) as i64
            },
    )
}

/// The frequency vector a distribution is compared by: scaled, then
/// sorted descending.
pub open spec fn sorted_freqs(counts: Seq<usize>, total: int) -> Seq<i64> {
    scale_counts(counts, total).sort_by(desc_leq())
}

/// L1 distance of two vectors.
pub open spec fn l1_dist(a: Seq<i64>, b: Seq<i64>) -> int
    decreases a.len(),
{
    if a.len() == 0 {
        0
    } else {
        l1_dist(a.drop_last(), b.drop_last()) + abs_int(a.last() - b.last())
    }
}

/// Sort a frequency vector in place, largest first.
pub fn sort_desc(v: Vec<i64>) -> (r: Vec<i64>)
    ensures
        r@ == v@.sort_by(desc_leq()),
        r@.len() == v@.len(),
{
    let ghost orig = v@;
    let mut src = v;
    let mut out: Vec<i64> = Vec::new();
    proof {
        vstd::seq_lib::lemma_multiset_commutative(out@, src@);
        assert(out@ + src@ =~= src@);
    }
    while src.len() > 0
        invariant
            (out@ + src@).to_multiset() == orig.to_multiset(),
            sorted_by(out@, desc_leq()),
            forall|i: int, j: int|
                0 <= i < out@.len() && 0 <= j < src@.len() ==> out@[i] >= src@[j],
        decreases src@.len(),
    {
        // Find the largest remaining value.
        let mut best: usize = 0;
        let mut k: usize = 1;
        while k < src.len()
            invariant
                src@.len() > 0,
                best < k <= src@.len(),
                forall|j: int| 0 <= j < k ==> src@[best as int] >= src@[j],
            decreases src@.len() - k,
        {
            if src[k] > src[best] {
                best = k;
            }
            k = k + 1;
        }
        let ghost prev_out = out@;
        let ghost prev_src = src@;
        let x = src.remove(best);
        out.push(x);
        proof {
            broadcast use vstd::seq_lib::group_to_multiset_ensures;

            assert(out@.to_multiset() =~= prev_out.to_multiset().insert(x));
            assert(src@.to_multiset() =~= prev_src.to_multiset().remove(x));
            assert((out@ + src@).to_multiset() =~= orig.to_multiset()) by {
                vstd::seq_lib::lemma_multiset_commutative(out@, src@);
                vstd::seq_lib::lemma_multiset_commutative(prev_out, prev_src);
                assert(prev_src.to_multiset().count(x) > 0);
            }
            assert(sorted_by(out@, desc_leq())) by {
                assert(forall|i: int| 0 <= i < prev_out.len() ==> out@[i] == prev_out[i]);
            }
            assert forall|i: int, j: int|
                0 <= i < out@.len() && 0 <= j < src@.len() implies out@[i] >= src@[j] by {
                assert(src@[j] == prev_src[if j < best {
                    j
                } else {
                    j + 1
                }]);
            }
        }
    }
    proof {
        assert(out@ + src@ =~= out@);
        orig.lemma_sort_by_ensures(desc_leq());
        lemma_sorted_unique(out@, orig.sort_by(desc_leq()), desc_leq());
        assert(out@.to_multiset().len() == orig.sort_by(desc_leq()).to_multiset().len());
        broadcast use vstd::seq_lib::group_to_multiset_ensures;

        assert(out@.len() == orig.sort_by(desc_leq()).len());
    }
    out
}

/// The scaled, descending-sorted frequency vector of a counted
/// distribution.
pub fn sorted_scaled_freqs(totals: &UnitTotals, total_units: usize) -> (r: Vec<i64>)
    requires
        totals.data@.len() == 256,
        forall|b: int| 0 <= b < 256 ==> totals.data@[b] <= total_units,
    ensures
        r@ == sorted_freqs(totals.data@, total_units as int),
        r@.len() == 256,
        forall|i: int| 0 <= i < 256 ==> 0 <= #[trigger] r@[i] <= FREQ_SCALE,
{
    let mut scaled: Vec<i64> = Vec::new();
    let mut b: usize = 0;
    while b < 256
        invariant
            totals.data@.len() == 256,
            forall|i: int| 0 <= i < 256 ==> totals.data@[i] <= total_units,
            b <= 256,
            scaled@.len() == b,
            forall|i: int| 0 <= i < b ==> scaled@[i] == scale_counts(totals.data@, total_units as int)[i],
            forall|i: int| 0 <= i < b ==> 0 <= #[trigger] scaled@[i] <= FREQ_SCALE,
        decreases 256 - b,
    {
        if total_units == 0 {
            scaled.push(0);
        } else {
            let c = totals.data[b];
            proof {
                lemma_mul_inequality(c as int, total_units as int, FREQ_SCALE as int);
                lemma_div_is_ordered(
                    c * (FREQ_SCALE as int),
                    (total_units as int) * (FREQ_SCALE as int),
                    total_units as int,
                );
                lemma_div_multiples_vanish(FREQ_SCALE as int, total_units as int);
                assert((total_units as int) * (FREQ_SCALE as int) == (total_units as int) * (
                FREQ_SCALE as int));
                vstd::arithmetic::div_mod::lemma_div_pos_is_pos(
                    c * (FREQ_SCALE as int),
                    total_units as int,
                );
                assert(c * (FREQ_SCALE as int) >= 0) by (nonlinear_arith)
                    requires
                        c >= 0,
                ;
            }
            let q: u128 = (c as u128) * (FREQ_SCALE as u128) / (total_units as u128);
            scaled.push(q as i64);
        }
        b = b + 1;
    }
    proof {
        assert(scaled@ =~= scale_counts(totals.data@, total_units as int));
    }
    let r = sort_desc(scaled);
    proof {
        let sorted = sorted_freqs(totals.data@, total_units as int);
        let sc = scale_counts(totals.data@, total_units as int);
        sc.lemma_sort_by_ensures(desc_leq());
        assert forall|i: int| 0 <= i < 256 implies 0 <= #[trigger] r@[i] <= FREQ_SCALE by {
            broadcast use vstd::seq_lib::group_to_multiset_ensures;

            assert(sorted.to_multiset().count(r@[i]) > 0);
            assert(sc.to_multiset().count(r@[i]) > 0);
            assert(sc.contains(r@[i]));
            let j = choose|j: int| 0 <= j < sc.len() && sc[j] == r@[i];
        }
        broadcast use vstd::seq_lib::group_to_multiset_ensures;

        assert(r@.len() == sc.len());
    }
    r
}

/// The L1 distance between two frequency vectors of weights within
/// `FREQ_SCALE`.
pub fn freq_dist_error(a: &Vec<i64>, b: &Vec<i64>) -> (r: i64)
    requires
        a@.len() == 256,
        b@.len() == 256,
        forall|i: int| 0 <= i < 256 ==> 0 <= #[trigger] a@[i] <= FREQ_SCALE,
        forall|i: int| 0 <= i < 256 ==> 0 <= #[trigger] b@[i] <= FREQ_SCALE,
    ensures
        r == l1_dist(a@, b@),
{
    let mut sum: i64 = 0;
    let mut i: usize = 0;
    while i < 256
        invariant
            a@.len() == 256,
            b@.len() == 256,
            forall|j: int| 0 <= j < 256 ==> 0 <= #[trigger] a@[j] <= FREQ_SCALE,
            forall|j: int| 0 <= j < 256 ==> 0 <= #[trigger] b@[j] <= FREQ_SCALE,
            i <= 256,
            sum == l1_dist(a@.take(i as int), b@.take(i as int)),
            0 <= sum <= i * 2 * (FREQ_SCALE as int),
        decreases 256 - i,
    {
        let av = a[i];
        let bv = b[i];
        let d: i64 = if av >= bv {
            av - bv
        } else {
            bv - av
        };
        proof {
            assert(a@.take(i + 1).drop_last() =~= a@.take(i as int));
            assert(b@.take(i + 1).drop_last() =~= b@.take(i as int));
        }
        sum = sum + d;
        i = i + 1;
    }
    proof {
        assert(a@.take(256) =~= a@);
        assert(b@.take(256) =~= b@);
    }
    sum
}

/// A registered language: 256 fixed-point weights, each within the
/// scale.
pub open spec fn lang_wf(l: Seq<i64>) -> bool {
    &&& l.len() == 256
    &&& forall|i: int| 0 <= i < 256 ==> 0 <= #[trigger] l[i] <= FREQ_SCALE
}


/// The weight sequences of a language list.
pub open spec fn langs_view(langs: Seq<Vec<i64>>) -> Seq<Seq<i64>> {
    langs.map_values(|v: Vec<i64>| v@)
}

/// Count all units of interleaved data, or nothing when the count
/// would not fit.
pub fn total_units_of(imd: &InterleavedMessageData) -> (r: Option<usize>)
    requires
        imd.wf(),
    ensures
        match r {
            Some(t) => t == total_len(imd@),
            None => total_len(imd@) > usize::MAX,
        },
{
    let mut total: usize = 0;
    let mut m: usize = 0;
    let mcount = imd.get_message_count();
    proof {
        assert(imd@.take(0) =~= Seq::<Seq<u8>>::empty());
    }
    while m < mcount
        invariant
            imd.wf(),
            mcount == imd@.len(),
            m <= mcount,
            total == total_len(imd@.take(m as int)),
        decreases mcount - m,
    {
        let c = imd.get_unit_count(m);
        proof {
            assert(imd@.take(m + 1).drop_last() =~= imd@.take(m as int));
            assert(imd@.take(m + 1).last() == imd@[m as int]);
            lemma_total_len_suffix_ge(imd@, m as int);
        }
        match total.checked_add(c) {
            Some(t) => {
                total = t;
            },
            None => {
                return None;
            },
        }
        m = m + 1;
    }
    proof {
        assert(imd@.take(mcount as int) =~= imd@);
    }
    Some(total)
}

/// What is counted so far never passes the whole.
proof fn lemma_total_len_suffix_ge(msgs: Seq<Seq<u8>>, m: int)
    requires
        0 <= m < msgs.len(),
    ensures
        total_len(msgs.take(m + 1)) <= total_len(msgs),
    decreases msgs.len() - m,
{
    if m + 1 == msgs.len() {
        assert(msgs.take(m + 1) =~= msgs);
    } else {
        lemma_total_len_suffix_ge(msgs, m + 1);
        assert(msgs.take(m + 2).drop_last() =~= msgs.take(m + 1));
        lemma_total_len_nonneg(msgs.take(m + 1));
    }
}

/// The distance of one frequency vector to every registered language.
pub fn lang_errors(freqs: &Vec<i64>, langs: &Vec<Vec<i64>>) -> (r: Vec<i64>)
    requires
        freqs@.len() == 256,
        forall|i: int| 0 <= i < 256 ==> 0 <= #[trigger] freqs@[i] <= FREQ_SCALE,
        forall|l: int| 0 <= l < langs@.len() ==> lang_wf(#[trigger] langs@[l]@),
    ensures
        r@.len() == langs@.len(),
        forall|l: int| 0 <= l < langs@.len() ==> r@[l] == l1_dist(freqs@, #[trigger] langs@[l]@),
{
    let mut out: Vec<i64> = Vec::new();
    let mut l: usize = 0;
    let n = langs.len();
    while l < n
        invariant
            n == langs@.len(),
            l <= n,
            out@.len() == l,
            freqs@.len() == 256,
            forall|i: int| 0 <= i < 256 ==> 0 <= #[trigger] freqs@[i] <= FREQ_SCALE,
            forall|j: int| 0 <= j < n ==> lang_wf(#[trigger] langs@[j]@),
            forall|j: int| 0 <= j < l ==> out@[j] == l1_dist(freqs@, #[trigger] langs@[j]@),
        decreases n - l,
    {
        let e = freq_dist_error(freqs, &langs[l]);
        out.push(e);
        l = l + 1;
    }
    out
}


/// Every unit's count is within the total unit count.
pub proof fn lemma_counts_in_range(msgs: Seq<Seq<u8>>)
    ensures
        forall|b: u8| 0 <= #[trigger] total_count(msgs, b) <= total_len(msgs),
{
    assert forall|b: u8| 0 <= #[trigger] total_count(msgs, b) <= total_len(msgs) by {
        lemma_total_count_le_len(msgs, b);
    }
}

} // verus!
