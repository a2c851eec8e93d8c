//! Message storage. A `Message` is a named sequence of units; the hot
//! layout `InterleavedMessageData` stores all messages of a list in one
//! contiguous buffer, cell `(m, u)` at index `u * message_count + m`,
//! so a per-unit scan across all messages touches adjacent cells.

use crate::smallbuf::{cell_buf, count_buf, unit_buf, CellBuf, CountBuf, UnitBuf};
use vstd::arithmetic::div_mod::lemma_fundamental_div_mod_converse;
use vstd::arithmetic::mul::lemma_mul_inequality;
use vstd::prelude::*;

verus! {

/// A named sequence of units.
pub struct Message {
    pub name: String,
    pub data: UnitBuf,
}

impl Message {
    /// An empty message carrying only a name.
    pub fn from_name(name: String) -> (r: Message)
        ensures
            r.name@ == name@,
            unit_buf(r.data) == Seq::<u8>::empty(),
    {
        Message { name, data: UnitBuf::new() }
    }
}

pub type MessageList = Vec<Message>;

/// The units of one message, without its name.
pub type MessageData = UnitBuf;

pub type MessageDataList = Vec<MessageData>;

/// The unit sequences of a message list.
pub open spec fn messages_data(msgs: Seq<Message>) -> Seq<Seq<u8>> {
    msgs.map_values(|m: Message| unit_buf(m.data))
}

/// The unit sequences of a bare data list.
pub open spec fn data_list_view(datas: Seq<MessageData>) -> Seq<Seq<u8>> {
    datas.map_values(|d: MessageData| unit_buf(d))
}

/// Interleaved storage for `message_count` messages: cell `(m, u)`
/// lives at `u * message_count + m`. Cells past a message's own unit
/// count are padding.
pub struct InterleavedMessageData {
    message_count: usize,
    len_max: usize,
    inner: CellBuf,
    unit_counts: CountBuf,
}

impl InterleavedMessageData {
    /// Shape invariant: one count per message, every count at most
    /// `len_max`, exactly `len_max` cells per message, and every
    /// padding cell past a message's own unit count zeroed.
    pub closed spec fn wf(&self) -> bool {
        &&& count_buf(self.unit_counts).len() == self.message_count
        &&& self.message_count * self.len_max <= usize::MAX
        &&& cell_buf(self.inner).len() == self.message_count * self.len_max
        &&& forall|m: int|
            0 <= m < self.message_count ==> count_buf(self.unit_counts)[m] <= self.len_max
        &&& forall|m: int, u: int|
            0 <= m < self.message_count && count_buf(self.unit_counts)[m] <= u < self.len_max
                ==> cell_buf(self.inner)[#[trigger] (u * self.message_count + m)] == 0
    }

    /// The messages stored, each cut to its own unit count.
    pub closed spec fn view(&self) -> Seq<Seq<u8>> {
        Seq::new(
            self.message_count as nat,
            |m: int|
                Seq::new(
                    count_buf(self.unit_counts)[m] as nat,
                    |u: int| cell_buf(self.inner)[u * self.message_count + m],
                ),
        )
    }

    pub fn get_message_count(&self) -> (r: usize)
        ensures
            r == self@.len(),
    {
        self.message_count
    }

    pub fn get_unit_count(&self, message_index: usize) -> (r: usize)
        requires
            self.wf(),
            message_index < self@.len(),
        ensures
            r == self@[message_index as int].len(),
    {
        self.unit_counts.get(message_index)
    }

    /// Read the unit `unit_index` of message `message_index`.
    pub fn get_unit(&self, message_index: usize, unit_index: usize) -> (r: u8)
        requires
            self.wf(),
            message_index < self@.len(),
            unit_index < self@[message_index as int].len(),
        ensures
            r == self@[message_index as int][unit_index as int],
    {
        proof {
            lemma_cell_index_in_range(
                self.message_count as int,
                self.len_max as int,
                message_index as int,
                unit_index as int,
            );
        }
        self.inner.get(unit_index * self.message_count + message_index)
    }
}

/// A cell index `u * mc + m` stays inside the buffer when `u` is below
/// some count bounded by `len_max`.
proof fn lemma_cell_index_in_range(mc: int, len_max: int, m: int, u: int)
    requires
        0 <= m < mc,
        0 <= u < len_max,
    ensures
        0 <= u * mc + m < mc * len_max,
        u * mc + m <= usize::MAX ==> u * mc <= usize::MAX,
{
    lemma_mul_inequality(u + 1, len_max, mc);
    assert((u + 1) * mc == u * mc + mc) by (nonlinear_arith);
    assert(len_max * mc == mc * len_max) by (nonlinear_arith);
    assert(u * mc >= 0) by (nonlinear_arith)
        requires
            u >= 0 && mc >= 0,
    ;
}

/// Distinct in-range cells get distinct indices.
proof fn lemma_cell_index_injective(mc: int, m1: int, u1: int, m2: int, u2: int)
    requires
        0 <= m1 < mc,
        0 <= m2 < mc,
        0 <= u1,
        0 <= u2,
        u1 * mc + m1 == u2 * mc + m2,
    ensures
        m1 == m2 && u1 == u2,
{
    let x = u1 * mc + m1;
    lemma_fundamental_div_mod_converse(x, mc, u1, m1);
    lemma_fundamental_div_mod_converse(x, mc, u2, m2);
}

/// A message list in interleaved form, with the names kept aside.
pub struct AcceleratedMessageList {
    pub data: InterleavedMessageData,
    pub names: Vec<String>,
}

impl AcceleratedMessageList {
    /// Repack a message list into the interleaved layout. The data view
    /// carries exactly the messages' units; the names carry over in
    /// order.
    pub fn from_messages(message_list: &MessageList) -> (r: AcceleratedMessageList)
        requires
            message_list@.len() * max_data_len(message_list@) <= usize::MAX,
        ensures
            r.data.wf(),
            r.data@ == messages_data(message_list@),
            r.names@.map_values(|n: String| n@) == message_list@.map_values(
                |m: Message| m.name@,
            ),
    {
        let message_count = message_list.len();
        let mut len_max: usize = 0;
        let mut unit_counts = CountBuf::new();
        let mut names: Vec<String> = Vec::new();
        let mut m: usize = 0;
        while m < message_count
            invariant
                message_count == message_list@.len(),
                m <= message_count,
                count_buf(unit_counts).len() == m,
                names@.len() == m,
                len_max <= max_data_len(message_list@),
                forall|i: int|
                    0 <= i < m ==> count_buf(unit_counts)[i] == unit_buf(
                        #[trigger] message_list@[i].data,
                    ).len(),
                forall|i: int| 0 <= i < m ==> count_buf(unit_counts)[i] <= len_max,
                forall|i: int| 0 <= i < m ==> #[trigger] names@[i]@ == message_list@[i].name@,
            decreases message_count - m,
        {
            let msg = &message_list[m];
            let len = msg.data.len();
            proof {
                lemma_max_data_len_bound(message_list@, m as int);
            }
            if len > len_max {
                len_max = len;
            }
            unit_counts.push(len);
            names.push(msg.name.clone());
            m = m + 1;
        }
        proof {
            lemma_mul_inequality(
                message_count as int,
                message_list@.len() as int,
                max_data_len(message_list@) as int,
            );
            assert(message_count * len_max <= message_count * max_data_len(message_list@))
                by (nonlinear_arith)
                requires
                    len_max <= max_data_len(message_list@),
                    message_count >= 0,
            ;
        }
        let inner_len: usize = message_count * len_max;
        let mut inner = CellBuf::filled(0, inner_len);
        proof {
            assert forall|m2: int, u2: int|
                0 <= m2 < message_count && 0 <= u2 < len_max implies cell_buf(inner)[#[trigger] (u2
                * message_count + m2)] == 0 by {
                lemma_cell_index_in_range(message_count as int, len_max as int, m2, u2);
            }
        }
        let mut m: usize = 0;
        while m < message_count
            invariant
                message_count == message_list@.len(),
                m <= message_count,
                inner_len == message_count * len_max,
                cell_buf(inner).len() == inner_len,
                count_buf(unit_counts).len() == message_count,
                forall|i: int|
                    0 <= i < message_count ==> count_buf(unit_counts)[i] == unit_buf(
                        #[trigger] message_list@[i].data,
                    ).len(),
                forall|i: int| 0 <= i < message_count ==> count_buf(unit_counts)[i] <= len_max,
                forall|m2: int, u2: int|
                    0 <= m2 < m && 0 <= u2 < unit_buf(message_list@[m2].data).len() ==> cell_buf(
                        inner,
                    )[#[trigger] (u2 * message_count + m2)] == unit_buf(message_list@[m2].data)[u2],
                forall|m2: int, u2: int|
                    0 <= m2 < message_count && 0 <= u2 < len_max && !(m2 < m && u2 < unit_buf(
                        message_list@[m2].data,
                    ).len()) ==> cell_buf(inner)[#[trigger] (u2 * message_count + m2)] == 0,
            decreases message_count - m,
        {
            let msg_data = &message_list[m].data;
            let data_len = msg_data.len();
            let mut u: usize = 0;
            while u < data_len
                invariant
                    message_count == message_list@.len(),
                    m < message_count,
                    u <= data_len,
                    data_len == unit_buf(message_list@[m as int].data).len(),
                    data_len == unit_buf(*msg_data).len(),
                    msg_data == &message_list@[m as int].data,
                    data_len <= len_max,
                    forall|i: int|
                        0 <= i < message_count ==> count_buf(unit_counts)[i] == unit_buf(
                            #[trigger] message_list@[i].data,
                        ).len(),
                    forall|i: int| 0 <= i < message_count ==> count_buf(unit_counts)[i] <= len_max,
                    inner_len == message_count * len_max,
                    cell_buf(inner).len() == inner_len,
                    forall|m2: int, u2: int|
                        0 <= m2 < m && 0 <= u2 < unit_buf(message_list@[m2].data).len()
                            ==> cell_buf(inner)[#[trigger] (u2 * message_count + m2)] == unit_buf(
                            message_list@[m2].data,
                        )[u2],
                    forall|u2: int|
                        0 <= u2 < u ==> cell_buf(inner)[#[trigger] (u2 * message_count
                            + m as int)] == unit_buf(message_list@[m as int].data)[u2],
                    forall|m2: int, u2: int|
                        0 <= m2 < message_count && 0 <= u2 < len_max && !(m2 < m && u2 < unit_buf(
                            message_list@[m2].data,
                        ).len()) && !(m2 == m && u2 < u) ==> cell_buf(inner)[#[trigger] (u2
                            * message_count + m2)] == 0,
                decreases data_len - u,
            {
                proof {
                    lemma_cell_index_in_range(
                        message_count as int,
                        len_max as int,
                        m as int,
                        u as int,
                    );
                }
                let idx: usize = u * message_count + m;
                let b = msg_data.get(u);
                inner.set(idx, b);
                proof {
                    assert forall|m2: int, u2: int|
                        0 <= m2 < m as int && 0 <= u2 < unit_buf(
                            message_list@[m2].data,
                        ).len() implies cell_buf(inner)[#[trigger] (u2 * message_count + m2)]
                        == unit_buf(message_list@[m2].data)[u2] by {
                        lemma_cell_index_in_range(message_count as int, len_max as int, m2, u2);
                        if u2 * message_count + m2 == u as int * message_count + m as int {
                            lemma_cell_index_injective(
                                message_count as int,
                                m2,
                                u2,
                                m as int,
                                u as int,
                            );
                        }
                    }
                    assert forall|u2: int| 0 <= u2 < u + 1 implies cell_buf(inner)[#[trigger] (u2
                        * message_count + m as int)] == unit_buf(
                        message_list@[m as int].data,
                    )[u2] by {
                        lemma_cell_index_in_range(
                            message_count as int,
                            len_max as int,
                            m as int,
                            u2,
                        );
                        if u2 < u && u2 * message_count + m as int == u as int * message_count
                            + m as int {
                            lemma_cell_index_injective(
                                message_count as int,
                                m as int,
                                u2,
                                m as int,
                                u as int,
                            );
                        }
                    }
                    assert forall|m2: int, u2: int|
                        0 <= m2 < message_count && 0 <= u2 < len_max && !(m2 < m as int && u2
                            < unit_buf(message_list@[m2].data).len()) && !(m2 == m as int && u2 < u
                            + 1) implies cell_buf(inner)[#[trigger] (u2 * message_count + m2)]
                        == 0 by {
                        lemma_cell_index_in_range(message_count as int, len_max as int, m2, u2);
                        if u2 * message_count + m2 == u as int * message_count + m as int {
                            lemma_cell_index_injective(
                                message_count as int,
                                m2,
                                u2,
                                m as int,
                                u as int,
                            );
                        }
                    }
                }
                u = u + 1;
            }
            m = m + 1;
        }
        let data = InterleavedMessageData { message_count, len_max, inner, unit_counts };
        proof {
            assert(data@ =~~= messages_data(message_list@));
            assert(names@.map_values(|n: String| n@) =~= message_list@.map_values(
                |msg: Message| msg.name@,
            ));
        }
        AcceleratedMessageList { data, names }
    }
}

/// The longest unit count over a message list.
pub open spec fn max_data_len(msgs: Seq<Message>) -> nat
    decreases msgs.len(),
{
    if msgs.len() == 0 {
        0
    } else {
        let tail_max = max_data_len(msgs.drop_last());
        let last = unit_buf(msgs.last().data).len();
        if last > tail_max {
            last
        } else {
            tail_max
        }
    }
}

/// Every message's unit count is bounded by the list's maximum.
proof fn lemma_max_data_len_bound(msgs: Seq<Message>, i: int)
    requires
        0 <= i < msgs.len(),
    ensures
        unit_buf(msgs[i].data).len() <= max_data_len(msgs),
    decreases msgs.len(),
{
    if i == msgs.len() - 1 {
    } else {
        lemma_max_data_len_bound(msgs.drop_last(), i);
    }
}

} // verus!
