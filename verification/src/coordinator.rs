//! The coordinator's side of a search: deciding the worker count,
//! accounting for progress and matches, and knowing when the search
//! has drained. The channel, the clock and the dump file belong to the
//! caller; the decisions here are pure and exact.

use crate::arx_enum::{key_of_rank, spec_total_keys};
use crate::bigcount::BigCount;
use crate::worker::{spec_key_match, spec_match_log, TaskPacket, WorkerRun};
use vstd::prelude::*;

verus! {

/// How many workers a search uses: one when sequential, else the
/// machine's parallelism, capped by the user and by the cipher.
pub fn derive_worker_total(
    sequential: bool,
    user_cap: Option<u32>,
    available: u32,
    cipher_max: u32,
) -> (r: u32)
    requires
        available >= 1,
        cipher_max >= 1,
    ensures
        sequential ==> r == 1,
        !sequential ==> r == spec_worker_total(user_cap, available as int, cipher_max as int),
        1 <= r <= cipher_max,
{
    if sequential {
        1
    } else {
        let cap = match user_cap {
            Some(c) => {
                if c == 0 {
                    1
                } else {
                    c
                }
            },
            None => u32::MAX,
        };
        let cap = if cap < cipher_max {
            cap
        } else {
            cipher_max
        };
        if available < cap {
            available
        } else {
            cap
        }
    }
}

/// The capped worker count: the smallest of the machine's parallelism,
/// the user's cap (zero meaning one) and the cipher's bound.
pub open spec fn spec_worker_total(user_cap: Option<u32>, available: int, cipher_max: int) -> int {
    let cap = match user_cap {
        Some(c) => if c == 0 {
            1int
        } else {
            c as int
        },
        None => u32::MAX as int,
    };
    let cap = if cap < cipher_max {
        cap
    } else {
        cipher_max
    };
    if available < cap {
        available
    } else {
        cap
    }
}

/// What the caller must do with one packet.
pub enum CoordinatorAction {
    /// Append the key's bytes to the dump, or render and print them.
    RecordMatch { net_key: Vec<u8> },
    /// Log that a worker ended well.
    WorkerFinished { worker_id: u32 },
    /// Log that a worker failed; the others go on.
    WorkerFailed { message: String },
    /// Progress was counted; print it when enough time has passed.
    Counted,
}

/// The coordinator's accounting: how many workers are still owed a
/// terminal packet, and how many keys were reported checked.
pub struct CoordinatorState {
    workers_waiting: u32,
    keys_total: BigCount,
    keys_checked: BigCount,
}

impl CoordinatorState {
    pub closed spec fn workers_waiting_spec(&self) -> u32 {
        self.workers_waiting
    }

    pub closed spec fn keys_total_value(&self) -> int {
        self.keys_total.value()
    }

    pub closed spec fn keys_checked_value(&self) -> int {
        self.keys_checked.value()
    }

    /// The search is drained when every worker has sent its terminal
    /// packet.
    pub open spec fn spec_done(&self) -> bool {
        self.workers_waiting_spec() == 0
    }

    pub fn new(worker_total: u32, keys_total: BigCount) -> (r: CoordinatorState)
        ensures
            r.workers_waiting_spec() == worker_total,
            r.keys_total_value() == keys_total.value(),
            r.keys_checked_value() == 0,
    {
        CoordinatorState { workers_waiting: worker_total, keys_total, keys_checked: BigCount::new() }
    }

    /// Whether the search has drained.
    pub fn is_done(&self) -> (r: bool)
        ensures
            r == self.spec_done(),
    {
        self.workers_waiting == 0
    }

    /// The exact keys reported checked so far.
    pub fn keys_checked(&self) -> (r: &BigCount)
        ensures
            r.value() == self.keys_checked_value(),
    {
        &self.keys_checked
    }

    /// The exact keyspace size being searched.
    pub fn keys_total(&self) -> (r: &BigCount)
        ensures
            r.value() == self.keys_total_value(),
    {
        &self.keys_total
    }

    /// Account for one packet and say what to do with it. `Finished`
    /// and `Error` each retire one worker; `Progress` adds its count;
    /// a match's key bytes pass through untouched.
    pub fn step(&mut self, packet: TaskPacket) -> (r: CoordinatorAction)
        requires
            old(self).workers_waiting_spec() > 0,
            old(self).keys_checked_value() + u32::MAX
                < 0x1_0000_0000_0000_0000_0000_0000_0000_0000_0000_0000_0000_0000int,
        ensures
            final(self).keys_total_value() == old(self).keys_total_value(),
            match packet {
                TaskPacket::Finished { worker_id } => {
                    &&& final(self).workers_waiting_spec() == old(self).workers_waiting_spec() - 1
                    &&& final(self).keys_checked_value() == old(self).keys_checked_value()
                    &&& r matches CoordinatorAction::WorkerFinished { worker_id: w } && w
                        == worker_id
                },
                TaskPacket::Progress { keys } => {
                    &&& final(self).workers_waiting_spec() == old(self).workers_waiting_spec()
                    &&& final(self).keys_checked_value() == old(self).keys_checked_value() + keys
                    &&& r is Counted
                },
                TaskPacket::Match { net_key } => {
                    &&& final(self).workers_waiting_spec() == old(self).workers_waiting_spec()
                    &&& final(self).keys_checked_value() == old(self).keys_checked_value()
                    &&& r matches CoordinatorAction::RecordMatch { net_key: k } && k@ == net_key@
                },
                TaskPacket::Error { message } => {
                    &&& final(self).workers_waiting_spec() == old(self).workers_waiting_spec() - 1
                    &&& final(self).keys_checked_value() == old(self).keys_checked_value()
                    &&& r matches CoordinatorAction::WorkerFailed { message: m } && m@ == message@
                },
            },
    {
        match packet {
            TaskPacket::Finished { worker_id } => {
                self.workers_waiting = self.workers_waiting - 1;
                CoordinatorAction::WorkerFinished { worker_id }
            },
            TaskPacket::Progress { keys } => {
                self.keys_checked = self.keys_checked.add_u64(keys as u64);
                CoordinatorAction::Counted
            },
            TaskPacket::Match { net_key } => CoordinatorAction::RecordMatch { net_key },
            TaskPacket::Error { message } => {
                self.workers_waiting = self.workers_waiting - 1;
                CoordinatorAction::WorkerFailed { message }
            },
        }
    }
}

/// Drain one worker completely, feeding every packet through the
/// coordinator and collecting the matched keys. When the worker ends
/// well, the keys it reported checked are exactly its partition size
/// and the collected matches are exactly its matching keys, in order.
/// The worker fails only when some key of its partition fails to
/// evaluate, so a condition that evaluates on every key is owed a
/// clean end.
pub fn drain_worker<const DECRYPT: bool>(
    run: &mut WorkerRun<'_, DECRYPT>,
    coordinator: &mut CoordinatorState,
    matches: &mut Vec<Vec<u8>>,
) -> (ok: bool)
    requires
        old(run).wf(),
        !old(run).is_stopped(),
        old(run).keys_done() == 0,
        old(run).progress_total() == 0,
        0 <= spec_total_keys(old(run).ctx_spec()),
        old(coordinator).workers_waiting_spec() > 0,
        old(coordinator).keys_checked_value() >= 0,
        old(coordinator).keys_checked_value() + spec_total_keys(old(run).ctx_spec())
            + u32::MAX < 0x1_0000_0000_0000_0000_0000_0000_0000_0000_0000_0000_0000_0000int,
    ensures
        final(coordinator).keys_total_value() == old(coordinator).keys_total_value(),
        final(coordinator).workers_waiting_spec() == old(coordinator).workers_waiting_spec() - 1,
        ok ==> {
            &&& final(coordinator).keys_checked_value() == old(coordinator).keys_checked_value()
                + spec_total_keys(old(run).ctx_spec())
            &&& final(matches)@.map_values(|k: Vec<u8>| k@) == old(matches)@.map_values(
                |k: Vec<u8>| k@,
            ) + spec_match_log(
                DECRYPT,
                old(run).msgs(),
                old(run).langs_spec(),
                old(run).expr_spec(),
                old(run).ctx_spec(),
                spec_total_keys(old(run).ctx_spec()),
            )
        },
        !ok ==> final(coordinator).keys_checked_value() <= old(coordinator).keys_checked_value()
            + spec_total_keys(old(run).ctx_spec()),
        !ok ==> exists|n: int|
            0 <= n < spec_total_keys(old(run).ctx_spec()) && spec_key_match(
                DECRYPT,
                old(run).msgs(),
                old(run).langs_spec(),
                old(run).expr_spec(),
                key_of_rank(old(run).ctx_spec(), n),
            ) is Err,
        (forall|n: int|
            0 <= n < spec_total_keys(old(run).ctx_spec()) ==> !(spec_key_match(
                DECRYPT,
                old(run).msgs(),
                old(run).langs_spec(),
                old(run).expr_spec(),
                key_of_rank(old(run).ctx_spec(), n),
            ) is Err)) ==> ok,
{
    let ghost base = old(coordinator).keys_checked_value();
    let ghost base_matches = old(matches)@.map_values(|k: Vec<u8>| k@);
    proof {
        assert(base_matches + run.match_log() =~= base_matches);
    }
    loop
        invariant
            base == old(coordinator).keys_checked_value(),
            base_matches == old(matches)@.map_values(|k: Vec<u8>| k@),
            run.wf(),
            run.msgs() == old(run).msgs(),
            run.langs_spec() == old(run).langs_spec(),
            run.expr_spec() == old(run).expr_spec(),
            run.ctx_spec() == old(run).ctx_spec(),
            run.worker_id_spec() == old(run).worker_id_spec(),
            coordinator.keys_total_value() == old(coordinator).keys_total_value(),
            coordinator.workers_waiting_spec() == old(coordinator).workers_waiting_spec(),
            coordinator.workers_waiting_spec() > 0,
            !run.is_stopped(),
            coordinator.keys_checked_value() == base + run.progress_total(),
            0 <= run.progress_total() <= run.keys_done() <= spec_total_keys(run.ctx_spec()),
            base + spec_total_keys(run.ctx_spec()) + u32::MAX
                < 0x1_0000_0000_0000_0000_0000_0000_0000_0000_0000_0000_0000_0000int,
            base >= 0,
            matches@.map_values(|k: Vec<u8>| k@) == base_matches + run.match_log(),
        decreases 2 * spec_total_keys(run.ctx_spec()) - run.progress_total() - run.keys_done()
            + 1,
    {
        let ghost prev_log = run.match_log();
        let pkt = match run.next_packet() {
            Some(p) => p,
            None => {
                proof {
                    assert(false);
                }
                return false;
            },
        };
        let terminal_ok: Option<bool> = match &pkt {
            TaskPacket::Finished { .. } => Some(true),
            TaskPacket::Error { .. } => Some(false),
            _ => None,
        };
        let action = coordinator.step(pkt);
        match action {
            CoordinatorAction::RecordMatch { net_key } => {
                let ghost prev = matches@;
                let ghost nkv = net_key@;
                matches.push(net_key);
                proof {
                    assert(run.match_log() == prev_log.push(nkv));
                    assert(matches@.map_values(|k: Vec<u8>| k@) =~= prev.map_values(
                        |k: Vec<u8>| k@,
                    ).push(nkv));
                    assert(matches@.map_values(|k: Vec<u8>| k@) =~= base_matches
                        + run.match_log());
                }
            },
            _ => {},
        }
        match terminal_ok {
            Some(ok) => {
                proof {
                    if !ok {
                        let n = run.keys_done();
                        assert(0 <= n < spec_total_keys(old(run).ctx_spec()) && spec_key_match(
                            DECRYPT,
                            old(run).msgs(),
                            old(run).langs_spec(),
                            old(run).expr_spec(),
                            key_of_rank(old(run).ctx_spec(), n),
                        ) is Err);
                    }
                }
                return ok;
            },
            None => {},
        }
    }
}

} // verus!
