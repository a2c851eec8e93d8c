//! One worker's search run. A worker owns a partition cursor and a
//! compiled condition; it walks its partition key by key, reports
//! matches as it finds them, reports progress at a bounded interval,
//! and ends with exactly one terminal packet. When the terminal
//! `Finished` packet comes out, the progress counts add up to the
//! partition's exact size and the matches reported are exactly the
//! partition keys, in enumeration order, whose condition held.

use crate::arx::{spec_output_messages, ARXCodecContext, ARXRound};
use crate::arx_enum::{
    ctx_wf,
    in_partition,
    key_of_rank,
    spec_total_keys,
    ARXKeyCursor,
    ARXWorkerContext,
};
use crate::expr::{
    eval_spec,
    lemma_out_errs_irrelevant,
    spec_is_match,
    spec_uses_out_freq,
    uses_out_freq,
    EnvV,
    EvalError,
    Expr,
};
use crate::freq::{
    lang_errors,
    langs_view,
    lang_wf,
    l1_dist,
    sorted_freqs,
    sorted_scaled_freqs,
    total_count,
    total_len,
    UnitTotals,
};
use crate::keydump::spec_key_encoding;
use crate::messages::{data_list_view, InterleavedMessageData};
use crate::predicate::{compile_predicate, env_ok, PredicateError, UserCondition};
use vstd::prelude::*;

verus! {

/// How often progress is reported, at the latest: once per this many
/// keys.
pub const PROGRESS_CHUNK: u32 = 524288;

/// One message from a worker to the coordinator. A worker sends any
/// number of `Progress` and `Match` packets and exactly one terminal
/// `Finished` or `Error` packet, after all the others.
pub enum TaskPacket {
    Finished { worker_id: u32 },
    Progress { keys: u32 },
    Match { net_key: Vec<u8> },
    Error { message: String },
}

/// The unit counts of a message list, as sizes.
pub open spec fn counts_usize(msgs: Seq<Seq<u8>>) -> Seq<usize> {
    Seq::new(256, |b: int| total_count(msgs, b as u8) as usize)
}

/// The input-frequency error table: fixed over a whole search.
pub open spec fn in_errs_spec(msgs: Seq<Seq<u8>>, langs: Seq<Seq<i64>>) -> Seq<i64> {
    Seq::new(
        langs.len() as nat,
        |l: int| l1_dist(sorted_freqs(counts_usize(msgs), total_len(msgs)), langs[l]) as i64,
    )
}

/// The output-frequency error table of one key's outputs.
pub open spec fn out_errs_spec(outs: Seq<Seq<u8>>, langs: Seq<Seq<i64>>) -> Seq<i64> {
    Seq::new(
        langs.len() as nat,
        |l: int| l1_dist(sorted_freqs(counts_usize(outs), total_len(outs)), langs[l]) as i64,
    )
}

/// The environment a condition sees for one key.
pub open spec fn worker_env(
    decrypt: bool,
    msgs: Seq<Seq<u8>>,
    langs: Seq<Seq<i64>>,
    ks: Seq<ARXRound>,
) -> EnvV {
    EnvV {
        ins: msgs,
        outs: spec_output_messages(decrypt, msgs, ks),
        in_errs: in_errs_spec(msgs, langs),
        out_errs: out_errs_spec(spec_output_messages(decrypt, msgs, ks), langs),
    }
}

/// Whether one key matches the condition, or fails to evaluate.
pub open spec fn spec_key_match(
    decrypt: bool,
    msgs: Seq<Seq<u8>>,
    langs: Seq<Seq<i64>>,
    expr: Expr,
    ks: Seq<ARXRound>,
) -> Result<bool, EvalError> {
    spec_is_match(eval_spec(expr, worker_env(decrypt, msgs, langs, ks)))
}

/// The encodings of the matching keys among the first `n` of the
/// partition, in enumeration order.
pub open spec fn spec_match_log(
    decrypt: bool,
    msgs: Seq<Seq<u8>>,
    langs: Seq<Seq<i64>>,
    expr: Expr,
    ctx: ARXWorkerContext,
    n: int,
) -> Seq<Seq<u8>>
    decreases n,
{
    if n <= 0 {
        Seq::empty()
    } else {
        let prev = spec_match_log(decrypt, msgs, langs, expr, ctx, n - 1);
        if spec_key_match(decrypt, msgs, langs, expr, key_of_rank(ctx, n - 1)) == Ok::<
            bool,
            EvalError,
        >(true) {
            prev.push(spec_key_encoding(key_of_rank(ctx, n - 1)))
        } else {
            prev
        }
    }
}

enum WorkerPhase {
    Running,
    Stopped,
}

/// One worker's state between packets.
pub struct WorkerRun<'a, const DECRYPT: bool> {
    worker_id: u32,
    messages: &'a InterleavedMessageData,
    langs: &'a Vec<Vec<i64>>,
    in_errs: Vec<i64>,
    compiled: Expr,
    needs_out_freq: bool,
    total_units: usize,
    ctx: ARXWorkerContext,
    cursor: Option<ARXKeyCursor>,
    chunk: u32,
    phase: WorkerPhase,
    orig: Ghost<Expr>,
    keys_done: Ghost<int>,
    progress_sent: Ghost<int>,
}

impl<'a, const DECRYPT: bool> WorkerRun<'a, DECRYPT> {
    pub closed spec fn worker_id_spec(&self) -> u32 {
        self.worker_id
    }

    pub closed spec fn msgs(&self) -> Seq<Seq<u8>> {
        self.messages@
    }

    pub closed spec fn langs_spec(&self) -> Seq<Seq<i64>> {
        langs_view(self.langs@)
    }

    pub closed spec fn expr_spec(&self) -> Expr {
        self.orig@
    }

    pub closed spec fn ctx_spec(&self) -> ARXWorkerContext {
        self.ctx
    }

    pub closed spec fn keys_done(&self) -> int {
        self.keys_done@
    }

    pub closed spec fn progress_total(&self) -> int {
        self.progress_sent@
    }

    pub closed spec fn is_stopped(&self) -> bool {
        self.phase is Stopped
    }

    /// The matches this worker has reported so far.
    pub open spec fn match_log(&self) -> Seq<Seq<u8>> {
        spec_match_log(
            DECRYPT,
            self.msgs(),
            self.langs_spec(),
            self.expr_spec(),
            self.ctx_spec(),
            self.keys_done(),
        )
    }

    /// Internal coherence of a run between packets.
    pub closed spec fn wf(&self) -> bool {
        &&& self.messages.wf()
        &&& ctx_wf(self.ctx)
        &&& total_len(self.messages@) <= usize::MAX
        &&& self.total_units == total_len(self.messages@)
        &&& forall|l: int|
            0 <= l < self.langs@.len() ==> lang_wf(#[trigger] self.langs@[l]@)
        &&& self.in_errs@ == in_errs_spec(self.msgs(), self.langs_spec())
        &&& self.needs_out_freq == spec_uses_out_freq(self.compiled)
        &&& forall|env: EnvV|
            env_ok(env, self.messages@, self.in_errs@, self.langs@.len() as int) ==> eval_spec(
                self.compiled,
                env,
            ) == eval_spec(self.orig@, env)
        &&& (self.phase is Running ==> {
            &&& 0 <= self.keys_done@ <= spec_total_keys(self.ctx)
            &&& 0 <= self.progress_sent@
            &&& self.progress_sent@ + self.chunk == self.keys_done@
            &&& self.chunk <= PROGRESS_CHUNK
            &&& match self.cursor {
                Some(c) => c.wf() && c.ctx() == self.ctx && c.idx() == self.keys_done@,
                None => self.keys_done@ == spec_total_keys(self.ctx),
            }
        })
    }

    /// Set a worker up: compute the input-frequency errors, compile
    /// the condition against the inputs, and place the cursor on the
    /// partition's first key. This fails exactly where compiling the
    /// condition against these inputs fails.
    pub fn new(
        worker_id: u32,
        messages: &'a InterleavedMessageData,
        langs: &'a Vec<Vec<i64>>,
        condition: UserCondition,
        ctx: ARXWorkerContext,
    ) -> (r: Result<WorkerRun<'a, DECRYPT>, PredicateError>)
        requires
            messages.wf(),
            ctx_wf(ctx),
            total_len(messages@) <= usize::MAX,
            forall|l: int| 0 <= l < langs@.len() ==> lang_wf(#[trigger] langs@[l]@),
        ensures
            r is Err <==> crate::predicate::spec_compile(
                condition@,
                messages@,
                in_errs_spec(messages@, langs_view(langs@)),
                langs@.len() as int,
            ) is None,
            r matches Ok(w) ==> {
                &&& w.wf()
                &&& !w.is_stopped()
                &&& w.worker_id_spec() == worker_id
                &&& w.msgs() == messages@
                &&& w.langs_spec() == langs_view(langs@)
                &&& w.expr_spec() == condition@
                &&& w.ctx_spec() == ctx
                &&& w.keys_done() == 0
                &&& w.progress_total() == 0
            },
    {
        let total_units = match crate::freq::total_units_of(messages) {
            Some(t) => t,
            None => {
                proof {
                    assert(false);
                }
                0
            },
        };
        let totals = UnitTotals::from_interleaved_message_data(messages);
        proof {
            crate::freq::lemma_counts_in_range(messages@);
            assert(totals.data@ =~= counts_usize(messages@));
        }
        let freqs = sorted_scaled_freqs(&totals, total_units);
        let in_errs = lang_errors(&freqs, langs);
        proof {
            assert(in_errs@ =~= in_errs_spec(messages@, langs_view(langs@)));
        }
        let expr = condition.into_expr();
        let ghost orig = expr;
        let compiled = match compile_predicate(&expr, messages, &in_errs, langs.len()) {
            Ok(c) => c,
            Err(e) => {
                return Err(e);
            },
        };
        let needs_out_freq = uses_out_freq(&compiled);
        let cursor = ARXKeyCursor::start(&ctx);
        Ok(
            WorkerRun {
                worker_id,
                messages,
                langs,
                in_errs,
                compiled,
                needs_out_freq,
                total_units,
                ctx,
                cursor,
                chunk: 0,
                phase: WorkerPhase::Running,
                orig: Ghost(orig),
                keys_done: Ghost(0),
                progress_sent: Ghost(0),
            },
        )
    }

    /// Evaluate the condition on the key under the cursor.
    #[verifier::rlimit(100)]
    fn eval_current_key(&self) -> (r: Option<Result<bool, EvalError>>)
        requires
            self.wf(),
            !self.is_stopped(),
        ensures
            match self.cursor {
                Some(c) => r == Some(
                    spec_key_match(
                        DECRYPT,
                        self.msgs(),
                        self.langs_spec(),
                        self.expr_spec(),
                        c.key_view(),
                    ),
                ),
                None => r is None,
            },
    {
        let cursor = match &self.cursor {
            Some(c) => c,
            None => {
                return None;
            },
        };
        let key = cursor.current();
        let codec = ARXCodecContext::<'_, DECRYPT>::new(self.messages, key);
        let out_errs: Vec<i64> = if self.needs_out_freq {
            let outs_list = codec.get_output_messages();
            proof {
                lemma_total_len_same_shape(data_list_view(outs_list@), self.messages@);
                crate::freq::lemma_counts_in_range(data_list_view(outs_list@));
            }
            let out_totals = UnitTotals::from_message_data_list(&outs_list);
            proof {
                assert(out_totals.data@ =~= counts_usize(codec.spec_output()));
            }
            let out_freqs = sorted_scaled_freqs(&out_totals, self.total_units);
            let errs = lang_errors(&out_freqs, self.langs);
            proof {
                assert(errs@ =~= out_errs_spec(codec.spec_output(), self.langs_spec()));
            }
            errs
        } else {
            Vec::new()
        };
        let v = crate::predicate::eval_expr(&self.compiled, &codec, &self.in_errs, &out_errs);
        let m = crate::predicate::is_match(&v);
        proof {
            let env_used = EnvV {
                ins: self.messages@,
                outs: codec.spec_output(),
                in_errs: self.in_errs@,
                out_errs: out_errs@,
            };
            let env_true = worker_env(DECRYPT, self.msgs(), self.langs_spec(), key@);
            assert(env_true.outs == codec.spec_output());
            assert(env_true.in_errs == self.in_errs@);
            assert(env_ok(env_true, self.messages@, self.in_errs@, self.langs@.len() as int)) by {
                assert(forall|m2: int|
                    0 <= m2 < self.messages@.len() ==> #[trigger] env_true.outs[m2].len()
                        == self.messages@[m2].len());
            }
            if self.needs_out_freq {
                assert(env_used == env_true);
            } else {
                assert(env_ok(
                    env_used,
                    self.messages@,
                    self.in_errs@,
                    out_errs@.len() as int,
                )) by {
                    assert(forall|m2: int|
                        0 <= m2 < self.messages@.len() ==> #[trigger] env_used.outs[m2].len()
                            == self.messages@[m2].len());
                }
                lemma_out_errs_irrelevant(self.compiled, env_used, env_true);
            }
            assert(eval_spec(self.orig@, env_true) == eval_spec(self.compiled, env_used));
            assert(m == spec_key_match(
                DECRYPT,
                self.msgs(),
                self.langs_spec(),
                self.expr_spec(),
                key@,
            ));
        }
        Some(m)
    }

    /// Step past the key under the cursor, keeping the books: the key
    /// is counted, and when it matched, its encoding joins the match
    /// log.
    #[verifier::rlimit(60)]
    fn advance_one(&mut self, matched: bool) -> (net: Option<Vec<u8>>)
        requires
            old(self).wf(),
            !old(self).is_stopped(),
            old(self).cursor is Some,
            old(self).chunk < PROGRESS_CHUNK,
            matched == (spec_key_match(
                DECRYPT,
                old(self).msgs(),
                old(self).langs_spec(),
                old(self).expr_spec(),
                key_of_rank(old(self).ctx_spec(), old(self).keys_done()),
            ) == Ok::<bool, EvalError>(true)),
        ensures
            final(self).wf(),
            !final(self).is_stopped(),
            final(self).worker_id_spec() == old(self).worker_id_spec(),
            final(self).msgs() == old(self).msgs(),
            final(self).langs_spec() == old(self).langs_spec(),
            final(self).expr_spec() == old(self).expr_spec(),
            final(self).ctx_spec() == old(self).ctx_spec(),
            final(self).keys_done() == old(self).keys_done() + 1,
            final(self).progress_total() == old(self).progress_total(),
            final(self).chunk == old(self).chunk + 1,
            matched ==> (net matches Some(k) && k@ == spec_key_encoding(
                key_of_rank(old(self).ctx_spec(), old(self).keys_done()),
            ) && final(self).match_log() == old(self).match_log().push(k@)),
            !matched ==> (net is None && final(self).match_log() == old(self).match_log()),
    {
        let net_key: Option<Vec<u8>> = if matched {
            let cursor = match &self.cursor {
                Some(c) => c,
                None => {
                    proof {
                        assert(false);
                    }
                    return None;
                },
            };
            Some(cursor.current().encode_to_buffer())
        } else {
            None
        };
        proof {
            match &self.cursor {
                Some(c) => {
                    crate::arx_enum::lemma_key_rank_inverse(self.ctx, c.key_view());
                },
                None => {
                    assert(false);
                },
            }
        }
        let more = match &mut self.cursor {
            Some(c) => c.advance(),
            None => false,
        };
        if !more {
            self.cursor = None;
        }
        self.chunk = self.chunk + 1;
        proof {
            self.keys_done@ = self.keys_done@ + 1;
        }
        net_key
    }

    /// Produce the next packet for the coordinator, walking as many
    /// keys as that takes. `None` only after the terminal packet.
    #[verifier::rlimit(100)]
    pub fn next_packet(&mut self) -> (r: Option<TaskPacket>)
        requires
            old(self).wf(),
        ensures
            final(self).wf(),
            final(self).worker_id_spec() == old(self).worker_id_spec(),
            final(self).msgs() == old(self).msgs(),
            final(self).langs_spec() == old(self).langs_spec(),
            final(self).expr_spec() == old(self).expr_spec(),
            final(self).ctx_spec() == old(self).ctx_spec(),
            old(self).is_stopped() <==> r is None,
            !old(self).is_stopped() ==> {
                &&& 0 <= final(self).progress_total() <= final(self).keys_done()
                &&& old(self).keys_done() <= final(self).keys_done() <= spec_total_keys(
                    old(self).ctx_spec(),
                )
                &&& old(self).progress_total() <= final(self).progress_total()
            },
            match r {
                None => {
                    &&& final(self).is_stopped()
                    &&& final(self).keys_done() == old(self).keys_done()
                    &&& final(self).progress_total() == old(self).progress_total()
                },
                Some(p) => match p {
                    TaskPacket::Finished { worker_id } => {
                        &&& worker_id == old(self).worker_id_spec()
                        &&& final(self).is_stopped()
                        &&& final(self).progress_total() == old(self).progress_total()
                        &&& final(self).match_log() == old(self).match_log()
                        &&& final(self).keys_done() == spec_total_keys(old(self).ctx_spec())
                        &&& final(self).progress_total() == spec_total_keys(old(self).ctx_spec())
                        &&& final(self).match_log() == spec_match_log(
                            DECRYPT,
                            old(self).msgs(),
                            old(self).langs_spec(),
                            old(self).expr_spec(),
                            old(self).ctx_spec(),
                            spec_total_keys(old(self).ctx_spec()),
                        )
                    },
                    TaskPacket::Progress { keys } => {
                        &&& !final(self).is_stopped()
                        &&& 0 < keys <= PROGRESS_CHUNK
                        &&& final(self).progress_total() == old(self).progress_total() + keys
                        &&& final(self).progress_total() <= final(self).keys_done()
                        &&& final(self).match_log() == old(self).match_log()
                    },
                    TaskPacket::Match { net_key } => {
                        &&& !final(self).is_stopped()
                        &&& final(self).keys_done() > old(self).keys_done()
                        &&& final(self).progress_total() == old(self).progress_total()
                        &&& final(self).match_log() == old(self).match_log().push(net_key@)
                        &&& net_key@ == spec_key_encoding(
                            key_of_rank(old(self).ctx_spec(), final(self).keys_done() - 1),
                        )
                    },
                    TaskPacket::Error { message } => {
                        &&& final(self).is_stopped()
                        &&& 0 <= final(self).keys_done() < spec_total_keys(old(self).ctx_spec())
                        &&& spec_key_match(
                            DECRYPT,
                            old(self).msgs(),
                            old(self).langs_spec(),
                            old(self).expr_spec(),
                            key_of_rank(old(self).ctx_spec(), final(self).keys_done()),
                        ) is Err
                    },
                },
            },
    {
        match self.phase {
            WorkerPhase::Stopped => {
                return None;
            },
            WorkerPhase::Running => {},
        }
        loop
            invariant
                self.wf(),
                !self.is_stopped(),
                !old(self).is_stopped(),
                self.worker_id_spec() == old(self).worker_id_spec(),
                self.msgs() == old(self).msgs(),
                self.langs_spec() == old(self).langs_spec(),
                self.expr_spec() == old(self).expr_spec(),
                self.ctx_spec() == old(self).ctx_spec(),
                self.progress_total() == old(self).progress_total(),
                self.match_log() == old(self).match_log(),
                old(self).keys_done() <= self.keys_done(),
            decreases spec_total_keys(self.ctx) - self.keys_done@,
        {
            if self.chunk >= PROGRESS_CHUNK {
                let keys = self.chunk;
                self.chunk = 0;
                proof {
                    self.progress_sent@ = self.progress_sent@ + keys as int;
                }
                return Some(TaskPacket::Progress { keys });
            }
            match &self.cursor {
                None => {
                    // Partition exhausted: flush progress, then finish.
                    if self.chunk > 0 {
                        let keys = self.chunk;
                        self.chunk = 0;
                        proof {
                            self.progress_sent@ = self.progress_sent@ + keys as int;
                        }
                        return Some(TaskPacket::Progress { keys });
                    }
                    self.phase = WorkerPhase::Stopped;
                    return Some(TaskPacket::Finished { worker_id: self.worker_id });
                },
                Some(_) => {},
            }
            let matched = match self.eval_current_key() {
                None => {
                    proof {
                        assert(false);
                    }
                    return None;
                },
                Some(m) => {
                    proof {
                        match &self.cursor {
                            Some(c) => {
                                assert(c.key_view() == key_of_rank(self.ctx, self.keys_done@));
                            },
                            None => {
                                assert(false);
                            },
                        }
                    }
                    match m {
                        Err(_) => None,
                        Ok(b) => Some(b),
                    }
                },
            };
            let matched = match matched {
                None => {
                    proof {
                        match &self.cursor {
                            Some(c) => {
                                crate::arx_enum::lemma_key_rank_inverse(self.ctx, c.key_view());
                            },
                            None => {
                                assert(false);
                            },
                        }
                    }
                    self.phase = WorkerPhase::Stopped;
                    return Some(
                        TaskPacket::Error {
                            message: String::from_str("condition evaluation failed"),
                        },
                    );
                },
                Some(b) => b,
            };
            proof {
                assert(matched == (spec_key_match(
                    DECRYPT,
                    self.msgs(),
                    self.langs_spec(),
                    self.expr_spec(),
                    key_of_rank(self.ctx, self.keys_done@),
                ) == Ok::<bool, EvalError>(true)));
            }
            let net_key = self.advance_one(matched);
            match net_key {
                Some(k) => {
                    return Some(TaskPacket::Match { net_key: k });
                },
                None => {},
            }
        }
    }
}

/// Lists of messages with the same message lengths hold the same
/// number of units.
proof fn lemma_total_len_same_shape(a: Seq<Seq<u8>>, b: Seq<Seq<u8>>)
    requires
        a.len() == b.len(),
        forall|i: int| 0 <= i < a.len() ==> #[trigger] a[i].len() == b[i].len(),
    ensures
        total_len(a) == total_len(b),
    decreases a.len(),
{
    if a.len() > 0 {
        assert(forall|i: int|
            0 <= i < a.drop_last().len() ==> #[trigger] a.drop_last()[i].len()
                == b.drop_last()[i].len());
        lemma_total_len_same_shape(a.drop_last(), b.drop_last());
    }
}


/// A condition that is simply `true` matches every key: a worker that
/// runs it to the end reports its whole partition as matches.
pub proof fn lemma_true_condition_matches_every_key(
    decrypt: bool,
    msgs: Seq<Seq<u8>>,
    langs: Seq<Seq<i64>>,
    ks: Seq<ARXRound>,
)
    ensures
        spec_key_match(decrypt, msgs, langs, Expr::TruthLit(true), ks) == Ok::<bool, EvalError>(
            true,
        ),
{
}

} // verus!
