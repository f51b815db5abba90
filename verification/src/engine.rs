//! The engine and its combination round: refresh the shared terms, collect
//! what every theory exports, and hand each exported equality to every other
//! theory that the policy allows.

use crate::atoms::{AtomTable, TheoryId};
use crate::config::{EngineConfig, SharingConfig};
use crate::eqshare_dot::{
    eqshare_dot_text, eqshare_to_dot, event_ok, events_ok, lists_numbering, names_view,
    numbered_terms,
    shown_events, shown_events_ok, EqDotLimits,
};
use crate::eqshare_log::{
    exchange_line, exchange_records, render_exchange, render_stats, stats_line, EqShareDiagnostic,
};
use crate::eqshare_trace::{EqShareEvent, EqShareTrace};
use crate::reason::{expand, ReasonArena, ReasonId};
use crate::reason_dot::{reason_dot_text, reason_to_dot, DotLimits};
use crate::sat::SatKernel;
use crate::shared_terms::{atoms_in_range, reports_for, shared_terms, SharedTermOracle};
use crate::sharing::{
    addressed_to, allows, carried, dedup_key, deliveries, delivery, fan_out, first_seen,
    gathered, is_receiver, key_of, keys_of, lemma_addressed_deliveries,
    lemma_gathered_prefix, lemma_keys_of_push, lemma_received_by_none, received_by, tag_exports,
    tagged, DedupKey,
};
use crate::tables::KeySet;
use crate::term::{Context, TermId};
use crate::theory::{imports_of, SharedEq, SharingCall, Theory};
use crate::theory_ctx::TheoryCtx;
use vstd::prelude::*;

verus! {

/// The answer of a satisfiability check.
pub enum CheckSat {
    Sat,
    Unsat,
    Unknown,
}

/// Every exported equality comes from one of the `n` theories and is
/// justified by a handle below `limit`.
pub open spec fn exports_valid(exported: Seq<(TheoryId, SharedEq)>, n: int, limit: int) -> bool {
    forall|k: int|
        0 <= k < exported.len() ==> (#[trigger] exported[k]).0.0 < n && exported[k].1.explain.0
            < limit
}

/// The exporters come in registration order.
pub open spec fn exports_ordered(exported: Seq<(TheoryId, SharedEq)>) -> bool {
    forall|k: int, l: int|
        0 <= k <= l < exported.len() ==> (#[trigger] exported[k]).0.0 <= (#[trigger] exported[l]).0.0
}

/// For each theory, whether it has the sharing capability.
pub open spec fn sharers(theories: Seq<Box<dyn Theory>>) -> Seq<bool> {
    Seq::new(theories.len(), |i: int| theories[i].shares())
}

/// What the theory answered at call `k` of its history, if that call asked
/// it for its exports.
pub open spec fn answer_at(calls: Seq<SharingCall>, k: int) -> Seq<SharedEq> {
    if 0 <= k < calls.len() {
        match calls[k] {
            SharingCall::Export { answer, .. } => answer,
            SharingCall::Import { .. } => Seq::empty(),
        }
    } else {
        Seq::empty()
    }
}

/// What each of the theories `before` answered when it was asked for its
/// exports, read from the histories of the theories `after`: the answer of
/// the first call that a theory took since. A theory without the sharing
/// capability is not asked and answers nothing.
pub open spec fn round_answers(before: Seq<Box<dyn Theory>>, after: Seq<Box<dyn Theory>>) -> Seq<
    Seq<SharedEq>,
> {
    Seq::new(
        before.len(),
        |t: int|
            if before[t].shares() {
                answer_at(after[t].calls(), before[t].calls().len() as int)
            } else {
                Seq::empty()
            },
    )
}

/// `after` are the theories `before` once the first `upto` of them have been
/// asked for their exports: each of these that has the sharing capability
/// has taken one call more, which handed it `shared` and `epoch`; no other
/// call was made.
pub open spec fn asked_upto(
    before: Seq<Box<dyn Theory>>,
    after: Seq<Box<dyn Theory>>,
    upto: int,
    shared: Set<TermId>,
    epoch: u64,
) -> bool {
    &&& after.len() == before.len()
    &&& forall|t: int|
        0 <= t < before.len() ==> {
            &&& (#[trigger] after[t]).shares() == before[t].shares()
            &&& after[t].calls() == if t < upto && before[t].shares() {
                before[t].calls().push(
                    SharingCall::Export {
                        shared,
                        epoch,
                        answer: answer_at(after[t].calls(), before[t].calls().len() as int),
                    },
                )
            } else {
                before[t].calls()
            }
        }
}

/// `after` are the theories `before` once `events` have been delivered:
/// each theory has been handed, for import, the equalities of the
/// deliveries addressed to it, in order; no other call was made.
pub open spec fn handed(
    before: Seq<Box<dyn Theory>>,
    after: Seq<Box<dyn Theory>>,
    events: Seq<EqShareEvent>,
) -> bool {
    &&& after.len() == before.len()
    &&& forall|t: int|
        0 <= t < before.len() ==> {
            &&& (#[trigger] after[t]).shares() == before[t].shares()
            &&& after[t].calls() == before[t].calls() + imports_of(
                addressed_to(events, TheoryId(t as usize)),
            )
        }
}

/// Asks one theory for its exports: it is handed the oracle and the round.
/// A theory without the sharing capability is not asked and exports nothing.
fn export_from(
    theory: &mut Box<dyn Theory>,
    oracle: &SharedTermOracle,
    epoch: u64,
    reasons: &mut ReasonArena,
) -> (out: Vec<SharedEq>)
    requires
        old(reasons).wf(),
    ensures
        final(reasons).wf(),
        old(reasons)@.is_prefix_of(final(reasons)@),
        forall|i: int| 0 <= i < out@.len() ==> (#[trigger] out@[i]).explain.0 < final(reasons)@.len(),
        final(theory).shares() == old(theory).shares(),
        old(theory).shares() ==> final(theory).calls() == old(theory).calls().push(
            SharingCall::Export { shared: oracle.terms(), epoch, answer: out@ },
        ),
        !old(theory).shares() ==> final(theory).calls() == old(theory).calls() && out@.len() == 0
            && final(reasons)@ == old(reasons)@,
{
    let mut tcx = TheoryCtx::new(reasons);
    match theory.equality_sharing_mut() {
        Some(sh) => sh.export_equalities(oracle, epoch, &mut tcx),
        None => Vec::new(),
    }
}

/// Hands an equality to one theory and says whether the theory took it. A
/// theory without the sharing capability is passed over.
fn import_into(theory: &mut Box<dyn Theory>, eq: SharedEq, reasons: &mut ReasonArena) -> (taken: bool)
    requires
        old(reasons).wf(),
        eq.explain.0 < old(reasons)@.len(),
    ensures
        final(reasons).wf(),
        old(reasons)@.is_prefix_of(final(reasons)@),
        taken == old(theory).shares(),
        final(theory).shares() == old(theory).shares(),
        taken ==> final(theory).calls() == old(theory).calls().push(SharingCall::Import { eq }),
        !taken ==> final(theory).calls() == old(theory).calls() && final(reasons)@ == old(reasons)@,
{
    let mut tcx = TheoryCtx::new(reasons);
    match theory.equality_sharing_mut() {
        Some(sh) => {
            sh.import_equality(eq, &mut tcx);
            true
        },
        None => false,
    }
}

/// Asks every theory, in registration order, for its exports, and gathers
/// the answers in one list. Every theory is handed the same oracle and the
/// same round.
fn collect_from(
    theories: &mut Vec<Box<dyn Theory>>,
    oracle: &SharedTermOracle,
    epoch: u64,
    reasons: &mut ReasonArena,
) -> (exported: Vec<(TheoryId, SharedEq)>)
    requires
        old(reasons).wf(),
    ensures
        final(reasons).wf(),
        old(reasons)@.is_prefix_of(final(reasons)@),
        asked_upto(
            old(theories)@,
            final(theories)@,
            old(theories)@.len() as int,
            oracle.terms(),
            epoch,
        ),
        exported@ == gathered(
            round_answers(old(theories)@, final(theories)@),
            old(theories)@.len() as nat,
        ),
        exports_valid(exported@, old(theories)@.len() as int, final(reasons)@.len() as int),
        exports_ordered(exported@),
{
    let n = theories.len();
    let ghost start = theories@;
    let ghost shared = oracle.terms();
    let mut exported: Vec<(TheoryId, SharedEq)> = Vec::new();
    let ghost lists: Seq<Seq<SharedEq>> = Seq::empty();
    let mut i: usize = 0;
    proof {
        assert(exported@ =~= gathered(lists, 0));
    }
    while i < n
        invariant
            i <= n,
            n == theories@.len(),
            start == old(theories)@,
            shared == oracle.terms(),
            reasons.wf(),
            old(reasons)@.is_prefix_of(reasons@),
            asked_upto(start, theories@, i as int, shared, epoch),
            lists.len() == i,
            forall|t: int|
                0 <= t < i ==> (#[trigger] lists[t]) == if start[t].shares() {
                    answer_at(theories@[t].calls(), start[t].calls().len() as int)
                } else {
                    Seq::<SharedEq>::empty()
                },
            exported@ == gathered(lists, i as nat),
            exports_valid(exported@, i as int, reasons@.len() as int),
            exports_ordered(exported@),
        decreases n - i,
    {
        let ghost held = theories@;
        let out = export_from(&mut theories[i], oracle, epoch, reasons);
        let ghost before = exported@;
        let ghost answers = lists;
        tag_exports(&mut exported, TheoryId(i), &out);
        proof {
            assert(forall|t: int| 0 <= t < held.len() && t != i ==> theories@[t] == held[t]);
            assert(held[i as int].calls() == start[i as int].calls());
            assert(held[i as int].shares() == start[i as int].shares());
            if start[i as int].shares() {
                let now = theories@[i as int].calls();
                assert(now == start[i as int].calls().push(
                    SharingCall::Export { shared, epoch, answer: out@ },
                ));
                assert(answer_at(now, start[i as int].calls().len() as int) == out@);
            } else {
                assert(out@ =~= Seq::<SharedEq>::empty());
            }
            assert forall|t: int| 0 <= t < start.len() implies {
                &&& (#[trigger] theories@[t]).shares() == start[t].shares()
                &&& theories@[t].calls() == if t < i + 1 && start[t].shares() {
                    start[t].calls().push(
                        SharingCall::Export {
                            shared,
                            epoch,
                            answer: answer_at(theories@[t].calls(), start[t].calls().len() as int),
                        },
                    )
                } else {
                    start[t].calls()
                }
            } by {
                if t != i {
                    assert(theories@[t] == held[t]);
                }
                assert(held[t].shares() == start[t].shares());
            }
            lists = answers.push(out@);
            lemma_gathered_prefix(answers, lists, i as nat);
            assert(lists[i as int] == out@);
            assert(exported@ == gathered(lists, (i + 1) as nat));
            assert forall|t: int| 0 <= t < i + 1 implies (#[trigger] lists[t]) == if start[t].shares() {
                answer_at(theories@[t].calls(), start[t].calls().len() as int)
            } else {
                Seq::<SharedEq>::empty()
            } by {
                if t < i {
                    assert(lists[t] == answers[t]);
                    assert(theories@[t] == held[t]);
                }
            }
            let added = tagged(TheoryId(i), out@);
            assert forall|k: int| 0 <= k < exported@.len() implies (#[trigger] exported@[k]).0.0 < i
                + 1 && exported@[k].1.explain.0 < reasons@.len() by {
                if k < before.len() {
                    assert(exported@[k] == before[k]);
                } else {
                    assert(exported@[k] == added[k - before.len()]);
                }
            }
            assert forall|k: int, l: int| 0 <= k <= l < exported@.len() implies (
            #[trigger] exported@[k]).0.0 <= (#[trigger] exported@[l]).0.0 by {
                if l < before.len() {
                    assert(exported@[k] == before[k] && exported@[l] == before[l]);
                } else {
                    assert(exported@[l] == added[l - before.len()]);
                    if k < before.len() {
                        assert(exported@[k] == before[k]);
                    } else {
                        assert(exported@[k] == added[k - before.len()]);
                    }
                }
            }
        }
        i = i + 1;
    }
    proof {
        assert(lists =~= round_answers(start, theories@));
    }
    exported
}

/// Delivers the exported equalities and records the deliveries: each
/// exported equality, in the order given, is handed to every other theory
/// that has the sharing capability and that the policy allows, in
/// registration order.
fn deliver_all(
    theories: &mut Vec<Box<dyn Theory>>,
    reasons: &mut ReasonArena,
    trace: &mut EqShareTrace,
    log: &mut Vec<EqShareDiagnostic>,
    seen: &mut KeySet,
    sharing: &SharingConfig,
    uf: TheoryId,
    dl: TheoryId,
    logging: bool,
    exported: &Vec<(TheoryId, SharedEq)>,
    epoch: u64,
)
    requires
        old(reasons).wf(),
        exports_valid(exported@, old(theories)@.len() as int, old(reasons)@.len() as int),
    ensures
        final(reasons).wf(),
        old(reasons)@.is_prefix_of(final(reasons)@),
        handed(
            old(theories)@,
            final(theories)@,
            deliveries(
                *sharing,
                uf,
                dl,
                sharers(old(theories)@),
                exported@,
                old(theories)@.len() as nat,
                epoch,
            ),
        ),
        final(trace)@ == old(trace)@ + deliveries(
            *sharing,
            uf,
            dl,
            sharers(old(theories)@),
            exported@,
            old(theories)@.len() as nat,
            epoch,
        ),
        logging ==> final(log)@ == old(log)@ + exchange_records(
            first_seen(
                deliveries(
                    *sharing,
                    uf,
                    dl,
                    sharers(old(theories)@),
                    exported@,
                    old(theories)@.len() as nat,
                    epoch,
                ),
                old(seen)@,
            ),
        ),
        logging ==> final(seen)@ == old(seen)@ + keys_of(
            deliveries(
                *sharing,
                uf,
                dl,
                sharers(old(theories)@),
                exported@,
                old(theories)@.len() as nat,
                epoch,
            ),
        ),
        !logging ==> final(log)@ == old(log)@ && final(seen)@ == old(seen)@,
{
    let n = theories.len();
    let ghost start = theories@;
    let ghost shares = sharers(start);
    let ghost done: Seq<EqShareEvent> = Seq::empty();
    let mut i: usize = 0;
    proof {
        assert(trace@ + done =~= trace@);
        assert(log@ + exchange_records(first_seen(done, seen@)) =~= log@);
        assert(seen@ + keys_of(done) =~= seen@);
        assert forall|t: int| 0 <= t < start.len() implies (#[trigger] start[t]).calls() == start[t].calls()
            + imports_of(addressed_to(done, TheoryId(t as usize))) by {
            assert(start[t].calls() + imports_of(Seq::<SharedEq>::empty()) =~= start[t].calls());
        }
    }
    while i < exported.len()
        invariant
            i <= exported.len(),
            n == theories@.len(),
            start == old(theories)@,
            shares == sharers(start),
            reasons.wf(),
            old(reasons)@.is_prefix_of(reasons@),
            exports_valid(exported@, n as int, old(reasons)@.len() as int),
            handed(start, theories@, done),
            done == deliveries(
                *sharing,
                uf,
                dl,
                shares,
                exported@.subrange(0, i as int),
                n as nat,
                epoch,
            ),
            trace@ == old(trace)@ + done,
            logging ==> log@ == old(log)@ + exchange_records(first_seen(done, old(seen)@)),
            logging ==> seen@ == old(seen)@ + keys_of(done),
            !logging ==> log@ == old(log)@ && seen@ == old(seen)@,
        decreases exported.len() - i,
    {
        let src = exported[i].0;
        let ghost eq = exported@[i as int].1;
        let ghost head = done;
        let mut j: usize = 0;
        proof {
            assert(head + fan_out(*sharing, uf, dl, shares, src, eq, 0, epoch) =~= head);
        }
        while j < n
            invariant
                i < exported.len(),
                j <= n,
                n == theories@.len(),
                start == old(theories)@,
                shares == sharers(start),
                reasons.wf(),
                old(reasons)@.is_prefix_of(reasons@),
                exports_valid(exported@, n as int, old(reasons)@.len() as int),
                src == exported@[i as int].0,
                eq == exported@[i as int].1,
                handed(start, theories@, done),
                done == head + fan_out(*sharing, uf, dl, shares, src, eq, j as nat, epoch),
                trace@ == old(trace)@ + done,
                logging ==> log@ == old(log)@ + exchange_records(first_seen(done, old(seen)@)),
                logging ==> seen@ == old(seen)@ + keys_of(done),
                !logging ==> log@ == old(log)@ && seen@ == old(seen)@,
            decreases n - j,
        {
            let dst = TheoryId(j);
            let ghost held = theories@;
            let ghost before = done;
            let mut taken = false;
            if dst.0 != src.0 && allows(sharing, uf, dl, src, dst) {
                let eq_copy = SharedEq {
                    a: exported[i].1.a,
                    b: exported[i].1.b,
                    explain: exported[i].1.explain,
                };
                taken = import_into(&mut theories[j], eq_copy, reasons);
                proof {
                    assert(eq_copy == eq);
                    assert(forall|t: int| 0 <= t < held.len() && t != j ==> theories@[t] == held[t]);
                }
            }
            proof {
                assert(held[j as int].shares() == start[j as int].shares());
                assert(shares[j as int] == start[j as int].shares());
                assert(taken == is_receiver(*sharing, uf, dl, shares, src, dst));
            }
            if taken {
                let ev = EqShareEvent {
                    epoch,
                    src,
                    dst,
                    a: exported[i].1.a,
                    b: exported[i].1.b,
                    explain: exported[i].1.explain,
                };
                proof {
                    assert(ev == delivery(src, dst, eq, epoch));
                    assert(carried(ev) == eq);
                    done = done.push(ev);
                    assert(done =~= head + fan_out(
                        *sharing,
                        uf,
                        dl,
                        shares,
                        src,
                        eq,
                        (j + 1) as nat,
                        epoch,
                    ));
                    assert(done.drop_last() =~= before);
                    assert(done.last() == ev);
                    assert(old(trace)@ + done =~= (old(trace)@ + before).push(ev));
                    lemma_keys_of_push(before, ev);
                    assert forall|t: int| 0 <= t < start.len() implies {
                        &&& (#[trigger] theories@[t]).shares() == start[t].shares()
                        &&& theories@[t].calls() == start[t].calls() + imports_of(
                            addressed_to(done, TheoryId(t as usize)),
                        )
                    } by {
                        assert(held[t].shares() == start[t].shares());
                        if t != j {
                            assert(theories@[t] == held[t]);
                            assert(TheoryId(t as usize) != dst);
                        } else {
                            assert(TheoryId(t as usize) == dst);
                            let got = addressed_to(before, dst);
                            assert(imports_of(got.push(eq)) =~= imports_of(got).push(
                                SharingCall::Import { eq },
                            ));
                            assert(start[t].calls() + imports_of(got).push(SharingCall::Import { eq })
                                =~= (start[t].calls() + imports_of(got)).push(
                                SharingCall::Import { eq },
                            ));
                        }
                    }
                }
                if logging {
                    let fresh = seen.insert(key_of(&ev));
                    if fresh {
                        log.push(EqShareDiagnostic::Exchange(ev.clone_event()));
                    }
                    proof {
                        let reported = first_seen(before, old(seen)@);
                        assert(fresh <==> !(old(seen)@.contains(dedup_key(ev)) || keys_of(
                            before,
                        ).contains(dedup_key(ev))));
                        if fresh {
                            assert(exchange_records(reported.push(ev)) =~= exchange_records(
                                reported,
                            ).push(EqShareDiagnostic::Exchange(ev)));
                        }
                        assert(seen@ =~= old(seen)@ + keys_of(done));
                    }
                }
                trace.push(ev);
            } else {
                proof {
                    assert forall|t: int| 0 <= t < start.len() implies {
                        &&& (#[trigger] theories@[t]).shares() == start[t].shares()
                        &&& theories@[t].calls() == start[t].calls() + imports_of(
                            addressed_to(done, TheoryId(t as usize)),
                        )
                    } by {
                        assert(held[t].shares() == start[t].shares());
                        if t != j {
                            assert(theories@[t] == held[t]);
                        }
                    }
                }
            }
            j = j + 1;
        }
        i = i + 1;
        proof {
            let upto = exported@.subrange(0, i as int);
            assert(upto.drop_last() =~= exported@.subrange(0, i - 1));
            assert(upto.last() == exported@[i - 1]);
        }
    }
    proof {
        assert(exported@.subrange(0, i as int) =~= exported@);
    }
}

/// The engine: the theories in registration order and the state that the
/// combination rounds work on.
pub struct SmtEngine<K: SatKernel> {
    pub ctx: Context,
    pub sat: K,
    pub theories: Vec<Box<dyn Theory>>,
    pub uf_id: TheoryId,
    pub dl_id: TheoryId,
    pub atoms: AtomTable,
    pub reasons: ReasonArena,
    pub shared_terms: SharedTermOracle,
    pub export_epoch: u64,
    pub config: EngineConfig,
    /// One event for every delivery, whether diagnostics are enabled or not.
    pub eqshare_trace: EqShareTrace,
    /// The diagnostic records that have not been drained yet.
    pub eqshare_log: Vec<EqShareDiagnostic>,
    /// The keys of the deliveries that have been reported.
    pub eq_log_seen: KeySet,
    /// The number of atoms at the last refresh of the shared terms.
    pub last_atom_count: usize,
}

/// The round that is `k` rounds after `epoch`.
pub open spec fn epoch_after(epoch: u64, k: nat) -> u64
    decreases k,
{
    if k == 0 {
        epoch
    } else {
        next_epoch(epoch_after(epoch, (k - 1) as nat))
    }
}

/// The deliveries of a run of rounds that starts at round `epoch`, in which
/// the theories export `exports`, round by round.
pub open spec fn rounds_trace(
    sharing: SharingConfig,
    uf: TheoryId,
    dl: TheoryId,
    shares: Seq<bool>,
    exports: Seq<Seq<(TheoryId, SharedEq)>>,
    n: nat,
    epoch: u64,
) -> Seq<EqShareEvent>
    decreases exports.len(),
{
    if exports.len() == 0 {
        Seq::empty()
    } else {
        rounds_trace(sharing, uf, dl, shares, exports.drop_last(), n, epoch) + deliveries(
            sharing,
            uf,
            dl,
            shares,
            exports.last(),
            n,
            epoch_after(epoch, (exports.len() - 1) as nat),
        )
    }
}

/// The number that follows `epoch`, modulo 2^64.
pub open spec fn next_epoch(epoch: u64) -> u64 {
    if epoch == u64::MAX {
        0
    } else {
        (epoch + 1) as u64
    }
}

impl<K: SatKernel> SmtEngine<K> {
    /// What a round asks of the engine: the explanation store is well
    /// formed and every atom is owned by a registered theory.
    pub open spec fn ready(&self) -> bool {
        &&& self.reasons.wf()
        &&& atoms_in_range(self.atoms@, self.theories@.len() as int)
    }

    /// Whether deliveries are reported.
    pub open spec fn logging(&self) -> bool {
        self.config.debug_eq.enabled && (self.config.debug_eq.log_exports
            || self.config.debug_eq.log_imports)
    }

    /// `oracle` is the oracle of the engine after a refresh: computed anew
    /// if the number of atoms has changed since the last refresh, and the
    /// same as before otherwise.
    pub open spec fn refreshed(&self, oracle: SharedTermOracle) -> bool {
        if self.atoms@.len() != self.last_atom_count {
            &&& oracle.terms() == shared_terms(reports_for(self.atoms@, self.theories@))
            &&& oracle.epoch() == next_epoch(self.shared_terms.epoch())
        } else {
            oracle == self.shared_terms
        }
    }

    /// The record of the shared-term count, where it is asked for.
    pub open spec fn stats_records(&self, oracle: SharedTermOracle) -> Seq<EqShareDiagnostic> {
        if self.config.debug_eq.enabled && self.config.debug_eq.log_shared_stats {
            seq![
                EqShareDiagnostic::SharedStats {
                    epoch: self.export_epoch,
                    shared_terms: oracle.numbers().len() as usize,
                },
            ]
        } else {
            Seq::empty()
        }
    }

    /// The deliveries of a round in which the theories export `exported`.
    pub open spec fn round_deliveries(&self, exported: Seq<(TheoryId, SharedEq)>) -> Seq<
        EqShareEvent,
    > {
        deliveries(
            self.config.sharing,
            self.uf_id,
            self.dl_id,
            sharers(self.theories@),
            exported,
            self.theories@.len() as nat,
            self.export_epoch,
        )
    }

    /// `after` is the engine after the exports `exported` have been
    /// delivered: each theory has been handed the equalities of the
    /// deliveries addressed to it; every delivery is traced, in order; where
    /// deliveries are reported, each is reported the first time its key
    /// occurs.
    pub open spec fn delivered(&self, after: Self, exported: Seq<(TheoryId, SharedEq)>) -> bool {
        &&& handed(self.theories@, after.theories@, self.round_deliveries(exported))
        &&& after.eqshare_trace@ == self.eqshare_trace@ + self.round_deliveries(exported)
        &&& self.logging() ==> {
            &&& after.eqshare_log@ == self.eqshare_log@ + exchange_records(
                first_seen(self.round_deliveries(exported), self.eq_log_seen@),
            )
            &&& after.eq_log_seen@ == self.eq_log_seen@ + keys_of(self.round_deliveries(exported))
        }
        &&& !self.logging() ==> {
            &&& after.eqshare_log@ == self.eqshare_log@
            &&& after.eq_log_seen@ == self.eq_log_seen@
        }
    }

    /// What the theories cannot change: the store only grows, and the
    /// theories stay as many as they were.
    pub open spec fn grown(&self, after: Self) -> bool {
        &&& after.theories@.len() == self.theories@.len()
        &&& after.reasons.wf()
        &&& self.reasons@.is_prefix_of(after.reasons@)
    }

    /// What the theories exported in the round that took the engine to the
    /// theories `after`: what each theory answered when it was asked, one
    /// answer after the other in registration order, each equality tagged
    /// with its exporter.
    pub open spec fn round_exports(&self, after: Seq<Box<dyn Theory>>) -> Seq<(TheoryId, SharedEq)> {
        gathered(round_answers(self.theories@, after), self.theories@.len() as nat)
    }

    /// `after` are the theories of the engine after a round in which the
    /// theories exported `exported`: each theory that has the sharing
    /// capability has first been asked for its exports, once, with the
    /// shared terms of `oracle` and the round of the engine, and has then
    /// been handed the equalities of the deliveries addressed to it, in
    /// order. No other call into a theory's capability was made.
    pub open spec fn round_handed(
        &self,
        after: Seq<Box<dyn Theory>>,
        oracle: SharedTermOracle,
        exported: Seq<(TheoryId, SharedEq)>,
    ) -> bool {
        &&& after.len() == self.theories@.len()
        &&& forall|t: int|
            0 <= t < after.len() ==> {
                &&& (#[trigger] after[t]).shares() == self.theories@[t].shares()
                &&& after[t].calls() == if self.theories@[t].shares() {
                    self.theories@[t].calls().push(
                        SharingCall::Export {
                            shared: oracle.terms(),
                            epoch: self.export_epoch,
                            answer: round_answers(self.theories@, after)[t],
                        },
                    ) + imports_of(
                        addressed_to(self.round_deliveries(exported), TheoryId(t as usize)),
                    )
                } else {
                    self.theories@[t].calls()
                }
            }
    }

    /// `after` is the engine after one round from `self` in which the
    /// theories exported `exported`.
    pub open spec fn round_with(&self, after: Self, exported: Seq<(TheoryId, SharedEq)>) -> bool {
        &&& after.ctx == self.ctx
        &&& after.sat == self.sat
        &&& after.uf_id == self.uf_id
        &&& after.dl_id == self.dl_id
        &&& after.atoms == self.atoms
        &&& after.config == self.config
        &&& self.grown(after)
        &&& self.refreshed(after.shared_terms)
        &&& after.last_atom_count == self.atoms@.len()
        &&& after.export_epoch == next_epoch(self.export_epoch)
        &&& exported == self.round_exports(after.theories@)
        &&& exports_valid(exported, self.theories@.len() as int, after.reasons@.len() as int)
        &&& self.round_handed(after.theories@, after.shared_terms, exported)
        &&& after.eqshare_trace@ == self.eqshare_trace@ + self.round_deliveries(exported)
        &&& self.logging() ==> {
            &&& after.eqshare_log@ == self.eqshare_log@ + self.stats_records(after.shared_terms)
                + exchange_records(first_seen(self.round_deliveries(exported), self.eq_log_seen@))
            &&& after.eq_log_seen@ == self.eq_log_seen@ + keys_of(self.round_deliveries(exported))
        }
        &&& !self.logging() ==> {
            &&& after.eqshare_log@ == self.eqshare_log@ + self.stats_records(after.shared_terms)
            &&& after.eq_log_seen@ == self.eq_log_seen@
        }
    }

    /// `after` is the engine after one round from `self`: the round in which
    /// the theories exported what their histories say they answered.
    pub open spec fn round_step(&self, after: Self) -> bool {
        self.round_with(after, self.round_exports(after.theories@))
    }

    /// `states` are the engine before and after each of a run of rounds, in
    /// which the theories exported `exports`, round by round.
    pub open spec fn rounds_run(
        states: Seq<Self>,
        exports: Seq<Seq<(TheoryId, SharedEq)>>,
    ) -> bool {
        &&& states.len() == exports.len() + 1
        &&& forall|r: int|
            0 <= r < exports.len() ==> (#[trigger] states[r]).round_with(states[r + 1], exports[r])
    }

    /// What a theory is handed in a round is a function of the exports and
    /// the policy: a theory with the sharing capability is first asked for
    /// its exports and is then handed the exported equalities, in the order
    /// of export, whose exporter is another theory that may send to it.
    pub proof fn lemma_round_received(
        &self,
        after: Seq<Box<dyn Theory>>,
        oracle: SharedTermOracle,
        exported: Seq<(TheoryId, SharedEq)>,
        t: int,
    )
        requires
            self.round_handed(after, oracle, exported),
            0 <= t < self.theories@.len(),
            self.theories@[t].shares(),
        ensures
            after[t].calls() == self.theories@[t].calls().push(
                SharingCall::Export {
                    shared: oracle.terms(),
                    epoch: self.export_epoch,
                    answer: round_answers(self.theories@, after)[t],
                },
            ) + imports_of(
                received_by(
                    self.config.sharing,
                    self.uf_id,
                    self.dl_id,
                    sharers(self.theories@),
                    exported,
                    TheoryId(t as usize),
                ),
            ),
    {
        assert(self.theories.len() == self.theories@.len());
        assert(after[t].shares() == self.theories@[t].shares());
        lemma_addressed_deliveries(
            self.config.sharing,
            self.uf_id,
            self.dl_id,
            sharers(self.theories@),
            exported,
            self.theories@.len() as nat,
            self.export_epoch,
            TheoryId(t as usize),
        );
    }

    /// The trace of a run of rounds is a function of the policy, of the
    /// capabilities of the theories, of the round at which the run starts
    /// and of the exports of each round: whatever else the engine is, its
    /// trace grows by the deliveries of the first round, then those of the
    /// second, and so on.
    pub proof fn lemma_rounds_trace(states: Seq<Self>, exports: Seq<Seq<(TheoryId, SharedEq)>>)
        requires
            Self::rounds_run(states, exports),
        ensures
            states.last().config == states[0].config,
            states.last().uf_id == states[0].uf_id,
            states.last().dl_id == states[0].dl_id,
            states.last().theories@.len() == states[0].theories@.len(),
            sharers(states.last().theories@) == sharers(states[0].theories@),
            states.last().export_epoch == epoch_after(states[0].export_epoch, exports.len()),
            states.last().eqshare_trace@ == states[0].eqshare_trace@ + rounds_trace(
                states[0].config.sharing,
                states[0].uf_id,
                states[0].dl_id,
                sharers(states[0].theories@),
                exports,
                states[0].theories@.len() as nat,
                states[0].export_epoch,
            ),
        decreases exports.len(),
    {
        let first = states[0];
        if exports.len() == 0 {
            assert(first.eqshare_trace@ + Seq::<EqShareEvent>::empty() =~= first.eqshare_trace@);
        } else {
            let earlier = states.drop_last();
            let before = exports.drop_last();
            assert forall|r: int| 0 <= r < before.len() implies (#[trigger] earlier[r]).round_with(
                earlier[r + 1],
                before[r],
            ) by {
                assert(states[r].round_with(states[r + 1], exports[r]));
            }
            Self::lemma_rounds_trace(earlier, before);
            let k = exports.len() - 1;
            let mid = states[k];
            let last = states[k + 1];
            assert(earlier.last() == mid);
            assert(earlier[0] == first);
            assert(mid.round_with(last, exports[k]));
            assert(sharers(last.theories@) =~= sharers(mid.theories@));
            let head = rounds_trace(
                first.config.sharing,
                first.uf_id,
                first.dl_id,
                sharers(first.theories@),
                before,
                first.theories@.len() as nat,
                first.export_epoch,
            );
            assert(mid.round_deliveries(exports[k]) == deliveries(
                first.config.sharing,
                first.uf_id,
                first.dl_id,
                sharers(first.theories@),
                exports.last(),
                first.theories@.len() as nat,
                epoch_after(first.export_epoch, k as nat),
            ));
            assert(first.eqshare_trace@ + head + mid.round_deliveries(exports[k]) =~= first.eqshare_trace@
                + (head + mid.round_deliveries(exports[k])));
        }
    }

    /// Two engines with the same policy, the same number of theories with
    /// the same capabilities, the same round and the same trace, whose
    /// theories export the same in each round of a run, have the same
    /// trace after the run.
    pub proof fn lemma_rounds_deterministic(
        one: Seq<Self>,
        other: Seq<Self>,
        exports: Seq<Seq<(TheoryId, SharedEq)>>,
    )
        requires
            Self::rounds_run(one, exports),
            Self::rounds_run(other, exports),
            one[0].config.sharing == other[0].config.sharing,
            one[0].uf_id == other[0].uf_id,
            one[0].dl_id == other[0].dl_id,
            sharers(one[0].theories@) == sharers(other[0].theories@),
            one[0].export_epoch == other[0].export_epoch,
            one[0].eqshare_trace@ == other[0].eqshare_trace@,
        ensures
            one.last().eqshare_trace@ == other.last().eqshare_trace@,
    {
        Self::lemma_rounds_trace(one, exports);
        Self::lemma_rounds_trace(other, exports);
        assert(one[0].theories@.len() == sharers(one[0].theories@).len());
        assert(other[0].theories@.len() == sharers(other[0].theories@).len());
    }

    /// An engine over the given theories, without atoms, with an empty
    /// explanation store and the default configuration.
    pub fn new(ctx: Context, sat: K, theories: Vec<Box<dyn Theory>>) -> (eng: Self)
        ensures
            eng.ctx == ctx,
            eng.sat == sat,
            eng.theories == theories,
            eng.uf_id == TheoryId(0),
            eng.dl_id == TheoryId(1),
            eng.atoms@ == Seq::<crate::atoms::Atom>::empty(),
            eng.reasons@ == Seq::<crate::reason::ReasonNode>::empty(),
            eng.shared_terms.numbers() == Set::<u32>::empty(),
            eng.shared_terms.terms() == Set::<crate::term::TermId>::empty(),
            eng.shared_terms.epoch() == 0,
            eng.export_epoch == 0,
            eng.config == EngineConfig::default_value(),
            eng.eqshare_trace@ == Seq::<EqShareEvent>::empty(),
            eng.eqshare_log@ == Seq::<EqShareDiagnostic>::empty(),
            eng.eq_log_seen@ == Set::<DedupKey>::empty(),
            eng.last_atom_count == 0,
            eng.ready(),
    {
        Self {
            ctx,
            sat,
            uf_id: TheoryId(0),
            dl_id: TheoryId(1),
            theories,
            atoms: AtomTable::default(),
            reasons: ReasonArena::default(),
            shared_terms: SharedTermOracle::default(),
            export_epoch: 0,
            config: EngineConfig::default(),
            eqshare_trace: EqShareTrace::default(),
            eqshare_log: Vec::new(),
            eq_log_seen: KeySet::new(),
            last_atom_count: 0,
        }
    }

    /// An engine whose policy is about the theories at `uf_id` and `dl_id`
    /// and opens the directions between them as `sharing` says. A policy
    /// that names a theory that is not registered is refused.
    pub fn with_policy(
        ctx: Context,
        sat: K,
        theories: Vec<Box<dyn Theory>>,
        uf_id: TheoryId,
        dl_id: TheoryId,
        sharing: SharingConfig,
    ) -> (made: Option<Self>)
        ensures
            made is Some <==> uf_id.0 < theories@.len() && dl_id.0 < theories@.len(),
            made matches Some(eng) ==> {
                &&& eng.ctx == ctx
                &&& eng.sat == sat
                &&& eng.theories == theories
                &&& eng.uf_id == uf_id
                &&& eng.dl_id == dl_id
                &&& eng.config == (EngineConfig { sharing, ..EngineConfig::default_value() })
                &&& eng.atoms@ == Seq::<crate::atoms::Atom>::empty()
                &&& eng.reasons@ == Seq::<crate::reason::ReasonNode>::empty()
                &&& eng.shared_terms.numbers() == Set::<u32>::empty()
                &&& eng.shared_terms.terms() == Set::<crate::term::TermId>::empty()
                &&& eng.shared_terms.epoch() == 0
                &&& eng.export_epoch == 0
                &&& eng.eqshare_trace@ == Seq::<EqShareEvent>::empty()
                &&& eng.eqshare_log@ == Seq::<EqShareDiagnostic>::empty()
                &&& eng.eq_log_seen@ == Set::<DedupKey>::empty()
                &&& eng.last_atom_count == 0
                &&& eng.ready()
            },
    {
        if uf_id.0 < theories.len() && dl_id.0 < theories.len() {
            let mut eng = Self::new(ctx, sat, theories);
            eng.uf_id = uf_id;
            eng.dl_id = dl_id;
            eng.config.sharing = sharing;
            Some(eng)
        } else {
            None
        }
    }

    /// Computes the shared terms anew if the number of atoms has changed
    /// since they were last computed.
    pub fn maybe_recompute_shared_terms(&mut self)
        requires
            atoms_in_range(old(self).atoms@, old(self).theories@.len() as int),
        ensures
            old(self).refreshed(final(self).shared_terms),
            final(self).last_atom_count == old(self).atoms@.len(),
            *final(self) == (SmtEngine {
                shared_terms: final(self).shared_terms,
                last_atom_count: final(self).last_atom_count,
                ..*old(self)
            }),
    {
        let n = self.atoms.len();
        if n != self.last_atom_count {
            self.shared_terms.recompute(&self.atoms, self.theories.as_slice());
            self.last_atom_count = n;
        }
    }

    /// Asks every theory with the sharing capability, in registration
    /// order, for the equalities it exports, each tagged with its exporter.
    /// Every theory sees the same oracle.
    pub fn collect_exports(&mut self) -> (exported: Vec<(TheoryId, SharedEq)>)
        requires
            old(self).reasons.wf(),
        ensures
            old(self).grown(*final(self)),
            asked_upto(
                old(self).theories@,
                final(self).theories@,
                old(self).theories@.len() as int,
                old(self).shared_terms.terms(),
                old(self).export_epoch,
            ),
            exported@ == old(self).round_exports(final(self).theories@),
            exports_valid(
                exported@,
                old(self).theories@.len() as int,
                final(self).reasons@.len() as int,
            ),
            exports_ordered(exported@),
            *final(self) == (SmtEngine {
                theories: final(self).theories,
                reasons: final(self).reasons,
                ..*old(self)
            }),
    {
        collect_from(&mut self.theories, &self.shared_terms, self.export_epoch, &mut self.reasons)
    }

    /// Delivers each exported equality, in the order given, to every other
    /// theory that the policy allows, in registration order. Every delivery
    /// is traced. Where diagnostics are enabled, a delivery is also reported
    /// the first time its key occurs; it is delivered in any case.
    pub fn broadcast(&mut self, exported: &Vec<(TheoryId, SharedEq)>)
        requires
            old(self).reasons.wf(),
            exports_valid(
                exported@,
                old(self).theories@.len() as int,
                old(self).reasons@.len() as int,
            ),
        ensures
            old(self).grown(*final(self)),
            old(self).delivered(*final(self), exported@),
            *final(self) == (SmtEngine {
                theories: final(self).theories,
                reasons: final(self).reasons,
                eqshare_trace: final(self).eqshare_trace,
                eqshare_log: final(self).eqshare_log,
                eq_log_seen: final(self).eq_log_seen,
                ..*old(self)
            }),
    {
        let debug = self.config.debug_eq;
        let logging = debug.enabled && (debug.log_exports || debug.log_imports);
        deliver_all(
            &mut self.theories,
            &mut self.reasons,
            &mut self.eqshare_trace,
            &mut self.eqshare_log,
            &mut self.eq_log_seen,
            &self.config.sharing,
            self.uf_id,
            self.dl_id,
            logging,
            exported,
            self.export_epoch,
        );
    }

    /// One combination round: refresh the shared terms, collect the exports
    /// of every theory, deliver them, and advance the round counter.
    pub fn equality_sharing_round(&mut self)
        requires
            old(self).ready(),
        ensures
            old(self).round_step(*final(self)),
    {
        self.maybe_recompute_shared_terms();
        let debug = self.config.debug_eq;
        if debug.enabled && debug.log_shared_stats {
            let count = self.shared_terms.shared_count();
            self.eqshare_log.push(
                EqShareDiagnostic::SharedStats { epoch: self.export_epoch, shared_terms: count },
            );
        }
        let ghost stats = old(self).stats_records(self.shared_terms);
        assert(self.eqshare_log@ =~= old(self).eqshare_log@ + stats);
        let ghost mid = *self;
        let exported = self.collect_exports();
        let ghost after_asking = *self;
        self.broadcast(&exported);
        self.export_epoch = self.export_epoch.wrapping_add(1);
        proof {
            let found = old(self).round_deliveries(exported@);
            let first = old(self).theories@;
            let asked = after_asking.theories@;
            let last = self.theories@;
            assert(mid.theories@ == first);
            assert(sharers(asked) =~= sharers(first));
            assert(after_asking.round_deliveries(exported@) == found);
            assert forall|t: int| 0 <= t < first.len() implies #[trigger] round_answers(first, last)[t]
                == round_answers(first, asked)[t] by {
                if first[t].shares() {
                    let k = first[t].calls().len() as int;
                    assert(asked[t].calls().len() == k + 1);
                    assert(last[t].calls()[k] == asked[t].calls()[k]);
                }
            }
            assert(round_answers(first, last) =~= round_answers(first, asked));
            assert(exported@ == old(self).round_exports(last));
            assert forall|t: int| 0 <= t < last.len() implies {
                &&& (#[trigger] last[t]).shares() == first[t].shares()
                &&& last[t].calls() == if first[t].shares() {
                    first[t].calls().push(
                        SharingCall::Export {
                            shared: self.shared_terms.terms(),
                            epoch: old(self).export_epoch,
                            answer: round_answers(first, last)[t],
                        },
                    ) + imports_of(addressed_to(found, TheoryId(t as usize)))
                } else {
                    first[t].calls()
                }
            } by {
                assert(asked[t].shares() == first[t].shares());
                assert(round_answers(first, last)[t] == round_answers(first, asked)[t]);
                if !first[t].shares() {
                    assert(old(self).theories.len() == first.len());
                    assert(TheoryId(t as usize).0 == t);
                    assert(sharers(first)[t] == first[t].shares());
                    lemma_addressed_deliveries(
                        old(self).config.sharing,
                        old(self).uf_id,
                        old(self).dl_id,
                        sharers(first),
                        exported@,
                        first.len() as nat,
                        old(self).export_epoch,
                        TheoryId(t as usize),
                    );
                    lemma_received_by_none(
                        old(self).config.sharing,
                        old(self).uf_id,
                        old(self).dl_id,
                        sharers(first),
                        exported@,
                        TheoryId(t as usize),
                    );
                    assert(asked[t].calls() + imports_of(Seq::<SharedEq>::empty()) =~= asked[t].calls());
                }
            }
            if old(self).logging() {
                assert(self.eqshare_log@ =~= old(self).eqshare_log@ + stats + exchange_records(
                    first_seen(found, old(self).eq_log_seen@),
                ));
            }
            assert(exports_valid(
                exported@,
                old(self).theories@.len() as int,
                self.reasons@.len() as int,
            ));
            assert(old(self).round_with(*self, exported@));
        }
    }

    /// Runs one round. No search is attached to the engine, so the answer
    /// is always `Unknown`.
    pub fn check_sat(&mut self) -> (answer: CheckSat)
        requires
            old(self).ready(),
        ensures
            answer is Unknown,
            old(self).round_step(*final(self)),
    {
        self.equality_sharing_round();
        CheckSat::Unknown
    }

    /// Drains the trace of deliveries.
    pub fn take_eqshare_events(&mut self) -> (events: Vec<EqShareEvent>)
        ensures
            events@ == old(self).eqshare_trace@,
            final(self).eqshare_trace@ == Seq::<EqShareEvent>::empty(),
            *final(self) == (SmtEngine { eqshare_trace: final(self).eqshare_trace, ..*old(self) }),
    {
        self.eqshare_trace.take()
    }

    /// Drains the diagnostic records.
    pub fn take_eqshare_log(&mut self) -> (records: Vec<EqShareDiagnostic>)
        ensures
            records@ == old(self).eqshare_log@,
            final(self).eqshare_log@ == Seq::<EqShareDiagnostic>::empty(),
            *final(self) == (SmtEngine { eqshare_log: final(self).eqshare_log, ..*old(self) }),
    {
        let mut records: Vec<EqShareDiagnostic> = Vec::new();
        core::mem::swap(&mut self.eqshare_log, &mut records);
        records
    }

    /// Whether the engine is ready for a round.
    pub fn is_ready(&self) -> (b: bool)
        ensures
            b == self.ready(),
    {
        self.reasons.is_well_formed() && self.atoms.owners_below(self.theories.len())
    }

    /// Renders the trace of deliveries, if the store is well formed and each
    /// event that the rendering shows names two registered theories and a
    /// justification in the store.
    pub fn try_dump_eqshare_dot(&self) -> (out: Option<String>)
        ensures
            out is Some <==> self.reasons.wf() && events_ok(
                shown_events(self.eqshare_trace@, 300),
                self.reasons@.len(),
                self.theories@.len() as nat,
            ),
            out matches Some(text) ==> exists|listing: Seq<(u32, u32)>|
                {
                    &&& lists_numbering(
                        listing,
                        numbered_terms(shown_events(self.eqshare_trace@, 300)),
                    )
                    &&& text@ == #[trigger] eqshare_dot_text(
                        self.reasons@,
                        self.eqshare_trace@,
                        self.display_names(),
                        EqDotLimits {
                            max_events: 300,
                            max_reason_lits: 6,
                            include_reason_nodes: false,
                        },
                        listing,
                    )
                },
    {
        if self.reasons.is_well_formed() && shown_events_ok(
            self.eqshare_trace.events(),
            300,
            self.reasons.len(),
            self.theories.len(),
        ) {
            Some(self.dump_eqshare_dot())
        } else {
            None
        }
    }

    /// Renders the explanation DAG below `root`, if the store is well
    /// formed and holds `root`.
    pub fn try_dump_conflict_reason_dot(&self, root: ReasonId) -> (out: Option<String>)
        ensures
            out is Some <==> self.reasons.wf() && root.0 < self.reasons@.len(),
            out matches Some(text) ==> text@ == reason_dot_text(
                self.reasons@,
                root,
                DotLimits { max_reason_nodes: 300, max_lit_label_len: 64 },
            ),
    {
        if self.reasons.is_well_formed() && (root.0 as usize) < self.reasons.len() {
            Some(self.dump_conflict_reason_dot(root))
        } else {
            None
        }
    }

    /// The display names of the theories, in registration order, as texts.
    pub open spec fn display_names(&self) -> Seq<Seq<char>> {
        Seq::new(self.theories@.len(), |i: int| self.theories@[i].display_name())
    }

    /// The display names of the theories, in registration order.
    pub fn theory_names(&self) -> (names: Vec<&'static str>)
        ensures
            names_view(names@) == self.display_names(),
    {
        let mut names: Vec<&'static str> = Vec::new();
        let mut i: usize = 0;
        while i < self.theories.len()
            invariant
                i <= self.theories@.len(),
                names@.len() == i,
                forall|k: int| 0 <= k < i ==> (#[trigger] names@[k])@ == self.theories@[k].display_name(),
            decreases self.theories@.len() - i,
        {
            names.push(self.theories[i].name());
            i = i + 1;
        }
        proof {
            assert(names_view(names@) =~= self.display_names());
        }
        names
    }

    /// What the rendering of a diagnostic record needs: the record of a
    /// delivery names two registered theories and a justification in the
    /// store.
    pub open spec fn can_render(&self, record: EqShareDiagnostic) -> bool {
        match record {
            EqShareDiagnostic::SharedStats { .. } => true,
            EqShareDiagnostic::Exchange(ev) => event_ok(
                ev,
                self.reasons@.len(),
                self.theories@.len() as nat,
            ),
        }
    }

    /// Whether a diagnostic record can be put into words.
    pub fn renderable(&self, record: &EqShareDiagnostic) -> (b: bool)
        ensures
            b == self.can_render(*record),
    {
        match record {
            EqShareDiagnostic::SharedStats { .. } => true,
            EqShareDiagnostic::Exchange(ev) => {
                (ev.explain.0 as usize) < self.reasons.len() && ev.src.0 < self.theories.len()
                    && ev.dst.0 < self.theories.len()
            },
        }
    }

    /// Puts a diagnostic record into words. A delivery is reported with the
    /// names that the two theories give themselves and with as many literals
    /// of its justification as the configuration allows.
    pub fn render_diagnostic(&self, record: &EqShareDiagnostic) -> (line: String)
        requires
            self.reasons.wf(),
            self.can_render(*record),
        ensures
            self.is_rendering(*record, line@),
    {
        match record {
            EqShareDiagnostic::SharedStats { epoch, shared_terms } => render_stats(
                *epoch,
                *shared_terms,
            ),
            EqShareDiagnostic::Exchange(ev) => {
                let src_name = self.theories[ev.src.0].name();
                let dst_name = self.theories[ev.dst.0].name();
                let lits = self.reasons.expand_lits(ev.explain);
                render_exchange(ev, src_name, dst_name, &lits, self.config.debug_eq.max_reason_lits)
            },
        }
    }

    /// `line` puts `record` into words.
    pub open spec fn is_rendering(&self, record: EqShareDiagnostic, line: Seq<char>) -> bool {
        match record {
            EqShareDiagnostic::SharedStats { epoch, shared_terms } => line == stats_line(
                epoch,
                shared_terms,
            ),
            EqShareDiagnostic::Exchange(ev) => line == exchange_line(
                ev,
                self.theories@[ev.src.0 as int].display_name(),
                self.theories@[ev.dst.0 as int].display_name(),
                expand(self.reasons@, ev.explain),
                self.config.debug_eq.max_reason_lits as nat,
            ),
        }
    }

    /// Puts a diagnostic record into words, where the store is well formed
    /// and the record can be rendered.
    pub fn try_render_diagnostic(&self, record: &EqShareDiagnostic) -> (line: Option<String>)
        ensures
            line is Some <==> self.reasons.wf() && self.can_render(*record),
            line matches Some(text) ==> self.is_rendering(*record, text@),
    {
        if self.reasons.is_well_formed() && self.renderable(record) {
            Some(self.render_diagnostic(record))
        } else {
            None
        }
    }

    /// Renders the trace of deliveries in the DOT language, within the
    /// default bounds and with the names that the theories give themselves.
    pub fn dump_eqshare_dot(&self) -> (out: String)
        requires
            self.reasons.wf(),
            events_ok(
                shown_events(self.eqshare_trace@, 300),
                self.reasons@.len(),
                self.theories@.len() as nat,
            ),
        ensures
            exists|listing: Seq<(u32, u32)>|
                {
                    &&& lists_numbering(
                        listing,
                        numbered_terms(shown_events(self.eqshare_trace@, 300)),
                    )
                    &&& out@ == #[trigger] eqshare_dot_text(
                        self.reasons@,
                        self.eqshare_trace@,
                        self.display_names(),
                        EqDotLimits {
                            max_events: 300,
                            max_reason_lits: 6,
                            include_reason_nodes: false,
                        },
                        listing,
                    )
                },
    {
        let names = self.theory_names();
        let limits = EqDotLimits::default();
        proof {
            assert(names_view(names@).len() == names@.len());
            assert(self.display_names().len() == self.theories@.len());
        }
        let out = eqshare_to_dot(
            &self.ctx,
            &self.reasons,
            self.eqshare_trace.events(),
            names.as_slice(),
            limits,
        );
        proof {
            let listing = choose|listing: Seq<(u32, u32)>|
                {
                    &&& #[trigger] lists_numbering(
                        listing,
                        numbered_terms(shown_events(self.eqshare_trace@, limits.max_events as nat)),
                    )
                    &&& out@ == eqshare_dot_text(
                        self.reasons@,
                        self.eqshare_trace@,
                        names_view(names@),
                        limits,
                        listing,
                    )
                };
            assert(out@ == eqshare_dot_text(
                self.reasons@,
                self.eqshare_trace@,
                self.display_names(),
                EqDotLimits { max_events: 300, max_reason_lits: 6, include_reason_nodes: false },
                listing,
            ));
        }
        out
    }

    /// Renders the explanation DAG below `root` in the DOT language, within
    /// the default bounds.
    pub fn dump_conflict_reason_dot(&self, root: ReasonId) -> (out: String)
        requires
            self.reasons.wf(),
            root.0 < self.reasons@.len(),
        ensures
            out@ == reason_dot_text(
                self.reasons@,
                root,
                DotLimits { max_reason_nodes: 300, max_lit_label_len: 64 },
            ),
    {
        reason_to_dot(&self.reasons, root, DotLimits::default())
    }
}

} // verus!
