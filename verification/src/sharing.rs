//! The rules of the equality exchange: who receives what, in which order, and
//! which deliveries are reported.
//!
//! Everything here is a function of plain values. The engine follows these
//! rules when it runs a round.

use crate::atoms::TheoryId;
use crate::config::SharingConfig;
use crate::eqshare_trace::EqShareEvent;
use crate::theory::SharedEq;
use vstd::prelude::*;

verus! {

/// The key under which a delivery is reported once: the two theories, the
/// two terms in ascending order, and the round.
pub type DedupKey = (usize, usize, u32, u32, u64);

/// Whether the policy lets `src` send to `dst`. Only the two directions
/// between the theories `uf` and `dl` can be closed.
pub open spec fn pair_allowed(
    sharing: SharingConfig,
    uf: TheoryId,
    dl: TheoryId,
    src: TheoryId,
    dst: TheoryId,
) -> bool {
    if src == uf && dst == dl {
        sharing.uf_to_dl
    } else if src == dl && dst == uf {
        sharing.dl_to_uf
    } else {
        true
    }
}

/// Whether `dst` receives what `src` exports: it is another theory, it has
/// the sharing capability (`shares` says for each theory whether it has),
/// and the policy allows the direction.
pub open spec fn is_receiver(
    sharing: SharingConfig,
    uf: TheoryId,
    dl: TheoryId,
    shares: Seq<bool>,
    src: TheoryId,
    dst: TheoryId,
) -> bool {
    &&& dst != src
    &&& dst.0 < shares.len()
    &&& shares[dst.0 as int]
    &&& pair_allowed(sharing, uf, dl, src, dst)
}

/// The delivery of `eq` from `src` to `dst` in round `epoch`.
pub open spec fn delivery(src: TheoryId, dst: TheoryId, eq: SharedEq, epoch: u64) -> EqShareEvent {
    EqShareEvent { epoch, src, dst, a: eq.a, b: eq.b, explain: eq.explain }
}

/// The deliveries of one exported equality to the receivers among the first
/// `n` theories, in registration order.
pub open spec fn fan_out(
    sharing: SharingConfig,
    uf: TheoryId,
    dl: TheoryId,
    shares: Seq<bool>,
    src: TheoryId,
    eq: SharedEq,
    n: nat,
    epoch: u64,
) -> Seq<EqShareEvent>
    decreases n,
{
    if n == 0 {
        Seq::empty()
    } else {
        let dst = TheoryId((n - 1) as usize);
        let before = fan_out(sharing, uf, dl, shares, src, eq, (n - 1) as nat, epoch);
        if is_receiver(sharing, uf, dl, shares, src, dst) {
            before.push(delivery(src, dst, eq, epoch))
        } else {
            before
        }
    }
}

/// The deliveries of a round: every exported equality, in the order of
/// export, to each of its receivers among `n` theories.
pub open spec fn deliveries(
    sharing: SharingConfig,
    uf: TheoryId,
    dl: TheoryId,
    shares: Seq<bool>,
    exported: Seq<(TheoryId, SharedEq)>,
    n: nat,
    epoch: u64,
) -> Seq<EqShareEvent>
    decreases exported.len(),
{
    if exported.len() == 0 {
        Seq::empty()
    } else {
        deliveries(sharing, uf, dl, shares, exported.drop_last(), n, epoch) + fan_out(
            sharing,
            uf,
            dl,
            shares,
            exported.last().0,
            exported.last().1,
            n,
            epoch,
        )
    }
}

/// The key of a delivery. Swapping the two terms does not change it.
pub open spec fn dedup_key(ev: EqShareEvent) -> DedupKey {
    if ev.a.0 < ev.b.0 {
        (ev.src.0, ev.dst.0, ev.a.0, ev.b.0, ev.epoch)
    } else {
        (ev.src.0, ev.dst.0, ev.b.0, ev.a.0, ev.epoch)
    }
}

/// The keys of a sequence of deliveries.
pub open spec fn keys_of(events: Seq<EqShareEvent>) -> Set<DedupKey> {
    Set::new(|k: DedupKey| exists|i: int| 0 <= i < events.len() && dedup_key(#[trigger] events[i]) == k)
}

/// The deliveries that are reported: those whose key is neither in `seen`
/// nor the key of an earlier delivery.
pub open spec fn first_seen(events: Seq<EqShareEvent>, seen: Set<DedupKey>) -> Seq<EqShareEvent>
    decreases events.len(),
{
    if events.len() == 0 {
        Seq::empty()
    } else {
        let earlier = events.drop_last();
        let reported = first_seen(earlier, seen);
        if seen.contains(dedup_key(events.last())) || keys_of(earlier).contains(
            dedup_key(events.last()),
        ) {
            reported
        } else {
            reported.push(events.last())
        }
    }
}

/// The same delivery in another round.
pub open spec fn in_round(ev: EqShareEvent, epoch: u64) -> EqShareEvent {
    EqShareEvent { epoch, ..ev }
}

/// The same deliveries in another round.
pub open spec fn all_in_round(events: Seq<EqShareEvent>, epoch: u64) -> Seq<EqShareEvent> {
    events.map_values(|ev: EqShareEvent| in_round(ev, epoch))
}

/// No key of the set belongs to round `epoch`.
pub open spec fn no_key_of_round(seen: Set<DedupKey>, epoch: u64) -> bool {
    forall|k: DedupKey| #[trigger] seen.contains(k) ==> k.4 != epoch
}

/// What one theory exported, each equality tagged with the theory.
pub open spec fn tagged(src: TheoryId, out: Seq<SharedEq>) -> Seq<(TheoryId, SharedEq)> {
    out.map_values(|eq: SharedEq| (src, eq))
}

/// The exports of the first `n` theories in one list: what the first theory
/// exported, then what the second exported, and so on, each equality tagged
/// with its exporter. `lists` holds for each theory what it exported.
pub open spec fn gathered(lists: Seq<Seq<SharedEq>>, n: nat) -> Seq<(TheoryId, SharedEq)>
    decreases n,
{
    if n == 0 {
        Seq::empty()
    } else {
        gathered(lists, (n - 1) as nat) + tagged(TheoryId((n - 1) as usize), lists[n - 1])
    }
}

/// The equality that a delivery carries.
pub open spec fn carried(ev: EqShareEvent) -> SharedEq {
    SharedEq { a: ev.a, b: ev.b, explain: ev.explain }
}

/// The equalities of the deliveries that are addressed to `dst`, in the
/// order of delivery.
pub open spec fn addressed_to(events: Seq<EqShareEvent>, dst: TheoryId) -> Seq<SharedEq>
    decreases events.len(),
{
    if events.len() == 0 {
        Seq::empty()
    } else {
        let before = addressed_to(events.drop_last(), dst);
        if events.last().dst == dst {
            before.push(carried(events.last()))
        } else {
            before
        }
    }
}

/// The equalities that the theory `dst` is handed in a round, oldest first:
/// those of the exported equalities, in the order of export, whose exporter
/// is another theory that the policy lets send to `dst`, if `dst` has the
/// sharing capability, and none if it has not.
pub open spec fn received_by(
    sharing: SharingConfig,
    uf: TheoryId,
    dl: TheoryId,
    shares: Seq<bool>,
    exported: Seq<(TheoryId, SharedEq)>,
    dst: TheoryId,
) -> Seq<SharedEq>
    decreases exported.len(),
{
    if exported.len() == 0 {
        Seq::empty()
    } else {
        let before = received_by(sharing, uf, dl, shares, exported.drop_last(), dst);
        if is_receiver(sharing, uf, dl, shares, exported.last().0, dst) {
            before.push(exported.last().1)
        } else {
            before
        }
    }
}

/// Whether the policy lets `src` send to `dst`.
pub fn allows(sharing: &SharingConfig, uf: TheoryId, dl: TheoryId, src: TheoryId, dst: TheoryId) -> (b:
    bool)
    ensures
        b == pair_allowed(*sharing, uf, dl, src, dst),
{
    if src.0 == uf.0 && dst.0 == dl.0 {
        sharing.uf_to_dl
    } else if src.0 == dl.0 && dst.0 == uf.0 {
        sharing.dl_to_uf
    } else {
        true
    }
}

/// The key under which a delivery is reported once.
pub fn key_of(ev: &EqShareEvent) -> (key: DedupKey)
    ensures
        key == dedup_key(*ev),
{
    if ev.a.0 < ev.b.0 {
        (ev.src.0, ev.dst.0, ev.a.0, ev.b.0, ev.epoch)
    } else {
        (ev.src.0, ev.dst.0, ev.b.0, ev.a.0, ev.epoch)
    }
}

/// Every delivery of an exported equality goes from its exporter to another
/// theory among the first `n`, in a direction that the policy allows; the
/// receivers come in ascending order.
pub proof fn lemma_fan_out_sound(
    sharing: SharingConfig,
    uf: TheoryId,
    dl: TheoryId,
    shares: Seq<bool>,
    src: TheoryId,
    eq: SharedEq,
    n: nat,
    epoch: u64,
)
    requires
        n <= usize::MAX,
    ensures
        forall|k: int|
            0 <= k < fan_out(sharing, uf, dl, shares, src, eq, n, epoch).len() ==> {
                let ev = #[trigger] fan_out(sharing, uf, dl, shares, src, eq, n, epoch)[k];
                &&& ev == delivery(src, ev.dst, eq, epoch)
                &&& ev.dst.0 < n
                &&& ev.dst != src
                &&& pair_allowed(sharing, uf, dl, src, ev.dst)
                &&& ev.dst.0 < shares.len() && shares[ev.dst.0 as int]
            },
        forall|k: int, l: int|
            0 <= k < l < fan_out(sharing, uf, dl, shares, src, eq, n, epoch).len() ==> (#[trigger] fan_out(
                sharing,
                uf,
                dl,
                shares,
                src,
                eq,
                n,
                epoch,
            )[k]).dst.0 < (#[trigger] fan_out(sharing, uf, dl, shares, src, eq, n, epoch)[l]).dst.0,
    decreases n,
{
    if n > 0 {
        lemma_fan_out_sound(sharing, uf, dl, shares, src, eq, (n - 1) as nat, epoch);
        let out = fan_out(sharing, uf, dl, shares, src, eq, n, epoch);
        let before = fan_out(sharing, uf, dl, shares, src, eq, (n - 1) as nat, epoch);
        let dst = TheoryId((n - 1) as usize);
        assert(dst.0 == n - 1);
        assert forall|k: int| 0 <= k < out.len() implies {
            let ev = #[trigger] out[k];
            &&& ev == delivery(src, ev.dst, eq, epoch)
            &&& ev.dst.0 < n
            &&& ev.dst != src
            &&& pair_allowed(sharing, uf, dl, src, ev.dst)
            &&& ev.dst.0 < shares.len() && shares[ev.dst.0 as int]
        } by {
            if k < before.len() {
                assert(out[k] == before[k]);
            }
        }
        assert forall|k: int, l: int| 0 <= k < l < out.len() implies (#[trigger] out[k]).dst.0 < (
        #[trigger] out[l]).dst.0 by {
            assert(out[k] == before[k]);
            if l < before.len() {
                assert(out[l] == before[l]);
            }
        }
    }
}

/// Every receiver among the first `n` theories gets the exported equality.
pub proof fn lemma_fan_out_complete(
    sharing: SharingConfig,
    uf: TheoryId,
    dl: TheoryId,
    shares: Seq<bool>,
    src: TheoryId,
    eq: SharedEq,
    n: nat,
    epoch: u64,
    dst: TheoryId,
)
    requires
        dst.0 < n,
        is_receiver(sharing, uf, dl, shares, src, dst),
    ensures
        fan_out(sharing, uf, dl, shares, src, eq, n, epoch).contains(delivery(src, dst, eq, epoch)),
    decreases n,
{
    let out = fan_out(sharing, uf, dl, shares, src, eq, n, epoch);
    let last = TheoryId((n - 1) as usize);
    let before = fan_out(sharing, uf, dl, shares, src, eq, (n - 1) as nat, epoch);
    if dst.0 == n - 1 {
        assert(dst == last);
        assert(out == before.push(delivery(src, dst, eq, epoch)));
        assert(out[out.len() - 1] == delivery(src, dst, eq, epoch));
    } else {
        lemma_fan_out_complete(sharing, uf, dl, shares, src, eq, (n - 1) as nat, epoch, dst);
        let k = choose|k: int| 0 <= k < before.len() && before[k] == delivery(src, dst, eq, epoch);
        assert(out[k] == delivery(src, dst, eq, epoch));
    }
}

/// No theory receives its own equality, and no equality crosses a direction
/// that the policy closes: every delivery of a round goes from the exporter
/// of an exported equality to another of the `n` theories, in an allowed
/// direction.
pub proof fn lemma_deliveries_sound(
    sharing: SharingConfig,
    uf: TheoryId,
    dl: TheoryId,
    shares: Seq<bool>,
    exported: Seq<(TheoryId, SharedEq)>,
    n: nat,
    epoch: u64,
)
    requires
        n <= usize::MAX,
    ensures
        forall|k: int|
            0 <= k < deliveries(sharing, uf, dl, shares, exported, n, epoch).len() ==> {
                let ev = #[trigger] deliveries(sharing, uf, dl, shares, exported, n, epoch)[k];
                &&& ev.epoch == epoch
                &&& ev.dst.0 < n
                &&& ev.dst != ev.src
                &&& pair_allowed(sharing, uf, dl, ev.src, ev.dst)
                &&& ev.dst.0 < shares.len() && shares[ev.dst.0 as int]
                &&& exists|i: int|
                    0 <= i < exported.len() && ev == delivery(
                        (#[trigger] exported[i]).0,
                        ev.dst,
                        exported[i].1,
                        epoch,
                    )
            },
    decreases exported.len(),
{
    if exported.len() > 0 {
        let earlier = exported.drop_last();
        let head = deliveries(sharing, uf, dl, shares, earlier, n, epoch);
        let tail = fan_out(sharing, uf, dl, shares, exported.last().0, exported.last().1, n, epoch);
        lemma_deliveries_sound(sharing, uf, dl, shares, earlier, n, epoch);
        lemma_fan_out_sound(sharing, uf, dl, shares, exported.last().0, exported.last().1, n, epoch);
        let all = deliveries(sharing, uf, dl, shares, exported, n, epoch);
        assert(all == head + tail);
        assert forall|k: int| 0 <= k < all.len() implies {
            let ev = #[trigger] all[k];
            &&& ev.epoch == epoch
            &&& ev.dst.0 < n
            &&& ev.dst != ev.src
            &&& pair_allowed(sharing, uf, dl, ev.src, ev.dst)
            &&& ev.dst.0 < shares.len() && shares[ev.dst.0 as int]
            &&& exists|i: int|
                0 <= i < exported.len() && ev == delivery(
                    (#[trigger] exported[i]).0,
                    ev.dst,
                    exported[i].1,
                    epoch,
                )
        } by {
            let ev = all[k];
            if k < head.len() {
                assert(ev == head[k]);
                let i = choose|i: int|
                    0 <= i < earlier.len() && ev == delivery(
                        (#[trigger] earlier[i]).0,
                        ev.dst,
                        earlier[i].1,
                        epoch,
                    );
                assert(earlier[i] == exported[i]);
            } else {
                assert(ev == tail[k - head.len()]);
                let i = exported.len() - 1;
                assert(exported[i] == exported.last());
            }
        }
    }
}

/// Every exported equality is delivered to each of its receivers.
pub proof fn lemma_deliveries_complete(
    sharing: SharingConfig,
    uf: TheoryId,
    dl: TheoryId,
    shares: Seq<bool>,
    exported: Seq<(TheoryId, SharedEq)>,
    n: nat,
    epoch: u64,
    i: int,
    dst: TheoryId,
)
    requires
        0 <= i < exported.len(),
        dst.0 < n,
        is_receiver(sharing, uf, dl, shares, exported[i].0, dst),
    ensures
        deliveries(sharing, uf, dl, shares, exported, n, epoch).contains(
            delivery(exported[i].0, dst, exported[i].1, epoch),
        ),
    decreases exported.len(),
{
    let earlier = exported.drop_last();
    let head = deliveries(sharing, uf, dl, shares, earlier, n, epoch);
    let tail = fan_out(sharing, uf, dl, shares, exported.last().0, exported.last().1, n, epoch);
    let all = deliveries(sharing, uf, dl, shares, exported, n, epoch);
    let wanted = delivery(exported[i].0, dst, exported[i].1, epoch);
    assert(all == head + tail);
    if i == exported.len() - 1 {
        lemma_fan_out_complete(sharing, uf, dl, shares, exported[i].0, exported[i].1, n, epoch, dst);
        let k = choose|k: int| 0 <= k < tail.len() && tail[k] == wanted;
        assert(all[head.len() + k] == wanted);
    } else {
        assert(earlier[i] == exported[i]);
        lemma_deliveries_complete(sharing, uf, dl, shares, earlier, n, epoch, i, dst);
        let k = choose|k: int| 0 <= k < head.len() && head[k] == wanted;
        assert(all[k] == wanted);
    }
}

/// The order of delivery does not depend on the round: the same exports give
/// the same deliveries in every round, up to the round they are labelled
/// with.
pub proof fn lemma_deliveries_deterministic(
    sharing: SharingConfig,
    uf: TheoryId,
    dl: TheoryId,
    shares: Seq<bool>,
    exported: Seq<(TheoryId, SharedEq)>,
    n: nat,
    e1: u64,
    e2: u64,
)
    ensures
        deliveries(sharing, uf, dl, shares, exported, n, e2) == all_in_round(
            deliveries(sharing, uf, dl, shares, exported, n, e1),
            e2,
        ),
    decreases exported.len(),
{
    let d1 = deliveries(sharing, uf, dl, shares, exported, n, e1);
    let d2 = deliveries(sharing, uf, dl, shares, exported, n, e2);
    if exported.len() == 0 {
        assert(d2 =~= all_in_round(d1, e2));
    } else {
        let earlier = exported.drop_last();
        let src = exported.last().0;
        let eq = exported.last().1;
        lemma_deliveries_deterministic(sharing, uf, dl, shares, earlier, n, e1, e2);
        lemma_fan_out_deterministic(sharing, uf, dl, shares, src, eq, n, e1, e2);
        let h1 = deliveries(sharing, uf, dl, shares, earlier, n, e1);
        let t1 = fan_out(sharing, uf, dl, shares, src, eq, n, e1);
        assert(all_in_round(h1 + t1, e2) =~= all_in_round(h1, e2) + all_in_round(t1, e2));
    }
}

/// The receivers of an exported equality do not depend on the round.
pub proof fn lemma_fan_out_deterministic(
    sharing: SharingConfig,
    uf: TheoryId,
    dl: TheoryId,
    shares: Seq<bool>,
    src: TheoryId,
    eq: SharedEq,
    n: nat,
    e1: u64,
    e2: u64,
)
    ensures
        fan_out(sharing, uf, dl, shares, src, eq, n, e2) == all_in_round(
            fan_out(sharing, uf, dl, shares, src, eq, n, e1),
            e2,
        ),
    decreases n,
{
    let f1 = fan_out(sharing, uf, dl, shares, src, eq, n, e1);
    let f2 = fan_out(sharing, uf, dl, shares, src, eq, n, e2);
    if n == 0 {
        assert(f2 =~= all_in_round(f1, e2));
    } else {
        lemma_fan_out_deterministic(sharing, uf, dl, shares, src, eq, (n - 1) as nat, e1, e2);
        let dst = TheoryId((n - 1) as usize);
        let b1 = fan_out(sharing, uf, dl, shares, src, eq, (n - 1) as nat, e1);
        if is_receiver(sharing, uf, dl, shares, src, dst) {
            assert(in_round(delivery(src, dst, eq, e1), e2) == delivery(src, dst, eq, e2));
            assert(all_in_round(b1.push(delivery(src, dst, eq, e1)), e2) =~= all_in_round(b1, e2).push(
                delivery(src, dst, eq, e2),
            ));
        }
    }
}

/// Two deliveries of one round have the same key in every round or in none.
proof fn lemma_key_in_round(x: EqShareEvent, y: EqShareEvent, e1: u64, e2: u64)
    requires
        x.epoch == e1,
        y.epoch == e1,
    ensures
        dedup_key(x) == dedup_key(y) <==> dedup_key(in_round(x, e2)) == dedup_key(in_round(y, e2)),
{
}

/// Which deliveries are reported does not depend on the round either, as
/// long as the keys seen before are keys of other rounds: the same
/// deliveries are reported, in the same order.
pub proof fn lemma_first_seen_deterministic(
    events: Seq<EqShareEvent>,
    seen1: Set<DedupKey>,
    seen2: Set<DedupKey>,
    e1: u64,
    e2: u64,
)
    requires
        forall|i: int| 0 <= i < events.len() ==> (#[trigger] events[i]).epoch == e1,
        no_key_of_round(seen1, e1),
        no_key_of_round(seen2, e2),
    ensures
        first_seen(all_in_round(events, e2), seen2) == all_in_round(first_seen(events, seen1), e2),
    decreases events.len(),
{
    let moved = all_in_round(events, e2);
    if events.len() == 0 {
        assert(first_seen(moved, seen2) =~= all_in_round(first_seen(events, seen1), e2));
    } else {
        let earlier = events.drop_last();
        let last = events.last();
        assert forall|i: int| 0 <= i < earlier.len() implies (#[trigger] earlier[i]).epoch == e1 by {
            assert(earlier[i] == events[i]);
        }
        lemma_first_seen_deterministic(earlier, seen1, seen2, e1, e2);
        assert(moved.drop_last() =~= all_in_round(earlier, e2));
        assert(moved.last() == in_round(last, e2));
        assert(last == events[events.len() - 1]);
        assert(dedup_key(last).4 == e1);
        assert(dedup_key(in_round(last, e2)).4 == e2);
        let k1 = dedup_key(last);
        let k2 = dedup_key(in_round(last, e2));
        if keys_of(earlier).contains(k1) {
            let i = choose|i: int| 0 <= i < earlier.len() && dedup_key(#[trigger] earlier[i]) == k1;
            lemma_key_in_round(earlier[i], last, e1, e2);
            assert(all_in_round(earlier, e2)[i] == in_round(earlier[i], e2));
            assert(keys_of(all_in_round(earlier, e2)).contains(k2));
        }
        if keys_of(all_in_round(earlier, e2)).contains(k2) {
            let i = choose|i: int|
                0 <= i < all_in_round(earlier, e2).len() && dedup_key(
                    #[trigger] all_in_round(earlier, e2)[i],
                ) == k2;
            assert(all_in_round(earlier, e2)[i] == in_round(earlier[i], e2));
            lemma_key_in_round(earlier[i], last, e1, e2);
            assert(dedup_key(earlier[i]) == k1);
            assert(keys_of(earlier).contains(k1));
        }
        let r1 = first_seen(earlier, seen1);
        if !keys_of(earlier).contains(k1) {
            assert(all_in_round(r1.push(last), e2) =~= all_in_round(r1, e2).push(in_round(last, e2)));
        }
    }
}

/// The keys of a sequence with one more delivery: those of the sequence and
/// the key of the delivery.
pub proof fn lemma_keys_of_push(events: Seq<EqShareEvent>, ev: EqShareEvent)
    ensures
        keys_of(events.push(ev)) == keys_of(events).insert(dedup_key(ev)),
{
    let more = events.push(ev);
    assert forall|k: DedupKey| keys_of(more).contains(k) <==> keys_of(events).insert(
        dedup_key(ev),
    ).contains(k) by {
        if keys_of(more).contains(k) {
            let i = choose|i: int| 0 <= i < more.len() && dedup_key(#[trigger] more[i]) == k;
            if i < events.len() {
                assert(more[i] == events[i]);
            }
        }
        if keys_of(events).contains(k) {
            let i = choose|i: int| 0 <= i < events.len() && dedup_key(#[trigger] events[i]) == k;
            assert(more[i] == events[i]);
        }
        if k == dedup_key(ev) {
            assert(more[events.len() as int] == ev);
        }
    }
    assert(keys_of(more) =~= keys_of(events).insert(dedup_key(ev)));
}

/// Only deliveries are reported: each report is one of the deliveries, its
/// key was not seen before, and no two reports have the same key.
pub proof fn lemma_first_seen_sound(events: Seq<EqShareEvent>, seen: Set<DedupKey>)
    ensures
        forall|k: int|
            0 <= k < first_seen(events, seen).len() ==> events.contains(
                #[trigger] first_seen(events, seen)[k],
            ) && !seen.contains(dedup_key(first_seen(events, seen)[k])),
        forall|k: int, l: int|
            0 <= k < l < first_seen(events, seen).len() ==> dedup_key(
                #[trigger] first_seen(events, seen)[k],
            ) != dedup_key(#[trigger] first_seen(events, seen)[l]),
    decreases events.len(),
{
    if events.len() > 0 {
        let earlier = events.drop_last();
        let last = events.last();
        let before = first_seen(earlier, seen);
        let all = first_seen(events, seen);
        lemma_first_seen_sound(earlier, seen);
        assert(events[events.len() - 1] == last);
        assert forall|k: int| 0 <= k < all.len() implies events.contains(#[trigger] all[k])
            && !seen.contains(dedup_key(all[k])) by {
            if k < before.len() {
                assert(all[k] == before[k]);
                let i = choose|i: int| 0 <= i < earlier.len() && earlier[i] == before[k];
                assert(events[i] == earlier[i]);
            }
        }
        assert forall|k: int, l: int| 0 <= k < l < all.len() implies dedup_key(#[trigger] all[k])
            != dedup_key(#[trigger] all[l]) by {
            assert(all[k] == before[k]);
            if l < before.len() {
                assert(all[l] == before[l]);
            } else {
                let i = choose|i: int| 0 <= i < earlier.len() && earlier[i] == before[k];
                assert(keys_of(earlier).contains(dedup_key(earlier[i])));
            }
        }
    }
}

/// Appends what the theory at `src` exported, each equality tagged with
/// `src`, in the order of export.
pub fn tag_exports(exported: &mut Vec<(TheoryId, SharedEq)>, src: TheoryId, out: &Vec<SharedEq>)
    ensures
        final(exported)@ == old(exported)@ + tagged(src, out@),
{
    let mut k: usize = 0;
    proof {
        assert(exported@ =~= old(exported)@ + tagged(src, out@.take(0)));
    }
    while k < out.len()
        invariant
            k <= out.len(),
            exported@ == old(exported)@ + tagged(src, out@.take(k as int)),
        decreases out.len() - k,
    {
        let eq = SharedEq { a: out[k].a, b: out[k].b, explain: out[k].explain };
        exported.push((src, eq));
        k = k + 1;
        proof {
            assert(eq == out@[k - 1]);
            assert(out@.take(k as int) =~= out@.take(k - 1).push(out@[k - 1]));
            assert(tagged(src, out@.take(k as int)) =~= tagged(src, out@.take(k - 1)).push((src, eq)));
            assert(exported@ =~= old(exported)@ + tagged(src, out@.take(k as int)));
        }
    }
    proof {
        assert(out@.take(k as int) =~= out@);
    }
}

/// What the first `n` theories exported does not depend on what later
/// theories export.
pub proof fn lemma_gathered_prefix(a: Seq<Seq<SharedEq>>, b: Seq<Seq<SharedEq>>, n: nat)
    requires
        n <= a.len(),
        a.is_prefix_of(b),
    ensures
        gathered(b, n) == gathered(a, n),
    decreases n,
{
    if n > 0 {
        lemma_gathered_prefix(a, b, (n - 1) as nat);
        assert(a[n - 1] == b[n - 1]);
    }
}

/// In a gathered list every equality is tagged with one of the `n`
/// theories and is one that this theory exported, and the exporters come
/// in registration order.
pub proof fn lemma_gathered_sound(lists: Seq<Seq<SharedEq>>, n: nat)
    requires
        n <= lists.len(),
        n <= usize::MAX,
    ensures
        forall|k: int|
            0 <= k < gathered(lists, n).len() ==> (#[trigger] gathered(lists, n)[k]).0.0 < n
                && lists[gathered(lists, n)[k].0.0 as int].contains(gathered(lists, n)[k].1),
        forall|k: int, l: int|
            0 <= k <= l < gathered(lists, n).len() ==> (#[trigger] gathered(lists, n)[k]).0.0 <= (
            #[trigger] gathered(lists, n)[l]).0.0,
    decreases n,
{
    if n > 0 {
        lemma_gathered_sound(lists, (n - 1) as nat);
        let head = gathered(lists, (n - 1) as nat);
        let src = TheoryId((n - 1) as usize);
        let last = tagged(src, lists[n - 1]);
        let all = gathered(lists, n);
        assert(all == head + last);
        assert forall|k: int| 0 <= k < all.len() implies (#[trigger] all[k]).0.0 < n && lists[all[k].0.0 as int].contains(
            all[k].1,
        ) by {
            if k < head.len() {
                assert(all[k] == head[k]);
            } else {
                assert(all[k] == last[k - head.len()]);
                assert(lists[n - 1][k - head.len()] == all[k].1);
            }
        }
        assert forall|k: int, l: int| 0 <= k <= l < all.len() implies (#[trigger] all[k]).0.0 <= (
        #[trigger] all[l]).0.0 by {
            if l < head.len() {
                assert(all[k] == head[k] && all[l] == head[l]);
            } else {
                assert(all[l] == last[l - head.len()]);
                if k < head.len() {
                    assert(all[k] == head[k]);
                } else {
                    assert(all[k] == last[k - head.len()]);
                }
            }
        }
    }
}

/// What is addressed to a theory in two runs of deliveries is what is
/// addressed to it in the first and then in the second.
pub proof fn lemma_addressed_concat(a: Seq<EqShareEvent>, b: Seq<EqShareEvent>, dst: TheoryId)
    ensures
        addressed_to(a + b, dst) == addressed_to(a, dst) + addressed_to(b, dst),
    decreases b.len(),
{
    if b.len() == 0 {
        assert(a + b =~= a);
        assert(addressed_to(a, dst) + addressed_to(b, dst) =~= addressed_to(a, dst));
    } else {
        let ab = a + b;
        assert(ab.drop_last() =~= a + b.drop_last());
        assert(ab.last() == b.last());
        lemma_addressed_concat(a, b.drop_last(), dst);
        if b.last().dst == dst {
            assert(addressed_to(a, dst) + addressed_to(b.drop_last(), dst).push(carried(b.last()))
                =~= (addressed_to(a, dst) + addressed_to(b.drop_last(), dst)).push(
                carried(b.last()),
            ));
        }
    }
}

/// Of the deliveries of one exported equality, the one addressed to `dst`
/// carries the equality, if `dst` is a receiver; none is addressed to it
/// otherwise.
pub proof fn lemma_addressed_fan_out(
    sharing: SharingConfig,
    uf: TheoryId,
    dl: TheoryId,
    shares: Seq<bool>,
    src: TheoryId,
    eq: SharedEq,
    n: nat,
    epoch: u64,
    dst: TheoryId,
)
    requires
        n <= usize::MAX,
    ensures
        addressed_to(fan_out(sharing, uf, dl, shares, src, eq, n, epoch), dst) == if dst.0 < n
            && is_receiver(sharing, uf, dl, shares, src, dst) {
            seq![eq]
        } else {
            Seq::<SharedEq>::empty()
        },
    decreases n,
{
    if n > 0 {
        lemma_addressed_fan_out(sharing, uf, dl, shares, src, eq, (n - 1) as nat, epoch, dst);
        let last = TheoryId((n - 1) as usize);
        let before = fan_out(sharing, uf, dl, shares, src, eq, (n - 1) as nat, epoch);
        if is_receiver(sharing, uf, dl, shares, src, last) {
            let ev = delivery(src, last, eq, epoch);
            let all = before.push(ev);
            assert(all.drop_last() =~= before);
            assert(all.last() == ev);
            assert(carried(ev) == eq);
            if last == dst {
                assert(Seq::<SharedEq>::empty().push(eq) =~= seq![eq]);
            }
        }
    }
}

/// What a theory is handed in a round depends on the exports, their order
/// and the policy alone: the equalities of the deliveries addressed to the
/// theory are the exported equalities, in the order of export, whose
/// exporter is another theory that may send to it. In particular no theory
/// is handed its own equality, nothing crosses a closed direction, and an
/// equality that is exported twice is handed over twice.
pub proof fn lemma_addressed_deliveries(
    sharing: SharingConfig,
    uf: TheoryId,
    dl: TheoryId,
    shares: Seq<bool>,
    exported: Seq<(TheoryId, SharedEq)>,
    n: nat,
    epoch: u64,
    dst: TheoryId,
)
    requires
        n <= usize::MAX,
        dst.0 < n,
    ensures
        addressed_to(deliveries(sharing, uf, dl, shares, exported, n, epoch), dst) == received_by(
            sharing,
            uf,
            dl,
            shares,
            exported,
            dst,
        ),
    decreases exported.len(),
{
    if exported.len() > 0 {
        let earlier = exported.drop_last();
        let head = deliveries(sharing, uf, dl, shares, earlier, n, epoch);
        let tail = fan_out(sharing, uf, dl, shares, exported.last().0, exported.last().1, n, epoch);
        lemma_addressed_deliveries(sharing, uf, dl, shares, earlier, n, epoch, dst);
        lemma_addressed_fan_out(
            sharing,
            uf,
            dl,
            shares,
            exported.last().0,
            exported.last().1,
            n,
            epoch,
            dst,
        );
        lemma_addressed_concat(head, tail, dst);
        let before = received_by(sharing, uf, dl, shares, earlier, dst);
        if is_receiver(sharing, uf, dl, shares, exported.last().0, dst) {
            assert(before + seq![exported.last().1] =~= before.push(exported.last().1));
        } else {
            assert(before + Seq::<SharedEq>::empty() =~= before);
        }
    }
}

/// A theory without the sharing capability is handed nothing.
pub proof fn lemma_received_by_none(
    sharing: SharingConfig,
    uf: TheoryId,
    dl: TheoryId,
    shares: Seq<bool>,
    exported: Seq<(TheoryId, SharedEq)>,
    dst: TheoryId,
)
    requires
        dst.0 < shares.len() ==> !shares[dst.0 as int],
    ensures
        received_by(sharing, uf, dl, shares, exported, dst) == Seq::<SharedEq>::empty(),
    decreases exported.len(),
{
    if exported.len() > 0 {
        lemma_received_by_none(sharing, uf, dl, shares, exported.drop_last(), dst);
    }
}

} // verus!
