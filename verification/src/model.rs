//! The mathematical model of the worker loop.
//!
//! The worker consumes the queue front to back, strictly sequentially.  The
//! functions here say, for a whole message sequence, which deliveries that
//! consumption makes, in which order, and in which state it leaves the
//! worker.  The bridge's executable state is verified against these
//! functions, and the ordering, replacement and shutdown laws are proved of
//! them.

use vstd::prelude::*;

use crate::api::SpecPage;
use crate::msg::{reply_id, serve_request, SpecDelivery, SpecMessage, SpecOutcome, SpecRequest};

verus! {

/// The worker's state: still serving, holding the credentials of the
/// installed client, or stopped for good.
#[verifier::ext_equal]
pub ghost enum SpecState {
    Running(Option<Seq<u8>>),
    Stopped,
}

/// The client credentials in force after one message is consumed.
pub open spec fn step_client(creds: Option<Seq<u8>>, m: SpecMessage) -> Option<Seq<u8>> {
    match m {
        SpecMessage::Replace(c, _) => c,
        _ => creds,
    }
}

/// The client credentials in force after a whole sequence is consumed.
pub open spec fn fold_client(creds: Option<Seq<u8>>, q: Seq<SpecMessage>) -> Option<Seq<u8>>
    decreases q.len(),
{
    if q.len() == 0 {
        creds
    } else {
        fold_client(step_client(creds, q[0]), q.drop_first())
    }
}

/// No stop message anywhere in the sequence.
pub open spec fn no_stop(q: Seq<SpecMessage>) -> bool {
    forall|i: int| 0 <= i < q.len() ==> !((#[trigger] q[i]) is Stop)
}

/// Whether a stop message stands strictly before the index.
pub open spec fn stop_before(q: Seq<SpecMessage>, i: int) -> bool {
    exists|j: int| 0 <= j < i && (#[trigger] q[j]) is Stop
}

/// The deliveries made for a suffix the worker drops at shutdown: every
/// reply slot in it resolves as abandoned, in queue order.
pub open spec fn abandoned_log(q: Seq<SpecMessage>) -> Seq<SpecDelivery>
    decreases q.len(),
{
    if q.len() == 0 {
        Seq::empty()
    } else {
        match reply_id(q[0]) {
            Option::Some(id) => seq![SpecDelivery { id, outcome: SpecOutcome::Abandoned }]
                + abandoned_log(q.drop_first()),
            Option::None => abandoned_log(q.drop_first()),
        }
    }
}

/// The delivery one consumed message produces while the worker runs.
pub open spec fn delivery_of(m: SpecMessage, creds: Option<Seq<u8>>) -> Seq<SpecDelivery> {
    match m {
        SpecMessage::Stop => Seq::empty(),
        SpecMessage::Replace(_, id) => seq![SpecDelivery { id, outcome: SpecOutcome::Ack }],
        SpecMessage::Request(r, id) => seq![
            SpecDelivery { id, outcome: SpecOutcome::Answer(serve_request(creds, r)) },
        ],
    }
}

/// Every delivery the worker makes when it consumes the whole sequence, in
/// the order it makes them: each message is answered with the client in
/// force at the moment it is popped, and everything behind a stop is
/// abandoned.
pub open spec fn model_log(creds: Option<Seq<u8>>, q: Seq<SpecMessage>) -> Seq<SpecDelivery>
    decreases q.len(),
{
    if q.len() == 0 {
        Seq::empty()
    } else if q[0] is Stop {
        abandoned_log(q.drop_first())
    } else {
        delivery_of(q[0], creds) + model_log(step_client(creds, q[0]), q.drop_first())
    }
}

/// The worker's state after it consumed the whole sequence.
pub open spec fn model_state(creds: Option<Seq<u8>>, q: Seq<SpecMessage>) -> SpecState
    decreases q.len(),
{
    if q.len() == 0 {
        SpecState::Running(creds)
    } else if q[0] is Stop {
        SpecState::Stopped
    } else {
        model_state(step_client(creds, q[0]), q.drop_first())
    }
}

/// The reply identifiers a message sequence carries, in queue order.
pub open spec fn reply_ids(q: Seq<SpecMessage>) -> Seq<u64>
    decreases q.len(),
{
    if q.len() == 0 {
        Seq::empty()
    } else {
        match reply_id(q[0]) {
            Option::Some(id) => seq![id] + reply_ids(q.drop_first()),
            Option::None => reply_ids(q.drop_first()),
        }
    }
}

/// The identifiers a delivery log fills, in delivery order.
pub open spec fn log_ids(log: Seq<SpecDelivery>) -> Seq<u64>
    decreases log.len(),
{
    if log.len() == 0 {
        Seq::empty()
    } else {
        seq![log[0].id] + log_ids(log.drop_first())
    }
}

/// The first outcome a log holds for an identifier.
pub open spec fn log_lookup(log: Seq<SpecDelivery>, id: u64) -> Option<SpecOutcome>
    decreases log.len(),
{
    if log.len() == 0 {
        Option::None
    } else if log[0].id == id {
        Option::Some(log[0].outcome)
    } else {
        log_lookup(log.drop_first(), id)
    }
}

/// Each reply slot belongs to one message: two different messages never
/// carry the same identifier.
pub open spec fn distinct_ids(q: Seq<SpecMessage>) -> bool {
    forall|i: int, j: int|
        0 <= i < j < q.len() && reply_id(q[i]) is Some && reply_id(q[j]) is Some
            ==> reply_id(#[trigger] q[i]) != reply_id(#[trigger] q[j])
}

/// No value occurs twice.
pub open spec fn distinct_u64(s: Seq<u64>) -> bool {
    forall|i: int, j: int| 0 <= i < j < s.len() ==> #[trigger] s[i] != #[trigger] s[j]
}

proof fn lemma_log_ids_append(l1: Seq<SpecDelivery>, l2: Seq<SpecDelivery>)
    ensures
        log_ids(l1 + l2) == log_ids(l1) + log_ids(l2),
    decreases l1.len(),
{
    if l1.len() == 0 {
        assert(l1 + l2 =~= l2);
        assert(log_ids(l1) + log_ids(l2) =~= log_ids(l2));
    } else {
        assert((l1 + l2).drop_first() =~= l1.drop_first() + l2);
        lemma_log_ids_append(l1.drop_first(), l2);
        assert(log_ids(l1 + l2) =~= log_ids(l1) + log_ids(l2));
    }
}

proof fn lemma_abandoned_ids(q: Seq<SpecMessage>)
    ensures
        log_ids(abandoned_log(q)) == reply_ids(q),
    decreases q.len(),
{
    if q.len() > 0 {
        lemma_abandoned_ids(q.drop_first());
        match reply_id(q[0]) {
            Option::Some(id) => {
                let head = seq![SpecDelivery { id, outcome: SpecOutcome::Abandoned }];
                lemma_log_ids_append(head, abandoned_log(q.drop_first()));
                assert(head.drop_first() =~= Seq::<SpecDelivery>::empty());
                assert(log_ids(head.drop_first()) == Seq::<u64>::empty());
                assert(head[0].id == id);
                assert(log_ids(head) == seq![head[0].id] + log_ids(head.drop_first()));
                assert(log_ids(head) =~= seq![id]);
                assert(log_ids(abandoned_log(q)) =~= reply_ids(q));
            },
            Option::None => {},
        }
    }
}

/// Results are delivered in exactly the order the operations were issued:
/// the identifiers the worker fills, taken in delivery order, are the reply
/// identifiers of the queue, taken in queue order — every slot once, none
/// skipped, none invented.
pub proof fn lemma_fifo_order(creds: Option<Seq<u8>>, q: Seq<SpecMessage>)
    ensures
        log_ids(model_log(creds, q)) == reply_ids(q),
    decreases q.len(),
{
    if q.len() == 0 {
    } else if q[0] is Stop {
        lemma_abandoned_ids(q.drop_first());
        assert(reply_ids(q) =~= reply_ids(q.drop_first()));
    } else {
        lemma_fifo_order(step_client(creds, q[0]), q.drop_first());
        lemma_log_ids_append(delivery_of(q[0], creds), model_log(step_client(creds, q[0]), q.drop_first()));
        match reply_id(q[0]) {
            Option::Some(id) => {
                let head = delivery_of(q[0], creds);
                assert(head.drop_first() =~= Seq::<SpecDelivery>::empty());
                assert(log_ids(head.drop_first()) == Seq::<u64>::empty());
                assert(head.len() == 1 && head[0].id == id);
                assert(log_ids(head) == seq![head[0].id] + log_ids(head.drop_first()));
                assert(log_ids(delivery_of(q[0], creds)) =~= seq![id]);
                assert(log_ids(model_log(creds, q)) =~= reply_ids(q));
            },
            Option::None => {},
        }
    }
}

/// An identifier is found in a log exactly when the log fills it.
pub proof fn lemma_lookup_some_iff(log: Seq<SpecDelivery>, id: u64)
    ensures
        log_lookup(log, id) is Some <==> log_ids(log).contains(id),
    decreases log.len(),
{
    if log.len() > 0 {
        lemma_lookup_some_iff(log.drop_first(), id);
        if log[0].id == id {
            assert(log_ids(log)[0] == id);
        } else {
            assert forall|k: int| 0 <= k < log_ids(log.drop_first()).len() implies
                log_ids(log)[k + 1] == log_ids(log.drop_first())[k] by {}
            if log_ids(log).contains(id) {
                let k = choose|k: int| 0 <= k < log_ids(log).len() && log_ids(log)[k] == id;
                assert(log_ids(log.drop_first())[k - 1] == id);
                assert(log_ids(log.drop_first()).contains(id));
            }
            if log_ids(log.drop_first()).contains(id) {
                let k = choose|k: int|
                    0 <= k < log_ids(log.drop_first()).len() && log_ids(log.drop_first())[k] == id;
                assert(log_ids(log)[k + 1] == id);
            }
        }
    }
}

/// A lookup already answered in a prefix is answered the same way in the
/// whole log: deliveries are only ever appended.
pub proof fn lemma_lookup_prefix(l1: Seq<SpecDelivery>, l2: Seq<SpecDelivery>, id: u64)
    requires
        l1.is_prefix_of(l2),
        log_lookup(l1, id) is Some,
    ensures
        log_lookup(l2, id) == log_lookup(l1, id),
    decreases l1.len(),
{
    assert(l1.len() > 0);
    assert(l2[0] == l1[0]);
    if l1[0].id == id {
    } else {
        assert(l1.drop_first().is_prefix_of(l2.drop_first()));
        lemma_lookup_prefix(l1.drop_first(), l2.drop_first(), id);
    }
}

proof fn lemma_abandoned_lookup(q: Seq<SpecMessage>, i: int, id: u64)
    requires
        distinct_ids(q),
        0 <= i < q.len(),
        reply_id(q[i]) == Option::Some(id),
    ensures
        log_lookup(abandoned_log(q), id) == Option::Some(SpecOutcome::Abandoned),
    decreases q.len(),
{
    if i == 0 {
        assert(abandoned_log(q)[0] == SpecDelivery { id, outcome: SpecOutcome::Abandoned });
    } else {
        assert(distinct_ids(q.drop_first())) by {
            assert forall|a: int, b: int|
                0 <= a < b < q.drop_first().len() && reply_id(q.drop_first()[a]) is Some
                    && reply_id(q.drop_first()[b]) is Some implies reply_id(
                q.drop_first()[a],
            ) != reply_id(q.drop_first()[b]) by {
                assert(q.drop_first()[a] == q[a + 1]);
                assert(q.drop_first()[b] == q[b + 1]);
            }
        }
        assert(q.drop_first()[i - 1] == q[i]);
        lemma_abandoned_lookup(q.drop_first(), i - 1, id);
        match reply_id(q[0]) {
            Option::Some(id0) => {
                assert(id0 != id);
                let head = seq![SpecDelivery { id: id0, outcome: SpecOutcome::Abandoned }];
                let rest = abandoned_log(q.drop_first());
                assert((head + rest)[0].id == id0);
                assert((head + rest).drop_first() =~= rest);
            },
            Option::None => {},
        }
    }
}

/// What a given reply slot resolves to, for any message sequence whose
/// identifiers are distinct.  A slot behind a stop resolves as abandoned; a
/// replacement's slot resolves as the acknowledgement; a request's slot
/// resolves as the answer served by the client in force when the request is
/// popped — the fold of every replacement standing before it.
pub proof fn lemma_delivery_content(creds: Option<Seq<u8>>, q: Seq<SpecMessage>, i: int, id: u64)
    requires
        distinct_ids(q),
        0 <= i < q.len(),
        reply_id(q[i]) == Option::Some(id),
    ensures
        stop_before(q, i) ==> log_lookup(model_log(creds, q), id) == Option::Some(
            SpecOutcome::Abandoned,
        ),
        !stop_before(q, i) && q[i] is Replace ==> log_lookup(model_log(creds, q), id)
            == Option::Some(SpecOutcome::Ack),
        forall|r: SpecRequest|
            #![trigger serve_request(fold_client(creds, q.take(i)), r)]
            !stop_before(q, i) && q[i] == SpecMessage::Request(r, id) ==> log_lookup(
                model_log(creds, q),
                id,
            ) == Option::Some(SpecOutcome::Answer(serve_request(fold_client(creds, q.take(i)), r))),
    decreases q.len(),
{
    if i == 0 {
        assert(!stop_before(q, 0));
        match q[0] {
            SpecMessage::Stop => {},
            SpecMessage::Replace(_, rid) => {
                assert(model_log(creds, q)[0] == SpecDelivery { id: rid, outcome: SpecOutcome::Ack });
            },
            SpecMessage::Request(r, rid) => {
                assert(q.take(0) =~= Seq::<SpecMessage>::empty());
                assert(model_log(creds, q)[0] == SpecDelivery {
                    id: rid,
                    outcome: SpecOutcome::Answer(serve_request(creds, r)),
                });
            },
        }
    } else {
        assert(distinct_ids(q.drop_first())) by {
            assert forall|a: int, b: int|
                0 <= a < b < q.drop_first().len() && reply_id(q.drop_first()[a]) is Some
                    && reply_id(q.drop_first()[b]) is Some implies reply_id(
                q.drop_first()[a],
            ) != reply_id(q.drop_first()[b]) by {
                assert(q.drop_first()[a] == q[a + 1]);
                assert(q.drop_first()[b] == q[b + 1]);
            }
        }
        assert(q.drop_first()[i - 1] == q[i]);
        if q[0] is Stop {
            assert(stop_before(q, i));
            lemma_abandoned_lookup(q.drop_first(), i - 1, id);
        } else {
            lemma_delivery_content(step_client(creds, q[0]), q.drop_first(), i - 1, id);
            // A stop stands before index i in q exactly when one stands
            // before index i - 1 in the dropped sequence.
            assert(stop_before(q, i) <==> stop_before(q.drop_first(), i - 1)) by {
                if stop_before(q, i) {
                    let j = choose|j: int| 0 <= j < i && (#[trigger] q[j]) is Stop;
                    assert(j != 0);
                    assert(q.drop_first()[j - 1] is Stop);
                }
                if stop_before(q.drop_first(), i - 1) {
                    let j = choose|j: int|
                        0 <= j < i - 1 && (#[trigger] q.drop_first()[j]) is Stop;
                    assert(q[j + 1] is Stop);
                }
            }
            assert(q.take(i).drop_first() =~= q.drop_first().take(i - 1));
            assert(fold_client(creds, q.take(i)) == fold_client(
                step_client(creds, q[0]),
                q.drop_first().take(i - 1),
            )) by {
                assert(q.take(i)[0] == q[0]);
            }
            // The head's delivery, if any, carries a different identifier,
            // so the lookup passes over it.
            let rest = model_log(step_client(creds, q[0]), q.drop_first());
            match reply_id(q[0]) {
                Option::Some(id0) => {
                    assert(id0 != id);
                    let head = delivery_of(q[0], creds);
                    assert(head.len() == 1 && head[0].id == id0);
                    assert((head + rest)[0].id == id0);
                    assert((head + rest).drop_first() =~= rest);
                },
                Option::None => {},
            }
        }
    }
}

/// Consuming a stop-free sequence and then more is consuming the first part
/// and then the second against the client the first part left installed.
pub proof fn lemma_model_append(creds: Option<Seq<u8>>, q1: Seq<SpecMessage>, q2: Seq<SpecMessage>)
    requires
        no_stop(q1),
    ensures
        model_log(creds, q1 + q2) == model_log(creds, q1) + model_log(fold_client(creds, q1), q2),
        fold_client(creds, q1 + q2) == fold_client(fold_client(creds, q1), q2),
        model_state(creds, q1 + q2) == model_state(fold_client(creds, q1), q2),
    decreases q1.len(),
{
    if q1.len() == 0 {
        assert(q1 + q2 =~= q2);
        assert(model_log(creds, q1) + model_log(creds, q2) =~= model_log(creds, q2));
    } else {
        assert(!(q1[0] is Stop));
        assert((q1 + q2).drop_first() =~= q1.drop_first() + q2);
        assert(no_stop(q1.drop_first())) by {
            assert forall|k: int| 0 <= k < q1.drop_first().len() implies !((#[trigger] q1.drop_first()[k]) is Stop) by {
                assert(q1.drop_first()[k] == q1[k + 1]);
            }
        }
        lemma_model_append(step_client(creds, q1[0]), q1.drop_first(), q2);
        assert((q1 + q2)[0] == q1[0]);
        assert(model_log(creds, q1 + q2) =~= model_log(creds, q1) + model_log(
            fold_client(creds, q1),
            q2,
        ));
    }
}

/// Appending one message to a stop-free sequence appends that message's own
/// delivery, made against the client the sequence left installed.
pub proof fn lemma_model_snoc(creds: Option<Seq<u8>>, q: Seq<SpecMessage>, m: SpecMessage)
    requires
        no_stop(q),
    ensures
        model_log(creds, q.push(m)) == model_log(creds, q) + delivery_of(m, fold_client(creds, q)),
        fold_client(creds, q.push(m)) == step_client(fold_client(creds, q), m),
        model_state(creds, q.push(m)) == (if m is Stop {
            SpecState::Stopped
        } else {
            SpecState::Running(step_client(fold_client(creds, q), m))
        }),
{
    let unit = seq![m];
    assert(q.push(m) =~= q + unit);
    lemma_model_append(creds, q, unit);
    let fc = fold_client(creds, q);
    assert(unit[0] == m);
    assert(unit.drop_first() =~= Seq::<SpecMessage>::empty());
    assert(fold_client(fc, unit) == fold_client(step_client(fc, m), unit.drop_first()));
    assert(fold_client(step_client(fc, m), unit.drop_first()) == step_client(fc, m));
    if m is Stop {
        assert(model_log(fc, unit) == abandoned_log(unit.drop_first()));
        assert(abandoned_log(unit.drop_first()) =~= delivery_of(m, fc));
        assert(model_state(fc, unit) is Stopped);
    } else {
        assert(model_log(fc, unit) == delivery_of(m, fc) + model_log(
            step_client(fc, m),
            unit.drop_first(),
        ));
        assert(model_log(step_client(fc, m), unit.drop_first()) =~= Seq::<SpecDelivery>::empty());
        assert(model_log(fc, unit) =~= delivery_of(m, fc));
        assert(model_state(fc, unit) == model_state(step_client(fc, m), unit.drop_first()));
        assert(model_state(step_client(fc, m), unit.drop_first()) == SpecState::Running(
            step_client(fc, m),
        ));
    }
    assert(model_log(creds, q.push(m)) == model_log(creds, q) + delivery_of(m, fc));
}

/// A stop-free sequence leaves the worker running, with the folded client
/// installed.
pub proof fn lemma_no_stop_running(creds: Option<Seq<u8>>, q: Seq<SpecMessage>)
    requires
        no_stop(q),
    ensures
        model_state(creds, q) == SpecState::Running(fold_client(creds, q)),
    decreases q.len(),
{
    if q.len() > 0 {
        assert(no_stop(q.drop_first())) by {
            assert forall|k: int| 0 <= k < q.drop_first().len() implies !((#[trigger] q.drop_first()[k]) is Stop) by {
                assert(q.drop_first()[k] == q[k + 1]);
            }
        }
        lemma_no_stop_running(step_client(creds, q[0]), q.drop_first());
    }
}

/// A worker still running has consumed no stop message.
pub proof fn lemma_running_no_stop(creds: Option<Seq<u8>>, q: Seq<SpecMessage>)
    requires
        model_state(creds, q) is Running,
    ensures
        no_stop(q),
    decreases q.len(),
{
    if q.len() > 0 {
        assert(!(q[0] is Stop));
        lemma_running_no_stop(step_client(creds, q[0]), q.drop_first());
        assert forall|k: int| 0 <= k < q.len() implies !((#[trigger] q[k]) is Stop) by {
            if k > 0 {
                assert(q.drop_first()[k - 1] == q[k]);
            }
        }
    }
}

/// Sending stop stops the worker: a sequence holding a stop message leaves
/// it stopped, whatever else the sequence holds.
pub proof fn lemma_stop_halts(creds: Option<Seq<u8>>, q: Seq<SpecMessage>, s: int)
    requires
        0 <= s < q.len(),
        q[s] is Stop,
    ensures
        model_state(creds, q) is Stopped,
    decreases q.len(),
{
    if s == 0 {
    } else if q[0] is Stop {
    } else {
        assert(q.drop_first()[s - 1] == q[s]);
        lemma_stop_halts(step_client(creds, q[0]), q.drop_first(), s - 1);
    }
}

/// Sending stop abandons the rest: every reply slot of an envelope still
/// queued behind a stop message resolves as abandoned — which the handle
/// surfaces as the exited failure — rather than staying open forever.
pub proof fn lemma_stop_abandons(
    creds: Option<Seq<u8>>,
    q: Seq<SpecMessage>,
    s: int,
    i: int,
    id: u64,
)
    requires
        distinct_ids(q),
        0 <= s < i < q.len(),
        q[s] is Stop,
        reply_id(q[i]) == Option::Some(id),
    ensures
        log_lookup(model_log(creds, q), id) == Option::Some(SpecOutcome::Abandoned),
{
    lemma_delivery_content(creds, q, i, id);
    assert(stop_before(q, i));
}

/// The client in force at an index is the one installed by the nearest
/// replacement standing before it.
pub proof fn lemma_client_in_force(
    creds: Option<Seq<u8>>,
    q: Seq<SpecMessage>,
    r: int,
    i: int,
    nc: Option<Seq<u8>>,
    ack: u64,
)
    requires
        0 <= r < i <= q.len(),
        q[r] == SpecMessage::Replace(nc, ack),
        forall|j: int| r < j < i ==> !((#[trigger] q[j]) is Replace),
    ensures
        fold_client(creds, q.take(i)) == nc,
    decreases i,
{
    lemma_fold_snoc(creds, q.take(i - 1), q[i - 1]);
    assert(q.take(i) =~= q.take(i - 1).push(q[i - 1]));
    if i - 1 == r {
        assert(step_client(fold_client(creds, q.take(i - 1)), q[r]) == nc);
    } else {
        assert(!(q[i - 1] is Replace));
        lemma_client_in_force(creds, q, r, i - 1, nc, ack);
        assert(step_client(fold_client(creds, q.take(i - 1)), q[i - 1]) == fold_client(
            creds,
            q.take(i - 1),
        ));
    }
}

proof fn lemma_fold_snoc(creds: Option<Seq<u8>>, q: Seq<SpecMessage>, m: SpecMessage)
    ensures
        fold_client(creds, q.push(m)) == step_client(fold_client(creds, q), m),
    decreases q.len(),
{
    if q.len() == 0 {
        assert(q.push(m)[0] == m);
        assert(q.push(m).drop_first() =~= Seq::<SpecMessage>::empty());
        assert(fold_client(step_client(creds, m), q.push(m).drop_first()) == step_client(creds, m));
    } else {
        assert(q.push(m)[0] == q[0]);
        assert(q.push(m).drop_first() =~= q.drop_first().push(m));
        lemma_fold_snoc(step_client(creds, q[0]), q.drop_first(), m);
    }
}

/// After a replacement is in the queue, every request that stands behind it
/// (with no later replacement between) and ahead of any stop is answered by
/// the replacement's client: nothing it observes comes from the old one.
pub proof fn lemma_replace_then_observe(
    creds: Option<Seq<u8>>,
    q: Seq<SpecMessage>,
    r: int,
    i: int,
    nc: Option<Seq<u8>>,
    ack: u64,
    rq: SpecRequest,
    id: u64,
)
    requires
        distinct_ids(q),
        0 <= r < i < q.len(),
        q[r] == SpecMessage::Replace(nc, ack),
        forall|j: int| r < j < i ==> !((#[trigger] q[j]) is Replace),
        !stop_before(q, i),
        q[i] == SpecMessage::Request(rq, id),
    ensures
        log_lookup(model_log(creds, q), id) == Option::Some(
            SpecOutcome::Answer(serve_request(nc, rq)),
        ),
{
    lemma_delivery_content(creds, q, i, id);
    lemma_client_in_force(creds, q, r, i, nc, ack);
}

/// A message carrying an identifier puts it among the queue's reply
/// identifiers.
pub proof fn lemma_reply_ids_from_index(q: Seq<SpecMessage>, i: int, id: u64)
    requires
        0 <= i < q.len(),
        reply_id(q[i]) == Option::Some(id),
    ensures
        reply_ids(q).contains(id),
    decreases q.len(),
{
    if i == 0 {
        assert(reply_ids(q)[0] == id);
    } else {
        assert(q.drop_first()[i - 1] == q[i]);
        lemma_reply_ids_from_index(q.drop_first(), i - 1, id);
        let k = choose|k: int|
            0 <= k < reply_ids(q.drop_first()).len() && reply_ids(q.drop_first())[k] == id;
        match reply_id(q[0]) {
            Option::Some(id0) => {
                assert(reply_ids(q)[k + 1] == id);
            },
            Option::None => {
                assert(reply_ids(q)[k] == id);
            },
        }
    }
}

/// Every issued operation's reply slot is filled: the queue's identifiers
/// all occur in the delivery log, each exactly once (their order is given by
/// `lemma_fifo_order`), so no result is lost and none is delivered twice.
pub proof fn lemma_exactly_once(creds: Option<Seq<u8>>, q: Seq<SpecMessage>, i: int, id: u64)
    requires
        distinct_ids(q),
        0 <= i < q.len(),
        reply_id(q[i]) == Option::Some(id),
    ensures
        log_lookup(model_log(creds, q), id) is Some,
        distinct_u64(log_ids(model_log(creds, q))),
    decreases q.len(),
{
    lemma_reply_ids_from_index(q, i, id);
    lemma_fifo_order(creds, q);
    lemma_lookup_some_iff(model_log(creds, q), id);
    lemma_reply_ids_distinct(q);
}

proof fn lemma_reply_ids_distinct(q: Seq<SpecMessage>)
    requires
        distinct_ids(q),
    ensures
        distinct_u64(reply_ids(q)),
    decreases q.len(),
{
    if q.len() > 0 {
        assert(distinct_ids(q.drop_first())) by {
            assert forall|a: int, b: int|
                0 <= a < b < q.drop_first().len() && reply_id(q.drop_first()[a]) is Some
                    && reply_id(q.drop_first()[b]) is Some implies reply_id(
                q.drop_first()[a],
            ) != reply_id(q.drop_first()[b]) by {
                assert(q.drop_first()[a] == q[a + 1]);
                assert(q.drop_first()[b] == q[b + 1]);
            }
        }
        lemma_reply_ids_distinct(q.drop_first());
        match reply_id(q[0]) {
            Option::Some(id0) => {
                assert(!reply_ids(q.drop_first()).contains(id0)) by {
                    if reply_ids(q.drop_first()).contains(id0) {
                        lemma_reply_ids_to_index(q.drop_first(), id0);
                        let k = choose|k: int|
                            0 <= k < q.drop_first().len() && reply_id(q.drop_first()[k])
                                == Option::Some(id0);
                        assert(q.drop_first()[k] == q[k + 1]);
                        assert(reply_id(q[0]) == reply_id(q[k + 1]));
                        assert(false);
                    }
                }
                assert forall|a: int, b: int|
                    0 <= a < b < reply_ids(q).len() implies #[trigger] reply_ids(q)[a]
                    != #[trigger] reply_ids(q)[b] by {
                    if a == 0 {
                        assert(reply_ids(q)[b] == reply_ids(q.drop_first())[b - 1]);
                        if reply_ids(q)[0] == reply_ids(q)[b] {
                            assert(reply_ids(q.drop_first()).contains(id0));
                        }
                    } else {
                        assert(reply_ids(q)[a] == reply_ids(q.drop_first())[a - 1]);
                        assert(reply_ids(q)[b] == reply_ids(q.drop_first())[b - 1]);
                    }
                }
            },
            Option::None => {},
        }
    }
}

proof fn lemma_reply_ids_to_index(q: Seq<SpecMessage>, id: u64)
    requires
        reply_ids(q).contains(id),
    ensures
        exists|i: int| 0 <= i < q.len() && reply_id(#[trigger] q[i]) == Option::Some(id),
    decreases q.len(),
{
    assert(q.len() > 0);
    match reply_id(q[0]) {
        Option::Some(id0) => {
            if id0 == id {
                assert(reply_id(q[0]) == Option::Some(id));
            } else {
                let k = choose|k: int| 0 <= k < reply_ids(q).len() && reply_ids(q)[k] == id;
                assert(k > 0);
                assert(reply_ids(q.drop_first())[k - 1] == id);
                lemma_reply_ids_to_index(q.drop_first(), id);
                let i = choose|i: int|
                    0 <= i < q.drop_first().len() && reply_id(#[trigger] q.drop_first()[i])
                        == Option::Some(id);
                assert(reply_id(q[i + 1]) == Option::Some(id));
            }
        },
        Option::None => {
            lemma_reply_ids_to_index(q.drop_first(), id);
            let i = choose|i: int|
                0 <= i < q.drop_first().len() && reply_id(#[trigger] q.drop_first()[i])
                    == Option::Some(id);
            assert(reply_id(q[i + 1]) == Option::Some(id));
        },
    }
}

/// Appending one delivery appends its identifier.
pub proof fn lemma_log_ids_snoc(l: Seq<SpecDelivery>, d: SpecDelivery)
    ensures
        log_ids(l.push(d)) == log_ids(l).push(d.id),
    decreases l.len(),
{
    if l.len() == 0 {
        assert(l.push(d)[0] == d);
        assert(l.push(d).drop_first() =~= Seq::<SpecDelivery>::empty());
        assert(log_ids(l.push(d).drop_first()) == Seq::<u64>::empty());
        assert(log_ids(l.push(d)) =~= log_ids(l).push(d.id));
    } else {
        assert(l.push(d)[0] == l[0]);
        assert(l.push(d).drop_first() =~= l.drop_first().push(d));
        lemma_log_ids_snoc(l.drop_first(), d);
        assert(log_ids(l.push(d)) =~= log_ids(l).push(d.id));
    }
}

/// Appending one message to the dropped suffix appends its abandonment.
pub proof fn lemma_abandoned_snoc(q: Seq<SpecMessage>, m: SpecMessage)
    ensures
        abandoned_log(q.push(m)) == abandoned_log(q) + (match reply_id(m) {
            Option::Some(id) => seq![SpecDelivery { id, outcome: SpecOutcome::Abandoned }],
            Option::None => Seq::empty(),
        }),
    decreases q.len(),
{
    if q.len() == 0 {
        assert(q.push(m)[0] == m);
        assert(q.push(m).drop_first() =~= Seq::<SpecMessage>::empty());
        assert(abandoned_log(q.push(m).drop_first()) =~= Seq::<SpecDelivery>::empty());
        match reply_id(m) {
            Option::Some(id) => {
                assert(abandoned_log(q.push(m)) =~= abandoned_log(q) + seq![
                    SpecDelivery { id, outcome: SpecOutcome::Abandoned },
                ]);
            },
            Option::None => {
                assert(abandoned_log(q.push(m)) =~= abandoned_log(q));
            },
        }
    } else {
        assert(q.push(m)[0] == q[0]);
        assert(q.push(m).drop_first() =~= q.drop_first().push(m));
        lemma_abandoned_snoc(q.drop_first(), m);
        match reply_id(q[0]) {
            Option::Some(id0) => {
                assert(abandoned_log(q.push(m)) =~= abandoned_log(q) + (match reply_id(m) {
                    Option::Some(id) => seq![SpecDelivery { id, outcome: SpecOutcome::Abandoned }],
                    Option::None => Seq::empty(),
                }));
            },
            Option::None => {},
        }
    }
}

} // verus!
