//! What each step of an update or a poll of the mempool cache does, entry by entry and id by id.

use crate::hash_table::{kept, Txid};
use crate::mempool::{
    due, emission, entry_taken, filed, from_first_missing, next_unfetched, poll_begins,
    poll_entry_taken, timed, transaction_taken, update_begins, AwaitingEntry, EntriesStep,
    MempoolCache, MempoolEntry, PendingEntries, PendingTransaction, SyncStep, Transaction,
};
use crate::mempool_laws::{law_newest, lemma_from_first_missing};
use vstd::prelude::*;

verus! {

/// A transaction is all of its encoding.
pub proof fn law_transaction_is_its_encoding(tx: Transaction)
    ensures
        tx@.len() == tx.encoding@.len(),
        forall|i: int| 0 <= i < tx.encoding@.len() ==> tx@[i] == #[trigger] tx.encoding@[i],
{
}

/// A list of transactions with times keeps each of them, whole, with its time and at its place.
pub proof fn law_timed(list: Seq<(Transaction, u64)>)
    ensures
        timed(list).len() == list.len(),
        forall|j: int|
            0 <= j < list.len() ==> (#[trigger] timed(list)[j]).0 == list[j].0.encoding@
                && timed(list)[j].1 == list[j].1,
{
}

/// An entry is filed under the id that was asked for, with the time and the height that the node
/// gave.
pub proof fn law_filed_as_given(txid: Txid, entry: MempoolEntry)
    ensures
        filed(txid, entry).txid == txid,
        filed(txid, entry).time == entry.time,
        filed(txid, entry).height == entry.height,
{
}

/// A transaction is due where it is newer than what was emitted, or where its height lies above
/// that of the processed blocks; else it is not.
pub proof fn law_due(entry: MempoolEntry, prev: u64, best: u32)
    ensures
        due(entry, prev, best) <==> !(entry.time <= prev && entry.height <= best),
{
}

/// Of a list of ids, those are dealt with from the first one on that has no entry; where each has
/// one, none is left.
pub proof fn law_from_first_missing(
    entries: Map<Txid, MempoolEntry>,
    txids: Seq<Txid>,
    first: int,
)
    requires
        0 <= first <= txids.len(),
        forall|i: int| 0 <= i < first ==> entries.contains_key(#[trigger] txids[i]),
        first < txids.len() ==> !entries.contains_key(txids[first]),
    ensures
        from_first_missing(entries, txids) == txids.skip(first),
{
    let rest = from_first_missing(entries, txids);
    lemma_from_first_missing(entries, txids);
    let skipped = txids.len() - rest.len();
    if skipped < first {
        assert(rest[0] == txids[skipped]);
        assert(entries.contains_key(txids[skipped]));
    }
    if first < skipped {
        assert(entries.contains_key(txids[first]));
    }
}

/// An update keeps, as they were, the entries of the ids that are listed, and no others. It asks for
/// the first listed id that has no entry, the rest of the list to follow, and ends where there is
/// none. The timestamp and the transactions stay.
pub proof fn law_update_begins<E>(
    before: MempoolCache,
    txids: Vec<Txid>,
    step: EntriesStep<E>,
    after: MempoolCache,
    first: int,
)
    requires
        update_begins(before, Ok(txids), step, after),
        0 <= first <= txids@.len(),
        forall|i: int| 0 <= i < first ==> after.entries().contains_key(#[trigger] txids@[i]),
        first < txids@.len() ==> !after.entries().contains_key(txids@[first]),
    ensures
        forall|t: Txid| #[trigger]
            after.entries().contains_key(t) <==> before.entries().contains_key(t)
                && txids@.contains(t),
        forall|t: Txid| #[trigger]
            after.entries().contains_key(t) ==> after.entries()[t] == before.entries()[t],
        after.timestamp() == before.timestamp(),
        after.txs() == before.txs(),
        first == txids@.len() ==> step == EntriesStep::<E>::Done(Ok(())),
        first < txids@.len() ==> (step matches EntriesStep::FetchEntry(pending)
            && pending.remaining() == txids@.skip(first)),
{
    law_from_first_missing(after.entries(), txids@, first);
}

/// Without a list, an update or a poll changes nothing and ends with the failure.
pub proof fn law_no_list<E>(
    before: MempoolCache,
    best: u32,
    failure: E,
    update: EntriesStep<E>,
    poll: SyncStep<E>,
    after: MempoolCache,
)
    ensures
        update_begins(before, Err(failure), update, after) ==> after == before && update
            == EntriesStep::<E>::Done(Err(failure)),
        poll_begins(before, best, Err(failure), poll, after) ==> after == before && poll
            == SyncStep::<E>::Done(Err(failure)),
{
}

/// An answer on an entry of an update: one that the node has is there, with the time and the height
/// that it gave, and comes last; every other entry, the timestamp and the transactions stay. What is
/// asked for next is the first of the other ids that has no entry. An id that the node does not know
/// changes nothing, and a failure ends the update.
pub proof fn law_entry_taken<E>(
    pending: PendingEntries,
    before: MempoolCache,
    reply: Result<Option<MempoolEntry>, E>,
    step: EntriesStep<E>,
    after: MempoolCache,
    first: int,
)
    requires
        entry_taken(pending, before, reply, step, after),
        1 <= first <= pending.remaining().len(),
        forall|i: int|
            1 <= i < first ==> after.entries().contains_key(#[trigger] pending.remaining()[i]),
        first < pending.remaining().len() ==> !after.entries().contains_key(
            pending.remaining()[first],
        ),
    ensures
        after.timestamp() == before.timestamp(),
        after.txs() == before.txs(),
        reply matches Ok(Some(entry)) ==> {
            let txid = pending.remaining()[0];
            &&& after.entries().contains_key(txid)
            &&& after.entries()[txid].txid == txid
            &&& after.entries()[txid].time == entry.time
            &&& after.entries()[txid].height == entry.height
            &&& forall|t: Txid|
                t != txid ==> (#[trigger] after.entries().contains_key(t)
                    <==> before.entries().contains_key(t))
            &&& forall|t: Txid|
                t != txid && #[trigger] before.entries().contains_key(t) ==> after.entries()[t]
                    == before.entries()[t]
            &&& !before.entries().contains_key(txid) ==> after.order() == before.order().push(
                (txid, after.entries()[txid]),
            )
        },
        reply matches Ok(None) ==> after == before,
        reply is Ok && first == pending.remaining().len() ==> step == EntriesStep::<E>::Done(Ok(())),
        reply is Ok && first < pending.remaining().len() ==> (
        step matches EntriesStep::FetchEntry(next) && next.remaining() == pending.remaining().skip(
            first,
        )),
        reply matches Err(e) ==> after == before && step == EntriesStep::<E>::Done(Err(e)),
{
    let rest = pending.remaining().drop_first();
    assert forall|i: int| 0 <= i < first - 1 implies after.entries().contains_key(
        #[trigger] rest[i],
    ) by {
        assert(rest[i] == pending.remaining()[i + 1]);
    }
    law_from_first_missing(after.entries(), rest, first - 1);
    assert(rest.skip(first - 1) =~= pending.remaining().skip(first));
}

/// One more entry adds its transaction, as it is at hand, behind those before it where the entry is
/// newer than what was emitted or its height lies above that of the processed blocks; else it adds
/// nothing.
pub proof fn law_emission_in_order(
    order: Seq<(Txid, MempoolEntry)>,
    entry: (Txid, MempoolEntry),
    txs: Map<Txid, (Seq<u8>, u64)>,
    prev: u64,
    best: u32,
)
    ensures
        emission(Seq::<(Txid, MempoolEntry)>::empty(), txs, prev, best).len() == 0,
        txs.contains_key(entry.0) && (entry.1.time > prev || entry.1.height > best) ==> emission(
            order.push(entry),
            txs,
            prev,
            best,
        ) == emission(order, txs, prev, best).push(txs[entry.0]),
        !txs.contains_key(entry.0) || (entry.1.time <= prev && entry.1.height <= best) ==> emission(
            order.push(entry),
            txs,
            prev,
            best,
        ) == emission(order, txs, prev, best),
{
    reveal(Seq::filter);
    assert(order.push(entry).drop_last() =~= order);
    let pred = |e: (Txid, MempoolEntry)| due(e.1, prev, best) && txs.contains_key(e.0);
    let pick = |e: (Txid, MempoolEntry)| txs[e.0];
    let less = order.filter(pred);
    assert(less.push(entry).map_values(pick) =~= less.map_values(pick).push(pick(entry)));
    assert(Seq::<(Txid, MempoolEntry)>::empty().filter(pred).len() == 0);
}

/// Where a walk stops: at the first entry from there on whose transaction is to be emitted and is not
/// at hand.
proof fn lemma_walk_stops(
    order: Seq<(Txid, MempoolEntry)>,
    txs: Map<Txid, (Seq<u8>, u64)>,
    prev: u64,
    best: u32,
    from: int,
    at: int,
)
    requires
        0 <= from <= at <= order.len(),
        forall|i: int|
            from <= i < at ==> ((#[trigger] order[i]).1.time <= prev && order[i].1.height <= best)
                || txs.contains_key(order[i].0),
        at < order.len() ==> (order[at].1.time > prev || order[at].1.height > best)
            && !txs.contains_key(order[at].0),
    ensures
        next_unfetched(order, txs, prev, best, from) == at,
    decreases at - from,
{
    if from < at {
        assert((order[from].1.time <= prev && order[from].1.height <= best) || txs.contains_key(
            order[from].0,
        ));
        lemma_walk_stops(order, txs, prev, best, from + 1, at);
    }
}

/// A walk asks for the transaction of the first entry that is newer than what was emitted, or whose
/// height lies above that of the processed blocks, and whose transaction is not at hand. Where there
/// is none it hands out the emission; the timestamp moves to the newest time, unless nothing was
/// emitted. The entries and the transactions stay.
pub proof fn law_walk<E>(
    step: SyncStep<E>,
    timestamp: u64,
    order: Seq<(Txid, MempoolEntry)>,
    txs: Map<Txid, (Seq<u8>, u64)>,
    prev: u64,
    best: u32,
    from: int,
    after: MempoolCache,
    at: int,
)
    requires
        step.walks_on(timestamp, order, txs, prev, best, from, after),
        0 <= from <= at <= order.len(),
        forall|i: int|
            from <= i < at ==> ((#[trigger] order[i]).1.time <= prev && order[i].1.height <= best)
                || txs.contains_key(order[i].0),
        at < order.len() ==> (order[at].1.time > prev || order[at].1.height > best)
            && !txs.contains_key(order[at].0),
    ensures
        after.order() == order,
        after.txs() == txs,
        at < order.len() ==> {
            &&& after.timestamp() == timestamp
            &&& step matches SyncStep::FetchTransaction(pending) && {
                &&& pending.position() == at
                &&& pending.prev() == prev
                &&& pending.best() == best
                &&& pending.in_step(after)
            }
        },
        at == order.len() ==> (step matches SyncStep::Done(Ok(list)) && {
            &&& timed(list@) == emission(order, txs, prev, best)
            &&& list@.len() == 0 ==> after.timestamp() == timestamp
            &&& list@.len() > 0 ==> {
                &&& after.timestamp() >= prev
                &&& forall|i: int|
                    0 <= i < order.len() ==> (#[trigger] order[i]).1.time <= after.timestamp()
                &&& after.timestamp() == prev || exists|i: int|
                    0 <= i < order.len() && (#[trigger] order[i]).1.time == after.timestamp()
            }
        }),
{
    lemma_walk_stops(order, txs, prev, best, from, at);
    law_newest(order, prev);
    if at == order.len() {
        assert(timed(step->Done_0->Ok_0@).len() == step->Done_0->Ok_0@.len());
    }
}

/// A poll that has ids without an entry to deal with asks for the first of them, the others to
/// follow, and changes nothing yet. Where there is none, exactly the transactions that have an entry
/// are kept, as they were, and the walk begins at the first entry.
pub proof fn law_proceeds<E>(
    step: SyncStep<E>,
    remaining: Seq<Txid>,
    timestamp: u64,
    order: Seq<(Txid, MempoolEntry)>,
    txs: Map<Txid, (Seq<u8>, u64)>,
    prev: u64,
    best: u32,
    after: MempoolCache,
)
    requires
        after.wf(),
        step.proceeds(remaining, timestamp, order, txs, prev, best, after),
    ensures
        after.order() == order,
        remaining.len() > 0 ==> {
            &&& after.timestamp() == timestamp
            &&& after.txs() == txs
            &&& step matches SyncStep::FetchEntry(waiting) && {
                &&& waiting.remaining() == remaining
                &&& waiting.prev() == prev
                &&& waiting.best() == best
            }
        },
        remaining.len() == 0 ==> {
            &&& forall|t: Txid| #[trigger]
                after.txs().contains_key(t) <==> txs.contains_key(t) && after.entries().contains_key(
                    t,
                )
            &&& forall|t: Txid| #[trigger] after.txs().contains_key(t) ==> after.txs()[t] == txs[t]
            &&& step.walks_on(timestamp, order, after.txs(), prev, best, 0, after)
        },
{
    after.lemma_order();
}

/// A poll keeps, as they were, the entries of the ids that are listed, and no others, in their
/// order. It goes on from the timestamp as it stands, for the height it is told, with the listed ids
/// from the first one on that has no entry.
pub proof fn law_poll_begins<E>(
    before: MempoolCache,
    best: u32,
    txids: Vec<Txid>,
    step: SyncStep<E>,
    after: MempoolCache,
    first: int,
)
    requires
        poll_begins(before, best, Ok(txids), step, after),
        0 <= first <= txids@.len(),
        forall|i: int| 0 <= i < first ==> after.entries().contains_key(#[trigger] txids@[i]),
        first < txids@.len() ==> !after.entries().contains_key(txids@[first]),
    ensures
        forall|t: Txid| #[trigger]
            after.entries().contains_key(t) <==> before.entries().contains_key(t)
                && txids@.contains(t),
        forall|t: Txid| #[trigger]
            after.entries().contains_key(t) ==> after.entries()[t] == before.entries()[t],
        step.proceeds(
            txids@.skip(first),
            before.timestamp(),
            kept(before.order(), txids@.to_set()),
            before.txs(),
            before.timestamp(),
            best,
            after,
        ),
{
    law_from_first_missing(after.entries(), txids@, first);
}

/// An answer on an entry of a poll: one that the node has is there, with the time and the height
/// that it gave, and comes last; every other entry stays. The poll goes on, from the time and for
/// the height it started with, with the other ids from the first one on that has no entry. A failure
/// ends the poll and changes nothing.
pub proof fn law_poll_entry_taken<E>(
    waiting: AwaitingEntry,
    before: MempoolCache,
    reply: Result<Option<MempoolEntry>, E>,
    step: SyncStep<E>,
    after: MempoolCache,
    first: int,
)
    requires
        poll_entry_taken(waiting, before, reply, step, after),
        1 <= first <= waiting.remaining().len(),
        forall|i: int|
            1 <= i < first ==> after.entries().contains_key(#[trigger] waiting.remaining()[i]),
        first < waiting.remaining().len() ==> !after.entries().contains_key(
            waiting.remaining()[first],
        ),
    ensures
        reply matches Ok(Some(entry)) ==> {
            let txid = waiting.remaining()[0];
            &&& after.entries().contains_key(txid)
            &&& after.entries()[txid].txid == txid
            &&& after.entries()[txid].time == entry.time
            &&& after.entries()[txid].height == entry.height
            &&& forall|t: Txid|
                t != txid ==> (#[trigger] after.entries().contains_key(t)
                    <==> before.entries().contains_key(t))
            &&& forall|t: Txid|
                t != txid && #[trigger] before.entries().contains_key(t) ==> after.entries()[t]
                    == before.entries()[t]
            &&& !before.entries().contains_key(txid) ==> after.order() == before.order().push(
                (txid, after.entries()[txid]),
            )
        },
        reply matches Ok(None) ==> after.entries() == before.entries() && after.order()
            == before.order(),
        reply is Ok ==> step.proceeds(
            waiting.remaining().skip(first),
            before.timestamp(),
            after.order(),
            before.txs(),
            waiting.prev(),
            waiting.best(),
            after,
        ),
        reply matches Err(e) ==> after == before && step == SyncStep::<E>::Done(Err(e)),
{
    let rest = waiting.remaining().drop_first();
    assert forall|i: int| 0 <= i < first - 1 implies after.entries().contains_key(
        #[trigger] rest[i],
    ) by {
        assert(rest[i] == waiting.remaining()[i + 1]);
    }
    law_from_first_missing(after.entries(), rest, first - 1);
    assert(rest.skip(first - 1) =~= waiting.remaining().skip(first));
    if reply is Ok {
        let order = if reply->Ok_0 is Some {
            after.order()
        } else {
            before.order()
        };
        law_proceeds(
            step,
            waiting.remaining().skip(first),
            before.timestamp(),
            order,
            before.txs(),
            waiting.prev(),
            waiting.best(),
            after,
        );
    }
}

/// An answer on a transaction: one that the node has is at hand, whole and with the time of its
/// entry, every other stays as it was, and so do the entries. The walk goes on behind that entry,
/// from the time and for the height that the poll started with. A failure ends the poll and changes
/// nothing.
pub proof fn law_transaction_taken<E>(
    pending: PendingTransaction,
    before: MempoolCache,
    reply: Result<Option<Transaction>, E>,
    step: SyncStep<E>,
    after: MempoolCache,
)
    requires
        pending.in_step(before),
        transaction_taken(pending, before, reply, step, after),
    ensures
        after.entries() == before.entries(),
        reply matches Ok(Some(tx)) ==> {
            let (txid, entry) = before.order()[pending.position()];
            &&& after.txs().contains_key(txid)
            &&& after.txs()[txid].0 == tx.encoding@
            &&& after.txs()[txid].1 == entry.time
            &&& before.entries()[txid].time == entry.time
            &&& forall|t: Txid|
                t != txid ==> (#[trigger] after.txs().contains_key(t) <==> before.txs().contains_key(
                    t,
                ))
            &&& forall|t: Txid|
                t != txid && #[trigger] before.txs().contains_key(t) ==> after.txs()[t]
                    == before.txs()[t]
        },
        reply matches Ok(None) ==> after.txs() == before.txs(),
        reply is Ok ==> step.walks_on(
            before.timestamp(),
            before.order(),
            after.txs(),
            pending.prev(),
            pending.best(),
            pending.position() + 1,
            after,
        ),
        reply matches Err(e) ==> after == before && step == SyncStep::<E>::Done(Err(e)),
{
    pending.lemma_in_step(before);
    before.lemma_order();
}

} // verus!
