//! What holds of whole updates and polls of the mempool cache.

use crate::hash_table::{keys_of, Txid};
use crate::mempool::{
    due, emission, filed, from_first_missing, newest, next_unfetched, MempoolEntry,
};
use vstd::prelude::*;

verus! {

/// The entries at the end of an update that has these ids to deal with, where the node answers
/// each request as `node` says.
pub open spec fn gathered(
    entries: Map<Txid, MempoolEntry>,
    txids: Seq<Txid>,
    node: spec_fn(Txid) -> Option<MempoolEntry>,
) -> Map<Txid, MempoolEntry>
    decreases txids.len(),
    via gathered_decreases
{
    let rest = from_first_missing(entries, txids);
    if rest.len() == 0 {
        entries
    } else {
        let more = match node(rest[0]) {
            Some(entry) => entries.insert(rest[0], filed(rest[0], entry)),
            None => entries,
        };
        gathered(more, rest.drop_first(), node)
    }
}

#[via_fn]
proof fn gathered_decreases(
    entries: Map<Txid, MempoolEntry>,
    txids: Seq<Txid>,
    node: spec_fn(Txid) -> Option<MempoolEntry>,
) {
    lemma_from_first_missing(entries, txids);
}

/// What is passed over has an entry; what comes first, if anything, has none.
pub proof fn lemma_from_first_missing(entries: Map<Txid, MempoolEntry>, txids: Seq<Txid>)
    ensures
        ({
            let rest = from_first_missing(entries, txids);
            &&& rest.len() <= txids.len()
            &&& rest == txids.skip(txids.len() - rest.len())
            &&& forall|i: int|
                0 <= i < txids.len() - rest.len() ==> entries.contains_key(#[trigger] txids[i])
            &&& rest.len() > 0 ==> !entries.contains_key(rest[0])
        }),
    decreases txids.len(),
{
    let rest = from_first_missing(entries, txids);
    if txids.len() > 0 && entries.contains_key(txids[0]) {
        let tail = txids.drop_first();
        lemma_from_first_missing(entries, tail);
        assert(tail.skip(tail.len() - rest.len()) =~= txids.skip(txids.len() - rest.len()));
        assert forall|i: int| 0 <= i < txids.len() - rest.len() implies entries.contains_key(
            #[trigger] txids[i],
        ) by {
            if i > 0 {
                assert(txids[i] == tail[i - 1]);
            }
        }
    } else {
        assert(txids.skip(0) =~= txids);
    }
}

/// An update keeps what it has, and adds the ids it has to deal with that the node knows.
pub proof fn law_gathered(
    entries: Map<Txid, MempoolEntry>,
    txids: Seq<Txid>,
    node: spec_fn(Txid) -> Option<MempoolEntry>,
)
    ensures
        gathered(entries, txids, node) == Map::new(
            |t: Txid| entries.contains_key(t) || (txids.contains(t) && node(t) is Some),
            |t: Txid|
                if entries.contains_key(t) {
                    entries[t]
                } else {
                    filed(t, node(t)->Some_0)
                },
        ),
    decreases txids.len(),
{
    let want = Map::new(
        |t: Txid| entries.contains_key(t) || (txids.contains(t) && node(t) is Some),
        |t: Txid|
            if entries.contains_key(t) {
                entries[t]
            } else {
                filed(t, node(t)->Some_0)
            },
    );
    let rest = from_first_missing(entries, txids);
    lemma_from_first_missing(entries, txids);
    let skipped = txids.len() - rest.len();
    if rest.len() == 0 {
        assert forall|t: Txid| txids.contains(t) implies entries.contains_key(t) by {
            let i = choose|i: int| 0 <= i < txids.len() && txids[i] == t;
            assert(entries.contains_key(txids[i]));
        }
        assert(entries =~= want);
    } else {
        let first = rest[0];
        let tail = rest.drop_first();
        let more = match node(first) {
            Some(entry) => entries.insert(first, filed(first, entry)),
            None => entries,
        };
        law_gathered(more, tail, node);
        assert(txids[skipped] == first);
        assert forall|t: Txid|
            more.contains_key(t) || (tail.contains(t) && node(t) is Some) <==> (
            entries.contains_key(t) || (#[trigger] txids.contains(t) && node(t) is Some)) by {
            if tail.contains(t) {
                let i = choose|i: int| 0 <= i < tail.len() && tail[i] == t;
                assert(txids[skipped + 1 + i] == t);
            }
            if txids.contains(t) && !entries.contains_key(t) && t != first {
                let i = choose|i: int| 0 <= i < txids.len() && txids[i] == t;
                assert(i > skipped);
                assert(tail[i - skipped - 1] == t);
            }
        }
        assert(gathered(more, tail, node) =~= want);
    }
}

/// Passing over the ids that have an entry makes no difference to what is gathered.
proof fn lemma_gathered_from_first_missing(
    entries: Map<Txid, MempoolEntry>,
    txids: Seq<Txid>,
    node: spec_fn(Txid) -> Option<MempoolEntry>,
)
    ensures
        gathered(entries, from_first_missing(entries, txids), node) == gathered(
            entries,
            txids,
            node,
        ),
{
    lemma_from_first_missing(entries, txids);
    let rest = from_first_missing(entries, txids);
    assert(from_first_missing(entries, rest) == rest);
}

/// An update leads to what `gathered` says: each answer of the node leaves that as it is, and it
/// is what the entries are once nothing more is asked for.
pub proof fn law_update_gathers(
    entries: Map<Txid, MempoolEntry>,
    remaining: Seq<Txid>,
    node: spec_fn(Txid) -> Option<MempoolEntry>,
)
    requires
        remaining.len() > 0,
        !entries.contains_key(remaining[0]),
    ensures
        ({
            let more = match node(remaining[0]) {
                Some(entry) => entries.insert(remaining[0], filed(remaining[0], entry)),
                None => entries,
            };
            let rest = from_first_missing(more, remaining.drop_first());
            &&& gathered(more, rest, node) == gathered(entries, remaining, node)
            &&& rest.len() == 0 ==> more == gathered(entries, remaining, node)
        }),
{
    let more = match node(remaining[0]) {
        Some(entry) => entries.insert(remaining[0], filed(remaining[0], entry)),
        None => entries,
    };
    assert(from_first_missing(entries, remaining) == remaining);
    lemma_gathered_from_first_missing(more, remaining.drop_first(), node);
}

/// After an update with the list `txids`, exactly those listed ids have an entry that had one
/// before or that the node knows. An entry that was there stays as it was; a new one has the time
/// and the height that the node gave.
pub proof fn law_update_mirrors_mempool(
    entries: Map<Txid, MempoolEntry>,
    txids: Seq<Txid>,
    node: spec_fn(Txid) -> Option<MempoolEntry>,
)
    ensures
        ({
            let held = entries.restrict(txids.to_set());
            let after = gathered(held, from_first_missing(held, txids), node);
            &&& forall|t: Txid| #[trigger]
                after.contains_key(t) <==> txids.contains(t) && (entries.contains_key(t) || node(
                    t,
                ) is Some)
            &&& forall|t: Txid| #[trigger]
                after.contains_key(t) && entries.contains_key(t) ==> after[t] == entries[t]
            &&& forall|t: Txid| #[trigger]
                after.contains_key(t) && !entries.contains_key(t) ==> {
                    &&& after[t].txid == t
                    &&& after[t].time == node(t)->Some_0.time
                    &&& after[t].height == node(t)->Some_0.height
                }
        }),
{
    let held = entries.restrict(txids.to_set());
    lemma_gathered_from_first_missing(held, txids, node);
    law_gathered(held, txids, node);
}

/// The newest time is no older than the one before, and no entry is newer than it.
pub proof fn law_newest(order: Seq<(Txid, MempoolEntry)>, prev: u64)
    ensures
        newest(order, prev) >= prev,
        forall|i: int| 0 <= i < order.len() ==> (#[trigger] order[i]).1.time <= newest(order, prev),
        newest(order, prev) == prev || exists|i: int|
            0 <= i < order.len() && (#[trigger] order[i]).1.time == newest(order, prev),
    decreases order.len(),
{
    if order.len() > 0 {
        let rest = order.drop_last();
        law_newest(rest, prev);
        assert forall|i: int| 0 <= i < order.len() implies (#[trigger] order[i]).1.time <= newest(
            order,
            prev,
        ) by {
            if i < rest.len() {
                assert(order[i] == rest[i]);
            }
        }
        if newest(order, prev) == newest(rest, prev) {
            if newest(rest, prev) != prev {
                let i = choose|i: int|
                    0 <= i < rest.len() && (#[trigger] rest[i]).1.time == newest(rest, prev);
                assert(order[i].1.time == newest(order, prev));
            }
        } else {
            assert(order[order.len() - 1].1.time == newest(order, prev));
        }
    }
}

/// Whether the item is the transaction at hand of an entry that is due.
pub open spec fn is_due_item(
    order: Seq<(Txid, MempoolEntry)>,
    txs: Map<Txid, (Seq<u8>, u64)>,
    prev: u64,
    best: u32,
    item: (Seq<u8>, u64),
) -> bool {
    exists|i: int|
        0 <= i < order.len() && due((#[trigger] order[i]).1, prev, best) && txs.contains_key(
            order[i].0,
        ) && item == txs[order[i].0]
}

/// Every due entry whose transaction is at hand is in the emission, and nothing else is.
pub proof fn law_emission(
    order: Seq<(Txid, MempoolEntry)>,
    txs: Map<Txid, (Seq<u8>, u64)>,
    prev: u64,
    best: u32,
)
    ensures
        forall|i: int|
            0 <= i < order.len() && due((#[trigger] order[i]).1, prev, best) && txs.contains_key(
                order[i].0,
            ) ==> emission(order, txs, prev, best).contains(txs[order[i].0]),
        forall|j: int|
            0 <= j < emission(order, txs, prev, best).len() ==> is_due_item(
                order,
                txs,
                prev,
                best,
                #[trigger] emission(order, txs, prev, best)[j],
            ),
        emission(order, txs, prev, best).len() <= order.len(),
    decreases order.len(),
{
    reveal(Seq::filter);
    let out = emission(order, txs, prev, best);
    if order.len() > 0 {
        let rest = order.drop_last();
        let out_rest = emission(rest, txs, prev, best);
        law_emission(rest, txs, prev, best);
        let last = order.last();
        let pick = |e: (Txid, MempoolEntry)| txs[e.0];
        let pred = |e: (Txid, MempoolEntry)| due(e.1, prev, best) && txs.contains_key(e.0);
        let less = rest.filter(pred);
        assert(less.push(last).map_values(pick) =~= less.map_values(pick).push(pick(last)));
        assert(out == if pred(last) {
            out_rest.push(txs[last.0])
        } else {
            out_rest
        });
        assert forall|i: int|
            0 <= i < order.len() && due((#[trigger] order[i]).1, prev, best) && txs.contains_key(
                order[i].0,
            ) implies out.contains(txs[order[i].0]) by {
            if i < rest.len() {
                assert(rest[i] == order[i]);
                let j = choose|j: int| 0 <= j < out_rest.len() && out_rest[j] == txs[order[i].0];
                assert(out[j] == txs[order[i].0]);
            } else {
                assert(out[out.len() - 1] == txs[order[i].0]);
            }
        }
        assert forall|j: int| 0 <= j < out.len() implies is_due_item(
            order,
            txs,
            prev,
            best,
            #[trigger] out[j],
        ) by {
            if j < out_rest.len() {
                assert(is_due_item(rest, txs, prev, best, out_rest[j]));
                let i = choose|i: int|
                    0 <= i < rest.len() && due((#[trigger] rest[i]).1, prev, best)
                        && txs.contains_key(rest[i].0) && out_rest[j] == txs[rest[i].0];
                assert(order[i] == rest[i]);
            } else {
                assert(order[order.len() - 1] == last);
            }
        }
    }
}

/// The transactions at hand at the end of a walk from `from` on, where the node answers each
/// request as `node` says.
pub open spec fn fetched(
    order: Seq<(Txid, MempoolEntry)>,
    txs: Map<Txid, (Seq<u8>, u64)>,
    prev: u64,
    best: u32,
    from: int,
    node: spec_fn(Txid) -> Option<Seq<u8>>,
) -> Map<Txid, (Seq<u8>, u64)>
    decreases order.len() - from,
    via fetched_decreases
{
    let at = next_unfetched(order, txs, prev, best, from);
    if at >= order.len() || from < 0 {
        txs
    } else {
        let more = match node(order[at].0) {
            Some(tx) => txs.insert(order[at].0, (tx, order[at].1.time)),
            None => txs,
        };
        fetched(order, more, prev, best, at + 1, node)
    }
}

#[via_fn]
proof fn fetched_decreases(
    order: Seq<(Txid, MempoolEntry)>,
    txs: Map<Txid, (Seq<u8>, u64)>,
    prev: u64,
    best: u32,
    from: int,
    node: spec_fn(Txid) -> Option<Seq<u8>>,
) {
    if from >= 0 {
        lemma_next_unfetched(order, txs, prev, best, from);
    }
}

/// What is passed over is not due or at hand; what is stopped at is due and not at hand.
proof fn lemma_next_unfetched(
    order: Seq<(Txid, MempoolEntry)>,
    txs: Map<Txid, (Seq<u8>, u64)>,
    prev: u64,
    best: u32,
    from: int,
)
    requires
        0 <= from,
    ensures
        ({
            let at = next_unfetched(order, txs, prev, best, from);
            &&& from <= at
            &&& from <= order.len() ==> at <= order.len()
            &&& forall|i: int|
                from <= i < at ==> !due((#[trigger] order[i]).1, prev, best) || txs.contains_key(
                    order[i].0,
                )
            &&& at < order.len() ==> due(order[at].1, prev, best) && !txs.contains_key(order[at].0)
        }),
    decreases order.len() - from,
{
    if from < order.len() && !(due(order[from].1, prev, best) && !txs.contains_key(
        order[from].0,
    )) {
        lemma_next_unfetched(order, txs, prev, best, from + 1);
    }
}

/// A walk keeps the transactions at hand and adds those of the due entries that the node knows,
/// each with the time of its entry.
pub proof fn law_fetched(
    order: Seq<(Txid, MempoolEntry)>,
    txs: Map<Txid, (Seq<u8>, u64)>,
    prev: u64,
    best: u32,
    from: int,
    node: spec_fn(Txid) -> Option<Seq<u8>>,
)
    requires
        keys_of(order).no_duplicates(),
        0 <= from <= order.len(),
    ensures
        ({
            let after = fetched(order, txs, prev, best, from, node);
            &&& forall|t: Txid| #[trigger]
                txs.contains_key(t) ==> after.contains_key(t) && after[t] == txs[t]
            &&& forall|i: int|
                #![trigger order[i]]
                from <= i < order.len() && !txs.contains_key(order[i].0) ==> (after.contains_key(
                    order[i].0,
                ) <==> due(order[i].1, prev, best) && node(order[i].0) is Some)
            &&& forall|i: int|
                #![trigger order[i]]
                from <= i < order.len() && !txs.contains_key(order[i].0) && after.contains_key(
                    order[i].0,
                ) ==> after[order[i].0] == (node(order[i].0)->Some_0, order[i].1.time)
            &&& forall|t: Txid| #[trigger]
                after.contains_key(t) ==> txs.contains_key(t) || keys_of(
                    order.skip(from),
                ).contains(t)
        }),
    decreases order.len() - from,
{
    let at = next_unfetched(order, txs, prev, best, from);
    lemma_next_unfetched(order, txs, prev, best, from);
    if at < order.len() {
        let key = order[at].0;
        let more = match node(key) {
            Some(tx) => txs.insert(key, (tx, order[at].1.time)),
            None => txs,
        };
        law_fetched(order, more, prev, best, at + 1, node);
        let after = fetched(order, txs, prev, best, from, node);
        assert(after == fetched(order, more, prev, best, at + 1, node));
        assert forall|t: Txid| #[trigger] txs.contains_key(t) implies after.contains_key(t)
            && after[t] == txs[t] by {
            assert(more.contains_key(t));
        }
        assert forall|t: Txid| #[trigger] after.contains_key(t) implies txs.contains_key(t)
            || keys_of(order.skip(from)).contains(t) by {
            if keys_of(order.skip(at + 1)).contains(t) {
                let j = keys_of(order.skip(at + 1)).index_of(t);
                assert(keys_of(order.skip(at + 1))[j] == t);
                assert(keys_of(order.skip(from))[j + at + 1 - from] == t);
            } else if t == key {
                assert(keys_of(order.skip(from))[at - from] == t);
            }
        }
        assert forall|i: int|
            #![trigger order[i]]
            from <= i < order.len() && !txs.contains_key(order[i].0) implies (after.contains_key(
            order[i].0,
        ) <==> due(order[i].1, prev, best) && node(order[i].0) is Some) && (after.contains_key(
            order[i].0,
        ) ==> after[order[i].0] == (node(order[i].0)->Some_0, order[i].1.time)) by {
            assert(keys_of(order)[i] == order[i].0);
            assert(keys_of(order)[at] == key);
            if i <= at && after.contains_key(order[i].0) && !more.contains_key(order[i].0) {
                let j = keys_of(order.skip(at + 1)).index_of(order[i].0);
                assert(keys_of(order.skip(at + 1))[j] == order[i].0);
                assert(keys_of(order)[at + 1 + j] == order[i].0);
            }
            if i == at {
                assert(more.contains_key(key) ==> after[key] == more[key]);
            }
            if i > at {
                assert(order[i].0 != key);
            }
        }
    } else {
        assert(fetched(order, txs, prev, best, from, node) == txs);
    }
}

/// A walk leads to what `fetched` says: each answer of the node leaves that as it is, and it is
/// what is at hand once nothing more is asked for.
pub proof fn law_walk_fetches(
    order: Seq<(Txid, MempoolEntry)>,
    txs: Map<Txid, (Seq<u8>, u64)>,
    prev: u64,
    best: u32,
    from: int,
    node: spec_fn(Txid) -> Option<Seq<u8>>,
)
    requires
        0 <= from <= order.len(),
    ensures
        ({
            let at = next_unfetched(order, txs, prev, best, from);
            if at < order.len() {
                let more = match node(order[at].0) {
                    Some(tx) => txs.insert(order[at].0, (tx, order[at].1.time)),
                    None => txs,
                };
                &&& at + 1 <= order.len()
                &&& fetched(order, more, prev, best, at + 1, node) == fetched(
                    order,
                    txs,
                    prev,
                    best,
                    from,
                    node,
                )
            } else {
                txs == fetched(order, txs, prev, best, from, node)
            }
        }),
{
    lemma_next_unfetched(order, txs, prev, best, from);
}

/// What the poll has for an entry: the transaction at hand, or the one that the node knows, with
/// the time of the entry.
pub open spec fn available(
    txs: Map<Txid, (Seq<u8>, u64)>,
    node: spec_fn(Txid) -> Option<Seq<u8>>,
    entry: (Txid, MempoolEntry),
) -> Option<(Seq<u8>, u64)> {
    if txs.contains_key(entry.0) {
        Some(txs[entry.0])
    } else {
        match node(entry.0) {
            Some(tx) => Some((tx, entry.1.time)),
            None => None,
        }
    }
}

/// Whether the item is what the poll has for an entry that is due.
pub open spec fn is_available_item(
    order: Seq<(Txid, MempoolEntry)>,
    txs: Map<Txid, (Seq<u8>, u64)>,
    prev: u64,
    best: u32,
    node: spec_fn(Txid) -> Option<Seq<u8>>,
    item: (Seq<u8>, u64),
) -> bool {
    exists|i: int|
        0 <= i < order.len() && due((#[trigger] order[i]).1, prev, best) && available(
            txs,
            node,
            order[i],
        ) == Some(item)
}

/// A poll emits the transaction of every due entry for which one is at hand or known to the
/// node, and nothing else.
pub proof fn law_poll_emits(
    order: Seq<(Txid, MempoolEntry)>,
    txs: Map<Txid, (Seq<u8>, u64)>,
    prev: u64,
    best: u32,
    node: spec_fn(Txid) -> Option<Seq<u8>>,
)
    requires
        keys_of(order).no_duplicates(),
    ensures
        ({
            let emitted = emission(order, fetched(order, txs, prev, best, 0, node), prev, best);
            &&& forall|i: int|
                0 <= i < order.len() && due((#[trigger] order[i]).1, prev, best) ==> (available(
                    txs,
                    node,
                    order[i],
                ) matches Some(item) ==> emitted.contains(item))
            &&& forall|j: int|
                0 <= j < emitted.len() ==> is_available_item(
                    order,
                    txs,
                    prev,
                    best,
                    node,
                    #[trigger] emitted[j],
                )
        }),
{
    let after = fetched(order, txs, prev, best, 0, node);
    law_fetched(order, txs, prev, best, 0, node);
    law_emission(order, after, prev, best);
    let emitted = emission(order, after, prev, best);
    assert forall|i: int| 0 <= i < order.len() && due((#[trigger] order[i]).1, prev, best) implies (
    available(txs, node, order[i]) matches Some(item) ==> emitted.contains(item)) by {
        if available(txs, node, order[i]) is Some {
            assert(after.contains_key(order[i].0));
        }
    }
    assert forall|j: int| 0 <= j < emitted.len() implies is_available_item(
        order,
        txs,
        prev,
        best,
        node,
        #[trigger] emitted[j],
    ) by {
        assert(is_due_item(order, after, prev, best, emitted[j]));
        let i = choose|i: int|
            0 <= i < order.len() && due((#[trigger] order[i]).1, prev, best) && after.contains_key(
                order[i].0,
            ) && emitted[j] == after[order[i].0];
        assert(available(txs, node, order[i]) == Some(emitted[j]));
    }
}

} // verus!
