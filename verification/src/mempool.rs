//! What is known of the node's mempool, and how a poll of it proceeds.
//!
//! The poll asks the node for one thing at a time. Each state of it says what is to be asked
//! next; handing in the answer yields the next state.

use crate::hash_table::{kept, keys_of, map_of, table_of_keys, HashTable, Txid};
use vstd::prelude::*;

verus! {

/// A transaction in the node's mempool.
#[derive(Clone, Copy, Debug, PartialEq, Eq)]
pub struct MempoolEntry {
    /// The transaction id.
    pub txid: Txid,
    /// Local time transaction entered pool in seconds since 1 Jan 1970 GMT.
    pub time: u64,
    /// Block height when transaction entered pool.
    pub height: u32,
}

/// A transaction, as its consensus encoding.
#[derive(Debug, PartialEq, Eq)]
pub struct Transaction {
    pub encoding: Vec<u8>,
}

impl View for Transaction {
    type V = Seq<u8>;

    open spec fn view(&self) -> Seq<u8> {
        self.encoding@
    }
}

impl Clone for Transaction {
    fn clone(&self) -> (copy: Transaction)
        ensures
            copy@ == self@,
    {
        Transaction { encoding: self.encoding.clone() }
    }
}

/// A list of transactions with their times.
pub open spec fn timed(txs: Seq<(Transaction, u64)>) -> Seq<(Seq<u8>, u64)> {
    txs.map_values(|t: (Transaction, u64)| (t.0@, t.1))
}

/// The first-seen entries of the mempool, the transactions fetched so far, and the time up to
/// which transactions have been emitted.
pub struct MempoolCache {
    latest_mempool_timestamp: u64,
    mempool_entries_cache: HashTable<MempoolEntry>,
    mempool_txs_cache: HashTable<(Transaction, u64)>,
}

impl MempoolCache {
    /// The time up to which transactions have been emitted.
    pub closed spec fn timestamp(&self) -> u64 {
        self.latest_mempool_timestamp
    }

    /// The cached entries by id.
    pub closed spec fn entries(&self) -> Map<Txid, MempoolEntry> {
        self.mempool_entries_cache@
    }

    /// The cached entries in the order in which they are walked.
    pub closed spec fn order(&self) -> Seq<(Txid, MempoolEntry)> {
        self.mempool_entries_cache.entries()
    }

    /// The cached transactions with their times, by id.
    pub closed spec fn txs(&self) -> Map<Txid, (Seq<u8>, u64)> {
        self.mempool_txs_cache@.map_values(|t: (Transaction, u64)| (t.0@, t.1))
    }

    /// Each entry is filed under its own id.
    pub closed spec fn wf(&self) -> bool {
        &&& self.mempool_entries_cache.wf()
        &&& self.mempool_txs_cache.wf()
        &&& forall|t: Txid| #[trigger]
            self.entries().contains_key(t) ==> self.entries()[t].txid == t
    }

    /// The order lists the entries, each once, and each under its own id.
    pub proof fn lemma_order(&self)
        requires
            self.wf(),
        ensures
            self.entries() == map_of(self.order()),
            keys_of(self.order()).no_duplicates(),
            self.entries().dom().finite(),
            self.entries().dom().len() == self.order().len(),
            self.order().len() <= usize::MAX,
            forall|i: int|
                #![trigger self.order()[i]]
                0 <= i < self.order().len() ==> {
                    &&& self.order()[i].1.txid == self.order()[i].0
                    &&& self.entries().contains_key(self.order()[i].0)
                    &&& self.entries()[self.order()[i].0] == self.order()[i].1
                },
    {
        self.mempool_entries_cache.lemma_entries();
    }

    /// A cache that knows nothing yet.
    pub fn new() -> (cache: MempoolCache)
        ensures
            cache.wf(),
            cache.timestamp() == 0,
            cache.entries() == Map::<Txid, MempoolEntry>::empty(),
            cache.order() == Seq::<(Txid, MempoolEntry)>::empty(),
            cache.txs() == Map::<Txid, (Seq<u8>, u64)>::empty(),
    {
        let cache = MempoolCache {
            latest_mempool_timestamp: 0,
            mempool_entries_cache: HashTable::new(),
            mempool_txs_cache: HashTable::new(),
        };
        assert(cache.txs() =~= Map::<Txid, (Seq<u8>, u64)>::empty());
        cache
    }

    /// Begins an update of the entries with the node's list of ids: entries that it no longer
    /// lists are dropped. A failure to get the list ends the update at once.
    pub fn update_mempool_entries_cache<E>(&mut self, mempool: Result<Vec<Txid>, E>) -> (step:
        EntriesStep<E>)
        requires
            old(self).wf(),
        ensures
            update_begins(*old(self), mempool, step, *final(self)),
    {
        match mempool {
            Err(e) => EntriesStep::Done(Err(e)),
            Ok(txids) => {
                let listed = table_of_keys(&txids);
                self.mempool_entries_cache.retain_keys_of(&listed);
                assert forall|t: Txid| #[trigger]
                    self.entries().contains_key(t) implies self.entries()[t].txid == t by {
                    assert(old(self).entries().contains_key(t));
                }
                assert(txids@.skip(0) =~= txids@);
                PendingEntries::advance(self, txids, 0)
            },
        }
    }
}

/// The ids from the first one on that has no entry.
pub open spec fn from_first_missing(
    entries: Map<Txid, MempoolEntry>,
    txids: Seq<Txid>,
) -> Seq<Txid>
    decreases txids.len(),
{
    if txids.len() > 0 && entries.contains_key(txids[0]) {
        from_first_missing(entries, txids.drop_first())
    } else {
        txids
    }
}

/// The entry as filed under the id that was asked for.
pub open spec fn filed(txid: Txid, entry: MempoolEntry) -> MempoolEntry {
    MempoolEntry { txid, time: entry.time, height: entry.height }
}

/// Whether an update begins with this list so: entries that are no longer listed are dropped, and
/// the first listed id without an entry is asked for. Without a list the update is over.
pub open spec fn update_begins<E>(
    before: MempoolCache,
    mempool: Result<Vec<Txid>, E>,
    step: EntriesStep<E>,
    after: MempoolCache,
) -> bool {
    &&& after.wf()
    &&& after.timestamp() == before.timestamp()
    &&& after.txs() == before.txs()
    &&& match mempool {
        Err(e) => {
            &&& after == before
            &&& step == EntriesStep::<E>::Done(Err(e))
        },
        Ok(txids) => {
            &&& after.entries() == before.entries().restrict(txids@.to_set())
            &&& after.order() == kept(before.order(), txids@.to_set())
            &&& step.asks_for(from_first_missing(after.entries(), txids@))
        },
    }
}

/// Whether the entries are these once one was filed: a new one comes last.
pub open spec fn entry_filed(
    before: MempoolCache,
    txid: Txid,
    entry: MempoolEntry,
    after: MempoolCache,
) -> bool {
    &&& after.entries() == before.entries().insert(txid, filed(txid, entry))
    &&& if before.entries().contains_key(txid) {
        keys_of(after.order()) == keys_of(before.order())
    } else {
        after.order() == before.order().push((txid, filed(txid, entry)))
    }
}

/// Whether an update goes on so with the answer on the id asked for: an entry is filed under that
/// id, and the next id without an entry is asked for. A failure ends the update and changes
/// nothing.
pub open spec fn entry_taken<E>(
    pending: PendingEntries,
    before: MempoolCache,
    reply: Result<Option<MempoolEntry>, E>,
    step: EntriesStep<E>,
    after: MempoolCache,
) -> bool {
    let rest = pending.remaining().drop_first();
    &&& after.wf()
    &&& after.timestamp() == before.timestamp()
    &&& after.txs() == before.txs()
    &&& pending.remaining().len() > 0
    &&& match reply {
        Err(e) => {
            &&& after == before
            &&& step == EntriesStep::<E>::Done(Err(e))
        },
        Ok(None) => {
            &&& after == before
            &&& step.asks_for(from_first_missing(before.entries(), rest))
        },
        Ok(Some(entry)) => {
            &&& entry_filed(before, pending.remaining()[0], entry, after)
            &&& step.asks_for(from_first_missing(after.entries(), rest))
        },
    }
}

/// An update of the entries that waits for the entry of one id.
pub struct PendingEntries {
    txids: Vec<Txid>,
    next: usize,
}

/// What an update of the entries does next.
pub enum EntriesStep<E> {
    /// Ask the node for the entry of `PendingEntries::txid`.
    FetchEntry(PendingEntries),
    /// The update is over.
    Done(Result<(), E>),
}

impl<E> EntriesStep<E> {
    /// Whether the step asks for the first of these ids, the others to follow, or ends the
    /// update where there is none.
    pub open spec fn asks_for(self, txids: Seq<Txid>) -> bool {
        if txids.len() == 0 {
            self == EntriesStep::<E>::Done(Ok(()))
        } else {
            self matches EntriesStep::FetchEntry(p) && p.remaining() == txids
        }
    }
}

impl PendingEntries {
    /// The ids that have not been dealt with, the one asked for first.
    pub closed spec fn remaining(&self) -> Seq<Txid> {
        self.txids@.skip(self.next as int)
    }

    #[verifier::type_invariant]
    spec fn waits(self) -> bool {
        self.next < self.txids@.len()
    }

    /// The id whose entry is asked for.
    pub fn txid(&self) -> (txid: Txid)
        ensures
            self.remaining().len() > 0,
            txid == self.remaining()[0],
    {
        proof {
            use_type_invariant(self);
        }
        self.txids[self.next]
    }

    /// Passes over the ids from `next` on that have an entry.
    fn advance<E>(cache: &MempoolCache, txids: Vec<Txid>, next: usize) -> (step: EntriesStep<E>)
        requires
            cache.wf(),
            next <= txids@.len(),
        ensures
            step.asks_for(from_first_missing(cache.entries(), txids@.skip(next as int))),
    {
        let mut i: usize = next;
        let ghost target = from_first_missing(cache.entries(), txids@.skip(next as int));
        while i < txids.len() && cache.mempool_entries_cache.contains_key(&txids[i])
            invariant
                cache.wf(),
                i <= txids@.len(),
                from_first_missing(cache.entries(), txids@.skip(i as int)) == target,
            decreases txids@.len() - i,
        {
            proof {
                assert(txids@.skip(i as int)[0] == txids@[i as int]);
                assert(txids@.skip(i as int).drop_first() =~= txids@.skip(i + 1));
            }
            i += 1;
        }
        if i < txids.len() {
            assert(txids@.skip(i as int)[0] == txids@[i as int]);
            EntriesStep::FetchEntry(PendingEntries { txids, next: i })
        } else {
            EntriesStep::Done(Ok(()))
        }
    }

    /// Takes the answer on the id asked for. A failure ends the update and keeps what has been
    /// gathered; an id that the node does not know is passed over.
    pub fn received<E>(
        self,
        cache: &mut MempoolCache,
        reply: Result<Option<MempoolEntry>, E>,
    ) -> (step: EntriesStep<E>)
        requires
            old(cache).wf(),
        ensures
            entry_taken(self, *old(cache), reply, step, *final(cache)),
    {
        let txid: Txid = self.txid();
        proof {
            use_type_invariant(&self);
            assert(self.next < self.txids.len());
            assert(self.remaining().drop_first() =~= self.txids@.skip(self.next + 1));
        }
        match reply {
            Err(e) => EntriesStep::Done(Err(e)),
            Ok(None) => Self::advance(cache, self.txids, self.next + 1),
            Ok(Some(entry)) => {
                cache.mempool_entries_cache.insert(
                    txid,
                    MempoolEntry { txid, time: entry.time, height: entry.height },
                );
                assert forall|t: Txid| #[trigger]
                    cache.entries().contains_key(t) implies cache.entries()[t].txid == t by {
                    if t != txid {
                        assert(old(cache).entries().contains_key(t));
                    }
                }
                Self::advance(cache, self.txids, self.next + 1)
            },
        }
    }
}

/// Whether a transaction is to be emitted: unless it was emitted before, and the blocks that may
/// hold its ancestors have been processed.
pub open spec fn due(entry: MempoolEntry, prev: u64, best: u32) -> bool {
    entry.time > prev || entry.height > best
}

/// The transactions at hand of the entries that are due, in the order of the entries.
pub open spec fn emission(
    order: Seq<(Txid, MempoolEntry)>,
    txs: Map<Txid, (Seq<u8>, u64)>,
    prev: u64,
    best: u32,
) -> Seq<(Seq<u8>, u64)> {
    order.filter(
        |e: (Txid, MempoolEntry)| due(e.1, prev, best) && txs.contains_key(e.0),
    ).map_values(|e: (Txid, MempoolEntry)| txs[e.0])
}

/// The latest time among the entries and `prev`.
pub open spec fn newest(order: Seq<(Txid, MempoolEntry)>, prev: u64) -> u64
    decreases order.len(),
{
    if order.len() == 0 {
        prev
    } else {
        let rest = newest(order.drop_last(), prev);
        if order.last().1.time > rest {
            order.last().1.time
        } else {
            rest
        }
    }
}

/// The first position from `from` on of an entry that is due and whose transaction is not at
/// hand, or the number of entries where there is none.
pub open spec fn next_unfetched(
    order: Seq<(Txid, MempoolEntry)>,
    txs: Map<Txid, (Seq<u8>, u64)>,
    prev: u64,
    best: u32,
    from: int,
) -> int
    decreases order.len() - from,
{
    if 0 <= from < order.len() && !(due(order[from].1, prev, best) && !txs.contains_key(
        order[from].0,
    )) {
        next_unfetched(order, txs, prev, best, from + 1)
    } else {
        from
    }
}

/// One more entry adds its transaction to the emission where it is due and at hand.
proof fn lemma_emission_step(
    order: Seq<(Txid, MempoolEntry)>,
    txs: Map<Txid, (Seq<u8>, u64)>,
    prev: u64,
    best: u32,
    n: int,
)
    requires
        0 <= n < order.len(),
    ensures
        newest(order.take(n + 1), prev) == if order[n].1.time > newest(order.take(n), prev) {
            order[n].1.time
        } else {
            newest(order.take(n), prev)
        },
        emission(order.take(n + 1), txs, prev, best) == if due(order[n].1, prev, best)
            && txs.contains_key(order[n].0) {
            emission(order.take(n), txs, prev, best).push(txs[order[n].0])
        } else {
            emission(order.take(n), txs, prev, best)
        },
{
    reveal(Seq::filter);
    assert(order.take(n + 1).drop_last() =~= order.take(n));
    assert(order.take(n + 1).last() == order[n]);
    let pred = |e: (Txid, MempoolEntry)| due(e.1, prev, best) && txs.contains_key(e.0);
    let pick = |e: (Txid, MempoolEntry)| txs[e.0];
    let less = order.take(n).filter(pred);
    assert(less.push(order[n]).map_values(pick) =~= less.map_values(pick).push(pick(order[n])));
}

/// A transaction that belongs to none of the entries does not change their emission.
proof fn lemma_emission_frame(
    order: Seq<(Txid, MempoolEntry)>,
    txs: Map<Txid, (Seq<u8>, u64)>,
    prev: u64,
    best: u32,
    txid: Txid,
    tx: (Seq<u8>, u64),
)
    requires
        !keys_of(order).contains(txid),
    ensures
        emission(order, txs.insert(txid, tx), prev, best) == emission(order, txs, prev, best),
    decreases order.len(),
{
    let more = txs.insert(txid, tx);
    if order.len() > 0 {
        let n = order.len() - 1;
        let rest = order.take(n);
        assert(keys_of(order)[n] == order[n].0);
        assert forall|i: int| 0 <= i < rest.len() implies keys_of(rest)[i] != txid by {
            assert(keys_of(order)[i] == keys_of(rest)[i]);
        }
        lemma_emission_frame(rest, txs, prev, best, txid, tx);
        lemma_emission_step(order, txs, prev, best, n);
        lemma_emission_step(order, more, prev, best, n);
        assert(order.take(n + 1) =~= order);
    } else {
        reveal(Seq::filter);
        assert(emission(order, more, prev, best) =~= emission(order, txs, prev, best));
    }
}

/// A poll that waits for one transaction.
pub struct PendingTransaction {
    best_processed_height: u32,
    prev_mempool_time: u64,
    latest_time: u64,
    next: usize,
    txs_to_emit: Vec<(Transaction, u64)>,
}

/// What a poll does next.
pub enum SyncStep<E> {
    /// Ask the node for the entry of `AwaitingEntry::txid`.
    FetchEntry(AwaitingEntry),
    /// Ask the node for the transaction of `PendingTransaction::txid`.
    FetchTransaction(PendingTransaction),
    /// The poll is over.
    Done(Result<Vec<(Transaction, u64)>, E>),
}

/// A poll that waits for an entry.
pub struct AwaitingEntry {
    best_processed_height: u32,
    prev_mempool_time: u64,
    pending: PendingEntries,
}

impl<E> SyncStep<E> {
    /// Whether the step is what follows when the entries from `from` on are walked with these
    /// transactions at hand: the next missing transaction is asked for, or, where none is, the
    /// emission is handed out, and the timestamp moves to the newest entry unless nothing was
    /// emitted. `after` is the cache after the step.
    pub open spec fn walks_on(
        self,
        timestamp: u64,
        order: Seq<(Txid, MempoolEntry)>,
        txs: Map<Txid, (Seq<u8>, u64)>,
        prev: u64,
        best: u32,
        from: int,
        after: MempoolCache,
    ) -> bool {
        let at = next_unfetched(order, txs, prev, best, from);
        &&& after.order() == order
        &&& after.txs() == txs
        &&& if at < order.len() {
            &&& after.timestamp() == timestamp
            &&& self matches SyncStep::FetchTransaction(p) && {
                &&& p.in_step(after)
                &&& p.position() == at
                &&& p.prev() == prev
                &&& p.best() == best
            }
        } else {
            let emitted = emission(order, txs, prev, best);
            &&& after.timestamp() == if emitted.len() > 0 {
                newest(order, prev)
            } else {
                timestamp
            }
            &&& self matches SyncStep::Done(Ok(list)) && timed(list@) == emitted
        }
    }

    /// Whether the step is what follows when the ids in `remaining` have no entry yet: the
    /// first of them is asked for, or, where there is none, the transactions without an entry
    /// are dropped and the walk of the entries begins.
    pub open spec fn proceeds(
        self,
        remaining: Seq<Txid>,
        timestamp: u64,
        order: Seq<(Txid, MempoolEntry)>,
        txs: Map<Txid, (Seq<u8>, u64)>,
        prev: u64,
        best: u32,
        after: MempoolCache,
    ) -> bool {
        if remaining.len() > 0 {
            &&& after.timestamp() == timestamp
            &&& after.order() == order
            &&& after.txs() == txs
            &&& self matches SyncStep::FetchEntry(a) && {
                &&& a.remaining() == remaining
                &&& a.prev() == prev
                &&& a.best() == best
            }
        } else {
            self.walks_on(
                timestamp,
                order,
                txs.restrict(map_of(order).dom()),
                prev,
                best,
                0,
                after,
            )
        }
    }
}

/// Whether a poll begins with this list so: entries that are no longer listed are dropped, and
/// the poll proceeds from there. Without a list the poll is over.
pub open spec fn poll_begins<E>(
    before: MempoolCache,
    best: u32,
    mempool: Result<Vec<Txid>, E>,
    step: SyncStep<E>,
    after: MempoolCache,
) -> bool {
    &&& after.wf()
    &&& match mempool {
        Err(e) => {
            &&& after == before
            &&& step == SyncStep::<E>::Done(Err(e))
        },
        Ok(txids) => {
            &&& after.entries() == before.entries().restrict(txids@.to_set())
            &&& step.proceeds(
                from_first_missing(after.entries(), txids@),
                before.timestamp(),
                kept(before.order(), txids@.to_set()),
                before.txs(),
                before.timestamp(),
                best,
                after,
            )
        },
    }
}

/// Whether a poll goes on so with the answer on the entry asked for: an entry is filed under the
/// id asked for, and the poll proceeds. A failure ends the poll and changes nothing.
pub open spec fn poll_entry_taken<E>(
    waiting: AwaitingEntry,
    before: MempoolCache,
    reply: Result<Option<MempoolEntry>, E>,
    step: SyncStep<E>,
    after: MempoolCache,
) -> bool {
    let rest = waiting.remaining().drop_first();
    &&& after.wf()
    &&& waiting.remaining().len() > 0
    &&& match reply {
        Err(e) => {
            &&& after == before
            &&& step == SyncStep::<E>::Done(Err(e))
        },
        Ok(None) => {
            &&& after.entries() == before.entries()
            &&& step.proceeds(
                from_first_missing(before.entries(), rest),
                before.timestamp(),
                before.order(),
                before.txs(),
                waiting.prev(),
                waiting.best(),
                after,
            )
        },
        Ok(Some(entry)) => {
            &&& entry_filed(before, waiting.remaining()[0], entry, after)
            &&& step.proceeds(
                from_first_missing(after.entries(), rest),
                before.timestamp(),
                after.order(),
                before.txs(),
                waiting.prev(),
                waiting.best(),
                after,
            )
        },
    }
}

/// Whether a poll goes on so with the answer on the transaction asked for: it is kept with the
/// time of its entry, and the walk goes on behind that entry. A failure ends the poll and changes
/// nothing.
pub open spec fn transaction_taken<E>(
    pending: PendingTransaction,
    before: MempoolCache,
    reply: Result<Option<Transaction>, E>,
    step: SyncStep<E>,
    after: MempoolCache,
) -> bool {
    let (txid, entry) = before.order()[pending.position()];
    &&& after.wf()
    &&& after.entries() == before.entries()
    &&& match reply {
        Err(e) => {
            &&& after == before
            &&& step == SyncStep::<E>::Done(Err(e))
        },
        Ok(tx) => step.walks_on(
            before.timestamp(),
            before.order(),
            match tx {
                Some(tx) => before.txs().insert(txid, (tx@, entry.time)),
                None => before.txs(),
            },
            pending.prev(),
            pending.best(),
            pending.position() + 1,
            after,
        ),
    }
}

impl PendingTransaction {
    /// The position of the entry whose transaction is asked for.
    pub closed spec fn position(&self) -> int {
        self.next as int
    }

    /// The time up to which transactions had been emitted before the poll.
    pub closed spec fn prev(&self) -> u64 {
        self.prev_mempool_time
    }

    /// The height up to which blocks have been processed.
    pub closed spec fn best(&self) -> u32 {
        self.best_processed_height
    }

    /// Whether the poll is that of this cache: it has walked the entries before its position
    /// and waits for the one there.
    pub closed spec fn in_step(&self, cache: MempoolCache) -> bool {
        let order = cache.order();
        let walked = order.take(self.next as int);
        &&& cache.wf()
        &&& self.next < order.len()
        &&& due(order[self.next as int].1, self.prev_mempool_time, self.best_processed_height)
        &&& !cache.txs().contains_key(order[self.next as int].0)
        &&& timed(self.txs_to_emit@) == emission(
            walked,
            cache.txs(),
            self.prev_mempool_time,
            self.best_processed_height,
        )
        &&& self.latest_time == newest(order.take(self.next + 1), self.prev_mempool_time)
    }

    /// The entry whose transaction is asked for is one of the cache, and its transaction is not at
    /// hand.
    pub proof fn lemma_in_step(&self, cache: MempoolCache)
        requires
            self.in_step(cache),
        ensures
            cache.wf(),
            0 <= self.position() < cache.order().len(),
            !cache.txs().contains_key(cache.order()[self.position()].0),
    {
    }

    /// Walks the entries from `next` on.
    fn walk<E>(
        cache: &mut MempoolCache,
        best: u32,
        prev: u64,
        latest_so_far: u64,
        next: usize,
        emitted: Vec<(Transaction, u64)>,
    ) -> (step: SyncStep<E>)
        requires
            old(cache).wf(),
            next <= old(cache).order().len(),
            latest_so_far == newest(old(cache).order().take(next as int), prev),
            timed(emitted@) == emission(
                old(cache).order().take(next as int),
                old(cache).txs(),
                prev,
                best,
            ),
        ensures
            final(cache).wf(),
            final(cache).entries() == old(cache).entries(),
            step.walks_on(
                old(cache).timestamp(),
                old(cache).order(),
                old(cache).txs(),
                prev,
                best,
                next as int,
                *final(cache),
            ),
    {
        let ghost order = cache.order();
        let ghost txs = cache.txs();
        let ghost target = next_unfetched(order, txs, prev, best, next as int);
        let mut latest_time: u64 = latest_so_far;
        let mut txs_to_emit: Vec<(Transaction, u64)> = emitted;
        let mut i: usize = next;
        let count: usize = cache.mempool_entries_cache.len();
        while i < count
            invariant
                *cache == *old(cache),
                cache.wf(),
                order == cache.order(),
                txs == cache.txs(),
                count == order.len(),
                i <= count,
                latest_time == newest(order.take(i as int), prev),
                timed(txs_to_emit@) == emission(order.take(i as int), txs, prev, best),
                target == next_unfetched(order, txs, prev, best, next as int),
                next_unfetched(order, txs, prev, best, i as int) == target,
            decreases count - i,
        {
            let entry: MempoolEntry = cache.mempool_entries_cache.entry(i).1;
            let txid: Txid = cache.mempool_entries_cache.entry(i).0;
            proof {
                lemma_emission_step(order, txs, prev, best, i as int);
            }
            if entry.time > latest_time {
                latest_time = entry.time;
            }
            let ancestor_within_height = entry.height <= best;
            let is_already_emitted = entry.time <= prev;
            if !(is_already_emitted && ancestor_within_height) {
                match cache.mempool_txs_cache.get(&txid) {
                    Some(cached) => {
                        let ghost before = txs_to_emit@;
                        txs_to_emit.push((cached.0.clone(), cached.1));
                        assert(timed(txs_to_emit@) =~= timed(before).push(txs[txid]));
                    },
                    None => {
                        let pending = PendingTransaction {
                            best_processed_height: best,
                            prev_mempool_time: prev,
                            latest_time,
                            next: i,
                            txs_to_emit,
                        };
                        return SyncStep::FetchTransaction(pending);
                    },
                }
            }
            i += 1;
        }
        assert(order.take(i as int) =~= order);
        if txs_to_emit.len() > 0 {
            cache.latest_mempool_timestamp = latest_time;
            assert(cache.entries() == old(cache).entries());
        }
        assert(timed(txs_to_emit@).len() == txs_to_emit@.len());
        SyncStep::Done(Ok(txs_to_emit))
    }

    /// The id whose transaction is asked for.
    pub fn txid(&self, cache: &MempoolCache) -> (txid: Txid)
        requires
            self.in_step(*cache),
        ensures
            txid == cache.order()[self.position()].0,
    {
        proof {
            cache.lemma_order();
        }
        cache.mempool_entries_cache.entry(self.next).1.txid
    }

    /// Takes the answer on the transaction asked for. A failure ends the poll: nothing is
    /// emitted and the timestamp stays, but what has been fetched is kept. A transaction that
    /// the node does not know is passed over.
    pub fn received<E>(
        self,
        cache: &mut MempoolCache,
        reply: Result<Option<Transaction>, E>,
    ) -> (step: SyncStep<E>)
        requires
            self.in_step(*old(cache)),
        ensures
            transaction_taken(self, *old(cache), reply, step, *final(cache)),
    {
        let ghost order = cache.order();
        let ghost txs = cache.txs();
        let ghost at = self.next as int;
        proof {
            cache.lemma_order();
            lemma_emission_step(order, txs, self.prev_mempool_time, self.best_processed_height, at);
        }
        match reply {
            Err(e) => SyncStep::Done(Err(e)),
            Ok(None) => Self::walk(
                cache,
                self.best_processed_height,
                self.prev_mempool_time,
                self.latest_time,
                self.next + 1,
                self.txs_to_emit,
            ),
            Ok(Some(tx)) => {
                let entry: MempoolEntry = cache.mempool_entries_cache.entry(self.next).1;
                let mut txs_to_emit: Vec<(Transaction, u64)> = self.txs_to_emit;
                let ghost before = txs_to_emit@;
                cache.mempool_txs_cache.insert(entry.txid, (tx.clone(), entry.time));
                txs_to_emit.push((tx, entry.time));
                proof {
                    let item = (tx@, entry.time);
                    let more = txs.insert(entry.txid, item);
                    assert(cache.txs() =~= more);
                    assert(cache.entries() == old(cache).entries());
                    assert(timed(txs_to_emit@) =~= timed(before).push(item));
                    let walked = order.take(at);
                    assert forall|i: int| 0 <= i < walked.len() implies keys_of(walked)[i]
                        != entry.txid by {
                        assert(keys_of(order)[i] == keys_of(walked)[i]);
                        assert(keys_of(order)[at] == entry.txid);
                    }
                    lemma_emission_frame(
                        walked,
                        txs,
                        self.prev_mempool_time,
                        self.best_processed_height,
                        entry.txid,
                        item,
                    );
                    lemma_emission_step(
                        order,
                        more,
                        self.prev_mempool_time,
                        self.best_processed_height,
                        at,
                    );
                }
                Self::walk(
                    cache,
                    self.best_processed_height,
                    self.prev_mempool_time,
                    self.latest_time,
                    self.next + 1,
                    txs_to_emit,
                )
            },
        }
    }
}

impl AwaitingEntry {
    /// The ids that have not been dealt with, the one asked for first.
    pub closed spec fn remaining(&self) -> Seq<Txid> {
        self.pending.remaining()
    }

    /// The time up to which transactions had been emitted before the poll.
    pub closed spec fn prev(&self) -> u64 {
        self.prev_mempool_time
    }

    /// The height up to which blocks have been processed.
    pub closed spec fn best(&self) -> u32 {
        self.best_processed_height
    }

    /// The id whose entry is asked for.
    pub fn txid(&self) -> (txid: Txid)
        ensures
            self.remaining().len() > 0,
            txid == self.remaining()[0],
    {
        self.pending.txid()
    }

    /// Turns a step of the update of the entries into one of the poll.
    fn proceed<E>(
        cache: &mut MempoolCache,
        best: u32,
        prev: u64,
        update: EntriesStep<E>,
        Ghost(remaining): Ghost<Seq<Txid>>,
    ) -> (step: SyncStep<E>)
        requires
            old(cache).wf(),
            update matches EntriesStep::Done(Err(_)) || update.asks_for(remaining),
        ensures
            final(cache).wf(),
            final(cache).entries() == old(cache).entries(),
            match update {
                EntriesStep::Done(Err(e)) => {
                    &&& *final(cache) == *old(cache)
                    &&& step == SyncStep::<E>::Done(Err(e))
                },
                _ => step.proceeds(
                    remaining,
                    old(cache).timestamp(),
                    old(cache).order(),
                    old(cache).txs(),
                    prev,
                    best,
                    *final(cache),
                ),
            },
    {
        match update {
            EntriesStep::FetchEntry(pending) => SyncStep::FetchEntry(
                AwaitingEntry { best_processed_height: best, prev_mempool_time: prev, pending },
            ),
            EntriesStep::Done(Err(e)) => SyncStep::Done(Err(e)),
            EntriesStep::Done(Ok(())) => {
                proof {
                    cache.lemma_order();
                }
                cache.mempool_txs_cache.retain_keys_of(&cache.mempool_entries_cache);
                proof {
                    assert(cache.txs() =~= old(cache).txs().restrict(
                        map_of(old(cache).order()).dom(),
                    ));
                    assert(cache.entries() == old(cache).entries());
                    reveal(Seq::filter);
                    assert(cache.order().take(0) =~= Seq::empty());
                    assert(emission(cache.order().take(0), cache.txs(), prev, best) =~= timed(
                        Seq::empty(),
                    ));
                }
                PendingTransaction::walk(cache, best, prev, prev, 0, Vec::new())
            },
        }
    }

    /// Takes the answer on the id asked for. A failure ends the poll: nothing is emitted and the
    /// timestamp stays, but the entries gathered are kept.
    pub fn received<E>(
        self,
        cache: &mut MempoolCache,
        reply: Result<Option<MempoolEntry>, E>,
    ) -> (step: SyncStep<E>)
        requires
            old(cache).wf(),
        ensures
            poll_entry_taken(self, *old(cache), reply, step, *final(cache)),
    {
        let ghost remaining = self.pending.remaining();
        let update = self.pending.received(cache, reply);
        Self::proceed(
            cache,
            self.best_processed_height,
            self.prev_mempool_time,
            update,
            Ghost(from_first_missing(cache.entries(), remaining.drop_first())),
        )
    }
}

impl MempoolCache {
    /// Begins a poll with the node's list of ids.
    ///
    /// The poll yields mempool transactions, alongside their first-seen unix timestamps. It
    /// emits each transaction only once, unless it cannot be assumed that the transaction's
    /// ancestors are already emitted.
    pub fn get_mempool_transactions_and_timestamp_at_height<E>(
        &mut self,
        best_processed_height: u32,
        mempool: Result<Vec<Txid>, E>,
    ) -> (step: SyncStep<E>)
        requires
            old(self).wf(),
        ensures
            poll_begins(*old(self), best_processed_height, mempool, step, *final(self)),
    {
        let prev_mempool_time: u64 = self.latest_mempool_timestamp;
        let ghost txids = mempool->Ok_0@;
        let update = self.update_mempool_entries_cache(mempool);
        AwaitingEntry::proceed(
            self,
            best_processed_height,
            prev_mempool_time,
            update,
            Ghost(from_first_missing(self.entries(), txids)),
        )
    }
}

} // verus!
