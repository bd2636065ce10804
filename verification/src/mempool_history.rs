//! What holds of a mempool cache over any number of updates and polls.

use crate::hash_table::{kept, keys_of, map_of, Txid};
use crate::mempool::{
    due, emission, entry_taken, from_first_missing, newest, poll_begins, poll_entry_taken, timed,
    transaction_taken, update_begins, AwaitingEntry, EntriesStep, MempoolCache, MempoolEntry,
    PendingEntries, PendingTransaction, SyncStep, Transaction,
};
use crate::mempool_laws::{law_emission, law_newest, lemma_from_first_missing};
use vstd::prelude::*;

verus! {

/// One call that an update or a poll consists of, with what it was given and what came of it.
#[allow(inconsistent_fields)]
pub ghost enum Move<E> {
    /// `MempoolCache::update_mempool_entries_cache`.
    Update { mempool: Result<Vec<Txid>, E>, step: EntriesStep<E> },
    /// `PendingEntries::received`.
    UpdateEntry {
        pending: PendingEntries,
        reply: Result<Option<MempoolEntry>, E>,
        step: EntriesStep<E>,
    },
    /// `MempoolCache::get_mempool_transactions_and_timestamp_at_height`.
    Poll { best: u32, mempool: Result<Vec<Txid>, E>, step: SyncStep<E> },
    /// `AwaitingEntry::received`.
    PollEntry {
        waiting: AwaitingEntry,
        reply: Result<Option<MempoolEntry>, E>,
        step: SyncStep<E>,
    },
    /// `PendingTransaction::received`.
    PollTransaction {
        pending: PendingTransaction,
        reply: Result<Option<Transaction>, E>,
        step: SyncStep<E>,
    },
}

/// The ids of the entries that are due and whose transaction is at hand, in the order of the
/// entries.
pub open spec fn emitted_ids(
    order: Seq<(Txid, MempoolEntry)>,
    txs: Map<Txid, (Seq<u8>, u64)>,
    prev: u64,
    best: u32,
) -> Seq<Txid> {
    keys_of(
        order.filter(|e: (Txid, MempoolEntry)| due(e.1, prev, best) && txs.contains_key(e.0)),
    )
}

impl<E> Move<E> {
    /// Whether the move leads from one cache to the other: it may be made there, and keeps the
    /// contract of the call.
    pub open spec fn leads(self, before: MempoolCache, after: MempoolCache) -> bool {
        match self {
            Move::Update { mempool, step } => before.wf() && update_begins(
                before,
                mempool,
                step,
                after,
            ),
            Move::UpdateEntry { pending, reply, step } => before.wf() && entry_taken(
                pending,
                before,
                reply,
                step,
                after,
            ),
            Move::Poll { best, mempool, step } => before.wf() && poll_begins(
                before,
                best,
                mempool,
                step,
                after,
            ),
            Move::PollEntry { waiting, reply, step } => before.wf() && poll_entry_taken(
                waiting,
                before,
                reply,
                step,
                after,
            ),
            Move::PollTransaction { pending, reply, step } => pending.in_step(before)
                && transaction_taken(pending, before, reply, step, after),
        }
    }

    /// Whether the move begins an update or a poll.
    pub open spec fn begins(self) -> bool {
        self is Update || self is Poll
    }

    /// The step of a poll that the move yields.
    pub open spec fn poll_step(self) -> Option<SyncStep<E>> {
        match self {
            Move::Poll { best, mempool, step } => Some(step),
            Move::PollEntry { waiting, reply, step } => Some(step),
            Move::PollTransaction { pending, reply, step } => Some(step),
            _ => None,
        }
    }

    /// The step of an update that the move yields.
    pub open spec fn update_step(self) -> Option<EntriesStep<E>> {
        match self {
            Move::Update { mempool, step } => Some(step),
            Move::UpdateEntry { pending, reply, step } => Some(step),
            _ => None,
        }
    }

    /// Whether the move hands in the answer that the earlier one asked for.
    pub open spec fn answers(self, earlier: Move<E>) -> bool {
        match self {
            Move::UpdateEntry { pending, reply, step } => earlier.update_step() == Some(
                EntriesStep::<E>::FetchEntry(pending),
            ),
            Move::PollEntry { waiting, reply, step } => earlier.poll_step() == Some(
                SyncStep::<E>::FetchEntry(waiting),
            ),
            Move::PollTransaction { pending, reply, step } => earlier.poll_step() == Some(
                SyncStep::<E>::FetchTransaction(pending),
            ),
            _ => false,
        }
    }

    /// Whether the id is listed, where the move comes with a list of the mempool.
    pub open spec fn lists(self, txid: Txid) -> bool {
        match self {
            Move::Update { mempool: Ok(txids), step } => txids@.contains(txid),
            Move::Poll { best, mempool: Ok(txids), step } => txids@.contains(txid),
            _ => true,
        }
    }

    /// Whether the move files an entry for an id whose transaction is at hand with another time.
    pub open spec fn refiles(self, before: MempoolCache, txid: Txid) -> bool {
        &&& before.txs().contains_key(txid)
        &&& match self {
            Move::UpdateEntry { pending, reply: Ok(Some(entry)), step } => {
                pending.remaining()[0] == txid && before.txs()[txid].1 != entry.time
            },
            Move::PollEntry { waiting, reply: Ok(Some(entry)), step } => {
                waiting.remaining()[0] == txid && before.txs()[txid].1 != entry.time
            },
            _ => false,
        }
    }

    /// The time up to which transactions had been emitted before the poll.
    pub open spec fn prev(self, before: MempoolCache) -> u64 {
        match self {
            Move::PollEntry { waiting, reply, step } => waiting.prev(),
            Move::PollTransaction { pending, reply, step } => pending.prev(),
            _ => before.timestamp(),
        }
    }

    /// The height up to which blocks have been processed, as the poll was told.
    pub open spec fn best(self) -> u32 {
        match self {
            Move::Poll { best, mempool, step } => best,
            Move::PollEntry { waiting, reply, step } => waiting.best(),
            Move::PollTransaction { pending, reply, step } => pending.best(),
            _ => 0,
        }
    }

    /// Whether the move ends a poll that yields transactions.
    pub open spec fn emits(self) -> bool {
        self.poll_step() matches Some(SyncStep::Done(Ok(_)))
    }

    /// The ids of the transactions that the move emits.
    pub open spec fn emitted(self, before: MempoolCache, after: MempoolCache) -> Seq<Txid> {
        if self.emits() {
            emitted_ids(after.order(), after.txs(), self.prev(before), self.best())
        } else {
            Seq::empty()
        }
    }
}

/// A cache as it was before and after each of a number of moves.
pub ghost struct History<E> {
    pub caches: Seq<MempoolCache>,
    pub moves: Seq<Move<E>>,
}

impl<E> History<E> {
    /// Each move leads from one cache to the next, and either begins an update or a poll or hands
    /// in the answer that the move before it asked for.
    pub open spec fn valid(self) -> bool {
        &&& self.caches.len() == self.moves.len() + 1
        &&& forall|i: int|
            0 <= i < self.moves.len() ==> (#[trigger] self.moves[i]).leads(
                self.caches[i],
                self.caches[i + 1],
            )
        &&& forall|i: int|
            0 <= i < self.moves.len() ==> (#[trigger] self.moves[i]).begins() || (i > 0
                && self.moves[i].answers(self.moves[i - 1]))
    }

    /// The ids of the transactions that a move emitted.
    pub open spec fn emitted(self, i: int) -> Seq<Txid> {
        self.moves[i].emitted(self.caches[i], self.caches[i + 1])
    }

    /// Whether each poll before the move `end` that asked for an entry was answered: none failed or
    /// was given up over it. Nor was there an update beside the polls.
    pub open spec fn refreshed(self, end: int) -> bool {
        &&& forall|i: int| 0 <= i < end ==> (#[trigger] self.moves[i]).update_step() is None
        &&& forall|i: int|
            0 <= i < end && ((#[trigger] self.moves[i]).poll_step() matches Some(
                SyncStep::FetchEntry(_),
            )) ==> (self.moves[i + 1] matches Move::PollEntry { waiting, reply: Ok(_), step })
    }

    /// Whether the entry of the id is this one, is not newer than what has been emitted, and is so
    /// too for a poll that goes on with the move after `i`, which does not ask for it again.
    spec fn settled(self, i: int, txid: Txid, entry: MempoolEntry) -> bool {
        let cache = self.caches[i + 1];
        &&& cache.wf()
        &&& cache.entries().contains_key(txid)
        &&& cache.entries()[txid] == entry
        &&& entry.time <= cache.timestamp()
        &&& self.moves[i].poll_step() matches Some(SyncStep::FetchEntry(waiting)) ==> {
            &&& waiting.prev() >= entry.time
            &&& waiting.remaining()[0] != txid
        }
        &&& self.moves[i].poll_step() matches Some(SyncStep::FetchTransaction(pending)) ==> {
            pending.prev() >= entry.time
        }
        &&& self.moves[i].update_step() matches Some(EntriesStep::FetchEntry(pending)) ==> {
            pending.remaining()[0] != txid
        }
    }
}

/// What is in a filtered list stands in the list and passes.
proof fn lemma_emitted_id(
    order: Seq<(Txid, MempoolEntry)>,
    txs: Map<Txid, (Seq<u8>, u64)>,
    prev: u64,
    best: u32,
    txid: Txid,
)
    requires
        emitted_ids(order, txs, prev, best).contains(txid),
    ensures
        exists|i: int|
            0 <= i < order.len() && (#[trigger] order[i]).0 == txid && due(order[i].1, prev, best),
        emission(order, txs, prev, best).len() > 0,
{
    let pred = |e: (Txid, MempoolEntry)| due(e.1, prev, best) && txs.contains_key(e.0);
    let out = order.filter(pred);
    let j = choose|j: int| 0 <= j < out.len() && keys_of(out)[j] == txid;
    assert(keys_of(out)[j] == out[j].0);
    order.lemma_filter_pred(pred, j);
    assert(out.contains(out[j]));
    order.lemma_filter_contains_rev(pred, out[j]);
    let i = choose|i: int| 0 <= i < order.len() && order[i] == out[j];
    assert(order[i].0 == txid);
}

/// A walk that starts from a time leaves no older timestamp, and goes on from that time.
proof fn lemma_walks_on<E>(
    step: SyncStep<E>,
    timestamp: u64,
    order: Seq<(Txid, MempoolEntry)>,
    txs: Map<Txid, (Seq<u8>, u64)>,
    prev: u64,
    best: u32,
    from: int,
    after: MempoolCache,
    time: u64,
)
    requires
        step.walks_on(timestamp, order, txs, prev, best, from, after),
        time <= timestamp,
        time <= prev,
    ensures
        time <= after.timestamp(),
        !(step is FetchEntry),
        step matches SyncStep::FetchTransaction(p) ==> p.prev() == prev,
{
    law_newest(order, prev);
}

/// A poll that proceeds from a time leaves no older timestamp, and goes on from that time.
proof fn lemma_proceeds<E>(
    step: SyncStep<E>,
    remaining: Seq<Txid>,
    timestamp: u64,
    order: Seq<(Txid, MempoolEntry)>,
    txs: Map<Txid, (Seq<u8>, u64)>,
    prev: u64,
    best: u32,
    after: MempoolCache,
    time: u64,
)
    requires
        step.proceeds(remaining, timestamp, order, txs, prev, best, after),
        time <= timestamp,
        time <= prev,
    ensures
        time <= after.timestamp(),
        step matches SyncStep::FetchEntry(a) ==> a.prev() == prev && a.remaining() == remaining
            && remaining.len() > 0,
        step matches SyncStep::FetchTransaction(p) ==> p.prev() == prev,
{
    if remaining.len() == 0 {
        lemma_walks_on(
            step,
            timestamp,
            order,
            txs.restrict(map_of(order).dom()),
            prev,
            best,
            0,
            after,
            time,
        );
    }
}

/// An entry whose transaction a move emitted is settled with that move.
proof fn lemma_emission_settles<E>(history: History<E>, i: int, txid: Txid)
    requires
        history.valid(),
        0 <= i < history.moves.len(),
        history.emitted(i).contains(txid),
    ensures
        history.settled(i, txid, history.caches[i + 1].entries()[txid]),
{
    let this = history.moves[i];
    let before = history.caches[i];
    let after = history.caches[i + 1];
    let prev = this.prev(before);
    assert(this.leads(before, after));
    assert(this.emits());
    lemma_emitted_id(after.order(), after.txs(), prev, this.best(), txid);
    after.lemma_order();
    law_newest(after.order(), prev);
    let k = choose|k: int|
        0 <= k < after.order().len() && (#[trigger] after.order()[k]).0 == txid && due(
            after.order()[k].1,
            prev,
            this.best(),
        );
    assert(after.order()[k].1.time <= newest(after.order(), prev));
}

/// A settled entry stays settled while its id stays listed, and a poll that goes on or begins then
/// starts from a time at or behind that of the entry.
proof fn lemma_stays_settled<E>(history: History<E>, i: int, txid: Txid, entry: MempoolEntry)
    requires
        history.valid(),
        0 <= i < history.moves.len() - 1,
        history.settled(i, txid, entry),
        history.moves[i + 1].lists(txid),
    ensures
        history.settled(i + 1, txid, entry),
        history.moves[i + 1].prev(history.caches[i + 1]) >= entry.time,
{
    let this = history.moves[i + 1];
    let before = history.caches[i + 1];
    let after = history.caches[i + 1 + 1];
    assert(this.leads(before, after));
    assert(this.begins() || this.answers(history.moves[i]));
    let time = entry.time;
    match this {
        Move::Update { mempool, step } => {
            if let Ok(txids) = mempool {
                lemma_from_first_missing(after.entries(), txids@);
            }
        },
        Move::UpdateEntry { pending, reply, step } => {
            lemma_from_first_missing(after.entries(), pending.remaining().drop_first());
        },
        Move::Poll { best, mempool, step } => {
            if let Ok(txids) = mempool {
                let rest = from_first_missing(after.entries(), txids@);
                lemma_from_first_missing(after.entries(), txids@);
                lemma_proceeds(
                    step,
                    rest,
                    before.timestamp(),
                    kept(before.order(), txids@.to_set()),
                    before.txs(),
                    before.timestamp(),
                    best,
                    after,
                    time,
                );
            }
        },
        Move::PollEntry { waiting, reply, step } => {
            let rest = from_first_missing(
                after.entries(),
                waiting.remaining().drop_first(),
            );
            lemma_from_first_missing(after.entries(), waiting.remaining().drop_first());
            if let Ok(found) = reply {
                lemma_proceeds(
                    step,
                    rest,
                    before.timestamp(),
                    if found is Some {
                        after.order()
                    } else {
                        before.order()
                    },
                    before.txs(),
                    waiting.prev(),
                    waiting.best(),
                    after,
                    time,
                );
            }
        },
        Move::PollTransaction { pending, reply, step } => {
            if let Ok(found) = reply {
                let (asked, about) = before.order()[pending.position()];
                lemma_walks_on(
                    step,
                    before.timestamp(),
                    before.order(),
                    match found {
                        Some(tx) => before.txs().insert(asked, (tx@, about.time)),
                        None => before.txs(),
                    },
                    pending.prev(),
                    pending.best(),
                    pending.position() + 1,
                    after,
                    time,
                );
            }
        },
    }
}

/// A settled entry is settled after any number of moves while its id stays listed.
proof fn lemma_settled_on<E>(
    history: History<E>,
    from: int,
    to: int,
    txid: Txid,
    entry: MempoolEntry,
)
    requires
        history.valid(),
        0 <= from <= to < history.moves.len(),
        history.settled(from, txid, entry),
        forall|i: int| from < i <= to ==> (#[trigger] history.moves[i]).lists(txid),
    ensures
        history.settled(to, txid, entry),
    decreases to - from,
{
    if from < to {
        lemma_settled_on(history, from, to - 1, txid, entry);
        assert(history.moves[to].lists(txid));
        lemma_stays_settled(history, to - 1, txid, entry);
    }
}

/// Each transaction is emitted only once, unless its ancestors cannot be assumed to be emitted:
/// where a poll emitted an id, and every list of the mempool since has named it, its entry has
/// stayed the same, and a poll emits it again only if the height of that entry lies above that of
/// the processed blocks. This holds over any number of updates and polls between the two, whether
/// they came to an end, failed or were given up.
pub proof fn law_emitted_only_once<E>(history: History<E>, first: int, later: int, txid: Txid)
    requires
        history.valid(),
        0 <= first < later < history.moves.len(),
        history.emitted(first).contains(txid),
        forall|i: int| first < i <= later ==> (#[trigger] history.moves[i]).lists(txid),
    ensures
        ({
            let entry = history.caches[first + 1].entries()[txid];
            &&& history.caches[later + 1].entries().contains_key(txid)
            &&& history.caches[later + 1].entries()[txid] == entry
            &&& history.emitted(later).contains(txid) ==> entry.height
                > history.moves[later].best()
        }),
{
    let entry = history.caches[first + 1].entries()[txid];
    lemma_emission_settles(history, first, txid);
    lemma_settled_on(history, first, later - 1, txid, entry);
    assert(history.moves[later].lists(txid));
    lemma_stays_settled(history, later - 1, txid, entry);
    if history.emitted(later).contains(txid) {
        let this = history.moves[later];
        let after = history.caches[later + 1];
        let prev = this.prev(history.caches[later]);
        lemma_emitted_id(after.order(), after.txs(), prev, this.best(), txid);
        after.lemma_order();
        let k = choose|k: int|
            0 <= k < after.order().len() && (#[trigger] after.order()[k]).0 == txid && due(
                after.order()[k].1,
                prev,
                this.best(),
            );
        assert(after.order()[k].1 == entry);
    }
}

/// A poll starts from the timestamp as it stands, and the timestamp stays while the poll waits.
proof fn lemma_prev_is_timestamp<E>(history: History<E>, i: int)
    requires
        history.valid(),
        0 <= i < history.moves.len(),
    ensures
        history.moves[i].prev(history.caches[i]) == history.caches[i].timestamp(),
        history.moves[i].poll_step() matches Some(SyncStep::FetchEntry(a)) ==> a.prev()
            == history.caches[i + 1].timestamp(),
        history.moves[i].poll_step() matches Some(SyncStep::FetchTransaction(p)) ==> p.prev()
            == history.caches[i + 1].timestamp(),
    decreases i,
{
    let this = history.moves[i];
    assert(this.leads(history.caches[i], history.caches[i + 1]));
    if i > 0 {
        lemma_prev_is_timestamp(history, i - 1);
    }
}

/// The timestamp never goes back, whatever updates and polls there are.
pub proof fn law_timestamp_never_goes_back<E>(history: History<E>, i: int)
    requires
        history.valid(),
        0 <= i < history.moves.len(),
    ensures
        history.caches[i].timestamp() <= history.caches[i + 1].timestamp(),
{
    let this = history.moves[i];
    let before = history.caches[i];
    let after = history.caches[i + 1];
    assert(this.leads(before, after));
    lemma_prev_is_timestamp(history, i);
    law_newest(after.order(), this.prev(before));
}

/// What a poll hands out are the transactions of the ids that it emits, one for each and in the
/// same order, as the cache has them; and no id is emitted twice.
pub proof fn law_emitted_transactions<E>(
    this: Move<E>,
    before: MempoolCache,
    after: MempoolCache,
)
    requires
        this.leads(before, after),
    ensures
        this.poll_step() matches Some(SyncStep::Done(Ok(list))) ==> timed(list@) == this.emitted(
            before,
            after,
        ).map_values(|t: Txid| after.txs()[t]),
        this.emitted(before, after).no_duplicates(),
{
    if this.emits() {
        let prev = this.prev(before);
        let best = this.best();
        let order = after.order();
        let txs = after.txs();
        let pred = |e: (Txid, MempoolEntry)| due(e.1, prev, best) && txs.contains_key(e.0);
        assert(emission(order, txs, prev, best) =~= emitted_ids(order, txs, prev, best).map_values(
            |t: Txid| after.txs()[t],
        ));
        after.lemma_order();
        lemma_filtered_keys(order, pred);
    }
}

/// Filtering keeps the keys distinct.
proof fn lemma_filtered_keys(
    order: Seq<(Txid, MempoolEntry)>,
    pred: spec_fn((Txid, MempoolEntry)) -> bool,
)
    requires
        keys_of(order).no_duplicates(),
    ensures
        keys_of(order.filter(pred)).no_duplicates(),
    decreases order.len(),
{
    reveal(Seq::filter);
    if order.len() > 0 {
        let rest = order.drop_last();
        assert(keys_of(rest) =~= keys_of(order).drop_last());
        lemma_filtered_keys(rest, pred);
        let less = rest.filter(pred);
        if pred(order.last()) {
            assert(keys_of(order.filter(pred)) =~= keys_of(less).push(order.last().0));
            assert forall|i: int| 0 <= i < less.len() implies #[trigger] keys_of(less)[i]
                != order.last().0 by {
                assert(less.contains(less[i]));
                rest.lemma_filter_contains_rev(pred, less[i]);
                let j = choose|j: int| 0 <= j < rest.len() && rest[j] == less[i];
                assert(keys_of(order)[j] == less[i].0);
                assert(keys_of(order)[order.len() - 1] == order.last().0);
            }
        }
    }
}

/// Whether the transaction of the id, where both are there, has the time of its entry.
pub open spec fn time_agrees(cache: MempoolCache, txid: Txid) -> bool {
    cache.txs().contains_key(txid) && cache.entries().contains_key(txid) ==> cache.txs()[txid].1
        == cache.entries()[txid].time
}

/// A move keeps the times in agreement unless it files an entry of another time.
proof fn lemma_time_agrees<E>(
    this: Move<E>,
    before: MempoolCache,
    after: MempoolCache,
    txid: Txid,
)
    requires
        this.leads(before, after),
        time_agrees(before, txid),
        !this.refiles(before, txid),
    ensures
        time_agrees(after, txid),
{
    if let Move::PollTransaction { pending, reply, step } = this {
        pending.lemma_in_step(before);
        before.lemma_order();
    }
}

/// A transaction is emitted with the time of its entry, whether it was at hand or fetched, unless
/// an entry of another time was filed while it was at hand. This takes in any stretch of updates
/// and polls that starts with the two times in agreement.
pub proof fn law_emitted_times_unless_refiled<E>(
    history: History<E>,
    from: int,
    i: int,
    txid: Txid,
)
    requires
        history.valid(),
        0 <= from <= i < history.moves.len(),
        time_agrees(history.caches[from], txid),
        forall|k: int|
            from <= k <= i ==> !(#[trigger] history.moves[k]).refiles(history.caches[k], txid),
    ensures
        time_agrees(history.caches[i + 1], txid),
        history.emitted(i).contains(txid) ==> {
            let cache = history.caches[i + 1];
            &&& cache.txs().contains_key(txid)
            &&& cache.entries().contains_key(txid)
            &&& cache.txs()[txid].1 == cache.entries()[txid].time
        },
    decreases i - from,
{
    let this = history.moves[i];
    let after = history.caches[i + 1];
    assert(this.leads(history.caches[i], after));
    assert(!this.refiles(history.caches[i], txid));
    if from < i {
        law_emitted_times_unless_refiled(history, from, i - 1, txid);
    }
    lemma_time_agrees(this, history.caches[i], after, txid);
    if history.emitted(i).contains(txid) {
        lemma_emitted_id(
            after.order(),
            after.txs(),
            this.prev(history.caches[i]),
            this.best(),
            txid,
        );
        after.lemma_order();
    }
}

/// Whether the id has an entry where its transaction is at hand.
spec fn held(cache: MempoolCache, txid: Txid) -> bool {
    cache.txs().contains_key(txid) ==> cache.entries().contains_key(txid)
}

/// Whether the id is held, or is not among those that a poll goes on to ask for, of which the
/// first has no entry.
spec fn in_line<E>(step: SyncStep<E>, cache: MempoolCache, txid: Txid) -> bool {
    match step {
        SyncStep::FetchEntry(waiting) => {
            &&& held(cache, txid) || !waiting.remaining().contains(txid)
            &&& waiting.remaining().len() > 0
            &&& !cache.entries().contains_key(waiting.remaining()[0])
        },
        _ => held(cache, txid),
    }
}

/// Where a poll proceeds with some of these ids, an id that is held or not among them stays in
/// line.
proof fn lemma_proceeds_in_line<E>(
    step: SyncStep<E>,
    txids: Seq<Txid>,
    timestamp: u64,
    order: Seq<(Txid, MempoolEntry)>,
    txs: Map<Txid, (Seq<u8>, u64)>,
    prev: u64,
    best: u32,
    after: MempoolCache,
    txid: Txid,
)
    requires
        after.wf(),
        step.proceeds(
            from_first_missing(after.entries(), txids),
            timestamp,
            order,
            txs,
            prev,
            best,
            after,
        ),
        txs.contains_key(txid) ==> after.entries().contains_key(txid) || !txids.contains(txid),
    ensures
        in_line(step, after, txid),
{
    let rest = from_first_missing(after.entries(), txids);
    lemma_from_first_missing(after.entries(), txids);
    after.lemma_order();
    if rest.contains(txid) {
        let j = choose|j: int| 0 <= j < rest.len() && rest[j] == txid;
        assert(txids[txids.len() - rest.len() + j] == txid);
    }
}

/// A poll that begins where the id is held leaves it in line.
proof fn lemma_poll_in_line<E>(
    before: MempoolCache,
    best: u32,
    mempool: Result<Vec<Txid>, E>,
    step: SyncStep<E>,
    after: MempoolCache,
    txid: Txid,
)
    requires
        poll_begins(before, best, mempool, step, after),
        held(before, txid),
    ensures
        in_line(step, after, txid),
{
    if let Ok(txids) = mempool {
        lemma_proceeds_in_line(
            step,
            txids@,
            before.timestamp(),
            kept(before.order(), txids@.to_set()),
            before.txs(),
            before.timestamp(),
            best,
            after,
            txid,
        );
    }
}

/// An answer on an entry leaves the id in line.
proof fn lemma_poll_entry_in_line<E>(
    waiting: AwaitingEntry,
    before: MempoolCache,
    found: Option<MempoolEntry>,
    step: SyncStep<E>,
    after: MempoolCache,
    txid: Txid,
)
    requires
        poll_entry_taken(waiting, before, Ok(found), step, after),
        in_line(SyncStep::<E>::FetchEntry(waiting), before, txid),
    ensures
        in_line(step, after, txid),
        !(waiting.remaining()[0] == txid && before.txs().contains_key(txid)),
{
    let rest = waiting.remaining().drop_first();
    if rest.contains(txid) {
        let j = choose|j: int| 0 <= j < rest.len() && rest[j] == txid;
        assert(waiting.remaining()[j + 1] == txid);
    }
    assert(waiting.remaining().contains(waiting.remaining()[0]));
    lemma_proceeds_in_line(
        step,
        rest,
        before.timestamp(),
        if found is Some {
            after.order()
        } else {
            before.order()
        },
        before.txs(),
        waiting.prev(),
        waiting.best(),
        after,
        txid,
    );
}

/// An answer on a transaction leaves the id held.
proof fn lemma_transaction_in_line<E>(
    pending: PendingTransaction,
    before: MempoolCache,
    reply: Result<Option<Transaction>, E>,
    step: SyncStep<E>,
    after: MempoolCache,
    txid: Txid,
)
    requires
        pending.in_step(before),
        transaction_taken(pending, before, reply, step, after),
        held(before, txid),
    ensures
        in_line(step, after, txid),
{
    pending.lemma_in_step(before);
    before.lemma_order();
}

/// Where each poll was answered on the entries it asked for, every id stays in line, and no entry
/// is asked for whose transaction is at hand.
proof fn lemma_in_line<E>(history: History<E>, i: int, txid: Txid)
    requires
        history.valid(),
        0 <= i < history.moves.len(),
        !history.caches[0].txs().contains_key(txid),
        history.refreshed(i),
        history.moves[i].update_step() is None,
    ensures
        history.moves[i].poll_step() matches Some(step) && in_line(
            step,
            history.caches[i + 1],
            txid,
        ),
        !history.moves[i].refiles(history.caches[i], txid),
    decreases i,
{
    let this = history.moves[i];
    let before = history.caches[i];
    let after = history.caches[i + 1];
    assert(this.leads(before, after));
    assert(this.begins() || (i > 0 && this.answers(history.moves[i - 1])));
    if i > 0 {
        assert(history.moves[i - 1].update_step() is None);
        lemma_in_line(history, i - 1, txid);
    }
    match this {
        Move::Poll { best, mempool, step } => {
            lemma_poll_in_line(before, best, mempool, step, after, txid);
        },
        Move::PollEntry { waiting, reply, step } => {
            assert(reply is Ok);
            lemma_poll_entry_in_line(waiting, before, reply->Ok_0, step, after, txid);
        },
        Move::PollTransaction { pending, reply, step } => {
            lemma_transaction_in_line(pending, before, reply, step, after, txid);
        },
        _ => {},
    }
}

/// An emitted transaction has the time of its entry, where each poll was answered on the entries it
/// asked for.
proof fn lemma_emitted_time<E>(history: History<E>, i: int, txid: Txid)
    requires
        history.valid(),
        0 <= i < history.moves.len(),
        !history.caches[0].txs().contains_key(txid),
        history.refreshed(i),
        history.emitted(i).contains(txid),
    ensures
        history.caches[i + 1].entries().contains_key(txid),
        history.caches[i + 1].txs()[txid].1 == history.caches[i + 1].entries()[txid].time,
{
    assert forall|k: int| 0 <= k <= i implies !(#[trigger] history.moves[k]).refiles(
        history.caches[k],
        txid,
    ) by {
        if k < i {
            assert(history.moves[k].update_step() is None);
        }
        lemma_in_line(history, k, txid);
    }
    law_emitted_times_unless_refiled(history, 0, i, txid);
}

/// A poll yields transactions alongside their first-seen times: each with the time of its entry,
/// whether it was at hand or fetched, and no more of them than there are entries. This takes in
/// any number of polls of a cache that started without transactions, where no earlier poll failed
/// or was given up over an entry it asked for, and there was no update beside the polls.
pub proof fn law_emitted_times<E>(history: History<E>, i: int)
    requires
        history.valid(),
        0 <= i < history.moves.len(),
        history.caches[0].txs() == Map::<Txid, (Seq<u8>, u64)>::empty(),
        history.refreshed(i),
    ensures
        history.moves[i].poll_step() matches Some(SyncStep::Done(Ok(list))) ==> {
            let cache = history.caches[i + 1];
            &&& list@.len() == history.emitted(i).len()
            &&& list@.len() <= cache.entries().dom().len()
            &&& forall|j: int|
                0 <= j < list@.len() ==> {
                    let txid = #[trigger] history.emitted(i)[j];
                    &&& cache.entries().contains_key(txid)
                    &&& list@[j].1 == cache.entries()[txid].time
                }
        },
{
    if let Some(SyncStep::Done(Ok(list))) = history.moves[i].poll_step() {
        let this = history.moves[i];
        let before = history.caches[i];
        let cache = history.caches[i + 1];
        assert(this.leads(before, cache));
        law_emitted_transactions(this, before, cache);
        assert(timed(list@).len() == list@.len());
        assert forall|j: int| 0 <= j < list@.len() implies {
            let txid = #[trigger] history.emitted(i)[j];
            &&& cache.entries().contains_key(txid)
            &&& list@[j].1 == cache.entries()[txid].time
        } by {
            lemma_emitted_time(history, i, history.emitted(i)[j]);
            assert(timed(list@)[j] == cache.txs()[history.emitted(i)[j]]);
        }
        cache.lemma_order();
        law_emission(cache.order(), cache.txs(), this.prev(before), this.best());
    }
}

} // verus!
