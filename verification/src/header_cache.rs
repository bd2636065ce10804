//! A cache of the headers of recently connected blocks.

use crate::hash_table::{BlockHash, HashTable};
use std::collections::VecDeque;
use vstd::prelude::*;

verus! {

/// The cache drops a header once it holds this many.
pub const MAX_HEADER_CACHE_ENTRIES: usize = 100;

/// What the cache holds: the headers by hash, and the hashes in the order in which their blocks
/// were connected. A hash may be listed more than once, and may have lost its header.
pub ghost struct HeaderCacheState<H> {
    pub headers: Map<BlockHash, H>,
    pub seen: Seq<BlockHash>,
}

/// The position of the first listed hash that has a header, or the length of the list.
pub open spec fn first_held<H>(seen: Seq<BlockHash>, headers: Map<BlockHash, H>) -> int
    decreases seen.len(),
{
    if seen.len() == 0 || headers.contains_key(seen[0]) {
        0
    } else {
        1 + first_held(seen.drop_first(), headers)
    }
}

/// The list without a hash.
pub open spec fn without(seen: Seq<BlockHash>, hash: BlockHash) -> Seq<BlockHash> {
    seen.filter(|k: BlockHash| k != hash)
}

impl<H> HeaderCacheState<H> {
    /// The headers are fewer than the limit, and each of them is listed.
    pub open spec fn wf(self) -> bool {
        &&& self.headers.dom().finite()
        &&& self.headers.dom().len() < MAX_HEADER_CACHE_ENTRIES
        &&& forall|k: BlockHash| #[trigger]
            self.headers.contains_key(k) ==> self.seen.contains(k)
    }

    /// The state with one more block, before anything is dropped.
    pub open spec fn with(self, hash: BlockHash, header: H) -> HeaderCacheState<H> {
        HeaderCacheState {
            headers: self.headers.insert(hash, header),
            seen: self.seen.push(hash),
        }
    }

    /// The state after a block was connected: where the limit is reached, the header of the hash
    /// listed first is dropped, with what is listed up to it.
    pub open spec fn connected(self, hash: BlockHash, header: H) -> HeaderCacheState<H> {
        let full = self.with(hash, header);
        if full.headers.dom().len() < MAX_HEADER_CACHE_ENTRIES {
            full
        } else {
            let i = first_held(full.seen, full.headers);
            HeaderCacheState {
                headers: full.headers.remove(full.seen[i]),
                seen: full.seen.skip(i + 1),
            }
        }
    }

    /// The state after a block was disconnected: no trace of it is left.
    pub open spec fn disconnected(self, hash: BlockHash) -> HeaderCacheState<H> {
        HeaderCacheState {
            headers: self.headers.remove(hash),
            seen: without(self.seen, hash),
        }
    }
}

/// A cache of block headers that holds fewer than `MAX_HEADER_CACHE_ENTRIES`.
#[verifier::reject_recursive_types(H)]
pub struct BoundedHeaderCache<H> {
    header_map: HashTable<H>,
    recently_seen: VecDeque<BlockHash>,
}

impl<H> View for BoundedHeaderCache<H> {
    type V = HeaderCacheState<H>;

    closed spec fn view(&self) -> HeaderCacheState<H> {
        HeaderCacheState { headers: self.header_map@, seen: self.recently_seen@ }
    }
}

/// Where a listed hash has a header, the search finds the first.
proof fn lemma_first_held<H>(seen: Seq<BlockHash>, headers: Map<BlockHash, H>)
    ensures
        0 <= first_held(seen, headers) <= seen.len(),
        first_held(seen, headers) < seen.len() ==> headers.contains_key(
            seen[first_held(seen, headers)],
        ),
        forall|i: int|
            0 <= i < first_held(seen, headers) ==> !headers.contains_key(#[trigger] seen[i]),
    decreases seen.len(),
{
    if seen.len() > 0 && !headers.contains_key(seen[0]) {
        let tail = seen.drop_first();
        lemma_first_held(tail, headers);
        assert forall|i: int| 0 <= i < first_held(seen, headers) implies !headers.contains_key(
            #[trigger] seen[i],
        ) by {
            if i > 0 {
                assert(seen[i] == tail[i - 1]);
            }
        }
    }
}

impl<H> BoundedHeaderCache<H> {
    /// The table is in order, and so is the state.
    pub closed spec fn wf(&self) -> bool {
        &&& self.header_map.wf()
        &&& self@.wf()
    }

    /// A cache in order holds fewer headers than the limit, each of them listed.
    pub proof fn law_state_in_order(&self)
        requires
            self.wf(),
        ensures
            self@.wf(),
    {
    }

    /// An empty cache.
    pub fn new() -> (cache: BoundedHeaderCache<H>)
        ensures
            cache.wf(),
            cache@ == (HeaderCacheState::<H> { headers: Map::empty(), seen: Seq::empty() }),
    {
        let cache = BoundedHeaderCache { header_map: HashTable::new(), recently_seen: VecDeque::new() };
        assert(cache@.headers =~= Map::empty());
        assert(cache@.seen =~= Seq::empty());
        assert(cache@.headers.dom().len() == 0);
        cache
    }

    /// The header of a block, if it is held.
    pub fn look_up(&self, block_hash: &BlockHash) -> (header: Option<&H>)
        requires
            self.wf(),
        ensures
            match header {
                Some(h) => self@.headers.contains_key(*block_hash) && *h
                    == self@.headers[*block_hash],
                None => !self@.headers.contains_key(*block_hash),
            },
    {
        self.header_map.get(block_hash)
    }

    /// Takes in the header of a connected block.
    pub fn block_connected(&mut self, block_hash: BlockHash, block_header: H)
        requires
            old(self).wf(),
        ensures
            final(self).wf(),
            final(self)@ == old(self)@.connected(block_hash, block_header),
    {
        let ghost full = self@.with(block_hash, block_header);
        self.recently_seen.push_back(block_hash);
        self.header_map.insert(block_hash, block_header);
        proof {
            law_bounded(old(self)@, block_hash, block_header);
        }
        if self.header_map.len() >= MAX_HEADER_CACHE_ENTRIES {
            let ghost target = first_held(full.seen, full.headers);
            proof {
                lemma_first_held(full.seen, full.headers);
                assert(full.seen[full.seen.len() - 1] == block_hash);
                assert(full.headers.contains_key(block_hash));
                assert(full.seen.skip(0) =~= full.seen);
            }
            let ghost mut i: int = 0;
            // Keep dropping old entries until we've actually removed a header entry.
            while self.recently_seen.len() > 0
                invariant_except_break
                    0 <= i <= target,
                    self.header_map.wf(),
                    self.header_map@ == full.headers,
                    self.recently_seen@ == full.seen.skip(i),
                    target < full.seen.len(),
                    full.headers.contains_key(full.seen[target]),
                    forall|j: int|
                        0 <= j < target ==> !full.headers.contains_key(#[trigger] full.seen[j]),
                ensures
                    self.header_map.wf(),
                    self.header_map@ == full.headers.remove(full.seen[target]),
                    self.recently_seen@ == full.seen.skip(target + 1),
                decreases self.recently_seen@.len(),
            {
                if let Some(oldest_entry) = self.recently_seen.pop_front() {
                    assert(oldest_entry == full.seen[i]);
                    assert(self.recently_seen@ =~= full.seen.skip(i + 1));
                    if self.header_map.remove(&oldest_entry).is_some() {
                        break;
                    }
                    assert(self.header_map@ =~= full.headers);
                    proof {
                        i = i + 1;
                    }
                }
            }
        }
    }

    /// Forgets a disconnected block, and hands out its header if it was held.
    pub fn block_disconnected(&mut self, block_hash: &BlockHash) -> (header: Option<H>)
        requires
            old(self).wf(),
        ensures
            final(self).wf(),
            final(self)@ == old(self)@.disconnected(*block_hash),
            match header {
                Some(h) => old(self)@.headers.contains_key(*block_hash) && h
                    == old(self)@.headers[*block_hash],
                None => !old(self)@.headers.contains_key(*block_hash),
            },
    {
        let ghost all = self.recently_seen@;
        let ghost hash = *block_hash;
        let mut pending: VecDeque<BlockHash> = VecDeque::new();
        std::mem::swap(&mut pending, &mut self.recently_seen);
        let ghost mut i: int = 0;
        assert(all.skip(0) =~= all);
        assert(self.recently_seen@ =~= without(all.take(0), hash)) by {
            reveal(Seq::filter);
        }
        while pending.len() > 0
            invariant
                0 <= i <= all.len(),
                hash == *block_hash,
                pending@ == all.skip(i),
                self.recently_seen@ == without(all.take(i), hash),
                self.header_map == old(self).header_map,
            decreases pending@.len(),
        {
            if let Some(e) = pending.pop_front() {
                proof {
                    reveal(Seq::filter);
                    assert(e == all[i]);
                    assert(pending@ =~= all.skip(i + 1));
                    assert(all.take(i + 1).drop_last() =~= all.take(i));
                    assert(all.take(i + 1).last() == e);
                }
                if !e.same(block_hash) {
                    self.recently_seen.push_back(e);
                }
                proof {
                    i = i + 1;
                }
            }
        }
        assert(all.take(i) =~= all);
        let header = self.header_map.remove(block_hash);
        proof {
            lemma_disconnected_wf(old(self)@, *block_hash);
        }
        header
    }
}

/// The cache is bounded: whatever is connected or disconnected, the headers stay fewer than the
/// limit.
pub proof fn law_bounded<H>(state: HeaderCacheState<H>, hash: BlockHash, header: H)
    requires
        state.wf(),
    ensures
        state.connected(hash, header).wf(),
        state.disconnected(hash).wf(),
{
    let full = state.with(hash, header);
    assert(full.seen[full.seen.len() - 1] == hash);
    assert forall|k: BlockHash| #[trigger] full.headers.contains_key(k) implies full.seen.contains(
        k,
    ) by {
        if k != hash {
            assert(state.headers.contains_key(k));
            assert(full.seen[state.seen.index_of(k)] == k);
        }
    }
    if full.headers.dom().len() >= MAX_HEADER_CACHE_ENTRIES {
        lemma_first_held(full.seen, full.headers);
        let target = first_held(full.seen, full.headers);
        let after = state.connected(hash, header);
        assert(full.headers.contains_key(hash));
        assert(target <= full.seen.index_of(hash));
        assert forall|k: BlockHash| #[trigger]
            after.headers.contains_key(k) implies after.seen.contains(k) by {
            assert(full.headers.contains_key(k));
            let j = full.seen.index_of(k);
            assert(full.seen[j] == k);
            assert(after.seen[j - target - 1] == k);
        }
    }
    lemma_disconnected_wf(state, hash);
}

/// Disconnecting keeps the state in order.
proof fn lemma_disconnected_wf<H>(state: HeaderCacheState<H>, hash: BlockHash)
    requires
        state.wf(),
    ensures
        state.disconnected(hash).wf(),
{
    let gone = state.disconnected(hash);
    assert forall|k: BlockHash| #[trigger] gone.headers.contains_key(k) implies gone.seen.contains(
        k,
    ) by {
        assert(state.headers.contains_key(k));
        let j = state.seen.index_of(k);
        assert(state.seen[j] == k);
        state.seen.lemma_filter_contains(|k: BlockHash| k != hash, j);
    }
}

/// A block can be looked up once it is connected, unless the cache is at its limit and the block
/// is listed, without a header, before the oldest block that has one.
pub proof fn law_connected_is_held<H>(state: HeaderCacheState<H>, hash: BlockHash, header: H)
    requires
        state.wf(),
        state.headers.contains_key(hash) || state.headers.dom().len() + 1
            < MAX_HEADER_CACHE_ENTRIES || !state.seen.take(
            first_held(state.seen, state.headers),
        ).contains(hash),
    ensures
        state.connected(hash, header).headers.contains_key(hash),
        state.connected(hash, header).headers[hash] == header,
{
    let full = state.with(hash, header);
    if state.headers.contains_key(hash) {
        assert(full.headers.dom() =~= state.headers.dom());
    } else if full.headers.dom().len() >= MAX_HEADER_CACHE_ENTRIES {
        lemma_first_held(full.seen, full.headers);
        lemma_first_held(state.seen, state.headers);
        let target = first_held(full.seen, full.headers);
        let oldest = first_held(state.seen, state.headers);
        let other = state.headers.dom().choose();
        assert(state.headers.contains_key(other));
        assert(oldest <= state.seen.index_of(other));
        assert(full.seen[oldest] == state.seen[oldest]);
        if full.seen[target] == hash {
            assert(target < oldest);
            assert(state.seen.take(oldest)[target] == hash);
        }
    }
}

/// Connecting a block drops at most one header, and that is one listed before every other block
/// that keeps its header; every other header stays as it was.
pub proof fn law_drops_oldest<H>(state: HeaderCacheState<H>, hash: BlockHash, header: H)
    requires
        state.wf(),
    ensures
        ({
            let full = state.with(hash, header);
            let after = state.connected(hash, header);
            ||| after.headers == full.headers
            ||| exists|i: int|
                {
                    &&& 0 <= i < full.seen.len()
                    &&& after.headers == full.headers.remove(#[trigger] full.seen[i])
                    &&& forall|j: int|
                        0 <= j < i ==> !full.headers.contains_key(#[trigger] full.seen[j])
                }
        }),
{
    let full = state.with(hash, header);
    if full.headers.dom().len() >= MAX_HEADER_CACHE_ENTRIES {
        lemma_first_held(full.seen, full.headers);
        let i = first_held(full.seen, full.headers);
        assert(full.seen[full.seen.len() - 1] == hash);
        assert(full.headers.contains_key(hash));
        assert(state.connected(hash, header).headers == full.headers.remove(full.seen[i]));
    }
}

/// A disconnected block cannot be looked up and is no longer listed; the others are untouched.
pub proof fn law_disconnected_is_forgotten<H>(state: HeaderCacheState<H>, hash: BlockHash)
    ensures
        !state.disconnected(hash).headers.contains_key(hash),
        !state.disconnected(hash).seen.contains(hash),
        forall|k: BlockHash|
            k != hash ==> (#[trigger] state.disconnected(hash).headers.contains_key(k)
                <==> state.headers.contains_key(k)),
        forall|k: BlockHash|
            k != hash && #[trigger] state.headers.contains_key(k) ==> state.disconnected(
                hash,
            ).headers[k] == state.headers[k],
{
    let pred = |k: BlockHash| k != hash;
    let seen = state.disconnected(hash).seen;
    if seen.contains(hash) {
        let i = seen.index_of(hash);
        assert(seen[i] == hash);
        state.seen.lemma_filter_pred(pred, i);
    }
}

/// Disconnecting undoes connecting, where the block was not known and nothing was dropped for
/// it.
pub proof fn law_disconnect_undoes_connect<H>(
    state: HeaderCacheState<H>,
    hash: BlockHash,
    header: H,
)
    requires
        state.wf(),
        !state.seen.contains(hash),
        state.headers.dom().len() + 1 < MAX_HEADER_CACHE_ENTRIES,
    ensures
        state.connected(hash, header).disconnected(hash) == state,
{
    assert(!state.headers.contains_key(hash));
    let after = state.connected(hash, header);
    assert(after == state.with(hash, header));
    let back = after.disconnected(hash);
    assert(back.headers =~= state.headers);
    reveal(Seq::filter);
    assert(after.seen.drop_last() =~= state.seen);
    lemma_without_absent(state.seen, hash);
}

/// Leaving out a hash that is not listed changes nothing.
proof fn lemma_without_absent(seen: Seq<BlockHash>, hash: BlockHash)
    requires
        !seen.contains(hash),
    ensures
        without(seen, hash) == seen,
    decreases seen.len(),
{
    reveal(Seq::filter);
    if seen.len() > 0 {
        let rest = seen.drop_last();
        assert(seen[seen.len() - 1] != hash);
        assert forall|i: int| 0 <= i < rest.len() implies rest[i] != hash by {
            assert(rest[i] == seen[i]);
        }
        lemma_without_absent(rest, hash);
        assert(rest.push(seen.last()) =~= seen);
    }
}

/// Connecting a block that leaves the cache below its limit drops nothing: the header is there, all
/// others stay, and the block is listed last.
pub proof fn law_nothing_dropped_below_limit<H>(
    state: HeaderCacheState<H>,
    hash: BlockHash,
    header: H,
)
    requires
        state.wf(),
        state.headers.dom().len() + 1 < 100 || (state.headers.contains_key(hash)
            && state.headers.dom().len() < 100),
    ensures
        state.connected(hash, header).headers == state.headers.insert(hash, header),
        state.connected(hash, header).seen == state.seen.push(hash),
{
    if state.headers.contains_key(hash) {
        assert(state.headers.insert(hash, header).dom() =~= state.headers.dom());
    }
}

/// Connecting a new block to a cache that holds one header less than its limit drops one: that of
/// the block listed first of those that have a header. Its place and those before it leave the
/// list, and the others stay in their order.
pub proof fn law_one_dropped_at_limit<H>(
    state: HeaderCacheState<H>,
    hash: BlockHash,
    header: H,
    oldest: int,
)
    requires
        state.wf(),
        state.headers.dom().len() == 99,
        !state.headers.contains_key(hash),
        0 <= oldest <= state.seen.len(),
        state.headers.insert(hash, header).contains_key(state.seen.push(hash)[oldest]),
        forall|i: int|
            0 <= i < oldest ==> !state.headers.insert(hash, header).contains_key(
                #[trigger] state.seen.push(hash)[i],
            ),
    ensures
        state.connected(hash, header).headers == state.headers.insert(hash, header).remove(
            state.seen.push(hash)[oldest],
        ),
        state.connected(hash, header).headers.dom().len() == 99,
        state.connected(hash, header).seen == state.seen.push(hash).skip(oldest + 1),
{
    let full = state.with(hash, header);
    lemma_first_held(full.seen, full.headers);
    let first = first_held(full.seen, full.headers);
    assert(full.seen == state.seen.push(hash));
    assert(full.headers == state.headers.insert(hash, header));
    if first < oldest {
        assert(full.headers.contains_key(full.seen[first]));
    }
    if oldest < first {
        assert(!full.headers.contains_key(full.seen[oldest]));
    }
    assert(full.headers.dom() =~= state.headers.dom().insert(hash));
    assert(full.headers.remove(full.seen[oldest]).dom() =~= full.headers.dom().remove(
        full.seen[oldest],
    ));
}

/// Leaving a hash out of the list goes through the list one by one: every other hash stays, behind
/// those that stayed before it.
pub proof fn law_disconnected_keeps_order<H>(
    state: HeaderCacheState<H>,
    more: HeaderCacheState<H>,
    last: BlockHash,
    hash: BlockHash,
)
    requires
        more.seen == state.seen.push(last),
    ensures
        state.seen.len() == 0 ==> state.disconnected(hash).seen.len() == 0,
        last != hash ==> more.disconnected(hash).seen == state.disconnected(hash).seen.push(last),
        last == hash ==> more.disconnected(hash).seen == state.disconnected(hash).seen,
        more.disconnected(hash).headers == more.headers.remove(hash),
{
    reveal(Seq::filter);
    assert(more.seen.drop_last() =~= state.seen);
}

/// A block can be looked up with the header it was connected with, below the limit, and what was
/// there before is as it was.
pub proof fn law_connecting_keeps_others<H>(
    state: HeaderCacheState<H>,
    hash: BlockHash,
    header: H,
    other: BlockHash,
)
    requires
        state.wf(),
        other != hash,
    ensures
        state.connected(hash, header).headers.contains_key(other) ==> state.headers.contains_key(
            other,
        ) && state.connected(hash, header).headers[other] == state.headers[other],
        state.connected(hash, header).headers.contains_key(hash) ==> state.connected(
            hash,
            header,
        ).headers[hash] == header,
{
}

} // verus!
