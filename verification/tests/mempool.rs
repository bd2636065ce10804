use ldk_node::hash_table::{table_of_keys, Hash256, HashTable};
use ldk_node::mempool::{EntriesStep, MempoolCache, MempoolEntry, SyncStep, Transaction};

fn hash(n: u8) -> Hash256 {
    Hash256 { bytes: [n; 32] }
}

fn entry(n: u8, time: u64, height: u32) -> MempoolEntry {
    MempoolEntry { txid: hash(n), time, height }
}

fn tx(n: u8) -> Transaction {
    Transaction { encoding: vec![n, n] }
}

/// A node with these entries in its mempool; it knows the transactions of those with an even
/// number only, and fails on the given ids.
struct Node {
    entries: Vec<MempoolEntry>,
    broken: Vec<u8>,
    asked: Vec<String>,
}

impl Node {
    fn new(entries: Vec<MempoolEntry>) -> Node {
        Node { entries, broken: vec![], asked: vec![] }
    }

    fn ids(&self) -> Vec<Hash256> {
        self.entries.iter().map(|e| e.txid).collect()
    }

    fn entry(&mut self, txid: Hash256) -> Result<Option<MempoolEntry>, String> {
        self.asked.push(format!("entry {}", txid.bytes[0]));
        if self.broken.contains(&txid.bytes[0]) {
            return Err(format!("broken {}", txid.bytes[0]));
        }
        Ok(self.entries.iter().find(|e| e.txid == txid && e.time > 0).copied())
    }

    fn tx(&mut self, txid: Hash256) -> Result<Option<Transaction>, String> {
        self.asked.push(format!("tx {}", txid.bytes[0]));
        if self.broken.contains(&(txid.bytes[0] + 100)) {
            return Err(format!("broken tx {}", txid.bytes[0]));
        }
        Ok(if txid.bytes[0] % 2 == 0 { Some(tx(txid.bytes[0])) } else { None })
    }

    fn update(&mut self, cache: &mut MempoolCache) -> Result<(), String> {
        let mut step = cache.update_mempool_entries_cache(Ok(self.ids()));
        loop {
            step = match step {
                EntriesStep::FetchEntry(pending) => {
                    let reply = self.entry(pending.txid());
                    pending.received(cache, reply)
                }
                EntriesStep::Done(outcome) => return outcome,
            };
        }
    }

    fn poll(&mut self, cache: &mut MempoolCache, best: u32) -> Result<Vec<(u8, u64)>, String> {
        let mut step =
            cache.get_mempool_transactions_and_timestamp_at_height(best, Ok(self.ids()));
        loop {
            step = match step {
                SyncStep::FetchEntry(waiting) => {
                    let reply = self.entry(waiting.txid());
                    waiting.received(cache, reply)
                }
                SyncStep::FetchTransaction(pending) => {
                    let reply = self.tx(pending.txid(cache));
                    pending.received(cache, reply)
                }
                SyncStep::Done(outcome) => {
                    return outcome.map(|txs| {
                        txs.into_iter()
                            .map(|(tx, time)| {
                                assert_eq!(tx.encoding[0], tx.encoding[1]);
                                (tx.encoding[0], time)
                            })
                            .collect()
                    })
                }
            };
        }
    }

    fn asked(&mut self) -> Vec<String> {
        std::mem::take(&mut self.asked)
    }
}

#[test]
fn a_poll_emits_what_is_in_the_mempool() {
    let mut node = Node::new(vec![entry(2, 50, 7), entry(4, 40, 7)]);
    let mut cache = MempoolCache::new();
    assert_eq!(node.poll(&mut cache, 10), Ok(vec![(2, 50), (4, 40)]));
    assert_eq!(node.asked(), ["entry 2", "entry 4", "tx 2", "tx 4"]);
}

#[test]
fn each_transaction_is_emitted_only_once() {
    let mut node = Node::new(vec![entry(2, 50, 7), entry(4, 40, 7)]);
    let mut cache = MempoolCache::new();
    assert_eq!(node.poll(&mut cache, 10), Ok(vec![(2, 50), (4, 40)]));
    node.asked();
    assert_eq!(node.poll(&mut cache, 10), Ok(vec![]));
    assert_eq!(node.asked(), Vec::<String>::new());

    // Only what is newer than all that was there is emitted.
    node.entries.push(entry(6, 51, 8));
    node.entries.push(entry(8, 50, 8));
    assert_eq!(node.poll(&mut cache, 10), Ok(vec![(6, 51)]));
    assert_eq!(node.asked(), ["entry 6", "entry 8", "tx 6"]);
    assert_eq!(node.poll(&mut cache, 10), Ok(vec![]));
}

#[test]
fn failures_and_updates_between_do_not_bring_a_transaction_back() {
    let mut node = Node::new(vec![entry(2, 50, 7)]);
    let mut cache = MempoolCache::new();
    assert_eq!(node.poll(&mut cache, 10), Ok(vec![(2, 50)]));
    node.entries.push(entry(4, 60, 7));
    node.broken = vec![4];
    assert_eq!(node.poll(&mut cache, 10), Err("broken 4".to_string()));
    node.broken = vec![104];
    assert_eq!(node.poll(&mut cache, 10), Err("broken tx 4".to_string()));
    node.broken.clear();
    assert_eq!(node.update(&mut cache), Ok(()));
    // The node tells of another time, but the entry stays as it was first seen.
    node.entries[0] = entry(2, 99, 7);
    assert_eq!(node.poll(&mut cache, 10), Ok(vec![(4, 60)]));
    assert_eq!(node.poll(&mut cache, 7), Ok(vec![]));
    assert_eq!(node.poll(&mut cache, 6), Ok(vec![(2, 50), (4, 60)]));
}

#[test]
fn a_transaction_is_emitted_again_while_its_ancestors_may_be_unknown() {
    let mut node = Node::new(vec![entry(2, 50, 12), entry(4, 40, 10)]);
    let mut cache = MempoolCache::new();
    assert_eq!(node.poll(&mut cache, 10), Ok(vec![(2, 50), (4, 40)]));
    node.asked();
    assert_eq!(node.poll(&mut cache, 11), Ok(vec![(2, 50)]));
    // It was kept, so it is not asked for again.
    assert_eq!(node.asked(), Vec::<String>::new());
    assert_eq!(node.poll(&mut cache, 12), Ok(vec![]));
}

#[test]
fn entries_that_left_the_mempool_are_forgotten() {
    let mut node = Node::new(vec![entry(2, 50, 7), entry(4, 40, 7)]);
    let mut cache = MempoolCache::new();
    node.poll(&mut cache, 10).unwrap();
    node.entries.remove(0);
    assert_eq!(node.poll(&mut cache, 10), Ok(vec![]));
    node.asked();

    // It comes back later: entry and transaction are asked for anew.
    node.entries.push(entry(2, 60, 7));
    assert_eq!(node.poll(&mut cache, 10), Ok(vec![(2, 60)]));
    assert_eq!(node.asked(), ["entry 2", "tx 2"]);
}

#[test]
fn transactions_come_with_the_times_of_their_entries() {
    let mut node = Node::new(vec![entry(2, 50, 12), entry(4, 40, 7)]);
    let mut cache = MempoolCache::new();
    // Fetched, and then at hand.
    assert_eq!(node.poll(&mut cache, 10), Ok(vec![(2, 50), (4, 40)]));
    assert_eq!(node.poll(&mut cache, 10), Ok(vec![(2, 50)]));
    // Gone for a poll, and back with a new time.
    node.entries = vec![entry(4, 40, 7)];
    assert_eq!(node.poll(&mut cache, 10), Ok(vec![]));
    node.entries.push(entry(2, 80, 12));
    assert_eq!(node.poll(&mut cache, 10), Ok(vec![(2, 80)]));
}

#[test]
fn a_transaction_that_is_back_after_a_failed_poll_comes_with_the_time_it_was_fetched_with() {
    let mut node = Node::new(vec![entry(2, 50, 7)]);
    let mut cache = MempoolCache::new();
    assert_eq!(node.poll(&mut cache, 10), Ok(vec![(2, 50)]));
    node.entries = vec![entry(4, 60, 7)];
    node.broken = vec![4];
    assert_eq!(node.poll(&mut cache, 10), Err("broken 4".to_string()));
    node.entries = vec![entry(2, 80, 7)];
    assert_eq!(node.poll(&mut cache, 10), Ok(vec![(2, 50)]));
}

#[test]
fn what_the_node_does_not_know_is_passed_over() {
    // The node has no entry for 6 by the time it is asked, and no transaction for 3.
    let mut node = Node::new(vec![entry(3, 70, 7), entry(6, 0, 7), entry(4, 40, 7)]);
    let mut cache = MempoolCache::new();
    assert_eq!(node.poll(&mut cache, 10), Ok(vec![(4, 40)]));
    assert_eq!(node.asked(), ["entry 3", "entry 6", "entry 4", "tx 3", "tx 4"]);
    // The timestamp is that of the newest entry, whether or not it was emitted.
    node.entries.push(entry(8, 70, 7));
    assert_eq!(node.poll(&mut cache, 10), Ok(vec![]));
    assert_eq!(node.asked(), ["entry 6", "entry 8"]);
}

#[test]
fn without_an_emission_the_timestamp_stays() {
    let mut node = Node::new(vec![entry(3, 70, 7)]);
    let mut cache = MempoolCache::new();
    assert_eq!(node.poll(&mut cache, 10), Ok(vec![]));
    node.entries.push(entry(8, 60, 7));
    assert_eq!(node.poll(&mut cache, 10), Ok(vec![(8, 60)]));
}

#[test]
fn a_failure_to_list_the_mempool_ends_the_poll() {
    let mut node = Node::new(vec![entry(2, 50, 7)]);
    let mut cache = MempoolCache::new();
    node.poll(&mut cache, 10).unwrap();
    match cache.get_mempool_transactions_and_timestamp_at_height(10, Err("down")) {
        SyncStep::Done(Err(e)) => assert_eq!(e, "down"),
        _ => panic!("the poll goes on"),
    }
    match cache.update_mempool_entries_cache(Err("down")) {
        EntriesStep::Done(Err(e)) => assert_eq!(e, "down"),
        _ => panic!("the update goes on"),
    }
    node.asked();
    assert_eq!(node.poll(&mut cache, 10), Ok(vec![]));
    assert_eq!(node.asked(), Vec::<String>::new());
}

#[test]
fn a_failure_to_get_an_entry_keeps_what_was_gathered() {
    let mut node = Node::new(vec![entry(2, 50, 7), entry(4, 40, 7), entry(6, 30, 7)]);
    node.broken = vec![4];
    let mut cache = MempoolCache::new();
    assert_eq!(node.poll(&mut cache, 10), Err("broken 4".to_string()));
    assert_eq!(node.asked(), ["entry 2", "entry 4"]);
    node.broken.clear();
    assert_eq!(node.poll(&mut cache, 10), Ok(vec![(2, 50), (4, 40), (6, 30)]));
    assert_eq!(node.asked(), ["entry 4", "entry 6", "tx 2", "tx 4", "tx 6"]);
}

#[test]
fn a_failure_to_get_a_transaction_keeps_what_was_fetched() {
    let mut node = Node::new(vec![entry(2, 50, 7), entry(4, 40, 7)]);
    node.broken = vec![104];
    let mut cache = MempoolCache::new();
    assert_eq!(node.poll(&mut cache, 10), Err("broken tx 4".to_string()));
    node.asked();
    node.broken.clear();
    // Nothing was emitted, so both still are.
    assert_eq!(node.poll(&mut cache, 10), Ok(vec![(2, 50), (4, 40)]));
    assert_eq!(node.asked(), ["tx 4"]);
}

#[test]
fn an_update_asks_for_each_missing_entry_once() {
    let mut node = Node::new(vec![entry(2, 50, 7), entry(2, 50, 7), entry(4, 40, 7)]);
    let mut cache = MempoolCache::new();
    assert_eq!(node.update(&mut cache), Ok(()));
    assert_eq!(node.asked(), ["entry 2", "entry 4"]);
    assert_eq!(node.update(&mut cache), Ok(()));
    assert_eq!(node.asked(), Vec::<String>::new());
    node.entries = vec![entry(4, 99, 9), entry(9, 1, 1)];
    assert_eq!(node.update(&mut cache), Ok(()));
    assert_eq!(node.asked(), ["entry 9"]);
    // The entry of 4 stayed as it was first seen.
    assert_eq!(node.poll(&mut cache, 10), Ok(vec![(4, 40)]));
}

#[test]
fn tables_keep_their_entries_in_order() {
    let mut table: HashTable<u32> = HashTable::new();
    for n in 0..200u8 {
        table.insert(hash(n), n as u32);
    }
    // Hashes that agree in their first bytes are told apart.
    let mut near = hash(7);
    near.bytes[31] = 0;
    assert!(!table.contains_key(&near));
    table.insert(near, 1000);
    table.insert(hash(0), 5);
    assert_eq!(table.len(), 201);
    assert_eq!(*table.entry(0), (hash(0), 5));
    assert_eq!(table.get(&near), Some(&1000));
    assert_eq!(table.get(&hash(7)), Some(&7));
    assert_eq!(table.remove(&hash(7)), Some(7));
    assert_eq!(table.remove(&hash(7)), None);
    assert_eq!(*table.entry(7), (hash(8), 8));
    assert_eq!(table.get(&near), Some(&1000));
    table.retain_keys_of(&table_of_keys(&vec![hash(9), near, hash(3), hash(250), hash(9)]));
    assert_eq!(table.len(), 3);
    assert_eq!(*table.entry(0), (hash(3), 3));
    assert_eq!(*table.entry(1), (hash(9), 9));
    assert_eq!(*table.entry(2), (near, 1000));
}
