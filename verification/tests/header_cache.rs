use ldk_node::hash_table::Hash256;
use ldk_node::header_cache::{BoundedHeaderCache, MAX_HEADER_CACHE_ENTRIES};

fn hash(n: usize) -> Hash256 {
    let mut bytes = [0; 32];
    bytes[30] = (n / 256) as u8;
    bytes[31] = (n % 256) as u8;
    Hash256 { bytes }
}

fn filled(n: usize) -> BoundedHeaderCache<usize> {
    let mut cache = BoundedHeaderCache::new();
    for i in 0..n {
        cache.block_connected(hash(i), i);
    }
    cache
}

fn held(cache: &BoundedHeaderCache<usize>) -> Vec<usize> {
    (0..1000).filter(|i| cache.look_up(&hash(*i)).is_some()).collect()
}

#[test]
fn connected_blocks_can_be_looked_up() {
    let cache = filled(5);
    assert_eq!(cache.look_up(&hash(3)), Some(&3));
    assert_eq!(cache.look_up(&hash(5)), None);
}

#[test]
fn a_block_connected_again_has_its_new_header() {
    let mut cache = filled(5);
    cache.block_connected(hash(3), 33);
    assert_eq!(cache.look_up(&hash(3)), Some(&33));
    assert_eq!(held(&cache).len(), 5);
}

#[test]
fn the_cache_stays_below_its_limit() {
    assert_eq!(MAX_HEADER_CACHE_ENTRIES, 100);
    assert_eq!(held(&filled(99)), (0..99).collect::<Vec<_>>());
    assert_eq!(held(&filled(100)), (1..100).collect::<Vec<_>>());
    assert_eq!(held(&filled(350)), (251..350).collect::<Vec<_>>());
}

#[test]
fn a_disconnected_block_is_forgotten() {
    let mut cache = filled(5);
    assert_eq!(cache.block_disconnected(&hash(3)), Some(3));
    assert_eq!(cache.block_disconnected(&hash(3)), None);
    assert_eq!(held(&cache), vec![0, 1, 2, 4]);
}

#[test]
fn disconnecting_undoes_connecting() {
    let mut cache = filled(99);
    cache.block_disconnected(&hash(98));
    cache.block_connected(hash(500), 500);
    cache.block_disconnected(&hash(500));
    assert_eq!(held(&cache), held(&filled(98)));
}

#[test]
fn disconnected_blocks_make_room() {
    let mut cache = filled(99);
    cache.block_disconnected(&hash(0));
    cache.block_connected(hash(200), 200);
    assert_eq!(held(&cache).len(), 99);
    assert_eq!(held(&cache)[0], 1);
    cache.block_connected(hash(201), 201);
    assert_eq!(held(&cache).len(), 99);
    assert_eq!(held(&cache)[0], 2);
}

#[test]
fn a_block_listed_twice_is_dropped_at_its_first_place() {
    let mut cache = filled(98);
    cache.block_connected(hash(0), 1000);
    cache.block_connected(hash(98), 98);
    cache.block_connected(hash(99), 99);
    assert_eq!(cache.look_up(&hash(0)), None);
    // Its second place is passed over when its turn comes.
    let mut expected = vec![];
    for i in 100..198 {
        cache.block_connected(hash(i), i);
        expected = (i - 98..=i).collect();
    }
    assert_eq!(held(&cache), expected);
}

#[test]
fn at_the_limit_a_block_that_is_still_listed_first_is_dropped_at_once() {
    let mut cache = filled(98);
    cache.block_connected(hash(0), 1000);
    cache.block_connected(hash(98), 98);
    // Drops block 0, which stays listed, and then blocks 1 to 97.
    for i in 99..197 {
        cache.block_connected(hash(i), i);
    }
    assert_eq!(held(&cache), (98..197).collect::<Vec<_>>());
    cache.block_connected(hash(0), 2000);
    assert_eq!(cache.look_up(&hash(0)), None);
    assert_eq!(held(&cache), (98..197).collect::<Vec<_>>());
}
