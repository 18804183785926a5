use std::ops::Deref;

use tierstore::{Eviction, MemoryTier, Tier};

fn cap(n: usize) -> usize {
    assert!(n > 0);
    n
}

#[test]
fn bounded_tier_displaces_oldest_first() {
    let mut tier = MemoryTier::bounded(cap(2));
    assert_eq!(tier.put("a", 1).expect("infallible"), vec![]);
    assert_eq!(tier.put("b", 2).expect("infallible"), vec![]);
    assert_eq!(tier.put("c", 3).expect("infallible"), vec![("a", 1)]);
    assert_eq!(tier.get(&"a").expect("infallible"), None);
    assert_eq!(tier.get(&"c").expect("infallible"), Some(3));
}

#[test]
fn replacement_does_not_evict() {
    let mut tier = MemoryTier::bounded(cap(2));
    tier.put("a", 1).expect("infallible");
    tier.put("b", 2).expect("infallible");
    assert_eq!(tier.put("a", 10).expect("infallible"), vec![]);
    assert_eq!(tier.get(&"a").expect("infallible"), Some(10));
    assert_eq!(tier.len(), 2);
}

#[test]
fn fifo_ignores_touches() {
    let mut tier = MemoryTier::bounded(cap(2));
    tier.put("a", 1).expect("infallible");
    tier.put("b", 2).expect("infallible");
    // A read must not save `a` under FIFO.
    assert_eq!(tier.get(&"a").expect("infallible"), Some(1));
    assert_eq!(tier.put("c", 3).expect("infallible"), vec![("a", 1)]);
}

#[test]
fn lru_touch_saves_the_touched_entry() {
    let mut tier = MemoryTier::bounded(cap(2)).with_eviction(Eviction::Lru);
    tier.put("a", 1).expect("infallible");
    tier.put("b", 2).expect("infallible");
    // Touching `a` makes `b` the least recently used.
    assert_eq!(tier.get(&"a").expect("infallible"), Some(1));
    assert_eq!(tier.put("c", 3).expect("infallible"), vec![("b", 2)]);
    assert_eq!(tier.get(&"a").expect("infallible"), Some(1));
}

#[test]
fn stale_tickets_are_skipped_on_eviction() {
    let mut tier = MemoryTier::bounded(cap(2)).with_eviction(Eviction::Lru);
    tier.put("a", 1).expect("infallible");
    tier.put("b", 2).expect("infallible");
    assert!(tier.delete(&"a").expect("infallible"));
    tier.put("c", 3).expect("infallible");
    // The queue still holds a stale ticket for deleted `a`; eviction must
    // skip it and displace `b`, the oldest live entry.
    assert_eq!(tier.put("d", 4).expect("infallible"), vec![("b", 2)]);
}

#[test]
fn byte_budget_displaces_by_weight() {
    let mut tier =
        MemoryTier::bounded_bytes(cap(10), |_key, value: &Vec<u8>| value.len());
    assert_eq!(tier.put("a", vec![0_u8; 4]).expect("infallible"), vec![]);
    assert_eq!(tier.put("b", vec![0_u8; 4]).expect("infallible"), vec![]);
    // 4 + 4 + 4 = 12 > 10: the oldest rolls out.
    assert_eq!(
        tier.put("c", vec![0_u8; 4]).expect("infallible"),
        vec![("a", vec![0_u8; 4])]
    );
    assert_eq!(tier.len(), 2);
    assert_eq!(tier.weight(), 8);
}

#[test]
fn oversized_entry_rolls_straight_through() {
    let mut tier =
        MemoryTier::bounded_bytes(cap(10), |_key, value: &Vec<u8>| value.len());
    tier.put("small", vec![0_u8; 2]).expect("infallible");
    // 11 bytes can never fit a 10-byte budget: everything, including the new
    // entry itself, is displaced for demotion.
    let displaced = tier.put("huge", vec![0_u8; 11]).expect("infallible");
    assert_eq!(displaced.last().map(|(key, _)| *key), Some("huge"));
    assert!(tier.is_empty());
    assert_eq!(tier.weight(), 0);
}

#[test]
fn replacement_reweighs_and_can_evict() {
    let mut tier =
        MemoryTier::bounded_bytes(cap(10), |_key, value: &Vec<u8>| value.len());
    tier.put("a", vec![0_u8; 4]).expect("infallible");
    tier.put("b", vec![0_u8; 4]).expect("infallible");
    // Replacing b with a heavier value overflows: the oldest rolls out.
    assert_eq!(
        tier.put("b", vec![0_u8; 7]).expect("infallible"),
        vec![("a", vec![0_u8; 4])]
    );
    assert_eq!(tier.weight(), 7);
}

#[test]
fn get_ref_borrows_in_place() {
    let mut tier = MemoryTier::unbounded();
    tier.put("a", vec![1_u8, 2]).expect("infallible");
    assert!(tier.get_ref(&"missing").expect("infallible").is_none());
    assert_eq!(
        *tier.get_ref(&"a").expect("infallible").expect("present"),
        vec![1_u8, 2]
    );
}

#[test]
fn batched_ops_round_trip_under_one_lock() {
    let mut tier = MemoryTier::bounded(cap(2));
    let displaced = tier
        .put_many(vec![("a", 1), ("b", 2), ("c", 3)])
        .expect("infallible");
    assert_eq!(displaced, vec![("a", 1)]);
    assert_eq!(
        tier.get_many(&["b", "c", "a"]).expect("infallible"),
        vec![Some(2), Some(3), None]
    );
    assert_eq!(
        tier.delete_many(&["b", "missing"]).expect("infallible"),
        vec![true, false]
    );
}

#[test]
fn listing_pages_in_insertion_order() {
    let mut tier = MemoryTier::unbounded();
    for key in ["a", "b", "c"] {
        tier.put(key, ()).expect("infallible");
    }
    let first = tier.list(None, 2).expect("infallible");
    assert_eq!(first.keys, vec!["a", "b"]);
    let second = tier.list(first.next, 2).expect("infallible");
    assert_eq!(second.keys, vec!["c"]);
    assert_eq!(second.next, None);
}

#[test]
fn lru_listing_reflects_recency_order() {
    let mut tier = MemoryTier::unbounded().with_eviction(Eviction::Lru);
    for key in ["a", "b", "c"] {
        tier.put(key, ()).expect("infallible");
    }
    // Touch `a`: it becomes the most recently used, so it lists last.
    tier.get(&"a").expect("infallible");
    let page = tier.list(None, 3).expect("infallible");
    assert_eq!(page.keys, vec!["b", "c", "a"]);
}

#[test]
fn memory_tiers_are_named() {
    let tier: MemoryTier<u64, u64> = MemoryTier::default();
    assert_eq!(tier.name(), "memory");
    assert!(tier.is_empty());
    assert_eq!(tier.weight(), 0);
}

#[test]
fn existence_checks_do_not_refresh_recency() {
    let mut tier = MemoryTier::bounded(2).with_eviction(Eviction::Lru);
    tier.put(1_u64, "one").expect("infallible");
    tier.put(2, "two").expect("infallible");
    assert_eq!(tier.contains(&1), Ok(true));
    assert_eq!(tier.contains(&3), Ok(false));
    assert_eq!(tier.put(3, "three"), Ok(vec![(1, "one")]));
}

#[test]
fn fifo_replacement_keeps_its_place_and_lru_does_not() {
    let mut fifo = MemoryTier::bounded(2);
    fifo.put("a", 1).expect("infallible");
    fifo.put("b", 2).expect("infallible");
    fifo.put("a", 3).expect("infallible");
    assert_eq!(fifo.put("c", 4), Ok(vec![("a", 3)]));

    let mut lru = MemoryTier::bounded(2).with_eviction(Eviction::Lru);
    lru.put("a", 1).expect("infallible");
    lru.put("b", 2).expect("infallible");
    lru.put("a", 3).expect("infallible");
    assert_eq!(lru.put("c", 4), Ok(vec![("b", 2)]));
}

#[test]
fn peeking_reads_in_place_and_is_no_use() {
    let mut tier: MemoryTier<&str, u32> = MemoryTier::bounded(cap(2)).with_eviction(Eviction::Lru);
    assert_eq!(tier.uses_left(), u64::MAX);
    tier.put("a", 1).unwrap();
    tier.put("b", 2).unwrap();
    assert_eq!(tier.uses_left(), u64::MAX - 2);
    assert_eq!(tier.peek(&"a"), Some(&1));
    assert_eq!(tier.peek(&"c"), None);
    assert_eq!(tier.uses_left(), u64::MAX - 2);
    assert_eq!(tier.put("c", 3).unwrap(), vec![("a", 1)]);
    tier.get(&"b").unwrap();
    assert_eq!(tier.uses_left(), u64::MAX - 4);
    tier.get(&"missing").unwrap();
    assert_eq!(tier.uses_left(), u64::MAX - 4);

    let mut fifo: MemoryTier<&str, u32> = MemoryTier::unbounded();
    fifo.put("a", 1).unwrap();
    fifo.get_many(&["a", "a"]).unwrap();
    assert_eq!(fifo.uses_left(), u64::MAX - 1);
}

#[test]
fn reading_in_place_refreshes_recency() {
    let mut tier = MemoryTier::bounded(2).with_eviction(Eviction::Lru);
    tier.put("a", 1).expect("infallible");
    tier.put("b", 2).expect("infallible");
    {
        let view = tier.get_ref(&"a").expect("infallible").expect("present");
        assert_eq!(*view.deref(), 1);
    }
    assert_eq!(tier.put("c", 3), Ok(vec![("b", 2)]));
}

#[test]
fn stale_tickets_are_compacted_without_effect() {
    let mut tier = MemoryTier::bounded(3).with_eviction(Eviction::Lru);
    for key in 0_u64..3 {
        tier.put(key, key * 10).expect("infallible");
    }
    // Far more touches than the queue may hold stale tickets.
    for round in 0_u64..200 {
        assert_eq!(tier.get(&(round % 3)), Ok(Some((round % 3) * 10)));
    }
    // Last touched: 199 % 3 = 1, before that 0, before that 2.
    assert_eq!(tier.list(None, 10).expect("infallible").keys, vec![2, 0, 1]);
    assert_eq!(tier.put(3, 30), Ok(vec![(2, 20)]));
}

#[test]
fn heavy_replacement_in_the_middle_displaces_up_to_itself() {
    let mut tier = MemoryTier::bounded_bytes(10, |_key: &u64, value: &usize| *value);
    tier.put(1, 3).expect("infallible");
    tier.put(2, 3).expect("infallible");
    tier.put(3, 3).expect("infallible");
    // 3 + 11 + 3: only what comes after the heavy entry stays.
    assert_eq!(tier.put(2, 11), Ok(vec![(1, 3), (2, 11)]));
    assert_eq!(tier.weight(), 3);
    assert_eq!(tier.get(&3), Ok(Some(3)));
}

#[test]
fn byte_budget_holds_up_to_the_largest_weights() {
    let price = |_key: &&str, value: &usize| *value;
    let mut tier = MemoryTier::bounded_bytes(usize::MAX, price);
    assert_eq!(tier.put("a", usize::MAX), Ok(vec![]));
    assert_eq!(tier.put("b", 1), Ok(vec![("a", usize::MAX)]));
    assert_eq!(tier.len(), 1);
    assert_eq!(tier.weight(), 1);

    let mut tier = MemoryTier::bounded_bytes(usize::MAX - 1, price);
    assert_eq!(tier.put("a", usize::MAX - 1), Ok(vec![]));
    assert_eq!(tier.put("b", 10), Ok(vec![("a", usize::MAX - 1)]));
    assert_eq!(tier.weight(), 10);
    assert_eq!(tier.put("c", usize::MAX - 2), Ok(vec![("b", 10)]));
    assert_eq!(tier.weight(), usize::MAX - 2);
    assert_eq!(tier.put("c", usize::MAX), Ok(vec![("c", usize::MAX)]));
    assert!(tier.is_empty());
    assert_eq!(tier.weight(), 0);
}

#[test]
fn deletes_report_presence_once_per_batch() {
    let mut tier = MemoryTier::unbounded();
    tier.put("a", 1).expect("infallible");
    tier.put("b", 2).expect("infallible");
    assert_eq!(
        tier.delete_many(&["a", "a", "c"]),
        Ok(vec![true, false, false])
    );
    assert_eq!(tier.delete(&"a"), Ok(false));
    assert_eq!(tier.len(), 1);
}

#[test]
fn batches_displace_like_single_writes() {
    let entries = vec![("a", 1), ("b", 2), ("a", 3), ("c", 4)];
    let mut batched = MemoryTier::bounded(1);
    let mut single = MemoryTier::bounded(1);
    let mut displaced = Vec::new();
    for (key, value) in entries.clone() {
        displaced.extend(single.put(key, value).expect("infallible"));
    }
    assert_eq!(displaced, vec![("a", 1), ("b", 2), ("a", 3)]);
    assert_eq!(batched.put_many(entries), Ok(displaced));
    assert_eq!(batched.get(&"c"), single.get(&"c"));
}

#[test]
fn paging_shows_every_key_once() {
    let mut tier = MemoryTier::unbounded();
    for key in 0_u64..7 {
        tier.put(key, ()).expect("infallible");
    }
    tier.delete(&3).expect("infallible");
    let mut seen = Vec::new();
    let mut cursor = None;
    loop {
        let page = tier.list(cursor, 2).expect("infallible");
        seen.extend(page.keys);
        cursor = page.next;
        if cursor.is_none() {
            break;
        }
    }
    assert_eq!(seen, vec![0, 1, 2, 4, 5, 6]);
    let beyond = tier.list(Some(100), 2).expect("infallible");
    assert!(beyond.keys.is_empty());
    assert_eq!(beyond.next, None);
    let nothing = tier.list(None, 0).expect("infallible");
    assert!(nothing.keys.is_empty());
    assert_eq!(nothing.next, None);
}

#[test]
fn unbounded_tiers_never_evict() {
    let mut tier = MemoryTier::unbounded();
    for round in 0_u64..3 {
        for key in 0_u64..5 {
            assert_eq!(tier.put(key, round), Ok(vec![]));
        }
        assert_eq!(tier.put_many(vec![(7, round), (8, round), (7, round)]), Ok(vec![]));
        tier.get(&2).expect("infallible");
        tier.delete(&4).expect("infallible");
        assert_eq!(tier.len(), 6);
        assert_eq!(tier.weight(), 0);
    }
}

#[test]
fn full_tiers_displace_their_first_listed_entry() {
    for order in [Eviction::Fifo, Eviction::Lru] {
        let mut tier = MemoryTier::bounded(3).with_eviction(order);
        let mut next = 0_u64;
        for _ in 0..12 {
            // Every other read is of the entry that would go next.
            let listed = tier.list(None, 3).expect("infallible").keys;
            if next % 2 == 0 && !listed.is_empty() {
                tier.get(&listed[0]).expect("infallible");
            }
            let first = tier.list(None, 1).expect("infallible").keys;
            let full = tier.len() == 3;
            let displaced = tier.put(next, next * 10).expect("infallible");
            if full {
                assert_eq!(displaced, vec![(first[0], first[0] * 10)]);
            } else {
                assert_eq!(displaced, vec![]);
            }
            assert!(tier.len() <= 3);
            next += 1;
        }
    }
}

#[test]
fn weight_is_the_price_of_what_is_held() {
    let mut tier = MemoryTier::bounded_bytes(20, |key: &u64, value: &usize| *key as usize + *value)
        .with_eviction(Eviction::Lru);
    let mut held: Vec<(u64, usize)> = Vec::new();
    for (key, value) in [(1, 5), (2, 6), (3, 4), (1, 9), (4, 15), (2, 30), (5, 0), (4, 3)] {
        held.retain(|(k, _)| *k != key);
        held.push((key, value));
        for entry in tier.put(key, value).expect("infallible") {
            held.retain(|other| *other != entry);
        }
        let price: usize = held.iter().map(|(k, v)| *k as usize + *v).sum();
        assert_eq!(tier.weight(), price);
        assert!(price <= 20);
    }
    tier.delete(&5).expect("infallible");
    assert_eq!(tier.weight(), 7);
}
