use crimeline::{Relationships, Shard, Sharding, UserMap};

fn assert_contains(map: &UserMap, p: u32, t: u32, expected: bool, label: &str) {
    assert_eq!(map.contains(p, t), expected, "{label}: contains({p}, {t})");
}

fn assert_len(map: &UserMap, expected: usize, label: &str) {
    assert_eq!(map.len(), expected, "{label}: len");
}

#[test]
fn edge_add_remove_add() {
    let mut map = UserMap::new(Sharding::S128);
    map.add(0, 1);
    map.remove(0, 1);
    map.add(0, 1);
    assert_contains(&map, 0, 1, true, "re-added after remove");
    assert_len(&map, 1, "re-added after remove");
}

#[test]
fn edge_empty_map() {
    let map = UserMap::new(Sharding::S128);
    assert_contains(&map, 0, 0, false, "empty map");
    assert_contains(&map, 1, 1, false, "empty map");
    assert_len(&map, 0, "empty map");
}

#[test]
fn edge_large_user_ids() {
    let mut map = UserMap::new(Sharding::S128);
    map.add(1_000_000, 2_000_000);
    assert_contains(&map, 1_000_000, 2_000_000, true, "large ids");
    assert_contains(&map, 1_000_000, 0, false, "large ids, wrong target");
    assert_contains(&map, 0, 2_000_000, false, "large ids, wrong principal");
    assert_len(&map, 1, "large ids");
}

#[test]
fn edge_remove_from_empty() {
    let mut map = UserMap::new(Sharding::S128);
    map.remove(0, 1);
    assert_contains(&map, 0, 1, false, "remove from empty");
    assert_len(&map, 0, "remove from empty");
}

#[test]
fn edge_self_reference() {
    let mut map = UserMap::new(Sharding::S128);
    map.add(5, 5);
    assert_contains(&map, 5, 5, true, "self-reference");
    assert_contains(&map, 5, 0, false, "self-reference, wrong target");
    assert_len(&map, 1, "self-reference");
}

#[test]
fn edge_shard_boundary_ids() {
    let mut map = UserMap::new(Sharding::S128);
    map.add(127, 128);
    map.add(128, 127);
    assert_contains(&map, 127, 128, true, "shard boundary");
    assert_contains(&map, 128, 127, true, "shard boundary reverse");
    assert_contains(&map, 127, 127, false, "shard boundary, wrong target");
    assert_contains(&map, 128, 128, false, "shard boundary, wrong target");
    assert_len(&map, 2, "shard boundary");
}

#[test]
fn bulk_matches_individual_adds() {
    let existing: Vec<u32> = vec![4, 9, 1, 7];
    let incoming: Vec<u32> = vec![9, 2, 2, 30, 7, 5];

    let mut bulk_map = UserMap::new(Sharding::S8);
    let mut individual_map = UserMap::new(Sharding::S8);
    for &t in &existing {
        bulk_map.add(42, t);
        individual_map.add(42, t);
    }
    bulk_map.add_bulk(42, incoming.clone());
    for &t in &incoming {
        individual_map.add(42, t);
    }
    for t in 0..40u32 {
        assert_eq!(bulk_map.contains(42, t), individual_map.contains(42, t), "target {t}");
    }
    assert_eq!(bulk_map.len(), individual_map.len());
    assert_eq!(bulk_map.len(), 7, "4 existing + 3 new distinct targets");
}

#[test]
fn bulk_twice_matches_union() {
    let mut map = UserMap::new(Sharding::S4);
    map.add_bulk(7, vec![3, 1, 2]);
    map.add_bulk(7, vec![2, 4]);
    for t in [1, 2, 3, 4] {
        assert!(map.contains(7, t));
    }
    assert!(!map.contains(7, 5));
    assert_eq!(map.len(), 4, "len equals the union of targets");
}

fn rel() -> Relationships {
    Relationships::new(Sharding::S64)
}

fn assert_blocked(rel: &Relationships, principal: u32, target: u32, expected: bool, label: &str) {
    assert_eq!(
        rel.is_blocked_by(principal, target),
        expected,
        "{label}: is_blocked_by({principal}, {target})",
    );
}

fn assert_followed(rel: &Relationships, principal: u32, target: u32, expected: bool, label: &str) {
    assert_eq!(
        rel.is_followed_by(principal, target),
        expected,
        "{label}: is_followed_by({principal}, {target})",
    );
}

fn assert_mutual(rel: &Relationships, principal: u32, target: u32, expected: bool, label: &str) {
    assert_eq!(
        rel.is_mutual(principal, target),
        expected,
        "{label}: is_mutual({principal}, {target})",
    );
}

#[test]
fn blocked_asymmetric() {
    let mut r = rel();
    r.blocks.add(1, 2);
    assert_blocked(&r, 2, 1, true, "target blocked by principal");
    assert_blocked(&r, 1, 2, false, "principal is not blocked by target");
}

#[test]
fn blocked_empty() {
    let r = rel();
    assert_blocked(&r, 0, 1, false, "no blocks");
}

#[test]
fn blocked_self_reference() {
    let mut r = rel();
    r.blocks.add(5, 5);
    assert_blocked(&r, 5, 5, true, "self-block");
}

#[test]
fn blocked_symmetric() {
    let mut r = rel();
    r.blocks.add(1, 2);
    r.blocks.add(2, 1);
    assert_blocked(&r, 1, 2, true, "1 blocked by 2");
    assert_blocked(&r, 2, 1, true, "2 blocked by 1");
}

#[test]
fn followed_asymmetric() {
    let mut r = rel();
    r.follows.add(2, 1);
    assert_followed(&r, 1, 2, true, "target follows principal");
    assert_followed(&r, 2, 1, false, "principal does not follow target");
}

#[test]
fn followed_empty() {
    let r = rel();
    assert_followed(&r, 0, 1, false, "no follows");
}

#[test]
fn followed_self_reference() {
    let mut r = rel();
    r.follows.add(5, 5);
    assert_followed(&r, 5, 5, true, "self-follow");
}

#[test]
fn followed_symmetric() {
    let mut r = rel();
    r.follows.add(1, 2);
    r.follows.add(2, 1);
    assert_followed(&r, 1, 2, true, "1 followed by 2");
    assert_followed(&r, 2, 1, true, "2 followed by 1");
}

#[test]
fn mutual_block_and_follow_back() {
    let mut r = rel();
    r.blocks.add(1, 2);
    r.follows.add(2, 1);
    assert_mutual(&r, 1, 2, true, "block + follow back => mutual");
    assert_mutual(&r, 2, 1, false, "reverse direction is not mutual");
}

#[test]
fn mutual_block_only() {
    let mut r = rel();
    r.blocks.add(1, 2);
    assert_mutual(&r, 1, 2, false, "block without follow");
    assert_mutual(&r, 2, 1, false, "reverse");
}

#[test]
fn mutual_empty() {
    let r = rel();
    assert_mutual(&r, 0, 1, false, "no relationships");
    assert_mutual(&r, 1, 0, false, "reverse");
}

#[test]
fn mutual_follow_only() {
    let mut r = rel();
    r.follows.add(2, 1);
    assert_mutual(&r, 1, 2, false, "follow without block");
    assert_mutual(&r, 2, 1, false, "reverse");
}

#[test]
fn mutual_missing_block_breaks_mutual() {
    let mut r = rel();
    r.follows.add(2, 1);
    assert_mutual(&r, 1, 2, false, "follow present but no block");
}

#[test]
fn mutual_multiple_principals_isolated() {
    let mut r = rel();
    r.blocks.add(10, 20);
    r.blocks.add(30, 40);
    r.follows.add(20, 10);
    r.follows.add(40, 30);
    assert_mutual(&r, 10, 20, true, "pair 10-20");
    assert_mutual(&r, 30, 40, true, "pair 30-40");
    assert_mutual(&r, 10, 40, false, "cross-pair 10-40");
    assert_mutual(&r, 30, 20, false, "cross-pair 30-20");
}

#[test]
fn mutual_same_direction_not_mutual() {
    let mut r = rel();
    r.blocks.add(2, 1);
    r.follows.add(2, 1);
    assert_mutual(&r, 1, 2, false, "same direction block+follow");
    assert_mutual(&r, 2, 1, false, "reverse");
}

#[test]
fn mutual_self_reference() {
    let mut r = rel();
    r.blocks.add(5, 5);
    r.follows.add(5, 5);
    assert_mutual(&r, 5, 5, true, "self-block + self-follow");
}

#[test]
fn mutual_symmetric() {
    let mut r = rel();
    r.blocks.add(1, 2);
    r.blocks.add(2, 1);
    r.follows.add(1, 2);
    r.follows.add(2, 1);
    assert_mutual(&r, 1, 2, true, "1 mutual with 2");
    assert_mutual(&r, 2, 1, true, "2 mutual with 1");
}

#[test]
fn merge_fast_path_all_incoming_greater() {
    let mut s = Shard::new();
    s.merge(0, &[1, 2, 3]);

    let added = s.merge(0, &[10, 20, 30]);
    assert_eq!(added, 3, "all incoming are new");
    assert_eq!(s.get(0).unwrap(), &[1, 2, 3, 10, 20, 30]);
}

#[test]
fn merge_fast_path_empty_existing() {
    let mut s = Shard::new();
    s.entry(0);

    let added = s.merge(0, &[5, 10]);
    assert_eq!(added, 2);
    assert_eq!(s.get(0).unwrap(), &[5, 10]);
}

#[test]
fn merge_fast_path_single_existing_single_incoming() {
    let mut s = Shard::new();
    s.insert(0, 1);

    let added = s.merge(0, &[2]);
    assert_eq!(added, 1);
    assert_eq!(s.get(0).unwrap(), &[1, 2]);
}

#[test]
fn merge_slow_path_interleaved() {
    let mut s = Shard::new();
    s.merge(0, &[1, 5, 10]);

    let added = s.merge(0, &[3, 5, 7, 12]);
    assert_eq!(added, 3, "5 is duplicate");
    assert_eq!(s.get(0).unwrap(), &[1, 3, 5, 7, 10, 12]);
}

#[test]
fn shard_insert_delete_roundtrip() {
    let mut s = Shard::new();
    assert!(s.insert(3, 9));
    assert!(!s.insert(3, 9), "duplicate insert is a no-op");
    assert!(s.delete(3, 9));
    assert!(!s.delete(3, 9), "deleting an absent target is a no-op");
    assert_eq!(s.get(3).unwrap(), &[] as &[u32]);
    assert!(s.get(7).is_none(), "untouched slots stay absent");
}

#[test]
fn bits_count_mask() {
    let cases: Vec<(Sharding, u32, usize, u32)> = vec![
        (Sharding::S2, 1, 2, 0b1),
        (Sharding::S4, 2, 4, 0b11),
        (Sharding::S8, 3, 8, 0b111),
        (Sharding::S16, 4, 16, 0b1111),
        (Sharding::S32, 5, 32, 0b1_1111),
        (Sharding::S64, 6, 64, 0b11_1111),
        (Sharding::S128, 7, 128, 0b111_1111),
        (Sharding::S256, 8, 256, 0b1111_1111),
        (Sharding::S512, 9, 512, 0b1_1111_1111),
        (Sharding::S1024, 10, 1024, 0b11_1111_1111),
        (Sharding::S2048, 11, 2048, 0b111_1111_1111),
        (Sharding::S4096, 12, 4096, 0b1111_1111_1111),
    ];

    for (sharding, expected_bits, expected_count, expected_mask) in &cases {
        assert_eq!(sharding.bits(), *expected_bits, "{:?}: bits", sharding);
        assert_eq!(sharding.count(), *expected_count, "{:?}: count", sharding);
        assert_eq!(sharding.mask(), *expected_mask, "{:?}: mask", sharding);
    }
}

#[test]
fn mask_is_count_minus_one() {
    let all = [
        Sharding::S2,
        Sharding::S4,
        Sharding::S8,
        Sharding::S16,
        Sharding::S32,
        Sharding::S64,
        Sharding::S128,
        Sharding::S256,
        Sharding::S512,
        Sharding::S1024,
        Sharding::S2048,
        Sharding::S4096,
    ];

    for s in &all {
        assert_eq!(s.mask() as usize, s.count() - 1, "{:?}: mask should equal count - 1", s);
    }
}

#[test]
fn variant_name_matches_count() {
    let cases: Vec<(Sharding, &str)> = vec![
        (Sharding::S2, "S2"),
        (Sharding::S4, "S4"),
        (Sharding::S8, "S8"),
        (Sharding::S16, "S16"),
        (Sharding::S32, "S32"),
        (Sharding::S64, "S64"),
        (Sharding::S128, "S128"),
        (Sharding::S256, "S256"),
        (Sharding::S512, "S512"),
        (Sharding::S1024, "S1024"),
        (Sharding::S2048, "S2048"),
        (Sharding::S4096, "S4096"),
    ];

    for (sharding, name) in &cases {
        let n: usize = name[1..].parse().unwrap();
        assert_eq!(sharding.count(), n, "{:?}: variant name implies count {}", sharding, n);
    }
}
