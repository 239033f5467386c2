use crimeline::{HeapUsage, HeapWaste, ReportUsage, Shard, Stats, Usage};

struct FakeItem {
    heap: usize,
    waste: usize,
    disk: u64,
}

impl ReportUsage for FakeItem {
    fn usage(&self) -> Usage {
        let mut u = Usage::default();
        u.add_heap_usage(self.heap);
        u.add_heap_waste(self.waste);
        u.add_disk_usage(self.disk);
        u
    }
}

#[test]
fn add_assign_nests_totals_only() {
    let mut parent = Usage::new("test", 0);
    parent.observe(&FakeItem { heap: 100, waste: 10, disk: 0 });

    let mut child = Usage::default();
    child.add_heap_usage(50);
    child.add_heap_waste(5);
    child.add_disk_usage(1000);

    parent.combine(child);

    assert_eq!(parent.heap, 150);
    assert_eq!(parent.waste, 15);
    assert_eq!(parent.disk, 1000);
    // count/active/min/max unchanged by the fold
    assert_eq!(parent.count, 1);
    assert_eq!(parent.active, 1);
    assert_eq!(parent.min, 100);
    assert_eq!(parent.max, 100);
}

#[test]
fn add_boxed_slice_no_waste() {
    let s: Box<[u32]> = vec![1, 2, 3].into_boxed_slice();

    let mut u = Usage::default();
    u.add_boxed_slice(&s);

    assert_eq!(u.heap, 3 * std::mem::size_of::<u32>());
    assert_eq!(u.waste, 0);
}

#[test]
fn add_vec_accounts_for_capacity() {
    let mut v: Vec<u32> = Vec::with_capacity(10);
    v.extend_from_slice(&[1, 2, 3]);

    let mut u = Usage::default();
    u.add_vec(&v);

    assert_eq!(u.heap, 10 * std::mem::size_of::<u32>());
    assert_eq!(u.waste, 7 * std::mem::size_of::<u32>());
}

#[test]
fn usage_display_empty() {
    let usage = Usage::new("locks", 2048);
    assert_eq!(
        usage.render(),
        "2 KiB (2 KiB locks + 0 B data, 0 B wasted) across 0 (0 active, 0 B..0 B)",
    );
}

#[test]
fn display_mixed_items() {
    let mut usage = Usage::new("locks", 64);
    for item in &[
        FakeItem { heap: 100, waste: 24, disk: 0 },
        FakeItem { heap: 0, waste: 0, disk: 0 },
        FakeItem { heap: 300, waste: 48, disk: 0 },
    ] {
        usage.observe(item);
    }
    assert_eq!(
        usage.render(),
        "464 B (64 B locks + 400 B data, 72 B wasted) across 3 (2 active, 0 B..300 B)",
    );
}

#[test]
fn display_single_item() {
    let mut usage = Usage::new("locks", 64);
    usage.observe(&FakeItem { heap: 1024, waste: 0, disk: 0 });
    assert_eq!(
        usage.render(),
        "1.06 KiB (64 B locks + 1 KiB data, 0 B wasted) across 1 (1 active, 1 KiB..1 KiB)",
    );
}

#[test]
fn display_with_disk() {
    let mut usage = Usage::new("locks", 64);
    usage.observe(&FakeItem { heap: 512, waste: 32, disk: 4096 });
    assert_eq!(
        usage.render(),
        "576 B (64 B locks + 512 B data, 32 B wasted, 4 KiB on disk) across 1 (1 active, 512 B..512 B)",
    );
}

#[test]
fn display_with_waste() {
    let mut usage = Usage::new("locks", 64);
    usage.observe(&FakeItem { heap: 1024, waste: 128, disk: 0 });
    assert_eq!(
        usage.render(),
        "1.06 KiB (64 B locks + 1 KiB data, 128 B wasted) across 1 (1 active, 1 KiB..1 KiB)",
    );
}

struct FakeShardItem {
    usage: usize,
    waste: usize,
}

impl HeapUsage for FakeShardItem {
    fn heap_usage(&self) -> usize {
        self.usage
    }
}

impl HeapWaste for FakeShardItem {
    fn heap_waste(&self) -> usize {
        self.waste
    }
}

#[test]
fn stats_display_empty() {
    let stats = Stats::new("locks", 2048);
    assert_eq!(
        stats.render(),
        "2 KiB (2 KiB locks + 0 B data, 0 B wasted) across 0 shards (0 active, shard size 0 B..0 B)",
    );
}

#[test]
fn display_single_shard() {
    let mut stats = Stats::new("locks", 64);
    stats.observe(&FakeShardItem { usage: 1024, waste: 0 });
    assert_eq!(
        stats.render(),
        "1.06 KiB (64 B locks + 1 KiB data, 0 B wasted) across 1 shards (1 active, shard size 1 KiB..1 KiB)",
    );
}

#[test]
fn display_mixed_shards() {
    let mut stats = Stats::new("locks", 64);
    stats.observe(&FakeShardItem { usage: 100, waste: 24 });
    stats.observe(&FakeShardItem { usage: 0, waste: 0 });
    stats.observe(&FakeShardItem { usage: 300, waste: 48 });
    assert_eq!(
        stats.render(),
        "464 B (64 B locks + 400 B data, 72 B wasted) across 3 shards (2 active, shard size 0 B..300 B)",
    );
}

const UID_SIZE: usize = std::mem::size_of::<u32>();
const VEC_SIZE: usize = std::mem::size_of::<Vec<u32>>();

fn assert_stats(shard: &Shard, heap: usize, waste: usize, reason: &str) {
    let u = shard.usage();
    assert_eq!(u.heap, heap, "heap: {reason}");
    assert_eq!(u.waste, waste, "waste: {reason}");
}

#[test]
fn stats_delete_leaves_empty_slot() {
    let mut s = Shard::new();
    s.insert(0, 1);
    s.delete(0, 1);
    assert_stats(
        &s,
        VEC_SIZE + UID_SIZE,
        VEC_SIZE + UID_SIZE,
        "empty inner vec: backbone waste + unused inner capacity",
    );
}

#[test]
fn stats_dense_subjects() {
    let mut s = Shard::new();
    s.insert(0, 1);
    s.insert(1, 2);
    assert_stats(&s, 2 * VEC_SIZE + 2 * UID_SIZE, 0, "2 dense backbone slots, no padding");
}

#[test]
fn stats_empty() {
    assert_stats(&Shard::new(), 0, 0, "no allocations");
}

#[test]
fn stats_entry_without_targets() {
    let mut s = Shard::new();
    s.entry(0);
    assert_stats(&s, VEC_SIZE, VEC_SIZE, "1 backbone slot, empty inner vec");
}

#[test]
fn stats_merge_exact_capacity() {
    let mut s = Shard::new();
    s.merge(0, &[1, 2, 3]);
    assert_stats(&s, VEC_SIZE + 3 * UID_SIZE, 0, "shrink gives exact capacity");
}

#[test]
fn stats_single_insert() {
    let mut s = Shard::new();
    s.insert(0, 42);
    assert_stats(&s, VEC_SIZE + UID_SIZE, 0, "1 backbone slot + 1 target");
}

#[test]
fn stats_sparse_index() {
    let mut s = Shard::new();
    s.insert(2, 42);
    assert_stats(
        &s,
        3 * VEC_SIZE + UID_SIZE,
        2 * VEC_SIZE,
        "3 backbone slots, slots 0 and 1 are empty padding",
    );
}

#[test]
fn shard_stats_render_line() {
    let mut map = crimeline::UserMap::new(crimeline::Sharding::S2);
    map.add(1, 7);
    map.add(2, 9);
    let line = map.render_stats();
    assert!(line.contains("across 2 shards"), "one report per shard: {line}");
    assert!(line.contains("shard slots"), "labelled with its overhead: {line}");
}
