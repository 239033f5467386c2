use std::sync::Arc;

use crimeline::{Cold, Hot, Order, Slice, Timeline, Window};

fn make_arena(epoch: u64, duration: u32, n: usize) -> Arc<Cold> {
    let mut hot = Hot::new(Window::new(epoch, duration)).unwrap();
    for i in 0..n {
        let ts = epoch + (i as u64 % duration as u64);
        hot.add(i as u32, epoch * 10000 + i as u64, ts, b"x").unwrap();
    }
    hot.freeze().unwrap()
}

fn drain(slice: &mut Slice) -> Vec<u64> {
    let mut out = Vec::new();
    while let Some(e) = slice.next() {
        out.push(e.timestamp());
    }
    out
}

#[test]
fn iter_yields_everything_in_order() {
    let arenas = vec![make_arena(2000, 100, 4), make_arena(1000, 100, 3)];
    let timeline = Timeline::new(arenas);
    assert_eq!(timeline.len(), 2);

    let asc = drain(&mut timeline.iter(0, Order::Asc));
    assert_eq!(asc.len(), 7);
    for w in asc.windows(2) {
        assert!(w[0] <= w[1], "ascending walk out of order");
    }

    let mut desc = drain(&mut timeline.iter(0, Order::Desc));
    desc.reverse();
    assert_eq!(asc, desc, "descending walk is the ascending walk reversed");
}

#[test]
fn iter_start_skips_earlier_arenas() {
    let timeline = Timeline::new(vec![make_arena(1000, 100, 3), make_arena(2000, 100, 3)]);

    let from_late = drain(&mut timeline.iter(2000, Order::Asc));
    assert_eq!(from_late.len(), 3);
    for ts in &from_late {
        assert!(*ts >= 2000);
    }

    let all = drain(&mut timeline.iter(1000, Order::Asc));
    assert_eq!(all.len(), 6);
}

#[test]
fn add_inserts_sorted() {
    let mut timeline = Timeline::new(vec![make_arena(3000, 100, 1), make_arena(1000, 100, 1)]);
    timeline.add(make_arena(2000, 100, 1));
    assert_eq!(timeline.len(), 3);

    let asc = drain(&mut timeline.iter(0, Order::Asc));
    assert_eq!(asc, vec![1000, 2000, 3000]);
}

#[test]
fn remove_by_epoch_is_exact_and_idempotent() {
    let mut timeline = Timeline::new(vec![make_arena(1000, 100, 2), make_arena(2000, 100, 2)]);
    assert_eq!(timeline.len(), 2);

    timeline.remove(1000);
    assert_eq!(timeline.len(), 1);

    timeline.remove(1000);
    assert_eq!(timeline.len(), 1, "removing an absent epoch is a no-op");

    let rest = drain(&mut timeline.iter(0, Order::Asc));
    for ts in &rest {
        assert!(*ts >= 2000, "entries of the removed arena must be gone");
    }
}

#[test]
fn empty_timeline_yields_nothing() {
    let timeline = Timeline::new(vec![]);
    assert!(timeline.is_empty());
    assert_eq!(drain(&mut timeline.iter(0, Order::Asc)).len(), 0);
    assert_eq!(drain(&mut timeline.iter(0, Order::Desc)).len(), 0);
}
