use lsm_tree::data::Entry;
use lsm_tree::level::Level;
use lsm_tree::lsm::LSMTree;

fn b(s: &str) -> Vec<u8> {
    s.as_bytes().to_vec()
}

fn tree(buffer_cap: usize, levels: &[(usize, usize)]) -> LSMTree {
    let mut lv: Vec<Level> = Vec::new();
    for (max_runs, max_run_size) in levels {
        lv.push(Level::new(*max_runs, *max_run_size));
    }
    LSMTree::new(buffer_cap, lv, 10)
}

fn put(t: &mut LSMTree, k: &str, v: &str) {
    t.put(Entry { key: b(k), value: b(v) });
}

#[test]
fn put_get_round_trip_in_buffer() {
    let mut t = tree(4, &[(2, 4)]);
    put(&mut t, "k", "v");
    assert_eq!(t.get(&b("k")), Some(b("v")));
    assert_eq!(t.get(&b("missing")), None);
}

#[test]
fn recency_newest_write_wins() {
    // writes of v1 then v2 for one key, with flushes and a merge in
    // between: the lookup still returns v2
    let mut t = tree(1, &[(2, 1), (1, 4)]);
    put(&mut t, "k", "v1");
    put(&mut t, "k", "v2");
    assert_eq!(t.get(&b("k")), Some(b("v2")));
    put(&mut t, "x", "0"); // flushes k:v2 in front of k:v1
    assert_eq!(t.get(&b("k")), Some(b("v2")));
    put(&mut t, "y", "0"); // forces the level-0 merge down
    assert_eq!(t.get(&b("k")), Some(b("v2")));
    assert_eq!(t.get(&b("x")), Some(b("0")));
}

#[test]
fn tombstone_shadows_deeper_value() {
    // the old value physically survives in a deep run while the
    // tombstone above shadows it
    let mut t = tree(1, &[(1, 1), (1, 2), (2, 4)]);
    put(&mut t, "a", "v");
    put(&mut t, "x", "vx"); // flush a:v to level 0
    t.del(b("a")); // a:v moves to level 1, tombstone enters buffer
    put(&mut t, "y", "vy"); // a:v moves to level 2, tombstone flushed
    put(&mut t, "z", "vz"); // tombstone merged into level 1
    assert_eq!(t.get(&b("a")), None);
    // the stale value is still physically present in the last level
    let deep_has_a = t.levels[2]
        .runs
        .iter()
        .any(|r| r.entries.iter().any(|e| e.key == b("a") && e.value == b("v")));
    assert!(deep_has_a);
}

#[test]
fn tombstone_kept_when_merged_into_middle_level() {
    let mut t = tree(1, &[(1, 1), (1, 2), (2, 4)]);
    put(&mut t, "a", "v");
    put(&mut t, "x", "vx");
    t.del(b("a"));
    put(&mut t, "y", "vy");
    put(&mut t, "z", "vz"); // merges the tombstone run into level 1
    let mid_run = &t.levels[1].runs[0];
    let has_tombstone = mid_run
        .entries
        .iter()
        .any(|e| e.key == b("a") && e.value.is_empty());
    assert!(has_tombstone);
}

#[test]
fn tombstone_dropped_when_merged_into_empty_last_level() {
    let mut t = tree(1, &[(2, 1), (1, 4)]);
    put(&mut t, "a", "v");
    t.del(b("a")); // flushes a:v, buffers the tombstone
    put(&mut t, "b", "vb"); // flushes the tombstone; level 0 now full
    put(&mut t, "c", "vc"); // merges both runs into the empty last level
    assert_eq!(t.levels[1].runs.len(), 1);
    // first-wins kept the tombstone over a:v, and the last level
    // dropped it: nothing at all was written
    assert!(t.levels[1].runs[0].entries.is_empty());
    assert_eq!(t.get(&b("a")), None);
    assert_eq!(t.get(&b("b")), Some(b("vb")));
}

#[test]
fn capacity_invariant_holds_throughout() {
    let mut t = tree(1, &[(2, 1), (2, 2), (2, 8)]);
    let keys = ["a", "b", "c", "d", "e", "f", "g", "h"];
    for (i, k) in keys.iter().enumerate() {
        put(&mut t, k, &format!("v{}", i));
        for lvl in &t.levels {
            assert!(lvl.runs.len() <= lvl.max_runs);
        }
    }
    for k in &keys {
        assert!(t.get(&b(k)).is_some());
    }
}

#[test]
fn flush_cascade_scenario() {
    // level 0: max_runs = 2, max_run_size = 2; buffer capacity 1, so
    // every put past the first triggers a flush
    let mut t = tree(1, &[(2, 2), (2, 8)]);
    put(&mut t, "k1", "v1");
    put(&mut t, "k2", "v2"); // 1st flush
    put(&mut t, "k3", "v3"); // 2nd flush: level 0 now full
    assert_eq!(t.levels[0].runs.len(), 2);
    assert_eq!(t.levels[1].runs.len(), 0);
    put(&mut t, "k4", "v4"); // 3rd flush must first merge level 0 down
    assert_eq!(t.levels[0].runs.len(), 1);
    assert_eq!(t.levels[1].runs.len(), 1);
    put(&mut t, "k5", "v5");
    for k in ["k1", "k2", "k3", "k4", "k5"] {
        assert!(t.get(&b(k)).is_some());
    }
}

#[test]
fn lookup_reaches_oldest_run() {
    // three runs where only the oldest holds the key: no run may be
    // skipped, and no older run may override a newer one
    let mut t = tree(1, &[(3, 1)]);
    put(&mut t, "k", "v");
    put(&mut t, "x1", "1"); // flush k:v
    put(&mut t, "x2", "2");
    put(&mut t, "x3", "3");
    assert_eq!(t.levels[0].runs.len(), 3);
    // the oldest run (highest global rank) holds k
    let oldest = t.get_run(2).expect("three runs exist");
    assert_eq!(oldest.get(&b("k")), Some(b("v")));
    assert!(t.get_run(0).expect("rank 0").get(&b("k")).is_none());
    assert_eq!(t.get(&b("k")), Some(b("v")));
    assert!(t.get_run(3).is_none());
}

#[test]
fn range_excludes_deleted_and_resolves_recency() {
    let mut t = tree(4, &[(4, 4)]);
    put(&mut t, "a", "va");
    put(&mut t, "b", "vb");
    put(&mut t, "c", "vc");
    put(&mut t, "d", "vd"); // buffer now full
    t.del(b("b")); // flushes all four, buffers the tombstone
    let vals = t.range(&b("a"), &b("e"));
    assert_eq!(vals, vec![b("va"), b("vc"), b("vd")]);
}

#[test]
fn range_returns_most_recent_values() {
    let mut t = tree(1, &[(2, 1), (1, 4)]);
    put(&mut t, "k", "old");
    put(&mut t, "k", "new");
    put(&mut t, "m", "vm");
    let vals = t.range(&b("a"), &b("z"));
    assert_eq!(vals, vec![b("new"), b("vm")]);
    let empty = t.range(&b("p"), &b("z"));
    assert!(empty.is_empty());
}

#[test]
fn merge_down_on_full_last_level_reports_exhaustion() {
    let mut t = tree(1, &[(1, 1)]);
    put(&mut t, "a", "v");
    put(&mut t, "b", "w"); // flushes a:v; the single level is now full
    assert_eq!(t.levels[0].runs.len(), 1);
    let made_room = t.merge_down(0);
    assert!(!made_room);
    // non-fatal: nothing was modified
    assert_eq!(t.levels[0].runs.len(), 1);
    assert_eq!(t.get(&b("a")), Some(b("v")));
}

#[test]
fn merge_down_below_capacity_is_a_no_op() {
    let mut t = tree(1, &[(2, 1), (1, 4)]);
    put(&mut t, "a", "v");
    put(&mut t, "b", "w"); // one run at level 0, one slot free
    assert!(t.merge_down(0));
    assert_eq!(t.levels[0].runs.len(), 1);
    assert_eq!(t.levels[1].runs.len(), 0);
}

#[test]
fn empty_value_acts_as_tombstone() {
    // the empty byte string is the reserved deletion sentinel
    let mut t = tree(4, &[(2, 4)]);
    put(&mut t, "k", "v");
    t.put(Entry { key: b("k"), value: Vec::new() });
    assert_eq!(t.get(&b("k")), None);
}

#[test]
fn level_remaining_counts_free_slots() {
    let lvl = Level::new(3, 5);
    assert_eq!(lvl.remaining(), 3);
    let mut t = tree(1, &[(2, 1), (1, 2)]);
    put(&mut t, "a", "v");
    put(&mut t, "b", "w");
    assert_eq!(t.levels[0].remaining(), 1);
}
