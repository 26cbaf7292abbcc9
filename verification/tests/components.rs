use lsm_tree::buffer::Buffer;
use lsm_tree::data::{find_entry, tombstone_value, Entry};
use lsm_tree::keys::{key_cmp, KeyOrder};
use lsm_tree::merge::{merge_prefer_left, MergeContext};
use lsm_tree::probe::{LookupOutcome, ProbeState};
use lsm_tree::run::Run;

fn b(s: &str) -> Vec<u8> {
    s.as_bytes().to_vec()
}

fn e(k: &str, v: &str) -> Entry {
    Entry { key: b(k), value: b(v) }
}

#[test]
fn key_cmp_orders_lexicographically() {
    assert!(matches!(key_cmp(&b("a"), &b("b")), KeyOrder::Less));
    assert!(matches!(key_cmp(&b("b"), &b("a")), KeyOrder::Greater));
    assert!(matches!(key_cmp(&b("ab"), &b("ab")), KeyOrder::Equal));
    // a proper prefix sorts first
    assert!(matches!(key_cmp(&b("ab"), &b("abc")), KeyOrder::Less));
    assert!(matches!(key_cmp(&b(""), &b("a")), KeyOrder::Less));
    // decided by the first differing byte
    assert!(matches!(key_cmp(&b("az"), &b("ba")), KeyOrder::Less));
}

#[test]
fn tombstone_is_the_empty_value() {
    assert!(tombstone_value().is_empty());
}

#[test]
fn find_entry_takes_first_match() {
    let entries = vec![e("a", "1"), e("b", "2"), e("b", "3")];
    assert_eq!(find_entry(&entries, &b("b")), Some(b("2")));
    assert_eq!(find_entry(&entries, &b("c")), None);
}

#[test]
fn run_put_get_range() {
    let mut r = Run::new(3, 10);
    r.put(&b("a"), &b("1"));
    r.put(&b("c"), &b("3"));
    r.put(&b("d"), &b("4"));
    assert_eq!(r.get(&b("a")), Some(b("1")));
    assert_eq!(r.get(&b("b")), None);
    let ranged = r.range(&b("a"), &b("d"));
    assert_eq!(ranged.len(), 2);
    assert_eq!(ranged[0].key, b("a"));
    assert_eq!(ranged[1].key, b("c"));
}

#[test]
fn buffer_overwrites_in_place() {
    let mut buf = Buffer::new(4);
    buf.put(b("k"), b("v1"));
    buf.put(b("k"), b("v2"));
    assert_eq!(buf.entries.len(), 1);
    assert_eq!(buf.get(&b("k")), Some(b("v2")));
    assert!(!buf.full());
}

#[test]
fn buffer_keeps_sorted_order_and_drains() {
    let mut buf = Buffer::new(4);
    buf.put(b("c"), b("3"));
    buf.put(b("a"), b("1"));
    buf.put(b("b"), b("2"));
    let drained = buf.drain();
    assert_eq!(drained.len(), 3);
    assert_eq!(drained[0].key, b("a"));
    assert_eq!(drained[1].key, b("b"));
    assert_eq!(drained[2].key, b("c"));
    assert_eq!(buf.entries.len(), 0);
}

#[test]
fn merge_prefers_recent_source() {
    let recent = vec![e("k", "new"), e("x", "9")];
    let older = vec![e("a", "0"), e("k", "old")];
    let merged = merge_prefer_left(&recent, &older);
    assert_eq!(merged.len(), 3);
    assert_eq!(merged[0].key, b("a"));
    assert_eq!(merged[1].key, b("k"));
    assert_eq!(merged[1].value, b("new"));
    assert_eq!(merged[2].key, b("x"));
}

#[test]
fn merge_context_first_wins_across_sources() {
    let mut ctx = MergeContext::new();
    let r1 = vec![e("k", "v1")];
    let r2 = vec![e("j", "0"), e("k", "v2")];
    ctx.add(&r1);
    ctx.add(&r2);
    let mut out: Vec<Entry> = Vec::new();
    while !ctx.done() {
        out.push(ctx.next());
    }
    // exactly one entry for the duplicate key, from the recent source
    assert_eq!(out.len(), 2);
    assert_eq!(out[0].key, b("j"));
    assert_eq!(out[1].key, b("k"));
    assert_eq!(out[1].value, b("v1"));
}

#[test]
fn probe_state_keeps_most_recent_hit() {
    let mut st = ProbeState::new();
    assert!(st.should_probe(2));
    st.record_hit(2, b("old"));
    assert!(!st.should_probe(2));
    assert!(st.should_probe(0));
    // a later-arriving result from a more recent run overrides
    st.record_hit(0, b("new"));
    // an older run's result is ignored
    st.record_hit(5, b("stale"));
    match st.outcome() {
        LookupOutcome::Found(v) => assert_eq!(v, b("new")),
        _ => panic!("expected a hit"),
    }
}

#[test]
fn probe_state_reports_clean_miss() {
    let st = ProbeState::new();
    assert!(matches!(st.outcome(), LookupOutcome::NotFound));
}

#[test]
fn probe_failure_is_not_a_miss() {
    let mut st = ProbeState::new();
    st.record_failure(1);
    st.record_hit(2, b("v"));
    // the failed probe was more recent than the hit: degraded
    assert!(matches!(st.outcome(), LookupOutcome::Degraded));
    // a hit more recent than the failure shadows it
    st.record_hit(0, b("w"));
    match st.outcome() {
        LookupOutcome::Found(v) => assert_eq!(v, b("w")),
        _ => panic!("expected a hit"),
    }
}
