use hummock::delete_range::{
    create_monotonic_events, create_tombstones_to_represent_monotonic_deletes,
    CompactionDeleteRangesBuilder, DeleteRangeTombstone, MonotonicDeleteEvent,
};
use hummock::key::UserKey;

fn tombstone(start: &[u8], end: &[u8], sequence: u64) -> DeleteRangeTombstone {
    DeleteRangeTombstone::new(1, start.to_vec(), end.to_vec(), sequence)
}

fn event(key: &[u8], epoch: u64) -> MonotonicDeleteEvent {
    MonotonicDeleteEvent::new(UserKey::new(1, key.to_vec()), epoch)
}

fn key(k: &[u8]) -> UserKey {
    UserKey::new(1, k.to_vec())
}

#[test]
fn test_tombstone_covers_from_start_up_to_end() {
    let t = tombstone(b"b", b"d", 3);
    assert!(t.is_valid());
    assert!(!t.covers(&key(b"a")));
    assert!(t.covers(&key(b"b")));
    assert!(t.covers(&key(b"c")));
    assert!(!t.covers(&key(b"d")));
    assert!(!t.covers(&UserKey::new(2, b"c".to_vec())));
    assert!(!tombstone(b"d", b"b", 3).is_valid());
    assert!(!tombstone(b"b", b"b", 3).is_valid());
    assert_eq!(t.duplicate(), t);
}

#[test]
fn test_monotonic_events_of_one_tombstone() {
    assert_eq!(
        create_monotonic_events(&vec![tombstone(b"b", b"d", 3)]),
        vec![event(b"b", 3), event(b"d", u64::MAX)]
    );
    assert_eq!(create_monotonic_events(&vec![]), vec![]);
    assert_eq!(create_monotonic_events(&vec![tombstone(b"d", b"b", 3)]), vec![]);
}

#[test]
fn test_monotonic_events_of_overlapping_tombstones() {
    // b..f at 9 and d..h at 4: the earlier deletion wins where both cover.
    let events = create_monotonic_events(&vec![tombstone(b"b", b"f", 9), tombstone(b"d", b"h", 4)]);
    assert_eq!(events, vec![event(b"b", 9), event(b"d", 4), event(b"h", u64::MAX)]);
    // The order of the tombstones does not matter.
    let events = create_monotonic_events(&vec![tombstone(b"d", b"h", 4), tombstone(b"b", b"f", 9)]);
    assert_eq!(events, vec![event(b"b", 9), event(b"d", 4), event(b"h", u64::MAX)]);
}

#[test]
fn test_monotonic_events_merge_equal_epochs() {
    // Adjacent ranges at one epoch are one stretch; a gap is a stretch of its own.
    let events = create_monotonic_events(&vec![
        tombstone(b"a", b"c", 5),
        tombstone(b"c", b"e", 5),
        tombstone(b"g", b"i", 5),
        tombstone(b"i", b"k", 7),
    ]);
    assert_eq!(
        events,
        vec![event(b"a", 5), event(b"e", u64::MAX), event(b"g", 5), event(b"i", 7), event(b"k", u64::MAX)]
    );
}

#[test]
fn test_tombstones_of_events() {
    let events = vec![event(b"a", 5), event(b"e", u64::MAX), event(b"g", 5), event(b"i", 7), event(b"k", u64::MAX)];
    assert_eq!(
        create_tombstones_to_represent_monotonic_deletes(&events),
        vec![tombstone(b"a", b"e", 5), tombstone(b"g", b"i", 5), tombstone(b"i", b"k", 7)]
    );
    assert_eq!(create_tombstones_to_represent_monotonic_deletes(&[]), vec![]);
    assert_eq!(create_tombstones_to_represent_monotonic_deletes(&[event(b"a", 5)]), vec![]);
    // The tombstones stand for the same deletions as the events.
    let again = create_monotonic_events(&create_tombstones_to_represent_monotonic_deletes(&events));
    assert_eq!(again, events);
}

#[test]
fn test_tombstone_of_event_stays_on_its_table() {
    let events = vec![
        MonotonicDeleteEvent::new(UserKey::new(1, b"a".to_vec()), 5),
        MonotonicDeleteEvent::new(UserKey::new(2, b"c".to_vec()), u64::MAX),
    ];
    assert_eq!(
        create_tombstones_to_represent_monotonic_deletes(&events),
        vec![DeleteRangeTombstone::new(1, b"a".to_vec(), b"c".to_vec(), 5)]
    );
}

fn aggregator(gc: bool) -> hummock::delete_range::CompactionDeleteRanges {
    let mut builder = CompactionDeleteRangesBuilder::default();
    builder.add_tombstone(vec![tombstone(b"b", b"f", 9)]);
    builder.add_tombstone(vec![tombstone(b"d", b"h", 4), tombstone(b"m", b"p", 6)]);
    builder.build_for_compaction(gc)
}

#[test]
fn test_earliest_delete_which_can_see_key() {
    let agg = aggregator(true);
    assert!(agg.may_drop());
    assert_eq!(agg.earliest_delete_which_can_see_key(&key(b"a"), 0), u64::MAX);
    assert_eq!(agg.earliest_delete_which_can_see_key(&key(b"b"), 0), 9);
    assert_eq!(agg.earliest_delete_which_can_see_key(&key(b"e"), 0), 4);
    assert_eq!(agg.earliest_delete_which_can_see_key(&key(b"e"), 4), 4);
    assert_eq!(agg.earliest_delete_which_can_see_key(&key(b"e"), 5), 9);
    assert_eq!(agg.earliest_delete_which_can_see_key(&key(b"e"), 10), u64::MAX);
    assert_eq!(agg.earliest_delete_which_can_see_key(&key(b"g"), 5), u64::MAX);
    assert_eq!(agg.earliest_delete_which_can_see_key(&key(b"h"), 0), u64::MAX);
    assert_eq!(agg.earliest_delete_which_can_see_key(&key(b"n"), 6), 6);
}

#[test]
fn test_get_tombstone_between() {
    // The events: b 9, d 4, h never, m 6, p never.
    let agg = aggregator(false);
    assert!(!agg.may_drop());
    let none = UserKey::new(0, vec![]);
    assert_eq!(
        agg.get_tombstone_between(&none, &none),
        vec![event(b"b", 9), event(b"d", 4), event(b"h", u64::MAX), event(b"m", 6), event(b"p", u64::MAX)]
    );
    assert_eq!(
        agg.get_tombstone_between(&key(b"e"), &key(b"n")),
        vec![event(b"d", 4), event(b"h", u64::MAX), event(b"m", 6)]
    );
    assert_eq!(agg.get_tombstone_between(&key(b"d"), &key(b"h")), vec![event(b"d", 4)]);
    assert_eq!(agg.get_tombstone_between(&none, &key(b"b")), vec![]);
    assert_eq!(agg.get_tombstone_between(&none, &key(b"c")), vec![event(b"b", 9)]);
    assert_eq!(agg.get_tombstone_between(&key(b"q"), &none), vec![event(b"p", u64::MAX)]);
    // The flag does not change what is stored.
    assert_eq!(
        aggregator(true).get_tombstone_between(&none, &none),
        agg.get_tombstone_between(&none, &none)
    );
}
