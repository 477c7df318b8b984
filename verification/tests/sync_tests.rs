//! The synchronizer: diffing fetched feeds against stored snapshots.

use corkboard::commands::{apply_update, subscribe};
use corkboard::db::{Database, DbError};
use corkboard::rss::{Channel, Item};
use corkboard::sync::{synchronize, SyncOutcome};
use corkboard::time::Timestamp;

fn item(title: &str, date: Option<i64>) -> Item {
    Item::new(
        String::from(title),
        None,
        date.map(|secs| Timestamp { secs, nanos: 0 }),
    )
}

fn channel_dated(title: &str, link: &str, date: Option<i64>, items: Vec<Item>) -> Channel {
    Channel {
        title: String::from(title),
        link: String::from(link),
        description: String::new(),
        last_build_date: date.map(|secs| Timestamp { secs, nanos: 0 }),
        items,
    }
}

fn now() -> Timestamp {
    Timestamp { secs: 1_700_000_000, nanos: 0 }
}

#[test]
fn diff_finds_exactly_the_appended_entry() {
    let stored = channel_dated("c", "l", None, vec![item("a", None), item("b", None)]);
    let fetched = channel_dated(
        "c",
        "l",
        None,
        vec![item("a", None), item("b", None), item("fresh", None)],
    );
    match synchronize(&stored, fetched) {
        SyncOutcome::NewEntries(v) => {
            assert_eq!(v.len(), 1);
            assert_eq!(v[0].title_or_description, "fresh");
        },
        SyncOutcome::NoChange => panic!("one entry was appended"),
    }
}

#[test]
fn diff_on_unchanged_input_is_no_change_both_times() {
    let stored = channel_dated("c", "l", None, vec![item("a", None), item("b", None)]);
    let fetched = channel_dated("c", "l", None, vec![item("a", None), item("b", None)]);
    assert!(matches!(synchronize(&stored, fetched), SyncOutcome::NoChange));
    let fetched_again = channel_dated("c", "l", None, vec![item("a", None), item("b", None)]);
    assert!(matches!(synchronize(&stored, fetched_again), SyncOutcome::NoChange));
}

#[test]
fn build_date_fast_skip_trusts_the_source() {
    // The stored snapshot is no older than the fetch: entries are not even
    // inspected. A feed that regresses its stamp therefore has genuinely
    // new entries missed — a documented limitation, kept as is.
    let stored = channel_dated("c", "l", Some(100), vec![]);
    let fetched = channel_dated("c", "l", Some(100), vec![item("missed", None)]);
    assert!(matches!(synchronize(&stored, fetched), SyncOutcome::NoChange));
    // A strictly newer fetch is processed.
    let fetched2 = channel_dated("c", "l", Some(101), vec![item("seen", None)]);
    assert!(matches!(synchronize(&stored, fetched2), SyncOutcome::NewEntries(_)));
}

#[test]
fn missing_build_dates_disable_the_fast_skip() {
    let stored = channel_dated("c", "l", Some(100), vec![]);
    let fetched = channel_dated("c", "l", None, vec![item("x", None)]);
    assert!(matches!(synchronize(&stored, fetched), SyncOutcome::NewEntries(_)));
}

#[test]
fn empty_diff_with_bumped_date_is_still_no_change() {
    let stored = channel_dated("c", "l", Some(100), vec![item("a", None)]);
    let fetched = channel_dated("c", "l", Some(200), vec![item("a", None)]);
    assert!(matches!(synchronize(&stored, fetched), SyncOutcome::NoChange));
}

#[test]
fn up_test() {
    // Subscribe, then apply an update carrying one more entry: exactly it
    // is stored and quickmarked; an identical second update changes
    // nothing, and the unique new link is retrievable.
    let mut db = Database::new();
    let initial = channel_dated("c", "selflink", Some(100), vec![item("old", Some(1))]);
    subscribe(&mut db, initial, String::from("http://feed"), now()).unwrap();

    let fetched = channel_dated(
        "c",
        "selflink",
        Some(200),
        vec![
            item("old", Some(1)),
            Item::new(
                String::from("Discussion about recent events"),
                Some(String::from("http://unique")),
                Some(Timestamp { secs: 2, nanos: 0 }),
            ),
        ],
    );
    let new_items = apply_update(&mut db, "http://feed", fetched).unwrap();
    assert_eq!(new_items.len(), 1);
    assert_eq!(new_items[0].title_or_description, "Discussion about recent events");
    assert_eq!(new_items[0].link.as_deref(), Some("http://unique"));

    let stored = db.get_items(&channel_dated("c", "http://feed", None, vec![]));
    assert_eq!(stored.len(), 2);
    assert!(stored.iter().any(|i| i.link.as_deref() == Some("http://unique")));

    // The same fetch again: the entries are all known, nothing changes.
    let fetched_again = channel_dated(
        "c",
        "selflink",
        Some(200),
        vec![
            item("old", Some(1)),
            Item::new(
                String::from("Discussion about recent events"),
                Some(String::from("http://unique")),
                Some(Timestamp { secs: 2, nanos: 0 }),
            ),
        ],
    );
    let second = apply_update(&mut db, "http://feed", fetched_again).unwrap();
    assert_eq!(second.len(), 0);
    assert_eq!(db.get_items(&channel_dated("c", "http://feed", None, vec![])).len(), 2);
}

#[test]
fn apply_update_unknown_channel_is_reported() {
    let mut db = Database::new();
    let fetched = channel_dated("c", "l", None, vec![]);
    assert!(matches!(
        apply_update(&mut db, "http://nowhere", fetched),
        Err(DbError::NoSuchChannel)
    ));
}

#[test]
fn titles_clash() {
    // Two different feeds carrying identically-titled items: identity is
    // content-addressed, so the clashing items of the second feed are
    // already known and are not stored twice.
    let mut db = Database::new();
    let a = channel_dated("clash-a", "x", None, vec![item("azz", None), item("bzz", None)]);
    subscribe(&mut db, a, String::from("http://localhost:8080"), now()).unwrap();
    let b = channel_dated("clash-b", "x", None, vec![item("azz", None), item("bzz", None)]);
    subscribe(&mut db, b, String::from("http://localhost:9090"), now()).unwrap();
    let total: usize = db.all_channels_with_items().iter().map(|c| c.items.len()).sum();
    assert_eq!(total, 2);
    assert_eq!(db.all_channels().len(), 2);
}
