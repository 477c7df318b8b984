//! The store and the quickmark overlay.

use corkboard::commands::{list_new, mark_relative, subscribe};
use corkboard::db::{Database, DbError};
use corkboard::rss::{Channel, Item};
use corkboard::time::Timestamp;

fn item(title: &str, date: Option<i64>) -> Item {
    Item::new(
        String::from(title),
        None,
        date.map(|secs| Timestamp { secs, nanos: 0 }),
    )
}

fn channel(title: &str, link: &str, items: Vec<Item>) -> Channel {
    Channel {
        title: String::from(title),
        link: String::from(link),
        description: String::new(),
        last_build_date: None,
        items,
    }
}

fn now() -> Timestamp {
    Timestamp { secs: 1_700_000_000, nanos: 0 }
}

fn stored_item_count(db: &Database) -> usize {
    db.all_channels_with_items().iter().map(|c| c.items.len()).sum()
}

#[test]
fn add_channel_rejects_duplicate_link() {
    let mut db = Database::new();
    let c1 = channel("one", "http://one", vec![]);
    let c2 = channel("two", "http://one", vec![]);
    assert_eq!(db.add_channel(&c1), Ok(()));
    assert_eq!(db.add_channel(&c2), Err(DbError::ChannelExists));
    assert_eq!(db.all_channels().len(), 1);
}

#[test]
fn add_items_requires_a_known_channel() {
    let mut db = Database::new();
    let items = vec![item("a", None)];
    assert!(matches!(db.add_items("http://nowhere", &items), Err(DbError::NoSuchChannel)));
}

#[test]
fn idempotent_ingestion() {
    // Storing the same entry set twice must not change the stored count.
    let mut db = Database::new();
    let c = channel("one", "http://one", vec![]);
    db.add_channel(&c).unwrap();
    let items = vec![item("a", None), item("b", None)];
    let first = db.add_items("http://one", &items).unwrap();
    assert_eq!(first.len(), 2);
    assert_eq!(stored_item_count(&db), 2);
    let second = db.add_items("http://one", &items).unwrap();
    assert_eq!(second.len(), 0);
    assert_eq!(stored_item_count(&db), 2);
}

#[test]
fn duplicate_identities_within_one_batch_are_stored_once() {
    let mut db = Database::new();
    let c = channel("one", "http://one", vec![]);
    db.add_channel(&c).unwrap();
    let items = vec![item("a", None), item("a", None)];
    let stored = db.add_items("http://one", &items).unwrap();
    assert_eq!(stored.len(), 1);
    assert_eq!(stored_item_count(&db), 1);
}

#[test]
fn quickmark_reset_numbers_by_publish_date() {
    // Unread entries with publish dates [3, 1, 2] get positions 1, 2, 3
    // in ascending date order, whatever the prior numbering was.
    let mut db = Database::new();
    let items = vec![item("late", Some(3)), item("early", Some(1)), item("middle", Some(2))];
    subscribe(&mut db, channel("c", "x", items), String::from("http://c"), now()).unwrap();
    let listing = list_new(&mut db);
    assert_eq!(listing.len(), 3);
    assert_eq!(listing[0].1, 1);
    assert_eq!(listing[0].0.title_or_description, "early");
    assert_eq!(listing[1].1, 2);
    assert_eq!(listing[1].0.title_or_description, "middle");
    assert_eq!(listing[2].1, 3);
    assert_eq!(listing[2].0.title_or_description, "late");
    // A second reset renumbers to the same positions.
    let again = list_new(&mut db);
    assert_eq!(again.len(), 3);
    assert_eq!(again[0].0.title_or_description, "early");
    assert_eq!(again[2].1, 3);
}

#[test]
fn quickmark_reset_breaks_date_ties_by_identity() {
    let mut db = Database::new();
    let items = vec![item("bzz", Some(1)), item("azz", Some(1))];
    subscribe(&mut db, channel("c", "x", items), String::from("http://c"), now()).unwrap();
    let listing = list_new(&mut db);
    let h0 = &listing[0].0.title_or_description_hash;
    let h1 = &listing[1].0.title_or_description_hash;
    assert!(h0 < h1, "equal dates must be ordered by identity");
    assert_eq!(listing[0].1, 1);
    assert_eq!(listing[1].1, 2);
}

#[test]
fn quickmark_append_stability() {
    // After a reset producing 1..N, a new subscription appends N+1..N+M
    // and leaves 1..N untouched.
    let mut db = Database::new();
    let items = vec![item("a", Some(1)), item("b", Some(2))];
    subscribe(&mut db, channel("c1", "x", items), String::from("http://c1"), now()).unwrap();
    let before = list_new(&mut db);
    assert_eq!(before.len(), 2);
    let more = vec![item("c", Some(0)), item("d", Some(5))];
    subscribe(&mut db, channel("c2", "x", more), String::from("http://c2"), now()).unwrap();
    let pairs = db.all_unmarked_items_with_quickmarks();
    assert_eq!(pairs.len(), 4);
    // The first two positions still name the first feed's items.
    assert_eq!(pairs[0].1, 1);
    assert_eq!(pairs[0].0.title_or_description, before[0].0.title_or_description);
    assert_eq!(pairs[1].1, 2);
    assert_eq!(pairs[1].0.title_or_description, before[1].0.title_or_description);
    // The new items got 3 and 4, in feed order, despite earlier dates.
    assert_eq!(pairs[2].1, 3);
    assert_eq!(pairs[2].0.title_or_description, "c");
    assert_eq!(pairs[3].1, 4);
    assert_eq!(pairs[3].0.title_or_description, "d");
}

#[test]
fn marking_by_position_deletes_only_that_quickmark() {
    let mut db = Database::new();
    let items = vec![item("a", Some(1)), item("b", Some(2)), item("c", Some(3))];
    subscribe(&mut db, channel("c", "x", items), String::from("http://c"), now()).unwrap();
    list_new(&mut db);
    assert_eq!(db.mark_as_read_with_quickmark(2), Ok(()));
    // No compaction: 1 and 3 keep their numbers, 2 is gone.
    let pairs = db.all_unmarked_items_with_quickmarks();
    assert_eq!(pairs.len(), 2);
    assert_eq!(pairs[0].1, 1);
    assert_eq!(pairs[0].0.title_or_description, "a");
    assert_eq!(pairs[1].1, 3);
    assert_eq!(pairs[1].0.title_or_description, "c");
    // The consumed position is a reported failure, and nothing changes.
    assert_eq!(db.mark_as_read_with_quickmark(2), Err(DbError::NoSuchQuickmark));
    assert_eq!(db.all_unmarked_items_with_quickmarks().len(), 2);
    assert_eq!(db.all_unmarked_items().len(), 2);
}

#[test]
fn mark_relative_skips_bad_positions_and_continues() {
    let mut db = Database::new();
    let items = vec![item("a", Some(1)), item("b", Some(2))];
    subscribe(&mut db, channel("c", "x", items), String::from("http://c"), now()).unwrap();
    list_new(&mut db);
    let outcomes = mark_relative(&mut db, &vec![7, 1, 7, 2]);
    assert_eq!(outcomes, vec![false, true, false, true]);
    assert_eq!(db.all_unmarked_items().len(), 0);
}

#[test]
fn mark_as_read_unknown_identity_is_reported() {
    let mut db = Database::new();
    let items = vec![item("a", None)];
    subscribe(&mut db, channel("c", "x", items), String::from("http://c"), now()).unwrap();
    assert_eq!(db.mark_as_read("0000", true), Err(DbError::NoSuchItem));
    assert_eq!(db.all_unmarked_items().len(), 1);
}

#[test]
fn mark_isolation_leaves_other_items_alone() {
    let mut db = Database::new();
    let items = vec![item("a", Some(1)), item("b", Some(2))];
    subscribe(&mut db, channel("c", "x", items), String::from("http://c"), now()).unwrap();
    let unread = db.all_unmarked_items();
    let hash_a = unread
        .iter()
        .find(|i| i.title_or_description == "a")
        .unwrap()
        .title_or_description_hash
        .clone();
    assert_eq!(db.mark_as_read(&hash_a, true), Ok(()));
    let left = db.all_unmarked_items();
    assert_eq!(left.len(), 1);
    assert_eq!(left[0].title_or_description, "b");
    // Marking the same identity again still succeeds and changes nothing.
    assert_eq!(db.mark_as_read(&hash_a, true), Ok(()));
    assert_eq!(db.all_unmarked_items().len(), 1);
}

#[test]
fn generate_quickmarks_starts_after_current_maximum() {
    let mut db = Database::new();
    let items = vec![item("a", None), item("b", None)];
    subscribe(&mut db, channel("c", "x", items), String::from("http://c"), now()).unwrap();
    // Subscription already appended positions 1 and 2.
    let more = vec![item("z", None)];
    let stored = db.add_items("http://c", &more).unwrap();
    db.generate_quickmarks(&stored);
    let pairs = db.all_unmarked_items_with_quickmarks();
    assert_eq!(pairs.len(), 3);
    assert_eq!(pairs[2].1, 3);
    assert_eq!(pairs[2].0.title_or_description, "z");
}

#[test]
fn remove_channel_cascades_to_its_quickmarks_only() {
    let mut db = Database::new();
    subscribe(
        &mut db,
        channel("c1", "x", vec![item("a", Some(1))]),
        String::from("http://c1"),
        now(),
    )
    .unwrap();
    subscribe(
        &mut db,
        channel("c2", "x", vec![item("b", Some(2))]),
        String::from("http://c2"),
        now(),
    )
    .unwrap();
    assert_eq!(db.remove_channel("http://c1"), Ok(()));
    let channels = db.all_channels();
    assert_eq!(channels.len(), 1);
    assert_eq!(channels[0].link, "http://c2");
    // Only the surviving feed's quickmark is left, untouched.
    let pairs = db.all_unmarked_items_with_quickmarks();
    assert_eq!(pairs.len(), 1);
    assert_eq!(pairs[0].0.title_or_description, "b");
    assert_eq!(pairs[0].1, 2);
}

#[test]
fn remove_channel_matches_protocol_variants() {
    let mut db = Database::new();
    subscribe(
        &mut db,
        channel("c", "x", vec![]),
        String::from("http://localhost:8080"),
        now(),
    )
    .unwrap();
    // Removing by the bare spelling still matches the stored http link.
    assert_eq!(db.remove_channel("localhost:8080"), Ok(()));
    assert_eq!(db.all_channels().len(), 0);
}

#[test]
fn remove_channel_reports_ambiguous_matches() {
    // Both protocol spellings of the same feed are subscribed: removing
    // by the bare name matches both, which is reported — after the
    // removal took effect, as the storage layer always did.
    let mut db = Database::new();
    subscribe(&mut db, channel("a", "x", vec![]), String::from("http://site"), now()).unwrap();
    subscribe(&mut db, channel("b", "x", vec![]), String::from("https://site"), now()).unwrap();
    assert_eq!(db.remove_channel("site"), Err(DbError::MultipleChannels));
    assert_eq!(db.all_channels().len(), 0);
}

#[test]
fn remove_channel_unknown_url_is_reported() {
    let mut db = Database::new();
    subscribe(&mut db, channel("c", "x", vec![]), String::from("http://c"), now()).unwrap();
    assert_eq!(db.remove_channel("http://another_url"), Err(DbError::NoSuchChannel));
    assert_eq!(db.all_channels().len(), 1);
}

#[test]
fn get_items_returns_the_stored_items_of_that_channel() {
    let mut db = Database::new();
    subscribe(
        &mut db,
        channel("c1", "x", vec![item("a", None), item("b", None)]),
        String::from("http://c1"),
        now(),
    )
    .unwrap();
    let probe = channel("ignored", "http://c1", vec![]);
    let items = db.get_items(&probe);
    assert_eq!(items.len(), 2);
    let absent = db.get_items(&channel("ignored", "http://other", vec![]));
    assert_eq!(absent.len(), 0);
}

#[test]
fn db_error_messages_name_the_failure() {
    assert!(DbError::ChannelExists.message().contains("already"));
    assert!(DbError::NoSuchQuickmark.message().contains("quickmark"));
}
