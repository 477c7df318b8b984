//! The command layer: argument parsing and whole-command scenarios.

use corkboard::cli::{parse_arguments, Operation, ParseErr};
use corkboard::commands::{list_new, mark, mark_all, subscribe};
use corkboard::db::Database;
use corkboard::rss::{Channel, Item};
use corkboard::time::Timestamp;
use corkboard::xml_handler::xml_to_rss;
use sha2::Digest;

fn args(list: &[&str]) -> Vec<String> {
    let mut v = vec![String::from("corkboard")];
    for a in list {
        v.push(String::from(*a));
    }
    v
}

fn hash_string(s: &str) -> String {
    let mut h = sha2::Sha256::new();
    h.update(s.as_bytes());
    let out = h.finalize();
    let mut hex = String::new();
    for b in out.as_slice() {
        hex += &format!("{:02x}", b);
    }
    hex
}

fn now() -> Timestamp {
    Timestamp { secs: 1_700_000_000, nanos: 0 }
}

const SAMPLE3: &str = "\
<rss version=\"2.0\">
  <channel>
    <title>Clash sample</title>
    <link>http://example.com</link>
    <item><title>azz</title></item>
    <item><title>bzz</title></item>
  </channel>
</rss>";

#[test]
fn parse_arguments_commands() {
    assert!(matches!(parse_arguments(args(&["up"])), Ok(Operation::Up)));
    assert!(matches!(parse_arguments(args(&["feeds"])), Ok(Operation::Feeds)));
    assert!(matches!(parse_arguments(args(&["new"])), Ok(Operation::New)));
    match parse_arguments(args(&["add", "http://x"])) {
        Ok(Operation::Add(url)) => assert_eq!(url, "http://x"),
        _ => panic!("add with a url parses"),
    }
    match parse_arguments(args(&["remove", "http://x"])) {
        Ok(Operation::Remove(url)) => assert_eq!(url, "http://x"),
        _ => panic!("remove with a url parses"),
    }
    match parse_arguments(args(&["mark", "3", "12"])) {
        Ok(Operation::Mark(ps)) => assert_eq!(ps, vec![3, 12]),
        _ => panic!("mark with positions parses"),
    }
    assert!(matches!(parse_arguments(args(&["mark", "--all"])), Ok(Operation::MarkAll)));
    match parse_arguments(args(&["markhash", "aa", "bb"])) {
        Ok(Operation::MarkHash(hs)) => assert_eq!(hs, vec!["aa", "bb"]),
        _ => panic!("markhash parses"),
    }
}

#[test]
fn parse_arguments_rejections() {
    assert!(matches!(parse_arguments(vec![String::from("corkboard")]), Err(ParseErr::NoArguments)));
    assert!(matches!(parse_arguments(args(&["frobnicate"])), Err(ParseErr::NotACommand)));
    // A command that needs an operand falls through without one.
    assert!(matches!(parse_arguments(args(&["add"])), Err(ParseErr::NotACommand)));
    assert!(matches!(parse_arguments(args(&["remove"])), Err(ParseErr::NotACommand)));
    assert!(matches!(parse_arguments(args(&["mark"])), Err(ParseErr::NotACommand)));
    assert!(matches!(
        parse_arguments(args(&["mark", "1", "x"])),
        Err(ParseErr::InvalidPosition)
    ));
    assert!(matches!(
        parse_arguments(args(&["mark", "99999999999999999999999"])),
        Err(ParseErr::InvalidPosition)
    ));
    // A leading plus is accepted, matching the usual unsigned grammar.
    match parse_arguments(args(&["mark", "+7"])) {
        Ok(Operation::Mark(ps)) => assert_eq!(ps, vec![7]),
        _ => panic!("plus-prefixed number parses"),
    }
    assert!(matches!(parse_arguments(args(&["mark", "+"])), Err(ParseErr::InvalidPosition)));
}

#[test]
fn help_test() {
    for variation in ["help", "-h", "--help"] {
        assert!(
            matches!(parse_arguments(args(&[variation])), Ok(Operation::Help)),
            "help variation must parse"
        );
    }
}

#[test]
fn add_test() {
    // Subscribing stores the channel and both of its items.
    let mut db = Database::new();
    let channel = xml_to_rss(SAMPLE3).unwrap();
    subscribe(&mut db, channel, String::from("http://localhost:8080"), now()).unwrap();
    let channels = db.all_channels_with_items();
    assert_eq!(channels.len(), 1);
    assert_eq!(channels[0].link, "http://localhost:8080");
    assert_eq!(channels[0].items.len(), 2);
    // The stored channel got a build date even though the feed had none.
    assert_eq!(channels[0].last_build_date, Some(now()));
}

#[test]
fn add_atom_test() {
    let atom = "<feed xmlns=\"http://www.w3.org/2005/Atom\">\
        <title>Atom sample</title>\
        <link rel=\"self\" href=\"http://example.com/feed\"/>\
        <entry><title>e1</title></entry>\
        <entry><title>e2</title></entry>\
        </feed>";
    let mut db = Database::new();
    let channel = xml_to_rss(atom).unwrap();
    assert_eq!(channel.items.len(), 2);
    subscribe(&mut db, channel, String::from("http://localhost:8080"), now()).unwrap();
    assert_eq!(db.all_channels_with_items()[0].items.len(), 2);
    // Subscribing the same link twice is refused and commits nothing.
    let again = xml_to_rss(atom).unwrap();
    assert!(subscribe(&mut db, again, String::from("http://localhost:8080"), now()).is_err());
    assert_eq!(db.all_channels().len(), 1);
}

#[test]
fn double_mark() {
    // Mark both items by identity: nothing about them shows up unread.
    let mut db = Database::new();
    let channel = xml_to_rss(SAMPLE3).unwrap();
    subscribe(&mut db, channel, String::from("http://localhost:8080"), now()).unwrap();
    mark(&mut db, &vec![hash_string("azz"), hash_string("bzz")]).unwrap();
    let listing = list_new(&mut db);
    assert_eq!(listing.len(), 0);
    assert_eq!(db.all_unmarked_items().len(), 0);
}

#[test]
fn new_then_mark() {
    // The concrete azz/bzz scenario: after subscribing, both are unread
    // under some positions; after marking azz by identity, exactly bzz
    // remains and a reset numbers it 1.
    let mut db = Database::new();
    let channel = xml_to_rss(SAMPLE3).unwrap();
    subscribe(&mut db, channel, String::from("http://localhost:8080"), now()).unwrap();
    let listing = list_new(&mut db);
    assert_eq!(listing.len(), 2);
    assert!(listing.iter().any(|p| p.0.title_or_description == "azz"));
    assert!(listing.iter().any(|p| p.0.title_or_description == "bzz"));
    assert!(listing[0].1 > 0 && listing[1].1 > 0);

    mark(&mut db, &vec![hash_string("azz")]).unwrap();
    let unread = db.all_unmarked_items();
    assert_eq!(unread.len(), 1);
    assert_eq!(unread[0].title_or_description, "bzz");

    let renumbered = list_new(&mut db);
    assert_eq!(renumbered.len(), 1);
    assert_eq!(renumbered[0].0.title_or_description, "bzz");
    assert_eq!(renumbered[0].1, 1);
    // Marking azz again is a no-op, not a crash, and bzz keeps its state.
    mark(&mut db, &vec![hash_string("azz")]).unwrap();
    assert_eq!(db.all_unmarked_items().len(), 1);
}

#[test]
fn test_quickmarks() {
    // Positions shown by one listing stay valid for marking even after
    // an intervening subscription inserted earlier-dated entries.
    let mut db = Database::new();
    let first = Channel {
        title: String::from("first"),
        link: String::from("x"),
        description: String::new(),
        last_build_date: None,
        items: vec![Item::new(
            String::from("late entry"),
            None,
            Some(Timestamp { secs: 100, nanos: 0 }),
        )],
    };
    subscribe(&mut db, first, String::from("http://one"), now()).unwrap();
    let listing = list_new(&mut db);
    assert_eq!(listing.len(), 1);
    assert_eq!(listing[0].1, 1);

    // A new feed with an earlier publish date appends, never renumbers.
    let second = Channel {
        title: String::from("second"),
        link: String::from("x"),
        description: String::new(),
        last_build_date: None,
        items: vec![Item::new(
            String::from("early entry"),
            None,
            Some(Timestamp { secs: 1, nanos: 0 }),
        )],
    };
    subscribe(&mut db, second, String::from("http://two"), now()).unwrap();
    // Position 1 still names the first feed's entry.
    assert_eq!(db.mark_as_read_with_quickmark(1), Ok(()));
    let unread = db.all_unmarked_items();
    assert_eq!(unread.len(), 1);
    assert_eq!(unread[0].title_or_description, "early entry");
}

#[test]
fn mark_all_many_feeds() {
    let mut db = Database::new();
    for n in 0..3 {
        let c = Channel {
            title: format!("feed {}", n),
            link: String::from("x"),
            description: String::new(),
            last_build_date: None,
            items: vec![
                Item::new(format!("{} one", n), None, None),
                Item::new(format!("{} two", n), None, None),
            ],
        };
        subscribe(&mut db, c, format!("http://feed{}", n), now()).unwrap();
    }
    assert_eq!(db.all_unmarked_items().len(), 6);
    mark_all(&mut db);
    assert_eq!(db.all_unmarked_items().len(), 0);
    assert_eq!(list_new(&mut db).len(), 0);
    // The feeds and their items are still there, just read.
    let total: usize = db.all_channels_with_items().iter().map(|c| c.items.len()).sum();
    assert_eq!(total, 6);
}

#[test]
fn remove_test() {
    let mut db = Database::new();
    let channel = xml_to_rss(SAMPLE3).unwrap();
    subscribe(&mut db, channel, String::from("http://localhost:8080"), now()).unwrap();
    assert_eq!(db.all_channels().len(), 1);
    // Removing a url that is not subscribed fails and removes nothing.
    assert!(db.remove_channel("http://another_url").is_err());
    assert_eq!(db.all_channels().len(), 1);
    // Removing by the bare spelling matches the stored protocol variant.
    assert!(db.remove_channel("localhost:8080").is_ok());
    assert_eq!(db.all_channels().len(), 0);
    assert_eq!(db.all_unmarked_items().len(), 0);
}

#[test]
fn feeds_test() {
    let mut db = Database::new();
    for n in 0..13 {
        let c = Channel {
            title: format!("feed {}", n),
            link: String::from("x"),
            description: String::new(),
            last_build_date: None,
            items: vec![],
        };
        subscribe(&mut db, c, format!("http://localhost:80{:02}", n), now()).unwrap();
    }
    let channels = db.all_channels();
    assert_eq!(channels.len(), 13);
    assert!(channels.iter().any(|c| c.link == "http://localhost:8012"));
    assert!(channels.iter().all(|c| c.items.is_empty()));
}
