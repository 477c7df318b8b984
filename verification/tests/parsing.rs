//! Parsing both wire formats into the canonical model.

use corkboard::rss::Item;
use corkboard::time::{parse_rfc2822, parse_rfc3339, Timestamp};
use corkboard::xml_handler::{xml_to_rss, XmlError};
use sha2::Digest;

fn hash_of(text: &str, link: Option<&str>) -> String {
    let mut h = sha2::Sha256::new();
    h.update(text.as_bytes());
    if let Some(l) = link {
        h.update(l.as_bytes());
    }
    let out = h.finalize();
    let mut s = String::new();
    for b in out.as_slice() {
        s += &format!("{:02x}", b);
    }
    s
}

const RSS_SAMPLE: &str = "\
<rss version=\"2.0\">
  <channel>
    <title>Example blog</title>
    <link>http://example.com</link>
    <description>Posts about examples</description>
    <lastBuildDate>Sat, 13 Dec 2003 18:30:02 +0000</lastBuildDate>
    <item>
      <title>First post</title>
      <link>http://example.com/1</link>
      <pubDate>Sat, 13 Dec 2003 18:30:02 +0000</pubDate>
    </item>
    <item>
      <description>Second post, description only</description>
    </item>
  </channel>
</rss>";

const ATOM_SAMPLE: &str = "\
<feed xmlns=\"http://www.w3.org/2005/Atom\">
  <title>Example feed</title>
  <link rel=\"self\" href=\"http://example.com/feed\"/>
  <updated>2003-12-13T18:30:02Z</updated>
  <entry>
    <title>Atom entry</title>
    <link href=\"http://example.com/a1\"/>
    <updated>2003-12-13T18:30:02Z</updated>
  </entry>
  <entry>
    <summary>No title here, so this entry is dropped</summary>
  </entry>
</feed>";

#[test]
fn rss_basic_fields() {
    let channel = xml_to_rss(RSS_SAMPLE).expect("sample must parse");
    assert_eq!(channel.title, "Example blog");
    assert_eq!(channel.link, "http://example.com");
    assert_eq!(channel.description, "Posts about examples");
    assert_eq!(
        channel.last_build_date,
        Some(Timestamp { secs: 1071340202, nanos: 0 })
    );
    assert_eq!(channel.items.len(), 2);
    assert_eq!(channel.items[0].title_or_description, "First post");
    assert_eq!(channel.items[0].link.as_deref(), Some("http://example.com/1"));
    assert_eq!(
        channel.items[0].pub_date,
        Some(Timestamp { secs: 1071340202, nanos: 0 })
    );
    assert!(!channel.items[0].read);
    assert_eq!(
        channel.items[1].title_or_description,
        "Second post, description only"
    );
    assert_eq!(channel.items[1].link, None);
    assert_eq!(channel.items[1].pub_date, None);
}

#[test]
fn rss_item_identity_is_content_hash() {
    let channel = xml_to_rss(RSS_SAMPLE).expect("sample must parse");
    assert_eq!(
        channel.items[0].title_or_description_hash,
        hash_of("First post", Some("http://example.com/1"))
    );
    assert_eq!(
        channel.items[1].title_or_description_hash,
        hash_of("Second post, description only", None)
    );
}

#[test]
fn rss_missing_description_defaults_to_empty() {
    let doc = "<rss><channel><title>t</title><link>l</link></channel></rss>";
    let channel = xml_to_rss(doc).expect("description is optional");
    assert_eq!(channel.description, "");
    assert_eq!(channel.last_build_date, None);
    assert_eq!(channel.items.len(), 0);
}

#[test]
fn rss_item_without_title_or_description_is_dropped() {
    let doc = "<rss><channel><title>t</title><link>l</link>\
        <item><link>only-a-link</link></item>\
        <item><title>kept</title></item>\
        </channel></rss>";
    let channel = xml_to_rss(doc).expect("must parse");
    assert_eq!(channel.items.len(), 1);
    assert_eq!(channel.items[0].title_or_description, "kept");
}

#[test]
fn rss_unparsable_pub_date_is_dropped_not_fatal() {
    let doc = "<rss><channel><title>t</title><link>l</link>\
        <item><title>x</title><pubDate>not a date</pubDate></item>\
        </channel></rss>";
    let channel = xml_to_rss(doc).expect("must parse");
    assert_eq!(channel.items[0].pub_date, None);
}

#[test]
fn rss_dialect_round_trip_counts_items() {
    // Every item carries both title and description: the channel has
    // exactly as many entries as items.
    let mut doc = String::from("<rss><channel><title>t</title><link>l</link>");
    for i in 0..7 {
        doc += &format!("<item><title>t{}</title><description>d{}</description></item>", i, i);
    }
    doc += "</channel></rss>";
    let channel = xml_to_rss(&doc).expect("must parse");
    assert_eq!(channel.items.len(), 7);
}

#[test]
fn atom_basic_fields() {
    let channel = xml_to_rss(ATOM_SAMPLE).expect("sample must parse");
    assert_eq!(channel.title, "Example feed");
    assert_eq!(channel.link, "http://example.com/feed");
    assert_eq!(channel.description, "");
    assert_eq!(
        channel.last_build_date,
        Some(Timestamp { secs: 1071340202, nanos: 0 })
    );
    assert_eq!(channel.items.len(), 1);
    assert_eq!(channel.items[0].title_or_description, "Atom entry");
    assert_eq!(channel.items[0].link.as_deref(), Some("http://example.com/a1"));
    assert_eq!(
        channel.items[0].pub_date,
        Some(Timestamp { secs: 1071340202, nanos: 0 })
    );
}

#[test]
fn atom_entry_without_title_is_excluded_from_count() {
    // One good entry, one without a title: exactly one survives.
    let channel = xml_to_rss(ATOM_SAMPLE).expect("sample must parse");
    assert_eq!(channel.items.len(), 1);
}

#[test]
fn atom_without_self_link_is_rejected() {
    let doc = "<feed xmlns=\"http://www.w3.org/2005/Atom\">\
        <title>t</title><link href=\"http://example.com\"/></feed>";
    assert_eq!(xml_to_rss(doc).unwrap_err(), XmlError::NoLink);
}

#[test]
fn atom_without_title_is_rejected() {
    let doc = "<feed xmlns=\"http://www.w3.org/2005/Atom\">\
        <link rel=\"self\" href=\"http://example.com\"/></feed>";
    assert_eq!(xml_to_rss(doc).unwrap_err(), XmlError::NoTitle);
}

#[test]
fn unknown_root_is_rejected() {
    assert_eq!(xml_to_rss("<html><body/></html>").unwrap_err(), XmlError::UnknownFormat);
    // An rss tag inside a namespace is not RSS either.
    let doc = "<x:rss xmlns:x=\"http://example.com/not-rss\"><channel/></x:rss>";
    assert_eq!(xml_to_rss(doc).unwrap_err(), XmlError::UnknownFormat);
}

#[test]
fn malformed_document_is_rejected_before_dialect_detection() {
    assert_eq!(xml_to_rss("<rss><channel>").unwrap_err(), XmlError::ParserFailed);
    assert_eq!(xml_to_rss("not xml at all").unwrap_err(), XmlError::ParserFailed);
}

#[test]
fn rss_missing_channel_title_link_are_rejected() {
    assert_eq!(xml_to_rss("<rss></rss>").unwrap_err(), XmlError::NoChannelTag);
    assert_eq!(
        xml_to_rss("<rss><channel><link>l</link></channel></rss>").unwrap_err(),
        XmlError::NoTitle
    );
    assert_eq!(
        xml_to_rss("<rss><channel><title>t</title></channel></rss>").unwrap_err(),
        XmlError::NoLink
    );
}

#[test]
fn rss_lookup_ignores_foreign_namespace_elements() {
    // The only title is in the Atom namespace: for RSS it does not count.
    let doc = "<rss xmlns:a=\"http://www.w3.org/2005/Atom\"><channel>\
        <a:title>not an rss title</a:title><link>l</link></channel></rss>";
    assert_eq!(xml_to_rss(doc).unwrap_err(), XmlError::NoTitle);
}

#[test]
fn identity_is_deterministic_across_calls() {
    let a = Item::new(String::from("same text"), Some(String::from("same link")), None);
    let b = Item::new(
        String::from("same text"),
        Some(String::from("same link")),
        Some(Timestamp { secs: 1, nanos: 2 }),
    );
    // Dates play no role in the identity.
    assert_eq!(a.title_or_description_hash, b.title_or_description_hash);
    assert_eq!(a.title_or_description_hash, hash_of("same text", Some("same link")));
    // Different content, different identity.
    let c = Item::new(String::from("other text"), Some(String::from("same link")), None);
    assert_ne!(a.title_or_description_hash, c.title_or_description_hash);
    // The hash is 64 lower-case hex digits.
    assert_eq!(a.title_or_description_hash.len(), 64);
}

#[test]
fn date_parsers_match_the_wire_formats() {
    assert_eq!(
        parse_rfc2822("Sat, 13 Dec 2003 18:30:02 +0000"),
        Some(Timestamp { secs: 1071340202, nanos: 0 })
    );
    // A non-UTC offset is normalized away.
    assert_eq!(
        parse_rfc2822("Sat, 13 Dec 2003 19:30:02 +0100"),
        Some(Timestamp { secs: 1071340202, nanos: 0 })
    );
    assert_eq!(parse_rfc2822("not a date"), None);
    assert_eq!(
        parse_rfc3339("2003-12-13T18:30:02Z"),
        Some(Timestamp { secs: 1071340202, nanos: 0 })
    );
    assert_eq!(
        parse_rfc3339("2003-12-13T19:30:02+01:00"),
        Some(Timestamp { secs: 1071340202, nanos: 0 })
    );
    assert_eq!(parse_rfc3339("13 Dec 2003"), None);
}

#[test]
fn xml_error_messages_name_the_failure() {
    assert!(XmlError::NoTitle.message().contains("title"));
    assert!(XmlError::NoLink.message().contains("link"));
    assert!(XmlError::UnknownFormat.message().contains("neither Atom nor RSS"));
}
