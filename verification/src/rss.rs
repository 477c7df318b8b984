//! The canonical model for feed data.
//!
//! A [`Channel`] is one subscribed feed; an [`Item`] is one entry in it.
//! Whatever wire format a feed arrives in, it is normalized to these types.
//! Every item carries a stable content hash of its text (and link, when
//! present), which acts as its identity everywhere else in the engine:
//! deduplication, diffing and marking are all keyed by it.

use vstd::prelude::*;
use vstd::string::StrSliceExecFns;
use vstd::utf8::encode_utf8;
use sha2::Digest;
use crate::text::push_char;
use crate::time::Timestamp;

verus! {

/// What `sha2::Sha256` returns for a given byte sequence. The digest is a
/// pure function of its input — the property the whole identity scheme
/// rests on — but its value is left unspecified.
pub uninterp spec fn sha256_of(data: Seq<u8>) -> Seq<u8>;

/// Relies on `sha2::Sha256::digest` (through the `Digest` trait): the
/// digest depends on the input bytes alone and is 32 bytes long.
#[verifier::external_body]
fn sha256(data: &[u8]) -> (r: Vec<u8>)
    ensures
        r@ == sha256_of(data@),
        r@.len() == 32,
{
    sha2::Sha256::digest(data).as_slice().to_vec()
}

/// The lower-case hexadecimal digit for a value below 16.
pub open spec fn hex_digit(n: u8) -> char {
    if n == 0 { '0' } else if n == 1 { '1' } else if n == 2 { '2' }
    else if n == 3 { '3' } else if n == 4 { '4' } else if n == 5 { '5' }
    else if n == 6 { '6' } else if n == 7 { '7' } else if n == 8 { '8' }
    else if n == 9 { '9' } else if n == 10 { 'a' } else if n == 11 { 'b' }
    else if n == 12 { 'c' } else if n == 13 { 'd' } else if n == 14 { 'e' }
    else { 'f' }
}

fn hex_digit_exec(n: u8) -> (c: char)
    requires
        n < 16,
    ensures
        c == hex_digit(n),
{
    if n == 0 { '0' } else if n == 1 { '1' } else if n == 2 { '2' }
    else if n == 3 { '3' } else if n == 4 { '4' } else if n == 5 { '5' }
    else if n == 6 { '6' } else if n == 7 { '7' } else if n == 8 { '8' }
    else if n == 9 { '9' } else if n == 10 { 'a' } else if n == 11 { 'b' }
    else if n == 12 { 'c' } else if n == 13 { 'd' } else if n == 14 { 'e' }
    else { 'f' }
}

/// Lower-case hexadecimal rendering of a byte sequence, two digits per byte.
pub open spec fn hex_of(data: Seq<u8>) -> Seq<char>
    decreases data.len(),
{
    if data.len() == 0 {
        Seq::empty()
    } else {
        hex_of(data.drop_last()) + seq![
            hex_digit(data.last() / 16),
            hex_digit(data.last() % 16),
        ]
    }
}

/// Render bytes as a lower-case hexadecimal string.
fn to_hex(data: &Vec<u8>) -> (r: String)
    ensures
        r@ == hex_of(data@),
        r@.len() == 2 * data@.len(),
{
    let mut out = String::new();
    let mut i: usize = 0;
    while i < data.len()
        invariant
            0 <= i <= data@.len(),
            out@ == hex_of(data@.take(i as int)),
            out@.len() == 2 * i,
        decreases data@.len() - i,
    {
        let b = data[i];
        push_char(&mut out, hex_digit_exec(b / 16));
        push_char(&mut out, hex_digit_exec(b % 16));
        proof {
            let t = data@.take(i + 1 as int);
            assert(t.drop_last() =~= data@.take(i as int));
            assert(t.last() == data@[i as int]);
            assert(out@ =~= hex_of(t));
        }
        i = i + 1;
    }
    proof {
        assert(data@.take(data@.len() as int) =~= data@);
    }
    out
}

/// The identity hash of an entry: the SHA-256 digest of the UTF-8 bytes of
/// its text followed by the bytes of its link (when one is present),
/// rendered as 64 lower-case hexadecimal digits.
pub open spec fn identity_of(title: Seq<char>, link: Option<Seq<char>>) -> Seq<char> {
    hex_of(sha256_of(encode_utf8(title) + match link {
        Some(l) => encode_utf8(l),
        None => Seq::<u8>::empty(),
    }))
}

/// The view of an [`Item`]: the same record over mathematical values.
#[verifier::ext_equal]
pub struct ItemV {
    pub title_or_description: Seq<char>,
    pub title_or_description_hash: Seq<char>,
    pub link: Option<Seq<char>>,
    pub pub_date: Option<Timestamp>,
    pub read: bool,
}

/// A single entry of a feed. Exactly one of the source's title or
/// description is kept as its text.
#[derive(Debug)]
pub struct Item {
    /// The title of the entry or, in its absence, the description.
    pub title_or_description: String,
    /// Content hash of the text and link; the entry's identity and its
    /// primary key in the store.
    pub title_or_description_hash: String,
    /// URL to the entry itself.
    pub link: Option<String>,
    /// When the entry was published, normalized to UTC.
    pub pub_date: Option<Timestamp>,
    /// Whether the user has read this entry.
    pub read: bool,
}

impl View for Item {
    type V = ItemV;

    open spec fn view(&self) -> ItemV {
        ItemV {
            title_or_description: self.title_or_description@,
            title_or_description_hash: self.title_or_description_hash@,
            link: self.link.deep_view(),
            pub_date: self.pub_date,
            read: self.read,
        }
    }
}

impl DeepView for Item {
    type V = ItemV;

    open spec fn deep_view(&self) -> ItemV {
        self.view()
    }
}

impl Item {
    /// Create a new, unread item; its identity hash is derived from the
    /// text and the link.
    pub fn new(title_or_desc: String, link: Option<String>, pub_date: Option<Timestamp>) -> (item: Item)
        ensures
            item@.title_or_description == title_or_desc@,
            item@.title_or_description_hash == identity_of(title_or_desc@, link.deep_view()),
            item@.link == link.deep_view(),
            item@.pub_date == pub_date,
            item@.read == false,
    {
        let mut data = title_or_desc.as_str().as_bytes_vec();
        match &link {
            Some(l) => {
                let mut lb = l.as_str().as_bytes_vec();
                data.append(&mut lb);
            },
            None => {},
        }
        let digest = sha256(data.as_slice());
        let hash = to_hex(&digest);
        Item {
            title_or_description: title_or_desc,
            title_or_description_hash: hash,
            link,
            pub_date,
            read: false,
        }
    }

    /// An exact copy of this item.
    pub fn duplicate(&self) -> (r: Item)
        ensures
            r == *self,
    {
        Item {
            title_or_description: self.title_or_description.clone(),
            title_or_description_hash: self.title_or_description_hash.clone(),
            link: match &self.link {
                Some(l) => Some(l.clone()),
                None => None,
            },
            pub_date: self.pub_date,
            read: self.read,
        }
    }
}

impl PartialEq for Item {
    /// Two items are the same entry exactly when their identities match.
    fn eq(&self, other: &Self) -> (r: bool) {
        self.title_or_description_hash == other.title_or_description_hash
    }
}

impl vstd::std_specs::cmp::PartialEqSpecImpl for Item {
    open spec fn obeys_eq_spec() -> bool {
        true
    }

    open spec fn eq_spec(&self, other: &Item) -> bool {
        self.title_or_description_hash@ == other.title_or_description_hash@
    }
}

/// The view of a [`Channel`].
#[verifier::ext_equal]
pub struct ChannelV {
    pub title: Seq<char>,
    pub link: Seq<char>,
    pub description: Seq<char>,
    pub last_build_date: Option<Timestamp>,
    pub items: Seq<ItemV>,
}

/// One subscribed feed: a whole site or blog and its known entries.
#[derive(Debug)]
pub struct Channel {
    /// Name of the feed.
    pub title: String,
    /// URL the engine uses to re-fetch the feed.
    pub link: String,
    /// Description of the feed; empty when the source format has none.
    pub description: String,
    /// When the source last announced a change; used only as a fast-skip
    /// signal during synchronization.
    pub last_build_date: Option<Timestamp>,
    /// The entries known for this feed.
    pub items: Vec<Item>,
}

impl View for Channel {
    type V = ChannelV;

    open spec fn view(&self) -> ChannelV {
        ChannelV {
            title: self.title@,
            link: self.link@,
            description: self.description@,
            last_build_date: self.last_build_date,
            items: self.items.deep_view(),
        }
    }
}

impl DeepView for Channel {
    type V = ChannelV;

    open spec fn deep_view(&self) -> ChannelV {
        self.view()
    }
}

/// Some item in `items` carries the identity hash `h`.
pub open spec fn has_item_hash(items: Seq<ItemV>, h: Seq<char>) -> bool {
    exists|i: int| 0 <= i < items.len() && (#[trigger] items[i]).title_or_description_hash == h
}

/// Whether some item of `items` carries the identity hash `h`.
pub fn contains_hash(items: &Vec<Item>, h: &str) -> (r: bool)
    ensures
        r == has_item_hash(items.deep_view(), h@),
{
    let mut i: usize = 0;
    while i < items.len()
        invariant
            0 <= i <= items@.len(),
            forall|j: int| 0 <= j < i
                ==> (#[trigger] items.deep_view()[j]).title_or_description_hash != h@,
        decreases items@.len() - i,
    {
        proof {
            assert(items.deep_view()[i as int] == items@[i as int].deep_view());
        }
        if crate::text::str_eq(items[i].title_or_description_hash.as_str(), h) {
            return true;
        }
        i = i + 1;
    }
    false
}

/// An exact copy of a vector of items.
pub fn duplicate_items(items: &Vec<Item>) -> (r: Vec<Item>)
    ensures
        r@ == items@,
{
    let mut out: Vec<Item> = Vec::new();
    let mut i: usize = 0;
    while i < items.len()
        invariant
            0 <= i <= items@.len(),
            out@ =~= items@.take(i as int),
        decreases items@.len() - i,
    {
        out.push(items[i].duplicate());
        i = i + 1;
    }
    proof {
        assert(items@.take(items@.len() as int) =~= items@);
    }
    out
}

impl Channel {
    /// An exact copy of this channel, item by item.
    pub fn duplicate(&self) -> (r: Channel)
        ensures
            r.title == self.title,
            r.link == self.link,
            r.description == self.description,
            r.last_build_date == self.last_build_date,
            r.items@ == self.items@,
            r@ == self@,
    {
        Channel {
            title: self.title.clone(),
            link: self.link.clone(),
            description: self.description.clone(),
            last_build_date: self.last_build_date,
            items: duplicate_items(&self.items),
        }
    }
}

} // verus!
