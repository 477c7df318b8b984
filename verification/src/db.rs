//! The store: channels, their items, and the quickmark overlay.
//!
//! The store holds every subscribed channel with its known items, keyed by
//! the channel's link and the item's identity hash respectively, plus the
//! quickmark table: a small position-to-identity map over unread items
//! that gives them stable numbered handles across commands.
//!
//! The quickmark rules, which the contracts below make precise:
//! 1. Listing unread items resets all quickmarks, renumbering the unread
//!    items from 1 in publish-date order.
//! 2. Subscribing and synchronizing append quickmarks for the genuinely
//!    new items after the current maximum position; older positions are
//!    never renumbered.
//! 3. Marking an item as read deletes that item's quickmark and no other.
//! 4. Removing a channel deletes the quickmarks of its items and no other.
//! 5. Nothing else touches the overlay.

use vstd::prelude::*;
use crate::rss::{
    contains_hash, duplicate_items, has_item_hash, Channel, ChannelV, Item, ItemV,
};
use crate::text::{lex_le, str_eq, str_lex_le};
use crate::time::{ts_lt, Timestamp};

verus! {

/// Why a store operation was refused.
#[derive(Clone, Copy, Debug, PartialEq, Eq, Structural)]
pub enum DbError {
    /// A channel with the same link is already subscribed.
    ChannelExists,
    /// No channel with the given link is subscribed.
    NoSuchChannel,
    /// No item carries the given identity hash.
    NoSuchItem,
    /// No quickmark carries the given position.
    NoSuchQuickmark,
    /// More than one channel matched a link meant to name exactly one.
    MultipleChannels,
}

impl DbError {
    /// A human-readable description of the error.
    pub fn message(&self) -> (r: &'static str)
        ensures
            r@ == match self {
                DbError::ChannelExists => "A channel with this link is already in the database"@,
                DbError::NoSuchChannel => "No channel with this link is in the database"@,
                DbError::NoSuchItem => "No item with this hash is in the database"@,
                DbError::NoSuchQuickmark => "No quickmark with this position is in the database"@,
                DbError::MultipleChannels => "More than one channel matched the link"@,
            },
    {
        match self {
            DbError::ChannelExists => "A channel with this link is already in the database",
            DbError::NoSuchChannel => "No channel with this link is in the database",
            DbError::NoSuchItem => "No item with this hash is in the database",
            DbError::NoSuchQuickmark => "No quickmark with this position is in the database",
            DbError::MultipleChannels => "More than one channel matched the link",
        }
    }
}

/// The view of a [`Quickmark`].
#[verifier::ext_equal]
pub struct QuickmarkV {
    pub position: u64,
    pub hash: Seq<char>,
}

/// One quickmark: a numbered handle for an unread item, addressed by the
/// item's identity hash.
#[derive(Debug)]
pub struct Quickmark {
    /// The position shown to the user.
    pub position: u64,
    /// The identity hash of the item this handle names.
    pub hash: String,
}

impl View for Quickmark {
    type V = QuickmarkV;

    open spec fn view(&self) -> QuickmarkV {
        QuickmarkV { position: self.position, hash: self.hash@ }
    }
}

impl DeepView for Quickmark {
    type V = QuickmarkV;

    open spec fn deep_view(&self) -> QuickmarkV {
        self.view()
    }
}

/// The view of a [`Database`].
#[verifier::ext_equal]
pub struct DatabaseV {
    pub channels: Seq<ChannelV>,
    pub quickmarks: Seq<QuickmarkV>,
}

/// The in-memory store of everything the reader knows: the subscribed
/// channels with their items, and the quickmark overlay.
#[derive(Debug)]
pub struct Database {
    /// The subscribed channels, each carrying its known items.
    pub channels: Vec<Channel>,
    /// The quickmark overlay, in ascending position order.
    pub quickmarks: Vec<Quickmark>,
}

impl View for Database {
    type V = DatabaseV;

    open spec fn view(&self) -> DatabaseV {
        DatabaseV {
            channels: self.channels.deep_view(),
            quickmarks: self.quickmarks.deep_view(),
        }
    }
}

/// Channel links are pairwise distinct.
pub open spec fn links_unique(chs: Seq<ChannelV>) -> bool {
    forall|i: int, j: int| 0 <= i < j < chs.len()
        ==> (#[trigger] chs[i]).link != (#[trigger] chs[j]).link
}

/// Item identity hashes are pairwise distinct across all channels.
pub open spec fn hashes_unique(chs: Seq<ChannelV>) -> bool {
    forall|i: int, k: int, j: int, l: int|
        0 <= i < chs.len() && 0 <= k < chs[i].items.len()
        && 0 <= j < chs.len() && 0 <= l < chs[j].items.len()
        && (i != j || k != l)
        ==> (#[trigger] chs[i].items[k]).title_or_description_hash
            != (#[trigger] chs[j].items[l]).title_or_description_hash
}

/// Quickmark positions are strictly increasing in storage order, so a
/// position names at most one quickmark and the last one carries the
/// maximum.
pub open spec fn positions_increasing(qs: Seq<QuickmarkV>) -> bool {
    forall|i: int, j: int| 0 <= i < j < qs.len()
        ==> (#[trigger] qs[i]).position < (#[trigger] qs[j]).position
}

/// Well-formedness of the whole store.
pub open spec fn db_wf(db: DatabaseV) -> bool {
    &&& links_unique(db.channels)
    &&& hashes_unique(db.channels)
    &&& positions_increasing(db.quickmarks)
}

/// Some channel of `chs` has the link `link`.
pub open spec fn has_link(chs: Seq<ChannelV>, link: Seq<char>) -> bool {
    exists|i: int| 0 <= i < chs.len() && (#[trigger] chs[i]).link == link
}

/// `ci` is the index of the channel with link `link`.
pub open spec fn is_link_index(chs: Seq<ChannelV>, link: Seq<char>, ci: int) -> bool {
    0 <= ci < chs.len() && chs[ci].link == link
}

/// Some channel of `chs` holds an item with identity hash `h`.
pub open spec fn chs_have_hash(chs: Seq<ChannelV>, h: Seq<char>) -> bool {
    exists|i: int| 0 <= i < chs.len() && has_item_hash((#[trigger] chs[i]).items, h)
}

/// `h` occurs in `a + b` exactly when it occurs in one of the parts.
pub proof fn lemma_has_hash_concat(a: Seq<ItemV>, b: Seq<ItemV>, h: Seq<char>)
    ensures
        has_item_hash(a + b, h) == (has_item_hash(a, h) || has_item_hash(b, h)),
{
    if has_item_hash(a, h) {
        let i = choose|i: int| 0 <= i < a.len() && (#[trigger] a[i]).title_or_description_hash == h;
        assert((a + b)[i].title_or_description_hash == h);
    }
    if has_item_hash(b, h) {
        let i = choose|i: int| 0 <= i < b.len() && (#[trigger] b[i]).title_or_description_hash == h;
        assert((a + b)[a.len() + i].title_or_description_hash == h);
    }
    if has_item_hash(a + b, h) {
        let i = choose|i: int|
            0 <= i < (a + b).len() && (#[trigger] (a + b)[i]).title_or_description_hash == h;
        if i < a.len() {
            assert(a[i].title_or_description_hash == h);
        } else {
            assert(b[i - a.len()].title_or_description_hash == h);
        }
    }
}

/// The items of `items` whose identity is genuinely new: not stored in any
/// channel yet, and not preceded by an item of the same identity earlier
/// in `items` itself. These are exactly the items an insertion stores.
pub open spec fn fresh_filter(chs: Seq<ChannelV>, items: Seq<ItemV>) -> Seq<ItemV>
    decreases items.len(),
{
    if items.len() == 0 {
        Seq::empty()
    } else {
        fresh_filter(chs, items.drop_last()) + (
        if chs_have_hash(chs, items.last().title_or_description_hash)
            || has_item_hash(items.drop_last(), items.last().title_or_description_hash) {
            Seq::empty()
        } else {
            seq![items.last()]
        })
    }
}

/// For an identity the store lacks, the fresh part of `items` carries it
/// exactly when `items` itself does.
pub proof fn lemma_fresh_filter_has(chs: Seq<ChannelV>, items: Seq<ItemV>, h: Seq<char>)
    requires
        !chs_have_hash(chs, h),
    ensures
        has_item_hash(fresh_filter(chs, items), h) == has_item_hash(items, h),
    decreases items.len(),
{
    if items.len() == 0 {
        assert(!has_item_hash(fresh_filter(chs, items), h));
        assert(!has_item_hash(items, h));
    } else {
        let front = items.drop_last();
        let x = items.last();
        lemma_fresh_filter_has(chs, front, h);
        let tail: Seq<ItemV> = if chs_have_hash(chs, x.title_or_description_hash)
            || has_item_hash(front, x.title_or_description_hash) {
            Seq::empty()
        } else {
            seq![x]
        };
        lemma_has_hash_concat(fresh_filter(chs, front), tail, h);
        assert(items =~= front.push(x));
        lemma_has_hash_concat(front, seq![x], h);
        assert(front + seq![x] =~= items);
        if has_item_hash(tail, h) {
            assert(tail[0].title_or_description_hash == h);
        }
        if x.title_or_description_hash == h && !has_item_hash(front, h)
            && !chs_have_hash(chs, x.title_or_description_hash) {
            assert(tail == seq![x]);
            assert(tail[0].title_or_description_hash == h);
            assert(has_item_hash(tail, h));
        }
    }
}

/// The fresh part of `items` has pairwise distinct identities, none of
/// them stored yet.
pub proof fn lemma_fresh_filter_wf(chs: Seq<ChannelV>, items: Seq<ItemV>)
    ensures
        forall|a: int| 0 <= a < fresh_filter(chs, items).len()
            ==> !chs_have_hash(chs, (#[trigger] fresh_filter(chs, items)[a]).title_or_description_hash),
        forall|a: int, b: int| 0 <= a < b < fresh_filter(chs, items).len()
            ==> (#[trigger] fresh_filter(chs, items)[a]).title_or_description_hash
                != (#[trigger] fresh_filter(chs, items)[b]).title_or_description_hash,
    decreases items.len(),
{
    if items.len() > 0 {
        let front = items.drop_last();
        let x = items.last();
        let prev = fresh_filter(chs, front);
        let cur = fresh_filter(chs, items);
        lemma_fresh_filter_wf(chs, front);
        if !(chs_have_hash(chs, x.title_or_description_hash)
            || has_item_hash(front, x.title_or_description_hash)) {
            lemma_fresh_filter_has(chs, front, x.title_or_description_hash);
            assert(!has_item_hash(prev, x.title_or_description_hash));
            assert(cur =~= prev.push(x));
            assert forall|a: int, b: int| 0 <= a < b < cur.len()
                implies (#[trigger] cur[a]).title_or_description_hash
                    != (#[trigger] cur[b]).title_or_description_hash
            by {
                if b == cur.len() - 1 {
                    if prev[a].title_or_description_hash == x.title_or_description_hash {
                        assert(has_item_hash(prev, x.title_or_description_hash));
                    }
                } else {
                    assert(cur[a] == prev[a] && cur[b] == prev[b]);
                }
            }
        } else {
            assert(cur =~= prev);
        }
    }
}

/// At most every item is fresh.
pub proof fn lemma_fresh_filter_len(chs: Seq<ChannelV>, items: Seq<ItemV>)
    ensures
        fresh_filter(chs, items).len() <= items.len(),
    decreases items.len(),
{
    if items.len() > 0 {
        lemma_fresh_filter_len(chs, items.drop_last());
    }
}

/// Freshness only looks at which identities the store holds, so channel
/// lists holding the same identities filter alike.
pub proof fn lemma_fresh_filter_same_hashes(
    chs1: Seq<ChannelV>,
    chs2: Seq<ChannelV>,
    items: Seq<ItemV>,
)
    requires
        forall|h: Seq<char>| #[trigger] chs_have_hash(chs1, h) == chs_have_hash(chs2, h),
    ensures
        fresh_filter(chs1, items) == fresh_filter(chs2, items),
    decreases items.len(),
{
    if items.len() > 0 {
        lemma_fresh_filter_same_hashes(chs1, chs2, items.drop_last());
        assert(chs_have_hash(chs1, items.last().title_or_description_hash)
            == chs_have_hash(chs2, items.last().title_or_description_hash));
        assert(fresh_filter(chs1, items) =~= fresh_filter(chs2, items));
    }
}

/// `qs` extended with one quickmark per item of `items`, numbered from
/// one past the current maximum position.
pub open spec fn appended_quickmarks(qs: Seq<QuickmarkV>, items: Seq<ItemV>) -> Seq<QuickmarkV> {
    qs + Seq::new(items.len(), |i: int| QuickmarkV {
        position: (max_position(qs) + 1 + i) as u64,
        hash: items[i].title_or_description_hash,
    })
}

/// How an insertion of `items` into the channel with link `link` relates
/// the channel list before (`pre`) and after (`post`): the fresh items are
/// appended to that channel, every other channel is untouched.
pub open spec fn add_items_rel(
    pre: Seq<ChannelV>,
    post: Seq<ChannelV>,
    link: Seq<char>,
    items: Seq<ItemV>,
) -> bool {
    &&& post.len() == pre.len()
    &&& forall|ci: int| is_link_index(pre, link, ci)
        ==> #[trigger] post[ci] == (ChannelV {
            items: pre[ci].items + fresh_filter(pre, items),
            ..pre[ci]
        })
    &&& forall|j: int| 0 <= j < pre.len() && (#[trigger] pre[j]).link != link ==> post[j] == pre[j]
}

/// `it` with its read flag set to `v` when its identity is `h`, unchanged
/// otherwise.
pub open spec fn item_set_read(it: ItemV, h: Seq<char>, v: bool) -> ItemV {
    if it.title_or_description_hash == h {
        ItemV { read: v, ..it }
    } else {
        it
    }
}

/// Every item of `items` with identity `h` has its read flag set to `v`.
pub open spec fn items_set_read(items: Seq<ItemV>, h: Seq<char>, v: bool) -> Seq<ItemV> {
    Seq::new(items.len(), |k: int| item_set_read(items[k], h, v))
}

/// Every item with identity `h`, in any channel, has its read flag set to
/// `v`; everything else — every other item and every channel field — is
/// untouched.
pub open spec fn chs_set_read(chs: Seq<ChannelV>, h: Seq<char>, v: bool) -> Seq<ChannelV> {
    Seq::new(chs.len(), |i: int| ChannelV { items: items_set_read(chs[i].items, h, v), ..chs[i] })
}

/// Setting a read flag does not touch links or identities, so it keeps
/// the store well-formed and every identity lookup unchanged.
pub proof fn lemma_set_read_wf(db: DatabaseV, h: Seq<char>, v: bool)
    requires
        db_wf(db),
    ensures
        db_wf(DatabaseV { channels: chs_set_read(db.channels, h, v), ..db }),
{
    let post = chs_set_read(db.channels, h, v);
    assert forall|i: int, j: int| 0 <= i < j < post.len()
        implies (#[trigger] post[i]).link != (#[trigger] post[j]).link
    by {
        assert(post[i].link == db.channels[i].link);
        assert(post[j].link == db.channels[j].link);
    }
    assert forall|i: int, k: int, j: int, l: int|
        0 <= i < post.len() && 0 <= k < post[i].items.len()
        && 0 <= j < post.len() && 0 <= l < post[j].items.len()
        && (i != j || k != l)
        implies (#[trigger] post[i].items[k]).title_or_description_hash
            != (#[trigger] post[j].items[l]).title_or_description_hash
    by {
        assert(post[i].items[k].title_or_description_hash
            == db.channels[i].items[k].title_or_description_hash);
        assert(post[j].items[l].title_or_description_hash
            == db.channels[j].items[l].title_or_description_hash);
    }
}

/// The largest position any quickmark carries; positions are stored in
/// increasing order, so it is the last one. Zero when there are none.
pub open spec fn max_position(qs: Seq<QuickmarkV>) -> u64 {
    if qs.len() == 0 {
        0
    } else {
        qs.last().position
    }
}

/// The quickmarks that remain once every one carrying hash `h` is deleted.
pub open spec fn qm_without_hash(qs: Seq<QuickmarkV>, h: Seq<char>) -> Seq<QuickmarkV>
    decreases qs.len(),
{
    if qs.len() == 0 {
        Seq::empty()
    } else {
        qm_without_hash(qs.drop_last(), h) + (
        if qs.last().hash == h {
            Seq::empty()
        } else {
            seq![qs.last()]
        })
    }
}

/// Deleting quickmarks keeps the remaining positions increasing.
pub proof fn lemma_qm_without_hash_increasing(qs: Seq<QuickmarkV>, h: Seq<char>)
    requires
        positions_increasing(qs),
    ensures
        positions_increasing(qm_without_hash(qs, h)),
        forall|i: int| 0 <= i < qm_without_hash(qs, h).len() && qs.len() > 0
            ==> (#[trigger] qm_without_hash(qs, h)[i]).position <= qs.last().position,
    decreases qs.len(),
{
    if qs.len() > 0 {
        let front = qs.drop_last();
        let w = qm_without_hash(qs, h);
        let wf2 = qm_without_hash(front, h);
        lemma_qm_without_hash_increasing(front, h);
        assert forall|i: int, j: int| 0 <= i < j < w.len()
            implies (#[trigger] w[i]).position < (#[trigger] w[j]).position
        by {
            if j < wf2.len() {
                assert(w[i] == wf2[i] && w[j] == wf2[j]);
            } else {
                assert(w[j] == qs.last());
                assert(w[i] == wf2[i]);
                if front.len() > 0 {
                    assert(wf2[i].position <= front.last().position);
                    assert(front.last().position < qs.last().position) by {
                        assert(front.last() == qs[qs.len() - 2]);
                    }
                }
            }
        }
        assert forall|i: int| 0 <= i < w.len()
            implies (#[trigger] w[i]).position <= qs.last().position
        by {
            if i < wf2.len() {
                if front.len() > 0 {
                    assert(front.last() == qs[qs.len() - 2]);
                }
            } else {
                assert(w[i] == qs.last());
            }
        }
    }
}

/// Some quickmark carries the position `p`.
pub open spec fn has_position(qs: Seq<QuickmarkV>, p: u64) -> bool {
    exists|i: int| 0 <= i < qs.len() && (#[trigger] qs[i]).position == p
}

/// `qi` is the index of the quickmark with position `p`.
pub open spec fn is_position_index(qs: Seq<QuickmarkV>, p: u64, qi: int) -> bool {
    0 <= qi < qs.len() && qs[qi].position == p
}

/// `a` is strictly earlier than `b`; an absent date sorts before every
/// present one.
pub open spec fn date_lt(a: Option<Timestamp>, b: Option<Timestamp>) -> bool {
    match (a, b) {
        (None, None) => false,
        (None, Some(_)) => true,
        (Some(_), None) => false,
        (Some(x), Some(y)) => ts_lt(x, y),
    }
}

/// The order unread items are numbered in: by publish date, ties broken
/// by identity hash so that the numbering is deterministic.
pub open spec fn item_le(a: ItemV, b: ItemV) -> bool {
    if a.pub_date == b.pub_date {
        lex_le(a.title_or_description_hash, b.title_or_description_hash)
    } else {
        date_lt(a.pub_date, b.pub_date)
    }
}

/// `x` inserted into `s` before the first element it precedes or equals.
pub open spec fn insert_by_key(s: Seq<ItemV>, x: ItemV) -> Seq<ItemV>
    decreases s.len(),
{
    if s.len() == 0 {
        seq![x]
    } else if item_le(x, s[0]) {
        seq![x] + s
    } else {
        seq![s[0]] + insert_by_key(s.drop_first(), x)
    }
}

/// `s` sorted by [`item_le`], by repeated insertion.
pub open spec fn sort_items(s: Seq<ItemV>) -> Seq<ItemV>
    decreases s.len(),
{
    if s.len() == 0 {
        Seq::empty()
    } else {
        insert_by_key(sort_items(s.drop_last()), s.last())
    }
}

/// Inserting at the first admissible index is what [`insert_by_key`]
/// does.
pub proof fn lemma_insert_by_key_at(s: Seq<ItemV>, x: ItemV, p: int)
    requires
        0 <= p <= s.len(),
        forall|q: int| 0 <= q < p ==> !item_le(x, #[trigger] s[q]),
        p < s.len() ==> item_le(x, s[p]),
    ensures
        insert_by_key(s, x) == s.take(p) + seq![x] + s.skip(p),
    decreases p,
{
    if p == 0 {
        if s.len() == 0 {
            assert(insert_by_key(s, x) =~= s.take(0) + seq![x] + s.skip(0));
        } else {
            assert(insert_by_key(s, x) =~= s.take(0) + seq![x] + s.skip(0));
        }
    } else {
        lemma_insert_by_key_at(s.drop_first(), x, p - 1);
        assert(s.drop_first().take(p - 1) =~= s.take(p).drop_first());
        assert(s.drop_first().skip(p - 1) =~= s.skip(p));
        assert(insert_by_key(s, x) =~= s.take(p) + seq![x] + s.skip(p));
    }
}

/// The items of `items` that are not yet read, in order.
pub open spec fn unread_of_items(items: Seq<ItemV>) -> Seq<ItemV>
    decreases items.len(),
{
    if items.len() == 0 {
        Seq::empty()
    } else {
        unread_of_items(items.drop_last()) + (
        if items.last().read {
            Seq::empty()
        } else {
            seq![items.last()]
        })
    }
}

/// All unread items of all channels, channel by channel, in stored order.
pub open spec fn unread_in_channels(chs: Seq<ChannelV>) -> Seq<ItemV>
    decreases chs.len(),
{
    if chs.len() == 0 {
        Seq::empty()
    } else {
        unread_in_channels(chs.drop_last()) + unread_of_items(chs.last().items)
    }
}

/// The dense numbering of `s`: position `i + 1` for the item at index
/// `i`.
pub open spec fn quickmarks_for(s: Seq<ItemV>) -> Seq<QuickmarkV> {
    Seq::new(s.len(), |i: int| QuickmarkV {
        position: (i + 1) as u64,
        hash: s[i].title_or_description_hash,
    })
}

/// The first item of `items` carrying the identity hash `h`.
pub open spec fn item_in_items(items: Seq<ItemV>, h: Seq<char>) -> Option<ItemV>
    decreases items.len(),
{
    if items.len() == 0 {
        None
    } else if items[0].title_or_description_hash == h {
        Some(items[0])
    } else {
        item_in_items(items.drop_first(), h)
    }
}

/// The first item of any channel carrying the identity hash `h`.
pub open spec fn item_in_chs(chs: Seq<ChannelV>, h: Seq<char>) -> Option<ItemV>
    decreases chs.len(),
{
    if chs.len() == 0 {
        None
    } else {
        match item_in_items(chs[0].items, h) {
            Some(it) => Some(it),
            None => item_in_chs(chs.drop_first(), h),
        }
    }
}

/// The unread items the quickmarks of `qs` name, each with its position,
/// in stored (ascending-position) order. A quickmark whose item is gone
/// or already read yields nothing.
pub open spec fn pairs_for(chs: Seq<ChannelV>, qs: Seq<QuickmarkV>) -> Seq<(ItemV, u64)>
    decreases qs.len(),
{
    if qs.len() == 0 {
        Seq::empty()
    } else {
        pairs_for(chs, qs.drop_last()) + (
        match item_in_chs(chs, qs.last().hash) {
            Some(it) => if !it.read {
                seq![(it, qs.last().position)]
            } else {
                Seq::empty()
            },
            None => Seq::empty(),
        })
    }
}

/// `link` names the same feed as the user-supplied `url`: feeds that
/// differ only in protocol are taken to be the same feed.
pub open spec fn matches_feed_url(link: Seq<char>, url: Seq<char>) -> bool {
    link == url || link == "http://"@ + url || link == "https://"@ + url
}

/// The channels that survive removing the feed `url`.
pub open spec fn chs_keep(chs: Seq<ChannelV>, url: Seq<char>) -> Seq<ChannelV>
    decreases chs.len(),
{
    if chs.len() == 0 {
        Seq::empty()
    } else {
        chs_keep(chs.drop_last(), url) + (
        if matches_feed_url(chs.last().link, url) {
            Seq::empty()
        } else {
            seq![chs.last()]
        })
    }
}

/// How many channels the feed `url` names.
pub open spec fn match_count(chs: Seq<ChannelV>, url: Seq<char>) -> nat
    decreases chs.len(),
{
    if chs.len() == 0 {
        0
    } else {
        match_count(chs.drop_last(), url) + (
        if matches_feed_url(chs.last().link, url) {
            1int
        } else {
            0int
        }) as nat
    }
}

/// The identity hash `h` belongs to an item of a channel that the feed
/// `url` names.
pub open spec fn hash_in_matching(chs: Seq<ChannelV>, url: Seq<char>, h: Seq<char>) -> bool {
    exists|i: int| 0 <= i < chs.len() && matches_feed_url((#[trigger] chs[i]).link, url)
        && has_item_hash(chs[i].items, h)
}

/// The quickmarks that survive removing the feed `url`: exactly those
/// whose item does not belong to a removed channel.
pub open spec fn qm_after_remove(
    qs: Seq<QuickmarkV>,
    chs: Seq<ChannelV>,
    url: Seq<char>,
) -> Seq<QuickmarkV>
    decreases qs.len(),
{
    if qs.len() == 0 {
        Seq::empty()
    } else {
        qm_after_remove(qs.drop_last(), chs, url) + (
        if hash_in_matching(chs, url, qs.last().hash) {
            Seq::empty()
        } else {
            seq![qs.last()]
        })
    }
}

/// The cascade keeps the remaining quickmark positions increasing.
pub proof fn lemma_qm_after_remove_increasing(
    qs: Seq<QuickmarkV>,
    chs: Seq<ChannelV>,
    url: Seq<char>,
)
    requires
        positions_increasing(qs),
    ensures
        positions_increasing(qm_after_remove(qs, chs, url)),
        forall|i: int| 0 <= i < qm_after_remove(qs, chs, url).len() && qs.len() > 0
            ==> (#[trigger] qm_after_remove(qs, chs, url)[i]).position <= qs.last().position,
    decreases qs.len(),
{
    if qs.len() > 0 {
        let front = qs.drop_last();
        let w = qm_after_remove(qs, chs, url);
        let wf2 = qm_after_remove(front, chs, url);
        lemma_qm_after_remove_increasing(front, chs, url);
        assert forall|i: int, j: int| 0 <= i < j < w.len()
            implies (#[trigger] w[i]).position < (#[trigger] w[j]).position
        by {
            if j < wf2.len() {
                assert(w[i] == wf2[i] && w[j] == wf2[j]);
            } else {
                assert(w[j] == qs.last());
                assert(w[i] == wf2[i]);
                if front.len() > 0 {
                    assert(wf2[i].position <= front.last().position);
                    assert(front.last() == qs[qs.len() - 2]);
                }
            }
        }
        assert forall|i: int| 0 <= i < w.len()
            implies (#[trigger] w[i]).position <= qs.last().position
        by {
            if i < wf2.len() {
                if front.len() > 0 {
                    assert(front.last() == qs[qs.len() - 2]);
                }
            } else {
                assert(w[i] == qs.last());
            }
        }
    }
}

/// Removing channels keeps links and identities pairwise distinct, and
/// every surviving channel is one of the channels it started with.
pub proof fn lemma_chs_keep_wf(chs: Seq<ChannelV>, url: Seq<char>)
    requires
        links_unique(chs),
        hashes_unique(chs),
    ensures
        links_unique(chs_keep(chs, url)),
        hashes_unique(chs_keep(chs, url)),
        forall|i: int| 0 <= i < chs_keep(chs, url).len()
            ==> exists|j: int| 0 <= j < chs.len() && #[trigger] chs_keep(chs, url)[i] == chs[j],
    decreases chs.len(),
{
    if chs.len() > 0 {
        let front = chs.drop_last();
        let kept = chs_keep(chs, url);
        let kf = chs_keep(front, url);
        assert(links_unique(front)) by {
            assert forall|i: int, j: int| 0 <= i < j < front.len()
                implies (#[trigger] front[i]).link != (#[trigger] front[j]).link
            by {
                assert(front[i] == chs[i] && front[j] == chs[j]);
            }
        }
        assert(hashes_unique(front)) by {
            assert forall|i: int, k: int, j: int, l: int|
                0 <= i < front.len() && 0 <= k < front[i].items.len()
                && 0 <= j < front.len() && 0 <= l < front[j].items.len()
                && (i != j || k != l)
                implies (#[trigger] front[i].items[k]).title_or_description_hash
                    != (#[trigger] front[j].items[l]).title_or_description_hash
            by {
                assert(front[i] == chs[i] && front[j] == chs[j]);
            }
        }
        lemma_chs_keep_wf(front, url);
        assert forall|i: int| 0 <= i < kept.len()
            implies exists|j: int| 0 <= j < chs.len() && #[trigger] kept[i] == chs[j]
        by {
            if i < kf.len() {
                assert(kept[i] == kf[i]);
                let j = choose|j: int| 0 <= j < front.len() && kf[i] == front[j];
                assert(kept[i] == chs[j]);
            } else {
                assert(kept[i] == chs.last());
                assert(kept[i] == chs[chs.len() - 1]);
            }
        }
        assert forall|i: int, j: int| 0 <= i < j < kept.len()
            implies (#[trigger] kept[i]).link != (#[trigger] kept[j]).link
        by {
            if j < kf.len() {
                assert(kept[i] == kf[i] && kept[j] == kf[j]);
            } else {
                assert(kept[j] == chs.last());
                assert(kept[i] == kf[i]);
                let a = choose|a: int| 0 <= a < front.len() && kf[i] == front[a];
                assert(front[a] == chs[a]);
                assert(chs[a].link != chs[chs.len() - 1].link);
            }
        }
        assert forall|i: int, k: int, j: int, l: int|
            0 <= i < kept.len() && 0 <= k < kept[i].items.len()
            && 0 <= j < kept.len() && 0 <= l < kept[j].items.len()
            && (i != j || k != l)
            implies (#[trigger] kept[i].items[k]).title_or_description_hash
                != (#[trigger] kept[j].items[l]).title_or_description_hash
        by {
            if i < kf.len() && j < kf.len() {
                assert(kept[i] == kf[i] && kept[j] == kf[j]);
            } else if i < kf.len() && j >= kf.len() {
                assert(kept[j] == chs[chs.len() - 1]);
                assert(kept[i] == kf[i]);
                let a = choose|a: int| 0 <= a < front.len() && kf[i] == front[a];
                assert(front[a] == chs[a]);
                assert(chs[a].items[k].title_or_description_hash
                    != chs[chs.len() - 1].items[l].title_or_description_hash);
            } else if i >= kf.len() && j < kf.len() {
                assert(kept[i] == chs[chs.len() - 1]);
                assert(kept[j] == kf[j]);
                let a = choose|a: int| 0 <= a < front.len() && kf[j] == front[a];
                assert(front[a] == chs[a]);
                assert(chs[chs.len() - 1].items[k].title_or_description_hash
                    != chs[a].items[l].title_or_description_hash);
            } else {
                assert(kept[i] == chs[chs.len() - 1] && kept[j] == chs[chs.len() - 1]);
                assert(i == j && k != l);
                assert(chs[chs.len() - 1].items[k].title_or_description_hash
                    != chs[chs.len() - 1].items[l].title_or_description_hash);
            }
        }
    }
}

/// Find a copy of the item with identity `h` among `items`, scanning from
/// index `k`.
fn item_in_items_from(items: &Vec<Item>, h: &str, k: usize) -> (r: Option<Item>)
    requires
        k <= items@.len(),
    ensures
        r.deep_view() == item_in_items(items.deep_view().skip(k as int), h@),
    decreases items@.len() - k,
{
    if k >= items.len() {
        return None;
    }
    proof {
        assert(items.deep_view()[k as int] == items@[k as int].deep_view());
        assert(items.deep_view().skip(k as int)[0] == items.deep_view()[k as int]);
    }
    if str_eq(items[k].title_or_description_hash.as_str(), h) {
        Some(items[k].duplicate())
    } else {
        let r = item_in_items_from(items, h, k + 1);
        proof {
            assert(items.deep_view().skip(k as int).drop_first()
                =~= items.deep_view().skip((k + 1) as int));
        }
        r
    }
}

/// Find a copy of the item with identity `h` in any channel, scanning
/// channels from index `i`.
fn item_in_chs_from(channels: &Vec<Channel>, h: &str, i: usize) -> (r: Option<Item>)
    requires
        i <= channels@.len(),
    ensures
        r.deep_view() == item_in_chs(channels.deep_view().skip(i as int), h@),
    decreases channels@.len() - i,
{
    if i >= channels.len() {
        return None;
    }
    proof {
        assert(channels.deep_view()[i as int] == channels@[i as int].deep_view());
        assert(channels.deep_view().skip(i as int)[0] == channels.deep_view()[i as int]);
        assert(channels@[i as int].items.deep_view().skip(0)
            =~= channels@[i as int].items.deep_view());
    }
    match item_in_items_from(&channels[i].items, h, 0) {
        Some(it) => Some(it),
        None => {
            let r = item_in_chs_from(channels, h, i + 1);
            proof {
                assert(channels.deep_view().skip(i as int).drop_first()
                    =~= channels.deep_view().skip((i + 1) as int));
            }
            r
        },
    }
}

/// `link` names the same feed as `url`, with the two protocol variants of
/// `url` given as `hu` (`http`) and `su` (`https`).
fn matches_url(link: &str, url: &str, hu: &str, su: &str) -> (r: bool)
    requires
        hu@ == "http://"@ + url@,
        su@ == "https://"@ + url@,
    ensures
        r == matches_feed_url(link@, url@),
{
    str_eq(link, url) || str_eq(link, hu) || str_eq(link, su)
}

/// Decide [`item_le`] on two items.
fn item_le_exec(a: &Item, b: &Item) -> (r: bool)
    ensures
        r == item_le(a@, b@),
{
    let dates_equal = match (&a.pub_date, &b.pub_date) {
        (None, None) => true,
        (Some(x), Some(y)) => x.secs == y.secs && x.nanos == y.nanos,
        _ => false,
    };
    if dates_equal {
        str_lex_le(a.title_or_description_hash.as_str(), b.title_or_description_hash.as_str())
    } else {
        match (&a.pub_date, &b.pub_date) {
            (None, _) => true,
            (Some(_), None) => false,
            (Some(x), Some(y)) => x.secs < y.secs || (x.secs == y.secs && x.nanos < y.nanos),
        }
    }
}

/// The first index of `v` whose item `x` precedes or equals; the length
/// when there is none.
fn insertion_point(v: &Vec<Item>, x: &Item) -> (p: usize)
    ensures
        0 <= p <= v.deep_view().len(),
        forall|q: int| 0 <= q < p ==> !item_le(x@, #[trigger] v.deep_view()[q]),
        p < v.deep_view().len() ==> item_le(x@, v.deep_view()[p as int]),
{
    let mut p: usize = 0;
    while p < v.len()
        invariant
            0 <= p <= v@.len(),
            forall|q: int| 0 <= q < p ==> !item_le(x@, #[trigger] v.deep_view()[q]),
        decreases v@.len() - p,
    {
        proof {
            assert(v.deep_view()[p as int] == v@[p as int].deep_view());
        }
        if item_le_exec(x, &v[p]) {
            return p;
        }
        p = p + 1;
    }
    p
}

/// Insert `x` into the sorted vector `v` at the first admissible place.
fn insert_item_sorted(v: &mut Vec<Item>, x: Item)
    ensures
        final(v).deep_view() == insert_by_key(old(v).deep_view(), x@),
{
    let ghost s = old(v).deep_view();
    let p = insertion_point(v, &x);
    v.insert(p, x);
    proof {
        lemma_insert_by_key_at(s, x@, p as int);
        assert(final(v).deep_view() =~= s.take(p as int) + seq![x@] + s.skip(p as int));
    }
}

/// Sort items by publish date, ties broken by identity hash.
fn sort_items_vec(items: &Vec<Item>) -> (r: Vec<Item>)
    ensures
        r.deep_view() == sort_items(items.deep_view()),
{
    let ghost itemsv = items.deep_view();
    let mut out: Vec<Item> = Vec::new();
    let mut k: usize = 0;
    while k < items.len()
        invariant
            0 <= k <= items@.len(),
            itemsv == items.deep_view(),
            out.deep_view() == sort_items(itemsv.take(k as int)),
        decreases items@.len() - k,
    {
        proof {
            assert(itemsv[k as int] == items@[k as int].deep_view());
            assert(itemsv.take((k + 1) as int).drop_last() =~= itemsv.take(k as int));
            assert(itemsv.take((k + 1) as int).last() == itemsv[k as int]);
        }
        insert_item_sorted(&mut out, items[k].duplicate());
        k = k + 1;
    }
    proof {
        assert(itemsv.take(items@.len() as int) =~= itemsv);
    }
    out
}

impl Database {
    /// An empty store.
    pub fn new() -> (db: Database)
        ensures
            db@.channels.len() == 0,
            db@.quickmarks.len() == 0,
            db_wf(db@),
    {
        Database { channels: Vec::new(), quickmarks: Vec::new() }
    }

    /// The index of the channel with the given link, if one is subscribed.
    pub(crate) fn find_channel(&self, link: &str) -> (r: Option<usize>)
        ensures
            match r {
                Some(ci) => is_link_index(self@.channels, link@, ci as int),
                None => !has_link(self@.channels, link@),
            },
    {
        let mut i: usize = 0;
        while i < self.channels.len()
            invariant
                0 <= i <= self.channels@.len(),
                forall|j: int| 0 <= j < i ==> (#[trigger] self@.channels[j]).link != link@,
            decreases self.channels@.len() - i,
        {
            proof {
                assert(self@.channels[i as int] == self.channels@[i as int].deep_view());
            }
            if str_eq(self.channels[i].link.as_str(), link) {
                return Some(i);
            }
            i = i + 1;
        }
        None
    }

    /// Whether some item in the store carries the identity hash `h`.
    fn contains_item_hash(&self, h: &str) -> (r: bool)
        ensures
            r == chs_have_hash(self@.channels, h@),
    {
        let mut i: usize = 0;
        while i < self.channels.len()
            invariant
                0 <= i <= self.channels@.len(),
                forall|j: int| 0 <= j < i
                    ==> !has_item_hash((#[trigger] self@.channels[j]).items, h@),
            decreases self.channels@.len() - i,
        {
            proof {
                assert(self@.channels[i as int] == self.channels@[i as int].deep_view());
            }
            if contains_hash(&self.channels[i].items, h) {
                return true;
            }
            i = i + 1;
        }
        false
    }

    /// Subscribe a new channel. Its items are not stored here — they are
    /// added separately — so the stored record starts with none. Fails,
    /// changing nothing, when a channel with the same link is already
    /// subscribed.
    pub fn add_channel(&mut self, channel: &Channel) -> (r: Result<(), DbError>)
        requires
            db_wf(old(self)@),
        ensures
            db_wf(final(self)@),
            final(self)@.quickmarks == old(self)@.quickmarks,
            match r {
                Ok(()) => {
                    &&& !has_link(old(self)@.channels, channel@.link)
                    &&& final(self)@.channels == old(self)@.channels.push(ChannelV {
                        items: Seq::empty(),
                        ..channel@
                    })
                },
                Err(e) => {
                    &&& e == DbError::ChannelExists
                    &&& has_link(old(self)@.channels, channel@.link)
                    &&& final(self)@ == old(self)@
                },
            },
    {
        if self.find_channel(channel.link.as_str()).is_some() {
            return Err(DbError::ChannelExists);
        }
        let stored = Channel {
            title: channel.title.clone(),
            link: channel.link.clone(),
            description: channel.description.clone(),
            last_build_date: channel.last_build_date,
            items: Vec::new(),
        };
        let ghost pre = self@.channels;
        self.channels.push(stored);
        proof {
            assert(self@.channels =~~= pre.push(ChannelV { items: Seq::empty(), ..channel@ }));
            assert forall|i: int, j: int| 0 <= i < j < self@.channels.len()
                implies (#[trigger] self@.channels[i]).link != (#[trigger] self@.channels[j]).link
            by {
                if j == self@.channels.len() - 1 {
                    assert(!is_link_index(pre, channel@.link, i));
                }
            }
            assert(hashes_unique(self@.channels)) by {
                assert forall|i: int, k: int, j: int, l: int|
                    0 <= i < self@.channels.len() && 0 <= k < self@.channels[i].items.len()
                    && 0 <= j < self@.channels.len() && 0 <= l < self@.channels[j].items.len()
                    && (i != j || k != l)
                    implies (#[trigger] self@.channels[i].items[k]).title_or_description_hash
                        != (#[trigger] self@.channels[j].items[l]).title_or_description_hash
                by {
                    assert(i < pre.len() && j < pre.len());
                    assert(self@.channels[i] == pre[i] && self@.channels[j] == pre[j]);
                }
            }
        }
        Ok(())
    }

    /// Copies of all subscribed channels, without their items.
    pub fn all_channels(&self) -> (r: Vec<Channel>)
        ensures
            r.deep_view().len() == self@.channels.len(),
            forall|i: int| 0 <= i < self@.channels.len()
                ==> #[trigger] r.deep_view()[i] == (ChannelV {
                    items: Seq::empty(),
                    ..self@.channels[i]
                }),
    {
        let mut out: Vec<Channel> = Vec::new();
        let mut i: usize = 0;
        while i < self.channels.len()
            invariant
                0 <= i <= self.channels@.len(),
                out.deep_view().len() == i,
                forall|j: int| 0 <= j < i
                    ==> #[trigger] out.deep_view()[j] == (ChannelV {
                        items: Seq::empty(),
                        ..self@.channels[j]
                    }),
            decreases self.channels@.len() - i,
        {
            let c = &self.channels[i];
            let ghost prev = out.deep_view();
            proof {
                assert(self@.channels[i as int] == self.channels@[i as int].deep_view());
            }
            out.push(Channel {
                title: c.title.clone(),
                link: c.link.clone(),
                description: c.description.clone(),
                last_build_date: c.last_build_date,
                items: Vec::new(),
            });
            proof {
                assert(out.deep_view() =~~= prev.push(ChannelV {
                    items: Seq::empty(),
                    ..self@.channels[i as int]
                }));
            }
            i = i + 1;
        }
        out
    }

    /// Copies of all subscribed channels, each with its stored items.
    pub fn all_channels_with_items(&self) -> (r: Vec<Channel>)
        ensures
            r.deep_view() == self@.channels,
    {
        let mut out: Vec<Channel> = Vec::new();
        let mut i: usize = 0;
        while i < self.channels.len()
            invariant
                0 <= i <= self.channels@.len(),
                out.deep_view() =~= self@.channels.take(i as int),
            decreases self.channels@.len() - i,
        {
            proof {
                assert(self@.channels[i as int] == self.channels@[i as int].deep_view());
            }
            let c = self.channels[i].duplicate();
            let ghost prev = out.deep_view();
            out.push(c);
            proof {
                assert(out.deep_view() =~= prev.push(self@.channels[i as int]));
                assert(out.deep_view() =~= self@.channels.take((i + 1) as int));
            }
            i = i + 1;
        }
        proof {
            assert(self@.channels.take(self.channels@.len() as int) =~= self@.channels);
        }
        out
    }

    /// Store the genuinely new items of `items` in the channel with the
    /// given link: an item whose identity the store already knows is
    /// skipped — never duplicated, never an error. Returns copies of the
    /// items actually stored, in input order. Fails, changing nothing,
    /// when no such channel is subscribed.
    pub fn add_items(&mut self, link: &str, items: &Vec<Item>) -> (r: Result<
        Vec<Item>,
        DbError,
    >)
        requires
            db_wf(old(self)@),
        ensures
            db_wf(final(self)@),
            final(self)@.quickmarks == old(self)@.quickmarks,
            match r {
                Ok(stored) => {
                    &&& has_link(old(self)@.channels, link@)
                    &&& stored.deep_view() == fresh_filter(old(self)@.channels, items.deep_view())
                    &&& add_items_rel(
                        old(self)@.channels,
                        final(self)@.channels,
                        link@,
                        items.deep_view(),
                    )
                },
                Err(e) => {
                    &&& e == DbError::NoSuchChannel
                    &&& !has_link(old(self)@.channels, link@)
                    &&& final(self)@ == old(self)@
                },
            },
    {
        let ci = match self.find_channel(link) {
            Some(ci) => ci,
            None => {
                return Err(DbError::NoSuchChannel);
            },
        };
        let ghost prec = old(self)@.channels;
        let ghost itemsv = items.deep_view();
        let mut fresh: Vec<Item> = Vec::new();
        let mut k: usize = 0;
        while k < items.len()
            invariant
                0 <= k <= items@.len(),
                self@ == old(self)@,
                itemsv == items.deep_view(),
                prec == old(self)@.channels,
                fresh.deep_view() == fresh_filter(prec, itemsv.take(k as int)),
            decreases items@.len() - k,
        {
            let ghost prev = fresh.deep_view();
            proof {
                assert(itemsv[k as int] == items@[k as int].deep_view());
                assert(itemsv.take((k + 1) as int).drop_last() =~= itemsv.take(k as int));
                assert(itemsv.take((k + 1) as int).last() == itemsv[k as int]);
            }
            let in_db = self.contains_item_hash(items[k].title_or_description_hash.as_str());
            let in_fresh = contains_hash(&fresh, items[k].title_or_description_hash.as_str());
            proof {
                if !in_db {
                    lemma_fresh_filter_has(
                        prec,
                        itemsv.take(k as int),
                        itemsv[k as int].title_or_description_hash,
                    );
                }
            }
            if !in_db && !in_fresh {
                fresh.push(items[k].duplicate());
                proof {
                    assert(fresh.deep_view() =~= prev.push(itemsv[k as int]));
                }
            }
            proof {
                assert(fresh.deep_view() =~= fresh_filter(prec, itemsv.take((k + 1) as int)));
            }
            k = k + 1;
        }
        proof {
            assert(itemsv.take(items@.len() as int) =~= itemsv);
        }
        let stored_copy = duplicate_items(&fresh);
        let ghost freshv = fresh.deep_view();
        let ch = vstd::std_specs::vec::vec_index_mut(&mut self.channels, ci);
        ch.items.append(&mut fresh);
        proof {
            assert(self@.channels[ci as int] == self.channels@[ci as int].deep_view());
            assert(self@.channels[ci as int].items =~= prec[ci as int].items + freshv);
            assert(self@.channels[ci as int] =~= (ChannelV {
                items: prec[ci as int].items + fresh_filter(prec, itemsv),
                ..prec[ci as int]
            }));
            assert forall|j: int| 0 <= j < prec.len() && j != ci implies self@.channels[j]
                == prec[j] by {
                assert(self.channels@[j] == old(self).channels@[j]);
            }
            assert(stored_copy.deep_view() =~= fresh_filter(prec, itemsv));
            assert forall|cj: int| is_link_index(prec, link@, cj)
                implies #[trigger] self@.channels[cj] == (ChannelV {
                    items: prec[cj].items + fresh_filter(prec, itemsv),
                    ..prec[cj]
                })
            by {
                if cj != ci {
                    assert(prec[cj].link == prec[ci as int].link);
                    assert(false);
                }
            }
            assert(add_items_rel(prec, self@.channels, link@, itemsv));
            // well-formedness: links are untouched, and the appended items
            // are fresh and pairwise distinct.
            assert forall|i: int, j: int| 0 <= i < j < self@.channels.len()
                implies (#[trigger] self@.channels[i]).link
                    != (#[trigger] self@.channels[j]).link
            by {
                assert(self@.channels[i].link == prec[i].link);
                assert(self@.channels[j].link == prec[j].link);
            }
            lemma_fresh_filter_wf(prec, itemsv);
            let postc = self@.channels;
            let plen = prec[ci as int].items.len() as int;
            assert forall|i: int, k2: int, j: int, l: int|
                0 <= i < postc.len() && 0 <= k2 < postc[i].items.len()
                && 0 <= j < postc.len() && 0 <= l < postc[j].items.len()
                && (i != j || k2 != l)
                implies (#[trigger] postc[i].items[k2]).title_or_description_hash
                    != (#[trigger] postc[j].items[l]).title_or_description_hash
            by {
                let h1 = postc[i].items[k2].title_or_description_hash;
                let h2 = postc[j].items[l].title_or_description_hash;
                let new1 = i == ci && k2 >= plen;
                let new2 = j == ci && l >= plen;
                if !new1 && !new2 {
                    assert(postc[i].items[k2] == prec[i].items[k2]);
                    assert(postc[j].items[l] == prec[j].items[l]);
                } else if new1 && new2 {
                    assert(postc[i].items[k2] == freshv[k2 - plen]);
                    assert(postc[j].items[l] == freshv[l - plen]);
                } else if new1 && !new2 {
                    assert(postc[i].items[k2] == freshv[k2 - plen]);
                    assert(postc[j].items[l] == prec[j].items[l]);
                    assert(!chs_have_hash(prec, h1));
                    if h1 == h2 {
                        assert(has_item_hash(prec[j].items, h1));
                        assert(chs_have_hash(prec, h1));
                    }
                } else {
                    assert(postc[j].items[l] == freshv[l - plen]);
                    assert(postc[i].items[k2] == prec[i].items[k2]);
                    assert(!chs_have_hash(prec, h2));
                    if h1 == h2 {
                        assert(has_item_hash(prec[i].items, h2));
                        assert(chs_have_hash(prec, h2));
                    }
                }
            }
        }
        Ok(stored_copy)
    }

    /// The stored items of the channel with the given link; a channel that
    /// is not subscribed has none.
    pub fn get_items(&self, channel: &Channel) -> (r: Vec<Item>)
        requires
            db_wf(self@),
        ensures
            forall|ci: int| is_link_index(self@.channels, channel@.link, ci)
                ==> r.deep_view() == self@.channels[ci].items,
            !has_link(self@.channels, channel@.link) ==> r.deep_view().len() == 0,
    {
        match self.find_channel(channel.link.as_str()) {
            Some(ci) => {
                let r = duplicate_items(&self.channels[ci].items);
                proof {
                    assert(self@.channels[ci as int] == self.channels@[ci as int].deep_view());
                    assert forall|cj: int| is_link_index(self@.channels, channel@.link, cj)
                        implies r.deep_view() == self@.channels[cj].items
                    by {
                        assert(r.deep_view() =~= self@.channels[ci as int].items);
                        if cj != ci {
                            assert(false);
                        }
                    }
                }
                r
            },
            None => Vec::new(),
        }
    }

    /// Set the read flag of the item with the given identity hash to
    /// `read_state`. No other item, channel field or quickmark changes.
    /// Fails when no item carries that identity — a sign of a corrupted
    /// key — still changing nothing, since the flag had no item to land
    /// on.
    pub fn mark_as_read(&mut self, hash: &str, read_state: bool) -> (r: Result<(), DbError>)
        requires
            db_wf(old(self)@),
        ensures
            db_wf(final(self)@),
            final(self)@.quickmarks == old(self)@.quickmarks,
            final(self)@.channels == chs_set_read(old(self)@.channels, hash@, read_state),
            r is Ok <==> chs_have_hash(old(self)@.channels, hash@),
            r is Err ==> r == Err::<(), DbError>(DbError::NoSuchItem),
    {
        let ghost prec = old(self)@.channels;
        let mut new_channels: Vec<Channel> = Vec::new();
        let mut found = false;
        let mut ci: usize = 0;
        while ci < self.channels.len()
            invariant
                0 <= ci <= self.channels@.len(),
                self@ == old(self)@,
                prec == old(self)@.channels,
                new_channels.deep_view().len() == ci,
                forall|j: int| 0 <= j < ci
                    ==> #[trigger] new_channels.deep_view()[j] == (ChannelV {
                        items: items_set_read(prec[j].items, hash@, read_state),
                        ..prec[j]
                    }),
                found ==> chs_have_hash(prec, hash@),
                !found ==> forall|j: int| 0 <= j < ci
                    ==> !has_item_hash((#[trigger] prec[j]).items, hash@),
            decreases self.channels@.len() - ci,
        {
            let ch = &self.channels[ci];
            proof {
                assert(prec[ci as int] == self.channels@[ci as int].deep_view());
            }
            let mut new_items: Vec<Item> = Vec::new();
            let mut ch_found = false;
            let mut k: usize = 0;
            while k < ch.items.len()
                invariant
                    0 <= k <= ch.items@.len(),
                    0 <= ci < prec.len(),
                    ch@ == prec[ci as int],
                    new_items.deep_view().len() == k,
                    forall|l: int| 0 <= l < k
                        ==> #[trigger] new_items.deep_view()[l]
                            == item_set_read(prec[ci as int].items[l], hash@, read_state),
                    ch_found ==> has_item_hash(prec[ci as int].items, hash@),
                    !ch_found ==> forall|l: int| 0 <= l < k
                        ==> (#[trigger] prec[ci as int].items[l]).title_or_description_hash
                            != hash@,
                decreases ch.items@.len() - k,
            {
                let it = &ch.items[k];
                let ghost prevn = new_items.deep_view();
                proof {
                    assert(prec[ci as int].items[k as int] == ch.items@[k as int].deep_view());
                }
                if str_eq(it.title_or_description_hash.as_str(), hash) {
                    ch_found = true;
                    new_items.push(Item {
                        title_or_description: it.title_or_description.clone(),
                        title_or_description_hash: it.title_or_description_hash.clone(),
                        link: match &it.link {
                            Some(l) => Some(l.clone()),
                            None => None,
                        },
                        pub_date: it.pub_date,
                        read: read_state,
                    });
                } else {
                    new_items.push(it.duplicate());
                }
                proof {
                    assert(new_items.deep_view() =~= prevn.push(item_set_read(
                        prec[ci as int].items[k as int],
                        hash@,
                        read_state,
                    )));
                }
                k = k + 1;
            }
            let ghost prevc = new_channels.deep_view();
            new_channels.push(Channel {
                title: ch.title.clone(),
                link: ch.link.clone(),
                description: ch.description.clone(),
                last_build_date: ch.last_build_date,
                items: new_items,
            });
            found = found || ch_found;
            proof {
                assert(new_channels.deep_view() =~= prevc.push(ChannelV {
                    items: items_set_read(prec[ci as int].items, hash@, read_state),
                    ..prec[ci as int]
                })) by {
                    assert(new_channels.deep_view().last().items
                        =~= items_set_read(prec[ci as int].items, hash@, read_state));
                    assert(new_channels.deep_view() =~~= prevc.push(ChannelV {
                        items: items_set_read(prec[ci as int].items, hash@, read_state),
                        ..prec[ci as int]
                    }));
                }
            }
            ci = ci + 1;
        }
        self.channels = new_channels;
        proof {
            assert(self@.channels =~= chs_set_read(prec, hash@, read_state));
            if !found {
                assert(!chs_have_hash(prec, hash@));
            }
            lemma_set_read_wf(old(self)@, hash@, read_state);
            assert(final(self)@ =~= (DatabaseV {
                channels: chs_set_read(old(self)@.channels, hash@, read_state),
                ..old(self)@
            }));
        }
        if found {
            Ok(())
        } else {
            Err(DbError::NoSuchItem)
        }
    }

    /// Append a quickmark for each of `items`, in order, numbered from one
    /// past the current maximum position. Existing quickmarks are never
    /// renumbered or removed.
    pub fn generate_quickmarks(&mut self, items: &Vec<Item>)
        requires
            db_wf(old(self)@),
            max_position(old(self)@.quickmarks) + items@.len() <= u64::MAX,
        ensures
            db_wf(final(self)@),
            final(self)@.channels == old(self)@.channels,
            final(self)@.quickmarks == old(self)@.quickmarks + Seq::new(
                items.deep_view().len(),
                |i: int| QuickmarkV {
                    position: (max_position(old(self)@.quickmarks) + 1 + i) as u64,
                    hash: items.deep_view()[i].title_or_description_hash,
                },
            ),
    {
        let base: u64 = if self.quickmarks.len() == 0 {
            0
        } else {
            self.quickmarks[self.quickmarks.len() - 1].position
        };
        proof {
            assert(base == max_position(old(self)@.quickmarks));
            assert forall|i: int| 0 <= i < old(self)@.quickmarks.len()
                implies (#[trigger] old(self)@.quickmarks[i]).position <= base
            by {
                if i < old(self)@.quickmarks.len() - 1 {
                    assert(old(self)@.quickmarks[i].position
                        < old(self)@.quickmarks[old(self)@.quickmarks.len() - 1].position);
                }
            }
        }
        let ghost preq = old(self)@.quickmarks;
        let ghost itemsv = items.deep_view();
        let mut k: usize = 0;
        while k < items.len()
            invariant
                0 <= k <= items@.len(),
                itemsv == items.deep_view(),
                preq == old(self)@.quickmarks,
                base == max_position(preq),
                base + items@.len() <= u64::MAX,
                self@.channels == old(self)@.channels,
                forall|i: int| 0 <= i < preq.len()
                    ==> (#[trigger] preq[i]).position <= base,
                self@.quickmarks =~= preq + Seq::new(
                    k as nat,
                    |i: int| QuickmarkV {
                        position: (base + 1 + i) as u64,
                        hash: itemsv[i].title_or_description_hash,
                    },
                ),
            decreases items@.len() - k,
        {
            let ghost prevq = self@.quickmarks;
            proof {
                assert(itemsv[k as int] == items@[k as int].deep_view());
            }
            self.quickmarks.push(Quickmark {
                position: base + 1 + (k as u64),
                hash: items[k].title_or_description_hash.clone(),
            });
            proof {
                assert(self@.quickmarks =~= prevq.push(QuickmarkV {
                    position: (base + 1 + k as int) as u64,
                    hash: itemsv[k as int].title_or_description_hash,
                }));
                assert(self@.quickmarks =~= preq + Seq::new(
                    (k + 1) as nat,
                    |i: int| QuickmarkV {
                        position: (base + 1 + i) as u64,
                        hash: itemsv[i].title_or_description_hash,
                    },
                ));
            }
            k = k + 1;
        }
        proof {
            let post = self@.quickmarks;
            assert forall|i: int, j: int| 0 <= i < j < post.len()
                implies (#[trigger] post[i]).position < (#[trigger] post[j]).position
            by {
                if j >= preq.len() {
                    assert(post[j].position == (base + 1 + (j - preq.len())) as u64);
                    if i >= preq.len() {
                        assert(post[i].position == (base + 1 + (i - preq.len())) as u64);
                    } else {
                        assert(post[i].position <= base);
                    }
                } else {
                    assert(post[i] == preq[i] && post[j] == preq[j]);
                }
            }
        }
    }

    /// Delete the quickmark of the item with the given identity hash, if
    /// one exists; deleting a hash with no quickmark is a no-op. No other
    /// quickmark and no item is touched.
    pub fn remove_quickmark(&mut self, hash: &str)
        requires
            db_wf(old(self)@),
        ensures
            db_wf(final(self)@),
            final(self)@.channels == old(self)@.channels,
            final(self)@.quickmarks == qm_without_hash(old(self)@.quickmarks, hash@),
    {
        let ghost preq = old(self)@.quickmarks;
        let mut kept: Vec<Quickmark> = Vec::new();
        let mut i: usize = 0;
        while i < self.quickmarks.len()
            invariant
                0 <= i <= self.quickmarks@.len(),
                self@ == old(self)@,
                preq == old(self)@.quickmarks,
                kept.deep_view() == qm_without_hash(preq.take(i as int), hash@),
            decreases self.quickmarks@.len() - i,
        {
            let q = &self.quickmarks[i];
            let ghost prevk = kept.deep_view();
            proof {
                assert(preq[i as int] == self.quickmarks@[i as int].deep_view());
                assert(preq.take((i + 1) as int).drop_last() =~= preq.take(i as int));
                assert(preq.take((i + 1) as int).last() == preq[i as int]);
            }
            if !str_eq(q.hash.as_str(), hash) {
                kept.push(Quickmark { position: q.position, hash: q.hash.clone() });
                proof {
                    assert(kept.deep_view() =~= prevk.push(preq[i as int]));
                }
            }
            proof {
                assert(kept.deep_view() =~= qm_without_hash(preq.take((i + 1) as int), hash@));
            }
            i = i + 1;
        }
        proof {
            assert(preq.take(preq.len() as int) =~= preq);
        }
        self.quickmarks = kept;
        proof {
            lemma_qm_without_hash_increasing(preq, hash@);
        }
    }

    /// Copies of all items not yet read, channel by channel, in stored
    /// order.
    pub fn all_unmarked_items(&self) -> (r: Vec<Item>)
        ensures
            r.deep_view() == unread_in_channels(self@.channels),
    {
        let mut out: Vec<Item> = Vec::new();
        let mut ci: usize = 0;
        while ci < self.channels.len()
            invariant
                0 <= ci <= self.channels@.len(),
                out.deep_view() == unread_in_channels(self@.channels.take(ci as int)),
            decreases self.channels@.len() - ci,
        {
            let ch = &self.channels[ci];
            proof {
                assert(self@.channels[ci as int] == self.channels@[ci as int].deep_view());
            }
            let mut k: usize = 0;
            while k < ch.items.len()
                invariant
                    0 <= k <= ch.items@.len(),
                    0 <= ci < self@.channels.len(),
                    ch@ == self@.channels[ci as int],
                    out.deep_view() == unread_in_channels(self@.channels.take(ci as int))
                        + unread_of_items(self@.channels[ci as int].items.take(k as int)),
                decreases ch.items@.len() - k,
            {
                let ghost itemsv = self@.channels[ci as int].items;
                let ghost prev = out.deep_view();
                proof {
                    assert(itemsv[k as int] == ch.items@[k as int].deep_view());
                    assert(itemsv.take((k + 1) as int).drop_last() =~= itemsv.take(k as int));
                    assert(itemsv.take((k + 1) as int).last() == itemsv[k as int]);
                }
                if !ch.items[k].read {
                    out.push(ch.items[k].duplicate());
                    proof {
                        assert(out.deep_view() =~= prev.push(itemsv[k as int]));
                    }
                }
                proof {
                    assert(out.deep_view() =~= unread_in_channels(self@.channels.take(ci as int))
                        + unread_of_items(itemsv.take((k + 1) as int)));
                }
                k = k + 1;
            }
            proof {
                let chs = self@.channels;
                assert(chs[ci as int].items.take(ch.items@.len() as int) =~= chs[ci as int].items);
                assert(chs.take((ci + 1) as int).drop_last() =~= chs.take(ci as int));
                assert(chs.take((ci + 1) as int).last() == chs[ci as int]);
                assert(out.deep_view() =~= unread_in_channels(chs.take((ci + 1) as int)));
            }
            ci = ci + 1;
        }
        proof {
            assert(self@.channels.take(self.channels@.len() as int) =~= self@.channels);
        }
        out
    }

    /// Delete every quickmark and renumber from 1: the unread items, in
    /// publish-date order with ties broken by identity, get positions
    /// `1..=N`. Prior numbering has no effect on the outcome.
    pub fn reset_quickmarks(&mut self)
        requires
            db_wf(old(self)@),
        ensures
            db_wf(final(self)@),
            final(self)@.channels == old(self)@.channels,
            final(self)@.quickmarks == quickmarks_for(sort_items(unread_in_channels(
                old(self)@.channels,
            ))),
    {
        let unread = self.all_unmarked_items();
        let sorted = sort_items_vec(&unread);
        let ghost sortedv = sorted.deep_view();
        self.quickmarks = Vec::new();
        let mut k: usize = 0;
        while k < sorted.len()
            invariant
                0 <= k <= sorted@.len(),
                sortedv == sorted.deep_view(),
                self@.channels == old(self)@.channels,
                self@.quickmarks.len() == k,
                forall|j: int| 0 <= j < k ==> #[trigger] self@.quickmarks[j] == (QuickmarkV {
                    position: (j + 1) as u64,
                    hash: sortedv[j].title_or_description_hash,
                }),
            decreases sorted@.len() - k,
        {
            let ghost prevq = self@.quickmarks;
            proof {
                assert(sortedv[k as int] == sorted@[k as int].deep_view());
            }
            self.quickmarks.push(Quickmark {
                position: (k + 1) as u64,
                hash: sorted[k].title_or_description_hash.clone(),
            });
            proof {
                assert(self@.quickmarks =~= prevq.push(QuickmarkV {
                    position: (k + 1) as u64,
                    hash: sortedv[k as int].title_or_description_hash,
                }));
            }
            k = k + 1;
        }
        proof {
            assert(final(self)@.quickmarks =~= quickmarks_for(sortedv));
        }
    }

    /// The hash `h` belongs to an item of a channel that `url` names.
    fn hash_in_removed(&self, url: &str, hu: &str, su: &str, h: &str) -> (r: bool)
        requires
            hu@ == "http://"@ + url@,
            su@ == "https://"@ + url@,
        ensures
            r == hash_in_matching(self@.channels, url@, h@),
    {
        let mut i: usize = 0;
        while i < self.channels.len()
            invariant
                0 <= i <= self.channels@.len(),
                hu@ == "http://"@ + url@,
                su@ == "https://"@ + url@,
                forall|j: int| 0 <= j < i
                    ==> !(matches_feed_url((#[trigger] self@.channels[j]).link, url@)
                        && has_item_hash(self@.channels[j].items, h@)),
            decreases self.channels@.len() - i,
        {
            proof {
                assert(self@.channels[i as int] == self.channels@[i as int].deep_view());
            }
            if matches_url(self.channels[i].link.as_str(), url, hu, su)
                && contains_hash(&self.channels[i].items, h) {
                return true;
            }
            i = i + 1;
        }
        false
    }

    /// Remove the feed `feed_url` — under any protocol spelling — with all
    /// of its items and their quickmarks. Other feeds and their quickmarks
    /// are untouched. Exactly one channel is expected to match; zero or
    /// several are reported, after the removal has taken effect.
    pub fn remove_channel(&mut self, feed_url: &str) -> (r: Result<(), DbError>)
        requires
            db_wf(old(self)@),
        ensures
            db_wf(final(self)@),
            final(self)@.channels == chs_keep(old(self)@.channels, feed_url@),
            final(self)@.quickmarks == qm_after_remove(
                old(self)@.quickmarks,
                old(self)@.channels,
                feed_url@,
            ),
            match r {
                Ok(()) => match_count(old(self)@.channels, feed_url@) == 1,
                Err(e) => (e == DbError::NoSuchChannel
                    && match_count(old(self)@.channels, feed_url@) == 0)
                    || (e == DbError::MultipleChannels
                        && match_count(old(self)@.channels, feed_url@) >= 2),
            },
    {
        let mut hu = String::from_str("http://");
        hu.append(feed_url);
        let mut su = String::from_str("https://");
        su.append(feed_url);
        let ghost prec = old(self)@.channels;
        let ghost preq = old(self)@.quickmarks;
        let mut kept_q: Vec<Quickmark> = Vec::new();
        let mut qi: usize = 0;
        while qi < self.quickmarks.len()
            invariant
                0 <= qi <= self.quickmarks@.len(),
                self@ == old(self)@,
                prec == old(self)@.channels,
                preq == old(self)@.quickmarks,
                hu@ == "http://"@ + feed_url@,
                su@ == "https://"@ + feed_url@,
                kept_q.deep_view() == qm_after_remove(preq.take(qi as int), prec, feed_url@),
            decreases self.quickmarks@.len() - qi,
        {
            let ghost prevk = kept_q.deep_view();
            proof {
                assert(preq[qi as int] == self.quickmarks@[qi as int].deep_view());
                assert(preq.take((qi + 1) as int).drop_last() =~= preq.take(qi as int));
                assert(preq.take((qi + 1) as int).last() == preq[qi as int]);
            }
            let gone = self.hash_in_removed(
                feed_url,
                hu.as_str(),
                su.as_str(),
                self.quickmarks[qi].hash.as_str(),
            );
            if !gone {
                let q = &self.quickmarks[qi];
                kept_q.push(Quickmark { position: q.position, hash: q.hash.clone() });
                proof {
                    assert(kept_q.deep_view() =~= prevk.push(preq[qi as int]));
                }
            }
            proof {
                assert(kept_q.deep_view() =~= qm_after_remove(
                    preq.take((qi + 1) as int),
                    prec,
                    feed_url@,
                ));
            }
            qi = qi + 1;
        }
        let mut kept_c: Vec<Channel> = Vec::new();
        let mut count: usize = 0;
        let mut ci: usize = 0;
        while ci < self.channels.len()
            invariant
                0 <= ci <= self.channels@.len(),
                self@ == old(self)@,
                prec == old(self)@.channels,
                hu@ == "http://"@ + feed_url@,
                su@ == "https://"@ + feed_url@,
                kept_c.deep_view() == chs_keep(prec.take(ci as int), feed_url@),
                count == match_count(prec.take(ci as int), feed_url@),
                count <= ci,
            decreases self.channels@.len() - ci,
        {
            let ch = &self.channels[ci];
            let ghost prevc = kept_c.deep_view();
            proof {
                assert(prec[ci as int] == self.channels@[ci as int].deep_view());
                assert(prec.take((ci + 1) as int).drop_last() =~= prec.take(ci as int));
                assert(prec.take((ci + 1) as int).last() == prec[ci as int]);
            }
            if matches_url(ch.link.as_str(), feed_url, hu.as_str(), su.as_str()) {
                count = count + 1;
            } else {
                kept_c.push(ch.duplicate());
                proof {
                    assert(kept_c.deep_view() =~= prevc.push(prec[ci as int]));
                }
            }
            proof {
                assert(kept_c.deep_view() =~= chs_keep(prec.take((ci + 1) as int), feed_url@));
            }
            ci = ci + 1;
        }
        proof {
            assert(preq.take(preq.len() as int) =~= preq);
            assert(prec.take(prec.len() as int) =~= prec);
        }
        self.channels = kept_c;
        self.quickmarks = kept_q;
        proof {
            lemma_chs_keep_wf(prec, feed_url@);
            lemma_qm_after_remove_increasing(preq, prec, feed_url@);
        }
        if count == 1 {
            Ok(())
        } else if count == 0 {
            Err(DbError::NoSuchChannel)
        } else {
            Err(DbError::MultipleChannels)
        }
    }

    /// Every unread item that has a quickmark, paired with its position,
    /// in ascending position order.
    pub fn all_unmarked_items_with_quickmarks(&self) -> (r: Vec<(Item, u64)>)
        ensures
            r.deep_view() == pairs_for(self@.channels, self@.quickmarks),
    {
        let mut out: Vec<(Item, u64)> = Vec::new();
        let mut qi: usize = 0;
        while qi < self.quickmarks.len()
            invariant
                0 <= qi <= self.quickmarks@.len(),
                out.deep_view() == pairs_for(self@.channels, self@.quickmarks.take(qi as int)),
            decreases self.quickmarks@.len() - qi,
        {
            let q = &self.quickmarks[qi];
            let ghost prev = out.deep_view();
            proof {
                assert(self@.quickmarks[qi as int] == self.quickmarks@[qi as int].deep_view());
                assert(self@.quickmarks.take((qi + 1) as int).drop_last()
                    =~= self@.quickmarks.take(qi as int));
                assert(self@.quickmarks.take((qi + 1) as int).last()
                    == self@.quickmarks[qi as int]);
                assert(self.channels.deep_view().skip(0) =~= self@.channels);
            }
            match item_in_chs_from(&self.channels, q.hash.as_str(), 0) {
                Some(it) => {
                    if !it.read {
                        let ghost itv = it@;
                        let pos = q.position;
                        out.push((it, pos));
                        proof {
                            assert(out.deep_view() =~= prev.push((
                                itv,
                                self@.quickmarks[qi as int].position,
                            )));
                        }
                    }
                },
                None => {},
            }
            proof {
                assert(out.deep_view() =~= pairs_for(
                    self@.channels,
                    self@.quickmarks.take((qi + 1) as int),
                ));
            }
            qi = qi + 1;
        }
        proof {
            assert(self@.quickmarks.take(self.quickmarks@.len() as int) =~= self@.quickmarks);
        }
        out
    }

    /// The index of the quickmark carrying the given position, if any.
    fn find_quickmark(&self, mark: u64) -> (r: Option<usize>)
        ensures
            match r {
                Some(qi) => is_position_index(self@.quickmarks, mark, qi as int),
                None => !has_position(self@.quickmarks, mark),
            },
    {
        let mut i: usize = 0;
        while i < self.quickmarks.len()
            invariant
                0 <= i <= self.quickmarks@.len(),
                forall|j: int| 0 <= j < i ==> (#[trigger] self@.quickmarks[j]).position != mark,
            decreases self.quickmarks@.len() - i,
        {
            proof {
                assert(self@.quickmarks[i as int] == self.quickmarks@[i as int].deep_view());
            }
            if self.quickmarks[i].position == mark {
                return Some(i);
            }
            i = i + 1;
        }
        None
    }

    /// Mark the item a quickmark position names as read, and delete that
    /// quickmark. A position no quickmark carries is reported as a
    /// failure, changing nothing — marking by a stale position must never
    /// land on a different item.
    pub fn mark_as_read_with_quickmark(&mut self, mark: u64) -> (r: Result<(), DbError>)
        requires
            db_wf(old(self)@),
        ensures
            db_wf(final(self)@),
            match r {
                Ok(()) => has_position(old(self)@.quickmarks, mark) && forall|qi: int|
                    is_position_index(old(self)@.quickmarks, mark, qi)
                    ==> final(self)@.channels == chs_set_read(
                        old(self)@.channels,
                        (#[trigger] old(self)@.quickmarks[qi]).hash,
                        true,
                    ) && final(self)@.quickmarks == old(self)@.quickmarks.remove(qi),
                Err(e) => {
                    &&& e == DbError::NoSuchQuickmark
                    &&& !has_position(old(self)@.quickmarks, mark)
                    &&& final(self)@ == old(self)@
                },
            },
    {
        let ghost preq = old(self)@.quickmarks;
        let qi = match self.find_quickmark(mark) {
            Some(qi) => qi,
            None => {
                return Err(DbError::NoSuchQuickmark);
            },
        };
        proof {
            assert(preq[qi as int] == self.quickmarks@[qi as int].deep_view());
        }
        let hash = self.quickmarks[qi].hash.clone();
        proof {
            assert(hash@ == preq[qi as int].hash);
        }
        let _ = self.mark_as_read(hash.as_str(), true);
        let ghost mid = self@;
        self.quickmarks.remove(qi);
        proof {
            assert(self@.quickmarks =~= mid.quickmarks.remove(qi as int));
            assert(mid.quickmarks == preq);
            let post = self@.quickmarks;
            assert forall|i: int, j: int| 0 <= i < j < post.len()
                implies (#[trigger] post[i]).position < (#[trigger] post[j]).position
            by {
                let i0: int = if i < qi { i } else { i + 1 };
                let j0: int = if j < qi { j } else { j + 1 };
                assert(post[i] == preq[i0] && post[j] == preq[j0]);
            }
            assert forall|qj: int| is_position_index(preq, mark, qj)
                implies qj == qi by {
                if qj != qi {
                    assert(preq[qj].position == preq[qi as int].position);
                }
            }
        }
        Ok(())
    }
}

} // verus!
