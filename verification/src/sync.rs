//! The synchronizer: decide what is new in a freshly fetched feed.
//!
//! A fetched channel is compared against the stored snapshot of the same
//! feed. When both carry a build date and the stored one is no older, the
//! feed is skipped outright without looking at entries — the source's
//! self-reported build date is trusted to be monotonic, a documented risk:
//! a feed that reuses or regresses its stamp will have genuinely new
//! entries missed, and that behavior is kept as is. Otherwise the new
//! entries are exactly those whose identity hash no stored entry carries.

use vstd::prelude::*;
use crate::rss::{contains_hash, has_item_hash, Channel, Item, ItemV};
use crate::time::{ts_le, Timestamp};

verus! {

/// What synchronizing one channel produced: nothing, or the entries that
/// are genuinely new.
#[derive(Debug)]
pub enum SyncOutcome {
    /// The feed needs no processing: it announced no newer build date, or
    /// it contained no unknown entries.
    NoChange,
    /// The entries of the fetched channel that the stored one lacks, in
    /// fetched order.
    NewEntries(Vec<Item>),
}

/// The stored channel is already at least as recent as the fetched one,
/// going by the build dates both announce; without both dates there is no
/// fast skip.
pub open spec fn build_date_skip(stored: Option<Timestamp>, fetched: Option<Timestamp>) -> bool {
    match (fetched, stored) {
        (Some(theirs), Some(ours)) => ts_le(theirs, ours),
        _ => false,
    }
}

/// The entries of `fetched` whose identity no entry of `stored` carries,
/// in fetched order.
pub open spec fn new_entries_of(stored: Seq<ItemV>, fetched: Seq<ItemV>) -> Seq<ItemV>
    decreases fetched.len(),
{
    if fetched.len() == 0 {
        Seq::empty()
    } else {
        new_entries_of(stored, fetched.drop_last()) + (
        if has_item_hash(stored, fetched.last().title_or_description_hash) {
            Seq::empty()
        } else {
            seq![fetched.last()]
        })
    }
}

/// At most every fetched entry is new.
pub proof fn lemma_new_entries_len(stored: Seq<ItemV>, fetched: Seq<ItemV>)
    ensures
        new_entries_of(stored, fetched).len() <= fetched.len(),
    decreases fetched.len(),
{
    if fetched.len() > 0 {
        lemma_new_entries_len(stored, fetched.drop_last());
    }
}

/// Compare a freshly fetched channel against the stored snapshot of the
/// same feed and report exactly the new entries, or that nothing changed.
pub fn synchronize(stored: &Channel, fetched: Channel) -> (r: SyncOutcome)
    ensures
        match r {
            SyncOutcome::NoChange => build_date_skip(stored.last_build_date, fetched.last_build_date)
                || new_entries_of(stored@.items, fetched@.items).len() == 0,
            SyncOutcome::NewEntries(v) => {
                &&& !build_date_skip(stored.last_build_date, fetched.last_build_date)
                &&& v.deep_view() == new_entries_of(stored@.items, fetched@.items)
                &&& v@.len() > 0
            },
        },
{
    match (&fetched.last_build_date, &stored.last_build_date) {
        (Some(theirs), Some(ours)) => {
            if theirs.le(ours) {
                return SyncOutcome::NoChange;
            }
        },
        _ => {},
    }
    let mut new_items: Vec<Item> = Vec::new();
    let mut i: usize = 0;
    while i < fetched.items.len()
        invariant
            0 <= i <= fetched.items@.len(),
            new_items.deep_view() == new_entries_of(stored@.items, fetched@.items.take(i as int)),
        decreases fetched.items@.len() - i,
    {
        let ghost prev = new_items.deep_view();
        proof {
            assert(fetched@.items[i as int] == fetched.items@[i as int].deep_view());
            assert(fetched@.items.take((i + 1) as int).drop_last() =~= fetched@.items.take(i as int));
            assert(fetched@.items.take((i + 1) as int).last() == fetched@.items[i as int]);
        }
        if !contains_hash(&stored.items, fetched.items[i].title_or_description_hash.as_str()) {
            new_items.push(fetched.items[i].duplicate());
            proof {
                assert(new_items.deep_view() =~= prev.push(fetched@.items[i as int]));
            }
        }
        proof {
            assert(new_items.deep_view() =~= new_entries_of(
                stored@.items,
                fetched@.items.take((i + 1) as int),
            ));
        }
        i = i + 1;
    }
    proof {
        assert(fetched@.items.take(fetched.items@.len() as int) =~= fetched@.items);
    }
    if new_items.len() == 0 {
        SyncOutcome::NoChange
    } else {
        SyncOutcome::NewEntries(new_items)
    }
}

} // verus!
