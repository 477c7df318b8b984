//! The commands of the reader, as verified store transformations.
//!
//! Each function here is the decision-and-update core of one user-facing
//! command: subscribing to a feed, applying a synchronization result,
//! listing unread items, and the marking commands. Fetching, parsing raw
//! bytes and printing happen outside; these functions take and return
//! plain values.

use vstd::prelude::*;
use crate::db::{
    add_items_rel, appended_quickmarks, chs_have_hash, chs_set_read, db_wf, fresh_filter,
    has_link, has_position, hashes_unique, is_link_index, is_position_index,
    lemma_fresh_filter_len, lemma_fresh_filter_same_hashes, links_unique, max_position,
    pairs_for, qm_without_hash, quickmarks_for, sort_items, unread_in_channels, unread_of_items,
    Database, DatabaseV, DbError, QuickmarkV,
};
use crate::rss::{has_item_hash, Channel, ChannelV, Item, ItemV};
use crate::sync::{build_date_skip, lemma_new_entries_len, new_entries_of, synchronize, SyncOutcome};
use crate::time::Timestamp;

verus! {

/// The stored form of a freshly subscribed channel: it keeps the link the
/// user actually reached the feed through — not the feed's self-declared
/// one — falls back to the subscription time when the feed announced no
/// build date, and starts with no stored items.
pub open spec fn subscribed_channel(
    channel: ChannelV,
    working_link: Seq<char>,
    now: Timestamp,
) -> ChannelV {
    ChannelV {
        link: working_link,
        last_build_date: match channel.last_build_date {
            Some(d) => Some(d),
            None => Some(now),
        },
        items: Seq::empty(),
        ..channel
    }
}

/// Subscribe to a freshly parsed channel: store it under `working_link`,
/// store its genuinely new items, and append quickmarks for exactly
/// those. Fails, changing nothing, when the link is already subscribed —
/// a failed subscription commits nothing.
pub fn subscribe(db: &mut Database, channel: Channel, working_link: String, now: Timestamp) -> (r:
    Result<(), DbError>)
    requires
        db_wf(old(db)@),
        max_position(old(db)@.quickmarks) + channel@.items.len() <= u64::MAX,
    ensures
        db_wf(final(db)@),
        match r {
            Err(e) => {
                &&& e == DbError::ChannelExists
                &&& has_link(old(db)@.channels, working_link@)
                &&& final(db)@ == old(db)@
            },
            Ok(()) => {
                &&& !has_link(old(db)@.channels, working_link@)
                &&& final(db)@.channels == old(db)@.channels.push(ChannelV {
                    items: fresh_filter(old(db)@.channels, channel@.items),
                    ..subscribed_channel(channel@, working_link@, now)
                })
                &&& final(db)@.quickmarks == appended_quickmarks(
                    old(db)@.quickmarks,
                    fresh_filter(old(db)@.channels, channel@.items),
                )
            },
        },
{
    let mut ch = channel;
    ch.link = working_link;
    if ch.last_build_date.is_none() {
        ch.last_build_date = Some(now);
    }
    proof {
        assert(ch@ =~= (ChannelV {
            items: channel@.items,
            ..subscribed_channel(channel@, working_link@, now)
        }));
    }
    match db.add_channel(&ch) {
        Err(e) => {
            return Err(e);
        },
        Ok(()) => {},
    }
    let ghost mid = db@;
    proof {
        assert(mid.channels =~= old(db)@.channels.push(subscribed_channel(
            channel@,
            working_link@,
            now,
        )));
        assert forall|h: Seq<char>| #[trigger] chs_have_hash(mid.channels, h) == chs_have_hash(
            old(db)@.channels,
            h,
        ) by {
            if chs_have_hash(mid.channels, h) {
                let i = choose|i: int|
                    0 <= i < mid.channels.len() && has_item_hash(
                        (#[trigger] mid.channels[i]).items,
                        h,
                    );
                if i == mid.channels.len() - 1 {
                    assert(mid.channels[i].items.len() == 0);
                } else {
                    assert(has_item_hash(old(db)@.channels[i].items, h));
                    assert(chs_have_hash(old(db)@.channels, h));
                }
            }
            if chs_have_hash(old(db)@.channels, h) {
                let i = choose|i: int|
                    0 <= i < old(db)@.channels.len() && has_item_hash(
                        (#[trigger] old(db)@.channels[i]).items,
                        h,
                    );
                assert(has_item_hash(mid.channels[i].items, h));
            }
        }
        lemma_fresh_filter_same_hashes(mid.channels, old(db)@.channels, channel@.items);
        assert(is_link_index(mid.channels, working_link@, mid.channels.len() - 1));
    }
    let inserted = match db.add_items(ch.link.as_str(), &ch.items) {
        Ok(v) => v,
        // The channel was just stored under this link, so the insertion
        // cannot miss it.
        Err(_) => unreached(),
    };
    proof {
        let ci = mid.channels.len() - 1;
        assert(db@.channels[ci] == (ChannelV {
            items: mid.channels[ci].items + fresh_filter(mid.channels, channel@.items),
            ..mid.channels[ci]
        }));
        assert(mid.channels[ci].items + fresh_filter(mid.channels, channel@.items)
            =~= fresh_filter(old(db)@.channels, channel@.items));
        assert forall|j: int| 0 <= j < old(db)@.channels.len() implies db@.channels[j]
            == old(db)@.channels[j] by {
            assert(mid.channels[j] == old(db)@.channels[j]);
            assert(!is_link_index(old(db)@.channels, working_link@, j));
            assert(mid.channels[j].link != working_link@);
        }
        assert(db@.channels =~= old(db)@.channels.push(ChannelV {
            items: fresh_filter(old(db)@.channels, channel@.items),
            ..subscribed_channel(channel@, working_link@, now)
        }));
        lemma_fresh_filter_len(mid.channels, channel@.items);
    }
    db.generate_quickmarks(&inserted);
    proof {
        assert(final(db)@.quickmarks =~= appended_quickmarks(
            old(db)@.quickmarks,
            fresh_filter(old(db)@.channels, channel@.items),
        ));
    }
    Ok(())
}

/// Apply one channel's synchronization: compare the fetched channel
/// against the stored snapshot under `stored_link`, store what is
/// genuinely new, and append quickmarks for it. Returns the items
/// actually stored, in fetched order — empty when the build-date fast
/// skip fired or nothing was new.
pub fn apply_update(db: &mut Database, stored_link: &str, fetched: Channel) -> (r: Result<
    Vec<Item>,
    DbError,
>)
    requires
        db_wf(old(db)@),
        max_position(old(db)@.quickmarks) + fetched@.items.len() <= u64::MAX,
    ensures
        db_wf(final(db)@),
        match r {
            Err(e) => {
                &&& e == DbError::NoSuchChannel
                &&& !has_link(old(db)@.channels, stored_link@)
                &&& final(db)@ == old(db)@
            },
            Ok(new_items) => has_link(old(db)@.channels, stored_link@) && (forall|ci: int|
                is_link_index(old(db)@.channels, stored_link@, ci) ==> (
                if build_date_skip(
                    (#[trigger] old(db)@.channels[ci]).last_build_date,
                    fetched@.last_build_date,
                ) || new_entries_of(old(db)@.channels[ci].items, fetched@.items).len() == 0 {
                    final(db)@ == old(db)@ && new_items.deep_view().len() == 0
                } else {
                    new_items.deep_view() == fresh_filter(
                        old(db)@.channels,
                        new_entries_of(old(db)@.channels[ci].items, fetched@.items),
                    ) && add_items_rel(
                        old(db)@.channels,
                        final(db)@.channels,
                        stored_link@,
                        new_entries_of(old(db)@.channels[ci].items, fetched@.items),
                    ) && final(db)@.quickmarks == appended_quickmarks(
                        old(db)@.quickmarks,
                        new_items.deep_view(),
                    )
                })),
        },
{
    let ci = match db.find_channel(stored_link) {
        Some(ci) => ci,
        None => {
            return Err(DbError::NoSuchChannel);
        },
    };
    proof {
        assert(db@.channels[ci as int] == db.channels@[ci as int].deep_view());
    }
    let outcome = synchronize(&db.channels[ci], fetched);
    match outcome {
        SyncOutcome::NoChange => {
            let r: Vec<Item> = Vec::new();
            proof {
                assert forall|cj: int| is_link_index(old(db)@.channels, stored_link@, cj)
                    implies cj == ci as int by {
                    if cj != ci as int {
                        assert(old(db)@.channels[cj].link == old(db)@.channels[ci as int].link);
                    }
                }
            }
            Ok(r)
        },
        SyncOutcome::NewEntries(list) => {
            proof {
                lemma_new_entries_len(old(db)@.channels[ci as int].items, fetched@.items);
            }
            let inserted = match db.add_items(stored_link, &list) {
                Ok(v) => v,
                // The channel was found above and nothing removed it, so
                // the insertion cannot miss it.
                Err(_) => unreached(),
            };
            proof {
                lemma_fresh_filter_len(old(db)@.channels, list.deep_view());
            }
            db.generate_quickmarks(&inserted);
            proof {
                assert(final(db)@.quickmarks =~= appended_quickmarks(
                    old(db)@.quickmarks,
                    inserted.deep_view(),
                ));
                assert forall|cj: int| is_link_index(old(db)@.channels, stored_link@, cj)
                    implies cj == ci as int by {
                    if cj != ci as int {
                        assert(old(db)@.channels[cj].link == old(db)@.channels[ci as int].link);
                    }
                }
            }
            Ok(inserted)
        },
    }
}

/// What marking one identity as read does to the store: the item's read
/// flag is set and its quickmark — if any — is deleted.
pub open spec fn mark_step(db: DatabaseV, h: Seq<char>) -> DatabaseV {
    DatabaseV {
        channels: chs_set_read(db.channels, h, true),
        quickmarks: qm_without_hash(db.quickmarks, h),
    }
}

/// [`mark_step`] applied for each hash, left to right.
pub open spec fn mark_fold(db: DatabaseV, hashes: Seq<Seq<char>>) -> DatabaseV
    decreases hashes.len(),
{
    if hashes.len() == 0 {
        db
    } else {
        mark_fold(mark_step(db, hashes[0]), hashes.drop_first())
    }
}

/// One more hash extends the fold by one step.
pub proof fn lemma_mark_fold_push(db: DatabaseV, hashes: Seq<Seq<char>>, h: Seq<char>)
    ensures
        mark_fold(db, hashes.push(h)) == mark_step(mark_fold(db, hashes), h),
    decreases hashes.len(),
{
    reveal_with_fuel(mark_fold, 3);
    if hashes.len() == 0 {
        assert(hashes.push(h)[0] == h);
        assert(hashes.push(h).drop_first() =~= Seq::<Seq<char>>::empty());
        assert(mark_fold(db, hashes.push(h)) == mark_fold(
            mark_step(db, h),
            hashes.push(h).drop_first(),
        ));
    } else {
        assert(hashes.push(h)[0] == hashes[0]);
        assert(hashes.push(h).drop_first() =~= hashes.drop_first().push(h));
        lemma_mark_fold_push(mark_step(db, hashes[0]), hashes.drop_first(), h);
    }
}

/// Marking changes read flags only, never which identities exist.
pub proof fn lemma_mark_step_keeps_hashes(db: DatabaseV, h: Seq<char>, x: Seq<char>)
    ensures
        chs_have_hash(mark_step(db, h).channels, x) == chs_have_hash(db.channels, x),
{
    let post = mark_step(db, h).channels;
    if chs_have_hash(db.channels, x) {
        let i = choose|i: int|
            0 <= i < db.channels.len() && has_item_hash((#[trigger] db.channels[i]).items, x);
        let k = choose|k: int|
            0 <= k < db.channels[i].items.len() && (#[trigger] db.channels[i].items[k])
                .title_or_description_hash == x;
        assert(post[i].items[k].title_or_description_hash == x);
        assert(has_item_hash(post[i].items, x));
    }
    if chs_have_hash(post, x) {
        let i = choose|i: int|
            0 <= i < post.len() && has_item_hash((#[trigger] post[i]).items, x);
        let k = choose|k: int|
            0 <= k < post[i].items.len() && (#[trigger] post[i].items[k]).title_or_description_hash
                == x;
        assert(db.channels[i].items[k].title_or_description_hash == x);
        assert(has_item_hash(db.channels[i].items, x));
    }
}

/// Neither does a whole fold of markings.
pub proof fn lemma_mark_fold_keeps_hashes(db: DatabaseV, hashes: Seq<Seq<char>>, x: Seq<char>)
    ensures
        chs_have_hash(mark_fold(db, hashes).channels, x) == chs_have_hash(db.channels, x),
    decreases hashes.len(),
{
    if hashes.len() > 0 {
        lemma_mark_step_keeps_hashes(db, hashes[0], x);
        lemma_mark_fold_keeps_hashes(mark_step(db, hashes[0]), hashes.drop_first(), x);
    }
}

/// `k` is the first index of `hashes` whose identity the store lacks.
pub open spec fn is_first_missing(chs: Seq<ChannelV>, hashes: Seq<Seq<char>>, k: int) -> bool {
    &&& 0 <= k < hashes.len()
    &&& !chs_have_hash(chs, hashes[k])
    &&& forall|j: int| 0 <= j < k ==> chs_have_hash(chs, #[trigger] hashes[j])
}

/// Mark each given identity as read, deleting its quickmark, in order.
/// The batch stops at the first identity the store lacks — everything
/// before it stays marked — and reports it.
pub fn mark(db: &mut Database, hashes: &Vec<String>) -> (r: Result<(), DbError>)
    requires
        db_wf(old(db)@),
    ensures
        db_wf(final(db)@),
        match r {
            Ok(()) => (forall|j: int| 0 <= j < hashes.deep_view().len() ==> chs_have_hash(
                old(db)@.channels,
                #[trigger] hashes.deep_view()[j],
            )) && final(db)@ == mark_fold(old(db)@, hashes.deep_view()),
            Err(e) => {
                &&& e == DbError::NoSuchItem
                &&& !(forall|j: int| 0 <= j < hashes.deep_view().len() ==> chs_have_hash(
                    old(db)@.channels,
                    #[trigger] hashes.deep_view()[j],
                ))
                &&& forall|k: int| is_first_missing(old(db)@.channels, hashes.deep_view(), k)
                    ==> final(db)@ == mark_fold(old(db)@, hashes.deep_view().take(k))
            },
        },
{
    let ghost hv = hashes.deep_view();
    let mut k: usize = 0;
    while k < hashes.len()
        invariant
            0 <= k <= hashes@.len(),
            hv == hashes.deep_view(),
            db_wf(db@),
            db@ == mark_fold(old(db)@, hv.take(k as int)),
            forall|j: int| 0 <= j < k ==> chs_have_hash(old(db)@.channels, #[trigger] hv[j]),
        decreases hashes@.len() - k,
    {
        let ghost pre_step = db@;
        proof {
            assert(hv[k as int] == hashes@[k as int]@);
            lemma_mark_fold_keeps_hashes(old(db)@, hv.take(k as int), hv[k as int]);
        }
        let res = db.mark_as_read(hashes[k].as_str(), true);
        match res {
            Err(_) => {
                proof {
                    assert(!chs_have_hash(pre_step.channels, hv[k as int]));
                    assert(!chs_have_hash(old(db)@.channels, hv[k as int]));
                    assert(db@.channels =~~= pre_step.channels) by {
                        assert forall|i: int| 0 <= i < pre_step.channels.len()
                            implies db@.channels[i] =~= pre_step.channels[i]
                        by {
                            assert forall|l: int| 0 <= l < pre_step.channels[i].items.len()
                                implies db@.channels[i].items[l] == pre_step.channels[i].items[l]
                            by {
                                assert(!has_item_hash(pre_step.channels[i].items, hv[k as int]));
                                if pre_step.channels[i].items[l].title_or_description_hash
                                    == hv[k as int] {
                                    assert(has_item_hash(pre_step.channels[i].items, hv[k as int]));
                                }
                            }
                        }
                    }
                    assert(db@ =~= pre_step);
                    assert(is_first_missing(old(db)@.channels, hv, k as int));
                    assert forall|k2: int| is_first_missing(old(db)@.channels, hv, k2)
                        implies db@ == mark_fold(old(db)@, hv.take(k2)) by {
                        if k2 < k {
                            assert(chs_have_hash(old(db)@.channels, hv[k2]));
                        } else if k2 > k {
                            assert(chs_have_hash(old(db)@.channels, hv[k as int]));
                        }
                    }
                }
                return Err(DbError::NoSuchItem);
            },
            Ok(()) => {},
        }
        db.remove_quickmark(hashes[k].as_str());
        proof {
            assert(db@ =~= mark_step(pre_step, hv[k as int]));
            lemma_mark_fold_push(old(db)@, hv.take(k as int), hv[k as int]);
            assert(hv.take(k as int).push(hv[k as int]) =~= hv.take((k + 1) as int));
            assert(chs_have_hash(old(db)@.channels, hv[k as int]));
        }
        k = k + 1;
    }
    proof {
        assert(hv.take(hashes@.len() as int) =~= hv);
    }
    Ok(())
}

/// Every item of `items` with its read flag set.
pub open spec fn items_all_read(items: Seq<ItemV>) -> Seq<ItemV> {
    Seq::new(items.len(), |k: int| ItemV { read: true, ..items[k] })
}

/// Every item of every channel with its read flag set; everything else
/// untouched.
pub open spec fn chs_all_read(chs: Seq<ChannelV>) -> Seq<ChannelV> {
    Seq::new(chs.len(), |i: int| ChannelV { items: items_all_read(chs[i].items), ..chs[i] })
}

proof fn lemma_unread_of_all_read(items: Seq<ItemV>)
    requires
        forall|k: int| 0 <= k < items.len() ==> (#[trigger] items[k]).read,
    ensures
        unread_of_items(items).len() == 0,
    decreases items.len(),
{
    if items.len() > 0 {
        assert forall|k: int| 0 <= k < items.drop_last().len()
            implies (#[trigger] items.drop_last()[k]).read by {
            assert(items.drop_last()[k] == items[k]);
        }
        lemma_unread_of_all_read(items.drop_last());
    }
}

proof fn lemma_unread_in_channels_all_read(chs: Seq<ChannelV>)
    requires
        forall|i: int, k: int| 0 <= i < chs.len() && 0 <= k < chs[i].items.len()
            ==> (#[trigger] chs[i].items[k]).read,
    ensures
        unread_in_channels(chs).len() == 0,
    decreases chs.len(),
{
    if chs.len() > 0 {
        assert forall|i: int, k: int|
            0 <= i < chs.drop_last().len() && 0 <= k < chs.drop_last()[i].items.len()
            implies (#[trigger] chs.drop_last()[i].items[k]).read by {
            assert(chs.drop_last()[i] == chs[i]);
        }
        lemma_unread_in_channels_all_read(chs.drop_last());
        assert forall|k: int| 0 <= k < chs.last().items.len()
            implies (#[trigger] chs.last().items[k]).read by {
            assert(chs.last() == chs[chs.len() - 1]);
        }
        lemma_unread_of_all_read(chs.last().items);
    }
}

proof fn lemma_all_read_wf(chs: Seq<ChannelV>)
    requires
        links_unique(chs),
        hashes_unique(chs),
    ensures
        links_unique(chs_all_read(chs)),
        hashes_unique(chs_all_read(chs)),
{
    let post = chs_all_read(chs);
    assert forall|i: int, j: int| 0 <= i < j < post.len()
        implies (#[trigger] post[i]).link != (#[trigger] post[j]).link
    by {
        assert(post[i].link == chs[i].link);
        assert(post[j].link == chs[j].link);
    }
    assert forall|i: int, k: int, j: int, l: int|
        0 <= i < post.len() && 0 <= k < post[i].items.len()
        && 0 <= j < post.len() && 0 <= l < post[j].items.len()
        && (i != j || k != l)
        implies (#[trigger] post[i].items[k]).title_or_description_hash
            != (#[trigger] post[j].items[l]).title_or_description_hash
    by {
        assert(post[i].items[k].title_or_description_hash
            == chs[i].items[k].title_or_description_hash);
        assert(post[j].items[l].title_or_description_hash
            == chs[j].items[l].title_or_description_hash);
    }
}

/// Mark every item of every channel as read; the quickmark overlay is
/// then rebuilt over the — now empty — set of unread items, leaving no
/// quickmarks at all.
pub fn mark_all(db: &mut Database)
    requires
        db_wf(old(db)@),
    ensures
        db_wf(final(db)@),
        final(db)@.channels == chs_all_read(old(db)@.channels),
        final(db)@.quickmarks.len() == 0,
{
    let ghost prec = old(db)@.channels;
    let mut new_channels: Vec<Channel> = Vec::new();
    let mut ci: usize = 0;
    while ci < db.channels.len()
        invariant
            0 <= ci <= db.channels@.len(),
            db@ == old(db)@,
            prec == old(db)@.channels,
            new_channels.deep_view().len() == ci,
            forall|j: int| 0 <= j < ci ==> #[trigger] new_channels.deep_view()[j] == (ChannelV {
                items: items_all_read(prec[j].items),
                ..prec[j]
            }),
        decreases db.channels@.len() - ci,
    {
        let ch = &db.channels[ci];
        proof {
            assert(prec[ci as int] == db.channels@[ci as int].deep_view());
        }
        let mut new_items: Vec<Item> = Vec::new();
        let mut k: usize = 0;
        while k < ch.items.len()
            invariant
                0 <= k <= ch.items@.len(),
                0 <= ci < prec.len(),
                ch@ == prec[ci as int],
                new_items.deep_view().len() == k,
                forall|l: int| 0 <= l < k ==> #[trigger] new_items.deep_view()[l] == (ItemV {
                    read: true,
                    ..prec[ci as int].items[l]
                }),
            decreases ch.items@.len() - k,
        {
            let it = &ch.items[k];
            let ghost prevn = new_items.deep_view();
            proof {
                assert(prec[ci as int].items[k as int] == ch.items@[k as int].deep_view());
            }
            new_items.push(Item {
                title_or_description: it.title_or_description.clone(),
                title_or_description_hash: it.title_or_description_hash.clone(),
                link: match &it.link {
                    Some(l) => Some(l.clone()),
                    None => None,
                },
                pub_date: it.pub_date,
                read: true,
            });
            proof {
                assert(new_items.deep_view() =~= prevn.push(ItemV {
                    read: true,
                    ..prec[ci as int].items[k as int]
                }));
            }
            k = k + 1;
        }
        let ghost prevc = new_channels.deep_view();
        new_channels.push(Channel {
            title: ch.title.clone(),
            link: ch.link.clone(),
            description: ch.description.clone(),
            last_build_date: ch.last_build_date,
            items: new_items,
        });
        proof {
            assert(new_channels.deep_view() =~~= prevc.push(ChannelV {
                items: items_all_read(prec[ci as int].items),
                ..prec[ci as int]
            }));
        }
        ci = ci + 1;
    }
    db.channels = new_channels;
    proof {
        assert(db@.channels =~= chs_all_read(prec));
        lemma_all_read_wf(prec);
    }
    db.reset_quickmarks();
    proof {
        let allread = chs_all_read(prec);
        assert forall|i: int, k: int| 0 <= i < allread.len() && 0 <= k < allread[i].items.len()
            implies (#[trigger] allread[i].items[k]).read by {
            assert(allread[i].items[k] == (ItemV { read: true, ..prec[i].items[k] }));
        }
        lemma_unread_in_channels_all_read(allread);
        assert(unread_in_channels(allread) =~= Seq::<ItemV>::empty());
    }
}

/// The first quickmark carrying position `p`, as an index.
pub open spec fn first_position_index(qs: Seq<QuickmarkV>, p: u64) -> Option<int>
    decreases qs.len(),
{
    if qs.len() == 0 {
        None
    } else if qs[0].position == p {
        Some(0)
    } else {
        match first_position_index(qs.drop_first(), p) {
            Some(i) => Some(i + 1),
            None => None,
        }
    }
}

/// What [`first_position_index`] finds is the position's index, and a
/// `None` means the position is absent.
pub proof fn lemma_first_position_index(qs: Seq<QuickmarkV>, p: u64)
    ensures
        match first_position_index(qs, p) {
            Some(qi) => is_position_index(qs, p, qi),
            None => !has_position(qs, p),
        },
    decreases qs.len(),
{
    if qs.len() > 0 && qs[0].position != p {
        lemma_first_position_index(qs.drop_first(), p);
        match first_position_index(qs.drop_first(), p) {
            Some(i) => {
                assert(qs.drop_first()[i] == qs[i + 1]);
            },
            None => {
                if has_position(qs, p) {
                    let i = choose|i: int|
                        0 <= i < qs.len() && (#[trigger] qs[i]).position == p;
                    assert(qs.drop_first()[i - 1].position == p);
                    assert(has_position(qs.drop_first(), p));
                }
            },
        }
    }
}

/// What marking one quickmark position does to the store: nothing when
/// the position is absent; otherwise the named item is marked read and
/// the quickmark deleted. The second component reports whether the
/// position was found.
pub open spec fn mark_pos_step(db: DatabaseV, p: u64) -> (DatabaseV, bool) {
    match first_position_index(db.quickmarks, p) {
        None => (db, false),
        Some(qi) => (
            DatabaseV {
                channels: chs_set_read(db.channels, db.quickmarks[qi].hash, true),
                quickmarks: db.quickmarks.remove(qi),
            },
            true,
        ),
    }
}

/// [`mark_pos_step`] applied for each position, left to right, collecting
/// the per-position outcomes.
pub open spec fn mark_positions_fold(db: DatabaseV, ps: Seq<u64>) -> (DatabaseV, Seq<bool>)
    decreases ps.len(),
{
    if ps.len() == 0 {
        (db, Seq::empty())
    } else {
        let s = mark_pos_step(db, ps[0]);
        let rest = mark_positions_fold(s.0, ps.drop_first());
        (rest.0, seq![s.1] + rest.1)
    }
}

/// Mark items as read by their quickmark positions, in order. A position
/// no quickmark carries is a reported no-op for that one position — the
/// rest of the batch still runs. Returns, for each position in turn,
/// whether it named a quickmark.
pub fn mark_relative(db: &mut Database, positions: &Vec<u64>) -> (r: Vec<bool>)
    requires
        db_wf(old(db)@),
    ensures
        db_wf(final(db)@),
        final(db)@ == mark_positions_fold(old(db)@, positions@).0,
        r@ == mark_positions_fold(old(db)@, positions@).1,
{
    let mut results: Vec<bool> = Vec::new();
    let mut k: usize = 0;
    proof {
        assert(positions@.skip(0) =~= positions@);
        assert(results@ + mark_positions_fold(db@, positions@).1
            =~= mark_positions_fold(db@, positions@).1);
    }
    while k < positions.len()
        invariant
            0 <= k <= positions@.len(),
            db_wf(db@),
            results@.len() == k,
            mark_positions_fold(old(db)@, positions@).0 == mark_positions_fold(
                db@,
                positions@.skip(k as int),
            ).0,
            mark_positions_fold(old(db)@, positions@).1 == results@ + mark_positions_fold(
                db@,
                positions@.skip(k as int),
            ).1,
        decreases positions@.len() - k,
    {
        let ghost pre_step = db@;
        let ghost rest = positions@.skip(k as int);
        proof {
            assert(rest[0] == positions@[k as int]);
            assert(rest.drop_first() =~= positions@.skip((k + 1) as int));
            lemma_first_position_index(pre_step.quickmarks, positions@[k as int]);
        }
        let p = positions[k];
        let res = db.mark_as_read_with_quickmark(p);
        match res {
            Ok(()) => {
                results.push(true);
                proof {
                    assert(has_position(pre_step.quickmarks, p));
                    assert(first_position_index(pre_step.quickmarks, p) is Some);
                    let qi0 = first_position_index(pre_step.quickmarks, p).unwrap();
                    assert(is_position_index(pre_step.quickmarks, p, qi0));
                    assert(db@ == mark_pos_step(pre_step, p).0);
                    assert(mark_pos_step(pre_step, p).1 == true);
                }
            },
            Err(_) => {
                results.push(false);
                proof {
                    assert(first_position_index(pre_step.quickmarks, p) is None) by {
                        if first_position_index(pre_step.quickmarks, p) is Some {
                            assert(has_position(pre_step.quickmarks, p)) by {
                                let qi0 = first_position_index(pre_step.quickmarks, p).unwrap();
                                assert(pre_step.quickmarks[qi0].position == p);
                            }
                        }
                    }
                    assert(db@ == mark_pos_step(pre_step, p).0);
                    assert(mark_pos_step(pre_step, p).1 == false);
                }
            },
        }
        proof {
            let s = mark_pos_step(pre_step, positions@[k as int]);
            assert(mark_positions_fold(pre_step, rest).0 == mark_positions_fold(
                db@,
                positions@.skip((k + 1) as int),
            ).0);
            assert(mark_positions_fold(pre_step, rest).1 == seq![s.1] + mark_positions_fold(
                db@,
                positions@.skip((k + 1) as int),
            ).1);
            assert(results@ + mark_positions_fold(db@, positions@.skip((k + 1) as int)).1
                =~= (results@.drop_last() + mark_positions_fold(pre_step, rest).1));
        }
        k = k + 1;
    }
    proof {
        assert(positions@.skip(positions@.len() as int).len() == 0);
        assert(results@ + mark_positions_fold(db@, positions@.skip(k as int)).1 =~= results@);
    }
    results
}

/// Reset the quickmark overlay and hand back every unread item with its
/// fresh position: the unread items in publish-date order, numbered from
/// 1, in ascending position order.
pub fn list_new(db: &mut Database) -> (r: Vec<(Item, u64)>)
    requires
        db_wf(old(db)@),
    ensures
        db_wf(final(db)@),
        final(db)@.channels == old(db)@.channels,
        final(db)@.quickmarks == quickmarks_for(sort_items(unread_in_channels(
            old(db)@.channels,
        ))),
        r.deep_view() == pairs_for(final(db)@.channels, final(db)@.quickmarks),
{
    db.reset_quickmarks();
    db.all_unmarked_items_with_quickmarks()
}

} // verus!
