//! The engine's global guarantees, stated and proved once.
//!
//! Each lemma here states one property that the rest of the library's
//! contracts promise only implicitly: that entry identities depend on
//! content alone, that parsing counts entries exactly, that ingestion is
//! idempotent, that the diff finds exactly the appended entries, that the
//! quickmark reset orders and numbers deterministically, that appending
//! quickmarks never disturbs existing positions, and that marking one
//! entry touches nothing else.

use vstd::prelude::*;
use vstd::multiset::Multiset;
use vstd::seq_lib::lemma_multiset_commutative;
use crate::db::{
    appended_quickmarks, chs_have_hash, fresh_filter, has_link, insert_by_key, is_link_index,
    item_le, lemma_fresh_filter_has, max_position, qm_without_hash, quickmarks_for, sort_items,
    add_items_rel, QuickmarkV,
};
use crate::commands::mark_step;
use crate::db::DatabaseV;
use crate::rss::{has_item_hash, identity_of, ChannelV, ItemV};
use crate::sync::new_entries_of;
use crate::text::{lemma_lex_le_total, lemma_lex_le_trans};
use crate::xml_handler::{
    is_entry_tag, is_item_tag, spec_atom_entries, spec_process_atom_entry, spec_process_item,
    spec_rss_items, atom_entries_in, rss_items_in, XmlNodeV,
};

verus! {

// ------------------------------------------------------------------
// Identity is a pure function of content.
/// Two entries built from the same text and the same link carry the same
/// identity, whatever else differs between them: the identity depends on
/// the content alone, never on dates, read state or the process that
/// computed it.
pub proof fn lemma_identity_deterministic(
    text: Seq<char>,
    link: Option<Seq<char>>,
    a: ItemV,
    b: ItemV,
)
    requires
        a.title_or_description_hash == identity_of(text, link),
        b.title_or_description_hash == identity_of(text, link),
    ensures
        a.title_or_description_hash == b.title_or_description_hash,
{
}

// ------------------------------------------------------------------
// Dialect round-trip: parsing counts entries exactly.
/// The number of `item` children of `parent` in `scan`.
pub open spec fn count_item_tags(scan: Seq<XmlNodeV>, parent: u64) -> nat
    decreases scan.len(),
{
    if scan.len() == 0 {
        0
    } else {
        count_item_tags(scan.drop_last(), parent) + (
        if is_item_tag(scan.last(), parent) {
            1int
        } else {
            0int
        }) as nat
    }
}

/// The number of `entry` children of `parent` in `scan` that carry a
/// title.
pub open spec fn count_good_entries(nodes: Seq<XmlNodeV>, scan: Seq<XmlNodeV>, parent: u64) -> nat
    decreases scan.len(),
{
    if scan.len() == 0 {
        0
    } else {
        count_good_entries(nodes, scan.drop_last(), parent) + (
        if is_entry_tag(scan.last(), parent) && spec_process_atom_entry(
            nodes,
            scan.last().id,
        ) is Some {
            1int
        } else {
            0int
        }) as nat
    }
}

proof fn lemma_rss_items_in_count(nodes: Seq<XmlNodeV>, scan: Seq<XmlNodeV>, parent: u64)
    requires
        forall|j: int| 0 <= j < scan.len() && is_item_tag(#[trigger] scan[j], parent)
            ==> spec_process_item(nodes, scan[j].id) is Some,
    ensures
        rss_items_in(nodes, scan, parent).len() == count_item_tags(scan, parent),
    decreases scan.len(),
{
    if scan.len() > 0 {
        assert forall|j: int| 0 <= j < scan.drop_last().len() && is_item_tag(
            #[trigger] scan.drop_last()[j],
            parent,
        ) implies spec_process_item(nodes, scan.drop_last()[j].id) is Some by {
            assert(scan.drop_last()[j] == scan[j]);
        }
        lemma_rss_items_in_count(nodes, scan.drop_last(), parent);
        assert(scan.last() == scan[scan.len() - 1]);
    }
}

/// A well-formed RSS channel yields exactly one entry per `item` child
/// that carries a title or a description — with every `item` child
/// well-formed, exactly one entry per `item` child.
pub proof fn lemma_rss_dialect_count(nodes: Seq<XmlNodeV>, parent: u64)
    requires
        forall|j: int| 0 <= j < nodes.len() && is_item_tag(#[trigger] nodes[j], parent)
            ==> spec_process_item(nodes, nodes[j].id) is Some,
    ensures
        spec_rss_items(nodes, parent).len() == count_item_tags(nodes, parent),
{
    lemma_rss_items_in_count(nodes, nodes, parent);
}

proof fn lemma_atom_entries_in_count(nodes: Seq<XmlNodeV>, scan: Seq<XmlNodeV>, parent: u64)
    ensures
        atom_entries_in(nodes, scan, parent).len() == count_good_entries(nodes, scan, parent),
    decreases scan.len(),
{
    if scan.len() > 0 {
        lemma_atom_entries_in_count(nodes, scan.drop_last(), parent);
    }
}

/// An Atom feed yields exactly one entry per `entry` child that carries
/// a title: entries lacking one are excluded from the count.
pub proof fn lemma_atom_dialect_count(nodes: Seq<XmlNodeV>, parent: u64)
    ensures
        spec_atom_entries(nodes, parent).len() == count_good_entries(nodes, nodes, parent),
{
    lemma_atom_entries_in_count(nodes, nodes, parent);
}

// ------------------------------------------------------------------
// Ingestion is idempotent.
proof fn lemma_fresh_filter_all_known(chs: Seq<ChannelV>, items: Seq<ItemV>)
    requires
        forall|k: int| 0 <= k < items.len()
            ==> chs_have_hash(chs, (#[trigger] items[k]).title_or_description_hash),
    ensures
        fresh_filter(chs, items).len() == 0,
    decreases items.len(),
{
    if items.len() > 0 {
        assert forall|k: int| 0 <= k < items.drop_last().len() implies chs_have_hash(
            chs,
            (#[trigger] items.drop_last()[k]).title_or_description_hash,
        ) by {
            assert(items.drop_last()[k] == items[k]);
        }
        lemma_fresh_filter_all_known(chs, items.drop_last());
        assert(items.last() == items[items.len() - 1]);
    }
}

/// Storing grows channels, so every identity the store held it still
/// holds, and every freshly inserted identity it now holds too.
proof fn lemma_add_items_rel_has(
    pre: Seq<ChannelV>,
    post: Seq<ChannelV>,
    link: Seq<char>,
    items: Seq<ItemV>,
    h: Seq<char>,
)
    requires
        add_items_rel(pre, post, link, items),
        has_link(pre, link),
        chs_have_hash(pre, h) || has_item_hash(fresh_filter(pre, items), h),
    ensures
        chs_have_hash(post, h),
{
    let ci = choose|ci: int| 0 <= ci < pre.len() && (#[trigger] pre[ci]).link == link;
    assert(is_link_index(pre, link, ci));
    assert(post[ci].items =~= pre[ci].items + fresh_filter(pre, items));
    if chs_have_hash(pre, h) {
        let i = choose|i: int|
            0 <= i < pre.len() && has_item_hash((#[trigger] pre[i]).items, h);
        let k = choose|k: int|
            0 <= k < pre[i].items.len() && (#[trigger] pre[i].items[k]).title_or_description_hash
                == h;
        if pre[i].link == link {
            assert(is_link_index(pre, link, i));
            assert(post[i].items =~= pre[i].items + fresh_filter(pre, items));
            assert(post[i].items[k].title_or_description_hash == h);
            assert(has_item_hash(post[i].items, h));
        } else {
            assert(post[i] == pre[i]);
            assert(has_item_hash(post[i].items, h));
        }
    } else {
        let k = choose|k: int|
            0 <= k < fresh_filter(pre, items).len() && (#[trigger] fresh_filter(pre, items)[k])
                .title_or_description_hash == h;
        assert(post[ci].items[pre[ci].items.len() + k].title_or_description_hash == h);
        assert(has_item_hash(post[ci].items, h));
    }
}

/// Storing the same entries a second time changes nothing: every one of
/// their identities is already present, so the second insertion stores
/// no item at all.
pub proof fn lemma_ingestion_idempotent(
    pre: Seq<ChannelV>,
    post: Seq<ChannelV>,
    post2: Seq<ChannelV>,
    link: Seq<char>,
    items: Seq<ItemV>,
)
    requires
        has_link(pre, link),
        add_items_rel(pre, post, link, items),
        add_items_rel(post, post2, link, items),
    ensures
        post2 == post,
{
    assert forall|k: int| 0 <= k < items.len() implies chs_have_hash(
        post,
        (#[trigger] items[k]).title_or_description_hash,
    ) by {
        let h = items[k].title_or_description_hash;
        if !chs_have_hash(pre, h) {
            lemma_fresh_filter_has(pre, items, h);
            assert(has_item_hash(items, h)) by {
                assert(items[k].title_or_description_hash == h);
            }
            assert(has_item_hash(fresh_filter(pre, items), h));
        }
        lemma_add_items_rel_has(pre, post, link, items, h);
    }
    lemma_fresh_filter_all_known(post, items);
    assert(has_link(post, link)) by {
        let ci = choose|ci: int| 0 <= ci < pre.len() && (#[trigger] pre[ci]).link == link;
        assert(is_link_index(pre, link, ci));
        assert(post[ci].link == link);
    }
    assert forall|j: int| 0 <= j < post.len() implies post2[j] == post[j] by {
        if post[j].link == link {
            assert(is_link_index(post, link, j));
            assert(post2[j] == (ChannelV {
                items: post[j].items + fresh_filter(post, items),
                ..post[j]
            }));
            assert(post[j].items + fresh_filter(post, items) =~= post[j].items);
            assert(post2[j] =~= post[j]);
        }
    }
    assert(post2 =~= post);
}

// ------------------------------------------------------------------
// Diff correctness.
/// A snapshot diffed against itself yields nothing new.
pub proof fn lemma_diff_unchanged(stored: Seq<ItemV>)
    ensures
        new_entries_of(stored, stored).len() == 0,
{
    lemma_diff_all_known(stored, stored);
}

proof fn lemma_diff_all_known(stored: Seq<ItemV>, fetched: Seq<ItemV>)
    requires
        forall|k: int| 0 <= k < fetched.len()
            ==> has_item_hash(stored, (#[trigger] fetched[k]).title_or_description_hash),
    ensures
        new_entries_of(stored, fetched).len() == 0,
    decreases fetched.len(),
{
    if fetched.len() > 0 {
        assert forall|k: int| 0 <= k < fetched.drop_last().len() implies has_item_hash(
            stored,
            (#[trigger] fetched.drop_last()[k]).title_or_description_hash,
        ) by {
            assert(fetched.drop_last()[k] == fetched[k]);
        }
        lemma_diff_all_known(stored, fetched.drop_last());
        assert(fetched.last() == fetched[fetched.len() - 1]);
    }
}

/// A fetch that appends exactly one genuinely new entry to an otherwise
/// unchanged snapshot yields exactly that entry as new.
pub proof fn lemma_diff_single_append(stored: Seq<ItemV>, x: ItemV)
    requires
        !has_item_hash(stored, x.title_or_description_hash),
    ensures
        new_entries_of(stored, stored.push(x)) =~= seq![x],
{
    assert forall|k: int| 0 <= k < stored.len() implies has_item_hash(
        stored,
        (#[trigger] stored[k]).title_or_description_hash,
    ) by {
        assert(stored[k].title_or_description_hash == stored[k].title_or_description_hash);
    }
    lemma_diff_all_known(stored, stored);
    assert(stored.push(x).drop_last() =~= stored);
    assert(stored.push(x).last() == x);
    assert(new_entries_of(stored, stored.push(x)) =~= new_entries_of(stored, stored) + seq![x]);
}

// ------------------------------------------------------------------
// The reset ordering: total, transitive, and the sort both orders and
// preserves the unread items.
/// The reset order can always compare two items.
pub proof fn lemma_item_le_total(a: ItemV, b: ItemV)
    ensures
        item_le(a, b) || item_le(b, a),
{
    if a.pub_date == b.pub_date {
        lemma_lex_le_total(a.title_or_description_hash, b.title_or_description_hash);
    }
}

/// The reset order is transitive.
pub proof fn lemma_item_le_trans(a: ItemV, b: ItemV, c: ItemV)
    requires
        item_le(a, b),
        item_le(b, c),
    ensures
        item_le(a, c),
{
    if a.pub_date == b.pub_date && b.pub_date == c.pub_date {
        lemma_lex_le_trans(
            a.title_or_description_hash,
            b.title_or_description_hash,
            c.title_or_description_hash,
        );
    }
}

/// The reset order has no real ties: two items each no later than the
/// other carry the same identity. Together with the identity uniqueness
/// the store keeps, the sorted order of the unread items — and with it
/// the whole numbering a reset produces — is therefore unique.
pub proof fn lemma_item_le_antisym(a: ItemV, b: ItemV)
    requires
        item_le(a, b),
        item_le(b, a),
    ensures
        a.title_or_description_hash == b.title_or_description_hash,
{
    crate::text::lemma_lex_le_antisym(a.title_or_description_hash, b.title_or_description_hash);
}

/// `s` is ascending in the reset order.
pub open spec fn items_sorted(s: Seq<ItemV>) -> bool {
    forall|i: int, j: int| 0 <= i < j < s.len() ==> item_le(#[trigger] s[i], #[trigger] s[j])
}

proof fn lemma_insert_by_key_sorted(s: Seq<ItemV>, x: ItemV)
    requires
        items_sorted(s),
    ensures
        items_sorted(insert_by_key(s, x)),
        forall|j: int| 0 <= j < insert_by_key(s, x).len()
            ==> insert_by_key(s, x)[j] == x || s.contains(#[trigger] insert_by_key(s, x)[j]),
    decreases s.len(),
{
    let out = insert_by_key(s, x);
    if s.len() == 0 {
    } else if item_le(x, s[0]) {
        assert(out =~= seq![x] + s);
        assert forall|i: int, j: int| 0 <= i < j < out.len() implies item_le(
            #[trigger] out[i],
            #[trigger] out[j],
        ) by {
            if i == 0 {
                if j == 1 {
                    assert(out[j] == s[0]);
                } else {
                    assert(out[j] == s[j - 1]);
                    assert(item_le(s[0], s[j - 1]));
                    lemma_item_le_trans(x, s[0], s[j - 1]);
                }
            } else {
                assert(out[i] == s[i - 1] && out[j] == s[j - 1]);
            }
        }
        assert forall|j: int| 0 <= j < out.len() implies out[j] == x || s.contains(
            #[trigger] out[j],
        ) by {
            if j > 0 {
                assert(out[j] == s[j - 1]);
            }
        }
    } else {
        let df = s.drop_first();
        assert forall|i: int, j: int| 0 <= i < j < df.len() implies item_le(
            #[trigger] df[i],
            #[trigger] df[j],
        ) by {
            assert(df[i] == s[i + 1] && df[j] == s[j + 1]);
        }
        lemma_insert_by_key_sorted(df, x);
        let inner = insert_by_key(df, x);
        assert(out =~= seq![s[0]] + inner);
        lemma_item_le_total(x, s[0]);
        assert(item_le(s[0], x));
        assert forall|i: int, j: int| 0 <= i < j < out.len() implies item_le(
            #[trigger] out[i],
            #[trigger] out[j],
        ) by {
            if i == 0 {
                let e = inner[j - 1];
                assert(out[j] == e);
                if e == x {
                } else {
                    assert(df.contains(e));
                    let l = choose|l: int| 0 <= l < df.len() && df[l] == e;
                    assert(e == s[l + 1]);
                    assert(item_le(s[0], s[l + 1]));
                }
            } else {
                assert(out[i] == inner[i - 1] && out[j] == inner[j - 1]);
            }
        }
        assert forall|j: int| 0 <= j < out.len() implies out[j] == x || s.contains(
            #[trigger] out[j],
        ) by {
            if j == 0 {
                assert(s[0] == s[0]);
                assert(s.contains(s[0]));
            } else {
                let e = inner[j - 1];
                if e != x {
                    assert(df.contains(e));
                    let l = choose|l: int| 0 <= l < df.len() && df[l] == e;
                    assert(s[l + 1] == e);
                    assert(s.contains(e));
                }
            }
        }
    }
}

proof fn lemma_insert_by_key_multiset(s: Seq<ItemV>, x: ItemV)
    ensures
        insert_by_key(s, x).to_multiset() =~= s.to_multiset().insert(x),
    decreases s.len(),
{
    broadcast use vstd::seq_lib::group_to_multiset_ensures;

    if s.len() == 0 {
        assert(insert_by_key(s, x) =~= s.push(x));
    } else if item_le(x, s[0]) {
        assert(insert_by_key(s, x) =~= seq![x] + s);
        lemma_multiset_commutative(seq![x], s);
        assert(seq![x].to_multiset() =~= Multiset::<ItemV>::empty().insert(x)) by {
            assert(seq![x] =~= Seq::<ItemV>::empty().push(x));
        }
    } else {
        let df = s.drop_first();
        lemma_insert_by_key_multiset(df, x);
        assert(insert_by_key(s, x) =~= seq![s[0]] + insert_by_key(df, x));
        lemma_multiset_commutative(seq![s[0]], insert_by_key(df, x));
        assert(seq![s[0]].to_multiset() =~= Multiset::<ItemV>::empty().insert(s[0])) by {
            assert(seq![s[0]] =~= Seq::<ItemV>::empty().push(s[0]));
        }
        assert(s =~= seq![s[0]] + df);
        lemma_multiset_commutative(seq![s[0]], df);
    }
}

/// The reset's sort is exactly a reordering: ascending in the reset
/// order, and made of precisely the unread items it was given.
pub proof fn lemma_sort_items_sorted(s: Seq<ItemV>)
    ensures
        items_sorted(sort_items(s)),
        sort_items(s).to_multiset() =~= s.to_multiset(),
        sort_items(s).len() == s.len(),
    decreases s.len(),
{
    broadcast use vstd::seq_lib::group_to_multiset_ensures;

    if s.len() == 0 {
    } else {
        lemma_sort_items_sorted(s.drop_last());
        lemma_insert_by_key_sorted(sort_items(s.drop_last()), s.last());
        lemma_insert_by_key_multiset(sort_items(s.drop_last()), s.last());
        assert(s =~= s.drop_last().push(s.last()));
        assert(s.drop_last().push(s.last()).to_multiset()
            =~= s.drop_last().to_multiset().insert(s.last()));
    }
    assert(sort_items(s).len() == sort_items(s).to_multiset().len());
    assert(s.len() == s.to_multiset().len());
}

// ------------------------------------------------------------------
// Quickmark append stability.
/// After a reset that numbered the sorted unread items `1..=N`,
/// appending quickmarks for `M` further items leaves the first `N`
/// positions untouched and numbers the new ones `N+1..=N+M`.
pub proof fn lemma_append_stability(s: Seq<ItemV>, items: Seq<ItemV>)
    requires
        s.len() + items.len() <= u64::MAX,
    ensures
        appended_quickmarks(quickmarks_for(s), items).len() == s.len() + items.len(),
        forall|i: int| 0 <= i < s.len()
            ==> #[trigger] appended_quickmarks(quickmarks_for(s), items)[i]
                == quickmarks_for(s)[i],
        forall|i: int| 0 <= i < s.len() + items.len()
            ==> (#[trigger] appended_quickmarks(quickmarks_for(s), items)[i]).position == i + 1,
        forall|i: int| s.len() <= i < s.len() + items.len()
            ==> (#[trigger] appended_quickmarks(quickmarks_for(s), items)[i]).hash
                == items[i - s.len()].title_or_description_hash,
{
    let qs = quickmarks_for(s);
    assert(max_position(qs) == s.len()) by {
        if s.len() > 0 {
            assert(qs.last() == qs[s.len() - 1]);
        }
    }
}

// ------------------------------------------------------------------
// Mark isolation and idempotence.
/// Marking one identity as read leaves every other item exactly as it
/// was.
pub proof fn lemma_mark_item_isolation(db: DatabaseV, h: Seq<char>, i: int, k: int)
    requires
        0 <= i < db.channels.len(),
        0 <= k < db.channels[i].items.len(),
        db.channels[i].items[k].title_or_description_hash != h,
    ensures
        mark_step(db, h).channels[i].items[k] == db.channels[i].items[k],
{
}

/// Marking one identity deletes exactly that identity's quickmarks:
/// none of it survives, and every other quickmark survives unchanged.
pub proof fn lemma_mark_quickmark_exact(qs: Seq<QuickmarkV>, h: Seq<char>)
    ensures
        forall|i: int| 0 <= i < qm_without_hash(qs, h).len()
            ==> (#[trigger] qm_without_hash(qs, h)[i]).hash != h,
        forall|i: int| 0 <= i < qs.len() && (#[trigger] qs[i]).hash != h
            ==> qm_without_hash(qs, h).contains(qs[i]),
    decreases qs.len(),
{
    if qs.len() > 0 {
        let front = qs.drop_last();
        lemma_mark_quickmark_exact(front, h);
        let w = qm_without_hash(qs, h);
        let wf2 = qm_without_hash(front, h);
        assert forall|i: int| 0 <= i < qs.len() && (#[trigger] qs[i]).hash != h implies w.contains(
            qs[i],
        ) by {
            if i < qs.len() - 1 {
                assert(front[i] == qs[i]);
                assert(wf2.contains(qs[i]));
                let l = choose|l: int| 0 <= l < wf2.len() && wf2[l] == qs[i];
                assert(w[l] == qs[i]);
            } else {
                assert(qs.last() == qs[i]);
                assert(w[w.len() - 1] == qs[i]);
            }
        }
    }
}

/// Marking an already marked identity a second time is a no-op: its
/// item is read either way and its quickmark is already gone.
pub proof fn lemma_mark_idempotent(db: DatabaseV, h: Seq<char>)
    ensures
        mark_step(mark_step(db, h), h) == mark_step(db, h),
    decreases db.quickmarks.len(),
{
    let once = mark_step(db, h);
    let twice = mark_step(once, h);
    assert(twice.channels =~~= once.channels) by {
        assert forall|i: int| 0 <= i < once.channels.len() implies twice.channels[i]
            =~= once.channels[i] by {
            assert forall|k: int| 0 <= k < once.channels[i].items.len()
                implies twice.channels[i].items[k] == once.channels[i].items[k] by {}
        }
    }
    lemma_qm_without_hash_stable(db.quickmarks, h);
    assert(twice =~= once);
}

proof fn lemma_qm_without_hash_stable(qs: Seq<QuickmarkV>, h: Seq<char>)
    ensures
        qm_without_hash(qm_without_hash(qs, h), h) == qm_without_hash(qs, h),
{
    lemma_mark_quickmark_exact(qs, h);
    lemma_qm_without_hash_id(qm_without_hash(qs, h), h);
}

proof fn lemma_qm_without_hash_id(qs: Seq<QuickmarkV>, h: Seq<char>)
    requires
        forall|i: int| 0 <= i < qs.len() ==> (#[trigger] qs[i]).hash != h,
    ensures
        qm_without_hash(qs, h) == qs,
    decreases qs.len(),
{
    if qs.len() > 0 {
        assert forall|i: int| 0 <= i < qs.drop_last().len()
            implies (#[trigger] qs.drop_last()[i]).hash != h by {
            assert(qs.drop_last()[i] == qs[i]);
        }
        lemma_qm_without_hash_id(qs.drop_last(), h);
        assert(qs.last() == qs[qs.len() - 1]);
        assert(qm_without_hash(qs, h) =~= qs);
    }
}

} // verus!