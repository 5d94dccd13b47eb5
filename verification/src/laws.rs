//! Laws of the record store, stated over its mathematical model.
//!
//! Each law here relates several store operations through the views and spec
//! functions their contracts are written in, so every consequence is checked
//! once and for all rather than per call site.

use vstd::prelude::*;

use crate::sticker::set_archived;
use crate::sticker::set_pinned;
use crate::sticker::StickerModel;
use crate::store::archived_records;
use crate::store::lemma_filter_push;
use crate::store::lemma_filter_sorted;
use crate::store::lemma_filter_subset;
use crate::store::lemma_find_at;
use crate::store::lemma_find_none;
use crate::store::lemma_find_props;
use crate::store::lemma_find_update;
use crate::store::lemma_sorted_ids_unique;
use crate::store::live_records;
use crate::store::sorted_ids;
use crate::store::spec_find;
use crate::store::surviving_records;

verus! {

/// Creating a note and then fetching it by its id yields a record equal to
/// the created one in every field: after an insertion of a record whose id
/// was absent, the search lands exactly on that record.
pub proof fn lemma_create_then_get(
    prev: Seq<StickerModel>,
    cur: Seq<StickerModel>,
    m: StickerModel,
    i: int,
)
    requires
        spec_find(prev, m.uuid) == -1,
        0 <= i <= prev.len(),
        cur == prev.insert(i, m),
    ensures
        spec_find(cur, m.uuid) == i,
        cur[spec_find(cur, m.uuid)] == m,
{
    lemma_find_props(prev, m.uuid);
    assert forall|j: int| 0 <= j < i implies (#[trigger] cur[j]).uuid != m.uuid by {
        assert(cur[j] == prev[j]);
    }
    assert(cur[i] == m);
    lemma_find_at(cur, m.uuid, i);
}

/// Toggling the pin flag of a record twice restores the store, and the two
/// calls report the new value each time: first the negation of the original
/// flag, then the original flag back.
pub proof fn lemma_toggle_pinned_involutive(s0: Seq<StickerModel>, id: Seq<char>)
    requires
        spec_find(s0, id) >= 0,
    ensures
        ({
            let i = spec_find(s0, id);
            let s1 = s0.update(i, set_pinned(s0[i], !s0[i].pinned));
            spec_find(s1, id) == i && s1[i].pinned == !s0[i].pinned && s1.update(
                i,
                set_pinned(s1[i], !s1[i].pinned),
            ) == s0
        }),
{
    lemma_find_props(s0, id);
    let i = spec_find(s0, id);
    let s1 = s0.update(i, set_pinned(s0[i], !s0[i].pinned));
    lemma_find_update(s0, i, set_pinned(s0[i], !s0[i].pinned), id);
    assert(set_pinned(s1[i], !s1[i].pinned) =~= s0[i]);
    assert(s1.update(i, set_pinned(s1[i], !s1[i].pinned)) =~= s0);
}

/// Archiving a record and then restoring exactly its id puts the record back
/// among the live records with every other field unchanged, pin state
/// included, and touches no other record.
pub proof fn lemma_archive_then_restore(s0: Seq<StickerModel>, id: Seq<char>)
    requires
        sorted_ids(s0),
        spec_find(s0, id) >= 0,
    ensures
        ({
            let i = spec_find(s0, id);
            let s1 = s0.update(i, set_archived(s0[i], true));
            // what a batch restore of exactly this id makes of each record
            let s2 = Seq::new(
                s1.len(),
                |j: int|
                    if seq![id].contains(s1[j].uuid) {
                        set_archived(s1[j], false)
                    } else {
                        s1[j]
                    },
            );
            s2 == s0.update(i, set_archived(s0[i], false)) && spec_find(s2, id) == i
                && live_records(s2).contains(set_archived(s0[i], false))
        }),
{
    lemma_find_props(s0, id);
    lemma_sorted_ids_unique(s0);
    let i = spec_find(s0, id);
    let s1 = s0.update(i, set_archived(s0[i], true));
    let s2 = Seq::new(
        s1.len(),
        |j: int|
            if seq![id].contains(s1[j].uuid) {
                set_archived(s1[j], false)
            } else {
                s1[j]
            },
    );
    let s3 = s0.update(i, set_archived(s0[i], false));
    assert forall|j: int| 0 <= j < s2.len() implies s2[j] == s3[j] by {
        if j == i {
            assert(s1[i].uuid == id);
            assert(seq![id][0] == id);
            assert(seq![id].contains(s1[i].uuid));
            assert(s2[i] =~= set_archived(s0[i], false));
        } else {
            assert(s1[j] == s0[j]);
            assert(s0[j].uuid != id);
            assert forall|k: int| 0 <= k < seq![id].len() implies seq![id][k] != s1[j].uuid by {
                assert(seq![id][0] == id);
            }
            assert(!seq![id].contains(s1[j].uuid));
        }
    }
    assert(s2 =~= s3);
    lemma_find_update(s0, i, set_archived(s0[i], false), id);
    assert(!s3[i].archived);
    s3.lemma_filter_contains(|m: StickerModel| !m.archived, i);
}

/// Permanently deleting an id leaves no record carrying it, so a fetch of
/// that id misses.
pub proof fn lemma_delete_then_get(s: Seq<StickerModel>, ids: Seq<Seq<char>>, id: Seq<char>)
    requires
        ids.contains(id),
    ensures
        spec_find(surviving_records(s, ids), id) == -1,
{
    let t = surviving_records(s, ids);
    assert forall|j: int| 0 <= j < t.len() implies (#[trigger] t[j]).uuid != id by {
        s.lemma_filter_pred(|m: StickerModel| !ids.contains(m.uuid), j);
    }
    lemma_find_none(t, id);
}

/// The live and the archived listings together hold every record exactly
/// once.
proof fn lemma_live_archived_len(s: Seq<StickerModel>)
    ensures
        live_records(s).len() + archived_records(s).len() == s.len(),
    decreases s.len(),
{
    if s.len() > 0 {
        let t = s.drop_last();
        lemma_live_archived_len(t);
        assert(t.push(s.last()) =~= s);
        lemma_filter_push(t, |m: StickerModel| !m.archived, s.last());
        lemma_filter_push(t, |m: StickerModel| m.archived, s.last());
    }
}

/// The live and the archived listings partition the store: together they
/// hold every record, none in both, and each listing is ordered by
/// ascending id.
pub proof fn lemma_live_archived_partition(s: Seq<StickerModel>)
    requires
        sorted_ids(s),
    ensures
        live_records(s).len() + archived_records(s).len() == s.len(),
        forall|m: StickerModel| #[trigger]
            s.contains(m) <==> (live_records(s).contains(m) || archived_records(s).contains(m)),
        forall|m: StickerModel|
            !(#[trigger] live_records(s).contains(m) && archived_records(s).contains(m)),
        sorted_ids(live_records(s)),
        sorted_ids(archived_records(s)),
{
    lemma_live_archived_len(s);
    lemma_filter_sorted(s, |m: StickerModel| !m.archived);
    lemma_filter_sorted(s, |m: StickerModel| m.archived);
    lemma_filter_subset(s, |m: StickerModel| !m.archived);
    lemma_filter_subset(s, |m: StickerModel| m.archived);
    assert forall|m: StickerModel| #[trigger]
        s.contains(m) implies (live_records(s).contains(m) || archived_records(s).contains(
        m,
    )) by {
        let j = choose|j: int| 0 <= j < s.len() && s[j] == m;
        if m.archived {
            s.lemma_filter_contains(|m: StickerModel| m.archived, j);
        } else {
            s.lemma_filter_contains(|m: StickerModel| !m.archived, j);
        }
    }
    assert forall|m: StickerModel|
        (live_records(s).contains(m) || archived_records(s).contains(m)) implies #[trigger] s
        .contains(m) by {
        if live_records(s).contains(m) {
            let p = choose|p: int|
                0 <= p < live_records(s).len() && live_records(s)[p] == m;
            assert(s.contains(live_records(s)[p]));
        } else {
            let p = choose|p: int|
                0 <= p < archived_records(s).len() && archived_records(s)[p] == m;
            assert(s.contains(archived_records(s)[p]));
        }
    }
    assert forall|m: StickerModel|
        !(#[trigger] live_records(s).contains(m) && archived_records(s).contains(m)) by {
        if live_records(s).contains(m) && archived_records(s).contains(m) {
            let p = choose|p: int|
                0 <= p < live_records(s).len() && live_records(s)[p] == m;
            s.lemma_filter_pred(|m: StickerModel| !m.archived, p);
            let q = choose|q: int|
                0 <= q < archived_records(s).len() && archived_records(s)[q] == m;
            s.lemma_filter_pred(|m: StickerModel| m.archived, q);
        }
    }
}

} // verus!
