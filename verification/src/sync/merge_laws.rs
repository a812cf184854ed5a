//! What the merge promises whatever the rows: merging a snapshot with an
//! identical one, or with one that alone moved since the last sync, tells
//! the user nothing and draws no fresh id.

use vstd::prelude::*;

use crate::sync::merge::{
    all_values, cascade, cascade_atts, cascade_values, fcon, flat_conflicts, flat_out,
    flat_renum, fout, fren, has_key, kept_of, key_out, key_pick, last_key_index,
    lemma_last_key_index_range, lookup, taken_of, union_keys_spec, Owned, Pick, all_props,
    all_views, all_records, entities, shadow_part, ids_of, pages_ren, dbs_ren, plan_ren_blocks,
    plan_ren_props, plan_ren_views, plan_ren_records, plan_ren_atts, plan_maps, plan_ctx,
    plan_conflicts, plan_pages, plan_blocks, plan_atts, plan_dbs, plan_props, plan_views, plan_records, plan_values, pages_flat, blocks_flat, atts_flat,
    props_flat, views_flat, records_flat, MergeCtx,
};
use crate::sync::model::{
    f64_bits_nan, SAttachment, SAttachmentV, SBlock, SBlockV, SDatabase, SDatabaseV, SPage,
    SPageV, SProperty, SPropertyV, SRecord, SRecordV, SValue, SValueV, SView, SViewV, SyncRow,
    SyncSnapshotV, WireRow,
};

verus! {

/// Every row of `s` equals itself (a cell whose number is NaN does not).
pub open spec fn self_same<T: SyncRow>(s: Seq<T::V>) -> bool {
    forall|i: int| 0 <= i < s.len() ==> T::spec_same(#[trigger] s[i], s[i])
}

/// No cell of the snapshot holds a NaN.
pub open spec fn no_nan_cells(snap: SyncSnapshotV) -> bool {
    forall|i: int| 0 <= i < all_values(snap.databases).len() ==> match (#[trigger] all_values(snap.databases)[i]).num {
        Some(x) => !f64_bits_nan(x),
        None => true,
    }
}

pub(crate) proof fn lemma_lookup_in<T: SyncRow>(s: Seq<T::V>, k: (u64, u64))
    ensures
        lookup::<T>(s, k) matches Some(x) ==> exists|i: int| 0 <= i < s.len() && s[i] == x,
        lookup::<T>(s, k) is None ==> !has_key::<T>(s, k),
        lookup::<T>(s, k) matches Some(x) ==> T::spec_key(x) == k,
{
    lemma_last_key_index_range::<T>(s, k);
    let i = last_key_index::<T>(s, k);
    if i >= 0 {
        assert(s[i] == lookup::<T>(s, k)->0);
    } else {
        if has_key::<T>(s, k) {
            let j = choose|j: int| 0 <= j < s.len() && T::spec_key(#[trigger] s[j]) == k;
        }
    }
}

proof fn lemma_lookup_self_same<T: SyncRow>(s: Seq<T::V>, k: (u64, u64))
    requires
        self_same::<T>(s),
    ensures
        lookup::<T>(s, k) matches Some(x) ==> T::spec_same(x, x),
{
    lemma_lookup_in::<T>(s, k);
    if let Some(x) = lookup::<T>(s, k) {
        let i = choose|i: int| 0 <= i < s.len() && s[i] == x;
        assert(T::spec_same(s[i], s[i]));
    }
}

/// With no key renumbered or in conflict, the fold hands back nothing to
/// renumber and logs nothing.
proof fn lemma_fold_quiet<T: SyncRow>(l: Seq<T::V>, s: Option<Seq<T::V>>, r: Seq<T::V>, keys: Seq<(u64, u64)>, what: Seq<char>, peer: Seq<char>)
    requires
        forall|i: int| 0 <= i < keys.len() ==> key_pick::<T>(l, s, r, #[trigger] keys[i]) != Pick::Renumber
            && key_pick::<T>(l, s, r, keys[i]) != Pick::Conflict,
    ensures
        flat_renum::<T>(l, s, r, keys) == Seq::<((u64, u64), T::V)>::empty(),
        flat_conflicts::<T>(l, s, r, keys, what, peer) == Seq::<Seq<char>>::empty(),
    decreases keys.len(),
{
    if keys.len() > 0 {
        let k = keys.last();
        assert(k == keys[keys.len() - 1]);
        assert forall|i: int| 0 <= i < keys.drop_last().len() implies key_pick::<T>(l, s, r, #[trigger] keys.drop_last()[i]) != Pick::Renumber
            && key_pick::<T>(l, s, r, keys.drop_last()[i]) != Pick::Conflict by {
            assert(keys.drop_last()[i] == keys[i]);
        }
        lemma_fold_quiet::<T>(l, s, r, keys.drop_last(), what, peer);
        assert(flat_renum::<T>(l, s, r, keys) =~= Seq::<((u64, u64), T::V)>::empty());
        assert(flat_conflicts::<T>(l, s, r, keys, what, peer) =~= Seq::<Seq<char>>::empty());
    }
}

/// With every key decided for the local side, no merged row comes from the
/// remote side.
proof fn lemma_fold_all_local<T: SyncRow>(l: Seq<T::V>, s: Option<Seq<T::V>>, r: Seq<T::V>, keys: Seq<(u64, u64)>)
    requires
        forall|i: int| 0 <= i < keys.len() ==> key_pick::<T>(l, s, r, #[trigger] keys[i]) == Pick::Local,
    ensures
        taken_of(flat_out::<T>(l, s, r, keys)) == Seq::<T::V>::empty(),
        kept_of(flat_out::<T>(l, s, r, keys)).len() == flat_out::<T>(l, s, r, keys).len(),
    decreases keys.len(),
{
    if keys.len() > 0 {
        let k = keys.last();
        assert(k == keys[keys.len() - 1]);
        assert forall|i: int| 0 <= i < keys.drop_last().len() implies key_pick::<T>(l, s, r, #[trigger] keys.drop_last()[i]) == Pick::Local by {
            assert(keys.drop_last()[i] == keys[i]);
        }
        lemma_fold_all_local::<T>(l, s, r, keys.drop_last());
        let prev = flat_out::<T>(l, s, r, keys.drop_last());
        let step = key_out::<T>(l, s, r, k);
        let all = flat_out::<T>(l, s, r, keys);
        assert(all == prev + step);
        if step.len() == 1 {
            assert(all =~= prev.push(step[0]));
            assert(all.drop_last() =~= prev);
            assert(!step[0].0);
        } else {
            assert(step.len() == 0);
            assert(all =~= prev);
        }
    }
}

proof fn lemma_cascade_no_owners<T: Owned>(rows: Seq<T::V>, present: Seq<T::V>)
    ensures
        cascade::<T>(rows, Seq::empty(), present) == Seq::<T::V>::empty(),
    decreases rows.len(),
{
    if rows.len() > 0 {
        lemma_cascade_no_owners::<T>(rows.drop_last(), present);
    }
}

proof fn lemma_cascade_atts_none(atts: Seq<SAttachmentV>, present: Seq<SAttachmentV>)
    ensures
        cascade_atts(Seq::empty(), atts, present) == Seq::<SAttachmentV>::empty(),
{
}

/// The three ways a collection can be merged without news: the two sides
/// hold the same rows, only the remote side moved since the shadow, or only
/// the local side moved.
pub open spec fn quiet_case<T: SyncRow>(l: Seq<T::V>, s: Option<Seq<T::V>>, r: Seq<T::V>) -> bool {
    ||| (l == r && self_same::<T>(l))
    ||| (s == Some(l) && self_same::<T>(l))
    ||| (s == Some(r) && self_same::<T>(r))
}

/// In a quiet case no key is renumbered or in conflict.
proof fn lemma_quiet_picks<T: SyncRow>(l: Seq<T::V>, s: Option<Seq<T::V>>, r: Seq<T::V>, k: (u64, u64))
    requires
        quiet_case::<T>(l, s, r),
    ensures
        key_pick::<T>(l, s, r, k) != Pick::Renumber,
        key_pick::<T>(l, s, r, k) != Pick::Conflict,
        (s == Some(r) && self_same::<T>(r)) ==> key_pick::<T>(l, s, r, k) == Pick::Local,
        (l == r && self_same::<T>(l)) ==> key_pick::<T>(l, s, r, k) == Pick::Local,
{
    if self_same::<T>(l) {
        lemma_lookup_self_same::<T>(l, k);
    }
    if self_same::<T>(r) {
        lemma_lookup_self_same::<T>(r, k);
    }
}

/// A collection merged in a quiet case renumbers nothing and logs nothing.
proof fn lemma_flat_quiet<T: SyncRow>(l: Seq<T::V>, s: Option<Seq<T::V>>, r: Seq<T::V>, what: Seq<char>, peer: Seq<char>)
    requires
        quiet_case::<T>(l, s, r),
    ensures
        fren::<T>(l, s, r) == Seq::<T::V>::empty(),
        fcon::<T>(l, s, r, what, peer) == Seq::<Seq<char>>::empty(),
        (s == Some(r) && self_same::<T>(r)) || (l == r && self_same::<T>(l)) ==> taken_of(fout::<T>(l, s, r)) == Seq::<T::V>::empty(),
{
    let keys = union_keys_spec::<T>(l, r);
    assert forall|i: int| 0 <= i < keys.len() implies key_pick::<T>(l, s, r, #[trigger] keys[i]) != Pick::Renumber
        && key_pick::<T>(l, s, r, keys[i]) != Pick::Conflict by {
        lemma_quiet_picks::<T>(l, s, r, keys[i]);
    }
    lemma_fold_quiet::<T>(l, s, r, keys, what, peer);
    assert(fren::<T>(l, s, r) =~= Seq::<T::V>::empty());
    if (s == Some(r) && self_same::<T>(r)) || (l == r && self_same::<T>(l)) {
        assert forall|i: int| 0 <= i < keys.len() implies key_pick::<T>(l, s, r, #[trigger] keys[i]) == Pick::Local by {
            lemma_quiet_picks::<T>(l, s, r, keys[i]);
        }
        lemma_fold_all_local::<T>(l, s, r, keys);
    }
}

/// The rows a flat merge keeps from the local side are local rows, and the
/// rows it takes from the remote side are remote rows, unchanged.
proof fn lemma_fold_origins<T: SyncRow>(l: Seq<T::V>, s: Option<Seq<T::V>>, r: Seq<T::V>, keys: Seq<(u64, u64)>)
    ensures
        forall|i: int| 0 <= i < kept_of(flat_out::<T>(l, s, r, keys)).len() ==> l.contains(#[trigger] kept_of(flat_out::<T>(l, s, r, keys))[i]),
        forall|i: int| 0 <= i < taken_of(flat_out::<T>(l, s, r, keys)).len() ==> r.contains(#[trigger] taken_of(flat_out::<T>(l, s, r, keys))[i]),
    decreases keys.len(),
{
    if keys.len() > 0 {
        let k = keys.last();
        lemma_fold_origins::<T>(l, s, r, keys.drop_last());
        lemma_lookup_in::<T>(l, k);
        lemma_lookup_in::<T>(r, k);
        let prev = flat_out::<T>(l, s, r, keys.drop_last());
        let step = key_out::<T>(l, s, r, k);
        let all = flat_out::<T>(l, s, r, keys);
        assert(all == prev + step);
        if step.len() == 1 {
            let x = step[0];
            assert(all =~= prev.push(x));
            assert(all.drop_last() =~= prev);
            assert(all.last() == x);
            if x.0 {
                assert(r.contains(x.1));
                assert(kept_of(all) == kept_of(prev));
                assert(taken_of(all) == taken_of(prev).push(x.1));
                assert forall|i: int| 0 <= i < taken_of(all).len() implies r.contains(#[trigger] taken_of(all)[i]) by {
                    if i < taken_of(prev).len() {
                        assert(taken_of(all)[i] == taken_of(prev)[i]);
                    }
                }
            } else {
                assert(l.contains(x.1));
                assert(taken_of(all) == taken_of(prev));
                assert(kept_of(all) == kept_of(prev).push(x.1));
                assert forall|i: int| 0 <= i < kept_of(all).len() implies l.contains(#[trigger] kept_of(all)[i]) by {
                    if i < kept_of(prev).len() {
                        assert(kept_of(all)[i] == kept_of(prev)[i]);
                    }
                }
            }
        } else {
            assert(all =~= prev);
        }
    }
}

pub(crate) proof fn lemma_entities_self_same(dbs: Seq<SDatabaseV>)
    ensures
        self_same::<SDatabase>(entities(dbs)),
{
    assert forall|i: int| 0 <= i < entities(dbs).len() implies <SDatabase as WireRow>::spec_same(#[trigger] entities(dbs)[i], entities(dbs)[i]) by {
        let e = entities(dbs)[i];
        assert(e.values.len() == 0);
    }
}

pub(crate) proof fn lemma_values_self_same(snap: SyncSnapshotV)
    requires
        no_nan_cells(snap),
    ensures
        self_same::<SValue>(all_values(snap.databases)),
{
    assert forall|i: int| 0 <= i < all_values(snap.databases).len() implies <SValue as WireRow>::spec_same(
        #[trigger] all_values(snap.databases)[i],
        all_values(snap.databases)[i],
    ) by {
        let v = all_values(snap.databases)[i];
        assert(match v.num {
            Some(x) => !f64_bits_nan(x),
            None => true,
        });
    }
}

/// Every collection of the merge is in a quiet case.
pub open spec fn all_quiet(l: SyncSnapshotV, s: Option<SyncSnapshotV>, r: SyncSnapshotV) -> bool {
    &&& quiet_case::<SPage>(l.pages, shadow_part(s, |x: SyncSnapshotV| x.pages), r.pages)
    &&& quiet_case::<SAttachment>(l.attachments, shadow_part(s, |x: SyncSnapshotV| x.attachments), r.attachments)
    &&& quiet_case::<SBlock>(l.blocks, shadow_part(s, |x: SyncSnapshotV| x.blocks), r.blocks)
    &&& quiet_case::<SDatabase>(entities(l.databases), shadow_part(s, |x: SyncSnapshotV| entities(x.databases)), entities(r.databases))
    &&& quiet_case::<SProperty>(all_props(l.databases), shadow_part(s, |x: SyncSnapshotV| all_props(x.databases)), all_props(r.databases))
    &&& quiet_case::<SView>(all_views(l.databases), shadow_part(s, |x: SyncSnapshotV| all_views(x.databases)), all_views(r.databases))
    &&& quiet_case::<SRecord>(all_records(l.databases), shadow_part(s, |x: SyncSnapshotV| all_records(x.databases)), all_records(r.databases))
    &&& quiet_case::<SValue>(all_values(l.databases), shadow_part(s, |x: SyncSnapshotV| all_values(x.databases)), all_values(r.databases))
}

pub(crate) proof fn lemma_merge_quiet(l: SyncSnapshotV, s: Option<SyncSnapshotV>, r: SyncSnapshotV, peer: Seq<char>, c: MergeCtx)
    requires
        all_quiet(l, s, r),
    ensures
        plan_conflicts(l, s, r, peer) == Seq::<Seq<char>>::empty(),
        plan_ctx(l, s, r, c) == c,
        plan_maps(l, s, r, c).atts == Seq::<(u64, u64)>::empty(),
        pages_ren(l, s, r) == Seq::<SPageV>::empty(),
        plan_ren_blocks(l, s, r) == Seq::<SBlockV>::empty(),
        plan_ren_atts(l, s, r) == Seq::<SAttachmentV>::empty(),
{
    lemma_flat_quiet::<SPage>(l.pages, shadow_part(s, |x: SyncSnapshotV| x.pages), r.pages, "page"@, peer);
    lemma_flat_quiet::<SAttachment>(l.attachments, shadow_part(s, |x: SyncSnapshotV| x.attachments), r.attachments, "attachment"@, peer);
    lemma_flat_quiet::<SBlock>(l.blocks, shadow_part(s, |x: SyncSnapshotV| x.blocks), r.blocks, "block"@, peer);
    lemma_flat_quiet::<SDatabase>(entities(l.databases), shadow_part(s, |x: SyncSnapshotV| entities(x.databases)), entities(r.databases), "database"@, peer);
    lemma_flat_quiet::<SProperty>(all_props(l.databases), shadow_part(s, |x: SyncSnapshotV| all_props(x.databases)), all_props(r.databases), "column"@, peer);
    lemma_flat_quiet::<SView>(all_views(l.databases), shadow_part(s, |x: SyncSnapshotV| all_views(x.databases)), all_views(r.databases), "view"@, peer);
    lemma_flat_quiet::<SRecord>(all_records(l.databases), shadow_part(s, |x: SyncSnapshotV| all_records(x.databases)), all_records(r.databases), "record"@, peer);
    lemma_flat_quiet::<SValue>(all_values(l.databases), shadow_part(s, |x: SyncSnapshotV| all_values(x.databases)), all_values(r.databases), "cell"@, peer);
    assert(plan_conflicts(l, s, r, peer) =~= Seq::<Seq<char>>::empty());
    assert(ids_of::<SPage>(pages_ren(l, s, r)) =~= Seq::<u64>::empty());
    assert(ids_of::<SDatabase>(dbs_ren(l, s, r)) =~= Seq::<u64>::empty());
    lemma_cascade_no_owners::<SBlock>(r.blocks, taken_of(blocks_flat(l, s, r)) + fren::<SBlock>(l.blocks, shadow_part(s, |x: SyncSnapshotV| x.blocks), r.blocks));
    assert(plan_ren_blocks(l, s, r) =~= Seq::<SBlockV>::empty());
    lemma_cascade_no_owners::<SProperty>(all_props(r.databases), taken_of(props_flat(l, s, r)) + fren::<SProperty>(all_props(l.databases), shadow_part(s, |x: SyncSnapshotV| all_props(x.databases)), all_props(r.databases)));
    assert(plan_ren_props(l, s, r) =~= Seq::<SPropertyV>::empty());
    lemma_cascade_no_owners::<SView>(all_views(r.databases), taken_of(views_flat(l, s, r)) + fren::<SView>(all_views(l.databases), shadow_part(s, |x: SyncSnapshotV| all_views(x.databases)), all_views(r.databases)));
    assert(plan_ren_views(l, s, r) =~= Seq::<SViewV>::empty());
    lemma_cascade_no_owners::<SRecord>(all_records(r.databases), taken_of(records_flat(l, s, r)) + fren::<SRecord>(all_records(l.databases), shadow_part(s, |x: SyncSnapshotV| all_records(x.databases)), all_records(r.databases)));
    assert(plan_ren_records(l, s, r) =~= Seq::<SRecordV>::empty());
    assert(ids_of::<SRecord>(plan_ren_records(l, s, r)) =~= Seq::<u64>::empty());
    lemma_cascade_atts_none(r.attachments, taken_of(atts_flat(l, s, r)) + fren::<SAttachment>(l.attachments, shadow_part(s, |x: SyncSnapshotV| x.attachments), r.attachments));
    assert(plan_ren_atts(l, s, r) =~= Seq::<SAttachmentV>::empty());
    assert(plan_maps(l, s, r, c).atts =~= Seq::<(u64, u64)>::empty());
}

/// Merging a snapshot with an identical one, whatever the shadow, reports
/// no conflict, renumbers nothing and draws no fresh id (when no cell holds
/// a NaN, the one value not equal to itself).
pub proof fn lemma_merge_identical(l: SyncSnapshotV, s: Option<SyncSnapshotV>, peer: Seq<char>, c: MergeCtx)
    requires
        no_nan_cells(l),
    ensures
        plan_conflicts(l, s, l, peer) == Seq::<Seq<char>>::empty(),
        plan_ctx(l, s, l, c) == c,
        plan_maps(l, s, l, c).atts == Seq::<(u64, u64)>::empty(),
{
    lemma_entities_self_same(l.databases);
    lemma_values_self_same(l);
    lemma_merge_quiet(l, s, l, peer, c);
}

/// When only the remote side moved since the last sync (the shadow is the
/// local snapshot), the merge takes the remote edits and deletes without a
/// conflict and without renumbering.
pub proof fn lemma_merge_remote_moved(l: SyncSnapshotV, r: SyncSnapshotV, peer: Seq<char>, c: MergeCtx)
    requires
        no_nan_cells(l),
    ensures
        plan_conflicts(l, Some(l), r, peer) == Seq::<Seq<char>>::empty(),
        plan_ctx(l, Some(l), r, c) == c,
{
    lemma_entities_self_same(l.databases);
    lemma_values_self_same(l);
    lemma_merge_quiet(l, Some(l), r, peer, c);
}

/// When only the local side moved since the last sync (the shadow is the
/// remote snapshot), the merge keeps the local snapshot: no conflict, no
/// renumbering, and every merged page, block and attachment is a local row,
/// unchanged.
pub proof fn lemma_merge_local_moved(l: SyncSnapshotV, r: SyncSnapshotV, peer: Seq<char>, c: MergeCtx)
    requires
        no_nan_cells(r),
    ensures
        plan_conflicts(l, Some(r), r, peer) == Seq::<Seq<char>>::empty(),
        plan_ctx(l, Some(r), r, c) == c,
        forall|i: int| 0 <= i < plan_pages(l, Some(r), r, c).len() ==> l.pages.contains(#[trigger] plan_pages(l, Some(r), r, c)[i]),
        forall|i: int| 0 <= i < plan_blocks(l, Some(r), r, c).len() ==> l.blocks.contains(#[trigger] plan_blocks(l, Some(r), r, c)[i]),
        forall|i: int| 0 <= i < plan_atts(l, Some(r), r, c).len() ==> l.attachments.contains(#[trigger] plan_atts(l, Some(r), r, c)[i]),
{
    let s = Some(r);
    lemma_entities_self_same(r.databases);
    lemma_values_self_same(r);
    lemma_merge_quiet(l, s, r, peer, c);
    lemma_flat_quiet::<SPage>(l.pages, shadow_part(s, |x: SyncSnapshotV| x.pages), r.pages, "page"@, peer);
    lemma_flat_quiet::<SAttachment>(l.attachments, shadow_part(s, |x: SyncSnapshotV| x.attachments), r.attachments, "attachment"@, peer);
    lemma_flat_quiet::<SBlock>(l.blocks, shadow_part(s, |x: SyncSnapshotV| x.blocks), r.blocks, "block"@, peer);
    lemma_fold_origins::<SPage>(l.pages, shadow_part(s, |x: SyncSnapshotV| x.pages), r.pages, union_keys_spec::<SPage>(l.pages, r.pages));
    lemma_fold_origins::<SBlock>(l.blocks, shadow_part(s, |x: SyncSnapshotV| x.blocks), r.blocks, union_keys_spec::<SBlock>(l.blocks, r.blocks));
    lemma_fold_origins::<SAttachment>(l.attachments, shadow_part(s, |x: SyncSnapshotV| x.attachments), r.attachments, union_keys_spec::<SAttachment>(l.attachments, r.attachments));
    assert(pages_ren(l, s, r) =~= Seq::<SPageV>::empty());
    assert(plan_pages(l, s, r, c) =~= kept_of(pages_flat(l, s, r)));
    assert(plan_blocks(l, s, r, c) =~= kept_of(blocks_flat(l, s, r)));
    assert(plan_atts(l, s, r, c) =~= kept_of(atts_flat(l, s, r)));
}

/// A filter keeps exactly the elements that pass the test.
proof fn lemma_filter_keeps<A>(s: Seq<A>, p: spec_fn(A) -> bool)
    ensures
        forall|j: int| 0 <= j < s.len() && p(s[j]) ==> #[trigger] s.filter(p).contains(s[j]),
        forall|k: int| 0 <= k < s.filter(p).len() ==> p(#[trigger] s.filter(p)[k]) && s.contains(s.filter(p)[k]),
{
    assert forall|j: int| 0 <= j < s.len() && p(s[j]) implies #[trigger] s.filter(p).contains(s[j]) by {
        s.lemma_filter_contains(p, j);
    }
    assert forall|k: int| 0 <= k < s.filter(p).len() implies p(#[trigger] s.filter(p)[k]) && s.contains(s.filter(p)[k]) by {
        s.lemma_filter_pred(p, k);
        assert(s.filter(p).contains(s.filter(p)[k]));
        s.lemma_filter_contains_rev(p, s.filter(p)[k]);
    }
}

/// Every merged database is a merged database row (its id, name and
/// template unchanged) holding exactly the merged rows that name it: its
/// columns, views and records are the merged columns, views and records
/// whose database is its id, in merged order (so each of those rows is
/// there, and no other); its cells are the merged cells of its records.
pub proof fn lemma_merged_databases_hold_their_rows(l: SyncSnapshotV, s: Option<SyncSnapshotV>, r: SyncSnapshotV, c: MergeCtx, i: int)
    requires
        0 <= i < plan_dbs(l, s, r, c).len(),
    ensures
        ({
            let d = plan_dbs(l, s, r, c)[i];
            let props = plan_props(l, s, r, c);
            let views = plan_views(l, s, r, c);
            let recs = plan_records(l, s, r, c);
            let vals = plan_values(l, s, r, c);
            let base = kept_of(crate::sync::merge::dbs_flat(l, s, r)) + taken_of(crate::sync::merge::dbs_flat(l, s, r))
                + crate::sync::merge::renumbered::<SDatabase>(dbs_ren(l, s, r), c.last_db);
            &&& plan_dbs(l, s, r, c).len() == base.len()
            &&& d.id == base[i].id && d.name == base[i].name && d.template == base[i].template
            &&& d.properties == props.filter(|x: SPropertyV| x.db == d.id)
            &&& d.views == views.filter(|x: SViewV| x.db == d.id)
            &&& d.records == recs.filter(|x: SRecordV| x.db == d.id)
            &&& forall|j: int| 0 <= j < props.len() && props[j].db == d.id ==> #[trigger] d.properties.contains(props[j])
            &&& forall|j: int| 0 <= j < views.len() && views[j].db == d.id ==> #[trigger] d.views.contains(views[j])
            &&& forall|j: int| 0 <= j < recs.len() && recs[j].db == d.id ==> #[trigger] d.records.contains(recs[j])
            &&& forall|k: int| 0 <= k < d.properties.len() ==> (#[trigger] d.properties[k]).db == d.id && props.contains(d.properties[k])
            &&& forall|k: int| 0 <= k < d.views.len() ==> (#[trigger] d.views[k]).db == d.id && views.contains(d.views[k])
            &&& forall|k: int| 0 <= k < d.records.len() ==> (#[trigger] d.records[k]).db == d.id && recs.contains(d.records[k])
            &&& forall|j: int| 0 <= j < vals.len() && (exists|k: int| 0 <= k < d.records.len() && (#[trigger] d.records[k]).id == vals[j].record)
                ==> #[trigger] d.values.contains(vals[j])
            &&& forall|k: int| 0 <= k < d.values.len() ==> vals.contains(#[trigger] d.values[k]) && exists|m: int| 0 <= m < d.records.len() && (#[trigger] d.records[m]).id == d.values[k].record
        }),
{
    let d = plan_dbs(l, s, r, c)[i];
    let props = plan_props(l, s, r, c);
    let views = plan_views(l, s, r, c);
    let recs = plan_records(l, s, r, c);
    let vals = plan_values(l, s, r, c);
    let pp = |x: SPropertyV| x.db == d.id;
    let pv = |x: SViewV| x.db == d.id;
    let pr = |x: SRecordV| x.db == d.id;
    let rs = recs.filter(pr);
    let pc = |v: SValueV| has_key::<SRecord>(rs, (v.record, 0));
    assert(d.properties == props.filter(pp));
    assert(d.views == views.filter(pv));
    assert(d.records == rs);
    assert(d.values == vals.filter(pc));
    lemma_filter_keeps(props, pp);
    lemma_filter_keeps(views, pv);
    lemma_filter_keeps(recs, pr);
    lemma_filter_keeps(vals, pc);
    assert forall|j: int| 0 <= j < vals.len() && (exists|k: int| 0 <= k < d.records.len() && (#[trigger] d.records[k]).id == vals[j].record)
        implies #[trigger] d.values.contains(vals[j]) by {
        let k = choose|k: int| 0 <= k < d.records.len() && (#[trigger] d.records[k]).id == vals[j].record;
        assert(<SRecord as SyncRow>::spec_key(rs[k]) == (vals[j].record, 0u64));
        assert(pc(vals[j]));
    }
    assert forall|k: int| 0 <= k < d.values.len() implies vals.contains(#[trigger] d.values[k]) && exists|m: int| 0 <= m < d.records.len() && (#[trigger] d.records[m]).id == d.values[k].record by {
        assert(pc(d.values[k]));
        let m = choose|m: int| 0 <= m < rs.len() && <SRecord as SyncRow>::spec_key(#[trigger] rs[m]) == (d.values[k].record, 0u64);
        assert(d.records[m].id == d.values[k].record);
    }
}

} // verus!
