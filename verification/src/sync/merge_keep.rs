//! What the merge never drops: a row only the remote side created since the
//! last sync arrives; on a first sync a row both sides hold differently stays
//! local and is logged; when both sides minted the same id for different
//! rows since a sync, both rows survive (the remote one under a fresh id);
//! a renumbered page's remote blocks come along and point at its fresh id;
//! blocks point at the fresh ids of renumbered attachments; and the columns,
//! views and records of a renumbered database arrive under its fresh id.

use vstd::prelude::*;

use crate::sync::merge::{
    atts_flat, dbs_ren, plan_props, plan_views, plan_records, plan_ren_props, plan_ren_views, plan_ren_records,
    props_flat, views_flat, records_flat, remap_prop, remap_view, remap_record, cascade_atts, first_lookup, plan_ren_atts, blocks_flat, cascade, conflict_line, fcon, flat_conflicts, ids_of, key_conflicts, Owned, flat_out, flat_renum, fout, fren, fresh_pairs, has_key, is_union_keys, kept_of,
    key_lt, key_out, key_pick, key_renum, lemma_union_keys_spec, lookup, pages_flat, pages_ren,
    plan_blocks, plan_maps, plan_pages, plan_ren_blocks, remap_block, remap_id, remap_page,
    renumbered, strictly_sorted, taken_of, union_keys_spec, unkeyed, MergeCtx, Pick,
};
use crate::sync::merge_laws::{lemma_lookup_in, lemma_entities_self_same, lemma_values_self_same, lemma_merge_quiet, no_nan_cells};
use crate::sync::model::{SDatabase, SDatabaseV, SProperty, SPropertyV, SView, SViewV, SRecord, SRecordV, SAttachment, SAttachmentV, SBlock, SBlockV, SPage, SPageV, SyncRow, SyncSnapshotV, WireRow};

verus! {

// ─── the key union exists ───────────────────────────────────────────────────

/// `u` with `k` put in its place (unchanged when `k` is there already).
spec fn sorted_insert(u: Seq<(u64, u64)>, k: (u64, u64)) -> Seq<(u64, u64)>
    decreases u.len(),
{
    if u.len() == 0 {
        seq![k]
    } else if key_lt(k, u[0]) {
        seq![k] + u
    } else if u[0] == k {
        u
    } else {
        seq![u[0]] + sorted_insert(u.drop_first(), k)
    }
}

proof fn lemma_sorted_insert(u: Seq<(u64, u64)>, k: (u64, u64))
    requires
        strictly_sorted(u),
    ensures
        strictly_sorted(sorted_insert(u, k)),
        forall|x: (u64, u64)| #[trigger] sorted_insert(u, k).contains(x) <==> (u.contains(x) || x == k),
    decreases u.len(),
{
    let out = sorted_insert(u, k);
    if u.len() == 0 {
        assert(out == seq![k]);
        assert forall|x: (u64, u64)| #[trigger] out.contains(x) <==> (u.contains(x) || x == k) by {
            if out.contains(x) {
                assert(out[0] == k);
            }
            if x == k {
                assert(out[0] == k);
            }
        }
    } else if key_lt(k, u[0]) {
        assert forall|i: int, j: int| 0 <= i < j < out.len() implies key_lt(#[trigger] out[i], #[trigger] out[j]) by {
            if i == 0 {
                assert(out[j] == u[j - 1]);
                if j > 1 {
                    assert(key_lt(u[0], u[j - 1]));
                }
            } else {
                assert(out[i] == u[i - 1] && out[j] == u[j - 1]);
            }
        }
        assert forall|x: (u64, u64)| #[trigger] out.contains(x) <==> (u.contains(x) || x == k) by {
            if out.contains(x) {
                let t = choose|t: int| 0 <= t < out.len() && out[t] == x;
                if t > 0 {
                    assert(u[t - 1] == x);
                }
            }
            if u.contains(x) {
                let t = choose|t: int| 0 <= t < u.len() && u[t] == x;
                assert(out[t + 1] == x);
            }
            if x == k {
                assert(out[0] == k);
            }
        }
    } else if u[0] == k {
        assert forall|x: (u64, u64)| #[trigger] out.contains(x) <==> (u.contains(x) || x == k) by {
            if x == k {
                assert(u[0] == k);
            }
        }
    } else {
        let rest = u.drop_first();
        assert(strictly_sorted(rest)) by {
            assert forall|i: int, j: int| 0 <= i < j < rest.len() implies key_lt(#[trigger] rest[i], #[trigger] rest[j]) by {
                assert(rest[i] == u[i + 1] && rest[j] == u[j + 1]);
            }
        }
        lemma_sorted_insert(rest, k);
        let tail = sorted_insert(rest, k);
        assert(out == seq![u[0]] + tail);
        assert(key_lt(u[0], k));
        assert forall|j: int| 0 <= j < tail.len() implies key_lt(u[0], #[trigger] tail[j]) by {
            assert(tail.contains(tail[j]));
            if tail[j] != k {
                assert(rest.contains(tail[j]));
                let t = choose|t: int| 0 <= t < rest.len() && rest[t] == tail[j];
                assert(rest[t] == u[t + 1]);
            }
        }
        assert forall|i: int, j: int| 0 <= i < j < out.len() implies key_lt(#[trigger] out[i], #[trigger] out[j]) by {
            assert(out[j] == tail[j - 1]);
            if i > 0 {
                assert(out[i] == tail[i - 1]);
            }
        }
        assert forall|x: (u64, u64)| #[trigger] out.contains(x) <==> (u.contains(x) || x == k) by {
            if out.contains(x) {
                let t = choose|t: int| 0 <= t < out.len() && out[t] == x;
                if t > 0 {
                    assert(tail[t - 1] == x);
                    assert(tail.contains(x));
                    if x != k {
                        let q = choose|q: int| 0 <= q < rest.len() && rest[q] == x;
                        assert(u[q + 1] == x);
                    }
                } else {
                    assert(u[0] == x);
                }
            }
            if u.contains(x) {
                let t = choose|t: int| 0 <= t < u.len() && u[t] == x;
                if t == 0 {
                    assert(out[0] == x);
                } else {
                    assert(rest[t - 1] == x);
                    assert(tail.contains(x));
                    let q = choose|q: int| 0 <= q < tail.len() && tail[q] == x;
                    assert(out[q + 1] == x);
                }
            }
            if x == k {
                assert(tail.contains(k));
                let q = choose|q: int| 0 <= q < tail.len() && tail[q] == k;
                assert(out[q + 1] == k);
            }
        }
    }
}

/// The keys of `ks`, sorted, each once.
spec fn sorted_keys(ks: Seq<(u64, u64)>) -> Seq<(u64, u64)>
    decreases ks.len(),
{
    if ks.len() == 0 {
        seq![]
    } else {
        sorted_insert(sorted_keys(ks.drop_last()), ks.last())
    }
}

proof fn lemma_sorted_keys(ks: Seq<(u64, u64)>)
    ensures
        strictly_sorted(sorted_keys(ks)),
        forall|x: (u64, u64)| #[trigger] sorted_keys(ks).contains(x) <==> ks.contains(x),
    decreases ks.len(),
{
    if ks.len() > 0 {
        let init = ks.drop_last();
        lemma_sorted_keys(init);
        lemma_sorted_insert(sorted_keys(init), ks.last());
        assert forall|x: (u64, u64)| #[trigger] sorted_keys(ks).contains(x) <==> ks.contains(x) by {
            if init.contains(x) {
                let t = choose|t: int| 0 <= t < init.len() && init[t] == x;
                assert(ks[t] == x);
            }
            if ks.contains(x) && x != ks.last() {
                let t = choose|t: int| 0 <= t < ks.len() && ks[t] == x;
                assert(init[t] == x);
            }
            if x == ks.last() {
                assert(ks[ks.len() - 1] == x);
            }
        }
    }
}

/// The keys of a collection's rows.
spec fn keys_of<T: SyncRow>(s: Seq<T::V>) -> Seq<(u64, u64)> {
    s.map_values(|x: T::V| T::spec_key(x))
}

/// The merge's key list is the sorted union of the two sides' keys: a key
/// of either side is in it.
proof fn lemma_union_has<T: SyncRow>(l: Seq<T::V>, r: Seq<T::V>, k: (u64, u64))
    requires
        has_key::<T>(l, k) || has_key::<T>(r, k),
    ensures
        union_keys_spec::<T>(l, r).contains(k),
{
    let ks = keys_of::<T>(l) + keys_of::<T>(r);
    lemma_sorted_keys(ks);
    let u = sorted_keys(ks);
    assert forall|x: (u64, u64)| #[trigger] u.contains(x) <==> (has_key::<T>(l, x) || has_key::<T>(r, x)) by {
        if ks.contains(x) {
            let t = choose|t: int| 0 <= t < ks.len() && ks[t] == x;
            if t < l.len() {
                assert(keys_of::<T>(l)[t] == x);
                assert(T::spec_key(l[t]) == x);
            } else {
                assert(keys_of::<T>(r)[t - l.len()] == x);
                assert(T::spec_key(r[t - l.len()]) == x);
            }
        }
        if has_key::<T>(l, x) {
            let t = choose|t: int| 0 <= t < l.len() && T::spec_key(#[trigger] l[t]) == x;
            assert(ks[t] == x);
        }
        if has_key::<T>(r, x) {
            let t = choose|t: int| 0 <= t < r.len() && T::spec_key(#[trigger] r[t]) == x;
            assert(ks[l.len() + t] == x);
        }
    }
    assert(is_union_keys::<T>(u, l, r));
    lemma_union_keys_spec::<T>(u, l, r);
}

// ─── a key's rows reach the merged lists ────────────────────────────────────

proof fn lemma_flat_out_has<T: SyncRow>(l: Seq<T::V>, s: Option<Seq<T::V>>, r: Seq<T::V>, keys: Seq<(u64, u64)>, k: (u64, u64), e: (bool, T::V))
    requires
        keys.contains(k),
        key_out::<T>(l, s, r, k) == seq![e],
    ensures
        flat_out::<T>(l, s, r, keys).contains(e),
    decreases keys.len(),
{
    let init = keys.drop_last();
    if keys.last() == k {
        let out = flat_out::<T>(l, s, r, keys);
        assert(out[out.len() - 1] == e);
    } else {
        let t = choose|t: int| 0 <= t < keys.len() && keys[t] == k;
        assert(init[t] == k);
        lemma_flat_out_has::<T>(l, s, r, init, k, e);
        let a = flat_out::<T>(l, s, r, init);
        let q = choose|q: int| 0 <= q < a.len() && a[q] == e;
        assert(flat_out::<T>(l, s, r, keys)[q] == e);
    }
}

proof fn lemma_flat_renum_has<T: SyncRow>(l: Seq<T::V>, s: Option<Seq<T::V>>, r: Seq<T::V>, keys: Seq<(u64, u64)>, k: (u64, u64), e: ((u64, u64), T::V))
    requires
        keys.contains(k),
        key_renum::<T>(l, s, r, k) == seq![e],
    ensures
        flat_renum::<T>(l, s, r, keys).contains(e),
    decreases keys.len(),
{
    let init = keys.drop_last();
    if keys.last() == k {
        let out = flat_renum::<T>(l, s, r, keys);
        assert(out[out.len() - 1] == e);
    } else {
        let t = choose|t: int| 0 <= t < keys.len() && keys[t] == k;
        assert(init[t] == k);
        lemma_flat_renum_has::<T>(l, s, r, init, k, e);
        let a = flat_renum::<T>(l, s, r, init);
        let q = choose|q: int| 0 <= q < a.len() && a[q] == e;
        assert(flat_renum::<T>(l, s, r, keys)[q] == e);
    }
}

proof fn lemma_kept_has<V>(s: Seq<(bool, V)>, x: V)
    requires
        s.contains((false, x)),
    ensures
        kept_of(s).contains(x),
    decreases s.len(),
{
    if s.last() == (false, x) {
        assert(kept_of(s)[kept_of(s).len() - 1] == x);
    } else {
        let t = choose|t: int| 0 <= t < s.len() && s[t] == (false, x);
        assert(s.drop_last()[t] == (false, x));
        lemma_kept_has(s.drop_last(), x);
        let a = kept_of(s.drop_last());
        let q = choose|q: int| 0 <= q < a.len() && a[q] == x;
        if !s.last().0 {
            assert(kept_of(s)[q] == x);
        }
    }
}

proof fn lemma_taken_has<V>(s: Seq<(bool, V)>, x: V)
    requires
        s.contains((true, x)),
    ensures
        taken_of(s).contains(x),
    decreases s.len(),
{
    if s.last() == (true, x) {
        assert(taken_of(s)[taken_of(s).len() - 1] == x);
    } else {
        let t = choose|t: int| 0 <= t < s.len() && s[t] == (true, x);
        assert(s.drop_last()[t] == (true, x));
        lemma_taken_has(s.drop_last(), x);
        let a = taken_of(s.drop_last());
        let q = choose|q: int| 0 <= q < a.len() && a[q] == x;
        if s.last().0 {
            assert(taken_of(s)[q] == x);
        }
    }
}

// ─── the laws ───────────────────────────────────────────────────────────────

/// A row that only the remote side holds, under a key the shadow does not
/// hold (or with no shadow at all), was created there since the last sync:
/// the merge takes it.
pub proof fn lemma_remote_only_row_flows<T: SyncRow>(l: Seq<T::V>, s: Option<Seq<T::V>>, r: Seq<T::V>, k: (u64, u64))
    requires
        has_key::<T>(r, k),
        !has_key::<T>(l, k),
        s matches Some(sv) ==> !has_key::<T>(sv, k),
    ensures
        lookup::<T>(r, k) is Some,
        taken_of(fout::<T>(l, s, r)).contains(lookup::<T>(r, k)->0),
{
    lemma_lookup_in::<T>(l, k);
    lemma_lookup_in::<T>(r, k);
    if let Some(sv) = s {
        lemma_lookup_in::<T>(sv, k);
    }
    assert(key_pick::<T>(l, s, r, k) == Pick::Remote);
    let x = lookup::<T>(r, k)->0;
    assert(key_out::<T>(l, s, r, k) == seq![(true, x)]);
    lemma_union_has::<T>(l, r, k);
    lemma_flat_out_has::<T>(l, s, r, union_keys_spec::<T>(l, r), k, (true, x));
    lemma_taken_has(fout::<T>(l, s, r), x);
}

proof fn lemma_flat_conflicts_has<T: SyncRow>(
    l: Seq<T::V>,
    s: Option<Seq<T::V>>,
    r: Seq<T::V>,
    keys: Seq<(u64, u64)>,
    k: (u64, u64),
    what: Seq<char>,
    peer: Seq<char>,
    e: Seq<char>,
)
    requires
        keys.contains(k),
        key_conflicts::<T>(l, s, r, k, what, peer) == seq![e],
    ensures
        flat_conflicts::<T>(l, s, r, keys, what, peer).contains(e),
    decreases keys.len(),
{
    let init = keys.drop_last();
    if keys.last() == k {
        let out = flat_conflicts::<T>(l, s, r, keys, what, peer);
        assert(out[out.len() - 1] == e);
    } else {
        let t = choose|t: int| 0 <= t < keys.len() && keys[t] == k;
        assert(init[t] == k);
        lemma_flat_conflicts_has::<T>(l, s, r, init, k, what, peer, e);
        let a = flat_conflicts::<T>(l, s, r, init, what, peer);
        let q = choose|q: int| 0 <= q < a.len() && a[q] == e;
        assert(flat_conflicts::<T>(l, s, r, keys, what, peer)[q] == e);
    }
}

/// A first sync (no shadow at all) keeps the local copy of a row both sides
/// hold and that differs, sets nothing aside for renumbering, and logs the
/// conflict under the row's key.
pub proof fn lemma_first_sync_keeps_local<T: SyncRow>(l: Seq<T::V>, r: Seq<T::V>, k: (u64, u64), what: Seq<char>, peer: Seq<char>)
    requires
        has_key::<T>(l, k),
        has_key::<T>(r, k),
        !T::spec_same(lookup::<T>(l, k)->0, lookup::<T>(r, k)->0),
    ensures
        lookup::<T>(l, k) is Some,
        key_pick::<T>(l, None, r, k) == Pick::Conflict,
        kept_of(fout::<T>(l, None, r)).contains(lookup::<T>(l, k)->0),
        fcon::<T>(l, None, r, what, peer).contains(conflict_line(what, T::spec_key_text(lookup::<T>(l, k)->0), peer)),
{
    lemma_lookup_in::<T>(l, k);
    lemma_lookup_in::<T>(r, k);
    assert(key_pick::<T>(l, None, r, k) == Pick::Conflict);
    let x = lookup::<T>(l, k)->0;
    assert(key_out::<T>(l, None, r, k) == seq![(false, x)]);
    let line = conflict_line(what, T::spec_key_text(x), peer);
    assert(key_conflicts::<T>(l, None, r, k, what, peer) == seq![line]);
    lemma_union_has::<T>(l, r, k);
    let keys = union_keys_spec::<T>(l, r);
    lemma_flat_out_has::<T>(l, None, r, keys, k, (false, x));
    lemma_kept_has(fout::<T>(l, None, r), x);
    lemma_flat_conflicts_has::<T>(l, None, r, keys, k, what, peer, line);
}

/// When both sides minted the same key for different rows since the last
/// sync (there is a shadow and it does not hold the key), neither row is
/// dropped: the local row stays, and the remote row is set aside to be
/// given a fresh id.
pub proof fn lemma_collision_keeps_both<T: SyncRow>(l: Seq<T::V>, s: Option<Seq<T::V>>, r: Seq<T::V>, k: (u64, u64))
    requires
        has_key::<T>(l, k),
        has_key::<T>(r, k),
        !T::spec_same(lookup::<T>(l, k)->0, lookup::<T>(r, k)->0),
        s matches Some(sv) && !has_key::<T>(sv, k),
    ensures
        lookup::<T>(l, k) is Some,
        lookup::<T>(r, k) is Some,
        kept_of(fout::<T>(l, s, r)).contains(lookup::<T>(l, k)->0),
        fren::<T>(l, s, r).contains(lookup::<T>(r, k)->0),
{
    lemma_lookup_in::<T>(l, k);
    lemma_lookup_in::<T>(r, k);
    if let Some(sv) = s {
        lemma_lookup_in::<T>(sv, k);
    }
    assert(key_pick::<T>(l, s, r, k) == Pick::Renumber);
    let x = lookup::<T>(l, k)->0;
    let y = lookup::<T>(r, k)->0;
    assert(key_out::<T>(l, s, r, k) == seq![(false, x)]);
    assert(key_renum::<T>(l, s, r, k) == seq![(k, y)]);
    lemma_union_has::<T>(l, r, k);
    let keys = union_keys_spec::<T>(l, r);
    lemma_flat_out_has::<T>(l, s, r, keys, k, (false, x));
    lemma_kept_has(fout::<T>(l, s, r), x);
    lemma_flat_renum_has::<T>(l, s, r, keys, k, (k, y));
    let fr = flat_renum::<T>(l, s, r, keys);
    let q = choose|q: int| 0 <= q < fr.len() && fr[q] == (k, y);
    assert(unkeyed(fr)[q] == y);
}

/// Two devices that minted the same page id for different pages since the
/// last sync (a shadow that does not hold the id) both keep their page: the merged pages hold the local page
/// unchanged and the remote page under one of the fresh page ids drawn
/// above the page watermark, its references remapped.
pub proof fn lemma_page_collision_keeps_both(l: SyncSnapshotV, s: Option<SyncSnapshotV>, r: SyncSnapshotV, c: MergeCtx, id: u64)
    requires
        has_key::<SPage>(l.pages, (id, 0)),
        has_key::<SPage>(r.pages, (id, 0)),
        !SPage::spec_same(lookup::<SPage>(l.pages, (id, 0))->0, lookup::<SPage>(r.pages, (id, 0))->0),
        s matches Some(sv) && !has_key::<SPage>(sv.pages, (id, 0)),
    ensures
        lookup::<SPage>(l.pages, (id, 0)) is Some,
        lookup::<SPage>(r.pages, (id, 0)) is Some,
        plan_pages(l, s, r, c).contains(lookup::<SPage>(l.pages, (id, 0))->0),
        exists|i: int|
            0 <= i < pages_ren(l, s, r).len() && #[trigger] pages_ren(l, s, r)[i] == lookup::<SPage>(r.pages, (id, 0))->0
                && plan_pages(l, s, r, c).contains(
                remap_page(
                    SPageV { id: (c.last_page + i + 1) as u64, ..lookup::<SPage>(r.pages, (id, 0))->0 },
                    plan_maps(l, s, r, c),
                ),
            ),
{
    let sp = crate::sync::merge::shadow_part(s, |x: SyncSnapshotV| x.pages);
    lemma_collision_keeps_both::<SPage>(l.pages, sp, r.pages, (id, 0));
    let x = lookup::<SPage>(l.pages, (id, 0))->0;
    let y = lookup::<SPage>(r.pages, (id, 0))->0;
    let m = plan_maps(l, s, r, c);
    let kept = kept_of(pages_flat(l, s, r));
    let taken = taken_of(pages_flat(l, s, r)).map_values(|p: SPageV| remap_page(p, m));
    let ren = pages_ren(l, s, r);
    let rens = renumbered::<SPage>(ren, c.last_page).map_values(|p: SPageV| remap_page(p, m));
    assert(plan_pages(l, s, r, c) == kept + taken + rens);
    let a = choose|a: int| 0 <= a < kept.len() && kept[a] == x;
    assert((kept + taken + rens)[a] == x);
    let i = choose|i: int| 0 <= i < ren.len() && ren[i] == y;
    let want = remap_page(SPageV { id: (c.last_page + i + 1) as u64, ..y }, m);
    assert(rens[i] == want);
    assert((kept + taken + rens)[kept.len() + taken.len() + i] == want);
}

// ─── renumbered pages take their blocks along ───────────────────────────────

/// The rows set aside for renumbering come in strictly increasing key order,
/// each under its own key.
proof fn lemma_flat_renum_sorted<T: SyncRow>(l: Seq<T::V>, s: Option<Seq<T::V>>, r: Seq<T::V>, keys: Seq<(u64, u64)>)
    requires
        strictly_sorted(keys),
    ensures
        ({
            let f = flat_renum::<T>(l, s, r, keys);
            &&& forall|j: int| 0 <= j < f.len() ==> keys.contains(#[trigger] f[j].0) && T::spec_key(f[j].1) == f[j].0
            &&& forall|a: int, b: int| 0 <= a < b < f.len() ==> key_lt(#[trigger] f[a].0, #[trigger] f[b].0)
        }),
    decreases keys.len(),
{
    if keys.len() > 0 {
        let init = keys.drop_last();
        let k = keys.last();
        assert(strictly_sorted(init)) by {
            assert forall|a: int, b: int| 0 <= a < b < init.len() implies key_lt(#[trigger] init[a], #[trigger] init[b]) by {
                assert(init[a] == keys[a] && init[b] == keys[b]);
            }
        }
        lemma_flat_renum_sorted::<T>(l, s, r, init);
        let p = flat_renum::<T>(l, s, r, init);
        let e = key_renum::<T>(l, s, r, k);
        let f = flat_renum::<T>(l, s, r, keys);
        assert(f == p + e);
        lemma_lookup_in::<T>(r, k);
        assert forall|j: int| 0 <= j < p.len() implies key_lt(#[trigger] p[j].0, k) by {
            let t = choose|t: int| 0 <= t < init.len() && init[t] == p[j].0;
            assert(keys[t] == init[t]);
        }
        assert forall|j: int| 0 <= j < f.len() implies keys.contains(#[trigger] f[j].0) && T::spec_key(f[j].1) == f[j].0 by {
            if j < p.len() {
                assert(f[j] == p[j]);
                let t = choose|t: int| 0 <= t < init.len() && init[t] == p[j].0;
                assert(keys[t] == init[t]);
            } else {
                assert(f[j] == e[j - p.len()]);
                assert(keys[keys.len() - 1] == k);
            }
        }
        assert forall|a: int, b: int| 0 <= a < b < f.len() implies key_lt(#[trigger] f[a].0, #[trigger] f[b].0) by {
            if b < p.len() {
                assert(f[a] == p[a] && f[b] == p[b]);
            } else {
                assert(f[a] == p[a]);
                assert(f[b] == e[b - p.len()]);
            }
        }
    }
}

/// The pages set aside for renumbering have pairwise different ids.
proof fn lemma_pages_ren_distinct(l: SyncSnapshotV, s: Option<SyncSnapshotV>, r: SyncSnapshotV)
    ensures
        forall|a: int, b: int| 0 <= a < b < pages_ren(l, s, r).len() ==> #[trigger] pages_ren(l, s, r)[a].id != #[trigger] pages_ren(l, s, r)[b].id,
{
    let sp = crate::sync::merge::shadow_part(s, |x: SyncSnapshotV| x.pages);
    let keys = union_keys_spec::<SPage>(l.pages, r.pages);
    let ks = keys_of::<SPage>(l.pages) + keys_of::<SPage>(r.pages);
    lemma_sorted_keys(ks);
    assert(is_union_keys::<SPage>(sorted_keys(ks), l.pages, r.pages)) by {
        assert forall|x: (u64, u64)| #[trigger] sorted_keys(ks).contains(x) <==> (has_key::<SPage>(l.pages, x) || has_key::<SPage>(r.pages, x)) by {
            if ks.contains(x) {
                let t = choose|t: int| 0 <= t < ks.len() && ks[t] == x;
                if t < l.pages.len() {
                    assert(keys_of::<SPage>(l.pages)[t] == x);
                    assert(SPage::spec_key(l.pages[t]) == x);
                } else {
                    assert(keys_of::<SPage>(r.pages)[t - l.pages.len()] == x);
                    assert(SPage::spec_key(r.pages[t - l.pages.len()]) == x);
                }
            }
            if has_key::<SPage>(l.pages, x) {
                let t = choose|t: int| 0 <= t < l.pages.len() && SPage::spec_key(#[trigger] l.pages[t]) == x;
                assert(ks[t] == x);
            }
            if has_key::<SPage>(r.pages, x) {
                let t = choose|t: int| 0 <= t < r.pages.len() && SPage::spec_key(#[trigger] r.pages[t]) == x;
                assert(ks[l.pages.len() + t] == x);
            }
        }
    }
    lemma_union_keys_spec::<SPage>(sorted_keys(ks), l.pages, r.pages);
    lemma_flat_renum_sorted::<SPage>(l.pages, sp, r.pages, keys);
    let f = flat_renum::<SPage>(l.pages, sp, r.pages, keys);
    assert forall|a: int, b: int| 0 <= a < b < pages_ren(l, s, r).len() implies #[trigger] pages_ren(l, s, r)[a].id != #[trigger] pages_ren(l, s, r)[b].id by {
        assert(pages_ren(l, s, r)[a] == f[a].1 && pages_ren(l, s, r)[b] == f[b].1);
        assert(key_lt(f[a].0, f[b].0));
    }
}

/// With pairwise different ids, the renumbering map sends the `i`-th row's
/// id to the `i`-th fresh id.
proof fn lemma_remap_fresh(ren: Seq<SPageV>, last: u64, i: int)
    requires
        0 <= i < ren.len(),
        forall|a: int, b: int| 0 <= a < b < ren.len() ==> #[trigger] ren[a].id != #[trigger] ren[b].id,
    ensures
        remap_id(fresh_pairs::<SPage>(ren, last), ren[i].id) == (last + i + 1) as u64,
    decreases ren.len(),
{
    let map = fresh_pairs::<SPage>(ren, last);
    if i < ren.len() - 1 {
        let init = ren.drop_last();
        assert(map.drop_last() =~= fresh_pairs::<SPage>(init, last));
        assert(map.last().0 == ren[ren.len() - 1].id);
        assert(ren[i].id != ren[ren.len() - 1].id);
        assert forall|a: int, b: int| 0 <= a < b < init.len() implies #[trigger] init[a].id != #[trigger] init[b].id by {
            assert(init[a] == ren[a] && init[b] == ren[b]);
        }
        lemma_remap_fresh(init, last, i);
        assert(init[i] == ren[i]);
    }
}

/// A renumbered page takes its remote blocks along: a remote block that the
/// merge takes, or sets aside for renumbering, and that named the page's
/// old id arrives pointing at the page's fresh id.
pub proof fn lemma_renumbered_page_keeps_its_blocks(l: SyncSnapshotV, s: Option<SyncSnapshotV>, r: SyncSnapshotV, c: MergeCtx, i: int, b: SBlockV)
    requires
        0 <= i < pages_ren(l, s, r).len(),
        b.page == pages_ren(l, s, r)[i].id,
        taken_of(blocks_flat(l, s, r)).contains(b) || plan_ren_blocks(l, s, r).contains(b),
    ensures
        exists|x: SBlockV|
            #[trigger] plan_blocks(l, s, r, c).contains(x) && x.page == (c.last_page + i + 1) as u64 && x.text == b.text
                && x.kind == b.kind,
{
    let m = plan_maps(l, s, r, c);
    lemma_pages_ren_distinct(l, s, r);
    lemma_remap_fresh(pages_ren(l, s, r), c.last_page, i);
    assert(m.pages == fresh_pairs::<SPage>(pages_ren(l, s, r), c.last_page));
    let kept = kept_of(blocks_flat(l, s, r));
    let taken = taken_of(blocks_flat(l, s, r)).map_values(|x: SBlockV| remap_block(x, m));
    let ren = plan_ren_blocks(l, s, r);
    let rens = renumbered::<SBlock>(ren, c.last_block).map_values(|x: SBlockV| remap_block(x, m));
    assert(plan_blocks(l, s, r, c) == kept + taken + rens);
    if taken_of(blocks_flat(l, s, r)).contains(b) {
        let j = choose|j: int| 0 <= j < taken_of(blocks_flat(l, s, r)).len() && taken_of(blocks_flat(l, s, r))[j] == b;
        let x = remap_block(b, m);
        assert(taken[j] == x);
        assert((kept + taken + rens)[kept.len() + j] == x);
        assert(plan_blocks(l, s, r, c).contains(x));
    } else {
        let j = choose|j: int| 0 <= j < ren.len() && ren[j] == b;
        let x = remap_block(SBlockV { id: (c.last_block + j + 1) as u64, ..b }, m);
        assert(rens[j] == x);
        assert((kept + taken + rens)[kept.len() + taken.len() + j] == x);
        assert(plan_blocks(l, s, r, c).contains(x));
    }
}

/// Every row the merge takes comes from the remote side's rows, every row it
/// keeps from the local side's.
proof fn lemma_flat_out_rows<T: SyncRow>(l: Seq<T::V>, s: Option<Seq<T::V>>, r: Seq<T::V>, keys: Seq<(u64, u64)>)
    ensures
        forall|j: int| 0 <= j < flat_out::<T>(l, s, r, keys).len() ==> (#[trigger] flat_out::<T>(l, s, r, keys)[j]).0 ==> r.contains(
            flat_out::<T>(l, s, r, keys)[j].1,
        ),
    decreases keys.len(),
{
    if keys.len() > 0 {
        let init = keys.drop_last();
        let k = keys.last();
        lemma_flat_out_rows::<T>(l, s, r, init);
        lemma_lookup_in::<T>(r, k);
        lemma_lookup_in::<T>(l, k);
        let p = flat_out::<T>(l, s, r, init);
        let e = key_out::<T>(l, s, r, k);
        let f = flat_out::<T>(l, s, r, keys);
        assert(f == p + e);
        assert forall|j: int| 0 <= j < f.len() implies (#[trigger] f[j]).0 ==> r.contains(f[j].1) by {
            if j < p.len() {
                assert(f[j] == p[j]);
            } else {
                assert(f[j] == e[j - p.len()]);
            }
        }
    }
}

proof fn lemma_taken_rows<V>(s: Seq<(bool, V)>)
    ensures
        forall|x: V| #[trigger] taken_of(s).contains(x) ==> s.contains((true, x)),
    decreases s.len(),
{
    if s.len() > 0 {
        lemma_taken_rows(s.drop_last());
        assert forall|x: V| #[trigger] taken_of(s).contains(x) implies s.contains((true, x)) by {
            let t = choose|t: int| 0 <= t < taken_of(s).len() && taken_of(s)[t] == x;
            let d = taken_of(s.drop_last());
            if s.last().0 && t == d.len() {
                assert(taken_of(s) == d.push(s.last().1));
                assert(s[s.len() - 1] == (true, x));
            } else {
                if s.last().0 {
                    assert(taken_of(s) == d.push(s.last().1));
                } else {
                    assert(taken_of(s) == d);
                }
                assert(d[t] == x);
                assert(d.contains(x));
                let q = choose|q: int| 0 <= q < s.drop_last().len() && s.drop_last()[q] == (true, x);
                assert(s[q] == (true, x));
            }
        }
    }
}

proof fn lemma_flat_renum_rows<T: SyncRow>(l: Seq<T::V>, s: Option<Seq<T::V>>, r: Seq<T::V>, keys: Seq<(u64, u64)>)
    ensures
        forall|j: int| 0 <= j < flat_renum::<T>(l, s, r, keys).len() ==> r.contains((#[trigger] flat_renum::<T>(l, s, r, keys)[j]).1),
    decreases keys.len(),
{
    if keys.len() > 0 {
        let init = keys.drop_last();
        let k = keys.last();
        lemma_flat_renum_rows::<T>(l, s, r, init);
        lemma_lookup_in::<T>(r, k);
        let p = flat_renum::<T>(l, s, r, init);
        let e = key_renum::<T>(l, s, r, k);
        let f = flat_renum::<T>(l, s, r, keys);
        assert(f == p + e);
        assert forall|j: int| 0 <= j < f.len() implies r.contains((#[trigger] f[j]).1) by {
            if j < p.len() {
                assert(f[j] == p[j]);
            } else {
                assert(f[j] == e[j - p.len()]);
            }
        }
    }
}

/// What the cascade pulls along is drawn from the rows it walks.
proof fn lemma_cascade_rows(rows: Seq<SBlockV>, owners: Seq<u64>, present: Seq<SBlockV>)
    ensures
        forall|x: SBlockV| #[trigger] cascade::<SBlock>(rows, owners, present).contains(x) ==> rows.contains(x),
    decreases rows.len(),
{
    if rows.len() > 0 {
        let init = rows.drop_last();
        lemma_cascade_rows(init, owners, present);
        assert forall|x: SBlockV| #[trigger] cascade::<SBlock>(rows, owners, present).contains(x) implies rows.contains(x) by {
            let prev = cascade::<SBlock>(init, owners, present);
            let c = cascade::<SBlock>(rows, owners, present);
            let t = choose|t: int| 0 <= t < c.len() && c[t] == x;
            let last = rows.last();
            let pulls = owners.contains(SBlock::spec_owner(last)) && !has_key::<SBlock>(present, (SBlock::spec_key(last).0, 0u64))
                && !has_key::<SBlock>(prev, (SBlock::spec_key(last).0, 0u64));
            if pulls {
                assert(c == prev.push(last));
            } else {
                assert(c == prev);
            }
            if t < prev.len() {
                assert(prev[t] == x);
                assert(prev.contains(x));
                let q = choose|q: int| 0 <= q < init.len() && init[q] == x;
                assert(rows[q] == x);
            } else {
                assert(rows[rows.len() - 1] == x);
            }
        }
    }
}

/// A row whose container is among the owners, whose id nothing present
/// holds and no other row shares, is pulled along.
proof fn lemma_cascade_pulls(rows: Seq<SBlockV>, owners: Seq<u64>, present: Seq<SBlockV>, j: int)
    requires
        0 <= j < rows.len(),
        owners.contains(rows[j].page),
        !has_key::<SBlock>(present, (rows[j].id, 0)),
        forall|a: int| 0 <= a < rows.len() && a != j ==> (#[trigger] rows[a]).id != rows[j].id,
    ensures
        cascade::<SBlock>(rows, owners, present).contains(rows[j]),
    decreases rows.len(),
{
    let init = rows.drop_last();
    let prev = cascade::<SBlock>(init, owners, present);
    if j == rows.len() - 1 {
        lemma_cascade_rows(init, owners, present);
        assert(!has_key::<SBlock>(prev, (rows[j].id, 0))) by {
            if has_key::<SBlock>(prev, (rows[j].id, 0)) {
                let t = choose|t: int| 0 <= t < prev.len() && SBlock::spec_key(#[trigger] prev[t]) == (rows[j].id, 0u64);
                assert(prev.contains(prev[t]));
                let q = choose|q: int| 0 <= q < init.len() && init[q] == prev[t];
                assert(rows[q] == init[q]);
            }
        }
        let c = cascade::<SBlock>(rows, owners, present);
        assert(c == prev.push(rows[j]));
        assert(c[c.len() - 1] == rows[j]);
    } else {
        assert forall|a: int| 0 <= a < init.len() && a != j implies (#[trigger] init[a]).id != init[j].id by {
            assert(init[a] == rows[a]);
        }
        assert(init[j] == rows[j]);
        lemma_cascade_pulls(init, owners, present, j);
        let q = choose|q: int| 0 <= q < prev.len() && prev[q] == rows[j];
        let c = cascade::<SBlock>(rows, owners, present);
        assert(c[q] == rows[j]);
    }
}

/// A renumbered page pulls its remote blocks along: a remote block (one per
/// id on that side) that names the page is taken, set aside as a collision,
/// or pulled with its page; either way it is among the rows whose page
/// reference the merge remaps.
pub proof fn lemma_renumbered_page_pulls_its_blocks(l: SyncSnapshotV, s: Option<SyncSnapshotV>, r: SyncSnapshotV, i: int, j: int)
    requires
        0 <= i < pages_ren(l, s, r).len(),
        0 <= j < r.blocks.len(),
        r.blocks[j].page == pages_ren(l, s, r)[i].id,
        forall|a: int| 0 <= a < r.blocks.len() && a != j ==> (#[trigger] r.blocks[a]).id != r.blocks[j].id,
    ensures
        taken_of(blocks_flat(l, s, r)).contains(r.blocks[j]) || plan_ren_blocks(l, s, r).contains(r.blocks[j]),
{
    let x = r.blocks[j];
    let k = (x.id, 0u64);
    let sb = crate::sync::merge::shadow_part(s, |y: SyncSnapshotV| y.blocks);
    let keys = union_keys_spec::<SBlock>(l.blocks, r.blocks);
    let flat = blocks_flat(l, s, r);
    let taken = taken_of(flat);
    let ren0 = fren::<SBlock>(l.blocks, sb, r.blocks);
    let present = taken + ren0;
    let owners = ids_of::<SPage>(pages_ren(l, s, r));
    assert(plan_ren_blocks(l, s, r) == ren0 + cascade::<SBlock>(r.blocks, owners, present));
    if has_key::<SBlock>(present, k) {
        let t = choose|t: int| 0 <= t < present.len() && SBlock::spec_key(#[trigger] present[t]) == k;
        let y = present[t];
        assert(r.blocks.contains(y)) by {
            if t < taken.len() {
                assert(taken[t] == y);
                assert(taken.contains(y));
                lemma_taken_rows(flat);
                assert(flat.contains((true, y)));
                lemma_flat_out_rows::<SBlock>(l.blocks, sb, r.blocks, keys);
                let q = choose|q: int| 0 <= q < flat.len() && flat[q] == (true, y);
            } else {
                assert(ren0[t - taken.len()] == y);
                lemma_flat_renum_rows::<SBlock>(l.blocks, sb, r.blocks, keys);
                let fr = flat_renum::<SBlock>(l.blocks, sb, r.blocks, keys);
                assert(fr[t - taken.len()].1 == y);
            }
        }
        let q = choose|q: int| 0 <= q < r.blocks.len() && r.blocks[q] == y;
        assert(q == j);
        if t < taken.len() {
            assert(taken[t] == x);
        } else {
            assert(ren0[t - taken.len()] == x);
            assert(plan_ren_blocks(l, s, r)[t - taken.len()] == x);
        }
    } else {
        assert(owners[i] == x.page);
        lemma_cascade_pulls(r.blocks, owners, present, j);
        let cs = cascade::<SBlock>(r.blocks, owners, present);
        let q = choose|q: int| 0 <= q < cs.len() && cs[q] == x;
        assert(plan_ren_blocks(l, s, r)[ren0.len() + q] == x);
    }
}


// ─── renumbered attachments: blocks point at their fresh ids ────────────────

/// The rows of a collection set aside for renumbering carry pairwise
/// different keys.
proof fn lemma_fren_distinct<T: SyncRow>(l: Seq<T::V>, s: Option<Seq<T::V>>, r: Seq<T::V>)
    ensures
        forall|a: int, b: int| 0 <= a < b < fren::<T>(l, s, r).len() ==> T::spec_key(#[trigger] fren::<T>(l, s, r)[a]) != T::spec_key(#[trigger] fren::<T>(l, s, r)[b]),
{
    let keys = union_keys_spec::<T>(l, r);
    let ks = keys_of::<T>(l) + keys_of::<T>(r);
    lemma_sorted_keys(ks);
    assert(is_union_keys::<T>(sorted_keys(ks), l, r)) by {
        assert forall|x: (u64, u64)| #[trigger] sorted_keys(ks).contains(x) <==> (has_key::<T>(l, x) || has_key::<T>(r, x)) by {
            if ks.contains(x) {
                let t = choose|t: int| 0 <= t < ks.len() && ks[t] == x;
                if t < l.len() {
                    assert(keys_of::<T>(l)[t] == x);
                    assert(T::spec_key(l[t]) == x);
                } else {
                    assert(keys_of::<T>(r)[t - l.len()] == x);
                    assert(T::spec_key(r[t - l.len()]) == x);
                }
            }
            if has_key::<T>(l, x) {
                let t = choose|t: int| 0 <= t < l.len() && T::spec_key(#[trigger] l[t]) == x;
                assert(ks[t] == x);
            }
            if has_key::<T>(r, x) {
                let t = choose|t: int| 0 <= t < r.len() && T::spec_key(#[trigger] r[t]) == x;
                assert(ks[l.len() + t] == x);
            }
        }
    }
    lemma_union_keys_spec::<T>(sorted_keys(ks), l, r);
    lemma_flat_renum_sorted::<T>(l, s, r, keys);
    let f = flat_renum::<T>(l, s, r, keys);
    assert forall|a: int, b: int| 0 <= a < b < fren::<T>(l, s, r).len() implies T::spec_key(#[trigger] fren::<T>(l, s, r)[a]) != T::spec_key(#[trigger] fren::<T>(l, s, r)[b]) by {
        assert(fren::<T>(l, s, r)[a] == f[a].1 && fren::<T>(l, s, r)[b] == f[b].1);
        assert(key_lt(f[a].0, f[b].0));
    }
}

proof fn lemma_first_lookup_key<T: SyncRow>(s: Seq<T::V>, k: (u64, u64))
    ensures
        first_lookup::<T>(s, k) matches Some(a) ==> T::spec_key(a) == k,
    decreases s.len(),
{
    if s.len() > 0 && T::spec_key(s[0]) != k {
        lemma_first_lookup_key::<T>(s.drop_first(), k);
    }
}

/// The attachments the cascade pulls carry pairwise different ids, none of
/// them an id `present` holds.
proof fn lemma_cascade_atts_distinct(blocks: Seq<SBlockV>, atts: Seq<SAttachmentV>, present: Seq<SAttachmentV>)
    ensures
        forall|j: int| 0 <= j < cascade_atts(blocks, atts, present).len() ==> !has_key::<SAttachment>(present, ((#[trigger] cascade_atts(blocks, atts, present)[j]).id, 0u64)),
        forall|a: int, b: int| 0 <= a < b < cascade_atts(blocks, atts, present).len() ==> (#[trigger] cascade_atts(blocks, atts, present)[a]).id != (#[trigger] cascade_atts(blocks, atts, present)[b]).id,
    decreases blocks.len(),
{
    if blocks.len() > 0 {
        lemma_cascade_atts_distinct(blocks.drop_last(), atts, present);
        let prev = cascade_atts(blocks.drop_last(), atts, present);
        let c = cascade_atts(blocks, atts, present);
        if let Some(att) = blocks.last().attachment {
            if !has_key::<SAttachment>(present, (att, 0)) && !has_key::<SAttachment>(prev, (att, 0)) {
                lemma_first_lookup_key::<SAttachment>(atts, (att, 0));
                if let Some(x) = first_lookup::<SAttachment>(atts, (att, 0)) {
                    assert(c == prev.push(x));
                    assert(x.id == att);
                    assert forall|a: int, b: int| 0 <= a < b < c.len() implies (#[trigger] c[a]).id != (#[trigger] c[b]).id by {
                        if b == c.len() - 1 {
                            assert(c[a] == prev[a]);
                            if c[a].id == att {
                                assert(SAttachment::spec_key(prev[a]) == (att, 0u64));
                            }
                        } else {
                            assert(c[a] == prev[a] && c[b] == prev[b]);
                        }
                    }
                    assert forall|j: int| 0 <= j < c.len() implies !has_key::<SAttachment>(present, ((#[trigger] c[j]).id, 0u64)) by {
                        if j < prev.len() {
                            assert(c[j] == prev[j]);
                        }
                    }
                }
            }
        }
    }
}

/// The attachments set aside for renumbering carry pairwise different ids.
proof fn lemma_ren_atts_distinct(l: SyncSnapshotV, s: Option<SyncSnapshotV>, r: SyncSnapshotV)
    ensures
        forall|a: int, b: int| 0 <= a < b < plan_ren_atts(l, s, r).len() ==> (#[trigger] plan_ren_atts(l, s, r)[a]).id != (#[trigger] plan_ren_atts(l, s, r)[b]).id,
{
    let sa = crate::sync::merge::shadow_part(s, |x: SyncSnapshotV| x.attachments);
    let ren0 = fren::<SAttachment>(l.attachments, sa, r.attachments);
    let present = taken_of(atts_flat(l, s, r)) + ren0;
    let c = cascade_atts(plan_ren_blocks(l, s, r), r.attachments, present);
    lemma_fren_distinct::<SAttachment>(l.attachments, sa, r.attachments);
    lemma_cascade_atts_distinct(plan_ren_blocks(l, s, r), r.attachments, present);
    let all = plan_ren_atts(l, s, r);
    assert(all == ren0 + c);
    assert forall|a: int, b: int| 0 <= a < b < all.len() implies (#[trigger] all[a]).id != (#[trigger] all[b]).id by {
        if b < ren0.len() {
            assert(all[a] == ren0[a] && all[b] == ren0[b]);
            assert(SAttachment::spec_key(ren0[a]) != SAttachment::spec_key(ren0[b]));
        } else if a < ren0.len() {
            assert(all[a] == ren0[a] && all[b] == c[b - ren0.len()]);
            assert(!has_key::<SAttachment>(present, (c[b - ren0.len()].id, 0u64)));
            if all[a].id == all[b].id {
                assert(present[taken_of(atts_flat(l, s, r)).len() + a] == ren0[a]);
                assert(SAttachment::spec_key(present[taken_of(atts_flat(l, s, r)).len() + a]) == (c[b - ren0.len()].id, 0u64));
            }
        } else {
            assert(all[a] == c[a - ren0.len()] && all[b] == c[b - ren0.len()]);
        }
    }
}

/// With pairwise different ids, the renumbering map sends the `i`-th
/// attachment's id to the `i`-th fresh attachment id.
proof fn lemma_remap_fresh_att(ren: Seq<SAttachmentV>, last: u64, i: int)
    requires
        0 <= i < ren.len(),
        forall|a: int, b: int| 0 <= a < b < ren.len() ==> (#[trigger] ren[a]).id != (#[trigger] ren[b]).id,
    ensures
        remap_id(fresh_pairs::<SAttachment>(ren, last), ren[i].id) == (last + i + 1) as u64,
    decreases ren.len(),
{
    let map = fresh_pairs::<SAttachment>(ren, last);
    if i < ren.len() - 1 {
        let init = ren.drop_last();
        assert(map.drop_last() =~= fresh_pairs::<SAttachment>(init, last));
        assert(map.last().0 == ren[ren.len() - 1].id);
        assert(ren[i].id != ren[ren.len() - 1].id);
        assert forall|a: int, b: int| 0 <= a < b < init.len() implies (#[trigger] init[a]).id != (#[trigger] init[b]).id by {
            assert(init[a] == ren[a] && init[b] == ren[b]);
        }
        lemma_remap_fresh_att(init, last, i);
        assert(init[i] == ren[i]);
    }
}

/// A remote block the merge takes, or sets aside for renumbering, that names
/// an attachment the merge renumbered arrives pointing at that attachment's
/// fresh id: its attachment reference does not dangle.
pub proof fn lemma_block_follows_renumbered_attachment(l: SyncSnapshotV, s: Option<SyncSnapshotV>, r: SyncSnapshotV, c: MergeCtx, i: int, b: SBlockV)
    requires
        0 <= i < plan_ren_atts(l, s, r).len(),
        b.attachment == Some(plan_ren_atts(l, s, r)[i].id),
        taken_of(blocks_flat(l, s, r)).contains(b) || plan_ren_blocks(l, s, r).contains(b),
    ensures
        exists|x: SBlockV|
            #[trigger] plan_blocks(l, s, r, c).contains(x) && x.attachment == Some((c.last_attachment + i + 1) as u64)
                && x.text == b.text && x.kind == b.kind,
{
    let m = plan_maps(l, s, r, c);
    lemma_ren_atts_distinct(l, s, r);
    lemma_remap_fresh_att(plan_ren_atts(l, s, r), c.last_attachment, i);
    assert(m.atts == fresh_pairs::<SAttachment>(plan_ren_atts(l, s, r), c.last_attachment));
    let kept = kept_of(blocks_flat(l, s, r));
    let taken = taken_of(blocks_flat(l, s, r)).map_values(|x: SBlockV| remap_block(x, m));
    let ren = plan_ren_blocks(l, s, r);
    let rens = renumbered::<SBlock>(ren, c.last_block).map_values(|x: SBlockV| remap_block(x, m));
    assert(plan_blocks(l, s, r, c) == kept + taken + rens);
    if taken_of(blocks_flat(l, s, r)).contains(b) {
        let j = choose|j: int| 0 <= j < taken_of(blocks_flat(l, s, r)).len() && taken_of(blocks_flat(l, s, r))[j] == b;
        let x = remap_block(b, m);
        assert(taken[j] == x);
        assert((kept + taken + rens)[kept.len() + j] == x);
        assert(plan_blocks(l, s, r, c).contains(x));
    } else {
        let j = choose|j: int| 0 <= j < ren.len() && ren[j] == b;
        let x = remap_block(SBlockV { id: (c.last_block + j + 1) as u64, ..b }, m);
        assert(rens[j] == x);
        assert((kept + taken + rens)[kept.len() + taken.len() + j] == x);
        assert(plan_blocks(l, s, r, c).contains(x));
    }
}


// ─── renumbered databases: their columns, views and records follow ──────────

/// With pairwise different ids, the renumbering map sends the `i`-th
/// database's id to the `i`-th fresh database id.
proof fn lemma_remap_fresh_db(ren: Seq<SDatabaseV>, last: u64, i: int)
    requires
        0 <= i < ren.len(),
        forall|a: int, b: int| 0 <= a < b < ren.len() ==> (#[trigger] ren[a]).id != (#[trigger] ren[b]).id,
    ensures
        remap_id(fresh_pairs::<SDatabase>(ren, last), ren[i].id) == (last + i + 1) as u64,
    decreases ren.len(),
{
    let map = fresh_pairs::<SDatabase>(ren, last);
    if i < ren.len() - 1 {
        let init = ren.drop_last();
        assert(map.drop_last() =~= fresh_pairs::<SDatabase>(init, last));
        assert(map.last().0 == ren[ren.len() - 1].id);
        assert(ren[i].id != ren[ren.len() - 1].id);
        assert forall|a: int, b: int| 0 <= a < b < init.len() implies (#[trigger] init[a]).id != (#[trigger] init[b]).id by {
            assert(init[a] == ren[a] && init[b] == ren[b]);
        }
        lemma_remap_fresh_db(init, last, i);
        assert(init[i] == ren[i]);
    }
}

/// The renumbering map of databases sends the `i`-th renumbered database's
/// old id to its fresh id.
proof fn lemma_db_fresh(l: SyncSnapshotV, s: Option<SyncSnapshotV>, r: SyncSnapshotV, c: MergeCtx, i: int)
    requires
        0 <= i < dbs_ren(l, s, r).len(),
    ensures
        remap_id(plan_maps(l, s, r, c).dbs, dbs_ren(l, s, r)[i].id) == (c.last_db + i + 1) as u64,
{
    let sd = crate::sync::merge::shadow_part(s, |x: SyncSnapshotV| crate::sync::merge::entities(x.databases));
    let ren = dbs_ren(l, s, r);
    lemma_fren_distinct::<SDatabase>(crate::sync::merge::entities(l.databases), sd, crate::sync::merge::entities(r.databases));
    assert forall|a: int, b: int| 0 <= a < b < ren.len() implies (#[trigger] ren[a]).id != (#[trigger] ren[b]).id by {
        assert(SDatabase::spec_key(ren[a]) != SDatabase::spec_key(ren[b]));
    }
    lemma_remap_fresh_db(ren, c.last_db, i);
}

/// A column the merge takes from the remote side, or sets aside for
/// renumbering, that belongs to a renumbered database arrives under that
/// database's fresh id.
pub proof fn lemma_column_follows_renumbered_database(l: SyncSnapshotV, s: Option<SyncSnapshotV>, r: SyncSnapshotV, c: MergeCtx, i: int, p: SPropertyV)
    requires
        0 <= i < dbs_ren(l, s, r).len(),
        p.db == dbs_ren(l, s, r)[i].id,
        taken_of(props_flat(l, s, r)).contains(p) || plan_ren_props(l, s, r).contains(p),
    ensures
        exists|x: SPropertyV| #[trigger] plan_props(l, s, r, c).contains(x) && x.db == (c.last_db + i + 1) as u64 && x.name == p.name,
{
    let m = plan_maps(l, s, r, c);
    lemma_db_fresh(l, s, r, c, i);
    let kept = kept_of(props_flat(l, s, r));
    let tk = taken_of(props_flat(l, s, r));
    let taken = tk.map_values(|x: SPropertyV| remap_prop(x, m));
    let ren = plan_ren_props(l, s, r);
    let rens = renumbered::<SProperty>(ren, c.last_property).map_values(|x: SPropertyV| remap_prop(x, m));
    assert(plan_props(l, s, r, c) == kept + taken + rens);
    if tk.contains(p) {
        let j = choose|j: int| 0 <= j < tk.len() && tk[j] == p;
        let x = remap_prop(p, m);
        assert(taken[j] == x);
        assert((kept + taken + rens)[kept.len() + j] == x);
        assert(plan_props(l, s, r, c).contains(x));
    } else {
        let j = choose|j: int| 0 <= j < ren.len() && ren[j] == p;
        let x = remap_prop(SPropertyV { id: (c.last_property + j + 1) as u64, ..p }, m);
        assert(rens[j] == x);
        assert((kept + taken + rens)[kept.len() + taken.len() + j] == x);
        assert(plan_props(l, s, r, c).contains(x));
    }
}

/// A view the merge takes from the remote side, or sets aside for
/// renumbering, that belongs to a renumbered database arrives under that
/// database's fresh id.
pub proof fn lemma_view_follows_renumbered_database(l: SyncSnapshotV, s: Option<SyncSnapshotV>, r: SyncSnapshotV, c: MergeCtx, i: int, v: SViewV)
    requires
        0 <= i < dbs_ren(l, s, r).len(),
        v.db == dbs_ren(l, s, r)[i].id,
        taken_of(views_flat(l, s, r)).contains(v) || plan_ren_views(l, s, r).contains(v),
    ensures
        exists|x: SViewV| #[trigger] plan_views(l, s, r, c).contains(x) && x.db == (c.last_db + i + 1) as u64 && x.name == v.name,
{
    let m = plan_maps(l, s, r, c);
    lemma_db_fresh(l, s, r, c, i);
    let kept = kept_of(views_flat(l, s, r));
    let tk = taken_of(views_flat(l, s, r));
    let taken = tk.map_values(|x: SViewV| remap_view(x, m));
    let ren = plan_ren_views(l, s, r);
    let rens = renumbered::<SView>(ren, c.last_view).map_values(|x: SViewV| remap_view(x, m));
    assert(plan_views(l, s, r, c) == kept + taken + rens);
    if tk.contains(v) {
        let j = choose|j: int| 0 <= j < tk.len() && tk[j] == v;
        let x = remap_view(v, m);
        assert(taken[j] == x);
        assert((kept + taken + rens)[kept.len() + j] == x);
        assert(plan_views(l, s, r, c).contains(x));
    } else {
        let j = choose|j: int| 0 <= j < ren.len() && ren[j] == v;
        let x = remap_view(SViewV { id: (c.last_view + j + 1) as u64, ..v }, m);
        assert(rens[j] == x);
        assert((kept + taken + rens)[kept.len() + taken.len() + j] == x);
        assert(plan_views(l, s, r, c).contains(x));
    }
}

/// A record the merge takes from the remote side, or sets aside for
/// renumbering, that belongs to a renumbered database arrives under that
/// database's fresh id.
pub proof fn lemma_record_follows_renumbered_database(l: SyncSnapshotV, s: Option<SyncSnapshotV>, r: SyncSnapshotV, c: MergeCtx, i: int, x0: SRecordV)
    requires
        0 <= i < dbs_ren(l, s, r).len(),
        x0.db == dbs_ren(l, s, r)[i].id,
        taken_of(records_flat(l, s, r)).contains(x0) || plan_ren_records(l, s, r).contains(x0),
    ensures
        exists|x: SRecordV| #[trigger] plan_records(l, s, r, c).contains(x) && x.db == (c.last_db + i + 1) as u64 && x.ord == x0.ord,
{
    let m = plan_maps(l, s, r, c);
    lemma_db_fresh(l, s, r, c, i);
    let kept = kept_of(records_flat(l, s, r));
    let tk = taken_of(records_flat(l, s, r));
    let taken = tk.map_values(|x: SRecordV| remap_record(x, m));
    let ren = plan_ren_records(l, s, r);
    let rens = renumbered::<SRecord>(ren, c.last_record).map_values(|x: SRecordV| remap_record(x, m));
    assert(plan_records(l, s, r, c) == kept + taken + rens);
    if tk.contains(x0) {
        let j = choose|j: int| 0 <= j < tk.len() && tk[j] == x0;
        let x = remap_record(x0, m);
        assert(taken[j] == x);
        assert((kept + taken + rens)[kept.len() + j] == x);
        assert(plan_records(l, s, r, c).contains(x));
    } else {
        let j = choose|j: int| 0 <= j < ren.len() && ren[j] == x0;
        let x = remap_record(SRecordV { id: (c.last_record + j + 1) as u64, ..x0 }, m);
        assert(rens[j] == x);
        assert((kept + taken + rens)[kept.len() + taken.len() + j] == x);
        assert(plan_records(l, s, r, c).contains(x));
    }
}

// ─── when only the remote side moved ────────────────────────────────────────

/// With the shadow equal to the local pages, a key gives the remote page
/// under it (or nothing, when the remote side has none).
proof fn lemma_remote_moved_key(l: Seq<SPageV>, r: Seq<SPageV>, k: (u64, u64))
    ensures
        forall|e: (bool, SPageV)| #[trigger] key_out::<SPage>(l, Some(l), r, k).contains(e) ==> Some(e.1) == lookup::<SPage>(r, k),
        lookup::<SPage>(r, k) matches Some(x) ==> key_out::<SPage>(l, Some(l), r, k) == seq![(true, x)] || key_out::<SPage>(l, Some(l), r, k)
            == seq![(false, x)],
{
    let o = key_out::<SPage>(l, Some(l), r, k);
    assert forall|e: (bool, SPageV)| #[trigger] o.contains(e) implies Some(e.1) == lookup::<SPage>(r, k) by {
        let t = choose|t: int| 0 <= t < o.len() && o[t] == e;
        assert(t == 0);
    }
}

proof fn lemma_remote_moved_fold(l: Seq<SPageV>, r: Seq<SPageV>, keys: Seq<(u64, u64)>)
    ensures
        forall|i: int| 0 <= i < kept_of(flat_out::<SPage>(l, Some(l), r, keys)).len() ==> r.contains(
            #[trigger] kept_of(flat_out::<SPage>(l, Some(l), r, keys))[i],
        ),
        forall|i: int| 0 <= i < taken_of(flat_out::<SPage>(l, Some(l), r, keys)).len() ==> r.contains(
            #[trigger] taken_of(flat_out::<SPage>(l, Some(l), r, keys))[i],
        ),
    decreases keys.len(),
{
    if keys.len() > 0 {
        let k = keys.last();
        lemma_remote_moved_fold(l, r, keys.drop_last());
        lemma_remote_moved_key(l, r, k);
        lemma_lookup_in::<SPage>(r, k);
        let prev = flat_out::<SPage>(l, Some(l), r, keys.drop_last());
        let step = key_out::<SPage>(l, Some(l), r, k);
        let all = flat_out::<SPage>(l, Some(l), r, keys);
        assert(all == prev + step);
        if step.len() == 1 {
            let x = step[0];
            assert(step.contains(x));
            assert(r.contains(x.1));
            assert(all =~= prev.push(x));
            assert(all.drop_last() =~= prev);
            assert(all.last() == x);
            if x.0 {
                assert(kept_of(all) == kept_of(prev));
                assert(taken_of(all) == taken_of(prev).push(x.1));
                assert forall|i: int| 0 <= i < taken_of(all).len() implies r.contains(#[trigger] taken_of(all)[i]) by {
                    if i < taken_of(prev).len() {
                        assert(taken_of(all)[i] == taken_of(prev)[i]);
                    }
                }
            } else {
                assert(taken_of(all) == taken_of(prev));
                assert(kept_of(all) == kept_of(prev).push(x.1));
                assert forall|i: int| 0 <= i < kept_of(all).len() implies r.contains(#[trigger] kept_of(all)[i]) by {
                    if i < kept_of(prev).len() {
                        assert(kept_of(all)[i] == kept_of(prev)[i]);
                    }
                }
            }
        } else {
            assert(step.len() == 0);
            assert(all =~= prev);
        }
    }
}

/// When only the remote side moved since the last sync (the shadow is the
/// local snapshot), the merge takes the remote pages: every merged page is
/// a remote page, unchanged, and every remote page (the last row under its
/// id, should an id repeat) is merged.
pub proof fn lemma_remote_moved_takes_remote_pages(l: SyncSnapshotV, r: SyncSnapshotV, c: MergeCtx)
    requires
        no_nan_cells(l),
    ensures
        forall|i: int| 0 <= i < plan_pages(l, Some(l), r, c).len() ==> r.pages.contains(#[trigger] plan_pages(l, Some(l), r, c)[i]),
        forall|j: int| 0 <= j < r.pages.len() ==> plan_pages(l, Some(l), r, c).contains(lookup::<SPage>(r.pages, (#[trigger] r.pages[j].id, 0))->0),
{
    let s = Some(l);
    lemma_entities_self_same(l.databases);
    lemma_values_self_same(l);
    lemma_merge_quiet(l, s, r, Seq::empty(), c);
    let m = plan_maps(l, s, r, c);
    assert(m.pages.len() == 0);
    assert(m.atts.len() == 0);
    let keys = union_keys_spec::<SPage>(l.pages, r.pages);
    assert(crate::sync::merge::shadow_part(s, |x: SyncSnapshotV| x.pages) == Some(l.pages));
    assert(pages_flat(l, s, r) == flat_out::<SPage>(l.pages, Some(l.pages), r.pages, keys));
    let kept = kept_of(pages_flat(l, s, r));
    let taken = taken_of(pages_flat(l, s, r));
    assert(taken.map_values(|p: SPageV| remap_page(p, m)) =~= taken);
    assert(renumbered::<SPage>(pages_ren(l, s, r), c.last_page).map_values(|p: SPageV| remap_page(p, m)) =~= Seq::<SPageV>::empty());
    let pp = plan_pages(l, s, r, c);
    assert(pp =~= kept + taken);
    lemma_remote_moved_fold(l.pages, r.pages, keys);
    assert forall|i: int| 0 <= i < pp.len() implies r.pages.contains(#[trigger] pp[i]) by {
        if i < kept.len() {
            assert(pp[i] == kept[i]);
        } else {
            assert(pp[i] == taken[i - kept.len()]);
        }
    }
    assert forall|j: int| 0 <= j < r.pages.len() implies pp.contains(lookup::<SPage>(r.pages, (#[trigger] r.pages[j].id, 0))->0) by {
        let k = (r.pages[j].id, 0u64);
        assert(<SPage as SyncRow>::spec_key(r.pages[j]) == k);
        assert(has_key::<SPage>(r.pages, k));
        lemma_lookup_in::<SPage>(r.pages, k);
        let x = lookup::<SPage>(r.pages, k)->0;
        lemma_union_has::<SPage>(l.pages, r.pages, k);
        lemma_remote_moved_key(l.pages, r.pages, k);
        if key_out::<SPage>(l.pages, Some(l.pages), r.pages, k) == seq![(true, x)] {
            lemma_flat_out_has::<SPage>(l.pages, Some(l.pages), r.pages, keys, k, (true, x));
            lemma_taken_has(pages_flat(l, s, r), x);
            let t = choose|t: int| 0 <= t < taken.len() && taken[t] == x;
            assert(pp[kept.len() + t] == x);
        } else {
            lemma_flat_out_has::<SPage>(l.pages, Some(l.pages), r.pages, keys, k, (false, x));
            lemma_kept_has(pages_flat(l, s, r), x);
            let t = choose|t: int| 0 <= t < kept.len() && kept[t] == x;
            assert(pp[t] == x);
        }
    }
}

/// A row both sides edited differently since the last sync (the shadow
/// holds a third version) keeps its local version, and the conflict is
/// logged under its key; the remote version is not taken.
pub proof fn lemma_both_edited_keeps_local<T: SyncRow>(l: Seq<T::V>, sv: Seq<T::V>, r: Seq<T::V>, k: (u64, u64), what: Seq<char>, peer: Seq<char>)
    requires
        has_key::<T>(l, k),
        has_key::<T>(r, k),
        has_key::<T>(sv, k),
        !T::spec_same(lookup::<T>(l, k)->0, lookup::<T>(r, k)->0),
        !T::spec_same(lookup::<T>(l, k)->0, lookup::<T>(sv, k)->0),
        !T::spec_same(lookup::<T>(r, k)->0, lookup::<T>(sv, k)->0),
    ensures
        lookup::<T>(l, k) is Some,
        kept_of(fout::<T>(l, Some(sv), r)).contains(lookup::<T>(l, k)->0),
        !taken_of(fout::<T>(l, Some(sv), r)).contains(lookup::<T>(r, k)->0),
        fcon::<T>(l, Some(sv), r, what, peer).contains(conflict_line(what, T::spec_key_text(lookup::<T>(l, k)->0), peer)),
{
    lemma_lookup_in::<T>(l, k);
    lemma_lookup_in::<T>(r, k);
    lemma_lookup_in::<T>(sv, k);
    let s = Some(sv);
    assert(key_pick::<T>(l, s, r, k) == Pick::Conflict);
    let x = lookup::<T>(l, k)->0;
    assert(key_out::<T>(l, s, r, k) == seq![(false, x)]);
    let line = conflict_line(what, T::spec_key_text(x), peer);
    assert(key_conflicts::<T>(l, s, r, k, what, peer) == seq![line]);
    lemma_union_has::<T>(l, r, k);
    let keys = union_keys_spec::<T>(l, r);
    lemma_flat_out_has::<T>(l, s, r, keys, k, (false, x));
    lemma_kept_has(fout::<T>(l, s, r), x);
    lemma_flat_conflicts_has::<T>(l, s, r, keys, k, what, peer, line);
    lemma_taken_keys::<T>(l, s, r, keys, k);
}

/// Every row a flat merge takes from the remote side under key `k` comes
/// from a key whose pick is `Remote`.
proof fn lemma_taken_keys<T: SyncRow>(l: Seq<T::V>, s: Option<Seq<T::V>>, r: Seq<T::V>, keys: Seq<(u64, u64)>, k: (u64, u64))
    requires
        key_pick::<T>(l, s, r, k) != Pick::Remote,
    ensures
        forall|i: int| 0 <= i < taken_of(flat_out::<T>(l, s, r, keys)).len() ==> T::spec_key(#[trigger] taken_of(flat_out::<T>(l, s, r, keys))[i]) != k,
    decreases keys.len(),
{
    if keys.len() > 0 {
        let kk = keys.last();
        lemma_taken_keys::<T>(l, s, r, keys.drop_last(), k);
        lemma_lookup_in::<T>(r, kk);
        let prev = flat_out::<T>(l, s, r, keys.drop_last());
        let step = key_out::<T>(l, s, r, kk);
        let all = flat_out::<T>(l, s, r, keys);
        assert(all == prev + step);
        if step.len() == 1 {
            let x = step[0];
            assert(all =~= prev.push(x));
            assert(all.drop_last() =~= prev);
            assert(all.last() == x);
            if x.0 {
                assert(key_pick::<T>(l, s, r, kk) == Pick::Remote);
                assert(T::spec_key(x.1) == kk);
                assert(taken_of(all) == taken_of(prev).push(x.1));
                assert forall|i: int| 0 <= i < taken_of(all).len() implies T::spec_key(#[trigger] taken_of(all)[i]) != k by {
                    if i < taken_of(prev).len() {
                        assert(taken_of(all)[i] == taken_of(prev)[i]);
                    }
                }
            } else {
                assert(taken_of(all) == taken_of(prev));
            }
        } else {
            assert(all =~= prev);
        }
    }
}

/// A row only the remote side changed since the last sync (the local row
/// is the shadow's) is taken from the remote side; one the remote side
/// deleted is dropped: no merged row carries its key.
pub proof fn lemma_remote_edit_taken<T: SyncRow>(l: Seq<T::V>, sv: Seq<T::V>, r: Seq<T::V>, k: (u64, u64))
    requires
        has_key::<T>(l, k),
        has_key::<T>(sv, k),
        T::spec_same(lookup::<T>(l, k)->0, lookup::<T>(sv, k)->0),
        has_key::<T>(r, k) ==> !T::spec_same(lookup::<T>(l, k)->0, lookup::<T>(r, k)->0),
    ensures
        has_key::<T>(r, k) ==> lookup::<T>(r, k) is Some && taken_of(fout::<T>(l, Some(sv), r)).contains(lookup::<T>(r, k)->0),
        !has_key::<T>(r, k) ==> fout::<T>(l, Some(sv), r) == flat_out::<T>(l, Some(sv), r, union_keys_spec::<T>(l, r))
            && forall|i: int| 0 <= i < fout::<T>(l, Some(sv), r).len() ==> T::spec_key((#[trigger] fout::<T>(l, Some(sv), r)[i]).1) != k,
{
    lemma_lookup_in::<T>(l, k);
    lemma_lookup_in::<T>(r, k);
    lemma_lookup_in::<T>(sv, k);
    let s = Some(sv);
    assert(key_pick::<T>(l, s, r, k) == Pick::Remote);
    let keys = union_keys_spec::<T>(l, r);
    if has_key::<T>(r, k) {
        let y = lookup::<T>(r, k)->0;
        assert(key_out::<T>(l, s, r, k) == seq![(true, y)]);
        lemma_union_has::<T>(l, r, k);
        lemma_flat_out_has::<T>(l, s, r, keys, k, (true, y));
        lemma_taken_has(fout::<T>(l, s, r), y);
    } else {
        assert(key_out::<T>(l, s, r, k) == Seq::<(bool, T::V)>::empty());
        lemma_out_keys::<T>(l, s, r, keys, k);
    }
}

/// A key whose contribution is empty gives no merged row under it, when the
/// key list names it at most once.
proof fn lemma_out_keys<T: SyncRow>(l: Seq<T::V>, s: Option<Seq<T::V>>, r: Seq<T::V>, keys: Seq<(u64, u64)>, k: (u64, u64))
    requires
        key_out::<T>(l, s, r, k) == Seq::<(bool, T::V)>::empty(),
    ensures
        forall|i: int| 0 <= i < flat_out::<T>(l, s, r, keys).len() ==> T::spec_key((#[trigger] flat_out::<T>(l, s, r, keys)[i]).1) != k,
    decreases keys.len(),
{
    if keys.len() > 0 {
        let kk = keys.last();
        lemma_out_keys::<T>(l, s, r, keys.drop_last(), k);
        lemma_lookup_in::<T>(r, kk);
        lemma_lookup_in::<T>(l, kk);
        let prev = flat_out::<T>(l, s, r, keys.drop_last());
        let step = key_out::<T>(l, s, r, kk);
        let all = flat_out::<T>(l, s, r, keys);
        assert(all == prev + step);
        if step.len() == 1 {
            assert(kk != k);
            let x = step[0];
            assert(T::spec_key(x.1) == kk);
            assert forall|i: int| 0 <= i < all.len() implies T::spec_key((#[trigger] all[i]).1) != k by {
                if i < prev.len() {
                    assert(all[i] == prev[i]);
                } else {
                    assert(all[i] == x);
                }
            }
        } else {
            assert(all =~= prev);
        }
    }
}

/// A row only the local side changed since the last sync (the remote row
/// is the shadow's) keeps its local version, and no conflict is logged for
/// it.
pub proof fn lemma_local_edit_kept<T: SyncRow>(l: Seq<T::V>, sv: Seq<T::V>, r: Seq<T::V>, k: (u64, u64))
    requires
        has_key::<T>(l, k),
        has_key::<T>(r, k),
        has_key::<T>(sv, k),
        T::spec_same(lookup::<T>(r, k)->0, lookup::<T>(sv, k)->0),
        !T::spec_same(lookup::<T>(l, k)->0, lookup::<T>(sv, k)->0),
    ensures
        lookup::<T>(l, k) is Some,
        key_pick::<T>(l, Some(sv), r, k) != Pick::Conflict,
        kept_of(fout::<T>(l, Some(sv), r)).contains(lookup::<T>(l, k)->0),
{
    lemma_lookup_in::<T>(l, k);
    lemma_lookup_in::<T>(r, k);
    lemma_lookup_in::<T>(sv, k);
    let s = Some(sv);
    let x = lookup::<T>(l, k)->0;
    assert(key_pick::<T>(l, s, r, k) == Pick::Local);
    assert(key_out::<T>(l, s, r, k) == seq![(false, x)]);
    lemma_union_has::<T>(l, r, k);
    let keys = union_keys_spec::<T>(l, r);
    lemma_flat_out_has::<T>(l, s, r, keys, k, (false, x));
    lemma_kept_has(fout::<T>(l, s, r), x);
}

} // verus!
