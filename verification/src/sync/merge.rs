//! The three-way merge of two sync snapshots against the shadow (what the
//! two peers last agreed on).
//!
//! Per row of every collection, over the union of the local and remote keys:
//!
//! - local == remote: converged, keep local;
//! - shadow == local (remote moved): take remote, an edit or a delete;
//! - shadow == remote (local moved): keep local;
//! - the shadow lacks the row, both present and different: two devices
//!   minted the same id since the last sync; the remote row gets a fresh id
//!   and both stay;
//! - anything else: both sides edited the row; local stays and the conflict
//!   is logged.
//!
//! A first sync between two devices that both have content runs with no
//! shadow at all: every row both sides hold and that differs is a conflict
//! and stays local (two workspaces merged for the first time are one user
//! decision, not one algorithm), and the rows that only one side has still
//! flow.
//!
//! Renumbering cascades: a renumbered page renumbers its blocks; a renumbered
//! database renumbers its columns, views, records and cells; renumbered
//! blocks pull their attachment rows along. Every remote-origin row that
//! survives then has its cross-references walked through the renumbering
//! maps, so no pointer dangles on arrival.

use vstd::prelude::*;

use crate::sync::model::{
    rows_view, strings_view, SAttachment, SAttachmentV, SBlock, SBlockV, SDatabase, SDatabaseV,
    SPage, SPageV, SProperty, SPropertyV, SRecord, SRecordV, SValue, SValueV, SView, SViewV,
    SyncRow, SyncSnapshot, SyncSnapshotV, WireRow,
};
use vstd::string::StringExecFns;

verus! {

broadcast use vstd::string::group_string_axioms;

// ─── finding a row by key ───────────────────────────────────────────────────

/// The index of the last row with key `k`, or -1. A later row with the same
/// key shadows an earlier one.
pub open spec fn last_key_index<T: SyncRow>(s: Seq<T::V>, k: (u64, u64)) -> int
    decreases s.len(),
{
    if s.len() == 0 {
        -1
    } else if T::spec_key(s.last()) == k {
        s.len() - 1
    } else {
        last_key_index::<T>(s.drop_last(), k)
    }
}

/// The row a collection holds under key `k`, if any.
pub open spec fn lookup<T: SyncRow>(s: Seq<T::V>, k: (u64, u64)) -> Option<T::V> {
    let i = last_key_index::<T>(s, k);
    if i < 0 {
        None
    } else {
        Some(s[i])
    }
}

pub(crate) proof fn lemma_last_key_index_range<T: SyncRow>(s: Seq<T::V>, k: (u64, u64))
    ensures
        -1 <= last_key_index::<T>(s, k) < s.len(),
        last_key_index::<T>(s, k) >= 0 ==> T::spec_key(s[last_key_index::<T>(s, k)]) == k,
        last_key_index::<T>(s, k) < 0 ==> forall|i: int| 0 <= i < s.len() ==> T::spec_key(#[trigger] s[i]) != k,
    decreases s.len(),
{
    if s.len() > 0 {
        lemma_last_key_index_range::<T>(s.drop_last(), k);
        if T::spec_key(s.last()) != k {
            assert forall|i: int| 0 <= i < s.len() && last_key_index::<T>(s, k) < 0 implies T::spec_key(#[trigger] s[i]) != k by {
                if i < s.len() - 1 {
                    assert(s.drop_last()[i] == s[i]);
                }
            }
        }
    }
}

/// Where the last row with key `k` stands, if anywhere.
pub(crate) fn index_of_row<T: SyncRow>(rows: &Vec<T>, k: (u64, u64)) -> (r: Option<usize>)
    ensures
        match r {
            Some(i) => last_key_index::<T>(rows_view(rows@), k) == i as int && i < rows@.len(),
            None => last_key_index::<T>(rows_view(rows@), k) == -1,
        },
{
    let ghost s = rows_view(rows@);
    assert(s.take(s.len() as int) =~= s);
    let mut i: usize = rows.len();
    while i > 0
        invariant
            i <= rows@.len(),
            s == rows_view(rows@),
            last_key_index::<T>(s, k) == last_key_index::<T>(s.take(i as int), k),
        decreases i,
    {
        assert(s.take(i as int).drop_last() =~= s.take(i - 1));
        assert(s.take(i as int).last() == rows@[i - 1]@);
        let x = rows[i - 1].key();
        if x.0 == k.0 && x.1 == k.1 {
            return Some(i - 1);
        }
        i = i - 1;
    }
    assert(s.take(0).len() == 0);
    None
}

// ─── the key set ────────────────────────────────────────────────────────────

/// Keys order by their first column, then their second.
pub open spec fn key_lt(a: (u64, u64), b: (u64, u64)) -> bool {
    a.0 < b.0 || (a.0 == b.0 && a.1 < b.1)
}

pub open spec fn strictly_sorted(s: Seq<(u64, u64)>) -> bool {
    forall|i: int, j: int| 0 <= i < j < s.len() ==> key_lt(#[trigger] s[i], #[trigger] s[j])
}

/// Add `k` to a strictly sorted key list, unless it is there already.
fn insert_key(keys: &mut Vec<(u64, u64)>, k: (u64, u64))
    requires
        strictly_sorted(old(keys)@),
    ensures
        strictly_sorted(final(keys)@),
        forall|x: (u64, u64)| #[trigger] final(keys)@.contains(x) <==> (old(keys)@.contains(x) || x == k),
        final(keys)@.len() <= old(keys)@.len() + 1,
{
    let mut i: usize = 0;
    while i < keys.len() && (keys[i].0 < k.0 || (keys[i].0 == k.0 && keys[i].1 < k.1))
        invariant
            i <= keys@.len(),
            keys@ == old(keys)@,
            strictly_sorted(keys@),
            forall|j: int| 0 <= j < i ==> key_lt(#[trigger] keys@[j], k),
        decreases keys@.len() - i,
    {
        i = i + 1;
    }
    if i < keys.len() && keys[i].0 == k.0 && keys[i].1 == k.1 {
        assert(keys@[i as int] == k);
        return;
    }
    proof {
        assert forall|j: int| i <= j < keys@.len() implies key_lt(k, #[trigger] keys@[j]) by {
            if j > i {
                assert(key_lt(keys@[i as int], keys@[j]));
            }
        }
    }
    keys.insert(i, k);
    proof {
        let s = keys@;
        assert forall|a: int, b: int| 0 <= a < b < s.len() implies key_lt(#[trigger] s[a], #[trigger] s[b]) by {
            let o = old(keys)@;
            if b < i {
                assert(s[a] == o[a] && s[b] == o[b]);
            } else if b == i {
                assert(s[a] == o[a]);
            } else if a < i {
                assert(s[a] == o[a] && s[b] == o[b - 1]);
            } else if a == i {
                assert(s[b] == o[b - 1]);
            } else {
                assert(s[a] == o[a - 1] && s[b] == o[b - 1]);
            }
        }
        assert forall|x: (u64, u64)| #[trigger] keys@.contains(x) <==> (old(keys)@.contains(x) || x == k) by {
            let o = old(keys)@;
            if keys@.contains(x) {
                let t = choose|t: int| 0 <= t < keys@.len() && keys@[t] == x;
                if t < i {
                    assert(o[t] == x);
                } else if t > i {
                    assert(o[t - 1] == x);
                }
            }
            if o.contains(x) {
                let t = choose|t: int| 0 <= t < o.len() && o[t] == x;
                if t < i {
                    assert(keys@[t] == x);
                } else {
                    assert(keys@[t + 1] == x);
                }
            }
            if x == k {
                assert(keys@[i as int] == k);
            }
        }
    }
}

/// Two strictly sorted key lists with the same keys are the same list.
proof fn lemma_sorted_unique(a: Seq<(u64, u64)>, b: Seq<(u64, u64)>)
    requires
        strictly_sorted(a),
        strictly_sorted(b),
        forall|x: (u64, u64)| #[trigger] a.contains(x) <==> b.contains(x),
    ensures
        a == b,
    decreases a.len() + b.len(),
{
    if a.len() == 0 {
        if b.len() > 0 {
            assert(b.contains(b[0]));
            assert(a.contains(b[0]));
        }
        assert(a =~= b);
    } else {
        assert(a.contains(a[0]));
        assert(b.contains(a[0]));
        if b.len() == 0 {
            assert(false);
        }
        assert(b.contains(b[0]));
        assert(a.contains(b[0]));
        let j = choose|j: int| 0 <= j < b.len() && b[j] == a[0];
        let i = choose|i: int| 0 <= i < a.len() && a[i] == b[0];
        if j > 0 {
            assert(key_lt(b[0], b[j]));
            if i > 0 {
                assert(key_lt(a[0], a[i]));
            }
            assert(false);
        }
        assert(a[0] == b[0]);
        let a1 = a.drop_first();
        let b1 = b.drop_first();
        assert forall|x: (u64, u64)| #[trigger] a1.contains(x) <==> b1.contains(x) by {
            if a1.contains(x) {
                let t = choose|t: int| 0 <= t < a1.len() && a1[t] == x;
                assert(a[t + 1] == x);
                assert(key_lt(a[0], a[t + 1]));
                assert(a.contains(x));
                assert(b.contains(x));
                let u = choose|u: int| 0 <= u < b.len() && b[u] == x;
                if u == 0 {
                    assert(false);
                }
                assert(b1[u - 1] == x);
            }
            if b1.contains(x) {
                let t = choose|t: int| 0 <= t < b1.len() && b1[t] == x;
                assert(b[t + 1] == x);
                assert(key_lt(b[0], b[t + 1]));
                assert(b.contains(x));
                assert(a.contains(x));
                let u = choose|u: int| 0 <= u < a.len() && a[u] == x;
                if u == 0 {
                    assert(false);
                }
                assert(a1[u - 1] == x);
            }
        }
        assert forall|p: int, q: int| 0 <= p < q < a1.len() implies key_lt(#[trigger] a1[p], #[trigger] a1[q]) by {
            assert(key_lt(a[p + 1], a[q + 1]));
        }
        assert forall|p: int, q: int| 0 <= p < q < b1.len() implies key_lt(#[trigger] b1[p], #[trigger] b1[q]) by {
            assert(key_lt(b[p + 1], b[q + 1]));
        }
        lemma_sorted_unique(a1, b1);
        assert(a =~= seq![a[0]] + a1);
        assert(b =~= seq![b[0]] + b1);
    }
}

/// Some row of `s` has key `k`.
pub open spec fn has_key<T: SyncRow>(s: Seq<T::V>, k: (u64, u64)) -> bool {
    exists|i: int| 0 <= i < s.len() && T::spec_key(#[trigger] s[i]) == k
}

/// The union of the local and remote keys, sorted, each once.
fn union_keys<T: SyncRow>(local: &Vec<T>, remote: &Vec<T>) -> (r: Vec<(u64, u64)>)
    ensures
        strictly_sorted(r@),
        forall|k: (u64, u64)| #[trigger] r@.contains(k) <==> (has_key::<T>(rows_view(local@), k) || has_key::<T>(rows_view(remote@), k)),
        r@.len() <= local@.len() + remote@.len(),
{
    let mut keys: Vec<(u64, u64)> = Vec::new();
    let mut i: usize = 0;
    while i < local.len()
        invariant
            i <= local@.len(),
            strictly_sorted(keys@),
            keys@.len() <= i,
            forall|k: (u64, u64)| #[trigger] keys@.contains(k) <==> has_key::<T>(rows_view(local@).take(i as int), k),
        decreases local@.len() - i,
    {
        let k = local[i].key();
        let ghost before = keys@;
        insert_key(&mut keys, k);
        proof {
            let p = rows_view(local@).take(i + 1);
            let q = rows_view(local@).take(i as int);
            assert forall|x: (u64, u64)| #[trigger] keys@.contains(x) <==> has_key::<T>(p, x) by {
                if has_key::<T>(p, x) && x != k {
                    let t = choose|t: int| 0 <= t < p.len() && T::spec_key(#[trigger] p[t]) == x;
                    assert(t < i);
                    assert(q[t] == p[t]);
                    assert(has_key::<T>(q, x));
                }
                if has_key::<T>(q, x) {
                    let t = choose|t: int| 0 <= t < q.len() && T::spec_key(#[trigger] q[t]) == x;
                    assert(p[t] == q[t]);
                }
                if x == k {
                    assert(p[i as int] == local@[i as int]@);
                }
            }
        }
        i = i + 1;
    }
    assert(rows_view(local@).take(local@.len() as int) =~= rows_view(local@));
    let mut j: usize = 0;
    while j < remote.len()
        invariant
            j <= remote@.len(),
            strictly_sorted(keys@),
            keys@.len() <= local@.len() + j,
            forall|k: (u64, u64)| #[trigger] keys@.contains(k) <==> (has_key::<T>(rows_view(local@), k) || has_key::<T>(rows_view(remote@).take(j as int), k)),
        decreases remote@.len() - j,
    {
        let k = remote[j].key();
        insert_key(&mut keys, k);
        proof {
            let p = rows_view(remote@).take(j + 1);
            let q = rows_view(remote@).take(j as int);
            assert forall|x: (u64, u64)| #[trigger] keys@.contains(x) <==> (has_key::<T>(rows_view(local@), x) || has_key::<T>(p, x)) by {
                if has_key::<T>(p, x) && x != k {
                    let t = choose|t: int| 0 <= t < p.len() && T::spec_key(#[trigger] p[t]) == x;
                    assert(q[t] == p[t]);
                    assert(has_key::<T>(q, x));
                }
                if has_key::<T>(q, x) {
                    let t = choose|t: int| 0 <= t < q.len() && T::spec_key(#[trigger] q[t]) == x;
                    assert(p[t] == q[t]);
                }
                if x == k {
                    assert(p[j as int] == remote@[j as int]@);
                }
            }
        }
        j = j + 1;
    }
    assert(rows_view(remote@).take(remote@.len() as int) =~= rows_view(remote@));
    keys
}

// ─── one row decision per key ───────────────────────────────────────────────

/// One row decision per key.
#[derive(Clone, Copy, PartialEq, Eq, Structural)]
pub enum Pick {
    /// Local's row (or absence) wins unchanged.
    Local,
    /// Remote's row (or absence) wins.
    Remote,
    /// Remote's row wins but its id collides with a different local row: it
    /// gets a fresh id and both stay.
    Renumber,
    /// Both sides edited; local wins and the user is told.
    Conflict,
}

/// Two optional rows are equal: both absent, or both present and equal.
pub open spec fn opt_same<T: SyncRow>(a: Option<T::V>, b: Option<T::V>) -> bool {
    match (a, b) {
        (Some(x), Some(y)) => T::spec_same(x, y),
        (None, None) => true,
        _ => false,
    }
}

/// The decision for one key, from the local row, the remote row and the
/// shadow: `None` is no shadow at all (a first sync), `Some(None)` a shadow
/// that never held the key, `Some(Some(row))` the row both sides last agreed
/// on.
pub open spec fn pick<T: SyncRow>(l: Option<T::V>, r: Option<T::V>, s: Option<Option<T::V>>) -> Pick {
    if l is Some && r is Some && T::spec_same(l->0, r->0) {
        Pick::Local
    } else if l is None && r is None {
        Pick::Local
    } else {
        match s {
            Some(Some(sv)) => {
                if opt_same::<T>(l, Some(sv)) {
                    Pick::Remote
                } else if opt_same::<T>(r, Some(sv)) {
                    Pick::Local
                } else {
                    Pick::Conflict
                }
            },
            Some(None) => {
                if l is Some && r is Some {
                    Pick::Renumber
                } else if l is None {
                    Pick::Remote
                } else {
                    Pick::Local
                }
            },
            None => {
                if l is Some && r is Some {
                    Pick::Conflict
                } else if l is None {
                    Pick::Remote
                } else {
                    Pick::Local
                }
            },
        }
    }
}

pub open spec fn opt_view<T: View>(o: Option<&T>) -> Option<T::V> {
    match o {
        Some(x) => Some(x@),
        None => None,
    }
}

pub open spec fn opt_opt_view<T: View>(o: Option<Option<&T>>) -> Option<Option<T::V>> {
    match o {
        Some(x) => Some(opt_view(x)),
        None => None,
    }
}

fn opt_eq<T: SyncRow>(a: Option<&T>, b: &T) -> (r: bool)
    ensures
        r == opt_same::<T>(opt_view(a), Some(b@)),
{
    match a {
        Some(x) => x.same(b),
        None => false,
    }
}

fn decide<T: SyncRow>(l: Option<&T>, r: Option<&T>, s: Option<Option<&T>>) -> (p: Pick)
    ensures
        p == pick::<T>(opt_view(l), opt_view(r), opt_opt_view(s)),
{
    match (l, r) {
        (Some(lv), Some(rv)) => {
            if lv.same(rv) {
                return Pick::Local;
            }
        },
        (None, None) => {
            return Pick::Local;
        },
        _ => {},
    }
    match s {
        Some(Some(sv)) => {
            if opt_eq(l, sv) {
                Pick::Remote
            } else if opt_eq(r, sv) {
                Pick::Local
            } else {
                Pick::Conflict
            }
        },
        Some(None) => {
            if l.is_some() && r.is_some() {
                Pick::Renumber
            } else if l.is_none() {
                Pick::Remote
            } else {
                Pick::Local
            }
        },
        None => {
            if l.is_some() && r.is_some() {
                Pick::Conflict
            } else if l.is_none() {
                Pick::Remote
            } else {
                Pick::Local
            }
        },
    }
}

// ─── the flat merge of one collection ───────────────────────────────────────

/// The line a conflict is logged as.
pub open spec fn conflict_line(what: Seq<char>, key: Seq<char>, peer: Seq<char>) -> Seq<char> {
    what + " "@ + key + ": changed on both sides \u{2014} kept this device's copy ("@ + peer
        + " keeps its own)"@
}

fn conflict_text(what: &str, key: &str, peer: &str) -> (r: String)
    ensures
        r@ == conflict_line(what@, key@, peer@),
{
    let mut s = String::from_str(what);
    s.append(" ");
    s.append(key);
    s.append(": changed on both sides \u{2014} kept this device's copy (");
    s.append(peer);
    s.append(" keeps its own)");
    s
}

/// The shadow's row under `k`, three-valued as `pick` reads it.
pub open spec fn shadow_row<T: SyncRow>(s: Option<Seq<T::V>>, k: (u64, u64)) -> Option<Option<T::V>> {
    match s {
        Some(ss) => Some(lookup::<T>(ss, k)),
        None => None,
    }
}

pub open spec fn key_pick<T: SyncRow>(l: Seq<T::V>, s: Option<Seq<T::V>>, r: Seq<T::V>, k: (u64, u64)) -> Pick {
    pick::<T>(lookup::<T>(l, k), lookup::<T>(r, k), shadow_row::<T>(s, k))
}

/// What one key contributes to the merged rows: the winning side's row (if
/// it has one), tagged `true` when it is the remote row.
pub open spec fn key_out<T: SyncRow>(l: Seq<T::V>, s: Option<Seq<T::V>>, r: Seq<T::V>, k: (u64, u64)) -> Seq<(bool, T::V)> {
    match key_pick::<T>(l, s, r, k) {
        Pick::Remote => match lookup::<T>(r, k) {
            Some(x) => seq![(true, x)],
            None => seq![],
        },
        _ => match lookup::<T>(l, k) {
            Some(x) => seq![(false, x)],
            None => seq![],
        },
    }
}

/// What one key contributes to the rows to renumber.
pub open spec fn key_renum<T: SyncRow>(l: Seq<T::V>, s: Option<Seq<T::V>>, r: Seq<T::V>, k: (u64, u64)) -> Seq<((u64, u64), T::V)> {
    if key_pick::<T>(l, s, r, k) == Pick::Renumber {
        match lookup::<T>(r, k) {
            Some(x) => seq![(k, x)],
            None => seq![],
        }
    } else {
        seq![]
    }
}

/// What one key contributes to the conflict log.
pub open spec fn key_conflicts<T: SyncRow>(
    l: Seq<T::V>,
    s: Option<Seq<T::V>>,
    r: Seq<T::V>,
    k: (u64, u64),
    what: Seq<char>,
    peer: Seq<char>,
) -> Seq<Seq<char>> {
    if key_pick::<T>(l, s, r, k) == Pick::Conflict {
        let row = match lookup::<T>(l, k) {
            Some(x) => x,
            None => lookup::<T>(r, k)->0,
        };
        seq![conflict_line(what, T::spec_key_text(row), peer)]
    } else {
        seq![]
    }
}

pub open spec fn flat_out<T: SyncRow>(l: Seq<T::V>, s: Option<Seq<T::V>>, r: Seq<T::V>, keys: Seq<(u64, u64)>) -> Seq<(bool, T::V)>
    decreases keys.len(),
{
    if keys.len() == 0 {
        seq![]
    } else {
        flat_out::<T>(l, s, r, keys.drop_last()) + key_out::<T>(l, s, r, keys.last())
    }
}

pub open spec fn flat_renum<T: SyncRow>(l: Seq<T::V>, s: Option<Seq<T::V>>, r: Seq<T::V>, keys: Seq<(u64, u64)>) -> Seq<((u64, u64), T::V)>
    decreases keys.len(),
{
    if keys.len() == 0 {
        seq![]
    } else {
        flat_renum::<T>(l, s, r, keys.drop_last()) + key_renum::<T>(l, s, r, keys.last())
    }
}

pub open spec fn flat_conflicts<T: SyncRow>(
    l: Seq<T::V>,
    s: Option<Seq<T::V>>,
    r: Seq<T::V>,
    keys: Seq<(u64, u64)>,
    what: Seq<char>,
    peer: Seq<char>,
) -> Seq<Seq<char>>
    decreases keys.len(),
{
    if keys.len() == 0 {
        seq![]
    } else {
        flat_conflicts::<T>(l, s, r, keys.drop_last(), what, peer) + key_conflicts::<T>(
            l,
            s,
            r,
            keys.last(),
            what,
            peer,
        )
    }
}

/// `keys` is the union of the local and remote keys, sorted, each once.
pub open spec fn is_union_keys<T: SyncRow>(keys: Seq<(u64, u64)>, l: Seq<T::V>, r: Seq<T::V>) -> bool {
    &&& strictly_sorted(keys)
    &&& forall|k: (u64, u64)| #[trigger] keys.contains(k) <==> (has_key::<T>(l, k) || has_key::<T>(r, k))
}

/// The union of the local and remote keys, sorted, each once.
pub open spec fn union_keys_spec<T: SyncRow>(l: Seq<T::V>, r: Seq<T::V>) -> Seq<(u64, u64)> {
    choose|keys: Seq<(u64, u64)>| is_union_keys::<T>(keys, l, r)
}

pub(crate) proof fn lemma_union_keys_spec<T: SyncRow>(keys: Seq<(u64, u64)>, l: Seq<T::V>, r: Seq<T::V>)
    requires
        is_union_keys::<T>(keys, l, r),
    ensures
        union_keys_spec::<T>(l, r) == keys,
{
    let u = union_keys_spec::<T>(l, r);
    assert(is_union_keys::<T>(u, l, r));
    assert forall|x: (u64, u64)| #[trigger] u.contains(x) <==> keys.contains(x) by {}
    lemma_sorted_unique(u, keys);
}

pub open spec fn tagged_view<T: View>(s: Seq<(bool, T)>) -> Seq<(bool, T::V)> {
    s.map_values(|p: (bool, T)| (p.0, p.1@))
}

pub open spec fn keyed_view<T: View>(s: Seq<((u64, u64), T)>) -> Seq<((u64, u64), T::V)> {
    s.map_values(|p: ((u64, u64), T)| (p.0, p.1@))
}

pub open spec fn opt_rows_view<T: View>(s: Option<&Vec<T>>) -> Option<Seq<T::V>> {
    match s {
        Some(v) => Some(rows_view(v@)),
        None => None,
    }
}

/// The three-way merge of one collection over the union of its keys, in key
/// order: the merged rows tagged by origin (`true`: the remote row was
/// taken), the remote rows that need fresh ids (appended to `renumbered`
/// with their keys), and one line per conflict (appended to `conflicts`).
fn merge_flat<T: SyncRow>(
    local: &Vec<T>,
    shadow: Option<&Vec<T>>,
    remote: &Vec<T>,
    what: &str,
    peer: &str,
    conflicts: &mut Vec<String>,
    renumbered: &mut Vec<((u64, u64), T)>,
) -> (out: Vec<(bool, T)>)
    ensures
        ({
            let keys = union_keys_spec::<T>(rows_view(local@), rows_view(remote@));
            &&& tagged_view(out@) == flat_out::<T>(rows_view(local@), opt_rows_view(shadow), rows_view(remote@), keys)
            &&& keyed_view(final(renumbered)@) == keyed_view(old(renumbered)@) + flat_renum::<T>(
                rows_view(local@),
                opt_rows_view(shadow),
                rows_view(remote@),
                keys,
            )
            &&& strings_view(final(conflicts)@) == strings_view(old(conflicts)@) + flat_conflicts::<T>(
                rows_view(local@),
                opt_rows_view(shadow),
                rows_view(remote@),
                keys,
                what@,
                peer@,
            )
        }),
        out@.len() <= local@.len() + remote@.len(),
        final(renumbered)@.len() <= old(renumbered)@.len() + local@.len() + remote@.len(),
{
    let keys = union_keys(local, remote);
    let ghost lv = rows_view(local@);
    let ghost rv = rows_view(remote@);
    let ghost sv = opt_rows_view(shadow);
    let mut out: Vec<(bool, T)> = Vec::new();
    let mut i: usize = 0;
    while i < keys.len()
        invariant
            i <= keys@.len(),
            lv == rows_view(local@),
            rv == rows_view(remote@),
            sv == opt_rows_view(shadow),
            keys@.len() <= local@.len() + remote@.len(),
            out@.len() <= i,
            renumbered@.len() <= old(renumbered)@.len() + i,
            tagged_view(out@) == flat_out::<T>(lv, sv, rv, keys@.take(i as int)),
            keyed_view(renumbered@) == keyed_view(old(renumbered)@) + flat_renum::<T>(lv, sv, rv, keys@.take(i as int)),
            strings_view(conflicts@) == strings_view(old(conflicts)@) + flat_conflicts::<T>(lv, sv, rv, keys@.take(i as int), what@, peer@),
        decreases keys@.len() - i,
    {
        let key = keys[i];
        let ghost t = keys@.take(i + 1);
        assert(t.drop_last() =~= keys@.take(i as int));
        assert(t.last() == key);
        let li = index_of_row(local, key);
        let ri = index_of_row(remote, key);
        let l: Option<&T> = match li {
            Some(j) => Some(&local[j]),
            None => None,
        };
        let r: Option<&T> = match ri {
            Some(j) => Some(&remote[j]),
            None => None,
        };
        let s: Option<Option<&T>> = match shadow {
            Some(sh) => {
                let si = index_of_row(sh, key);
                match si {
                    Some(j) => Some(Some(&sh[j])),
                    None => Some(None),
                }
            },
            None => None,
        };
        assert(opt_view(l) == lookup::<T>(lv, key));
        assert(opt_view(r) == lookup::<T>(rv, key));
        assert(opt_opt_view(s) == shadow_row::<T>(sv, key));
        let p = decide(l, r, s);
        let ghost out0 = out@;
        let ghost ren0 = renumbered@;
        let ghost con0 = conflicts@;
        match p {
            Pick::Local => {
                if let Some(x) = l {
                    out.push((false, x.dup()));
                }
            },
            Pick::Remote => {
                if let Some(x) = r {
                    out.push((true, x.dup()));
                }
            },
            Pick::Renumber => {
                if let Some(x) = l {
                    out.push((false, x.dup()));
                }
                if let Some(x) = r {
                    renumbered.push((key, x.dup()));
                }
            },
            Pick::Conflict => {
                let kt = match l {
                    Some(x) => x.key_text(),
                    None => match r {
                        Some(x) => x.key_text(),
                        None => String::new(),
                    },
                };
                conflicts.push(conflict_text(what, kt.as_str(), peer));
                if let Some(x) = l {
                    out.push((false, x.dup()));
                }
            },
        }
        proof {
            assert(tagged_view(out@) =~= tagged_view(out0) + key_out::<T>(lv, sv, rv, key));
            assert(keyed_view(renumbered@) =~= keyed_view(ren0) + key_renum::<T>(lv, sv, rv, key));
            assert(strings_view(conflicts@) =~= strings_view(con0) + key_conflicts::<T>(lv, sv, rv, key, what@, peer@));
            assert(flat_out::<T>(lv, sv, rv, t) == flat_out::<T>(lv, sv, rv, keys@.take(i as int)) + key_out::<T>(lv, sv, rv, key));
        }
        i = i + 1;
    }
    assert(keys@.take(keys@.len() as int) =~= keys@);
    proof {
        lemma_union_keys_spec::<T>(keys@, lv, rv);
    }
    out
}

// ─── reshaping the merged lists ─────────────────────────────────────────────

/// The rows the local side kept, in order.
pub open spec fn kept_of<V>(s: Seq<(bool, V)>) -> Seq<V>
    decreases s.len(),
{
    if s.len() == 0 {
        seq![]
    } else if s.last().0 {
        kept_of(s.drop_last())
    } else {
        kept_of(s.drop_last()).push(s.last().1)
    }
}

/// The rows taken from the remote side, in order.
pub open spec fn taken_of<V>(s: Seq<(bool, V)>) -> Seq<V>
    decreases s.len(),
{
    if s.len() == 0 {
        seq![]
    } else if s.last().0 {
        taken_of(s.drop_last()).push(s.last().1)
    } else {
        taken_of(s.drop_last())
    }
}

/// Split a merged collection into (local-kept rows, remote-taken rows);
/// only the latter may have their cross-references remapped.
fn split_origin<T: WireRow>(rows: Vec<(bool, T)>) -> (r: (Vec<T>, Vec<T>))
    ensures
        rows_view(r.0@) == kept_of(tagged_view(rows@)),
        rows_view(r.1@) == taken_of(tagged_view(rows@)),
{
    let mut kept: Vec<T> = Vec::new();
    let mut taken: Vec<T> = Vec::new();
    let mut i: usize = 0;
    while i < rows.len()
        invariant
            i <= rows@.len(),
            rows_view(kept@) == kept_of(tagged_view(rows@).take(i as int)),
            rows_view(taken@) == taken_of(tagged_view(rows@).take(i as int)),
        decreases rows@.len() - i,
    {
        let ghost t = tagged_view(rows@).take(i + 1);
        assert(t.drop_last() =~= tagged_view(rows@).take(i as int));
        assert(t.last() == (rows@[i as int].0, rows@[i as int].1@));
        if rows[i].0 {
            taken.push(rows[i].1.dup());
            assert(rows_view(taken@) =~= taken_of(t));
        } else {
            kept.push(rows[i].1.dup());
            assert(rows_view(kept@) =~= kept_of(t));
        }
        i = i + 1;
    }
    assert(tagged_view(rows@).take(rows@.len() as int) =~= tagged_view(rows@));
    (kept, taken)
}

/// The rows of keyed pairs, keys dropped.
pub open spec fn unkeyed<V>(s: Seq<((u64, u64), V)>) -> Seq<V> {
    s.map_values(|p: ((u64, u64), V)| p.1)
}

/// Drop the keys `merge_flat` handed back alongside its renumber candidates.
fn unwrap_pairs<T: WireRow>(pairs: Vec<((u64, u64), T)>) -> (r: Vec<T>)
    ensures
        rows_view(r@) == unkeyed(keyed_view(pairs@)),
{
    let mut out: Vec<T> = Vec::new();
    let mut i: usize = 0;
    while i < pairs.len()
        invariant
            i <= pairs@.len(),
            rows_view(out@) == unkeyed(keyed_view(pairs@)).take(i as int),
        decreases pairs@.len() - i,
    {
        let ghost o = out@;
        out.push(pairs[i].1.dup());
        assert(rows_view(out@) =~= rows_view(o).push(pairs@[i as int].1@));
        assert(unkeyed(keyed_view(pairs@)).take(i + 1) =~= unkeyed(keyed_view(pairs@)).take(i as int).push(pairs@[i as int].1@));
        i = i + 1;
    }
    assert(unkeyed(keyed_view(pairs@)).take(pairs@.len() as int) =~= unkeyed(keyed_view(pairs@)));
    out
}

/// Append copies of `b`'s rows to `a`.
fn append_rows<T: WireRow>(a: &mut Vec<T>, b: &Vec<T>)
    ensures
        rows_view(final(a)@) == rows_view(old(a)@) + rows_view(b@),
{
    let mut i: usize = 0;
    while i < b.len()
        invariant
            i <= b@.len(),
            rows_view(a@) == rows_view(old(a)@) + rows_view(b@).take(i as int),
        decreases b@.len() - i,
    {
        let ghost o = a@;
        a.push(b[i].dup());
        assert(rows_view(a@) =~= rows_view(o).push(b@[i as int]@));
        assert(rows_view(b@).take(i + 1) =~= rows_view(b@).take(i as int).push(b@[i as int]@));
        i = i + 1;
        assert(rows_view(a@) =~= rows_view(old(a)@) + rows_view(b@).take(i as int));
    }
    assert(rows_view(b@).take(b@.len() as int) =~= rows_view(b@));
}

/// A database row with its nested rows stripped: what the entity-level merge
/// compares and what the assembly step re-fills from the flat lists.
pub open spec fn entity_of(d: SDatabaseV) -> SDatabaseV {
    SDatabaseV {
        id: d.id,
        name: d.name,
        template: d.template,
        properties: seq![],
        views: seq![],
        records: seq![],
        values: seq![],
    }
}

fn db_entity(d: &SDatabase) -> (r: SDatabase)
    ensures
        r@ == entity_of(d@),
{
    let r = SDatabase {
        id: d.id,
        name: d.name.clone(),
        template: d.template.clone(),
        properties: Vec::new(),
        views: Vec::new(),
        records: Vec::new(),
        values: Vec::new(),
    };
    assert(r@.properties =~= seq![]);
    assert(r@.views =~= seq![]);
    assert(r@.records =~= seq![]);
    assert(r@.values =~= seq![]);
    r
}

fn db_entities(dbs: &Vec<SDatabase>) -> (r: Vec<SDatabase>)
    ensures
        rows_view(r@) == rows_view(dbs@).map_values(|d: SDatabaseV| entity_of(d)),
{
    let mut out: Vec<SDatabase> = Vec::new();
    let mut i: usize = 0;
    while i < dbs.len()
        invariant
            i <= dbs@.len(),
            rows_view(out@) == rows_view(dbs@).map_values(|d: SDatabaseV| entity_of(d)).take(i as int),
        decreases dbs@.len() - i,
    {
        let ghost o = out@;
        out.push(db_entity(&dbs[i]));
        assert(rows_view(out@) =~= rows_view(o).push(entity_of(dbs@[i as int]@)));
        assert(rows_view(dbs@).map_values(|d: SDatabaseV| entity_of(d)).take(i + 1) =~= rows_view(dbs@).map_values(|d: SDatabaseV| entity_of(d)).take(i as int).push(entity_of(dbs@[i as int]@)));
        i = i + 1;
    }
    assert(rows_view(dbs@).map_values(|d: SDatabaseV| entity_of(d)).take(dbs@.len() as int) =~= rows_view(dbs@).map_values(|d: SDatabaseV| entity_of(d)));
    out
}

pub open spec fn all_props(dbs: Seq<SDatabaseV>) -> Seq<SPropertyV>
    decreases dbs.len(),
{
    if dbs.len() == 0 {
        seq![]
    } else {
        all_props(dbs.drop_last()) + dbs.last().properties
    }
}

pub open spec fn all_views(dbs: Seq<SDatabaseV>) -> Seq<SViewV>
    decreases dbs.len(),
{
    if dbs.len() == 0 {
        seq![]
    } else {
        all_views(dbs.drop_last()) + dbs.last().views
    }
}

pub open spec fn all_records(dbs: Seq<SDatabaseV>) -> Seq<SRecordV>
    decreases dbs.len(),
{
    if dbs.len() == 0 {
        seq![]
    } else {
        all_records(dbs.drop_last()) + dbs.last().records
    }
}

pub open spec fn all_values(dbs: Seq<SDatabaseV>) -> Seq<SValueV>
    decreases dbs.len(),
{
    if dbs.len() == 0 {
        seq![]
    } else {
        all_values(dbs.drop_last()) + dbs.last().values
    }
}

/// Every database's columns, views, records and cells, each list in
/// database order.
fn flatten_dbs(dbs: &Vec<SDatabase>) -> (r: (Vec<SProperty>, Vec<SView>, Vec<SRecord>, Vec<SValue>))
    ensures
        rows_view(r.0@) == all_props(rows_view(dbs@)),
        rows_view(r.1@) == all_views(rows_view(dbs@)),
        rows_view(r.2@) == all_records(rows_view(dbs@)),
        rows_view(r.3@) == all_values(rows_view(dbs@)),
{
    let mut props: Vec<SProperty> = Vec::new();
    let mut views: Vec<SView> = Vec::new();
    let mut records: Vec<SRecord> = Vec::new();
    let mut values: Vec<SValue> = Vec::new();
    let mut i: usize = 0;
    while i < dbs.len()
        invariant
            i <= dbs@.len(),
            rows_view(props@) == all_props(rows_view(dbs@).take(i as int)),
            rows_view(views@) == all_views(rows_view(dbs@).take(i as int)),
            rows_view(records@) == all_records(rows_view(dbs@).take(i as int)),
            rows_view(values@) == all_values(rows_view(dbs@).take(i as int)),
        decreases dbs@.len() - i,
    {
        let ghost t = rows_view(dbs@).take(i + 1);
        assert(t.drop_last() =~= rows_view(dbs@).take(i as int));
        assert(t.last() == dbs@[i as int]@);
        append_rows(&mut props, &dbs[i].properties);
        append_rows(&mut views, &dbs[i].views);
        append_rows(&mut records, &dbs[i].records);
        append_rows(&mut values, &dbs[i].values);
        i = i + 1;
    }
    assert(rows_view(dbs@).take(dbs@.len() as int) =~= rows_view(dbs@));
    (props, views, records, values)
}

// ─── cascades: a renumbered container pulls its remote rows along ───────────

/// A row that belongs to a container row: a block to its page, a column,
/// view or record to its database.
pub trait Owned: SyncRow {
    spec fn spec_owner(v: Self::V) -> u64;

    fn owner(&self) -> (r: u64)
        ensures
            r == Self::spec_owner(self@),
    ;
}

impl Owned for SBlock {
    open spec fn spec_owner(v: SBlockV) -> u64 {
        v.page
    }

    fn owner(&self) -> (r: u64) {
        self.page
    }
}

impl Owned for SProperty {
    open spec fn spec_owner(v: SPropertyV) -> u64 {
        v.db
    }

    fn owner(&self) -> (r: u64) {
        self.db
    }
}

impl Owned for SView {
    open spec fn spec_owner(v: SViewV) -> u64 {
        v.db
    }

    fn owner(&self) -> (r: u64) {
        self.db
    }
}

impl Owned for SRecord {
    open spec fn spec_owner(v: SRecordV) -> u64 {
        v.db
    }

    fn owner(&self) -> (r: u64) {
        self.db
    }
}

proof fn lemma_has_key_concat<T: SyncRow>(a: Seq<T::V>, b: Seq<T::V>, k: (u64, u64))
    ensures
        has_key::<T>(a + b, k) <==> (has_key::<T>(a, k) || has_key::<T>(b, k)),
{
    if has_key::<T>(a + b, k) {
        let i = choose|i: int| 0 <= i < (a + b).len() && T::spec_key(#[trigger] (a + b)[i]) == k;
        if i < a.len() {
            assert(a[i] == (a + b)[i]);
        } else {
            assert(b[i - a.len()] == (a + b)[i]);
        }
    }
    if has_key::<T>(a, k) {
        let i = choose|i: int| 0 <= i < a.len() && T::spec_key(#[trigger] a[i]) == k;
        assert((a + b)[i] == a[i]);
    }
    if has_key::<T>(b, k) {
        let i = choose|i: int| 0 <= i < b.len() && T::spec_key(#[trigger] b[i]) == k;
        assert((a + b)[a.len() + i] == b[i]);
    }
}

fn has_key_exec<T: SyncRow>(v: &Vec<T>, k: (u64, u64)) -> (r: bool)
    ensures
        r == has_key::<T>(rows_view(v@), k),
{
    let mut i: usize = 0;
    while i < v.len()
        invariant
            i <= v@.len(),
            forall|j: int| 0 <= j < i ==> T::spec_key(#[trigger] rows_view(v@)[j]) != k,
        decreases v@.len() - i,
    {
        let x = v[i].key();
        if x.0 == k.0 && x.1 == k.1 {
            assert(T::spec_key(rows_view(v@)[i as int]) == k);
            return true;
        }
        i = i + 1;
    }
    false
}

fn contains_u64(v: &Vec<u64>, x: u64) -> (r: bool)
    ensures
        r == v@.contains(x),
{
    let mut i: usize = 0;
    while i < v.len()
        invariant
            i <= v@.len(),
            forall|j: int| 0 <= j < i ==> v@[j] != x,
        decreases v@.len() - i,
    {
        if v[i] == x {
            return true;
        }
        i = i + 1;
    }
    false
}

/// The remote rows a renumbered container pulls along: each row of `rows`
/// whose container is among `owners` and whose id is neither among
/// `present` nor among the rows pulled before it, in order.
pub open spec fn cascade<T: Owned>(rows: Seq<T::V>, owners: Seq<u64>, present: Seq<T::V>) -> Seq<T::V>
    decreases rows.len(),
{
    if rows.len() == 0 {
        seq![]
    } else {
        let prev = cascade::<T>(rows.drop_last(), owners, present);
        let x = rows.last();
        let id = (T::spec_key(x).0, 0u64);
        if owners.contains(T::spec_owner(x)) && !has_key::<T>(present, id) && !has_key::<T>(prev, id) {
            prev.push(x)
        } else {
            prev
        }
    }
}

proof fn lemma_cascade_len<T: Owned>(rows: Seq<T::V>, owners: Seq<u64>, present: Seq<T::V>)
    ensures
        cascade::<T>(rows, owners, present).len() <= rows.len(),
    decreases rows.len(),
{
    if rows.len() > 0 {
        lemma_cascade_len::<T>(rows.drop_last(), owners, present);
    }
}

/// Append to `renum` the rows of `rows` that `owners` pulls along.
fn cascade_rows<T: Owned>(rows: &Vec<T>, owners: &Vec<u64>, taken: &Vec<T>, renum: &mut Vec<T>)
    requires
        forall|i: int| 0 <= i < rows@.len() ==> T::spec_key(#[trigger] rows@[i]@).1 == 0,
    ensures
        rows_view(final(renum)@) == rows_view(old(renum)@) + cascade::<T>(
            rows_view(rows@),
            owners@,
            rows_view(taken@) + rows_view(old(renum)@),
        ),
        final(renum)@.len() <= old(renum)@.len() + rows@.len(),
{
    let ghost present = rows_view(taken@) + rows_view(old(renum)@);
    let ghost base = rows_view(old(renum)@);
    let mut i: usize = 0;
    while i < rows.len()
        invariant
            i <= rows@.len(),
            present == rows_view(taken@) + base,
            base == rows_view(old(renum)@),
            forall|t: int| 0 <= t < rows@.len() ==> T::spec_key(#[trigger] rows@[t]@).1 == 0,
            rows_view(renum@) == base + cascade::<T>(rows_view(rows@).take(i as int), owners@, present),
            renum@.len() <= old(renum)@.len() + i,
        decreases rows@.len() - i,
    {
        let ghost t = rows_view(rows@).take(i + 1);
        let ghost prev = cascade::<T>(rows_view(rows@).take(i as int), owners@, present);
        assert(t.drop_last() =~= rows_view(rows@).take(i as int));
        assert(t.last() == rows@[i as int]@);
        let k = rows[i].key();
        let id = (k.0, 0u64);
        assert(id == T::spec_key(rows@[i as int]@));
        let own = contains_u64(owners, rows[i].owner());
        let in_taken = has_key_exec(taken, id);
        let in_renum = has_key_exec(renum, id);
        proof {
            lemma_has_key_concat::<T>(rows_view(taken@), base, id);
            lemma_has_key_concat::<T>(base, prev, id);
        }
        if own && !in_taken && !in_renum {
            let ghost o = renum@;
            renum.push(rows[i].dup());
            assert(rows_view(renum@) =~= rows_view(o).push(rows@[i as int]@));
        }
        i = i + 1;
    }
    assert(rows_view(rows@).take(rows@.len() as int) =~= rows_view(rows@));
}

/// The database a record belongs to, by the first record with that id; 0
/// when none has it.
pub open spec fn record_db(records: Seq<SRecordV>, id: u64) -> u64
    decreases records.len(),
{
    if records.len() == 0 {
        0
    } else if records[0].id == id {
        records[0].db
    } else {
        record_db(records.drop_first(), id)
    }
}

fn record_db_exec(records: &Vec<SRecord>, id: u64) -> (r: u64)
    ensures
        r == record_db(rows_view(records@), id),
{
    let ghost s = rows_view(records@);
    assert(s.skip(0) =~= s);
    let mut i: usize = 0;
    while i < records.len()
        invariant
            i <= records@.len(),
            s == rows_view(records@),
            record_db(s, id) == record_db(s.skip(i as int), id),
        decreases records@.len() - i,
    {
        assert(s.skip(i as int)[0] == records@[i as int]@);
        if records[i].id == id {
            return records[i].db;
        }
        assert(s.skip(i as int).drop_first() =~= s.skip(i + 1));
        i = i + 1;
    }
    assert(s.skip(i as int).len() == 0);
    0
}

/// The remote cells a renumbered database or record pulls along: each cell
/// whose record belongs to a renumbered database (by the remote records) or
/// is itself renumbered, and whose (record, column) pair is neither among
/// `present` nor among the cells pulled before it.
pub open spec fn cascade_values(
    vals: Seq<SValueV>,
    db_ids: Seq<u64>,
    record_ids: Seq<u64>,
    records: Seq<SRecordV>,
    present: Seq<SValueV>,
) -> Seq<SValueV>
    decreases vals.len(),
{
    if vals.len() == 0 {
        seq![]
    } else {
        let prev = cascade_values(vals.drop_last(), db_ids, record_ids, records, present);
        let x = vals.last();
        let k = (x.record, x.property);
        if (db_ids.contains(record_db(records, x.record)) || record_ids.contains(x.record))
            && !has_key::<SValue>(present, k) && !has_key::<SValue>(prev, k) {
            prev.push(x)
        } else {
            prev
        }
    }
}

fn cascade_cells(
    vals: &Vec<SValue>,
    db_ids: &Vec<u64>,
    record_ids: &Vec<u64>,
    records: &Vec<SRecord>,
    taken: &Vec<SValue>,
    renum: &mut Vec<SValue>,
)
    ensures
        rows_view(final(renum)@) == rows_view(old(renum)@) + cascade_values(
            rows_view(vals@),
            db_ids@,
            record_ids@,
            rows_view(records@),
            rows_view(taken@) + rows_view(old(renum)@),
        ),
{
    let ghost present = rows_view(taken@) + rows_view(old(renum)@);
    let ghost base = rows_view(old(renum)@);
    let mut i: usize = 0;
    while i < vals.len()
        invariant
            i <= vals@.len(),
            present == rows_view(taken@) + base,
            base == rows_view(old(renum)@),
            rows_view(renum@) == base + cascade_values(rows_view(vals@).take(i as int), db_ids@, record_ids@, rows_view(records@), present),
        decreases vals@.len() - i,
    {
        let ghost t = rows_view(vals@).take(i + 1);
        let ghost prev = cascade_values(rows_view(vals@).take(i as int), db_ids@, record_ids@, rows_view(records@), present);
        assert(t.drop_last() =~= rows_view(vals@).take(i as int));
        assert(t.last() == vals@[i as int]@);
        let v = &vals[i];
        let k = (v.record, v.property);
        let by_db = contains_u64(db_ids, record_db_exec(records, v.record));
        let by_record = contains_u64(record_ids, v.record);
        let in_taken = has_key_exec(taken, k);
        let in_renum = has_key_exec(renum, k);
        proof {
            lemma_has_key_concat::<SValue>(rows_view(taken@), base, k);
            lemma_has_key_concat::<SValue>(base, prev, k);
        }
        if (by_db || by_record) && !in_taken && !in_renum {
            let ghost o = renum@;
            renum.push(v.dup());
            assert(rows_view(renum@) =~= rows_view(o).push(vals@[i as int]@));
        }
        i = i + 1;
    }
    assert(rows_view(vals@).take(vals@.len() as int) =~= rows_view(vals@));
}

/// The first row with key `k`, if any.
pub open spec fn first_lookup<T: SyncRow>(s: Seq<T::V>, k: (u64, u64)) -> Option<T::V>
    decreases s.len(),
{
    if s.len() == 0 {
        None
    } else if T::spec_key(s[0]) == k {
        Some(s[0])
    } else {
        first_lookup::<T>(s.drop_first(), k)
    }
}

fn first_index_of<T: SyncRow>(rows: &Vec<T>, k: (u64, u64)) -> (r: Option<usize>)
    ensures
        match r {
            Some(i) => i < rows@.len() && first_lookup::<T>(rows_view(rows@), k) == Some(rows@[i as int]@),
            None => first_lookup::<T>(rows_view(rows@), k) is None,
        },
{
    let ghost s = rows_view(rows@);
    assert(s.skip(0) =~= s);
    let mut i: usize = 0;
    while i < rows.len()
        invariant
            i <= rows@.len(),
            s == rows_view(rows@),
            first_lookup::<T>(s, k) == first_lookup::<T>(s.skip(i as int), k),
        decreases rows@.len() - i,
    {
        assert(s.skip(i as int)[0] == rows@[i as int]@);
        let x = rows[i].key();
        if x.0 == k.0 && x.1 == k.1 {
            return Some(i);
        }
        assert(s.skip(i as int).drop_first() =~= s.skip(i + 1));
        i = i + 1;
    }
    assert(s.skip(i as int).len() == 0);
    None
}

/// The remote attachments renumbered blocks pull along: for each block (in
/// order) that names an attachment whose id is neither among `present` nor
/// among those pulled before, the first remote attachment with that id.
pub open spec fn cascade_atts(blocks: Seq<SBlockV>, atts: Seq<SAttachmentV>, present: Seq<SAttachmentV>) -> Seq<SAttachmentV>
    decreases blocks.len(),
{
    if blocks.len() == 0 {
        seq![]
    } else {
        let prev = cascade_atts(blocks.drop_last(), atts, present);
        match blocks.last().attachment {
            Some(att) => {
                if !has_key::<SAttachment>(present, (att, 0)) && !has_key::<SAttachment>(prev, (att, 0)) {
                    match first_lookup::<SAttachment>(atts, (att, 0)) {
                        Some(a) => prev.push(a),
                        None => prev,
                    }
                } else {
                    prev
                }
            },
            None => prev,
        }
    }
}

proof fn lemma_cascade_atts_len(blocks: Seq<SBlockV>, atts: Seq<SAttachmentV>, present: Seq<SAttachmentV>)
    ensures
        cascade_atts(blocks, atts, present).len() <= blocks.len(),
    decreases blocks.len(),
{
    if blocks.len() > 0 {
        lemma_cascade_atts_len(blocks.drop_last(), atts, present);
    }
}

fn cascade_attachments(
    blocks: &Vec<SBlock>,
    atts: &Vec<SAttachment>,
    taken: &Vec<SAttachment>,
    renum: &mut Vec<SAttachment>,
)
    ensures
        rows_view(final(renum)@) == rows_view(old(renum)@) + cascade_atts(
            rows_view(blocks@),
            rows_view(atts@),
            rows_view(taken@) + rows_view(old(renum)@),
        ),
{
    let ghost present = rows_view(taken@) + rows_view(old(renum)@);
    let ghost base = rows_view(old(renum)@);
    let mut i: usize = 0;
    while i < blocks.len()
        invariant
            i <= blocks@.len(),
            present == rows_view(taken@) + base,
            base == rows_view(old(renum)@),
            rows_view(renum@) == base + cascade_atts(rows_view(blocks@).take(i as int), rows_view(atts@), present),
        decreases blocks@.len() - i,
    {
        let ghost t = rows_view(blocks@).take(i + 1);
        let ghost prev = cascade_atts(rows_view(blocks@).take(i as int), rows_view(atts@), present);
        assert(t.drop_last() =~= rows_view(blocks@).take(i as int));
        assert(t.last() == blocks@[i as int]@);
        if let Some(att) = blocks[i].attachment {
            let k = (att, 0u64);
            let in_taken = has_key_exec(taken, k);
            let in_renum = has_key_exec(renum, k);
            proof {
                lemma_has_key_concat::<SAttachment>(rows_view(taken@), base, k);
                lemma_has_key_concat::<SAttachment>(base, prev, k);
            }
            if !in_taken && !in_renum {
                if let Some(j) = first_index_of(atts, k) {
                    let ghost o = renum@;
                    renum.push(atts[j].dup());
                    assert(rows_view(renum@) =~= rows_view(o).push(atts@[j as int]@));
                }
            }
        }
        i = i + 1;
    }
    assert(rows_view(blocks@).take(blocks@.len() as int) =~= rows_view(blocks@));
}

// ─── fresh ids ──────────────────────────────────────────────────────────────

/// The highest id the session has handed out in each namespace; the merge
/// draws its fresh ids above them, so they never collide with rows the
/// session mints later.
pub struct MergeCtx {
    pub last_page: u64,
    pub last_block: u64,
    pub last_attachment: u64,
    pub last_db: u64,
    pub last_property: u64,
    pub last_record: u64,
    pub last_view: u64,
}

/// A row whose id the merge can replace.
pub trait Renumber: SyncRow {
    /// The row with its id replaced.
    spec fn spec_with_id(v: Self::V, id: u64) -> Self::V;

    fn set_id(&mut self, id: u64)
        ensures
            final(self)@ == Self::spec_with_id(old(self)@, id),
    ;
}

impl Renumber for SPage {
    open spec fn spec_with_id(v: SPageV, id: u64) -> SPageV {
        SPageV { id, ..v }
    }

    fn set_id(&mut self, id: u64) {
        self.id = id;
    }
}

impl Renumber for SBlock {
    open spec fn spec_with_id(v: SBlockV, id: u64) -> SBlockV {
        SBlockV { id, ..v }
    }

    fn set_id(&mut self, id: u64) {
        self.id = id;
    }
}

impl Renumber for SAttachment {
    open spec fn spec_with_id(v: SAttachmentV, id: u64) -> SAttachmentV {
        SAttachmentV { id, ..v }
    }

    fn set_id(&mut self, id: u64) {
        self.id = id;
    }
}

impl Renumber for SDatabase {
    open spec fn spec_with_id(v: SDatabaseV, id: u64) -> SDatabaseV {
        SDatabaseV { id, ..v }
    }

    fn set_id(&mut self, id: u64) {
        self.id = id;
    }
}

impl Renumber for SProperty {
    open spec fn spec_with_id(v: SPropertyV, id: u64) -> SPropertyV {
        SPropertyV { id, ..v }
    }

    fn set_id(&mut self, id: u64) {
        self.id = id;
    }
}

impl Renumber for SRecord {
    open spec fn spec_with_id(v: SRecordV, id: u64) -> SRecordV {
        SRecordV { id, ..v }
    }

    fn set_id(&mut self, id: u64) {
        self.id = id;
    }
}

impl Renumber for SView {
    open spec fn spec_with_id(v: SViewV, id: u64) -> SViewV {
        SViewV { id, ..v }
    }

    fn set_id(&mut self, id: u64) {
        self.id = id;
    }
}

/// The rows with fresh ids: the `i`-th gets `last + i + 1`.
pub open spec fn renumbered<T: Renumber>(s: Seq<T::V>, last: u64) -> Seq<T::V> {
    Seq::new(s.len(), |i: int| T::spec_with_id(s[i], (last + i + 1) as u64))
}

/// The (old id, fresh id) pairs of a renumbering.
pub open spec fn fresh_pairs<T: Renumber>(s: Seq<T::V>, last: u64) -> Seq<(u64, u64)> {
    Seq::new(s.len(), |i: int| (T::spec_key(s[i]).0, (last + i + 1) as u64))
}

/// Give each row the next fresh id above `last`, recording old → new.
fn allocate<T: Renumber>(rows: &mut Vec<T>, last: &mut u64, map: &mut Vec<(u64, u64)>)
    requires
        *old(last) + old(rows)@.len() <= u64::MAX,
    ensures
        rows_view(final(rows)@) == renumbered::<T>(rows_view(old(rows)@), *old(last)),
        *final(last) == *old(last) + old(rows)@.len(),
        final(map)@ == old(map)@ + fresh_pairs::<T>(rows_view(old(rows)@), *old(last)),
{
    let ghost orig = rows_view(rows@);
    let ghost start = *last;
    let mut i: usize = 0;
    while i < rows.len()
        invariant
            rows@.len() == orig.len(),
            i <= rows@.len(),
            *last == start + i,
            start + orig.len() <= u64::MAX,
            forall|t: int| 0 <= t < i ==> (#[trigger] rows@[t])@ == T::spec_with_id(orig[t], (start + t + 1) as u64),
            forall|t: int| i <= t < rows@.len() ==> (#[trigger] rows@[t])@ == orig[t],
            map@ == old(map)@ + fresh_pairs::<T>(orig, start).take(i as int),
        decreases rows@.len() - i,
    {
        let fresh = *last + 1;
        *last = fresh;
        let old_id = rows[i].key().0;
        map.push((old_id, fresh));
        let mut x = rows[i].dup();
        x.set_id(fresh);
        rows.set(i, x);
        proof {
            assert(fresh_pairs::<T>(orig, start).take(i + 1) =~= fresh_pairs::<T>(orig, start).take(i as int).push((old_id, fresh)));
        }
        i = i + 1;
    }
    assert(fresh_pairs::<T>(orig, start).take(orig.len() as int) =~= fresh_pairs::<T>(orig, start));
    assert(rows_view(rows@) =~= renumbered::<T>(orig, start));
}

/// The id a map sends `x` to: the last pair naming `x` wins; an id the map
/// does not name stays as it is.
pub open spec fn remap_id(map: Seq<(u64, u64)>, x: u64) -> u64
    decreases map.len(),
{
    if map.len() == 0 {
        x
    } else if map.last().0 == x {
        map.last().1
    } else {
        remap_id(map.drop_last(), x)
    }
}

pub open spec fn remap_opt(map: Seq<(u64, u64)>, x: Option<u64>) -> Option<u64> {
    match x {
        Some(v) => Some(remap_id(map, v)),
        None => None,
    }
}

fn remap_exec(map: &Vec<(u64, u64)>, x: u64) -> (r: u64)
    ensures
        r == remap_id(map@, x),
{
    let mut i: usize = map.len();
    assert(map@.take(map@.len() as int) =~= map@);
    while i > 0
        invariant
            i <= map@.len(),
            remap_id(map@, x) == remap_id(map@.take(i as int), x),
        decreases i,
    {
        assert(map@.take(i as int).drop_last() =~= map@.take(i - 1));
        if map[i - 1].0 == x {
            return map[i - 1].1;
        }
        i = i - 1;
    }
    x
}

fn remap_opt_exec(map: &Vec<(u64, u64)>, x: Option<u64>) -> (r: Option<u64>)
    ensures
        r == remap_opt(map@, x),
{
    match x {
        Some(v) => Some(remap_exec(map, v)),
        None => None,
    }
}

/// The id maps of one merge, old remote id → fresh id, per namespace.
pub struct IdMaps {
    pub pages: Seq<(u64, u64)>,
    pub blocks: Seq<(u64, u64)>,
    pub atts: Seq<(u64, u64)>,
    pub dbs: Seq<(u64, u64)>,
    pub props: Seq<(u64, u64)>,
    pub records: Seq<(u64, u64)>,
    pub views: Seq<(u64, u64)>,
}

pub open spec fn remap_block(b: SBlockV, m: IdMaps) -> SBlockV {
    SBlockV {
        page: remap_id(m.pages, b.page),
        parent: remap_opt(m.blocks, b.parent),
        page_ref: remap_opt(m.pages, b.page_ref),
        sync_ref: remap_opt(m.blocks, b.sync_ref),
        attachment: remap_opt(m.atts, b.attachment),
        db_ref: remap_opt(m.dbs, b.db_ref),
        ..b
    }
}

pub open spec fn remap_page(p: SPageV, m: IdMaps) -> SPageV {
    SPageV { parent: remap_opt(m.pages, p.parent), cover: remap_opt(m.atts, p.cover), ..p }
}

pub open spec fn remap_prop(p: SPropertyV, m: IdMaps) -> SPropertyV {
    SPropertyV { db: remap_id(m.dbs, p.db), ..p }
}

pub open spec fn remap_view(v: SViewV, m: IdMaps) -> SViewV {
    SViewV { db: remap_id(m.dbs, v.db), ..v }
}

pub open spec fn remap_record(r: SRecordV, m: IdMaps) -> SRecordV {
    SRecordV { db: remap_id(m.dbs, r.db), page: remap_opt(m.pages, r.page), ..r }
}

pub open spec fn remap_value(v: SValueV, m: IdMaps) -> SValueV {
    SValueV { record: remap_id(m.records, v.record), property: remap_id(m.props, v.property), ..v }
}

/// The exec id maps.
struct Maps {
    pages: Vec<(u64, u64)>,
    blocks: Vec<(u64, u64)>,
    atts: Vec<(u64, u64)>,
    dbs: Vec<(u64, u64)>,
    props: Vec<(u64, u64)>,
    records: Vec<(u64, u64)>,
    views: Vec<(u64, u64)>,
}

impl View for Maps {
    type V = IdMaps;

    closed spec fn view(&self) -> IdMaps {
        IdMaps {
            pages: self.pages@,
            blocks: self.blocks@,
            atts: self.atts@,
            dbs: self.dbs@,
            props: self.props@,
            records: self.records@,
            views: self.views@,
        }
    }
}

fn remap_blocks(rows: &mut Vec<SBlock>, m: &Maps)
    ensures
        rows_view(final(rows)@) == rows_view(old(rows)@).map_values(|b: SBlockV| remap_block(b, m@)),
{
    let ghost orig = rows_view(rows@);
    let mut i: usize = 0;
    while i < rows.len()
        invariant
            rows@.len() == orig.len(),
            i <= rows@.len(),
            forall|t: int| 0 <= t < i ==> (#[trigger] rows@[t])@ == remap_block(orig[t], m@),
            forall|t: int| i <= t < rows@.len() ==> (#[trigger] rows@[t])@ == orig[t],
        decreases rows@.len() - i,
    {
        let mut x = rows[i].dup();
        x.page = remap_exec(&m.pages, x.page);
        x.parent = remap_opt_exec(&m.blocks, x.parent);
        x.page_ref = remap_opt_exec(&m.pages, x.page_ref);
        x.sync_ref = remap_opt_exec(&m.blocks, x.sync_ref);
        x.attachment = remap_opt_exec(&m.atts, x.attachment);
        x.db_ref = remap_opt_exec(&m.dbs, x.db_ref);
        rows.set(i, x);
        i = i + 1;
    }
    assert(rows_view(rows@) =~= orig.map_values(|b: SBlockV| remap_block(b, m@)));
}

fn remap_pages(rows: &mut Vec<SPage>, m: &Maps)
    ensures
        rows_view(final(rows)@) == rows_view(old(rows)@).map_values(|p: SPageV| remap_page(p, m@)),
{
    let ghost orig = rows_view(rows@);
    let mut i: usize = 0;
    while i < rows.len()
        invariant
            rows@.len() == orig.len(),
            i <= rows@.len(),
            forall|t: int| 0 <= t < i ==> (#[trigger] rows@[t])@ == remap_page(orig[t], m@),
            forall|t: int| i <= t < rows@.len() ==> (#[trigger] rows@[t])@ == orig[t],
        decreases rows@.len() - i,
    {
        let mut x = rows[i].dup();
        x.parent = remap_opt_exec(&m.pages, x.parent);
        x.cover = remap_opt_exec(&m.atts, x.cover);
        rows.set(i, x);
        i = i + 1;
    }
    assert(rows_view(rows@) =~= orig.map_values(|p: SPageV| remap_page(p, m@)));
}

fn remap_props(rows: &mut Vec<SProperty>, m: &Maps)
    ensures
        rows_view(final(rows)@) == rows_view(old(rows)@).map_values(|p: SPropertyV| remap_prop(p, m@)),
{
    let ghost orig = rows_view(rows@);
    let mut i: usize = 0;
    while i < rows.len()
        invariant
            rows@.len() == orig.len(),
            i <= rows@.len(),
            forall|t: int| 0 <= t < i ==> (#[trigger] rows@[t])@ == remap_prop(orig[t], m@),
            forall|t: int| i <= t < rows@.len() ==> (#[trigger] rows@[t])@ == orig[t],
        decreases rows@.len() - i,
    {
        let mut x = rows[i].dup();
        x.db = remap_exec(&m.dbs, x.db);
        rows.set(i, x);
        i = i + 1;
    }
    assert(rows_view(rows@) =~= orig.map_values(|p: SPropertyV| remap_prop(p, m@)));
}

fn remap_views(rows: &mut Vec<SView>, m: &Maps)
    ensures
        rows_view(final(rows)@) == rows_view(old(rows)@).map_values(|v: SViewV| remap_view(v, m@)),
{
    let ghost orig = rows_view(rows@);
    let mut i: usize = 0;
    while i < rows.len()
        invariant
            rows@.len() == orig.len(),
            i <= rows@.len(),
            forall|t: int| 0 <= t < i ==> (#[trigger] rows@[t])@ == remap_view(orig[t], m@),
            forall|t: int| i <= t < rows@.len() ==> (#[trigger] rows@[t])@ == orig[t],
        decreases rows@.len() - i,
    {
        let mut x = rows[i].dup();
        x.db = remap_exec(&m.dbs, x.db);
        rows.set(i, x);
        i = i + 1;
    }
    assert(rows_view(rows@) =~= orig.map_values(|v: SViewV| remap_view(v, m@)));
}

fn remap_records(rows: &mut Vec<SRecord>, m: &Maps)
    ensures
        rows_view(final(rows)@) == rows_view(old(rows)@).map_values(|r: SRecordV| remap_record(r, m@)),
{
    let ghost orig = rows_view(rows@);
    let mut i: usize = 0;
    while i < rows.len()
        invariant
            rows@.len() == orig.len(),
            i <= rows@.len(),
            forall|t: int| 0 <= t < i ==> (#[trigger] rows@[t])@ == remap_record(orig[t], m@),
            forall|t: int| i <= t < rows@.len() ==> (#[trigger] rows@[t])@ == orig[t],
        decreases rows@.len() - i,
    {
        let mut x = rows[i].dup();
        x.db = remap_exec(&m.dbs, x.db);
        x.page = remap_opt_exec(&m.pages, x.page);
        rows.set(i, x);
        i = i + 1;
    }
    assert(rows_view(rows@) =~= orig.map_values(|r: SRecordV| remap_record(r, m@)));
}

fn remap_values(rows: &mut Vec<SValue>, m: &Maps)
    ensures
        rows_view(final(rows)@) == rows_view(old(rows)@).map_values(|v: SValueV| remap_value(v, m@)),
{
    let ghost orig = rows_view(rows@);
    let mut i: usize = 0;
    while i < rows.len()
        invariant
            rows@.len() == orig.len(),
            i <= rows@.len(),
            forall|t: int| 0 <= t < i ==> (#[trigger] rows@[t])@ == remap_value(orig[t], m@),
            forall|t: int| i <= t < rows@.len() ==> (#[trigger] rows@[t])@ == orig[t],
        decreases rows@.len() - i,
    {
        let mut x = rows[i].dup();
        x.record = remap_exec(&m.records, x.record);
        x.property = remap_exec(&m.props, x.property);
        rows.set(i, x);
        i = i + 1;
    }
    assert(rows_view(rows@) =~= orig.map_values(|v: SValueV| remap_value(v, m@)));
}

// ─── assembly: rows grouped back into their database entries ────────────────

/// The rows of `rows` that belong to container `owner`, in order.
fn filter_owned<T: Owned>(rows: &Vec<T>, owner: u64) -> (r: Vec<T>)
    ensures
        rows_view(r@) == rows_view(rows@).filter(|x: T::V| T::spec_owner(x) == owner),
{
    let ghost pred = |x: T::V| T::spec_owner(x) == owner;
    let mut out: Vec<T> = Vec::new();
    let mut i: usize = 0;
    while i < rows.len()
        invariant
            i <= rows@.len(),
            pred == (|x: T::V| T::spec_owner(x) == owner),
            rows_view(out@) == rows_view(rows@).take(i as int).filter(pred),
        decreases rows@.len() - i,
    {
        proof {
            assert(rows_view(rows@).take(i + 1) =~= rows_view(rows@).take(i as int).push(rows@[i as int]@));
            rows_view(rows@).take(i as int).lemma_filter_push(rows@[i as int]@, pred);
        }
        if rows[i].owner() == owner {
            let ghost o = out@;
            out.push(rows[i].dup());
            assert(rows_view(out@) =~= rows_view(o).push(rows@[i as int]@));
        }
        i = i + 1;
    }
    assert(rows_view(rows@).take(rows@.len() as int) =~= rows_view(rows@));
    out
}

/// The cells whose record is among `recs`, in order.
fn filter_values(vals: &Vec<SValue>, recs: &Vec<SRecord>) -> (r: Vec<SValue>)
    ensures
        rows_view(r@) == rows_view(vals@).filter(|v: SValueV| has_key::<SRecord>(rows_view(recs@), (v.record, 0))),
{
    let ghost pred = |v: SValueV| has_key::<SRecord>(rows_view(recs@), (v.record, 0));
    let mut out: Vec<SValue> = Vec::new();
    let mut i: usize = 0;
    while i < vals.len()
        invariant
            i <= vals@.len(),
            pred == (|v: SValueV| has_key::<SRecord>(rows_view(recs@), (v.record, 0))),
            rows_view(out@) == rows_view(vals@).take(i as int).filter(pred),
        decreases vals@.len() - i,
    {
        proof {
            assert(rows_view(vals@).take(i + 1) =~= rows_view(vals@).take(i as int).push(vals@[i as int]@));
            rows_view(vals@).take(i as int).lemma_filter_push(vals@[i as int]@, pred);
        }
        if has_key_exec(recs, (vals[i].record, 0)) {
            let ghost o = out@;
            out.push(vals[i].dup());
            assert(rows_view(out@) =~= rows_view(o).push(vals@[i as int]@));
        }
        i = i + 1;
    }
    assert(rows_view(vals@).take(vals@.len() as int) =~= rows_view(vals@));
    out
}

/// A database entity filled with its columns, views and records (by their
/// database id) and with the cells of those records.
pub open spec fn assemble_db(
    d: SDatabaseV,
    props: Seq<SPropertyV>,
    views: Seq<SViewV>,
    records: Seq<SRecordV>,
    values: Seq<SValueV>,
) -> SDatabaseV {
    let recs = records.filter(|r: SRecordV| r.db == d.id);
    SDatabaseV {
        properties: props.filter(|p: SPropertyV| p.db == d.id),
        views: views.filter(|v: SViewV| v.db == d.id),
        records: recs,
        values: values.filter(|v: SValueV| has_key::<SRecord>(recs, (v.record, 0))),
        ..d
    }
}

fn fill_dbs(
    dbs: &mut Vec<SDatabase>,
    props: &Vec<SProperty>,
    views: &Vec<SView>,
    records: &Vec<SRecord>,
    values: &Vec<SValue>,
)
    ensures
        rows_view(final(dbs)@) == rows_view(old(dbs)@).map_values(
            |d: SDatabaseV| assemble_db(d, rows_view(props@), rows_view(views@), rows_view(records@), rows_view(values@)),
        ),
{
    let ghost orig = rows_view(dbs@);
    let mut i: usize = 0;
    while i < dbs.len()
        invariant
            dbs@.len() == orig.len(),
            i <= dbs@.len(),
            forall|t: int| 0 <= t < i ==> (#[trigger] dbs@[t])@ == assemble_db(orig[t], rows_view(props@), rows_view(views@), rows_view(records@), rows_view(values@)),
            forall|t: int| i <= t < dbs@.len() ==> (#[trigger] dbs@[t])@ == orig[t],
        decreases dbs@.len() - i,
    {
        let id = dbs[i].id;
        let recs = filter_owned(records, id);
        let vals = filter_values(values, &recs);
        let d = SDatabase {
            id,
            name: dbs[i].name.clone(),
            template: dbs[i].template.clone(),
            properties: filter_owned(props, id),
            views: filter_owned(views, id),
            records: recs,
            values: vals,
        };
        proof {
            let e = assemble_db(orig[i as int], rows_view(props@), rows_view(views@), rows_view(records@), rows_view(values@));
            assert(d@.properties == rows_view(d.properties@));
            assert(d@.views == rows_view(d.views@));
            assert(d@.records == rows_view(d.records@));
            assert(d@.values == rows_view(d.values@));
            assert((|x: SPropertyV| <SProperty as Owned>::spec_owner(x) == id) =~= (|p: SPropertyV| p.db == id));
            assert((|x: SViewV| <SView as Owned>::spec_owner(x) == id) =~= (|v: SViewV| v.db == id));
            assert((|x: SRecordV| <SRecord as Owned>::spec_owner(x) == id) =~= (|r: SRecordV| r.db == id));
            assert(rows_view(d.properties@) =~= e.properties);
            assert(rows_view(d.views@) =~= e.views);
            assert(rows_view(d.records@) =~= e.records);
            assert(rows_view(d.values@) =~= e.values);
        }
        dbs.set(i, d);
        i = i + 1;
    }
    assert(rows_view(dbs@) =~= orig.map_values(
        |d: SDatabaseV| assemble_db(d, rows_view(props@), rows_view(views@), rows_view(records@), rows_view(values@)),
    ));
}

// ─── the whole merge ────────────────────────────────────────────────────────

/// The merged snapshot plus what the user should be told.
pub struct MergeOutcome {
    pub merged: SyncSnapshot,
    /// One human-readable line per row the merge could not reconcile.
    pub conflicts: Vec<String>,
    /// (remote attachment id, local id it became): the caller fetched the
    /// bytes under the remote id and must store them under the local one.
    pub attachment_remap: Vec<(u64, u64)>,
}

pub open spec fn fout<T: SyncRow>(l: Seq<T::V>, s: Option<Seq<T::V>>, r: Seq<T::V>) -> Seq<(bool, T::V)> {
    flat_out::<T>(l, s, r, union_keys_spec::<T>(l, r))
}

pub open spec fn fren<T: SyncRow>(l: Seq<T::V>, s: Option<Seq<T::V>>, r: Seq<T::V>) -> Seq<T::V> {
    unkeyed(flat_renum::<T>(l, s, r, union_keys_spec::<T>(l, r)))
}

pub open spec fn fcon<T: SyncRow>(
    l: Seq<T::V>,
    s: Option<Seq<T::V>>,
    r: Seq<T::V>,
    what: Seq<char>,
    peer: Seq<char>,
) -> Seq<Seq<char>> {
    flat_conflicts::<T>(l, s, r, union_keys_spec::<T>(l, r), what, peer)
}

pub open spec fn shadow_part<V>(s: Option<SyncSnapshotV>, f: spec_fn(SyncSnapshotV) -> Seq<V>) -> Option<Seq<V>> {
    match s {
        Some(x) => Some(f(x)),
        None => None,
    }
}

pub open spec fn entities(dbs: Seq<SDatabaseV>) -> Seq<SDatabaseV> {
    dbs.map_values(|d: SDatabaseV| entity_of(d))
}

pub open spec fn ids_of<T: SyncRow>(s: Seq<T::V>) -> Seq<u64> {
    s.map_values(|x: T::V| T::spec_key(x).0)
}

pub open spec fn pages_flat(l: SyncSnapshotV, s: Option<SyncSnapshotV>, r: SyncSnapshotV) -> Seq<(bool, SPageV)> {
    fout::<SPage>(l.pages, shadow_part(s, |x: SyncSnapshotV| x.pages), r.pages)
}

pub open spec fn pages_ren(l: SyncSnapshotV, s: Option<SyncSnapshotV>, r: SyncSnapshotV) -> Seq<SPageV> {
    fren::<SPage>(l.pages, shadow_part(s, |x: SyncSnapshotV| x.pages), r.pages)
}

pub open spec fn atts_flat(l: SyncSnapshotV, s: Option<SyncSnapshotV>, r: SyncSnapshotV) -> Seq<(bool, SAttachmentV)> {
    fout::<SAttachment>(l.attachments, shadow_part(s, |x: SyncSnapshotV| x.attachments), r.attachments)
}

pub open spec fn blocks_flat(l: SyncSnapshotV, s: Option<SyncSnapshotV>, r: SyncSnapshotV) -> Seq<(bool, SBlockV)> {
    fout::<SBlock>(l.blocks, shadow_part(s, |x: SyncSnapshotV| x.blocks), r.blocks)
}

pub open spec fn dbs_flat(l: SyncSnapshotV, s: Option<SyncSnapshotV>, r: SyncSnapshotV) -> Seq<(bool, SDatabaseV)> {
    fout::<SDatabase>(entities(l.databases), shadow_part(s, |x: SyncSnapshotV| entities(x.databases)), entities(r.databases))
}

pub open spec fn dbs_ren(l: SyncSnapshotV, s: Option<SyncSnapshotV>, r: SyncSnapshotV) -> Seq<SDatabaseV> {
    fren::<SDatabase>(entities(l.databases), shadow_part(s, |x: SyncSnapshotV| entities(x.databases)), entities(r.databases))
}

pub open spec fn props_flat(l: SyncSnapshotV, s: Option<SyncSnapshotV>, r: SyncSnapshotV) -> Seq<(bool, SPropertyV)> {
    fout::<SProperty>(all_props(l.databases), shadow_part(s, |x: SyncSnapshotV| all_props(x.databases)), all_props(r.databases))
}

pub open spec fn views_flat(l: SyncSnapshotV, s: Option<SyncSnapshotV>, r: SyncSnapshotV) -> Seq<(bool, SViewV)> {
    fout::<SView>(all_views(l.databases), shadow_part(s, |x: SyncSnapshotV| all_views(x.databases)), all_views(r.databases))
}

pub open spec fn records_flat(l: SyncSnapshotV, s: Option<SyncSnapshotV>, r: SyncSnapshotV) -> Seq<(bool, SRecordV)> {
    fout::<SRecord>(all_records(l.databases), shadow_part(s, |x: SyncSnapshotV| all_records(x.databases)), all_records(r.databases))
}

pub open spec fn values_flat(l: SyncSnapshotV, s: Option<SyncSnapshotV>, r: SyncSnapshotV) -> Seq<(bool, SValueV)> {
    fout::<SValue>(all_values(l.databases), shadow_part(s, |x: SyncSnapshotV| all_values(x.databases)), all_values(r.databases))
}

/// The remote blocks to renumber: those that collided, then those a
/// renumbered page pulls along.
pub open spec fn plan_ren_blocks(l: SyncSnapshotV, s: Option<SyncSnapshotV>, r: SyncSnapshotV) -> Seq<SBlockV> {
    let ren0 = fren::<SBlock>(l.blocks, shadow_part(s, |x: SyncSnapshotV| x.blocks), r.blocks);
    ren0 + cascade::<SBlock>(r.blocks, ids_of::<SPage>(pages_ren(l, s, r)), taken_of(blocks_flat(l, s, r)) + ren0)
}

pub open spec fn plan_ren_props(l: SyncSnapshotV, s: Option<SyncSnapshotV>, r: SyncSnapshotV) -> Seq<SPropertyV> {
    let ren0 = fren::<SProperty>(all_props(l.databases), shadow_part(s, |x: SyncSnapshotV| all_props(x.databases)), all_props(r.databases));
    ren0 + cascade::<SProperty>(all_props(r.databases), ids_of::<SDatabase>(dbs_ren(l, s, r)), taken_of(props_flat(l, s, r)) + ren0)
}

pub open spec fn plan_ren_views(l: SyncSnapshotV, s: Option<SyncSnapshotV>, r: SyncSnapshotV) -> Seq<SViewV> {
    let ren0 = fren::<SView>(all_views(l.databases), shadow_part(s, |x: SyncSnapshotV| all_views(x.databases)), all_views(r.databases));
    ren0 + cascade::<SView>(all_views(r.databases), ids_of::<SDatabase>(dbs_ren(l, s, r)), taken_of(views_flat(l, s, r)) + ren0)
}

pub open spec fn plan_ren_records(l: SyncSnapshotV, s: Option<SyncSnapshotV>, r: SyncSnapshotV) -> Seq<SRecordV> {
    let ren0 = fren::<SRecord>(all_records(l.databases), shadow_part(s, |x: SyncSnapshotV| all_records(x.databases)), all_records(r.databases));
    ren0 + cascade::<SRecord>(all_records(r.databases), ids_of::<SDatabase>(dbs_ren(l, s, r)), taken_of(records_flat(l, s, r)) + ren0)
}

pub open spec fn plan_ren_values(l: SyncSnapshotV, s: Option<SyncSnapshotV>, r: SyncSnapshotV) -> Seq<SValueV> {
    let ren0 = fren::<SValue>(all_values(l.databases), shadow_part(s, |x: SyncSnapshotV| all_values(x.databases)), all_values(r.databases));
    ren0 + cascade_values(
        all_values(r.databases),
        ids_of::<SDatabase>(dbs_ren(l, s, r)),
        ids_of::<SRecord>(plan_ren_records(l, s, r)),
        all_records(r.databases),
        taken_of(values_flat(l, s, r)) + ren0,
    )
}

pub open spec fn plan_ren_atts(l: SyncSnapshotV, s: Option<SyncSnapshotV>, r: SyncSnapshotV) -> Seq<SAttachmentV> {
    let ren0 = fren::<SAttachment>(l.attachments, shadow_part(s, |x: SyncSnapshotV| x.attachments), r.attachments);
    ren0 + cascade_atts(plan_ren_blocks(l, s, r), r.attachments, taken_of(atts_flat(l, s, r)) + ren0)
}

/// Old remote id → fresh id, per namespace.
pub open spec fn plan_maps(l: SyncSnapshotV, s: Option<SyncSnapshotV>, r: SyncSnapshotV, ctx: MergeCtx) -> IdMaps {
    IdMaps {
        pages: fresh_pairs::<SPage>(pages_ren(l, s, r), ctx.last_page),
        blocks: fresh_pairs::<SBlock>(plan_ren_blocks(l, s, r), ctx.last_block),
        atts: fresh_pairs::<SAttachment>(plan_ren_atts(l, s, r), ctx.last_attachment),
        dbs: fresh_pairs::<SDatabase>(dbs_ren(l, s, r), ctx.last_db),
        props: fresh_pairs::<SProperty>(plan_ren_props(l, s, r), ctx.last_property),
        records: fresh_pairs::<SRecord>(plan_ren_records(l, s, r), ctx.last_record),
        views: fresh_pairs::<SView>(plan_ren_views(l, s, r), ctx.last_view),
    }
}

/// The merged pages before ordering: local-kept, remote-taken (remapped),
/// renumbered (fresh ids, remapped).
pub open spec fn plan_pages(l: SyncSnapshotV, s: Option<SyncSnapshotV>, r: SyncSnapshotV, ctx: MergeCtx) -> Seq<SPageV> {
    let m = plan_maps(l, s, r, ctx);
    kept_of(pages_flat(l, s, r)) + taken_of(pages_flat(l, s, r)).map_values(|p: SPageV| remap_page(p, m))
        + renumbered::<SPage>(pages_ren(l, s, r), ctx.last_page).map_values(|p: SPageV| remap_page(p, m))
}

pub open spec fn plan_blocks(l: SyncSnapshotV, s: Option<SyncSnapshotV>, r: SyncSnapshotV, ctx: MergeCtx) -> Seq<SBlockV> {
    let m = plan_maps(l, s, r, ctx);
    kept_of(blocks_flat(l, s, r)) + taken_of(blocks_flat(l, s, r)).map_values(|b: SBlockV| remap_block(b, m))
        + renumbered::<SBlock>(plan_ren_blocks(l, s, r), ctx.last_block).map_values(|b: SBlockV| remap_block(b, m))
}

pub open spec fn plan_atts(l: SyncSnapshotV, s: Option<SyncSnapshotV>, r: SyncSnapshotV, ctx: MergeCtx) -> Seq<SAttachmentV> {
    kept_of(atts_flat(l, s, r)) + taken_of(atts_flat(l, s, r)) + renumbered::<SAttachment>(plan_ren_atts(l, s, r), ctx.last_attachment)
}

pub open spec fn plan_props(l: SyncSnapshotV, s: Option<SyncSnapshotV>, r: SyncSnapshotV, ctx: MergeCtx) -> Seq<SPropertyV> {
    let m = plan_maps(l, s, r, ctx);
    kept_of(props_flat(l, s, r)) + taken_of(props_flat(l, s, r)).map_values(|p: SPropertyV| remap_prop(p, m))
        + renumbered::<SProperty>(plan_ren_props(l, s, r), ctx.last_property).map_values(|p: SPropertyV| remap_prop(p, m))
}

pub open spec fn plan_views(l: SyncSnapshotV, s: Option<SyncSnapshotV>, r: SyncSnapshotV, ctx: MergeCtx) -> Seq<SViewV> {
    let m = plan_maps(l, s, r, ctx);
    kept_of(views_flat(l, s, r)) + taken_of(views_flat(l, s, r)).map_values(|v: SViewV| remap_view(v, m))
        + renumbered::<SView>(plan_ren_views(l, s, r), ctx.last_view).map_values(|v: SViewV| remap_view(v, m))
}

pub open spec fn plan_records(l: SyncSnapshotV, s: Option<SyncSnapshotV>, r: SyncSnapshotV, ctx: MergeCtx) -> Seq<SRecordV> {
    let m = plan_maps(l, s, r, ctx);
    kept_of(records_flat(l, s, r)) + taken_of(records_flat(l, s, r)).map_values(|x: SRecordV| remap_record(x, m))
        + renumbered::<SRecord>(plan_ren_records(l, s, r), ctx.last_record).map_values(|x: SRecordV| remap_record(x, m))
}

/// The merged cells: the renumbered ones pass through the record and column
/// maps twice (once as ids are handed out, once with every remote row).
pub open spec fn plan_values(l: SyncSnapshotV, s: Option<SyncSnapshotV>, r: SyncSnapshotV, ctx: MergeCtx) -> Seq<SValueV> {
    let m = plan_maps(l, s, r, ctx);
    kept_of(values_flat(l, s, r)) + taken_of(values_flat(l, s, r)).map_values(|v: SValueV| remap_value(v, m))
        + plan_ren_values(l, s, r).map_values(|v: SValueV| remap_value(v, m)).map_values(|v: SValueV| remap_value(v, m))
}

pub open spec fn plan_dbs(l: SyncSnapshotV, s: Option<SyncSnapshotV>, r: SyncSnapshotV, ctx: MergeCtx) -> Seq<SDatabaseV> {
    (kept_of(dbs_flat(l, s, r)) + taken_of(dbs_flat(l, s, r)) + renumbered::<SDatabase>(dbs_ren(l, s, r), ctx.last_db)).map_values(
        |d: SDatabaseV| assemble_db(d, plan_props(l, s, r, ctx), plan_views(l, s, r, ctx), plan_records(l, s, r, ctx), plan_values(l, s, r, ctx)),
    )
}

/// The conflict lines, collection by collection.
pub open spec fn plan_conflicts(l: SyncSnapshotV, s: Option<SyncSnapshotV>, r: SyncSnapshotV, peer: Seq<char>) -> Seq<Seq<char>> {
    fcon::<SPage>(l.pages, shadow_part(s, |x: SyncSnapshotV| x.pages), r.pages, "page"@, peer)
        + fcon::<SAttachment>(l.attachments, shadow_part(s, |x: SyncSnapshotV| x.attachments), r.attachments, "attachment"@, peer)
        + fcon::<SBlock>(l.blocks, shadow_part(s, |x: SyncSnapshotV| x.blocks), r.blocks, "block"@, peer)
        + fcon::<SDatabase>(entities(l.databases), shadow_part(s, |x: SyncSnapshotV| entities(x.databases)), entities(r.databases), "database"@, peer)
        + fcon::<SProperty>(all_props(l.databases), shadow_part(s, |x: SyncSnapshotV| all_props(x.databases)), all_props(r.databases), "column"@, peer)
        + fcon::<SView>(all_views(l.databases), shadow_part(s, |x: SyncSnapshotV| all_views(x.databases)), all_views(r.databases), "view"@, peer)
        + fcon::<SRecord>(all_records(l.databases), shadow_part(s, |x: SyncSnapshotV| all_records(x.databases)), all_records(r.databases), "record"@, peer)
        + fcon::<SValue>(all_values(l.databases), shadow_part(s, |x: SyncSnapshotV| all_values(x.databases)), all_values(r.databases), "cell"@, peer)
}

/// The watermarks after the merge drew its fresh ids.
pub open spec fn plan_ctx(l: SyncSnapshotV, s: Option<SyncSnapshotV>, r: SyncSnapshotV, ctx: MergeCtx) -> MergeCtx {
    MergeCtx {
        last_page: (ctx.last_page + pages_ren(l, s, r).len()) as u64,
        last_block: (ctx.last_block + plan_ren_blocks(l, s, r).len()) as u64,
        last_attachment: (ctx.last_attachment + plan_ren_atts(l, s, r).len()) as u64,
        last_db: (ctx.last_db + dbs_ren(l, s, r).len()) as u64,
        last_property: (ctx.last_property + plan_ren_props(l, s, r).len()) as u64,
        last_record: (ctx.last_record + plan_ren_records(l, s, r).len()) as u64,
        last_view: (ctx.last_view + plan_ren_views(l, s, r).len()) as u64,
    }
}

/// Room above each watermark for every id the merge could draw.
pub open spec fn merge_room(l: SyncSnapshotV, r: SyncSnapshotV, ctx: MergeCtx) -> bool {
    &&& ctx.last_page + l.pages.len() + r.pages.len() <= u64::MAX
    &&& ctx.last_block + l.blocks.len() + 2 * r.blocks.len() <= u64::MAX
    &&& ctx.last_attachment + l.attachments.len() + r.attachments.len() + l.blocks.len() + 2 * r.blocks.len() <= u64::MAX
    &&& ctx.last_db + l.databases.len() + r.databases.len() <= u64::MAX
    &&& ctx.last_property + all_props(l.databases).len() + 2 * all_props(r.databases).len() <= u64::MAX
    &&& ctx.last_record + all_records(l.databases).len() + 2 * all_records(r.databases).len() <= u64::MAX
    &&& ctx.last_view + all_views(l.databases).len() + 2 * all_views(r.databases).len() <= u64::MAX
}

pub open spec fn opt_snapshot_view(s: Option<&SyncSnapshot>) -> Option<SyncSnapshotV> {
    match s {
        Some(x) => Some(x@),
        None => None,
    }
}

/// The flat merge of one collection, split by origin: (local-kept rows,
/// remote-taken rows, remote rows to renumber).
fn flat3<T: SyncRow>(
    local: &Vec<T>,
    shadow: Option<&Vec<T>>,
    remote: &Vec<T>,
    what: &str,
    peer: &str,
    conflicts: &mut Vec<String>,
) -> (r: (Vec<T>, Vec<T>, Vec<T>))
    ensures
        rows_view(r.0@) == kept_of(fout::<T>(rows_view(local@), opt_rows_view(shadow), rows_view(remote@))),
        rows_view(r.1@) == taken_of(fout::<T>(rows_view(local@), opt_rows_view(shadow), rows_view(remote@))),
        rows_view(r.2@) == fren::<T>(rows_view(local@), opt_rows_view(shadow), rows_view(remote@)),
        r.2@.len() <= local@.len() + remote@.len(),
        strings_view(final(conflicts)@) == strings_view(old(conflicts)@) + fcon::<T>(
            rows_view(local@),
            opt_rows_view(shadow),
            rows_view(remote@),
            what@,
            peer@,
        ),
{
    let mut q: Vec<((u64, u64), T)> = Vec::new();
    let ghost q0 = q@;
    let out = merge_flat(local, shadow, remote, what, peer, conflicts, &mut q);
    assert(keyed_view(q0) =~= seq![]);
    assert(keyed_view(q@) =~= flat_renum::<T>(
        rows_view(local@),
        opt_rows_view(shadow),
        rows_view(remote@),
        union_keys_spec::<T>(rows_view(local@), rows_view(remote@)),
    ));
    let (kept, taken) = split_origin(out);
    let ren = unwrap_pairs(q);
    (kept, taken, ren)
}

/// The ids of a list of rows.
fn key_ids<T: SyncRow>(rows: &Vec<T>) -> (r: Vec<u64>)
    ensures
        r@ == ids_of::<T>(rows_view(rows@)),
{
    let mut out: Vec<u64> = Vec::new();
    let mut i: usize = 0;
    while i < rows.len()
        invariant
            i <= rows@.len(),
            out@ == ids_of::<T>(rows_view(rows@)).take(i as int),
        decreases rows@.len() - i,
    {
        out.push(rows[i].key().0);
        i = i + 1;
        assert(out@ =~= ids_of::<T>(rows_view(rows@)).take(i as int));
    }
    assert(ids_of::<T>(rows_view(rows@)).take(rows@.len() as int) =~= ids_of::<T>(rows_view(rows@)));
    out
}

fn concat3<T: WireRow>(a: Vec<T>, b: &Vec<T>, c: &Vec<T>) -> (r: Vec<T>)
    ensures
        rows_view(r@) == rows_view(a@) + rows_view(b@) + rows_view(c@),
{
    let mut out = a;
    append_rows(&mut out, b);
    append_rows(&mut out, c);
    out
}

/// Merge `remote` into `local` against `shadow` (`None`: the two devices
/// never synced). See the module comment for the rule per row.
#[verifier::spinoff_prover]
#[verifier::rlimit(60)]
pub fn merge(
    local: &SyncSnapshot,
    shadow: Option<&SyncSnapshot>,
    remote: &SyncSnapshot,
    peer: &str,
    ctx: &mut MergeCtx,
) -> (out: MergeOutcome)
    requires
        merge_room(local@, remote@, *old(ctx)),
    ensures
        ({
            let (l, s, r, c) = (local@, opt_snapshot_view(shadow), remote@, *old(ctx));
            &&& out.merged@.version == r.version
            &&& out.merged@.device_id == r.device_id
            &&& out.merged@.device == r.device
            &&& crate::sync::order::parents_first::<SPage>(plan_pages(l, s, r, c), out.merged@.pages)
            &&& crate::sync::order::parents_first::<SBlock>(plan_blocks(l, s, r, c), out.merged@.blocks)
            &&& out.merged@.attachments == plan_atts(l, s, r, c)
            &&& out.merged@.databases == plan_dbs(l, s, r, c)
            &&& strings_view(out.conflicts@) == plan_conflicts(l, s, r, peer@)
            &&& out.attachment_remap@ == plan_maps(l, s, r, c).atts
            &&& *final(ctx) == plan_ctx(l, s, r, c)
        }),
{
    let ghost l = local@;
    let ghost sv = opt_snapshot_view(shadow);
    let ghost rv = remote@;
    let ghost c0 = *ctx;
    let mut conflicts: Vec<String> = Vec::new();

    // ── the flat collections ──
    let sh_pages: Option<&Vec<SPage>> = match shadow {
        Some(x) => Some(&x.pages),
        None => None,
    };
    assert(opt_rows_view(sh_pages) == shadow_part(sv, |x: SyncSnapshotV| x.pages));
    let (kept_pages, mut taken_pages, mut ren_pages) = flat3(&local.pages, sh_pages, &remote.pages, "page", peer, &mut conflicts);

    let sh_atts: Option<&Vec<SAttachment>> = match shadow {
        Some(x) => Some(&x.attachments),
        None => None,
    };
    assert(opt_rows_view(sh_atts) == shadow_part(sv, |x: SyncSnapshotV| x.attachments));
    let (kept_atts, taken_atts, mut ren_atts) = flat3(&local.attachments, sh_atts, &remote.attachments, "attachment", peer, &mut conflicts);

    let sh_blocks: Option<&Vec<SBlock>> = match shadow {
        Some(x) => Some(&x.blocks),
        None => None,
    };
    assert(opt_rows_view(sh_blocks) == shadow_part(sv, |x: SyncSnapshotV| x.blocks));
    let (kept_blocks, mut taken_blocks, mut ren_blocks) = flat3(&local.blocks, sh_blocks, &remote.blocks, "block", peer, &mut conflicts);

    // ── databases: entity rows compared as entities ──
    let local_ents = db_entities(&local.databases);
    let remote_ents = db_entities(&remote.databases);
    let shadow_ents: Option<Vec<SDatabase>> = match shadow {
        Some(x) => Some(db_entities(&x.databases)),
        None => None,
    };
    let sh_ents: Option<&Vec<SDatabase>> = match &shadow_ents {
        Some(v) => Some(v),
        None => None,
    };
    assert(opt_rows_view(sh_ents) == shadow_part(sv, |x: SyncSnapshotV| entities(x.databases)));
    let (kept_dbs, taken_dbs, mut ren_dbs) = flat3(&local_ents, sh_ents, &remote_ents, "database", peer, &mut conflicts);

    let (lp, lvw, lr, lval) = flatten_dbs(&local.databases);
    let (rp, rvw, rr, rval) = flatten_dbs(&remote.databases);
    let (sp, svw, sr, sval) = match shadow {
        Some(x) => flatten_dbs(&x.databases),
        None => (Vec::new(), Vec::new(), Vec::new(), Vec::new()),
    };
    let has_shadow = shadow.is_some();
    let sh_props: Option<&Vec<SProperty>> = if has_shadow { Some(&sp) } else { None };
    assert(opt_rows_view(sh_props) == shadow_part(sv, |x: SyncSnapshotV| all_props(x.databases)));
    let (kept_props, mut taken_props, mut ren_props) = flat3(&lp, sh_props, &rp, "column", peer, &mut conflicts);
    let sh_views: Option<&Vec<SView>> = if has_shadow { Some(&svw) } else { None };
    assert(opt_rows_view(sh_views) == shadow_part(sv, |x: SyncSnapshotV| all_views(x.databases)));
    let (kept_views, mut taken_views, mut ren_views) = flat3(&lvw, sh_views, &rvw, "view", peer, &mut conflicts);
    let sh_records: Option<&Vec<SRecord>> = if has_shadow { Some(&sr) } else { None };
    assert(opt_rows_view(sh_records) == shadow_part(sv, |x: SyncSnapshotV| all_records(x.databases)));
    let (kept_records, mut taken_records, mut ren_records) = flat3(&lr, sh_records, &rr, "record", peer, &mut conflicts);
    let sh_values: Option<&Vec<SValue>> = if has_shadow { Some(&sval) } else { None };
    assert(opt_rows_view(sh_values) == shadow_part(sv, |x: SyncSnapshotV| all_values(x.databases)));
    let (kept_values, mut taken_values, mut ren_values) = flat3(&lval, sh_values, &rval, "cell", peer, &mut conflicts);
    assert(strings_view(conflicts@) =~= plan_conflicts(l, sv, rv, peer@));

    // ── cascades: a renumbered container pulls its remote rows along ──
    let page_ids = key_ids(&ren_pages);
    cascade_rows(&remote.blocks, &page_ids, &taken_blocks, &mut ren_blocks);
    assert(rows_view(ren_blocks@) == plan_ren_blocks(l, sv, rv));
    let db_ids = key_ids(&ren_dbs);
    cascade_rows(&rp, &db_ids, &taken_props, &mut ren_props);
    cascade_rows(&rvw, &db_ids, &taken_views, &mut ren_views);
    cascade_rows(&rr, &db_ids, &taken_records, &mut ren_records);
    assert(rows_view(ren_props@) == plan_ren_props(l, sv, rv));
    assert(rows_view(ren_views@) == plan_ren_views(l, sv, rv));
    assert(rows_view(ren_records@) == plan_ren_records(l, sv, rv));
    let record_ids = key_ids(&ren_records);
    cascade_cells(&rval, &db_ids, &record_ids, &rr, &taken_values, &mut ren_values);
    assert(rows_view(ren_values@) == plan_ren_values(l, sv, rv));
    cascade_attachments(&ren_blocks, &remote.attachments, &taken_atts, &mut ren_atts);
    assert(rows_view(ren_atts@) == plan_ren_atts(l, sv, rv));
    proof {
        lemma_cascade_len::<SBlock>(rows_view(remote.blocks@), page_ids@, rows_view(taken_blocks@) + fren::<SBlock>(l.blocks, shadow_part(sv, |x: SyncSnapshotV| x.blocks), rv.blocks));
        lemma_cascade_len::<SProperty>(rows_view(rp@), db_ids@, rows_view(taken_props@) + fren::<SProperty>(all_props(l.databases), shadow_part(sv, |x: SyncSnapshotV| all_props(x.databases)), all_props(rv.databases)));
        lemma_cascade_len::<SView>(rows_view(rvw@), db_ids@, rows_view(taken_views@) + fren::<SView>(all_views(l.databases), shadow_part(sv, |x: SyncSnapshotV| all_views(x.databases)), all_views(rv.databases)));
        lemma_cascade_len::<SRecord>(rows_view(rr@), db_ids@, rows_view(taken_records@) + fren::<SRecord>(all_records(l.databases), shadow_part(sv, |x: SyncSnapshotV| all_records(x.databases)), all_records(rv.databases)));
        lemma_cascade_atts_len(plan_ren_blocks(l, sv, rv), rv.attachments, rows_view(taken_atts@) + fren::<SAttachment>(l.attachments, shadow_part(sv, |x: SyncSnapshotV| x.attachments), rv.attachments));
    }

    // ── fresh ids and the remap tables ──
    let mut maps = Maps {
        pages: Vec::new(),
        blocks: Vec::new(),
        atts: Vec::new(),
        dbs: Vec::new(),
        props: Vec::new(),
        records: Vec::new(),
        views: Vec::new(),
    };
    let mut w = ctx.last_page;
    allocate(&mut ren_pages, &mut w, &mut maps.pages);
    ctx.last_page = w;
    let mut w = ctx.last_attachment;
    allocate(&mut ren_atts, &mut w, &mut maps.atts);
    ctx.last_attachment = w;
    let mut w = ctx.last_block;
    allocate(&mut ren_blocks, &mut w, &mut maps.blocks);
    ctx.last_block = w;
    let mut w = ctx.last_db;
    allocate(&mut ren_dbs, &mut w, &mut maps.dbs);
    ctx.last_db = w;
    let mut w = ctx.last_property;
    allocate(&mut ren_props, &mut w, &mut maps.props);
    ctx.last_property = w;
    let mut w = ctx.last_record;
    allocate(&mut ren_records, &mut w, &mut maps.records);
    ctx.last_record = w;
    let mut w = ctx.last_view;
    allocate(&mut ren_views, &mut w, &mut maps.views);
    ctx.last_view = w;
    assert(maps@ == plan_maps(l, sv, rv, c0));
    remap_values(&mut ren_values, &maps);

    // ── remap cross-references on the remote-origin rows only ──
    remap_blocks(&mut taken_blocks, &maps);
    remap_blocks(&mut ren_blocks, &maps);
    remap_pages(&mut taken_pages, &maps);
    remap_pages(&mut ren_pages, &maps);
    remap_props(&mut taken_props, &maps);
    remap_props(&mut ren_props, &maps);
    remap_views(&mut taken_views, &maps);
    remap_views(&mut ren_views, &maps);
    remap_records(&mut taken_records, &maps);
    remap_records(&mut ren_records, &maps);
    remap_values(&mut taken_values, &maps);
    remap_values(&mut ren_values, &maps);

    // ── assemble ──
    let all_props = concat3(kept_props, &taken_props, &ren_props);
    let all_views = concat3(kept_views, &taken_views, &ren_views);
    let all_records = concat3(kept_records, &taken_records, &ren_records);
    let all_values = concat3(kept_values, &taken_values, &ren_values);
    assert(rows_view(all_props@) =~= plan_props(l, sv, rv, c0));
    assert(rows_view(all_views@) =~= plan_views(l, sv, rv, c0));
    assert(rows_view(all_records@) =~= plan_records(l, sv, rv, c0));
    assert(rows_view(all_values@) =~= plan_values(l, sv, rv, c0));
    let mut all_dbs = concat3(kept_dbs, &taken_dbs, &ren_dbs);
    fill_dbs(&mut all_dbs, &all_props, &all_views, &all_records, &all_values);
    assert(rows_view(all_dbs@) =~= plan_dbs(l, sv, rv, c0));

    let mut pages = concat3(kept_pages, &taken_pages, &ren_pages);
    assert(rows_view(pages@) =~= plan_pages(l, sv, rv, c0));
    let mut blocks = concat3(kept_blocks, &taken_blocks, &ren_blocks);
    assert(rows_view(blocks@) =~= plan_blocks(l, sv, rv, c0));
    let attachments = concat3(kept_atts, &taken_atts, &ren_atts);
    assert(rows_view(attachments@) =~= plan_atts(l, sv, rv, c0));
    crate::sync::order::sort_pages_parents_first(&mut pages);
    crate::sync::order::sort_blocks_parents_first(&mut blocks);

    let merged = SyncSnapshot {
        version: remote.version,
        device_id: remote.device_id.clone(),
        device: remote.device.clone(),
        pages,
        blocks,
        attachments,
        databases: all_dbs,
    };
    MergeOutcome { merged, conflicts, attachment_remap: maps.atts }
}

} // verus!
