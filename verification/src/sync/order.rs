//! Parents before children: the order an apply can insert rows in.
//!
//! A row's depth is the number of parent links followed from it through the
//! rows of the same list, stopping at a row with no parent, at a parent id
//! the list does not hold, or on coming back to a row already passed (a
//! cycle). A chain never has more links than the list has rows.

use vstd::prelude::*;

use crate::sync::merge::lookup;
use crate::sync::model::{rows_view, SBlock, SPage, SyncRow};

verus! {

broadcast use vstd::seq_lib::group_to_multiset_ensures;

/// A row that may name a parent row of the same list.
pub trait Parented: SyncRow {
    spec fn spec_parent(v: Self::V) -> Option<u64>;

    fn parent_id(&self) -> (r: Option<u64>)
        ensures
            r == Self::spec_parent(self@),
    ;
}

impl Parented for SPage {
    open spec fn spec_parent(v: crate::sync::model::SPageV) -> Option<u64> {
        v.parent
    }

    fn parent_id(&self) -> (r: Option<u64>) {
        self.parent
    }
}

impl Parented for SBlock {
    open spec fn spec_parent(v: crate::sync::model::SBlockV) -> Option<u64> {
        v.parent
    }

    fn parent_id(&self) -> (r: Option<u64>) {
        self.parent
    }
}

/// The parent links followed from `cur`, having passed `seen`, with at most
/// `fuel` links left to follow.
pub open spec fn depth_walk<T: Parented>(s: Seq<T::V>, cur: u64, seen: Seq<u64>, fuel: nat) -> nat
    decreases fuel,
{
    if fuel == 0 || seen.contains(cur) {
        0
    } else {
        match lookup::<T>(s, (cur, 0)) {
            Some(row) => match T::spec_parent(row) {
                Some(p) => 1 + depth_walk::<T>(s, p, seen.push(cur), (fuel - 1) as nat),
                None => 0,
            },
            None => 0,
        }
    }
}

/// The depth of row `id` within the list `s`.
pub open spec fn depth<T: Parented>(s: Seq<T::V>, id: u64) -> nat {
    depth_walk::<T>(s, id, Seq::empty(), s.len())
}

/// The sort key of a row: its depth, then its id.
pub open spec fn order_key<T: Parented>(s: Seq<T::V>, v: T::V) -> (nat, u64) {
    (depth::<T>(s, T::spec_key(v).0), T::spec_key(v).0)
}

pub open spec fn order_le(a: (nat, u64), b: (nat, u64)) -> bool {
    a.0 < b.0 || (a.0 == b.0 && a.1 <= b.1)
}

/// `out` holds the rows of `orig` with shallower rows first, ties by id.
pub open spec fn parents_first<T: Parented>(orig: Seq<T::V>, out: Seq<T::V>) -> bool {
    &&& out.to_multiset() == orig.to_multiset()
    &&& forall|i: int, j: int|
        0 <= i < j < out.len() ==> order_le(
            order_key::<T>(orig, #[trigger] out[i]),
            order_key::<T>(orig, #[trigger] out[j]),
        )
}

fn contains_id(v: &Vec<u64>, x: u64) -> (r: bool)
    ensures
        r == v@.contains(x),
{
    let mut i: usize = 0;
    while i < v.len()
        invariant
            i <= v@.len(),
            forall|j: int| 0 <= j < i ==> v@[j] != x,
        decreases v@.len() - i,
    {
        if v[i] == x {
            return true;
        }
        i = i + 1;
    }
    false
}

fn depth_of<T: Parented>(rows: &Vec<T>, start: u64) -> (r: usize)
    ensures
        r as nat == depth::<T>(rows_view(rows@), start),
{
    let ghost s = rows_view(rows@);
    let mut seen: Vec<u64> = Vec::new();
    let mut d: usize = 0;
    let mut cur: u64 = start;
    let mut done = false;
    while !done && d < rows.len()
        invariant
            s == rows_view(rows@),
            s.len() == rows@.len(),
            d <= rows@.len(),
            !done ==> depth::<T>(s, start) == d + depth_walk::<T>(s, cur, seen@, (s.len() - d) as nat),
            done ==> depth::<T>(s, start) == d,
        decreases rows@.len() - d, (if done { 0int } else { 1int }),
    {
        let ghost fuel = (s.len() - d) as nat;
        if contains_id(&seen, cur) {
            done = true;
        } else {
            match crate::sync::merge::index_of_row(rows, (cur, 0)) {
                None => {
                    done = true;
                },
                Some(j) => {
                    match rows[j].parent_id() {
                        None => {
                            done = true;
                        },
                        Some(p) => {
                            proof {
                                assert(depth_walk::<T>(s, cur, seen@, fuel) == 1 + depth_walk::<T>(s, p, seen@.push(cur), (fuel - 1) as nat));
                            }
                            seen.push(cur);
                            cur = p;
                            d = d + 1;
                        },
                    }
                },
            }
        }
    }
    d
}

/// Reorder `rows` so that shallower rows come first, ties by id.
fn sort_parents_first<T: Parented>(rows: &mut Vec<T>)
    ensures
        parents_first::<T>(rows_view(old(rows)@), rows_view(final(rows)@)),
{
    let ghost orig = rows_view(rows@);
    let mut out: Vec<T> = Vec::new();
    let mut out_keys: Vec<(usize, u64)> = Vec::new();
    let mut i: usize = 0;
    while i < rows.len()
        invariant
            rows@ == old(rows)@,
            orig == rows_view(rows@),
            i <= rows@.len(),
            out@.len() == out_keys@.len(),
            forall|t: int| 0 <= t < out@.len() ==> (#[trigger] out_keys@[t]).0 as nat == order_key::<T>(orig, out@[t]@).0
                && out_keys@[t].1 == order_key::<T>(orig, out@[t]@).1,
            forall|a: int, b: int| 0 <= a < b < out_keys@.len() ==> order_le(
                ((#[trigger] out_keys@[a]).0 as nat, out_keys@[a].1),
                ((#[trigger] out_keys@[b]).0 as nat, out_keys@[b].1),
            ),
            rows_view(out@).to_multiset() == orig.take(i as int).to_multiset(),
        decreases rows@.len() - i,
    {
        let id = rows[i].key().0;
        let k: (usize, u64) = (depth_of(rows, id), id);
        let mut j: usize = 0;
        while j < out_keys.len() && !(k.0 < out_keys[j].0 || (k.0 == out_keys[j].0 && k.1 < out_keys[j].1))
            invariant
                j <= out_keys@.len(),
                forall|t: int| 0 <= t < j ==> order_le(((#[trigger] out_keys@[t]).0 as nat, out_keys@[t].1), (k.0 as nat, k.1)),
            decreases out_keys@.len() - j,
        {
            j = j + 1;
        }
        let ghost ok0 = out_keys@;
        let ghost o0 = out@;
        proof {
            assert forall|t: int| j <= t < ok0.len() implies !order_le(((#[trigger] ok0[t]).0 as nat, ok0[t].1), (k.0 as nat, k.1)) by {
                if t > j {
                    assert(order_le((ok0[j as int].0 as nat, ok0[j as int].1), (ok0[t].0 as nat, ok0[t].1)));
                }
            }
        }
        let row = rows[i].dup();
        out.insert(j, row);
        out_keys.insert(j, k);
        proof {
            assert forall|a: int, b: int| 0 <= a < b < out_keys@.len() implies order_le(
                ((#[trigger] out_keys@[a]).0 as nat, out_keys@[a].1),
                ((#[trigger] out_keys@[b]).0 as nat, out_keys@[b].1),
            ) by {
                if b < j {
                    assert(out_keys@[a] == ok0[a] && out_keys@[b] == ok0[b]);
                } else if b == j {
                    assert(out_keys@[a] == ok0[a]);
                } else if a < j {
                    assert(out_keys@[a] == ok0[a] && out_keys@[b] == ok0[b - 1]);
                } else if a == j {
                    assert(out_keys@[b] == ok0[b - 1]);
                } else {
                    assert(out_keys@[a] == ok0[a - 1] && out_keys@[b] == ok0[b - 1]);
                }
            }
            assert forall|t: int| 0 <= t < out@.len() implies (#[trigger] out_keys@[t]).0 as nat == order_key::<T>(orig, out@[t]@).0
                && out_keys@[t].1 == order_key::<T>(orig, out@[t]@).1 by {
                if t < j {
                    assert(out@[t] == o0[t]);
                } else if t > j {
                    assert(out@[t] == o0[t - 1]);
                    assert(out_keys@[t] == ok0[t - 1]);
                }
            }
            assert(rows_view(out@) =~= rows_view(o0).insert(j as int, rows@[i as int]@));
            assert(orig.take(i + 1) =~= orig.take(i as int).push(orig[i as int]));
        }
        i = i + 1;
    }
    proof {
        assert(orig.take(orig.len() as int) =~= orig);
        assert forall|a: int, b: int| 0 <= a < b < rows_view(out@).len() implies order_le(
            order_key::<T>(orig, #[trigger] rows_view(out@)[a]),
            order_key::<T>(orig, #[trigger] rows_view(out@)[b]),
        ) by {
            assert(order_le(((out_keys@[a]).0 as nat, out_keys@[a].1), ((out_keys@[b]).0 as nat, out_keys@[b].1)));
        }
    }
    *rows = out;
}

/// Parents first, ties by id, so an apply can create pages in list order.
pub fn sort_pages_parents_first(pages: &mut Vec<SPage>)
    ensures
        parents_first::<SPage>(rows_view(old(pages)@), rows_view(final(pages)@)),
{
    sort_parents_first(pages);
}

/// Container blocks before the blocks they contain, ties by id.
pub fn sort_blocks_parents_first(blocks: &mut Vec<SBlock>)
    ensures
        parents_first::<SBlock>(rows_view(old(blocks)@), rows_view(final(blocks)@)),
{
    sort_parents_first(blocks);
}

// ─── what the order promises ────────────────────────────────────────────────

/// The row id `n` parent links above `x` within `s` (`x` itself for none);
/// nothing once a link leaves the list or a row has no parent.
pub open spec fn climb<T: Parented>(s: Seq<T::V>, x: u64, n: nat) -> Option<u64>
    decreases n,
{
    if n == 0 {
        Some(x)
    } else {
        match lookup::<T>(s, (x, 0)) {
            Some(row) => match T::spec_parent(row) {
                Some(p) => climb::<T>(s, p, (n - 1) as nat),
                None => None,
            },
            None => None,
        }
    }
}

/// From `x`, `k` parent links lead through pairwise different ids to a top:
/// an id the list does not hold, or a row with no parent. (No chain of more
/// links than the list has rows can pass different rows only.)
pub open spec fn climbs_to_top<T: Parented>(s: Seq<T::V>, x: u64, k: nat) -> bool {
    &&& k <= s.len()
    &&& forall|a: nat| a <= k ==> (#[trigger] climb::<T>(s, x, a)) is Some
    &&& forall|a: nat, b: nat| a < b <= k ==> #[trigger] climb::<T>(s, x, a) != #[trigger] climb::<T>(s, x, b)
    &&& match lookup::<T>(s, (climb::<T>(s, x, k)->0, 0)) {
        Some(row) => T::spec_parent(row) is None,
        None => true,
    }
}

/// A walk along a chain that climbs to a top in `k` links, passing none of
/// `seen` before the top, counts `k` links.
proof fn lemma_walk_counts_links<T: Parented>(s: Seq<T::V>, x: u64, seen: Seq<u64>, fuel: nat, k: nat)
    requires
        forall|a: nat| a <= k ==> (#[trigger] climb::<T>(s, x, a)) is Some,
        forall|a: nat, b: nat| a < b <= k ==> #[trigger] climb::<T>(s, x, a) != #[trigger] climb::<T>(s, x, b),
        match lookup::<T>(s, (climb::<T>(s, x, k)->0, 0)) {
            Some(row) => T::spec_parent(row) is None,
            None => true,
        },
        forall|a: nat| a < k ==> !seen.contains((#[trigger] climb::<T>(s, x, a))->0),
        fuel >= k,
    ensures
        depth_walk::<T>(s, x, seen, fuel) == k,
    decreases k,
{
    assert(climb::<T>(s, x, 0) == Some(x));
    if k > 0 {
        assert(climb::<T>(s, x, 1) is Some);
        let row = lookup::<T>(s, (x, 0))->0;
        let p = T::spec_parent(row)->0;
        assert(climb::<T>(s, x, 1) == climb::<T>(s, p, 0));
        assert forall|a: nat| a + 1 <= k implies climb::<T>(s, x, a + 1) == climb::<T>(s, p, a) by {}
        assert forall|a: nat| a <= (k - 1) as nat implies (#[trigger] climb::<T>(s, p, a)) is Some by {
            assert(climb::<T>(s, x, a + 1) == climb::<T>(s, p, a));
        }
        assert forall|a: nat, b: nat| a < b <= (k - 1) as nat implies #[trigger] climb::<T>(s, p, a) != #[trigger] climb::<T>(s, p, b) by {
            assert(climb::<T>(s, x, a + 1) == climb::<T>(s, p, a));
            assert(climb::<T>(s, x, b + 1) == climb::<T>(s, p, b));
        }
        assert(climb::<T>(s, x, k) == climb::<T>(s, p, (k - 1) as nat)) by {
            assert(((k - 1) as nat) + 1 == k);
        }
        assert forall|a: nat| a < (k - 1) as nat implies !seen.push(x).contains((#[trigger] climb::<T>(s, p, a))->0) by {
            assert(climb::<T>(s, x, a + 1) == climb::<T>(s, p, a));
            assert(climb::<T>(s, x, 0) != climb::<T>(s, x, a + 1));
            if seen.push(x).contains(climb::<T>(s, p, a)->0) {
                let t = choose|t: int| 0 <= t < seen.push(x).len() && seen.push(x)[t] == climb::<T>(s, p, a)->0;
                if t < seen.len() {
                    assert(seen.contains(seen[t]));
                }
            }
        }
        assert(!seen.contains(x));
        lemma_walk_counts_links::<T>(s, p, seen.push(x), (fuel - 1) as nat, (k - 1) as nat);
    }
}

/// A row whose chain of parent links climbs to a top without a cycle is one
/// deeper than its parent; so in a list sorted parents first, that row comes
/// after its parent.
pub proof fn lemma_parent_sorts_first<T: Parented>(orig: Seq<T::V>, out: Seq<T::V>, i: int, j: int, k: nat)
    requires
        parents_first::<T>(orig, out),
        0 <= i < out.len(),
        0 <= j < out.len(),
        lookup::<T>(orig, (T::spec_key(out[j]).0, 0)) == Some(out[j]),
        T::spec_parent(out[j]) == Some(T::spec_key(out[i]).0),
        climbs_to_top::<T>(orig, T::spec_key(out[j]).0, k + 1),
    ensures
        depth::<T>(orig, T::spec_key(out[j]).0) == depth::<T>(orig, T::spec_key(out[i]).0) + 1,
        i < j,
{
    let c = T::spec_key(out[j]).0;
    let p = T::spec_key(out[i]).0;
    lemma_walk_counts_links::<T>(orig, c, Seq::empty(), orig.len(), k + 1);
    assert(climb::<T>(orig, c, 1) == climb::<T>(orig, p, 0));
    assert forall|a: nat| a <= k implies climb::<T>(orig, c, a + 1) == climb::<T>(orig, p, a) by {}
    assert forall|a: nat| a <= k implies (#[trigger] climb::<T>(orig, p, a)) is Some by {
        assert(climb::<T>(orig, c, a + 1) == climb::<T>(orig, p, a));
    }
    assert forall|a: nat, b: nat| a < b <= k implies #[trigger] climb::<T>(orig, p, a) != #[trigger] climb::<T>(orig, p, b) by {
        assert(climb::<T>(orig, c, a + 1) == climb::<T>(orig, p, a));
        assert(climb::<T>(orig, c, b + 1) == climb::<T>(orig, p, b));
    }
    assert(climb::<T>(orig, c, k + 1) == climb::<T>(orig, p, k));
    lemma_walk_counts_links::<T>(orig, p, Seq::empty(), orig.len(), k);
    assert(climb::<T>(orig, c, 0) != climb::<T>(orig, c, 1));
    if j <= i {
        if j < i {
            assert(order_le(order_key::<T>(orig, out[j]), order_key::<T>(orig, out[i])));
        }
    }
}

/// A list sorted parents first holds the same rows, each as often, and puts
/// two rows of the same depth in increasing id order.
pub proof fn lemma_sorted_rows_and_ties<T: Parented>(orig: Seq<T::V>, out: Seq<T::V>)
    requires
        parents_first::<T>(orig, out),
    ensures
        out.len() == orig.len(),
        forall|x: T::V| #[trigger] out.contains(x) <==> orig.contains(x),
        forall|i: int, j: int| 0 <= i < j < out.len() && depth::<T>(orig, T::spec_key(#[trigger] out[i]).0) == depth::<T>(orig, T::spec_key(#[trigger] out[j]).0)
            ==> T::spec_key(out[i]).0 <= T::spec_key(out[j]).0,
        forall|i: int, j: int| 0 <= i < j < out.len() ==> depth::<T>(orig, T::spec_key(#[trigger] out[i]).0) <= depth::<T>(orig, T::spec_key(#[trigger] out[j]).0),
{
    assert(out.to_multiset().len() == orig.to_multiset().len());
    assert forall|x: T::V| #[trigger] out.contains(x) <==> orig.contains(x) by {
        assert(out.to_multiset().count(x) == orig.to_multiset().count(x));
    }
    assert forall|i: int, j: int| 0 <= i < j < out.len() implies depth::<T>(orig, T::spec_key(#[trigger] out[i]).0) <= depth::<T>(orig, T::spec_key(#[trigger] out[j]).0) by {
        assert(order_le(order_key::<T>(orig, out[i]), order_key::<T>(orig, out[j])));
    }
}

} // verus!
