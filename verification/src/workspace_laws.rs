//! What the page tree's operations keep: a read after a write, the recents
//! discipline, the search cap, and the pages a delete, a move or a duplicate
//! touches. Each law is stated over the abstract view that the operations'
//! own contracts use.
//!
//! The tree's consistency (`links_agree`: parent links and children lists
//! agree; `names_pages`: every list names pages) holds of every workspace the
//! API builds (`sample`, `bench`, a load from stored rows with distinct ids)
//! and every operation keeps it (the `lemma_links_kept_by_*`,
//! `lemma_names_kept_by_*` and `lemma_tree_kept_by_*` laws, one per kind of
//! change). The laws on the depth-first order and the tree rows rest on it.

use vstd::prelude::*;

use crate::workspace::{
    kid_pairs, rows_map, sorted_kids, bench_title, sample_children, sample_page, sample_parent, persisted_page, row_id, row_parent, blank_page, copy_seq, tops, all_present, seq_map, dfs, expand_all, index_of, rows, RowView, lemma_copy_len, lemma_index_of, not_in, other_than, without, HitView,
    PageView, Workspace, WorkspaceView, MAX_HITS, MAX_RECENTS,
};

verus! {

/// Renaming a page and reading it back gives the new title; nothing else of
/// that page changes, and no other page changes at all.
pub proof fn lemma_rename_reads_back(v: WorkspaceView, id: i32, title: Seq<char>)
    requires
        v.has(id),
    ensures
        ({
            let w = v.with_page(id, PageView { title, ..v.pages[id] });
            &&& w.has(id)
            &&& w.pages[id].title == title
            &&& w.pages[id].parent == v.pages[id].parent
            &&& w.pages[id].children == v.pages[id].children
            &&& forall|k: i32| k != id ==> (w.has(k) == v.has(k) && (v.has(k) ==> w.pages[k] == v.pages[k]))
            &&& w.roots == v.roots
            &&& w.recents == v.recents
        }),
{
}

/// A filter of a list without repeats has no repeats.
proof fn lemma_filter_no_dup(s: Seq<i32>, pred: spec_fn(i32) -> bool)
    requires
        s.no_duplicates(),
    ensures
        s.filter(pred).no_duplicates(),
    decreases s.len(),
{
    reveal(Seq::filter);
    if s.len() > 0 {
        let init = s.drop_last();
        assert(init.no_duplicates()) by {
            assert forall|i: int, j: int| 0 <= i < init.len() && 0 <= j < init.len() && i != j implies init[i] != init[j] by {
                assert(init[i] == s[i] && init[j] == s[j]);
            }
        }
        lemma_filter_no_dup(init, pred);
        let sub = init.filter(pred);
        if pred(s.last()) {
            assert(!sub.contains(s.last())) by {
                if sub.contains(s.last()) {
                    init.lemma_filter_contains_rev(pred, s.last());
                    let j = choose|j: int| 0 <= j < init.len() && init[j] == s.last();
                    assert(s[j] == s[s.len() - 1]);
                }
            }
            assert(s.filter(pred) == sub.push(s.last()));
            assert forall|i: int, j: int| 0 <= i < sub.push(s.last()).len() && 0 <= j < sub.push(s.last()).len() && i != j
                implies sub.push(s.last())[i] != sub.push(s.last())[j] by {
                if i < sub.len() && j < sub.len() {
                } else if i < sub.len() {
                    assert(sub.contains(sub[i]));
                } else {
                    assert(sub.contains(sub[j]));
                }
            }
        }
    }
}

/// Opening a page puts it first among the recents, exactly once; the list
/// never grows past `MAX_RECENTS`, everything after the first entry was
/// already a recent, and a list without repeats stays without repeats.
pub proof fn lemma_opened_recents(v: WorkspaceView, id: i32)
    ensures
        v.opened(id).len() >= 1,
        v.opened(id)[0] == id,
        v.opened(id).len() <= MAX_RECENTS,
        forall|i: int| 1 <= i < v.opened(id).len() ==> #[trigger] v.opened(id)[i] != id && v.recents.contains(v.opened(id)[i]),
        v.recents.no_duplicates() ==> v.opened(id).no_duplicates(),
{
    let w = without(v.recents, id);
    let l = seq![id] + w;
    let o = v.opened(id);
    assert forall|j: int| 0 <= j < w.len() implies #[trigger] w[j] != id && v.recents.contains(w[j]) by {
        v.recents.lemma_filter_pred(other_than(id), j);
        assert(w.contains(w[j]));
        v.recents.lemma_filter_contains_rev(other_than(id), w[j]);
    }
    assert forall|i: int| 1 <= i < o.len() implies #[trigger] o[i] != id && v.recents.contains(o[i]) by {
        assert(o[i] == l[i]);
        assert(l[i] == w[i - 1]);
    }
    if v.recents.no_duplicates() {
        lemma_filter_no_dup(v.recents, other_than(id));
        assert forall|i: int, j: int| 0 <= i < o.len() && 0 <= j < o.len() && i != j implies o[i] != o[j] by {
            assert(o[i] == l[i] && o[j] == l[j]);
            if i > 0 && j > 0 {
                assert(l[i] == w[i - 1] && l[j] == w[j - 1]);
            } else if i > 0 {
                assert(l[i] == w[i - 1]);
            } else {
                assert(l[j] == w[j - 1]);
            }
        }
    }
}

/// Scanning on from fewer than `MAX_HITS` hits ends with `MAX_HITS` at most.
proof fn lemma_scan_capped(v: WorkspaceView, ids: Seq<i32>, needle: Seq<char>, t: Seq<HitView>, c: Seq<HitView>)
    requires
        t.len() + c.len() < MAX_HITS,
    ensures
        v.search_scan(ids, needle, t, c).0.len() + v.search_scan(ids, needle, t, c).1.len() <= MAX_HITS,
    decreases ids.len(),
{
    if ids.len() > 0 {
        let (t2, c2) = v.search_step(ids[0], needle, t, c);
        assert(t2.len() + c2.len() <= t.len() + c.len() + 1);
        if t2.len() + c2.len() < MAX_HITS {
            lemma_scan_capped(v, ids.drop_first(), needle, t2, c2);
        }
    }
}

/// A search never answers more than `MAX_HITS` hits, whatever the query.
pub proof fn lemma_search_capped(v: WorkspaceView, query: Seq<char>)
    ensures
        v.search_result(query).len() <= MAX_HITS,
{
    lemma_scan_capped(v, v.order(), crate::text::trim(query), Seq::empty(), Seq::empty());
}

/// Deleting a page removes it and exactly the pages of its subtree: every
/// other page stays, and none of the removed pages is left among the
/// recents.
pub proof fn lemma_delete_removes_subtree(v: WorkspaceView, id: i32)
    requires
        v.pages.dom().finite(),
        v.has(id),
        v.parent_of(id) matches Some(q) ==> v.has(q),
    ensures
        ({
            let removed = v.detached(id).subtree(id);
            let w = v.after_delete(id, removed);
            &&& removed.len() >= 1
            &&& removed[0] == id
            &&& forall|k: i32| w.has(k) <==> (v.has(k) && !removed.contains(k))
            &&& forall|k: i32| #[trigger] removed.contains(k) ==> !w.recents.contains(k)
        }),
{
    let d = v.detached(id);
    assert(d.pages.dom() =~= v.pages.dom());
    assert(d.size() >= 1) by {
        vstd::set_lib::lemma_set_empty_equivalency_len(d.pages.dom());
    }
    let removed = d.subtree(id);
    assert(removed == seq![id] + dfs(d.pages, d.pages[id].children, (d.size() - 1) as nat) + dfs(d.pages, seq![id].drop_first(), d.size()));
    let w = v.after_delete(id, removed);
    assert forall|k: i32| #[trigger] removed.contains(k) implies !w.recents.contains(k) by {
        if w.recents.contains(k) {
            let i = choose|i: int| 0 <= i < w.recents.len() && w.recents[i] == k;
            v.recents.lemma_filter_pred(not_in(removed), i);
        }
    }
}

/// A legal move neither adds nor loses a page: the moved page hangs in its
/// new parent's list with its parent link naming that parent, and the new
/// parent is expanded.
pub proof fn lemma_move_keeps_pages(v: WorkspaceView, id: i32, new_parent: Option<i32>, after: Option<i32>)
    requires
        v.can_move(id, new_parent),
        new_parent matches Some(p) ==> v.has(p),
        v.parent_of(id) matches Some(q) ==> v.has(q),
    ensures
        ({
            let w = v.moved(id, new_parent, after);
            &&& forall|k: i32| w.has(k) == v.has(k)
            &&& w.pages[id].parent == new_parent
            &&& w.list(new_parent).contains(id)
            &&& (new_parent matches Some(p) ==> w.pages[p].expanded)
        }),
{
    let d = v.detached(id);
    assert(d.pages.dom() =~= v.pages.dom());
    let v1 = d.with_page(id, PageView { parent: new_parent, ..d.pages[id] });
    let l = v1.list(new_parent);
    let pos = WorkspaceView::insert_pos(l, after);
    match after {
        Some(prev) => lemma_index_of(l, prev),
        None => {},
    }
    assert(0 <= pos <= l.len());
    let a = d.attached(id, new_parent, after);
    assert(a.list(new_parent) == l.insert(pos, id));
    assert(a.list(new_parent)[pos] == id);
    let w = v.moved(id, new_parent, after);
    assert(w.list(new_parent) == a.list(new_parent));
    assert(w.list(new_parent)[pos] == id);
    assert(w.pages.dom() =~= v.pages.dom());
}

/// Duplicating a page numbers exactly one new page per page of its
/// subtree: the next id advances by the subtree's size.
pub proof fn lemma_duplicate_counts(v: WorkspaceView, id: i32)
    requires
        v.pages.dom().finite(),
        v.next_id >= 0,
        v.has(id),
        v.can_duplicate(id),
    ensures
        v.duplicated(id).next_id == v.next_id + v.subtree(id).len(),
{
    let m = v.pages;
    let b = v.next_id;
    assert(v.size() >= 1) by {
        vstd::set_lib::lemma_set_empty_equivalency_len(m.dom());
    }
    let fuel = (v.size() - 1) as nat;
    let kids = m[id].children;
    assert(v.subtree(id) == seq![id] + dfs(m, kids, fuel) + dfs(m, seq![id].drop_first(), v.size()));
    assert(dfs(m, seq![id].drop_first(), v.size()) =~= Seq::<i32>::empty());
    lemma_copy_len(m, kids, b as i32, b + 1, fuel);
    assert(copy_seq(m, kids, b as i32, b + 1, fuel).len() == dfs(m, kids, fuel).len());
}


/// The pages a person sees and the template library make up the whole
/// workspace: `visible_page_count` (which is also the number of non-template
/// rows `page_rows` gives) plus the number of `templates` is `page_count`.
pub proof fn lemma_visible_plus_templates(v: WorkspaceView)
    requires
        v.pages.dom().finite(),
    ensures
        v.visible_count() + v.template_count() == v.pages.dom().len(),
{
    broadcast use vstd::set::group_set_axioms;
    let a = v.pages.dom().filter(|k: i32| !v.pages[k].template);
    let b = v.pages.dom().filter(|k: i32| v.pages[k].template);
    assert(a + b =~= v.pages.dom());
    assert(a.disjoint(b));
    vstd::set_lib::lemma_set_disjoint_lens(a, b);
}

/// Swapping a page with its neighbour and then back the other way restores
/// the workspace, when the page occurs once among its siblings.
pub proof fn lemma_swap_undone(v: WorkspaceView, id: i32, delta: i32)
    requires
        v.swap_target(id, delta) is Some,
        v.parent_of(id) matches Some(q) ==> v.has(q),
        v.list(v.parent_of(id)).no_duplicates(),
        delta != i32::MIN,
    ensures
        ({
            let w = v.swapped(id, v.swap_target(id, delta)->0);
            &&& w.swap_target(id, (-delta) as i32) == Some(index_of(v.list(v.parent_of(id)), id))
            &&& w.swapped(id, index_of(v.list(v.parent_of(id)), id)) == v
        }),
{
    let par = v.parent_of(id);
    let l = v.list(par);
    lemma_index_of(l, id);
    let i = index_of(l, id);
    let t = v.swap_target(id, delta)->0;
    let l2 = l.update(i, l[t]).update(t, l[i]);
    let w = v.swapped(id, t);
    assert(w.parent_of(id) == par);
    assert(w.has(id));
    assert(w.list(par) == l2);
    assert(l2[t] == id);
    lemma_index_of(l2, id);
    assert forall|j: int| 0 <= j < t implies l2[j] != id by {
        if j != i {
            assert(l2[j] == l[j]);
            assert(l[j] != l[i]);
        } else {
            assert(l2[j] == l[t]);
            assert(l[t] != l[i]);
        }
    }
    if index_of(l2, id) < t {
        let x = index_of(l2, id);
        assert(l2[x] == id);
    }
    assert(index_of(l2, id) == t);
    assert(w.swap_target(id, (-delta) as i32) == Some(i));
    assert(l2.update(t, l2[i]).update(i, l2[t]) =~= l);
    let back = w.swapped(id, i);
    match par {
        Some(q) => {
            assert(back.pages =~= v.pages);
        },
        None => {},
    }
}

/// Two maps with the same keys that agree on every page a depth-first walk
/// visits give the same walk.
proof fn lemma_dfs_agree(m: Map<i32, PageView>, m2: Map<i32, PageView>, ids: Seq<i32>, fuel: nat)
    requires
        m.dom() == m2.dom(),
        forall|i: int| 0 <= i < dfs(m, ids, fuel).len() ==> m2[#[trigger] dfs(m, ids, fuel)[i]] == m[dfs(m, ids, fuel)[i]],
    ensures
        dfs(m2, ids, fuel) == dfs(m, ids, fuel),
    decreases fuel, ids.len(),
{
    if fuel > 0 && ids.len() > 0 {
        let d = dfs(m, ids, fuel);
        let k = ids[0];
        assert(m.contains_key(k) == m2.contains_key(k));
        let dr = dfs(m, ids.drop_first(), fuel);
        if m.contains_key(k) {
            let dk = dfs(m, m[k].children, (fuel - 1) as nat);
            assert(d == seq![k] + dk + dr);
            assert(d[0] == k);
            assert(m2[k] == m[k]);
            assert forall|i: int| 0 <= i < dk.len() implies m2[#[trigger] dk[i]] == m[dk[i]] by {
                assert(d[1 + i] == dk[i]);
            }
            assert forall|i: int| 0 <= i < dr.len() implies m2[#[trigger] dr[i]] == m[dr[i]] by {
                assert(d[1 + dk.len() + i] == dr[i]);
            }
            lemma_dfs_agree(m, m2, m[k].children, (fuel - 1) as nat);
        } else {
            assert(d == dr);
        }
        lemma_dfs_agree(m, m2, ids.drop_first(), fuel);
    }
}

/// A delete removes as many pages as `subtree_size` counts: the subtree it
/// removes is the page's subtree, when the page's parent is not inside that
/// subtree (no cycle through it).
pub proof fn lemma_delete_counts_subtree(v: WorkspaceView, id: i32)
    requires
        v.pages.dom().finite(),
        v.has(id),
        v.parent_of(id) matches Some(q) ==> v.has(q) && !v.subtree(id).contains(q),
    ensures
        v.detached(id).subtree(id) == v.subtree(id),
{
    let d = v.detached(id);
    assert(d.pages.dom() =~= v.pages.dom());
    assert(d.size() == v.size());
    let walk = dfs(v.pages, seq![id], v.size());
    assert forall|i: int| 0 <= i < walk.len() implies d.pages[#[trigger] walk[i]] == v.pages[walk[i]] by {
        match v.parent_of(id) {
            Some(q) => {
                assert(walk.contains(walk[i]));
                assert(walk[i] != q);
            },
            None => {},
        }
    }
    lemma_dfs_agree(v.pages, d.pages, seq![id], v.size());
}


/// A duplicate looks like its original and sits right after it: the copy's
/// root carries the original's typeface, layout switches, icon and cover,
/// is not locked, has the original's parent and comes directly after the
/// original among that parent's children; the original itself is left as it
/// was (its lock included).
pub proof fn lemma_duplicate_looks_like_original(v: WorkspaceView, id: i32)
    requires
        v.has(id),
        v.can_duplicate(id),
        v.next_id >= 0,
        forall|k: i32| #[trigger] v.has(k) ==> 0 <= k < v.next_id,
        v.list(v.parent_of(id)).contains(id),
        v.parent_of(id) != Some(id),
    ensures
        ({
            let w = v.duplicated(id);
            let b = v.next_id as i32;
            let src = v.pages[id];
            let l = w.list(src.parent);
            &&& w.has(b)
            &&& w.pages[b].title == "Copy of "@ + src.title
            &&& w.pages[b].font == src.font
            &&& w.pages[b].full_width == src.full_width
            &&& w.pages[b].small_text == src.small_text
            &&& w.pages[b].icon == src.icon
            &&& w.pages[b].cover == src.cover
            &&& !w.pages[b].locked
            &&& w.pages[b].parent == src.parent
            &&& w.has(id)
            &&& w.pages[id] == src
            &&& 0 <= index_of(l, id) && index_of(l, id) + 1 < l.len()
            &&& l[index_of(l, id) + 1] == b
        }),
{
    let b = v.next_id;
    let bi = b as i32;
    let src = v.pages[id];
    let par = src.parent;
    assert(v.parent_of(id) == par);
    let v0 = WorkspaceView { pages: v.pages.insert(bi, v.copy_root(id, bi)), next_id: b + 1, ..v };
    let v1a = v0.with_page(bi, PageView { parent: par, ..v0.pages[bi] });
    let l0 = v1a.list(par);
    assert(l0 == v.list(par)) by {
        match par {
            Some(q) => {
                assert(q != bi);
            },
            None => {},
        }
    }
    lemma_index_of(l0, id);
    let x = index_of(l0, id);
    if x < 0 {
        let j = choose|j: int| 0 <= j < l0.len() && l0[j] == id;
    }
    let pos = WorkspaceView::insert_pos(l0, Some(id));
    assert(pos == x + 1);
    let l = l0.insert(pos, bi);
    let w = v.duplicated(id);
    assert(w.list(par) == l) by {
        match par {
            Some(q) => {
                assert(q != bi);
                assert(q < b);
            },
            None => {},
        }
    }
    assert(l[x] == id);
    assert(l[pos] == bi);
    assert forall|j: int| 0 <= j < x implies l[j] != id by {
        assert(l[j] == l0[j]);
    }
    lemma_index_of(l, id);
    if index_of(l, id) > x {
        assert(l[x] != id);
    }
    if index_of(l, id) < x {
        assert(l[index_of(l, id)] == id);
    }
    assert(index_of(l, id) == x);
}


/// Each tree row describes its page: the row's id is a page, its label is
/// the page's title, and its expanded and has-children marks are the page's.
pub proof fn lemma_rows_describe_pages(m: Map<i32, PageView>, ids: Seq<i32>, depth: int, fuel: nat)
    ensures
        forall|i: int| 0 <= i < rows(m, ids, depth, fuel).len() ==> {
            let r = #[trigger] rows(m, ids, depth, fuel)[i];
            &&& m.contains_key(r.id)
            &&& r.label == m[r.id].title
            &&& r.expanded == m[r.id].expanded
            &&& r.has_children == (m[r.id].children.len() > 0)
        },
    decreases fuel, ids.len(),
{
    if fuel > 0 && ids.len() > 0 {
        lemma_rows_describe_pages(m, ids.drop_first(), depth, fuel);
        let rs = rows(m, ids, depth, fuel);
        let tail = rows(m, ids.drop_first(), depth, fuel);
        if m.contains_key(ids[0]) {
            let p = m[ids[0]];
            lemma_rows_describe_pages(m, p.children, depth + 1, (fuel - 1) as nat);
            let head = seq![RowView { id: ids[0], label: p.title, depth, expanded: p.expanded, has_children: p.children.len() > 0 }];
            let mid = if p.expanded { rows(m, p.children, depth + 1, (fuel - 1) as nat) } else { Seq::empty() };
            assert(rs == head + mid + tail);
            assert forall|i: int| 0 <= i < rs.len() implies {
                let r = #[trigger] rs[i];
                &&& m.contains_key(r.id)
                &&& r.label == m[r.id].title
                &&& r.expanded == m[r.id].expanded
                &&& r.has_children == (m[r.id].children.len() > 0)
            } by {
                if i == 0 {
                } else if i < 1 + mid.len() {
                    assert(rs[i] == mid[i - 1]);
                } else {
                    assert(rs[i] == tail[i - 1 - mid.len()]);
                }
            }
        } else {
            assert(rs == tail);
        }
    }
}

/// With every page expanded, the tree rows list the pages in exactly the
/// depth-first order.
pub proof fn lemma_rows_all_expanded(m: Map<i32, PageView>, ids: Seq<i32>, depth: int, fuel: nat)
    requires
        forall|k: i32| #[trigger] m.contains_key(k) ==> m[k].expanded,
    ensures
        rows(m, ids, depth, fuel).map_values(|r: RowView| r.id) == dfs(m, ids, fuel),
    decreases fuel, ids.len(),
{
    if fuel > 0 && ids.len() > 0 {
        lemma_rows_all_expanded(m, ids.drop_first(), depth, fuel);
        if m.contains_key(ids[0]) {
            let p = m[ids[0]];
            lemma_rows_all_expanded(m, p.children, depth + 1, (fuel - 1) as nat);
            let head = seq![RowView { id: ids[0], label: p.title, depth, expanded: p.expanded, has_children: p.children.len() > 0 }];
            let mid = rows(m, p.children, depth + 1, (fuel - 1) as nat);
            let tail = rows(m, ids.drop_first(), depth, fuel);
            assert(rows(m, ids, depth, fuel) == head + mid + tail);
            assert((head + mid + tail).map_values(|r: RowView| r.id) =~= seq![ids[0]] + mid.map_values(|r: RowView| r.id)
                + tail.map_values(|r: RowView| r.id));
        }
    }
}


// ─── the depth-first order lists each page once ─────────────────────────────

/// The page `n` parent links above `x` (`x` itself for none); nothing once a
/// link leaves the pages or runs out.
pub open spec fn up(m: Map<i32, PageView>, x: i32, n: nat) -> Option<i32>
    decreases n,
{
    if n == 0 {
        Some(x)
    } else if m.contains_key(x) {
        match m[x].parent {
            Some(p) => up(m, p, (n - 1) as nat),
            None => None,
        }
    } else {
        None
    }
}

/// No chain of parent links leads from `x` back to `x`.
pub open spec fn off_cycle(m: Map<i32, PageView>, x: i32) -> bool {
    forall|d: nat| d >= 1 ==> #[trigger] up(m, x, d) != Some(x)
}

/// The parent links and the children lists agree: the roots and every
/// children list name each page once, a root has no parent, and a page a
/// children list names has the lister as its parent.
pub open spec fn links_agree(v: WorkspaceView) -> bool {
    &&& v.roots.no_duplicates()
    &&& forall|i: int| 0 <= i < v.roots.len() && v.has(#[trigger] v.roots[i]) ==> v.pages[v.roots[i]].parent is None
    &&& forall|k: i32| #[trigger] v.has(k) ==> v.pages[k].children.no_duplicates()
    &&& forall|k: i32, i: int|
        v.has(k) && 0 <= i < v.pages[k].children.len() && v.has(#[trigger] v.pages[k].children[i]) ==> v.pages[v.pages[k].children[i]].parent
            == Some(k)
}

proof fn lemma_up_compose(m: Map<i32, PageView>, x: i32, n: nat, k: nat)
    ensures
        up(m, x, n + k) == (match up(m, x, n) {
            Some(y) => up(m, y, k),
            None => None,
        }),
    decreases n,
{
    if n > 0 && m.contains_key(x) {
        if let Some(p) = m[x].parent {
            lemma_up_compose(m, p, (n - 1) as nat, k);
            assert((n + k - 1) as nat == (n - 1) as nat + k);
        }
    }
}

/// Every page a walk over `ids` visits lies below (or is) one of `ids`.
proof fn lemma_walk_below(v: WorkspaceView, ids: Seq<i32>, fuel: nat, x: i32)
    requires
        links_agree(v),
        dfs(v.pages, ids, fuel).contains(x),
    ensures
        exists|i: int, n: nat| 0 <= i < ids.len() && v.has(#[trigger] ids[i]) && #[trigger] up(v.pages, x, n) == Some(ids[i]),
    decreases fuel, ids.len(),
{
    let m = v.pages;
    let a = ids[0];
    let d = dfs(m, ids, fuel);
    let rest = ids.drop_first();
    let dr = dfs(m, rest, fuel);
    if m.contains_key(a) {
        let dk = dfs(m, m[a].children, (fuel - 1) as nat);
        assert(d == seq![a] + dk + dr);
        let t = choose|t: int| 0 <= t < d.len() && d[t] == x;
        if t == 0 {
            assert(up(m, x, 0) == Some(ids[0]));
        } else if t < 1 + dk.len() {
            assert(dk[t - 1] == x);
            assert(dk.contains(x));
            lemma_walk_below(v, m[a].children, (fuel - 1) as nat, x);
            let (i, n) = choose|i: int, n: nat| 0 <= i < m[a].children.len() && v.has(#[trigger] m[a].children[i]) && #[trigger] up(m, x, n) == Some(m[a].children[i]);
            let c = m[a].children[i];
            assert(v.has(a));
            assert(m[c].parent == Some(a));
            assert(up(m, a, 0) == Some(a));
            assert(up(m, c, 1) == up(m, a, 0));
            lemma_up_compose(m, x, n, 1);
            assert(up(m, x, n + 1) == Some(ids[0]));
        } else {
            assert(dr[t - 1 - dk.len()] == x);
            assert(dr.contains(x));
            lemma_walk_below(v, rest, fuel, x);
            let (i, n) = choose|i: int, n: nat| 0 <= i < rest.len() && v.has(#[trigger] rest[i]) && #[trigger] up(m, x, n) == Some(rest[i]);
            assert(rest[i] == ids[i + 1]);
        }
    } else {
        assert(d == dr);
        lemma_walk_below(v, rest, fuel, x);
        let (i, n) = choose|i: int, n: nat| 0 <= i < rest.len() && v.has(#[trigger] rest[i]) && #[trigger] up(m, x, n) == Some(rest[i]);
        assert(rest[i] == ids[i + 1]);
    }
}

/// Two different pages with the same parent are not above one another.
proof fn lemma_siblings_apart(m: Map<i32, PageView>, a: i32, b: i32, d: nat, p: Option<i32>)
    requires
        m.contains_key(a),
        m.contains_key(b),
        m[a].parent == p,
        m[b].parent == p,
        d >= 1,
        p matches Some(q) ==> off_cycle(m, q),
    ensures
        up(m, a, d) != Some(b),
{
    if let Some(q) = p {
        assert(up(m, a, d) == up(m, q, (d - 1) as nat));
        if up(m, a, d) == Some(b) {
            lemma_up_compose(m, q, (d - 1) as nat, 1);
            assert(up(m, q, 0) == Some(q));
            assert(up(m, b, 1) == up(m, q, 0));
            assert(up(m, b, 1) == Some(q));
            assert(up(m, q, d) == Some(q));
        }
    }
}

/// A walk over a list of siblings (no page named twice, all with parent
/// `p`, and `p` on no cycle) visits no page twice.
proof fn lemma_walk_once(v: WorkspaceView, ids: Seq<i32>, fuel: nat, p: Option<i32>)
    requires
        links_agree(v),
        ids.no_duplicates(),
        forall|i: int| 0 <= i < ids.len() && v.has(#[trigger] ids[i]) ==> v.pages[ids[i]].parent == p,
        p matches Some(q) ==> off_cycle(v.pages, q),
    ensures
        dfs(v.pages, ids, fuel).no_duplicates(),
    decreases fuel, ids.len(),
{
    let m = v.pages;
    if fuel == 0 || ids.len() == 0 {
        return;
    }
    let a = ids[0];
    let rest = ids.drop_first();
    assert(rest.no_duplicates()) by {
        assert forall|i: int, j: int| 0 <= i < rest.len() && 0 <= j < rest.len() && i != j implies rest[i] != rest[j] by {
            assert(rest[i] == ids[i + 1] && rest[j] == ids[j + 1]);
        }
    }
    assert forall|i: int| 0 <= i < rest.len() && v.has(#[trigger] rest[i]) implies m[rest[i]].parent == p by {
        assert(rest[i] == ids[i + 1]);
    }
    lemma_walk_once(v, rest, fuel, p);
    let d2 = dfs(m, rest, fuel);
    if !m.contains_key(a) {
        assert(dfs(m, ids, fuel) == d2);
        return;
    }
    // `a` is on no cycle
    assert(off_cycle(m, a)) by {
        assert forall|d: nat| d >= 1 implies #[trigger] up(m, a, d) != Some(a) by {
            if let Some(q) = p {
                assert(up(m, a, d) == up(m, q, (d - 1) as nat));
                if up(m, a, d) == Some(a) {
                    lemma_up_compose(m, q, (d - 1) as nat, 1);
                    assert(up(m, q, 0) == Some(q));
                    assert(up(m, a, 1) == up(m, q, 0));
                    assert(up(m, a, 1) == Some(q));
                    assert(up(m, q, d) == Some(q));
                }
            }
        }
    }
    let kids = m[a].children;
    assert(v.has(a));
    assert(kids.no_duplicates());
    assert forall|i: int| 0 <= i < kids.len() && v.has(#[trigger] kids[i]) implies m[kids[i]].parent == Some(a) by {}
    lemma_walk_once(v, kids, (fuel - 1) as nat, Some(a));
    let d1 = dfs(m, kids, (fuel - 1) as nat);
    let all = dfs(m, ids, fuel);
    assert(all == seq![a] + d1 + d2);
    // what lies below a child of `a` lies below `a`
    assert forall|x: i32| d1.contains(x) implies exists|n: nat| n >= 1 && #[trigger] up(m, x, n) == Some(a) by {
        lemma_walk_below(v, kids, (fuel - 1) as nat, x);
        let (i, n) = choose|i: int, n: nat| 0 <= i < kids.len() && v.has(#[trigger] kids[i]) && #[trigger] up(m, x, n) == Some(kids[i]);
        let c = kids[i];
        assert(m[c].parent == Some(a));
        assert(up(m, a, 0) == Some(a));
        assert(up(m, c, 1) == up(m, a, 0));
        lemma_up_compose(m, x, n, 1);
        assert(up(m, x, n + 1) == Some(a));
    }
    assert(!d1.contains(a)) by {
        if d1.contains(a) {
            let n = choose|n: nat| n >= 1 && #[trigger] up(m, a, n) == Some(a);
        }
    }
    // what lies below a later sibling lies below a page other than `a`
    assert forall|x: i32| d2.contains(x) implies exists|b: i32, n: nat| b != a && #[trigger] m.contains_key(b) && m[b].parent == p && #[trigger] up(m, x, n) == Some(b) by {
        lemma_walk_below(v, rest, fuel, x);
        let (i, n) = choose|i: int, n: nat| 0 <= i < rest.len() && v.has(#[trigger] rest[i]) && #[trigger] up(m, x, n) == Some(rest[i]);
        assert(rest[i] == ids[i + 1]);
        assert(ids[i + 1] != ids[0]);
        assert(up(m, x, n) == Some(rest[i]));
    }
    assert(!d2.contains(a)) by {
        if d2.contains(a) {
            let (b, n) = choose|b: i32, n: nat| b != a && #[trigger] m.contains_key(b) && m[b].parent == p && #[trigger] up(m, a, n) == Some(b);
            if n >= 1 {
                lemma_siblings_apart(m, a, b, n, p);
            }
        }
    }
    assert forall|x: i32| d1.contains(x) implies !d2.contains(x) by {
        if d2.contains(x) {
            let n1 = choose|n: nat| n >= 1 && #[trigger] up(m, x, n) == Some(a);
            let (b, n2) = choose|b: i32, n: nat| b != a && #[trigger] m.contains_key(b) && m[b].parent == p && #[trigger] up(m, x, n) == Some(b);
            if n1 < n2 {
                lemma_up_compose(m, x, n1, (n2 - n1) as nat);
                assert(up(m, a, (n2 - n1) as nat) == Some(b));
                lemma_siblings_apart(m, a, b, (n2 - n1) as nat, p);
            } else if n1 > n2 {
                lemma_up_compose(m, x, n2, (n1 - n2) as nat);
                assert(up(m, b, (n1 - n2) as nat) == Some(a));
                lemma_siblings_apart(m, b, a, (n1 - n2) as nat, p);
            }
        }
    }
    assert forall|i: int, j: int| 0 <= i < all.len() && 0 <= j < all.len() && i != j implies all[i] != all[j] by {
        let k1 = 1 + d1.len();
        if i == 0 || j == 0 {
            let o = if i == 0 { j } else { i };
            if o < k1 {
                assert(all[o] == d1[o - 1]);
                assert(d1.contains(all[o]));
            } else {
                assert(all[o] == d2[o - k1]);
                assert(d2.contains(all[o]));
            }
        } else if i < k1 && j < k1 {
            assert(all[i] == d1[i - 1] && all[j] == d1[j - 1]);
        } else if i >= k1 && j >= k1 {
            assert(all[i] == d2[i - k1] && all[j] == d2[j - k1]);
        } else if i < k1 {
            assert(all[i] == d1[i - 1] && all[j] == d2[j - k1]);
            assert(d1.contains(all[i]));
            assert(d2.contains(all[j]));
        } else {
            assert(all[j] == d1[j - 1] && all[i] == d2[i - k1]);
            assert(d1.contains(all[j]));
            assert(d2.contains(all[i]));
        }
    }
}

/// The depth-first order (what `dfs_order` returns) lists pages only, and,
/// when the parent links and the children lists agree, no page twice.
pub proof fn lemma_order_lists_each_page_once(v: WorkspaceView)
    requires
        links_agree(v),
    ensures
        v.order().no_duplicates(),
        forall|i: int| 0 <= i < v.order().len() ==> v.has(#[trigger] v.order()[i]),
{
    lemma_walk_once(v, v.roots, v.size(), None);
    crate::workspace::lemma_dfs_keys(v.pages, v.roots, v.size());
}


/// A reserved id names no page: it is above every page id, the pages stay
/// as they are, and the next id handed out (by another reservation, a
/// create, a template or a duplicate) is the one after it.
pub proof fn lemma_reserved_id_is_fresh(w: &Workspace)
    requires
        w.wf(),
        w@.next_id < i32::MAX,
    ensures
        forall|k: i32| #[trigger] w@.has(k) ==> k < w@.next_id,
        !w@.has(w@.next_id as i32),
        (WorkspaceView { next_id: w@.next_id + 1, ..w@ }).pages == w@.pages,
        (WorkspaceView { next_id: w@.next_id + 1, ..w@ }).next_id == w@.next_id + 1,
{
    w.lemma_wf_view();
}

/// A duplicate of any page of a workspace the API can reach looks like its
/// original: the copy's root carries the original's typeface, layout
/// switches, icon and cover, is unlocked, has the original's parent and is
/// titled "Copy of …"; every field of the original but its children list
/// (which gains the copy when the original is its own parent) is unchanged.
pub proof fn lemma_duplicate_keeps_look(w: &Workspace, id: i32)
    requires
        w.wf(),
        w@.has(id),
        w@.can_duplicate(id),
    ensures
        ({
            let v = w@;
            let d = v.duplicated(id);
            let b = v.next_id as i32;
            let src = v.pages[id];
            &&& d.has(b)
            &&& d.pages[b].title == "Copy of "@ + src.title
            &&& d.pages[b].font == src.font
            &&& d.pages[b].full_width == src.full_width
            &&& d.pages[b].small_text == src.small_text
            &&& d.pages[b].icon == src.icon
            &&& d.pages[b].cover == src.cover
            &&& !d.pages[b].locked
            &&& d.pages[b].parent == src.parent
            &&& d.has(id)
            &&& (PageView { children: src.children, ..d.pages[id] }) == src
        }),
{
    w.lemma_wf_view();
    let v = w@;
    let b = v.next_id;
    let bi = b as i32;
    assert(!v.has(bi));
    assert(id < b);
}


// ─── what keeps the links agreeing ──────────────────────────────────────────

/// Whether the links agree depends on the pages and the roots alone, so the
/// recents (`mark_opened`, `set_recents`) and the next id
/// (`reserve_page_id`) never disturb it.
pub proof fn lemma_links_ignore_recents_and_ids(v: WorkspaceView, w: WorkspaceView)
    requires
        links_agree(v),
        v.pages == w.pages,
        v.roots == w.roots,
    ensures
        links_agree(w),
{
    assert forall|k: i32| #[trigger] w.has(k) implies w.pages[k].children.no_duplicates() by {
        assert(v.has(k));
    }
    assert forall|k: i32, i: int|
        w.has(k) && 0 <= i < w.pages[k].children.len() && w.has(#[trigger] w.pages[k].children[i]) implies w.pages[w.pages[k].children[i]].parent
            == Some(k) by {
        assert(v.has(k));
        assert(v.has(v.pages[k].children[i]));
    }
    assert forall|i: int| 0 <= i < w.roots.len() && w.has(#[trigger] w.roots[i]) implies w.pages[w.roots[i]].parent is None by {
        assert(v.has(v.roots[i]));
    }
}

/// Changing what a page shows (its title, star, expansion, look, icon,
/// cover, lock or search text: every setter of one page) keeps the links
/// agreeing, since its parent link and children list stay.
pub proof fn lemma_links_kept_by_page_change(v: WorkspaceView, id: i32, p: PageView)
    requires
        links_agree(v),
        v.has(id),
        p.parent == v.pages[id].parent,
        p.children == v.pages[id].children,
    ensures
        links_agree(v.with_page(id, p)),
{
    let w = v.with_page(id, p);
    assert forall|k: i32| #[trigger] w.has(k) implies w.pages[k].children.no_duplicates() by {
        assert(v.has(k));
    }
    assert forall|k: i32, i: int|
        w.has(k) && 0 <= i < w.pages[k].children.len() && w.has(#[trigger] w.pages[k].children[i]) implies w.pages[w.pages[k].children[i]].parent
            == Some(k) by {
        assert(v.has(k));
        assert(w.pages[k].children == v.pages[k].children);
        assert(v.has(v.pages[k].children[i]));
    }
    assert forall|i: int| 0 <= i < w.roots.len() && w.has(#[trigger] w.roots[i]) implies w.pages[w.roots[i]].parent is None by {
        assert(v.has(v.roots[i]));
    }
}

/// Expanding the ancestors of a page keeps the links agreeing.
pub proof fn lemma_links_kept_by_expanding(v: WorkspaceView, ks: Seq<i32>)
    requires
        links_agree(v),
    ensures
        links_agree(WorkspaceView { pages: expand_all(v.pages, ks), ..v }),
{
    let w = WorkspaceView { pages: expand_all(v.pages, ks), ..v };
    assert forall|k: i32| #[trigger] w.has(k) implies w.pages[k].children.no_duplicates() by {
        assert(v.has(k));
    }
    assert forall|k: i32, i: int|
        w.has(k) && 0 <= i < w.pages[k].children.len() && w.has(#[trigger] w.pages[k].children[i]) implies w.pages[w.pages[k].children[i]].parent
            == Some(k) by {
        assert(v.has(k));
        assert(v.has(v.pages[k].children[i]));
    }
    assert forall|i: int| 0 <= i < w.roots.len() && w.has(#[trigger] w.roots[i]) implies w.pages[w.roots[i]].parent is None by {
        assert(v.has(v.roots[i]));
    }
}

/// Swapping a page with a neighbour keeps the links agreeing: the sibling
/// list is only reordered.
pub proof fn lemma_links_kept_by_swap(v: WorkspaceView, id: i32, delta: i32)
    requires
        links_agree(v),
        v.swap_target(id, delta) is Some,
        v.parent_of(id) matches Some(q) ==> v.has(q),
    ensures
        links_agree(v.swapped(id, v.swap_target(id, delta)->0)),
{
    let par = v.parent_of(id);
    let l = v.list(par);
    lemma_index_of(l, id);
    let i = index_of(l, id);
    let t = v.swap_target(id, delta)->0;
    let l2 = l.update(i, l[t]).update(t, l[i]);
    let w = v.swapped(id, t);
    // the new list holds the same ids, once each
    assert forall|j: int| 0 <= j < l2.len() implies exists|k: int| 0 <= k < l.len() && l[k] == #[trigger] l2[j] by {
        if j == t {
            assert(l[i] == l2[j]);
        } else if j == i {
            assert(l[t] == l2[j]);
        } else {
            assert(l[j] == l2[j]);
        }
    }
    match par {
        Some(q) => {
            assert(v.pages[q].children.no_duplicates());
        },
        None => {},
    }
    assert(l.no_duplicates());
    assert(l2.no_duplicates()) by {
        assert forall|a: int, b: int| 0 <= a < l2.len() && 0 <= b < l2.len() && a != b implies l2[a] != l2[b] by {
            let ia = if a == t { i } else if a == i { t } else { a };
            let ib = if b == t { i } else if b == i { t } else { b };
            assert(l2[a] == l[ia]);
            assert(l2[b] == l[ib]);
        }
    }
    assert forall|k: i32| #[trigger] w.has(k) implies w.pages[k].children.no_duplicates() by {
        assert(v.has(k));
    }
    assert forall|k: i32, j: int|
        w.has(k) && 0 <= j < w.pages[k].children.len() && w.has(#[trigger] w.pages[k].children[j]) implies w.pages[w.pages[k].children[j]].parent
            == Some(k) by {
        assert(v.has(k));
        let c = w.pages[k].children[j];
        assert(v.has(c));
        if par == Some(k) {
            let x = choose|x: int| 0 <= x < l.len() && l[x] == l2[j];
            assert(v.pages[k].children[x] == c);
        } else {
            assert(w.pages[k].children == v.pages[k].children);
        }
        assert(w.pages[c].parent == v.pages[c].parent);
    }
    assert forall|j: int| 0 <= j < w.roots.len() && w.has(#[trigger] w.roots[j]) implies w.pages[w.roots[j]].parent is None by {
        assert(v.has(w.roots[j]));
        if par is None {
            let x = choose|x: int| 0 <= x < l.len() && l[x] == l2[j];
            assert(v.roots[x] == w.roots[j]);
        }
    }
}


/// Every id of `without(l, x)` is an id of `l` other than `x`.
proof fn lemma_without_members(l: Seq<i32>, x: i32)
    ensures
        forall|j: int| 0 <= j < without(l, x).len() ==> #[trigger] without(l, x)[j] != x && l.contains(without(l, x)[j]),
{
    assert forall|j: int| 0 <= j < without(l, x).len() implies #[trigger] without(l, x)[j] != x && l.contains(without(l, x)[j]) by {
        l.lemma_filter_pred(other_than(x), j);
        assert(without(l, x).contains(without(l, x)[j]));
        l.lemma_filter_contains_rev(other_than(x), without(l, x)[j]);
    }
}

/// A legal move keeps the links agreeing: the page leaves its old list, joins
/// its new parent's list once, and its parent link names the new parent.
pub proof fn lemma_links_kept_by_move(v: WorkspaceView, id: i32, new_parent: Option<i32>, after: Option<i32>)
    requires
        links_agree(v),
        v.can_move(id, new_parent),
        new_parent matches Some(p) ==> v.has(p),
        v.parent_of(id) matches Some(q) ==> v.has(q),
    ensures
        links_agree(v.moved(id, new_parent, after)),
{
    let par = v.parent_of(id);
    let old_l = v.list(par);
    let d = v.detached(id);
    let dl = without(old_l, id);
    lemma_without_members(old_l, id);
    assert(old_l.no_duplicates()) by {
        match par {
            Some(q) => {
                assert(v.has(q));
            },
            None => {},
        }
    }
    lemma_filter_no_dup(old_l, other_than(id));
    assert(d.pages.dom() =~= v.pages.dom());
    let v1 = d.with_page(id, PageView { parent: new_parent, ..d.pages[id] });
    let l = v1.list(new_parent);
    let pos = WorkspaceView::insert_pos(l, after);
    match after {
        Some(prev) => lemma_index_of(l, prev),
        None => {},
    }
    let nl = l.insert(pos, id);
    let a = d.attached(id, new_parent, after);
    let w = v.moved(id, new_parent, after);
    assert(w.pages.dom() =~= v.pages.dom());
    // the new parent's list, before the page joins it
    assert(l == (if new_parent == par { dl } else { v.list(new_parent) })) by {
        match new_parent {
            Some(q2) => {
                assert(q2 != id);
            },
            None => {},
        }
    }
    assert(!l.contains(id)) by {
        if l.contains(id) {
            let j = choose|j: int| 0 <= j < l.len() && l[j] == id;
            if new_parent != par {
                match new_parent {
                    Some(q2) => {
                        assert(v.has(q2));
                        assert(v.pages[q2].children[j] == id);
                        assert(v.pages[id].parent == Some(q2));
                    },
                    None => {
                        assert(v.roots[j] == id);
                    },
                }
            }
        }
    }
    assert(l.no_duplicates()) by {
        if new_parent != par {
            match new_parent {
                Some(q2) => {
                    assert(v.has(q2));
                },
                None => {},
            }
        }
    }
    assert(nl.no_duplicates()) by {
        assert forall|x: int, y: int| 0 <= x < nl.len() && 0 <= y < nl.len() && x != y implies nl[x] != nl[y] by {
            if x != pos && y != pos {
                let ix = if x < pos { x } else { x - 1 };
                let iy = if y < pos { y } else { y - 1 };
                assert(nl[x] == l[ix] && nl[y] == l[iy]);
            } else if x == pos {
                let iy = if y < pos { y } else { y - 1 };
                assert(nl[y] == l[iy]);
                assert(l.contains(l[iy]));
            } else {
                let ix = if x < pos { x } else { x - 1 };
                assert(nl[x] == l[ix]);
                assert(l.contains(l[ix]));
            }
        }
    }
    assert(w.list(new_parent) == nl) by {
        assert(a.list(new_parent) == nl);
    }
    // each list of the moved workspace, as an id
    assert forall|k: i32| #[trigger] w.has(k) implies w.pages[k].children.no_duplicates() by {
        assert(v.has(k));
        if new_parent == Some(k) {
            assert(w.pages[k].children == nl);
        } else if par == Some(k) {
            assert(w.pages[k].children == dl);
        } else {
            assert(w.pages[k].children == v.pages[k].children);
        }
    }
    assert forall|k: i32, j: int|
        w.has(k) && 0 <= j < w.pages[k].children.len() && w.has(#[trigger] w.pages[k].children[j]) implies w.pages[w.pages[k].children[j]].parent
            == Some(k) by {
        assert(v.has(k));
        let c = w.pages[k].children[j];
        assert(v.has(c));
        if c == id {
            if new_parent != Some(k) {
                if par == Some(k) {
                    assert(w.pages[k].children == dl);
                    assert(dl[j] != id);
                } else {
                    assert(w.pages[k].children == v.pages[k].children);
                    assert(v.pages[id].parent == Some(k));
                }
            }
        } else {
            assert(w.pages[c].parent == v.pages[c].parent);
            if new_parent == Some(k) {
                assert(w.pages[k].children == nl);
                let ic = if j < pos { j } else { j - 1 };
                assert(j != pos);
                assert(nl[j] == l[ic]);
                if new_parent == par {
                    assert(old_l.contains(c));
                    let x = choose|x: int| 0 <= x < old_l.len() && old_l[x] == c;
                    assert(v.pages[k].children[x] == c);
                } else {
                    assert(v.pages[k].children[ic] == c);
                }
            } else if par == Some(k) {
                assert(w.pages[k].children == dl);
                assert(old_l.contains(c));
                let x = choose|x: int| 0 <= x < old_l.len() && old_l[x] == c;
                assert(v.pages[k].children[x] == c);
            } else {
                assert(w.pages[k].children == v.pages[k].children);
            }
        }
    }
    assert forall|j: int| 0 <= j < w.roots.len() && w.has(#[trigger] w.roots[j]) implies w.pages[w.roots[j]].parent is None by {
        let c = w.roots[j];
        assert(v.has(c));
        if c == id {
            if new_parent != None::<i32> {
                if par is None {
                    assert(w.roots == dl);
                    assert(dl[j] != id);
                } else {
                    assert(w.roots == v.roots);
                    assert(v.pages[id].parent is None);
                }
            }
        } else {
            assert(w.pages[c].parent == v.pages[c].parent);
            if new_parent is None {
                assert(w.roots == nl);
                assert(j != pos);
                let ic = if j < pos { j } else { j - 1 };
                assert(nl[j] == l[ic]);
                if par is None {
                    assert(old_l.contains(c));
                    let x = choose|x: int| 0 <= x < old_l.len() && old_l[x] == c;
                    assert(v.roots[x] == c);
                } else {
                    assert(v.roots[ic] == c);
                }
            } else if par is None {
                assert(w.roots == dl);
                assert(old_l.contains(c));
                let x = choose|x: int| 0 <= x < old_l.len() && old_l[x] == c;
                assert(v.roots[x] == c);
            } else {
                assert(w.roots == v.roots);
            }
        }
    }
    assert(w.roots.no_duplicates()) by {
        if new_parent is None {
            assert(w.roots == nl);
        } else if par is None {
            assert(w.roots == dl);
        } else {
            assert(w.roots == v.roots);
        }
    }
}


/// A delete keeps the links agreeing among the pages that remain: the
/// deleted page leaves its parent's list, and no remaining page's link
/// changes.
pub proof fn lemma_links_kept_by_delete(v: WorkspaceView, id: i32)
    requires
        links_agree(v),
        v.has(id),
        v.parent_of(id) matches Some(q) ==> v.has(q),
    ensures
        links_agree(v.after_delete(id, v.detached(id).subtree(id))),
{
    let par = v.parent_of(id);
    let old_l = v.list(par);
    let d = v.detached(id);
    let dl = without(old_l, id);
    lemma_without_members(old_l, id);
    assert(old_l.no_duplicates()) by {
        match par {
            Some(q) => {
                assert(v.has(q));
            },
            None => {},
        }
    }
    lemma_filter_no_dup(old_l, other_than(id));
    let removed = d.subtree(id);
    let w = v.after_delete(id, removed);
    assert forall|k: i32| #[trigger] w.has(k) implies w.pages[k].children.no_duplicates() by {
        assert(v.has(k));
        if par == Some(k) {
            assert(w.pages[k].children == dl);
        } else {
            assert(w.pages[k].children == v.pages[k].children);
        }
    }
    assert forall|k: i32, j: int|
        w.has(k) && 0 <= j < w.pages[k].children.len() && w.has(#[trigger] w.pages[k].children[j]) implies w.pages[w.pages[k].children[j]].parent
            == Some(k) by {
        assert(v.has(k));
        let c = w.pages[k].children[j];
        assert(v.has(c));
        assert(w.pages[c] == d.pages[c]);
        if par == Some(k) {
            assert(w.pages[k].children == dl);
            assert(old_l.contains(c));
            let x = choose|x: int| 0 <= x < old_l.len() && old_l[x] == c;
            assert(v.pages[k].children[x] == c);
            assert(c != k || d.pages[c].parent == v.pages[c].parent);
        } else {
            assert(w.pages[k].children == v.pages[k].children);
        }
        assert(d.pages[c].parent == v.pages[c].parent);
    }
    assert forall|j: int| 0 <= j < w.roots.len() && w.has(#[trigger] w.roots[j]) implies w.pages[w.roots[j]].parent is None by {
        let c = w.roots[j];
        assert(v.has(c));
        assert(d.pages[c].parent == v.pages[c].parent);
        if par is None {
            assert(w.roots == dl);
            assert(old_l.contains(c));
            let x = choose|x: int| 0 <= x < old_l.len() && old_l[x] == c;
            assert(v.roots[x] == c);
        } else {
            assert(w.roots == v.roots);
        }
    }
    assert(w.roots.no_duplicates()) by {
        if par is None {
            assert(w.roots == dl);
        } else {
            assert(w.roots == v.roots);
        }
    }
}


/// The roots and every children list name pages only.
pub open spec fn names_pages(v: WorkspaceView) -> bool {
    &&& forall|i: int| 0 <= i < v.roots.len() ==> v.has(#[trigger] v.roots[i])
    &&& forall|k: i32, i: int| v.has(k) && 0 <= i < v.pages[k].children.len() ==> v.has(#[trigger] v.pages[k].children[i])
}

/// Creating a page under an existing parent (or as a root) keeps the links
/// agreeing and every list naming pages: the new page is named once, by its
/// parent's list, and its parent link names that parent.
pub proof fn lemma_tree_kept_by_create(v: WorkspaceView, parent: Option<i32>, title: Seq<char>)
    requires
        links_agree(v),
        names_pages(v),
        forall|k: i32| #[trigger] v.has(k) ==> k < v.next_id,
        v.next_id < i32::MAX,
        parent matches Some(p) ==> v.has(p),
    ensures
        ({
            let w = v.with_new_page(title).expanded_at(parent).attached(v.next_id as i32, parent, None);
            links_agree(w) && names_pages(w)
        }),
{
    let n = v.next_id as i32;
    let v0 = v.with_new_page(title).expanded_at(parent);
    let w = v0.attached(n, parent, None);
    assert(!v.has(n));
    let l = v.list(parent);
    assert(!l.contains(n)) by {
        if l.contains(n) {
            let j = choose|j: int| 0 <= j < l.len() && l[j] == n;
            match parent {
                Some(p) => {
                    assert(v.has(v.pages[p].children[j]));
                },
                None => {
                    assert(v.has(v.roots[j]));
                },
            }
        }
    }
    assert(l.no_duplicates()) by {
        match parent {
            Some(p) => {
                assert(v.has(p));
            },
            None => {},
        }
    }
    let v1 = v0.with_page(n, PageView { parent, ..v0.pages[n] });
    assert(v1.list(parent) == l) by {
        match parent {
            Some(p) => {
                assert(p != n);
            },
            None => {},
        }
    }
    let nl = l.push(n);
    assert(WorkspaceView::insert_pos(l, None) == l.len());
    assert(l.insert(l.len() as int, n) =~= nl);
    assert(w.list(parent) == nl);
    assert(nl.no_duplicates()) by {
        assert forall|x: int, y: int| 0 <= x < nl.len() && 0 <= y < nl.len() && x != y implies nl[x] != nl[y] by {
            if x < l.len() && y < l.len() {
            } else if x < l.len() {
                assert(l.contains(nl[x]));
            } else {
                assert(l.contains(nl[y]));
            }
        }
    }
    assert forall|k: i32| #[trigger] w.has(k) implies w.pages[k].children.no_duplicates() by {
        if k == n {
            assert(w.pages[n].children == Seq::<i32>::empty());
        } else {
            assert(v.has(k));
            if parent == Some(k) {
                assert(w.pages[k].children == nl);
            } else {
                assert(w.pages[k].children == v.pages[k].children);
            }
        }
    }
    assert forall|k: i32, j: int| w.has(k) && 0 <= j < w.pages[k].children.len() implies w.has(#[trigger] w.pages[k].children[j]) by {
        if k != n {
            assert(v.has(k));
            if parent == Some(k) {
                assert(w.pages[k].children == nl);
                if j < l.len() {
                    assert(v.has(v.pages[k].children[j]));
                }
            } else {
                assert(w.pages[k].children == v.pages[k].children);
                assert(v.has(v.pages[k].children[j]));
            }
        }
    }
    assert forall|k: i32, j: int|
        w.has(k) && 0 <= j < w.pages[k].children.len() && w.has(#[trigger] w.pages[k].children[j]) implies w.pages[w.pages[k].children[j]].parent
            == Some(k) by {
        if k != n {
            assert(v.has(k));
            let c = w.pages[k].children[j];
            if parent == Some(k) {
                assert(w.pages[k].children == nl);
                if j < l.len() {
                    assert(v.has(v.pages[k].children[j]));
                    assert(c != n);
                }
            } else {
                assert(w.pages[k].children == v.pages[k].children);
                assert(v.has(c));
                assert(c != n);
            }
        }
    }
    assert forall|j: int| 0 <= j < w.roots.len() implies w.has(#[trigger] w.roots[j]) by {
        if parent is None {
            assert(w.roots == nl);
            if j < l.len() {
                assert(v.has(v.roots[j]));
            }
        } else {
            assert(w.roots == v.roots);
            assert(v.has(v.roots[j]));
        }
    }
    assert forall|j: int| 0 <= j < w.roots.len() && w.has(#[trigger] w.roots[j]) implies w.pages[w.roots[j]].parent is None by {
        if parent is None {
            assert(w.roots == nl);
            if j < l.len() {
                assert(v.has(v.roots[j]));
                assert(v.roots[j] != n);
            }
        } else {
            assert(w.roots == v.roots);
            assert(v.has(v.roots[j]));
            assert(v.roots[j] != n);
        }
    }
    assert(w.roots.no_duplicates()) by {
        if parent is None {
            assert(w.roots == nl);
        } else {
            assert(w.roots == v.roots);
        }
    }
}

/// Creating a template keeps the links agreeing and every list naming pages:
/// the template hangs nowhere and no list names it.
pub proof fn lemma_tree_kept_by_template(v: WorkspaceView, title: Seq<char>)
    requires
        links_agree(v),
        names_pages(v),
        forall|k: i32| #[trigger] v.has(k) ==> k < v.next_id,
        v.next_id < i32::MAX,
    ensures
        ({
            let n = v.next_id as i32;
            let w = v.with_new_page(title).with_page(n, PageView { template: true, ..blank_page(n, title) });
            links_agree(w) && names_pages(w)
        }),
{
    let n = v.next_id as i32;
    let w = v.with_new_page(title).with_page(n, PageView { template: true, ..blank_page(n, title) });
    assert(!v.has(n));
    assert forall|k: i32| #[trigger] w.has(k) implies w.pages[k].children.no_duplicates() by {
        if k != n {
            assert(v.has(k));
        }
    }
    assert forall|k: i32, j: int| w.has(k) && 0 <= j < w.pages[k].children.len() implies w.has(#[trigger] w.pages[k].children[j]) by {
        if k != n {
            assert(v.has(k));
            assert(v.has(v.pages[k].children[j]));
        }
    }
    assert forall|k: i32, j: int|
        w.has(k) && 0 <= j < w.pages[k].children.len() && w.has(#[trigger] w.pages[k].children[j]) implies w.pages[w.pages[k].children[j]].parent
            == Some(k) by {
        if k != n {
            assert(v.has(k));
            assert(v.has(v.pages[k].children[j]));
            assert(v.pages[k].children[j] != n);
        }
    }
    assert forall|j: int| 0 <= j < w.roots.len() implies w.has(#[trigger] w.roots[j]) by {
        assert(v.has(v.roots[j]));
    }
    assert forall|j: int| 0 <= j < w.roots.len() && w.has(#[trigger] w.roots[j]) implies w.pages[w.roots[j]].parent is None by {
        assert(v.has(v.roots[j]));
        assert(v.roots[j] != n);
    }
}


/// Changing what one page shows keeps every list naming pages.
pub proof fn lemma_names_kept_by_page_change(v: WorkspaceView, id: i32, p: PageView)
    requires
        names_pages(v),
        v.has(id),
        p.children == v.pages[id].children,
    ensures
        names_pages(v.with_page(id, p)),
{
    let w = v.with_page(id, p);
    assert forall|k: i32, j: int| w.has(k) && 0 <= j < w.pages[k].children.len() implies w.has(#[trigger] w.pages[k].children[j]) by {
        assert(v.has(k));
        assert(v.has(v.pages[k].children[j]));
    }
    assert forall|j: int| 0 <= j < w.roots.len() implies w.has(#[trigger] w.roots[j]) by {
        assert(v.has(v.roots[j]));
    }
}

/// Expanding pages keeps every list naming pages.
pub proof fn lemma_names_kept_by_expanding(v: WorkspaceView, ks: Seq<i32>)
    requires
        names_pages(v),
    ensures
        names_pages(WorkspaceView { pages: expand_all(v.pages, ks), ..v }),
{
    let w = WorkspaceView { pages: expand_all(v.pages, ks), ..v };
    assert forall|k: i32, j: int| w.has(k) && 0 <= j < w.pages[k].children.len() implies w.has(#[trigger] w.pages[k].children[j]) by {
        assert(v.has(k));
        assert(v.has(v.pages[k].children[j]));
    }
    assert forall|j: int| 0 <= j < w.roots.len() implies w.has(#[trigger] w.roots[j]) by {
        assert(v.has(v.roots[j]));
    }
}

/// Swapping neighbours keeps every list naming pages.
pub proof fn lemma_names_kept_by_swap(v: WorkspaceView, id: i32, delta: i32)
    requires
        names_pages(v),
        v.swap_target(id, delta) is Some,
        v.parent_of(id) matches Some(q) ==> v.has(q),
    ensures
        names_pages(v.swapped(id, v.swap_target(id, delta)->0)),
{
    let par = v.parent_of(id);
    let l = v.list(par);
    lemma_index_of(l, id);
    let i = index_of(l, id);
    let t = v.swap_target(id, delta)->0;
    let l2 = l.update(i, l[t]).update(t, l[i]);
    let w = v.swapped(id, t);
    assert forall|j: int| 0 <= j < l2.len() implies v.has(#[trigger] l2[j]) by {
        let x = if j == t { i } else if j == i { t } else { j };
        assert(l2[j] == l[x]);
        match par {
            Some(q) => {
                assert(v.has(v.pages[q].children[x]));
            },
            None => {
                assert(v.has(v.roots[x]));
            },
        }
    }
    assert forall|k: i32, j: int| w.has(k) && 0 <= j < w.pages[k].children.len() implies w.has(#[trigger] w.pages[k].children[j]) by {
        assert(v.has(k));
        if par == Some(k) {
            assert(w.pages[k].children == l2);
        } else {
            assert(v.has(v.pages[k].children[j]));
        }
    }
    assert forall|j: int| 0 <= j < w.roots.len() implies w.has(#[trigger] w.roots[j]) by {
        if par is None {
            assert(w.roots == l2);
        } else {
            assert(v.has(v.roots[j]));
        }
    }
}

/// A legal move keeps every list naming pages.
pub proof fn lemma_names_kept_by_move(v: WorkspaceView, id: i32, new_parent: Option<i32>, after: Option<i32>)
    requires
        names_pages(v),
        v.can_move(id, new_parent),
        new_parent matches Some(p) ==> v.has(p),
        v.parent_of(id) matches Some(q) ==> v.has(q),
    ensures
        names_pages(v.moved(id, new_parent, after)),
{
    let par = v.parent_of(id);
    let old_l = v.list(par);
    let d = v.detached(id);
    let dl = without(old_l, id);
    lemma_without_members(old_l, id);
    assert(d.pages.dom() =~= v.pages.dom());
    let v1 = d.with_page(id, PageView { parent: new_parent, ..d.pages[id] });
    let l = v1.list(new_parent);
    let pos = WorkspaceView::insert_pos(l, after);
    match after {
        Some(prev) => lemma_index_of(l, prev),
        None => {},
    }
    let nl = l.insert(pos, id);
    let w = v.moved(id, new_parent, after);
    assert(w.pages.dom() =~= v.pages.dom());
    assert(l == (if new_parent == par { dl } else { v.list(new_parent) })) by {
        match new_parent {
            Some(q2) => {
                assert(q2 != id);
            },
            None => {},
        }
    }
    assert forall|x: int| 0 <= x < old_l.len() implies v.has(#[trigger] old_l[x]) by {
        match par {
            Some(q) => {
                assert(v.has(v.pages[q].children[x]));
            },
            None => {
                assert(v.has(v.roots[x]));
            },
        }
    }
    assert forall|x: int| 0 <= x < dl.len() implies v.has(#[trigger] dl[x]) by {
        let y = choose|y: int| 0 <= y < old_l.len() && old_l[y] == dl[x];
        assert(v.has(old_l[y]));
    }
    assert forall|x: int| 0 <= x < l.len() implies v.has(#[trigger] l[x]) by {
        if new_parent != par {
            match new_parent {
                Some(q2) => {
                    assert(v.has(v.pages[q2].children[x]));
                },
                None => {
                    assert(v.has(v.roots[x]));
                },
            }
        } else {
            assert(v.has(dl[x]));
        }
    }
    assert forall|x: int| 0 <= x < nl.len() implies v.has(#[trigger] nl[x]) by {
        if x < pos {
            assert(nl[x] == l[x]);
        } else if x > pos {
            assert(nl[x] == l[x - 1]);
        }
    }
    assert(w.list(new_parent) == nl);
    assert forall|k: i32, j: int| w.has(k) && 0 <= j < w.pages[k].children.len() implies w.has(#[trigger] w.pages[k].children[j]) by {
        assert(v.has(k));
        if new_parent == Some(k) {
            assert(w.pages[k].children == nl);
        } else if par == Some(k) {
            assert(w.pages[k].children == dl);
        } else {
            assert(w.pages[k].children == v.pages[k].children);
            assert(v.has(v.pages[k].children[j]));
        }
    }
    assert forall|j: int| 0 <= j < w.roots.len() implies w.has(#[trigger] w.roots[j]) by {
        if new_parent is None {
            assert(w.roots == nl);
        } else if par is None {
            assert(w.roots == dl);
        } else {
            assert(w.roots == v.roots);
            assert(v.has(v.roots[j]));
        }
    }
}


/// A page a walk visits is one of the pages it starts from, or is listed as
/// a child by a page it visits.
proof fn lemma_walk_lister(m: Map<i32, PageView>, ids: Seq<i32>, fuel: nat, x: i32)
    requires
        dfs(m, ids, fuel).contains(x),
    ensures
        ids.contains(x) || exists|k: i32| #[trigger] dfs(m, ids, fuel).contains(k) && m.contains_key(k) && m[k].children.contains(x),
    decreases fuel, ids.len(),
{
    let a = ids[0];
    let rest = ids.drop_first();
    let d = dfs(m, ids, fuel);
    let dr = dfs(m, rest, fuel);
    if m.contains_key(a) {
        let dk = dfs(m, m[a].children, (fuel - 1) as nat);
        assert(d == seq![a] + dk + dr);
        let t = choose|t: int| 0 <= t < d.len() && d[t] == x;
        if t == 0 {
            assert(ids[0] == x);
        } else if t < 1 + dk.len() {
            assert(dk[t - 1] == x);
            lemma_walk_lister(m, m[a].children, (fuel - 1) as nat, x);
            if m[a].children.contains(x) {
                assert(d[0] == a);
                assert(d.contains(a));
            } else {
                let k = choose|k: i32| #[trigger] dk.contains(k) && m.contains_key(k) && m[k].children.contains(x);
                let q = choose|q: int| 0 <= q < dk.len() && dk[q] == k;
                assert(d[1 + q] == k);
                assert(d.contains(k));
            }
        } else {
            assert(dr[t - 1 - dk.len()] == x);
            lemma_walk_lister(m, rest, fuel, x);
            if rest.contains(x) {
                let q = choose|q: int| 0 <= q < rest.len() && rest[q] == x;
                assert(ids[q + 1] == x);
            } else {
                let k = choose|k: i32| #[trigger] dr.contains(k) && m.contains_key(k) && m[k].children.contains(x);
                let q = choose|q: int| 0 <= q < dr.len() && dr[q] == k;
                assert(d[1 + dk.len() + q] == k);
                assert(d.contains(k));
            }
        }
    } else {
        assert(d == dr);
        lemma_walk_lister(m, rest, fuel, x);
        if rest.contains(x) {
            let q = choose|q: int| 0 <= q < rest.len() && rest[q] == x;
            assert(ids[q + 1] == x);
        }
    }
}

/// A delete keeps every list naming pages: no remaining page lists a
/// deleted one, and no deleted page stays among the roots.
pub proof fn lemma_names_kept_by_delete(v: WorkspaceView, id: i32)
    requires
        links_agree(v),
        names_pages(v),
        v.has(id),
        v.parent_of(id) matches Some(q) ==> v.has(q),
    ensures
        names_pages(v.after_delete(id, v.detached(id).subtree(id))),
{
    let par = v.parent_of(id);
    let old_l = v.list(par);
    let d = v.detached(id);
    let dl = without(old_l, id);
    lemma_without_members(old_l, id);
    assert(d.pages.dom() =~= v.pages.dom());
    let removed = d.subtree(id);
    let w = v.after_delete(id, removed);
    // a page listed in the detached workspace is listed there in `v` too
    assert forall|k: i32, c: i32| d.has(k) && #[trigger] d.pages[k].children.contains(c) implies v.pages[k].children.contains(c) by {
        if par == Some(k) {
            let x = choose|x: int| 0 <= x < dl.len() && dl[x] == c;
            assert(old_l.contains(dl[x]));
        }
    }
    // a page a deleted page lists is not listed by a remaining one
    assert forall|k: i32, j: int| w.has(k) && 0 <= j < w.pages[k].children.len() implies w.has(#[trigger] w.pages[k].children[j]) by {
        assert(v.has(k));
        let c = w.pages[k].children[j];
        assert(w.pages[k] == d.pages[k]);
        assert(d.pages[k].children.contains(c));
        assert(v.pages[k].children.contains(c));
        let x = choose|x: int| 0 <= x < v.pages[k].children.len() && v.pages[k].children[x] == c;
        assert(v.has(v.pages[k].children[x]));
        assert(v.pages[c].parent == Some(k));
        if removed.contains(c) {
            if c == id {
                if par == Some(k) {
                    let y = choose|y: int| 0 <= y < dl.len() && dl[y] == c;
                } 
            } else {
                lemma_walk_lister(d.pages, seq![id], d.size(), c);
                if seq![id].contains(c) {
                    let y = choose|y: int| 0 <= y < 1 && seq![id][y] == c;
                }
                let k2 = choose|k2: i32| #[trigger] removed.contains(k2) && d.pages.contains_key(k2) && d.pages[k2].children.contains(c);
                assert(v.pages[k2].children.contains(c));
                let x2 = choose|x2: int| 0 <= x2 < v.pages[k2].children.len() && v.pages[k2].children[x2] == c;
                assert(v.pages[v.pages[k2].children[x2]].parent == Some(k2));
                assert(k2 == k);
                assert(removed.to_set().contains(k));
            }
        }
    }
    assert forall|j: int| 0 <= j < w.roots.len() implies w.has(#[trigger] w.roots[j]) by {
        let r = w.roots[j];
        assert(w.roots == d.roots);
        assert(v.roots.contains(r)) by {
            if par is None {
                let y = choose|y: int| 0 <= y < dl.len() && dl[y] == r;
                assert(old_l.contains(dl[y]));
            } else {
                assert(d.roots == v.roots);
                assert(v.roots[j] == r);
            }
        }
        let x = choose|x: int| 0 <= x < v.roots.len() && v.roots[x] == r;
        assert(v.has(v.roots[x]));
        assert(v.pages[r].parent is None);
        if removed.contains(r) {
            if r == id {
                if par is None {
                    let y = choose|y: int| 0 <= y < dl.len() && dl[y] == r;
                }
            } else {
                lemma_walk_lister(d.pages, seq![id], d.size(), r);
                if seq![id].contains(r) {
                    let y = choose|y: int| 0 <= y < 1 && seq![id][y] == r;
                }
                let k2 = choose|k2: i32| #[trigger] removed.contains(k2) && d.pages.contains_key(k2) && d.pages[k2].children.contains(r);
                assert(v.pages[k2].children.contains(r));
                let x2 = choose|x2: int| 0 <= x2 < v.pages[k2].children.len() && v.pages[k2].children[x2] == r;
                assert(v.pages[v.pages[k2].children[x2]].parent == Some(k2));
            }
        }
    }
}


/// A page a walk visits at place `t` is one of the pages it starts from, or
/// is listed as a child by a page the walk visits earlier.
proof fn lemma_walk_lister_before(m: Map<i32, PageView>, ids: Seq<i32>, fuel: nat, t: int)
    requires
        0 <= t < dfs(m, ids, fuel).len(),
    ensures
        ids.contains(dfs(m, ids, fuel)[t]) || exists|q: int|
            0 <= q < t && m.contains_key(#[trigger] dfs(m, ids, fuel)[q]) && m[dfs(m, ids, fuel)[q]].children.contains(dfs(m, ids, fuel)[t]),
    decreases fuel, ids.len(),
{
    let a = ids[0];
    let rest = ids.drop_first();
    let d = dfs(m, ids, fuel);
    let dr = dfs(m, rest, fuel);
    let x = d[t];
    if m.contains_key(a) {
        let dk = dfs(m, m[a].children, (fuel - 1) as nat);
        assert(d == seq![a] + dk + dr);
        if t == 0 {
            assert(ids[0] == x);
        } else if t < 1 + dk.len() {
            assert(dk[t - 1] == x);
            lemma_walk_lister_before(m, m[a].children, (fuel - 1) as nat, t - 1);
            if m[a].children.contains(x) {
                assert(d[0] == a);
            } else {
                let q = choose|q: int| 0 <= q < t - 1 && m.contains_key(#[trigger] dk[q]) && m[dk[q]].children.contains(dk[t - 1]);
                assert(d[1 + q] == dk[q]);
            }
        } else {
            let t2 = t - 1 - dk.len();
            assert(dr[t2] == x);
            lemma_walk_lister_before(m, rest, fuel, t2);
            if rest.contains(x) {
                let q = choose|q: int| 0 <= q < rest.len() && rest[q] == x;
                assert(ids[q + 1] == x);
            } else {
                let q = choose|q: int| 0 <= q < t2 && m.contains_key(#[trigger] dr[q]) && m[dr[q]].children.contains(dr[t2]);
                assert(d[1 + dk.len() + q] == dr[q]);
            }
        }
    } else {
        assert(d == dr);
        lemma_walk_lister_before(m, rest, fuel, t);
        if rest.contains(x) {
            let q = choose|q: int| 0 <= q < rest.len() && rest[q] == x;
            assert(ids[q + 1] == x);
        }
    }
}

/// When the links agree, the depth-first order puts every page after its
/// parent: a listed page whose parent link names `a` comes after `a`.
pub proof fn lemma_order_parents_first(v: WorkspaceView, t: int)
    requires
        links_agree(v),
        0 <= t < v.order().len(),
        v.pages[v.order()[t]].parent is Some,
    ensures
        exists|q: int| 0 <= q < t && #[trigger] v.order()[q] == v.pages[v.order()[t]].parent->0,
{
    let d = v.order();
    let c = d[t];
    crate::workspace::lemma_dfs_keys(v.pages, v.roots, v.size());
    assert(v.has(c));
    lemma_walk_lister_before(v.pages, v.roots, v.size(), t);
    if v.roots.contains(c) {
        let j = choose|j: int| 0 <= j < v.roots.len() && v.roots[j] == c;
        assert(v.pages[v.roots[j]].parent is None);
    } else {
        let q = choose|q: int| 0 <= q < t && v.pages.contains_key(#[trigger] d[q]) && v.pages[d[q]].children.contains(d[t]);
        let k = d[q];
        assert(v.has(k));
        let j = choose|j: int| 0 <= j < v.pages[k].children.len() && v.pages[k].children[j] == c;
        assert(v.pages[v.pages[k].children[j]].parent == Some(k));
    }
}


/// Loading a stored row under an id no page holds keeps the links agreeing
/// and every list naming pages: a template hangs nowhere, any other page is
/// named once, by its parent's list (or the roots), and its parent link
/// names that parent.
pub proof fn lemma_tree_kept_by_insert_persisted(v: WorkspaceView, p: crate::doc::Page)
    requires
        links_agree(v),
        names_pages(v),
        !v.has(row_id(p)),
        !p.template ==> (row_parent(p) matches Some(q) ==> v.has(q) || q == row_id(p)),
    ensures
        links_agree(v.persisted(p)) && names_pages(v.persisted(p)),
{
    let n = row_id(p);
    let par = row_parent(p);
    let v1 = WorkspaceView {
        pages: v.pages.insert(n, persisted_page(p)),
        next_id: if v.next_id > n + 1 { v.next_id } else { n + 1 },
        ..v
    };
    let w = v.persisted(p);
    if p.template {
        assert(w == v1);
        assert forall|k: i32| #[trigger] w.has(k) implies w.pages[k].children.no_duplicates() by {
            if k != n {
                assert(v.has(k));
            }
        }
        assert forall|k: i32, j: int| w.has(k) && 0 <= j < w.pages[k].children.len() implies w.has(#[trigger] w.pages[k].children[j]) by {
            if k != n {
                assert(v.has(k));
                assert(v.has(v.pages[k].children[j]));
            }
        }
        assert forall|k: i32, j: int|
            w.has(k) && 0 <= j < w.pages[k].children.len() && w.has(#[trigger] w.pages[k].children[j]) implies w.pages[w.pages[k].children[j]].parent
                == Some(k) by {
            if k != n {
                assert(v.has(k));
                assert(v.has(v.pages[k].children[j]));
                assert(v.pages[k].children[j] != n);
            }
        }
        assert forall|j: int| 0 <= j < w.roots.len() implies w.has(#[trigger] w.roots[j]) by {
            assert(v.has(v.roots[j]));
        }
        assert forall|j: int| 0 <= j < w.roots.len() && w.has(#[trigger] w.roots[j]) implies w.pages[w.roots[j]].parent is None by {
            assert(v.has(v.roots[j]));
            assert(v.roots[j] != n);
        }
    } else {
        let v1a = v1.with_page(n, PageView { parent: par, ..v1.pages[n] });
        let l = v1a.list(par);
        // the list the page joins: its own (empty) list, or one of `v`'s
        assert(l == (if par == Some(n) { Seq::<i32>::empty() } else { v.list(par) }));
        assert(!l.contains(n)) by {
            if l.contains(n) && par != Some(n) {
                let j = choose|j: int| 0 <= j < l.len() && l[j] == n;
                match par {
                    Some(q) => {
                        assert(v.has(v.pages[q].children[j]));
                    },
                    None => {
                        assert(v.has(v.roots[j]));
                    },
                }
            }
        }
        assert(l.no_duplicates()) by {
            match par {
                Some(q) => {
                    if q != n {
                        assert(v.has(q));
                    }
                },
                None => {},
            }
        }
        assert forall|x: int| 0 <= x < l.len() implies v.has(#[trigger] l[x]) by {
            match par {
                Some(q) => {
                    assert(v.has(v.pages[q].children[x]));
                },
                None => {
                    assert(v.has(v.roots[x]));
                },
            }
        }
        let nl = l.push(n);
        assert(WorkspaceView::insert_pos(l, None) == l.len());
        assert(l.insert(l.len() as int, n) =~= nl);
        assert(w.list(par) == nl);
        assert(w.pages[n].parent == par);
        assert(nl.no_duplicates()) by {
            assert forall|x: int, y: int| 0 <= x < nl.len() && 0 <= y < nl.len() && x != y implies nl[x] != nl[y] by {
                if x < l.len() && y < l.len() {
                } else if x < l.len() {
                    assert(l.contains(nl[x]));
                } else {
                    assert(l.contains(nl[y]));
                }
            }
        }
        assert forall|k: i32| #[trigger] w.has(k) implies w.pages[k].children.no_duplicates() by {
            if par == Some(k) {
                assert(w.pages[k].children == nl);
            } else if k == n {
                assert(w.pages[n].children == Seq::<i32>::empty());
            } else {
                assert(v.has(k));
                assert(w.pages[k].children == v.pages[k].children);
            }
        }
        assert forall|k: i32, j: int| w.has(k) && 0 <= j < w.pages[k].children.len() implies w.has(#[trigger] w.pages[k].children[j]) by {
            if par == Some(k) {
                assert(w.pages[k].children == nl);
                if j < l.len() {
                    assert(v.has(l[j]));
                }
            } else if k != n {
                assert(v.has(k));
                assert(w.pages[k].children == v.pages[k].children);
                assert(v.has(v.pages[k].children[j]));
            }
        }
        assert forall|k: i32, j: int|
            w.has(k) && 0 <= j < w.pages[k].children.len() && w.has(#[trigger] w.pages[k].children[j]) implies w.pages[w.pages[k].children[j]].parent
                == Some(k) by {
            let c = w.pages[k].children[j];
            if par == Some(k) {
                assert(w.pages[k].children == nl);
                if j < l.len() {
                    assert(v.has(l[j]));
                    assert(c != n);
                    assert(k != n);
                    let vk = v.pages[k].children;
                    assert(vk == l);
                    assert(v.pages[vk[j]].parent == Some(k));
                }
            } else if k != n {
                assert(v.has(k));
                assert(w.pages[k].children == v.pages[k].children);
                assert(v.has(c));
                assert(c != n);
            }
        }
        assert forall|j: int| 0 <= j < w.roots.len() implies w.has(#[trigger] w.roots[j]) by {
            if par is None {
                assert(w.roots == nl);
                if j < l.len() {
                    assert(v.has(l[j]));
                }
            } else {
                assert(w.roots == v.roots);
                assert(v.has(v.roots[j]));
            }
        }
        assert forall|j: int| 0 <= j < w.roots.len() && w.has(#[trigger] w.roots[j]) implies w.pages[w.roots[j]].parent is None by {
            if par is None {
                assert(w.roots == nl);
                if j < l.len() {
                    assert(v.has(l[j]));
                    assert(l[j] != n);
                }
            } else {
                assert(w.roots == v.roots);
                assert(v.has(v.roots[j]));
                assert(v.roots[j] != n);
            }
        }
        assert(w.roots.no_duplicates()) by {
            if par is None {
                assert(w.roots == nl);
            } else {
                assert(w.roots == v.roots);
            }
        }
    }
}


/// The sample tree's links agree and its lists name pages only.
pub proof fn lemma_sample_tree_ok(v: WorkspaceView)
    requires
        forall|k: i32| #[trigger] v.has(k) <==> 100 <= k < 114,
        forall|k: i32| 100 <= k < 114 ==> #[trigger] v.pages[k] == sample_page(k),
        v.roots == seq![100i32, 101, 102, 105, 110, 112, 113],
    ensures
        links_agree(v),
        names_pages(v),
{
    assert forall|k: i32| #[trigger] v.has(k) implies v.pages[k].children.no_duplicates() by {
        assert(v.pages[k].children == sample_children(k));
    }
    assert forall|k: i32, i: int| v.has(k) && 0 <= i < v.pages[k].children.len() implies v.has(#[trigger] v.pages[k].children[i])
        && v.pages[v.pages[k].children[i]].parent == Some(k) by {
        assert(v.pages[k].children == sample_children(k));
        let c = v.pages[k].children[i];
        assert(100 <= c < 114);
        assert(v.pages[c] == sample_page(c));
        assert(sample_parent(c) == Some(k));
    }
    assert forall|i: int| 0 <= i < v.roots.len() implies v.has(#[trigger] v.roots[i]) && v.pages[v.roots[i]].parent is None by {
        let r = v.roots[i];
        assert(v.pages[r] == sample_page(r));
    }
}


/// The sample tree with `n` flat benchmark roots (what `with_bench_pages`
/// builds) has agreeing links and lists that name pages only.
pub proof fn lemma_bench_tree_ok(v: WorkspaceView, n: int)
    requires
        0 <= n < i32::MAX - 114,
        forall|k: i32| #[trigger] v.has(k) <==> 100 <= k < 114 + n,
        forall|k: i32| 100 <= k < 114 ==> #[trigger] v.pages[k] == sample_page(k),
        forall|k: i32| 114 <= k < 114 + n ==> #[trigger] v.pages[k] == blank_page(k, bench_title(k - 114)),
        v.roots == seq![100i32, 101, 102, 105, 110, 112, 113] + Seq::new(n as nat, |i: int| (114 + i) as i32),
    ensures
        links_agree(v),
        names_pages(v),
{
    assert forall|k: i32| #[trigger] v.has(k) implies v.pages[k].children.no_duplicates() by {
        if k < 114 {
            assert(v.pages[k].children == sample_children(k));
        } else {
            assert(v.pages[k].children == Seq::<i32>::empty());
        }
    }
    assert forall|k: i32, i: int| v.has(k) && 0 <= i < v.pages[k].children.len() implies v.has(#[trigger] v.pages[k].children[i])
        && v.pages[v.pages[k].children[i]].parent == Some(k) by {
        if k < 114 {
            assert(v.pages[k].children == sample_children(k));
            let c = v.pages[k].children[i];
            assert(100 <= c < 114);
            assert(v.pages[c] == sample_page(c));
            assert(sample_parent(c) == Some(k));
        } else {
            assert(v.pages[k].children == Seq::<i32>::empty());
        }
    }
    let head = seq![100i32, 101, 102, 105, 110, 112, 113];
    let tail = Seq::new(n as nat, |i: int| (114 + i) as i32);
    assert forall|i: int| 7 <= i < v.roots.len() implies #[trigger] v.roots[i] == (114 + (i - 7)) as i32 && 114 <= v.roots[i] < 114 + n by {
        assert(v.roots[i] == tail[i - 7]);
    }
    assert forall|i: int| 0 <= i < v.roots.len() implies v.has(#[trigger] v.roots[i]) && v.pages[v.roots[i]].parent is None by {
        let r = v.roots[i];
        if i < 7 {
            assert(r == head[i]);
            assert(v.pages[r] == sample_page(r));
        } else {
            assert(r == (114 + (i - 7)) as i32);
            assert(v.pages[r] == blank_page(r, bench_title(r - 114)));
        }
    }
    assert(v.roots.no_duplicates()) by {
        assert forall|a: int, b: int| 0 <= a < v.roots.len() && 0 <= b < v.roots.len() && a != b implies v.roots[a] != v.roots[b] by {
            if a < 7 && b < 7 {
                assert(v.roots[a] == head[a] && v.roots[b] == head[b]);
            } else if a < 7 {
                assert(v.roots[a] == head[a]);
                assert(v.roots[b] == (114 + (b - 7)) as i32);
            } else if b < 7 {
                assert(v.roots[b] == head[b]);
                assert(v.roots[a] == (114 + (a - 7)) as i32);
            } else {
                assert(v.roots[a] == (114 + (a - 7)) as i32);
                assert(v.roots[b] == (114 + (b - 7)) as i32);
            }
        }
    }
}


// ─── a tree loaded from stored rows ─────────────────────────────────────────

/// The stored rows carry pairwise different ids.
pub open spec fn distinct_rows(rows: Seq<crate::doc::Page>) -> bool {
    forall|i: int, j: int| 0 <= i < rows.len() && 0 <= j < rows.len() && i != j ==> row_id(#[trigger] rows[i]) != row_id(#[trigger] rows[j])
}

proof fn lemma_rows_map_at(rows: Seq<crate::doc::Page>, i: int)
    requires
        distinct_rows(rows),
        0 <= i < rows.len(),
    ensures
        rows_map(rows).contains_key(row_id(rows[i])),
        rows_map(rows)[row_id(rows[i])] == persisted_page(rows[i]),
    decreases rows.len(),
{
    if i < rows.len() - 1 {
        let init = rows.drop_last();
        assert(distinct_rows(init)) by {
            assert forall|a: int, b: int| 0 <= a < init.len() && 0 <= b < init.len() && a != b implies row_id(#[trigger] init[a]) != row_id(#[trigger] init[b]) by {
                assert(init[a] == rows[a] && init[b] == rows[b]);
            }
        }
        lemma_rows_map_at(init, i);
        assert(init[i] == rows[i]);
        assert(row_id(rows[i]) != row_id(rows[rows.len() - 1]));
    }
}

proof fn lemma_filter_distinct_rows(rows: Seq<crate::doc::Page>, pred: spec_fn(crate::doc::Page) -> bool)
    requires
        distinct_rows(rows),
    ensures
        distinct_rows(rows.filter(pred)),
    decreases rows.len(),
{
    reveal(Seq::filter);
    if rows.len() > 0 {
        let init = rows.drop_last();
        assert(distinct_rows(init)) by {
            assert forall|a: int, b: int| 0 <= a < init.len() && 0 <= b < init.len() && a != b implies row_id(#[trigger] init[a]) != row_id(#[trigger] init[b]) by {
                assert(init[a] == rows[a] && init[b] == rows[b]);
            }
        }
        lemma_filter_distinct_rows(init, pred);
        let f0 = init.filter(pred);
        if pred(rows.last()) {
            let f = f0.push(rows.last());
            assert(rows.filter(pred) == f);
            assert forall|a: int, b: int| 0 <= a < f.len() && 0 <= b < f.len() && a != b implies row_id(#[trigger] f[a]) != row_id(#[trigger] f[b]) by {
                if a < f0.len() && b < f0.len() {
                } else {
                    let o = if a < f0.len() { a } else { b };
                    assert(f0.contains(f0[o]));
                    init.lemma_filter_contains_rev(pred, f0[o]);
                    let t = choose|t: int| 0 <= t < init.len() && init[t] == f0[o];
                    assert(rows[t] == f0[o]);
                }
            }
        }
    }
}

/// `x` is the id of a non-template row whose parent is `parent`.
spec fn row_under(rows: Seq<crate::doc::Page>, parent: Option<i32>, x: i32) -> bool {
    exists|i: int| 0 <= i < rows.len() && !rows[i].template && row_parent(rows[i]) == parent && row_id(#[trigger] rows[i]) == x
}

/// `x` is the id of one of the pairs.
spec fn pair_names(pairs: Seq<(u64, i32)>, x: i32) -> bool {
    exists|j: int| 0 <= j < pairs.len() && (#[trigger] pairs[j]).1 == x
}

/// Each (order key, id) pair of the rows under `parent` comes from a
/// non-template row under `parent`, and no two pairs share an id.
proof fn lemma_kid_pairs(rows: Seq<crate::doc::Page>, parent: Option<i32>)
    requires
        distinct_rows(rows),
    ensures
        forall|j: int| 0 <= j < kid_pairs(rows, parent).len() ==> row_under(rows, parent, (#[trigger] kid_pairs(rows, parent)[j]).1),
        forall|a: int, b: int| 0 <= a < kid_pairs(rows, parent).len() && 0 <= b < kid_pairs(rows, parent).len() && a != b ==> (
        #[trigger] kid_pairs(rows, parent)[a]).1 != (#[trigger] kid_pairs(rows, parent)[b]).1,
{
    let pred = |r: crate::doc::Page| !r.template && row_parent(r) == parent;
    let f = rows.filter(pred);
    let kp = kid_pairs(rows, parent);
    assert(kp == f.map_values(|r: crate::doc::Page| (r.order.0, row_id(r))));
    lemma_filter_distinct_rows(rows, pred);
    assert forall|j: int| 0 <= j < kp.len() implies row_under(rows, parent, (#[trigger] kp[j]).1) by {
        rows.lemma_filter_pred(pred, j);
        assert(f.contains(f[j]));
        rows.lemma_filter_contains_rev(pred, f[j]);
        let i = choose|i: int| 0 <= i < rows.len() && rows[i] == f[j];
        assert(kp[j].1 == row_id(f[j]));
        assert(pred(rows[i]));
        assert(0 <= i < rows.len() && !rows[i].template && row_parent(rows[i]) == parent && row_id(rows[i]) == kp[j].1);
    }
    assert forall|a: int, b: int| 0 <= a < kp.len() && 0 <= b < kp.len() && a != b implies (#[trigger] kp[a]).1 != (#[trigger] kp[b]).1 by {
        assert(kp[a].1 == row_id(f[a]) && kp[b].1 == row_id(f[b]));
    }
}

/// A list sorted from pairs that share no id names each id once, and only
/// ids of the pairs.
proof fn lemma_sorted_kids_ids(ids: Seq<i32>, pairs: Seq<(u64, i32)>)
    requires
        sorted_kids(ids, pairs),
        forall|a: int, b: int| 0 <= a < pairs.len() && 0 <= b < pairs.len() && a != b ==> (#[trigger] pairs[a]).1 != (#[trigger] pairs[b]).1,
    ensures
        ids.no_duplicates(),
        forall|i: int| 0 <= i < ids.len() ==> pair_names(pairs, #[trigger] ids[i]),
{
    broadcast use vstd::seq_lib::group_to_multiset_ensures;
    let q = choose|q: Seq<(u64, i32)>|
        {
            &&& q.to_multiset() == pairs.to_multiset()
            &&& (forall|i: int, j: int| 0 <= i < j < q.len() ==> crate::workspace::pair_le(#[trigger] q[i], #[trigger] q[j]))
            &&& ids == q.map_values(|p: (u64, i32)| p.1)
        };
    assert(pairs.no_duplicates()) by {
        assert forall|a: int, b: int| 0 <= a < pairs.len() && 0 <= b < pairs.len() && a != b implies pairs[a] != pairs[b] by {
            assert(pairs[a].1 != pairs[b].1);
        }
    }
    pairs.lemma_multiset_has_no_duplicates();
    q.lemma_multiset_has_no_duplicates_conv();
    assert forall|i: int| 0 <= i < q.len() implies pairs.contains(#[trigger] q[i]) by {
        assert(q.contains(q[i]));
        assert(q.to_multiset().count(q[i]) > 0);
    }
    assert forall|i: int| 0 <= i < ids.len() implies pair_names(pairs, #[trigger] ids[i]) by {
        assert(pairs.contains(q[i]));
        let j = choose|j: int| 0 <= j < pairs.len() && pairs[j] == q[i];
        assert(ids[i] == q[i].1);
        assert(0 <= j < pairs.len() && pairs[j].1 == ids[i]);
    }
    assert forall|a: int, b: int| 0 <= a < ids.len() && 0 <= b < ids.len() && a != b implies ids[a] != ids[b] by {
        assert(pairs.contains(q[a]) && pairs.contains(q[b]));
        let ja = choose|j: int| 0 <= j < pairs.len() && pairs[j] == q[a];
        let jb = choose|j: int| 0 <= j < pairs.len() && pairs[j] == q[b];
        assert(ids[a] == q[a].1 && ids[b] == q[b].1);
        if ja == jb {
            assert(q[a] == q[b]);
        } else {
            assert(pairs[ja].1 != pairs[jb].1);
        }
    }
}

/// A listed id of a list sorted from the rows under `par` is a page whose
/// parent is `par`, and the list names it once.
proof fn lemma_listed_row(v: WorkspaceView, rows: Seq<crate::doc::Page>, par: Option<i32>, ids: Seq<i32>, i: int)
    requires
        distinct_rows(rows),
        v.pages.dom() == rows_map(rows).dom(),
        forall|k: i32| #[trigger] v.has(k) ==> v.pages[k] == (PageView { children: v.pages[k].children, ..rows_map(rows)[k] }),
        sorted_kids(ids, kid_pairs(rows, par)),
        0 <= i < ids.len(),
    ensures
        v.has(ids[i]),
        v.pages[ids[i]].parent == par,
        ids.no_duplicates(),
{
    lemma_kid_pairs(rows, par);
    lemma_sorted_kids_ids(ids, kid_pairs(rows, par));
    let kp = kid_pairs(rows, par);
    assert(pair_names(kp, ids[i]));
    let j = choose|j: int| 0 <= j < kp.len() && (#[trigger] kp[j]).1 == ids[i];
    assert(row_under(rows, par, kp[j].1));
    let t = choose|t: int| 0 <= t < rows.len() && !rows[t].template && row_parent(rows[t]) == par && row_id(#[trigger] rows[t]) == kp[j].1;
    lemma_rows_map_at(rows, t);
    assert(v.pages.dom().contains(ids[i]));
    assert(v.has(ids[i]));
    assert(v.pages[ids[i]].parent == rows_map(rows)[ids[i]].parent);
}

/// A tree loaded from stored rows with pairwise different ids (what
/// `from_persisted` builds) has agreeing links and lists that name pages
/// only: every list holds the rows whose parent is its owner.
pub proof fn lemma_loaded_tree_ok(v: WorkspaceView, rows: Seq<crate::doc::Page>)
    requires
        distinct_rows(rows),
        v.pages.dom() == rows_map(rows).dom(),
        forall|k: i32| #[trigger] v.has(k) ==> v.pages[k] == (PageView { children: v.pages[k].children, ..rows_map(rows)[k] })
            && sorted_kids(v.pages[k].children, kid_pairs(rows, Some(k))),
        sorted_kids(v.roots, kid_pairs(rows, None)),
    ensures
        links_agree(v),
        names_pages(v),
{
    assert forall|k: i32| #[trigger] v.has(k) implies v.pages[k].children.no_duplicates() by {
        if v.pages[k].children.len() > 0 {
            lemma_listed_row(v, rows, Some(k), v.pages[k].children, 0);
        }
    }
    assert forall|k: i32, i: int| v.has(k) && 0 <= i < v.pages[k].children.len() implies v.has(#[trigger] v.pages[k].children[i])
        && v.pages[v.pages[k].children[i]].parent == Some(k) by {
        lemma_listed_row(v, rows, Some(k), v.pages[k].children, i);
    }
    assert forall|i: int| 0 <= i < v.roots.len() implies v.has(#[trigger] v.roots[i]) && v.pages[v.roots[i]].parent is None by {
        lemma_listed_row(v, rows, None, v.roots, i);
    }
    if v.roots.len() > 0 {
        lemma_listed_row(v, rows, None, v.roots, 0);
    }
}


// ─── a duplicate keeps the tree's links ─────────────────────────────────────

/// The copies the copy walk makes are linked among themselves: the ids it
/// gives the copies of `ids` rise and hang under `dst`, and every copy lists
/// rising ids of copies that hang under it.
proof fn lemma_copy_links(m: Map<i32, PageView>, ids: Seq<i32>, dst: i32, base: int, fuel: nat)
    requires
        all_present(m, ids, fuel),
        0 <= base,
        base + dfs(m, ids, fuel).len() <= i32::MAX,
    ensures
        forall|i: int, j: int| 0 <= i < j < tops(m, ids, base, fuel).len() ==> #[trigger] tops(m, ids, base, fuel)[i] < #[trigger] tops(m, ids, base, fuel)[j],
        forall|i: int| 0 <= i < tops(m, ids, base, fuel).len() ==> base <= #[trigger] tops(m, ids, base, fuel)[i] < base + copy_seq(m, ids, dst, base, fuel).len()
            && copy_seq(m, ids, dst, base, fuel)[tops(m, ids, base, fuel)[i] - base].parent == Some(dst),
        forall|i: int, j: int, l: int| 0 <= i < copy_seq(m, ids, dst, base, fuel).len() && 0 <= j < l < copy_seq(m, ids, dst, base, fuel)[i].children.len()
            ==> #[trigger] copy_seq(m, ids, dst, base, fuel)[i].children[j] < #[trigger] copy_seq(m, ids, dst, base, fuel)[i].children[l],
        forall|i: int, j: int| 0 <= i < copy_seq(m, ids, dst, base, fuel).len() && 0 <= j < copy_seq(m, ids, dst, base, fuel)[i].children.len()
            ==> base <= #[trigger] copy_seq(m, ids, dst, base, fuel)[i].children[j] < base + copy_seq(m, ids, dst, base, fuel).len()
            && copy_seq(m, ids, dst, base, fuel)[copy_seq(m, ids, dst, base, fuel)[i].children[j] - base].parent == Some((base + i) as i32),
    decreases fuel, ids.len(),
{
    lemma_copy_len(m, ids, dst, base, fuel);
    if fuel > 0 && ids.len() > 0 {
        let k = ids[0];
        let f1 = (fuel - 1) as nat;
        assert(dfs(m, ids, fuel) == seq![k] + dfs(m, m[k].children, f1) + dfs(m, ids.drop_first(), fuel));
        let inner = copy_seq(m, m[k].children, base as i32, base + 1, f1);
        let ti = tops(m, m[k].children, base + 1, f1);
        let b2 = base + 1 + inner.len();
        lemma_copy_len(m, m[k].children, base as i32, base + 1, f1);
        lemma_copy_links(m, m[k].children, base as i32, base + 1, f1);
        lemma_copy_len(m, ids.drop_first(), dst, b2, fuel);
        lemma_copy_links(m, ids.drop_first(), dst, b2, fuel);
        let rest = copy_seq(m, ids.drop_first(), dst, b2, fuel);
        let tr = tops(m, ids.drop_first(), b2, fuel);
        let cs = copy_seq(m, ids, dst, base, fuel);
        let ts = tops(m, ids, base, fuel);
        let me = cs[0];
        assert(cs == seq![me] + inner + rest);
        assert(me.children == ti && me.parent == Some(dst));
        assert(ts == seq![base as i32] + tr);
        assert forall|i: int, j: int| 0 <= i < j < ts.len() implies #[trigger] ts[i] < #[trigger] ts[j] by {
            assert(ts[j] == tr[j - 1]);
            if i > 0 {
                assert(ts[i] == tr[i - 1]);
            }
        }
        assert forall|i: int| 0 <= i < ts.len() implies base <= #[trigger] ts[i] < base + cs.len() && cs[ts[i] - base].parent == Some(dst) by {
            if i > 0 {
                assert(ts[i] == tr[i - 1]);
                assert(cs[ts[i] - base] == rest[tr[i - 1] - b2]);
            }
        }
        assert forall|i: int, j: int, l: int| 0 <= i < cs.len() && 0 <= j < l < cs[i].children.len()
            implies #[trigger] cs[i].children[j] < #[trigger] cs[i].children[l] by {
            if i == 0 {
            } else if i < 1 + inner.len() {
                assert(cs[i] == inner[i - 1]);
            } else {
                assert(cs[i] == rest[i - 1 - inner.len()]);
            }
        }
        assert forall|i: int, j: int| 0 <= i < cs.len() && 0 <= j < cs[i].children.len()
            implies base <= #[trigger] cs[i].children[j] < base + cs.len() && cs[cs[i].children[j] - base].parent == Some((base + i) as i32) by {
            let c = cs[i].children[j];
            if i == 0 {
                assert(c == ti[j]);
                assert(cs[c - base] == inner[c - base - 1]);
            } else if i < 1 + inner.len() {
                assert(cs[i] == inner[i - 1]);
                assert(inner[i - 1].children[j] == c);
                assert(cs[c - base] == inner[c - base - 1]);
            } else {
                assert(cs[i] == rest[i - 1 - inner.len()]);
                assert(rest[i - 1 - inner.len()].children[j] == c);
                assert(cs[c - base] == rest[c - b2]);
            }
        }
    }
}

/// Attaching a page that no list names yet, and that lists no page, keeps the
/// links agreeing and every list naming pages.
proof fn lemma_attach_fresh(v: WorkspaceView, n: i32, parent: Option<i32>, after: Option<i32>)
    requires
        links_agree(v),
        names_pages(v),
        v.has(n),
        v.pages[n].children.len() == 0,
        !v.roots.contains(n),
        forall|k: i32| #[trigger] v.has(k) ==> !v.pages[k].children.contains(n),
        parent matches Some(p) ==> v.has(p) && p != n,
    ensures
        links_agree(v.attached(n, parent, after)),
        names_pages(v.attached(n, parent, after)),
{
    let w = v.attached(n, parent, after);
    let v1 = v.with_page(n, PageView { parent, ..v.pages[n] });
    let l = v1.list(parent);
    assert(l == v.list(parent));
    assert(!l.contains(n)) by {
        match parent {
            Some(p) => {
                assert(v.has(p));
            },
            None => {},
        }
    }
    assert(l.no_duplicates()) by {
        match parent {
            Some(p) => {
                assert(v.has(p));
            },
            None => {},
        }
    }
    let pos = WorkspaceView::insert_pos(l, after);
    match after {
        Some(prev) => lemma_index_of(l, prev),
        None => {},
    }
    assert(0 <= pos <= l.len());
    let nl = l.insert(pos, n);
    l.insert_ensures(pos, n);
    assert(w.list(parent) == nl);
    assert(forall|x: int| 0 <= x < nl.len() ==> (#[trigger] nl[x] == n) || l.contains(nl[x])) by {
        assert forall|x: int| 0 <= x < nl.len() implies (#[trigger] nl[x] == n) || l.contains(nl[x]) by {
            if x < pos {
                assert(nl[x] == l[x]);
            } else if x > pos {
                assert(nl[(x - 1) + 1] == l[x - 1]);
            }
        }
    }
    assert(nl.no_duplicates()) by {
        assert forall|x: int, y: int| 0 <= x < nl.len() && 0 <= y < nl.len() && x != y implies nl[x] != nl[y] by {
            if x == pos {
                assert(l.contains(nl[y]));
            } else if y == pos {
                assert(l.contains(nl[x]));
            } else {
                let xi = if x < pos { x } else { x - 1 };
                let yi = if y < pos { y } else { y - 1 };
                if x > pos {
                    assert(nl[(x - 1) + 1] == l[x - 1]);
                }
                if y > pos {
                    assert(nl[(y - 1) + 1] == l[y - 1]);
                }
                assert(nl[x] == l[xi] && nl[y] == l[yi]);
            }
        }
    }
    assert forall|k: i32| #[trigger] w.has(k) implies w.pages[k].children.no_duplicates() by {
        assert(v.has(k));
        if parent == Some(k) {
            assert(w.pages[k].children == nl);
        } else if k == n {
            assert(w.pages[n].children.len() == 0);
        } else {
            assert(w.pages[k].children == v.pages[k].children);
        }
    }
    assert forall|k: i32, j: int| w.has(k) && 0 <= j < w.pages[k].children.len() implies w.has(#[trigger] w.pages[k].children[j]) by {
        assert(v.has(k));
        if parent == Some(k) {
            assert(w.pages[k].children == nl);
            if nl[j] != n {
                let t = choose|t: int| 0 <= t < l.len() && l[t] == nl[j];
                assert(v.has(v.pages[k].children[t]));
            }
        } else if k != n {
            assert(w.pages[k].children == v.pages[k].children);
            assert(v.has(v.pages[k].children[j]));
        }
    }
    assert forall|k: i32, j: int|
        w.has(k) && 0 <= j < w.pages[k].children.len() && w.has(#[trigger] w.pages[k].children[j]) implies w.pages[w.pages[k].children[j]].parent
            == Some(k) by {
        assert(v.has(k));
        let c = w.pages[k].children[j];
        if parent == Some(k) {
            assert(w.pages[k].children == nl);
            if c != n {
                let t = choose|t: int| 0 <= t < l.len() && l[t] == c;
                assert(v.pages[k].children[t] == c);
                assert(v.has(c));
            }
        } else if k != n {
            assert(w.pages[k].children == v.pages[k].children);
            assert(v.has(c));
            assert(v.pages[k].children.contains(c));
            assert(c != n);
        }
    }
    assert forall|j: int| 0 <= j < w.roots.len() implies w.has(#[trigger] w.roots[j]) by {
        if parent is None {
            assert(w.roots == nl);
            if nl[j] != n {
                let t = choose|t: int| 0 <= t < l.len() && l[t] == nl[j];
                assert(v.has(v.roots[t]));
            }
        } else {
            assert(w.roots == v.roots);
            assert(v.has(v.roots[j]));
        }
    }
    assert forall|j: int| 0 <= j < w.roots.len() && w.has(#[trigger] w.roots[j]) implies w.pages[w.roots[j]].parent is None by {
        if parent is None {
            assert(w.roots == nl);
            if nl[j] != n {
                let t = choose|t: int| 0 <= t < l.len() && l[t] == nl[j];
                assert(v.has(v.roots[t]));
            }
        } else {
            assert(w.roots == v.roots);
            assert(v.has(v.roots[j]));
            assert(v.roots.contains(v.roots[j]));
            assert(v.roots[j] != n);
        }
    }
    assert(w.roots.no_duplicates()) by {
        if parent is None {
            assert(w.roots == nl);
        } else {
            assert(w.roots == v.roots);
        }
    }
}

/// Duplicating a page keeps the links agreeing and every list naming pages:
/// the copy's root joins its original's list, and every copy lists the
/// copies that hang under it.
pub proof fn lemma_tree_kept_by_duplicate(v: WorkspaceView, id: i32)
    requires
        links_agree(v),
        names_pages(v),
        v.pages.dom().finite(),
        forall|k: i32| #[trigger] v.has(k) ==> 0 <= k < v.next_id,
        v.has(id),
        v.can_duplicate(id),
    ensures
        links_agree(v.duplicated(id)),
        names_pages(v.duplicated(id)),
{
    let m = v.pages;
    let b = v.next_id;
    let bi = b as i32;
    let src = m[id];
    let par = src.parent;
    assert(!v.has(bi));
    vstd::set::axiom_set_contains_len(m.dom(), id);
    let fuel = (v.size() - 1) as nat;
    assert(dfs(m, seq![id], v.size()) == seq![id] + dfs(m, src.children, fuel) + dfs(m, seq![id].drop_first(), v.size()));
    let v0 = WorkspaceView { pages: m.insert(bi, v.copy_root(id, bi)), next_id: b + 1, ..v };
    // the fresh root hangs nowhere yet
    assert(links_agree(v0) && names_pages(v0)) by {
        assert forall|k: i32| #[trigger] v0.has(k) implies v0.pages[k].children.no_duplicates() by {
            if k != bi {
                assert(v.has(k));
            }
        }
        assert forall|k: i32, j: int| v0.has(k) && 0 <= j < v0.pages[k].children.len() implies v0.has(#[trigger] v0.pages[k].children[j]) by {
            if k != bi {
                assert(v.has(v.pages[k].children[j]));
            }
        }
        assert forall|k: i32, j: int|
            v0.has(k) && 0 <= j < v0.pages[k].children.len() && v0.has(#[trigger] v0.pages[k].children[j]) implies v0.pages[v0.pages[k].children[j]].parent
                == Some(k) by {
            if k != bi {
                assert(v.has(v.pages[k].children[j]));
            }
        }
        assert forall|j: int| 0 <= j < v0.roots.len() implies v0.has(#[trigger] v0.roots[j]) by {
            assert(v.has(v.roots[j]));
        }
        assert forall|j: int| 0 <= j < v0.roots.len() && v0.has(#[trigger] v0.roots[j]) implies v0.pages[v0.roots[j]].parent is None by {
            assert(v.has(v.roots[j]));
        }
    }
    assert(!v0.roots.contains(bi)) by {
        if v0.roots.contains(bi) {
            let j = choose|j: int| 0 <= j < v0.roots.len() && v0.roots[j] == bi;
            assert(v.has(v.roots[j]));
        }
    }
    assert forall|k: i32| #[trigger] v0.has(k) implies !v0.pages[k].children.contains(bi) by {
        if k != bi && v0.pages[k].children.contains(bi) {
            let j = choose|j: int| 0 <= j < v0.pages[k].children.len() && v0.pages[k].children[j] == bi;
            assert(v.has(v.pages[k].children[j]));
        }
    }
    assert(v.parent_of(id) == par);
    lemma_attach_fresh(v0, bi, par, Some(id));
    let v1 = v0.attached(bi, par, Some(id));
    assert(v1.pages.dom() =~= m.dom().insert(bi)) by {
        match par {
            Some(q) => {
                assert(v.has(q));
            },
            None => {},
        }
    }
    assert(v1.pages[bi].children.len() == 0) by {
        match par {
            Some(q) => {
                assert(q != bi);
            },
            None => {},
        }
    }
    // the copies below the root
    let base = b + 1;
    lemma_copy_len(m, src.children, bi, base, fuel);
    lemma_copy_links(m, src.children, bi, base, fuel);
    let cs = copy_seq(m, src.children, bi, base, fuel);
    let ts = tops(m, src.children, base, fuel);
    let w = v.duplicated(id);
    let root = PageView { children: v1.pages[bi].children + ts, ..v1.pages[bi] };
    assert(root.children =~= ts);
    assert(w.pages == v1.pages.insert(bi, root).union_prefer_right(seq_map(cs, base)));
    assert(w.roots == v1.roots);
    assert(ts.no_duplicates()) by {
        assert forall|x: int, y: int| 0 <= x < ts.len() && 0 <= y < ts.len() && x != y implies ts[x] != ts[y] by {
            if x < y {
                assert(ts[x] < ts[y]);
            } else {
                assert(ts[y] < ts[x]);
            }
        }
    }
    // where a page of the result comes from
    assert forall|k: i32| #[trigger] w.has(k) implies (base <= k < base + cs.len() && w.pages[k] == cs[k - base])
        || (k == bi && w.pages[k] == root) || (k < bi && v1.has(k) && w.pages[k] == v1.pages[k]) by {
        if base <= k < base + cs.len() {
        } else if k == bi {
        } else {
            assert(!seq_map(cs, base).contains_key(k));
            assert(v1.pages.insert(bi, root).contains_key(k));
            assert(v1.has(k));
            assert(v.has(k));
            assert(w.pages[k] == v1.pages.insert(bi, root)[k]);
        }
    }
    assert forall|k: i32| #[trigger] v1.has(k) implies w.has(k) by {
        if base <= k < base + cs.len() {
        } else {
        }
    }
    assert forall|k: i32| #[trigger] w.has(k) implies w.pages[k].children.no_duplicates() by {
        if base <= k < base + cs.len() {
            let i = k - base;
            assert forall|x: int, y: int| 0 <= x < cs[i].children.len() && 0 <= y < cs[i].children.len() && x != y
                implies cs[i].children[x] != cs[i].children[y] by {
                if x < y {
                    assert(cs[i].children[x] < cs[i].children[y]);
                } else {
                    assert(cs[i].children[y] < cs[i].children[x]);
                }
            }
        } else if k != bi {
            assert(v1.has(k));
        }
    }
    assert forall|k: i32, j: int| w.has(k) && 0 <= j < w.pages[k].children.len() implies w.has(#[trigger] w.pages[k].children[j])
        && w.pages[w.pages[k].children[j]].parent == Some(k) by {
        let c = w.pages[k].children[j];
        if base <= k < base + cs.len() {
            let i = k - base;
            assert(cs[i].children[j] == c);
            assert(base <= c < base + cs.len());
            assert(w.pages[c] == cs[c - base]);
            assert((base + i) as i32 == k);
        } else if k == bi {
            assert(c == ts[j]);
            assert(base <= c < base + cs.len());
            assert(w.pages[c] == cs[c - base]);
        } else {
            assert(v1.has(k));
            assert(v1.pages[k].children[j] == c);
            assert(v1.has(c));
            if c != bi {
                assert(v.has(c));
            }
            assert(c <= bi);
            if c == bi {
                assert(w.pages[c].parent == v1.pages[bi].parent);
            } else {
                assert(w.pages[c] == v1.pages[c]);
            }
        }
    }
    assert forall|j: int| 0 <= j < w.roots.len() implies w.has(#[trigger] w.roots[j]) && w.pages[w.roots[j]].parent is None by {
        let r = w.roots[j];
        assert(v1.roots[j] == r);
        assert(v1.has(r));
        if r == bi {
            assert(w.pages[r].parent == v1.pages[bi].parent);
        } else {
            assert(v.has(r));
            assert(!seq_map(cs, base).contains_key(r));
            assert(w.pages[r] == v1.pages[r]);
        }
    }
}


// ─── the tree rows are the depth-first order, filtered ──────────────────────

/// The depth-first walk over `ids` with each page's depth below the walk's
/// start (`depth` for `ids` themselves).
pub open spec fn walk(m: Map<i32, PageView>, ids: Seq<i32>, depth: int, fuel: nat) -> Seq<(i32, int)>
    decreases fuel, ids.len(),
{
    if fuel == 0 || ids.len() == 0 {
        Seq::empty()
    } else if m.contains_key(ids[0]) {
        seq![(ids[0], depth)] + walk(m, m[ids[0]].children, depth + 1, (fuel - 1) as nat) + walk(m, ids.drop_first(), depth, fuel)
    } else {
        walk(m, ids.drop_first(), depth, fuel)
    }
}

/// The `k` nearest ancestors of `x` (one, two, … parent links up) are pages
/// and expanded.
pub open spec fn open_above(m: Map<i32, PageView>, x: i32, k: int) -> bool {
    forall|j: int| 1 <= j <= k ==> match #[trigger] up(m, x, j as nat) {
        Some(a) => m.contains_key(a) && m[a].expanded,
        None => false,
    }
}

/// A child a page lists, when it is a page, names that page as its parent.
spec fn children_link(m: Map<i32, PageView>) -> bool {
    forall|k: i32, i: int|
        m.contains_key(k) && 0 <= i < m[k].children.len() && m.contains_key(#[trigger] m[k].children[i]) ==> m[m[k].children[i]].parent == Some(k)
}

proof fn lemma_walk_ids(m: Map<i32, PageView>, ids: Seq<i32>, depth: int, fuel: nat)
    ensures
        walk(m, ids, depth, fuel).map_values(|t: (i32, int)| t.0) == dfs(m, ids, fuel),
    decreases fuel, ids.len(),
{
    if fuel > 0 && ids.len() > 0 {
        lemma_walk_ids(m, ids.drop_first(), depth, fuel);
        if m.contains_key(ids[0]) {
            lemma_walk_ids(m, m[ids[0]].children, depth + 1, (fuel - 1) as nat);
            let a = seq![(ids[0], depth)];
            let b = walk(m, m[ids[0]].children, depth + 1, (fuel - 1) as nat);
            let c = walk(m, ids.drop_first(), depth, fuel);
            assert((a + b + c).map_values(|t: (i32, int)| t.0) =~= seq![ids[0]] + b.map_values(|t: (i32, int)| t.0)
                + c.map_values(|t: (i32, int)| t.0));
        }
    }
}

/// Each page the walk over `ids` visits lies, as many parent links up as its
/// depth below the start, on one of `ids`.
proof fn lemma_walk_up(m: Map<i32, PageView>, ids: Seq<i32>, depth: int, fuel: nat)
    requires
        children_link(m),
    ensures
        forall|i: int| 0 <= i < walk(m, ids, depth, fuel).len() ==> (#[trigger] walk(m, ids, depth, fuel)[i]).1 >= depth && match up(
            m,
            walk(m, ids, depth, fuel)[i].0,
            (walk(m, ids, depth, fuel)[i].1 - depth) as nat,
        ) {
            Some(y) => ids.contains(y) && m.contains_key(y),
            None => false,
        },
    decreases fuel, ids.len(),
{
    if fuel > 0 && ids.len() > 0 {
        let w = walk(m, ids, depth, fuel);
        let rest = ids.drop_first();
        lemma_walk_up(m, rest, depth, fuel);
        let c = walk(m, rest, depth, fuel);
        if m.contains_key(ids[0]) {
            let k = ids[0];
            let kids = m[k].children;
            lemma_walk_up(m, kids, depth + 1, (fuel - 1) as nat);
            let b = walk(m, kids, depth + 1, (fuel - 1) as nat);
            assert(w == seq![(k, depth)] + b + c);
            assert forall|i: int| 0 <= i < w.len() implies (#[trigger] w[i]).1 >= depth && match up(m, w[i].0, (w[i].1 - depth) as nat) {
                Some(y) => ids.contains(y) && m.contains_key(y),
                None => false,
            } by {
                if i == 0 {
                    assert(ids.contains(ids[0]));
                } else if i < 1 + b.len() {
                    let t = b[i - 1];
                    assert(w[i] == t);
                    let n = (t.1 - depth - 1) as nat;
                    let y = up(m, t.0, n)->0;
                    let j = choose|j: int| 0 <= j < kids.len() && kids[j] == y;
                    assert(m[kids[j]].parent == Some(k));
                    lemma_up_compose(m, t.0, n, 1);
                    assert((t.1 - depth) as nat == n + 1);
                    assert(up(m, k, 0) == Some(k));
                    assert(up(m, y, 1) == Some(k));
                    assert(ids.contains(ids[0]));
                } else {
                    let t = c[i - 1 - b.len()];
                    assert(w[i] == t);
                    let y = up(m, t.0, (t.1 - depth) as nat)->0;
                    let j = choose|j: int| 0 <= j < rest.len() && rest[j] == y;
                    assert(ids[j + 1] == y);
                }
            }
        } else {
            assert(w == c);
            assert forall|i: int| 0 <= i < w.len() implies (#[trigger] w[i]).1 >= depth && match up(m, w[i].0, (w[i].1 - depth) as nat) {
                Some(y) => ids.contains(y) && m.contains_key(y),
                None => false,
            } by {
                let y = up(m, w[i].0, (w[i].1 - depth) as nat)->0;
                let j = choose|j: int| 0 <= j < rest.len() && rest[j] == y;
                assert(ids[j + 1] == y);
            }
        }
    }
}

/// Filtering by two tests that agree on every element gives the same result.
proof fn lemma_filter_agree<A>(s: Seq<A>, p: spec_fn(A) -> bool, q: spec_fn(A) -> bool)
    requires
        forall|i: int| 0 <= i < s.len() ==> p(#[trigger] s[i]) == q(s[i]),
    ensures
        s.filter(p) == s.filter(q),
    decreases s.len(),
{
    reveal(Seq::filter);
    if s.len() > 0 {
        lemma_filter_agree(s.drop_last(), p, q);
        assert(p(s[s.len() - 1]) == q(s[s.len() - 1]));
    }
}

/// Below a page `k`, a page is kept from `k`'s level when `k` is expanded and
/// the page is kept from the level of `k`'s children.
proof fn lemma_open_below(m: Map<i32, PageView>, k: i32, depth: int, f1: nat)
    requires
        children_link(m),
        m.contains_key(k),
    ensures
        forall|i: int| 0 <= i < walk(m, m[k].children, depth + 1, f1).len() ==> open_above(
            m,
            (#[trigger] walk(m, m[k].children, depth + 1, f1)[i]).0,
            walk(m, m[k].children, depth + 1, f1)[i].1 - depth,
        ) == (m[k].expanded && open_above(m, walk(m, m[k].children, depth + 1, f1)[i].0, walk(m, m[k].children, depth + 1, f1)[i].1 - (depth + 1))),
{
    let kids = m[k].children;
    let pk = m[k];
    let b = walk(m, kids, depth + 1, f1);
    let pd = |t: (i32, int)| open_above(m, t.0, t.1 - depth);
    let pd1 = |t: (i32, int)| open_above(m, t.0, t.1 - (depth + 1));
    lemma_walk_up(m, kids, depth + 1, f1);
    assert forall|i: int| 0 <= i < b.len() implies pd(#[trigger] b[i]) == (pk.expanded && pd1(b[i])) by {
        let t = b[i];
        let n = (t.1 - depth - 1) as nat;
        let y = up(m, t.0, n)->0;
        let j = choose|j: int| 0 <= j < kids.len() && kids[j] == y;
        assert(m[kids[j]].parent == Some(k));
        lemma_up_compose(m, t.0, n, 1);
        assert(up(m, k, 0) == Some(k));
        assert(up(m, y, 1) == Some(k));
        assert(up(m, t.0, (n + 1) as nat) == Some(k));
        if pd(t) {
            assert(up(m, t.0, (n + 1) as nat) == up(m, t.0, ((t.1 - depth) as int) as nat));
            assert forall|jj: int| 1 <= jj <= t.1 - (depth + 1) implies match #[trigger] up(m, t.0, jj as nat) {
                Some(a) => m.contains_key(a) && m[a].expanded,
                None => false,
            } by {
                assert(1 <= jj <= t.1 - depth);
            }
        }
        if pk.expanded && pd1(t) {
            assert forall|jj: int| 1 <= jj <= t.1 - depth implies match #[trigger] up(m, t.0, jj as nat) {
                Some(a) => m.contains_key(a) && m[a].expanded,
                None => false,
            } by {
                if jj == t.1 - depth {
                    assert(jj as nat == n + 1);
                } else {
                    assert(1 <= jj <= t.1 - (depth + 1));
                }
            }
        }
    }
}

/// The rows under `ids` at `depth`, as (id, depth) pairs, are the walk over
/// `ids` kept to the pages whose ancestors between them and the start are
/// all expanded.
#[verifier::spinoff_prover]
#[verifier::rlimit(40)]
proof fn lemma_rows_are_open_walk(m: Map<i32, PageView>, ids: Seq<i32>, depth: int, fuel: nat)
    requires
        children_link(m),
    ensures
        rows(m, ids, depth, fuel).map_values(|r: RowView| (r.id, r.depth)) == walk(m, ids, depth, fuel).filter(
            |t: (i32, int)| open_above(m, t.0, t.1 - depth),
        ),
    decreases fuel, ids.len(),
{
    let pd = |t: (i32, int)| open_above(m, t.0, t.1 - depth);
    let pair = |r: RowView| (r.id, r.depth);
    if fuel > 0 && ids.len() > 0 {
        let rest = ids.drop_first();
        lemma_rows_are_open_walk(m, rest, depth, fuel);
        let c = walk(m, rest, depth, fuel);
        let rc = rows(m, rest, depth, fuel);
        if m.contains_key(ids[0]) {
            let k = ids[0];
            let pk = m[k];
            let kids = pk.children;
            let f1 = (fuel - 1) as nat;
            let pd1 = |t: (i32, int)| open_above(m, t.0, t.1 - (depth + 1));
            lemma_rows_are_open_walk(m, kids, depth + 1, f1);
            let b = walk(m, kids, depth + 1, f1);
            let rb = rows(m, kids, depth + 1, f1);
            let a = seq![(k, depth)];
            let head = seq![RowView { id: k, label: pk.title, depth, expanded: pk.expanded, has_children: kids.len() > 0 }];
            let mid = if pk.expanded { rb } else { Seq::<RowView>::empty() };
            assert(rows(m, ids, depth, fuel) == head + mid + rc);
            assert(walk(m, ids, depth, fuel) == a + b + c);
            assert((head + mid + rc).map_values(pair) =~= head.map_values(pair) + mid.map_values(pair) + rc.map_values(pair));
            Seq::filter_distributes_over_add(a + b, c, pd);
            Seq::filter_distributes_over_add(a, b, pd);
            assert(a.filter(pd) == a) by {
                reveal(Seq::filter);
                assert(a.drop_last() =~= Seq::<(i32, int)>::empty());
                assert(pd(a[0]));
                assert(a.drop_last().filter(pd) =~= Seq::<(i32, int)>::empty());
            }
            assert(head.map_values(pair) =~= a);
            lemma_open_below(m, k, depth, f1);
            assert forall|i: int| 0 <= i < b.len() implies pd(#[trigger] b[i]) == (pk.expanded && pd1(b[i])) by {
                assert(open_above(m, b[i].0, b[i].1 - depth) == (m[k].expanded && open_above(m, b[i].0, b[i].1 - (depth + 1))));
            }
            if pk.expanded {
                lemma_filter_agree(b, pd, pd1);
            } else {
                lemma_filter_agree(b, pd, |t: (i32, int)| false);
                assert(b.filter(|t: (i32, int)| false).len() == 0) by {
                    b.lemma_filter_len(|t: (i32, int)| false);
                    if b.filter(|t: (i32, int)| false).len() > 0 {
                        b.lemma_filter_pred(|t: (i32, int)| false, 0);
                    }
                }
                assert(mid.map_values(pair) =~= b.filter(pd));
            }
        } else {
            assert(rows(m, ids, depth, fuel) == rc);
            assert(walk(m, ids, depth, fuel) == c);
        }
    } else {
        reveal(Seq::filter);
        assert(rows(m, ids, depth, fuel).map_values(pair) =~= Seq::<(i32, int)>::empty());
    }
}

/// The tree rows (what `tree_rows` returns) are the depth-first order (what
/// `dfs_order` returns) kept to the pages whose every ancestor is expanded,
/// in the same order; each row's depth is its page's number of ancestors:
/// that many parent links up from the page lies a root, a page with no
/// parent. This holds whenever the parent links and the children lists
/// agree.
pub proof fn lemma_tree_rows_filter_order(v: WorkspaceView)
    requires
        links_agree(v),
    ensures
        walk(v.pages, v.roots, 0, v.size()).map_values(|t: (i32, int)| t.0) == v.order(),
        forall|i: int| 0 <= i < walk(v.pages, v.roots, 0, v.size()).len() ==> match up(
            v.pages,
            (#[trigger] walk(v.pages, v.roots, 0, v.size())[i]).0,
            walk(v.pages, v.roots, 0, v.size())[i].1 as nat,
        ) {
            Some(r) => v.has(r) && v.pages[r].parent is None,
            None => false,
        },
        rows(v.pages, v.roots, 0, v.size()).map_values(|r: RowView| (r.id, r.depth)) == walk(v.pages, v.roots, 0, v.size()).filter(
            |t: (i32, int)| open_above(v.pages, t.0, t.1),
        ),
{
    let m = v.pages;
    let n = v.size();
    let w = walk(m, v.roots, 0, n);
    lemma_walk_ids(m, v.roots, 0, n);
    lemma_walk_up(m, v.roots, 0, n);
    lemma_rows_are_open_walk(m, v.roots, 0, n);
    assert forall|i: int| 0 <= i < w.len() implies match up(m, (#[trigger] w[i]).0, w[i].1 as nat) {
        Some(r) => v.has(r) && v.pages[r].parent is None,
        None => false,
    } by {
        assert((w[i].1 - 0) as nat == w[i].1 as nat);
        let r = up(m, w[i].0, w[i].1 as nat)->0;
        let j = choose|j: int| 0 <= j < v.roots.len() && v.roots[j] == r;
        assert(v.has(v.roots[j]));
    }
    assert((|t: (i32, int)| open_above(m, t.0, t.1 - 0)) =~= (|t: (i32, int)| open_above(m, t.0, t.1)));
}

/// The depth-first order starts at the first root (what `first_root`
/// returns), and is empty when there is no root, whenever every root is a
/// page.
pub proof fn lemma_order_starts_at_first_root(v: WorkspaceView)
    requires
        names_pages(v),
        v.pages.dom().finite(),
    ensures
        v.roots.len() > 0 ==> v.order().len() > 0 && v.order()[0] == v.roots[0],
        v.roots.len() == 0 ==> v.order().len() == 0,
{
    if v.roots.len() > 0 {
        assert(v.has(v.roots[0]));
        vstd::set::axiom_set_contains_len(v.pages.dom(), v.roots[0]);
        let d = v.order();
        assert(d == seq![v.roots[0]] + dfs(v.pages, v.pages[v.roots[0]].children, (v.size() - 1) as nat) + dfs(v.pages, v.roots.drop_first(), v.size()));
    }
}

/// In a tree whose links agree, a delete removes as many pages as
/// `subtree_size` counts whenever no chain of parent links leads from the
/// page back to itself.
pub proof fn lemma_delete_counts_subtree_off_cycle(v: WorkspaceView, id: i32)
    requires
        links_agree(v),
        v.pages.dom().finite(),
        v.has(id),
        v.parent_of(id) matches Some(q) ==> v.has(q),
        off_cycle(v.pages, id),
    ensures
        v.detached(id).subtree(id) == v.subtree(id),
{
    if let Some(q) = v.parent_of(id) {
        if v.subtree(id).contains(q) {
            lemma_walk_below(v, seq![id], v.size(), q);
            let (i, n) = choose|i: int, n: nat| 0 <= i < seq![id].len() && v.has(#[trigger] seq![id][i]) && #[trigger] up(v.pages, q, n) == Some(seq![id][i]);
            assert(up(v.pages, q, n) == Some(id));
            assert(up(v.pages, q, 0) == Some(q));
            assert(up(v.pages, id, 1) == Some(q));
            lemma_up_compose(v.pages, id, 1, n);
            assert(up(v.pages, id, 1 + n) == Some(id));
            assert(false);
        }
    }
    lemma_delete_counts_subtree(v, id);
}

/// No list (the roots or a page's children) names a template page.
pub open spec fn lists_no_template(v: WorkspaceView) -> bool {
    &&& forall|i: int| 0 <= i < v.roots.len() && v.has(#[trigger] v.roots[i]) ==> !v.pages[v.roots[i]].template
    &&& forall|k: i32, i: int|
        v.has(k) && 0 <= i < v.pages[k].children.len() && v.has(#[trigger] v.pages[k].children[i]) ==> !v.pages[v.pages[k].children[i]].template
}

/// When no list names a template, the depth-first order (what `dfs_order`
/// returns) lists no template: it reaches only pages that a list names.
pub proof fn lemma_order_lists_no_template(v: WorkspaceView)
    requires
        lists_no_template(v),
    ensures
        forall|i: int| 0 <= i < v.order().len() ==> v.has(#[trigger] v.order()[i]) && !v.pages[v.order()[i]].template,
{
    let d = v.order();
    crate::workspace::lemma_dfs_keys(v.pages, v.roots, v.size());
    assert forall|i: int| 0 <= i < d.len() implies v.has(#[trigger] d[i]) && !v.pages[d[i]].template by {
        let x = d[i];
        assert(d.contains(x));
        lemma_walk_lister(v.pages, v.roots, v.size(), x);
        if v.roots.contains(x) {
            let j = choose|j: int| 0 <= j < v.roots.len() && v.roots[j] == x;
            assert(v.has(v.roots[j]));
        } else {
            let k = choose|k: i32| #[trigger] d.contains(k) && v.pages.contains_key(k) && v.pages[k].children.contains(x);
            let j = choose|j: int| 0 <= j < v.pages[k].children.len() && v.pages[k].children[j] == x;
            assert(v.has(v.pages[k].children[j]));
        }
    }
}

/// The favorites (what `favorites` lists) are the depth-first order kept to
/// the pages whose favorite flag is set, whatever their depth: a starred
/// page reachable in the tree is listed, nothing else is, in tree order.
pub proof fn lemma_favorites_are_starred_order(v: WorkspaceView)
    ensures
        v.favorite_ids() == v.order().filter(|k: i32| v.pages[k].favorite),
        forall|x: i32| #[trigger] v.favorite_ids().contains(x) <==> (v.order().contains(x) && v.pages[x].favorite),
{
    let d = v.order();
    crate::workspace::lemma_dfs_keys(v.pages, v.roots, v.size());
    let p = |k: i32| v.pages[k].favorite;
    lemma_filter_agree(d, v.is_favorite(), p);
    assert forall|x: i32| #[trigger] v.favorite_ids().contains(x) <==> (d.contains(x) && v.pages[x].favorite) by {
        if d.filter(p).contains(x) {
            d.lemma_filter_contains_rev(p, x);
            let i = choose|i: int| 0 <= i < d.filter(p).len() && d.filter(p)[i] == x;
            d.lemma_filter_pred(p, i);
        }
        if d.contains(x) && v.pages[x].favorite {
            let i = choose|i: int| 0 <= i < d.len() && d[i] == x;
            d.lemma_filter_contains(p, i);
        }
    }
}

/// A search hit names a page whose title matches the query.
pub open spec fn title_hit(v: WorkspaceView, q: Seq<char>, h: HitView) -> bool {
    crate::text::find_ci_spec(v.pages[h.id].title, q) is Some
}

/// What a scan keeps: title hits carry no snippet, content hits are pages
/// whose title does not match but whose text does; every hit carries its
/// page's title.
spec fn scan_parts(v: WorkspaceView, q: Seq<char>, t: Seq<HitView>, c: Seq<HitView>) -> bool {
    &&& forall|i: int| 0 <= i < t.len() ==> title_hit(v, q, #[trigger] t[i]) && t[i].snippet.len() == 0 && t[i].title == v.pages[t[i].id].title
    &&& forall|i: int| 0 <= i < c.len() ==> !title_hit(v, q, #[trigger] c[i]) && crate::text::find_ci_spec(v.pages[c[i].id].search_text, q) is Some
        && c[i].title == v.pages[c[i].id].title
}

proof fn lemma_scan_parts(v: WorkspaceView, ids: Seq<i32>, q: Seq<char>, t: Seq<HitView>, c: Seq<HitView>)
    requires
        scan_parts(v, q, t, c),
    ensures
        scan_parts(v, q, v.search_scan(ids, q, t, c).0, v.search_scan(ids, q, t, c).1),
    decreases ids.len(),
{
    if ids.len() > 0 {
        let (t2, c2) = v.search_step(ids[0], q, t, c);
        assert(scan_parts(v, q, t2, c2)) by {
            assert forall|i: int| 0 <= i < t2.len() implies title_hit(v, q, #[trigger] t2[i]) && t2[i].snippet.len() == 0 && t2[i].title
                == v.pages[t2[i].id].title by {
                if i < t.len() {
                    assert(t2[i] == t[i]);
                }
            }
            assert forall|i: int| 0 <= i < c2.len() implies !title_hit(v, q, #[trigger] c2[i]) && crate::text::find_ci_spec(
                v.pages[c2[i].id].search_text,
                q,
            ) is Some && c2[i].title == v.pages[c2[i].id].title by {
                if i < c.len() {
                    assert(c2[i] == c[i]);
                }
            }
        }
        if t2.len() + c2.len() < MAX_HITS {
            lemma_scan_parts(v, ids.drop_first(), q, t2, c2);
        }
    }
}

/// A search for a non-blank query answers its title hits before its
/// content hits: a hit whose page title matches the query never follows one
/// whose title does not. A title hit carries no snippet; any other hit is a
/// page whose text matches; every hit carries its page's title.
pub proof fn lemma_search_titles_first(v: WorkspaceView, query: Seq<char>)
    requires
        crate::text::trim(query).len() > 0,
    ensures
        ({
            let q = crate::text::trim(query);
            let r = v.search_result(query);
            &&& forall|i: int, j: int| 0 <= i < j < r.len() && title_hit(v, q, #[trigger] r[j]) ==> title_hit(v, q, #[trigger] r[i])
            &&& forall|i: int| 0 <= i < r.len() && title_hit(v, q, #[trigger] r[i]) ==> r[i].snippet.len() == 0
            &&& forall|i: int| 0 <= i < r.len() && !title_hit(v, q, #[trigger] r[i]) ==> crate::text::find_ci_spec(v.pages[r[i].id].search_text, q) is Some
            &&& forall|i: int| 0 <= i < r.len() ==> (#[trigger] r[i]).title == v.pages[r[i].id].title
        }),
{
    let q = crate::text::trim(query);
    lemma_scan_parts(v, v.order(), q, Seq::empty(), Seq::empty());
    let (t, c) = v.search_scan(v.order(), q, Seq::empty(), Seq::empty());
    let r = v.search_result(query);
    assert(r == t + c);
    assert forall|i: int| 0 <= i < r.len() implies (title_hit(v, q, #[trigger] r[i]) <==> i < t.len())
        && (i < t.len() ==> r[i] == t[i]) && (i >= t.len() ==> r[i] == c[i - t.len()]) by {
        if i < t.len() {
            assert(r[i] == t[i]);
        } else {
            assert(r[i] == c[i - t.len()]);
        }
    }
}

/// The recents list (what `recents` lists) is the recently opened ids that
/// are still pages, most recent first: an id is there exactly when it was
/// opened and its page still exists.
pub proof fn lemma_recents_are_live_pages(v: WorkspaceView)
    ensures
        v.known_recents() == v.recents.filter(|k: i32| v.pages.contains_key(k)),
        forall|x: i32| #[trigger] v.known_recents().contains(x) <==> (v.recents.contains(x) && v.has(x)),
{
    let p = |k: i32| v.pages.contains_key(k);
    assert(v.is_page() =~= p);
    let r = v.recents;
    assert forall|x: i32| #[trigger] v.known_recents().contains(x) <==> (r.contains(x) && v.has(x)) by {
        if r.filter(p).contains(x) {
            r.lemma_filter_contains_rev(p, x);
            let i = choose|i: int| 0 <= i < r.filter(p).len() && r.filter(p)[i] == x;
            r.lemma_filter_pred(p, i);
        }
        if r.contains(x) && v.has(x) {
            let i = choose|i: int| 0 <= i < r.len() && r[i] == x;
            r.lemma_filter_contains(p, i);
        }
    }
}

/// A search for a blank query lists the recents that are still pages, most
/// recent first, `MAX_HITS` at most, each with its page's title and no
/// snippet.
pub proof fn lemma_blank_search_lists_recents(v: WorkspaceView, query: Seq<char>)
    requires
        crate::text::trim(query).len() == 0,
    ensures
        ({
            let r = v.search_result(query);
            let live = v.recents.filter(|k: i32| v.pages.contains_key(k));
            &&& r.len() == if live.len() > MAX_HITS { MAX_HITS as nat } else { live.len() }
            &&& forall|i: int| 0 <= i < r.len() ==> (#[trigger] r[i]).id == live[i] && r[i].title == v.pages[live[i]].title && r[i].snippet.len() == 0
        }),
{
    lemma_recents_are_live_pages(v);
}

/// `x` is among the first `n` ids of `o`.
spec fn among_first(o: Seq<i32>, n: int, x: i32) -> bool {
    exists|p: int| 0 <= p < n && #[trigger] o[p] == x
}

/// Among the first `n` ids of `o`, `x` comes at a place before `y`.
pub open spec fn before_in(o: Seq<i32>, n: int, x: i32, y: i32) -> bool {
    exists|p: int, q: int| 0 <= p < q < n && #[trigger] o[p] == x && #[trigger] o[q] == y
}

/// The hits of `h` come from the first `n` ids of `o`, in the order of `o`.
spec fn from_prefix(o: Seq<i32>, n: int, h: Seq<HitView>) -> bool {
    &&& forall|a: int| 0 <= a < h.len() ==> among_first(o, n, (#[trigger] h[a]).id)
    &&& forall|a: int, b: int| 0 <= a < b < h.len() ==> before_in(o, n, (#[trigger] h[a]).id, (#[trigger] h[b]).id)
}

proof fn lemma_push_from_prefix(o: Seq<i32>, n: int, h: Seq<HitView>, x: HitView)
    requires
        0 <= n < o.len(),
        from_prefix(o, n, h),
        x.id == o[n],
    ensures
        from_prefix(o, n + 1, h.push(x)),
{
    let h2 = h.push(x);
    assert forall|a: int| 0 <= a < h2.len() implies among_first(o, n + 1, (#[trigger] h2[a]).id) by {
        if a < h.len() {
            assert(h2[a] == h[a]);
            assert(among_first(o, n, h[a].id));
            let p = choose|p: int| 0 <= p < n && #[trigger] o[p] == h[a].id;
            assert(o[p] == h2[a].id);
        } else {
            assert(o[n] == h2[a].id);
        }
    }
    assert forall|a: int, b: int| 0 <= a < b < h2.len() implies before_in(o, n + 1, (#[trigger] h2[a]).id, (#[trigger] h2[b]).id) by {
        assert(h2[a] == h[a]);
        if b < h.len() {
            assert(h2[b] == h[b]);
            assert(before_in(o, n, h[a].id, h[b].id));
            let (p, q) = choose|p: int, q: int| 0 <= p < q < n && #[trigger] o[p] == h[a].id && #[trigger] o[q] == h[b].id;
            assert(o[p] == h2[a].id && o[q] == h2[b].id);
        } else {
            assert(among_first(o, n, h[a].id));
            let p = choose|p: int| 0 <= p < n && #[trigger] o[p] == h[a].id;
            assert(o[p] == h2[a].id && o[n] == h2[b].id);
        }
    }
}

proof fn lemma_widen_prefix(o: Seq<i32>, n: int, h: Seq<HitView>)
    requires
        from_prefix(o, n, h),
    ensures
        from_prefix(o, n + 1, h),
{
    assert forall|a: int| 0 <= a < h.len() implies among_first(o, n + 1, (#[trigger] h[a]).id) by {
        assert(among_first(o, n, h[a].id));
        let p = choose|p: int| 0 <= p < n && #[trigger] o[p] == h[a].id;
        assert(o[p] == h[a].id);
    }
    assert forall|a: int, b: int| 0 <= a < b < h.len() implies before_in(o, n + 1, (#[trigger] h[a]).id, (#[trigger] h[b]).id) by {
        assert(before_in(o, n, h[a].id, h[b].id));
        let (p, q) = choose|p: int, q: int| 0 <= p < q < n && #[trigger] o[p] == h[a].id && #[trigger] o[q] == h[b].id;
        assert(o[p] == h[a].id && o[q] == h[b].id);
    }
}

proof fn lemma_widen_to(o: Seq<i32>, k: int, h: Seq<HitView>)
    requires
        k <= o.len(),
        from_prefix(o, k, h),
    ensures
        from_prefix(o, o.len() as int, h),
    decreases o.len() - k,
{
    if k < o.len() {
        lemma_widen_prefix(o, k, h);
        lemma_widen_to(o, k + 1, h);
    }
}

proof fn lemma_scan_order(v: WorkspaceView, o: Seq<i32>, n: int, q: Seq<char>, t: Seq<HitView>, c: Seq<HitView>)
    requires
        0 <= n <= o.len(),
        from_prefix(o, n, t),
        from_prefix(o, n, c),
    ensures
        from_prefix(o, o.len() as int, v.search_scan(o.skip(n), q, t, c).0),
        from_prefix(o, o.len() as int, v.search_scan(o.skip(n), q, t, c).1),
    decreases o.len() - n,
{
    let ids = o.skip(n);
    if ids.len() == 0 {
        assert(n == o.len());
    } else {
        assert(ids[0] == o[n]);
        let (t2, c2) = v.search_step(ids[0], q, t, c);
        let p = v.pages[o[n]];
        if crate::text::find_ci_spec(p.title, q) is Some {
            lemma_push_from_prefix(o, n, t, t2.last());
            assert(t2 == t.push(t2.last()));
            lemma_widen_prefix(o, n, c);
        } else if crate::text::find_ci_spec(p.search_text, q) is Some {
            lemma_push_from_prefix(o, n, c, c2.last());
            assert(c2 == c.push(c2.last()));
            lemma_widen_prefix(o, n, t);
        } else {
            lemma_widen_prefix(o, n, t);
            lemma_widen_prefix(o, n, c);
        }
        if t2.len() + c2.len() >= MAX_HITS {
            lemma_widen_to(o, n + 1, t2);
            lemma_widen_to(o, n + 1, c2);
        } else {
            assert(ids.drop_first() =~= o.skip(n + 1));
            lemma_scan_order(v, o, n + 1, q, t2, c2);
        }
    }
}

/// A search for a non-blank query lists its title hits in tree order, then
/// its content hits in tree order: two hits of the same kind come in the
/// order their pages take in the depth-first order.
pub proof fn lemma_search_keeps_tree_order(v: WorkspaceView, query: Seq<char>)
    requires
        crate::text::trim(query).len() > 0,
    ensures
        ({
            let q = crate::text::trim(query);
            let r = v.search_result(query);
            let o = v.order();
            forall|i: int, j: int| 0 <= i < j < r.len() && title_hit(v, q, #[trigger] r[i]) == title_hit(v, q, #[trigger] r[j])
                ==> before_in(o, o.len() as int, r[i].id, r[j].id)
        }),
{
    let q = crate::text::trim(query);
    let o = v.order();
    assert(o.skip(0) =~= o);
    lemma_scan_order(v, o, 0, q, Seq::empty(), Seq::empty());
    lemma_search_titles_first(v, query);
    lemma_scan_parts(v, o, q, Seq::empty(), Seq::empty());
    let (t, c) = v.search_scan(o, q, Seq::empty(), Seq::empty());
    let r = v.search_result(query);
    assert(r == t + c);
    assert forall|i: int, j: int| 0 <= i < j < r.len() && title_hit(v, q, #[trigger] r[i]) == title_hit(v, q, #[trigger] r[j])
        implies before_in(o, o.len() as int, r[i].id, r[j].id) by {
        if j < t.len() {
            assert(r[i] == t[i] && r[j] == t[j]);
        } else if i >= t.len() {
            assert(r[i] == c[i - t.len()] && r[j] == c[j - t.len()]);
            assert(before_in(o, o.len() as int, c[i - t.len()].id, c[(j - t.len())].id));
        } else {
            assert(r[i] == t[i] && r[j] == c[j - t.len()]);
            assert(title_hit(v, q, t[i]));
            assert(!title_hit(v, q, c[j - t.len()]));
        }
    }
}

/// Some hit of `h` names page `x`.
pub open spec fn names_page(h: Seq<HitView>, x: i32) -> bool {
    exists|i: int| 0 <= i < h.len() && (#[trigger] h[i]).id == x
}

/// Page `x`'s title or its text matches the (trimmed) query `q`.
pub open spec fn page_matches(v: WorkspaceView, q: Seq<char>, x: i32) -> bool {
    crate::text::find_ci_spec(v.pages[x].title, q) is Some || crate::text::find_ci_spec(v.pages[x].search_text, q) is Some
}

spec fn extends(a: Seq<HitView>, b: Seq<HitView>) -> bool {
    a.len() <= b.len() && forall|i: int| 0 <= i < a.len() ==> #[trigger] b[i] == a[i]
}

proof fn lemma_scan_complete(v: WorkspaceView, ids: Seq<i32>, q: Seq<char>, t: Seq<HitView>, c: Seq<HitView>)
    ensures
        extends(t, v.search_scan(ids, q, t, c).0),
        extends(c, v.search_scan(ids, q, t, c).1),
        v.search_scan(ids, q, t, c).0.len() + v.search_scan(ids, q, t, c).1.len() < MAX_HITS ==> forall|j: int|
            0 <= j < ids.len() && page_matches(v, q, #[trigger] ids[j]) ==> names_page(v.search_scan(ids, q, t, c).0 + v.search_scan(ids, q, t, c).1, ids[j]),
    decreases ids.len(),
{
    if ids.len() > 0 {
        let (t2, c2) = v.search_step(ids[0], q, t, c);
        assert(extends(t, t2) && extends(c, c2));
        if t2.len() + c2.len() < MAX_HITS {
            let rest = ids.drop_first();
            lemma_scan_complete(v, rest, q, t2, c2);
            let (t3, c3) = v.search_scan(rest, q, t2, c2);
            assert(v.search_scan(ids, q, t, c) == (t3, c3));
            assert(extends(t, t3));
            assert(extends(c, c3));
            if t3.len() + c3.len() < MAX_HITS {
                assert forall|j: int| 0 <= j < ids.len() && page_matches(v, q, #[trigger] ids[j]) implies names_page(t3 + c3, ids[j]) by {
                    if j == 0 {
                        if crate::text::find_ci_spec(v.pages[ids[0]].title, q) is Some {
                            let a = t2.len() - 1;
                            assert(t2[a].id == ids[0]);
                            assert(t3[a] == t2[a]);
                            assert((t3 + c3)[a] == t3[a]);
                        } else {
                            let a = c2.len() - 1;
                            assert(c2[a].id == ids[0]);
                            assert(c3[a] == c2[a]);
                            assert((t3 + c3)[t3.len() + a] == c3[a]);
                        }
                    } else {
                        assert(rest[j - 1] == ids[j]);
                    }
                }
            }
        }
    }
}

/// A search for a non-blank query that answers fewer than `MAX_HITS` hits
/// finds every page of the tree whose title or text matches the query.
pub proof fn lemma_search_finds_every_match(v: WorkspaceView, query: Seq<char>)
    requires
        crate::text::trim(query).len() > 0,
    ensures
        v.search_result(query).len() < MAX_HITS ==> forall|j: int|
            0 <= j < v.order().len() && page_matches(v, crate::text::trim(query), #[trigger] v.order()[j]) ==> names_page(v.search_result(query), v.order()[j]),
{
    lemma_scan_complete(v, v.order(), crate::text::trim(query), Seq::empty(), Seq::empty());
}

} // verus!
