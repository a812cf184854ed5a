//! The page tree's laws on concrete trees: a rename read back, the recents
//! discipline, the search cap, and what a delete, a move and a duplicate
//! touch.

use quire::workspace::{Workspace, MAX_HITS};

#[test]
fn a_rename_reads_back_and_touches_nothing_else() {
    let mut w = Workspace::sample();
    let kids_before = w.children_of(Some(105));
    let other = w.title_of(102).map(|s| s.to_string());
    w.rename(105, "Atlas, renamed");
    assert_eq!(w.title_of(105), Some("Atlas, renamed"));
    assert_eq!(w.children_of(Some(105)), kids_before);
    assert_eq!(w.title_of(102).map(|s| s.to_string()), other);
    assert_eq!(w.page_count(), 14);
}

#[test]
fn opening_a_page_again_moves_it_to_the_front_once() {
    let mut w = Workspace::sample();
    w.set_recents(Vec::new());
    w.mark_opened(102);
    w.mark_opened(105);
    w.mark_opened(102);
    let r = w.recents_ids();
    assert_eq!(r, vec![102, 105]);
    assert_eq!(r.iter().filter(|&&id| id == 102).count(), 1);
}

#[test]
fn a_broad_search_stops_at_the_cap() {
    let w = Workspace::with_bench_pages(40);
    let hits = w.search("bench");
    assert_eq!(hits.len(), MAX_HITS);
    assert!(w.search("e").len() <= MAX_HITS);
}

#[test]
fn a_delete_takes_the_subtree_and_nothing_more() {
    let mut w = Workspace::sample();
    w.mark_opened(106);
    let before = w.page_count();
    let size = w.subtree_size(105);
    let removed = w.delete(105);
    assert_eq!(removed[0], 105);
    assert_eq!(removed.len(), size);
    assert_eq!(w.page_count(), before - size);
    assert!(removed.iter().all(|id| !w.contains(*id)));
    assert!(w.contains(102));
    assert!(w.recents_ids().iter().all(|id| !removed.contains(id)));
}

#[test]
fn a_move_keeps_every_page() {
    let mut w = Workspace::sample();
    let before = w.page_count();
    assert!(w.move_page(110, Some(102), None));
    assert_eq!(w.page_count(), before);
    assert!(w.children_of(Some(102)).contains(&110));
    // a refused move changes nothing
    let kids = w.children_of(Some(102));
    assert!(!w.move_page(102, Some(103), None));
    assert_eq!(w.children_of(Some(102)), kids);
}

#[test]
fn a_duplicate_numbers_one_page_per_page_of_the_subtree() {
    let mut w = Workspace::sample();
    let size = w.subtree_size(105);
    let first = w.reserve_page_id();
    let copy = w.duplicate(105).unwrap();
    assert_eq!(copy, first + 1);
    let next = w.reserve_page_id();
    assert_eq!(next, copy + size as i32);
}
