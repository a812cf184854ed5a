//! Rebuilding the tree from stored rows, the template library, the seed
//! rows, the bench pages, and search edges.

use quire::doc::{AttachmentId, OrderKey, Page, PageFont, PageId};
use quire::workspace::{Workspace, MAX_HITS};

fn row(id: u64, parent: Option<u64>, order: u64, title: &str) -> Page {
    Page {
        id: PageId(id),
        title: title.into(),
        parent: parent.map(PageId),
        order: OrderKey(order),
        favorite: false,
        expanded: false,
        font: PageFont::Default,
        full_width: false,
        small_text: false,
        icon: String::new(),
        cover: None,
        locked: false,
        template: false,
    }
}

#[test]
fn stored_rows_rebuild_the_tree_in_key_order() {
    let mut tpl = row(9, None, 0, "Meeting notes");
    tpl.template = true;
    let mut styled = row(3, Some(1), 5, "Kid B");
    styled.font = PageFont::Mono;
    styled.cover = Some(AttachmentId(4));
    let rows = vec![
        row(1, None, 20, "Second root"),
        row(2, None, 10, "First root"),
        styled,
        row(4, Some(1), 5, "Kid A"),
        row(5, Some(1), 1, "Kid 0"),
        tpl,
    ];
    let w = Workspace::from_persisted(&rows);
    assert_eq!(w.children_of(None), vec![2, 1]);
    assert_eq!(w.children_of(Some(1)), vec![5, 3, 4], "order key, then id");
    assert_eq!(w.page_count(), 6);
    assert_eq!(w.visible_page_count(), 5);
    assert!(w.is_template(9));
    assert_eq!(w.dfs_order(), vec![2, 1, 5, 3, 4]);
    assert_eq!(w.page_style(3), Some((PageFont::Mono, false, false)));
    assert_eq!(w.cover_of(3), Some(AttachmentId(4)));
    assert!(w.recents().is_empty());
    // the next page takes the id after the largest
    let mut w = w;
    assert_eq!(w.reserve_page_id(), 10);
}

#[test]
fn an_inserted_row_joins_its_parent_or_replaces_its_id() {
    let mut w = Workspace::sample();
    let id = w.insert_persisted(row(500, Some(105), 0, "Synced"));
    assert_eq!(id, 500);
    assert_eq!(w.children_of(Some(105)), vec![106, 108, 109, 500]);
    assert_eq!(w.reserve_page_id(), 501);
    let mut tpl = row(600, None, 0, "Template");
    tpl.template = true;
    w.insert_persisted(tpl);
    assert!(w.is_template(600));
    assert!(!w.children_of(None).contains(&600));
    // a row with an id already there replaces that page
    w.insert_persisted(row(500, None, 0, "Renamed remotely"));
    assert_eq!(w.title_of(500), Some("Renamed remotely"));
    assert_eq!(*w.children_of(None).last().unwrap(), 500);
}

#[test]
fn templates_list_oldest_first_and_stay_off_the_tree() {
    let mut w = Workspace::sample();
    let b = w.create_template("B template");
    let a = w.create_template("A template");
    assert!(b < a);
    let t = w.templates();
    assert_eq!(t, vec![(b, "B template".to_string()), (a, "A template".to_string())]);
    assert!(w.dfs_order().iter().all(|id| *id != a && *id != b));
    assert_eq!(w.visible_page_count(), 14);
    assert_eq!(w.page_count(), 16);
}

#[test]
fn seed_rows_follow_the_tree_order() {
    let w = Workspace::sample();
    let rows = w.page_seed_rows();
    let ids: Vec<i32> = rows.iter().map(|r| r.0).collect();
    assert_eq!(ids, w.dfs_order());
    let gs = rows.iter().find(|r| r.0 == 103).unwrap();
    assert_eq!(gs.1, "Keyboard Shortcuts");
    assert_eq!(gs.2, Some(102));
    let fav = rows.iter().find(|r| r.0 == 100).unwrap();
    assert!(fav.3);
}

#[test]
fn bench_pages_are_flat_roots_with_padded_titles() {
    let mut w = Workspace::with_bench_pages(3);
    assert_eq!(w.page_count(), 17);
    assert_eq!(w.title_of(114), Some("Bench 000"));
    assert_eq!(w.title_of(116), Some("Bench 002"));
    assert_eq!(w.children_of(None).len(), 10);
    assert_eq!(w.reserve_page_id(), 117);
}

#[test]
fn a_search_stops_at_the_cap_and_an_empty_one_lists_recents() {
    let w = Workspace::with_bench_pages(30);
    let hits = w.search("bench");
    assert_eq!(hits.len(), MAX_HITS);
    assert!(hits.iter().all(|h| h.title.starts_with("Bench") && h.snippet.is_empty()));
    let recent = w.search("   ");
    let ids: Vec<i32> = recent.iter().map(|h| h.id).collect();
    assert_eq!(ids, vec![105, 108]);
    assert_eq!(recent[1].breadcrumb, "Project Atlas");
}
