//! The page tree: the sample, editing, copies, page looks, favorites,
//! recents, search and breadcrumbs.

use quire::doc::{AttachmentId, PageFont};
use quire::workspace::{Workspace, MAX_RECENTS};

fn ws() -> Workspace {
    Workspace::sample()
}

#[test]
fn sample_tree_shape() {
    let w = ws();
    assert_eq!(w.page_count(), 14);
    assert_eq!(w.title_of(102), Some("Getting Started"));
    let rows = w.tree_rows();
    // expanded roots and their children are visible
    assert!(rows.iter().any(|r| r.id == 102 && r.depth == 0 && r.expanded));
    assert!(rows.iter().any(|r| r.id == 103 && r.depth == 1));
    // Reading List starts collapsed
    let rl = rows.iter().find(|r| r.id == 110).unwrap();
    assert!(!rl.expanded && rl.has_children);
    // collapsed child not present
    assert!(!rows.iter().any(|r| r.id == 111));
}

#[test]
fn create_rename_delete_roundtrip() {
    let mut w = ws();
    let id = w.create(Some(105), "New Kid");
    assert_eq!(w.title_of(id), Some("New Kid"));
    // parent was auto-expanded, child visible
    assert!(w.tree_rows().iter().any(|r| r.id == id && r.depth == 1));
    w.rename(id, "Renamed");
    assert_eq!(w.title_of(id), Some("Renamed"));
    let removed = w.delete(105); // Atlas + 4 descendants + the new kid
    assert_eq!(removed.len(), 6);
    assert!(removed.contains(&id));
    assert!(!w.contains(105));
    assert!(w.tree_rows().iter().all(|r| r.id != id));
    // delete also cleans recents
    assert!(w.recents().iter().all(|(id, _)| *id != 105));
}

#[test]
fn duplicate_copies_subtree_with_fresh_ids() {
    let mut w = ws();
    let n_before = w.page_count();
    let copy = w.duplicate(105).unwrap();
    assert_eq!(w.title_of(copy), Some("Copy of Project Atlas"));
    assert_eq!(w.page_count(), n_before + 5);
    assert_eq!(w.subtree_size(copy), 5);
    // original untouched, copy lands after the whole original subtree
    // (both are expanded, so the DFS list interleaves children)
    let roots = w.tree_rows();
    let pos_orig = roots.iter().position(|r| r.id == 105).unwrap();
    assert_eq!(roots[pos_orig + w.subtree_size(105)].id, copy);
}

#[test]
fn page_style_is_three_switches_and_nothing_else() {
        let mut w = ws();
    // a page nobody touched
    assert_eq!(
        w.page_style(105),
        Some((PageFont::Default, false, false)),
        "the sample tree stores no look"
    );
    assert_eq!(w.set_font(105, PageFont::Serif), PageFont::Serif);
    assert_eq!(w.set_layout(105, true, false), (true, false));
    assert_eq!(
        w.page_style(105),
        Some((PageFont::Serif, true, false)),
        "the two switches and the font are three separate facts"
    );
    // an id that is not a page answers with the defaults and changes nothing
    assert_eq!(w.set_font(9999, PageFont::Mono), PageFont::Default);
    assert_eq!(w.set_layout(9999, true, true), (false, false));
    assert_eq!(w.page_style(9999), None);
}

#[test]
fn a_page_icon_is_set_cleared_and_carried_by_a_copy() {
    let mut w = ws();
    assert_eq!(w.icon_of(105), "", "the sample tree has no icons");
    assert_eq!(w.set_icon(105, "\u{1F680}"), "\u{1F680}");
    assert_eq!(w.icon_of(105), "\u{1F680}");
    // the look and the icon are separate facts: one does not imply another
    assert_eq!(
        w.page_style(105),
        Some((PageFont::Default, false, false))
    );
    let copy = w.duplicate(105).expect("duplicate");
    assert_eq!(
        w.icon_of(copy),
        "\u{1F680}",
        "a copy that lost its icon would disagree with the PageCreated written for it"
    );
    // clearing is a write, not a delete
    assert_eq!(w.set_icon(105, ""), "");
    assert_eq!(w.icon_of(105), "");
    assert_eq!(w.icon_of(copy), "\u{1F680}", "and the copy keeps its own");
    assert_eq!(w.set_icon(9999, "?"), "", "an unknown page stores nothing");
    assert_eq!(w.icon_of(9999), "");
}

#[test]
fn a_page_cover_points_at_an_attachment_and_survives_a_copy() {
    let mut w = ws();
    assert_eq!(w.cover_of(105), None, "the sample tree has no covers");
    assert_eq!(
        w.cover_ids(),
        // serde_json's PartialEq<i64> for Value makes the bare `Vec::new()`
        // ambiguous from the sync module's dependency edge
        Vec::<i64>::new(),
        "so the reclaim has nothing to hear from the tree yet"
    );
    let seven = Some(AttachmentId(7));
    assert_eq!(w.set_cover(105, seven), seven);
    assert_eq!(w.cover_of(105), seven);
    assert_eq!(
        w.cover_ids(),
        vec![7],
        "the sweep asks the whole tree, not the open page"
    );
    let copy = w.duplicate(105).expect("duplicate");
    assert_eq!(
        w.cover_of(copy),
        seven,
        "a copy is a second referencer, pointing at the same bytes"
    );
    assert_eq!(w.cover_ids(), vec![7, 7], "and the sweep hears it twice");
    // clearing one page must not free what the other still draws
    assert_eq!(w.set_cover(105, None), None);
    assert_eq!(w.cover_ids(), vec![7]);
    assert_eq!(w.set_cover(9999, None), None, "an unknown page stores nothing");
}

#[test]
fn a_locked_page_stays_a_page_and_a_copy_of_it_is_open() {
    let mut w = ws();
    assert!(!w.locked_of(105), "the sample tree locks nothing");
    assert_eq!(w.set_locked(105, true), Some(true));
    assert!(w.locked_of(105));
    assert_eq!(
        w.title_of(105),
        Some("Project Atlas"),
        "locking is one flag, not a wall around the rest of the row"
    );
    assert_eq!(w.set_locked(9999, true), None, "an unknown page stores nothing");
    // The copy is where the user goes to edit: a look travels with a
    // duplicate, a gate does not.
    let copy = w.duplicate(105).expect("duplicate");
    assert!(!w.locked_of(copy), "and the duplicate is unlocked");
    assert!(w.locked_of(105), "the source keeps its own state");
    assert_eq!(w.set_locked(105, false), Some(false), "and unlocks");
}

#[test]
fn favorites_and_recents() {
    let mut w = ws();
    let favs = w.favorites();
    assert_eq!(favs.len(), 2);
    assert!(favs.iter().all(|(id, _)| *id == 100 || *id == 101));
    w.toggle_favorite(112);
    assert_eq!(w.favorites().len(), 3);
    // recents: most recent first, capped
    w.mark_opened(113);
    assert_eq!(w.recents()[0].0, 113);
    for i in 200..200 + MAX_RECENTS as i32 + 3 {
        w.mark_opened(i); // unknown ids ignored
    }
    w.mark_opened(103);
    w.mark_opened(104);
    w.mark_opened(106);
    w.mark_opened(107);
    w.mark_opened(108);
    w.mark_opened(109);
    assert_eq!(w.recents().len(), MAX_RECENTS);
    assert_eq!(w.recents()[0].0, 109);
    // 113 was pushed out by the cap
    assert!(w.recents()[1..].iter().all(|(id, _)| *id != 113));
}

#[test]
fn expand_ancestors_makes_leaf_visible() {
    let mut w = ws();
    w.expand_ancestors(107); // Sources
    let rows = w.tree_rows();
    assert!(rows.iter().any(|r| r.id == 107 && r.depth == 2));
}

#[test]
fn search_title_then_content() {
    let mut w = ws();
    w.set_search_text(112, "写作与中文测试\n中文段落用于验证字体回退与行高".into());
    w.set_search_text(113, "Scratchpad\nnothing useful here".into());
    // title hit
    let hits = w.search("atlas");
    assert!(hits.iter().any(|h| h.id == 105 && h.snippet.is_empty()));
    // content hit produces a snippet
    let hits = w.search("字体回退");
    assert_eq!(hits.len(), 1);
    assert_eq!(hits[0].id, 112);
    assert!(hits[0].snippet.contains("字体回退"));
    // empty query = recents
    assert!(!w.search("").is_empty());
    // no hits
    assert!(w.search("zzzz-not-there").is_empty());
}

#[test]
fn local_search_snippet_breaks_on_words() {
    let mut w = ws();
    // The repo-less path is what the A4 `search-notes` shot renders, and
    // there the ±48-char window opened inside "quiet": the row read
    // "…uiet home for thinking". Varying token lengths make some of these
    // windows cut mid-token and some not; all must come back whole.
    let text: String = (0..120).map(|i| format!("w{i} ")).collect();
    w.set_search_text(113, text.clone());
    for term in 20..40 {
        let needle = format!("w{term}");
        let hits = w.search(&needle);
        assert_eq!(hits.len(), 1, "term {needle} unmatched");
        let s = &hits[0].snippet;
        assert!(s.contains(&needle), "term lost: {s}");
        let body = s.trim_matches('…');
        let at = text
            .find(body)
            .unwrap_or_else(|| panic!("not a source window: {s}"));
        let head_ok = at == 0 || text.as_bytes()[at - 1] == b' ';
        let tail = at + body.len();
        let tail_ok = tail == text.len() || text.as_bytes()[tail] == b' ';
        assert!(head_ok && tail_ok, "split word in {s:?} (term {needle})");
    }
}

#[test]
fn breadcrumb_walks_parents() {
    let w = ws();
    assert_eq!(w.breadcrumb(107), "Project Atlas / Research Notes");
    assert_eq!(w.breadcrumb(105), "");
}

#[test]
fn tree_operations_survive_a_full_lifecycle() {
    let mut ws = Workspace::sample();
    let page = ws.create(Some(102), "Child");
    ws.rename(page, "Renamed Child");
    assert_eq!(ws.title_of(page), Some("Renamed Child"));

    // Getting Started + its 2 sample children + the new child
    let copy = ws.duplicate(102).expect("duplicate root");
    assert_eq!(ws.subtree_size(copy), 4);

    let removed = ws.delete(copy);
    assert_eq!(removed.len(), 4);
    assert!(!ws.contains(copy));
    assert!(ws.contains(page)); // original untouched
}

#[test]
fn recents_cap_and_order() {
    let mut ws = Workspace::sample();
    ws.mark_opened(112);
    assert_eq!(ws.recents()[0].0, 112);
    // only real pages land in recents; opening 6 more pushes 112 out
    for id in [103, 104, 106, 107, 108, 109] {
        ws.mark_opened(id);
    }
    assert_eq!(ws.recents().len(), MAX_RECENTS);
    assert_eq!(ws.recents()[0].0, 109);
    assert!(ws.recents().iter().all(|(id, _)| *id != 112));
}

