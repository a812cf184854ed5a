//! Who may push a snapshot, how a typed-in device and a periodic round are
//! read, what the server answers, and the shell's small decisions.

use quire::shell::{bench_step, import_title};
use quire::sync::engine::{auto_round, inbound_push_check, parse_device_target, PeerRecord};
use quire::sync::http::{pair_answer, push_answer, SYNC_PORT};
use quire::workspace::Workspace;

fn rec(id: &str, name: &str, kind: &str, paired: bool) -> PeerRecord {
    PeerRecord {
        id: id.into(),
        name: name.into(),
        kind: kind.into(),
        ip: "10.0.0.9".into(),
        port: 5878,
        paired,
        last_seen: 0,
        last_sync: String::new(),
    }
}

#[test]
fn an_unpaired_push_is_refused_and_named() {
    let table = vec![rec("a", "desk", "linux", true), rec("b", "phone", "android", false)];
    // a pull carries the table's record: always let through
    assert!(inbound_push_check(&rec("b", "phone", "android", false), &table).is_ok());
    // a push from a paired device
    assert!(inbound_push_check(&rec("a", "desk", "", true), &table).is_ok());
    // a push from a known but unpaired device
    assert_eq!(
        inbound_push_check(&rec("b", "phone", "", true), &table),
        Err("phone 推送了快照，但未配对 — 已拒绝".to_string())
    );
    // a push from a stranger without a name
    assert_eq!(
        inbound_push_check(&rec("z", "", "", true), &table),
        Err("未知设备 推送了快照，但未配对 — 已拒绝".to_string())
    );
}

#[test]
fn a_typed_in_device_is_read_as_host_and_port() {
    assert_eq!(parse_device_target("  192.168.1.4:6000 "), Some(("192.168.1.4".to_string(), 6000)));
    assert_eq!(parse_device_target("192.168.1.4"), Some(("192.168.1.4".to_string(), SYNC_PORT)));
    assert_eq!(parse_device_target("host:notaport"), Some(("host:notaport".to_string(), SYNC_PORT)));
    assert_eq!(parse_device_target("host:70000"), Some(("host:70000".to_string(), SYNC_PORT)));
    assert_eq!(parse_device_target("   "), None);
}

#[test]
fn a_periodic_round_asks_every_paired_peer_once_due() {
    let table = vec![rec("a", "desk", "linux", true), rec("b", "phone", "android", false), rec("c", "tab", "android", true)];
    assert_eq!(auto_round(true, 300, 300, &table), (true, vec![0, 2]));
    assert_eq!(auto_round(true, 10, 300, &table), (false, vec![]));
    assert_eq!(auto_round(false, 900, 300, &table), (false, vec![]));
}

#[test]
fn the_server_answers_each_reply_with_its_status() {
    assert_eq!(push_answer(Err("bad snapshot: x".into())), (400, "bad snapshot: x".to_string()));
    assert_eq!(push_answer(Ok(Some(Ok("{}".into())))), (200, "{}".to_string()));
    assert_eq!(push_answer(Ok(Some(Err("refused".into())))), (409, "refused".to_string()));
    assert_eq!(push_answer(Ok(None)), (503, "the app is shutting down".to_string()));
    assert_eq!(pair_answer(Ok(Some(true))), (200, "ok".to_string()));
    assert_eq!(pair_answer(Ok(Some(false))), (503, "pairing refused".to_string()));
    assert_eq!(pair_answer(Ok(None)), (503, "pairing refused".to_string()));
    assert_eq!(pair_answer(Err("bad device info: x".into())), (400, "bad device info: x".to_string()));
}

#[test]
fn a_page_switch_run_goes_round_the_list() {
    let ids = [1000, 1001, 1002];
    assert_eq!(bench_step(&ids, 0), Some((1000, 1)));
    assert_eq!(bench_step(&ids, 2), Some((1002, 0)));
    assert_eq!(bench_step(&ids, 7), Some((1001, 2)));
    assert_eq!(bench_step(&[], 3), None);
}

#[test]
fn an_imported_page_gets_its_trimmed_title_or_the_stand_in() {
    assert_eq!(import_title("  Notes "), "Notes");
    assert_eq!(import_title("   "), "已导入");
    assert_eq!(import_title(""), "已导入");
}

#[test]
fn visible_pages_and_templates_make_up_the_workspace() {
    let mut w = Workspace::sample();
    w.create_template("Meeting notes");
    w.create_template("Daily");
    assert_eq!(w.visible_page_count() + w.templates().len(), w.page_count());
    assert_eq!(w.templates().len(), 2);
}

#[test]
fn a_swap_and_its_opposite_restore_the_siblings() {
    let mut w = Workspace::sample();
    let parent = w.get(106).and_then(|p| p.parent);
    let before = w.children_of(parent);
    assert!(w.swap_with_neighbor(106, 1));
    assert_ne!(w.children_of(parent), before);
    assert!(w.swap_with_neighbor(106, -1));
    assert_eq!(w.children_of(parent), before);
}

#[test]
fn subtree_size_is_what_a_delete_removes() {
    let mut w = Workspace::sample();
    let n = w.subtree_size(105);
    assert_eq!(n, 5);
    assert_eq!(w.delete(105).len(), n);
}

#[test]
fn a_duplicate_sits_right_after_its_original() {
    let mut w = Workspace::sample();
    let parent = w.get(106).and_then(|p| p.parent);
    let copy = w.duplicate(106).unwrap();
    let kids = w.children_of(parent);
    let at = kids.iter().position(|&k| k == 106).unwrap();
    assert_eq!(kids[at + 1], copy);
    assert_eq!(w.get(copy).and_then(|p| p.parent), parent);
    assert!(!w.locked_of(copy));
}

#[test]
fn with_every_page_expanded_the_rows_are_the_depth_first_order() {
    let mut w = Workspace::sample();
    for id in w.dfs_order() {
        w.set_expanded(id, true);
    }
    let rows = w.tree_rows();
    let ids: Vec<i32> = rows.iter().map(|r| r.id).collect();
    assert_eq!(ids, w.dfs_order());
    for r in &rows {
        assert_eq!(Some(r.label.as_str()), w.title_of(r.id));
        assert_eq!(r.has_children, !w.children_of(Some(r.id)).is_empty());
    }
}

#[test]
fn the_depth_first_order_lists_each_page_once() {
    let mut w = Workspace::sample();
    let _ = w.duplicate(105);
    assert!(w.move_page(110, Some(102), None));
    let d = w.dfs_order();
    let mut seen = std::collections::HashSet::new();
    assert!(d.iter().all(|id| seen.insert(*id)));
    assert!(d.iter().all(|id| w.contains(*id)));
    assert_eq!(d.first().copied(), w.first_root());
}

#[test]
fn the_visible_count_is_the_non_template_page_rows() {
    let mut w = Workspace::sample();
    w.create_template("Weekly");
    let rows = w.page_rows();
    assert_eq!(rows.iter().filter(|p| !p.template).count(), w.visible_page_count());
    assert_eq!(w.visible_page_count(), w.page_count() - w.templates().len());
}

#[test]
fn a_reserved_id_names_no_page_and_the_next_one_follows_it() {
    let mut w = Workspace::sample();
    let n = w.page_count();
    let r = w.reserve_page_id();
    assert!(!w.contains(r));
    assert!(w.dfs_order().iter().all(|&id| id < r));
    assert_eq!(w.page_count(), n);
    assert_eq!(w.create(None, "next"), r + 1);
}

#[test]
fn the_tree_rows_are_the_order_kept_to_pages_under_expanded_ancestors() {
    let mut w = Workspace::sample();
    for id in w.dfs_order() {
        w.set_expanded(id, true);
    }
    w.set_expanded(105, false);
    let rows = w.tree_rows();
    let expected: Vec<i32> = w
        .dfs_order()
        .into_iter()
        .filter(|&id| {
            let line = w.ancestors(id);
            line[..line.len() - 1].iter().all(|(a, _)| w.get(*a).map(|p| p.expanded).unwrap_or(false))
        })
        .collect();
    let ids: Vec<i32> = rows.iter().map(|r| r.id).collect();
    assert_eq!(ids, expected);
    assert!(ids.len() < w.dfs_order().len());
    for r in &rows {
        assert_eq!(r.depth as usize, w.ancestors(r.id).len() - 1);
    }
}

#[test]
fn a_duplicated_subtree_hangs_together() {
    let mut w = Workspace::sample();
    let copy = w.duplicate(105).unwrap();
    let mut stack = vec![copy];
    let mut copies = 0;
    while let Some(k) = stack.pop() {
        copies += 1;
        for c in w.children_of(Some(k)) {
            assert_eq!(w.get(c).and_then(|p| p.parent), Some(k));
            stack.push(c);
        }
    }
    assert_eq!(copies, w.subtree_size(105));
    let d = w.dfs_order();
    let mut seen = std::collections::HashSet::new();
    assert!(d.iter().all(|id| seen.insert(*id)));
}

#[test]
fn the_depth_first_order_lists_no_template() {
    let mut w = Workspace::sample();
    let t = w.create_template("Weekly review");
    let d = w.dfs_order();
    assert!(!d.contains(&t));
    assert!(d.iter().all(|&id| !w.is_template(id)));
    assert_eq!(d.len() + w.templates().len(), w.page_count());
}
