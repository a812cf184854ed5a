//! The three-way merge: taking, keeping, deleting, renumbering, logging
//! conflicts, and the parents-first order.

use quire::sync::merge::{merge, MergeCtx};
use quire::sync::model::{SAttachment, SBlock, SDatabase, SPage, SProperty, SRecord, SValue, SyncSnapshot};
use quire::sync::order::{sort_blocks_parents_first, sort_pages_parents_first};

fn snap() -> SyncSnapshot {
    SyncSnapshot::default()
}

fn page(id: u64, parent: Option<u64>) -> SPage {
    SPage {
        id,
        title: format!("p{id}"),
        parent,
        ord: id,
        favorite: false,
        expanded: false,
        font: String::new(),
        full_width: false,
        small_text: false,
        icon: String::new(),
        cover: None,
        locked: false,
        template: false,
    }
}

fn block(id: u64, page: u64) -> SBlock {
    SBlock {
        id,
        page,
        parent: None,
        ord: id,
        kind: "para".into(),
        text: format!("b{id}"),
        checked: false,
        folded: false,
        color: String::new(),
        background: String::new(),
        page_ref: None,
        sync_ref: None,
        attachment: None,
        img_percent: 100,
        columns: 0,
        lang: String::new(),
        db_ref: None,
        marks: Vec::new(),
    }
}

/// Fresh ids counted up from `start` in every namespace.
fn with_ctx<T>(start: u64, f: impl FnOnce(&mut MergeCtx) -> T) -> T {
    let mut ctx = MergeCtx {
        last_page: start,
        last_block: start,
        last_attachment: start,
        last_db: start,
        last_property: start,
        last_record: start,
        last_view: start,
    };
    f(&mut ctx)
}

#[test]
fn remote_only_page_is_taken() {
    let mut local = snap();
    local.pages.push(page(1, None));
    let mut remote = snap();
    remote.pages.push(page(1, None));
    remote.pages.push(page(2, Some(1)));

    let out = with_ctx(1000, |ctx| merge(&local, None, &remote, "phone", ctx));
    assert_eq!(out.merged.pages.len(), 2);
    assert!(out.merged.pages.iter().any(|p| p.id == 2));
    assert!(out.conflicts.is_empty());
}

#[test]
fn local_only_edit_survives_and_remote_delete_lands() {
    let mut base = snap();
    let mut p = page(1, None);
    p.title = "shared".into();
    base.pages.push(p);
    let shadow = base.clone();

    // a remote delete over an unchanged local copy lands
    let out = with_ctx(0, |ctx| merge(&base, Some(&shadow), &snap(), "phone", ctx));
    assert!(out.merged.pages.is_empty());

    // …but a local edit over an unchanged remote copy keeps the row
    let mut local = snap();
    let mut lp = page(1, None);
    lp.title = "edited here".into();
    local.pages.push(lp);
    let out = with_ctx(0, |ctx| merge(&local, Some(&shadow), &base, "phone", ctx));
    assert_eq!(out.merged.pages.len(), 1);
    assert_eq!(out.merged.pages[0].title, "edited here");
    assert!(out.conflicts.is_empty(), "{:?}", out.conflicts);

    // and a local edit against a remote DELETE is a conflict that keeps
    // the edit (the peer keeps its own answer) and says so
    let out = with_ctx(0, |ctx| merge(&local, Some(&shadow), &snap(), "phone", ctx));
    assert_eq!(out.merged.pages.len(), 1);
    assert_eq!(out.conflicts.len(), 1, "{:?}", out.conflicts);
}

#[test]
fn both_edits_conflict_and_are_logged() {
    let mut base = snap();
    let mut p = page(1, None);
    p.title = "shared".into();
    base.pages.push(p);
    let shadow = base.clone();

    let mut local = snap();
    let mut lp = page(1, None);
    lp.title = "here".into();
    local.pages.push(lp);

    let mut remote = snap();
    let mut rp = page(1, None);
    rp.title = "there".into();
    remote.pages.push(rp);

    let out = with_ctx(0, |ctx| merge(&local, Some(&shadow), &remote, "phone", ctx));
    assert_eq!(out.merged.pages.len(), 1);
    assert_eq!(out.merged.pages[0].title, "here");
    assert_eq!(out.conflicts.len(), 1, "{:?}", out.conflicts);
}

#[test]
fn colliding_new_ids_renumber_and_keep_both() {
    // both devices minted page 7 since the last sync
    let mut local = snap();
    let mut lp = page(7, None);
    lp.title = "local new".into();
    local.pages.push(lp);
    local.blocks.push(block(70, 7));

    let mut remote = snap();
    let mut rp = page(7, None);
    rp.title = "remote new".into();
    remote.pages.push(rp);
    remote.blocks.push(block(70, 7));

    let c = 1000u64;
    let out = with_ctx(c, |ctx| merge(&local, Some(&snap()), &remote, "phone", ctx));
    assert!(
        out.merged
            .pages
            .iter()
            .any(|p| p.id == 7 && p.title == "local new")
    );
    let twin = out
        .merged
        .pages
        .iter()
        .find(|p| p.id != 7 && p.title == "remote new")
        .expect("remote page renumbered alongside");
    let twin_block = out
        .merged
        .blocks
        .iter()
        .find(|b| b.page == twin.id)
        .expect("its block came along");
    assert!(twin_block.id != 70, "the block was renumbered too");
    assert!(out.conflicts.is_empty());
}

#[test]
fn renumbered_blocks_remap_their_page() {
    let mut local = snap();
    local.pages.push(page(7, None));
    local.blocks.push(block(70, 7));

    let mut remote = snap();
    let mut rp = page(7, None);
    rp.title = "different".into();
    remote.pages.push(rp);
    let mut rb = block(70, 7);
    rb.text = "different".into();
    remote.blocks.push(rb);

    let out = with_ctx(1000, |ctx| merge(&local, Some(&snap()), &remote, "phone", ctx));
    // local page and its block stay; the remote pair is renumbered and
    // the renumbered block points at the renumbered page
    assert!(out.merged.blocks.iter().any(|b| b.id == 70 && b.page == 7));
    let twin_block = out.merged.blocks.iter().find(|b| b.id != 70).expect("remote block renumbered");
    assert!(out.merged.pages.iter().any(|p| p.id == twin_block.page));
}

#[test]
fn parents_sort_before_children() {
    let mut pages: Vec<SPage> = vec![page(3, Some(2)), page(2, Some(1)), page(1, None)];
    sort_pages_parents_first(&mut pages);
    let ids: Vec<u64> = pages.iter().map(|p| p.id).collect();
    assert_eq!(ids, vec![1, 2, 3]);

    let mut blocks: Vec<SBlock> = vec![
        {
            let mut b = block(3, 1);
            b.parent = Some(2);
            b
        },
        {
            let mut b = block(2, 1);
            b.parent = Some(1);
            b
        },
        block(1, 1),
    ];
    sort_blocks_parents_first(&mut blocks);
    let ids: Vec<u64> = blocks.iter().map(|b| b.id).collect();
    assert_eq!(ids, vec![1, 2, 3]);
}

#[test]
fn both_edited_cells_conflict_and_log() {
    let mut base = snap();
    base.databases.push(SDatabase {
        id: 1,
        name: "db".into(),
        template: String::new(),
        properties: vec![SProperty {
            id: 10,
            db: 1,
            name: "Name".into(),
            kind: "title".into(),
            config: String::new(),
            ord: 0,
        }],
        views: vec![],
        records: vec![SRecord { id: 20, db: 1, page: None, ord: 1 }],
        values: vec![SValue {
            record: 20,
            property: 10,
            text: Some("hello".into()),
            num: None,
            flag: None,
            items: None,
        }],
    });
    let shadow = base.clone();

    let mut local = base.clone();
    local.databases[0].values[0].text = Some("edited here".into());

    let mut remote = base.clone();
    remote.databases[0].values[0].text = Some("edited there".into());

    let out = with_ctx(0, |ctx| merge(&local, Some(&shadow), &remote, "phone", ctx));
    assert_eq!(out.conflicts.len(), 1);
    assert_eq!(
        out.merged.databases[0].values[0].text.as_deref(),
        Some("edited here")
    );
}

#[test]
fn merging_a_snapshot_with_itself_reports_nothing() {
    let mut s = snap();
    s.pages.push(page(1, None));
    s.pages.push(page(2, Some(1)));
    s.blocks.push(block(10, 2));
    let out = with_ctx(50, |ctx| {
        let o = merge(&s, None, &s, "phone", ctx);
        assert_eq!(ctx.last_page, 50, "no fresh id drawn");
        o
    });
    assert!(out.conflicts.is_empty());
    assert!(out.attachment_remap.is_empty());
    assert_eq!(out.merged.pages.len(), 2);
    assert_eq!(out.merged.blocks.len(), 1);
}

#[test]
fn a_conflict_line_names_the_row_and_the_peer() {
    let mut base = snap();
    base.pages.push(page(3, None));
    let shadow = base.clone();
    let mut local = snap();
    let mut lp = page(3, None);
    lp.title = "mine".into();
    local.pages.push(lp);
    let mut remote = snap();
    let mut rp = page(3, None);
    rp.title = "theirs".into();
    remote.pages.push(rp);
    let out = with_ctx(0, |ctx| merge(&local, Some(&shadow), &remote, "phone", ctx));
    assert_eq!(
        out.conflicts,
        vec!["page 3: changed on both sides \u{2014} kept this device's copy (phone keeps its own)".to_string()]
    );
}

#[test]
fn a_renumbered_block_pulls_its_attachment_along() {
    let a = SAttachment {
        id: 40,
        name: "pic".into(),
        file: "f".into(),
        thumb: String::new(),
        mime: "image/png".into(),
        bytes: 1,
        width: 1,
        height: 1,
    };
    let mut local = snap();
    local.pages.push(page(7, None));
    let mut remote = snap();
    let mut rp = page(7, None);
    rp.title = "other".into();
    remote.pages.push(rp);
    let mut rb = block(70, 7);
    rb.attachment = Some(40);
    remote.blocks.push(rb);
    remote.attachments.push(a);
    let mut local_att = remote.attachments[0].clone();
    local_att.name = "different".into();
    local.attachments.push(local_att);
    let out = with_ctx(1000, |ctx| merge(&local, Some(&snap()), &remote, "phone", ctx));
    // the attachment id collided, so it was renumbered and the block follows
    assert_eq!(out.attachment_remap.len(), 1);
    let (old, new) = out.attachment_remap[0];
    assert_eq!(old, 40);
    let b = out.merged.blocks.iter().find(|b| b.text == "b70").unwrap();
    assert_eq!(b.attachment, Some(new));
    assert!(out.merged.attachments.iter().any(|a| a.id == new && a.name == "pic"));
    assert!(out.merged.attachments.iter().any(|a| a.id == 40 && a.name == "different"));
}

#[test]
fn a_first_sync_keeps_a_differing_row_local_and_logs_it() {
    let mut local = snap();
    let mut p = page(1, None);
    p.title = "here".into();
    local.pages.push(p);
    let mut remote = snap();
    let mut p2 = page(1, None);
    p2.title = "there".into();
    remote.pages.push(p2);
    remote.pages.push(page(2, None));

    let out = with_ctx(1000, |ctx| merge(&local, None, &remote, "phone", ctx));
    assert_eq!(out.merged.pages.len(), 2);
    assert!(out.merged.pages.iter().any(|p| p.id == 1 && p.title == "here"));
    assert!(out.merged.pages.iter().any(|p| p.id == 2));
    assert!(!out.merged.pages.iter().any(|p| p.title == "there"));
    assert_eq!(out.conflicts.len(), 1);
}
