//! Wire rows: a page and a block read back from their rows.

use quire::doc::{
    AttachmentId, Block, BlockId, BlockKind, ColorKind, Lang, Mark, MarkKind, OrderKey, Page,
    PageFont, PageId,
};
use quire::sync::model::{SBlock, SMark, SPage, SyncSnapshot};

#[test]
fn page_round_trips_through_the_wire_row() {
    let page = Page {
        id: PageId(12),
        title: "Synced".into(),
        parent: Some(PageId(4)),
        order: OrderKey(1 << 20),
        favorite: true,
        expanded: false,
        font: PageFont::Serif,
        full_width: true,
        small_text: false,
        icon: "📄".into(),
        cover: Some(AttachmentId(3)),
        locked: true,
        template: false,
    };
    let wire = SPage::from(&page);
    let back = wire.to_core();
    assert_eq!(back, page);
}

#[test]
fn block_and_marks_round_trip() {
    let block = Block {
        id: BlockId(9),
        page: PageId(1),
        parent: Some(BlockId(8)),
        order: OrderKey(7),
        kind: BlockKind::Todo,
        text: "buy milk".into(),
        checked: true,
        marks: vec![
            Mark {
                start: 0,
                end: 3,
                kind: MarkKind::Bold,
                url: String::new(),
                date: None,
            },
            Mark {
                start: 4,
                end: 8,
                kind: MarkKind::Date,
                url: String::new(),
                date: Some("2026-09-23".into()),
            },
        ],
        color: ColorKind::Gray,
        background: ColorKind::Default,
        page_ref: None,
        folded: false,
        attachment: None,
        img_percent: 100,
        columns: 0,
        lang: Lang::Plain,
        db_ref: None,
        sync_ref: None,
    };
    let back = SBlock::from(&block).to_core();
    assert_eq!(back, block);
}

#[test]
fn unknown_spellings_read_as_defaults() {
    let wire = SPage {
        id: 1,
        title: "t".into(),
        parent: None,
        ord: 0,
        favorite: false,
        expanded: false,
        font: "comic".into(),
        full_width: false,
        small_text: false,
        icon: String::new(),
        cover: None,
        locked: false,
        template: false,
    };
    assert_eq!(wire.to_core().font, PageFont::Default);
    let mut b = SBlock::from(&Block {
        id: BlockId(1),
        page: PageId(1),
        parent: None,
        order: OrderKey(0),
        kind: BlockKind::Quote,
        text: String::new(),
        checked: false,
        marks: vec![],
        color: ColorKind::Red,
        background: ColorKind::Default,
        page_ref: None,
        folded: false,
        attachment: None,
        img_percent: 100,
        columns: 0,
        lang: Lang::Rust,
        db_ref: None,
        sync_ref: None,
    });
    assert_eq!(b.kind, "quote");
    b.kind = "sparkle".into();
    b.color = "".into();
    b.lang = "cobol".into();
    let back = b.to_core();
    assert_eq!(back.kind, BlockKind::Paragraph);
    assert_eq!(back.color, ColorKind::Default);
    assert_eq!(back.lang, Lang::Plain);
}

#[test]
fn a_snapshot_in_another_version_is_refused() {
    let s = SyncSnapshot::default();
    assert_eq!(s.row_count(), 0);
    assert!(s.checked_version().is_ok());
    let mut bad = SyncSnapshot::default();
    bad.version = 99;
    assert_eq!(
        bad.checked_version().err(),
        Some("snapshot version 99 unsupported (this build speaks 1)".to_string())
    );
}

#[test]
fn a_date_mark_travels_as_its_date() {
    let m = Mark { start: 1, end: 2, kind: MarkKind::Date, url: String::new(), date: Some("2026-01-02".into()) };
    let w = SMark::from(&m);
    assert_eq!(w.kind, "date");
    assert_eq!(w.payload, "2026-01-02");
    assert_eq!(w.to_core(), m);
    let link = Mark { start: 0, end: 4, kind: MarkKind::Link, url: "https://x".into(), date: None };
    assert_eq!(SMark::from(&link).payload, "https://x");
    assert_eq!(SMark::from(&link).to_core(), link);
}
