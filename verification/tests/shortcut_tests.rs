//! Markdown line shortcuts.

use quire::doc::BlockKind;
use quire::shortcuts::markdown_convert;

#[test]
fn markdown_shortcuts_convert_and_strip() {
    let conv = |t: &str| markdown_convert(t, Some(BlockKind::Paragraph)).map(|(k, r, _)| (k, r));
    assert_eq!(conv("# "), Some((BlockKind::Heading1, "".to_string())));
    assert_eq!(conv("## Big"), Some((BlockKind::Heading2, "Big".into())));
    assert_eq!(conv("### Small"), Some((BlockKind::Heading3, "Small".into())));
    assert_eq!(conv("- item"), Some((BlockKind::Bullet, "item".into())));
    assert_eq!(conv("* item"), Some((BlockKind::Bullet, "item".into())));
    assert_eq!(conv("1. first"), Some((BlockKind::Numbered, "first".into())));
    assert_eq!(conv("12. x"), Some((BlockKind::Numbered, "x".into())));
    assert_eq!(conv("[] buy"), Some((BlockKind::Todo, "buy".into())));
    assert_eq!(conv("[ ] buy"), Some((BlockKind::Todo, "buy".into())));
    assert_eq!(conv("> note"), Some((BlockKind::Quote, "note".into())));
    assert_eq!(conv("---"), Some((BlockKind::Divider, "".into())));
    assert_eq!(conv("```"), Some((BlockKind::Code, "".into())));
    // non-triggers
    assert_eq!(conv("#no-space"), None);
    assert_eq!(conv("then # "), None);
    assert_eq!(conv("a. x"), None);
    assert_eq!(conv(". x"), None);
    assert_eq!(conv("-"), None);
    assert_eq!(conv("----"), None);
    assert_eq!(conv(""), None);
}

#[test]
fn markdown_shortcut_checked_todo_and_code_exemption() {
    // "[x] " lands checked
    let (kind, rest, checked) = markdown_convert("[x] done", Some(BlockKind::Paragraph)).unwrap();
    assert_eq!(kind, BlockKind::Todo);
    assert_eq!(rest, "done");
    assert_eq!(checked, Some(true));
    // an already-Todo block typing "[x] ": the fn still reports the
    // intent, the caller skips the toggle for same-kind blocks
    let (_, _, checked) = markdown_convert("[x] done", Some(BlockKind::Todo)).unwrap();
    assert_eq!(checked, Some(true));
    // code and divider text is exempt: "# " is legitimate content there
    assert_eq!(markdown_convert("# comment", Some(BlockKind::Code)), None);
    assert_eq!(markdown_convert("---", Some(BlockKind::Divider)), None);
}
