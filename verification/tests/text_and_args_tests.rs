//! Numbers, snippets and trimming; start-up options; the file dialog seam;
//! the harness arguments.

use quire::cli::parse;
use quire::launch::{parse_launch_options, LAN_SHARE_PORT};
use quire::picker::{Chosen, DialogAnswer, DialogKind, Picker};
use quire::shortcuts::numbered_prefix;
use quire::text::{decimal_text, extract_snippet, find_ci, padded3, parse_bounded, snap_to_words};

fn args(v: &[&str]) -> Vec<String> {
    v.iter().map(|s| s.to_string()).collect()
}

fn chars(s: &str) -> Vec<char> {
    s.chars().collect()
}

#[test]
fn numbers_parse_as_str_parse_does() {
    assert_eq!(parse_bounded("42", u64::MAX), Some(42));
    assert_eq!(parse_bounded("+42", u64::MAX), Some(42));
    assert_eq!(parse_bounded("007", 10), Some(7));
    assert_eq!(parse_bounded("-1", u64::MAX), None);
    assert_eq!(parse_bounded("", u64::MAX), None);
    assert_eq!(parse_bounded("+", u64::MAX), None);
    assert_eq!(parse_bounded(" 1", u64::MAX), None);
    assert_eq!(parse_bounded("65535", 65535), Some(65535));
    assert_eq!(parse_bounded("65536", 65535), None);
    assert_eq!(parse_bounded("18446744073709551615", u64::MAX), Some(u64::MAX));
    assert_eq!(parse_bounded("18446744073709551616", u64::MAX), None);
    assert_eq!(decimal_text(0), "0");
    assert_eq!(decimal_text(1207), "1207");
    assert_eq!(padded3(7), "007");
    assert_eq!(padded3(1234), "1234");
}

#[test]
fn case_insensitive_search_folds_ascii_only() {
    assert_eq!(find_ci(&chars("Project Atlas"), &chars("atlas")), Some(8));
    assert_eq!(find_ci(&chars("abc"), &chars("")), None);
    assert_eq!(find_ci(&chars("ab"), &chars("abc")), None);
    assert_eq!(find_ci(&chars("ÄB"), &chars("äb")), None);
    assert_eq!(find_ci(&chars("写作与中文测试"), &chars("中文")), Some(3));
}

#[test]
fn snippet_edges_snap_to_words_and_carry_ellipses() {
    // a cut word at the start moves in to the next word
    let cs = chars("alpha beta gamma delta");
    assert_eq!(snap_to_words(&cs, 2, 22, 11, 16), (6, 22));
    // a cut word at the end moves back to the previous word end
    assert_eq!(snap_to_words(&cs, 0, 19, 6, 10), (0, 16));
    // the match itself is never cut
    assert_eq!(snap_to_words(&cs, 8, 9, 8, 9), (6, 10));
    let text = "one two three four five six seven eight";
    assert_eq!(extract_snippet(text, 14, 4, 6), "\u{2026}three four five\u{2026}");
    assert_eq!(extract_snippet("short\nline", 0, 5, 48), "short line");
}

#[test]
fn numbered_items_need_digits_then_dot_space() {
    assert_eq!(numbered_prefix("12. x"), Some("x".to_string()));
    assert_eq!(numbered_prefix("1. "), Some(String::new()));
    assert_eq!(numbered_prefix("a. x"), None);
    assert_eq!(numbered_prefix(". x"), None);
    assert_eq!(numbered_prefix("1.x"), None);
    assert_eq!(numbered_prefix("1 2. x"), None);
}

#[test]
fn launch_options_read_flags_values_and_the_first_positional() {
    let o = parse_launch_options(&args(&[
        "quire", "--blocks", "12", "--scroll", "notes.md", "other.md", "--share", "--auto-exit", "2.5",
        "--pictures", "x", "--touch", "--db", "q.db",
    ]));
    assert_eq!(o.blocks, 12);
    assert!(o.scroll);
    assert_eq!(o.open.as_deref(), Some("notes.md"));
    assert_eq!(o.share, Some(LAN_SHARE_PORT));
    assert_eq!(o.auto_exit.as_deref(), Some("2.5"));
    assert_eq!(o.pictures, 0);
    assert!(o.touch);
    assert_eq!(o.db.as_deref(), Some("q.db"));
    assert!(!o.portable);
    assert_eq!(o.scroll_step, None);

    let o = parse_launch_options(&args(&["quire", "--share-port", "9000", "--open", "a.md", "b.md", "--blocks"]));
    assert_eq!(o.share, Some(9000));
    assert_eq!(o.open.as_deref(), Some("a.md"));
    assert_eq!(o.blocks, 0);

    let o = parse_launch_options(&args(&["quire", "--share-port", "99999"]));
    assert_eq!(o.share, None);
    let o = parse_launch_options(&args(&["notes.md"]));
    assert_eq!(o.open, None, "the program's own name is never read");
}

#[test]
fn a_dialog_answer_reads_back_as_a_choice() {
    let p = Picker::save().title("Export").name("page.md").filter("Markdown", &["md"]);
    assert!(p.kind() == DialogKind::Save);
    assert_eq!(p.title_text(), Some("Export"));
    assert_eq!(p.file_name(), Some("page.md"));
    assert_eq!(p.filter_count(), 1);
    assert_eq!(p.filter_at(0), ("Markdown", &["md"][..]));
    match p.pick(DialogAnswer::NoDialog) {
        Chosen::Unsupported(t) => assert_eq!(t, "Android cannot save a file outside the app yet"),
        _ => panic!("no dialog"),
    }
    match Picker::open().pick(DialogAnswer::NoDialog) {
        Chosen::Unsupported(t) => assert_eq!(t, "Android cannot open a file from outside the app yet"),
        _ => panic!("no dialog"),
    }
    assert!(matches!(Picker::open().pick(DialogAnswer::Dismissed), Chosen::Cancelled));
    match Picker::open().pick(DialogAnswer::Picked("/tmp/a.md".into())) {
        Chosen::Path(p) => assert_eq!(p, "/tmp/a.md"),
        _ => panic!("a path"),
    }
}

#[test]
fn a_harness_key_gives_the_next_argument() {
    let a = args(&["shot", "--scene", "search", "--out", "x.bmp", "--scene", "other"]);
    assert_eq!(parse(&a, "--scene"), Some("search".to_string()));
    assert_eq!(parse(&a, "--out"), Some("x.bmp".to_string()));
    assert_eq!(parse(&a, "--size"), None);
    assert_eq!(parse(&args(&["shot", "--out"]), "--out"), None);
}

#[test]
fn a_written_number_reads_back() {
    for n in [0u64, 7, 10, 200, 503, 65535, u64::MAX] {
        assert_eq!(parse_bounded(&decimal_text(n), u64::MAX), Some(n));
    }
    assert_eq!(parse_bounded(&decimal_text(65535), 65535), Some(65535));
    assert_eq!(parse_bounded(&decimal_text(70000), 65535), None);
}
