//! The start-up arguments. Options that carry a fractional value (the
//! auto-exit delay and the scroll step) are kept as the text given; the
//! caller reads them as numbers.

use vstd::prelude::*;

use crate::text::{chars_of, parse_bounded, parse_unsigned, str_eq};

verus! {

/// The port the read-only LAN share uses unless told otherwise.
pub const LAN_SHARE_PORT: u16 = 5877;

pub struct LaunchOptions {
    pub blocks: usize,
    /// `--auto-exit <secs>`, as given.
    pub auto_exit: Option<String>,
    /// `--page-switch N`: extra flat pages to switch between.
    pub bench_pages: usize,
    /// `--pictures N`: image rows on the bench page.
    pub pictures: usize,
    /// `--marks N`: rows of the bench page carrying a bold mark.
    pub marks: usize,
    /// `--code N`: code rows on the bench page.
    pub code: usize,
    /// `--scroll`: programmatic continuous scroll.
    pub scroll: bool,
    /// `--scroll-step <px>`, as given.
    pub scroll_step: Option<String>,
    /// `--scene <name>`: headless state setup for screenshots.
    pub scene: Option<String>,
    /// `--db <path>`: the database file.
    pub db: Option<String>,
    /// `--portable`: keep the library beside the working directory.
    pub portable: bool,
    /// `--open <path>`, or the first bare positional argument.
    pub open: Option<String>,
    /// `--share` (the default port) or `--share-port <port>`.
    pub share: Option<u16>,
    /// `--pull <url>`: pull a framed workspace from another install.
    pub pull: Option<String>,
    /// `--dump-state`: print loaded page/block counts.
    pub dump_state: bool,
    /// `--measure-startup`: measure the first painted frame.
    pub measure_startup: bool,
    /// `--touch`: draw the window the way a phone does.
    pub touch: bool,
}

pub struct OptionsView {
    pub blocks: usize,
    pub auto_exit: Option<Seq<char>>,
    pub bench_pages: usize,
    pub pictures: usize,
    pub marks: usize,
    pub code: usize,
    pub scroll: bool,
    pub scroll_step: Option<Seq<char>>,
    pub scene: Option<Seq<char>>,
    pub db: Option<Seq<char>>,
    pub portable: bool,
    pub open: Option<Seq<char>>,
    pub share: Option<u16>,
    pub pull: Option<Seq<char>>,
    pub dump_state: bool,
    pub measure_startup: bool,
    pub touch: bool,
}

pub open spec fn opt_view(o: Option<String>) -> Option<Seq<char>> {
    match o {
        Some(s) => Some(s@),
        None => None,
    }
}

impl View for LaunchOptions {
    type V = OptionsView;

    open spec fn view(&self) -> OptionsView {
        OptionsView {
            blocks: self.blocks,
            auto_exit: opt_view(self.auto_exit),
            bench_pages: self.bench_pages,
            pictures: self.pictures,
            marks: self.marks,
            code: self.code,
            scroll: self.scroll,
            scroll_step: opt_view(self.scroll_step),
            scene: opt_view(self.scene),
            db: opt_view(self.db),
            portable: self.portable,
            open: opt_view(self.open),
            share: self.share,
            pull: opt_view(self.pull),
            dump_state: self.dump_state,
            measure_startup: self.measure_startup,
            touch: self.touch,
        }
    }
}

/// Nothing given.
pub open spec fn no_options() -> OptionsView {
    OptionsView {
        blocks: 0,
        auto_exit: None,
        bench_pages: 0,
        pictures: 0,
        marks: 0,
        code: 0,
        scroll: false,
        scroll_step: None,
        scene: None,
        db: None,
        portable: false,
        open: None,
        share: None,
        pull: None,
        dump_state: false,
        measure_startup: false,
        touch: false,
    }
}

/// A count as given; what does not read as one is 0.
pub open spec fn count_of(v: Seq<char>) -> usize {
    match parse_unsigned(v, usize::MAX as nat) {
        Some(n) => n as usize,
        None => 0,
    }
}

/// The effect of the argument at `i` (with the one after it, if any, as
/// its value): the options after it, and where reading goes on.
pub open spec fn launch_step(args: Seq<Seq<char>>, i: int, o: OptionsView) -> (OptionsView, int) {
    let a = args[i];
    let has_v = i + 1 < args.len();
    let v = if has_v { args[i + 1] } else { Seq::empty() };
    if a == "--blocks"@ && has_v {
        (OptionsView { blocks: count_of(v), ..o }, i + 2)
    } else if a == "--auto-exit"@ && has_v {
        (OptionsView { auto_exit: Some(v), ..o }, i + 2)
    } else if a == "--page-switch"@ && has_v {
        (OptionsView { bench_pages: count_of(v), ..o }, i + 2)
    } else if a == "--pictures"@ && has_v {
        (OptionsView { pictures: count_of(v), ..o }, i + 2)
    } else if a == "--marks"@ && has_v {
        (OptionsView { marks: count_of(v), ..o }, i + 2)
    } else if a == "--code"@ && has_v {
        (OptionsView { code: count_of(v), ..o }, i + 2)
    } else if a == "--scroll"@ {
        (OptionsView { scroll: true, ..o }, i + 1)
    } else if a == "--scroll-step"@ && has_v {
        (OptionsView { scroll_step: Some(v), ..o }, i + 2)
    } else if a == "--scene"@ && has_v {
        (OptionsView { scene: Some(v), ..o }, i + 2)
    } else if a == "--db"@ && has_v {
        (OptionsView { db: Some(v), ..o }, i + 2)
    } else if a == "--portable"@ {
        (OptionsView { portable: true, ..o }, i + 1)
    } else if a == "--dump-state"@ {
        (OptionsView { dump_state: true, ..o }, i + 1)
    } else if a == "--open"@ && has_v {
        (OptionsView { open: Some(v), ..o }, i + 2)
    } else if a == "--share"@ {
        (OptionsView { share: Some(LAN_SHARE_PORT), ..o }, i + 1)
    } else if a == "--share-port"@ && has_v {
        (
            match parse_unsigned(v, u16::MAX as nat) {
                Some(p) => OptionsView { share: Some(p as u16), ..o },
                None => o,
            },
            i + 2,
        )
    } else if a == "--pull"@ && has_v {
        (OptionsView { pull: Some(v), ..o }, i + 2)
    } else if a == "--measure-startup"@ {
        (OptionsView { measure_startup: true, ..o }, i + 1)
    } else if a == "--touch"@ {
        (OptionsView { touch: true, ..o }, i + 1)
    } else if !(a.len() > 0 && a[0] == '-') {
        (if o.open is None { OptionsView { open: Some(a), ..o } } else { o }, i + 1)
    } else {
        (o, i + 1)
    }
}

/// The options the arguments from `i` on leave, starting from `o`.
pub open spec fn options_from(args: Seq<Seq<char>>, i: int, o: OptionsView) -> OptionsView
    decreases args.len() - i,
{
    if i < 0 || i >= args.len() {
        o
    } else {
        let (o2, j) = launch_step(args, i, o);
        if j <= i { o2 } else { options_from(args, j, o2) }
    }
}

pub open spec fn args_view(args: Seq<String>) -> Seq<Seq<char>> {
    args.map_values(|s: String| s@)
}

fn count_text(v: &str) -> (r: usize)
    ensures
        r == count_of(v@),
{
    match parse_bounded(v, usize::MAX as u64) {
        Some(n) => n as usize,
        None => 0,
    }
}

/// Read the start-up arguments; the first one (the program's name) is
/// skipped. Later options override earlier ones; unknown flags are ignored.
pub fn parse_launch_options(argv: &[String]) -> (r: LaunchOptions)
    ensures
        r@ == options_from(args_view(argv@), 1, no_options()),
{
    let mut a = LaunchOptions {
        blocks: 0,
        auto_exit: None,
        bench_pages: 0,
        pictures: 0,
        marks: 0,
        code: 0,
        scroll: false,
        scroll_step: None,
        scene: None,
        db: None,
        portable: false,
        open: None,
        share: None,
        pull: None,
        dump_state: false,
        measure_startup: false,
        touch: false,
    };
    let ghost args = args_view(argv@);
    let mut i: usize = 1;
    while i < argv.len()
        invariant
            args == args_view(argv@),
            args.len() == argv@.len(),
            1 <= i,
            options_from(args, 1, no_options()) == options_from(args, i as int, a@),
        decreases argv@.len() - i,
    {
        let arg = argv[i].as_str();
        assert(args[i as int] == arg@);
        let has_v = i + 1 < argv.len();
        let ghost o = a@;
        let ghost (o2, j) = launch_step(args, i as int, o);
        if has_v {
            assert(args[i + 1] == argv@[i + 1]@);
        }
        let mut skip = false;
        if has_v && str_eq(arg, "--blocks") {
            a.blocks = count_text(argv[i + 1].as_str());
            skip = true;
        } else if has_v && str_eq(arg, "--auto-exit") {
            a.auto_exit = Some(argv[i + 1].clone());
            skip = true;
        } else if has_v && str_eq(arg, "--page-switch") {
            a.bench_pages = count_text(argv[i + 1].as_str());
            skip = true;
        } else if has_v && str_eq(arg, "--pictures") {
            a.pictures = count_text(argv[i + 1].as_str());
            skip = true;
        } else if has_v && str_eq(arg, "--marks") {
            a.marks = count_text(argv[i + 1].as_str());
            skip = true;
        } else if has_v && str_eq(arg, "--code") {
            a.code = count_text(argv[i + 1].as_str());
            skip = true;
        } else if str_eq(arg, "--scroll") {
            a.scroll = true;
        } else if has_v && str_eq(arg, "--scroll-step") {
            a.scroll_step = Some(argv[i + 1].clone());
            skip = true;
        } else if has_v && str_eq(arg, "--scene") {
            a.scene = Some(argv[i + 1].clone());
            skip = true;
        } else if has_v && str_eq(arg, "--db") {
            a.db = Some(argv[i + 1].clone());
            skip = true;
        } else if str_eq(arg, "--portable") {
            a.portable = true;
        } else if str_eq(arg, "--dump-state") {
            a.dump_state = true;
        } else if has_v && str_eq(arg, "--open") {
            a.open = Some(argv[i + 1].clone());
            skip = true;
        } else if str_eq(arg, "--share") {
            a.share = Some(LAN_SHARE_PORT);
        } else if has_v && str_eq(arg, "--share-port") {
            match parse_bounded(argv[i + 1].as_str(), u16::MAX as u64) {
                Some(p) => {
                    a.share = Some(p as u16);
                },
                None => {},
            }
            skip = true;
        } else if has_v && str_eq(arg, "--pull") {
            a.pull = Some(argv[i + 1].clone());
            skip = true;
        } else if str_eq(arg, "--measure-startup") {
            a.measure_startup = true;
        } else if str_eq(arg, "--touch") {
            a.touch = true;
        } else {
            let ac = chars_of(arg);
            if !(ac.len() > 0 && ac[0] == '-') {
                if a.open.is_none() {
                    a.open = Some(argv[i].clone());
                }
            }
        }
        assert(a@ == o2);
        if skip {
            i = i + 2;
        } else {
            i = i + 1;
        }
        assert(j == i);
    }
    a
}

} // verus!
