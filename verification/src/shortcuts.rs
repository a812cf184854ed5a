//! Markdown line shortcuts: typing a trigger prefix and a space (or the
//! exact token) turns the block being edited into another kind, with the
//! trigger stripped. Code, divider and formula blocks never convert: their
//! text legitimately starts with these characters.

use vstd::prelude::*;

use crate::doc::BlockKind;
use crate::text::{chars_of, string_of};

verus! {

/// `s` with the prefix `p` taken off, when `s` starts with `p`.
pub open spec fn strip(s: Seq<char>, p: Seq<char>) -> Option<Seq<char>> {
    if p.is_prefix_of(s) {
        Some(s.skip(p.len() as int))
    } else {
        None
    }
}

pub open spec fn is_ascii_digit(c: char) -> bool {
    '0' <= c && c <= '9'
}

/// The first position of ". " in `s`, if any.
pub open spec fn first_dot_space(s: Seq<char>, i: int) -> Option<int>
    decreases s.len() - i,
{
    if i < 0 || i + 1 >= s.len() {
        None
    } else if s[i] == '.' && s[i + 1] == ' ' {
        Some(i)
    } else {
        first_dot_space(s, i + 1)
    }
}

/// `12. rest` gives `rest`: one or more ASCII digits, then the first ". ".
pub open spec fn numbered_spec(s: Seq<char>) -> Option<Seq<char>> {
    match first_dot_space(s, 0) {
        Some(dot) => if dot > 0 && forall|j: int| 0 <= j < dot ==> is_ascii_digit(#[trigger] s[j]) {
            Some(s.skip(dot + 2))
        } else {
            None
        },
        None => None,
    }
}

/// What a line converts to: the new kind, the text left once the trigger is
/// stripped, and whether the block lands checked (`Some(true)` for `[x] `).
pub open spec fn convert_spec(s: Seq<char>, current: Option<BlockKind>) -> Option<(BlockKind, Seq<char>, Option<bool>)> {
    if current == Some(BlockKind::Code) || current == Some(BlockKind::Divider) || current == Some(BlockKind::Math) {
        None
    } else if strip(s, "### "@) is Some {
        Some((BlockKind::Heading3, strip(s, "### "@)->0, None))
    } else if strip(s, "## "@) is Some {
        Some((BlockKind::Heading2, strip(s, "## "@)->0, None))
    } else if strip(s, "# "@) is Some {
        Some((BlockKind::Heading1, strip(s, "# "@)->0, None))
    } else if strip(s, "- "@) is Some {
        Some((BlockKind::Bullet, strip(s, "- "@)->0, None))
    } else if strip(s, "* "@) is Some {
        Some((BlockKind::Bullet, strip(s, "* "@)->0, None))
    } else if strip(s, "[x] "@) is Some {
        Some((BlockKind::Todo, strip(s, "[x] "@)->0, Some(true)))
    } else if strip(s, "[] "@) is Some {
        Some((BlockKind::Todo, strip(s, "[] "@)->0, None))
    } else if strip(s, "[ ] "@) is Some {
        Some((BlockKind::Todo, strip(s, "[ ] "@)->0, None))
    } else if strip(s, "> "@) is Some {
        Some((BlockKind::Quote, strip(s, "> "@)->0, None))
    } else if numbered_spec(s) is Some {
        Some((BlockKind::Numbered, numbered_spec(s)->0, None))
    } else if s == "---"@ {
        Some((BlockKind::Divider, Seq::empty(), None))
    } else if s == "```"@ {
        Some((BlockKind::Code, Seq::empty(), None))
    } else if strip(s, "$$ "@) is Some {
        Some((BlockKind::Math, strip(s, "$$ "@)->0, None))
    } else if s == "$$"@ {
        Some((BlockKind::Math, Seq::empty(), None))
    } else {
        None
    }
}

/// The text after `p`, when `s` starts with it.
fn strip_prefix(s: &Vec<char>, p: &str) -> (r: Option<Vec<char>>)
    ensures
        match r {
            Some(rest) => strip(s@, p@) == Some(rest@),
            None => strip(s@, p@) is None,
        },
{
    let pc = chars_of(p);
    if pc.len() > s.len() {
        return None;
    }
    let mut i: usize = 0;
    while i < pc.len()
        invariant
            pc@ == p@,
            pc@.len() <= s@.len(),
            i <= pc@.len(),
            forall|j: int| 0 <= j < i ==> s@[j] == pc@[j],
        decreases pc@.len() - i,
    {
        if s[i] != pc[i] {
            assert(!p@.is_prefix_of(s@));
            return None;
        }
        i = i + 1;
    }
    assert(p@.is_prefix_of(s@)) by {
        assert(s@.take(pc@.len() as int) =~= p@);
    }
    let mut rest: Vec<char> = Vec::new();
    let mut k: usize = pc.len();
    while k < s.len()
        invariant
            pc@.len() <= k <= s@.len(),
            rest@ == s@.subrange(pc@.len() as int, k as int),
        decreases s@.len() - k,
    {
        rest.push(s[k]);
        k = k + 1;
        assert(rest@ =~= s@.subrange(pc@.len() as int, k as int));
    }
    assert(rest@ =~= s@.skip(pc@.len() as int));
    Some(rest)
}

fn same_as(s: &Vec<char>, p: &str) -> (r: bool)
    ensures
        r == (s@ == p@),
{
    let pc = chars_of(p);
    if pc.len() != s.len() {
        return false;
    }
    let mut i: usize = 0;
    while i < pc.len()
        invariant
            pc@ == p@,
            pc@.len() == s@.len(),
            i <= pc@.len(),
            forall|j: int| 0 <= j < i ==> s@[j] == pc@[j],
        decreases pc@.len() - i,
    {
        if s[i] != pc[i] {
            return false;
        }
        i = i + 1;
    }
    assert(s@ =~= p@);
    true
}

/// `12. rest` gives `rest`; digits and ". " only.
pub fn numbered_prefix(text: &str) -> (r: Option<String>)
    ensures
        match r {
            Some(rest) => numbered_spec(text@) == Some(rest@),
            None => numbered_spec(text@) is None,
        },
{
    let s = chars_of(text);
    let n = s.len();
    let mut dot: usize = 0;
    let mut found = false;
    assert(first_dot_space(s@, 0) == first_dot_space(s@, 0));
    while n >= 2 && dot < n - 1 && !found
        invariant
            n == s@.len(),
            dot <= n,
            s@ == text@,
            !found ==> first_dot_space(s@, 0) == first_dot_space(s@, dot as int),
            found ==> first_dot_space(s@, 0) == Some(dot as int) && dot + 1 < n,
        decreases n - dot, (if found { 0int } else { 1int }),
    {
        if s[dot] == '.' && s[dot + 1] == ' ' {
            found = true;
        } else {
            dot = dot + 1;
        }
    }
    if !found {
        assert(first_dot_space(s@, dot as int) is None);
        return None;
    }
    assert(first_dot_space(s@, 0) == Some(dot as int));
    if dot == 0 {
        return None;
    }
    let mut j: usize = 0;
    while j < dot
        invariant
            dot + 1 < n,
            n == s@.len(),
            s@ == text@,
            first_dot_space(s@, 0) == Some(dot as int),
            j <= dot,
            forall|t: int| 0 <= t < j ==> is_ascii_digit(#[trigger] s@[t]),
        decreases dot - j,
    {
        if !(s[j] >= '0' && s[j] <= '9') {
            assert(!is_ascii_digit(s@[j as int]));
            return None;
        }
        j = j + 1;
    }
    let mut rest: Vec<char> = Vec::new();
    let mut k: usize = dot + 2;
    while k < n
        invariant
            dot + 2 <= k <= n,
            n == s@.len(),
            rest@ == s@.subrange(dot + 2, k as int),
        decreases n - k,
    {
        rest.push(s[k]);
        k = k + 1;
        assert(rest@ =~= s@.subrange(dot + 2, k as int));
    }
    assert(rest@ =~= s@.skip(dot + 2));
    Some(string_of(rest.as_slice()))
}

fn opt_same_kind(a: Option<BlockKind>, b: BlockKind) -> (r: bool)
    ensures
        r == (a == Some(b)),
{
    match a {
        Some(x) => x == b,
        None => false,
    }
}

/// The kind a line converts the block to, the text left once the trigger
/// is stripped, and whether the block lands checked (see `convert_spec`).
pub fn markdown_convert(text: &str, current: Option<BlockKind>) -> (r: Option<(BlockKind, String, Option<bool>)>)
    ensures
        match r {
            Some((k, rest, checked)) => convert_spec(text@, current) == Some((k, rest@, checked)),
            None => convert_spec(text@, current) is None,
        },
{
    if opt_same_kind(current, BlockKind::Code) || opt_same_kind(current, BlockKind::Divider) || opt_same_kind(current, BlockKind::Math) {
        return None;
    }
    let s = chars_of(text);
    if let Some(rest) = strip_prefix(&s, "### ") {
        return Some((BlockKind::Heading3, string_of(rest.as_slice()), None));
    }
    if let Some(rest) = strip_prefix(&s, "## ") {
        return Some((BlockKind::Heading2, string_of(rest.as_slice()), None));
    }
    if let Some(rest) = strip_prefix(&s, "# ") {
        return Some((BlockKind::Heading1, string_of(rest.as_slice()), None));
    }
    if let Some(rest) = strip_prefix(&s, "- ") {
        return Some((BlockKind::Bullet, string_of(rest.as_slice()), None));
    }
    if let Some(rest) = strip_prefix(&s, "* ") {
        return Some((BlockKind::Bullet, string_of(rest.as_slice()), None));
    }
    if let Some(rest) = strip_prefix(&s, "[x] ") {
        return Some((BlockKind::Todo, string_of(rest.as_slice()), Some(true)));
    }
    if let Some(rest) = strip_prefix(&s, "[] ") {
        return Some((BlockKind::Todo, string_of(rest.as_slice()), None));
    }
    if let Some(rest) = strip_prefix(&s, "[ ] ") {
        return Some((BlockKind::Todo, string_of(rest.as_slice()), None));
    }
    if let Some(rest) = strip_prefix(&s, "> ") {
        return Some((BlockKind::Quote, string_of(rest.as_slice()), None));
    }
    if let Some(rest) = numbered_prefix(text) {
        return Some((BlockKind::Numbered, rest, None));
    }
    if same_as(&s, "---") {
        return Some((BlockKind::Divider, String::new(), None));
    }
    if same_as(&s, "```") {
        return Some((BlockKind::Code, String::new(), None));
    }
    if let Some(rest) = strip_prefix(&s, "$$ ") {
        return Some((BlockKind::Math, string_of(rest.as_slice()), None));
    }
    if same_as(&s, "$$") {
        return Some((BlockKind::Math, String::new(), None));
    }
    None
}

// ─── what each trigger does ─────────────────────────────────────────────────

/// The block kinds whose text never converts.
pub open spec fn exempt(current: Option<BlockKind>) -> bool {
    current == Some(BlockKind::Code) || current == Some(BlockKind::Divider) || current == Some(BlockKind::Math)
}

proof fn lemma_prefix_strip(p: Seq<char>, rest: Seq<char>)
    ensures
        strip(p + rest, p) == Some(rest),
{
    assert((p + rest).subrange(0, p.len() as int) =~= p);
    assert((p + rest).skip(p.len() as int) =~= rest);
}

proof fn lemma_no_strip(p: Seq<char>, s: Seq<char>, i: int)
    requires
        0 <= i < p.len(),
        i < s.len(),
        p[i] != s[i],
    ensures
        strip(s, p) is None,
{
    if p.is_prefix_of(s) {
        assert(s.subrange(0, p.len() as int)[i] == s[i]);
    }
}

/// A `". "` found from `i` on lies at or after `i`, at a `'.'`.
proof fn lemma_first_dot_space(s: Seq<char>, i: int)
    ensures
        first_dot_space(s, i) matches Some(d) ==> i <= d && d + 1 < s.len() && s[d] == '.' && s[d + 1] == ' ',
    decreases s.len() - i,
{
    if !(i < 0 || i + 1 >= s.len()) && !(s[i] == '.' && s[i + 1] == ' ') {
        lemma_first_dot_space(s, i + 1);
    }
}

/// A line that does not start with a digit is no numbered-list trigger.
proof fn lemma_not_numbered(s: Seq<char>)
    requires
        s.len() > 0,
        !is_ascii_digit(s[0]),
    ensures
        numbered_spec(s) is None,
{
    lemma_first_dot_space(s, 0);
    if let Some(d) = first_dot_space(s, 0) {
        if d == 0 {
            assert(s[0] == '.');
        }
    }
}

/// Code, divider and formula blocks never convert, whatever their text.
pub proof fn lemma_exempt_blocks_stay(s: Seq<char>, current: Option<BlockKind>)
    requires
        exempt(current),
    ensures
        convert_spec(s, current) is None,
{
}

/// `"# "`, `"## "` and `"### "` turn a block into a heading of that level,
/// the trigger stripped.
pub proof fn lemma_heading_triggers(rest: Seq<char>, current: Option<BlockKind>)
    requires
        !exempt(current),
    ensures
        convert_spec(seq!['#', ' '] + rest, current) == Some((BlockKind::Heading1, rest, None::<bool>)),
        convert_spec(seq!['#', '#', ' '] + rest, current) == Some((BlockKind::Heading2, rest, None::<bool>)),
        convert_spec(seq!['#', '#', '#', ' '] + rest, current) == Some((BlockKind::Heading3, rest, None::<bool>)),
{
    reveal_strlit("### ");
    reveal_strlit("## ");
    reveal_strlit("# ");
    let s1 = seq!['#', ' '] + rest;
    let s2 = seq!['#', '#', ' '] + rest;
    let s3 = seq!['#', '#', '#', ' '] + rest;
    assert("# "@ =~= seq!['#', ' ']);
    assert("## "@ =~= seq!['#', '#', ' ']);
    assert("### "@ =~= seq!['#', '#', '#', ' ']);
    lemma_no_strip("### "@, s1, 1);
    lemma_no_strip("## "@, s1, 1);
    lemma_prefix_strip(seq!['#', ' '], rest);
    lemma_no_strip("### "@, s2, 2);
    lemma_prefix_strip(seq!['#', '#', ' '], rest);
    lemma_prefix_strip(seq!['#', '#', '#', ' '], rest);
}

/// `"- "` and `"* "` turn a block into a bullet, the trigger stripped.
pub proof fn lemma_bullet_triggers(rest: Seq<char>, current: Option<BlockKind>)
    requires
        !exempt(current),
    ensures
        convert_spec(seq!['-', ' '] + rest, current) == Some((BlockKind::Bullet, rest, None::<bool>)),
        convert_spec(seq!['*', ' '] + rest, current) == Some((BlockKind::Bullet, rest, None::<bool>)),
{
    reveal_strlit("### ");
    reveal_strlit("## ");
    reveal_strlit("# ");
    reveal_strlit("- ");
    reveal_strlit("* ");
    let a = seq!['-', ' '] + rest;
    let b = seq!['*', ' '] + rest;
    lemma_no_strip("### "@, a, 0);
    lemma_no_strip("## "@, a, 0);
    lemma_no_strip("# "@, a, 0);
    assert("- "@ =~= seq!['-', ' ']);
    lemma_prefix_strip(seq!['-', ' '], rest);
    lemma_no_strip("### "@, b, 0);
    lemma_no_strip("## "@, b, 0);
    lemma_no_strip("# "@, b, 0);
    lemma_no_strip("- "@, b, 0);
    assert("* "@ =~= seq!['*', ' ']);
    lemma_prefix_strip(seq!['*', ' '], rest);
}

/// `"[x] "` turns a block into a checked to-do; `"[] "` and `"[ ] "` into an
/// unchecked one; the trigger stripped.
pub proof fn lemma_todo_triggers(rest: Seq<char>, current: Option<BlockKind>)
    requires
        !exempt(current),
    ensures
        convert_spec(seq!['[', 'x', ']', ' '] + rest, current) == Some((BlockKind::Todo, rest, Some(true))),
        convert_spec(seq!['[', ']', ' '] + rest, current) == Some((BlockKind::Todo, rest, None::<bool>)),
        convert_spec(seq!['[', ' ', ']', ' '] + rest, current) == Some((BlockKind::Todo, rest, None::<bool>)),
{
    reveal_strlit("### ");
    reveal_strlit("## ");
    reveal_strlit("# ");
    reveal_strlit("- ");
    reveal_strlit("* ");
    reveal_strlit("[x] ");
    reveal_strlit("[] ");
    reveal_strlit("[ ] ");
    let a = seq!['[', 'x', ']', ' '] + rest;
    let b = seq!['[', ']', ' '] + rest;
    let c = seq!['[', ' ', ']', ' '] + rest;
    lemma_no_strip("### "@, a, 0);
    lemma_no_strip("## "@, a, 0);
    lemma_no_strip("# "@, a, 0);
    lemma_no_strip("- "@, a, 0);
    lemma_no_strip("* "@, a, 0);
    assert("[x] "@ =~= seq!['[', 'x', ']', ' ']);
    lemma_prefix_strip(seq!['[', 'x', ']', ' '], rest);
    lemma_no_strip("### "@, b, 0);
    lemma_no_strip("## "@, b, 0);
    lemma_no_strip("# "@, b, 0);
    lemma_no_strip("- "@, b, 0);
    lemma_no_strip("* "@, b, 0);
    lemma_no_strip("[x] "@, b, 1);
    assert("[] "@ =~= seq!['[', ']', ' ']);
    lemma_prefix_strip(seq!['[', ']', ' '], rest);
    lemma_no_strip("### "@, c, 0);
    lemma_no_strip("## "@, c, 0);
    lemma_no_strip("# "@, c, 0);
    lemma_no_strip("- "@, c, 0);
    lemma_no_strip("* "@, c, 0);
    lemma_no_strip("[x] "@, c, 1);
    lemma_no_strip("[] "@, c, 1);
    assert("[ ] "@ =~= seq!['[', ' ', ']', ' ']);
    lemma_prefix_strip(seq!['[', ' ', ']', ' '], rest);
}

/// A line that starts with none of `#`, `-`, `*` and `[` matches no heading,
/// bullet or to-do trigger.
proof fn lemma_early_triggers_miss(s: Seq<char>)
    requires
        s.len() > 0,
        s[0] != '#' && s[0] != '-' && s[0] != '*' && s[0] != '[',
    ensures
        strip(s, "### "@) is None,
        strip(s, "## "@) is None,
        strip(s, "# "@) is None,
        strip(s, "- "@) is None,
        strip(s, "* "@) is None,
        strip(s, "[x] "@) is None,
        strip(s, "[] "@) is None,
        strip(s, "[ ] "@) is None,
{
    reveal_strlit("### ");
    reveal_strlit("## ");
    reveal_strlit("# ");
    reveal_strlit("- ");
    reveal_strlit("* ");
    reveal_strlit("[x] ");
    reveal_strlit("[] ");
    reveal_strlit("[ ] ");
    lemma_no_strip("### "@, s, 0);
    lemma_no_strip("## "@, s, 0);
    lemma_no_strip("# "@, s, 0);
    lemma_no_strip("- "@, s, 0);
    lemma_no_strip("* "@, s, 0);
    lemma_no_strip("[x] "@, s, 0);
    lemma_no_strip("[] "@, s, 0);
    lemma_no_strip("[ ] "@, s, 0);
}

/// `"> "` turns a block into a quote, the trigger stripped.
pub proof fn lemma_quote_trigger(rest: Seq<char>, current: Option<BlockKind>)
    requires
        !exempt(current),
    ensures
        convert_spec(seq!['>', ' '] + rest, current) == Some((BlockKind::Quote, rest, None::<bool>)),
{
    reveal_strlit("> ");
    lemma_early_triggers_miss(seq!['>', ' '] + rest);
    assert("> "@ =~= seq!['>', ' ']);
    lemma_prefix_strip(seq!['>', ' '], rest);
}

/// One or more digits and `". "` turn a block into a numbered item, the
/// number and its `". "` stripped.
pub proof fn lemma_numbered_trigger(digits: Seq<char>, rest: Seq<char>, current: Option<BlockKind>)
    requires
        !exempt(current),
        digits.len() > 0,
        forall|i: int| 0 <= i < digits.len() ==> is_ascii_digit(#[trigger] digits[i]),
    ensures
        convert_spec(digits + seq!['.', ' '] + rest, current) == Some((BlockKind::Numbered, rest, None::<bool>)),
{
    reveal_strlit("> ");
    let s = digits + seq!['.', ' '] + rest;
    assert(s[0] == digits[0]);
    lemma_early_triggers_miss(s);
    lemma_no_strip("> "@, s, 0);
    let n = digits.len() as int;
    assert forall|i: int| 0 <= i <= n implies first_dot_space(s, i) == Some(n) by {
        lemma_dot_from(s, i, n);
    }
    assert(s.skip(n + 2) =~= rest);
    assert forall|j: int| 0 <= j < n implies is_ascii_digit(#[trigger] s[j]) by {
        assert(s[j] == digits[j]);
    }
}

proof fn lemma_dot_from(s: Seq<char>, i: int, n: int)
    requires
        0 <= i <= n,
        n + 1 < s.len(),
        s[n] == '.' && s[n + 1] == ' ',
        forall|j: int| 0 <= j < n ==> is_ascii_digit(#[trigger] s[j]),
    ensures
        first_dot_space(s, i) == Some(n),
    decreases n - i,
{
    if i < n {
        assert(is_ascii_digit(s[i]));
        lemma_dot_from(s, i + 1, n);
    }
}

/// The whole lines `"---"`, `"```"` and `"$$"` turn a block into a divider,
/// a code block and a formula, with no text left.
pub proof fn lemma_token_lines(current: Option<BlockKind>)
    requires
        !exempt(current),
    ensures
        convert_spec(seq!['-', '-', '-'], current) == Some((BlockKind::Divider, Seq::<char>::empty(), None::<bool>)),
        convert_spec(seq!['`', '`', '`'], current) == Some((BlockKind::Code, Seq::<char>::empty(), None::<bool>)),
        convert_spec(seq!['$', '$'], current) == Some((BlockKind::Math, Seq::<char>::empty(), None::<bool>)),
{
    reveal_strlit("### ");
    reveal_strlit("## ");
    reveal_strlit("# ");
    reveal_strlit("- ");
    reveal_strlit("* ");
    reveal_strlit("> ");
    reveal_strlit("---");
    reveal_strlit("```");
    reveal_strlit("$$ ");
    reveal_strlit("$$");
    let d = seq!['-', '-', '-'];
    lemma_no_strip("### "@, d, 0);
    lemma_no_strip("## "@, d, 0);
    lemma_no_strip("# "@, d, 0);
    lemma_no_strip("- "@, d, 1);
    lemma_no_strip("* "@, d, 0);
    lemma_early_triggers_miss(seq!['`', '`', '`']);
    lemma_early_triggers_miss(seq!['$', '$']);
    let c = seq!['`', '`', '`'];
    let m = seq!['$', '$'];
    lemma_no_strip("> "@, d, 0);
    lemma_no_strip("> "@, c, 0);
    lemma_no_strip("> "@, m, 0);
    lemma_not_numbered(d);
    lemma_not_numbered(c);
    lemma_not_numbered(m);
    reveal_strlit("[x] ");
    reveal_strlit("[] ");
    reveal_strlit("[ ] ");
    lemma_no_strip("[x] "@, d, 0);
    lemma_no_strip("[] "@, d, 0);
    lemma_no_strip("[ ] "@, d, 0);
    assert("---"@ =~= d);
    assert("```"@ =~= c);
    assert("---"@ != c) by {
        assert("---"@[0] != c[0]);
    }
    assert("---"@ != m) by {
        assert("---"@.len() != m.len());
    }
    assert("```"@ != m) by {
        assert("```"@.len() != m.len());
    }
    assert(!("$$ "@.is_prefix_of(m)));
    assert("$$"@ =~= m);
}

/// `"$$ "` turns a block into a formula, the trigger stripped.
pub proof fn lemma_math_trigger(rest: Seq<char>, current: Option<BlockKind>)
    requires
        !exempt(current),
    ensures
        convert_spec(seq!['$', '$', ' '] + rest, current) == Some((BlockKind::Math, rest, None::<bool>)),
{
    reveal_strlit("> ");
    reveal_strlit("---");
    reveal_strlit("```");
    reveal_strlit("$$ ");
    let s = seq!['$', '$', ' '] + rest;
    lemma_early_triggers_miss(s);
    lemma_no_strip("> "@, s, 0);
    lemma_not_numbered(s);
    assert("---"@ != s) by {
        assert("---"@[0] != s[0]);
    }
    assert("```"@ != s) by {
        assert("```"@[0] != s[0]);
    }
    assert("$$ "@ =~= seq!['$', '$', ' ']);
    lemma_prefix_strip(seq!['$', '$', ' '], rest);
}

/// A line that starts with a letter is no trigger: the block stays as it is.
pub proof fn lemma_plain_line_stays(s: Seq<char>, current: Option<BlockKind>)
    requires
        s.len() > 0,
        ('a' <= s[0] && s[0] <= 'z') || ('A' <= s[0] && s[0] <= 'Z'),
    ensures
        convert_spec(s, current) is None,
{
    reveal_strlit("> ");
    reveal_strlit("---");
    reveal_strlit("```");
    reveal_strlit("$$ ");
    reveal_strlit("$$");
    lemma_early_triggers_miss(s);
    lemma_no_strip("> "@, s, 0);
    lemma_no_strip("$$ "@, s, 0);
    lemma_not_numbered(s);
    assert("---"@ != s) by {
        assert("---"@[0] != s[0]);
    }
    assert("```"@ != s) by {
        assert("```"@[0] != s[0]);
    }
    assert("$$"@ != s) by {
        assert("$$"@[0] != s[0]);
    }
}

} // verus!
