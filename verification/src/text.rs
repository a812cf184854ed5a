//! Character-level helpers shared by the workspace search and the editor's
//! shortcut rules.

use vstd::prelude::*;

verus! {

broadcast use vstd::string::group_string_axioms;

/// `String::push` appends one character.
pub assume_specification[ String::push ](s: &mut String, ch: char)
    ensures
        final(s)@ == old(s)@.push(ch),
;

/// The characters of `s`, in order.
pub fn chars_of(s: &str) -> (r: Vec<char>)
    ensures
        r@ == s@,
{
    let mut out: Vec<char> = Vec::new();
    for c in it: s.chars()
        invariant
            out@ == it.seq().take(it.index() as int),
            it.seq() == s@,
    {
        out.push(c);
    }
    out
}

/// The string made of `cs`.
pub fn string_of(cs: &[char]) -> (r: String)
    ensures
        r@ == cs@,
{
    let mut out = String::new();
    let mut i: usize = 0;
    while i < cs.len()
        invariant
            i <= cs@.len(),
            out@ == cs@.take(i as int),
        decreases cs@.len() - i,
    {
        out.push(cs[i]);
        i = i + 1;
        assert(cs@.take(i as int) =~= cs@.take(i - 1).push(cs@[i - 1]));
    }
    assert(cs@.take(cs@.len() as int) =~= cs@);
    out
}

/// Do two strings hold the same characters?
pub fn str_eq(a: &str, b: &str) -> (r: bool)
    ensures
        r == (a@ == b@),
{
    let x = chars_of(a);
    let y = chars_of(b);
    if x.len() != y.len() {
        return false;
    }
    let mut i: usize = 0;
    while i < x.len()
        invariant
            x@ == a@,
            y@ == b@,
            x@.len() == y@.len(),
            i <= x@.len(),
            forall|j: int| 0 <= j < i ==> x@[j] == y@[j],
        decreases x@.len() - i,
    {
        if x[i] != y[i] {
            return false;
        }
        i = i + 1;
    }
    assert(x@ =~= y@);
    true
}

/// ASCII-only lower-casing of one character.
pub open spec fn spec_lower_ascii(c: char) -> char {
    if 'A' <= c && c <= 'Z' {
        ((c as u32) + 32) as char
    } else {
        c
    }
}

pub fn lower_ascii(c: char) -> (r: char)
    ensures
        r == spec_lower_ascii(c),
{
    if 'A' <= c && c <= 'Z' {
        let b: u8 = c as u8;
        (b + 32) as char
    } else {
        c
    }
}

/// Unicode `White_Space`: what `str::trim` strips.
pub open spec fn white_space(c: char) -> bool {
    ('\u{9}' <= c && c <= '\u{d}') || c == ' ' || c == '\u{85}' || c == '\u{a0}' || c == '\u{1680}'
        || ('\u{2000}' <= c && c <= '\u{200a}') || c == '\u{2028}' || c == '\u{2029}' || c
        == '\u{202f}' || c == '\u{205f}' || c == '\u{3000}'
}

pub fn is_white_space(c: char) -> (r: bool)
    ensures
        r == white_space(c),
{
    ('\u{9}' <= c && c <= '\u{d}') || c == ' ' || c == '\u{85}' || c == '\u{a0}' || c == '\u{1680}'
        || ('\u{2000}' <= c && c <= '\u{200a}') || c == '\u{2028}' || c == '\u{2029}' || c
        == '\u{202f}' || c == '\u{205f}' || c == '\u{3000}'
}

/// `s` without its leading white space.
pub open spec fn trim_front(s: Seq<char>) -> Seq<char>
    decreases s.len(),
{
    if s.len() > 0 && white_space(s[0]) {
        trim_front(s.drop_first())
    } else {
        s
    }
}

/// `s` without its trailing white space.
pub open spec fn trim_back(s: Seq<char>) -> Seq<char>
    decreases s.len(),
{
    if s.len() > 0 && white_space(s.last()) {
        trim_back(s.drop_last())
    } else {
        s
    }
}

/// `s` without leading or trailing white space.
pub open spec fn trim(s: Seq<char>) -> Seq<char> {
    trim_back(trim_front(s))
}

/// The characters of `cs[lo..hi]` without leading or trailing white space.
pub fn trimmed(cs: &[char], lo: usize, hi: usize) -> (r: Vec<char>)
    requires
        lo <= hi <= cs@.len(),
    ensures
        r@ == trim(cs@.subrange(lo as int, hi as int)),
{
    let ghost w = cs@.subrange(lo as int, hi as int);
    let mut a: usize = lo;
    assert(w.skip(0) =~= w);
    while a < hi && is_white_space(cs[a])
        invariant
            lo <= a <= hi <= cs@.len(),
            w == cs@.subrange(lo as int, hi as int),
            trim_front(w) == trim_front(cs@.subrange(a as int, hi as int)),
        decreases hi - a,
    {
        assert(cs@.subrange(a as int, hi as int).drop_first() =~= cs@.subrange(a + 1, hi as int));
        a = a + 1;
    }
    assert(trim_front(cs@.subrange(a as int, hi as int)) == cs@.subrange(a as int, hi as int));
    let mut b: usize = hi;
    while b > a && is_white_space(cs[b - 1])
        invariant
            lo <= a <= b <= hi <= cs@.len(),
            trim(w) == trim_back(cs@.subrange(a as int, b as int)),
        decreases b - a,
    {
        assert(cs@.subrange(a as int, b as int).drop_last() =~= cs@.subrange(a as int, b - 1));
        b = b - 1;
    }
    let mut out: Vec<char> = Vec::new();
    let mut i: usize = a;
    while i < b
        invariant
            a <= i <= b <= cs@.len(),
            out@ == cs@.subrange(a as int, i as int),
        decreases b - i,
    {
        out.push(cs[i]);
        i = i + 1;
        assert(out@ =~= cs@.subrange(a as int, i as int));
    }
    out
}

/// `needle` matches `hay` at `i`, ignoring ASCII case.
pub open spec fn matches_at(hay: Seq<char>, needle: Seq<char>, i: int) -> bool {
    0 <= i && i + needle.len() <= hay.len() && forall|j: int|
        0 <= j < needle.len() ==> spec_lower_ascii(#[trigger] hay[i + j]) == spec_lower_ascii(needle[j])
}

/// The first position at or after `i` where `needle` matches.
pub open spec fn first_match(hay: Seq<char>, needle: Seq<char>, i: int) -> Option<int>
    decreases hay.len() - i,
{
    if i < 0 || i + needle.len() > hay.len() {
        None
    } else if matches_at(hay, needle, i) {
        Some(i)
    } else {
        first_match(hay, needle, i + 1)
    }
}

/// Case-insensitive substring search (ASCII folding only; CJK has no case):
/// the first position of `needle` in `hay`; never for an empty needle.
pub open spec fn find_ci_spec(hay: Seq<char>, needle: Seq<char>) -> Option<int> {
    if needle.len() == 0 {
        None
    } else {
        first_match(hay, needle, 0)
    }
}

pub fn find_ci(hay: &[char], needle: &[char]) -> (r: Option<usize>)
    ensures
        match r {
            Some(p) => find_ci_spec(hay@, needle@) == Some(p as int) && p + needle@.len() <= hay@.len(),
            None => find_ci_spec(hay@, needle@) is None,
        },
{
    if needle.len() == 0 {
        return None;
    }
    if needle.len() > hay.len() {
        return None;
    }
    let hl = hay.len();
    let last = hl - needle.len();
    let mut i: usize = 0;
    while i <= last
        invariant
            hl == hay@.len(),
            last < hl,
            last == hay@.len() - needle@.len(),
            needle@.len() > 0,
            needle@.len() <= hay@.len(),
            i <= last + 1,
            find_ci_spec(hay@, needle@) == first_match(hay@, needle@, i as int),
        decreases last + 1 - i,
    {
        let mut j: usize = 0;
        let mut ok = true;
        while j < needle.len()
            invariant
                i <= last,
                hl == hay@.len(),
                last == hay@.len() - needle@.len(),
                needle@.len() <= hay@.len(),
                j <= needle@.len(),
                ok == (forall|t: int| 0 <= t < j ==> spec_lower_ascii(#[trigger] hay@[i + t]) == spec_lower_ascii(needle@[t])),
            decreases needle@.len() - j,
        {
            if lower_ascii(hay[i + j]) != lower_ascii(needle[j]) {
                ok = false;
            }
            j = j + 1;
        }
        if ok {
            assert(matches_at(hay@, needle@, i as int));
            return Some(i);
        }
        assert(!matches_at(hay@, needle@, i as int));
        i = i + 1;
    }
    assert(first_match(hay@, needle@, i as int) is None);
    None
}

/// A window edge at `i` is a word start: the text's start, or white space
/// just before it.
pub open spec fn word_start(cs: Seq<char>, i: int) -> bool {
    i == 0 || white_space(cs[i - 1])
}

/// A window edge at `i` is a word end: the text's end, or white space at it.
pub open spec fn word_end(cs: Seq<char>, i: int) -> bool {
    i == cs.len() || white_space(cs[i])
}

/// An edge at `i` cuts a word: characters other than white space on both
/// sides.
pub open spec fn cuts_word(cs: Seq<char>, i: int) -> bool {
    0 < i < cs.len() && !white_space(cs[i - 1]) && !white_space(cs[i])
}

/// The first word start in `[i, limit]`, if any.
pub open spec fn next_word_start(cs: Seq<char>, i: int, limit: int) -> Option<int>
    decreases limit - i + 1,
{
    if i > limit {
        None
    } else if word_start(cs, i) {
        Some(i)
    } else {
        next_word_start(cs, i + 1, limit)
    }
}

/// The last word start at or before `i` (there is one: the text's start).
pub open spec fn prev_word_start(cs: Seq<char>, i: int) -> int
    decreases i,
{
    if i <= 0 {
        0
    } else if word_start(cs, i) {
        i
    } else {
        prev_word_start(cs, i - 1)
    }
}

/// The last word end in `[limit, i]`, if any.
pub open spec fn prev_word_end(cs: Seq<char>, i: int, limit: int) -> Option<int>
    decreases i - limit + 1,
{
    if i < limit {
        None
    } else if word_end(cs, i) {
        Some(i)
    } else {
        prev_word_end(cs, i - 1, limit)
    }
}

/// The first word end at or after `i` (there is one: the text's end).
pub open spec fn next_word_end(cs: Seq<char>, i: int) -> int
    decreases cs.len() - i,
{
    if i >= cs.len() {
        cs.len() as int
    } else if word_end(cs, i) {
        i
    } else {
        next_word_end(cs, i + 1)
    }
}

/// Where a window's start lands: unchanged unless it cuts a word; then the
/// next word start, as long as that does not pass the match's start; else
/// back to the start of the cut word.
pub open spec fn snap_start(cs: Seq<char>, start: int, match_start: int) -> int {
    if !cuts_word(cs, start) {
        start
    } else {
        match next_word_start(cs, start, match_start) {
            Some(k) => k,
            None => prev_word_start(cs, start),
        }
    }
}

/// Where a window's end lands: unchanged unless it cuts a word; then the
/// previous word end, as long as that does not pass the match's end; else
/// on to the end of the cut word.
pub open spec fn snap_end(cs: Seq<char>, end: int, match_end: int) -> int {
    if !cuts_word(cs, end) {
        end
    } else {
        match prev_word_end(cs, end, match_end) {
            Some(k) => k,
            None => next_word_end(cs, end),
        }
    }
}

proof fn lemma_next_word_start(cs: Seq<char>, i: int, limit: int)
    ensures
        next_word_start(cs, i, limit) matches Some(k) ==> i <= k <= limit,
    decreases limit - i + 1,
{
    if i <= limit && !word_start(cs, i) {
        lemma_next_word_start(cs, i + 1, limit);
    }
}

proof fn lemma_prev_word_start(cs: Seq<char>, i: int)
    ensures
        0 <= prev_word_start(cs, i) <= if i < 0 { 0 } else { i },
    decreases i,
{
    if i > 0 && !word_start(cs, i) {
        lemma_prev_word_start(cs, i - 1);
    }
}

proof fn lemma_prev_word_end(cs: Seq<char>, i: int, limit: int)
    ensures
        prev_word_end(cs, i, limit) matches Some(k) ==> limit <= k <= i,
    decreases i - limit + 1,
{
    if i >= limit && !word_end(cs, i) {
        lemma_prev_word_end(cs, i - 1, limit);
    }
}

proof fn lemma_next_word_end(cs: Seq<char>, i: int)
    requires
        i <= cs.len(),
    ensures
        i <= next_word_end(cs, i) <= cs.len(),
    decreases cs.len() - i,
{
    if i < cs.len() && !word_end(cs, i) {
        lemma_next_word_end(cs, i + 1);
    }
}

fn is_word_start(cs: &[char], i: usize) -> (r: bool)
    requires
        i <= cs@.len(),
    ensures
        r == word_start(cs@, i as int),
{
    i == 0 || is_white_space(cs[i - 1])
}

fn is_word_end(cs: &[char], i: usize) -> (r: bool)
    requires
        i <= cs@.len(),
    ensures
        r == word_end(cs@, i as int),
{
    i == cs.len() || is_white_space(cs[i])
}

/// Snap a window `[start, end)` around the match `[match_start, match_end)`
/// to whole words.
pub fn snap_to_words(cs: &[char], start: usize, end: usize, match_start: usize, match_end: usize) -> (r: (usize, usize))
    requires
        start <= match_start <= match_end <= end <= cs@.len(),
    ensures
        r.0 == snap_start(cs@, start as int, match_start as int),
        r.1 == snap_end(cs@, end as int, match_end as int),
        r.0 <= match_start,
        match_end <= r.1 <= cs@.len(),
{
    let cut_s = 0 < start && start < cs.len() && !is_white_space(cs[start - 1]) && !is_white_space(cs[start]);
    let mut s = start;
    if cut_s {
        let mut k = start;
        while k < match_start && !is_word_start(cs, k)
            invariant
                start <= k <= match_start,
                match_start <= cs@.len(),
                next_word_start(cs@, start as int, match_start as int) == next_word_start(cs@, k as int, match_start as int),
            decreases match_start - k,
        {
            k = k + 1;
        }
        if is_word_start(cs, k) {
            s = k;
        } else {
            assert(next_word_start(cs@, k + 1, match_start as int) is None);
            assert(next_word_start(cs@, k as int, match_start as int) is None);
            let mut b = start;
            while b > 0 && !is_word_start(cs, b)
                invariant
                    b <= start,
                    start <= cs@.len(),
                    prev_word_start(cs@, start as int) == prev_word_start(cs@, b as int),
                decreases b,
            {
                b = b - 1;
            }
            s = b;
        }
    }
    proof {
        lemma_next_word_start(cs@, start as int, match_start as int);
        lemma_prev_word_start(cs@, start as int);
    }
    let cut_e = 0 < end && end < cs.len() && !is_white_space(cs[end - 1]) && !is_white_space(cs[end]);
    let mut e = end;
    if cut_e {
        let mut k = end;
        while k > match_end && !is_word_end(cs, k)
            invariant
                match_end <= k <= end <= cs@.len(),
                prev_word_end(cs@, end as int, match_end as int) == prev_word_end(cs@, k as int, match_end as int),
            decreases k,
        {
            k = k - 1;
        }
        if is_word_end(cs, k) {
            e = k;
        } else {
            assert(prev_word_end(cs@, k - 1, match_end as int) is None);
            assert(prev_word_end(cs@, k as int, match_end as int) is None);
            let mut f = end;
            while f < cs.len() && !is_word_end(cs, f)
                invariant
                    end <= f <= cs@.len(),
                    next_word_end(cs@, end as int) == next_word_end(cs@, f as int),
                decreases cs@.len() - f,
            {
                f = f + 1;
            }
            e = f;
        }
    }
    proof {
        lemma_prev_word_end(cs@, end as int, match_end as int);
        lemma_next_word_end(cs@, end as int);
    }
    (s, e)
}

/// Newlines read as spaces.
pub open spec fn flatten_lines(s: Seq<char>) -> Seq<char> {
    s.map_values(|c: char| if c == '\n' { ' ' } else { c })
}

/// The text around a match at `pos` of length `nlen`: up to `pad`
/// characters either side, edges snapped to whole words, white space
/// trimmed, an ellipsis on each side where the window stops short of the
/// text's edge, newlines read as spaces.
pub open spec fn snippet_of(text: Seq<char>, pos: int, nlen: int, pad: int) -> Seq<char> {
    let n = text.len() as int;
    let start = if pos >= pad { pos - pad } else { 0 };
    let end = if pos + nlen + pad <= n { pos + nlen + pad } else { n };
    let w = trim(text.subrange(snap_start(text, start, pos), snap_end(text, end, pos + nlen)));
    flatten_lines(
        (if start > 0 { seq!['\u{2026}'] } else { Seq::<char>::empty() }) + w + (if end < n {
            seq!['\u{2026}']
        } else {
            Seq::<char>::empty()
        }),
    )
}

fn push_flat(out: &mut Vec<char>, c: char)
    ensures
        final(out)@ == old(out)@.push(if c == '\n' { ' ' } else { c }),
{
    if c == '\n' {
        out.push(' ');
    } else {
        out.push(c);
    }
}

/// The snippet around a match (see `snippet_of`).
pub fn extract_snippet(text: &str, pos: usize, needle_len: usize, pad: usize) -> (r: String)
    requires
        pos + needle_len <= text@.len(),
    ensures
        r@ == snippet_of(text@, pos as int, needle_len as int, pad as int),
{
    let chars = chars_of(text);
    let n = chars.len();
    let start = if pos >= pad { pos - pad } else { 0 };
    let me = pos + needle_len;
    let room = n - me;
    let end = if pad <= room { me + pad } else { n };
    let (s, e) = snap_to_words(chars.as_slice(), start, end, pos, me);
    let w = trimmed(chars.as_slice(), s, e);
    let ghost body = (if start > 0 { seq!['\u{2026}'] } else { Seq::<char>::empty() }) + w@ + (if end < n {
        seq!['\u{2026}']
    } else {
        Seq::<char>::empty()
    });
    let mut out: Vec<char> = Vec::new();
    let mut k: usize = 0;
    if start > 0 {
        push_flat(&mut out, '\u{2026}');
        k = 1;
    }
    let ghost k0 = k;
    let mut i: usize = 0;
    while i < w.len()
        invariant
            k0 as int == (if start > 0 { 1int } else { 0int }),
            i <= w@.len(),
            out@ == flatten_lines(body).take(k0 + i),
            body.len() == k0 + w@.len() + (if end < n { 1int } else { 0int }),
            forall|t: int| 0 <= t < w@.len() ==> body[k0 + t] == w@[t],
        decreases w@.len() - i,
    {
        push_flat(&mut out, w[i]);
        i = i + 1;
        assert(out@ =~= flatten_lines(body).take(k0 + i));
    }
    if end < n {
        push_flat(&mut out, '\u{2026}');
    }
    assert(out@ =~= flatten_lines(body));
    string_of(out.as_slice())
}

/// The decimal spelling of `n`.
pub open spec fn decimal(n: nat) -> Seq<char>
    decreases n,
{
    if n < 10 {
        seq![digit_char(n)]
    } else {
        decimal(n / 10).push(digit_char(n % 10))
    }
}

pub open spec fn digit_char(d: nat) -> char {
    ((d + 48) as u32) as char
}

/// `n` written in decimal.
pub fn decimal_text(n: u64) -> (r: String)
    ensures
        r@ == decimal(n as nat),
    decreases n,
{
    let d: u8 = (n % 10) as u8;
    let c: char = (d + 48) as char;
    if n < 10 {
        let mut s = String::new();
        s.push(c);
        assert(s@ =~= decimal(n as nat));
        s
    } else {
        let mut s = decimal_text(n / 10);
        s.push(c);
        s
    }
}

/// `s` padded with leading zeros to at least three characters.
pub open spec fn zero_pad3(s: Seq<char>) -> Seq<char> {
    if s.len() >= 3 {
        s
    } else {
        Seq::new((3 - s.len()) as nat, |i: int| '0') + s
    }
}

/// `n` in decimal, zero-padded to at least three digits.
pub fn padded3(n: u64) -> (r: String)
    ensures
        r@ == zero_pad3(decimal(n as nat)),
{
    let d = decimal_text(n);
    let len = d.as_str().unicode_len();
    if len >= 3 {
        return d;
    }
    let mut s = String::new();
    let mut k: usize = len;
    while k < 3
        invariant
            len <= k <= 3,
            len == d@.len(),
            s@ == Seq::new((k - len) as nat, |i: int| '0'),
        decreases 3 - k,
    {
        s.push('0');
        k = k + 1;
        assert(s@ =~= Seq::new((k - len) as nat, |i: int| '0'));
    }
    s.append(d.as_str());
    s
}

pub open spec fn is_digit(c: char) -> bool {
    '0' <= c && c <= '9'
}

pub open spec fn all_digits(s: Seq<char>) -> bool {
    forall|i: int| 0 <= i < s.len() ==> is_digit(#[trigger] s[i])
}

/// The number an all-digit string spells.
pub open spec fn digits_value(s: Seq<char>) -> nat
    decreases s.len(),
{
    if s.len() == 0 {
        0
    } else {
        digits_value(s.drop_last()) * 10 + ((s.last() as u32) - 48) as nat
    }
}

/// What `str::parse` gives for an unsigned integer type whose largest value
/// is `max`: an optional `+`, then one or more ASCII digits, the value no
/// larger than `max`.
pub open spec fn parse_unsigned(s: Seq<char>, max: nat) -> Option<nat> {
    let body = if s.len() > 0 && s[0] == '+' { s.drop_first() } else { s };
    if body.len() == 0 || !all_digits(body) {
        None
    } else if digits_value(body) <= max {
        Some(digits_value(body))
    } else {
        None
    }
}

proof fn lemma_digits_grow(s: Seq<char>, i: int)
    requires
        all_digits(s),
        0 <= i <= s.len(),
    ensures
        digits_value(s.take(i)) <= digits_value(s),
    decreases s.len() - i,
{
    if i < s.len() {
        assert(all_digits(s.drop_last()));
        if i < s.len() {
            lemma_digits_grow(s.drop_last(), if i <= s.len() - 1 { i } else { s.len() - 1 });
            assert(s.drop_last().take(i) =~= s.take(i));
        }
    } else {
        assert(s.take(i) =~= s);
    }
}

/// The digits of `decimal(n)` are digits and spell `n`.
pub(crate) proof fn lemma_decimal_digits(n: nat)
    ensures
        decimal(n).len() > 0,
        all_digits(decimal(n)),
        digits_value(decimal(n)) == n,
    decreases n,
{
    if n < 10 {
        assert(((n + 48) as u32) as char as u32 == n + 48);
        let s = decimal(n);
        assert(s[0] == digit_char(n));
        assert(s.drop_last() =~= Seq::<char>::empty());
        assert(s.last() == digit_char(n));
        assert(digits_value(s) == digits_value(s.drop_last()) * 10 + ((s.last() as u32) - 48) as nat);
    } else {
        lemma_decimal_digits(n / 10);
        let d = n % 10;
        assert(((d + 48) as u32) as char as u32 == d + 48);
        let s = decimal(n);
        assert(s.drop_last() =~= decimal(n / 10));
        assert forall|i: int| 0 <= i < s.len() implies is_digit(#[trigger] s[i]) by {
            if i < s.len() - 1 {
                assert(s[i] == decimal(n / 10)[i]);
            }
        }
        assert(s.last() == digit_char(d));
        assert(digits_value(s) == digits_value(s.drop_last()) * 10 + ((s.last() as u32) - 48) as nat);
        assert((n / 10) * 10 + n % 10 == n) by (nonlinear_arith);
    }
}

/// A number written in decimal reads back as itself: what `decimal_text`
/// writes (a status code, a length), `parse_bounded` reads as the same
/// number whenever it fits the range asked for.
pub proof fn lemma_decimal_reads_back(n: nat, max: nat)
    requires
        n <= max,
    ensures
        parse_unsigned(decimal(n), max) == Some(n),
{
    lemma_decimal_digits(n);
    assert(is_digit(decimal(n)[0]));
}

/// Parse an unsigned decimal number no larger than `max`, as `str::parse`
/// does for an unsigned integer type of that range.
pub fn parse_bounded(s: &str, max: u64) -> (r: Option<u64>)
    ensures
        match r {
            Some(v) => parse_unsigned(s@, max as nat) == Some(v as nat),
            None => parse_unsigned(s@, max as nat) is None,
        },
{
    let cs = chars_of(s);
    let n = cs.len();
    let start: usize = if n > 0 && cs[0] == '+' { 1 } else { 0 };
    let ghost body = if cs@.len() > 0 && cs@[0] == '+' { cs@.drop_first() } else { cs@ };
    assert(body =~= cs@.skip(start as int));
    if start >= n {
        return None;
    }
    let mut v: u64 = 0;
    let mut i: usize = start;
    while i < n
        invariant
            start <= i <= n,
            n == cs@.len(),
            cs@ == s@,
            body == cs@.skip(start as int),
            body == (if cs@.len() > 0 && cs@[0] == '+' { cs@.drop_first() } else { cs@ }),
            all_digits(body.take(i - start)),
            v as nat == digits_value(body.take(i - start)),
            v <= max,
        decreases n - i,
    {
        let c = cs[i];
        assert(body[i - start] == c);
        if !('0' <= c && c <= '9') {
            assert(!all_digits(body));
            return None;
        }
        let d: u64 = (c as u32 - 48) as u64;
        assert(body.take(i - start + 1).drop_last() =~= body.take(i - start));
        if d > max || v > (max - d) / 10 {
            proof {
                if d <= max {
                    assert(v * 10 + d > max) by (nonlinear_arith)
                        requires
                            v > (max - d) / 10,
                            d <= max,
                    ;
                }
                assert(digits_value(body.take(i - start + 1)) == v * 10 + d);
                assert(all_digits(body.take(i - start + 1)));
                if all_digits(body) {
                    lemma_digits_grow(body, i - start + 1);
                }
            }
            return None;
        }
        assert(v * 10 + d <= max) by (nonlinear_arith)
            requires
                v <= (max - d) / 10,
                d <= max,
        ;
        v = v * 10 + d;
        i = i + 1;
    }
    assert(body.take(n - start) =~= body);
    Some(v)
}

/// The characters `cs[lo..hi]`.
pub fn slice_chars(cs: &[char], lo: usize, hi: usize) -> (r: Vec<char>)
    requires
        lo <= hi <= cs@.len(),
    ensures
        r@ == cs@.subrange(lo as int, hi as int),
{
    let mut out: Vec<char> = Vec::new();
    let mut i: usize = lo;
    while i < hi
        invariant
            lo <= i <= hi <= cs@.len(),
            out@ == cs@.subrange(lo as int, i as int),
        decreases hi - i,
    {
        out.push(cs[i]);
        i = i + 1;
        assert(out@ =~= cs@.subrange(lo as int, i as int));
    }
    out
}

} // verus!
