//! Small decisions of the shell around the editor: which benchmark page a
//! page-switch run opens next, and the title an imported page gets.

use vstd::prelude::*;

use crate::text::{chars_of, string_of, trim, trimmed};
use vstd::string::StringExecFns;

verus! {

broadcast use vstd::string::group_string_axioms;

/// The next page of a page-switch run: the page under the cursor (taken
/// round the list), and the cursor's next place; nothing for an empty list.
pub fn bench_step(ids: &[i32], cursor: usize) -> (r: Option<(i32, usize)>)
    ensures
        ids@.len() == 0 ==> r is None,
        ids@.len() > 0 ==> r == Some((ids@[cursor as int % ids@.len() as int], ((cursor + 1) % (ids@.len() as int)) as usize)),
{
    let n = ids.len();
    if n == 0 {
        return None;
    }
    let at = cursor % n;
    let next = if at + 1 == n { 0 } else { at + 1 };
    assert(next as int == (cursor + 1) % (n as int)) by (nonlinear_arith)
        requires
            n > 0,
            at as int == cursor as int % n as int,
            next as int == (if at + 1 == n { 0 } else { at + 1 }),
    {
        assert(cursor as int == (cursor as int / n as int) * n as int + at as int);
    }
    Some((ids[at], next))
}

/// The title a page imported from another install gets: its own title
/// trimmed, or "已导入" when that leaves nothing.
pub open spec fn import_title_spec(title: Seq<char>) -> Seq<char> {
    if trim(title).len() == 0 { "已导入"@ } else { trim(title) }
}

pub fn import_title(title: &str) -> (r: String)
    ensures
        r@ == import_title_spec(title@),
{
    let cs = chars_of(title);
    let t = trimmed(cs.as_slice(), 0, cs.len());
    assert(cs@.subrange(0, cs@.len() as int) =~= title@);
    if t.len() == 0 {
        String::from_str("已导入")
    } else {
        string_of(t.as_slice())
    }
}

} // verus!
