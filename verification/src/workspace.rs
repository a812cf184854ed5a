//! The page tree behind the shell's navigation: pages, their parent/child
//! order, favorites, recents, the template library and the local search.
//!
//! Pages live in an arena (`Vec<Page>`) whose ids are pairwise distinct; the
//! abstract view is the map from id to page, the ordered root list, the next
//! id to hand out and the recents list (most recent first).
//!
//! Every walk over the tree (depth-first order, subtree size, ancestors, ...)
//! descends at most as many generations as the workspace holds pages. A
//! forest of `n` pages is never deeper than `n`, so the walks reach every
//! page they are asked about.

use vstd::prelude::*;

use crate::doc::{self, AttachmentId, PageFont};
use crate::text::{self, string_of};
use vstd::string::StringExecFns;

verus! {

broadcast use vstd::string::group_string_axioms;

/// How many pages the Recent section keeps.
pub const MAX_RECENTS: usize = 6;

/// Pages with an id >= this are benchmark fixtures, never listed in the
/// command palette.
pub const BENCH_ID_BASE: i32 = 1000;

/// One page of the tree.
#[derive(Clone)]
pub struct Page {
    pub id: i32,
    pub title: String,
    pub parent: Option<i32>,
    pub children: Vec<i32>,
    pub favorite: bool,
    pub expanded: bool,
    /// Page appearance: typeface and the two layout switches.
    pub font: PageFont,
    pub full_width: bool,
    pub small_text: bool,
    /// The page's own emoji; empty means unset.
    pub icon: String,
    /// The attachment drawn behind the title, if any.
    pub cover: Option<AttachmentId>,
    /// The page's read-only switch.
    pub locked: bool,
    /// A template is kept in `pages` but never attached to the tree.
    pub template: bool,
    /// Title + block text blob, filled by the app layer; the search source.
    pub search_text: String,
}

/// The abstract value of a `Page`: its strings as character sequences.
pub struct PageView {
    pub id: i32,
    pub title: Seq<char>,
    pub parent: Option<i32>,
    pub children: Seq<i32>,
    pub favorite: bool,
    pub expanded: bool,
    pub font: PageFont,
    pub full_width: bool,
    pub small_text: bool,
    pub icon: Seq<char>,
    pub cover: Option<AttachmentId>,
    pub locked: bool,
    pub template: bool,
    pub search_text: Seq<char>,
}

impl View for Page {
    type V = PageView;

    open spec fn view(&self) -> PageView {
        PageView {
            id: self.id,
            title: self.title@,
            parent: self.parent,
            children: self.children@,
            favorite: self.favorite,
            expanded: self.expanded,
            font: self.font,
            full_width: self.full_width,
            small_text: self.small_text,
            icon: self.icon@,
            cover: self.cover,
            locked: self.locked,
            template: self.template,
            search_text: self.search_text@,
        }
    }
}

/// A fresh page as `new_page` makes it: the given title, no parent, no
/// children, every switch off, default font, no icon, no cover, empty search
/// text.
pub open spec fn blank_page(id: i32, title: Seq<char>) -> PageView {
    PageView {
        id,
        title,
        parent: None,
        children: Seq::empty(),
        favorite: false,
        expanded: false,
        font: PageFont::Default,
        full_width: false,
        small_text: false,
        icon: Seq::empty(),
        cover: None,
        locked: false,
        template: false,
        search_text: Seq::empty(),
    }
}

impl Page {
    /// A field-by-field copy.
    pub fn copied(&self) -> (r: Page)
        ensures
            r@ == self@,
    {
        let children = self.children.clone();
        assert(children@ =~= self.children@);
        Page {
            id: self.id,
            title: self.title.clone(),
            parent: self.parent,
            children,
            favorite: self.favorite,
            expanded: self.expanded,
            font: self.font,
            full_width: self.full_width,
            small_text: self.small_text,
            icon: self.icon.clone(),
            cover: self.cover,
            locked: self.locked,
            template: self.template,
            search_text: self.search_text.clone(),
        }
    }

    fn blank(id: i32, title: String) -> (r: Page)
        ensures
            r@ == blank_page(id, title@),
    {
        let children: Vec<i32> = Vec::new();
        Page {
            id,
            title,
            parent: None,
            children,
            favorite: false,
            expanded: false,
            font: PageFont::Default,
            full_width: false,
            small_text: false,
            icon: String::new(),
            cover: None,
            locked: false,
            template: false,
            search_text: String::new(),
        }
    }
}

/// One visible row of the workspace tree (expanded nodes only, pre-flattened).
pub struct TreeRow {
    pub id: i32,
    pub label: String,
    pub depth: i32,
    pub expanded: bool,
    pub has_children: bool,
}

/// One search result.
pub struct SearchHit {
    pub id: i32,
    pub title: String,
    pub breadcrumb: String,
    /// Text around the first content match; empty for title/recents hits.
    pub snippet: String,
}

pub struct Workspace {
    pages: Vec<Page>,
    roots: Vec<i32>,
    next_id: i32,
    recents: Vec<i32>,
}

/// The abstract value of a `Workspace`.
pub struct WorkspaceView {
    pub pages: Map<i32, PageView>,
    pub roots: Seq<i32>,
    pub next_id: int,
    /// Most recent first.
    pub recents: Seq<i32>,
}

/// The map an arena of pages stands for: each page under its id.
pub open spec fn arena_map(s: Seq<Page>) -> Map<i32, PageView>
    decreases s.len(),
{
    if s.len() == 0 {
        Map::empty()
    } else {
        arena_map(s.drop_last()).insert(s.last().id, s.last()@)
    }
}

/// No two pages of the arena share an id.
pub open spec fn distinct_ids(s: Seq<Page>) -> bool {
    forall|i: int, j: int| 0 <= i < s.len() && 0 <= j < s.len() && i != j ==> s[i].id != s[j].id
}

proof fn lemma_arena_dom(s: Seq<Page>, k: i32)
    ensures
        arena_map(s).contains_key(k) <==> exists|i: int| 0 <= i < s.len() && s[i].id == k,
    decreases s.len(),
{
    if s.len() > 0 {
        lemma_arena_dom(s.drop_last(), k);
        if arena_map(s).contains_key(k) && k != s.last().id {
            let i = choose|i: int| 0 <= i < s.drop_last().len() && s.drop_last()[i].id == k;
            assert(s[i].id == k);
        }
        if exists|i: int| 0 <= i < s.len() && s[i].id == k {
            let i = choose|i: int| 0 <= i < s.len() && s[i].id == k;
            if i < s.len() - 1 {
                assert(s.drop_last()[i].id == k);
            }
        }
    }
}

proof fn lemma_arena_at(s: Seq<Page>, i: int)
    requires
        distinct_ids(s),
        0 <= i < s.len(),
    ensures
        arena_map(s).contains_key(s[i].id),
        arena_map(s)[s[i].id] == s[i]@,
    decreases s.len(),
{
    if i < s.len() - 1 {
        assert(distinct_ids(s.drop_last()));
        lemma_arena_at(s.drop_last(), i);
        assert(s.drop_last()[i] == s[i]);
    }
}

proof fn lemma_arena_update(s: Seq<Page>, i: int, p: Page)
    requires
        distinct_ids(s),
        0 <= i < s.len(),
        p.id == s[i].id,
    ensures
        distinct_ids(s.update(i, p)),
        arena_map(s.update(i, p)) == arena_map(s).insert(p.id, p@),
    decreases s.len(),
{
    let t = s.update(i, p);
    if i == s.len() - 1 {
        assert(t.drop_last() =~= s.drop_last());
        assert(arena_map(t) =~= arena_map(s).insert(p.id, p@));
    } else {
        assert(distinct_ids(s.drop_last()));
        lemma_arena_update(s.drop_last(), i, p);
        assert(t.drop_last() =~= s.drop_last().update(i, p));
        assert(arena_map(t) =~= arena_map(s).insert(p.id, p@));
    }
}

proof fn lemma_arena_push(s: Seq<Page>, p: Page)
    requires
        distinct_ids(s),
        !arena_map(s).contains_key(p.id),
    ensures
        distinct_ids(s.push(p)),
        arena_map(s.push(p)) == arena_map(s).insert(p.id, p@),
{
    assert(s.push(p).drop_last() =~= s);
    assert forall|i: int| 0 <= i < s.len() implies s[i].id != p.id by {
        lemma_arena_at(s, i);
    }
}

proof fn lemma_arena_remove(s: Seq<Page>, i: int)
    requires
        distinct_ids(s),
        0 <= i < s.len(),
    ensures
        distinct_ids(s.remove(i)),
        arena_map(s.remove(i)) == arena_map(s).remove(s[i].id),
    decreases s.len(),
{
    let t = s.remove(i);
    if i == s.len() - 1 {
        assert(t =~= s.drop_last());
        assert forall|j: int| 0 <= j < t.len() implies t[j].id != s[i].id by {}
        assert(!arena_map(t).contains_key(s[i].id)) by {
            lemma_arena_dom(t, s[i].id);
        }
        assert(arena_map(t) =~= arena_map(s).remove(s[i].id));
    } else {
        assert(distinct_ids(s.drop_last()));
        lemma_arena_remove(s.drop_last(), i);
        assert(t.drop_last() =~= s.drop_last().remove(i));
        assert(t.last() == s.last());
        assert(arena_map(t) =~= arena_map(s).remove(s[i].id));
    }
}

impl View for Workspace {
    type V = WorkspaceView;

    closed spec fn view(&self) -> WorkspaceView {
        WorkspaceView {
            pages: arena_map(self.pages@),
            roots: self.roots@,
            next_id: self.next_id as int,
            recents: self.recents@,
        }
    }
}

impl Workspace {
    /// The workspace's own consistency: page ids are distinct, every id is
    /// below the next one to hand out, and that one is positive.
    pub closed spec fn wf(&self) -> bool {
        &&& distinct_ids(self.pages@)
        &&& forall|i: int| 0 <= i < self.pages@.len() ==> 0 <= #[trigger] self.pages@[i].id < self.next_id
        &&& self.next_id >= 1
    }

    /// What `wf` promises callers, over the view.
    pub proof fn lemma_wf_view(&self)
        requires
            self.wf(),
        ensures
            forall|k: i32| #[trigger] self@.pages.contains_key(k) ==> 0 <= k < self@.next_id && self@.pages[k].id == k,
            self@.next_id >= 1,
            self@.pages.dom().finite(),
            self@.pages.dom().len() <= self@.next_id,
    {
        assert forall|k: i32| #[trigger] self@.pages.contains_key(k) implies 0 <= k < self@.next_id && self@.pages[k].id == k by {
            lemma_arena_dom(self.pages@, k);
            let i = choose|i: int| 0 <= i < self.pages@.len() && self.pages@[i].id == k;
            lemma_arena_at(self.pages@, i);
        }
        lemma_arena_finite(self.pages@);
        lemma_arena_len(self.pages@);
        let range = Set::<i32>::range(0, self.next_id);
        vstd::set_lib::range_set_properties::<i32>(0, self.next_id);
        assert(self@.pages.dom().subset_of(range));
        vstd::set_lib::lemma_len_subset(self@.pages.dom(), range);
    }

    /// The index of the page with this id, if there is one.
    fn find(&self, id: i32) -> (r: Option<usize>)
        requires
            self.wf(),
        ensures
            match r {
                Some(i) => i < self.pages@.len() && self.pages@[i as int].id == id
                    && self@.pages.contains_key(id) && self@.pages[id] == self.pages@[i as int]@,
                None => !self@.pages.contains_key(id),
            },
    {
        let mut i: usize = 0;
        while i < self.pages.len()
            invariant
                self.wf(),
                i <= self.pages@.len(),
                forall|j: int| 0 <= j < i ==> self.pages@[j].id != id,
            decreases self.pages@.len() - i,
        {
            if self.pages[i].id == id {
                proof {
                    lemma_arena_at(self.pages@, i as int);
                }
                return Some(i);
            }
            i = i + 1;
        }
        proof {
            lemma_arena_dom(self.pages@, id);
        }
        None
    }

    /// Replace the page at arena index `i` (same id).
    fn set_page_at(&mut self, i: usize, p: Page)
        requires
            old(self).wf(),
            i < old(self).pages@.len(),
            p.id == old(self).pages@[i as int].id,
        ensures
            final(self).wf(),
            final(self)@ == old(self)@.with_page(p.id, p@),
            final(self).pages@.len() == old(self).pages@.len(),
            final(self).pages@ == old(self).pages@.update(i as int, p),
    {
        let ghost before = self.pages@;
        let ghost pv = p;
        self.pages.set(i, p);
        proof {
            lemma_arena_update(before, i as int, pv);
        }
    }

    /// A copy of the page with this id (which must be a page).
    fn page_copy(&self, id: i32) -> (r: (usize, Page))
        requires
            self.wf(),
            self@.has(id),
        ensures
            r.0 < self.pages@.len(),
            self.pages@[r.0 as int].id == id,
            r.1@ == self@.pages[id],
            r.1.id == id,
    {
        match self.find(id) {
            Some(i) => (i, self.pages[i].copied()),
            None => {
                proof {
                    assert(false);
                }
                (0, Page::blank(id, String::new()))
            },
        }
    }

    /// Add a page whose id is not yet used.
    fn push_page(&mut self, p: Page)
        requires
            old(self).wf(),
            !old(self)@.has(p.id),
            0 <= p.id < old(self).next_id,
        ensures
            final(self).wf(),
            final(self)@ == (WorkspaceView { pages: old(self)@.pages.insert(p.id, p@), ..old(self)@ }),
    {
        let ghost before = self.pages@;
        let ghost pv = p;
        self.pages.push(p);
        proof {
            lemma_arena_push(before, pv);
        }
    }
}


impl WorkspaceView {
    pub open spec fn has(self, id: i32) -> bool {
        self.pages.contains_key(id)
    }

    /// The same workspace with page `id` replaced by `p`.
    pub open spec fn with_page(self, id: i32, p: PageView) -> WorkspaceView {
        WorkspaceView { pages: self.pages.insert(id, p), roots: self.roots, next_id: self.next_id, recents: self.recents }
    }

    /// The ordered list a page is attached to: `parent`'s children, or the
    /// roots for `None` (empty for a parent that is not a page).
    pub open spec fn list(self, parent: Option<i32>) -> Seq<i32> {
        match parent {
            Some(p) => if self.has(p) { self.pages[p].children } else { Seq::empty() },
            None => self.roots,
        }
    }

    /// The same workspace with `parent`'s list replaced by `l`.
    pub open spec fn with_list(self, parent: Option<i32>, l: Seq<i32>) -> WorkspaceView {
        match parent {
            Some(p) => self.with_page(p, PageView { children: l, ..self.pages[p] }),
            None => WorkspaceView { pages: self.pages, roots: l, next_id: self.next_id, recents: self.recents },
        }
    }

    /// Where `attach` puts a page in a list: right after the first `prev`,
    /// or at the end when `after` is `None` or `prev` is not in the list.
    pub open spec fn insert_pos(l: Seq<i32>, after: Option<i32>) -> int {
        match after {
            Some(prev) => {
                let i = index_of(l, prev);
                if i < 0 { l.len() as int } else { i + 1 }
            },
            None => l.len() as int,
        }
    }

    /// `attach`: the page's parent link becomes `parent`, and the page joins
    /// `parent`'s list at `insert_pos`.
    pub open spec fn attached(self, id: i32, parent: Option<i32>, after: Option<i32>) -> WorkspaceView {
        let v1 = self.with_page(id, PageView { parent, ..self.pages[id] });
        let l = v1.list(parent);
        v1.with_list(parent, l.insert(Self::insert_pos(l, after), id))
    }

    /// The same workspace with `id` expanded (unchanged for `None`).
    pub open spec fn expanded_at(self, parent: Option<i32>) -> WorkspaceView {
        match parent {
            Some(p) => self.with_page(p, PageView { expanded: true, ..self.pages[p] }),
            None => self,
        }
    }

    /// The same workspace with one more page, `blank_page(next_id, title)`,
    /// and the next id advanced.
    pub open spec fn with_new_page(self, title: Seq<char>) -> WorkspaceView {
        WorkspaceView {
            pages: self.pages.insert(self.next_id as i32, blank_page(self.next_id as i32, title)),
            roots: self.roots,
            next_id: self.next_id + 1,
            recents: self.recents,
        }
    }
}

/// The first index of `x` in `l`, or -1.
pub open spec fn index_of(l: Seq<i32>, x: i32) -> int
    decreases l.len(),
{
    if l.len() == 0 {
        -1
    } else if l[0] == x {
        0
    } else {
        let r = index_of(l.drop_first(), x);
        if r < 0 { -1 } else { r + 1 }
    }
}

pub(crate) proof fn lemma_index_of(l: Seq<i32>, x: i32)
    ensures
        -1 <= index_of(l, x) < l.len(),
        index_of(l, x) >= 0 ==> l[index_of(l, x)] == x,
        index_of(l, x) >= 0 ==> forall|j: int| 0 <= j < index_of(l, x) ==> l[j] != x,
        index_of(l, x) < 0 ==> forall|j: int| 0 <= j < l.len() ==> l[j] != x,
    decreases l.len(),
{
    if l.len() > 0 && l[0] != x {
        lemma_index_of(l.drop_first(), x);
        if index_of(l, x) < 0 {
            assert forall|j: int| 0 <= j < l.len() implies l[j] != x by {
                if j > 0 {
                    assert(l[j] == l.drop_first()[j - 1]);
                }
            }
        } else {
            assert forall|j: int| 0 <= j < index_of(l, x) implies l[j] != x by {
                if j > 0 {
                    assert(l[j] == l.drop_first()[j - 1]);
                }
            }
        }
    }
}

/// Position of `x` in `l` (first occurrence), computed.
fn position(l: &Vec<i32>, x: i32) -> (r: Option<usize>)
    ensures
        match r {
            Some(i) => i as int == index_of(l@, x) && i < l@.len() && l@[i as int] == x && l@.contains(x),
            None => index_of(l@, x) < 0 && !l@.contains(x),
        },
{
    proof {
        lemma_index_of(l@, x);
    }
    let mut i: usize = 0;
    while i < l.len()
        invariant
            i <= l@.len(),
            forall|j: int| 0 <= j < i ==> l@[j] != x,
            -1 <= index_of(l@, x) < l@.len(),
            index_of(l@, x) >= 0 ==> l@[index_of(l@, x)] == x && forall|j: int| 0 <= j < index_of(l@, x) ==> l@[j] != x,
            index_of(l@, x) < 0 ==> forall|j: int| 0 <= j < l@.len() ==> l@[j] != x,
        decreases l@.len() - i,
    {
        if l[i] == x {
            return Some(i);
        }
        i = i + 1;
    }
    None
}

impl Workspace {
    /// An empty workspace whose first page will get `next_id`.
    fn empty(next_id: i32) -> (r: Workspace)
        requires
            next_id >= 1,
        ensures
            r.wf(),
            r@.pages == Map::<i32, PageView>::empty(),
            r@.roots == Seq::<i32>::empty(),
            r@.recents == Seq::<i32>::empty(),
            r@.next_id == next_id,
    {
        let r = Workspace { pages: Vec::new(), roots: Vec::new(), next_id, recents: Vec::new() };
        assert(r.pages@ =~= Seq::<Page>::empty());
        assert(arena_map(r.pages@) =~= Map::<i32, PageView>::empty());
        r
    }

    /// Make a fresh, unattached page with the next id.
    fn new_page(&mut self, title: &str) -> (id: i32)
        requires
            old(self).wf(),
            old(self)@.next_id < i32::MAX,
        ensures
            final(self).wf(),
            id == old(self)@.next_id,
            final(self)@ == old(self)@.with_new_page(title@),
    {
        let id = self.next_id;
        proof {
            self.lemma_wf_view();
        }
        let p = Page::blank(id, title.to_owned());
        self.next_id = self.next_id + 1;
        self.push_page(p);
        id
    }

    /// Link page `id` under `parent` (the roots for `None`), right after
    /// `after` in that list (at the end for `None` or a missing `after`).
    fn attach(&mut self, id: i32, parent: Option<i32>, after: Option<i32>)
        requires
            old(self).wf(),
            old(self)@.has(id),
            parent matches Some(p) ==> old(self)@.has(p),
        ensures
            final(self).wf(),
            final(self)@ == old(self)@.attached(id, parent, after),
    {
        let (i, mut p) = self.page_copy(id);
        p.parent = parent;
        self.set_page_at(i, p);
        match parent {
            Some(par) => {
                let (j, mut q) = self.page_copy(par);
                let n = q.children.len();
                let pos = match after {
                    Some(prev) => match position(&q.children, prev) {
                        Some(k) => k + 1,
                        None => n,
                    },
                    None => n,
                };
                q.children.insert(pos, id);
                self.set_page_at(j, q);
            },
            None => {
                let n = self.roots.len();
                let pos = match after {
                    Some(prev) => match position(&self.roots, prev) {
                        Some(k) => k + 1,
                        None => n,
                    },
                    None => n,
                };
                self.roots.insert(pos, id);
            },
        }
    }

    /// Create a page under `parent` (root when `None`) and return its id.
    /// The parent is expanded so the new page shows.
    pub fn create(&mut self, parent: Option<i32>, title: &str) -> (id: i32)
        requires
            old(self).wf(),
            old(self)@.next_id < i32::MAX,
            parent matches Some(p) ==> old(self)@.has(p),
        ensures
            final(self).wf(),
            id == old(self)@.next_id,
            final(self)@ == old(self)@.with_new_page(title@).expanded_at(parent).attached(id, parent, None),
    {
        let id = self.new_page(title);
        if let Some(par) = parent {
            let (j, mut q) = self.page_copy(par);
            q.expanded = true;
            self.set_page_at(j, q);
        }
        self.attach(id, parent, None);
        id
    }

    /// Create a template: a page that is never attached to the tree, so no
    /// walk that lists pages reaches it.
    pub fn create_template(&mut self, title: &str) -> (id: i32)
        requires
            old(self).wf(),
            old(self)@.next_id < i32::MAX,
        ensures
            final(self).wf(),
            id == old(self)@.next_id,
            final(self)@ == old(self)@.with_new_page(title@).with_page(
                id,
                PageView { template: true, ..blank_page(id, title@) },
            ),
    {
        let id = self.new_page(title);
        let (j, mut q) = self.page_copy(id);
        q.template = true;
        self.set_page_at(j, q);
        id
    }

    /// Is this id a template? False for a missing page.
    pub fn is_template(&self, id: i32) -> (r: bool)
        requires
            self.wf(),
        ensures
            r == (self@.has(id) && self@.pages[id].template),
    {
        match self.find(id) {
            Some(i) => self.pages[i].template,
            None => false,
        }
    }

    pub fn rename(&mut self, id: i32, title: &str)
        requires
            old(self).wf(),
        ensures
            final(self).wf(),
            final(self)@ == if old(self)@.has(id) {
                old(self)@.with_page(id, PageView { title: title@, ..old(self)@.pages[id] })
            } else {
                old(self)@
            },
    {
        if let Some(i) = self.find(id) {
            let mut p = self.pages[i].copied();
            p.title = title.to_owned();
            self.set_page_at(i, p);
        }
    }

    /// Set the favorite star to an exact value.
    pub fn set_favorite(&mut self, id: i32, v: bool)
        requires
            old(self).wf(),
        ensures
            final(self).wf(),
            final(self)@ == if old(self)@.has(id) {
                old(self)@.with_page(id, PageView { favorite: v, ..old(self)@.pages[id] })
            } else {
                old(self)@
            },
    {
        if let Some(i) = self.find(id) {
            let mut p = self.pages[i].copied();
            p.favorite = v;
            self.set_page_at(i, p);
        }
    }

    /// Set the tree's expanded flag to an exact value.
    pub fn set_expanded(&mut self, id: i32, v: bool)
        requires
            old(self).wf(),
        ensures
            final(self).wf(),
            final(self)@ == if old(self)@.has(id) {
                old(self)@.with_page(id, PageView { expanded: v, ..old(self)@.pages[id] })
            } else {
                old(self)@
            },
    {
        if let Some(i) = self.find(id) {
            let mut p = self.pages[i].copied();
            p.expanded = v;
            self.set_page_at(i, p);
        }
    }

    pub fn toggle_expanded(&mut self, id: i32)
        requires
            old(self).wf(),
        ensures
            final(self).wf(),
            final(self)@ == if old(self)@.has(id) {
                old(self)@.with_page(id, PageView { expanded: !old(self)@.pages[id].expanded, ..old(self)@.pages[id] })
            } else {
                old(self)@
            },
    {
        if let Some(i) = self.find(id) {
            let mut p = self.pages[i].copied();
            p.expanded = !p.expanded;
            self.set_page_at(i, p);
        }
    }

    pub fn toggle_favorite(&mut self, id: i32)
        requires
            old(self).wf(),
        ensures
            final(self).wf(),
            final(self)@ == if old(self)@.has(id) {
                old(self)@.with_page(id, PageView { favorite: !old(self)@.pages[id].favorite, ..old(self)@.pages[id] })
            } else {
                old(self)@
            },
    {
        if let Some(i) = self.find(id) {
            let mut p = self.pages[i].copied();
            p.favorite = !p.favorite;
            self.set_page_at(i, p);
        }
    }

    /// Set the page's typeface and answer with what it is now (the default
    /// font, changing nothing, for an unknown page).
    pub fn set_font(&mut self, id: i32, font: PageFont) -> (r: PageFont)
        requires
            old(self).wf(),
        ensures
            final(self).wf(),
            old(self)@.has(id) ==> r == font
                && final(self)@ == old(self)@.with_page(id, PageView { font, ..old(self)@.pages[id] }),
            !old(self)@.has(id) ==> r == PageFont::Default && final(self)@ == old(self)@,
    {
        match self.find(id) {
            Some(i) => {
                let mut p = self.pages[i].copied();
                p.font = font;
                self.set_page_at(i, p);
                font
            },
            None => PageFont::Default,
        }
    }

    /// Set the two layout switches and read them back (`(false, false)`,
    /// changing nothing, for an unknown page).
    pub fn set_layout(&mut self, id: i32, full_width: bool, small_text: bool) -> (r: (bool, bool))
        requires
            old(self).wf(),
        ensures
            final(self).wf(),
            old(self)@.has(id) ==> r == (full_width, small_text)
                && final(self)@ == old(self)@.with_page(id, PageView { full_width, small_text, ..old(self)@.pages[id] }),
            !old(self)@.has(id) ==> r == (false, false) && final(self)@ == old(self)@,
    {
        match self.find(id) {
            Some(i) => {
                let mut p = self.pages[i].copied();
                p.full_width = full_width;
                p.small_text = small_text;
                self.set_page_at(i, p);
                (full_width, small_text)
            },
            None => (false, false),
        }
    }

    /// Font and the two layout switches of a page, in one lookup.
    pub fn page_style(&self, id: i32) -> (r: Option<(PageFont, bool, bool)>)
        requires
            self.wf(),
        ensures
            r == if self@.has(id) {
                Some((self@.pages[id].font, self@.pages[id].full_width, self@.pages[id].small_text))
            } else {
                None
            },
    {
        match self.find(id) {
            Some(i) => Some((self.pages[i].font, self.pages[i].full_width, self.pages[i].small_text)),
            None => None,
        }
    }

    /// Set the page's emoji (empty clears it) and read it back; an unknown
    /// page stores nothing and answers `""`.
    pub fn set_icon(&mut self, id: i32, icon: &str) -> (r: String)
        requires
            old(self).wf(),
        ensures
            final(self).wf(),
            old(self)@.has(id) ==> r@ == icon@
                && final(self)@ == old(self)@.with_page(id, PageView { icon: icon@, ..old(self)@.pages[id] }),
            !old(self)@.has(id) ==> r@ == Seq::<char>::empty() && final(self)@ == old(self)@,
    {
        match self.find(id) {
            Some(i) => {
                let mut p = self.pages[i].copied();
                p.icon = icon.to_owned();
                let r = p.icon.clone();
                self.set_page_at(i, p);
                r
            },
            None => String::new(),
        }
    }

    /// What the page stores as its icon, `""` for none or an unknown page.
    pub fn icon_of(&self, id: i32) -> (r: String)
        requires
            self.wf(),
        ensures
            r@ == if self@.has(id) { self@.pages[id].icon } else { Seq::<char>::empty() },
    {
        match self.find(id) {
            Some(i) => self.pages[i].icon.clone(),
            None => String::new(),
        }
    }

    /// Set the page's cover (`None` clears) and read it back; an unknown page
    /// stores nothing and answers `None`.
    pub fn set_cover(&mut self, id: i32, cover: Option<AttachmentId>) -> (r: Option<AttachmentId>)
        requires
            old(self).wf(),
        ensures
            final(self).wf(),
            old(self)@.has(id) ==> r == cover
                && final(self)@ == old(self)@.with_page(id, PageView { cover, ..old(self)@.pages[id] }),
            !old(self)@.has(id) ==> r is None && final(self)@ == old(self)@,
    {
        match self.find(id) {
            Some(i) => {
                let mut p = self.pages[i].copied();
                p.cover = cover;
                self.set_page_at(i, p);
                cover
            },
            None => None,
        }
    }

    pub fn cover_of(&self, id: i32) -> (r: Option<AttachmentId>)
        requires
            self.wf(),
        ensures
            r == if self@.has(id) { self@.pages[id].cover } else { None },
    {
        match self.find(id) {
            Some(i) => self.pages[i].cover,
            None => None,
        }
    }

    /// Set the page's read-only switch and answer what the page now says
    /// (`None` for an unknown page, which stores nothing).
    pub fn set_locked(&mut self, id: i32, locked: bool) -> (r: Option<bool>)
        requires
            old(self).wf(),
        ensures
            final(self).wf(),
            old(self)@.has(id) ==> r == Some(locked)
                && final(self)@ == old(self)@.with_page(id, PageView { locked, ..old(self)@.pages[id] }),
            !old(self)@.has(id) ==> r is None && final(self)@ == old(self)@,
    {
        match self.find(id) {
            Some(i) => {
                let mut p = self.pages[i].copied();
                p.locked = locked;
                self.set_page_at(i, p);
                Some(locked)
            },
            None => None,
        }
    }

    pub fn locked_of(&self, id: i32) -> (r: bool)
        requires
            self.wf(),
        ensures
            r == (self@.has(id) && self@.pages[id].locked),
    {
        match self.find(id) {
            Some(i) => self.pages[i].locked,
            None => false,
        }
    }

    pub fn set_search_text(&mut self, id: i32, blob: String)
        requires
            old(self).wf(),
        ensures
            final(self).wf(),
            final(self)@ == if old(self)@.has(id) {
                old(self)@.with_page(id, PageView { search_text: blob@, ..old(self)@.pages[id] })
            } else {
                old(self)@
            },
    {
        if let Some(i) = self.find(id) {
            let mut p = self.pages[i].copied();
            p.search_text = blob;
            self.set_page_at(i, p);
        }
    }

    pub fn get(&self, id: i32) -> (r: Option<&Page>)
        requires
            self.wf(),
        ensures
            match r {
                Some(p) => self@.has(id) && p@ == self@.pages[id],
                None => !self@.has(id),
            },
    {
        match self.find(id) {
            Some(i) => Some(&self.pages[i]),
            None => None,
        }
    }

    pub fn contains(&self, id: i32) -> (r: bool)
        requires
            self.wf(),
        ensures
            r == self@.has(id),
    {
        self.find(id).is_some()
    }

    pub fn title_of(&self, id: i32) -> (r: Option<&str>)
        requires
            self.wf(),
        ensures
            match r {
                Some(t) => self@.has(id) && t@ == self@.pages[id].title,
                None => !self@.has(id),
            },
    {
        match self.find(id) {
            Some(i) => Some(self.pages[i].title.as_str()),
            None => None,
        }
    }

    /// Every page, templates included.
    pub fn page_count(&self) -> (r: usize)
        requires
            self.wf(),
        ensures
            r == self@.pages.dom().len(),
    {
        proof {
            lemma_arena_len(self.pages@);
        }
        self.pages.len()
    }

    /// First root page, used as the fallback landing page.
    pub fn first_root(&self) -> (r: Option<i32>)
        ensures
            r == if self@.roots.len() > 0 { Some(self@.roots[0]) } else { None },
    {
        if self.roots.len() > 0 {
            Some(self.roots[0])
        } else {
            None
        }
    }

    /// Ordered children of `parent` (the roots for `None`; empty for a
    /// parent that is not a page).
    pub fn children_of(&self, parent: Option<i32>) -> (r: Vec<i32>)
        requires
            self.wf(),
        ensures
            r@ == self@.list(parent),
    {
        match parent {
            Some(p) => match self.find(p) {
                Some(i) => {
                    let c = self.pages[i].children.clone();
                    assert(c@ =~= self.pages@[i as int].children@);
                    c
                },
                None => Vec::new(),
            },
            None => {
                let c = self.roots.clone();
                assert(c@ =~= self.roots@);
                c
            },
        }
    }

    /// Restore persisted recents; unknown ids are dropped by `recents`.
    pub fn set_recents(&mut self, ids: Vec<i32>)
        requires
            old(self).wf(),
        ensures
            final(self).wf(),
            final(self)@ == (WorkspaceView { recents: ids@, ..old(self)@ }),
    {
        self.recents = ids;
    }

    pub fn recents_ids(&self) -> (r: Vec<i32>)
        ensures
            r@ == self@.recents,
    {
        let r = self.recents.clone();
        assert(r@ =~= self.recents@);
        r
    }

    /// Reserve the next page id without creating anything.
    pub fn reserve_page_id(&mut self) -> (id: i32)
        requires
            old(self).wf(),
            old(self)@.next_id < i32::MAX,
        ensures
            final(self).wf(),
            id == old(self)@.next_id,
            final(self)@ == (WorkspaceView { next_id: old(self)@.next_id + 1, ..old(self)@ }),
    {
        let id = self.next_id;
        self.next_id = self.next_id + 1;
        id
    }
}

proof fn lemma_arena_len(s: Seq<Page>)
    requires
        distinct_ids(s),
    ensures
        arena_map(s).dom().len() == s.len(),
        arena_map(s).dom().finite(),
    decreases s.len(),
{
    if s.len() > 0 {
        assert(distinct_ids(s.drop_last()));
        lemma_arena_len(s.drop_last());
        lemma_arena_dom(s.drop_last(), s.last().id);
        assert forall|i: int| 0 <= i < s.drop_last().len() implies s.drop_last()[i].id != s.last().id by {
            assert(s.drop_last()[i] == s[i]);
        }
        assert(!arena_map(s.drop_last()).contains_key(s.last().id));
    }
}

/// Depth-first (pre-order) ids of the pages reachable from `ids` through
/// children lists, descending at most `fuel` generations; ids that are not
/// pages are skipped.
pub open spec fn dfs(m: Map<i32, PageView>, ids: Seq<i32>, fuel: nat) -> Seq<i32>
    decreases fuel, ids.len(),
{
    if fuel == 0 || ids.len() == 0 {
        Seq::empty()
    } else if m.contains_key(ids[0]) {
        seq![ids[0]] + dfs(m, m[ids[0]].children, (fuel - 1) as nat) + dfs(m, ids.drop_first(), fuel)
    } else {
        dfs(m, ids.drop_first(), fuel)
    }
}

/// The abstract value of one tree row.
pub struct RowView {
    pub id: i32,
    pub label: Seq<char>,
    pub depth: int,
    pub expanded: bool,
    pub has_children: bool,
}

impl View for TreeRow {
    type V = RowView;

    open spec fn view(&self) -> RowView {
        RowView {
            id: self.id,
            label: self.label@,
            depth: self.depth as int,
            expanded: self.expanded,
            has_children: self.has_children,
        }
    }
}

/// The visible rows under `ids` at `depth`: each page, then (only when it is
/// expanded) its children one level deeper.
pub open spec fn rows(m: Map<i32, PageView>, ids: Seq<i32>, depth: int, fuel: nat) -> Seq<RowView>
    decreases fuel, ids.len(),
{
    if fuel == 0 || ids.len() == 0 {
        Seq::empty()
    } else if m.contains_key(ids[0]) {
        let p = m[ids[0]];
        seq![RowView { id: ids[0], label: p.title, depth, expanded: p.expanded, has_children: p.children.len() > 0 }]
            + (if p.expanded { rows(m, p.children, depth + 1, (fuel - 1) as nat) } else { Seq::empty() })
            + rows(m, ids.drop_first(), depth, fuel)
    } else {
        rows(m, ids.drop_first(), depth, fuel)
    }
}

/// The chain of pages from `cur` up through parent links, nearest first,
/// stopping at a missing page or after `fuel` pages.
pub open spec fn chain(m: Map<i32, PageView>, cur: Option<i32>, fuel: nat) -> Seq<i32>
    decreases fuel,
{
    match cur {
        Some(c) => if fuel > 0 && m.contains_key(c) {
            seq![c] + chain(m, m[c].parent, (fuel - 1) as nat)
        } else {
            Seq::empty()
        },
        None => Seq::empty(),
    }
}

/// `parts` joined with `sep` between neighbours.
pub open spec fn join(parts: Seq<Seq<char>>, sep: Seq<char>) -> Seq<char>
    decreases parts.len(),
{
    if parts.len() == 0 {
        Seq::empty()
    } else if parts.len() == 1 {
        parts[0]
    } else {
        join(parts.drop_last(), sep) + sep + parts.last()
    }
}

impl WorkspaceView {
    /// How many pages there are (and so how deep any walk may go).
    pub open spec fn size(self) -> nat {
        self.pages.dom().len()
    }

    /// How many pages are not templates: the pages a person sees.
    pub open spec fn visible_count(self) -> nat {
        self.pages.dom().filter(|k: i32| !self.pages[k].template).len()
    }

    /// How many pages are templates.
    pub open spec fn template_count(self) -> nat {
        self.pages.dom().filter(|k: i32| self.pages[k].template).len()
    }

    /// All pages in depth-first display order.
    pub open spec fn order(self) -> Seq<i32> {
        dfs(self.pages, self.roots, self.size())
    }

    /// The subtree of `id` in depth-first order, `id` first.
    pub open spec fn subtree(self, id: i32) -> Seq<i32> {
        dfs(self.pages, seq![id], self.size())
    }

    /// `id` and its ancestors, root first.
    pub open spec fn lineage(self, id: i32) -> Seq<i32> {
        chain(self.pages, Some(id), self.size()).reverse()
    }

    /// Titles of the pages above `id`, root first, joined by " / ".
    pub open spec fn crumb(self, id: i32) -> Seq<char> {
        let l = self.lineage(id);
        if l.len() == 0 {
            Seq::empty()
        } else {
            join(l.take(l.len() - 1).map_values(|k: i32| self.pages[k].title), " / "@)
        }
    }

    /// Could `id` move under `new_parent` without making a cycle?
    pub open spec fn can_move(self, id: i32, new_parent: Option<i32>) -> bool {
        &&& self.has(id)
        &&& new_parent != Some(id)
        &&& !chain(self.pages, new_parent, self.size()).contains(id)
    }
}

impl Workspace {
    /// Append the depth-first walk of `list` to `out`.
    fn dfs_recursive(&self, list: &Vec<i32>, out: &mut Vec<i32>, fuel: usize)
        requires
            self.wf(),
        ensures
            final(out)@ == old(out)@ + dfs(self@.pages, list@, fuel as nat),
        decreases fuel,
    {
        if fuel == 0 {
            assert(old(out)@ + dfs(self@.pages, list@, fuel as nat) =~= old(out)@);
            return;
        }
        let mut i: usize = 0;
        assert(list@.skip(0) =~= list@);
        while i < list.len()
            invariant
                self.wf(),
                fuel > 0,
                i <= list@.len(),
                old(out)@ + dfs(self@.pages, list@, fuel as nat) == out@ + dfs(self@.pages, list@.skip(i as int), fuel as nat),
            decreases list@.len() - i,
        {
            let id = list[i];
            assert(list@.skip(i as int).drop_first() =~= list@.skip(i + 1));
            assert(list@.skip(i as int)[0] == id);
            match self.find(id) {
                Some(j) => {
                    out.push(id);
                    self.dfs_recursive(&self.pages[j].children, out, fuel - 1);
                    assert(self@.pages[id].children == self.pages@[j as int].children@);
                },
                None => {},
            }
            i = i + 1;
        }
        assert(list@.skip(i as int) =~= Seq::<i32>::empty());
    }

    /// All page ids in depth-first display order.
    pub fn dfs_order(&self) -> (r: Vec<i32>)
        requires
            self.wf(),
        ensures
            r@ == self@.order(),
    {
        proof {
            lemma_arena_len(self.pages@);
        }
        let mut ids: Vec<i32> = Vec::new();
        self.dfs_recursive(&self.roots, &mut ids, self.pages.len());
        assert(ids@ =~= self@.order());
        ids
    }

    /// The subtree of `id`, depth-first, `id` first (empty for a missing
    /// page).
    fn subtree_ids(&self, id: i32) -> (r: Vec<i32>)
        requires
            self.wf(),
        ensures
            r@ == self@.subtree(id),
    {
        proof {
            lemma_arena_len(self.pages@);
        }
        let mut ids: Vec<i32> = Vec::new();
        let one: Vec<i32> = vec![id];
        assert(one@ =~= seq![id]);
        self.dfs_recursive(&one, &mut ids, self.pages.len());
        assert(ids@ =~= self@.subtree(id));
        ids
    }

    /// Number of pages in the subtree rooted at `id` (inclusive; 0 for a
    /// missing page).
    pub fn subtree_size(&self, id: i32) -> (r: usize)
        requires
            self.wf(),
        ensures
            r == self@.subtree(id).len(),
    {
        self.subtree_ids(id).len()
    }

    fn tree_recursive(&self, ids: &Vec<i32>, depth: i32, out: &mut Vec<TreeRow>, fuel: usize)
        requires
            self.wf(),
            0 <= depth,
            depth + fuel <= i32::MAX,
        ensures
            final(out)@.map_values(|t: TreeRow| t@) == old(out)@.map_values(|t: TreeRow| t@)
                + rows(self@.pages, ids@, depth as int, fuel as nat),
        decreases fuel,
    {
        broadcast use Seq::lemma_push_map_commute;
        if fuel == 0 {
            assert(rows(self@.pages, ids@, depth as int, fuel as nat) =~= Seq::<RowView>::empty());
            assert(out@.map_values(|t: TreeRow| t@) + Seq::<RowView>::empty() =~= out@.map_values(|t: TreeRow| t@));
            return;
        }
        let mut i: usize = 0;
        assert(ids@.skip(0) =~= ids@);
        while i < ids.len()
            invariant
                self.wf(),
                fuel > 0,
                0 <= depth,
                depth + fuel <= i32::MAX,
                i <= ids@.len(),
                old(out)@.map_values(|t: TreeRow| t@) + rows(self@.pages, ids@, depth as int, fuel as nat)
                    == out@.map_values(|t: TreeRow| t@) + rows(self@.pages, ids@.skip(i as int), depth as int, fuel as nat),
            decreases ids@.len() - i,
        {
            let id = ids[i];
            assert(ids@.skip(i as int).drop_first() =~= ids@.skip(i + 1));
            assert(ids@.skip(i as int)[0] == id);
            match self.find(id) {
                Some(j) => {
                    let p = &self.pages[j];
                    let row = TreeRow {
                        id,
                        label: p.title.clone(),
                        depth,
                        expanded: p.expanded,
                        has_children: p.children.len() > 0,
                    };
                    let ghost before = out@.map_values(|t: TreeRow| t@);
                    out.push(row);
                    assert(out@.map_values(|t: TreeRow| t@) == before.push(row@));
                    if p.expanded {
                        self.tree_recursive(&p.children, depth + 1, out, fuel - 1);
                    } else {
                        assert(out@.map_values(|t: TreeRow| t@) =~= out@.map_values(|t: TreeRow| t@) + Seq::<RowView>::empty());
                    }
                    assert(self@.pages[id] == self.pages@[j as int]@);
                },
                None => {},
            }
            i = i + 1;
        }
        assert(ids@.skip(i as int) =~= Seq::<i32>::empty());
        assert(out@.map_values(|t: TreeRow| t@) + Seq::<RowView>::empty() =~= out@.map_values(|t: TreeRow| t@));
    }

    /// Visible tree rows, depth-first, honoring `expanded` flags.
    pub fn tree_rows(&self) -> (r: Vec<TreeRow>)
        requires
            self.wf(),
        ensures
            r@.map_values(|t: TreeRow| t@) == rows(self@.pages, self@.roots, 0, self@.size()),
    {
        proof {
            lemma_arena_len(self.pages@);
            self.lemma_wf_view();
        }
        let mut out: Vec<TreeRow> = Vec::new();
        assert(out@.map_values(|t: TreeRow| t@) =~= Seq::<RowView>::empty());
        self.tree_recursive(&self.roots, 0, &mut out, self.pages.len());
        assert(out@.map_values(|t: TreeRow| t@) =~= rows(self@.pages, self@.roots, 0, self@.size()));
        out
    }
}

pub(crate) proof fn lemma_dfs_keys(m: Map<i32, PageView>, ids: Seq<i32>, fuel: nat)
    ensures
        forall|i: int| 0 <= i < dfs(m, ids, fuel).len() ==> m.contains_key(#[trigger] dfs(m, ids, fuel)[i]),
    decreases fuel, ids.len(),
{
    if fuel > 0 && ids.len() > 0 {
        lemma_dfs_keys(m, ids.drop_first(), fuel);
        if !m.contains_key(ids[0]) {
            assert(dfs(m, ids, fuel) == dfs(m, ids.drop_first(), fuel));
        } else {
            lemma_dfs_keys(m, m[ids[0]].children, (fuel - 1) as nat);
            let a = seq![ids[0]];
            let b = dfs(m, m[ids[0]].children, (fuel - 1) as nat);
            let c = dfs(m, ids.drop_first(), fuel);
            assert forall|i: int| 0 <= i < dfs(m, ids, fuel).len() implies m.contains_key(#[trigger] dfs(m, ids, fuel)[i]) by {
                assert(dfs(m, ids, fuel) == a + b + c);
                if i == 0 {
                } else if i < 1 + b.len() {
                    assert(dfs(m, ids, fuel)[i] == b[i - 1]);
                } else {
                    assert(dfs(m, ids, fuel)[i] == c[i - 1 - b.len()]);
                }
            }
        }
    }
}

proof fn lemma_chain_keys(m: Map<i32, PageView>, cur: Option<i32>, fuel: nat)
    ensures
        forall|i: int| 0 <= i < chain(m, cur, fuel).len() ==> m.contains_key(#[trigger] chain(m, cur, fuel)[i]),
        chain(m, cur, fuel).len() <= fuel,
    decreases fuel,
{
    if let Some(c) = cur {
        if fuel > 0 && m.contains_key(c) {
            lemma_chain_keys(m, m[c].parent, (fuel - 1) as nat);
            assert forall|i: int| 0 <= i < chain(m, cur, fuel).len() implies m.contains_key(#[trigger] chain(m, cur, fuel)[i]) by {
                if i > 0 {
                    assert(chain(m, cur, fuel)[i] == chain(m, m[c].parent, (fuel - 1) as nat)[i - 1]);
                }
            }
        }
    }
}

/// `chain` reads only which ids are pages and their parent links.
proof fn lemma_chain_same_links(m1: Map<i32, PageView>, m2: Map<i32, PageView>, cur: Option<i32>, fuel: nat)
    requires
        m1.dom() == m2.dom(),
        forall|k: i32| m1.contains_key(k) ==> m1[k].parent == m2[k].parent,
    ensures
        chain(m1, cur, fuel) == chain(m2, cur, fuel),
    decreases fuel,
{
    if let Some(c) = cur {
        if fuel > 0 && m1.contains_key(c) {
            lemma_chain_same_links(m1, m2, m1[c].parent, (fuel - 1) as nat);
        }
    }
}

/// `m` with every page whose id is in `ks` expanded.
pub open spec fn expand_all(m: Map<i32, PageView>, ks: Seq<i32>) -> Map<i32, PageView> {
    Map::new(
        |k: i32| m.contains_key(k),
        |k: i32| if ks.contains(k) { PageView { expanded: true, ..m[k] } } else { m[k] },
    )
}

/// The predicate "is not `x`".
pub open spec fn other_than(x: i32) -> spec_fn(i32) -> bool {
    |y: i32| y != x
}

/// `l` without any occurrence of `x`.
pub open spec fn without(l: Seq<i32>, x: i32) -> Seq<i32> {
    l.filter(other_than(x))
}

fn vec_without(l: &Vec<i32>, x: i32) -> (r: Vec<i32>)
    ensures
        r@ == without(l@, x),
{
    broadcast use Seq::lemma_filter_push;
    let mut out: Vec<i32> = Vec::new();
    let mut i: usize = 0;
    while i < l.len()
        invariant
            i <= l@.len(),
            out@ == without(l@.take(i as int), x),
        decreases l@.len() - i,
    {
        assert(l@.take(i + 1) =~= l@.take(i as int).push(l@[i as int]));
        proof { l@.take(i as int).lemma_filter_push(l@[i as int], other_than(x)); }
        if l[i] != x {
            out.push(l[i]);
        }
        i = i + 1;
    }
    assert(l@.take(l@.len() as int) =~= l@);
    out
}

impl WorkspaceView {
    /// The predicate "is a page with the favorite star".
    pub open spec fn is_favorite(self) -> spec_fn(i32) -> bool {
        |k: i32| self.pages.contains_key(k) && self.pages[k].favorite
    }

    /// The predicate "is a page".
    pub open spec fn is_page(self) -> spec_fn(i32) -> bool {
        |k: i32| self.pages.contains_key(k)
    }

    /// Favorites in tree order.
    pub open spec fn favorite_ids(self) -> Seq<i32> {
        self.order().filter(self.is_favorite())
    }

    /// The recents that are still pages, most recent first.
    pub open spec fn known_recents(self) -> Seq<i32> {
        self.recents.filter(self.is_page())
    }

    /// The recents list after opening `id`: `id` first, no repeats of it,
    /// at most `MAX_RECENTS` long.
    pub open spec fn opened(self, id: i32) -> Seq<i32> {
        let l = seq![id] + without(self.recents, id);
        if l.len() > MAX_RECENTS { l.take(MAX_RECENTS as int) } else { l }
    }

    /// The parent of `id` (none for a missing page).
    pub open spec fn parent_of(self, id: i32) -> Option<i32> {
        if self.has(id) { self.pages[id].parent } else { None }
    }

    /// The workspace with `id` taken out of its parent's list (or the roots).
    pub open spec fn detached(self, id: i32) -> WorkspaceView {
        let par = self.parent_of(id);
        self.with_list(par, without(self.list(par), id))
    }

    /// `move_page`'s effect when the move is legal.
    pub open spec fn moved(self, id: i32, new_parent: Option<i32>, after: Option<i32>) -> WorkspaceView {
        self.detached(id).attached(id, new_parent, after).expanded_at(new_parent)
    }
}

/// Pairs of ids and titles for `ids`, taken from `m`.
pub open spec fn titled(m: Map<i32, PageView>, ids: Seq<i32>, r: Seq<(i32, String)>) -> bool {
    &&& r.len() == ids.len()
    &&& forall|i: int| 0 <= i < ids.len() ==> (#[trigger] r[i]).0 == ids[i] && r[i].1@ == m[ids[i]].title
}

impl Workspace {
    /// `(id, title)` of each of `ids` (which must all be pages).
    fn with_titles(&self, ids: &Vec<i32>) -> (r: Vec<(i32, String)>)
        requires
            self.wf(),
            forall|i: int| 0 <= i < ids@.len() ==> self@.has(#[trigger] ids@[i]),
        ensures
            titled(self@.pages, ids@, r@),
    {
        let mut out: Vec<(i32, String)> = Vec::new();
        let mut i: usize = 0;
        while i < ids.len()
            invariant
                self.wf(),
                forall|i: int| 0 <= i < ids@.len() ==> self@.has(#[trigger] ids@[i]),
                i <= ids@.len(),
                titled(self@.pages, ids@.take(i as int), out@),
            decreases ids@.len() - i,
        {
            let k = ids[i];
            assert(self@.has(ids@[i as int]));
            let (_, p) = self.page_copy(k);
            out.push((k, p.title));
            i = i + 1;
            assert(ids@.take(i as int).drop_last() =~= ids@.take(i - 1));
        }
        assert(ids@.take(ids@.len() as int) =~= ids@);
        out
    }

    /// Keep the ids of `ids` that satisfy the favorite flag.
    fn favorite_filter(&self, ids: &Vec<i32>) -> (r: Vec<i32>)
        requires
            self.wf(),
            forall|i: int| 0 <= i < ids@.len() ==> self@.has(#[trigger] ids@[i]),
        ensures
            r@ == ids@.filter(self@.is_favorite()),
    {
        let mut out: Vec<i32> = Vec::new();
        let mut i: usize = 0;
        while i < ids.len()
            invariant
                self.wf(),
                forall|i: int| 0 <= i < ids@.len() ==> self@.has(#[trigger] ids@[i]),
                i <= ids@.len(),
                out@ == ids@.take(i as int).filter(self@.is_favorite()),
            decreases ids@.len() - i,
        {
            let k = ids[i];
            assert(self@.has(ids@[i as int]));
            assert(ids@.take(i + 1) =~= ids@.take(i as int).push(k));
            proof { ids@.take(i as int).lemma_filter_push(k, self@.is_favorite()); }
            let (_, p) = self.page_copy(k);
            if p.favorite {
                out.push(k);
            }
            i = i + 1;
        }
        assert(ids@.take(ids@.len() as int) =~= ids@);
        out
    }

    /// Favorites in tree order.
    pub fn favorites(&self) -> (r: Vec<(i32, String)>)
        requires
            self.wf(),
        ensures
            titled(self@.pages, self@.favorite_ids(), r@),
    {
        let order = self.dfs_order();
        proof {
            lemma_dfs_keys(self@.pages, self@.roots, self@.size());
        }
        let favs = self.favorite_filter(&order);
        proof {
            assert forall|i: int| 0 <= i < favs@.len() implies self@.has(#[trigger] favs@[i]) by {
                order@.lemma_filter_pred(self@.is_favorite(), i);
            }
        }
        self.with_titles(&favs)
    }

    /// The recent pages that still exist, most recent first.
    pub fn recents(&self) -> (r: Vec<(i32, String)>)
        requires
            self.wf(),
        ensures
            titled(self@.pages, self@.known_recents(), r@),
    {
        let mut ids: Vec<i32> = Vec::new();
        let mut i: usize = 0;
        while i < self.recents.len()
            invariant
                self.wf(),
                i <= self.recents@.len(),
                ids@ == self.recents@.take(i as int).filter(self@.is_page()),
            decreases self.recents@.len() - i,
        {
            let k = self.recents[i];
            assert(self.recents@.take(i + 1) =~= self.recents@.take(i as int).push(k));
            proof { self.recents@.take(i as int).lemma_filter_push(k, self@.is_page()); }
            if self.find(k).is_some() {
                ids.push(k);
            }
            i = i + 1;
        }
        assert(self.recents@.take(self.recents@.len() as int) =~= self.recents@);
        proof {
            assert forall|i: int| 0 <= i < ids@.len() implies self@.has(#[trigger] ids@[i]) by {
                self.recents@.lemma_filter_pred(self@.is_page(), i);
            }
        }
        self.with_titles(&ids)
    }

    /// Put `id` at the front of the recents (dropping its older entry and
    /// capping the list at `MAX_RECENTS`); unknown ids are ignored.
    pub fn mark_opened(&mut self, id: i32)
        requires
            old(self).wf(),
        ensures
            final(self).wf(),
            final(self)@ == if old(self)@.has(id) {
                WorkspaceView { recents: old(self)@.opened(id), ..old(self)@ }
            } else {
                old(self)@
            },
    {
        if self.find(id).is_none() {
            return;
        }
        let mut r = vec_without(&self.recents, id);
        r.insert(0, id);
        r.truncate(MAX_RECENTS);
        assert(r@ =~= old(self)@.opened(id));
        self.recents = r;
    }

    /// Append the parent chain starting at `cur` to `out`.
    fn chain_from(&self, cur: Option<i32>, fuel: usize, out: &mut Vec<i32>)
        requires
            self.wf(),
        ensures
            final(out)@ == old(out)@ + chain(self@.pages, cur, fuel as nat),
        decreases fuel,
    {
        match cur {
            Some(c) => {
                if fuel > 0 {
                    match self.find(c) {
                        Some(j) => {
                            out.push(c);
                            self.chain_from(self.pages[j].parent, fuel - 1, out);
                            assert(final(out)@ =~= old(out)@ + chain(self@.pages, cur, fuel as nat));
                            return;
                        },
                        None => {},
                    }
                }
                assert(old(out)@ + chain(self@.pages, cur, fuel as nat) =~= old(out)@);
            },
            None => {
                assert(old(out)@ + chain(self@.pages, cur, fuel as nat) =~= old(out)@);
            },
        }
    }

    /// `id` and its ancestors, nearest first.
    fn chain_of(&self, id: i32) -> (r: Vec<i32>)
        requires
            self.wf(),
        ensures
            r@ == chain(self@.pages, Some(id), self@.size()),
            forall|i: int| 0 <= i < r@.len() ==> self@.has(#[trigger] r@[i]),
    {
        proof {
            lemma_arena_len(self.pages@);
            lemma_chain_keys(self@.pages, Some(id), self@.size());
        }
        let mut out: Vec<i32> = Vec::new();
        self.chain_from(Some(id), self.pages.len(), &mut out);
        assert(out@ =~= chain(self@.pages, Some(id), self@.size()));
        out
    }

    /// Ancestors of `id`, root first, inclusive of `id` itself.
    pub fn ancestors(&self, id: i32) -> (r: Vec<(i32, String)>)
        requires
            self.wf(),
        ensures
            titled(self@.pages, self@.lineage(id), r@),
    {
        let c = self.chain_of(id);
        let mut rev: Vec<i32> = Vec::new();
        let n = c.len();
        let mut i: usize = 0;
        while i < n
            invariant
                n == c@.len(),
                i <= n,
                rev@ == c@.reverse().take(i as int),
            decreases n - i,
        {
            rev.push(c[n - 1 - i]);
            i = i + 1;
            assert(rev@ =~= c@.reverse().take(i as int));
        }
        assert(rev@ =~= c@.reverse());
        proof {
            assert forall|i: int| 0 <= i < rev@.len() implies self@.has(#[trigger] rev@[i]) by {
                assert(rev@[i] == c@[n - 1 - i]);
            }
        }
        self.with_titles(&rev)
    }

    /// Breadcrumb of the ancestors above `id` (empty for roots and missing
    /// pages), "A / B" style.
    pub fn breadcrumb(&self, id: i32) -> (r: String)
        requires
            self.wf(),
        ensures
            r@ == self@.crumb(id),
    {
        let chain = self.ancestors(id);
        let n = chain.len();
        let ghost l = self@.lineage(id);
        let mut out = String::new();
        if n == 0 {
            return out;
        }
        let ghost parts = l.take(l.len() - 1).map_values(|k: i32| self@.pages[k].title);
        let mut i: usize = 0;
        while i < n - 1
            invariant
                n == chain@.len(),
                n == l.len(),
                n > 0,
                titled(self@.pages, l, chain@),
                parts == l.take(l.len() - 1).map_values(|k: i32| self@.pages[k].title),
                i <= n - 1,
                out@ == join(parts.take(i as int), " / "@),
            decreases n - 1 - i,
        {
            if i > 0 {
                out.append(" / ");
            }
            out.append(chain[i].1.as_str());
            i = i + 1;
            assert(parts.take(i as int).drop_last() =~= parts.take(i - 1));
            assert(parts.take(i as int).last() == chain@[i - 1].1@);
            if i == 1 {
                assert(out@ =~= join(parts.take(i as int), " / "@));
            }
        }
        assert(parts.take(n - 1) =~= parts);
        out
    }

    /// Expand the parent chain starting at `cur`.
    fn expand_chain(&mut self, cur: Option<i32>, fuel: usize)
        requires
            old(self).wf(),
        ensures
            final(self).wf(),
            final(self)@ == (WorkspaceView {
                pages: expand_all(old(self)@.pages, chain(old(self)@.pages, cur, fuel as nat)),
                ..old(self)@
            }),
        decreases fuel,
    {
        let ghost m0 = self@.pages;
        match cur {
            Some(c) => {
                if fuel > 0 {
                    match self.find(c) {
                        Some(j) => {
                            let mut p = self.pages[j].copied();
                            let next = p.parent;
                            p.expanded = true;
                            self.set_page_at(j, p);
                            let ghost m1 = self@.pages;
                            assert(m1.dom() =~= m0.dom());
                            proof {
                                lemma_chain_same_links(m0, m1, next, (fuel - 1) as nat);
                            }
                            self.expand_chain(next, fuel - 1);
                            let ghost rest = chain(m0, next, (fuel - 1) as nat);
                            assert(chain(m0, cur, fuel as nat) == seq![c] + rest);
                            assert forall|k: i32| #[trigger] (seq![c] + rest).contains(k) <==> (k == c || rest.contains(k)) by {
                                if rest.contains(k) {
                                    let t = choose|t: int| 0 <= t < rest.len() && rest[t] == k;
                                    assert((seq![c] + rest)[t + 1] == k);
                                }
                                if (seq![c] + rest).contains(k) && k != c {
                                    let t = choose|t: int| 0 <= t < (seq![c] + rest).len() && (seq![c] + rest)[t] == k;
                                    assert(rest[t - 1] == k);
                                }
                                if k == c {
                                    assert((seq![c] + rest)[0] == c);
                                }
                            }
                            assert(self@.pages =~= expand_all(m0, chain(m0, cur, fuel as nat)));
                            return;
                        },
                        None => {},
                    }
                }
                assert(chain(m0, cur, fuel as nat) =~= Seq::<i32>::empty());
                assert(m0 =~= expand_all(m0, Seq::<i32>::empty()));
            },
            None => {
                assert(m0 =~= expand_all(m0, Seq::<i32>::empty()));
            },
        }
    }

    /// Expand every ancestor of `id` so it is visible in the tree.
    pub fn expand_ancestors(&mut self, id: i32)
        requires
            old(self).wf(),
        ensures
            final(self).wf(),
            final(self)@ == (WorkspaceView {
                pages: expand_all(old(self)@.pages, chain(old(self)@.pages, old(self)@.parent_of(id), old(self)@.size())),
                ..old(self)@
            }),
    {
        proof {
            lemma_arena_len(self.pages@);
        }
        let start = match self.find(id) {
            Some(j) => self.pages[j].parent,
            None => None,
        };
        let n = self.pages.len();
        self.expand_chain(start, n);
    }

    /// Would moving `id` under `new_parent` (root when `None`) be legal?
    /// False for a missing page, the page itself, or any of its own
    /// descendants (a cycle).
    pub fn can_move_page(&self, id: i32, new_parent: Option<i32>) -> (r: bool)
        requires
            self.wf(),
        ensures
            r == self@.can_move(id, new_parent),
    {
        if self.find(id).is_none() || new_parent == Some(id) {
            return false;
        }
        proof {
            lemma_arena_len(self.pages@);
        }
        let mut up: Vec<i32> = Vec::new();
        self.chain_from(new_parent, self.pages.len(), &mut up);
        assert(up@ =~= chain(self@.pages, new_parent, self@.size()));
        position(&up, id).is_none()
    }
}

impl WorkspaceView {
    /// The swap `swap_with_neighbor` makes, when it makes one: the sibling
    /// list of `id` with `id` and the page `delta` slots away exchanged.
    pub open spec fn swap_target(self, id: i32, delta: i32) -> Option<int> {
        let l = self.list(self.parent_of(id));
        let i = index_of(l, id);
        let t = i + delta;
        if self.has(id) && i >= 0 && 0 <= t < l.len() { Some(t) } else { None }
    }

    pub open spec fn swapped(self, id: i32, t: int) -> WorkspaceView {
        let par = self.parent_of(id);
        let l = self.list(par);
        let i = index_of(l, id);
        self.with_list(par, l.update(i, l[t]).update(t, l[i]))
    }
}

impl Workspace {
    /// Replace the list `parent` names (the roots for `None`) with `l`.
    fn set_list(&mut self, parent: Option<i32>, l: Vec<i32>)
        requires
            old(self).wf(),
            parent matches Some(p) ==> old(self)@.has(p),
        ensures
            final(self).wf(),
            final(self)@ == old(self)@.with_list(parent, l@),
    {
        match parent {
            Some(p) => {
                let (j, mut q) = self.page_copy(p);
                q.children = l;
                self.set_page_at(j, q);
            },
            None => {
                self.roots = l;
            },
        }
    }

    /// A copy of the list `parent` names.
    fn list_copy(&self, parent: Option<i32>) -> (r: Vec<i32>)
        requires
            self.wf(),
        ensures
            r@ == self@.list(parent),
    {
        self.children_of(parent)
    }

    /// Move `id` (its whole subtree travels with it) under `new_parent`
    /// (root when `None`), right after `after` (the end when `None`).
    /// Refused, changing nothing, when the move is illegal (see
    /// `can_move_page`). The target parent is expanded so the moved page is
    /// visible on arrival.
    pub fn move_page(&mut self, id: i32, new_parent: Option<i32>, after: Option<i32>) -> (r: bool)
        requires
            old(self).wf(),
            old(self)@.can_move(id, new_parent) ==> (new_parent matches Some(p) ==> old(self)@.has(p)),
            old(self)@.can_move(id, new_parent) ==> (old(self)@.parent_of(id) matches Some(q) ==> old(self)@.has(q)),
        ensures
            final(self).wf(),
            r == old(self)@.can_move(id, new_parent),
            r ==> final(self)@ == old(self)@.moved(id, new_parent, after),
            !r ==> final(self)@ == old(self)@,
    {
        if !self.can_move_page(id, new_parent) {
            return false;
        }
        let (_, p) = self.page_copy(id);
        let old_parent = p.parent;
        let l = self.list_copy(old_parent);
        let l2 = vec_without(&l, id);
        self.set_list(old_parent, l2);
        self.attach(id, new_parent, after);
        if let Some(par) = new_parent {
            let (j, mut q) = self.page_copy(par);
            q.expanded = true;
            self.set_page_at(j, q);
        }
        true
    }

    /// Swap `id` with the sibling `delta` slots away (±1). Refused at the
    /// run's edges or when the page is missing.
    pub fn swap_with_neighbor(&mut self, id: i32, delta: i32) -> (r: bool)
        requires
            old(self).wf(),
            old(self)@.parent_of(id) matches Some(q) ==> old(self)@.has(q),
        ensures
            final(self).wf(),
            r == old(self)@.swap_target(id, delta) is Some,
            r ==> final(self)@ == old(self)@.swapped(id, old(self)@.swap_target(id, delta)->0),
            !r ==> final(self)@ == old(self)@,
    {
        let parent = match self.find(id) {
            Some(j) => self.pages[j].parent,
            None => return false,
        };
        let mut l = self.list_copy(parent);
        let n = l.len();
        let idx = match position(&l, id) {
            Some(k) => k,
            None => return false,
        };
        let target: usize = if delta >= 0 {
            let d = delta as usize;
            if d >= n - idx {
                return false;
            }
            idx + d
        } else {
            let d = (0 - (delta as i64)) as usize;
            if d > idx {
                return false;
            }
            idx - d
        };
        let a = l[idx];
        let b = l[target];
        l.set(idx, b);
        l.set(target, a);
        self.set_list(parent, l);
        true
    }
}

/// The predicate "is not one of `s`".
pub open spec fn not_in(s: Seq<i32>) -> spec_fn(i32) -> bool {
    |k: i32| !s.contains(k)
}

impl WorkspaceView {
    /// What `delete` leaves behind once `removed` (the subtree of `id`, taken
    /// in the detached workspace) is gone.
    pub open spec fn after_delete(self, id: i32, removed: Seq<i32>) -> WorkspaceView {
        let d = self.detached(id);
        WorkspaceView {
            pages: d.pages.remove_keys(removed.to_set()),
            roots: d.roots,
            next_id: d.next_id,
            recents: self.recents.filter(not_in(removed)),
        }
    }
}

impl Workspace {
    /// Drop the page at arena index `i`.
    fn remove_at(&mut self, i: usize)
        requires
            old(self).wf(),
            i < old(self).pages@.len(),
        ensures
            final(self).wf(),
            final(self)@ == (WorkspaceView {
                pages: old(self)@.pages.remove(old(self).pages@[i as int].id),
                ..old(self)@
            }),
    {
        let ghost before = self.pages@;
        self.pages.remove(i);
        proof {
            lemma_arena_remove(before, i as int);
            assert forall|j: int| 0 <= j < self.pages@.len() implies 0 <= #[trigger] self.pages@[j].id < self.next_id by {
                if j < i {
                    assert(self.pages@[j] == before[j]);
                } else {
                    assert(self.pages@[j] == before[j + 1]);
                }
            }
        }
    }

    /// Remove the subtree; returns the removed ids, root first, in
    /// depth-first order. The removed pages also leave the recents.
    pub fn delete(&mut self, id: i32) -> (removed: Vec<i32>)
        requires
            old(self).wf(),
            old(self)@.parent_of(id) matches Some(q) ==> old(self)@.has(q),
        ensures
            final(self).wf(),
            !old(self)@.has(id) ==> removed@.len() == 0 && final(self)@ == old(self)@,
            old(self)@.has(id) ==> removed@ == old(self)@.detached(id).subtree(id)
                && final(self)@ == old(self)@.after_delete(id, removed@),
    {
        let ghost v0 = self@;
        if self.find(id).is_none() {
            return Vec::new();
        }
        let (_, p) = self.page_copy(id);
        let parent = p.parent;
        let l = self.list_copy(parent);
        let l2 = vec_without(&l, id);
        self.set_list(parent, l2);
        let ghost d = self@;
        assert(d == v0.detached(id));
        let removed = self.subtree_ids(id);
        let mut t: usize = 0;
        assert(removed@.take(0).to_set() =~= Set::<i32>::empty());
        assert(d.pages.remove_keys(Set::<i32>::empty()) =~= d.pages);
        while t < removed.len()
            invariant
                self.wf(),
                t <= removed@.len(),
                self@.pages == d.pages.remove_keys(removed@.take(t as int).to_set()),
                self@.roots == d.roots,
                self@.next_id == d.next_id,
                self@.recents == d.recents,
            decreases removed@.len() - t,
        {
            let k = removed[t];
            let ghost before = self@.pages;
            assert(removed@.take(t + 1) =~= removed@.take(t as int).push(k));
            proof {
                removed@.take(t as int).lemma_push_to_set_commute(k);
            }
            match self.find(k) {
                Some(i) => {
                    self.remove_at(i);
                    assert(self@.pages =~= d.pages.remove_keys(removed@.take(t + 1).to_set()));
                },
                None => {
                    assert(self@.pages =~= d.pages.remove_keys(removed@.take(t + 1).to_set()));
                },
            }
            t = t + 1;
        }
        assert(removed@.take(removed@.len() as int) =~= removed@);
        let mut rec: Vec<i32> = Vec::new();
        let mut i: usize = 0;
        while i < self.recents.len()
            invariant
                i <= self.recents@.len(),
                self.recents@ == d.recents,
                rec@ == self.recents@.take(i as int).filter(not_in(removed@)),
            decreases self.recents@.len() - i,
        {
            let k = self.recents[i];
            assert(self.recents@.take(i + 1) =~= self.recents@.take(i as int).push(k));
            proof {
                self.recents@.take(i as int).lemma_filter_push(k, not_in(removed@));
            }
            if position(&removed, k).is_none() {
                rec.push(k);
            }
            i = i + 1;
        }
        assert(self.recents@.take(self.recents@.len() as int) =~= self.recents@);
        self.recents = rec;
        removed
    }
}

/// Every page the copy walk over `ids` reads is a page.
pub open spec fn all_present(m: Map<i32, PageView>, ids: Seq<i32>, fuel: nat) -> bool
    decreases fuel, ids.len(),
{
    if fuel == 0 || ids.len() == 0 {
        true
    } else {
        &&& m.contains_key(ids[0])
        &&& all_present(m, m[ids[0]].children, (fuel - 1) as nat)
        &&& all_present(m, ids.drop_first(), fuel)
    }
}

/// The pages the copy walk makes for `ids` (children of the page `dst`),
/// numbered from `base` in the order they are made: each copy keeps the
/// source's title and search text, hangs under `dst`, and its own children
/// are the copies of the source's children.
pub open spec fn copy_seq(m: Map<i32, PageView>, ids: Seq<i32>, dst: i32, base: int, fuel: nat) -> Seq<PageView>
    decreases fuel, ids.len(),
{
    if fuel == 0 || ids.len() == 0 {
        Seq::empty()
    } else {
        let k = ids[0];
        let inner = copy_seq(m, m[k].children, base as i32, base + 1, (fuel - 1) as nat);
        let me = PageView {
            parent: Some(dst),
            children: tops(m, m[k].children, base + 1, (fuel - 1) as nat),
            search_text: m[k].search_text,
            ..blank_page(base as i32, m[k].title)
        };
        seq![me] + inner + copy_seq(m, ids.drop_first(), dst, base + 1 + inner.len(), fuel)
    }
}

/// The ids the copy walk gives the copies of `ids` themselves (not of their
/// descendants), in order.
pub open spec fn tops(m: Map<i32, PageView>, ids: Seq<i32>, base: int, fuel: nat) -> Seq<i32>
    decreases fuel, ids.len(),
{
    if fuel == 0 || ids.len() == 0 {
        Seq::empty()
    } else {
        let k = ids[0];
        let inner = copy_seq(m, m[k].children, base as i32, base + 1, (fuel - 1) as nat);
        seq![base as i32] + tops(m, ids.drop_first(), base + 1 + inner.len(), fuel)
    }
}

/// The copy walk makes one page per page the depth-first walk visits.
pub(crate) proof fn lemma_copy_len(m: Map<i32, PageView>, ids: Seq<i32>, dst: i32, base: int, fuel: nat)
    requires
        all_present(m, ids, fuel),
        0 <= base,
        base + dfs(m, ids, fuel).len() <= i32::MAX,
    ensures
        copy_seq(m, ids, dst, base, fuel).len() == dfs(m, ids, fuel).len(),
        forall|i: int| 0 <= i < copy_seq(m, ids, dst, base, fuel).len() ==> (#[trigger] copy_seq(m, ids, dst, base, fuel)[i]).id == base + i,
        forall|i: int| 0 <= i < tops(m, ids, base, fuel).len() ==> base <= #[trigger] tops(m, ids, base, fuel)[i] < base + copy_seq(m, ids, dst, base, fuel).len(),
    decreases fuel, ids.len(),
{
    if fuel > 0 && ids.len() > 0 {
        let k = ids[0];
        assert(dfs(m, ids, fuel) == seq![k] + dfs(m, m[k].children, (fuel - 1) as nat) + dfs(m, ids.drop_first(), fuel));
        let inner = copy_seq(m, m[k].children, base as i32, base + 1, (fuel - 1) as nat);
        lemma_copy_len(m, m[k].children, base as i32, base + 1, (fuel - 1) as nat);
        lemma_copy_len(m, ids.drop_first(), dst, base + 1 + inner.len(), fuel);
        let me = copy_seq(m, ids, dst, base, fuel)[0];
        let rest = copy_seq(m, ids.drop_first(), dst, base + 1 + inner.len(), fuel);
        assert(copy_seq(m, ids, dst, base, fuel) == seq![me] + inner + rest);
        assert forall|i: int| 0 <= i < copy_seq(m, ids, dst, base, fuel).len() implies (#[trigger] copy_seq(m, ids, dst, base, fuel)[i]).id == base + i by {
            if i == 0 {
            } else if i < 1 + inner.len() {
                assert(copy_seq(m, ids, dst, base, fuel)[i] == inner[i - 1]);
            } else {
                assert(copy_seq(m, ids, dst, base, fuel)[i] == rest[i - 1 - inner.len()]);
            }
        }
        let t = tops(m, ids, base, fuel);
        let trest = tops(m, ids.drop_first(), base + 1 + inner.len(), fuel);
        assert(t == seq![base as i32] + trest);
        assert forall|i: int| 0 <= i < t.len() implies base <= #[trigger] t[i] < base + copy_seq(m, ids, dst, base, fuel).len() by {
            if i > 0 {
                assert(t[i] == trest[i - 1]);
            }
        }
    }
}

/// The copy walk (and the depth-first walk) over `ids` reads only the pages
/// it visits: a map that agrees with `m` on them gives the same answers.
proof fn lemma_walk_agree(m: Map<i32, PageView>, m2: Map<i32, PageView>, ids: Seq<i32>, dst: i32, base: int, fuel: nat)
    requires
        all_present(m, ids, fuel),
        forall|i: int| 0 <= i < dfs(m, ids, fuel).len() ==> m2.contains_key(#[trigger] dfs(m, ids, fuel)[i])
            && m2[dfs(m, ids, fuel)[i]] == m[dfs(m, ids, fuel)[i]],
    ensures
        all_present(m2, ids, fuel),
        dfs(m2, ids, fuel) == dfs(m, ids, fuel),
        copy_seq(m2, ids, dst, base, fuel) == copy_seq(m, ids, dst, base, fuel),
        tops(m2, ids, base, fuel) == tops(m, ids, base, fuel),
    decreases fuel, ids.len(),
{
    if fuel > 0 && ids.len() > 0 {
        let k = ids[0];
        let d = dfs(m, ids, fuel);
        let dk = dfs(m, m[k].children, (fuel - 1) as nat);
        let dr = dfs(m, ids.drop_first(), fuel);
        assert(d == seq![k] + dk + dr);
        assert(d[0] == k);
        assert(m2.contains_key(k) && m2[k] == m[k]);
        assert forall|i: int| 0 <= i < dk.len() implies m2.contains_key(#[trigger] dk[i]) && m2[dk[i]] == m[dk[i]] by {
            assert(d[1 + i] == dk[i]);
        }
        assert forall|i: int| 0 <= i < dr.len() implies m2.contains_key(#[trigger] dr[i]) && m2[dr[i]] == m[dr[i]] by {
            assert(d[1 + dk.len() + i] == dr[i]);
        }
        let inner = copy_seq(m, m[k].children, base as i32, base + 1, (fuel - 1) as nat);
        lemma_walk_agree(m, m2, m[k].children, base as i32, base + 1, (fuel - 1) as nat);
        lemma_walk_agree(m, m2, ids.drop_first(), dst, base + 1 + inner.len(), fuel);
    }
}

/// The pages of `s`, whose ids run from `base` upwards, as a map.
pub open spec fn seq_map(s: Seq<PageView>, base: int) -> Map<i32, PageView> {
    Map::new(|k: i32| base <= k < base + s.len(), |k: i32| s[k - base])
}

impl Workspace {
    /// Make the copy of page `k` that hangs last under `dst`: a fresh page
    /// with `k`'s title and search text. Returns its id and `k`'s children.
    fn make_copy(&mut self, k: i32, dst: i32) -> (r: (i32, Vec<i32>))
        requires
            old(self).wf(),
            old(self)@.has(k),
            old(self)@.has(dst),
            old(self)@.next_id < i32::MAX,
        ensures
            final(self).wf(),
            r.0 == old(self)@.next_id,
            r.1@ == old(self)@.pages[k].children,
            final(self)@.next_id == old(self)@.next_id + 1,
            final(self)@.roots == old(self)@.roots,
            final(self)@.recents == old(self)@.recents,
            final(self)@.pages == old(self)@.pages.insert(
                r.0,
                PageView { parent: Some(dst), search_text: old(self)@.pages[k].search_text, ..blank_page(r.0, old(self)@.pages[k].title) },
            ).insert(dst, PageView { children: old(self)@.pages[dst].children.push(r.0), ..old(self)@.pages[dst] }),
    {
        let ghost m = self@.pages;
        proof {
            self.lemma_wf_view();
        }
        let (_, src) = self.page_copy(k);
        let new_id = self.new_page(src.title.as_str());
        let (j, mut np) = self.page_copy(new_id);
        np.search_text = src.search_text;
        self.set_page_at(j, np);
        let ghost ma = self@.pages;
        assert(ma =~= m.insert(new_id, PageView { search_text: m[k].search_text, ..blank_page(new_id, m[k].title) }));
        self.attach(new_id, Some(dst), None);
        assert(m[dst].children.insert(m[dst].children.len() as int, new_id) =~= m[dst].children.push(new_id));
        assert(self@.pages =~= m.insert(
            new_id,
            PageView { parent: Some(dst), search_text: m[k].search_text, ..blank_page(new_id, m[k].title) },
        ).insert(dst, PageView { children: m[dst].children.push(new_id), ..m[dst] }));
        (new_id, src.children)
    }

    /// Copy the pages `kids[i..]` (and, depth-first, their descendants) as
    /// new children of `dst`. Every page this reads is below `lo`, and every
    /// page it writes is at or above it.
    fn copy_list(&mut self, kids: &Vec<i32>, i: usize, dst: i32, fuel: usize, Ghost(lo): Ghost<int>)
        requires
            old(self).wf(),
            i <= kids@.len(),
            old(self)@.has(dst),
            lo <= dst,
            lo <= old(self)@.next_id,
            all_present(old(self)@.pages, kids@.skip(i as int), fuel as nat),
            forall|t: int| 0 <= t < dfs(old(self)@.pages, kids@.skip(i as int), fuel as nat).len()
                ==> #[trigger] dfs(old(self)@.pages, kids@.skip(i as int), fuel as nat)[t] < lo,
            old(self)@.next_id + dfs(old(self)@.pages, kids@.skip(i as int), fuel as nat).len() <= i32::MAX,
        ensures
            final(self).wf(),
            ({
                let m = old(self)@.pages;
                let b = old(self)@.next_id;
                let cs = copy_seq(m, kids@.skip(i as int), dst, b, fuel as nat);
                &&& final(self)@.next_id == b + cs.len()
                &&& final(self)@.pages == m.insert(
                    dst,
                    PageView { children: m[dst].children + tops(m, kids@.skip(i as int), b, fuel as nat), ..m[dst] },
                ).union_prefer_right(seq_map(cs, b))
                &&& final(self)@.roots == old(self)@.roots
                &&& final(self)@.recents == old(self)@.recents
            }),
        decreases fuel, kids@.len() - i,
    {
        let ghost m = self@.pages;
        let ghost b = self@.next_id;
        let ghost ids = kids@.skip(i as int);
        proof {
            self.lemma_wf_view();
        }
        if fuel == 0 || i == kids.len() {
            assert(copy_seq(m, ids, dst, b, fuel as nat) =~= Seq::<PageView>::empty());
            assert(tops(m, ids, b, fuel as nat) =~= Seq::<i32>::empty());
            assert(m[dst].children + Seq::<i32>::empty() =~= m[dst].children);
            assert(self@.pages =~= m.insert(
                dst,
                PageView { children: m[dst].children + tops(m, ids, b, fuel as nat), ..m[dst] },
            ).union_prefer_right(seq_map(copy_seq(m, ids, dst, b, fuel as nat), b)));
            return;
        }
        let k = kids[i];
        assert(ids[0] == k);
        assert(ids.drop_first() =~= kids@.skip(i + 1));
        let ghost dk = dfs(m, m[k].children, (fuel - 1) as nat);
        let ghost dr = dfs(m, kids@.skip(i + 1), fuel as nat);
        assert(dfs(m, ids, fuel as nat) == seq![k] + dk + dr);
        assert(dfs(m, ids, fuel as nat)[0] == k);
        assert(k < lo);
        let (new_id, src_children) = self.make_copy(k, dst);
        let ghost m1 = self@.pages;
        // the first recursive call reads only pages below `lo`, which are as they were
        proof {
            assert forall|t: int| 0 <= t < dk.len() implies m1.contains_key(#[trigger] dk[t]) && m1[dk[t]] == m[dk[t]] by {
                assert(dfs(m, ids, fuel as nat)[1 + t] == dk[t]);
                lemma_dfs_keys(m, m[k].children, (fuel - 1) as nat);
            }
            lemma_walk_agree(m, m1, m[k].children, new_id, b + 1, (fuel - 1) as nat);
            assert(src_children@.skip(0) =~= src_children@);
            assert forall|t: int| 0 <= t < dr.len() implies #[trigger] dr[t] < lo by {
                assert(dfs(m, ids, fuel as nat)[1 + dk.len() + t] == dr[t]);
            }
            assert forall|t: int| 0 <= t < dk.len() implies #[trigger] dk[t] < lo by {
                assert(dfs(m, ids, fuel as nat)[1 + t] == dk[t]);
            }
        }
        self.copy_list(&src_children, 0, new_id, fuel - 1, Ghost(lo));
        let ghost m2 = self@.pages;
        let ghost inner = copy_seq(m, m[k].children, new_id, b + 1, (fuel - 1) as nat);
        proof {
            lemma_copy_len(m, m[k].children, new_id, b + 1, (fuel - 1) as nat);
            lemma_dfs_keys(m, kids@.skip(i + 1), fuel as nat);
            assert forall|t: int| 0 <= t < dr.len() implies m2.contains_key(#[trigger] dr[t]) && m2[dr[t]] == m[dr[t]] by {
                assert(dfs(m, ids, fuel as nat)[1 + dk.len() + t] == dr[t]);
            }
            lemma_walk_agree(m, m2, kids@.skip(i + 1), dst, b + 1 + inner.len(), fuel as nat);
        }
        self.copy_list(kids, i + 1, dst, fuel, Ghost(lo));
        proof {
            lemma_copy_len(m, kids@.skip(i + 1), dst, b + 1 + inner.len(), fuel as nat);
            lemma_copy_len(m, ids, dst, b, fuel as nat);
            lemma_copy_step(m, m1, m2, self@.pages, ids, dst, b, fuel as nat);
        }
    }
}

/// One step of the copy walk: the state after copying `ids[0]` (with its
/// subtree) and then the rest of `ids` is the state the whole walk describes.
proof fn lemma_copy_step(
    m: Map<i32, PageView>,
    m1: Map<i32, PageView>,
    m2: Map<i32, PageView>,
    m3: Map<i32, PageView>,
    ids: Seq<i32>,
    dst: i32,
    b: int,
    fuel: nat,
)
    requires
        fuel > 0,
        ids.len() > 0,
        m.contains_key(dst),
        dst < b,
        0 <= b,
        forall|x: i32| m.contains_key(x) ==> x < b,
        all_present(m, ids, fuel),
        b + dfs(m, ids, fuel).len() <= i32::MAX,
        m1 == m.insert(
            b as i32,
            PageView { parent: Some(dst), search_text: m[ids[0]].search_text, ..blank_page(b as i32, m[ids[0]].title) },
        ).insert(dst, PageView { children: m[dst].children.push(b as i32), ..m[dst] }),
        m2 == m1.insert(
            b as i32,
            PageView { children: m1[b as i32].children + tops(m, m[ids[0]].children, b + 1, (fuel - 1) as nat), ..m1[b as i32] },
        ).union_prefer_right(seq_map(copy_seq(m, m[ids[0]].children, b as i32, b + 1, (fuel - 1) as nat), b + 1)),
        ({
            let inner = copy_seq(m, m[ids[0]].children, b as i32, b + 1, (fuel - 1) as nat);
            let b2 = b + 1 + inner.len();
            m3 == m2.insert(
                dst,
                PageView { children: m2[dst].children + tops(m, ids.drop_first(), b2, fuel), ..m2[dst] },
            ).union_prefer_right(seq_map(copy_seq(m, ids.drop_first(), dst, b2, fuel), b2))
        }),
    ensures
        m3 == m.insert(
            dst,
            PageView { children: m[dst].children + tops(m, ids, b, fuel), ..m[dst] },
        ).union_prefer_right(seq_map(copy_seq(m, ids, dst, b, fuel), b)),
{
    let k = ids[0];
    let inner = copy_seq(m, m[k].children, b as i32, b + 1, (fuel - 1) as nat);
    let b2 = b + 1 + inner.len();
    let rest = copy_seq(m, ids.drop_first(), dst, b2, fuel);
    let cs = copy_seq(m, ids, dst, b, fuel);
    assert(dfs(m, ids, fuel) == seq![k] + dfs(m, m[k].children, (fuel - 1) as nat) + dfs(m, ids.drop_first(), fuel));
    lemma_copy_len(m, m[k].children, b as i32, b + 1, (fuel - 1) as nat);
    lemma_copy_len(m, ids.drop_first(), dst, b2, fuel);
    lemma_copy_len(m, ids, dst, b, fuel);
    assert(cs == seq![cs[0]] + inner + rest);
    let goal = m.insert(
        dst,
        PageView { children: m[dst].children + tops(m, ids, b, fuel), ..m[dst] },
    ).union_prefer_right(seq_map(cs, b));
    assert(tops(m, ids, b, fuel) == seq![b as i32] + tops(m, ids.drop_first(), b2, fuel));
    assert(m[dst].children + tops(m, ids, b, fuel) =~= m[dst].children.push(b as i32) + tops(m, ids.drop_first(), b2, fuel));
    assert forall|x: i32| #[trigger] m3.contains_key(x) <==> goal.contains_key(x) by {}
    assert forall|x: i32| m3.contains_key(x) implies #[trigger] m3[x] == goal[x] by {
        if b2 <= x < b + cs.len() {
            assert(cs[x - b] == rest[x - b2]);
        } else if b + 1 <= x < b2 {
            assert(cs[x - b] == inner[x - b - 1]);
        } else if x == b {
            assert(cs[0] == m3[x]);
        }
    }
    assert(m3 =~= goal);
}

impl WorkspaceView {
    /// The top page of a duplicate of `id`, numbered `b`: titled "Copy of …",
    /// carrying the source's font, layout switches, icon and cover, but not
    /// its lock, star, expansion or search text.
    pub open spec fn copy_root(self, id: i32, b: i32) -> PageView {
        let src = self.pages[id];
        PageView {
            font: src.font,
            full_width: src.full_width,
            small_text: src.small_text,
            icon: src.icon,
            cover: src.cover,
            ..blank_page(b, "Copy of "@ + src.title)
        }
    }

    /// What `duplicate(id)` leaves: the copy root right after `id` among its
    /// siblings, and below it a copy of every descendant, numbered in
    /// depth-first order from the next id on.
    pub open spec fn duplicated(self, id: i32) -> WorkspaceView {
        let b = self.next_id;
        let src = self.pages[id];
        let v1 = (WorkspaceView {
            pages: self.pages.insert(b as i32, self.copy_root(id, b as i32)),
            next_id: b + 1,
            ..self
        }).attached(b as i32, src.parent, Some(id));
        let fuel = (self.size() - 1) as nat;
        let cs = copy_seq(self.pages, src.children, b as i32, b + 1, fuel);
        WorkspaceView {
            pages: v1.pages.insert(
                b as i32,
                PageView { children: v1.pages[b as i32].children + tops(self.pages, src.children, b + 1, fuel), ..v1.pages[b as i32] },
            ).union_prefer_right(seq_map(cs, b + 1)),
            next_id: b + 1 + cs.len(),
            ..v1
        }
    }

    /// What `duplicate(id)` needs of the tree below `id`: every child it
    /// lists is a page, the subtree's copies fit in the id space, and the
    /// page's parent is not inside its own subtree.
    pub open spec fn can_duplicate(self, id: i32) -> bool {
        let src = self.pages[id];
        &&& self.parent_of(id) matches Some(q) ==> self.has(q)
        &&& all_present(self.pages, src.children, (self.size() - 1) as nat)
        &&& self.next_id + self.subtree(id).len() <= i32::MAX
        &&& self.parent_of(id) matches Some(q) ==> !dfs(self.pages, src.children, (self.size() - 1) as nat).contains(q)
    }
}

impl Workspace {
    /// Deep-copy the subtree; the copy lands directly after the original and
    /// is titled "Copy of …". Returns the new root id.
    pub fn duplicate(&mut self, id: i32) -> (r: Option<i32>)
        requires
            old(self).wf(),
            old(self)@.has(id) ==> old(self)@.can_duplicate(id),
        ensures
            final(self).wf(),
            !old(self)@.has(id) ==> r is None && final(self)@ == old(self)@,
            old(self)@.has(id) ==> r == Some(old(self)@.next_id as i32) && final(self)@ == old(self)@.duplicated(id),
    {
        let ghost v0 = self@;
        let ghost m = self@.pages;
        let ghost b = self@.next_id;
        if self.find(id).is_none() {
            return None;
        }
        proof {
            self.lemma_wf_view();
            lemma_arena_len(self.pages@);
        }
        let n = self.pages.len();
        let (_, src) = self.page_copy(id);
        let ghost fuel = (n - 1) as nat;
        proof {
            let d = dfs(m, seq![id], n as nat);
            assert(d == seq![id] + dfs(m, m[id].children, fuel) + dfs(m, seq![id].drop_first(), n as nat));
            assert(d.len() >= 1 + dfs(m, m[id].children, fuel).len());
        }
        let mut title = "Copy of ".to_owned();
        title.append(src.title.as_str());
        let new_root = self.new_page(title.as_str());
        let (j, mut root) = self.page_copy(new_root);
        root.font = src.font;
        root.full_width = src.full_width;
        root.small_text = src.small_text;
        root.icon = src.icon;
        root.cover = src.cover;
        self.set_page_at(j, root);
        assert(self@.pages =~= m.insert(b as i32, v0.copy_root(id, b as i32)));
        self.attach(new_root, src.parent, Some(id));
        let ghost mc = self@.pages;
        proof {
            let dk = dfs(m, m[id].children, fuel);
            lemma_dfs_keys(m, m[id].children, fuel);
            assert forall|t: int| 0 <= t < dk.len() implies mc.contains_key(#[trigger] dk[t]) && mc[dk[t]] == m[dk[t]] by {
                assert(m.contains_key(dk[t]));
                assert(dk.contains(dk[t]));
            }
            lemma_walk_agree(m, mc, m[id].children, new_root, b + 1, fuel);
            assert(src.children@.skip(0) =~= src.children@);
        }
        self.copy_list(&src.children, 0, new_root, n - 1, Ghost(b));
        proof {
            assert(self@ =~= v0.duplicated(id));
        }
        Some(new_root)
    }
}

/// How many pages of the arena prefix are not templates, and the set they
/// form, agree.
/// Two page lists that agree, place by place, on which pages are templates
/// have as many non-template pages.
proof fn lemma_filter_template_len(a: Seq<Page>, b: Seq<Page>)
    requires
        a.len() == b.len(),
        forall|t: int| 0 <= t < a.len() ==> (#[trigger] a[t]).template == b[t].template,
    ensures
        a.filter(|p: Page| !p.template).len() == b.filter(|p: Page| !p.template).len(),
    decreases a.len(),
{
    reveal(Seq::filter);
    if a.len() > 0 {
        assert forall|t: int| 0 <= t < a.drop_last().len() implies (#[trigger] a.drop_last()[t]).template == b.drop_last()[t].template by {
            assert(a.drop_last()[t] == a[t] && b.drop_last()[t] == b[t]);
        }
        lemma_filter_template_len(a.drop_last(), b.drop_last());
        assert(a.last().template == b.last().template);
    }
}

proof fn lemma_arena_visible(s: Seq<Page>)
    requires
        distinct_ids(s),
    ensures
        arena_map(s).dom().filter(|k: i32| !arena_map(s)[k].template).finite(),
        arena_map(s).dom().filter(|k: i32| !arena_map(s)[k].template).len()
            == s.filter(|p: Page| !p.template).len(),
    decreases s.len(),
{
    broadcast use vstd::set::group_set_axioms;
    reveal(Seq::filter);
    lemma_arena_finite(s);
    let m = arena_map(s);
    let f = m.dom().filter(|k: i32| !m[k].template);
    vstd::set_lib::lemma_set_subset_finite(m.dom(), f);
    if s.len() > 0 {
        let t = s.drop_last();
        assert(distinct_ids(t));
        lemma_arena_visible(t);
        let mt = arena_map(t);
        let ft = mt.dom().filter(|k: i32| !mt[k].template);
        let last = s.last();
        assert forall|i: int| 0 <= i < t.len() implies t[i].id != last.id by {
            assert(t[i] == s[i]);
        }
        lemma_arena_dom(t, last.id);
        assert(!mt.contains_key(last.id));
        assert(s =~= t.push(last));
        if last.template {
            assert(f =~= ft);
            assert(s.filter(|p: Page| !p.template) == t.filter(|p: Page| !p.template));
        } else {
            assert(f =~= ft.insert(last.id));
            assert(s.filter(|p: Page| !p.template) == t.filter(|p: Page| !p.template).push(last));
        }
    } else {
        assert(f =~= Set::<i32>::empty());
    }
}

impl Workspace {
    /// Every page row, templates included, each once, in no particular order.
    pub fn page_rows(&self) -> (r: Vec<Page>)
        requires
            self.wf(),
        ensures
            r@.len() == self@.pages.dom().len(),
            forall|i: int| 0 <= i < r@.len() ==> self@.has(#[trigger] r@[i].id) && r@[i]@ == self@.pages[r@[i].id],
            forall|i: int, j: int| 0 <= i < r@.len() && 0 <= j < r@.len() && i != j ==> r@[i].id != r@[j].id,
            r@.filter(|p: Page| !p.template).len() == self@.visible_count(),
    {
        proof {
            lemma_arena_len(self.pages@);
            lemma_arena_visible(self.pages@);
        }
        let mut out: Vec<Page> = Vec::new();
        let mut i: usize = 0;
        while i < self.pages.len()
            invariant
                self.wf(),
                i <= self.pages@.len(),
                out@.len() == i,
                forall|t: int| 0 <= t < i ==> (#[trigger] out@[t])@ == self.pages@[t]@ && out@[t].id == self.pages@[t].id,
            decreases self.pages@.len() - i,
        {
            out.push(self.pages[i].copied());
            i = i + 1;
        }
        proof {
            assert forall|t: int| 0 <= t < out@.len() implies self@.has(#[trigger] out@[t].id) && out@[t]@ == self@.pages[out@[t].id] by {
                lemma_arena_at(self.pages@, t);
            }
            assert forall|t: int| 0 <= t < out@.len() implies (#[trigger] out@[t]).template == self.pages@[t].template by {
                assert(out@[t]@ == self.pages@[t]@);
            }
            lemma_filter_template_len(out@, self.pages@);
        }
        out
    }

    /// The attachment ids some page uses as its cover, one entry per such
    /// page (so an attachment two pages share is listed twice).
    pub fn cover_ids(&self) -> (r: Vec<i64>)
        requires
            self.wf(),
        ensures
            exists|ks: Seq<i32>| {
                &&& ks.len() == r@.len()
                &&& ks.no_duplicates()
                &&& forall|k: i32| #[trigger] ks.contains(k) <==> (self@.has(k) && self@.pages[k].cover is Some)
                &&& forall|i: int| 0 <= i < ks.len() ==> (#[trigger] r@[i]) == (self@.pages[ks[i]].cover->0).0 as i64
            },
    {
        let mut out: Vec<i64> = Vec::new();
        let ghost mut ks: Seq<i32> = Seq::empty();
        let mut i: usize = 0;
        while i < self.pages.len()
            invariant
                self.wf(),
                i <= self.pages@.len(),
                ks.len() == out@.len(),
                ks.no_duplicates(),
                forall|k: i32| #[trigger] ks.contains(k) <==> exists|t: int| 0 <= t < i && self.pages@[t].id == k && self.pages@[t].cover is Some,
                forall|t: int| 0 <= t < ks.len() ==> self@.has(#[trigger] ks[t]) && out@[t] == (self@.pages[ks[t]].cover->0).0 as i64,
            decreases self.pages@.len() - i,
        {
            let p = &self.pages[i];
            proof {
                lemma_arena_at(self.pages@, i as int);
            }
            if let Some(a) = p.cover {
                let ghost old_ks = ks;
                proof {
                    assert(!ks.contains(p.id)) by {
                        if ks.contains(p.id) {
                            let t = choose|t: int| 0 <= t < i && self.pages@[t].id == p.id && self.pages@[t].cover is Some;
                        }
                    }
                    ks = ks.push(p.id);
                    assert forall|k: i32| #[trigger] ks.contains(k) <==> exists|t: int| 0 <= t < i + 1 && self.pages@[t].id == k && self.pages@[t].cover is Some by {
                        if k == p.id {
                            assert(ks[ks.len() - 1] == k);
                        }
                        if ks.contains(k) && k != p.id {
                            let t = choose|t: int| 0 <= t < ks.len() && ks[t] == k;
                            assert(old_ks[t] == k);
                            assert(old_ks.contains(k));
                        }
                        if exists|t: int| 0 <= t < i + 1 && self.pages@[t].id == k && self.pages@[t].cover is Some {
                            let t = choose|t: int| 0 <= t < i + 1 && self.pages@[t].id == k && self.pages@[t].cover is Some;
                            if t < i {
                                assert(old_ks.contains(k));
                                let u = choose|u: int| 0 <= u < old_ks.len() && old_ks[u] == k;
                                assert(ks[u] == k);
                            }
                        }
                    }
                }
                out.push(a.0 as i64);
            }
            i = i + 1;
        }
        proof {
            assert forall|k: i32| #[trigger] ks.contains(k) <==> (self@.has(k) && self@.pages[k].cover is Some) by {
                lemma_arena_dom(self.pages@, k);
                if self@.has(k) {
                    let t = choose|t: int| 0 <= t < self.pages@.len() && self.pages@[t].id == k;
                    lemma_arena_at(self.pages@, t);
                }
                if ks.contains(k) {
                    let t = choose|t: int| 0 <= t < self.pages@.len() && self.pages@[t].id == k && self.pages@[t].cover is Some;
                    lemma_arena_at(self.pages@, t);
                }
            }
        }
        out
    }

    /// Pages a person can see: every page except the template library.
    pub fn visible_page_count(&self) -> (r: usize)
        requires
            self.wf(),
        ensures
            r == self@.visible_count(),
    {
        proof {
            lemma_arena_visible(self.pages@);
        }
        let mut n: usize = 0;
        let mut i: usize = 0;
        while i < self.pages.len()
            invariant
                i <= self.pages@.len(),
                n == self.pages@.take(i as int).filter(|p: Page| !p.template).len(),
                n <= i,
            decreases self.pages@.len() - i,
        {
            assert(self.pages@.take(i + 1) =~= self.pages@.take(i as int).push(self.pages@[i as int]));
            proof {
                self.pages@.take(i as int).lemma_filter_push(self.pages@[i as int], |p: Page| !p.template);
            }
            if !self.pages[i].template {
                n = n + 1;
            }
            i = i + 1;
        }
        assert(self.pages@.take(self.pages@.len() as int) =~= self.pages@);
        n
    }
}

proof fn lemma_arena_finite(s: Seq<Page>)
    ensures
        arena_map(s).dom().finite(),
    decreases s.len(),
{
    if s.len() > 0 {
        lemma_arena_finite(s.drop_last());
    }
}

/// How many hits a search returns at most.
pub const MAX_HITS: usize = 20;

/// How many characters a snippet keeps either side of the match.
pub const SNIPPET_PAD: usize = 48;

/// The abstract value of a search hit.
pub struct HitView {
    pub id: i32,
    pub title: Seq<char>,
    pub breadcrumb: Seq<char>,
    pub snippet: Seq<char>,
}

impl View for SearchHit {
    type V = HitView;

    open spec fn view(&self) -> HitView {
        HitView { id: self.id, title: self.title@, breadcrumb: self.breadcrumb@, snippet: self.snippet@ }
    }
}

pub open spec fn hits_view(s: Seq<SearchHit>) -> Seq<HitView> {
    s.map_values(|h: SearchHit| h@)
}

impl WorkspaceView {
    /// One page's contribution to a search for `needle` (already trimmed):
    /// a title hit, else a content hit with its snippet, else nothing.
    pub open spec fn search_step(self, id: i32, needle: Seq<char>, t: Seq<HitView>, c: Seq<HitView>) -> (Seq<HitView>, Seq<HitView>) {
        let p = self.pages[id];
        if text::find_ci_spec(p.title, needle) is Some {
            (t.push(HitView { id, title: p.title, breadcrumb: self.crumb(id), snippet: Seq::empty() }), c)
        } else {
            match text::find_ci_spec(p.search_text, needle) {
                Some(pos) => (
                    t,
                    c.push(
                        HitView {
                            id,
                            title: p.title,
                            breadcrumb: self.crumb(id),
                            snippet: text::snippet_of(p.search_text, pos, needle.len() as int, SNIPPET_PAD as int),
                        },
                    ),
                ),
                None => (t, c),
            }
        }
    }

    /// The pages of `ids` searched in order, stopping once `MAX_HITS` hits
    /// are in hand: (title hits, content hits).
    pub open spec fn search_scan(self, ids: Seq<i32>, needle: Seq<char>, t: Seq<HitView>, c: Seq<HitView>) -> (Seq<HitView>, Seq<HitView>)
        decreases ids.len(),
    {
        if ids.len() == 0 {
            (t, c)
        } else {
            let (t2, c2) = self.search_step(ids[0], needle, t, c);
            if t2.len() + c2.len() >= MAX_HITS {
                (t2, c2)
            } else {
                self.search_scan(ids.drop_first(), needle, t2, c2)
            }
        }
    }

    /// What a search for `query` returns: with an empty (trimmed) query the
    /// recent pages; else the title hits in tree order, then the content
    /// hits in tree order, `MAX_HITS` at most.
    pub open spec fn search_result(self, query: Seq<char>) -> Seq<HitView> {
        let q = text::trim(query);
        if q.len() == 0 {
            let kr = self.known_recents();
            (if kr.len() > MAX_HITS { kr.take(MAX_HITS as int) } else { kr }).map_values(
                |k: i32| HitView { id: k, title: self.pages[k].title, breadcrumb: self.crumb(k), snippet: Seq::empty() },
            )
        } else {
            let (t, c) = self.search_scan(self.order(), q, Seq::empty(), Seq::empty());
            t + c
        }
    }
}

impl Workspace {
    /// Search pages by title first, then by content. An empty query returns
    /// the recent pages (the "jump back in" list). At most `MAX_HITS` hits.
    pub fn search(&self, query: &str) -> (r: Vec<SearchHit>)
        requires
            self.wf(),
        ensures
            hits_view(r@) == self@.search_result(query@),
    {
        let qc = text::chars_of(query);
        let q = text::trimmed(qc.as_slice(), 0, qc.len());
        assert(qc@.subrange(0, qc@.len() as int) =~= query@);
        if q.len() == 0 {
            let rec = self.recents();
            let mut out: Vec<SearchHit> = Vec::new();
            let mut i: usize = 0;
            let ghost kr = self@.known_recents();
            while i < rec.len() && i < MAX_HITS
                invariant
                    self.wf(),
                    titled(self@.pages, kr, rec@),
                    kr == self@.known_recents(),
                    i <= rec@.len(),
                    i <= MAX_HITS,
                    hits_view(out@) == kr.take(i as int).map_values(
                        |k: i32| HitView { id: k, title: self@.pages[k].title, breadcrumb: self@.crumb(k), snippet: Seq::empty() },
                    ),
                decreases rec@.len() - i,
            {
                assert(rec@[i as int].0 == kr[i as int] && rec@[i as int].1@ == self@.pages[kr[i as int]].title);
                let id = rec[i].0;
                let title = rec[i].1.clone();
                let breadcrumb = self.breadcrumb(id);
                let ghost o = out@;
                out.push(SearchHit { id, title, breadcrumb, snippet: String::new() });
                assert(hits_view(out@) =~= hits_view(o).push(HitView { id, title: self@.pages[id].title, breadcrumb: self@.crumb(id), snippet: Seq::empty() }));
                i = i + 1;
                assert(hits_view(out@) =~= kr.take(i as int).map_values(
                    |k: i32| HitView { id: k, title: self@.pages[k].title, breadcrumb: self@.crumb(k), snippet: Seq::empty() },
                ));
            }
            proof {
                if i == rec@.len() {
                    assert(kr.take(i as int) =~= kr);
                }
            }
            return out;
        }
        let order = self.dfs_order();
        proof {
            lemma_dfs_keys(self@.pages, self@.roots, self@.size());
        }
        let ghost full = self@.search_scan(self@.order(), q@, Seq::empty(), Seq::empty());
        let mut title_hits: Vec<SearchHit> = Vec::new();
        let mut content_hits: Vec<SearchHit> = Vec::new();
        let mut i: usize = 0;
        let mut done = false;
        assert(order@.skip(0) =~= order@);
        assert(hits_view(title_hits@) =~= Seq::<HitView>::empty());
        assert(hits_view(content_hits@) =~= Seq::<HitView>::empty());
        while i < order.len() && !done
            invariant
                self.wf(),
                order@ == self@.order(),
                forall|j: int| 0 <= j < order@.len() ==> self@.has(#[trigger] order@[j]),
                i <= order@.len(),
                title_hits@.len() + content_hits@.len() <= i,
                !done ==> full == self@.search_scan(order@.skip(i as int), q@, hits_view(title_hits@), hits_view(content_hits@)),
                done ==> full == (hits_view(title_hits@), hits_view(content_hits@)),
            decreases order@.len() - i, (if done { 0int } else { 1int }),
        {
            let id = order[i];
            let ghost rest = order@.skip(i as int);
            let ghost t0 = hits_view(title_hits@);
            let ghost c0 = hits_view(content_hits@);
            assert(rest[0] == id);
            assert(rest.drop_first() =~= order@.skip(i + 1));
            assert(self@.has(id));
            let (_k, p) = self.page_copy(id);
            let title_chars = text::chars_of(p.title.as_str());
            if text::find_ci(title_chars.as_slice(), q.as_slice()).is_some() {
                let breadcrumb = self.breadcrumb(id);
                title_hits.push(SearchHit { id, title: p.title.clone(), breadcrumb, snippet: String::new() });
                assert(hits_view(title_hits@) =~= self@.search_step(id, q@, t0, c0).0);
                assert(hits_view(content_hits@) =~= self@.search_step(id, q@, t0, c0).1);
            } else {
                let text_chars = text::chars_of(p.search_text.as_str());
                match text::find_ci(text_chars.as_slice(), q.as_slice()) {
                    Some(pos) => {
                        let breadcrumb = self.breadcrumb(id);
                        let snippet = text::extract_snippet(p.search_text.as_str(), pos, q.len(), SNIPPET_PAD);
                        content_hits.push(SearchHit { id, title: p.title.clone(), breadcrumb, snippet });
                        assert(hits_view(title_hits@) =~= self@.search_step(id, q@, t0, c0).0);
                        assert(hits_view(content_hits@) =~= self@.search_step(id, q@, t0, c0).1);
                    },
                    None => {
                        assert(hits_view(title_hits@) =~= self@.search_step(id, q@, t0, c0).0);
                        assert(hits_view(content_hits@) =~= self@.search_step(id, q@, t0, c0).1);
                    },
                }
            }
            i = i + 1;
            if title_hits.len() + content_hits.len() >= MAX_HITS {
                done = true;
            }
        }
        proof {
            if !done {
                assert(order@.skip(i as int) =~= Seq::<i32>::empty());
            }
        }
        let mut all = title_hits;
        let ghost tv = hits_view(all@);
        let mut j: usize = 0;
        while j < content_hits.len()
            invariant
                j <= content_hits@.len(),
                hits_view(all@) == tv + hits_view(content_hits@).take(j as int),
            decreases content_hits@.len() - j,
        {
            let h = &content_hits[j];
            let ghost o = all@;
            all.push(SearchHit { id: h.id, title: h.title.clone(), breadcrumb: h.breadcrumb.clone(), snippet: h.snippet.clone() });
            assert(hits_view(all@) =~= hits_view(o).push(content_hits@[j as int]@));
            assert(hits_view(content_hits@).take(j + 1) =~= hits_view(content_hits@).take(j as int).push(content_hits@[j as int]@));
            j = j + 1;
            assert(hits_view(all@) =~= tv + hits_view(content_hits@).take(j as int));
        }
        assert(hits_view(content_hits@).take(j as int) =~= hits_view(content_hits@));
        all
    }
}

/// A list of ids in strictly increasing order that names exactly the
/// members of `set` is as long as `set` is large.
proof fn lemma_sorted_ids_count(r: Seq<(i32, String)>, set: Set<i32>)
    requires
        set.finite(),
        forall|i: int, j: int| 0 <= i < j < r.len() ==> (#[trigger] r[i]).0 < (#[trigger] r[j]).0,
        forall|k: i32| (exists|i: int| 0 <= i < r.len() && (#[trigger] r[i]).0 == k) <==> set.contains(k),
    ensures
        r.len() == set.len(),
{
    let ids = r.map_values(|p: (i32, String)| p.0);
    assert(ids.no_duplicates()) by {
        assert forall|i: int, j: int| 0 <= i < ids.len() && 0 <= j < ids.len() && i != j implies ids[i] != ids[j] by {
            if i < j {
                assert(r[i].0 < r[j].0);
            } else {
                assert(r[j].0 < r[i].0);
            }
        }
    }
    assert(ids.to_set() =~= set) by {
        assert forall|k: i32| ids.to_set().contains(k) <==> set.contains(k) by {
            if ids.contains(k) {
                let i = choose|i: int| 0 <= i < ids.len() && ids[i] == k;
                assert(r[i].0 == k);
            }
            if set.contains(k) {
                let i = choose|i: int| 0 <= i < r.len() && (#[trigger] r[i]).0 == k;
                assert(ids[i] == k);
            }
        }
    }
    ids.unique_seq_to_set();
}

impl Workspace {
    /// The template library as the menus see it: `(id, name)`, oldest
    /// (smallest id) first; nothing sorts by title.
    pub fn templates(&self) -> (r: Vec<(i32, String)>)
        requires
            self.wf(),
        ensures
            forall|i: int, j: int| 0 <= i < j < r@.len() ==> (#[trigger] r@[i]).0 < (#[trigger] r@[j]).0,
            forall|k: i32| (exists|i: int| 0 <= i < r@.len() && (#[trigger] r@[i]).0 == k) <==> (self@.has(k) && self@.pages[k].template),
            forall|i: int| 0 <= i < r@.len() ==> self@.has((#[trigger] r@[i]).0) && r@[i].1@ == self@.pages[r@[i].0].title,
            r@.len() == self@.template_count(),
    {
        let mut ids: Vec<i32> = Vec::new();
        let mut i: usize = 0;
        while i < self.pages.len()
            invariant
                self.wf(),
                i <= self.pages@.len(),
                forall|a: int, b: int| 0 <= a < b < ids@.len() ==> (#[trigger] ids@[a]) < (#[trigger] ids@[b]),
                forall|k: i32| #[trigger] ids@.contains(k) <==> exists|t: int| 0 <= t < i && self.pages@[t].id == k && self.pages@[t].template,
            decreases self.pages@.len() - i,
        {
            if self.pages[i].template {
                let id = self.pages[i].id;
                let mut j: usize = 0;
                while j < ids.len() && ids[j] < id
                    invariant
                        j <= ids@.len(),
                        forall|t: int| 0 <= t < j ==> ids@[t] < id,
                    decreases ids@.len() - j,
                {
                    j = j + 1;
                }
                proof {
                    if ids@.contains(id) {
                        let t = choose|t: int| 0 <= t < i && self.pages@[t].id == id && self.pages@[t].template;
                        assert(self.pages@[t].id == self.pages@[i as int].id);
                    }
                    assert(!ids@.contains(id));
                    assert forall|t: int| j <= t < ids@.len() implies id < ids@[t] by {
                        assert(ids@[t] != id) by {
                            assert(ids@.contains(ids@[t]));
                        }
                        if t > j {
                            assert(ids@[j as int] < ids@[t]);
                        }
                    }
                }
                let ghost o = ids@;
                ids.insert(j, id);
                proof {
                    assert forall|a: int, b: int| 0 <= a < b < ids@.len() implies (#[trigger] ids@[a]) < (#[trigger] ids@[b]) by {
                        if b < j {
                            assert(ids@[a] == o[a] && ids@[b] == o[b]);
                        } else if b == j {
                            assert(ids@[a] == o[a]);
                        } else if a < j {
                            assert(ids@[a] == o[a] && ids@[b] == o[b - 1]);
                        } else if a == j {
                            assert(ids@[b] == o[b - 1]);
                        } else {
                            assert(ids@[a] == o[a - 1] && ids@[b] == o[b - 1]);
                        }
                    }
                    assert forall|k: i32| #[trigger] ids@.contains(k) <==> exists|t: int| 0 <= t < i + 1 && self.pages@[t].id == k && self.pages@[t].template by {
                        if ids@.contains(k) {
                            let u = choose|u: int| 0 <= u < ids@.len() && ids@[u] == k;
                            if u < j {
                                assert(o[u] == k);
                                assert(o.contains(k));
                            } else if u > j {
                                assert(o[u - 1] == k);
                                assert(o.contains(k));
                            }
                        }
                        if exists|t: int| 0 <= t < i + 1 && self.pages@[t].id == k && self.pages@[t].template {
                            let t = choose|t: int| 0 <= t < i + 1 && self.pages@[t].id == k && self.pages@[t].template;
                            if t < i {
                                assert(o.contains(k));
                                let u = choose|u: int| 0 <= u < o.len() && o[u] == k;
                                if u < j {
                                    assert(ids@[u] == k);
                                } else {
                                    assert(ids@[u + 1] == k);
                                }
                            } else {
                                assert(ids@[j as int] == k);
                            }
                        }
                    }
                }
            } else {
                proof {
                    assert forall|k: i32| #[trigger] ids@.contains(k) <==> exists|t: int| 0 <= t < i + 1 && self.pages@[t].id == k && self.pages@[t].template by {
                        if exists|t: int| 0 <= t < i + 1 && self.pages@[t].id == k && self.pages@[t].template {
                            let t = choose|t: int| 0 <= t < i + 1 && self.pages@[t].id == k && self.pages@[t].template;
                            assert(t < i);
                        }
                    }
                }
            }
            i = i + 1;
        }
        proof {
            assert forall|t: int| 0 <= t < ids@.len() implies self@.has(#[trigger] ids@[t]) && self@.pages[ids@[t]].template by {
                assert(ids@.contains(ids@[t]));
                let u = choose|u: int| 0 <= u < self.pages@.len() && self.pages@[u].id == ids@[t] && self.pages@[u].template;
                lemma_arena_at(self.pages@, u);
            }
        }
        let r = self.with_titles(&ids);
        proof {
            assert forall|k: i32| (exists|i: int| 0 <= i < r@.len() && (#[trigger] r@[i]).0 == k) <==> (self@.has(k) && self@.pages[k].template) by {
                if exists|i: int| 0 <= i < r@.len() && (#[trigger] r@[i]).0 == k {
                    let i = choose|i: int| 0 <= i < r@.len() && (#[trigger] r@[i]).0 == k;
                    assert(ids@[i] == k);
                }
                if self@.has(k) && self@.pages[k].template {
                    lemma_arena_dom(self.pages@, k);
                    let u = choose|u: int| 0 <= u < self.pages@.len() && self.pages@[u].id == k;
                    lemma_arena_at(self.pages@, u);
                    assert(ids@.contains(k));
                    let t = choose|t: int| 0 <= t < ids@.len() && ids@[t] == k;
                    assert(r@[t].0 == k);
                }
            }
            assert forall|a: int, b: int| 0 <= a < b < r@.len() implies (#[trigger] r@[a]).0 < (#[trigger] r@[b]).0 by {
                assert(r@[a].0 == ids@[a] && r@[b].0 == ids@[b]);
            }
            lemma_arena_finite(self.pages@);
            let tset = self@.pages.dom().filter(|k: i32| self@.pages[k].template);
            assert forall|k: i32| (exists|i: int| 0 <= i < r@.len() && (#[trigger] r@[i]).0 == k) <==> tset.contains(k) by {
                assert(tset.contains(k) <==> (self@.has(k) && self@.pages[k].template));
            }
            lemma_sorted_ids_count(r@, tset);
        }
        r
    }

    /// The persisted shape of every page in tree order: (id, title, parent,
    /// favorite, expanded, font, full width, small text, icon).
    pub fn page_seed_rows(&self) -> (r: Vec<(i32, String, Option<i32>, bool, bool, PageFont, bool, bool, String)>)
        requires
            self.wf(),
        ensures
            r@.len() == self@.order().len(),
            forall|i: int| 0 <= i < r@.len() ==> {
                let k = #[trigger] self@.order()[i];
                let p = self@.pages[k];
                &&& r@[i].0 == k
                &&& r@[i].1@ == p.title
                &&& r@[i].2 == p.parent
                &&& r@[i].3 == p.favorite
                &&& r@[i].4 == p.expanded
                &&& r@[i].5 == p.font
                &&& r@[i].6 == p.full_width
                &&& r@[i].7 == p.small_text
                &&& r@[i].8@ == p.icon
            },
    {
        let order = self.dfs_order();
        proof {
            lemma_dfs_keys(self@.pages, self@.roots, self@.size());
        }
        let mut out: Vec<(i32, String, Option<i32>, bool, bool, PageFont, bool, bool, String)> = Vec::new();
        let mut i: usize = 0;
        while i < order.len()
            invariant
                self.wf(),
                order@ == self@.order(),
                forall|j: int| 0 <= j < order@.len() ==> self@.has(#[trigger] order@[j]),
                i <= order@.len(),
                out@.len() == i,
                forall|j: int| 0 <= j < i ==> {
                    let k = #[trigger] self@.order()[j];
                    let p = self@.pages[k];
                    &&& out@[j].0 == k
                    &&& out@[j].1@ == p.title
                    &&& out@[j].2 == p.parent
                    &&& out@[j].3 == p.favorite
                    &&& out@[j].4 == p.expanded
                    &&& out@[j].5 == p.font
                    &&& out@[j].6 == p.full_width
                    &&& out@[j].7 == p.small_text
                    &&& out@[j].8@ == p.icon
                },
            decreases order@.len() - i,
        {
            let id = order[i];
            assert(self@.has(order@[i as int]));
            let (_, p) = self.page_copy(id);
            out.push((p.id, p.title, p.parent, p.favorite, p.expanded, p.font, p.full_width, p.small_text, p.icon));
            i = i + 1;
        }
        out
    }
}

/// A stored page row's id in the tree's id space.
pub open spec fn row_id(p: doc::Page) -> i32 {
    p.id.0 as i32
}

/// A stored page row's parent in the tree's id space.
pub open spec fn row_parent(p: doc::Page) -> Option<i32> {
    match p.parent {
        Some(q) => Some(q.0 as i32),
        None => None,
    }
}

/// The tree page a stored row becomes: its own fields, no children, an
/// empty search text.
pub open spec fn persisted_page(p: doc::Page) -> PageView {
    PageView {
        id: row_id(p),
        title: p.title@,
        parent: row_parent(p),
        children: Seq::empty(),
        favorite: p.favorite,
        expanded: p.expanded,
        font: p.font,
        full_width: p.full_width,
        small_text: p.small_text,
        icon: p.icon@,
        cover: p.cover,
        locked: p.locked,
        template: p.template,
        search_text: Seq::empty(),
    }
}

/// The pages of a list of stored rows; a later row with the same id
/// replaces an earlier one.
pub open spec fn rows_map(rows: Seq<doc::Page>) -> Map<i32, PageView>
    decreases rows.len(),
{
    if rows.len() == 0 {
        Map::empty()
    } else {
        rows_map(rows.drop_last()).insert(row_id(rows.last()), persisted_page(rows.last()))
    }
}

/// The (order key, id) pairs of the non-template rows under `parent`.
pub open spec fn kid_pairs(rows: Seq<doc::Page>, parent: Option<i32>) -> Seq<(u64, i32)> {
    rows.filter(|r: doc::Page| !r.template && row_parent(r) == parent).map_values(|r: doc::Page| (r.order.0, row_id(r)))
}

pub open spec fn pair_le(a: (u64, i32), b: (u64, i32)) -> bool {
    a.0 < b.0 || (a.0 == b.0 && a.1 <= b.1)
}

/// `ids` are the ids of `pairs` sorted by order key, then id.
pub open spec fn sorted_kids(ids: Seq<i32>, pairs: Seq<(u64, i32)>) -> bool {
    exists|q: Seq<(u64, i32)>|
        {
            &&& q.to_multiset() == pairs.to_multiset()
            &&& (forall|i: int, j: int| 0 <= i < j < q.len() ==> pair_le(#[trigger] q[i], #[trigger] q[j]))
            &&& ids == q.map_values(|p: (u64, i32)| p.1)
        }
}

/// The largest row id, 0 for none.
pub open spec fn max_row_id(rows: Seq<doc::Page>) -> int
    decreases rows.len(),
{
    if rows.len() == 0 {
        0
    } else {
        let m = max_row_id(rows.drop_last());
        if row_id(rows.last()) > m { row_id(rows.last()) as int } else { m }
    }
}

impl WorkspaceView {
    /// `insert_persisted`: the row's page takes its id (replacing any page
    /// there), the next id moves past it, and a non-template page is
    /// appended to its parent's list (or the roots).
    pub open spec fn persisted(self, p: doc::Page) -> WorkspaceView {
        let id = row_id(p);
        let v1 = WorkspaceView {
            pages: self.pages.insert(id, persisted_page(p)),
            next_id: if self.next_id > id + 1 { self.next_id } else { id + 1 },
            ..self
        };
        if p.template { v1 } else { v1.attached(id, row_parent(p), None) }
    }
}

/// The ids of `rows`' non-template rows under `parent`, sorted by order
/// key, then id.
fn sort_kids(rows: &[doc::Page], parent: Option<i32>) -> (r: Vec<i32>)
    ensures
        sorted_kids(r@, kid_pairs(rows@, parent)),
{
    let ghost pred = |r: doc::Page| !r.template && row_parent(r) == parent;
    let mut q: Vec<(u64, i32)> = Vec::new();
    proof {
        reveal(Seq::filter);
        assert(rows@.take(0) =~= Seq::<doc::Page>::empty());
        assert(rows@.take(0).filter(pred) =~= Seq::<doc::Page>::empty());
        assert(rows@.take(0).filter(pred).map_values(|r: doc::Page| (r.order.0, row_id(r))) =~= Seq::<(u64, i32)>::empty());
        assert(q@ =~= Seq::<(u64, i32)>::empty());
    }
    let mut i: usize = 0;
    while i < rows.len()
        invariant
            i <= rows@.len(),
            pred == (|r: doc::Page| !r.template && row_parent(r) == parent),
            forall|a: int, b: int| 0 <= a < b < q@.len() ==> pair_le(#[trigger] q@[a], #[trigger] q@[b]),
            q@.to_multiset() == rows@.take(i as int).filter(pred).map_values(|r: doc::Page| (r.order.0, row_id(r))).to_multiset(),
        decreases rows@.len() - i,
    {
        let row = &rows[i];
        proof {
            assert(rows@.take(i + 1) =~= rows@.take(i as int).push(rows@[i as int]));
            rows@.take(i as int).lemma_filter_push(rows@[i as int], pred);
        }
        let rp: Option<i32> = match row.parent {
            Some(x) => Some(x.0 as i32),
            None => None,
        };
        let same_parent = match (rp, parent) {
            (Some(a), Some(b)) => a == b,
            (None, None) => true,
            _ => false,
        };
        if !row.template && same_parent {
            let k: (u64, i32) = (row.order.0, row.id.0 as i32);
            let mut j: usize = 0;
            while j < q.len() && (q[j].0 < k.0 || (q[j].0 == k.0 && q[j].1 <= k.1))
                invariant
                    j <= q@.len(),
                    forall|t: int| 0 <= t < j ==> pair_le(#[trigger] q@[t], k),
                decreases q@.len() - j,
            {
                j = j + 1;
            }
            let ghost o = q@;
            proof {
                assert forall|t: int| j <= t < o.len() implies !pair_le(#[trigger] o[t], k) by {
                    if t > j {
                        assert(pair_le(o[j as int], o[t]));
                    }
                }
            }
            q.insert(j, k);
            proof {
                assert forall|a: int, b: int| 0 <= a < b < q@.len() implies pair_le(#[trigger] q@[a], #[trigger] q@[b]) by {
                    if b < j {
                        assert(q@[a] == o[a] && q@[b] == o[b]);
                    } else if b == j {
                        assert(q@[a] == o[a]);
                    } else if a < j {
                        assert(q@[a] == o[a] && q@[b] == o[b - 1]);
                    } else if a == j {
                        assert(q@[b] == o[b - 1]);
                    } else {
                        assert(q@[a] == o[a - 1] && q@[b] == o[b - 1]);
                    }
                }
                vstd::seq_lib::to_multiset_insert(o, j as int, k);
                let f = rows@.take(i as int).filter(pred);
                assert(f.push(rows@[i as int]).map_values(|r: doc::Page| (r.order.0, row_id(r))) =~= f.map_values(|r: doc::Page| (r.order.0, row_id(r))).push(k));
                vstd::seq_lib::to_multiset_build(f.map_values(|r: doc::Page| (r.order.0, row_id(r))), k);
            }
        }
        i = i + 1;
    }
    assert(rows@.take(rows@.len() as int) =~= rows@);
    let mut ids: Vec<i32> = Vec::new();
    let mut t: usize = 0;
    while t < q.len()
        invariant
            t <= q@.len(),
            ids@ == q@.map_values(|p: (u64, i32)| p.1).take(t as int),
        decreases q@.len() - t,
    {
        ids.push(q[t].1);
        t = t + 1;
        assert(ids@ =~= q@.map_values(|p: (u64, i32)| p.1).take(t as int));
    }
    assert(q@.map_values(|p: (u64, i32)| p.1).take(q@.len() as int) =~= q@.map_values(|p: (u64, i32)| p.1));
    ids
}

proof fn lemma_rows_map_ids(rows: Seq<doc::Page>, k: i32)
    requires
        forall|i: int| 0 <= i < rows.len() ==> (#[trigger] rows[i]).id.0 < i32::MAX as u64,
    ensures
        rows_map(rows).contains_key(k) <==> exists|i: int| 0 <= i < rows.len() && row_id(rows[i]) == k,
        rows_map(rows).contains_key(k) ==> rows_map(rows)[k].id == k,
        rows_map(rows).contains_key(k) ==> 0 <= k <= max_row_id(rows),
        max_row_id(rows) >= 0,
    decreases rows.len(),
{
    if rows.len() > 0 {
        assert forall|i: int| 0 <= i < rows.drop_last().len() implies (#[trigger] rows.drop_last()[i]).id.0 < i32::MAX as u64 by {
            assert(rows.drop_last()[i] == rows[i]);
        }
        lemma_rows_map_ids(rows.drop_last(), k);
        if exists|i: int| 0 <= i < rows.len() && row_id(rows[i]) == k {
            let i = choose|i: int| 0 <= i < rows.len() && row_id(rows[i]) == k;
            if i < rows.len() - 1 {
                assert(rows.drop_last()[i] == rows[i]);
            }
        }
        if rows_map(rows.drop_last()).contains_key(k) {
            let i = choose|i: int| 0 <= i < rows.drop_last().len() && row_id(rows.drop_last()[i]) == k;
            assert(rows[i] == rows.drop_last()[i]);
        }
    }
}

impl Workspace {
    /// Insert a page row that arrived with its id already decided. A page
    /// with that id is replaced; a non-template page is appended to its
    /// parent's children (or the roots). Returns the id it was given.
    pub fn insert_persisted(&mut self, p: doc::Page) -> (id: i32)
        requires
            old(self).wf(),
            p.id.0 < i32::MAX as u64,
            !p.template && p.parent is Some ==> (p.parent->0).0 <= i32::MAX as u64 && (old(self)@.has(
                (p.parent->0).0 as i32,
            ) || (p.parent->0).0 == p.id.0),
        ensures
            final(self).wf(),
            id == row_id(p),
            final(self)@ == old(self)@.persisted(p),
    {
        let id = p.id.0 as i32;
        if self.next_id < id + 1 {
            self.next_id = id + 1;
        }
        let parent: Option<i32> = match p.parent {
            Some(v) => Some(v.0 as i32),
            None => None,
        };
        let children: Vec<i32> = Vec::new();
        let node = Page {
            id,
            title: p.title,
            parent,
            children,
            favorite: p.favorite,
            expanded: p.expanded,
            font: p.font,
            full_width: p.full_width,
            small_text: p.small_text,
            icon: p.icon,
            cover: p.cover,
            locked: p.locked,
            template: p.template,
            search_text: String::new(),
        };
        assert(node@ == persisted_page(p));
        match self.find(id) {
            Some(i) => self.set_page_at(i, node),
            None => self.push_page(node),
        }
        if !p.template {
            self.attach(id, parent, None);
        }
        id
    }

    /// Rebuild the workspace from stored page rows. Sibling order comes from
    /// the stored order keys (ties by id); a template is kept but attached
    /// nowhere; a later row with an id already seen replaces the earlier
    /// page; recents start empty.
    pub fn from_persisted(pages: &[doc::Page]) -> (r: Workspace)
        requires
            forall|i: int| 0 <= i < pages@.len() ==> (#[trigger] pages@[i]).id.0 < i32::MAX as u64,
        ensures
            r.wf(),
            r@.next_id == max_row_id(pages@) + 1,
            r@.recents == Seq::<i32>::empty(),
            r@.pages.dom() == rows_map(pages@).dom(),
            forall|k: i32| #[trigger] r@.has(k) ==> r@.pages[k] == (PageView { children: r@.pages[k].children, ..rows_map(pages@)[k] })
                && sorted_kids(r@.pages[k].children, kid_pairs(pages@, Some(k))),
            sorted_kids(r@.roots, kid_pairs(pages@, None)),
    {
        let mut max_id: i32 = 0;
        let mut i: usize = 0;
        while i < pages.len()
            invariant
                i <= pages@.len(),
                forall|t: int| 0 <= t < pages@.len() ==> (#[trigger] pages@[t]).id.0 < i32::MAX as u64,
                max_id as int == max_row_id(pages@.take(i as int)),
                0 <= max_id < i32::MAX,
            decreases pages@.len() - i,
        {
            assert(pages@.take(i + 1).drop_last() =~= pages@.take(i as int));
            let id = pages[i].id.0 as i32;
            if id > max_id {
                max_id = id;
            }
            i = i + 1;
        }
        assert(pages@.take(pages@.len() as int) =~= pages@);
        let mut ws = Workspace::empty(max_id + 1);
        let mut i: usize = 0;
        while i < pages.len()
            invariant
                i <= pages@.len(),
                forall|t: int| 0 <= t < pages@.len() ==> (#[trigger] pages@[t]).id.0 < i32::MAX as u64,
                max_id as int == max_row_id(pages@),
                0 <= max_id < i32::MAX,
                ws.wf(),
                ws@.next_id == max_id + 1,
                ws@.pages == rows_map(pages@.take(i as int)),
                ws@.roots == Seq::<i32>::empty(),
                ws@.recents == Seq::<i32>::empty(),
            decreases pages@.len() - i,
        {
            let row = &pages[i];
            let id = row.id.0 as i32;
            proof {
                assert(pages@.take(i + 1).drop_last() =~= pages@.take(i as int));
                lemma_rows_map_ids(pages@, id);
                assert(rows_map(pages@).contains_key(id)) by {
                    assert(row_id(pages@[i as int]) == id);
                }
            }
            let children: Vec<i32> = Vec::new();
            let node = Page {
                id,
                title: row.title.clone(),
                parent: match row.parent {
                    Some(v) => Some(v.0 as i32),
                    None => None,
                },
                children,
                favorite: row.favorite,
                expanded: row.expanded,
                font: row.font,
                full_width: row.full_width,
                small_text: row.small_text,
                icon: row.icon.clone(),
                cover: row.cover,
                locked: row.locked,
                template: row.template,
                search_text: String::new(),
            };
            assert(node@ == persisted_page(pages@[i as int]));
            match ws.find(id) {
                Some(j) => ws.set_page_at(j, node),
                None => ws.push_page(node),
            }
            i = i + 1;
        }
        assert(pages@.take(pages@.len() as int) =~= pages@);
        let n = ws.pages.len();
        let mut j: usize = 0;
        while j < n
            invariant
                n == ws.pages@.len(),
                j <= n,
                ws.wf(),
                ws@.next_id == max_id + 1,
                ws@.pages.dom() == rows_map(pages@).dom(),
                ws@.roots == Seq::<i32>::empty(),
                ws@.recents == Seq::<i32>::empty(),
                forall|k: i32| #[trigger] ws@.has(k) ==> ws@.pages[k] == (PageView { children: ws@.pages[k].children, ..rows_map(pages@)[k] }),
                forall|t: int| 0 <= t < j ==> sorted_kids(ws@.pages[(#[trigger] ws.pages@[t]).id].children, kid_pairs(pages@, Some(ws.pages@[t].id))),
            decreases n - j,
        {
            let ghost before = ws.pages@;
            let id = ws.pages[j].id;
            let kids = sort_kids(pages, Some(id));
            let mut p = ws.pages[j].copied();
            proof {
                lemma_arena_at(ws.pages@, j as int);
            }
            p.children = kids;
            let ghost vb = ws@;
            ws.set_page_at(j, p);
            proof {
                assert forall|k: i32| #[trigger] ws@.has(k) implies ws@.pages[k] == (PageView { children: ws@.pages[k].children, ..rows_map(pages@)[k] }) by {
                    assert(vb.has(k));
                    if k != id {
                        assert(ws@.pages[k] == vb.pages[k]);
                    }
                }
                assert forall|t: int| 0 <= t < j + 1 implies sorted_kids(ws@.pages[(#[trigger] ws.pages@[t]).id].children, kid_pairs(pages@, Some(ws.pages@[t].id))) by {
                    assert(ws.pages@[t].id == before[t].id) by {
                        lemma_arena_at(ws.pages@, t);
                    }
                    if t < j {
                        assert(before[t].id != id) by {
                            assert(before[j as int].id == id);
                        }
                    }
                }
            }
            j = j + 1;
        }
        proof {
            assert forall|k: i32| #[trigger] ws@.has(k) implies sorted_kids(ws@.pages[k].children, kid_pairs(pages@, Some(k))) by {
                lemma_arena_dom(ws.pages@, k);
                let t = choose|t: int| 0 <= t < ws.pages@.len() && ws.pages@[t].id == k;
                assert(sorted_kids(ws@.pages[ws.pages@[t].id].children, kid_pairs(pages@, Some(ws.pages@[t].id))));
            }
        }
        let roots = sort_kids(pages, None);
        let ghost v1 = ws@;
        ws.roots = roots;
        proof {
            assert(ws@.pages == v1.pages);
            assert forall|k: i32| #[trigger] ws@.has(k) implies ws@.pages[k] == (PageView { children: ws@.pages[k].children, ..rows_map(pages@)[k] })
                && sorted_kids(ws@.pages[k].children, kid_pairs(pages@, Some(k))) by {
                assert(v1.has(k));
            }
        }
        ws
    }
}

/// The titles of the sample tree.
pub open spec fn sample_title(k: i32) -> Seq<char> {
    if k == 100 {
        "Weekly Review"@
    } else if k == 101 {
        "Design Ideas"@
    } else if k == 102 {
        "Getting Started"@
    } else if k == 103 {
        "Keyboard Shortcuts"@
    } else if k == 104 {
        "Import from Markdown"@
    } else if k == 105 {
        "Project Atlas"@
    } else if k == 106 {
        "Research Notes"@
    } else if k == 107 {
        "Sources"@
    } else if k == 108 {
        "Meeting Notes"@
    } else if k == 109 {
        "Architecture"@
    } else if k == 110 {
        "Reading List"@
    } else if k == 111 {
        "Papers to Read"@
    } else if k == 112 {
        "写作与中文测试"@
    } else {
        "Scratchpad"@
    }
}

pub open spec fn sample_parent(k: i32) -> Option<i32> {
    if k == 103 || k == 104 {
        Some(102)
    } else if k == 106 || k == 108 || k == 109 {
        Some(105)
    } else if k == 107 {
        Some(106)
    } else if k == 111 {
        Some(110)
    } else {
        None
    }
}

pub open spec fn sample_children(k: i32) -> Seq<i32> {
    if k == 102 {
        seq![103i32, 104]
    } else if k == 105 {
        seq![106i32, 108, 109]
    } else if k == 106 {
        seq![107i32]
    } else if k == 110 {
        seq![111i32]
    } else {
        Seq::empty()
    }
}

/// A page of the sample tree: two favorites, three expanded pages.
pub open spec fn sample_page(k: i32) -> PageView {
    PageView {
        parent: sample_parent(k),
        children: sample_children(k),
        favorite: k == 100 || k == 101,
        expanded: k == 102 || k == 105 || k == 106,
        ..blank_page(k, sample_title(k))
    }
}

/// The view holds exactly the pages `100 .. n`, page `k` being `f(k)`.
pub open spec fn described(v: WorkspaceView, n: int, f: spec_fn(i32) -> PageView, roots: Seq<i32>) -> bool {
    &&& v.next_id == n
    &&& forall|k: i32| #[trigger] v.has(k) <==> 100 <= k < n
    &&& forall|k: i32| 100 <= k < n ==> #[trigger] v.pages[k] == f(k)
    &&& v.roots == roots
}

pub open spec fn with_root(f: spec_fn(i32) -> PageView, n: i32, title: Seq<char>) -> spec_fn(i32) -> PageView {
    |k: i32| if k == n { blank_page(n, title) } else { f(k) }
}

pub open spec fn with_child(f: spec_fn(i32) -> PageView, n: i32, p: i32, title: Seq<char>) -> spec_fn(i32) -> PageView {
    |k: i32|
        if k == n {
            PageView { parent: Some(p), ..blank_page(n, title) }
        } else if k == p {
            PageView { expanded: true, children: f(p).children.push(n), ..f(p) }
        } else {
            f(k)
        }
}

proof fn lemma_create_root(v: WorkspaceView, n: i32, f: spec_fn(i32) -> PageView, roots: Seq<i32>, title: Seq<char>)
    requires
        described(v, n as int, f, roots),
        100 <= n,
    ensures
        described(v.with_new_page(title).expanded_at(None).attached(n, None, None), n + 1, with_root(f, n, title), roots.push(n)),
{
    let w = v.with_new_page(title).expanded_at(None).attached(n, None, None);
    assert(w.roots =~= roots.push(n));
    assert forall|k: i32| #[trigger] w.has(k) <==> 100 <= k < n + 1 by {
        assert(v.has(k) <==> 100 <= k < n);
    }
    assert forall|k: i32| 100 <= k < n + 1 implies #[trigger] w.pages[k] == with_root(f, n, title)(k) by {}
}

proof fn lemma_create_child(v: WorkspaceView, n: i32, f: spec_fn(i32) -> PageView, roots: Seq<i32>, p: i32, title: Seq<char>)
    requires
        described(v, n as int, f, roots),
        100 <= p < n,
    ensures
        described(v.with_new_page(title).expanded_at(Some(p)).attached(n, Some(p), None), n + 1, with_child(f, n, p, title), roots),
{
    let w = v.with_new_page(title).expanded_at(Some(p)).attached(n, Some(p), None);
    assert(v.has(p));
    assert forall|k: i32| #[trigger] w.has(k) <==> 100 <= k < n + 1 by {
        assert(v.has(k) <==> 100 <= k < n);
    }
    assert forall|k: i32| 100 <= k < n + 1 implies #[trigger] w.pages[k] == with_child(f, n, p, title)(k) by {
        if k == p {
            assert(w.pages[k].children =~= f(p).children.push(n));
        }
    }
}

/// The sample tree before its stars, folds and recents: every page with
/// children expanded.
pub open spec fn sample_base(k: i32) -> PageView {
    PageView {
        parent: sample_parent(k),
        children: sample_children(k),
        expanded: k == 102 || k == 105 || k == 106 || k == 110,
        ..blank_page(k, sample_title(k))
    }
}

impl Workspace {
    #[verifier::rlimit(60)]
    fn sample_tree() -> (r: Workspace)
        ensures
            r.wf(),
            described(r@, 114, |k: i32| sample_base(k), seq![100i32, 101, 102, 105, 110, 112, 113]),
            r@.recents == Seq::<i32>::empty(),
    {
        let mut ws = Workspace::empty(100);
        let ghost mut f: spec_fn(i32) -> PageView = |k: i32| blank_page(k, Seq::<char>::empty());
        let ghost mut roots = Seq::<i32>::empty();
        assert(described(ws@, 100, f, roots));
        let ghost v0 = ws@;
        ws.create(None, "Weekly Review");
        proof {
            lemma_create_root(v0, 100, f, roots, "Weekly Review"@);
            f = with_root(f, 100, "Weekly Review"@);
            roots = roots.push(100);
        }
        assert(described(ws@, 101, f, roots));
        let ghost v0 = ws@;
        ws.create(None, "Design Ideas");
        proof {
            lemma_create_root(v0, 101, f, roots, "Design Ideas"@);
            f = with_root(f, 101, "Design Ideas"@);
            roots = roots.push(101);
        }
        assert(described(ws@, 102, f, roots));
        let ghost v0 = ws@;
        ws.create(None, "Getting Started");
        proof {
            lemma_create_root(v0, 102, f, roots, "Getting Started"@);
            f = with_root(f, 102, "Getting Started"@);
            roots = roots.push(102);
        }
        assert(described(ws@, 103, f, roots));
        let ghost v0 = ws@;
        ws.create(Some(102), "Keyboard Shortcuts");
        proof {
            lemma_create_child(v0, 103, f, roots, 102, "Keyboard Shortcuts"@);
            f = with_child(f, 103, 102, "Keyboard Shortcuts"@);
        }
        assert(described(ws@, 104, f, roots));
        let ghost v0 = ws@;
        ws.create(Some(102), "Import from Markdown");
        proof {
            lemma_create_child(v0, 104, f, roots, 102, "Import from Markdown"@);
            f = with_child(f, 104, 102, "Import from Markdown"@);
        }
        assert(described(ws@, 105, f, roots));
        let ghost v0 = ws@;
        ws.create(None, "Project Atlas");
        proof {
            lemma_create_root(v0, 105, f, roots, "Project Atlas"@);
            f = with_root(f, 105, "Project Atlas"@);
            roots = roots.push(105);
        }
        assert(described(ws@, 106, f, roots));
        let ghost v0 = ws@;
        ws.create(Some(105), "Research Notes");
        proof {
            lemma_create_child(v0, 106, f, roots, 105, "Research Notes"@);
            f = with_child(f, 106, 105, "Research Notes"@);
        }
        assert(described(ws@, 107, f, roots));
        let ghost v0 = ws@;
        ws.create(Some(106), "Sources");
        proof {
            lemma_create_child(v0, 107, f, roots, 106, "Sources"@);
            f = with_child(f, 107, 106, "Sources"@);
        }
        assert(described(ws@, 108, f, roots));
        let ghost v0 = ws@;
        ws.create(Some(105), "Meeting Notes");
        proof {
            lemma_create_child(v0, 108, f, roots, 105, "Meeting Notes"@);
            f = with_child(f, 108, 105, "Meeting Notes"@);
        }
        assert(described(ws@, 109, f, roots));
        let ghost v0 = ws@;
        ws.create(Some(105), "Architecture");
        proof {
            lemma_create_child(v0, 109, f, roots, 105, "Architecture"@);
            f = with_child(f, 109, 105, "Architecture"@);
        }
        assert(described(ws@, 110, f, roots));
        let ghost v0 = ws@;
        ws.create(None, "Reading List");
        proof {
            lemma_create_root(v0, 110, f, roots, "Reading List"@);
            f = with_root(f, 110, "Reading List"@);
            roots = roots.push(110);
        }
        assert(described(ws@, 111, f, roots));
        let ghost v0 = ws@;
        ws.create(Some(110), "Papers to Read");
        proof {
            lemma_create_child(v0, 111, f, roots, 110, "Papers to Read"@);
            f = with_child(f, 111, 110, "Papers to Read"@);
        }
        assert(described(ws@, 112, f, roots));
        let ghost v0 = ws@;
        ws.create(None, "写作与中文测试");
        proof {
            lemma_create_root(v0, 112, f, roots, "写作与中文测试"@);
            f = with_root(f, 112, "写作与中文测试"@);
            roots = roots.push(112);
        }
        assert(described(ws@, 113, f, roots));
        let ghost v0 = ws@;
        ws.create(None, "Scratchpad");
        proof {
            lemma_create_root(v0, 113, f, roots, "Scratchpad"@);
            f = with_root(f, 113, "Scratchpad"@);
            roots = roots.push(113);
        }
        assert(described(ws@, 114, f, roots));
        proof {
            assert(roots =~= seq![100i32, 101, 102, 105, 110, 112, 113]);
            assert forall|k: i32| 100 <= k < 114 implies #[trigger] ws@.pages[k] == sample_base(k) by {
                assert(ws@.pages[k] == f(k));
                assert(f(k).children =~= sample_children(k));
            }
        }
        ws
    }

    /// The sample tree: pages 100 to 113 under seven roots, two favorites,
    /// two recent pages. Ids are stable so tests and scenes can refer to
    /// them.
    pub fn sample() -> (r: Workspace)
        ensures
            r.wf(),
            r@.next_id == 114,
            forall|k: i32| #[trigger] r@.has(k) <==> 100 <= k < 114,
            forall|k: i32| 100 <= k < 114 ==> #[trigger] r@.pages[k] == sample_page(k),
            r@.roots == seq![100i32, 101, 102, 105, 110, 112, 113],
            r@.recents == seq![105i32, 108],
    {
        let mut ws = Workspace::sample_tree();
        let ghost vb = ws@;
        assert(vb.has(100) && vb.has(101) && vb.has(102) && vb.has(105) && vb.has(108) && vb.has(110));
        ws.toggle_favorite(100);
        ws.toggle_favorite(101);
        ws.set_expanded(110, false);
        ws.set_expanded(102, true);
        ws.set_expanded(105, true);
        let ghost vc = ws@;
        assert(vc.has(108) && vc.has(105));
        ws.mark_opened(108);
        ws.mark_opened(105);
        proof {
            assert(vc.recents =~= Seq::<i32>::empty());
            assert(without(Seq::<i32>::empty(), 108) =~= Seq::<i32>::empty()) by {
                reveal(Seq::filter);
            }
            assert(without(seq![108i32], 105) =~= seq![108i32]) by {
                reveal(Seq::filter);
                assert(seq![108i32].drop_last() =~= Seq::<i32>::empty());
            }
            assert(ws@.recents =~= seq![105i32, 108]);
            assert forall|k: i32| #[trigger] ws@.has(k) <==> 100 <= k < 114 by {
                assert(vb.has(k) <==> 100 <= k < 114);
            }
            assert forall|k: i32| 100 <= k < 114 implies #[trigger] ws@.pages[k] == sample_page(k) by {
                assert(vb.pages[k] == sample_base(k));
            }
        }
        ws
    }
}

/// The title of the `i`-th benchmark page: "Bench " and `i` in at least
/// three digits.
pub open spec fn bench_title(i: int) -> Seq<char> {
    "Bench "@ + text::zero_pad3(text::decimal(i as nat))
}

impl Workspace {
    /// The sample tree plus `n` flat benchmark pages appended to the roots,
    /// the `i`-th titled `bench_title(i)`.
    pub fn with_bench_pages(n: usize) -> (r: Workspace)
        requires
            n < i32::MAX - 114,
        ensures
            r.wf(),
            r@.next_id == 114 + n,
            forall|k: i32| #[trigger] r@.has(k) <==> 100 <= k < 114 + n,
            forall|k: i32| 100 <= k < 114 ==> #[trigger] r@.pages[k] == sample_page(k),
            forall|k: i32| 114 <= k < 114 + n ==> #[trigger] r@.pages[k] == blank_page(k, bench_title(k - 114)),
            r@.roots == seq![100i32, 101, 102, 105, 110, 112, 113] + Seq::new(n as nat, |i: int| (114 + i) as i32),
            r@.recents == seq![105i32, 108],
    {
        let mut ws = Workspace::sample();
        let mut i: usize = 0;
        while i < n
            invariant
                n < i32::MAX - 114,
                i <= n,
                ws.wf(),
                ws@.next_id == 114 + i,
                forall|k: i32| #[trigger] ws@.has(k) <==> 100 <= k < 114 + i,
                forall|k: i32| 100 <= k < 114 ==> #[trigger] ws@.pages[k] == sample_page(k),
                forall|k: i32| 114 <= k < 114 + i ==> #[trigger] ws@.pages[k] == blank_page(k, bench_title(k - 114)),
                ws@.roots == seq![100i32, 101, 102, 105, 110, 112, 113] + Seq::new(i as nat, |j: int| (114 + j) as i32),
                ws@.recents == seq![105i32, 108],
            decreases n - i,
        {
            let mut title = String::from_str("Bench ");
            let num = text::padded3(i as u64);
            title.append(num.as_str());
            let ghost v0 = ws@;
            let id = ws.create(None, title.as_str());
            proof {
                assert forall|k: i32| #[trigger] ws@.has(k) <==> 100 <= k < 114 + i + 1 by {
                    assert(v0.has(k) <==> 100 <= k < 114 + i);
                }
                assert(ws@.roots =~= seq![100i32, 101, 102, 105, 110, 112, 113] + Seq::new((i + 1) as nat, |j: int| (114 + j) as i32));
            }
            i = i + 1;
        }
        ws
    }
}

} // verus!
