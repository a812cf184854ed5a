//! The document model the workspace and the sync rows speak: page, block and
//! database rows, their ids, and the closed vocabularies (fonts, block kinds,
//! colours, ...) with the spellings they are stored under.

use vstd::prelude::*;

use crate::text::str_eq;

verus! {

broadcast use vstd::string::group_string_axioms;

/// A page's id.
#[derive(Clone, Copy, Debug, PartialEq, Eq, Structural)]
pub struct PageId(pub u64);

/// A block's id.
#[derive(Clone, Copy, Debug, PartialEq, Eq, Structural)]
pub struct BlockId(pub u64);

/// An attachment's id.
#[derive(Clone, Copy, Debug, PartialEq, Eq, Structural)]
pub struct AttachmentId(pub u64);

impl AttachmentId {
    pub fn as_u64(&self) -> (r: u64)
        ensures
            r == self.0,
    {
        self.0
    }
}

/// A sibling-order key: rows under one parent are listed by ascending key.
#[derive(Clone, Copy, Debug, PartialEq, Eq, Structural)]
pub struct OrderKey(pub u64);

/// A database's id.
#[derive(Clone, Copy, Debug, PartialEq, Eq, Structural)]
pub struct DatabaseId(pub u64);

/// A database column's id.
#[derive(Clone, Copy, Debug, PartialEq, Eq, Structural)]
pub struct PropertyId(pub u64);

/// A database record's id.
#[derive(Clone, Copy, Debug, PartialEq, Eq, Structural)]
pub struct RecordId(pub u64);

/// A database view's id.
#[derive(Clone, Copy, Debug, PartialEq, Eq, Structural)]
pub struct ViewId(pub u64);

/// The page's typeface.
#[derive(Clone, Copy, Debug, PartialEq, Eq, Structural)]
pub enum PageFont {
    Default,
    Serif,
    Mono,
}

impl PageFont {
    /// The stored spelling of each variant.
    pub open spec fn spec_name(self) -> Seq<char> {
        match self {
            PageFont::Default => "default"@,
            PageFont::Serif => "serif"@,
            PageFont::Mono => "mono"@,
        }
    }

    /// The variant a stored spelling names, if any.
    pub open spec fn spec_from_name(s: Seq<char>) -> Option<PageFont> {
        if s == "default"@ {
            Some(PageFont::Default)
        } else if s == "serif"@ {
            Some(PageFont::Serif)
        } else if s == "mono"@ {
            Some(PageFont::Mono)
        } else {
            None
        }
    }

    pub fn as_str(&self) -> (r: &'static str)
        ensures
            r@ == self.spec_name(),
    {
        match self {
            PageFont::Default => "default",
            PageFont::Serif => "serif",
            PageFont::Mono => "mono",
        }
    }

    pub fn try_from_str(s: &str) -> (r: Option<PageFont>)
        ensures
            r == Self::spec_from_name(s@),
    {
        if str_eq(s, "default") {
            Some(PageFont::Default)
        } else if str_eq(s, "serif") {
            Some(PageFont::Serif)
        } else if str_eq(s, "mono") {
            Some(PageFont::Mono)
        } else {
            None
        }
    }

    /// Reading back a variant's own spelling gives the variant.
    pub proof fn lemma_name_round_trip(self)
        ensures
            Self::spec_from_name(self.spec_name()) == Some(self),
    {
        match self {
            PageFont::Default => {
                reveal_strlit("default");
            },
            PageFont::Serif => {
                reveal_strlit("serif");
                reveal_strlit("default");
                assert("serif"@.len() != "default"@.len());
            },
            PageFont::Mono => {
                reveal_strlit("mono");
                reveal_strlit("default");
                assert("mono"@.len() != "default"@.len());
                reveal_strlit("serif");
                assert("mono"@.len() != "serif"@.len());
            },
        }
    }
}

/// What a block is.
#[derive(Clone, Copy, Debug, PartialEq, Eq, Structural)]
pub enum BlockKind {
    Paragraph,
    Heading1,
    Heading2,
    Heading3,
    Bullet,
    Numbered,
    Todo,
    Toggle,
    Quote,
    Callout,
    Divider,
    Code,
    Math,
    Image,
    File,
    Embed,
    Link,
    Page,
    Synced,
    Table,
    TableCell,
    Columns,
    Column,
    Database,
    Toc,
}

impl BlockKind {
    /// The stored spelling of each variant.
    pub open spec fn spec_name(self) -> Seq<char> {
        match self {
            BlockKind::Paragraph => "paragraph"@,
            BlockKind::Heading1 => "heading1"@,
            BlockKind::Heading2 => "heading2"@,
            BlockKind::Heading3 => "heading3"@,
            BlockKind::Bullet => "bullet"@,
            BlockKind::Numbered => "numbered"@,
            BlockKind::Todo => "todo"@,
            BlockKind::Toggle => "toggle"@,
            BlockKind::Quote => "quote"@,
            BlockKind::Callout => "callout"@,
            BlockKind::Divider => "divider"@,
            BlockKind::Code => "code"@,
            BlockKind::Math => "math"@,
            BlockKind::Image => "image"@,
            BlockKind::File => "file"@,
            BlockKind::Embed => "embed"@,
            BlockKind::Link => "link"@,
            BlockKind::Page => "page"@,
            BlockKind::Synced => "synced"@,
            BlockKind::Table => "table"@,
            BlockKind::TableCell => "table_cell"@,
            BlockKind::Columns => "columns"@,
            BlockKind::Column => "column"@,
            BlockKind::Database => "database"@,
            BlockKind::Toc => "toc"@,
        }
    }

    /// The variant a stored spelling names, if any.
    pub open spec fn spec_from_name(s: Seq<char>) -> Option<BlockKind> {
        if s == "paragraph"@ {
            Some(BlockKind::Paragraph)
        } else if s == "heading1"@ {
            Some(BlockKind::Heading1)
        } else if s == "heading2"@ {
            Some(BlockKind::Heading2)
        } else if s == "heading3"@ {
            Some(BlockKind::Heading3)
        } else if s == "bullet"@ {
            Some(BlockKind::Bullet)
        } else if s == "numbered"@ {
            Some(BlockKind::Numbered)
        } else if s == "todo"@ {
            Some(BlockKind::Todo)
        } else if s == "toggle"@ {
            Some(BlockKind::Toggle)
        } else if s == "quote"@ {
            Some(BlockKind::Quote)
        } else if s == "callout"@ {
            Some(BlockKind::Callout)
        } else if s == "divider"@ {
            Some(BlockKind::Divider)
        } else if s == "code"@ {
            Some(BlockKind::Code)
        } else if s == "math"@ {
            Some(BlockKind::Math)
        } else if s == "image"@ {
            Some(BlockKind::Image)
        } else if s == "file"@ {
            Some(BlockKind::File)
        } else if s == "embed"@ {
            Some(BlockKind::Embed)
        } else if s == "link"@ {
            Some(BlockKind::Link)
        } else if s == "page"@ {
            Some(BlockKind::Page)
        } else if s == "synced"@ {
            Some(BlockKind::Synced)
        } else if s == "table"@ {
            Some(BlockKind::Table)
        } else if s == "table_cell"@ {
            Some(BlockKind::TableCell)
        } else if s == "columns"@ {
            Some(BlockKind::Columns)
        } else if s == "column"@ {
            Some(BlockKind::Column)
        } else if s == "database"@ {
            Some(BlockKind::Database)
        } else if s == "toc"@ {
            Some(BlockKind::Toc)
        } else {
            None
        }
    }

    pub fn as_str(&self) -> (r: &'static str)
        ensures
            r@ == self.spec_name(),
    {
        match self {
            BlockKind::Paragraph => "paragraph",
            BlockKind::Heading1 => "heading1",
            BlockKind::Heading2 => "heading2",
            BlockKind::Heading3 => "heading3",
            BlockKind::Bullet => "bullet",
            BlockKind::Numbered => "numbered",
            BlockKind::Todo => "todo",
            BlockKind::Toggle => "toggle",
            BlockKind::Quote => "quote",
            BlockKind::Callout => "callout",
            BlockKind::Divider => "divider",
            BlockKind::Code => "code",
            BlockKind::Math => "math",
            BlockKind::Image => "image",
            BlockKind::File => "file",
            BlockKind::Embed => "embed",
            BlockKind::Link => "link",
            BlockKind::Page => "page",
            BlockKind::Synced => "synced",
            BlockKind::Table => "table",
            BlockKind::TableCell => "table_cell",
            BlockKind::Columns => "columns",
            BlockKind::Column => "column",
            BlockKind::Database => "database",
            BlockKind::Toc => "toc",
        }
    }

    pub fn try_from_str(s: &str) -> (r: Option<BlockKind>)
        ensures
            r == Self::spec_from_name(s@),
    {
        if str_eq(s, "paragraph") {
            Some(BlockKind::Paragraph)
        } else if str_eq(s, "heading1") {
            Some(BlockKind::Heading1)
        } else if str_eq(s, "heading2") {
            Some(BlockKind::Heading2)
        } else if str_eq(s, "heading3") {
            Some(BlockKind::Heading3)
        } else if str_eq(s, "bullet") {
            Some(BlockKind::Bullet)
        } else if str_eq(s, "numbered") {
            Some(BlockKind::Numbered)
        } else if str_eq(s, "todo") {
            Some(BlockKind::Todo)
        } else if str_eq(s, "toggle") {
            Some(BlockKind::Toggle)
        } else if str_eq(s, "quote") {
            Some(BlockKind::Quote)
        } else if str_eq(s, "callout") {
            Some(BlockKind::Callout)
        } else if str_eq(s, "divider") {
            Some(BlockKind::Divider)
        } else if str_eq(s, "code") {
            Some(BlockKind::Code)
        } else if str_eq(s, "math") {
            Some(BlockKind::Math)
        } else if str_eq(s, "image") {
            Some(BlockKind::Image)
        } else if str_eq(s, "file") {
            Some(BlockKind::File)
        } else if str_eq(s, "embed") {
            Some(BlockKind::Embed)
        } else if str_eq(s, "link") {
            Some(BlockKind::Link)
        } else if str_eq(s, "page") {
            Some(BlockKind::Page)
        } else if str_eq(s, "synced") {
            Some(BlockKind::Synced)
        } else if str_eq(s, "table") {
            Some(BlockKind::Table)
        } else if str_eq(s, "table_cell") {
            Some(BlockKind::TableCell)
        } else if str_eq(s, "columns") {
            Some(BlockKind::Columns)
        } else if str_eq(s, "column") {
            Some(BlockKind::Column)
        } else if str_eq(s, "database") {
            Some(BlockKind::Database)
        } else if str_eq(s, "toc") {
            Some(BlockKind::Toc)
        } else {
            None
        }
    }

    /// Reading back a variant's own spelling gives the variant.
    pub proof fn lemma_name_round_trip(self)
        ensures
            Self::spec_from_name(self.spec_name()) == Some(self),
    {
        match self {
            BlockKind::Paragraph => {
                reveal_strlit("paragraph");
            },
            BlockKind::Heading1 => {
                reveal_strlit("heading1");
                reveal_strlit("paragraph");
                assert("heading1"@.len() != "paragraph"@.len());
            },
            BlockKind::Heading2 => {
                reveal_strlit("heading2");
                reveal_strlit("paragraph");
                assert("heading2"@.len() != "paragraph"@.len());
                reveal_strlit("heading1");
                assert("heading2"@[7] != "heading1"@[7]);
            },
            BlockKind::Heading3 => {
                reveal_strlit("heading3");
                reveal_strlit("paragraph");
                assert("heading3"@.len() != "paragraph"@.len());
                reveal_strlit("heading1");
                assert("heading3"@[7] != "heading1"@[7]);
                reveal_strlit("heading2");
                assert("heading3"@[7] != "heading2"@[7]);
            },
            BlockKind::Bullet => {
                reveal_strlit("bullet");
                reveal_strlit("paragraph");
                assert("bullet"@.len() != "paragraph"@.len());
                reveal_strlit("heading1");
                assert("bullet"@.len() != "heading1"@.len());
                reveal_strlit("heading2");
                assert("bullet"@.len() != "heading2"@.len());
                reveal_strlit("heading3");
                assert("bullet"@.len() != "heading3"@.len());
            },
            BlockKind::Numbered => {
                reveal_strlit("numbered");
                reveal_strlit("paragraph");
                assert("numbered"@.len() != "paragraph"@.len());
                reveal_strlit("heading1");
                assert("numbered"@[0] != "heading1"@[0]);
                reveal_strlit("heading2");
                assert("numbered"@[0] != "heading2"@[0]);
                reveal_strlit("heading3");
                assert("numbered"@[0] != "heading3"@[0]);
                reveal_strlit("bullet");
                assert("numbered"@.len() != "bullet"@.len());
            },
            BlockKind::Todo => {
                reveal_strlit("todo");
                reveal_strlit("paragraph");
                assert("todo"@.len() != "paragraph"@.len());
                reveal_strlit("heading1");
                assert("todo"@.len() != "heading1"@.len());
                reveal_strlit("heading2");
                assert("todo"@.len() != "heading2"@.len());
                reveal_strlit("heading3");
                assert("todo"@.len() != "heading3"@.len());
                reveal_strlit("bullet");
                assert("todo"@.len() != "bullet"@.len());
                reveal_strlit("numbered");
                assert("todo"@.len() != "numbered"@.len());
            },
            BlockKind::Toggle => {
                reveal_strlit("toggle");
                reveal_strlit("paragraph");
                assert("toggle"@.len() != "paragraph"@.len());
                reveal_strlit("heading1");
                assert("toggle"@.len() != "heading1"@.len());
                reveal_strlit("heading2");
                assert("toggle"@.len() != "heading2"@.len());
                reveal_strlit("heading3");
                assert("toggle"@.len() != "heading3"@.len());
                reveal_strlit("bullet");
                assert("toggle"@[0] != "bullet"@[0]);
                reveal_strlit("numbered");
                assert("toggle"@.len() != "numbered"@.len());
                reveal_strlit("todo");
                assert("toggle"@.len() != "todo"@.len());
            },
            BlockKind::Quote => {
                reveal_strlit("quote");
                reveal_strlit("paragraph");
                assert("quote"@.len() != "paragraph"@.len());
                reveal_strlit("heading1");
                assert("quote"@.len() != "heading1"@.len());
                reveal_strlit("heading2");
                assert("quote"@.len() != "heading2"@.len());
                reveal_strlit("heading3");
                assert("quote"@.len() != "heading3"@.len());
                reveal_strlit("bullet");
                assert("quote"@.len() != "bullet"@.len());
                reveal_strlit("numbered");
                assert("quote"@.len() != "numbered"@.len());
                reveal_strlit("todo");
                assert("quote"@.len() != "todo"@.len());
                reveal_strlit("toggle");
                assert("quote"@.len() != "toggle"@.len());
            },
            BlockKind::Callout => {
                reveal_strlit("callout");
                reveal_strlit("paragraph");
                assert("callout"@.len() != "paragraph"@.len());
                reveal_strlit("heading1");
                assert("callout"@.len() != "heading1"@.len());
                reveal_strlit("heading2");
                assert("callout"@.len() != "heading2"@.len());
                reveal_strlit("heading3");
                assert("callout"@.len() != "heading3"@.len());
                reveal_strlit("bullet");
                assert("callout"@.len() != "bullet"@.len());
                reveal_strlit("numbered");
                assert("callout"@.len() != "numbered"@.len());
                reveal_strlit("todo");
                assert("callout"@.len() != "todo"@.len());
                reveal_strlit("toggle");
                assert("callout"@.len() != "toggle"@.len());
                reveal_strlit("quote");
                assert("callout"@.len() != "quote"@.len());
            },
            BlockKind::Divider => {
                reveal_strlit("divider");
                reveal_strlit("paragraph");
                assert("divider"@.len() != "paragraph"@.len());
                reveal_strlit("heading1");
                assert("divider"@.len() != "heading1"@.len());
                reveal_strlit("heading2");
                assert("divider"@.len() != "heading2"@.len());
                reveal_strlit("heading3");
                assert("divider"@.len() != "heading3"@.len());
                reveal_strlit("bullet");
                assert("divider"@.len() != "bullet"@.len());
                reveal_strlit("numbered");
                assert("divider"@.len() != "numbered"@.len());
                reveal_strlit("todo");
                assert("divider"@.len() != "todo"@.len());
                reveal_strlit("toggle");
                assert("divider"@.len() != "toggle"@.len());
                reveal_strlit("quote");
                assert("divider"@.len() != "quote"@.len());
                reveal_strlit("callout");
                assert("divider"@[0] != "callout"@[0]);
            },
            BlockKind::Code => {
                reveal_strlit("code");
                reveal_strlit("paragraph");
                assert("code"@.len() != "paragraph"@.len());
                reveal_strlit("heading1");
                assert("code"@.len() != "heading1"@.len());
                reveal_strlit("heading2");
                assert("code"@.len() != "heading2"@.len());
                reveal_strlit("heading3");
                assert("code"@.len() != "heading3"@.len());
                reveal_strlit("bullet");
                assert("code"@.len() != "bullet"@.len());
                reveal_strlit("numbered");
                assert("code"@.len() != "numbered"@.len());
                reveal_strlit("todo");
                assert("code"@[0] != "todo"@[0]);
                reveal_strlit("toggle");
                assert("code"@.len() != "toggle"@.len());
                reveal_strlit("quote");
                assert("code"@.len() != "quote"@.len());
                reveal_strlit("callout");
                assert("code"@.len() != "callout"@.len());
                reveal_strlit("divider");
                assert("code"@.len() != "divider"@.len());
            },
            BlockKind::Math => {
                reveal_strlit("math");
                reveal_strlit("paragraph");
                assert("math"@.len() != "paragraph"@.len());
                reveal_strlit("heading1");
                assert("math"@.len() != "heading1"@.len());
                reveal_strlit("heading2");
                assert("math"@.len() != "heading2"@.len());
                reveal_strlit("heading3");
                assert("math"@.len() != "heading3"@.len());
                reveal_strlit("bullet");
                assert("math"@.len() != "bullet"@.len());
                reveal_strlit("numbered");
                assert("math"@.len() != "numbered"@.len());
                reveal_strlit("todo");
                assert("math"@[0] != "todo"@[0]);
                reveal_strlit("toggle");
                assert("math"@.len() != "toggle"@.len());
                reveal_strlit("quote");
                assert("math"@.len() != "quote"@.len());
                reveal_strlit("callout");
                assert("math"@.len() != "callout"@.len());
                reveal_strlit("divider");
                assert("math"@.len() != "divider"@.len());
                reveal_strlit("code");
                assert("math"@[0] != "code"@[0]);
            },
            BlockKind::Image => {
                reveal_strlit("image");
                reveal_strlit("paragraph");
                assert("image"@.len() != "paragraph"@.len());
                reveal_strlit("heading1");
                assert("image"@.len() != "heading1"@.len());
                reveal_strlit("heading2");
                assert("image"@.len() != "heading2"@.len());
                reveal_strlit("heading3");
                assert("image"@.len() != "heading3"@.len());
                reveal_strlit("bullet");
                assert("image"@.len() != "bullet"@.len());
                reveal_strlit("numbered");
                assert("image"@.len() != "numbered"@.len());
                reveal_strlit("todo");
                assert("image"@.len() != "todo"@.len());
                reveal_strlit("toggle");
                assert("image"@.len() != "toggle"@.len());
                reveal_strlit("quote");
                assert("image"@[0] != "quote"@[0]);
                reveal_strlit("callout");
                assert("image"@.len() != "callout"@.len());
                reveal_strlit("divider");
                assert("image"@.len() != "divider"@.len());
                reveal_strlit("code");
                assert("image"@.len() != "code"@.len());
                reveal_strlit("math");
                assert("image"@.len() != "math"@.len());
            },
            BlockKind::File => {
                reveal_strlit("file");
                reveal_strlit("paragraph");
                assert("file"@.len() != "paragraph"@.len());
                reveal_strlit("heading1");
                assert("file"@.len() != "heading1"@.len());
                reveal_strlit("heading2");
                assert("file"@.len() != "heading2"@.len());
                reveal_strlit("heading3");
                assert("file"@.len() != "heading3"@.len());
                reveal_strlit("bullet");
                assert("file"@.len() != "bullet"@.len());
                reveal_strlit("numbered");
                assert("file"@.len() != "numbered"@.len());
                reveal_strlit("todo");
                assert("file"@[0] != "todo"@[0]);
                reveal_strlit("toggle");
                assert("file"@.len() != "toggle"@.len());
                reveal_strlit("quote");
                assert("file"@.len() != "quote"@.len());
                reveal_strlit("callout");
                assert("file"@.len() != "callout"@.len());
                reveal_strlit("divider");
                assert("file"@.len() != "divider"@.len());
                reveal_strlit("code");
                assert("file"@[0] != "code"@[0]);
                reveal_strlit("math");
                assert("file"@[0] != "math"@[0]);
                reveal_strlit("image");
                assert("file"@.len() != "image"@.len());
            },
            BlockKind::Embed => {
                reveal_strlit("embed");
                reveal_strlit("paragraph");
                assert("embed"@.len() != "paragraph"@.len());
                reveal_strlit("heading1");
                assert("embed"@.len() != "heading1"@.len());
                reveal_strlit("heading2");
                assert("embed"@.len() != "heading2"@.len());
                reveal_strlit("heading3");
                assert("embed"@.len() != "heading3"@.len());
                reveal_strlit("bullet");
                assert("embed"@.len() != "bullet"@.len());
                reveal_strlit("numbered");
                assert("embed"@.len() != "numbered"@.len());
                reveal_strlit("todo");
                assert("embed"@.len() != "todo"@.len());
                reveal_strlit("toggle");
                assert("embed"@.len() != "toggle"@.len());
                reveal_strlit("quote");
                assert("embed"@[0] != "quote"@[0]);
                reveal_strlit("callout");
                assert("embed"@.len() != "callout"@.len());
                reveal_strlit("divider");
                assert("embed"@.len() != "divider"@.len());
                reveal_strlit("code");
                assert("embed"@.len() != "code"@.len());
                reveal_strlit("math");
                assert("embed"@.len() != "math"@.len());
                reveal_strlit("image");
                assert("embed"@[0] != "image"@[0]);
                reveal_strlit("file");
                assert("embed"@.len() != "file"@.len());
            },
            BlockKind::Link => {
                reveal_strlit("link");
                reveal_strlit("paragraph");
                assert("link"@.len() != "paragraph"@.len());
                reveal_strlit("heading1");
                assert("link"@.len() != "heading1"@.len());
                reveal_strlit("heading2");
                assert("link"@.len() != "heading2"@.len());
                reveal_strlit("heading3");
                assert("link"@.len() != "heading3"@.len());
                reveal_strlit("bullet");
                assert("link"@.len() != "bullet"@.len());
                reveal_strlit("numbered");
                assert("link"@.len() != "numbered"@.len());
                reveal_strlit("todo");
                assert("link"@[0] != "todo"@[0]);
                reveal_strlit("toggle");
                assert("link"@.len() != "toggle"@.len());
                reveal_strlit("quote");
                assert("link"@.len() != "quote"@.len());
                reveal_strlit("callout");
                assert("link"@.len() != "callout"@.len());
                reveal_strlit("divider");
                assert("link"@.len() != "divider"@.len());
                reveal_strlit("code");
                assert("link"@[0] != "code"@[0]);
                reveal_strlit("math");
                assert("link"@[0] != "math"@[0]);
                reveal_strlit("image");
                assert("link"@.len() != "image"@.len());
                reveal_strlit("file");
                assert("link"@[0] != "file"@[0]);
                reveal_strlit("embed");
                assert("link"@.len() != "embed"@.len());
            },
            BlockKind::Page => {
                reveal_strlit("page");
                reveal_strlit("paragraph");
                assert("page"@.len() != "paragraph"@.len());
                reveal_strlit("heading1");
                assert("page"@.len() != "heading1"@.len());
                reveal_strlit("heading2");
                assert("page"@.len() != "heading2"@.len());
                reveal_strlit("heading3");
                assert("page"@.len() != "heading3"@.len());
                reveal_strlit("bullet");
                assert("page"@.len() != "bullet"@.len());
                reveal_strlit("numbered");
                assert("page"@.len() != "numbered"@.len());
                reveal_strlit("todo");
                assert("page"@[0] != "todo"@[0]);
                reveal_strlit("toggle");
                assert("page"@.len() != "toggle"@.len());
                reveal_strlit("quote");
                assert("page"@.len() != "quote"@.len());
                reveal_strlit("callout");
                assert("page"@.len() != "callout"@.len());
                reveal_strlit("divider");
                assert("page"@.len() != "divider"@.len());
                reveal_strlit("code");
                assert("page"@[0] != "code"@[0]);
                reveal_strlit("math");
                assert("page"@[0] != "math"@[0]);
                reveal_strlit("image");
                assert("page"@.len() != "image"@.len());
                reveal_strlit("file");
                assert("page"@[0] != "file"@[0]);
                reveal_strlit("embed");
                assert("page"@.len() != "embed"@.len());
                reveal_strlit("link");
                assert("page"@[0] != "link"@[0]);
            },
            BlockKind::Synced => {
                reveal_strlit("synced");
                reveal_strlit("paragraph");
                assert("synced"@.len() != "paragraph"@.len());
                reveal_strlit("heading1");
                assert("synced"@.len() != "heading1"@.len());
                reveal_strlit("heading2");
                assert("synced"@.len() != "heading2"@.len());
                reveal_strlit("heading3");
                assert("synced"@.len() != "heading3"@.len());
                reveal_strlit("bullet");
                assert("synced"@[0] != "bullet"@[0]);
                reveal_strlit("numbered");
                assert("synced"@.len() != "numbered"@.len());
                reveal_strlit("todo");
                assert("synced"@.len() != "todo"@.len());
                reveal_strlit("toggle");
                assert("synced"@[0] != "toggle"@[0]);
                reveal_strlit("quote");
                assert("synced"@.len() != "quote"@.len());
                reveal_strlit("callout");
                assert("synced"@.len() != "callout"@.len());
                reveal_strlit("divider");
                assert("synced"@.len() != "divider"@.len());
                reveal_strlit("code");
                assert("synced"@.len() != "code"@.len());
                reveal_strlit("math");
                assert("synced"@.len() != "math"@.len());
                reveal_strlit("image");
                assert("synced"@.len() != "image"@.len());
                reveal_strlit("file");
                assert("synced"@.len() != "file"@.len());
                reveal_strlit("embed");
                assert("synced"@.len() != "embed"@.len());
                reveal_strlit("link");
                assert("synced"@.len() != "link"@.len());
                reveal_strlit("page");
                assert("synced"@.len() != "page"@.len());
            },
            BlockKind::Table => {
                reveal_strlit("table");
                reveal_strlit("paragraph");
                assert("table"@.len() != "paragraph"@.len());
                reveal_strlit("heading1");
                assert("table"@.len() != "heading1"@.len());
                reveal_strlit("heading2");
                assert("table"@.len() != "heading2"@.len());
                reveal_strlit("heading3");
                assert("table"@.len() != "heading3"@.len());
                reveal_strlit("bullet");
                assert("table"@.len() != "bullet"@.len());
                reveal_strlit("numbered");
                assert("table"@.len() != "numbered"@.len());
                reveal_strlit("todo");
                assert("table"@.len() != "todo"@.len());
                reveal_strlit("toggle");
                assert("table"@.len() != "toggle"@.len());
                reveal_strlit("quote");
                assert("table"@[0] != "quote"@[0]);
                reveal_strlit("callout");
                assert("table"@.len() != "callout"@.len());
                reveal_strlit("divider");
                assert("table"@.len() != "divider"@.len());
                reveal_strlit("code");
                assert("table"@.len() != "code"@.len());
                reveal_strlit("math");
                assert("table"@.len() != "math"@.len());
                reveal_strlit("image");
                assert("table"@[0] != "image"@[0]);
                reveal_strlit("file");
                assert("table"@.len() != "file"@.len());
                reveal_strlit("embed");
                assert("table"@[0] != "embed"@[0]);
                reveal_strlit("link");
                assert("table"@.len() != "link"@.len());
                reveal_strlit("page");
                assert("table"@.len() != "page"@.len());
                reveal_strlit("synced");
                assert("table"@.len() != "synced"@.len());
            },
            BlockKind::TableCell => {
                reveal_strlit("table_cell");
                reveal_strlit("paragraph");
                assert("table_cell"@.len() != "paragraph"@.len());
                reveal_strlit("heading1");
                assert("table_cell"@.len() != "heading1"@.len());
                reveal_strlit("heading2");
                assert("table_cell"@.len() != "heading2"@.len());
                reveal_strlit("heading3");
                assert("table_cell"@.len() != "heading3"@.len());
                reveal_strlit("bullet");
                assert("table_cell"@.len() != "bullet"@.len());
                reveal_strlit("numbered");
                assert("table_cell"@.len() != "numbered"@.len());
                reveal_strlit("todo");
                assert("table_cell"@.len() != "todo"@.len());
                reveal_strlit("toggle");
                assert("table_cell"@.len() != "toggle"@.len());
                reveal_strlit("quote");
                assert("table_cell"@.len() != "quote"@.len());
                reveal_strlit("callout");
                assert("table_cell"@.len() != "callout"@.len());
                reveal_strlit("divider");
                assert("table_cell"@.len() != "divider"@.len());
                reveal_strlit("code");
                assert("table_cell"@.len() != "code"@.len());
                reveal_strlit("math");
                assert("table_cell"@.len() != "math"@.len());
                reveal_strlit("image");
                assert("table_cell"@.len() != "image"@.len());
                reveal_strlit("file");
                assert("table_cell"@.len() != "file"@.len());
                reveal_strlit("embed");
                assert("table_cell"@.len() != "embed"@.len());
                reveal_strlit("link");
                assert("table_cell"@.len() != "link"@.len());
                reveal_strlit("page");
                assert("table_cell"@.len() != "page"@.len());
                reveal_strlit("synced");
                assert("table_cell"@.len() != "synced"@.len());
                reveal_strlit("table");
                assert("table_cell"@.len() != "table"@.len());
            },
            BlockKind::Columns => {
                reveal_strlit("columns");
                reveal_strlit("paragraph");
                assert("columns"@.len() != "paragraph"@.len());
                reveal_strlit("heading1");
                assert("columns"@.len() != "heading1"@.len());
                reveal_strlit("heading2");
                assert("columns"@.len() != "heading2"@.len());
                reveal_strlit("heading3");
                assert("columns"@.len() != "heading3"@.len());
                reveal_strlit("bullet");
                assert("columns"@.len() != "bullet"@.len());
                reveal_strlit("numbered");
                assert("columns"@.len() != "numbered"@.len());
                reveal_strlit("todo");
                assert("columns"@.len() != "todo"@.len());
                reveal_strlit("toggle");
                assert("columns"@.len() != "toggle"@.len());
                reveal_strlit("quote");
                assert("columns"@.len() != "quote"@.len());
                reveal_strlit("callout");
                assert("columns"@[1] != "callout"@[1]);
                reveal_strlit("divider");
                assert("columns"@[0] != "divider"@[0]);
                reveal_strlit("code");
                assert("columns"@.len() != "code"@.len());
                reveal_strlit("math");
                assert("columns"@.len() != "math"@.len());
                reveal_strlit("image");
                assert("columns"@.len() != "image"@.len());
                reveal_strlit("file");
                assert("columns"@.len() != "file"@.len());
                reveal_strlit("embed");
                assert("columns"@.len() != "embed"@.len());
                reveal_strlit("link");
                assert("columns"@.len() != "link"@.len());
                reveal_strlit("page");
                assert("columns"@.len() != "page"@.len());
                reveal_strlit("synced");
                assert("columns"@.len() != "synced"@.len());
                reveal_strlit("table");
                assert("columns"@.len() != "table"@.len());
                reveal_strlit("table_cell");
                assert("columns"@.len() != "table_cell"@.len());
            },
            BlockKind::Column => {
                reveal_strlit("column");
                reveal_strlit("paragraph");
                assert("column"@.len() != "paragraph"@.len());
                reveal_strlit("heading1");
                assert("column"@.len() != "heading1"@.len());
                reveal_strlit("heading2");
                assert("column"@.len() != "heading2"@.len());
                reveal_strlit("heading3");
                assert("column"@.len() != "heading3"@.len());
                reveal_strlit("bullet");
                assert("column"@[0] != "bullet"@[0]);
                reveal_strlit("numbered");
                assert("column"@.len() != "numbered"@.len());
                reveal_strlit("todo");
                assert("column"@.len() != "todo"@.len());
                reveal_strlit("toggle");
                assert("column"@[0] != "toggle"@[0]);
                reveal_strlit("quote");
                assert("column"@.len() != "quote"@.len());
                reveal_strlit("callout");
                assert("column"@.len() != "callout"@.len());
                reveal_strlit("divider");
                assert("column"@.len() != "divider"@.len());
                reveal_strlit("code");
                assert("column"@.len() != "code"@.len());
                reveal_strlit("math");
                assert("column"@.len() != "math"@.len());
                reveal_strlit("image");
                assert("column"@.len() != "image"@.len());
                reveal_strlit("file");
                assert("column"@.len() != "file"@.len());
                reveal_strlit("embed");
                assert("column"@.len() != "embed"@.len());
                reveal_strlit("link");
                assert("column"@.len() != "link"@.len());
                reveal_strlit("page");
                assert("column"@.len() != "page"@.len());
                reveal_strlit("synced");
                assert("column"@[0] != "synced"@[0]);
                reveal_strlit("table");
                assert("column"@.len() != "table"@.len());
                reveal_strlit("table_cell");
                assert("column"@.len() != "table_cell"@.len());
                reveal_strlit("columns");
                assert("column"@.len() != "columns"@.len());
            },
            BlockKind::Database => {
                reveal_strlit("database");
                reveal_strlit("paragraph");
                assert("database"@.len() != "paragraph"@.len());
                reveal_strlit("heading1");
                assert("database"@[0] != "heading1"@[0]);
                reveal_strlit("heading2");
                assert("database"@[0] != "heading2"@[0]);
                reveal_strlit("heading3");
                assert("database"@[0] != "heading3"@[0]);
                reveal_strlit("bullet");
                assert("database"@.len() != "bullet"@.len());
                reveal_strlit("numbered");
                assert("database"@[0] != "numbered"@[0]);
                reveal_strlit("todo");
                assert("database"@.len() != "todo"@.len());
                reveal_strlit("toggle");
                assert("database"@.len() != "toggle"@.len());
                reveal_strlit("quote");
                assert("database"@.len() != "quote"@.len());
                reveal_strlit("callout");
                assert("database"@.len() != "callout"@.len());
                reveal_strlit("divider");
                assert("database"@.len() != "divider"@.len());
                reveal_strlit("code");
                assert("database"@.len() != "code"@.len());
                reveal_strlit("math");
                assert("database"@.len() != "math"@.len());
                reveal_strlit("image");
                assert("database"@.len() != "image"@.len());
                reveal_strlit("file");
                assert("database"@.len() != "file"@.len());
                reveal_strlit("embed");
                assert("database"@.len() != "embed"@.len());
                reveal_strlit("link");
                assert("database"@.len() != "link"@.len());
                reveal_strlit("page");
                assert("database"@.len() != "page"@.len());
                reveal_strlit("synced");
                assert("database"@.len() != "synced"@.len());
                reveal_strlit("table");
                assert("database"@.len() != "table"@.len());
                reveal_strlit("table_cell");
                assert("database"@.len() != "table_cell"@.len());
                reveal_strlit("columns");
                assert("database"@.len() != "columns"@.len());
                reveal_strlit("column");
                assert("database"@.len() != "column"@.len());
            },
            BlockKind::Toc => {
                reveal_strlit("toc");
                reveal_strlit("paragraph");
                assert("toc"@.len() != "paragraph"@.len());
                reveal_strlit("heading1");
                assert("toc"@.len() != "heading1"@.len());
                reveal_strlit("heading2");
                assert("toc"@.len() != "heading2"@.len());
                reveal_strlit("heading3");
                assert("toc"@.len() != "heading3"@.len());
                reveal_strlit("bullet");
                assert("toc"@.len() != "bullet"@.len());
                reveal_strlit("numbered");
                assert("toc"@.len() != "numbered"@.len());
                reveal_strlit("todo");
                assert("toc"@.len() != "todo"@.len());
                reveal_strlit("toggle");
                assert("toc"@.len() != "toggle"@.len());
                reveal_strlit("quote");
                assert("toc"@.len() != "quote"@.len());
                reveal_strlit("callout");
                assert("toc"@.len() != "callout"@.len());
                reveal_strlit("divider");
                assert("toc"@.len() != "divider"@.len());
                reveal_strlit("code");
                assert("toc"@.len() != "code"@.len());
                reveal_strlit("math");
                assert("toc"@.len() != "math"@.len());
                reveal_strlit("image");
                assert("toc"@.len() != "image"@.len());
                reveal_strlit("file");
                assert("toc"@.len() != "file"@.len());
                reveal_strlit("embed");
                assert("toc"@.len() != "embed"@.len());
                reveal_strlit("link");
                assert("toc"@.len() != "link"@.len());
                reveal_strlit("page");
                assert("toc"@.len() != "page"@.len());
                reveal_strlit("synced");
                assert("toc"@.len() != "synced"@.len());
                reveal_strlit("table");
                assert("toc"@.len() != "table"@.len());
                reveal_strlit("table_cell");
                assert("toc"@.len() != "table_cell"@.len());
                reveal_strlit("columns");
                assert("toc"@.len() != "columns"@.len());
                reveal_strlit("column");
                assert("toc"@.len() != "column"@.len());
                reveal_strlit("database");
                assert("toc"@.len() != "database"@.len());
            },
        }
    }
}

/// A text or background colour.
#[derive(Clone, Copy, Debug, PartialEq, Eq, Structural)]
pub enum ColorKind {
    Default,
    Gray,
    Red,
    Orange,
    Yellow,
    Green,
    Blue,
}

impl ColorKind {
    /// The stored spelling of each variant.
    pub open spec fn spec_name(self) -> Seq<char> {
        match self {
            ColorKind::Default => "default"@,
            ColorKind::Gray => "gray"@,
            ColorKind::Red => "red"@,
            ColorKind::Orange => "orange"@,
            ColorKind::Yellow => "yellow"@,
            ColorKind::Green => "green"@,
            ColorKind::Blue => "blue"@,
        }
    }

    /// The variant a stored spelling names, if any.
    pub open spec fn spec_from_name(s: Seq<char>) -> Option<ColorKind> {
        if s == "default"@ {
            Some(ColorKind::Default)
        } else if s == "gray"@ {
            Some(ColorKind::Gray)
        } else if s == "red"@ {
            Some(ColorKind::Red)
        } else if s == "orange"@ {
            Some(ColorKind::Orange)
        } else if s == "yellow"@ {
            Some(ColorKind::Yellow)
        } else if s == "green"@ {
            Some(ColorKind::Green)
        } else if s == "blue"@ {
            Some(ColorKind::Blue)
        } else {
            None
        }
    }

    pub fn as_str(&self) -> (r: &'static str)
        ensures
            r@ == self.spec_name(),
    {
        match self {
            ColorKind::Default => "default",
            ColorKind::Gray => "gray",
            ColorKind::Red => "red",
            ColorKind::Orange => "orange",
            ColorKind::Yellow => "yellow",
            ColorKind::Green => "green",
            ColorKind::Blue => "blue",
        }
    }

    pub fn try_from_str(s: &str) -> (r: Option<ColorKind>)
        ensures
            r == Self::spec_from_name(s@),
    {
        if str_eq(s, "default") {
            Some(ColorKind::Default)
        } else if str_eq(s, "gray") {
            Some(ColorKind::Gray)
        } else if str_eq(s, "red") {
            Some(ColorKind::Red)
        } else if str_eq(s, "orange") {
            Some(ColorKind::Orange)
        } else if str_eq(s, "yellow") {
            Some(ColorKind::Yellow)
        } else if str_eq(s, "green") {
            Some(ColorKind::Green)
        } else if str_eq(s, "blue") {
            Some(ColorKind::Blue)
        } else {
            None
        }
    }

    /// Reading back a variant's own spelling gives the variant.
    pub proof fn lemma_name_round_trip(self)
        ensures
            Self::spec_from_name(self.spec_name()) == Some(self),
    {
        match self {
            ColorKind::Default => {
                reveal_strlit("default");
            },
            ColorKind::Gray => {
                reveal_strlit("gray");
                reveal_strlit("default");
                assert("gray"@.len() != "default"@.len());
            },
            ColorKind::Red => {
                reveal_strlit("red");
                reveal_strlit("default");
                assert("red"@.len() != "default"@.len());
                reveal_strlit("gray");
                assert("red"@.len() != "gray"@.len());
            },
            ColorKind::Orange => {
                reveal_strlit("orange");
                reveal_strlit("default");
                assert("orange"@.len() != "default"@.len());
                reveal_strlit("gray");
                assert("orange"@.len() != "gray"@.len());
                reveal_strlit("red");
                assert("orange"@.len() != "red"@.len());
            },
            ColorKind::Yellow => {
                reveal_strlit("yellow");
                reveal_strlit("default");
                assert("yellow"@.len() != "default"@.len());
                reveal_strlit("gray");
                assert("yellow"@.len() != "gray"@.len());
                reveal_strlit("red");
                assert("yellow"@.len() != "red"@.len());
                reveal_strlit("orange");
                assert("yellow"@[0] != "orange"@[0]);
            },
            ColorKind::Green => {
                reveal_strlit("green");
                reveal_strlit("default");
                assert("green"@.len() != "default"@.len());
                reveal_strlit("gray");
                assert("green"@.len() != "gray"@.len());
                reveal_strlit("red");
                assert("green"@.len() != "red"@.len());
                reveal_strlit("orange");
                assert("green"@.len() != "orange"@.len());
                reveal_strlit("yellow");
                assert("green"@.len() != "yellow"@.len());
            },
            ColorKind::Blue => {
                reveal_strlit("blue");
                reveal_strlit("default");
                assert("blue"@.len() != "default"@.len());
                reveal_strlit("gray");
                assert("blue"@[0] != "gray"@[0]);
                reveal_strlit("red");
                assert("blue"@.len() != "red"@.len());
                reveal_strlit("orange");
                assert("blue"@.len() != "orange"@.len());
                reveal_strlit("yellow");
                assert("blue"@.len() != "yellow"@.len());
                reveal_strlit("green");
                assert("blue"@.len() != "green"@.len());
            },
        }
    }
}

/// A code block's language.
#[derive(Clone, Copy, Debug, PartialEq, Eq, Structural)]
pub enum Lang {
    Plain,
    Rust,
}

impl Lang {
    /// The stored spelling of each variant.
    pub open spec fn spec_name(self) -> Seq<char> {
        match self {
            Lang::Plain => "plain"@,
            Lang::Rust => "rust"@,
        }
    }

    /// The variant a stored spelling names, if any.
    pub open spec fn spec_from_name(s: Seq<char>) -> Option<Lang> {
        if s == "plain"@ {
            Some(Lang::Plain)
        } else if s == "rust"@ {
            Some(Lang::Rust)
        } else {
            None
        }
    }

    pub fn as_str(&self) -> (r: &'static str)
        ensures
            r@ == self.spec_name(),
    {
        match self {
            Lang::Plain => "plain",
            Lang::Rust => "rust",
        }
    }

    pub fn try_from_str(s: &str) -> (r: Option<Lang>)
        ensures
            r == Self::spec_from_name(s@),
    {
        if str_eq(s, "plain") {
            Some(Lang::Plain)
        } else if str_eq(s, "rust") {
            Some(Lang::Rust)
        } else {
            None
        }
    }

    /// Reading back a variant's own spelling gives the variant.
    pub proof fn lemma_name_round_trip(self)
        ensures
            Self::spec_from_name(self.spec_name()) == Some(self),
    {
        match self {
            Lang::Plain => {
                reveal_strlit("plain");
            },
            Lang::Rust => {
                reveal_strlit("rust");
                reveal_strlit("plain");
                assert("rust"@.len() != "plain"@.len());
            },
        }
    }
}

/// An inline mark's kind.
#[derive(Clone, Copy, Debug, PartialEq, Eq, Structural)]
pub enum MarkKind {
    Bold,
    Italic,
    Strike,
    Code,
    Link,
    Date,
    Math,
}

impl MarkKind {
    /// The stored spelling of each variant.
    pub open spec fn spec_name(self) -> Seq<char> {
        match self {
            MarkKind::Bold => "bold"@,
            MarkKind::Italic => "italic"@,
            MarkKind::Strike => "strike"@,
            MarkKind::Code => "code"@,
            MarkKind::Link => "link"@,
            MarkKind::Date => "date"@,
            MarkKind::Math => "math"@,
        }
    }

    /// The variant a stored spelling names, if any.
    pub open spec fn spec_from_name(s: Seq<char>) -> Option<MarkKind> {
        if s == "bold"@ {
            Some(MarkKind::Bold)
        } else if s == "italic"@ {
            Some(MarkKind::Italic)
        } else if s == "strike"@ {
            Some(MarkKind::Strike)
        } else if s == "code"@ {
            Some(MarkKind::Code)
        } else if s == "link"@ {
            Some(MarkKind::Link)
        } else if s == "date"@ {
            Some(MarkKind::Date)
        } else if s == "math"@ {
            Some(MarkKind::Math)
        } else {
            None
        }
    }

    pub fn as_str(&self) -> (r: &'static str)
        ensures
            r@ == self.spec_name(),
    {
        match self {
            MarkKind::Bold => "bold",
            MarkKind::Italic => "italic",
            MarkKind::Strike => "strike",
            MarkKind::Code => "code",
            MarkKind::Link => "link",
            MarkKind::Date => "date",
            MarkKind::Math => "math",
        }
    }

    pub fn try_from_str(s: &str) -> (r: Option<MarkKind>)
        ensures
            r == Self::spec_from_name(s@),
    {
        if str_eq(s, "bold") {
            Some(MarkKind::Bold)
        } else if str_eq(s, "italic") {
            Some(MarkKind::Italic)
        } else if str_eq(s, "strike") {
            Some(MarkKind::Strike)
        } else if str_eq(s, "code") {
            Some(MarkKind::Code)
        } else if str_eq(s, "link") {
            Some(MarkKind::Link)
        } else if str_eq(s, "date") {
            Some(MarkKind::Date)
        } else if str_eq(s, "math") {
            Some(MarkKind::Math)
        } else {
            None
        }
    }

    /// Reading back a variant's own spelling gives the variant.
    pub proof fn lemma_name_round_trip(self)
        ensures
            Self::spec_from_name(self.spec_name()) == Some(self),
    {
        match self {
            MarkKind::Bold => {
                reveal_strlit("bold");
            },
            MarkKind::Italic => {
                reveal_strlit("italic");
                reveal_strlit("bold");
                assert("italic"@.len() != "bold"@.len());
            },
            MarkKind::Strike => {
                reveal_strlit("strike");
                reveal_strlit("bold");
                assert("strike"@.len() != "bold"@.len());
                reveal_strlit("italic");
                assert("strike"@[0] != "italic"@[0]);
            },
            MarkKind::Code => {
                reveal_strlit("code");
                reveal_strlit("bold");
                assert("code"@[0] != "bold"@[0]);
                reveal_strlit("italic");
                assert("code"@.len() != "italic"@.len());
                reveal_strlit("strike");
                assert("code"@.len() != "strike"@.len());
            },
            MarkKind::Link => {
                reveal_strlit("link");
                reveal_strlit("bold");
                assert("link"@[0] != "bold"@[0]);
                reveal_strlit("italic");
                assert("link"@.len() != "italic"@.len());
                reveal_strlit("strike");
                assert("link"@.len() != "strike"@.len());
                reveal_strlit("code");
                assert("link"@[0] != "code"@[0]);
            },
            MarkKind::Date => {
                reveal_strlit("date");
                reveal_strlit("bold");
                assert("date"@[0] != "bold"@[0]);
                reveal_strlit("italic");
                assert("date"@.len() != "italic"@.len());
                reveal_strlit("strike");
                assert("date"@.len() != "strike"@.len());
                reveal_strlit("code");
                assert("date"@[0] != "code"@[0]);
                reveal_strlit("link");
                assert("date"@[0] != "link"@[0]);
            },
            MarkKind::Math => {
                reveal_strlit("math");
                reveal_strlit("bold");
                assert("math"@[0] != "bold"@[0]);
                reveal_strlit("italic");
                assert("math"@.len() != "italic"@.len());
                reveal_strlit("strike");
                assert("math"@.len() != "strike"@.len());
                reveal_strlit("code");
                assert("math"@[0] != "code"@[0]);
                reveal_strlit("link");
                assert("math"@[0] != "link"@[0]);
                reveal_strlit("date");
                assert("math"@[0] != "date"@[0]);
            },
        }
    }
}

/// A database column's kind.
#[derive(Clone, Copy, Debug, PartialEq, Eq, Structural)]
pub enum PropertyKind {
    Text,
    Number,
    Checkbox,
    Date,
    Formula,
    Relation,
    Rollup,
}

impl PropertyKind {
    /// The stored spelling of each variant.
    pub open spec fn spec_name(self) -> Seq<char> {
        match self {
            PropertyKind::Text => "text"@,
            PropertyKind::Number => "number"@,
            PropertyKind::Checkbox => "checkbox"@,
            PropertyKind::Date => "date"@,
            PropertyKind::Formula => "formula"@,
            PropertyKind::Relation => "relation"@,
            PropertyKind::Rollup => "rollup"@,
        }
    }

    /// The variant a stored spelling names, if any.
    pub open spec fn spec_from_name(s: Seq<char>) -> Option<PropertyKind> {
        if s == "text"@ {
            Some(PropertyKind::Text)
        } else if s == "number"@ {
            Some(PropertyKind::Number)
        } else if s == "checkbox"@ {
            Some(PropertyKind::Checkbox)
        } else if s == "date"@ {
            Some(PropertyKind::Date)
        } else if s == "formula"@ {
            Some(PropertyKind::Formula)
        } else if s == "relation"@ {
            Some(PropertyKind::Relation)
        } else if s == "rollup"@ {
            Some(PropertyKind::Rollup)
        } else {
            None
        }
    }

    pub fn as_str(&self) -> (r: &'static str)
        ensures
            r@ == self.spec_name(),
    {
        match self {
            PropertyKind::Text => "text",
            PropertyKind::Number => "number",
            PropertyKind::Checkbox => "checkbox",
            PropertyKind::Date => "date",
            PropertyKind::Formula => "formula",
            PropertyKind::Relation => "relation",
            PropertyKind::Rollup => "rollup",
        }
    }

    pub fn try_from_str(s: &str) -> (r: Option<PropertyKind>)
        ensures
            r == Self::spec_from_name(s@),
    {
        if str_eq(s, "text") {
            Some(PropertyKind::Text)
        } else if str_eq(s, "number") {
            Some(PropertyKind::Number)
        } else if str_eq(s, "checkbox") {
            Some(PropertyKind::Checkbox)
        } else if str_eq(s, "date") {
            Some(PropertyKind::Date)
        } else if str_eq(s, "formula") {
            Some(PropertyKind::Formula)
        } else if str_eq(s, "relation") {
            Some(PropertyKind::Relation)
        } else if str_eq(s, "rollup") {
            Some(PropertyKind::Rollup)
        } else {
            None
        }
    }

    /// Reading back a variant's own spelling gives the variant.
    pub proof fn lemma_name_round_trip(self)
        ensures
            Self::spec_from_name(self.spec_name()) == Some(self),
    {
        match self {
            PropertyKind::Text => {
                reveal_strlit("text");
            },
            PropertyKind::Number => {
                reveal_strlit("number");
                reveal_strlit("text");
                assert("number"@.len() != "text"@.len());
            },
            PropertyKind::Checkbox => {
                reveal_strlit("checkbox");
                reveal_strlit("text");
                assert("checkbox"@.len() != "text"@.len());
                reveal_strlit("number");
                assert("checkbox"@.len() != "number"@.len());
            },
            PropertyKind::Date => {
                reveal_strlit("date");
                reveal_strlit("text");
                assert("date"@[0] != "text"@[0]);
                reveal_strlit("number");
                assert("date"@.len() != "number"@.len());
                reveal_strlit("checkbox");
                assert("date"@.len() != "checkbox"@.len());
            },
            PropertyKind::Formula => {
                reveal_strlit("formula");
                reveal_strlit("text");
                assert("formula"@.len() != "text"@.len());
                reveal_strlit("number");
                assert("formula"@.len() != "number"@.len());
                reveal_strlit("checkbox");
                assert("formula"@.len() != "checkbox"@.len());
                reveal_strlit("date");
                assert("formula"@.len() != "date"@.len());
            },
            PropertyKind::Relation => {
                reveal_strlit("relation");
                reveal_strlit("text");
                assert("relation"@.len() != "text"@.len());
                reveal_strlit("number");
                assert("relation"@.len() != "number"@.len());
                reveal_strlit("checkbox");
                assert("relation"@[0] != "checkbox"@[0]);
                reveal_strlit("date");
                assert("relation"@.len() != "date"@.len());
                reveal_strlit("formula");
                assert("relation"@.len() != "formula"@.len());
            },
            PropertyKind::Rollup => {
                reveal_strlit("rollup");
                reveal_strlit("text");
                assert("rollup"@.len() != "text"@.len());
                reveal_strlit("number");
                assert("rollup"@[0] != "number"@[0]);
                reveal_strlit("checkbox");
                assert("rollup"@.len() != "checkbox"@.len());
                reveal_strlit("date");
                assert("rollup"@.len() != "date"@.len());
                reveal_strlit("formula");
                assert("rollup"@.len() != "formula"@.len());
                reveal_strlit("relation");
                assert("rollup"@.len() != "relation"@.len());
            },
        }
    }
}

/// A database view's layout.
#[derive(Clone, Copy, Debug, PartialEq, Eq, Structural)]
pub enum ViewLayout {
    Table,
    Board,
    List,
    Gallery,
    Calendar,
    Timeline,
    Chart,
    Form,
}

impl ViewLayout {
    /// The stored spelling of each variant.
    pub open spec fn spec_name(self) -> Seq<char> {
        match self {
            ViewLayout::Table => "table"@,
            ViewLayout::Board => "board"@,
            ViewLayout::List => "list"@,
            ViewLayout::Gallery => "gallery"@,
            ViewLayout::Calendar => "calendar"@,
            ViewLayout::Timeline => "timeline"@,
            ViewLayout::Chart => "chart"@,
            ViewLayout::Form => "form"@,
        }
    }

    /// The variant a stored spelling names, if any.
    pub open spec fn spec_from_name(s: Seq<char>) -> Option<ViewLayout> {
        if s == "table"@ {
            Some(ViewLayout::Table)
        } else if s == "board"@ {
            Some(ViewLayout::Board)
        } else if s == "list"@ {
            Some(ViewLayout::List)
        } else if s == "gallery"@ {
            Some(ViewLayout::Gallery)
        } else if s == "calendar"@ {
            Some(ViewLayout::Calendar)
        } else if s == "timeline"@ {
            Some(ViewLayout::Timeline)
        } else if s == "chart"@ {
            Some(ViewLayout::Chart)
        } else if s == "form"@ {
            Some(ViewLayout::Form)
        } else {
            None
        }
    }

    pub fn as_str(&self) -> (r: &'static str)
        ensures
            r@ == self.spec_name(),
    {
        match self {
            ViewLayout::Table => "table",
            ViewLayout::Board => "board",
            ViewLayout::List => "list",
            ViewLayout::Gallery => "gallery",
            ViewLayout::Calendar => "calendar",
            ViewLayout::Timeline => "timeline",
            ViewLayout::Chart => "chart",
            ViewLayout::Form => "form",
        }
    }

    pub fn try_from_str(s: &str) -> (r: Option<ViewLayout>)
        ensures
            r == Self::spec_from_name(s@),
    {
        if str_eq(s, "table") {
            Some(ViewLayout::Table)
        } else if str_eq(s, "board") {
            Some(ViewLayout::Board)
        } else if str_eq(s, "list") {
            Some(ViewLayout::List)
        } else if str_eq(s, "gallery") {
            Some(ViewLayout::Gallery)
        } else if str_eq(s, "calendar") {
            Some(ViewLayout::Calendar)
        } else if str_eq(s, "timeline") {
            Some(ViewLayout::Timeline)
        } else if str_eq(s, "chart") {
            Some(ViewLayout::Chart)
        } else if str_eq(s, "form") {
            Some(ViewLayout::Form)
        } else {
            None
        }
    }

    /// Reading back a variant's own spelling gives the variant.
    pub proof fn lemma_name_round_trip(self)
        ensures
            Self::spec_from_name(self.spec_name()) == Some(self),
    {
        match self {
            ViewLayout::Table => {
                reveal_strlit("table");
            },
            ViewLayout::Board => {
                reveal_strlit("board");
                reveal_strlit("table");
                assert("board"@[0] != "table"@[0]);
            },
            ViewLayout::List => {
                reveal_strlit("list");
                reveal_strlit("table");
                assert("list"@.len() != "table"@.len());
                reveal_strlit("board");
                assert("list"@.len() != "board"@.len());
            },
            ViewLayout::Gallery => {
                reveal_strlit("gallery");
                reveal_strlit("table");
                assert("gallery"@.len() != "table"@.len());
                reveal_strlit("board");
                assert("gallery"@.len() != "board"@.len());
                reveal_strlit("list");
                assert("gallery"@.len() != "list"@.len());
            },
            ViewLayout::Calendar => {
                reveal_strlit("calendar");
                reveal_strlit("table");
                assert("calendar"@.len() != "table"@.len());
                reveal_strlit("board");
                assert("calendar"@.len() != "board"@.len());
                reveal_strlit("list");
                assert("calendar"@.len() != "list"@.len());
                reveal_strlit("gallery");
                assert("calendar"@.len() != "gallery"@.len());
            },
            ViewLayout::Timeline => {
                reveal_strlit("timeline");
                reveal_strlit("table");
                assert("timeline"@.len() != "table"@.len());
                reveal_strlit("board");
                assert("timeline"@.len() != "board"@.len());
                reveal_strlit("list");
                assert("timeline"@.len() != "list"@.len());
                reveal_strlit("gallery");
                assert("timeline"@.len() != "gallery"@.len());
                reveal_strlit("calendar");
                assert("timeline"@[0] != "calendar"@[0]);
            },
            ViewLayout::Chart => {
                reveal_strlit("chart");
                reveal_strlit("table");
                assert("chart"@[0] != "table"@[0]);
                reveal_strlit("board");
                assert("chart"@[0] != "board"@[0]);
                reveal_strlit("list");
                assert("chart"@.len() != "list"@.len());
                reveal_strlit("gallery");
                assert("chart"@.len() != "gallery"@.len());
                reveal_strlit("calendar");
                assert("chart"@.len() != "calendar"@.len());
                reveal_strlit("timeline");
                assert("chart"@.len() != "timeline"@.len());
            },
            ViewLayout::Form => {
                reveal_strlit("form");
                reveal_strlit("table");
                assert("form"@.len() != "table"@.len());
                reveal_strlit("board");
                assert("form"@.len() != "board"@.len());
                reveal_strlit("list");
                assert("form"@[0] != "list"@[0]);
                reveal_strlit("gallery");
                assert("form"@.len() != "gallery"@.len());
                reveal_strlit("calendar");
                assert("form"@.len() != "calendar"@.len());
                reveal_strlit("timeline");
                assert("form"@.len() != "timeline"@.len());
                reveal_strlit("chart");
                assert("form"@.len() != "chart"@.len());
            },
        }
    }
}
impl Default for PageFont {
    fn default() -> (r: PageFont)
        ensures
            r == PageFont::Default,
    {
        PageFont::Default
    }
}

/// A stored page row.
#[derive(Clone, Debug, PartialEq)]
pub struct Page {
    pub id: PageId,
    pub title: String,
    pub parent: Option<PageId>,
    pub order: OrderKey,
    pub favorite: bool,
    pub expanded: bool,
    pub font: PageFont,
    pub full_width: bool,
    pub small_text: bool,
    pub icon: String,
    pub cover: Option<AttachmentId>,
    pub locked: bool,
    pub template: bool,
}

/// An inline mark over a block's text. A link carries its `url`, a date its
/// ISO `date`; every other kind carries neither.
#[derive(Clone, Debug, PartialEq)]
pub struct Mark {
    pub start: usize,
    pub end: usize,
    pub kind: MarkKind,
    pub url: String,
    pub date: Option<String>,
}

/// The one payload column a stored mark has: a date's ISO text for a date
/// mark (empty when it has none), the url for every other kind.
pub open spec fn spec_stored_payload(kind: MarkKind, url: Seq<char>, date: Option<Seq<char>>) -> Seq<char> {
    match kind {
        MarkKind::Date => match date {
            Some(d) => d,
            None => Seq::empty(),
        },
        _ => url,
    }
}

impl Mark {
    pub fn stored_payload(&self) -> (r: String)
        ensures
            r@ == spec_stored_payload(
                self.kind,
                self.url@,
                match self.date {
                    Some(d) => Some(d@),
                    None => None,
                },
            ),
    {
        match self.kind {
            MarkKind::Date => match &self.date {
                Some(d) => d.clone(),
                None => String::new(),
            },
            _ => self.url.clone(),
        }
    }

    /// Rebuild a mark from its stored columns: the payload becomes a date
    /// mark's date and any other mark's url.
    pub fn from_stored(start: usize, end: usize, kind: MarkKind, payload: String) -> (r: Mark)
        ensures
            r.start == start,
            r.end == end,
            r.kind == kind,
            kind == MarkKind::Date ==> (r.url@ == Seq::<char>::empty() && (r.date matches Some(d) && d@ == payload@)),
            kind != MarkKind::Date ==> r.url@ == payload@ && r.date is None,
    {
        match kind {
            MarkKind::Date => Mark { start, end, kind, url: String::new(), date: Some(payload) },
            _ => Mark { start, end, kind, url: payload, date: None },
        }
    }
}

/// A stored block row.
#[derive(Clone, Debug, PartialEq)]
pub struct Block {
    pub id: BlockId,
    pub page: PageId,
    pub parent: Option<BlockId>,
    pub order: OrderKey,
    pub kind: BlockKind,
    pub text: String,
    pub checked: bool,
    pub marks: Vec<Mark>,
    pub color: ColorKind,
    pub background: ColorKind,
    pub page_ref: Option<PageId>,
    pub folded: bool,
    pub attachment: Option<AttachmentId>,
    pub img_percent: u16,
    pub columns: u16,
    pub lang: Lang,
    pub db_ref: Option<DatabaseId>,
    pub sync_ref: Option<BlockId>,
}

/// A stored attachment row.
#[derive(Clone, Debug, PartialEq)]
pub struct Attachment {
    pub id: AttachmentId,
    pub name: String,
    pub file: String,
    pub thumb: String,
    pub mime: String,
    pub bytes: i64,
    pub width: u32,
    pub height: u32,
}

/// A database column.
#[derive(Clone, Debug, PartialEq)]
pub struct Property {
    pub id: PropertyId,
    pub db: DatabaseId,
    pub name: String,
    pub kind: PropertyKind,
    pub config: String,
    pub ord: OrderKey,
}

/// A database view.
#[derive(Clone, Debug, PartialEq)]
pub struct DatabaseView {
    pub id: ViewId,
    pub db: DatabaseId,
    pub name: String,
    pub layout: ViewLayout,
    pub definition: String,
    pub ord: OrderKey,
}

/// A database record (a row of the table; `page` is its own page, if any).
#[derive(Clone, Debug, PartialEq)]
pub struct Record {
    pub id: RecordId,
    pub db: DatabaseId,
    pub page: Option<PageId>,
    pub ord: OrderKey,
}

/// A database entity: its id, name and template text.
#[derive(Clone, Debug, PartialEq)]
pub struct Database {
    pub id: DatabaseId,
    pub name: String,
    pub template: String,
}

} // verus!
