//! The file-dialog seam: a dialog is described here, shown by the platform,
//! and its answer read back here. A platform without a dialog says what is
//! missing instead of doing nothing, so a button never looks broken.

use vstd::prelude::*;

verus! {

/// What the user is being asked for.
#[derive(Clone, Copy, PartialEq, Eq, Structural)]
pub enum DialogKind {
    Open,
    Save,
}

/// The outcome of one dialog: a path, a cancel, or a platform that cannot
/// ask.
pub enum Chosen {
    Path(String),
    Cancelled,
    Unsupported(&'static str),
}

/// What the platform's dialog gave back.
pub enum DialogAnswer {
    /// The user chose this path.
    Picked(String),
    /// The user closed the dialog.
    Dismissed,
    /// This platform has no dialog to open.
    NoDialog,
}

/// A dialog under construction.
pub struct Picker {
    kind: DialogKind,
    title: Option<&'static str>,
    name: Option<String>,
    filters: Vec<(&'static str, &'static [&'static str])>,
}

/// The notice a platform without a dialog gives, per kind: what was lost
/// is the thing that was asked for.
pub open spec fn unsupported_text(kind: DialogKind) -> Seq<char> {
    match kind {
        DialogKind::Open => "Android cannot open a file from outside the app yet"@,
        DialogKind::Save => "Android cannot save a file outside the app yet"@,
    }
}

impl Picker {
    pub closed spec fn kind_of(&self) -> DialogKind {
        self.kind
    }

    pub closed spec fn title_of(&self) -> Option<Seq<char>> {
        match self.title {
            Some(t) => Some(t@),
            None => None,
        }
    }

    pub closed spec fn name_of(&self) -> Option<Seq<char>> {
        match self.name {
            Some(n) => Some(n@),
            None => None,
        }
    }

    /// The filters, each a label and its extensions, in the order given.
    pub closed spec fn filters_of(&self) -> Seq<(Seq<char>, Seq<Seq<char>>)> {
        self.filters@.map_values(|f: (&'static str, &'static [&'static str])| (f.0@, f.1@.map_values(|e: &str| e@)))
    }

    /// An open-file dialog with no title, name or filter.
    pub fn open() -> (r: Picker)
        ensures
            r.kind_of() == DialogKind::Open,
            r.title_of() is None,
            r.name_of() is None,
            r.filters_of().len() == 0,
    {
        Picker { kind: DialogKind::Open, title: None, name: None, filters: Vec::new() }
    }

    /// A save-file dialog with no title, name or filter.
    pub fn save() -> (r: Picker)
        ensures
            r.kind_of() == DialogKind::Save,
            r.title_of() is None,
            r.name_of() is None,
            r.filters_of().len() == 0,
    {
        Picker { kind: DialogKind::Save, title: None, name: None, filters: Vec::new() }
    }

    pub fn title(self, title: &'static str) -> (r: Picker)
        ensures
            r.kind_of() == self.kind_of(),
            r.title_of() == Some(title@),
            r.name_of() == self.name_of(),
            r.filters_of() == self.filters_of(),
    {
        Picker { title: Some(title), ..self }
    }

    /// The name the save dialog opens with; an open dialog ignores it.
    pub fn name(self, name: &str) -> (r: Picker)
        ensures
            r.kind_of() == self.kind_of(),
            r.title_of() == self.title_of(),
            r.name_of() == Some(name@),
            r.filters_of() == self.filters_of(),
    {
        Picker { name: Some(name.to_owned()), ..self }
    }

    pub fn filter(self, label: &'static str, extensions: &'static [&'static str]) -> (r: Picker)
        ensures
            r.kind_of() == self.kind_of(),
            r.title_of() == self.title_of(),
            r.name_of() == self.name_of(),
            r.filters_of() == self.filters_of().push((label@, extensions@.map_values(|e: &str| e@))),
    {
        let mut p = self;
        p.filters.push((label, extensions));
        proof {
            assert(p.filters_of() =~= self.filters_of().push((label@, extensions@.map_values(|e: &str| e@))));
        }
        p
    }

    pub fn kind(&self) -> (r: DialogKind)
        ensures
            r == self.kind_of(),
    {
        self.kind
    }

    pub fn title_text(&self) -> (r: Option<&'static str>)
        ensures
            match r {
                Some(t) => self.title_of() == Some(t@),
                None => self.title_of() is None,
            },
    {
        self.title
    }

    pub fn file_name(&self) -> (r: Option<&str>)
        ensures
            match r {
                Some(n) => self.name_of() == Some(n@),
                None => self.name_of() is None,
            },
    {
        match &self.name {
            Some(n) => Some(n.as_str()),
            None => None,
        }
    }

    pub fn filter_count(&self) -> (r: usize)
        ensures
            r == self.filters_of().len(),
    {
        self.filters.len()
    }

    pub fn filter_at(&self, i: usize) -> (r: (&'static str, &'static [&'static str]))
        requires
            i < self.filters_of().len(),
        ensures
            (r.0@, r.1@.map_values(|e: &str| e@)) == self.filters_of()[i as int],
    {
        self.filters[i]
    }

    /// Read the platform's answer: the chosen path, a cancel, or (where the
    /// platform has no dialog) the notice for this kind of dialog.
    pub fn pick(self, answer: DialogAnswer) -> (r: Chosen)
        ensures
            match answer {
                DialogAnswer::Picked(p) => r matches Chosen::Path(q) && q@ == p@,
                DialogAnswer::Dismissed => r is Cancelled,
                DialogAnswer::NoDialog => r matches Chosen::Unsupported(t) && t@ == unsupported_text(self.kind_of()),
            },
    {
        match answer {
            DialogAnswer::Picked(p) => Chosen::Path(p),
            DialogAnswer::Dismissed => Chosen::Cancelled,
            DialogAnswer::NoDialog => Chosen::Unsupported(
                match self.kind {
                    DialogKind::Open => "Android cannot open a file from outside the app yet",
                    DialogKind::Save => "Android cannot save a file outside the app yet",
                },
            ),
        }
    }
}

} // verus!
