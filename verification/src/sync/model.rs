//! The wire shape of a sync snapshot.
//!
//! The rows mirror the document's own rows with plain ids (`u64`) and the
//! self-describing spellings of the document's enums (`as_str` /
//! `try_from_str`). The conversions below are the only place the two shapes
//! meet: the merge works on these rows alone.
//!
//! A cell's number travels as the IEEE-754 bit pattern of the `f64` it holds;
//! two numbers compare equal exactly when the floats do (no NaN equals
//! anything, and the two zeros are equal).

use vstd::prelude::*;

use crate::doc::{
    self, AttachmentId, BlockId, BlockKind, ColorKind, DatabaseId, Lang, MarkKind, OrderKey,
    PageFont, PageId, PropertyId, PropertyKind, RecordId, ViewId, ViewLayout,
};
use crate::text::{decimal, decimal_text};
use vstd::string::StringExecFns;

verus! {

broadcast use vstd::string::group_string_axioms;

/// The snapshot protocol this build speaks.
pub const SNAPSHOT_VERSION: u32 = 1;

/// A whole snapshot as it travels between two devices.
#[derive(Clone, Debug)]
pub struct SyncSnapshot {
    pub version: u32,
    /// The sending device's id.
    pub device_id: String,
    /// The sending device's readable name.
    pub device: String,
    pub pages: Vec<SPage>,
    pub blocks: Vec<SBlock>,
    pub attachments: Vec<SAttachment>,
    pub databases: Vec<SDatabase>,
}

#[derive(Clone, Debug)]
pub struct SPage {
    pub id: u64,
    pub title: String,
    pub parent: Option<u64>,
    pub ord: u64,
    pub favorite: bool,
    pub expanded: bool,
    pub font: String,
    pub full_width: bool,
    pub small_text: bool,
    pub icon: String,
    pub cover: Option<u64>,
    pub locked: bool,
    pub template: bool,
}

#[derive(Clone, Debug)]
pub struct SMark {
    pub start: usize,
    pub end: usize,
    pub kind: String,
    /// The one payload column: a link's url, or a date's ISO text.
    pub payload: String,
}

#[derive(Clone, Debug)]
pub struct SBlock {
    pub id: u64,
    pub page: u64,
    pub parent: Option<u64>,
    pub ord: u64,
    pub kind: String,
    pub text: String,
    pub checked: bool,
    pub folded: bool,
    pub color: String,
    pub background: String,
    pub page_ref: Option<u64>,
    pub sync_ref: Option<u64>,
    pub attachment: Option<u64>,
    pub img_percent: u16,
    pub columns: u16,
    pub lang: String,
    pub db_ref: Option<u64>,
    pub marks: Vec<SMark>,
}

#[derive(Clone, Debug)]
pub struct SAttachment {
    pub id: u64,
    pub name: String,
    pub file: String,
    pub thumb: String,
    pub mime: String,
    pub bytes: i64,
    pub width: u32,
    pub height: u32,
}

#[derive(Clone, Debug)]
pub struct SProperty {
    pub id: u64,
    pub db: u64,
    pub name: String,
    pub kind: String,
    pub config: String,
    pub ord: u64,
}

#[derive(Clone, Debug)]
pub struct SView {
    pub id: u64,
    pub db: u64,
    pub name: String,
    pub layout: String,
    pub definition: String,
    pub ord: u64,
}

#[derive(Clone, Debug)]
pub struct SRecord {
    pub id: u64,
    pub db: u64,
    pub page: Option<u64>,
    pub ord: u64,
}

/// One cell as stored: the three flat columns plus the list kinds' items.
/// `None` everywhere is the empty cell. `num` holds the bits of an `f64`.
#[derive(Clone, Debug)]
pub struct SValue {
    pub record: u64,
    pub property: u64,
    pub text: Option<String>,
    pub num: Option<u64>,
    pub flag: Option<bool>,
    pub items: Option<Vec<String>>,
}

#[derive(Clone, Debug)]
pub struct SDatabase {
    pub id: u64,
    pub name: String,
    pub template: String,
    pub properties: Vec<SProperty>,
    pub views: Vec<SView>,
    pub records: Vec<SRecord>,
    pub values: Vec<SValue>,
}

// ─── abstract values ────────────────────────────────────────────────────────

pub struct SPageV {
    pub id: u64,
    pub title: Seq<char>,
    pub parent: Option<u64>,
    pub ord: u64,
    pub favorite: bool,
    pub expanded: bool,
    pub font: Seq<char>,
    pub full_width: bool,
    pub small_text: bool,
    pub icon: Seq<char>,
    pub cover: Option<u64>,
    pub locked: bool,
    pub template: bool,
}

pub struct SMarkV {
    pub start: usize,
    pub end: usize,
    pub kind: Seq<char>,
    pub payload: Seq<char>,
}

pub struct SBlockV {
    pub id: u64,
    pub page: u64,
    pub parent: Option<u64>,
    pub ord: u64,
    pub kind: Seq<char>,
    pub text: Seq<char>,
    pub checked: bool,
    pub folded: bool,
    pub color: Seq<char>,
    pub background: Seq<char>,
    pub page_ref: Option<u64>,
    pub sync_ref: Option<u64>,
    pub attachment: Option<u64>,
    pub img_percent: u16,
    pub columns: u16,
    pub lang: Seq<char>,
    pub db_ref: Option<u64>,
    pub marks: Seq<SMarkV>,
}

pub struct SAttachmentV {
    pub id: u64,
    pub name: Seq<char>,
    pub file: Seq<char>,
    pub thumb: Seq<char>,
    pub mime: Seq<char>,
    pub bytes: i64,
    pub width: u32,
    pub height: u32,
}

pub struct SPropertyV {
    pub id: u64,
    pub db: u64,
    pub name: Seq<char>,
    pub kind: Seq<char>,
    pub config: Seq<char>,
    pub ord: u64,
}

pub struct SViewV {
    pub id: u64,
    pub db: u64,
    pub name: Seq<char>,
    pub layout: Seq<char>,
    pub definition: Seq<char>,
    pub ord: u64,
}

pub struct SRecordV {
    pub id: u64,
    pub db: u64,
    pub page: Option<u64>,
    pub ord: u64,
}

pub struct SValueV {
    pub record: u64,
    pub property: u64,
    pub text: Option<Seq<char>>,
    pub num: Option<u64>,
    pub flag: Option<bool>,
    pub items: Option<Seq<Seq<char>>>,
}

pub struct SDatabaseV {
    pub id: u64,
    pub name: Seq<char>,
    pub template: Seq<char>,
    pub properties: Seq<SPropertyV>,
    pub views: Seq<SViewV>,
    pub records: Seq<SRecordV>,
    pub values: Seq<SValueV>,
}

pub struct SyncSnapshotV {
    pub version: u32,
    pub device_id: Seq<char>,
    pub device: Seq<char>,
    pub pages: Seq<SPageV>,
    pub blocks: Seq<SBlockV>,
    pub attachments: Seq<SAttachmentV>,
    pub databases: Seq<SDatabaseV>,
}

pub open spec fn strings_view(v: Seq<String>) -> Seq<Seq<char>> {
    v.map_values(|s: String| s@)
}

impl View for SPage {
    type V = SPageV;

    open spec fn view(&self) -> SPageV {
        SPageV {
            id: self.id,
            title: self.title@,
            parent: self.parent,
            ord: self.ord,
            favorite: self.favorite,
            expanded: self.expanded,
            font: self.font@,
            full_width: self.full_width,
            small_text: self.small_text,
            icon: self.icon@,
            cover: self.cover,
            locked: self.locked,
            template: self.template,
        }
    }
}

impl View for SMark {
    type V = SMarkV;

    open spec fn view(&self) -> SMarkV {
        SMarkV { start: self.start, end: self.end, kind: self.kind@, payload: self.payload@ }
    }
}

impl View for SBlock {
    type V = SBlockV;

    open spec fn view(&self) -> SBlockV {
        SBlockV {
            id: self.id,
            page: self.page,
            parent: self.parent,
            ord: self.ord,
            kind: self.kind@,
            text: self.text@,
            checked: self.checked,
            folded: self.folded,
            color: self.color@,
            background: self.background@,
            page_ref: self.page_ref,
            sync_ref: self.sync_ref,
            attachment: self.attachment,
            img_percent: self.img_percent,
            columns: self.columns,
            lang: self.lang@,
            db_ref: self.db_ref,
            marks: self.marks@.map_values(|m: SMark| m@),
        }
    }
}

impl View for SAttachment {
    type V = SAttachmentV;

    open spec fn view(&self) -> SAttachmentV {
        SAttachmentV {
            id: self.id,
            name: self.name@,
            file: self.file@,
            thumb: self.thumb@,
            mime: self.mime@,
            bytes: self.bytes,
            width: self.width,
            height: self.height,
        }
    }
}

impl View for SProperty {
    type V = SPropertyV;

    open spec fn view(&self) -> SPropertyV {
        SPropertyV {
            id: self.id,
            db: self.db,
            name: self.name@,
            kind: self.kind@,
            config: self.config@,
            ord: self.ord,
        }
    }
}

impl View for SView {
    type V = SViewV;

    open spec fn view(&self) -> SViewV {
        SViewV {
            id: self.id,
            db: self.db,
            name: self.name@,
            layout: self.layout@,
            definition: self.definition@,
            ord: self.ord,
        }
    }
}

impl View for SRecord {
    type V = SRecordV;

    open spec fn view(&self) -> SRecordV {
        SRecordV { id: self.id, db: self.db, page: self.page, ord: self.ord }
    }
}

impl View for SValue {
    type V = SValueV;

    open spec fn view(&self) -> SValueV {
        SValueV {
            record: self.record,
            property: self.property,
            text: match self.text {
                Some(t) => Some(t@),
                None => None,
            },
            num: self.num,
            flag: self.flag,
            items: match self.items {
                Some(v) => Some(strings_view(v@)),
                None => None,
            },
        }
    }
}

impl View for SDatabase {
    type V = SDatabaseV;

    open spec fn view(&self) -> SDatabaseV {
        SDatabaseV {
            id: self.id,
            name: self.name@,
            template: self.template@,
            properties: self.properties@.map_values(|p: SProperty| p@),
            views: self.views@.map_values(|v: SView| v@),
            records: self.records@.map_values(|r: SRecord| r@),
            values: self.values@.map_values(|v: SValue| v@),
        }
    }
}

impl View for SyncSnapshot {
    type V = SyncSnapshotV;

    open spec fn view(&self) -> SyncSnapshotV {
        SyncSnapshotV {
            version: self.version,
            device_id: self.device_id@,
            device: self.device@,
            pages: self.pages@.map_values(|p: SPage| p@),
            blocks: self.blocks@.map_values(|b: SBlock| b@),
            attachments: self.attachments@.map_values(|a: SAttachment| a@),
            databases: self.databases@.map_values(|d: SDatabase| d@),
        }
    }
}

// ─── rows as the merge sees them ────────────────────────────────────────────

/// The views of a list of rows.
pub open spec fn rows_view<T: View>(s: Seq<T>) -> Seq<T::V> {
    s.map_values(|x: T| x@)
}

/// A wire row: it has an equality and a copy.
pub trait WireRow: View + Sized {
    /// Row equality as the wire type defines it.
    spec fn spec_same(a: Self::V, b: Self::V) -> bool;

    fn same(&self, other: &Self) -> (r: bool)
        ensures
            r == Self::spec_same(self@, other@),
    ;

    fn dup(&self) -> (r: Self)
        ensures
            r@ == self@,
    ;
}

/// A row of some synced collection: besides equality and a copy it has a
/// key (its identity within the collection) and the text a conflict line
/// names it by.
pub trait SyncRow: WireRow {
    /// The row's identity: a plain id as `(id, 0)`, a cell as
    /// `(record, property)`.
    spec fn spec_key(v: Self::V) -> (u64, u64);

    /// How a conflict line prints the key.
    spec fn spec_key_text(v: Self::V) -> Seq<char>;

    fn key(&self) -> (r: (u64, u64))
        ensures
            r == Self::spec_key(self@),
    ;

    fn key_text(&self) -> (r: String)
        ensures
            r@ == Self::spec_key_text(self@),
    ;
}

/// Two lists of rows are equal element by element.
pub open spec fn seq_same<T: WireRow>(a: Seq<T::V>, b: Seq<T::V>) -> bool {
    a.len() == b.len() && forall|i: int| 0 <= i < a.len() ==> T::spec_same(#[trigger] a[i], b[i])
}

/// A copy of a list of rows.
pub fn dup_rows<T: WireRow>(v: &Vec<T>) -> (r: Vec<T>)
    ensures
        rows_view(r@) == rows_view(v@),
{
    let mut out: Vec<T> = Vec::new();
    let mut i: usize = 0;
    while i < v.len()
        invariant
            i <= v@.len(),
            rows_view(out@) == rows_view(v@.take(i as int)),
        decreases v@.len() - i,
    {
        out.push(v[i].dup());
        proof {
            assert(rows_view(v@.take(i + 1)) =~= rows_view(v@.take(i as int)).push(v@[i as int]@));
        }
        i = i + 1;
        assert(rows_view(out@) =~= rows_view(v@.take(i as int)));
    }
    assert(v@.take(v@.len() as int) =~= v@);
    out
}

/// Compare two lists of rows element by element.
pub fn same_rows<T: WireRow>(a: &Vec<T>, b: &Vec<T>) -> (r: bool)
    ensures
        r == seq_same::<T>(rows_view(a@), rows_view(b@)),
{
    if a.len() != b.len() {
        return false;
    }
    let mut i: usize = 0;
    while i < a.len()
        invariant
            a@.len() == b@.len(),
            i <= a@.len(),
            forall|j: int| 0 <= j < i ==> T::spec_same(#[trigger] rows_view(a@)[j], rows_view(b@)[j]),
        decreases a@.len() - i,
    {
        if !a[i].same(&b[i]) {
            assert(!T::spec_same(rows_view(a@)[i as int], rows_view(b@)[i as int]));
            return false;
        }
        i = i + 1;
    }
    true
}

/// Is the 64-bit pattern a NaN?
pub open spec fn f64_bits_nan(x: u64) -> bool {
    (x & 0x7ff0_0000_0000_0000u64) == 0x7ff0_0000_0000_0000u64 && (x & 0x000f_ffff_ffff_ffffu64) != 0
}

/// Float equality on bit patterns: no NaN equals anything, the two zeros
/// are equal, every other pair is equal when the bits are.
pub open spec fn f64_bits_eq(a: u64, b: u64) -> bool {
    !f64_bits_nan(a) && !f64_bits_nan(b) && (a == b || ((a & 0x7fff_ffff_ffff_ffffu64) == 0 && (b
        & 0x7fff_ffff_ffff_ffffu64) == 0))
}

fn f64_eq(a: u64, b: u64) -> (r: bool)
    ensures
        r == f64_bits_eq(a, b),
{
    let a_nan = (a & 0x7ff0_0000_0000_0000u64) == 0x7ff0_0000_0000_0000u64 && (a & 0x000f_ffff_ffff_ffffu64) != 0;
    let b_nan = (b & 0x7ff0_0000_0000_0000u64) == 0x7ff0_0000_0000_0000u64 && (b & 0x000f_ffff_ffff_ffffu64) != 0;
    !a_nan && !b_nan && (a == b || ((a & 0x7fff_ffff_ffff_ffffu64) == 0 && (b & 0x7fff_ffff_ffff_ffffu64) == 0))
}

fn dup_strings(v: &Vec<String>) -> (r: Vec<String>)
    ensures
        strings_view(r@) == strings_view(v@),
{
    let mut out: Vec<String> = Vec::new();
    let mut i: usize = 0;
    while i < v.len()
        invariant
            i <= v@.len(),
            strings_view(out@) == strings_view(v@.take(i as int)),
        decreases v@.len() - i,
    {
        out.push(v[i].clone());
        proof {
            assert(strings_view(v@.take(i + 1)) =~= strings_view(v@.take(i as int)).push(v@[i as int]@));
        }
        i = i + 1;
        assert(strings_view(out@) =~= strings_view(v@.take(i as int)));
    }
    assert(v@.take(v@.len() as int) =~= v@);
    out
}

fn same_strings(a: &Vec<String>, b: &Vec<String>) -> (r: bool)
    ensures
        r == (strings_view(a@) == strings_view(b@)),
{
    if a.len() != b.len() {
        assert(strings_view(a@).len() != strings_view(b@).len());
        return false;
    }
    let mut i: usize = 0;
    while i < a.len()
        invariant
            a@.len() == b@.len(),
            i <= a@.len(),
            forall|j: int| 0 <= j < i ==> a@[j]@ == b@[j]@,
        decreases a@.len() - i,
    {
        if a[i] != b[i] {
            assert(strings_view(a@)[i as int] != strings_view(b@)[i as int]);
            return false;
        }
        i = i + 1;
    }
    assert(strings_view(a@) =~= strings_view(b@));
    true
}

fn opt_string_dup(s: &Option<String>) -> (r: Option<String>)
    ensures
        r is Some <==> s is Some,
        r is Some ==> r->0@ == s->0@,
{
    match s {
        Some(t) => Some(t.clone()),
        None => None,
    }
}

impl WireRow for SPage {
    open spec fn spec_same(a: SPageV, b: SPageV) -> bool {
        a == b
    }

    fn same(&self, o: &Self) -> (r: bool) {
        self.id == o.id && self.title == o.title && self.parent == o.parent && self.ord == o.ord
            && self.favorite == o.favorite && self.expanded == o.expanded && self.font == o.font
            && self.full_width == o.full_width && self.small_text == o.small_text && self.icon
            == o.icon && self.cover == o.cover && self.locked == o.locked && self.template
            == o.template
    }

    fn dup(&self) -> (r: Self) {
        SPage {
            id: self.id,
            title: self.title.clone(),
            parent: self.parent,
            ord: self.ord,
            favorite: self.favorite,
            expanded: self.expanded,
            font: self.font.clone(),
            full_width: self.full_width,
            small_text: self.small_text,
            icon: self.icon.clone(),
            cover: self.cover,
            locked: self.locked,
            template: self.template,
        }
    }
}

impl SyncRow for SPage {
    open spec fn spec_key(v: SPageV) -> (u64, u64) {
        (v.id, 0)
    }

    open spec fn spec_key_text(v: SPageV) -> Seq<char> {
        decimal(v.id as nat)
    }

    fn key(&self) -> (r: (u64, u64)) {
        (self.id, 0)
    }

    fn key_text(&self) -> (r: String) {
        decimal_text(self.id)
    }
}

impl WireRow for SMark {
    open spec fn spec_same(a: SMarkV, b: SMarkV) -> bool {
        a == b
    }

    fn same(&self, o: &Self) -> (r: bool) {
        self.start == o.start && self.end == o.end && self.kind == o.kind && self.payload == o.payload
    }

    fn dup(&self) -> (r: Self) {
        SMark { start: self.start, end: self.end, kind: self.kind.clone(), payload: self.payload.clone() }
    }
}

impl WireRow for SBlock {
    open spec fn spec_same(a: SBlockV, b: SBlockV) -> bool {
        a == b
    }

    fn same(&self, o: &Self) -> (r: bool) {
        let flat = self.id == o.id && self.page == o.page && self.parent == o.parent && self.ord
            == o.ord && self.kind == o.kind && self.text == o.text && self.checked == o.checked
            && self.folded == o.folded && self.color == o.color && self.background == o.background
            && self.page_ref == o.page_ref && self.sync_ref == o.sync_ref && self.attachment
            == o.attachment && self.img_percent == o.img_percent && self.columns == o.columns
            && self.lang == o.lang && self.db_ref == o.db_ref;
        if !flat {
            return false;
        }
        let m = same_rows(&self.marks, &o.marks);
        proof {
            if m {
                assert(rows_view(self.marks@) =~= rows_view(o.marks@));
            }
        }
        assert(self@.marks == rows_view(self.marks@));
        assert(o@.marks == rows_view(o.marks@));
        m
    }

    fn dup(&self) -> (r: Self) {
        let marks = dup_rows(&self.marks);
        SBlock {
            id: self.id,
            page: self.page,
            parent: self.parent,
            ord: self.ord,
            kind: self.kind.clone(),
            text: self.text.clone(),
            checked: self.checked,
            folded: self.folded,
            color: self.color.clone(),
            background: self.background.clone(),
            page_ref: self.page_ref,
            sync_ref: self.sync_ref,
            attachment: self.attachment,
            img_percent: self.img_percent,
            columns: self.columns,
            lang: self.lang.clone(),
            db_ref: self.db_ref,
            marks,
        }
    }
}

impl SyncRow for SBlock {
    open spec fn spec_key(v: SBlockV) -> (u64, u64) {
        (v.id, 0)
    }

    open spec fn spec_key_text(v: SBlockV) -> Seq<char> {
        decimal(v.id as nat)
    }

    fn key(&self) -> (r: (u64, u64)) {
        (self.id, 0)
    }

    fn key_text(&self) -> (r: String) {
        decimal_text(self.id)
    }
}

impl WireRow for SAttachment {
    open spec fn spec_same(a: SAttachmentV, b: SAttachmentV) -> bool {
        a == b
    }

    fn same(&self, o: &Self) -> (r: bool) {
        self.id == o.id && self.name == o.name && self.file == o.file && self.thumb == o.thumb
            && self.mime == o.mime && self.bytes == o.bytes && self.width == o.width && self.height
            == o.height
    }

    fn dup(&self) -> (r: Self) {
        SAttachment {
            id: self.id,
            name: self.name.clone(),
            file: self.file.clone(),
            thumb: self.thumb.clone(),
            mime: self.mime.clone(),
            bytes: self.bytes,
            width: self.width,
            height: self.height,
        }
    }
}

impl SyncRow for SAttachment {
    open spec fn spec_key(v: SAttachmentV) -> (u64, u64) {
        (v.id, 0)
    }

    open spec fn spec_key_text(v: SAttachmentV) -> Seq<char> {
        decimal(v.id as nat)
    }

    fn key(&self) -> (r: (u64, u64)) {
        (self.id, 0)
    }

    fn key_text(&self) -> (r: String) {
        decimal_text(self.id)
    }
}

impl WireRow for SProperty {
    open spec fn spec_same(a: SPropertyV, b: SPropertyV) -> bool {
        a == b
    }

    fn same(&self, o: &Self) -> (r: bool) {
        self.id == o.id && self.db == o.db && self.name == o.name && self.kind == o.kind
            && self.config == o.config && self.ord == o.ord
    }

    fn dup(&self) -> (r: Self) {
        SProperty {
            id: self.id,
            db: self.db,
            name: self.name.clone(),
            kind: self.kind.clone(),
            config: self.config.clone(),
            ord: self.ord,
        }
    }
}

impl SyncRow for SProperty {
    open spec fn spec_key(v: SPropertyV) -> (u64, u64) {
        (v.id, 0)
    }

    open spec fn spec_key_text(v: SPropertyV) -> Seq<char> {
        decimal(v.id as nat)
    }

    fn key(&self) -> (r: (u64, u64)) {
        (self.id, 0)
    }

    fn key_text(&self) -> (r: String) {
        decimal_text(self.id)
    }
}

impl WireRow for SView {
    open spec fn spec_same(a: SViewV, b: SViewV) -> bool {
        a == b
    }

    fn same(&self, o: &Self) -> (r: bool) {
        self.id == o.id && self.db == o.db && self.name == o.name && self.layout == o.layout
            && self.definition == o.definition && self.ord == o.ord
    }

    fn dup(&self) -> (r: Self) {
        SView {
            id: self.id,
            db: self.db,
            name: self.name.clone(),
            layout: self.layout.clone(),
            definition: self.definition.clone(),
            ord: self.ord,
        }
    }
}

impl SyncRow for SView {
    open spec fn spec_key(v: SViewV) -> (u64, u64) {
        (v.id, 0)
    }

    open spec fn spec_key_text(v: SViewV) -> Seq<char> {
        decimal(v.id as nat)
    }

    fn key(&self) -> (r: (u64, u64)) {
        (self.id, 0)
    }

    fn key_text(&self) -> (r: String) {
        decimal_text(self.id)
    }
}

impl WireRow for SRecord {
    open spec fn spec_same(a: SRecordV, b: SRecordV) -> bool {
        a == b
    }

    fn same(&self, o: &Self) -> (r: bool) {
        self.id == o.id && self.db == o.db && self.page == o.page && self.ord == o.ord
    }

    fn dup(&self) -> (r: Self) {
        SRecord { id: self.id, db: self.db, page: self.page, ord: self.ord }
    }
}

impl SyncRow for SRecord {
    open spec fn spec_key(v: SRecordV) -> (u64, u64) {
        (v.id, 0)
    }

    open spec fn spec_key_text(v: SRecordV) -> Seq<char> {
        decimal(v.id as nat)
    }

    fn key(&self) -> (r: (u64, u64)) {
        (self.id, 0)
    }

    fn key_text(&self) -> (r: String) {
        decimal_text(self.id)
    }
}

/// Cell equality: every column equal, the number by float equality.
pub open spec fn value_same(a: SValueV, b: SValueV) -> bool {
    &&& a.record == b.record
    &&& a.property == b.property
    &&& a.text == b.text
    &&& match (a.num, b.num) {
        (Some(x), Some(y)) => f64_bits_eq(x, y),
        (None, None) => true,
        _ => false,
    }
    &&& a.flag == b.flag
    &&& a.items == b.items
}

impl WireRow for SValue {
    open spec fn spec_same(a: SValueV, b: SValueV) -> bool {
        value_same(a, b)
    }

    fn same(&self, o: &Self) -> (r: bool) {
        if self.record != o.record || self.property != o.property {
            return false;
        }
        let text_eq = match (&self.text, &o.text) {
            (Some(x), Some(y)) => *x == *y,
            (None, None) => true,
            _ => false,
        };
        let num_eq = match (self.num, o.num) {
            (Some(x), Some(y)) => f64_eq(x, y),
            (None, None) => true,
            _ => false,
        };
        let items_eq = match (&self.items, &o.items) {
            (Some(x), Some(y)) => same_strings(x, y),
            (None, None) => true,
            _ => false,
        };
        text_eq && num_eq && self.flag == o.flag && items_eq
    }

    fn dup(&self) -> (r: Self) {
        let items = match &self.items {
            Some(v) => Some(dup_strings(v)),
            None => None,
        };
        SValue {
            record: self.record,
            property: self.property,
            text: opt_string_dup(&self.text),
            num: self.num,
            flag: self.flag,
            items,
        }
    }
}

impl SyncRow for SValue {
    open spec fn spec_key(v: SValueV) -> (u64, u64) {
        (v.record, v.property)
    }

    open spec fn spec_key_text(v: SValueV) -> Seq<char> {
        seq!['('] + decimal(v.record as nat) + seq![',', ' '] + decimal(v.property as nat) + seq![')']
    }

    fn key(&self) -> (r: (u64, u64)) {
        (self.record, self.property)
    }

    fn key_text(&self) -> (r: String) {
        let mut s = String::new();
        s.push('(');
        let a = decimal_text(self.record);
        s.append(a.as_str());
        s.push(',');
        s.push(' ');
        let b = decimal_text(self.property);
        s.append(b.as_str());
        s.push(')');
        assert(s@ =~= Self::spec_key_text(self@));
        s
    }
}

/// Database equality: the entity's own columns and every nested list.
pub open spec fn database_same(a: SDatabaseV, b: SDatabaseV) -> bool {
    &&& a.id == b.id
    &&& a.name == b.name
    &&& a.template == b.template
    &&& a.properties == b.properties
    &&& a.views == b.views
    &&& a.records == b.records
    &&& seq_same::<SValue>(a.values, b.values)
}

impl WireRow for SDatabase {
    open spec fn spec_same(a: SDatabaseV, b: SDatabaseV) -> bool {
        database_same(a, b)
    }

    fn same(&self, o: &Self) -> (r: bool) {
        if !(self.id == o.id && self.name == o.name && self.template == o.template) {
            return false;
        }
        let p = same_rows(&self.properties, &o.properties);
        let v = same_rows(&self.views, &o.views);
        let r = same_rows(&self.records, &o.records);
        let c = same_rows(&self.values, &o.values);
        proof {
            if p {
                assert(rows_view(self.properties@) =~= rows_view(o.properties@));
            }
            if v {
                assert(rows_view(self.views@) =~= rows_view(o.views@));
            }
            if r {
                assert(rows_view(self.records@) =~= rows_view(o.records@));
            }
        }
        assert(self@.properties == rows_view(self.properties@));
        assert(o@.properties == rows_view(o.properties@));
        assert(self@.views == rows_view(self.views@));
        assert(o@.views == rows_view(o.views@));
        assert(self@.records == rows_view(self.records@));
        assert(o@.records == rows_view(o.records@));
        assert(self@.values == rows_view(self.values@));
        assert(o@.values == rows_view(o.values@));
        p && v && r && c
    }

    fn dup(&self) -> (r: Self) {
        let properties = dup_rows(&self.properties);
        let views = dup_rows(&self.views);
        let records = dup_rows(&self.records);
        let values = dup_rows(&self.values);
        let r = SDatabase {
            id: self.id,
            name: self.name.clone(),
            template: self.template.clone(),
            properties,
            views,
            records,
            values,
        };
        assert(r@.properties == rows_view(r.properties@));
        assert(self@.properties == rows_view(self.properties@));
        assert(r@.views == rows_view(r.views@));
        assert(self@.views == rows_view(self.views@));
        assert(r@.records == rows_view(r.records@));
        assert(self@.records == rows_view(self.records@));
        assert(r@.values == rows_view(r.values@));
        assert(self@.values == rows_view(self.values@));
        r
    }
}

impl SyncRow for SDatabase {
    open spec fn spec_key(v: SDatabaseV) -> (u64, u64) {
        (v.id, 0)
    }

    open spec fn spec_key_text(v: SDatabaseV) -> Seq<char> {
        decimal(v.id as nat)
    }

    fn key(&self) -> (r: (u64, u64)) {
        (self.id, 0)
    }

    fn key_text(&self) -> (r: String) {
        decimal_text(self.id)
    }
}

// ─── conversions: document rows ↔ wire rows ─────────────────────────────────

pub open spec fn opt_page_id(v: Option<PageId>) -> Option<u64> {
    match v {
        Some(x) => Some(x.0),
        None => None,
    }
}

pub open spec fn opt_block_id(v: Option<BlockId>) -> Option<u64> {
    match v {
        Some(x) => Some(x.0),
        None => None,
    }
}

pub open spec fn opt_attachment_id(v: Option<AttachmentId>) -> Option<u64> {
    match v {
        Some(x) => Some(x.0),
        None => None,
    }
}

pub open spec fn opt_database_id(v: Option<DatabaseId>) -> Option<u64> {
    match v {
        Some(x) => Some(x.0),
        None => None,
    }
}

pub open spec fn opt_string_view(v: Option<String>) -> Option<Seq<char>> {
    match v {
        Some(x) => Some(x@),
        None => None,
    }
}

/// The wire row of a stored page.
pub open spec fn page_row(p: doc::Page) -> SPageV {
    SPageV {
        id: p.id.0,
        title: p.title@,
        parent: opt_page_id(p.parent),
        ord: p.order.0,
        favorite: p.favorite,
        expanded: p.expanded,
        font: p.font.spec_name(),
        full_width: p.full_width,
        small_text: p.small_text,
        icon: p.icon@,
        cover: opt_attachment_id(p.cover),
        locked: p.locked,
        template: p.template,
    }
}

/// The font a stored spelling names; an unknown spelling reads as the
/// default font.
pub open spec fn font_of(s: Seq<char>) -> PageFont {
    match PageFont::spec_from_name(s) {
        Some(f) => f,
        None => PageFont::Default,
    }
}

/// `p` is the page a wire row reads back as.
pub open spec fn page_from_row(p: doc::Page, v: SPageV) -> bool {
    &&& p.id == PageId(v.id)
    &&& p.title@ == v.title
    &&& opt_page_id(p.parent) == v.parent
    &&& p.order == OrderKey(v.ord)
    &&& p.favorite == v.favorite
    &&& p.expanded == v.expanded
    &&& p.font == font_of(v.font)
    &&& p.full_width == v.full_width
    &&& p.small_text == v.small_text
    &&& p.icon@ == v.icon
    &&& opt_attachment_id(p.cover) == v.cover
    &&& p.locked == v.locked
    &&& p.template == v.template
}

impl SPage {
    /// The wire row of a stored page.
    pub fn from_page(p: &doc::Page) -> (r: SPage)
        ensures
            r@ == page_row(*p),
    {
        SPage {
            id: p.id.0,
            title: p.title.clone(),
            parent: match p.parent {
                Some(v) => Some(v.0),
                None => None,
            },
            ord: p.order.0,
            favorite: p.favorite,
            expanded: p.expanded,
            font: String::from_str(p.font.as_str()),
            full_width: p.full_width,
            small_text: p.small_text,
            icon: p.icon.clone(),
            cover: match p.cover {
                Some(v) => Some(v.0),
                None => None,
            },
            locked: p.locked,
            template: p.template,
        }
    }

    /// The stored page this row describes; an unknown font spelling reads as
    /// the default font.
    pub fn to_core(&self) -> (r: doc::Page)
        ensures
            page_from_row(r, self@),
    {
        let font = match PageFont::try_from_str(self.font.as_str()) {
            Some(f) => f,
            None => PageFont::Default,
        };
        doc::Page {
            id: PageId(self.id),
            title: self.title.clone(),
            parent: match self.parent {
                Some(v) => Some(PageId(v)),
                None => None,
            },
            order: OrderKey(self.ord),
            favorite: self.favorite,
            expanded: self.expanded,
            font,
            full_width: self.full_width,
            small_text: self.small_text,
            icon: self.icon.clone(),
            cover: match self.cover {
                Some(v) => Some(AttachmentId(v)),
                None => None,
            },
            locked: self.locked,
            template: self.template,
        }
    }
}

impl<'a> From<&'a doc::Page> for SPage {
    fn from(p: &'a doc::Page) -> (r: SPage)
        ensures
            r@ == page_row(*p),
    {
        SPage::from_page(p)
    }
}

impl<'a> vstd::std_specs::convert::FromSpecImpl<&'a doc::Page> for SPage {
    open spec fn obeys_from_spec() -> bool {
        false
    }

    open spec fn from_spec(p: &'a doc::Page) -> SPage {
        arbitrary()
    }
}

/// Reading a page back from its wire row gives the page.
pub proof fn lemma_page_round_trip(p: doc::Page)
    ensures
        page_from_row(p, page_row(p)),
{
    p.font.lemma_name_round_trip();
}

/// The wire row of a mark: its kind's spelling and its one payload column.
pub open spec fn mark_row(m: doc::Mark) -> SMarkV {
    SMarkV {
        start: m.start,
        end: m.end,
        kind: m.kind.spec_name(),
        payload: doc::spec_stored_payload(m.kind, m.url@, opt_string_view(m.date)),
    }
}

/// The mark kind a stored spelling names; an unknown spelling reads as bold.
pub open spec fn mark_kind_of(s: Seq<char>) -> MarkKind {
    match MarkKind::spec_from_name(s) {
        Some(k) => k,
        None => MarkKind::Bold,
    }
}

/// `m` is the mark a wire row reads back as: a date mark's payload is its
/// date, any other mark's payload is its url.
pub open spec fn mark_from_row(m: doc::Mark, v: SMarkV) -> bool {
    &&& m.start == v.start
    &&& m.end == v.end
    &&& m.kind == mark_kind_of(v.kind)
    &&& if m.kind == MarkKind::Date {
        m.url@ == Seq::<char>::empty() && opt_string_view(m.date) == Some(v.payload)
    } else {
        m.url@ == v.payload && m.date is None
    }
}

impl SMark {
    pub fn from_mark(m: &doc::Mark) -> (r: SMark)
        ensures
            r@ == mark_row(*m),
    {
        let payload = m.stored_payload();
        SMark { start: m.start, end: m.end, kind: String::from_str(m.kind.as_str()), payload }
    }

    pub fn to_core(&self) -> (r: doc::Mark)
        ensures
            mark_from_row(r, self@),
    {
        let kind = match MarkKind::try_from_str(self.kind.as_str()) {
            Some(k) => k,
            None => MarkKind::Bold,
        };
        doc::Mark::from_stored(self.start, self.end, kind, self.payload.clone())
    }
}

impl<'a> From<&'a doc::Mark> for SMark {
    fn from(m: &'a doc::Mark) -> (r: SMark)
        ensures
            r@ == mark_row(*m),
    {
        SMark::from_mark(m)
    }
}

impl<'a> vstd::std_specs::convert::FromSpecImpl<&'a doc::Mark> for SMark {
    open spec fn obeys_from_spec() -> bool {
        false
    }

    open spec fn from_spec(m: &'a doc::Mark) -> SMark {
        arbitrary()
    }
}

/// The wire row of a stored block.
pub open spec fn block_row(b: doc::Block) -> SBlockV {
    SBlockV {
        id: b.id.0,
        page: b.page.0,
        parent: opt_block_id(b.parent),
        ord: b.order.0,
        kind: b.kind.spec_name(),
        text: b.text@,
        checked: b.checked,
        folded: b.folded,
        color: b.color.spec_name(),
        background: b.background.spec_name(),
        page_ref: opt_page_id(b.page_ref),
        sync_ref: opt_block_id(b.sync_ref),
        attachment: opt_attachment_id(b.attachment),
        img_percent: b.img_percent,
        columns: b.columns,
        lang: b.lang.spec_name(),
        db_ref: opt_database_id(b.db_ref),
        marks: b.marks@.map_values(|m: doc::Mark| mark_row(m)),
    }
}

pub open spec fn block_kind_of(s: Seq<char>) -> BlockKind {
    match BlockKind::spec_from_name(s) {
        Some(k) => k,
        None => BlockKind::Paragraph,
    }
}

pub open spec fn color_of(s: Seq<char>) -> ColorKind {
    match ColorKind::spec_from_name(s) {
        Some(k) => k,
        None => ColorKind::Default,
    }
}

pub open spec fn lang_of(s: Seq<char>) -> Lang {
    match Lang::spec_from_name(s) {
        Some(k) => k,
        None => Lang::Plain,
    }
}

/// `b` is the block a wire row reads back as; unknown spellings read as a
/// paragraph, the default colour and plain text.
pub open spec fn block_from_row(b: doc::Block, v: SBlockV) -> bool {
    &&& b.id == BlockId(v.id)
    &&& b.page == PageId(v.page)
    &&& opt_block_id(b.parent) == v.parent
    &&& b.order == OrderKey(v.ord)
    &&& b.kind == block_kind_of(v.kind)
    &&& b.text@ == v.text
    &&& b.checked == v.checked
    &&& b.marks@.len() == v.marks.len()
    &&& forall|i: int| 0 <= i < v.marks.len() ==> mark_from_row(#[trigger] b.marks@[i], v.marks[i])
    &&& b.color == color_of(v.color)
    &&& b.background == color_of(v.background)
    &&& opt_page_id(b.page_ref) == v.page_ref
    &&& b.folded == v.folded
    &&& opt_attachment_id(b.attachment) == v.attachment
    &&& b.img_percent == v.img_percent
    &&& b.columns == v.columns
    &&& b.lang == lang_of(v.lang)
    &&& opt_database_id(b.db_ref) == v.db_ref
    &&& opt_block_id(b.sync_ref) == v.sync_ref
}

impl SBlock {
    pub fn from_block(b: &doc::Block) -> (r: SBlock)
        ensures
            r@ == block_row(*b),
    {
        let mut marks: Vec<SMark> = Vec::new();
        let mut i: usize = 0;
        while i < b.marks.len()
            invariant
                i <= b.marks@.len(),
                marks@.len() == i,
                forall|j: int| 0 <= j < i ==> (#[trigger] marks@[j])@ == mark_row(b.marks@[j]),
            decreases b.marks@.len() - i,
        {
            marks.push(SMark::from_mark(&b.marks[i]));
            i = i + 1;
        }
        let r = SBlock {
            id: b.id.0,
            page: b.page.0,
            parent: match b.parent {
                Some(v) => Some(v.0),
                None => None,
            },
            ord: b.order.0,
            kind: String::from_str(b.kind.as_str()),
            text: b.text.clone(),
            checked: b.checked,
            folded: b.folded,
            color: String::from_str(b.color.as_str()),
            background: String::from_str(b.background.as_str()),
            page_ref: match b.page_ref {
                Some(v) => Some(v.0),
                None => None,
            },
            sync_ref: match b.sync_ref {
                Some(v) => Some(v.0),
                None => None,
            },
            attachment: match b.attachment {
                Some(v) => Some(v.0),
                None => None,
            },
            img_percent: b.img_percent,
            columns: b.columns,
            lang: String::from_str(b.lang.as_str()),
            db_ref: match b.db_ref {
                Some(v) => Some(v.0),
                None => None,
            },
            marks,
        };
        assert(r@.marks =~= block_row(*b).marks);
        r
    }

    pub fn to_core(&self) -> (r: doc::Block)
        ensures
            block_from_row(r, self@),
    {
        let mut marks: Vec<doc::Mark> = Vec::new();
        let mut i: usize = 0;
        while i < self.marks.len()
            invariant
                i <= self.marks@.len(),
                marks@.len() == i,
                forall|j: int| 0 <= j < i ==> mark_from_row(#[trigger] marks@[j], self.marks@[j]@),
            decreases self.marks@.len() - i,
        {
            marks.push(self.marks[i].to_core());
            i = i + 1;
        }
        let kind = match BlockKind::try_from_str(self.kind.as_str()) {
            Some(k) => k,
            None => BlockKind::Paragraph,
        };
        let color = match ColorKind::try_from_str(self.color.as_str()) {
            Some(k) => k,
            None => ColorKind::Default,
        };
        let background = match ColorKind::try_from_str(self.background.as_str()) {
            Some(k) => k,
            None => ColorKind::Default,
        };
        let lang = match Lang::try_from_str(self.lang.as_str()) {
            Some(k) => k,
            None => Lang::Plain,
        };
        doc::Block {
            id: BlockId(self.id),
            page: PageId(self.page),
            parent: match self.parent {
                Some(v) => Some(BlockId(v)),
                None => None,
            },
            order: OrderKey(self.ord),
            kind,
            text: self.text.clone(),
            checked: self.checked,
            marks,
            color,
            background,
            page_ref: match self.page_ref {
                Some(v) => Some(PageId(v)),
                None => None,
            },
            folded: self.folded,
            attachment: match self.attachment {
                Some(v) => Some(AttachmentId(v)),
                None => None,
            },
            img_percent: self.img_percent,
            columns: self.columns,
            lang,
            db_ref: match self.db_ref {
                Some(v) => Some(DatabaseId(v)),
                None => None,
            },
            sync_ref: match self.sync_ref {
                Some(v) => Some(BlockId(v)),
                None => None,
            },
        }
    }
}

impl<'a> From<&'a doc::Block> for SBlock {
    fn from(b: &'a doc::Block) -> (r: SBlock)
        ensures
            r@ == block_row(*b),
    {
        SBlock::from_block(b)
    }
}

impl<'a> vstd::std_specs::convert::FromSpecImpl<&'a doc::Block> for SBlock {
    open spec fn obeys_from_spec() -> bool {
        false
    }

    open spec fn from_spec(b: &'a doc::Block) -> SBlock {
        arbitrary()
    }
}

/// A mark carries exactly the payload its kind stores: a date mark has a
/// date and no url, any other mark has no date.
pub open spec fn mark_is_plain(m: doc::Mark) -> bool {
    if m.kind == MarkKind::Date {
        m.url@ == Seq::<char>::empty() && m.date is Some
    } else {
        m.date is None
    }
}

/// Reading a mark back from its wire row gives the mark exactly when the
/// mark carries only what its kind stores (one payload column holds a date
/// mark's date or another mark's url).
pub proof fn lemma_mark_round_trip(m: doc::Mark)
    ensures
        mark_from_row(m, mark_row(m)) <==> mark_is_plain(m),
{
    m.kind.lemma_name_round_trip();
}

/// Reading a block back from its wire row gives the block exactly when each
/// of its marks carries only what its kind stores.
pub proof fn lemma_block_round_trip(b: doc::Block)
    ensures
        block_from_row(b, block_row(b)) <==> forall|i: int| 0 <= i < b.marks@.len() ==> mark_is_plain(#[trigger] b.marks@[i]),
{
    b.kind.lemma_name_round_trip();
    b.color.lemma_name_round_trip();
    b.background.lemma_name_round_trip();
    b.lang.lemma_name_round_trip();
    assert forall|i: int| 0 <= i < b.marks@.len() implies (mark_from_row(#[trigger] b.marks@[i], block_row(b).marks[i]) <==> mark_is_plain(
        b.marks@[i],
    )) by {
        lemma_mark_round_trip(b.marks@[i]);
        assert(block_row(b).marks[i] == mark_row(b.marks@[i]));
    }
}

/// The wire row of a stored attachment.
pub open spec fn attachment_row(a: doc::Attachment) -> SAttachmentV {
    SAttachmentV {
        id: a.id.0,
        name: a.name@,
        file: a.file@,
        thumb: a.thumb@,
        mime: a.mime@,
        bytes: a.bytes,
        width: a.width,
        height: a.height,
    }
}

impl SAttachment {
    pub fn from_attachment(a: &doc::Attachment) -> (r: SAttachment)
        ensures
            r@ == attachment_row(*a),
    {
        SAttachment {
            id: a.id.0,
            name: a.name.clone(),
            file: a.file.clone(),
            thumb: a.thumb.clone(),
            mime: a.mime.clone(),
            bytes: a.bytes,
            width: a.width,
            height: a.height,
        }
    }

    pub fn to_core(&self) -> (r: doc::Attachment)
        ensures
            attachment_row(r) == self@,
            r.id == AttachmentId(self.id),
    {
        doc::Attachment {
            id: AttachmentId(self.id),
            name: self.name.clone(),
            file: self.file.clone(),
            thumb: self.thumb.clone(),
            mime: self.mime.clone(),
            bytes: self.bytes,
            width: self.width,
            height: self.height,
        }
    }
}

impl<'a> From<&'a doc::Attachment> for SAttachment {
    fn from(a: &'a doc::Attachment) -> (r: SAttachment)
        ensures
            r@ == attachment_row(*a),
    {
        SAttachment::from_attachment(a)
    }
}

impl<'a> vstd::std_specs::convert::FromSpecImpl<&'a doc::Attachment> for SAttachment {
    open spec fn obeys_from_spec() -> bool {
        false
    }

    open spec fn from_spec(a: &'a doc::Attachment) -> SAttachment {
        arbitrary()
    }
}

impl SProperty {
    /// The database column this row describes; an unknown kind reads as text.
    pub fn to_core(&self) -> (r: doc::Property)
        ensures
            r.id == PropertyId(self.id),
            r.db == DatabaseId(self.db),
            r.name@ == self.name@,
            r.kind == (match PropertyKind::spec_from_name(self.kind@) {
                Some(k) => k,
                None => PropertyKind::Text,
            }),
            r.config@ == self.config@,
            r.ord == OrderKey(self.ord),
    {
        let kind = match PropertyKind::try_from_str(self.kind.as_str()) {
            Some(k) => k,
            None => PropertyKind::Text,
        };
        doc::Property {
            id: PropertyId(self.id),
            db: DatabaseId(self.db),
            name: self.name.clone(),
            kind,
            config: self.config.clone(),
            ord: OrderKey(self.ord),
        }
    }
}

impl SView {
    /// The database view this row describes; an unknown layout reads as a
    /// table.
    pub fn to_core(&self) -> (r: doc::DatabaseView)
        ensures
            r.id == ViewId(self.id),
            r.db == DatabaseId(self.db),
            r.name@ == self.name@,
            r.layout == (match ViewLayout::spec_from_name(self.layout@) {
                Some(k) => k,
                None => ViewLayout::Table,
            }),
            r.definition@ == self.definition@,
            r.ord == OrderKey(self.ord),
    {
        let layout = match ViewLayout::try_from_str(self.layout.as_str()) {
            Some(k) => k,
            None => ViewLayout::Table,
        };
        doc::DatabaseView {
            id: ViewId(self.id),
            db: DatabaseId(self.db),
            name: self.name.clone(),
            layout,
            definition: self.definition.clone(),
            ord: OrderKey(self.ord),
        }
    }
}

impl SRecord {
    pub fn to_core_record(&self) -> (r: doc::Record)
        ensures
            r.id == RecordId(self.id),
            r.db == DatabaseId(self.db),
            opt_page_id(r.page) == self.page,
            r.ord == OrderKey(self.ord),
    {
        doc::Record {
            id: RecordId(self.id),
            db: DatabaseId(self.db),
            page: match self.page {
                Some(v) => Some(PageId(v)),
                None => None,
            },
            ord: OrderKey(self.ord),
        }
    }
}

/// One database entity as a wire row: schema only, every nested list empty.
pub fn database_row(d: &doc::Database) -> (r: SDatabase)
    ensures
        r@.id == d.id.0,
        r@.name == d.name@,
        r@.template == d.template@,
        r@.properties.len() == 0,
        r@.views.len() == 0,
        r@.records.len() == 0,
        r@.values.len() == 0,
{
    SDatabase {
        id: d.id.0,
        name: d.name.clone(),
        template: d.template.clone(),
        properties: Vec::new(),
        views: Vec::new(),
        records: Vec::new(),
        values: Vec::new(),
    }
}

impl SDatabase {
    pub fn to_core_entity(&self) -> (r: doc::Database)
        ensures
            r.id == DatabaseId(self.id),
            r.name@ == self.name@,
            r.template@ == self.template@,
    {
        doc::Database { id: DatabaseId(self.id), name: self.name.clone(), template: self.template.clone() }
    }
}

// ─── the snapshot as a whole ────────────────────────────────────────────────

impl Default for SyncSnapshot {
    /// An empty snapshot in this build's protocol version.
    fn default() -> (r: SyncSnapshot)
        ensures
            r@.version == SNAPSHOT_VERSION,
            r@.device_id.len() == 0,
            r@.device.len() == 0,
            r@.pages.len() == 0,
            r@.blocks.len() == 0,
            r@.attachments.len() == 0,
            r@.databases.len() == 0,
    {
        SyncSnapshot {
            version: SNAPSHOT_VERSION,
            device_id: String::new(),
            device: String::new(),
            pages: Vec::new(),
            blocks: Vec::new(),
            attachments: Vec::new(),
            databases: Vec::new(),
        }
    }
}

/// The refusal of a snapshot in another protocol version.
pub open spec fn version_refusal(v: u32) -> Seq<char> {
    "snapshot version "@ + decimal(v as nat) + " unsupported (this build speaks "@ + decimal(
        SNAPSHOT_VERSION as nat,
    ) + ")"@
}

impl SyncSnapshot {
    /// The number of carried rows, for logs.
    pub fn row_count(&self) -> (r: usize)
        requires
            self.pages@.len() + self.blocks@.len() + self.attachments@.len() + self.databases@.len() <= usize::MAX,
        ensures
            r == self.pages@.len() + self.blocks@.len() + self.attachments@.len() + self.databases@.len(),
    {
        self.pages.len() + self.blocks.len() + self.attachments.len() + self.databases.len()
    }

    /// A parsed snapshot is accepted only in this build's protocol version;
    /// a peer that speaks another one is refused rather than half-understood.
    pub fn checked_version(self) -> (r: Result<SyncSnapshot, String>)
        ensures
            self.version == SNAPSHOT_VERSION <==> r is Ok,
            r matches Ok(s) ==> s@ == self@,
            r matches Err(e) ==> e@ == version_refusal(self.version),
    {
        if self.version != SNAPSHOT_VERSION {
            let mut e = String::from_str("snapshot version ");
            let v = decimal_text(self.version as u64);
            e.append(v.as_str());
            e.append(" unsupported (this build speaks ");
            let w = decimal_text(SNAPSHOT_VERSION as u64);
            e.append(w.as_str());
            e.append(")");
            return Err(e);
        }
        Ok(self)
    }
}

} // verus!
