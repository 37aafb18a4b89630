//! Manifest codec, validation and entity mapping.
//!
//! No IO: this module parses and serializes the `.vaultsync/manifest/v1.json`
//! body and maps entries to and from [`Entity`]. The inventory facade owns
//! the store calls.

use vstd::prelude::*;
use vstd::utf8::*;
use crate::entity;
use crate::entity::{clone_opt_string, ensure_valid_key, Entity, EntityView};
use crate::error::{Error, ErrorView};
use crate::json;
use crate::json::{
    object_fields, quote_string, read_array, take_opt_string, take_opt_u64, take_string, take_u64,
    write_array, write_object,
};
use crate::local;
use crate::local::is_vaultsync_control_plane_key;
use crate::plan;
use crate::plan::ascending_set;
use crate::sort;
use crate::sort::{sort_by_key, Keyed};
use crate::text;
use crate::text::{cat2, cat3, chars_of, debug_string, decimal, same_text, string_of};

verus! {

/// The only accepted schema id. Unknown schema => reject.
pub const MANIFEST_SCHEMA: &'static str = "vaultsync.manifest.v1";

/// Soft cap on a manifest body in bytes: parse and read refuse a manifest
/// larger than this, to bound memory on pathological stores.
pub const MANIFEST_MAX_BYTES: u64 = 67_108_864;

/// A parsed manifest body (v1 schema). v1 is a closed schema: unknown fields
/// fail, so that a typo'd hand-edit never silently drops data.
#[derive(Debug, PartialEq)]
pub struct ManifestV1 {
    pub schema: String,
    pub created_ms: u64,
    pub generator: Option<String>,
    pub prefix: Option<String>,
    pub entry_count: usize,
    pub entries: Vec<ManifestEntry>,
}

/// One file entry. `mtime_ms` is JSON `null` when unknown; `etag` is optional.
#[derive(Debug, PartialEq, Eq)]
pub struct ManifestEntry {
    pub key: String,
    pub size: u64,
    pub mtime_ms: Option<u64>,
    pub etag: Option<String>,
}

/// The mathematical view of a [`ManifestV1`].
pub struct ManifestView {
    pub schema: Seq<char>,
    pub created_ms: u64,
    pub generator: Option<Seq<char>>,
    pub prefix: Option<Seq<char>>,
    pub entry_count: usize,
    pub entries: Seq<EntityView>,
}

impl View for ManifestEntry {
    type V = EntityView;

    open spec fn view(&self) -> EntityView {
        EntityView {
            key: self.key@,
            size: self.size,
            mtime_ms: self.mtime_ms,
            etag: text::opt_text(self.etag),
        }
    }
}

/// The views of a sequence of entries.
pub open spec fn entries(v: Seq<ManifestEntry>) -> Seq<EntityView> {
    Seq::new(v.len(), |i: int| v[i]@)
}

impl View for ManifestV1 {
    type V = ManifestView;

    open spec fn view(&self) -> ManifestView {
        ManifestView {
            schema: self.schema@,
            created_ms: self.created_ms,
            generator: text::opt_text(self.generator),
            prefix: text::opt_text(self.prefix),
            entry_count: self.entry_count,
            entries: entries(self.entries@),
        }
    }
}

impl Keyed for Entity {
    open spec fn key_of(v: EntityView) -> Seq<char> {
        v.key
    }

    fn key_text(&self) -> (r: &str) {
        self.key.as_str()
    }
}

/// The entities by ascending key; those with the same key keep their order.
pub open spec fn by_key(s: Seq<EntityView>) -> Seq<EntityView> {
    sort::sorted::<Entity>(s)
}

/// Sorts entities by key.
pub fn sort_entities(v: Vec<Entity>) -> (r: Vec<Entity>)
    ensures
        entity::entities(r@) == by_key(entity::entities(v@)),
{
    let ghost all = entity::entities(v@);
    assert(sort::views(v@) =~= all);
    let r = sort_by_key(v);
    assert(sort::views(r@) =~= entity::entities(r@));
    r
}

/// Entries as entities.
fn to_entities(v: &Vec<ManifestEntry>) -> (r: Vec<Entity>)
    ensures
        entity::entities(r@) == entries(v@),
{
    let mut out: Vec<Entity> = Vec::new();
    let mut i: usize = 0;
    while i < v.len()
        invariant
            i <= v@.len(),
            entity::entities(out@) == entries(v@).take(i as int),
        decreases v@.len() - i,
    {
        let ghost prev = entity::entities(out@);
        out.push(
            Entity {
                key: v[i].key.clone(),
                size: v[i].size,
                mtime_ms: v[i].mtime_ms,
                etag: clone_opt_string(&v[i].etag),
            },
        );
        assert(entity::entities(out@) =~= prev.push(v@[i as int]@));
        assert(entries(v@).take(i + 1) =~= entries(v@).take(i as int).push(entries(v@)[i as int]));
        i = i + 1;
    }
    assert(entries(v@).take(i as int) =~= entries(v@));
    out
}

/// Entities as entries.
fn to_entries(v: &[Entity]) -> (r: Vec<ManifestEntry>)
    ensures
        entries(r@) == entity::entities(v@),
        r@.len() == v@.len(),
{
    let mut out: Vec<ManifestEntry> = Vec::new();
    let mut i: usize = 0;
    while i < v.len()
        invariant
            i <= v@.len(),
            out@.len() == i,
            entries(out@) == entity::entities(v@).take(i as int),
        decreases v@.len() - i,
    {
        let ghost prev = entries(out@);
        out.push(
            ManifestEntry {
                key: v[i].key.clone(),
                size: v[i].size,
                mtime_ms: v[i].mtime_ms,
                etag: clone_opt_string(&v[i].etag),
            },
        );
        assert(entries(out@) =~= prev.push(v@[i as int]@));
        assert(entity::entities(v@).take(i + 1) =~= entity::entities(v@).take(i as int).push(
            entity::entities(v@)[i as int],
        ));
        i = i + 1;
    }
    assert(entity::entities(v@).take(i as int) =~= entity::entities(v@));
    out
}

/// What is wrong with one row of a manifest.
pub enum RowFault {
    /// Folder rows are not stored.
    Folder,
    /// The key is not valid; carries the message.
    Invalid(Seq<char>),
    /// Control-plane keys are not stored.
    Reserved,
    /// An earlier row has the same key.
    Duplicate,
}

/// Whether an earlier row has the key of row `i`.
pub open spec fn repeats(rows: Seq<EntityView>, i: int) -> bool {
    exists|j: int| 0 <= j < i && (#[trigger] rows[j]).key == rows[i].key
}

/// What is wrong with row `i`, if anything.
pub open spec fn row_fault(rows: Seq<EntityView>, i: int) -> Option<RowFault> {
    if rows[i].folder() {
        Some(RowFault::Folder)
    } else if entity::key_fault(rows[i].key) is Some {
        Some(RowFault::Invalid(entity::key_fault(rows[i].key)->0))
    } else if local::control_plane(rows[i].key) {
        Some(RowFault::Reserved)
    } else if repeats(rows, i) {
        Some(RowFault::Duplicate)
    } else {
        None
    }
}

/// The first row from `i` on with a fault.
pub open spec fn bad_row(rows: Seq<EntityView>, i: int) -> Option<int>
    decreases rows.len() - i,
{
    if i < 0 || i >= rows.len() {
        None
    } else if row_fault(rows, i) is Some {
        Some(i)
    } else {
        bad_row(rows, i + 1)
    }
}

/// Whether every row may be stored in a manifest.
pub open spec fn storable(rows: Seq<EntityView>) -> bool {
    forall|i: int| 0 <= i < rows.len() ==> row_fault(rows, i) is None
}

/// No row has a fault if and only if there is no first one with a fault.
pub proof fn lemma_storable(rows: Seq<EntityView>, i: int)
    requires
        0 <= i <= rows.len(),
    ensures
        bad_row(rows, i) is None <==> forall|j: int|
            i <= j < rows.len() ==> row_fault(rows, j) is None,
    decreases rows.len() - i,
{
    if i < rows.len() {
        lemma_storable(rows, i + 1);
    }
}

/// The reader's error for a faulty row.
pub open spec fn read_error(key: Seq<char>, fault: RowFault) -> ErrorView {
    match fault {
        RowFault::Folder => ErrorView::Other(
            "inventory manifest is corrupt: folder entry "@ + text::debug_text(key)
                + " (folder rows are not stored); run vaultsync repair to rebuild it"@,
        ),
        RowFault::Invalid(m) => ErrorView::InvalidKey(m),
        RowFault::Reserved => ErrorView::Other(
            "inventory manifest is corrupt: reserved entry "@ + text::debug_text(key)
                + " (control-plane keys are not stored); run vaultsync repair to rebuild it"@,
        ),
        RowFault::Duplicate => ErrorView::Other(
            "inventory manifest is corrupt: duplicate entry key "@ + text::debug_text(key)
                + "; run vaultsync repair to rebuild it"@,
        ),
    }
}

/// The writer's error for a faulty row.
pub open spec fn write_error(key: Seq<char>, fault: RowFault) -> ErrorView {
    match fault {
        RowFault::Folder => ErrorView::Other(
            "cannot write folder entity "@ + text::debug_text(key)
                + " into the manifest (folder rows are not stored)"@,
        ),
        RowFault::Invalid(m) => ErrorView::InvalidKey(m),
        RowFault::Reserved => ErrorView::Other(
            "cannot write reserved key "@ + text::debug_text(key)
                + " into the manifest (control-plane keys are not stored)"@,
        ),
        RowFault::Duplicate => ErrorView::Other(
            "duplicate key "@ + text::debug_text(key) + " in manifest writer input"@,
        ),
    }
}

/// Checks every row, for the reader or for the writer of a manifest.
fn check_rows(rows: &[Entity], writing: bool) -> (r: Result<(), Error>)
    ensures
        match r {
            Ok(()) => bad_row(entity::entities(rows@), 0) is None,
            Err(e) => match bad_row(entity::entities(rows@), 0) {
                Some(i) => {
                    let all = entity::entities(rows@);
                    &&& 0 <= i < all.len()
                    &&& row_fault(all, i) is Some
                    &&& e@ == if writing {
                        write_error(all[i].key, row_fault(all, i)->0)
                    } else {
                        read_error(all[i].key, row_fault(all, i)->0)
                    }
                },
                None => false,
            },
        },
{
    let ghost all = entity::entities(rows@);
    let mut i: usize = 0;
    while i < rows.len()
        invariant
            i <= rows@.len(),
            all == entity::entities(rows@),
            bad_row(all, 0) == bad_row(all, i as int),
        decreases rows@.len() - i,
    {
        let key: &str = rows[i].key.as_str();
        assert(all[i as int] == rows@[i as int]@);
        if rows[i].is_folder() {
            let d = debug_string(key);
            return Err(
                Error::Other(
                    if writing {
                        cat3(
                            "cannot write folder entity ",
                            d.as_str(),
                            " into the manifest (folder rows are not stored)",
                        )
                    } else {
                        cat3(
                            "inventory manifest is corrupt: folder entry ",
                            d.as_str(),
                            " (folder rows are not stored); run vaultsync repair to rebuild it",
                        )
                    },
                ),
            );
        }
        if let Err(e) = ensure_valid_key(key) {
            return Err(e);
        }
        if is_vaultsync_control_plane_key(key) {
            let d = debug_string(key);
            return Err(
                Error::Other(
                    if writing {
                        cat3(
                            "cannot write reserved key ",
                            d.as_str(),
                            " into the manifest (control-plane keys are not stored)",
                        )
                    } else {
                        cat3(
                            "inventory manifest is corrupt: reserved entry ",
                            d.as_str(),
                            " (control-plane keys are not stored); run vaultsync repair to rebuild it",
                        )
                    },
                ),
            );
        }
        let mut seen = false;
        let mut j: usize = 0;
        while j < i
            invariant
                j <= i < rows@.len(),
                all == entity::entities(rows@),
                key@ == all[i as int].key,
                seen == exists|k: int| 0 <= k < j && (#[trigger] all[k]).key == key@,
            decreases i - j,
        {
            assert(all[j as int].key == rows@[j as int].key@);
            if same_text(rows[j].key.as_str(), key) {
                seen = true;
            }
            j = j + 1;
        }
        assert(seen == repeats(all, i as int));
        if seen {
            let d = debug_string(key);
            return Err(
                Error::Other(
                    if writing {
                        cat3("duplicate key ", d.as_str(), " in manifest writer input")
                    } else {
                        cat3(
                            "inventory manifest is corrupt: duplicate entry key ",
                            d.as_str(),
                            "; run vaultsync repair to rebuild it",
                        )
                    },
                ),
            );
        }
        i = i + 1;
    }
    Ok(())
}

/// The members of an entry's JSON object.
pub open spec fn entry_members(e: EntityView) -> Seq<(Seq<char>, Seq<char>)> {
    let head = seq![
        ("key"@, json::quote(e.key)),
        ("size"@, text::dec(e.size as nat)),
        (
            "mtime_ms"@,
            match e.mtime_ms {
                Some(n) => text::dec(n as nat),
                None => json::null_text(),
            },
        ),
    ];
    match e.etag {
        Some(t) => head.push(("etag"@, json::quote(t))),
        None => head,
    }
}

/// The JSON text of an entry.
pub open spec fn entry_text(e: EntityView) -> Seq<char> {
    json::object_text(entry_members(e))
}

/// The JSON texts of entries.
pub open spec fn entry_texts(s: Seq<EntityView>) -> Seq<Seq<char>> {
    Seq::new(s.len(), |i: int| entry_text(s[i]))
}

/// The members of a manifest's JSON object; the entries as they stand.
pub open spec fn manifest_members(m: ManifestView) -> Seq<(Seq<char>, Seq<char>)> {
    let a = seq![
        ("schema"@, json::quote(m.schema)),
        ("created_ms"@, text::dec(m.created_ms as nat)),
    ];
    let b = match m.generator {
        Some(t) => a.push(("generator"@, json::quote(t))),
        None => a,
    };
    let c = match m.prefix {
        Some(t) => b.push(("prefix"@, json::quote(t))),
        None => b,
    };
    c.push(("entry_count"@, text::dec(m.entry_count as nat))).push(
        ("entries"@, json::array_text(entry_texts(m.entries))),
    )
}

/// A manifest with its entries by ascending key.
pub open spec fn normal(m: ManifestView) -> ManifestView {
    ManifestView { entries: by_key(m.entries), ..m }
}

/// The body that a manifest is written as.
pub open spec fn body(m: ManifestView) -> Seq<u8> {
    encode_utf8(json::object_text(manifest_members(normal(m))))
}

/// The JSON text of an entry.
fn write_entry(e: &ManifestEntry) -> (r: String)
    ensures
        r@ == entry_text(e@),
{
    let mut m: Vec<(&'static str, String)> = Vec::new();
    m.push(("key", quote_string(e.key.as_str())));
    m.push(("size", decimal(e.size)));
    let time = match e.mtime_ms {
        Some(n) => decimal(n),
        None => {
            proof {
                reveal_strlit("null");
                assert("null"@ =~= json::null_text());
            }
            "null".to_owned()
        },
    };
    m.push(("mtime_ms", time));
    if let Some(t) = &e.etag {
        m.push(("etag", quote_string(t.as_str())));
    }
    assert(Seq::new(m@.len(), |i: int| (m@[i].0@, m@[i].1@)) =~= entry_members(e@));
    write_object(&m)
}

/// The body of a manifest whose entries are in order.
fn write_manifest(m: &ManifestV1) -> (r: Vec<u8>)
    ensures
        r@ == encode_utf8(json::object_text(manifest_members(m@))),
{
    let mut items: Vec<String> = Vec::new();
    let mut i: usize = 0;
    while i < m.entries.len()
        invariant
            i <= m.entries@.len(),
            items@.len() == i,
            forall|j: int| 0 <= j < i ==> (#[trigger] items@[j])@ == entry_text(m.entries@[j]@),
        decreases m.entries@.len() - i,
    {
        items.push(write_entry(&m.entries[i]));
        i = i + 1;
    }
    assert(text::texts(items@) =~= entry_texts(m@.entries));
    let mut f: Vec<(&'static str, String)> = Vec::new();
    f.push(("schema", quote_string(m.schema.as_str())));
    f.push(("created_ms", decimal(m.created_ms)));
    if let Some(t) = &m.generator {
        f.push(("generator", quote_string(t.as_str())));
    }
    if let Some(t) = &m.prefix {
        f.push(("prefix", quote_string(t.as_str())));
    }
    f.push(("entry_count", decimal(m.entry_count as u64)));
    f.push(("entries", write_array(&items)));
    assert(Seq::new(f@.len(), |i: int| (f@[i].0@, f@[i].1@)) =~= manifest_members(m@));
    let s = write_object(&f);
    s.as_str().as_bytes_vec()
}

/// Serialize a manifest body as compact JSON with entries sorted by key
/// ascending.
pub fn serialize_manifest(m: &ManifestV1) -> (r: Result<Vec<u8>, Error>)
    ensures
        r is Ok && r->Ok_0@ == body(m@),
{
    let sorted = sort_entities(to_entities(&m.entries));
    let n = ManifestV1 {
        schema: m.schema.clone(),
        created_ms: m.created_ms,
        generator: clone_opt_string(&m.generator),
        prefix: clone_opt_string(&m.prefix),
        entry_count: m.entry_count,
        entries: to_entries(sorted.as_slice()),
    };
    assert(n@ == normal(m@));
    Ok(write_manifest(&n))
}

/// The member names of an entry.
pub open spec fn entry_names() -> Seq<Seq<char>> {
    seq!["key"@, "size"@, "mtime_ms"@, "etag"@]
}

/// The member names of a manifest.
pub open spec fn manifest_names() -> Seq<Seq<char>> {
    seq!["schema"@, "created_ms"@, "generator"@, "prefix"@, "entry_count"@, "entries"@]
}

/// The entry that a JSON text stands for.
pub open spec fn decode_entry(raw: Seq<char>) -> Result<EntityView, Seq<char>> {
    match json::fields(raw, entry_names(), 3) {
        Err(e) => Err(e),
        Ok(f) => match json::required_string(f[0], "key"@) {
            Err(e) => Err(e),
            Ok(key) => match json::required_u64(f[1], "size"@) {
                Err(e) => Err(e),
                Ok(size) => match json::optional_u64(f[2]) {
                    Err(e) => Err(e),
                    Ok(mtime_ms) => match json::optional_string(f[3]) {
                        Err(e) => Err(e),
                        Ok(etag) => Ok(EntityView { key, size, mtime_ms, etag }),
                    },
                },
            },
        },
    }
}

/// The entries that JSON texts stand for, or the error of the first bad one.
pub open spec fn decode_entries(raws: Seq<Seq<char>>) -> Result<Seq<EntityView>, Seq<char>>
    decreases raws.len(),
{
    if raws.len() == 0 {
        Ok(Seq::<EntityView>::empty())
    } else {
        match decode_entries(raws.drop_last()) {
            Err(e) => Err(e),
            Ok(s) => match decode_entry(raws.last()) {
                Err(e) => Err(e),
                Ok(e) => Ok(s.push(e)),
            },
        }
    }
}

/// The array of entries that a member holds.
pub open spec fn decode_rows(slot: Option<Seq<char>>) -> Result<Seq<EntityView>, Seq<char>> {
    match slot {
        None => Err(json::missing("entries"@)),
        Some(raw) => match json::json_array(raw) {
            Err(e) => Err(e),
            Ok(items) => decode_entries(items),
        },
    }
}

/// The manifest that a JSON text stands for.
pub open spec fn decode_manifest(s: Seq<char>) -> Result<ManifestView, Seq<char>> {
    match json::fields(s, manifest_names(), 6) {
        Err(e) => Err(e),
        Ok(f) => match json::required_string(f[0], "schema"@) {
            Err(e) => Err(e),
            Ok(schema) => match json::required_u64(f[1], "created_ms"@) {
                Err(e) => Err(e),
                Ok(created_ms) => match json::optional_string(f[2]) {
                    Err(e) => Err(e),
                    Ok(generator) => match json::optional_string(f[3]) {
                        Err(e) => Err(e),
                        Ok(prefix) => match json::required_u64(f[4], "entry_count"@) {
                            Err(e) => Err(e),
                            Ok(count) => if count > usize::MAX {
                                Err("invalid value: entry_count"@)
                            } else {
                                match decode_rows(f[5]) {
                                    Err(e) => Err(e),
                                    Ok(rows) => Ok(
                                        ManifestView {
                                            schema,
                                            created_ms,
                                            generator,
                                            prefix,
                                            entry_count: count as usize,
                                            entries: rows,
                                        },
                                    ),
                                }
                            },
                        },
                    },
                },
            },
        },
    }
}

/// The manifest that a body stands for. An error names the fault; the line and
/// column that it may give are those in the text of the member at fault.
pub open spec fn decode_body(bytes: Seq<u8>) -> Result<ManifestView, Seq<char>> {
    if valid_utf8(bytes) {
        decode_manifest(decode_utf8(bytes))
    } else {
        Err("invalid UTF-8"@)
    }
}

/// What parsing a body gives: the manifest with its entries by ascending key.
pub open spec fn parsed(bytes: Seq<u8>, cap: u64) -> Result<ManifestView, ErrorView> {
    if bytes.len() > cap {
        Err(
            ErrorView::Other(
                "manifest body is "@ + text::dec(bytes.len()) + " bytes, above the "@ + text::dec(
                    cap as nat,
                )
                    + " byte soft cap; refusing to parse (run vaultsync repair to rebuild it)"@,
            ),
        )
    } else {
        match decode_body(bytes) {
            Err(m) => Err(
                ErrorView::Other("inventory manifest is corrupt (JSON parse failed): "@ + m),
            ),
            Ok(m) => if m.schema != MANIFEST_SCHEMA@ {
                Err(
                    ErrorView::Other(
                        "inventory manifest has unknown schema "@ + text::debug_text(m.schema)
                            + " (expected vaultsync.manifest.v1); run vaultsync repair to rebuild it"@,
                    ),
                )
            } else if m.entry_count != m.entries.len() {
                Err(
                    ErrorView::Other(
                        "inventory manifest is corrupt: entry_count "@ + text::dec(
                            m.entry_count as nat,
                        ) + " != "@ + text::dec(m.entries.len())
                            + " entries; run vaultsync repair to rebuild it"@,
                    ),
                )
            } else {
                match bad_row(m.entries, 0) {
                    Some(i) => Err(
                        read_error(m.entries[i].key, row_fault(m.entries, i)->0),
                    ),
                    None => Ok(normal(m)),
                }
            },
        }
    }
}

/// The view of a parse result.
pub open spec fn parse_view(r: Result<ManifestV1, Error>) -> Result<ManifestView, ErrorView> {
    match r {
        Ok(m) => Ok(m@),
        Err(e) => Err(e@),
    }
}

/// Whether a manifest may be stored: the known schema, a count that is right,
/// and no faulty row.
pub open spec fn sound(m: ManifestView) -> bool {
    &&& m.schema == MANIFEST_SCHEMA@
    &&& m.entry_count == m.entries.len()
    &&& storable(m.entries)
}

/// `std::str::from_utf8`: the text of a byte string, if it is valid UTF-8.
#[verifier::external_body]
fn utf8_text(bytes: &[u8]) -> (r: Option<String>)
    ensures
        match r {
            Some(s) => valid_utf8(bytes@) && s@ == decode_utf8(bytes@),
            None => !valid_utf8(bytes@),
        },
{
    std::str::from_utf8(bytes).ok().map(|s| s.to_owned())
}

proof fn lemma_entry_names()
    ensures
        json::name_list(seq!["key", "size", "mtime_ms", "etag"]) == entry_names(),
        json::name_list(
            seq!["schema", "created_ms", "generator", "prefix", "entry_count", "entries"],
        ) == manifest_names(),
{
    assert(json::name_list(seq!["key", "size", "mtime_ms", "etag"]) =~= entry_names());
    assert(json::name_list(
        seq!["schema", "created_ms", "generator", "prefix", "entry_count", "entries"],
    ) =~= manifest_names());
}

proof fn lemma_names_differ()
    ensures
        "key"@ != "size"@,
        "key"@ != "mtime_ms"@,
        "key"@ != "etag"@,
        "size"@ != "mtime_ms"@,
        "size"@ != "etag"@,
        "mtime_ms"@ != "etag"@,
        "schema"@ != "created_ms"@,
        "schema"@ != "generator"@,
        "schema"@ != "prefix"@,
        "schema"@ != "entry_count"@,
        "schema"@ != "entries"@,
        "created_ms"@ != "generator"@,
        "created_ms"@ != "prefix"@,
        "created_ms"@ != "entry_count"@,
        "created_ms"@ != "entries"@,
        "generator"@ != "prefix"@,
        "generator"@ != "entry_count"@,
        "generator"@ != "entries"@,
        "prefix"@ != "entry_count"@,
        "prefix"@ != "entries"@,
        "entry_count"@ != "entries"@,
{
    reveal_strlit("key");
    reveal_strlit("size");
    reveal_strlit("mtime_ms");
    reveal_strlit("etag");
    reveal_strlit("schema");
    reveal_strlit("created_ms");
    reveal_strlit("generator");
    reveal_strlit("prefix");
    reveal_strlit("entry_count");
    reveal_strlit("entries");
    assert("key"@.len() == 3 && "size"@.len() == 4 && "mtime_ms"@.len() == 8 && "etag"@.len() == 4);
    assert("schema"@.len() == 6 && "created_ms"@.len() == 10 && "generator"@.len() == 9);
    assert("prefix"@.len() == 6 && "entry_count"@.len() == 11 && "entries"@.len() == 7);
    assert("size"@[0] == 's' && "etag"@[0] == 'e');
    assert("schema"@[0] == 's' && "prefix"@[0] == 'p');
}

proof fn lemma_scalar(raw: Seq<char>, depth: nat)
    requires
        raw == json::null_text() || (exists|n: u64| raw == #[trigger] text::dec(n as nat)) || (
        exists|t: Seq<char>| raw == #[trigger] json::quote(t)),
    ensures
        json::value_text(raw, depth),
{
}

/// An entry's text is that of a JSON object with the entry's members.
proof fn lemma_entry_writes(e: EntityView, depth: nat)
    requires
        depth >= 1,
    ensures
        json::writes(entry_text(e), entry_members(e), entry_names()),
        json::value_text(entry_text(e), depth),
{
    lemma_names_differ();
    let m = entry_members(e);
    let names = entry_names();
    assert(names[0] == "key"@ && names[1] == "size"@ && names[2] == "mtime_ms"@ && names[3]
        == "etag"@);
    assert forall|i: int, d: nat| 0 <= i < m.len() implies #[trigger] json::value_text(m[i].1, d)
        && names.contains(m[i].0) by {
        if i == 0 {
            assert(m[i].1 == json::quote(e.key));
            assert(m[i].0 == names[0]);
        } else if i == 1 {
            assert(m[i].1 == text::dec(e.size as nat));
            assert(m[i].0 == names[1]);
        } else if i == 2 {
            if let Some(n) = e.mtime_ms {
                assert(m[i].1 == text::dec(n as nat));
            }
            assert(m[i].0 == names[2]);
        } else {
            assert(m[i].1 == json::quote(e.etag->0));
            assert(m[i].0 == names[3]);
        }
        lemma_scalar(m[i].1, d);
    }
    assert(json::distinct_names(m));
    assert forall|i: int| 0 <= i < m.len() implies json::value_text((#[trigger] m[i]).1, 8)
        && names.contains(m[i].0) by {
        assert(json::value_text(m[i].1, 8));
    }
    assert forall|i: int| 0 <= i < m.len() implies json::value_text(
        (#[trigger] m[i]).1,
        (depth - 1) as nat,
    ) by {
        assert(json::value_text(m[i].1, (depth - 1) as nat));
    }
    assert(entry_text(e) == json::object_text(m));
}

proof fn lemma_entry_lookup(e: EntityView)
    ensures
        json::lookup(entry_members(e), "key"@) == Some(json::quote(e.key)),
        json::lookup(entry_members(e), "size"@) == Some(text::dec(e.size as nat)),
        json::lookup(entry_members(e), "mtime_ms"@) == Some(
            match e.mtime_ms {
                Some(n) => text::dec(n as nat),
                None => json::null_text(),
            },
        ),
        json::lookup(entry_members(e), "etag"@) == match e.etag {
            Some(t) => Some(json::quote(t)),
            None => None,
        },
{
    lemma_names_differ();
    let m = entry_members(e);
    reveal_with_fuel(json::lookup, 5);
    let m3 = m.take(3);
    if e.etag is Some {
        assert(m.drop_last() =~= m3);
    } else {
        assert(m =~= m3);
    }
    assert(m3.drop_last() =~= m.take(2));
    assert(m.take(2).drop_last() =~= m.take(1));
    assert(m.take(1).drop_last() =~= m.take(0));
}

/// Reads one entry.
fn read_entry(raw: &str) -> (r: Result<ManifestEntry, String>)
    ensures
        match r {
            Ok(e) => decode_entry(raw@) == Ok::<EntityView, Seq<char>>(e@),
            Err(m) => decode_entry(raw@) == Err::<EntityView, _>(m@),
        },
        forall|e: EntityView| raw@ == #[trigger] entry_text(e) ==> r is Ok && r->Ok_0@ == e,
{
    let names: [&'static str; 4] = ["key", "size", "mtime_ms", "etag"];
    proof {
        assert(names@ =~= seq!["key", "size", "mtime_ms", "etag"]);
        lemma_entry_names();
    }
    let outcome = object_fields(raw, &names, 3);
    let ghost read: Seq<Option<Seq<char>>> = json::opt_texts(outcome->Ok_0@);
    proof {
        assert forall|e: EntityView| raw@ == #[trigger] entry_text(e) implies outcome is Ok && read[0]
            == Some(json::quote(e.key)) && read[1] == Some(text::dec(e.size as nat)) && read[2]
            == Some(
            match e.mtime_ms {
                Some(n) => text::dec(n as nat),
                None => json::null_text(),
            },
        ) && read[3] == match e.etag {
            Some(t) => Some(json::quote(t)),
            None => None,
        } by {
            lemma_entry_writes(e, 8);
            lemma_entry_lookup(e);
            assert(json::writes(raw@, entry_members(e), json::name_list(names@)));
        }
    }
    let f = match outcome {
        Ok(f) => f,
        Err(m) => return Err(m),
    };
    assert(read.len() == 4);
    let key = match take_string(&f[0], "key") {
        Ok(t) => t,
        Err(m) => return Err(m),
    };
    let size = match take_u64(&f[1], "size") {
        Ok(n) => n,
        Err(m) => return Err(m),
    };
    let mtime_ms = match take_opt_u64(&f[2]) {
        Ok(n) => n,
        Err(m) => return Err(m),
    };
    let etag = match take_opt_string(&f[3]) {
        Ok(t) => t,
        Err(m) => return Err(m),
    };
    Ok(ManifestEntry { key, size, mtime_ms, etag })
}

proof fn lemma_decode_error_stays(raws: Seq<Seq<char>>, i: int)
    requires
        0 <= i <= raws.len(),
        decode_entries(raws.take(i)) is Err,
    ensures
        decode_entries(raws) == decode_entries(raws.take(i)),
    decreases raws.len() - i,
{
    if i < raws.len() {
        assert(raws.take(i + 1).drop_last() =~= raws.take(i));
        lemma_decode_error_stays(raws, i + 1);
    } else {
        assert(raws.take(i) =~= raws);
    }
}

/// Reads the entries of a manifest.
fn read_entries(raws: &Vec<String>) -> (r: Result<Vec<ManifestEntry>, String>)
    ensures
        match r {
            Ok(v) => decode_entries(text::texts(raws@)) == Ok::<_, Seq<char>>(entries(v@)),
            Err(m) => decode_entries(text::texts(raws@)) == Err::<Seq<EntityView>, _>(m@),
        },
        forall|s: Seq<EntityView>|
            text::texts(raws@) == #[trigger] entry_texts(s) ==> r is Ok && entries(r->Ok_0@) == s,
{
    let ghost all = text::texts(raws@);
    let mut out: Vec<ManifestEntry> = Vec::new();
    let mut i: usize = 0;
    assert(all.take(0) =~= Seq::<Seq<char>>::empty());
    assert(entries(out@) =~= Seq::<EntityView>::empty());
    while i < raws.len()
        invariant
            i <= raws@.len(),
            all == text::texts(raws@),
            out@.len() == i,
            decode_entries(all.take(i as int)) == Ok::<_, Seq<char>>(entries(out@)),
            forall|s: Seq<EntityView>|
                all == #[trigger] entry_texts(s) ==> entries(out@) == s.take(i as int),
        decreases raws@.len() - i,
    {
        proof {
            assert(all.take(i + 1).drop_last() =~= all.take(i as int));
            assert(all.take(i + 1).last() == all[i as int]);
            assert forall|s: Seq<EntityView>| all == #[trigger] entry_texts(s) implies all[i as int]
                == entry_text(s[i as int]) by {}
        }
        match read_entry(raws[i].as_str()) {
            Ok(e) => {
                let ghost prev = entries(out@);
                out.push(e);
                proof {
                    assert(entries(out@) =~= prev.push(e@));
                    assert forall|s: Seq<EntityView>| all == #[trigger] entry_texts(s) implies entries(
                        out@,
                    ) == s.take(i + 1) by {
                        assert(all[i as int] == entry_text(s[i as int]));
                        assert(s.take(i + 1) =~= s.take(i as int).push(s[i as int]));
                    }
                }
            },
            Err(m) => {
                proof {
                    lemma_decode_error_stays(all, i + 1);
                    assert forall|s: Seq<EntityView>| all == #[trigger] entry_texts(s) implies false by {
                        assert(all[i as int] == entry_text(s[i as int]));
                    }
                }
                return Err(m);
            },
        }
        i = i + 1;
    }
    proof {
        assert(all.take(i as int) =~= all);
        assert forall|s: Seq<EntityView>| all == #[trigger] entry_texts(s) implies entries(out@)
            == s by {
            assert(s.take(i as int) =~= s);
        }
    }
    Ok(out)
}

/// Reads the array of entries that a member holds.
fn read_rows(slot: &Option<String>) -> (r: Result<Vec<ManifestEntry>, String>)
    ensures
        match r {
            Ok(v) => decode_rows(text::opt_text(*slot)) == Ok::<_, Seq<char>>(entries(v@)),
            Err(m) => decode_rows(text::opt_text(*slot)) == Err::<Seq<EntityView>, _>(m@),
        },
        forall|s: Seq<EntityView>|
            text::opt_text(*slot) == Some(json::array_text(#[trigger] entry_texts(s))) ==> r is Ok
                && entries(r->Ok_0@) == s,
{
    match slot {
        None => Err(cat3("missing field `", "entries", "`")),
        Some(raw) => {
            let items = read_array(raw.as_str());
            proof {
                assert forall|s: Seq<EntityView>|
                    raw@ == json::array_text(#[trigger] entry_texts(s)) implies items is Ok
                    && text::texts(items->Ok_0@) == entry_texts(s) by {
                    assert forall|i: int| 0 <= i < s.len() implies json::value_text(
                        #[trigger] entry_texts(s)[i],
                        8,
                    ) by {
                        lemma_entry_writes(s[i], 8);
                    }
                }
            }
            match items {
                Ok(v) => read_entries(&v),
                Err(m) => Err(m),
            }
        },
    }
}

/// A manifest's text is that of a JSON object with the manifest's members.
proof fn lemma_manifest_writes(m: ManifestView)
    ensures
        json::writes(
            json::object_text(manifest_members(m)),
            manifest_members(m),
            manifest_names(),
        ),
{
    lemma_names_differ();
    let f = manifest_members(m);
    let names = manifest_names();
    assert(names[0] == "schema"@ && names[1] == "created_ms"@ && names[2] == "generator"@
        && names[3] == "prefix"@ && names[4] == "entry_count"@ && names[5] == "entries"@);
    let rows = entry_texts(m.entries);
    assert forall|i: int| 0 <= i < rows.len() implies json::value_text(#[trigger] rows[i], 7) by {
        lemma_entry_writes(m.entries[i], 7);
    }
    assert(json::value_text(json::array_text(rows), 8));
    let n = f.len() as int;
    assert forall|i: int| 0 <= i < f.len() implies json::value_text((#[trigger] f[i]).1, 8)
        && names.contains(f[i].0) by {
        if i == 0 {
            assert(f[i].1 == json::quote(m.schema));
            assert(f[i].0 == names[0]);
        } else if i == 1 {
            assert(f[i].1 == text::dec(m.created_ms as nat));
            assert(f[i].0 == names[1]);
        } else if i == n - 2 {
            assert(f[i].1 == text::dec((m.entry_count as u64) as nat));
            assert(f[i].0 == names[4]);
        } else if i == n - 1 {
            assert(f[i].0 == names[5]);
        } else if i == 2 && m.generator is Some {
            assert(f[i].1 == json::quote(m.generator->0));
            assert(f[i].0 == names[2]);
        } else {
            assert(f[i].1 == json::quote(m.prefix->0));
            assert(f[i].0 == names[3]);
        }
    }
    assert(json::distinct_names(f));
}

proof fn lemma_manifest_lookup(m: ManifestView)
    ensures
        json::lookup(manifest_members(m), "schema"@) == Some(json::quote(m.schema)),
        json::lookup(manifest_members(m), "created_ms"@) == Some(text::dec(m.created_ms as nat)),
        json::lookup(manifest_members(m), "generator"@) == match m.generator {
            Some(t) => Some(json::quote(t)),
            None => None,
        },
        json::lookup(manifest_members(m), "prefix"@) == match m.prefix {
            Some(t) => Some(json::quote(t)),
            None => None,
        },
        json::lookup(manifest_members(m), "entry_count"@) == Some(
            text::dec(m.entry_count as nat),
        ),
        json::lookup(manifest_members(m), "entries"@) == Some(
            json::array_text(entry_texts(m.entries)),
        ),
{
    lemma_names_differ();
    reveal_with_fuel(json::lookup, 7);
    let f = manifest_members(m);
    let n = f.len() as int;
    assert(f.drop_last() =~= f.take(n - 1));
    assert(f.take(n - 1).drop_last() =~= f.take(n - 2));
    assert(f.take(n - 2).drop_last() =~= f.take(n - 3));
    assert(f.take(n - 3).drop_last() =~= f.take(n - 4));
    if n >= 5 {
        assert(f.take(n - 4).drop_last() =~= f.take(n - 5));
    }
    if n >= 6 {
        assert(f.take(n - 5).drop_last() =~= f.take(n - 6));
    }
}

/// Reads the JSON text of a manifest.
fn read_manifest(s: &str) -> (r: Result<ManifestV1, String>)
    ensures
        match r {
            Ok(m) => decode_manifest(s@) == Ok::<ManifestView, Seq<char>>(m@),
            Err(e) => decode_manifest(s@) == Err::<ManifestView, _>(e@),
        },
        forall|m: ManifestView|
            s@ == json::object_text(#[trigger] manifest_members(m)) ==> r is Ok && r->Ok_0@ == m,
{
    let names: [&'static str; 6] = [
        "schema",
        "created_ms",
        "generator",
        "prefix",
        "entry_count",
        "entries",
    ];
    proof {
        assert(names@ =~= seq![
            "schema",
            "created_ms",
            "generator",
            "prefix",
            "entry_count",
            "entries",
        ]);
        lemma_entry_names();
    }
    let outcome = object_fields(s, &names, 6);
    let ghost read: Seq<Option<Seq<char>>> = json::opt_texts(outcome->Ok_0@);
    proof {
        assert forall|m: ManifestView|
            s@ == json::object_text(#[trigger] manifest_members(m)) implies outcome is Ok && read[0]
            == Some(json::quote(m.schema)) && read[1] == Some(text::dec(m.created_ms as nat))
            && read[2] == match m.generator {
            Some(t) => Some(json::quote(t)),
            None => None,
        } && read[3] == match m.prefix {
            Some(t) => Some(json::quote(t)),
            None => None,
        } && read[4] == Some(text::dec((m.entry_count as u64) as nat)) && read[5] == Some(
            json::array_text(entry_texts(m.entries)),
        ) by {
            lemma_manifest_writes(m);
            lemma_manifest_lookup(m);
            assert(json::writes(s@, manifest_members(m), json::name_list(names@)));
        }
    }
    let f = match outcome {
        Ok(f) => f,
        Err(m) => return Err(m),
    };
    assert(read.len() == 6);
    let schema = match take_string(&f[0], "schema") {
        Ok(t) => t,
        Err(m) => return Err(m),
    };
    let created_ms = match take_u64(&f[1], "created_ms") {
        Ok(n) => n,
        Err(m) => return Err(m),
    };
    let generator = match take_opt_string(&f[2]) {
        Ok(t) => t,
        Err(m) => return Err(m),
    };
    let prefix = match take_opt_string(&f[3]) {
        Ok(t) => t,
        Err(m) => return Err(m),
    };
    let count = match take_u64(&f[4], "entry_count") {
        Ok(n) => n,
        Err(m) => return Err(m),
    };
    if count > usize::MAX as u64 {
        return Err("invalid value: entry_count".to_owned());
    }
    let rows = match read_rows(&f[5]) {
        Ok(v) => v,
        Err(m) => return Err(m),
    };
    Ok(
        ManifestV1 {
            schema,
            created_ms,
            generator,
            prefix,
            entry_count: count as usize,
            entries: rows,
        },
    )
}

/// Whether the body of a sound manifest, within the cap, is read back as that
/// manifest.
pub open spec fn reads_back(b: Seq<u8>) -> bool {
    forall|m: ManifestView|
        b == #[trigger] body(m) && sound(m) && b.len() <= MANIFEST_MAX_BYTES ==> parsed(
            b,
            MANIFEST_MAX_BYTES,
        ) == Ok::<ManifestView, ErrorView>(normal(m))
}

/// The manifest of files is sound.
pub proof fn lemma_manifest_of_sound(
    files: Seq<EntityView>,
    created_ms: u64,
    generator: Option<Seq<char>>,
    prefix: Option<Seq<char>>,
)
    requires
        files.len() <= usize::MAX,
    ensures
        manifest_of(files, created_ms, generator, prefix) matches Ok(m) ==> sound(m) && normal(m)
            == m && storable(files),
{
    lemma_storable(files, 0);
    if storable(files) {
        lemma_sorted_storable(files);
    }
}

/// Parse and validate a manifest body. Rejects a body above the soft byte cap,
/// unknown schemas, a wrong entry count, and rows that may not be stored.
/// Entries are sorted by key after parse, so that callers get a stable mapping
/// regardless of writer order. A body that [`serialize_manifest`] wrote for a
/// sound manifest is read back.
pub fn parse_manifest_bytes(bytes: &[u8]) -> (r: Result<ManifestV1, Error>)
    ensures
        parse_view(r) == parsed(bytes@, MANIFEST_MAX_BYTES),
        reads_back(bytes@),
{
    parse_manifest_bytes_with_cap(bytes, MANIFEST_MAX_BYTES)
}

/// Sorting keeps whether the rows may be stored.
pub proof fn lemma_sorted_storable(rows: Seq<EntityView>)
    requires
        storable(rows),
    ensures
        storable(by_key(rows)),
        by_key(rows).len() == rows.len(),
        by_key(by_key(rows)) == by_key(rows),
{
    broadcast use vstd::seq_lib::group_to_multiset_ensures;

    let s = by_key(rows);
    sort::lemma_sorted_permutes::<Entity>(rows);
    sort::lemma_sorted_in_order::<Entity>(rows);
    sort::lemma_sorted_fixed::<Entity>(s);
    assert forall|i: int| 0 <= i < s.len() implies row_fault(s, i) is None by {
        assert(s.contains(s[i]));
        sort::lemma_sorted_contains::<Entity>(rows, s[i]);
        let k = choose|k: int| 0 <= k < rows.len() && rows[k] == s[i];
        assert(row_fault(rows, k) is None);
        if repeats(s, i) {
            let j = choose|j: int| 0 <= j < i && (#[trigger] s[j]).key == s[i].key;
            assert(s.contains(s[j]));
            sort::lemma_sorted_contains::<Entity>(rows, s[j]);
            let l = choose|l: int| 0 <= l < rows.len() && rows[l] == s[j];
            assert(row_fault(rows, l) is None);
            if k < l {
                assert(rows[k].key == rows[l].key);
                assert(repeats(rows, l));
            } else if l < k {
                assert(rows[l].key == rows[k].key);
                assert(repeats(rows, k));
            } else {
                // The same element at two places of `s`, but at one of `rows`.
                let x = s[i];
                assert(s[j] == x);
                lemma_two_places(s, j, i);
                assert forall|n: int| 0 <= n < rows.len() && n != k implies #[trigger] rows[n]
                    != rows[k] by {
                    assert(row_fault(rows, n) is None);
                    if rows[n] == rows[k] {
                        assert(repeats(rows, if n < k {
                            k
                        } else {
                            n
                        }));
                    }
                }
                lemma_one_place(rows, k);
            }
        }
    }
}

/// An element at two places counts twice.
pub proof fn lemma_two_places(s: Seq<EntityView>, j: int, i: int)
    requires
        0 <= j < i < s.len(),
        s[j] == s[i],
    ensures
        s.to_multiset().count(s[i]) >= 2,
{
    broadcast use vstd::seq_lib::group_to_multiset_ensures;

    let x = s[i];
    let t = s.remove(i);
    assert(t[j] == x);
    assert(t.contains(x));
    assert(t.to_multiset().count(x) >= 1);
    assert(t.to_multiset() =~= s.to_multiset().remove(x));
    assert(s.contains(x));
}

/// An element at one place alone counts once.
pub proof fn lemma_one_place(rows: Seq<EntityView>, k: int)
    requires
        0 <= k < rows.len(),
        forall|l: int| 0 <= l < rows.len() && l != k ==> #[trigger] rows[l] != rows[k],
    ensures
        rows.to_multiset().count(rows[k]) == 1,
{
    broadcast use vstd::seq_lib::group_to_multiset_ensures;

    let x = rows[k];
    let t = rows.remove(k);
    assert(rows.contains(x));
    assert(t.to_multiset() =~= rows.to_multiset().remove(x));
    if t.contains(x) {
        let l = choose|l: int| 0 <= l < t.len() && t[l] == x;
        if l < k {
            assert(rows[l] == x);
        } else {
            assert(rows[l + 1] == x);
        }
    }
    assert(t.to_multiset().count(x) == 0);
}

/// [`parse_manifest_bytes`] with a cap of the caller's choice.
pub fn parse_manifest_bytes_with_cap(bytes: &[u8], cap: u64) -> (r: Result<ManifestV1, Error>)
    ensures
        parse_view(r) == parsed(bytes@, cap),
        forall|m: ManifestView|
            bytes@ == #[trigger] body(m) && sound(m) && bytes@.len() <= cap ==> parse_view(r)
                == Ok::<ManifestView, ErrorView>(normal(m)),
{
    if bytes.len() as u64 > cap {
        let mut m = "manifest body is ".to_owned();
        m.append(decimal(bytes.len() as u64).as_str());
        m.append(" bytes, above the ");
        m.append(decimal(cap).as_str());
        m.append(" byte soft cap; refusing to parse (run vaultsync repair to rebuild it)");
        return Err(Error::Other(m));
    }
    let outcome = match utf8_text(bytes) {
        Some(s) => read_manifest(s.as_str()),
        None => Err("invalid UTF-8".to_owned()),
    };
    proof {
        assert forall|m: ManifestView| bytes@ == #[trigger] body(m) implies outcome is Ok
            && outcome->Ok_0@ == normal(m) by {
            let t = json::object_text(manifest_members(normal(m)));
            encode_utf8_valid_utf8(t);
            encode_utf8_decode_utf8(t);
        }
    }
    let m = match outcome {
        Ok(m) => m,
        Err(e) => {
            return Err(
                Error::Other(
                    cat2("inventory manifest is corrupt (JSON parse failed): ", e.as_str()),
                ),
            );
        },
    };
    if !same_text(m.schema.as_str(), MANIFEST_SCHEMA) {
        let d = debug_string(m.schema.as_str());
        return Err(
            Error::Other(
                cat3(
                    "inventory manifest has unknown schema ",
                    d.as_str(),
                    " (expected vaultsync.manifest.v1); run vaultsync repair to rebuild it",
                ),
            ),
        );
    }
    proof {
        assert forall|w: ManifestView| bytes@ == #[trigger] body(w) && sound(w) implies m@
            == normal(w) && storable(m@.entries) && m@.entries.len() == m@.entry_count && normal(
            m@,
        ) == normal(w) by {
            lemma_sorted_storable(w.entries);
        }
    }
    if m.entry_count != m.entries.len() {
        let mut t = "inventory manifest is corrupt: entry_count ".to_owned();
        t.append(decimal(m.entry_count as u64).as_str());
        t.append(" != ");
        t.append(decimal(m.entries.len() as u64).as_str());
        t.append(" entries; run vaultsync repair to rebuild it");
        return Err(Error::Other(t));
    }
    let rows = to_entities(&m.entries);
    proof {
        lemma_storable(m@.entries, 0);
    }
    if let Err(e) = check_rows(rows.as_slice(), false) {
        return Err(e);
    }
    let ordered = sort_entities(rows);
    let result = ManifestV1 {
        schema: m.schema,
        created_ms: m.created_ms,
        generator: m.generator,
        prefix: m.prefix,
        entry_count: m.entry_count,
        entries: to_entries(ordered.as_slice()),
    };
    assert(result@ == normal(m@));
    Ok(result)
}

/// The ancestor folder keys of a key: its prefixes that end with `/`.
pub open spec fn parents(key: Seq<char>) -> Seq<Seq<char>>
    decreases key.len(),
{
    if key.len() == 0 {
        Seq::<Seq<char>>::empty()
    } else if key.last() == '/' {
        parents(key.drop_last()).push(key)
    } else {
        parents(key.drop_last())
    }
}

/// Ancestor folder keys (each trailing-`/` prefix) of a key, shortest first:
/// `parent_folders("notes/deep/c.md")` => `["notes/", "notes/deep/"]`. Store
/// listings and the manifest share this one function, so that folder views
/// cannot drift between warm and cold planning.
pub fn parent_folders(key: &str) -> (r: Vec<String>)
    ensures
        text::texts(r@) == parents(key@),
{
    let c = chars_of(key);
    let mut out: Vec<String> = Vec::new();
    let mut i: usize = 0;
    assert(c@.take(0) =~= Seq::<char>::empty());
    assert(text::texts(out@) =~= Seq::<Seq<char>>::empty());
    while i < c.len()
        invariant
            i <= c@.len(),
            text::texts(out@) == parents(c@.take(i as int)),
        decreases c@.len() - i,
    {
        let ghost part = c@.take(i + 1);
        assert(part.drop_last() =~= c@.take(i as int));
        if c[i] == '/' {
            let ghost prev = text::texts(out@);
            let s = string_of(&c, 0, i + 1);
            assert(s@ =~= part);
            out.push(s);
            assert(text::texts(out@) =~= prev.push(part));
        }
        i = i + 1;
    }
    assert(c@.take(i as int) =~= c@);
    out
}

/// Whether a folder is an ancestor of one of the files.
pub open spec fn is_ancestor(files: Seq<EntityView>, folder: Seq<char>) -> bool {
    exists|i: int| 0 <= i < files.len() && parents((#[trigger] files[i]).key).contains(folder)
}

/// Whether `folders` are the folder views of the files: one entity for each
/// ancestor folder, by ascending key.
pub open spec fn folders_of(folders: Seq<EntityView>, files: Seq<EntityView>) -> bool {
    &&& plan::ascending(plan::keys_of(folders))
    &&& forall|i: int|
        0 <= i < folders.len() ==> #[trigger] folders[i] == entity::folder_view(folders[i].key)
    &&& forall|k: Seq<char>| #[trigger]
        plan::keys_of(folders).contains(k) == is_ancestor(files, k)
}

/// The folder views of the files; see [`folders_of`].
pub open spec fn folder_views(files: Seq<EntityView>) -> Seq<EntityView> {
    choose|folders: Seq<EntityView>| folders_of(folders, files)
}

/// The folder views are determined by the files.
pub proof fn lemma_folders_unique(folders: Seq<EntityView>, files: Seq<EntityView>)
    requires
        folders_of(folders, files),
    ensures
        folders == folder_views(files),
{
    let other = folder_views(files);
    assert(folders_of(other, files));
    let a = plan::keys_of(folders);
    let b = plan::keys_of(other);
    assert forall|k: Seq<char>| #[trigger] a.contains(k) == b.contains(k) by {
        assert(a.contains(k) == is_ancestor(files, k));
        assert(b.contains(k) == is_ancestor(files, k));
    }
    plan::lemma_ascending_unique(a, b);
    assert(folders.len() == a.len() && other.len() == b.len());
    assert forall|i: int| 0 <= i < folders.len() implies folders[i] == other[i] by {
        assert(a[i] == folders[i].key && b[i] == other[i].key);
    }
    assert(folders =~= other);
}

/// The ancestors of all the files, in some order.
proof fn lemma_ancestors(files: Seq<EntityView>) -> (r: Seq<Seq<char>>)
    ensures
        forall|k: Seq<char>| #[trigger] r.contains(k) == is_ancestor(files, k),
    decreases files.len(),
{
    if files.len() == 0 {
        Seq::<Seq<char>>::empty()
    } else {
        let d = files.drop_last();
        let init = lemma_ancestors(d);
        let own = parents(files.last().key);
        let r = init + own;
        assert forall|k: Seq<char>| #[trigger] r.contains(k) == is_ancestor(files, k) by {
            assert(init.contains(k) == is_ancestor(d, k));
            if r.contains(k) {
                let j = choose|j: int| 0 <= j < r.len() && r[j] == k;
                if j < init.len() {
                    assert(init[j] == k);
                    let x = choose|x: int|
                        0 <= x < d.len() && parents((#[trigger] d[x]).key).contains(k);
                    assert(files[x] == d[x]);
                } else {
                    assert(own[j - init.len()] == k);
                    assert(parents(files[files.len() - 1].key).contains(k));
                }
            }
            if is_ancestor(files, k) {
                let x = choose|x: int|
                    0 <= x < files.len() && parents((#[trigger] files[x]).key).contains(k);
                if x < d.len() {
                    assert(d[x] == files[x]);
                    let j = choose|j: int| 0 <= j < init.len() && init[j] == k;
                    assert(r[j] == k);
                } else {
                    let j = choose|j: int| 0 <= j < own.len() && own[j] == k;
                    assert(r[init.len() + j] == k);
                }
            }
        }
        r
    }
}

/// Any files have folder views.
pub proof fn lemma_folder_views(files: Seq<EntityView>)
    ensures
        folders_of(folder_views(files), files),
{
    let all = lemma_ancestors(files);
    let keys = plan::laws::lemma_ascending_exists(all);
    let folders = Seq::new(keys.len(), |i: int| entity::folder_view(keys[i]));
    assert(plan::keys_of(folders) =~= keys);
    assert forall|k: Seq<char>| #[trigger]
        plan::keys_of(folders).contains(k) == is_ancestor(files, k) by {
        assert(keys.contains(k) == all.contains(k));
    }
    assert(folders_of(folders, files));
}

/// Synthesize folder-view entities from file entities: every ancestor prefix
/// of every file key, sorted, with folder shape (trailing `/`, size 0, no
/// mtime and no etag).
pub fn synthesize_folders(files: &[Entity]) -> (r: Vec<Entity>)
    ensures
        folders_of(entity::entities(r@), entity::entities(files@)),
        entity::entities(r@) == folder_views(entity::entities(files@)),
{
    let ghost all = entity::entities(files@);
    let mut names: Vec<String> = Vec::new();
    let mut i: usize = 0;
    while i < files.len()
        invariant
            i <= files@.len(),
            all == entity::entities(files@),
            forall|k: Seq<char>| #[trigger]
                text::texts(names@).contains(k) == is_ancestor(all.take(i as int), k),
        decreases files@.len() - i,
    {
        let ghost prev = text::texts(names@);
        let ghost own = parents(all[i as int].key);
        let mut more = parent_folders(files[i].key.as_str());
        let ghost added = text::texts(more@);
        let ghost old_names = names@;
        let ghost old_more = more@;
        names.append(&mut more);
        proof {
            let next = text::texts(names@);
            assert(next =~= prev + added);
            let before_part = all.take(i as int);
            let part = all.take(i + 1);
            assert forall|k: Seq<char>| #[trigger] next.contains(k) == is_ancestor(part, k) by {
                assert(prev.contains(k) == is_ancestor(before_part, k));
                if next.contains(k) {
                    let j = choose|j: int| 0 <= j < next.len() && next[j] == k;
                    if j < prev.len() {
                        assert(prev[j] == k);
                        let x = choose|x: int|
                            0 <= x < before_part.len() && parents(
                                (#[trigger] before_part[x]).key,
                            ).contains(k);
                        assert(part[x] == before_part[x]);
                    } else {
                        assert(added[j - prev.len()] == k);
                        assert(parents(part[i as int].key).contains(k));
                    }
                }
                if is_ancestor(part, k) {
                    let x = choose|x: int|
                        0 <= x < part.len() && parents((#[trigger] part[x]).key).contains(k);
                    if x < i {
                        assert(before_part[x] == part[x]);
                        assert(is_ancestor(before_part, k));
                        let j = choose|j: int| 0 <= j < prev.len() && prev[j] == k;
                        assert(next[j] == k);
                    } else {
                        let j = choose|j: int| 0 <= j < added.len() && added[j] == k;
                        assert(next[prev.len() + j] == k);
                    }
                }
            }
        }
        i = i + 1;
    }
    assert(all.take(i as int) =~= all);
    let keys = ascending_set(names);
    let ghost sorted_keys = text::texts(keys@);
    let mut out: Vec<Entity> = Vec::new();
    let mut j: usize = 0;
    while j < keys.len()
        invariant
            j <= keys@.len(),
            out@.len() == j,
            forall|x: int|
                0 <= x < j ==> (#[trigger] out@[x])@ == entity::folder_view(keys@[x]@),
        decreases keys@.len() - j,
    {
        out.push(Entity { key: keys[j].clone(), size: 0, mtime_ms: None, etag: None });
        j = j + 1;
    }
    proof {
        let folders = entity::entities(out@);
        assert(plan::keys_of(folders) =~= sorted_keys);
        assert forall|k: Seq<char>| #[trigger]
            plan::keys_of(folders).contains(k) == is_ancestor(all, k) by {
            assert(sorted_keys.contains(k) == text::texts(names@).contains(k));
        }
        lemma_folders_unique(folders, all);
    }
    out
}

/// Map manifest entries to file entities, by ascending key. Folder views are
/// not part of them: callers combine with [`synthesize_folders`].
pub fn manifest_to_file_entities(m: &ManifestV1) -> (r: Result<Vec<Entity>, Error>)
    ensures
        r is Ok && entity::entities(r->Ok_0@) == by_key(m@.entries),
{
    Ok(sort_entities(to_entities(&m.entries)))
}

/// The manifest of the given files, or the error of the first row that may not
/// be stored.
pub open spec fn manifest_of(
    files: Seq<EntityView>,
    created_ms: u64,
    generator: Option<Seq<char>>,
    prefix: Option<Seq<char>>,
) -> Result<ManifestView, ErrorView> {
    match bad_row(files, 0) {
        Some(i) => Err(write_error(files[i].key, row_fault(files, i)->0)),
        None => Ok(
            ManifestView {
                schema: MANIFEST_SCHEMA@,
                created_ms,
                generator,
                prefix,
                entry_count: files.len() as usize,
                entries: by_key(files),
            },
        ),
    }
}

/// Build a [`ManifestV1`] from file entities. Rejects folder entities (never
/// stored), validates every key, rejects control-plane keys and duplicates,
/// and sorts by key ascending. `created_ms` is the writer's wall clock
/// (diagnostic only); `generator`/`prefix` are optional documentation fields.
pub fn file_entities_to_manifest(
    files: &[Entity],
    created_ms: u64,
    generator: Option<String>,
    prefix: Option<String>,
) -> (r: Result<ManifestV1, Error>)
    ensures
        parse_view(r) == manifest_of(
            entity::entities(files@),
            created_ms,
            text::opt_text(generator),
            text::opt_text(prefix),
        ),
        r is Ok ==> sound(r->Ok_0@),
{
    let ghost all = entity::entities(files@);
    proof {
        lemma_storable(all, 0);
    }
    if let Err(e) = check_rows(files, true) {
        return Err(e);
    }
    proof {
        lemma_sorted_storable(all);
    }
    let ordered = sort_entities(clone_entities(files));
    let rows = to_entries(ordered.as_slice());
    Ok(
        ManifestV1 {
            schema: MANIFEST_SCHEMA.to_owned(),
            created_ms,
            generator,
            prefix,
            entry_count: rows.len(),
            entries: rows,
        },
    )
}

/// Copies of the entities.
pub fn clone_entities(s: &[Entity]) -> (r: Vec<Entity>)
    ensures
        r@ == s@,
{
    let mut out: Vec<Entity> = Vec::new();
    let mut i: usize = 0;
    while i < s.len()
        invariant
            i <= s@.len(),
            out@ == s@.take(i as int),
        decreases s@.len() - i,
    {
        out.push(s[i].clone());
        assert(s@.take(i + 1) =~= s@.take(i as int).push(s@[i as int]));
        i = i + 1;
    }
    assert(s@.take(i as int) =~= s@);
    out
}

proof fn lemma_members_one_line(m: ManifestView)
    ensures
        json::on_one_line(json::object_text(manifest_members(m))),
{
    let all = manifest_members(m);
    assert forall|i: int| 0 <= i < m.entries.len() implies json::on_one_line(
        #[trigger] entry_texts(m.entries)[i],
    ) by {
        let e = m.entries[i];
        let em = entry_members(e);
        assert forall|j: int| 0 <= j < em.len() implies json::on_one_line((#[trigger] em[j]).1) by {
            json::lemma_quote_one_line(e.key);
            text::lemma_dec_chars(e.size as nat);
            if e.mtime_ms is Some {
                text::lemma_dec_chars(e.mtime_ms->0 as nat);
            }
            if e.etag is Some {
                json::lemma_quote_one_line(e.etag->0);
            }
        }
        json::lemma_object_one_line(em);
    }
    json::lemma_array_one_line(entry_texts(m.entries));
    json::lemma_quote_one_line(m.schema);
    text::lemma_dec_chars(m.created_ms as nat);
    text::lemma_dec_chars(m.entry_count as nat);
    if m.generator is Some {
        json::lemma_quote_one_line(m.generator->0);
    }
    if m.prefix is Some {
        json::lemma_quote_one_line(m.prefix->0);
    }
    json::lemma_object_one_line(all);
}

/// A written manifest is compact: it holds no newline byte, nor any other byte
/// below 0x20, whatever its keys and texts hold.
pub proof fn law_written_manifest_is_compact(m: ManifestView)
    ensures
        forall|i: int| 0 <= i < body(m).len() ==> #[trigger] body(m)[i] >= 0x20,
        !body(m).contains(0x0a),
{
    lemma_members_one_line(normal(m));
    text::lemma_bytes_from_space(json::object_text(manifest_members(normal(m))));
}

/// The order of the entries plays no part: a manifest and one that differs in
/// the order of its entries alone are written as the same body, and that body,
/// within the cap, is read back as the manifest with its entries by ascending
/// key. (`reads_back` is what every parse ensures of what it was given.)
pub proof fn law_entry_order_plays_no_part(m: ManifestView, other: ManifestView)
    requires
        sound(m),
        other == (ManifestView { entries: other.entries, ..m }),
        other.entries.to_multiset() == m.entries.to_multiset(),
    ensures
        body(other) == body(m),
        reads_back(body(other)) && body(other).len() <= MANIFEST_MAX_BYTES ==> parsed(
            body(other),
            MANIFEST_MAX_BYTES,
        ) == Ok::<ManifestView, ErrorView>(normal(m)),
{
    let a = by_key(m.entries);
    let b = by_key(other.entries);
    lemma_sorted_storable(m.entries);
    sort::lemma_sorted_in_order::<Entity>(m.entries);
    sort::lemma_sorted_in_order::<Entity>(other.entries);
    sort::lemma_sorted_permutes::<Entity>(m.entries);
    sort::lemma_sorted_permutes::<Entity>(other.entries);
    lemma_same_order(a, b);
}

/// Entities with distinct keys have one order.
proof fn lemma_same_order(a: Seq<EntityView>, b: Seq<EntityView>)
    requires
        storable(a),
        sort::in_order::<Entity>(a),
        sort::in_order::<Entity>(b),
        a.to_multiset() == b.to_multiset(),
    ensures
        a == b,
    decreases a.len(),
{
    broadcast use vstd::seq_lib::group_to_multiset_ensures;

    assert(a.to_multiset().len() == a.len());
    assert(b.to_multiset().len() == b.len());
    if a.len() > 0 {
        let x = a.last();
        let y = b.last();
        assert(a.contains(a[a.len() - 1]));
        assert(b.contains(b[b.len() - 1]));
        assert(b.contains(x)) by {
            assert(b.to_multiset().count(x) > 0);
        }
        assert(a.contains(y)) by {
            assert(a.to_multiset().count(y) > 0);
        }
        let i = choose|i: int| 0 <= i < a.len() && a[i] == y;
        let j = choose|j: int| 0 <= j < b.len() && b[j] == x;
        if i < a.len() - 1 {
            assert(row_fault(a, a.len() - 1) is None);
            assert(a[i].key != x.key) by {
                if a[i].key == x.key {
                    assert(repeats(a, a.len() - 1));
                }
            }
            assert(!text::before(a[a.len() - 1].key, a[i].key));
            assert(j < b.len() - 1);
            assert(!text::before(b[b.len() - 1].key, b[j].key));
            text::lemma_before_total(x.key, y.key);
        }
        assert(x == y);
        let c = a.drop_last();
        let d = b.drop_last();
        assert(a =~= c.push(x) && b =~= d.push(y));
        assert(c.to_multiset() =~= a.to_multiset().remove(x));
        assert(d.to_multiset() =~= b.to_multiset().remove(x));
        assert forall|k: int| 0 <= k < c.len() implies row_fault(c, k) is None by {
            assert(row_fault(a, k) is None);
            assert(c[k] == a[k]);
            if repeats(c, k) {
                let l = choose|l: int| 0 <= l < k && (#[trigger] c[l]).key == c[k].key;
                assert(a[l].key == a[k].key);
                assert(repeats(a, k));
            }
        }
        lemma_same_order(c, d);
    }
}

/// What an entry and a manifest are written as: members of these names in this
/// order, an unknown mtime as `null`, and an absent etag, generator or prefix not
/// at all.
pub proof fn law_manifest_members(e: EntityView, m: ManifestView)
    ensures
        ({
            let w = entry_members(e);
            &&& w.len() == if e.etag is Some {
                4int
            } else {
                3
            }
            &&& w[0] == ("key"@, json::quote(e.key))
            &&& w[1] == ("size"@, text::dec(e.size as nat))
            &&& w[2].0 == "mtime_ms"@
            &&& e.mtime_ms is Some ==> w[2].1 == text::dec(e.mtime_ms->0 as nat)
            &&& e.mtime_ms is None ==> w[2].1 == seq!['n', 'u', 'l', 'l']
            &&& e.etag is Some ==> w[3] == ("etag"@, json::quote(e.etag->0))
        }),
        ({
            let w = manifest_members(m);
            let g = if m.generator is Some {
                1int
            } else {
                0
            };
            let p = if m.prefix is Some {
                1int
            } else {
                0
            };
            &&& w.len() == 4 + g + p
            &&& w[0] == ("schema"@, json::quote(m.schema))
            &&& w[1] == ("created_ms"@, text::dec(m.created_ms as nat))
            &&& m.generator is Some ==> w[2] == ("generator"@, json::quote(m.generator->0))
            &&& m.prefix is Some ==> w[2 + g] == ("prefix"@, json::quote(m.prefix->0))
            &&& w[2 + g + p] == ("entry_count"@, text::dec(m.entry_count as nat))
            &&& w[3 + g + p].0 == "entries"@
        }),
{
}

/// What an entry is read as: its key, size, mtime and etag are those of its
/// members of these names, and it has no other member. The key and the size are
/// required.
pub proof fn law_entries_are_read_by_name(s: Seq<char>, i: int)
    requires
        json::json_object(s) is Ok,
        json::distinct_names(json::json_object(s)->Ok_0),
        decode_entry(s) is Ok,
        0 <= i < json::json_object(s)->Ok_0.len(),
    ensures
        ({
            let (name, raw) = json::json_object(s)->Ok_0[i];
            let e = decode_entry(s)->Ok_0;
            ||| name == "key"@ && json::json_string(raw) == Ok::<Seq<char>, Seq<char>>(e.key)
            ||| name == "size"@ && json::json_u64(raw) == Ok::<u64, Seq<char>>(e.size)
            ||| name == "mtime_ms"@ && raw == seq!['n', 'u', 'l', 'l'] && e.mtime_ms is None
            ||| name == "mtime_ms"@ && e.mtime_ms is Some && json::json_u64(raw) == Ok::<
                u64,
                Seq<char>,
            >(e.mtime_ms->0)
            ||| name == "etag"@ && raw == seq!['n', 'u', 'l', 'l'] && e.etag is None
            ||| name == "etag"@ && e.etag is Some && json::json_string(raw) == Ok::<
                Seq<char>,
                Seq<char>,
            >(e.etag->0)
        }),
        exists|k: int|
            0 <= k < json::json_object(s)->Ok_0.len() && (
            #[trigger] json::json_object(s)->Ok_0[k]).0 == "key"@,
        exists|k: int|
            0 <= k < json::json_object(s)->Ok_0.len() && (
            #[trigger] json::json_object(s)->Ok_0[k]).0 == "size"@,
{
    let m = json::json_object(s)->Ok_0;
    let names = entry_names();
    json::law_fields_are_the_members(s, names, 3, 0);
    json::law_fields_are_the_members(s, names, 3, 1);
    json::law_fields_are_the_members(s, names, 3, 2);
    json::law_fields_are_the_members(s, names, 3, 3);
    if !names.contains(m[i].0) {
        json::law_closed_objects(s, names, 3, i);
    }
    let k = choose|k: int| 0 <= k < names.len() && names[k] == m[i].0;
    assert(k == 0 || k == 1 || k == 2 || k == 3);
}

/// What a manifest is read as: its members of these names are its fields, it has
/// no other member, and the schema, the time, the count and the entries are
/// required.
pub proof fn law_manifests_are_read_by_name(s: Seq<char>, i: int)
    requires
        json::json_object(s) is Ok,
        json::distinct_names(json::json_object(s)->Ok_0),
        decode_manifest(s) is Ok,
        0 <= i < json::json_object(s)->Ok_0.len(),
    ensures
        ({
            let (name, raw) = json::json_object(s)->Ok_0[i];
            let d = decode_manifest(s)->Ok_0;
            ||| name == "schema"@ && json::json_string(raw) == Ok::<Seq<char>, Seq<char>>(d.schema)
            ||| name == "created_ms"@ && json::json_u64(raw) == Ok::<u64, Seq<char>>(d.created_ms)
            ||| name == "generator"@ && (raw == seq!['n', 'u', 'l', 'l'] || json::json_string(raw)
                == Ok::<Seq<char>, Seq<char>>(d.generator->0))
            ||| name == "prefix"@ && (raw == seq!['n', 'u', 'l', 'l'] || json::json_string(raw)
                == Ok::<Seq<char>, Seq<char>>(d.prefix->0))
            ||| name == "entry_count"@ && json::json_u64(raw) is Ok && json::json_u64(raw)->Ok_0
                == d.entry_count
            ||| name == "entries"@ && json::json_array(raw) is Ok && json::json_array(
                raw,
            )->Ok_0.len() == d.entries.len() && forall|k: int|
                0 <= k < d.entries.len() ==> decode_entry(
                    #[trigger] json::json_array(raw)->Ok_0[k],
                ) == Ok::<EntityView, Seq<char>>(d.entries[k])
        }),
        forall|name: Seq<char>|
            name == "schema"@ || name == "created_ms"@ || name == "entry_count"@ || name
                == "entries"@ ==> #[trigger] has_member(json::json_object(s)->Ok_0, name),
{
    let m = json::json_object(s)->Ok_0;
    let names = manifest_names();
    json::law_fields_are_the_members(s, names, 6, 0);
    json::law_fields_are_the_members(s, names, 6, 1);
    json::law_fields_are_the_members(s, names, 6, 2);
    json::law_fields_are_the_members(s, names, 6, 3);
    json::law_fields_are_the_members(s, names, 6, 4);
    json::law_fields_are_the_members(s, names, 6, 5);
    if !names.contains(m[i].0) {
        json::law_closed_objects(s, names, 6, i);
    }
    let k = choose|k: int| 0 <= k < names.len() && names[k] == m[i].0;
    assert(k == 0 || k == 1 || k == 2 || k == 3 || k == 4 || k == 5);
    if k == 5 {
        lemma_entries_one_by_one(json::json_array(m[i].1)->Ok_0);
    }
    assert forall|name: Seq<char>|
        name == "schema"@ || name == "created_ms"@ || name == "entry_count"@ || name
            == "entries"@ implies #[trigger] has_member(m, name) by {
        let f = json::fields(s, names, 6)->Ok_0;
        assert(f[0] is Some && f[1] is Some && f[4] is Some && f[5] is Some);
        assert(names[0] == "schema"@ && names[1] == "created_ms"@ && names[4] == "entry_count"@
            && names[5] == "entries"@);
    }
}

/// Whether an object has a member of a name.
pub open spec fn has_member(m: Seq<(Seq<char>, Seq<char>)>, name: Seq<char>) -> bool {
    exists|k: int| 0 <= k < m.len() && (#[trigger] m[k]).0 == name
}

proof fn lemma_entries_one_by_one(raws: Seq<Seq<char>>)
    requires
        decode_entries(raws) is Ok,
    ensures
        decode_entries(raws)->Ok_0.len() == raws.len(),
        forall|k: int|
            0 <= k < raws.len() ==> decode_entry(#[trigger] raws[k]) == Ok::<EntityView, Seq<char>>(
                decode_entries(raws)->Ok_0[k],
            ),
    decreases raws.len(),
{
    if raws.len() > 0 {
        let d = raws.drop_last();
        lemma_entries_one_by_one(d);
        assert forall|k: int| 0 <= k < raws.len() implies decode_entry(#[trigger] raws[k]) == Ok::<
            EntityView,
            Seq<char>,
        >(decode_entries(raws)->Ok_0[k]) by {
            if k < d.len() {
                assert(d[k] == raws[k]);
            }
        }
    }
}

} // verus!
