//! Mod metadata read from the jar itself, for mods that neither store can
//! describe: the metadata files a jar may carry, the order in which they are
//! tried, and the fields read from each.

use vstd::prelude::*;

use std::io::Read;

use crate::text::{chars_of, join, join_chars, string_of, trim, trim_chars, views_of};

verus! {

/// Metadata extracted from a mod jar.
#[derive(Debug, Clone)]
pub struct LocalProject {
    pub name: String,
    pub description: String,
    pub authors: String,
    /// Best available link: the mod's homepage when the jar declares one,
    /// otherwise the download URL it was fetched from.
    pub url: String,
    pub version: String,
}

/// A parsed TOML or JSON document, reduced to what metadata is read from:
/// strings, arrays and tables; every other value is `Other`.
#[derive(Debug)]
pub enum DocValue {
    /// A string.
    Text(String),
    /// An array.
    List(Vec<DocValue>),
    /// A table (object): its keys, each once, with their values.
    Table(Vec<DocEntry>),
    /// A number, boolean, date, or null.
    Other,
}

/// One key of a table with its value.
#[derive(Debug)]
pub struct DocEntry {
    pub key: String,
    pub value: DocValue,
}

/// The value of the first entry with `key`.
pub open spec fn entry_value(entries: Seq<DocEntry>, key: Seq<char>) -> Option<DocValue>
    decreases entries.len(),
{
    if entries.len() == 0 {
        None
    } else if entries[0].key@ == key {
        Some(entries[0].value)
    } else {
        entry_value(entries.skip(1), key)
    }
}

/// `value.get(key)`: the value under `key` when `value` is a table.
pub open spec fn doc_get(value: DocValue, key: Seq<char>) -> Option<DocValue> {
    match value {
        DocValue::Table(entries) => entry_value(entries@, key),
        _ => None,
    }
}

/// `value.as_str()` on an optional value.
pub open spec fn text_of(value: Option<DocValue>) -> Option<Seq<char>> {
    match value {
        Some(DocValue::Text(s)) => Some(s@),
        _ => None,
    }
}

/// The string held by an optional value, or the empty string.
pub open spec fn text_or_empty(value: Option<DocValue>) -> Seq<char> {
    match text_of(value) {
        Some(s) => s,
        None => Seq::empty(),
    }
}

/// `value.get(key)`.
pub fn get_value<'a>(value: &'a DocValue, key: &String) -> (r: Option<&'a DocValue>)
    ensures
        r matches Some(x) ==> doc_get(*value, key@) == Some(*x),
        r is None ==> doc_get(*value, key@) is None,
{
    match value {
        DocValue::Table(entries) => {
            let mut i: usize = 0;
            assert(entries@.skip(0) =~= entries@);
            while i < entries.len()
                invariant
                    i <= entries.len(),
                    doc_get(*value, key@) == entry_value(entries@, key@),
                    entry_value(entries@, key@) == entry_value(entries@.skip(i as int), key@),
                decreases entries.len() - i,
            {
                let ghost rest = entries@.skip(i as int);
                assert(rest[0] == entries@[i as int]);
                if entries[i].key == *key {
                    return Some(&entries[i].value);
                }
                assert(rest.skip(1) =~= entries@.skip(i + 1));
                i = i + 1;
            }
            None
        },
        _ => None,
    }
}

/// `value.get(key).and_then(|v| v.as_str())`.
pub fn field_text<'a>(value: &'a DocValue, key: &String) -> (r: Option<&'a String>)
    ensures
        r matches Some(s) ==> text_of(doc_get(*value, key@)) == Some(s@),
        r is None ==> text_of(doc_get(*value, key@)) is None,
{
    match get_value(value, key) {
        Some(DocValue::Text(s)) => Some(s),
        _ => None,
    }
}

/// `value.get(key).and_then(|v| v.as_str()).unwrap_or("")`, copied.
pub fn field_text_or_empty(value: &DocValue, key: &String) -> (r: String)
    ensures
        r@ == text_or_empty(doc_get(*value, key@)),
{
    match field_text(value, key) {
        Some(s) => s.clone(),
        None => String::new(),
    }
}


/// The first entry of the `mods` array of a Forge/NeoForge `mods.toml`,
/// when it is a table.
pub open spec fn forge_entry(doc: DocValue) -> Option<DocValue> {
    match doc_get(doc, "mods"@) {
        Some(DocValue::List(items)) => if items@.len() > 0 && items@[0] is Table {
            Some(items@[0])
        } else {
            None
        },
        _ => None,
    }
}

/// The name of a mod entry: its `displayName`, or its `modId` when it has no
/// `displayName`; nothing when the chosen value is not a string.
pub open spec fn entry_name(entry: DocValue, first: Seq<char>, second: Seq<char>) -> Option<Seq<char>> {
    match doc_get(entry, first) {
        Some(v) => text_of(Some(v)),
        None => text_of(doc_get(entry, second)),
    }
}

/// A Forge/NeoForge document describes a mod.
pub open spec fn forge_ok(doc: DocValue) -> bool {
    forge_entry(doc) matches Some(e) && entry_name(e, "displayName"@, "modId"@) is Some
}

/// The link of a Forge/NeoForge mod entry: its homepage (`displayURL`) when
/// that is a string, else the download address.
pub open spec fn forge_url(entry: DocValue, fallback_url: Seq<char>) -> Seq<char> {
    match text_of(doc_get(entry, "displayURL"@)) {
        Some(u) => u,
        None => fallback_url,
    }
}

/// `p` holds what a Forge/NeoForge document says of its first mod: the
/// name, the trimmed description, the authors and version (empty when
/// absent or not strings), and the homepage, or the download address when
/// the entry declares none.
pub open spec fn forge_fields(p: LocalProject, doc: DocValue, fallback_url: Seq<char>) -> bool {
    let e = forge_entry(doc).unwrap();
    &&& Some(p.name@) == entry_name(e, "displayName"@, "modId"@)
    &&& p.description@ == trim(text_or_empty(doc_get(e, "description"@)))
    &&& p.authors@ == text_or_empty(doc_get(e, "authors"@))
    &&& p.version@ == text_or_empty(doc_get(e, "version"@))
    &&& p.url@ == forge_url(e, fallback_url)
}

/// The name of a table entry, preferring `first` and falling back to
/// `second` only when `first` is missing.
fn name_field(entry: &DocValue, first: &String, second: &String) -> (r: Option<String>)
    ensures
        r matches Some(s) ==> entry_name(*entry, first@, second@) == Some(s@),
        r is None ==> entry_name(*entry, first@, second@) is None,
{
    match get_value(entry, first) {
        Some(v) => match v {
            DocValue::Text(s) => Some(s.clone()),
            _ => None,
        },
        None => match field_text(entry, second) {
            Some(s) => Some(s.clone()),
            None => None,
        },
    }
}

/// The metadata of the first mod of a Forge/NeoForge `mods.toml` document.
pub fn forge_metadata(doc: &DocValue, fallback_url: &str) -> (r: Option<LocalProject>)
    ensures
        r is Some == forge_ok(*doc),
        r matches Some(p) ==> forge_fields(p, *doc, fallback_url@),
{
    let mods_key = String::from_str("mods");
    let items = match get_value(doc, &mods_key) {
        Some(DocValue::List(items)) => items,
        _ => {
            return None;
        },
    };
    if items.len() == 0 {
        return None;
    }
    let entry = &items[0];
    match entry {
        DocValue::Table(_) => {},
        _ => {
            return None;
        },
    }
    assert(forge_entry(*doc) == Some(*entry));
    let name = match name_field(entry, &String::from_str("displayName"), &String::from_str("modId")) {
        Some(n) => n,
        None => {
            return None;
        },
    };
    let description = field_text_or_empty(entry, &String::from_str("description"));
    let description = string_of(&trim_chars(&chars_of(description.as_str())));
    let authors = field_text_or_empty(entry, &String::from_str("authors"));
    let version = field_text_or_empty(entry, &String::from_str("version"));
    let url = match field_text(entry, &String::from_str("displayURL")) {
        Some(u) => u.clone(),
        None => String::from_str(fallback_url),
    };
    Some(LocalProject { name, description, authors, url, version })
}

/// The strings among `items`, in order.
pub open spec fn texts_in(items: Seq<DocValue>) -> Seq<Seq<char>>
    decreases items.len(),
{
    if items.len() == 0 {
        Seq::empty()
    } else {
        match items.last() {
            DocValue::Text(s) => texts_in(items.drop_last()).push(s@),
            _ => texts_in(items.drop_last()),
        }
    }
}

/// The separator between the authors of a Fabric mod.
pub open spec fn author_separator() -> Seq<char> {
    seq![',', ' ']
}

/// The authors of a Fabric mod: its `authors` array's strings joined with
/// `", "` (entries that are not strings skipped), or empty when there is no
/// such array.
pub open spec fn fabric_authors(doc: DocValue) -> Seq<char> {
    match doc_get(doc, "authors"@) {
        Some(DocValue::List(items)) => join(texts_in(items@), author_separator()),
        _ => Seq::empty(),
    }
}

/// The link of a Fabric mod: `contact.homepage` when it is a string, else the
/// download address.
pub open spec fn fabric_url(doc: DocValue, fallback_url: Seq<char>) -> Seq<char> {
    match doc_get(doc, "contact"@) {
        Some(c) => match text_of(doc_get(c, "homepage"@)) {
            Some(h) => h,
            None => fallback_url,
        },
        None => fallback_url,
    }
}

/// A `fabric.mod.json` document describes a mod: it has a `name`, or an `id`
/// when it has no `name`, and that value is a string.
pub open spec fn fabric_ok(doc: DocValue) -> bool {
    entry_name(doc, "name"@, "id"@) is Some
}

/// `p` holds what a `fabric.mod.json` document says: the name, the
/// description and version (empty when absent or not strings), the authors
/// and the link.
pub open spec fn fabric_fields(p: LocalProject, doc: DocValue, fallback_url: Seq<char>) -> bool {
    &&& Some(p.name@) == entry_name(doc, "name"@, "id"@)
    &&& p.description@ == text_or_empty(doc_get(doc, "description"@))
    &&& p.authors@ == fabric_authors(doc)
    &&& p.version@ == text_or_empty(doc_get(doc, "version"@))
    &&& p.url@ == fabric_url(doc, fallback_url)
}

/// The authors of a Fabric mod document.
fn authors_field(doc: &DocValue) -> (r: String)
    ensures
        r@ == fabric_authors(*doc),
{
    let items = match get_value(doc, &String::from_str("authors")) {
        Some(DocValue::List(items)) => items,
        _ => {
            return String::new();
        },
    };
    let mut names: Vec<Vec<char>> = Vec::new();
    let mut i: usize = 0;
    while i < items.len()
        invariant
            i <= items.len(),
            views_of(names@) == texts_in(items@.take(i as int)),
        decreases items.len() - i,
    {
        assert(items@.take(i + 1).drop_last() =~= items@.take(i as int));
        assert(items@.take(i + 1).last() == items@[i as int]);
        match &items[i] {
            DocValue::Text(s) => {
                let ghost before = names@;
                names.push(chars_of(s.as_str()));
                assert(views_of(names@) =~= views_of(before).push(s@));
            },
            _ => {},
        }
        i = i + 1;
    }
    assert(items@.take(items.len() as int) =~= items@);
    let sep = vec![',', ' '];
    assert(sep@ =~= author_separator());
    string_of(&join_chars(&names, &sep))
}

/// The link of a Fabric mod document.
fn url_field(doc: &DocValue, fallback_url: &str) -> (r: String)
    ensures
        r@ == fabric_url(*doc, fallback_url@),
{
    match get_value(doc, &String::from_str("contact")) {
        Some(c) => match field_text(c, &String::from_str("homepage")) {
            Some(h) => h.clone(),
            None => String::from_str(fallback_url),
        },
        None => String::from_str(fallback_url),
    }
}

/// The metadata of a `fabric.mod.json` document.
pub fn fabric_metadata(doc: &DocValue, fallback_url: &str) -> (r: Option<LocalProject>)
    ensures
        r is Some == fabric_ok(*doc),
        r matches Some(p) ==> fabric_fields(p, *doc, fallback_url@),
{
    let name = match name_field(doc, &String::from_str("name"), &String::from_str("id")) {
        Some(n) => n,
        None => {
            return None;
        },
    };
    let description = field_text_or_empty(doc, &String::from_str("description"));
    let authors = authors_field(doc);
    let version = field_text_or_empty(doc, &String::from_str("version"));
    let url = url_field(doc, fallback_url);
    Some(LocalProject { name, description, authors, url, version })
}


/// Lets `toml::Value` appear in signatures.
#[verifier::external_type_specification]
#[verifier::external_body]
pub struct ExTomlValue(toml::Value);

/// Lets `serde_json::Value` appear in signatures.
#[verifier::external_type_specification]
#[verifier::external_body]
pub struct ExJsonValue(serde_json::Value);

/// Turns a `toml::Value` into a `DocValue`, variant by variant (strings,
/// arrays and tables kept, everything else `Other`).
///
/// Trusted: used only by `parse_toml_document`; claims nothing by itself.
#[verifier::external_body]
fn doc_from_toml(value: toml::Value) -> DocValue {
    match value {
        toml::Value::String(s) => DocValue::Text(s),
        toml::Value::Array(items) => DocValue::List(items.into_iter().map(doc_from_toml).collect()),
        toml::Value::Table(entries) => DocValue::Table(
            entries.into_iter().map(|(key, v)| DocEntry { key, value: doc_from_toml(v) }).collect(),
        ),
        _ => DocValue::Other,
    }
}

/// Turns a `serde_json::Value` into a `DocValue`, variant by variant
/// (strings, arrays and objects kept, everything else `Other`).
///
/// Trusted: used only by `parse_json_document`; claims nothing by itself.
#[verifier::external_body]
fn doc_from_json(value: serde_json::Value) -> DocValue {
    match value {
        serde_json::Value::String(s) => DocValue::Text(s),
        serde_json::Value::Array(items) => DocValue::List(items.into_iter().map(doc_from_json).collect()),
        serde_json::Value::Object(entries) => DocValue::Table(
            entries.into_iter().map(|(key, v)| DocEntry { key, value: doc_from_json(v) }).collect(),
        ),
        _ => DocValue::Other,
    }
}

/// The document that the `toml` crate reads from `text` (as a `DocValue`),
/// or nothing when `text` is not valid TOML.
pub uninterp spec fn toml_document(text: Seq<char>) -> Option<DocValue>;

/// The document that `serde_json` reads from `text` (as a `DocValue`), or
/// nothing when `text` is not valid JSON.
pub uninterp spec fn json_document(text: Seq<char>) -> Option<DocValue>;

/// `text.parse::<toml::Value>().ok()`, as a `DocValue`.
///
/// Trusted: the result is the one named by `toml_document`; nothing is
/// claimed of TOML syntax itself.
#[verifier::external_body]
fn parse_toml_document(text: &str) -> (r: Option<DocValue>)
    ensures
        r == toml_document(text@),
{
    text.parse::<toml::Value>().ok().map(doc_from_toml)
}

/// `serde_json::from_str::<serde_json::Value>(text).ok()`, as a `DocValue`.
///
/// Trusted: the result is the one named by `json_document`; nothing is
/// claimed of JSON syntax itself.
#[verifier::external_body]
fn parse_json_document(text: &str) -> (r: Option<DocValue>)
    ensures
        r == json_document(text@),
{
    serde_json::from_str::<serde_json::Value>(text).ok().map(doc_from_json)
}

/// Reading a Forge/NeoForge metadata text succeeds.
pub open spec fn forge_text_ok(text: Seq<char>) -> bool {
    toml_document(text) matches Some(d) && forge_ok(d)
}

/// Reading a Fabric metadata text succeeds.
pub open spec fn fabric_text_ok(text: Seq<char>) -> bool {
    json_document(text) matches Some(d) && fabric_ok(d)
}

/// The metadata of the first mod of a Forge/NeoForge `mods.toml`.
pub fn parse_forge_toml(content: &str, fallback_url: &str) -> (r: Option<LocalProject>)
    ensures
        r is Some == forge_text_ok(content@),
        r matches Some(p) ==> forge_fields(p, toml_document(content@).unwrap(), fallback_url@),
{
    match parse_toml_document(content) {
        Some(doc) => forge_metadata(&doc, fallback_url),
        None => None,
    }
}

/// The metadata of a `fabric.mod.json`.
pub fn parse_fabric_json(content: &str, fallback_url: &str) -> (r: Option<LocalProject>)
    ensures
        r is Some == fabric_text_ok(content@),
        r matches Some(p) ==> fabric_fields(p, json_document(content@).unwrap(), fallback_url@),
{
    match parse_json_document(content) {
        Some(doc) => fabric_metadata(&doc, fallback_url),
        None => None,
    }
}

/// The text of the file `name` inside the zip archive `archive`, or nothing
/// when the bytes are not a zip archive, hold no such file, or the file is
/// not UTF-8 text.
pub uninterp spec fn zip_text(archive: Seq<u8>, name: Seq<char>) -> Option<Seq<char>>;

/// Opens the zip archive held in `archive` with `zip::ZipArchive::new`, looks
/// up `name` with `by_name` and reads it as UTF-8 text.
///
/// Trusted: the result is the one named by `zip_text`.
#[verifier::external_body]
fn zip_entry_text(archive: &Vec<u8>, name: &str) -> (r: Option<String>)
    ensures
        r matches Some(s) ==> zip_text(archive@, name@) == Some(s@),
        r is None ==> zip_text(archive@, name@) is None,
{
    let mut zip = zip::ZipArchive::new(std::io::Cursor::new(archive.as_slice())).ok()?;
    let mut entry = zip.by_name(name).ok()?;
    let mut content = String::new();
    entry.read_to_string(&mut content).ok()?;
    Some(content)
}

/// Where NeoForge keeps mod metadata in a jar.
pub open spec fn neoforge_metadata_path() -> Seq<char> {
    "META-INF/neoforge.mods.toml"@
}

/// Where Forge keeps mod metadata in a jar.
pub open spec fn forge_metadata_path() -> Seq<char> {
    "META-INF/mods.toml"@
}

/// Where Fabric keeps mod metadata in a jar.
pub open spec fn fabric_metadata_path() -> Seq<char> {
    "fabric.mod.json"@
}

/// The metadata file at `path` in the jar reads as Forge/NeoForge metadata.
pub open spec fn forge_file_ok(jar: Seq<u8>, path: Seq<char>) -> bool {
    zip_text(jar, path) matches Some(t) && forge_text_ok(t)
}

/// The metadata file at `path` in the jar reads as Fabric metadata.
pub open spec fn fabric_file_ok(jar: Seq<u8>, path: Seq<char>) -> bool {
    zip_text(jar, path) matches Some(t) && fabric_text_ok(t)
}

/// `p` is the metadata read from the jar: from the NeoForge file when it
/// reads, else from the Forge file when it reads, else from the Fabric file.
pub open spec fn jar_metadata(p: LocalProject, jar: Seq<u8>, fallback_url: Seq<char>) -> bool {
    if forge_file_ok(jar, neoforge_metadata_path()) {
        forge_fields(p, toml_document(zip_text(jar, neoforge_metadata_path()).unwrap()).unwrap(), fallback_url)
    } else if forge_file_ok(jar, forge_metadata_path()) {
        forge_fields(p, toml_document(zip_text(jar, forge_metadata_path()).unwrap()).unwrap(), fallback_url)
    } else {
        fabric_fields(p, json_document(zip_text(jar, fabric_metadata_path()).unwrap()).unwrap(), fallback_url)
    }
}

/// Mod metadata from a downloaded jar, trying the NeoForge, then the Forge,
/// then the Fabric metadata file; a file that is missing or does not read is
/// skipped.
pub fn extract_metadata(jar: &Vec<u8>, fallback_url: &str) -> (r: Option<LocalProject>)
    ensures
        r is Some == (forge_file_ok(jar@, neoforge_metadata_path()) || forge_file_ok(jar@, forge_metadata_path())
            || fabric_file_ok(jar@, fabric_metadata_path())),
        r matches Some(p) ==> jar_metadata(p, jar@, fallback_url@),
{
    let neoforge = String::from_str("META-INF/neoforge.mods.toml");
    if let Some(content) = zip_entry_text(jar, neoforge.as_str()) {
        if let Some(project) = parse_forge_toml(content.as_str(), fallback_url) {
            return Some(project);
        }
    }
    let forge = String::from_str("META-INF/mods.toml");
    if let Some(content) = zip_entry_text(jar, forge.as_str()) {
        if let Some(project) = parse_forge_toml(content.as_str(), fallback_url) {
            return Some(project);
        }
    }
    let fabric = String::from_str("fabric.mod.json");
    if let Some(content) = zip_entry_text(jar, fabric.as_str()) {
        if let Some(project) = parse_fabric_json(content.as_str(), fallback_url) {
            return Some(project);
        }
    }
    None
}

/// What a `fabric.mod.json` gives: the `name` string (the `id` string when
/// there is no `name`); the `description` and `version` strings, empty when
/// absent or not strings; no authors without an `authors` array; and as the
/// link the `contact.homepage` string, or the download address when there
/// is no such string (no `contact` included).
pub proof fn law_fabric_metadata(p: LocalProject, doc: DocValue, fallback_url: Seq<char>)
    requires
        fabric_fields(p, doc, fallback_url),
    ensures
        doc_get(doc, "name"@) matches Some(DocValue::Text(n)) ==> p.name@ == n@,
        doc_get(doc, "name"@) is None ==> (doc_get(doc, "id"@) matches Some(DocValue::Text(i)) && p.name@ == i@),
        doc_get(doc, "description"@) matches Some(DocValue::Text(d)) ==> p.description@ == d@,
        !(doc_get(doc, "description"@) matches Some(DocValue::Text(_))) ==> p.description@ == Seq::<char>::empty(),
        doc_get(doc, "version"@) matches Some(DocValue::Text(v)) ==> p.version@ == v@,
        !(doc_get(doc, "version"@) matches Some(DocValue::Text(_))) ==> p.version@ == Seq::<char>::empty(),
        !(doc_get(doc, "authors"@) matches Some(DocValue::List(_))) ==> p.authors@ == Seq::<char>::empty(),
        forall|c: DocValue, h: String|
            doc_get(doc, "contact"@) == Some(c) && doc_get(c, "homepage"@) == Some(DocValue::Text(h)) ==> p.url@ == h@,
        (doc_get(doc, "contact"@) is None || !(doc_get(doc_get(doc, "contact"@)->0, "homepage"@) matches Some(
            DocValue::Text(_),
        ))) ==> p.url@ == fallback_url,
{
}

/// What a Forge/NeoForge `mods.toml` gives, from the first entry of its
/// `mods` array: the `displayName` string (the `modId` string when there is
/// no `displayName`); the `description` string without leading and trailing
/// white space; the `authors` and `version` strings; each of these empty when
/// absent or not a string; and as the link the `displayURL` string, or the
/// download address when there is none.
pub proof fn law_forge_metadata(p: LocalProject, doc: DocValue, fallback_url: Seq<char>)
    requires
        forge_ok(doc),
        forge_fields(p, doc, fallback_url),
    ensures
        doc_get(doc, "mods"@) matches Some(DocValue::List(items)) && items@.len() > 0 && ({
            let e = items@[0];
            &&& doc_get(e, "displayName"@) matches Some(DocValue::Text(n)) ==> p.name@ == n@
            &&& doc_get(e, "displayName"@) is None ==> (doc_get(e, "modId"@) matches Some(DocValue::Text(i))
                && p.name@ == i@)
            &&& doc_get(e, "description"@) matches Some(DocValue::Text(d)) ==> p.description@ == trim(d@)
            &&& !(doc_get(e, "description"@) matches Some(DocValue::Text(_))) ==> p.description@
                == Seq::<char>::empty()
            &&& doc_get(e, "authors"@) matches Some(DocValue::Text(a)) ==> p.authors@ == a@
            &&& !(doc_get(e, "authors"@) matches Some(DocValue::Text(_))) ==> p.authors@ == Seq::<char>::empty()
            &&& doc_get(e, "version"@) matches Some(DocValue::Text(v)) ==> p.version@ == v@
            &&& !(doc_get(e, "version"@) matches Some(DocValue::Text(_))) ==> p.version@ == Seq::<char>::empty()
            &&& doc_get(e, "displayURL"@) matches Some(DocValue::Text(u)) ==> p.url@ == u@
            &&& !(doc_get(e, "displayURL"@) matches Some(DocValue::Text(_))) ==> p.url@ == fallback_url
        }),
{
    assert(trim(Seq::<char>::empty()) == Seq::<char>::empty()) by {
        assert(crate::text::trim_end(Seq::<char>::empty()) == Seq::<char>::empty());
        assert(crate::text::trim_start(Seq::<char>::empty()) == Seq::<char>::empty());
    }
}

} // verus!
