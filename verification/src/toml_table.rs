//! The TOML table behind the entries file, held through the `toml` crate.
//!
//! A table is seen as plain data (`table_data`): every key with the whole
//! value it holds, nested arrays and tables included. The library reads two
//! projections of it: every key with the string it holds or `None`
//! (`table_members`), and every key with the members of its value when that
//! value is itself a table or `None` (`table_view`).

use vstd::prelude::*;

verus! {

/// The `toml` crate's map (`toml::Table` is `Map<String, Value>`), opaque
/// here: it is seen only through `table_data`.
#[verifier::external_type_specification]
#[verifier::external_body]
#[verifier::reject_recursive_types(K)]
#[verifier::reject_recursive_types(V)]
pub struct ExTomlMap<K, V>(toml::map::Map<K, V>);

/// A TOML value, opaque here; the library never reads one directly.
#[verifier::external_type_specification]
#[verifier::external_body]
pub struct ExTomlValue(toml::Value);

/// The error of `toml::from_str`, carried to the caller as it is.
#[verifier::external_type_specification]
#[verifier::external_body]
pub struct ExTomlDeError(toml::de::Error);

/// The error of `toml::to_string`, carried to the caller as it is.
#[verifier::external_type_specification]
#[verifier::external_body]
pub struct ExTomlSerError(toml::ser::Error);

/// A TOML value as plain data, one variant for each variant of
/// `toml::Value`: a float by the bits of its `f64`, a datetime by its
/// optional date (year, month, day), optional time (hour, minute, optional
/// second, optional nanosecond) and optional offset (`None` for `Z`, else
/// the minutes east of UTC).
pub enum TomlData {
    Str(Seq<char>),
    Int(int),
    Float(u64),
    Bool(bool),
    Datetime(
        Option<(u16, u8, u8)>,
        Option<(u8, u8, Option<u8>, Option<u32>)>,
        Option<Option<i16>>,
    ),
    Array(Seq<TomlData>),
    Table(Map<Seq<char>, TomlData>),
}

/// A table as plain data: every key, with its value.
pub type TomlTable = Map<Seq<char>, TomlData>;

/// Every key of a table, with the string it holds, or `None` when it
/// holds another kind of value.
pub type Members = Map<Seq<char>, Option<Seq<char>>>;

/// Every key of a table, with the members of its value when that value is
/// itself a table, and `None` when it is anything else.
pub type TableView = Map<Seq<char>, Option<Members>>;

/// What a table holds: every key, with its value as plain data.
pub uninterp spec fn table_data(t: toml::map::Map<String, toml::Value>) -> TomlTable;

/// The table that `toml::from_str` reads from a document, as plain data,
/// or `None` where it reports an error.
pub uninterp spec fn parsed_document(text: Seq<char>) -> Option<TomlTable>;

/// The TOML text that `toml::to_string` writes for a table, or `None`
/// where it reports an error. It depends on the table alone.
pub uninterp spec fn table_text(t: toml::map::Map<String, toml::Value>) -> Option<Seq<char>>;

/// The string a value holds, if it is one.
pub open spec fn member_of(v: TomlData) -> Option<Seq<char>> {
    match v {
        TomlData::Str(s) => Some(s),
        _ => None,
    }
}

/// Every key of `d`, with the string it holds or `None`.
pub open spec fn members_of(d: TomlTable) -> Members {
    Map::new(|k: Seq<char>| d.dom().contains(k), |k: Seq<char>| member_of(d[k]))
}

/// The members of a value, if it is a table.
pub open spec fn inner_of(v: TomlData) -> Option<Members> {
    match v {
        TomlData::Table(m) => Some(members_of(m)),
        _ => None,
    }
}

/// Every key of `d`, with the members of its value when that is a table.
pub open spec fn view_of(d: TomlTable) -> TableView {
    Map::new(|k: Seq<char>| d.dom().contains(k), |k: Seq<char>| inner_of(d[k]))
}

/// Every key of a table, with the string it holds or `None`.
pub open spec fn table_members(t: toml::map::Map<String, toml::Value>) -> Members {
    members_of(table_data(t))
}

/// Every key of a table, with the members of its value when that is a
/// table, or `None`.
pub open spec fn table_view(t: toml::map::Map<String, toml::Value>) -> TableView {
    view_of(table_data(t))
}

/// Putting a value under a key changes the projections at that key only.
pub proof fn lemma_projections_insert(d: TomlTable, k: Seq<char>, v: TomlData)
    ensures
        members_of(d.insert(k, v)) == members_of(d).insert(k, member_of(v)),
        view_of(d.insert(k, v)) == view_of(d).insert(k, inner_of(v)),
{
    assert(members_of(d.insert(k, v)) =~= members_of(d).insert(k, member_of(v)));
    assert(view_of(d.insert(k, v)) =~= view_of(d).insert(k, inner_of(v)));
}

/// Removing a key removes it from the projections.
pub proof fn lemma_projections_remove(d: TomlTable, k: Seq<char>)
    ensures
        members_of(d.remove(k)) == members_of(d).remove(k),
        view_of(d.remove(k)) == view_of(d).remove(k),
{
    assert(members_of(d.remove(k)) =~= members_of(d).remove(k));
    assert(view_of(d.remove(k)) =~= view_of(d).remove(k));
}

/// The empty table projects to empty maps.
pub proof fn lemma_projections_empty()
    ensures
        members_of(TomlTable::empty()) == Members::empty(),
        view_of(TomlTable::empty()) == TableView::empty(),
{
    assert(members_of(TomlTable::empty()) =~= Members::empty());
    assert(view_of(TomlTable::empty()) =~= TableView::empty());
}

/// Keys in strictly ascending order of `str`'s `Ord`, which compares the
/// characters one by one.
pub open spec fn char_less(a: Seq<char>, b: Seq<char>) -> bool
    decreases a.len(),
{
    if a.len() == 0 {
        b.len() > 0
    } else if b.len() == 0 {
        false
    } else if (a[0] as u32) < (b[0] as u32) {
        true
    } else if a[0] == b[0] {
        char_less(a.drop_first(), b.drop_first())
    } else {
        false
    }
}

/// What a lookup in a table finds.
pub(crate) enum Lookup<'a> {
    Missing,
    Text(&'a str),
    Table(&'a toml::map::Map<String, toml::Value>),
    Other,
}

/// A value to store in a table.
pub(crate) enum Item {
    Text(String),
    Table(toml::map::Map<String, toml::Value>),
}

/// Calls `Map::new`. Trusted: the new table has no keys.
#[verifier::external_body]
pub(crate) fn new_table() -> (t: toml::map::Map<String, toml::Value>)
    ensures
        table_data(t) == TomlTable::empty(),
{
    toml::map::Map::new()
}

/// Calls `Map::contains_key`. Trusted: the result says whether the table
/// has the key.
#[verifier::external_body]
pub(crate) fn table_contains(t: &toml::map::Map<String, toml::Value>, key: &str) -> (b: bool)
    ensures
        b == table_data(*t).dom().contains(key@),
{
    t.contains_key(key)
}

/// Calls `Map::get` and tells the value found apart by its kind. Trusted:
/// `Missing` exactly when the key is absent; `Text` with the string held
/// there; `Table` with the inner table held there; `Other` for any other
/// kind of value.
#[verifier::external_body]
pub(crate) fn table_lookup<'a>(t: &'a toml::map::Map<String, toml::Value>, key: &str) -> (r: Lookup<'a>)
    ensures
        match r {
            Lookup::Missing => !table_data(*t).dom().contains(key@),
            Lookup::Text(s) => table_data(*t).dom().contains(key@) && table_data(*t)[key@]
                == TomlData::Str(s@),
            Lookup::Table(inner) => table_data(*t).dom().contains(key@) && table_data(*t)[key@]
                == TomlData::Table(table_data(*inner)),
            Lookup::Other => table_data(*t).dom().contains(key@) && !(table_data(*t)[key@] is Str)
                && !(table_data(*t)[key@] is Table),
        },
{
    match t.get(key) {
        None => Lookup::Missing,
        Some(toml::Value::String(s)) => Lookup::Text(s.as_str()),
        Some(toml::Value::Table(inner)) => Lookup::Table(inner),
        Some(_) => Lookup::Other,
    }
}

/// Calls `Map::insert` with the item made into a TOML value. Trusted: the
/// key now holds the item, whatever it held before; no other key changes.
#[verifier::external_body]
pub(crate) fn table_insert(t: &mut toml::map::Map<String, toml::Value>, key: String, item: Item)
    ensures
        match item {
            Item::Text(s) => table_data(*final(t)) == table_data(*old(t)).insert(
                key@,
                TomlData::Str(s@),
            ),
            Item::Table(inner) => table_data(*final(t)) == table_data(*old(t)).insert(
                key@,
                TomlData::Table(table_data(inner)),
            ),
        },
{
    let value = match item {
        Item::Text(s) => toml::Value::String(s),
        Item::Table(inner) => toml::Value::Table(inner),
    };
    t.insert(key, value);
}

/// Calls `Map::remove`. Trusted: the key is gone, no other key changes,
/// and the result tells whether the key was there.
#[verifier::external_body]
pub(crate) fn table_remove(t: &mut toml::map::Map<String, toml::Value>, key: &str) -> (b: bool)
    ensures
        b == table_data(*old(t)).dom().contains(key@),
        table_data(*final(t)) == table_data(*old(t)).remove(key@),
{
    t.remove(key).is_some()
}

/// Calls `Map::keys`. Trusted: every key of the table, each once, in
/// ascending order (the map is a `BTreeMap`, since the crate's
/// `preserve_order` feature is off, and the crate documents that a table's
/// entries are then kept in lexicographic order of their keys).
#[verifier::external_body]
pub(crate) fn table_keys(t: &toml::map::Map<String, toml::Value>) -> (keys: Vec<String>)
    ensures
        forall|i: int| 0 <= i < keys@.len() ==> table_data(*t).dom().contains(#[trigger] keys@[i]@),
        forall|k: Seq<char>| #[trigger]
            table_data(*t).dom().contains(k) ==> exists|i: int|
                0 <= i < keys@.len() && #[trigger] keys@[i]@ == k,
        forall|i: int, j: int|
            0 <= i < j < keys@.len() ==> char_less(#[trigger] keys@[i]@, #[trigger] keys@[j]@),
{
    t.keys().cloned().collect()
}

/// Calls `toml::from_str` for a table. Trusted: the result is the table
/// that `parsed_document` names for the text, or an error exactly when it
/// names none; an empty text parses, as the empty table.
#[verifier::external_body]
pub(crate) fn parse_table(text: &str) -> (r: Result<toml::map::Map<String, toml::Value>, toml::de::Error>)
    ensures
        match r {
            Ok(t) => parsed_document(text@) == Some(table_data(t)),
            Err(_) => parsed_document(text@) is None,
        },
        r is Err ==> text@.len() > 0,
        r matches Ok(t) ==> (text@.len() == 0 ==> table_data(t) == TomlTable::empty()),
{
    toml::from_str(text)
}

/// Calls `toml::to_string` on a table. Trusted: the text is the one that
/// `table_text` names for the table, and the call fails exactly where it
/// names none. Nothing more is claimed of the text (in particular not that
/// parsing it gives the table back, which the crate does not promise).
#[verifier::external_body]
pub(crate) fn table_to_string(t: &toml::map::Map<String, toml::Value>) -> (r: Result<String, toml::ser::Error>)
    ensures
        match r {
            Ok(s) => table_text(*t) == Some(s@),
            Err(_) => table_text(*t) is None,
        },
{
    toml::to_string(t)
}

} // verus!
