//! The editable manifest tree of `toml_edit`, as the rest of the library sees
//! it. Tables and inline tables are maps from keys to items; `Item` and
//! `Value` are read by their variants. Every call into `toml_edit` stands here.
use vstd::prelude::*;

verus! {

#[verifier::external_type_specification]
#[verifier::external_body]
pub struct ExDocument(toml_edit::Document);

#[verifier::external_type_specification]
#[verifier::external_body]
pub struct ExTable(toml_edit::Table);

#[verifier::external_type_specification]
#[verifier::external_body]
pub struct ExInlineTable(toml_edit::InlineTable);

#[verifier::external_type_specification]
#[verifier::external_body]
pub struct ExArrayOfTables(toml_edit::ArrayOfTables);

#[verifier::external_type_specification]
#[verifier::external_body]
pub struct ExArray(toml_edit::Array);

#[verifier::external_type_specification]
#[verifier::external_body]
pub struct ExDatetime(toml_edit::Datetime);

#[verifier::external_type_specification]
#[verifier::external_body]
pub struct ExDecor(toml_edit::Decor);

#[verifier::external_type_specification]
#[verifier::external_body]
#[verifier::reject_recursive_types(T)]
pub struct ExFormatted<T>(toml_edit::Formatted<T>);

#[verifier::external_type_specification]
pub struct ExValue(toml_edit::Value);

#[verifier::external_type_specification]
pub struct ExItem(toml_edit::Item);

/// What a table holds: each key whose item is not `Item::None`, with its item.
pub uninterp spec fn table_items(t: toml_edit::Table) -> Map<Seq<char>, toml_edit::Item>;

/// The decoration of each key of a table whose item is not `Item::None`:
/// the comments and whitespace around the key, such as comment lines above
/// an entry.
pub uninterp spec fn table_key_decors(t: toml_edit::Table) -> Map<Seq<char>, toml_edit::Decor>;

/// What an inline table holds: each key with its value.
pub uninterp spec fn inline_items(t: toml_edit::InlineTable) -> Map<Seq<char>, toml_edit::Value>;

/// The keys of an inline table, in order.
pub uninterp spec fn inline_keys(t: toml_edit::InlineTable) -> Seq<Seq<char>>;

/// The decoration (surrounding whitespace and comments) of an inline table.
pub uninterp spec fn inline_decor(t: toml_edit::InlineTable) -> toml_edit::Decor;

/// The decoration (surrounding whitespace and comments) of a value.
pub uninterp spec fn value_decor(v: toml_edit::Value) -> toml_edit::Decor;

/// The value that `Value::from` makes of a boolean.
pub uninterp spec fn bool_value(b: bool) -> toml_edit::Value;

/// The value that `Value::from` makes of a string.
pub uninterp spec fn string_value(s: Seq<char>) -> toml_edit::Value;

/// The root item of a document.
pub uninterp spec fn document_item(d: toml_edit::Document) -> toml_edit::Item;

/// The items of the root table of the document that a text parses to.
pub uninterp spec fn parsed_root(s: Seq<char>) -> Map<Seq<char>, toml_edit::Item>;

/// The text that a document renders to.
pub uninterp spec fn rendered(d: toml_edit::Document) -> Seq<char>;

pub open spec fn no_items() -> Map<Seq<char>, toml_edit::Item> {
    Map::empty()
}

pub open spec fn no_fields() -> Map<Seq<char>, toml_edit::Value> {
    Map::empty()
}

pub open spec fn no_decors() -> Map<Seq<char>, toml_edit::Decor> {
    Map::empty()
}

/// The key decorations of a table item; none for anything else.
pub open spec fn key_decors_of(i: toml_edit::Item) -> Map<Seq<char>, toml_edit::Decor> {
    match i {
        toml_edit::Item::Table(t) => table_key_decors(t),
        _ => no_decors(),
    }
}

/// The keys other than `key`, in their order.
pub open spec fn without_key(ks: Seq<Seq<char>>, key: Seq<char>) -> Seq<Seq<char>> {
    ks.filter(|k: Seq<char>| k != key)
}

pub open spec fn no_keys() -> Seq<Seq<char>> {
    Seq::empty()
}

/// The items of a table item; none for anything else.
pub open spec fn table_of(i: toml_edit::Item) -> Map<Seq<char>, toml_edit::Item> {
    match i {
        toml_edit::Item::Table(t) => table_items(t),
        _ => no_items(),
    }
}

/// Whether `toml_edit` parses the text as a document.
pub uninterp spec fn parses(s: Seq<char>) -> bool;

/// Relies on `Document::from_str`: `Some` exactly when the text parses; the
/// parser starts from a root table and fills it.
#[verifier::external_body]
pub(crate) fn parse_document(text: &str) -> (r: Option<toml_edit::Document>)
    ensures
        r.is_some() == parses(text@),
        r matches Some(d) ==> document_item(d) is Table,
        r matches Some(d) ==> table_of(document_item(d)) == parsed_root(text@),
{
    text.parse::<toml_edit::Document>().ok()
}

/// Relies on `Document`'s `Display`, which reads the root as a table: the
/// document as text.
#[verifier::external_body]
pub(crate) fn render_document(d: &toml_edit::Document) -> (r: String)
    requires
        document_item(*d) is Table,
    ensures
        r@ == rendered(*d),
{
    d.to_string()
}

/// Relies on `Document::as_item_mut`: the root item, edited in place.
#[verifier::external_body]
pub(crate) fn root_item_mut(d: &mut toml_edit::Document) -> (r: &mut toml_edit::Item)
    ensures
        *r == document_item(*old(d)),
        document_item(*final(d)) == *final(r),
{
    d.as_item_mut()
}

/// Relies on `Table::new`: an empty table.
#[verifier::external_body]
pub(crate) fn new_table() -> (r: toml_edit::Table)
    ensures
        table_items(r) == no_items(),
        table_key_decors(r) == no_decors(),
{
    toml_edit::Table::new()
}

/// Relies on `Table::iter`: every key whose item is not `Item::None`, once.
#[verifier::external_body]
pub(crate) fn table_keys(t: &toml_edit::Table) -> (r: Vec<String>)
    ensures
        r@.map_values(|s: String| s@).no_duplicates(),
        forall|k: Seq<char>|
            r@.map_values(|s: String| s@).contains(k) <==> table_items(*t).contains_key(k),
{
    t.iter().map(|(k, _)| k.to_owned()).collect()
}

/// Relies on `Table::contains_key`.
#[verifier::external_body]
pub(crate) fn table_contains(t: &toml_edit::Table, key: &str) -> (r: bool)
    ensures
        r == table_items(*t).contains_key(key@),
{
    t.contains_key(key)
}

/// Relies on `Table::get`: the item under a key that is present.
#[verifier::external_body]
pub(crate) fn table_item<'a>(t: &'a toml_edit::Table, key: &str) -> (r: &'a toml_edit::Item)
    requires
        table_items(*t).contains_key(key@),
    ensures
        *r == table_items(*t)[key@],
        !(*r is None),
{
    t.get(key).unwrap()
}

/// Relies on `Table::get_mut`: the item under a key that is present, edited
/// in place; the keys, with their decorations, stay.
#[verifier::external_body]
pub(crate) fn table_item_mut<'a>(t: &'a mut toml_edit::Table, key: &str) -> (r:
    &'a mut toml_edit::Item)
    requires
        table_items(*old(t)).contains_key(key@),
    ensures
        *r == table_items(*old(t))[key@],
        !(*r is None),
        table_items(*final(t)) == if *final(r) is None {
            table_items(*old(t)).remove(key@)
        } else {
            table_items(*old(t)).insert(key@, *final(r))
        },
        !(*final(r) is None) ==> table_key_decors(*final(t)) == table_key_decors(*old(t)),
{
    t.get_mut(key).unwrap()
}

/// Relies on `Table::insert`: the key gets a fresh decoration, the other
/// keys keep theirs.
#[verifier::external_body]
pub(crate) fn table_insert(t: &mut toml_edit::Table, key: &str, item: toml_edit::Item)
    requires
        !(item is None),
    ensures
        table_items(*final(t)) == table_items(*old(t)).insert(key@, item),
        table_key_decors(*final(t)).remove(key@) == table_key_decors(*old(t)).remove(key@),
{
    t.insert(key, item);
}

/// Relies on `Table::remove`.
#[verifier::external_body]
pub(crate) fn table_remove(t: &mut toml_edit::Table, key: &str)
    ensures
        table_items(*final(t)) == table_items(*old(t)).remove(key@),
        table_key_decors(*final(t)) == table_key_decors(*old(t)).remove(key@),
{
    t.remove(key);
}

/// Relies on `InlineTable::new`: an empty inline table.
#[verifier::external_body]
pub(crate) fn new_inline_table() -> (r: toml_edit::InlineTable)
    ensures
        inline_items(r) == no_fields(),
        inline_keys(r) == no_keys(),
{
    toml_edit::InlineTable::new()
}

/// Relies on `InlineTable::insert`, which leaves the decoration alone; as in
/// `IndexMap::insert`, a new key comes last and a present key keeps its place.
#[verifier::external_body]
pub(crate) fn inline_insert(t: &mut toml_edit::InlineTable, key: &str, v: toml_edit::Value)
    ensures
        inline_items(*final(t)) == inline_items(*old(t)).insert(key@, v),
        inline_keys(*final(t)) == if inline_items(*old(t)).contains_key(key@) {
            inline_keys(*old(t))
        } else {
            inline_keys(*old(t)).push(key@)
        },
        inline_decor(*final(t)) == inline_decor(*old(t)),
{
    t.insert(key, v);
}

/// Relies on `InlineTable::remove`, which leaves the decoration alone; as in
/// `IndexMap::shift_remove`, the other keys keep their order.
#[verifier::external_body]
pub(crate) fn inline_remove(t: &mut toml_edit::InlineTable, key: &str)
    ensures
        inline_items(*final(t)) == inline_items(*old(t)).remove(key@),
        inline_keys(*final(t)) == without_key(inline_keys(*old(t)), key@),
        inline_decor(*final(t)) == inline_decor(*old(t)),
{
    t.remove(key);
}

/// Relies on `InlineTable::decor_mut`: replaces the decoration only.
#[verifier::external_body]
pub(crate) fn set_inline_decor(t: &mut toml_edit::InlineTable, d: toml_edit::Decor)
    ensures
        inline_items(*final(t)) == inline_items(*old(t)),
        inline_keys(*final(t)) == inline_keys(*old(t)),
        inline_decor(*final(t)) == d,
{
    *t.decor_mut() = d;
}

/// Relies on `Value::decor`: a copy of the value's decoration.
#[verifier::external_body]
pub(crate) fn decor_of(v: &toml_edit::Value) -> (r: toml_edit::Decor)
    ensures
        r == value_decor(*v),
{
    v.decor().clone()
}

/// Relies on `Value::from(bool)`: a boolean value.
#[verifier::external_body]
pub(crate) fn from_bool(b: bool) -> (r: toml_edit::Value)
    ensures
        r == bool_value(b),
        r is Boolean,
{
    toml_edit::Value::from(b)
}

/// Relies on `Value::from(&str)`: a string value.
#[verifier::external_body]
pub(crate) fn from_str(s: &str) -> (r: toml_edit::Value)
    ensures
        r == string_value(s@),
        r is String,
{
    toml_edit::Value::from(s)
}

} // verus!
