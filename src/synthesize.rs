//! The workspace table synthesizer: one shared declaration per candidate in
//! the root manifest's `[workspace.dependencies]`, added next to the entries
//! already there and never over them.
use vstd::prelude::*;
use crate::aggregate::{names_distinct, Record, RecordView};
use crate::rewrite::workspace_key;
use crate::toml_doc::{
    bool_value, document_item, from_bool, from_str, inline_insert, inline_items, inline_keys,
    new_inline_table, no_keys,
    new_table, no_fields, no_items, parse_document, parses, parsed_root, render_document, rendered,
    root_item_mut, table_of, table_key_decors, key_decors_of, no_decors,
    string_value, table_contains, table_insert, table_item, table_item_mut, table_items,
};
use toml_edit::{Decor, Document, Item, Table, Value};

verus! {

pub open spec fn dependencies_key() -> Seq<char> {
    "dependencies"@
}

/// Whether a record needs the detailed form: a path, or default features off.
pub open spec fn detailed(r: RecordView) -> bool {
    r.no_default_features || r.path is Some
}

/// The fields of a record's detailed form: `version` unless it is the
/// wildcard `"*"`, `path` if there is one, and `default-features = false`
/// if any declaration switched them off.
pub open spec fn root_fields(r: RecordView) -> Map<Seq<char>, Value> {
    let with_version = if r.version != "*"@ {
        no_fields().insert("version"@, string_value(r.version))
    } else {
        no_fields()
    };
    let with_path = match r.path {
        Some(p) => with_version.insert("path"@, string_value(p)),
        None => with_version,
    };
    if r.no_default_features {
        with_path.insert("default-features"@, bool_value(false))
    } else {
        with_path
    }
}

/// The keys of a record's detailed form, in order.
pub open spec fn root_keys(r: RecordView) -> Seq<Seq<char>> {
    (if r.version != "*"@ {
        seq!["version"@]
    } else {
        no_keys()
    }) + (if r.path is Some {
        seq!["path"@]
    } else {
        no_keys()
    }) + (if r.no_default_features {
        seq!["default-features"@]
    } else {
        no_keys()
    })
}

/// `item` is the shared declaration of a record: an inline table of its
/// fields, in the order `version`, `path`, `default-features`, in the
/// detailed form; else the bare requirement string.
pub open spec fn root_entry_of(r: RecordView, item: Item) -> bool {
    if detailed(r) {
        match item {
            Item::Value(Value::InlineTable(t)) => inline_items(t) == root_fields(r) && inline_keys(t)
                == root_keys(r),
            _ => false,
        }
    } else {
        item == Item::Value(string_value(r.version)) && item matches Item::Value(Value::String(_))
    }
}

/// The names of the records whose count reaches `threshold`.
pub open spec fn candidate_set(records: Seq<Record>, threshold: nat) -> Set<Seq<char>> {
    Set::new(
        |k: Seq<char>|
            exists|i: int|
                0 <= i < records.len() && #[trigger] records[i].name@ == k && records[i].count
                    >= threshold,
    )
}

/// `after` is the dependency table `before` with a shared declaration added
/// for each candidate it lacked; the entries it had stay as they were.
pub open spec fn merged(
    before: Map<Seq<char>, Item>,
    after: Map<Seq<char>, Item>,
    records: Seq<Record>,
    threshold: nat,
) -> bool {
    &&& after.dom() == before.dom() + candidate_set(records, threshold)
    &&& forall|k: Seq<char>| #[trigger] before.contains_key(k) ==> after[k] == before[k]
    &&& forall|i: int|
        0 <= i < records.len() && records[i].count >= threshold && !before.contains_key(
            #[trigger] records[i].name@,
        ) ==> root_entry_of(records[i].view_record(), after[records[i].name@])
}

/// The items under `key`, or none where the key is absent.
pub open spec fn items_under(m: Map<Seq<char>, Item>, key: Seq<char>) -> Map<Seq<char>, Item> {
    if m.contains_key(key) {
        table_of(m[key])
    } else {
        no_items()
    }
}

/// Whether `key` is absent or holds a table.
pub open spec fn table_slot(m: Map<Seq<char>, Item>, key: Seq<char>) -> bool {
    !m.contains_key(key) || m[key] is Table
}

/// Whether the root table leaves room for `[workspace.dependencies]`.
pub open spec fn room_for_workspace_table(root: Map<Seq<char>, Item>) -> bool {
    table_slot(root, workspace_key()) && table_slot(
        items_under(root, workspace_key()),
        dependencies_key(),
    )
}

/// `after` is `before` where the table under `key` was absent or a table and
/// now is a table whose items are `inner`; the other keys stay.
pub open spec fn table_put(
    before: Map<Seq<char>, Item>,
    after: Map<Seq<char>, Item>,
    key: Seq<char>,
    inner: Map<Seq<char>, Item>,
) -> bool {
    &&& after.dom() == before.dom().insert(key)
    &&& after[key] is Table
    &&& table_of(after[key]) == inner
    &&& forall|k: Seq<char>| #[trigger] before.contains_key(k) && k != key ==> after[k] == before[k]
}

/// Every key that `items` held keeps the decoration it had: the comments
/// and whitespace around it.
pub open spec fn key_decors_kept(
    items: Map<Seq<char>, Item>,
    before: Map<Seq<char>, Decor>,
    after: Map<Seq<char>, Decor>,
) -> bool {
    forall|k: Seq<char>| #[trigger]
        items.contains_key(k) && before.contains_key(k) ==> after.contains_key(k) && after[k]
            == before[k]
}

/// The key decorations of the table under `key`, or none.
pub open spec fn decors_under(m: Map<Seq<char>, Item>, key: Seq<char>) -> Map<Seq<char>, Decor> {
    if m.contains_key(key) {
        key_decors_of(m[key])
    } else {
        no_decors()
    }
}

/// Whether some record's count reaches `threshold`.
pub open spec fn has_candidates(records: Seq<Record>, threshold: nat) -> bool {
    exists|i: int| 0 <= i < records.len() && #[trigger] records[i].count >= threshold
}

/// The root table `after` is `before` with `[workspace.dependencies]` merged
/// as `merged` says, where there are candidates and room for the table; else
/// it is unchanged.
pub open spec fn synthesized(
    before: Map<Seq<char>, Item>,
    after: Map<Seq<char>, Item>,
    records: Seq<Record>,
    threshold: nat,
) -> bool {
    if room_for_workspace_table(before) && has_candidates(records, threshold) {
        let ws = items_under(before, workspace_key());
        let ws2 = items_under(after, workspace_key());
        &&& table_put(before, after, workspace_key(), ws2)
        &&& table_put(ws, ws2, dependencies_key(), items_under(ws2, dependencies_key()))
        &&& merged(
            items_under(ws, dependencies_key()),
            items_under(ws2, dependencies_key()),
            records,
            threshold,
        )
    } else {
        after == before
    }
}

/// The shared declaration of one record.
pub fn root_entry(rec: &Record) -> (r: Item)
    ensures
        root_entry_of(rec.view_record(), r),
        !(r is None),
{
    if rec.no_default_features || rec.path.is_some() {
        let ghost v = rec.view_record();
        proof {
            reveal_strlit("version");
            reveal_strlit("path");
            reveal_strlit("default-features");
            assert("path"@ != "version"@) by {
                assert("path"@.len() != "version"@.len());
            }
            assert("default-features"@ != "version"@) by {
                assert("default-features"@.len() != "version"@.len());
            }
            assert("default-features"@ != "path"@) by {
                assert("default-features"@.len() != "path"@.len());
            }
        }
        let ghost a = if v.version != "*"@ { seq!["version"@] } else { no_keys() };
        let ghost b = if v.path is Some { seq!["path"@] } else { no_keys() };
        let ghost c = if v.no_default_features { seq!["default-features"@] } else { no_keys() };
        let mut fields = new_inline_table();
        let star = "*".to_owned();
        if rec.version != star {
            inline_insert(&mut fields, "version", from_str(rec.version.as_str()));
        }
        proof {
            assert(inline_keys(fields) =~= a);
            assert(!inline_items(fields).contains_key("path"@));
            assert(!inline_items(fields).contains_key("default-features"@));
        }
        match &rec.path {
            Some(p) => inline_insert(&mut fields, "path", from_str(p.as_str())),
            None => {},
        }
        proof {
            assert(inline_keys(fields) =~= a + b);
            assert(!inline_items(fields).contains_key("default-features"@));
        }
        if rec.no_default_features {
            inline_insert(&mut fields, "default-features", from_bool(false));
        }
        proof {
            assert(inline_items(fields) =~= root_fields(rec.view_record()));
            assert(inline_keys(fields) =~= a + b + c);
        }
        Item::Value(Value::InlineTable(fields))
    } else {
        Item::Value(from_str(rec.version.as_str()))
    }
}

/// Adds the shared declaration of each candidate record whose name the
/// table lacks; entries already there are left as they are.
pub fn add_missing_entries(deps: &mut Table, records: &Vec<Record>, threshold: usize)
    requires
        names_distinct(records@),
    ensures
        merged(table_items(*old(deps)), table_items(*final(deps)), records@, threshold as nat),
        key_decors_kept(
            table_items(*old(deps)),
            table_key_decors(*old(deps)),
            table_key_decors(*final(deps)),
        ),
{
    let ghost before = table_items(*deps);
    let ghost before_decors = table_key_decors(*deps);
    let mut i: usize = 0;
    while i < records.len()
        invariant
            i <= records@.len(),
            names_distinct(records@),
            table_items(*deps).dom() == before.dom() + candidate_set(
                records@.take(i as int),
                threshold as nat,
            ),
            forall|k: Seq<char>| #[trigger]
                before.contains_key(k) ==> table_items(*deps)[k] == before[k],
            key_decors_kept(before, before_decors, table_key_decors(*deps)),
            forall|j: int|
                0 <= j < i && records@[j].count >= threshold && !before.contains_key(
                    #[trigger] records@[j].name@,
                ) ==> root_entry_of(records@[j].view_record(), table_items(*deps)[records@[j].name@]),
        decreases records@.len() - i,
    {
        let rec = &records[i];
        let ghost cur = table_items(*deps);
        let ghost cur_decors = table_key_decors(*deps);
        if rec.count >= threshold && !table_contains(deps, rec.name.as_str()) {
            let entry = root_entry(rec);
            table_insert(deps, rec.name.as_str(), entry);
            proof {
                assert(!before.contains_key(rec.name@));
                let d1 = table_key_decors(*deps);
                assert forall|k: Seq<char>| #[trigger]
                    before.contains_key(k) && before_decors.contains_key(k) implies d1.contains_key(k)
                    && d1[k] == before_decors[k] by {
                    assert(d1.remove(rec.name@).contains_key(k));
                    assert(d1.remove(rec.name@)[k] == cur_decors.remove(rec.name@)[k]);
                }
                assert forall|j: int|
                    0 <= j < i + 1 && records@[j].count >= threshold && !before.contains_key(
                        #[trigger] records@[j].name@,
                    ) implies root_entry_of(
                    records@[j].view_record(),
                    table_items(*deps)[records@[j].name@],
                ) by {
                    if j != i {
                        assert(records@[j].name@ != records@[i as int].name@);
                    }
                }
            }
        } else {
            proof {
                if rec.count >= threshold {
                    assert(cur.contains_key(rec.name@));
                    assert(before.contains_key(rec.name@)) by {
                        if !before.contains_key(rec.name@) {
                            let j = choose|j: int|
                                0 <= j < i && #[trigger] records@.take(i as int)[j].name@
                                    == rec.name@ && records@.take(i as int)[j].count >= threshold;
                            assert(records@[j].name@ == records@[i as int].name@);
                        }
                    }
                }
            }
        }
        proof {
            let next = candidate_set(records@.take(i + 1), threshold as nat);
            let prev = candidate_set(records@.take(i as int), threshold as nat);
            assert forall|k: Seq<char>| next.contains(k) <==> prev.contains(k) || (k
                == records@[i as int].name@ && records@[i as int].count >= threshold) by {
                if next.contains(k) {
                    let j = choose|j: int|
                        0 <= j < i + 1 && #[trigger] records@.take(i + 1)[j].name@ == k
                            && records@.take(i + 1)[j].count >= threshold;
                    if j < i {
                        assert(records@.take(i as int)[j] == records@[j]);
                    }
                }
                if prev.contains(k) {
                    let j = choose|j: int|
                        0 <= j < i && #[trigger] records@.take(i as int)[j].name@ == k
                            && records@.take(i as int)[j].count >= threshold;
                    assert(records@.take(i + 1)[j] == records@[j]);
                }
                if k == records@[i as int].name@ && records@[i as int].count >= threshold {
                    assert(records@.take(i + 1)[i as int] == records@[i as int]);
                }
            }
            assert(table_items(*deps).dom() =~= before.dom() + next);
        }
        i = i + 1;
    }
    proof {
        assert(records@.take(i as int) =~= records@);
    }
}

/// A fresh `[workspace.dependencies]` table with every candidate's shared
/// declaration.
fn fresh_dependency_table(records: &Vec<Record>, threshold: usize) -> (r: Item)
    requires
        names_distinct(records@),
    ensures
        r is Table,
        merged(no_items(), table_of(r), records@, threshold as nat),
{
    let mut deps = new_table();
    add_missing_entries(&mut deps, records, threshold);
    Item::Table(deps)
}

/// Merges the candidates' shared declarations into `[workspace.dependencies]`
/// of a root manifest's table: the table is made where it is missing, and a
/// name it already holds keeps its entry. Without candidates nothing changes.
/// Returns `false`, changing nothing, where there are candidates but
/// `workspace` or `workspace.dependencies` holds something other than a table.
pub fn synthesize_workspace_table(root: &mut Table, records: &Vec<Record>, threshold: usize) -> (r:
    bool)
    requires
        names_distinct(records@),
    ensures
        r == (room_for_workspace_table(table_items(*old(root))) || !has_candidates(
            records@,
            threshold as nat,
        )),
        synthesized(table_items(*old(root)), table_items(*final(root)), records@, threshold as nat),
        key_decors_kept(
            table_items(*old(root)),
            table_key_decors(*old(root)),
            table_key_decors(*final(root)),
        ),
        key_decors_kept(
            items_under(table_items(*old(root)), workspace_key()),
            decors_under(table_items(*old(root)), workspace_key()),
            decors_under(table_items(*final(root)), workspace_key()),
        ),
        key_decors_kept(
            items_under(items_under(table_items(*old(root)), workspace_key()), dependencies_key()),
            decors_under(items_under(table_items(*old(root)), workspace_key()), dependencies_key()),
            decors_under(items_under(table_items(*final(root)), workspace_key()), dependencies_key()),
        ),
{
    let ghost before = table_items(*root);
    let ghost before_decors = table_key_decors(*root);
    if !any_candidate(records, threshold) {
        return true;
    }
    if !has_room_for_workspace_table(root) {
        return false;
    }
    if !table_contains(root, "workspace") {
        let deps = fresh_dependency_table(records, threshold);
        let mut ws = new_table();
        table_insert(&mut ws, "dependencies", deps);
        table_insert(root, "workspace", Item::Table(ws));
        proof {
            assert(items_under(before, workspace_key()) == no_items());
            assert(table_items(ws).dom() =~= no_items().dom().insert(dependencies_key()));
            let d1 = table_key_decors(*root);
            assert forall|k: Seq<char>| #[trigger]
                before.contains_key(k) && before_decors.contains_key(k) implies d1.contains_key(k)
                && d1[k] == before_decors[k] by {
                assert(d1.remove(workspace_key()).contains_key(k));
                assert(d1.remove(workspace_key())[k] == before_decors.remove(workspace_key())[k]);
            }
        }
        return true;
    }
    let ws_item = table_item_mut(root, "workspace");
    match ws_item {
        Item::Table(ws) => {
            let ghost ws0 = table_items(*ws);
            let ghost ws0_decors = table_key_decors(*ws);
            if !table_contains(ws, "dependencies") {
                let deps = fresh_dependency_table(records, threshold);
                table_insert(ws, "dependencies", deps);
                proof {
                    assert(items_under(ws0, dependencies_key()) == no_items());
                    let d1 = table_key_decors(*ws);
                    assert forall|k: Seq<char>| #[trigger]
                        ws0.contains_key(k) && ws0_decors.contains_key(k) implies d1.contains_key(k)
                        && d1[k] == ws0_decors[k] by {
                        assert(d1.remove(dependencies_key()).contains_key(k));
                        assert(d1.remove(dependencies_key())[k] == ws0_decors.remove(
                            dependencies_key(),
                        )[k]);
                    }
                }
            } else {
                let d = table_item_mut(ws, "dependencies");
                match d {
                    Item::Table(dt) => add_missing_entries(dt, records, threshold),
                    _ => {},
                }
            }
            proof {
                assert(table_items(*ws).dom() =~= ws0.dom().insert(dependencies_key()));
            }
        },
        _ => {},
    }
    proof {
        assert(table_items(*root).dom() =~= before.dom().insert(workspace_key()));
    }
    true
}

/// Whether some record's count reaches `threshold`.
fn any_candidate(records: &Vec<Record>, threshold: usize) -> (r: bool)
    ensures
        r == has_candidates(records@, threshold as nat),
{
    let mut i: usize = 0;
    while i < records.len()
        invariant
            i <= records@.len(),
            forall|j: int| 0 <= j < i ==> records@[j].count < threshold,
        decreases records@.len() - i,
    {
        if records[i].count >= threshold {
            return true;
        }
        i = i + 1;
    }
    false
}

/// Whether `workspace` and `workspace.dependencies` are each absent or a
/// table.
fn has_room_for_workspace_table(root: &Table) -> (r: bool)
    ensures
        r == room_for_workspace_table(table_items(*root)),
{
    if !table_contains(root, "workspace") {
        return true;
    }
    match table_item(root, "workspace") {
        Item::Table(ws) => {
            if !table_contains(ws, "dependencies") {
                true
            } else {
                match table_item(ws, "dependencies") {
                    Item::Table(_) => true,
                    _ => false,
                }
            }
        },
        _ => false,
    }
}

/// Why the root manifest could not take the shared declarations.
pub enum RootError {
    /// The text does not parse as a manifest.
    Unparsable,
    /// `workspace` or `workspace.dependencies` is not a table.
    NotATable,
}

/// Parses the root manifest, merges the candidates' shared declarations into
/// it and renders it again.
pub fn synthesize_root_text(text: &str, records: &Vec<Record>, threshold: usize) -> (r: Result<
    String,
    RootError,
>)
    requires
        names_distinct(records@),
    ensures
        (r matches Err(RootError::Unparsable)) <==> !parses(text@),
        (r matches Err(RootError::NotATable)) <==> parses(text@) && has_candidates(
            records@,
            threshold as nat,
        ) && !room_for_workspace_table(parsed_root(text@)),
        r matches Ok(s) ==> exists|d: Document|
            s@ == rendered(d) && #[trigger] document_item(d) is Table && synthesized(
                parsed_root(text@),
                table_of(document_item(d)),
                records@,
                threshold as nat,
            ),
{
    match parse_document(text) {
        Some(mut doc) => {
            if synthesize_document(&mut doc, records, threshold) {
                let out = render_document(&doc);
                proof {
                    assert(out@ == rendered(doc) && document_item(doc) is Table);
                }
                Ok(out)
            } else {
                Err(RootError::NotATable)
            }
        },
        None => Err(RootError::Unparsable),
    }
}

/// Merges the shared declarations into a parsed root manifest in place.
/// Returns `false`, changing nothing, where the root is not a table, or where
/// there are candidates and no room for `[workspace.dependencies]`.
pub fn synthesize_document(doc: &mut Document, records: &Vec<Record>, threshold: usize) -> (r: bool)
    requires
        names_distinct(records@),
    ensures
        document_item(*old(doc)) is Table ==> key_decors_kept(
            table_of(document_item(*old(doc))),
            key_decors_of(document_item(*old(doc))),
            key_decors_of(document_item(*final(doc))),
        ),
        document_item(*old(doc)) is Table ==> document_item(*final(doc)) is Table && r == (
        room_for_workspace_table(table_of(document_item(*old(doc)))) || !has_candidates(
            records@,
            threshold as nat,
        )) && synthesized(
            table_of(document_item(*old(doc))),
            table_of(document_item(*final(doc))),
            records@,
            threshold as nat,
        ),
        !(document_item(*old(doc)) is Table) ==> !r && document_item(*final(doc)) == document_item(
            *old(doc),
        ),
{
    let root = root_item_mut(doc);
    match root {
        Item::Table(t) => synthesize_workspace_table(t, records, threshold),
        _ => false,
    }
}

/// Merging never removes or overwrites an entry that
/// `[workspace.dependencies]` already held: a hand-made or hand-edited entry
/// survives every later run.
pub proof fn existing_workspace_entries_survive(
    before: Map<Seq<char>, Item>,
    after: Map<Seq<char>, Item>,
    records: Seq<Record>,
    threshold: nat,
    name: Seq<char>,
)
    requires
        synthesized(before, after, records, threshold),
        items_under(items_under(before, workspace_key()), dependencies_key()).contains_key(name),
    ensures
        items_under(items_under(after, workspace_key()), dependencies_key()).contains_key(name),
        items_under(items_under(after, workspace_key()), dependencies_key())[name] == items_under(
            items_under(before, workspace_key()),
            dependencies_key(),
        )[name],
{
}

/// Synthesizing a second time with the same records and threshold adds
/// nothing more: `[workspace.dependencies]` keeps the same entries, and the
/// other keys of the root and of `workspace` stay.
pub proof fn synthesizing_twice_adds_nothing(
    r0: Map<Seq<char>, Item>,
    r1: Map<Seq<char>, Item>,
    r2: Map<Seq<char>, Item>,
    records: Seq<Record>,
    threshold: nat,
)
    requires
        synthesized(r0, r1, records, threshold),
        synthesized(r1, r2, records, threshold),
    ensures
        r2.dom() == r1.dom(),
        forall|k: Seq<char>| #[trigger] r1.contains_key(k) && k != workspace_key() ==> r2[k] == r1[k],
        items_under(r2, workspace_key()).dom() == items_under(r1, workspace_key()).dom(),
        forall|k: Seq<char>| #[trigger]
            items_under(r1, workspace_key()).contains_key(k) && k != dependencies_key()
                ==> items_under(r2, workspace_key())[k] == items_under(r1, workspace_key())[k],
        items_under(items_under(r2, workspace_key()), dependencies_key()) == items_under(
            items_under(r1, workspace_key()),
            dependencies_key(),
        ),
{
    if room_for_workspace_table(r0) && has_candidates(records, threshold) {
        let ws1 = items_under(r1, workspace_key());
        let ws2 = items_under(r2, workspace_key());
        let d1 = items_under(ws1, dependencies_key());
        let d2 = items_under(ws2, dependencies_key());
        assert(r1.contains_key(workspace_key()));
        assert(ws1.contains_key(dependencies_key()));
        assert(room_for_workspace_table(r1));
        assert(d1.dom() + candidate_set(records, threshold) =~= d1.dom());
        assert(d2 =~= d1);
        assert(ws2.dom() =~= ws1.dom());
        assert(r2.dom() =~= r1.dom());
    }
}

} // verus!
