//! The manifest rewriter: turns each dependency entry whose name is a
//! candidate into the form that inherits from the workspace, and leaves every
//! other entry as it was.
use vstd::prelude::*;
use crate::aggregate::strings_view;
use crate::toml_doc::{
    bool_value, decor_of, from_bool, inline_decor, inline_insert, inline_items, inline_remove,
    new_inline_table, set_inline_decor, table_insert, table_item_mut, table_items, table_keys,
    table_remove, value_decor, table_contains, parse_document, render_document, root_item_mut,
    document_item, parses, parsed_root, rendered, table_of, table_key_decors, key_decors_of,
    inline_keys, without_key,
};
use toml_edit::{Document, Item, Table, Value};

verus! {

pub open spec fn workspace_key() -> Seq<char> {
    "workspace"@
}

pub open spec fn version_key() -> Seq<char> {
    "version"@
}

pub open spec fn path_key() -> Seq<char> {
    "path"@
}

/// The fields of an inline-table entry once it inherits from the workspace.
pub open spec fn delegated_fields(m: Map<Seq<char>, Value>) -> Map<Seq<char>, Value> {
    m.insert(workspace_key(), bool_value(true)).remove(version_key()).remove(path_key())
}

/// The keys of an inline-table entry, in order, once it inherits from the
/// workspace: `workspace` comes last unless it was there, and `version` and
/// `path` go.
pub open spec fn delegated_keys(m: Map<Seq<char>, Value>, ks: Seq<Seq<char>>) -> Seq<Seq<char>> {
    without_key(without_key((if m.contains_key(workspace_key()) {
        ks
    } else {
        ks.push(workspace_key())
    }), version_key()), path_key())
}

/// The items of a full-table entry once it inherits from the workspace.
pub open spec fn delegated_items(m: Map<Seq<char>, Item>) -> Map<Seq<char>, Item> {
    m.insert(workspace_key(), Item::Value(bool_value(true))).remove(version_key()).remove(
        path_key(),
    )
}

/// `after` is the workspace-inheriting form of the dependency entry `before`.
/// A bare requirement string becomes an inline table holding `workspace = true`
/// alone, with the string's decoration; an inline table or a full table gains
/// `workspace = true` and loses `version` and `path`; any other shape stays.
pub open spec fn entry_rewritten(before: Item, after: Item) -> bool {
    match before {
        Item::Value(v) => match v {
            Value::String(_) => match after {
                Item::Value(Value::InlineTable(t)) => inline_items(t) == map![
                    workspace_key() => bool_value(true),
                ] && inline_keys(t) == seq![workspace_key()] && inline_decor(t) == value_decor(v),
                _ => false,
            },
            Value::InlineTable(t) => match after {
                Item::Value(Value::InlineTable(t2)) => inline_items(t2) == delegated_fields(
                    inline_items(t),
                ) && inline_keys(t2) == delegated_keys(inline_items(t), inline_keys(t))
                    && inline_decor(t2) == inline_decor(t),
                _ => false,
            },
            _ => after == before,
        },
        Item::Table(t) => match after {
            Item::Table(t2) => table_items(t2) == delegated_items(table_items(t)),
            _ => false,
        },
        _ => after == before,
    }
}

/// Rewriting a candidate's entry, as a relation between entries.
pub open spec fn rewrite_step() -> spec_fn(Item, Item) -> bool {
    |before: Item, after: Item| entry_rewritten(before, after)
}

/// `after` is the dependency table `before` where each candidate's entry is
/// related to its old one by `step`, and every other entry is untouched.
pub open spec fn table_related(
    before: Map<Seq<char>, Item>,
    after: Map<Seq<char>, Item>,
    candidates: Seq<Seq<char>>,
    step: spec_fn(Item, Item) -> bool,
) -> bool {
    &&& after.dom() == before.dom()
    &&& forall|k: Seq<char>| #[trigger]
        before.contains_key(k) ==> if candidates.contains(k) {
            step(before[k], after[k])
        } else {
            after[k] == before[k]
        }
}

pub open spec fn dependency_kinds() -> Set<Seq<char>> {
    set![
        "dependencies"@,
        "dev-dependencies"@,
        "build-dependencies"@,
    ]
}

pub open spec fn target_key() -> Seq<char> {
    "target"@
}

/// A dependency section: a table is related entry by entry, anything else
/// stays.
pub open spec fn section_related(
    before: Item,
    after: Item,
    candidates: Seq<Seq<char>>,
    step: spec_fn(Item, Item) -> bool,
) -> bool {
    match before {
        Item::Table(t) => match after {
            Item::Table(t2) => table_related(table_items(t), table_items(t2), candidates, step)
                && table_key_decors(t2) == table_key_decors(t),
            _ => false,
        },
        _ => after == before,
    }
}

/// A table that holds dependency sections: those are related, the other keys
/// stay.
pub open spec fn sections_related(
    before: Map<Seq<char>, Item>,
    after: Map<Seq<char>, Item>,
    candidates: Seq<Seq<char>>,
    step: spec_fn(Item, Item) -> bool,
) -> bool {
    &&& after.dom() == before.dom()
    &&& forall|k: Seq<char>| #[trigger]
        before.contains_key(k) ==> if dependency_kinds().contains(k) {
            section_related(before[k], after[k], candidates, step)
        } else {
            after[k] == before[k]
        }
}

/// A table of target sections: each of its tables holds dependency sections.
pub open spec fn targets_related(
    before: Item,
    after: Item,
    candidates: Seq<Seq<char>>,
    step: spec_fn(Item, Item) -> bool,
) -> bool {
    match before {
        Item::Table(t) => match after {
            Item::Table(t2) => {
                &&& table_items(t2).dom() == table_items(t).dom()
                &&& table_key_decors(t2) == table_key_decors(t)
                &&& forall|k: Seq<char>| #[trigger]
                    table_items(t).contains_key(k) ==> match table_items(t)[k] {
                        Item::Table(c) => match table_items(t2)[k] {
                            Item::Table(c2) => sections_related(
                                table_items(c),
                                table_items(c2),
                                candidates,
                                step,
                            ) && table_key_decors(c2) == table_key_decors(c),
                            _ => false,
                        },
                        _ => table_items(t2)[k] == table_items(t)[k],
                    }
            },
            _ => false,
        },
        _ => after == before,
    }
}

/// The root table of a manifest: its dependency sections, and those under
/// each target section, are related; every other key stays.
pub open spec fn manifest_related(
    before: Map<Seq<char>, Item>,
    after: Map<Seq<char>, Item>,
    candidates: Seq<Seq<char>>,
    step: spec_fn(Item, Item) -> bool,
) -> bool {
    &&& after.dom() == before.dom()
    &&& forall|k: Seq<char>| #[trigger]
        before.contains_key(k) ==> if dependency_kinds().contains(k) {
            section_related(before[k], after[k], candidates, step)
        } else if k == target_key() {
            targets_related(before[k], after[k], candidates, step)
        } else {
            after[k] == before[k]
        }
}

pub open spec fn table_rewritten(
    before: Map<Seq<char>, Item>,
    after: Map<Seq<char>, Item>,
    candidates: Seq<Seq<char>>,
) -> bool {
    table_related(before, after, candidates, rewrite_step())
}

pub open spec fn section_rewritten(before: Item, after: Item, candidates: Seq<Seq<char>>) -> bool {
    section_related(before, after, candidates, rewrite_step())
}

pub open spec fn sections_rewritten(
    before: Map<Seq<char>, Item>,
    after: Map<Seq<char>, Item>,
    candidates: Seq<Seq<char>>,
) -> bool {
    sections_related(before, after, candidates, rewrite_step())
}

pub open spec fn targets_rewritten(before: Item, after: Item, candidates: Seq<Seq<char>>) -> bool {
    targets_related(before, after, candidates, rewrite_step())
}

/// The manifest's root table `before`, rewritten: every entry of a candidate
/// in a dependency section, at the root or under a target section, rewritten;
/// everything else untouched.
pub open spec fn manifest_rewritten(
    before: Map<Seq<char>, Item>,
    after: Map<Seq<char>, Item>,
    candidates: Seq<Seq<char>>,
) -> bool {
    manifest_related(before, after, candidates, rewrite_step())
}

/// Rewrites one dependency entry into the form that inherits from the
/// workspace, by its shape.
pub fn rewrite_entry(item: &mut Item)
    ensures
        entry_rewritten(*old(item), *final(item)),
{
    match item {
        Item::Table(t) => {
            table_insert(t, "workspace", Item::Value(from_bool(true)));
            table_remove(t, "version");
            table_remove(t, "path");
        },
        Item::Value(v) => {
            let is_string = match v {
                Value::String(_) => true,
                _ => false,
            };
            if is_string {
                let mut fresh = new_inline_table();
                inline_insert(&mut fresh, "workspace", from_bool(true));
                set_inline_decor(&mut fresh, decor_of(v));
                proof {
                    assert(inline_items(fresh) =~= map![workspace_key() => bool_value(true)]);
                    assert(inline_keys(fresh) =~= seq![workspace_key()]);
                }
                *v = Value::InlineTable(fresh);
            } else {
                match v {
                    Value::InlineTable(t) => {
                        let ghost m0 = inline_items(*t);
                        let ghost k0 = inline_keys(*t);
                        inline_insert(t, "workspace", from_bool(true));
                        let ghost k1 = inline_keys(*t);
                        inline_remove(t, "version");
                        inline_remove(t, "path");
                        proof {
                            assert(k1 == if m0.contains_key(workspace_key()) {
                                k0
                            } else {
                                k0.push(workspace_key())
                            });
                        }
                    },
                    _ => {},
                }
            }
        },
        _ => {},
    }
}

fn contains_name(names: &Vec<String>, key: &String) -> (r: bool)
    ensures
        r == strings_view(names@).contains(key@),
{
    let mut i: usize = 0;
    while i < names.len()
        invariant
            i <= names@.len(),
            forall|j: int| 0 <= j < i ==> names@[j]@ != key@,
        decreases names@.len() - i,
    {
        if names[i] == *key {
            proof {
                assert(strings_view(names@)[i as int] == key@);
            }
            return true;
        }
        i = i + 1;
    }
    proof {
        if strings_view(names@).contains(key@) {
            let j = choose|j: int| 0 <= j < names@.len() && strings_view(names@)[j] == key@;
            assert(names@[j]@ == key@);
        }
    }
    false
}

/// Rewrites the entry of every candidate in one dependency table; the other
/// entries are left exactly as they were.
pub fn rewrite_dependency_table(table: &mut Table, candidates: &Vec<String>)
    ensures
        table_rewritten(table_items(*old(table)), table_items(*final(table)), strings_view(candidates@)),
        table_key_decors(*final(table)) == table_key_decors(*old(table)),
{
    let keys = table_keys(table);
    let ghost before = table_items(*table);
    let ghost cands = strings_view(candidates@);
    let ghost ks = keys@.map_values(|s: String| s@);
    let mut i: usize = 0;
    while i < keys.len()
        invariant
            i <= keys@.len(),
            ks == keys@.map_values(|s: String| s@),
            ks.no_duplicates(),
            forall|k: Seq<char>| ks.contains(k) <==> before.contains_key(k),
            cands == strings_view(candidates@),
            table_items(*table).dom() == before.dom(),
            table_key_decors(*table) == table_key_decors(*old(table)),
            forall|k: Seq<char>| #[trigger]
                before.contains_key(k) ==> if cands.contains(k) && exists|j: int|
                    0 <= j < i && ks[j] == k {
                    entry_rewritten(before[k], table_items(*table)[k])
                } else {
                    table_items(*table)[k] == before[k]
                },
        decreases keys@.len() - i,
    {
        let key = &keys[i];
        proof {
            assert(ks[i as int] == key@);
            assert(ks.contains(key@));
        }
        if contains_name(candidates, key) {
            let ghost mid = table_items(*table);
            let item = table_item_mut(table, key.as_str());
            rewrite_entry(item);
            proof {
                assert forall|k: Seq<char>| #[trigger]
                    before.contains_key(k) implies if cands.contains(k) && exists|j: int|
                        0 <= j < i + 1 && ks[j] == k {
                        entry_rewritten(before[k], table_items(*table)[k])
                    } else {
                        table_items(*table)[k] == before[k]
                    } by {
                    if k != key@ {
                        if exists|j: int| 0 <= j < i + 1 && ks[j] == k {
                            let j = choose|j: int| 0 <= j < i + 1 && ks[j] == k;
                            assert(j != i);
                        }
                    } else {
                        assert(mid[k] == before[k]) by {
                            if exists|j: int| 0 <= j < i && ks[j] == k {
                                let j = choose|j: int| 0 <= j < i && ks[j] == k;
                                assert(ks[j] == ks[i as int]);
                            }
                        }
                    }
                }
            }
        } else {
            proof {
                assert forall|k: Seq<char>| #[trigger]
                    before.contains_key(k) implies if cands.contains(k) && exists|j: int|
                        0 <= j < i + 1 && ks[j] == k {
                        entry_rewritten(before[k], table_items(*table)[k])
                    } else {
                        table_items(*table)[k] == before[k]
                    } by {
                    if cands.contains(k) && exists|j: int| 0 <= j < i + 1 && ks[j] == k {
                        let j = choose|j: int| 0 <= j < i + 1 && ks[j] == k;
                        assert(j != i);
                    }
                }
            }
        }
        i = i + 1;
    }
    proof {
        assert forall|k: Seq<char>| #[trigger] before.contains_key(k) && cands.contains(k)
            implies exists|j: int| 0 <= j < i && ks[j] == k by {
            assert(ks.contains(k));
        }
    }
}

/// Rewrites the dependency section `kind` of `t`, if it is a table.
fn rewrite_section(t: &mut Table, kind: &str, candidates: &Vec<String>)
    ensures
        table_key_decors(*final(t)) == table_key_decors(*old(t)),
        table_items(*final(t)).dom() == table_items(*old(t)).dom(),
        forall|k: Seq<char>| #[trigger]
            table_items(*old(t)).contains_key(k) && k != kind@ ==> table_items(*final(t))[k]
                == table_items(*old(t))[k],
        table_items(*old(t)).contains_key(kind@) ==> section_rewritten(
            table_items(*old(t))[kind@],
            table_items(*final(t))[kind@],
            strings_view(candidates@),
        ),
{
    if table_contains(t, kind) {
        let item = table_item_mut(t, kind);
        match item {
            Item::Table(deps) => rewrite_dependency_table(deps, candidates),
            _ => {},
        }
    }
}

/// Rewrites the three dependency sections of a table that holds them: the
/// manifest's root, or one target section.
pub fn rewrite_sections(t: &mut Table, candidates: &Vec<String>)
    ensures
        sections_rewritten(table_items(*old(t)), table_items(*final(t)), strings_view(candidates@)),
        table_key_decors(*final(t)) == table_key_decors(*old(t)),
{
    proof {
        reveal_strlit("dependencies");
        reveal_strlit("dev-dependencies");
        reveal_strlit("build-dependencies");
    }
    let ghost t0 = table_items(*t);
    rewrite_section(t, "dependencies", candidates);
    rewrite_section(t, "dev-dependencies", candidates);
    rewrite_section(t, "build-dependencies", candidates);
    proof {
        let t3 = table_items(*t);
        let a = "dependencies"@;
        let b = "dev-dependencies"@;
        let c = "build-dependencies"@;
        assert(a.len() != b.len() && a.len() != c.len() && b.len() != c.len());
        assert forall|k: Seq<char>| #[trigger] t0.contains_key(k) implies if dependency_kinds().contains(k) {
            section_rewritten(t0[k], t3[k], strings_view(candidates@))
        } else {
            t3[k] == t0[k]
        } by {
            if k == a {
            } else if k == b {
            } else if k == c {
            } else {
                assert(!dependency_kinds().contains(k));
            }
        }
    }
}

/// Rewrites the dependency sections under every target section of the
/// manifest's root table.
fn rewrite_targets(root: &mut Table, candidates: &Vec<String>)
    ensures
        table_key_decors(*final(root)) == table_key_decors(*old(root)),
        table_items(*final(root)).dom() == table_items(*old(root)).dom(),
        forall|k: Seq<char>| #[trigger]
            table_items(*old(root)).contains_key(k) && k != target_key() ==> table_items(
                *final(root),
            )[k] == table_items(*old(root))[k],
        table_items(*old(root)).contains_key(target_key()) ==> targets_rewritten(
            table_items(*old(root))[target_key()],
            table_items(*final(root))[target_key()],
            strings_view(candidates@),
        ),
{
    if table_contains(root, "target") {
        let item = table_item_mut(root, "target");
        match item {
            Item::Table(targets) => {
                let keys = table_keys(targets);
                let ghost before = table_items(*targets);
                let ghost before_decors = table_key_decors(*targets);
                let ghost cands = strings_view(candidates@);
                let ghost ks = keys@.map_values(|s: String| s@);
                let mut i: usize = 0;
                while i < keys.len()
                    invariant
                        i <= keys@.len(),
                        ks == keys@.map_values(|s: String| s@),
                        ks.no_duplicates(),
                        forall|k: Seq<char>| ks.contains(k) <==> before.contains_key(k),
                        cands == strings_view(candidates@),
                        table_items(*targets).dom() == before.dom(),
                        table_key_decors(*targets) == before_decors,
                        forall|k: Seq<char>| #[trigger]
                            before.contains_key(k) ==> if exists|j: int| 0 <= j < i && ks[j] == k {
                                match before[k] {
                                    Item::Table(c) => match table_items(*targets)[k] {
                                        Item::Table(c2) => sections_rewritten(
                                            table_items(c),
                                            table_items(c2),
                                            cands,
                                        ) && table_key_decors(c2) == table_key_decors(c),
                                        _ => false,
                                    },
                                    _ => table_items(*targets)[k] == before[k],
                                }
                            } else {
                                table_items(*targets)[k] == before[k]
                            },
                    decreases keys@.len() - i,
                {
                    let key = &keys[i];
                    proof {
                        assert(ks[i as int] == key@);
                        assert(ks.contains(key@));
                    }
                    let ghost mid = table_items(*targets);
                    let cfg = table_item_mut(targets, key.as_str());
                    match cfg {
                        Item::Table(sections) => rewrite_sections(sections, candidates),
                        _ => {},
                    }
                    proof {
                        assert(mid[key@] == before[key@]) by {
                            if exists|j: int| 0 <= j < i && ks[j] == key@ {
                                let j = choose|j: int| 0 <= j < i && ks[j] == key@;
                                assert(ks[j] == ks[i as int]);
                            }
                        }
                        assert forall|k: Seq<char>| #[trigger]
                            before.contains_key(k) && k != key@ implies (exists|j: int|
                                0 <= j < i + 1 && ks[j] == k) == (exists|j: int|
                                0 <= j < i && ks[j] == k) by {
                            if exists|j: int| 0 <= j < i + 1 && ks[j] == k {
                                let j = choose|j: int| 0 <= j < i + 1 && ks[j] == k;
                                assert(j != i);
                            }
                        }
                        assert(exists|j: int| 0 <= j < i + 1 && ks[j] == key@) by {
                            assert(ks[i as int] == key@);
                        }
                    }
                    i = i + 1;
                }
                proof {
                    assert forall|k: Seq<char>| #[trigger] before.contains_key(k) implies exists|
                        j: int,
                    | 0 <= j < i && ks[j] == k by {
                        assert(ks.contains(k));
                    }
                }
            },
            _ => {},
        }
    }
}

/// Rewrites a manifest's root table: every entry of a candidate in a
/// dependency section, at the root or under a target section, takes the
/// workspace-inheriting form; everything else is left as it was.
pub fn rewrite_manifest(root: &mut Table, candidates: &Vec<String>)
    ensures
        manifest_rewritten(table_items(*old(root)), table_items(*final(root)), strings_view(candidates@)),
        table_key_decors(*final(root)) == table_key_decors(*old(root)),
{
    proof {
        reveal_strlit("dependencies");
        reveal_strlit("dev-dependencies");
        reveal_strlit("build-dependencies");
        reveal_strlit("target");
    }
    let ghost t0 = table_items(*root);
    rewrite_sections(root, candidates);
    let ghost t1 = table_items(*root);
    rewrite_targets(root, candidates);
    proof {
        let t2 = table_items(*root);
        assert(!dependency_kinds().contains(target_key())) by {
            assert("dependencies"@.len() != target_key().len());
            assert("dev-dependencies"@.len() != target_key().len());
            assert("build-dependencies"@.len() != target_key().len());
        }
        assert forall|k: Seq<char>| #[trigger] t0.contains_key(k) implies if dependency_kinds().contains(k) {
            section_rewritten(t0[k], t2[k], strings_view(candidates@))
        } else if k == target_key() {
            targets_rewritten(t0[k], t2[k], strings_view(candidates@))
        } else {
            t2[k] == t0[k]
        } by {
            assert(t1.contains_key(k));
        }
    }
}

/// Rewrites a parsed manifest document in place. A document whose root is
/// not a table is left as it is.
pub fn rewrite_document(doc: &mut Document, candidates: &Vec<String>)
    ensures
        document_item(*old(doc)) is Table ==> document_item(*final(doc)) is Table
            && manifest_rewritten(
            table_of(document_item(*old(doc))),
            table_of(document_item(*final(doc))),
            strings_view(candidates@),
        ),
        !(document_item(*old(doc)) is Table) ==> document_item(*final(doc)) == document_item(
            *old(doc),
        ),
        key_decors_of(document_item(*final(doc))) == key_decors_of(document_item(*old(doc))),
{
    let root = root_item_mut(doc);
    match root {
        Item::Table(t) => rewrite_manifest(t, candidates),
        _ => {},
    }
}

/// Parses a manifest, rewrites it and renders it again; `None` when the text
/// does not parse.
pub fn rewrite_manifest_text(text: &str, candidates: &Vec<String>) -> (r: Option<String>)
    ensures
        r.is_some() == parses(text@),
        r matches Some(s) ==> exists|d: Document|
            s@ == rendered(d) && #[trigger] document_item(d) is Table && manifest_rewritten(
                parsed_root(text@),
                table_of(document_item(d)),
                strings_view(candidates@),
            ),
{
    match parse_document(text) {
        Some(mut doc) => {
            rewrite_document(&mut doc, candidates);
            let out = render_document(&doc);
            proof {
                assert(out@ == rendered(doc) && document_item(doc) is Table);
            }
            Some(out)
        },
        None => None,
    }
}

/// Two entries that a rewrite does not tell apart: the same shape, the same
/// fields and, for an inline table, the same decoration.
pub open spec fn same_entry(a: Item, b: Item) -> bool {
    match a {
        Item::Value(Value::InlineTable(t)) => match b {
            Item::Value(Value::InlineTable(t2)) => inline_items(t2) == inline_items(t)
                && inline_decor(t2) == inline_decor(t),
            _ => false,
        },
        Item::Table(t) => match b {
            Item::Table(t2) => table_items(t2) == table_items(t),
            _ => false,
        },
        _ => b == a,
    }
}

pub open spec fn settled_step() -> spec_fn(Item, Item) -> bool {
    |a: Item, b: Item| same_entry(a, b)
}

proof fn lemma_keys_distinct()
    ensures
        workspace_key() != version_key(),
        workspace_key() != path_key(),
        version_key() != path_key(),
{
    reveal_strlit("workspace");
    reveal_strlit("version");
    reveal_strlit("path");
    assert(workspace_key().len() != version_key().len());
    assert(workspace_key().len() != path_key().len());
    assert(version_key().len() != path_key().len());
}

/// A second rewrite of an entry leaves it as the first rewrite made it.
pub proof fn rewrite_entry_idempotent(a: Item, b: Item, c: Item)
    requires
        entry_rewritten(a, b),
        entry_rewritten(b, c),
    ensures
        same_entry(b, c),
{
    lemma_keys_distinct();
    match b {
        Item::Value(Value::InlineTable(t)) => {
            assert(delegated_fields(inline_items(t)) =~= inline_items(t));
        },
        Item::Table(t) => {
            assert(delegated_items(table_items(t)) =~= table_items(t));
        },
        _ => {},
    }
}

proof fn lemma_table_idempotent(
    m0: Map<Seq<char>, Item>,
    m1: Map<Seq<char>, Item>,
    m2: Map<Seq<char>, Item>,
    cands: Seq<Seq<char>>,
)
    requires
        table_rewritten(m0, m1, cands),
        table_rewritten(m1, m2, cands),
    ensures
        table_related(m1, m2, cands, settled_step()),
{
    assert forall|k: Seq<char>| #[trigger] m1.contains_key(k) && cands.contains(k) implies same_entry(
        m1[k],
        m2[k],
    ) by {
        assert(m0.contains_key(k));
        rewrite_entry_idempotent(m0[k], m1[k], m2[k]);
    }
}

proof fn lemma_section_idempotent(a: Item, b: Item, c: Item, cands: Seq<Seq<char>>)
    requires
        section_rewritten(a, b, cands),
        section_rewritten(b, c, cands),
    ensures
        section_related(b, c, cands, settled_step()),
{
    match (a, b, c) {
        (Item::Table(x), Item::Table(y), Item::Table(z)) => {
            lemma_table_idempotent(table_items(x), table_items(y), table_items(z), cands);
        },
        _ => {},
    }
}

proof fn lemma_sections_idempotent(
    m0: Map<Seq<char>, Item>,
    m1: Map<Seq<char>, Item>,
    m2: Map<Seq<char>, Item>,
    cands: Seq<Seq<char>>,
)
    requires
        sections_rewritten(m0, m1, cands),
        sections_rewritten(m1, m2, cands),
    ensures
        sections_related(m1, m2, cands, settled_step()),
{
    assert forall|k: Seq<char>| #[trigger] m1.contains_key(k) implies if dependency_kinds().contains(
        k,
    ) {
        section_related(m1[k], m2[k], cands, settled_step())
    } else {
        m2[k] == m1[k]
    } by {
        assert(m0.contains_key(k));
        if dependency_kinds().contains(k) {
            lemma_section_idempotent(m0[k], m1[k], m2[k], cands);
        }
    }
}

proof fn lemma_targets_idempotent(a: Item, b: Item, c: Item, cands: Seq<Seq<char>>)
    requires
        targets_rewritten(a, b, cands),
        targets_rewritten(b, c, cands),
    ensures
        targets_related(b, c, cands, settled_step()),
{
    match (a, b, c) {
        (Item::Table(ta), Item::Table(tb), Item::Table(tc)) => {
            let t0 = table_items(ta);
            let t1 = table_items(tb);
            let t2 = table_items(tc);
            assert forall|k: Seq<char>| #[trigger] t1.contains_key(k) implies match t1[k] {
                Item::Table(x) => match t2[k] {
                    Item::Table(y) => sections_related(
                        table_items(x),
                        table_items(y),
                        cands,
                        settled_step(),
                    ),
                    _ => false,
                },
                _ => t2[k] == t1[k],
            } by {
                assert(t0.contains_key(k));
                match (t0[k], t1[k], t2[k]) {
                    (Item::Table(x), Item::Table(y), Item::Table(z)) => {
                        lemma_sections_idempotent(
                            table_items(x),
                            table_items(y),
                            table_items(z),
                            cands,
                        );
                    },
                    _ => {},
                }
            }
        },
        _ => {},
    }
}

/// Rewriting a manifest a second time with the same candidates changes
/// nothing more: each candidate's entry keeps the shape, the fields and the
/// decoration that the first rewrite gave it, and every other key stays.
pub proof fn rewrite_manifest_idempotent(
    m0: Map<Seq<char>, Item>,
    m1: Map<Seq<char>, Item>,
    m2: Map<Seq<char>, Item>,
    candidates: Seq<Seq<char>>,
)
    requires
        manifest_rewritten(m0, m1, candidates),
        manifest_rewritten(m1, m2, candidates),
    ensures
        manifest_related(m1, m2, candidates, settled_step()),
{
    assert forall|k: Seq<char>| #[trigger] m1.contains_key(k) implies if dependency_kinds().contains(
        k,
    ) {
        section_related(m1[k], m2[k], candidates, settled_step())
    } else if k == target_key() {
        targets_related(m1[k], m2[k], candidates, settled_step())
    } else {
        m2[k] == m1[k]
    } by {
        assert(m0.contains_key(k));
        if dependency_kinds().contains(k) {
            lemma_section_idempotent(m0[k], m1[k], m2[k], candidates);
        } else if k == target_key() {
            lemma_targets_idempotent(m0[k], m1[k], m2[k], candidates);
        }
    }
}

} // verus!
