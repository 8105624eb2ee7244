use dependency_inheritor::aggregate::{aggregate, candidates, DepDecl, PackageDeps, Record};
use dependency_inheritor::report::report_lines;
use dependency_inheritor::rewrite::rewrite_manifest_text;
use dependency_inheritor::synthesize::{root_entry, synthesize_root_text, RootError};

fn decl(name: &str, req: &str, default_features: bool, path: Option<&str>) -> DepDecl {
    DepDecl {
        name: name.to_string(),
        req: req.to_string(),
        uses_default_features: default_features,
        path: path.map(|p| p.to_string()),
    }
}

fn package(name: &str, deps: Vec<DepDecl>) -> PackageDeps {
    PackageDeps {
        name: name.to_string(),
        manifest_path: format!("/ws/{name}/Cargo.toml"),
        dependencies: deps,
    }
}

fn names(v: &[String]) -> Vec<&str> {
    v.iter().map(|s| s.as_str()).collect()
}

fn find<'a>(records: &'a [Record], name: &str) -> &'a Record {
    records.iter().find(|r| r.name == name).unwrap()
}

fn strings(v: &[&str]) -> Vec<String> {
    v.iter().map(|s| s.to_string()).collect()
}

fn serde_workspace() -> Vec<PackageDeps> {
    vec![
        package("a", vec![decl("serde", "1.0", true, None)]),
        package("b", vec![decl("serde", "1.0", true, None)]),
        package("c", vec![decl("serde", "1.0", true, None)]),
    ]
}

#[test]
fn three_serde_packages_make_serde_a_candidate() {
    let records = aggregate(&serde_workspace(), &vec![]);
    assert_eq!(records.len(), 1);
    assert_eq!(records[0].count, 3);
    assert_eq!(
        names(&records[0].workspace_packages),
        vec!["/ws/a/Cargo.toml", "/ws/b/Cargo.toml", "/ws/c/Cargo.toml"]
    );
    assert_eq!(names(&candidates(&records, 2)), vec!["serde"]);

    let member = rewrite_manifest_text("[dependencies]\nserde = \"1.0\"\n", &strings(&["serde"]));
    assert_eq!(member.unwrap(), "[dependencies]\nserde = { workspace = true }\n");

    let root = synthesize_root_text("[workspace]\nmembers = [\"a\", \"b\", \"c\"]\n", &records, 2);
    let root = root.ok().unwrap();
    assert!(root.contains("[workspace.dependencies]\nserde = \"1.0\"\n"));
    assert!(root.starts_with("[workspace]\nmembers = [\"a\", \"b\", \"c\"]\n"));
}

#[test]
fn local_path_dependency_keeps_default_features_off() {
    let site = "[dependencies]\nlocal_lib = { path = \"../local_lib\", default-features = false }\n";
    let pkgs: Vec<PackageDeps> = ["a", "b", "c", "d"]
        .iter()
        .map(|n| package(n, vec![decl("local_lib", "*", false, Some("../local_lib"))]))
        .collect();
    let records = aggregate(&pkgs, &vec![]);
    let rec = find(&records, "local_lib");
    assert_eq!(rec.count, 4);
    assert!(rec.no_default_features);
    let cands = candidates(&records, 3);
    assert_eq!(names(&cands), vec!["local_lib"]);

    let out = rewrite_manifest_text(site, &cands).unwrap();
    let doc: toml_edit::Document = out.parse().unwrap();
    let entry = doc["dependencies"]["local_lib"].as_inline_table().unwrap();
    assert_eq!(entry.len(), 2);
    assert_eq!(entry.get("workspace").unwrap().as_bool(), Some(true));
    assert_eq!(entry.get("default-features").unwrap().as_bool(), Some(false));
    assert!(entry.get("path").is_none());

    let root = synthesize_root_text("[workspace]\n", &records, 3).ok().unwrap();
    let doc: toml_edit::Document = root.parse().unwrap();
    let shared = doc["workspace"]["dependencies"]["local_lib"].as_inline_table().unwrap();
    assert_eq!(shared.len(), 2);
    assert_eq!(shared.get("path").unwrap().as_str(), Some("../local_lib"));
    assert_eq!(shared.get("default-features").unwrap().as_bool(), Some(false));
    assert!(shared.get("version").is_none());
}

#[test]
fn high_threshold_leaves_everything_alone() {
    let records = aggregate(&serde_workspace(), &vec![]);
    let cands = candidates(&records, 10);
    assert!(cands.is_empty());
    let text = "[dependencies]\nserde = \"1.0\" # pinned\ntokio = { version = \"1\" }\n";
    assert_eq!(rewrite_manifest_text(text, &cands).unwrap(), text);
    assert!(report_lines(&records, 10).is_empty());
    let root = "[workspace]\nmembers = [\"a\", \"b\", \"c\"]\n";
    assert_eq!(synthesize_root_text(root, &records, 10).ok().unwrap(), root);
    assert_eq!(synthesize_root_text("workspace = 1\n", &records, 10).ok().unwrap(), "workspace = 1\n");
}

#[test]
fn candidate_iff_count_reaches_threshold() {
    let pkgs = vec![
        package("a", vec![decl("x", "1", true, None), decl("y", "2", true, None)]),
        package("b", vec![decl("x", "1", true, None)]),
        package("c", vec![decl("x", "1", true, None), decl("z", "3", true, None)]),
    ];
    let records = aggregate(&pkgs, &vec![]);
    assert_eq!(find(&records, "x").count, 3);
    assert_eq!(find(&records, "y").count, 1);
    assert_eq!(names(&candidates(&records, 3)), vec!["x"]);
    assert_eq!(names(&candidates(&records, 4)), Vec::<&str>::new());
    assert_eq!(names(&candidates(&records, 1)), vec!["x", "y", "z"]);
    assert_eq!(names(&candidates(&records, 0)), vec!["x", "y", "z"]);
}

#[test]
fn each_kind_counts_once_per_declaration() {
    let pkgs = vec![package(
        "a",
        vec![decl("log", "0.4", true, None), decl("log", "0.4", true, None)],
    )];
    let records = aggregate(&pkgs, &vec![]);
    assert_eq!(find(&records, "log").count, 2);
    assert_eq!(
        names(&find(&records, "log").workspace_packages),
        vec!["/ws/a/Cargo.toml", "/ws/a/Cargo.toml"]
    );
}

#[test]
fn last_declaration_wins_and_default_features_flag_sticks() {
    let pkgs = vec![
        package("a", vec![decl("rand", "0.7", false, Some("vendor/rand"))]),
        package("b", vec![decl("rand", "0.8", true, None)]),
    ];
    let records = aggregate(&pkgs, &vec![]);
    let rec = find(&records, "rand");
    assert_eq!(rec.version, "0.8");
    assert_eq!(rec.path, None);
    assert!(rec.no_default_features);
}

#[test]
fn excluded_packages_contribute_nothing() {
    let records = aggregate(&serde_workspace(), &strings(&["b", "c"]));
    assert_eq!(find(&records, "serde").count, 1);
    assert!(candidates(&records, 2).is_empty());
    let records = aggregate(&serde_workspace(), &strings(&["a", "b", "c"]));
    assert!(records.is_empty());
}

#[test]
fn empty_workspace_has_no_records() {
    assert!(aggregate(&vec![], &vec![]).is_empty());
    assert!(candidates(&vec![], 0).is_empty());
}

#[test]
fn non_candidates_stay_byte_identical() {
    let text = "[dependencies]\n# keep this\ntokio   =   \"1\"   # spaced\nserde = \"1.0\"\nanyhow = {version=\"1\"}\n";
    let out = rewrite_manifest_text(text, &strings(&["serde"])).unwrap();
    assert_eq!(
        out,
        "[dependencies]\n# keep this\ntokio   =   \"1\"   # spaced\nserde = { workspace = true }\nanyhow = {version=\"1\"}\n"
    );
}

#[test]
fn bare_string_keeps_its_trailing_comment() {
    let out = rewrite_manifest_text("[dependencies]\nserde = \"1.0\" # json\n", &strings(&["serde"]));
    assert_eq!(out.unwrap(), "[dependencies]\nserde = { workspace = true } # json\n");
}

#[test]
fn inline_table_keeps_other_keys() {
    let text = "[dependencies]\nserde = { version = \"1.0\", features = [\"derive\"] }\n";
    let out = rewrite_manifest_text(text, &strings(&["serde"])).unwrap();
    let doc: toml_edit::Document = out.parse().unwrap();
    let entry = doc["dependencies"]["serde"].as_inline_table().unwrap();
    assert_eq!(entry.len(), 2);
    assert_eq!(entry.get("workspace").unwrap().as_bool(), Some(true));
    assert_eq!(entry.get("features").unwrap().as_array().unwrap().len(), 1);
    assert!(entry.get("version").is_none());
}

#[test]
fn full_table_entry_is_rewritten() {
    let text = "[dependencies.serde]\nversion = \"1.0\"\npath = \"../serde\"\nfeatures = [\"derive\"]\n";
    let out = rewrite_manifest_text(text, &strings(&["serde"])).unwrap();
    let doc: toml_edit::Document = out.parse().unwrap();
    let entry = doc["dependencies"]["serde"].as_table().unwrap();
    assert_eq!(entry.len(), 2);
    assert_eq!(entry["workspace"].as_bool(), Some(true));
    assert!(entry.get("version").is_none());
    assert!(entry.get("path").is_none());
    assert!(entry.contains_key("features"));
}

#[test]
fn every_kind_and_target_section_is_rewritten() {
    let text = "[dev-dependencies]\nserde = \"1\"\n\n[build-dependencies]\nserde = \"1\"\n\n[target.'cfg(unix)'.dependencies]\nserde = \"1\"\nlibc = \"0.2\"\n";
    let out = rewrite_manifest_text(text, &strings(&["serde"])).unwrap();
    assert_eq!(
        out,
        "[dev-dependencies]\nserde = { workspace = true }\n\n[build-dependencies]\nserde = { workspace = true }\n\n[target.'cfg(unix)'.dependencies]\nserde = { workspace = true }\nlibc = \"0.2\"\n"
    );
}

#[test]
fn other_shapes_are_left_alone() {
    let text = "[dependencies]\nodd = 3\nlist = [\"a\"]\n[package]\nserde = \"1\"\n";
    let out = rewrite_manifest_text(text, &strings(&["odd", "list", "serde"])).unwrap();
    assert_eq!(out, text);
}

#[test]
fn rewriting_twice_equals_rewriting_once() {
    let text = "[dependencies]\nserde = \"1.0\" # json\ntokio = { version = \"1\", features = [\"full\"] }\nlog = \"0.4\"\n\n[dependencies.rand]\nversion = \"0.8\"\n";
    let cands = strings(&["serde", "tokio", "rand"]);
    let once = rewrite_manifest_text(text, &cands).unwrap();
    let twice = rewrite_manifest_text(&once, &cands).unwrap();
    assert_eq!(once, twice);
}

#[test]
fn unparsable_manifests_are_reported() {
    assert!(rewrite_manifest_text("[dependencies\nserde = ", &vec![]).is_none());
    let records = aggregate(&serde_workspace(), &vec![]);
    assert!(matches!(
        synthesize_root_text("[workspace", &records, 2),
        Err(RootError::Unparsable)
    ));
}

#[test]
fn workspace_that_is_not_a_table_is_refused() {
    let records = aggregate(&serde_workspace(), &vec![]);
    assert!(matches!(
        synthesize_root_text("workspace = 1\n", &records, 2),
        Err(RootError::NotATable)
    ));
    assert!(matches!(
        synthesize_root_text("[workspace]\ndependencies = 1\n", &records, 2),
        Err(RootError::NotATable)
    ));
}

#[test]
fn existing_workspace_entries_are_never_overwritten() {
    let pkgs = vec![
        package("a", vec![decl("serde", "1.0", true, None), decl("log", "0.4", true, None)]),
        package("b", vec![decl("serde", "1.0", true, None), decl("log", "0.4", true, None)]),
    ];
    let records = aggregate(&pkgs, &vec![]);
    let root = "[workspace]\nmembers = [\"a\", \"b\"]\n\n[workspace.dependencies]\nserde = { version = \"0.9\", features = [\"derive\"] } # mine\n";
    let out = synthesize_root_text(root, &records, 2).ok().unwrap();
    assert_eq!(
        out,
        "[workspace]\nmembers = [\"a\", \"b\"]\n\n[workspace.dependencies]\nserde = { version = \"0.9\", features = [\"derive\"] } # mine\nlog = \"0.4\"\n"
    );
    let again = synthesize_root_text(&out, &records, 2).ok().unwrap();
    assert_eq!(again, out);
}

#[test]
fn missing_workspace_table_is_created() {
    let records = aggregate(&serde_workspace(), &vec![]);
    let out = synthesize_root_text("[package]\nname = \"root\"\n", &records, 2).ok().unwrap();
    let doc: toml_edit::Document = out.parse().unwrap();
    assert_eq!(doc["workspace"]["dependencies"]["serde"].as_str(), Some("1.0"));
    assert_eq!(doc["package"]["name"].as_str(), Some("root"));
}

#[test]
fn root_entry_forms() {
    let plain = Record {
        name: "serde".to_string(),
        count: 2,
        workspace_packages: vec![],
        version: "1.0".to_string(),
        path: None,
        no_default_features: false,
    };
    assert_eq!(root_entry(&plain).as_str(), Some("1.0"));

    let detailed = Record {
        name: "tokio".to_string(),
        count: 2,
        workspace_packages: vec![],
        version: "1".to_string(),
        path: None,
        no_default_features: true,
    };
    let item = root_entry(&detailed);
    let t = item.as_inline_table().unwrap();
    assert_eq!(t.len(), 2);
    assert_eq!(t.get("version").unwrap().as_str(), Some("1"));
    assert_eq!(t.get("default-features").unwrap().as_bool(), Some(false));

    let wildcard = Record {
        name: "local".to_string(),
        count: 2,
        workspace_packages: vec![],
        version: "*".to_string(),
        path: Some("crates/local".to_string()),
        no_default_features: false,
    };
    let item = root_entry(&wildcard);
    let t = item.as_inline_table().unwrap();
    assert_eq!(t.len(), 1);
    assert_eq!(t.get("path").unwrap().as_str(), Some("crates/local"));
}

#[test]
fn report_lists_candidates_with_their_packages() {
    let pkgs = vec![
        package("a", vec![decl("serde", "1.0", true, None), decl("log", "0.4", true, None)]),
        package("b", vec![decl("serde", "1.0", true, None)]),
    ];
    let records = aggregate(&pkgs, &vec![]);
    assert_eq!(
        report_lines(&records, 2),
        vec![
            "==== Dependency: 'serde' (2) =====".to_string(),
            "  - /ws/a/Cargo.toml".to_string(),
            "  - /ws/b/Cargo.toml".to_string(),
        ]
    );
    assert_eq!(report_lines(&records, 1).len(), 5);
}


#[test]
fn detailed_root_entry_lists_fields_in_order() {
    let rec = Record {
        name: "y".to_string(),
        count: 5,
        workspace_packages: vec!["/ws/a/Cargo.toml".to_string()],
        version: "1.2".to_string(),
        path: Some("libs/y".to_string()),
        no_default_features: true,
    };
    let item = root_entry(&rec);
    let keys: Vec<&str> = item.as_inline_table().unwrap().iter().map(|(k, _)| k).collect();
    assert_eq!(keys, vec!["version", "path", "default-features"]);
    assert_eq!(
        item.to_string(),
        "{ version = \"1.2\", path = \"libs/y\", default-features = false }"
    );
}

#[test]
fn comments_above_workspace_entries_survive() {
    let records = aggregate(&serde_workspace(), &vec![]);
    let root = "[workspace]\nmembers = []\n\n[workspace.dependencies]\n# pinned by hand\nlog = \"0.4\"\n";
    let out = synthesize_root_text(root, &records, 2).ok().unwrap();
    assert_eq!(
        out,
        "[workspace]\nmembers = []\n\n[workspace.dependencies]\n# pinned by hand\nlog = \"0.4\"\nserde = \"1.0\"\n"
    );
}
