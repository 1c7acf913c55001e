use type_exporter::link_mutator::{apply_content, ExportedType};
use type_exporter::orchestrator::{run, FileEntry, PackageInput, RunError, Warning, WarnReason};
use type_exporter::require_parser::{extract_export_types, extract_require_args};
use type_exporter::sourcemap::{build, lookup_by_path, resolve_require, NodeKind, Resolution,
    SourcemapDoc};

fn et(name: &str, expr: &str, source: &str) -> ExportedType {
    ExportedType {
        name: name.as_bytes().to_vec(),
        expr: expr.as_bytes().to_vec(),
        source: source.as_bytes().to_vec(),
    }
}

fn doc(name: &str, kind: NodeKind, paths: &[&str], children: Vec<SourcemapDoc>) -> SourcemapDoc {
    SourcemapDoc {
        name: name.as_bytes().to_vec(),
        kind,
        file_paths: paths.iter().map(|p| p.as_bytes().to_vec()).collect(),
        children,
    }
}

fn file(path: &str, content: &str) -> FileEntry {
    FileEntry {
        path: path.as_bytes().to_vec(),
        content: content.as_bytes().to_vec(),
    }
}

fn pkg(name: &str, link: &str) -> PackageInput {
    PackageInput {
        name: name.as_bytes().to_vec(),
        link_content: link.as_bytes().to_vec(),
    }
}

fn scenario_doc() -> SourcemapDoc {
    doc(
        "root",
        NodeKind::Folder,
        &[],
        vec![doc(
            "Packages",
            NodeKind::Folder,
            &[],
            vec![doc("Foo", NodeKind::Module, &["foo.src"], vec![])],
        )],
    )
}

// ---------------------------------------------------------------------------
// LinkMutator
// ---------------------------------------------------------------------------

#[test]
fn apply_inserts_managed_region_after_identity_line() {
    let current = b"return require(realpath)".to_vec();
    let exports = vec![et("Bar", "typeof(1)", "foo.src")];
    let out = apply_content(&current, &exports).unwrap();
    assert!(out.changed);
    assert_eq!(
        String::from_utf8(out.content).unwrap(),
        "return require(realpath)\n--<types>\nexport type Bar = typeof(1)\n--</types>"
    );
}

#[test]
fn apply_is_idempotent_and_second_write_is_zero_diff() {
    let current = b"local x = 1\nreturn require(realpath)\n".to_vec();
    let exports = vec![et("Bar", "typeof(1)", "foo.src"), et("Baz", "number", "foo.src")];
    let once = apply_content(&current, &exports).unwrap();
    assert!(once.changed);
    let twice = apply_content(&once.content, &exports).unwrap();
    assert!(!twice.changed);
    assert_eq!(once.content, twice.content);
}

#[test]
fn apply_preserves_unmanaged_prefix_and_suffix() {
    let current =
        b"-- hand written header\nreturn require(realpath)\n--<types>\nexport type Old = x\n--</types>\n-- trailing text\n"
            .to_vec();
    let exports = vec![et("New", "string", "m.src")];
    let out = apply_content(&current, &exports).unwrap();
    let text = String::from_utf8(out.content).unwrap();
    assert!(text.starts_with("-- hand written header\nreturn require(realpath)\n--<types>\n"));
    assert!(text.ends_with("--</types>\n-- trailing text\n"));
    assert!(!text.contains("Old"));
    assert!(text.contains("export type New = string\n"));
}

#[test]
fn apply_emits_declarations_in_export_order() {
    let current = b"return require(realpath)".to_vec();
    let exports = vec![
        et("A", "number", "m.src"),
        et("B", "string", "m.src"),
        et("C", "boolean", "m.src"),
    ];
    let out = apply_content(&current, &exports).unwrap();
    let text = String::from_utf8(out.content).unwrap();
    let a = text.find("export type A = number").unwrap();
    let b = text.find("export type B = string").unwrap();
    let c = text.find("export type C = boolean").unwrap();
    assert!(a < b && b < c);
}

#[test]
fn apply_detects_duplicate_and_writes_nothing() {
    let current = b"return require(realpath)".to_vec();
    let exports = vec![
        et("Shared", "number", "one.src"),
        et("Shared", "string", "two.src"),
    ];
    let err = apply_content(&current, &exports).unwrap_err();
    assert_eq!(err.name, b"Shared".to_vec());
    assert_eq!(err.first_source, b"one.src".to_vec());
    assert_eq!(err.second_source, b"two.src".to_vec());
}

#[test]
fn apply_without_identity_line_appends_region_at_end() {
    let current = b"-- nothing here".to_vec();
    let exports = vec![et("T", "number", "m.src")];
    let out = apply_content(&current, &exports).unwrap();
    assert_eq!(
        String::from_utf8(out.content).unwrap(),
        "-- nothing here\n--<types>\nexport type T = number\n--</types>"
    );
}

// ---------------------------------------------------------------------------
// RequireResolver: extraction
// ---------------------------------------------------------------------------

#[test]
fn extracts_export_type_declarations_in_order() {
    let text = b"local x = 1\nexport type A = number\n-- comment\n  export type B = { x: A }\nreturn x\n"
        .to_vec();
    let ets = extract_export_types(&text, &b"m.src".to_vec());
    assert_eq!(ets.len(), 2);
    assert_eq!(ets[0].name, b"A".to_vec());
    assert_eq!(ets[0].expr, b"number".to_vec());
    assert_eq!(ets[1].name, b"B".to_vec());
    assert_eq!(ets[1].expr, b"{ x: A }".to_vec());
    assert_eq!(ets[0].source, b"m.src".to_vec());
}

#[test]
fn export_extraction_ignores_malformed_lines() {
    let text = b"export type = number\nexport type 1X = y\nexport type Ok = z\n".to_vec();
    let ets = extract_export_types(&text, &b"m.src".to_vec());
    assert_eq!(ets.len(), 1);
    assert_eq!(ets[0].name, b"Ok".to_vec());
}

#[test]
fn scanner_finds_arguments_with_nested_parens_strings_and_comments() {
    let text = b"local a = require(script.Parent.Foo)\nlocal b = require(f(\")\") -- )\n)\n"
        .to_vec();
    let args = extract_require_args(&text);
    assert_eq!(args.len(), 2);
    assert_eq!(args[0], b"script.Parent.Foo".to_vec());
    assert_eq!(args[1], b"f(\")\") -- )\n".to_vec());
}

#[test]
fn scanner_drops_an_unclosed_argument() {
    let text = b"require(script.Foo".to_vec();
    let args = extract_require_args(&text);
    assert_eq!(args.len(), 0);
}

// ---------------------------------------------------------------------------
// SourcemapIndex: build, queries, resolution
// ---------------------------------------------------------------------------

#[test]
fn build_rejects_a_name_with_a_dot() {
    let d = doc("root", NodeKind::Folder, &[], vec![doc("a.b", NodeKind::Module, &[], vec![])]);
    let err = build(&d).unwrap_err();
    assert_eq!(err.name, b"a.b".to_vec());
}

#[test]
fn queries_reflect_the_tree() {
    let ix = build(&scenario_doc()).unwrap();
    assert_eq!(ix.node_count(), 3);
    assert_eq!(ix.parent_of(0), None);
    assert_eq!(ix.children_of(0).len(), 1);
    let packages = ix.children_of(0)[0];
    assert_eq!(ix.parent_of(packages), Some(0));
    let foo = ix.children_of(packages)[0];
    assert_eq!(ix.kind_of(foo), NodeKind::Module);
    assert_eq!(ix.backing_paths(foo), vec![b"foo.src".to_vec()]);
}

#[test]
fn lookup_by_path_walks_from_the_root() {
    let ix = build(&scenario_doc()).unwrap();
    let foo = ix.children_of(ix.children_of(0)[0])[0];
    assert_eq!(lookup_by_path(&ix, &b"Packages.Foo".to_vec()), Resolution::Resolved(foo));
    assert_eq!(lookup_by_path(&ix, &b"Packages.Missing".to_vec()), Resolution::NotFound);
}

#[test]
fn relative_chain_resolves_through_parent_links() {
    let ix = build(&scenario_doc()).unwrap();
    let packages = ix.children_of(0)[0];
    let foo = ix.children_of(packages)[0];
    let r = resolve_require(&ix, foo, &b"script.Parent.Foo".to_vec());
    assert_eq!(r, Resolution::Resolved(foo));
    let up = resolve_require(&ix, foo, &b"script.Parent".to_vec());
    assert_eq!(up, Resolution::Resolved(packages));
}

#[test]
fn service_call_is_external_and_junk_is_unparseable() {
    let ix = build(&scenario_doc()).unwrap();
    assert_eq!(
        resolve_require(&ix, 0, &b"game:GetService(\"Stuff\")".to_vec()),
        Resolution::External
    );
    assert_eq!(resolve_require(&ix, 0, &b"1 + 2".to_vec()), Resolution::Unparseable);
}

#[test]
fn duplicate_sibling_names_resolve_as_ambiguous() {
    let d = doc(
        "root",
        NodeKind::Folder,
        &[],
        vec![
            doc("Twin", NodeKind::Module, &[], vec![]),
            doc("Twin", NodeKind::Module, &[], vec![]),
        ],
    );
    let ix = build(&d).unwrap();
    assert_eq!(lookup_by_path(&ix, &b"Twin".to_vec()), Resolution::Ambiguous);
}

// ---------------------------------------------------------------------------
// Orchestrator scenarios
// ---------------------------------------------------------------------------

#[test]
fn basic_resolution_scenario() {
    let ix = build(&scenario_doc()).unwrap();
    let files = vec![file("foo.src", "export type Bar = typeof(1)")];
    let packages = vec![pkg("Foo", "return require(realpath)")];
    let out = run(&ix, packages, &files);
    assert!(out.fatal.is_none());
    assert_eq!(out.warnings.len(), 0);
    assert_eq!(out.writes.len(), 1);
    assert_eq!(out.writes[0].package, b"Foo".to_vec());
    assert_eq!(
        String::from_utf8(out.writes[0].content.clone()).unwrap(),
        "return require(realpath)\n--<types>\nexport type Bar = typeof(1)\n--</types>"
    );
}

#[test]
fn rerun_scenario_is_stable_with_zero_writes() {
    let ix = build(&scenario_doc()).unwrap();
    let files = vec![file("foo.src", "export type Bar = typeof(1)")];
    let first = run(&ix, vec![pkg("Foo", "return require(realpath)")], &files);
    assert_eq!(first.writes.len(), 1);
    let mutated = String::from_utf8(first.writes[0].content.clone()).unwrap();
    let second = run(&ix, vec![pkg("Foo", &mutated)], &files);
    assert!(second.fatal.is_none());
    assert_eq!(second.writes.len(), 0);
}

#[test]
fn rerun_is_stable_even_with_a_stray_begin_marker() {
    let ix = build(&scenario_doc()).unwrap();
    let files = vec![file("foo.src", "export type Bar = typeof(1)")];
    let first = run(&ix, vec![pkg("Foo", "--<types>\nreturn require(realpath)")], &files);
    assert!(first.fatal.is_none());
    assert_eq!(first.writes.len(), 1);
    let mutated = String::from_utf8(first.writes[0].content.clone()).unwrap();
    assert!(mutated.contains("return require(realpath)"));
    let second = run(&ix, vec![pkg("Foo", &mutated)], &files);
    assert!(second.fatal.is_none());
    assert_eq!(second.writes.len(), 0);
}

#[test]
fn missing_sourcemap_entry_is_skipped_with_a_warning() {
    let ix = build(&scenario_doc()).unwrap();
    let files = vec![file("foo.src", "export type Bar = typeof(1)")];
    let packages = vec![pkg("Ghost", "return require(realpath)")];
    let out = run(&ix, packages, &files);
    assert!(out.fatal.is_none());
    assert_eq!(out.writes.len(), 0);
    assert_eq!(out.warnings.len(), 1);
    match &out.warnings[0] {
        Warning::EntryMissing { package } => assert_eq!(package, &b"Ghost".to_vec()),
        _ => panic!("expected a missing-entry warning"),
    }
}

#[test]
fn external_require_contributes_no_exports_and_one_warning() {
    let ix = build(&scenario_doc()).unwrap();
    let files = vec![file(
        "foo.src",
        "local s = require(game:GetService(\"Stuff\"))\nexport type Bar = typeof(1)\n",
    )];
    let out = run(&ix, vec![pkg("Foo", "return require(realpath)")], &files);
    assert!(out.fatal.is_none());
    assert_eq!(out.warnings.len(), 1);
    match &out.warnings[0] {
        Warning::Require { package, reason, .. } => {
            assert_eq!(package, &b"Foo".to_vec());
            assert_eq!(*reason, WarnReason::External);
        },
        _ => panic!("expected a require warning"),
    }
    let text = String::from_utf8(out.writes[0].content.clone()).unwrap();
    assert!(text.contains("export type Bar = typeof(1)"));
    assert!(!text.contains("Stuff"));
}

#[test]
fn duplicate_across_resolved_modules_is_fatal() {
    let d = doc(
        "root",
        NodeKind::Folder,
        &[],
        vec![doc(
            "Packages",
            NodeKind::Folder,
            &[],
            vec![doc("Foo", NodeKind::Module, &["a.src", "b.src"], vec![])],
        )],
    );
    let ix = build(&d).unwrap();
    let files = vec![
        file("a.src", "export type Shared = number"),
        file("b.src", "export type Shared = string"),
    ];
    let out = run(&ix, vec![pkg("Foo", "return require(realpath)")], &files);
    assert_eq!(out.writes.len(), 0);
    match out.fatal {
        Some(RunError::Duplicate { name, first_source, second_source, .. }) => {
            assert_eq!(name, b"Shared".to_vec());
            assert_eq!(first_source, b"a.src".to_vec());
            assert_eq!(second_source, b"b.src".to_vec());
        },
        _ => panic!("expected a duplicate error"),
    }
}

#[test]
fn requires_in_backing_files_pull_exports_from_their_targets() {
    let d = doc(
        "root",
        NodeKind::Folder,
        &[],
        vec![
            doc(
                "Packages",
                NodeKind::Folder,
                &[],
                vec![doc("Foo", NodeKind::Module, &["foo.src"], vec![])],
            ),
            doc("Util", NodeKind::Module, &["util.src"], vec![]),
        ],
    );
    let ix = build(&d).unwrap();
    let files = vec![
        file("foo.src", "local u = require(Util)\nexport type Own = number\n"),
        file("util.src", "export type FromUtil = string"),
    ];
    let out = run(&ix, vec![pkg("Foo", "return require(realpath)")], &files);
    assert!(out.fatal.is_none());
    let text = String::from_utf8(out.writes[0].content.clone()).unwrap();
    let own = text.find("export type Own = number").unwrap();
    let pulled = text.find("export type FromUtil = string").unwrap();
    assert!(own < pulled);
}

#[test]
fn packages_are_processed_in_lexicographic_name_order() {
    let d = doc(
        "root",
        NodeKind::Folder,
        &[],
        vec![doc(
            "Packages",
            NodeKind::Folder,
            &[],
            vec![
                doc("Beta", NodeKind::Module, &["b.src"], vec![]),
                doc("Alpha", NodeKind::Module, &["a.src"], vec![]),
            ],
        )],
    );
    let ix = build(&d).unwrap();
    let files = vec![
        file("a.src", "export type A = number"),
        file("b.src", "export type B = number"),
    ];
    let packages = vec![pkg("Beta", "return require(x)"), pkg("Alpha", "return require(x)")];
    let out = run(&ix, packages, &files);
    assert_eq!(out.writes.len(), 2);
    assert_eq!(out.writes[0].package, b"Alpha".to_vec());
    assert_eq!(out.writes[1].package, b"Beta".to_vec());
}

#[test]
fn empty_export_list_still_claims_a_managed_region() {
    let current = b"return require(realpath)".to_vec();
    let exports: Vec<ExportedType> = vec![];
    let out = apply_content(&current, &exports).unwrap();
    assert_eq!(
        String::from_utf8(out.content).unwrap(),
        "return require(realpath)\n--<types>\n--</types>"
    );
}

#[test]
fn unresolved_and_unparseable_requires_warn_but_never_abort() {
    let ix = build(&scenario_doc()).unwrap();
    let files = vec![file(
        "foo.src",
        "local a = require(Nowhere.AtAll)\nlocal b = require(1 + 2)\nexport type Bar = typeof(1)\n",
    )];
    let out = run(&ix, vec![pkg("Foo", "return require(realpath)")], &files);
    assert!(out.fatal.is_none());
    assert_eq!(out.warnings.len(), 2);
    match &out.warnings[0] {
        Warning::Require { reason, expression, .. } => {
            assert_eq!(*reason, WarnReason::NotFound);
            assert_eq!(expression, &b"Nowhere.AtAll".to_vec());
        }
        _ => panic!("expected a require warning"),
    }
    match &out.warnings[1] {
        Warning::Require { reason, .. } => assert_eq!(*reason, WarnReason::Unparseable),
        _ => panic!("expected a require warning"),
    }
    assert_eq!(out.writes.len(), 1);
}

#[test]
fn lookup_rejects_a_path_with_an_empty_segment() {
    let ix = build(&scenario_doc()).unwrap();
    assert_eq!(lookup_by_path(&ix, &b"Packages..Foo".to_vec()), Resolution::Unparseable);
}

#[test]
fn spacing_around_dots_is_tolerated() {
    let ix = build(&scenario_doc()).unwrap();
    let packages = ix.children_of(0)[0];
    let foo = ix.children_of(packages)[0];
    assert_eq!(
        resolve_require(&ix, foo, &b" script . Parent . Foo ".to_vec()),
        Resolution::Resolved(foo)
    );
    assert_eq!(
        lookup_by_path(&ix, &b"Packages . Foo".to_vec()),
        Resolution::Resolved(foo)
    );
}

#[test]
fn a_lone_begin_marker_is_treated_as_unmanaged_text() {
    let current = b"--<types>\nreturn require(realpath)".to_vec();
    let exports = vec![et("T", "number", "m.src")];
    let out = apply_content(&current, &exports).unwrap();
    assert_eq!(
        String::from_utf8(out.content.clone()).unwrap(),
        "--<types>\nreturn require(realpath)\n--<types>\nexport type T = number\n--</types>"
    );
    // The emitted region anchors at the last usable begin marker, so even
    // this content mutates stably: the second application changes nothing.
    let again = apply_content(&out.content, &exports).unwrap();
    assert!(!again.changed);
    assert_eq!(again.content, out.content);
}

#[test]
fn a_stray_end_marker_does_not_disturb_the_region() {
    let current = b"--</types>\nreturn require(realpath)".to_vec();
    let exports = vec![et("T", "number", "m.src")];
    let out = apply_content(&current, &exports).unwrap();
    assert_eq!(
        String::from_utf8(out.content.clone()).unwrap(),
        "--</types>\nreturn require(realpath)\n--<types>\nexport type T = number\n--</types>"
    );
    let again = apply_content(&out.content, &exports).unwrap();
    assert!(!again.changed);
}

#[test]
fn keyword_inside_a_longer_identifier_is_not_a_require() {
    let text = b"local a = prerequire(script.Parent.Foo)\n".to_vec();
    let args = extract_require_args(&text);
    assert_eq!(args.len(), 0);
}

#[test]
fn keyword_inside_a_longer_identifier_is_not_an_identity_line() {
    // `myrequire(...)` is no module-identity line, so the fresh region goes
    // to the end of the file instead of after that line.
    let current = b"local x = myrequire(realpath)\nlocal y = 1".to_vec();
    let exports = vec![et("T", "number", "m.src")];
    let out = apply_content(&current, &exports).unwrap();
    assert_eq!(
        String::from_utf8(out.content).unwrap(),
        "local x = myrequire(realpath)\nlocal y = 1\n--<types>\nexport type T = number\n--</types>"
    );
}
