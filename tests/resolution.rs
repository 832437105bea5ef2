use rsdo::catalog::fallback_definitions;
use rsdo::store::repair_numeric_literal;
use rsdo::synthesis::{add_missing_definitions, clean_unresolved_refs};
use rsdo::{resolve_document, resolve_file, DocPath, FileStore, Node, ResolveError, Resolver};

fn text(s: &str) -> Node {
    Node::Str(s.to_string())
}

fn num(s: &str) -> Node {
    Node::Number(s.to_string())
}

fn map(entries: Vec<(&str, Node)>) -> Node {
    Node::Mapping(entries.into_iter().map(|(k, v)| (k.to_string(), v)).collect())
}

fn reference(r: &str) -> Node {
    map(vec![("$ref", text(r))])
}

fn get<'a>(n: &'a Node, key: &str) -> &'a Node {
    match n {
        Node::Mapping(es) => &es.iter().find(|(k, _)| k == key).expect("key present").1,
        _ => panic!("not a mapping"),
    }
}

fn missing_file_stub() -> Node {
    map(vec![
        ("type", text("object")),
        ("description", text("Fallback schema for missing file reference")),
        ("additionalProperties", Node::Bool(true)),
    ])
}

fn catalog_entry(name: &str) -> Node {
    fallback_definitions().into_iter().find(|(k, _)| k == name).expect("catalog name").1
}

#[test]
fn mutual_file_references_are_circular() {
    let mut store = FileStore::new();
    store.insert(
        "/spec/a.yaml",
        Ok(map(vec![("y", map(vec![("v", num("1"))])), ("link", reference("b.yaml#/x"))])),
    );
    store.insert("/spec/b.yaml", Ok(map(vec![("x", reference("a.yaml#/y"))])));
    assert_eq!(
        resolve_file(store, "/spec/a.yaml"),
        Err(ResolveError::Circular(vec!["spec".to_string(), "b.yaml".to_string()]))
    );
}

#[test]
fn reference_to_missing_file_gives_stub_and_completes() {
    let mut store = FileStore::new();
    store.insert("/spec/root.yaml", Ok(map(vec![("thing", reference("missing.yaml"))])));
    let out = resolve_file(store, "/spec/root.yaml").unwrap();
    assert_eq!(get(&out, "thing"), &missing_file_stub());
}

#[test]
fn well_known_definition_resolves_without_a_file() {
    let mut store = FileStore::new();
    store.insert(
        "/spec/root.yaml",
        Ok(map(vec![("links", reference("#/definitions/forward_links"))])),
    );
    let out = resolve_file(store, "/spec/root.yaml").unwrap();
    assert_eq!(get(&out, "links"), &catalog_entry("forward_links"));
    assert_eq!(get(get(&out, "definitions"), "forward_links"), &catalog_entry("forward_links"));
}

#[test]
fn seeding_inserts_each_definition_once() {
    let doc = map(vec![("openapi", text("3.0.0"))]);
    let once = add_missing_definitions(&doc);
    let twice = add_missing_definitions(&once);
    assert_eq!(once, twice);
    match get(&once, "definitions") {
        Node::Mapping(es) => assert_eq!(es.len(), 7),
        _ => panic!("definitions is not a mapping"),
    }
}

#[test]
fn seeding_keeps_existing_definitions() {
    let doc = map(vec![("definitions", map(vec![("region_state", text("mine"))]))]);
    let out = add_missing_definitions(&doc);
    assert_eq!(get(get(&out, "definitions"), "region_state"), &text("mine"));
    assert_eq!(get(get(&out, "definitions"), "apiChatbot"), &catalog_entry("apiChatbot"));
}

#[test]
fn seeding_leaves_non_mapping_definitions() {
    let doc = map(vec![("definitions", text("none"))]);
    assert_eq!(add_missing_definitions(&doc), doc);
}

#[test]
fn document_without_references_is_unchanged() {
    let doc = map(vec![
        ("a", Node::Sequence(vec![num("1"), Node::Null, Node::Bool(false)])),
        ("b", map(vec![("c", text("d"))])),
    ]);
    let mut r = Resolver::new(FileStore::new(), doc.deep_copy());
    let dir = DocPath::parse("/spec");
    assert_eq!(r.rewrite(&doc, &dir, None), Ok(doc.deep_copy()));
    assert_eq!(clean_unresolved_refs(&doc), doc);
}

#[test]
fn resolving_a_resolved_document_again_changes_nothing() {
    let mut store = FileStore::new();
    store.insert("/spec/b.yaml", Ok(map(vec![("x", map(vec![("type", text("integer"))]))])));
    let doc = map(vec![("p", reference("b.yaml#/x"))]);
    let mut r = Resolver::new(store, doc.deep_copy());
    let dir = DocPath::parse("/spec");
    let once = r.rewrite(&doc, &dir, None).unwrap();
    assert_eq!(get(&once, "p"), &map(vec![("type", text("integer"))]));
    let twice = r.rewrite(&once, &dir, None).unwrap();
    assert_eq!(once, twice);
}

#[test]
fn file_pointer_resolves_against_its_own_file() {
    let mut store = FileStore::new();
    store.insert(
        "/spec/models/b.yaml",
        Ok(map(vec![("defs", map(vec![("t", num("1"))])), ("x", reference("#/defs/t"))])),
    );
    store.insert("/spec/root.yaml", Ok(map(vec![("v", reference("models/b.yaml#/x"))])));
    let out = resolve_file(store, "/spec/root.yaml").unwrap();
    assert_eq!(get(&out, "v"), &num("1"));
}

#[test]
fn nested_file_references_use_the_file_directory() {
    let mut store = FileStore::new();
    store.insert("/spec/models/c.yaml", Ok(map(vec![("k", text("deep"))])));
    store.insert("/spec/models/b.yaml", Ok(map(vec![("x", reference("c.yaml#/k"))])));
    store.insert("/spec/root.yaml", Ok(map(vec![("v", reference("./models/b.yaml#/x"))])));
    let out = resolve_file(store, "/spec/root.yaml").unwrap();
    assert_eq!(get(&out, "v"), &text("deep"));
}

#[test]
fn overclimbing_reference_is_repaired() {
    let mut store = FileStore::new();
    store.insert("/spec/resources/shared/a.yml", Ok(map(vec![("ok", Node::Bool(true))])));
    store.insert(
        "/spec/resources/root.yaml",
        Ok(map(vec![("v", reference("../../../shared/a.yml#/ok"))])),
    );
    let out = resolve_file(store, "/spec/resources/root.yaml").unwrap();
    assert_eq!(get(&out, "v"), &Node::Bool(true));
}

#[test]
fn unreadable_referenced_file_is_an_error() {
    let mut store = FileStore::new();
    store.insert("/spec/bad.yaml", Err(ResolveError::Parse("bad indentation".to_string())));
    store.insert("/spec/root.yaml", Ok(map(vec![("v", reference("bad.yaml"))])));
    assert_eq!(
        resolve_file(store, "/spec/root.yaml"),
        Err(ResolveError::Parse("bad indentation".to_string()))
    );
}

#[test]
fn missing_root_is_an_io_error() {
    assert_eq!(
        resolve_file(FileStore::new(), "/spec/root.yaml"),
        Err(ResolveError::Io("no such file: /spec/root.yaml".to_string()))
    );
}

#[test]
fn unresolvable_references_become_string_stubs() {
    let doc = map(vec![
        ("a", reference("../../../shared/x.yml")),
        ("b", reference("#/components/schemas/kept")),
        ("c", reference("attributes.yml")),
    ]);
    let out = clean_unresolved_refs(&doc);
    assert_eq!(
        get(&out, "a"),
        &map(vec![
            ("type", text("string")),
            ("description", text("Fallback for unresolved reference: ../../../shared/x.yml")),
        ])
    );
    assert_eq!(
        get(&out, "b"),
        &map(vec![
            ("type", text("string")),
            ("description", text("Fallback for unresolved reference: #/components/schemas/kept")),
        ])
    );
    assert_eq!(
        get(&out, "c"),
        &map(vec![
            ("type", text("string")),
            ("description", text("Fallback for unresolved reference: attributes.yml")),
        ])
    );
}

#[test]
fn oversized_literal_is_clamped() {
    assert_eq!(
        repair_numeric_literal("max: 18446744073709552000\nmin: 0"),
        Some("max: 18446744073709551615\nmin: 0".to_string())
    );
    assert_eq!(repair_numeric_literal("max: 12"), None);
}

#[test]
fn paths_are_normalised() {
    let p = DocPath::parse("/spec/./models/../root.yaml");
    assert_eq!(p.segments, vec!["spec".to_string(), "root.yaml".to_string()]);
    let q = DocPath::parse("/spec").join("../../x.yaml");
    assert_eq!(q.segments, vec!["x.yaml".to_string()]);
}

#[test]
fn failed_file_pointer_falls_back_to_root() {
    let mut store = FileStore::new();
    store.insert(
        "/spec/b.yaml",
        Ok(map(vec![("list", Node::Sequence(vec![])), ("x", reference("#/list/0"))])),
    );
    store.insert(
        "/spec/root.yaml",
        Ok(map(vec![("list", Node::Sequence(vec![text("from root")])), ("v", reference("b.yaml#/x"))])),
    );
    let out = resolve_file(store, "/spec/root.yaml").unwrap();
    assert_eq!(get(&out, "v"), &text("from root"));
}

#[test]
fn root_pointer_out_of_bounds_fails_the_run() {
    let mut store = FileStore::new();
    store.insert(
        "/spec/root.yaml",
        Ok(map(vec![("list", Node::Sequence(vec![])), ("v", reference("#/list/2"))])),
    );
    assert_eq!(
        resolve_file(store, "/spec/root.yaml"),
        Err(ResolveError::IndexOutOfBounds("2".to_string()))
    );
}

#[test]
fn first_stored_copy_of_a_path_wins() {
    let mut store = FileStore::new();
    store.insert("/spec/b.yaml", Ok(map(vec![("x", text("first"))])));
    store.insert("/spec/./b.yaml", Ok(map(vec![("x", text("second"))])));
    store.insert("/spec/root.yaml", Ok(map(vec![("v", reference("b.yaml#/x"))])));
    let out = resolve_file(store, "/spec/root.yaml").unwrap();
    assert_eq!(get(&out, "v"), &text("first"));
}

#[test]
fn absolute_file_reference_is_taken_from_the_root() {
    let mut store = FileStore::new();
    store.insert("/shared/c.yaml", Ok(map(vec![("k", num("7"))])));
    store.insert("/spec/root.yaml", Ok(map(vec![("v", reference("/shared/c.yaml#/k"))])));
    let out = resolve_file(store, "/spec/root.yaml").unwrap();
    assert_eq!(get(&out, "v"), &num("7"));
}

fn holds_ref(n: &Node) -> bool {
    match n {
        Node::Mapping(es) => es.iter().any(|(k, v)| k == "$ref" || holds_ref(v)),
        Node::Sequence(items) => items.iter().any(holds_ref),
        _ => false,
    }
}

#[test]
fn self_reference_leaves_no_ref_in_the_output() {
    let mut store = FileStore::new();
    store.insert("/spec/root.yaml", Ok(Node::Sequence(vec![reference("#")])));
    let out = resolve_file(store, "/spec/root.yaml").unwrap();
    assert!(!holds_ref(&out));
}

#[test]
fn long_internal_chain_leaves_no_ref_in_the_output() {
    let mut store = FileStore::new();
    store.insert(
        "/spec/root.yaml",
        Ok(map(vec![
            ("a", reference("#/b")),
            ("b", reference("#/c")),
            ("c", reference("#/d")),
            ("d", reference("#/e")),
            ("e", text("end")),
        ])),
    );
    let out = resolve_file(store, "/spec/root.yaml").unwrap();
    assert!(!holds_ref(&out));
    assert_eq!(get(&out, "d"), &text("end"));
}

#[test]
fn non_string_reference_is_stubbed() {
    let doc = map(vec![("x", map(vec![("$ref", num("3")), ("note", text("n"))]))]);
    let out = clean_unresolved_refs(&doc);
    assert_eq!(
        get(&out, "x"),
        &map(vec![
            ("type", text("string")),
            ("description", text("Fallback for unresolved reference: ")),
        ])
    );
}

fn sample_store() -> FileStore {
    let mut store = FileStore::new();
    store.insert("/spec/models/pet.yaml", Ok(map(vec![("type", text("object")), ("description", text("A pet, see <host>"))])));
    store
}

#[test]
fn resolving_the_resolved_document_again_returns_it() {
    let root = map(vec![
        ("pet", reference("models/pet.yaml")),
        ("self", Node::Sequence(vec![reference("#")])),
        ("gone", reference("nope.yaml")),
        ("paths", map(vec![("/p", map(vec![("get", map(vec![("responses", map(vec![
            ("200", text("ok")), ("201", text("made")), ("default", text("err")),
        ]))]))]))])),
        ("definitions", map(vec![("region_state", text("mine"))])),
    ]);
    let dir = DocPath::parse("/spec");
    let once = resolve_document(sample_store(), &dir, &root).unwrap();
    let twice = resolve_document(sample_store(), &dir, &once).unwrap();
    assert_eq!(twice, once);
    assert!(!holds_ref(&once));
}
