use rsdo::apply_pointer;
use rsdo::{Node, ResolveError};

fn text(s: &str) -> Node {
    Node::Str(s.to_string())
}

fn num(s: &str) -> Node {
    Node::Number(s.to_string())
}

fn map(entries: Vec<(&str, Node)>) -> Node {
    Node::Mapping(entries.into_iter().map(|(k, v)| (k.to_string(), v)).collect())
}

fn pointer_stub(seg: &str) -> Node {
    map(vec![
        ("type", text("object")),
        ("description", text(&format!("Auto-generated fallback definition for: {}", seg))),
        ("additionalProperties", Node::Bool(true)),
    ])
}

fn sample() -> Node {
    map(vec![("a", map(vec![("b", Node::Sequence(vec![num("10"), num("20"), num("30")]))]))])
}

#[test]
fn pointer_indexes_into_sequence() {
    assert_eq!(apply_pointer(&sample(), "/a/b/1"), Ok(num("20")));
}

#[test]
fn pointer_miss_gives_object_stub() {
    let doc = map(vec![("a", num("1"))]);
    let r = apply_pointer(&doc, "/missing").unwrap();
    assert_eq!(r, pointer_stub("missing"));
    match r {
        Node::Mapping(es) => {
            let desc = es.iter().find(|(k, _)| k == "description").unwrap();
            match &desc.1 {
                Node::Str(s) => assert!(s.contains("missing")),
                _ => panic!("description is not a string"),
            }
        }
        _ => panic!("stub is not a mapping"),
    }
}

#[test]
fn pointer_miss_stops_navigation() {
    let doc = map(vec![("a", num("1"))]);
    assert_eq!(apply_pointer(&doc, "/gone/deeper/still"), Ok(pointer_stub("gone")));
}

#[test]
fn empty_pointer_and_slash_name_the_node() {
    assert_eq!(apply_pointer(&sample(), ""), Ok(sample()));
    assert_eq!(apply_pointer(&sample(), "/"), Ok(sample()));
}

#[test]
fn pointer_falls_back_to_definitions() {
    let doc = map(vec![("definitions", map(vec![("pet", text("dog"))]))]);
    assert_eq!(apply_pointer(&doc, "/pet"), Ok(text("dog")));
}

#[test]
fn pointer_out_of_bounds_is_an_error() {
    assert_eq!(
        apply_pointer(&sample(), "/a/b/3"),
        Err(ResolveError::IndexOutOfBounds("3".to_string()))
    );
    assert_eq!(
        apply_pointer(&sample(), "/a/b/99999999999999999999999"),
        Err(ResolveError::IndexOutOfBounds("99999999999999999999999".to_string()))
    );
}

#[test]
fn pointer_bad_index_is_an_error() {
    assert_eq!(
        apply_pointer(&sample(), "/a/b/first"),
        Err(ResolveError::BadIndex("first".to_string()))
    );
    assert_eq!(apply_pointer(&sample(), "/a/b/"), Err(ResolveError::BadIndex("".to_string())));
}

#[test]
fn pointer_into_scalar_is_an_error() {
    assert_eq!(
        apply_pointer(&sample(), "/a/b/0/x"),
        Err(ResolveError::NotAContainer("x".to_string()))
    );
}
