//! Seeding a document with the well-known definitions before resolution, and
//! replacing references that cannot resolve with typed placeholders after it.
use vstd::prelude::*;
use crate::catalog::{catalog, fallback_definitions};
use crate::doc::{
    well_formed,
    entries_view, find_key, items_view, key_index, key_position, lemma_key_index,
    lemma_mapping_view, lemma_sequence_view, map_get, Doc, Node,
};
use crate::text::{chars_of, text_then};

verus! {

/// `entries` with each entry of `add` whose key they lack appended, in order.
pub open spec fn insert_absent(entries: Seq<(Seq<char>, Doc)>, add: Seq<(Seq<char>, Doc)>) -> Seq<
    (Seq<char>, Doc),
>
    decreases add.len(),
{
    if add.len() == 0 {
        entries
    } else {
        let next = if map_get(entries, add[0].0) is None {
            entries.push(add[0])
        } else {
            entries
        };
        insert_absent(next, add.drop_first())
    }
}

/// A mapping with a `definitions` entry, added empty where it lacks one.
pub open spec fn with_definitions(es: Seq<(Seq<char>, Doc)>) -> Seq<(Seq<char>, Doc)> {
    if map_get(es, "definitions"@) is None {
        es.push(("definitions"@, Doc::Mapping(Seq::empty())))
    } else {
        es
    }
}

/// A document whose `definitions` mapping holds every well-known definition:
/// those it lacks are added, those it has are kept. Only a mapping is
/// seeded, and only where its `definitions` entry is a mapping.
pub open spec fn seeded(d: Doc) -> Doc {
    match d {
        Doc::Mapping(es) => {
            let es1 = with_definitions(es);
            let i = key_index(es1, "definitions"@) as int;
            match es1[i].1 {
                Doc::Mapping(defs) => Doc::Mapping(
                    es1.update(i, ("definitions"@, Doc::Mapping(insert_absent(defs, catalog())))),
                ),
                _ => Doc::Mapping(es1),
            }
        },
        _ => d,
    }
}

/// A copy of a mapping's entries.
pub fn copy_entries(es: &Vec<(String, Node)>) -> (r: Vec<(String, Node)>)
    ensures
        entries_view(r@) == entries_view(es@),
{
    let mut out: Vec<(String, Node)> = Vec::new();
    let mut i: usize = 0;
    while i < es.len()
        invariant
            i <= es.len(),
            entries_view(out@) == entries_view(es@).subrange(0, i as int),
        decreases es.len() - i,
    {
        let ghost before = out@;
        out.push((es[i].0.clone(), es[i].1.deep_copy()));
        assert(entries_view(out@) =~= entries_view(before).push((es@[i as int].0@, es@[i as int].1@)));
        assert(entries_view(es@).subrange(0, i + 1) =~= entries_view(es@).subrange(0, i as int).push(
            (es@[i as int].0@, es@[i as int].1@),
        ));
        i += 1;
    }
    assert(entries_view(es@).subrange(0, i as int) =~= entries_view(es@));
    out
}

/// `entries` with each entry of `add` whose key they lack appended.
pub fn add_absent(entries: &Vec<(String, Node)>, add: &Vec<(String, Node)>) -> (r: Vec<(String, Node)>)
    ensures
        entries_view(r@) == insert_absent(entries_view(entries@), entries_view(add@)),
{
    let mut out = copy_entries(entries);
    let ghost av = entries_view(add@);
    let mut i: usize = 0;
    assert(av.subrange(0, av.len() as int) == av);
    while i < add.len()
        invariant
            i <= add.len(),
            av == entries_view(add@),
            insert_absent(entries_view(entries@), av) == insert_absent(
                entries_view(out@),
                av.subrange(i as int, av.len() as int),
            ),
        decreases add.len() - i,
    {
        let ghost tail = av.subrange(i as int, av.len() as int);
        assert(tail[0] == av[i as int]);
        assert(tail.drop_first() == av.subrange(i + 1, av.len() as int));
        if find_key(&out, add[i].0.as_str()).is_none() {
            let ghost before = out@;
            out.push((add[i].0.clone(), add[i].1.deep_copy()));
            assert(entries_view(out@) =~= entries_view(before).push(av[i as int]));
        }
        i += 1;
    }
    assert(av.subrange(i as int, av.len() as int) =~= Seq::<(Seq<char>, Doc)>::empty());
    out
}

/// `doc` seeded with the well-known definitions.
pub fn add_missing_definitions(doc: &Node) -> (r: Node)
    ensures
        r@ == seeded(doc@),
        well_formed(doc@) ==> well_formed(r@),
{
    proof {
        if well_formed(doc@) {
            crate::validity::lemma_seeded_valid(doc@);
        }
    }
    match doc {
        Node::Mapping(es) => {
            proof {
                lemma_mapping_view(*es);
            }
            let mut out = copy_entries(es);
            if find_key(&out, "definitions").is_none() {
                let ghost before = out@;
                let empty: Vec<(String, Node)> = Vec::new();
                proof {
                    lemma_mapping_view(empty);
                    assert(entries_view(empty@) =~= Seq::<(Seq<char>, Doc)>::empty());
                }
                out.push(("definitions".to_owned(), Node::Mapping(empty)));
                assert(entries_view(out@) =~= entries_view(before).push(
                    ("definitions"@, Doc::Mapping(Seq::empty())),
                ));
            }
            let ghost es1 = entries_view(out@);
            assert(es1 == with_definitions(entries_view(es@)));
            let i = key_position(&out, "definitions");
            proof {
                lemma_key_index(es1, "definitions"@);
                if map_get(entries_view(es@), "definitions"@) is None {
                    lemma_key_index(entries_view(es@), "definitions"@);
                    assert(map_get(es1, "definitions"@) is Some) by {
                        lemma_key_index_push(entries_view(es@), ("definitions"@, Doc::Mapping(Seq::empty())));
                    }
                }
            }
            let new_defs = match &out[i].1 {
                Node::Mapping(defs) => {
                    proof {
                        lemma_mapping_view(*defs);
                    }
                    Some(add_absent(defs, &fallback_definitions()))
                },
                _ => None,
            };
            match new_defs {
                Some(nd) => {
                    let ghost ndv = entries_view(nd@);
                    out.set(i, ("definitions".to_owned(), Node::Mapping(nd)));
                    proof {
                        lemma_mapping_view(nd);
                    }
                    assert(entries_view(out@) =~= es1.update(i as int, ("definitions"@, Doc::Mapping(ndv))));
                },
                None => {},
            }
            proof {
                lemma_mapping_view(out);
            }
            Node::Mapping(out)
        },
        _ => doc.deep_copy(),
    }
}

/// Pushing an entry whose key the entries lack makes it the first with that key.
pub proof fn lemma_key_index_push(es: Seq<(Seq<char>, Doc)>, e: (Seq<char>, Doc))
    requires
        map_get(es, e.0) is None,
    ensures
        map_get(es.push(e), e.0) == Some(e.1),
    decreases es.len(),
{
    if es.len() > 0 {
        assert(es.push(e).drop_first() == es.drop_first().push(e));
        lemma_key_index_push(es.drop_first(), e);
    }
}

/// The text of a mapping's `$ref` entry, or nothing when it is not a string.
pub open spec fn ref_label(es: Seq<(Seq<char>, Doc)>) -> Seq<char> {
    match map_get(es, "$ref"@) {
        Some(Doc::Str(r)) => r,
        _ => Seq::empty(),
    }
}

/// The string-typed placeholder for an unresolved reference.
pub open spec fn unresolved_stub(r: Seq<char>) -> Doc {
    Doc::Mapping(
        seq![
            ("type"@, Doc::Str("string"@)),
            ("description"@, Doc::Str("Fallback for unresolved reference: "@ + r)),
        ],
    )
}

/// `d` with every reference node that the resolution passes left replaced
/// by a placeholder, so that no `$ref` key remains.
pub open spec fn cleaned(d: Doc) -> Doc
    decreases d,
{
    match d {
        Doc::Mapping(es) => if map_get(es, "$ref"@) is Some {
            unresolved_stub(ref_label(es))
        } else {
            Doc::Mapping(
                Seq::new(
                    es.len(),
                    |i: int|
                        (
                            es[i].0,
                            if 0 <= i < es.len() {
                                cleaned(es[i].1)
                            } else {
                                Doc::Null
                            },
                        ),
                ),
            )
        },
        Doc::Sequence(items) => Doc::Sequence(
            Seq::new(
                items.len(),
                |i: int|
                    if 0 <= i < items.len() {
                        cleaned(items[i])
                    } else {
                        Doc::Null
                    },
            ),
        ),
        _ => d,
    }
}

fn unresolved_node(r: &str) -> (n: Node)
    ensures
        n@ == unresolved_stub(r@),
{
    let mut es: Vec<(String, Node)> = Vec::new();
    es.push(("type".to_owned(), Node::text("string")));
    let cs = chars_of(r);
    es.push(("description".to_owned(), Node::Str(text_then("Fallback for unresolved reference: ", &cs))));
    proof {
        lemma_mapping_view(es);
        assert(entries_view(es@) =~= seq![
            ("type"@, Doc::Str("string"@)),
            ("description"@, Doc::Str("Fallback for unresolved reference: "@ + r@)),
        ]);
    }
    Node::Mapping(es)
}

/// Replaces every reference node that is left by a placeholder.
pub fn clean_unresolved_refs(node: &Node) -> (r: Node)
    ensures
        r@ == cleaned(node@),
        well_formed(node@) ==> well_formed(r@),
    decreases node,
{
    proof {
        if well_formed(node@) {
            crate::validity::lemma_cleaned_valid(node@);
        }
    }
    match node {
        Node::Mapping(es) => {
            proof {
                lemma_mapping_view(*es);
            }
            let ghost ev = entries_view(es@);
            match crate::doc::get_entry(es, "$ref") {
                Some(Node::Str(r)) => {
                    return unresolved_node(r.as_str());
                },
                Some(_) => {
                    proof {
                        reveal_strlit("");
                        assert(""@ =~= Seq::<char>::empty());
                    }
                    return unresolved_node("");
                },
                None => {},
            }
            let mut out: Vec<(String, Node)> = Vec::new();
            let mut i: usize = 0;
            proof {
                assert forall|k: int| 0 <= k < es.len() implies decreases_to!(*node => #[trigger] es@[k].1) by {
                    assert(decreases_to!(es => es[k]));
                }
            }
            while i < es.len()
                invariant
                    i <= es.len(),
                    forall|k: int| 0 <= k < es.len() ==> decreases_to!(*node => #[trigger] es@[k].1),
                    out.len() == i,
                    forall|k: int|
                        0 <= k < i ==> #[trigger] out@[k].0@ == es@[k].0@ && out@[k].1@ == cleaned(
                            es@[k].1@,
                        ),
                decreases es.len() - i,
            {
                out.push((es[i].0.clone(), clean_unresolved_refs(&es[i].1)));
                i += 1;
            }
            proof {
                lemma_mapping_view(out);
                assert(entries_view(out@) =~= match cleaned(node@) {
                    Doc::Mapping(s) => s,
                    _ => Seq::empty(),
                });
            }
            Node::Mapping(out)
        },
        Node::Sequence(items) => {
            proof {
                lemma_sequence_view(*items);
            }
            let mut out: Vec<Node> = Vec::new();
            let mut i: usize = 0;
            proof {
                assert forall|k: int| 0 <= k < items.len() implies decreases_to!(*node => #[trigger] items@[k]) by {
                    assert(decreases_to!(items => items[k]));
                }
            }
            while i < items.len()
                invariant
                    i <= items.len(),
                    forall|k: int| 0 <= k < items.len() ==> decreases_to!(*node => #[trigger] items@[k]),
                    out.len() == i,
                    forall|k: int| 0 <= k < i ==> #[trigger] out@[k]@ == cleaned(items@[k]@),
                decreases items.len() - i,
            {
                out.push(clean_unresolved_refs(&items[i]));
                i += 1;
            }
            proof {
                lemma_sequence_view(out);
                assert(items_view(out@) =~= match cleaned(node@) {
                    Doc::Sequence(s) => s,
                    _ => Seq::empty(),
                });
            }
            Node::Sequence(out)
        },
        _ => node.deep_copy(),
    }
}

} // verus!
