//! Every stage keeps a document valid: mappings with distinct keys stay so.
use vstd::prelude::*;
use crate::doc::{
    distinct_keys, doc_size, key_index, lemma_entry_size_bound, lemma_item_size_bound,
    lemma_key_index, lemma_map_get_has, map_get, well_formed, Doc,
};
use crate::catalog::{
    backward_links_doc, catalog, chatbot_doc, described_doc, error_response_doc, example_doc,
    forward_links_doc, link_doc, page_link, region_state_doc, tags_array_doc, taint_doc, text_doc,
};
use crate::engine::{passes, resolved_document, RESOLUTION_PASSES};
use crate::laws::lemma_rewrite_entries_shape;
use crate::path::parent_path;
use crate::resolver::{
    missing_file_stub, ref_file_part, ref_pointer, resolve_spec, rewrite_entries_spec,
    rewrite_items_spec, rewrite_spec, target_path,
};
use crate::store::{file_get, FileEntry};
use crate::error::Fault;
use crate::pointer::{legacy_lookup, pointer_stub, pointer_target, walk};
use crate::responses::{
    first_content_only, first_of_class, is_http_method, needs_reduction, reduced_document,
    reduced_operation, reduced_path_item, reduced_responses,
};
use crate::sanitize::sanitized;
use crate::synthesis::{
    cleaned, insert_absent, lemma_key_index_push, ref_label, seeded, unresolved_stub,
    with_definitions,
};

verus! {

/// The entries of a valid mapping have distinct keys and valid values.
pub proof fn lemma_valid_entries(d: Doc)
    requires
        well_formed(d),
    ensures
        d is Mapping ==> distinct_keys(d->Mapping_0) && forall|i: int|
            0 <= i < d->Mapping_0.len() ==> well_formed(#[trigger] d->Mapping_0[i].1),
        d is Sequence ==> forall|i: int|
            0 <= i < d->Sequence_0.len() ==> well_formed(#[trigger] d->Sequence_0[i]),
{
    match d {
        Doc::Mapping(es) => {},
        Doc::Sequence(items) => {},
        _ => {},
    }
}

/// The value that a valid mapping holds under a key is valid.
pub proof fn lemma_valid_lookup(es: Seq<(Seq<char>, Doc)>, k: Seq<char>)
    requires
        well_formed(Doc::Mapping(es)),
    ensures
        map_get(es, k) is Some ==> well_formed(map_get(es, k)->0),
{
    lemma_valid_entries(Doc::Mapping(es));
    lemma_key_index(es, k);
}

/// A mapping with the keys of a valid mapping, position by position, and
/// valid values, is valid.
pub proof fn lemma_valid_same_keys(es: Seq<(Seq<char>, Doc)>, fs: Seq<(Seq<char>, Doc)>)
    requires
        well_formed(Doc::Mapping(es)),
        es.len() == fs.len(),
        forall|i: int| 0 <= i < es.len() ==> #[trigger] fs[i].0 == es[i].0,
        forall|i: int| 0 <= i < fs.len() ==> well_formed(#[trigger] fs[i].1),
    ensures
        well_formed(Doc::Mapping(fs)),
{
    lemma_valid_entries(Doc::Mapping(es));
    assert forall|i: int, j: int|
        #![trigger fs[i], fs[j]]
        0 <= i < fs.len() && 0 <= j < fs.len() && i != j implies fs[i].0 != fs[j].0 by {
        assert(es[i].0 != es[j].0);
    }
}

/// A valid mapping with one value replaced by a valid one, under the same
/// key, is valid.
pub proof fn lemma_valid_update(es: Seq<(Seq<char>, Doc)>, i: int, v: Doc)
    requires
        well_formed(Doc::Mapping(es)),
        0 <= i < es.len(),
        well_formed(v),
    ensures
        well_formed(Doc::Mapping(es.update(i, (es[i].0, v)))),
{
    lemma_valid_entries(Doc::Mapping(es));
    let fs = es.update(i, (es[i].0, v));
    lemma_valid_same_keys(es, fs);
}

proof fn lemma_valid_pair(a: (Seq<char>, Doc), b: (Seq<char>, Doc))
    requires
        a.0 != b.0,
        well_formed(a.1),
        well_formed(b.1),
    ensures
        well_formed(Doc::Mapping(seq![a, b])),
{
    let es = seq![a, b];
    assert forall|i: int| 0 <= i < es.len() implies well_formed(#[trigger] es[i].1) by {}
}

proof fn lemma_valid_single(a: (Seq<char>, Doc))
    requires
        well_formed(a.1),
    ensures
        well_formed(Doc::Mapping(seq![a])),
{
    let es = seq![a];
    assert forall|i: int| 0 <= i < es.len() implies well_formed(#[trigger] es[i].1) by {}
}

pub proof fn lemma_stubs_valid(r: Seq<char>, seg: Seq<char>)
    ensures
        well_formed(unresolved_stub(r)),
        well_formed(pointer_stub(seg)),
{
    reveal_strlit("type");
    reveal_strlit("description");
    reveal_strlit("additionalProperties");
    assert("type"@.len() != "description"@.len());
    assert("type"@.len() != "additionalProperties"@.len());
    assert("description"@.len() != "additionalProperties"@.len());
    lemma_valid_pair(("type"@, Doc::Str("string"@)), ("description"@, Doc::Str("Fallback for unresolved reference: "@ + r)));
    let es = match pointer_stub(seg) {
        Doc::Mapping(x) => x,
        _ => Seq::empty(),
    };
    assert(es.len() == 3);
    assert forall|i: int| 0 <= i < es.len() implies well_formed(#[trigger] es[i].1) by {}
}

/// Cleanup keeps a document valid.
pub proof fn lemma_cleaned_valid(d: Doc)
    requires
        well_formed(d),
    ensures
        well_formed(cleaned(d)),
    decreases d,
{
    lemma_valid_entries(d);
    match d {
        Doc::Mapping(es) => {
            if map_get(es, "$ref"@) is Some {
                lemma_stubs_valid(ref_label(es), Seq::empty());
            } else {
                let c = cleaned(d)->Mapping_0;
                assert forall|i: int| 0 <= i < c.len() implies well_formed(#[trigger] c[i].1) by {
                    lemma_cleaned_valid(es[i].1);
                }
                assert forall|i: int| 0 <= i < es.len() implies #[trigger] c[i].0 == es[i].0 by {}
                lemma_valid_same_keys(es, c);
            }
        },
        Doc::Sequence(items) => {
            let c = cleaned(d)->Sequence_0;
            assert forall|i: int| 0 <= i < c.len() implies well_formed(#[trigger] c[i]) by {
                lemma_cleaned_valid(items[i]);
            }
        },
        _ => {},
    }
}

/// Fixing texts keeps a document valid.
pub proof fn lemma_sanitized_valid(d: Doc)
    requires
        well_formed(d),
    ensures
        well_formed(sanitized(d)),
    decreases d,
{
    lemma_valid_entries(d);
    match d {
        Doc::Mapping(es) => {
            let c = sanitized(d)->Mapping_0;
            assert forall|i: int| 0 <= i < c.len() implies well_formed(#[trigger] c[i].1) by {
                if !(es[i].1 is Str) {
                    lemma_sanitized_valid(es[i].1);
                }
            }
            assert forall|i: int| 0 <= i < es.len() implies #[trigger] c[i].0 == es[i].0 by {}
            lemma_valid_same_keys(es, c);
        },
        Doc::Sequence(items) => {
            let c = sanitized(d)->Sequence_0;
            assert forall|i: int| 0 <= i < c.len() implies well_formed(#[trigger] c[i]) by {
                lemma_sanitized_valid(items[i]);
            }
        },
        _ => {},
    }
}

/// What a pointer names in a valid document is valid.
pub proof fn lemma_walk_valid(d: Doc, segs: Seq<Seq<char>>)
    requires
        well_formed(d),
        walk(d, segs) is Ok,
    ensures
        well_formed(walk(d, segs)->Ok_0),
    decreases segs.len(),
{
    if segs.len() > 0 {
        let seg = segs[0];
        lemma_valid_entries(d);
        match d {
            Doc::Mapping(es) => {
                lemma_valid_lookup(es, seg);
                lemma_valid_lookup(es, "definitions"@);
                match map_get(es, seg) {
                    Some(v) => lemma_walk_valid(v, segs.drop_first()),
                    None => match legacy_lookup(es, seg) {
                        Some(v) => {
                            let defs = map_get(es, "definitions"@)->0->Mapping_0;
                            lemma_valid_lookup(defs, seg);
                            lemma_walk_valid(v, segs.drop_first());
                        },
                        None => lemma_stubs_valid(Seq::empty(), seg),
                    },
                }
            },
            Doc::Sequence(items) => {
                if crate::pointer::is_index(seg) && crate::pointer::index_value(seg) < items.len() {
                    lemma_walk_valid(items[crate::pointer::index_value(seg) as int], segs.drop_first());
                }
            },
            _ => {},
        }
    }
}

pub proof fn lemma_pointer_target_valid(d: Doc, p: Seq<char>)
    requires
        well_formed(d),
        pointer_target(d, p) is Ok,
    ensures
        well_formed(pointer_target(d, p)->Ok_0),
{
    if !(p.len() == 0 || p == seq!['/']) {
        lemma_walk_valid(d, crate::pointer::pointer_segments(p));
    }
}

proof fn lemma_reduced_operation_valid(op: Doc)
    requires
        well_formed(op),
    ensures
        well_formed(reduced_operation(op)),
{
    lemma_valid_entries(op);
    match op {
        Doc::Mapping(es) => {
            let i = key_index(es, "responses"@) as int;
            if i < es.len() {
                match es[i].1 {
                    Doc::Mapping(rs) => {
                        lemma_valid_entries(es[i].1);
                        if needs_reduction(rs) {
                            let s0 = first_of_class(rs, 0) as int;
                            let o = first_of_class(rs, 1) as int;
                            let d0 = first_of_class(rs, 2) as int;
                            if s0 < rs.len() {
                                let v = rs[s0].1;
                                lemma_valid_entries(v);
                                match v {
                                    Doc::Mapping(ves) => {
                                        let j = key_index(ves, "content"@) as int;
                                        if j < ves.len() {
                                            match ves[j].1 {
                                                Doc::Mapping(cs) => {
                                                    if cs.len() > 1 {
                                                        lemma_valid_entries(ves[j].1);
                                                        lemma_valid_single(cs[0]);
                                                        lemma_valid_update(ves, j, Doc::Mapping(seq![cs[0]]));
                                                    }
                                                },
                                                _ => {},
                                            }
                                        }
                                    },
                                    _ => {},
                                }
                                lemma_valid_single((rs[s0].0, first_content_only(v)));
                            } else if o < rs.len() {
                                lemma_valid_single(rs[o]);
                            } else if d0 < rs.len() {
                                lemma_valid_single(rs[d0]);
                            } else {
                                assert forall|k: int| 0 <= k < reduced_responses(rs).len() implies well_formed(
                                    #[trigger] reduced_responses(rs)[k].1,
                                ) by {}
                            }
                        }
                        lemma_valid_update(es, i, Doc::Mapping(reduced_responses(rs)));
                    },
                    _ => {},
                }
            }
        },
        _ => {},
    }
}

/// Reducing responses keeps a document valid.
pub proof fn lemma_reduced_valid(d: Doc)
    requires
        well_formed(d),
    ensures
        well_formed(reduced_document(d)),
{
    lemma_valid_entries(d);
    match d {
        Doc::Mapping(es) => {
            let i = key_index(es, "paths"@) as int;
            if i < es.len() {
                match es[i].1 {
                    Doc::Mapping(ps) => {
                        lemma_valid_entries(es[i].1);
                        let ps2 = Seq::new(ps.len(), |j: int| (ps[j].0, reduced_path_item(ps[j].1)));
                        assert forall|j: int| 0 <= j < ps2.len() implies well_formed(#[trigger] ps2[j].1) by {
                            lemma_valid_entries(ps[j].1);
                            match ps[j].1 {
                                Doc::Mapping(ms) => {
                                    let ms2 = reduced_path_item(ps[j].1)->Mapping_0;
                                    assert forall|k: int| 0 <= k < ms2.len() implies well_formed(#[trigger] ms2[k].1) by {
                                        if is_http_method(ms[k].0) {
                                            lemma_reduced_operation_valid(ms[k].1);
                                        }
                                    }
                                    assert forall|k: int| 0 <= k < ms.len() implies #[trigger] ms2[k].0 == ms[k].0 by {}
                                    lemma_valid_same_keys(ms, ms2);
                                },
                                _ => {},
                            }
                        }
                        assert forall|j: int| 0 <= j < ps.len() implies #[trigger] ps2[j].0 == ps[j].0 by {}
                        lemma_valid_same_keys(ps, ps2);
                        lemma_valid_update(es, i, Doc::Mapping(ps2));
                    },
                    _ => {},
                }
            }
        },
        _ => {},
    }
}

} // verus!

verus! {

/// Every stored file that loaded holds a valid document.
pub open spec fn store_valid(files: Seq<FileEntry>) -> bool {
    forall|i: int| 0 <= i < files.len() && (#[trigger] files[i]).1 is Ok ==> well_formed(files[i].1->Ok_0)
}

pub proof fn lemma_file_get_valid(files: Seq<FileEntry>, p: Seq<Seq<char>>)
    requires
        store_valid(files),
    ensures
        file_get(files, p) matches Some(Ok(d)) ==> well_formed(d),
    decreases files.len(),
{
    if files.len() > 0 && files[0].0 != p {
        assert forall|i: int| 0 <= i < files.drop_first().len() && (#[trigger] files.drop_first()[i]).1 is Ok
            implies well_formed(files.drop_first()[i].1->Ok_0) by {
            assert(files.drop_first()[i] == files[i + 1]);
        }
        lemma_file_get_valid(files.drop_first(), p);
    }
}

pub proof fn lemma_rewrite_items_shape(
    files: Seq<FileEntry>,
    root: Doc,
    stack: Seq<Seq<Seq<char>>>,
    items: Seq<Doc>,
    dir: Seq<Seq<char>>,
    ctx: Option<Doc>,
)
    requires
        rewrite_items_spec(files, root, stack, items, dir, ctx) is Ok,
    ensures
        rewrite_items_spec(files, root, stack, items, dir, ctx)->Ok_0.len() == items.len(),
        forall|i: int|
            0 <= i < items.len() ==> rewrite_spec(files, root, stack, #[trigger] items[i], dir, ctx)
                == Ok::<Doc, Fault>(rewrite_items_spec(files, root, stack, items, dir, ctx)->Ok_0[i]),
    decreases items.len(),
{
    if items.len() > 0 {
        lemma_rewrite_items_shape(files, root, stack, items.drop_first(), dir, ctx);
        let out = rewrite_items_spec(files, root, stack, items, dir, ctx)->Ok_0;
        let rest = rewrite_items_spec(files, root, stack, items.drop_first(), dir, ctx)->Ok_0;
        assert forall|i: int| 0 <= i < items.len() implies rewrite_spec(
            files,
            root,
            stack,
            #[trigger] items[i],
            dir,
            ctx,
        ) == Ok::<Doc, Fault>(out[i]) by {
            if i > 0 {
                assert(items[i] == items.drop_first()[i - 1]);
                assert(out[i] == rest[i - 1]);
            }
        }
    }
}

pub proof fn lemma_missing_file_stub_valid()
    ensures
        well_formed(missing_file_stub()),
{
    reveal_strlit("type");
    reveal_strlit("description");
    reveal_strlit("additionalProperties");
    assert("type"@.len() != "description"@.len());
    assert("type"@.len() != "additionalProperties"@.len());
    assert("description"@.len() != "additionalProperties"@.len());
    let es = missing_file_stub()->Mapping_0;
    assert forall|i: int| 0 <= i < es.len() implies well_formed(#[trigger] es[i].1) by {}
}

/// What a reference resolves to in a valid run is valid.
pub proof fn lemma_resolve_valid(
    files: Seq<FileEntry>,
    root: Doc,
    stack: Seq<Seq<Seq<char>>>,
    r: Seq<char>,
    dir: Seq<Seq<char>>,
    ctx: Option<Doc>,
)
    requires
        store_valid(files),
        well_formed(root),
        ctx matches Some(c) ==> well_formed(c),
        resolve_spec(files, root, stack, r, dir, ctx) is Ok,
    ensures
        well_formed(resolve_spec(files, root, stack, r, dir, ctx)->Ok_0),
    decreases files.len() - stack.len(), 0nat, 0nat,
{
    let fp = ref_file_part(r);
    if fp.len() == 0 {
        let p = match ref_pointer(r) {
            Some(p) => p,
            None => Seq::empty(),
        };
        match ctx {
            Some(c) => {
                if pointer_target(c, p) is Ok {
                    lemma_pointer_target_valid(c, p);
                } else {
                    lemma_pointer_target_valid(root, p);
                }
            },
            None => lemma_pointer_target_valid(root, p),
        }
    } else {
        let path = target_path(files, dir, fp);
        lemma_file_get_valid(files, path);
        match file_get(files, path) {
            None => lemma_missing_file_stub_valid(),
            Some(loaded) => {
                if !(stack.contains(path) || stack.len() >= files.len()) {
                    let d = loaded->Ok_0;
                    lemma_rewrite_valid(files, root, stack.push(path), d, parent_path(path), Some(d));
                    let rd = rewrite_spec(files, root, stack.push(path), d, parent_path(path), Some(d))->Ok_0;
                    match ref_pointer(r) {
                        Some(p) => if p.len() > 0 {
                            lemma_pointer_target_valid(rd, p);
                        },
                        None => {},
                    }
                }
            },
        }
    }
}

/// Rewriting a valid document in a valid run gives a valid document.
pub proof fn lemma_rewrite_valid(
    files: Seq<FileEntry>,
    root: Doc,
    stack: Seq<Seq<Seq<char>>>,
    d: Doc,
    dir: Seq<Seq<char>>,
    ctx: Option<Doc>,
)
    requires
        store_valid(files),
        well_formed(root),
        well_formed(d),
        ctx matches Some(c) ==> well_formed(c),
        rewrite_spec(files, root, stack, d, dir, ctx) is Ok,
    ensures
        well_formed(rewrite_spec(files, root, stack, d, dir, ctx)->Ok_0),
    decreases files.len() - stack.len(), doc_size(d), 0nat,
{
    lemma_valid_entries(d);
    match d {
        Doc::Mapping(es) => match map_get(es, "$ref"@) {
            Some(Doc::Str(r)) => lemma_resolve_valid(files, root, stack, r, dir, ctx),
            Some(_) => {},
            None => {
                lemma_rewrite_entries_shape(files, root, stack, es, dir, ctx);
                let es2 = rewrite_entries_spec(files, root, stack, es, dir, ctx)->Ok_0;
                assert forall|i: int| 0 <= i < es2.len() implies well_formed(#[trigger] es2[i].1) by {
                    lemma_entry_size_bound(es, i);
                    assert(rewrite_spec(files, root, stack, es[i].1, dir, ctx) == Ok::<Doc, Fault>(es2[i].1));
                    lemma_rewrite_valid(files, root, stack, es[i].1, dir, ctx);
                }
                lemma_valid_same_keys(es, es2);
            },
        },
        Doc::Sequence(items) => {
            lemma_rewrite_items_shape(files, root, stack, items, dir, ctx);
            let out = rewrite_items_spec(files, root, stack, items, dir, ctx)->Ok_0;
            assert forall|i: int| 0 <= i < out.len() implies well_formed(#[trigger] out[i]) by {
                lemma_item_size_bound(items, i);
                assert(rewrite_spec(files, root, stack, items[i], dir, ctx) == Ok::<Doc, Fault>(out[i]));
                lemma_rewrite_valid(files, root, stack, items[i], dir, ctx);
            }
        },
        _ => {},
    }
}

pub proof fn lemma_passes_valid(files: Seq<FileEntry>, root: Doc, dir: Seq<Seq<char>>, d: Doc, n: nat)
    requires
        store_valid(files),
        well_formed(root),
        well_formed(d),
        passes(files, root, dir, d, n) is Ok,
    ensures
        well_formed(passes(files, root, dir, d, n)->Ok_0),
    decreases n,
{
    if n > 0 {
        lemma_rewrite_valid(files, root, Seq::empty(), d, dir, None);
        let d1 = rewrite_spec(files, root, Seq::empty(), d, dir, None)->Ok_0;
        lemma_passes_valid(files, root, dir, d1, (n - 1) as nat);
    }
}

} // verus!

verus! {

proof fn lemma_valid_mapping(es: Seq<(Seq<char>, Doc)>)
    requires
        distinct_keys(es),
        forall|i: int| 0 <= i < es.len() ==> well_formed(#[trigger] es[i].1),
    ensures
        well_formed(Doc::Mapping(es)),
{
}

proof fn lemma_valid_sequence(items: Seq<Doc>)
    requires
        forall|i: int| 0 <= i < items.len() ==> well_formed(#[trigger] items[i]),
    ensures
        well_formed(Doc::Sequence(items)),
{
}

/// Every well-known definition is valid.
pub proof fn lemma_catalog_valid()
    ensures
        forall|i: int| 0 <= i < catalog().len() ==> well_formed(#[trigger] catalog()[i].1),
{
    reveal_strlit("type");
    reveal_strlit("format");
    reveal_strlit("example");
    reveal_strlit("properties");
    reveal_strlit("first");
    reveal_strlit("last");
    reveal_strlit("next");
    reveal_strlit("prev");
    reveal_strlit("minLength");
    reveal_strlit("maxLength");
    reveal_strlit("count");
    reveal_strlit("last_tagged_uri");
    reveal_strlit("items");
    reveal_strlit("required");
    reveal_strlit("name");
    reveal_strlit("resources");
    reveal_strlit("id");
    reveal_strlit("message");
    reveal_strlit("request_id");
    reveal_strlit("key");
    reveal_strlit("value");
    reveal_strlit("effect");
    reveal_strlit("enum");
    reveal_strlit("description");
    reveal_strlit("enabled");
    reveal_strlit("settings");
    reveal_strlit("additionalProperties");
    assert("type"@.len() == 4 && "format"@.len() == 6 && "example"@.len() == 7);
    assert("description"@.len() == 11);
    assert("first"@.len() == 5 && "last"@.len() == 4);
    assert("last"@[0] != "next"@[0] && "last"@[0] != "prev"@[0]);
    assert("properties"@.len() == 10 && "minLength"@.len() == 9 && "maxLength"@.len() == 9);
    assert("minLength"@[1] != "maxLength"@[1]);
    assert("count"@.len() == 5 && "last_tagged_uri"@.len() == 15 && "items"@.len() == 5);
    assert("required"@.len() == 8 && "name"@.len() == 4 && "resources"@.len() == 9);
    assert("id"@.len() == 2 && "message"@.len() == 7 && "request_id"@.len() == 10);
    assert("key"@.len() == 3 && "value"@.len() == 5 && "effect"@.len() == 6);
    assert("enum"@.len() == 4 && "enabled"@.len() == 7 && "settings"@.len() == 8);
    assert("additionalProperties"@.len() == 20);
    assert("type"@[0] != "enum"@[0] && "type"@[0] != "name"@[0]);
    assert("example"@[1] != "enabled"@[1] && "example"@[0] != "message"@[0]);
    assert forall|e: Seq<char>| true implies well_formed(link_doc(e)) by {
        lemma_valid_mapping(link_doc(e)->Mapping_0);
    }
    assert forall|t: Seq<char>, e: Doc| well_formed(e) implies well_formed(#[trigger] example_doc(t, e)) by {
        lemma_valid_mapping(example_doc(t, e)->Mapping_0);
    }
    assert forall|e: Seq<char>, d: Seq<char>| true implies well_formed(#[trigger] described_doc(e, d)) by {
        lemma_valid_mapping(described_doc(e, d)->Mapping_0);
    }
    let l1 = link_doc(page_link("1"@));
    let l2 = link_doc(page_link("2"@));
    let l3 = link_doc(page_link("3"@));
    assert(well_formed(l1) && well_formed(l2) && well_formed(l3));
    lemma_valid_mapping(seq![("first"@, l1), ("last"@, l3), ("next"@, l2)]);
    lemma_valid_mapping(forward_links_doc()->Mapping_0);
    lemma_valid_mapping(seq![("first"@, l1), ("last"@, l3), ("prev"@, l1)]);
    lemma_valid_mapping(backward_links_doc()->Mapping_0);
    let tags = tags_array_doc();
    let items = tags->Mapping_0[1].1;
    let props = items->Mapping_0[1].1;
    let name = props->Mapping_0[0].1;
    let resources = props->Mapping_0[1].1;
    let rprops = resources->Mapping_0[1].1;
    assert(well_formed(example_doc("integer"@, Doc::Number("0"@))));
    assert(well_formed(example_doc("string"@, text_doc(""@))));
    lemma_valid_mapping(rprops->Mapping_0);
    lemma_valid_mapping(resources->Mapping_0);
    lemma_valid_mapping(name->Mapping_0);
    lemma_valid_mapping(props->Mapping_0);
    lemma_valid_sequence(items->Mapping_0[2].1->Sequence_0);
    lemma_valid_mapping(items->Mapping_0);
    lemma_valid_mapping(tags->Mapping_0);
    let er = error_response_doc();
    assert(well_formed(example_doc("string"@, text_doc("bad_request"@))));
    assert(well_formed(example_doc("string"@, text_doc("The request was invalid."@))));
    assert(well_formed(example_doc("string"@, text_doc("a1b2c3d4-e5f6-7890-abcd-ef1234567890"@))));
    lemma_valid_mapping(er->Mapping_0[1].1->Mapping_0);
    lemma_valid_sequence(er->Mapping_0[2].1->Sequence_0);
    lemma_valid_mapping(er->Mapping_0);
    let tn = taint_doc();
    let tprops = tn->Mapping_0[1].1;
    let effect = tprops->Mapping_0[2].1;
    assert(well_formed(described_doc("node.kubernetes.io/example-key"@, "The taint key"@)));
    assert(well_formed(described_doc("example-value"@, "The taint value"@)));
    lemma_valid_sequence(effect->Mapping_0[1].1->Sequence_0);
    lemma_valid_mapping(effect->Mapping_0);
    lemma_valid_mapping(tprops->Mapping_0);
    lemma_valid_sequence(tn->Mapping_0[2].1->Sequence_0);
    lemma_valid_mapping(tn->Mapping_0);
    let rs = region_state_doc();
    lemma_valid_sequence(rs->Mapping_0[1].1->Sequence_0);
    lemma_valid_mapping(rs->Mapping_0);
    let cb = chatbot_doc();
    let cprops = cb->Mapping_0[1].1;
    assert(well_formed(example_doc("string"@, text_doc("chatbot-123"@))));
    assert(well_formed(example_doc("string"@, text_doc("Customer Support Bot"@))));
    assert(well_formed(example_doc("boolean"@, Doc::Bool(true))));
    lemma_valid_mapping(cprops->Mapping_0[3].1->Mapping_0);
    lemma_valid_mapping(cprops->Mapping_0);
    lemma_valid_mapping(cb->Mapping_0);
}

} // verus!

verus! {

pub proof fn lemma_insert_absent_valid(es: Seq<(Seq<char>, Doc)>, add: Seq<(Seq<char>, Doc)>)
    requires
        well_formed(Doc::Mapping(es)),
        forall|i: int| 0 <= i < add.len() ==> well_formed(#[trigger] add[i].1),
    ensures
        well_formed(Doc::Mapping(insert_absent(es, add))),
    decreases add.len(),
{
    if add.len() > 0 {
        lemma_valid_entries(Doc::Mapping(es));
        if map_get(es, add[0].0) is None {
            lemma_map_get_has(es, add[0].0);
            let es2 = es.push(add[0]);
            assert forall|i: int, j: int|
                #![trigger es2[i], es2[j]]
                0 <= i < es2.len() && 0 <= j < es2.len() && i != j implies es2[i].0 != es2[j].0 by {
                if i < es.len() && j < es.len() {
                    assert(es[i].0 != es[j].0);
                } else if i < es.len() {
                    assert(es[i].0 != add[0].0);
                } else {
                    assert(es[j].0 != add[0].0);
                }
            }
            assert forall|i: int| 0 <= i < es2.len() implies well_formed(#[trigger] es2[i].1) by {}
            lemma_valid_mapping(es2);
        }
        assert forall|i: int| 0 <= i < add.drop_first().len() implies well_formed(#[trigger] add.drop_first()[i].1) by {
            assert(add.drop_first()[i] == add[i + 1]);
        }
        let next = if map_get(es, add[0].0) is None {
            es.push(add[0])
        } else {
            es
        };
        lemma_insert_absent_valid(next, add.drop_first());
    }
}

/// Seeding keeps a document valid.
pub proof fn lemma_seeded_valid(d: Doc)
    requires
        well_formed(d),
    ensures
        well_formed(seeded(d)),
{
    match d {
        Doc::Mapping(es) => {
            let es1 = with_definitions(es);
            lemma_valid_entries(d);
            if map_get(es, "definitions"@) is None {
                lemma_valid_mapping(Seq::<(Seq<char>, Doc)>::empty());
                lemma_insert_absent_valid(es, seq![("definitions"@, Doc::Mapping(Seq::empty()))]);
                assert(seq![("definitions"@, Doc::Mapping(Seq::<(Seq<char>, Doc)>::empty()))].drop_first()
                    =~= Seq::<(Seq<char>, Doc)>::empty());
                let e = ("definitions"@, Doc::Mapping(Seq::<(Seq<char>, Doc)>::empty()));
                assert(insert_absent(es.push(e), Seq::empty()) == es.push(e));
                assert(insert_absent(es, seq![e]) == insert_absent(es.push(e), seq![e].drop_first()));
                assert(insert_absent(es, seq![e]) == es1);
                lemma_key_index_push(es, ("definitions"@, Doc::Mapping(Seq::empty())));
            }
            lemma_key_index(es1, "definitions"@);
            let i = key_index(es1, "definitions"@) as int;
            lemma_valid_entries(Doc::Mapping(es1));
            match es1[i].1 {
                Doc::Mapping(defs) => {
                    lemma_valid_entries(es1[i].1);
                    lemma_catalog_valid();
                    lemma_insert_absent_valid(defs, catalog());
                    lemma_valid_update(es1, i, Doc::Mapping(insert_absent(defs, catalog())));
                },
                _ => {},
            }
        },
        _ => {},
    }
}

/// The resolved form of a valid document, against valid files, is valid.
pub proof fn law_resolution_keeps_documents_valid(
    files: Seq<FileEntry>,
    base: Seq<Seq<char>>,
    root: Doc,
)
    requires
        store_valid(files),
        well_formed(root),
        resolved_document(files, base, root) is Ok,
    ensures
        well_formed(resolved_document(files, base, root)->Ok_0),
{
    let s = seeded(root);
    lemma_seeded_valid(root);
    lemma_passes_valid(files, s, base, s, RESOLUTION_PASSES as nat);
    let p = passes(files, s, base, s, RESOLUTION_PASSES as nat)->Ok_0;
    lemma_cleaned_valid(p);
    lemma_sanitized_valid(cleaned(p));
    lemma_reduced_valid(sanitized(cleaned(p)));
}

} // verus!
