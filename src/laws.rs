//! Properties that relate the parts of a resolution run.
use vstd::prelude::*;
use crate::catalog::catalog;
use crate::doc::{
    doc_size, entries_size, items_size, key_index, lemma_doc_size_positive, lemma_key_index,
    lemma_key_index_unique, lemma_map_get_has, map_get, map_has, Doc,
};
use crate::engine::{passes, resolved_document, RESOLUTION_PASSES};
use crate::commute::{lemma_document_commutes, lemma_sanitized_kind, lemma_sanitized_mapping};
use crate::sanitize::{
    lemma_fixed_description_idempotent, lemma_fixed_example_idempotent, sanitized,
};
use crate::pointer::{legacy_lookup, pointer_stub, walk};
use crate::resolver::{
    missing_file_stub, ref_file_part, resolve_spec, rewrite_entries_spec,
    rewrite_items_spec, rewrite_spec, target_path,
};
use crate::store::file_get;
use crate::error::Fault;
use crate::store::FileEntry;
use crate::responses::{
    first_content_only, first_of_class, in_class, is_http_method, needs_reduction,
    reduced_document, reduced_operation, reduced_path_item, reduced_responses, single_response,
    success_count,
};
use crate::synthesis::{
    cleaned, insert_absent, lemma_key_index_push, ref_label, seeded, unresolved_stub,
    with_definitions,
};

verus! {

/// The document holds no reference node: no mapping in it has a `$ref` key.
pub open spec fn ref_free(d: Doc) -> bool
    decreases d,
{
    match d {
        Doc::Mapping(es) => forall|i: int|
            0 <= i < es.len() ==> (#[trigger] es[i]).0 != "$ref"@ && ref_free(es[i].1),
        Doc::Sequence(items) => forall|i: int| 0 <= i < items.len() ==> ref_free(#[trigger] items[i]),
        _ => true,
    }
}

pub proof fn lemma_no_ref_key(es: Seq<(Seq<char>, Doc)>)
    requires
        forall|i: int| 0 <= i < es.len() ==> (#[trigger] es[i]).0 != "$ref"@,
    ensures
        map_get(es, "$ref"@) is None,
{
    lemma_key_index(es, "$ref"@);
    if key_index(es, "$ref"@) < es.len() {
        assert(es[key_index(es, "$ref"@) as int].0 == "$ref"@);
    }
}

pub proof fn lemma_rewrite_ref_free(
    files: Seq<FileEntry>,
    root: Doc,
    stack: Seq<Seq<Seq<char>>>,
    d: Doc,
    dir: Seq<Seq<char>>,
    ctx: Option<Doc>,
)
    requires
        ref_free(d),
    ensures
        rewrite_spec(files, root, stack, d, dir, ctx) == Ok::<Doc, crate::error::Fault>(d),
    decreases doc_size(d), 0nat,
{
    match d {
        Doc::Mapping(es) => {
            lemma_no_ref_key(es);
            lemma_entries_ref_free(files, root, stack, es, dir, ctx);
        },
        Doc::Sequence(items) => {
            lemma_items_ref_free(files, root, stack, items, dir, ctx);
        },
        _ => {},
    }
}

pub proof fn lemma_items_ref_free(
    files: Seq<FileEntry>,
    root: Doc,
    stack: Seq<Seq<Seq<char>>>,
    items: Seq<Doc>,
    dir: Seq<Seq<char>>,
    ctx: Option<Doc>,
)
    requires
        forall|i: int| 0 <= i < items.len() ==> ref_free(#[trigger] items[i]),
    ensures
        rewrite_items_spec(files, root, stack, items, dir, ctx) == Ok::<Seq<Doc>, crate::error::Fault>(items),
    decreases items_size(items), 1nat,
{
    if items.len() > 0 {
        lemma_doc_size_positive(items[0]);
        lemma_rewrite_ref_free(files, root, stack, items[0], dir, ctx);
        assert forall|i: int| 0 <= i < items.drop_first().len() implies ref_free(
            #[trigger] items.drop_first()[i],
        ) by {
            assert(items.drop_first()[i] == items[i + 1]);
        }
        lemma_items_ref_free(files, root, stack, items.drop_first(), dir, ctx);
        assert(seq![items[0]] + items.drop_first() =~= items);
    } else {
        assert(items =~= Seq::<Doc>::empty());
    }
}

pub proof fn lemma_entries_ref_free(
    files: Seq<FileEntry>,
    root: Doc,
    stack: Seq<Seq<Seq<char>>>,
    es: Seq<(Seq<char>, Doc)>,
    dir: Seq<Seq<char>>,
    ctx: Option<Doc>,
)
    requires
        forall|i: int| 0 <= i < es.len() ==> ref_free(#[trigger] es[i].1),
    ensures
        rewrite_entries_spec(files, root, stack, es, dir, ctx) == Ok::<
            Seq<(Seq<char>, Doc)>,
            crate::error::Fault,
        >(es),
    decreases entries_size(es), 1nat,
{
    if es.len() > 0 {
        lemma_doc_size_positive(es[0].1);
        lemma_rewrite_ref_free(files, root, stack, es[0].1, dir, ctx);
        assert forall|i: int| 0 <= i < es.drop_first().len() implies ref_free(
            #[trigger] es.drop_first()[i].1,
        ) by {
            assert(es.drop_first()[i] == es[i + 1]);
        }
        lemma_entries_ref_free(files, root, stack, es.drop_first(), dir, ctx);
        assert(seq![(es[0].0, es[0].1)] + es.drop_first() =~= es);
    } else {
        assert(es =~= Seq::<(Seq<char>, Doc)>::empty());
    }
}

pub proof fn lemma_cleaned_ref_free(d: Doc)
    requires
        ref_free(d),
    ensures
        cleaned(d) == d,
    decreases d,
{
    match d {
        Doc::Mapping(es) => {
            let c = match cleaned(d) {
                Doc::Mapping(s) => s,
                _ => Seq::empty(),
            };
            lemma_no_ref_key(es);
            assert(c.len() == es.len());
            assert forall|i: int| 0 <= i < es.len() implies #[trigger] c[i] == es[i] by {
                lemma_cleaned_ref_free(es[i].1);
            }
            assert(c =~= es);
        },
        Doc::Sequence(items) => {
            let c = match cleaned(d) {
                Doc::Sequence(s) => s,
                _ => Seq::empty(),
            };
            assert(c.len() == items.len());
            assert forall|i: int| 0 <= i < items.len() implies #[trigger] c[i] == items[i] by {
                lemma_cleaned_ref_free(items[i]);
            }
            assert(c =~= items);
        },
        _ => {},
    }
}

/// A document without references comes out of any number of resolution
/// passes, and out of cleanup, exactly as it went in.
pub proof fn law_ref_free_document_unchanged(
    files: Seq<FileEntry>,
    root: Doc,
    dir: Seq<Seq<char>>,
    d: Doc,
    n: nat,
)
    requires
        ref_free(d),
    ensures
        passes(files, root, dir, d, n) == Ok::<Doc, crate::error::Fault>(d),
        cleaned(d) == d,
    decreases n,
{
    lemma_cleaned_ref_free(d);
    if n > 0 {
        lemma_rewrite_ref_free(files, root, Seq::empty(), d, dir, None);
        law_ref_free_document_unchanged(files, root, dir, d, (n - 1) as nat);
    }
}

/// Resolution, the passes followed by cleanup, leaves no reference node;
/// resolving its result again returns it unchanged.
pub proof fn law_resolution_idempotent(
    files: Seq<FileEntry>,
    root: Doc,
    dir: Seq<Seq<char>>,
    d: Doc,
    n: nat,
)
    requires
        passes(files, root, dir, d, n) is Ok,
    ensures
        ref_free(cleaned(passes(files, root, dir, d, n)->Ok_0)),
        passes(files, root, dir, cleaned(passes(files, root, dir, d, n)->Ok_0), n) == Ok::<
            Doc,
            Fault,
        >(cleaned(passes(files, root, dir, d, n)->Ok_0)),
        cleaned(cleaned(passes(files, root, dir, d, n)->Ok_0)) == cleaned(
            passes(files, root, dir, d, n)->Ok_0,
        ),
{
    let r = cleaned(passes(files, root, dir, d, n)->Ok_0);
    lemma_cleaned_is_ref_free(passes(files, root, dir, d, n)->Ok_0);
    law_ref_free_document_unchanged(files, root, dir, r, n);
}

pub proof fn lemma_map_get_push(es: Seq<(Seq<char>, Doc)>, e: (Seq<char>, Doc), key: Seq<char>)
    ensures
        map_get(es.push(e), key) == if map_get(es, key) is Some {
            map_get(es, key)
        } else if e.0 == key {
            Some(e.1)
        } else {
            None
        },
    decreases es.len(),
{
    assert(es.push(e)[0] == if es.len() > 0 {
        es[0]
    } else {
        e
    });
    if es.len() > 0 {
        assert(es.push(e).drop_first() =~= es.drop_first().push(e));
        lemma_map_get_push(es.drop_first(), e, key);
    } else {
        assert(es.push(e).drop_first() =~= Seq::<(Seq<char>, Doc)>::empty());
    }
}

/// After inserting the absent entries of `add`, a key keeps the value it had,
/// or takes the first value that `add` gives it.
pub proof fn lemma_insert_absent_get(
    es: Seq<(Seq<char>, Doc)>,
    add: Seq<(Seq<char>, Doc)>,
    key: Seq<char>,
)
    ensures
        map_get(insert_absent(es, add), key) == if map_get(es, key) is Some {
            map_get(es, key)
        } else {
            map_get(add, key)
        },
    decreases add.len(),
{
    if add.len() > 0 {
        let next = if map_get(es, add[0].0) is None {
            es.push(add[0])
        } else {
            es
        };
        lemma_insert_absent_get(next, add.drop_first(), key);
        if map_get(es, add[0].0) is None {
            lemma_map_get_push(es, add[0], key);
        }
    }
}

pub proof fn lemma_insert_absent_noop(es: Seq<(Seq<char>, Doc)>, add: Seq<(Seq<char>, Doc)>)
    requires
        forall|j: int| 0 <= j < add.len() ==> map_get(es, #[trigger] add[j].0) is Some,
    ensures
        insert_absent(es, add) == es,
    decreases add.len(),
{
    if add.len() > 0 {
        assert(map_get(es, add[0].0) is Some);
        assert forall|j: int| 0 <= j < add.drop_first().len() implies map_get(
            es,
            #[trigger] add.drop_first()[j].0,
        ) is Some by {
            assert(add.drop_first()[j] == add[j + 1]);
        }
        lemma_insert_absent_noop(es, add.drop_first());
    }
}

/// The definitions that a document already has, when its `definitions`
/// entry is a mapping.
pub open spec fn existing_definitions(es: Seq<(Seq<char>, Doc)>) -> Seq<(Seq<char>, Doc)> {
    match map_get(es, "definitions"@) {
        Some(Doc::Mapping(defs)) => defs,
        _ => Seq::empty(),
    }
}

/// Where the `definitions` entry of a mapping stands after seeding, and
/// what it holds.
pub proof fn lemma_seeded_shape(es: Seq<(Seq<char>, Doc)>)
    requires
        match map_get(es, "definitions"@) {
            None => true,
            Some(Doc::Mapping(_)) => true,
            _ => false,
        },
    ensures
        ({
            let es1 = with_definitions(es);
            let i = key_index(es1, "definitions"@) as int;
            &&& 0 <= i < es1.len()
            &&& es1[i].1 == Doc::Mapping(existing_definitions(es))
            &&& seeded(Doc::Mapping(es)) == Doc::Mapping(
                es1.update(
                    i,
                    ("definitions"@, Doc::Mapping(insert_absent(existing_definitions(es), catalog()))),
                ),
            )
        }),
{
    let es1 = with_definitions(es);
    if map_get(es, "definitions"@) is None {
        lemma_key_index_push(es, ("definitions"@, Doc::Mapping(Seq::empty())));
    }
    lemma_key_index(es1, "definitions"@);
}

/// After an update at the first position of a key that keeps the key, that
/// position is still the first with the key.
pub proof fn lemma_key_index_update(es: Seq<(Seq<char>, Doc)>, key: Seq<char>, v: Doc)
    requires
        key_index(es, key) < es.len(),
    ensures
        key_index(es.update(key_index(es, key) as int, (key, v)), key) == key_index(es, key),
        map_get(es.update(key_index(es, key) as int, (key, v)), key) == Some(v),
{
    let i = key_index(es, key) as int;
    let es2 = es.update(i, (key, v));
    lemma_key_index(es, key);
    assert forall|j: int| 0 <= j < i implies #[trigger] es2[j].0 != key by {
        assert(es2[j] == es[j]);
    }
    lemma_key_index_unique(es2, key, i);
    lemma_key_index(es2, key);
}

/// Every well-known definition resolves by name under `definitions` once the
/// document is seeded: to the document's own definition where it has one,
/// else to the well-known one.
pub proof fn law_definitions_resolvable(es: Seq<(Seq<char>, Doc)>, name: Seq<char>)
    requires
        match map_get(es, "definitions"@) {
            None => true,
            Some(Doc::Mapping(_)) => true,
            _ => false,
        },
        map_get(catalog(), name) is Some,
    ensures
        walk(seeded(Doc::Mapping(es)), seq!["definitions"@, name]) == Ok::<Doc, crate::error::Fault>(
            match map_get(existing_definitions(es), name) {
                Some(v) => v,
                None => map_get(catalog(), name)->0,
            },
        ),
{
    lemma_seeded_shape(es);
    let es1 = with_definitions(es);
    let defs2 = insert_absent(existing_definitions(es), catalog());
    lemma_key_index_update(es1, "definitions"@, Doc::Mapping(defs2));
    lemma_insert_absent_get(existing_definitions(es), catalog(), name);
    let segs = seq!["definitions"@, name];
    assert(segs.drop_first() =~= seq![name]);
    assert(seq![name].drop_first() =~= Seq::<Seq<char>>::empty());
    let i = key_index(es1, "definitions"@) as int;
    let es2 = es1.update(i, ("definitions"@, Doc::Mapping(defs2)));
    let v = match map_get(existing_definitions(es), name) {
        Some(v) => v,
        None => map_get(catalog(), name)->0,
    };
    assert(map_get(defs2, name) == Some(v));
    assert(walk(v, Seq::empty()) == Ok::<Doc, crate::error::Fault>(v));
    assert(walk(Doc::Mapping(defs2), seq![name]) == walk(v, Seq::empty()));
    assert(map_get(es2, "definitions"@) == Some(Doc::Mapping(defs2)));
    assert(walk(Doc::Mapping(es2), segs) == walk(Doc::Mapping(defs2), seq![name]));
}

/// Seeding twice is seeding once: each well-known definition is inserted at
/// most once however often the document is seeded.
pub proof fn law_seeding_idempotent(d: Doc)
    ensures
        seeded(seeded(d)) == seeded(d),
{
    match d {
        Doc::Mapping(es) => {
            let es1 = with_definitions(es);
            if map_get(es, "definitions"@) is None {
                lemma_key_index_push(es, ("definitions"@, Doc::Mapping(Seq::empty())));
            }
            lemma_key_index(es1, "definitions"@);
            assert(with_definitions(es1) == es1);
            let i = key_index(es1, "definitions"@) as int;
            match es1[i].1 {
                Doc::Mapping(defs) => {
                    let d2 = insert_absent(defs, catalog());
                    let es2 = es1.update(i, ("definitions"@, Doc::Mapping(d2)));
                    lemma_key_index_update(es1, "definitions"@, Doc::Mapping(d2));
                    assert(with_definitions(es2) == es2);
                    assert forall|j: int| 0 <= j < catalog().len() implies map_get(
                        d2,
                        #[trigger] catalog()[j].0,
                    ) is Some by {
                        lemma_insert_absent_get(defs, catalog(), catalog()[j].0);
                        lemma_map_get_has(catalog(), catalog()[j].0);
                    }
                    lemma_insert_absent_noop(d2, catalog());
                    assert(es2.update(i, ("definitions"@, Doc::Mapping(d2))) =~= es2);
                },
                _ => {},
            }
        },
        _ => {},
    }
}

/// A responses mapping that is reduced keeps exactly one response, and
/// reducing again changes nothing.
pub proof fn law_reduction_keeps_one_response(rs: Seq<(Seq<char>, Doc)>)
    ensures
        (success_count(rs) > 1 || rs.len() > 2) ==> reduced_responses(rs).len() == 1,
        reduced_responses(reduced_responses(rs)) == reduced_responses(rs),
{
    if success_count(rs) > 1 || rs.len() > 2 {
        assert(rs.len() > 0);
        if in_class(rs[0].0, 1) {
            assert(first_of_class(rs, 1) == 0);
        } else {
            assert(in_class(rs[0].0, 2));
            assert(first_of_class(rs, 2) == 0);
        }
        let one = single_response(rs);
        assert(one.len() == 1);
        assert(one.drop_first().len() == 0);
        assert(success_count(one.drop_first()) == 0);
        assert(success_count(one) <= 1);
    }
}

/// Two mappings with the same keys, position by position, find a key at the
/// same position.
pub proof fn lemma_key_index_same_keys(
    es: Seq<(Seq<char>, Doc)>,
    fs: Seq<(Seq<char>, Doc)>,
    key: Seq<char>,
)
    requires
        es.len() == fs.len(),
        forall|i: int| 0 <= i < es.len() ==> #[trigger] es[i].0 == fs[i].0,
    ensures
        key_index(fs, key) == key_index(es, key),
{
    lemma_key_index(es, key);
    let r = key_index(es, key) as int;
    assert forall|j: int| 0 <= j < r implies #[trigger] fs[j].0 != key by {
        assert(es[j].0 != key);
    }
    lemma_key_index_unique(fs, key, r);
}

/// Cleanup leaves no `$ref` key anywhere.
pub proof fn lemma_cleaned_is_ref_free(d: Doc)
    ensures
        ref_free(cleaned(d)),
    decreases d,
{
    match d {
        Doc::Mapping(es) => {
            if map_get(es, "$ref"@) is Some {
                reveal_strlit("type");
                reveal_strlit("description");
                reveal_strlit("$ref");
                assert("type"@[0] != "$ref"@[0]);
                assert("description"@.len() != "$ref"@.len());
                let st = match unresolved_stub(ref_label(es)) {
                    Doc::Mapping(s) => s,
                    _ => Seq::empty(),
                };
                assert(st.len() == 2);
                assert forall|i: int| 0 <= i < st.len() implies (#[trigger] st[i]).0 != "$ref"@
                    && ref_free(st[i].1) by {
                    if i == 0 {
                        assert(st[0].0 == "type"@);
                    } else {
                        assert(st[1].0 == "description"@);
                    }
                }
            } else {
                lemma_map_get_has(es, "$ref"@);
                let c = match cleaned(d) {
                    Doc::Mapping(s) => s,
                    _ => Seq::empty(),
                };
                assert forall|i: int| 0 <= i < c.len() implies (#[trigger] c[i]).0 != "$ref"@
                    && ref_free(c[i].1) by {
                    assert(c[i] == (es[i].0, cleaned(es[i].1)));
                    lemma_cleaned_is_ref_free(es[i].1);
                    if es[i].0 == "$ref"@ {
                        assert(map_has(es, "$ref"@));
                    }
                }
            }
        },
        Doc::Sequence(items) => {
            let c = match cleaned(d) {
                Doc::Sequence(s) => s,
                _ => Seq::empty(),
            };
            assert forall|i: int| 0 <= i < c.len() implies ref_free(#[trigger] c[i]) by {
                lemma_cleaned_is_ref_free(items[i]);
            }
        },
        _ => {},
    }
}

/// Cleanup leaves no reference node, so a second cleanup changes nothing.
pub proof fn law_cleanup_idempotent(d: Doc)
    ensures
        ref_free(cleaned(d)),
        cleaned(cleaned(d)) == cleaned(d),
{
    lemma_cleaned_is_ref_free(d);
    lemma_cleaned_ref_free(cleaned(d));
}

/// A reference to a file that is not stored resolves to the generic object
/// placeholder, whatever the state of the run.
pub proof fn law_missing_file_gives_stub(
    files: Seq<FileEntry>,
    root: Doc,
    stack: Seq<Seq<Seq<char>>>,
    r: Seq<char>,
    dir: Seq<Seq<char>>,
    ctx: Option<Doc>,
)
    requires
        ref_file_part(r).len() > 0,
        file_get(files, target_path(files, dir, ref_file_part(r))) is None,
    ensures
        resolve_spec(files, root, stack, r, dir, ctx) == Ok::<Doc, Fault>(missing_file_stub()),
{
}

/// A reference into a file that is being resolved on the current chain is a
/// cycle, and fails with that file's path.
pub proof fn law_reference_cycle_fails(
    files: Seq<FileEntry>,
    root: Doc,
    stack: Seq<Seq<Seq<char>>>,
    r: Seq<char>,
    dir: Seq<Seq<char>>,
    ctx: Option<Doc>,
)
    requires
        ref_file_part(r).len() > 0,
        file_get(files, target_path(files, dir, ref_file_part(r))) is Some,
        stack.contains(target_path(files, dir, ref_file_part(r))),
    ensures
        resolve_spec(files, root, stack, r, dir, ctx) == Err::<Doc, Fault>(
            Fault::Circular(target_path(files, dir, ref_file_part(r))),
        ),
{
}

/// A pointer segment that a mapping lacks, directly and under its
/// `definitions`, ends navigation with the object placeholder naming it.
pub proof fn law_pointer_miss_gives_stub(
    es: Seq<(Seq<char>, Doc)>,
    seg: Seq<char>,
    rest: Seq<Seq<char>>,
)
    requires
        map_get(es, seg) is None,
        legacy_lookup(es, seg) is None,
    ensures
        walk(Doc::Mapping(es), seq![seg] + rest) == Ok::<Doc, Fault>(pointer_stub(seg)),
{
    assert((seq![seg] + rest)[0] == seg);
}

/// An entry replaced by a value without references, under the same key,
/// keeps a mapping without references.
pub proof fn lemma_update_ref_free(es: Seq<(Seq<char>, Doc)>, i: int, v: Doc)
    requires
        ref_free(Doc::Mapping(es)),
        0 <= i < es.len(),
        ref_free(v),
    ensures
        ref_free(Doc::Mapping(es.update(i, (es[i].0, v)))),
{
    lemma_ref_free_entries(Doc::Mapping(es));
    let es2 = es.update(i, (es[i].0, v));
    assert forall|j: int| 0 <= j < es2.len() implies (#[trigger] es2[j]).0 != "$ref"@ && ref_free(
        es2[j].1,
    ) by {
        assert(es[j].0 != "$ref"@ && ref_free(es[j].1));
    }
}

pub proof fn lemma_ref_free_entries(d: Doc)
    requires
        ref_free(d),
    ensures
        d is Mapping ==> forall|j: int|
            0 <= j < d->Mapping_0.len() ==> (#[trigger] d->Mapping_0[j]).0 != "$ref"@ && ref_free(
                d->Mapping_0[j].1,
            ),
{
    match d {
        Doc::Mapping(es) => {},
        _ => {},
    }
}

pub proof fn lemma_sanitized_ref_free(d: Doc)
    requires
        ref_free(d),
    ensures
        ref_free(sanitized(d)),
    decreases d,
{
    match d {
        Doc::Mapping(es) => {
            let c = match sanitized(d) {
                Doc::Mapping(s) => s,
                _ => Seq::empty(),
            };
            assert forall|i: int| 0 <= i < c.len() implies (#[trigger] c[i]).0 != "$ref"@
                && ref_free(c[i].1) by {
                assert(es[i].0 != "$ref"@ && ref_free(es[i].1));
                if !(es[i].1 is Str) {
                    lemma_sanitized_ref_free(es[i].1);
                }
            }
        },
        Doc::Sequence(items) => {
            let c = match sanitized(d) {
                Doc::Sequence(s) => s,
                _ => Seq::empty(),
            };
            assert forall|i: int| 0 <= i < c.len() implies ref_free(#[trigger] c[i]) by {
                lemma_sanitized_ref_free(items[i]);
            }
        },
        _ => {},
    }
}

pub proof fn lemma_reduced_operation_ref_free(op: Doc)
    requires
        ref_free(op),
    ensures
        ref_free(reduced_operation(op)),
{
    match op {
        Doc::Mapping(es) => {
            let i = key_index(es, "responses"@) as int;
            if i < es.len() {
                match es[i].1 {
                    Doc::Mapping(rs) => {
                        assert(ref_free(es[i].1));
                        let red = reduced_responses(rs);
                        if needs_reduction(rs) {
                            let s0 = first_of_class(rs, 0) as int;
                            let o = first_of_class(rs, 1) as int;
                            let d0 = first_of_class(rs, 2) as int;
                            if s0 < rs.len() {
                                assert(rs[s0].0 != "$ref"@ && ref_free(rs[s0].1));
                                let v = rs[s0].1;
                                match v {
                                    Doc::Mapping(ves) => {
                                        let j = key_index(ves, "content"@) as int;
                                        if j < ves.len() {
                                            match ves[j].1 {
                                                Doc::Mapping(cs) => {
                                                    if cs.len() > 1 {
                                                        assert(ref_free(ves[j].1));
                                                        assert(cs[0].0 != "$ref"@ && ref_free(cs[0].1));
                                                        assert(ref_free(Doc::Mapping(seq![cs[0]])));
                                                        lemma_update_ref_free(ves, j, Doc::Mapping(seq![cs[0]]));
                                                    }
                                                },
                                                _ => {},
                                            }
                                        }
                                    },
                                    _ => {},
                                }
                                assert(ref_free(first_content_only(v)));
                            } else if o < rs.len() {
                                assert(rs[o].0 != "$ref"@ && ref_free(rs[o].1));
                            } else if d0 < rs.len() {
                                assert(rs[d0].0 != "$ref"@ && ref_free(rs[d0].1));
                            }
                        }
                        assert(ref_free(Doc::Mapping(red)));
                        lemma_update_ref_free(es, i, Doc::Mapping(red));
                    },
                    _ => {},
                }
            }
        },
        _ => {},
    }
}

pub proof fn lemma_reduced_ref_free(d: Doc)
    requires
        ref_free(d),
    ensures
        ref_free(reduced_document(d)),
{
    match d {
        Doc::Mapping(es) => {
            let i = key_index(es, "paths"@) as int;
            if i < es.len() {
                match es[i].1 {
                    Doc::Mapping(ps) => {
                        assert(ref_free(es[i].1));
                        let ps2 = Seq::new(ps.len(), |j: int| (ps[j].0, reduced_path_item(ps[j].1)));
                        assert forall|j: int| 0 <= j < ps2.len() implies (#[trigger] ps2[j]).0 != "$ref"@
                            && ref_free(ps2[j].1) by {
                            assert(ps[j].0 != "$ref"@ && ref_free(ps[j].1));
                            match ps[j].1 {
                                Doc::Mapping(ms) => {
                                    let ms2 = match reduced_path_item(ps[j].1) {
                                        Doc::Mapping(x) => x,
                                        _ => Seq::empty(),
                                    };
                                    assert forall|k: int| 0 <= k < ms2.len() implies (#[trigger] ms2[k]).0
                                        != "$ref"@ && ref_free(ms2[k].1) by {
                                        assert(ms[k].0 != "$ref"@ && ref_free(ms[k].1));
                                        if is_http_method(ms[k].0) {
                                            lemma_reduced_operation_ref_free(ms[k].1);
                                        }
                                    }
                                },
                                _ => {},
                            }
                        }
                        lemma_update_ref_free(es, i, Doc::Mapping(ps2));
                    },
                    _ => {},
                }
            }
        },
        _ => {},
    }
}

/// A resolved document holds no reference node: no mapping in it has a
/// `$ref` key.
pub proof fn law_resolved_document_ref_free(
    files: Seq<FileEntry>,
    base: Seq<Seq<char>>,
    root: Doc,
)
    requires
        resolved_document(files, base, root) is Ok,
    ensures
        ref_free(resolved_document(files, base, root)->Ok_0),
{
    let s = seeded(root);
    let p = passes(files, s, base, s, RESOLUTION_PASSES as nat)->Ok_0;
    lemma_cleaned_is_ref_free(p);
    lemma_sanitized_ref_free(cleaned(p));
    lemma_reduced_ref_free(sanitized(cleaned(p)));
}

pub proof fn lemma_reduced_operation_idempotent(op: Doc)
    ensures
        reduced_operation(reduced_operation(op)) == reduced_operation(op),
{
    match op {
        Doc::Mapping(es) => {
            let i = key_index(es, "responses"@) as int;
            if i < es.len() {
                match es[i].1 {
                    Doc::Mapping(rs) => {
                        let es2 = es.update(i, (es[i].0, Doc::Mapping(reduced_responses(rs))));
                        lemma_key_index_same_keys(es, es2, "responses"@);
                        law_reduction_keeps_one_response(rs);
                        assert(es2.update(i, (es2[i].0, Doc::Mapping(reduced_responses(reduced_responses(rs)))))
                            =~= es2);
                    },
                    _ => {},
                }
            }
        },
        _ => {},
    }
}

pub proof fn lemma_reduced_path_item_idempotent(p: Doc)
    ensures
        reduced_path_item(reduced_path_item(p)) == reduced_path_item(p),
{
    match p {
        Doc::Mapping(ms) => {
            let ms2 = match reduced_path_item(p) {
                Doc::Mapping(x) => x,
                _ => Seq::empty(),
            };
            let ms3 = match reduced_path_item(Doc::Mapping(ms2)) {
                Doc::Mapping(x) => x,
                _ => Seq::empty(),
            };
            assert forall|k: int| 0 <= k < ms3.len() implies #[trigger] ms3[k] == ms2[k] by {
                if is_http_method(ms[k].0) {
                    lemma_reduced_operation_idempotent(ms[k].1);
                }
            }
            assert(ms3 =~= ms2);
        },
        _ => {},
    }
}

/// Reducing the responses of a document twice is reducing them once.
pub proof fn law_reduction_idempotent(d: Doc)
    ensures
        reduced_document(reduced_document(d)) == reduced_document(d),
{
    match d {
        Doc::Mapping(es) => {
            let i = key_index(es, "paths"@) as int;
            if i < es.len() {
                match es[i].1 {
                    Doc::Mapping(ps) => {
                        let ps2 = Seq::new(ps.len(), |j: int| (ps[j].0, reduced_path_item(ps[j].1)));
                        let es2 = es.update(i, (es[i].0, Doc::Mapping(ps2)));
                        lemma_key_index_same_keys(es, es2, "paths"@);
                        let ps3 = Seq::new(ps2.len(), |j: int| (ps2[j].0, reduced_path_item(ps2[j].1)));
                        assert forall|j: int| 0 <= j < ps3.len() implies #[trigger] ps3[j] == ps2[j] by {
                            lemma_reduced_path_item_idempotent(ps[j].1);
                        }
                        assert(ps3 =~= ps2);
                        assert(es2.update(i, (es2[i].0, Doc::Mapping(ps3))) =~= es2);
                    },
                    _ => {},
                }
            }
        },
        _ => {},
    }
}

/// A second run over a resolved document that seeding leaves as it is
/// returns it unchanged: the passes and cleanup find no reference in it, and
/// fixing texts and reducing responses are idempotent and commute.
pub proof fn lemma_run_idempotent_when_seeded(files: Seq<FileEntry>, base: Seq<Seq<char>>, root: Doc)
    requires
        resolved_document(files, base, root) is Ok,
        seeded(resolved_document(files, base, root)->Ok_0) == resolved_document(files, base, root)->Ok_0,
    ensures
        resolved_document(files, base, resolved_document(files, base, root)->Ok_0) == resolved_document(
            files,
            base,
            root,
        ),
{
    let d1 = resolved_document(files, base, root)->Ok_0;
    law_resolved_document_ref_free(files, base, root);
    law_ref_free_document_unchanged(files, d1, base, d1, RESOLUTION_PASSES as nat);
    let s = seeded(root);
    let p = passes(files, s, base, s, RESOLUTION_PASSES as nat)->Ok_0;
    let c = cleaned(p);
    law_sanitizing_idempotent(c);
    lemma_document_commutes(sanitized(c));
    law_reduction_idempotent(sanitized(c));
}

/// Two entry lists with the same key at each position.
pub open spec fn same_keys(a: Seq<(Seq<char>, Doc)>, b: Seq<(Seq<char>, Doc)>) -> bool {
    a.len() == b.len() && forall|i: int| 0 <= i < a.len() ==> #[trigger] a[i].0 == b[i].0
}

pub proof fn lemma_same_keys_get(a: Seq<(Seq<char>, Doc)>, b: Seq<(Seq<char>, Doc)>, k: Seq<char>)
    requires
        same_keys(a, b),
    ensures
        key_index(a, k) == key_index(b, k),
        map_get(a, k) is Some <==> map_get(b, k) is Some,
        map_get(b, k) is Some ==> map_get(b, k) == Some(b[key_index(b, k) as int].1),
        map_get(a, k) is Some ==> map_get(a, k) == Some(a[key_index(a, k) as int].1),
{
    lemma_key_index_same_keys(a, b, k);
    lemma_key_index(a, k);
    lemma_key_index(b, k);
}

/// The entries of a mapping document's `definitions` mapping; none where
/// there is no such mapping.
pub open spec fn definitions_of(d: Doc) -> Seq<(Seq<char>, Doc)> {
    match d {
        Doc::Mapping(es) => match map_get(es, "definitions"@) {
            Some(Doc::Mapping(ds)) => ds,
            _ => Seq::empty(),
        },
        _ => Seq::empty(),
    }
}

pub proof fn lemma_same_keys_trans(
    a: Seq<(Seq<char>, Doc)>,
    b: Seq<(Seq<char>, Doc)>,
    c: Seq<(Seq<char>, Doc)>,
)
    requires
        same_keys(a, b),
        same_keys(b, c),
    ensures
        same_keys(a, c),
{
    assert forall|i: int| 0 <= i < a.len() implies #[trigger] a[i].0 == c[i].0 by {
        assert(b[i].0 == c[i].0);
    }
}

/// The document is a mapping without a `$ref` key, whose `definitions`
/// entry is a mapping without a `$ref` key that holds every well-known name.
pub open spec fn carries_catalog(d: Doc) -> bool {
    match d {
        Doc::Mapping(es) => map_get(es, "$ref"@) is None && match map_get(es, "definitions"@) {
            Some(Doc::Mapping(ds)) => map_get(ds, "$ref"@) is None && forall|j: int|
                0 <= j < catalog().len() ==> map_get(ds, #[trigger] catalog()[j].0) is Some,
            _ => false,
        },
        _ => false,
    }
}

/// Two mappings with the same keys, where the `definitions` value of the
/// second is a mapping with the same keys as that of the first, both carry
/// the well-known names or neither does.
pub proof fn lemma_carries_catalog_same_keys(
    es: Seq<(Seq<char>, Doc)>,
    fs: Seq<(Seq<char>, Doc)>,
    ds: Seq<(Seq<char>, Doc)>,
    gs: Seq<(Seq<char>, Doc)>,
)
    requires
        carries_catalog(Doc::Mapping(es)),
        same_keys(es, fs),
        map_get(es, "definitions"@) == Some(Doc::Mapping(ds)),
        fs[key_index(fs, "definitions"@) as int].1 == Doc::Mapping(gs),
        same_keys(ds, gs),
    ensures
        carries_catalog(Doc::Mapping(fs)),
        definitions_of(Doc::Mapping(es)) == ds,
        definitions_of(Doc::Mapping(fs)) == gs,
{
    lemma_same_keys_get(es, fs, "$ref"@);
    lemma_same_keys_get(es, fs, "definitions"@);
    lemma_same_keys_get(ds, gs, "$ref"@);
    assert forall|j: int| 0 <= j < catalog().len() implies map_get(gs, #[trigger] catalog()[j].0) is Some by {
        lemma_same_keys_get(ds, gs, catalog()[j].0);
    }
}

/// Seeding leaves a document that carries the well-known names as it is.
pub proof fn lemma_seeded_carrying(d: Doc)
    requires
        carries_catalog(d),
    ensures
        seeded(d) == d,
{
    match d {
        Doc::Mapping(es) => {
            lemma_key_index(es, "definitions"@);
            let i = key_index(es, "definitions"@) as int;
            let ds = es[i].1->Mapping_0;
            lemma_insert_absent_noop(ds, catalog());
            assert(es.update(i, ("definitions"@, Doc::Mapping(ds))) =~= es);
        },
        _ => {},
    }
}

pub proof fn lemma_catalog_has_no_ref()
    ensures
        map_get(catalog(), "$ref"@) is None,
{
    reveal_strlit("$ref");
    reveal_strlit("forward_links");
    reveal_strlit("backward_links");
    reveal_strlit("existing_tags_array");
    reveal_strlit("error_response");
    reveal_strlit("kubernetes_node_pool_taint");
    reveal_strlit("region_state");
    reveal_strlit("apiChatbot");
    assert forall|i: int| 0 <= i < catalog().len() implies (#[trigger] catalog()[i]).0 != "$ref"@ by {
        assert(catalog()[i].0.len() != "$ref"@.len());
    }
    lemma_no_ref_key(catalog());
}

/// Seeding a mapping without references whose `definitions` entry is absent,
/// or a mapping without a `$ref` key, gives a document that carries every
/// well-known name.
pub proof fn lemma_seeded_carries_catalog(es: Seq<(Seq<char>, Doc)>)
    requires
        map_get(es, "$ref"@) is None,
        match map_get(es, "definitions"@) {
            None => true,
            Some(Doc::Mapping(ds)) => map_get(ds, "$ref"@) is None,
            _ => false,
        },
    ensures
        carries_catalog(seeded(Doc::Mapping(es))),
{
    lemma_seeded_shape(es);
    let es1 = with_definitions(es);
    let i = key_index(es1, "definitions"@) as int;
    let d2 = insert_absent(existing_definitions(es), catalog());
    let es2 = es1.update(i, ("definitions"@, Doc::Mapping(d2)));
    lemma_key_index_update(es1, "definitions"@, Doc::Mapping(d2));
    reveal_strlit("$ref");
    reveal_strlit("definitions");
    assert("$ref"@ != "definitions"@) by {
        assert("$ref"@.len() != "definitions"@.len());
    }
    lemma_map_get_push(es, ("definitions"@, Doc::Mapping(Seq::empty())), "$ref"@);
    assert(map_get(es1, "$ref"@) is None);
    lemma_key_index(es1, "definitions"@);
    assert(same_keys(es1, es2));
    lemma_same_keys_get(es1, es2, "$ref"@);
    lemma_catalog_has_no_ref();
    lemma_insert_absent_get(existing_definitions(es), catalog(), "$ref"@);
    assert forall|j: int| 0 <= j < catalog().len() implies map_get(d2, #[trigger] catalog()[j].0) is Some by {
        lemma_insert_absent_get(existing_definitions(es), catalog(), catalog()[j].0);
        lemma_map_get_has(catalog(), catalog()[j].0);
    }
}

pub proof fn lemma_rewrite_entries_shape(
    files: Seq<FileEntry>,
    root: Doc,
    stack: Seq<Seq<Seq<char>>>,
    es: Seq<(Seq<char>, Doc)>,
    dir: Seq<Seq<char>>,
    ctx: Option<Doc>,
)
    requires
        rewrite_entries_spec(files, root, stack, es, dir, ctx) is Ok,
    ensures
        same_keys(es, rewrite_entries_spec(files, root, stack, es, dir, ctx)->Ok_0),
        forall|i: int|
            0 <= i < es.len() ==> rewrite_spec(files, root, stack, #[trigger] es[i].1, dir, ctx)
                == Ok::<Doc, Fault>(rewrite_entries_spec(files, root, stack, es, dir, ctx)->Ok_0[i].1),
    decreases es.len(),
{
    if es.len() > 0 {
        lemma_rewrite_entries_shape(files, root, stack, es.drop_first(), dir, ctx);
        let out = rewrite_entries_spec(files, root, stack, es, dir, ctx)->Ok_0;
        let rest = rewrite_entries_spec(files, root, stack, es.drop_first(), dir, ctx)->Ok_0;
        assert forall|i: int| 0 <= i < es.len() implies #[trigger] es[i].0 == out[i].0 by {
            if i > 0 {
                assert(es[i] == es.drop_first()[i - 1]);
                assert(out[i] == rest[i - 1]);
            }
        }
        assert forall|i: int| 0 <= i < es.len() implies rewrite_spec(
            files,
            root,
            stack,
            #[trigger] es[i].1,
            dir,
            ctx,
        ) == Ok::<Doc, Fault>(out[i].1) by {
            if i > 0 {
                assert(es[i] == es.drop_first()[i - 1]);
                assert(out[i] == rest[i - 1]);
            }
        }
    }
}

/// One rewriting pass keeps a document carrying the well-known names.
pub proof fn lemma_rewrite_carries_catalog(
    files: Seq<FileEntry>,
    root: Doc,
    stack: Seq<Seq<Seq<char>>>,
    d: Doc,
    dir: Seq<Seq<char>>,
    ctx: Option<Doc>,
)
    requires
        carries_catalog(d),
        rewrite_spec(files, root, stack, d, dir, ctx) is Ok,
    ensures
        carries_catalog(rewrite_spec(files, root, stack, d, dir, ctx)->Ok_0),
        same_keys(definitions_of(d), definitions_of(rewrite_spec(files, root, stack, d, dir, ctx)->Ok_0)),
{
    let es = d->Mapping_0;
    lemma_rewrite_entries_shape(files, root, stack, es, dir, ctx);
    let es2 = rewrite_entries_spec(files, root, stack, es, dir, ctx)->Ok_0;
    lemma_key_index(es, "definitions"@);
    let k = key_index(es, "definitions"@) as int;
    let ds = es[k].1->Mapping_0;
    lemma_same_keys_get(es, es2, "definitions"@);
    assert(rewrite_spec(files, root, stack, es[k].1, dir, ctx) == Ok::<Doc, Fault>(es2[k].1));
    lemma_rewrite_entries_shape(files, root, stack, ds, dir, ctx);
    let ds2 = rewrite_entries_spec(files, root, stack, ds, dir, ctx)->Ok_0;
    lemma_carries_catalog_same_keys(es, es2, ds, ds2);
}

pub proof fn lemma_passes_carry_catalog(
    files: Seq<FileEntry>,
    root: Doc,
    dir: Seq<Seq<char>>,
    d: Doc,
    n: nat,
)
    requires
        carries_catalog(d),
        passes(files, root, dir, d, n) is Ok,
    ensures
        carries_catalog(passes(files, root, dir, d, n)->Ok_0),
        same_keys(definitions_of(d), definitions_of(passes(files, root, dir, d, n)->Ok_0)),
    decreases n,
{
    if n > 0 {
        lemma_rewrite_carries_catalog(files, root, Seq::empty(), d, dir, None);
        let d1 = rewrite_spec(files, root, Seq::empty(), d, dir, None)->Ok_0;
        lemma_passes_carry_catalog(files, root, dir, d1, (n - 1) as nat);
        lemma_same_keys_trans(
            definitions_of(d),
            definitions_of(d1),
            definitions_of(passes(files, root, dir, d, n)->Ok_0),
        );
    } else {
        assert(same_keys(definitions_of(d), definitions_of(d)));
    }
}

pub proof fn lemma_cleaned_same_keys(es: Seq<(Seq<char>, Doc)>)
    requires
        map_get(es, "$ref"@) is None,
    ensures
        cleaned(Doc::Mapping(es)) is Mapping,
        same_keys(es, cleaned(Doc::Mapping(es))->Mapping_0),
        forall|i: int| 0 <= i < es.len() ==> cleaned(Doc::Mapping(es))->Mapping_0[i].1 == cleaned(
            #[trigger] es[i].1,
        ),
{
}

pub proof fn lemma_sanitized_same_keys(es: Seq<(Seq<char>, Doc)>)
    ensures
        sanitized(Doc::Mapping(es)) is Mapping,
        same_keys(es, sanitized(Doc::Mapping(es))->Mapping_0),
        forall|i: int|
            0 <= i < es.len() && es[i].1 is Mapping ==> sanitized(Doc::Mapping(es))->Mapping_0[i].1
                == sanitized(#[trigger] es[i].1),
{
}

/// The stages after the passes keep a document carrying the well-known names.
pub proof fn lemma_post_passes_carry_catalog(d: Doc)
    requires
        carries_catalog(d),
    ensures
        carries_catalog(cleaned(d)),
        carries_catalog(sanitized(cleaned(d))),
        carries_catalog(reduced_document(sanitized(cleaned(d)))),
        same_keys(definitions_of(d), definitions_of(reduced_document(sanitized(cleaned(d))))),
{
    let es = d->Mapping_0;
    lemma_key_index(es, "definitions"@);
    let k = key_index(es, "definitions"@) as int;
    let ds = es[k].1->Mapping_0;
    lemma_cleaned_same_keys(es);
    lemma_cleaned_same_keys(ds);
    let ces = cleaned(d)->Mapping_0;
    let cds = cleaned(es[k].1)->Mapping_0;
    lemma_same_keys_get(es, ces, "definitions"@);
    lemma_carries_catalog_same_keys(es, ces, ds, cds);
    lemma_sanitized_same_keys(ces);
    lemma_sanitized_same_keys(cds);
    let ses = sanitized(cleaned(d))->Mapping_0;
    let sds = sanitized(ces[k].1)->Mapping_0;
    lemma_same_keys_get(ces, ses, "definitions"@);
    lemma_key_index(ces, "definitions"@);
    lemma_carries_catalog_same_keys(ces, ses, cds, sds);
    let p = key_index(ses, "paths"@) as int;
    lemma_key_index(ses, "paths"@);
    lemma_key_index(ses, "definitions"@);
    reveal_strlit("paths");
    reveal_strlit("definitions");
    assert("paths"@.len() != "definitions"@.len());
    if p < ses.len() {
        match ses[p].1 {
            Doc::Mapping(ps) => {
                let ps2 = Seq::new(ps.len(), |j: int| (ps[j].0, reduced_path_item(ps[j].1)));
                let res = ses.update(p, (ses[p].0, Doc::Mapping(ps2)));
                assert(same_keys(ses, res));
                lemma_same_keys_get(ses, res, "definitions"@);
                assert(same_keys(sds, sds));
                lemma_carries_catalog_same_keys(ses, res, sds, sds);
            },
            _ => {},
        }
    }
    lemma_same_keys_trans(ds, cds, sds);
}

/// In the resolved form of a mapping without references whose `definitions`
/// entry is absent, or a mapping without a `$ref` key, `definitions` has
/// exactly the keys it had, in order, followed by each well-known name it
/// lacked, once; and a second run over that form returns it unchanged.
pub proof fn law_run_keeps_definitions(files: Seq<FileEntry>, base: Seq<Seq<char>>, es: Seq<(Seq<char>, Doc)>)
    requires
        map_get(es, "$ref"@) is None,
        match map_get(es, "definitions"@) {
            None => true,
            Some(Doc::Mapping(ds)) => map_get(ds, "$ref"@) is None,
            _ => false,
        },
        resolved_document(files, base, Doc::Mapping(es)) is Ok,
    ensures
        carries_catalog(resolved_document(files, base, Doc::Mapping(es))->Ok_0),
        same_keys(
            insert_absent(existing_definitions(es), catalog()),
            definitions_of(resolved_document(files, base, Doc::Mapping(es))->Ok_0),
        ),
        resolved_document(files, base, resolved_document(files, base, Doc::Mapping(es))->Ok_0)
            == resolved_document(files, base, Doc::Mapping(es)),
{
    let root = Doc::Mapping(es);
    let s = seeded(root);
    lemma_seeded_carries_catalog(es);
    lemma_passes_carry_catalog(files, s, base, s, RESOLUTION_PASSES as nat);
    let p = passes(files, s, base, s, RESOLUTION_PASSES as nat)->Ok_0;
    lemma_post_passes_carry_catalog(p);
    lemma_seeded_shape(es);
    let es1 = with_definitions(es);
    let d2 = insert_absent(existing_definitions(es), catalog());
    lemma_key_index_update(es1, "definitions"@, Doc::Mapping(d2));
    assert(definitions_of(s) == d2);
    lemma_same_keys_trans(d2, definitions_of(p), definitions_of(resolved_document(files, base, root)->Ok_0));
    let d1 = resolved_document(files, base, root)->Ok_0;
    lemma_seeded_carrying(d1);
    lemma_run_idempotent_when_seeded(files, base, root);
}

/// A failure in the first pass, such as a reference cycle, is not recovered:
/// the whole run fails with it.
pub proof fn law_failure_aborts_run(files: Seq<FileEntry>, base: Seq<Seq<char>>, root: Doc)
    requires
        rewrite_spec(files, seeded(root), Seq::empty(), seeded(root), base, None) is Err,
    ensures
        resolved_document(files, base, root) == Err::<Doc, Fault>(
            rewrite_spec(files, seeded(root), Seq::empty(), seeded(root), base, None)->Err_0,
        ),
{
}

/// Fixing the texts of a document twice is fixing them once.
pub proof fn law_sanitizing_idempotent(d: Doc)
    ensures
        sanitized(sanitized(d)) == sanitized(d),
    decreases d,
{
    match d {
        Doc::Mapping(es) => {
            let c = sanitized(d)->Mapping_0;
            assert(c.len() == es.len());
            assert forall|i: int| 0 <= i < es.len() implies #[trigger] es[i].0 == c[i].0 by {}
            lemma_key_index_same_keys(es, c, "description"@);
            lemma_key_index_same_keys(es, c, "example"@);
            let cc = sanitized(Doc::Mapping(c))->Mapping_0;
            assert forall|i: int| 0 <= i < c.len() implies #[trigger] cc[i] == c[i] by {
                match es[i].1 {
                    Doc::Str(x) => {
                        lemma_fixed_description_idempotent(x);
                        lemma_fixed_example_idempotent(x);
                    },
                    _ => {
                        law_sanitizing_idempotent(es[i].1);
                    },
                }
            }
            assert(cc =~= c);
        },
        Doc::Sequence(items) => {
            let c = sanitized(d)->Sequence_0;
            let cc = sanitized(Doc::Sequence(c))->Sequence_0;
            assert forall|i: int| 0 <= i < c.len() implies #[trigger] cc[i] == c[i] by {
                law_sanitizing_idempotent(items[i]);
            }
            assert(cc =~= c);
        },
        _ => {},
    }
}

pub proof fn lemma_rewrite_keeps_non_mapping(
    files: Seq<FileEntry>,
    root: Doc,
    stack: Seq<Seq<Seq<char>>>,
    d: Doc,
    dir: Seq<Seq<char>>,
    ctx: Option<Doc>,
)
    requires
        !(d is Mapping),
        rewrite_spec(files, root, stack, d, dir, ctx) is Ok,
    ensures
        !(rewrite_spec(files, root, stack, d, dir, ctx)->Ok_0 is Mapping),
{
}

pub proof fn lemma_passes_keep_non_mapping(files: Seq<FileEntry>, root: Doc, dir: Seq<Seq<char>>, d: Doc, n: nat)
    requires
        !(d is Mapping),
        passes(files, root, dir, d, n) is Ok,
    ensures
        !(passes(files, root, dir, d, n)->Ok_0 is Mapping),
    decreases n,
{
    if n > 0 {
        lemma_rewrite_keeps_non_mapping(files, root, Seq::empty(), d, dir, None);
        let d1 = rewrite_spec(files, root, Seq::empty(), d, dir, None)->Ok_0;
        lemma_passes_keep_non_mapping(files, root, dir, d1, (n - 1) as nat);
    }
}

pub proof fn lemma_post_passes_keep_non_mapping(d: Doc)
    requires
        !(d is Mapping),
    ensures
        !(reduced_document(sanitized(cleaned(d))) is Mapping),
        seeded(reduced_document(sanitized(cleaned(d)))) == reduced_document(sanitized(cleaned(d))),
{
    lemma_sanitized_kind(cleaned(d));
}

/// The document is a mapping without a `$ref` key whose `definitions`
/// entry is there and is not a mapping, so that seeding adds nothing.
pub open spec fn plain_definitions(d: Doc) -> bool {
    match d {
        Doc::Mapping(es) => map_get(es, "$ref"@) is None && match map_get(es, "definitions"@) {
            Some(v) => !(v is Mapping),
            None => false,
        },
        _ => false,
    }
}

pub proof fn lemma_plain_same_keys(es: Seq<(Seq<char>, Doc)>, fs: Seq<(Seq<char>, Doc)>)
    requires
        plain_definitions(Doc::Mapping(es)),
        same_keys(es, fs),
        !(fs[key_index(fs, "definitions"@) as int].1 is Mapping),
    ensures
        plain_definitions(Doc::Mapping(fs)),
{
    lemma_same_keys_get(es, fs, "$ref"@);
    lemma_same_keys_get(es, fs, "definitions"@);
}

pub proof fn lemma_seeded_plain(d: Doc)
    requires
        plain_definitions(d),
    ensures
        seeded(d) == d,
{
    lemma_key_index(d->Mapping_0, "definitions"@);
}

pub proof fn lemma_passes_keep_plain(files: Seq<FileEntry>, root: Doc, dir: Seq<Seq<char>>, d: Doc, n: nat)
    requires
        plain_definitions(d),
        passes(files, root, dir, d, n) is Ok,
    ensures
        plain_definitions(passes(files, root, dir, d, n)->Ok_0),
    decreases n,
{
    if n > 0 {
        let es = d->Mapping_0;
        lemma_rewrite_entries_shape(files, root, Seq::empty(), es, dir, None);
        let es2 = rewrite_entries_spec(files, root, Seq::empty(), es, dir, None)->Ok_0;
        lemma_key_index(es, "definitions"@);
        lemma_same_keys_get(es, es2, "definitions"@);
        let k = key_index(es, "definitions"@) as int;
        lemma_rewrite_keeps_non_mapping(files, root, Seq::empty(), es[k].1, dir, None);
        lemma_plain_same_keys(es, es2);
        lemma_passes_keep_plain(files, root, dir, Doc::Mapping(es2), (n - 1) as nat);
    }
}

pub proof fn lemma_post_passes_keep_plain(d: Doc)
    requires
        plain_definitions(d),
    ensures
        plain_definitions(reduced_document(sanitized(cleaned(d)))),
{
    let es = d->Mapping_0;
    lemma_key_index(es, "definitions"@);
    let k = key_index(es, "definitions"@) as int;
    lemma_cleaned_same_keys(es);
    let ces = cleaned(d)->Mapping_0;
    lemma_same_keys_get(es, ces, "definitions"@);
    lemma_plain_same_keys(es, ces);
    lemma_sanitized_mapping(ces);
    let ses = sanitized(cleaned(d))->Mapping_0;
    assert(same_keys(ces, ses));
    lemma_same_keys_get(ces, ses, "definitions"@);
    lemma_sanitized_kind(ces[k].1);
    lemma_plain_same_keys(ces, ses);
    let p = key_index(ses, "paths"@) as int;
    lemma_key_index(ses, "paths"@);
    lemma_key_index(ses, "definitions"@);
    reveal_strlit("paths");
    reveal_strlit("definitions");
    assert("paths"@.len() != "definitions"@.len());
    if p < ses.len() {
        match ses[p].1 {
            Doc::Mapping(ps) => {
                let ps2 = Seq::new(ps.len(), |j: int| (ps[j].0, reduced_path_item(ps[j].1)));
                let res = ses.update(p, (ses[p].0, Doc::Mapping(ps2)));
                assert(same_keys(ses, res));
                lemma_same_keys_get(ses, res, "definitions"@);
                lemma_plain_same_keys(ses, res);
            },
            _ => {},
        }
    }
}

/// Neither the root nor its `definitions` entry is a reference node.
pub open spec fn references_below_top(root: Doc) -> bool {
    match root {
        Doc::Mapping(es) => map_get(es, "$ref"@) is None && match map_get(es, "definitions"@) {
            Some(Doc::Mapping(ds)) => map_get(ds, "$ref"@) is None,
            _ => true,
        },
        _ => true,
    }
}

/// Resolving a resolved document again returns it unchanged, for every root
/// that is not itself a reference node and whose `definitions` entry is not
/// one either.
pub proof fn law_run_idempotent(files: Seq<FileEntry>, base: Seq<Seq<char>>, root: Doc)
    requires
        references_below_top(root),
        resolved_document(files, base, root) is Ok,
    ensures
        resolved_document(files, base, resolved_document(files, base, root)->Ok_0) == resolved_document(
            files,
            base,
            root,
        ),
{
    let s = seeded(root);
    match root {
        Doc::Mapping(es) => {
            match map_get(es, "definitions"@) {
                Some(Doc::Mapping(_)) => law_run_keeps_definitions(files, base, es),
                None => law_run_keeps_definitions(files, base, es),
                Some(_) => {
                    lemma_seeded_plain(root);
                    lemma_passes_keep_plain(files, s, base, s, RESOLUTION_PASSES as nat);
                    let p = passes(files, s, base, s, RESOLUTION_PASSES as nat)->Ok_0;
                    lemma_post_passes_keep_plain(p);
                    lemma_seeded_plain(resolved_document(files, base, root)->Ok_0);
                    lemma_run_idempotent_when_seeded(files, base, root);
                },
            }
        },
        _ => {
            lemma_passes_keep_non_mapping(files, s, base, s, RESOLUTION_PASSES as nat);
            let p = passes(files, s, base, s, RESOLUTION_PASSES as nat)->Ok_0;
            lemma_post_passes_keep_non_mapping(p);
            lemma_run_idempotent_when_seeded(files, base, root);
        },
    }
}

} // verus!
