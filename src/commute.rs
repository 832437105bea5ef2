//! Fixing texts and reducing responses commute, so that the run as a whole
//! is idempotent.
use vstd::prelude::*;
use crate::doc::{key_index, lemma_key_index, Doc};
use crate::laws::{lemma_key_index_same_keys, same_keys};
use crate::responses::{
    first_content_only, first_of_class, in_class, needs_reduction,
    reduced_document, reduced_operation, reduced_path_item, reduced_responses, success_count,
};
use crate::sanitize::{sanitized, sanitized_value};

verus! {

/// The entry at position `i` of a mapping whose texts are fixed.
pub open spec fn sanitized_entry(es: Seq<(Seq<char>, Doc)>, i: int) -> (Seq<char>, Doc) {
    (es[i].0, if es[i].1 is Str {
        sanitized_value(es, i, es[i].1)
    } else {
        sanitized(es[i].1)
    })
}

pub proof fn lemma_sanitized_mapping(es: Seq<(Seq<char>, Doc)>)
    ensures
        sanitized(Doc::Mapping(es)) is Mapping,
        sanitized(Doc::Mapping(es))->Mapping_0.len() == es.len(),
        forall|i: int| 0 <= i < es.len() ==> #[trigger] sanitized(Doc::Mapping(es))->Mapping_0[i]
            == sanitized_entry(es, i),
{
}

/// Fixing texts keeps the kind of a node.
pub proof fn lemma_sanitized_kind(d: Doc)
    ensures
        d is Str <==> sanitized(d) is Str,
        d is Mapping <==> sanitized(d) is Mapping,
        d is Str ==> sanitized(d) == d,
{
}

/// The fixed value at a position depends on the keys alone.
pub proof fn lemma_sanitized_value_keys(a: Seq<(Seq<char>, Doc)>, b: Seq<(Seq<char>, Doc)>, i: int, v: Doc)
    requires
        same_keys(a, b),
    ensures
        sanitized_value(a, i, v) == sanitized_value(b, i, v),
{
    lemma_key_index_same_keys(a, b, "description"@);
    lemma_key_index_same_keys(a, b, "example"@);
}

/// A value at a position whose key is neither `description` nor `example`
/// is left as it is.
pub proof fn lemma_sanitized_value_other_key(es: Seq<(Seq<char>, Doc)>, i: int, v: Doc)
    requires
        0 <= i < es.len(),
        es[i].0 != "description"@,
        es[i].0 != "example"@,
    ensures
        sanitized_value(es, i, v) == v,
{
    lemma_key_index(es, "description"@);
    lemma_key_index(es, "example"@);
}

/// The first entry of a mapping is fixed the same way alone or in place.
pub proof fn lemma_sanitized_value_first(es: Seq<(Seq<char>, Doc)>, o: int, v: Doc)
    requires
        0 <= o < es.len(),
        forall|j: int| 0 <= j < o ==> (#[trigger] es[j]).0 != "description"@ && es[j].0 != "example"@,
    ensures
        sanitized_value(seq![es[o]], 0, v) == sanitized_value(es, o, v),
{
    lemma_key_index(es, "description"@);
    lemma_key_index(es, "example"@);
    lemma_key_index(seq![es[o]], "description"@);
    lemma_key_index(seq![es[o]], "example"@);
    if es[o].0 == "description"@ {
        crate::doc::lemma_key_index_unique(es, "description"@, o);
    }
    if es[o].0 == "example"@ {
        crate::doc::lemma_key_index_unique(es, "example"@, o);
    }
}

pub proof fn lemma_class_same_keys(a: Seq<(Seq<char>, Doc)>, b: Seq<(Seq<char>, Doc)>, c: u8)
    requires
        same_keys(a, b),
    ensures
        first_of_class(a, c) == first_of_class(b, c),
        success_count(a) == success_count(b),
    decreases a.len(),
{
    if a.len() > 0 {
        assert(same_keys(a.drop_first(), b.drop_first())) by {
            assert forall|i: int| 0 <= i < a.drop_first().len() implies #[trigger] a.drop_first()[i].0
                == b.drop_first()[i].0 by {
                assert(a[i + 1].0 == b[i + 1].0);
            }
        }
        lemma_class_same_keys(a.drop_first(), b.drop_first(), c);
        assert(a[0].0 == b[0].0);
    }
}

pub proof fn lemma_first_of_class_facts(rs: Seq<(Seq<char>, Doc)>, c: u8)
    ensures
        first_of_class(rs, c) <= rs.len(),
        forall|j: int| 0 <= j < first_of_class(rs, c) ==> !in_class(#[trigger] rs[j].0, c),
        first_of_class(rs, c) < rs.len() ==> in_class(rs[first_of_class(rs, c) as int].0, c),
    decreases rs.len(),
{
    if rs.len() > 0 {
        lemma_first_of_class_facts(rs.drop_first(), c);
        if !in_class(rs[0].0, c) {
            assert forall|j: int| 0 <= j < first_of_class(rs, c) implies !in_class(#[trigger] rs[j].0, c) by {
                if j > 0 {
                    assert(rs[j] == rs.drop_first()[j - 1]);
                }
            }
        }
    }
}

/// Keeping a response's first content type commutes with fixing texts.
pub proof fn lemma_content_commutes(v: Doc)
    ensures
        sanitized(first_content_only(v)) == first_content_only(sanitized(v)),
{
    match v {
        Doc::Mapping(ves) => {
            lemma_sanitized_mapping(ves);
            let s = sanitized(v)->Mapping_0;
            assert(same_keys(ves, s));
            lemma_key_index_same_keys(ves, s, "content"@);
            let j = key_index(ves, "content"@) as int;
            if j < ves.len() {
                lemma_sanitized_kind(ves[j].1);
                match ves[j].1 {
                    Doc::Mapping(cs) => {
                        lemma_sanitized_mapping(cs);
                        if cs.len() > 1 {
                            lemma_key_index(ves, "content"@);
                            let one = seq![cs[0]];
                            let ves2 = ves.update(j, (ves[j].0, Doc::Mapping(one)));
                            assert(same_keys(ves, ves2));
                            lemma_sanitized_mapping(ves2);
                            lemma_sanitized_mapping(one);
                            let cs2 = sanitized(ves[j].1)->Mapping_0;
                            lemma_sanitized_value_first(cs, 0, cs[0].1);
                            let lhs = sanitized(Doc::Mapping(ves2))->Mapping_0;
                            let rhs = s.update(j, (s[j].0, Doc::Mapping(seq![cs2[0]])));
                            assert forall|i: int| 0 <= i < lhs.len() implies #[trigger] lhs[i] == rhs[i] by {
                                if i != j {
                                    lemma_sanitized_value_keys(ves, ves2, i, ves[i].1);
                                } else {
                                    assert(sanitized(Doc::Mapping(one))->Mapping_0 =~= seq![cs2[0]]);
                                }
                            }
                            assert(lhs =~= rhs);
                        }
                    },
                    _ => {},
                }
            }
        },
        _ => {
            lemma_sanitized_kind(v);
        },
    }
}

/// Reducing a responses mapping commutes with fixing texts.
pub proof fn lemma_responses_commute(rs: Seq<(Seq<char>, Doc)>)
    ensures
        sanitized(Doc::Mapping(reduced_responses(rs))) == Doc::Mapping(
            reduced_responses(sanitized(Doc::Mapping(rs))->Mapping_0),
        ),
{
    lemma_sanitized_mapping(rs);
    let srs = sanitized(Doc::Mapping(rs))->Mapping_0;
    assert(same_keys(rs, srs));
    lemma_class_same_keys(rs, srs, 0);
    lemma_class_same_keys(rs, srs, 1);
    lemma_class_same_keys(rs, srs, 2);
    if needs_reduction(rs) {
        reveal_strlit("description");
        reveal_strlit("example");
        reveal_strlit("default");
        assert("default"@[0] != "example"@[0]);
        assert("default"@.len() != "description"@.len());
        let s0 = first_of_class(rs, 0) as int;
        let o = first_of_class(rs, 1) as int;
        let d0 = first_of_class(rs, 2) as int;
        lemma_first_of_class_facts(rs, 0);
        lemma_first_of_class_facts(rs, 1);
        lemma_first_of_class_facts(rs, 2);
        if s0 < rs.len() {
            let one = seq![(rs[s0].0, first_content_only(rs[s0].1))];
            lemma_sanitized_mapping(one);
            assert(rs[s0].0.len() == 3);
            lemma_sanitized_value_other_key(one, 0, one[0].1);
            lemma_sanitized_value_other_key(rs, s0, rs[s0].1);
            lemma_sanitized_kind(rs[s0].1);
            lemma_content_commutes(rs[s0].1);
            match rs[s0].1 {
                Doc::Mapping(_) => {},
                _ => {
                    lemma_sanitized_kind(first_content_only(rs[s0].1));
                },
            }
            assert(sanitized(Doc::Mapping(one))->Mapping_0 =~= seq![(srs[s0].0, first_content_only(srs[s0].1))]);
        } else if o < rs.len() {
            let one = seq![rs[o]];
            lemma_sanitized_mapping(one);
            assert forall|j: int| 0 <= j < o implies (#[trigger] rs[j]).0 != "description"@ && rs[j].0
                != "example"@ by {
                assert(!in_class(rs[j].0, 1));
            }
            lemma_sanitized_value_first(rs, o, rs[o].1);
            assert(sanitized(Doc::Mapping(one))->Mapping_0 =~= seq![srs[o]]);
        } else if d0 < rs.len() {
            let one = seq![rs[d0]];
            lemma_sanitized_mapping(one);
            lemma_sanitized_value_other_key(one, 0, rs[d0].1);
            lemma_sanitized_value_other_key(rs, d0, rs[d0].1);
            assert(sanitized(Doc::Mapping(one))->Mapping_0 =~= seq![srs[d0]]);
        } else {
            lemma_sanitized_mapping(Seq::empty());
            assert(sanitized(Doc::Mapping(Seq::empty()))->Mapping_0 =~= Seq::<(Seq<char>, Doc)>::empty());
        }
    } else {
        assert(sanitized(Doc::Mapping(rs))->Mapping_0 =~= srs);
    }
}

/// Fixing texts after replacing one value that is not a string is replacing
/// that value, fixed, in the fixed mapping.
pub proof fn lemma_sanitized_update(es: Seq<(Seq<char>, Doc)>, i: int, w: Doc)
    requires
        0 <= i < es.len(),
        !(es[i].1 is Str),
        !(w is Str),
    ensures
        sanitized(Doc::Mapping(es.update(i, (es[i].0, w))))->Mapping_0 == sanitized(
            Doc::Mapping(es),
        )->Mapping_0.update(i, (es[i].0, sanitized(w))),
{
    let es2 = es.update(i, (es[i].0, w));
    lemma_sanitized_mapping(es);
    lemma_sanitized_mapping(es2);
    assert(same_keys(es, es2));
    let lhs = sanitized(Doc::Mapping(es2))->Mapping_0;
    let rhs = sanitized(Doc::Mapping(es))->Mapping_0.update(i, (es[i].0, sanitized(w)));
    assert forall|k: int| 0 <= k < lhs.len() implies #[trigger] lhs[k] == rhs[k] by {
        if k != i {
            lemma_sanitized_value_keys(es, es2, k, es[k].1);
        }
    }
    assert(lhs =~= rhs);
}

pub proof fn lemma_operation_kind(v: Doc)
    ensures
        !(v is Mapping) ==> reduced_operation(v) == v,
        v is Mapping ==> reduced_operation(v) is Mapping,
        !(v is Mapping) ==> reduced_path_item(v) == v,
        v is Mapping ==> reduced_path_item(v) is Mapping,
{
}

/// Reducing an operation's responses commutes with fixing texts.
pub proof fn lemma_operation_commutes(op: Doc)
    ensures
        sanitized(reduced_operation(op)) == reduced_operation(sanitized(op)),
{
    lemma_sanitized_kind(op);
    match op {
        Doc::Mapping(es) => {
            lemma_sanitized_mapping(es);
            let s = sanitized(op)->Mapping_0;
            assert(same_keys(es, s));
            lemma_key_index_same_keys(es, s, "responses"@);
            let i = key_index(es, "responses"@) as int;
            if i < es.len() {
                lemma_sanitized_kind(es[i].1);
                match es[i].1 {
                    Doc::Mapping(rs) => {
                        lemma_key_index(es, "responses"@);
                        lemma_responses_commute(rs);
                        lemma_sanitized_update(es, i, Doc::Mapping(reduced_responses(rs)));
                        assert(s[i].0 == es[i].0);
                    },
                    _ => {},
                }
            }
        },
        _ => {},
    }
}

/// Reducing a path item's operations commutes with fixing texts.
pub proof fn lemma_path_item_commutes(p: Doc)
    ensures
        sanitized(reduced_path_item(p)) == reduced_path_item(sanitized(p)),
{
    lemma_sanitized_kind(p);
    match p {
        Doc::Mapping(ms) => {
            lemma_sanitized_mapping(ms);
            let s = sanitized(p)->Mapping_0;
            let ms2 = reduced_path_item(p)->Mapping_0;
            lemma_sanitized_mapping(ms2);
            assert(same_keys(ms, ms2));
            let lhs = sanitized(Doc::Mapping(ms2))->Mapping_0;
            let rhs = reduced_path_item(Doc::Mapping(s))->Mapping_0;
            assert forall|k: int| 0 <= k < lhs.len() implies #[trigger] lhs[k] == rhs[k] by {
                let v = ms[k].1;
                lemma_operation_kind(v);
                lemma_sanitized_kind(v);
                lemma_sanitized_value_keys(ms, ms2, k, v);
                if !(v is Str) {
                    lemma_operation_commutes(v);
                    lemma_operation_kind(sanitized(v));
                } else {
                    lemma_operation_kind(sanitized_value(ms, k, v));
                }
            }
            assert(lhs =~= rhs);
        },
        _ => {},
    }
}

/// Reducing responses commutes with fixing texts.
pub proof fn lemma_document_commutes(d: Doc)
    ensures
        sanitized(reduced_document(d)) == reduced_document(sanitized(d)),
{
    lemma_sanitized_kind(d);
    match d {
        Doc::Mapping(es) => {
            lemma_sanitized_mapping(es);
            let s = sanitized(d)->Mapping_0;
            assert(same_keys(es, s));
            lemma_key_index_same_keys(es, s, "paths"@);
            let i = key_index(es, "paths"@) as int;
            if i < es.len() {
                lemma_sanitized_kind(es[i].1);
                match es[i].1 {
                    Doc::Mapping(ps) => {
                        lemma_key_index(es, "paths"@);
                        let ps2 = Seq::new(ps.len(), |j: int| (ps[j].0, reduced_path_item(ps[j].1)));
                        lemma_sanitized_update(es, i, Doc::Mapping(ps2));
                        lemma_sanitized_mapping(ps);
                        lemma_sanitized_mapping(ps2);
                        assert(same_keys(ps, ps2));
                        let sp = sanitized(es[i].1)->Mapping_0;
                        let lhs = sanitized(Doc::Mapping(ps2))->Mapping_0;
                        let rhs = Seq::new(sp.len(), |j: int| (sp[j].0, reduced_path_item(sp[j].1)));
                        assert forall|j: int| 0 <= j < lhs.len() implies #[trigger] lhs[j] == rhs[j] by {
                            let v = ps[j].1;
                            lemma_operation_kind(v);
                            lemma_sanitized_kind(v);
                            lemma_sanitized_value_keys(ps, ps2, j, v);
                            if !(v is Str) {
                                lemma_path_item_commutes(v);
                            } else {
                                lemma_operation_kind(sanitized_value(ps, j, v));
                            }
                        }
                        assert(lhs =~= rhs);
                        assert(s[i].0 == es[i].0);
                    },
                    _ => {},
                }
            }
        },
        _ => {},
    }
}

} // verus!
