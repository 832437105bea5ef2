//! Reduction of each operation's responses to a single response shape.
use vstd::prelude::*;
use crate::doc::{
    well_formed,
    entries_view, key_index, key_position, lemma_key_index, lemma_mapping_view, Doc, Node,
};
use crate::synthesis::copy_entries;
use crate::text::{chars_of, same_text};

verus! {

/// The HTTP methods under which a path item holds operations.
pub open spec fn is_http_method(k: Seq<char>) -> bool {
    k == "get"@ || k == "post"@ || k == "put"@ || k == "patch"@ || k == "delete"@ || k == "head"@
        || k == "options"@ || k == "trace"@
}

/// A three-character status beginning with `2`.
pub open spec fn is_success_status(k: Seq<char>) -> bool {
    k.len() == 3 && k[0] == '2'
}

/// The classes of status keys that the reduction looks for: success
/// statuses, keys other than `default`, and `default`.
pub open spec fn in_class(k: Seq<char>, class: u8) -> bool {
    if class == 0 {
        is_success_status(k)
    } else if class == 1 {
        k != "default"@
    } else {
        k == "default"@
    }
}

/// The position of the first entry whose key is in the class, or the number
/// of entries.
pub open spec fn first_of_class(rs: Seq<(Seq<char>, Doc)>, class: u8) -> nat
    decreases rs.len(),
{
    if rs.len() == 0 {
        0
    } else if in_class(rs[0].0, class) {
        0
    } else {
        1 + first_of_class(rs.drop_first(), class)
    }
}

/// The number of entries with a success status.
pub open spec fn success_count(rs: Seq<(Seq<char>, Doc)>) -> nat
    decreases rs.len(),
{
    if rs.len() == 0 {
        0
    } else {
        (if is_success_status(rs[0].0) {
            1nat
        } else {
            0nat
        }) + success_count(rs.drop_first())
    }
}

/// A response with only its first content type, when it has several.
pub open spec fn first_content_only(v: Doc) -> Doc {
    match v {
        Doc::Mapping(es) => {
            let i = key_index(es, "content"@) as int;
            if i < es.len() {
                match es[i].1 {
                    Doc::Mapping(cs) => if cs.len() > 1 {
                        Doc::Mapping(es.update(i, (es[i].0, Doc::Mapping(seq![cs[0]]))))
                    } else {
                        v
                    },
                    _ => v,
                }
            } else {
                v
            }
        },
        _ => v,
    }
}

/// The one response kept: the first success (with its first content type
/// only), else the first entry other than `default`, else `default`.
pub open spec fn single_response(rs: Seq<(Seq<char>, Doc)>) -> Seq<(Seq<char>, Doc)> {
    let s = first_of_class(rs, 0) as int;
    let o = first_of_class(rs, 1) as int;
    let d = first_of_class(rs, 2) as int;
    if s < rs.len() {
        seq![(rs[s].0, first_content_only(rs[s].1))]
    } else if o < rs.len() {
        seq![rs[o]]
    } else if d < rs.len() {
        seq![rs[d]]
    } else {
        Seq::empty()
    }
}

/// Whether a responses mapping is reduced: more than one success status, or
/// more than two entries.
pub open spec fn needs_reduction(rs: Seq<(Seq<char>, Doc)>) -> bool {
    success_count(rs) > 1 || rs.len() > 2
}

pub open spec fn reduced_responses(rs: Seq<(Seq<char>, Doc)>) -> Seq<(Seq<char>, Doc)> {
    if needs_reduction(rs) {
        single_response(rs)
    } else {
        rs
    }
}

/// An operation with its `responses` mapping reduced.
pub open spec fn reduced_operation(op: Doc) -> Doc {
    match op {
        Doc::Mapping(es) => {
            let i = key_index(es, "responses"@) as int;
            if i < es.len() {
                match es[i].1 {
                    Doc::Mapping(rs) => Doc::Mapping(
                        es.update(i, (es[i].0, Doc::Mapping(reduced_responses(rs)))),
                    ),
                    _ => op,
                }
            } else {
                op
            }
        },
        _ => op,
    }
}

/// A path item with each of its operations reduced.
pub open spec fn reduced_path_item(p: Doc) -> Doc {
    match p {
        Doc::Mapping(es) => Doc::Mapping(
            Seq::new(
                es.len(),
                |i: int|
                    (
                        es[i].0,
                        if is_http_method(es[i].0) {
                            reduced_operation(es[i].1)
                        } else {
                            es[i].1
                        },
                    ),
            ),
        ),
        _ => p,
    }
}

/// A document with every operation under `paths` reduced.
pub open spec fn reduced_document(d: Doc) -> Doc {
    match d {
        Doc::Mapping(es) => {
            let i = key_index(es, "paths"@) as int;
            if i < es.len() {
                match es[i].1 {
                    Doc::Mapping(ps) => Doc::Mapping(
                        es.update(
                            i,
                            (
                                es[i].0,
                                Doc::Mapping(
                                    Seq::new(ps.len(), |j: int| (ps[j].0, reduced_path_item(ps[j].1))),
                                ),
                            ),
                        ),
                    ),
                    _ => d,
                }
            } else {
                d
            }
        },
        _ => d,
    }
}

pub proof fn lemma_first_of_class_unique(rs: Seq<(Seq<char>, Doc)>, class: u8, r: int)
    requires
        0 <= r <= rs.len(),
        forall|j: int| 0 <= j < r ==> !in_class(#[trigger] rs[j].0, class),
        r < rs.len() ==> in_class(rs[r].0, class),
    ensures
        first_of_class(rs, class) == r,
    decreases rs.len(),
{
    if rs.len() > 0 && r > 0 {
        assert forall|j: int| 0 <= j < r - 1 implies !in_class(#[trigger] rs.drop_first()[j].0, class) by {
            assert(rs.drop_first()[j] == rs[j + 1]);
        }
        lemma_first_of_class_unique(rs.drop_first(), class, r - 1);
    }
}

fn key_in_class(k: &String, class: u8) -> (r: bool)
    ensures
        r == in_class(k@, class),
{
    if class == 0 {
        let cs = chars_of(k.as_str());
        cs.len() == 3 && cs[0] == '2'
    } else if class == 1 {
        !same_text(k.as_str(), "default")
    } else {
        same_text(k.as_str(), "default")
    }
}

fn find_class(rs: &Vec<(String, Node)>, class: u8) -> (r: usize)
    ensures
        r == first_of_class(entries_view(rs@), class),
{
    let ghost rv = entries_view(rs@);
    let mut i: usize = 0;
    while i < rs.len()
        invariant
            i <= rs.len(),
            rv == entries_view(rs@),
            forall|j: int| 0 <= j < i ==> !in_class(#[trigger] rv[j].0, class),
        decreases rs.len() - i,
    {
        if key_in_class(&rs[i].0, class) {
            proof {
                lemma_first_of_class_unique(rv, class, i as int);
            }
            return i;
        }
        i += 1;
    }
    proof {
        lemma_first_of_class_unique(rv, class, i as int);
    }
    i
}

fn count_successes(rs: &Vec<(String, Node)>) -> (r: usize)
    ensures
        r == success_count(entries_view(rs@)),
{
    let ghost rv = entries_view(rs@);
    let mut n: usize = 0;
    let mut i: usize = 0;
    assert(rv.subrange(0, rv.len() as int) == rv);
    while i < rs.len()
        invariant
            i <= rs.len(),
            n <= i,
            rv == entries_view(rs@),
            n + success_count(rv.subrange(i as int, rv.len() as int)) == success_count(rv),
        decreases rs.len() - i,
    {
        let ghost tail = rv.subrange(i as int, rv.len() as int);
        assert(tail[0] == rv[i as int]);
        assert(tail.drop_first() == rv.subrange(i + 1, rv.len() as int));
        if key_in_class(&rs[i].0, 0) {
            n += 1;
        }
        i += 1;
    }
    n
}

fn keep_first_content(v: &Node) -> (r: Node)
    ensures
        r@ == first_content_only(v@),
{
    match v {
        Node::Mapping(es) => {
            proof {
                lemma_mapping_view(*es);
            }
            let ghost ev = entries_view(es@);
            let i = key_position(es, "content");
            proof {
                lemma_key_index(ev, "content"@);
            }
            if i < es.len() {
                match &es[i].1 {
                    Node::Mapping(cs) => {
                        if cs.len() > 1 {
                            proof {
                                lemma_mapping_view(*cs);
                            }
                            let mut out = copy_entries(es);
                            let mut first: Vec<(String, Node)> = Vec::new();
                            first.push((cs[0].0.clone(), cs[0].1.deep_copy()));
                            proof {
                                lemma_mapping_view(first);
                                assert(entries_view(first@) =~= seq![entries_view(cs@)[0]]);
                            }
                            let ghost fv = entries_view(first@);
                            out.set(i, (es[i].0.clone(), Node::Mapping(first)));
                            proof {
                                lemma_mapping_view(out);
                                assert(entries_view(out@) =~= ev.update(
                                    i as int,
                                    (ev[i as int].0, Doc::Mapping(fv)),
                                ));
                            }
                            return Node::Mapping(out);
                        }
                    },
                    _ => {},
                }
            }
            v.deep_copy()
        },
        _ => v.deep_copy(),
    }
}

/// A responses mapping's entries, reduced to one where there are more than
/// one success status or more than two entries.
pub fn reduce_responses(rs: &Vec<(String, Node)>) -> (r: Vec<(String, Node)>)
    ensures
        entries_view(r@) == reduced_responses(entries_view(rs@)),
{
    let ghost rv = entries_view(rs@);
    if !(count_successes(rs) > 1 || rs.len() > 2) {
        return copy_entries(rs);
    }
    let mut out: Vec<(String, Node)> = Vec::new();
    let s = find_class(rs, 0);
    if s < rs.len() {
        out.push((rs[s].0.clone(), keep_first_content(&rs[s].1)));
        assert(entries_view(out@) =~= single_response(rv));
        return out;
    }
    let o = find_class(rs, 1);
    if o < rs.len() {
        out.push((rs[o].0.clone(), rs[o].1.deep_copy()));
        assert(entries_view(out@) =~= single_response(rv));
        return out;
    }
    let d = find_class(rs, 2);
    if d < rs.len() {
        out.push((rs[d].0.clone(), rs[d].1.deep_copy()));
    }
    assert(entries_view(out@) =~= single_response(rv));
    out
}

fn reduce_operation(op: &Node) -> (r: Node)
    ensures
        r@ == reduced_operation(op@),
{
    match op {
        Node::Mapping(es) => {
            proof {
                lemma_mapping_view(*es);
            }
            let ghost ev = entries_view(es@);
            let i = key_position(es, "responses");
            if i < es.len() {
                match &es[i].1 {
                    Node::Mapping(rs) => {
                        proof {
                            lemma_mapping_view(*rs);
                        }
                        let reduced = reduce_responses(rs);
                        let ghost nv = entries_view(reduced@);
                        let mut out = copy_entries(es);
                        out.set(i, (es[i].0.clone(), Node::Mapping(reduced)));
                        proof {
                            lemma_mapping_view(reduced);
                            lemma_mapping_view(out);
                            assert(entries_view(out@) =~= ev.update(
                                i as int,
                                (ev[i as int].0, Doc::Mapping(nv)),
                            ));
                        }
                        return Node::Mapping(out);
                    },
                    _ => {},
                }
            }
            op.deep_copy()
        },
        _ => op.deep_copy(),
    }
}

fn is_method(k: &String) -> (r: bool)
    ensures
        r == is_http_method(k@),
{
    let s = k.as_str();
    same_text(s, "get") || same_text(s, "post") || same_text(s, "put") || same_text(s, "patch")
        || same_text(s, "delete") || same_text(s, "head") || same_text(s, "options") || same_text(
        s,
        "trace",
    )
}

fn reduce_path_item(p: &Node) -> (r: Node)
    ensures
        r@ == reduced_path_item(p@),
{
    match p {
        Node::Mapping(es) => {
            proof {
                lemma_mapping_view(*es);
            }
            let ghost ev = entries_view(es@);
            let mut out: Vec<(String, Node)> = Vec::new();
            let mut i: usize = 0;
            while i < es.len()
                invariant
                    i <= es.len(),
                    ev == entries_view(es@),
                    out.len() == i,
                    forall|k: int|
                        0 <= k < i ==> #[trigger] out@[k].0@ == ev[k].0 && out@[k].1@ == (
                        if is_http_method(ev[k].0) {
                            reduced_operation(ev[k].1)
                        } else {
                            ev[k].1
                        }),
                decreases es.len() - i,
            {
                assert(ev[i as int] == (es@[i as int].0@, es@[i as int].1@));
                let v = if is_method(&es[i].0) {
                    reduce_operation(&es[i].1)
                } else {
                    es[i].1.deep_copy()
                };
                out.push((es[i].0.clone(), v));
                i += 1;
            }
            proof {
                lemma_mapping_view(out);
                assert(entries_view(out@) =~= match reduced_path_item(p@) {
                    Doc::Mapping(s) => s,
                    _ => Seq::empty(),
                });
            }
            Node::Mapping(out)
        },
        _ => p.deep_copy(),
    }
}

/// Reduces every operation under `paths` to a single response shape.
pub fn deduplicate_response_types(doc: &Node) -> (r: Node)
    ensures
        r@ == reduced_document(doc@),
        well_formed(doc@) ==> well_formed(r@),
{
    proof {
        if well_formed(doc@) {
            crate::validity::lemma_reduced_valid(doc@);
        }
    }
    match doc {
        Node::Mapping(es) => {
            proof {
                lemma_mapping_view(*es);
            }
            let ghost ev = entries_view(es@);
            let i = key_position(es, "paths");
            if i < es.len() {
                match &es[i].1 {
                    Node::Mapping(ps) => {
                        proof {
                            lemma_mapping_view(*ps);
                        }
                        let ghost pv = entries_view(ps@);
                        let mut items: Vec<(String, Node)> = Vec::new();
                        let mut j: usize = 0;
                        while j < ps.len()
                            invariant
                                j <= ps.len(),
                                pv == entries_view(ps@),
                                items.len() == j,
                                forall|k: int|
                                    0 <= k < j ==> #[trigger] items@[k].0@ == pv[k].0
                                        && items@[k].1@ == reduced_path_item(pv[k].1),
                            decreases ps.len() - j,
                        {
                            items.push((ps[j].0.clone(), reduce_path_item(&ps[j].1)));
                            j += 1;
                        }
                        let ghost iv = entries_view(items@);
                        assert(iv =~= Seq::new(pv.len(), |k: int| (pv[k].0, reduced_path_item(pv[k].1))));
                        let mut out = copy_entries(es);
                        out.set(i, (es[i].0.clone(), Node::Mapping(items)));
                        proof {
                            lemma_mapping_view(items);
                            lemma_mapping_view(out);
                            assert(entries_view(out@) =~= ev.update(i as int, (ev[i as int].0, Doc::Mapping(iv))));
                        }
                        return Node::Mapping(out);
                    },
                    _ => {},
                }
            }
            doc.deep_copy()
        },
        _ => doc.deep_copy(),
    }
}

} // verus!
