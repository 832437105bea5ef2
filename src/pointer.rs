//! Navigation of a document by a `/`-delimited pointer, with a placeholder
//! object in place of a missing mapping key.
use vstd::prelude::*;
use crate::doc::{
    well_formed,
    entries_view, get_entry, lemma_mapping_view, lemma_sequence_view, map_get, Doc,
    Node,
};
use crate::error::{outcome_view, Fault, ResolveError};
use crate::text::{chars_of, pieces_view, split_chars, split_on, text_of, text_then};

verus! {

/// The segments that a pointer names: its `/`-separated pieces after the first.
pub open spec fn pointer_segments(p: Seq<char>) -> Seq<Seq<char>> {
    split_on(p, '/').drop_first()
}

pub open spec fn is_digit(c: char) -> bool {
    '0' as u32 <= c as u32 <= '9' as u32
}

/// Whether a segment is a decimal index.
pub open spec fn is_index(seg: Seq<char>) -> bool {
    seg.len() > 0 && forall|i: int| 0 <= i < seg.len() ==> is_digit(#[trigger] seg[i])
}

/// The number that a string of decimal digits denotes.
pub open spec fn index_value(seg: Seq<char>) -> nat
    decreases seg.len(),
{
    if seg.len() == 0 {
        0
    } else {
        index_value(seg.drop_last()) * 10 + (seg.last() as u32 - '0' as u32) as nat
    }
}

/// The placeholder that stands for a mapping key that a pointer misses.
pub open spec fn pointer_stub(seg: Seq<char>) -> Doc {
    Doc::Mapping(
        seq![
            ("type"@, Doc::Str("object"@)),
            ("description"@, Doc::Str("Auto-generated fallback definition for: "@ + seg)),
            ("additionalProperties"@, Doc::Bool(true)),
        ],
    )
}

/// A key looked up under a mapping's `definitions` entry.
pub open spec fn legacy_lookup(entries: Seq<(Seq<char>, Doc)>, seg: Seq<char>) -> Option<Doc> {
    match map_get(entries, "definitions"@) {
        Some(Doc::Mapping(defs)) => map_get(defs, seg),
        _ => None,
    }
}

/// Follows the segments from `d`, one level each.
pub open spec fn walk(d: Doc, segs: Seq<Seq<char>>) -> Result<Doc, Fault>
    decreases segs.len(),
{
    if segs.len() == 0 {
        Ok(d)
    } else {
        let seg = segs[0];
        let rest = segs.drop_first();
        match d {
            Doc::Mapping(es) => match map_get(es, seg) {
                Some(v) => walk(v, rest),
                None => match legacy_lookup(es, seg) {
                    Some(v) => walk(v, rest),
                    None => Ok(pointer_stub(seg)),
                },
            },
            Doc::Sequence(items) => if !is_index(seg) {
                Err(Fault::BadIndex(seg))
            } else if index_value(seg) < items.len() {
                walk(items[index_value(seg) as int], rest)
            } else {
                Err(Fault::IndexOutOfBounds(seg))
            },
            _ => Err(Fault::NotAContainer(seg)),
        }
    }
}

/// The node that `p` names in `d`; an empty pointer or `/` names `d` itself.
pub open spec fn pointer_target(d: Doc, p: Seq<char>) -> Result<Doc, Fault> {
    if p.len() == 0 || p == seq!['/'] {
        Ok(d)
    } else {
        walk(d, pointer_segments(p))
    }
}

/// The placeholder for a missing key `seg`.
pub fn stub_for(seg: &[char]) -> (r: Node)
    ensures
        r@ == pointer_stub(seg@),
{
    let mut es: Vec<(String, Node)> = Vec::new();
    es.push(("type".to_owned(), Node::text("object")));
    let d = text_then("Auto-generated fallback definition for: ", seg);
    es.push(("description".to_owned(), Node::Str(d)));
    es.push(("additionalProperties".to_owned(), Node::Bool(true)));
    proof {
        lemma_mapping_view(es);
        let want = seq![
            ("type"@, Doc::Str("object"@)),
            ("description"@, Doc::Str("Auto-generated fallback definition for: "@ + seg@)),
            ("additionalProperties"@, Doc::Bool(true)),
        ];
        assert(entries_view(es@) =~= want);
    }
    Node::Mapping(es)
}

/// The index that `seg` denotes, capped at `bound`, when it is a decimal index.
pub fn parse_index(seg: &[char], bound: usize) -> (r: Option<usize>)
    ensures
        match r {
            Some(v) => is_index(seg@) && v == (if index_value(seg@) < bound {
                index_value(seg@)
            } else {
                bound as nat
            }),
            None => !is_index(seg@),
        },
{
    if seg.len() == 0 {
        return None;
    }
    let mut acc: usize = 0;
    let mut i: usize = 0;
    assert(seg@.subrange(0, 0) =~= Seq::<char>::empty());
    while i < seg.len()
        invariant
            i <= seg.len(),
            forall|k: int| 0 <= k < i ==> is_digit(#[trigger] seg@[k]),
            acc == (if index_value(seg@.subrange(0, i as int)) < bound {
                index_value(seg@.subrange(0, i as int))
            } else {
                bound as nat
            }),
        decreases seg.len() - i,
    {
        let c = seg[i] as u32;
        if !('0' as u32 <= c && c <= '9' as u32) {
            assert(!is_digit(seg@[i as int]));
            return None;
        }
        let d = (c - '0' as u32) as usize;
        let ghost prev = seg@.subrange(0, i as int);
        let ghost next = seg@.subrange(0, i + 1);
        assert(next.drop_last() == prev);
        assert(index_value(next) == index_value(prev) * 10 + d);
        if acc < bound {
            if acc > (usize::MAX - d) / 10 {
                acc = bound;
            } else {
                let v = acc * 10 + d;
                acc = if v < bound {
                    v
                } else {
                    bound
                };
            }
        }
        i += 1;
    }
    assert(seg@.subrange(0, seg.len() as int) == seg@);
    Some(acc)
}

/// Follows the pointer `pointer` from `node`.
pub fn apply_pointer(node: &Node, pointer: &str) -> (r: Result<Node, ResolveError>)
    ensures
        outcome_view(r) == pointer_target(node@, pointer@),
        well_formed(node@) && r is Ok ==> well_formed(r->Ok_0@),
{
    proof {
        if well_formed(node@) && pointer_target(node@, pointer@) is Ok {
            crate::validity::lemma_pointer_target_valid(node@, pointer@);
        }
    }
    let p = chars_of(pointer);
    if p.len() == 0 || (p.len() == 1 && p[0] == '/') {
        assert(p.len() == 1 ==> p@ =~= seq!['/']);
        return Ok(node.deep_copy());
    }
    assert(p@ != seq!['/']);
    let parts = split_chars(&p, '/');
    let ghost segs = pieces_view(parts@);
    proof {
        crate::text::lemma_split_nonempty(p@, '/');
        assert(segs.drop_first() == segs.subrange(1, segs.len() as int));
    }
    let mut current: &Node = node;
    let mut k: usize = 1;
    while k < parts.len()
        invariant
            1 <= k <= parts.len(),
            segs == pieces_view(parts@),
            pointer_target(node@, pointer@) == walk(current@, segs.subrange(k as int, segs.len() as int)),
        decreases parts.len() - k,
    {
        let ghost tail = segs.subrange(k as int, segs.len() as int);
        assert(tail[0] == parts@[k as int]@);
        assert(tail.drop_first() == segs.subrange(k + 1, segs.len() as int));
        let seg = &parts[k];
        match current {
            Node::Mapping(es) => {
                proof {
                    lemma_mapping_view(*es);
                }
                let key = text_of(seg);
                match get_entry(es, key.as_str()) {
                    Some(v) => {
                        current = v;
                    },
                    None => {
                        let found = match get_entry(es, "definitions") {
                            Some(Node::Mapping(ds)) => {
                                proof {
                                    lemma_mapping_view(*ds);
                                }
                                get_entry(ds, key.as_str())
                            },
                            _ => None,
                        };
                        match found {
                            Some(v) => {
                                current = v;
                            },
                            None => {
                                proof {
                                    crate::validity::lemma_stubs_valid(Seq::empty(), seg@);
                                }
                                return Ok(stub_for(seg));
                            },
                        }
                    },
                }
            },
            Node::Sequence(items) => {
                proof {
                    lemma_sequence_view(*items);
                }
                match parse_index(seg, items.len()) {
                    None => {
                        return Err(ResolveError::BadIndex(text_of(seg)));
                    },
                    Some(n) => {
                        if n < items.len() {
                            current = &items[n];
                        } else {
                            return Err(ResolveError::IndexOutOfBounds(text_of(seg)));
                        }
                    },
                }
            },
            _ => {
                return Err(ResolveError::NotAContainer(text_of(seg)));
            },
        }
        k += 1;
    }
    assert(segs.subrange(k as int, segs.len() as int).len() == 0);
    Ok(current.deep_copy())
}

} // verus!
