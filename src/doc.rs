//! The document model: a tagged tree of nulls, booleans, numbers, strings,
//! sequences and mappings, with its mathematical view.
use vstd::prelude::*;
use crate::text::same_text;

verus! {

/// The mathematical value of a document node. A mapping is an ordered list of
/// entries; a lookup finds the first entry with the key.
pub enum Doc {
    Null,
    Bool(bool),
    Number(Seq<char>),
    Str(Seq<char>),
    Sequence(Seq<Doc>),
    Mapping(Seq<(Seq<char>, Doc)>),
}

/// A parsed document node. Numbers keep their literal text.
#[derive(Debug, PartialEq)]
pub enum Node {
    Null,
    Bool(bool),
    Number(String),
    Str(String),
    Sequence(Vec<Node>),
    Mapping(Vec<(String, Node)>),
}

impl View for Node {
    type V = Doc;

    open spec fn view(&self) -> Doc
        decreases self,
    {
        match self {
            Node::Null => Doc::Null,
            Node::Bool(b) => Doc::Bool(*b),
            Node::Number(s) => Doc::Number(s@),
            Node::Str(s) => Doc::Str(s@),
            Node::Sequence(items) => Doc::Sequence(
                Seq::new(
                    items.len() as nat,
                    |i: int|
                        if 0 <= i < items.len() {
                            items[i].view()
                        } else {
                            Doc::Null
                        },
                ),
            ),
            Node::Mapping(entries) => Doc::Mapping(
                Seq::new(
                    entries.len() as nat,
                    |i: int|
                        (
                            entries[i].0@,
                            if 0 <= i < entries.len() {
                                entries[i].1.view()
                            } else {
                                Doc::Null
                            },
                        ),
                ),
            ),
        }
    }
}

/// The number of nodes in a document.
pub open spec fn doc_size(d: Doc) -> nat
    decreases d, 0nat,
{
    match d {
        Doc::Sequence(items) => 1 + items_size(items),
        Doc::Mapping(es) => 1 + entries_size(es),
        _ => 1,
    }
}

pub open spec fn items_size(items: Seq<Doc>) -> nat
    decreases items, 0nat,
{
    if items.len() == 0 {
        0
    } else {
        doc_size(items[0]) + items_size(items.drop_first())
    }
}

pub open spec fn entries_size(es: Seq<(Seq<char>, Doc)>) -> nat
    decreases es, 0nat,
{
    if es.len() == 0 {
        0
    } else {
        doc_size(es[0].1) + entries_size(es.drop_first())
    }
}

pub proof fn lemma_doc_size_positive(d: Doc)
    ensures
        doc_size(d) >= 1,
{
}

pub proof fn lemma_item_size_bound(items: Seq<Doc>, i: int)
    requires
        0 <= i < items.len(),
    ensures
        doc_size(items[i]) <= items_size(items),
    decreases items.len(),
{
    if i > 0 {
        lemma_item_size_bound(items.drop_first(), i - 1);
    }
}

pub proof fn lemma_entry_size_bound(es: Seq<(Seq<char>, Doc)>, i: int)
    requires
        0 <= i < es.len(),
    ensures
        doc_size(es[i].1) <= entries_size(es),
    decreases es.len(),
{
    if i > 0 {
        lemma_entry_size_bound(es.drop_first(), i - 1);
    }
}

/// No two entries of a mapping have the same key.
pub open spec fn distinct_keys(es: Seq<(Seq<char>, Doc)>) -> bool {
    forall|i: int, j: int|
        #![trigger es[i], es[j]]
        0 <= i < es.len() && 0 <= j < es.len() && i != j ==> es[i].0 != es[j].0
}

/// The document is valid: every mapping in it has distinct keys.
pub open spec fn well_formed(d: Doc) -> bool
    decreases d,
{
    match d {
        Doc::Mapping(es) => distinct_keys(es) && forall|i: int|
            0 <= i < es.len() ==> well_formed(#[trigger] es[i].1),
        Doc::Sequence(items) => forall|i: int| 0 <= i < items.len() ==> well_formed(#[trigger] items[i]),
        _ => true,
    }
}

/// The views of a list of nodes.
pub open spec fn items_view(items: Seq<Node>) -> Seq<Doc> {
    Seq::new(items.len(), |i: int| items[i]@)
}

/// The views of a list of mapping entries.
pub open spec fn entries_view(entries: Seq<(String, Node)>) -> Seq<(Seq<char>, Doc)> {
    Seq::new(entries.len(), |i: int| (entries[i].0@, entries[i].1@))
}

pub proof fn lemma_sequence_view(items: Vec<Node>)
    ensures
        Node::Sequence(items)@ == Doc::Sequence(items_view(items@)),
{
    assert(items_view(items@) =~= match Node::Sequence(items)@ {
        Doc::Sequence(s) => s,
        _ => Seq::empty(),
    });
}

pub proof fn lemma_mapping_view(entries: Vec<(String, Node)>)
    ensures
        Node::Mapping(entries)@ == Doc::Mapping(entries_view(entries@)),
{
    let v = match Node::Mapping(entries)@ {
        Doc::Mapping(s) => s,
        _ => Seq::empty(),
    };
    let n = Node::Mapping(entries);
    assert(n@ is Mapping);
    assert(v.len() == entries.len());
    assert(entries_view(entries@) =~= v);
}

/// The value of the first entry whose key is `key`.
pub open spec fn map_get(entries: Seq<(Seq<char>, Doc)>, key: Seq<char>) -> Option<Doc>
    decreases entries.len(),
{
    if entries.len() == 0 {
        None
    } else if entries[0].0 == key {
        Some(entries[0].1)
    } else {
        map_get(entries.drop_first(), key)
    }
}

/// Whether some entry has the key `key`.
pub open spec fn map_has(entries: Seq<(Seq<char>, Doc)>, key: Seq<char>) -> bool {
    exists|i: int| 0 <= i < entries.len() && #[trigger] entries[i].0 == key
}

pub proof fn lemma_map_get_has(entries: Seq<(Seq<char>, Doc)>, key: Seq<char>)
    ensures
        map_get(entries, key) is Some <==> map_has(entries, key),
    decreases entries.len(),
{
    if entries.len() > 0 {
        lemma_map_get_has(entries.drop_first(), key);
        if map_has(entries, key) && entries[0].0 != key {
            let i = choose|i: int| 0 <= i < entries.len() && #[trigger] entries[i].0 == key;
            assert(entries.drop_first()[i - 1].0 == key);
        }
        if map_has(entries.drop_first(), key) {
            let i = choose|i: int|
                0 <= i < entries.drop_first().len() && #[trigger] entries.drop_first()[i].0 == key;
            assert(entries[i + 1].0 == key);
        }
    }
}

/// `map_get` from a position on: the first entry at or after `i` with the key.
pub proof fn lemma_map_get_from(entries: Seq<(Seq<char>, Doc)>, key: Seq<char>, i: int)
    requires
        0 <= i < entries.len(),
    ensures
        map_get(entries.subrange(i, entries.len() as int), key) == if entries[i].0 == key {
            Some(entries[i].1)
        } else {
            map_get(entries.subrange(i + 1, entries.len() as int), key)
        },
{
    assert(entries.subrange(i, entries.len() as int).drop_first() == entries.subrange(
        i + 1,
        entries.len() as int,
    ));
}

/// The first index at or after which the entries hold `key`, if any.
pub fn find_key(entries: &Vec<(String, Node)>, key: &str) -> (r: Option<usize>)
    ensures
        match r {
            Some(i) => i < entries.len() && entries@[i as int].0@ == key@
                && map_get(entries_view(entries@), key@) == Some(entries@[i as int].1@),
            None => map_get(entries_view(entries@), key@) is None,
        },
{
    let ghost ev = entries_view(entries@);
    let mut i: usize = 0;
    assert(ev.subrange(0, ev.len() as int) == ev);
    while i < entries.len()
        invariant
            i <= entries.len(),
            ev == entries_view(entries@),
            map_get(ev, key@) == map_get(ev.subrange(i as int, ev.len() as int), key@),
        decreases entries.len() - i,
    {
        proof {
            lemma_map_get_from(ev, key@, i as int);
        }
        if same_text(entries[i].0.as_str(), key) {
            return Some(i);
        }
        i += 1;
    }
    assert(ev.subrange(i as int, ev.len() as int).len() == 0);
    None
}

/// The position of the first entry with the key, or the number of entries
/// when there is none.
pub open spec fn key_index(entries: Seq<(Seq<char>, Doc)>, key: Seq<char>) -> nat
    decreases entries.len(),
{
    if entries.len() == 0 {
        0
    } else if entries[0].0 == key {
        0
    } else {
        1 + key_index(entries.drop_first(), key)
    }
}

pub proof fn lemma_key_index(entries: Seq<(Seq<char>, Doc)>, key: Seq<char>)
    ensures
        key_index(entries, key) <= entries.len(),
        forall|j: int| 0 <= j < key_index(entries, key) ==> #[trigger] entries[j].0 != key,
        key_index(entries, key) < entries.len() ==> entries[key_index(entries, key) as int].0 == key
            && map_get(entries, key) == Some(entries[key_index(entries, key) as int].1),
        key_index(entries, key) == entries.len() <==> map_get(entries, key) is None,
    decreases entries.len(),
{
    if entries.len() > 0 {
        lemma_key_index(entries.drop_first(), key);
        if entries[0].0 != key {
            assert forall|j: int| 0 <= j < key_index(entries, key) implies #[trigger] entries[j].0 != key by {
                if j > 0 {
                    assert(entries[j] == entries.drop_first()[j - 1]);
                }
            }
        }
    }
}

pub proof fn lemma_key_index_unique(entries: Seq<(Seq<char>, Doc)>, key: Seq<char>, r: int)
    requires
        0 <= r <= entries.len(),
        forall|j: int| 0 <= j < r ==> #[trigger] entries[j].0 != key,
        r < entries.len() ==> entries[r].0 == key,
    ensures
        key_index(entries, key) == r,
    decreases entries.len(),
{
    if entries.len() > 0 && r > 0 {
        assert forall|j: int| 0 <= j < r - 1 implies #[trigger] entries.drop_first()[j].0 != key by {
            assert(entries[j + 1].0 != key);
        }
        lemma_key_index_unique(entries.drop_first(), key, r - 1);
    }
}

/// The position of the first entry with the key, or the number of entries.
pub fn key_position(entries: &Vec<(String, Node)>, key: &str) -> (r: usize)
    ensures
        r == key_index(entries_view(entries@), key@),
{
    let ghost ev = entries_view(entries@);
    let mut i: usize = 0;
    while i < entries.len()
        invariant
            i <= entries.len(),
            ev == entries_view(entries@),
            forall|j: int| 0 <= j < i ==> #[trigger] ev[j].0 != key@,
        decreases entries.len() - i,
    {
        if same_text(entries[i].0.as_str(), key) {
            proof {
                lemma_key_index_unique(ev, key@, i as int);
            }
            return i;
        }
        i += 1;
    }
    proof {
        lemma_key_index_unique(ev, key@, i as int);
    }
    i
}

/// The value under `key` in a mapping's entries.
pub fn get_entry<'a>(entries: &'a Vec<(String, Node)>, key: &str) -> (r: Option<&'a Node>)
    ensures
        match r {
            Some(n) => map_get(entries_view(entries@), key@) == Some(n@),
            None => map_get(entries_view(entries@), key@) is None,
        },
{
    match find_key(entries, key) {
        Some(i) => Some(&entries[i].1),
        None => None,
    }
}

impl Node {
    /// A copy of the node with the same view.
    pub fn deep_copy(&self) -> (r: Node)
        ensures
            r@ == self@,
        decreases self,
    {
        match self {
            Node::Null => Node::Null,
            Node::Bool(b) => Node::Bool(*b),
            Node::Number(s) => Node::Number(s.clone()),
            Node::Str(s) => Node::Str(s.clone()),
            Node::Sequence(items) => {
                let mut out: Vec<Node> = Vec::new();
                let mut i: usize = 0;
                proof {
                    assert forall|k: int| 0 <= k < items.len() implies decreases_to!(*self => #[trigger] items@[k]) by {
                        assert(decreases_to!(items => items[k]));
                    }
                }
                while i < items.len()
                    invariant
                        forall|k: int| 0 <= k < items.len() ==> decreases_to!(*self => #[trigger] items@[k]),
                        i <= items.len(),
                        out.len() == i,
                        forall|k: int| 0 <= k < i ==> #[trigger] out@[k]@ == items@[k]@,
                    decreases items.len() - i,
                {
                    out.push(items[i].deep_copy());
                    i += 1;
                }
                proof {
                    lemma_sequence_view(out);
                    lemma_sequence_view(*items);
                    assert(items_view(out@) =~= items_view(items@));
                }
                Node::Sequence(out)
            },
            Node::Mapping(entries) => {
                let mut out: Vec<(String, Node)> = Vec::new();
                let mut i: usize = 0;
                proof {
                    assert forall|k: int| 0 <= k < entries.len() implies decreases_to!(*self => #[trigger] entries@[k].1) by {
                        assert(decreases_to!(entries => entries[k]));
                    }
                }
                while i < entries.len()
                    invariant
                        forall|k: int| 0 <= k < entries.len() ==> decreases_to!(*self => #[trigger] entries@[k].1),
                        i <= entries.len(),
                        out.len() == i,
                        forall|k: int|
                            0 <= k < i ==> #[trigger] out@[k].0@ == entries@[k].0@ && out@[k].1@
                                == entries@[k].1@,
                    decreases entries.len() - i,
                {
                    out.push((entries[i].0.clone(), entries[i].1.deep_copy()));
                    i += 1;
                }
                proof {
                    lemma_mapping_view(out);
                    lemma_mapping_view(*entries);
                    assert(entries_view(out@) =~= entries_view(entries@));
                }
                Node::Mapping(out)
            },
        }
    }

    /// A string node holding `s`.
    pub fn text(s: &str) -> (r: Node)
        ensures
            r@ == Doc::Str(s@),
    {
        Node::Str(s.to_owned())
    }
}

} // verus!
