//! Resolution of `$ref` nodes: internal pointers, other files, and pointers
//! into other files, with cycle detection by canonical path.
use vstd::prelude::*;
use crate::doc::{
    doc_size, entries_size, lemma_doc_size_positive, entries_view, lemma_entry_size_bound, lemma_item_size_bound, get_entry, items_size, items_view, lemma_mapping_view,
    lemma_sequence_view, map_get, Doc, Node,
};
use crate::error::{copy_texts, outcome_view, Fault, ResolveError};
use crate::path::{join_path, parent_path, DocPath};
use crate::pointer::{apply_pointer, pointer_target};
use crate::store::{file_get, lemma_distinct_stored_bound, FileEntry, FileStore};
use crate::text::{
    chars_of, find_char, has_prefix, position_of, replace_all, replace_text, starts_with_text,
    sub_chars, text_of,
};

verus! {

/// The prefix of a reference that climbs one level too many, and what it
/// stands for.
pub const OVERCLIMBING_PREFIX: &'static str = "../../../shared/";

pub const SHARED_PREFIX: &'static str = "shared/";

/// The part of a reference before its first `#`.
pub open spec fn ref_file_part(r: Seq<char>) -> Seq<char> {
    r.subrange(0, find_char(r, '#') as int)
}

/// The part of a reference after its first `#`, if it has one.
pub open spec fn ref_pointer(r: Seq<char>) -> Option<Seq<char>> {
    if find_char(r, '#') < r.len() {
        Some(r.subrange(find_char(r, '#') as int + 1, r.len() as int))
    } else {
        None
    }
}

/// The placeholder for a reference to a file that does not exist.
pub open spec fn missing_file_stub() -> Doc {
    Doc::Mapping(
        seq![
            ("type"@, Doc::Str("object"@)),
            ("description"@, Doc::Str("Fallback schema for missing file reference"@)),
            ("additionalProperties"@, Doc::Bool(true)),
        ],
    )
}

/// A pointer taken first in the file-local context, then, if that fails, in
/// the root document.
pub open spec fn internal_target(root: Doc, p: Seq<char>, ctx: Option<Doc>) -> Result<Doc, Fault> {
    match ctx {
        Some(c) => match pointer_target(c, p) {
            Ok(d) => Ok(d),
            Err(_) => pointer_target(root, p),
        },
        None => pointer_target(root, p),
    }
}

/// The canonical path that a file reference names from `dir`; a reference
/// that climbs one level too many and names no stored file is read without
/// the extra levels.
pub open spec fn target_path(files: Seq<FileEntry>, dir: Seq<Seq<char>>, file_part: Seq<char>) -> Seq<Seq<char>> {
    let cand = join_path(dir, file_part);
    if file_get(files, cand) is None && has_prefix(file_part, OVERCLIMBING_PREFIX@) {
        join_path(dir, replace_all(file_part, OVERCLIMBING_PREFIX@, SHARED_PREFIX@))
    } else {
        cand
    }
}

/// What the reference `r`, met in directory `dir` with file-local context
/// `ctx`, resolves to while the files in `stack` are being resolved. A file
/// already on the stack is a cycle. The stack also counts as full when it is
/// as long as the store: that clause only bounds the recursion, and never
/// applies while the stack holds distinct stored paths (`Resolver::wf`, and
/// `lemma_distinct_stored_bound`).
pub open spec fn resolve_spec(
    files: Seq<FileEntry>,
    root: Doc,
    stack: Seq<Seq<Seq<char>>>,
    r: Seq<char>,
    dir: Seq<Seq<char>>,
    ctx: Option<Doc>,
) -> Result<Doc, Fault>
    decreases files.len() - stack.len(), 0nat, 0nat,
{
    let fp = ref_file_part(r);
    if fp.len() == 0 {
        internal_target(
            root,
            match ref_pointer(r) {
                Some(p) => p,
                None => Seq::empty(),
            },
            ctx,
        )
    } else {
        let path = target_path(files, dir, fp);
        match file_get(files, path) {
            None => Ok(missing_file_stub()),
            Some(loaded) => if stack.contains(path) || stack.len() >= files.len() {
                Err(Fault::Circular(path))
            } else {
                match loaded {
                    Err(e) => Err(e),
                    Ok(d) => match rewrite_spec(
                        files,
                        root,
                        stack.push(path),
                        d,
                        parent_path(path),
                        Some(d),
                    ) {
                        Err(e) => Err(e),
                        Ok(rd) => match ref_pointer(r) {
                            Some(p) => if p.len() > 0 {
                                pointer_target(rd, p)
                            } else {
                                Ok(rd)
                            },
                            None => Ok(rd),
                        },
                    },
                }
            },
        }
    }
}

/// `d` with every reference node replaced by what it resolves to; the first
/// failure, in document order, ends the walk. A mapping with a `$ref` entry
/// is a reference node whatever its other entries; one whose `$ref` is not a
/// string names nothing and is left whole, for cleanup.
pub open spec fn rewrite_spec(
    files: Seq<FileEntry>,
    root: Doc,
    stack: Seq<Seq<Seq<char>>>,
    d: Doc,
    dir: Seq<Seq<char>>,
    ctx: Option<Doc>,
) -> Result<Doc, Fault>
    decreases files.len() - stack.len(), doc_size(d), 0nat,
{
    match d {
        Doc::Mapping(es) => match map_get(es, "$ref"@) {
            Some(Doc::Str(r)) => resolve_spec(files, root, stack, r, dir, ctx),
            Some(_) => Ok(d),
            None => match rewrite_entries_spec(files, root, stack, es, dir, ctx) {
                Ok(es2) => Ok(Doc::Mapping(es2)),
                Err(e) => Err(e),
            },
        },
        Doc::Sequence(items) => match rewrite_items_spec(files, root, stack, items, dir, ctx) {
            Ok(items2) => Ok(Doc::Sequence(items2)),
            Err(e) => Err(e),
        },
        _ => Ok(d),
    }
}

pub open spec fn rewrite_items_spec(
    files: Seq<FileEntry>,
    root: Doc,
    stack: Seq<Seq<Seq<char>>>,
    items: Seq<Doc>,
    dir: Seq<Seq<char>>,
    ctx: Option<Doc>,
) -> Result<Seq<Doc>, Fault>
    decreases files.len() - stack.len(), items_size(items), 1nat,
{
    if items.len() == 0 {
        Ok(Seq::empty())
    } else {
        proof {
            lemma_doc_size_positive(items[0]);
        }
        match rewrite_spec(files, root, stack, items[0], dir, ctx) {
            Err(e) => Err(e),
            Ok(d0) => match rewrite_items_spec(files, root, stack, items.drop_first(), dir, ctx) {
                Err(e) => Err(e),
                Ok(rest) => Ok(seq![d0] + rest),
            },
        }
    }
}

pub open spec fn rewrite_entries_spec(
    files: Seq<FileEntry>,
    root: Doc,
    stack: Seq<Seq<Seq<char>>>,
    es: Seq<(Seq<char>, Doc)>,
    dir: Seq<Seq<char>>,
    ctx: Option<Doc>,
) -> Result<Seq<(Seq<char>, Doc)>, Fault>
    decreases files.len() - stack.len(), entries_size(es), 1nat,
{
    if es.len() == 0 {
        Ok(Seq::empty())
    } else {
        proof {
            lemma_doc_size_positive(es[0].1);
        }
        match rewrite_spec(files, root, stack, es[0].1, dir, ctx) {
            Err(e) => Err(e),
            Ok(d0) => match rewrite_entries_spec(files, root, stack, es.drop_first(), dir, ctx) {
                Err(e) => Err(e),
                Ok(rest) => Ok(seq![(es[0].0, d0)] + rest),
            },
        }
    }
}

} // verus!

verus! {

/// The view of an optional file-local context.
pub open spec fn ctx_doc(c: Option<&Node>) -> Option<Doc> {
    match c {
        Some(n) => Some(n@),
        None => None,
    }
}

/// The views of the paths being resolved.
pub open spec fn paths_view(stack: Seq<DocPath>) -> Seq<Seq<Seq<char>>> {
    Seq::new(stack.len(), |i: int| stack[i]@)
}

/// `done` before a rewritten rest, or the rest's failure.
pub open spec fn after_items(done: Seq<Doc>, rest: Result<Seq<Doc>, Fault>) -> Result<Seq<Doc>, Fault> {
    match rest {
        Ok(t) => Ok(done + t),
        Err(e) => Err(e),
    }
}

pub open spec fn after_entries(
    done: Seq<(Seq<char>, Doc)>,
    rest: Result<Seq<(Seq<char>, Doc)>, Fault>,
) -> Result<Seq<(Seq<char>, Doc)>, Fault> {
    match rest {
        Ok(t) => Ok(done + t),
        Err(e) => Err(e),
    }
}

/// The placeholder for a reference to a file that does not exist.
pub fn missing_file_node() -> (r: Node)
    ensures
        r@ == missing_file_stub(),
{
    let mut es: Vec<(String, Node)> = Vec::new();
    es.push(("type".to_owned(), Node::text("object")));
    es.push(("description".to_owned(), Node::text("Fallback schema for missing file reference")));
    es.push(("additionalProperties".to_owned(), Node::Bool(true)));
    proof {
        lemma_mapping_view(es);
        assert(entries_view(es@) =~= match missing_file_stub() {
            Doc::Mapping(s) => s,
            _ => Seq::empty(),
        });
    }
    Node::Mapping(es)
}

/// The state of one resolution run: the stored files, the root document that
/// bare pointers fall back to, and the paths of the files being resolved on
/// the current chain of references.
pub struct Resolver {
    store: FileStore,
    root: Node,
    stack: Vec<DocPath>,
}

impl Resolver {
    pub closed spec fn files(&self) -> Seq<FileEntry> {
        self.store@
    }

    pub closed spec fn root_doc(&self) -> Doc {
        self.root@
    }

    pub closed spec fn resolving(&self) -> Seq<Seq<Seq<char>>> {
        paths_view(self.stack@)
    }

    /// The paths being resolved are distinct, and each names a stored file.
    pub closed spec fn wf(&self) -> bool {
        &&& self.resolving().no_duplicates()
        &&& forall|i: int|
            0 <= i < self.resolving().len() ==> file_get(self.files(), #[trigger] self.resolving()[i]) is Some
    }

    pub fn new(store: FileStore, root: Node) -> (r: Resolver)
        ensures
            r.wf(),
            r.files() == store@,
            r.root_doc() == root@,
            r.resolving() == Seq::<Seq<Seq<char>>>::empty(),
    {
        let r = Resolver { store, root, stack: Vec::new() };
        assert(r.resolving() =~= Seq::<Seq<Seq<char>>>::empty());
        r
    }

    fn on_stack(&self, p: &DocPath) -> (r: bool)
        ensures
            r == self.resolving().contains(p@),
    {
        let mut i: usize = 0;
        while i < self.stack.len()
            invariant
                i <= self.stack.len(),
                forall|k: int| 0 <= k < i ==> self.resolving()[k] != p@,
            decreases self.stack.len() - i,
        {
            if self.stack[i].same_as(p) {
                assert(self.resolving()[i as int] == p@);
                return true;
            }
            i += 1;
        }
        false
    }

    fn internal(&self, p: &str, ctx: Option<&Node>) -> (r: Result<Node, ResolveError>)
        ensures
            outcome_view(r) == internal_target(self.root_doc(), p@, ctx_doc(ctx)),
    {
        match ctx {
            Some(c) => {
                let first = apply_pointer(c, p);
                match first {
                    Ok(n) => {
                        return Ok(n);
                    },
                    Err(_) => {},
                }
            },
            None => {},
        }
        apply_pointer(&self.root, p)
    }

    /// Resolves the reference `r`, met in directory `dir` with file-local
    /// context `ctx`.
    pub fn resolve_ref(&mut self, r: &str, dir: &DocPath, ctx: Option<&Node>) -> (res: Result<
        Node,
        ResolveError,
    >)
        requires
            old(self).wf(),
        ensures
            final(self).wf(),
            final(self).files() == old(self).files(),
            final(self).root_doc() == old(self).root_doc(),
            final(self).resolving() == old(self).resolving(),
            outcome_view(res) == resolve_spec(
                old(self).files(),
                old(self).root_doc(),
                old(self).resolving(),
                r@,
                dir@,
                ctx_doc(ctx),
            ),
        decreases old(self).files().len() - old(self).resolving().len(), 0nat, 0nat,
    {
        let ghost files = self.files();
        let ghost stack = self.resolving();
        let cs = chars_of(r);
        let h = position_of(&cs, '#');
        let fp = sub_chars(&cs, 0, h);
        if fp.len() == 0 {
            let p = if h < cs.len() {
                text_of(&sub_chars(&cs, h + 1, cs.len()))
            } else {
                String::new()
            };
            return self.internal(p.as_str(), ctx);
        }
        let fp_text = text_of(&fp);
        let cand = dir.join(fp_text.as_str());
        let over = chars_of(OVERCLIMBING_PREFIX);
        proof {
            reveal_strlit("../../../shared/");
        }
        let path = if self.store.lookup(&cand).is_none() && starts_with_text(&fp, &over) {
            let fixed = replace_text(&fp, &over, &chars_of(SHARED_PREFIX));
            dir.join(text_of(&fixed).as_str())
        } else {
            cand
        };
        assert(path@ == target_path(files, dir@, fp@));
        let loaded: Result<Node, ResolveError> = match self.store.lookup(&path) {
            None => {
                return Ok(missing_file_node());
            },
            Some(Err(e)) => Err(e.duplicate()),
            Some(Ok(n)) => Ok(n.deep_copy()),
        };
        if self.on_stack(&path) {
            return Err(ResolveError::Circular(copy_texts(&path.segments)));
        }
        proof {
            assert forall|i: int| 0 <= i < stack.push(path@).len() implies file_get(
                files,
                #[trigger] stack.push(path@)[i],
            ) is Some by {
                if i < stack.len() {
                    assert(stack.push(path@)[i] == stack[i]);
                }
            }
            assert(stack.push(path@).no_duplicates());
            lemma_distinct_stored_bound(files, stack.push(path@));
        }
        let d = match loaded {
            Err(e) => {
                return Err(e);
            },
            Ok(d) => d,
        };
        let parent = path.parent();
        let ghost pv = path@;
        self.stack.push(path);
        assert(self.resolving() =~= stack.push(pv));
        let res = self.rewrite(&d, &parent, Some(&d));
        let ghost pushed = self.stack@;
        self.stack.pop();
        assert(self.resolving() =~= paths_view(pushed).drop_last());
        assert(self.resolving() =~= stack);
        match res {
            Err(e) => Err(e),
            Ok(rd) => {
                if h < cs.len() {
                    let p = sub_chars(&cs, h + 1, cs.len());
                    if p.len() > 0 {
                        apply_pointer(&rd, text_of(&p).as_str())
                    } else {
                        Ok(rd)
                    }
                } else {
                    Ok(rd)
                }
            },
        }
    }

    /// `node` with every reference node replaced by what it resolves to.
    pub fn rewrite(&mut self, node: &Node, dir: &DocPath, ctx: Option<&Node>) -> (res: Result<
        Node,
        ResolveError,
    >)
        requires
            old(self).wf(),
        ensures
            final(self).wf(),
            final(self).files() == old(self).files(),
            final(self).root_doc() == old(self).root_doc(),
            final(self).resolving() == old(self).resolving(),
            outcome_view(res) == rewrite_spec(
                old(self).files(),
                old(self).root_doc(),
                old(self).resolving(),
                node@,
                dir@,
                ctx_doc(ctx),
            ),
        decreases old(self).files().len() - old(self).resolving().len(), doc_size(node@), 0nat,
    {
        let ghost files = self.files();
        let ghost root = self.root_doc();
        let ghost stack = self.resolving();
        let ghost c = ctx_doc(ctx);
        match node {
            Node::Mapping(es) => {
                proof {
                    lemma_mapping_view(*es);
                }
                let ghost ev = entries_view(es@);
                match get_entry(es, "$ref") {
                    Some(Node::Str(r)) => {
                        return self.resolve_ref(r.as_str(), dir, ctx);
                    },
                    Some(_) => {
                        return Ok(node.deep_copy());
                    },
                    None => {},
                }
                let mut out: Vec<(String, Node)> = Vec::new();
                let mut i: usize = 0;
                assert(ev.subrange(0, ev.len() as int) == ev);
                assert(entries_view(out@) + ev =~= ev);
                while i < es.len()
                    invariant
                        i <= es.len(),
                        ev == entries_view(es@),
                        node@ == Doc::Mapping(ev),
                        map_get(ev, "$ref"@) is None,
                        c == ctx_doc(ctx),
                        self.wf(),
                        files == old(self).files(),
                        root == old(self).root_doc(),
                        stack == old(self).resolving(),
                        self.files() == files,
                        self.root_doc() == root,
                        self.resolving() == stack,
                        rewrite_entries_spec(files, root, stack, ev, dir@, c) == after_entries(
                            entries_view(out@),
                            rewrite_entries_spec(
                                files,
                                root,
                                stack,
                                ev.subrange(i as int, ev.len() as int),
                                dir@,
                                c,
                            ),
                        ),
                    decreases es.len() - i,
                {
                    let ghost tail = ev.subrange(i as int, ev.len() as int);
                    assert(tail[0] == ev[i as int]);
                    assert(tail.drop_first() == ev.subrange(i + 1, ev.len() as int));
                    proof {
                        lemma_entry_size_bound(ev, i as int);
                        assert(ev[i as int].1 == es@[i as int].1@);
                    }
                    match self.rewrite(&es[i].1, dir, ctx) {
                        Err(e) => {
                            return Err(e);
                        },
                        Ok(v) => {
                            let ghost before = entries_view(out@);
                            out.push((es[i].0.clone(), v));
                            assert(entries_view(out@) =~= before.push((ev[i as int].0, v@)));
                            assert forall|t: Seq<(Seq<char>, Doc)>| true implies before + (seq![(ev[i as int].0, v@)] + t)
                                == before.push((ev[i as int].0, v@)) + t by {
                                assert(before + (seq![(ev[i as int].0, v@)] + t) =~= before.push((ev[i as int].0, v@)) + t);
                            }
                        },
                    }
                    i += 1;
                }
                assert(ev.subrange(i as int, ev.len() as int) =~= Seq::<(Seq<char>, Doc)>::empty());
                assert(entries_view(out@) + Seq::<(Seq<char>, Doc)>::empty() =~= entries_view(out@));
                proof {
                    lemma_mapping_view(out);
                }
                Ok(Node::Mapping(out))
            },
            Node::Sequence(items) => {
                proof {
                    lemma_sequence_view(*items);
                }
                let ghost iv = items_view(items@);
                let mut out: Vec<Node> = Vec::new();
                let mut i: usize = 0;
                assert(iv.subrange(0, iv.len() as int) == iv);
                assert(items_view(out@) + iv =~= iv);
                while i < items.len()
                    invariant
                        i <= items.len(),
                        iv == items_view(items@),
                        node@ == Doc::Sequence(iv),
                        c == ctx_doc(ctx),
                        self.wf(),
                        files == old(self).files(),
                        root == old(self).root_doc(),
                        stack == old(self).resolving(),
                        self.files() == files,
                        self.root_doc() == root,
                        self.resolving() == stack,
                        rewrite_items_spec(files, root, stack, iv, dir@, c) == after_items(
                            items_view(out@),
                            rewrite_items_spec(
                                files,
                                root,
                                stack,
                                iv.subrange(i as int, iv.len() as int),
                                dir@,
                                c,
                            ),
                        ),
                    decreases items.len() - i,
                {
                    let ghost tail = iv.subrange(i as int, iv.len() as int);
                    assert(tail[0] == iv[i as int]);
                    assert(tail.drop_first() == iv.subrange(i + 1, iv.len() as int));
                    proof {
                        lemma_item_size_bound(iv, i as int);
                        assert(iv[i as int] == items@[i as int]@);
                    }
                    match self.rewrite(&items[i], dir, ctx) {
                        Err(e) => {
                            return Err(e);
                        },
                        Ok(v) => {
                            let ghost before = items_view(out@);
                            out.push(v);
                            assert(items_view(out@) =~= before.push(v@));
                            assert forall|t: Seq<Doc>| true implies before + (seq![v@] + t)
                                == before.push(v@) + t by {
                                assert(before + (seq![v@] + t) =~= before.push(v@) + t);
                            }
                        },
                    }
                    i += 1;
                }
                assert(iv.subrange(i as int, iv.len() as int) =~= Seq::<Doc>::empty());
                assert(items_view(out@) + Seq::<Doc>::empty() =~= items_view(out@));
                proof {
                    lemma_sequence_view(out);
                }
                Ok(Node::Sequence(out))
            },
            _ => Ok(node.deep_copy()),
        }
    }
}

} // verus!
