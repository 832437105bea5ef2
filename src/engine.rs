//! The whole run: seeding, the bounded resolution passes, cleanup, and the
//! normalisations that follow.
use vstd::prelude::*;
use crate::doc::{well_formed, Doc, Node};
use crate::laws::{law_resolved_document_ref_free, ref_free};
use crate::validity::{law_resolution_keeps_documents_valid, lemma_file_get_valid, store_valid};
use crate::error::{outcome_view, Fault, ResolveError};
use crate::path::{join_path, parent_path, DocPath};
use crate::resolver::{rewrite_spec, Resolver};
use crate::responses::{deduplicate_response_types, reduced_document};
use crate::sanitize::{sanitize_documentation, sanitized};
use crate::store::{file_get, FileEntry, FileStore};
use crate::synthesis::{add_missing_definitions, clean_unresolved_refs, cleaned, seeded};
use crate::text::{chars_of, text_then};

verus! {

/// The number of rewriting passes over the whole document. A reference that
/// a pass resolves to content holding further references is left for the
/// next pass; what remains after the last is left to cleanup.
pub const RESOLUTION_PASSES: usize = 3;

/// `n` rewriting passes over `d` from directory `dir`, bare pointers falling
/// back to `root`.
pub open spec fn passes(files: Seq<FileEntry>, root: Doc, dir: Seq<Seq<char>>, d: Doc, n: nat) -> Result<
    Doc,
    Fault,
>
    decreases n,
{
    if n == 0 {
        Ok(d)
    } else {
        match rewrite_spec(files, root, Seq::empty(), d, dir, None) {
            Err(e) => Err(e),
            Ok(d1) => passes(files, root, dir, d1, (n - 1) as nat),
        }
    }
}

/// The resolved form of the root document `root` of directory `base`.
pub open spec fn resolved_document(files: Seq<FileEntry>, base: Seq<Seq<char>>, root: Doc) -> Result<
    Doc,
    Fault,
> {
    let s = seeded(root);
    match passes(files, s, base, s, RESOLUTION_PASSES as nat) {
        Err(e) => Err(e),
        Ok(d) => Ok(reduced_document(sanitized(cleaned(d)))),
    }
}

/// The resolved form of the stored document at `path`; a path that is not
/// stored is unreadable.
pub open spec fn resolved_file(files: Seq<FileEntry>, path: Seq<char>) -> Result<Doc, Fault> {
    let p = join_path(Seq::empty(), path);
    match file_get(files, p) {
        None => Err(Fault::Io("no such file: "@ + path)),
        Some(Err(e)) => Err(e),
        Some(Ok(d)) => resolved_document(files, parent_path(p), d),
    }
}

/// Resolves the root document `root`, whose directory is `base`, against
/// the stored files.
pub fn resolve_document(store: FileStore, base: &DocPath, root: &Node) -> (r: Result<Node, ResolveError>)
    ensures
        outcome_view(r) == resolved_document(store@, base@, root@),
        r is Ok ==> ref_free(r->Ok_0@),
        store_valid(store@) && well_formed(root@) && r is Ok ==> well_formed(r->Ok_0@),
{
    let ghost files = store@;
    proof {
        if resolved_document(files, base@, root@) is Ok {
            law_resolved_document_ref_free(files, base@, root@);
            if store_valid(files) && well_formed(root@) {
                law_resolution_keeps_documents_valid(files, base@, root@);
            }
        }
    }
    let seeded_root = add_missing_definitions(root);
    let mut doc = seeded_root.deep_copy();
    let ghost s = seeded_root@;
    let mut resolver = Resolver::new(store, seeded_root);
    let mut k: usize = 0;
    while k < RESOLUTION_PASSES
        invariant
            k <= RESOLUTION_PASSES,
            s == seeded(root@),
            files == store@,
            resolver.wf(),
            resolver.files() == files,
            resolver.root_doc() == s,
            resolver.resolving() == Seq::<Seq<Seq<char>>>::empty(),
            passes(files, s, base@, s, RESOLUTION_PASSES as nat) == passes(
                files,
                s,
                base@,
                doc@,
                (RESOLUTION_PASSES - k) as nat,
            ),
        decreases RESOLUTION_PASSES - k,
    {
        match resolver.rewrite(&doc, base, None) {
            Err(e) => {
                return Err(e);
            },
            Ok(next) => {
                doc = next;
            },
        }
        k += 1;
    }
    let cleaned_doc = clean_unresolved_refs(&doc);
    let sanitized_doc = sanitize_documentation(&cleaned_doc);
    Ok(deduplicate_response_types(&sanitized_doc))
}

/// Resolves the stored document at `path`, relative to its own directory.
pub fn resolve_file(store: FileStore, path: &str) -> (r: Result<Node, ResolveError>)
    ensures
        outcome_view(r) == resolved_file(store@, path@),
        r is Ok ==> ref_free(r->Ok_0@),
        store_valid(store@) && r is Ok ==> well_formed(r->Ok_0@),
{
    let p = DocPath::parse(path);
    proof {
        if store_valid(store@) {
            lemma_file_get_valid(store@, p@);
        }
    }
    let root = match store.lookup(&p) {
        None => {
            let msg = text_then("no such file: ", &chars_of(path));
            return Err(ResolveError::Io(msg));
        },
        Some(Err(e)) => {
            return Err(e.duplicate());
        },
        Some(Ok(n)) => n.deep_copy(),
    };
    let dir = p.parent();
    resolve_document(store, &dir, &root)
}

} // verus!
