//! The files that references may reach, each parsed once and kept under its
//! canonical path, and the one repair that loading text may need.
use vstd::prelude::*;
use crate::doc::{Doc, Node};
use crate::error::{outcome_view, Fault, ResolveError};
use crate::path::{join_path, DocPath};
use crate::text::{chars_of, contains_text, occurs_in, replace_all, replace_text, text_of};

verus! {

/// A canonical path and what loading it gave.
pub type FileEntry = (Seq<Seq<char>>, Result<Doc, Fault>);

/// What loading `path` gave: the first entry under that path.
pub open spec fn file_get(files: Seq<FileEntry>, path: Seq<Seq<char>>) -> Option<Result<Doc, Fault>>
    decreases files.len(),
{
    if files.len() == 0 {
        None
    } else if files[0].0 == path {
        Some(files[0].1)
    } else {
        file_get(files.drop_first(), path)
    }
}

/// The paths under which the files stand.
pub open spec fn file_paths(files: Seq<FileEntry>) -> Seq<Seq<Seq<char>>> {
    Seq::new(files.len(), |i: int| files[i].0)
}

pub proof fn lemma_file_get_in_paths(files: Seq<FileEntry>, path: Seq<Seq<char>>)
    requires
        file_get(files, path) is Some,
    ensures
        file_paths(files).contains(path),
    decreases files.len(),
{
    if files[0].0 == path {
        assert(file_paths(files)[0] == path);
    } else {
        lemma_file_get_in_paths(files.drop_first(), path);
        let k = choose|k: int|
            0 <= k < file_paths(files.drop_first()).len() && file_paths(files.drop_first())[k]
                == path;
        assert(file_paths(files)[k + 1] == path);
    }
}

/// A list of distinct paths, each of a stored file, is no longer than the
/// store.
pub proof fn lemma_distinct_stored_bound(files: Seq<FileEntry>, paths: Seq<Seq<Seq<char>>>)
    requires
        paths.no_duplicates(),
        forall|i: int| 0 <= i < paths.len() ==> file_get(files, #[trigger] paths[i]) is Some,
    ensures
        paths.len() <= files.len(),
{
    let keys = file_paths(files);
    assert forall|p: Seq<Seq<char>>| paths.to_set().contains(p) implies keys.to_set().contains(
        p,
    ) by {
        let i = choose|i: int| 0 <= i < paths.len() && paths[i] == p;
        lemma_file_get_in_paths(files, paths[i]);
    }
    paths.unique_seq_to_set();
    keys.lemma_cardinality_of_set();
    vstd::seq_lib::seq_to_set_is_finite(keys);
    vstd::set_lib::lemma_len_subset(paths.to_set(), keys.to_set());
}

/// Files by canonical path. A path stored twice keeps what was stored first.
pub struct FileStore {
    files: Vec<(DocPath, Result<Node, ResolveError>)>,
}

impl View for FileStore {
    type V = Seq<FileEntry>;

    closed spec fn view(&self) -> Seq<FileEntry> {
        Seq::new(self.files.len() as nat, |i: int| (self.files@[i].0@, outcome_view(self.files@[i].1)))
    }
}

impl FileStore {
    /// A store with no file.
    pub fn new() -> (r: FileStore)
        ensures
            r@ == Seq::<FileEntry>::empty(),
    {
        let r = FileStore { files: Vec::new() };
        assert(r@ =~= Seq::<FileEntry>::empty());
        r
    }

    /// Keeps what loading the file at `path` gave.
    pub fn insert(&mut self, path: &str, loaded: Result<Node, ResolveError>)
        ensures
            final(self)@ == old(self)@.push((join_path(Seq::empty(), path@), outcome_view(loaded))),
    {
        let ghost before = self@;
        let ghost lv = outcome_view(loaded);
        self.files.push((DocPath::parse(path), loaded));
        assert(self@ =~= before.push((join_path(Seq::empty(), path@), lv)));
    }

    /// What loading the file at `path` gave, if it is stored.
    pub fn lookup(&self, path: &DocPath) -> (r: Option<&Result<Node, ResolveError>>)
        ensures
            match r {
                Some(c) => file_get(self@, path@) == Some(outcome_view(*c)),
                None => file_get(self@, path@) is None,
            },
    {
        let mut i: usize = 0;
        assert(self@.subrange(0, self@.len() as int) == self@);
        while i < self.files.len()
            invariant
                i <= self.files.len(),
                file_get(self@, path@) == file_get(
                    self@.subrange(i as int, self@.len() as int),
                    path@,
                ),
            decreases self.files.len() - i,
        {
            assert(self@.subrange(i as int, self@.len() as int).drop_first() == self@.subrange(
                i + 1,
                self@.len() as int,
            ));
            if self.files[i].0.same_as(path) {
                return Some(&self.files[i].1);
            }
            i += 1;
        }
        None
    }
}

/// The integer literal that some documents hold and that does not fit in 64
/// bits, and the largest one that does.
pub const OVERSIZED_LITERAL: &'static str = "18446744073709552000";

pub const CLAMPED_LITERAL: &'static str = "18446744073709551615";

/// Text to parse again after a failed parse: the text with the oversized
/// literal clamped, when it holds that literal.
pub fn repair_numeric_literal(text: &str) -> (r: Option<String>)
    ensures
        match r {
            Some(t) => occurs_in(text@, OVERSIZED_LITERAL@) && t@ == replace_all(
                text@,
                OVERSIZED_LITERAL@,
                CLAMPED_LITERAL@,
            ),
            None => !occurs_in(text@, OVERSIZED_LITERAL@),
        },
{
    let cs = chars_of(text);
    let pat = chars_of(OVERSIZED_LITERAL);
    if contains_text(&cs, &pat) {
        let rep = chars_of(CLAMPED_LITERAL);
        proof {
            reveal_strlit("18446744073709552000");
        }
        let fixed = replace_text(&cs, &pat, &rep);
        Some(text_of(&fixed))
    } else {
        None
    }
}

} // verus!
