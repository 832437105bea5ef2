//! Absolute file paths as lists of segments, joined and normalised without
//! touching a file system.
use vstd::prelude::*;
use crate::error::texts_view;
use crate::text::{chars_of, pieces_view, split_chars, split_on, text_of};

verus! {

/// An absolute, normalised path: one segment per directory level, with no
/// empty, `.` or `..` segment.
#[derive(Debug, PartialEq)]
pub struct DocPath {
    pub segments: Vec<String>,
}

impl View for DocPath {
    type V = Seq<Seq<char>>;

    open spec fn view(&self) -> Seq<Seq<char>> {
        texts_view(self.segments@)
    }
}

/// Applies the pieces of a relative path to `base`, in order: an empty piece
/// or `.` stays, `..` goes up a level (the root's parent is the root), any
/// other piece goes down into it.
pub open spec fn normalize_onto(base: Seq<Seq<char>>, parts: Seq<Seq<char>>) -> Seq<Seq<char>>
    decreases parts.len(),
{
    if parts.len() == 0 {
        base
    } else {
        let p = parts[0];
        let next = if p.len() == 0 || p == seq!['.'] {
            base
        } else if p == seq!['.', '.'] {
            if base.len() == 0 {
                base
            } else {
                base.drop_last()
            }
        } else {
            base.push(p)
        };
        normalize_onto(next, parts.drop_first())
    }
}

/// The path that `rel` names from the directory `dir`; a `rel` that starts
/// with `/` is taken from the root.
pub open spec fn join_path(dir: Seq<Seq<char>>, rel: Seq<char>) -> Seq<Seq<char>> {
    if rel.len() > 0 && rel[0] == '/' {
        normalize_onto(Seq::empty(), split_on(rel, '/'))
    } else {
        normalize_onto(dir, split_on(rel, '/'))
    }
}

/// The directory that holds `p`; the root is its own parent.
pub open spec fn parent_path(p: Seq<Seq<char>>) -> Seq<Seq<char>> {
    if p.len() == 0 {
        p
    } else {
        p.drop_last()
    }
}

fn is_dot(p: &Vec<char>) -> (r: bool)
    ensures
        r == (p@ == seq!['.']),
{
    if p.len() == 1 && p[0] == '.' {
        assert(p@ =~= seq!['.']);
        true
    } else {
        false
    }
}

fn is_dot_dot(p: &Vec<char>) -> (r: bool)
    ensures
        r == (p@ == seq!['.', '.']),
{
    if p.len() == 2 && p[0] == '.' && p[1] == '.' {
        assert(p@ =~= seq!['.', '.']);
        true
    } else {
        false
    }
}

impl DocPath {
    /// The root directory.
    pub fn root() -> (r: DocPath)
        ensures
            r@ == Seq::<Seq<char>>::empty(),
    {
        let r = DocPath { segments: Vec::new() };
        assert(r@ =~= Seq::<Seq<char>>::empty());
        r
    }

    /// The absolute path that `s` names.
    pub fn parse(s: &str) -> (r: DocPath)
        ensures
            r@ == join_path(Seq::empty(), s@),
    {
        DocPath::root().join(s)
    }

    /// The path that `rel` names from this directory.
    pub fn join(&self, rel: &str) -> (r: DocPath)
        ensures
            r@ == join_path(self@, rel@),
    {
        let cs = chars_of(rel);
        let parts = split_chars(&cs, '/');
        let ghost pv = pieces_view(parts@);
        let mut acc: Vec<String> = Vec::new();
        if !(cs.len() > 0 && cs[0] == '/') {
            let mut j: usize = 0;
            while j < self.segments.len()
                invariant
                    j <= self.segments.len(),
                    texts_view(acc@) == texts_view(self.segments@).subrange(0, j as int),
                decreases self.segments.len() - j,
            {
                let ghost before = acc@;
                acc.push(self.segments[j].clone());
                assert(texts_view(acc@) =~= texts_view(before).push(self.segments@[j as int]@));
                assert(texts_view(self.segments@).subrange(0, j + 1) =~= texts_view(
                    self.segments@,
                ).subrange(0, j as int).push(self.segments@[j as int]@));
                j += 1;
            }
            assert(texts_view(self.segments@).subrange(0, j as int) =~= self@);
        } else {
            assert(texts_view(acc@) =~= Seq::<Seq<char>>::empty());
        }
        let ghost start = texts_view(acc@);
        assert(pv.subrange(0, pv.len() as int) == pv);
        let mut i: usize = 0;
        while i < parts.len()
            invariant
                i <= parts.len(),
                pv == pieces_view(parts@),
                normalize_onto(start, pv) == normalize_onto(
                    texts_view(acc@),
                    pv.subrange(i as int, pv.len() as int),
                ),
            decreases parts.len() - i,
        {
            let ghost tail = pv.subrange(i as int, pv.len() as int);
            assert(tail[0] == parts@[i as int]@);
            assert(tail.drop_first() == pv.subrange(i + 1, pv.len() as int));
            let p = &parts[i];
            let ghost before = texts_view(acc@);
            if p.len() == 0 || is_dot(p) {
            } else if is_dot_dot(p) {
                if acc.len() > 0 {
                    acc.pop();
                    assert(texts_view(acc@) =~= before.drop_last());
                }
            } else {
                acc.push(text_of(p));
                assert(texts_view(acc@) =~= before.push(p@));
            }
            i += 1;
        }
        assert(pv.subrange(i as int, pv.len() as int) =~= Seq::<Seq<char>>::empty());
        DocPath { segments: acc }
    }

    /// The directory that holds this path.
    pub fn parent(&self) -> (r: DocPath)
        ensures
            r@ == parent_path(self@),
    {
        let mut segs: Vec<String> = Vec::new();
        let n = self.segments.len();
        let m: usize = if n == 0 {
            0
        } else {
            n - 1
        };
        let mut j: usize = 0;
        while j < m
            invariant
                j <= m,
                m <= self.segments.len(),
                texts_view(segs@) == texts_view(self.segments@).subrange(0, j as int),
            decreases m - j,
        {
            let ghost before = segs@;
            segs.push(self.segments[j].clone());
            assert(texts_view(segs@) =~= texts_view(before).push(self.segments@[j as int]@));
            assert(texts_view(self.segments@).subrange(0, j + 1) =~= texts_view(
                self.segments@,
            ).subrange(0, j as int).push(self.segments@[j as int]@));
            j += 1;
        }
        let r = DocPath { segments: segs };
        assert(r@ =~= parent_path(self@));
        r
    }

    /// Whether two paths are the same.
    pub fn same_as(&self, other: &DocPath) -> (r: bool)
        ensures
            r == (self@ == other@),
    {
        if self.segments.len() != other.segments.len() {
            assert(self@.len() != other@.len());
            return false;
        }
        let mut j: usize = 0;
        while j < self.segments.len()
            invariant
                j <= self.segments.len() == other.segments.len(),
                forall|k: int| 0 <= k < j ==> #[trigger] self@[k] == other@[k],
            decreases self.segments.len() - j,
        {
            if self.segments[j] != other.segments[j] {
                assert(self@[j as int] != other@[j as int]);
                return false;
            }
            j += 1;
        }
        assert(self@ =~= other@);
        true
    }
}

} // verus!
