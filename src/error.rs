//! Failures of loading and resolution.
use vstd::prelude::*;

verus! {

/// What went wrong, as a mathematical value.
pub enum Fault {
    Io(Seq<char>),
    Parse(Seq<char>),
    Circular(Seq<Seq<char>>),
    BadIndex(Seq<char>),
    IndexOutOfBounds(Seq<char>),
    NotAContainer(Seq<char>),
}

/// A failure of loading or resolution.
#[derive(Debug, PartialEq)]
pub enum ResolveError {
    /// A file could not be read; the message says why.
    Io(String),
    /// A file's text is not a well-formed document; the message says why.
    Parse(String),
    /// A file refers back to itself through a chain of references; the
    /// canonical path, one segment per directory level.
    Circular(Vec<String>),
    /// A pointer segment used on a sequence is not a decimal index.
    BadIndex(String),
    /// A pointer segment indexes past the end of a sequence.
    IndexOutOfBounds(String),
    /// A pointer segment was applied to a scalar.
    NotAContainer(String),
}

/// The views of a list of strings.
pub open spec fn texts_view(v: Seq<String>) -> Seq<Seq<char>> {
    Seq::new(v.len(), |i: int| v[i]@)
}

impl View for ResolveError {
    type V = Fault;

    open spec fn view(&self) -> Fault {
        match self {
            ResolveError::Io(m) => Fault::Io(m@),
            ResolveError::Parse(m) => Fault::Parse(m@),
            ResolveError::Circular(p) => Fault::Circular(texts_view(p@)),
            ResolveError::BadIndex(s) => Fault::BadIndex(s@),
            ResolveError::IndexOutOfBounds(s) => Fault::IndexOutOfBounds(s@),
            ResolveError::NotAContainer(s) => Fault::NotAContainer(s@),
        }
    }
}

/// A copy of a list of strings.
pub fn copy_texts(v: &Vec<String>) -> (r: Vec<String>)
    ensures
        texts_view(r@) == texts_view(v@),
{
    let mut r: Vec<String> = Vec::new();
    let mut i: usize = 0;
    while i < v.len()
        invariant
            i <= v.len(),
            texts_view(r@) == texts_view(v@).subrange(0, i as int),
        decreases v.len() - i,
    {
        let ghost before = r@;
        r.push(v[i].clone());
        assert(texts_view(r@) =~= texts_view(before).push(v@[i as int]@));
        assert(texts_view(v@).subrange(0, i + 1) =~= texts_view(v@).subrange(0, i as int).push(
            v@[i as int]@,
        ));
        i += 1;
    }
    assert(texts_view(v@).subrange(0, i as int) =~= texts_view(v@));
    r
}

impl ResolveError {
    /// A copy of the error.
    pub fn duplicate(&self) -> (r: ResolveError)
        ensures
            r@ == self@,
    {
        match self {
            ResolveError::Io(m) => ResolveError::Io(m.clone()),
            ResolveError::Parse(m) => ResolveError::Parse(m.clone()),
            ResolveError::Circular(p) => ResolveError::Circular(copy_texts(p)),
            ResolveError::BadIndex(s) => ResolveError::BadIndex(s.clone()),
            ResolveError::IndexOutOfBounds(s) => ResolveError::IndexOutOfBounds(s.clone()),
            ResolveError::NotAContainer(s) => ResolveError::NotAContainer(s.clone()),
        }
    }
}

/// The view of a result whose success is a node.
pub open spec fn outcome_view<T: View>(r: Result<T, ResolveError>) -> Result<T::V, Fault> {
    match r {
        Ok(v) => Ok(v@),
        Err(e) => Err(e@),
    }
}

} // verus!
