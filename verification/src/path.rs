//! Paths as they are written in attributes: `derive`, `zerocopy::FromBytes`.

use vstd::prelude::*;
use vstd::string::*;
use crate::text::str_eq;

verus! {

/// A path of plain segments, optionally with `::` in front.
#[derive(Debug, PartialEq, Eq)]
pub struct Path {
    /// Whether the path starts with `::`.
    pub leading_colon: bool,
    /// The identifiers between the `::`, first to last.
    pub segments: Vec<String>,
}

/// What a [`Path`] stands for.
pub struct PathView {
    pub leading_colon: bool,
    pub segments: Seq<Seq<char>>,
}

impl View for Path {
    type V = PathView;

    open spec fn view(&self) -> PathView {
        PathView { leading_colon: self.leading_colon, segments: self.segments.deep_view() }
    }
}

impl DeepView for Path {
    type V = PathView;

    open spec fn deep_view(&self) -> PathView {
        self@
    }
}

/// The segments with `::` between each two of them.
pub open spec fn joined(segments: Seq<Seq<char>>) -> Seq<char>
    decreases segments.len(),
{
    if segments.len() == 0 {
        Seq::empty()
    } else if segments.len() == 1 {
        segments[0]
    } else {
        joined(segments.drop_last()) + "::"@ + segments.last()
    }
}

impl PathView {
    /// The path as it is written, without any space: `a::b`, or `::a::b` with
    /// a leading colon.
    pub open spec fn text(self) -> Seq<char> {
        if self.leading_colon {
            "::"@ + joined(self.segments)
        } else {
            joined(self.segments)
        }
    }

    /// The path is the single identifier `ident`: one segment, no leading
    /// colon.
    pub open spec fn is_ident(self, ident: Seq<char>) -> bool {
        &&& !self.leading_colon
        &&& self.segments.len() == 1
        &&& self.segments[0] == ident
    }
}

impl Path {
    /// The path that is the single identifier `ident`.
    pub fn from_ident(ident: &str) -> (path: Path)
        ensures
            path@ == (PathView { leading_colon: false, segments: seq![ident@] }),
            path@.is_ident(ident@),
    {
        let mut segments: Vec<String> = Vec::new();
        segments.push(String::from_str(ident));
        let path = Path { leading_colon: false, segments };
        assert(path@.segments =~= seq![ident@]);
        path
    }

    /// Whether the path is the single identifier `ident`.
    pub fn is_ident(&self, ident: &str) -> (same: bool)
        ensures
            same == self@.is_ident(ident@),
    {
        !self.leading_colon && self.segments.len() == 1 && str_eq(
            self.segments[0].as_str(),
            ident,
        )
    }

    /// The path as it is written, without any space.
    pub fn to_string(&self) -> (text: String)
        ensures
            text@ == self@.text(),
    {
        let mut text = String::new();
        if self.leading_colon {
            text.append("::");
        }
        let ghost front = text@;
        let count: usize = self.segments.len();
        let mut i: usize = 0;
        while i < count
            invariant
                i <= count,
                count == self.segments@.len(),
                text@ == front + joined(self@.segments.take(i as int)),
            decreases count - i,
        {
            assert(self@.segments.take(i + 1).drop_last() =~= self@.segments.take(i as int));
            if i > 0 {
                text.append("::");
            }
            text.append(self.segments[i].as_str());
            i += 1;
        }
        assert(self@.segments.take(count as int) =~= self@.segments);
        text
    }
}

impl Clone for Path {
    fn clone(&self) -> (copy: Path)
        ensures
            copy@ == self@,
    {
        let mut segments: Vec<String> = Vec::new();
        let count: usize = self.segments.len();
        let mut i: usize = 0;
        while i < count
            invariant
                i <= count,
                count == self.segments@.len(),
                segments@.len() == i,
                segments.deep_view() == self.segments.deep_view().take(i as int),
            decreases count - i,
        {
            segments.push(self.segments[i].clone());
            i += 1;
        }
        assert(self.segments.deep_view().take(count as int) =~= self.segments.deep_view());
        Path { leading_colon: self.leading_colon, segments }
    }
}

} // verus!
