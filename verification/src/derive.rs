//! One derive of a `#[derive(..)]` list, and the names that the sorting
//! knows.

use vstd::prelude::*;
use crate::attribute::{Arguments, ArgumentsView, Attribute, AttributeView, Delimiter};
use crate::path::{Path, PathView};
use crate::text::{str_ends_with, str_eq};

verus! {

/// The path of a single derive, parsed from a list which may have held
/// several.
#[derive(Debug, PartialEq, Eq)]
pub struct Derive(pub Path);

impl View for Derive {
    type V = PathView;

    open spec fn view(&self) -> PathView {
        self.0@
    }
}

impl DeepView for Derive {
    type V = PathView;

    open spec fn deep_view(&self) -> PathView {
        self@
    }
}

/// The derives that the sorting treats in a way of their own.
#[derive(Clone, Copy, PartialEq, Eq, Structural, Debug)]
pub enum Reserved {
    /// `FromBytes` of `zerocopy`.
    FromBytes,
    /// `FromBits` of `bilge`.
    FromBits,
    /// `Debug` of the standard library.
    Debug,
}

/// Which reserved derive a written path names, if any. A path names one
/// only when written in one of these forms, letter for letter.
pub open spec fn reserved(name: Seq<char>) -> Option<Reserved> {
    if name == "FromBytes"@ || name == "zerocopy::FromBytes"@ {
        Some(Reserved::FromBytes)
    } else if name == "FromBits"@ || name == "bilge::FromBits"@ {
        Some(Reserved::FromBits)
    } else if name == "Debug"@ || name == "fmt::Debug"@ || name == "core::fmt::Debug"@ || name
        == "std::fmt::Debug"@ {
        Some(Reserved::Debug)
    } else {
        None
    }
}

/// A derive whose last segment ends in `Bits` reads the fields of the item
/// as they were written, so it has to run before they are compressed.
pub open spec fn is_bitfield_derive(derive: PathView) -> bool {
    derive.segments.len() > 0 && "Bits"@.is_suffix_of(derive.segments.last())
}

/// The attribute `#[derive(..)]` that holds this derive and no other.
pub open spec fn derive_attribute(derive: PathView) -> AttributeView {
    AttributeView {
        path: PathView { leading_colon: false, segments: seq!["derive"@] },
        arguments: ArgumentsView::List { delimiter: Delimiter::Paren, tokens: derive.text() },
    }
}

/// Which reserved derive `name` is, if any.
pub fn reserved_name(name: &str) -> (found: Option<Reserved>)
    ensures
        found == reserved(name@),
{
    if str_eq(name, "FromBytes") || str_eq(name, "zerocopy::FromBytes") {
        Some(Reserved::FromBytes)
    } else if str_eq(name, "FromBits") || str_eq(name, "bilge::FromBits") {
        Some(Reserved::FromBits)
    } else if str_eq(name, "Debug") || str_eq(name, "fmt::Debug") || str_eq(
        name,
        "core::fmt::Debug",
    ) || str_eq(name, "std::fmt::Debug") {
        Some(Reserved::Debug)
    } else {
        None
    }
}

impl Derive {
    /// The derive as it is written, without any space.
    pub fn to_string(&self) -> (name: String)
        ensures
            name@ == self@.text(),
    {
        self.0.to_string()
    }

    /// A new `#[derive]` attribute containing only this derive.
    pub fn into_attribute(self) -> (attribute: Attribute)
        ensures
            attribute@ == derive_attribute(self@),
            attribute@.is_derive_list(),
    {
        let tokens = self.0.to_string();
        Attribute {
            path: Path::from_ident("derive"),
            arguments: Arguments::List { delimiter: Delimiter::Paren, tokens },
        }
    }

    /// By convention, any derive satisfying this condition is able to access
    /// bitfield structure information pre-compression, allowing for user
    /// derives.
    pub fn is_bitfield_derive(&self) -> (bitfield: bool)
        ensures
            bitfield == is_bitfield_derive(self@),
    {
        let count: usize = self.0.segments.len();
        count > 0 && str_ends_with(self.0.segments[count - 1].as_str(), "Bits")
    }

    /// Which reserved derive this is, if any.
    pub fn reserved(&self) -> (found: Option<Reserved>)
        ensures
            found == reserved(self@.text()),
    {
        let name = self.to_string();
        reserved_name(name.as_str())
    }
}

impl Clone for Derive {
    fn clone(&self) -> (copy: Derive)
        ensures
            copy@ == self@,
    {
        Derive(self.0.clone())
    }
}

} // verus!
