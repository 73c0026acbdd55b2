//! Why the attributes of an item cannot be sorted.

use vstd::prelude::*;
use vstd::string::*;

verus! {

/// The two kinds of failure.
#[derive(Clone, Copy, PartialEq, Eq, Structural, Debug)]
pub enum ErrorKind {
    /// The input has not the shape that the sorting works on.
    Structure,
    /// The attributes break a rule on what may stand together.
    Policy,
}

/// Why the attributes of an item cannot be sorted. `attribute` counts the
/// attributes of the item from 0, `derive` the derives of that attribute's
/// list from 0: together they say where the fault lies.
#[derive(Debug, PartialEq, Eq)]
pub enum SplitError {
    /// The item is neither a struct nor an enum.
    NotStructOrEnum,
    /// The tokens of a `#[derive(..)]` are no list of paths.
    FailedToParseDerive { attribute: usize, reason: String },
    /// An attribute mentions `bitsize_internal`.
    BitsizeInternal { attribute: usize },
    /// A struct derives the `Debug` of the standard library.
    DebugOnStruct { attribute: usize, derive: usize },
    /// A struct derives `FromBytes` and nowhere `FromBits`.
    FromBytesWithoutFromBits { attribute: usize, derive: usize },
}

/// What a [`SplitError`] stands for.
pub enum SplitErrorView {
    NotStructOrEnum,
    FailedToParseDerive { attribute: int, reason: Seq<char> },
    BitsizeInternal { attribute: int },
    DebugOnStruct { attribute: int, derive: int },
    FromBytesWithoutFromBits { attribute: int, derive: int },
}

impl View for SplitError {
    type V = SplitErrorView;

    open spec fn view(&self) -> SplitErrorView {
        match self {
            SplitError::NotStructOrEnum => SplitErrorView::NotStructOrEnum,
            SplitError::FailedToParseDerive { attribute, reason } => {
                SplitErrorView::FailedToParseDerive {
                    attribute: *attribute as int,
                    reason: reason@,
                }
            },
            SplitError::BitsizeInternal { attribute } => SplitErrorView::BitsizeInternal {
                attribute: *attribute as int,
            },
            SplitError::DebugOnStruct { attribute, derive } => SplitErrorView::DebugOnStruct {
                attribute: *attribute as int,
                derive: *derive as int,
            },
            SplitError::FromBytesWithoutFromBits { attribute, derive } => {
                SplitErrorView::FromBytesWithoutFromBits {
                    attribute: *attribute as int,
                    derive: *derive as int,
                }
            },
        }
    }
}

impl SplitErrorView {
    /// The kind of the failure.
    pub open spec fn kind(self) -> ErrorKind {
        match self {
            SplitErrorView::NotStructOrEnum => ErrorKind::Structure,
            SplitErrorView::FailedToParseDerive { .. } => ErrorKind::Structure,
            SplitErrorView::BitsizeInternal { .. } => ErrorKind::Policy,
            SplitErrorView::DebugOnStruct { .. } => ErrorKind::Policy,
            SplitErrorView::FromBytesWithoutFromBits { .. } => ErrorKind::Policy,
        }
    }

    /// What to tell the user.
    pub open spec fn message(self) -> Seq<char> {
        match self {
            SplitErrorView::NotStructOrEnum => "item is not a struct or enum"@,
            SplitErrorView::FailedToParseDerive { reason, .. } => "failed to parse derive: "@
                + reason,
            SplitErrorView::BitsizeInternal { .. } => "remove bitsize_internal"@,
            SplitErrorView::DebugOnStruct { .. } => "use derive(DebugBits) for structs"@,
            SplitErrorView::FromBytesWithoutFromBits { .. } => {
                "a bitfield struct with zerocopy::FromBytes also needs to have FromBits"@
            },
        }
    }

    /// What to tell the user on how to mend it, where there is more to say.
    pub open spec fn help(self) -> Option<Seq<char>> {
        match self {
            SplitErrorView::NotStructOrEnum => Some(
                "`#[bitsize]` can only be used on structs and enums"@,
            ),
            SplitErrorView::BitsizeInternal { .. } => Some(
                "attribute bitsize_internal can only be applied internally by the bitsize macros"@,
            ),
            _ => None,
        }
    }
}

impl SplitError {
    /// The kind of the failure.
    pub fn kind(&self) -> (kind: ErrorKind)
        ensures
            kind == self@.kind(),
    {
        match self {
            SplitError::NotStructOrEnum => ErrorKind::Structure,
            SplitError::FailedToParseDerive { .. } => ErrorKind::Structure,
            SplitError::BitsizeInternal { .. } => ErrorKind::Policy,
            SplitError::DebugOnStruct { .. } => ErrorKind::Policy,
            SplitError::FromBytesWithoutFromBits { .. } => ErrorKind::Policy,
        }
    }

    /// What to tell the user.
    pub fn message(&self) -> (message: String)
        ensures
            message@ == self@.message(),
    {
        match self {
            SplitError::NotStructOrEnum => String::from_str("item is not a struct or enum"),
            SplitError::FailedToParseDerive { reason, .. } => {
                let mut message = String::from_str("failed to parse derive: ");
                message.append(reason.as_str());
                message
            },
            SplitError::BitsizeInternal { .. } => String::from_str("remove bitsize_internal"),
            SplitError::DebugOnStruct { .. } => String::from_str(
                "use derive(DebugBits) for structs",
            ),
            SplitError::FromBytesWithoutFromBits { .. } => String::from_str(
                "a bitfield struct with zerocopy::FromBytes also needs to have FromBits",
            ),
        }
    }

    /// What to tell the user on how to mend it, where there is more to say.
    pub fn help(&self) -> (help: Option<String>)
        ensures
            help is Some == self@.help() is Some,
            help matches Some(text) ==> self@.help() == Some(text@),
    {
        match self {
            SplitError::NotStructOrEnum => Some(
                String::from_str("`#[bitsize]` can only be used on structs and enums"),
            ),
            SplitError::BitsizeInternal { .. } => Some(
                String::from_str(
                    "attribute bitsize_internal can only be applied internally by the bitsize macros",
                ),
            ),
            _ => None,
        }
    }
}

} // verus!
