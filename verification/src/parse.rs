//! Telling the attributes of an item apart: lists of derives, the marker of
//! the compression itself, and all the rest.

use vstd::prelude::*;
use vstd::string::*;
use crate::attribute::{Arguments, Attribute, AttributeView};
use crate::derive::Derive;
use crate::path::{Path, PathView};
use crate::text::{brackets_opened, contains, count_brackets, str_contains};

verus! {

/// A crude approximation of things we currently consider in item attributes.
#[derive(Debug, PartialEq, Eq)]
pub enum ParsedAttribute<'attr> {
    /// `#[derive(..)]`, with the derives of the list in the order written.
    DeriveList(Vec<Derive>),
    /// An attribute that mentions `bitsize_internal`.
    BitsizeInternal(&'attr Attribute),
    /// Any other attribute.
    Other(&'attr Attribute),
}

/// What a [`ParsedAttribute`] stands for.
pub enum ParsedView {
    DeriveList(Seq<PathView>),
    BitsizeInternal(AttributeView),
    Other(AttributeView),
}

impl<'attr> View for ParsedAttribute<'attr> {
    type V = ParsedView;

    open spec fn view(&self) -> ParsedView {
        match self {
            ParsedAttribute::DeriveList(derives) => ParsedView::DeriveList(derives.deep_view()),
            ParsedAttribute::BitsizeInternal(attribute) => ParsedView::BitsizeInternal(
                attribute@,
            ),
            ParsedAttribute::Other(attribute) => ParsedView::Other(attribute@),
        }
    }
}

impl<'attr> DeepView for ParsedAttribute<'attr> {
    type V = ParsedView;

    open spec fn deep_view(&self) -> ParsedView {
        self@
    }
}

/// What comes of telling one attribute apart: its kind, or why the tokens
/// of a `#[derive(..)]` are no list of paths.
pub type Parsed<'attr> = Result<ParsedAttribute<'attr>, String>;

/// What [`Parsed`] stands for.
pub type Recognized = Result<ParsedView, Seq<char>>;

/// What [`parse_attribute`] hands back, as [`Recognized`].
pub open spec fn recognized_view(parsed: Parsed<'_>) -> Recognized {
    match parsed {
        Ok(attribute) => Ok(attribute@),
        Err(reason) => Err(reason@),
    }
}

/// The most brackets that the tokens of a `#[derive(..)]` may open. A list
/// of paths opens none; tokens that open more are not read at all, so that
/// the reading never nests deeper than this.
pub const MAX_BRACKETS: usize = 64;

/// Every derive has a name: its path has a segment.
pub open spec fn all_named(derives: Seq<PathView>) -> bool {
    forall|i: int| 0 <= i < derives.len() ==> (#[trigger] derives[i]).segments.len() > 0
}

/// Reads `tokens` with the parser that `syn::meta::parser` makes of a
/// closure that keeps the path of each nested meta and consumes nothing,
/// run by `syn::parse::Parser::parse_str`. Of each path read, the leading
/// colon and the identifiers of the segments are handed back; of an error,
/// what it displays.
///
/// How `syn` reads a text is not stated here, and it need not read the same
/// text the same way twice: `proc-macro2` lexes with the compiler inside a
/// macro and by itself elsewhere. Taken on trust is only that every path
/// that it reads has a segment. Tokens that open more than [`MAX_BRACKETS`]
/// brackets are left out, because `syn` goes one call deeper for each
/// bracket that is open.
#[verifier::external_body]
fn parse_nested_meta(tokens: &str) -> (parsed: Result<Vec<Derive>, String>)
    requires
        brackets_opened(tokens@) <= MAX_BRACKETS,
    ensures
        parsed matches Ok(derives) ==> all_named(derives.deep_view()),
{
    let mut paths: Vec<syn::Path> = Vec::new();
    let parser = syn::meta::parser(|meta| { paths.push(meta.path); Ok(()) });
    match syn::parse::Parser::parse_str(parser, tokens) {
        Ok(()) => Ok(paths.iter().map(|path| Derive(Path {
            leading_colon: path.leading_colon.is_some(),
            segments: path.segments.iter().map(|segment| segment.ident.to_string()).collect(),
        })).collect()),
        Err(error) => Err(error.to_string()),
    }
}

/// What an attribute that is no list of derives is taken for: the marker,
/// if it mentions `bitsize_internal` anywhere, else any other attribute.
pub open spec fn told_apart(attribute: AttributeView) -> ParsedView {
    if contains(attribute.text(), "bitsize_internal"@) {
        ParsedView::BitsizeInternal(attribute)
    } else {
        ParsedView::Other(attribute)
    }
}

/// What an attribute may be taken for.
/// - A list under the name `derive` is a list of derives, whatever else it
///   holds, and its tokens have to parse. Whether they do, and into which
///   derives, is for `syn` to say each time: here it is either a failure or
///   a list of derives that all have a name. Tokens that open more than
///   [`MAX_BRACKETS`] brackets are a failure without being read.
/// - For any other attribute there is one answer, [`told_apart`].
pub open spec fn may_be_taken_for(attribute: AttributeView, outcome: Recognized) -> bool {
    if !attribute.is_derive_list() {
        outcome == Ok::<ParsedView, Seq<char>>(told_apart(attribute))
    } else if brackets_opened(attribute.tokens()) > MAX_BRACKETS {
        outcome == Err::<ParsedView, Seq<char>>("too many brackets in the list of derives"@)
    } else {
        match outcome {
            Err(_) => true,
            Ok(ParsedView::DeriveList(derives)) => all_named(derives),
            Ok(_) => false,
        }
    }
}

/// Slightly hacky. Attempts to recognize cases where an ident is
/// deeply-nested in the attribute: looks for it in the attribute as written.
pub fn contains_anywhere(attribute: &Attribute, ident: &str) -> (found: bool)
    ensures
        found == contains(attribute@.text(), ident@),
{
    let text = attribute.to_string();
    str_contains(text.as_str(), ident)
}

/// Tells what kind of attribute this is.
pub fn parse_attribute<'attr>(attribute: &'attr Attribute) -> (parsed: Parsed<'attr>)
    ensures
        may_be_taken_for(attribute@, recognized_view(parsed)),
{
    if attribute.path.is_ident("derive") {
        if let Arguments::List { tokens, .. } = &attribute.arguments {
            if count_brackets(tokens.as_str()) > MAX_BRACKETS {
                return Err(String::from_str("too many brackets in the list of derives"));
            }
            return match parse_nested_meta(tokens.as_str()) {
                Ok(derives) => Ok(ParsedAttribute::DeriveList(derives)),
                Err(reason) => Err(reason),
            };
        }
    }
    if contains_anywhere(attribute, "bitsize_internal") {
        Ok(ParsedAttribute::BitsizeInternal(attribute))
    } else {
        Ok(ParsedAttribute::Other(attribute))
    }
}

} // verus!
