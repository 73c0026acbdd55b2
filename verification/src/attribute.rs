//! Attributes as they stand on an item: a path, and what follows it.

use vstd::prelude::*;
use vstd::string::*;
use crate::path::{Path, PathView};

verus! {

/// The brackets round the tokens of a list.
#[derive(Clone, Copy, PartialEq, Eq, Structural, Debug)]
pub enum Delimiter {
    /// `( .. )`
    Paren,
    /// `{ .. }`
    Brace,
    /// `[ .. ]`
    Bracket,
}

impl Delimiter {
    /// The opening bracket.
    pub open spec fn opening(self) -> Seq<char> {
        match self {
            Delimiter::Paren => "("@,
            Delimiter::Brace => "{"@,
            Delimiter::Bracket => "["@,
        }
    }

    /// The closing bracket.
    pub open spec fn closing(self) -> Seq<char> {
        match self {
            Delimiter::Paren => ")"@,
            Delimiter::Brace => "}"@,
            Delimiter::Bracket => "]"@,
        }
    }

    /// The opening bracket.
    pub fn open(self) -> (text: &'static str)
        ensures
            text@ == self.opening(),
    {
        match self {
            Delimiter::Paren => "(",
            Delimiter::Brace => "{",
            Delimiter::Bracket => "[",
        }
    }

    /// The closing bracket.
    pub fn close(self) -> (text: &'static str)
        ensures
            text@ == self.closing(),
    {
        match self {
            Delimiter::Paren => ")",
            Delimiter::Brace => "}",
            Delimiter::Bracket => "]",
        }
    }
}

/// What follows the path of an attribute. The tokens are kept as text and
/// are not looked into here.
#[derive(Debug, PartialEq, Eq)]
pub enum Arguments {
    /// Nothing: `#[path]`.
    Bare,
    /// Tokens in brackets: `#[path(tokens)]`.
    List { delimiter: Delimiter, tokens: String },
    /// A value: `#[path = value]`.
    NameValue { value: String },
}

/// What [`Arguments`] stand for.
pub enum ArgumentsView {
    Bare,
    List { delimiter: Delimiter, tokens: Seq<char> },
    NameValue { value: Seq<char> },
}

impl View for Arguments {
    type V = ArgumentsView;

    open spec fn view(&self) -> ArgumentsView {
        match self {
            Arguments::Bare => ArgumentsView::Bare,
            Arguments::List { delimiter, tokens } => ArgumentsView::List {
                delimiter: *delimiter,
                tokens: tokens@,
            },
            Arguments::NameValue { value } => ArgumentsView::NameValue { value: value@ },
        }
    }
}

impl Clone for Arguments {
    fn clone(&self) -> (copy: Arguments)
        ensures
            copy@ == self@,
    {
        match self {
            Arguments::Bare => Arguments::Bare,
            Arguments::List { delimiter, tokens } => Arguments::List {
                delimiter: *delimiter,
                tokens: tokens.clone(),
            },
            Arguments::NameValue { value } => Arguments::NameValue { value: value.clone() },
        }
    }
}

/// One attribute of an item, without its `#[` and `]`.
#[derive(Debug, PartialEq, Eq)]
pub struct Attribute {
    pub path: Path,
    pub arguments: Arguments,
}

/// What an [`Attribute`] stands for.
pub struct AttributeView {
    pub path: PathView,
    pub arguments: ArgumentsView,
}

impl View for Attribute {
    type V = AttributeView;

    open spec fn view(&self) -> AttributeView {
        AttributeView { path: self.path@, arguments: self.arguments@ }
    }
}

impl DeepView for Attribute {
    type V = AttributeView;

    open spec fn deep_view(&self) -> AttributeView {
        self@
    }
}

impl AttributeView {
    /// The attribute as it is written between `#[` and `]`: the path, then
    /// the tokens in their brackets or ` = ` and the value.
    pub open spec fn text(self) -> Seq<char> {
        match self.arguments {
            ArgumentsView::Bare => self.path.text(),
            ArgumentsView::List { delimiter, tokens } => self.path.text() + delimiter.opening()
                + tokens + delimiter.closing(),
            ArgumentsView::NameValue { value } => self.path.text() + " = "@ + value,
        }
    }

    /// The attribute is a list under the name `derive`.
    pub open spec fn is_derive_list(self) -> bool {
        self.arguments is List && self.path.is_ident("derive"@)
    }

    /// The tokens of a list; nothing for the other forms.
    pub open spec fn tokens(self) -> Seq<char> {
        match self.arguments {
            ArgumentsView::List { tokens, .. } => tokens,
            _ => Seq::empty(),
        }
    }
}

impl Attribute {
    /// The attribute as it is written between `#[` and `]`.
    pub fn to_string(&self) -> (text: String)
        ensures
            text@ == self@.text(),
    {
        let mut text = self.path.to_string();
        match &self.arguments {
            Arguments::Bare => {},
            Arguments::List { delimiter, tokens } => {
                text.append(delimiter.open());
                text.append(tokens.as_str());
                text.append(delimiter.close());
            },
            Arguments::NameValue { value } => {
                text.append(" = ");
                text.append(value.as_str());
            },
        }
        text
    }
}

impl Clone for Attribute {
    fn clone(&self) -> (copy: Attribute)
        ensures
            copy@ == self@,
    {
        Attribute { path: self.path.clone(), arguments: self.arguments.clone() }
    }
}

} // verus!
