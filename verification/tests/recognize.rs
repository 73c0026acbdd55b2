use bilge_split::attribute::{Arguments, Attribute, Delimiter};
use bilge_split::derive::Derive;
use bilge_split::parse::{contains_anywhere, parse_attribute, ParsedAttribute, MAX_BRACKETS};
use bilge_split::path::Path;

fn path_of(leading_colon: bool, segments: &[&str]) -> Path {
    Path { leading_colon, segments: segments.iter().map(|s| s.to_string()).collect() }
}

fn plain(segments: &[&str]) -> Derive {
    Derive(path_of(false, segments))
}

fn list_of(name: &[&str], delimiter: Delimiter, tokens: &str) -> Attribute {
    Attribute {
        path: path_of(false, name),
        arguments: Arguments::List { delimiter, tokens: tokens.to_string() },
    }
}

fn derive_list(tokens: &str) -> Attribute {
    list_of(&["derive"], Delimiter::Paren, tokens)
}

#[test]
fn derive_list_is_read_in_the_order_written() {
    let attribute = derive_list("Clone, Copy, PartialEq, DebugBits, FromBits");
    assert_eq!(
        parse_attribute(&attribute),
        Ok(ParsedAttribute::DeriveList(vec![
            plain(&["Clone"]),
            plain(&["Copy"]),
            plain(&["PartialEq"]),
            plain(&["DebugBits"]),
            plain(&["FromBits"]),
        ]))
    );
}

#[test]
fn derive_list_keeps_qualified_paths() {
    let attribute = derive_list("zerocopy :: FromBytes, ::core::fmt::Debug, bilge::FromBits");
    assert_eq!(
        parse_attribute(&attribute),
        Ok(ParsedAttribute::DeriveList(vec![
            plain(&["zerocopy", "FromBytes"]),
            Derive(path_of(true, &["core", "fmt", "Debug"])),
            plain(&["bilge", "FromBits"]),
        ]))
    );
}

#[test]
fn derive_list_may_be_empty_or_end_in_a_comma() {
    assert_eq!(parse_attribute(&derive_list("")), Ok(ParsedAttribute::DeriveList(vec![])));
    assert_eq!(
        parse_attribute(&derive_list("Clone,")),
        Ok(ParsedAttribute::DeriveList(vec![plain(&["Clone"])]))
    );
    assert_eq!(
        parse_attribute(&derive_list("  Clone ,\n Copy  ")),
        Ok(ParsedAttribute::DeriveList(vec![plain(&["Clone"]), plain(&["Copy"])]))
    );
}

#[test]
fn derive_list_may_stand_in_any_brackets() {
    for delimiter in [Delimiter::Paren, Delimiter::Brace, Delimiter::Bracket] {
        let attribute = list_of(&["derive"], delimiter, "Clone");
        assert_eq!(
            parse_attribute(&attribute),
            Ok(ParsedAttribute::DeriveList(vec![plain(&["Clone"])]))
        );
    }
}

#[test]
fn derive_list_that_does_not_parse_is_a_failure() {
    assert_eq!(
        parse_attribute(&derive_list("1")),
        Err("unexpected literal in nested attribute, expected ident".to_string())
    );
    assert_eq!(parse_attribute(&derive_list("Clone(x)")), Err("expected `,`".to_string()));
    assert_eq!(parse_attribute(&derive_list("Clone Copy")), Err("expected `,`".to_string()));
    assert_eq!(parse_attribute(&derive_list("Clone = 1")), Err("expected `,`".to_string()));
    assert_eq!(
        parse_attribute(&derive_list(",")),
        Err("unexpected token in nested attribute, expected ident".to_string())
    );
    assert_eq!(
        parse_attribute(&derive_list("a::")),
        Err("unexpected end of input, expected ident".to_string())
    );
    assert_eq!(
        parse_attribute(&derive_list("(")),
        Err("cannot parse string into token stream".to_string())
    );
}

#[test]
fn derive_list_is_never_the_marker() {
    let attribute = derive_list("bitsize_internal");
    assert_eq!(
        parse_attribute(&attribute),
        Ok(ParsedAttribute::DeriveList(vec![plain(&["bitsize_internal"])]))
    );
    assert!(contains_anywhere(&attribute, "bitsize_internal"));
}

#[test]
fn derive_under_another_shape_is_no_list() {
    let bare = Attribute { path: path_of(false, &["derive"]), arguments: Arguments::Bare };
    assert_eq!(parse_attribute(&bare), Ok(ParsedAttribute::Other(&bare)));
    let value = Attribute {
        path: path_of(false, &["derive"]),
        arguments: Arguments::NameValue { value: "Clone".to_string() },
    };
    assert_eq!(parse_attribute(&value), Ok(ParsedAttribute::Other(&value)));
    let qualified = list_of(&["core", "derive"], Delimiter::Paren, "1");
    assert_eq!(parse_attribute(&qualified), Ok(ParsedAttribute::Other(&qualified)));
    let rooted = Attribute {
        path: path_of(true, &["derive"]),
        arguments: Arguments::List { delimiter: Delimiter::Paren, tokens: "1".to_string() },
    };
    assert_eq!(parse_attribute(&rooted), Ok(ParsedAttribute::Other(&rooted)));
}

#[test]
fn marker_is_found_in_the_path() {
    let short = list_of(&["bitsize_internal"], Delimiter::Paren, "6");
    assert_eq!(parse_attribute(&short), Ok(ParsedAttribute::BitsizeInternal(&short)));
    let long = list_of(&["bilge", "bitsize_internal"], Delimiter::Paren, "6");
    assert_eq!(parse_attribute(&long), Ok(ParsedAttribute::BitsizeInternal(&long)));
    let bare = Attribute {
        path: path_of(false, &["bitsize_internal"]),
        arguments: Arguments::Bare,
    };
    assert_eq!(parse_attribute(&bare), Ok(ParsedAttribute::BitsizeInternal(&bare)));
}

#[test]
fn marker_is_found_in_the_arguments() {
    let nested = list_of(&["cfg_attr"], Delimiter::Paren, "all(), bilge::bitsize_internal(6)");
    assert_eq!(parse_attribute(&nested), Ok(ParsedAttribute::BitsizeInternal(&nested)));
    let value = Attribute {
        path: path_of(false, &["doc"]),
        arguments: Arguments::NameValue { value: "\"see bitsize_internal\"".to_string() },
    };
    assert_eq!(parse_attribute(&value), Ok(ParsedAttribute::BitsizeInternal(&value)));
}

#[test]
fn marker_is_found_inside_a_longer_name() {
    let longer = list_of(&["my_bitsize_internals"], Delimiter::Paren, "");
    assert_eq!(parse_attribute(&longer), Ok(ParsedAttribute::BitsizeInternal(&longer)));
}

#[test]
fn other_attributes_pass_through() {
    let bitsize = list_of(&["bitsize"], Delimiter::Paren, "6");
    assert_eq!(parse_attribute(&bitsize), Ok(ParsedAttribute::Other(&bitsize)));
    let doc = Attribute {
        path: path_of(false, &["doc"]),
        arguments: Arguments::NameValue { value: "\" A bitfield.\"".to_string() },
    };
    assert_eq!(parse_attribute(&doc), Ok(ParsedAttribute::Other(&doc)));
    let bare = Attribute { path: path_of(false, &["non_exhaustive"]), arguments: Arguments::Bare };
    assert_eq!(parse_attribute(&bare), Ok(ParsedAttribute::Other(&bare)));
    let split = list_of(&["bitsize", "internal"], Delimiter::Paren, "");
    assert_eq!(parse_attribute(&split), Ok(ParsedAttribute::Other(&split)));
}

#[test]
fn recognition_repeats() {
    let attributes = [
        derive_list("Clone, DebugBits"),
        derive_list("1"),
        list_of(&["bitsize_internal"], Delimiter::Paren, "6"),
        list_of(&["repr"], Delimiter::Paren, "C"),
    ];
    for attribute in &attributes {
        assert_eq!(parse_attribute(attribute), parse_attribute(attribute));
    }
}

#[test]
fn contains_anywhere_reads_the_attribute_as_written() {
    let attribute = list_of(&["bilge", "bitsize"], Delimiter::Paren, "6");
    assert!(contains_anywhere(&attribute, "bitsize"));
    assert!(contains_anywhere(&attribute, "bilge::bitsize(6)"));
    assert!(contains_anywhere(&attribute, "e(6"));
    assert!(!contains_anywhere(&attribute, "bitsize_internal"));
    assert!(!contains_anywhere(&attribute, "bilge :: bitsize"));
}

#[test]
fn derive_list_with_too_many_brackets_is_not_read() {
    assert_eq!(MAX_BRACKETS, 64);
    let tokens = format!("Clone /* {} */", "[".repeat(MAX_BRACKETS + 1));
    assert_eq!(
        parse_attribute(&derive_list(&tokens)),
        Err("too many brackets in the list of derives".to_string())
    );
    let fewer = format!("Clone /* {} */", "[".repeat(MAX_BRACKETS));
    assert_eq!(
        parse_attribute(&derive_list(&fewer)),
        Ok(ParsedAttribute::DeriveList(vec![plain(&["Clone"])]))
    );
}

#[test]
fn derives_read_all_have_a_name() {
    for tokens in ["Clone, a::b, ::c", "self, r#type", " x ,"] {
        match parse_attribute(&derive_list(tokens)) {
            Ok(ParsedAttribute::DeriveList(derives)) => {
                assert!(derives.iter().all(|derive| !derive.0.segments.is_empty()))
            }
            other => panic!("no list of derives: {:?}", other),
        }
    }
}
