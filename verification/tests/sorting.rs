use bilge_split::attribute::{Arguments, Attribute, Delimiter};
use bilge_split::derive::{Derive, Reserved};
use bilge_split::error::{ErrorKind, SplitError};
use bilge_split::parse::{parse_attribute, ParsedAttribute};
use bilge_split::path::Path;
use bilge_split::split::{
    expand_attributes, find_derive, partition, split_item_attributes, split_item_places,
    split_parsed_attributes, split_parsed_places, stops_sorting, validate, Expanded, Item,
    ItemKind, Place, Sorted, SplitAttributes,
};

fn path_of(leading_colon: bool, segments: &[&str]) -> Path {
    Path { leading_colon, segments: segments.iter().map(|s| s.to_string()).collect() }
}

fn list_of(name: &[&str], tokens: &str) -> Attribute {
    Attribute {
        path: path_of(false, name),
        arguments: Arguments::List { delimiter: Delimiter::Paren, tokens: tokens.to_string() },
    }
}

fn derive(tokens: &str) -> Attribute {
    list_of(&["derive"], tokens)
}

fn doc(text: &str) -> Attribute {
    Attribute {
        path: path_of(false, &["doc"]),
        arguments: Arguments::NameValue { value: format!("\"{}\"", text) },
    }
}

fn item(kind: ItemKind, attrs: Vec<Attribute>) -> Item {
    Item { kind, attrs }
}

fn target(name: &str) -> Derive {
    Derive(path_of(false, &name.split("::").collect::<Vec<_>>()))
}

fn written(attribute: usize) -> Place {
    Place { attribute, derive: None }
}

fn derived(attribute: usize, derive: usize) -> Place {
    Place { attribute, derive: Some(derive) }
}

fn targets(names: &[&str]) -> Vec<Derive> {
    names.iter().map(|name| target(name)).collect()
}

#[test]
fn struct_with_mixed_derives_is_split() {
    let input = item(
        ItemKind::Struct,
        vec![derive("Clone, Copy, PartialEq, DebugBits, FromBits")],
    );
    assert_eq!(
        split_item_attributes(&input),
        Ok(SplitAttributes {
            before_compression: vec![derive("DebugBits"), derive("FromBits")],
            after_compression: vec![derive("Clone"), derive("Copy"), derive("PartialEq")],
        })
    );
}

#[test]
fn struct_from_bytes_without_from_bits_is_refused() {
    let input = item(ItemKind::Struct, vec![derive("FromBytes")]);
    let error = split_item_attributes(&input).unwrap_err();
    assert_eq!(error, SplitError::FromBytesWithoutFromBits { attribute: 0, derive: 0 });
    assert_eq!(error.kind(), ErrorKind::Policy);
    assert!(error.message().contains("FromBytes"));
    assert_eq!(
        error.message(),
        "a bitfield struct with zerocopy::FromBytes also needs to have FromBits"
    );
}

#[test]
fn struct_from_bytes_with_from_bits_is_split() {
    let input = item(ItemKind::Struct, vec![derive("FromBytes"), derive("FromBits")]);
    assert_eq!(
        split_item_attributes(&input),
        Ok(SplitAttributes {
            before_compression: vec![derive("FromBits")],
            after_compression: vec![derive("FromBytes")],
        })
    );
    let qualified = item(
        ItemKind::Struct,
        vec![derive("bilge::FromBits, zerocopy::FromBytes")],
    );
    assert_eq!(
        split_item_attributes(&qualified),
        Ok(SplitAttributes {
            before_compression: vec![derive("bilge::FromBits")],
            after_compression: vec![derive("zerocopy::FromBytes")],
        })
    );
}

#[test]
fn struct_from_bytes_needs_from_bits_by_that_name() {
    let input = item(ItemKind::Struct, vec![derive("zerocopy::FromBytes, other::FromBits")]);
    assert_eq!(
        split_item_attributes(&input),
        Err(SplitError::FromBytesWithoutFromBits { attribute: 0, derive: 0 })
    );
    let try_from = item(ItemKind::Struct, vec![derive("TryFromBits"), derive("Clone, FromBytes")]);
    assert_eq!(
        split_item_attributes(&try_from),
        Err(SplitError::FromBytesWithoutFromBits { attribute: 1, derive: 1 })
    );
}

#[test]
fn struct_first_from_bytes_is_reported() {
    let input = item(
        ItemKind::Struct,
        vec![doc("x"), derive("Clone, FromBytes, zerocopy::FromBytes"), derive("FromBytes")],
    );
    assert_eq!(
        split_item_attributes(&input),
        Err(SplitError::FromBytesWithoutFromBits { attribute: 1, derive: 1 })
    );
}

#[test]
fn struct_from_bytes_behind_a_leading_colon_is_ordinary() {
    let input = item(ItemKind::Struct, vec![derive("::zerocopy::FromBytes")]);
    assert_eq!(
        split_item_attributes(&input),
        Ok(SplitAttributes {
            before_compression: vec![],
            after_compression: vec![derive("::zerocopy::FromBytes")],
        })
    );
}

#[test]
fn enum_from_bytes_without_from_bits_is_split() {
    let input = item(ItemKind::Enum, vec![derive("FromBytes")]);
    assert_eq!(
        split_item_attributes(&input),
        Ok(SplitAttributes {
            before_compression: vec![derive("FromBytes")],
            after_compression: vec![],
        })
    );
}

#[test]
fn struct_debug_is_refused() {
    let input = item(ItemKind::Struct, vec![derive("Debug")]);
    let error = split_item_attributes(&input).unwrap_err();
    assert_eq!(error, SplitError::DebugOnStruct { attribute: 0, derive: 0 });
    assert_eq!(error.kind(), ErrorKind::Policy);
    assert_eq!(error.message(), "use derive(DebugBits) for structs");
    assert_eq!(error.help(), None);
}

#[test]
fn struct_debug_is_refused_in_every_spelling() {
    for (place, spelling) in ["Debug", "fmt::Debug", "core::fmt::Debug", "std :: fmt :: Debug"]
        .iter()
        .enumerate()
    {
        let mut names = vec!["Clone", "Copy", "FromBits", "DebugBits"];
        names.insert(place, spelling);
        let input = item(ItemKind::Struct, vec![doc("x"), derive(&names.join(", "))]);
        assert_eq!(
            split_item_attributes(&input),
            Err(SplitError::DebugOnStruct { attribute: 1, derive: place })
        );
    }
}

#[test]
fn struct_first_debug_is_reported() {
    let input = item(
        ItemKind::Struct,
        vec![derive("Clone"), derive("Copy, std::fmt::Debug, Debug"), derive("Debug")],
    );
    assert_eq!(
        split_item_attributes(&input),
        Err(SplitError::DebugOnStruct { attribute: 1, derive: 1 })
    );
}

#[test]
fn struct_debug_comes_before_missing_from_bits() {
    let input = item(ItemKind::Struct, vec![derive("FromBytes"), derive("Debug")]);
    assert_eq!(
        split_item_attributes(&input),
        Err(SplitError::DebugOnStruct { attribute: 1, derive: 0 })
    );
}

#[test]
fn struct_other_debugs_are_ordinary() {
    let input = item(
        ItemKind::Struct,
        vec![derive("::std::fmt::Debug, my::Debug, DebugBits, derive_more::Debug")],
    );
    assert_eq!(
        split_item_attributes(&input),
        Ok(SplitAttributes {
            before_compression: vec![derive("DebugBits")],
            after_compression: vec![
                derive("::std::fmt::Debug"),
                derive("my::Debug"),
                derive("derive_more::Debug"),
            ],
        })
    );
}

#[test]
fn enum_debug_is_split() {
    let input = item(ItemKind::Enum, vec![derive("Debug, Clone, FromBits")]);
    assert_eq!(
        split_item_attributes(&input),
        Ok(SplitAttributes {
            before_compression: vec![derive("FromBits"), derive("Debug"), derive("Clone")],
            after_compression: vec![],
        })
    );
}

#[test]
fn marker_is_refused_wherever_it_stands() {
    let marker = list_of(&["bilge", "bitsize_internal"], "6");
    for kind in [ItemKind::Struct, ItemKind::Enum] {
        for place in 0..4 {
            let mut attrs = vec![derive("Clone, FromBits"), doc("x"), list_of(&["repr"], "u8")];
            attrs.insert(place, marker.clone());
            let error = split_item_attributes(&item(kind, attrs)).unwrap_err();
            assert_eq!(error, SplitError::BitsizeInternal { attribute: place });
            assert_eq!(error.kind(), ErrorKind::Policy);
            assert_eq!(error.message(), "remove bitsize_internal");
            assert_eq!(
                error.help(),
                Some(
                    "attribute bitsize_internal can only be applied internally by the bitsize macros"
                        .to_string()
                )
            );
        }
    }
}

#[test]
fn marker_comes_before_the_rules_on_derives() {
    let input = item(
        ItemKind::Struct,
        vec![derive("Debug, FromBytes"), list_of(&["bitsize_internal"], "6")],
    );
    assert_eq!(split_item_attributes(&input), Err(SplitError::BitsizeInternal { attribute: 1 }));
}

#[test]
fn first_marker_is_reported() {
    let input = item(
        ItemKind::Enum,
        vec![doc("x"), list_of(&["bitsize_internal"], "6"), list_of(&["bitsize_internal"], "7")],
    );
    assert_eq!(split_item_attributes(&input), Err(SplitError::BitsizeInternal { attribute: 1 }));
}

#[test]
fn marker_inside_a_derive_list_is_a_derive() {
    let input = item(ItemKind::Struct, vec![derive("bitsize_internal")]);
    assert_eq!(
        split_item_attributes(&input),
        Ok(SplitAttributes {
            before_compression: vec![],
            after_compression: vec![derive("bitsize_internal")],
        })
    );
}

#[test]
fn derive_that_does_not_parse_is_refused() {
    let input = item(ItemKind::Struct, vec![doc("x"), derive("Clone, 1")]);
    let error = split_item_attributes(&input).unwrap_err();
    assert_eq!(
        error,
        SplitError::FailedToParseDerive {
            attribute: 1,
            reason: "unexpected literal in nested attribute, expected ident".to_string(),
        }
    );
    assert_eq!(error.kind(), ErrorKind::Structure);
    assert_eq!(
        error.message(),
        "failed to parse derive: unexpected literal in nested attribute, expected ident"
    );
    assert_eq!(error.help(), None);
}

#[test]
fn first_attribute_that_stops_the_sorting_is_reported() {
    let marker = list_of(&["bitsize_internal"], "6");
    let broken = derive("Clone Copy");
    let first = item(ItemKind::Struct, vec![derive("Debug"), broken.clone(), marker.clone()]);
    assert_eq!(
        split_item_attributes(&first),
        Err(SplitError::FailedToParseDerive { attribute: 1, reason: "expected `,`".to_string() })
    );
    let second = item(ItemKind::Struct, vec![derive("Debug"), marker, broken]);
    assert_eq!(split_item_attributes(&second), Err(SplitError::BitsizeInternal { attribute: 1 }));
}

#[test]
fn item_that_is_no_struct_or_enum_is_refused() {
    for attrs in [
        vec![],
        vec![derive("Clone")],
        vec![derive("1")],
        vec![list_of(&["bitsize_internal"], "")],
    ] {
        let error = split_item_attributes(&item(ItemKind::Other, attrs)).unwrap_err();
        assert_eq!(error, SplitError::NotStructOrEnum);
        assert_eq!(error.kind(), ErrorKind::Structure);
        assert_eq!(error.message(), "item is not a struct or enum");
        assert_eq!(
            error.help(),
            Some("`#[bitsize]` can only be used on structs and enums".to_string())
        );
    }
}

#[test]
fn item_without_attributes_has_empty_sides() {
    for kind in [ItemKind::Struct, ItemKind::Enum] {
        assert_eq!(
            split_item_attributes(&item(kind, vec![])),
            Ok(SplitAttributes { before_compression: vec![], after_compression: vec![] })
        );
    }
}

#[test]
fn struct_sides_keep_the_order_written() {
    let repr = list_of(&["repr"], "C");
    let input = item(
        ItemKind::Struct,
        vec![
            doc("first"),
            derive("Clone, FromBits, Copy"),
            repr.clone(),
            derive("DebugBits, my::SerializeBits, PartialEq"),
            derive(""),
            doc("last"),
        ],
    );
    assert_eq!(
        split_item_attributes(&input),
        Ok(SplitAttributes {
            before_compression: vec![
                derive("FromBits"),
                derive("DebugBits"),
                derive("my::SerializeBits"),
            ],
            after_compression: vec![
                doc("first"),
                derive("Clone"),
                derive("Copy"),
                repr,
                derive("PartialEq"),
                doc("last"),
            ],
        })
    );
}

#[test]
fn struct_sides_hold_every_attribute_once() {
    let input = item(
        ItemKind::Struct,
        vec![derive("Clone, FromBits, Clone, FromBits"), doc("x"), doc("x")],
    );
    let split = split_item_attributes(&input).unwrap();
    assert_eq!(split.before_compression, vec![derive("FromBits"), derive("FromBits")]);
    assert_eq!(split.after_compression, vec![derive("Clone"), derive("Clone"), doc("x"), doc("x")]);
    assert_eq!(split.before_compression.len() + split.after_compression.len(), 6);
    for before in &split.before_compression {
        assert!(!split.after_compression.contains(before));
    }
}

#[test]
fn enum_has_everything_before_compression() {
    let repr = list_of(&["repr"], "u8");
    let input = item(
        ItemKind::Enum,
        vec![doc("first"), derive("Clone, FromBits, Debug"), repr.clone(), derive("DebugBits")],
    );
    assert_eq!(
        split_item_attributes(&input),
        Ok(SplitAttributes {
            before_compression: vec![
                derive("FromBits"),
                derive("DebugBits"),
                doc("first"),
                derive("Clone"),
                derive("Debug"),
                repr,
            ],
            after_compression: vec![],
        })
    );
}

#[test]
fn derives_are_written_without_spaces() {
    let input = item(ItemKind::Struct, vec![derive(" zerocopy :: AsBytes ,bilge :: FromBits ")]);
    assert_eq!(
        split_item_attributes(&input),
        Ok(SplitAttributes {
            before_compression: vec![derive("bilge::FromBits")],
            after_compression: vec![derive("zerocopy::AsBytes")],
        })
    );
}

#[test]
fn split_parsed_attributes_sorts_given_values() {
    let doc = doc("x");
    let parsed = || {
        vec![
            Ok(ParsedAttribute::Other(&doc)),
            Ok(ParsedAttribute::DeriveList(targets(&["Clone", "FromBits", "zerocopy::FromBytes"]))),
        ]
    };
    assert_eq!(
        split_parsed_attributes(ItemKind::Struct, parsed()),
        Ok(SplitAttributes {
            before_compression: vec![derive("FromBits")],
            after_compression: vec![doc.clone(), derive("Clone"), derive("zerocopy::FromBytes")],
        })
    );
    assert_eq!(
        split_parsed_attributes(ItemKind::Enum, parsed()),
        Ok(SplitAttributes {
            before_compression: vec![
                derive("FromBits"),
                doc.clone(),
                derive("Clone"),
                derive("zerocopy::FromBytes"),
            ],
            after_compression: vec![],
        })
    );
    assert_eq!(
        split_parsed_attributes(ItemKind::Other, parsed()),
        Err(SplitError::NotStructOrEnum)
    );
}

#[test]
fn split_parsed_attributes_reports_given_failures() {
    let marker = list_of(&["bitsize_internal"], "6");
    let parsed = vec![
        Ok(ParsedAttribute::DeriveList(targets(&["Debug"]))),
        Err("no list".to_string()),
        Ok(ParsedAttribute::BitsizeInternal(&marker)),
    ];
    let error = split_parsed_attributes(ItemKind::Enum, parsed).unwrap_err();
    assert_eq!(
        error,
        SplitError::FailedToParseDerive { attribute: 1, reason: "no list".to_string() }
    );
    assert_eq!(error.message(), "failed to parse derive: no list");
}

#[test]
fn split_parsed_attributes_takes_a_given_other_as_it_is() {
    let inner = derive("FromBits, Debug");
    let parsed = vec![Ok(ParsedAttribute::Other(&inner))];
    assert_eq!(
        split_parsed_attributes(ItemKind::Struct, parsed),
        Ok(SplitAttributes { before_compression: vec![], after_compression: vec![inner.clone()] })
    );
}

#[test]
fn validate_names_the_rule() {
    let marker = list_of(&["bitsize_internal"], "6");
    let fine = vec![Ok(ParsedAttribute::DeriveList(targets(&["Clone", "FromBytes", "FromBits"])))];
    assert_eq!(validate(ItemKind::Struct, &fine), None);
    assert_eq!(validate(ItemKind::Enum, &fine), None);
    assert_eq!(validate(ItemKind::Other, &fine), Some(SplitError::NotStructOrEnum));
    let alone = vec![Ok(ParsedAttribute::DeriveList(targets(&["Clone", "FromBytes"])))];
    assert_eq!(
        validate(ItemKind::Struct, &alone),
        Some(SplitError::FromBytesWithoutFromBits { attribute: 0, derive: 1 })
    );
    assert_eq!(validate(ItemKind::Enum, &alone), None);
    let debug = vec![Ok(ParsedAttribute::DeriveList(targets(&["core::fmt::Debug"])))];
    assert_eq!(
        validate(ItemKind::Struct, &debug),
        Some(SplitError::DebugOnStruct { attribute: 0, derive: 0 })
    );
    assert_eq!(validate(ItemKind::Enum, &debug), None);
    let marked = vec![Ok(ParsedAttribute::BitsizeInternal(&marker))];
    assert_eq!(
        validate(ItemKind::Enum, &marked),
        Some(SplitError::BitsizeInternal { attribute: 0 })
    );
}

#[test]
fn expand_attributes_takes_lists_apart() {
    let repr = list_of(&["repr"], "C");
    let doc = doc("x");
    let parsed = vec![
        Ok(ParsedAttribute::Other(&doc)),
        Ok(ParsedAttribute::DeriveList(targets(&["Debug", "DebugBits", "a::Bits"]))),
        Ok(ParsedAttribute::DeriveList(vec![])),
        Ok(ParsedAttribute::Other(&repr)),
    ];
    assert_eq!(
        expand_attributes(parsed),
        vec![
            Expanded { attribute: doc.clone(), bitfield: false, place: written(0) },
            Expanded { attribute: derive("Debug"), bitfield: false, place: derived(1, 0) },
            Expanded { attribute: derive("DebugBits"), bitfield: true, place: derived(1, 1) },
            Expanded { attribute: derive("a::Bits"), bitfield: true, place: derived(1, 2) },
            Expanded { attribute: repr.clone(), bitfield: false, place: written(3) },
        ]
    );
    assert_eq!(expand_attributes(vec![]), vec![]);
}

#[test]
fn partition_goes_by_the_side_given() {
    let expanded = || {
        vec![
            Expanded { attribute: doc("a"), bitfield: false, place: written(0) },
            Expanded { attribute: derive("Debug"), bitfield: true, place: derived(1, 0) },
            Expanded { attribute: doc("b"), bitfield: true, place: written(2) },
            Expanded { attribute: derive("DebugBits"), bitfield: false, place: derived(3, 1) },
        ]
    };
    let sides = SplitAttributes {
        before_compression: vec![derive("Debug"), doc("b")],
        after_compression: vec![doc("a"), derive("DebugBits")],
    };
    let on_struct = partition(ItemKind::Struct, expanded());
    assert_eq!(on_struct.attributes, sides);
    assert_eq!(on_struct.before_places, vec![derived(1, 0), written(2)]);
    assert_eq!(on_struct.after_places, vec![written(0), derived(3, 1)]);
    let on_enum = partition(ItemKind::Enum, expanded());
    assert_eq!(
        on_enum.attributes,
        SplitAttributes {
            before_compression: vec![derive("Debug"), doc("b"), doc("a"), derive("DebugBits")],
            after_compression: vec![],
        }
    );
    assert_eq!(
        on_enum.before_places,
        vec![derived(1, 0), written(2), written(0), derived(3, 1)]
    );
    assert_eq!(on_enum.after_places, vec![]);
    let on_other = partition(ItemKind::Other, expanded());
    assert_eq!(on_other.attributes, sides);
    let empty = partition(ItemKind::Struct, vec![]);
    assert_eq!(
        empty.attributes,
        SplitAttributes { before_compression: vec![], after_compression: vec![] }
    );
    assert_eq!((empty.before_places, empty.after_places), (vec![], vec![]));
}

#[test]
fn places_name_where_each_attribute_came_from() {
    let repr = list_of(&["repr"], "C");
    let attrs = vec![
        doc("first"),
        derive("Clone, FromBits, Copy"),
        repr.clone(),
        derive(""),
        derive("DebugBits, PartialEq"),
        doc("first"),
    ];
    let Sorted { attributes, before_places, after_places } =
        split_item_places(&item(ItemKind::Struct, attrs.clone())).unwrap();
    assert_eq!(attributes, split_item_attributes(&item(ItemKind::Struct, attrs.clone())).unwrap());
    assert_eq!(before_places, vec![derived(1, 1), derived(4, 0)]);
    assert_eq!(
        after_places,
        vec![written(0), derived(1, 0), derived(1, 2), written(2), derived(4, 1), written(5)]
    );
    for (attribute, place) in attributes.after_compression.iter().zip(&after_places) {
        if place.derive.is_none() {
            assert_eq!(*attribute, attrs[place.attribute]);
        }
    }
    let on_enum = split_item_places(&item(ItemKind::Enum, attrs.clone())).unwrap();
    assert_eq!(
        on_enum.before_places,
        vec![
            derived(1, 1),
            derived(4, 0),
            written(0),
            derived(1, 0),
            derived(1, 2),
            written(2),
            derived(4, 1),
            written(5),
        ]
    );
    assert_eq!(on_enum.after_places, vec![]);
}

#[test]
fn places_come_with_the_same_refusals() {
    let input = item(ItemKind::Struct, vec![derive("Clone"), derive("Debug")]);
    assert_eq!(
        split_item_places(&input).unwrap_err(),
        SplitError::DebugOnStruct { attribute: 1, derive: 0 }
    );
    let doc = doc("x");
    let parsed = vec![Ok(ParsedAttribute::Other(&doc)), Err("no list".to_string())];
    assert_eq!(
        split_parsed_places(ItemKind::Enum, parsed).unwrap_err(),
        SplitError::FailedToParseDerive { attribute: 1, reason: "no list".to_string() }
    );
    let parsed = vec![
        Ok(ParsedAttribute::Other(&doc)),
        Ok(ParsedAttribute::DeriveList(targets(&["FromBits"]))),
    ];
    let sorted = split_parsed_places(ItemKind::Struct, parsed).unwrap();
    assert_eq!(sorted.before_places, vec![derived(1, 0)]);
    assert_eq!(sorted.after_places, vec![written(0)]);
}

#[test]
fn find_derive_gives_the_first_place() {
    let doc = doc("x");
    let parsed = vec![
        Ok(ParsedAttribute::Other(&doc)),
        Ok(ParsedAttribute::DeriveList(targets(&["Clone", "fmt::Debug", "Debug"]))),
        Err("no list".to_string()),
        Ok(ParsedAttribute::DeriveList(targets(&["Debug", "bilge::FromBits"]))),
    ];
    assert_eq!(find_derive(&parsed, Reserved::Debug), Some((1, 1)));
    assert_eq!(find_derive(&parsed, Reserved::FromBits), Some((3, 1)));
    assert_eq!(find_derive(&parsed, Reserved::FromBytes), None);
    assert_eq!(find_derive(&vec![], Reserved::Debug), None);
}

#[test]
fn derive_list_becomes_one_attribute_for_each_derive() {
    let list = derive("Clone, a::b, ::c::DBits, Copy, PartialEq, my::FromBits, Eq");
    let derives = match parse_attribute(&list) {
        Ok(ParsedAttribute::DeriveList(derives)) => derives,
        other => panic!("no list of derives: {:?}", other),
    };
    assert_eq!(derives.len(), 7);
    let split = split_item_attributes(&item(ItemKind::Struct, vec![list.clone()])).unwrap();
    assert_eq!(split.before_compression.len() + split.after_compression.len(), 7);
    let mut before = split.before_compression.iter();
    let mut after = split.after_compression.iter();
    for derive in &derives {
        let side = if derive.is_bitfield_derive() { &mut before } else { &mut after };
        let attribute = side.next().unwrap();
        assert_eq!(*attribute, derive.clone().into_attribute());
        assert_eq!(
            parse_attribute(attribute),
            Ok(ParsedAttribute::DeriveList(vec![derive.clone()]))
        );
    }
    assert_eq!(before.next(), None);
    assert_eq!(after.next(), None);
}

#[test]
fn sorting_again_changes_nothing_on_either_side() {
    let input = item(
        ItemKind::Struct,
        vec![doc("x"), derive("Clone, FromBits, Copy, DebugBits"), list_of(&["repr"], "C")],
    );
    let split = split_item_attributes(&input).unwrap();
    let before = split_item_attributes(&item(ItemKind::Struct, split.before_compression.clone()));
    assert_eq!(
        before,
        Ok(SplitAttributes {
            before_compression: split.before_compression.clone(),
            after_compression: vec![],
        })
    );
    let after = split_item_attributes(&item(ItemKind::Struct, split.after_compression.clone()));
    assert_eq!(
        after,
        Ok(SplitAttributes {
            before_compression: vec![],
            after_compression: split.after_compression.clone(),
        })
    );
}

#[test]
fn derive_clone_is_equal() {
    let derive = target("zerocopy::FromBytes");
    assert_eq!(derive.clone(), derive);
}

#[test]
fn sorting_stops_at_failures_and_markers_only() {
    let marker = list_of(&["bitsize_internal"], "6");
    let doc = doc("x");
    assert!(stops_sorting(&Err("no list".to_string())));
    assert!(stops_sorting(&Ok(ParsedAttribute::BitsizeInternal(&marker))));
    assert!(!stops_sorting(&Ok(ParsedAttribute::Other(&doc))));
    assert!(!stops_sorting(&Ok(ParsedAttribute::DeriveList(targets(&["Debug"])))));
    assert!(!stops_sorting(&Ok(ParsedAttribute::DeriveList(vec![]))));
}

#[test]
fn derive_that_opens_too_many_brackets_is_refused_unread() {
    let nested = format!("Clone, a{}{}", "(".repeat(65), ")".repeat(65));
    let input = item(ItemKind::Struct, vec![derive(&nested)]);
    let error = split_item_attributes(&input).unwrap_err();
    assert_eq!(
        error,
        SplitError::FailedToParseDerive {
            attribute: 0,
            reason: "too many brackets in the list of derives".to_string(),
        }
    );
    assert_eq!(error.kind(), ErrorKind::Structure);
    let allowed = format!("Clone, a{}{}", "(".repeat(64), ")".repeat(64));
    assert_eq!(
        split_item_attributes(&item(ItemKind::Struct, vec![derive(&allowed)])),
        Err(SplitError::FailedToParseDerive { attribute: 0, reason: "expected `,`".to_string() })
    );
}

#[test]
fn other_attribute_may_open_any_number_of_brackets() {
    let nested = list_of(&["cfg"], &format!("{}{}", "(".repeat(100), ")".repeat(100)));
    let input = item(ItemKind::Enum, vec![nested.clone()]);
    assert_eq!(
        split_item_attributes(&input),
        Ok(SplitAttributes { before_compression: vec![nested], after_compression: vec![] })
    );
}
