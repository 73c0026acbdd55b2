//! What holds of the sorting as a whole.

use vstd::prelude::*;
use crate::attribute::{Attribute, AttributeView};
use crate::derive::{derive_attribute, is_bitfield_derive, reserved, Reserved};
use crate::error::{ErrorKind, SplitErrorView};
use crate::parse::{may_be_taken_for, recognized_view, Parsed, ParsedView, Recognized};
use crate::path::{joined, PathView};
use crate::split::{
    agree,
    all_pass,
    applied_after,
    applied_before,
    attribute_of,
    derives_of,
    earlier,
    expand,
    expand_derives,
    expansion,
    first_named,
    is_bitfield,
    is_derived,
    is_ordinary,
    lemma_expansion_grows,
    lemma_first_named_is_one,
    lemma_first_stop_exists,
    lemma_sides_grow,
    may_come_of,
    names,
    place_of,
    split,
    split_places,
    stops,
    the_first_named,
    the_first_stop,
    ExpandedView,
    ItemKind,
    ItemView,
    PlaceView,
    SplitView,
};
use crate::text::contains;

verus! {

/// Telling an attribute apart a second time gives the same kind of
/// attribute, where both times give one. For an attribute that is no list of
/// derives both times give the same value. For a list of derives either time
/// may fail, as `syn` reads it; when neither does, both are lists of derives.
pub proof fn lemma_recognition_repeats<'attr>(
    attribute: Attribute,
    first: Parsed<'attr>,
    second: Parsed<'attr>,
)
    requires
        may_be_taken_for(attribute@, recognized_view(first)),
        may_be_taken_for(attribute@, recognized_view(second)),
    ensures
        !attribute@.is_derive_list() ==> first is Ok && recognized_view(first) == recognized_view(
            second,
        ),
        first is Ok && second is Ok ==> {
            &&& first->Ok_0 is DeriveList == second->Ok_0 is DeriveList
            &&& first->Ok_0 is BitsizeInternal == second->Ok_0 is BitsizeInternal
            &&& first->Ok_0 is Other == second->Ok_0 is Other
        },
{
}

/// No attribute is a list of derives.
pub open spec fn no_lists(attrs: Seq<AttributeView>) -> bool {
    forall|i: int| 0 <= i < attrs.len() ==> !(#[trigger] attrs[i]).is_derive_list()
}

/// For an item without lists of derives there is one answer: nothing is left
/// to what `syn` reads.
pub proof fn lemma_plain_item_is_decided(
    item: ItemView,
    first: Result<SplitView, SplitErrorView>,
    second: Result<SplitView, SplitErrorView>,
)
    requires
        no_lists(item.attrs),
        may_come_of(item, first),
        may_come_of(item, second),
    ensures
        first == second,
{
    let one = choose|outcomes: Seq<Recognized>| #[trigger]
        agree(item.attrs, outcomes) && first == split(item.kind, outcomes);
    let other = choose|outcomes: Seq<Recognized>| #[trigger]
        agree(item.attrs, outcomes) && second == split(item.kind, outcomes);
    assert(one =~= other);
}

/// A struct or an enum without lists of derives is sorted, unless one of its
/// attributes mentions `bitsize_internal`.
pub proof fn lemma_plain_item_passes(item: ItemView, result: Result<SplitView, SplitErrorView>)
    requires
        item.kind !is Other,
        no_lists(item.attrs),
        forall|i: int|
            0 <= i < item.attrs.len() ==> !contains(
                (#[trigger] item.attrs[i]).text(),
                "bitsize_internal"@,
            ),
        may_come_of(item, result),
    ensures
        result is Ok,
{
    let outcomes = choose|outcomes: Seq<Recognized>| #[trigger]
        agree(item.attrs, outcomes) && result == split(item.kind, outcomes);
    assert forall|name: Reserved| !is_derived(outcomes, name) by {
        if is_derived(outcomes, name) {
            let (a, d) = choose|a: int, d: int| names(outcomes, name, a, d);
            assert(!item.attrs[a].is_derive_list());
        }
    }
    assert(all_pass(outcomes)) by {
        assert forall|at: int| 0 <= at < outcomes.len() implies !stops(
            #[trigger] outcomes[at],
        ) by {
            assert(!item.attrs[at].is_derive_list());
        }
    }
    lemma_success(item.kind, outcomes);
}

/// A list of derives is taken apart into as many `#[derive(..)]` as it has
/// derives. Each holds one derive of the list, as written, and nothing else;
/// they come in the order of the list, and each knows its place in it.
pub proof fn lemma_expansion_is_complete(attribute: int, derives: Seq<PathView>)
    ensures
        expand_derives(attribute, derives).len() == derives.len(),
        forall|i: int|
            0 <= i < derives.len() ==> {
                let one = #[trigger] expand_derives(attribute, derives)[i];
                &&& one.attribute == derive_attribute(derives[i])
                &&& one.attribute.is_derive_list()
                &&& one.attribute.tokens() == derives[i].text()
                &&& one.bitfield == is_bitfield_derive(derives[i])
                &&& one.place == (PlaceView { attribute, derive: Some(i) })
            },
        applied_before(expand_derives(attribute, derives)).len() + applied_after(
            expand_derives(attribute, derives),
        ).len() == derives.len(),
{
    lemma_sides_cover(expand_derives(attribute, derives));
}

/// Where some derive is `name`, one of them is the first.
pub proof fn lemma_first_named_exists(
    outcomes: Seq<Recognized>,
    name: Reserved,
    attribute: int,
    derive: int,
)
    requires
        names(outcomes, name, attribute, derive),
    ensures
        ({
            let (first, place) = the_first_named(outcomes, name);
            &&& first_named(outcomes, name, first, place)
            &&& !earlier(attribute, derive, first, place)
        }),
        is_derived(outcomes, name),
    decreases attribute, derive,
{
    if exists|a: int, d: int| earlier(a, d, attribute, derive) && names(outcomes, name, a, d) {
        let (a, d) = choose|a: int, d: int|
            earlier(a, d, attribute, derive) && names(outcomes, name, a, d);
        lemma_first_named_exists(outcomes, name, a, d);
    } else {
        lemma_first_named_is_one(outcomes, name, attribute, derive);
    }
}

/// The two sides hold together what was there to sort, each attribute as
/// often as it was there.
pub proof fn lemma_sides_cover(expanded: Seq<ExpandedView>)
    ensures
        applied_before(expanded).to_multiset().add(applied_after(expanded).to_multiset())
            == expanded.map_values(attribute_of()).to_multiset(),
        applied_before(expanded).len() + applied_after(expanded).len() == expanded.len(),
    decreases expanded.len(),
{
    broadcast use vstd::seq_lib::group_to_multiset_ensures;

    if expanded.len() > 0 {
        let front = expanded.drop_last();
        let next = expanded.last();
        assert(expanded =~= front.push(next));
        lemma_sides_cover(front);
        lemma_sides_grow(front, next);
        assert(expanded.map_values(attribute_of()) =~= front.map_values(attribute_of()).push(
            next.attribute,
        ));
    }
}

/// What stands on a side was there to sort, and belongs on that side.
pub proof fn lemma_sides_hold_their_own(expanded: Seq<ExpandedView>)
    ensures
        forall|attribute: AttributeView| #[trigger]
            applied_before(expanded).contains(attribute) <==> exists|i: int|
                0 <= i < expanded.len() && expanded[i].bitfield && #[trigger] expanded[i].attribute
                    == attribute,
        forall|attribute: AttributeView| #[trigger]
            applied_after(expanded).contains(attribute) <==> exists|i: int|
                0 <= i < expanded.len() && !expanded[i].bitfield
                    && #[trigger] expanded[i].attribute == attribute,
    decreases expanded.len(),
{
    if expanded.len() > 0 {
        let front = expanded.drop_last();
        let next = expanded.last();
        assert(expanded =~= front.push(next));
        lemma_sides_hold_their_own(front);
        lemma_sides_grow(front, next);
        assert forall|attribute: AttributeView| #[trigger]
            applied_before(expanded).contains(attribute) <==> exists|i: int|
                0 <= i < expanded.len() && expanded[i].bitfield && #[trigger] expanded[i].attribute
                    == attribute by {
            lemma_side_grown(
                applied_before(front),
                applied_before(expanded),
                front,
                expanded,
                next,
                true,
                attribute,
            );
        }
        assert forall|attribute: AttributeView| #[trigger]
            applied_after(expanded).contains(attribute) <==> exists|i: int|
                0 <= i < expanded.len() && !expanded[i].bitfield
                    && #[trigger] expanded[i].attribute == attribute by {
            lemma_side_grown(
                applied_after(front),
                applied_after(expanded),
                front,
                expanded,
                next,
                false,
                attribute,
            );
        }
    }
}

/// One step of [`lemma_sides_hold_their_own`], for the side that takes what
/// is `bitfield`.
proof fn lemma_side_grown(
    side: Seq<AttributeView>,
    grown: Seq<AttributeView>,
    front: Seq<ExpandedView>,
    expanded: Seq<ExpandedView>,
    next: ExpandedView,
    bitfield: bool,
    attribute: AttributeView,
)
    requires
        expanded == front.push(next),
        grown == if next.bitfield == bitfield {
            side.push(next.attribute)
        } else {
            side
        },
        side.contains(attribute) <==> exists|i: int|
            0 <= i < front.len() && front[i].bitfield == bitfield && #[trigger] front[i].attribute
                == attribute,
    ensures
        grown.contains(attribute) <==> exists|i: int|
            0 <= i < expanded.len() && expanded[i].bitfield == bitfield
                && #[trigger] expanded[i].attribute == attribute,
{
    if grown.contains(attribute) {
        let at = choose|at: int| 0 <= at < grown.len() && grown[at] == attribute;
        if at < side.len() {
            let i = choose|i: int|
                0 <= i < front.len() && front[i].bitfield == bitfield
                    && #[trigger] front[i].attribute == attribute;
            assert(expanded[i].attribute == attribute);
        } else {
            assert(expanded[front.len() as int].attribute == attribute);
        }
    }
    if exists|i: int|
        0 <= i < expanded.len() && expanded[i].bitfield == bitfield
            && #[trigger] expanded[i].attribute == attribute {
        let i = choose|i: int|
            0 <= i < expanded.len() && expanded[i].bitfield == bitfield
                && #[trigger] expanded[i].attribute == attribute;
        if i < front.len() {
            let at = choose|at: int| 0 <= at < side.len() && side[at] == attribute;
            assert(grown[at] == attribute);
        } else {
            assert(grown[side.len() as int] == attribute);
        }
    }
}

/// When the sorting succeeds: on a struct or an enum, where every
/// `#[derive(..)]` holds a list of paths and no attribute mentions
/// `bitsize_internal`; on a struct moreover only where it derives no `Debug`
/// of the standard library, and no `FromBytes` without `FromBits`.
pub proof fn lemma_success(kind: ItemKind, outcomes: Seq<Recognized>)
    ensures
        split(kind, outcomes) is Ok <==> {
            &&& kind !is Other
            &&& all_pass(outcomes)
            &&& kind is Struct ==> !is_derived(outcomes, Reserved::Debug)
            &&& kind is Struct && is_derived(outcomes, Reserved::FromBytes) ==> is_derived(
                outcomes,
                Reserved::FromBits,
            )
        },
{
    if !all_pass(outcomes) {
        let at = choose|at: int| 0 <= at < outcomes.len() && stops(#[trigger] outcomes[at]);
        lemma_first_stop_exists(outcomes, at);
    }
}

/// On a struct that passes the rules, every attribute that was there to sort
/// stands on one of the two sides, as often as it was there; each side keeps
/// the order written; what needs the fields stands before the compression,
/// and all the rest after it.
pub proof fn lemma_struct_partition_is_total(outcomes: Seq<Recognized>)
    requires
        split(ItemKind::Struct, outcomes) is Ok,
    ensures
        ({
            let sides = split(ItemKind::Struct, outcomes)->Ok_0;
            let expanded = expansion(outcomes);
            &&& sides.before_compression == expanded.filter(is_bitfield()).map_values(
                attribute_of(),
            )
            &&& sides.after_compression == expanded.filter(is_ordinary()).map_values(
                attribute_of(),
            )
            &&& sides.before_compression.to_multiset().add(
                sides.after_compression.to_multiset(),
            ) == expanded.map_values(attribute_of()).to_multiset()
            &&& sides.before_compression.len() + sides.after_compression.len() == expanded.len()
            &&& forall|i: int|
                0 <= i < expanded.len() && (#[trigger] expanded[i]).bitfield
                    ==> sides.before_compression.contains(expanded[i].attribute)
            &&& forall|i: int|
                0 <= i < expanded.len() && !(#[trigger] expanded[i]).bitfield
                    ==> sides.after_compression.contains(expanded[i].attribute)
        }),
{
    let expanded = expansion(outcomes);
    lemma_sides_cover(expanded);
    lemma_sides_hold_their_own(expanded);
}

/// On an enum that passes the rules nothing is applied after the
/// compression: every attribute that was there to sort is applied before
/// it, as often as it was there; first come those that need the fields, then
/// all the rest, each group in the order written.
pub proof fn lemma_enum_collapses(outcomes: Seq<Recognized>)
    requires
        split(ItemKind::Enum, outcomes) is Ok,
    ensures
        ({
            let sides = split(ItemKind::Enum, outcomes)->Ok_0;
            let expanded = expansion(outcomes);
            &&& sides.after_compression == Seq::<AttributeView>::empty()
            &&& sides.before_compression == applied_before(expanded) + applied_after(expanded)
            &&& sides.before_compression.to_multiset() == expanded.map_values(
                attribute_of(),
            ).to_multiset()
            &&& sides.before_compression.len() == expanded.len()
            &&& forall|i: int|
                0 <= i < expanded.len() ==> sides.before_compression.contains(
                    (#[trigger] expanded[i]).attribute,
                )
        }),
{
    let expanded = expansion(outcomes);
    let before = applied_before(expanded);
    let after = applied_after(expanded);
    lemma_sides_cover(expanded);
    lemma_sides_hold_their_own(expanded);
    vstd::seq_lib::lemma_multiset_commutative(before, after);
    assert forall|i: int| 0 <= i < expanded.len() implies (before + after).contains(
        (#[trigger] expanded[i]).attribute,
    ) by {
        let attribute = expanded[i].attribute;
        if expanded[i].bitfield {
            assert(before.contains(attribute));
            let at = choose|at: int| 0 <= at < before.len() && before[at] == attribute;
            assert((before + after)[at] == attribute);
        } else {
            assert(after.contains(attribute));
            let at = choose|at: int| 0 <= at < after.len() && after[at] == attribute;
            assert((before + after)[before.len() + at] == attribute);
        }
    }
}

/// The sorting of an enum fails on no rule but those that stop it at an
/// attribute: whatever an enum derives, `Debug` and `FromBytes` too, it is
/// sorted.
pub proof fn lemma_enum_derives_freely(outcomes: Seq<Recognized>)
    ensures
        all_pass(outcomes) ==> split(ItemKind::Enum, outcomes) is Ok,
        !(split(ItemKind::Enum, outcomes) matches Err(SplitErrorView::DebugOnStruct { .. })),
        !(split(ItemKind::Enum, outcomes) matches Err(
            SplitErrorView::FromBytesWithoutFromBits { .. },
        )),
{
    lemma_success(ItemKind::Enum, outcomes);
}

/// No struct that derives the `Debug` of the standard library is sorted,
/// whatever else stands on it.
pub proof fn lemma_struct_debug_never_passes(
    outcomes: Seq<Recognized>,
    attribute: int,
    derive: int,
)
    requires
        names(outcomes, Reserved::Debug, attribute, derive),
    ensures
        split(ItemKind::Struct, outcomes) is Err,
{
    lemma_success(ItemKind::Struct, outcomes);
}

/// A struct that derives the `Debug` of the standard library is refused for
/// it, if the sorting comes that far: the first such derive is reported, with
/// the advice to derive `DebugBits`.
pub proof fn lemma_struct_debug_is_refused(outcomes: Seq<Recognized>, attribute: int, derive: int)
    requires
        all_pass(outcomes),
        names(outcomes, Reserved::Debug, attribute, derive),
    ensures
        ({
            let (first, place) = the_first_named(outcomes, Reserved::Debug);
            &&& split(ItemKind::Struct, outcomes) == Err::<SplitView, SplitErrorView>(
                SplitErrorView::DebugOnStruct { attribute: first, derive: place },
            )
            &&& first_named(outcomes, Reserved::Debug, first, place)
            &&& !earlier(attribute, derive, first, place)
        }),
        split(ItemKind::Struct, outcomes)->Err_0.kind() == ErrorKind::Policy,
        split(ItemKind::Struct, outcomes)->Err_0.message() == "use derive(DebugBits) for structs"@,
{
    lemma_success(ItemKind::Struct, outcomes);
    lemma_first_named_exists(outcomes, Reserved::Debug, attribute, derive);
}

/// No struct that derives `FromBytes` and nowhere `FromBits` is sorted,
/// whatever else stands on it.
pub proof fn lemma_struct_from_bytes_alone_never_passes(
    outcomes: Seq<Recognized>,
    attribute: int,
    derive: int,
)
    requires
        names(outcomes, Reserved::FromBytes, attribute, derive),
        !is_derived(outcomes, Reserved::FromBits),
    ensures
        split(ItemKind::Struct, outcomes) is Err,
{
    lemma_success(ItemKind::Struct, outcomes);
}

/// A struct that derives `FromBytes` and nowhere `FromBits` is refused for
/// it, if the sorting comes that far and the struct derives no `Debug`: the
/// first `FromBytes` is reported.
pub proof fn lemma_struct_from_bytes_alone_is_refused(
    outcomes: Seq<Recognized>,
    attribute: int,
    derive: int,
)
    requires
        all_pass(outcomes),
        !is_derived(outcomes, Reserved::Debug),
        names(outcomes, Reserved::FromBytes, attribute, derive),
        !is_derived(outcomes, Reserved::FromBits),
    ensures
        ({
            let (first, place) = the_first_named(outcomes, Reserved::FromBytes);
            &&& split(ItemKind::Struct, outcomes) == Err::<SplitView, SplitErrorView>(
                SplitErrorView::FromBytesWithoutFromBits { attribute: first, derive: place },
            )
            &&& first_named(outcomes, Reserved::FromBytes, first, place)
            &&& !earlier(attribute, derive, first, place)
        }),
        split(ItemKind::Struct, outcomes)->Err_0.kind() == ErrorKind::Policy,
{
    lemma_first_named_exists(outcomes, Reserved::FromBytes, attribute, derive);
}

/// Such a struct is sorted once a `#[derive(..)]` with `FromBits` is added
/// to its attributes.
pub proof fn lemma_from_bits_mends(outcomes: Seq<Recognized>, from_bits: PathView)
    requires
        all_pass(outcomes),
        !is_derived(outcomes, Reserved::Debug),
        reserved(from_bits.text()) == Some(Reserved::FromBits),
    ensures
        split(
            ItemKind::Struct,
            outcomes.push(Ok(ParsedView::DeriveList(seq![from_bits]))),
        ) is Ok,
{
    let added: Recognized = Ok(ParsedView::DeriveList(seq![from_bits]));
    let mended = outcomes.push(added);
    lemma_success(ItemKind::Struct, mended);
    assert(names(mended, Reserved::FromBits, outcomes.len() as int, 0));
    assert(!is_derived(mended, Reserved::Debug)) by {
        if is_derived(mended, Reserved::Debug) {
            let (a, d) = choose|a: int, d: int| names(mended, Reserved::Debug, a, d);
            if a < outcomes.len() {
                assert(names(outcomes, Reserved::Debug, a, d));
            }
        }
    }
}

/// No item is sorted that has an attribute which mentions
/// `bitsize_internal` and is no list of derives, wherever among the
/// attributes it stands and whatever the others are taken for.
pub proof fn lemma_marker_never_passes(
    kind: ItemKind,
    attrs: Seq<AttributeView>,
    outcomes: Seq<Recognized>,
    at: int,
)
    requires
        agree(attrs, outcomes),
        0 <= at < attrs.len(),
        contains(attrs[at].text(), "bitsize_internal"@),
        !attrs[at].is_derive_list(),
    ensures
        split(kind, outcomes) is Err,
{
    assert(stops(outcomes[at]));
    lemma_success(kind, outcomes);
}

/// An attribute that mentions `bitsize_internal` and is no list of derives
/// gets the item refused for breaking a rule, wherever among the attributes
/// it stands, unless the sorting ends before it comes to it, on a
/// `#[derive(..)]` that does not parse. The first such attribute is
/// reported.
pub proof fn lemma_marker_is_refused(
    kind: ItemKind,
    attrs: Seq<AttributeView>,
    outcomes: Seq<Recognized>,
    at: int,
)
    requires
        kind !is Other,
        agree(attrs, outcomes),
        0 <= at < attrs.len(),
        contains(attrs[at].text(), "bitsize_internal"@),
        !attrs[at].is_derive_list(),
        forall|before: int| 0 <= before < at ==> (#[trigger] outcomes[before]) is Ok,
    ensures
        ({
            let first = the_first_stop(outcomes);
            &&& split(kind, outcomes) == Err::<SplitView, SplitErrorView>(
                SplitErrorView::BitsizeInternal { attribute: first },
            )
            &&& 0 <= first <= at
            &&& contains(attrs[first].text(), "bitsize_internal"@)
            &&& !attrs[first].is_derive_list()
        }),
        split(kind, outcomes)->Err_0.kind() == ErrorKind::Policy,
{
    assert(stops(outcomes[at]));
    lemma_first_stop_exists(outcomes, at);
}

/// Behind a text that is empty or ends in a colon, a text ends in `Bits`
/// just when it does so alone.
proof fn lemma_bits_behind_colon(front: Seq<char>, last: Seq<char>)
    requires
        front.len() == 0 || front.last() == ':',
    ensures
        "Bits"@.is_suffix_of(front + last) == "Bits"@.is_suffix_of(last),
{
    reveal_strlit("Bits");
    let whole = front + last;
    if front.len() == 0 {
        assert(whole =~= last);
    } else if last.len() >= 4 {
        // the last four characters are those of `last`
        assert(whole.subrange(whole.len() - 4, whole.len() as int) =~= last.subrange(
            last.len() - 4,
            last.len() as int,
        ));
    } else if whole.len() >= 4 {
        // the colon that `front` ends in is among the last four characters
        let end = whole.subrange(whole.len() - 4, whole.len() as int);
        assert(end[3 - last.len()] == ':');
        assert("Bits"@[3 - last.len()] != ':');
    }
}

/// Whether a derive reads the fields shows in how it is written: it does
/// just when what is written ends in `Bits`.
pub proof fn lemma_bitfield_shows_in_text(derive: PathView)
    ensures
        is_bitfield_derive(derive) == "Bits"@.is_suffix_of(derive.text()),
{
    reveal_strlit("Bits");
    reveal_strlit("::");
    let colons = "::"@;
    let segments = derive.segments;
    if segments.len() == 0 {
        assert(derive.text().len() <= 2);
    } else {
        let last = segments.last();
        let front = if segments.len() == 1 {
            Seq::<char>::empty()
        } else {
            joined(segments.drop_last()) + colons
        };
        assert(joined(segments) =~= front + last);
        if derive.leading_colon {
            assert(derive.text() =~= (colons + front) + last);
            lemma_bits_behind_colon(colons + front, last);
        } else {
            lemma_bits_behind_colon(front, last);
        }
    }
}

/// The attribute is applied before the compression: it is a
/// `#[derive(..)]` whose tokens end in `Bits`.
pub open spec fn belongs_before(attribute: AttributeView) -> bool {
    attribute.is_derive_list() && "Bits"@.is_suffix_of(attribute.tokens())
}

/// Each attribute that is there to sort has come of one of the attributes
/// written.
proof fn lemma_expanded_from(outcomes: Seq<Recognized>, at: int) -> (origin: int)
    requires
        0 <= at < expansion(outcomes).len(),
    ensures
        0 <= origin < outcomes.len(),
        expand(origin, outcomes[origin]).contains(expansion(outcomes)[at]),
    decreases outcomes.len(),
{
    if outcomes.len() == 0 {
        0
    } else {
        let last = outcomes.len() - 1;
        let front = outcomes.take(last);
        assert(outcomes.take(last + 1) =~= outcomes);
        lemma_expansion_grows(outcomes, last);
        if at < expansion(front).len() {
            lemma_expanded_from(front, at)
        } else {
            assert(expand(last, outcomes[last])[at - expansion(front).len()] == expansion(
                outcomes,
            )[at]);
            last
        }
    }
}

/// On which side of the compression an attribute is applied shows in the
/// attribute itself, whatever the attributes as written are taken for:
/// before it, if it is a `#[derive(..)]` of one derive that ends in `Bits`;
/// after it, if not.
pub proof fn lemma_side_shows_in_attribute(attrs: Seq<AttributeView>, outcomes: Seq<Recognized>)
    requires
        agree(attrs, outcomes),
    ensures
        forall|at: int|
            0 <= at < expansion(outcomes).len() ==> (#[trigger] expansion(outcomes)[at]).bitfield
                == belongs_before(expansion(outcomes)[at].attribute),
{
    let expanded = expansion(outcomes);
    assert forall|at: int| 0 <= at < expanded.len() implies (#[trigger] expanded[at]).bitfield
        == belongs_before(expanded[at].attribute) by {
        let origin = lemma_expanded_from(outcomes, at);
        let from = expand(origin, outcomes[origin]);
        let within = choose|within: int| 0 <= within < from.len() && from[within] == expanded[at];
        assert(may_be_taken_for(attrs[origin], outcomes[origin]));
        match outcomes[origin] {
            Ok(ParsedView::DeriveList(derives)) => {
                // a derive of a list: its side shows in its name
                lemma_bitfield_shows_in_text(derives[within]);
            },
            _ => {
                // the attribute as written, which is no list of derives
                assert(!attrs[origin].is_derive_list());
            },
        }
    }
}

/// On a struct that passes the rules no attribute stands on both sides:
/// what is applied before the compression is told from what is applied after
/// it by how it is written.
pub proof fn lemma_struct_sides_are_apart(attrs: Seq<AttributeView>, outcomes: Seq<Recognized>)
    requires
        agree(attrs, outcomes),
        split(ItemKind::Struct, outcomes) is Ok,
    ensures
        ({
            let sides = split(ItemKind::Struct, outcomes)->Ok_0;
            &&& forall|attribute: AttributeView| #[trigger]
                sides.before_compression.contains(attribute) ==> belongs_before(attribute)
            &&& forall|attribute: AttributeView| #[trigger]
                sides.after_compression.contains(attribute) ==> !belongs_before(attribute)
        }),
{
    lemma_side_shows_in_attribute(attrs, outcomes);
    lemma_sides_hold_their_own(expansion(outcomes));
}

/// The attribute came from this place: it is the attribute written there,
/// which was taken for no list and no marker, or it is the `#[derive(..)]` of
/// the derive at that place in the list written there.
pub open spec fn came_from(outcomes: Seq<Recognized>, attribute: AttributeView, place: PlaceView)
    -> bool {
    &&& 0 <= place.attribute < outcomes.len()
    &&& match place.derive {
        None => outcomes[place.attribute] == Ok::<ParsedView, Seq<char>>(
            ParsedView::Other(attribute),
        ),
        Some(derive) => {
            &&& 0 <= derive < derives_of(outcomes[place.attribute]).len()
            &&& attribute == derive_attribute(derives_of(outcomes[place.attribute])[derive])
        },
    }
}

/// What is there to sort came from the place that it carries.
proof fn lemma_expanded_came_from(outcomes: Seq<Recognized>, one: ExpandedView)
    requires
        expansion(outcomes).contains(one),
    ensures
        came_from(outcomes, one.attribute, one.place),
{
    let expanded = expansion(outcomes);
    let at = choose|at: int| 0 <= at < expanded.len() && expanded[at] == one;
    let origin = lemma_expanded_from(outcomes, at);
    let from = expand(origin, outcomes[origin]);
    let within = choose|within: int| 0 <= within < from.len() && from[within] == one;
    assert(from[within] == one);
}

/// One side of [`lemma_places_name_the_source`]: what `pick` keeps.
proof fn lemma_side_names_the_source(
    outcomes: Seq<Recognized>,
    pick: spec_fn(ExpandedView) -> bool,
    at: int,
)
    requires
        0 <= at < expansion(outcomes).filter(pick).len(),
    ensures
        came_from(
            outcomes,
            expansion(outcomes).filter(pick).map_values(attribute_of())[at],
            expansion(outcomes).filter(pick).map_values(place_of())[at],
        ),
{
    let kept = expansion(outcomes).filter(pick);
    assert(kept.contains(kept[at]));
    expansion(outcomes).lemma_filter_contains_rev(pick, kept[at]);
    lemma_expanded_came_from(outcomes, kept[at]);
}

/// Where the sorting succeeds, there is one place beside each attribute on
/// either side, and the attribute came from that place.
pub proof fn lemma_places_name_the_source(kind: ItemKind, outcomes: Seq<Recognized>)
    requires
        split_places(kind, outcomes) is Ok,
    ensures
        ({
            let sorted = split_places(kind, outcomes)->Ok_0;
            let before = sorted.attributes.before_compression;
            let after = sorted.attributes.after_compression;
            &&& split(kind, outcomes) == Ok::<SplitView, SplitErrorView>(
                sorted.attributes,
            )
            &&& sorted.before_places.len() == before.len()
            &&& sorted.after_places.len() == after.len()
            &&& forall|at: int|
                0 <= at < before.len() ==> came_from(
                    outcomes,
                    before[at],
                    #[trigger] sorted.before_places[at],
                )
            &&& forall|at: int|
                0 <= at < after.len() ==> came_from(
                    outcomes,
                    after[at],
                    #[trigger] sorted.after_places[at],
                )
        }),
{
    let sorted = split_places(kind, outcomes)->Ok_0;
    let expanded = expansion(outcomes);
    let first = expanded.filter(is_bitfield());
    let second = expanded.filter(is_ordinary());
    let before = sorted.attributes.before_compression;
    let after = sorted.attributes.after_compression;
    assert forall|at: int| 0 <= at < before.len() implies came_from(
        outcomes,
        before[at],
        #[trigger] sorted.before_places[at],
    ) by {
        if at < first.len() {
            lemma_side_names_the_source(outcomes, is_bitfield(), at);
        } else {
            lemma_side_names_the_source(outcomes, is_ordinary(), at - first.len());
        }
    }
    assert forall|at: int| 0 <= at < after.len() implies came_from(
        outcomes,
        after[at],
        #[trigger] sorted.after_places[at],
    ) by {
        lemma_side_names_the_source(outcomes, is_ordinary(), at);
    }
}

} // verus!
