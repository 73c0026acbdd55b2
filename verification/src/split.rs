//! Sorting the attributes of an item into those applied before
//! bitfield-compression and those applied after.
//!
//! `#[bitsize]` is a sort of scope for all attributes below it, and the whole
//! family of `-Bits` derives only works in that scope: they read the fields
//! of the item as the user wrote them. So the attributes are sorted by name.
//! Every derive in need of field information is applied first; then the item
//! is compressed; the other attributes are applied to what is left.

use vstd::prelude::*;
use crate::attribute::{Attribute, AttributeView};
use crate::derive::{derive_attribute, is_bitfield_derive, reserved, Reserved};
use crate::error::{SplitError, SplitErrorView};
use crate::parse::{
    may_be_taken_for,
    parse_attribute,
    recognized_view,
    told_apart,
    Parsed,
    ParsedAttribute,
    ParsedView,
    Recognized,
};
use crate::path::PathView;

verus! {

/// What is declared under the attributes.
#[derive(Clone, Copy, PartialEq, Eq, Structural, Debug)]
pub enum ItemKind {
    Struct,
    Enum,
    /// Anything else: such an item cannot be compressed.
    Other,
}

/// An item, as far as its attributes are concerned.
#[derive(Debug, PartialEq, Eq)]
pub struct Item {
    pub kind: ItemKind,
    /// The attributes in the order written.
    pub attrs: Vec<Attribute>,
}

/// What an [`Item`] stands for.
pub struct ItemView {
    pub kind: ItemKind,
    pub attrs: Seq<AttributeView>,
}

impl View for Item {
    type V = ItemView;

    open spec fn view(&self) -> ItemView {
        ItemView { kind: self.kind, attrs: self.attrs.deep_view() }
    }
}

/// The attributes of an item, sorted.
#[derive(Debug, PartialEq, Eq)]
pub struct SplitAttributes {
    pub before_compression: Vec<Attribute>,
    pub after_compression: Vec<Attribute>,
}

/// What [`SplitAttributes`] stand for.
pub struct SplitView {
    pub before_compression: Seq<AttributeView>,
    pub after_compression: Seq<AttributeView>,
}

impl View for SplitAttributes {
    type V = SplitView;

    open spec fn view(&self) -> SplitView {
        SplitView {
            before_compression: self.before_compression.deep_view(),
            after_compression: self.after_compression.deep_view(),
        }
    }
}

/// What the sorting hands back, as plain values.
pub open spec fn split_view(result: Result<SplitAttributes, SplitError>) -> Result<
    SplitView,
    SplitErrorView,
> {
    match result {
        Ok(split) => Ok(split@),
        Err(error) => Err(error@),
    }
}

/// Each attribute, in the order written, may be taken for the outcome at
/// its place.
pub open spec fn agree(attrs: Seq<AttributeView>, outcomes: Seq<Recognized>) -> bool {
    &&& outcomes.len() == attrs.len()
    &&& forall|i: int| 0 <= i < attrs.len() ==> may_be_taken_for(attrs[i], #[trigger] outcomes[i])
}

/// What was made of each attribute, as plain values.
pub open spec fn outcomes<'attr>(parsed: Seq<Parsed<'attr>>) -> Seq<Recognized> {
    Seq::new(parsed.len(), |i: int| recognized_view(parsed[i]))
}

/// The sorting cannot go past this attribute: its derives did not parse, or
/// it is the marker of the compression itself, which no user may write.
pub open spec fn stops(outcome: Recognized) -> bool {
    match outcome {
        Err(_) => true,
        Ok(ParsedView::BitsizeInternal(_)) => true,
        _ => false,
    }
}

/// The attribute at `at` is the first that the sorting cannot go past.
pub open spec fn first_stop(outcomes: Seq<Recognized>, at: int) -> bool {
    &&& 0 <= at < outcomes.len()
    &&& stops(outcomes[at])
    &&& forall|earlier: int| 0 <= earlier < at ==> !stops(#[trigger] outcomes[earlier])
}

/// No attribute stops the sorting.
pub open spec fn all_pass(outcomes: Seq<Recognized>) -> bool {
    forall|at: int| 0 <= at < outcomes.len() ==> !stops(#[trigger] outcomes[at])
}

/// The first attribute that the sorting cannot go past, where there is one.
pub open spec fn the_first_stop(outcomes: Seq<Recognized>) -> int {
    choose|at: int| first_stop(outcomes, at)
}

/// The derives of a list; none for anything else.
pub open spec fn derives_of(outcome: Recognized) -> Seq<PathView> {
    match outcome {
        Ok(ParsedView::DeriveList(derives)) => derives,
        _ => Seq::empty(),
    }
}

/// The derive at place `derive` in the list at `attribute` is `name`.
pub open spec fn names(outcomes: Seq<Recognized>, name: Reserved, attribute: int, derive: int)
    -> bool {
    &&& 0 <= attribute < outcomes.len()
    &&& 0 <= derive < derives_of(outcomes[attribute]).len()
    &&& reserved(derives_of(outcomes[attribute])[derive].text()) == Some(name)
}

/// The place `(attribute, derive)` comes before the place `(other, last)`
/// in the order written.
pub open spec fn earlier(attribute: int, derive: int, other: int, last: int) -> bool {
    attribute < other || (attribute == other && derive < last)
}

/// The derive at place `derive` in the list at `attribute` is `name`, and no
/// derive written before it is.
pub open spec fn first_named(
    outcomes: Seq<Recognized>,
    name: Reserved,
    attribute: int,
    derive: int,
) -> bool {
    &&& names(outcomes, name, attribute, derive)
    &&& forall|a: int, d: int|
        earlier(a, d, attribute, derive) ==> !#[trigger] names(outcomes, name, a, d)
}

/// The place of the first derive that is `name`, where there is one.
pub open spec fn the_first_named(outcomes: Seq<Recognized>, name: Reserved) -> (int, int) {
    choose|attribute: int, derive: int| first_named(outcomes, name, attribute, derive)
}

/// Some derive of the item is `name`.
pub open spec fn is_derived(outcomes: Seq<Recognized>, name: Reserved) -> bool {
    exists|attribute: int, derive: int| names(outcomes, name, attribute, derive)
}

/// The rule that the attributes break, if they break one. The rules in the
/// order in which they are held against the item:
/// - only a struct or an enum can be compressed;
/// - every `#[derive(..)]` holds a list of paths, and no attribute mentions
///   `bitsize_internal`: of the attributes that fail this the first one
///   written is reported;
/// - a struct does not derive the `Debug` of the standard library, which
///   would print the compressed value: the first such derive is reported;
/// - a struct that derives `FromBytes` derives `FromBits` too: the first
///   `FromBytes` is reported.
pub open spec fn verdict(kind: ItemKind, outcomes: Seq<Recognized>) -> Option<SplitErrorView> {
    if kind is Other {
        Some(SplitErrorView::NotStructOrEnum)
    } else if exists|at: int| first_stop(outcomes, at) {
        let at = the_first_stop(outcomes);
        match outcomes[at] {
            Err(reason) => Some(SplitErrorView::FailedToParseDerive { attribute: at, reason }),
            _ => Some(SplitErrorView::BitsizeInternal { attribute: at }),
        }
    } else if kind is Struct && is_derived(outcomes, Reserved::Debug) {
        let (attribute, derive) = the_first_named(outcomes, Reserved::Debug);
        Some(SplitErrorView::DebugOnStruct { attribute, derive })
    } else if kind is Struct && is_derived(outcomes, Reserved::FromBytes) && !is_derived(
        outcomes,
        Reserved::FromBits,
    ) {
        let (attribute, derive) = the_first_named(outcomes, Reserved::FromBytes);
        Some(SplitErrorView::FromBytesWithoutFromBits { attribute, derive })
    } else {
        None
    }
}

/// Where an attribute that was sorted came from. `attribute` counts the
/// attributes of the item from 0. `derive` is `None` for an attribute that
/// stayed as written; for a `#[derive(..)]` that came of taking a list apart
/// it counts the derives of that list from 0.
#[derive(Clone, Copy, Debug, PartialEq, Eq)]
pub struct Place {
    pub attribute: usize,
    pub derive: Option<usize>,
}

/// What a [`Place`] stands for.
pub struct PlaceView {
    pub attribute: int,
    pub derive: Option<int>,
}

impl View for Place {
    type V = PlaceView;

    open spec fn view(&self) -> PlaceView {
        PlaceView {
            attribute: self.attribute as int,
            derive: match self.derive {
                Some(derive) => Some(derive as int),
                None => None,
            },
        }
    }
}

impl DeepView for Place {
    type V = PlaceView;

    open spec fn deep_view(&self) -> PlaceView {
        self@
    }
}

/// An attribute that is ready to be put back on the item, with the side
/// of the compression on which it belongs.
#[derive(Debug, PartialEq, Eq)]
pub struct Expanded {
    pub attribute: Attribute,
    /// Whether it has to be applied before the compression.
    pub bitfield: bool,
    /// Where it came from.
    pub place: Place,
}

/// What an [`Expanded`] stands for.
pub struct ExpandedView {
    pub attribute: AttributeView,
    pub bitfield: bool,
    pub place: PlaceView,
}

impl View for Expanded {
    type V = ExpandedView;

    open spec fn view(&self) -> ExpandedView {
        ExpandedView { attribute: self.attribute@, bitfield: self.bitfield, place: self.place@ }
    }
}

impl DeepView for Expanded {
    type V = ExpandedView;

    open spec fn deep_view(&self) -> ExpandedView {
        self@
    }
}

/// A derive of a list becomes a `#[derive(..)]` of its own. It is the derive
/// at place `derive` in the list at `attribute`.
pub open spec fn expand_derive(attribute: int, derive: int, path: PathView) -> ExpandedView {
    ExpandedView {
        attribute: derive_attribute(path),
        bitfield: is_bitfield_derive(path),
        place: PlaceView { attribute, derive: Some(derive) },
    }
}

/// An attribute that stays as written, the one at `attribute`. It is applied
/// after the compression.
pub open spec fn keep(attribute: int, written: AttributeView) -> ExpandedView {
    ExpandedView {
        attribute: written,
        bitfield: false,
        place: PlaceView { attribute, derive: None },
    }
}

/// The derives of one list, each as a `#[derive(..)]` of its own, in the
/// order written.
pub open spec fn expand_derives(attribute: int, derives: Seq<PathView>) -> Seq<ExpandedView> {
    Seq::new(derives.len(), |derive: int| expand_derive(attribute, derive, derives[derive]))
}

/// What one attribute becomes: a list of derives is taken apart, any other
/// attribute stays as it is and is applied after the compression. Nothing
/// comes of an attribute that stops the sorting: the sorting does not get as
/// far as this.
pub open spec fn expand(attribute: int, outcome: Recognized) -> Seq<ExpandedView> {
    match outcome {
        Ok(ParsedView::DeriveList(derives)) => expand_derives(attribute, derives),
        Ok(ParsedView::Other(written)) => seq![keep(attribute, written)],
        _ => Seq::empty(),
    }
}

/// What the attributes of the item become, in the order written.
pub open spec fn expansion(outcomes: Seq<Recognized>) -> Seq<ExpandedView> {
    Seq::new(outcomes.len(), |attribute: int| expand(attribute, outcomes[attribute])).flatten()
}

/// Picks what is applied before the compression.
pub open spec fn is_bitfield() -> spec_fn(ExpandedView) -> bool {
    |expanded: ExpandedView| expanded.bitfield
}

/// Picks what is applied after the compression.
pub open spec fn is_ordinary() -> spec_fn(ExpandedView) -> bool {
    |expanded: ExpandedView| !expanded.bitfield
}

/// The attribute itself.
pub open spec fn attribute_of() -> spec_fn(ExpandedView) -> AttributeView {
    |expanded: ExpandedView| expanded.attribute
}

/// Where the attribute came from.
pub open spec fn place_of() -> spec_fn(ExpandedView) -> PlaceView {
    |expanded: ExpandedView| expanded.place
}

/// What has to be applied before the compression, in the order written.
pub open spec fn applied_before(expanded: Seq<ExpandedView>) -> Seq<AttributeView> {
    expanded.filter(is_bitfield()).map_values(attribute_of())
}

/// What can be applied after the compression, in the order written.
pub open spec fn applied_after(expanded: Seq<ExpandedView>) -> Seq<AttributeView> {
    expanded.filter(is_ordinary()).map_values(attribute_of())
}

/// The attributes sorted. Each side keeps the order written. An enum needs
/// no compression of fields, so all its attributes are applied before:
/// first those that a struct would have before, then the others.
pub open spec fn sorted(kind: ItemKind, expanded: Seq<ExpandedView>) -> SplitView {
    let before = applied_before(expanded);
    let after = applied_after(expanded);
    if kind is Enum {
        SplitView { before_compression: before + after, after_compression: Seq::empty() }
    } else {
        SplitView { before_compression: before, after_compression: after }
    }
}

/// The attributes of an item sorted, and where each of them came from.
#[derive(Debug, PartialEq, Eq)]
pub struct Sorted {
    pub attributes: SplitAttributes,
    /// For each attribute applied before the compression, where it came from.
    pub before_places: Vec<Place>,
    /// For each attribute applied after the compression, where it came from.
    pub after_places: Vec<Place>,
}

/// What [`Sorted`] stands for.
pub struct SortedView {
    pub attributes: SplitView,
    pub before_places: Seq<PlaceView>,
    pub after_places: Seq<PlaceView>,
}

impl View for Sorted {
    type V = SortedView;

    open spec fn view(&self) -> SortedView {
        SortedView {
            attributes: self.attributes@,
            before_places: self.before_places.deep_view(),
            after_places: self.after_places.deep_view(),
        }
    }
}

/// The attributes sorted as by [`sorted`], with the place of each beside
/// it.
pub open spec fn placed(kind: ItemKind, expanded: Seq<ExpandedView>) -> SortedView {
    let before = expanded.filter(is_bitfield()).map_values(place_of());
    let after = expanded.filter(is_ordinary()).map_values(place_of());
    if kind is Enum {
        SortedView {
            attributes: sorted(kind, expanded),
            before_places: before + after,
            after_places: Seq::empty(),
        }
    } else {
        SortedView {
            attributes: sorted(kind, expanded),
            before_places: before,
            after_places: after,
        }
    }
}

/// What becomes of the attributes of an item, given what each of them was
/// taken for: the rule that they break, or else the two sides. The sides are
/// made only where no attribute stops the sorting.
pub open spec fn split(kind: ItemKind, outcomes: Seq<Recognized>) -> Result<
    SplitView,
    SplitErrorView,
> {
    match verdict(kind, outcomes) {
        Some(error) => Err(error),
        None => Ok(sorted(kind, expansion(outcomes))),
    }
}

/// As [`split`], with the place of each attribute beside it.
pub open spec fn split_places(kind: ItemKind, outcomes: Seq<Recognized>) -> Result<
    SortedView,
    SplitErrorView,
> {
    match verdict(kind, outcomes) {
        Some(error) => Err(error),
        None => Ok(placed(kind, expansion(outcomes))),
    }
}

/// What the sorting hands back with places, as plain values.
pub open spec fn sorted_view(result: Result<Sorted, SplitError>) -> Result<
    SortedView,
    SplitErrorView,
> {
    match result {
        Ok(sorted) => Ok(sorted@),
        Err(error) => Err(error@),
    }
}

/// As [`may_come_of`], with the place of each attribute beside it.
pub open spec fn may_come_with_places(
    item: ItemView,
    result: Result<SortedView, SplitErrorView>,
) -> bool {
    exists|outcomes: Seq<Recognized>| #[trigger]
        agree(item.attrs, outcomes) && result == split_places(item.kind, outcomes)
}

/// What may become of the attributes of an item: each is taken for
/// something that it may be taken for, and what they were taken for decides.
/// There is one answer for an item without lists of derives. For a list of
/// derives the answer goes by what `syn` reads.
pub open spec fn may_come_of(item: ItemView, result: Result<SplitView, SplitErrorView>) -> bool {
    exists|outcomes: Seq<Recognized>| #[trigger]
        agree(item.attrs, outcomes) && result == split(item.kind, outcomes)
}

/// The first attribute that the sorting cannot go past is the only one
/// that is the first.
pub proof fn lemma_first_stop_is_one(outcomes: Seq<Recognized>, at: int)
    requires
        first_stop(outcomes, at),
    ensures
        the_first_stop(outcomes) == at,
{
}

/// The first derive that is `name` is the only one that is the first.
pub proof fn lemma_first_named_is_one(
    outcomes: Seq<Recognized>,
    name: Reserved,
    attribute: int,
    derive: int,
)
    requires
        first_named(outcomes, name, attribute, derive),
    ensures
        the_first_named(outcomes, name) == (attribute, derive),
        is_derived(outcomes, name),
{
}

/// Where the sorting cannot go past some attribute, one of them is the
/// first.
pub proof fn lemma_first_stop_exists(outcomes: Seq<Recognized>, at: int)
    requires
        0 <= at < outcomes.len(),
        stops(outcomes[at]),
    ensures
        first_stop(outcomes, the_first_stop(outcomes)),
        the_first_stop(outcomes) <= at,
    decreases at,
{
    if exists|before: int| 0 <= before < at && stops(outcomes[before]) {
        let before = choose|before: int| 0 <= before < at && stops(outcomes[before]);
        lemma_first_stop_exists(outcomes, before);
    } else {
        lemma_first_stop_is_one(outcomes, at);
    }
}

/// Attributes that break no rule do not stop the sorting.
pub proof fn lemma_passed(kind: ItemKind, outcomes: Seq<Recognized>)
    requires
        verdict(kind, outcomes) is None,
    ensures
        all_pass(outcomes),
{
    if !all_pass(outcomes) {
        let at = choose|at: int| 0 <= at < outcomes.len() && stops(#[trigger] outcomes[at]);
        lemma_first_stop_exists(outcomes, at);
    }
}

/// Whether the sorting cannot go past an attribute that was taken for this.
pub fn stops_sorting<'attr>(outcome: &Parsed<'attr>) -> (stop: bool)
    ensures
        stop == stops(recognized_view(*outcome)),
{
    match outcome {
        Err(_) => true,
        Ok(ParsedAttribute::BitsizeInternal(_)) => true,
        _ => false,
    }
}

/// The first attribute that the sorting of `parsed` cannot go past.
fn find_stop<'attr>(parsed: &Vec<Parsed<'attr>>) -> (found: Option<usize>)
    ensures
        match found {
            Some(at) => first_stop(outcomes(parsed@), at as int),
            None => forall|at: int| !first_stop(outcomes(parsed@), at),
        },
{
    let ghost seen = outcomes(parsed@);
    let count: usize = parsed.len();
    let mut at: usize = 0;
    while at < count
        invariant
            at <= count,
            count == parsed@.len(),
            seen == outcomes(parsed@),
            forall|earlier: int| 0 <= earlier < at ==> !stops(#[trigger] seen[earlier]),
        decreases count - at,
    {
        if stops_sorting(&parsed[at]) {
            return Some(at);
        }
        at += 1;
    }
    None
}

/// The place of the first derive of `parsed` that is `name`.
pub fn find_derive<'attr>(parsed: &Vec<Parsed<'attr>>, name: Reserved) -> (found: Option<
    (usize, usize),
>)
    ensures
        match found {
            Some((attribute, derive)) => first_named(
                outcomes(parsed@),
                name,
                attribute as int,
                derive as int,
            ),
            None => !is_derived(outcomes(parsed@), name),
        },
{
    let ghost seen = outcomes(parsed@);
    let count: usize = parsed.len();
    let mut attribute: usize = 0;
    while attribute < count
        invariant
            attribute <= count,
            count == parsed@.len(),
            seen == outcomes(parsed@),
            forall|a: int, d: int| a < attribute ==> !#[trigger] names(seen, name, a, d),
        decreases count - attribute,
    {
        if let Ok(ParsedAttribute::DeriveList(derives)) = &parsed[attribute] {
            let length: usize = derives.len();
            let mut derive: usize = 0;
            while derive < length
                invariant
                    derive <= length,
                    length == derives@.len(),
                    attribute < count,
                    count == parsed@.len(),
                    seen == outcomes(parsed@),
                    derives_of(seen[attribute as int]) == derives.deep_view(),
                    forall|a: int, d: int|
                        earlier(a, d, attribute as int, derive as int) ==> !#[trigger] names(
                            seen,
                            name,
                            a,
                            d,
                        ),
                decreases length - derive,
            {
                let same = match derives[derive].reserved() {
                    Some(found) => found == name,
                    None => false,
                };
                if same {
                    return Some((attribute, derive));
                }
                derive += 1;
            }
        }
        attribute += 1;
    }
    None
}

/// Holds the attributes against the rules, and hands back the rule that
/// they break.
pub fn validate<'attr>(kind: ItemKind, parsed: &Vec<Parsed<'attr>>) -> (fault: Option<
    SplitError,
>)
    ensures
        match fault {
            Some(error) => verdict(kind, outcomes(parsed@)) == Some(error@),
            None => verdict(kind, outcomes(parsed@)) is None,
        },
{
    let ghost seen = outcomes(parsed@);
    if kind == ItemKind::Other {
        return Some(SplitError::NotStructOrEnum);
    }
    if let Some(at) = find_stop(parsed) {
        proof {
            lemma_first_stop_is_one(seen, at as int);
        }
        return match &parsed[at] {
            Err(reason) => Some(
                SplitError::FailedToParseDerive { attribute: at, reason: reason.clone() },
            ),
            _ => Some(SplitError::BitsizeInternal { attribute: at }),
        };
    }
    if kind == ItemKind::Struct {
        if let Some((attribute, derive)) = find_derive(parsed, Reserved::Debug) {
            proof {
                lemma_first_named_is_one(seen, Reserved::Debug, attribute as int, derive as int);
            }
            return Some(SplitError::DebugOnStruct { attribute, derive });
        }
        if let Some((attribute, derive)) = find_derive(parsed, Reserved::FromBytes) {
            if find_derive(parsed, Reserved::FromBits).is_none() {
                proof {
                    lemma_first_named_is_one(
                        seen,
                        Reserved::FromBytes,
                        attribute as int,
                        derive as int,
                    );
                }
                return Some(SplitError::FromBytesWithoutFromBits { attribute, derive });
            }
        }
    }
    None
}

/// What the attributes up to and with the one at `at` become: what those
/// before it become, then what it becomes.
pub proof fn lemma_expansion_grows(outcomes: Seq<Recognized>, at: int)
    requires
        0 <= at < outcomes.len(),
    ensures
        expansion(outcomes.take(at + 1)) == expansion(outcomes.take(at)) + expand(
            at,
            outcomes[at],
        ),
{
    let front = outcomes.take(at);
    let longer = outcomes.take(at + 1);
    let each = Seq::new(front.len(), |attribute: int| expand(attribute, front[attribute]));
    assert(Seq::new(longer.len(), |attribute: int| expand(attribute, longer[attribute]))
        =~= each.push(expand(at, outcomes[at])));
    each.lemma_flatten_push(expand(at, outcomes[at]));
}

/// One more attribute goes to the end of its side and leaves the other side
/// as it is.
pub proof fn lemma_sides_grow(expanded: Seq<ExpandedView>, next: ExpandedView)
    ensures
        applied_before(expanded.push(next)) == if next.bitfield {
            applied_before(expanded).push(next.attribute)
        } else {
            applied_before(expanded)
        },
        applied_after(expanded.push(next)) == if next.bitfield {
            applied_after(expanded)
        } else {
            applied_after(expanded).push(next.attribute)
        },
{
    expanded.lemma_filter_push(next, is_bitfield());
    expanded.lemma_filter_push(next, is_ordinary());
}

/// The places grow with the sides.
pub proof fn lemma_places_grow(expanded: Seq<ExpandedView>, next: ExpandedView)
    ensures
        expanded.push(next).filter(is_bitfield()).map_values(place_of()) == if next.bitfield {
            expanded.filter(is_bitfield()).map_values(place_of()).push(next.place)
        } else {
            expanded.filter(is_bitfield()).map_values(place_of())
        },
        expanded.push(next).filter(is_ordinary()).map_values(place_of()) == if next.bitfield {
            expanded.filter(is_ordinary()).map_values(place_of())
        } else {
            expanded.filter(is_ordinary()).map_values(place_of()).push(next.place)
        },
{
    expanded.lemma_filter_push(next, is_bitfield());
    expanded.lemma_filter_push(next, is_ordinary());
}

/// Takes the lists of derives apart: hands back what the attributes become,
/// in the order written, each with the side on which it belongs and the
/// place it came from. This is for attributes that do not stop the sorting.
pub fn expand_attributes<'attr>(parsed: Vec<Parsed<'attr>>) -> (expanded: Vec<Expanded>)
    requires
        all_pass(outcomes(parsed@)),
    ensures
        expanded.deep_view() == expansion(outcomes(parsed@)),
{
    let ghost seen = outcomes(parsed@);
    let mut expanded: Vec<Expanded> = Vec::new();
    let count: usize = parsed.len();
    let mut at: usize = 0;
    for outcome in attributes: parsed
        invariant
            attributes.seq() == parsed@,
            seen == outcomes(parsed@),
            count == parsed@.len(),
            at == attributes.index(),
            expanded.deep_view() == expansion(seen.take(at as int)),
    {
        let ghost done = expansion(seen.take(at as int));
        proof {
            lemma_expansion_grows(seen, at as int);
        }
        match outcome {
            Ok(ParsedAttribute::DeriveList(derives)) => {
                let ghost targets = derives.deep_view();
                let length: usize = derives.len();
                let mut derive: usize = 0;
                for path in list: derives
                    invariant
                        list.seq() == derives@,
                        targets == derives.deep_view(),
                        length == derives@.len(),
                        derive == list.index(),
                        expanded.deep_view() == done + expand_derives(
                            at as int,
                            targets.take(derive as int),
                        ),
                {
                    let ghost shorter = expanded.deep_view();
                    let bitfield = path.is_bitfield_derive();
                    let place = Place { attribute: at, derive: Some(derive) };
                    expanded.push(Expanded { attribute: path.into_attribute(), bitfield, place });
                    assert(expanded.deep_view() =~= shorter.push(
                        expand_derive(at as int, derive as int, path@),
                    ));
                    derive += 1;
                }
                assert(targets.take(derives@.len() as int) =~= targets);
            },
            Ok(ParsedAttribute::Other(attribute)) => {
                let place = Place { attribute: at, derive: None };
                expanded.push(
                    Expanded { attribute: (*attribute).clone(), bitfield: false, place },
                );
            },
            _ => {},
        }
        at += 1;
    }
    assert(seen.take(parsed@.len() as int) =~= seen);
    expanded
}

/// Sorts the attributes by the side of the compression on which they are
/// applied, and keeps beside each the place it came from.
pub fn partition(kind: ItemKind, expanded: Vec<Expanded>) -> (sorted: Sorted)
    ensures
        sorted@ == placed(kind, expanded.deep_view()),
{
    let ghost all = expanded.deep_view();
    let mut before_compression: Vec<Attribute> = Vec::new();
    let mut after_compression: Vec<Attribute> = Vec::new();
    let mut before_places: Vec<Place> = Vec::new();
    let mut after_places: Vec<Place> = Vec::new();
    for next in rest: expanded
        invariant
            rest.seq() == expanded@,
            all == expanded.deep_view(),
            before_compression.deep_view() == applied_before(all.take(rest.index() as int)),
            after_compression.deep_view() == applied_after(all.take(rest.index() as int)),
            before_places.deep_view() == all.take(rest.index() as int).filter(
                is_bitfield(),
            ).map_values(place_of()),
            after_places.deep_view() == all.take(rest.index() as int).filter(
                is_ordinary(),
            ).map_values(place_of()),
    {
        let ghost at = rest.index() as int;
        proof {
            assert(all.take(at + 1) =~= all.take(at).push(next@));
            lemma_sides_grow(all.take(at), next@);
            lemma_places_grow(all.take(at), next@);
        }
        if next.bitfield {
            before_compression.push(next.attribute);
            before_places.push(next.place);
        } else {
            after_compression.push(next.attribute);
            after_places.push(next.place);
        }
    }
    assert(all.take(expanded@.len() as int) =~= all);
    if kind == ItemKind::Enum {
        let ghost first = before_compression.deep_view();
        let ghost second = after_compression.deep_view();
        let ghost first_places = before_places.deep_view();
        let ghost second_places = after_places.deep_view();
        before_compression.append(&mut after_compression);
        before_places.append(&mut after_places);
        assert(before_compression.deep_view() =~= first + second);
        assert(after_compression.deep_view() =~= Seq::<AttributeView>::empty());
        assert(before_places.deep_view() =~= first_places + second_places);
        assert(after_places.deep_view() =~= Seq::<PlaceView>::empty());
    }
    Sorted {
        attributes: SplitAttributes { before_compression, after_compression },
        before_places,
        after_places,
    }
}

/// Sorts the attributes of an item, given what each of them was taken for,
/// into those applied before bitfield-compression and those applied after,
/// and says of each where it came from. Hands back the rule that they break
/// instead, if they break one.
pub fn split_parsed_places<'attr>(kind: ItemKind, parsed: Vec<Parsed<'attr>>) -> (result: Result<
    Sorted,
    SplitError,
>)
    ensures
        sorted_view(result) == split_places(kind, outcomes(parsed@)),
{
    match validate(kind, &parsed) {
        Some(error) => Err(error),
        None => {
            proof {
                lemma_passed(kind, outcomes(parsed@));
            }
            Ok(partition(kind, expand_attributes(parsed)))
        },
    }
}

/// Sorts the attributes of an item, given what each of them was taken for,
/// into those applied before bitfield-compression and those applied after.
/// Hands back the rule that they break instead, if they break one.
pub fn split_parsed_attributes<'attr>(kind: ItemKind, parsed: Vec<Parsed<'attr>>) -> (result:
    Result<SplitAttributes, SplitError>)
    ensures
        split_view(result) == split(kind, outcomes(parsed@)),
{
    match split_parsed_places(kind, parsed) {
        Ok(sorted) => Ok(sorted.attributes),
        Err(error) => Err(error),
    }
}

/// Up to and with the first attribute that the sorting cannot go past, the
/// attributes decide what comes of it.
proof fn lemma_stop_decides(kind: ItemKind, all: Seq<Recognized>, at: int)
    requires
        first_stop(all, at),
    ensures
        split(kind, all.take(at + 1)) == split(kind, all),
        split_places(kind, all.take(at + 1)) == split_places(kind, all),
{
    let front = all.take(at + 1);
    assert(first_stop(front, at));
    lemma_first_stop_is_one(front, at);
    lemma_first_stop_is_one(all, at);
}

/// What an attribute that was never read is taken for here: it makes no
/// difference to what comes of the item.
spec fn unread(attribute: AttributeView) -> Recognized {
    if attribute.is_derive_list() {
        Err("too many brackets in the list of derives"@)
    } else {
        Ok(told_apart(attribute))
    }
}

/// What was made of the attributes that were read, with the rest as
/// [`unread`].
spec fn filled(attrs: Seq<AttributeView>, read: Seq<Recognized>) -> Seq<Recognized> {
    Seq::new(
        attrs.len(),
        |i: int|
            if i < read.len() {
                read[i]
            } else {
                unread(attrs[i])
            },
    )
}

/// Split item attributes into those applied before bitfield-compression and
/// those applied after, and say of each where it came from. Also, refuse any
/// invalid configuration.
pub fn split_item_places(item: &Item) -> (result: Result<Sorted, SplitError>)
    ensures
        may_come_with_places(item@, sorted_view(result)),
{
    let ghost attrs = item@.attrs;
    if item.kind == ItemKind::Other {
        assert(agree(attrs, filled(attrs, Seq::empty())));
        return Err(SplitError::NotStructOrEnum);
    }
    let mut parsed: Vec<Parsed<'_>> = Vec::new();
    let count: usize = item.attrs.len();
    let mut at: usize = 0;
    while at < count
        invariant
            at <= count,
            count == item.attrs@.len(),
            attrs == item@.attrs,
            parsed@.len() == at,
            forall|i: int|
                0 <= i < at ==> may_be_taken_for(attrs[i], #[trigger] outcomes(parsed@)[i])
                    && !stops(outcomes(parsed@)[i]),
        decreases count - at,
    {
        let next = parse_attribute(&item.attrs[at]);
        let stop = stops_sorting(&next);
        let ghost shorter = outcomes(parsed@);
        parsed.push(next);
        assert forall|i: int| 0 <= i < at implies #[trigger] outcomes(parsed@)[i]
            == shorter[i] by {}
        if stop {
            let ghost read = outcomes(parsed@);
            let ghost all = filled(attrs, read);
            proof {
                assert(agree(attrs, all));
                assert(first_stop(all, at as int));
                lemma_stop_decides(item.kind, all, at as int);
                assert(all.take(at + 1) =~= read);
            }
            return split_parsed_places(item.kind, parsed);
        }
        at += 1;
    }
    assert(filled(attrs, outcomes(parsed@)) =~= outcomes(parsed@));
    assert(agree(attrs, outcomes(parsed@)));
    split_parsed_places(item.kind, parsed)
}

/// Split item attributes into those applied before bitfield-compression and
/// those applied after. Also, refuse any invalid configuration.
///
/// Any derives with suffix `Bits` will be able to access field information.
/// This way, users can define their own derives working on the uncompressed
/// bitfield.
pub fn split_item_attributes(item: &Item) -> (result: Result<SplitAttributes, SplitError>)
    ensures
        may_come_of(item@, split_view(result)),
{
    let sorted = split_item_places(item);
    proof {
        let outcomes = choose|outcomes: Seq<Recognized>| #[trigger]
            agree(item@.attrs, outcomes) && sorted_view(sorted) == split_places(
                item@.kind,
                outcomes,
            );
        assert(agree(item@.attrs, outcomes));
    }
    match sorted {
        Ok(sorted) => Ok(sorted.attributes),
        Err(error) => Err(error),
    }
}

} // verus!
