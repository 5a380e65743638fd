//! The segments of a chapter and the units in which they are translated.

use vstd::prelude::*;

use crate::config::TranslationUnitPolicy;
use crate::ordering::{lemma_selected, places, selected};
use crate::request::{TranslationSegmentMetadata, TranslationUnit};
use crate::stage::EntityId;
use crate::text::{chars, from_size_padded, padded_decimal, same, slice};
use crate::translator::name_view;

verus! {

/// A text to be translated.
pub struct Target {
    pub entity: EntityId,
    pub source: String,
    pub page: usize,
    pub metadata: TranslationSegmentMetadata,
}

/// The last part of a name with dots.
pub open spec fn last_part(name: Seq<char>) -> Seq<char>
    decreases name.len(),
{
    if name.len() == 0 || name.last() == '.' {
        Seq::empty()
    } else {
        last_part(name.drop_last()).push(name.last())
    }
}

/// The last part of the name of a role.
pub fn short_role(role: Option<&str>) -> (result: Option<String>)
    ensures
        match (role, result) {
            (Some(name), Some(part)) => part@ == last_part(name@),
            (None, None) => true,
            _ => false,
        },
{
    match role {
        Some(name) => {
            let letters = chars(name);
            let mut start: usize = letters.len();
            proof {
                assert(letters@.take(start as int) =~= letters@);
                assert(last_part(letters@) =~= last_part(letters@.take(start as int))
                    + letters@.skip(start as int));
            }
            while start > 0 && letters[start - 1] != '.'
                invariant
                    start <= letters.len(),
                    last_part(letters@) == last_part(letters@.take(start as int)) + letters@.skip(
                        start as int,
                    ),
                decreases start,
            {
                proof {
                    let part = letters@.take(start as int);
                    assert(part.last() == letters@[start - 1]);
                    assert(part.drop_last() =~= letters@.take(start - 1));
                    assert(last_part(part) + letters@.skip(start as int) =~= last_part(
                        letters@.take(start - 1),
                    ) + letters@.skip(start - 1));
                }
                start -= 1;
            }
            proof {
                let part = letters@.take(start as int);
                if start > 0 {
                    assert(part.last() == letters@[start - 1]);
                }
                assert(last_part(part) =~= Seq::empty());
                assert(letters@.subrange(start as int, letters@.len() as int) =~= last_part(
                    letters@,
                ));
            }
            Some(slice(&letters, start, letters.len()))
        },
        None => None,
    }
}

/// The identifier of a segment on a page.
pub open spec fn segment_name(metadata: TranslationSegmentMetadata) -> Seq<char> {
    match (metadata.page_id, metadata.region_id) {
        (Some(page), Some(region)) => "page:"@ + page@ + "::region:"@ + region@,
        _ => "segment:missing-identity"@,
    }
}

/// The identifier of a segment on a page.
pub fn stable_segment_id(metadata: &TranslationSegmentMetadata) -> (result: String)
    ensures
        result@ == segment_name(*metadata),
{
    match (&metadata.page_id, &metadata.region_id) {
        (Some(page), Some(region)) => {
            let mut result = "page:".to_owned();
            result.append(page.as_str());
            result.append("::region:");
            result.append(region.as_str());
            result
        },
        _ => "segment:missing-identity".to_owned(),
    }
}

/// What a segment is, as far as it decides with what it is translated.
#[verifier::ext_equal]
pub enum Class {
    Sound,
    Bubble(Seq<char>),
    Caption,
    Loose,
}

/// What a segment is.
pub open spec fn class_of(metadata: TranslationSegmentMetadata) -> Class {
    if metadata.is_sound_effect {
        Class::Sound
    } else {
        match metadata.bubble_id {
            Some(bubble) => Class::Bubble(bubble@),
            None => match metadata.role {
                Some(role) => if last_part(role@) == "caption"@ || last_part(role@)
                    == "narration"@ {
                    Class::Caption
                } else {
                    Class::Loose
                },
                None => Class::Loose,
            },
        }
    }
}

/// Two segments stand on the same page.
pub open spec fn one_page(targets: Seq<Target>, left: int, right: int) -> bool {
    name_view(targets[left].metadata.page_id) == name_view(targets[right].metadata.page_id)
}

/// A segment is translated with the one before it. A sound stands alone.
pub open spec fn joins_previous(
    policy: TranslationUnitPolicy,
    targets: Seq<Target>,
    index: int,
) -> bool {
    &&& index > 0
    &&& one_page(targets, index - 1, index)
    &&& match policy {
        TranslationUnitPolicy::PageOnly => true,
        TranslationUnitPolicy::AdaptiveV1 => {
            let class = class_of(targets[index].metadata);
            class != Class::Sound && class == class_of(targets[index - 1].metadata)
        },
    }
}

/// The number of the unit of a segment.
pub open spec fn unit_place(
    policy: TranslationUnitPolicy,
    targets: Seq<Target>,
    index: int,
) -> nat
    decreases index,
{
    if index <= 0 {
        0
    } else if joins_previous(policy, targets, index) {
        unit_place(policy, targets, index - 1)
    } else {
        unit_place(policy, targets, index - 1) + 1
    }
}

/// The first segment of the page of a segment, among those next to each other.
pub open spec fn page_start(targets: Seq<Target>, index: int) -> int
    decreases index,
{
    if index <= 0 || !one_page(targets, index - 1, index) {
        index
    } else {
        page_start(targets, index - 1)
    }
}

/// The number of the unit of a segment on its page.
pub open spec fn page_unit(policy: TranslationUnitPolicy, targets: Seq<Target>, index: int) -> nat
    decreases index,
{
    if index <= 0 || !one_page(targets, index - 1, index) {
        0
    } else if joins_previous(policy, targets, index) {
        page_unit(policy, targets, index - 1)
    } else {
        page_unit(policy, targets, index - 1) + 1
    }
}

/// The name of the unit of a segment.
pub open spec fn unit_name(
    policy: TranslationUnitPolicy,
    targets: Seq<Target>,
    index: int,
) -> Seq<char> {
    "unit-page-"@ + padded_decimal(targets[page_start(targets, index)].page as nat, 4) + "-"@
        + padded_decimal(page_unit(policy, targets, index), 4)
}

/// The kind of the unit of a segment.
pub open spec fn unit_kind(policy: TranslationUnitPolicy, target: Target) -> Seq<char> {
    match policy {
        TranslationUnitPolicy::PageOnly => "page"@,
        TranslationUnitPolicy::AdaptiveV1 => match class_of(target.metadata) {
            Class::Bubble(_) => "dialogue_group"@,
            Class::Caption => "caption_block"@,
            _ => "page"@,
        },
    }
}

/// The condition to be in a unit.
pub open spec fn in_unit(
    policy: TranslationUnitPolicy,
    targets: Seq<Target>,
    unit: nat,
) -> spec_fn(usize) -> bool {
    |index: usize| unit_place(policy, targets, index as int) == unit
}

/// The first segments that are in a unit.
pub open spec fn unit_members(
    policy: TranslationUnitPolicy,
    targets: Seq<Target>,
    unit: nat,
    count: nat,
) -> Seq<usize> {
    selected(count, in_unit(policy, targets, unit))
}

/// A unit with its first segments.
pub open spec fn is_unit(
    policy: TranslationUnitPolicy,
    targets: Seq<Target>,
    unit: TranslationUnit,
    place: nat,
    count: nat,
) -> bool {
    let members = unit_members(policy, targets, place, count);
    &&& members.len() > 0
    &&& unit.id@ == unit_name(policy, targets, members[0] as int)
    &&& Some(unit.page_id@) == name_view(targets[members[0] as int].metadata.page_id)
    &&& unit.page_index == targets[page_start(targets, members[0] as int)].page
    &&& unit.unit_type@ == unit_kind(policy, targets[members[0] as int])
    &&& unit.region_ids.len() == members.len()
    &&& unit.segment_ids.len() == members.len()
    &&& forall|k: int|
        0 <= k < members.len() ==> Some((#[trigger] unit.region_ids@[k])@) == name_view(
            targets[members[k] as int].metadata.region_id,
        )
    &&& forall|k: int|
        0 <= k < members.len() ==> (#[trigger] unit.segment_ids@[k])@ == segment_name(
            targets[members[k] as int].metadata,
        )
}

/// A segment knows its unit, and is otherwise as it was.
pub open spec fn knows_unit(
    policy: TranslationUnitPolicy,
    targets: Seq<Target>,
    index: int,
    after: Target,
) -> bool {
    let before = targets[index];
    &&& after == (Target { metadata: after.metadata, ..before })
    &&& after.metadata == (TranslationSegmentMetadata {
        unit_id: after.metadata.unit_id,
        unit_type: after.metadata.unit_type,
        ..before.metadata
    })
    &&& name_view(after.metadata.unit_id) == Some(unit_name(policy, targets, index))
    &&& name_view(after.metadata.unit_type) == Some(unit_kind(policy, before))
}

/// Why segments cannot be put into units.
#[derive(Clone, Copy, Debug, PartialEq, Eq, Structural)]
pub enum UnitError {
    NoPage,
    NoRegion,
}

impl UnitError {
    pub open spec fn text(self) -> Seq<char> {
        match self {
            UnitError::NoPage => "chapter translation target has no page_id"@,
            UnitError::NoRegion => "chapter translation target has no region_id"@,
        }
    }

    pub fn message(self) -> (result: &'static str)
        ensures
            result@ == self.text(),
    {
        match self {
            UnitError::NoPage => "chapter translation target has no page_id",
            UnitError::NoRegion => "chapter translation target has no region_id",
        }
    }
}

/// A segment has a page and a place on it.
pub open spec fn placed(target: Target) -> bool {
    target.metadata.page_id is Some && target.metadata.region_id is Some
}

/// Why the first segment without a place cannot be put into a unit.
pub open spec fn unit_problem(targets: Seq<Target>, from: int) -> Option<UnitError>
    decreases targets.len() - from,
{
    if from < 0 || from >= targets.len() {
        None
    } else if targets[from].metadata.page_id is None {
        Some(UnitError::NoPage)
    } else if targets[from].metadata.region_id is None {
        Some(UnitError::NoRegion)
    } else {
        unit_problem(targets, from + 1)
    }
}

fn same_option(left: &Option<String>, right: &Option<String>) -> (result: bool)
    ensures
        result == (name_view(*left) == name_view(*right)),
{
    match (left, right) {
        (Some(left), Some(right)) => same(left.as_str(), right.as_str()),
        (None, None) => true,
        _ => false,
    }
}

fn is_caption(role: &Option<String>) -> (result: bool)
    ensures
        result == (match *role {
            Some(role) => last_part(role@) == "caption"@ || last_part(role@) == "narration"@,
            None => false,
        }),
{
    match role {
        Some(name) => match short_role(Some(name.as_str())) {
            Some(part) => same(part.as_str(), "caption") || same(part.as_str(), "narration"),
            None => false,
        },
        None => false,
    }
}

fn same_class(left: &TranslationSegmentMetadata, right: &TranslationSegmentMetadata) -> (result:
    bool)
    ensures
        result == (class_of(*right) != Class::Sound && class_of(*right) == class_of(*left)),
{
    if left.is_sound_effect || right.is_sound_effect {
        return false;
    }
    match (&left.bubble_id, &right.bubble_id) {
        (Some(left), Some(right)) => same(left.as_str(), right.as_str()),
        (None, None) => is_caption(&left.role) == is_caption(&right.role),
        _ => false,
    }
}

fn kind_name(policy: TranslationUnitPolicy, target: &Target) -> (result: &'static str)
    ensures
        result@ == unit_kind(policy, *target),
{
    match policy {
        TranslationUnitPolicy::PageOnly => "page",
        TranslationUnitPolicy::AdaptiveV1 => if target.metadata.is_sound_effect {
            "page"
        } else if target.metadata.bubble_id.is_some() {
            "dialogue_group"
        } else if is_caption(&target.metadata.role) {
            "caption_block"
        } else {
            "page"
        },
    }
}

fn make_name(page: usize, number: usize) -> (result: String)
    ensures
        result@ == "unit-page-"@ + padded_decimal(page as nat, 4) + "-"@ + padded_decimal(
            number as nat,
            4,
        ),
{
    let mut result = "unit-page-".to_owned();
    let digits = from_size_padded(page, 4);
    result.append(digits.as_str());
    result.append("-");
    let digits = from_size_padded(number, 4);
    result.append(digits.as_str());
    result
}

proof fn lemma_places_grow(policy: TranslationUnitPolicy, targets: Seq<Target>, left: int, right: int)
    requires
        0 <= left <= right,
    ensures
        unit_place(policy, targets, left) <= unit_place(policy, targets, right),
        unit_place(policy, targets, right) - unit_place(policy, targets, left) <= right - left,
    decreases right - left,
{
    if left < right {
        lemma_places_grow(policy, targets, left, right - 1);
    }
}

proof fn lemma_members_grow(
    policy: TranslationUnitPolicy,
    targets: Seq<Target>,
    unit: nat,
    count: nat,
)
    requires
        count < usize::MAX,
    ensures
        unit_members(policy, targets, unit, count + 1) == (if unit_place(
            policy,
            targets,
            count as int,
        ) == unit {
            unit_members(policy, targets, unit, count).push(count as usize)
        } else {
            unit_members(policy, targets, unit, count)
        }),
{
    reveal(Seq::filter);
    assert(places(count + 1).drop_last() =~= places(count));
    assert(places(count + 1).last() == count as usize);
}

proof fn lemma_no_members(
    policy: TranslationUnitPolicy,
    targets: Seq<Target>,
    unit: nat,
    count: nat,
)
    requires
        count <= usize::MAX,
        forall|i: int| 0 <= i < count ==> unit_place(policy, targets, i) != unit,
    ensures
        unit_members(policy, targets, unit, count).len() == 0,
{
    lemma_selected(count, in_unit(policy, targets, unit));
    if unit_members(policy, targets, unit, count).len() > 0 {
        let first = unit_members(policy, targets, unit, count)[0];
        assert(in_unit(policy, targets, unit)(first));
    }
}

/// Puts segments into units and tells them to which they belong.
pub fn make_units(policy: TranslationUnitPolicy, targets: &mut Vec<Target>) -> (result: Result<
    Vec<TranslationUnit>,
    UnitError,
>)
    ensures
        final(targets).len() == old(targets).len(),
        match result {
            Ok(units) => {
                &&& unit_problem(old(targets)@, 0) is None
                &&& units.len() == (if old(targets).len() == 0 {
                    0
                } else {
                    unit_place(policy, old(targets)@, old(targets).len() - 1) + 1
                })
                &&& forall|u: int|
                    0 <= u < units.len() ==> is_unit(
                        policy,
                        old(targets)@,
                        #[trigger] units@[u],
                        u as nat,
                        old(targets).len() as nat,
                    )
                &&& forall|i: int|
                    0 <= i < final(targets).len() ==> knows_unit(
                        policy,
                        old(targets)@,
                        i,
                        #[trigger] final(targets)@[i],
                    )
            },
            Err(error) => unit_problem(old(targets)@, 0) == Some(error),
        },
{
    let ghost before = targets@;
    let mut units: Vec<TranslationUnit> = Vec::new();
    let mut number: usize = 0;
    let mut page: usize = 0;
    let mut index: usize = 0;
    while index < targets.len()
        invariant
            index <= targets.len(),
            targets.len() == before.len(),
            before == old(targets)@,
            unit_problem(before, 0) == unit_problem(before, index as int),
            forall|i: int| index <= i < targets.len() ==> #[trigger] targets@[i] == before[i],
            forall|i: int|
                0 <= i < index ==> knows_unit(policy, before, i, #[trigger] targets@[i]),
            index == 0 ==> units.len() == 0,
            index > 0 ==> units.len() == unit_place(policy, before, index - 1) + 1,
            index > 0 ==> number == page_unit(policy, before, index - 1),
            index > 0 ==> page == before[page_start(before, index - 1)].page,
            number <= index,
            forall|u: int|
                0 <= u < units.len() ==> is_unit(
                    policy,
                    before,
                    #[trigger] units@[u],
                    u as nat,
                    index as nat,
                ),
        decreases targets.len() - index,
    {
        let ghost earlier = units@;
        if targets[index].metadata.page_id.is_none() {
            return Err(UnitError::NoPage);
        }
        let region_id = match &targets[index].metadata.region_id {
            Some(region) => region.clone(),
            None => return Err(UnitError::NoRegion),
        };
        let same_page = index > 0 && same_option(
            &targets[index - 1].metadata.page_id,
            &targets[index].metadata.page_id,
        );
        proof {
            if index > 0 {
                assert(knows_unit(policy, before, index - 1, targets@[index - 1]));
            }
        }
        let joins = same_page && match policy {
            TranslationUnitPolicy::PageOnly => true,
            TranslationUnitPolicy::AdaptiveV1 => same_class(
                &targets[index - 1].metadata,
                &targets[index].metadata,
            ),
        };
        proof {
            if index > 0 {
                let known = targets@[index - 1].metadata;
                assert(class_of(known) == class_of(before[index - 1].metadata));
            }
            assert(joins == joins_previous(policy, before, index as int));
        }
        if !same_page {
            number = 0;
            page = targets[index].page;
        } else if !joins {
            number += 1;
        }
        let segment_id = stable_segment_id(&targets[index].metadata);
        let kind = kind_name(policy, &targets[index]);
        proof {
            assert forall|u: nat| u < earlier.len() implies #[trigger] unit_members(
                policy,
                before,
                u,
                index as nat + 1,
            ) == (if unit_place(policy, before, index as int) == u {
                unit_members(policy, before, u, index as nat).push(index)
            } else {
                unit_members(policy, before, u, index as nat)
            }) by {
                lemma_members_grow(policy, before, u, index as nat);
            }
        }
        let id = make_name(page, number);
        if !joins {
            let page_id = match &targets[index].metadata.page_id {
                Some(page_id) => page_id.clone(),
                None => return Err(UnitError::NoPage),
            };
            let mut region_ids: Vec<String> = Vec::new();
            region_ids.push(region_id);
            let mut segment_ids: Vec<String> = Vec::new();
            segment_ids.push(segment_id);
            let ghost place = unit_place(policy, before, index as int);
            proof {
                assert forall|i: int| 0 <= i < index implies unit_place(policy, before, i)
                    != place by {
                    lemma_places_grow(policy, before, i, index - 1);
                }
                lemma_no_members(policy, before, place, index as nat);
                lemma_members_grow(policy, before, place, index as nat);
            }
            units.push(
                TranslationUnit {
                    id: id.clone(),
                    page_id,
                    page_index: page,
                    unit_type: kind.to_owned(),
                    region_ids,
                    segment_ids,
                },
            );
            proof {
                assert(unit_members(policy, before, place, index as nat + 1) =~= seq![index]);
                assert(is_unit(
                    policy,
                    before,
                    units@[units.len() - 1],
                    place,
                    index as nat + 1,
                ));
            }
        } else {
            let last: usize = units.len() - 1;
            let mut unit = match units.pop() {
                Some(unit) => unit,
                None => return Err(UnitError::NoPage),
            };
            unit.region_ids.push(region_id);
            unit.segment_ids.push(segment_id);
            proof {
                assert(is_unit(policy, before, earlier[last as int], last as nat, index as nat));
                lemma_members_grow(policy, before, last as nat, index as nat);
            }
            units.push(unit);
            proof {
                assert(is_unit(
                    policy,
                    before,
                    units@[last as int],
                    last as nat,
                    index as nat + 1,
                ));
            }
        }
        proof {
            assert forall|u: int| 0 <= u < units.len() implies is_unit(
                policy,
                before,
                #[trigger] units@[u],
                u as nat,
                index as nat + 1,
            ) by {
                if u < units.len() - 1 {
                    assert(units@[u] == earlier[u]);
                    assert(is_unit(policy, before, earlier[u], u as nat, index as nat));
                    lemma_members_grow(policy, before, u as nat, index as nat);
                }
            }
        }
        let mut target = take_target(targets, index);
        target.metadata.unit_id = Some(id);
        target.metadata.unit_type = Some(kind.to_owned());
        targets.set(index, target);
        index += 1;
    }
    Ok(units)
}

/// A copy of one of some targets.
fn take_target(targets: &Vec<Target>, index: usize) -> (result: Target)
    requires
        index < targets.len(),
    ensures
        result == targets@[index as int],
{
    let target = &targets[index];
    Target {
        entity: target.entity,
        source: target.source.clone(),
        page: target.page,
        metadata: target.metadata.clone(),
    }
}

/// Puts segments into units by what they are: dialogue by bubble, captions together, sounds alone.
pub fn adaptive_units(targets: &mut Vec<Target>) -> (result: Result<
    Vec<TranslationUnit>,
    UnitError,
>)
    ensures
        final(targets).len() == old(targets).len(),
        match result {
            Ok(units) => {
                &&& unit_problem(old(targets)@, 0) is None
                &&& units.len() == (if old(targets).len() == 0 {
                    0
                } else {
                    unit_place(
                        TranslationUnitPolicy::AdaptiveV1,
                        old(targets)@,
                        old(targets).len() - 1,
                    ) + 1
                })
                &&& forall|u: int|
                    0 <= u < units.len() ==> is_unit(
                        TranslationUnitPolicy::AdaptiveV1,
                        old(targets)@,
                        #[trigger] units@[u],
                        u as nat,
                        old(targets).len() as nat,
                    )
                &&& forall|i: int|
                    0 <= i < final(targets).len() ==> knows_unit(
                        TranslationUnitPolicy::AdaptiveV1,
                        old(targets)@,
                        i,
                        #[trigger] final(targets)@[i],
                    )
            },
            Err(error) => unit_problem(old(targets)@, 0) == Some(error),
        },
{
    make_units(TranslationUnitPolicy::AdaptiveV1, targets)
}

/// Puts the segments of each page into one unit.
pub fn page_units(targets: &mut Vec<Target>) -> (result: Result<Vec<TranslationUnit>, UnitError>)
    ensures
        final(targets).len() == old(targets).len(),
        match result {
            Ok(units) => {
                &&& unit_problem(old(targets)@, 0) is None
                &&& units.len() == (if old(targets).len() == 0 {
                    0
                } else {
                    unit_place(
                        TranslationUnitPolicy::PageOnly,
                        old(targets)@,
                        old(targets).len() - 1,
                    ) + 1
                })
                &&& forall|u: int|
                    0 <= u < units.len() ==> is_unit(
                        TranslationUnitPolicy::PageOnly,
                        old(targets)@,
                        #[trigger] units@[u],
                        u as nat,
                        old(targets).len() as nat,
                    )
                &&& forall|i: int|
                    0 <= i < final(targets).len() ==> knows_unit(
                        TranslationUnitPolicy::PageOnly,
                        old(targets)@,
                        i,
                        #[trigger] final(targets)@[i],
                    )
            },
            Err(error) => unit_problem(old(targets)@, 0) == Some(error),
        },
{
    make_units(TranslationUnitPolicy::PageOnly, targets)
}

/// A unit keeps to one page, and within it to segments that stand next to each other.
pub proof fn law_units_keep_to_a_page(
    policy: TranslationUnitPolicy,
    targets: Seq<Target>,
    left: int,
    right: int,
)
    requires
        0 <= left <= right < targets.len(),
        unit_place(policy, targets, left) == unit_place(policy, targets, right),
    ensures
        one_page(targets, left, right),
        forall|i: int|
            left <= i <= right ==> #[trigger] unit_place(policy, targets, i) == unit_place(
                policy,
                targets,
                left,
            ),
    decreases right - left,
{
    assert forall|i: int| left <= i <= right implies #[trigger] unit_place(policy, targets, i)
        == unit_place(policy, targets, left) by {
        lemma_places_grow(policy, targets, left, i);
        lemma_places_grow(policy, targets, i, right);
    }
    if left < right {
        assert(unit_place(policy, targets, right - 1) == unit_place(policy, targets, left));
        law_units_keep_to_a_page(policy, targets, left, right - 1);
    }
}

/// A sound is translated alone.
pub proof fn law_sounds_stand_alone(targets: Seq<Target>, sound: int, other: int)
    requires
        0 <= sound < targets.len(),
        0 <= other < targets.len(),
        sound != other,
        targets[sound].metadata.is_sound_effect,
    ensures
        unit_place(TranslationUnitPolicy::AdaptiveV1, targets, sound) != unit_place(
            TranslationUnitPolicy::AdaptiveV1,
            targets,
            other,
        ),
{
    let policy = TranslationUnitPolicy::AdaptiveV1;
    if other < sound {
        lemma_places_grow(policy, targets, other, sound - 1);
        assert(!joins_previous(policy, targets, sound));
    } else {
        lemma_places_grow(policy, targets, sound + 1, other);
        assert(!joins_previous(policy, targets, sound + 1));
    }
}

/// Only segments of one bubble are translated together with a segment in it.
pub proof fn law_dialogue_is_grouped_by_bubble(targets: Seq<Target>, left: int, right: int)
    requires
        0 <= left <= right < targets.len(),
        unit_place(TranslationUnitPolicy::AdaptiveV1, targets, left) == unit_place(
            TranslationUnitPolicy::AdaptiveV1,
            targets,
            right,
        ),
    ensures
        class_of(targets[left].metadata) == class_of(targets[right].metadata),
    decreases right - left,
{
    let policy = TranslationUnitPolicy::AdaptiveV1;
    if left < right {
        lemma_places_grow(policy, targets, left, right - 1);
        assert(joins_previous(policy, targets, right));
        law_dialogue_is_grouped_by_bubble(targets, left, right - 1);
    }
}

/// Segments next to each other on a page are one unit where whole pages are. Where they are grouped,
/// two of them are in one unit if they stand in the same bubble, or are both captions, or are
/// neither, and none of them is a sound. Segments on different pages never are.
pub proof fn law_neighbors_share_a_unit(
    policy: TranslationUnitPolicy,
    targets: Seq<Target>,
    index: int,
)
    requires
        0 < index < targets.len(),
    ensures
        ({
            let (before, after) = (targets[index - 1].metadata, targets[index].metadata);
            let together = unit_place(policy, targets, index - 1) == unit_place(
                policy,
                targets,
                index,
            );
            let on_page = name_view(before.page_id) == name_view(after.page_id);
            &&& !on_page ==> !together
            &&& policy == TranslationUnitPolicy::PageOnly && on_page ==> together
            &&& policy == TranslationUnitPolicy::AdaptiveV1 && on_page ==> {
                &&& before.is_sound_effect || after.is_sound_effect ==> !together
                &&& !before.is_sound_effect && !after.is_sound_effect ==> {
                    &&& before.bubble_id is Some && after.bubble_id is Some ==> (together
                        <==> name_view(before.bubble_id) == name_view(after.bubble_id))
                    &&& before.bubble_id is Some != after.bubble_id is Some ==> !together
                    &&& before.bubble_id is None && after.bubble_id is None ==> (together
                        <==> captioned(before) == captioned(after))
                }
            }
        }),
{
}

/// The role of a segment is that of a caption.
pub open spec fn captioned(metadata: TranslationSegmentMetadata) -> bool {
    metadata.role matches Some(role) && (last_part(role@) == "caption"@ || last_part(role@)
        == "narration"@)
}

/// The last part of a name is what stands behind its last dot, or the name itself without one.
pub proof fn law_last_part_stands_behind_the_last_dot(before: Seq<char>, part: Seq<char>)
    requires
        !part.contains('.'),
    ensures
        last_part(part) == part,
        last_part(before.push('.') + part) == part,
    decreases part.len(),
{
    let whole = before.push('.') + part;
    if part.len() == 0 {
        assert(whole =~= before.push('.'));
        assert(last_part(part) =~= part);
        assert(last_part(whole) =~= part);
    } else {
        let rest = part.drop_last();
        assert(part[part.len() - 1] == part.last());
        assert(!rest.contains('.')) by {
            if rest.contains('.') {
                let k = choose|k: int| 0 <= k < rest.len() && rest[k] == '.';
                assert(part[k] == '.');
            }
        }
        law_last_part_stands_behind_the_last_dot(before, rest);
        assert(whole.drop_last() =~= before.push('.') + rest);
        assert(whole.last() == part.last());
        assert(rest.push(part.last()) =~= part);
    }
}

/// Segments can be grouped exactly if each has a page and a place on it. The first without one
/// says what is missing.
pub proof fn law_segments_without_a_place_are_refused(targets: Seq<Target>, from: int)
    requires
        0 <= from <= targets.len(),
    ensures
        unit_problem(targets, from) is None <==> forall|i: int|
            from <= i < targets.len() ==> (#[trigger] targets[i]).metadata.page_id is Some
                && targets[i].metadata.region_id is Some,
        from < targets.len() && targets[from].metadata.page_id is None ==> unit_problem(
            targets,
            from,
        ) == Some(UnitError::NoPage),
        from < targets.len() && targets[from].metadata.page_id is Some
            && targets[from].metadata.region_id is None ==> unit_problem(targets, from) == Some(
            UnitError::NoRegion,
        ),
    decreases targets.len() - from,
{
    if from < targets.len() {
        law_segments_without_a_place_are_refused(targets, from + 1);
        if unit_problem(targets, from) is None {
            assert(targets[from].metadata.page_id is Some);
        }
    }
}

/// A unit is a group of dialogue where its segments stand in a bubble, a block of captions where
/// they are captions, and a page otherwise.
pub proof fn law_units_are_named_by_what_they_hold(target: Target)
    ensures
        unit_kind(TranslationUnitPolicy::PageOnly, target) == "page"@,
        !target.metadata.is_sound_effect && target.metadata.bubble_id is Some ==> unit_kind(
            TranslationUnitPolicy::AdaptiveV1,
            target,
        ) == "dialogue_group"@,
        !target.metadata.is_sound_effect && target.metadata.bubble_id is None && captioned(
            target.metadata,
        ) ==> unit_kind(TranslationUnitPolicy::AdaptiveV1, target) == "caption_block"@,
        target.metadata.is_sound_effect ==> unit_kind(TranslationUnitPolicy::AdaptiveV1, target)
            == "page"@,
        target.metadata.bubble_id is None && !captioned(target.metadata) ==> unit_kind(
            TranslationUnitPolicy::AdaptiveV1,
            target,
        ) == "page"@,
{
}

} // verus!
