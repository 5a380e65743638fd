//! Requests for translation as they are sent, and the answers to them.

use vstd::prelude::*;

use crate::instructions::{system_prompt, translation_system_prompt};
use crate::json::{
    field, first_field, json_text, size, size_value, text as text_value, text_of, write_json, Json, JsonValue, ListBuilder,
    ObjectBuilder,
};
use crate::ordering::{all_places, lemma_selected, places, select_places, selected};
use crate::request::{LanguageName, TranslationContext, TranslationRequest, TranslationUnit};
use crate::text::{from_size_padded, padded_decimal, same};

verus! {

/// A field that is there where it has a text.
pub open spec fn optional_field(name: Seq<char>, content: Option<String>) -> Seq<
    (Seq<char>, JsonValue),
> {
    match content {
        Some(text) => seq![(name, JsonValue::Text(text@))],
        None => Seq::empty(),
    }
}

fn add_optional(fields: &mut ObjectBuilder, name: &str, content: &Option<String>)
    ensures
        final(fields)@ == old(fields)@ + optional_field(name@, *content),
{
    if let Some(text) = content {
        fields.field(name, text_value(text.as_str()));
    }
    proof {
        assert(fields@ =~= old(fields)@ + optional_field(name@, *content));
    }
}

/// A segment as it is sent.
pub open spec fn segment_value(request: TranslationRequest, id: int) -> JsonValue {
    let metadata = request.segment_metadata@[id];
    JsonValue::Object(
        seq![
            ("id"@, JsonValue::Text(request.segment_ids@[id]@)),
            ("page_id"@, JsonValue::Text(request.page_name(id))),
            ("region_id"@, JsonValue::Text(request.region_name(id))),
            ("page_index"@, size_value(request.page_of(id) as nat)),
            ("order_index"@, size_value(request.order_of(id))),
            ("source_text"@, JsonValue::Text(request.segments@[id]@)),
        ] + optional_field("role"@, metadata.role) + seq![
            ("inside_balloon"@, JsonValue::Bool(metadata.inside_balloon)),
        ] + optional_field("bubble_id"@, metadata.bubble_id) + optional_field(
            "unit_id"@,
            metadata.unit_id,
        ) + optional_field("unit_type"@, metadata.unit_type) + seq![
            ("is_sound_effect"@, JsonValue::Bool(metadata.is_sound_effect)),
        ],
    )
}

fn segment_json(request: &TranslationRequest, id: usize) -> (result: Json)
    requires
        request.aligned(),
        id < request.segments.len(),
    ensures
        result@ == segment_value(*request, id as int),
{
    let metadata = &request.segment_metadata[id];
    let mut fields = ObjectBuilder::new();
    fields.field("id", text_value(request.segment_ids[id].as_str()));
    fields.field("page_id", Json::Text(request.page_id(id)));
    fields.field("region_id", Json::Text(request.region_id(id)));
    fields.field("page_index", size(request.page_number(id)));
    fields.field("order_index", size(request.order_index(id)));
    fields.field("source_text", text_value(request.segments[id].as_str()));
    let ghost head = fields@;
    proof {
        assert(head =~= seq![
            ("id"@, JsonValue::Text(request.segment_ids@[id as int]@)),
            ("page_id"@, JsonValue::Text(request.page_name(id as int))),
            ("region_id"@, JsonValue::Text(request.region_name(id as int))),
            ("page_index"@, size_value(request.page_of(id as int) as nat)),
            ("order_index"@, size_value(request.order_of(id as int))),
            ("source_text"@, JsonValue::Text(request.segments@[id as int]@)),
        ]);
    }
    add_optional(&mut fields, "role", &metadata.role);
    let ghost roled = fields@;
    fields.field("inside_balloon", Json::Bool(metadata.inside_balloon));
    proof {
        assert(fields@ =~= roled + seq![
            ("inside_balloon"@, JsonValue::Bool(metadata.inside_balloon)),
        ]);
    }
    add_optional(&mut fields, "bubble_id", &metadata.bubble_id);
    add_optional(&mut fields, "unit_id", &metadata.unit_id);
    add_optional(&mut fields, "unit_type", &metadata.unit_type);
    let ghost typed = fields@;
    fields.field("is_sound_effect", Json::Bool(metadata.is_sound_effect));
    proof {
        assert(fields@ =~= typed + seq![
            ("is_sound_effect"@, JsonValue::Bool(metadata.is_sound_effect)),
        ]);
    }
    fields.build()
}

/// Segments as they are sent.
pub open spec fn segment_values(request: TranslationRequest, ids: Seq<usize>) -> Seq<JsonValue> {
    ids.map_values(|id: usize| segment_value(request, id as int))
}

fn segments_json(request: &TranslationRequest, ids: &Vec<usize>) -> (result: Json)
    requires
        request.aligned(),
        forall|i: int| 0 <= i < ids.len() ==> (#[trigger] ids@[i]) < request.segments.len(),
    ensures
        result@ == JsonValue::List(segment_values(*request, ids@)),
{
    let mut list = ListBuilder::new();
    let mut index: usize = 0;
    proof {
        assert(list@ =~= segment_values(*request, ids@).take(0));
    }
    while index < ids.len()
        invariant
            index <= ids.len(),
            request.aligned(),
            forall|i: int| 0 <= i < ids.len() ==> (#[trigger] ids@[i]) < request.segments.len(),
            list@ == segment_values(*request, ids@).take(index as int),
        decreases ids.len() - index,
    {
        list.push(segment_json(request, ids[index]));
        index += 1;
        proof {
            assert(segment_values(*request, ids@).take(index as int) =~= segment_values(
                *request,
                ids@,
            ).take(index - 1).push(segment_value(*request, ids@[index - 1] as int)));
        }
    }
    proof {
        assert(segment_values(*request, ids@).take(index as int) =~= segment_values(
            *request,
            ids@,
        ));
    }
    list.build()
}

/// Two segments stand on the same page.
pub open spec fn same_page(request: TranslationRequest, left: int, right: int) -> bool {
    request.page_name(left) == request.page_name(right) && request.page_of(left)
        == request.page_of(right)
}

/// The condition to stand on the page of a segment.
pub open spec fn on_page(request: TranslationRequest, first: int) -> spec_fn(usize) -> bool {
    |id: usize| same_page(request, first, id as int)
}

/// The condition to be the first segment of its page.
pub open spec fn begins_page(request: TranslationRequest) -> spec_fn(usize) -> bool {
    |id: usize|
        forall|earlier: int| 0 <= earlier < id ==> !#[trigger] same_page(request, earlier, id as int)
}

/// The segments of the page of a segment, in order.
pub open spec fn page_members(request: TranslationRequest, first: int) -> Seq<usize> {
    selected(request.segments@.len(), on_page(request, first))
}

/// The first segments of the pages, in order.
pub open spec fn page_firsts(request: TranslationRequest) -> Seq<usize> {
    selected(request.segments@.len(), begins_page(request))
}

/// The first of some segments that has an identifier.
pub open spec fn member_with(
    request: TranslationRequest,
    members: Seq<usize>,
    id: Seq<char>,
) -> Option<usize>
    decreases members.len(),
{
    if members.len() == 0 {
        None
    } else if request.segment_ids@[members[0] as int]@ == id {
        Some(members[0])
    } else {
        member_with(request, members.drop_first(), id)
    }
}

/// Those of some segments that have these identifiers, in the order of the identifiers.
pub open spec fn members_with(
    request: TranslationRequest,
    members: Seq<usize>,
    ids: Seq<String>,
) -> Seq<usize>
    decreases ids.len(),
{
    if ids.len() == 0 {
        Seq::empty()
    } else {
        let before = members_with(request, members, ids.drop_last());
        match member_with(request, members, ids.last()@) {
            Some(member) => before.push(member),
            None => before,
        }
    }
}

/// Texts as data.
pub open spec fn text_values(texts: Seq<String>) -> Seq<JsonValue> {
    texts.map_values(|text: String| JsonValue::Text(text@))
}

fn texts_json(texts: &Vec<String>) -> (result: Json)
    ensures
        result@ == JsonValue::List(text_values(texts@)),
{
    let mut list = ListBuilder::new();
    let mut index: usize = 0;
    proof {
        assert(list@ =~= text_values(texts@).take(0));
    }
    while index < texts.len()
        invariant
            index <= texts.len(),
            list@ == text_values(texts@).take(index as int),
        decreases texts.len() - index,
    {
        list.push(text_value(texts[index].as_str()));
        index += 1;
        proof {
            assert(text_values(texts@).take(index as int) =~= text_values(texts@).take(
                index - 1,
            ).push(JsonValue::Text(texts@[index - 1]@)));
        }
    }
    proof {
        assert(text_values(texts@).take(index as int) =~= text_values(texts@));
    }
    list.build()
}

/// A unit as it is sent.
pub open spec fn unit_value(
    id: Seq<char>,
    unit_type: Seq<char>,
    region_ids: Seq<JsonValue>,
    segments: Seq<JsonValue>,
) -> JsonValue {
    JsonValue::Object(
        seq![
            ("id"@, JsonValue::Text(id)),
            ("unit_type"@, JsonValue::Text(unit_type)),
            ("region_ids"@, JsonValue::List(region_ids)),
            ("segments"@, JsonValue::List(segments)),
        ],
    )
}

fn unit_json(id: &str, unit_type: &str, region_ids: Json, segments: Json) -> (result: Json)
    requires
        region_ids@ is List,
        segments@ is List,
    ensures
        result@ == unit_value(id@, unit_type@, region_ids@->List_0, segments@->List_0),
{
    let mut fields = ObjectBuilder::new();
    fields.field("id", text_value(id));
    fields.field("unit_type", text_value(unit_type));
    fields.field("region_ids", region_ids);
    fields.field("segments", segments);
    proof {
        assert(fields@ =~= unit_value(
            id@,
            unit_type@,
            region_ids@->List_0,
            segments@->List_0,
        )->Object_0);
    }
    fields.build()
}

/// The names of the places of segments.
pub open spec fn region_values(request: TranslationRequest, members: Seq<usize>) -> Seq<JsonValue> {
    members.map_values(|id: usize| JsonValue::Text(request.region_name(id as int)))
}

/// The unit that a page is where no units are given.
pub open spec fn whole_page(request: TranslationRequest, first: int) -> JsonValue {
    let members = page_members(request, first);
    unit_value(
        "unit-page-"@ + padded_decimal(request.page_of(first) as nat, 4) + "-0000"@,
        "page"@,
        region_values(request, members),
        segment_values(request, members),
    )
}

/// A given unit with its segments.
pub open spec fn given_unit(
    request: TranslationRequest,
    first: int,
    unit: TranslationUnit,
) -> JsonValue {
    unit_value(
        unit.id@,
        unit.unit_type@,
        text_values(unit.region_ids@),
        segment_values(
            request,
            members_with(request, page_members(request, first), unit.segment_ids@),
        ),
    )
}

/// The given units that are of a page.
pub open spec fn given_units(
    request: TranslationRequest,
    first: int,
    units: Seq<TranslationUnit>,
) -> Seq<JsonValue>
    decreases units.len(),
{
    if units.len() == 0 {
        Seq::empty()
    } else {
        let before = given_units(request, first, units.drop_last());
        if units.last().page_id@ == request.page_name(first) {
            before.push(given_unit(request, first, units.last()))
        } else {
            before
        }
    }
}

/// The units of the page of a segment.
pub open spec fn page_units(request: TranslationRequest, first: int) -> Seq<JsonValue> {
    if request.units@.len() == 0 {
        seq![whole_page(request, first)]
    } else {
        given_units(request, first, request.units@)
    }
}

/// The page of a segment as it is sent.
pub open spec fn page_value(request: TranslationRequest, first: int) -> JsonValue {
    JsonValue::Object(
        seq![
            ("page_id"@, JsonValue::Text(request.page_name(first))),
            ("page_index"@, size_value(request.page_of(first) as nat)),
            ("units"@, JsonValue::List(page_units(request, first))),
        ],
    )
}

/// The pages as they are sent.
pub open spec fn page_values(request: TranslationRequest, firsts: Seq<usize>) -> Seq<JsonValue> {
    firsts.map_values(|first: usize| page_value(request, first as int))
}

fn find_member(request: &TranslationRequest, members: &Vec<usize>, id: &str) -> (result: Option<
    usize,
>)
    requires
        request.aligned(),
        forall|i: int| 0 <= i < members.len() ==> (#[trigger] members@[i]) < request.segments.len(),
    ensures
        result == member_with(*request, members@, id@),
        result matches Some(member) ==> member < request.segments.len(),
{
    let mut index: usize = 0;
    proof {
        assert(members@.skip(0) =~= members@);
    }
    while index < members.len()
        invariant
            index <= members.len(),
            request.aligned(),
            forall|i: int|
                0 <= i < members.len() ==> (#[trigger] members@[i]) < request.segments.len(),
            member_with(*request, members@, id@) == member_with(
                *request,
                members@.skip(index as int),
                id@,
            ),
        decreases members.len() - index,
    {
        let member = members[index];
        proof {
            assert(members@.skip(index as int)[0] == member);
            assert(members@.skip(index as int).drop_first() =~= members@.skip(index as int + 1));
        }
        if same(request.segment_ids[member].as_str(), id) {
            return Some(member);
        }
        index += 1;
    }
    None
}

fn find_members(request: &TranslationRequest, members: &Vec<usize>, ids: &Vec<String>) -> (result:
    Vec<usize>)
    requires
        request.aligned(),
        forall|i: int| 0 <= i < members.len() ==> (#[trigger] members@[i]) < request.segments.len(),
    ensures
        result@ == members_with(*request, members@, ids@),
        forall|i: int| 0 <= i < result.len() ==> (#[trigger] result@[i]) < request.segments.len(),
{
    let mut result: Vec<usize> = Vec::new();
    let mut index: usize = 0;
    proof {
        assert(ids@.take(0) =~= Seq::empty());
    }
    while index < ids.len()
        invariant
            index <= ids.len(),
            request.aligned(),
            forall|i: int|
                0 <= i < members.len() ==> (#[trigger] members@[i]) < request.segments.len(),
            result@ == members_with(*request, members@, ids@.take(index as int)),
            forall|i: int|
                0 <= i < result.len() ==> (#[trigger] result@[i]) < request.segments.len(),
        decreases ids.len() - index,
    {
        proof {
            let longer = ids@.take(index as int + 1);
            assert(longer.drop_last() =~= ids@.take(index as int));
            assert(longer.last() == ids@[index as int]);
        }
        if let Some(member) = find_member(request, members, ids[index].as_str()) {
            result.push(member);
        }
        index += 1;
    }
    proof {
        assert(ids@.take(index as int) =~= ids@);
    }
    result
}

fn whole_page_json(request: &TranslationRequest, first: usize, members: &Vec<usize>) -> (result:
    Json)
    requires
        request.aligned(),
        first < request.segments.len(),
        members@ == page_members(*request, first as int),
        forall|i: int| 0 <= i < members.len() ==> (#[trigger] members@[i]) < request.segments.len(),
    ensures
        result@ == whole_page(*request, first as int),
{
    let mut regions = ListBuilder::new();
    let mut index: usize = 0;
    proof {
        assert(regions@ =~= region_values(*request, members@).take(0));
    }
    while index < members.len()
        invariant
            index <= members.len(),
            request.aligned(),
            forall|i: int|
                0 <= i < members.len() ==> (#[trigger] members@[i]) < request.segments.len(),
            regions@ == region_values(*request, members@).take(index as int),
        decreases members.len() - index,
    {
        regions.push(Json::Text(request.region_id(members[index])));
        index += 1;
        proof {
            assert(region_values(*request, members@).take(index as int) =~= region_values(
                *request,
                members@,
            ).take(index - 1).push(
                JsonValue::Text(request.region_name(members@[index - 1] as int)),
            ));
        }
    }
    proof {
        assert(region_values(*request, members@).take(index as int) =~= region_values(
            *request,
            members@,
        ));
    }
    let mut id = "unit-page-".to_owned();
    let number = from_size_padded(request.page_number(first), 4);
    id.append(number.as_str());
    id.append("-0000");
    unit_json(id.as_str(), "page", regions.build(), segments_json(request, members))
}

fn page_json(request: &TranslationRequest, first: usize) -> (result: Json)
    requires
        request.aligned(),
        first < request.segments.len(),
    ensures
        result@ == page_value(*request, first as int),
{
    let page_id = request.page_id(first);
    let page_index = request.page_number(first);
    let ghost condition = on_page(*request, first as int);
    let test = |id: usize| -> (flag: bool)
        requires
            id < request.segments.len(),
            request.aligned(),
        ensures
            flag == condition(id),
        {
            let name = request.page_id(id);
            same(page_id.as_str(), name.as_str()) && page_index == request.page_number(id)
        };
    let members = select_places(request.segments.len(), &test, Ghost(condition));
    let mut units = ListBuilder::new();
    if request.units.len() == 0 {
        units.push(whole_page_json(request, first, &members));
        proof {
            assert(units@ =~= page_units(*request, first as int));
        }
    } else {
        let mut index: usize = 0;
        proof {
            assert(request.units@.take(0) =~= Seq::empty());
        }
        while index < request.units.len()
            invariant
                index <= request.units.len(),
                request.aligned(),
                page_id@ == request.page_name(first as int),
                members@ == page_members(*request, first as int),
                forall|i: int|
                    0 <= i < members.len() ==> (#[trigger] members@[i]) < request.segments.len(),
                units@ == given_units(*request, first as int, request.units@.take(index as int)),
            decreases request.units.len() - index,
        {
            let unit = &request.units[index];
            proof {
                let longer = request.units@.take(index as int + 1);
                assert(longer.drop_last() =~= request.units@.take(index as int));
                assert(longer.last() == request.units@[index as int]);
            }
            if same(unit.page_id.as_str(), page_id.as_str()) {
                let ids = find_members(request, &members, &unit.segment_ids);
                units.push(
                    unit_json(
                        unit.id.as_str(),
                        unit.unit_type.as_str(),
                        texts_json(&unit.region_ids),
                        segments_json(request, &ids),
                    ),
                );
            }
            index += 1;
        }
        proof {
            assert(request.units@.take(index as int) =~= request.units@);
        }
    }
    let mut fields = ObjectBuilder::new();
    fields.field("page_id", text_value(page_id.as_str()));
    fields.field("page_index", size(page_index));
    fields.field("units", units.build());
    proof {
        assert(fields@ =~= page_value(*request, first as int)->Object_0);
    }
    fields.build()
}

fn pages_json(request: &TranslationRequest) -> (result: Json)
    requires
        request.aligned(),
    ensures
        result@ == JsonValue::List(page_values(*request, page_firsts(*request))),
{
    let ghost condition = begins_page(*request);
    let test = |id: usize| -> (flag: bool)
        requires
            id < request.segments.len(),
            request.aligned(),
        ensures
            flag == condition(id),
        { first_of_page(request, id) };
    let firsts = select_places(request.segments.len(), &test, Ghost(condition));
    let mut pages = ListBuilder::new();
    let mut index: usize = 0;
    proof {
        assert(pages@ =~= page_values(*request, firsts@).take(0));
    }
    while index < firsts.len()
        invariant
            index <= firsts.len(),
            request.aligned(),
            forall|i: int|
                0 <= i < firsts.len() ==> (#[trigger] firsts@[i]) < request.segments.len(),
            pages@ == page_values(*request, firsts@).take(index as int),
        decreases firsts.len() - index,
    {
        pages.push(page_json(request, firsts[index]));
        index += 1;
        proof {
            assert(page_values(*request, firsts@).take(index as int) =~= page_values(
                *request,
                firsts@,
            ).take(index - 1).push(page_value(*request, firsts@[index - 1] as int)));
        }
    }
    proof {
        assert(page_values(*request, firsts@).take(index as int) =~= page_values(
            *request,
            firsts@,
        ));
    }
    pages.build()
}

fn first_of_page(request: &TranslationRequest, id: usize) -> (result: bool)
    requires
        request.aligned(),
        id < request.segments.len(),
    ensures
        result == begins_page(*request)(id),
{
    let name = request.page_id(id);
    let number = request.page_number(id);
    let mut earlier: usize = 0;
    while earlier < id
        invariant
            earlier <= id < request.segments.len(),
            request.aligned(),
            name@ == request.page_name(id as int),
            number == request.page_of(id as int),
            forall|i: int| 0 <= i < earlier ==> !#[trigger] same_page(*request, i, id as int),
        decreases id - earlier,
    {
        let other = request.page_id(earlier);
        if same(other.as_str(), name.as_str()) && request.page_number(earlier) == number {
            assert(same_page(*request, earlier as int, id as int));
            return false;
        }
        earlier += 1;
    }
    true
}

/// A text with its translation as it is sent.
pub open spec fn reference_value(context: TranslationContext) -> JsonValue {
    JsonValue::Object(
        seq![
            ("source"@, JsonValue::Text(context.source@)),
            ("translation"@, JsonValue::Text(context.translation@)),
        ],
    )
}

/// Texts with their translations as they are sent.
pub open spec fn reference_values(context: Seq<TranslationContext>) -> Seq<JsonValue> {
    context.map_values(|entry: TranslationContext| reference_value(entry))
}

fn references_json(context: &Vec<TranslationContext>) -> (result: Json)
    ensures
        result@ == JsonValue::List(reference_values(context@)),
{
    let mut list = ListBuilder::new();
    let mut index: usize = 0;
    proof {
        assert(list@ =~= reference_values(context@).take(0));
    }
    while index < context.len()
        invariant
            index <= context.len(),
            list@ == reference_values(context@).take(index as int),
        decreases context.len() - index,
    {
        let mut fields = ObjectBuilder::new();
        fields.field("source", text_value(context[index].source.as_str()));
        fields.field("translation", text_value(context[index].translation.as_str()));
        proof {
            assert(fields@ =~= reference_value(context@[index as int])->Object_0);
        }
        list.push(fields.build());
        index += 1;
        proof {
            assert(reference_values(context@).take(index as int) =~= reference_values(
                context@,
            ).take(index - 1).push(reference_value(context@[index - 1])));
        }
    }
    proof {
        assert(reference_values(context@).take(index as int) =~= reference_values(context@));
    }
    list.build()
}

/// How the segments are grouped, where something is said of it.
pub open spec fn policy_field(request: TranslationRequest) -> Seq<(Seq<char>, JsonValue)> {
    match request.unit_policy {
        Some(policy) => seq![("unit_policy"@, JsonValue::Text(policy@))],
        None => if request.page_numbers is Some {
            seq![("unit_policy"@, JsonValue::Text("page_only"@))]
        } else {
            Seq::empty()
        },
    }
}

/// A language as data.
pub open spec fn language_value(language: Option<LanguageName>) -> JsonValue {
    match language {
        Some(name) => JsonValue::Text(name.code@),
        None => JsonValue::Null,
    }
}

/// The texts of a request: page by page for a chapter, one after the other otherwise.
pub open spec fn texts_field(request: TranslationRequest) -> (Seq<char>, JsonValue) {
    if request.page_numbers is Some {
        ("pages"@, JsonValue::List(page_values(request, page_firsts(request))))
    } else {
        (
            "segments"@,
            JsonValue::List(
                segment_values(request, places(request.segments@.len())),
            ),
        )
    }
}

/// A request as it is sent.
pub open spec fn payload_value(request: TranslationRequest) -> JsonValue {
    JsonValue::Object(
        seq![
            (
                "mode"@,
                JsonValue::Text(
                    if request.page_numbers is Some {
                        "chapter"@
                    } else {
                        "page"@
                    },
                ),
            ),
        ] + policy_field(request) + seq![
            ("source_language"@, language_value(request.source_language)),
            ("target_language"@, JsonValue::Text(request.target_language.code@)),
            ("references"@, JsonValue::List(reference_values(request.context@))),
            texts_field(request),
        ],
    )
}

/// A request as it is sent.
pub fn payload(request: &TranslationRequest) -> (result: Json)
    requires
        request.aligned(),
    ensures
        result@ == payload_value(*request),
{
    let chapter = request.is_chapter();
    let mut fields = ObjectBuilder::new();
    fields.field(
        "mode",
        text_value(
            if chapter {
                "chapter"
            } else {
                "page"
            },
        ),
    );
    let ghost mode = fields@;
    match &request.unit_policy {
        Some(policy) => fields.field("unit_policy", text_value(policy.as_str())),
        None => if chapter {
            fields.field("unit_policy", text_value("page_only"));
        },
    }
    let ghost head = fields@;
    proof {
        assert(head =~= mode + policy_field(*request));
    }
    match &request.source_language {
        Some(name) => fields.field("source_language", text_value(name.code.as_str())),
        None => fields.field("source_language", Json::Null),
    }
    fields.field("target_language", text_value(request.target_language.code.as_str()));
    fields.field("references", references_json(&request.context));
    if chapter {
        fields.field("pages", pages_json(request));
    } else {
        let ids = all_places(request.segments.len());
        fields.field("segments", segments_json(request, &ids));
    }
    proof {
        assert(fields@ =~= payload_value(*request)->Object_0);
    }
    fields.build()
}

/// What a model is told and what it is sent.
pub fn prompts(request: &TranslationRequest) -> (result: (String, String))
    requires
        request.aligned(),
    ensures
        result.0@ == system_prompt(*request),
        result.1@ == json_text(payload_value(*request)),
{
    (translation_system_prompt(request), write_json(&payload(request)))
}

/// Every segment of a chapter is sent on exactly one page, and the pages come in the order in
/// which their first segments stand.
pub proof fn law_pages_divide_the_chapter(request: TranslationRequest, id: usize)
    requires
        request.aligned(),
        id < request.segments.len(),
    ensures
        exists|page: int|
            0 <= page < page_firsts(request).len() && #[trigger] page_members(
                request,
                page_firsts(request)[page] as int,
            ).contains(id),
        forall|p: int, q: int|
            0 <= p < page_firsts(request).len() && 0 <= q < page_firsts(request).len()
                && #[trigger] page_members(request, page_firsts(request)[p] as int).contains(id)
                && #[trigger] page_members(request, page_firsts(request)[q] as int).contains(id)
                ==> p == q,
        forall|p: int, q: int|
            0 <= p < q < page_firsts(request).len() ==> (#[trigger] page_firsts(request)[p])
                < (#[trigger] page_firsts(request)[q]),
{
    let count = request.segments@.len();
    let firsts = page_firsts(request);
    lemma_selected(count, begins_page(request));
    let first = lemma_first_of_page(request, id as int);
    let start = first as usize;
    assert(begins_page(request)(start));
    assert(firsts.contains(start));
    let page = choose|page: int| 0 <= page < firsts.len() && firsts[page] == start;
    lemma_selected(count, on_page(request, start as int));
    assert(on_page(request, start as int)(id));
    assert(page_members(request, firsts[page] as int).contains(id));
    assert forall|p: int, q: int|
        0 <= p < firsts.len() && 0 <= q < firsts.len() && #[trigger] page_members(
            request,
            firsts[p] as int,
        ).contains(id) && #[trigger] page_members(request, firsts[q] as int).contains(id) implies p
        == q by {
        lemma_selected(count, on_page(request, firsts[p] as int));
        lemma_selected(count, on_page(request, firsts[q] as int));
        let left = page_members(request, firsts[p] as int);
        let right = page_members(request, firsts[q] as int);
        let i = choose|i: int| 0 <= i < left.len() && left[i] == id;
        let j = choose|j: int| 0 <= j < right.len() && right[j] == id;
        assert(on_page(request, firsts[p] as int)(left[i]));
        assert(on_page(request, firsts[q] as int)(right[j]));
        if p < q {
            assert(firsts[p] < firsts[q]);
            assert(begins_page(request)(firsts[q]));
            assert(same_page(request, firsts[p] as int, firsts[q] as int));
        } else if q < p {
            assert(firsts[q] < firsts[p]);
            assert(begins_page(request)(firsts[p]));
            assert(same_page(request, firsts[q] as int, firsts[p] as int));
        }
    }
}

proof fn lemma_first_of_page(request: TranslationRequest, id: int) -> (first: int)
    requires
        0 <= id < request.segments.len(),
    ensures
        0 <= first <= id,
        same_page(request, first, id),
        forall|earlier: int| 0 <= earlier < first ==> !#[trigger] same_page(request, earlier, first),
    decreases id,
{
    if exists|earlier: int| 0 <= earlier < id && #[trigger] same_page(request, earlier, id) {
        let earlier = choose|earlier: int|
            0 <= earlier < id && #[trigger] same_page(request, earlier, id);
        lemma_first_of_page(request, earlier)
    } else {
        id
    }
}

/// A segment is sent with its text as it is, under its own identifier, on its page and at its place.
pub proof fn law_segments_are_sent_as_they_are(request: TranslationRequest, id: int)
    ensures
        ({
            let sent = segment_value(request, id);
            &&& text_of(field(sent, "id"@)) == Some(request.segment_ids@[id]@)
            &&& text_of(field(sent, "source_text"@)) == Some(request.segments@[id]@)
            &&& text_of(field(sent, "page_id"@)) == Some(request.page_name(id))
            &&& text_of(field(sent, "region_id"@)) == Some(request.region_name(id))
        }),
{
    reveal_strlit("id");
    reveal_strlit("page_id");
    reveal_strlit("region_id");
    reveal_strlit("page_index");
    reveal_strlit("order_index");
    reveal_strlit("source_text");
    assert("id"@.len() == 2 && "page_id"@.len() == 7 && "region_id"@.len() == 9
        && "page_index"@.len() == 10 && "order_index"@.len() == 11 && "source_text"@.len() == 11);
    assert("order_index"@[0] == 'o' && "source_text"@[0] == 's');
    reveal_with_fuel(first_field, 7);
}

/// Every text of a page is sent once, in its order, and so is every earlier translation.
pub proof fn law_all_texts_of_a_page_are_sent(request: TranslationRequest, id: int)
    requires
        request.page_numbers is None,
        0 <= id < request.segments@.len() <= usize::MAX,
    ensures
        texts_field(request).0 == "segments"@,
        texts_field(request).1 matches JsonValue::List(sent) && sent.len()
            == request.segments@.len() && text_of(field(sent[id], "source_text"@)) == Some(
            request.segments@[id]@,
        ),
        reference_values(request.context@).len() == request.context@.len(),
{
    law_segments_are_sent_as_they_are(request, id);
    assert(places(request.segments@.len())[id] == id as usize);
}

} // verus!
