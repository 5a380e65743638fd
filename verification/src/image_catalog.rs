//! The image models of OpenRouter.

use vstd::prelude::*;
use vstd::relations::total_ordering;

use crate::json::{field, lemma_list_view, list_view, Json, JsonValue};
use crate::ordering::{lemma_ordered, order_places, ordered};
use crate::text::{
    before_char, comes_before, lemma_precedes_irreflexive, lemma_precedes_total,
    lemma_precedes_transitive, lower, occurs_at, precedes, same, starts_with, to_lower, trim,
    trimmed, until,
};

verus! {

/// The model that is listed first.
pub const FIRST_PINNED_MODEL: &'static str = "microsoft/mai-image-2.5";

/// The model that is listed behind it.
pub const SECOND_PINNED_MODEL: &'static str = "microsoft/mai-image-2.5-pro";

/// A model that can be chosen to edit an image.
#[derive(Clone, Debug)]
pub struct OpenRouterImageModelChoice {
    pub model: String,
    pub name: String,
}

/// What a model takes and gives.
pub struct Architecture {
    pub input_modalities: Vec<String>,
    pub output_modalities: Vec<String>,
}

/// A model as the catalog lists it.
pub struct ListedImageModel {
    pub id: String,
    pub name: String,
    pub architecture: Architecture,
    pub supported_parameters: Json,
}

/// A kind of data is among some kinds, in any case.
pub open spec fn among(modalities: Seq<String>, expected: Seq<char>) -> bool {
    exists|i: int| 0 <= i < modalities.len() && lower((#[trigger] modalities[i])@) == lower(expected)
}

/// Tests whether a kind of data is among some kinds, in any case.
pub fn has_modality(modalities: &Vec<String>, expected: &str) -> (result: bool)
    ensures
        result == among(modalities@, expected@),
{
    let mut index: usize = 0;
    while index < modalities.len()
        invariant
            index <= modalities.len(),
            forall|i: int|
                0 <= i < index ==> lower((#[trigger] modalities@[i])@) != lower(expected@),
        decreases modalities.len() - index,
    {
        if crate::text::same_ignoring_case(modalities[index].as_str(), expected) {
            assert(lower(modalities@[index as int]@) == lower(expected@));
            return true;
        }
        index += 1;
    }
    false
}

/// A model takes images to work from.
pub open spec fn takes_references(parameters: JsonValue) -> bool {
    field(parameters, "input_references"@) is Some
}

/// Tests whether a model takes images to work from.
pub fn supports_input_references(parameters: &Json) -> (result: bool)
    ensures
        result == takes_references(parameters@),
{
    parameters.get("input_references").is_some()
}

/// The name of a raster format, in any case.
pub open spec fn is_raster_format(value: JsonValue) -> bool {
    match value {
        JsonValue::Text(format) => {
            let name = lower(format);
            name == "png"@ || name == "jpeg"@ || name == "jpg"@ || name == "webp"@
        },
        _ => false,
    }
}

/// The formats that a model is said to give.
pub open spec fn output_formats(parameters: JsonValue) -> Option<Seq<JsonValue>> {
    match field(parameters, "output_format"@) {
        Some(descriptor) => match field(descriptor, "values"@) {
            Some(JsonValue::List(values)) => Some(values),
            _ => None,
        },
        None => None,
    }
}

/// A model gives raster images: one of those that it is said to give, or nothing is said.
pub open spec fn gives_raster(parameters: JsonValue) -> bool {
    match output_formats(parameters) {
        Some(values) => exists|i: int|
            0 <= i < values.len() && is_raster_format(#[trigger] values[i]),
        None => true,
    }
}

fn raster_format(value: &Json) -> (result: bool)
    ensures
        result == is_raster_format(value@),
{
    match value {
        Json::Text(format) => {
            let name = to_lower(format.as_str());
            same(name.as_str(), "png") || same(name.as_str(), "jpeg") || same(
                name.as_str(),
                "jpg",
            ) || same(name.as_str(), "webp")
        },
        _ => false,
    }
}

/// Tests whether a model gives raster images.
pub fn supports_raster_output(parameters: &Json) -> (result: bool)
    ensures
        result == gives_raster(parameters@),
{
    let descriptor = match parameters.get("output_format") {
        Some(descriptor) => descriptor,
        None => return true,
    };
    let values = match descriptor.get("values") {
        Some(values) => values,
        None => return true,
    };
    match values {
        Json::List(items) => {
            let ghost views = list_view(items@);
            proof {
                lemma_list_view(items@);
                assert(output_formats(parameters@) == Some(views));
            }
            let mut index: usize = 0;
            while index < items.len()
                invariant
                    index <= items.len(),
                    views == list_view(items@),
                    output_formats(parameters@) == Some(views),
                    views.len() == items.len(),
                    forall|i: int| 0 <= i < index ==> !is_raster_format(#[trigger] views[i]),
                decreases items.len() - index,
            {
                proof {
                    lemma_list_view(items@);
                }
                if raster_format(&items[index]) {
                    proof {
                        assert(is_raster_format(views[index as int]));
                        let formats = output_formats(parameters@)->0;
                        assert(formats == views);
                        assert(is_raster_format(formats[index as int]));
                        assert(gives_raster(parameters@));
                    }
                    return true;
                }
                index += 1;
            }
            false
        },
        _ => true,
    }
}

/// The rank of a model in the list: the pinned ones come first.
pub open spec fn rank_of(model: Seq<char>) -> u8 {
    if model == FIRST_PINNED_MODEL@ {
        0
    } else if model == SECOND_PINNED_MODEL@ {
        1
    } else {
        2
    }
}

/// The rank of a model in the list.
pub fn pinned_rank(model: &str) -> (result: u8)
    ensures
        result == rank_of(model@),
{
    if same(model, FIRST_PINNED_MODEL) {
        0
    } else if same(model, SECOND_PINNED_MODEL) {
        1
    } else {
        2
    }
}

/// A model can edit an image.
pub open spec fn can_edit(model: ListedImageModel) -> bool {
    &&& among(model.architecture.input_modalities@, "image"@)
    &&& among(model.architecture.output_modalities@, "image"@)
    &&& takes_references(model.supported_parameters@)
    &&& gives_raster(model.supported_parameters@)
}

/// The identifiers and names of models.
pub open spec fn labels(models: Seq<ListedImageModel>) -> Seq<(Seq<char>, Seq<char>)> {
    models.map_values(|model: ListedImageModel| (model.id@, model.name@))
}

/// The models that can edit an image.
pub open spec fn editing(models: Seq<ListedImageModel>) -> Seq<ListedImageModel> {
    models.filter(|model: ListedImageModel| can_edit(model))
}

/// The order of models: by rank, then by identifier, then as they were listed.
pub open spec fn by_rank(names: Seq<(Seq<char>, Seq<char>)>) -> spec_fn(usize, usize) -> bool {
    |left: usize, right: usize|
        {
            let l = names[left as int].0;
            let r = names[right as int].0;
            rank_of(l) < rank_of(r) || (rank_of(l) == rank_of(r) && (precedes(l, r) || (l == r
                && left <= right)))
        }
}

proof fn lemma_by_rank(names: Seq<(Seq<char>, Seq<char>)>)
    ensures
        total_ordering(by_rank(names)),
{
    let leq = by_rank(names);
    assert forall|a: usize, b: usize| #[trigger] leq(a, b) && #[trigger] leq(b, a) implies a
        == b by {
        let l = names[a as int].0;
        let r = names[b as int].0;
        lemma_precedes_irreflexive(l);
        if precedes(l, r) && precedes(r, l) {
            lemma_precedes_transitive(l, r, l);
        }
    }
    assert forall|a: usize, b: usize, c: usize| #[trigger] leq(a, b) && #[trigger] leq(
        b,
        c,
    ) implies leq(a, c) by {
        let x = names[a as int].0;
        let y = names[b as int].0;
        let z = names[c as int].0;
        if precedes(x, y) && precedes(y, z) {
            lemma_precedes_transitive(x, y, z);
        }
    }
    assert forall|a: usize, b: usize| #[trigger] leq(a, b) || #[trigger] leq(b, a) by {
        lemma_precedes_total(names[a as int].0, names[b as int].0);
    }
    assert(vstd::relations::reflexive(leq));
    assert(vstd::relations::antisymmetric(leq));
    assert(vstd::relations::transitive(leq));
    assert(vstd::relations::strongly_connected(leq));
}

/// The models that can be chosen, in the order of the list.
pub open spec fn choices(models: Seq<ListedImageModel>) -> Seq<(Seq<char>, Seq<char>)> {
    let names = labels(editing(models));
    ordered(names.len(), by_rank(names)).map_values(|place: usize| names[place as int])
}

/// What can be chosen.
pub open spec fn choice_labels(result: Seq<OpenRouterImageModelChoice>) -> Seq<
    (Seq<char>, Seq<char>),
> {
    result.map_values(|choice: OpenRouterImageModelChoice| (choice.model@, choice.name@))
}

fn edits(model: &ListedImageModel) -> (result: bool)
    ensures
        result == can_edit(*model),
{
    has_modality(&model.architecture.input_modalities, "image") && has_modality(
        &model.architecture.output_modalities,
        "image",
    ) && supports_input_references(&model.supported_parameters) && supports_raster_output(
        &model.supported_parameters,
    )
}

/// Picks the models that can edit an image and puts them into the order of the list.
pub fn filter_and_sort_models(models: &Vec<ListedImageModel>) -> (result: Vec<
    OpenRouterImageModelChoice,
>)
    ensures
        choice_labels(result@) == choices(models@),
{
    let mut kept: Vec<(String, String)> = Vec::new();
    let ghost shown = |pair: (String, String)| (pair.0@, pair.1@);
    let mut index: usize = 0;
    proof {
        reveal(Seq::filter);
        assert(models@.take(0) =~= Seq::empty());
        assert(kept@.map_values(shown) =~= labels(editing(models@.take(0))));
    }
    while index < models.len()
        invariant
            index <= models.len(),
            shown == (|pair: (String, String)| (pair.0@, pair.1@)),
            kept@.map_values(shown) == labels(editing(models@.take(index as int))),
        decreases models.len() - index,
    {
        let ghost before = kept@;
        let model = &models[index];
        if edits(model) {
            kept.push((model.id.clone(), model.name.clone()));
        }
        proof {
            reveal(Seq::filter);
            let longer = models@.take(index as int + 1);
            assert(longer.drop_last() =~= models@.take(index as int));
            if can_edit(*model) {
                assert(labels(editing(longer)) =~= labels(editing(longer.drop_last())).push(
                    (model.id@, model.name@),
                ));
                assert(kept@.map_values(shown) =~= before.map_values(shown).push(
                    (model.id@, model.name@),
                ));
            }
        }
        index += 1;
    }
    let ghost names = labels(editing(models@));
    let ghost leq = by_rank(names);
    proof {
        assert(models@.take(index as int) =~= models@);
        assert(names == kept@.map_values(shown));
        lemma_by_rank(names);
    }
    let before = |left: usize, right: usize| -> (flag: bool)
        requires
            left < kept.len(),
            right < kept.len(),
        ensures
            flag == leq(left, right),
        {
            let l = kept[left].0.as_str();
            let r = kept[right].0.as_str();
            let low = pinned_rank(l);
            let high = pinned_rank(r);
            low < high || (low == high && (comes_before(l, r) || (same(l, r) && left <= right)))
        };
    let order = order_places(kept.len(), &before, Ghost(leq));
    let mut result: Vec<OpenRouterImageModelChoice> = Vec::new();
    let mut next: usize = 0;
    while next < order.len()
        invariant
            next <= order.len(),
            order.len() == kept.len(),
            forall|i: int| 0 <= i < order.len() ==> (#[trigger] order@[i]) < kept.len(),
            shown == (|pair: (String, String)| (pair.0@, pair.1@)),
            names == kept@.map_values(shown),
            result.len() == next,
            forall|i: int|
                0 <= i < next ==> (
                    (#[trigger] result@[i]).model@,
                    result@[i].name@,
                ) == names[order@[i] as int],
        decreases order.len() - next,
    {
        let place = order[next];
        result.push(
            OpenRouterImageModelChoice { model: kept[place].0.clone(), name: kept[place].1.clone() },
        );
        next += 1;
    }
    proof {
        assert(choice_labels(result@) =~= choices(models@));
    }
    result
}

/// The type of an image without its parameters, in lower case.
pub open spec fn bare_mime(media_type: Seq<char>) -> Seq<char> {
    lower(trimmed(before_char(media_type, ';')))
}

/// The type of a raster image.
pub open spec fn is_raster_mime(media_type: Seq<char>) -> bool {
    let bare = bare_mime(media_type);
    occurs_at(bare, "image/"@, 0) && bare != "image/svg+xml"@ && bare != "image/svg"@
}

/// Tests whether a type is that of a raster image, and says what it is where it is not.
pub fn ensure_raster_mime(media_type: &str) -> (result: Result<(), String>)
    ensures
        result is Ok <==> is_raster_mime(media_type@),
        result matches Err(message) ==> message@
            == "OpenRouter returned a non-raster image MIME type "@ + bare_mime(media_type@),
{
    let first = until(media_type, ';');
    let bare = to_lower(trim(first.as_str()).as_str());
    if starts_with(bare.as_str(), "image/") && !same(bare.as_str(), "image/svg+xml") && !same(
        bare.as_str(),
        "image/svg",
    ) {
        Ok(())
    } else {
        let mut message = "OpenRouter returned a non-raster image MIME type ".to_owned();
        message.append(bare.as_str());
        Err(message)
    }
}

/// A model is offered if and only if it takes and gives images, takes images to work from, and
/// gives a raster format or does not say what it gives.
pub proof fn law_models_that_edit_are_offered(models: Seq<ListedImageModel>, at: int)
    requires
        0 <= at < models.len(),
        models.len() <= usize::MAX,
    ensures
        can_edit(models[at]) ==> choices(models).contains((models[at].id@, models[at].name@)),
        choices(models).len() == models.filter(|model: ListedImageModel| can_edit(model)).len(),
        can_edit(models[at]) <==> among(
            models[at].architecture.input_modalities@,
            "image"@,
        ) && among(models[at].architecture.output_modalities@, "image"@) && field(
            models[at].supported_parameters@,
            "input_references"@,
        ) is Some && gives_raster(models[at].supported_parameters@),
{
    let keep = |model: ListedImageModel| can_edit(model);
    let kept = editing(models);
    let names = labels(kept);
    models.lemma_filter_len(keep);
    lemma_by_rank(names);
    lemma_ordered(names.len(), by_rank(names));
    let list = ordered(names.len(), by_rank(names));
    if can_edit(models[at]) {
        models.lemma_filter_contains(keep, at);
        let i = choose|i: int| 0 <= i < kept.len() && kept[i] == models[at];
        assert(names[i] == (models[at].id@, models[at].name@));
        assert(crate::ordering::places(names.len())[i] == i as usize);
        assert(crate::ordering::places(names.len()).contains(i as usize));
        vstd::seq_lib::to_multiset_contains(crate::ordering::places(names.len()), i as usize);
        vstd::seq_lib::to_multiset_contains(list, i as usize);
        let k = choose|k: int| 0 <= k < list.len() && list[k] == i as usize;
        assert(choices(models)[k] == names[i]);
    }
}

/// The two models of Microsoft come first, the plain one before the other. All others follow in the
/// order of their identifiers.
pub proof fn law_pinned_models_come_first(models: Seq<ListedImageModel>, i: int, j: int)
    requires
        models.len() <= usize::MAX,
        0 <= i < j < choices(models).len(),
    ensures
        ({
            let (earlier, later) = (choices(models)[i].0, choices(models)[j].0);
            &&& later == "microsoft/mai-image-2.5"@ ==> earlier == "microsoft/mai-image-2.5"@
            &&& later == "microsoft/mai-image-2.5-pro"@ ==> earlier == "microsoft/mai-image-2.5"@
                || earlier == "microsoft/mai-image-2.5-pro"@
            &&& earlier != "microsoft/mai-image-2.5"@ && earlier != "microsoft/mai-image-2.5-pro"@
                ==> precedes(earlier, later) || earlier == later
        }),
{
    let keep = |model: ListedImageModel| can_edit(model);
    let names = labels(editing(models));
    models.lemma_filter_len(keep);
    lemma_by_rank(names);
    lemma_ordered(names.len(), by_rank(names));
    let list = ordered(names.len(), by_rank(names));
    assert(by_rank(names)(list[i], list[j]));
    reveal_strlit("microsoft/mai-image-2.5");
    reveal_strlit("microsoft/mai-image-2.5-pro");
    assert("microsoft/mai-image-2.5"@.len() == 23 && "microsoft/mai-image-2.5-pro"@.len() == 27);
}

/// A type of image is taken whatever its parameters and the case of its letters, unless it is that
/// of a drawing.
pub proof fn law_raster_types(media_type: Seq<char>)
    ensures
        is_raster_mime(media_type) <==> {
            let bare = lower(trimmed(before_char(media_type, ';')));
            &&& bare.len() >= 6
            &&& bare.take(6) == "image/"@
            &&& bare != "image/svg+xml"@
            &&& bare != "image/svg"@
        },
{
    reveal_strlit("image/");
    let bare = lower(trimmed(before_char(media_type, ';')));
    assert("image/"@.len() == 6);
    if bare.len() >= 6 {
        assert(bare.subrange(0, 6) =~= bare.take(6));
    }
}

} // verus!
