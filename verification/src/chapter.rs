//! Translates pages and chapters: what is taken from their texts, and what is put back.

use vstd::prelude::*;

use crate::answer::{outcome, translations, TranslationOutputSegment};
use crate::config::{TranslationProfile, TranslationUnitPolicy};
use crate::entries::{is_order, Extent};
use crate::ordering::{lemma_selected, select_places, selected};
use crate::request::{
    distinct_ids, LanguageName, RequestError, TranslationContext, TranslationRequest,
    TranslationSegmentMetadata,
};
use crate::stage::EntityId;
use crate::text::{
    copy_text, decimal, from_size, is_space, law_trimmed_stands_in_the_text, law_trimming,
    occurs_at, same, trim, trimmed,
};
use crate::translator::{
    name_view, openrouter_request, ExportedRequest, GenerationConfig, ModelSelection,
};
use crate::typography::RgbPage;
use crate::units::{
    knows_unit, make_units, segment_name, stable_segment_id, unit_problem, Target, UnitError,
};

verus! {

/// Who wrote a text.
#[derive(Clone, Copy, Debug, PartialEq, Eq, Structural)]
pub enum TextOrigin {
    User,
    Generated,
    Other,
}

/// The translation that a text has.
#[derive(Debug)]
pub struct TextTranslation {
    pub text: String,
    pub origin: TextOrigin,
}

/// The region of a page that a text was read from.
pub struct SourceRegion {
    pub id: String,
    pub extent: Option<Extent>,
}

/// A layer of text on a page.
pub struct TextLayer {
    pub content: EntityId,
    pub content_id: String,
    /// Whether the layer is among those that are worked on.
    pub in_scope: bool,
    pub source: Option<String>,
    pub region: Option<SourceRegion>,
    pub role: Option<String>,
    pub bubble: Option<String>,
    pub translation: Option<TextTranslation>,
}

/// A page with its layers of text.
pub struct TextPage {
    pub id: String,
    pub layers: Vec<TextLayer>,
}

/// A layer has text that is looked at.
pub open spec fn kept_layer(layer: TextLayer, chapter: bool) -> bool {
    &&& chapter || layer.in_scope
    &&& layer.source matches Some(source)
    &&& trimmed(source@).len() > 0
}

/// The condition to have text that is looked at.
pub open spec fn kept_on(page: TextPage, chapter: bool) -> spec_fn(usize) -> bool {
    |index: usize| kept_layer(page.layers@[index as int], chapter)
}

/// The layers of a page with text that is looked at.
pub open spec fn kept_layers(page: TextPage, chapter: bool) -> Seq<usize> {
    selected(page.layers@.len(), kept_on(page, chapter))
}

/// What is told of a text in a chapter that was read nowhere.
pub open spec fn stray_message(page: TextPage, layer: TextLayer) -> Seq<char> {
    "Translation found OCR text '"@ + layer.source->0@ + "' without a source region on page "@
        + page.id@
}

/// What is told of the first text of a page that was read nowhere.
pub open spec fn first_stray(page: TextPage, chapter: bool, from: int) -> Option<Seq<char>>
    decreases page.layers@.len() - from,
{
    if from < 0 || from >= page.layers@.len() {
        None
    } else {
        let layer = page.layers@[from];
        if chapter && kept_layer(layer, chapter) && layer.region is None {
            Some(stray_message(page, layer))
        } else {
            first_stray(page, chapter, from + 1)
        }
    }
}

/// The user has translated a text, which is then kept to.
pub open spec fn settled(layer: TextLayer) -> bool {
    layer.translation matches Some(translation) && translation.origin == TextOrigin::User
}

/// A role is that of a sound.
pub open spec fn is_sound(role: Option<String>) -> bool {
    match role {
        Some(name) => occurs_at(
            name@,
            ".onomatopoeia"@,
            name@.len() - ".onomatopoeia"@.len(),
        ) || name@ == "onomatopoeia"@,
        None => false,
    }
}

fn sound_role(role: &Option<String>) -> (result: bool)
    ensures
        result == is_sound(*role),
{
    match role {
        Some(name) => {
            let letters = crate::text::chars(name.as_str());
            let suffix = crate::text::chars(".onomatopoeia");
            if letters.len() >= suffix.len() && crate::text::stands_at(
                &letters,
                &suffix,
                letters.len() - suffix.len(),
            ) {
                true
            } else {
                same(name.as_str(), "onomatopoeia")
            }
        },
        None => false,
    }
}

/// The layers of a page that are looked at, or what is told of one that was read nowhere.
pub fn page_entries(page: &TextPage, chapter: bool) -> (result: Result<Vec<usize>, String>)
    ensures
        match result {
            Ok(kept) => {
                &&& first_stray(*page, chapter, 0) is None
                &&& kept@ == kept_layers(*page, chapter)
                &&& forall|i: int| 0 <= i < kept.len() ==> (#[trigger] kept@[i]) < page.layers.len()
            },
            Err(message) => first_stray(*page, chapter, 0) == Some(message@),
        },
{
    let mut index: usize = 0;
    while index < page.layers.len()
        invariant
            index <= page.layers.len(),
            first_stray(*page, chapter, 0) == first_stray(*page, chapter, index as int),
        decreases page.layers.len() - index,
    {
        let layer = &page.layers[index];
        if chapter && looked_at(layer, chapter) && layer.region.is_none() {
            let mut message = "Translation found OCR text '".to_owned();
            if let Some(source) = &layer.source {
                message.append(source.as_str());
            }
            message.append("' without a source region on page ");
            message.append(page.id.as_str());
            return Err(message);
        }
        index += 1;
    }
    let ghost condition = kept_on(*page, chapter);
    let test = |index: usize| -> (flag: bool)
        requires
            index < page.layers.len(),
        ensures
            flag == condition(index),
        { looked_at(&page.layers[index], chapter) };
    Ok(select_places(page.layers.len(), &test, Ghost(condition)))
}

fn looked_at(layer: &TextLayer, chapter: bool) -> (result: bool)
    ensures
        result == kept_layer(*layer, chapter),
{
    if !chapter && !layer.in_scope {
        return false;
    }
    match &layer.source {
        Some(source) => !trim(source.as_str()).as_str().is_empty(),
        None => false,
    }
}

/// The extents of some layers of a page.
pub fn layer_extents(page: &TextPage, kept: &Vec<usize>) -> (result: Vec<Option<Extent>>)
    requires
        forall|i: int| 0 <= i < kept.len() ==> (#[trigger] kept@[i]) < page.layers.len(),
    ensures
        result.len() == kept.len(),
        forall|i: int|
            0 <= i < kept.len() ==> #[trigger] result@[i] == (match page.layers@[kept@[i] as int].region {
                Some(region) => region.extent,
                None => None,
            }),
{
    let mut result: Vec<Option<Extent>> = Vec::new();
    let mut index: usize = 0;
    while index < kept.len()
        invariant
            index <= kept.len(),
            forall|i: int| 0 <= i < kept.len() ==> (#[trigger] kept@[i]) < page.layers.len(),
            result.len() == index,
            forall|i: int|
                0 <= i < index ==> #[trigger] result@[i] == (match page.layers@[kept@[i] as int].region {
                    Some(region) => region.extent,
                    None => None,
                }),
        decreases kept.len() - index,
    {
        let extent = match &page.layers[kept[index]].region {
            Some(region) => region.extent,
            None => None,
        };
        result.push(extent);
        index += 1;
    }
    result
}

/// The texts of pages: those to be translated, and those to keep to.
pub struct Inputs {
    pub targets: Vec<Target>,
    pub context: Vec<TranslationContext>,
}

/// A text of a layer to be translated.
pub open spec fn is_target(
    target: Target,
    page: TextPage,
    number: nat,
    layer: TextLayer,
    order: nat,
) -> bool {
    &&& target.entity == layer.content
    &&& target.source@ == layer.source->0@
    &&& target.page == number
    &&& target.metadata.role == layer.role
    &&& target.metadata.inside_balloon == (layer.bubble is Some)
    &&& name_view(target.metadata.page_id) == Some(page.id@)
    &&& name_view(target.metadata.region_id) == Some(
        match layer.region {
            Some(region) => region.id@,
            None => layer.content_id@,
        },
    )
    &&& target.metadata.bubble_id == layer.bubble
    &&& target.metadata.order_index == Some(order as usize)
    &&& target.metadata.unit_id is None
    &&& target.metadata.unit_type is None
    &&& target.metadata.is_sound_effect == is_sound(layer.role)
}

/// A text of a layer to keep to.
pub open spec fn is_context(context: TranslationContext, layer: TextLayer) -> bool {
    context.source@ == layer.source->0@ && context.translation@ == layer.translation->0.text@
}

/// The order in which the layers of each page are taken, given those that are looked at.
pub type PageOrder = spec_fn(int, Seq<usize>) -> Seq<usize>;

/// The layers of a page in the order in which they are taken.
pub open spec fn taken_layers(
    pages: Seq<TextPage>,
    chapter: bool,
    order: PageOrder,
    page: int,
) -> Seq<usize> {
    let kept = kept_layers(pages[page], chapter);
    order(page, kept).map_values(|place: usize| kept[place as int])
}

/// The condition of a layer to be one to keep to, or one to be translated.
pub open spec fn settled_on(page: TextPage, wanted: bool) -> spec_fn(usize) -> bool {
    |index: usize| settled(page.layers@[index as int]) == wanted
}

/// The layers of a page to be translated.
pub open spec fn page_targets(
    pages: Seq<TextPage>,
    chapter: bool,
    order: PageOrder,
    page: int,
) -> Seq<usize> {
    taken_layers(pages, chapter, order, page).filter(settled_on(pages[page], false))
}

/// The layers of a page to keep to.
pub open spec fn page_contexts(
    pages: Seq<TextPage>,
    chapter: bool,
    order: PageOrder,
    page: int,
) -> Seq<usize> {
    taken_layers(pages, chapter, order, page).filter(settled_on(pages[page], true))
}

/// The layers of the first pages to be translated: the page, the layer and its number on the page.
pub open spec fn all_targets(
    pages: Seq<TextPage>,
    chapter: bool,
    order: PageOrder,
    count: nat,
) -> Seq<(int, usize, nat)>
    decreases count,
{
    if count == 0 {
        Seq::empty()
    } else {
        let page = count - 1;
        let found = page_targets(pages, chapter, order, page);
        all_targets(pages, chapter, order, (count - 1) as nat) + Seq::new(
            found.len(),
            |k: int| (page, found[k], k as nat),
        )
    }
}

/// The layers of the first pages to keep to: the page and the layer.
pub open spec fn all_contexts(
    pages: Seq<TextPage>,
    chapter: bool,
    order: PageOrder,
    count: nat,
) -> Seq<(int, usize)>
    decreases count,
{
    if count == 0 {
        Seq::empty()
    } else {
        let page = count - 1;
        let found = page_contexts(pages, chapter, order, page);
        all_contexts(pages, chapter, order, (count - 1) as nat) + Seq::new(
            found.len(),
            |k: int| (page, found[k]),
        )
    }
}

/// What is told of the first text of pages that was read nowhere.
pub open spec fn pages_stray(pages: Seq<TextPage>, chapter: bool, from: int) -> Option<Seq<char>>
    decreases pages.len() - from,
{
    if from < 0 || from >= pages.len() {
        None
    } else {
        match first_stray(pages[from], chapter, 0) {
            Some(message) => Some(message),
            None => pages_stray(pages, chapter, from + 1),
        }
    }
}

/// The texts of the first pages.
pub open spec fn holds_inputs(
    inputs: Inputs,
    pages: Seq<TextPage>,
    chapter: bool,
    order: PageOrder,
    count: nat,
) -> bool {
    let targets = all_targets(pages, chapter, order, count);
    let contexts = all_contexts(pages, chapter, order, count);
    &&& inputs.targets.len() == targets.len()
    &&& inputs.context.len() == contexts.len()
    &&& forall|i: int|
        0 <= i < targets.len() ==> is_target(
            #[trigger] inputs.targets@[i],
            pages[targets[i].0],
            (targets[i].0 + 1) as nat,
            pages[targets[i].0].layers@[targets[i].1 as int],
            targets[i].2,
        )
    &&& forall|i: int|
        0 <= i < contexts.len() ==> is_context(
            #[trigger] inputs.context@[i],
            pages[contexts[i].0].layers@[contexts[i].1 as int],
        )
}

/// An order can always be asked for, is one of all layers, and is the same for the same layers.
pub open spec fn steady_order<O: Fn(usize, &Vec<usize>) -> Vec<usize>>(order: O) -> bool {
    &&& forall|page: usize, kept: &Vec<usize>| #[trigger] call_requires(order, (page, kept))
    &&& forall|page: usize, kept: &Vec<usize>, result: Vec<usize>| #[trigger]
        call_ensures(order, (page, kept), result) ==> is_order(result@, kept@.len())
    &&& forall|
        page: usize,
        kept: &Vec<usize>,
        other: &Vec<usize>,
        left: Vec<usize>,
        right: Vec<usize>,
    | #[trigger]
        call_ensures(order, (page, kept), left) && #[trigger] call_ensures(
            order,
            (page, other),
            right,
        ) && kept@ == other@ ==> left@ == right@
}

/// An order that was given for some layers.
pub open spec fn gives_order<O: Fn(usize, &Vec<usize>) -> Vec<usize>>(
    order: O,
    page: int,
    kept: Seq<usize>,
    result: Seq<usize>,
) -> bool {
    exists|list: &Vec<usize>, given: Vec<usize>|
        list@ == kept && given@ == result && #[trigger] call_ensures(
            order,
            (page as usize, list),
            given,
        )
}

/// The order of layers as a mathematical function.
pub open spec fn order_of<O: Fn(usize, &Vec<usize>) -> Vec<usize>>(order: O) -> PageOrder {
    |page: int, kept: Seq<usize>| choose|result: Seq<usize>| gives_order(order, page, kept, result)
}

fn layer_target(page: &TextPage, number: usize, layer: &TextLayer, order: usize) -> (result: Target)
    requires
        layer.source is Some,
    ensures
        is_target(result, *page, number as nat, *layer, order as nat),
{
    let source = match &layer.source {
        Some(source) => source.clone(),
        None => String::new(),
    };
    let region_id = match &layer.region {
        Some(region) => region.id.clone(),
        None => layer.content_id.clone(),
    };
    Target {
        entity: layer.content,
        source,
        page: number,
        metadata: TranslationSegmentMetadata {
            role: copy_text(&layer.role),
            inside_balloon: layer.bubble.is_some(),
            page_id: Some(page.id.clone()),
            region_id: Some(region_id),
            bubble_id: copy_text(&layer.bubble),
            order_index: Some(order),
            unit_id: None,
            unit_type: None,
            is_sound_effect: sound_role(&layer.role),
        },
    }
}

fn add_page(
    inputs: &mut Inputs,
    pages: &Vec<TextPage>,
    index: usize,
    chapter: bool,
    taken: &Vec<usize>,
    Ghost(order): Ghost<PageOrder>,
)
    requires
        index < pages.len(),
        holds_inputs(*old(inputs), pages@, chapter, order, index as nat),
        taken@ == taken_layers(pages@, chapter, order, index as int),
        forall|i: int|
            0 <= i < taken.len() ==> (#[trigger] taken@[i]) < pages@[index as int].layers.len()
                && kept_layer(pages@[index as int].layers@[taken@[i] as int], chapter),
    ensures
        holds_inputs(*final(inputs), pages@, chapter, order, index as nat + 1),
{
    let page = &pages[index];
    let ghost before = *inputs;
    let ghost fresh = settled_on(*page, false);
    let ghost known = settled_on(*page, true);
    let ghost old_targets = all_targets(pages@, chapter, order, index as nat);
    let ghost old_contexts = all_contexts(pages@, chapter, order, index as nat);
    let mut number: usize = 0;
    let mut next: usize = 0;
    proof {
        reveal(Seq::filter);
        assert(taken@.take(0) =~= Seq::empty());
    }
    while next < taken.len()
        invariant
            next <= taken.len(),
            number <= next,
            index < pages.len(),
            *page == pages@[index as int],
            fresh == settled_on(*page, false),
            known == settled_on(*page, true),
            forall|i: int|
                0 <= i < taken.len() ==> (#[trigger] taken@[i]) < page.layers.len() && kept_layer(
                    page.layers@[taken@[i] as int],
                    chapter,
                ),
            number == taken@.take(next as int).filter(fresh).len(),
            before.targets.len() == old_targets.len(),
            before.context.len() == old_contexts.len(),
            inputs.targets.len() == old_targets.len() + number,
            inputs.context.len() == old_contexts.len() + taken@.take(next as int).filter(
                known,
            ).len(),
            forall|i: int| 0 <= i < old_targets.len() ==> #[trigger] inputs.targets@[i]
                == before.targets@[i],
            forall|i: int| 0 <= i < old_contexts.len() ==> #[trigger] inputs.context@[i]
                == before.context@[i],
            forall|k: int|
                0 <= k < number ==> is_target(
                    #[trigger] inputs.targets@[old_targets.len() + k],
                    *page,
                    (index + 1) as nat,
                    page.layers@[taken@.take(next as int).filter(fresh)[k] as int],
                    k as nat,
                ),
            forall|k: int|
                0 <= k < taken@.take(next as int).filter(known).len() ==> is_context(
                    #[trigger] inputs.context@[old_contexts.len() + k],
                    page.layers@[taken@.take(next as int).filter(known)[k] as int],
                ),
        decreases taken.len() - next,
    {
        let layer = &page.layers[taken[next]];
        let ghost shorter = taken@.take(next as int);
        proof {
            reveal(Seq::filter);
            let longer = taken@.take(next as int + 1);
            assert(longer.drop_last() =~= shorter);
            assert(longer.last() == taken@[next as int]);
            assert(kept_layer(page.layers@[taken@[next as int] as int], chapter));
        }
        let user_text: Option<&TextTranslation> = match &layer.translation {
            Some(translation) => if translation.origin == TextOrigin::User {
                Some(translation)
            } else {
                None
            },
            None => None,
        };
        match user_text {
            Some(translation) => {
                let source = match &layer.source {
                    Some(source) => source.clone(),
                    None => String::new(),
                };
                inputs.context.push(
                    TranslationContext { source, translation: translation.text.clone() },
                );
            },
            None => {
                inputs.targets.push(layer_target(page, index + 1, layer, number));
                number += 1;
            },
        }
        next += 1;
    }
    proof {
        assert(taken@.take(next as int) =~= taken@);
        let targets = all_targets(pages@, chapter, order, index as nat + 1);
        let contexts = all_contexts(pages@, chapter, order, index as nat + 1);
        assert forall|i: int| 0 <= i < targets.len() implies is_target(
            #[trigger] inputs.targets@[i],
            pages@[targets[i].0],
            (targets[i].0 + 1) as nat,
            pages@[targets[i].0].layers@[targets[i].1 as int],
            targets[i].2,
        ) by {
            if i < old_targets.len() {
                assert(targets[i] == old_targets[i]);
                assert(inputs.targets@[i] == before.targets@[i]);
            } else {
                let k = i - old_targets.len();
                assert(inputs.targets@[old_targets.len() + k] == inputs.targets@[i]);
            }
        }
        assert forall|i: int| 0 <= i < contexts.len() implies is_context(
            #[trigger] inputs.context@[i],
            pages@[contexts[i].0].layers@[contexts[i].1 as int],
        ) by {
            if i < old_contexts.len() {
                assert(contexts[i] == old_contexts[i]);
                assert(inputs.context@[i] == before.context@[i]);
            } else {
                let k = i - old_contexts.len();
                assert(inputs.context@[old_contexts.len() + k] == inputs.context@[i]);
            }
        }
    }
}

/// Takes the texts of pages, in the order that is given for the layers of each.
pub fn collect_inputs<O: Fn(usize, &Vec<usize>) -> Vec<usize>>(
    pages: &Vec<TextPage>,
    chapter: bool,
    order: &O,
) -> (result: Result<Inputs, String>)
    requires
        steady_order(*order),
    ensures
        match result {
            Ok(inputs) => pages_stray(pages@, chapter, 0) is None && holds_inputs(
                inputs,
                pages@,
                chapter,
                order_of(*order),
                pages@.len(),
            ),
            Err(message) => pages_stray(pages@, chapter, 0) == Some(message@),
        },
{
    let mut inputs = Inputs { targets: Vec::new(), context: Vec::new() };
    let ghost function = order_of(*order);
    let mut index: usize = 0;
    while index < pages.len()
        invariant
            index <= pages.len(),
            steady_order(*order),
            function == order_of(*order),
            pages_stray(pages@, chapter, 0) == pages_stray(pages@, chapter, index as int),
            holds_inputs(inputs, pages@, chapter, function, index as nat),
        decreases pages.len() - index,
    {
        let page = &pages[index];
        let kept = match page_entries(page, chapter) {
            Ok(kept) => kept,
            Err(message) => return Err(message),
        };
        let given = order(index, &kept);
        proof {
            assert(index as int as usize == index);
            assert(call_ensures(*order, (index as int as usize, &kept), given));
            assert(gives_order(*order, index as int, kept@, given@));
            let chosen = function(index as int, kept@);
            assert(gives_order(*order, index as int, kept@, chosen));
            assert(chosen == given@) by {
                let (list, other) = choose|list: &Vec<usize>, other: Vec<usize>|
                    list@ == kept@ && other@ == chosen && #[trigger] call_ensures(
                        *order,
                        (index as int as usize, list),
                        other,
                    );
                assert(call_ensures(*order, (index, list), other));
                assert(call_ensures(*order, (index, &kept), given));
            }
            assert(is_order(given@, kept@.len()));
            assert(page.layers.len() == page.layers@.len());
            lemma_selected(page.layers@.len(), kept_on(*page, chapter));
        }
        let mut taken: Vec<usize> = Vec::new();
        let mut next: usize = 0;
        while next < given.len()
            invariant
                next <= given.len(),
                is_order(given@, kept@.len()),
                *page == pages@[index as int],
                kept@ == kept_layers(*page, chapter),
                forall|i: int| 0 <= i < kept.len() ==> (#[trigger] kept@[i]) < page.layers.len()
                    && kept_layer(page.layers@[kept@[i] as int], chapter),
                taken.len() == next,
                forall|i: int| 0 <= i < next ==> #[trigger] taken@[i] == kept@[given@[i] as int],
                forall|i: int|
                    0 <= i < next ==> (#[trigger] taken@[i]) < page.layers.len() && kept_layer(
                        page.layers@[taken@[i] as int],
                        chapter,
                    ),
            decreases given.len() - next,
        {
            proof {
                assert(given@[next as int] < kept@.len());
                assert(kept@[given@[next as int] as int] < page.layers.len());
            }
            taken.push(kept[given[next]]);
            next += 1;
        }
        proof {
            assert(taken@ =~= taken_layers(pages@, chapter, function, index as int));
        }
        add_page(&mut inputs, pages, index, chapter, &taken, Ghost(function));
        index += 1;
    }
    Ok(inputs)
}

/// Why a chapter cannot be translated.
#[derive(Clone, Copy, Debug, PartialEq, Eq, Structural)]
pub enum ChapterError {
    NoText,
    Unit(UnitError),
    Request(RequestError),
}

/// What is told where no text was found.
pub const NO_TEXT: &'static str = "Translation found no OCR text. Run Detection and OCR before Translation.";

impl ChapterError {
    pub open spec fn text(self) -> Seq<char> {
        match self {
            ChapterError::NoText => NO_TEXT@,
            ChapterError::Unit(error) => error.text(),
            ChapterError::Request(error) => error.text(),
        }
    }

    pub fn message(self) -> (result: &'static str)
        ensures
            result@ == self.text(),
    {
        match self {
            ChapterError::NoText => NO_TEXT,
            ChapterError::Unit(error) => error.message(),
            ChapterError::Request(error) => error.message(),
        }
    }
}

/// A request for segments asks for their texts by their identifiers.
pub open spec fn asks_for(request: TranslationRequest, targets: Seq<Target>) -> bool {
    &&& request.aligned()
    &&& request.segments.len() == targets.len()
    &&& forall|i: int|
        0 <= i < targets.len() ==> (#[trigger] request.segments@[i])@ == targets[i].source@
    &&& forall|i: int|
        0 <= i < targets.len() ==> #[trigger] request.segment_metadata@[i] == targets[i].metadata
    &&& forall|i: int|
        0 <= i < targets.len() ==> (#[trigger] request.segment_ids@[i])@ == segment_name(
            targets[i].metadata,
        )
}

/// Two segments have the same identifier.
pub open spec fn repeated_segment(targets: Seq<Target>) -> bool {
    exists|i: int, j: int|
        0 <= i < j < targets.len() && segment_name((#[trigger] targets[i]).metadata)
            == segment_name((#[trigger] targets[j]).metadata)
}

proof fn lemma_name_is_not_blank(metadata: TranslationSegmentMetadata)
    ensures
        trimmed(segment_name(metadata)).len() > 0,
{
    let name = segment_name(metadata);
    reveal_strlit("page:");
    reveal_strlit("segment:missing-identity");
    assert(name.len() > 0);
    assert(name[0] == 'p' || name[0] == 's');
    assert(!crate::text::is_space(name[0]));
    assert(crate::text::leading(name) == 0);
    assert(name.skip(0) =~= name);
    crate::text::lemma_trailing(name);
    if crate::text::trailing(name) == name.len() {
        lemma_all_space(name, 0);
    }
}

proof fn lemma_all_space(text: Seq<char>, at: int)
    requires
        0 <= at < text.len(),
        crate::text::trailing(text) == text.len(),
    ensures
        crate::text::is_space(text[at]),
    decreases text.len(),
{
    if at < text.len() - 1 {
        lemma_all_space(text.drop_last(), at);
    }
}

fn request_for(
    targets: &Vec<Target>,
    context: Vec<TranslationContext>,
    source: LanguageName,
    target: LanguageName,
) -> (result: Result<TranslationRequest, RequestError>)
    ensures
        match result {
            Ok(request) => {
                &&& asks_for(request, targets@)
                &&& !repeated_segment(targets@)
                &&& request.context == context
                &&& request.source_language == Some(source)
                &&& request.target_language == target
                &&& request.instructions is None
                &&& request.image is None
                &&& request.page_numbers is None
                &&& request.units.len() == 0
                &&& request.unit_policy is None
            },
            Err(error) => error == RequestError::RepeatedId && repeated_segment(targets@),
        },
{
    let mut segments: Vec<String> = Vec::new();
    let mut metadata: Vec<TranslationSegmentMetadata> = Vec::new();
    let mut ids: Vec<String> = Vec::new();
    let mut index: usize = 0;
    while index < targets.len()
        invariant
            index <= targets.len(),
            segments.len() == index,
            metadata.len() == index,
            ids.len() == index,
            forall|i: int| 0 <= i < index ==> (#[trigger] segments@[i])@ == targets@[i].source@,
            forall|i: int| 0 <= i < index ==> #[trigger] metadata@[i] == targets@[i].metadata,
            forall|i: int|
                0 <= i < index ==> (#[trigger] ids@[i])@ == segment_name(targets@[i].metadata),
        decreases targets.len() - index,
    {
        let target = &targets[index];
        segments.push(target.source.clone());
        metadata.push(target.metadata.clone());
        ids.push(stable_segment_id(&target.metadata));
        index += 1;
    }
    let ghost given = ids@;
    let request = TranslationRequest::new(segments, target).with_source_language(source);
    let request = match request.with_segment_metadata(metadata) {
        Ok(request) => request,
        Err(error) => return Err(error),
    };
    match request.with_segment_ids(ids) {
        Ok(request) => {
            proof {
                assert(!repeated_segment(targets@)) by {
                    if repeated_segment(targets@) {
                        let (i, j) = choose|i: int, j: int|
                            0 <= i < j < targets@.len() && segment_name(
                                (#[trigger] targets@[i]).metadata,
                            ) == segment_name((#[trigger] targets@[j]).metadata);
                        assert(given[i]@ != given[j]@);
                    }
                }
            }
            Ok(request.with_context(context))
        },
        Err(error) => {
            proof {
                assert forall|i: int| 0 <= i < given.len() implies trimmed(
                    (#[trigger] given[i])@,
                ).len() > 0 by {
                    lemma_name_is_not_blank(targets@[i].metadata);
                }
                assert(!distinct_ids(given));
                let (i, j) = choose|i: int, j: int|
                    0 <= i < j < given.len() && (#[trigger] given[i])@ == (#[trigger] given[j])@;
                assert(segment_name(targets@[i].metadata) == segment_name(targets@[j].metadata));
            }
            Err(error)
        },
    }
}

/// The request for a page, or nothing where no text is left to be translated.
pub fn page_request(
    inputs: Inputs,
    profile: &TranslationProfile,
    source: LanguageName,
    target: LanguageName,
    image: Option<RgbPage>,
) -> (result: Result<Option<TranslationRequest>, ChapterError>)
    requires
        image matches Some(page) ==> page.well_formed(),
    ensures
        match result {
            Ok(None) => inputs.targets.len() == 0 && inputs.context.len() > 0,
            Ok(Some(request)) => {
                &&& inputs.targets.len() > 0
                &&& !repeated_segment(inputs.targets@)
                &&& asks_for(request, inputs.targets@)
                &&& request.context == inputs.context
                &&& request.source_language == Some(source)
                &&& request.target_language == target
                &&& name_view(request.instructions) == name_view(profile.instructions)
                &&& request.image == image
                &&& request.page_numbers is None
                &&& request.units.len() == 0
                &&& request.unit_policy is None
            },
            Err(ChapterError::NoText) => inputs.targets.len() == 0 && inputs.context.len() == 0,
            Err(ChapterError::Request(error)) => error == RequestError::RepeatedId
                && repeated_segment(inputs.targets@),
            Err(ChapterError::Unit(_)) => false,
        },
{
    if inputs.targets.len() == 0 {
        return if inputs.context.len() == 0 {
            Err(ChapterError::NoText)
        } else {
            Ok(None)
        };
    }
    let mut request = match request_for(&inputs.targets, inputs.context, source, target) {
        Ok(request) => request,
        Err(error) => return Err(ChapterError::Request(error)),
    };
    if let Some(instructions) = &profile.instructions {
        request = request.with_instructions(instructions.as_str());
    }
    if let Some(page) = image {
        request = request.with_image(page);
    }
    Ok(Some(request))
}

/// A chapter to be translated: its segments, and the request for them. Keeping both together makes
/// answers that are sent and files that are read by hand fit in the same way.
pub struct ChapterTranslation {
    pub targets: Vec<(EntityId, String)>,
    pub request: TranslationRequest,
    pub model: ModelSelection,
    pub generation: GenerationConfig,
}

/// The request for a chapter.
pub open spec fn is_chapter_request(
    request: TranslationRequest,
    inputs: Inputs,
    targets: Seq<Target>,
    profile: TranslationProfile,
) -> bool {
    &&& asks_for(request, targets)
    &&& request.context == inputs.context
    &&& name_view(request.instructions) == name_view(profile.instructions)
    &&& request.image is None
    &&& request.page_numbers matches Some(pages)
    &&& pages.len() == targets.len()
    &&& forall|i: int| 0 <= i < targets.len() ==> #[trigger] pages@[i] == targets[i].page
    &&& name_view(request.unit_policy) == Some(profile.unit_policy.text())
    &&& request.units.len() == (if targets.len() == 0 {
        0
    } else {
        crate::units::unit_place(profile.unit_policy, inputs.targets@, targets.len() - 1) + 1
    })
    &&& forall|u: int|
        0 <= u < request.units.len() ==> crate::units::is_unit(
            profile.unit_policy,
            inputs.targets@,
            #[trigger] request.units@[u],
            u as nat,
            targets.len(),
        )
}

/// Segments that know their units.
pub open spec fn grouped(
    policy: TranslationUnitPolicy,
    before: Seq<Target>,
    after: Seq<Target>,
) -> bool {
    &&& after.len() == before.len()
    &&& forall|i: int|
        0 <= i < before.len() ==> knows_unit(policy, before, i, #[trigger] after[i])
}

impl ChapterTranslation {
    /// Makes the request for a chapter from its texts.
    pub fn from_inputs(
        inputs: Inputs,
        profile: &TranslationProfile,
        source: LanguageName,
        target: LanguageName,
    ) -> (result: Result<ChapterTranslation, ChapterError>)
        ensures
            match result {
                Ok(chapter) => {
                    &&& inputs.targets.len() > 0 || inputs.context.len() > 0
                    &&& unit_problem(inputs.targets@, 0) is None
                    &&& !repeated_segment(inputs.targets@)
                    &&& exists|targets: Seq<Target>|
                        grouped(profile.unit_policy, inputs.targets@, targets)
                            && #[trigger] is_chapter_request(
                            chapter.request,
                            inputs,
                            targets,
                            *profile,
                        )
                    &&& chapter.request.source_language == Some(source)
                    &&& chapter.request.target_language == target
                    &&& chapter.model == profile.model
                    &&& chapter.generation == profile.generation
                    &&& chapter.targets.len() == inputs.targets.len()
                    &&& forall|i: int|
                        0 <= i < inputs.targets.len() ==> (#[trigger] chapter.targets@[i]).0
                            == inputs.targets@[i].entity && chapter.targets@[i].1@
                            == inputs.targets@[i].source@
                },
                Err(ChapterError::NoText) => inputs.targets.len() == 0 && inputs.context.len()
                    == 0,
                Err(ChapterError::Unit(error)) => unit_problem(inputs.targets@, 0) == Some(error),
                Err(ChapterError::Request(error)) => {
                    &&& error == RequestError::RepeatedId
                    &&& unit_problem(inputs.targets@, 0) is None
                    &&& repeated_segment(inputs.targets@)
                },
            },
    {
        if inputs.targets.len() == 0 && inputs.context.len() == 0 {
            return Err(ChapterError::NoText);
        }
        let ghost before = inputs.targets@;
        let ghost context = inputs.context;
        let mut targets = inputs.targets;
        let units = match make_units(profile.unit_policy, &mut targets) {
            Ok(units) => units,
            Err(error) => return Err(ChapterError::Unit(error)),
        };
        let ghost known = targets@;
        proof {
            assert(grouped(profile.unit_policy, before, known));
            assert forall|i: int| 0 <= i < before.len() implies segment_name(
                (#[trigger] known[i]).metadata,
            ) == segment_name(before[i].metadata) by {
                assert(knows_unit(profile.unit_policy, before, i, known[i]));
            }
            assert(repeated_segment(known) ==> repeated_segment(before)) by {
                if repeated_segment(known) {
                    let (i, j) = choose|i: int, j: int|
                        0 <= i < j < known.len() && segment_name((#[trigger] known[i]).metadata)
                            == segment_name((#[trigger] known[j]).metadata);
                    assert(segment_name(before[i].metadata) == segment_name(before[j].metadata));
                }
            }
            assert(repeated_segment(before) ==> repeated_segment(known)) by {
                if repeated_segment(before) {
                    let (i, j) = choose|i: int, j: int|
                        0 <= i < j < before.len() && segment_name((#[trigger] before[i]).metadata)
                            == segment_name((#[trigger] before[j]).metadata);
                    assert(segment_name(known[i].metadata) == segment_name(known[j].metadata));
                }
            }
        }
        let request = match request_for(&targets, inputs.context, source, target) {
            Ok(request) => request,
            Err(error) => return Err(ChapterError::Request(error)),
        };
        let mut pages: Vec<usize> = Vec::new();
        let mut pairs: Vec<(EntityId, String)> = Vec::new();
        let mut index: usize = 0;
        while index < targets.len()
            invariant
                index <= targets.len(),
                targets@ == known,
                known.len() == before.len(),
                grouped(profile.unit_policy, before, known),
                pages.len() == index,
                pairs.len() == index,
                forall|i: int| 0 <= i < index ==> #[trigger] pages@[i] == known[i].page,
                forall|i: int|
                    0 <= i < index ==> (#[trigger] pairs@[i]).0 == before[i].entity
                        && pairs@[i].1@ == before[i].source@,
            decreases targets.len() - index,
        {
            proof {
                assert(knows_unit(profile.unit_policy, before, index as int, known[index as int]));
            }
            pages.push(targets[index].page);
            pairs.push((targets[index].entity, targets[index].source.clone()));
            index += 1;
        }
        let request = match request.with_page_numbers(pages) {
            Ok(request) => request,
            Err(error) => return Err(ChapterError::Request(error)),
        };
        let mut request = request.with_units(profile.unit_policy.name(), units);
        if let Some(instructions) = &profile.instructions {
            request = request.with_instructions(instructions.as_str());
        }
        proof {
            assert(is_chapter_request(request, inputs, known, *profile));
        }
        Ok(
            ChapterTranslation {
                targets: pairs,
                request,
                model: profile.model.clone(),
                generation: profile.generation,
            },
        )
    }

    /// The request as it is written down to be sent by hand.
    pub fn openrouter_request(self) -> (result: Result<ExportedRequest, String>)
        requires
            self.request.aligned(),
        ensures
            self.request.segments.len() == 0 ==> (result matches Err(message) && message@
                == "chapter translation found no untranslated OCR text"@),
            self.request.segments.len() > 0 ==> match crate::translator::export_problem(
                self.model,
            ) {
                Some(problem) => result matches Err(message) && message@ == problem,
                None => {
                    let sent = crate::translator::without_image(self.request);
                    match crate::translator::bounded(
                        sent,
                        self.generation,
                        crate::translator::sent_bytes(sent),
                    ) {
                        Ok(bounds) => {
                            &&& result matches Ok(exported)
                            &&& exported.model@ == self.model.model->0@
                            &&& exported.generation == bounds
                            &&& exported.request == sent
                        },
                        Err(problem) => result matches Err(message) && message@ == problem,
                    }
                },
            },
    {
        if self.request.segments.len() == 0 {
            return Err("chapter translation found no untranslated OCR text".to_owned());
        }
        openrouter_request(&self.model, self.generation, self.request)
    }

    /// What the translations of a chapter write, given who made them.
    pub fn patch_from_translations(&self, translated: Vec<String>, provider: &str) -> (result: Result<
        Vec<WrittenTranslation>,
        String,
    >)
        ensures
            match result {
                Ok(written) => {
                    &&& translated.len() == self.targets.len()
                    &&& written.len() == self.targets.len()
                    &&& forall|i: int|
                        0 <= i < written.len() ==> (#[trigger] written@[i]).writes(
                            self.targets@[i],
                            translated@[i]@,
                            provider@,
                            self.request.target_language,
                        )
                },
                Err(message) => translated.len() != self.targets.len() && message@
                    == "chapter translation returned "@ + decimal(translated.len() as nat)
                    + " translations, expected "@ + decimal(self.targets.len() as nat),
            },
    {
        if translated.len() != self.targets.len() {
            let mut message = "chapter translation returned ".to_owned();
            let actual = from_size(translated.len());
            message.append(actual.as_str());
            message.append(" translations, expected ");
            let expected = from_size(self.targets.len());
            message.append(expected.as_str());
            return Err(message);
        }
        Ok(
            write_translations(
                &self.targets,
                &translated,
                provider,
                &self.request.target_language,
            ),
        )
    }

    /// What the answers write that were brought from elsewhere.
    pub fn patch_from_response(&self, answers: &Vec<TranslationOutputSegment>) -> (result: Result<
        Vec<WrittenTranslation>,
        String,
    >)
        requires
            self.request.aligned(),
        ensures
            match outcome("openrouter"@, answers@, self.request) {
                Err(problem) => result matches Err(message) && message@ == problem,
                Ok(translated) => if translated.len() == self.targets.len() {
                    &&& result matches Ok(written)
                    &&& written.len() == self.targets.len()
                    &&& forall|i: int|
                        0 <= i < written.len() ==> (#[trigger] written@[i]).writes(
                            self.targets@[i],
                            translated[i],
                            IMPORT_PROVIDER@,
                            self.request.target_language,
                        )
                } else {
                    &&& result matches Err(message)
                    &&& message@ == "chapter translation returned "@ + decimal(translated.len())
                        + " translations, expected "@ + decimal(self.targets.len() as nat)
                },
            },
    {
        match translations("openrouter", answers, &self.request) {
            Ok(translated) => self.patch_from_translations(translated, IMPORT_PROVIDER),
            Err(problem) => Err(problem),
        }
    }
}

/// Who is said to have made translations that were brought from elsewhere.
pub const IMPORT_PROVIDER: &'static str = "openrouter-manual-import";

/// The part of the program that is said to have written translations.
pub const TRANSLATION_PRODUCER: &'static str = "dev.koharu.pipeline.translation";

/// What is written for a text: its translation, who wrote it and who made it, and its language.
#[derive(Debug)]
pub struct WrittenTranslation {
    pub entity: EntityId,
    pub translation: TextTranslation,
    pub producer: &'static str,
    pub provider: String,
    pub language: LanguageName,
}

impl WrittenTranslation {
    /// A translation by a provider into a language is written for a text.
    pub open spec fn writes(
        self,
        target: (EntityId, String),
        translation: Seq<char>,
        provider: Seq<char>,
        language: LanguageName,
    ) -> bool {
        &&& self.entity == target.0
        &&& self.translation.text@ == settled_text(target.1@, translation)
        &&& self.translation.origin == TextOrigin::Generated
        &&& self.producer@ == TRANSLATION_PRODUCER@
        &&& self.provider@ == provider
        &&& self.language.words@ == language.words@
        &&& self.language.code@ == language.code@
    }
}

/// The text that a translation puts into a segment: an ellipsis stays one.
pub open spec fn settled_text(source: Seq<char>, translation: Seq<char>) -> Seq<char> {
    if trimmed(source) == "\u{2026}"@ {
        "\u{2026}"@
    } else {
        translation
    }
}

/// What is written for a text is the translation given for it, unless the text is an ellipsis
/// with at most separators around it, which stays an ellipsis.
pub proof fn law_only_a_lone_ellipsis_is_kept(
    written: WrittenTranslation,
    target: (EntityId, String),
    translation: Seq<char>,
    provider: Seq<char>,
    language: LanguageName,
)
    requires
        written.writes(target, translation, provider, language),
    ensures
        written.entity == target.0,
        (exists|i: int|
            0 <= i < target.1@.len() && #[trigger] target.1@[i] == '\u{2026}' && forall|j: int|
                0 <= j < target.1@.len() && j != i ==> is_space(#[trigger] target.1@[j]))
            ==> written.translation.text@ == seq!['\u{2026}'],
        !(exists|i: int|
            0 <= i < target.1@.len() && #[trigger] target.1@[i] == '\u{2026}' && forall|j: int|
                0 <= j < target.1@.len() && j != i ==> is_space(#[trigger] target.1@[j]))
            ==> written.translation.text@ == translation,
        written.translation.origin == TextOrigin::Generated,
        written.producer@ == "dev.koharu.pipeline.translation"@,
        written.provider@ == provider,
        written.language.words@ == language.words@,
        written.language.code@ == language.code@,
{
    let source = target.1@;
    reveal_strlit("\u{2026}");
    assert("\u{2026}"@ =~= seq!['\u{2026}']);
    if exists|i: int|
        0 <= i < source.len() && #[trigger] source[i] == '\u{2026}' && forall|j: int|
            0 <= j < source.len() && j != i ==> is_space(#[trigger] source[j]) {
        let i = choose|i: int|
            0 <= i < source.len() && #[trigger] source[i] == '\u{2026}' && forall|j: int|
                0 <= j < source.len() && j != i ==> is_space(#[trigger] source[j]);
        assert(source =~= source.take(i) + seq!['\u{2026}'] + source.skip(i + 1));
        law_trimming(source.take(i), seq!['\u{2026}'], source.skip(i + 1));
    } else if trimmed(source) == seq!['\u{2026}'] {
        let i = law_trimmed_stands_in_the_text(source);
        assert(source[i] == trimmed(source)[0]);
    }
}

/// What translations write, as far as there are both texts and translations.
pub fn write_translations(
    targets: &Vec<(EntityId, String)>,
    translated: &Vec<String>,
    provider: &str,
    language: &LanguageName,
) -> (result: Vec<WrittenTranslation>)
    ensures
        result.len() <= targets.len() && result.len() <= translated.len(),
        result.len() == targets.len() || result.len() == translated.len(),
        forall|i: int|
            0 <= i < result.len() ==> (#[trigger] result@[i]).writes(
                targets@[i],
                translated@[i]@,
                provider@,
                *language,
            ),
        forall|i: int|
            0 <= i < result.len() && trimmed(targets@[i].1@) != seq!['\u{2026}']
                ==> (#[trigger] result@[i]).translation.text@ == translated@[i]@,
        forall|i: int|
            0 <= i < result.len() && trimmed(targets@[i].1@) == seq!['\u{2026}']
                ==> (#[trigger] result@[i]).translation.text@ == seq!['\u{2026}'],
        forall|i: int|
            0 <= i < result.len() ==> (#[trigger] result@[i]).entity == targets@[i].0
                && result@[i].provider@ == provider@,
{
    proof {
        reveal_strlit("\u{2026}");
        assert("\u{2026}"@ =~= seq!['\u{2026}']);
    }
    let mut result: Vec<WrittenTranslation> = Vec::new();
    let mut index: usize = 0;
    while index < targets.len() && index < translated.len()
        invariant
            index <= targets.len(),
            index <= translated.len(),
            result.len() == index,
            forall|i: int|
                0 <= i < index ==> (#[trigger] result@[i]).writes(
                    targets@[i],
                    translated@[i]@,
                    provider@,
                    *language,
                ),
            "\u{2026}"@ == seq!['\u{2026}'],
        decreases targets.len() - index,
    {
        let text = if same(trim(targets[index].1.as_str()).as_str(), "\u{2026}") {
            "\u{2026}".to_owned()
        } else {
            translated[index].clone()
        };
        result.push(
            WrittenTranslation {
                entity: targets[index].0,
                translation: TextTranslation { text, origin: TextOrigin::Generated },
                producer: TRANSLATION_PRODUCER,
                provider: provider.to_owned(),
                language: LanguageName {
                    words: language.words.clone(),
                    code: language.code.clone(),
                },
            },
        );
        index += 1;
    }
    result
}

/// A segment has a translation that was made for it.
pub open spec fn is_done(translation: Option<TextTranslation>) -> bool {
    &&& translation matches Some(found)
    &&& trimmed(found.text@).len() > 0
    &&& found.origin == TextOrigin::Generated
}

/// Whether nothing is left to be done, given the translations of the segments.
pub fn skip_translation(inputs: &Inputs, translations: &Vec<Option<TextTranslation>>) -> (result:
    Result<bool, &'static str>)
    requires
        translations.len() == inputs.targets.len(),
    ensures
        match result {
            Ok(skip) => {
                &&& inputs.targets.len() > 0 || inputs.context.len() > 0
                &&& skip <==> (forall|i: int|
                    0 <= i < translations.len() ==> is_done(#[trigger] translations@[i]))
            },
            Err(message) => inputs.targets.len() == 0 && inputs.context.len() == 0 && message@
                == NO_TEXT@,
        },
{
    if inputs.targets.len() == 0 && inputs.context.len() == 0 {
        return Err(NO_TEXT);
    }
    let mut index: usize = 0;
    while index < translations.len()
        invariant
            index <= translations.len(),
            inputs.targets.len() > 0 || inputs.context.len() > 0,
            forall|i: int| 0 <= i < index ==> is_done(#[trigger] translations@[i]),
        decreases translations.len() - index,
    {
        let done = match &translations[index] {
            Some(found) => !trim(found.text.as_str()).as_str().is_empty() && found.origin
                == TextOrigin::Generated,
            None => false,
        };
        if !done {
            proof {
                assert(!is_done(translations@[index as int]));
            }
            return Ok(false);
        }
        index += 1;
    }
    Ok(true)
}

/// A text of a page is translated if and only if it is looked at, is more than separators, and has
/// no translation by the user. One that the user has translated is kept to instead. On a chapter
/// all texts are looked at, and else those in scope.
pub proof fn law_texts_are_translated_or_kept_to(
    pages: Seq<TextPage>,
    chapter: bool,
    order: PageOrder,
    page: int,
    layer: usize,
)
    requires
        0 <= page < pages.len(),
        pages[page].layers@.len() <= usize::MAX,
        is_order(
            order(page, kept_layers(pages[page], chapter)),
            kept_layers(pages[page], chapter).len(),
        ),
    ensures
        ({
            let text = pages[page].layers@[layer as int];
            let looked_at = layer < pages[page].layers@.len() && (chapter || text.in_scope) && (
            text.source matches Some(source) && exists|i: int|
                0 <= i < source@.len() && !is_space(#[trigger] source@[i]));
            let by_user = text.translation matches Some(translation) && translation.origin
                == TextOrigin::User;
            &&& page_targets(pages, chapter, order, page).contains(layer) <==> looked_at && !by_user
            &&& page_contexts(pages, chapter, order, page).contains(layer) <==> looked_at && by_user
        }),
{
    let held = pages[page];
    let text = held.layers@[layer as int];
    let kept = kept_layers(held, chapter);
    let taken = taken_layers(pages, chapter, order, page);
    lemma_selected(held.layers@.len(), kept_on(held, chapter));
    if let Some(source) = text.source {
        let start = law_trimmed_stands_in_the_text(source@);
        if trimmed(source@).len() > 0 {
            assert(trimmed(source@)[0] == source@[start]);
            assert(!is_space(source@[start]));
        }
    }
    lemma_taken(kept, order(page, kept), layer);
    assert(taken == order(page, kept).map_values(|place: usize| kept[place as int]));
    if taken.contains(layer) {
        let k = choose|k: int| 0 <= k < kept.len() && kept[k] == layer;
        assert(kept_on(held, chapter)(kept[k]));
    }
    lemma_filtered(taken, settled_on(held, false), layer);
    lemma_filtered(taken, settled_on(held, true), layer);
}

/// An order takes every element of a list and nothing else.
proof fn lemma_taken(list: Seq<usize>, order: Seq<usize>, value: usize)
    requires
        is_order(order, list.len()),
        list.len() <= usize::MAX,
    ensures
        order.map_values(|place: usize| list[place as int]).contains(value) <==> list.contains(
            value,
        ),
{
    let taken = order.map_values(|place: usize| list[place as int]);
    if taken.contains(value) {
        let k = choose|k: int| 0 <= k < taken.len() && taken[k] == value;
        assert(order[k] < list.len());
        assert(list[order[k] as int] == value);
    }
    if list.contains(value) {
        let k = choose|k: int| 0 <= k < list.len() && list[k] == value;
        lemma_order_has(order, list.len(), k as usize);
        let l = choose|l: int| 0 <= l < order.len() && order[l] == k as usize;
        assert(taken[l] == value);
    }
}

/// An order of some places has each of them.
proof fn lemma_order_has(order: Seq<usize>, count: nat, place: usize)
    requires
        is_order(order, count),
        place < count <= usize::MAX,
    ensures
        order.contains(place),
{
    let numbers = order.map_values(|place: usize| place as int);
    assert(numbers.no_duplicates());
    numbers.unique_seq_to_set();
    let found = numbers.to_set();
    let all = vstd::set_lib::set_int_range(0, count as int);
    vstd::set_lib::lemma_int_range(0, count as int);
    assert(found.subset_of(all)) by {
        assert forall|value: int| #[trigger] found.contains(value) implies all.contains(value) by {
            let k = choose|k: int| 0 <= k < numbers.len() && numbers[k] == value;
            assert(order[k] < count);
        }
    }
    vstd::set_lib::lemma_subset_equality(found, all);
    assert(found.contains(place as int));
    let k = choose|k: int| 0 <= k < numbers.len() && numbers[k] == place as int;
    assert(order[k] == place);
}

proof fn lemma_filtered(list: Seq<usize>, condition: spec_fn(usize) -> bool, value: usize)
    ensures
        list.filter(condition).contains(value) <==> list.contains(value) && condition(value),
{
    let kept = list.filter(condition);
    if kept.contains(value) {
        list.lemma_filter_contains_rev(condition, value);
        let k = choose|k: int| 0 <= k < kept.len() && kept[k] == value;
        list.lemma_filter_pred(condition, k);
    }
    if list.contains(value) && condition(value) {
        let k = choose|k: int| 0 <= k < list.len() && list[k] == value;
        list.lemma_filter_contains(condition, k);
    }
}

/// The texts of pages come page by page, each numbered on its page from zero.
pub proof fn law_texts_come_page_by_page(
    pages: Seq<TextPage>,
    chapter: bool,
    order: PageOrder,
    count: nat,
    page: int,
    number: int,
)
    requires
        0 <= page < count,
        0 <= number < page_targets(pages, chapter, order, page).len(),
    ensures
        all_targets(pages, chapter, order, count).contains(
            (page, page_targets(pages, chapter, order, page)[number], number as nat),
        ),
        forall|i: int, j: int|
            0 <= i < j < all_targets(pages, chapter, order, count).len() ==> (#[trigger] all_targets(
                pages,
                chapter,
                order,
                count,
            )[i]).0 <= (#[trigger] all_targets(pages, chapter, order, count)[j]).0,
        forall|i: int|
            0 <= i < all_targets(pages, chapter, order, count).len() ==> 0 <= (
            #[trigger] all_targets(pages, chapter, order, count)[i]).0 < count,
    decreases count,
{
    let last = count - 1;
    let found = page_targets(pages, chapter, order, last);
    let before = all_targets(pages, chapter, order, (count - 1) as nat);
    let after = all_targets(pages, chapter, order, count);
    let entry = (page, page_targets(pages, chapter, order, page)[number], number as nat);
    lemma_pages_of_targets(pages, chapter, order, (count - 1) as nat);
    lemma_pages_of_targets(pages, chapter, order, count);
    if page < last {
        law_texts_come_page_by_page(pages, chapter, order, (count - 1) as nat, page, number);
        let k = choose|k: int| 0 <= k < before.len() && before[k] == entry;
        assert(after[k] == entry);
    } else {
        assert(after[before.len() + number] == entry);
    }
}

proof fn lemma_pages_of_targets(
    pages: Seq<TextPage>,
    chapter: bool,
    order: PageOrder,
    count: nat,
)
    ensures
        forall|i: int, j: int|
            0 <= i < j < all_targets(pages, chapter, order, count).len() ==> (#[trigger] all_targets(
                pages,
                chapter,
                order,
                count,
            )[i]).0 <= (#[trigger] all_targets(pages, chapter, order, count)[j]).0,
        forall|i: int|
            0 <= i < all_targets(pages, chapter, order, count).len() ==> 0 <= (
            #[trigger] all_targets(pages, chapter, order, count)[i]).0 < count,
    decreases count,
{
    if count > 0 {
        lemma_pages_of_targets(pages, chapter, order, (count - 1) as nat);
        let last = count - 1;
        let found = page_targets(pages, chapter, order, last);
        let before = all_targets(pages, chapter, order, (count - 1) as nat);
        let after = all_targets(pages, chapter, order, count);
        assert forall|i: int| 0 <= i < after.len() implies 0 <= (#[trigger] after[i]).0 < count && (i
            >= before.len() ==> after[i].0 == last) by {
            if i < before.len() {
                assert(after[i] == before[i]);
            } else {
                assert(after[i] == (last, found[i - before.len()], (i - before.len()) as nat));
            }
        }
        assert forall|i: int, j: int| 0 <= i < j < after.len() implies (#[trigger] after[i]).0 <= (
        #[trigger] after[j]).0 by {
            if j < before.len() {
                assert(after[i] == before[i] && after[j] == before[j]);
            }
        }
    }
}

/// A sound effect is told by the last part of the name of its role.
pub proof fn law_sounds_are_told_by_their_role(role: Option<String>, prefix: Seq<char>)
    ensures
        role is None ==> !is_sound(role),
        role matches Some(name) ==> {
            &&& name@ == "onomatopoeia"@ ==> is_sound(role)
            &&& name@ == prefix + ".onomatopoeia"@ ==> is_sound(role)
            &&& is_sound(role) ==> name@ == "onomatopoeia"@ || (name@.len()
                >= ".onomatopoeia"@.len() && name@.skip(name@.len() - ".onomatopoeia"@.len())
                == ".onomatopoeia"@)
        },
{
    if let Some(name) = role {
        let suffix = ".onomatopoeia"@;
        let at = name@.len() - suffix.len();
        if name@ == prefix + suffix {
            assert(name@.subrange(at, at + suffix.len()) =~= suffix);
        }
        if at >= 0 {
            assert(name@.subrange(at, at + suffix.len()) =~= name@.skip(at));
        }
    }
}

} // verus!
