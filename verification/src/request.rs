//! Requests for translation and for reading text.

use vstd::prelude::*;

use crate::page_image::{prepare_image, prepared};
use crate::text::{copy_text, decimal, from_size, same, trim, trimmed};
use crate::typography::RgbPage;

verus! {

/// A language as requests name it: in words, and as data.
#[derive(Clone, Debug)]
pub struct LanguageName {
    pub words: String,
    pub code: String,
}

/// A text with its translation, to keep to.
#[derive(Clone, Debug)]
pub struct TranslationContext {
    pub source: String,
    pub translation: String,
}

impl TranslationContext {
    pub fn new(source: &str, translation: &str) -> (result: TranslationContext)
        ensures
            result.source@ == source@,
            result.translation@ == translation@,
    {
        TranslationContext { source: source.to_owned(), translation: translation.to_owned() }
    }
}

/// What is known of a segment besides its text.
#[derive(Debug)]
pub struct TranslationSegmentMetadata {
    pub role: Option<String>,
    pub inside_balloon: bool,
    pub page_id: Option<String>,
    pub region_id: Option<String>,
    pub bubble_id: Option<String>,
    pub order_index: Option<usize>,
    pub unit_id: Option<String>,
    pub unit_type: Option<String>,
    pub is_sound_effect: bool,
}

impl Clone for TranslationSegmentMetadata {
    fn clone(&self) -> (result: TranslationSegmentMetadata)
        ensures
            result == *self,
    {
        TranslationSegmentMetadata {
            role: copy_text(&self.role),
            inside_balloon: self.inside_balloon,
            page_id: copy_text(&self.page_id),
            region_id: copy_text(&self.region_id),
            bubble_id: copy_text(&self.bubble_id),
            order_index: self.order_index,
            unit_id: copy_text(&self.unit_id),
            unit_type: copy_text(&self.unit_type),
            is_sound_effect: self.is_sound_effect,
        }
    }
}

impl TranslationSegmentMetadata {
    /// Nothing is known.
    pub open spec fn is_blank(self) -> bool {
        &&& self.role is None
        &&& !self.inside_balloon
        &&& self.page_id is None
        &&& self.region_id is None
        &&& self.bubble_id is None
        &&& self.order_index is None
        &&& self.unit_id is None
        &&& self.unit_type is None
        &&& !self.is_sound_effect
    }

    /// The identifier that a segment keeps: that of its place on a page, where it is known.
    pub open spec fn lasting_id(self, index: nat) -> Seq<char> {
        match (self.page_id, self.region_id) {
            (Some(page), Some(region)) => "page:"@ + page@ + "::region:"@ + region@,
            _ => "segment:"@ + decimal(index),
        }
    }

    fn stable_id(&self, index: usize) -> (result: String)
        ensures
            result@ == self.lasting_id(index as nat),
    {
        match (&self.page_id, &self.region_id) {
            (Some(page), Some(region)) => {
                let mut result = "page:".to_owned();
                result.append(page.as_str());
                result.append("::region:");
                result.append(region.as_str());
                result
            },
            _ => numbered("segment:", index),
        }
    }
}

impl Default for TranslationSegmentMetadata {
    fn default() -> (result: TranslationSegmentMetadata)
        ensures
            result.is_blank(),
    {
        TranslationSegmentMetadata {
            role: None,
            inside_balloon: false,
            page_id: None,
            region_id: None,
            bubble_id: None,
            order_index: None,
            unit_id: None,
            unit_type: None,
            is_sound_effect: false,
        }
    }
}

fn numbered(prefix: &str, number: usize) -> (result: String)
    ensures
        result@ == prefix@ + decimal(number as nat),
{
    let mut result = prefix.to_owned();
    let digits = from_size(number);
    result.append(digits.as_str());
    result
}

/// Segments that are translated with an eye on each other.
#[derive(Clone, Debug)]
pub struct TranslationUnit {
    pub id: String,
    pub page_id: String,
    pub page_index: usize,
    pub unit_type: String,
    pub region_ids: Vec<String>,
    pub segment_ids: Vec<String>,
}

/// Why a request cannot be made.
#[derive(Clone, Copy, Debug, PartialEq, Eq, Structural)]
pub enum RequestError {
    MetadataCount,
    IdCount,
    EmptyId,
    RepeatedId,
    PageCount,
}

impl RequestError {
    pub open spec fn text(self) -> Seq<char> {
        match self {
            RequestError::MetadataCount =>
                "translation metadata count does not match segment count"@,
            RequestError::IdCount => "translation ID count does not match segment count"@,
            RequestError::EmptyId => "translation IDs cannot be empty"@,
            RequestError::RepeatedId => "translation IDs must be unique"@,
            RequestError::PageCount => "translation page count does not match segment count"@,
        }
    }

    pub fn message(self) -> (result: &'static str)
        ensures
            result@ == self.text(),
    {
        match self {
            RequestError::MetadataCount =>
                "translation metadata count does not match segment count",
            RequestError::IdCount => "translation ID count does not match segment count",
            RequestError::EmptyId => "translation IDs cannot be empty",
            RequestError::RepeatedId => "translation IDs must be unique",
            RequestError::PageCount => "translation page count does not match segment count",
        }
    }
}

/// Texts to be translated, with what is known of them.
#[derive(Clone, Debug)]
pub struct TranslationRequest {
    pub segments: Vec<String>,
    pub source_language: Option<LanguageName>,
    pub target_language: LanguageName,
    pub instructions: Option<String>,
    pub context: Vec<TranslationContext>,
    pub image: Option<RgbPage>,
    pub segment_metadata: Vec<TranslationSegmentMetadata>,
    pub page_numbers: Option<Vec<usize>>,
    pub segment_ids: Vec<String>,
    pub units: Vec<TranslationUnit>,
    pub unit_policy: Option<String>,
}

/// Identifiers in the order of their segments, none of them blank and none twice.
pub open spec fn fit_ids(ids: Seq<String>) -> bool {
    &&& forall|i: int| 0 <= i < ids.len() ==> trimmed((#[trigger] ids[i])@).len() > 0
    &&& distinct_ids(ids)
}

/// No identifier stands twice.
pub open spec fn distinct_ids(ids: Seq<String>) -> bool {
    forall|i: int, j: int| 0 <= i < j < ids.len() ==> (#[trigger] ids[i])@ != (#[trigger] ids[j])@
}

/// Everything of a request that its builders keep but what these fields hold.
pub open spec fn same_but_ids(left: TranslationRequest, right: TranslationRequest) -> bool {
    &&& left.segments == right.segments
    &&& left.source_language == right.source_language
    &&& left.target_language == right.target_language
    &&& left.instructions == right.instructions
    &&& left.context == right.context
    &&& left.image == right.image
    &&& left.page_numbers == right.page_numbers
    &&& left.units == right.units
    &&& left.unit_policy == right.unit_policy
}

impl TranslationRequest {
    /// What is known of the segments is in their order.
    pub open spec fn aligned(&self) -> bool {
        &&& self.segment_metadata.len() == self.segments.len()
        &&& self.segment_ids.len() == self.segments.len()
        &&& self.page_numbers matches Some(pages) ==> pages.len() == self.segments.len()
        &&& self.image matches Some(image) ==> image.well_formed()
    }

    /// A request for some texts of which nothing else is known.
    pub fn new(segments: Vec<String>, target_language: LanguageName) -> (result: TranslationRequest)
        ensures
            result.aligned(),
            result.segments == segments,
            result.target_language == target_language,
            result.source_language is None,
            result.instructions is None,
            result.context.len() == 0,
            result.image is None,
            result.page_numbers is None,
            result.units.len() == 0,
            result.unit_policy is None,
            forall|i: int|
                0 <= i < segments.len() ==> (#[trigger] result.segment_metadata@[i]).is_blank(),
            forall|i: int|
                0 <= i < segments.len() ==> (#[trigger] result.segment_ids@[i])@ == "segment:"@
                    + decimal(i as nat),
    {
        let mut segment_metadata: Vec<TranslationSegmentMetadata> = Vec::new();
        let mut segment_ids: Vec<String> = Vec::new();
        let mut index: usize = 0;
        while index < segments.len()
            invariant
                index <= segments.len(),
                segment_metadata.len() == index,
                segment_ids.len() == index,
                forall|i: int| 0 <= i < index ==> (#[trigger] segment_metadata@[i]).is_blank(),
                forall|i: int|
                    0 <= i < index ==> (#[trigger] segment_ids@[i])@ == "segment:"@ + decimal(
                        i as nat,
                    ),
            decreases segments.len() - index,
        {
            segment_metadata.push(TranslationSegmentMetadata::default());
            segment_ids.push(numbered("segment:", index));
            index += 1;
        }
        TranslationRequest {
            segments,
            source_language: None,
            target_language,
            instructions: None,
            context: Vec::new(),
            image: None,
            segment_metadata,
            page_numbers: None,
            segment_ids,
            units: Vec::new(),
            unit_policy: None,
        }
    }

    pub fn with_source_language(self, language: LanguageName) -> (result: TranslationRequest)
        ensures
            result == (TranslationRequest { source_language: Some(language), ..self }),
    {
        TranslationRequest { source_language: Some(language), ..self }
    }

    /// Tells what is known of the segments. They are then known by their places on the pages.
    pub fn with_segment_metadata(self, metadata: Vec<TranslationSegmentMetadata>) -> (result:
        Result<TranslationRequest, RequestError>)
        ensures
            match result {
                Ok(request) => {
                    &&& metadata.len() == self.segments.len()
                    &&& same_but_ids(request, self)
                    &&& request.segment_metadata == metadata
                    &&& request.segment_ids.len() == metadata.len()
                    &&& forall|i: int|
                        0 <= i < metadata.len() ==> (#[trigger] request.segment_ids@[i])@
                            == metadata@[i].lasting_id(i as nat)
                },
                Err(error) => error == RequestError::MetadataCount && metadata.len()
                    != self.segments.len(),
            },
    {
        if metadata.len() != self.segments.len() {
            return Err(RequestError::MetadataCount);
        }
        let mut segment_ids: Vec<String> = Vec::new();
        let mut index: usize = 0;
        while index < metadata.len()
            invariant
                index <= metadata.len(),
                segment_ids.len() == index,
                forall|i: int|
                    0 <= i < index ==> (#[trigger] segment_ids@[i])@ == metadata@[i].lasting_id(
                        i as nat,
                    ),
            decreases metadata.len() - index,
        {
            segment_ids.push(metadata[index].stable_id(index));
            index += 1;
        }
        Ok(TranslationRequest { segment_metadata: metadata, segment_ids, ..self })
    }

    /// Gives the segments identifiers of the caller's own.
    pub fn with_segment_ids(self, ids: Vec<String>) -> (result: Result<
        TranslationRequest,
        RequestError,
    >)
        ensures
            match result {
                Ok(request) => {
                    &&& ids.len() == self.segments.len()
                    &&& fit_ids(ids@)
                    &&& request == (TranslationRequest { segment_ids: ids, ..self })
                },
                Err(RequestError::IdCount) => ids.len() != self.segments.len(),
                Err(RequestError::EmptyId) => ids.len() == self.segments.len() && exists|i: int|
                    0 <= i < ids.len() && trimmed((#[trigger] ids@[i])@).len() == 0,
                Err(RequestError::RepeatedId) => ids.len() == self.segments.len() && !distinct_ids(
                    ids@,
                ) && forall|i: int|
                    0 <= i < ids.len() ==> trimmed((#[trigger] ids@[i])@).len() > 0,
                Err(_) => false,
            },
    {
        if ids.len() != self.segments.len() {
            return Err(RequestError::IdCount);
        }
        let mut index: usize = 0;
        while index < ids.len()
            invariant
                index <= ids.len(),
                ids.len() == self.segments.len(),
                forall|i: int| 0 <= i < index ==> trimmed((#[trigger] ids@[i])@).len() > 0,
            decreases ids.len() - index,
        {
            if trim(ids[index].as_str()).as_str().unicode_len() == 0 {
                assert(trimmed(ids@[index as int]@).len() == 0);
                return Err(RequestError::EmptyId);
            }
            index += 1;
        }
        let mut index: usize = 0;
        while index < ids.len()
            invariant
                index <= ids.len(),
                ids.len() == self.segments.len(),
                forall|i: int| 0 <= i < ids.len() ==> trimmed((#[trigger] ids@[i])@).len() > 0,
                forall|i: int, j: int|
                    0 <= i < j < index ==> (#[trigger] ids@[i])@ != (#[trigger] ids@[j])@,
            decreases ids.len() - index,
        {
            let mut earlier: usize = 0;
            while earlier < index
                invariant
                    earlier <= index < ids.len(),
                    ids.len() == self.segments.len(),
                    forall|i: int|
                        0 <= i < ids.len() ==> trimmed((#[trigger] ids@[i])@).len() > 0,
                    forall|i: int|
                        0 <= i < earlier ==> (#[trigger] ids@[i])@ != ids@[index as int]@,
                decreases index - earlier,
            {
                if same(ids[earlier].as_str(), ids[index].as_str()) {
                    assert(ids@[earlier as int]@ == ids@[index as int]@);
                    return Err(RequestError::RepeatedId);
                }
                earlier += 1;
            }
            index += 1;
        }
        Ok(TranslationRequest { segment_ids: ids, ..self })
    }

    pub fn with_units(self, policy: &str, units: Vec<TranslationUnit>) -> (result:
        TranslationRequest)
        ensures
            result.unit_policy matches Some(text) && text@ == policy@,
            result == (TranslationRequest { unit_policy: result.unit_policy, units, ..self }),
    {
        TranslationRequest { unit_policy: Some(policy.to_owned()), units, ..self }
    }

    pub fn with_instructions(self, instructions: &str) -> (result: TranslationRequest)
        ensures
            result.instructions matches Some(text) && text@ == instructions@,
            result == (TranslationRequest { instructions: result.instructions, ..self }),
    {
        TranslationRequest { instructions: Some(instructions.to_owned()), ..self }
    }

    pub fn with_image(self, image: RgbPage) -> (result: TranslationRequest)
        ensures
            result == (TranslationRequest { image: Some(image), ..self }),
    {
        TranslationRequest { image: Some(image), ..self }
    }

    pub fn with_context(self, context: Vec<TranslationContext>) -> (result: TranslationRequest)
        ensures
            result == (TranslationRequest { context, ..self }),
    {
        TranslationRequest { context, ..self }
    }

    /// Tells on which page each segment stands, which makes it a request for a chapter.
    pub fn with_page_numbers(self, pages: Vec<usize>) -> (result: Result<
        TranslationRequest,
        RequestError,
    >)
        ensures
            match result {
                Ok(request) => pages.len() == self.segments.len() && request == (
                TranslationRequest { page_numbers: Some(pages), ..self }),
                Err(error) => error == RequestError::PageCount && pages.len()
                    != self.segments.len(),
            },
    {
        if pages.len() != self.segments.len() {
            return Err(RequestError::PageCount);
        }
        Ok(TranslationRequest { page_numbers: Some(pages), ..self })
    }

    /// Makes the image fit for sending.
    pub fn prepare_image(&mut self) -> (result: Result<(), &'static str>)
        requires
            old(self).aligned(),
        ensures
            final(self).aligned(),
            *final(self) == (TranslationRequest { image: final(self).image, ..*old(self) }),
            result is Ok,
            match (old(self).image, final(self).image) {
                (Some(before), Some(after)) => prepared(before, after),
                (None, None) => true,
                _ => false,
            },
    {
        prepare_image(&mut self.image)
    }

    pub fn remove_image(&mut self)
        ensures
            *final(self) == (TranslationRequest { image: None, ..*old(self) }),
    {
        self.image = None;
    }

    /// The page of a segment.
    pub open spec fn page_of(self, id: int) -> usize {
        match self.page_numbers {
            Some(pages) => if 0 <= id < pages.len() {
                pages@[id]
            } else {
                1
            },
            None => 1,
        }
    }

    /// The page of a segment.
    pub fn page_number(&self, id: usize) -> (result: usize)
        ensures
            result == self.page_of(id as int),
    {
        match &self.page_numbers {
            Some(pages) => if id < pages.len() {
                pages[id]
            } else {
                1
            },
            None => 1,
        }
    }

    /// Whether the segments are those of a chapter.
    pub fn is_chapter(&self) -> (result: bool)
        ensures
            result == (self.page_numbers is Some),
    {
        self.page_numbers.is_some()
    }

    /// The last page of a chapter.
    pub open spec fn last_page(self) -> usize {
        match self.page_numbers {
            Some(pages) => largest(pages@),
            None => 0,
        }
    }

    /// Proposes to divide a chapter in two.
    pub fn chapter_split_hint(&self) -> (result: String)
        ensures
            result@ == split_hint(self.last_page() as nat),
    {
        let mut last: usize = 0;
        if let Some(pages) = &self.page_numbers {
            let mut index: usize = 0;
            proof {
                assert(pages@.take(0) =~= Seq::empty());
            }
            while index < pages.len()
                invariant
                    index <= pages.len(),
                    last == largest(pages@.take(index as int)),
                decreases pages.len() - index,
            {
                proof {
                    let longer = pages@.take(index as int + 1);
                    assert(longer.drop_last() =~= pages@.take(index as int));
                    assert(longer.last() == pages@[index as int]);
                }
                if pages[index] > last {
                    last = pages[index];
                }
                index += 1;
            }
            proof {
                assert(pages@.take(index as int) =~= pages@);
            }
        }
        let middle: usize = last / 2;
        let mut hint = numbered("Try two chapter parts: pages 1-", middle);
        hint.append(" and pages ");
        let next = from_size(middle + 1);
        hint.append(next.as_str());
        hint.append("-");
        let end = from_size(last);
        hint.append(end.as_str());
        hint.append(".");
        hint
    }

    /// The name of the page of a segment.
    pub open spec fn page_name(self, id: int) -> Seq<char> {
        match self.segment_metadata@[id].page_id {
            Some(page) => page@,
            None => "page:"@ + decimal(self.page_of(id) as nat),
        }
    }

    /// The name of the page of a segment.
    pub fn page_id(&self, id: usize) -> (result: String)
        requires
            id < self.segment_metadata.len(),
        ensures
            result@ == self.page_name(id as int),
    {
        match &self.segment_metadata[id].page_id {
            Some(page) => page.clone(),
            None => numbered("page:", self.page_number(id)),
        }
    }

    /// The name of the place of a segment.
    pub open spec fn region_name(self, id: int) -> Seq<char> {
        match self.segment_metadata@[id].region_id {
            Some(region) => region@,
            None => "region:"@ + decimal(id as nat),
        }
    }

    /// The name of the place of a segment.
    pub fn region_id(&self, id: usize) -> (result: String)
        requires
            id < self.segment_metadata.len(),
        ensures
            result@ == self.region_name(id as int),
    {
        match &self.segment_metadata[id].region_id {
            Some(region) => region.clone(),
            None => numbered("region:", id),
        }
    }

    /// The number of a segment in the order of reading.
    pub open spec fn order_of(self, id: int) -> nat {
        match self.segment_metadata@[id].order_index {
            Some(order) => order as nat,
            None => id as nat,
        }
    }

    /// The number of a segment in the order of reading.
    pub fn order_index(&self, id: usize) -> (result: usize)
        requires
            id < self.segment_metadata.len(),
        ensures
            result == self.order_of(id as int),
    {
        match self.segment_metadata[id].order_index {
            Some(order) => order,
            None => id,
        }
    }
}

/// The largest of some numbers, or zero where there is none.
pub open spec fn largest(numbers: Seq<usize>) -> usize
    decreases numbers.len(),
{
    if numbers.len() == 0 {
        0
    } else if numbers.last() > largest(numbers.drop_last()) {
        numbers.last()
    } else {
        largest(numbers.drop_last())
    }
}

/// The proposal to divide a chapter with so many pages.
pub open spec fn split_hint(last: nat) -> Seq<char> {
    let middle = last / 2;
    "Try two chapter parts: pages 1-"@ + decimal(middle) + " and pages "@ + decimal(middle + 1)
        + "-"@ + decimal(last) + "."@
}

/// A picture of text to be read.
#[derive(Clone, Debug)]
pub struct OcrRequest {
    pub image: RgbPage,
    pub source_language: Option<LanguageName>,
    pub instructions: Option<String>,
}

impl OcrRequest {
    /// Makes the image fit for sending.
    pub fn prepare_image(self) -> (result: Result<OcrRequest, &'static str>)
        requires
            self.image.well_formed(),
        ensures
            result matches Ok(request) && {
                &&& prepared(self.image, request.image)
                &&& request.source_language == self.source_language
                &&& request.instructions == self.instructions
            },
    {
        let mut image = Some(self.image);
        match prepare_image(&mut image) {
            Err(message) => Err(message),
            Ok(_) => match image {
                Some(image) => Ok(
                    OcrRequest {
                        image,
                        source_language: self.source_language,
                        instructions: self.instructions,
                    },
                ),
                None => Err("failed to resize translation image"),
            },
        }
    }
}

/// A request whose segments were named by their places knows each by one identifier, where no two
/// segments stand at the same place.
pub proof fn law_places_name_segments(metadata: Seq<TranslationSegmentMetadata>, i: int, j: int)
    requires
        0 <= i < metadata.len(),
        0 <= j < metadata.len(),
        metadata[i].page_id is Some && metadata[i].region_id is Some,
        metadata[j].page_id is Some && metadata[j].region_id is Some,
        metadata[i].page_id->0@ == metadata[j].page_id->0@,
        metadata[i].lasting_id(i as nat) == metadata[j].lasting_id(j as nat),
    ensures
        metadata[i].region_id->0@ == metadata[j].region_id->0@,
{
    let left = metadata[i].lasting_id(i as nat);
    let right = metadata[j].lasting_id(j as nat);
    let head = "page:"@ + metadata[i].page_id->0@ + "::region:"@;
    assert(left.skip(head.len() as int) =~= metadata[i].region_id->0@);
    assert(right.skip(head.len() as int) =~= metadata[j].region_id->0@);
}

/// The last page of a chapter is one of its pages, and none comes after it.
pub proof fn law_last_page_comes_last(numbers: Seq<usize>, at: int)
    requires
        0 <= at < numbers.len(),
    ensures
        numbers[at] <= largest(numbers),
        numbers.contains(largest(numbers)),
    decreases numbers.len(),
{
    let rest = numbers.drop_last();
    assert(numbers[numbers.len() - 1] == numbers.last());
    if rest.len() > 0 {
        law_last_page_comes_last(
            rest,
            if at < rest.len() {
                at
            } else {
                0
            },
        );
        if largest(numbers) != numbers.last() {
            let k = choose|k: int| 0 <= k < rest.len() && rest[k] == largest(rest);
            assert(numbers[k] == largest(rest));
        }
    } else {
        assert(largest(rest) == 0);
    }
}

/// A segment is named by its page and its place there where both are known, and by its number
/// otherwise.
pub proof fn law_segments_are_named_by_their_place(
    metadata: TranslationSegmentMetadata,
    index: nat,
)
    ensures
        metadata.page_id matches Some(page) ==> metadata.region_id matches Some(region)
            ==> metadata.lasting_id(index) == "page:"@ + page@ + "::region:"@ + region@,
        metadata.page_id is None || metadata.region_id is None ==> metadata.lasting_id(index)
            == "segment:"@ + decimal(index),
{
}

} // verus!
