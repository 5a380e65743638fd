//! The answers of models that translate.

use vstd::prelude::*;

use crate::request::{distinct_ids, TranslationRequest};
use crate::text::{decimal, from_size, join, joined, same, texts};

verus! {

/// A translated segment as a model gave it.
pub struct TranslationOutputSegment {
    pub id: String,
    pub page_id: String,
    pub region_id: String,
    pub source_text: String,
    pub translated_text: String,
}

/// The last place of an identifier.
pub open spec fn position(ids: Seq<String>, id: Seq<char>) -> Option<int>
    decreases ids.len(),
{
    if ids.len() == 0 {
        None
    } else if ids.last()@ == id {
        Some(ids.len() - 1)
    } else {
        position(ids.drop_last(), id)
    }
}

/// The place of an identifier has it.
pub proof fn lemma_position(ids: Seq<String>, id: Seq<char>)
    ensures
        match position(ids, id) {
            Some(at) => 0 <= at < ids.len() && ids[at]@ == id,
            None => forall|i: int| 0 <= i < ids.len() ==> (#[trigger] ids[i])@ != id,
        },
    decreases ids.len(),
{
    if ids.len() > 0 {
        lemma_position(ids.drop_last(), id);
        if position(ids, id) is None {
            assert forall|i: int| 0 <= i < ids.len() implies (#[trigger] ids[i])@ != id by {
                if i < ids.len() - 1 {
                    assert(ids.drop_last()[i] == ids[i]);
                }
            }
        }
    }
}

fn find_position(ids: &Vec<String>, id: &str) -> (result: Option<usize>)
    ensures
        match result {
            Some(at) => position(ids@, id@) == Some(at as int) && at < ids.len(),
            None => position(ids@, id@) is None,
        },
{
    let mut count: usize = ids.len();
    proof {
        assert(ids@.take(count as int) =~= ids@);
    }
    while count > 0
        invariant
            count <= ids.len(),
            position(ids@, id@) == position(ids@.take(count as int), id@),
        decreases count,
    {
        proof {
            assert(ids@.take(count as int).last() == ids@[count - 1]);
            assert(ids@.take(count as int).drop_last() =~= ids@.take(count - 1));
        }
        if same(ids[count - 1].as_str(), id) {
            return Some(count - 1);
        }
        count -= 1;
    }
    None
}

/// An identifier stands among the first of some answers.
pub open spec fn answered(
    output: Seq<TranslationOutputSegment>,
    count: int,
    id: Seq<char>,
) -> bool {
    exists|i: int| 0 <= i < count && (#[trigger] output[i]).id@ == id
}

/// Why one of the answers cannot be used, where those before it can.
pub open spec fn problem(
    provider: Seq<char>,
    output: Seq<TranslationOutputSegment>,
    request: TranslationRequest,
    at: int,
) -> Option<Seq<char>> {
    let answer = output[at];
    match position(request.segment_ids@, answer.id@) {
        None => Some(provider + " returned unknown translation ID "@ + answer.id@),
        Some(index) => if answered(output, at, answer.id@) {
            Some(provider + " returned duplicate translation ID "@ + answer.id@)
        } else if answer.page_id@ != request.page_name(index) {
            Some(
                provider + " returned page "@ + answer.page_id@ + " for translation ID "@
                    + answer.id@ + ", expected "@ + request.page_name(index),
            )
        } else if answer.region_id@ != request.region_name(index) {
            Some(
                provider + " returned region "@ + answer.region_id@ + " for translation ID "@
                    + answer.id@ + ", expected "@ + request.region_name(index),
            )
        } else if answer.source_text@ != request.segments@[index]@ {
            Some(provider + " changed source text for translation ID "@ + answer.id@)
        } else {
            None
        },
    }
}

/// Why the first of the answers that cannot be used cannot be used.
pub open spec fn first_problem(
    provider: Seq<char>,
    output: Seq<TranslationOutputSegment>,
    request: TranslationRequest,
    from: int,
) -> Option<Seq<char>>
    decreases output.len() - from,
{
    if from < 0 || from >= output.len() {
        None
    } else {
        match problem(provider, output, request, from) {
            Some(message) => Some(message),
            None => first_problem(provider, output, request, from + 1),
        }
    }
}

/// The translation of the segment at a place: that of the last of the answers which name the place.
pub open spec fn translation_at(
    output: Seq<TranslationOutputSegment>,
    request: TranslationRequest,
    index: int,
    count: int,
) -> Option<Seq<char>>
    decreases count,
{
    if count <= 0 {
        None
    } else if position(request.segment_ids@, output[count - 1].id@) == Some(index) {
        Some(output[count - 1].translated_text@)
    } else {
        translation_at(output, request, index, count - 1)
    }
}

/// The identifiers of the first segments that no answer names.
pub open spec fn missing_ids(
    output: Seq<TranslationOutputSegment>,
    request: TranslationRequest,
    count: int,
) -> Seq<Seq<char>>
    decreases count,
{
    if count <= 0 {
        Seq::empty()
    } else {
        let before = missing_ids(output, request, count - 1);
        if translation_at(output, request, count - 1, output.len() as int) is None {
            before.push(request.segment_ids@[count - 1]@)
        } else {
            before
        }
    }
}

/// The translations in the order of the segments, or why there are none.
pub open spec fn outcome(
    provider: Seq<char>,
    output: Seq<TranslationOutputSegment>,
    request: TranslationRequest,
) -> Result<Seq<Seq<char>>, Seq<char>> {
    let expected = request.segments@.len();
    let missing = missing_ids(output, request, expected as int);
    if output.len() != expected {
        Err(
            provider + " returned "@ + decimal(output.len()) + " translations, expected "@
                + decimal(expected),
        )
    } else if first_problem(provider, output, request, 0) is Some {
        Err(first_problem(provider, output, request, 0)->0)
    } else if missing.len() > 0 {
        Err(provider + " omitted translation IDs: "@ + joined(missing, ", "@))
    } else {
        Ok(
            Seq::new(
                expected,
                |i: int| translation_at(output, request, i, output.len() as int)->0,
            ),
        )
    }
}

/// What a result holds.
pub open spec fn result_view(result: Result<Vec<String>, String>) -> Result<
    Seq<Seq<char>>,
    Seq<char>,
> {
    match result {
        Ok(translations) => Ok(texts(translations@)),
        Err(message) => Err(message@),
    }
}

fn sentence(a: &str, b: &str, c: &str) -> (result: String)
    ensures
        result@ == a@ + b@ + c@,
{
    let mut result = a.to_owned();
    result.append(b);
    result.append(c);
    result
}

fn check(
    provider: &str,
    output: &Vec<TranslationOutputSegment>,
    request: &TranslationRequest,
    at: usize,
    filled: bool,
    index: usize,
) -> (result: Option<String>)
    requires
        request.aligned(),
        at < output.len(),
        index < request.segments.len(),
        position(request.segment_ids@, output@[at as int].id@) == Some(index as int),
        filled == answered(output@, at as int, output@[at as int].id@),
    ensures
        match result {
            Some(message) => problem(provider@, output@, *request, at as int) == Some(message@),
            None => problem(provider@, output@, *request, at as int) is None,
        },
{
    let answer = &output[at];
    if filled {
        return Some(sentence(provider, " returned duplicate translation ID ", answer.id.as_str()));
    }
    let page = request.page_id(index);
    if !same(answer.page_id.as_str(), page.as_str()) {
        let mut message = sentence(provider, " returned page ", answer.page_id.as_str());
        message.append(" for translation ID ");
        message.append(answer.id.as_str());
        message.append(", expected ");
        message.append(page.as_str());
        return Some(message);
    }
    let region = request.region_id(index);
    if !same(answer.region_id.as_str(), region.as_str()) {
        let mut message = sentence(provider, " returned region ", answer.region_id.as_str());
        message.append(" for translation ID ");
        message.append(answer.id.as_str());
        message.append(", expected ");
        message.append(region.as_str());
        return Some(message);
    }
    if !same(answer.source_text.as_str(), request.segments[index].as_str()) {
        return Some(
            sentence(provider, " changed source text for translation ID ", answer.id.as_str()),
        );
    }
    None
}

/// Where those before an answer can be used, an earlier one names its place if and only if it has
/// its identifier.
proof fn lemma_filled(
    output: Seq<TranslationOutputSegment>,
    request: TranslationRequest,
    index: int,
    count: int,
)
    requires
        0 <= count <= output.len(),
        0 <= index < request.segment_ids@.len(),
        position(request.segment_ids@, request.segment_ids@[index]@) == Some(index),
        request.segment_ids@.len() == request.segments@.len(),
    ensures
        translation_at(output, request, index, count) is Some <==> answered(
            output,
            count,
            request.segment_ids@[index]@,
        ),
    decreases count,
{
    let id = request.segment_ids@[index]@;
    if count > 0 {
        lemma_filled(output, request, index, count - 1);
        lemma_position(request.segment_ids@, output[count - 1].id@);
        if answered(output, count - 1, id) {
            let i = choose|i: int| 0 <= i < count - 1 && (#[trigger] output[i]).id@ == id;
            assert(output[i].id@ == id);
        }
        if output[count - 1].id@ == id {
            assert(answered(output, count, id));
        }
        if answered(output, count, id) && !answered(output, count - 1, id) {
            let i = choose|i: int| 0 <= i < count && (#[trigger] output[i]).id@ == id;
            assert(i == count - 1) by {
                if i < count - 1 {
                    assert(answered(output, count - 1, id));
                }
            }
        }
    }
}

/// Puts the answers of a model into the order of the segments, where it has answered each once
/// and named it as it was.
pub fn translations(
    provider: &str,
    output: &Vec<TranslationOutputSegment>,
    request: &TranslationRequest,
) -> (result: Result<Vec<String>, String>)
    requires
        request.aligned(),
    ensures
        result_view(result) == outcome(provider@, output@, *request),
{
    let expected: usize = request.segments.len();
    if output.len() != expected {
        let actual = from_size(output.len());
        let mut message = sentence(provider, " returned ", actual.as_str());
        message.append(" translations, expected ");
        let wanted = from_size(expected);
        message.append(wanted.as_str());
        return Err(message);
    }
    let mut found: Vec<Option<String>> = Vec::new();
    while found.len() < expected
        invariant
            found.len() <= expected,
            forall|i: int| 0 <= i < found.len() ==> (#[trigger] found@[i]) is None,
        decreases expected - found.len(),
    {
        found.push(None);
    }
    let mut at: usize = 0;
    while at < output.len()
        invariant
            at <= output.len(),
            output.len() == expected,
            expected == request.segments.len(),
            found.len() == expected,
            request.aligned(),
            first_problem(provider@, output@, *request, 0) == first_problem(
                provider@,
                output@,
                *request,
                at as int,
            ),
            forall|i: int|
                0 <= i < expected ==> (match #[trigger] found@[i] {
                    Some(text) => translation_at(output@, *request, i, at as int) == Some(text@),
                    None => translation_at(output@, *request, i, at as int) is None,
                }),
        decreases output.len() - at,
    {
        let answer = &output[at];
        match find_position(&request.segment_ids, answer.id.as_str()) {
            None => {
                return Err(
                    sentence(provider, " returned unknown translation ID ", answer.id.as_str()),
                );
            },
            Some(index) => {
                proof {
                    lemma_position(request.segment_ids@, answer.id@);
                    lemma_filled(output@, *request, index as int, at as int);
                }
                let filled = found[index].is_some();
                if let Some(message) = check(provider, output, request, at, filled, index) {
                    return Err(message);
                }
                found.set(index, Some(answer.translated_text.clone()));
            },
        }
        at += 1;
    }
    let mut missing: Vec<String> = Vec::new();
    let mut result: Vec<String> = Vec::new();
    let mut index: usize = 0;
    proof {
        assert(texts(missing@) =~= Seq::empty());
    }
    while index < expected
        invariant
            index <= expected,
            output.len() == expected,
            expected == request.segments.len(),
            found.len() == expected,
            request.aligned(),
            forall|i: int|
                0 <= i < expected ==> (match #[trigger] found@[i] {
                    Some(text) => translation_at(output@, *request, i, output@.len() as int)
                        == Some(text@),
                    None => translation_at(output@, *request, i, output@.len() as int) is None,
                }),
            texts(missing@) == missing_ids(output@, *request, index as int),
            missing.len() == 0 ==> result.len() == index,
            missing.len() == 0 ==> forall|i: int|
                0 <= i < index ==> Some((#[trigger] result@[i])@) == translation_at(
                    output@,
                    *request,
                    i,
                    output@.len() as int,
                ),
        decreases expected - index,
    {
        let ghost before = missing@;
        match &found[index] {
            Some(text) => {
                result.push(text.clone());
            },
            None => {
                missing.push(request.segment_ids[index].clone());
                proof {
                    assert(texts(missing@) =~= texts(before).push(
                        request.segment_ids@[index as int]@,
                    ));
                }
            },
        }
        index += 1;
    }
    proof {
        assert(texts(missing@).len() == missing@.len());
    }
    if missing.len() > 0 {
        let ids = join(&missing, ", ");
        return Err(sentence(provider, " omitted translation IDs: ", ids.as_str()));
    }
    proof {
        assert(texts(result@) =~= outcome(provider@, output@, *request)->Ok_0);
    }
    Ok(result)
}

/// Where the answers are accepted, each of them is the translation of the segment that it names,
/// which stands where it says and reads as it says.
pub proof fn law_accepted_answers_fit(
    provider: Seq<char>,
    output: Seq<TranslationOutputSegment>,
    request: TranslationRequest,
    at: int,
)
    requires
        request.aligned(),
        outcome(provider, output, request) is Ok,
        0 <= at < output.len(),
    ensures
        ({
            let index = position(request.segment_ids@, output[at].id@)->0;
            &&& position(request.segment_ids@, output[at].id@) is Some
            &&& 0 <= index < request.segments.len()
            &&& request.segment_ids@[index]@ == output[at].id@
            &&& request.page_name(index) == output[at].page_id@
            &&& request.region_name(index) == output[at].region_id@
            &&& request.segments@[index]@ == output[at].source_text@
            &&& outcome(provider, output, request)->Ok_0[index] == output[at].translated_text@
        }),
{
    lemma_no_problem(provider, output, request, 0, at);
    lemma_position(request.segment_ids@, output[at].id@);
    let index = position(request.segment_ids@, output[at].id@)->0;
    lemma_only_answer(provider, output, request, at, output.len() as int);
    assert(outcome(provider, output, request)->Ok_0[index] == translation_at(
        output,
        request,
        index,
        output.len() as int,
    )->0);
}

proof fn lemma_no_problem(
    provider: Seq<char>,
    output: Seq<TranslationOutputSegment>,
    request: TranslationRequest,
    from: int,
    at: int,
)
    requires
        0 <= from <= at < output.len(),
        first_problem(provider, output, request, from) is None,
    ensures
        problem(provider, output, request, at) is None,
    decreases at - from,
{
    if from < at {
        lemma_no_problem(provider, output, request, from + 1, at);
    }
}

proof fn lemma_only_answer(
    provider: Seq<char>,
    output: Seq<TranslationOutputSegment>,
    request: TranslationRequest,
    at: int,
    count: int,
)
    requires
        0 <= at < count <= output.len(),
        first_problem(provider, output, request, 0) is None,
        request.segment_ids@.len() == request.segments@.len(),
    ensures
        position(request.segment_ids@, output[at].id@) is Some,
        translation_at(
            output,
            request,
            position(request.segment_ids@, output[at].id@)->0,
            count,
        ) == Some(output[at].translated_text@),
    decreases count,
{
    lemma_no_problem(provider, output, request, 0, at);
    let index = position(request.segment_ids@, output[at].id@)->0;
    if at < count - 1 {
        lemma_only_answer(provider, output, request, at, count - 1);
        lemma_no_problem(provider, output, request, 0, count - 1);
        lemma_position(request.segment_ids@, output[at].id@);
        lemma_position(request.segment_ids@, output[count - 1].id@);
        if position(request.segment_ids@, output[count - 1].id@) == Some(index) {
            assert(output[at].id@ == output[count - 1].id@);
            assert(answered(output, count - 1, output[count - 1].id@));
        }
    }
}

/// Where the answers are accepted, every segment is answered, and by one answer alone.
pub proof fn law_every_segment_is_answered_once(
    provider: Seq<char>,
    output: Seq<TranslationOutputSegment>,
    request: TranslationRequest,
    index: int,
)
    requires
        request.aligned(),
        distinct_ids(request.segment_ids@),
        outcome(provider, output, request) is Ok,
        0 <= index < request.segments.len(),
    ensures
        exists|at: int|
            0 <= at < output.len() && (#[trigger] output[at]).id@ == request.segment_ids@[index]@,
        forall|at: int, other: int|
            0 <= at < output.len() && 0 <= other < output.len() && (#[trigger] output[at]).id@ == (
            #[trigger] output[other]).id@ ==> at == other,
{
    let id = request.segment_ids@[index]@;
    lemma_position(request.segment_ids@, id);
    assert(position(request.segment_ids@, id) == Some(index)) by {
        if let Some(found) = position(request.segment_ids@, id) {
            if found < index {
                assert(request.segment_ids@[found]@ != request.segment_ids@[index]@);
            } else if found > index {
                assert(request.segment_ids@[index]@ != request.segment_ids@[found]@);
            }
        }
    }
    lemma_none_missing(output, request, request.segments@.len() as int, index);
    lemma_filled(output, request, index, output.len() as int);
    assert(answered(output, output.len() as int, id));
    let at = choose|at: int| 0 <= at < output.len() && (#[trigger] output[at]).id@ == id;
    assert(output[at].id@ == id);
    assert forall|at: int, other: int|
        0 <= at < output.len() && 0 <= other < output.len() && (#[trigger] output[at]).id@ == (
        #[trigger] output[other]).id@ implies at == other by {
        lemma_no_problem(provider, output, request, 0, at);
        lemma_no_problem(provider, output, request, 0, other);
        if at < other {
            assert(answered(output, other, output[other].id@));
        } else if other < at {
            assert(answered(output, at, output[at].id@));
        }
    }
}

proof fn lemma_none_missing(
    output: Seq<TranslationOutputSegment>,
    request: TranslationRequest,
    count: int,
    index: int,
)
    requires
        0 <= index < count,
        missing_ids(output, request, count).len() == 0,
    ensures
        translation_at(output, request, index, output.len() as int) is Some,
    decreases count,
{
    if index < count - 1 {
        lemma_none_missing(output, request, count - 1, index);
    }
}

/// An answer names a segment: it has its identifier, its page, its region and its text.
pub open spec fn names_segment(
    answer: TranslationOutputSegment,
    request: TranslationRequest,
    index: int,
) -> bool {
    &&& answer.id@ == request.segment_ids@[index]@
    &&& answer.page_id@ == request.page_name(index)
    &&& answer.region_id@ == request.region_name(index)
    &&& answer.source_text@ == request.segments@[index]@
}

/// Every answer names a segment, no two have the same identifier, and every segment is named.
pub open spec fn names_each_once(
    output: Seq<TranslationOutputSegment>,
    request: TranslationRequest,
) -> bool {
    &&& output.len() == request.segments@.len()
    &&& forall|at: int|
        0 <= at < output.len() ==> exists|index: int|
            0 <= index < request.segments@.len() && names_segment(
                #[trigger] output[at],
                request,
                index,
            )
    &&& forall|at: int, other: int|
        0 <= at < other < output.len() ==> (#[trigger] output[at]).id@ != (
        #[trigger] output[other]).id@
    &&& forall|index: int|
        0 <= index < request.segments@.len() ==> answered(
            output,
            output.len() as int,
            (#[trigger] request.segment_ids@[index])@,
        )
}

proof fn lemma_distinct_position(ids: Seq<String>, index: int)
    requires
        distinct_ids(ids),
        0 <= index < ids.len(),
    ensures
        position(ids, ids[index]@) == Some(index),
{
    lemma_position(ids, ids[index]@);
    if let Some(found) = position(ids, ids[index]@) {
        if found < index {
            assert(ids[found]@ != ids[index]@);
        } else if found > index {
            assert(ids[index]@ != ids[found]@);
        }
    }
}

/// Answers that name each segment once are accepted, and each is the translation of the segment
/// that it names.
pub proof fn law_fitting_answers_are_accepted(
    provider: Seq<char>,
    output: Seq<TranslationOutputSegment>,
    request: TranslationRequest,
)
    requires
        request.aligned(),
        distinct_ids(request.segment_ids@),
        names_each_once(output, request),
    ensures
        outcome(provider, output, request) is Ok,
        forall|at: int, index: int|
            0 <= at < output.len() && 0 <= index < request.segments@.len() && #[trigger] names_segment(
                output[at],
                request,
                index,
            ) ==> outcome(provider, output, request)->Ok_0[index] == output[at].translated_text@,
{
    assert forall|at: int| 0 <= at < output.len() implies problem(
        provider,
        output,
        request,
        at,
    ) is None by {
        let answer = output[at];
        let index = choose|index: int|
            0 <= index < request.segments@.len() && names_segment(output[at], request, index);
        lemma_distinct_position(request.segment_ids@, index);
        if answered(output, at, answer.id@) {
            let earlier = choose|i: int| 0 <= i < at && (#[trigger] output[i]).id@ == answer.id@;
            assert(output[earlier].id@ != output[at].id@);
        }
    }
    lemma_problem_free(provider, output, request, 0);
    assert forall|index: int| 0 <= index < request.segments@.len() implies translation_at(
        output,
        request,
        index,
        output.len() as int,
    ) is Some by {
        lemma_distinct_position(request.segment_ids@, index);
        lemma_filled(output, request, index, output.len() as int);
        assert(answered(output, output.len() as int, request.segment_ids@[index]@));
    }
    lemma_nothing_missing(output, request, request.segments@.len() as int);
    assert forall|at: int, index: int|
        0 <= at < output.len() && 0 <= index < request.segments@.len() && #[trigger] names_segment(
            output[at],
            request,
            index,
        ) implies outcome(provider, output, request)->Ok_0[index]
        == output[at].translated_text@ by {
        lemma_distinct_position(request.segment_ids@, index);
        law_accepted_answers_fit(provider, output, request, at);
    }
}

proof fn lemma_problem_free(
    provider: Seq<char>,
    output: Seq<TranslationOutputSegment>,
    request: TranslationRequest,
    from: int,
)
    requires
        0 <= from <= output.len(),
        forall|at: int|
            0 <= at < output.len() ==> #[trigger] problem(provider, output, request, at) is None,
    ensures
        first_problem(provider, output, request, from) is None,
    decreases output.len() - from,
{
    if from < output.len() {
        assert(problem(provider, output, request, from) is None);
        lemma_problem_free(provider, output, request, from + 1);
    }
}

proof fn lemma_nothing_missing(
    output: Seq<TranslationOutputSegment>,
    request: TranslationRequest,
    count: int,
)
    requires
        0 <= count <= request.segments@.len(),
        forall|index: int|
            0 <= index < request.segments@.len() ==> #[trigger] translation_at(
                output,
                request,
                index,
                output.len() as int,
            ) is Some,
    ensures
        missing_ids(output, request, count).len() == 0,
    decreases count,
{
    if count > 0 {
        assert(translation_at(output, request, count - 1, output.len() as int) is Some);
        lemma_nothing_missing(output, request, count - 1);
    }
}

/// Where answers are accepted, no two segments have the same identifier.
proof fn lemma_accepted_distinct(
    provider: Seq<char>,
    output: Seq<TranslationOutputSegment>,
    request: TranslationRequest,
)
    requires
        request.aligned(),
        outcome(provider, output, request) is Ok,
    ensures
        distinct_ids(request.segment_ids@),
{
    let ids = request.segment_ids@;
    assert forall|i: int, j: int| 0 <= i < j < ids.len() implies (#[trigger] ids[i])@ != (
    #[trigger] ids[j])@ by {
        lemma_none_missing(output, request, request.segments@.len() as int, i);
        lemma_named(output, request, i, output.len() as int);
        let at = choose|at: int|
            0 <= at < output.len() && position(ids, (#[trigger] output[at]).id@) == Some(i);
        lemma_position(ids, output[at].id@);
        lemma_last_position(ids, ids[i]@, j);
    }
}

proof fn lemma_named(
    output: Seq<TranslationOutputSegment>,
    request: TranslationRequest,
    index: int,
    count: int,
)
    requires
        0 <= count <= output.len(),
        translation_at(output, request, index, count) is Some,
    ensures
        exists|at: int|
            0 <= at < count && position(request.segment_ids@, (#[trigger] output[at]).id@) == Some(
                index,
            ),
    decreases count,
{
    if count > 0 {
        if position(request.segment_ids@, output[count - 1].id@) == Some(index) {
        } else {
            lemma_named(output, request, index, count - 1);
        }
    }
}

/// No place behind that of an identifier has it.
proof fn lemma_last_position(ids: Seq<String>, id: Seq<char>, at: int)
    requires
        position(ids, id) is Some,
        position(ids, id)->0 < at,
        0 <= at < ids.len(),
    ensures
        ids[at]@ != id,
    decreases ids.len(),
{
    if ids.last()@ != id && at < ids.len() - 1 {
        assert(ids.drop_last()[at] == ids[at]);
        lemma_last_position(ids.drop_last(), id, at);
    }
}

/// The order in which answers come does not matter: the same answers in another order give the
/// same translations.
pub proof fn law_order_of_answers_does_not_matter(
    provider: Seq<char>,
    output: Seq<TranslationOutputSegment>,
    other: Seq<TranslationOutputSegment>,
    request: TranslationRequest,
)
    requires
        request.aligned(),
        output.to_multiset() == other.to_multiset(),
        outcome(provider, output, request) is Ok,
    ensures
        outcome(provider, other, request) == outcome(provider, output, request),
{
    let ids = request.segment_ids@;
    lemma_accepted_distinct(provider, output, request);
    vstd::seq_lib::to_multiset_len(output);
    vstd::seq_lib::to_multiset_len(other);
    assert forall|at: int| 0 <= at < output.len() implies exists|index: int|
        0 <= index < request.segments@.len() && names_segment(
            #[trigger] output[at],
            request,
            index,
        ) by {
        law_accepted_answers_fit(provider, output, request, at);
        let index = position(ids, output[at].id@)->0;
        assert(names_segment(output[at], request, index));
    }
    assert forall|at: int| 0 <= at < other.len() implies exists|index: int|
        0 <= index < request.segments@.len() && names_segment(
            #[trigger] other[at],
            request,
            index,
        ) by {
        assert(other.contains(other[at]));
        vstd::seq_lib::to_multiset_contains(other, other[at]);
        vstd::seq_lib::to_multiset_contains(output, other[at]);
        let from = choose|from: int| 0 <= from < output.len() && output[from] == other[at];
        let index = choose|index: int|
            0 <= index < request.segments@.len() && names_segment(output[from], request, index);
        assert(names_segment(other[at], request, index));
    }
    assert forall|index: int| 0 <= index < request.segments@.len() implies answered(
        other,
        other.len() as int,
        (#[trigger] ids[index])@,
    ) by {
        law_every_segment_is_answered_once(provider, output, request, index);
        let from = choose|from: int|
            0 <= from < output.len() && (#[trigger] output[from]).id@ == ids[index]@;
        assert(output.contains(output[from]));
        vstd::seq_lib::to_multiset_contains(output, output[from]);
        vstd::seq_lib::to_multiset_contains(other, output[from]);
        let at = choose|at: int| 0 <= at < other.len() && other[at] == output[from];
        assert(other[at].id@ == ids[index]@);
    }
    assert forall|left: int, right: int| 0 <= left < right < other.len() implies (
    #[trigger] other[left]).id@ != (#[trigger] other[right]).id@ by {
        lemma_rearranged_distinct(provider, output, other, request, left, right);
    }
    assert(names_each_once(other, request));
    law_fitting_answers_are_accepted(provider, other, request);
    let expected = outcome(provider, output, request)->Ok_0;
    let actual = outcome(provider, other, request)->Ok_0;
    assert forall|index: int| 0 <= index < expected.len() implies expected[index]
        == actual[index] by {
        assert(answered(other, other.len() as int, ids[index]@));
        let at = choose|at: int| 0 <= at < other.len() && (#[trigger] other[at]).id@ == ids[index]@;
        let index_of = choose|k: int|
            0 <= k < request.segments@.len() && names_segment(other[at], request, k);
        lemma_distinct_position(ids, index);
        lemma_distinct_position(ids, index_of);
        assert(names_segment(other[at], request, index));
        assert(other.contains(other[at]));
        vstd::seq_lib::to_multiset_contains(other, other[at]);
        vstd::seq_lib::to_multiset_contains(output, other[at]);
        let from = choose|from: int| 0 <= from < output.len() && output[from] == other[at];
        law_accepted_answers_fit(provider, output, request, from);
    }
    assert(expected =~= actual);
}

/// Two places of accepted answers, in whatever order, do not have the same identifier.
proof fn lemma_rearranged_distinct(
    provider: Seq<char>,
    output: Seq<TranslationOutputSegment>,
    other: Seq<TranslationOutputSegment>,
    request: TranslationRequest,
    left: int,
    right: int,
)
    requires
        request.aligned(),
        output.to_multiset() == other.to_multiset(),
        outcome(provider, output, request) is Ok,
        0 <= left < right < other.len(),
    ensures
        other[left].id@ != other[right].id@,
{
    if other[left].id@ == other[right].id@ {
        lemma_accepted_distinct(provider, output, request);
        vstd::seq_lib::to_multiset_len(output);
        vstd::seq_lib::to_multiset_len(other);
        let (a, b) = (other[left], other[right]);
        assert(other.contains(a) && other.contains(b));
        vstd::seq_lib::to_multiset_contains(other, a);
        vstd::seq_lib::to_multiset_contains(other, b);
        vstd::seq_lib::to_multiset_contains(output, a);
        vstd::seq_lib::to_multiset_contains(output, b);
        let i = choose|i: int| 0 <= i < output.len() && output[i] == a;
        let j = choose|j: int| 0 <= j < output.len() && output[j] == b;
        law_accepted_answers_fit(provider, output, request, i);
        let index = position(request.segment_ids@, output[i].id@)->0;
        law_every_segment_is_answered_once(provider, output, request, index);
        assert(output[i].id@ == output[j].id@);
        assert(i == j);
        let shorter = other.remove(left);
        vstd::seq_lib::to_multiset_remove(other, left);
        vstd::seq_lib::to_multiset_remove(output, i);
        let rest = output.remove(i);
        assert(shorter[right - 1] == a);
        assert(shorter.contains(a));
        vstd::seq_lib::to_multiset_contains(shorter, a);
        vstd::seq_lib::to_multiset_contains(rest, a);
        let k = choose|k: int| 0 <= k < rest.len() && rest[k] == a;
        let whole = if k < i {
            k
        } else {
            k + 1
        };
        assert(output[whole] == a);
        assert(output[whole].id@ == output[i].id@);
    }
}

} // verus!
