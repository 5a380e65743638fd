//! Text operations over sequences of characters.

use vstd::prelude::*;

verus! {

/// `String::push` appends the given character to the end of the string.
pub assume_specification[ String::push ](string: &mut String, c: char)
    ensures
        final(string)@ == old(string)@.push(c),
;

/// The characters of a text, in order.
pub fn chars(text: &str) -> (result: Vec<char>)
    ensures
        result@ == text@,
{
    let mut result: Vec<char> = Vec::new();
    for c in it: text.chars()
        invariant
            it.seq() == text@,
            result@ == text@.take(it.index() as int),
    {
        result.push(c);
        proof {
            assert(text@.take(it.index() as int + 1) =~= text@.take(it.index() as int).push(c));
        }
    }
    proof {
        assert(text@.take(text@.len() as int) =~= text@);
    }
    result
}

/// The text made of the characters from `from` up to `to`.
pub fn slice(source: &Vec<char>, from: usize, to: usize) -> (result: String)
    requires
        from <= to <= source.len(),
    ensures
        result@ == source@.subrange(from as int, to as int),
{
    let mut result = String::new();
    let mut index: usize = from;
    while index < to
        invariant
            from <= index <= to <= source.len(),
            result@ == source@.subrange(from as int, index as int),
        decreases to - index,
    {
        result.push(source[index]);
        proof {
            assert(source@.subrange(from as int, index as int + 1) =~= source@.subrange(
                from as int,
                index as int,
            ).push(source@[index as int]));
        }
        index += 1;
    }
    result
}

/// Tests whether two texts hold the same characters.
pub fn same(left: &str, right: &str) -> (result: bool)
    ensures
        result == (left@ == right@),
{
    left.to_owned() == right.to_owned()
}

/// An upper case ASCII letter in lower case, any other character as it is.
pub open spec fn lower_char(c: char) -> char {
    if 'A' <= c <= 'Z' {
        ((c as int) + 32) as char
    } else {
        c
    }
}

pub open spec fn lower(text: Seq<char>) -> Seq<char> {
    text.map_values(|c: char| lower_char(c))
}

pub fn to_lower_char(c: char) -> (result: char)
    ensures
        result == lower_char(c),
{
    if 'A' <= c && c <= 'Z' {
        ((c as u8) + 32) as char
    } else {
        c
    }
}

/// One text comes before another in dictionary order, character by character.
pub open spec fn precedes(left: Seq<char>, right: Seq<char>) -> bool
    decreases left.len(),
{
    if right.len() == 0 {
        false
    } else if left.len() == 0 {
        true
    } else {
        left[0] < right[0] || (left[0] == right[0] && precedes(
            left.drop_first(),
            right.drop_first(),
        ))
    }
}

/// No text comes before itself.
pub proof fn lemma_precedes_irreflexive(text: Seq<char>)
    ensures
        !precedes(text, text),
    decreases text.len(),
{
    if text.len() > 0 {
        lemma_precedes_irreflexive(text.drop_first());
    }
}

/// The dictionary order is transitive.
pub proof fn lemma_precedes_transitive(a: Seq<char>, b: Seq<char>, c: Seq<char>)
    requires
        precedes(a, b),
        precedes(b, c),
    ensures
        precedes(a, c),
    decreases a.len(),
{
    if a.len() > 0 && a[0] == b[0] && b[0] == c[0] {
        lemma_precedes_transitive(a.drop_first(), b.drop_first(), c.drop_first());
    }
}

/// Of two different texts, one comes before the other.
pub proof fn lemma_precedes_total(a: Seq<char>, b: Seq<char>)
    ensures
        precedes(a, b) || precedes(b, a) || a == b,
    decreases a.len(),
{
    if a.len() > 0 && b.len() > 0 {
        if a[0] == b[0] {
            lemma_precedes_total(a.drop_first(), b.drop_first());
            if a.drop_first() == b.drop_first() {
                assert(a =~= seq![a[0]] + a.drop_first());
                assert(b =~= seq![b[0]] + b.drop_first());
            }
        }
    } else if a.len() == 0 && b.len() == 0 {
        assert(a =~= b);
    }
}

/// Tests whether one text comes before another in dictionary order.
pub fn comes_before(left: &str, right: &str) -> (result: bool)
    ensures
        result == precedes(left@, right@),
{
    let a = chars(left);
    let b = chars(right);
    let mut index: usize = 0;
    proof {
        assert(a@.skip(0) =~= left@);
        assert(b@.skip(0) =~= right@);
    }
    while index < a.len() && index < b.len() && a[index] == b[index]
        invariant
            a@ == left@,
            b@ == right@,
            index <= a.len(),
            index <= b.len(),
            precedes(left@, right@) == precedes(a@.skip(index as int), b@.skip(index as int)),
        decreases a.len() - index,
    {
        proof {
            assert(a@.skip(index as int).drop_first() =~= a@.skip(index as int + 1));
            assert(b@.skip(index as int).drop_first() =~= b@.skip(index as int + 1));
        }
        index += 1;
    }
    if index >= b.len() {
        return false;
    }
    if index >= a.len() {
        return true;
    }
    a[index] < b[index]
}

/// A part of a sequence equals another sequence, from a place on.
pub open spec fn occurs_at<T>(whole: Seq<T>, part: Seq<T>, at: int) -> bool {
    0 <= at && at + part.len() <= whole.len() && whole.subrange(at, at + part.len()) == part
}

/// A sequence occurs somewhere in another.
pub open spec fn occurs<T>(whole: Seq<T>, part: Seq<T>) -> bool {
    exists|at: int| #[trigger] occurs_at(whole, part, at)
}

/// The first place, from a given one on, at which a sequence occurs in another.
pub open spec fn first_at<T>(whole: Seq<T>, part: Seq<T>, from: int) -> Option<int>
    decreases whole.len() + 1 - from,
{
    if from < 0 || from + part.len() > whole.len() {
        None
    } else if occurs_at(whole, part, from) {
        Some(from)
    } else {
        first_at(whole, part, from + 1)
    }
}

/// The first place is one at which the sequence occurs, and it does not occur before.
pub proof fn lemma_first_at<T>(whole: Seq<T>, part: Seq<T>, from: int)
    requires
        0 <= from,
    ensures
        match first_at(whole, part, from) {
            Some(at) => {
                &&& from <= at
                &&& occurs_at(whole, part, at)
                &&& forall|i: int| from <= i < at ==> !#[trigger] occurs_at(whole, part, i)
            },
            None => forall|i: int| from <= i ==> !#[trigger] occurs_at(whole, part, i),
        },
    decreases whole.len() + 1 - from,
{
    if from + part.len() <= whole.len() && !occurs_at(whole, part, from) {
        lemma_first_at(whole, part, from + 1);
    }
}

/// An occurrence from a place on is one in what is left from there on.
pub proof fn lemma_first_at_skip(text: Seq<char>, part: Seq<char>, from: int, cut: int)
    requires
        0 <= cut <= from,
        cut <= text.len(),
    ensures
        first_at(text.skip(cut), part, from - cut) == (match first_at(text, part, from) {
            Some(at) => Some(at - cut),
            None => None::<int>,
        }),
    decreases text.len() + 1 - from,
{
    let rest = text.skip(cut);
    if from + part.len() <= text.len() {
        assert(rest.subrange(from - cut, from - cut + part.len()) =~= text.subrange(
            from,
            from + part.len(),
        ));
        if !occurs_at(text, part, from) {
            lemma_first_at_skip(text, part, from + 1, cut);
        }
    }
}

/// Tests whether some characters stand in a text from a place on.
pub fn stands_at(text: &Vec<char>, part: &Vec<char>, at: usize) -> (result: bool)
    ensures
        result == occurs_at(text@, part@, at as int),
{
    if at > text.len() || part.len() > text.len() - at {
        return false;
    }
    let mut index: usize = 0;
    while index < part.len()
        invariant
            index <= part.len(),
            at + part.len() <= text.len(),
            forall|i: int| 0 <= i < index ==> text@[at + i] == part@[i],
        decreases part.len() - index,
    {
        if text[at + index] != part[index] {
            assert(text@.subrange(at as int, at + part.len())[index as int] != part@[index as int]);
            return false;
        }
        index += 1;
    }
    assert(text@.subrange(at as int, at + part.len()) =~= part@);
    true
}

/// The first place, from a given one on, at which some characters stand in a text.
pub fn find_from(text: &Vec<char>, part: &Vec<char>, from: usize) -> (result: Option<usize>)
    ensures
        match result {
            Some(at) => first_at(text@, part@, from as int) == Some(at as int) && at + part.len()
                <= text.len() && from <= at,
            None => first_at(text@, part@, from as int) is None,
        },
{
    let mut at: usize = from;
    while at <= text.len() && part.len() <= text.len() - at
        invariant
            from <= at,
            first_at(text@, part@, from as int) == first_at(text@, part@, at as int),
        decreases text.len() + 1 - at,
    {
        if stands_at(text, part, at) {
            return Some(at);
        }
        proof {
            if at == text.len() {
                assert(text@.subrange(at as int, at as int) =~= part@);
            }
        }
        at += 1;
    }
    None
}

/// Tests whether a text holds another.
pub fn contains(text: &str, part: &str) -> (result: bool)
    ensures
        result == occurs(text@, part@),
{
    let whole = chars(text);
    let wanted = chars(part);
    let found = find_from(&whole, &wanted, 0);
    proof {
        lemma_first_at(text@, part@, 0);
        if let Some(at) = found {
            assert(occurs_at(text@, part@, at as int));
        }
    }
    found.is_some()
}

/// Tests whether a text begins with another.
pub fn starts_with(text: &str, part: &str) -> (result: bool)
    ensures
        result == occurs_at(text@, part@, 0),
{
    stands_at(&chars(text), &chars(part), 0)
}

/// The characters that separate words.
pub open spec fn is_space(c: char) -> bool {
    ||| '\u{9}' <= c <= '\u{d}'
    ||| c == ' '
    ||| c == '\u{85}'
    ||| c == '\u{a0}'
    ||| c == '\u{1680}'
    ||| '\u{2000}' <= c <= '\u{200a}'
    ||| c == '\u{2028}'
    ||| c == '\u{2029}'
    ||| c == '\u{202f}'
    ||| c == '\u{205f}'
    ||| c == '\u{3000}'
}

pub fn space(c: char) -> (result: bool)
    ensures
        result == is_space(c),
{
    ('\u{9}' <= c && c <= '\u{d}') || c == ' ' || c == '\u{85}' || c == '\u{a0}' || c
        == '\u{1680}' || ('\u{2000}' <= c && c <= '\u{200a}') || c == '\u{2028}' || c
        == '\u{2029}' || c == '\u{202f}' || c == '\u{205f}' || c == '\u{3000}'
}

/// How many separators a text begins with.
pub open spec fn leading(text: Seq<char>) -> nat
    decreases text.len(),
{
    if text.len() > 0 && is_space(text[0]) {
        1 + leading(text.drop_first())
    } else {
        0
    }
}

/// How many separators a text ends with.
pub open spec fn trailing(text: Seq<char>) -> nat
    decreases text.len(),
{
    if text.len() > 0 && is_space(text.last()) {
        1 + trailing(text.drop_last())
    } else {
        0
    }
}

/// A text without the separators at its end.
pub open spec fn trimmed_end(text: Seq<char>) -> Seq<char> {
    text.take(text.len() - trailing(text))
}

/// A text without the separators at its beginning and its end.
pub open spec fn trimmed(text: Seq<char>) -> Seq<char> {
    trimmed_end(text.skip(leading(text) as int))
}

pub proof fn lemma_leading(text: Seq<char>)
    ensures
        leading(text) <= text.len(),
        forall|i: int| 0 <= i < leading(text) ==> is_space(#[trigger] text[i]),
        leading(text) < text.len() ==> !is_space(text[leading(text) as int]),
    decreases text.len(),
{
    if text.len() > 0 && is_space(text[0]) {
        let rest = text.drop_first();
        lemma_leading(rest);
        assert forall|i: int| 0 <= i < leading(text) implies is_space(#[trigger] text[i]) by {
            if i > 0 {
                assert(rest[i - 1] == text[i]);
            }
        }
    }
}

pub proof fn lemma_trailing(text: Seq<char>)
    ensures
        trailing(text) <= text.len(),
        trailing(text) < text.len() ==> !is_space(text[text.len() - 1 - trailing(text)]),
    decreases text.len(),
{
    if text.len() > 0 && is_space(text.last()) {
        lemma_trailing(text.drop_last());
    }
}

/// Trimming takes away all separators around a text, and nothing else: whatever begins and ends
/// with no separator comes back, and of separators alone nothing is left.
pub proof fn law_trimming(before: Seq<char>, content: Seq<char>, after: Seq<char>)
    requires
        forall|i: int| 0 <= i < before.len() ==> is_space(#[trigger] before[i]),
        forall|i: int| 0 <= i < after.len() ==> is_space(#[trigger] after[i]),
        content.len() > 0 ==> !is_space(content[0]) && !is_space(content.last()),
    ensures
        trimmed(before + content + after) == content,
    decreases before.len(), after.len(),
{
    let text = before + content + after;
    if before.len() > 0 {
        let rest = before.drop_first() + content + after;
        assert(text.drop_first() =~= rest);
        assert(text[0] == before[0]);
        law_trimming(before.drop_first(), content, after);
        lemma_leading(rest);
        assert(text.skip(leading(text) as int) =~= rest.skip(leading(rest) as int));
    } else if content.len() == 0 && after.len() > 0 {
        let rest = after.drop_first();
        assert(text.drop_first() =~= before + content + rest);
        assert(text[0] == after[0]);
        law_trimming(before, content, rest);
        lemma_leading(before + content + rest);
        assert(text.skip(leading(text) as int) =~= (before + content + rest).skip(
            leading(before + content + rest) as int,
        ));
    } else if content.len() == 0 {
        assert(text =~= content);
        assert(trimmed(text) =~= content);
    } else {
        assert(text[0] == content[0]);
        assert(text.skip(0) =~= content + after);
        lemma_trailing_of(content, after);
        assert(trimmed(text) =~= content);
    }
}

proof fn lemma_trailing_of(content: Seq<char>, after: Seq<char>)
    requires
        forall|i: int| 0 <= i < after.len() ==> is_space(#[trigger] after[i]),
        content.len() > 0,
        !is_space(content.last()),
    ensures
        trailing(content + after) == after.len(),
    decreases after.len(),
{
    let text = content + after;
    if after.len() > 0 {
        assert(text.last() == after.last());
        assert(text.drop_last() =~= content + after.drop_last());
        lemma_trailing_of(content, after.drop_last());
    } else {
        assert(text =~= content);
    }
}

/// What trimming leaves stands in the text with nothing but separators around it, and neither
/// begins nor ends with one.
pub proof fn law_trimmed_stands_in_the_text(text: Seq<char>) -> (start: int)
    ensures
        0 <= start <= start + trimmed(text).len() <= text.len(),
        trimmed(text) == text.subrange(start, start + trimmed(text).len()),
        forall|i: int| 0 <= i < start ==> is_space(#[trigger] text[i]),
        forall|i: int|
            start + trimmed(text).len() <= i < text.len() ==> is_space(#[trigger] text[i]),
        trimmed(text).len() > 0 ==> !is_space(trimmed(text)[0]) && !is_space(trimmed(text).last()),
{
    lemma_leading(text);
    let start = leading(text) as int;
    let rest = text.skip(start);
    lemma_trailing(rest);
    lemma_trailing_spaces(rest);
    let end = start + trimmed(text).len();
    assert(trimmed(text) =~= text.subrange(start, end));
    assert forall|i: int| end <= i < text.len() implies is_space(#[trigger] text[i]) by {
        assert(rest[i - start] == text[i]);
    }
    if trimmed(text).len() > 0 {
        assert(trimmed(text)[0] == text[start]);
        assert(trimmed(text).last() == rest[rest.len() - 1 - trailing(rest)]);
    }
    start
}

proof fn lemma_trailing_spaces(text: Seq<char>)
    ensures
        forall|i: int|
            text.len() - trailing(text) <= i < text.len() ==> is_space(#[trigger] text[i]),
    decreases text.len(),
{
    if text.len() > 0 && is_space(text.last()) {
        let rest = text.drop_last();
        lemma_trailing_spaces(rest);
        lemma_trailing(rest);
        assert forall|i: int|
            text.len() - trailing(text) <= i < text.len() implies is_space(#[trigger] text[i]) by {
            if i < rest.len() {
                assert(rest[i] == text[i]);
            }
        }
    }
}

/// The range of a text that is left when the separators around it are taken away.
pub fn trim_range(text: &Vec<char>) -> (result: (usize, usize))
    ensures
        result.0 <= result.1 <= text.len(),
        text@.subrange(result.0 as int, result.1 as int) == trimmed(text@),
        result.0 == leading(text@),
{
    let mut start: usize = 0;
    proof {
        lemma_leading(text@);
        assert(text@.skip(0) =~= text@);
    }
    while start < text.len() && space(text[start])
        invariant
            start <= text.len(),
            leading(text@) == start + leading(text@.skip(start as int)),
        decreases text.len() - start,
    {
        proof {
            assert(text@.skip(start as int).drop_first() =~= text@.skip(start as int + 1));
        }
        start += 1;
    }
    let ghost rest = text@.skip(start as int);
    proof {
        assert(leading(text@) == start) by {
            if start < text.len() {
                assert(rest[0] == text@[start as int]);
            }
        }
        lemma_trailing(rest);
        assert(rest.take(rest.len() as int) =~= rest);
    }
    let mut end: usize = text.len();
    while end > start && space(text[end - 1])
        invariant
            start <= end <= text.len(),
            rest == text@.skip(start as int),
            trailing(rest) == text.len() - end + trailing(rest.take(end - start)),
        decreases end,
    {
        proof {
            let part = rest.take(end - start);
            assert(part.last() == text@[end - 1]);
            assert(part.drop_last() =~= rest.take(end - 1 - start));
        }
        end -= 1;
    }
    proof {
        let part = rest.take(end - start);
        if end > start {
            assert(part.last() == text@[end - 1]);
        }
        assert(trailing(part) == 0);
        assert(text@.subrange(start as int, end as int) =~= trimmed(text@));
    }
    (start, end)
}

/// A text without the separators around it.
pub fn trim(text: &str) -> (result: String)
    ensures
        result@ == trimmed(text@),
{
    let all = chars(text);
    let (start, end) = trim_range(&all);
    slice(&all, start, end)
}

/// A text in lower case, as far as ASCII letters go.
pub fn to_lower(text: &str) -> (result: String)
    ensures
        result@ == lower(text@),
{
    let all = chars(text);
    let mut result = String::new();
    let mut index: usize = 0;
    while index < all.len()
        invariant
            index <= all.len(),
            all@ == text@,
            result@ == lower(text@).take(index as int),
        decreases all.len() - index,
    {
        result.push(to_lower_char(all[index]));
        index += 1;
        proof {
            assert(lower(text@).take(index as int) =~= lower(text@).take(index - 1).push(
                lower(text@)[index - 1],
            ));
        }
    }
    proof {
        assert(lower(text@).take(index as int) =~= lower(text@));
    }
    result
}

/// Tests whether two texts are the same up to the case of ASCII letters.
pub fn same_ignoring_case(left: &str, right: &str) -> (result: bool)
    ensures
        result == (lower(left@) == lower(right@)),
{
    same(to_lower(left).as_str(), to_lower(right).as_str())
}

/// The last digit of a number.
pub open spec fn digit(value: nat) -> char {
    ((value % 10) + ('0' as nat)) as char
}

/// A number in decimal digits.
pub open spec fn decimal(value: nat) -> Seq<char>
    decreases value,
{
    if value < 10 {
        seq![digit(value)]
    } else {
        decimal(value / 10).push(digit(value))
    }
}

/// A number in decimal digits, with zeros before it up to a width.
pub open spec fn padded_decimal(value: nat, width: nat) -> Seq<char> {
    let digits = decimal(value);
    if digits.len() >= width {
        digits
    } else {
        Seq::new((width - digits.len()) as nat, |i: int| '0') + digits
    }
}

fn digit_char(value: u64) -> (result: char)
    ensures
        result == digit(value as nat),
{
    ((value % 10) as u8 + 48) as char
}

fn push_decimal(target: &mut String, value: u64)
    ensures
        final(target)@ == old(target)@ + decimal(value as nat),
    decreases value,
{
    if value >= 10 {
        push_decimal(target, value / 10);
    }
    target.push(digit_char(value));
    proof {
        if value >= 10 {
            assert(target@ =~= old(target)@ + decimal((value / 10) as nat).push(
                digit(value as nat),
            ));
        } else {
            assert(target@ =~= old(target)@ + seq![digit(value as nat)]);
        }
    }
}

/// Writes a number in decimal digits.
pub fn from_number(value: u64) -> (result: String)
    ensures
        result@ == decimal(value as nat),
{
    let mut result = String::new();
    push_decimal(&mut result, value);
    proof {
        assert(result@ =~= decimal(value as nat));
    }
    result
}

/// Writes a length in decimal digits.
pub fn from_size(value: usize) -> (result: String)
    ensures
        result@ == decimal(value as nat),
{
    from_number(value as u64)
}

/// A whole number in decimal digits, with a sign where it is negative.
pub open spec fn signed_decimal(value: int) -> Seq<char> {
    if value < 0 {
        seq!['-'] + decimal((-value) as nat)
    } else {
        decimal(value as nat)
    }
}

/// Writes a whole number in decimal digits.
pub fn from_integer(value: i64) -> (result: String)
    ensures
        result@ == signed_decimal(value as int),
{
    let mut result = String::new();
    if value < 0 {
        result.push('-');
        let magnitude: u64 = if value == i64::MIN {
            0x8000_0000_0000_0000u64
        } else {
            (-value) as u64
        };
        push_decimal(&mut result, magnitude);
        proof {
            assert(result@ =~= seq!['-'] + decimal(magnitude as nat));
        }
    } else {
        push_decimal(&mut result, value as u64);
        proof {
            assert(result@ =~= decimal(value as nat));
        }
    }
    result
}

/// Writes a number in decimal digits, with zeros before it up to a width.
pub fn from_size_padded(value: usize, width: usize) -> (result: String)
    requires
        width <= 64,
    ensures
        result@ == padded_decimal(value as nat, width as nat),
{
    let digits = from_size(value);
    let count: usize = digits.as_str().unicode_len();
    let mut result = String::new();
    let mut filled: usize = count;
    while filled < width
        invariant
            count <= filled,
            filled <= width || filled == count,
            count == digits@.len(),
            result@ == Seq::new((filled - count) as nat, |i: int| '0'),
        decreases width - filled,
    {
        result.push('0');
        filled += 1;
        proof {
            assert(result@ =~= Seq::new((filled - count) as nat, |i: int| '0'));
        }
    }
    result.append(digits.as_str());
    proof {
        assert(result@ =~= padded_decimal(value as nat, width as nat));
    }
    result
}

/// Texts one after the other with a separator between them.
pub open spec fn joined(parts: Seq<Seq<char>>, separator: Seq<char>) -> Seq<char>
    decreases parts.len(),
{
    if parts.len() == 0 {
        Seq::empty()
    } else if parts.len() == 1 {
        parts[0]
    } else {
        joined(parts.drop_last(), separator) + separator + parts.last()
    }
}

/// The contents of texts.
pub open spec fn texts(parts: Seq<String>) -> Seq<Seq<char>> {
    parts.map_values(|part: String| part@)
}

/// Puts texts one after the other with a separator between them.
pub fn join(parts: &Vec<String>, separator: &str) -> (result: String)
    ensures
        result@ == joined(texts(parts@), separator@),
{
    let mut result = String::new();
    let mut index: usize = 0;
    proof {
        assert(texts(parts@).take(0) =~= Seq::empty());
    }
    while index < parts.len()
        invariant
            index <= parts.len(),
            result@ == joined(texts(parts@).take(index as int), separator@),
        decreases parts.len() - index,
    {
        if index > 0 {
            result.append(separator);
        }
        result.append(parts[index].as_str());
        proof {
            let longer = texts(parts@).take(index as int + 1);
            assert(longer.drop_last() =~= texts(parts@).take(index as int));
            assert(longer.last() == parts@[index as int]@);
            if index == 0 {
                assert(result@ =~= longer[0]);
            }
        }
        index += 1;
    }
    proof {
        assert(texts(parts@).take(index as int) =~= texts(parts@));
    }
    result
}

/// The first characters of a text, at most a number of them.
pub open spec fn first_chars(text: Seq<char>, count: nat) -> Seq<char> {
    if text.len() <= count {
        text
    } else {
        text.take(count as int)
    }
}

/// The first characters of a text, at most a number of them.
pub fn take_chars(text: &str, count: usize) -> (result: String)
    ensures
        result@ == first_chars(text@, count as nat),
{
    let all = chars(text);
    let end: usize = if all.len() <= count {
        all.len()
    } else {
        count
    };
    proof {
        assert(text@.subrange(0, end as int) =~= first_chars(text@, count as nat));
    }
    slice(&all, 0, end)
}

/// A text with every occurrence of a part, from left to right, replaced by another text. An
/// empty part occurs before and after every character.
pub open spec fn replaced(text: Seq<char>, part: Seq<char>, with: Seq<char>) -> Seq<char>
    decreases text.len(),
{
    if part.len() == 0 {
        if text.len() == 0 {
            with
        } else {
            with + seq![text[0]] + replaced(text.skip(1), part, with)
        }
    } else if text.len() < part.len() {
        text
    } else if occurs_at(text, part, 0) {
        with + replaced(text.skip(part.len() as int), part, with)
    } else {
        seq![text[0]] + replaced(text.skip(1), part, with)
    }
}

/// Replaces every occurrence of a part of a text.
pub fn replace(text: &str, part: &str, with: &str) -> (result: String)
    ensures
        result@ == replaced(text@, part@, with@),
{
    let all = chars(text);
    let wanted = chars(part);
    let mut result = String::new();
    let mut at: usize = 0;
    proof {
        assert(text@.skip(0) =~= text@);
        assert(result@ + replaced(text@.skip(0), part@, with@) =~= replaced(text@, part@, with@));
    }
    while at < all.len()
        invariant
            at <= all.len(),
            all@ == text@,
            wanted@ == part@,
            result@ + replaced(text@.skip(at as int), part@, with@) == replaced(
                text@,
                part@,
                with@,
            ),
        decreases all.len() - at,
    {
        let ghost rest = text@.skip(at as int);
        let ghost before = result@;
        if wanted.len() == 0 {
            result.append(with);
            result.push(all[at]);
            proof {
                assert(rest.skip(1) =~= text@.skip(at as int + 1));
                assert(result@ + replaced(rest.skip(1), part@, with@) =~= before + (with@ + seq![
                    rest[0],
                ] + replaced(rest.skip(1), part@, with@)));
            }
            at += 1;
        } else if stands_at(&all, &wanted, at) {
            result.append(with);
            proof {
                assert(rest.subrange(0, part@.len() as int) =~= text@.subrange(
                    at as int,
                    at + part@.len(),
                ));
                assert(rest.skip(part@.len() as int) =~= text@.skip(at + part@.len()));
                assert(result@ + replaced(rest.skip(part@.len() as int), part@, with@) =~= before
                    + (with@ + replaced(rest.skip(part@.len() as int), part@, with@)));
            }
            at += wanted.len();
        } else {
            result.push(all[at]);
            proof {
                if rest.len() >= part@.len() {
                    assert(rest.subrange(0, part@.len() as int) =~= text@.subrange(
                        at as int,
                        at + part@.len(),
                    ));
                }
                assert(rest.skip(1) =~= text@.skip(at as int + 1));
                if rest.len() < part@.len() {
                    lemma_replaced_short(rest, part@, with@);
                    lemma_replaced_short(rest.skip(1), part@, with@);
                    assert(rest =~= seq![rest[0]] + rest.skip(1));
                }
                assert(result@ + replaced(rest.skip(1), part@, with@) =~= before + (seq![rest[0]]
                    + replaced(rest.skip(1), part@, with@)));
            }
            at += 1;
        }
    }
    let ghost before = result@;
    if wanted.len() == 0 {
        result.append(with);
    }
    proof {
        assert(text@.skip(at as int) =~= Seq::empty());
        assert(before + replaced(Seq::empty(), part@, with@) =~= result@);
    }
    result
}

proof fn lemma_replaced_short(text: Seq<char>, part: Seq<char>, with: Seq<char>)
    requires
        text.len() < part.len(),
    ensures
        replaced(text, part, with) == text,
{
}

/// The words of a text, with one space between them.
pub open spec fn words_joined(text: Seq<char>) -> Seq<char>
    decreases text.len(),
{
    let rest = text.skip(leading(text) as int);
    let end = word_length(rest);
    if leading(text) >= text.len() {
        Seq::empty()
    } else {
        proof {
            lemma_leading(text);
            lemma_word_length(rest);
        }
        let more = words_joined(rest.skip(end as int));
        if more.len() == 0 {
            rest.take(end as int)
        } else {
            rest.take(end as int) + seq![' '] + more
        }
    }
}

/// How many characters a text begins with that separate no words.
pub open spec fn word_length(text: Seq<char>) -> nat
    decreases text.len(),
{
    if text.len() > 0 && !is_space(text[0]) {
        1 + word_length(text.drop_first())
    } else {
        0
    }
}

pub proof fn lemma_word_length(text: Seq<char>)
    ensures
        word_length(text) <= text.len(),
        text.len() > 0 && !is_space(text[0]) ==> word_length(text) > 0,
    decreases text.len(),
{
    if text.len() > 0 && !is_space(text[0]) {
        lemma_word_length(text.drop_first());
    }
}

/// Joins the words of a text with one space between them.
pub fn join_words(text: &str) -> (result: String)
    ensures
        result@ == words_joined(text@),
{
    let all = chars(text);
    let mut result = String::new();
    let mut at: usize = 0;
    proof {
        assert(text@.skip(0) =~= text@);
        assert(result@ + words_joined(text@) =~= words_joined(text@));
    }
    while at < all.len()
        invariant
            at <= all.len(),
            all@ == text@,
            at == 0 ==> result@.len() == 0,
            joined_with(result@, words_joined(text@.skip(at as int))) == words_joined(text@),
        decreases all.len() - at,
    {
        let ghost from = at;
        let ghost rest = text@.skip(at as int);
        let ghost before = result@;
        proof {
            lemma_leading(rest);
        }
        while at < all.len() && space(all[at])
            invariant
                from <= at <= all.len(),
                all@ == text@,
                rest == text@.skip(from as int),
                leading(rest) == at - from + leading(text@.skip(at as int)),
            decreases all.len() - at,
        {
            proof {
                assert(text@.skip(at as int)[0] == text@[at as int]);
                assert(text@.skip(at as int).drop_first() =~= text@.skip(at as int + 1));
            }
            at += 1;
        }
        let ghost start = at;
        let ghost word = text@.skip(at as int);
        proof {
            if at < all.len() {
                assert(word[0] == text@[at as int]);
            }
            assert(leading(word) == 0);
            assert(leading(rest) == start - from);
            assert(rest.skip(leading(rest) as int) =~= word);
            lemma_word_length(word);
        }
        if at < all.len() {
            if result.as_str().unicode_len() > 0 {
                result.push(' ');
            }
            let ghost head = result@;
            while at < all.len() && !space(all[at])
                invariant
                    start <= at <= all.len(),
                    all@ == text@,
                    word == text@.skip(start as int),
                    result@ == head + word.take(at - start),
                    word_length(word) == at - start + word_length(text@.skip(at as int)),
                decreases all.len() - at,
            {
                result.push(all[at]);
                proof {
                    assert(text@.skip(at as int)[0] == text@[at as int]);
                    assert(text@.skip(at as int).drop_first() =~= text@.skip(at as int + 1));
                    assert(word.take(at - start).push(text@[at as int]) =~= word.take(
                        at + 1 - start,
                    ));
                }
                at += 1;
            }
            proof {
                if at < all.len() {
                    assert(text@.skip(at as int)[0] == text@[at as int]);
                }
                assert(word_length(word) == at - start);
                assert(word.skip(at - start) =~= text@.skip(at as int));
                let more = words_joined(text@.skip(at as int));
                assert(joined_with(result@, more) =~= joined_with(before, words_joined(rest)));
            }
        } else {
            proof {
                assert(words_joined(rest) =~= Seq::empty());
                assert(text@.skip(at as int) =~= Seq::empty());
                assert(words_joined(text@.skip(at as int)) =~= Seq::empty());
            }
        }
    }
    proof {
        assert(text@.skip(at as int) =~= Seq::empty());
        assert(words_joined(text@.skip(at as int)) =~= Seq::empty());
    }
    result
}

/// Two texts with a space between them, where both hold something.
spec fn joined_with(left: Seq<char>, right: Seq<char>) -> Seq<char> {
    if left.len() == 0 {
        right
    } else if right.len() == 0 {
        left
    } else {
        left + seq![' '] + right
    }
}

/// The part of a text before the first occurrence of a character.
pub open spec fn before_char(text: Seq<char>, mark: char) -> Seq<char>
    decreases text.len(),
{
    if text.len() == 0 || text[0] == mark {
        Seq::empty()
    } else {
        seq![text[0]] + before_char(text.drop_first(), mark)
    }
}

/// The part of a text before the first occurrence of a character.
pub fn until(text: &str, mark: char) -> (result: String)
    ensures
        result@ == before_char(text@, mark),
{
    let all = chars(text);
    let mut result = String::new();
    let mut index: usize = 0;
    proof {
        assert(text@.skip(0) =~= text@);
        assert(result@ + before_char(text@, mark) =~= before_char(text@, mark));
    }
    while index < all.len() && all[index] != mark
        invariant
            index <= all.len(),
            all@ == text@,
            result@ + before_char(text@.skip(index as int), mark) == before_char(text@, mark),
        decreases all.len() - index,
    {
        let ghost before = result@;
        result.push(all[index]);
        proof {
            let rest = text@.skip(index as int);
            assert(rest[0] == text@[index as int]);
            assert(rest.drop_first() =~= text@.skip(index as int + 1));
            assert(result@ + before_char(rest.drop_first(), mark) =~= before + before_char(
                rest,
                mark,
            ));
        }
        index += 1;
    }
    proof {
        let rest = text@.skip(index as int);
        if index < all.len() {
            assert(rest[0] == text@[index as int]);
        }
        assert(result@ + Seq::<char>::empty() =~= result@);
    }
    result
}

/// The number of bytes of a text in UTF-8.
pub fn byte_length(text: &str) -> (result: usize)
    ensures
        result == vstd::utf8::encode_utf8(text@).len(),
{
    text.as_bytes().len()
}

/// The same text, where there is one.
pub fn copy_text(text: &Option<String>) -> (result: Option<String>)
    ensures
        result == *text,
{
    match text {
        Some(content) => Some(content.clone()),
        None => None,
    }
}

/// Changing letters to lower case keeps every other character and is done once. No capital ASCII
/// letter is left.
pub proof fn law_lower_case(text: Seq<char>, at: int)
    requires
        0 <= at < text.len(),
    ensures
        lower(text).len() == text.len(),
        !('A' <= text[at] <= 'Z') ==> lower(text)[at] == text[at],
        'A' <= text[at] <= 'Z' ==> lower(text)[at] as int == text[at] as int + 32,
        !('A' <= lower(text)[at] <= 'Z'),
        lower(lower(text)) == lower(text),
{
    assert(lower(lower(text)) =~= lower(text));
}

/// A number is told by its digits: they say which number it is, and none of them is left out.
pub proof fn law_decimal_digits(value: nat)
    ensures
        decimal(value).len() > 0,
        decimal(value).last() == digit(value),
        value >= 10 ==> decimal(value).drop_last() == decimal(value / 10),
        value < 10 ==> decimal(value) == seq![digit(value)],
        forall|i: int| 0 <= i < decimal(value).len() ==> '0' <= #[trigger] decimal(value)[i] <= '9',
        value > 0 ==> decimal(value)[0] != '0',
    decreases value,
{
    if value >= 10 {
        law_decimal_digits(value / 10);
        assert(decimal(value).drop_last() =~= decimal(value / 10));
    }
}

/// What stands before a character in a text is the longest beginning without that character.
pub proof fn law_part_before_a_character(text: Seq<char>, mark: char)
    ensures
        before_char(text, mark).len() <= text.len(),
        before_char(text, mark) == text.take(before_char(text, mark).len() as int),
        !before_char(text, mark).contains(mark),
        before_char(text, mark).len() < text.len() ==> text[before_char(text, mark).len() as int]
            == mark,
    decreases text.len(),
{
    if text.len() > 0 && text[0] != mark {
        let rest = text.drop_first();
        law_part_before_a_character(rest, mark);
        let part = before_char(rest, mark);
        let whole = before_char(text, mark);
        assert(whole =~= text.take(whole.len() as int));
        if whole.contains(mark) {
            let k = choose|k: int| 0 <= k < whole.len() && whole[k] == mark;
            assert(part[k - 1] == mark);
            assert(part.contains(mark));
        }
    } else {
        assert(before_char(text, mark) =~= text.take(0));
    }
}

/// A text in which a part does not occur is left as it is when that part is replaced.
pub proof fn law_nothing_else_is_replaced(text: Seq<char>, part: Seq<char>, with: Seq<char>)
    requires
        part.len() > 0,
        !occurs(text, part),
    ensures
        replaced(text, part, with) == text,
    decreases text.len(),
{
    if text.len() >= part.len() {
        assert(!occurs_at(text, part, 0));
        let rest = text.skip(1);
        assert(!occurs(rest, part)) by {
            if occurs(rest, part) {
                let at = choose|at: int| #[trigger] occurs_at(rest, part, at);
                assert(text.subrange(at + 1, at + 1 + part.len()) =~= rest.subrange(
                    at,
                    at + part.len(),
                ));
                assert(occurs_at(text, part, at + 1));
            }
        }
        law_nothing_else_is_replaced(rest, part, with);
        assert(seq![text[0]] + rest =~= text);
    }
}

/// A part at the beginning of a text is replaced, and the rest as if it stood alone.
pub proof fn law_parts_are_replaced_from_the_left(
    text: Seq<char>,
    part: Seq<char>,
    with: Seq<char>,
)
    requires
        part.len() > 0,
    ensures
        replaced(part + text, part, with) == with + replaced(text, part, with),
{
    let whole = part + text;
    assert(whole.subrange(0, part.len() as int) =~= part);
    assert(whole.skip(part.len() as int) =~= text);
}

/// Parts are joined with the separator between every two, and none before the first or behind the
/// last.
pub proof fn law_parts_are_joined_in_order(
    parts: Seq<Seq<char>>,
    separator: Seq<char>,
    last: Seq<char>,
)
    ensures
        joined(Seq::empty(), separator).len() == 0,
        joined(seq![last], separator) == last,
        parts.len() > 0 ==> joined(parts.push(last), separator) == joined(parts, separator)
            + separator + last,
{
    assert(parts.push(last).drop_last() =~= parts);
}

} // verus!
