//! Taking credentials, embedded images and long tokens out of text that is shown to people.

use vstd::prelude::*;

use crate::text::{
    chars, find_from, first_at, law_nothing_else_is_replaced, lemma_first_at, lemma_first_at_skip,
    lower, lower_char, occurs, occurs_at, replace, replaced, slice, to_lower_char,
};

verus! {

/// What stands in a text in place of the credential.
pub const REDACTED_KEY: &'static str = "[redacted FAL_KEY]";

/// What stands in a text in place of an embedded image.
pub const REDACTED_URI: &'static str = "[redacted data URI]";

/// What stands in a text in place of a long token.
pub const REDACTED_TOKEN: &'static str = "[redacted token]";

/// How an embedded image begins, in any case.
pub const URI_MARK: &'static str = "data:image/";

/// What stands before the contents of an embedded image.
pub const PAYLOAD_MARK: &'static str = ";base64,";

/// The number of characters from which a token is long.
pub const LONG_TOKEN: usize = 64;

/// The characters of encoded contents and, with dots, those of a token.
pub open spec fn is_part(c: char, dots: bool) -> bool {
    ||| 'a' <= c <= 'z'
    ||| 'A' <= c <= 'Z'
    ||| '0' <= c <= '9'
    ||| c == '+'
    ||| c == '/'
    ||| c == '_'
    ||| c == '-'
    ||| c == '='
    ||| dots && (c == '.' || c == ':')
}

fn part(c: char, dots: bool) -> (result: bool)
    ensures
        result == is_part(c, dots),
{
    ('a' <= c && c <= 'z') || ('A' <= c && c <= 'Z') || ('0' <= c && c <= '9') || c == '+' || c
        == '/' || c == '_' || c == '-' || c == '=' || (dots && (c == '.' || c == ':'))
}

/// How many characters of the kind a text begins with.
pub open spec fn run_length(text: Seq<char>, dots: bool) -> nat
    decreases text.len(),
{
    if text.len() > 0 && is_part(text[0], dots) {
        1 + run_length(text.skip(1), dots)
    } else {
        0
    }
}

pub proof fn lemma_run_length(text: Seq<char>, dots: bool)
    ensures
        run_length(text, dots) <= text.len(),
        forall|i: int| 0 <= i < run_length(text, dots) ==> is_part(#[trigger] text[i], dots),
        run_length(text, dots) < text.len() ==> !is_part(
            text[run_length(text, dots) as int],
            dots,
        ),
    decreases text.len(),
{
    if text.len() > 0 && is_part(text[0], dots) {
        let rest = text.skip(1);
        lemma_run_length(rest, dots);
        assert forall|i: int| 0 <= i < run_length(text, dots) implies is_part(
            #[trigger] text[i],
            dots,
        ) by {
            if i > 0 {
                assert(rest[i - 1] == text[i]);
            }
        }
    }
}

/// Where the characters of the kind end that begin at a place.
fn run_end(text: &Vec<char>, from: usize, dots: bool) -> (result: usize)
    requires
        from <= text.len(),
    ensures
        from <= result <= text.len(),
        result == from + run_length(text@.skip(from as int), dots),
{
    let mut end: usize = from;
    while end < text.len() && part(text[end], dots)
        invariant
            from <= end <= text.len(),
            from + run_length(text@.skip(from as int), dots) == end + run_length(
                text@.skip(end as int),
                dots,
            ),
        decreases text.len() - end,
    {
        proof {
            let rest = text@.skip(end as int);
            assert(rest[0] == text@[end as int]);
            assert(rest.skip(1) =~= text@.skip(end as int + 1));
        }
        end += 1;
    }
    proof {
        let rest = text@.skip(end as int);
        if end < text.len() {
            assert(rest[0] == text@[end as int]);
        }
    }
    end
}

/// Where an embedded image ends that begins at a place: behind its contents, where it has any
/// after that place, and otherwise where its first word ends.
pub open spec fn uri_end(text: Seq<char>, start: int) -> int {
    let payload = match first_at(text, PAYLOAD_MARK@, start) {
        Some(at) => at + PAYLOAD_MARK@.len(),
        None => start,
    };
    payload + run_length(text.skip(payload), false)
}

pub proof fn lemma_uri_end(text: Seq<char>, start: int)
    requires
        occurs_at(lower(text), URI_MARK@, start),
    ensures
        start < uri_end(text, start) <= text.len(),
{
    reveal_strlit("data:image/");
    reveal_strlit(";base64,");
    lemma_first_at(text, PAYLOAD_MARK@, start);
    match first_at(text, PAYLOAD_MARK@, start) {
        Some(at) => {
            lemma_run_length(text.skip(at + PAYLOAD_MARK@.len()), false);
        },
        None => {
            lemma_run_length(text.skip(start), false);
            assert(lower(text).subrange(start, start + URI_MARK@.len())[0] == 'd');
            assert(lower_char(text[start]) == 'd');
            assert(text.skip(start)[0] == text[start]);
        },
    }
}

/// A text in which every embedded image is redacted.
pub open spec fn without_uris(text: Seq<char>) -> Seq<char>
    decreases text.len(),
{
    match first_at(lower(text), URI_MARK@, 0) {
        None => text,
        Some(start) => {
            let end = uri_end(text, start);
            proof {
                lemma_first_at(lower(text), URI_MARK@, 0);
                lemma_uri_end(text, start);
            }
            text.take(start) + REDACTED_URI@ + without_uris(text.skip(end))
        },
    }
}

/// A text in which every long token is redacted.
pub open spec fn without_tokens(text: Seq<char>) -> Seq<char>
    decreases text.len(),
{
    let length = run_length(text, true);
    if text.len() == 0 {
        text
    } else if length == 0 {
        seq![text[0]] + without_tokens(text.skip(1))
    } else {
        proof {
            lemma_run_length(text, true);
        }
        (if length >= LONG_TOKEN {
            REDACTED_TOKEN@
        } else {
            text.take(length as int)
        }) + without_tokens(text.skip(length as int))
    }
}

/// A text without the credential, embedded images and long tokens.
pub open spec fn redacted(text: Seq<char>, key: Seq<char>) -> Seq<char> {
    without_tokens(without_uris(replaced(text, key, REDACTED_KEY@)))
}

fn lower_chars(text: &Vec<char>) -> (result: Vec<char>)
    ensures
        result@ == lower(text@),
{
    let mut result: Vec<char> = Vec::new();
    let mut index: usize = 0;
    while index < text.len()
        invariant
            index <= text.len(),
            result@ == lower(text@).take(index as int),
        decreases text.len() - index,
    {
        result.push(to_lower_char(text[index]));
        index += 1;
        proof {
            assert(lower(text@).take(index as int) =~= lower(text@).take(index - 1).push(
                lower(text@)[index - 1],
            ));
        }
    }
    proof {
        assert(lower(text@).take(index as int) =~= lower(text@));
    }
    result
}

fn redact_uris(text: &Vec<char>) -> (result: String)
    ensures
        result@ == without_uris(text@),
{
    let small = lower_chars(text);
    let mark = chars(URI_MARK);
    let payload_mark = chars(PAYLOAD_MARK);
    let mut result = String::new();
    let mut from: usize = 0;
    proof {
        assert(text@.skip(0) =~= text@);
        assert(result@ + without_uris(text@) =~= without_uris(text@));
    }
    loop
        invariant
            from <= text.len(),
            small@ == lower(text@),
            mark@ == URI_MARK@,
            payload_mark@ == PAYLOAD_MARK@,
            result@ + without_uris(text@.skip(from as int)) == without_uris(text@),
        decreases text.len() - from,
    {
        let ghost rest = text@.skip(from as int);
        proof {
            assert(lower(rest) =~= lower(text@).skip(from as int));
            lemma_first_at_skip(lower(text@), URI_MARK@, from as int, from as int);
        }
        match find_from(&small, &mark, from) {
            None => {
                let tail = slice(text, from, text.len());
                result.append(tail.as_str());
                proof {
                    assert(tail@ =~= rest);
                }
                return result;
            },
            Some(start) => {
                let ghost before = result@;
                proof {
                    lemma_first_at(lower(rest), URI_MARK@, 0);
                    lemma_uri_end(rest, start - from);
                    lemma_first_at_skip(text@, PAYLOAD_MARK@, start as int, from as int);
                }
                let payload: usize = match find_from(text, &payload_mark, start) {
                    Some(at) => at + payload_mark.len(),
                    None => start,
                };
                let end = run_end(text, payload, false);
                proof {
                    assert(rest.skip(payload - from) =~= text@.skip(payload as int));
                    assert(end - from == uri_end(rest, start - from));
                }
                let kept = slice(text, from, start);
                result.append(kept.as_str());
                result.append(REDACTED_URI);
                proof {
                    assert(kept@ =~= rest.take(start - from));
                    assert(rest.skip(end - from) =~= text@.skip(end as int));
                    assert(result@ + without_uris(text@.skip(end as int)) =~= before
                        + without_uris(rest));
                }
                from = end;
            },
        }
    }
}

fn redact_tokens(text: &Vec<char>) -> (result: String)
    ensures
        result@ == without_tokens(text@),
{
    let mut result = String::new();
    let mut from: usize = 0;
    proof {
        assert(text@.skip(0) =~= text@);
        assert(result@ + without_tokens(text@) =~= without_tokens(text@));
    }
    while from < text.len()
        invariant
            from <= text.len(),
            result@ + without_tokens(text@.skip(from as int)) == without_tokens(text@),
        decreases text.len() - from,
    {
        let ghost rest = text@.skip(from as int);
        let ghost before = result@;
        let end = run_end(text, from, true);
        if end == from {
            result.push(text[from]);
            proof {
                assert(rest.skip(1) =~= text@.skip(from as int + 1));
                assert(result@ + without_tokens(rest.skip(1)) =~= before + without_tokens(rest));
            }
            from += 1;
        } else {
            if end - from >= LONG_TOKEN {
                result.append(REDACTED_TOKEN);
            } else {
                let kept = slice(text, from, end);
                result.append(kept.as_str());
                proof {
                    assert(kept@ =~= rest.take(end - from));
                }
            }
            proof {
                assert(rest.skip(end - from) =~= text@.skip(end as int));
                assert(result@ + without_tokens(rest.skip(end - from)) =~= before
                    + without_tokens(rest));
            }
            from = end;
        }
    }
    proof {
        assert(text@.skip(from as int) =~= Seq::empty());
        assert(result@ + Seq::<char>::empty() =~= result@);
    }
    result
}

/// Takes the credential, embedded images and long tokens out of a text.
pub fn redact_sensitive(value: &str, key: &str) -> (result: String)
    ensures
        result@ == redacted(value@, key@),
{
    let keyless = replace(value, key, REDACTED_KEY);
    let imageless = redact_uris(&chars(keyless.as_str()));
    redact_tokens(&chars(imageless.as_str()))
}

/// No stretch of a text is a long token.
pub open spec fn free_of_tokens(text: Seq<char>) -> bool {
    forall|i: int|
        0 <= i && i + LONG_TOKEN <= text.len() ==> #[trigger] run_length(text.skip(i), true)
            < LONG_TOKEN
}

/// An embedded image begins nowhere in a text.
pub open spec fn free_of_uris(text: Seq<char>) -> bool {
    !occurs(lower(text), URI_MARK@)
}

proof fn lemma_mark_chars(j: int, c: char)
    requires
        0 <= j < URI_MARK@.len(),
        lower_char(c) == URI_MARK@[j],
    ensures
        is_part(c, true),
        c != '[' && c != ']' && c != ' ',
{
    reveal_strlit("data:image/");
}

proof fn lemma_mark_at(text: Seq<char>, at: int, j: int)
    requires
        occurs_at(lower(text), URI_MARK@, at),
        0 <= j < URI_MARK@.len(),
    ensures
        lower_char(text[at + j]) == URI_MARK@[j],
        is_part(text[at + j], true),
        text[at + j] != '[' && text[at + j] != ']' && text[at + j] != ' ',
{
    assert(lower(text).subrange(at, at + URI_MARK@.len())[j] == URI_MARK@[j]);
    lemma_mark_chars(j, text[at + j]);
}

/// A part of a text that agrees with a part of another holds the mark where the other does.
proof fn lemma_mark_moves(left: Seq<char>, right: Seq<char>, at: int, shift: int)
    requires
        occurs_at(lower(left), URI_MARK@, at),
        0 <= at + shift,
        at + shift + URI_MARK@.len() <= right.len(),
        forall|i: int| at <= i < at + URI_MARK@.len() ==> #[trigger] left[i] == right[i + shift],
    ensures
        occurs_at(lower(right), URI_MARK@, at + shift),
{
    assert(lower(right).subrange(at + shift, at + shift + URI_MARK@.len()) =~= lower(
        left,
    ).subrange(at, at + URI_MARK@.len()));
}

proof fn lemma_free_of_uris(text: Seq<char>)
    ensures
        free_of_uris(without_uris(text)),
    decreases text.len(),
{
    lemma_first_at(lower(text), URI_MARK@, 0);
    match first_at(lower(text), URI_MARK@, 0) {
        None => {
            assert forall|at: int| !#[trigger] occurs_at(lower(text), URI_MARK@, at) by {
                if at < 0 {
                }
            }
        },
        Some(start) => {
            let end = uri_end(text, start);
            lemma_uri_end(text, start);
            let rest = without_uris(text.skip(end));
            let whole = text.take(start) + REDACTED_URI@ + rest;
            lemma_free_of_uris(text.skip(end));
            reveal_strlit("[redacted data URI]");
            reveal_strlit("data:image/");
            assert forall|at: int| !#[trigger] occurs_at(lower(whole), URI_MARK@, at) by {
                if occurs_at(lower(whole), URI_MARK@, at) {
                    let behind = start + REDACTED_URI@.len();
                    if at + URI_MARK@.len() <= start {
                        lemma_mark_moves(whole, text, at, 0);
                        assert(occurs_at(lower(text), URI_MARK@, at + 0));
                    } else if at <= start {
                        lemma_mark_at(whole, at, start - at);
                        assert(whole[start] == '[');
                    } else if at >= behind {
                        lemma_mark_moves(whole, rest, at, -behind);
                    } else if at + URI_MARK@.len() >= behind {
                        lemma_mark_at(whole, at, behind - 1 - at);
                        assert(whole[behind - 1] == ']');
                    } else {
                        lemma_mark_at(whole, at, 0);
                        lemma_mark_at(whole, at, 2);
                        assert(whole[at] == REDACTED_URI@[at - start]);
                        assert(whole[at + 2] == REDACTED_URI@[at + 2 - start]);
                    }
                }
            }
        },
    }
}

proof fn lemma_tokens_keep_first(text: Seq<char>)
    requires
        run_length(text, true) == 0,
    ensures
        text.len() == 0 ==> without_tokens(text).len() == 0,
        text.len() > 0 ==> without_tokens(text).len() > 0 && without_tokens(text)[0] == text[0],
{
}

proof fn lemma_tokens_keep_free_of_uris(text: Seq<char>)
    requires
        free_of_uris(text),
    ensures
        free_of_uris(without_tokens(text)),
    decreases text.len(),
{
    let length = run_length(text, true);
    let whole = without_tokens(text);
    lemma_run_length(text, true);
    reveal_strlit("data:image/");
    if text.len() > 0 {
        let cut = if length == 0 {
            1
        } else {
            length as int
        };
        let remaining = text.skip(cut);
        let rest = without_tokens(remaining);
        assert(free_of_uris(remaining)) by {
            assert forall|at: int| !#[trigger] occurs_at(lower(remaining), URI_MARK@, at) by {
                if occurs_at(lower(remaining), URI_MARK@, at) {
                    lemma_mark_moves(remaining, text, at, cut);
                }
            }
        }
        lemma_tokens_keep_free_of_uris(remaining);
        if length > 0 {
            assert(run_length(remaining, true) == 0);
            lemma_tokens_keep_first(remaining);
        }
        reveal_strlit("[redacted token]");
        assert forall|at: int| !#[trigger] occurs_at(lower(whole), URI_MARK@, at) by {
            if occurs_at(lower(whole), URI_MARK@, at) {
                if length == 0 {
                    if at == 0 {
                        lemma_mark_at(whole, at, 0);
                        assert(whole[0] == text[0]);
                    } else {
                        lemma_mark_moves(whole, rest, at, -1);
                    }
                } else {
                    let head = if length >= LONG_TOKEN {
                        REDACTED_TOKEN@
                    } else {
                        text.take(length as int)
                    };
                    let behind = head.len();
                    assert(whole == head + rest);
                    if at >= behind {
                        lemma_mark_moves(whole, rest, at, -behind);
                    } else if at + URI_MARK@.len() > behind {
                        lemma_mark_at(whole, at, behind - at);
                        assert(whole[behind as int] == rest[0]);
                        assert(remaining[0] == text[length as int]);
                    } else if length >= LONG_TOKEN {
                        if at == 0 {
                            lemma_mark_at(whole, at, 0);
                            assert(whole[0] == head[0]);
                        } else if at + URI_MARK@.len() == behind {
                            lemma_mark_at(whole, at, 10);
                            assert(whole[15] == head[15]);
                        } else {
                            lemma_mark_at(whole, at, 9 - at);
                            assert(whole[9] == head[9]);
                        }
                    } else {
                        lemma_mark_moves(whole, text, at, 0);
                        assert(occurs_at(lower(text), URI_MARK@, at + 0));
                    }
                }
            }
        }
    }
}

/// A run that meets another character within some length is shorter than that.
proof fn lemma_run_stops(text: Seq<char>, at: int)
    requires
        0 <= at < text.len(),
        !is_part(text[at], true),
    ensures
        run_length(text, true) <= at,
{
    lemma_run_length(text, true);
}

proof fn lemma_free_of_tokens(text: Seq<char>)
    ensures
        free_of_tokens(without_tokens(text)),
    decreases text.len(),
{
    let length = run_length(text, true);
    let whole = without_tokens(text);
    lemma_run_length(text, true);
    if text.len() > 0 {
        let cut = if length == 0 {
            1
        } else {
            length as int
        };
        let remaining = text.skip(cut);
        let rest = without_tokens(remaining);
        lemma_free_of_tokens(remaining);
        if length > 0 {
            assert(run_length(remaining, true) == 0);
            lemma_tokens_keep_first(remaining);
        }
        reveal_strlit("[redacted token]");
        let head = if length == 0 {
            seq![text[0]]
        } else if length >= LONG_TOKEN {
            REDACTED_TOKEN@
        } else {
            text.take(length as int)
        };
        assert(whole == head + rest);
        assert forall|i: int| 0 <= i && i + LONG_TOKEN <= whole.len() implies #[trigger] run_length(
            whole.skip(i),
            true,
        ) < LONG_TOKEN by {
            if i >= head.len() {
                assert(whole.skip(i) =~= rest.skip(i - head.len()));
            } else if length == 0 {
                assert(whole.skip(i)[0] == text[0]);
            } else {
                let place = head.len() - i;
                assert(whole.skip(i)[place] == rest[0]);
                assert(remaining[0] == text[length as int]);
                lemma_run_stops(whole.skip(i), place);
            }
        }
    }
}

/// What is shown holds no embedded image and no long token, whatever the text and the
/// credential were.
pub proof fn law_nothing_long_is_shown(text: Seq<char>, key: Seq<char>)
    ensures
        free_of_uris(redacted(text, key)),
        free_of_tokens(redacted(text, key)),
{
    let keyless = replaced(text, key, REDACTED_KEY@);
    lemma_free_of_uris(keyless);
    lemma_tokens_keep_free_of_uris(without_uris(keyless));
    lemma_free_of_tokens(without_uris(keyless));
}

/// A credential that cannot be taken for a part of what is put in its place: it has no brackets
/// and does not stand in the texts between them.
pub open spec fn plain_key(key: Seq<char>) -> bool {
    &&& key.len() > 0
    &&& !key.contains('[')
    &&& !key.contains(']')
    &&& !occurs(REDACTED_KEY@, key)
    &&& !occurs(REDACTED_URI@, key)
    &&& !occurs(REDACTED_TOKEN@, key)
}

/// A text in brackets.
spec fn bracketed(text: Seq<char>) -> bool {
    text.len() >= 2 && text[0] == '[' && text.last() == ']'
}

proof fn lemma_bracketed()
    ensures
        bracketed(REDACTED_KEY@),
        bracketed(REDACTED_URI@),
        bracketed(REDACTED_TOKEN@),
{
    reveal_strlit("[redacted FAL_KEY]");
    reveal_strlit("[redacted data URI]");
    reveal_strlit("[redacted token]");
}

proof fn lemma_key_at(text: Seq<char>, key: Seq<char>, at: int, j: int)
    requires
        occurs_at(text, key, at),
        plain_key(key),
        0 <= j < key.len(),
    ensures
        text[at + j] == key[j],
        text[at + j] != '[' && text[at + j] != ']',
{
    assert(text.subrange(at, at + key.len())[j] == key[j]);
    assert(key.contains(key[j]));
}

proof fn lemma_key_moves(left: Seq<char>, right: Seq<char>, key: Seq<char>, at: int, shift: int)
    requires
        occurs_at(left, key, at),
        0 <= at + shift,
        at + shift + key.len() <= right.len(),
        forall|i: int| at <= i < at + key.len() ==> #[trigger] left[i] == right[i + shift],
    ensures
        occurs_at(right, key, at + shift),
{
    assert(right.subrange(at + shift, at + shift + key.len()) =~= left.subrange(
        at,
        at + key.len(),
    ));
}

/// A credential that occurs neither before, nor behind, nor in a text in brackets occurs nowhere.
proof fn lemma_around(before: Seq<char>, middle: Seq<char>, behind: Seq<char>, key: Seq<char>)
    requires
        plain_key(key),
        bracketed(middle),
        !occurs(before, key),
        !occurs(middle, key),
        !occurs(behind, key),
    ensures
        !occurs(before + middle + behind, key),
{
    let whole = before + middle + behind;
    let start = before.len();
    let end = start + middle.len();
    assert forall|at: int| !#[trigger] occurs_at(whole, key, at) by {
        if occurs_at(whole, key, at) {
            if at + key.len() <= start {
                lemma_key_moves(whole, before, key, at, 0);
                assert(occurs_at(before, key, at + 0));
            } else if at <= start {
                lemma_key_at(whole, key, at, start - at);
                assert(whole[start as int] == middle[0]);
            } else if at >= end {
                lemma_key_moves(whole, behind, key, at, -end);
            } else if at + key.len() >= end {
                lemma_key_at(whole, key, at, end - 1 - at);
                assert(whole[end - 1] == middle.last());
            } else {
                lemma_key_moves(whole, middle, key, at, -start);
            }
        }
    }
}

proof fn lemma_part_is_free(text: Seq<char>, key: Seq<char>, from: int, to: int)
    requires
        !occurs(text, key),
        0 <= from <= to <= text.len(),
    ensures
        !occurs(text.subrange(from, to), key),
{
    let part = text.subrange(from, to);
    assert forall|at: int| !#[trigger] occurs_at(part, key, at) by {
        if occurs_at(part, key, at) {
            lemma_key_moves(part, text, key, at, from);
        }
    }
}

/// One sequence begins with another.
spec fn begins(text: Seq<char>, start: Seq<char>) -> bool {
    start.len() <= text.len() && text.take(start.len() as int) == start
}

proof fn lemma_replaced_begins(text: Seq<char>, key: Seq<char>, start: Seq<char>)
    requires
        key.len() > 0,
        !start.contains('['),
        begins(replaced(text, key, REDACTED_KEY@), start),
    ensures
        begins(text, start),
    decreases text.len(),
{
    let whole = replaced(text, key, REDACTED_KEY@);
    lemma_bracketed();
    if start.len() == 0 {
        assert(text.take(0) =~= start);
    } else if text.len() >= key.len() {
        assert(whole.take(start.len() as int)[0] == whole[0]);
        assert(start.contains(start[0]));
        if !occurs_at(text, key, 0) {
            let rest = replaced(text.skip(1), key, REDACTED_KEY@);
            let tail = start.skip(1);
            assert(whole == seq![text[0]] + rest);
            assert forall|c: char| tail.contains(c) implies start.contains(c) by {
                let i = choose|i: int| 0 <= i < tail.len() && tail[i] == c;
                assert(start[i + 1] == c);
            }
            assert(rest.take(tail.len() as int) =~= tail) by {
                assert forall|i: int| 0 <= i < tail.len() implies rest[i] == tail[i] by {
                    assert(whole.take(start.len() as int)[i + 1] == start[i + 1]);
                }
            }
            lemma_replaced_begins(text.skip(1), key, tail);
            assert(text.take(start.len() as int) =~= start) by {
                assert forall|i: int| 0 <= i < start.len() implies text[i] == start[i] by {
                    if i > 0 {
                        assert(text.skip(1).take(tail.len() as int)[i - 1] == tail[i - 1]);
                    }
                }
            }
        }
    }
}

proof fn lemma_key_is_replaced(text: Seq<char>, key: Seq<char>)
    requires
        plain_key(key),
    ensures
        !occurs(replaced(text, key, REDACTED_KEY@), key),
    decreases text.len(),
{
    let whole = replaced(text, key, REDACTED_KEY@);
    lemma_bracketed();
    if text.len() < key.len() {
    } else if occurs_at(text, key, 0) {
        let rest = replaced(text.skip(key.len() as int), key, REDACTED_KEY@);
        lemma_key_is_replaced(text.skip(key.len() as int), key);
        assert(whole =~= Seq::<char>::empty() + REDACTED_KEY@ + rest);
        lemma_around(Seq::empty(), REDACTED_KEY@, rest, key);
    } else {
        let rest = replaced(text.skip(1), key, REDACTED_KEY@);
        lemma_key_is_replaced(text.skip(1), key);
        assert forall|at: int| !#[trigger] occurs_at(whole, key, at) by {
            if occurs_at(whole, key, at) {
                if at == 0 {
                    assert(whole.take(key.len() as int) =~= whole.subrange(0, key.len() as int));
                    lemma_replaced_begins(text, key, key);
                    assert(text.subrange(0, key.len() as int) =~= text.take(key.len() as int));
                } else {
                    lemma_key_moves(whole, rest, key, at, -1);
                }
            }
        }
    }
}

proof fn lemma_uris_keep_free(text: Seq<char>, key: Seq<char>)
    requires
        plain_key(key),
        !occurs(text, key),
    ensures
        !occurs(without_uris(text), key),
    decreases text.len(),
{
    lemma_bracketed();
    lemma_first_at(lower(text), URI_MARK@, 0);
    if let Some(start) = first_at(lower(text), URI_MARK@, 0) {
        let end = uri_end(text, start);
        lemma_uri_end(text, start);
        lemma_part_is_free(text, key, end, text.len() as int);
        assert(text.skip(end) =~= text.subrange(end, text.len() as int));
        lemma_part_is_free(text, key, 0, start);
        assert(text.take(start) =~= text.subrange(0, start));
        lemma_uris_keep_free(text.skip(end), key);
        lemma_around(text.take(start), REDACTED_URI@, without_uris(text.skip(end)), key);
    }
}

proof fn lemma_tokens_begin(text: Seq<char>, start: Seq<char>)
    requires
        !start.contains('['),
        begins(without_tokens(text), start),
    ensures
        begins(text, start),
    decreases text.len(),
{
    let length = run_length(text, true);
    let whole = without_tokens(text);
    lemma_run_length(text, true);
    lemma_bracketed();
    if start.len() == 0 {
        assert(text.take(0) =~= start);
    } else if text.len() > 0 {
        assert(whole.take(start.len() as int)[0] == whole[0]);
        assert(start.contains(start[0]));
        if length < LONG_TOKEN {
            let cut = if length == 0 {
                1
            } else {
                length as int
            };
            let rest = without_tokens(text.skip(cut));
            assert(whole =~= text.take(cut) + rest) by {
                if length == 0 {
                    assert(text.take(1) =~= seq![text[0]]);
                }
            }
            if start.len() <= cut {
                assert(text.take(start.len() as int) =~= whole.take(start.len() as int));
            } else {
                let tail = start.skip(cut);
                assert forall|c: char| tail.contains(c) implies start.contains(c) by {
                    let i = choose|i: int| 0 <= i < tail.len() && tail[i] == c;
                    assert(start[i + cut] == c);
                }
                assert(rest.take(tail.len() as int) =~= tail) by {
                    assert forall|i: int| 0 <= i < tail.len() implies rest[i] == tail[i] by {
                        assert(whole.take(start.len() as int)[i + cut] == start[i + cut]);
                    }
                }
                lemma_tokens_begin(text.skip(cut), tail);
                assert(text.take(start.len() as int) =~= start) by {
                    assert forall|i: int| 0 <= i < start.len() implies text[i] == start[i] by {
                        if i >= cut {
                            assert(text.skip(cut).take(tail.len() as int)[i - cut] == tail[i
                                - cut]);
                        } else {
                            assert(whole.take(start.len() as int)[i] == start[i]);
                        }
                    }
                }
            }
        }
    }
}

proof fn lemma_tokens_keep_free(text: Seq<char>, key: Seq<char>)
    requires
        plain_key(key),
        !occurs(text, key),
    ensures
        !occurs(without_tokens(text), key),
    decreases text.len(),
{
    let length = run_length(text, true);
    let whole = without_tokens(text);
    lemma_run_length(text, true);
    lemma_bracketed();
    if text.len() > 0 {
        let cut = if length == 0 {
            1
        } else {
            length as int
        };
        let remaining = text.skip(cut);
        let rest = without_tokens(remaining);
        lemma_part_is_free(text, key, cut, text.len() as int);
        assert(remaining =~= text.subrange(cut, text.len() as int));
        lemma_tokens_keep_free(remaining, key);
        if length >= LONG_TOKEN {
            assert(whole =~= Seq::<char>::empty() + REDACTED_TOKEN@ + rest);
            lemma_around(Seq::empty(), REDACTED_TOKEN@, rest, key);
        } else {
            assert(whole =~= text.take(cut) + rest) by {
                if length == 0 {
                    assert(text.take(1) =~= seq![text[0]]);
                }
            }
            assert forall|at: int| !#[trigger] occurs_at(whole, key, at) by {
                if occurs_at(whole, key, at) {
                    if at >= cut {
                        lemma_key_moves(whole, rest, key, at, -cut);
                    } else if at + key.len() <= cut {
                        lemma_key_moves(whole, text, key, at, 0);
                        assert(occurs_at(text, key, at + 0));
                    } else {
                        let tail = key.skip(cut - at);
                        assert forall|c: char| tail.contains(c) implies key.contains(c) by {
                            let i = choose|i: int| 0 <= i < tail.len() && tail[i] == c;
                            assert(key[i + cut - at] == c);
                        }
                        assert(rest.take(tail.len() as int) =~= tail) by {
                            assert forall|i: int| 0 <= i < tail.len() implies rest[i]
                                == tail[i] by {
                                lemma_key_at(whole, key, at, i + cut - at);
                            }
                        }
                        lemma_tokens_begin(remaining, tail);
                        assert(text.subrange(at, at + key.len()) =~= key) by {
                            assert forall|j: int| 0 <= j < key.len() implies text[at + j]
                                == key[j] by {
                                lemma_key_at(whole, key, at, j);
                                if at + j >= cut {
                                    assert(remaining.take(tail.len() as int)[at + j - cut]
                                        == tail[at + j - cut]);
                                }
                            }
                        }
                        assert(occurs_at(text, key, at));
                    }
                }
            }
        }
    }
}

/// What is shown does not hold the credential, where the credential cannot be taken for a part of
/// what is put in its place.
pub proof fn law_plain_key_is_not_shown(text: Seq<char>, key: Seq<char>)
    requires
        plain_key(key),
    ensures
        !occurs(redacted(text, key), key),
{
    let keyless = replaced(text, key, REDACTED_KEY@);
    lemma_key_is_replaced(text, key);
    lemma_uris_keep_free(keyless, key);
    lemma_tokens_keep_free(without_uris(keyless), key);
}

/// Nothing is hidden without need: a text that holds neither the credential nor an embedded image
/// nor a run of 64 or more characters that a token may have is shown as it is.
pub proof fn law_harmless_text_is_shown_as_it_is(text: Seq<char>, key: Seq<char>)
    requires
        key.len() > 0,
        !occurs(text, key),
        !occurs(lower(text), "data:image/"@),
        forall|i: int| 0 <= i < text.len() ==> #[trigger] run_length(text.skip(i), true) < 64,
    ensures
        redacted(text, key) == text,
{
    law_nothing_else_is_replaced(text, key, REDACTED_KEY@);
    lemma_first_at(lower(text), URI_MARK@, 0);
    if let Some(start) = first_at(lower(text), URI_MARK@, 0) {
        assert(occurs_at(lower(text), "data:image/"@, start));
    }
    lemma_no_tokens(text);
}

proof fn lemma_no_tokens(text: Seq<char>)
    requires
        forall|i: int| 0 <= i < text.len() ==> #[trigger] run_length(text.skip(i), true) < 64,
    ensures
        without_tokens(text) == text,
    decreases text.len(),
{
    if text.len() > 0 {
        let length = run_length(text, true) as int;
        lemma_run_length(text, true);
        assert(text.skip(0) =~= text);
        assert(run_length(text.skip(0), true) < 64);
        let step = if length == 0 {
            1
        } else {
            length
        };
        let rest = text.skip(step);
        assert forall|i: int| 0 <= i < rest.len() implies #[trigger] run_length(rest.skip(i), true)
            < 64 by {
            assert(rest.skip(i) =~= text.skip(step + i));
            assert(run_length(text.skip(step + i), true) < 64);
        }
        lemma_no_tokens(rest);
        assert(seq![text[0]] + text.skip(1) =~= text);
        assert(text.take(length) + text.skip(length) =~= text);
    }
}

/// A run of 64 or more characters that a token may have is hidden as a whole, and what follows it
/// is shown as if it stood alone.
pub proof fn law_long_tokens_are_hidden(token: Seq<char>, after: Seq<char>)
    requires
        token.len() >= 64,
        forall|i: int| 0 <= i < token.len() ==> is_part(#[trigger] token[i], true),
        after.len() > 0 ==> !is_part(after[0], true),
    ensures
        without_tokens(token + after) == "[redacted token]"@ + without_tokens(after),
{
    let text = token + after;
    lemma_run_length(text, true);
    let length = run_length(text, true) as int;
    assert(length == token.len()) by {
        if length < token.len() {
            assert(text[length] == token[length]);
        }
        if length > token.len() {
            assert(text[token.len() as int] == after[0]);
        }
    }
    assert(text.skip(length) =~= after);
}

} // verus!
