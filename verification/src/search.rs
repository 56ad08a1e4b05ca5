//! Finding a game by what its players are called, or by the start of its name.

use crate::text::{
    chars_of, law_trimming_drops_what_is_around, text_between, trim_chars, trimmed, white_space,
};
use vstd::prelude::*;
use vstd::string::*;

verus! {

/// A text in lower case.
pub uninterp spec fn lowercase(text: Seq<char>) -> Seq<char>;

/// `str::to_lowercase`: the result depends on the text alone.
#[verifier::external_body]
pub(crate) fn lower(text: &str) -> (r: String)
    ensures
        r@ == lowercase(text@),
{
    text.to_lowercase()
}

/// Whether a text has nothing but white space.
pub open spec fn blank(text: Seq<char>) -> bool {
    trimmed(text).len() == 0
}

/// Whether a text has nothing but white space.
pub fn is_blank(text: &str) -> (r: bool)
    ensures
        r == blank(text@),
{
    let cs = chars_of(text);
    trim_chars(&cs).len() == 0
}

/// A text without the white space around it.
pub fn trim_text(text: &str) -> (r: String)
    ensures
        r@ == trimmed(text@),
{
    let cs = chars_of(text);
    let kept = trim_chars(&cs);
    let out = text_between(&kept, 0, kept.len());
    assert(kept@.subrange(0, kept@.len() as int) =~= kept@);
    out
}

/// Whether a text stands in another at a place.
pub open spec fn stands_at(text: Seq<char>, part: Seq<char>, i: int) -> bool {
    0 <= i && i + part.len() <= text.len() && text.subrange(i, i + part.len()) == part
}

/// Whether a text stands anywhere in another.
pub open spec fn has_part(text: Seq<char>, part: Seq<char>) -> bool {
    exists|i: int| #[trigger] stands_at(text, part, i)
}

fn part_at(text: &Vec<char>, part: &Vec<char>, i: usize) -> (r: bool)
    requires
        i + part@.len() <= text@.len(),
    ensures
        r == stands_at(text@, part@, i as int),
{
    let n = text.len();
    let mut j: usize = 0;
    while j < part.len()
        invariant
            j <= part@.len(),
            n == text@.len(),
            i + part@.len() <= text@.len(),
            forall|k: int| 0 <= k < j ==> text@[i + k] == #[trigger] part@[k],
        decreases part.len() - j,
    {
        if text[i + j] != part[j] {
            assert(text@.subrange(i as int, i + part@.len())[j as int] != part@[j as int]);
            return false;
        }
        j = j + 1;
    }
    assert(text@.subrange(i as int, i + part@.len()) =~= part@);
    true
}

/// Whether a text stands anywhere in another.
pub fn contains_text(text: &str, part: &str) -> (r: bool)
    ensures
        r == has_part(text@, part@),
{
    let t = chars_of(text);
    let p = chars_of(part);
    if p.len() > t.len() {
        return false;
    }
    if p.len() == 0 {
        assert(text@.subrange(0, 0) =~= part@);
        assert(stands_at(text@, part@, 0));
        return true;
    }
    let last: usize = t.len() - p.len();
    let mut i: usize = 0;
    while i <= last
        invariant
            t@ == text@,
            p@ == part@,
            last + p@.len() == t@.len(),
            last < usize::MAX,
            i <= last + 1,
            forall|k: int| 0 <= k < i ==> !#[trigger] stands_at(text@, part@, k),
        decreases last + 1 - i,
    {
        if part_at(&t, &p, i) {
            return true;
        }
        i = i + 1;
    }
    proof {
        if has_part(text@, part@) {
            let k = choose|k: int| #[trigger] stands_at(text@, part@, k);
            assert(0 <= k <= last);
        }
    }
    false
}

/// Whether a text starts with another.
pub fn starts_with_text(text: &str, part: &str) -> (r: bool)
    ensures
        r == stands_at(text@, part@, 0),
{
    let t = chars_of(text);
    let p = chars_of(part);
    if p.len() > t.len() {
        return false;
    }
    part_at(&t, &p, 0)
}

/// What is looked for, given the query in lower case.
pub open spec fn needle_of(query: Seq<char>) -> Seq<char> {
    lowercase(trimmed(query))
}

/// Whether a game is found, given its players' names and its own in lower
/// case.
pub open spec fn found(
    white: Seq<char>,
    black: Seq<char>,
    id: Seq<char>,
    needle: Seq<char>,
) -> bool {
    has_part(white, needle) || has_part(black, needle) || stands_at(id, needle, 0)
}

/// Whether a game is found, given its players' names and its own in lower
/// case.
pub fn is_found(white: &str, black: &str, id: &str, needle: &str) -> (r: bool)
    ensures
        r == found(white@, black@, id@, needle@),
{
    contains_text(white, needle) || contains_text(black, needle) || starts_with_text(id, needle)
}

/// A text that was put together has each of its parts where it was put.
proof fn lemma_put_together(a: Seq<char>, part: Seq<char>, b: Seq<char>)
    ensures
        stands_at(a + part + b, part, a.len() as int),
        has_part(a + part + b, part),
        stands_at(part + b, part, 0),
{
    let text = a + part + b;
    assert(text.subrange(a.len() as int, (a.len() + part.len()) as int) =~= part);
    assert(stands_at(text, part, a.len() as int));
    assert((part + b).subrange(0, part.len() as int) =~= part);
}

/// A game is found by any part of either player's name, wherever in the name it
/// stands.
pub proof fn law_a_game_is_found_by_any_part_of_a_name(
    a: Seq<char>,
    needle: Seq<char>,
    b: Seq<char>,
    other: Seq<char>,
    id: Seq<char>,
)
    ensures
        found(a + needle + b, other, id, needle),
        found(other, a + needle + b, id, needle),
{
    lemma_put_together(a, needle, b);
}

/// A game that is found has what was looked for in a player's name, or its own
/// name begins with it.
pub proof fn law_what_is_found_was_looked_for(
    white: Seq<char>,
    black: Seq<char>,
    id: Seq<char>,
    needle: Seq<char>,
)
    requires
        found(white, black, id, needle),
    ensures
        (exists|a: Seq<char>, b: Seq<char>| white == #[trigger] (a + needle + b)) || (exists|
            a: Seq<char>,
            b: Seq<char>,
        |
            black == #[trigger] (a + needle + b)) || (exists|b: Seq<char>|
            id == #[trigger] (needle + b)),
{
    if has_part(white, needle) {
        lemma_taken_apart(white, needle);
    } else if has_part(black, needle) {
        lemma_taken_apart(black, needle);
    } else {
        assert(id =~= needle + id.skip(needle.len() as int)) by {
            assert(id.subrange(0, needle.len() as int) =~= id.take(needle.len() as int));
        }
    }
}

proof fn lemma_taken_apart(text: Seq<char>, part: Seq<char>)
    requires
        has_part(text, part),
    ensures
        exists|a: Seq<char>, b: Seq<char>| text == #[trigger] (a + part + b),
{
    let i = choose|i: int| #[trigger] stands_at(text, part, i);
    let (a, b) = (text.take(i), text.skip(i + part.len()));
    assert(text =~= a + part + b) by {
        assert(text.subrange(i, i + part.len()) =~= part);
        assert forall|k: int| 0 <= k < text.len() implies text[k] == (a + part + b)[k] by {
            if i <= k < i + part.len() {
                assert(text.subrange(i, i + part.len())[k - i] == text[k]);
            }
        }
    }
}

/// Which player has which side makes no difference to what is found.
pub proof fn law_searching_does_not_ask_for_sides(
    white: Seq<char>,
    black: Seq<char>,
    id: Seq<char>,
    needle: Seq<char>,
)
    ensures
        found(white, black, id, needle) == found(black, white, id, needle),
{
}

/// A query is taken without the white space around it.
pub proof fn law_queries_are_trimmed(query: Seq<char>, c: char)
    requires
        crate::text::white_space(c),
    ensures
        needle_of(query.push(c)) == needle_of(query),
        needle_of(seq![c] + query) == needle_of(query),
        blank(query.push(c)) == blank(query),
        blank(seq![c] + query) == blank(query),
{
    crate::text::law_trimming_drops_what_is_around(query, c);
}

/// A game is found by the beginning of its own name.
pub proof fn law_a_game_is_found_by_its_beginning(
    white: Seq<char>,
    black: Seq<char>,
    needle: Seq<char>,
    rest: Seq<char>,
)
    ensures
        found(white, black, needle + rest, needle),
{
    lemma_put_together(Seq::empty(), needle, rest);
}

/// A text is blank if it has nothing but white space.
pub proof fn law_blank_texts_are_white(text: Seq<char>)
    ensures
        blank(text) <==> forall|i: int| 0 <= i < text.len() ==> white_space(#[trigger] text[i]),
    decreases text.len(),
{
    if text.len() > 0 {
        let rest = text.skip(1);
        assert(seq![text[0]] + rest =~= text);
        law_trimming_drops_what_is_around(rest, text[0]);
        law_trimming_drops_what_is_around(text, text[0]);
        law_blank_texts_are_white(rest);
        assert(forall|i: int| 0 <= i < rest.len() ==> rest[i] == text[i + 1]);
        assert forall|i: int| 0 <= i < text.len() && blank(text) implies white_space(
            #[trigger] text[i],
        ) by {
            if i > 0 {
                assert(rest[i - 1] == text[i]);
            }
        }
    }
}

} // verus!
