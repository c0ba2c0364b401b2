//! What holds of looking over the text of an ABI and of reading it.
use crate::abi::{abi_from_json, abi_of};
use crate::abi_text::{
    closings, entry_place, first_unread, first_unread_entry, flaw, holds_params,
    is_container, repaired, room_inside, string_value, tag, Place, MAX_BRACKETS, MAX_DEPTH,
};
use crate::json::{
    after_blanks, codes, entry_value, escaped, hex_digit, is_blank, lemma_literal_end, literal_end,
    member_value, next_entry, string_at, unescaped, value_end,
};
use crate::reading::{reading, Reading};
use crate::reading_laws::{law_array_is_read_like_its_items, law_plain_name_is_never_fatal};
use crate::reading_laws::{is_ascii_name, is_size};
use vstd::prelude::*;

verus! {

/// The code points of a word are those of its characters, one for each.
pub proof fn law_codes(word: Seq<char>)
    ensures
        codes(word).len() == word.len(),
        forall|i: int| 0 <= i < word.len() ==> #[trigger] codes(word)[i] == word[i] as u32,
{
}

/// Different characters have different code points.
pub proof fn lemma_codes_differ(a: char, b: char)
    ensures
        a as u32 == b as u32 <==> a == b,
{
}

/// A literal without escapes stands for its own characters, whatever follows them.
pub proof fn law_plain_characters_stand_for_themselves(plain: Seq<char>, rest: Seq<char>)
    requires
        forall|i: int| 0 <= i < plain.len() ==> #[trigger] plain[i] != '\\',
    ensures
        unescaped(plain + rest) == codes(plain) + unescaped(rest),
    decreases plain.len(),
{
    if plain.len() == 0 {
        assert(plain + rest =~= rest);
        assert(codes(plain) + unescaped(rest) =~= unescaped(rest));
    } else {
        let tail = plain.skip(1);
        assert((plain + rest).skip(1) =~= tail + rest);
        assert(plain[0] != '\\');
        law_plain_characters_stand_for_themselves(tail, rest);
        assert(codes(plain) =~= seq![plain[0] as u32] + codes(tail));
        assert(seq![plain[0] as u32] + (codes(tail) + unescaped(rest)) =~= codes(plain) + unescaped(
            rest,
        ));
    }
}

/// Behind a backslash a quote, a backslash and a slash stand for themselves, and some letters for
/// control characters.
pub proof fn law_short_escapes(rest: Seq<char>)
    ensures
        unescaped(seq!['\\', '"'] + rest) == seq!['"' as u32] + unescaped(rest),
        unescaped(seq!['\\', '\\'] + rest) == seq!['\\' as u32] + unescaped(rest),
        unescaped(seq!['\\', '/'] + rest) == seq!['/' as u32] + unescaped(rest),
        unescaped(seq!['\\', 'b'] + rest) == seq![8u32] + unescaped(rest),
        unescaped(seq!['\\', 'f'] + rest) == seq![12u32] + unescaped(rest),
        unescaped(seq!['\\', 'n'] + rest) == seq![10u32] + unescaped(rest),
        unescaped(seq!['\\', 'r'] + rest) == seq![13u32] + unescaped(rest),
        unescaped(seq!['\\', 't'] + rest) == seq![9u32] + unescaped(rest),
{
    assert((seq!['\\', '"'] + rest).skip(2) =~= rest);
    assert((seq!['\\', '\\'] + rest).skip(2) =~= rest);
    assert((seq!['\\', '/'] + rest).skip(2) =~= rest);
    assert((seq!['\\', 'b'] + rest).skip(2) =~= rest);
    assert((seq!['\\', 'f'] + rest).skip(2) =~= rest);
    assert((seq!['\\', 'n'] + rest).skip(2) =~= rest);
    assert((seq!['\\', 'r'] + rest).skip(2) =~= rest);
    assert((seq!['\\', 't'] + rest).skip(2) =~= rest);
}

/// The hexadecimal digits have the values from zero to fifteen, in small and in large letters.
pub proof fn law_hex_digits(c: char)
    ensures
        hex_digit('0') == Some(0int),
        hex_digit('9') == Some(9int),
        hex_digit('a') == Some(10int) && hex_digit('A') == Some(10int),
        hex_digit('f') == Some(15int) && hex_digit('F') == Some(15int),
        hex_digit(c) matches Some(value) ==> 0 <= value < 16 && (c as int == 48 + value || c as int
            == 87 + value || c as int == 55 + value),
        hex_digit(c) is Some <==> ('0' <= c <= '9' || 'a' <= c <= 'f' || 'A' <= c <= 'F'),
{
}

/// An escape of four hexadecimal digits stands for the code point with that number, unless that is
/// the first half of a pair.
pub proof fn law_long_escape(a: char, b: char, c: char, d: char, rest: Seq<char>)
    requires
        hex_digit(a) is Some,
        hex_digit(b) is Some,
        hex_digit(c) is Some,
        hex_digit(d) is Some,
        !(hex_digit(a) == Some(13int) && 8 <= hex_digit(b).unwrap() < 12),
    ensures
        unescaped(seq!['\\', 'u', a, b, c, d] + rest) == seq![
            (4096 * hex_digit(a).unwrap() + 256 * hex_digit(b).unwrap() + 16 * hex_digit(
                c,
            ).unwrap() + hex_digit(d).unwrap()) as u32,
        ] + unescaped(rest),
{
    let literal = seq!['\\', 'u', a, b, c, d] + rest;
    assert(literal.skip(6) =~= rest);
    assert(literal[2] == a && literal[3] == b && literal[4] == c && literal[5] == d);
}

/// A string literal ends at the first quote, if nothing in it is escaped.
pub proof fn law_literal_ends_at_its_quote(before: Seq<char>, literal: Seq<char>, after: Seq<char>)
    requires
        forall|i: int|
            0 <= i < literal.len() ==> #[trigger] literal[i] != '"' && literal[i] != '\\',
    ensures
        literal_end(before + literal + seq!['"'] + after, before.len() as int) == before.len()
            + literal.len(),
        before.len() > 0 ==> string_at(
            before + literal + seq!['"'] + after,
            before.len() - 1,
        ) == codes(literal),
{
    let text = before + literal + seq!['"'] + after;
    let start = before.len() as int;
    let end = start + literal.len() as int;
    assert forall|i: int| start <= i < end implies #[trigger] text[i] == literal[i - start] by {
    }
    lemma_literal_end_at(text, start, end);
    assert(text.subrange(start, end) =~= literal);
    law_plain_characters_stand_for_themselves(literal, Seq::empty());
    assert(literal + Seq::<char>::empty() =~= literal);
    assert(codes(literal) + unescaped(Seq::empty()) =~= codes(literal));
}

proof fn lemma_literal_end_at(text: Seq<char>, start: int, end: int)
    requires
        0 <= start <= end < text.len(),
        text[end] == '"',
        forall|i: int| start <= i < end ==> #[trigger] text[i] != '"' && text[i] != '\\',
    ensures
        literal_end(text, start) == end,
    decreases end - start,
{
    if start < end {
        assert(text[start] != '"');
        lemma_literal_end_at(text, start + 1, end);
    }
}

/// An escaped character does not end a string literal, not even a quote.
pub proof fn law_escaped_character_ends_nothing(
    before: Seq<char>,
    escaped: char,
    after: Seq<char>,
)
    ensures
        literal_end(before + seq!['\\', escaped] + after, before.len() as int) == literal_end(
            before + seq!['\\', escaped] + after,
            before.len() as int + 2,
        ),
{
}

/// The first name that is not read is a string of the text, and what comes of it is what comes of
/// reading it, with some of the room that there is.
proof fn lemma_fatal_name(text: Seq<char>, value: int, place: Place, depth: int) -> (room: usize)
    ensures
        first_unread(text, value, place, depth) matches Some((quote, Reading::Fatal)) ==> {
            &&& 0 <= quote < text.len()
            &&& text[quote] == '"'
            &&& literal_end(text, quote + 1) < text.len()
            &&& reading(string_at(text, quote), room as int) == Reading::Fatal
        },
    decreases depth, 0int,
{
    if let Place::Type { room } = place {
        room
    } else if 0 <= value < text.len() && depth > 0 && is_container(text[value], place) {
        lemma_fatal_entry(text, value, place, after_blanks(text, value + 1), depth - 1)
    } else {
        0
    }
}

proof fn lemma_fatal_entry(
    text: Seq<char>,
    container: int,
    place: Place,
    entry: int,
    depth: int,
) -> (room: usize)
    ensures
        first_unread_entry(text, container, place, entry, depth) matches Some(
            (quote, Reading::Fatal),
        ) ==> {
            &&& 0 <= quote < text.len()
            &&& text[quote] == '"'
            &&& literal_end(text, quote + 1) < text.len()
            &&& reading(string_at(text, quote), room as int) == Reading::Fatal
        },
    decreases depth, 1 + text.len() - entry,
{
    if let Some(value) = entry_value(text, entry, text[container] == '{') {
        let inner = entry_place(text, container, place, entry);
        let room = lemma_fatal_name(text, value, inner, depth);
        if first_unread(text, value, inner, depth) is Some {
            room
        } else {
            match next_entry(text, value) {
                Some(next) => if entry < next <= text.len() {
                    lemma_fatal_entry(text, container, place, next, depth)
                } else {
                    0
                },
                None => 0,
            }
        }
    } else {
        0
    }
}

/// A text has a flaw only where one of its strings is fatal to read as the name of a type.
pub proof fn law_flaw_is_a_fatal_name(text: Seq<char>)
    ensures
        flaw(text) matches Some(quote) ==> {
            &&& 0 <= quote < text.len()
            &&& text[quote] == '"'
            &&& exists|room: int|
                room >= 0 && #[trigger] reading(string_at(text, quote), room) == Reading::Fatal
        },
        (forall|quote: int, room: int|
            0 <= quote < text.len() && text[quote] == '"' && room >= 0 ==> #[trigger] reading(
                string_at(text, quote),
                room,
            ) != Reading::Fatal) ==> flaw(text) is None && abi_of(text) == abi_from_json(text),
{
    let start = after_blanks(text, 0);
    let room = lemma_fatal_name(text, start, Place::Operations, MAX_DEPTH as int);
    if let Some(quote) = flaw(text) {
        assert(reading(string_at(text, quote), room as int) == Reading::Fatal);
    }
}

/// A text in which no closing bracket and no closing parenthesis stands before a quote, nor a
/// backslash anywhere, is read as it stands: whatever names it has, there are no arrays and no
/// written tuples among them.
pub proof fn law_plain_text_is_read_as_it_stands(text: Seq<char>)
    requires
        forall|i: int| 0 <= i < text.len() ==> #[trigger] text[i] != '\\',
        forall|i: int|
            0 < i < text.len() && #[trigger] text[i] == '"' ==> text[i - 1] != ']' && text[i - 1]
                != ')',
    ensures
        flaw(text) is None,
        abi_of(text) == abi_from_json(text),
{
    let start = after_blanks(text, 0);
    let room = lemma_fatal_name(text, start, Place::Operations, MAX_DEPTH as int);
    if let Some(quote) = flaw(text) {
        let end = literal_end(text, quote + 1);
        let literal = text.subrange(quote + 1, end);
        lemma_literal_end_is_a_quote(text, quote + 1);
        assert forall|i: int| 0 <= i < literal.len() implies #[trigger] literal[i] != '\\' by {
            assert(literal[i] == text[quote + 1 + i]);
        }
        law_plain_characters_stand_for_themselves(literal, Seq::empty());
        assert(literal + Seq::<char>::empty() =~= literal);
        assert(codes(literal) + unescaped(Seq::empty()) =~= codes(literal));
        if literal.len() > 0 {
            assert(text[end] == '"');
            assert(literal.last() == text[end - 1]);
            lemma_codes_differ(literal.last(), ']');
            lemma_codes_differ(literal.last(), ')');
        }
        law_plain_name_is_never_fatal(codes(literal), room as int);
    }
}

proof fn lemma_literal_end_is_a_quote(text: Seq<char>, i: int)
    requires
        0 <= i,
        literal_end(text, i) < text.len(),
    ensures
        i <= literal_end(text, i),
        text[literal_end(text, i)] == '"',
    decreases text.len() + 1 - i,
{
    lemma_literal_end(text, i);
    if i < text.len() && text[i] == '\\' {
        lemma_literal_end_is_a_quote(text, i + 2);
    } else if i < text.len() && text[i] != '"' {
        lemma_literal_end_is_a_quote(text, i + 1);
    }
}

/// In a repaired text a number stands for the string, and everything before it and behind it is as
/// it was.
pub proof fn law_repair_changes_one_string(
    before: Seq<char>,
    literal: Seq<char>,
    after: Seq<char>,
)
    requires
        forall|i: int|
            0 <= i < literal.len() ==> #[trigger] literal[i] != '"' && literal[i] != '\\',
    ensures
        repaired(before + seq!['"'] + literal + seq!['"'] + after, before.len() as int) == before
            + seq!['0'] + after,
{
    let text = before + seq!['"'] + literal + seq!['"'] + after;
    let end = before.len() + 1 + literal.len() as int;
    assert forall|i: int| before.len() + 1 <= i < end implies #[trigger] text[i] == literal[i
        - before.len() - 1] by {
    }
    assert(text[end] == '"');
    lemma_literal_end_at(text, before.len() as int + 1, end);
    assert(text[before.len() as int] == '"');
    assert(value_end(text, before.len() as int) == end + 1);
    assert(text.take(before.len() as int) =~= before);
    assert(text.skip(end + 1) =~= after);
}

/// What is counted is every closing bracket.
pub proof fn law_every_closing_bracket_counts(name: Seq<u32>, n: int)
    ensures
        Set::new(|i: int| 0 <= i < n && name[i] == ']' as u32).finite(),
        closings(name, n) == Set::new(|i: int| 0 <= i < n && name[i] == ']' as u32).len(),
    decreases n,
{
    let all = Set::new(|i: int| 0 <= i < n && name[i] == ']' as u32);
    if n <= 0 {
        assert(all =~= Set::empty());
    } else {
        law_every_closing_bracket_counts(name, n - 1);
        let before = Set::new(|i: int| 0 <= i < n - 1 && name[i] == ']' as u32);
        if name[n - 1] == ']' as u32 {
            assert(all =~= before.insert(n - 1));
            assert(!before.contains(n - 1));
        } else {
            assert(all =~= before);
        }
    }
}

/// The name of an array, of an array of arrays and so on, of something that is called `items`.
pub open spec fn array_name(items: Seq<u32>, sizes: Seq<Seq<u32>>) -> Seq<u32>
    decreases sizes.len(),
{
    if sizes.len() == 0 {
        items
    } else {
        array_name(items, sizes.drop_last()) + seq!['[' as u32] + sizes.last() + seq![']' as u32]
    }
}

/// Something that is neither an array nor a tuple, or an array of such things, or an array of such
/// arrays, and so on, at most `levels` deep.
pub open spec fn is_array_name(name: Seq<u32>, levels: nat) -> bool {
    exists|items: Seq<u32>, sizes: Seq<Seq<u32>>|
        {
            &&& name == #[trigger] array_name(items, sizes)
            &&& items.len() > 0 ==> items.last() != ']' as u32 && items.last() != ')' as u32
            &&& sizes.len() <= levels
            &&& forall|i: int| 0 <= i < sizes.len() ==> is_size(#[trigger] sizes[i])
        }
}

/// The name of an array is never fatal if there is room for its levels.
pub proof fn law_array_name_is_not_fatal(items: Seq<u32>, sizes: Seq<Seq<u32>>, room: int)
    requires
        is_ascii_name(array_name(items, sizes)),
        items.len() > 0 ==> items.last() != ']' as u32 && items.last() != ')' as u32,
        forall|i: int| 0 <= i < sizes.len() ==> is_size(#[trigger] sizes[i]),
        sizes.len() <= room,
    ensures
        reading(array_name(items, sizes), room) != Reading::Fatal,
    decreases sizes.len(),
{
    if sizes.len() == 0 {
        law_plain_name_is_never_fatal(items, room);
    } else {
        let fewer = sizes.drop_last();
        let inner = array_name(items, fewer);
        let name = array_name(items, sizes);
        assert forall|i: int| 0 <= i < inner.len() implies #[trigger] inner[i] < 0x80 by {
            assert(name[i] == inner[i]);
        }
        assert forall|i: int| 0 <= i < fewer.len() implies is_size(#[trigger] fewer[i]) by {
            assert(fewer[i] == sizes[i]);
        }
        assert(is_size(sizes[sizes.len() - 1]));
        law_array_is_read_like_its_items(inner, sizes.last(), room - 1);
        law_array_name_is_not_fatal(items, fewer, room - 1);
    }
}

/// What stands between a quote and the next one, or the end of the text.
pub open spec fn stands_between_quotes(text: Seq<char>, quote: int, end: int) -> bool {
    &&& 0 <= quote < end <= text.len()
    &&& text[quote] == '"'
    &&& end < text.len() ==> text[end] == '"'
    &&& forall|i: int| quote < i < end ==> #[trigger] text[i] != '"'
}

/// There is room enough at a place for arrays of eight levels, there and in everything that can be
/// nested below it.
spec fn has_room(place: Place, depth: int) -> bool {
    match place {
        Place::Params { room } => room >= 4 * depth,
        Place::Param { room } => room >= 4 * (depth + 1),
        Place::Type { room } => room >= 8,
        _ => true,
    }
}

/// No string of the text has more than eight closing brackets.
spec fn has_few_closings(text: Seq<char>) -> bool {
    forall|quote: int|
        0 <= quote < text.len() && text[quote] == '"' ==> closings(
            #[trigger] string_at(text, quote),
            string_at(text, quote).len() as int,
        ) <= 8
}

proof fn lemma_room_inside(text: Seq<char>, param: int, room: usize)
    requires
        has_few_closings(text),
    ensures
        room_inside(text, param, room) >= room - 8,
{
    let value = member_value(text, after_blanks(text, param + 1), "type"@);
    let name = string_value(text, value);
    law_every_closing_bracket_counts(name, name.len() as int);
    assert(closings(name, name.len() as int) <= 8) by {
        if let Some(quote) = value {
            if 0 <= quote < text.len() && text[quote] == '"' {
                assert(closings(string_at(text, quote), string_at(text, quote).len() as int) <= 8);
            }
        }
    }
}

proof fn lemma_entry_has_room(
    text: Seq<char>,
    container: int,
    place: Place,
    entry: int,
    depth: int,
)
    requires
        has_few_closings(text),
        has_room(place, depth + 1),
        0 <= depth < MAX_DEPTH,
        place is Operation ==> depth <= 126,
    ensures
        has_room(entry_place(text, container, place, entry), depth),
{
    if let Place::Param { room } = place {
        lemma_room_inside(text, container, room);
    }
}

proof fn lemma_fatal_name_with_room(
    text: Seq<char>,
    value: int,
    place: Place,
    depth: int,
) -> (room: usize)
    requires
        has_few_closings(text),
        has_room(place, depth),
        depth <= MAX_DEPTH,
        place is Operation ==> depth <= 127,
    ensures
        first_unread(text, value, place, depth) matches Some((quote, Reading::Fatal)) ==> {
            &&& 0 <= quote < text.len()
            &&& text[quote] == '"'
            &&& literal_end(text, quote + 1) < text.len()
            &&& room >= 8
            &&& reading(string_at(text, quote), room as int) == Reading::Fatal
        },
    decreases depth, 0int,
{
    if let Place::Type { room } = place {
        room
    } else if 0 <= value < text.len() && depth > 0 && is_container(text[value], place) {
        lemma_fatal_entry_with_room(text, value, place, after_blanks(text, value + 1), depth - 1)
    } else {
        0
    }
}

proof fn lemma_fatal_entry_with_room(
    text: Seq<char>,
    container: int,
    place: Place,
    entry: int,
    depth: int,
) -> (room: usize)
    requires
        has_few_closings(text),
        has_room(place, depth + 1),
        0 <= depth < MAX_DEPTH,
        place is Operation ==> depth <= 126,
    ensures
        first_unread_entry(text, container, place, entry, depth) matches Some(
            (quote, Reading::Fatal),
        ) ==> {
            &&& 0 <= quote < text.len()
            &&& text[quote] == '"'
            &&& literal_end(text, quote + 1) < text.len()
            &&& room >= 8
            &&& reading(string_at(text, quote), room as int) == Reading::Fatal
        },
    decreases depth, 1 + text.len() - entry,
{
    if let Some(value) = entry_value(text, entry, text[container] == '{') {
        let inner = entry_place(text, container, place, entry);
        lemma_entry_has_room(text, container, place, entry, depth);
        let room = lemma_fatal_name_with_room(text, value, inner, depth);
        if first_unread(text, value, inner, depth) is Some {
            room
        } else {
            match next_entry(text, value) {
                Some(next) => if entry < next <= text.len() {
                    lemma_fatal_entry_with_room(text, container, place, next, depth)
                } else {
                    0
                },
                None => 0,
            }
        }
    } else {
        0
    }
}

proof fn lemma_string_between_quotes(text: Seq<char>, quote: int)
    requires
        0 <= quote < text.len(),
        text[quote] == '"',
        forall|i: int| 0 <= i < text.len() ==> #[trigger] text[i] != '\\',
    ensures
        stands_between_quotes(text, quote, literal_end(text, quote + 1)),
        string_at(text, quote) == codes(
            text.subrange(quote + 1, literal_end(text, quote + 1)),
        ),
{
    let end = literal_end(text, quote + 1);
    lemma_no_quote_before_end(text, quote + 1);
    let literal = text.subrange(quote + 1, end);
    assert forall|i: int| 0 <= i < literal.len() implies #[trigger] literal[i] != '\\' by {
        assert(literal[i] == text[quote + 1 + i]);
    }
    law_plain_characters_stand_for_themselves(literal, Seq::empty());
    assert(literal + Seq::<char>::empty() =~= literal);
    assert(codes(literal) + unescaped(Seq::empty()) =~= codes(literal));
}

proof fn lemma_no_quote_before_end(text: Seq<char>, start: int)
    requires
        0 <= start <= text.len(),
        forall|i: int| 0 <= i < text.len() ==> #[trigger] text[i] != '\\',
    ensures
        start <= literal_end(text, start) <= text.len(),
        literal_end(text, start) < text.len() ==> text[literal_end(text, start)] == '"',
        forall|i: int| start <= i < literal_end(text, start) ==> #[trigger] text[i] != '"',
    decreases text.len() - start,
{
    if start < text.len() && text[start] != '"' {
        assert(text[start] != '\\');
        lemma_no_quote_before_end(text, start + 1);
    }
}

/// A text of plain characters whose names, as far as they end like arrays or tuples, are names of
/// arrays of at most eight levels, is read as it stands, wherever these names are.
pub proof fn law_text_with_arrays_is_read_as_it_stands(text: Seq<char>)
    requires
        forall|i: int| 0 <= i < text.len() ==> #[trigger] text[i] != '\\',
        forall|i: int| 0 <= i < text.len() ==> (#[trigger] text[i] as u32) < 0x80,
        forall|quote: int, end: int| #[trigger]
            stands_between_quotes(text, quote, end) ==> {
                &&& Set::new(|i: int| quote < i < end && text[i] == ']').len() <= 8
                &&& end < text.len() ==> is_array_name(codes(text.subrange(quote + 1, end)), 8)
            },
    ensures
        flaw(text) is None,
        abi_of(text) == abi_from_json(text),
{
    assert forall|quote: int| 0 <= quote < text.len() && text[quote] == '"' implies closings(
        #[trigger] string_at(text, quote),
        string_at(text, quote).len() as int,
    ) <= 8 by {
        lemma_string_between_quotes(text, quote);
        lemma_closings_between(text, quote, literal_end(text, quote + 1));
    }
    let start = after_blanks(text, 0);
    let room = lemma_fatal_name_with_room(text, start, Place::Operations, MAX_DEPTH as int);
    if let Some(quote) = flaw(text) {
        let end = literal_end(text, quote + 1);
        lemma_string_between_quotes(text, quote);
        let name = codes(text.subrange(quote + 1, end));
        let (items, sizes) = choose|items: Seq<u32>, sizes: Seq<Seq<u32>>|
            {
                &&& name == #[trigger] array_name(items, sizes)
                &&& items.len() > 0 ==> items.last() != ']' as u32 && items.last() != ')' as u32
                &&& sizes.len() <= 8
                &&& forall|i: int| 0 <= i < sizes.len() ==> is_size(#[trigger] sizes[i])
            };
        assert forall|i: int| 0 <= i < name.len() implies #[trigger] name[i] < 0x80 by {
            assert(name[i] == text[quote + 1 + i] as u32);
        }
        law_array_name_is_not_fatal(items, sizes, room as int);
    }
}

proof fn lemma_closings_between(text: Seq<char>, quote: int, end: int)
    requires
        0 <= quote < end <= text.len(),
    ensures
        closings(codes(text.subrange(quote + 1, end)), end - quote - 1) == Set::new(
            |i: int| quote < i < end && text[i] == ']',
        ).len(),
    decreases end - quote,
{
    let all = Set::new(|i: int| quote < i < end && text[i] == ']');
    let name = codes(text.subrange(quote + 1, end));
    if end == quote + 1 {
        assert(all =~= Set::empty());
    } else {
        let shorter = codes(text.subrange(quote + 1, end - 1));
        let before = Set::new(|i: int| quote < i < end - 1 && text[i] == ']');
        lemma_closings_between(text, quote, end - 1);
        law_every_closing_bracket_counts(shorter, end - quote - 2);
        lemma_closings_of_prefix(name, shorter, end - quote - 2);
        lemma_codes_differ(text[end - 1], ']');
        assert(name[end - quote - 2] == text[end - 1] as u32);
        lemma_finite_between(text, quote, end - 1);
        if text[end - 1] == ']' {
            assert(all =~= before.insert(end - 1));
            assert(!before.contains(end - 1));
        } else {
            assert(all =~= before);
        }
    }
}

proof fn lemma_finite_between(text: Seq<char>, quote: int, end: int)
    ensures
        Set::new(|i: int| quote < i < end && text[i] == ']').finite(),
{
    vstd::set_lib::lemma_int_range(quote + 1, if quote + 1 <= end {
        end
    } else {
        quote + 1
    });
    let range = vstd::set_lib::set_int_range(quote + 1, if quote + 1 <= end {
        end
    } else {
        quote + 1
    });
    let all = Set::new(|i: int| quote < i < end && text[i] == ']');
    assert(all.subset_of(range));
    vstd::set_lib::lemma_len_subset(all, range);
}

proof fn lemma_closings_of_prefix(name: Seq<u32>, shorter: Seq<u32>, n: int)
    requires
        0 <= n <= shorter.len() <= name.len(),
        forall|i: int| 0 <= i < n ==> #[trigger] name[i] == shorter[i],
    ensures
        closings(name, n) == closings(shorter, n),
    decreases n,
{
    if n > 0 {
        lemma_closings_of_prefix(name, shorter, n - 1);
        assert(name[n - 1] == shorter[n - 1]);
    }
}

/// A text without a flaw is read as it stands. A text with one is read like the text in which the
/// name at fault is repaired.
pub proof fn law_sound_text_is_read_as_it_stands(text: Seq<char>)
    ensures
        flaw(text) is None ==> abi_of(text) == abi_from_json(text),
        flaw(text) matches Some(quote) ==> abi_of(text) == abi_of(repaired(text, quote)),
{
}

/// White space is skipped up to the first character that is none, and nothing else is.
pub proof fn law_blanks_are_skipped(before: Seq<char>, blanks: Seq<char>, after: Seq<char>)
    requires
        forall|i: int|
            0 <= i < blanks.len() ==> #[trigger] blanks[i] == ' ' || blanks[i] == '\t' || blanks[i]
                == '\n' || blanks[i] == '\r',
        after.len() > 0 ==> after[0] != ' ' && after[0] != '\t' && after[0] != '\n' && after[0]
            != '\r',
    ensures
        after_blanks(before + blanks + after, before.len() as int) == before.len() + blanks.len(),
{
    let text = before + blanks + after;
    lemma_blanks(text, before.len() as int, before.len() as int + blanks.len());
}

proof fn lemma_blanks(text: Seq<char>, start: int, end: int)
    requires
        0 <= start <= end <= text.len(),
        forall|i: int| start <= i < end ==> is_blank(#[trigger] text[i]),
        end < text.len() ==> !is_blank(text[end]),
    ensures
        after_blanks(text, start) == end,
    decreases end - start,
{
    if start < end {
        assert(is_blank(text[start]));
        lemma_blanks(text, start + 1, end);
    }
}

/// Two escapes that are the halves of a pair stand for one code point.
pub proof fn law_pair_of_escapes(
    b: char,
    c: char,
    d: char,
    f: char,
    g: char,
    h: char,
    rest: Seq<char>,
)
    requires
        hex_digit(b) matches Some(high) && 8 <= high < 12,
        hex_digit(f) matches Some(low) && 12 <= low,
        hex_digit(c) is Some,
        hex_digit(d) is Some,
        hex_digit(g) is Some,
        hex_digit(h) is Some,
    ensures
        unescaped(seq!['\\', 'u', 'd', b, c, d, '\\', 'u', 'D', f, g, h] + rest) == seq![
            (0x10000 + 0x400 * (256 * (hex_digit(b).unwrap() - 8) + 16 * hex_digit(c).unwrap()
                + hex_digit(d).unwrap()) + (256 * (hex_digit(f).unwrap() - 12) + 16 * hex_digit(
                g,
            ).unwrap() + hex_digit(h).unwrap())) as u32,
        ] + unescaped(rest),
{
    let literal = seq!['\\', 'u', 'd', b, c, d, '\\', 'u', 'D', f, g, h] + rest;
    law_hex_digits('d');
    law_hex_digits('D');
    law_hex_digits(b);
    law_hex_digits(f);
    law_hex_digits(c);
    law_hex_digits(d);
    law_hex_digits(g);
    law_hex_digits(h);
    assert(literal.skip(12) =~= rest);
    assert(literal[2] == 'd' && literal[3] == b && literal[4] == c && literal[5] == d);
    assert(literal[6] == '\\' && literal[7] == 'u');
    assert(literal[8] == 'D' && literal[9] == f && literal[10] == g && literal[11] == h);
}

} // verus!
