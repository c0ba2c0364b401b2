//! What holds of reading the names of types.
use crate::json::codes;
use crate::reading::{
    are_digits, array_reading, begins_with, behind_opening, cut, decimal, is_number, is_sized,
    item_end, lemma_item_end, part_reading, place_behind, plain_reading, reading, tuple_reading,
    width, Reading,
};
use crate::reading::{CLOSING_BRACKET, CLOSING_PAREN, COMMA, OPENING_BRACKET, OPENING_PAREN, PLUS};
use vstd::prelude::*;
use vstd::string::*;

verus! {

/// A name that ends neither like an array nor like a tuple is never fatal, whatever its letters and
/// however little room there is.
pub proof fn law_plain_name_is_never_fatal(name: Seq<u32>, room: int)
    requires
        name.len() > 0 ==> name.last() != ']' as u32 && name.last() != ')' as u32,
    ensures
        reading(name, room) != Reading::Fatal,
{
}

/// A name that ends neither like an array nor like a tuple is read if it does not begin like that of
/// a type with a size.
pub proof fn law_other_names_are_read(name: Seq<u32>, room: int)
    requires
        name.len() > 0 ==> name.last() != ']' as u32 && name.last() != ')' as u32,
        !(name.len() >= 3 && name[0] == 'i' as u32 && name[1] == 'n' as u32 && name[2]
            == 't' as u32),
        !(name.len() >= 4 && name[0] == 'u' as u32 && name[1] == 'i' as u32 && name[2] == 'n' as u32
            && name[3] == 't' as u32),
        !(name.len() >= 5 && name[0] == 'b' as u32 && name[1] == 'y' as u32 && name[2] == 't' as u32
            && name[3] == 'e' as u32 && name[4] == 's' as u32),
    ensures
        reading(name, room) == Reading::Read,
{
    reveal_strlit("int");
    reveal_strlit("uint");
    reveal_strlit("bytes");
    lemma_begins(name, "int"@);
    lemma_begins(name, "uint"@);
    lemma_begins(name, "bytes"@);
}

proof fn lemma_begins(name: Seq<u32>, word: Seq<char>)
    ensures
        begins_with(name, word) ==> forall|i: int|
            0 <= i < word.len() ==> #[trigger] name[i] == word[i] as u32,
{
    if begins_with(name, word) {
        assert forall|i: int| 0 <= i < word.len() implies #[trigger] name[i] == word[i] as u32 by {
            assert(name.take(word.len() as int)[i] == codes(word)[i]);
        }
    }
}

/// The names of the elementary types without a size are read.
pub proof fn law_elementary_types_are_read(room: int)
    ensures
        reading(codes("address"@), room) == Reading::Read,
        reading(codes("bool"@), room) == Reading::Read,
        reading(codes("string"@), room) == Reading::Read,
        reading(codes("bytes"@), room) == Reading::Read,
        reading(codes("int"@), room) == Reading::Read,
        reading(codes("uint"@), room) == Reading::Read,
        reading(codes("tuple"@), room) == Reading::Read,
{
    reveal_strlit("address");
    reveal_strlit("bool");
    reveal_strlit("string");
    reveal_strlit("bytes");
    reveal_strlit("int");
    reveal_strlit("uint");
    reveal_strlit("tuple");
    assert(codes("address"@)[0] != codes("int"@)[0] && codes("address"@)[0] != codes("uint"@)[0]
        && codes("address"@)[0] != codes("bytes"@)[0]);
    assert(codes("bool"@)[1] != codes("bytes"@)[1]);
    assert(codes("bool"@)[0] != codes("int"@)[0] && codes("bool"@)[0] != codes("uint"@)[0]);
    assert(codes("string"@)[0] != codes("int"@)[0] && codes("string"@)[0] != codes("uint"@)[0]
        && codes("string"@)[0] != codes("bytes"@)[0]);
    assert(codes("tuple"@)[0] != codes("int"@)[0] && codes("tuple"@)[0] != codes("uint"@)[0]
        && codes("tuple"@)[0] != codes("bytes"@)[0]);
    lemma_differs(codes("address"@), "int"@);
    lemma_differs(codes("address"@), "uint"@);
    lemma_differs(codes("address"@), "bytes"@);
    lemma_differs(codes("bool"@), "int"@);
    lemma_differs(codes("bool"@), "uint"@);
    lemma_differs(codes("bool"@), "bytes"@);
    lemma_differs(codes("string"@), "int"@);
    lemma_differs(codes("string"@), "uint"@);
    lemma_differs(codes("string"@), "bytes"@);
    lemma_differs(codes("tuple"@), "int"@);
    lemma_differs(codes("tuple"@), "uint"@);
    lemma_differs(codes("tuple"@), "bytes"@);
    lemma_differs(codes("bytes"@), "int"@);
    lemma_differs(codes("bytes"@), "uint"@);
    lemma_differs(codes("uint"@), "int"@);
}

/// A name that differs from a word at one of the first places does not begin with it.
proof fn lemma_differs(name: Seq<u32>, word: Seq<char>)
    requires
        exists|i: int|
            0 <= i < name.len() && i < word.len() && #[trigger] name[i] != codes(word)[i],
    ensures
        !begins_with(name, word),
{
    let i = choose|i: int|
        0 <= i < name.len() && i < word.len() && #[trigger] name[i] != codes(word)[i];
    if begins_with(name, word) {
        assert(name.take(word.len() as int)[i] == name[i]);
    }
}

/// Digits, few enough that they make a `usize`.
pub open spec fn is_size(digits: Seq<u32>) -> bool {
    &&& digits.len() <= 9
    &&& forall|i: int|
        0 <= i < digits.len() ==> '0' as u32 <= #[trigger] digits[i] <= '9' as u32
}

proof fn lemma_size(digits: Seq<u32>)
    requires
        is_size(digits),
        digits.len() > 0,
    ensures
        are_digits(digits),
        is_number(digits),
{
    lemma_decimal_bound(digits);
    assert(digits[0] <= '9' as u32);
    assert(vstd::arithmetic::power::pow(10, digits.len()) <= 1000000000) by {
        vstd::arithmetic::power::lemma_pow_increases(10, digits.len(), 9);
        reveal_with_fuel(vstd::arithmetic::power::pow, 10);
    }
}

proof fn lemma_decimal_bound(digits: Seq<u32>)
    requires
        forall|i: int| 0 <= i < digits.len() ==> 0x30 <= #[trigger] digits[i] <= 0x39,
    ensures
        0 <= decimal(digits) < vstd::arithmetic::power::pow(10, digits.len()),
    decreases digits.len(),
{
    reveal(vstd::arithmetic::power::pow);
    if digits.len() > 0 {
        let earlier = digits.drop_last();
        lemma_decimal_bound(earlier);
        assert(digits[digits.len() - 1] == digits.last());
        assert(vstd::arithmetic::power::pow(10, digits.len()) == 10
            * vstd::arithmetic::power::pow(10, earlier.len()));
    }
}

/// The names of the elementary types with a size are read.
pub proof fn law_sized_types_are_read(digits: Seq<u32>, room: int)
    requires
        is_size(digits),
    ensures
        reading(codes("uint"@) + digits, room) == Reading::Read,
        reading(codes("int"@) + digits, room) == Reading::Read,
        reading(codes("bytes"@) + digits, room) == Reading::Read,
{
    if digits.len() == 0 {
        law_elementary_types_are_read(room);
        assert(codes("uint"@) + digits =~= codes("uint"@));
        assert(codes("int"@) + digits =~= codes("int"@));
        assert(codes("bytes"@) + digits =~= codes("bytes"@));
    } else {
        lemma_size(digits);
        reveal_strlit("uint");
        reveal_strlit("int");
        reveal_strlit("bytes");
        let uint = codes("uint"@) + digits;
        let signed = codes("int"@) + digits;
        let bytes = codes("bytes"@) + digits;
        assert(digits.last() == digits[digits.len() - 1]);
        assert(uint.skip(4) =~= digits && uint.take(4) =~= codes("uint"@));
        assert(signed.skip(3) =~= digits && signed.take(3) =~= codes("int"@));
        assert(bytes.skip(5) =~= digits && bytes.take(5) =~= codes("bytes"@));
        assert(uint[0] != codes("int"@)[0]);
        lemma_differs(uint, "int"@);
        assert(bytes[0] != codes("int"@)[0]);
        lemma_differs(bytes, "int"@);
        assert(bytes[0] != codes("uint"@)[0]);
        lemma_differs(bytes, "uint"@);
    }
}

/// A name of which every code point takes one byte.
pub open spec fn is_ascii_name(name: Seq<u32>) -> bool {
    forall|i: int| 0 <= i < name.len() ==> #[trigger] name[i] < 0x80
}

proof fn lemma_place_behind(name: Seq<u32>, i: int, bytes: int)
    requires
        is_ascii_name(name),
        0 <= i,
        0 <= bytes,
        i + bytes <= name.len(),
    ensures
        place_behind(name, i, bytes) == Some(i + bytes),
    decreases bytes,
{
    if bytes > 0 {
        assert(width(name[i]) == 1);
        lemma_place_behind(name, i + 1, bytes - 1);
    }
}

proof fn lemma_cut(name: Seq<u32>, from: int, to: int)
    requires
        is_ascii_name(name),
        0 <= from <= to <= name.len(),
    ensures
        cut(name, from, to) == Some(name.subrange(from, to)),
{
    lemma_place_behind(name, 0, from);
    lemma_place_behind(name, 0, to);
}

proof fn lemma_behind_opening_of_array(name: Seq<u32>, opening: int, n: int)
    requires
        0 <= opening < n <= name.len(),
        name[opening] == OPENING_BRACKET,
        forall|i: int| opening < i < n ==> #[trigger] name[i] != OPENING_BRACKET,
    ensures
        behind_opening(name, n) == opening + 1,
    decreases n,
{
    if n - 1 > opening {
        lemma_behind_opening_of_array(name, opening, n - 1);
    }
}

proof fn lemma_no_opening(name: Seq<u32>, n: int)
    requires
        0 <= n <= name.len(),
        forall|i: int| 0 <= i < n ==> #[trigger] name[i] != OPENING_BRACKET,
    ensures
        behind_opening(name, n) == 0,
    decreases n,
{
    if n > 0 {
        lemma_no_opening(name, n - 1);
    }
}

/// The name of an array is read like that of its items, whether or not its size is given; that
/// takes one more call.
pub proof fn law_array_is_read_like_its_items(items: Seq<u32>, size: Seq<u32>, room: int)
    requires
        is_ascii_name(items),
        is_size(size),
        room >= 0,
    ensures
        reading(items + seq!['[' as u32] + size + seq![']' as u32], room + 1) == reading(
            items,
            room,
        ),
{
    let name = items + seq!['[' as u32] + size + seq![']' as u32];
    let n = name.len() as int;
    assert forall|i: int| 0 <= i < n implies #[trigger] name[i] < 0x80 by {
        if i < items.len() {
            assert(name[i] == items[i]);
        } else if items.len() < i < n - 1 {
            assert(name[i] == size[i - items.len() - 1]);
        }
    }
    assert forall|i: int| items.len() < i < n - 1 implies #[trigger] name[i]
        != OPENING_BRACKET by {
        assert(name[i] == size[i - items.len() - 1]);
    }
    lemma_behind_opening_of_array(name, items.len() as int, n - 1);
    assert(name.subrange(items.len() as int + 1, n - 1) =~= size);
    if size.len() > 0 {
        lemma_size(size);
    }
    lemma_cut(name, 0, items.len() as int);
    assert(name.subrange(0, items.len() as int) =~= items);
}

/// A closing bracket that was not opened is fatal if nothing stands before it, or a number.
pub proof fn law_unopened_bracket_is_fatal(size: Seq<u32>, room: int)
    requires
        is_size(size),
        room >= 0,
    ensures
        reading(size + seq![']' as u32], room) == Reading::Fatal,
{
    let name = size + seq![']' as u32];
    let n = name.len() as int;
    assert forall|i: int| 0 <= i < n - 1 implies #[trigger] name[i] != OPENING_BRACKET by {
        assert(name[i] == size[i]);
    }
    lemma_no_opening(name, n - 1);
    assert(name.subrange(0, n - 1) =~= size);
    if size.len() > 0 {
        lemma_size(size);
    }
    assert(place_behind(name, 0, n - size.len() - 2) is None);
}

/// A closing parenthesis without one at the start is refused.
pub proof fn law_unopened_parenthesis_is_refused(name: Seq<u32>, room: int)
    requires
        name.len() > 0,
        name.last() == ')' as u32,
        name[0] != '(' as u32,
    ensures
        reading(name, room) == Reading::Refused,
{
}

/// What stands in brackets must be a number, or nothing.
pub proof fn law_array_size_must_be_a_number(items: Seq<u32>, size: Seq<u32>, room: int)
    requires
        exists|i: int| 0 <= i < size.len() && #[trigger] size[i] > '9' as u32,
        forall|i: int| 0 <= i < size.len() ==> #[trigger] size[i] != '[' as u32,
    ensures
        reading(items + seq!['[' as u32] + size + seq![']' as u32], room) == Reading::Refused,
{
    let name = items + seq!['[' as u32] + size + seq![']' as u32];
    let n = name.len() as int;
    assert forall|i: int| items.len() < i < n - 1 implies #[trigger] name[i]
        != OPENING_BRACKET by {
        assert(name[i] == size[i - items.len() - 1]);
    }
    lemma_behind_opening_of_array(name, items.len() as int, n - 1);
    assert(name.subrange(items.len() as int + 1, n - 1) =~= size);
    let i = choose|i: int| 0 <= i < size.len() && #[trigger] size[i] > '9' as u32;
    if size[0] == PLUS {
        assert(i > 0);
        assert(size.skip(1)[i - 1] == size[i]);
    }
    assert(!is_number(size));
}

/// A text with something larger than a digit in it is no number.
proof fn lemma_no_number(size: Seq<u32>, i: int)
    requires
        0 <= i < size.len(),
        size[i] > '9' as u32,
    ensures
        !is_number(size),
{
    if size[0] == PLUS {
        assert(i > 0);
        assert(size.skip(1)[i - 1] == size[i]);
    }
}

/// A name that begins with a word goes on with the rest.
proof fn lemma_word_and_rest(word: Seq<char>, rest: Seq<u32>)
    ensures
        begins_with(codes(word) + rest, word),
        (codes(word) + rest).skip(word.len() as int) == rest,
{
    let name = codes(word) + rest;
    assert(name.take(word.len() as int) =~= codes(word));
    assert(name.skip(word.len() as int) =~= rest);
}

/// The size of a type must be a number.
pub proof fn law_size_must_be_a_number(size: Seq<u32>, i: int, room: int)
    requires
        0 <= i < size.len(),
        size[i] > '9' as u32,
        size.last() != ']' as u32,
        size.last() != ')' as u32,
    ensures
        reading(codes("uint"@) + size, room) == Reading::Refused,
        reading(codes("int"@) + size, room) == Reading::Refused,
        reading(codes("bytes"@) + size, room) == Reading::Refused,
{
    lemma_no_number(size, i);
    lemma_word_and_rest("uint"@, size);
    lemma_word_and_rest("int"@, size);
    lemma_word_and_rest("bytes"@, size);
    reveal_strlit("uint");
    reveal_strlit("int");
    reveal_strlit("bytes");
    let uint = codes("uint"@) + size;
    let bytes = codes("bytes"@) + size;
    assert(uint[0] != codes("int"@)[0]);
    lemma_differs(uint, "int"@);
    assert(bytes[0] != codes("int"@)[0]);
    lemma_differs(bytes, "int"@);
    assert(bytes[0] != codes("uint"@)[0]);
    lemma_differs(bytes, "uint"@);
}

/// What is not fatal is not changed by more room.
pub proof fn law_more_room(name: Seq<u32>, room: int, more: int)
    requires
        0 <= room <= more,
        reading(name, room) != Reading::Fatal,
    ensures
        reading(name, more) == reading(name, room),
    decreases room, 3 + name.len(),
{
    if name.len() > 0 && name.last() == CLOSING_PAREN {
        if name[0] == OPENING_PAREN {
            lemma_tuple_more_room(name, 0, 0, 0, 1, room, more);
        }
    } else if name.len() > 0 && name.last() == CLOSING_BRACKET {
        let number = name.subrange(behind_opening(name, name.len() - 1), name.len() - 1);
        if !(number.len() > 0 && !is_number(number)) {
            lemma_part_more_room(cut(name, 0, name.len() - number.len() - 2), room, more);
        }
    }
}

proof fn lemma_part_more_room(part: Option<Seq<u32>>, room: int, more: int)
    requires
        0 <= room <= more,
        part_reading(part, room) != Reading::Fatal,
    ensures
        part_reading(part, more) == part_reading(part, room),
    decreases room, 0int,
{
    if let Some(part) = part {
        if room > 0 {
            law_more_room(part, room - 1, more - 1);
        }
    }
}

proof fn lemma_tuple_more_room(
    name: Seq<u32>,
    pos: int,
    nested: int,
    open: int,
    last: int,
    room: int,
    more: int,
)
    requires
        0 <= room <= more,
        tuple_reading(name, pos, nested, open, last, room) != Reading::Fatal,
    ensures
        tuple_reading(name, pos, nested, open, last, more) == tuple_reading(
            name,
            pos,
            nested,
            open,
            last,
            room,
        ),
    decreases room, 1 + (name.len() + 1 - pos),
{
    if pos < 0 || pos >= name.len() {
    } else if name[pos] == OPENING_PAREN {
        let inner = if nested > 0 {
            pos + 1
        } else {
            last
        };
        lemma_tuple_more_room(name, pos + 1, nested + 1, pos, inner, room, more);
    } else if name[pos] == CLOSING_PAREN && nested <= 0 {
    } else if name[pos] == CLOSING_PAREN || name[pos] == COMMA {
        let after = if name[pos] == COMMA {
            nested
        } else {
            nested - 1
        };
        if let Some(item) = cut(name, last, pos) {
            if item.len() == 0 {
                lemma_tuple_more_room(name, pos + 1, after, open, pos + 1, room, more);
            } else if name[pos] == COMMA && nested <= 0 {
                lemma_tuple_more_room(name, pos + 1, after, open, last, room, more);
            } else if name[pos] == COMMA || after == 0 {
                lemma_part_more_room(Some(item), room, more);
                if part_reading(Some(item), room) == Reading::Read {
                    lemma_tuple_more_room(name, pos + 1, after, open, pos + 1, room, more);
                }
            } else {
                let end = item_end(name, pos + 1);
                lemma_item_end(name, pos + 1);
                lemma_part_more_room(cut(name, open, end), room, more);
                if part_reading(cut(name, open, end), room) == Reading::Read {
                    lemma_tuple_more_room(name, end, after, open, end, room, more);
                }
            }
        }
    } else {
        lemma_tuple_more_room(name, pos + 1, nested, open, last, room, more);
    }
}

/// Names with commas between them.
pub open spec fn listed(items: Seq<Seq<u32>>) -> Seq<u32>
    decreases items.len(),
{
    if items.len() == 0 {
        Seq::empty()
    } else if items.len() == 1 {
        items[0]
    } else {
        items[0] + seq![',' as u32] + listed(items.skip(1))
    }
}

/// A name that can be an item of a tuple and is no tuple itself.
pub open spec fn is_item(name: Seq<u32>) -> bool {
    &&& name.len() > 0
    &&& is_ascii_name(name)
    &&& forall|i: int|
        0 <= i < name.len() ==> #[trigger] name[i] != '(' as u32 && name[i] != ')' as u32 && name[i]
            != ',' as u32
}

/// Goes over an item that holds nothing special.
proof fn lemma_over_item(name: Seq<u32>, pos: int, end: int, last: int, room: int)
    requires
        0 <= pos <= end <= name.len(),
        forall|i: int|
            pos <= i < end ==> #[trigger] name[i] != OPENING_PAREN && name[i] != CLOSING_PAREN
                && name[i] != COMMA,
    ensures
        tuple_reading(name, pos, 1, 0, last, room) == tuple_reading(name, end, 1, 0, last, room),
    decreases end - pos,
{
    if pos < end {
        assert(name[pos] != OPENING_PAREN);
        lemma_over_item(name, pos + 1, end, last, room);
    }
}

/// The first of several outcomes that stops the reader.
spec fn first_stop(outcomes: Seq<Reading>) -> Reading
    decreases outcomes.len(),
{
    if outcomes.len() == 0 {
        Reading::Read
    } else if outcomes[0] == Reading::Read {
        first_stop(outcomes.skip(1))
    } else {
        outcomes[0]
    }
}

proof fn lemma_nothing_stops(outcomes: Seq<Reading>)
    requires
        forall|i: int| 0 <= i < outcomes.len() ==> #[trigger] outcomes[i] == Reading::Read,
    ensures
        first_stop(outcomes) == Reading::Read,
    decreases outcomes.len(),
{
    if outcomes.len() > 0 {
        lemma_nothing_stops(outcomes.skip(1));
    }
}

proof fn lemma_first_stops(outcomes: Seq<Reading>, k: int)
    requires
        0 <= k < outcomes.len(),
        outcomes[k] != Reading::Read,
        forall|i: int| 0 <= i < k ==> #[trigger] outcomes[i] == Reading::Read,
    ensures
        first_stop(outcomes) == outcomes[k],
    decreases outcomes.len(),
{
    if k > 0 {
        lemma_first_stops(outcomes.skip(1), k - 1);
    }
}

/// What comes of reading each of several names.
spec fn outcomes(items: Seq<Seq<u32>>, room: int) -> Seq<Reading> {
    items.map_values(|item: Seq<u32>| reading(item, room))
}

proof fn lemma_items(name: Seq<u32>, start: int, items: Seq<Seq<u32>>, room: int)
    requires
        room >= 0,
        1 <= start < name.len(),
        is_ascii_name(name),
        name.last() == CLOSING_PAREN,
        items.len() > 0,
        name.subrange(start, name.len() - 1) == listed(items),
        forall|i: int| 0 <= i < items.len() ==> is_item(#[trigger] items[i]),
    ensures
        tuple_reading(name, start, 1, 0, start, room + 1) == first_stop(outcomes(items, room)),
    decreases items.len(),
{
    let item = items[0];
    let rest = items.skip(1);
    let end = start + item.len() as int;
    let body = name.subrange(start, name.len() - 1);
    assert(is_item(item));
    assert(item.len() <= body.len());
    assert forall|i: int| start <= i < end implies #[trigger] name[i] == item[i - start] by {
        assert(body[i - start] == name[i]);
    }
    lemma_over_item(name, start, end, start, room + 1);
    lemma_cut(name, start, end);
    assert(name.subrange(start, end) =~= item);
    assert(part_reading(Some(item), room + 1) == reading(item, room));
    assert(outcomes(items, room).skip(1) =~= outcomes(rest, room));
    assert(outcomes(items, room)[0] == reading(item, room));
    if items.len() == 1 {
        assert(end == name.len() - 1);
        assert(name[end] == CLOSING_PAREN);
        assert(tuple_reading(name, end + 1, 0, 0, end + 1, room + 1) == Reading::Read);
        assert(first_stop(outcomes(rest, room)) == Reading::Read);
    } else {
        assert(body[item.len() as int] == COMMA);
        assert(name[end] == COMMA);
        assert forall|i: int| 0 <= i < rest.len() implies is_item(#[trigger] rest[i]) by {
            assert(rest[i] == items[i + 1]);
        }
        assert(body.skip(item.len() as int + 1) =~= listed(rest));
        assert(name.subrange(end + 1, name.len() - 1) =~= body.skip(item.len() as int + 1));
        assert(is_item(rest[0]));
        assert(listed(rest).len() > 0);
        lemma_items(name, end + 1, rest, room);
    }
}

/// The name of a tuple is read if those of all its items are.
pub proof fn law_tuple_is_read_like_its_items(items: Seq<Seq<u32>>, room: int)
    requires
        room >= 0,
        items.len() > 0,
        forall|i: int| 0 <= i < items.len() ==> is_item(#[trigger] items[i]),
        forall|i: int|
            0 <= i < items.len() ==> reading(#[trigger] items[i], room) == Reading::Read,
    ensures
        reading(seq!['(' as u32] + listed(items) + seq![')' as u32], room + 1) == Reading::Read,
{
    lemma_tuple(items, room);
    lemma_nothing_stops(outcomes(items, room));
}

/// If not all items of a tuple are read, what comes of its name is what comes of that of the first
/// item that is not read.
pub proof fn law_tuple_is_stopped_by_an_item(items: Seq<Seq<u32>>, k: int, room: int)
    requires
        room >= 0,
        0 <= k < items.len(),
        forall|i: int| 0 <= i < items.len() ==> is_item(#[trigger] items[i]),
        forall|i: int| 0 <= i < k ==> reading(#[trigger] items[i], room) == Reading::Read,
        reading(items[k], room) != Reading::Read,
    ensures
        reading(seq!['(' as u32] + listed(items) + seq![')' as u32], room + 1) == reading(
            items[k],
            room,
        ),
{
    lemma_tuple(items, room);
    lemma_first_stops(outcomes(items, room), k);
}

proof fn lemma_tuple(items: Seq<Seq<u32>>, room: int)
    requires
        room >= 0,
        items.len() > 0,
        forall|i: int| 0 <= i < items.len() ==> is_item(#[trigger] items[i]),
    ensures
        reading(seq!['(' as u32] + listed(items) + seq![')' as u32], room + 1) == first_stop(
            outcomes(items, room),
        ),
{
    let name = seq!['(' as u32] + listed(items) + seq![')' as u32];
    lemma_listed_ascii(items);
    assert(name.subrange(1, name.len() - 1) =~= listed(items));
    assert forall|i: int| 0 <= i < name.len() implies #[trigger] name[i] < 0x80 by {
        if 0 < i < name.len() - 1 {
            assert(name[i] == listed(items)[i - 1]);
        }
    }
    assert(name[0] == OPENING_PAREN);
    assert(tuple_reading(name, 0, 0, 0, 1, room + 1) == tuple_reading(name, 1, 1, 0, 1, room + 1));
    lemma_items(name, 1, items, room);
}

proof fn lemma_listed_ascii(items: Seq<Seq<u32>>)
    requires
        forall|i: int| 0 <= i < items.len() ==> is_item(#[trigger] items[i]),
    ensures
        is_ascii_name(listed(items)),
    decreases items.len(),
{
    if items.len() > 0 {
        assert(is_item(items[0]));
        if items.len() > 1 {
            let rest = items.skip(1);
            assert forall|i: int| 0 <= i < rest.len() implies is_item(#[trigger] rest[i]) by {
                assert(rest[i] == items[i + 1]);
            }
            lemma_listed_ascii(rest);
        }
    }
}

/// The bytes that a name takes.
pub open spec fn bytes(name: Seq<u32>) -> int
    decreases name.len(),
{
    if name.len() == 0 {
        0
    } else {
        width(name[0]) + bytes(name.skip(1))
    }
}

proof fn lemma_place_behind_part(name: Seq<u32>, i: int, part: Seq<u32>)
    requires
        0 <= i,
        i + part.len() <= name.len(),
        name.subrange(i, i + part.len()) == part,
    ensures
        place_behind(name, i, bytes(part)) == Some(i + part.len()),
        bytes(part) >= part.len(),
    decreases part.len(),
{
    if part.len() > 0 {
        let rest = part.skip(1);
        assert(name.subrange(i, i + part.len())[0] == name[i]);
        assert(name.subrange(i + 1, i + 1 + rest.len()) =~= rest);
        lemma_place_behind_part(name, i + 1, rest);
    }
}

proof fn lemma_bytes_of_both(a: Seq<u32>, b: Seq<u32>)
    ensures
        bytes(a + b) == bytes(a) + bytes(b),
    decreases a.len(),
{
    if a.len() == 0 {
        assert(a + b =~= b);
    } else {
        assert((a + b).skip(1) =~= a.skip(1) + b);
        lemma_bytes_of_both(a.skip(1), b);
    }
}

/// A cut between code points gives what stands between the two places.
pub proof fn law_cut(a: Seq<u32>, b: Seq<u32>, c: Seq<u32>)
    ensures
        cut(a + b + c, bytes(a), bytes(a) + bytes(b)) == Some(b),
{
    let name = a + b + c;
    assert(name.subrange(0, a.len() as int) =~= a);
    lemma_place_behind_part(name, 0, a);
    assert(name.subrange(0, (a + b).len() as int) =~= a + b);
    lemma_place_behind_part(name, 0, a + b);
    lemma_bytes_of_both(a, b);
    assert(name.subrange(a.len() as int, (a + b).len() as int) =~= b);
}

/// There is no cut amid a code point, nor past the end.
pub proof fn law_no_cut_amid_a_code_point(
    a: Seq<u32>,
    code: u32,
    c: Seq<u32>,
    k: int,
    other: int,
)
    requires
        0 < k < width(code),
    ensures
        cut(a + seq![code] + c, other, bytes(a) + k) is None,
        cut(a + seq![code] + c, bytes(a) + k, other) is None,
        cut(a, other, bytes(a) + k) is None,
{
    let name = a + seq![code] + c;
    assert(name.subrange(0, a.len() as int) =~= a);
    lemma_amid(name, 0, a, code, k);
    lemma_past(a, 0, k);
    assert(a.skip(0) =~= a);
}

proof fn lemma_amid(name: Seq<u32>, i: int, part: Seq<u32>, code: u32, k: int)
    requires
        0 <= i,
        i + part.len() < name.len(),
        name.subrange(i, i + part.len()) == part,
        name[i + part.len()] == code,
        0 < k < width(code),
    ensures
        place_behind(name, i, bytes(part) + k) is None,
    decreases part.len(),
{
    if part.len() == 0 {
        assert(place_behind(name, i + 1, k - width(code)) is None);
    } else {
        let rest = part.skip(1);
        assert(name.subrange(i, i + part.len())[0] == name[i]);
        assert(name.subrange(i + 1, i + 1 + rest.len()) =~= rest);
        lemma_bytes_not_negative(rest);
        lemma_amid(name, i + 1, rest, code, k);
    }
}

proof fn lemma_past(name: Seq<u32>, i: int, k: int)
    requires
        0 <= i <= name.len(),
        0 < k,
    ensures
        place_behind(name, i, bytes(name.skip(i)) + k) is None,
    decreases name.len() - i,
{
    if i < name.len() {
        assert(name.skip(i).skip(1) =~= name.skip(i + 1));
        lemma_bytes_not_negative(name.skip(i + 1));
        lemma_past(name, i + 1, k);
    }
}

proof fn lemma_bytes_not_negative(name: Seq<u32>)
    ensures
        bytes(name) >= 0,
    decreases name.len(),
{
    if name.len() > 0 {
        lemma_bytes_not_negative(name.skip(1));
    }
}

/// A code point takes as many bytes as its character does in UTF-8.
pub proof fn law_width(c: char)
    ensures
        width(c as u32) == vstd::utf8::encode_utf8(seq![c]).len(),
{
    let one = seq![c];
    assert(one.drop_first() =~= Seq::empty());
    assert(vstd::utf8::encode_utf8(Seq::empty()).len() == 0);
    assert(one[0] == c);
}

/// A part of a tuple: an item, or a tuple of items, with what follows its closing parenthesis.
pub ghost enum Part {
    Item(Seq<u32>),
    Group(Seq<Seq<u32>>, Seq<u32>),
}

/// What holds nothing special for a tuple.
pub open spec fn is_bare(name: Seq<u32>) -> bool {
    &&& is_ascii_name(name)
    &&& forall|i: int|
        0 <= i < name.len() ==> #[trigger] name[i] != '(' as u32 && name[i] != ')' as u32 && name[i]
            != ',' as u32
}

impl Part {
    pub open spec fn name(self) -> Seq<u32> {
        match self {
            Part::Item(name) => name,
            Part::Group(items, suffix) => seq!['(' as u32] + listed(items) + seq![')' as u32]
                + suffix,
        }
    }

    /// The part and what it is made of are read.
    pub open spec fn is_read(self, room: int) -> bool {
        &&& reading(self.name(), room) == Reading::Read
        &&& match self {
            Part::Item(name) => is_item(name),
            Part::Group(items, suffix) => {
                &&& items.len() > 0
                &&& is_bare(suffix)
                &&& forall|i: int|
                    0 <= i < items.len() ==> is_item(#[trigger] items[i]) && reading(items[i], room)
                        == Reading::Read
            },
        }
    }
}

/// The names of parts.
pub open spec fn part_names(parts: Seq<Part>) -> Seq<Seq<u32>> {
    parts.map_values(|part: Part| part.name())
}

proof fn lemma_over_bare(
    name: Seq<u32>,
    pos: int,
    end: int,
    nested: int,
    open: int,
    last: int,
    room: int,
)
    requires
        0 <= pos <= end <= name.len(),
        forall|i: int|
            pos <= i < end ==> #[trigger] name[i] != OPENING_PAREN && name[i] != CLOSING_PAREN
                && name[i] != COMMA,
    ensures
        tuple_reading(name, pos, nested, open, last, room) == tuple_reading(
            name,
            end,
            nested,
            open,
            last,
            room,
        ),
        end < name.len() && (name[end] == COMMA || name[end] == CLOSING_PAREN) ==> item_end(
            name,
            pos,
        ) == end,
    decreases end - pos,
{
    if pos < end {
        assert(name[pos] != OPENING_PAREN);
        lemma_over_bare(name, pos + 1, end, nested, open, last, room);
    }
}

/// Goes over the items of an inner tuple up to its closing parenthesis.
proof fn lemma_over_group(
    name: Seq<u32>,
    start: int,
    items: Seq<Seq<u32>>,
    open: int,
    room: int,
) -> (last: int)
    requires
        room >= 0,
        is_ascii_name(name),
        0 <= start,
        items.len() > 0,
        start + listed(items).len() < name.len(),
        name.subrange(start, start + listed(items).len()) == listed(items),
        name[start + listed(items).len()] == CLOSING_PAREN,
        forall|i: int|
            0 <= i < items.len() ==> is_item(#[trigger] items[i]) && reading(items[i], room)
                == Reading::Read,
    ensures
        start <= last < start + listed(items).len(),
        tuple_reading(name, start, 2, open, start, room + 1) == tuple_reading(
            name,
            start + listed(items).len(),
            2,
            open,
            last,
            room + 1,
        ),
    decreases items.len(),
{
    let item = items[0];
    let whole = listed(items);
    let end = start + item.len() as int;
    assert(is_item(item));
    assert(item.len() <= whole.len());
    assert forall|i: int| start <= i < end implies #[trigger] name[i] == item[i - start] by {
        assert(name.subrange(start, start + whole.len())[i - start] == whole[i - start]);
    }
    lemma_over_bare(name, start, end, 2, open, start, room + 1);
    if items.len() == 1 {
        start
    } else {
        let rest = items.skip(1);
        assert(whole[item.len() as int] == COMMA);
        assert(name.subrange(start, start + whole.len())[item.len() as int] == name[end]);
        assert forall|i: int| 0 <= i < rest.len() implies is_item(#[trigger] rest[i]) && reading(
            rest[i],
            room,
        ) == Reading::Read by {
            assert(rest[i] == items[i + 1]);
        }
        assert(whole.skip(item.len() as int + 1) =~= listed(rest));
        assert(name.subrange(end + 1, end + 1 + listed(rest).len()) =~= name.subrange(
            start,
            start + whole.len(),
        ).skip(item.len() as int + 1));
        lemma_cut(name, start, end);
        assert(name.subrange(start, end) =~= item);
        assert(part_reading(Some(item), room + 1) == reading(item, room));
        assert(tuple_reading(name, end, 2, open, start, room + 1) == tuple_reading(
            name,
            end + 1,
            2,
            open,
            end + 1,
            room + 1,
        ));
        lemma_over_group(name, end + 1, rest, open, room)
    }
}

/// Goes over a part, which is read.
proof fn lemma_over_part(name: Seq<u32>, start: int, part: Part, open: int, room: int) -> (next:
    int)
    requires
        room >= 0,
        is_ascii_name(name),
        1 <= start,
        start + part.name().len() < name.len(),
        name.subrange(start, start + part.name().len()) == part.name(),
        name[start + part.name().len()] == CLOSING_PAREN || name[start + part.name().len()]
            == COMMA,
        part.is_read(room),
    ensures
        ({
            let end = start + part.name().len();
            let after = if name[end] == COMMA {
                1int
            } else {
                0int
            };
            tuple_reading(name, start, 1, open, start, room + 1) == tuple_reading(
                name,
                end + 1,
                after,
                next,
                end + 1,
                room + 1,
            )
        }),
{
    let whole = part.name();
    let end = start + whole.len() as int;
    assert forall|i: int| start <= i < end implies #[trigger] name[i] == whole[i - start] by {
        assert(name.subrange(start, end)[i - start] == whole[i - start]);
    }
    match part {
        Part::Item(item) => {
            lemma_over_bare(name, start, end, 1, open, start, room + 1);
            lemma_cut(name, start, end);
            assert(part_reading(Some(item), room + 1) == reading(item, room));
            open
        },
        Part::Group(items, suffix) => {
            let inner = listed(items);
            let closing = start + 1 + inner.len() as int;
            assert(name[start] == OPENING_PAREN);
            assert(name[closing] == whole[1 + inner.len() as int]);
            assert(name.subrange(start + 1, closing) =~= inner);
            let last = lemma_over_group(name, start + 1, items, start, room);
            lemma_cut(name, last, closing);
            assert forall|i: int| closing < i < end implies #[trigger] name[i] != OPENING_PAREN
                && name[i] != CLOSING_PAREN && name[i] != COMMA by {
                assert(name[i] == suffix[i - closing - 1]);
            }
            lemma_over_bare(name, closing + 1, end, 1, start, end, room + 1);
            lemma_cut(name, start, end);
            assert(part_reading(Some(whole), room + 1) == reading(whole, room));
            assert(tuple_reading(name, closing, 2, start, last, room + 1) == tuple_reading(
                name,
                end,
                1,
                start,
                end,
                room + 1,
            ));
            lemma_cut(name, end, end);
            assert(name.subrange(end, end).len() == 0);
            start
        },
    }
}

proof fn lemma_parts(name: Seq<u32>, start: int, parts: Seq<Part>, open: int, room: int)
    requires
        room >= 0,
        1 <= start < name.len(),
        is_ascii_name(name),
        name.last() == CLOSING_PAREN,
        parts.len() > 0,
        name.subrange(start, name.len() - 1) == listed(part_names(parts)),
        forall|i: int| 0 <= i < parts.len() ==> (#[trigger] parts[i]).is_read(room),
    ensures
        tuple_reading(name, start, 1, open, start, room + 1) == Reading::Read,
    decreases parts.len(),
{
    let names = part_names(parts);
    let part = parts[0];
    let body = name.subrange(start, name.len() - 1);
    let end = start + part.name().len() as int;
    assert(part.is_read(room));
    assert(names[0] == part.name());
    assert(part.name().len() <= body.len());
    assert(name.subrange(start, end) =~= body.take(part.name().len() as int));
    assert(body.take(part.name().len() as int) =~= part.name());
    if parts.len() == 1 {
        assert(end == name.len() - 1);
        let next = lemma_over_part(name, start, part, open, room);
    } else {
        let rest = parts.skip(1);
        assert(part_names(rest) =~= names.skip(1));
        assert(body[part.name().len() as int] == COMMA);
        assert(name[end] == COMMA);
        let next = lemma_over_part(name, start, part, open, room);
        assert forall|i: int| 0 <= i < rest.len() implies (#[trigger] rest[i]).is_read(room) by {
            assert(rest[i] == parts[i + 1]);
        }
        assert(body.skip(part.name().len() as int + 1) =~= listed(part_names(rest)));
        assert(name.subrange(end + 1, name.len() - 1) =~= body.skip(part.name().len() as int + 1));
        lemma_parts(name, end + 1, rest, next, room);
    }
}

proof fn lemma_parts_ascii(parts: Seq<Part>, room: int)
    requires
        forall|i: int| 0 <= i < parts.len() ==> (#[trigger] parts[i]).is_read(room),
    ensures
        is_ascii_name(listed(part_names(parts))),
    decreases parts.len(),
{
    if parts.len() > 0 {
        let names = part_names(parts);
        let part = parts[0];
        assert(part.is_read(room));
        assert(names[0] == part.name());
        if let Part::Group(items, suffix) = part {
            lemma_listed_ascii(items);
        }
        assert(is_ascii_name(part.name()));
        if parts.len() > 1 {
            let rest = parts.skip(1);
            assert(part_names(rest) =~= names.skip(1));
            assert forall|i: int| 0 <= i < rest.len() implies (#[trigger] rest[i]).is_read(
                room,
            ) by {
                assert(rest[i] == parts[i + 1]);
            }
            lemma_parts_ascii(rest, room);
        }
    }
}

/// The name of a tuple is read if all its parts are, be they items or tuples of items or arrays of
/// such tuples.
pub proof fn law_nested_tuple_is_read_like_its_parts(parts: Seq<Part>, room: int)
    requires
        room >= 0,
        parts.len() > 0,
        forall|i: int| 0 <= i < parts.len() ==> (#[trigger] parts[i]).is_read(room),
    ensures
        reading(seq!['(' as u32] + listed(part_names(parts)) + seq![')' as u32], room + 1)
            == Reading::Read,
{
    let names = part_names(parts);
    let name = seq!['(' as u32] + listed(names) + seq![')' as u32];
    lemma_parts_ascii(parts, room);
    assert(name.subrange(1, name.len() - 1) =~= listed(names));
    assert forall|i: int| 0 <= i < name.len() implies #[trigger] name[i] < 0x80 by {
        if 0 < i < name.len() - 1 {
            assert(name[i] == listed(names)[i - 1]);
        }
    }
    assert(name[0] == OPENING_PAREN);
    assert(tuple_reading(name, 0, 0, 0, 1, room + 1) == tuple_reading(name, 1, 1, 0, 1, room + 1));
    lemma_parts(name, 1, parts, 0, room);
}

} // verus!
