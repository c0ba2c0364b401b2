//! Says what comes of reading the name of a type.
//!
//! An ABI gives types by their names: `uint256`, `bytes32[4][]`, `(address,bool)`. Their reader,
//! `ethabi::param_type::Reader`, takes a name apart from the outside in. It counts in characters and
//! cuts at bytes, takes it for granted that a closing bracket was opened, and calls itself for
//! every part. So there are names on which it panics. This module follows its cuts, to tell these
//! names from the others.
//!
//! A name is given by its code points.
use crate::json::{codes, is_word};
use vstd::prelude::*;
use vstd::slice::slice_subrange;
use vstd::string::*;

verus! {

pub const OPENING_PAREN: u32 = 0x28;

pub const CLOSING_PAREN: u32 = 0x29;

pub const PLUS: u32 = 0x2b;

pub const COMMA: u32 = 0x2c;

pub const OPENING_BRACKET: u32 = 0x5b;

pub const CLOSING_BRACKET: u32 = 0x5d;

/// What comes of reading a name.
#[derive(Clone, Copy, Debug, PartialEq, Eq, Structural)]
pub enum Reading {
    /// The name is that of a type.
    Read,
    /// The name is refused.
    Refused,
    /// The reader panics, or its calls of itself are nested too deep.
    Fatal,
}

/// The number of bytes that a code point takes.
pub open spec fn width(code: u32) -> int {
    if code < 0x80 {
        1
    } else if code < 0x800 {
        2
    } else if code < 0x10000 {
        3
    } else {
        4
    }
}

/// The place that lies `bytes` behind `i`, unless that is amid a code point or past the end.
pub open spec fn place_behind(name: Seq<u32>, i: int, bytes: int) -> Option<int>
    decreases name.len() - i,
{
    if bytes == 0 {
        Some(i)
    } else if bytes < 0 || i >= name.len() {
        None
    } else {
        place_behind(name, i + 1, bytes - width(name[i]))
    }
}

/// The part of a name between two bytes. There is none if the bytes are out of range or out of
/// order, or if one of them is amid a code point.
pub open spec fn cut(name: Seq<u32>, from: int, to: int) -> Option<Seq<u32>> {
    match (place_behind(name, 0, from), place_behind(name, 0, to)) {
        (Some(i), Some(j)) if i <= j => Some(name.subrange(i, j)),
        _ => None,
    }
}

/// The number that digits make.
pub open spec fn decimal(digits: Seq<u32>) -> int
    decreases digits.len(),
{
    if digits.len() == 0 {
        0
    } else {
        10 * decimal(digits.drop_last()) + (digits.last() - 0x30)
    }
}

/// Whether a text is one or more digits that make a `usize`.
pub open spec fn are_digits(text: Seq<u32>) -> bool {
    &&& text.len() > 0
    &&& forall|i: int| 0 <= i < text.len() ==> 0x30 <= #[trigger] text[i] <= 0x39
    &&& decimal(text) <= usize::MAX
}

/// Whether a text can be read as a `usize`: digits, which may have a plus before them.
pub open spec fn is_number(text: Seq<u32>) -> bool {
    if text.len() > 0 && text[0] == PLUS {
        are_digits(text.skip(1))
    } else {
        are_digits(text)
    }
}

/// Whether a name is a word, or that word followed by a number.
pub open spec fn is_sized(name: Seq<u32>, word: Seq<char>) -> bool {
    name.len() == word.len() || is_number(name.skip(word.len() as int))
}

/// Whether a name begins with a word.
pub open spec fn begins_with(name: Seq<u32>, word: Seq<char>) -> bool {
    word.len() <= name.len() && name.take(word.len() as int) == codes(word)
}

/// What comes of reading a name that is neither that of an array nor that of a tuple. Names that
/// are not known otherwise are those of enumerations.
pub open spec fn plain_reading(name: Seq<u32>) -> Reading {
    let is_read = if begins_with(name, "int"@) {
        is_sized(name, "int"@)
    } else if begins_with(name, "uint"@) {
        is_sized(name, "uint"@)
    } else if begins_with(name, "bytes"@) {
        is_sized(name, "bytes"@)
    } else {
        true
    };
    if is_read {
        Reading::Read
    } else {
        Reading::Refused
    }
}

/// Behind the last opening bracket among the first `n` code points, or at the start if there is
/// none.
pub open spec fn behind_opening(name: Seq<u32>, n: int) -> int
    decreases n,
{
    if n <= 0 {
        0
    } else if name[n - 1] == OPENING_BRACKET {
        n
    } else {
        behind_opening(name, n - 1)
    }
}

/// What comes of reading the name of an array: that of its items, without the brackets and the
/// number between them, is read. There are `room` calls left.
pub open spec fn array_reading(name: Seq<u32>, room: int) -> Reading
    decreases room, 1int,
{
    let number = name.subrange(behind_opening(name, name.len() - 1), name.len() - 1);
    if number.len() > 0 && !is_number(number) {
        Reading::Refused
    } else {
        part_reading(cut(name, 0, name.len() - number.len() - 2), room)
    }
}

/// The first comma or closing parenthesis from `i` on.
pub open spec fn item_end(name: Seq<u32>, i: int) -> int
    decreases name.len() - i,
{
    if i < name.len() && name[i] != COMMA && name[i] != CLOSING_PAREN {
        item_end(name, i + 1)
    } else {
        i
    }
}

/// What comes of reading the name of a tuple from `pos` on, `nested` parentheses deep, of which the
/// last was opened at `open`. What lies before `last` has been read.
pub open spec fn tuple_reading(
    name: Seq<u32>,
    pos: int,
    nested: int,
    open: int,
    last: int,
    room: int,
) -> Reading
    decreases room, 1 + (name.len() + 1 - pos),
{
    if pos < 0 || pos >= name.len() {
        Reading::Read
    } else if name[pos] == OPENING_PAREN {
        let last = if nested > 0 {
            pos + 1
        } else {
            last
        };
        tuple_reading(name, pos + 1, nested + 1, pos, last, room)
    } else if name[pos] == CLOSING_PAREN && nested <= 0 {
        Reading::Refused
    } else if name[pos] == CLOSING_PAREN || name[pos] == COMMA {
        let after = if name[pos] == COMMA {
            nested
        } else {
            nested - 1
        };
        match cut(name, last, pos) {
            None => Reading::Fatal,
            Some(item) => {
                if item.len() == 0 {
                    tuple_reading(name, pos + 1, after, open, pos + 1, room)
                } else if name[pos] == COMMA && nested <= 0 {
                    tuple_reading(name, pos + 1, after, open, last, room)
                } else if name[pos] == COMMA || after == 0 {
                    match part_reading(Some(item), room) {
                        Reading::Read => tuple_reading(name, pos + 1, after, open, pos + 1, room),
                        stopped => stopped,
                    }
                } else {
                    let end = item_end(name, pos + 1);
                    proof {
                        lemma_item_end(name, pos + 1);
                    }
                    match part_reading(cut(name, open, end), room) {
                        Reading::Read => tuple_reading(name, end, after, open, end, room),
                        stopped => stopped,
                    }
                }
            },
        }
    } else {
        tuple_reading(name, pos + 1, nested, open, last, room)
    }
}

/// What comes of reading a part of a name. There are `room` calls left.
pub open spec fn part_reading(part: Option<Seq<u32>>, room: int) -> Reading
    decreases room, 0int,
{
    match part {
        Some(part) if room > 0 => reading(part, room - 1),
        _ => Reading::Fatal,
    }
}

/// What comes of reading a name if the reader can call itself `room` times, one call in the other.
pub open spec fn reading(name: Seq<u32>, room: int) -> Reading
    decreases room, 3 + name.len(),
{
    if name.len() == 0 {
        Reading::Read
    } else if name.last() == CLOSING_PAREN {
        if name[0] == OPENING_PAREN {
            tuple_reading(name, 0, 0, 0, 1, room)
        } else {
            Reading::Refused
        }
    } else if name.last() == CLOSING_BRACKET {
        array_reading(name, room)
    } else {
        plain_reading(name)
    }
}

/// An item does not end before it begins.
pub proof fn lemma_item_end(name: Seq<u32>, i: int)
    ensures
        i <= item_end(name, i),
        i <= name.len() ==> item_end(name, i) <= name.len(),
    decreases name.len() - i,
{
    if i < name.len() && name[i] != COMMA && name[i] != CLOSING_PAREN {
        lemma_item_end(name, i + 1);
    }
}

proof fn lemma_behind_opening(name: Seq<u32>, n: int)
    requires
        0 <= n,
    ensures
        0 <= behind_opening(name, n) <= n,
    decreases n,
{
    if n > 0 {
        lemma_behind_opening(name, n - 1);
    }
}

/// More digits never make a smaller number.
proof fn lemma_decimal_grows(digits: Seq<u32>, n: int)
    requires
        0 <= n <= digits.len(),
        forall|i: int| 0 <= i < digits.len() ==> 0x30 <= #[trigger] digits[i] <= 0x39,
    ensures
        0 <= decimal(digits.take(n)) <= decimal(digits),
    decreases digits.len(),
{
    if n == digits.len() {
        assert(digits.take(n) =~= digits);
        if n > 0 {
            lemma_decimal_grows(digits.drop_last(), n - 1);
            assert(digits[n - 1] == digits.last());
        }
    } else {
        lemma_decimal_grows(digits.drop_last(), n);
        assert(digits.drop_last().take(n) =~= digits.take(n));
        assert(digits[digits.len() - 1] == digits.last());
    }
}

fn code_width(code: u32) -> (bytes: usize)
    ensures
        bytes == width(code),
{
    if code < 0x80 {
        1
    } else if code < 0x800 {
        2
    } else if code < 0x10000 {
        3
    } else {
        4
    }
}

/// Finds the place that lies `bytes` behind the start of a name.
fn find_place(name: &[u32], bytes: usize) -> (place: Option<usize>)
    ensures
        match place {
            Some(place) => place_behind(name@, 0, bytes as int) == Some(place as int) && place
                <= name@.len(),
            None => place_behind(name@, 0, bytes as int) is None,
        },
{
    let mut rest: usize = bytes;
    let mut i: usize = 0;
    while rest > 0
        invariant
            i <= name@.len(),
            place_behind(name@, i as int, rest as int) == place_behind(name@, 0, bytes as int),
        decreases rest,
    {
        if i == name.len() {
            return None;
        }
        let taken: usize = code_width(name[i]);
        if rest < taken {
            assert(place_behind(name@, i + 1, rest - taken) is None);
            return None;
        }
        rest = rest - taken;
        i = i + 1;
    }
    Some(i)
}

/// Cuts out the part of a name between two bytes.
fn cut_out(name: &[u32], from: usize, to: usize) -> (part: Option<&[u32]>)
    ensures
        match part {
            Some(part) => cut(name@, from as int, to as int) == Some(part@),
            None => cut(name@, from as int, to as int) is None,
        },
{
    match (find_place(name, from), find_place(name, to)) {
        (Some(i), Some(j)) => if i <= j {
            Some(slice_subrange(name, i, j))
        } else {
            None
        },
        _ => None,
    }
}

fn reads_as_digits(text: &[u32]) -> (digits: bool)
    ensures
        digits == are_digits(text@),
{
    if text.len() == 0 {
        return false;
    }
    let mut i: usize = 0;
    while i < text.len()
        invariant
            i <= text@.len(),
            forall|j: int| 0 <= j < i ==> 0x30 <= #[trigger] text@[j] <= 0x39,
        decreases text@.len() - i,
    {
        if text[i] < 0x30 || 0x39 < text[i] {
            return false;
        }
        i = i + 1;
    }
    let mut number: usize = 0;
    let mut k: usize = 0;
    while k < text.len()
        invariant
            k <= text@.len(),
            forall|j: int| 0 <= j < text@.len() ==> 0x30 <= #[trigger] text@[j] <= 0x39,
            number == decimal(text@.take(k as int)),
        decreases text@.len() - k,
    {
        proof {
            let taken = text@.take(k + 1);
            assert(taken.drop_last() =~= text@.take(k as int));
            assert(taken.last() == text@[k as int]);
            lemma_decimal_grows(text@, k + 1);
        }
        let digit: usize = (text[k] - 0x30) as usize;
        let longer: u128 = 10 * (number as u128) + digit as u128;
        if longer > usize::MAX as u128 {
            return false;
        }
        number = longer as usize;
        k = k + 1;
    }
    assert(text@.take(k as int) =~= text@);
    true
}

fn reads_as_number(text: &[u32]) -> (number: bool)
    ensures
        number == is_number(text@),
{
    if text.len() > 0 && text[0] == PLUS {
        let digits: &[u32] = slice_subrange(text, 1, text.len());
        assert(digits@ =~= text@.skip(1));
        reads_as_digits(digits)
    } else {
        reads_as_digits(text)
    }
}

/// Whether a name that begins with a word is that word, or that word followed by a number. `None` if
/// it does not begin with the word.
fn read_sized(name: &[u32], word: &str) -> (sized: Option<bool>)
    ensures
        sized == if begins_with(name@, word@) {
            Some(is_sized(name@, word@))
        } else {
            None
        },
{
    let n: usize = word.unicode_len();
    if name.len() < n {
        return None;
    }
    let start: &[u32] = slice_subrange(name, 0, n);
    assert(start@ =~= name@.take(n as int));
    if !is_word(start, word) {
        return None;
    }
    let rest: &[u32] = slice_subrange(name, n, name.len());
    assert(rest@ =~= name@.skip(n as int));
    Some(name.len() == n || reads_as_number(rest))
}

fn read_plain(name: &[u32]) -> (outcome: Reading)
    ensures
        outcome == plain_reading(name@),
{
    let is_read: bool = match read_sized(name, "int") {
        Some(sized) => sized,
        None => match read_sized(name, "uint") {
            Some(sized) => sized,
            None => match read_sized(name, "bytes") {
                Some(sized) => sized,
                None => true,
            },
        },
    };
    if is_read {
        Reading::Read
    } else {
        Reading::Refused
    }
}

/// Finds what comes of reading a part of a name.
fn read_part(part: Option<&[u32]>, room: usize) -> (outcome: Reading)
    ensures
        outcome == part_reading(
            match part {
                Some(part) => Some(part@),
                None => None,
            },
            room as int,
        ),
    decreases room, 0int,
{
    match part {
        Some(part) => if room > 0 {
            read_name(part, room - 1)
        } else {
            Reading::Fatal
        },
        None => Reading::Fatal,
    }
}

fn read_array(name: &[u32], room: usize) -> (outcome: Reading)
    requires
        name@.len() > 0,
    ensures
        outcome == array_reading(name@, room as int),
    decreases room, 1int,
{
    let n: usize = name.len();
    let mut behind: usize = n - 1;
    while behind > 0 && name[behind - 1] != OPENING_BRACKET
        invariant
            behind <= n - 1,
            n == name@.len(),
            behind_opening(name@, n - 1) == behind_opening(name@, behind as int),
        ensures
            behind <= n - 1,
            behind == behind_opening(name@, n - 1),
        decreases behind,
    {
        behind = behind - 1;
    }
    let number: &[u32] = slice_subrange(name, behind, n - 1);
    let m: usize = number.len();
    if m > 0 && !reads_as_number(number) {
        return Reading::Refused;
    }
    if n - m < 2 {
        assert(cut(name@, 0, n - m - 2) is None);
        return Reading::Fatal;
    }
    read_part(cut_out(name, 0, n - m - 2), room)
}

fn find_item_end(name: &[u32], start: usize) -> (end: usize)
    requires
        start <= name@.len(),
    ensures
        end == item_end(name@, start as int),
        start <= end <= name@.len(),
{
    let mut i: usize = start;
    while i < name.len() && name[i] != COMMA && name[i] != CLOSING_PAREN
        invariant
            start <= i <= name@.len(),
            item_end(name@, i as int) == item_end(name@, start as int),
        decreases name@.len() - i,
    {
        i = i + 1;
    }
    i
}

fn read_tuple(name: &[u32], room: usize) -> (outcome: Reading)
    ensures
        outcome == tuple_reading(name@, 0, 0, 0, 1, room as int),
    decreases room, 1int,
{
    let n: usize = name.len();
    let mut pos: usize = 0;
    let mut nested: usize = 0;
    let mut open: usize = 0;
    let mut last: usize = 1;
    while pos < n
        invariant
            n == name@.len(),
            pos <= n,
            nested <= pos,
            tuple_reading(name@, 0, 0, 0, 1, room as int) == tuple_reading(
                name@,
                pos as int,
                nested as int,
                open as int,
                last as int,
                room as int,
            ),
        decreases n - pos,
    {
        let code: u32 = name[pos];
        if code == OPENING_PAREN {
            if nested > 0 {
                last = pos + 1;
            }
            open = pos;
            nested = nested + 1;
            pos = pos + 1;
        } else if code == CLOSING_PAREN && nested == 0 {
            return Reading::Refused;
        } else if code == CLOSING_PAREN || code == COMMA {
            let is_comma: bool = code == COMMA;
            let after: usize = if is_comma {
                nested
            } else {
                nested - 1
            };
            match cut_out(name, last, pos) {
                None => {
                    return Reading::Fatal;
                },
                Some(item) => {
                    let mut end: usize = pos + 1;
                    if item.len() > 0 {
                        if is_comma && nested == 0 {
                            pos = pos + 1;
                            continue ;
                        }
                        let part: Option<&[u32]> = if is_comma || after == 0 {
                            Some(item)
                        } else {
                            end = find_item_end(name, pos + 1);
                            cut_out(name, open, end)
                        };
                        match read_part(part, room) {
                            Reading::Read => {},
                            stopped => {
                                return stopped;
                            },
                        }
                    }
                    nested = after;
                    pos = end;
                    last = end;
                },
            }
        } else {
            pos = pos + 1;
        }
    }
    Reading::Read
}

/// Finds what comes of reading a name if the reader can call itself `room` times, one call in the
/// other.
pub fn read_name(name: &[u32], room: usize) -> (outcome: Reading)
    ensures
        outcome == reading(name@, room as int),
    decreases room, 2int,
{
    let n: usize = name.len();
    if n == 0 {
        Reading::Read
    } else if name[n - 1] == CLOSING_PAREN {
        if name[0] == OPENING_PAREN {
            read_tuple(name, room)
        } else {
            Reading::Refused
        }
    } else if name[n - 1] == CLOSING_BRACKET {
        read_array(name, room)
    } else {
        read_plain(name)
    }
}

} // verus!
