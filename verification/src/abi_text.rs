//! Looks over the text of an ABI before it is read.
//!
//! The JSON of an ABI is an array of operations. An operation says by its tag, under the key `type`,
//! whether it is a function, an event or something else. Functions, constructors, events and errors
//! have parameters, and a parameter has the name of its type, under the key `type` as well, and the
//! parameters of which it is composed. The names of types are read one after the other, in the order
//! of the text, until one of them is refused. This module finds the first one that is not read: if
//! it is fatal to the reader, the text must not be read as it stands.
use crate::json::{
    after_blanks, codes, entry_value, lemma_literal_end, literal_end, member_value, next_entry,
    string_at, value_end,
};
use crate::json::{
    find_entry_value, find_literal_end, find_member_value, find_next_entry, find_value_end, is_word,
    read_string, skip_blanks,
};
use crate::reading::{read_name, reading, Reading, CLOSING_BRACKET};
use vstd::prelude::*;
use vstd::string::*;

verus! {

/// How deep arrays and objects may be nested. `serde_json` reads none that are nested deeper.
pub const MAX_DEPTH: usize = 128;

/// How many brackets the name of a type may have, together with those of the types that it is
/// composed into. For each of them the reader calls itself, which takes about three kilobytes of the
/// stack if nothing is optimised. This many calls fit into the two megabytes that a spawned thread
/// has by default, and not many more.
pub const MAX_BRACKETS: usize = 512;

/// What a value in the text of an ABI is.
#[derive(Clone, Copy, Debug)]
pub enum Place {
    /// The operations.
    Operations,
    /// An operation.
    Operation,
    /// Parameters, whose types may have `room` brackets.
    Params { room: usize },
    /// A parameter, whose type may have `room` brackets.
    Param { room: usize },
    /// The name of a type, which may have `room` brackets.
    Type { room: usize },
    /// Something in which there are no types.
    Other,
}

/// The string that a value is. A value that is no string counts as an empty one.
pub open spec fn string_value(text: Seq<char>, value: Option<int>) -> Seq<u32> {
    match value {
        Some(quote) if 0 <= quote < text.len() && text[quote] == '"' => string_at(text, quote),
        _ => Seq::empty(),
    }
}

/// The tag of an operation: its member `type`, or its first item if it is an array.
pub open spec fn tag(text: Seq<char>, operation: int) -> Seq<u32> {
    let first = after_blanks(text, operation + 1);
    if text[operation] == '{' {
        string_value(text, member_value(text, first, "type"@))
    } else {
        string_value(text, Some(first))
    }
}

/// Whether the entry of an operation holds parameters.
pub open spec fn holds_params(text: Seq<char>, operation: int, entry: int) -> bool {
    let tag = tag(text, operation);
    let is_function = tag == codes("function"@);
    let has_inputs = is_function || tag == codes("constructor"@) || tag == codes("event"@) || tag
        == codes("error"@);
    if text[operation] == '{' {
        let key = string_at(text, entry);
        (has_inputs && key == codes("inputs"@)) || (is_function && key == codes("outputs"@))
    } else {
        has_inputs
    }
}

/// The number of closing brackets among the first `n` code points of a name.
pub open spec fn closings(name: Seq<u32>, n: int) -> int
    decreases n,
{
    if n <= 0 {
        0
    } else {
        closings(name, n - 1) + if name[n - 1] == CLOSING_BRACKET {
            1int
        } else {
            0int
        }
    }
}

/// How many brackets are left for the components of a parameter.
pub open spec fn room_inside(text: Seq<char>, param: int, room: usize) -> usize {
    let name = string_value(
        text,
        member_value(text, after_blanks(text, param + 1), "type"@),
    );
    let used = closings(name, name.len() as int);
    if used <= room {
        (room - used) as usize
    } else {
        0
    }
}

/// What an entry is of an array or an object that is found at a place.
pub open spec fn entry_place(text: Seq<char>, container: int, place: Place, entry: int) -> Place {
    match place {
        Place::Operations => Place::Operation,
        Place::Operation => if holds_params(text, container, entry) {
            Place::Params { room: MAX_BRACKETS }
        } else {
            Place::Other
        },
        Place::Params { room } => Place::Param { room },
        Place::Param { room } => if string_at(text, entry) == codes("type"@) {
            Place::Type { room }
        } else if string_at(text, entry) == codes("components"@) {
            Place::Params { room: room_inside(text, container, room) }
        } else {
            Place::Other
        },
        _ => Place::Other,
    }
}

/// Whether a value that begins with `c` is an array or an object as it can stand at a place.
pub open spec fn is_container(c: char, place: Place) -> bool {
    match place {
        Place::Operations => c == '[',
        Place::Operation => c == '[' || c == '{',
        Place::Params { .. } => c == '[',
        Place::Param { .. } => c == '{',
        _ => false,
    }
}

/// The first name of a type in the value at `value` that is not read, and what comes of reading it.
/// Nothing but a string is the name of a type.
pub open spec fn first_unread(text: Seq<char>, value: int, place: Place, depth: int) -> Option<
    (int, Reading),
>
    decreases depth, 0int,
{
    if value < 0 || value >= text.len() {
        None
    } else if let Place::Type { room } = place {
        if text[value] != '"' {
            Some((value, Reading::Refused))
        } else if literal_end(text, value + 1) >= text.len() {
            None
        } else {
            match reading(string_at(text, value), room as int) {
                Reading::Read => None,
                unread => Some((value, unread)),
            }
        }
    } else if depth > 0 && is_container(text[value], place) {
        first_unread_entry(text, value, place, after_blanks(text, value + 1), depth - 1)
    } else {
        None
    }
}

/// The first name of a type, from `entry` on, that is not read in the array or the object at
/// `container`.
pub open spec fn first_unread_entry(
    text: Seq<char>,
    container: int,
    place: Place,
    entry: int,
    depth: int,
) -> Option<(int, Reading)>
    decreases depth, 1 + text.len() - entry,
{
    match entry_value(text, entry, text[container] == '{') {
        None => None,
        Some(value) => match first_unread(
            text,
            value,
            entry_place(text, container, place, entry),
            depth,
        ) {
            Some(found) => Some(found),
            None => match next_entry(text, value) {
                Some(next) if entry < next <= text.len() => {
                    first_unread_entry(text, container, place, next, depth)
                },
                _ => None,
            },
        },
    }
}

/// Where the name of a type is that is fatal to the reader, if it comes to that name.
pub open spec fn flaw(text: Seq<char>) -> Option<int> {
    match first_unread(text, after_blanks(text, 0), Place::Operations, MAX_DEPTH as int) {
        Some((quote, Reading::Fatal)) => Some(quote),
        _ => None,
    }
}

/// The text with a number in the place of the string at `quote`. As the name of a type, a number is
/// refused.
pub open spec fn repaired(text: Seq<char>, quote: int) -> Seq<char> {
    text.take(quote) + seq!['0'] + text.skip(value_end(text, quote))
}

proof fn lemma_unread_is_a_string(text: Seq<char>, value: int, place: Place, depth: int)
    ensures
        first_unread(text, value, place, depth) matches Some((quote, Reading::Fatal)) ==> {
            &&& 0 <= quote < text.len()
            &&& text[quote] == '"'
            &&& literal_end(text, quote + 1) < text.len()
        },
    decreases depth, 0int,
{
    if 0 <= value < text.len() && !(place is Type) && depth > 0 && is_container(
        text[value],
        place,
    ) {
        lemma_unread_entry_is_a_string(
            text,
            value,
            place,
            after_blanks(text, value + 1),
            depth - 1,
        );
    }
}

proof fn lemma_unread_entry_is_a_string(
    text: Seq<char>,
    container: int,
    place: Place,
    entry: int,
    depth: int,
)
    ensures
        first_unread_entry(text, container, place, entry, depth) matches Some(
            (quote, Reading::Fatal),
        ) ==> {
            &&& 0 <= quote < text.len()
            &&& text[quote] == '"'
            &&& literal_end(text, quote + 1) < text.len()
        },
    decreases depth, 1 + text.len() - entry,
{
    if let Some(value) = entry_value(text, entry, text[container] == '{') {
        lemma_unread_is_a_string(text, value, entry_place(text, container, place, entry), depth);
        if let Some(next) = next_entry(text, value) {
            if entry < next <= text.len() {
                lemma_unread_entry_is_a_string(text, container, place, next, depth);
            }
        }
    }
}

/// A repaired text is shorter.
pub proof fn lemma_repaired_is_shorter(text: Seq<char>)
    ensures
        flaw(text) matches Some(quote) ==> {
            &&& 0 <= quote < value_end(text, quote) <= text.len()
            &&& repaired(text, quote).len() < text.len()
        },
{
    lemma_unread_is_a_string(text, after_blanks(text, 0), Place::Operations, MAX_DEPTH as int);
    if let Some(quote) = flaw(text) {
        lemma_literal_end(text, quote + 1);
    }
}

fn find_string_value(text: &[char], value: Option<usize>) -> (string: Vec<u32>)
    ensures
        string@ == string_value(
            text@,
            match value {
                Some(value) => Some(value as int),
                None => None,
            },
        ),
{
    match value {
        Some(quote) => if quote < text.len() && text[quote] == '"' {
            read_string(text, quote)
        } else {
            Vec::new()
        },
        None => Vec::new(),
    }
}

fn find_tag(text: &[char], operation: usize) -> (found: Vec<u32>)
    requires
        operation < text@.len(),
    ensures
        found@ == tag(text@, operation as int),
{
    assert(operation < text.len());
    let first: usize = skip_blanks(text, operation + 1);
    if text[operation] == '{' {
        find_string_value(text, find_member_value(text, first, "type"))
    } else {
        find_string_value(text, Some(first))
    }
}

fn find_params(text: &[char], operation: usize, entry: usize) -> (holds: bool)
    requires
        operation < text@.len(),
        entry < text@.len(),
    ensures
        holds == holds_params(text@, operation as int, entry as int),
{
    let tag: Vec<u32> = find_tag(text, operation);
    let is_function: bool = is_word(tag.as_slice(), "function");
    let has_inputs: bool = is_function || is_word(tag.as_slice(), "constructor") || is_word(
        tag.as_slice(),
        "event",
    ) || is_word(tag.as_slice(), "error");
    if text[operation] == '{' {
        let key: Vec<u32> = read_string(text, entry);
        (has_inputs && is_word(key.as_slice(), "inputs")) || (is_function && is_word(
            key.as_slice(),
            "outputs",
        ))
    } else {
        has_inputs
    }
}

fn find_room_inside(text: &[char], param: usize, room: usize) -> (left: usize)
    requires
        param < text@.len(),
    ensures
        left == room_inside(text@, param as int, room),
{
    assert(param < text.len());
    let first: usize = skip_blanks(text, param + 1);
    let name: Vec<u32> = find_string_value(text, find_member_value(text, first, "type"));
    let mut used: usize = 0;
    let mut i: usize = 0;
    while i < name.len()
        invariant
            i <= name@.len(),
            used <= i,
            used == closings(name@, i as int),
        decreases name@.len() - i,
    {
        if name[i] == CLOSING_BRACKET {
            used = used + 1;
        }
        i = i + 1;
    }
    if used <= room {
        room - used
    } else {
        0
    }
}

fn find_entry_place(text: &[char], container: usize, place: Place, entry: usize) -> (found: Place)
    requires
        container < text@.len(),
        entry < text@.len(),
    ensures
        found == entry_place(text@, container as int, place, entry as int),
{
    match place {
        Place::Operations => Place::Operation,
        Place::Operation => if find_params(text, container, entry) {
            Place::Params { room: MAX_BRACKETS }
        } else {
            Place::Other
        },
        Place::Params { room } => Place::Param { room },
        Place::Param { room } => {
            let key: Vec<u32> = read_string(text, entry);
            if is_word(key.as_slice(), "type") {
                Place::Type { room }
            } else if is_word(key.as_slice(), "components") {
                Place::Params { room: find_room_inside(text, container, room) }
            } else {
                Place::Other
            }
        },
        _ => Place::Other,
    }
}

fn opens_container(c: char, place: Place) -> (opens: bool)
    ensures
        opens == is_container(c, place),
{
    match place {
        Place::Operations => c == '[',
        Place::Operation => c == '[' || c == '{',
        Place::Params { .. } => c == '[',
        Place::Param { .. } => c == '{',
        _ => false,
    }
}

fn find_first_unread(text: &[char], value: usize, place: Place, depth: usize) -> (found: Option<
    (usize, Reading),
>)
    requires
        value <= text@.len(),
    ensures
        match found {
            Some((quote, unread)) => first_unread(text@, value as int, place, depth as int)
                == Some((quote as int, unread)),
            None => first_unread(text@, value as int, place, depth as int) is None,
        },
    decreases depth,
{
    if value == text.len() {
        return None;
    }
    if let Place::Type { room } = place {
        if text[value] != '"' {
            return Some((value, Reading::Refused));
        }
        if find_literal_end(text, value + 1) == text.len() {
            return None;
        }
        return match read_name(read_string(text, value).as_slice(), room) {
            Reading::Read => None,
            unread => Some((value, unread)),
        };
    }
    if depth == 0 || !opens_container(text[value], place) {
        return None;
    }
    let keyed: bool = text[value] == '{';
    let mut entry: usize = skip_blanks(text, value + 1);
    loop
        invariant
            value < text@.len(),
            entry <= text@.len(),
            depth > 0,
            keyed == (text@[value as int] == '{'),
            first_unread(text@, value as int, place, depth as int) == first_unread_entry(
                text@,
                value as int,
                place,
                entry as int,
                depth - 1,
            ),
        decreases text@.len() - entry,
    {
        let entry_value: usize = match find_entry_value(text, entry, keyed) {
            Some(entry_value) => entry_value,
            None => {
                return None;
            },
        };
        let found = find_first_unread(
            text,
            entry_value,
            find_entry_place(text, value, place, entry),
            depth - 1,
        );
        if found.is_some() {
            return found;
        }
        match find_next_entry(text, entry_value) {
            Some(next) => {
                entry = next;
            },
            None => {
                return None;
            },
        }
    }
}

/// The characters of a text.
fn chars_of(text: &str) -> (chars: Vec<char>)
    ensures
        chars@ == text@,
{
    let mut chars: Vec<char> = Vec::new();
    for c in all: text.chars()
        invariant
            all.seq() == text@,
            chars@ == text@.take(all.index() as int),
    {
        assert(text@.take(all.index() as int + 1) =~= text@.take(all.index() as int).push(c));
        chars.push(c);
    }
    assert(text@.take(text@.len() as int) =~= text@);
    chars
}

/// Finds the name of a type that is fatal to the reader.
pub fn find_flaw(text: &str) -> (quote: Option<usize>)
    ensures
        match quote {
            Some(quote) => flaw(text@) == Some(quote as int),
            None => flaw(text@) is None,
        },
{
    let chars: Vec<char> = chars_of(text);
    let start: usize = skip_blanks(chars.as_slice(), 0);
    match find_first_unread(chars.as_slice(), start, Place::Operations, MAX_DEPTH) {
        Some((quote, Reading::Fatal)) => Some(quote),
        _ => None,
    }
}

/// Puts a number in the place of a string.
pub fn repair(text: &str, quote: usize) -> (sound: String)
    requires
        quote < text@.len(),
    ensures
        sound@ == repaired(text@, quote as int),
{
    let chars: Vec<char> = chars_of(text);
    let end: usize = find_value_end(chars.as_slice(), quote);
    let mut sound: String = text.substring_char(0, quote).to_owned();
    sound.append("0");
    sound.append(text.substring_char(end, chars.len()));
    proof {
        reveal_strlit("0");
        assert(sound@ =~= repaired(text@, quote as int));
    }
    sound
}

} // verus!
