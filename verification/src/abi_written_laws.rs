//! What holds of looking over an ABI that is written as JSON.
use crate::abi_laws::lemma_codes_differ;
use crate::abi_text::{
    closings, entry_place, first_unread, first_unread_entry, flaw, holds_params, is_container,
    room_inside, string_value, tag, Place, MAX_BRACKETS, MAX_DEPTH,
};
use crate::json::{
    after_blanks, codes, entry_value, is_blank, literal_end, member_value, next_entry, string_at,
    value_end,
};
use crate::json_laws::{holds, is_plain, is_word_char, written_items, written_members, Json};
use crate::json_laws::{law_value_ends_where_it_is_written, lemma_holds_both, lemma_holds_char};
use crate::json_laws::{lemma_member, lemma_over_literal};
use crate::reading::{reading, Reading};
use vstd::prelude::*;

verus! {

/// How deep the arrays and objects of a value are nested.
pub open spec fn height(json: Json) -> nat
    decreases json, 0int,
{
    match json {
        Json::Array(items) => 1 + items_height(items, 0),
        Json::Object(members) => 1 + members_height(members, 0),
        _ => 0,
    }
}

pub open spec fn items_height(items: Seq<Json>, k: int) -> nat
    decreases items, items.len() - k,
{
    if k < 0 || k >= items.len() {
        0
    } else if height(items[k]) > items_height(items, k + 1) {
        height(items[k])
    } else {
        items_height(items, k + 1)
    }
}

pub open spec fn members_height(members: Seq<(Seq<char>, Json)>, k: int) -> nat
    decreases members, members.len() - k,
{
    if k < 0 || k >= members.len() {
        0
    } else if height(members[k].1) > members_height(members, k + 1) {
        height(members[k].1)
    } else {
        members_height(members, k + 1)
    }
}

/// The first member from the `k`th on that has a key.
pub open spec fn find(members: Seq<(Seq<char>, Json)>, k: int, key: Seq<char>) -> Option<Json>
    decreases members.len() - k,
{
    if k < 0 || k >= members.len() {
        None
    } else if members[k].0 == key {
        Some(members[k].1)
    } else {
        find(members, k + 1, key)
    }
}

/// The string that a value is, if it is one.
pub open spec fn string_of(json: Option<Json>) -> Seq<u32> {
    match json {
        Some(Json::Text(text)) => codes(text),
        _ => Seq::empty(),
    }
}

/// The tags of the operations that have parameters.
pub open spec fn has_params(tag: Seq<u32>) -> bool {
    tag == codes("function"@) || tag == codes("constructor"@) || tag == codes("event"@) || tag
        == codes("error"@)
}

/// What the item of an array is.
pub open spec fn item_place(items: Seq<Json>, place: Place) -> Place {
    match place {
        Place::Operations => Place::Operation,
        Place::Operation => if has_params(
            string_of(
                if items.len() > 0 {
                    Some(items[0])
                } else {
                    None
                },
            ),
        ) {
            Place::Params { room: MAX_BRACKETS }
        } else {
            Place::Other
        },
        Place::Params { room } => Place::Param { room },
        _ => Place::Other,
    }
}

/// How many brackets a parameter leaves to its components.
pub open spec fn room_left(members: Seq<(Seq<char>, Json)>, room: usize) -> usize {
    let name = string_of(find(members, 0, "type"@));
    let used = closings(name, name.len() as int);
    if used <= room {
        (room - used) as usize
    } else {
        0
    }
}

/// What the member of an object is.
pub open spec fn member_place(
    members: Seq<(Seq<char>, Json)>,
    place: Place,
    key: Seq<char>,
) -> Place {
    let tag = string_of(find(members, 0, "type"@));
    match place {
        Place::Operation => if (key == "inputs"@ && has_params(tag)) || (key == "outputs"@ && tag
            == codes("function"@)) {
            Place::Params { room: MAX_BRACKETS }
        } else {
            Place::Other
        },
        Place::Param { room } => if key == "type"@ {
            Place::Type { room }
        } else if key == "components"@ {
            Place::Params { room: room_left(members, room) }
        } else {
            Place::Other
        },
        _ => Place::Other,
    }
}

/// What comes of reading the names of types in a value, one after the other: that they are all
/// read, or what comes of the first that is not.
pub open spec fn outcome(json: Json, place: Place) -> Reading
    decreases json, 0int,
{
    match (place, json) {
        (Place::Type { room }, Json::Text(name)) => reading(codes(name), room as int),
        (Place::Type { .. }, _) => Reading::Refused,
        (Place::Operations, Json::Array(items)) => items_outcome(items, place, 0),
        (Place::Operation, Json::Array(items)) => items_outcome(items, place, 0),
        (Place::Params { .. }, Json::Array(items)) => items_outcome(items, place, 0),
        (Place::Operation, Json::Object(members)) => members_outcome(members, place, 0),
        (Place::Param { .. }, Json::Object(members)) => members_outcome(members, place, 0),
        _ => Reading::Read,
    }
}

/// What comes of reading the names of types in the items of an array from the `k`th on.
pub open spec fn items_outcome(items: Seq<Json>, place: Place, k: int) -> Reading
    decreases items, items.len() - k,
{
    if k < 0 || k >= items.len() {
        Reading::Read
    } else {
        match outcome(items[k], item_place(items, place)) {
            Reading::Read => items_outcome(items, place, k + 1),
            stopped => stopped,
        }
    }
}

/// What comes of reading the names of types in the members of an object from the `k`th on.
pub open spec fn members_outcome(
    members: Seq<(Seq<char>, Json)>,
    place: Place,
    k: int,
) -> Reading
    decreases members, members.len() - k,
{
    if k < 0 || k >= members.len() {
        Reading::Read
    } else {
        match outcome(members[k].1, member_place(members, place, members[k].0)) {
            Reading::Read => members_outcome(members, place, k + 1),
            stopped => stopped,
        }
    }
}

spec fn found(unread: Option<(int, Reading)>) -> Reading {
    match unread {
        Some((_, outcome)) => outcome,
        None => Reading::Read,
    }
}

proof fn lemma_same_codes(a: Seq<char>, b: Seq<char>)
    ensures
        codes(a) == codes(b) <==> a == b,
{
    if codes(a) == codes(b) {
        assert(codes(a).len() == codes(b).len());
        assert forall|i: int| 0 <= i < a.len() implies a[i] == b[i] by {
            assert(codes(a)[i] == codes(b)[i]);
            lemma_codes_differ(a[i], b[i]);
        }
        assert(a =~= b);
    }
}

/// How a value begins.
proof fn lemma_first_char(json: Json)
    requires
        json.well_formed(),
    ensures
        json.written().len() > 0,
        !is_blank(json.written()[0]),
        json.written()[0] == '"' <==> json is Text,
        json.written()[0] == '[' <==> json is Array,
        json.written()[0] == '{' <==> json is Object,
        json.written()[0] != ',',
{
    if let Json::Word(word) = json {
        assert(is_word_char(word[0]));
    }
}

/// A value is followed by something that ends it.
spec fn is_followed(text: Seq<char>, end: int) -> bool {
    end < text.len() ==> text[end] == ',' || text[end] == ']' || text[end] == '}' || is_blank(
        text[end],
    )
}

/// Where the next item is.
proof fn lemma_item(text: Seq<char>, i: int, items: Seq<Json>, k: int)
    requires
        0 <= k < items.len(),
        forall|j: int| 0 <= j < items.len() ==> (#[trigger] items[j]).well_formed(),
        holds(text, i, written_items(items, k)),
        i + written_items(items, k).len() < text.len(),
        text[i + written_items(items, k).len()] == ']',
    ensures
        ({
            let end = i + items[k].written().len();
            &&& holds(text, i, items[k].written())
            &&& is_followed(text, end)
            &&& entry_value(text, i, false) == Some(i)
            &&& k == items.len() - 1 ==> next_entry(text, i) is None
            &&& k < items.len() - 1 ==> {
                &&& next_entry(text, i) == Some(end + 1)
                &&& holds(text, end + 1, written_items(items, k + 1))
                &&& end + 1 + written_items(items, k + 1).len() == i + written_items(
                    items,
                    k,
                ).len()
            }
        }),
{
    let item = items[k].written();
    let end = i + item.len();
    assert(items[k].well_formed());
    lemma_first_char(items[k]);
    if k < items.len() - 1 {
        let rest = written_items(items, k + 1);
        lemma_holds_both(text, i, item + seq![','], rest);
        lemma_holds_both(text, i, item, seq![',']);
        lemma_holds_char(text, end, seq![','], 0);
        assert(items[k + 1].well_formed());
        lemma_first_char(items[k + 1]);
        assert(rest[0] == items[k + 1].written()[0]);
        lemma_holds_char(text, end + 1, rest, 0);
    }
    law_value_ends_where_it_is_written(text, i, items[k]);
}

/// Where the value of a member and the next member are.
proof fn lemma_next_member(text: Seq<char>, i: int, members: Seq<(Seq<char>, Json)>, k: int)
    requires
        0 <= k < members.len(),
        forall|j: int|
            0 <= j < members.len() ==> is_plain((#[trigger] members[j]).0)
                && members[j].1.well_formed(),
        holds(text, i, written_members(members, k)),
        i + written_members(members, k).len() < text.len(),
        text[i + written_members(members, k).len()] == '}',
    ensures
        ({
            let (key, value) = members[k];
            let start = i + key.len() + 3;
            let end = start + value.written().len();
            &&& string_at(text, i) == codes(key)
            &&& holds(text, start, value.written())
            &&& is_followed(text, end)
            &&& entry_value(text, i, true) == Some(start)
            &&& k == members.len() - 1 ==> next_entry(text, start) is None
            &&& k < members.len() - 1 ==> {
                &&& next_entry(text, start) == Some(end + 1)
                &&& holds(text, end + 1, written_members(members, k + 1))
                &&& end + 1 + written_members(members, k + 1).len() == i + written_members(
                    members,
                    k,
                ).len()
            }
        }),
{
    let (key, value) = members[k];
    let start = i + key.len() + 3;
    let end = start + value.written().len();
    assert(is_plain(key) && value.well_formed());
    lemma_member(text, i, members, k);
    lemma_first_char(value);
    lemma_holds_char(text, start, value.written(), 0);
    if k < members.len() - 1 {
        assert(is_plain(members[k + 1].0));
        lemma_member(text, end + 1, members, k + 1);
    }
    law_value_ends_where_it_is_written(text, start, value);
}

/// A member is found where it is written.
proof fn lemma_find(
    text: Seq<char>,
    i: int,
    members: Seq<(Seq<char>, Json)>,
    k: int,
    key: Seq<char>,
)
    requires
        0 <= k < members.len(),
        forall|j: int|
            0 <= j < members.len() ==> is_plain((#[trigger] members[j]).0)
                && members[j].1.well_formed(),
        holds(text, i, written_members(members, k)),
        i + written_members(members, k).len() < text.len(),
        text[i + written_members(members, k).len()] == '}',
    ensures
        string_value(text, member_value(text, i, key)) == string_of(find(members, k, key)),
    decreases members.len() - k,
{
    let (name, value) = members[k];
    let start = i + name.len() + 3;
    lemma_next_member(text, i, members, k);
    lemma_same_codes(name, key);
    if name == key {
        lemma_string_of(text, start, value);
    } else if k < members.len() - 1 {
        lemma_find(text, start + value.written().len() + 1, members, k + 1, key);
    } else {
        assert(find(members, k + 1, key) is None);
    }
}

proof fn lemma_string_of(text: Seq<char>, i: int, json: Json)
    requires
        json.well_formed(),
        holds(text, i, json.written()),
    ensures
        string_value(text, Some(i)) == string_of(Some(json)),
{
    lemma_first_char(json);
    lemma_holds_char(text, i, json.written(), 0);
    if let Json::Text(literal) = json {
        lemma_over_literal(text, i, literal);
    }
}

proof fn lemma_items_height(items: Seq<Json>, k: int, j: int)
    requires
        0 <= k <= j < items.len(),
    ensures
        height(items[j]) <= items_height(items, k),
    decreases items.len() - k,
{
    if k < j {
        lemma_items_height(items, k + 1, j);
    }
}

proof fn lemma_members_height(members: Seq<(Seq<char>, Json)>, k: int, j: int)
    requires
        0 <= k <= j < members.len(),
    ensures
        height(members[j].1) <= members_height(members, k),
    decreases members.len() - k,
{
    if k < j {
        lemma_members_height(members, k + 1, j);
    }
}

/// What an item is.
proof fn lemma_item_place(
    text: Seq<char>,
    container: int,
    items: Seq<Json>,
    place: Place,
    entry: int,
)
    requires
        forall|j: int| 0 <= j < items.len() ==> (#[trigger] items[j]).well_formed(),
        items.len() > 0,
        holds(text, container, Json::Array(items).written()),
        is_container('[', place),
    ensures
        entry_place(text, container, place, entry) == item_place(items, place),
{
    let inner = written_items(items, 0);
    lemma_holds_both(text, container, seq!['['] + inner, seq![']']);
    lemma_holds_both(text, container, seq!['['], inner);
    lemma_holds_char(text, container, seq!['['], 0);
    lemma_holds_char(text, container + 1 + inner.len(), seq![']'], 0);
    lemma_item(text, container + 1, items, 0);
    assert(items[0].well_formed());
    lemma_first_char(items[0]);
    lemma_holds_char(text, container + 1, items[0].written(), 0);
    assert(after_blanks(text, container + 1) == container + 1);
    lemma_string_of(text, container + 1, items[0]);
}

/// What a member is.
proof fn lemma_member_place(
    text: Seq<char>,
    container: int,
    members: Seq<(Seq<char>, Json)>,
    place: Place,
    entry: int,
    key: Seq<char>,
)
    requires
        forall|j: int|
            0 <= j < members.len() ==> is_plain((#[trigger] members[j]).0)
                && members[j].1.well_formed(),
        members.len() > 0,
        holds(text, container, Json::Object(members).written()),
        is_container('{', place),
        string_at(text, entry) == codes(key),
    ensures
        entry_place(text, container, place, entry) == member_place(members, place, key),
{
    let inner = written_members(members, 0);
    lemma_holds_both(text, container, seq!['{'] + inner, seq!['}']);
    lemma_holds_both(text, container, seq!['{'], inner);
    lemma_holds_char(text, container, seq!['{'], 0);
    lemma_holds_char(text, container + 1 + inner.len(), seq!['}'], 0);
    lemma_next_member(text, container + 1, members, 0);
    assert(is_plain(members[0].0));
    lemma_member(text, container + 1, members, 0);
    assert(after_blanks(text, container + 1) == container + 1);
    lemma_find(text, container + 1, members, 0, "type"@);
    lemma_same_codes(key, "inputs"@);
    lemma_same_codes(key, "outputs"@);
    lemma_same_codes(key, "type"@);
    lemma_same_codes(key, "components"@);
}

proof fn lemma_outcome(text: Seq<char>, i: int, json: Json, place: Place, depth: int)
    requires
        json.well_formed(),
        holds(text, i, json.written()),
        is_followed(text, i + json.written().len()),
        height(json) <= depth,
    ensures
        found(first_unread(text, i, place, depth)) == outcome(json, place),
        first_unread(text, i, place, depth) is Some ==> outcome(json, place) != Reading::Read,
    decreases json, 0int,
{
    lemma_first_char(json);
    lemma_holds_char(text, i, json.written(), 0);
    match json {
        Json::Text(literal) => {
            lemma_over_literal(text, i, literal);
        },
        Json::Array(items) => {
            if is_container('[', place) {
                let inner = written_items(items, 0);
                lemma_holds_both(text, i, seq!['['] + inner, seq![']']);
                lemma_holds_both(text, i, seq!['['], inner);
                lemma_holds_char(text, i + 1 + inner.len(), seq![']'], 0);
                if items.len() > 0 {
                    assert(items[0].well_formed());
                    lemma_first_char(items[0]);
                    assert(inner[0] == items[0].written()[0]);
                    lemma_holds_char(text, i + 1, inner, 0);
                    lemma_items_outcome(text, i, items, place, 0, i + 1, depth - 1);
                } else {
                    lemma_empty_array(text, i, place, depth);
                }
            }
        },
        Json::Object(members) => {
            if is_container('{', place) {
                let inner = written_members(members, 0);
                lemma_holds_both(text, i, seq!['{'] + inner, seq!['}']);
                lemma_holds_both(text, i, seq!['{'], inner);
                lemma_holds_char(text, i + 1 + inner.len(), seq!['}'], 0);
                if members.len() > 0 {
                    assert(is_plain(members[0].0));
                    lemma_member(text, i + 1, members, 0);
                    lemma_members_outcome(text, i, members, place, 0, i + 1, depth - 1);
                }
            }
        },
        _ => {},
    }
}

/// There is nothing in an empty array.
proof fn lemma_empty_array(text: Seq<char>, i: int, place: Place, depth: int)
    requires
        0 <= i,
        i + 1 < text.len(),
        text[i] == '[',
        text[i + 1] == ']',
        depth > 0,
        is_container('[', place),
    ensures
        first_unread(text, i, place, depth) is None,
{
    let inner = entry_place(text, i, place, i + 1);
    assert(after_blanks(text, i + 1) == i + 1);
    assert(!(inner is Type));
    assert(first_unread(text, i + 1, inner, depth - 1) is None);
    assert(value_end(text, i + 1) == i + 1);
    assert(next_entry(text, i + 1) is None);
}

proof fn lemma_items_outcome(
    text: Seq<char>,
    container: int,
    items: Seq<Json>,
    place: Place,
    k: int,
    i: int,
    depth: int,
)
    requires
        forall|j: int| 0 <= j < items.len() ==> (#[trigger] items[j]).well_formed(),
        holds(text, container, Json::Array(items).written()),
        text[container] == '[',
        is_container('[', place),
        0 <= k < items.len(),
        holds(text, i, written_items(items, k)),
        i + written_items(items, k).len() < text.len(),
        text[i + written_items(items, k).len()] == ']',
        items_height(items, 0) <= depth,
    ensures
        found(first_unread_entry(text, container, place, i, depth)) == items_outcome(
            items,
            place,
            k,
        ),
        first_unread_entry(text, container, place, i, depth) is Some ==> items_outcome(
            items,
            place,
            k,
        ) != Reading::Read,
    decreases items, items.len() - k,
{
    assert(items[k].well_formed());
    lemma_item(text, i, items, k);
    lemma_item_place(text, container, items, place, i);
    lemma_items_height(items, 0, k);
    lemma_outcome(text, i, items[k], item_place(items, place), depth);
    if k < items.len() - 1 {
        let next = i + items[k].written().len() + 1;
        lemma_items_outcome(text, container, items, place, k + 1, next, depth);
    } else {
        assert(items_outcome(items, place, k + 1) == Reading::Read);
    }
}

proof fn lemma_members_outcome(
    text: Seq<char>,
    container: int,
    members: Seq<(Seq<char>, Json)>,
    place: Place,
    k: int,
    i: int,
    depth: int,
)
    requires
        forall|j: int|
            0 <= j < members.len() ==> is_plain((#[trigger] members[j]).0)
                && members[j].1.well_formed(),
        holds(text, container, Json::Object(members).written()),
        text[container] == '{',
        is_container('{', place),
        0 <= k < members.len(),
        holds(text, i, written_members(members, k)),
        i + written_members(members, k).len() < text.len(),
        text[i + written_members(members, k).len()] == '}',
        members_height(members, 0) <= depth,
    ensures
        found(first_unread_entry(text, container, place, i, depth)) == members_outcome(
            members,
            place,
            k,
        ),
        first_unread_entry(text, container, place, i, depth) is Some ==> members_outcome(
            members,
            place,
            k,
        ) != Reading::Read,
    decreases members, members.len() - k,
{
    let (key, value) = members[k];
    assert(is_plain(key) && value.well_formed());
    lemma_next_member(text, i, members, k);
    lemma_member_place(text, container, members, place, i, key);
    lemma_members_height(members, 0, k);
    let start = i + key.len() + 3;
    lemma_outcome(text, start, value, member_place(members, place, key), depth);
    if k < members.len() - 1 {
        let next = start + value.written().len() + 1;
        lemma_members_outcome(text, container, members, place, k + 1, next, depth);
    } else {
        assert(members_outcome(members, place, k + 1) == Reading::Read);
    }
}

/// The text of an ABI has a flaw exactly if the first name of a type in it that is not read is fatal
/// to the reader.
pub proof fn law_flaw_of_a_written_abi(json: Json)
    requires
        json.well_formed(),
        height(json) <= MAX_DEPTH,
    ensures
        flaw(json.written()) is Some <==> outcome(json, Place::Operations) == Reading::Fatal,
{
    let text = json.written();
    lemma_first_char(json);
    assert(text.subrange(0, text.len() as int) =~= text);
    assert(after_blanks(text, 0) == 0);
    lemma_outcome(text, 0, json, Place::Operations, MAX_DEPTH as int);
}

/// An object with one more member.
pub open spec fn with_member(
    a: Seq<(Seq<char>, Json)>,
    key: Seq<char>,
    value: Json,
    b: Seq<(Seq<char>, Json)>,
) -> Json {
    Json::Object(a + seq![(key, value)] + b)
}

proof fn lemma_find_other(
    a: Seq<(Seq<char>, Json)>,
    member: (Seq<char>, Json),
    b: Seq<(Seq<char>, Json)>,
    k: int,
    key: Seq<char>,
)
    requires
        member.0 != key,
        0 <= k <= a.len() + b.len(),
    ensures
        k <= a.len() ==> find(a + seq![member] + b, k, key) == find(a + b, k, key),
        k >= a.len() ==> find(a + seq![member] + b, k + 1, key) == find(a + b, k, key),
    decreases a.len() + b.len() - k,
{
    let all = a + seq![member] + b;
    let rest = a + b;
    if k < a.len() + b.len() {
        lemma_find_other(a, member, b, k + 1, key);
        if k < a.len() {
            assert(all[k] == rest[k]);
        } else {
            assert(all[k + 1] == rest[k]);
        }
    }
    if k == a.len() {
        assert(all[k] == member);
    }
}

proof fn lemma_members_other(
    a: Seq<(Seq<char>, Json)>,
    member: (Seq<char>, Json),
    b: Seq<(Seq<char>, Json)>,
    place: Place,
    k: int,
)
    requires
        member.0 != "type"@,
        0 <= k <= a.len() + b.len(),
        member_place(a + seq![member] + b, place, member.0) is Other,
    ensures
        k <= a.len() ==> members_outcome(a + seq![member] + b, place, k) == members_outcome(
            a + b,
            place,
            k,
        ),
        k >= a.len() ==> members_outcome(a + seq![member] + b, place, k + 1) == members_outcome(
            a + b,
            place,
            k,
        ),
    decreases a.len() + b.len() - k,
{
    let all = a + seq![member] + b;
    let rest = a + b;
    lemma_find_other(a, member, b, 0, "type"@);
    assert forall|key: Seq<char>| member_place(all, place, key) == member_place(
        rest,
        place,
        key,
    ) by {
    }
    if k < a.len() + b.len() {
        lemma_members_other(a, member, b, place, k + 1);
        if k < a.len() {
            assert(all[k] == rest[k]);
        } else {
            assert(all[k + 1] == rest[k]);
        }
    }
    if k == a.len() {
        assert(all[k] == member);
        assert(outcome(member.1, Place::Other) == Reading::Read);
    }
}

/// A member of a parameter that is neither its type nor its components does not matter, whatever it
/// holds.
pub proof fn law_other_members_of_parameters_do_not_matter(
    a: Seq<(Seq<char>, Json)>,
    key: Seq<char>,
    value: Json,
    b: Seq<(Seq<char>, Json)>,
    room: usize,
)
    requires
        key != "type"@,
        key != "components"@,
    ensures
        outcome(with_member(a, key, value, b), Place::Param { room }) == outcome(
            Json::Object(a + b),
            Place::Param { room },
        ),
{
    lemma_members_other(a, (key, value), b, Place::Param { room }, 0);
}

proof fn lemma_items_alike(items: Seq<Json>, others: Seq<Json>, k: int)
    requires
        items.len() == others.len(),
        0 <= k,
        forall|i: int|
            0 <= i < items.len() ==> outcome(#[trigger] items[i], Place::Operation) == outcome(
                others[i],
                Place::Operation,
            ),
    ensures
        items_outcome(items, Place::Operations, k) == items_outcome(
            others,
            Place::Operations,
            k,
        ),
    decreases items.len() - k,
{
    if k < items.len() {
        assert(outcome(items[k], Place::Operation) == outcome(others[k], Place::Operation));
        lemma_items_alike(items, others, k + 1);
    }
}

/// A member of an operation that is neither its tag nor one of its lists of parameters does not
/// matter, whatever it holds: the text has a flaw with it exactly if it has one without it.
pub proof fn law_other_members_of_operations_do_not_matter(
    before: Seq<Json>,
    a: Seq<(Seq<char>, Json)>,
    key: Seq<char>,
    value: Json,
    b: Seq<(Seq<char>, Json)>,
    after: Seq<Json>,
)
    requires
        key != "type"@,
        key != "inputs"@,
        key != "outputs"@,
        Json::Array(before + seq![with_member(a, key, value, b)] + after).well_formed(),
        Json::Array(before + seq![Json::Object(a + b)] + after).well_formed(),
        height(Json::Array(before + seq![with_member(a, key, value, b)] + after)) <= MAX_DEPTH,
        height(Json::Array(before + seq![Json::Object(a + b)] + after)) <= MAX_DEPTH,
    ensures
        flaw(Json::Array(before + seq![with_member(a, key, value, b)] + after).written()) is Some
            <==> flaw(Json::Array(before + seq![Json::Object(a + b)] + after).written()) is Some,
{
    let items = before + seq![with_member(a, key, value, b)] + after;
    let others = before + seq![Json::Object(a + b)] + after;
    law_flaw_of_a_written_abi(Json::Array(items));
    law_flaw_of_a_written_abi(Json::Array(others));
    lemma_members_other(a, (key, value), b, Place::Operation, 0);
    assert forall|i: int| 0 <= i < items.len() implies outcome(
        #[trigger] items[i],
        Place::Operation,
    ) == outcome(others[i], Place::Operation) by {
        if i != before.len() {
            assert(items[i] == others[i]);
        }
    }
    lemma_items_alike(items, others, 0);
}

/// Whether an operation is tagged as one that has no parameters.
pub open spec fn is_without_params(operation: Json) -> bool {
    operation matches Json::Object(members) ==> {
        let tag = string_of(find(members, 0, "type"@));
        tag != codes("function"@) && tag != codes("constructor"@) && tag != codes("event"@) && tag
            != codes("error"@)
    }
}

proof fn lemma_no_params(members: Seq<(Seq<char>, Json)>, k: int)
    requires
        is_without_params(Json::Object(members)),
        0 <= k,
    ensures
        members_outcome(members, Place::Operation, k) == Reading::Read,
    decreases members.len() - k,
{
    if k < members.len() {
        assert(outcome(members[k].1, Place::Other) == Reading::Read);
        lemma_no_params(members, k + 1);
    }
}

proof fn lemma_no_params_at_all(items: Seq<Json>, k: int)
    requires
        0 <= k,
        forall|i: int|
            0 <= i < items.len() ==> is_without_params(#[trigger] items[i]) && !(items[i] is Array),
    ensures
        items_outcome(items, Place::Operations, k) == Reading::Read,
    decreases items.len() - k,
{
    if k < items.len() {
        assert(is_without_params(items[k]));
        if let Json::Object(members) = items[k] {
            lemma_no_params(members, 0);
            assert(outcome(items[k], Place::Operation) == members_outcome(
                members,
                Place::Operation,
                0,
            ));
        }
        assert(outcome(items[k], Place::Operation) == Reading::Read);
        lemma_no_params_at_all(items, k + 1);
    }
}

/// Whatever operations without parameters hold, they have no flaw.
pub proof fn law_operations_without_parameters_have_no_flaw(items: Seq<Json>)
    requires
        Json::Array(items).well_formed(),
        height(Json::Array(items)) <= MAX_DEPTH,
        forall|i: int|
            0 <= i < items.len() ==> is_without_params(#[trigger] items[i]) && !(items[i] is Array),
    ensures
        flaw(Json::Array(items).written()) is None,
{
    law_flaw_of_a_written_abi(Json::Array(items));
    lemma_no_params_at_all(items, 0);
}

/// Parameters of which nothing but the names of their types is given.
pub open spec fn params(names: Seq<Seq<char>>) -> Json {
    Json::Array(
        names.map_values(|name: Seq<char>| Json::Object(seq![("type"@, Json::Text(name))])),
    )
}

proof fn lemma_params_outcome(names: Seq<Seq<char>>, room: usize, k: int)
    requires
        0 <= k,
    ensures
        ({
            let outcome = items_outcome(
                params(names)->Array_0,
                Place::Params { room },
                k,
            );
            &&& k >= names.len() ==> outcome == Reading::Read
            &&& k < names.len() ==> outcome == match reading(codes(names[k]), room as int) {
                Reading::Read => items_outcome(params(names)->Array_0, Place::Params { room }, k + 1),
                stopped => stopped,
            }
        }),
{
    if k < names.len() {
        let members = seq![("type"@, Json::Text(names[k]))];
        let items = params(names)->Array_0;
        assert(items[k] == Json::Object(members));
        assert(members_outcome(members, Place::Param { room }, 1) == Reading::Read);
        assert(outcome(members[0].1, Place::Type { room }) == reading(
            codes(names[k]),
            room as int,
        ));
        assert(outcome(items[k], Place::Param { room }) == reading(codes(names[k]), room as int));
    }
}

proof fn lemma_params_all_read(names: Seq<Seq<char>>, room: usize, k: int)
    requires
        0 <= k,
        forall|i: int|
            0 <= i < names.len() ==> reading(codes(#[trigger] names[i]), room as int)
                == Reading::Read,
    ensures
        items_outcome(params(names)->Array_0, Place::Params { room }, k) == Reading::Read,
    decreases names.len() - k,
{
    lemma_params_outcome(names, room, k);
    if k < names.len() {
        assert(reading(codes(names[k]), room as int) == Reading::Read);
        lemma_params_all_read(names, room, k + 1);
    }
}

proof fn lemma_params_stopped(names: Seq<Seq<char>>, room: usize, k: int, n: int)
    requires
        0 <= k <= n < names.len(),
        forall|i: int|
            0 <= i < n ==> reading(codes(#[trigger] names[i]), room as int) == Reading::Read,
        reading(codes(names[n]), room as int) != Reading::Read,
    ensures
        items_outcome(params(names)->Array_0, Place::Params { room }, k) == reading(
            codes(names[n]),
            room as int,
        ),
    decreases n - k,
{
    lemma_params_outcome(names, room, k);
    if k < n {
        assert(reading(codes(names[k]), room as int) == Reading::Read);
        lemma_params_stopped(names, room, k + 1, n);
    }
}

/// A function with inputs and outputs.
pub open spec fn function(inputs: Seq<Seq<char>>, outputs: Seq<Seq<char>>) -> Json {
    Json::Object(
        seq![
            ("type"@, Json::Text("function"@)),
            ("inputs"@, params(inputs)),
            ("outputs"@, params(outputs)),
        ],
    )
}

proof fn lemma_function_outcome(inputs: Seq<Seq<char>>, outputs: Seq<Seq<char>>)
    ensures
        ({
            let room = MAX_BRACKETS;
            let first = items_outcome(params(inputs)->Array_0, Place::Params { room }, 0);
            let second = items_outcome(params(outputs)->Array_0, Place::Params { room }, 0);
            outcome(Json::Array(seq![function(inputs, outputs)]), Place::Operations) == match first {
                Reading::Read => second,
                stopped => stopped,
            }
        }),
{
    reveal_strlit("type");
    reveal_strlit("inputs");
    reveal_strlit("outputs");
    assert("type"@.len() == 4 && "inputs"@.len() == 6 && "outputs"@.len() == 7);
    let operation = function(inputs, outputs);
    let members = operation->Object_0;
    let items = seq![operation];
    let room = MAX_BRACKETS;
    assert(find(members, 0, "type"@) == Some(Json::Text("function"@)));
    assert(members_outcome(members, Place::Operation, 3) == Reading::Read);
    assert(member_place(members, Place::Operation, "type"@) is Other);
    assert(outcome(members[0].1, Place::Other) == Reading::Read);
    assert(members_outcome(members, Place::Operation, 2) == outcome(
        params(outputs),
        Place::Params { room },
    ));
    let first = items_outcome(params(inputs)->Array_0, Place::Params { room }, 0);
    let second = items_outcome(params(outputs)->Array_0, Place::Params { room }, 0);
    assert(outcome(params(inputs), Place::Params { room }) == first);
    assert(outcome(params(outputs), Place::Params { room }) == second);
    assert(members_outcome(members, Place::Operation, 1) == match first {
        Reading::Read => second,
        stopped => stopped,
    });
    assert(members_outcome(members, Place::Operation, 0) == members_outcome(
        members,
        Place::Operation,
        1,
    ));
    assert(outcome(operation, Place::Operation) == members_outcome(members, Place::Operation, 0));
    assert(items_outcome(items, Place::Operations, 1) == Reading::Read);
    assert(items_outcome(items, Place::Operations, 0) == outcome(items[0], Place::Operation));
    assert(outcome(Json::Array(items), Place::Operations) == items_outcome(
        items,
        Place::Operations,
        0,
    ));
}

/// The text of a function whose inputs and outputs all have types that are read has no flaw.
pub proof fn law_readable_function_has_no_flaw(
    inputs: Seq<Seq<char>>,
    outputs: Seq<Seq<char>>,
)
    requires
        Json::Array(seq![function(inputs, outputs)]).well_formed(),
        height(Json::Array(seq![function(inputs, outputs)])) <= MAX_DEPTH,
        forall|i: int|
            0 <= i < inputs.len() ==> reading(codes(#[trigger] inputs[i]), MAX_BRACKETS as int)
                == Reading::Read,
        forall|i: int|
            0 <= i < outputs.len() ==> reading(codes(#[trigger] outputs[i]), MAX_BRACKETS as int)
                == Reading::Read,
    ensures
        flaw(Json::Array(seq![function(inputs, outputs)]).written()) is None,
{
    law_flaw_of_a_written_abi(Json::Array(seq![function(inputs, outputs)]));
    lemma_function_outcome(inputs, outputs);
    lemma_params_all_read(inputs, MAX_BRACKETS, 0);
    lemma_params_all_read(outputs, MAX_BRACKETS, 0);
}

/// The text of a function has a flaw if one of its outputs has a type that is fatal to the reader
/// and all types before it are read.
pub proof fn law_fatal_output_is_a_flaw(
    inputs: Seq<Seq<char>>,
    outputs: Seq<Seq<char>>,
    n: int,
)
    requires
        Json::Array(seq![function(inputs, outputs)]).well_formed(),
        height(Json::Array(seq![function(inputs, outputs)])) <= MAX_DEPTH,
        forall|i: int|
            0 <= i < inputs.len() ==> reading(codes(#[trigger] inputs[i]), MAX_BRACKETS as int)
                == Reading::Read,
        0 <= n < outputs.len(),
        forall|i: int|
            0 <= i < n ==> reading(codes(#[trigger] outputs[i]), MAX_BRACKETS as int)
                == Reading::Read,
    ensures
        reading(codes(outputs[n]), MAX_BRACKETS as int) == Reading::Fatal ==> flaw(
            Json::Array(seq![function(inputs, outputs)]).written(),
        ) is Some,
        reading(codes(outputs[n]), MAX_BRACKETS as int) == Reading::Refused ==> flaw(
            Json::Array(seq![function(inputs, outputs)]).written(),
        ) is None,
{
    law_flaw_of_a_written_abi(Json::Array(seq![function(inputs, outputs)]));
    lemma_function_outcome(inputs, outputs);
    lemma_params_all_read(inputs, MAX_BRACKETS, 0);
    if reading(codes(outputs[n]), MAX_BRACKETS as int) != Reading::Read {
        lemma_params_stopped(outputs, MAX_BRACKETS, 0, n);
    }
}

/// The text of a function has a flaw if one of its inputs has a type that is fatal to the reader and
/// all types before it are read, and has none if that type is refused, whatever follows it.
pub proof fn law_fatal_input_is_a_flaw(inputs: Seq<Seq<char>>, outputs: Seq<Seq<char>>, n: int)
    requires
        Json::Array(seq![function(inputs, outputs)]).well_formed(),
        height(Json::Array(seq![function(inputs, outputs)])) <= MAX_DEPTH,
        0 <= n < inputs.len(),
        forall|i: int|
            0 <= i < n ==> reading(codes(#[trigger] inputs[i]), MAX_BRACKETS as int)
                == Reading::Read,
    ensures
        reading(codes(inputs[n]), MAX_BRACKETS as int) == Reading::Fatal ==> flaw(
            Json::Array(seq![function(inputs, outputs)]).written(),
        ) is Some,
        reading(codes(inputs[n]), MAX_BRACKETS as int) == Reading::Refused ==> flaw(
            Json::Array(seq![function(inputs, outputs)]).written(),
        ) is None,
{
    law_flaw_of_a_written_abi(Json::Array(seq![function(inputs, outputs)]));
    lemma_function_outcome(inputs, outputs);
    if reading(codes(inputs[n]), MAX_BRACKETS as int) != Reading::Read {
        lemma_params_stopped(inputs, MAX_BRACKETS, 0, n);
    }
}

} // verus!
