//! What holds of finding one's way through the text of a JSON value.
use crate::abi_laws::{law_literal_ends_at_its_quote, lemma_codes_differ};
use crate::json::{
    after_blanks, codes, container_end, ends_scalar, entry_value, is_blank, literal_end,
    member_value, next_entry, scalar_end, string_at, value_end,
};
use vstd::prelude::*;

verus! {

/// A JSON value whose strings are written without escapes.
pub ghost enum Json {
    /// A number, `true`, `false` or `null`, as it is written.
    Word(Seq<char>),
    Text(Seq<char>),
    Array(Seq<Json>),
    Object(Seq<(Seq<char>, Json)>),
}

/// What a string holds if it is written without escapes.
pub open spec fn is_plain(string: Seq<char>) -> bool {
    forall|i: int| 0 <= i < string.len() ==> #[trigger] string[i] != '"' && string[i] != '\\'
}

/// What a number or a word holds.
pub open spec fn is_word_char(c: char) -> bool {
    c != ' ' && c != '\t' && c != '\n' && c != '\r' && c != ',' && c != ':' && c != '"' && c != '['
        && c != ']' && c != '{' && c != '}'
}

impl Json {
    pub open spec fn well_formed(self) -> bool
        decreases self,
    {
        match self {
            Json::Word(word) => word.len() > 0 && forall|i: int|
                0 <= i < word.len() ==> is_word_char(#[trigger] word[i]),
            Json::Text(text) => is_plain(text),
            Json::Array(items) => forall|i: int|
                0 <= i < items.len() ==> (#[trigger] items[i]).well_formed(),
            Json::Object(members) => forall|i: int|
                0 <= i < members.len() ==> is_plain((#[trigger] members[i]).0)
                    && members[i].1.well_formed(),
        }
    }

    /// How a value is written.
    pub open spec fn written(self) -> Seq<char>
        decreases self, 0int,
    {
        match self {
            Json::Word(word) => word,
            Json::Text(text) => seq!['"'] + text + seq!['"'],
            Json::Array(items) => seq!['['] + written_items(items, 0) + seq![']'],
            Json::Object(members) => seq!['{'] + written_members(members, 0) + seq!['}'],
        }
    }
}

/// How the items of an array are written from the `i`th on.
pub open spec fn written_items(items: Seq<Json>, i: int) -> Seq<char>
    decreases items, items.len() - i,
{
    if i < 0 || i >= items.len() {
        Seq::empty()
    } else if i == items.len() - 1 {
        items[i].written()
    } else {
        items[i].written() + seq![','] + written_items(items, i + 1)
    }
}

/// How the members of an object are written from the `i`th on.
pub open spec fn written_members(members: Seq<(Seq<char>, Json)>, i: int) -> Seq<char>
    decreases members, members.len() - i,
{
    if i < 0 || i >= members.len() {
        Seq::empty()
    } else {
        let member = seq!['"'] + members[i].0 + seq!['"', ':'] + members[i].1.written();
        if i == members.len() - 1 {
            member
        } else {
            member + seq![','] + written_members(members, i + 1)
        }
    }
}

/// A text holds a part at a place.
pub open spec fn holds(text: Seq<char>, i: int, part: Seq<char>) -> bool {
    &&& 0 <= i
    &&& i + part.len() <= text.len()
    &&& text.subrange(i, i + part.len()) == part
}

/// What holds two parts one after the other holds each of them.
pub proof fn lemma_holds_both(text: Seq<char>, i: int, a: Seq<char>, b: Seq<char>)
    requires
        holds(text, i, a + b),
    ensures
        holds(text, i, a),
        holds(text, i + a.len(), b),
{
    let both = text.subrange(i, i + (a + b).len());
    assert(text.subrange(i, i + a.len()) =~= both.take(a.len() as int));
    assert((a + b).take(a.len() as int) =~= a);
    assert(text.subrange(i + a.len(), i + a.len() + b.len()) =~= both.skip(a.len() as int));
    assert((a + b).skip(a.len() as int) =~= b);
}

/// What holds a part holds each of its characters.
pub proof fn lemma_holds_char(text: Seq<char>, i: int, part: Seq<char>, j: int)
    requires
        holds(text, i, part),
        0 <= j < part.len(),
    ensures
        text[i + j] == part[j],
{
    assert(text.subrange(i, i + part.len())[j] == text[i + j]);
}

pub proof fn lemma_over_literal(text: Seq<char>, i: int, literal: Seq<char>)
    requires
        is_plain(literal),
        holds(text, i, seq!['"'] + literal + seq!['"']),
    ensures
        text[i] == '"',
        literal_end(text, i + 1) == i + 1 + literal.len(),
        string_at(text, i) == codes(literal),
{
    let part = seq!['"'] + literal + seq!['"'];
    let before = text.take(i + 1);
    let after = text.skip(i + part.len());
    lemma_holds_char(text, i, part, 0);
    assert(text =~= before + literal + seq!['"'] + after) by {
        assert forall|j: int| 0 <= j < text.len() implies text[j] == (before + literal + seq!['"']
            + after)[j] by {
            if i <= j < i + part.len() {
                lemma_holds_char(text, i, part, j - i);
            }
        }
    }
    law_literal_ends_at_its_quote(before, literal, after);
}

proof fn lemma_over_word(text: Seq<char>, i: int, word: Seq<char>, k: int, depth: int)
    requires
        holds(text, i, word),
        0 <= k <= word.len(),
        forall|j: int| 0 <= j < word.len() ==> is_word_char(#[trigger] word[j]),
    ensures
        container_end(text, i + k, depth) == container_end(text, i + word.len(), depth),
    decreases word.len() - k,
{
    if k < word.len() {
        lemma_holds_char(text, i, word, k);
        assert(is_word_char(word[k]));
        lemma_over_word(text, i, word, k + 1, depth);
    }
}

/// A value within an array or an object does not end it.
proof fn lemma_over_value(text: Seq<char>, i: int, json: Json, depth: int)
    requires
        json.well_formed(),
        holds(text, i, json.written()),
        depth >= 1,
    ensures
        container_end(text, i, depth) == container_end(text, i + json.written().len(), depth),
    decreases json, 0int,
{
    match json {
        Json::Word(word) => {
            lemma_over_word(text, i, word, 0, depth);
        },
        Json::Text(literal) => {
            lemma_over_literal(text, i, literal);
        },
        Json::Array(items) => {
            let inner = written_items(items, 0);
            lemma_holds_both(text, i, seq!['['] + inner, seq![']']);
            lemma_holds_both(text, i, seq!['['], inner);
            lemma_holds_char(text, i, seq!['['], 0);
            lemma_holds_char(text, i + 1 + inner.len(), seq![']'], 0);
            lemma_over_items(text, i + 1, items, 0, depth + 1);
        },
        Json::Object(members) => {
            let inner = written_members(members, 0);
            lemma_holds_both(text, i, seq!['{'] + inner, seq!['}']);
            lemma_holds_both(text, i, seq!['{'], inner);
            lemma_holds_char(text, i, seq!['{'], 0);
            lemma_holds_char(text, i + 1 + inner.len(), seq!['}'], 0);
            lemma_over_members(text, i + 1, members, 0, depth + 1);
        },
    }
}

proof fn lemma_over_items(text: Seq<char>, i: int, items: Seq<Json>, k: int, depth: int)
    requires
        forall|j: int| 0 <= j < items.len() ==> (#[trigger] items[j]).well_formed(),
        0 <= k,
        holds(text, i, written_items(items, k)),
        depth >= 1,
    ensures
        container_end(text, i, depth) == container_end(
            text,
            i + written_items(items, k).len(),
            depth,
        ),
    decreases items, items.len() - k,
{
    if k < items.len() {
        let item = items[k].written();
        assert(items[k].well_formed());
        if k == items.len() - 1 {
            lemma_over_value(text, i, items[k], depth);
        } else {
            let rest = written_items(items, k + 1);
            lemma_holds_both(text, i, item + seq![','], rest);
            lemma_holds_both(text, i, item, seq![',']);
            lemma_holds_char(text, i + item.len(), seq![','], 0);
            lemma_over_value(text, i, items[k], depth);
            lemma_over_items(text, i + item.len() + 1, items, k + 1, depth);
        }
    }
}

proof fn lemma_over_members(
    text: Seq<char>,
    i: int,
    members: Seq<(Seq<char>, Json)>,
    k: int,
    depth: int,
)
    requires
        forall|j: int|
            0 <= j < members.len() ==> is_plain((#[trigger] members[j]).0)
                && members[j].1.well_formed(),
        0 <= k,
        holds(text, i, written_members(members, k)),
        depth >= 1,
    ensures
        container_end(text, i, depth) == container_end(
            text,
            i + written_members(members, k).len(),
            depth,
        ),
    decreases members, members.len() - k,
{
    if k < members.len() {
        let (key, value) = members[k];
        assert(is_plain(key) && value.well_formed());
        lemma_member(text, i, members, k);
        let start = i + key.len() + 3;
        assert(container_end(text, i, depth) == container_end(text, i + key.len() + 2, depth));
        assert(container_end(text, i + key.len() + 2, depth) == container_end(text, start, depth));
        lemma_over_value(text, start, value, depth);
        if k < members.len() - 1 {
            let comma = start + value.written().len();
            assert(container_end(text, comma, depth) == container_end(text, comma + 1, depth));
            lemma_over_members(text, comma + 1, members, k + 1, depth);
        }
    }
}

/// Where the parts of a member are: the key, the colon, the value and what follows it.
pub proof fn lemma_member(text: Seq<char>, i: int, members: Seq<(Seq<char>, Json)>, k: int)
    requires
        0 <= k < members.len(),
        is_plain(members[k].0),
        holds(text, i, written_members(members, k)),
    ensures
        ({
            let (key, value) = members[k];
            let start = i + key.len() + 3;
            let end = start + value.written().len();
            &&& text[i] == '"'
            &&& literal_end(text, i + 1) == i + 1 + key.len()
            &&& string_at(text, i) == codes(key)
            &&& start <= text.len()
            &&& text[start - 1] == ':'
            &&& holds(text, start, value.written())
            &&& k < members.len() - 1 ==> {
                &&& end < text.len()
                &&& text[end] == ','
                &&& holds(text, end + 1, written_members(members, k + 1))
            }
            &&& written_members(members, k).len() == key.len() + 3 + value.written().len() + if k
                < members.len() - 1 {
                1 + written_members(members, k + 1).len()
            } else {
                0
            }
        }),
{
    let (key, value) = members[k];
    let quoted = seq!['"'] + key + seq!['"'];
    let head = seq!['"'] + key + seq!['"', ':'];
    let member = head + value.written();
    if k < members.len() - 1 {
        let rest = written_members(members, k + 1);
        lemma_holds_both(text, i, member + seq![','], rest);
        lemma_holds_both(text, i, member, seq![',']);
        lemma_holds_char(text, i + member.len(), seq![','], 0);
    }
    lemma_holds_both(text, i, head, value.written());
    assert(head =~= quoted + seq![':']);
    lemma_holds_both(text, i, quoted, seq![':']);
    lemma_holds_char(text, i + quoted.len(), seq![':'], 0);
    lemma_over_literal(text, i, key);
}

proof fn lemma_scalar_end(text: Seq<char>, i: int, word: Seq<char>, k: int)
    requires
        holds(text, i, word),
        0 <= k <= word.len(),
        forall|j: int| 0 <= j < word.len() ==> is_word_char(#[trigger] word[j]),
        i + word.len() < text.len() ==> ends_scalar(text[i + word.len()]),
    ensures
        scalar_end(text, i + k) == i + word.len(),
    decreases word.len() - k,
{
    if k < word.len() {
        lemma_holds_char(text, i, word, k);
        assert(is_word_char(word[k]));
        lemma_scalar_end(text, i, word, k + 1);
    }
}

/// A value ends where it is written to its end, whatever stands before it and behind it, as long as
/// that is not part of a number.
pub proof fn law_value_ends_where_it_is_written(text: Seq<char>, i: int, json: Json)
    requires
        json.well_formed(),
        holds(text, i, json.written()),
        i + json.written().len() < text.len() ==> {
            let next = text[i + json.written().len()];
            next == ',' || next == ']' || next == '}' || is_blank(next)
        },
    ensures
        json.written().len() > 0,
        value_end(text, i) == i + json.written().len(),
{
    match json {
        Json::Word(word) => {
            lemma_holds_char(text, i, word, 0);
            assert(is_word_char(word[0]));
            lemma_scalar_end(text, i, word, 0);
        },
        Json::Text(literal) => {
            lemma_over_literal(text, i, literal);
        },
        Json::Array(items) => {
            let inner = written_items(items, 0);
            lemma_holds_both(text, i, seq!['['] + inner, seq![']']);
            lemma_holds_both(text, i, seq!['['], inner);
            lemma_holds_char(text, i, seq!['['], 0);
            lemma_holds_char(text, i + 1 + inner.len(), seq![']'], 0);
            lemma_over_items(text, i + 1, items, 0, 1);
        },
        Json::Object(members) => {
            let inner = written_members(members, 0);
            lemma_holds_both(text, i, seq!['{'] + inner, seq!['}']);
            lemma_holds_both(text, i, seq!['{'], inner);
            lemma_holds_char(text, i, seq!['{'], 0);
            lemma_holds_char(text, i + 1 + inner.len(), seq!['}'], 0);
            lemma_over_members(text, i + 1, members, 0, 1);
        },
    }
}

} // verus!
