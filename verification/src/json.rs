//! Finds its way through the text of a JSON value without reading it.
//!
//! These functions say where the parts of a value begin and end, provided that the text is JSON. Of
//! other texts they say something, too, but nothing that matters.
use vstd::prelude::*;
use vstd::slice::slice_subrange;
use vstd::string::*;

verus! {

/// Where the string literal ends whose first character is at `i`: at the quote that closes it, or at
/// the end of the text if there is none.
pub open spec fn literal_end(text: Seq<char>, i: int) -> int
    decreases text.len() + 1 - i,
{
    if i >= text.len() {
        text.len() as int
    } else if text[i] == '"' {
        i
    } else if text[i] == '\\' {
        literal_end(text, i + 2)
    } else {
        literal_end(text, i + 1)
    }
}

/// The white space of JSON.
pub open spec fn is_blank(c: char) -> bool {
    c == ' ' || c == '\t' || c == '\n' || c == '\r'
}

/// The first place from `i` on without white space.
pub open spec fn after_blanks(text: Seq<char>, i: int) -> int
    decreases text.len() - i,
{
    if i < text.len() && is_blank(text[i]) {
        after_blanks(text, i + 1)
    } else {
        i
    }
}

/// Where an array or an object ends, seen from a place `i` in it that lies in `depth` of its arrays
/// and objects, itself among them.
pub open spec fn container_end(text: Seq<char>, i: int, depth: int) -> int
    decreases text.len() + 1 - i,
{
    if i >= text.len() {
        text.len() as int
    } else if text[i] == '"' {
        proof {
            lemma_literal_end(text, i + 1);
        }
        container_end(text, literal_end(text, i + 1) + 1, depth)
    } else if text[i] == '[' || text[i] == '{' {
        container_end(text, i + 1, depth + 1)
    } else if text[i] == ']' || text[i] == '}' {
        if depth <= 1 {
            i + 1
        } else {
            container_end(text, i + 1, depth - 1)
        }
    } else {
        container_end(text, i + 1, depth)
    }
}

/// What ends a number or a word.
pub open spec fn ends_scalar(c: char) -> bool {
    is_blank(c) || c == ',' || c == ']' || c == '}'
}

/// Where a number or a word ends.
pub open spec fn scalar_end(text: Seq<char>, i: int) -> int
    decreases text.len() - i,
{
    if i < text.len() && !ends_scalar(text[i]) {
        scalar_end(text, i + 1)
    } else {
        i
    }
}

/// Where the value ends that begins at `i`: the place after its last character.
pub open spec fn value_end(text: Seq<char>, i: int) -> int {
    if i >= text.len() {
        text.len() as int
    } else if text[i] == '"' {
        if literal_end(text, i + 1) < text.len() {
            literal_end(text, i + 1) + 1
        } else {
            text.len() as int
        }
    } else if text[i] == '[' || text[i] == '{' {
        container_end(text, i + 1, 1)
    } else {
        scalar_end(text, i)
    }
}

/// Where the value of an entry begins. An entry of an array is the value itself, that of an object
/// begins with a key.
pub open spec fn entry_value(text: Seq<char>, entry: int, keyed: bool) -> Option<int> {
    if entry >= text.len() {
        None
    } else if !keyed {
        Some(entry)
    } else {
        let colon = after_blanks(text, literal_end(text, entry + 1) + 1);
        if text[entry] == '"' && colon < text.len() && text[colon] == ':' {
            Some(after_blanks(text, colon + 1))
        } else {
            None
        }
    }
}

/// Where the next entry begins after one whose value begins at `value`.
pub open spec fn next_entry(text: Seq<char>, value: int) -> Option<int> {
    let comma = after_blanks(text, value_end(text, value));
    if comma < text.len() && text[comma] == ',' {
        Some(after_blanks(text, comma + 1))
    } else {
        None
    }
}

/// Four hexadecimal digits at `i`.
pub open spec fn hex_at(literal: Seq<char>, i: int) -> Option<int> {
    if i + 4 <= literal.len() {
        match (
            hex_digit(literal[i]),
            hex_digit(literal[i + 1]),
            hex_digit(literal[i + 2]),
            hex_digit(literal[i + 3]),
        ) {
            (Some(a), Some(b), Some(c), Some(d)) => Some(4096 * a + 256 * b + 16 * c + d),
            _ => None,
        }
    } else {
        None
    }
}

/// The value of a hexadecimal digit.
pub open spec fn hex_digit(c: char) -> Option<int> {
    if '0' <= c <= '9' {
        Some(c as int - '0' as int)
    } else if 'a' <= c <= 'f' {
        Some(c as int - 'a' as int + 10)
    } else if 'A' <= c <= 'F' {
        Some(c as int - 'A' as int + 10)
    } else {
        None
    }
}

/// What a character stands for behind a backslash.
pub open spec fn escaped(c: char) -> u32 {
    if c == 'b' {
        0x08
    } else if c == 'f' {
        0x0c
    } else if c == 'n' {
        0x0a
    } else if c == 'r' {
        0x0d
    } else if c == 't' {
        0x09
    } else {
        c as u32
    }
}

/// The code point that an escape of four digits begins with, and how many characters it takes: that
/// of a pair of surrogates takes two escapes.
pub open spec fn escaped_code(literal: Seq<char>) -> Option<(u32, int)> {
    match hex_at(literal, 2) {
        None => None,
        Some(high) => {
            if 0xd800 <= high < 0xdc00 && literal.len() >= 12 && literal[6] == '\\' && literal[7]
                == 'u' && hex_at(literal, 8) is Some && 0xdc00 <= hex_at(literal, 8).unwrap()
                < 0xe000 {
                let low = hex_at(literal, 8).unwrap();
                Some(((0x10000 + 0x400 * (high - 0xd800) + (low - 0xdc00)) as u32, 12))
            } else {
                Some((high as u32, 6))
            }
        },
    }
}

/// The code points that a string literal stands for.
pub open spec fn unescaped(literal: Seq<char>) -> Seq<u32>
    decreases literal.len(),
{
    if literal.len() == 0 {
        Seq::empty()
    } else if literal[0] != '\\' {
        seq![literal[0] as u32] + unescaped(literal.skip(1))
    } else if literal.len() < 2 {
        Seq::empty()
    } else if literal[1] != 'u' {
        seq![escaped(literal[1])] + unescaped(literal.skip(2))
    } else {
        match escaped_code(literal) {
            Some((code, n)) => seq![code] + unescaped(literal.skip(n)),
            None => Seq::empty(),
        }
    }
}

/// The code points of the string literal whose opening quote is at `quote`.
pub open spec fn string_at(text: Seq<char>, quote: int) -> Seq<u32> {
    unescaped(text.subrange(quote + 1, literal_end(text, quote + 1)))
}

/// The code points of a word.
pub open spec fn codes(word: Seq<char>) -> Seq<u32> {
    word.map_values(|c: char| c as u32)
}

/// Where the value begins of the first entry, from `entry` on, whose key is `key`.
pub open spec fn member_value(text: Seq<char>, entry: int, key: Seq<char>) -> Option<int>
    decreases text.len() - entry,
{
    match entry_value(text, entry, true) {
        None => None,
        Some(value) => {
            if string_at(text, entry) == codes(key) {
                Some(value)
            } else {
                match next_entry(text, value) {
                    Some(next) if entry < next <= text.len() => member_value(text, next, key),
                    _ => None,
                }
            }
        },
    }
}

/// A string literal ends within the text, and not before it begins.
pub proof fn lemma_literal_end(text: Seq<char>, i: int)
    ensures
        i <= text.len() ==> i <= literal_end(text, i),
        literal_end(text, i) <= text.len(),
    decreases text.len() + 1 - i,
{
    if i < text.len() && text[i] == '\\' {
        lemma_literal_end(text, i + 2);
    } else if i < text.len() && text[i] != '"' {
        lemma_literal_end(text, i + 1);
    }
}

/// Finds where the string literal ends whose first character is at `start`.
pub fn find_literal_end(text: &[char], start: usize) -> (end: usize)
    requires
        start <= text@.len(),
    ensures
        end == literal_end(text@, start as int),
        start <= end <= text@.len(),
{
    let mut i: usize = start;
    while i < text.len() && text[i] != '"'
        invariant
            start <= i <= text@.len(),
            literal_end(text@, i as int) == literal_end(text@, start as int),
        decreases text@.len() - i,
    {
        if text[i] != '\\' {
            i = i + 1;
        } else if text.len() - i < 2 {
            assert(literal_end(text@, i + 2) == literal_end(text@, text@.len() as int));
            i = text.len();
        } else {
            i = i + 2;
        }
    }
    i
}

fn blank(c: char) -> (blank: bool)
    ensures
        blank == is_blank(c),
{
    c == ' ' || c == '\t' || c == '\n' || c == '\r'
}

/// Finds the first place from `start` on without white space.
pub fn skip_blanks(text: &[char], start: usize) -> (next: usize)
    requires
        start <= text@.len(),
    ensures
        next == after_blanks(text@, start as int),
        start <= next <= text@.len(),
{
    let mut i: usize = start;
    while i < text.len() && blank(text[i])
        invariant
            start <= i <= text@.len(),
            after_blanks(text@, i as int) == after_blanks(text@, start as int),
        decreases text@.len() - i,
    {
        i = i + 1;
    }
    i
}

/// Finds where an array or an object ends whose first entry is behind `start`.
fn find_container_end(text: &[char], start: usize) -> (end: usize)
    requires
        0 < start <= text@.len(),
    ensures
        end == container_end(text@, start as int, 1),
        start <= end <= text@.len(),
{
    let mut depth: usize = 1;
    let mut i: usize = start;
    while i < text.len()
        invariant
            start <= i <= text@.len(),
            1 <= depth <= i,
            container_end(text@, i as int, depth as int) == container_end(text@, start as int, 1),
        decreases text@.len() - i,
    {
        let c: char = text[i];
        if c == '"' {
            let end: usize = find_literal_end(text, i + 1);
            if end == text.len() {
                assert(container_end(text@, end + 1, depth as int) == text@.len());
                return end;
            }
            i = end + 1;
        } else if c == ']' || c == '}' {
            if depth == 1 {
                return i + 1;
            }
            depth = depth - 1;
            i = i + 1;
        } else {
            if c == '[' || c == '{' {
                depth = depth + 1;
            }
            i = i + 1;
        }
    }
    i
}

/// Finds where the value ends that begins at `start`.
pub fn find_value_end(text: &[char], start: usize) -> (end: usize)
    requires
        start <= text@.len(),
    ensures
        end == value_end(text@, start as int),
        start <= end <= text@.len(),
{
    if start == text.len() {
        return start;
    }
    let first: char = text[start];
    if first == '"' {
        let end: usize = find_literal_end(text, start + 1);
        return if end < text.len() {
            end + 1
        } else {
            end
        };
    }
    if first == '[' || first == '{' {
        return find_container_end(text, start + 1);
    }
    let mut i: usize = start;
    while i < text.len() && !(blank(text[i]) || text[i] == ',' || text[i] == ']' || text[i] == '}')
        invariant
            start <= i <= text@.len(),
            scalar_end(text@, i as int) == scalar_end(text@, start as int),
        decreases text@.len() - i,
    {
        i = i + 1;
    }
    i
}

/// Finds where the value of an entry begins.
pub fn find_entry_value(text: &[char], entry: usize, keyed: bool) -> (value: Option<usize>)
    requires
        entry <= text@.len(),
    ensures
        match value {
            Some(value) => {
                &&& entry_value(text@, entry as int, keyed) == Some(value as int)
                &&& entry <= value <= text@.len()
                &&& entry < text@.len()
            },
            None => entry_value(text@, entry as int, keyed) is None,
        },
{
    if entry == text.len() {
        return None;
    }
    if !keyed {
        return Some(entry);
    }
    if text[entry] != '"' {
        return None;
    }
    let end: usize = find_literal_end(text, entry + 1);
    if end == text.len() {
        return None;
    }
    let colon: usize = skip_blanks(text, end + 1);
    if colon == text.len() || text[colon] != ':' {
        return None;
    }
    Some(skip_blanks(text, colon + 1))
}

/// Finds where the next entry begins after one whose value begins at `value`.
pub fn find_next_entry(text: &[char], value: usize) -> (next: Option<usize>)
    requires
        value <= text@.len(),
    ensures
        match next {
            Some(next) => next_entry(text@, value as int) == Some(next as int) && value < next
                <= text@.len(),
            None => next_entry(text@, value as int) is None,
        },
{
    let end: usize = find_value_end(text, value);
    let comma: usize = skip_blanks(text, end);
    if comma < text.len() && text[comma] == ',' {
        Some(skip_blanks(text, comma + 1))
    } else {
        None
    }
}

fn read_hex_digit(c: char) -> (value: Option<u32>)
    ensures
        match value {
            Some(value) => hex_digit(c) == Some(value as int) && value < 16,
            None => hex_digit(c) is None,
        },
{
    let code: u32 = c as u32;
    if 0x30 <= code && code <= 0x39 {
        Some(code - 0x30)
    } else if 0x61 <= code && code <= 0x66 {
        Some(code - 0x61 + 10)
    } else if 0x41 <= code && code <= 0x46 {
        Some(code - 0x41 + 10)
    } else {
        None
    }
}

fn read_hex(literal: &[char], i: usize) -> (value: Option<u32>)
    requires
        i <= literal@.len(),
    ensures
        match value {
            Some(value) => hex_at(literal@, i as int) == Some(value as int) && value < 0x10000 && i
                + 4 <= literal@.len(),
            None => hex_at(literal@, i as int) is None,
        },
{
    if literal.len() - i < 4 {
        return None;
    }
    match (
        read_hex_digit(literal[i]),
        read_hex_digit(literal[i + 1]),
        read_hex_digit(literal[i + 2]),
        read_hex_digit(literal[i + 3]),
    ) {
        (Some(a), Some(b), Some(c), Some(d)) => Some(4096 * a + 256 * b + 16 * c + d),
        _ => None,
    }
}

/// Reads the code point that an escape of four digits begins with.
fn read_code(literal: &[char]) -> (code: Option<(u32, usize)>)
    requires
        literal@.len() >= 2,
    ensures
        match code {
            Some((code, n)) => escaped_code(literal@) == Some((code, n as int)) && 0 < n
                <= literal@.len(),
            None => escaped_code(literal@) is None,
        },
{
    match read_hex(literal, 2) {
        None => None,
        Some(high) => {
            if 0xd800 <= high && high < 0xdc00 && literal.len() >= 12 && literal[6] == '\\'
                && literal[7] == 'u' {
                if let Some(low) = read_hex(literal, 8) {
                    if 0xdc00 <= low && low < 0xe000 {
                        return Some((0x10000 + 0x400 * (high - 0xd800) + (low - 0xdc00), 12));
                    }
                }
            }
            Some((high, 6))
        },
    }
}

/// Resolves the escapes of a string literal.
pub fn unescape(literal: &[char]) -> (string: Vec<u32>)
    ensures
        string@ == unescaped(literal@),
{
    let mut string: Vec<u32> = Vec::new();
    let n: usize = literal.len();
    let mut i: usize = 0;
    assert(literal@.skip(0) =~= literal@);
    while i < n
        invariant
            i <= n == literal@.len(),
            string@ + unescaped(literal@.skip(i as int)) == unescaped(literal@),
        decreases n - i,
    {
        let ghost rest = literal@.skip(i as int);
        let ghost before = string@;
        let code: u32;
        let width: usize;
        if literal[i] != '\\' {
            code = literal[i] as u32;
            width = 1;
        } else if n - i < 2 {
            assert(unescaped(rest) =~= Seq::empty());
            assert(string@ =~= unescaped(literal@));
            return string;
        } else if literal[i + 1] != 'u' {
            code = escape(literal[i + 1]);
            width = 2;
        } else {
            let tail: &[char] = slice_subrange(literal, i, n);
            assert(tail@ =~= rest);
            match read_code(tail) {
                Some((escaped, taken)) => {
                    code = escaped;
                    width = taken;
                },
                None => {
                    assert(unescaped(rest) =~= Seq::empty());
                    assert(string@ =~= unescaped(literal@));
                    return string;
                },
            }
        }
        assert(unescaped(rest) == seq![code] + unescaped(rest.skip(width as int)));
        assert(rest.skip(width as int) =~= literal@.skip(i + width));
        string.push(code);
        assert(string@ + unescaped(literal@.skip(i + width)) =~= before + (seq![code] + unescaped(
            literal@.skip(i + width),
        )));
        i = i + width;
    }
    assert(unescaped(literal@.skip(n as int)) =~= Seq::empty());
    assert(string@ =~= unescaped(literal@));
    string
}

fn escape(c: char) -> (code: u32)
    ensures
        code == escaped(c),
{
    if c == 'b' {
        0x08
    } else if c == 'f' {
        0x0c
    } else if c == 'n' {
        0x0a
    } else if c == 'r' {
        0x0d
    } else if c == 't' {
        0x09
    } else {
        c as u32
    }
}

/// Reads the string literal whose opening quote is at `quote`.
pub fn read_string(text: &[char], quote: usize) -> (string: Vec<u32>)
    requires
        quote < text@.len(),
    ensures
        string@ == string_at(text@, quote as int),
{
    assert(quote < text.len());
    let end: usize = find_literal_end(text, quote + 1);
    unescape(slice_subrange(text, quote + 1, end))
}

/// Whether a string is a word.
pub fn is_word(string: &[u32], word: &str) -> (is: bool)
    ensures
        is == (string@ == codes(word@)),
{
    let n: usize = word.unicode_len();
    if string.len() != n {
        return false;
    }
    let mut i: usize = 0;
    while i < n
        invariant
            i <= n == word@.len(),
            n == string@.len(),
            forall|j: int| 0 <= j < i ==> string@[j] == codes(word@)[j],
        decreases n - i,
    {
        if string[i] != word.get_char(i) as u32 {
            assert(string@[i as int] != codes(word@)[i as int]);
            return false;
        }
        i = i + 1;
    }
    assert(string@ =~= codes(word@));
    true
}

/// Finds where the value begins of the first entry, from `start` on, whose key is `key`.
pub fn find_member_value(text: &[char], start: usize, key: &str) -> (value: Option<usize>)
    requires
        start <= text@.len(),
    ensures
        match value {
            Some(value) => member_value(text@, start as int, key@) == Some(value as int) && start
                <= value <= text@.len(),
            None => member_value(text@, start as int, key@) is None,
        },
{
    let mut entry: usize = start;
    loop
        invariant
            start <= entry <= text@.len(),
            member_value(text@, entry as int, key@) == member_value(text@, start as int, key@),
        decreases text@.len() - entry,
    {
        match find_entry_value(text, entry, true) {
            None => {
                return None;
            },
            Some(value) => {
                if is_word(read_string(text, entry).as_slice(), key) {
                    return Some(value);
                }
                match find_next_entry(text, value) {
                    Some(next) => {
                        entry = next;
                    },
                    None => {
                        return None;
                    },
                }
            },
        }
    }
}

} // verus!
