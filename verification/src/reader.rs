//! Reading JSON text back into a document: the inverse of the writer, and
//! the proof that nothing is lost between a document and its text.

use vstd::prelude::*;
use crate::json::{
    escape_char,
    escaped,
    hex_char,
    is_number,
    JsonModel,
    quoted,
    render,
    render_items,
    render_members,
};
use crate::text::{dot_from, is_digit, lemma_dot_range};

verus! {

/// Whether a character can stand in a number.
pub open spec fn is_number_char(c: char) -> bool {
    is_digit(c) || c == '-' || c == '.'
}

/// The index at which the number that holds the character at `i` ends: the
/// first index from `i` on whose character cannot stand in a number.
pub open spec fn token_end(s: Seq<char>, i: int) -> int
    decreases s.len() - i,
{
    if i < 0 || i >= s.len() {
        s.len() as int
    } else if is_number_char(s[i]) {
        token_end(s, i + 1)
    } else {
        i
    }
}

/// The value of a lower-case hexadecimal digit.
pub open spec fn hex_value(c: char) -> Option<int> {
    if '0' <= c <= '9' {
        Some((c as u32) as int - 48)
    } else if 'a' <= c <= 'f' {
        Some((c as u32) as int - 87)
    } else {
        None
    }
}

/// The character that the text between quotes begins with, and the number
/// of characters of the text that write it.
pub open spec fn read_char(s: Seq<char>) -> Option<(char, int)> {
    if s.len() == 0 {
        None
    } else if s[0] == '\\' {
        if s.len() < 2 {
            None
        } else if s[1] == '"' {
            Some(('"', 2))
        } else if s[1] == '\\' {
            Some(('\\', 2))
        } else if s[1] == 'n' {
            Some(('\n', 2))
        } else if s[1] == 'r' {
            Some(('\r', 2))
        } else if s[1] == 't' {
            Some(('\t', 2))
        } else if s[1] == 'u' && s.len() >= 6 && s[2] == '0' && s[3] == '0' && hex_value(s[4]) is Some
            && hex_value(s[5]) is Some && hex_value(s[4]).unwrap() * 16 + hex_value(s[5]).unwrap()
            < 0x20 {
            Some(((hex_value(s[4]).unwrap() * 16 + hex_value(s[5]).unwrap()) as char, 6))
        } else {
            None
        }
    } else if s[0] == '"' || (s[0] as u32) < 0x20 {
        None
    } else {
        Some((s[0], 1))
    }
}

/// The string whose text begins `s`, quotes excluded, and what follows its
/// closing quote.
pub open spec fn read_string(s: Seq<char>) -> Option<(Seq<char>, Seq<char>)>
    decreases s.len(),
{
    if s.len() > 0 && s[0] == '"' {
        Some((Seq::empty(), s.skip(1)))
    } else {
        match read_char(s) {
            Some((c, used)) => if 0 < used <= s.len() {
                match read_string(s.skip(used)) {
                    Some((text, rest)) => Some((seq![c] + text, rest)),
                    None => None,
                }
            } else {
                None
            },
            None => None,
        }
    }
}

/// The document whose text begins `s`, and what follows it.
pub open spec fn read_value(s: Seq<char>) -> Option<(JsonModel, Seq<char>)>
    decreases s.len(), 0nat,
{
    if s.len() == 0 {
        None
    } else if s[0] == 'n' {
        if "null"@.is_prefix_of(s) {
            Some((JsonModel::Null, s.skip("null"@.len() as int)))
        } else {
            None
        }
    } else if s[0] == 't' {
        if "true"@.is_prefix_of(s) {
            Some((JsonModel::Bool(true), s.skip("true"@.len() as int)))
        } else {
            None
        }
    } else if s[0] == 'f' {
        if "false"@.is_prefix_of(s) {
            Some((JsonModel::Bool(false), s.skip("false"@.len() as int)))
        } else {
            None
        }
    } else if s[0] == '"' {
        match read_string(s.skip(1)) {
            Some((text, rest)) => Some((JsonModel::Str(text), rest)),
            None => None,
        }
    } else if s[0] == '[' {
        if s.len() >= 2 && s[1] == ']' {
            Some((JsonModel::Array(Seq::empty()), s.skip(2)))
        } else {
            match read_items(s.skip(1)) {
                Some((items, rest)) => Some((JsonModel::Array(items), rest)),
                None => None,
            }
        }
    } else if s[0] == '{' {
        if s.len() >= 2 && s[1] == '}' {
            Some((JsonModel::Object(Seq::empty()), s.skip(2)))
        } else {
            match read_members(s.skip(1)) {
                Some((members, rest)) => Some((JsonModel::Object(members), rest)),
                None => None,
            }
        }
    } else if is_number_char(s[0]) {
        let end = token_end(s, 0);
        if is_number(s.take(end)) {
            Some((JsonModel::Number(s.take(end)), s.skip(end)))
        } else {
            None
        }
    } else {
        None
    }
}

/// The items of an array whose text, after the opening bracket, begins
/// `s`, and what follows the closing bracket.
pub open spec fn read_items(s: Seq<char>) -> Option<(Seq<JsonModel>, Seq<char>)>
    decreases s.len(), 1nat,
{
    match read_value(s) {
        Some((item, rest)) => if rest.len() == 0 || rest.len() > s.len() {
            None
        } else if rest[0] == ']' {
            Some((seq![item], rest.skip(1)))
        } else if rest[0] == ',' {
            match read_items(rest.skip(1)) {
                Some((more, after)) => Some((seq![item] + more, after)),
                None => None,
            }
        } else {
            None
        },
        None => None,
    }
}

/// The members of an object whose text, after the opening brace, begins
/// `s`, and what follows the closing brace.
pub open spec fn read_members(s: Seq<char>) -> Option<(Seq<(Seq<char>, JsonModel)>, Seq<char>)>
    decreases s.len(), 1nat,
{
    if s.len() == 0 || s[0] != '"' {
        None
    } else {
        match read_string(s.skip(1)) {
            Some((key, colon)) => if colon.len() == 0 || colon.len() > s.len() || colon[0] != ':' {
                None
            } else {
                match read_value(colon.skip(1)) {
                    Some((value, rest)) => if rest.len() == 0 || rest.len() > s.len() {
                        None
                    } else if rest[0] == '}' {
                        Some((seq![(key, value)], rest.skip(1)))
                    } else if rest[0] == ',' {
                        match read_members(rest.skip(1)) {
                            Some((more, after)) => Some((seq![(key, value)] + more, after)),
                            None => None,
                        }
                    } else {
                        None
                    },
                    None => None,
                }
            },
            None => None,
        }
    }
}

/// The document that a text writes, if the text is that of one document and
/// nothing else.
pub open spec fn read(text: Seq<char>) -> Option<JsonModel> {
    match read_value(text) {
        Some((document, rest)) => if rest.len() == 0 {
            Some(document)
        } else {
            None
        },
        None => None,
    }
}

/// Whether every number in a document is a numeral that JSON accepts.
pub open spec fn is_sound(j: JsonModel) -> bool
    decreases j,
{
    match j {
        JsonModel::Number(t) => is_number(t),
        JsonModel::Array(items) => forall|i: int|
            0 <= i < items.len() ==> is_sound(#[trigger] items[i]),
        JsonModel::Object(members) => forall|i: int|
            0 <= i < members.len() ==> is_sound((#[trigger] members[i]).1),
        _ => true,
    }
}


/// Reading what was written for a character gives the character back.
pub proof fn lemma_read_char(c: char, tail: Seq<char>)
    ensures
        read_char(escape_char(c) + tail) == Some((c, escape_char(c).len() as int)),
        (escape_char(c) + tail)[0] != '"',
        0 < escape_char(c).len(),
{
    let s = escape_char(c) + tail;
    if c == '"' || c == '\\' || c == '\n' || c == '\r' || c == '\t' {
        assert(s[0] == '\\');
        assert(s[1] == escape_char(c)[1]);
    } else if (c as u32) < 0x20 {
        let hi = (c as u32) as int / 16;
        let lo = (c as u32) as int % 16;
        assert(s[0] == '\\' && s[1] == 'u' && s[2] == '0' && s[3] == '0');
        assert(s[4] == hex_char(hi) && s[5] == hex_char(lo));
        assert(hex_value(hex_char(hi)) == Some(hi));
        assert(hex_value(hex_char(lo)) == Some(lo));
        assert(hi * 16 + lo == (c as u32) as int);
        assert(((c as u32) as int) as char == c);
    } else {
        assert(s[0] == c);
    }
}

/// The text written for a string begins with the text written for its
/// first character.
pub proof fn lemma_escaped_front(s: Seq<char>)
    requires
        s.len() > 0,
    ensures
        escaped(s) == escape_char(s[0]) + escaped(s.skip(1)),
    decreases s.len(),
{
    if s.len() == 1 {
        assert(s.drop_last() =~= Seq::<char>::empty());
        assert(s.skip(1) =~= Seq::<char>::empty());
        assert(escaped(s.drop_last()) =~= Seq::<char>::empty());
        assert(escaped(s.skip(1)) =~= Seq::<char>::empty());
        assert(escaped(s) =~= escape_char(s[0]) + escaped(s.skip(1)));
    } else {
        let head = s.drop_last();
        lemma_escaped_front(head);
        assert(head.skip(1) =~= s.skip(1).drop_last());
        assert(s.skip(1).last() == s.last());
        assert(head[0] == s[0]);
        assert(escaped(s) =~= escape_char(s[0]) + escaped(s.skip(1)));
    }
}

/// Reading a string that was written gives the string back, and what
/// follows its closing quote.
pub proof fn lemma_read_string(text: Seq<char>, tail: Seq<char>)
    ensures
        read_string(escaped(text) + seq!['"'] + tail) == Some((text, tail)),
    decreases text.len(),
{
    let s = escaped(text) + seq!['"'] + tail;
    if text.len() == 0 {
        assert(escaped(text) =~= Seq::<char>::empty());
        assert(s[0] == '"');
        assert(s.skip(1) =~= tail);
    } else {
        let first = escape_char(text[0]);
        let after = escaped(text.skip(1)) + seq!['"'] + tail;
        lemma_escaped_front(text);
        lemma_read_char(text[0], after);
        assert(s =~= first + after);
        assert(s.skip(first.len() as int) =~= after);
        lemma_read_string(text.skip(1), tail);
        assert(seq![text[0]] + text.skip(1) =~= text);
    }
}

/// Reading a quoted string that was written gives the string back.
pub proof fn lemma_read_quoted(text: Seq<char>, tail: Seq<char>)
    ensures
        (quoted(text) + tail)[0] == '"',
        read_string((quoted(text) + tail).skip(1)) == Some((text, tail)),
{
    lemma_read_string(text, tail);
    assert((quoted(text) + tail).skip(1) =~= escaped(text) + seq!['"'] + tail);
}

/// The characters of a numeral can all stand in a number, and the first
/// is a digit or the minus sign.
pub proof fn lemma_number_chars(t: Seq<char>)
    requires
        is_number(t),
    ensures
        t.len() > 0,
        is_digit(t[0]) || t[0] == '-',
        forall|i: int| 0 <= i < t.len() ==> is_number_char(#[trigger] t[i]),
{
    let start: int = if t.len() > 0 && t[0] == '-' {
        1
    } else {
        0
    };
    lemma_dot_range(t, start);
    let dot = dot_from(t, start);
    lemma_dot_at(t, start);
    assert forall|i: int| 0 <= i < t.len() implies is_number_char(#[trigger] t[i]) by {
        if i < start {
        } else if i < dot {
            assert(is_digit(t[i]));
        } else if i == dot {
        } else {
            assert(is_digit(t[i]));
        }
    }
    assert(is_digit(t[start]));
}

/// Where `dot_from` gives an index within the text, a dot stands there.
pub proof fn lemma_dot_at(s: Seq<char>, i: int)
    requires
        0 <= i,
    ensures
        dot_from(s, i) < s.len() ==> s[dot_from(s, i)] == '.',
    decreases s.len() - i,
{
    if i < s.len() && s[i] != '.' {
        lemma_dot_at(s, i + 1);
    }
}

/// A number ends where the characters that can stand in a number end.
pub proof fn lemma_token_end(t: Seq<char>, tail: Seq<char>, i: int)
    requires
        0 <= i <= t.len(),
        forall|k: int| 0 <= k < t.len() ==> is_number_char(#[trigger] t[k]),
        tail.len() == 0 || !is_number_char(tail[0]),
    ensures
        token_end(t + tail, i) == t.len(),
    decreases t.len() - i,
{
    let s = t + tail;
    if i < t.len() {
        assert(s[i] == t[i]);
        lemma_token_end(t, tail, i + 1);
    } else if tail.len() > 0 {
        assert(s[i] == tail[0]);
    }
}

/// The text of the items of an array from item `from` up to item `to`, with
/// commas between them.
pub open spec fn joined(items: Seq<JsonModel>, from: int, to: int) -> Seq<char>
    decreases to - from,
{
    if from < 0 || from >= to || to > items.len() {
        Seq::empty()
    } else if from + 1 == to {
        render(items[from])
    } else {
        render(items[from]) + seq![','] + joined(items, from + 1, to)
    }
}

/// The text of items `from` to `to` is the text of items `from` to
/// `to - 1`, a comma, and the text of the last.
proof fn lemma_joined_last(items: Seq<JsonModel>, from: int, to: int)
    requires
        0 <= from < to - 1,
        to <= items.len(),
    ensures
        joined(items, from, to) == joined(items, from, to - 1) + seq![','] + render(items[to - 1]),
    decreases to - from,
{
    if from + 2 < to {
        lemma_joined_last(items, from + 1, to);
        assert(joined(items, from, to) =~= joined(items, from, to - 1) + seq![','] + render(
            items[to - 1],
        ));
    } else {
        assert(joined(items, from + 1, to) == render(items[to - 1]));
        assert(joined(items, from, to - 1) == render(items[from]));
    }
}

/// The text of the first `n` items as the writer puts it is the text of
/// items 0 to `n`.
proof fn lemma_items_joined(items: Seq<JsonModel>, n: nat)
    requires
        n <= items.len(),
    ensures
        render_items(items, n) == joined(items, 0, n as int),
    decreases n,
{
    if n >= 2 {
        lemma_items_joined(items, (n - 1) as nat);
        lemma_joined_last(items, 0, n as int);
    }
}

/// The text of the members of an object from member `from` up to member
/// `to`, with commas between them.
pub open spec fn joined_members(members: Seq<(Seq<char>, JsonModel)>, from: int, to: int) -> Seq<
    char,
>
    decreases to - from,
{
    if from < 0 || from >= to || to > members.len() {
        Seq::empty()
    } else if from + 1 == to {
        quoted(members[from].0) + seq![':'] + render(members[from].1)
    } else {
        quoted(members[from].0) + seq![':'] + render(members[from].1) + seq![','] + joined_members(
            members,
            from + 1,
            to,
        )
    }
}

/// The text of members `from` to `to` is the text of members `from` to
/// `to - 1`, a comma, and the text of the last.
proof fn lemma_joined_members_last(members: Seq<(Seq<char>, JsonModel)>, from: int, to: int)
    requires
        0 <= from < to - 1,
        to <= members.len(),
    ensures
        joined_members(members, from, to) == joined_members(members, from, to - 1) + seq![',']
            + quoted(members[to - 1].0) + seq![':'] + render(members[to - 1].1),
    decreases to - from,
{
    if from + 2 < to {
        lemma_joined_members_last(members, from + 1, to);
        assert(joined_members(members, from, to) =~= joined_members(members, from, to - 1) + seq![
            ',',
        ] + quoted(members[to - 1].0) + seq![':'] + render(members[to - 1].1));
    } else {
        assert(joined_members(members, from + 1, to) == quoted(members[to - 1].0) + seq![':']
            + render(members[to - 1].1));
        assert(joined_members(members, from, to - 1) == quoted(members[from].0) + seq![':']
            + render(members[from].1));
        assert(joined_members(members, from, to) =~= joined_members(members, from, to - 1) + seq![
            ',',
        ] + quoted(members[to - 1].0) + seq![':'] + render(members[to - 1].1));
    }
}

/// The text of the first `n` members as the writer puts it is the text of
/// members 0 to `n`.
proof fn lemma_members_joined(members: Seq<(Seq<char>, JsonModel)>, n: nat)
    requires
        n <= members.len(),
    ensures
        render_members(members, n) == joined_members(members, 0, n as int),
    decreases n,
{
    if n >= 2 {
        lemma_members_joined(members, (n - 1) as nat);
        lemma_joined_members_last(members, 0, n as int);
    }
}

/// Whether a text can follow a document: it is empty or begins with a
/// character that cannot stand in a number.
pub open spec fn can_follow(tail: Seq<char>) -> bool {
    tail.len() == 0 || !is_number_char(tail[0])
}

/// Reading a document that was written gives the document back, and what
/// follows it.
#[verifier::rlimit(40)]
pub proof fn lemma_read_value(j: JsonModel, tail: Seq<char>)
    requires
        is_sound(j),
        can_follow(tail),
    ensures
        read_value(render(j) + tail) == Some((j, tail)),
        (render(j) + tail).len() > tail.len(),
    decreases j, 2nat, 0nat,
{
    let s = render(j) + tail;
    match j {
        JsonModel::Null => {
            reveal_strlit("null");
            assert(s[0] == 'n');
            assert("null"@ =~= s.subrange(0, 4));
            assert(s.skip(4) =~= tail);
        },
        JsonModel::Bool(b) => {
            reveal_strlit("true");
            reveal_strlit("false");
            if b {
                assert(s[0] == 't');
                assert("true"@ =~= s.subrange(0, 4));
                assert(s.skip(4) =~= tail);
            } else {
                assert(s[0] == 'f');
                assert("false"@ =~= s.subrange(0, 5));
                assert(s.skip(5) =~= tail);
            }
        },
        JsonModel::Number(t) => {
            lemma_number_chars(t);
            lemma_token_end(t, tail, 0);
            assert(s[0] == t[0]);
            assert(s.take(t.len() as int) =~= t);
            assert(s.skip(t.len() as int) =~= tail);
        },
        JsonModel::Str(text) => {
            lemma_read_quoted(text, tail);
        },
        JsonModel::Array(items) => {
            assert(s[0] == '[');
            if items.len() == 0 {
                assert(render_items(items, 0) =~= Seq::<char>::empty());
                assert(s =~= seq!['[', ']'] + tail);
                assert(s[1] == ']');
                assert(s.skip(2) =~= tail);
                assert(items =~= Seq::<JsonModel>::empty());
            } else {
                lemma_items_joined(items, items.len());
                lemma_read_items(j, 0, tail);
                assert(s.skip(1) =~= joined(items, 0, items.len() as int) + seq![']'] + tail);
                lemma_first_of_value(items[0], seq![']']);
                assert(s[1] == joined(items, 0, items.len() as int)[0]);
                assert(items.skip(0) =~= items);
            }
        },
        JsonModel::Object(members) => {
            assert(s[0] == '{');
            if members.len() == 0 {
                assert(render_members(members, 0) =~= Seq::<char>::empty());
                assert(s =~= seq!['{', '}'] + tail);
                assert(s[1] == '}');
                assert(s.skip(2) =~= tail);
                assert(members =~= Seq::<(Seq<char>, JsonModel)>::empty());
            } else {
                lemma_members_joined(members, members.len());
                lemma_read_members(j, 0, tail);
                assert(s.skip(1) =~= joined_members(members, 0, members.len() as int) + seq!['}']
                    + tail);
                assert(joined_members(members, 0, members.len() as int)[0] == '"');
                assert(s[1] == '"');
                assert(members.skip(0) =~= members);
            }
        },
    }
}

/// The text of a document is not empty and does not begin with a closing
/// bracket.
proof fn lemma_first_of_value(j: JsonModel, tail: Seq<char>)
    requires
        is_sound(j),
    ensures
        render(j).len() > 0,
        render(j)[0] != ']',
        render(j)[0] != '}',
        render(j)[0] != ',',
{
    match j {
        JsonModel::Null => {
            reveal_strlit("null");
        },
        JsonModel::Bool(b) => {
            reveal_strlit("true");
            reveal_strlit("false");
        },
        JsonModel::Number(t) => {
            lemma_number_chars(t);
        },
        JsonModel::Str(text) => {
            assert(quoted(text)[0] == '"');
        },
        JsonModel::Array(items) => {
            assert(render(j)[0] == '[');
        },
        JsonModel::Object(members) => {
            assert(render(j)[0] == '{');
        },
    }
}

/// Reading the items of an array that were written, from item `from` on,
/// gives those items back.
#[verifier::rlimit(40)]
proof fn lemma_read_items(j: JsonModel, from: int, tail: Seq<char>)
    requires
        j is Array,
        is_sound(j),
        0 <= from < j->Array_0.len(),
    ensures
        read_items(joined(j->Array_0, from, j->Array_0.len() as int) + seq![']'] + tail) == Some(
            (j->Array_0.skip(from), tail),
        ),
    decreases j, 1nat, j->Array_0.len() - from,
{
    let items = j->Array_0;
    let n = items.len() as int;
    let s = joined(items, from, n) + seq![']'] + tail;
    let item = items[from];
    assert(is_sound(item));
    if from + 1 == n {
        let after = seq![']'] + tail;
        assert(s =~= render(item) + after);
        lemma_read_value(item, after);
        assert(after[0] == ']');
        assert(after.skip(1) =~= tail);
        assert(items.skip(from) =~= seq![item]);
    } else {
        let after = seq![','] + joined(items, from + 1, n) + seq![']'] + tail;
        assert(s =~= render(item) + after);
        lemma_read_value(item, after);
        assert(after[0] == ',');
        assert(after.skip(1) =~= joined(items, from + 1, n) + seq![']'] + tail);
        lemma_read_items(j, from + 1, tail);
        assert(items.skip(from) =~= seq![item] + items.skip(from + 1));
    }
}

/// Reading the members of an object that were written, from member `from`
/// on, gives those members back.
#[verifier::rlimit(40)]
proof fn lemma_read_members(j: JsonModel, from: int, tail: Seq<char>)
    requires
        j is Object,
        is_sound(j),
        0 <= from < j->Object_0.len(),
    ensures
        read_members(
            joined_members(j->Object_0, from, j->Object_0.len() as int) + seq!['}'] + tail,
        ) == Some((j->Object_0.skip(from), tail)),
        joined_members(j->Object_0, from, j->Object_0.len() as int).len() > 0,
        joined_members(j->Object_0, from, j->Object_0.len() as int)[0] == '"',
    decreases j, 1nat, j->Object_0.len() - from,
{
    let members = j->Object_0;
    let n = members.len() as int;
    let s = joined_members(members, from, n) + seq!['}'] + tail;
    let key = members[from].0;
    let value = members[from].1;
    assert(is_sound(value));
    assert(quoted(key)[0] == '"');
    if from + 1 == n {
        let after = seq!['}'] + tail;
        let colon = seq![':'] + render(value) + after;
        assert(s =~= quoted(key) + colon);
        lemma_read_quoted(key, colon);
        assert(colon[0] == ':');
        assert(colon.skip(1) =~= render(value) + after);
        lemma_read_value(value, after);
        assert(after[0] == '}');
        assert(after.skip(1) =~= tail);
        assert(members.skip(from) =~= seq![(key, value)]);
        assert(s[0] == '"');
    } else {
        let after = seq![','] + joined_members(members, from + 1, n) + seq!['}'] + tail;
        let colon = seq![':'] + render(value) + after;
        assert(s =~= quoted(key) + colon);
        lemma_read_quoted(key, colon);
        assert(colon[0] == ':');
        assert(colon.skip(1) =~= render(value) + after);
        lemma_read_value(value, after);
        assert(after[0] == ',');
        assert(after.skip(1) =~= joined_members(members, from + 1, n) + seq!['}'] + tail);
        lemma_read_members(j, from + 1, tail);
        assert(members.skip(from) =~= seq![(key, value)] + members.skip(from + 1));
        assert(s[0] == '"');
    }
}

/// Nothing is lost between a document and its text: reading the text that
/// was written for a document gives the document back, whatever its
/// strings hold and however deep it is, provided that its numbers are
/// numerals.
pub proof fn lemma_read_inverts_render(j: JsonModel)
    requires
        is_sound(j),
    ensures
        read(render(j)) == Some(j),
{
    lemma_read_value(j, Seq::empty());
    assert(render(j) + Seq::<char>::empty() =~= render(j));
}

} // verus!
