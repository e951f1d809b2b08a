//! A small JSON document type and its writer. Metadata files and the
//! manifest are built as documents first and written out as text here.

use vstd::prelude::*;
use crate::text::{
    chars_of,
    decimal,
    decimal_of,
    dot_from,
    integer_text,
    is_digit,
    lemma_decimal_digits,
    lemma_dot_range,
    lemma_no_dot,
    push_all,
    push_str,
    string_of,
};

verus! {

/// A JSON document.
#[derive(Debug, PartialEq, Eq)]
pub enum Json {
    /// `null`.
    Null,
    /// `true` or `false`.
    Bool(bool),
    /// A signed whole number.
    Int(i64),
    /// An unsigned whole number.
    Uint(u128),
    /// A number given as its decimal numeral, which is written as it stands.
    Number(String),
    /// A string.
    Str(String),
    /// An array.
    Array(Vec<Json>),
    /// An object: its members in the order in which they are written.
    Object(Vec<Member>),
}

/// One member of a JSON object.
#[derive(Debug, PartialEq, Eq)]
pub struct Member {
    /// The member's name.
    pub key: String,
    /// The member's value.
    pub value: Json,
}

/// The mathematical value of a JSON document. A number is held as its
/// numeral.
pub enum JsonModel {
    Null,
    Bool(bool),
    Number(Seq<char>),
    Str(Seq<char>),
    Array(Seq<JsonModel>),
    Object(Seq<(Seq<char>, JsonModel)>),
}

/// The mathematical value of a document.
pub open spec fn document(j: Json) -> JsonModel
    decreases j,
{
    match j {
        Json::Null => JsonModel::Null,
        Json::Bool(b) => JsonModel::Bool(b),
        Json::Int(n) => JsonModel::Number(integer_text(n as int)),
        Json::Uint(n) => JsonModel::Number(decimal(n as nat)),
        Json::Number(t) => JsonModel::Number(t@),
        Json::Str(s) => JsonModel::Str(s@),
        Json::Array(items) => JsonModel::Array(
            Seq::new(
                items@.len(),
                |i: int|
                    if 0 <= i < items@.len() {
                        document(items@[i])
                    } else {
                        JsonModel::Null
                    },
            ),
        ),
        Json::Object(members) => JsonModel::Object(
            Seq::new(
                members@.len(),
                |i: int|
                    if 0 <= i < members@.len() {
                        (members@[i].key@, document(members@[i].value))
                    } else {
                        (Seq::empty(), JsonModel::Null)
                    },
            ),
        ),
    }
}

impl View for Json {
    type V = JsonModel;

    open spec fn view(&self) -> JsonModel {
        document(*self)
    }
}

impl View for Member {
    type V = (Seq<char>, JsonModel);

    open spec fn view(&self) -> (Seq<char>, JsonModel) {
        (self.key@, self.value@)
    }
}

/// The lower-case hexadecimal digit of a value below sixteen.
pub open spec fn hex_char(d: int) -> char {
    if d < 10 {
        crate::text::digit_char(d)
    } else if d == 10 {
        'a'
    } else if d == 11 {
        'b'
    } else if d == 12 {
        'c'
    } else if d == 13 {
        'd'
    } else if d == 14 {
        'e'
    } else {
        'f'
    }
}

/// How one character of a string is written between the quotes: the quote
/// and the backslash behind a backslash, line feed, carriage return and tab by
/// their letters, any other control character as `\u00` and two hexadecimal
/// digits, everything else as it stands.
pub open spec fn escape_char(c: char) -> Seq<char> {
    if c == '"' {
        seq!['\\', '"']
    } else if c == '\\' {
        seq!['\\', '\\']
    } else if c == '\n' {
        seq!['\\', 'n']
    } else if c == '\r' {
        seq!['\\', 'r']
    } else if c == '\t' {
        seq!['\\', 't']
    } else if (c as u32) < 0x20 {
        seq!['\\', 'u', '0', '0', hex_char((c as u32) as int / 16), hex_char((c as u32) as int % 16)]
    } else {
        seq![c]
    }
}

/// The characters of a string as they are written between the quotes.
pub open spec fn escaped(s: Seq<char>) -> Seq<char>
    decreases s.len(),
{
    if s.len() == 0 {
        Seq::empty()
    } else {
        escaped(s.drop_last()) + escape_char(s.last())
    }
}

/// A string as JSON text.
pub open spec fn quoted(s: Seq<char>) -> Seq<char> {
    seq!['"'] + escaped(s) + seq!['"']
}

/// A document as JSON text, without any white space.
pub open spec fn render(j: JsonModel) -> Seq<char>
    decreases j,
{
    match j {
        JsonModel::Null => "null"@,
        JsonModel::Bool(b) => if b {
            "true"@
        } else {
            "false"@
        },
        JsonModel::Number(t) => t,
        JsonModel::Str(s) => quoted(s),
        JsonModel::Array(items) => seq!['['] + render_items(items, items.len()) + seq![']'],
        JsonModel::Object(members) => seq!['{'] + render_members(members, members.len()) + seq![
            '}',
        ],
    }
}

/// The first `n` items of an array as JSON text, with commas between them.
pub open spec fn render_items(items: Seq<JsonModel>, n: nat) -> Seq<char>
    decreases items, n,
{
    if n == 0 || n > items.len() {
        Seq::empty()
    } else if n == 1 {
        render(items[0])
    } else {
        render_items(items, (n - 1) as nat) + seq![','] + render(items[n - 1])
    }
}

/// The first `n` members of an object as JSON text, with commas between
/// them.
pub open spec fn render_members(members: Seq<(Seq<char>, JsonModel)>, n: nat) -> Seq<char>
    decreases members, n,
{
    if n == 0 || n > members.len() {
        Seq::empty()
    } else if n == 1 {
        quoted(members[0].0) + seq![':'] + render(members[0].1)
    } else {
        render_members(members, (n - 1) as nat) + seq![','] + quoted(members[n - 1].0) + seq![':']
            + render(members[n - 1].1)
    }
}


fn hex_digit(d: u8) -> (c: char)
    requires
        d < 16,
    ensures
        c == hex_char(d as int),
{
    match d {
        0 => '0',
        1 => '1',
        2 => '2',
        3 => '3',
        4 => '4',
        5 => '5',
        6 => '6',
        7 => '7',
        8 => '8',
        9 => '9',
        10 => 'a',
        11 => 'b',
        12 => 'c',
        13 => 'd',
        14 => 'e',
        _ => 'f',
    }
}

fn push_escaped_char(out: &mut Vec<char>, c: char)
    ensures
        final(out)@ == old(out)@ + escape_char(c),
{
    if c == '"' {
        out.push('\\');
        out.push('"');
    } else if c == '\\' {
        out.push('\\');
        out.push('\\');
    } else if c == '\n' {
        out.push('\\');
        out.push('n');
    } else if c == '\r' {
        out.push('\\');
        out.push('r');
    } else if c == '\t' {
        out.push('\\');
        out.push('t');
    } else if (c as u32) < 0x20 {
        let u: u8 = c as u8;
        out.push('\\');
        out.push('u');
        out.push('0');
        out.push('0');
        out.push(hex_digit(u / 16));
        out.push(hex_digit(u % 16));
    } else {
        out.push(c);
    }
    assert(out@ =~= old(out)@ + escape_char(c));
}

fn push_quoted(out: &mut Vec<char>, s: &str)
    ensures
        final(out)@ == old(out)@ + quoted(s@),
{
    let chars = chars_of(s);
    out.push('"');
    let mut i: usize = 0;
    while i < chars.len()
        invariant
            i <= chars.len(),
            chars@ == s@,
            out@ == old(out)@ + seq!['"'] + escaped(s@.take(i as int)),
        decreases chars.len() - i,
    {
        push_escaped_char(out, chars[i]);
        i += 1;
        assert(s@.take(i as int).drop_last() == s@.take(i - 1));
    }
    assert(s@.take(chars.len() as int) == s@);
    out.push('"');
    assert(out@ =~= old(out)@ + quoted(s@));
}

fn push_integer(out: &mut Vec<char>, n: i64)
    ensures
        final(out)@ == old(out)@ + integer_text(n as int),
{
    if n < 0 {
        out.push('-');
        let wide: i128 = n as i128;
        let digits = decimal_of((-wide) as u128);
        push_all(out, &digits);
        assert(out@ =~= old(out)@ + integer_text(n as int));
    } else {
        let digits = decimal_of(n as u128);
        push_all(out, &digits);
    }
}

/// Appends a document to `out` as JSON text.
pub fn render_into(j: &Json, out: &mut Vec<char>)
    ensures
        final(out)@ == old(out)@ + render(j@),
    decreases j,
{
    match j {
        Json::Null => {
            push_str(out, "null");
        },
        Json::Bool(b) => {
            if *b {
                push_str(out, "true");
            } else {
                push_str(out, "false");
            }
        },
        Json::Int(n) => {
            push_integer(out, *n);
        },
        Json::Uint(n) => {
            let digits = decimal_of(*n);
            push_all(out, &digits);
        },
        Json::Number(t) => {
            push_str(out, t.as_str());
        },
        Json::Str(s) => {
            push_quoted(out, s.as_str());
        },
        Json::Array(items) => {
            let ghost list = j@->Array_0;
            out.push('[');
            let mut i: usize = 0;
            while i < items.len()
                invariant
                    i <= items.len(),
                    j == Json::Array(*items),
                    list == j@->Array_0,
                    list.len() == items@.len(),
                    out@ == old(out)@ + seq!['['] + render_items(list, i as nat),
                decreases items.len() - i,
            {
                let ghost before = out@;
                if i > 0 {
                    out.push(',');
                }
                render_into(&items[i], out);
                assert(list[i as int] == items@[i as int]@);
                i += 1;
                assert(out@ =~= old(out)@ + seq!['['] + render_items(list, i as nat));
            }
            out.push(']');
            assert(out@ =~= old(out)@ + render(j@));
        },
        Json::Object(members) => {
            let ghost list = j@->Object_0;
            out.push('{');
            let mut i: usize = 0;
            while i < members.len()
                invariant
                    i <= members.len(),
                    j == Json::Object(*members),
                    list == j@->Object_0,
                    list.len() == members@.len(),
                    out@ == old(out)@ + seq!['{'] + render_members(list, i as nat),
                decreases members.len() - i,
            {
                if i > 0 {
                    out.push(',');
                }
                push_quoted(out, members[i].key.as_str());
                out.push(':');
                render_into(&members[i].value, out);
                assert(list[i as int] == members@[i as int]@);
                i += 1;
                assert(out@ =~= old(out)@ + seq!['{'] + render_members(list, i as nat));
            }
            out.push('}');
            assert(out@ =~= old(out)@ + render(j@));
        },
    }
}

impl Json {
    /// The document as JSON text, without any white space. Where every
    /// number in the document is a numeral, the text reads back as the
    /// document.
    pub fn to_text(&self) -> (text: String)
        ensures
            text@ == render(self@),
            crate::reader::is_sound(self@) ==> crate::reader::read(text@) == Some(self@),
    {
        proof {
            if crate::reader::is_sound(self@) {
                crate::reader::lemma_read_inverts_render(self@);
            }
        }
        let mut out: Vec<char> = Vec::new();
        render_into(self, &mut out);
        assert(out@ =~= render(self@));
        string_of(&out)
    }
}


/// Whether a text is a decimal numeral that JSON accepts as a number: an
/// optional minus sign, a whole part of at least one digit without a
/// needless leading zero, and optionally a dot followed by at least one
/// digit. Texts such as `NaN` and `inf` are no numerals.
pub open spec fn is_number(s: Seq<char>) -> bool {
    let start: int = if s.len() > 0 && s[0] == '-' {
        1
    } else {
        0
    };
    let dot = dot_from(s, start);
    &&& start < dot
    &&& forall|i: int| start <= i < dot ==> is_digit(#[trigger] s[i])
    &&& (dot - start == 1 || s[start] != '0')
    &&& (dot == s.len() || (dot + 1 < s.len() && forall|i: int|
        dot < i < s.len() ==> is_digit(#[trigger] s[i])))
}

/// The decimal numeral of a number has no needless leading zero.
pub proof fn lemma_decimal_head(n: nat)
    ensures
        decimal(n).len() == 1 || decimal(n)[0] != '0',
    decreases n,
{
    if n >= 10 {
        lemma_decimal_head(n / 10);
        let head = decimal(n / 10);
        assert(decimal(n)[0] == head[0]);
        if head.len() == 1 {
            if n / 10 >= 10 {
                lemma_decimal_digits(n / 10 / 10);
            }
            assert(n / 10 < 10);
            assert(head[0] == crate::text::digit_char((n / 10) as int));
        }
    }
}

/// The numeral of a whole number is a numeral that JSON accepts.
pub proof fn lemma_integer_is_number(n: int)
    ensures
        is_number(integer_text(n)),
{
    let m: nat = if n < 0 {
        (-n) as nat
    } else {
        n as nat
    };
    let digits = decimal(m);
    let s = integer_text(n);
    lemma_decimal_digits(m);
    lemma_decimal_head(m);
    let start: int = if n < 0 {
        1
    } else {
        0
    };
    assert(s.len() == digits.len() + start);
    assert forall|i: int| start <= i < s.len() implies is_digit(#[trigger] s[i]) && s[i] != '.' by {
        assert(s[i] == digits[i - start]);
    }
    assert(s[0] == '-' <==> n < 0) by {
        if n >= 0 {
            assert(s[0] == digits[0]);
        }
    }
    lemma_no_dot(s, start);
    assert(s[start] == digits[0]);
}

fn is_digit_char(c: char) -> (r: bool)
    ensures
        r == is_digit(c),
{
    '0' <= c && c <= '9'
}

/// Whether a text is a decimal numeral that JSON accepts as a number.
pub fn is_number_text(text: &str) -> (r: bool)
    ensures
        r == is_number(text@),
{
    let s = chars_of(text);
    let n = s.len();
    let start: usize = if n > 0 && s[0] == '-' {
        1
    } else {
        0
    };
    let mut i: usize = start;
    proof {
        lemma_dot_range(s@, start as int);
    }
    while i < n && s[i] != '.'
        invariant
            start <= i <= n,
            n == s@.len(),
            s@ == text@,
            start as int == (if s@.len() > 0 && s@[0] == '-' { 1int } else { 0int }),
            dot_from(s@, start as int) == dot_from(s@, i as int),
            i <= dot_from(s@, start as int) <= n,
            forall|j: int| start <= j < i ==> is_digit(#[trigger] s@[j]),
        decreases n - i,
    {
        if !is_digit_char(s[i]) {
            proof {
                lemma_dot_range(s@, (i + 1) as int);
                assert(!is_digit(s@[i as int]));
            }
            return false;
        }
        proof {
            lemma_dot_range(s@, (i + 1) as int);
        }
        i += 1;
    }
    assert(i == dot_from(s@, start as int));
    if i == start {
        return false;
    }
    if i - start > 1 && s[start] == '0' {
        return false;
    }
    if i == n {
        return true;
    }
    if i + 1 >= n {
        return false;
    }
    let mut j: usize = i + 1;
    while j < n
        invariant
            i < j <= n,
            n == s@.len(),
            s@ == text@,
            start as int == (if s@.len() > 0 && s@[0] == '-' { 1int } else { 0int }),
            i == dot_from(s@, start as int),
            forall|k: int| i < k < j ==> is_digit(#[trigger] s@[k]),
        decreases n - j,
    {
        if !is_digit_char(s[j]) {
            assert(!is_digit(s@[j as int]));
            return false;
        }
        j += 1;
    }
    true
}

} // verus!
