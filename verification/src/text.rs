//! Small verified helpers for working with text as sequences of characters.

use vstd::prelude::*;

verus! {

/// `String::push` appends exactly one character to the end of the string and
/// leaves the characters already there untouched, as its documentation says.
/// Verus has no specification of its own for it, so this statement is
/// believed, not proved.
pub assume_specification[ String::push ](s: &mut String, ch: char)
    ensures
        final(s)@ == old(s)@.push(ch),
;

/// The characters of `s`, in order.
pub fn chars_of(s: &str) -> (out: Vec<char>)
    ensures
        out@ == s@,
{
    let mut out: Vec<char> = Vec::new();
    for c in it: s.chars()
        invariant
            out@ == it.seq().take(it.index() as int),
            it.seq() == s@,
    {
        out.push(c);
        assert(it.seq().take(it.index() + 1) == it.seq().take(it.index() as int).push(c));
    }
    assert(s@.take(s@.len() as int) == s@);
    out
}

/// The string made of the characters of `v`, in order.
pub fn string_of(v: &Vec<char>) -> (out: String)
    ensures
        out@ == v@,
{
    let mut out = String::new();
    let mut i: usize = 0;
    while i < v.len()
        invariant
            i <= v.len(),
            out@ == v@.take(i as int),
        decreases v.len() - i,
    {
        out.push(v[i]);
        i += 1;
        assert(v@.take(i as int) == v@.take(i - 1).push(v@[i - 1]));
    }
    assert(v@.take(v.len() as int) == v@);
    out
}

/// Whether two character vectors hold the same text.
pub fn same_chars(a: &Vec<char>, b: &Vec<char>) -> (r: bool)
    ensures
        r == (a@ == b@),
{
    if a.len() != b.len() {
        return false;
    }
    let mut i: usize = 0;
    while i < a.len()
        invariant
            i <= a.len(),
            a.len() == b.len(),
            a@.take(i as int) == b@.take(i as int),
        decreases a.len() - i,
    {
        if a[i] != b[i] {
            return false;
        }
        i += 1;
        assert(a@.take(i as int) == a@.take(i - 1).push(a@[i - 1]));
        assert(b@.take(i as int) == b@.take(i - 1).push(b@[i - 1]));
    }
    assert(a@.take(a.len() as int) == a@);
    assert(b@.take(b.len() as int) == b@);
    true
}

/// Whether two strings hold the same text.
pub fn same_text(a: &str, b: &str) -> (r: bool)
    ensures
        r == (a@ == b@),
{
    let x = chars_of(a);
    let y = chars_of(b);
    same_chars(&x, &y)
}

/// Appends the characters of `tail` to `out`.
pub fn push_all(out: &mut Vec<char>, tail: &Vec<char>)
    ensures
        final(out)@ == old(out)@ + tail@,
{
    let mut i: usize = 0;
    while i < tail.len()
        invariant
            i <= tail.len(),
            out@ == old(out)@ + tail@.take(i as int),
        decreases tail.len() - i,
    {
        out.push(tail[i]);
        i += 1;
        assert(tail@.take(i as int) == tail@.take(i - 1).push(tail@[i - 1]));
    }
    assert(tail@.take(tail.len() as int) == tail@);
}

/// Appends the characters of `tail` to `out`.
pub fn push_str(out: &mut Vec<char>, tail: &str)
    ensures
        final(out)@ == old(out)@ + tail@,
{
    let t = chars_of(tail);
    push_all(out, &t);
}

/// The character that writes the decimal digit `d`.
pub open spec fn digit_char(d: int) -> char {
    if d == 0 {
        '0'
    } else if d == 1 {
        '1'
    } else if d == 2 {
        '2'
    } else if d == 3 {
        '3'
    } else if d == 4 {
        '4'
    } else if d == 5 {
        '5'
    } else if d == 6 {
        '6'
    } else if d == 7 {
        '7'
    } else if d == 8 {
        '8'
    } else {
        '9'
    }
}

/// The decimal numeral of `n`: no sign, no leading zero, `"0"` for zero.
pub open spec fn decimal(n: nat) -> Seq<char>
    decreases n,
{
    if n < 10 {
        seq![digit_char(n as int)]
    } else {
        decimal(n / 10).push(digit_char((n % 10) as int))
    }
}

/// Whether a character is a decimal digit.
pub open spec fn is_digit(c: char) -> bool {
    '0' <= c <= '9'
}

/// The value of a decimal digit.
pub open spec fn digit_value(c: char) -> int {
    (c as u32) as int - 48
}

/// Whether a text is made of decimal digits and of at least one.
pub open spec fn is_natural(s: Seq<char>) -> bool {
    s.len() > 0 && forall|i: int| 0 <= i < s.len() ==> is_digit(#[trigger] s[i])
}

/// The number that a text made of decimal digits writes.
pub open spec fn natural_of(s: Seq<char>) -> nat
    decreases s.len(),
{
    if s.len() == 0 {
        0
    } else {
        (natural_of(s.drop_last()) * 10 + digit_value(s.last())) as nat
    }
}

/// A whole number as a decimal numeral, with a minus sign before a negative
/// one.
pub open spec fn integer_text(n: int) -> Seq<char> {
    if n < 0 {
        seq!['-'] + decimal((-n) as nat)
    } else {
        decimal(n as nat)
    }
}

/// The whole number that a text writes, if the text is made of decimal
/// digits with or without a minus sign before them.
pub open spec fn integer_of(s: Seq<char>) -> Option<int> {
    if s.len() > 0 && s[0] == '-' {
        if is_natural(s.skip(1)) {
            Some(-(natural_of(s.skip(1)) as int))
        } else {
            None
        }
    } else if is_natural(s) {
        Some(natural_of(s) as int)
    } else {
        None
    }
}

/// Reading the decimal numeral of a number gives the number back.
pub proof fn lemma_natural_of_decimal(n: nat)
    ensures
        is_natural(decimal(n)),
        natural_of(decimal(n)) == n,
        decimal(n)[0] != '-',
    decreases n,
{
    assert(digit_value(digit_char((n % 10) as int)) == n % 10);
    if n >= 10 {
        lemma_natural_of_decimal(n / 10);
        let head = decimal(n / 10);
        let all = decimal(n);
        assert(all.drop_last() == head);
        assert(all.last() == digit_char((n % 10) as int));
        assert(all[0] == head[0]);
        assert forall|i: int| 0 <= i < all.len() implies is_digit(#[trigger] all[i]) by {
            if i < head.len() {
                assert(all[i] == head[i]);
            }
        }
    } else {
        assert(decimal(n).drop_last() == Seq::<char>::empty());
        assert(natural_of(decimal(n).drop_last()) == 0);
        assert(decimal(n).last() == digit_char(n as int));
    }
}

/// Reading the numeral of a whole number gives the number back.
pub proof fn lemma_integer_of_text(n: int)
    ensures
        integer_of(integer_text(n)) == Some(n),
{
    if n < 0 {
        lemma_natural_of_decimal((-n) as nat);
        assert(integer_text(n).skip(1) == decimal((-n) as nat));
    } else {
        lemma_natural_of_decimal(n as nat);
    }
}

/// Ten to the power of `d`.
pub open spec fn pow10(d: nat) -> nat
    decreases d,
{
    if d == 0 {
        1
    } else {
        10 * pow10((d - 1) as nat)
    }
}

/// A number below ten to the power of `d` has at most `d` digits.
pub proof fn lemma_decimal_len(n: nat, d: nat)
    requires
        d >= 1,
        n < pow10(d),
    ensures
        1 <= decimal(n).len() <= d,
    decreases d,
{
    reveal_with_fuel(pow10, 2);
    if n >= 10 {
        assert(d >= 2);
        assert(n / 10 < pow10((d - 1) as nat));
        lemma_decimal_len(n / 10, (d - 1) as nat);
    }
}

fn digit(d: u8) -> (c: char)
    requires
        d < 10,
    ensures
        c == digit_char(d as int),
{
    match d {
        0 => '0',
        1 => '1',
        2 => '2',
        3 => '3',
        4 => '4',
        5 => '5',
        6 => '6',
        7 => '7',
        8 => '8',
        _ => '9',
    }
}

/// Writes `n` as a decimal numeral.
pub fn decimal_of(n: u128) -> (out: Vec<char>)
    ensures
        out@ == decimal(n as nat),
    decreases n,
{
    if n < 10 {
        let mut out: Vec<char> = Vec::new();
        out.push(digit(n as u8));
        out
    } else {
        let mut out = decimal_of(n / 10);
        out.push(digit((n % 10) as u8));
        out
    }
}


/// The text of `a` followed by the text of `b`.
pub fn concat(a: &str, b: &str) -> (out: String)
    ensures
        out@ == a@ + b@,
{
    let mut chars = chars_of(a);
    push_str(&mut chars, b);
    string_of(&chars)
}

/// The texts of a list of strings.
pub open spec fn string_views(list: Seq<String>) -> Seq<Seq<char>> {
    Seq::new(list.len(), |i: int| list[i]@)
}

/// A copy of a list of strings.
pub fn copy_strings(list: &Vec<String>) -> (copy: Vec<String>)
    ensures
        string_views(copy@) == string_views(list@),
{
    let mut copy: Vec<String> = Vec::new();
    let mut i: usize = 0;
    while i < list.len()
        invariant
            i <= list.len(),
            copy@.len() == i,
            forall|k: int| 0 <= k < i ==> (#[trigger] copy@[k])@ == list@[k]@,
        decreases list.len() - i,
    {
        copy.push(list[i].clone());
        i += 1;
    }
    assert(string_views(copy@) =~= string_views(list@));
    copy
}

/// A copy of a list of strings with one more string at its end.
pub fn extended(list: &Vec<String>, last: &str) -> (out: Vec<String>)
    ensures
        string_views(out@) == string_views(list@).push(last@),
{
    let mut out = copy_strings(list);
    let ghost before = string_views(out@);
    out.push(last.to_owned());
    assert(string_views(out@) =~= before.push(last@));
    out
}

/// Whether two lists of strings hold the same texts in the same order.
pub fn same_strings(a: &Vec<String>, b: &Vec<String>) -> (r: bool)
    ensures
        r == (string_views(a@) == string_views(b@)),
{
    if a.len() != b.len() {
        assert(string_views(a@).len() != string_views(b@).len());
        return false;
    }
    let mut i: usize = 0;
    while i < a.len()
        invariant
            i <= a.len(),
            a.len() == b.len(),
            forall|k: int| 0 <= k < i ==> a@[k]@ == b@[k]@,
        decreases a.len() - i,
    {
        if !same_text(a[i].as_str(), b[i].as_str()) {
            assert(string_views(a@)[i as int] != string_views(b@)[i as int]);
            return false;
        }
        i += 1;
    }
    assert(string_views(a@) =~= string_views(b@));
    true
}

/// The index of the first dot at or after `i`, or the length of `s`.
pub open spec fn dot_from(s: Seq<char>, i: int) -> int
    decreases s.len() - i,
{
    if i < 0 || i >= s.len() {
        s.len() as int
    } else if s[i] == '.' {
        i
    } else {
        dot_from(s, i + 1)
    }
}

/// Where `s` has no dot from `i` on, `dot_from` gives its length.
pub proof fn lemma_no_dot(s: Seq<char>, i: int)
    requires
        0 <= i,
        forall|j: int| i <= j < s.len() ==> s[j] != '.',
    ensures
        dot_from(s, i) == s.len(),
    decreases s.len() - i,
{
    if i < s.len() {
        lemma_no_dot(s, i + 1);
    }
}

/// The first dot of `s` is also the first dot of `s` followed by more.
pub proof fn lemma_dot_prefix(s: Seq<char>, t: Seq<char>, i: int)
    requires
        0 <= i,
        dot_from(s, i) < s.len(),
    ensures
        dot_from(s + t, i) == dot_from(s, i),
    decreases s.len() - i,
{
    if i < s.len() && s[i] != '.' {
        assert((s + t)[i] == s[i]);
        lemma_dot_prefix(s, t, i + 1);
    } else if i < s.len() {
        assert((s + t)[i] == s[i]);
    }
}

/// `dot_from` gives an index between `i` and the length, with no dot before
/// it from `i` on.
pub proof fn lemma_dot_range(s: Seq<char>, i: int)
    requires
        0 <= i <= s.len(),
    ensures
        i <= dot_from(s, i) <= s.len(),
        forall|j: int| i <= j < dot_from(s, i) ==> s[j] != '.',
    decreases s.len() - i,
{
    if i < s.len() && s[i] != '.' {
        lemma_dot_range(s, i + 1);
    }
}

/// Every character of a decimal numeral is a digit.
pub proof fn lemma_decimal_digits(n: nat)
    ensures
        decimal(n).len() > 0,
        forall|i: int| 0 <= i < decimal(n).len() ==> '0' <= #[trigger] decimal(n)[i] <= '9',
    decreases n,
{
    if n >= 10 {
        lemma_decimal_digits(n / 10);
    }
}

} // verus!
