//! The name resolver: turns the display names of the children of one
//! directory into filesystem-safe names that are pairwise distinct without
//! regard to letter case.

use vstd::prelude::*;
use crate::classify::{extension, Representation, ScriptKind};
use crate::text::{
    chars_of,
    decimal,
    decimal_of,
    dot_from,
    lemma_decimal_digits,
    lemma_decimal_len,
    lemma_dot_prefix,
    lemma_dot_range,
    lemma_no_dot,
    pow10,
    push_all,
    push_str,
    same_chars,
    string_of,
};

verus! {

/// The longest name, in characters, that sanitizing lets through.
pub const MAX_NAME_LEN: usize = 48;

/// The longest suffix, in characters, that resolving adds to a sanitized
/// name: the placeholder and ten digits.
pub const MAX_SUFFIX_LEN: usize = 11;

/// The character that stands in for whatever a name may not hold.
pub const PLACEHOLDER: char = '_';

/// Characters that no path component may hold: the control characters
/// (below U+0020, and U+007F to U+009F), the path separators and the
/// characters that common filesystems reserve.
pub open spec fn is_illegal(c: char) -> bool {
    ||| (c as u32) < 0x20
    ||| 0x7f <= (c as u32) <= 0x9f
    ||| c == '/'
    ||| c == '\\'
    ||| c == ':'
    ||| c == '*'
    ||| c == '?'
    ||| c == '"'
    ||| c == '<'
    ||| c == '>'
    ||| c == '|'
}

/// A character as it stands after sanitizing.
pub open spec fn clean_char(c: char) -> char {
    if is_illegal(c) {
        PLACEHOLDER
    } else {
        c
    }
}

/// A character without regard to the case of the letters `A` to `Z`.
pub open spec fn fold_char(c: char) -> char {
    if 'A' <= c <= 'Z' {
        ((c as u32) + 32) as char
    } else {
        c
    }
}

/// A text without regard to the case of the letters `A` to `Z`. Device
/// names are told by it.
pub open spec fn lower_letters(s: Seq<char>) -> Seq<char> {
    Seq::new(s.len(), |i: int| fold_char(s[i]))
}

/// The lower case of a character as `char::to_lowercase` of the standard
/// library gives it: the characters that the iterator yields, in order. It
/// depends on the character alone.
pub uninterp spec fn lowercase(c: char) -> Seq<char>;

/// The lower case of a character, of whatever script: for the characters
/// below U+0080 the character itself, with the letters `A` to `Z` as `a` to
/// `z`; for every other character what `lowercase` names.
pub open spec fn lower(c: char) -> Seq<char> {
    if (c as u32) < 0x80 {
        seq![fold_char(c)]
    } else {
        lowercase(c)
    }
}

/// A name without regard to letter case: the lower case of each of its
/// characters, one after the other. Two names count as the same name when
/// their folds are equal.
pub open spec fn fold(s: Seq<char>) -> Seq<char>
    decreases s.len(),
{
    if s.len() == 0 {
        Seq::empty()
    } else {
        fold(s.drop_last()) + lower(s.last())
    }
}

/// Whether a text holds only characters below U+0080.
pub open spec fn is_plain(s: Seq<char>) -> bool
    decreases s.len(),
{
    s.len() == 0 || ((s.last() as u32) < 0x80 && is_plain(s.drop_last()))
}

/// The fold of a text followed by another is the fold of the one followed
/// by the fold of the other.
pub proof fn lemma_fold_add(a: Seq<char>, b: Seq<char>)
    ensures
        fold(a + b) == fold(a) + fold(b),
    decreases b.len(),
{
    if b.len() == 0 {
        assert(a + b =~= a);
        assert(fold(a) + fold(b) =~= fold(a));
    } else {
        lemma_fold_add(a, b.drop_last());
        assert((a + b).drop_last() =~= a + b.drop_last());
        assert((a + b).last() == b.last());
        assert(fold(a + b) =~= fold(a) + fold(b));
    }
}

/// The fold of a text of characters below U+0080 is the text with the
/// letters `A` to `Z` in lower case, character by character.
pub proof fn lemma_fold_plain(s: Seq<char>)
    requires
        is_plain(s),
    ensures
        fold(s) == lower_letters(s),
        fold(s).len() == s.len(),
    decreases s.len(),
{
    if s.len() > 0 {
        lemma_fold_plain(s.drop_last());
        assert(fold(s) =~= lower_letters(s));
    } else {
        assert(fold(s) =~= lower_letters(s));
    }
}

/// A text of characters that are all below U+0080 is plain.
pub proof fn lemma_plain(s: Seq<char>)
    requires
        forall|i: int| 0 <= i < s.len() ==> ((#[trigger] s[i]) as u32) < 0x80,
    ensures
        is_plain(s),
    decreases s.len(),
{
    if s.len() > 0 {
        assert forall|i: int| 0 <= i < s.drop_last().len() implies ((#[trigger] s.drop_last()[i])
            as u32) < 0x80 by {
            assert(s.drop_last()[i] == s[i]);
        }
        lemma_plain(s.drop_last());
    }
}

/// The part of a name before its first dot.
pub open spec fn stem(s: Seq<char>) -> Seq<char> {
    s.take(dot_from(s, 0))
}

/// Whether a folded stem is the name of a device: `con`, `prn`, `aux`, `nul`,
/// `com1` to `com9`, `lpt1` to `lpt9`.
pub open spec fn is_device_name(t: Seq<char>) -> bool {
    ||| t == seq!['c', 'o', 'n']
    ||| t == seq!['p', 'r', 'n']
    ||| t == seq!['a', 'u', 'x']
    ||| t == seq!['n', 'u', 'l']
    ||| (t.len() == 4 && t[0] == 'c' && t[1] == 'o' && t[2] == 'm' && '1' <= t[3] <= '9')
    ||| (t.len() == 4 && t[0] == 'l' && t[1] == 'p' && t[2] == 't' && '1' <= t[3] <= '9')
}

/// Whether a name can stand as one path component: it is not empty, holds no
/// illegal character, does not end in a dot or a space, and its stem is no
/// device name in any letter case.
pub open spec fn is_safe(s: Seq<char>) -> bool {
    &&& s.len() > 0
    &&& forall|i: int| 0 <= i < s.len() ==> !is_illegal(#[trigger] s[i])
    &&& s.last() != '.'
    &&& s.last() != ' '
    &&& !is_device_name(lower_letters(stem(s)))
}

/// A name with every illegal character replaced by the placeholder.
pub open spec fn cleaned(name: Seq<char>) -> Seq<char> {
    Seq::new(name.len(), |i: int| clean_char(name[i]))
}

/// At most the first `MAX_NAME_LEN` characters of a name.
pub open spec fn truncated(name: Seq<char>) -> Seq<char> {
    if name.len() > MAX_NAME_LEN {
        name.take(MAX_NAME_LEN as int)
    } else {
        name
    }
}

/// A name whose last character, if it is a dot or a space, is replaced by
/// the placeholder.
pub open spec fn closed(name: Seq<char>) -> Seq<char> {
    if name.len() > 0 && (name.last() == '.' || name.last() == ' ') {
        name.drop_last().push(PLACEHOLDER)
    } else {
        name
    }
}

/// The sanitized form of a display name: illegal characters replaced, cut to
/// `MAX_NAME_LEN` characters, a closing dot or space replaced; an empty name
/// and a device name become the placeholder alone.
pub open spec fn sanitize(name: Seq<char>) -> Seq<char> {
    let shaped = closed(truncated(cleaned(name)));
    if shaped.len() == 0 || is_device_name(lower_letters(stem(shaped))) {
        seq![PLACEHOLDER]
    } else {
        shaped
    }
}

/// The `k`-th name tried for a sanitized name: the name itself first, then
/// the name followed by `_2`, `_3` and so on.
pub open spec fn candidate(base: Seq<char>, k: nat) -> Seq<char> {
    if k <= 1 {
        base
    } else {
        base + seq![PLACEHOLDER] + decimal(k)
    }
}

/// What follows a source file's name in the name of its metadata file.
pub open spec fn meta_suffix() -> Seq<char> {
    ".meta.json"@
}

/// The folded names that a node of the given name and representation takes
/// up in its parent directory: its own name and, for a source file, the names
/// of the file and of its metadata file.
pub open spec fn entries(name: Seq<char>, rep: Representation) -> Set<Seq<char>> {
    match rep {
        Representation::SourceFile(kind) => set![
            fold(name),
            fold(name + extension(kind)),
            fold(name + meta_suffix()),
        ],
        _ => set![fold(name)],
    }
}

/// Whether nothing that the node would take up is claimed yet.
pub open spec fn free(claimed: Set<Seq<char>>, name: Seq<char>, rep: Representation) -> bool {
    claimed.disjoint(entries(name, rep))
}

/// The number of the first free candidate from `k` up to `limit`, if any.
pub open spec fn first_free(
    claimed: Set<Seq<char>>,
    base: Seq<char>,
    rep: Representation,
    k: nat,
    limit: nat,
) -> Option<nat>
    decreases limit + 1 - k,
{
    if k > limit {
        None
    } else if free(claimed, candidate(base, k), rep) {
        Some(k)
    } else {
        first_free(claimed, base, rep, k + 1, limit)
    }
}

/// The name that a display name resolves to among the claimed names: the
/// first free candidate of its sanitized form, or nothing where the first
/// `limit` candidates are all taken.
pub open spec fn resolve(
    claimed: Set<Seq<char>>,
    display: Seq<char>,
    rep: Representation,
    limit: nat,
) -> Option<Seq<char>> {
    match first_free(claimed, sanitize(display), rep, 1, limit) {
        Some(k) => Some(candidate(sanitize(display), k)),
        None => None,
    }
}

/// The claimed names after the display name has been resolved: the entries of
/// the resolved name are added; a name that could not be resolved adds
/// nothing.
pub open spec fn claim(
    claimed: Set<Seq<char>>,
    display: Seq<char>,
    rep: Representation,
    limit: nat,
) -> Set<Seq<char>> {
    match resolve(claimed, display, rep, limit) {
        Some(name) => claimed.union(entries(name, rep)),
        None => claimed,
    }
}

/// What `first_free` finds is free, lies between `k` and `limit`, and no
/// candidate before it from `k` on is free; where it finds nothing, no
/// candidate from `k` to `limit` is free.
pub proof fn lemma_first_free(
    claimed: Set<Seq<char>>,
    base: Seq<char>,
    rep: Representation,
    k: nat,
    limit: nat,
)
    ensures
        match first_free(claimed, base, rep, k, limit) {
            Some(n) => {
                &&& k <= n <= limit
                &&& free(claimed, candidate(base, n), rep)
                &&& forall|j: nat| k <= j < n ==> !free(claimed, #[trigger] candidate(base, j), rep)
            },
            None => forall|j: nat|
                k <= j <= limit ==> !free(claimed, #[trigger] candidate(base, j), rep),
        },
    decreases limit + 1 - k,
{
    if k <= limit && !free(claimed, candidate(base, k), rep) {
        lemma_first_free(claimed, base, rep, k + 1, limit);
    }
}


/// The name of the source file that a directory holds for a script of its own.
pub open spec fn init_file(kind: ScriptKind) -> Seq<char> {
    "init"@ + extension(kind)
}

/// The name of the metadata file that a directory holds for itself.
pub open spec fn dir_meta_file() -> Seq<char> {
    "init.meta.json"@
}

/// The name of the manifest file at the output root.
pub open spec fn manifest_file() -> Seq<char> {
    "default.project.json"@
}

/// The name of the manifest file at the output root.
pub fn manifest_file_name() -> (name: &'static str)
    ensures
        name@ == manifest_file(),
{
    "default.project.json"
}

/// The folded names that every directory keeps for files of its own, so that
/// no child can take them: the init files, the metadata file and the
/// manifest.
pub open spec fn reserved_entries() -> Set<Seq<char>> {
    set![
        fold(init_file(ScriptKind::Server)),
        fold(init_file(ScriptKind::Client)),
        fold(init_file(ScriptKind::Module)),
        fold(dir_meta_file()),
        fold(manifest_file()),
    ]
}

/// The names of the files that a directory keeps for itself, and what
/// follows the name of a node in the names of its files, hold small letters
/// and dots only: folding leaves them as they are.
pub proof fn lemma_kept_names(kind: ScriptKind)
    ensures
        fold(extension(kind)) == extension(kind),
        fold(meta_suffix()) == meta_suffix(),
        fold(init_file(kind)) == init_file(kind),
        fold(dir_meta_file()) == dir_meta_file(),
        fold(manifest_file()) == manifest_file(),
        extension(kind).len() == 4 || extension(kind).len() == 11,
        meta_suffix().len() == 10,
        init_file(kind).len() == 4 + extension(kind).len(),
        dir_meta_file().len() == 14,
        manifest_file().len() == 20,
{
    reveal_strlit("init");
    reveal_strlit(".server.lua");
    reveal_strlit(".client.lua");
    reveal_strlit(".lua");
    reveal_strlit(".meta.json");
    reveal_strlit("init.meta.json");
    reveal_strlit("default.project.json");
    reveal_with_fuel(small_upto, 21);
    lemma_small("init"@);
    lemma_small(".server.lua"@);
    lemma_small(".client.lua"@);
    lemma_small(".lua"@);
    lemma_small(".meta.json"@);
    lemma_small("init.meta.json"@);
    lemma_small("default.project.json"@);
    lemma_fold_add("init"@, extension(kind));
}

/// Whether a character is a small letter of `a` to `z` or a dot.
pub open spec fn is_small(c: char) -> bool {
    'a' <= c <= 'z' || c == '.'
}

/// Whether the first `n` characters of a text are small letters or dots.
pub open spec fn small_upto(s: Seq<char>, n: nat) -> bool
    decreases n,
{
    n == 0 || (n <= s.len() && is_small(s[n - 1]) && small_upto(s, (n - 1) as nat))
}

/// Folding leaves a text as it is where it holds small letters and dots
/// only.
pub proof fn lemma_small(s: Seq<char>)
    requires
        s.len() <= 20,
        small_upto(s, s.len()),
    ensures
        fold(s) == s,
{
    lemma_small_upto(s, s.len());
    assert forall|i: int| 0 <= i < s.len() implies ((#[trigger] s[i]) as u32) < 0x80 by {}
    lemma_plain(s);
    lemma_fold_plain(s);
    assert(lower_letters(s) =~= s);
}

/// Where the first `n` characters are small, each of them is.
proof fn lemma_small_upto(s: Seq<char>, n: nat)
    requires
        small_upto(s, n),
    ensures
        forall|i: int| 0 <= i < n ==> is_small(#[trigger] s[i]),
    decreases n,
{
    if n > 0 {
        lemma_small_upto(s, (n - 1) as nat);
    }
}

/// A sanitized name is safe and at most `MAX_NAME_LEN` characters long, and a
/// safe name of that length is left as it is.
pub proof fn lemma_sanitize(name: Seq<char>)
    ensures
        is_safe(sanitize(name)),
        sanitize(name).len() <= MAX_NAME_LEN,
        is_safe(name) && name.len() <= MAX_NAME_LEN ==> sanitize(name) == name,
{
    let shaped = closed(truncated(cleaned(name)));
    let one = seq![PLACEHOLDER];
    assert(dot_from(one, 1) == 1);
    assert(dot_from(one, 0) == 1);
    assert(stem(one) == one);
    assert(lower_letters(one) == one);
    assert(!is_illegal(PLACEHOLDER));
    assert(is_safe(one));
    assert forall|i: int| 0 <= i < shaped.len() implies !is_illegal(#[trigger] shaped[i]) by {
        assert(!is_illegal(clean_char(name[i])));
    }
    if is_safe(name) && name.len() <= MAX_NAME_LEN {
        assert(cleaned(name) == name);
    }
}

/// Every candidate of a safe name is safe.
pub proof fn lemma_candidate_safe(base: Seq<char>, k: nat)
    requires
        is_safe(base),
    ensures
        is_safe(candidate(base, k)),
{
    if k > 1 {
        let tail = seq![PLACEHOLDER] + decimal(k);
        let c = candidate(base, k);
        assert(c == base + tail);
        lemma_decimal_digits(k);
        assert forall|i: int| 0 <= i < c.len() implies !is_illegal(#[trigger] c[i]) by {
            if i < base.len() {
                assert(c[i] == base[i]);
            } else if i > base.len() {
                assert(c[i] == decimal(k)[i - base.len() - 1]);
            }
        }
        assert(c.last() == decimal(k).last());
        lemma_dot_range(base, 0);
        if dot_from(base, 0) < base.len() {
            lemma_dot_prefix(base, tail, 0);
            assert(stem(c) == stem(base));
        } else {
            assert forall|j: int| 0 <= j < c.len() implies c[j] != '.' by {
                if j < base.len() {
                    assert(c[j] == base[j]);
                } else if j > base.len() {
                    assert(c[j] == decimal(k)[j - base.len() - 1]);
                }
            }
            lemma_no_dot(c, 0);
            assert(stem(c) == c);
            assert(lower_letters(c)[base.len() as int] == PLACEHOLDER);
            assert(base.len() > 0);
            assert(lower_letters(c).len() >= 2 + base.len());
            if lower_letters(c).len() == 3 {
                assert(base.len() == 1);
                assert(lower_letters(c)[1] == '_');
            } else if lower_letters(c).len() == 4 {
                assert(lower_letters(c)[base.len() as int] == '_');
            }
        }
    }
}


fn is_illegal_char(c: char) -> (r: bool)
    ensures
        r == is_illegal(c),
{
    let u: u32 = c as u32;
    u < 0x20 || (0x7f <= u && u <= 0x9f) || c == '/' || c == '\\' || c == ':' || c == '*' || c == '?' || c == '"'
        || c == '<' || c == '>' || c == '|'
}

fn fold_char_of(c: char) -> (r: char)
    ensures
        r == fold_char(c),
{
    if 'A' <= c && c <= 'Z' {
        let u: u8 = c as u8;
        (u + 32) as char
    } else {
        c
    }
}

fn lower_letters_of(s: &Vec<char>) -> (out: Vec<char>)
    ensures
        out@ == lower_letters(s@),
{
    let mut out: Vec<char> = Vec::new();
    let mut i: usize = 0;
    while i < s.len()
        invariant
            i <= s.len(),
            out@ == lower_letters(s@).take(i as int),
        decreases s.len() - i,
    {
        out.push(fold_char_of(s[i]));
        i += 1;
        assert(lower_letters(s@).take(i as int) == lower_letters(s@).take(i - 1).push(
            lower_letters(s@)[i - 1],
        ));
    }
    assert(lower_letters(s@).take(s.len() as int) == lower_letters(s@));
    out
}

/// `char::to_lowercase` of the standard library: the characters that its
/// iterator yields, collected in order. What they are is not proved here.
/// The claim is that they depend on the character alone, which `lowercase`
/// names, and that for a character below U+0080 there is one, the character
/// itself or, for `A` to `Z`, the letter `a` to `z` that goes with it.
#[verifier::external_body]
fn lowercase_of(c: char) -> (out: Vec<char>)
    ensures
        out@ == lower(c),
        (c as u32) >= 0x80 ==> out@ == lowercase(c),
{
    c.to_lowercase().collect()
}

/// Folds a name: every character is put in lower case.
pub fn fold_of(s: &Vec<char>) -> (out: Vec<char>)
    ensures
        out@ == fold(s@),
{
    let mut out: Vec<char> = Vec::new();
    let mut i: usize = 0;
    assert(s@.take(0) =~= Seq::<char>::empty());
    while i < s.len()
        invariant
            i <= s.len(),
            out@ == fold(s@.take(i as int)),
        decreases s.len() - i,
    {
        let low = lowercase_of(s[i]);
        push_all(&mut out, &low);
        i += 1;
        assert(s@.take(i as int).drop_last() == s@.take(i - 1));
        assert(s@.take(i as int).last() == s@[i - 1]);
    }
    assert(s@.take(s.len() as int) == s@);
    out
}

fn stem_of(s: &Vec<char>) -> (out: Vec<char>)
    ensures
        out@ == stem(s@),
{
    let mut out: Vec<char> = Vec::new();
    let mut i: usize = 0;
    while i < s.len() && s[i] != '.'
        invariant
            i <= s.len(),
            dot_from(s@, 0) == dot_from(s@, i as int),
            out@ == s@.take(i as int),
        decreases s.len() - i,
    {
        out.push(s[i]);
        i += 1;
        assert(s@.take(i as int) == s@.take(i - 1).push(s@[i - 1]));
    }
    out
}

fn is_device(t: &Vec<char>) -> (r: bool)
    ensures
        r == is_device_name(t@),
{
    if t.len() == 3 {
        let a = t[0];
        let b = t[1];
        let c = t[2];
        proof {
            assert(t@ == seq![a, b, c]);
            assert(seq!['c', 'o', 'n'][0] == 'c' && seq!['c', 'o', 'n'][1] == 'o' && seq![
                'c',
                'o',
                'n',
            ][2] == 'n');
            assert(seq!['p', 'r', 'n'][0] == 'p' && seq!['p', 'r', 'n'][1] == 'r' && seq![
                'p',
                'r',
                'n',
            ][2] == 'n');
            assert(seq!['a', 'u', 'x'][0] == 'a' && seq!['a', 'u', 'x'][1] == 'u' && seq![
                'a',
                'u',
                'x',
            ][2] == 'x');
            assert(seq!['n', 'u', 'l'][0] == 'n' && seq!['n', 'u', 'l'][1] == 'u' && seq![
                'n',
                'u',
                'l',
            ][2] == 'l');
        }
        (a == 'c' && b == 'o' && c == 'n') || (a == 'p' && b == 'r' && c == 'n') || (a == 'a' && b
            == 'u' && c == 'x') || (a == 'n' && b == 'u' && c == 'l')
    } else if t.len() == 4 {
        let d = t[3];
        ((t[0] == 'c' && t[1] == 'o' && t[2] == 'm') || (t[0] == 'l' && t[1] == 'p' && t[2]
            == 't')) && '1' <= d && d <= '9'
    } else {
        false
    }
}

/// Sanitizes a display name given as characters.
pub fn sanitize_chars(name: &Vec<char>) -> (out: Vec<char>)
    ensures
        out@ == sanitize(name@),
        is_safe(out@),
        out@.len() <= MAX_NAME_LEN,
{
    let n: usize = if name.len() > MAX_NAME_LEN {
        MAX_NAME_LEN
    } else {
        name.len()
    };
    let mut out: Vec<char> = Vec::new();
    let mut i: usize = 0;
    while i < n
        invariant
            i <= n <= name.len(),
            out@ == cleaned(name@).take(i as int),
        decreases n - i,
    {
        let c = name[i];
        out.push(if is_illegal_char(c) { PLACEHOLDER } else { c });
        i += 1;
        assert(cleaned(name@).take(i as int) == cleaned(name@).take(i - 1).push(
            cleaned(name@)[i - 1],
        ));
    }
    assert(cleaned(name@).take(name@.len() as int) == cleaned(name@));
    assert(out@ == truncated(cleaned(name@)));
    if n > 0 {
        let last = out[n - 1];
        if last == '.' || last == ' ' {
            out.pop();
            out.push(PLACEHOLDER);
        }
    }
    assert(out@ == closed(truncated(cleaned(name@))));
    proof {
        lemma_sanitize(name@);
    }
    if out.len() == 0 {
        out.push(PLACEHOLDER);
        assert(out@ == seq![PLACEHOLDER]);
        return out;
    }
    let st = stem_of(&out);
    let folded = lower_letters_of(&st);
    if is_device(&folded) {
        let mut one: Vec<char> = Vec::new();
        one.push(PLACEHOLDER);
        assert(one@ == seq![PLACEHOLDER]);
        one
    } else {
        out
    }
}

/// Sanitizes a display name: the result is safe as a path component, at most
/// `MAX_NAME_LEN` characters long, and equal to the display name where that
/// was safe and short enough already.
pub fn sanitize_name(name: &str) -> (out: String)
    ensures
        out@ == sanitize(name@),
        is_safe(out@),
        out@.len() <= MAX_NAME_LEN,
        is_safe(name@) && name@.len() <= MAX_NAME_LEN ==> out@ == name@,
{
    proof {
        lemma_sanitize(name@);
    }
    string_of(&sanitize_chars(&chars_of(name)))
}

fn candidate_of(base: &Vec<char>, k: u64) -> (out: Vec<char>)
    ensures
        out@ == candidate(base@, k as nat),
{
    let mut out: Vec<char> = Vec::new();
    push_all(&mut out, base);
    if k > 1 {
        out.push(PLACEHOLDER);
        let digits = decimal_of(k as u128);
        push_all(&mut out, &digits);
        assert(out@ == base@ + seq![PLACEHOLDER] + decimal(k as nat));
    } else {
        assert(out@ == base@);
    }
    out
}


/// The first `limit` candidates of a name were all taken.
#[derive(Clone, Copy, Debug, PartialEq, Eq, Structural)]
pub struct NameCollisionUnresolved;

/// The names claimed so far in one directory. It lives as long as the
/// directory's children are being named and is scoped to that directory.
pub struct NameTable {
    claimed: Vec<Vec<char>>,
    limit: u32,
    /// Folded sanitized names that were resolved before, each with the
    /// number from which its candidates are tried: all candidates before that
    /// number are claimed.
    known: Vec<Vec<char>>,
    next: Vec<u64>,
}

/// The set of texts that a list of character vectors holds.
pub open spec fn texts(list: Seq<Vec<char>>) -> Set<Seq<char>> {
    Set::new(|s: Seq<char>| exists|i: int| 0 <= i < list.len() && #[trigger] list[i]@ == s)
}

impl View for NameTable {
    type V = Set<Seq<char>>;

    /// The folded names that are claimed.
    closed spec fn view(&self) -> Set<Seq<char>> {
        texts(self.claimed@)
    }
}

impl NameTable {
    /// The number of candidates tried for one name before giving up.
    pub closed spec fn limit(&self) -> nat {
        self.limit as nat
    }

    /// Whether the table is in order: what it remembers of the names that
    /// were resolved before is true of the names that are claimed.
    pub closed spec fn wf(&self) -> bool {
        &&& self.known@.len() == self.next@.len()
        &&& forall|i: int, j: nat|
            0 <= i < self.known@.len() && 1 <= j < self.next@[i] ==> self@.contains(
                #[trigger] candidate(self.known@[i]@, j),
            )
    }

    /// The table of a directory none of whose children is named yet: only the
    /// names that the directory keeps for itself are claimed.
    pub fn new(limit: u32) -> (table: NameTable)
        ensures
            table@ == reserved_entries(),
            table.limit() == limit,
            table.wf(),
    {
        let mut table = NameTable { claimed: Vec::new(), limit, known: Vec::new(), next: Vec::new() };
        assert(table@ =~= Set::<Seq<char>>::empty());
        let mut server = chars_of("init");
        push_str(&mut server, ScriptKind::Server.extension());
        table.insert(fold_of(&server));
        let mut client = chars_of("init");
        push_str(&mut client, ScriptKind::Client.extension());
        table.insert(fold_of(&client));
        let mut module = chars_of("init");
        push_str(&mut module, ScriptKind::Module.extension());
        table.insert(fold_of(&module));
        table.insert(fold_of(&chars_of("init.meta.json")));
        table.insert(fold_of(&chars_of(manifest_file_name())));
        assert(table@ =~= reserved_entries());
        table
    }

    fn insert(&mut self, key: Vec<char>)
        ensures
            final(self)@ == old(self)@.insert(key@),
            final(self).limit() == old(self).limit(),
            final(self).known == old(self).known,
            final(self).next == old(self).next,
    {
        self.claimed.push(key);
        assert forall|s: Seq<char>| self@.contains(s) == old(self)@.insert(key@).contains(s) by {
            if old(self)@.contains(s) {
                let i = choose|i: int|
                    0 <= i < old(self).claimed@.len() && #[trigger] old(self).claimed@[i]@ == s;
                assert(self.claimed@[i]@ == s);
            }
            if s == key@ {
                assert(self.claimed@[self.claimed@.len() - 1]@ == s);
            }
        }
        assert(self@ =~= old(self)@.insert(key@));
    }

    /// Whether a folded name is claimed.
    pub fn is_claimed(&self, key: &Vec<char>) -> (r: bool)
        ensures
            r == self@.contains(key@),
    {
        let mut i: usize = 0;
        while i < self.claimed.len()
            invariant
                i <= self.claimed.len(),
                forall|j: int| 0 <= j < i ==> self.claimed@[j]@ != key@,
            decreases self.claimed.len() - i,
        {
            if same_chars(&self.claimed[i], key) {
                return true;
            }
            i += 1;
        }
        false
    }

    fn is_free(&self, name: &Vec<char>, rep: Representation) -> (r: bool)
        ensures
            r == free(self@, name@, rep),
    {
        if self.is_claimed(&fold_of(name)) {
            assert(entries(name@, rep).contains(fold(name@)));
            return false;
        }
        match rep {
            Representation::SourceFile(kind) => {
                let mut file: Vec<char> = Vec::new();
                push_all(&mut file, name);
                push_str(&mut file, kind.extension());
                assert(file@ == name@ + extension(kind));
                if self.is_claimed(&fold_of(&file)) {
                    assert(entries(name@, rep).contains(fold(file@)));
                    return false;
                }
                let mut meta: Vec<char> = Vec::new();
                push_all(&mut meta, name);
                push_str(&mut meta, ".meta.json");
                assert(meta@ == name@ + meta_suffix());
                if self.is_claimed(&fold_of(&meta)) {
                    assert(entries(name@, rep).contains(fold(meta@)));
                    return false;
                }
                true
            },
            _ => true,
        }
    }

    fn take_up(&mut self, name: &Vec<char>, rep: Representation)
        ensures
            final(self)@ == old(self)@.union(entries(name@, rep)),
            final(self).limit() == old(self).limit(),
            final(self).known == old(self).known,
            final(self).next == old(self).next,
    {
        self.insert(fold_of(name));
        match rep {
            Representation::SourceFile(kind) => {
                let mut file: Vec<char> = Vec::new();
                push_all(&mut file, name);
                push_str(&mut file, kind.extension());
                assert(file@ == name@ + extension(kind));
                self.insert(fold_of(&file));
                let mut meta: Vec<char> = Vec::new();
                push_all(&mut meta, name);
                push_str(&mut meta, ".meta.json");
                assert(meta@ == name@ + meta_suffix());
                self.insert(fold_of(&meta));
            },
            _ => {},
        }
        assert(self@ =~= old(self)@.union(entries(name@, rep)));
    }

    fn slot_of(&self, key: &Vec<char>) -> (r: Option<usize>)
        requires
            self.wf(),
        ensures
            match r {
                Some(i) => i < self.known@.len() && self.known@[i as int]@ == key@,
                None => forall|i: int| 0 <= i < self.known@.len() ==> self.known@[i]@ != key@,
            },
    {
        let mut i: usize = 0;
        while i < self.known.len()
            invariant
                i <= self.known.len(),
                forall|j: int| 0 <= j < i ==> self.known@[j]@ != key@,
            decreases self.known.len() - i,
        {
            if same_chars(&self.known[i], key) {
                return Some(i);
            }
            i += 1;
        }
        None
    }

    /// Takes note that candidate number `taken` of the folded name `key` is
    /// claimed, where the candidates were tried from number `start` on. Where
    /// the first candidate that was tried is the one that was taken, the
    /// table remembers the number after it as the one to start from next
    /// time: in the slot of the name if it has one, else in a new slot at the
    /// end. Where an earlier candidate was passed over, nothing is
    /// remembered, since that candidate may be free for another kind of node.
    fn remember(&mut self, slot: Option<usize>, key: Vec<char>, start: u64, taken: u64)
        requires
            old(self).known@.len() == old(self).next@.len(),
            forall|i: int, j: nat|
                0 <= i < old(self).known@.len() && 1 <= j < old(self).next@[i] ==> old(
                    self,
                )@.contains(#[trigger] candidate(old(self).known@[i]@, j)),
            forall|j: nat| 1 <= j < start ==> old(self)@.contains(#[trigger] candidate(key@, j)),
            old(self)@.contains(candidate(key@, taken as nat)),
            1 <= start <= taken,
            taken < u64::MAX,
            match slot {
                Some(i) => i < old(self).known@.len() && old(self).known@[i as int]@ == key@,
                None => true,
            },
        ensures
            final(self).wf(),
            final(self)@ == old(self)@,
            final(self).limit() == old(self).limit(),
            taken != start ==> final(self).known@ == old(self).known@ && final(self).next@ == old(
                self,
            ).next@,
            taken == start ==> match slot {
                Some(i) => final(self).known@ == old(self).known@ && final(self).next@ == old(
                    self,
                ).next@.update(i as int, (taken + 1) as u64),
                None => final(self).known@ == old(self).known@.push(key) && final(self).next@
                    == old(self).next@.push((taken + 1) as u64),
            },
    {
        if taken == start {
            match slot {
                Some(i) => {
                    self.next[i] = taken + 1;
                },
                None => {
                    self.known.push(key);
                    self.next.push(taken + 1);
                },
            }
        }
    }

    /// Resolves the display name of the next child of the directory, in the
    /// order in which the children are declared. The result is the first free
    /// candidate of the sanitized name, which the table then holds as claimed
    /// together with the file names that go with it; it is safe as a path
    /// component. Where the first `limit` candidates are all taken the name
    /// is not resolved and the table stays as it was.
    pub fn resolve(&mut self, display: &str, rep: Representation) -> (r: Result<
        String,
        NameCollisionUnresolved,
    >)
        requires
            old(self).wf(),
        ensures
            final(self).wf(),
            final(self).limit() == old(self).limit(),
            final(self)@ == claim(old(self)@, display@, rep, old(self).limit()),
            match r {
                Ok(name) => resolve(old(self)@, display@, rep, old(self).limit()) == Some(name@)
                    && is_safe(name@) && name@.len() <= MAX_NAME_LEN + MAX_SUFFIX_LEN,
                Err(_) => resolve(old(self)@, display@, rep, old(self).limit()) is None,
            },
    {
        let base = sanitize_chars(&chars_of(display));
        let key = fold_of(&base);
        let limit: u64 = self.limit as u64;
        let slot = self.slot_of(&key);
        let start: u64 = match slot {
            Some(i) => if self.next[i] < 1 {
                1
            } else {
                self.next[i]
            },
            None => 1,
        };
        assert forall|j: nat| 1 <= j < start implies self@.contains(
            #[trigger] candidate(key@, j),
        ) by {}
        assert forall|j: nat| 1 <= j < start implies !free(
            self@,
            #[trigger] candidate(base@, j),
            rep,
        ) by {
            lemma_fold_candidate(base@, j);
            assert(self@.contains(candidate(key@, j)));
            assert(entries(candidate(base@, j), rep).contains(fold(candidate(base@, j))));
        }
        let mut k: u64 = start;
        while k <= limit
            invariant
                1 <= start <= k,
                limit == self.limit,
                *self == *old(self),
                self.wf(),
                base@ == sanitize(display@),
                key@ == fold(base@),
                is_safe(base@),
                match slot {
                    Some(i) => i < self.known@.len() && self.known@[i as int]@ == key@,
                    None => true,
                },
                forall|j: nat| 1 <= j < start ==> self@.contains(#[trigger] candidate(key@, j)),
                forall|j: nat| 1 <= j < k ==> !free(self@, #[trigger] candidate(base@, j), rep),
            decreases limit + 1 - k,
        {
            let cand = candidate_of(&base, k);
            if self.is_free(&cand, rep) {
                proof {
                    lemma_candidate_safe(base@, k as nat);
                    lemma_candidate_len(base@, k as nat);
                    lemma_first_free_is(self@, base@, rep, 1, limit as nat, k as nat);
                    lemma_fold_candidate(base@, k as nat);
                    assert(entries(cand@, rep).contains(fold(cand@)));
                }
                self.take_up(&cand, rep);
                self.remember(slot, key, start, k);
                return Ok(string_of(&cand));
            }
            k += 1;
        }
        proof {
            lemma_first_free_none(self@, base@, rep, 1, limit as nat);
        }
        Err(NameCollisionUnresolved)
    }
}

/// Folding a candidate gives the candidate of the folded name: the suffix
/// holds no letters.
pub proof fn lemma_fold_candidate(base: Seq<char>, k: nat)
    ensures
        fold(candidate(base, k)) == candidate(fold(base), k),
{
    if k > 1 {
        let tail = seq![PLACEHOLDER] + decimal(k);
        lemma_decimal_digits(k);
        assert forall|i: int| 0 <= i < tail.len() implies ((#[trigger] tail[i]) as u32) < 0x80
            && fold_char(tail[i]) == tail[i] by {
            if i > 0 {
                assert(tail[i] == decimal(k)[i - 1]);
            }
        }
        lemma_plain(tail);
        lemma_fold_plain(tail);
        assert(lower_letters(tail) =~= tail);
        lemma_fold_add(base, tail);
        assert(candidate(base, k) =~= base + tail);
        assert(candidate(fold(base), k) =~= fold(base) + tail);
    }
}

/// Where candidate `k` is free and none before it from `from` on is, it is
/// the first free one.
pub proof fn lemma_first_free_is(
    claimed: Set<Seq<char>>,
    base: Seq<char>,
    rep: Representation,
    from: nat,
    limit: nat,
    k: nat,
)
    requires
        from <= k <= limit,
        free(claimed, candidate(base, k), rep),
        forall|j: nat| from <= j < k ==> !free(claimed, #[trigger] candidate(base, j), rep),
    ensures
        first_free(claimed, base, rep, from, limit) == Some(k),
    decreases k - from,
{
    if from < k {
        lemma_first_free_is(claimed, base, rep, from + 1, limit, k);
    }
}

/// Where no candidate from `from` to `limit` is free, there is no first free
/// one.
pub proof fn lemma_first_free_none(
    claimed: Set<Seq<char>>,
    base: Seq<char>,
    rep: Representation,
    from: nat,
    limit: nat,
)
    requires
        forall|j: nat| from <= j <= limit ==> !free(claimed, #[trigger] candidate(base, j), rep),
    ensures
        first_free(claimed, base, rep, from, limit) is None,
    decreases limit + 1 - from,
{
    if from <= limit {
        lemma_first_free_none(claimed, base, rep, from + 1, limit);
    }
}

/// A resolved name is a candidate of the sanitized display name with a
/// number within the limit; it is safe as a path component, and nothing that
/// it takes up was claimed before.
pub proof fn lemma_resolved(
    claimed: Set<Seq<char>>,
    display: Seq<char>,
    rep: Representation,
    limit: nat,
)
    requires
        resolve(claimed, display, rep, limit) is Some,
    ensures
        is_safe(resolve(claimed, display, rep, limit).unwrap()),
        free(claimed, resolve(claimed, display, rep, limit).unwrap(), rep),
        limit <= u32::MAX ==> resolve(claimed, display, rep, limit).unwrap().len() <= MAX_NAME_LEN
            + MAX_SUFFIX_LEN,
        exists|k: nat|
            1 <= k <= limit && resolve(claimed, display, rep, limit).unwrap() == #[trigger] candidate(
                sanitize(display),
                k,
            ),
{
    lemma_first_free(claimed, sanitize(display), rep, 1, limit);
    lemma_sanitize(display);
    let k = first_free(claimed, sanitize(display), rep, 1, limit).unwrap();
    lemma_candidate_safe(sanitize(display), k);
    if limit <= u32::MAX {
        lemma_candidate_len(sanitize(display), k);
    }
}

/// A candidate with a number that fits in 32 bits is longer than the name
/// by at most `MAX_SUFFIX_LEN` characters.
pub proof fn lemma_candidate_len(base: Seq<char>, k: nat)
    requires
        k <= u32::MAX,
    ensures
        candidate(base, k).len() <= base.len() + MAX_SUFFIX_LEN,
{
    if k > 1 {
        reveal_with_fuel(pow10, 11);
        assert(pow10(10) == 10000000000);
        lemma_decimal_len(k, 10);
    }
}

/// The names claimed in a directory before its child number `i` is named,
/// the children given in the order of their declaration, each by its display
/// name and its representation.
pub open spec fn claimed_before(
    siblings: Seq<(Seq<char>, Representation)>,
    i: nat,
    limit: nat,
) -> Set<Seq<char>>
    decreases i,
{
    if i == 0 || i > siblings.len() {
        reserved_entries()
    } else {
        claim(
            claimed_before(siblings, (i - 1) as nat, limit),
            siblings[i - 1].0,
            siblings[i - 1].1,
            limit,
        )
    }
}

/// The name that child number `i` of a directory resolves to, if any.
pub open spec fn resolved(
    siblings: Seq<(Seq<char>, Representation)>,
    i: int,
    limit: nat,
) -> Option<Seq<char>> {
    resolve(claimed_before(siblings, i as nat, limit), siblings[i].0, siblings[i].1, limit)
}

/// What is claimed stays claimed while further children are named.
pub proof fn lemma_claimed_grows(
    siblings: Seq<(Seq<char>, Representation)>,
    i: nat,
    j: nat,
    limit: nat,
)
    requires
        i <= j <= siblings.len(),
    ensures
        claimed_before(siblings, i, limit).subset_of(claimed_before(siblings, j, limit)),
    decreases j - i,
{
    if i < j {
        lemma_claimed_grows(siblings, i, (j - 1) as nat, limit);
    }
}

/// Name uniqueness: whatever the display names of the children of one
/// directory are, duplicates and illegal characters included, two children
/// that were named have names that differ without regard to letter case.
/// Moreover nothing that one of them takes up in the directory is taken up by
/// the other or kept by the directory for itself.
pub proof fn lemma_sibling_names_distinct(
    siblings: Seq<(Seq<char>, Representation)>,
    limit: nat,
    i: int,
    j: int,
)
    requires
        0 <= i < j < siblings.len(),
        resolved(siblings, i, limit) is Some,
        resolved(siblings, j, limit) is Some,
    ensures
        fold(resolved(siblings, i, limit).unwrap()) != fold(resolved(siblings, j, limit).unwrap()),
        resolved(siblings, i, limit).unwrap() != resolved(siblings, j, limit).unwrap(),
        entries(resolved(siblings, i, limit).unwrap(), siblings[i].1).disjoint(
            entries(resolved(siblings, j, limit).unwrap(), siblings[j].1),
        ),
        entries(resolved(siblings, i, limit).unwrap(), siblings[i].1).disjoint(reserved_entries()),
        entries(resolved(siblings, j, limit).unwrap(), siblings[j].1).disjoint(reserved_entries()),
{
    let a = resolved(siblings, i, limit).unwrap();
    let b = resolved(siblings, j, limit).unwrap();
    let before_i = claimed_before(siblings, i as nat, limit);
    let after_i = claimed_before(siblings, (i + 1) as nat, limit);
    let before_j = claimed_before(siblings, j as nat, limit);
    lemma_first_free(before_i, sanitize(siblings[i].0), siblings[i].1, 1, limit);
    lemma_first_free(before_j, sanitize(siblings[j].0), siblings[j].1, 1, limit);
    lemma_claimed_grows(siblings, 0, i as nat, limit);
    lemma_claimed_grows(siblings, 0, j as nat, limit);
    lemma_claimed_grows(siblings, (i + 1) as nat, j as nat, limit);
    assert(after_i == before_i.union(entries(a, siblings[i].1)));
    assert(entries(a, siblings[i].1).subset_of(before_j));
    assert(entries(a, siblings[i].1).contains(fold(a)));
    assert(entries(b, siblings[j].1).contains(fold(b)));
}

/// The first-declared child keeps its sanitized name wherever the directory
/// does not keep that name for itself.
pub proof fn lemma_first_keeps_name(siblings: Seq<(Seq<char>, Representation)>, limit: nat)
    requires
        siblings.len() > 0,
        limit >= 1,
        free(reserved_entries(), sanitize(siblings[0].0), siblings[0].1),
    ensures
        resolved(siblings, 0, limit) == Some(sanitize(siblings[0].0)),
{
}

/// The display names and representations of a list of children.
pub open spec fn sibling_models(list: Seq<(String, Representation)>) -> Seq<
    (Seq<char>, Representation),
> {
    Seq::new(list.len(), |i: int| (list[i].0@, list[i].1))
}

/// Resolves the display names of the children of one directory, in the order
/// of their declaration. Entry `i` of the result is the name of child `i`,
/// or the error where its candidates ran out; the names are safe as path
/// components and pairwise distinct without regard to letter case.
/// Candidates do not run out for child `i` where the limit is above fifteen
/// and nine for each child before it.
pub fn resolve_siblings(siblings: &Vec<(String, Representation)>, limit: u32) -> (out: Vec<
    Result<String, NameCollisionUnresolved>,
>)
    ensures
        out@.len() == siblings@.len(),
        forall|i: int|
            0 <= i < out@.len() ==> match #[trigger] out@[i] {
                Ok(name) => resolved(sibling_models(siblings@), i, limit as nat) == Some(name@)
                    && is_safe(name@),
                Err(_) => resolved(sibling_models(siblings@), i, limit as nat) is None,
            },
        forall|i: int, j: int|
            0 <= i < j < out@.len() && out@[i] is Ok && out@[j] is Ok ==> fold(
                (#[trigger] out@[i])->Ok_0@,
            ) != fold((#[trigger] out@[j])->Ok_0@),
        forall|i: int| 0 <= i < out@.len() && 15 + 9 * i < limit ==> (#[trigger] out@[i]) is Ok,
{
    let ghost models = sibling_models(siblings@);
    let mut table = NameTable::new(limit);
    let mut out: Vec<Result<String, NameCollisionUnresolved>> = Vec::new();
    let mut i: usize = 0;
    while i < siblings.len()
        invariant
            i <= siblings.len(),
            models == sibling_models(siblings@),
            out@.len() == i,
            table.limit() == limit,
            table.wf(),
            table@ == claimed_before(models, i as nat, limit as nat),
            forall|j: int|
                0 <= j < i ==> match #[trigger] out@[j] {
                    Ok(name) => resolved(models, j, limit as nat) == Some(name@) && is_safe(name@),
                    Err(_) => resolved(models, j, limit as nat) is None,
                },
        decreases siblings.len() - i,
    {
        let r = table.resolve(siblings[i].0.as_str(), siblings[i].1);
        out.push(r);
        i += 1;
    }
    assert forall|a: int, b: int|
        0 <= a < b < out@.len() && out@[a] is Ok && out@[b] is Ok implies fold(
        (#[trigger] out@[a])->Ok_0@,
    ) != fold((#[trigger] out@[b])->Ok_0@) by {
        lemma_sibling_names_distinct(models, limit as nat, a, b);
    }
    assert forall|i: int| 0 <= i < out@.len() && 15 + 9 * i < limit implies (#[trigger] out@[i])
        is Ok by {
        crate::capacity::lemma_name_resolves(models, i, limit as nat);
    }
    out
}

} // verus!
