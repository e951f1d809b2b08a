//! How many children a directory can name: a bound on the number of
//! candidates that claimed names can take, and with it the guarantee that
//! names run out only in directories that are very large for the limit.

use vstd::prelude::*;
use crate::classify::{extension, Representation};
use crate::names::{
    lemma_fold_add,
    lemma_fold_candidate,
    candidate,
    claim,
    claimed_before,
    entries,
    first_free,
    fold,
    free,
    lemma_first_free,
    meta_suffix,
    PLACEHOLDER,
    reserved_entries,
    resolve,
    resolved,
    sanitize,
};
use crate::text::{decimal, lemma_decimal_digits, lemma_natural_of_decimal, natural_of};

verus! {

/// The folded name that candidate `k` takes up when `tail` is what follows
/// the candidate in the name of a file.
pub open spec fn form(base: Seq<char>, k: nat, tail: Seq<char>) -> Seq<char> {
    fold(candidate(base, k) + tail)
}

/// Different candidates take up different names.
pub proof fn lemma_forms_differ(base: Seq<char>, k: nat, other: nat, tail: Seq<char>)
    requires
        1 <= k,
        1 <= other,
        form(base, k, tail) == form(base, other, tail),
    ensures
        k == other,
{
    let folded = fold(base);
    let a = candidate(folded, k);
    let b = candidate(folded, other);
    let end = fold(tail);
    lemma_fold_add(candidate(base, k), tail);
    lemma_fold_add(candidate(base, other), tail);
    lemma_fold_candidate(base, k);
    lemma_fold_candidate(base, other);
    assert(a + end == b + end);
    assert(a.len() == b.len()) by {
        assert((a + end).len() == (b + end).len());
    }
    lemma_decimal_digits(k);
    lemma_decimal_digits(other);
    if k >= 2 && other >= 2 {
        let x = decimal(k);
        let y = decimal(other);
        assert(x.len() == y.len());
        assert forall|i: int| 0 <= i < x.len() implies x[i] == y[i] by {
            let at = folded.len() + 1 + i;
            assert(a[at] == x[i]);
            assert(b[at] == y[i]);
            assert((a + end)[at] == a[at]);
            assert((b + end)[at] == b[at]);
        }
        assert(x =~= y);
        lemma_natural_of_decimal(k);
        lemma_natural_of_decimal(other);
    }
}

/// The number of candidates among the first `limit` that are not free.
pub open spec fn taken_count(
    claimed: Set<Seq<char>>,
    base: Seq<char>,
    rep: Representation,
    limit: nat,
) -> nat
    decreases limit,
{
    if limit == 0 {
        0
    } else {
        taken_count(claimed, base, rep, (limit - 1) as nat) + if free(
            claimed,
            candidate(base, limit),
            rep,
        ) {
            0nat
        } else {
            1nat
        }
    }
}

/// Where fewer candidates are taken than there are, one is free, and the
/// name resolves.
pub proof fn lemma_room_left(
    claimed: Set<Seq<char>>,
    base: Seq<char>,
    rep: Representation,
    limit: nat,
)
    requires
        taken_count(claimed, base, rep, limit) < limit,
    ensures
        first_free(claimed, base, rep, 1, limit) is Some,
{
    lemma_first_free(claimed, base, rep, 1, limit);
    if first_free(claimed, base, rep, 1, limit) is None {
        lemma_all_taken(claimed, base, rep, limit);
    }
}

/// Where no candidate is free, all are taken.
proof fn lemma_all_taken(claimed: Set<Seq<char>>, base: Seq<char>, rep: Representation, limit: nat)
    requires
        forall|j: nat| 1 <= j <= limit ==> !free(claimed, #[trigger] candidate(base, j), rep),
    ensures
        taken_count(claimed, base, rep, limit) == limit,
    decreases limit,
{
    if limit > 0 {
        lemma_all_taken(claimed, base, rep, (limit - 1) as nat);
        assert(!free(claimed, candidate(base, limit), rep));
    }
}

/// One for a number that lies between one and `limit`, zero for any other.
pub open spec fn within(k: nat, limit: nat) -> nat {
    if 1 <= k <= limit {
        1
    } else {
        0
    }
}

/// Whether `e` is among the names that candidate `k` takes up.
pub open spec fn takes_up(base: Seq<char>, rep: Representation, k: nat, e: Seq<char>) -> bool {
    entries(candidate(base, k), rep).contains(e)
}

/// One more claimed name takes at most three more candidates.
pub proof fn lemma_one_more_name(
    claimed: Set<Seq<char>>,
    e: Seq<char>,
    base: Seq<char>,
    rep: Representation,
    limit: nat,
)
    ensures
        taken_count(claimed.insert(e), base, rep, limit) <= taken_count(claimed, base, rep, limit)
            + 3,
{
    let empty = Seq::<char>::empty();
    let (first, second) = match rep {
        Representation::SourceFile(kind) => (extension(kind), meta_suffix()),
        _ => (empty, empty),
    };
    let a: nat = if exists|k: nat| 1 <= k && #[trigger] form(base, k, empty) == e {
        choose|k: nat| 1 <= k && #[trigger] form(base, k, empty) == e
    } else {
        0
    };
    let b: nat = if exists|k: nat| 1 <= k && #[trigger] form(base, k, first) == e {
        choose|k: nat| 1 <= k && #[trigger] form(base, k, first) == e
    } else {
        0
    };
    let c: nat = if exists|k: nat| 1 <= k && #[trigger] form(base, k, second) == e {
        choose|k: nat| 1 <= k && #[trigger] form(base, k, second) == e
    } else {
        0
    };
    assert forall|k: nat| 1 <= k && #[trigger] takes_up(base, rep, k, e) implies k == a || k == b
        || k == c by {
        let name = candidate(base, k);
        assert(name + empty =~= name);
        if e == fold(name) {
            assert(form(base, k, empty) == e);
            lemma_forms_differ(base, k, a, empty);
        } else {
            match rep {
                Representation::SourceFile(kind) => {
                    if e == fold(name + extension(kind)) {
                        assert(form(base, k, first) == e);
                        lemma_forms_differ(base, k, b, first);
                    } else {
                        assert(form(base, k, second) == e);
                        lemma_forms_differ(base, k, c, second);
                    }
                },
                _ => {},
            }
        }
    }
    lemma_count_with(claimed, e, base, rep, limit, a, b, c);
}

/// Where only the candidates `a`, `b` and `c` take up a name, claiming
/// that name takes at most those of them that lie within the limit.
proof fn lemma_count_with(
    claimed: Set<Seq<char>>,
    e: Seq<char>,
    base: Seq<char>,
    rep: Representation,
    limit: nat,
    a: nat,
    b: nat,
    c: nat,
)
    requires
        forall|k: nat| 1 <= k && #[trigger] takes_up(base, rep, k, e) ==> k == a || k == b || k == c,
    ensures
        taken_count(claimed.insert(e), base, rep, limit) <= taken_count(claimed, base, rep, limit)
            + within(a, limit) + within(b, limit) + within(c, limit),
    decreases limit,
{
    if limit > 0 {
        lemma_count_with(claimed, e, base, rep, (limit - 1) as nat, a, b, c);
        let name = candidate(base, limit);
        if free(claimed, name, rep) && !free(claimed.insert(e), name, rep) {
            assert(takes_up(base, rep, limit, e));
        }
    }
}

/// Nothing is taken where nothing is claimed.
pub proof fn lemma_nothing_taken(base: Seq<char>, rep: Representation, limit: nat)
    ensures
        taken_count(Set::empty(), base, rep, limit) == 0,
    decreases limit,
{
    if limit > 0 {
        lemma_nothing_taken(base, rep, (limit - 1) as nat);
    }
}

/// The names that a directory keeps for itself take at most fifteen
/// candidates.
pub proof fn lemma_reserved_take_few(base: Seq<char>, rep: Representation, limit: nat)
    ensures
        taken_count(reserved_entries(), base, rep, limit) <= 15,
{
    let e1 = fold(crate::names::init_file(crate::classify::ScriptKind::Server));
    let e2 = fold(crate::names::init_file(crate::classify::ScriptKind::Client));
    let e3 = fold(crate::names::init_file(crate::classify::ScriptKind::Module));
    let e4 = fold(crate::names::dir_meta_file());
    let e5 = fold(crate::names::manifest_file());
    let s0 = Set::<Seq<char>>::empty();
    let s1 = s0.insert(e1);
    let s2 = s1.insert(e2);
    let s3 = s2.insert(e3);
    let s4 = s3.insert(e4);
    let s5 = s4.insert(e5);
    lemma_nothing_taken(base, rep, limit);
    lemma_one_more_name(s0, e1, base, rep, limit);
    lemma_one_more_name(s1, e2, base, rep, limit);
    lemma_one_more_name(s2, e3, base, rep, limit);
    lemma_one_more_name(s3, e4, base, rep, limit);
    lemma_one_more_name(s4, e5, base, rep, limit);
    assert(s5 =~= reserved_entries());
}

/// What one node takes up takes at most nine more candidates.
pub proof fn lemma_one_more_node(
    claimed: Set<Seq<char>>,
    name: Seq<char>,
    taken: Representation,
    base: Seq<char>,
    rep: Representation,
    limit: nat,
)
    ensures
        taken_count(claimed.union(entries(name, taken)), base, rep, limit) <= taken_count(
            claimed,
            base,
            rep,
            limit,
        ) + 9,
{
    match taken {
        Representation::SourceFile(kind) => {
            let e1 = fold(name);
            let e2 = fold(name + extension(kind));
            let e3 = fold(name + meta_suffix());
            let s1 = claimed.insert(e1);
            let s2 = s1.insert(e2);
            let s3 = s2.insert(e3);
            lemma_one_more_name(claimed, e1, base, rep, limit);
            lemma_one_more_name(s1, e2, base, rep, limit);
            lemma_one_more_name(s2, e3, base, rep, limit);
            assert(s3 =~= claimed.union(entries(name, taken)));
        },
        _ => {
            lemma_one_more_name(claimed, fold(name), base, rep, limit);
            assert(claimed.insert(fold(name)) =~= claimed.union(entries(name, taken)));
        },
    }
}

/// Before child number `i` of a directory is named, the claimed names take
/// at most fifteen candidates and nine more for each child before it.
pub proof fn lemma_taken_before(
    siblings: Seq<(Seq<char>, Representation)>,
    i: nat,
    limit: nat,
    base: Seq<char>,
    rep: Representation,
    upto: nat,
)
    requires
        i <= siblings.len(),
    ensures
        taken_count(claimed_before(siblings, i, limit), base, rep, upto) <= 15 + 9 * i,
    decreases i,
{
    if i == 0 {
        lemma_reserved_take_few(base, rep, upto);
    } else {
        lemma_taken_before(siblings, (i - 1) as nat, limit, base, rep, upto);
        let before = claimed_before(siblings, (i - 1) as nat, limit);
        match resolve(before, siblings[i - 1].0, siblings[i - 1].1, limit) {
            Some(name) => {
                lemma_one_more_node(before, name, siblings[i - 1].1, base, rep, upto);
            },
            None => {},
        }
    }
}

/// Names run out only in very large directories: the name of child number
/// `i` of a directory resolves wherever the limit is above fifteen and nine
/// for each child before it.
pub proof fn lemma_name_resolves(siblings: Seq<(Seq<char>, Representation)>, i: int, limit: nat)
    requires
        0 <= i < siblings.len(),
        15 + 9 * i < limit,
    ensures
        resolved(siblings, i, limit) is Some,
{
    let base = sanitize(siblings[i].0);
    lemma_taken_before(siblings, i as nat, limit, base, siblings[i].1, limit);
    lemma_room_left(claimed_before(siblings, i as nat, limit), base, siblings[i].1, limit);
}

} // verus!
