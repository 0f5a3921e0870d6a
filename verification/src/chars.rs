//! Character-sequence groundwork: classification of separator and digit
//! characters, the last occurrence of a character in a string, and a
//! lexicographic order on strings, each with a verified executable form.

use vstd::prelude::*;

verus! {

/// The candidate separator characters between a scope and a version.
pub open spec fn is_sep_char(c: char) -> bool {
    c == '@' || c == '/' || c == '_'
}

/// Decimal digit characters.
pub open spec fn is_dec_digit(c: char) -> bool {
    48 <= c as int <= 57
}

/// The view of an optional owned string.
pub open spec fn opt_str_view(o: Option<String>) -> Option<Seq<char>> {
    match o {
        Option::Some(s) => Option::Some(s@),
        Option::None => Option::None,
    }
}

/// Index of the last occurrence of `c` in `s`, or -1 when `c` is absent.
pub open spec fn last_occurrence(s: Seq<char>, c: char) -> int
    decreases s.len(),
{
    if s.len() == 0 {
        -1
    } else if s.last() == c {
        s.len() - 1
    } else {
        last_occurrence(s.drop_last(), c)
    }
}

pub proof fn lemma_last_occurrence(s: Seq<char>, c: char)
    ensures
        last_occurrence(s, c) == -1 ==> forall|j: int| 0 <= j < s.len() ==> s[j] != c,
        last_occurrence(s, c) != -1 ==> 0 <= last_occurrence(s, c) < s.len()
            && s[last_occurrence(s, c)] == c
            && forall|j: int| last_occurrence(s, c) < j < s.len() ==> s[j] != c,
    decreases s.len(),
{
    if s.len() == 0 {
    } else if s.last() == c {
    } else {
        lemma_last_occurrence(s.drop_last(), c);
        assert(forall|j: int| 0 <= j < s.len() - 1 ==> s.drop_last()[j] == s[j]);
    }
}

/// The last occurrence is pinned down by having `c` at `i` and nowhere later.
pub proof fn lemma_last_occurrence_unique(s: Seq<char>, c: char, i: int)
    requires
        0 <= i < s.len(),
        s[i] == c,
        forall|j: int| i < j < s.len() ==> s[j] != c,
    ensures
        last_occurrence(s, c) == i,
{
    lemma_last_occurrence(s, c);
}

/// Splitting around an explicit `c` whose suffix avoids `c` puts the last
/// occurrence exactly at the split point.
pub proof fn lemma_last_occurrence_concat(pre: Seq<char>, c: char, suf: Seq<char>)
    requires
        forall|j: int| 0 <= j < suf.len() ==> suf[j] != c,
    ensures
        last_occurrence(pre + seq![c] + suf, c) == pre.len(),
{
    let s = pre + seq![c] + suf;
    assert(s[pre.len() as int] == c);
    assert(forall|j: int| pre.len() < j < s.len() ==> s[j] == suf[j - pre.len() - 1]);
    lemma_last_occurrence_unique(s, c, pre.len() as int);
}

/// Strict lexicographic order on character sequences, by code point, with
/// a proper prefix ordered before its extensions.
pub open spec fn lex_lt(a: Seq<char>, b: Seq<char>) -> bool
    decreases a.len(),
{
    if b.len() == 0 {
        false
    } else if a.len() == 0 {
        true
    } else if a[0] != b[0] {
        (a[0] as int) < (b[0] as int)
    } else {
        lex_lt(a.drop_first(), b.drop_first())
    }
}

pub proof fn lemma_lex_lt_irrefl(a: Seq<char>)
    ensures
        !lex_lt(a, a),
    decreases a.len(),
{
    if a.len() > 0 {
        lemma_lex_lt_irrefl(a.drop_first());
    }
}

pub proof fn lemma_lex_lt_asym(a: Seq<char>, b: Seq<char>)
    requires
        lex_lt(a, b),
    ensures
        !lex_lt(b, a),
    decreases a.len(),
{
    if a.len() > 0 && b.len() > 0 && a[0] == b[0] {
        lemma_lex_lt_asym(a.drop_first(), b.drop_first());
    }
}

pub proof fn lemma_lex_lt_trichotomy(a: Seq<char>, b: Seq<char>)
    ensures
        lex_lt(a, b) || lex_lt(b, a) || a == b,
    decreases a.len(),
{
    if a.len() == 0 && b.len() == 0 {
        assert(a =~= b);
    } else if a.len() > 0 && b.len() > 0 && a[0] == b[0] {
        lemma_lex_lt_trichotomy(a.drop_first(), b.drop_first());
        if !lex_lt(a, b) && !lex_lt(b, a) {
            assert(a.drop_first() == b.drop_first());
            assert forall|i: int| 0 <= i < a.len() implies a[i] == b[i] by {
                if i > 0 {
                    assert(a[i] == a.drop_first()[i - 1]);
                    assert(b[i] == b.drop_first()[i - 1]);
                }
            }
            assert(a =~= b);
        }
    }
}

pub proof fn lemma_lex_lt_trans(a: Seq<char>, b: Seq<char>, c: Seq<char>)
    requires
        lex_lt(a, b),
        lex_lt(b, c),
    ensures
        lex_lt(a, c),
    decreases a.len(),
{
    if a.len() > 0 && b.len() > 0 && c.len() > 0 && a[0] == b[0] && b[0] == c[0] {
        lemma_lex_lt_trans(a.drop_first(), b.drop_first(), c.drop_first());
    }
}

/// Scope order: the unscoped key sorts before every scope string, and scope
/// strings sort lexicographically.
pub open spec fn scope_lt(a: Option<Seq<char>>, b: Option<Seq<char>>) -> bool {
    match (a, b) {
        (Option::None, Option::Some(_)) => true,
        (Option::Some(x), Option::Some(y)) => lex_lt(x, y),
        _ => false,
    }
}

pub proof fn lemma_scope_lt_order(a: Option<Seq<char>>, b: Option<Seq<char>>)
    ensures
        a == b ==> !scope_lt(a, b),
        scope_lt(a, b) ==> !scope_lt(b, a),
        a == b || scope_lt(a, b) || scope_lt(b, a),
{
    match (a, b) {
        (Option::Some(x), Option::Some(y)) => {
            if x == y {
                lemma_lex_lt_irrefl(x);
            }
            if lex_lt(x, y) {
                lemma_lex_lt_asym(x, y);
            }
            lemma_lex_lt_trichotomy(x, y);
        }
        _ => {}
    }
}

pub proof fn lemma_scope_lt_trans(
    a: Option<Seq<char>>,
    b: Option<Seq<char>>,
    c: Option<Seq<char>>,
)
    requires
        scope_lt(a, b),
        scope_lt(b, c),
    ensures
        scope_lt(a, c),
{
    match (a, b, c) {
        (Option::Some(x), Option::Some(y), Option::Some(z)) => {
            lemma_lex_lt_trans(x, y, z);
        }
        _ => {}
    }
}

/// Index of the last occurrence of `c` in `s`, scanning from the end.
pub fn last_occurrence_exec(s: &str, c: char) -> (r: Option<usize>)
    ensures
        r matches Some(i) ==> i == last_occurrence(s@, c) && i < s@.len(),
        r is None ==> last_occurrence(s@, c) == -1,
{
    let n = s.unicode_len();
    let mut i = n;
    while i > 0
        invariant
            i <= n,
            n == s@.len(),
            forall|j: int| i <= j < s@.len() ==> s@[j] != c,
        decreases i,
    {
        i = i - 1;
        if s.get_char(i) == c {
            proof {
                lemma_last_occurrence_unique(s@, c, i as int);
            }
            return Some(i);
        }
    }
    proof {
        lemma_last_occurrence(s@, c);
    }
    None
}

proof fn lemma_lex_skip_step(a: Seq<char>, b: Seq<char>, i: int)
    requires
        0 <= i < a.len(),
        0 <= i < b.len(),
        a[i] == b[i],
    ensures
        lex_lt(a.skip(i), b.skip(i)) == lex_lt(a.skip(i + 1), b.skip(i + 1)),
{
    assert(a.skip(i).drop_first() =~= a.skip(i + 1));
    assert(b.skip(i).drop_first() =~= b.skip(i + 1));
}

/// Lexicographic comparison of two strings.
pub fn str_lt(a: &str, b: &str) -> (r: bool)
    ensures
        r == lex_lt(a@, b@),
{
    let an = a.unicode_len();
    let bn = b.unicode_len();
    proof {
        assert(a@.skip(0) =~= a@);
        assert(b@.skip(0) =~= b@);
    }
    let mut i: usize = 0;
    loop
        invariant
            i <= an,
            i <= bn,
            an == a@.len(),
            bn == b@.len(),
            lex_lt(a@, b@) == lex_lt(a@.skip(i as int), b@.skip(i as int)),
        decreases an - i,
    {
        if i >= bn {
            return false;
        }
        if i >= an {
            return true;
        }
        let ac = a.get_char(i);
        let bc = b.get_char(i);
        if ac != bc {
            return (ac as u32) < (bc as u32);
        }
        proof {
            lemma_lex_skip_step(a@, b@, i as int);
        }
        i = i + 1;
    }
}

/// Scope comparison in the `scope_lt` order.
pub fn scope_lt_exec(a: &Option<String>, b: &Option<String>) -> (r: bool)
    ensures
        r == scope_lt(opt_str_view(*a), opt_str_view(*b)),
{
    match (a, b) {
        (Option::None, Option::Some(_)) => true,
        (Option::Some(x), Option::Some(y)) => str_lt(x.as_str(), y.as_str()),
        _ => false,
    }
}

/// Scope equality, by contents.
pub fn scope_eq_exec(a: &Option<String>, b: &Option<String>) -> (r: bool)
    ensures
        r == (opt_str_view(*a) == opt_str_view(*b)),
{
    match (a, b) {
        (Option::None, Option::None) => true,
        (Option::Some(x), Option::Some(y)) => *x == *y,
        _ => false,
    }
}

/// Copy of an optional scope string.
pub fn clone_opt_string(o: &Option<String>) -> (r: Option<String>)
    ensures
        r == *o,
{
    match o {
        Option::Some(s) => Option::Some(s.clone()),
        Option::None => Option::None,
    }
}

} // verus!
