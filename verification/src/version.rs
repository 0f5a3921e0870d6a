//! Semantic versions: the numeric triple with optional pre-release and
//! build-metadata suffixes, their ordering, their decimal rendering, and
//! the trusted boundary to the outside semantic-version parser.

use crate::chars::{is_dec_digit, is_sep_char};
use vstd::prelude::*;

verus! {

/// A semantic version: a numeric triple plus optional pre-release and
/// build-metadata suffixes (empty strings when absent).
#[derive(Debug)]
pub struct SemVer {
    pub major: u64,
    pub minor: u64,
    pub patch: u64,
    pub pre: String,
    pub build: String,
}

/// Mathematical model of a semantic version.
pub ghost struct VersionView {
    pub major: int,
    pub minor: int,
    pub patch: int,
    pub pre: Seq<char>,
    pub build: Seq<char>,
}

impl View for SemVer {
    type V = VersionView;

    open spec fn view(&self) -> VersionView {
        VersionView {
            major: self.major as int,
            minor: self.minor as int,
            patch: self.patch as int,
            pre: self.pre@,
            build: self.build@,
        }
    }
}

impl VersionView {
    /// The triple fits the machine representation.
    pub open spec fn wf(self) -> bool {
        &&& 0 <= self.major <= u64::MAX
        &&& 0 <= self.minor <= u64::MAX
        &&& 0 <= self.patch <= u64::MAX
    }
}

/// Strict order on versions: lexicographic on the numeric triple alone;
/// pre-release and build metadata never take part in comparisons here.
pub open spec fn triple_lt(a: VersionView, b: VersionView) -> bool {
    ||| a.major < b.major
    ||| (a.major == b.major && a.minor < b.minor)
    ||| (a.major == b.major && a.minor == b.minor && a.patch < b.patch)
}

/// Equality of the numeric triples, ignoring pre-release and build metadata.
pub open spec fn same_triple(a: VersionView, b: VersionView) -> bool {
    a.major == b.major && a.minor == b.minor && a.patch == b.patch
}

impl SemVer {
    /// A copy with equal contents.
    pub fn duplicate(&self) -> (r: SemVer)
        ensures
            r@ == self@,
    {
        SemVer {
            major: self.major,
            minor: self.minor,
            patch: self.patch,
            pre: self.pre.clone(),
            build: self.build.clone(),
        }
    }
}

/// Comparison of two versions by their numeric triples.
pub fn triple_lt_exec(a: &SemVer, b: &SemVer) -> (r: bool)
    ensures
        r == triple_lt(a@, b@),
{
    if a.major != b.major {
        a.major < b.major
    } else if a.minor != b.minor {
        a.minor < b.minor
    } else {
        a.patch < b.patch
    }
}

/// Equality of two versions' numeric triples.
pub fn same_triple_exec(a: &SemVer, b: &SemVer) -> (r: bool)
    ensures
        r == same_triple(a@, b@),
{
    a.major == b.major && a.minor == b.minor && a.patch == b.patch
}

/// The character for one decimal digit.
pub open spec fn digit_char(d: int) -> char {
    if d == 0 {
        '0'
    } else if d == 1 {
        '1'
    } else if d == 2 {
        '2'
    } else if d == 3 {
        '3'
    } else if d == 4 {
        '4'
    } else if d == 5 {
        '5'
    } else if d == 6 {
        '6'
    } else if d == 7 {
        '7'
    } else if d == 8 {
        '8'
    } else {
        '9'
    }
}

/// The canonical decimal rendering of a non-negative integer: no sign,
/// no leading zeros (a single `0` for zero).
pub open spec fn dec_digits(n: int) -> Seq<char>
    decreases n,
{
    if n < 10 {
        seq![digit_char(n)]
    } else {
        dec_digits(n / 10).push(digit_char(n % 10))
    }
}

pub proof fn lemma_dec_digits_chars(n: int)
    ensures
        forall|i: int| 0 <= i < dec_digits(n).len() ==> is_dec_digit(#[trigger] dec_digits(n)[i]),
    decreases n,
{
    if n < 10 {
        assert(dec_digits(n)[0] == digit_char(n));
    } else {
        lemma_dec_digits_chars(n / 10);
        assert forall|i: int| 0 <= i < dec_digits(n).len() implies is_dec_digit(
            #[trigger] dec_digits(n)[i],
        ) by {
            if i < dec_digits(n).len() - 1 {
                assert(dec_digits(n)[i] == dec_digits(n / 10)[i]);
            } else {
                assert(dec_digits(n)[i] == digit_char(n % 10));
            }
        }
    }
}

/// The canonical `major.minor.patch` rendering of a numeric triple.
pub open spec fn canon_triple(mj: int, mi: int, pa: int) -> Seq<char> {
    dec_digits(mj) + seq!['.'] + dec_digits(mi) + seq!['.'] + dec_digits(pa)
}

/// No character of a canonical triple is a scope separator.
pub proof fn lemma_canon_triple_no_sep(mj: int, mi: int, pa: int)
    ensures
        forall|i: int| 0 <= i < canon_triple(mj, mi, pa).len()
            ==> !is_sep_char(#[trigger] canon_triple(mj, mi, pa)[i]),
{
    lemma_dec_digits_chars(mj);
    lemma_dec_digits_chars(mi);
    lemma_dec_digits_chars(pa);
    assert forall|i: int| 0 <= i < canon_triple(mj, mi, pa).len()
        implies !is_sep_char(#[trigger] canon_triple(mj, mi, pa)[i]) by {
        let s = canon_triple(mj, mi, pa);
        let a = dec_digits(mj);
        let b = dec_digits(mi);
        let c = dec_digits(pa);
        assert(s[i] == (a + seq!['.'] + b + seq!['.'] + c)[i]);
        if i < a.len() {
            assert(s[i] == a[i]);
        } else if i == a.len() {
            assert(s[i] == '.');
        } else if i < a.len() + 1 + b.len() {
            assert(s[i] == b[i - a.len() - 1]);
        } else if i == a.len() + 1 + b.len() {
            assert(s[i] == '.');
        } else {
            assert(s[i] == c[i - a.len() - 1 - b.len() - 1]);
        }
    }
}

/// The full rendering of a version: the canonical triple, then `-pre` when
/// a pre-release suffix is present, then `+build` when build metadata is
/// present.
pub open spec fn spec_render_version(v: VersionView) -> Seq<char> {
    canon_triple(v.major, v.minor, v.patch) + (if v.pre.len() > 0 {
        seq!['-'] + v.pre
    } else {
        Seq::<char>::empty()
    }) + (if v.build.len() > 0 {
        seq!['+'] + v.build
    } else {
        Seq::<char>::empty()
    })
}

/// Without pre-release and build metadata the rendering is the canonical
/// triple itself.
pub proof fn lemma_render_version_canon(v: VersionView)
    requires
        v.pre.len() == 0,
        v.build.len() == 0,
    ensures
        spec_render_version(v) == canon_triple(v.major, v.minor, v.patch),
{
    assert(spec_render_version(v) =~= canon_triple(v.major, v.minor, v.patch));
}

/// One decimal digit as a string slice.
fn digit_str(d: u64) -> (r: &'static str)
    requires
        d < 10,
    ensures
        r@ == seq![digit_char(d as int)],
{
    if d == 0 {
        proof { reveal_strlit("0"); }
        assert("0"@ =~= seq![digit_char(0)]);
        "0"
    } else if d == 1 {
        proof { reveal_strlit("1"); }
        assert("1"@ =~= seq![digit_char(1)]);
        "1"
    } else if d == 2 {
        proof { reveal_strlit("2"); }
        assert("2"@ =~= seq![digit_char(2)]);
        "2"
    } else if d == 3 {
        proof { reveal_strlit("3"); }
        assert("3"@ =~= seq![digit_char(3)]);
        "3"
    } else if d == 4 {
        proof { reveal_strlit("4"); }
        assert("4"@ =~= seq![digit_char(4)]);
        "4"
    } else if d == 5 {
        proof { reveal_strlit("5"); }
        assert("5"@ =~= seq![digit_char(5)]);
        "5"
    } else if d == 6 {
        proof { reveal_strlit("6"); }
        assert("6"@ =~= seq![digit_char(6)]);
        "6"
    } else if d == 7 {
        proof { reveal_strlit("7"); }
        assert("7"@ =~= seq![digit_char(7)]);
        "7"
    } else if d == 8 {
        proof { reveal_strlit("8"); }
        assert("8"@ =~= seq![digit_char(8)]);
        "8"
    } else {
        proof { reveal_strlit("9"); }
        assert("9"@ =~= seq![digit_char(9)]);
        "9"
    }
}

/// Appends the canonical decimal rendering of `n`.
fn push_decimal(out: &mut String, n: u64)
    ensures
        final(out)@ == old(out)@ + dec_digits(n as int),
    decreases n,
{
    if n >= 10 {
        push_decimal(out, n / 10);
        out.append(digit_str(n % 10));
        proof {
            assert(out@ =~= old(out)@ + dec_digits(n as int));
        }
    } else {
        out.append(digit_str(n));
        proof {
            assert(out@ =~= old(out)@ + dec_digits(n as int));
        }
    }
}

impl SemVer {
    /// The dotted rendering of this version.
    pub fn render(&self) -> (r: String)
        ensures
            r@ == spec_render_version(self@),
    {
        let mut s = String::new();
        push_decimal(&mut s, self.major);
        proof { reveal_strlit("."); }
        s.append(".");
        push_decimal(&mut s, self.minor);
        s.append(".");
        push_decimal(&mut s, self.patch);
        if !self.pre.as_str().is_empty() {
            proof { reveal_strlit("-"); }
            s.append("-");
            s.append(self.pre.as_str());
        }
        if !self.build.as_str().is_empty() {
            proof { reveal_strlit("+"); }
            s.append("+");
            s.append(self.build.as_str());
        }
        proof {
            assert(s@ =~= spec_render_version(self@));
        }
        s
    }
}

/// What the outside semantic-version parser returns for a given string:
/// `None` when the string is not a valid semantic version, else the parsed
/// version. The result is a function of the characters alone.
pub uninterp spec fn semver_parse(s: Seq<char>) -> Option<VersionView>;

/// Canonical `major.minor.patch` renderings of `u64` triples are accepted,
/// and yield exactly that triple with empty pre-release and build metadata.
pub open spec fn accepts_canon_triple(s: Seq<char>, r: Option<SemVer>) -> bool {
    forall|mj: int, mi: int, pa: int|
        0 <= mj <= u64::MAX && 0 <= mi <= u64::MAX && 0 <= pa <= u64::MAX
            && s == canon_triple(mj, mi, pa)
        ==> (r matches Some(v) && v@ == (VersionView {
            major: mj,
            minor: mi,
            patch: pa,
            pre: Seq::<char>::empty(),
            build: Seq::<char>::empty(),
        }))
}

/// A string holding a separator character is rejected.
pub open spec fn rejects_sep_chars(s: Seq<char>, r: Option<SemVer>) -> bool {
    (exists|i: int| 0 <= i < s.len() && is_sep_char(s[i])) ==> r is None
}

/// Relies on `semver::Version::parse` (crate `semver`): the result depends
/// on the input characters alone; a canonical `major.minor.patch` rendering
/// of a `u64` triple parses to exactly that triple with empty pre-release
/// and build metadata; and a string containing `@`, `/` or `_` is never a
/// valid version, because outside the dotted numeric triple the grammar
/// admits only ASCII alphanumerics, `-`, `.` and `+`.
#[verifier::external_body]
pub(crate) fn parse_semver(s: &str) -> (r: Option<SemVer>)
    ensures
        r matches Some(v) ==> semver_parse(s@) == Some(v@) && v@.wf(),
        r is None ==> semver_parse(s@) is None,
        accepts_canon_triple(s@, r),
        rejects_sep_chars(s@, r),
{
    match semver::Version::parse(s) {
        Ok(v) => Some(SemVer {
            major: v.major,
            minor: v.minor,
            patch: v.patch,
            pre: v.pre.as_str().to_string(),
            build: v.build.as_str().to_string(),
        }),
        Err(_) => None,
    }
}

} // verus!
