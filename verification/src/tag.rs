//! Scoped tags: parsing a raw tag string into an optional scope, separator
//! and semantic version; bumping a version part; rendering a tag back to
//! its string form.
//!
//! Parsing tries the candidate separators `@`, `/`, `_` in that order,
//! splitting at the *last* occurrence of each; the first candidate whose
//! suffix is a valid semantic version wins. When no candidate yields a
//! version, the whole string is tried as an unscoped version.

use crate::chars::{
    is_sep_char, last_occurrence, last_occurrence_exec, lemma_last_occurrence,
    lemma_last_occurrence_concat, opt_str_view,
};
use crate::version::{
    accepts_canon_triple, canon_triple, lemma_canon_triple_no_sep, lemma_render_version_canon,
    parse_semver, rejects_sep_chars, semver_parse, spec_render_version, SemVer, VersionView,
};
use vstd::prelude::*;

verus! {

/// The version part that a bump increments.
#[derive(Debug, Clone, Copy)]
pub enum Part {
    Major,
    Minor,
    Patch,
}

/// Failure to recognize a raw string as a (possibly scoped) version tag.
/// Carries the original string for diagnostics.
#[derive(Debug)]
pub enum ParseError {
    NotAVersion(String),
}

/// An immutable scoped tag: an optional scope prefix, the semantic version,
/// and the separator character that joined them in the original string.
#[derive(Debug)]
pub struct ScopedTag {
    pub scope: Option<String>,
    pub version: SemVer,
    pub sep: Option<char>,
}

/// Mathematical model of a scoped tag.
pub ghost struct TagView {
    pub scope: Option<Seq<char>>,
    pub version: VersionView,
    pub sep: Option<char>,
}

impl View for ScopedTag {
    type V = TagView;

    open spec fn view(&self) -> TagView {
        TagView {
            scope: opt_str_view(self.scope),
            version: self.version@,
            sep: self.sep,
        }
    }
}

impl TagView {
    /// The invariant every parsed tag satisfies: a separator is recorded
    /// exactly when a scope is, the separator is one of the candidates,
    /// and the numeric triple is machine-representable.
    pub open spec fn wf(self) -> bool {
        &&& self.scope is Some <==> self.sep is Some
        &&& (self.sep matches Some(c) ==> is_sep_char(c))
        &&& self.version.wf()
    }
}

/// The string form of a tag: `{scope}{separator}{version}` when a scope is
/// present, else just `{version}`.
pub open spec fn spec_render(t: TagView) -> Seq<char> {
    match (t.scope, t.sep) {
        (Option::Some(sc), Option::Some(c)) => sc + seq![c] + spec_render_version(t.version),
        _ => spec_render_version(t.version),
    }
}

/// The outcome of splitting `s` at the last occurrence of `c`: none when
/// `c` is absent or the suffix is no version, else the scoped tag.
pub open spec fn try_split(s: Seq<char>, c: char) -> Option<TagView> {
    let i = last_occurrence(s, c);
    if i >= 0 {
        match semver_parse(s.subrange(i + 1, s.len() as int)) {
            Option::Some(v) => Option::Some(
                TagView { scope: Option::Some(s.subrange(0, i)), version: v, sep: Option::Some(c) },
            ),
            Option::None => Option::None,
        }
    } else {
        Option::None
    }
}

/// What parsing a raw string yields: the candidate separators in priority
/// order, then the whole string as an unscoped version.
pub open spec fn spec_parse(s: Seq<char>) -> Option<TagView> {
    let at = try_split(s, '@');
    let sl = try_split(s, '/');
    let us = try_split(s, '_');
    if at is Some {
        at
    } else if sl is Some {
        sl
    } else if us is Some {
        us
    } else {
        match semver_parse(s) {
            Option::Some(v) => Option::Some(
                TagView { scope: Option::None, version: v, sep: Option::None },
            ),
            Option::None => Option::None,
        }
    }
}

/// A well-formed tag without pre-release or build metadata whose rendering
/// is `s`: the shape over which the parse/render round trip is stated.
pub open spec fn renders_to(t: TagView, s: Seq<char>) -> bool {
    &&& t.wf()
    &&& t.version.pre.len() == 0
    &&& t.version.build.len() == 0
    &&& s == spec_render(t)
}

/// What one separator attempt must yield on the rendering of `t`: the tag
/// itself when `c` is `t`'s separator, nothing otherwise.
pub open spec fn split_outcome(t: TagView, c: char, r: Option<ScopedTag>) -> bool {
    match t.sep {
        Option::Some(c2) => if c2 == c {
            r matches Some(p) && p@ == t
        } else {
            r is None
        },
        Option::None => r is None,
    }
}

/// In the rendering of a scoped tag without suffixes, the separator's
/// position is the last occurrence of the separator character, and the
/// pieces around it are the scope and the canonical triple.
proof fn lemma_render_split(t: TagView, c: char)
    requires
        t.wf(),
        t.version.pre.len() == 0,
        t.version.build.len() == 0,
        t.sep == Some(c),
    ensures
        ({
            let s = spec_render(t);
            let sc = t.scope->0;
            &&& s == sc + seq![c] + canon_triple(t.version.major, t.version.minor, t.version.patch)
            &&& last_occurrence(s, c) == sc.len()
            &&& s.subrange(0, sc.len() as int) == sc
            &&& s.subrange(sc.len() as int + 1, s.len() as int) == canon_triple(
                t.version.major,
                t.version.minor,
                t.version.patch,
            )
        }),
{
    let s = spec_render(t);
    let sc = t.scope->0;
    let canon = canon_triple(t.version.major, t.version.minor, t.version.patch);
    lemma_render_version_canon(t.version);
    assert(s == sc + seq![c] + canon);
    lemma_canon_triple_no_sep(t.version.major, t.version.minor, t.version.patch);
    assert forall|j: int| 0 <= j < canon.len() implies canon[j] != c by {
        assert(!is_sep_char(canon[j]));
    }
    lemma_last_occurrence_concat(sc, c, canon);
    assert(s.subrange(0, sc.len() as int) =~= sc);
    assert(s.subrange(sc.len() as int + 1, s.len() as int) =~= canon);
}

/// The rendering of an unscoped tag without suffixes holds no separator
/// character at all.
proof fn lemma_render_unscoped_no_sep(t: TagView)
    requires
        t.wf(),
        t.version.pre.len() == 0,
        t.version.build.len() == 0,
        t.sep is None,
    ensures
        spec_render(t) == canon_triple(t.version.major, t.version.minor, t.version.patch),
        forall|j: int| 0 <= j < spec_render(t).len() ==> !is_sep_char(#[trigger] spec_render(t)[j]),
{
    lemma_render_version_canon(t.version);
    lemma_canon_triple_no_sep(t.version.major, t.version.minor, t.version.patch);
}

/// The heart of the per-separator round-trip argument: when `s` is the
/// rendering of `t` and holds `c`, with last occurrence at `i`, what the
/// version parse returned on the suffix after `i` forces the attempt's
/// outcome.
proof fn lemma_split_case(
    t: TagView,
    s: Seq<char>,
    c: char,
    i: int,
    pv: Option<SemVer>,
    r: Option<ScopedTag>,
)
    requires
        is_sep_char(c),
        renders_to(t, s),
        0 <= i < s.len(),
        i == last_occurrence(s, c),
        s[i] == c,
        pv matches Some(v) ==> semver_parse(s.subrange(i + 1, s.len() as int)) == Some(v@),
        pv is None ==> semver_parse(s.subrange(i + 1, s.len() as int)) is None,
        accepts_canon_triple(s.subrange(i + 1, s.len() as int), pv),
        rejects_sep_chars(s.subrange(i + 1, s.len() as int), pv),
        r is Some <==> pv is Some,
        r is Some ==> (r->0)@ == (TagView {
            scope: Option::Some(s.subrange(0, i)),
            version: (pv->0)@,
            sep: Option::Some(c),
        }),
    ensures
        split_outcome(t, c, r),
{
    let suffix = s.subrange(i + 1, s.len() as int);
    match t.sep {
        Option::Some(c2) => {
            if c2 == c {
                lemma_render_split(t, c);
                let sc = t.scope->0;
                assert(i == sc.len());
                assert(suffix == canon_triple(t.version.major, t.version.minor, t.version.patch));
                let v0 = VersionView {
                    major: t.version.major,
                    minor: t.version.minor,
                    patch: t.version.patch,
                    pre: Seq::<char>::empty(),
                    build: Seq::<char>::empty(),
                };
                assert(pv matches Some(v) && v@ == v0);
                assert(t.version.pre =~= Seq::<char>::empty());
                assert(t.version.build =~= Seq::<char>::empty());
                assert(v0 == t.version);
                assert(s.subrange(0, i) == sc);
            } else {
                // The last `c` lies inside the scope, so the suffix still
                // holds the real separator, and the version parse failed.
                lemma_render_split(t, c2);
                let sc = t.scope->0;
                let canon = canon_triple(t.version.major, t.version.minor, t.version.patch);
                lemma_canon_triple_no_sep(t.version.major, t.version.minor, t.version.patch);
                assert(s[sc.len() as int] == c2);
                if i >= sc.len() {
                    if i > sc.len() {
                        assert(canon[i - sc.len() - 1] == s[i]);
                        assert(!is_sep_char(s[i]));
                    }
                    assert(false);
                }
                assert(suffix[sc.len() - i - 1] == s[sc.len() as int]);
                assert(is_sep_char(suffix[sc.len() - i - 1]));
                assert(pv is None);
            }
        }
        Option::None => {
            lemma_render_unscoped_no_sep(t);
            assert(!is_sep_char(s[i]));
            assert(false);
        }
    }
}

/// One separator attempt: split at the last occurrence of `c` and parse
/// the suffix as a version.
fn try_split_exec(s: &str, c: char) -> (r: Option<ScopedTag>)
    requires
        is_sep_char(c),
    ensures
        r matches Some(t) ==> try_split(s@, c) == Some(t@) && t@.wf(),
        r is None ==> try_split(s@, c) is None,
        forall|t: TagView| renders_to(t, s@) ==> split_outcome(t, c, r),
{
    let n = s.unicode_len();
    match last_occurrence_exec(s, c) {
        Some(i) => {
            proof {
                lemma_last_occurrence(s@, c);
            }
            let scope_part = s.substring_char(0, i);
            let ver_part = s.substring_char(i + 1, n);
            let parsed = parse_semver(ver_part);
            let ghost gpv = parsed;
            match parsed {
                Some(v) => {
                    let tag = ScopedTag {
                        scope: Some(scope_part.to_owned()),
                        version: v,
                        sep: Some(c),
                    };
                    proof {
                        assert(try_split(s@, c) == Some(tag@));
                        assert forall|t: TagView| renders_to(t, s@) implies split_outcome(
                            t,
                            c,
                            Some(tag),
                        ) by {
                            lemma_split_case(t, s@, c, i as int, gpv, Some(tag));
                        }
                    }
                    Some(tag)
                }
                None => {
                    proof {
                        assert forall|t: TagView| renders_to(t, s@) implies split_outcome(
                            t,
                            c,
                            None::<ScopedTag>,
                        ) by {
                            lemma_split_case(t, s@, c, i as int, gpv, None::<ScopedTag>);
                        }
                    }
                    None
                }
            }
        }
        None => {
            proof {
                lemma_last_occurrence(s@, c);
                assert forall|t: TagView| renders_to(t, s@) implies split_outcome(
                    t,
                    c,
                    None::<ScopedTag>,
                ) by {
                    if t.sep is Some && t.sep->0 == c {
                        lemma_render_split(t, c);
                        assert(s@[t.scope->0.len() as int] == c);
                        assert(false);
                    }
                }
            }
            None
        }
    }
}

/// After every separator attempt has failed, a rendering must be of an
/// unscoped tag, and the whole-string version parse pins its triple down.
proof fn lemma_unscoped_round_trip(t: TagView, s: Seq<char>, pv: Option<SemVer>)
    requires
        renders_to(t, s),
        t.sep is None,
        pv matches Some(v) ==> semver_parse(s) == Some(v@),
        pv is None ==> semver_parse(s) is None,
        accepts_canon_triple(s, pv),
    ensures
        pv matches Some(v) && v@ == t.version,
{
    lemma_render_unscoped_no_sep(t);
    let v0 = VersionView {
        major: t.version.major,
        minor: t.version.minor,
        patch: t.version.patch,
        pre: Seq::<char>::empty(),
        build: Seq::<char>::empty(),
    };
    assert(pv matches Some(v) && v@ == v0);
    assert(t.version.pre =~= Seq::<char>::empty());
    assert(t.version.build =~= Seq::<char>::empty());
    assert(v0 == t.version);
}

impl ScopedTag {
    /// Parses a raw tag string.
    ///
    /// Succeeds exactly on the strings `spec_parse` accepts; the error
    /// carries the raw string back. On the rendering of any well-formed
    /// suffix-free tag, parsing yields that tag again: the parse/render
    /// round trip preserves scope, separator and the numeric triple.
    pub fn parse(tag_str: &str) -> (r: Result<ScopedTag, ParseError>)
        ensures
            r matches Ok(t) ==> spec_parse(tag_str@) == Some(t@) && t@.wf(),
            r matches Err(e) ==> spec_parse(tag_str@) is None && (e matches
                ParseError::NotAVersion(raw) && raw@ == tag_str@),
            r is Ok <==> spec_parse(tag_str@) is Some,
            forall|t: TagView| renders_to(t, tag_str@) ==> (r matches Ok(p) && p@ == t),
    {
        match try_split_exec(tag_str, '@') {
            Some(t) => {
                return Ok(t);
            }
            None => {}
        }
        match try_split_exec(tag_str, '/') {
            Some(t) => {
                return Ok(t);
            }
            None => {}
        }
        match try_split_exec(tag_str, '_') {
            Some(t) => {
                return Ok(t);
            }
            None => {}
        }
        let parsed = parse_semver(tag_str);
        let ghost gpv = parsed;
        match parsed {
            Some(v) => {
                proof {
                    assert forall|t: TagView| renders_to(t, tag_str@) implies (TagView {
                        scope: Option::None,
                        version: v@,
                        sep: Option::None,
                    }) == t by {
                        if t.sep is None {
                            lemma_unscoped_round_trip(t, tag_str@, gpv);
                        }
                    }
                }
                Ok(ScopedTag { scope: None, version: v, sep: None })
            }
            None => {
                proof {
                    assert forall|t: TagView| !renders_to(t, tag_str@) by {
                        if renders_to(t, tag_str@) && t.sep is None {
                            lemma_unscoped_round_trip(t, tag_str@, gpv);
                        }
                    }
                }
                Err(ParseError::NotAVersion(tag_str.to_owned()))
            }
        }
    }
}

/// The version a bump produces: the requested part incremented, every
/// lower-order part reset to zero, and pre-release and build metadata
/// cleared whatever the input held.
pub open spec fn bumped_version(v: VersionView, part: Part) -> VersionView {
    match part {
        Part::Major => VersionView {
            major: v.major + 1,
            minor: 0,
            patch: 0,
            pre: Seq::<char>::empty(),
            build: Seq::<char>::empty(),
        },
        Part::Minor => VersionView {
            major: v.major,
            minor: v.minor + 1,
            patch: 0,
            pre: Seq::<char>::empty(),
            build: Seq::<char>::empty(),
        },
        Part::Patch => VersionView {
            major: v.major,
            minor: v.minor,
            patch: v.patch + 1,
            pre: Seq::<char>::empty(),
            build: Seq::<char>::empty(),
        },
    }
}

/// One of the separator characters as a string slice.
fn sep_str(c: char) -> (r: &'static str)
    requires
        is_sep_char(c),
    ensures
        r@ == seq![c],
{
    if c == '@' {
        proof { reveal_strlit("@"); }
        assert("@"@ =~= seq!['@']);
        "@"
    } else if c == '/' {
        proof { reveal_strlit("/"); }
        assert("/"@ =~= seq!['/']);
        "/"
    } else {
        proof { reveal_strlit("_"); }
        assert("_"@ =~= seq!['_']);
        "_"
    }
}

impl ScopedTag {
    /// The successor tag: same scope and separator, the requested part
    /// incremented, lower-order parts reset, suffixes cleared.
    pub fn bump(&self, part: Part) -> (r: ScopedTag)
        requires
            part is Major ==> self@.version.major < u64::MAX,
            part is Minor ==> self@.version.minor < u64::MAX,
            part is Patch ==> self@.version.patch < u64::MAX,
        ensures
            r@.scope == self@.scope,
            r@.sep == self@.sep,
            r@.version == bumped_version(self@.version, part),
    {
        let new_version = match part {
            Part::Major => SemVer {
                major: self.version.major + 1,
                minor: 0,
                patch: 0,
                pre: String::new(),
                build: String::new(),
            },
            Part::Minor => SemVer {
                major: self.version.major,
                minor: self.version.minor + 1,
                patch: 0,
                pre: String::new(),
                build: String::new(),
            },
            Part::Patch => SemVer {
                major: self.version.major,
                minor: self.version.minor,
                patch: self.version.patch + 1,
                pre: String::new(),
                build: String::new(),
            },
        };
        ScopedTag {
            scope: crate::chars::clone_opt_string(&self.scope),
            version: new_version,
            sep: self.sep,
        }
    }

    /// The string form of this tag: `{scope}{separator}{version}` when a
    /// scope is present, else just `{version}`.
    pub fn render(&self) -> (r: String)
        requires
            self@.wf(),
        ensures
            r@ == spec_render(self@),
    {
        match (&self.scope, self.sep) {
            (Some(sc), Some(c)) => {
                let mut s = sc.clone();
                s.append(sep_str(c));
                let ver = self.version.render();
                s.append(ver.as_str());
                proof {
                    assert(s@ =~= spec_render(self@));
                }
                s
            }
            _ => self.version.render(),
        }
    }
}

impl core::str::FromStr for ScopedTag {
    type Err = ParseError;

    fn from_str(s: &str) -> Result<ScopedTag, ParseError> {
        ScopedTag::parse(s)
    }
}

} // verus!
