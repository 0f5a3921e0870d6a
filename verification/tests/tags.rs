use scoped_tags::{group_tags_by_scope, Part, ParseError, ScopeError, ScopedTag, SemVer};

#[test]
fn test_scoped_tag_parse_unscoped() {
    let tag = ScopedTag::parse("1.0.0").unwrap();
    assert_eq!(tag.scope, None);
    assert_eq!(tag.version.major, 1);
    assert_eq!(tag.version.minor, 0);
    assert_eq!(tag.version.patch, 0);
}

#[test]
fn test_scoped_tag_parse_scoped() {
    let tag = ScopedTag::parse("backend/1.2.3").unwrap();
    assert_eq!(tag.scope, Some("backend".to_string()));
    assert_eq!(tag.version.major, 1);
    assert_eq!(tag.version.minor, 2);
    assert_eq!(tag.version.patch, 3);
}

#[test]
fn test_scoped_tag_parse_invalid() {
    assert!(ScopedTag::parse("invalid").is_err());
    assert!(ScopedTag::parse("scope/invalid").is_err());
}

#[test]
fn test_scoped_tag_bump_major() {
    let tag = ScopedTag::parse("1.2.3").unwrap();
    let bumped = tag.bump(Part::Major);
    assert_eq!(bumped.version.major, 2);
    assert_eq!(bumped.version.minor, 0);
    assert_eq!(bumped.version.patch, 0);
}

#[test]
fn test_scoped_tag_bump_minor() {
    let tag = ScopedTag::parse("1.2.3").unwrap();
    let bumped = tag.bump(Part::Minor);
    assert_eq!(bumped.version.major, 1);
    assert_eq!(bumped.version.minor, 3);
    assert_eq!(bumped.version.patch, 0);
}

#[test]
fn test_scoped_tag_bump_patch() {
    let tag = ScopedTag::parse("1.2.3").unwrap();
    let bumped = tag.bump(Part::Patch);
    assert_eq!(bumped.version.major, 1);
    assert_eq!(bumped.version.minor, 2);
    assert_eq!(bumped.version.patch, 4);
}

#[test]
fn test_scoped_tag_display_unscoped() {
    let tag = ScopedTag::parse("1.0.0").unwrap();
    assert_eq!(tag.render(), "1.0.0");
}

#[test]
fn test_scoped_tag_display_scoped() {
    let tag = ScopedTag::parse("backend/1.2.3").unwrap();
    assert_eq!(tag.render(), "backend/1.2.3");
}

#[test]
fn test_parse_slash_sep() {
    let tag = "scope/subscope/0.1.2";
    let scoped_tag = ScopedTag::parse(tag).unwrap();
    assert_eq!(scoped_tag.sep, Some('/'))
}

#[test]
fn test_parse_at_sep() {
    let tag = "scope/subscope@0.1.2";
    let scoped_tag = ScopedTag::parse(tag).unwrap();
    assert_eq!(scoped_tag.sep, Some('@'))
}

#[test]
fn test_parse_underscore_sep() {
    let tag = "scope/subscope_0.1.2";
    let scoped_tag = ScopedTag::parse(tag).unwrap();
    assert_eq!(scoped_tag.sep, Some('_'))
}

#[test]
#[should_panic]
fn test_unparsable_tag() {
    let tag = "scope/subscope/nothing";
    let _scoped_tag = ScopedTag::parse(tag).unwrap();
}

#[test]
fn test_parse_multi_separator_scope() {
    let tag = ScopedTag::parse("team/service/1.2.3").unwrap();
    assert_eq!(tag.scope, Some("team/service".to_string()));
    assert_eq!(tag.sep, Some('/'));
    assert_eq!(tag.version.major, 1);
    assert_eq!(tag.version.minor, 2);
    assert_eq!(tag.version.patch, 3);
}

#[test]
fn test_parse_error_carries_raw_string() {
    let err = ScopedTag::parse("scope/invalid").unwrap_err();
    let ParseError::NotAVersion(raw) = err;
    assert_eq!(raw, "scope/invalid");
}

#[test]
fn test_parse_prerelease_and_build() {
    let tag = ScopedTag::parse("backend/1.2.3-rc.1+build5").unwrap();
    assert_eq!(tag.scope, Some("backend".to_string()));
    assert_eq!(tag.version.major, 1);
    assert_eq!(tag.version.minor, 2);
    assert_eq!(tag.version.patch, 3);
    assert_eq!(tag.version.pre, "rc.1");
    assert_eq!(tag.version.build, "build5");
    assert_eq!(tag.render(), "backend/1.2.3-rc.1+build5");
}

#[test]
fn test_parse_rejects_leading_zero() {
    assert!(ScopedTag::parse("01.2.3").is_err());
    assert!(ScopedTag::parse("backend/1.02.3").is_err());
}

#[test]
fn test_bump_clears_prerelease_and_build() {
    let tag = ScopedTag::parse("1.2.3-rc.1+build5").unwrap();
    let bumped = tag.bump(Part::Patch);
    assert_eq!(bumped.version.patch, 4);
    assert_eq!(bumped.version.pre, "");
    assert_eq!(bumped.version.build, "");
    assert_eq!(bumped.render(), "1.2.4");
}

#[test]
fn test_round_trip_constructed_tag() {
    let tag = ScopedTag {
        scope: Some("team@x".to_string()),
        version: SemVer {
            major: 10,
            minor: 0,
            patch: 7,
            pre: String::new(),
            build: String::new(),
        },
        sep: Some('_'),
    };
    let rendered = tag.render();
    assert_eq!(rendered, "team@x_10.0.7");
    let back = ScopedTag::parse(&rendered).unwrap();
    assert_eq!(back.scope, Some("team@x".to_string()));
    assert_eq!(back.sep, Some('_'));
    assert_eq!(back.version.major, 10);
    assert_eq!(back.version.minor, 0);
    assert_eq!(back.version.patch, 7);
}

#[test]
fn test_group_tags_by_scope() {
    let raw = vec![
        "1.0.0".to_string(),
        "2.0.0".to_string(),
        "backend/1.0.0".to_string(),
        "junk".to_string(),
    ];
    let reg = group_tags_by_scope(&raw);
    assert_eq!(reg.groups.len(), 2);
    assert_eq!(reg.groups[0].scope, None);
    let unscoped: Vec<&str> =
        reg.groups[0].entries.iter().map(|e| e.display.as_str()).collect();
    assert_eq!(unscoped, vec!["1.0.0", "2.0.0"]);
    assert_eq!(reg.groups[1].scope, Some("backend".to_string()));
    let backend: Vec<&str> =
        reg.groups[1].entries.iter().map(|e| e.display.as_str()).collect();
    assert_eq!(backend, vec!["backend/1.0.0"]);
    assert_eq!(reg.groups[1].entries[0].version.major, 1);
    assert_eq!(reg.groups[1].entries[0].version.minor, 0);
    assert_eq!(reg.groups[1].entries[0].version.patch, 0);
}

#[test]
fn test_group_sorts_versions_not_lexically() {
    let raw = vec!["10.0.0".to_string(), "9.0.0".to_string(), "1.10.0".to_string(),
        "1.2.0".to_string()];
    let reg = group_tags_by_scope(&raw);
    assert_eq!(reg.groups.len(), 1);
    let versions: Vec<&str> =
        reg.groups[0].entries.iter().map(|e| e.display.as_str()).collect();
    assert_eq!(versions, vec!["1.2.0", "1.10.0", "9.0.0", "10.0.0"]);
}

#[test]
fn test_group_order_insensitive_keys() {
    let a = vec!["b/1.0.0".to_string(), "a/2.0.0".to_string(), "3.0.0".to_string()];
    let b = vec!["3.0.0".to_string(), "b/1.0.0".to_string(), "a/2.0.0".to_string()];
    let ra = group_tags_by_scope(&a);
    let rb = group_tags_by_scope(&b);
    assert_eq!(ra.groups.len(), rb.groups.len());
    for (ga, gb) in ra.groups.iter().zip(rb.groups.iter()) {
        assert_eq!(ga.scope, gb.scope);
        assert_eq!(ga.entries.len(), gb.entries.len());
        for (ea, eb) in ga.entries.iter().zip(gb.entries.iter()) {
            assert_eq!(ea.version.major, eb.version.major);
            assert_eq!(ea.version.minor, eb.version.minor);
            assert_eq!(ea.version.patch, eb.version.patch);
            assert_eq!(ea.display, eb.display);
        }
    }
}

#[test]
fn test_latest_for_scope() {
    let raw = vec!["1.0.0".to_string(), "2.1.0".to_string(), "backend/0.3.0".to_string()];
    let reg = group_tags_by_scope(&raw);
    assert_eq!(reg.latest_for_scope(&None).unwrap(), "2.1.0");
    assert_eq!(
        reg.latest_for_scope(&Some("backend".to_string())).unwrap(),
        "backend/0.3.0"
    );
}

#[test]
fn test_latest_for_missing_scope() {
    let raw = vec!["1.0.0".to_string()];
    let reg = group_tags_by_scope(&raw);
    let err = reg.latest_for_scope(&Some("frontend".to_string())).unwrap_err();
    let ScopeError::NoTagsForScope(scope) = err;
    assert_eq!(scope, Some("frontend".to_string()));
}

#[test]
fn test_separator_priority_order() {
    // Both '@' and '/' could split this string; '@' is tried first.
    let tag = ScopedTag::parse("a/b@1.0.0").unwrap();
    assert_eq!(tag.sep, Some('@'));
    assert_eq!(tag.scope, Some("a/b".to_string()));
}
