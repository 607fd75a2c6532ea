use pkgatom::atom::parsers::{atom, category, name, version};
use pkgatom::atom::{Atom, Blocker, Category, Name, Version, VersionNumber, VersionOperator,
    VersionSuffix, VersionSuffixKind};

#[test]
fn test_simple_version() {
    let input = "1.0.0";

    let (version, _) = version(input).unwrap();

    assert_eq!(version.numbers()[0].get(), "1");

    assert_eq!(version.numbers()[1].get(), "0");

    assert_eq!(version.numbers()[2].get(), "0");
}

#[test]
fn test_version_with_suffix() {
    let input = "1.0.0_alpha1";

    let (version, _) = version(input).unwrap();

    assert!(matches!(
        version.suffixes()[0].kind(),
        VersionSuffixKind::Alpha
    ));

    assert_eq!(version.suffixes()[0].number().unwrap().get(), "1");
}

#[test]
fn test_version_with_revision() {
    let input = "1.0.0-r1";

    let (version, _) = version(input).unwrap();

    assert_eq!(version.revision().unwrap().get(), "1");
}

#[test]
fn test_complex_version() {
    let input = "8.3_beta_p20250128";

    let (version, _) = version(input).unwrap();

    assert_eq!(version.numbers()[0].get(), "8");

    assert_eq!(version.numbers()[1].get(), "3");

    assert!(matches!(
        version.suffixes()[0].kind(),
        VersionSuffixKind::Beta
    ));

    assert!(version.suffixes()[0].number().is_none());

    assert!(matches!(version.suffixes()[1].kind(), VersionSuffixKind::P));

    assert_eq!(version.suffixes()[1].number().unwrap().get(), "20250128");
}

fn parses_completely(input: &str) -> bool {
    match version(input) {
        Ok((_, n)) => n == input.chars().count(),
        Err(_) => false,
    }
}

#[test]
fn test_version_with_incorrect_suffix() {
    let input = "1.0.0alpha32-r1";

    assert!(!parses_completely(input));
}

#[test]
fn test_version_with_incorrect_revision() {
    let input = "1.0.0-ra";

    assert!(!parses_completely(input));
}

#[test]
fn test_simple_name() {
    let input = "foo-bar";

    let (name, _) = name(input).unwrap();

    assert_eq!(name.get(), "foo-bar");
}

#[test]
fn test_name_with_version() {
    let input = "foo-bar-1.0.0";

    let (name, _) = name(input).unwrap();

    assert_eq!(name.get(), "foo-bar");
}

#[test]
fn test_name_with_version_ending() {
    let input = "foo-bar-1-1.0-r1";

    assert!(name(input).is_err());
}

#[test]
fn test_atom() {
    let input = "!!>=cat/pkg-1.0.0v_alpha1_p20250326-r1:primary/sub=[!a(+),-b(-)=,c?]";

    let (atom, _) = atom(input).unwrap();

    assert_eq!(atom.render(), input);
}

#[test]
fn test_atom_with_empty_slot() {
    let input = "!!>=cat/pkg-1.0.0v_alpha1_p20250326-r1:[!a(+),-b?,c(-)]";

    assert!(atom(input).is_err());
}

#[test]
fn test_cursed_atom() {
    let input = "!!>=_.+-0-/_-test-T-123_beta1_-4a-6+-_p--1.00.02b_alpha3_pre_p4-r5:slot/_-+6-9=[test(+),test(-)]";

    let (atom, _) = atom(input).unwrap();

    assert_eq!(atom.render(), input);
}

#[test]
fn test_atom_fields() {
    let input = "!!>=cat/pkg-1.0.0v_alpha1_p20250326-r1:primary/sub=[!a(+),-b(-)=,c?]";

    let (atom, rest) = atom(input).unwrap();

    assert_eq!(rest, input.chars().count());
    assert!(matches!(atom.blocker(), Some(Blocker::Strong)));
    assert!(matches!(atom.version_operator(), Some(VersionOperator::GtEq)));
    assert_eq!(atom.category().get(), "cat");
    assert_eq!(atom.name().get(), "pkg");

    let v = atom.version().unwrap();
    assert_eq!(v.numbers().len(), 3);
    assert_eq!(v.letter(), Some('v'));
    assert_eq!(v.suffixes().len(), 2);
    assert_eq!(v.revision().unwrap().get(), "1");

    let slot = atom.slot().unwrap();
    assert_eq!(slot.primary, "primary");
    assert_eq!(slot.sub.as_deref(), Some("sub"));
    assert!(slot.operator.is_some());

    assert_eq!(atom.usedeps().len(), 3);
}

#[test]
fn test_simple_atom() {
    let (atom, rest) = atom("cat/pkg").unwrap();

    assert_eq!(atom.render(), "cat/pkg");
    assert_eq!(rest, 7);
    assert!(atom.blocker().is_none());
    assert!(atom.version_operator().is_none());
    assert!(atom.version().is_none());
    assert!(atom.slot().is_none());
    assert_eq!(atom.usedeps().len(), 0);
}

#[test]
fn test_category_is_any_nonempty_identifier() {
    let (c, n) = category("ab").unwrap();
    assert_eq!(c.get(), "ab");
    assert_eq!(n, 2);

    let (c, n) = category("a").unwrap();
    assert_eq!(c.get(), "a");
    assert_eq!(n, 1);

    assert!(category("-ab").is_err());

    let (a, _) = atom("a/b").unwrap();
    assert_eq!(a.category().get(), "a");
    assert_eq!(a.render(), "a/b");
}

#[test]
fn test_version_operators() {
    for (input, op) in [
        ("<cat/pkg-1", VersionOperator::Lt),
        ("<=cat/pkg-1", VersionOperator::LtEq),
        ("=cat/pkg-1", VersionOperator::Eq),
        (">cat/pkg-1", VersionOperator::Gt),
        (">=cat/pkg-1", VersionOperator::GtEq),
        ("~cat/pkg-1", VersionOperator::Roughly),
    ] {
        let (a, _) = atom(input).unwrap();
        assert_eq!(a.version_operator(), Some(op));
        assert_eq!(a.render(), input);
    }
}

#[test]
fn test_weak_blocker() {
    let (a, _) = atom("!cat/pkg").unwrap();
    assert!(matches!(a.blocker(), Some(Blocker::Weak)));
}

#[test]
fn test_slot_forms() {
    let (a, _) = atom("cat/pkg:=").unwrap();
    let s = a.slot().unwrap();
    assert_eq!(s.primary, "");
    assert!(s.sub.is_none());
    assert!(s.operator.is_some());
    assert_eq!(a.render(), "cat/pkg:=");

    let (a, _) = atom("cat/pkg:*").unwrap();
    assert_eq!(a.slot().unwrap().primary, "*");

    let (a, _) = atom("cat/pkg:0/1.2=").unwrap();
    let s = a.slot().unwrap();
    assert_eq!(s.primary, "0");
    assert_eq!(s.sub.as_deref(), Some("1.2"));
    assert_eq!(a.render(), "cat/pkg:0/1.2=");
}

#[test]
fn test_slot_commits() {
    // Once the `:` is consumed a malformed slot is a hard failure, not an
    // atom without a slot.
    assert!(atom("cat/pkg:/x").is_err());
    assert!(atom("cat/pkg:").is_err());
}

#[test]
fn test_bracket_commits() {
    // Once the `[` is consumed a malformed USE-dependency list is a hard
    // failure.
    assert!(atom("cat/pkg[").is_err());
    assert!(atom("cat/pkg[a,]").is_err());
    assert!(atom("cat/pkg[a").is_err());
}

#[test]
fn test_round_trip_constructed_atom() {
    // A value built directly through the data model renders canonically and
    // parses back to itself.
    let a = Atom {
        blocker: Some(Blocker::Weak),
        version_operator: Some(VersionOperator::Roughly),
        category: Category("dev-lang".to_string()),
        name: Name("rust".to_string()),
        version: Some(Version {
            numbers: vec![VersionNumber("1".to_string()), VersionNumber("85".to_string())],
            letter: None,
            suffixes: vec![VersionSuffix {
                kind: VersionSuffixKind::Rc,
                number: Some(VersionNumber("2".to_string())),
            }],
            revision: Some(VersionNumber("3".to_string())),
        }),
        slot: None,
        usedeps: Vec::new(),
    };

    let text = a.render();
    assert_eq!(text, "!~dev-lang/rust-1.85_rc2-r3");

    let (b, n) = atom(&text).unwrap();
    assert_eq!(n, text.chars().count());
    assert_eq!(b.render(), text);
    assert_eq!(b.category(), a.category());
    assert_eq!(b.name(), a.name());
    assert_eq!(b.version().unwrap().numbers().len(), 2);
}

#[test]
fn test_boundary_stops_at_unique_version_split() {
    // At `-1b` a version parse succeeds and no later `-<version>` split
    // (ending the input or followed by a `:`) exists, so the name stops
    // there even though more name characters follow the version.
    let (a, n) = atom("cat/a-1b-c:s").unwrap();
    assert_eq!(a.name().get(), "a");
    assert_eq!(a.render(), "cat/a-1b");
    assert_eq!(n, 8);
}

#[test]
fn test_boundary_with_revision_and_slot() {
    let input = "cat/foo-1.0-r1:s";
    let (a, n) = atom(input).unwrap();
    assert_eq!(n, input.len());
    assert_eq!(a.name().get(), "foo");
    assert_eq!(a.version().unwrap().revision().unwrap().get(), "1");
    assert_eq!(a.render(), input);
}
