use pkgatom::useflag::parsers::{usedep, useflag};
use pkgatom::useflag::{Negate, Operator, Sign};

#[test]
fn test_allowed_chars() {
    assert!(useflag("valid").is_ok());

    assert!(useflag("-invalid").is_err());

    assert!(useflag("1valid+_@-").is_ok());
}

#[test]
fn test_useflag_text() {
    let (flag, rest) = useflag("1valid+_@-").unwrap();
    assert_eq!(flag.get(), "1valid+_@-");
    assert_eq!(rest, 10);

    let (flag, rest) = useflag("abc?").unwrap();
    assert_eq!(flag.get(), "abc");
    assert_eq!(rest, 3);
}

#[test]
fn test_usedep_all_fields() {
    let (dep, rest) = usedep("!flag(+)=").unwrap();
    assert_eq!(rest, 9);
    assert!(matches!(dep.negate(), Some(Negate::Exclamation)));
    assert_eq!(dep.useflag().get(), "flag");
    assert!(matches!(dep.sign(), Some(Sign::Plus)));
    assert!(matches!(dep.operator(), Some(Operator::Equal)));
    assert_eq!(dep.render(), "!flag(+)=");
}

#[test]
fn test_usedep_minimal() {
    let (dep, rest) = usedep("a").unwrap();
    assert_eq!(rest, 1);
    assert!(dep.negate().is_none());
    assert!(dep.sign().is_none());
    assert!(dep.operator().is_none());
    assert_eq!(dep.render(), "a");
}

#[test]
fn test_usedep_minus_negate_and_question() {
    let (dep, rest) = usedep("-b(-)?").unwrap();
    assert_eq!(rest, 6);
    assert!(matches!(dep.negate(), Some(Negate::Minus)));
    assert!(matches!(dep.sign(), Some(Sign::Minus)));
    assert!(matches!(dep.operator(), Some(Operator::Question)));
    assert_eq!(dep.render(), "-b(-)?");
}

#[test]
fn test_usedep_rejects_bare_negation() {
    assert!(usedep("-").is_err());
    assert!(usedep("!(+)").is_err());
    assert!(usedep("").is_err());
}
