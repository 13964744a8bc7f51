use watch_index::Deserialize;
use watch_index::Lit;
use watch_index::Rel;

#[test]
fn decodes_the_two_known_tags() {
    let d = Deserialize::new();
    assert_eq!(d.relation(0), Some(Rel::Leq));
    assert_eq!(d.relation(1), Some(Rel::Geq));
}

#[test]
fn rejects_every_unknown_tag() {
    let d = Deserialize::new();
    for tag in 2..=255u8 {
        assert_eq!(d.relation(tag), None);
    }
}

#[test]
fn decodes_a_full_triple() {
    let d = Deserialize::new();
    assert_eq!(
        d.literal(3, 0, -7),
        Some(Lit { var: 3, rel: Rel::Leq, threshold: -7 })
    );
    assert_eq!(
        d.literal(0, 1, i64::MAX),
        Some(Lit { var: 0, rel: Rel::Geq, threshold: i64::MAX })
    );
    assert_eq!(d.literal(3, 9, -7), None);
}

#[test]
fn default_decoder_decodes() {
    let d = Deserialize::default();
    assert_eq!(d.literal(1, 1, 2), Some(Lit::geq(1, 2)));
}

#[test]
fn constructors_build_the_stated_literal() {
    assert_eq!(Lit::leq(5, -1), Lit { var: 5, rel: Rel::Leq, threshold: -1 });
    assert_eq!(Lit::geq(5, -1), Lit { var: 5, rel: Rel::Geq, threshold: -1 });
}

#[test]
fn entailment_direction() {
    // Tighter upper bounds entail looser ones.
    assert!(Lit::leq(0, 3).entails(Lit::leq(0, 5)));
    assert!(!Lit::leq(0, 5).entails(Lit::leq(0, 3)));
    // Tighter lower bounds entail looser ones.
    assert!(Lit::geq(0, 5).entails(Lit::geq(0, 3)));
    assert!(!Lit::geq(0, 3).entails(Lit::geq(0, 5)));
    // Reflexive; never across relations or variables.
    assert!(Lit::leq(2, 4).entails(Lit::leq(2, 4)));
    assert!(!Lit::leq(0, 3).entails(Lit::geq(0, 3)));
    assert!(!Lit::geq(0, 3).entails(Lit::leq(0, 3)));
    assert!(!Lit::leq(0, 3).entails(Lit::leq(1, 3)));
}
