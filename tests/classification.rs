use surfaces_comparison::classification::{consensus, Classification, ClassifyError, Tolerance};

use Classification::{Different, Opposite, Same};

#[test]
fn codes_are_one_zero_minus_one() {
    assert_eq!(Same.code(), 1);
    assert_eq!(Different.code(), 0);
    assert_eq!(Opposite.code(), -1);
}

#[test]
fn same_is_tested_before_opposite() {
    assert_eq!(Classification::decide(true, true), Same);
    assert_eq!(Classification::decide(true, false), Same);
    assert_eq!(Classification::decide(false, true), Opposite);
    assert_eq!(Classification::decide(false, false), Different);
}

#[test]
fn mode_dynamic_selects_relative_tolerance() {
    assert_eq!(Tolerance::from_mode(&"Dynamic".to_string()), Tolerance::Dynamic);
    assert_eq!(Tolerance::from_mode(&"Fixed".to_string()), Tolerance::Fixed);
    assert_eq!(Tolerance::from_mode(&"dynamic".to_string()), Tolerance::Fixed);
    assert_eq!(Tolerance::from_mode(&String::new()), Tolerance::Fixed);
}

#[test]
fn consensus_unanimous_same() {
    assert_eq!(consensus(&vec![Some(Same), None, Some(Same)]), Ok(Same));
}

#[test]
fn consensus_unanimous_opposite() {
    assert_eq!(consensus(&vec![None, Some(Opposite), Some(Opposite)]), Ok(Opposite));
}

#[test]
fn consensus_disagreement_is_different() {
    assert_eq!(consensus(&vec![Some(Same), Some(Opposite)]), Ok(Different));
    assert_eq!(consensus(&vec![Some(Opposite), None, Some(Different)]), Ok(Different));
}

#[test]
fn consensus_first_different_stays_different() {
    assert_eq!(consensus(&vec![Some(Different), Some(Different)]), Ok(Different));
}

#[test]
fn consensus_without_informative_position_is_fault() {
    assert_eq!(consensus(&vec![None, None, None]), Err(ClassifyError::NoInformativeCoefficients));
    assert_eq!(consensus(&Vec::new()), Err(ClassifyError::NoInformativeCoefficients));
}
