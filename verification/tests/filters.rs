use cjseq::filter::{drawn_selects, filter_cotype, filter_random, keeps, line_passes};
use cjseq::{CityJSONFeature, CityObject, CjseqError};

fn feature(thetype: &str) -> CityJSONFeature {
    let mut f = CityJSONFeature::new();
    f.id = "id-1".to_string();
    f.vertices = vec![vec![5, 5, 0]];
    f.add_co(
        "id-1".to_string(),
        CityObject::new(thetype.to_string(), None, None, None, None, None, None, None),
    );
    f
}

#[test]
fn cotype_keeps_the_feature_of_that_type() {
    let building = "Building".to_string();
    assert_eq!(filter_cotype(&feature("Building"), &building), Ok(true));
    assert_eq!(filter_cotype(&feature("Bridge"), &building), Ok(false));
    assert!(keeps(filter_cotype(&feature("Building"), &building).unwrap(), false));
    assert!(!keeps(filter_cotype(&feature("Building"), &building).unwrap(), true));
    assert!(keeps(filter_cotype(&feature("Bridge"), &building).unwrap(), true));
}

#[test]
fn cotype_reports_a_feature_without_its_object() {
    let mut f = feature("Building");
    f.id = "other".to_string();
    assert_eq!(
        filter_cotype(&f, &"Building".to_string()),
        Err(CjseqError::MissingObject("other".to_string()))
    );
}

#[test]
fn exclude_turns_the_choice_round() {
    assert!(keeps(true, false));
    assert!(!keeps(false, false));
    assert!(!keeps(true, true));
    assert!(keeps(false, true));
}

#[test]
fn the_header_always_passes() {
    assert!(line_passes(0, false, false));
    assert!(line_passes(0, true, true));
    assert!(line_passes(3, true, false));
    assert!(!line_passes(3, false, false));
    assert!(!line_passes(1, true, true));
}

#[test]
fn only_one_selects() {
    assert!(drawn_selects(1));
    assert!(!drawn_selects(2));
    assert!(!drawn_selects(0));
}

#[test]
fn a_factor_of_one_keeps_every_feature() {
    for _ in 0..50 {
        assert!(filter_random(false, 1));
        assert!(!filter_random(true, 1));
    }
}

#[test]
fn a_large_factor_keeps_few_features() {
    let mut kept = 0;
    for _ in 0..2000 {
        if filter_random(false, 1000) {
            kept += 1;
        }
    }
    assert!(kept < 100);
}
