use rust_canto::yale::{jyutping_to_yale, jyutping_to_yale_vec};
use rust_canto::{to_yale_diacritics, to_yale_numeric};

#[test]
fn test_yale_numeric() {
    // initials
    assert_eq!(jyutping_to_yale("zi1", false), Some("ji1".into()));
    assert_eq!(jyutping_to_yale("ci1", false), Some("chi1".into()));
    assert_eq!(jyutping_to_yale("ji1", false), Some("yi1".into()));
    // finals
    assert_eq!(jyutping_to_yale("keoi5", false), Some("keui5".into()));
    assert_eq!(jyutping_to_yale("heoi3", false), Some("heui3".into()));
    // bare aa becomes a
    assert_eq!(jyutping_to_yale("aa3", false), Some("a3".into()));
    // aa finals stay intact
    assert_eq!(jyutping_to_yale("saan1", false), Some("saan1".into()));
    assert_eq!(jyutping_to_yale("baak3", false), Some("baak3".into()));
    assert_eq!(jyutping_to_yale("haam4", false), Some("haam4".into()));
    // several syllables
    assert_eq!(
        jyutping_to_yale("gwong2 dung1 waa2", false),
        Some("gwong2 dung1 wa2".into())
    );
}

#[test]
fn test_yale_diacritics() {
    // tone 3: no mark
    assert_eq!(jyutping_to_yale("si3", true), Some("si".into()));
    assert_eq!(jyutping_to_yale("heoi3", true), Some("heui".into()));
    // tone 1: macron
    assert_eq!(jyutping_to_yale("si1", true), Some("sī".into()));
    assert_eq!(jyutping_to_yale("jat1", true), Some("yāt".into()));
    // tone 2: acute
    assert_eq!(jyutping_to_yale("hou2", true), Some("hóu".into()));
    // tone 4: grave and h
    assert_eq!(jyutping_to_yale("haam4", true), Some("hàahm".into()));
    // tone 5: acute and h after the nucleus
    assert_eq!(jyutping_to_yale("ngo5", true), Some("ngóh".into()));
    // tone 6: no mark, h after the nucleus
    assert_eq!(jyutping_to_yale("hai6", true), Some("haih".into()));
    assert_eq!(jyutping_to_yale("hok6", true), Some("hohk".into()));
    assert_eq!(jyutping_to_yale("sap6", true), Some("sahp".into()));
    // aa finals with diacritics
    assert_eq!(jyutping_to_yale("saan1", true), Some("sāan".into()));
    assert_eq!(jyutping_to_yale("baak3", true), Some("baak".into()));
}

#[test]
fn numeric_entry_point_converts_phrase() {
    assert_eq!(to_yale_numeric("gwong2 dung1 waa2"), "gwong2 dung1 wa2");
}

#[test]
fn diacritic_entry_point_examples() {
    assert_eq!(to_yale_diacritics("ngo5"), "ngóh");
    assert_eq!(to_yale_diacritics("hok6"), "hohk");
    assert_eq!(to_yale_diacritics("aa3"), "a");
}

#[test]
fn diacritics_are_composed() {
    // the macron is folded into one precomposed character
    let r = to_yale_diacritics("si1");
    assert_eq!(r.chars().count(), 2);
}

#[test]
fn invalid_syllables_are_dropped() {
    assert_eq!(jyutping_to_yale("hou nei5", false), Some("nei5".into()));
    assert_eq!(jyutping_to_yale("hou nei", false), None);
    assert_eq!(jyutping_to_yale("", true), None);
    assert_eq!(jyutping_to_yale("   ", true), None);
    assert_eq!(to_yale_numeric("abc"), "");
    assert_eq!(to_yale_diacritics(""), "");
}

#[test]
fn whitespace_runs_split_syllables() {
    assert_eq!(
        jyutping_to_yale("  nei5\t hou2  ", false),
        Some("nei5 hou2".into())
    );
}

#[test]
fn finals_are_rewritten_in_order() {
    assert_eq!(jyutping_to_yale("zoeng1", false), Some("jeung1".into()));
    assert_eq!(jyutping_to_yale("joek6", false), Some("yeuk6".into()));
    assert_eq!(jyutping_to_yale("hoe1", false), Some("heu1".into()));
    assert_eq!(jyutping_to_yale("ceot1", false), Some("cheut1".into()));
    assert_eq!(jyutping_to_yale("kwai4", false), Some("kwai4".into()));
    assert_eq!(jyutping_to_yale("ngaa4", false), Some("nga4".into()));
    assert_eq!(jyutping_to_yale("m4", false), Some("m4".into()));
}

#[test]
fn low_tones_put_h_before_the_coda() {
    assert_eq!(jyutping_to_yale("jan4", true), Some("yàhn".into()));
    assert_eq!(jyutping_to_yale("gwong2", true), Some("gwóng".into()));
    assert_eq!(jyutping_to_yale("keoi5", true), Some("kéuih".into()));
    assert_eq!(jyutping_to_yale("m4", true), Some("mh".into()));
}

#[test]
fn per_syllable_forms() {
    assert_eq!(
        jyutping_to_yale_vec("nei5 hou2 aa3"),
        Some(vec!["néih".to_string(), "hóu".to_string(), "a".to_string()])
    );
    assert_eq!(
        jyutping_to_yale_vec("nei5 x hou2"),
        Some(vec!["néih".to_string(), "hóu".to_string()])
    );
    assert_eq!(jyutping_to_yale_vec("x y"), None);
    assert_eq!(jyutping_to_yale_vec(""), None);
}

#[test]
fn conversion_is_repeatable() {
    let a = to_yale_diacritics("gwong2 dung1 waa2");
    let b = to_yale_diacritics("gwong2 dung1 waa2");
    assert_eq!(a, b);
    assert_eq!(to_yale_numeric("keoi5"), to_yale_numeric("keoi5"));
}
