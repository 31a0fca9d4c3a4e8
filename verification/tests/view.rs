use bevy_stage::view::lod::{parse_lod_name, parse_usize};

#[test]
fn lod_names_parse_whatever_separator_the_pipeline_used() {
    assert_eq!(parse_lod_name("Rock_LOD0"), Some(("Rock", 0)));
    assert_eq!(parse_lod_name("Rock.lod2"), Some(("Rock", 2)));
    assert_eq!(parse_lod_name("Wall-LOD11"), Some(("Wall", 11)));
    // Not LOD markers.
    assert_eq!(parse_lod_name("Rock"), None);
    assert_eq!(parse_lod_name("LOD0"), None);
    assert_eq!(parse_lod_name("Rock_LODx"), None);
}

#[test]
fn lod_marker_is_the_last_one_and_separators_are_all_trimmed() {
    assert_eq!(parse_lod_name("Lod_Tower__LOD3"), Some(("Lod_Tower", 3)));
    assert_eq!(parse_lod_name("Rock lod 1"), None);
    assert_eq!(parse_lod_name("Rock lod+4"), Some(("Rock", 4)));
    assert_eq!(parse_lod_name("__LOD1"), None);
    assert_eq!(parse_lod_name("Rock_LOD"), None);
}

#[test]
fn level_numbers_parse_as_unsigned_integers() {
    let digits: Vec<char> = "x42".chars().collect();
    assert_eq!(parse_usize(&digits, 1), Some(42));
    let plus: Vec<char> = "+7".chars().collect();
    assert_eq!(parse_usize(&plus, 0), Some(7));
    let empty: Vec<char> = "+".chars().collect();
    assert_eq!(parse_usize(&empty, 0), None);
    let huge: Vec<char> = "99999999999999999999999".chars().collect();
    assert_eq!(parse_usize(&huge, 0), None);
    let minus: Vec<char> = "-1".chars().collect();
    assert_eq!(parse_usize(&minus, 0), None);
}
