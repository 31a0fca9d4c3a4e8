use bevy_stage::tag::component::TagSource;
use bevy_stage::tag::parse::{
    build_stage_tags, extras_of, parse_extras, parse_node_name, strip_duplicate_suffix,
    TagParseError,
    DEFAULT_DISCRIMINATOR,
};
use bevy_stage::tag::value::{TagParams, TagValue};

/// A parameter read as an `f32`, the way the plugin's float accessors read it.
fn get_f32(params: &TagParams, key: &str) -> Option<f32> {
    params
        .get_number(key)
        .map(|text| text.parse::<f64>().expect("a float literal") as f32)
}

/// A value read as three `f32` coordinates.
fn as_vec3(value: &TagValue) -> Option<[f32; 3]> {
    value.vec3_components().map(|(x, y, z)| {
        [
            x.parse::<f64>().unwrap() as f32,
            y.parse::<f64>().unwrap() as f32,
            z.parse::<f64>().unwrap() as f32,
        ]
    })
}

#[test]
fn blender_duplicate_suffixes_are_stripped() {
    assert_eq!(strip_duplicate_suffix("SpawnPoint.001"), "SpawnPoint");
    assert_eq!(strip_duplicate_suffix("SpawnPoint"), "SpawnPoint");
    // A dot followed by non-digits is part of the name, not a suffix.
    assert_eq!(strip_duplicate_suffix("Props.Crate"), "Props.Crate");
    // A leading dot is not a suffix marker either.
    assert_eq!(strip_duplicate_suffix(".001"), ".001");
}

#[test]
fn inline_name_params_parse_with_types() {
    let (base, params) = parse_node_name("SpawnPoint[team=red,weight=2.5,primary].001");
    assert_eq!(base, "SpawnPoint");
    assert_eq!(params.get_str("team"), Some("red"));
    assert_eq!(get_f32(&params, "weight"), Some(2.5));
    // A bare word is a flag.
    assert_eq!(params.get_bool("primary"), Some(true));
}

#[test]
fn quoting_forces_a_numeric_looking_value_to_stay_a_string() {
    let (_, params) = parse_node_name(r#"Sign[label="12"]"#);
    assert_eq!(params.get_str("label"), Some("12"));
}

#[test]
fn a_plain_name_yields_no_params() {
    let (base, params) = parse_node_name("Ground");
    assert_eq!(base, "Ground");
    assert!(params.is_empty());
}

#[test]
fn discriminator_promotes_siblings_to_params() {
    let json = r#"{"stage_tag": "spawn_point", "team": "blue", "weight": 3}"#;
    let (extras, tags) = parse_extras(json, DEFAULT_DISCRIMINATOR).unwrap();

    assert_eq!(tags.len(), 1);
    assert_eq!(tags[0].key, "spawn_point");
    assert_eq!(tags[0].source, TagSource::Extras);
    assert_eq!(tags[0].params.get_str("team"), Some("blue"));
    assert_eq!(get_f32(&tags[0].params, "weight"), Some(3.0));
    // The discriminator itself is not a parameter of its own tag.
    assert!(!tags[0].params.contains("stage_tag"));
    // ...but the raw extras keep everything, including the discriminator.
    assert!(extras.contains("stage_tag"));
}

#[test]
fn one_node_can_carry_several_tags() {
    let json = r#"{"stage_tag": ["anchor", "portal"], "id": "north"}"#;
    let (_, tags) = parse_extras(json, DEFAULT_DISCRIMINATOR).unwrap();

    assert_eq!(tags.len(), 2);
    assert_eq!(tags[0].key, "anchor");
    assert_eq!(tags[1].key, "portal");
    // Shared siblings reach both tags.
    assert_eq!(tags[1].params.get_str("id"), Some("north"));
}

#[test]
fn extras_without_a_discriminator_still_parse() {
    let json = r#"{"SpawnPoint": "(team: \"red\")"}"#;
    let (extras, tags) = parse_extras(json, DEFAULT_DISCRIMINATOR).unwrap();

    // No tags, but the property is preserved for the reflection channel to
    // resolve later against the type registry.
    assert!(tags.is_empty());
    assert_eq!(extras.get_str("SpawnPoint"), Some(r#"(team: "red")"#));
}

#[test]
fn malformed_extras_are_reported_not_panicked() {
    assert!(matches!(
        parse_extras("{not json", DEFAULT_DISCRIMINATOR),
        Err(TagParseError::InvalidJson(_))
    ));
    assert_eq!(
        parse_extras("[1,2,3]", DEFAULT_DISCRIMINATOR),
        Err(TagParseError::NotAnObject("list"))
    );
    assert_eq!(
        parse_extras(r#"{"stage_tag": 5}"#, DEFAULT_DISCRIMINATOR),
        Err(TagParseError::BadDiscriminator {
            discriminator: DEFAULT_DISCRIMINATOR.to_string(),
            found: "number",
        })
    );
}

#[test]
fn a_bad_extras_blob_still_yields_usable_name_data() {
    // The level should survive one artist's typo: the node keeps its
    // identity and the error is surfaced separately.
    let (tags, error) = build_stage_tags("Door.002", Some("{oops"), DEFAULT_DISCRIMINATOR);
    assert_eq!(tags.base_name, "Door");
    assert!(error.is_some());
}

#[test]
fn nested_objects_and_lists_survive_the_round_trip() {
    let json =
        r#"{"stage_tag": "sector", "bounds": {"x": 1, "y": 2, "z": 3}, "tags": ["a", "b"]}"#;
    let (_, tags) = parse_extras(json, DEFAULT_DISCRIMINATOR).unwrap();
    assert_eq!(
        tags[0].params.get("bounds").and_then(as_vec3),
        Some([1.0, 2.0, 3.0])
    );
    assert_eq!(tags[0].params.get("tags").unwrap().as_list().unwrap().len(), 2);
}

#[test]
fn parse_errors_read_as_sentences() {
    assert_eq!(
        TagParseError::NotAnObject("list").message(),
        "extras must be a JSON object, found list"
    );
    assert_eq!(
        TagParseError::BadDiscriminator {
            discriminator: DEFAULT_DISCRIMINATOR.to_string(),
            found: "number",
        }
        .message(),
        "`stage_tag` must be a string or list of strings, found number"
    );
    match parse_extras("{not json", DEFAULT_DISCRIMINATOR) {
        Err(error @ TagParseError::InvalidJson(_)) => {
            assert!(error.message().starts_with("extras is not valid JSON: "))
        }
        other => panic!("expected invalid JSON, got {other:?}"),
    }
}

#[test]
fn every_duplicate_suffix_names_the_same_object() {
    for name in ["Crate.001", "Crate.002", "Crate.117", "Crate"] {
        assert_eq!(strip_duplicate_suffix(name), "Crate");
    }
    // Not a duplicate suffix: letters, an empty suffix, or nothing before it.
    assert_eq!(strip_duplicate_suffix("Crate.v2"), "Crate.v2");
    assert_eq!(strip_duplicate_suffix("Crate."), "Crate.");
    assert_eq!(strip_duplicate_suffix(".001"), ".001");
    assert_eq!(strip_duplicate_suffix("Crate.001  "), "Crate");
}

#[test]
fn every_json_kind_lands_in_its_own_variant() {
    let (extras, tags) = parse_extras(
        r#"{"a": null, "b": true, "c": 1.5, "d": "x", "e": [1, "y"], "f": {"g": 2}, "h": -3}"#,
        DEFAULT_DISCRIMINATOR,
    )
    .unwrap();
    assert!(tags.is_empty());
    assert_eq!(extras.len(), 7);
    assert!(extras.get("a").unwrap().is_null());
    assert_eq!(extras.get("b"), Some(&TagValue::Bool(true)));
    assert_eq!(extras.get("c"), Some(&TagValue::Number("1.5".to_string())));
    assert_eq!(extras.get("d"), Some(&TagValue::String("x".to_string())));
    assert_eq!(
        extras.get("e"),
        Some(&TagValue::List(vec![
            TagValue::Number("1".to_string()),
            TagValue::String("y".to_string()),
        ]))
    );
    let nested = extras.get("f").unwrap().as_map().unwrap();
    assert_eq!(nested.get("g"), Some(&TagValue::Number("2".to_string())));
    assert_eq!(extras.get("h"), Some(&TagValue::Number("-3".to_string())));
    assert_eq!(extras.get("f").unwrap().kind_name(), "map");
    assert_eq!(extras.get("e").unwrap().kind_name(), "list");
}

#[test]
fn a_bare_word_in_brackets_is_a_flag() {
    let (base, params) = parse_node_name("Door[locked]");
    assert_eq!(base, "Door");
    assert_eq!(params.len(), 1);
    assert_eq!(params.get("locked"), Some(&TagValue::Bool(true)));
    assert_eq!(params.get_bool("locked"), Some(true));
}

#[test]
fn a_parsed_document_is_read_without_the_parser() {
    let doc = TagValue::Object(TagParams::from_pairs(vec![
        (
            "stage_tag".to_string(),
            TagValue::List(vec![
                TagValue::String("door".into()),
                TagValue::String("lamp".into()),
            ]),
        ),
        ("locked".to_string(), TagValue::Bool(true)),
    ]));
    let (extras, tags) = extras_of(doc, DEFAULT_DISCRIMINATOR).unwrap();
    assert_eq!(extras.len(), 2);
    assert_eq!(tags.len(), 2);
    assert_eq!(tags[1].key, "lamp");
    assert_eq!(tags[1].params.get_bool("locked"), Some(true));
    assert!(!tags[0].params.contains("stage_tag"));

    assert_eq!(
        extras_of(TagValue::Bool(true), DEFAULT_DISCRIMINATOR),
        Err(TagParseError::NotAnObject("bool"))
    );
    let bad = TagValue::Object(TagParams::from_pairs(vec![(
        "stage_tag".to_string(),
        TagValue::List(vec![TagValue::String("a".into()), TagValue::Null]),
    )]));
    assert_eq!(
        extras_of(bad, DEFAULT_DISCRIMINATOR),
        Err(TagParseError::BadDiscriminator {
            discriminator: DEFAULT_DISCRIMINATOR.to_string(),
            found: "null",
        })
    );
}

#[test]
fn a_flag_too_small_to_hold_reads_as_false() {
    let (_, params) = parse_node_name("Door[x=1e-400,y=4e-324]");
    assert_eq!(params.get_bool("x"), Some(false));
    assert_eq!(params.get_bool("y"), Some(true));
}
