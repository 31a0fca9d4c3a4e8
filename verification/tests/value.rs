use bevy_stage::tag::value::{normalize_key, TagParams, TagValue};

fn as_f32(value: &TagValue) -> Option<f32> {
    value
        .as_number()
        .map(|text| text.parse::<f64>().expect("a float literal") as f32)
}

fn as_vec3(value: &TagValue) -> Option<[f32; 3]> {
    value.vec3_components().map(|(x, y, z)| {
        [
            x.parse::<f64>().unwrap() as f32,
            y.parse::<f64>().unwrap() as f32,
            z.parse::<f64>().unwrap() as f32,
        ]
    })
}

#[test]
fn bool_accepts_the_spellings_dccs_actually_export() {
    assert_eq!(TagValue::Bool(true).as_bool(), Some(true));
    assert_eq!(TagValue::String("True".into()).as_bool(), Some(true));
    assert_eq!(TagValue::String(" no ".into()).as_bool(), Some(false));
    assert_eq!(TagValue::Number("1.0".into()).as_bool(), Some(true));
    assert_eq!(TagValue::String("maybe".into()).as_bool(), None);
}

#[test]
fn numbers_parse_from_strings_but_strings_do_not_come_from_numbers() {
    assert_eq!(as_f32(&TagValue::String("2.5".into())), Some(2.5));
    // A number is not silently readable as a string: that would turn a
    // type mismatch into a confusing value rather than a clear failure.
    assert_eq!(TagValue::Number("2.5".into()).as_str(), None);
}

#[test]
fn vec3_accepts_both_array_and_object_forms() {
    let list = TagValue::List(vec![
        TagValue::Number("1.0".into()),
        TagValue::Number("2.0".into()),
        TagValue::Number("3.0".into()),
    ]);
    assert_eq!(as_vec3(&list), Some([1.0, 2.0, 3.0]));

    let map = TagValue::Object(TagParams::from_pairs(vec![
        ("x".to_string(), TagValue::Number("1.0".into())),
        ("y".to_string(), TagValue::Number("2.0".into())),
        ("z".to_string(), TagValue::Number("3.0".into())),
    ]));
    assert_eq!(as_vec3(&map), Some([1.0, 2.0, 3.0]));

    let too_short = TagValue::List(vec![TagValue::Number("1.0".into())]);
    assert_eq!(as_vec3(&too_short), None);
}

#[test]
fn normalization_collapses_dcc_and_rust_naming_conventions() {
    for spelling in ["SpawnPoint", "spawn_point", "spawn-point", "Spawn Point"] {
        assert_eq!(normalize_key(spelling), "spawnpoint", "{spelling}");
    }
    // Distinct tags must stay distinct.
    assert_ne!(normalize_key("spawn_point"), normalize_key("spawn_points"));
}

#[test]
fn a_normalized_key_is_its_own_normal_form() {
    for raw in ["Spawn Point.001", "KILL-volume", "a_b_c", "", "Ünïcode-Name"] {
        let once = normalize_key(raw);
        assert_eq!(normalize_key(&once), once);
    }
    assert_eq!(normalize_key("Ünïcode-Name"), "ncodename");
}

#[test]
fn number_literals_read_as_false_exactly_when_they_round_to_zero() {
    let half = "2.4703282292062327208828439643411068618252990130716238221279284125033775363510437593264991818081799618989828234772285886546332835517796989819938739800539093906315035659515570226392290858392449105184435931802849936536152500319370457678249219365623669863658480757001585769269903706311928279558551332927834338409351978015531246597263579574622766465272827220056374006485499977096599470454020828166226237857393450736339007967761930577506740176324673600968951340535537458516661134223766678604162159680461914467291840300530057530849048765391711386591646239524912623653881879636239373280423891018672348497668235089863388587925628302755995657524455507255189313690836254779186948667994968324049705821028513185451396213837722826145437693412532098591327667236328125e-324";
    let above_half = "2.4703282292062327208828439643411068618252990130716238221279284125033775363510437593264991818081799618989828234772285886546332835517796989819938739800539093906315035659515570226392290858392449105184435931802849936536152500319370457678249219365623669863658480757001585769269903706311928279558551332927834338409351978015531246597263579574622766465272827220056374006485499977096599470454020828166226237857393450736339007967761930577506740176324673600968951340535537458516661134223766678604162159680461914467291840300530057530849048765391711386591646239524912623653881879636239373280423891018672348497668235089863388587925628302755995657524455507255189313690836254779186948667994968324049705821028513185451396213837722826145437693412532098591327667236328126e-324";
    let cases = [
        "1e-400",
        "2e-324",
        "3e-324",
        "5e-324",
        "1e400",
        "0.0",
        "-0",
        "1",
        "0.000",
        "-2.5E-3",
        "1e-99999999999999999999999",
        "1e99999999999999999999999",
        "0e999999999",
        "0.00000000000000000000000000000000000000001e-290",
        half,
        above_half,
    ];
    for text in cases {
        let expected = text.parse::<f64>().expect("a float literal") != 0.0;
        assert_eq!(
            TagValue::Number(text.to_string()).as_bool(),
            Some(expected),
            "{text}"
        );
    }
    assert_eq!(TagValue::Number("1e-400".into()).as_bool(), Some(false));
    assert_eq!(TagValue::Number(half.into()).as_bool(), Some(false));
    assert_eq!(TagValue::Number(above_half.into()).as_bool(), Some(true));
    assert_eq!(TagValue::Number("5e-324".into()).as_bool(), Some(true));
}
