use bevy_stage::tag::component::{StageTag, StageTags, TagSource};
use bevy_stage::tag::registry::{resolve_tags, StageTagRegistry};
use bevy_stage::tag::resolve::StageTagQueue;
use bevy_stage::tag::value::{TagParams, TagValue};

fn registry() -> StageTagRegistry {
    let mut registry = StageTagRegistry::new();
    registry.register("spawn_point");
    registry
}

#[test]
fn a_node_named_like_a_tag_resolves_with_no_extras_at_all() {
    let tags = StageTags {
        base_name: "SpawnPoint".into(),
        ..Default::default()
    };
    let resolved = resolve_tags(&tags, &registry());

    assert_eq!(resolved.tags.len(), 1);
    assert_eq!(resolved.tags[0].key, "spawn_point");
    assert_eq!(resolved.tags[0].source, TagSource::Name);
}

#[test]
fn the_explicit_channel_outranks_the_name() {
    // Same node tagged both ways with different params: the discriminator
    // is what the artist typed deliberately, so it must win.
    let tags = StageTags {
        base_name: "SpawnPoint".into(),
        name_params: TagParams::from_pairs(vec![(
            "team".to_string(),
            TagValue::String("from_name".into()),
        )]),
        tags: vec![StageTag {
            key: "spawn_point".into(),
            params: TagParams::from_pairs(vec![(
                "team".to_string(),
                TagValue::String("from_extras".into()),
            )]),
            source: TagSource::Extras,
        }],
        ..Default::default()
    };
    let resolved = resolve_tags(&tags, &registry());

    assert_eq!(resolved.tags.len(), 1, "the tag must not be applied twice");
    assert_eq!(resolved.tags[0].source, TagSource::Extras);
    assert_eq!(resolved.tags[0].params.get_str("team"), Some("from_extras"));
}

#[test]
fn resolution_canonicalizes_to_the_registered_spelling() {
    let tags = StageTags {
        base_name: "spawn-point".into(),
        ..Default::default()
    };
    let resolved = resolve_tags(&tags, &registry());
    // Game code should only ever have to compare against one string.
    assert_eq!(resolved.tags[0].key, "spawn_point");
}

#[test]
fn a_misspelled_tag_is_reported_rather_than_dropped() {
    let tags = StageTags {
        tags: vec![StageTag::new("spwan_point".to_string(), TagSource::Extras)],
        ..Default::default()
    };
    let resolved = resolve_tags(&tags, &registry());

    assert!(resolved.tags.is_empty());
    assert_eq!(resolved.unknown, vec!["spwan_point".to_string()]);
}

#[test]
fn an_ordinary_node_name_is_not_an_unknown_tag() {
    let tags = StageTags {
        base_name: "Ground".into(),
        ..Default::default()
    };
    let resolved = resolve_tags(&tags, &registry());

    assert!(resolved.tags.is_empty());
    assert!(
        resolved.unknown.is_empty(),
        "most nodes are just geometry and must not generate warnings"
    );
}

#[test]
fn one_node_can_resolve_several_distinct_tags() {
    let mut registry = registry();
    registry.register_marker("anchor");
    let tags = StageTags {
        tags: vec![
            StageTag::new("anchor".to_string(), TagSource::Extras),
            StageTag::new("spawn_point".to_string(), TagSource::Extras),
        ],
        ..Default::default()
    };
    let resolved = resolve_tags(&tags, &registry);
    assert_eq!(resolved.tags.len(), 2);
}

#[test]
fn the_queue_respects_its_budget_and_keeps_the_rest() {
    let mut queue = StageTagQueue::new();
    for i in 0..5u32 {
        queue.push(i);
    }

    assert_eq!(queue.take(2).len(), 2);
    assert_eq!(queue.len(), 3, "the rest must survive to the next frame");

    // A zero budget means "no limit", which is the right default for games
    // that would rather have one hitch than a tag popping in late.
    assert_eq!(queue.take(0).len(), 3);
    assert!(queue.is_empty());
}

#[test]
fn any_spelling_of_a_registered_name_resolves_the_same() {
    let registry = registry();
    let mut results = Vec::new();
    for name in ["SpawnPoint", "spawn_point", "Spawn Point", "spawn-point"] {
        let tags = StageTags {
            base_name: name.into(),
            ..Default::default()
        };
        results.push(resolve_tags(&tags, &registry));
    }
    for resolved in &results {
        assert_eq!(resolved, &results[0]);
        assert_eq!(resolved.tags[0].key, "spawn_point");
        assert!(resolved.unknown.is_empty());
    }
}

#[test]
fn cloning_tags_keeps_everything() {
    let tags = StageTags {
        base_name: "Door".into(),
        name_params: TagParams::from_pairs(vec![("locked".to_string(), TagValue::Bool(true))]),
        tags: vec![StageTag::new("door".to_string(), TagSource::Extras)],
        ..Default::default()
    };
    assert_eq!(tags.clone(), tags);
}
