use bevy_stage::loader::{bake_node, worth_baking};
use bevy_stage::persist::StageNodeId;
use bevy_stage::plugin::StageTagConfig;
use bevy_stage::tag::component::StageTags;
use bevy_stage::tag::parse::{build_stage_tags, TagParseError, DEFAULT_DISCRIMINATOR};
use bevy_stage::tag::registry::StageTagRegistry;
use bevy_stage::text::TextSet;

fn known() -> TextSet {
    let mut registry = StageTagRegistry::new();
    registry.register("spawn_point");
    registry.register_marker("Kill Volume");
    registry.known_names()
}

#[test]
fn the_default_config_reads_stage_tag_with_no_budget() {
    let config = StageTagConfig::default();
    assert_eq!(config.discriminator, DEFAULT_DISCRIMINATOR);
    assert_eq!(config.discriminator, "stage_tag");
    assert_eq!(config.resolve_budget, 0);
}

#[test]
fn known_names_are_normalized() {
    let names = known();
    assert!(names.contains("spawnpoint"));
    assert!(names.contains("killvolume"));
    assert!(!names.contains("spawn_point"));
}

#[test]
fn plain_geometry_is_not_worth_baking() {
    let (tags, error) = build_stage_tags("Rock.004", None, DEFAULT_DISCRIMINATOR);
    assert!(error.is_none());
    assert!(!worth_baking(&tags, &known()));
    let baked = bake_node("Rock.004", None, 7, DEFAULT_DISCRIMINATOR, &known());
    assert_eq!(baked.node_id, None);
    assert_eq!(baked.tags.base_name, "Rock");
}

#[test]
fn a_node_named_like_a_registered_tag_is_baked() {
    let tags = StageTags {
        base_name: "Spawn Point".into(),
        ..Default::default()
    };
    assert!(worth_baking(&tags, &known()));
    let baked = bake_node("SpawnPoint.002", None, 12, DEFAULT_DISCRIMINATOR, &known());
    assert_eq!(baked.node_id, Some(StageNodeId(12)));
}

#[test]
fn any_metadata_makes_a_node_worth_baking() {
    let baked = bake_node(
        "Crate",
        Some(r#"{"mass": 3}"#),
        4,
        DEFAULT_DISCRIMINATOR,
        &known(),
    );
    assert_eq!(baked.node_id, Some(StageNodeId(4)));
    assert!(baked.error.is_none());

    let inline = bake_node("Crate[heavy]", None, 5, DEFAULT_DISCRIMINATOR, &known());
    assert_eq!(inline.node_id, Some(StageNodeId(5)));
}

#[test]
fn bad_extras_are_reported_and_the_name_still_counts() {
    let baked = bake_node("SpawnPoint", Some("{oops"), 9, DEFAULT_DISCRIMINATOR, &known());
    assert!(matches!(baked.error, Some(TagParseError::InvalidJson(_))));
    assert!(baked.tags.extras.is_empty());
    assert_eq!(baked.node_id, Some(StageNodeId(9)));

    let unnamed = bake_node("Rock", Some("[1, 2]"), 10, DEFAULT_DISCRIMINATOR, &known());
    assert!(matches!(unnamed.error, Some(TagParseError::NotAnObject(_))));
    assert_eq!(unnamed.node_id, None);
}
