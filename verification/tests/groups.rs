use bevy_stage::tag::component::{StageTag, StageTags, TagSource};
use bevy_stage::tag::registry::{resolve_tags, StageTagRegistry};
use bevy_stage::tag::resolve::{found_events, node_actions, NodeAction, UnknownTags};
use bevy_stage::tag::value::{TagParams, TagValue};
use bevy_stage::view::{lod_groups, LodCandidate};

fn candidate(parent: Option<u64>, name: &str, entity: u32) -> LodCandidate<u32> {
    LodCandidate {
        parent,
        name: name.to_string(),
        entity,
    }
}

#[test]
fn lod_siblings_are_grouped_and_ordered_by_level() {
    let groups = lod_groups(&vec![
        candidate(Some(1), "Rock_LOD2", 12),
        candidate(Some(1), "Rock_LOD0", 10),
        candidate(Some(1), "Tree", 20),
        candidate(Some(1), "Rock_LOD1", 11),
    ]);
    assert_eq!(groups.len(), 1);
    assert_eq!(groups[0].parent, Some(1));
    assert_eq!(groups[0].base, "Rock");
    assert_eq!(groups[0].members, vec![(0, 10), (1, 11), (2, 12)]);
}

#[test]
fn a_lone_lod0_is_not_a_group() {
    let groups = lod_groups(&vec![
        candidate(None, "Statue_LOD0", 1),
        candidate(None, "Bush.lod0", 2),
        candidate(None, "Bush.lod1", 3),
    ]);
    assert_eq!(groups.len(), 1);
    assert_eq!(groups[0].base, "Bush");
    assert_eq!(groups[0].members, vec![(0, 2), (1, 3)]);
}

#[test]
fn the_same_name_under_another_parent_is_another_group() {
    let groups = lod_groups(&vec![
        candidate(Some(1), "Rock_LOD0", 1),
        candidate(Some(2), "Rock_LOD0", 2),
        candidate(Some(1), "Rock_LOD1", 3),
        candidate(Some(2), "Rock_LOD1", 4),
        candidate(None, "Rock_LOD1", 5),
    ]);
    assert_eq!(groups.len(), 2);
    assert_eq!(groups[0].parent, Some(1));
    assert_eq!(groups[0].members, vec![(0, 1), (1, 3)]);
    assert_eq!(groups[1].parent, Some(2));
    assert_eq!(groups[1].members, vec![(0, 2), (1, 4)]);
}

#[test]
fn members_of_equal_level_keep_their_order() {
    let groups = lod_groups(&vec![
        candidate(None, "Wall-LOD1", 1),
        candidate(None, "Wall_LOD1", 2),
        candidate(None, "Wall.LOD0", 3),
    ]);
    assert_eq!(groups.len(), 1);
    assert_eq!(groups[0].members, vec![(0, 3), (1, 1), (1, 2)]);
}

#[test]
fn events_list_reflected_components_then_resolved_tags() {
    let mut registry = StageTagRegistry::new();
    registry.register("spawn_point");
    let tags = StageTags {
        base_name: "SpawnPoint".into(),
        name_params: TagParams::from_pairs(vec![(
            "team".to_string(),
            TagValue::String("red".into()),
        )]),
        tags: vec![StageTag::new("mystery".to_string(), TagSource::Extras)],
        ..Default::default()
    };
    let resolved = resolve_tags(&tags, &registry);
    assert_eq!(resolved.unknown, vec!["mystery".to_string()]);

    let events = found_events(42u64, &["Health".to_string()], resolved);
    assert_eq!(events.len(), 2);
    assert_eq!(events[0].entity, 42);
    assert_eq!(events[0].key, "Health");
    assert_eq!(events[0].source, TagSource::Reflection);
    assert!(events[0].params.is_empty());
    assert_eq!(events[1].key, "spawn_point");
    assert_eq!(events[1].source, TagSource::Name);
    assert_eq!(events[1].params.get_str("team"), Some("red"));
}

#[test]
fn each_unknown_tag_is_reported_once() {
    let mut unknown = UnknownTags::new();
    assert!(unknown.record("mystery".to_string()));
    assert!(unknown.record("typo".to_string()));
    assert!(!unknown.record("mystery".to_string()));
    let mut all = unknown.iter();
    all.sort();
    assert_eq!(all, ["mystery".to_string(), "typo".to_string()]);
}

fn spawn_registry() -> StageTagRegistry {
    let mut registry = StageTagRegistry::new();
    registry.register("spawn_point");
    registry
}

fn node_with(base: &str, keys: &[&str]) -> StageTags {
    StageTags {
        base_name: base.into(),
        tags: keys
            .iter()
            .map(|k| StageTag::new(k.to_string(), TagSource::Extras))
            .collect(),
        ..Default::default()
    }
}

#[test]
fn a_batch_reports_each_new_unknown_tag_once() {
    let registry = spawn_registry();
    let mut unknown = UnknownTags::new();
    assert!(unknown.record("typo".to_string()));
    let batch = vec![
        Some(node_with("Ground", &["mystery", "spawn_point", "typo"])),
        None,
        Some(node_with("Crate", &["mystery", "other"])),
    ];
    let newly = unknown.note_batch(&batch, &registry);
    assert_eq!(newly, vec!["mystery".to_string(), "other".to_string()]);
    let mut all: Vec<String> = unknown.iter();
    all.sort();
    assert_eq!(all, ["mystery", "other", "typo"]);
    // A node's own name is never reported.
    assert!(!all.contains(&"Ground".to_string()));
    assert!(unknown.note_batch(&batch, &registry).is_empty());
}

#[test]
fn tags_apply_before_reflected_components_in_key_order() {
    let registry = spawn_registry();
    let tags = StageTags {
        base_name: "SpawnPoint".into(),
        extras: TagParams::from_pairs(vec![
            ("stage_tag".to_string(), TagValue::String("spawn_point".into())),
            ("Transform".to_string(), TagValue::String("(x: 1)".into())),
            ("Health".to_string(), TagValue::String("(hp: 3)".into())),
            ("mass".to_string(), TagValue::Number("2".into())),
        ]),
        tags: vec![StageTag::new("spawn_point".to_string(), TagSource::Extras)],
        ..Default::default()
    };
    let resolved = resolve_tags(&tags, &registry);
    let actions = node_actions(&tags, &resolved, "stage_tag");
    assert_eq!(actions.len(), 3);
    assert!(matches!(&actions[0], NodeAction::Apply(t) if t.key == "spawn_point" && t.source == TagSource::Extras));
    assert!(matches!(&actions[1], NodeAction::Reflect(k, v) if k == "Health" && v == "(hp: 3)"));
    assert!(matches!(&actions[2], NodeAction::Reflect(k, v) if k == "Transform" && v == "(x: 1)"));
}
