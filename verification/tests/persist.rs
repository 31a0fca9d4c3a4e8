use bevy_stage::persist::{NodeFate, PersistedComponents, StageDelta, StageDeltas, StageNodeId};

const VAULT: &str = "levels/stage_b.gltf";
const DOOR: StageNodeId = StageNodeId(3);
const SPAWN_POINT: StageNodeId = StageNodeId(5);
const OBELISK: StageNodeId = StageNodeId(6);

fn door(locked: bool) -> Vec<(String, String)> {
    vec![(
        "persistence::Door".to_string(),
        format!("(locked: {locked})"),
    )]
}

/// Put the vault away with the door in the given state, and with or without
/// the spawn point still in the world.
fn put_away(deltas: &mut StageDeltas, locked: bool, spawn_point_present: bool) {
    let mut delta = StageDelta::new();
    delta.record(DOOR, door(locked));
    if spawn_point_present {
        delta.record(SPAWN_POINT, Vec::new());
    }
    delta.record(OBELISK, Vec::new());
    deltas.insert(VAULT.to_string(), delta);
}

#[test]
fn the_level_starts_in_the_state_the_artist_authored() {
    // Nothing is remembered about a level on its first visit, so nothing is
    // put back and nothing is removed: the door stays as authored.
    let deltas = StageDeltas::new();
    assert!(deltas.get(VAULT).is_none());
    let mut fresh = StageDelta::new();
    fresh.record(DOOR, door(true));
    assert!(matches!(fresh.fate(DOOR), NodeFate::Restore(values) if values == door(true)));
}

#[test]
fn a_level_never_visited_has_nothing_remembered() {
    let mut deltas = StageDeltas::new();
    assert!(deltas.is_empty());
    assert!(deltas.get(VAULT).is_none());
    put_away(&mut deltas, true, true);
    assert!(!deltas.is_empty());
}

#[test]
fn a_change_survives_leaving_and_returning() {
    let mut deltas = StageDeltas::new();
    put_away(&mut deltas, false, true);
    let delta = deltas.get(VAULT).expect("the vault was put away");
    match delta.fate(DOOR) {
        NodeFate::Restore(values) => assert_eq!(values, door(false)),
        _ => panic!("the door should come back unlocked"),
    }
    assert!(matches!(delta.fate(OBELISK), NodeFate::Untouched));
    assert_eq!(delta.len(), 1);
}

#[test]
fn something_destroyed_stays_destroyed() {
    let mut deltas = StageDeltas::new();
    put_away(&mut deltas, true, false);
    let delta = deltas.get(VAULT).unwrap();
    assert!(!delta.is_present(SPAWN_POINT));
    assert!(matches!(delta.fate(SPAWN_POINT), NodeFate::Destroyed));
    // ...but everything else does come back.
    assert!(delta.is_present(OBELISK));
    assert!(!matches!(delta.fate(OBELISK), NodeFate::Destroyed));
}

#[test]
fn forgetting_a_level_restores_it_to_how_it_was_authored() {
    let mut deltas = StageDeltas::new();
    put_away(&mut deltas, false, true);
    deltas.insert("levels/other.gltf".to_string(), StageDelta::new());
    deltas.clear(VAULT);
    assert!(deltas.get(VAULT).is_none());
    assert!(deltas.get("levels/other.gltf").is_some());
    deltas.clear_all();
    assert!(deltas.is_empty());
}

#[test]
fn a_second_visit_replaces_what_the_first_remembered() {
    let mut deltas = StageDeltas::new();
    put_away(&mut deltas, false, true);
    put_away(&mut deltas, true, true);
    match deltas.get(VAULT).unwrap().fate(DOOR) {
        NodeFate::Restore(values) => assert_eq!(values, door(true)),
        _ => panic!("the door's latest state should be remembered"),
    }
}

#[test]
fn a_node_with_nothing_to_remember_is_only_marked_present() {
    let mut delta = StageDelta::new();
    assert!(delta.is_empty());
    delta.record(OBELISK, Vec::new());
    assert!(!delta.is_empty());
    assert_eq!(delta.len(), 0);
    assert!(delta.values(OBELISK).is_none());
    assert!(matches!(delta.fate(StageNodeId(99)), NodeFate::Destroyed));
}

#[test]
fn registering_a_component_twice_remembers_it_once() {
    let mut persisted = PersistedComponents::new();
    persisted.register("game::Door".to_string());
    persisted.register("game::Health".to_string());
    persisted.register("game::Door".to_string());
    assert_eq!(
        persisted.iter(),
        &["game::Door".to_string(), "game::Health".to_string()]
    );
}

#[test]
fn a_captured_record_holds_the_listed_nodes_and_their_values() {
    let delta = StageDelta::capture(vec![
        (DOOR, door(false)),
        (SPAWN_POINT, Vec::new()),
        (OBELISK, Vec::new()),
    ]);
    assert!(delta.is_present(DOOR));
    assert!(delta.is_present(SPAWN_POINT));
    assert!(delta.is_present(OBELISK));
    assert!(!delta.is_present(StageNodeId(42)));
    assert_eq!(delta.len(), 1);
    assert_eq!(delta.values(DOOR), Some(&door(false)));
    assert!(delta.values(OBELISK).is_none());

    let empty = StageDelta::capture(Vec::new());
    assert!(empty.is_empty());
}
