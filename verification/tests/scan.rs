use bevy_stage::stage::scan::{
    anchor_id_of, find_all_anchors, find_anchor, node_matches, scene_roots, SceneNode, ANCHOR_TAG,
};
use bevy_stage::tag::parse::DEFAULT_DISCRIMINATOR;

fn node(name: &str, extras: Option<&str>, children: Vec<usize>) -> Option<SceneNode> {
    Some(SceneNode {
        name: name.to_string(),
        extras: extras.map(str::to_string),
        children,
    })
}

/// A small level: a room with a door anchor tagged in `extras`, a window
/// anchor named inline, and an empty named after its anchor.
fn level() -> Vec<Option<SceneNode>> {
    vec![
        // 0: the room, root of everything
        node("Room", None, vec![1, 2, 3]),
        // 1: a wall holding the door
        node("Wall.001", None, vec![4]),
        // 2: anchor tagged by name with an inline id
        node("Anchor[id=window]", None, vec![]),
        // 3: plain geometry
        node("Floor", None, vec![]),
        // 4: the door, tagged in extras
        node(
            "DoorMarker",
            Some(r#"{"stage_tag": "anchor", "id": "exit_north"}"#),
            vec![],
        ),
        // 5: a second root, an empty named after its anchor
        node("Garden_Gate", None, vec![]),
    ]
}

#[test]
fn the_anchor_tag_is_spelled_anchor() {
    assert_eq!(ANCHOR_TAG, "anchor");
}

#[test]
fn an_explicit_id_names_the_anchor() {
    assert_eq!(
        anchor_id_of(
            "Door",
            Some(r#"{"stage_tag": "anchor", "id": "exit_north"}"#),
            DEFAULT_DISCRIMINATOR
        ),
        Some("exit_north".to_string())
    );
}

#[test]
fn an_anchor_without_an_id_is_named_by_its_node() {
    assert_eq!(
        anchor_id_of(
            "Door.003",
            Some(r#"{"stage_tag": ["spawn_point", "Anchor"]}"#),
            DEFAULT_DISCRIMINATOR
        ),
        Some("Door".to_string())
    );
}

#[test]
fn an_anchor_named_node_takes_its_inline_id() {
    assert_eq!(
        anchor_id_of("Anchor[id=gate]", None, DEFAULT_DISCRIMINATOR),
        Some("gate".to_string())
    );
    // Named like the tag but with no id: not an anchor with a name.
    assert_eq!(anchor_id_of("anchor", None, DEFAULT_DISCRIMINATOR), None);
    // A non-string id does not count either.
    assert_eq!(anchor_id_of("Anchor[id=3]", None, DEFAULT_DISCRIMINATOR), None);
}

#[test]
fn nodes_without_an_anchor_tag_declare_nothing() {
    assert_eq!(anchor_id_of("Crate", None, DEFAULT_DISCRIMINATOR), None);
    assert_eq!(
        anchor_id_of(
            "Crate",
            Some(r#"{"stage_tag": "spawn_point", "id": "x"}"#),
            DEFAULT_DISCRIMINATOR
        ),
        None
    );
    // Malformed extras fall back to the name channel.
    assert_eq!(
        anchor_id_of("Anchor[id=back]", Some("{not json"), DEFAULT_DISCRIMINATOR),
        Some("back".to_string())
    );
}

#[test]
fn only_unclaimed_nodes_are_roots() {
    assert_eq!(scene_roots(&level()), vec![0, 5]);
    // A node that is not loaded claims no children.
    let mut partial = level();
    partial[1] = None;
    assert_eq!(scene_roots(&partial), vec![0, 4, 5]);
}

#[test]
fn an_anchor_is_found_by_its_chain_of_nodes() {
    let nodes = level();
    assert_eq!(
        find_anchor(&nodes, "exit_north", DEFAULT_DISCRIMINATOR),
        Some(vec![0, 1, 4])
    );
    // Any spelling of the id works.
    assert_eq!(
        find_anchor(&nodes, "Exit-North", DEFAULT_DISCRIMINATOR),
        Some(vec![0, 1, 4])
    );
    assert_eq!(
        find_anchor(&nodes, "window", DEFAULT_DISCRIMINATOR),
        Some(vec![0, 2])
    );
}

#[test]
fn an_empty_named_after_the_anchor_is_found_too() {
    let nodes = level();
    assert_eq!(
        find_anchor(&nodes, "garden gate", DEFAULT_DISCRIMINATOR),
        Some(vec![5])
    );
    assert_eq!(
        find_anchor(&nodes, "floor", DEFAULT_DISCRIMINATOR),
        Some(vec![0, 3])
    );
}

#[test]
fn a_missing_anchor_is_reported_as_absent_not_guessed() {
    assert_eq!(
        find_anchor(&level(), "no_such_anchor", DEFAULT_DISCRIMINATOR),
        None
    );
}

#[test]
fn both_ends_of_the_hallway_are_found() {
    // A hallway with an anchor at each end, tagged in `extras`.
    let hallway = vec![
        node("Hallway", None, vec![1, 2, 3]),
        node(
            "ExitMarker",
            Some(r#"{"stage_tag": "anchor", "id": "exit_b"}"#),
            vec![],
        ),
        node("Floor", None, vec![]),
        node(
            "EntryMarker",
            Some(r#"{"stage_tag": "anchor", "id": "entry_a"}"#),
            vec![],
        ),
    ];
    let mut found = find_all_anchors(&hallway, DEFAULT_DISCRIMINATOR);
    found.sort_by(|a, b| a.0.cmp(&b.0));
    let ids: Vec<&str> = found.iter().map(|(id, _)| id.as_str()).collect();
    assert_eq!(ids, ["entry_a", "exit_b"]);
}

#[test]
fn every_anchor_is_listed_depth_first() {
    let found = find_all_anchors(&level(), DEFAULT_DISCRIMINATOR);
    assert_eq!(
        found,
        vec![
            ("exit_north".to_string(), vec![0, 1, 4]),
            ("window".to_string(), vec![0, 2]),
        ]
    );
}

#[test]
fn every_listed_anchor_can_be_found_by_its_id() {
    let nodes = level();
    for (id, _) in find_all_anchors(&nodes, DEFAULT_DISCRIMINATOR) {
        assert!(find_anchor(&nodes, &id, DEFAULT_DISCRIMINATOR).is_some());
    }
}

#[test]
fn a_node_matches_by_declared_id_or_by_its_own_name() {
    let mut nodes = level();
    let door = nodes[4].take().unwrap();
    assert!(node_matches(&door, "exitnorth", DEFAULT_DISCRIMINATOR));
    assert!(node_matches(&door, "doormarker", DEFAULT_DISCRIMINATOR));
    assert!(!node_matches(&door, "window", DEFAULT_DISCRIMINATOR));
}

#[test]
fn a_deep_chain_is_searched_to_the_bottom() {
    let depth = 60;
    let mut nodes: Vec<Option<SceneNode>> = (0..depth)
        .map(|i| node(&format!("Link{i}"), None, vec![i + 1]))
        .collect();
    nodes.push(node("Anchor[id=bottom]", None, vec![]));
    let chain: Vec<usize> = (0..=depth).collect();
    assert_eq!(find_anchor(&nodes, "bottom", DEFAULT_DISCRIMINATOR), Some(chain.clone()));
    assert_eq!(
        find_all_anchors(&nodes, DEFAULT_DISCRIMINATOR),
        vec![("bottom".to_string(), chain)]
    );
}

#[test]
fn a_cycle_in_the_node_graph_does_not_hang_the_scan() {
    let nodes = vec![
        node("A", None, vec![1]),
        node("B", None, vec![0]),
        node("Root", None, vec![0]),
    ];
    assert_eq!(scene_roots(&nodes), vec![2]);
    assert_eq!(find_anchor(&nodes, "missing", DEFAULT_DISCRIMINATOR), None);
    assert!(find_all_anchors(&nodes, DEFAULT_DISCRIMINATOR).is_empty());
}
