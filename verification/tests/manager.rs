use bevy_stage::stage::manager::{
    missing_anchor_message, no_scene_message, plan_spawn, refused_message, return_link_wait,
    stage_name, HandOver, LoadStart, SpawnPlan, StageId, StageManager, StageStatus,
    RETURN_LINK_TIMEOUT_FRAMES,
};
use bevy_stage::stage::scan::SceneNode;
use bevy_stage::tag::parse::DEFAULT_DISCRIMINATOR;
use bevy_stage::text::decimal_text;

/// Placements are opaque to the manager; a label is enough here.
type Manager = StageManager<&'static str>;

fn hallway() -> Vec<Option<SceneNode>> {
    vec![
        Some(SceneNode {
            name: "Hallway".into(),
            extras: None,
            children: vec![1, 2],
        }),
        Some(SceneNode {
            name: "Entry".into(),
            extras: Some(r#"{"stage_tag": "anchor", "id": "entry_a"}"#.into()),
            children: vec![],
        }),
        Some(SceneNode {
            name: "Exit".into(),
            extras: Some(r#"{"stage_tag": "anchor", "id": "exit_b"}"#.into()),
            children: vec![],
        }),
    ]
}

#[test]
fn instance_ids_are_handed_out_in_sequence() {
    let mut manager = Manager::default();
    let a = manager.request("levels/stage_a.gltf".into(), "origin");
    let b = manager.request("levels/stage_a.gltf".into(), "beside");
    assert_eq!(a, StageId(0));
    assert_eq!(b, StageId(1));
    let requests = manager.take_requests();
    assert_eq!(requests.len(), 2);
    assert_eq!(requests[1].placement, "beside");
    assert!(manager.take_requests().is_empty());
}

#[test]
fn unloading_forgets_the_stage_and_hands_back_its_root() {
    let mut manager = Manager::default();
    manager.insert_resident(StageId(0), 100);
    manager.insert_resident(StageId(1), 101);
    manager.activate(StageId(1));
    manager.unload(StageId(1));
    manager.unload(StageId(7));
    assert_eq!(manager.pending_unloads(), &[StageId(1), StageId(7)]);

    let gone = manager.process_unloads();
    assert_eq!(gone, vec![101]);
    assert!(!manager.is_resident(StageId(1)));
    assert!(manager.is_resident(StageId(0)));
    assert_eq!(manager.active(), None);
    assert_eq!(manager.len(), 1);
    assert!(manager.pending_unloads().is_empty());
}

#[test]
fn hand_over_only_enters_a_ready_resident_stage() {
    let mut manager = Manager::default();
    manager.insert_resident(StageId(0), 10);
    manager.insert_resident(StageId(1), 11);
    manager.activate(StageId(0));

    assert_eq!(manager.hand_over(StageId(1), false), HandOver::NotReady);
    assert_eq!(manager.hand_over(StageId(5), true), HandOver::NotResident);
    assert_eq!(manager.hand_over(StageId(0), true), HandOver::AlreadyActive);
    assert_eq!(manager.active(), Some(StageId(0)));

    assert_eq!(
        manager.hand_over(StageId(1), true),
        HandOver::Entered(11, Some(StageId(0)))
    );
    assert_eq!(manager.active(), Some(StageId(1)));
}

#[test]
fn only_ready_inactive_stages_beyond_every_source_are_left_behind() {
    let mut manager = Manager::default();
    manager.insert_resident(StageId(0), 10);
    manager.activate(StageId(0));
    assert!(!manager.left_behind(StageId(0), true, true, true), "the active stage stays");
    assert!(manager.left_behind(StageId(1), true, true, true));
    assert!(!manager.left_behind(StageId(1), false, true, true), "still loading");
    assert!(!manager.left_behind(StageId(1), true, false, true), "no sources, nothing is far");
    assert!(!manager.left_behind(StageId(1), true, true, false), "someone is near");
}

#[test]
fn a_return_link_waits_until_linked_or_timed_out() {
    assert_eq!(return_link_wait(0, false), (1, false));
    assert_eq!(return_link_wait(3, true), (4, true));
    assert_eq!(return_link_wait(RETURN_LINK_TIMEOUT_FRAMES - 1, false), (1800, false));
    assert_eq!(return_link_wait(RETURN_LINK_TIMEOUT_FRAMES, false), (1801, true));
}

#[test]
fn the_next_instance_id_is_visible() {
    let mut manager = Manager::default();
    assert_eq!(manager.next_id(), 0);
    manager.request("a".into(), "p");
    assert_eq!(manager.next_id(), 1);
}

#[test]
fn a_full_world_refuses_with_a_reason() {
    let mut manager = Manager::default();
    manager.max_resident = 2;
    match manager.start_load("levels/a.gltf") {
        LoadStart::Begin { name } => assert_eq!(name, "Stage(levels/a.gltf)"),
        other => panic!("expected to begin, got {other:?}"),
    }
    manager.insert_resident(StageId(0), 1);
    manager.insert_resident(StageId(1), 2);
    assert!(!manager.has_room());
    match manager.start_load("levels/b.gltf") {
        LoadStart::Refuse { name, reason } => {
            assert_eq!(name, "Stage(levels/b.gltf) [refused]");
            assert_eq!(reason, "refused: already holding 2 levels");
        }
        other => panic!("expected a refusal, got {other:?}"),
    }
}

#[test]
fn messages_name_what_went_wrong() {
    assert_eq!(refused_message(8), "refused: already holding 8 levels");
    assert_eq!(refused_message(120), "refused: already holding 120 levels");
    assert_eq!(stage_name("x.gltf", false), "Stage(x.gltf)");
    assert_eq!(
        no_scene_message("levels/empty.gltf"),
        "`levels/empty.gltf` declares no default scene"
    );
    assert_eq!(
        missing_anchor_message(
            "levels/hallway.gltf",
            "nowhere",
            &["entry_a".to_string(), "exit_b".to_string()]
        ),
        "`levels/hallway.gltf` has no anchor named `nowhere` (found: entry_a, exit_b)"
    );
    assert_eq!(
        missing_anchor_message("l.gltf", "a", &[]),
        "`l.gltf` has no anchor named `a` (found: )"
    );
}

#[test]
fn numbers_are_written_in_decimal() {
    assert_eq!(decimal_text(0), "0");
    assert_eq!(decimal_text(7), "7");
    assert_eq!(decimal_text(10), "10");
    assert_eq!(decimal_text(4096), "4096");
    assert_eq!(decimal_text(usize::MAX), usize::MAX.to_string());
}

#[test]
fn only_a_loading_stage_is_planned() {
    let nodes = hallway();
    let plan = plan_spawn(
        &StageStatus::Ready,
        "levels/hallway.gltf",
        None,
        Some(&nodes),
        true,
        None,
        DEFAULT_DISCRIMINATOR,
    );
    assert!(matches!(plan, SpawnPlan::Skip));
}

#[test]
fn a_stage_waits_for_its_asset_and_reports_a_failed_load() {
    let waiting = plan_spawn(
        &StageStatus::Loading,
        "levels/hallway.gltf",
        None,
        None,
        false,
        None,
        DEFAULT_DISCRIMINATOR,
    );
    assert!(matches!(waiting, SpawnPlan::Wait));

    let failed = plan_spawn(
        &StageStatus::Loading,
        "levels/hallway.gltf",
        Some("file not found".into()),
        None,
        false,
        None,
        DEFAULT_DISCRIMINATOR,
    );
    match failed {
        SpawnPlan::Fail(message) => assert_eq!(message, "file not found"),
        other => panic!("expected a failure, got {other:?}"),
    }

    let nodes = hallway();
    let no_scene = plan_spawn(
        &StageStatus::Loading,
        "levels/hallway.gltf",
        None,
        Some(&nodes),
        false,
        None,
        DEFAULT_DISCRIMINATOR,
    );
    match no_scene {
        SpawnPlan::Fail(message) => {
            assert_eq!(message, "`levels/hallway.gltf` declares no default scene")
        }
        other => panic!("expected a failure, got {other:?}"),
    }
}

#[test]
fn a_connected_stage_is_placed_by_its_anchor() {
    let nodes = hallway();
    let plan = plan_spawn(
        &StageStatus::Loading,
        "levels/hallway.gltf",
        None,
        Some(&nodes),
        true,
        Some("Entry_A"),
        DEFAULT_DISCRIMINATOR,
    );
    match plan {
        SpawnPlan::Spawn { at, anchors } => {
            assert_eq!(at, Some(vec![0, 1]));
            assert_eq!(
                anchors,
                vec![
                    ("entry_a".to_string(), vec![0, 1]),
                    ("exit_b".to_string(), vec![0, 2]),
                ]
            );
        }
        other => panic!("expected to spawn, got {other:?}"),
    }

    let fixed = plan_spawn(
        &StageStatus::Loading,
        "levels/hallway.gltf",
        None,
        Some(&nodes),
        true,
        None,
        DEFAULT_DISCRIMINATOR,
    );
    assert!(matches!(fixed, SpawnPlan::Spawn { at: None, .. }));
}

#[test]
fn a_missing_anchor_fails_the_stage_with_a_message_naming_the_options() {
    let nodes = hallway();
    let plan = plan_spawn(
        &StageStatus::Loading,
        "levels/hallway.gltf",
        None,
        Some(&nodes),
        true,
        Some("no_such_anchor"),
        DEFAULT_DISCRIMINATOR,
    );
    let message = match plan {
        SpawnPlan::Fail(message) => message,
        other => panic!("expected a failure, got {other:?}"),
    };
    // The message should say what anchors the level actually has, so the fix
    // is obvious without opening the file in Blender.
    assert!(message.contains("no_such_anchor"), "{message}");
    assert!(message.contains("entry_a"), "{message}");
    assert_eq!(
        message,
        "`levels/hallway.gltf` has no anchor named `no_such_anchor` (found: entry_a, exit_b)"
    );
}

#[test]
fn an_anchor_declared_twice_is_named_once() {
    let mut nodes = hallway();
    nodes.push(Some(SceneNode {
        name: "Anchor[id=entry_a]".into(),
        extras: None,
        children: vec![],
    }));
    let plan = plan_spawn(
        &StageStatus::Loading,
        "h.gltf",
        None,
        Some(&nodes),
        true,
        Some("x"),
        DEFAULT_DISCRIMINATOR,
    );
    match plan {
        SpawnPlan::Fail(message) => assert_eq!(
            message,
            "`h.gltf` has no anchor named `x` (found: entry_a, exit_b)"
        ),
        other => panic!("expected a failure, got {other:?}"),
    }
}

#[test]
fn a_spawning_stage_settles_once_its_scene_is_ready() {
    let mut status = StageStatus::Spawning;
    status.settle(false);
    assert_eq!(status, StageStatus::Spawning);
    status.settle(true);
    assert_eq!(status, StageStatus::Ready);
    assert!(status.is_ready());

    let mut failed = StageStatus::Failed("gone".into());
    failed.settle(true);
    assert_eq!(failed, StageStatus::Failed("gone".into()));
}

#[test]
fn a_batch_is_begun_while_there_is_room_and_refused_past_it() {
    let mut manager = Manager::default();
    manager.max_resident = 3;
    let first = manager.request("levels/hub.gltf".into(), "origin");
    manager.take_requests();
    manager.record_roots(&vec![(first, 7)]);
    let ids: Vec<StageId> = ["a", "b", "c"]
        .iter()
        .map(|l| manager.request(format!("levels/{l}.gltf"), "beside"))
        .collect();
    let requests = manager.take_requests();
    let plan = manager.plan_loads(&requests);
    assert_eq!(plan.len(), 3);
    match &plan[0] {
        LoadStart::Begin { name } => assert_eq!(name, "Stage(levels/a.gltf)"),
        other => panic!("expected a begun load, got {other:?}"),
    }
    match &plan[1] {
        LoadStart::Begin { name } => assert_eq!(name, "Stage(levels/b.gltf)"),
        other => panic!("expected a begun load, got {other:?}"),
    }
    match &plan[2] {
        LoadStart::Refuse { name, reason } => {
            assert_eq!(name, "Stage(levels/c.gltf) [refused]");
            assert_eq!(reason, "refused: already holding 3 levels");
        }
        other => panic!("expected a refusal, got {other:?}"),
    }
    let roots: Vec<(StageId, u64)> = ids.iter().zip([10, 11, 12]).map(|(i, e)| (*i, e)).collect();
    manager.record_roots(&roots);
    assert_eq!(manager.len(), 4);
    assert_eq!(manager.entity(ids[2]), Some(12));
    assert_eq!(manager.entity(first), Some(7));
}

#[test]
fn a_request_already_resident_takes_no_extra_room() {
    let mut manager = Manager::default();
    manager.max_resident = 2;
    let a = manager.request("levels/a.gltf".into(), "origin");
    let b = manager.request("levels/b.gltf".into(), "origin");
    manager.take_requests();
    manager.record_roots(&vec![(a, 1)]);
    let mut requests = Vec::new();
    manager.request("levels/a.gltf".into(), "origin");
    manager.request("levels/b.gltf".into(), "origin");
    for (mut q, id) in manager.take_requests().into_iter().zip([a, b]) {
        q.id = id;
        requests.push(q);
    }
    let plan = manager.plan_loads(&requests);
    assert!(matches!(plan[0], LoadStart::Begin { .. }));
    assert!(matches!(plan[1], LoadStart::Begin { .. }));
}

#[test]
fn resident_lists_each_level_once_with_its_root() {
    let mut manager = Manager::default();
    manager.insert_resident(StageId(4), 40);
    manager.insert_resident(StageId(2), 20);
    manager.insert_resident(StageId(4), 41);
    let mut listed = manager.resident();
    listed.sort();
    assert_eq!(listed, vec![(StageId(2), 20), (StageId(4), 41)]);
    assert!(manager.is_resident(StageId(2)));
    assert!(!manager.is_resident(StageId(3)));
}
