use ename::engine::log::{Level, LogRing};
use ename::engine::time::{ClockAction, TimeControl};
use ename::mcp::entity::{describe, EntityId, EntitySelector, Summary, WireEntity};
use ename::mcp::server::{placement, Placement};
use ename::mcp::server::{
    crate_matches, only_grid, reject_position_write, split_present, step_wait, GetLogsParams,
    RegistrySchemaParams, RunAction, SetRunStateParams, StepWait, WithPid, CELL_COORD as CELL,
    TRANSFORM,
};
use ename::remote::entities::{list, EntityFacts, ListParams};
use ename::remote::logs::{query, severity_of_name};
use ename::remote::run::RunRequest;
use ename::remote::run_id::{run_id_for, run_source, three_letters};

fn id(s: &str) -> EntityId {
    EntityId::new(s.to_owned())
}

#[test]
fn is_always_three_lowercase_letters() {
    for seed in 0u64..500 {
        let id = three_letters(&seed.to_le_bytes());
        assert_eq!(id.len(), 3, "{id}");
        assert!(id.bytes().all(|b| b.is_ascii_lowercase()), "{id}");
    }
}

#[test]
fn neighbouring_sources_do_not_share_an_id() {
    let ids: Vec<String> = (1000u64..1010).map(|p| three_letters(&p.to_le_bytes())).collect();
    let unique: std::collections::HashSet<&String> = ids.iter().collect();
    assert!(unique.len() >= 9, "sequential sources collided: {ids:?}");
}

#[test]
fn the_run_source_is_pid_then_time_little_endian() {
    let source = run_source(0x0102_0304, 0x1122_3344_5566_7788);
    let mut expected = 0x0102_0304u64.to_le_bytes().to_vec();
    expected.extend_from_slice(&0x1122_3344_5566_7788u64.to_le_bytes());
    assert_eq!(source, expected);
    assert_eq!(run_id_for(0x0102_0304, 0x1122_3344_5566_7788), three_letters(&expected));
}

#[test]
fn the_hash_of_nothing_is_the_offset_basis() {
    // FNV-1a of no bytes is 0xcbf29ce484222325; its three base-26 digits, 16 bits apart.
    let h: u64 = 0xcbf2_9ce4_8422_2325;
    let expected: String = (0..3).map(|i| char::from(b'a' + ((h >> (i * 16)) % 26) as u8)).collect();
    assert_eq!(three_letters(&[]), expected);
}

#[test]
fn accepts_the_form_the_game_prints() {
    for good in ["606v0", "0v0", "4294967294v17"] {
        assert!(id(good).check_shape().is_ok(), "`{good}`");
    }
}

#[test]
fn refuses_a_packed_id() {
    for bad in ["4294966689", "563", "", "v", "606v", "v0", "606x0", "6 0 6v0"] {
        assert!(id(bad).check_shape().is_err(), "`{bad}`");
    }
}

#[test]
fn a_malformed_id_is_named_in_the_refusal() {
    let err = id("563").check_shape().unwrap_err();
    assert!(err.starts_with("`563` is not an entity id."), "{err}");
}

#[test]
fn refuses_writes_that_would_move_half_a_position() {
    for (component, path) in [(TRANSFORM, "translation"), (TRANSFORM, "translation.x"), (TRANSFORM, ""), (CELL, "x")] {
        assert!(
            reject_position_write(component, path).is_err(),
            "`{component}` `{path}` should be refused"
        );
    }
}

#[test]
fn allows_writes_to_the_rest_of_a_transform() {
    for path in ["scale", "scale.x", "rotation"] {
        assert!(reject_position_write(TRANSFORM, path).is_ok(), "`{path}`");
    }
}

#[test]
fn does_not_refuse_an_unrelated_component() {
    assert!(reject_position_write("some::other::Type", "translation").is_ok());
}

#[test]
fn an_empty_crate_filter_matches_everything() {
    assert!(crate_matches(Some("avian3d"), &[]));
    assert!(crate_matches(None, &[]));
}

#[test]
fn a_crate_filter_rejects_types_with_no_crate() {
    let wanted = ["ename_engine".to_owned()];
    assert!(!crate_matches(None, &wanted));
    assert!(!crate_matches(Some("bevy_transform"), &wanted));
    assert!(crate_matches(Some("ename_engine"), &wanted));
}

fn row(id_text: &str, bits: u64, name: Option<&str>) -> Summary {
    Summary {
        entity: WireEntity { id: id(id_text), bits },
        name: name.map(|n| n.to_owned()),
    }
}

fn world() -> Vec<Summary> {
    vec![
        row("1v0", 11, Some("Camera")),
        row("2v0", 12, Some("VirtualCamera")),
        row("3v0", 13, Some("VirtualCamera")),
        row("4v1", 14, None),
    ]
}

#[test]
fn a_selector_by_id_finds_the_entity() {
    let selector = EntitySelector { entity: Some(id("4v1")), name: None };
    let found = selector.resolve(&world()).unwrap();
    assert_eq!(found.entity.as_str(), "4v1");
    assert_eq!(found.bits, 14);
    assert_eq!(found.name, None);
}

#[test]
fn a_selector_by_a_unique_name_finds_the_entity() {
    let selector = EntitySelector { entity: None, name: Some("Camera".to_owned()) };
    let found = selector.resolve(&world()).unwrap();
    assert_eq!(found.entity.as_str(), "1v0");
    assert_eq!(found.name.as_deref(), Some("Camera"));
}

#[test]
fn an_ambiguous_name_lists_every_candidate() {
    let selector = EntitySelector { entity: None, name: Some("VirtualCamera".to_owned()) };
    let err = selector.resolve(&world()).unwrap_err();
    assert_eq!(
        err,
        "`VirtualCamera` is the name of 2 entities (2v0, 3v0). Address one of them by `entity` instead."
    );
}

#[test]
fn a_selector_must_give_exactly_one_field() {
    let both = EntitySelector { entity: Some(id("1v0")), name: Some("Camera".to_owned()) };
    assert_eq!(both.resolve(&world()).unwrap_err(), "give either `entity` or `name`, not both");
    let neither = EntitySelector { entity: None, name: None };
    assert_eq!(neither.resolve(&world()).unwrap_err(), "give either `entity` or `name`");
}

#[test]
fn a_missing_entity_is_reported_by_what_was_asked() {
    let by_id = EntitySelector { entity: Some(id("9v0")), name: None };
    assert_eq!(by_id.resolve(&world()).unwrap_err(), "no entity `9v0` exists in this run");
    let by_name = EntitySelector { entity: None, name: Some("Ghost".to_owned()) };
    assert_eq!(
        by_name.resolve(&world()).unwrap_err(),
        "no entity is named `Ghost`. Use world_query with name_contains to find the right one."
    );
    let packed = EntitySelector { entity: Some(id("563")), name: None };
    assert!(packed.resolve(&world()).unwrap_err().contains("is not an entity id"));
}

#[test]
fn describe_names_fresh_bits() {
    assert_eq!(describe(&world(), 13).unwrap().entity.as_str(), "3v0");
    assert_eq!(
        describe(&world(), 99).unwrap_err(),
        "the game reported entity bits 99, which it then could not find. It may have despawned in the same frame."
    );
}

#[test]
fn one_grid_is_the_grid() {
    assert_eq!(only_grid(&vec![(7, Some("World".to_owned()))]), Ok(7));
    assert_eq!(
        only_grid(&vec![]),
        Err("the game has no big_space grid, so nothing can be placed in it".to_owned())
    );
    assert_eq!(
        only_grid(&vec![(7, Some("World".to_owned())), (9, None)]),
        Err("the game has 2 grids (7 `World`, 9 ``). Pass `parent` to say which one.".to_owned())
    );
}

#[test]
fn requested_components_split_into_present_and_absent() {
    let asked = vec!["a::A".to_owned(), "b::B".to_owned(), "c::C".to_owned()];
    let has = vec!["c::C".to_owned(), "a::A".to_owned()];
    let (present, absent) = split_present(&asked, &has);
    assert_eq!(present, ["a::A", "c::C"]);
    assert_eq!(absent, ["b::B"]);
}

#[test]
fn a_step_needs_frames() {
    let step = SetRunStateParams { action: RunAction::Step, frames: None };
    assert_eq!(step.request(), Err("`step` needs `frames`".to_owned()));
    let step = SetRunStateParams { action: RunAction::Step, frames: Some(3) };
    assert_eq!(step.request(), Ok(RunRequest::Step { frames: 3 }));
    let pause = SetRunStateParams { action: RunAction::Pause, frames: Some(3) };
    assert_eq!(pause.request(), Ok(RunRequest::Pause));
}

#[test]
fn a_run_request_drives_the_countdown() {
    let mut time = TimeControl::new();
    assert_eq!(RunRequest::Step { frames: 4 }.apply(&mut time), ClockAction::Unpause);
    assert_eq!(time.steps_remaining(), Some(4));
    assert_eq!(RunRequest::Resume.apply(&mut time), ClockAction::Unpause);
    assert_eq!(time.steps_remaining(), None);
    assert_eq!(RunRequest::Step { frames: 0 }.apply(&mut time), ClockAction::Pause);
}

#[test]
fn waiting_for_a_step_stops_when_it_ends_or_times_out() {
    assert_eq!(step_wait(None, true), StepWait::Done);
    assert_eq!(step_wait(Some(2), true), StepWait::GiveUp);
    assert_eq!(step_wait(Some(2), false), StepWait::Poll);
}

#[test]
fn a_result_carries_the_run_id() {
    let tagged = WithPid::new("abc".to_owned(), 5u32);
    assert_eq!(tagged.pid(), "abc");
    assert_eq!(*tagged.result(), 5);
}

fn ring() -> LogRing {
    let mut ring = LogRing::new(100);
    ring.push(0, Level::Debug, "ENAME_game::spawn", "Spawned ship".to_owned());
    ring.push(0, Level::Warn, "bevy_render", "Slow FRAME".to_owned());
    ring.push(0, Level::Error, "ename_game::load", "missing file".to_owned());
    ring.push(0, Level::Info, "ename_game::load", "Loaded".to_owned());
    ring
}

#[test]
fn a_log_query_filters_by_level() {
    let params = GetLogsParams { min_level: Some("warn".to_owned()), ..Default::default() };
    let answer = query(&ring(), &params).unwrap();
    assert_eq!(answer.entries, [1, 2]);
    assert_eq!(answer.older_matches, 0);
}

#[test]
fn a_log_query_matches_text_in_any_case() {
    let params = GetLogsParams { target_contains: Some("ename_GAME".to_owned()), ..Default::default() };
    assert_eq!(query(&ring(), &params).unwrap().entries, [0, 2, 3]);
    let params = GetLogsParams { message_contains: Some("frame".to_owned()), ..Default::default() };
    assert_eq!(query(&ring(), &params).unwrap().entries, [1]);
}

#[test]
fn a_log_query_keeps_the_newest_matches() {
    let params = GetLogsParams { limit: Some(2), ..Default::default() };
    let answer = query(&ring(), &params).unwrap();
    assert_eq!(answer.entries, [2, 3]);
    assert_eq!(answer.older_matches, 2);
    let params = GetLogsParams { after_sequence: Some(1), ..Default::default() };
    assert_eq!(query(&ring(), &params).unwrap().entries, [2, 3]);
}

#[test]
fn a_bad_level_is_refused_by_name() {
    let params = GetLogsParams { min_level: Some("loud".to_owned()), ..Default::default() };
    assert_eq!(
        query(&ring(), &params).unwrap_err(),
        "`LOUD` is not a level. Use TRACE, DEBUG, INFO, WARN or ERROR."
    );
    assert_eq!(severity_of_name("Error"), Ok(4));
    assert_eq!(severity_of_name("trace"), Ok(0));
}

#[test]
fn the_schema_selection_is_sorted_filtered_and_cut() {
    let registry = vec![
        ("zeta::Z".to_owned(), Some("zeta".to_owned())),
        ("alpha::Thing".to_owned(), Some("alpha".to_owned())),
        ("&str".to_owned(), None),
        ("beta::THING".to_owned(), Some("beta".to_owned())),
    ];
    let params = RegistrySchemaParams { contains: Some("thing".to_owned()), limit: Some(1), ..Default::default() };
    let picked = params.select(&registry);
    assert_eq!(picked.paths, ["alpha::Thing"]);
    assert_eq!(picked.truncated, 1);

    let params = RegistrySchemaParams {
        types: vec!["zeta::Z".to_owned(), "gone::G".to_owned()],
        ..Default::default()
    };
    let picked = params.select(&registry);
    assert_eq!(picked.paths, ["zeta::Z"]);
    assert_eq!(picked.unregistered, ["gone::G"]);

    let params = RegistrySchemaParams { with_crates: vec!["beta".to_owned()], ..Default::default() };
    assert_eq!(params.select(&registry).paths, ["beta::THING"]);
}

fn facts(bits: u64, name: Option<&str>, components: &[&str], ancestors: &[u64]) -> EntityFacts {
    EntityFacts {
        bits,
        name: name.map(|n| n.to_owned()),
        components: components.iter().map(|c| (*c).to_owned()).collect(),
        ancestors: ancestors.to_vec(),
    }
}

fn scene() -> Vec<EntityFacts> {
    vec![
        facts(40, None, &["bevy_transform::components::transform::Transform"], &[1]),
        facts(30, Some("Ship"), &["avian3d::RigidBody", "bevy_transform::components::transform::Transform"], &[1]),
        facts(20, None, &["bevy_ecs::resource::IsResource"], &[]),
        facts(10, Some("Camera"), &["bevy_camera::Camera"], &[]),
        facts(5, Some("Ship"), &["bevy_transform::components::transform::Transform"], &[30, 1]),
    ]
}

#[test]
fn named_entities_come_first_then_by_name_then_by_id() {
    let listing = list(&scene(), &ListParams::default());
    assert_eq!(listing.entities, [3, 4, 1, 0]);
    assert_eq!(listing.truncated, 0);
}

#[test]
fn internal_entities_are_hidden_unless_asked_for() {
    let params = ListParams { include_internal: true, ..Default::default() };
    assert_eq!(list(&scene(), &params).entities, [3, 4, 1, 2, 0]);
}

#[test]
fn a_listing_filters_by_name_component_and_parent() {
    let params = ListParams { name_contains: Some("SHIP".to_owned()), ..Default::default() };
    assert_eq!(list(&scene(), &params).entities, [4, 1]);
    let params = ListParams { with_components: vec!["rigidbody".to_owned()], ..Default::default() };
    assert_eq!(list(&scene(), &params).entities, [1]);
    let params = ListParams { parent: Some(30), ..Default::default() };
    assert_eq!(list(&scene(), &params).entities, [4]);
}

#[test]
fn a_listing_is_cut_to_its_limit() {
    let params = ListParams { limit: Some(2), ..Default::default() };
    let listing = list(&scene(), &params);
    assert_eq!(listing.entities, [3, 4]);
    assert_eq!(listing.truncated, 2);
}

#[test]
fn a_spawn_is_placed_by_what_it_was_given() {
    assert_eq!(placement(true, true), Placement::Parent);
    assert_eq!(placement(false, true), Placement::WorldGrid);
    assert_eq!(placement(false, false), Placement::Root);
}

#[test]
fn a_shuffled_world_lists_the_same_entities() {
    let world = scene();
    let mut shuffled = scene();
    shuffled.reverse();
    let bits = |facts: &Vec<EntityFacts>, idx: &[usize]| idx.iter().map(|i| facts[*i].bits).collect::<Vec<_>>();
    let params = ListParams { limit: Some(3), include_internal: true, ..Default::default() };
    let a = list(&world, &params);
    let b = list(&shuffled, &params);
    assert_eq!(bits(&world, &a.entities), bits(&shuffled, &b.entities));
    assert_eq!(a.truncated, b.truncated);
}

#[test]
fn a_shuffled_registry_gives_the_same_schemas() {
    let registry = vec![
        ("b::B".to_owned(), Some("b".to_owned())),
        ("a::A".to_owned(), Some("a".to_owned())),
        ("c::C".to_owned(), Some("c".to_owned())),
    ];
    let mut shuffled = registry.clone();
    shuffled.rotate_left(1);
    let params = RegistrySchemaParams { limit: Some(2), ..Default::default() };
    assert_eq!(params.select(&registry).paths, params.select(&shuffled).paths);
    assert_eq!(params.select(&registry).paths, ["a::A", "b::B"]);
}

#[test]
fn a_second_push_is_found_by_its_number() {
    let mut ring = LogRing::new(2);
    ring.push(0, Level::Info, "t", "first".to_owned());
    let next = ring.next_sequence();
    ring.push(0, Level::Warn, "t", "second".to_owned());
    assert_eq!(ring.by_sequence(next).unwrap().message, "second");
    assert_eq!(ring.next_sequence(), next + 1);
}
