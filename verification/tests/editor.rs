use ename::content::LoaderState;
use ename::editor::camera::{fly_camera_active, fly_steps, FlyKeys, FlySteps};
use ename::editor::gizmo::{
    gizmo_focus, gizmo_keyboard_shortcuts, gizmo_should_run, press_selects, GizmoKeys, GizmoMode, GizmoSettings,
    GizmoSpace,
};
use ename::editor::viewport::{viewport_for, PhysicalRect};
use ename::game::{next_game_state, GameState};

const NO_KEYS: GizmoKeys = GizmoKeys { w: false, e: false, r: false, x: false };

#[test]
fn the_shortcuts_pick_the_mode_and_flip_the_space() {
    let mut settings = GizmoSettings { mode: GizmoMode::Translate, space: GizmoSpace::World };
    gizmo_keyboard_shortcuts(&mut settings, GizmoKeys { e: true, x: true, ..NO_KEYS }, true, false);
    assert_eq!(settings, GizmoSettings { mode: GizmoMode::Rotate, space: GizmoSpace::Local });
    gizmo_keyboard_shortcuts(&mut settings, GizmoKeys { r: true, x: true, ..NO_KEYS }, true, false);
    assert_eq!(settings, GizmoSettings { mode: GizmoMode::Scale, space: GizmoSpace::World });
}

#[test]
fn the_shortcuts_stand_down_for_the_fly_camera_and_off_the_viewport() {
    let start = GizmoSettings { mode: GizmoMode::Translate, space: GizmoSpace::World };
    let mut settings = start;
    gizmo_keyboard_shortcuts(&mut settings, GizmoKeys { e: true, ..NO_KEYS }, true, true);
    assert_eq!(settings, start);
    gizmo_keyboard_shortcuts(&mut settings, GizmoKeys { e: true, ..NO_KEYS }, false, false);
    assert_eq!(settings, start);
}

#[test]
fn the_gizmo_runs_over_the_viewport_or_mid_drag() {
    assert!(gizmo_should_run(true, false));
    assert!(gizmo_should_run(false, true));
    assert!(!gizmo_should_run(false, false));
}

#[test]
fn the_gizmo_holds_a_lone_transformable_selection() {
    assert_eq!(gizmo_focus(&vec![7], &vec![true]), Some(7));
    assert_eq!(gizmo_focus(&vec![7], &vec![false]), None);
    assert_eq!(gizmo_focus(&vec![7, 8], &vec![true, true]), None);
    assert_eq!(gizmo_focus(&vec![], &vec![]), None);
}

#[test]
fn a_press_on_a_handle_does_not_select_through_it() {
    assert!(press_selects(true, true, false, false));
    assert!(!press_selects(true, true, false, true));
    assert!(!press_selects(true, true, true, false));
    assert!(!press_selects(false, true, false, false));
}

#[test]
fn the_fly_keys_push_the_camera() {
    let keys = FlyKeys {
        w: true,
        s: false,
        a: true,
        d: true,
        space: true,
        left_control: false,
        q: false,
        e: true,
        left_shift: true,
    };
    assert!(fly_camera_active(true));
    assert_eq!(fly_steps(keys, true), FlySteps { forward: -1, right: 0, up: 1, roll: -2, boost: true });
    assert_eq!(fly_steps(keys, false), FlySteps { forward: 0, right: 0, up: 0, roll: 0, boost: false });
}

#[test]
fn a_viewport_past_the_window_is_rejected() {
    let rect = PhysicalRect { x: 10, y: 20, width: 100, height: 50 };
    assert_eq!(viewport_for(rect, 110, 70), Some(rect));
    assert_eq!(viewport_for(rect, 109, 70), None);
    assert_eq!(viewport_for(rect, 200, 69), None);
}

#[test]
fn the_game_enters_the_scene_once_assets_are_registered() {
    assert_eq!(GameState::default(), GameState::Loading);
    assert_eq!(next_game_state(GameState::Loading, LoaderState::PackagesRegistered), GameState::Loading);
    assert_eq!(next_game_state(GameState::Loading, LoaderState::AssetsRegistered), GameState::Scene);
    assert_eq!(next_game_state(GameState::Play, LoaderState::AssetsRegistered), GameState::Play);
}
