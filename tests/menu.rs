use menu_flow::controller::{Effect, MenuController, PointerEvent};
use menu_flow::license::{license_granted, LicenseResponse};
use menu_flow::scene::{Element, Scene, UiNode};
use menu_flow::state::{
    caption, menu_for, react, title, AppState, ButtonRole, Interaction, MenuKind, Reaction, Shade,
};

fn pointer(node: u64, now: Interaction) -> PointerEvent {
    PointerEvent { node, now }
}

fn roots(c: &MenuController, m: MenuKind) -> usize {
    c.scene.nodes.iter().filter(|n| n.element == Element::Panel(m)).count()
}

/// A click: pressed, then released under the pointer, then a frame boundary.
fn click(c: &mut MenuController, role: ButtonRole) {
    let id = c.button_of(role).expect("button on screen");
    c.frame(false, &vec![pointer(id, Interaction::Pressed), pointer(id, Interaction::Hovered)]);
    c.frame(false, &Vec::new());
}

#[test]
fn starts_in_main_menu_with_its_tree() {
    let mut c = MenuController::new();
    assert_eq!(c.state(), AppState::MainMenu);
    assert_eq!(AppState::default(), AppState::MainMenu);
    assert_eq!(c.scene.nodes.len(), 8);
    assert_eq!(roots(&c, MenuKind::Main), 1);
    assert!(c.button_of(ButtonRole::Start).is_some());
    assert!(c.button_of(ButtonRole::Options).is_some());
    assert!(c.button_of(ButtonRole::Exit).is_some());
    assert!(c.button_of(ButtonRole::Back).is_none());
    let fx = c.take_effects();
    assert_eq!(fx.len(), 8);
    assert!(fx.iter().all(|e| matches!(e, Effect::Spawn(_))));
    assert!(c.take_effects().is_empty());
}

#[test]
fn options_then_back_scenario() {
    let mut c = MenuController::new();
    click(&mut c, ButtonRole::Options);
    assert_eq!(c.state(), AppState::OptionsMenu);
    assert_eq!(roots(&c, MenuKind::Options), 1);
    assert_eq!(roots(&c, MenuKind::Main), 0);
    assert!(c.button_of(ButtonRole::Back).is_some());
    assert!(c.button_of(ButtonRole::Sound).is_some());
    assert!(c.button_of(ButtonRole::Difficulty).is_some());
    click(&mut c, ButtonRole::Back);
    assert_eq!(c.state(), AppState::MainMenu);
    assert_eq!(roots(&c, MenuKind::Options), 0);
    assert!(c.button_of(ButtonRole::Back).is_none());
    assert_eq!(roots(&c, MenuKind::Main), 1);
    assert_eq!(c.scene.nodes.len(), 8);
}

#[test]
fn start_after_passing_license_enters_game() {
    let resp = LicenseResponse::Received { status: 200, body: br#"{"gameKey": "k"}"#.to_vec() };
    assert!(license_granted(&resp));
    let mut c = MenuController::new();
    click(&mut c, ButtonRole::Start);
    assert_eq!(c.state(), AppState::InGame);
    assert!(c.scene.nodes.is_empty());
    assert!(c.button_of(ButtonRole::Start).is_none());
}

#[test]
fn transition_waits_for_the_frame_boundary() {
    let mut c = MenuController::new();
    let id = c.button_of(ButtonRole::Options).unwrap();
    c.frame(false, &vec![pointer(id, Interaction::Pressed)]);
    assert_eq!(c.state(), AppState::MainMenu);
    assert_eq!(c.pending, Some(AppState::OptionsMenu));
    c.frame(false, &Vec::new());
    assert_eq!(c.state(), AppState::OptionsMenu);
    assert_eq!(c.pending, None);
}

#[test]
fn held_exit_quits_once() {
    let mut c = MenuController::new();
    c.take_effects();
    let exit = c.button_of(ButtonRole::Exit).unwrap();
    for _ in 0..50 {
        c.frame(false, &vec![pointer(exit, Interaction::Pressed)]);
    }
    let fx = c.take_effects();
    assert_eq!(fx.iter().filter(|e| **e == Effect::Quit).count(), 1);
    assert_eq!(c.state(), AppState::MainMenu);
}

#[test]
fn a_new_press_quits_again() {
    let mut c = MenuController::new();
    c.take_effects();
    let exit = c.button_of(ButtonRole::Exit).unwrap();
    c.frame(false, &vec![pointer(exit, Interaction::Pressed)]);
    c.frame(false, &vec![pointer(exit, Interaction::Hovered)]);
    c.frame(false, &vec![pointer(exit, Interaction::Pressed)]);
    let fx = c.take_effects();
    assert_eq!(fx, vec![Effect::Quit, Effect::Recolor(exit, Shade::Hover), Effect::Quit]);
}

#[test]
fn options_and_back_toggle() {
    let mut c = MenuController::new();
    click(&mut c, ButtonRole::Options);
    click(&mut c, ButtonRole::Back);
    click(&mut c, ButtonRole::Options);
    assert_eq!(c.state(), AppState::OptionsMenu);
    click(&mut c, ButtonRole::Back);
    assert_eq!(c.state(), AppState::MainMenu);
}

#[test]
fn hover_and_rest_repaint() {
    let mut c = MenuController::new();
    c.take_effects();
    let start = c.button_of(ButtonRole::Start).unwrap();
    c.frame(false, &vec![pointer(start, Interaction::Hovered)]);
    c.frame(false, &vec![pointer(start, Interaction::Hovered)]);
    c.frame(false, &vec![pointer(start, Interaction::Idle)]);
    let fx = c.take_effects();
    assert_eq!(fx, vec![Effect::Recolor(start, Shade::Hover), Effect::Recolor(start, Shade::Rest)]);
    assert_eq!(c.state(), AppState::MainMenu);
}

#[test]
fn pointer_on_non_button_or_unknown_node_does_nothing() {
    let mut c = MenuController::new();
    c.take_effects();
    let panel = c.scene.nodes[0].id;
    c.frame(false, &vec![pointer(panel, Interaction::Pressed), pointer(999, Interaction::Pressed)]);
    assert!(c.take_effects().is_empty());
    assert_eq!(c.pending, None);
}

#[test]
fn space_enters_game_from_main_menu_only() {
    let mut c = MenuController::new();
    click(&mut c, ButtonRole::Options);
    c.frame(true, &Vec::new());
    c.frame(false, &Vec::new());
    assert_eq!(c.state(), AppState::OptionsMenu);
    click(&mut c, ButtonRole::Back);
    c.frame(true, &Vec::new());
    c.frame(false, &Vec::new());
    assert_eq!(c.state(), AppState::InGame);
    assert!(c.scene.nodes.is_empty());
}

#[test]
fn leaving_a_menu_despawns_its_root() {
    let mut c = MenuController::new();
    let root = c.scene.nodes[0].id;
    let options = c.button_of(ButtonRole::Options).unwrap();
    c.take_effects();
    click(&mut c, ButtonRole::Options);
    let fx = c.take_effects();
    assert_eq!(fx[0], Effect::Recolor(options, Shade::Hover));
    assert_eq!(fx[1], Effect::Despawn(root));
    assert_eq!(fx.len(), 10);
    assert!(fx[2..].iter().all(|e| matches!(e, Effect::Spawn(_))));
}

#[test]
fn reducer_table() {
    let none = Reaction { shade: None, request: None, quit: false };
    assert_eq!(
        react(AppState::MainMenu, ButtonRole::Start, Interaction::Pressed),
        Reaction { shade: None, request: Some(AppState::InGame), quit: false }
    );
    assert_eq!(
        react(AppState::MainMenu, ButtonRole::Options, Interaction::Pressed),
        Reaction { shade: None, request: Some(AppState::OptionsMenu), quit: false }
    );
    assert_eq!(
        react(AppState::MainMenu, ButtonRole::Exit, Interaction::Pressed),
        Reaction { shade: None, request: None, quit: true }
    );
    assert_eq!(
        react(AppState::OptionsMenu, ButtonRole::Back, Interaction::Pressed),
        Reaction { shade: None, request: Some(AppState::MainMenu), quit: false }
    );
    assert_eq!(react(AppState::OptionsMenu, ButtonRole::Sound, Interaction::Pressed), none);
    assert_eq!(react(AppState::OptionsMenu, ButtonRole::Exit, Interaction::Pressed), none);
    assert_eq!(
        react(AppState::OptionsMenu, ButtonRole::Sound, Interaction::Hovered),
        Reaction { shade: Some(Shade::Hover), request: None, quit: false }
    );
    assert_eq!(
        react(AppState::MainMenu, ButtonRole::Start, Interaction::Idle),
        Reaction { shade: Some(Shade::Rest), request: None, quit: false }
    );
    assert_eq!(react(AppState::InGame, ButtonRole::Start, Interaction::Pressed), none);
}

#[test]
fn scene_enter_then_exit_leaves_no_root() {
    let mut s = Scene::new();
    let main = s.spawn_menu(MenuKind::Main).unwrap();
    assert_eq!(main, 0);
    let before: Vec<UiNode> = s.nodes.clone();
    let opts = s.spawn_menu(MenuKind::Options).unwrap();
    assert_eq!(opts, 8);
    assert_eq!(s.nodes.len(), 16);
    assert_eq!(s.despawn_menu(MenuKind::Options), Some(8));
    assert!(s.nodes.iter().all(|n| n.element != Element::Panel(MenuKind::Options)));
    assert_eq!(s.nodes, before);
    assert_eq!(s.despawn_menu(MenuKind::Options), None);
    assert_eq!(s.nodes, before);
}

#[test]
fn menu_tree_layout() {
    let mut s = Scene::new();
    s.spawn_menu(MenuKind::Options);
    let e: Vec<Element> = s.nodes.iter().map(|n| n.element).collect();
    assert_eq!(
        e,
        vec![
            Element::Panel(MenuKind::Options),
            Element::Heading(MenuKind::Options),
            Element::Button(ButtonRole::Sound),
            Element::Caption(ButtonRole::Sound),
            Element::Button(ButtonRole::Difficulty),
            Element::Caption(ButtonRole::Difficulty),
            Element::Button(ButtonRole::Back),
            Element::Caption(ButtonRole::Back),
        ]
    );
    let parents: Vec<Option<u64>> = s.nodes.iter().map(|n| n.parent).collect();
    assert_eq!(parents, vec![None, Some(0), Some(0), Some(2), Some(0), Some(4), Some(0), Some(6)]);
    assert!(s.nodes.iter().all(|n| n.interaction == Interaction::Idle && n.shade == Shade::Fresh));
}

#[test]
fn despawn_removes_descendants_only() {
    let mut s = Scene::new();
    s.spawn_menu(MenuKind::Main);
    s.nodes.push(UiNode {
        id: 8,
        parent: None,
        element: Element::Heading(MenuKind::Options),
        interaction: Interaction::Idle,
        shade: Shade::Fresh,
    });
    s.next_id = 9;
    assert_eq!(s.despawn_menu(MenuKind::Main), Some(0));
    assert_eq!(s.nodes.len(), 1);
    assert_eq!(s.nodes[0].id, 8);
}

#[test]
fn two_roots_block_teardown() {
    let mut s = Scene::new();
    s.spawn_menu(MenuKind::Main);
    s.spawn_menu(MenuKind::Main);
    assert_eq!(s.single_root(MenuKind::Main), None);
    assert_eq!(s.despawn_menu(MenuKind::Main), None);
    assert_eq!(s.nodes.len(), 16);
}

#[test]
fn spawn_refused_when_ids_run_out() {
    let mut s = Scene::new();
    s.spawn_menu(MenuKind::Main);
    s.next_id = u64::MAX - 3;
    assert_eq!(s.spawn_menu(MenuKind::Options), None);
    assert_eq!(s.nodes.len(), 8);
    assert_eq!(s.next_id, u64::MAX - 3);
    s.next_id = u64::MAX - 8;
    assert_eq!(s.spawn_menu(MenuKind::Options), Some(u64::MAX - 8));
    assert_eq!(s.next_id, u64::MAX);
}

#[test]
fn ids_restart_once_the_scene_is_empty() {
    let mut s = Scene::new();
    s.spawn_menu(MenuKind::Main);
    s.despawn_menu(MenuKind::Main);
    assert!(s.nodes.is_empty());
    assert_eq!(s.spawn_menu(MenuKind::Options), Some(0));
}

#[test]
fn captions_and_titles() {
    assert_eq!(caption(ButtonRole::Start), "Start");
    assert_eq!(caption(ButtonRole::Options), "Options");
    assert_eq!(caption(ButtonRole::Exit), "Exit");
    assert_eq!(caption(ButtonRole::Sound), "Sound On");
    assert_eq!(caption(ButtonRole::Difficulty), "Difficulty Easy");
    assert_eq!(caption(ButtonRole::Back), "Back");
    assert_eq!(title(MenuKind::Main), "Game One");
    assert_eq!(title(MenuKind::Options), "Options");
    assert_eq!(menu_for(AppState::MainMenu), Some(MenuKind::Main));
    assert_eq!(menu_for(AppState::OptionsMenu), Some(MenuKind::Options));
    assert_eq!(menu_for(AppState::InGame), None);
}
