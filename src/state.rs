use vstd::prelude::*;

verus! {

/// The application's modes; exactly one is active at a time.
#[derive(Clone, Copy, Debug, PartialEq, Eq, Structural, Hash)]
pub enum AppState {
    MainMenu,
    InGame,
    OptionsMenu,
}

impl Default for AppState {
    fn default() -> (r: AppState)
        ensures
            r == AppState::MainMenu,
    {
        AppState::MainMenu
    }
}

/// The two menus, each with its own root marker.
#[derive(Clone, Copy, Debug, PartialEq, Eq, Structural, Hash)]
pub enum MenuKind {
    Main,
    Options,
}

/// The semantic role of a button.
#[derive(Clone, Copy, Debug, PartialEq, Eq, Structural, Hash)]
pub enum ButtonRole {
    Start,
    Options,
    Exit,
    Sound,
    Difficulty,
    Back,
}

/// What the pointer is doing to a button.
#[derive(Clone, Copy, Debug, PartialEq, Eq, Structural, Hash)]
pub enum Interaction {
    Pressed,
    Hovered,
    Idle,
}

/// The background of a button: as built, under the pointer, or at rest.
#[derive(Clone, Copy, Debug, PartialEq, Eq, Structural, Hash)]
pub enum Shade {
    Fresh,
    Hover,
    Rest,
}

/// What one interaction change on one button asks for.
#[derive(Clone, Copy, Debug, PartialEq, Eq, Structural)]
pub struct Reaction {
    pub shade: Option<Shade>,
    pub request: Option<AppState>,
    pub quit: bool,
}

/// The menu shown in a state, if any.
pub open spec fn menu_of(s: AppState) -> Option<MenuKind> {
    match s {
        AppState::MainMenu => Some(MenuKind::Main),
        AppState::OptionsMenu => Some(MenuKind::Options),
        AppState::InGame => None,
    }
}

/// The state that a press of a button with this role requests while `s` is active.
pub open spec fn press_target(s: AppState, role: ButtonRole) -> Option<AppState> {
    match (s, role) {
        (AppState::MainMenu, ButtonRole::Start) => Some(AppState::InGame),
        (AppState::MainMenu, ButtonRole::Options) => Some(AppState::OptionsMenu),
        (AppState::OptionsMenu, ButtonRole::Back) => Some(AppState::MainMenu),
        _ => None,
    }
}

/// Only the main menu's handler reacts to Exit.
pub open spec fn press_quits(s: AppState, role: ButtonRole) -> bool {
    s == AppState::MainMenu && role == ButtonRole::Exit
}

/// The button reducer: which handler runs depends on the active state; none
/// runs in game.
pub open spec fn reaction(s: AppState, role: ButtonRole, now: Interaction) -> Reaction {
    if s == AppState::InGame {
        Reaction { shade: None, request: None, quit: false }
    } else {
        match now {
            Interaction::Pressed => Reaction {
                shade: None,
                request: press_target(s, role),
                quit: press_quits(s, role),
            },
            Interaction::Hovered => Reaction { shade: Some(Shade::Hover), request: None, quit: false },
            Interaction::Idle => Reaction { shade: Some(Shade::Rest), request: None, quit: false },
        }
    }
}

/// The state that follows a press of `role` once the frame boundary has passed.
pub open spec fn navigate(s: AppState, role: ButtonRole) -> AppState {
    match press_target(s, role) {
        Some(t) => t,
        None => s,
    }
}

pub fn menu_for(s: AppState) -> (r: Option<MenuKind>)
    ensures
        r == menu_of(s),
{
    match s {
        AppState::MainMenu => Some(MenuKind::Main),
        AppState::OptionsMenu => Some(MenuKind::Options),
        AppState::InGame => None,
    }
}

/// Reacts to one button whose interaction has just changed to `now`.
pub fn react(s: AppState, role: ButtonRole, now: Interaction) -> (r: Reaction)
    ensures
        r == reaction(s, role, now),
{
    if let AppState::InGame = s {
        return Reaction { shade: None, request: None, quit: false };
    }
    match now {
        Interaction::Pressed => {
            let request = match (s, role) {
                (AppState::MainMenu, ButtonRole::Start) => Some(AppState::InGame),
                (AppState::MainMenu, ButtonRole::Options) => Some(AppState::OptionsMenu),
                (AppState::OptionsMenu, ButtonRole::Back) => Some(AppState::MainMenu),
                _ => None,
            };
            let quit = match (s, role) {
                (AppState::MainMenu, ButtonRole::Exit) => true,
                _ => false,
            };
            Reaction { shade: None, request, quit }
        },
        Interaction::Hovered => Reaction { shade: Some(Shade::Hover), request: None, quit: false },
        Interaction::Idle => Reaction { shade: Some(Shade::Rest), request: None, quit: false },
    }
}

/// The text on a button.
pub open spec fn caption_text(role: ButtonRole) -> Seq<char> {
    match role {
        ButtonRole::Start => "Start"@,
        ButtonRole::Options => "Options"@,
        ButtonRole::Exit => "Exit"@,
        ButtonRole::Sound => "Sound On"@,
        ButtonRole::Difficulty => "Difficulty Easy"@,
        ButtonRole::Back => "Back"@,
    }
}

/// The heading of a menu.
pub open spec fn title_text(m: MenuKind) -> Seq<char> {
    match m {
        MenuKind::Main => "Game One"@,
        MenuKind::Options => "Options"@,
    }
}

pub fn caption(role: ButtonRole) -> (r: &'static str)
    ensures
        r@ == caption_text(role),
{
    match role {
        ButtonRole::Start => "Start",
        ButtonRole::Options => "Options",
        ButtonRole::Exit => "Exit",
        ButtonRole::Sound => "Sound On",
        ButtonRole::Difficulty => "Difficulty Easy",
        ButtonRole::Back => "Back",
    }
}

pub fn title(m: MenuKind) -> (r: &'static str)
    ensures
        r@ == title_text(m),
{
    match m {
        MenuKind::Main => "Game One",
        MenuKind::Options => "Options",
    }
}

/// A press on the Options/Back pair: `true` for Options, `false` for Back.
pub open spec fn nav_role(options: bool) -> ButtonRole {
    if options { ButtonRole::Options } else { ButtonRole::Back }
}

/// How deep into the menus a sequence of Options (`true`) and Back (`false`)
/// presses leads from the main menu: Options goes one level down from the
/// main menu, Back one level up from the options menu, and a press with no
/// such button on screen changes nothing.
pub open spec fn nav_depth(presses: Seq<bool>) -> nat
    decreases presses.len(),
{
    if presses.len() == 0 {
        0
    } else {
        let d = nav_depth(presses.drop_last());
        if presses.last() { if d == 0 { 1 } else { d } } else { if d == 1 { 0 } else { d } }
    }
}

/// The state reached from `s` by the presses in order.
pub open spec fn navigate_all(s: AppState, presses: Seq<bool>) -> AppState
    decreases presses.len(),
{
    if presses.len() == 0 {
        s
    } else {
        navigate(navigate_all(s, presses.drop_last()), nav_role(presses.last()))
    }
}

/// Options and Back toggle between the two menus: after any sequence of
/// them, starting in the main menu, the options menu is active exactly when
/// the sequence ends one level deep.
pub proof fn lemma_options_back_toggle(presses: Seq<bool>)
    ensures
        nav_depth(presses) <= 1,
        navigate_all(AppState::MainMenu, presses) == (if nav_depth(presses) == 0 {
            AppState::MainMenu
        } else {
            AppState::OptionsMenu
        }),
    decreases presses.len(),
{
    if presses.len() > 0 {
        lemma_options_back_toggle(presses.drop_last());
    }
}

} // verus!
