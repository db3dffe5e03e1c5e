//! The main menu's buttons.

use vstd::prelude::*;
use crate::game::{AppState, MenuState};

verus! {

/// What a button of the menu does.
#[derive(Clone, Copy, Debug, PartialEq, Eq, Structural)]
pub enum MenuButtonAction {
    Play,
    Stats,
    Quit,
    BackToMainMenu,
}

/// The screen and menu page that a pressed button leads to: `Play` starts a
/// game and closes the menu; the others switch the menu page and leave the
/// screen as it is (`None`).
pub fn menu_action(action: &MenuButtonAction) -> (r: (Option<AppState>, MenuState))
    ensures
        r == match *action {
            MenuButtonAction::Play => (Some(AppState::InGame), MenuState::Disabled),
            MenuButtonAction::Stats => (None::<AppState>, MenuState::Stats),
            MenuButtonAction::Quit => (None::<AppState>, MenuState::Quit),
            MenuButtonAction::BackToMainMenu => (None::<AppState>, MenuState::Main),
        },
{
    match action {
        MenuButtonAction::Play => (Some(AppState::InGame), MenuState::Disabled),
        MenuButtonAction::Stats => (None, MenuState::Stats),
        MenuButtonAction::Quit => (None, MenuState::Quit),
        MenuButtonAction::BackToMainMenu => (None, MenuState::Main),
    }
}

} // verus!
