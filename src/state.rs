//! The states the application moves through.
use vstd::prelude::*;

verus! {

/// State of the application.
///
/// Loading leads to Menu once every asset has loaded; Menu leads to Game when
/// a menu item is clicked; Game leads back to Menu when the game is over.
#[derive(Clone, Copy, Debug, PartialEq, Eq, Hash, Structural)]
pub enum AppState {
    /// Assets are loading; the loading screen is shown.
    Loading,
    /// The main menu.
    Menu,
    /// Gameplay.
    Game,
}

} // verus!
