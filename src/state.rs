//! The states the game moves through, and the videos it plays.
use vstd::prelude::*;

verus! {

/// The videos played before the main menu.
#[derive(Clone, Copy, Debug, Eq, Hash, PartialEq, Structural)]
pub enum VideoState {
    Sierra,
    Troika,
    Teaser,
}

/// The states of the game: preloading the archives, playing a video, loading,
/// and the main menu.
#[derive(Clone, Copy, Debug, Eq, Hash, PartialEq, Structural)]
pub enum AppState {
    Preload,
    Video(VideoState),
    Loading,
    MainMenu,
}

impl Default for AppState {
    /// The game starts by preloading its archives.
    fn default() -> (r: AppState)
        ensures
            r == AppState::Preload,
    {
        AppState::Preload
    }
}

impl AppState {
    /// The state that plays the first video.
    pub fn first_video() -> (r: AppState)
        ensures
            r == AppState::Video(VideoState::Sierra),
    {
        AppState::Video(VideoState::Sierra)
    }

    /// The state that plays the teaser video.
    pub fn teaser_video() -> (r: AppState)
        ensures
            r == AppState::Video(VideoState::Teaser),
    {
        AppState::Video(VideoState::Teaser)
    }
}

} // verus!
