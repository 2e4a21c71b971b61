//! Records returned by the TV metadata service.
use vstd::prelude::*;

verus! {

/// A show that matched a search.
#[derive(Debug)]
pub struct SearchResult {
    pub id: i32,
    pub name: String,
}

/// The episodes of one season.
#[derive(Debug)]
pub struct SeasonDetails {
    pub episodes: Vec<SeasonEpisode>,
}

#[derive(Clone, Copy, Debug)]
pub struct SeasonEpisode {
    pub episode_number: i32,
}

/// The still images of one episode.
#[derive(Debug)]
pub struct EpisodeImages {
    pub stills: Vec<Image>,
}

/// An image, by its path on the image server.
#[derive(Debug)]
pub struct Image {
    pub file_path: String,
}

} // verus!
