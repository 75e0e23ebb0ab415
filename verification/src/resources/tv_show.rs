use vstd::prelude::*;

verus! {

/// The metadata service a show's record came from.
#[derive(Clone, Copy, Debug, PartialEq, Eq, Structural)]
pub enum TVMetadataProvider {
    TVMaze,
}

/// A show as this service stores and serves it.
#[derive(Clone, Debug, PartialEq)]
pub struct TVShow {
    pub id: i32,
    pub name: String,
    pub summary: Option<String>,
    pub cover_img: Option<String>,
    pub provider: TVMetadataProvider,
    pub provider_id: String,
    pub provider_url: String,
    pub seasons: Option<Vec<TVShowSeason>>,
}

#[derive(Clone, Debug, PartialEq)]
pub struct TVShowSeason {
    pub id: i32,
    pub show_id: i32,
    pub num: i32,
    pub name: String,
    pub summary: Option<String>,
    pub cover_img: Option<String>,
    pub provider_id: String,
    pub provider_url: String,
    pub episodes: Option<Vec<TVShowEpisode>>,
}

#[derive(Clone, Debug, PartialEq)]
pub struct TVShowEpisode {
    pub id: i32,
    pub show_id: i32,
    pub season_id: i32,
    pub num: Option<i32>,
    pub season_num: i32,
    pub name: String,
    pub summary: Option<String>,
    pub cover_img: Option<String>,
    pub runtime: Option<i32>,
    pub provider_id: String,
    pub provider_url: String,
}

} // verus!
