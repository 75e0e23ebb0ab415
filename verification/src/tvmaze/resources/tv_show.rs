use vstd::prelude::*;

use crate::tvmaze::resources::general::{Country, Embed, ImageLinks};

verus! {

/// A show as the metadata service describes it.
#[derive(Debug, PartialEq)]
pub struct TVShow {
    pub id: u64,
    pub url: String,
    pub name: String,
    pub _type: String,
    pub language: String,
    pub genres: Vec<String>,
    pub status: String,
    pub runtime: Option<u64>,
    pub premiered: Option<String>,
    pub official_site: Option<String>,
    pub schedule: TVShowSchedule,
    pub rating: TVShowRating,
    pub weight: u64,
    pub network: Option<TVShowNetwork>,
    pub web_channel: Option<TVShowWebChannel>,
    pub externals: TVShowExternals,
    pub image: Option<ImageLinks>,
    pub summary: Option<String>,
    pub updated: u64,
    pub embeds: Option<Embed>,
}

#[derive(Debug, PartialEq)]
pub struct TVShowSeason {
    pub id: u64,
    pub url: String,
    pub number: u64,
    pub name: String,
    pub episode_order: Option<u64>,
    pub premiere_date: String,
    pub end_date: String,
    pub network: Option<TVShowNetwork>,
    pub web_channel: Option<TVShowWebChannel>,
    pub image: Option<ImageLinks>,
    pub summary: Option<String>,
}

#[derive(Debug, PartialEq)]
pub struct TVShowSchedule {
    pub time: String,
    pub days: Vec<String>,
}

/// The average rating, held as the IEEE-754 bit pattern of the service's
/// 64-bit value so that it can carry through the library unchanged.
#[derive(Debug, PartialEq)]
pub struct TVShowRating {
    pub average_bits: Option<u64>,
}

#[derive(Debug, PartialEq)]
pub struct TVShowNetwork {
    pub id: u64,
    pub name: String,
    pub country: Country,
}

#[derive(Debug, PartialEq)]
pub struct TVShowWebChannel {
    pub id: u64,
    pub name: String,
    pub country: Option<Country>,
}

#[derive(Debug, PartialEq)]
pub struct TVShowExternals {
    pub tvrage: Option<u64>,
    pub thetvdb: Option<u64>,
    pub imdb: Option<String>,
}

} // verus!
