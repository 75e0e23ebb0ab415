use vstd::prelude::*;

use crate::tvmaze::resources::general::{Embed, ImageLinks};

verus! {

#[derive(Debug, PartialEq)]
pub struct Episode {
    pub id: u64,
    pub url: String,
    pub name: String,
    pub season: u64,
    pub number: Option<u64>,
    pub airdate: String,
    pub airtime: String,
    pub airstamp: Option<String>,
    pub runtime: Option<u64>,
    pub image: Option<ImageLinks>,
    pub summary: Option<String>,
    pub embeds: Option<Embed>,
}

} // verus!
