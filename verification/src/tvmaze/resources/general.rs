use vstd::prelude::*;

use crate::resources::person::CastEmbed;
use crate::tvmaze::resources::episode::Episode;

verus! {

/// An alternative name a show is known under, with the country it is
/// used in.
#[derive(Debug, PartialEq)]
pub struct AKA {
    pub name: String,
    pub country: Option<Country>,
}

#[derive(Debug, PartialEq)]
pub struct Country {
    pub name: String,
    pub code: String,
    pub timezone: String,
}

#[derive(Clone, Debug, PartialEq)]
pub struct ImageLinks {
    pub medium: String,
    pub original: String,
}

/// Extra resources a response can embed alongside the main one.
#[derive(Debug, PartialEq)]
pub struct Embed {
    pub cast: Option<Vec<CastEmbed>>,
    pub episodes: Option<Vec<Episode>>,
}

} // verus!
