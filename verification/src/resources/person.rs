use vstd::prelude::*;

use crate::tvmaze::resources::general::{Country, ImageLinks};

verus! {

pub type CastPerson = CastEmbed;

/// A crew member of a show: the person and the kind of work credited.
#[derive(Debug, PartialEq)]
pub struct CrewPerson {
    pub person: Person,
    pub _type: String,
}

/// A cast credit: the person together with the character they play.
#[derive(Debug, PartialEq)]
pub struct CastEmbed {
    pub person: Person,
    pub character: Character,
}

#[derive(Debug, PartialEq)]
pub struct Person {
    pub id: u64,
    pub url: String,
    pub name: String,
    pub country: Option<Country>,
    pub birthday: Option<String>,
    pub deathday: Option<String>,
    pub gender: Option<String>,
    pub image: Option<ImageLinks>,
}

#[derive(Debug, PartialEq)]
pub struct Character {
    pub id: u64,
    pub url: String,
    pub name: String,
    pub image: Option<ImageLinks>,
}

} // verus!
