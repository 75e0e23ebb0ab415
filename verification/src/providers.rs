use vstd::prelude::*;

use crate::resources::tv_show::{TVMetadataProvider, TVShow, TVShowEpisode, TVShowSeason};
use crate::text::{decimal_chars, u64_to_string};
use crate::tvmaze::resources::episode::Episode as TVMazeEpisode;
use crate::tvmaze::resources::tv_show::{TVShow as TVMazeShow, TVShowSeason as TVMazeSeason};

verus! {

/// The cover image a provider record carries: the full-size link, when
/// there is one.
pub open spec fn cover_of(image: Option<crate::tvmaze::resources::general::ImageLinks>) -> Option<
    Seq<char>,
> {
    match image {
        Some(links) => Some(links.original@),
        None => None,
    }
}

/// Maps a provider show onto this service's own record: a fresh row (no
/// id yet), carrying the provider's name, summary, cover image, and the
/// provider's identifier rendered in decimal.
pub fn to_unify_show(p: &TVMazeShow) -> (r: TVShow)
    ensures
        r.id == -1,
        r.name@ == p.name@,
        r.summary == p.summary,
        r.cover_img matches Some(c) ==> cover_of(p.image) matches Some(pc) && c@ == pc,
        r.cover_img is None <==> p.image is None,
        r.provider == TVMetadataProvider::TVMaze,
        r.provider_id@ == decimal_chars(p.id as nat),
        r.provider_url@ == p.url@,
        r.seasons is None,
{
    TVShow {
        id: -1,
        name: p.name.clone(),
        summary: p.summary.clone(),
        cover_img: match &p.image {
            Some(links) => Some(links.original.clone()),
            None => None,
        },
        provider: TVMetadataProvider::TVMaze,
        provider_id: u64_to_string(p.id),
        provider_url: p.url.clone(),
        seasons: None,
    }
}

/// Maps a provider season onto this service's own record; the owning
/// show's row is not known yet, so both ids stay unassigned.
pub fn to_unify_season(p: &TVMazeSeason) -> (r: TVShowSeason)
    requires
        p.number <= i32::MAX,
    ensures
        r.id == -1,
        r.show_id == -1,
        r.num == p.number,
        r.name@ == p.name@,
        r.summary == p.summary,
        r.cover_img matches Some(c) ==> cover_of(p.image) matches Some(pc) && c@ == pc,
        r.cover_img is None <==> p.image is None,
        r.provider_id@ == decimal_chars(p.id as nat),
        r.provider_url@ == p.url@,
        r.episodes is None,
{
    TVShowSeason {
        id: -1,
        show_id: -1,
        num: p.number as i32,
        name: p.name.clone(),
        summary: p.summary.clone(),
        cover_img: match &p.image {
            Some(links) => Some(links.original.clone()),
            None => None,
        },
        provider_id: u64_to_string(p.id),
        provider_url: p.url.clone(),
        episodes: None,
    }
}

/// Maps a provider episode onto this service's own record.
pub fn to_unify_episode(p: &TVMazeEpisode) -> (r: TVShowEpisode)
    requires
        p.season <= i32::MAX,
        p.number matches Some(n) ==> n <= i32::MAX,
        p.runtime matches Some(n) ==> n <= i32::MAX,
    ensures
        r.id == -1,
        r.show_id == -1,
        r.season_id == -1,
        r.num matches Some(n) ==> p.number matches Some(pn) && n == pn,
        r.num is None <==> p.number is None,
        r.season_num == p.season,
        r.name@ == p.name@,
        r.summary == p.summary,
        r.cover_img matches Some(c) ==> cover_of(p.image) matches Some(pc) && c@ == pc,
        r.cover_img is None <==> p.image is None,
        r.runtime matches Some(n) ==> p.runtime matches Some(pn) && n == pn,
        r.runtime is None <==> p.runtime is None,
        r.provider_id@ == decimal_chars(p.id as nat),
        r.provider_url@ == p.url@,
{
    TVShowEpisode {
        id: -1,
        show_id: -1,
        season_id: -1,
        num: match p.number {
            Some(n) => Some(n as i32),
            None => None,
        },
        season_num: p.season as i32,
        name: p.name.clone(),
        summary: p.summary.clone(),
        cover_img: match &p.image {
            Some(links) => Some(links.original.clone()),
            None => None,
        },
        runtime: match p.runtime {
            Some(n) => Some(n as i32),
            None => None,
        },
        provider_id: u64_to_string(p.id),
        provider_url: p.url.clone(),
    }
}

} // verus!
