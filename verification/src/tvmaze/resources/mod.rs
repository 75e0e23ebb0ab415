pub mod episode;
pub mod general;
pub mod tv_show;

pub use self::episode::Episode;
pub use self::general::{Country, Embed, ImageLinks, AKA};
pub use self::tv_show::{
    TVShow, TVShowExternals, TVShowNetwork, TVShowRating, TVShowSchedule, TVShowSeason,
    TVShowWebChannel,
};
