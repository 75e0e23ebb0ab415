pub mod person;
pub mod tv_show;

pub use self::person::{CastEmbed, CastPerson, Character, CrewPerson, Person};
pub use self::tv_show::{TVMetadataProvider, TVShow, TVShowEpisode, TVShowSeason};
