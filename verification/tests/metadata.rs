use unify::client::{redirect_decision, request_url, embed_query_pairs, RedirectAction};
use unify::db::insert_many_placeholders;
use unify::providers::{to_unify_episode, to_unify_season, to_unify_show};
use unify::resources::tv_show::TVMetadataProvider;
use unify::text::u64_to_string;
use unify::tvmaze::api::{LinkEmbed, ShowLookup};
use unify::tvmaze::resources::episode::Episode;
use unify::tvmaze::resources::tv_show::{
    TVShow, TVShowExternals, TVShowRating, TVShowSchedule, TVShowSeason,
};

#[test]
fn it_works() {
    assert_eq!(2 + 2, 4);
}

#[test]
fn lookup_query_params() {
    assert_eq!(ShowLookup::IMDB("tt0944947").as_query_param(), ("imdb", "tt0944947"));
    assert_eq!(ShowLookup::TheTVDB("121361").as_query_param(), ("thetvdb", "121361"));
    assert_eq!(ShowLookup::TVRage("24493").as_query_param(), ("tvrage", "24493"));
}

#[test]
fn redirect_decisions() {
    assert_eq!(
        redirect_decision(301, Some(String::from("http://x/y"))),
        RedirectAction::Follow(String::from("http://x/y"))
    );
    assert_eq!(
        redirect_decision(302, Some(String::from("u"))),
        RedirectAction::Follow(String::from("u"))
    );
    assert_eq!(redirect_decision(301, None), RedirectAction::MissingLocationHeader);
    assert_eq!(redirect_decision(404, None), RedirectAction::ShowNotFound);
    assert_eq!(redirect_decision(200, None), RedirectAction::UnexpectedResponse);
    assert_eq!(
        redirect_decision(500, Some(String::from("u"))),
        RedirectAction::UnexpectedResponse
    );
}

#[test]
fn request_urls() {
    assert_eq!(request_url("/shows/1", None), "http://api.tvmaze.com/shows/1");
    assert_eq!(
        request_url("/search/shows", Some(String::from("q=archer"))),
        "http://api.tvmaze.com/search/shows?q=archer"
    );
}

#[test]
fn embed_pairs() {
    let single = embed_query_pairs(&LinkEmbed::Single("cast"));
    assert_eq!(single, vec![(String::from("embed"), String::from("cast"))]);
    let multiple = embed_query_pairs(&LinkEmbed::Multiple(vec!["cast", "episodes"]));
    assert_eq!(
        multiple,
        vec![
            (String::from("embed[]"), String::from("cast")),
            (String::from("embed[]"), String::from("episodes")),
        ]
    );
}

#[test]
fn placeholder_text() {
    assert_eq!(insert_many_placeholders(3, 2), " ($1,$2,$3), ($4,$5,$6)");
    assert_eq!(insert_many_placeholders(1, 1), " ($1)");
    assert_eq!(insert_many_placeholders(2, 3), " ($1,$2), ($3,$4), ($5,$6)");
    assert_eq!(insert_many_placeholders(10, 1), " ($1,$2,$3,$4,$5,$6,$7,$8,$9,$10)");
}

#[test]
fn decimal_rendering() {
    assert_eq!(u64_to_string(0), "0");
    assert_eq!(u64_to_string(7), "7");
    assert_eq!(u64_to_string(42), "42");
    assert_eq!(u64_to_string(100500), "100500");
    assert_eq!(u64_to_string(u64::MAX), "18446744073709551615");
}

fn sample_show() -> TVShow {
    TVShow {
        id: 42,
        url: String::from("http://example.test/shows/42"),
        name: String::from("Sample"),
        _type: String::from("Scripted"),
        language: String::from("English"),
        genres: vec![String::from("Drama")],
        status: String::from("Running"),
        runtime: Some(60),
        premiered: Some(String::from("2011-04-17")),
        official_site: None,
        schedule: TVShowSchedule { time: String::from("21:00"), days: vec![String::from("Sunday")] },
        rating: TVShowRating { average_bits: None },
        weight: 99,
        network: None,
        web_channel: None,
        externals: TVShowExternals { tvrage: None, thetvdb: None, imdb: None },
        image: None,
        summary: Some(String::from("A show.")),
        updated: 1,
        embeds: None,
    }
}

#[test]
fn unify_show_mapping() {
    let r = to_unify_show(&sample_show());
    assert_eq!(r.id, -1);
    assert_eq!(r.name, "Sample");
    assert_eq!(r.summary, Some(String::from("A show.")));
    assert_eq!(r.cover_img, None);
    assert_eq!(r.provider, TVMetadataProvider::TVMaze);
    assert_eq!(r.provider_id, "42");
    assert_eq!(r.provider_url, "http://example.test/shows/42");
    assert!(r.seasons.is_none());
}

#[test]
fn unify_season_mapping() {
    let season = TVShowSeason {
        id: 7,
        url: String::from("http://example.test/seasons/7"),
        number: 2,
        name: String::from("Season 2"),
        episode_order: Some(10),
        premiere_date: String::from("2012-04-01"),
        end_date: String::from("2012-06-03"),
        network: None,
        web_channel: None,
        image: None,
        summary: None,
    };
    let r = to_unify_season(&season);
    assert_eq!(r.id, -1);
    assert_eq!(r.show_id, -1);
    assert_eq!(r.num, 2);
    assert_eq!(r.name, "Season 2");
    assert_eq!(r.provider_id, "7");
    assert!(r.episodes.is_none());
}

#[test]
fn unify_episode_mapping() {
    let episode = Episode {
        id: 5555,
        url: String::from("http://example.test/episodes/5555"),
        name: String::from("Pilot"),
        season: 1,
        number: Some(1),
        airdate: String::from("2011-04-17"),
        airtime: String::from("21:00"),
        airstamp: None,
        runtime: Some(60),
        image: None,
        summary: None,
        embeds: None,
    };
    let r = to_unify_episode(&episode);
    assert_eq!(r.id, -1);
    assert_eq!(r.show_id, -1);
    assert_eq!(r.season_id, -1);
    assert_eq!(r.num, Some(1));
    assert_eq!(r.season_num, 1);
    assert_eq!(r.name, "Pilot");
    assert_eq!(r.runtime, Some(60));
    assert_eq!(r.provider_id, "5555");
}

fn row(show: i32, season: i32, episode: i32) -> unify::db::JoinedRow {
    unify::db::JoinedRow {
        show_id: show,
        show_name: format!("show{}", show),
        show_summary: None,
        show_cover_img: None,
        show_provider: TVMetadataProvider::TVMaze,
        show_provider_id: format!("{}", show),
        show_provider_url: String::from("http://example.test"),
        season_id: season,
        season_show_id: show,
        season_num: season,
        season_name: format!("season{}", season),
        season_summary: None,
        season_cover_img: None,
        season_provider_id: format!("{}", season),
        season_provider_url: String::from("http://example.test"),
        episode_id: episode,
        episode_show_id: show,
        episode_season_id: season,
        episode_num: Some(episode),
        episode_season_num: season,
        episode_name: format!("episode{}", episode),
        episode_summary: None,
        episode_cover_img: None,
        episode_runtime: Some(60),
        episode_provider_id: format!("{}", episode),
        episode_provider_url: String::from("http://example.test"),
    }
}

#[test]
fn single_show_grouping() {
    let rows = vec![row(1, 10, 100), row(1, 10, 101), row(1, 11, 102)];
    let show = unify::db::process_single_joined_show(rows);
    assert_eq!(show.id, 1);
    assert_eq!(show.name, "show1");
    let seasons = show.seasons.unwrap();
    assert_eq!(seasons.len(), 2);
    assert_eq!(seasons[0].id, 10);
    assert_eq!(seasons[1].id, 11);
    let eps0 = seasons[0].episodes.as_ref().unwrap();
    assert_eq!(eps0.len(), 2);
    assert_eq!(eps0[0].id, 100);
    assert_eq!(eps0[1].id, 101);
    let eps1 = seasons[1].episodes.as_ref().unwrap();
    assert_eq!(eps1.len(), 1);
    assert_eq!(eps1[0].id, 102);
}

#[test]
fn multiple_show_grouping() {
    let rows = vec![row(1, 10, 100), row(2, 20, 200), row(1, 10, 101)];
    let shows = unify::db::process_multiple_joined_shows(rows);
    assert_eq!(shows.len(), 2);
    assert_eq!(shows[0].id, 1);
    assert_eq!(shows[1].id, 2);
    let s0 = shows[0].seasons.as_ref().unwrap();
    assert_eq!(s0.len(), 1);
    assert_eq!(s0[0].episodes.as_ref().unwrap().len(), 2);
    let s1 = shows[1].seasons.as_ref().unwrap();
    assert_eq!(s1[0].episodes.as_ref().unwrap().len(), 1);
}

#[test]
fn empty_rows_give_no_shows() {
    let shows = unify::db::process_multiple_joined_shows(Vec::new());
    assert!(shows.is_empty());
}
