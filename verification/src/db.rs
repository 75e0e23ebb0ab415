use vstd::prelude::*;

use vstd::string::{StrSliceExecFns, StringExecFns};

use crate::resources::tv_show::{TVMetadataProvider, TVShow, TVShowEpisode, TVShowSeason};
use crate::text::{decimal_chars, u64_to_string};

verus! {

/// The select whose rows [`JoinedRow`] models: every stored show joined
/// with its seasons and their episodes, one row per episode.
pub const SELECT_JOIN_SHOW: &'static str = "SELECT A.id as show_id,
            A.name as show_name,
            A.summary as show_summary,
            A.cover_img as show_cover_img,
            A.provider as show_provider,
            A.provider_id as show_provider_id,
            A.provider_url as show_provider_url,
            B.id as season_id,
            B.show_id as season_show_id,
            B.num as season_num,
            B.name as season_name,
            B.summary as season_summary,
            B.cover_img as season_cover_img,
            B.provider_id as season_provider_id,
            B.provider_url as season_provider_url,
            C.id as episode_id,
            C.show_id as episode_show_id,
            C.season_id as episode_season_id,
            C.num as episode_num,
            C.season_num as episode_season_num,
            C.name as episode_name,
            C.summary as episode_summary,
            C.cover_img as episode_cover_img,
            C.runtime as episode_runtime,
            C.provider_id as episode_provider_id,
            C.provider_url as episode_provider_url
     FROM tv_shows A
     LEFT OUTER JOIN tv_show_seasons B on B.show_id = A.id
     LEFT OUTER JOIN tv_show_episodes C on C.show_id = A.id AND C.season_id = B.id ";

/// One row of the joined show/season/episode select, with the columns the
/// row handlers read, as plain values.
#[derive(Clone, Debug, PartialEq)]
pub struct JoinedRow {
    pub show_id: i32,
    pub show_name: String,
    pub show_summary: Option<String>,
    pub show_cover_img: Option<String>,
    pub show_provider: TVMetadataProvider,
    pub show_provider_id: String,
    pub show_provider_url: String,
    pub season_id: i32,
    pub season_show_id: i32,
    pub season_num: i32,
    pub season_name: String,
    pub season_summary: Option<String>,
    pub season_cover_img: Option<String>,
    pub season_provider_id: String,
    pub season_provider_url: String,
    pub episode_id: i32,
    pub episode_show_id: i32,
    pub episode_season_id: i32,
    pub episode_num: Option<i32>,
    pub episode_season_num: i32,
    pub episode_name: String,
    pub episode_summary: Option<String>,
    pub episode_cover_img: Option<String>,
    pub episode_runtime: Option<i32>,
    pub episode_provider_id: String,
    pub episode_provider_url: String,
}

/// The season record one row carries, before its episodes are attached.
pub open spec fn spec_season_of(r: JoinedRow) -> TVShowSeason {
    TVShowSeason {
        id: r.season_id,
        show_id: r.season_show_id,
        num: r.season_num,
        name: r.season_name,
        summary: r.season_summary,
        cover_img: r.season_cover_img,
        provider_id: r.season_provider_id,
        provider_url: r.season_provider_url,
        episodes: None,
    }
}

/// The episode record one row carries.
pub open spec fn spec_episode_of(r: JoinedRow) -> TVShowEpisode {
    TVShowEpisode {
        id: r.episode_id,
        show_id: r.episode_show_id,
        season_id: r.episode_season_id,
        num: r.episode_num,
        season_num: r.episode_season_num,
        name: r.episode_name,
        summary: r.episode_summary,
        cover_img: r.episode_cover_img,
        runtime: r.episode_runtime,
        provider_id: r.episode_provider_id,
        provider_url: r.episode_provider_url,
    }
}

pub open spec fn has_season_id(b: Seq<TVShowSeason>, id: i32) -> bool {
    exists|j: int| 0 <= j < b.len() && b[j].id == id
}

/// The seasons of a row sequence, one per distinct season id in order of
/// first appearance, each taken from its first row.
pub open spec fn season_bases(rows: Seq<JoinedRow>) -> Seq<TVShowSeason>
    decreases rows.len(),
{
    if rows.len() == 0 {
        Seq::empty()
    } else {
        let b = season_bases(rows.drop_last());
        if has_season_id(b, rows.last().season_id) {
            b
        } else {
            b.push(spec_season_of(rows.last()))
        }
    }
}

/// The episodes of one season: the rows that carry its id, in row order.
pub open spec fn episodes_for(rows: Seq<JoinedRow>, sid: i32) -> Seq<TVShowEpisode> {
    rows.filter(|r: JoinedRow| r.season_id == sid).map_values(|r: JoinedRow| spec_episode_of(r))
}

/// The season list is correct for the rows: one season per distinct id in
/// first-appearance order, its fields from the id's first row and its
/// episodes exactly the rows that carry the id.
pub open spec fn seasons_match(rows: Seq<JoinedRow>, ss: Seq<TVShowSeason>) -> bool {
    let bases = season_bases(rows);
    ss.len() == bases.len() && (forall|k: int|
        0 <= k < ss.len() ==> season_matches(rows, bases[k], #[trigger] ss[k]))
}

pub open spec fn season_matches(rows: Seq<JoinedRow>, base: TVShowSeason, s: TVShowSeason) -> bool {
    s.id == base.id && s.show_id == base.show_id && s.num == base.num && s.name == base.name
        && s.summary == base.summary && s.cover_img == base.cover_img && s.provider_id
        == base.provider_id && s.provider_url == base.provider_url && (s.episodes matches Some(es)
        && es@ == episodes_for(rows, base.id))
}

/// The assembled show is correct for the rows: its own columns from the
/// first row, its seasons grouped as [`seasons_match`] says.
pub open spec fn show_matches(rows: Seq<JoinedRow>, s: TVShow) -> bool {
    s.id == rows[0].show_id && s.name == rows[0].show_name && s.summary == rows[0].show_summary
        && s.cover_img == rows[0].show_cover_img && s.provider == rows[0].show_provider
        && s.provider_id == rows[0].show_provider_id && s.provider_url == rows[0].show_provider_url
        && (s.seasons matches Some(ss) && seasons_match(rows, ss@))
}

proof fn lemma_episodes_for_step(rows: Seq<JoinedRow>, sid: i32, i: int)
    requires
        0 <= i < rows.len(),
    ensures
        episodes_for(rows.take(i + 1), sid) == if rows[i].season_id == sid {
            episodes_for(rows.take(i), sid).push(spec_episode_of(rows[i]))
        } else {
            episodes_for(rows.take(i), sid)
        },
{
    reveal(Seq::filter);
    let pred = |r: JoinedRow| r.season_id == sid;
    let t1 = rows.take(i + 1);
    assert(t1.drop_last() =~= rows.take(i));
    assert(t1.last() == rows[i]);
    assert(t1.filter(pred) == if pred(rows[i]) {
        rows.take(i).filter(pred).push(rows[i])
    } else {
        rows.take(i).filter(pred)
    });
    if pred(rows[i]) {
        assert(rows.take(i).filter(pred).push(rows[i]).map_values(
            |r: JoinedRow| spec_episode_of(r),
        ) =~= rows.take(i).filter(pred).map_values(|r: JoinedRow| spec_episode_of(r)).push(
            spec_episode_of(rows[i]),
        ));
    }
}

/// Gathers one show from the rows of the joined select that all belong to
/// it: the show's columns from the first row, and the rows grouped into
/// seasons by their season id.
pub fn process_single_joined_show(rows: Vec<JoinedRow>) -> (r: TVShow)
    requires
        rows@.len() > 0,
    ensures
        show_matches(rows@, r),
{
    // First pass: one season per distinct id, in first-appearance order.
    let mut bases: Vec<TVShowSeason> = Vec::new();
    let mut i: usize = 0;
    while i < rows.len()
        invariant
            i <= rows@.len(),
            bases@ == season_bases(rows@.take(i as int)),
        decreases rows@.len() - i,
    {
        let row = &rows[i];
        let mut seen = false;
        let mut j: usize = 0;
        while j < bases.len()
            invariant
                j <= bases@.len(),
                seen == exists|t: int| 0 <= t < j && bases@[t].id == row.season_id,
                row == rows@[i as int],
                i < rows@.len(),
            decreases bases@.len() - j,
        {
            if bases[j].id == row.season_id {
                seen = true;
            }
            j = j + 1;
        }
        proof {
            assert(seen == has_season_id(bases@, rows@[i as int].season_id));
            assert(rows@.take(i + 1).drop_last() =~= rows@.take(i as int));
            assert(rows@.take(i + 1).last() == rows@[i as int]);
        }
        if !seen {
            bases.push(
                TVShowSeason {
                    id: row.season_id,
                    show_id: row.season_show_id,
                    num: row.season_num,
                    name: row.season_name.clone(),
                    summary: row.season_summary.clone(),
                    cover_img: row.season_cover_img.clone(),
                    provider_id: row.season_provider_id.clone(),
                    provider_url: row.season_provider_url.clone(),
                    episodes: None,
                },
            );
        }
        i = i + 1;
    }
    proof {
        assert(rows@.take(rows@.len() as int) =~= rows@);
    }
    // Second pass: attach to each season the episodes of its rows.
    let ghost basesv = bases@;
    let mut seasons: Vec<TVShowSeason> = Vec::new();
    let mut k: usize = 0;
    while k < bases.len()
        invariant
            k <= bases@.len(),
            bases@ == basesv,
            basesv == season_bases(rows@),
            seasons@.len() == k,
            forall|t: int| 0 <= t < k ==> season_matches(rows@, basesv[t], #[trigger] seasons@[t]),
        decreases bases@.len() - k,
    {
        let sid = bases[k].id;
        let mut es: Vec<TVShowEpisode> = Vec::new();
        let mut i2: usize = 0;
        while i2 < rows.len()
            invariant
                i2 <= rows@.len(),
                es@ == episodes_for(rows@.take(i2 as int), sid),
            decreases rows@.len() - i2,
        {
            let row = &rows[i2];
            proof {
                lemma_episodes_for_step(rows@, sid, i2 as int);
            }
            if row.season_id == sid {
                es.push(
                    TVShowEpisode {
                        id: row.episode_id,
                        show_id: row.episode_show_id,
                        season_id: row.episode_season_id,
                        num: row.episode_num,
                        season_num: row.episode_season_num,
                        name: row.episode_name.clone(),
                        summary: row.episode_summary.clone(),
                        cover_img: row.episode_cover_img.clone(),
                        runtime: row.episode_runtime,
                        provider_id: row.episode_provider_id.clone(),
                        provider_url: row.episode_provider_url.clone(),
                    },
                );
            }
            i2 = i2 + 1;
        }
        proof {
            assert(rows@.take(rows@.len() as int) =~= rows@);
        }
        let b = &bases[k];
        seasons.push(
            TVShowSeason {
                id: b.id,
                show_id: b.show_id,
                num: b.num,
                name: b.name.clone(),
                summary: b.summary.clone(),
                cover_img: b.cover_img.clone(),
                provider_id: b.provider_id.clone(),
                provider_url: b.provider_url.clone(),
                episodes: Some(es),
            },
        );
        k = k + 1;
    }
    let first = &rows[0];
    TVShow {
        id: first.show_id,
        name: first.show_name.clone(),
        summary: first.show_summary.clone(),
        cover_img: first.show_cover_img.clone(),
        provider: first.show_provider,
        provider_id: first.show_provider_id.clone(),
        provider_url: first.show_provider_url.clone(),
        seasons: Some(seasons),
    }
}

/// The text of one parameter group: `$start,$start+1,...`, one numbered
/// placeholder per value.
pub open spec fn group_params(values: nat, start: nat) -> Seq<char>
    decreases values,
{
    if values == 0 {
        Seq::empty()
    } else if values == 1 {
        seq!['$'] + decimal_chars(start)
    } else {
        seq!['$'] + decimal_chars(start) + seq![','] + group_params((values - 1) as nat, start + 1)
    }
}

/// The text of all parameter groups of a multi-row insert: each group is
/// ` (...)`, the groups separated by commas, the placeholders numbered
/// consecutively from `start` on.
pub open spec fn groups_params(values: nat, groups: nat, start: nat) -> Seq<char>
    decreases groups,
{
    if groups == 0 {
        Seq::empty()
    } else {
        let g = seq![' ', '('] + group_params(values, start) + seq![')'];
        if groups == 1 {
            g
        } else {
            g + seq![','] + groups_params(values, (groups - 1) as nat, start + values)
        }
    }
}

/// The distinct show ids of the rows, in order of first appearance.
pub open spec fn show_ids(rows: Seq<JoinedRow>) -> Seq<i32>
    decreases rows.len(),
{
    if rows.len() == 0 {
        Seq::empty()
    } else {
        let b = show_ids(rows.drop_last());
        if b.contains(rows.last().show_id) {
            b
        } else {
            b.push(rows.last().show_id)
        }
    }
}

/// The rows that belong to one show, in row order.
pub open spec fn rows_for_show(rows: Seq<JoinedRow>, id: i32) -> Seq<JoinedRow> {
    rows.filter(|r: JoinedRow| r.show_id == id)
}

proof fn lemma_rows_for_show_step(rows: Seq<JoinedRow>, id: i32, i: int)
    requires
        0 <= i < rows.len(),
    ensures
        rows_for_show(rows.take(i + 1), id) == if rows[i].show_id == id {
            rows_for_show(rows.take(i), id).push(rows[i])
        } else {
            rows_for_show(rows.take(i), id)
        },
{
    reveal(Seq::filter);
    let pred = |r: JoinedRow| r.show_id == id;
    let t1 = rows.take(i + 1);
    assert(t1.drop_last() =~= rows.take(i));
    assert(t1.last() == rows[i]);
}

/// Gathers every show found in the rows of the joined select: the rows are
/// grouped by show id in order of first appearance, each group assembled
/// as by [`process_single_joined_show`].
pub fn process_multiple_joined_shows(rows: Vec<JoinedRow>) -> (r: Vec<TVShow>)
    ensures
        r@.len() == show_ids(rows@).len(),
        forall|k: int|
            0 <= k < r@.len() ==> show_matches(
                rows_for_show(rows@, show_ids(rows@)[k]),
                #[trigger] r@[k],
            ),
{
    let ghost rows0 = rows@;
    let mut rem_rows = rows;
    let total: usize = rem_rows.len();
    let mut ids: Vec<i32> = Vec::new();
    let mut groups: Vec<Vec<JoinedRow>> = Vec::new();
    let mut i: usize = 0;
    while rem_rows.len() > 0
        invariant
            rows0.len() == total,
            i <= rows0.len(),
            forall|a: int, b: int| 0 <= a < b < ids@.len() ==> ids@[a] != ids@[b],
            rem_rows@ == rows0.skip(i as int),
            ids@ == show_ids(rows0.take(i as int)),
            groups@.len() == ids@.len(),
            forall|t: int|
                0 <= t < ids@.len() ==> (#[trigger] groups@[t])@ == rows_for_show(
                    rows0.take(i as int),
                    ids@[t],
                ),
            forall|t: int| 0 <= t < groups@.len() ==> (#[trigger] groups@[t])@.len() > 0,
        decreases rem_rows@.len(),
    {
        let row = rem_rows.remove(0);
        proof {
            assert(row == rows0[i as int]);
            assert(rem_rows@ =~= rows0.skip(i + 1));
            assert(rows0.take(i + 1).drop_last() =~= rows0.take(i as int));
            assert(rows0.take(i + 1).last() == rows0[i as int]);
        }
        let mut found: Option<usize> = None;
        let mut j: usize = 0;
        while j < ids.len()
            invariant
                j <= ids@.len(),
                match found {
                    Some(f) => f < j && ids@[f as int] == row.show_id,
                    None => forall|t: int| 0 <= t < j ==> ids@[t] != row.show_id,
                },
                row == rows0[i as int],
            decreases ids@.len() - j,
        {
            if found.is_none() && ids[j] == row.show_id {
                found = Some(j);
            }
            j = j + 1;
        }
        let ghost gid = row.show_id;
        let ghost ids0 = ids@;
        let ghost groups0 = groups@;
        match found {
            Some(f) => {
                proof {
                    assert(ids0[f as int] == gid);
                    assert(ids0.contains(gid));
                }
                let mut g = groups.remove(f);
                let ghost g0 = g@;
                g.push(row);
                let ghost gv = g@;
                groups.insert(f, g);
                proof {
                    assert(groups@ =~= groups0.update(f as int, groups@[f as int]));
                    assert(groups@[f as int]@ == g0.push(rows0[i as int]));
                    assert(g0 == groups0[f as int]@);
                    assert(ids@ == show_ids(rows0.take(i + 1)));
                    assert forall|t: int| 0 <= t < ids@.len() implies (#[trigger] groups@[t])@
                        == rows_for_show(rows0.take(i + 1), ids@[t]) by {
                        lemma_rows_for_show_step(rows0, ids@[t], i as int);
                        if t != f {
                            assert(groups@[t] == groups0[t]);
                            assert(ids@[f as int] == gid);
                            assert(ids@[t] != gid);
                        }
                    }
                }
            }
            None => {
                proof {
                    assert(!ids0.contains(gid)) by {
                        if ids0.contains(gid) {
                            let w = choose|w: int| 0 <= w < ids0.len() && ids0[w] == gid;
                            assert(ids0[w] == gid);
                        }
                    }
                    lemma_show_ids_complete(rows0.take(i as int), gid);
                    assert forall|t: int|
                        0 <= t < rows0.take(i as int).len() implies rows0.take(i as int)[t].show_id
                        != gid by {}
                    lemma_rows_for_show_absent(rows0.take(i as int), gid);
                }
                ids.push(row.show_id);
                let mut g: Vec<JoinedRow> = Vec::new();
                g.push(row);
                groups.push(g);
                proof {
                    assert(ids@ == show_ids(rows0.take(i + 1)));
                    assert forall|t: int| 0 <= t < ids@.len() implies (#[trigger] groups@[t])@
                        == rows_for_show(rows0.take(i + 1), ids@[t]) by {
                        lemma_rows_for_show_step(rows0, ids@[t], i as int);
                        if t < ids@.len() - 1 {
                            assert(groups@[t] == groups0[t]);
                            assert(ids@[t] != gid);
                        } else {
                            assert(rows_for_show(rows0.take(i + 1), gid) =~= Seq::<
                                JoinedRow,
                            >::empty().push(rows0[i as int]));
                            assert(groups@[t]@ =~= Seq::<JoinedRow>::empty().push(
                                rows0[i as int],
                            ));
                        }
                    }
                }
            }
        }
        i = i + 1;
    }
    proof {
        assert(rows0.take(rows0.len() as int) =~= rows0);
    }
    let ghost idsv = ids@;
    let ghost groupsv = groups@;
    let mut shows: Vec<TVShow> = Vec::new();
    let mut rem_groups = groups;
    let gtotal: usize = rem_groups.len();
    let mut k: usize = 0;
    while rem_groups.len() > 0
        invariant
            groupsv.len() == gtotal,
            k <= groupsv.len(),
            rem_groups@ == groupsv.skip(k as int),
            shows@.len() == k,
            idsv == show_ids(rows0),
            groupsv.len() == idsv.len(),
            forall|t: int|
                0 <= t < idsv.len() ==> (#[trigger] groupsv[t])@ == rows_for_show(
                    rows0,
                    idsv[t],
                ),
            forall|t: int| 0 <= t < groupsv.len() ==> (#[trigger] groupsv[t])@.len() > 0,
            forall|t: int|
                0 <= t < k ==> show_matches(rows_for_show(rows0, idsv[t]), #[trigger] shows@[t]),
        decreases rem_groups@.len(),
    {
        let g = rem_groups.remove(0);
        proof {
            assert(g == groupsv[k as int]);
            assert(rem_groups@ =~= groupsv.skip(k + 1));
        }
        let s = process_single_joined_show(g);
        shows.push(s);
        k = k + 1;
    }
    shows
}

proof fn lemma_show_ids_complete(rows: Seq<JoinedRow>, x: i32)
    ensures
        show_ids(rows).contains(x) <==> exists|t: int| 0 <= t < rows.len() && rows[t].show_id == x,
    decreases rows.len(),
{
    if rows.len() == 0 {
        assert(!show_ids(rows).contains(x));
    } else {
        let butlast = rows.drop_last();
        let b = show_ids(butlast);
        lemma_show_ids_complete(butlast, x);
        if rows.last().show_id == x {
            if b.contains(x) {
                assert(show_ids(rows).contains(x));
            } else {
                assert(show_ids(rows) == b.push(x));
                assert(show_ids(rows)[b.len() as int] == x);
                assert(show_ids(rows).contains(x));
            }
            assert(rows[rows.len() - 1].show_id == x);
        } else {
            if show_ids(rows).contains(x) {
                let w = choose|w: int|
                    0 <= w < show_ids(rows).len() && show_ids(rows)[w] == x;
                if !b.contains(x) {
                    assert(show_ids(rows) == b.push(rows.last().show_id));
                    assert(w < b.len());
                    assert(b[w] == x);
                    assert(b.contains(x));
                }
            }
            if b.contains(x) {
                let w = choose|w: int| 0 <= w < butlast.len() && butlast[w].show_id == x;
                assert(rows[w].show_id == x);
                if !b.contains(x) {
                }
                assert(show_ids(rows) == b || show_ids(rows) == b.push(rows.last().show_id));
                if show_ids(rows) == b.push(rows.last().show_id) {
                    let v = choose|v: int| 0 <= v < b.len() && b[v] == x;
                    assert(show_ids(rows)[v] == x);
                }
                assert(show_ids(rows).contains(x));
            }
            if exists|t: int| 0 <= t < rows.len() && rows[t].show_id == x {
                let tt = choose|tt: int| 0 <= tt < rows.len() && rows[tt].show_id == x;
                assert(tt < rows.len() - 1);
                assert(butlast[tt].show_id == x);
            }
        }
    }
}

proof fn lemma_rows_for_show_absent(rows: Seq<JoinedRow>, id: i32)
    requires
        forall|t: int| 0 <= t < rows.len() ==> rows[t].show_id != id,
    ensures
        rows_for_show(rows, id) == Seq::<JoinedRow>::empty(),
    decreases rows.len(),
{
    reveal(Seq::filter);
    if rows.len() > 0 {
        let butlast = rows.drop_last();
        assert forall|t: int| 0 <= t < butlast.len() implies butlast[t].show_id != id by {
            assert(butlast[t] == rows[t]);
        }
        lemma_rows_for_show_absent(butlast, id);
        assert(rows.last().show_id != id);
    }
}

/// Builds the placeholder text of a multi-row insert: for each group of
/// `values` parameters one ` ($n,...,$m)` term, numbered consecutively
/// starting at 1.
pub fn insert_many_placeholders(values: u8, groups: usize) -> (r: String)
    requires
        values as nat * groups as nat + 1 <= u64::MAX as nat,
    ensures
        r@ == groups_params(values as nat, groups as nat, 1),
{
    proof {
        reveal_strlit(" (");
        reveal_strlit(")");
        reveal_strlit(",");
        reveal_strlit("$");
    }
    let mut s = String::new();
    let mut num: u64 = 1;
    let mut i: usize = 0;
    while i < groups
        invariant
            i <= groups,
            num == 1 + i as nat * values as nat,
            values as nat * groups as nat + 1 <= u64::MAX as nat,
            groups_params(values as nat, groups as nat, 1) == s@ + groups_params(
                values as nat,
                (groups - i) as nat,
                num as nat,
            ),
        decreases groups - i,
    {
        proof {
            assert(i as nat * values as nat <= groups as nat * values as nat) by (nonlinear_arith)
                requires
                    i <= groups,
            ;
        }
        s.append(" (");
        let mut j: u8 = 0;
        let ghost mid = s@;
        while j < values
            invariant
                j <= values,
                num == 1 + i as nat * values as nat,
                i < groups,
                values as nat * groups as nat + 1 <= u64::MAX as nat,
                group_params(values as nat, num as nat) == s@.skip(mid.len() as int)
                    + group_params((values - j) as nat, num as nat + j as nat),
                s@.len() >= mid.len(),
                mid == s@.take(mid.len() as int),
            decreases values - j,
        {
            proof {
                reveal_strlit(",");
                reveal_strlit("$");
                assert((i + 1) as nat * values as nat <= values as nat * groups as nat)
                    by (nonlinear_arith)
                    requires
                        i + 1 <= groups,
                ;
                assert((i + 1) as nat * values as nat == i as nat * values as nat + values as nat)
                    by (nonlinear_arith);
                assert(num as nat + j as nat <= u64::MAX as nat);
            }
            s.append("$");
            let digits = u64_to_string(num + j as u64);
            s.append(digits.as_str());
            if j + 1 < values {
                s.append(",");
            }
            j = j + 1;
            proof {
                assert(group_params(values as nat, num as nat) == s@.skip(mid.len() as int)
                    + group_params((values - j) as nat, num as nat + j as nat)) by {
                    assert("$"@ =~= seq!['$']);
                    assert(","@ =~= seq![',']);
                    assert(s@.take(mid.len() as int) =~= mid);
                }
            }
        }
        proof {
            assert(s@.skip(mid.len() as int) + group_params(0, num as nat + values as nat) =~= s@
                .skip(mid.len() as int));
            assert(s@ =~= mid + s@.skip(mid.len() as int));
            assert(s@ == mid + group_params(values as nat, num as nat));
        }
        s.append(")");
        proof {
            assert((i + 1) as nat * values as nat == i as nat * values as nat + values as nat)
                by (nonlinear_arith);
            assert((i + 1) as nat * values as nat <= values as nat * groups as nat)
                by (nonlinear_arith)
                requires
                    i + 1 <= groups,
            ;
        }
        num = num + values as u64;
        if i + 1 < groups {
            s.append(",");
        }
        i = i + 1;
        proof {
            reveal_strlit(" (");
            reveal_strlit(")");
            reveal_strlit(",");
            assert(" ("@ =~= seq![' ', '(']);
            assert(")"@ =~= seq![')']);
            assert(","@ =~= seq![',']);
            assert(groups_params(values as nat, groups as nat, 1) == s@ + groups_params(
                values as nat,
                (groups - i) as nat,
                num as nat,
            ));
        }
    }
    proof {
        assert(s@ + groups_params(values as nat, 0, num as nat) =~= s@);
    }
    s
}

} // verus!
