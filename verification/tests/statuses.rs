use std::sync::Arc;

use osu_unplayed::osu::worst_of;
use osu_unplayed::osu::worst_rank_of;
use osu_unplayed::osz_finder::leading_number;
use osu_unplayed::osu::BeatmapIndex;
use osu_unplayed::osu::BeatmapRecord;
use osu_unplayed::osu::ListingGrade;
use osu_unplayed::osu::Osu50HashResolver;
use osu_unplayed::osu::OsuBeatmap;
use osu_unplayed::osu::OsuBeatmapGrade;
use osu_unplayed::osu::OsuBeatmapSet;
use osu_unplayed::osu::OsuBeatmapStatus;

#[test]
fn ranks_order_statuses_from_pending_to_best() {
    let not_installed = OsuBeatmapStatus::NotInstalled.rank();
    let not_played = OsuBeatmapStatus::NotPlayed.rank();
    let d = OsuBeatmapStatus::Played(OsuBeatmapGrade::D).rank();
    let s = OsuBeatmapStatus::Played(OsuBeatmapGrade::S).rank();
    let sss = OsuBeatmapStatus::Played(OsuBeatmapGrade::SSSilver).rank();
    assert!(not_installed < not_played);
    assert!(not_played < d);
    assert!(d < s);
    assert!(s < sss);
    assert_eq!(not_installed, 0);
    assert_eq!(sss, 9);
}

#[test]
fn worst_of_picks_the_lowest_played_grade() {
    let ranks = vec![
        OsuBeatmapStatus::NotPlayed,
        OsuBeatmapStatus::Played(OsuBeatmapGrade::SS),
        OsuBeatmapStatus::NotInstalled,
        OsuBeatmapStatus::Played(OsuBeatmapGrade::D),
        OsuBeatmapStatus::Played(OsuBeatmapGrade::A),
    ];
    assert_eq!(
        worst_of(&ranks),
        OsuBeatmapStatus::Played(OsuBeatmapGrade::D)
    );
}

#[test]
fn worst_of_without_played_statuses_is_not_played() {
    let ranks = vec![OsuBeatmapStatus::NotInstalled, OsuBeatmapStatus::NotPlayed];
    assert_eq!(worst_of(&ranks), OsuBeatmapStatus::NotPlayed);
    assert_eq!(worst_of(&vec![]), OsuBeatmapStatus::NotPlayed);
}

#[test]
fn listing_grades_collapse_to_statuses() {
    assert_eq!(
        OsuBeatmapStatus::from(ListingGrade::SSPlus),
        OsuBeatmapStatus::Played(OsuBeatmapGrade::SSSilver)
    );
    assert_eq!(
        OsuBeatmapStatus::from(ListingGrade::SPlus),
        OsuBeatmapStatus::Played(OsuBeatmapGrade::SSilver)
    );
    assert_eq!(
        OsuBeatmapStatus::from(ListingGrade::SS),
        OsuBeatmapStatus::Played(OsuBeatmapGrade::SS)
    );
    // Every cleared grade at S or below collapses to Played(S).
    assert_eq!(
        OsuBeatmapStatus::from(ListingGrade::B),
        OsuBeatmapStatus::Played(OsuBeatmapGrade::S)
    );
    assert_eq!(
        OsuBeatmapStatus::from(ListingGrade::Unplayed),
        OsuBeatmapStatus::NotPlayed
    );
    assert_eq!(
        OsuBeatmapStatus::from(None::<ListingGrade>),
        OsuBeatmapStatus::NotInstalled
    );
}

fn record(bms: u64, bm: u64, g: ListingGrade) -> BeatmapRecord {
    BeatmapRecord {
        beatmapset_id: bms,
        beatmap_id: bm,
        std_grade: g,
        taiko_grade: ListingGrade::Unplayed,
        ctb_grade: ListingGrade::Unplayed,
        mania_grade: ListingGrade::Unplayed,
    }
}

#[test]
fn index_queries_resolve_by_first_match() {
    let index = BeatmapIndex::new(vec![
        record(10, 1, ListingGrade::A),
        record(10, 2, ListingGrade::Unplayed),
        record(11, 3, ListingGrade::SS),
        record(10, 1, ListingGrade::D),
    ]);
    let hit = index.get_beatmap_(10, 1).unwrap();
    assert_eq!(hit.std_grade, ListingGrade::A);
    assert!(index.get_beatmap_(12, 1).is_none());
    assert_eq!(index.maps_of_set(10).len(), 3);
    assert_eq!(index.maps_of_set(11).len(), 1);
    assert_eq!(
        index.grade_std(10, 1),
        OsuBeatmapStatus::Played(OsuBeatmapGrade::S)
    );
    assert_eq!(index.grade_std(10, 2), OsuBeatmapStatus::NotPlayed);
    assert_eq!(index.grade_std(12, 9), OsuBeatmapStatus::NotInstalled);
    assert_eq!(index.grade_taiko(10, 1), OsuBeatmapStatus::NotPlayed);
}

#[test]
fn worst_rank_reduces_a_whole_set() {
    let osu = Arc::new(BeatmapIndex::new(vec![
        record(10, 1, ListingGrade::SSPlus),
        record(10, 2, ListingGrade::SPlus),
        record(11, 3, ListingGrade::Unplayed),
    ]));
    // The worst cleared grade of set 10 is the silver S.
    let set10 = OsuBeatmapSet::new(Arc::clone(&osu), 10);
    assert_eq!(
        set10.worst_rank(),
        OsuBeatmapStatus::Played(OsuBeatmapGrade::SSilver)
    );
    // Set 11 exists but nothing in it was ever cleared.
    let set11 = OsuBeatmapSet::new(Arc::clone(&osu), 11);
    assert_eq!(set11.worst_rank(), OsuBeatmapStatus::NotPlayed);
    // Set 12 has no record at all.
    let set12 = OsuBeatmapSet::new(Arc::clone(&osu), 12);
    assert_eq!(set12.worst_rank(), OsuBeatmapStatus::NotInstalled);
    // A single beatmap handle answers per mode.
    let map = OsuBeatmap::new(Arc::clone(&osu), 10, 1);
    assert_eq!(
        map.std_grade(),
        OsuBeatmapStatus::Played(OsuBeatmapGrade::SSSilver)
    );
    assert_eq!(map.taiko_grade(), OsuBeatmapStatus::NotPlayed);
}

#[test]
fn worst_rank_of_reduces_an_index_directly() {
    let index = BeatmapIndex::new(vec![
        record(10, 1, ListingGrade::SSPlus),
        record(10, 2, ListingGrade::SPlus),
        record(11, 3, ListingGrade::Unplayed),
    ]);
    assert_eq!(
        worst_rank_of(&index, 10),
        OsuBeatmapStatus::Played(OsuBeatmapGrade::SSilver)
    );
    assert_eq!(worst_rank_of(&index, 11), OsuBeatmapStatus::NotPlayed);
    // NotInstalled exactly when the index records no beatmap of the set.
    assert_eq!(worst_rank_of(&index, 12), OsuBeatmapStatus::NotInstalled);
    assert_ne!(worst_rank_of(&index, 11), OsuBeatmapStatus::NotInstalled);
}

#[test]
fn leading_number_reads_the_numeric_prefix() {
    assert_eq!(leading_number("123456 Artist - Title.osz"), Some(123456));
    assert_eq!(leading_number("007"), Some(7));
    assert_eq!(leading_number("42"), Some(42));
    assert_eq!(leading_number("abc"), None);
    assert_eq!(leading_number(""), None);
    // The largest identifier that fits, and the first that does not.
    assert_eq!(leading_number("18446744073709551615x"), Some(u64::MAX));
    assert_eq!(leading_number("18446744073709551616"), None);
}

#[test]
fn hash_resolver_shards_by_leading_characters() {
    let resolver = Osu50HashResolver::new("files".to_string());
    assert_eq!(
        resolver.shard_prefixes("abcdef"),
        ("a".to_string(), "ab".to_string())
    );
    assert_eq!(resolver.shard_prefixes("x"), ("x".to_string(), "x".to_string()));
    assert_eq!(resolver.shard_prefixes(""), ("".to_string(), "".to_string()));
}
