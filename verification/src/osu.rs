//! Completion statuses for beatmaps and beatmap sets.
//!
//! A status is either `Played(grade)`, `NotPlayed` (a record exists but the
//! map was never cleared) or `NotInstalled` (no record at all).  The three
//! tiers and the grades within `Played` form one strict total order, given by
//! `status_rank`: `NotInstalled` ranks lowest, then `NotPlayed`, then the
//! played grades from worst (`D`) to best (`SSSilver`).  Sorting ascending by
//! this order therefore surfaces the most pending items first.

use std::sync::Arc;
use vstd::prelude::*;

verus! {

/// A completion grade for a single beatmap, from best (`SSSilver`) to worst
/// (`D`) in declaration order; the semantic order is given by `grade_rank`.
#[derive(Debug, Clone, Copy, PartialEq, Eq, Structural)]
pub enum OsuBeatmapGrade {
    SSSilver,
    SS,
    SSilver,
    S,
    A,
    B,
    C,
    D,
}

/// The completion status of a beatmap or beatmap set.
#[derive(Debug, Clone, Copy, PartialEq, Eq, Structural)]
pub enum OsuBeatmapStatus {
    Played(OsuBeatmapGrade),
    NotPlayed,
    NotInstalled,
}

/// Rank of a grade in the total order, from worst (`D`, 0) to best
/// (`SSSilver`, 7).
pub open spec fn grade_rank(g: OsuBeatmapGrade) -> int {
    match g {
        OsuBeatmapGrade::D => 0,
        OsuBeatmapGrade::C => 1,
        OsuBeatmapGrade::B => 2,
        OsuBeatmapGrade::A => 3,
        OsuBeatmapGrade::S => 4,
        OsuBeatmapGrade::SSilver => 5,
        OsuBeatmapGrade::SS => 6,
        OsuBeatmapGrade::SSSilver => 7,
    }
}

/// Rank of a status in the total order: `NotInstalled` < `NotPlayed` < every
/// `Played(g)`, and played statuses order by their grade.
pub open spec fn status_rank(s: OsuBeatmapStatus) -> int {
    match s {
        OsuBeatmapStatus::NotInstalled => 0,
        OsuBeatmapStatus::NotPlayed => 1,
        OsuBeatmapStatus::Played(g) => 2 + grade_rank(g),
    }
}

/// No two distinct statuses share a rank, so the rank order is strict.
pub proof fn lemma_status_rank_injective(a: OsuBeatmapStatus, b: OsuBeatmapStatus)
    ensures
        status_rank(a) == status_rank(b) ==> a == b,
{
}

impl OsuBeatmapGrade {
    /// The rank of this grade as a machine integer.
    pub fn rank(self) -> (r: u8)
        ensures
            r as int == grade_rank(self),
    {
        match self {
            OsuBeatmapGrade::D => 0,
            OsuBeatmapGrade::C => 1,
            OsuBeatmapGrade::B => 2,
            OsuBeatmapGrade::A => 3,
            OsuBeatmapGrade::S => 4,
            OsuBeatmapGrade::SSilver => 5,
            OsuBeatmapGrade::SS => 6,
            OsuBeatmapGrade::SSSilver => 7,
        }
    }
}

impl OsuBeatmapStatus {
    /// The rank of this status as a machine integer.
    pub fn rank(self) -> (r: u8)
        ensures
            r as int == status_rank(self),
    {
        match self {
            OsuBeatmapStatus::NotInstalled => 0,
            OsuBeatmapStatus::NotPlayed => 1,
            OsuBeatmapStatus::Played(g) => 2 + g.rank(),
        }
    }
}

/// The worst played grade in a list of statuses: statuses other than
/// `Played` are ignored, and of the played grades the lowest-ranked one is
/// kept; a list without a played status yields `NotPlayed`.
pub open spec fn spec_worst_played(rs: Seq<OsuBeatmapStatus>) -> OsuBeatmapStatus
    decreases rs.len(),
{
    if rs.len() == 0 {
        OsuBeatmapStatus::NotPlayed
    } else {
        let rest = spec_worst_played(rs.drop_last());
        match rs.last() {
            OsuBeatmapStatus::Played(g) => match rest {
                OsuBeatmapStatus::Played(h) => if grade_rank(g) < grade_rank(h) {
                    OsuBeatmapStatus::Played(g)
                } else {
                    OsuBeatmapStatus::Played(h)
                },
                _ => OsuBeatmapStatus::Played(g),
            },
            _ => rest,
        }
    }
}

/// The worst played grade among `ranks`, or `NotPlayed` when nothing was
/// played.
pub fn worst_of(ranks: &Vec<OsuBeatmapStatus>) -> (r: OsuBeatmapStatus)
    ensures
        r == spec_worst_played(ranks@),
{
    let n: usize = ranks.len();
    let mut w: OsuBeatmapStatus = OsuBeatmapStatus::NotPlayed;
    proof {
        assert(ranks@.subrange(0, 0) =~= Seq::<OsuBeatmapStatus>::empty());
    }
    for i in 0..n
        invariant
            n == ranks@.len(),
            w == spec_worst_played(ranks@.subrange(0, i as int)),
    {
        let e = ranks[i];
        proof {
            assert(ranks@.subrange(0, i as int + 1).drop_last() =~= ranks@.subrange(0, i as int));
            assert(ranks@.subrange(0, i as int + 1).last() == ranks@[i as int]);
        }
        w = match (e, w) {
            (OsuBeatmapStatus::Played(g), OsuBeatmapStatus::Played(h)) => if g.rank() < h.rank() {
                e
            } else {
                w
            },
            (OsuBeatmapStatus::Played(_), _) => e,
            (_, _) => w,
        };
    }
    proof {
        assert(ranks@.subrange(0, n as int) =~= ranks@);
    }
    w
}

/// What the worst-grade reduction returns: a played status of the list
/// whose rank no other played status of the list undercuts, or `NotPlayed`
/// when the list holds no played status at all.
pub proof fn lemma_worst_played_minimal(rs: Seq<OsuBeatmapStatus>)
    ensures
        forall|i: int|
            0 <= i < rs.len() && (#[trigger] rs[i]) is Played ==> spec_worst_played(rs) is Played,
        forall|i: int|
            0 <= i < rs.len() && (#[trigger] rs[i]) is Played ==> status_rank(
                spec_worst_played(rs),
            ) <= status_rank(rs[i]),
        spec_worst_played(rs) is Played ==> rs.contains(spec_worst_played(rs)),
        (forall|i: int| 0 <= i < rs.len() ==> !((#[trigger] rs[i]) is Played))
            ==> spec_worst_played(rs) == OsuBeatmapStatus::NotPlayed,
    decreases rs.len(),
{
    if rs.len() > 0 {
        let pre = rs.drop_last();
        lemma_worst_played_minimal(pre);
        assert(forall|i: int| 0 <= i < pre.len() ==> pre[i] == #[trigger] rs[i]);
        let w = spec_worst_played(rs);
        let wp = spec_worst_played(pre);
        assert forall|i: int| 0 <= i < rs.len() && (#[trigger] rs[i]) is Played implies w
            is Played by {
            if i < rs.len() - 1 {
                assert(pre[i] is Played);
                assert(wp is Played);
            }
        }
        assert forall|i: int| 0 <= i < rs.len() && (#[trigger] rs[i]) is Played implies status_rank(
            w,
        ) <= status_rank(rs[i]) by {
            if i < rs.len() - 1 {
                assert(pre[i] is Played);
                assert(wp is Played);
                assert(status_rank(wp) <= status_rank(pre[i]));
            }
        }
        if w is Played {
            if spec_worst_played(pre) is Played && w == spec_worst_played(pre) {
                assert(pre.contains(w));
                let m = choose|m: int| 0 <= m < pre.len() && pre[m] == w;
                assert(rs[m] == w);
                assert(rs.contains(w));
            } else {
                assert(w == rs.last());
                assert(rs[rs.len() - 1] == w);
                assert(rs.contains(w));
            }
        }
    }
}

/// A completion grade as the osu!classic listing database records it, one
/// variant per value the database format knows.
#[derive(Debug, Clone, Copy, PartialEq, Eq, Structural)]
pub enum ListingGrade {
    SSPlus,
    SPlus,
    SS,
    S,
    A,
    B,
    C,
    D,
    Unplayed,
}

/// The status a listing grade stands for.  Every cleared grade at `S` or
/// below collapses to `Played(S)`; the silver grades and `SS` keep their
/// own tier; `Unplayed` means a record exists but was never cleared.
pub open spec fn spec_status_from_grade(g: ListingGrade) -> OsuBeatmapStatus {
    match g {
        ListingGrade::SSPlus => OsuBeatmapStatus::Played(OsuBeatmapGrade::SSSilver),
        ListingGrade::SPlus => OsuBeatmapStatus::Played(OsuBeatmapGrade::SSilver),
        ListingGrade::SS => OsuBeatmapStatus::Played(OsuBeatmapGrade::SS),
        ListingGrade::S => OsuBeatmapStatus::Played(OsuBeatmapGrade::S),
        ListingGrade::A => OsuBeatmapStatus::Played(OsuBeatmapGrade::S),
        ListingGrade::B => OsuBeatmapStatus::Played(OsuBeatmapGrade::S),
        ListingGrade::C => OsuBeatmapStatus::Played(OsuBeatmapGrade::S),
        ListingGrade::D => OsuBeatmapStatus::Played(OsuBeatmapGrade::S),
        ListingGrade::Unplayed => OsuBeatmapStatus::NotPlayed,
    }
}

/// The status an optional listing grade stands for: no grade at all means
/// the map is not installed.
pub open spec fn spec_status_from_opt_grade(g: Option<ListingGrade>) -> OsuBeatmapStatus {
    match g {
        Option::Some(x) => spec_status_from_grade(x),
        Option::None => OsuBeatmapStatus::NotInstalled,
    }
}

impl From<ListingGrade> for OsuBeatmapStatus {
    fn from(g: ListingGrade) -> (r: Self) {
        match g {
            ListingGrade::SSPlus => OsuBeatmapStatus::Played(OsuBeatmapGrade::SSSilver),
            ListingGrade::SPlus => OsuBeatmapStatus::Played(OsuBeatmapGrade::SSilver),
            ListingGrade::SS => OsuBeatmapStatus::Played(OsuBeatmapGrade::SS),
            ListingGrade::S => OsuBeatmapStatus::Played(OsuBeatmapGrade::S),
            ListingGrade::A => OsuBeatmapStatus::Played(OsuBeatmapGrade::S),
            ListingGrade::B => OsuBeatmapStatus::Played(OsuBeatmapGrade::S),
            ListingGrade::C => OsuBeatmapStatus::Played(OsuBeatmapGrade::S),
            ListingGrade::D => OsuBeatmapStatus::Played(OsuBeatmapGrade::S),
            ListingGrade::Unplayed => OsuBeatmapStatus::NotPlayed,
        }
    }
}

impl vstd::std_specs::convert::FromSpecImpl<ListingGrade> for OsuBeatmapStatus {
    open spec fn obeys_from_spec() -> bool {
        true
    }

    open spec fn from_spec(g: ListingGrade) -> Self {
        spec_status_from_grade(g)
    }
}

impl From<Option<ListingGrade>> for OsuBeatmapStatus {
    fn from(g: Option<ListingGrade>) -> (r: Self) {
        match g {
            Some(x) => Self::from(x),
            None => OsuBeatmapStatus::NotInstalled,
        }
    }
}

impl vstd::std_specs::convert::FromSpecImpl<Option<ListingGrade>> for OsuBeatmapStatus {
    open spec fn obeys_from_spec() -> bool {
        true
    }

    open spec fn from_spec(g: Option<ListingGrade>) -> Self {
        spec_status_from_opt_grade(g)
    }
}

/// One row of the listing database, reduced to the plain values the status
/// queries read: the two identifiers and the per-mode grades.
#[derive(Debug, Clone, Copy, PartialEq, Eq, Structural)]
pub struct BeatmapRecord {
    pub beatmapset_id: u64,
    pub beatmap_id: u64,
    pub std_grade: ListingGrade,
    pub taiko_grade: ListingGrade,
    pub ctb_grade: ListingGrade,
    pub mania_grade: ListingGrade,
}

/// The first record carrying both identifiers, if any.
pub open spec fn spec_find_beatmap(rs: Seq<BeatmapRecord>, bms_id: u64, bm_id: u64) -> Option<
    BeatmapRecord,
>
    decreases rs.len(),
{
    if rs.len() == 0 {
        None
    } else if rs[0].beatmapset_id == bms_id && rs[0].beatmap_id == bm_id {
        Some(rs[0])
    } else {
        spec_find_beatmap(rs.subrange(1, rs.len() as int), bms_id, bm_id)
    }
}

/// The standard-mode status a row list answers for one beatmap: the grade
/// of the first record with both identifiers, or `NotInstalled` without
/// one.
pub open spec fn spec_grade_std(rs: Seq<BeatmapRecord>, bms_id: u64, bm_id: u64)
    -> OsuBeatmapStatus {
    spec_status_from_opt_grade(
        match spec_find_beatmap(rs, bms_id, bm_id) {
            Option::Some(rec) => Option::Some(rec.std_grade),
            Option::None => Option::None,
        },
    )
}

/// The taiko-mode status a row list answers for one beatmap.
pub open spec fn spec_grade_taiko(rs: Seq<BeatmapRecord>, bms_id: u64, bm_id: u64)
    -> OsuBeatmapStatus {
    spec_status_from_opt_grade(
        match spec_find_beatmap(rs, bms_id, bm_id) {
            Option::Some(rec) => Option::Some(rec.taiko_grade),
            Option::None => Option::None,
        },
    )
}

/// The catch-the-beat status a row list answers for one beatmap.
pub open spec fn spec_grade_ctb(rs: Seq<BeatmapRecord>, bms_id: u64, bm_id: u64)
    -> OsuBeatmapStatus {
    spec_status_from_opt_grade(
        match spec_find_beatmap(rs, bms_id, bm_id) {
            Option::Some(rec) => Option::Some(rec.ctb_grade),
            Option::None => Option::None,
        },
    )
}

/// The mania-mode status a row list answers for one beatmap.
pub open spec fn spec_grade_mania(rs: Seq<BeatmapRecord>, bms_id: u64, bm_id: u64)
    -> OsuBeatmapStatus {
    spec_status_from_opt_grade(
        match spec_find_beatmap(rs, bms_id, bm_id) {
            Option::Some(rec) => Option::Some(rec.mania_grade),
            Option::None => Option::None,
        },
    )
}

/// The beatmap identifiers a row list records for one set, in row order.
pub open spec fn set_ids(rs: Seq<BeatmapRecord>, bms_id: u64) -> Seq<u64> {
    rs.filter(|x: BeatmapRecord| x.beatmapset_id == bms_id).map_values(
        |x: BeatmapRecord| x.beatmap_id,
    )
}

/// The four per-mode statuses a row list answers for one beatmap.
pub open spec fn status_quad(rs: Seq<BeatmapRecord>, bms_id: u64, bm_id: u64) -> Seq<
    OsuBeatmapStatus,
> {
    seq![
        spec_grade_std(rs, bms_id, bm_id),
        spec_grade_taiko(rs, bms_id, bm_id),
        spec_grade_ctb(rs, bms_id, bm_id),
        spec_grade_mania(rs, bms_id, bm_id),
    ]
}

/// The per-mode statuses a row list answers for each of `ids`, in order.
pub open spec fn lookup_statuses(rs: Seq<BeatmapRecord>, bms_id: u64, ids: Seq<u64>) -> Seq<
    OsuBeatmapStatus,
>
    decreases ids.len(),
{
    if ids.len() == 0 {
        Seq::empty()
    } else {
        lookup_statuses(rs, bms_id, ids.drop_last()) + status_quad(rs, bms_id, ids.last())
    }
}

/// The worst rank of one beatmap set against a row list: `NotInstalled`
/// when the list records no beatmap of the set at all, and otherwise the
/// worst played grade over the per-mode statuses looked up for each of the
/// set's beatmap identifiers.
pub open spec fn spec_worst_rank(rs: Seq<BeatmapRecord>, bms_id: u64) -> OsuBeatmapStatus {
    let ids = set_ids(rs, bms_id);
    if ids.len() == 0 {
        OsuBeatmapStatus::NotInstalled
    } else {
        spec_worst_played(lookup_statuses(rs, bms_id, ids))
    }
}

/// The worst-grade reduction never answers `NotInstalled` itself: such
/// entries are ignored, and an empty or never-played list yields
/// `NotPlayed`.
pub proof fn lemma_worst_played_never_not_installed(rs: Seq<OsuBeatmapStatus>)
    ensures
        !(spec_worst_played(rs) is NotInstalled),
    decreases rs.len(),
{
    if rs.len() > 0 {
        lemma_worst_played_never_not_installed(rs.drop_last());
    }
}

/// A set's worst rank is `NotInstalled` exactly when the row list records
/// no beatmap of the set.
pub proof fn lemma_worst_rank_not_installed(rs: Seq<BeatmapRecord>, bms_id: u64)
    ensures
        (spec_worst_rank(rs, bms_id) == OsuBeatmapStatus::NotInstalled) <==> set_ids(
            rs,
            bms_id,
        ).len() == 0,
{
    if set_ids(rs, bms_id).len() > 0 {
        lemma_worst_played_never_not_installed(lookup_statuses(rs, bms_id, set_ids(rs, bms_id)));
    }
}

/// The rows of an osu!classic listing database, in file order, as plain
/// records; the queries of the `Osu` interface run against this index.
pub struct BeatmapIndex {
    records: Vec<BeatmapRecord>,
}

impl View for BeatmapIndex {
    type V = Seq<BeatmapRecord>;

    closed spec fn view(&self) -> Seq<BeatmapRecord> {
        self.records@
    }
}

impl BeatmapIndex {
    /// An index over the given rows, kept in their order.
    pub fn new(records: Vec<BeatmapRecord>) -> (r: Self)
        ensures
            r@ == records@,
    {
        BeatmapIndex { records }
    }

    /// The first record with both identifiers, as the queries resolve a
    /// beatmap.
    pub fn get_beatmap_(&self, bms_id: u64, bm_id: u64) -> (r: Option<BeatmapRecord>)
        ensures
            r == spec_find_beatmap(self@, bms_id, bm_id),
    {
        let n: usize = self.records.len();
        proof {
            assert(self@.subrange(0, n as int) =~= self@);
        }
        for i in 0..n
            invariant
                n == self.records@.len(),
                self@ == self.records@,
                spec_find_beatmap(self@, bms_id, bm_id) == spec_find_beatmap(
                    self@.subrange(i as int, n as int),
                    bms_id,
                    bm_id,
                ),
        {
            let rec = self.records[i];
            proof {
                assert(self@.subrange(i as int, n as int)[0] == self@[i as int]);
                assert(self@.subrange(i as int, n as int).subrange(
                    1,
                    (n - i) as int,
                ) =~= self@.subrange(i as int + 1, n as int));
            }
            if rec.beatmapset_id == bms_id && rec.beatmap_id == bm_id {
                return Some(rec);
            }
        }
        proof {
            assert(self@.subrange(n as int, n as int) =~= Seq::<BeatmapRecord>::empty());
        }
        None
    }

    /// Every record of the set with this identifier, in file order.
    pub fn maps_of_set(&self, bms_id: u64) -> (r: Vec<BeatmapRecord>)
        ensures
            r@ == self@.filter(|x: BeatmapRecord| x.beatmapset_id == bms_id),
    {
        let n: usize = self.records.len();
        let mut out: Vec<BeatmapRecord> = Vec::new();
        proof {
            assert(self@.subrange(0, 0) =~= Seq::<BeatmapRecord>::empty());
            assert(Seq::<BeatmapRecord>::empty().filter(
                |x: BeatmapRecord| x.beatmapset_id == bms_id,
            ) =~= Seq::<BeatmapRecord>::empty());
        }
        for i in 0..n
            invariant
                n == self.records@.len(),
                self@ == self.records@,
                out@ == self@.subrange(0, i as int).filter(
                    |x: BeatmapRecord| x.beatmapset_id == bms_id,
                ),
        {
            let rec = self.records[i];
            proof {
                let pred = |x: BeatmapRecord| x.beatmapset_id == bms_id;
                assert(self@.subrange(0, i as int + 1).drop_last() =~= self@.subrange(0, i as int));
                assert(self@.subrange(0, i as int + 1).last() == self@[i as int]);
                reveal_with_fuel(Seq::filter, 2);
                assert(self@.subrange(0, i as int + 1).filter(pred) == if pred(self@[i as int]) {
                    self@.subrange(0, i as int).filter(pred).push(self@[i as int])
                } else {
                    self@.subrange(0, i as int).filter(pred)
                });
            }
            if rec.beatmapset_id == bms_id {
                out.push(rec);
            }
        }
        proof {
            assert(self@.subrange(0, n as int) =~= self@);
        }
        out
    }

    /// The standard-mode status of a beatmap: the grade of its record, or
    /// `NotInstalled` without one.
    pub fn grade_std(&self, bms_id: u64, bm_id: u64) -> (r: OsuBeatmapStatus)
        ensures
            r == spec_grade_std(self@, bms_id, bm_id),
    {
        match self.get_beatmap_(bms_id, bm_id) {
            Some(rec) => OsuBeatmapStatus::from(rec.std_grade),
            None => OsuBeatmapStatus::NotInstalled,
        }
    }

    /// The taiko-mode status of a beatmap.
    pub fn grade_taiko(&self, bms_id: u64, bm_id: u64) -> (r: OsuBeatmapStatus)
        ensures
            r == spec_grade_taiko(self@, bms_id, bm_id),
    {
        match self.get_beatmap_(bms_id, bm_id) {
            Some(rec) => OsuBeatmapStatus::from(rec.taiko_grade),
            None => OsuBeatmapStatus::NotInstalled,
        }
    }

    /// The catch-the-beat status of a beatmap.
    pub fn grade_ctb(&self, bms_id: u64, bm_id: u64) -> (r: OsuBeatmapStatus)
        ensures
            r == spec_grade_ctb(self@, bms_id, bm_id),
    {
        match self.get_beatmap_(bms_id, bm_id) {
            Some(rec) => OsuBeatmapStatus::from(rec.ctb_grade),
            None => OsuBeatmapStatus::NotInstalled,
        }
    }

    /// The mania-mode status of a beatmap.
    pub fn grade_mania(&self, bms_id: u64, bm_id: u64) -> (r: OsuBeatmapStatus)
        ensures
            r == spec_grade_mania(self@, bms_id, bm_id),
    {
        match self.get_beatmap_(bms_id, bm_id) {
            Some(rec) => OsuBeatmapStatus::from(rec.mania_grade),
            None => OsuBeatmapStatus::NotInstalled,
        }
    }
}

/// The worst rank of one beatmap set, computed against a verified index:
/// `NotInstalled` when the index records no beatmap of the set,
/// `NotPlayed` when none of its beatmaps was cleared in any mode, and
/// otherwise the lowest-ranked cleared grade over all modes of all its
/// beatmaps.
pub fn worst_rank_of(index: &BeatmapIndex, bms_id: u64) -> (r: OsuBeatmapStatus)
    ensures
        r == spec_worst_rank(index@, bms_id),
{
    let ms = index.maps_of_set(bms_id);
    let mut ids: Vec<u64> = Vec::new();
    let n: usize = ms.len();
    for i in 0..n
        invariant
            n == ms@.len(),
            ids@.len() == i,
            forall|k: int| 0 <= k < i ==> ids@[k] == ms@[k].beatmap_id,
    {
        ids.push(ms[i].beatmap_id);
    }
    proof {
        assert(ids@ =~= set_ids(index@, bms_id));
    }
    if ids.len() == 0 {
        return OsuBeatmapStatus::NotInstalled;
    }
    let mut ranks: Vec<OsuBeatmapStatus> = Vec::new();
    let m: usize = ids.len();
    proof {
        assert(lookup_statuses(index@, bms_id, ids@.subrange(0, 0)) =~= ranks@);
    }
    for i in 0..m
        invariant
            m == ids@.len(),
            ids@ == set_ids(index@, bms_id),
            ranks@ == lookup_statuses(index@, bms_id, ids@.subrange(0, i as int)),
    {
        let ghost pre = ranks@;
        let bm_id = ids[i];
        ranks.push(index.grade_std(bms_id, bm_id));
        ranks.push(index.grade_taiko(bms_id, bm_id));
        ranks.push(index.grade_ctb(bms_id, bm_id));
        ranks.push(index.grade_mania(bms_id, bm_id));
        proof {
            assert(ids@.subrange(0, i as int + 1).drop_last() =~= ids@.subrange(0, i as int));
            assert(ids@.subrange(0, i as int + 1).last() == ids@[i as int]);
            assert(ranks@ =~= pre + status_quad(index@, bms_id, ids@[i as int]));
        }
    }
    proof {
        assert(ids@.subrange(0, m as int) =~= ids@);
    }
    worst_of(&ranks)
}

/// A status source.  The engine only ever queries completion statuses
/// through this interface, so it never depends on which source backs it.
/// Each source answers from a list of plain listing rows, `records`, and
/// every method promises to agree with that list.  `BeatmapIndex` is the
/// verified implementation; each backing database format is reduced to an
/// index when it is opened.
pub trait Osu {
    /// The listing rows this source answers from.
    spec fn records(&self) -> Seq<BeatmapRecord>;

    /// Identifiers of every beatmap the source records for the set, in the
    /// source's own order.
    fn beatmapset_map_ids(&self, beatmapset_id: u64) -> (r: Vec<u64>)
        ensures
            r@ == set_ids(self.records(), beatmapset_id),
    ;

    /// The standard-mode status of one beatmap.
    fn get_beatmap_grade_std(&self, beatmapset_id: u64, beatmap_id: u64) -> (r: OsuBeatmapStatus)
        ensures
            r == spec_grade_std(self.records(), beatmapset_id, beatmap_id),
    ;

    /// The taiko-mode status of one beatmap.
    fn get_beatmap_grade_taiko(&self, beatmapset_id: u64, beatmap_id: u64) -> (r: OsuBeatmapStatus)
        ensures
            r == spec_grade_taiko(self.records(), beatmapset_id, beatmap_id),
    ;

    /// The catch-the-beat status of one beatmap.
    fn get_beatmap_grade_ctb(&self, beatmapset_id: u64, beatmap_id: u64) -> (r: OsuBeatmapStatus)
        ensures
            r == spec_grade_ctb(self.records(), beatmapset_id, beatmap_id),
    ;

    /// The mania-mode status of one beatmap.
    fn get_beatmap_grade_mania(&self, beatmapset_id: u64, beatmap_id: u64) -> (r: OsuBeatmapStatus)
        ensures
            r == spec_grade_mania(self.records(), beatmapset_id, beatmap_id),
    ;
}

impl Osu for BeatmapIndex {
    /// An index answers from exactly the rows it holds.
    open spec fn records(&self) -> Seq<BeatmapRecord> {
        self@
    }

    fn beatmapset_map_ids(&self, beatmapset_id: u64) -> (r: Vec<u64>) {
        let ms = self.maps_of_set(beatmapset_id);
        let mut ids: Vec<u64> = Vec::new();
        let n: usize = ms.len();
        for i in 0..n
            invariant
                n == ms@.len(),
                ms@ == self@.filter(|x: BeatmapRecord| x.beatmapset_id == beatmapset_id),
                ids@.len() == i,
                forall|k: int| 0 <= k < i ==> ids@[k] == ms@[k].beatmap_id,
        {
            ids.push(ms[i].beatmap_id);
        }
        proof {
            assert(ids@ =~= set_ids(self@, beatmapset_id));
        }
        ids
    }

    fn get_beatmap_grade_std(&self, beatmapset_id: u64, beatmap_id: u64) -> (r:
        OsuBeatmapStatus) {
        self.grade_std(beatmapset_id, beatmap_id)
    }

    fn get_beatmap_grade_taiko(&self, beatmapset_id: u64, beatmap_id: u64) -> (r:
        OsuBeatmapStatus) {
        self.grade_taiko(beatmapset_id, beatmap_id)
    }

    fn get_beatmap_grade_ctb(&self, beatmapset_id: u64, beatmap_id: u64) -> (r:
        OsuBeatmapStatus) {
        self.grade_ctb(beatmapset_id, beatmap_id)
    }

    fn get_beatmap_grade_mania(&self, beatmapset_id: u64, beatmap_id: u64) -> (r:
        OsuBeatmapStatus) {
        self.grade_mania(beatmapset_id, beatmap_id)
    }
}

/// A handle on one beatmap set of a status source.
pub struct OsuBeatmapSet<O: Osu> {
    osu: Arc<O>,
    bms_id: u64,
}

impl<O: Osu> OsuBeatmapSet<O> {
    /// The listing rows of the source this handle queries.
    pub closed spec fn source_records(&self) -> Seq<BeatmapRecord> {
        self.osu.records()
    }

    /// The set identifier this handle was built for.
    pub closed spec fn spec_id(&self) -> u64 {
        self.bms_id
    }

    /// A handle for the set with this identifier.
    pub fn new(osu: Arc<O>, bms_id: u64) -> (r: Self)
        ensures
            r.source_records() == osu.records(),
            r.spec_id() == bms_id,
    {
        OsuBeatmapSet { osu, bms_id }
    }

    /// The worst played grade over all modes of all beatmaps of the set:
    /// `NotInstalled` when the source records no beatmap of it at all,
    /// `NotPlayed` when none was cleared in any mode, and otherwise the
    /// lowest-ranked cleared grade, as `worst_of` computes it from the
    /// statuses the source returned.
    pub fn worst_rank(&self) -> (r: OsuBeatmapStatus)
        ensures
            r == spec_worst_rank(self.source_records(), self.spec_id()),
    {
        let ids = self.osu.beatmapset_map_ids(self.bms_id);
        if ids.len() == 0 {
            return OsuBeatmapStatus::NotInstalled;
        }
        let mut ranks: Vec<OsuBeatmapStatus> = Vec::new();
        let n: usize = ids.len();
        proof {
            assert(lookup_statuses(self.source_records(), self.spec_id(), ids@.subrange(0, 0))
                =~= ranks@);
        }
        for i in 0..n
            invariant
                n == ids@.len(),
                ids@ == set_ids(self.source_records(), self.spec_id()),
                ranks@ == lookup_statuses(
                    self.source_records(),
                    self.spec_id(),
                    ids@.subrange(0, i as int),
                ),
        {
            let ghost pre = ranks@;
            let bm_id = ids[i];
            ranks.push(self.osu.get_beatmap_grade_std(self.bms_id, bm_id));
            ranks.push(self.osu.get_beatmap_grade_taiko(self.bms_id, bm_id));
            ranks.push(self.osu.get_beatmap_grade_ctb(self.bms_id, bm_id));
            ranks.push(self.osu.get_beatmap_grade_mania(self.bms_id, bm_id));
            proof {
                assert(ids@.subrange(0, i as int + 1).drop_last() =~= ids@.subrange(0, i as int));
                assert(ids@.subrange(0, i as int + 1).last() == ids@[i as int]);
                assert(ranks@ =~= pre + status_quad(
                    self.source_records(),
                    self.spec_id(),
                    ids@[i as int],
                ));
            }
        }
        proof {
            assert(ids@.subrange(0, n as int) =~= ids@);
        }
        worst_of(&ranks)
    }
}

/// A handle on one beatmap of a status source.
pub struct OsuBeatmap<O: Osu> {
    osu: Arc<O>,
    bms_id: u64,
    bm_id: u64,
}

impl<O: Osu> OsuBeatmap<O> {
    /// The listing rows of the source this handle queries.
    pub closed spec fn source_records(&self) -> Seq<BeatmapRecord> {
        self.osu.records()
    }

    /// The set identifier this handle was built for.
    pub closed spec fn spec_bms_id(&self) -> u64 {
        self.bms_id
    }

    /// The beatmap identifier this handle was built for.
    pub closed spec fn spec_bm_id(&self) -> u64 {
        self.bm_id
    }

    /// A handle for the beatmap with these identifiers.
    pub fn new(osu: Arc<O>, bms_id: u64, bm_id: u64) -> (r: Self)
        ensures
            r.source_records() == osu.records(),
            r.spec_bms_id() == bms_id,
            r.spec_bm_id() == bm_id,
    {
        OsuBeatmap { osu, bms_id, bm_id }
    }

    /// The standard-mode status of this beatmap.
    pub fn std_grade(&self) -> (r: OsuBeatmapStatus)
        ensures
            r == spec_grade_std(self.source_records(), self.spec_bms_id(), self.spec_bm_id()),
    {
        self.osu.get_beatmap_grade_std(self.bms_id, self.bm_id)
    }

    /// The taiko-mode status of this beatmap.
    pub fn taiko_grade(&self) -> (r: OsuBeatmapStatus)
        ensures
            r == spec_grade_taiko(self.source_records(), self.spec_bms_id(), self.spec_bm_id()),
    {
        self.osu.get_beatmap_grade_taiko(self.bms_id, self.bm_id)
    }

    /// The catch-the-beat status of this beatmap.
    pub fn ctb_grade(&self) -> (r: OsuBeatmapStatus)
        ensures
            r == spec_grade_ctb(self.source_records(), self.spec_bms_id(), self.spec_bm_id()),
    {
        self.osu.get_beatmap_grade_ctb(self.bms_id, self.bm_id)
    }

    /// The mania-mode status of this beatmap.
    pub fn mania_grade(&self) -> (r: OsuBeatmapStatus)
        ensures
            r == spec_grade_mania(self.source_records(), self.spec_bms_id(), self.spec_bm_id()),
    {
        self.osu.get_beatmap_grade_mania(self.bms_id, self.bm_id)
    }
}

/// Locates files of the osu!lazer store, which shards a hashed file under
/// its first character and its first two characters.
pub struct Osu50HashResolver {
    pub folder: String,
}

impl Osu50HashResolver {
    /// A resolver rooted at the given store folder.
    pub fn new(folder: String) -> (r: Self)
        ensures
            r.folder@ == folder@,
    {
        Osu50HashResolver { folder }
    }

    /// The two shard directory names a hash resolves under: its first
    /// character and its first two characters (shorter hashes shard under
    /// what there is of them).
    pub fn shard_prefixes(&self, hash: &str) -> (r: (String, String))
        ensures
            r.0@ == hash@.subrange(
                0,
                if hash@.len() < 1 {
                    hash@.len() as int
                } else {
                    1
                },
            ),
            r.1@ == hash@.subrange(
                0,
                if hash@.len() < 2 {
                    hash@.len() as int
                } else {
                    2
                },
            ),
    {
        let n: usize = hash.unicode_len();
        let k1: usize = if n < 1 {
            n
        } else {
            1
        };
        let k2: usize = if n < 2 {
            n
        } else {
            2
        };
        let first = hash.substring_char(0, k1).to_owned();
        let first_two = hash.substring_char(0, k2).to_owned();
        (first, first_two)
    }
}

} // verus!
