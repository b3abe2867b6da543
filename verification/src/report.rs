//! The analysis of a timeline: why its gaps are there, where the chain
//! branches, how the orphans hang together, and what may help.

use crate::clusters::{components, group_views, groups_upto, is_grouping, link_views};
use crate::linker::{
    build_index, frame_views, frames_of, gap_views, index_by_id, link, link_frames,
    located_frame_views, GapView, SequenceGap, Timeline, TimelineView,
};
use crate::scanner::{located_views, LocatedFrame, LocatedView};
use crate::index::{
    frame_by_id, holds_last, holds_places, holds_positions, map_by_id, place_by_id, places_by_id,
    position_by_id, positions_by_id,
};
use crate::types::{hashes_equal, Frame, FrameView};
use std::collections::BTreeMap;
use vstd::prelude::*;
use vstd::string::StringExecFns;

verus! {

/// Why a gap is there.
#[derive(Debug, Clone, Copy, PartialEq, Eq, Structural)]
pub enum GapReason {
    /// Ids were skipped.
    MissingById,
    /// The ids are consecutive, but the back-link does not match.
    MissingByHash,
}

/// A gap with its reason.
#[derive(Debug, Clone, Copy, PartialEq, Eq)]
pub struct GapDetail {
    /// The gap.
    pub gap: SequenceGap,
    /// Its reason.
    pub reason: GapReason,
}

/// What a gap with its reason holds.
pub struct GapDetailView {
    pub gap: GapView,
    pub reason: GapReason,
}

impl View for GapDetail {
    type V = GapDetailView;

    open spec fn view(&self) -> GapDetailView {
        GapDetailView { gap: self.gap@, reason: self.reason }
    }
}

/// A predecessor with more than one successor.
#[derive(Debug, Clone, PartialEq, Eq)]
pub struct ChainConflict {
    /// Id of the predecessor.
    pub at: u64,
    /// Ids of the frames that claim it, ascending.
    pub contenders: Vec<u64>,
}

/// What a conflict holds.
pub struct ConflictView {
    pub at: u64,
    pub contenders: Seq<u64>,
}

impl View for ChainConflict {
    type V = ConflictView;

    open spec fn view(&self) -> ConflictView {
        ConflictView { at: self.at, contenders: self.contenders@ }
    }
}

/// Orphans that hang together by their links.
#[derive(Debug, Clone, PartialEq, Eq)]
pub struct OrphanCluster {
    /// Ids of the frames of the cluster, ascending.
    pub ids: Vec<u64>,
}

/// What a cluster holds.
pub struct ClusterView {
    pub ids: Seq<u64>,
}

impl View for OrphanCluster {
    type V = ClusterView;

    open spec fn view(&self) -> ClusterView {
        ClusterView { ids: self.ids@ }
    }
}

/// A hint for recovery.
#[derive(Debug, PartialEq, Eq)]
pub enum RecoveryRecipe {
    /// A parity frame in the gap would help.
    InsertParityFrame {
        /// Ids of the frames around the gap.
        between: (u64, u64),
        /// Why the hint is given.
        reason: String,
    },
    /// The reader's offset near a frame may be off.
    RewindOffset {
        /// Id of the frame near which the offset is to be moved.
        near_frame: u64,
        /// Number of bytes to move by: where the frame starts, less where
        /// the frame before the gap ends.
        by_bytes: isize,
        /// Why the hint is given.
        reason: String,
    },
}

/// What a hint holds.
pub enum RecipeView {
    InsertParityFrame { between: (u64, u64), reason: Seq<char> },
    RewindOffset { near_frame: u64, by_bytes: int, reason: Seq<char> },
}

impl View for RecoveryRecipe {
    type V = RecipeView;

    open spec fn view(&self) -> RecipeView {
        match *self {
            RecoveryRecipe::InsertParityFrame { between, reason } => RecipeView::InsertParityFrame {
                between,
                reason: reason@,
            },
            RecoveryRecipe::RewindOffset { near_frame, by_bytes, reason } => RecipeView::RewindOffset {
                near_frame,
                by_bytes: by_bytes as int,
                reason: reason@,
            },
        }
    }
}

impl Clone for RecoveryRecipe {
    fn clone(&self) -> (r: Self)
        ensures
            r@ == self@,
    {
        match self {
            RecoveryRecipe::InsertParityFrame { between, reason } => RecoveryRecipe::InsertParityFrame {
                between: (between.0, between.1),
                reason: reason.clone(),
            },
            RecoveryRecipe::RewindOffset { near_frame, by_bytes, reason } => RecoveryRecipe::RewindOffset {
                near_frame: *near_frame,
                by_bytes: *by_bytes,
                reason: reason.clone(),
            },
        }
    }
}

/// A timeline with its analysis.
#[derive(Debug, Clone)]
pub struct TimelineReport {
    /// The timeline.
    pub timeline: Timeline,
    /// The gaps with their reasons.
    pub gap_details: Vec<GapDetail>,
    /// The places where the chain branches.
    pub conflicts: Vec<ChainConflict>,
    /// The orphans, in clusters.
    pub orphan_clusters: Vec<OrphanCluster>,
    /// Hints for recovery.
    pub recipes: Vec<RecoveryRecipe>,
}

/// What a report holds.
pub struct ReportView {
    pub timeline: TimelineView,
    pub gap_details: Seq<GapDetailView>,
    pub conflicts: Seq<ConflictView>,
    pub orphan_clusters: Seq<ClusterView>,
    pub recipes: Seq<RecipeView>,
}

/// What gap details hold.
pub open spec fn detail_views(v: Seq<GapDetail>) -> Seq<GapDetailView> {
    v.map_values(|d: GapDetail| d@)
}

/// What conflicts hold.
pub open spec fn conflict_views(v: Seq<ChainConflict>) -> Seq<ConflictView> {
    v.map_values(|c: ChainConflict| c@)
}

/// What clusters hold.
pub open spec fn cluster_views(v: Seq<OrphanCluster>) -> Seq<ClusterView> {
    v.map_values(|c: OrphanCluster| c@)
}

/// What hints hold.
pub open spec fn recipe_views(v: Seq<RecoveryRecipe>) -> Seq<RecipeView> {
    v.map_values(|r: RecoveryRecipe| r@)
}

impl View for TimelineReport {
    type V = ReportView;

    open spec fn view(&self) -> ReportView {
        ReportView {
            timeline: self.timeline@,
            gap_details: detail_views(self.gap_details@),
            conflicts: conflict_views(self.conflicts@),
            orphan_clusters: cluster_views(self.orphan_clusters@),
            recipes: recipe_views(self.recipes@),
        }
    }
}

/// The last of the first `n` frames that has the id `id`.
pub open spec fn frame_with_id(frames: Seq<FrameView>, id: u64, n: int) -> Option<FrameView>
    decreases n,
{
    if n <= 0 || n > frames.len() {
        None
    } else if frames[n - 1].header.frame_id == id {
        Some(frames[n - 1])
    } else {
        frame_with_id(frames, id, n - 1)
    }
}

/// The id of the last of the first `n` frames whose chain hash is `hash`.
pub open spec fn id_with_hash(frames: Seq<FrameView>, hash: Seq<u8>, n: int) -> Option<u64>
    decreases n,
{
    if n <= 0 || n > frames.len() {
        None
    } else if frames[n - 1].hash() == hash {
        Some(frames[n - 1].header.frame_id)
    } else {
        id_with_hash(frames, hash, n - 1)
    }
}

/// The reason of a gap among the frames `all`: ids that are not
/// consecutive make it a gap by id; with consecutive ids it is a gap by
/// hash where both frames are known and the link between them is broken.
pub open spec fn reason_of(all: Seq<FrameView>, gap: GapView) -> GapReason {
    if gap.after != gap.before + 1 {
        GapReason::MissingById
    } else {
        match (
            frame_with_id(all, gap.before, all.len() as int),
            frame_with_id(all, gap.after, all.len() as int),
        ) {
            (Some(prev), Some(next)) => if next.header.prev_hash == prev.hash() {
                GapReason::MissingById
            } else {
                GapReason::MissingByHash
            },
            _ => GapReason::MissingById,
        }
    }
}

/// The gaps with their reasons.
pub open spec fn details_of(all: Seq<FrameView>, gaps: Seq<GapView>) -> Seq<GapDetailView> {
    gaps.map_values(|g: GapView| GapDetailView { gap: g, reason: reason_of(all, g) })
}

/// The id of the frame that `f` claims as its predecessor: the frame whose
/// chain hash `f` carries.
pub open spec fn claimed_by(all: Seq<FrameView>, f: FrameView) -> Option<u64> {
    id_with_hash(all, f.header.prev_hash, all.len() as int)
}

/// The ids of those of the first `n` frames of the index that claim the
/// frame with the id `pred` as their predecessor.
pub open spec fn successors(index: Seq<FrameView>, all: Seq<FrameView>, pred: u64, n: int) -> Seq<
    u64,
>
    decreases n,
{
    if n <= 0 || n > index.len() {
        Seq::empty()
    } else if claimed_by(all, index[n - 1]) == Some(pred) {
        successors(index, all, pred, n - 1).push(index[n - 1].header.frame_id)
    } else {
        successors(index, all, pred, n - 1)
    }
}

/// The conflicts at the first `n` frames of the index: a frame that more
/// than one frame claims as predecessor, with the ids of those frames.
pub open spec fn conflicts_upto(index: Seq<FrameView>, all: Seq<FrameView>, n: int) -> Seq<
    ConflictView,
>
    decreases n,
{
    if n <= 0 || n > index.len() {
        Seq::empty()
    } else {
        let at = index[n - 1].header.frame_id;
        let contenders = successors(index, all, at, index.len() as int);
        if contenders.len() > 1 {
            conflicts_upto(index, all, n - 1).push(ConflictView { at, contenders })
        } else {
            conflicts_upto(index, all, n - 1)
        }
    }
}

/// The conflicts among the frames `all`, in ascending order of the
/// predecessor's id, the contenders of each in ascending order.
pub open spec fn conflicts_of(all: Seq<FrameView>) -> Seq<ConflictView> {
    conflicts_upto(index_by_id(all), all, index_by_id(all).len() as int)
}

/// The text of a hint's reason for a gap.
pub open spec fn gap_reason_text(reason: GapReason) -> Seq<char> {
    match reason {
        GapReason::MissingById => "gap detected: MissingById"@,
        GapReason::MissingByHash => "gap detected: MissingByHash"@,
    }
}

/// The hints to insert parity: one for each gap.
pub open spec fn parity_recipes(details: Seq<GapDetailView>) -> Seq<RecipeView> {
    details.map_values(
        |d: GapDetailView|
            RecipeView::InsertParityFrame {
                between: (d.gap.before, d.gap.after),
                reason: gap_reason_text(d.reason),
            },
    )
}

/// Offset and size of the last of the first `n` located frames with the id
/// `id`.
pub open spec fn place_with_id(located: Seq<LocatedView>, id: u64, n: int) -> Option<(nat, nat)>
    decreases n,
{
    if n <= 0 || n > located.len() {
        None
    } else if located[n - 1].frame.header.frame_id == id {
        Some((located[n - 1].offset, located[n - 1].size))
    } else {
        place_with_id(located, id, n - 1)
    }
}

/// `d`, but no less than the least and no more than the largest `isize`.
pub open spec fn clamped(d: int) -> int {
    if d > isize::MAX {
        isize::MAX as int
    } else if d < isize::MIN {
        isize::MIN as int
    } else {
        d
    }
}

/// The hints to move the offset, for the first `n` gaps: one for each gap
/// both of whose frames were located, by the number of bytes between the
/// end of the frame before the gap and the start of the frame after it.
pub open spec fn rewind_recipes(located: Seq<LocatedView>, details: Seq<GapDetailView>, n: int) -> Seq<
    RecipeView,
>
    decreases n,
{
    if n <= 0 || n > details.len() {
        Seq::empty()
    } else {
        let d = details[n - 1];
        match (
            place_with_id(located, d.gap.before, located.len() as int),
            place_with_id(located, d.gap.after, located.len() as int),
        ) {
            (Some(before), Some(after)) => rewind_recipes(located, details, n - 1).push(
                RecipeView::RewindOffset {
                    near_frame: d.gap.after,
                    by_bytes: clamped(after.0 - (before.0 + before.1)),
                    reason: "non-contiguous offsets across gap"@,
                },
            ),
            _ => rewind_recipes(located, details, n - 1),
        }
    }
}

/// The hints for a timeline: for each gap one to insert parity, then, where
/// the frames were located, for each gap one to move the offset.
pub open spec fn recipes_of(details: Seq<GapDetailView>, located: Option<Seq<LocatedView>>) -> Seq<
    RecipeView,
> {
    match located {
        None => parity_recipes(details),
        Some(l) => parity_recipes(details) + rewind_recipes(l, details, details.len() as int),
    }
}

/// The report on a timeline that linking made, from frames that were
/// located or not. Such a timeline has no orphans, so the report has no
/// clusters of them.
pub open spec fn report_of(timeline: TimelineView, located: Option<Seq<LocatedView>>) -> ReportView {
    let all = timeline.frames + timeline.orphans;
    ReportView {
        timeline,
        gap_details: details_of(all, timeline.gaps),
        conflicts: conflicts_of(all),
        orphan_clusters: Seq::empty(),
        recipes: recipes_of(details_of(all, timeline.gaps), located),
    }
}

/// Whether `report` is the report on a timeline, whose frames were located
/// or not: the timeline itself; its gaps with their reasons; the
/// conflicts among its frames, ordered and orphaned; the clusters of its
/// orphans; and the hints.
pub open spec fn is_report_of(
    report: ReportView,
    timeline: TimelineView,
    located: Option<Seq<LocatedView>>,
) -> bool {
    let all = timeline.frames + timeline.orphans;
    &&& report.timeline == timeline
    &&& report.gap_details == details_of(all, timeline.gaps)
    &&& report.conflicts == conflicts_of(all)
    &&& is_clustering(report.orphan_clusters, all, timeline.orphans)
    &&& report.recipes == recipes_of(details_of(all, timeline.gaps), located)
}

/// Finds the id of the last frame with the chain hash.
fn find_id_with_hash(all: &Vec<Frame>, hashes: &Vec<[u8; 32]>, hash: &[u8; 32]) -> (r: Option<u64>)
    requires
        hashes.len() == all.len(),
        forall|i: int| 0 <= i < all.len() ==> (#[trigger] hashes@[i])@ == all@[i]@.hash(),
    ensures
        r == id_with_hash(frame_views(all@), hash@, all.len() as int),
{
    let mut n: usize = all.len();
    while n > 0
        invariant
            n <= all.len(),
            hashes.len() == all.len(),
            forall|i: int| 0 <= i < all.len() ==> (#[trigger] hashes@[i])@ == all@[i]@.hash(),
            id_with_hash(frame_views(all@), hash@, all.len() as int) == id_with_hash(
                frame_views(all@),
                hash@,
                n as int,
            ),
        decreases n,
    {
        if hashes_equal(&hashes[n - 1], hash) {
            return Some(all[n - 1].header.frame_id);
        }
        n -= 1;
    }
    None
}

/// Classifies a gap among the frames that the map holds by id.
fn classify_gap(by_id: &BTreeMap<u64, Frame>, gap: &SequenceGap, Ghost(all): Ghost<Seq<FrameView>>) -> (reason:
    GapReason)
    requires
        holds_last(by_id@, all, all.len() as int),
    ensures
        reason == reason_of(all, gap@),
{
    if gap.before == u64::MAX || gap.after != gap.before + 1 {
        return GapReason::MissingById;
    }
    match (frame_by_id(by_id, gap.before, Ghost(all)), frame_by_id(by_id, gap.after, Ghost(all))) {
        (Some(prev), Some(next)) => {
            let expected = prev.compute_hash();
            if hashes_equal(&next.header.prev_hash, &expected) {
                GapReason::MissingById
            } else {
                GapReason::MissingByHash
            }
        },
        _ => GapReason::MissingById,
    }
}

/// The number of bytes to move by, as far as an `isize` holds it.
fn offset_delta(before: (usize, usize), after_offset: usize) -> (d: isize)
    ensures
        d as int == clamped(after_offset - (before.0 + before.1)),
{
    let d: i128 = (after_offset as i128) - ((before.0 as i128) + (before.1 as i128));
    if d > isize::MAX as i128 {
        isize::MAX
    } else if d < isize::MIN as i128 {
        isize::MIN
    } else {
        d as isize
    }
}

/// The conflicts among the frames.
fn find_conflicts(all: &Vec<Frame>, hashes: &Vec<[u8; 32]>) -> (conflicts: Vec<ChainConflict>)
    requires
        hashes.len() == all.len(),
        forall|i: int| 0 <= i < all.len() ==> (#[trigger] hashes@[i])@ == all@[i]@.hash(),
    ensures
        conflict_views(conflicts@) == conflicts_of(frame_views(all@)),
{
    let ghost views = frame_views(all@);
    let index = build_index(all);
    let ghost ix = frame_views(index@);
    let mut claimed: Vec<Option<u64>> = Vec::new();
    let mut i: usize = 0;
    while i < index.len()
        invariant
            i <= index.len(),
            views == frame_views(all@),
            ix == frame_views(index@),
            hashes.len() == all.len(),
            forall|i: int| 0 <= i < all.len() ==> (#[trigger] hashes@[i])@ == all@[i]@.hash(),
            claimed.len() == i,
            forall|j: int| 0 <= j < i ==> #[trigger] claimed@[j] == claimed_by(views, ix[j]),
        decreases index.len() - i,
    {
        let pred = find_id_with_hash(all, hashes, &index[i].header.prev_hash);
        assert(ix[i as int] == index@[i as int]@);
        claimed.push(pred);
        i += 1;
    }
    let mut conflicts: Vec<ChainConflict> = Vec::new();
    let mut n: usize = 0;
    assert(conflict_views(conflicts@) =~= conflicts_upto(ix, views, 0));
    while n < index.len()
        invariant
            n <= index.len(),
            ix == frame_views(index@),
            claimed.len() == index.len(),
            forall|j: int|
                0 <= j < index.len() ==> #[trigger] claimed@[j] == claimed_by(views, ix[j]),
            conflict_views(conflicts@) == conflicts_upto(ix, views, n as int),
        decreases index.len() - n,
    {
        let at = index[n].header.frame_id;
        assert(ix[n as int] == index@[n as int]@);
        let mut contenders: Vec<u64> = Vec::new();
        let mut m: usize = 0;
        while m < index.len()
            invariant
                m <= index.len(),
                ix == frame_views(index@),
                claimed.len() == index.len(),
                forall|j: int|
                    0 <= j < index.len() ==> #[trigger] claimed@[j] == claimed_by(views, ix[j]),
                contenders@ == successors(ix, views, at, m as int),
            decreases index.len() - m,
        {
            let claims = match claimed[m] {
                Some(p) => p == at,
                None => false,
            };
            assert(ix[m as int] == index@[m as int]@);
            if claims {
                contenders.push(index[m].header.frame_id);
            }
            m += 1;
        }
        if contenders.len() > 1 {
            let ghost before = conflict_views(conflicts@);
            let conflict = ChainConflict { at, contenders };
            conflicts.push(conflict);
            assert(conflict_views(conflicts@) =~= before.push(conflict@));
        }
        n += 1;
    }
    conflicts
}

/// The position of the last of the first `n` frames of the index that has
/// the id `id`.
pub open spec fn position_with_id(index: Seq<FrameView>, id: u64, n: int) -> Option<int>
    decreases n,
{
    if n <= 0 || n > index.len() {
        None
    } else if index[n - 1].header.frame_id == id {
        Some(n - 1)
    } else {
        position_with_id(index, id, n - 1)
    }
}

/// The position, among the orphans, of the orphan that the orphan at
/// position `p` claims as its predecessor.
pub open spec fn link_of(all: Seq<FrameView>, orphans: Seq<FrameView>, p: int) -> Option<int> {
    match claimed_by(all, orphans[p]) {
        None => None,
        Some(id) => position_with_id(orphans, id, orphans.len() as int),
    }
}

/// The links among the orphans.
pub open spec fn links_of(all: Seq<FrameView>, orphans: Seq<FrameView>) -> Seq<Option<int>> {
    Seq::new(orphans.len(), |p: int| link_of(all, orphans, p))
}

/// The clusters of groups of positions: of every position the id of the
/// orphan there.
pub open spec fn clusters_of(groups: Seq<Seq<int>>, orphans: Seq<FrameView>) -> Seq<ClusterView> {
    Seq::new(
        groups.len(),
        |c: int|
            ClusterView {
                ids: Seq::new(groups[c].len(), |i: int| orphans[groups[c][i]].header.frame_id),
            },
    )
}

/// Whether `clusters` are the clusters of the orphans among the frames
/// `all`: the connected components of the orphans, indexed by id, under the
/// claims of one orphan on another as its predecessor. Every orphan is in
/// exactly one cluster; the orphans of a cluster hang together, and none is
/// joined to an orphan outside it. The ids of a cluster ascend, and the
/// clusters come in the order of their smallest ids.
pub open spec fn is_clustering(
    clusters: Seq<ClusterView>,
    all: Seq<FrameView>,
    orphans: Seq<FrameView>,
) -> bool {
    exists|groups: Seq<Seq<int>>| #[trigger]
        is_grouping(groups, links_of(all, index_by_id(orphans))) && clusters == clusters_of(
            groups,
            index_by_id(orphans),
        )
}

/// Without orphans there are no clusters.
pub proof fn lemma_no_orphans_no_clusters(clusters: Seq<ClusterView>, all: Seq<FrameView>)
    requires
        is_clustering(clusters, all, Seq::empty()),
    ensures
        clusters == Seq::<ClusterView>::empty(),
{
    let orphans = index_by_id(Seq::<FrameView>::empty());
    let links = links_of(all, orphans);
    let groups = choose|groups: Seq<Seq<int>>| #[trigger]
        is_grouping(groups, links) && clusters == clusters_of(groups, orphans);
    let assigned = choose|assigned: Seq<bool>| #[trigger]
        groups_upto(groups, links, assigned, links.len() as int);
    if groups.len() > 0 {
        assert(groups[0].len() >= 1);
        assert(0 <= groups[0][0] < links.len());
    }
    assert(clusters =~= Seq::<ClusterView>::empty());
}

/// The clusters of the orphans: orphans that hang together by the claim of
/// one on the other as its predecessor form one cluster.
fn find_clusters(orphans: &Vec<Frame>, all: &Vec<Frame>, hashes: &Vec<[u8; 32]>) -> (clusters: Vec<
    OrphanCluster,
>)
    requires
        hashes.len() == all.len(),
        forall|i: int| 0 <= i < all.len() ==> (#[trigger] hashes@[i])@ == all@[i]@.hash(),
    ensures
        is_clustering(cluster_views(clusters@), frame_views(all@), frame_views(orphans@)),
{
    let index = build_index(orphans);
    let n = index.len();
    let ghost ix = frame_views(index@);
    let ghost views = frame_views(all@);
    let ghost links = links_of(views, ix);
    let by_id = positions_by_id(&index);
    let mut linked: Vec<Option<usize>> = Vec::new();
    let mut i: usize = 0;
    while i < n
        invariant
            i <= n,
            n == index.len(),
            ix == frame_views(index@),
            views == frame_views(all@),
            holds_positions(by_id@, ix, ix.len() as int),
            hashes.len() == all.len(),
            forall|i: int| 0 <= i < all.len() ==> (#[trigger] hashes@[i])@ == all@[i]@.hash(),
            linked.len() == i,
            forall|j: int| 0 <= j < i ==> (#[trigger] linked@[j] matches Some(p) ==> p < n),
            forall|j: int| 0 <= j < i ==> #[trigger] link_views(linked@)[j] == link_of(views, ix, j),
        decreases n - i,
    {
        assert(ix[i as int] == index@[i as int]@);
        let to = match find_id_with_hash(all, hashes, &index[i].header.prev_hash) {
            Some(pred) => position_by_id(&by_id, pred, Ghost(ix)),
            None => None,
        };
        let ghost before = link_views(linked@);
        linked.push(to);
        assert forall|j: int| 0 <= j < i + 1 implies #[trigger] link_views(linked@)[j] == link_of(
            views,
            ix,
            j,
        ) by {
            if j < i {
                assert(link_views(linked@)[j] == before[j]);
            }
        }
        i += 1;
    }
    assert(link_views(linked@) =~= links);
    let groups = components(&linked);
    let ghost positions = group_views(groups@);
    proof {
        let assigned = choose|assigned: Seq<bool>| #[trigger]
            groups_upto(positions, links, assigned, links.len() as int);
        assert forall|c: int, i: int|
            0 <= c < positions.len() && 0 <= i < positions[c].len() implies 0 <= (
        #[trigger] positions[c][i]) < n by {}
    }
    let mut clusters: Vec<OrphanCluster> = Vec::new();
    let mut c: usize = 0;
    while c < groups.len()
        invariant
            c <= groups.len(),
            n == index.len(),
            ix == frame_views(index@),
            positions == group_views(groups@),
            forall|c: int, i: int|
                0 <= c < positions.len() && 0 <= i < positions[c].len() ==> 0 <= (
                #[trigger] positions[c][i]) < n,
            clusters.len() == c,
            forall|d: int|
                0 <= d < c ==> #[trigger] cluster_views(clusters@)[d] == clusters_of(
                    positions,
                    ix,
                )[d],
        decreases groups.len() - c,
    {
        let group = &groups[c];
        assert(positions[c as int] == group@.map_values(|p: usize| p as int));
        let mut ids: Vec<u64> = Vec::new();
        let mut i: usize = 0;
        while i < group.len()
            invariant
                i <= group.len(),
                n == index.len(),
                ix == frame_views(index@),
                positions[c as int] == group@.map_values(|p: usize| p as int),
                0 <= c < positions.len(),
                forall|i: int|
                    0 <= i < positions[c as int].len() ==> 0 <= (#[trigger] positions[c as int][i])
                        < n,
                ids.len() == i,
                forall|j: int|
                    0 <= j < i ==> #[trigger] ids@[j] == ix[positions[c as int][j]].header.frame_id,
            decreases group.len() - i,
        {
            assert(positions[c as int][i as int] == group@[i as int] as int);
            assert(ix[group@[i as int] as int] == index@[group@[i as int] as int]@);
            ids.push(index[group[i]].header.frame_id);
            i += 1;
        }
        let ghost before = cluster_views(clusters@);
        let cluster = OrphanCluster { ids };
        assert(cluster@.ids =~= clusters_of(positions, ix)[c as int].ids);
        clusters.push(cluster);
        assert forall|d: int| 0 <= d < c + 1 implies #[trigger] cluster_views(clusters@)[d]
            == clusters_of(positions, ix)[d] by {
            if d < c {
                assert(cluster_views(clusters@)[d] == before[d]);
            }
        }
        c += 1;
    }
    assert(cluster_views(clusters@) =~= clusters_of(positions, ix));
    clusters
}

/// The text of a hint's reason for a gap.
fn reason_text(reason: GapReason) -> (s: String)
    ensures
        s@ == gap_reason_text(reason),
{
    match reason {
        GapReason::MissingById => String::from_str("gap detected: MissingById"),
        GapReason::MissingByHash => String::from_str("gap detected: MissingByHash"),
    }
}

/// Builds the report on a timeline, with the places of its frames where
/// they were located.
pub fn build_report_from_timeline(timeline: &Timeline, located: Option<&[LocatedFrame]>) -> (report:
    TimelineReport)
    ensures
        is_report_of(
            report@,
            timeline@,
            match located {
                Some(l) => Some(located_views(l@)),
                None => None,
            },
        ),
{
    let ghost tv = timeline@;
    let ghost all_views = tv.frames + tv.orphans;
    let mut all: Vec<Frame> = Vec::new();
    let mut i: usize = 0;
    while i < timeline.frames.len()
        invariant
            i <= timeline.frames.len(),
            tv == timeline@,
            frame_views(all@) == tv.frames.subrange(0, i as int),
        decreases timeline.frames.len() - i,
    {
        let ghost before = frame_views(all@);
        all.push(timeline.frames[i].duplicate());
        assert(frame_views(all@) =~= before.push(timeline.frames@[i as int]@));
        i += 1;
        assert(frame_views(all@) =~= tv.frames.subrange(0, i as int));
    }
    assert(tv.frames.subrange(0, i as int) =~= tv.frames);
    let mut i: usize = 0;
    assert(frame_views(all@) =~= tv.frames + tv.orphans.subrange(0, 0));
    while i < timeline.orphans.len()
        invariant
            i <= timeline.orphans.len(),
            tv == timeline@,
            frame_views(all@) == tv.frames + tv.orphans.subrange(0, i as int),
        decreases timeline.orphans.len() - i,
    {
        let ghost before = frame_views(all@);
        all.push(timeline.orphans[i].duplicate());
        assert(frame_views(all@) =~= before.push(timeline.orphans@[i as int]@));
        i += 1;
        assert(frame_views(all@) =~= tv.frames + tv.orphans.subrange(0, i as int));
    }
    assert(tv.orphans.subrange(0, i as int) =~= tv.orphans);
    assert(frame_views(all@) == all_views);
    let mut hashes: Vec<[u8; 32]> = Vec::new();
    let mut i: usize = 0;
    while i < all.len()
        invariant
            i <= all.len(),
            hashes.len() == i,
            forall|j: int| 0 <= j < i ==> (#[trigger] hashes@[j])@ == all@[j]@.hash(),
        decreases all.len() - i,
    {
        hashes.push(all[i].compute_hash());
        i += 1;
    }
    // Gaps with their reasons, and a hint to insert parity for each.
    let by_id = map_by_id(&all);
    let mut gap_details: Vec<GapDetail> = Vec::new();
    let mut recipes: Vec<RecoveryRecipe> = Vec::new();
    let ghost details = details_of(all_views, tv.gaps);
    let mut i: usize = 0;
    assert(detail_views(gap_details@) =~= details.subrange(0, 0));
    assert(recipe_views(recipes@) =~= parity_recipes(details.subrange(0, 0)));
    while i < timeline.gaps.len()
        invariant
            i <= timeline.gaps.len(),
            tv == timeline@,
            frame_views(all@) == all_views,
            holds_last(by_id@, all_views, all_views.len() as int),
            details == details_of(all_views, tv.gaps),
            detail_views(gap_details@) == details.subrange(0, i as int),
            recipe_views(recipes@) == parity_recipes(details.subrange(0, i as int)),
        decreases timeline.gaps.len() - i,
    {
        let gap = timeline.gaps[i];
        assert(tv.gaps[i as int] == gap@);
        let reason = classify_gap(&by_id, &gap, Ghost(all_views));
        let ghost details_before = detail_views(gap_details@);
        let ghost recipes_before = recipe_views(recipes@);
        let detail = GapDetail { gap, reason };
        gap_details.push(detail);
        let recipe = RecoveryRecipe::InsertParityFrame {
            between: (gap.before, gap.after),
            reason: reason_text(reason),
        };
        recipes.push(recipe);
        assert(detail_views(gap_details@) =~= details_before.push(detail@));
        assert(recipe_views(recipes@) =~= recipes_before.push(recipe@));
        i += 1;
        assert(detail_views(gap_details@) =~= details.subrange(0, i as int));
        assert(recipe_views(recipes@) =~= parity_recipes(details.subrange(0, i as int)));
    }
    assert(details.subrange(0, i as int) =~= details);
    // Hints to move the offset, where the frames were located.
    match located {
        Some(places) => {
            let ghost located_v = located_views(places@);
            let by_id = places_by_id(places);
            let mut i: usize = 0;
            assert(recipe_views(recipes@) =~= parity_recipes(details) + rewind_recipes(
                located_v,
                details,
                0,
            ));
            while i < gap_details.len()
                invariant
                    i <= gap_details.len(),
                    located_v == located_views(places@),
                    holds_places(by_id@, located_v, located_v.len() as int),
                    detail_views(gap_details@) == details,
                    recipe_views(recipes@) == parity_recipes(details) + rewind_recipes(
                        located_v,
                        details,
                        i as int,
                    ),
                decreases gap_details.len() - i,
            {
                let detail = gap_details[i];
                assert(details[i as int] == detail@);
                match (
                    place_by_id(&by_id, detail.gap.before, Ghost(located_v)),
                    place_by_id(&by_id, detail.gap.after, Ghost(located_v)),
                ) {
                    (Some(before), Some(after)) => {
                        let ghost recipes_before = recipe_views(recipes@);
                        let recipe = RecoveryRecipe::RewindOffset {
                            near_frame: detail.gap.after,
                            by_bytes: offset_delta(before, after.0),
                            reason: String::from_str("non-contiguous offsets across gap"),
                        };
                        recipes.push(recipe);
                        assert(recipe_views(recipes@) =~= recipes_before.push(recipe@));
                    },
                    _ => {},
                }
                i += 1;
            }
        },
        None => {},
    }
    let conflicts = find_conflicts(&all, &hashes);
    let orphan_clusters = find_clusters(&timeline.orphans, &all, &hashes);
    let copy = duplicate_timeline(timeline);
    TimelineReport { timeline: copy, gap_details, conflicts, orphan_clusters, recipes }
}

/// A copy of a timeline that holds the same values.
fn duplicate_timeline(timeline: &Timeline) -> (copy: Timeline)
    ensures
        copy@ == timeline@,
{
    let mut frames: Vec<Frame> = Vec::new();
    let mut i: usize = 0;
    while i < timeline.frames.len()
        invariant
            i <= timeline.frames.len(),
            frames.len() == i,
            forall|j: int| 0 <= j < i ==> (#[trigger] frames@[j])@ == timeline.frames@[j]@,
        decreases timeline.frames.len() - i,
    {
        frames.push(timeline.frames[i].duplicate());
        i += 1;
    }
    let mut orphans: Vec<Frame> = Vec::new();
    let mut i: usize = 0;
    while i < timeline.orphans.len()
        invariant
            i <= timeline.orphans.len(),
            orphans.len() == i,
            forall|j: int| 0 <= j < i ==> (#[trigger] orphans@[j])@ == timeline.orphans@[j]@,
        decreases timeline.orphans.len() - i,
    {
        orphans.push(timeline.orphans[i].duplicate());
        i += 1;
    }
    let gaps = timeline.gaps.clone();
    assert(frame_views(frames@) =~= frame_views(timeline.frames@));
    assert(frame_views(orphans@) =~= frame_views(timeline.orphans@));
    assert(gap_views(gaps@) =~= gap_views(timeline.gaps@));
    Timeline { frames, gaps, orphans }
}

/// Links the frames and analyses the timeline: the gaps with their
/// reasons, the conflicts, and a hint to insert parity for each gap.
pub fn analyze_timeline(frames: Vec<Frame>) -> (report: TimelineReport)
    ensures
        report@ == report_of(link(frame_views(frames@)), None),
{
    let timeline = link_frames(frames);
    let report = build_report_from_timeline(&timeline, None);
    proof {
        assert(timeline@.orphans =~= Seq::empty());
        lemma_no_orphans_no_clusters(
            report@.orphan_clusters,
            timeline@.frames + timeline@.orphans,
        );
    }
    report
}

/// Links the located frames and analyses the timeline as
/// `analyze_timeline` does; the offsets add, for each gap both of whose
/// frames were located, a hint to move the offset.
pub fn analyze_located_frames(located_frames: Vec<LocatedFrame>) -> (report: TimelineReport)
    ensures
        report@ == report_of(
            link(located_frame_views(located_frames@)),
            Some(located_views(located_frames@)),
        ),
{
    let frames = frames_of(&located_frames);
    let timeline = link_frames(frames);
    let report = build_report_from_timeline(&timeline, Some(located_frames.as_slice()));
    proof {
        assert(timeline@.orphans =~= Seq::empty());
        lemma_no_orphans_no_clusters(
            report@.orphan_clusters,
            timeline@.frames + timeline@.orphans,
        );
    }
    report
}

} // verus!
