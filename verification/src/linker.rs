//! Rebuilding the logical timeline from frames in any order.

pub use crate::dot::report_to_dot;
use crate::error::FrameError;
pub(crate) use crate::index::build_index;
use crate::index::{holds_positions, position_by_id, positions_by_id};
use crate::report::position_with_id;
pub use crate::report::{
    analyze_located_frames, analyze_timeline, ChainConflict, GapDetail, GapReason, OrphanCluster,
    RecoveryRecipe, TimelineReport,
};
use crate::scanner::LocatedFrame;
use crate::types::{hashes_equal, Frame, FrameView, SkipLink};
use std::collections::BTreeMap;
use vstd::prelude::*;

verus! {

/// A place in the timeline where the chain is broken.
#[derive(Debug, Clone, Copy, PartialEq, Eq)]
pub struct SequenceGap {
    /// Id of the frame before the gap.
    pub before: u64,
    /// Id of the frame after the gap.
    pub after: u64,
    /// The chain hash that the frame after the gap expects of its
    /// predecessor.
    pub expected_hash: Option<[u8; 32]>,
}

/// What a gap holds.
pub struct GapView {
    pub before: u64,
    pub after: u64,
    pub expected_hash: Option<Seq<u8>>,
}

impl View for SequenceGap {
    type V = GapView;

    open spec fn view(&self) -> GapView {
        GapView {
            before: self.before,
            after: self.after,
            expected_hash: match self.expected_hash {
                Some(h) => Some(h@),
                None => None,
            },
        }
    }
}

/// A timeline: frames in logical order, the gaps between them, and the
/// frames that could not be attached.
#[derive(Debug, Clone)]
pub struct Timeline {
    /// Frames in logical order.
    pub frames: Vec<Frame>,
    /// Gaps that the order crosses.
    pub gaps: Vec<SequenceGap>,
    /// Frames that could not be attached.
    pub orphans: Vec<Frame>,
}

/// What a timeline holds.
pub struct TimelineView {
    pub frames: Seq<FrameView>,
    pub gaps: Seq<GapView>,
    pub orphans: Seq<FrameView>,
}

/// What a sequence of frames holds.
pub open spec fn frame_views(v: Seq<Frame>) -> Seq<FrameView> {
    v.map_values(|f: Frame| f@)
}

/// What a sequence of gaps holds.
pub open spec fn gap_views(v: Seq<SequenceGap>) -> Seq<GapView> {
    v.map_values(|g: SequenceGap| g@)
}

impl View for Timeline {
    type V = TimelineView;

    open spec fn view(&self) -> TimelineView {
        TimelineView {
            frames: frame_views(self.frames@),
            gaps: gap_views(self.gaps@),
            orphans: frame_views(self.orphans@),
        }
    }
}

/// The index by id with `f` put in: behind the frames of smaller id, in the
/// place of a frame of the same id, before the frames of larger id.
pub open spec fn insert_by_id(index: Seq<FrameView>, f: FrameView) -> Seq<FrameView>
    decreases index.len(),
{
    if index.len() == 0 {
        seq![f]
    } else if index.last().header.frame_id < f.header.frame_id {
        index.push(f)
    } else if index.last().header.frame_id == f.header.frame_id {
        index.drop_last().push(f)
    } else {
        insert_by_id(index.drop_last(), f).push(index.last())
    }
}

/// The frames indexed by id: in ascending order of id, and of frames with
/// one id the last.
pub open spec fn index_by_id(frames: Seq<FrameView>) -> Seq<FrameView>
    decreases frames.len(),
{
    if frames.len() == 0 {
        Seq::empty()
    } else {
        insert_by_id(index_by_id(frames.drop_last()), frames.last())
    }
}

/// Whether the ids of `index` ascend strictly.
pub open spec fn ascending_ids(index: Seq<FrameView>) -> bool {
    forall|i: int, j: int|
        0 <= i < j < index.len() ==> index[i].header.frame_id < index[j].header.frame_id
}

/// The position of the first head of a chain in `index` at or behind `i`:
/// the first frame whose previous hash is all zeros.
pub open spec fn first_head(index: Seq<FrameView>, i: int) -> Option<int>
    decreases index.len() - i,
{
    if i < 0 || i >= index.len() {
        None
    } else if index[i].header.is_first() {
        Some(i)
    } else {
        first_head(index, i + 1)
    }
}

/// The position of the first frame at or behind `i` that was not visited
/// and whose previous hash is `hash`.
pub open spec fn next_linked(index: Seq<FrameView>, done: Seq<int>, hash: Seq<u8>, i: int) -> Option<
    int,
>
    decreases index.len() - i,
{
    if i < 0 || i >= index.len() {
        None
    } else if !done.contains(i) && index[i].header.prev_hash == hash {
        Some(i)
    } else {
        next_linked(index, done, hash, i + 1)
    }
}

/// The position of the first frame at or behind `i` that was not visited.
pub open spec fn next_unvisited(index: Seq<FrameView>, done: Seq<int>, i: int) -> Option<int>
    decreases index.len() - i,
{
    if i < 0 || i >= index.len() {
        None
    } else if !done.contains(i) {
        Some(i)
    } else {
        next_unvisited(index, done, i + 1)
    }
}

/// The gap between two frames that the walk joins without a link.
pub open spec fn gap_between(before: FrameView, after: FrameView) -> GapView {
    GapView {
        before: before.header.frame_id,
        after: after.header.frame_id,
        expected_hash: Some(after.header.prev_hash),
    }
}

/// The walk along the chain. `done` holds the positions visited so far, in
/// order, and `gaps` the gaps crossed. The walk goes to the unvisited frame
/// whose previous hash is the chain hash of the current frame; where there
/// is none, it records a gap and goes to the unvisited frame of smallest id.
/// It ends when every frame was visited.
pub open spec fn walk(index: Seq<FrameView>, done: Seq<int>, gaps: Seq<GapView>) -> (Seq<int>, Seq<
    GapView,
>)
    decreases index.len() - done.len(),
{
    if done.len() == 0 || done.len() >= index.len() {
        (done, gaps)
    } else {
        let current = index[done.last()];
        match next_linked(index, done, current.hash(), 0) {
            Some(j) => walk(index, done.push(j), gaps),
            None => match next_unvisited(index, done, 0) {
                Some(j) => walk(index, done.push(j), gaps.push(gap_between(current, index[j]))),
                None => (done, gaps),
            },
        }
    }
}

/// The frames of `index` at the positions `order`.
pub open spec fn frames_at(index: Seq<FrameView>, order: Seq<int>) -> Seq<FrameView> {
    Seq::new(order.len(), |k: int| index[order[k]])
}

/// The frames of `index` from position `i` on that were not visited.
pub open spec fn unvisited_from(index: Seq<FrameView>, done: Seq<int>, i: int) -> Seq<FrameView>
    decreases index.len() - i,
{
    if i < 0 || i >= index.len() {
        Seq::empty()
    } else if done.contains(i) {
        unvisited_from(index, done, i + 1)
    } else {
        seq![index[i]] + unvisited_from(index, done, i + 1)
    }
}

/// The timeline of the walk that starts at position `start` of the index:
/// the frames in the order of the walk, the gaps it crossed, and as orphans
/// the frames it did not visit.
pub open spec fn timeline_from(index: Seq<FrameView>, start: int) -> TimelineView {
    let (order, gaps) = walk(index, seq![start], Seq::empty());
    TimelineView { frames: frames_at(index, order), gaps, orphans: unvisited_from(index, order, 0) }
}

/// The timeline of frames without a head: the walk starts at the frame of
/// smallest id, without the guarantee of a strict start. No frames give
/// an empty timeline.
pub open spec fn timeline_without_head(index: Seq<FrameView>) -> TimelineView {
    if index.len() == 0 {
        TimelineView { frames: Seq::empty(), gaps: Seq::empty(), orphans: Seq::empty() }
    } else {
        timeline_from(index, 0)
    }
}

/// The timeline that linking makes of `frames`. The frames are indexed by
/// id. The head is the frame of smallest id among those whose previous hash
/// is all zeros; without such a frame, the frame of smallest id stands in
/// for it. From there the walk goes along the chain.
pub open spec fn link(frames: Seq<FrameView>) -> TimelineView {
    let index = index_by_id(frames);
    match first_head(index, 0) {
        None => timeline_without_head(index),
        Some(head) => timeline_from(index, head),
    }
}

/// Putting a frame into an index with ascending ids leaves the ids
/// ascending.
pub proof fn lemma_insert_keeps_ascending(index: Seq<FrameView>, f: FrameView)
    requires
        ascending_ids(index),
    ensures
        ascending_ids(insert_by_id(index, f)),
    decreases index.len(),
{
    if index.len() == 0 {
    } else if index.last().header.frame_id < f.header.frame_id {
    } else if index.last().header.frame_id == f.header.frame_id {
    } else {
        let shorter = index.drop_last();
        lemma_insert_keeps_ascending(shorter, f);
        lemma_insert_members(shorter, f);
        let inner = insert_by_id(shorter, f);
        assert forall|i: int, j: int| 0 <= i < j < inner.push(index.last()).len() implies inner.push(
            index.last(),
        )[i].header.frame_id < inner.push(index.last())[j].header.frame_id by {
            if j == inner.len() {
                if inner[i] != f {
                    let k = choose|k: int| 0 <= k < shorter.len() && shorter[k] == inner[i];
                    assert(shorter[k] == index[k]);
                }
            }
        }
    }
}

/// The frames of an index after `f` was put in are `f` and frames of the
/// index before.
pub proof fn lemma_insert_members(index: Seq<FrameView>, f: FrameView)
    ensures
        forall|i: int|
            0 <= i < insert_by_id(index, f).len() ==> #[trigger] insert_by_id(index, f)[i] == f
                || exists|k: int| 0 <= k < index.len() && index[k] == insert_by_id(index, f)[i],
        insert_by_id(index, f).len() >= 1,
    decreases index.len(),
{
    if index.len() == 0 {
    } else if index.last().header.frame_id < f.header.frame_id {
        assert forall|i: int| 0 <= i < index.push(f).len() implies #[trigger] index.push(f)[i] == f
            || exists|k: int| 0 <= k < index.len() && index[k] == index.push(f)[i] by {
            if i < index.len() {
                assert(index[i] == index.push(f)[i]);
            }
        }
    } else if index.last().header.frame_id == f.header.frame_id {
        let r = index.drop_last().push(f);
        assert forall|i: int| 0 <= i < r.len() implies #[trigger] r[i] == f || exists|k: int|
            0 <= k < index.len() && index[k] == r[i] by {
            if i < index.len() - 1 {
                assert(index[i] == r[i]);
            }
        }
    } else {
        let shorter = index.drop_last();
        lemma_insert_members(shorter, f);
        let inner = insert_by_id(shorter, f);
        let r = inner.push(index.last());
        assert forall|i: int| 0 <= i < r.len() implies #[trigger] r[i] == f || exists|k: int|
            0 <= k < index.len() && index[k] == r[i] by {
            if i < inner.len() {
                if inner[i] != f {
                    let k = choose|k: int| 0 <= k < shorter.len() && shorter[k] == inner[i];
                    assert(index[k] == r[i]);
                }
            } else {
                assert(index[index.len() - 1] == r[i]);
            }
        }
    }
}

/// The index by id has ascending ids.
pub proof fn lemma_index_ascending(frames: Seq<FrameView>)
    ensures
        ascending_ids(index_by_id(frames)),
    decreases frames.len(),
{
    if frames.len() > 0 {
        lemma_index_ascending(frames.drop_last());
        lemma_insert_keeps_ascending(index_by_id(frames.drop_last()), frames.last());
    }
}

/// Finds the first head of a chain in the index.
fn find_head(index: &Vec<Frame>) -> (r: Option<usize>)
    ensures
        match r {
            Some(i) => first_head(frame_views(index@), 0) == Some(i as int) && i < index.len(),
            None => first_head(frame_views(index@), 0) is None,
        },
{
    let mut i: usize = 0;
    while i < index.len()
        invariant
            i <= index.len(),
            first_head(frame_views(index@), 0) == first_head(frame_views(index@), i as int),
        decreases index.len() - i,
    {
        if index[i].header.is_first() {
            return Some(i);
        }
        i += 1;
    }
    None
}

/// Finds the first unvisited frame whose previous hash is `hash`.
fn find_linked(index: &Vec<Frame>, visited: &Vec<bool>, hash: &[u8; 32], Ghost(done): Ghost<
    Seq<int>,
>) -> (r: Option<usize>)
    requires
        visited.len() == index.len(),
        forall|i: int| 0 <= i < index.len() ==> visited@[i] == done.contains(i),
    ensures
        match r {
            Some(i) => next_linked(frame_views(index@), done, hash@, 0) == Some(i as int) && i
                < index.len() && !done.contains(i as int),
            None => next_linked(frame_views(index@), done, hash@, 0) is None,
        },
{
    let mut i: usize = 0;
    while i < index.len()
        invariant
            i <= index.len(),
            visited.len() == index.len(),
            forall|i: int| 0 <= i < index.len() ==> visited@[i] == done.contains(i),
            next_linked(frame_views(index@), done, hash@, 0) == next_linked(
                frame_views(index@),
                done,
                hash@,
                i as int,
            ),
        decreases index.len() - i,
    {
        if !visited[i] && hashes_equal(&index[i].header.prev_hash, hash) {
            return Some(i);
        }
        i += 1;
    }
    None
}

/// Finds the first unvisited frame.
fn find_unvisited(index: &Vec<Frame>, visited: &Vec<bool>, Ghost(done): Ghost<Seq<int>>) -> (r:
    Option<usize>)
    requires
        visited.len() == index.len(),
        forall|i: int| 0 <= i < index.len() ==> visited@[i] == done.contains(i),
    ensures
        match r {
            Some(i) => next_unvisited(frame_views(index@), done, 0) == Some(i as int) && i
                < index.len() && !done.contains(i as int),
            None => next_unvisited(frame_views(index@), done, 0) is None,
        },
{
    let mut i: usize = 0;
    while i < index.len()
        invariant
            i <= index.len(),
            visited.len() == index.len(),
            forall|i: int| 0 <= i < index.len() ==> visited@[i] == done.contains(i),
            next_unvisited(frame_views(index@), done, 0) == next_unvisited(
                frame_views(index@),
                done,
                i as int,
            ),
        decreases index.len() - i,
    {
        if !visited[i] {
            return Some(i);
        }
        i += 1;
    }
    None
}

/// Walks the chain from the frame at position `start` of the index.
fn walk_from(index: Vec<Frame>, start: usize) -> (t: Timeline)
    requires
        start < index.len(),
    ensures
        t@ == timeline_from(frame_views(index@), start as int),
{
    let head = start;
    let ghost ix = frame_views(index@);
    let mut visited: Vec<bool> = Vec::new();
    let mut i: usize = 0;
    while i < index.len()
        invariant
            i <= index.len(),
            visited.len() == i,
            forall|j: int| 0 <= j < i ==> !visited@[j],
        decreases index.len() - i,
    {
        visited.push(false);
        i += 1;
    }
    visited.set(head, true);
    let mut ordered: Vec<Frame> = Vec::new();
    ordered.push(index[head].duplicate());
    let mut gaps: Vec<SequenceGap> = Vec::new();
    let ghost mut done: Seq<int> = seq![head as int];
    let mut current: usize = head;
    assert(frame_views(ordered@) =~= frames_at(ix, done));
    assert(gap_views(gaps@) =~= Seq::empty());
    assert forall|i: int| 0 <= i < index.len() implies visited@[i] == done.contains(i) by {
        if i == head {
            assert(done[0] == i);
        }
    }
    while ordered.len() < index.len()
        invariant
            ix == frame_views(index@),
            visited.len() == index.len(),
            current < index.len(),
            done.len() == ordered.len(),
            done.len() >= 1,
            done.last() == current,
            forall|i: int| 0 <= i < index.len() ==> visited@[i] == done.contains(i),
            frame_views(ordered@) == frames_at(ix, done),
            walk(ix, seq![head as int], Seq::empty()) == walk(ix, done, gap_views(gaps@)),
        ensures
            walk(ix, seq![head as int], Seq::empty()) == (done, gap_views(gaps@)),
            frame_views(ordered@) == frames_at(ix, done),
            visited.len() == index.len(),
            forall|i: int| 0 <= i < index.len() ==> visited@[i] == done.contains(i),
        decreases index.len() - ordered.len(),
    {
        let hash = index[current].compute_hash();
        let next = match find_linked(&index, &visited, &hash, Ghost(done)) {
            Some(j) => j,
            None => match find_unvisited(&index, &visited, Ghost(done)) {
                Some(j) => {
                    let ghost before = gap_views(gaps@);
                    let gap = SequenceGap {
                        before: index[current].header.frame_id,
                        after: index[j].header.frame_id,
                        expected_hash: Some(index[j].header.prev_hash),
                    };
                    gaps.push(gap);
                    assert(gap_views(gaps@) =~= before.push(gap_between(ix[current as int], ix[j as int])));
                    j
                },
                None => {
                    break ;
                },
            },
        };
        let ghost before = frame_views(ordered@);
        let ghost old_done = done;
        visited.set(next, true);
        ordered.push(index[next].duplicate());
        proof {
            done = done.push(next as int);
            assert(frame_views(ordered@) =~= before.push(ix[next as int]));
            assert(frames_at(ix, done) =~= frames_at(ix, old_done).push(ix[next as int]));
            assert forall|i: int| 0 <= i < index.len() implies visited@[i] == done.contains(i) by {
                if i == next {
                    assert(done[done.len() - 1] == i);
                } else if old_done.contains(i) {
                    let k = choose|k: int| 0 <= k < old_done.len() && old_done[k] == i;
                    assert(done[k] == i);
                } else if done.contains(i) {
                    let k = choose|k: int| 0 <= k < done.len() && done[k] == i;
                    assert(old_done[k] == i);
                }
            }
        }
        current = next;
    }
    let mut orphans: Vec<Frame> = Vec::new();
    let mut i: usize = index.len();
    assert(frame_views(orphans@) =~= unvisited_from(ix, done, i as int));
    while i > 0
        invariant
            i <= index.len(),
            ix == frame_views(index@),
            visited.len() == index.len(),
            forall|i: int| 0 <= i < index.len() ==> visited@[i] == done.contains(i),
            frame_views(orphans@) == unvisited_from(ix, done, i as int),
        decreases i,
    {
        i -= 1;
        if !visited[i] {
            let ghost before = frame_views(orphans@);
            orphans.insert(0, index[i].duplicate());
            assert(frame_views(orphans@) =~= seq![ix[i as int]] + before);
        }
    }
    Timeline { frames: ordered, gaps, orphans }
}

/// The timeline of frames without a head: the walk starts at the frame of
/// smallest id.
fn reconstruct_without_first(index: Vec<Frame>) -> (t: Timeline)
    ensures
        t@ == timeline_without_head(frame_views(index@)),
{
    if index.len() == 0 {
        let frames: Vec<Frame> = Vec::new();
        let gaps: Vec<SequenceGap> = Vec::new();
        let orphans: Vec<Frame> = Vec::new();
        assert(frame_views(frames@) =~= Seq::empty());
        assert(frame_views(index@) =~= Seq::empty());
        assert(gap_views(gaps@) =~= Seq::empty());
        return Timeline { frames, gaps, orphans };
    }
    walk_from(index, 0)
}

/// Links frames into a timeline. The frames may come in any order; of
/// frames with one id the last counts. Every frame is attached: where the
/// chain breaks, the walk records a gap and goes on, so that no frame is
/// left an orphan.
pub fn link_frames(frames: Vec<Frame>) -> (t: Timeline)
    ensures
        t@ == link(frame_views(frames@)),
        t@.orphans.len() == 0,
{
    proof {
        crate::chain::lemma_link_no_orphans(frame_views(frames@));
    }
    let index = build_index(&frames);
    match find_head(&index) {
        None => reconstruct_without_first(index),
        Some(head) => walk_from(index, head),
    }
}

/// Links the frames that a scan located.
pub fn link_located_frames(located_frames: Vec<LocatedFrame>) -> (t: Timeline)
    ensures
        t@ == link(located_frame_views(located_frames@)),
{
    let frames = frames_of(&located_frames);
    link_frames(frames)
}

/// The frames of located frames, as what they hold.
pub open spec fn located_frame_views(located: Seq<LocatedFrame>) -> Seq<FrameView> {
    located.map_values(|l: LocatedFrame| l.frame@)
}

/// The frames of located frames.
pub fn frames_of(located: &Vec<LocatedFrame>) -> (frames: Vec<Frame>)
    ensures
        frame_views(frames@) == located_frame_views(located@),
{
    let mut frames: Vec<Frame> = Vec::new();
    let mut i: usize = 0;
    while i < located.len()
        invariant
            i <= located.len(),
            frame_views(frames@) == located_frame_views(located@).subrange(0, i as int),
        decreases located.len() - i,
    {
        let ghost before = frame_views(frames@);
        frames.push(located[i].frame.duplicate());
        assert(frame_views(frames@) =~= before.push(located@[i as int].frame@));
        i += 1;
        assert(frame_views(frames@) =~= located_frame_views(located@).subrange(0, i as int));
    }
    assert(located_frame_views(located@).subrange(0, i as int) =~= located_frame_views(located@));
    frames
}

/// What a sequence of errors holds.
pub open spec fn error_views(errors: Seq<FrameError>) -> Seq<crate::error::FrameErrorView> {
    errors.map_values(|e: FrameError| e@)
}

/// The errors of the back-links of the frames up to position `n`: for every
/// frame whose previous hash is not the chain hash of the frame before it,
/// in order, one `BackLinkMismatch` with the frame's id.
pub open spec fn backlink_errors(frames: Seq<FrameView>, n: int) -> Seq<
    crate::error::FrameErrorView,
>
    decreases n,
{
    if n <= 0 || n >= frames.len() {
        Seq::empty()
    } else if frames[n].header.prev_hash != frames[n - 1].hash() {
        backlink_errors(frames, n - 1).push(
            crate::error::FrameErrorView::BackLinkMismatch(frames[n].header.frame_id),
        )
    } else {
        backlink_errors(frames, n - 1)
    }
}

/// Checks the back-links of a timeline, independently of how it was built:
/// every neighbour in the order whose previous hash is not the chain hash
/// of the frame before it is reported.
pub fn verify_backlinks(timeline: &Timeline) -> (errors: Vec<FrameError>)
    ensures
        error_views(errors@) == backlink_errors(timeline@.frames, timeline@.frames.len() - 1),
{
    let mut errors: Vec<FrameError> = Vec::new();
    let mut n: usize = 1;
    assert(error_views(errors@) =~= Seq::empty());
    while n < timeline.frames.len()
        invariant
            1 <= n,
            n <= timeline.frames.len() || n == 1,
            error_views(errors@) == backlink_errors(timeline@.frames, n - 1),
        decreases timeline.frames.len() - n,
    {
        let prev = &timeline.frames[n - 1];
        let curr = &timeline.frames[n];
        let expected = prev.compute_hash();
        assert(timeline@.frames[n - 1] == prev@ && timeline@.frames[n as int] == curr@);
        if !hashes_equal(&curr.header.prev_hash, &expected) {
            let ghost before = error_views(errors@);
            let e = FrameError::BackLinkMismatch(curr.header.frame_id);
            errors.push(e);
            assert(error_views(errors@) =~= before.push(e@));
        }
        n += 1;
    }
    assert(backlink_errors(timeline@.frames, n - 1) == backlink_errors(
        timeline@.frames,
        timeline@.frames.len() - 1,
    ));
    errors
}

/// Counts of a timeline.
#[derive(Debug, Clone, Copy, PartialEq, Eq)]
pub struct TimelineStats {
    /// Number of frames, ordered and orphaned.
    pub total_frames: usize,
    /// Number of gaps.
    pub gaps: usize,
    /// Number of orphans.
    pub orphans: usize,
    /// Share of the frames that are ordered, in percent, rounded down; 100
    /// where there are no orphans, also for a timeline without frames.
    pub continuity: usize,
}

/// The share of `ordered` in `ordered + orphans`, in percent, rounded down;
/// 100 where there are no orphans, also where both are 0.
pub open spec fn continuity_of(ordered: nat, orphans: nat) -> nat {
    if orphans == 0 {
        100
    } else {
        (ordered * 100 / (ordered + orphans)) as nat
    }
}

/// Continuity is 100 exactly where there are no orphans, and never more.
pub proof fn lemma_continuity_full(ordered: nat, orphans: nat)
    ensures
        continuity_of(ordered, orphans) == 100 <==> orphans == 0,
        continuity_of(ordered, orphans) <= 100,
{
    if orphans > 0 {
        let total = (ordered + orphans) as int;
        let q = (ordered * 100) as int / total;
        assert(0 <= q < 100) by (nonlinear_arith)
            requires
                total > 0,
                0 <= ordered < total,
                q == (ordered * 100) as int / total,
        ;
    }
}

impl Timeline {
    /// The counts of the timeline. Continuity is 100 exactly where the
    /// timeline has no orphans, gaps or not.
    pub fn stats(&self) -> (s: TimelineStats)
        requires
            self.frames.len() + self.orphans.len() <= usize::MAX,
        ensures
            s.total_frames == self.frames.len() + self.orphans.len(),
            s.gaps == self.gaps.len(),
            s.orphans == self.orphans.len(),
            s.continuity == continuity_of(self.frames.len() as nat, self.orphans.len() as nat),
            s.continuity == 100 <==> self.orphans.len() == 0,
    {
        proof {
            lemma_continuity_full(self.frames.len() as nat, self.orphans.len() as nat);
        }
        let total = self.frames.len() + self.orphans.len();
        let continuity: usize = if self.orphans.len() == 0 {
            100
        } else {
            ((self.frames.len() as u128) * 100 / (total as u128)) as usize
        };
        TimelineStats { total_frames: total, gaps: self.gaps.len(), orphans: self.orphans.len(), continuity }
    }

    /// The position of the last frame with the id `target_id` among the
    /// first `n` ordered frames.
    pub open spec fn last_with_id(self, target_id: u64, n: int) -> Option<int>
        decreases n,
    {
        if n <= 0 || n > self.frames.len() {
            None
        } else if self.frames[n - 1].header.frame_id == target_id {
            Some(n - 1)
        } else {
            self.last_with_id(target_id, n - 1)
        }
    }

    /// Finds the ordered frame with the id `target_id`; of several, the
    /// last. Where there is none, the search goes back from the frame of
    /// the largest id below the target, along skip-list links that point
    /// further back and otherwise frame by frame, and finds nothing.
    pub fn seek_with_skiplist(&self, target_id: u64) -> (r: Option<&Frame>)
        ensures
            match r {
                Some(f) => self.last_with_id(target_id, self.frames.len() as int) matches Some(i)
                    && *f == self.frames[i],
                None => self.last_with_id(target_id, self.frames.len() as int) is None,
            },
    {
        let by_id = positions_by_id(&self.frames);
        proof {
            self.lemma_last_is_position(target_id, self.frames.len() as int);
        }
        match position_by_id(&by_id, target_id, Ghost(frame_views(self.frames@))) {
            Some(p) => {
                return Some(&self.frames[p]);
            },
            None => {},
        }
        proof {
            self.lemma_no_frame_with_id(target_id, self.frames.len() as int);
        }
        // No frame has the id: walk back from the nearest frame below it.
        let mut cursor: usize = match self.nearest_below(target_id, None) {
            Some(c) => c,
            None => {
                return None;
            },
        };
        loop
            invariant
                cursor < self.frames.len(),
                holds_positions(by_id@, frame_views(self.frames@), self.frames.len() as int),
                self.last_with_id(target_id, self.frames.len() as int) is None,
                forall|i: int|
                    0 <= i < self.frames.len() ==> (#[trigger] self.frames[i]).header.frame_id
                        != target_id,
            decreases self.frames[cursor as int].header.frame_id,
        {
            let here = &self.frames[cursor];
            if here.header.frame_id == target_id {
                return Some(here);
            }
            let next = match self.best_link(&by_id, cursor, target_id) {
                Some(next) => Some(next),
                None => self.nearest_below(here.header.frame_id, Some(cursor)),
            };
            match next {
                Some(next) => {
                    cursor = next;
                },
                None => {
                    return None;
                },
            }
        }
    }

    /// The last frame with an id among the first `n` ordered frames stands
    /// where the id is found in their views.
    proof fn lemma_last_is_position(self, target_id: u64, n: int)
        requires
            0 <= n <= self.frames.len(),
        ensures
            self.last_with_id(target_id, n) == position_with_id(
                frame_views(self.frames@),
                target_id,
                n,
            ),
        decreases n,
    {
        if n > 0 {
            assert(frame_views(self.frames@)[n - 1] == self.frames[n - 1]@);
            self.lemma_last_is_position(target_id, n - 1);
        }
    }

    /// Where no frame with the id is found among the first `n`, none of
    /// them has it.
    proof fn lemma_no_frame_with_id(self, target_id: u64, n: int)
        requires
            0 <= n <= self.frames.len(),
            self.last_with_id(target_id, n) is None,
        ensures
            forall|i: int| 0 <= i < n ==> (#[trigger] self.frames[i]).header.frame_id != target_id,
        decreases n,
    {
        if n > 0 {
            self.lemma_no_frame_with_id(target_id, n - 1);
        }
    }

    /// Whether a frame with the id `id` may be the nearest to `bound`: its
    /// id is at most `bound`, and below it where `strictly` is set.
    pub open spec fn within(id: u64, bound: u64, strictly: bool) -> bool {
        if strictly {
            id < bound
        } else {
            id <= bound
        }
    }

    /// Whether the frame at position `p` is the nearest to `bound`: of the
    /// frames whose ids are within the bound it has the largest id, and of
    /// those with that id it is the last.
    pub open spec fn is_nearest(self, bound: u64, strictly: bool, p: int) -> bool {
        &&& 0 <= p < self.frames.len()
        &&& Self::within(self.frames[p].header.frame_id, bound, strictly)
        &&& forall|j: int|
            0 <= j < self.frames.len() && Self::within(
                (#[trigger] self.frames[j]).header.frame_id,
                bound,
                strictly,
            ) ==> self.frames[j].header.frame_id <= self.frames[p].header.frame_id && (
            self.frames[j].header.frame_id == self.frames[p].header.frame_id ==> j <= p)
    }

    /// Whether no frame has an id within the bound.
    pub open spec fn none_within(self, bound: u64, strictly: bool) -> bool {
        forall|j: int|
            0 <= j < self.frames.len() ==> !Self::within(
                (#[trigger] self.frames[j]).header.frame_id,
                bound,
                strictly,
            )
    }

    /// The position of the frame with the largest id that is at most
    /// `bound`, or below `bound` where `below` names the frame that has it;
    /// of several frames with that id the last. `None` where no frame has
    /// such an id.
    fn nearest_below(&self, bound: u64, below: Option<usize>) -> (r: Option<usize>)
        ensures
            match r {
                Some(p) => self.is_nearest(bound, below is Some, p as int),
                None => self.none_within(bound, below is Some),
            },
    {
        let ghost strictly = below is Some;
        let mut best: Option<usize> = None;
        let mut i: usize = 0;
        while i < self.frames.len()
            invariant
                i <= self.frames.len(),
                strictly == (below is Some),
                match best {
                    Some(b) => {
                        &&& b < i
                        &&& Self::within(self.frames[b as int].header.frame_id, bound, strictly)
                        &&& forall|j: int|
                            0 <= j < i && Self::within(
                                (#[trigger] self.frames[j]).header.frame_id,
                                bound,
                                strictly,
                            ) ==> self.frames[j].header.frame_id
                                <= self.frames[b as int].header.frame_id && (
                            self.frames[j].header.frame_id
                                == self.frames[b as int].header.frame_id ==> j <= b)
                    },
                    None => forall|j: int|
                        0 <= j < i ==> !Self::within(
                            (#[trigger] self.frames[j]).header.frame_id,
                            bound,
                            strictly,
                        ),
                },
            decreases self.frames.len() - i,
        {
            let id = self.frames[i].header.frame_id;
            let admissible = match below {
                Some(_) => id < bound,
                None => id <= bound,
            };
            if admissible {
                let better = match best {
                    Some(b) => self.frames[b].header.frame_id <= id,
                    None => true,
                };
                if better {
                    best = Some(i);
                }
            }
            i += 1;
        }
        best
    }

    /// The position of the best of the first `n` skip-list links for a walk
    /// from a frame with the id `here` towards `target_id`. A link is
    /// eligible where it does not overshoot the target and points further
    /// back than `here`. Of the eligible links the best has the highest
    /// level, and of those the largest target; of equals, the last.
    pub open spec fn best_of(links: Seq<SkipLink>, here: u64, target_id: u64, n: int) -> Option<int>
        decreases n,
    {
        if n <= 0 || n > links.len() {
            None
        } else {
            let before = Self::best_of(links, here, target_id, n - 1);
            let link = links[n - 1];
            if link.target_id <= target_id && link.target_id < here && (match before {
                Some(b) => links[b].level < link.level || (links[b].level == link.level
                    && links[b].target_id <= link.target_id),
                None => true,
            }) {
                Some(n - 1)
            } else {
                before
            }
        }
    }

    /// The position of the frame that a walk towards `target_id` goes to
    /// along the skip-list links of the frame at `cursor`: the last frame
    /// whose id is the target of the best link. `None` where the frame
    /// has no links, none of them is eligible, or no frame has that id.
    pub open spec fn link_target(self, cursor: int, target_id: u64) -> Option<int> {
        match self.frames[cursor].skip_links {
            None => None,
            Some(links) => match Self::best_of(
                links@,
                self.frames[cursor].header.frame_id,
                target_id,
                links.len() as int,
            ) {
                None => None,
                Some(b) => self.last_with_id(links@[b].target_id, self.frames.len() as int),
            },
        }
    }

    /// The position of the frame that the best skip-list link of the frame
    /// at `cursor` points to: of the links that do not overshoot the target
    /// and point further back, the one of the highest level, and of those
    /// the one with the largest target. The frame found has a smaller id
    /// than the frame at `cursor`. `by_id` holds the positions of the
    /// ordered frames under their ids.
    fn best_link(&self, by_id: &BTreeMap<u64, usize>, cursor: usize, target_id: u64) -> (r: Option<
        usize,
    >)
        requires
            cursor < self.frames.len(),
            holds_positions(by_id@, frame_views(self.frames@), self.frames.len() as int),
        ensures
            match r {
                Some(i) => self.link_target(cursor as int, target_id) == Some(i as int) && i
                    < self.frames.len() && self.frames[i as int].header.frame_id
                    < self.frames[cursor as int].header.frame_id,
                None => self.link_target(cursor as int, target_id) is None,
            },
    {
        let here = &self.frames[cursor];
        let links = match &here.skip_links {
            Some(links) => links,
            None => {
                return None;
            },
        };
        let mut best: Option<usize> = None;
        let mut i: usize = 0;
        while i < links.len()
            invariant
                i <= links.len(),
                match best {
                    Some(b) => b < i && links@[b as int].target_id < here.header.frame_id
                        && Self::best_of(links@, here.header.frame_id, target_id, i as int)
                        == Some(b as int),
                    None => Self::best_of(links@, here.header.frame_id, target_id, i as int)
                        is None,
                },
            decreases links.len() - i,
        {
            let link = &links[i];
            if link.target_id <= target_id && link.target_id < here.header.frame_id {
                let better = match best {
                    Some(b) => links[b].level < link.level || (links[b].level == link.level
                        && links[b].target_id <= link.target_id),
                    None => true,
                };
                if better {
                    best = Some(i);
                }
            }
            i += 1;
        }
        let wanted = match best {
            Some(b) => links[b].target_id,
            None => {
                return None;
            },
        };
        assert(here.skip_links == Some(*links));
        assert(self.link_target(cursor as int, target_id) == self.last_with_id(
            wanted,
            self.frames.len() as int,
        ));
        proof {
            self.lemma_last_is_position(wanted, self.frames.len() as int);
            if self.last_with_id(wanted, self.frames.len() as int) is Some {
                self.lemma_last_has_id(wanted, self.frames.len() as int);
            }
        }
        position_by_id(by_id, wanted, Ghost(frame_views(self.frames@)))
    }

    /// The last frame with an id among the first `n` has that id.
    proof fn lemma_last_has_id(self, target_id: u64, n: int)
        requires
            self.last_with_id(target_id, n) is Some,
        ensures
            0 <= self.last_with_id(target_id, n)->0 < self.frames.len(),
            self.frames[self.last_with_id(target_id, n)->0].header.frame_id == target_id,
        decreases n,
    {
        if n > 0 && n <= self.frames.len() && self.frames[n - 1].header.frame_id != target_id {
            self.lemma_last_has_id(target_id, n - 1);
        }
    }
}

} // verus!
