//! Chains of frames, and what linking makes of them.

use crate::index::lemma_ascending_equal;
use crate::linker::{
    ascending_ids, first_head, frames_at, gap_between, index_by_id, insert_by_id,
    lemma_index_ascending, lemma_insert_members, link, next_linked, next_unvisited, unvisited_from,
    walk, GapView, TimelineView,
};
use crate::types::{zero_hash, FrameView};
use vstd::prelude::*;

verus! {

/// Whether the frames form a chain: the first is a head, and every other
/// carries the chain hash of the frame before it.
pub open spec fn is_chain(chain: Seq<FrameView>) -> bool {
    &&& chain.len() >= 1
    &&& chain[0].header.is_first()
    &&& forall|i: int|
        1 <= i < chain.len() ==> (#[trigger] chain[i]).header.prev_hash == chain[i - 1].hash()
}

/// Whether the frames can be told apart: no two have one id, and of the
/// frames that have a successor no two have one chain hash and none has a
/// chain hash of zeros. Nothing is asked of the chain hash of the last
/// frame, which no frame carries.
pub open spec fn unambiguous(chain: Seq<FrameView>) -> bool {
    &&& forall|i: int, j: int|
        0 <= i < j < chain.len() ==> chain[i].header.frame_id != chain[j].header.frame_id
    &&& forall|i: int, j: int|
        0 <= i < j < chain.len() - 1 ==> chain[i].hash() != chain[j].hash()
    &&& forall|i: int| 0 <= i < chain.len() - 1 ==> (#[trigger] chain[i]).hash() != zero_hash()
}

/// Whether two sequences hold the same frames, in whatever order and
/// however often.
pub open spec fn same_frames(a: Seq<FrameView>, b: Seq<FrameView>) -> bool {
    &&& forall|i: int| 0 <= i < a.len() ==> b.contains(#[trigger] a[i])
    &&& forall|i: int| 0 <= i < b.len() ==> a.contains(#[trigger] b[i])
}

/// The position of `f` in `index`.
pub open spec fn position_in(index: Seq<FrameView>, f: FrameView) -> int {
    choose|j: int| 0 <= j < index.len() && index[j] == f
}

/// The positions in `index` of the first `k` frames of `order`.
pub open spec fn positions(index: Seq<FrameView>, order: Seq<FrameView>, k: int) -> Seq<int> {
    Seq::new(k as nat, |i: int| position_in(index, order[i]))
}

/// Putting `f` into an index leaves `f` in it, and every frame of another
/// id.
pub proof fn lemma_insert_contains(index: Seq<FrameView>, f: FrameView)
    ensures
        insert_by_id(index, f).contains(f),
        forall|j: int|
            0 <= j < index.len() && (#[trigger] index[j]).header.frame_id != f.header.frame_id
                ==> insert_by_id(index, f).contains(index[j]),
    decreases index.len(),
{
    let r = insert_by_id(index, f);
    if index.len() == 0 {
        assert(r[0] == f);
    } else if index.last().header.frame_id < f.header.frame_id {
        assert(r[r.len() - 1] == f);
        assert forall|j: int| 0 <= j < index.len() implies r.contains(#[trigger] index[j]) by {
            assert(r[j] == index[j]);
        }
    } else if index.last().header.frame_id == f.header.frame_id {
        assert(r[r.len() - 1] == f);
        assert forall|j: int|
            0 <= j < index.len() && (#[trigger] index[j]).header.frame_id
                != f.header.frame_id implies r.contains(index[j]) by {
            assert(r[j] == index[j]);
        }
    } else {
        let shorter = index.drop_last();
        lemma_insert_contains(shorter, f);
        let inner = insert_by_id(shorter, f);
        let k = choose|k: int| 0 <= k < inner.len() && inner[k] == f;
        assert(r[k] == f);
        assert forall|j: int|
            0 <= j < index.len() && (#[trigger] index[j]).header.frame_id
                != f.header.frame_id implies r.contains(index[j]) by {
            if j < shorter.len() {
                assert(shorter[j] == index[j]);
                let m = choose|m: int| 0 <= m < inner.len() && inner[m] == shorter[j];
                assert(r[m] == index[j]);
            } else {
                assert(r[r.len() - 1] == index[j]);
            }
        }
    }
}

/// Every frame of the index by id is one of the frames indexed.
proof fn lemma_index_members(frames: Seq<FrameView>)
    ensures
        forall|j: int|
            0 <= j < index_by_id(frames).len() ==> frames.contains(
                #[trigger] index_by_id(frames)[j],
            ),
    decreases frames.len(),
{
    if frames.len() > 0 {
        let fewer = frames.drop_last();
        let before = index_by_id(fewer);
        lemma_index_members(fewer);
        lemma_insert_members(before, frames.last());
        let ix = index_by_id(frames);
        assert forall|j: int| 0 <= j < ix.len() implies frames.contains(#[trigger] ix[j]) by {
            if ix[j] == frames.last() {
                assert(frames[frames.len() - 1] == ix[j]);
            } else {
                let k = choose|k: int| 0 <= k < before.len() && before[k] == ix[j];
                assert(fewer.contains(before[k]));
                let m = choose|m: int| 0 <= m < fewer.len() && fewer[m] == before[k];
                assert(frames[m] == ix[j]);
            }
        }
    }
}

/// Where frames of one id are one frame, the index by id holds every frame
/// indexed.
proof fn lemma_index_contains(frames: Seq<FrameView>)
    requires
        forall|a: int, b: int|
            0 <= a < frames.len() && 0 <= b < frames.len() && frames[a].header.frame_id
                == frames[b].header.frame_id ==> frames[a] == frames[b],
    ensures
        forall|k: int| 0 <= k < frames.len() ==> index_by_id(frames).contains(#[trigger] frames[k]),
    decreases frames.len(),
{
    if frames.len() > 0 {
        let fewer = frames.drop_last();
        let before = index_by_id(fewer);
        let f = frames.last();
        assert forall|a: int, b: int|
            0 <= a < fewer.len() && 0 <= b < fewer.len() && fewer[a].header.frame_id
                == fewer[b].header.frame_id implies fewer[a] == fewer[b] by {
            assert(fewer[a] == frames[a] && fewer[b] == frames[b]);
        }
        lemma_index_contains(fewer);
        lemma_insert_contains(before, f);
        let ix = index_by_id(frames);
        assert forall|k: int| 0 <= k < frames.len() implies ix.contains(#[trigger] frames[k]) by {
            if k < fewer.len() {
                assert(fewer[k] == frames[k]);
                if frames[k].header.frame_id == f.header.frame_id {
                    assert(frames[k] == frames[frames.len() - 1]);
                } else {
                    let j = choose|j: int| 0 <= j < before.len() && before[j] == fewer[k];
                    assert(ix.contains(before[j]));
                }
            }
        }
    }
}

/// The first head of an index is where a head stands with none before it.
proof fn lemma_first_head_is(index: Seq<FrameView>, i: int, target: int)
    requires
        0 <= i <= target < index.len(),
        index[target].header.is_first(),
        forall|j: int| i <= j < target ==> !(#[trigger] index[j]).header.is_first(),
    ensures
        first_head(index, i) == Some(target),
    decreases target - i,
{
    if i < target {
        lemma_first_head_is(index, i + 1, target);
    }
}

/// There is no first head where no frame is a head.
proof fn lemma_first_head_none(index: Seq<FrameView>, i: int)
    requires
        0 <= i,
        forall|j: int| i <= j < index.len() ==> !(#[trigger] index[j]).header.is_first(),
    ensures
        first_head(index, i) is None,
    decreases index.len() - i,
{
    if i < index.len() {
        lemma_first_head_none(index, i + 1);
    }
}

/// The next linked frame is the first that is unvisited and carries the
/// hash.
proof fn lemma_next_linked_is(
    index: Seq<FrameView>,
    done: Seq<int>,
    hash: Seq<u8>,
    i: int,
    target: int,
)
    requires
        0 <= i <= target < index.len(),
        !done.contains(target),
        index[target].header.prev_hash == hash,
        forall|j: int|
            i <= j < target ==> done.contains(j) || (#[trigger] index[j]).header.prev_hash != hash,
    ensures
        next_linked(index, done, hash, i) == Some(target),
    decreases target - i,
{
    if i < target {
        assert(done.contains(i) || index[i].header.prev_hash != hash);
        lemma_next_linked_is(index, done, hash, i + 1, target);
    }
}

/// There is no next linked frame where every frame is visited or carries
/// another hash.
proof fn lemma_next_linked_none(index: Seq<FrameView>, done: Seq<int>, hash: Seq<u8>, i: int)
    requires
        0 <= i,
        forall|j: int|
            i <= j < index.len() ==> done.contains(j) || (#[trigger] index[j]).header.prev_hash
                != hash,
    ensures
        next_linked(index, done, hash, i) is None,
    decreases index.len() - i,
{
    if i < index.len() {
        assert(done.contains(i) || index[i].header.prev_hash != hash);
        lemma_next_linked_none(index, done, hash, i + 1);
    }
}

/// The next unvisited frame is the first that is unvisited.
proof fn lemma_next_unvisited_is(index: Seq<FrameView>, done: Seq<int>, i: int, target: int)
    requires
        0 <= i <= target < index.len(),
        !done.contains(target),
        forall|j: int| i <= j < target ==> done.contains(j),
    ensures
        next_unvisited(index, done, i) == Some(target),
    decreases target - i,
{
    if i < target {
        lemma_next_unvisited_is(index, done, i + 1, target);
    }
}

/// There is no next unvisited frame where every frame is visited.
proof fn lemma_next_unvisited_none(index: Seq<FrameView>, done: Seq<int>, i: int)
    requires
        0 <= i,
        forall|j: int| i <= j < index.len() ==> done.contains(j),
    ensures
        next_unvisited(index, done, i) is None,
        unvisited_from(index, done, i) == Seq::<FrameView>::empty(),
    decreases index.len() - i,
{
    if i < index.len() {
        lemma_next_unvisited_none(index, done, i + 1);
    }
}

/// Where no next unvisited frame is found, every frame is visited.
proof fn lemma_all_visited(index: Seq<FrameView>, done: Seq<int>, i: int)
    requires
        0 <= i,
        next_unvisited(index, done, i) is None,
    ensures
        forall|j: int| i <= j < index.len() ==> done.contains(j),
    decreases index.len() - i,
{
    if i < index.len() {
        lemma_all_visited(index, done, i + 1);
    }
}

/// Distinct numbers below `n`, at least 0, are at most `n` in number; and
/// where they are `n`, every number below `n` is one of them.
proof fn lemma_distinct_bounded(s: Seq<int>, n: int)
    requires
        0 <= n,
        s.no_duplicates(),
        forall|i: int| 0 <= i < s.len() ==> 0 <= #[trigger] s[i] < n,
    ensures
        s.len() <= n,
        s.len() == n ==> forall|j: int| 0 <= j < n ==> s.contains(j),
        (forall|j: int| 0 <= j < n ==> s.contains(j)) ==> s.len() == n,
{
    let range = vstd::set_lib::set_int_range(0, n);
    vstd::set_lib::lemma_int_range(0, n);
    s.unique_seq_to_set();
    if forall|j: int| 0 <= j < n ==> s.contains(j) {
        assert(range.subset_of(s.to_set())) by {
            assert forall|x: int| range.contains(x) implies s.to_set().contains(x) by {
                assert(s.contains(x));
            }
        }
        vstd::seq_lib::seq_to_set_is_finite(s);
        vstd::set_lib::lemma_len_subset(range, s.to_set());
    }
    assert(s.to_set().subset_of(range)) by {
        assert forall|x: int| s.to_set().contains(x) implies range.contains(x) by {
            let i = choose|i: int| 0 <= i < s.len() && s[i] == x;
            assert(0 <= s[i] < n);
        }
    }
    vstd::set_lib::lemma_len_subset(s.to_set(), range);
    if s.len() == n {
        vstd::set_lib::lemma_subset_equality(s.to_set(), range);
        assert forall|j: int| 0 <= j < n implies s.contains(j) by {
            assert(range.contains(j));
            assert(s.to_set().contains(j));
        }
    }
}

/// The walk visits every frame: linking leaves no orphans.
proof fn lemma_walk_visits_all(index: Seq<FrameView>, done: Seq<int>, gaps: Seq<GapView>)
    requires
        done.len() >= 1,
        done.no_duplicates(),
        forall|i: int| 0 <= i < done.len() ==> 0 <= #[trigger] done[i] < index.len(),
    ensures
        forall|j: int| 0 <= j < index.len() ==> walk(index, done, gaps).0.contains(j),
        walk(index, done, gaps).0.no_duplicates(),
        forall|i: int|
            0 <= i < walk(index, done, gaps).0.len() ==> 0 <= #[trigger] walk(
                index,
                done,
                gaps,
            ).0[i] < index.len(),
    decreases index.len() - done.len(),
{
    lemma_distinct_bounded(done, index.len() as int);
    if done.len() >= index.len() {
        assert(walk(index, done, gaps).0 == done);
    } else {
        let current = index[done.last()];
        match next_linked(index, done, current.hash(), 0) {
            Some(j) => {
                lemma_next_linked_found(index, done, current.hash(), 0);
                lemma_push_distinct(done, j);
                lemma_walk_visits_all(index, done.push(j), gaps);
                assert(walk(index, done, gaps) == walk(index, done.push(j), gaps));
            },
            None => match next_unvisited(index, done, 0) {
                Some(j) => {
                    lemma_next_unvisited_found(index, done, 0);
                    lemma_push_distinct(done, j);
                    let more = gaps.push(gap_between(current, index[j]));
                    lemma_walk_visits_all(index, done.push(j), more);
                    assert(walk(index, done, gaps) == walk(index, done.push(j), more));
                },
                None => {
                    lemma_all_visited(index, done, 0);
                    assert(walk(index, done, gaps).0 == done);
                },
            },
        }
    }
}

/// A number that is none of distinct numbers can be added to them.
proof fn lemma_push_distinct(s: Seq<int>, x: int)
    requires
        s.no_duplicates(),
        !s.contains(x),
    ensures
        s.push(x).no_duplicates(),
{
    assert forall|i: int, j: int|
        0 <= i < s.push(x).len() && 0 <= j < s.push(x).len() && i != j implies s.push(x)[i]
        != s.push(x)[j] by {
        if i < s.len() && j < s.len() {
        } else if i < s.len() {
            assert(s[i] != x);
        } else {
            assert(s[j] != x);
        }
    }
}

/// A next linked frame that was found is an unvisited frame of the index.
proof fn lemma_next_linked_found(index: Seq<FrameView>, done: Seq<int>, hash: Seq<u8>, i: int)
    requires
        0 <= i,
        next_linked(index, done, hash, i) is Some,
    ensures
        i <= next_linked(index, done, hash, i)->0 < index.len(),
        !done.contains(next_linked(index, done, hash, i)->0),
    decreases index.len() - i,
{
    if i < index.len() && !(!done.contains(i) && index[i].header.prev_hash == hash) {
        lemma_next_linked_found(index, done, hash, i + 1);
    }
}

/// A next unvisited frame that was found is an unvisited frame of the
/// index.
proof fn lemma_next_unvisited_found(index: Seq<FrameView>, done: Seq<int>, i: int)
    requires
        0 <= i,
        next_unvisited(index, done, i) is Some,
    ensures
        i <= next_unvisited(index, done, i)->0 < index.len(),
        !done.contains(next_unvisited(index, done, i)->0),
    decreases index.len() - i,
{
    if i < index.len() && done.contains(i) {
        lemma_next_unvisited_found(index, done, i + 1);
    }
}

/// A first head that was found is a frame of the index.
proof fn lemma_first_head_found(index: Seq<FrameView>, i: int)
    requires
        0 <= i,
        first_head(index, i) is Some,
    ensures
        i <= first_head(index, i)->0 < index.len(),
    decreases index.len() - i,
{
    if i < index.len() && !index[i].header.is_first() {
        lemma_first_head_found(index, i + 1);
    }
}

/// Linking is maximal: it attaches every frame, so that no frame is left
/// an orphan; and the timeline holds as many frames as the index by id.
pub proof fn lemma_link_no_orphans(frames: Seq<FrameView>)
    ensures
        link(frames).orphans == Seq::<FrameView>::empty(),
        link(frames).frames.len() == index_by_id(frames).len(),
{
    let index = index_by_id(frames);
    let head = match first_head(index, 0) {
        None => 0int,
        Some(head) => {
            lemma_first_head_found(index, 0);
            head
        },
    };
    if index.len() > 0 {
        let start = seq![head];
        assert(start.no_duplicates());
        lemma_walk_visits_all(index, start, Seq::empty());
        let order = walk(index, start, Seq::empty()).0;
        lemma_next_unvisited_none(index, order, 0);
        lemma_distinct_bounded(order, index.len() as int);
    }
}

/// Whether `order` is an order that the walk follows: no two frames have
/// one id; every frame but the first carries the chain hash of the frame
/// before it, and of no other frame that has a successor; and no frame but
/// the first looks like a head.
pub open spec fn walkable(order: Seq<FrameView>) -> bool {
    &&& order.len() >= 1
    &&& forall|i: int, j: int|
        0 <= i < j < order.len() ==> order[i].header.frame_id != order[j].header.frame_id
    &&& forall|i: int|
        1 <= i < order.len() ==> (#[trigger] order[i]).header.prev_hash == order[i - 1].hash()
    &&& forall|i: int, m: int|
        0 <= i < order.len() - 1 && 1 <= m < order.len() && (#[trigger] order[m]).header.prev_hash
            == (#[trigger] order[i]).hash() ==> i == m - 1
    &&& forall|m: int| 1 <= m < order.len() ==> !(#[trigger] order[m]).header.is_first()
}

/// In an index that holds the frames of an order, every frame of the order
/// has its position, no two have one position, and every position is that
/// of a frame of the order.
proof fn lemma_positions(index: Seq<FrameView>, order: Seq<FrameView>)
    requires
        ascending_ids(index),
        same_frames(index, order),
        forall|i: int, j: int|
            0 <= i < j < order.len() ==> order[i].header.frame_id != order[j].header.frame_id,
    ensures
        forall|i: int|
            0 <= i < order.len() ==> 0 <= position_in(index, #[trigger] order[i]) < index.len()
                && index[position_in(index, order[i])] == order[i],
        forall|i: int, j: int|
            0 <= i < order.len() && 0 <= j < index.len() && index[j] == order[i] ==> j
                == position_in(index, order[i]),
        forall|j: int| 0 <= j < index.len() ==> order.contains(#[trigger] index[j]),
        forall|i: int, j: int|
            0 <= i < j < order.len() ==> position_in(index, order[i]) != position_in(
                index,
                order[j],
            ),
{
    assert forall|i: int| 0 <= i < order.len() implies 0 <= position_in(index, #[trigger] order[i])
        < index.len() && index[position_in(index, order[i])] == order[i] by {
        assert(index.contains(order[i]));
    }
    assert forall|i: int, j: int|
        0 <= i < order.len() && 0 <= j < index.len() && index[j] == order[i] implies j
        == position_in(index, order[i]) by {
        let p = position_in(index, order[i]);
        assert(index.contains(order[i]));
        if j < p {
            assert(index[j].header.frame_id < index[p].header.frame_id);
        } else if p < j {
            assert(index[p].header.frame_id < index[j].header.frame_id);
        }
    }
    assert forall|i: int, j: int| 0 <= i < j < order.len() implies position_in(index, order[i])
        != position_in(index, order[j]) by {
        assert(index.contains(order[i]) && index.contains(order[j]));
    }
}

/// The positions of the first `k` frames of an order are distinct
/// positions of the index, and hold the position of a frame exactly where
/// the frame is among the first `k`.
proof fn lemma_positions_visited(index: Seq<FrameView>, order: Seq<FrameView>, k: int)
    requires
        ascending_ids(index),
        same_frames(index, order),
        forall|i: int, j: int|
            0 <= i < j < order.len() ==> order[i].header.frame_id != order[j].header.frame_id,
        0 <= k <= order.len(),
    ensures
        positions(index, order, k).no_duplicates(),
        forall|i: int|
            0 <= i < k ==> 0 <= #[trigger] positions(index, order, k)[i] < index.len(),
        forall|m: int|
            0 <= m < order.len() ==> (positions(index, order, k).contains(
                position_in(index, #[trigger] order[m]),
            ) <==> m < k),
        k <= index.len(),
{
    lemma_positions(index, order);
    let done = positions(index, order, k);
    assert forall|m: int| 0 <= m < order.len() implies (done.contains(
        position_in(index, #[trigger] order[m]),
    ) <==> m < k) by {
        if m < k {
            assert(done[m] == position_in(index, order[m]));
        } else if done.contains(position_in(index, order[m])) {
            let i = choose|i: int| 0 <= i < done.len() && done[i] == position_in(index, order[m]);
            assert(position_in(index, order[i]) != position_in(index, order[m]));
        }
    }
    assert forall|i: int, j: int|
        0 <= i < done.len() && 0 <= j < done.len() && i != j implies done[i] != done[j] by {
        if i < j {
            assert(position_in(index, order[i]) != position_in(index, order[j]));
        } else {
            assert(position_in(index, order[j]) != position_in(index, order[i]));
        }
    }
    lemma_distinct_bounded(done, index.len() as int);
}

/// The walk follows a walkable order: from the first `k` frames on it
/// visits the others in their order, and crosses no gap.
proof fn lemma_walk_follows(index: Seq<FrameView>, order: Seq<FrameView>, k: int)
    requires
        ascending_ids(index),
        same_frames(index, order),
        walkable(order),
        1 <= k <= order.len(),
    ensures
        walk(index, positions(index, order, k), Seq::empty()) == (
            positions(index, order, order.len() as int),
            Seq::<GapView>::empty(),
        ),
    decreases order.len() - k,
{
    let n = order.len() as int;
    let done = positions(index, order, k);
    lemma_positions(index, order);
    lemma_positions_visited(index, order, k);
    let last = position_in(index, order[k - 1]);
    assert(done.last() == last);
    let current = index[last];
    assert(current == order[k - 1]);
    let hash = current.hash();
    if k == n {
        if done.len() < index.len() {
            assert forall|j: int| 0 <= j < index.len() implies done.contains(j) by {
                assert(order.contains(index[j]));
                let m = choose|m: int| 0 <= m < order.len() && order[m] == index[j];
                assert(position_in(index, order[m]) == j);
                assert(done.contains(position_in(index, order[m])));
            }
            lemma_next_linked_none(index, done, hash, 0);
            lemma_next_unvisited_none(index, done, 0);
        }
    } else {
        lemma_positions_visited(index, order, k + 1);
        let target = position_in(index, order[k]);
        assert(!done.contains(target));
        assert(done.push(target) =~= positions(index, order, k + 1));
        lemma_walk_follows(index, order, k + 1);
        assert forall|j: int| 0 <= j < target implies done.contains(j) || (
        #[trigger] index[j]).header.prev_hash != hash by {
            assert(order.contains(index[j]));
            let m = choose|m: int| 0 <= m < order.len() && order[m] == index[j];
            assert(position_in(index, order[m]) == j);
            assert(index[j] == order[m]);
            if m >= k {
                assert(done.contains(position_in(index, order[m])) <==> m < k);
                if order[m].header.prev_hash == order[k - 1].hash() {
                    assert(k - 1 == m - 1);
                }
            } else {
                assert(done.contains(position_in(index, order[m])));
            }
        }
        assert(index[target].header.prev_hash == hash);
        lemma_next_linked_is(index, done, hash, 0, target);
    }
}

/// What linking makes of frames that are those of a walkable order: the
/// order, with no gap and no orphan.
proof fn lemma_link_follows(frames: Seq<FrameView>, order: Seq<FrameView>)
    requires
        same_frames(frames, order),
        walkable(order),
        order[0].header.is_first() || forall|m: int|
            1 <= m < order.len() ==> order[0].header.frame_id < (
            #[trigger] order[m]).header.frame_id,
    ensures
        link(frames) == (TimelineView {
            frames: order,
            gaps: Seq::empty(),
            orphans: Seq::empty(),
        }),
{
    let index = index_by_id(frames);
    lemma_index_ascending(frames);
    lemma_index_members(frames);
    assert forall|a: int, b: int|
        0 <= a < frames.len() && 0 <= b < frames.len() && frames[a].header.frame_id
            == frames[b].header.frame_id implies frames[a] == frames[b] by {
        let i = choose|i: int| 0 <= i < order.len() && order[i] == frames[a];
        let j = choose|j: int| 0 <= j < order.len() && order[j] == frames[b];
        assert(order.contains(frames[a]) && order.contains(frames[b]));
        if i < j {
            assert(order[i].header.frame_id != order[j].header.frame_id);
        } else if j < i {
            assert(order[j].header.frame_id != order[i].header.frame_id);
        }
    }
    lemma_index_contains(frames);
    assert(same_frames(index, order)) by {
        assert forall|i: int| 0 <= i < index.len() implies order.contains(#[trigger] index[i]) by {
            assert(frames.contains(index[i]));
            let k = choose|k: int| 0 <= k < frames.len() && frames[k] == index[i];
            assert(order.contains(frames[k]));
        }
        assert forall|i: int| 0 <= i < order.len() implies index.contains(#[trigger] order[i]) by {
            assert(frames.contains(order[i]));
            let k = choose|k: int| 0 <= k < frames.len() && frames[k] == order[i];
            assert(index.contains(frames[k]));
        }
    }
    lemma_positions(index, order);
    let head = position_in(index, order[0]);
    if order[0].header.is_first() {
        assert forall|j: int| 0 <= j < head implies !(#[trigger] index[j]).header.is_first() by {
            assert(order.contains(index[j]));
            let m = choose|m: int| 0 <= m < order.len() && order[m] == index[j];
            assert(position_in(index, order[m]) == j);
            assert(m != 0);
        }
        lemma_first_head_is(index, 0, head);
    } else {
        // No frame is a head, and the frame of smallest id stands first in the index.
        assert forall|j: int| 0 <= j < index.len() implies !(
        #[trigger] index[j]).header.is_first() by {
            assert(order.contains(index[j]));
            let m = choose|m: int| 0 <= m < order.len() && order[m] == index[j];
        }
        lemma_first_head_none(index, 0);
        assert(head == 0) by {
            assert(order.contains(index[0]));
            let m = choose|m: int| 0 <= m < order.len() && order[m] == index[0];
            if m != 0 {
                assert(order[0].header.frame_id < order[m].header.frame_id);
                if head > 0 {
                    assert(index[0].header.frame_id < index[head].header.frame_id);
                }
            } else {
                assert(position_in(index, order[0]) == 0);
            }
        }
    }
    assert(seq![head] =~= positions(index, order, 1));
    lemma_walk_follows(index, order, 1);
    lemma_link_no_orphans(frames);
    assert(frames_at(index, positions(index, order, order.len() as int)) =~= order);
}

/// Frames each of which carries the chain hash of the frame before it, and
/// which can be told apart, stand in an order that the walk follows.
proof fn lemma_linked_walkable(chain: Seq<FrameView>)
    requires
        chain.len() >= 1,
        forall|i: int|
            1 <= i < chain.len() ==> (#[trigger] chain[i]).header.prev_hash == chain[i - 1].hash(),
        unambiguous(chain),
    ensures
        walkable(chain),
{
    assert forall|i: int, m: int|
        0 <= i < chain.len() - 1 && 1 <= m < chain.len() && (#[trigger] chain[m]).header.prev_hash
            == (#[trigger] chain[i]).hash() implies i == m - 1 by {
        assert(chain[m].header.prev_hash == chain[m - 1].hash());
        if i < m - 1 {
            assert(chain[i].hash() != chain[m - 1].hash());
        } else if m - 1 < i {
            assert(chain[m - 1].hash() != chain[i].hash());
        }
    }
    assert forall|m: int| 1 <= m < chain.len() implies !(#[trigger] chain[m]).header.is_first() by {
        assert(chain[m].header.prev_hash == chain[m - 1].hash());
        assert(chain[m - 1].hash() != zero_hash());
    }
}

/// Linking restores a chain: given the frames of a chain in any order, the
/// timeline holds them in the order of the chain, with no gap and no
/// orphan. The frames of the chain must be such that they can be told
/// apart: distinct ids and, of the frames that have a successor, distinct
/// chain hashes, none of them all zeros.
pub proof fn lemma_link_restores_chain(chain: Seq<FrameView>, frames: Seq<FrameView>)
    requires
        is_chain(chain),
        unambiguous(chain),
        same_frames(frames, chain),
    ensures
        link(frames) == (TimelineView {
            frames: chain,
            gaps: Seq::empty(),
            orphans: Seq::empty(),
        }),
{
    lemma_linked_walkable(chain);
    lemma_link_follows(frames, chain);
}

/// The first `k` positions of an index, in order.
pub open spec fn first_positions(k: int) -> Seq<int> {
    Seq::new(k as nat, |i: int| i)
}

/// A walk that has visited the first `from` frames of an index in order
/// goes on in order, and crosses no gap, as far as each frame carries the
/// chain hash of the frame before it.
proof fn lemma_walk_linked(order: Seq<FrameView>, from: int, to: int, gaps: Seq<GapView>)
    requires
        1 <= from <= to <= order.len(),
        forall|i: int|
            from <= i < to ==> (#[trigger] order[i]).header.prev_hash == order[i - 1].hash(),
    ensures
        walk(order, first_positions(from), gaps) == walk(order, first_positions(to), gaps),
    decreases to - from,
{
    let done = first_positions(from);
    if from < to {
        assert(done.last() == from - 1);
        assert forall|j: int| 0 <= j < from implies done.contains(j) || (
        #[trigger] order[j]).header.prev_hash != order[from - 1].hash() by {
            assert(done[j] == j);
        }
        lemma_next_linked_is(order, done, order[from - 1].hash(), 0, from);
        assert(done.push(from) =~= first_positions(from + 1));
        lemma_walk_linked(order, from + 1, to, gaps);
    }
}

/// The index by id of frames that are those of a sequence with ascending
/// ids, in any order and each any number of times, is that sequence.
proof fn lemma_index_of_ascending(order: Seq<FrameView>, frames: Seq<FrameView>)
    requires
        ascending_ids(order),
        same_frames(frames, order),
    ensures
        index_by_id(frames) == order,
{
    let index = index_by_id(frames);
    lemma_index_ascending(frames);
    lemma_index_members(frames);
    assert forall|a: int, b: int|
        0 <= a < frames.len() && 0 <= b < frames.len() && frames[a].header.frame_id
            == frames[b].header.frame_id implies frames[a] == frames[b] by {
        assert(order.contains(frames[a]));
        assert(order.contains(frames[b]));
        let p = choose|p: int| 0 <= p < order.len() && order[p] == frames[a];
        let q = choose|q: int| 0 <= q < order.len() && order[q] == frames[b];
        if p < q {
            assert(order[p].header.frame_id < order[q].header.frame_id);
        } else if q < p {
            assert(order[q].header.frame_id < order[p].header.frame_id);
        }
    }
    lemma_index_contains(frames);
    assert forall|i: int| 0 <= i < index.len() implies order.contains(#[trigger] index[i]) by {
        assert(frames.contains(index[i]));
        let m = choose|m: int| 0 <= m < frames.len() && frames[m] == index[i];
        assert(order.contains(frames[m]));
    }
    assert forall|j: int| 0 <= j < order.len() implies index.contains(#[trigger] order[j]) by {
        assert(frames.contains(order[j]));
        let m = choose|m: int| 0 <= m < frames.len() && frames[m] == order[j];
        assert(index.contains(frames[m]));
    }
    lemma_ascending_equal(index, order);
}

/// A walk that has visited every frame of the index in order is at its
/// end: the timeline holds the frames of the index and no orphan.
proof fn lemma_walk_done(order: Seq<FrameView>, gaps: Seq<GapView>)
    requires
        order.len() >= 1,
    ensures
        walk(order, first_positions(order.len() as int), gaps) == (
            first_positions(order.len() as int),
            gaps,
        ),
        frames_at(order, first_positions(order.len() as int)) == order,
        unvisited_from(order, first_positions(order.len() as int), 0) == Seq::<FrameView>::empty(),
{
    let all = first_positions(order.len() as int);
    assert(frames_at(order, all) =~= order);
    assert forall|j: int| 0 <= j < order.len() implies all.contains(j) by {
        assert(all[j] == j);
    }
    lemma_next_unvisited_none(order, all, 0);
}

/// Linking restores a chain whose ids ascend, whatever the chain hashes
/// are: given the frames of such a chain in any order, each of them any
/// number of times, the timeline holds them in the order of the chain,
/// with no gap and no orphan.
pub proof fn lemma_link_restores_ascending_chain(chain: Seq<FrameView>, frames: Seq<FrameView>)
    requires
        is_chain(chain),
        ascending_ids(chain),
        same_frames(frames, chain),
    ensures
        link(frames) == (TimelineView {
            frames: chain,
            gaps: Seq::empty(),
            orphans: Seq::empty(),
        }),
{
    lemma_index_of_ascending(chain, frames);
    assert(first_head(chain, 0) == Some(0int));
    assert(seq![0int] =~= first_positions(1));
    lemma_walk_linked(chain, 1, chain.len() as int, Seq::empty());
    lemma_walk_done(chain, Seq::empty());
}

/// Whether the frames form a chain without a head: the previous hash of
/// the first is not all zeros, the first has the smallest id, and every
/// other carries the chain hash of the frame before it.
pub open spec fn is_headless_chain(chain: Seq<FrameView>) -> bool {
    &&& chain.len() >= 1
    &&& !chain[0].header.is_first()
    &&& forall|i: int|
        1 <= i < chain.len() ==> (#[trigger] chain[i]).header.prev_hash == chain[i - 1].hash()
    &&& forall|m: int|
        1 <= m < chain.len() ==> chain[0].header.frame_id < (#[trigger] chain[m]).header.frame_id
}

/// Linking restores a chain without a head: given the frames of such a
/// chain in any order, the walk starts at the frame of smallest id and
/// follows the hashes, whatever the ids of the other frames, so that the
/// timeline holds the frames in the order of the chain, with no gap and no
/// orphan. The frames must be such that they can be told apart.
pub proof fn lemma_link_restores_headless_chain(chain: Seq<FrameView>, frames: Seq<FrameView>)
    requires
        is_headless_chain(chain),
        unambiguous(chain),
        same_frames(frames, chain),
    ensures
        link(frames) == (TimelineView {
            frames: chain,
            gaps: Seq::empty(),
            orphans: Seq::empty(),
        }),
{
    lemma_linked_walkable(chain);
    lemma_link_follows(frames, chain);
}

/// Linking restores a chain without a head whose ids ascend: given the
/// frames of such a chain in any order, each of them any number of times,
/// and none of them with a previous hash of zeros, the walk starts at the
/// frame of smallest id, and the timeline holds the frames in the order of
/// the chain, with no gap and no orphan.
pub proof fn lemma_link_restores_ascending_headless_chain(
    chain: Seq<FrameView>,
    frames: Seq<FrameView>,
)
    requires
        chain.len() >= 1,
        forall|i: int| 0 <= i < chain.len() ==> !(#[trigger] chain[i]).header.is_first(),
        forall|i: int|
            1 <= i < chain.len() ==> (#[trigger] chain[i]).header.prev_hash == chain[i - 1].hash(),
        ascending_ids(chain),
        same_frames(frames, chain),
    ensures
        link(frames) == (TimelineView {
            frames: chain,
            gaps: Seq::empty(),
            orphans: Seq::empty(),
        }),
{
    lemma_index_of_ascending(chain, frames);
    lemma_first_head_none(chain, 0);
    assert(seq![0int] =~= first_positions(1));
    lemma_walk_linked(chain, 1, chain.len() as int, Seq::empty());
    lemma_walk_done(chain, Seq::empty());
}

/// Linking reports a removed frame: where one frame that is neither the
/// first nor the last is taken out of a chain of at least three frames
/// whose ids ascend, the timeline of the frames that are left holds them in
/// the order of the chain and exactly one gap, between the neighbours of
/// the frame that is gone. No frame behind the gap may carry the chain
/// hash of the frame before it: the walk would go on along that link.
pub proof fn lemma_link_reports_removed(chain: Seq<FrameView>, removed: int, frames: Seq<FrameView>)
    requires
        is_chain(chain),
        ascending_ids(chain),
        chain.len() >= 3,
        0 < removed < chain.len() - 1,
        forall|m: int|
            removed < m < chain.len() ==> (#[trigger] chain[m]).header.prev_hash != chain[removed
                - 1].hash(),
        same_frames(frames, chain.remove(removed)),
    ensures
        link(frames) == (TimelineView {
            frames: chain.remove(removed),
            gaps: seq![gap_between(chain[removed - 1], chain[removed + 1])],
            orphans: Seq::empty(),
        }),
{
    let order = chain.remove(removed);
    let n = order.len() as int;
    let gap = gap_between(chain[removed - 1], chain[removed + 1]);
    assert forall|i: int| 0 <= i < n implies #[trigger] order[i] == chain[if i < removed {
        i
    } else {
        i + 1
    }] by {}
    assert(ascending_ids(order)) by {
        assert forall|i: int, j: int| 0 <= i < j < n implies order[i].header.frame_id
            < order[j].header.frame_id by {
            assert(order[i] == chain[if i < removed { i } else { i + 1 }]);
            assert(order[j] == chain[if j < removed { j } else { j + 1 }]);
        }
    }
    lemma_index_of_ascending(order, frames);
    assert(order[0] == chain[0]);
    assert(first_head(order, 0) == Some(0int));
    assert(seq![0int] =~= first_positions(1));
    // Up to the gap the walk follows the links.
    assert forall|i: int| 1 <= i < removed implies (#[trigger] order[i]).header.prev_hash
        == order[i - 1].hash() by {
        assert(order[i] == chain[i] && order[i - 1] == chain[i - 1]);
    }
    lemma_walk_linked(order, 1, removed, Seq::empty());
    // At the gap no frame is linked: the walk goes to the next by id.
    let done = first_positions(removed);
    assert(done.last() == removed - 1);
    assert(order[removed - 1] == chain[removed - 1]);
    assert forall|j: int| 0 <= j < n implies done.contains(j) || (
    #[trigger] order[j]).header.prev_hash != chain[removed - 1].hash() by {
        if j < removed {
            assert(done[j] == j);
        } else {
            assert(order[j] == chain[j + 1]);
        }
    }
    lemma_next_linked_none(order, done, chain[removed - 1].hash(), 0);
    assert forall|j: int| 0 <= j < removed implies done.contains(j) by {
        assert(done[j] == j);
    }
    lemma_next_unvisited_is(order, done, 0, removed);
    assert(order[removed] == chain[removed + 1]);
    assert(done.push(removed) =~= first_positions(removed + 1));
    assert(Seq::<GapView>::empty().push(gap) =~= seq![gap]);
    assert(walk(order, done, Seq::empty()) == walk(order, first_positions(removed + 1), seq![gap]));
    // Behind the gap it follows the links again.
    assert forall|i: int| removed + 1 <= i < n implies (#[trigger] order[i]).header.prev_hash
        == order[i - 1].hash() by {
        assert(order[i] == chain[i + 1] && order[i - 1] == chain[i]);
    }
    lemma_walk_linked(order, removed + 1, n, seq![gap]);
    lemma_walk_done(order, seq![gap]);
}

} // verus!
