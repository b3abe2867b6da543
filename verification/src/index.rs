//! Ordered maps under frame ids: of the frames, read out in the order of
//! the ids as the index; of their positions; and of their places in a
//! buffer.

use crate::chain::lemma_insert_contains;
use crate::linker::{
    ascending_ids, frame_views, index_by_id, insert_by_id, lemma_index_ascending,
    lemma_insert_keeps_ascending, lemma_insert_members,
};
use crate::ordered::lemma_keys_ascend;
use crate::report::{frame_with_id, place_with_id, position_with_id};
use crate::scanner::{located_views, LocatedFrame, LocatedView};
use crate::types::{Frame, FrameView};
use std::collections::BTreeMap;
use vstd::prelude::*;
use vstd::std_specs::btree::{increasing_seq, spec_btree_map_iter};
use vstd::std_specs::iter::IteratorSpec;

verus! {

/// Whether the map holds, under every id that occurs among the first `n`
/// frames, the last of them with that id, and nothing else.
pub open spec fn holds_last(m: Map<u64, Frame>, frames: Seq<FrameView>, n: int) -> bool {
    forall|id: u64|
        #![trigger m.contains_key(id)]
        match frame_with_id(frames, id, n) {
            Some(f) => m.contains_key(id) && m[id]@ == f,
            None => !m.contains_key(id),
        }
}

/// The keys of the pairs of a map.
pub open spec fn keys_of(pairs: Seq<(&u64, &Frame)>) -> Seq<u64> {
    pairs.map_values(|kv: (&u64, &Frame)| *kv.0)
}

/// The last frame with an id has that id, and is one of the frames.
proof fn lemma_frame_with_id(frames: Seq<FrameView>, id: u64, n: int)
    requires
        frame_with_id(frames, id, n) is Some,
    ensures
        frame_with_id(frames, id, n)->0.header.frame_id == id,
        0 < n <= frames.len(),
    decreases n,
{
    if n > 0 && n <= frames.len() && frames[n - 1].header.frame_id != id {
        lemma_frame_with_id(frames, id, n - 1);
    }
}

/// The position of the last frame with an id lies among the frames.
proof fn lemma_position_in_range(frames: Seq<FrameView>, id: u64, n: int)
    requires
        position_with_id(frames, id, n) is Some,
    ensures
        0 <= position_with_id(frames, id, n)->0 < frames.len(),
    decreases n,
{
    if n > 0 && n <= frames.len() && frames[n - 1].header.frame_id != id {
        lemma_position_in_range(frames, id, n - 1);
    }
}

/// The last frame with an id among the first frames depends on these
/// frames alone.
proof fn lemma_frame_with_id_prefix(a: Seq<FrameView>, b: Seq<FrameView>, id: u64, n: int)
    requires
        0 <= n <= a.len(),
        n <= b.len(),
        forall|i: int| 0 <= i < n ==> a[i] == b[i],
    ensures
        frame_with_id(a, id, n) == frame_with_id(b, id, n),
    decreases n,
{
    if n > 0 {
        lemma_frame_with_id_prefix(a, b, id, n - 1);
    }
}

/// The index by id holds, for every id that occurs, the last frame with
/// that id, and no other frame.
proof fn lemma_index_holds_last(frames: Seq<FrameView>)
    ensures
        forall|j: int|
            0 <= j < index_by_id(frames).len() ==> frame_with_id(
                frames,
                (#[trigger] index_by_id(frames)[j]).header.frame_id,
                frames.len() as int,
            ) == Some(index_by_id(frames)[j]),
        forall|id: u64|
            (#[trigger] frame_with_id(frames, id, frames.len() as int)) is Some ==> exists|j: int|
                0 <= j < index_by_id(frames).len() && (#[trigger] index_by_id(
                    frames,
                )[j]).header.frame_id == id,
    decreases frames.len(),
{
    if frames.len() > 0 {
        let fewer = frames.drop_last();
        let f = frames.last();
        let before = index_by_id(fewer);
        let index = index_by_id(frames);
        let n = frames.len() as int;
        lemma_index_holds_last(fewer);
        lemma_index_ascending(fewer);
        lemma_index_ascending(frames);
        lemma_insert_members(before, f);
        lemma_insert_contains(before, f);
        assert(index == insert_by_id(before, f));
        assert(index.contains(f));
        let at = choose|p: int| 0 <= p < index.len() && index[p] == f;
        assert(frames[n - 1] == f);
        assert forall|id: u64| #[trigger] frame_with_id(frames, id, n - 1) == frame_with_id(
            fewer,
            id,
            n - 1,
        ) by {
            lemma_frame_with_id_prefix(frames, fewer, id, n - 1);
        }
        assert forall|j: int| 0 <= j < index.len() implies frame_with_id(
            frames,
            (#[trigger] index[j]).header.frame_id,
            n,
        ) == Some(index[j]) by {
            if index[j].header.frame_id == f.header.frame_id {
                if j < at {
                    assert(index[j].header.frame_id < index[at].header.frame_id);
                } else if at < j {
                    assert(index[at].header.frame_id < index[j].header.frame_id);
                }
            } else {
                assert(insert_by_id(before, f)[j] == index[j]);
                let k = choose|k: int| 0 <= k < before.len() && before[k] == index[j];
                assert(frame_with_id(fewer, before[k].header.frame_id, n - 1) == Some(before[k]));
                assert(frame_with_id(frames, index[j].header.frame_id, n - 1) == frame_with_id(
                    fewer,
                    index[j].header.frame_id,
                    n - 1,
                ));
            }
        }
        assert forall|id: u64| (#[trigger] frame_with_id(frames, id, n)) is Some implies exists|
            j: int,
        |
            0 <= j < index.len() && (#[trigger] index[j]).header.frame_id == id by {
            if id == f.header.frame_id {
                assert(index[at].header.frame_id == id);
            } else {
                assert(frame_with_id(frames, id, n - 1) == frame_with_id(fewer, id, n - 1));
                assert(frame_with_id(fewer, id, n - 1) is Some);
                let k = choose|k: int|
                    0 <= k < before.len() && (#[trigger] before[k]).header.frame_id == id;
                assert(index.contains(before[k]));
                let j = choose|j: int| 0 <= j < index.len() && index[j] == before[k];
                assert(index[j].header.frame_id == id);
            }
        }
    }
}

/// Two sequences of frames with ascending ids that hold the same frames
/// are one sequence.
pub proof fn lemma_ascending_equal(a: Seq<FrameView>, b: Seq<FrameView>)
    requires
        ascending_ids(a),
        ascending_ids(b),
        forall|i: int| 0 <= i < a.len() ==> b.contains(#[trigger] a[i]),
        forall|j: int| 0 <= j < b.len() ==> a.contains(#[trigger] b[j]),
    ensures
        a == b,
    decreases a.len(),
{
    if a.len() == 0 {
        if b.len() > 0 {
            assert(a.contains(b[0]));
        }
        assert(a =~= b);
    } else {
        let la = a.last();
        assert(b.contains(a[a.len() - 1]));
        let j = choose|j: int| 0 <= j < b.len() && b[j] == la;
        let lb = b.last();
        assert(a.contains(b[b.len() - 1]));
        let i = choose|i: int| 0 <= i < a.len() && a[i] == lb;
        if j < b.len() - 1 {
            assert(b[j].header.frame_id < b[b.len() - 1].header.frame_id);
        }
        if i < a.len() - 1 {
            assert(a[i].header.frame_id < a[a.len() - 1].header.frame_id);
        }
        assert(j == b.len() - 1);
        assert(la == lb);
        let shorter_a = a.drop_last();
        let shorter_b = b.drop_last();
        assert forall|k: int| 0 <= k < shorter_a.len() implies shorter_b.contains(
            #[trigger] shorter_a[k],
        ) by {
            assert(b.contains(a[k]));
            let m = choose|m: int| 0 <= m < b.len() && b[m] == a[k];
            assert(a[k].header.frame_id < a[a.len() - 1].header.frame_id);
            assert(m < b.len() - 1);
            assert(shorter_b[m] == a[k]);
        }
        assert forall|k: int| 0 <= k < shorter_b.len() implies shorter_a.contains(
            #[trigger] shorter_b[k],
        ) by {
            assert(a.contains(b[k]));
            let m = choose|m: int| 0 <= m < a.len() && a[m] == b[k];
            assert(b[k].header.frame_id < b[b.len() - 1].header.frame_id);
            assert(m < a.len() - 1);
            assert(shorter_a[m] == b[k]);
        }
        lemma_ascending_equal(shorter_a, shorter_b);
        assert(a =~= shorter_a.push(la));
        assert(b =~= shorter_b.push(lb));
    }
}

/// The frames of the map, read out in the order of their ids.
fn read_out(map: &BTreeMap<u64, Frame>) -> (index: Vec<Frame>)
    ensures
        index.len() == spec_btree_map_iter(map).remaining().len(),
        increasing_seq(keys_of(spec_btree_map_iter(map).remaining())),
        forall|j: int|
            0 <= j < index.len() ==> (#[trigger] index@[j])@ == (*spec_btree_map_iter(
                map,
            ).remaining()[j].1)@,
{
    let ghost pairs = spec_btree_map_iter(map).remaining();
    let mut index: Vec<Frame> = Vec::new();
    for kv in it: map.iter()
        invariant
            it.seq() == pairs,
            index.len() == it.index(),
            increasing_seq(keys_of(pairs)),
            forall|j: int| 0 <= j < index.len() ==> (#[trigger] index@[j])@ == (*pairs[j].1)@,
    {
        index.push(kv.1.duplicate());
    }
    index
}

/// What is read out of a map that holds the last frame of every id is the
/// index by id.
proof fn lemma_read_out_is_index(
    m: Map<u64, Frame>,
    pairs: Seq<(&u64, &Frame)>,
    read: Seq<FrameView>,
    frames: Seq<FrameView>,
)
    requires
        holds_last(m, frames, frames.len() as int),
        increasing_seq(keys_of(pairs)),
        read.len() == pairs.len(),
        forall|j: int| 0 <= j < read.len() ==> #[trigger] read[j] == (*pairs[j].1)@,
        forall|i: int|
            0 <= i < pairs.len() ==> m.contains_key(*(#[trigger] pairs[i]).0) && m[*pairs[i].0]
                == *pairs[i].1,
        forall|k: u64| #[trigger] m.contains_key(k) ==> pairs.contains((&k, &m[k])),
    ensures
        read == index_by_id(frames),
{
    let index = index_by_id(frames);
    let n = frames.len() as int;
    let keys = keys_of(pairs);
    lemma_keys_ascend(keys);
    lemma_index_ascending(frames);
    lemma_index_holds_last(frames);
    assert forall|j: int| 0 <= j < read.len() implies frame_with_id(frames, keys[j], n) == Some(
        #[trigger] read[j],
    ) by {
        assert(m.contains_key(*pairs[j].0));
    }
    assert(ascending_ids(read)) by {
        assert forall|i: int, j: int| 0 <= i < j < read.len() implies read[i].header.frame_id
            < read[j].header.frame_id by {
            lemma_frame_with_id(frames, keys[i], n);
            lemma_frame_with_id(frames, keys[j], n);
            assert(keys[i] < keys[j]);
        }
    }
    assert forall|j: int| 0 <= j < read.len() implies index.contains(#[trigger] read[j]) by {
        assert(frame_with_id(frames, keys[j], n) is Some);
        let p = choose|p: int|
            0 <= p < index.len() && (#[trigger] index[p]).header.frame_id == keys[j];
        assert(frame_with_id(frames, index[p].header.frame_id, n) == Some(index[p]));
    }
    assert forall|p: int| 0 <= p < index.len() implies read.contains(#[trigger] index[p]) by {
        let id = index[p].header.frame_id;
        assert(frame_with_id(frames, id, n) == Some(index[p]));
        assert(m.contains_key(id));
        assert(pairs.contains((&id, &m[id])));
        let j = choose|j: int| 0 <= j < pairs.len() && pairs[j] == (&id, &m[id]);
        assert(read[j] == index[p]);
    }
    lemma_ascending_equal(read, index);
}

/// The frames in an ordered map under their ids; a later frame takes the
/// place of an earlier one with its id.
pub(crate) fn map_by_id(frames: &Vec<Frame>) -> (map: BTreeMap<u64, Frame>)
    ensures
        holds_last(map@, frame_views(frames@), frames.len() as int),
{
    let ghost views = frame_views(frames@);
    let mut map: BTreeMap<u64, Frame> = BTreeMap::new();
    let mut i: usize = 0;
    while i < frames.len()
        invariant
            i <= frames.len(),
            views == frame_views(frames@),
            holds_last(map@, views, i as int),
        decreases frames.len() - i,
    {
        let frame = frames[i].duplicate();
        let ghost before = map@;
        assert(frame@ == views[i as int]);
        map.insert(frame.header.frame_id, frame);
        assert(map@ == before.insert(frame.header.frame_id, frame));
        i += 1;
    }
    map
}

/// Looks up the frame with the id in the map.
pub(crate) fn frame_by_id<'a>(
    map: &'a BTreeMap<u64, Frame>,
    id: u64,
    Ghost(frames): Ghost<Seq<FrameView>>,
) -> (r: Option<&'a Frame>)
    requires
        holds_last(map@, frames, frames.len() as int),
    ensures
        match r {
            Some(f) => frame_with_id(frames, id, frames.len() as int) == Some(f@),
            None => frame_with_id(frames, id, frames.len() as int) is None,
        },
{
    let r = map.get(&id);
    assert(map@.contains_key(id) <==> r is Some);
    r
}

/// Whether the map holds, under every id that occurs among the first `n`
/// located frames, offset and size of the last of them with that id, and
/// nothing else.
pub open spec fn holds_places(m: Map<u64, (usize, usize)>, located: Seq<LocatedView>, n: int) -> bool {
    forall|id: u64|
        #![trigger m.contains_key(id)]
        match place_with_id(located, id, n) {
            Some(p) => m.contains_key(id) && m[id].0 == p.0 && m[id].1 == p.1,
            None => !m.contains_key(id),
        }
}

/// Offset and size of the located frames in an ordered map under their
/// ids; a later frame takes the place of an earlier one with its id.
pub(crate) fn places_by_id(located: &[LocatedFrame]) -> (map: BTreeMap<u64, (usize, usize)>)
    ensures
        holds_places(map@, located_views(located@), located@.len() as int),
{
    let ghost views = located_views(located@);
    let mut map: BTreeMap<u64, (usize, usize)> = BTreeMap::new();
    let mut i: usize = 0;
    while i < located.len()
        invariant
            i <= located.len(),
            views == located_views(located@),
            holds_places(map@, views, i as int),
        decreases located.len() - i,
    {
        let ghost before = map@;
        let id = located[i].frame.header.frame_id;
        let place = (located[i].offset, located[i].size);
        assert(located@[i as int]@ == views[i as int]);
        map.insert(id, place);
        assert(map@ == before.insert(id, place));
        i += 1;
    }
    map
}

/// Looks up offset and size of the located frame with the id in the map.
pub(crate) fn place_by_id(
    map: &BTreeMap<u64, (usize, usize)>,
    id: u64,
    Ghost(located): Ghost<Seq<LocatedView>>,
) -> (r: Option<(usize, usize)>)
    requires
        holds_places(map@, located, located.len() as int),
    ensures
        match r {
            Some(p) => place_with_id(located, id, located.len() as int) == Some(
                (p.0 as nat, p.1 as nat),
            ),
            None => place_with_id(located, id, located.len() as int) is None,
        },
{
    let r = map.get(&id);
    assert(map@.contains_key(id) <==> r is Some);
    match r {
        Some(place) => Some(*place),
        None => None,
    }
}

/// Whether the map holds, under every id that occurs among the first `n`
/// frames, the position of the last of them with that id, and nothing
/// else.
pub open spec fn holds_positions(m: Map<u64, usize>, frames: Seq<FrameView>, n: int) -> bool {
    forall|id: u64|
        #![trigger m.contains_key(id)]
        match position_with_id(frames, id, n) {
            Some(p) => m.contains_key(id) && m[id] == p,
            None => !m.contains_key(id),
        }
}

/// The positions of the frames in an ordered map under their ids; a later
/// frame takes the place of an earlier one with its id.
pub(crate) fn positions_by_id(frames: &Vec<Frame>) -> (map: BTreeMap<u64, usize>)
    ensures
        holds_positions(map@, frame_views(frames@), frames.len() as int),
{
    let ghost views = frame_views(frames@);
    let mut map: BTreeMap<u64, usize> = BTreeMap::new();
    let mut i: usize = 0;
    while i < frames.len()
        invariant
            i <= frames.len(),
            views == frame_views(frames@),
            holds_positions(map@, views, i as int),
        decreases frames.len() - i,
    {
        let ghost before = map@;
        let id = frames[i].header.frame_id;
        assert(frames@[i as int]@ == views[i as int]);
        map.insert(id, i);
        assert(map@ == before.insert(id, i));
        i += 1;
    }
    map
}

/// Looks up the position of the frame with the id in the map.
pub(crate) fn position_by_id(
    map: &BTreeMap<u64, usize>,
    id: u64,
    Ghost(frames): Ghost<Seq<FrameView>>,
) -> (r: Option<usize>)
    requires
        holds_positions(map@, frames, frames.len() as int),
    ensures
        match r {
            Some(p) => p < frames.len() && position_with_id(frames, id, frames.len() as int)
                == Some(p as int),
            None => position_with_id(frames, id, frames.len() as int) is None,
        },
{
    let r = map.get(&id);
    assert(map@.contains_key(id) <==> r is Some);
    match r {
        Some(p) => {
            proof {
                lemma_position_in_range(frames, id, frames.len() as int);
            }
            Some(*p)
        },
        None => None,
    }
}

/// Indexes the frames by id: the frames go into an ordered map under their
/// ids, where a later frame takes the place of an earlier one with its id,
/// and are read out in the order of the ids.
pub(crate) fn build_index(frames: &Vec<Frame>) -> (index: Vec<Frame>)
    ensures
        frame_views(index@) == index_by_id(frame_views(frames@)),
{
    let ghost views = frame_views(frames@);
    let map = map_by_id(frames);
    let index = read_out(&map);
    proof {
        let pairs = spec_btree_map_iter(&map).remaining();
        lemma_read_out_is_index(map@, pairs, frame_views(index@), views);
    }
    index
}

} // verus!
