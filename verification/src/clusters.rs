//! Connected components: which orphans hang together.
//!
//! Every orphan claims at most one frame as its predecessor. Orphans that a
//! claim joins, in either direction, hang together; a cluster is a set of
//! orphans that hang together, directly or over others, and is joined to
//! no orphan outside it.

use vstd::prelude::*;

verus! {

/// Whether the positions `p` and `q` are joined: one of them links to the
/// other.
pub open spec fn adjacent(links: Seq<Option<int>>, p: int, q: int) -> bool {
    &&& 0 <= p < links.len()
    &&& 0 <= q < links.len()
    &&& (links[p] == Some(q) || links[q] == Some(p))
}

/// Whether `path` is a path: positions of which every two neighbours are
/// joined.
pub open spec fn is_path(links: Seq<Option<int>>, path: Seq<int>) -> bool {
    &&& path.len() >= 1
    &&& forall|k: int| 0 <= k < path.len() ==> 0 <= #[trigger] path[k] < links.len()
    &&& forall|k: int| 0 <= k < path.len() - 1 ==> adjacent(links, #[trigger] path[k], path[k + 1])
}

/// Whether a path leads from `p` to `q`.
pub open spec fn connected(links: Seq<Option<int>>, p: int, q: int) -> bool {
    exists|path: Seq<int>| #[trigger] is_path(links, path) && path[0] == p && path.last() == q
}

/// Whether the positions ascend strictly.
pub open spec fn ascending(s: Seq<int>) -> bool {
    forall|i: int, j: int| 0 <= i < j < s.len() ==> s[i] < s[j]
}

/// Whether the groups are built up to position `root`: every group holds
/// positions in ascending order, beginning below `root`; the groups come in
/// the order of their first positions; no position is in two groups; the
/// positions of a group hang together, and none of them is joined to a
/// position outside the group; the positions in groups are those marked as
/// assigned, and every position below `root` is among them.
pub open spec fn groups_upto(
    groups: Seq<Seq<int>>,
    links: Seq<Option<int>>,
    assigned: Seq<bool>,
    root: int,
) -> bool {
    &&& assigned.len() == links.len()
    &&& forall|c: int|
        0 <= c < groups.len() ==> (#[trigger] groups[c]).len() >= 1 && ascending(groups[c])
            && groups[c][0] < root
    &&& forall|c: int, i: int|
        0 <= c < groups.len() && 0 <= i < groups[c].len() ==> 0 <= (#[trigger] groups[c][i])
            < links.len() && assigned[groups[c][i]] && connected(links, groups[c][0], groups[c][i])
    &&& forall|c: int, d: int, i: int, j: int|
        0 <= c < groups.len() && 0 <= d < groups.len() && 0 <= i < groups[c].len() && 0 <= j
            < groups[d].len() && #[trigger] groups[c][i] == #[trigger] groups[d][j] ==> c == d
    &&& forall|c: int, d: int|
        0 <= c < d < groups.len() ==> (#[trigger] groups[c])[0] < (#[trigger] groups[d])[0]
    &&& forall|c: int, i: int, q: int|
        0 <= c < groups.len() && 0 <= i < groups[c].len() && #[trigger] adjacent(
            links,
            groups[c][i],
            q,
        ) ==> groups[c].contains(q)
    &&& forall|p: int|
        0 <= p < links.len() && #[trigger] assigned[p] ==> exists|c: int|
            0 <= c < groups.len() && (#[trigger] groups[c]).contains(p)
    &&& forall|p: int| 0 <= p < root && p < links.len() ==> #[trigger] assigned[p]
}

/// Whether the groups are the clusters of the positions: every position is
/// in exactly one group; the positions of a group hang together, and none
/// of them is joined to a position outside the group; every group holds its
/// positions in ascending order, and the groups come in the order of their
/// first positions.
pub open spec fn is_grouping(groups: Seq<Seq<int>>, links: Seq<Option<int>>) -> bool {
    exists|assigned: Seq<bool>| #[trigger]
        groups_upto(groups, links, assigned, links.len() as int)
}

/// The number of positions that are marked.
pub open spec fn count_true(marks: Seq<bool>) -> nat
    decreases marks.len(),
{
    if marks.len() == 0 {
        0
    } else {
        count_true(marks.drop_last()) + (if marks.last() {
            1nat
        } else {
            0nat
        })
    }
}

/// Marking a position that was not marked makes one more marked position;
/// and there are never more marked positions than positions.
proof fn lemma_count_mark(marks: Seq<bool>, i: int)
    requires
        0 <= i < marks.len(),
        !marks[i],
    ensures
        count_true(marks.update(i, true)) == count_true(marks) + 1,
        count_true(marks) < marks.len(),
    decreases marks.len(),
{
    let shorter = marks.drop_last();
    if i == marks.len() - 1 {
        assert(marks.update(i, true).drop_last() =~= shorter);
        lemma_count_bound(shorter);
    } else {
        lemma_count_mark(shorter, i);
        assert(marks.update(i, true).drop_last() =~= shorter.update(i, true));
    }
}

/// There are never more marked positions than positions.
proof fn lemma_count_bound(marks: Seq<bool>)
    ensures
        count_true(marks) <= marks.len(),
    decreases marks.len(),
{
    if marks.len() > 0 {
        lemma_count_bound(marks.drop_last());
    }
}

/// A position hangs together with itself.
proof fn lemma_connected_self(links: Seq<Option<int>>, p: int)
    requires
        0 <= p < links.len(),
    ensures
        connected(links, p, p),
{
    let path = seq![p];
    assert(is_path(links, path) && path[0] == p && path.last() == p);
}

/// A path goes on over a joint.
proof fn lemma_connected_step(links: Seq<Option<int>>, root: int, p: int, q: int)
    requires
        connected(links, root, p),
        adjacent(links, p, q),
    ensures
        connected(links, root, q),
{
    let path = choose|path: Seq<int>| #[trigger]
        is_path(links, path) && path[0] == root && path.last() == p;
    let longer = path.push(q);
    assert forall|k: int| 0 <= k < longer.len() - 1 implies adjacent(
        links,
        #[trigger] longer[k],
        longer[k + 1],
    ) by {
        if k < path.len() - 1 {
            assert(adjacent(links, path[k], path[k + 1]));
        }
    }
    assert(is_path(links, longer) && longer[0] == root && longer.last() == q);
}

/// What links hold, as positions.
pub open spec fn link_views(linked: Seq<Option<usize>>) -> Seq<Option<int>> {
    linked.map_values(
        |l: Option<usize>|
            match l {
                Some(p) => Some(p as int),
                None => None,
            },
    )
}

/// What groups hold, as positions.
pub open spec fn group_views(groups: Seq<Vec<usize>>) -> Seq<Seq<int>> {
    groups.map_values(|g: Vec<usize>| g@.map_values(|p: usize| p as int))
}

/// Grows the cluster of `root`: marks `root`, and every position that is
/// joined to a marked position, until none is left to mark.
fn grow(linked: &Vec<Option<usize>>, assigned: &Vec<bool>, root: usize) -> (member: Vec<bool>)
    requires
        root < linked.len(),
        assigned.len() == linked.len(),
        forall|j: int| 0 <= j < linked.len() ==> (#[trigger] linked@[j] matches Some(p) ==> p
            < linked.len()),
        !assigned@[root as int],
        forall|p: int, q: int|
            #[trigger] adjacent(link_views(linked@), p, q) && assigned@[p] ==> assigned@[q],
    ensures
        member.len() == linked.len(),
        member@[root as int],
        forall|p: int|
            0 <= p < linked.len() && #[trigger] member@[p] ==> !assigned@[p] && connected(
                link_views(linked@),
                root as int,
                p,
            ),
        forall|p: int, q: int|
            #[trigger] adjacent(link_views(linked@), p, q) && member@[p] ==> member@[q],
{
    let n = linked.len();
    let ghost links = link_views(linked@);
    let mut member: Vec<bool> = Vec::new();
    let mut i: usize = 0;
    while i < n
        invariant
            i <= n,
            member.len() == i,
            forall|j: int| 0 <= j < i ==> !member@[j],
            count_true(member@) == 0,
        decreases n - i,
    {
        let ghost before = member@;
        member.push(false);
        assert(member@.drop_last() =~= before);
        i += 1;
    }
    proof {
        lemma_count_mark(member@, root as int);
        lemma_connected_self(links, root as int);
    }
    member.set(root, true);
    let mut count: usize = 1;
    let mut changed = true;
    while changed
        invariant
            n == linked.len(),
            links == link_views(linked@),
            member.len() == n,
            assigned.len() == n,
            member@[root as int],
            count == count_true(member@),
            count <= n,
            forall|j: int| 0 <= j < n ==> (#[trigger] linked@[j] matches Some(p) ==> p < n),
            forall|p: int, q: int| #[trigger] adjacent(links, p, q) && assigned@[p] ==> assigned@[q],
            forall|p: int|
                0 <= p < n && #[trigger] member@[p] ==> !assigned@[p] && connected(
                    links,
                    root as int,
                    p,
                ),
            !changed ==> forall|j: int|
                0 <= j < n ==> (#[trigger] linked@[j] matches Some(p) ==> member@[j]
                    == member@[p as int]),
        decreases (n - count) + (if changed {
            1int
        } else {
            0int
        }),
    {
        changed = false;
        let ghost before = count;
        let mut i: usize = 0;
        while i < n
            invariant
                i <= n,
                n == linked.len(),
                links == link_views(linked@),
                member.len() == n,
                assigned.len() == n,
                member@[root as int],
                count == count_true(member@),
                count <= n,
                before <= count,
                changed ==> before < count,
                forall|j: int| 0 <= j < n ==> (#[trigger] linked@[j] matches Some(p) ==> p < n),
                forall|p: int, q: int|
                    #[trigger] adjacent(links, p, q) && assigned@[p] ==> assigned@[q],
                forall|p: int|
                    0 <= p < n && #[trigger] member@[p] ==> !assigned@[p] && connected(
                        links,
                        root as int,
                        p,
                    ),
                !changed ==> forall|j: int|
                    0 <= j < i ==> (#[trigger] linked@[j] matches Some(p) ==> member@[j]
                        == member@[p as int]),
            decreases n - i,
        {
            match linked[i] {
                Some(p) => {
                    assert(links[i as int] == Some(p as int));
                    assert(adjacent(links, i as int, p as int));
                    assert(adjacent(links, p as int, i as int));
                    if member[i] != member[p] {
                        let from = if member[i] {
                            i
                        } else {
                            p
                        };
                        let to = if member[i] {
                            p
                        } else {
                            i
                        };
                        proof {
                            assert(member@[from as int] && !member@[to as int]);
                            assert(adjacent(links, from as int, to as int));
                            assert(adjacent(links, to as int, from as int));
                            lemma_connected_step(links, root as int, from as int, to as int);
                            lemma_count_mark(member@, to as int);
                            if assigned@[to as int] {
                                assert(assigned@[from as int]);
                            }
                        }
                        member.set(to, true);
                        count += 1;
                        changed = true;
                    }
                },
                None => {},
            }
            i += 1;
        }
    }
    assert forall|p: int, q: int| #[trigger] adjacent(links, p, q) && member@[p] implies member@[q] by {
        if links[p] == Some(q) {
            assert(linked@[p] matches Some(x) && x == q);
        } else {
            assert(linked@[q] matches Some(x) && x == p);
        }
    }
    member
}

/// The marked positions, in ascending order.
fn collect(member: &Vec<bool>) -> (group: Vec<usize>)
    ensures
        ascending(group@.map_values(|p: usize| p as int)),
        forall|i: int|
            0 <= i < group.len() ==> (#[trigger] group@[i]) < member.len() && member@[group@[i] as int],
        forall|p: int|
            0 <= p < member.len() && #[trigger] member@[p] ==> group@.map_values(
                |p: usize| p as int,
            ).contains(p),
{
    let mut group: Vec<usize> = Vec::new();
    let ghost to_int = |p: usize| p as int;
    let mut p: usize = 0;
    while p < member.len()
        invariant
            p <= member.len(),
            to_int == |p: usize| p as int,
            ascending(group@.map_values(to_int)),
            forall|i: int|
                0 <= i < group.len() ==> (#[trigger] group@[i]) < p && member@[group@[i] as int],
            forall|q: int|
                0 <= q < p && #[trigger] member@[q] ==> group@.map_values(to_int).contains(q),
        decreases member.len() - p,
    {
        if member[p] {
            let ghost before = group@.map_values(to_int);
            group.push(p);
            let ghost after = group@.map_values(to_int);
            assert(after =~= before.push(p as int));
            assert forall|q: int| 0 <= q < p + 1 && #[trigger] member@[q] implies after.contains(
                q,
            ) by {
                if q < p {
                    let i = choose|i: int| 0 <= i < before.len() && before[i] == q;
                    assert(after[i] == q);
                } else {
                    assert(after[after.len() - 1] == q);
                }
            }
            assert(ascending(after)) by {
                assert forall|i: int, j: int| 0 <= i < j < after.len() implies after[i] < after[j] by {
                    if j < before.len() {
                        assert(before[i] < before[j]);
                    } else {
                        assert(after[i] == group@[i] as int);
                    }
                }
            }
        }
        p += 1;
    }
    group
}

/// A new group keeps the groups in order: the cluster of the first
/// position that was not assigned goes behind the groups built before.
proof fn lemma_add_group(
    groups: Seq<Seq<int>>,
    links: Seq<Option<int>>,
    assigned: Seq<bool>,
    root: int,
    group: Seq<int>,
    member: Seq<bool>,
    marked: Seq<bool>,
)
    requires
        groups_upto(groups, links, assigned, root),
        0 <= root < links.len(),
        !assigned[root],
        member.len() == links.len(),
        marked.len() == links.len(),
        member[root],
        forall|p: int|
            0 <= p < links.len() && #[trigger] member[p] ==> !assigned[p] && connected(
                links,
                root,
                p,
            ),
        forall|p: int, q: int| #[trigger] adjacent(links, p, q) && member[p] ==> member[q],
        ascending(group),
        forall|i: int| 0 <= i < group.len() ==> 0 <= (#[trigger] group[i]) < links.len() && member[group[i]],
        forall|p: int| 0 <= p < links.len() && #[trigger] member[p] ==> group.contains(p),
        forall|p: int| 0 <= p < links.len() ==> #[trigger] marked[p] == (assigned[p] || member[p]),
    ensures
        groups_upto(groups.push(group), links, marked, root + 1),
{
    let more = groups.push(group);
    let last = groups.len() as int;
    assert(group.contains(root));
    let at = choose|i: int| 0 <= i < group.len() && group[i] == root;
    assert(group.len() >= 1);
    // The group begins at the root: every smaller position was assigned.
    assert(group[0] == root) by {
        assert(member[group[0]]);
        assert(!assigned[group[0]]);
        if group[0] < root {
            assert(assigned[group[0]]);
        }
        if at > 0 {
            assert(group[0] < group[at]);
        }
    }
    assert forall|c: int| 0 <= c < more.len() implies (#[trigger] more[c]).len() >= 1 && ascending(
        more[c],
    ) && more[c][0] < root + 1 by {
        if c < last {
            assert(more[c] == groups[c]);
        }
    }
    assert forall|c: int, i: int| 0 <= c < more.len() && 0 <= i < more[c].len() implies 0 <= (
    #[trigger] more[c][i]) < links.len() && marked[more[c][i]] && connected(
        links,
        more[c][0],
        more[c][i],
    ) by {
        if c < last {
            assert(more[c] == groups[c]);
            assert(assigned[groups[c][i]]);
        } else {
            assert(member[group[i]]);
        }
    }
    assert forall|c: int, d: int, i: int, j: int|
        0 <= c < more.len() && 0 <= d < more.len() && 0 <= i < more[c].len() && 0 <= j
            < more[d].len() && #[trigger] more[c][i] == #[trigger] more[d][j] implies c == d by {
        if c < last && d < last {
            assert(more[c] == groups[c] && more[d] == groups[d]);
            assert(groups[c][i] == groups[d][j]);
        } else if c < last {
            assert(more[c] == groups[c]);
            assert(assigned[groups[c][i]]);
            assert(member[group[j]]);
        } else if d < last {
            assert(more[d] == groups[d]);
            assert(assigned[groups[d][j]]);
            assert(member[group[i]]);
        }
    }
    assert forall|c: int, d: int| 0 <= c < d < more.len() implies (#[trigger] more[c])[0] < (
    #[trigger] more[d])[0] by {
        assert(more[c] == groups[c]);
        if d < last {
            assert(more[d] == groups[d]);
        }
    }
    assert forall|c: int, i: int, q: int|
        0 <= c < more.len() && 0 <= i < more[c].len() && #[trigger] adjacent(
            links,
            more[c][i],
            q,
        ) implies more[c].contains(q) by {
        if c < last {
            assert(more[c] == groups[c]);
            assert(adjacent(links, groups[c][i], q));
        } else {
            assert(member[group[i]]);
            assert(member[q]);
        }
    }
    assert forall|p: int| 0 <= p < links.len() && #[trigger] marked[p] implies exists|c: int|
        0 <= c < more.len() && (#[trigger] more[c]).contains(p) by {
        if assigned[p] {
            let c = choose|c: int| 0 <= c < groups.len() && (#[trigger] groups[c]).contains(p);
            assert(more[c] == groups[c]);
        } else {
            assert(member[p]);
            assert(more[last].contains(p));
        }
    }
    assert forall|p: int| 0 <= p < root + 1 && p < links.len() implies #[trigger] marked[p] by {
        if p < root {
            assert(assigned[p]);
        }
    }
}

/// The positions that are assigned are joined to assigned positions only.
proof fn lemma_assigned_closed(
    groups: Seq<Seq<int>>,
    links: Seq<Option<int>>,
    assigned: Seq<bool>,
    root: int,
)
    requires
        groups_upto(groups, links, assigned, root),
    ensures
        forall|p: int, q: int| #[trigger] adjacent(links, p, q) && assigned[p] ==> assigned[q],
{
    assert forall|p: int, q: int| #[trigger] adjacent(links, p, q) && assigned[p] implies assigned[q] by {
        let c = choose|c: int| 0 <= c < groups.len() && (#[trigger] groups[c]).contains(p);
        let i = choose|i: int| 0 <= i < groups[c].len() && groups[c][i] == p;
        assert(adjacent(links, groups[c][i], q));
        assert(groups[c].contains(q));
        let j = choose|j: int| 0 <= j < groups[c].len() && groups[c][j] == q;
        assert(assigned[groups[c][j]]);
    }
}

/// The clusters of the positions: the connected components under the
/// links, each in ascending order, in the order of their first positions.
pub(crate) fn components(linked: &Vec<Option<usize>>) -> (groups: Vec<Vec<usize>>)
    requires
        forall|j: int| 0 <= j < linked.len() ==> (#[trigger] linked@[j] matches Some(p) ==> p
            < linked.len()),
    ensures
        is_grouping(group_views(groups@), link_views(linked@)),
{
    let n = linked.len();
    let ghost links = link_views(linked@);
    let mut assigned: Vec<bool> = Vec::new();
    let mut i: usize = 0;
    while i < n
        invariant
            i <= n,
            assigned.len() == i,
            forall|j: int| 0 <= j < i ==> !assigned@[j],
        decreases n - i,
    {
        assigned.push(false);
        i += 1;
    }
    let mut groups: Vec<Vec<usize>> = Vec::new();
    let mut root: usize = 0;
    assert(group_views(groups@) =~= Seq::empty());
    while root < n
        invariant
            root <= n,
            n == linked.len(),
            links == link_views(linked@),
            assigned.len() == n,
            forall|j: int| 0 <= j < n ==> (#[trigger] linked@[j] matches Some(p) ==> p < n),
            groups_upto(group_views(groups@), links, assigned@, root as int),
        decreases n - root,
    {
        if !assigned[root] {
            proof {
                lemma_assigned_closed(group_views(groups@), links, assigned@, root as int);
            }
            let member = grow(linked, &assigned, root);
            let group = collect(&member);
            let ghost before = assigned@;
            let mut p: usize = 0;
            while p < n
                invariant
                    p <= n,
                    member.len() == n,
                    assigned.len() == n,
                    before.len() == n,
                    forall|q: int|
                        0 <= q < n ==> #[trigger] assigned@[q] == (before[q] || (q < p
                            && member@[q])),
                decreases n - p,
            {
                if member[p] {
                    assigned.set(p, true);
                }
                p += 1;
            }
            let ghost old_groups = group_views(groups@);
            let ghost positions = group@.map_values(|p: usize| p as int);
            proof {
                assert forall|i: int| 0 <= i < positions.len() implies 0 <= (
                #[trigger] positions[i]) < links.len() && member@[positions[i]] by {
                    assert(positions[i] == group@[i] as int);
                }
                lemma_add_group(
                    old_groups,
                    links,
                    before,
                    root as int,
                    positions,
                    member@,
                    assigned@,
                );
            }
            groups.push(group);
            assert(group_views(groups@) =~= old_groups.push(positions));
        } else {
            proof {
                let g = group_views(groups@);
                assert forall|c: int| 0 <= c < g.len() implies (#[trigger] g[c]).len() >= 1
                    && ascending(g[c]) && g[c][0] < root + 1 by {}
            }
        }
        root += 1;
    }
    groups
}

} // verus!
