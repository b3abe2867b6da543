//! A report as a Graphviz DOT graph.

use crate::report::{
    ClusterView, ConflictView, GapDetail, GapDetailView, GapReason, RecipeView, RecoveryRecipe,
    ReportView, TimelineReport,
};
use crate::linker::{GapView, Timeline, TimelineView};
use crate::pack::{entry_views, FecIndexEntry, FecIndexEntryView};
use crate::text::{decimal, push_decimal, push_signed_decimal, signed_decimal};
use crate::types::FrameView;
use vstd::prelude::*;
use vstd::string::StringExecFns;

verus! {

/// The line of a node: an ordered frame.
pub open spec fn node_line(id: u64) -> Seq<char> {
    "  "@ + decimal(id as nat) + " [label=\""@ + decimal(id as nat) + "\"];\n"@
}

/// The lines of the nodes of the first `n` ordered frames.
pub open spec fn node_lines(frames: Seq<FrameView>, n: int) -> Seq<char>
    decreases n,
{
    if n <= 0 || n > frames.len() {
        Seq::empty()
    } else {
        node_lines(frames, n - 1) + node_line(frames[n - 1].header.frame_id)
    }
}

/// The line of an orphan in its cluster.
pub open spec fn member_line(id: u64) -> Seq<char> {
    "    "@ + decimal(id as nat) + " [style=filled, fillcolor=lightgray];\n"@
}

/// The lines of the first `n` orphans of a cluster.
pub open spec fn member_lines(ids: Seq<u64>, n: int) -> Seq<char>
    decreases n,
{
    if n <= 0 || n > ids.len() {
        Seq::empty()
    } else {
        member_lines(ids, n - 1) + member_line(ids[n - 1])
    }
}

/// The subgraph of the cluster number `number`.
pub open spec fn cluster_text(number: nat, cluster: ClusterView) -> Seq<char> {
    "  subgraph cluster_orphans_"@ + decimal(number) + " {\n"@ + "    label=\"orphan cluster #"@
        + decimal(number) + "\";\n"@ + "    style=dashed; color=gray;\n"@ + member_lines(
        cluster.ids,
        cluster.ids.len() as int,
    ) + "  }\n"@
}

/// The subgraphs of the first `n` clusters.
pub open spec fn clusters_text(clusters: Seq<ClusterView>, n: int) -> Seq<char>
    decreases n,
{
    if n <= 0 || n > clusters.len() {
        Seq::empty()
    } else {
        clusters_text(clusters, n - 1) + cluster_text((n - 1) as nat, clusters[n - 1])
    }
}

/// The line of a solid edge of the chain.
pub open spec fn edge_line(from: u64, to: u64) -> Seq<char> {
    "  "@ + decimal(from as nat) + " -> "@ + decimal(to as nat) + ";\n"@
}

/// The lines of the edges between the first `n + 1` ordered frames.
pub open spec fn edge_lines(frames: Seq<FrameView>, n: int) -> Seq<char>
    decreases n,
{
    if n <= 0 || n >= frames.len() {
        Seq::empty()
    } else {
        edge_lines(frames, n - 1) + edge_line(
            frames[n - 1].header.frame_id,
            frames[n].header.frame_id,
        )
    }
}

/// The label of a gap's edge.
pub open spec fn gap_label(reason: GapReason) -> Seq<char> {
    match reason {
        GapReason::MissingById => "gap: missing-by-id"@,
        GapReason::MissingByHash => "gap: missing-by-hash"@,
    }
}

/// The line of a gap: a dashed red edge.
pub open spec fn gap_line(detail: GapDetailView) -> Seq<char> {
    "  "@ + decimal(detail.gap.before as nat) + " -> "@ + decimal(detail.gap.after as nat)
        + " [style=dashed, color=red, label=\""@ + gap_label(detail.reason) + "\"];\n"@
}

/// The lines of the first `n` gaps.
pub open spec fn gap_lines(details: Seq<GapDetailView>, n: int) -> Seq<char>
    decreases n,
{
    if n <= 0 || n > details.len() {
        Seq::empty()
    } else {
        gap_lines(details, n - 1) + gap_line(details[n - 1])
    }
}

/// The line of one contender of a conflict: a dotted orange edge.
pub open spec fn contender_line(at: u64, contender: u64) -> Seq<char> {
    "  "@ + decimal(at as nat) + " -> "@ + decimal(contender as nat)
        + " [style=dotted, color=orange, label=\"conflict\"];\n"@
}

/// The lines of the first `n` contenders of a conflict.
pub open spec fn contender_lines(conflict: ConflictView, n: int) -> Seq<char>
    decreases n,
{
    if n <= 0 || n > conflict.contenders.len() {
        Seq::empty()
    } else {
        contender_lines(conflict, n - 1) + contender_line(conflict.at, conflict.contenders[n - 1])
    }
}

/// The lines of the first `n` conflicts.
pub open spec fn conflict_lines(conflicts: Seq<ConflictView>, n: int) -> Seq<char>
    decreases n,
{
    if n <= 0 || n > conflicts.len() {
        Seq::empty()
    } else {
        conflict_lines(conflicts, n - 1) + contender_lines(
            conflicts[n - 1],
            conflicts[n - 1].contenders.len() as int,
        )
    }
}

/// The line of the hint number `number`: a note.
pub open spec fn recipe_line(number: nat, recipe: RecipeView) -> Seq<char> {
    match recipe {
        RecipeView::InsertParityFrame { between, reason } => "  recipe_"@ + decimal(number)
            + " [shape=note, label=\"insert parity between "@ + decimal(between.0 as nat) + " and "@
            + decimal(between.1 as nat) + "\\n"@ + reason + "\", color=blue];\n"@,
        RecipeView::RewindOffset { near_frame, by_bytes, reason } => "  recipe_"@ + decimal(number)
            + " [shape=note, label=\"rewind offset near "@ + decimal(near_frame as nat) + " by "@
            + signed_decimal(by_bytes) + " bytes\\n"@ + reason + "\", color=blue];\n"@,
    }
}

/// The lines of the first `n` hints.
pub open spec fn recipe_lines(recipes: Seq<RecipeView>, n: int) -> Seq<char>
    decreases n,
{
    if n <= 0 || n > recipes.len() {
        Seq::empty()
    } else {
        recipe_lines(recipes, n - 1) + recipe_line((n - 1) as nat, recipes[n - 1])
    }
}

/// The DOT text of a report: the ordered frames as nodes, the clusters of
/// orphans as dashed subgraphs, solid edges along the order, dashed red
/// edges for the gaps, dotted orange edges for the conflicts, and the hints
/// as notes.
pub open spec fn dot_text(report: ReportView) -> Seq<char> {
    "digraph timeline {\n"@ + "  rankdir=LR;\n"@ + node_lines(
        report.timeline.frames,
        report.timeline.frames.len() as int,
    ) + clusters_text(report.orphan_clusters, report.orphan_clusters.len() as int) + edge_lines(
        report.timeline.frames,
        report.timeline.frames.len() - 1,
    ) + gap_lines(report.gap_details, report.gap_details.len() as int) + conflict_lines(
        report.conflicts,
        report.conflicts.len() as int,
    ) + recipe_lines(report.recipes, report.recipes.len() as int) + "}\n"@
}

fn push_node_line(out: &mut String, id: u64)
    ensures
        final(out)@ == old(out)@ + node_line(id),
{
    out.append("  ");
    push_decimal(out, id);
    out.append(" [label=\"");
    push_decimal(out, id);
    out.append("\"];\n");
    assert(out@ =~= old(out)@ + node_line(id));
}

fn push_member_line(out: &mut String, id: u64)
    ensures
        final(out)@ == old(out)@ + member_line(id),
{
    out.append("    ");
    push_decimal(out, id);
    out.append(" [style=filled, fillcolor=lightgray];\n");
    assert(out@ =~= old(out)@ + member_line(id));
}

fn push_cluster(out: &mut String, number: usize, ids: &Vec<u64>)
    ensures
        final(out)@ == old(out)@ + cluster_text(number as nat, ClusterView { ids: ids@ }),
{
    out.append("  subgraph cluster_orphans_");
    push_decimal(out, number as u64);
    out.append(" {\n");
    out.append("    label=\"orphan cluster #");
    push_decimal(out, number as u64);
    out.append("\";\n");
    out.append("    style=dashed; color=gray;\n");
    let ghost head = out@;
    let mut i: usize = 0;
    assert(out@ =~= head + member_lines(ids@, 0));
    while i < ids.len()
        invariant
            i <= ids.len(),
            out@ == head + member_lines(ids@, i as int),
        decreases ids.len() - i,
    {
        push_member_line(out, ids[i]);
        i += 1;
        assert(out@ =~= head + member_lines(ids@, i as int));
    }
    out.append("  }\n");
    assert(out@ =~= old(out)@ + cluster_text(number as nat, ClusterView { ids: ids@ }));
}

fn push_edge_line(out: &mut String, from: u64, to: u64)
    ensures
        final(out)@ == old(out)@ + edge_line(from, to),
{
    out.append("  ");
    push_decimal(out, from);
    out.append(" -> ");
    push_decimal(out, to);
    out.append(";\n");
    assert(out@ =~= old(out)@ + edge_line(from, to));
}

fn push_gap_line(out: &mut String, detail: &GapDetail)
    ensures
        final(out)@ == old(out)@ + gap_line(detail@),
{
    out.append("  ");
    push_decimal(out, detail.gap.before);
    out.append(" -> ");
    push_decimal(out, detail.gap.after);
    out.append(" [style=dashed, color=red, label=\"");
    match detail.reason {
        GapReason::MissingById => {
            out.append("gap: missing-by-id");
        },
        GapReason::MissingByHash => {
            out.append("gap: missing-by-hash");
        },
    }
    out.append("\"];\n");
    assert(out@ =~= old(out)@ + gap_line(detail@));
}

fn push_contender_line(out: &mut String, at: u64, contender: u64)
    ensures
        final(out)@ == old(out)@ + contender_line(at, contender),
{
    out.append("  ");
    push_decimal(out, at);
    out.append(" -> ");
    push_decimal(out, contender);
    out.append(" [style=dotted, color=orange, label=\"conflict\"];\n");
    assert(out@ =~= old(out)@ + contender_line(at, contender));
}

fn push_recipe_line(out: &mut String, number: usize, recipe: &RecoveryRecipe)
    ensures
        final(out)@ == old(out)@ + recipe_line(number as nat, recipe@),
{
    out.append("  recipe_");
    push_decimal(out, number as u64);
    match recipe {
        RecoveryRecipe::InsertParityFrame { between, reason } => {
            out.append(" [shape=note, label=\"insert parity between ");
            push_decimal(out, between.0);
            out.append(" and ");
            push_decimal(out, between.1);
            out.append("\\n");
            out.append(reason.as_str());
            out.append("\", color=blue];\n");
        },
        RecoveryRecipe::RewindOffset { near_frame, by_bytes, reason } => {
            out.append(" [shape=note, label=\"rewind offset near ");
            push_decimal(out, *near_frame);
            out.append(" by ");
            push_signed_decimal(out, *by_bytes as i128);
            out.append(" bytes\\n");
            out.append(reason.as_str());
            out.append("\", color=blue];\n");
        },
    }
    assert(out@ =~= old(out)@ + recipe_line(number as nat, recipe@));
}

/// Renders a report as a Graphviz DOT graph.
pub fn report_to_dot(report: &TimelineReport) -> (s: String)
    ensures
        s@ == dot_text(report@),
{
    let ghost view = report@;
    let mut out = String::new();
    out.append("digraph timeline {\n");
    out.append("  rankdir=LR;\n");
    let ghost head = out@;
    assert(head =~= "digraph timeline {\n"@ + "  rankdir=LR;\n"@);
    // Nodes: the ordered frames.
    let frames = &report.timeline.frames;
    let mut i: usize = 0;
    assert(out@ =~= head + node_lines(view.timeline.frames, 0));
    while i < frames.len()
        invariant
            i <= frames.len(),
            view == report@,
            frames@ == report.timeline.frames@,
            out@ == head + node_lines(view.timeline.frames, i as int),
        decreases frames.len() - i,
    {
        assert(view.timeline.frames[i as int] == frames@[i as int]@);
        push_node_line(&mut out, frames[i].header.frame_id);
        i += 1;
        assert(out@ =~= head + node_lines(view.timeline.frames, i as int));
    }
    // Clusters of orphans.
    let ghost head = out@;
    let mut i: usize = 0;
    assert(out@ =~= head + clusters_text(view.orphan_clusters, 0));
    while i < report.orphan_clusters.len()
        invariant
            i <= report.orphan_clusters.len(),
            view == report@,
            out@ == head + clusters_text(view.orphan_clusters, i as int),
        decreases report.orphan_clusters.len() - i,
    {
        assert(view.orphan_clusters[i as int] == report.orphan_clusters@[i as int]@);
        push_cluster(&mut out, i, &report.orphan_clusters[i].ids);
        i += 1;
        assert(out@ =~= head + clusters_text(view.orphan_clusters, i as int));
    }
    // Edges along the order.
    let ghost head = out@;
    let mut i: usize = 1;
    assert(out@ =~= head + edge_lines(view.timeline.frames, 0));
    while i < frames.len()
        invariant
            1 <= i,
            i <= frames.len() || i == 1,
            view == report@,
            frames@ == report.timeline.frames@,
            out@ == head + edge_lines(view.timeline.frames, i - 1),
        decreases frames.len() - i,
    {
        assert(view.timeline.frames[i - 1] == frames@[i - 1]@);
        assert(view.timeline.frames[i as int] == frames@[i as int]@);
        push_edge_line(&mut out, frames[i - 1].header.frame_id, frames[i].header.frame_id);
        i += 1;
        assert(out@ =~= head + edge_lines(view.timeline.frames, i - 1));
    }
    assert(edge_lines(view.timeline.frames, i - 1) == edge_lines(
        view.timeline.frames,
        view.timeline.frames.len() - 1,
    ));
    // Gaps with their reasons.
    let ghost head = out@;
    let mut i: usize = 0;
    assert(out@ =~= head + gap_lines(view.gap_details, 0));
    while i < report.gap_details.len()
        invariant
            i <= report.gap_details.len(),
            view == report@,
            out@ == head + gap_lines(view.gap_details, i as int),
        decreases report.gap_details.len() - i,
    {
        let detail = &report.gap_details[i];
        assert(view.gap_details[i as int] == detail@);
        push_gap_line(&mut out, detail);
        i += 1;
        assert(out@ =~= head + gap_lines(view.gap_details, i as int));
    }
    // Conflicts.
    let ghost head = out@;
    let mut i: usize = 0;
    assert(out@ =~= head + conflict_lines(view.conflicts, 0));
    while i < report.conflicts.len()
        invariant
            i <= report.conflicts.len(),
            view == report@,
            out@ == head + conflict_lines(view.conflicts, i as int),
        decreases report.conflicts.len() - i,
    {
        let conflict = &report.conflicts[i];
        assert(view.conflicts[i as int] == conflict@);
        let ghost before = out@;
        let mut j: usize = 0;
        assert(out@ =~= before + contender_lines(conflict@, 0));
        while j < conflict.contenders.len()
            invariant
                j <= conflict.contenders.len(),
                out@ == before + contender_lines(conflict@, j as int),
            decreases conflict.contenders.len() - j,
        {
            push_contender_line(&mut out, conflict.at, conflict.contenders[j]);
            j += 1;
            assert(out@ =~= before + contender_lines(conflict@, j as int));
        }
        i += 1;
        assert(out@ =~= head + conflict_lines(view.conflicts, i as int));
    }
    // Hints.
    let ghost head = out@;
    let mut i: usize = 0;
    assert(out@ =~= head + recipe_lines(view.recipes, 0));
    while i < report.recipes.len()
        invariant
            i <= report.recipes.len(),
            view == report@,
            out@ == head + recipe_lines(view.recipes, i as int),
        decreases report.recipes.len() - i,
    {
        assert(view.recipes[i as int] == report.recipes@[i as int]@);
        push_recipe_line(&mut out, i, &report.recipes[i]);
        i += 1;
        assert(out@ =~= head + recipe_lines(view.recipes, i as int));
    }
    out.append("}\n");
    assert(out@ =~= dot_text(view));
    out
}

/// The line of a gap of a plain timeline: a dashed red edge.
pub open spec fn plain_gap_line(gap: GapView) -> Seq<char> {
    "  "@ + decimal(gap.before as nat) + " -> "@ + decimal(gap.after as nat)
        + " [style=dashed, color=red, label=\"gap\"];\n"@
}

/// The lines of the first `n` gaps of a plain timeline.
pub open spec fn plain_gap_lines(gaps: Seq<GapView>, n: int) -> Seq<char>
    decreases n,
{
    if n <= 0 || n > gaps.len() {
        Seq::empty()
    } else {
        plain_gap_lines(gaps, n - 1) + plain_gap_line(gaps[n - 1])
    }
}

/// The line of a protected block: a dotted subgraph.
pub open spec fn fec_line(entry: FecIndexEntryView) -> Seq<char> {
    "  subgraph cluster_fec_"@ + decimal(entry.block_start_id as nat) + " { label=\"RS "@ + decimal(
        entry.data as nat,
    ) + "+"@ + decimal(entry.parity as nat) + "\"; style=dotted; }\n"@
}

/// The lines of the first `n` protected blocks.
pub open spec fn fec_lines(index: Seq<FecIndexEntryView>, n: int) -> Seq<char>
    decreases n,
{
    if n <= 0 || n > index.len() {
        Seq::empty()
    } else {
        fec_lines(index, n - 1) + fec_line(index[n - 1])
    }
}

/// The note on the protected blocks, where a sidecar index is given.
pub open spec fn fec_text(index: Option<Seq<FecIndexEntryView>>) -> Seq<char> {
    match index {
        None => Seq::empty(),
        Some(entries) => "  // FEC parity annotations\n"@ + fec_lines(entries, entries.len() as int),
    }
}

/// The DOT text of a timeline without analysis: the ordered frames as
/// nodes, solid edges along the order, dashed red edges for the gaps, and
/// a dotted subgraph for each protected block of a sidecar index.
pub open spec fn timeline_dot_text(timeline: TimelineView, index: Option<Seq<FecIndexEntryView>>) -> Seq<
    char,
> {
    "digraph timeline {\n"@ + "  rankdir=LR;\n"@ + node_lines(
        timeline.frames,
        timeline.frames.len() as int,
    ) + edge_lines(timeline.frames, timeline.frames.len() - 1) + plain_gap_lines(
        timeline.gaps,
        timeline.gaps.len() as int,
    ) + fec_text(index) + "}\n"@
}

fn push_plain_gap_line(out: &mut String, before: u64, after: u64)
    ensures
        final(out)@ == old(out)@ + "  "@ + decimal(before as nat) + " -> "@ + decimal(after as nat)
            + " [style=dashed, color=red, label=\"gap\"];\n"@,
{
    out.append("  ");
    push_decimal(out, before);
    out.append(" -> ");
    push_decimal(out, after);
    out.append(" [style=dashed, color=red, label=\"gap\"];\n");
}

fn push_fec_line(out: &mut String, entry: &FecIndexEntry)
    ensures
        final(out)@ == old(out)@ + fec_line(entry@),
{
    out.append("  subgraph cluster_fec_");
    push_decimal(out, entry.block_start_id);
    out.append(" { label=\"RS ");
    push_decimal(out, entry.data as u64);
    out.append("+");
    push_decimal(out, entry.parity as u64);
    out.append("\"; style=dotted; }\n");
    assert(out@ =~= old(out)@ + fec_line(entry@));
}

/// Renders a timeline without analysis as a Graphviz DOT graph.
pub fn timeline_to_dot(timeline: &Timeline, fec_index: Option<&[FecIndexEntry]>) -> (s: String)
    ensures
        s@ == timeline_dot_text(
            timeline@,
            match fec_index {
                Some(entries) => Some(entry_views(entries@)),
                None => None,
            },
        ),
{
    let ghost view = timeline@;
    let mut out = String::new();
    out.append("digraph timeline {\n");
    out.append("  rankdir=LR;\n");
    let ghost head = out@;
    assert(head =~= "digraph timeline {\n"@ + "  rankdir=LR;\n"@);
    let frames = &timeline.frames;
    let mut i: usize = 0;
    assert(out@ =~= head + node_lines(view.frames, 0));
    while i < frames.len()
        invariant
            i <= frames.len(),
            view == timeline@,
            frames@ == timeline.frames@,
            out@ == head + node_lines(view.frames, i as int),
        decreases frames.len() - i,
    {
        assert(view.frames[i as int] == frames@[i as int]@);
        push_node_line(&mut out, frames[i].header.frame_id);
        i += 1;
        assert(out@ =~= head + node_lines(view.frames, i as int));
    }
    let ghost head = out@;
    let mut i: usize = 1;
    assert(out@ =~= head + edge_lines(view.frames, 0));
    while i < frames.len()
        invariant
            1 <= i,
            i <= frames.len() || i == 1,
            view == timeline@,
            frames@ == timeline.frames@,
            out@ == head + edge_lines(view.frames, i - 1),
        decreases frames.len() - i,
    {
        assert(view.frames[i - 1] == frames@[i - 1]@);
        assert(view.frames[i as int] == frames@[i as int]@);
        push_edge_line(&mut out, frames[i - 1].header.frame_id, frames[i].header.frame_id);
        i += 1;
        assert(out@ =~= head + edge_lines(view.frames, i - 1));
    }
    assert(edge_lines(view.frames, i - 1) == edge_lines(view.frames, view.frames.len() - 1));
    let ghost head = out@;
    let mut i: usize = 0;
    assert(out@ =~= head + plain_gap_lines(view.gaps, 0));
    while i < timeline.gaps.len()
        invariant
            i <= timeline.gaps.len(),
            view == timeline@,
            out@ == head + plain_gap_lines(view.gaps, i as int),
        decreases timeline.gaps.len() - i,
    {
        let gap = &timeline.gaps[i];
        assert(view.gaps[i as int] == gap@);
        push_plain_gap_line(&mut out, gap.before, gap.after);
        i += 1;
        assert(out@ =~= head + plain_gap_lines(view.gaps, i as int));
    }
    let ghost head = out@;
    match fec_index {
        Some(entries) => {
            let ghost index = entry_views(entries@);
            out.append("  // FEC parity annotations\n");
            let ghost noted = out@;
            let mut i: usize = 0;
            assert(out@ =~= noted + fec_lines(index, 0));
            while i < entries.len()
                invariant
                    i <= entries.len(),
                    index == entry_views(entries@),
                    out@ == noted + fec_lines(index, i as int),
                decreases entries.len() - i,
            {
                assert(index[i as int] == entries@[i as int]@);
                push_fec_line(&mut out, &entries[i]);
                i += 1;
                assert(out@ =~= noted + fec_lines(index, i as int));
            }
            assert(out@ =~= head + fec_text(Some(index)));
        },
        None => {
            assert(out@ =~= head + fec_text(None));
        },
    }
    out.append("}\n");
    out
}

} // verus!
