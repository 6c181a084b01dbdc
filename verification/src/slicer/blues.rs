use vstd::prelude::*;

use std::sync::Arc;
use vstd::set_lib::{lemma_int_range, lemma_len_subset, set_int_range};

use crate::block::set::{
    block_with_id, drivers_of, find_block, find_entry, has_block, lemma_block_with_id,
    lemma_driver_is_block, lemma_lookup_at, table_correct, table_has, table_lookup, unique_alias, DriverEntry,
};
use crate::block::{
    BlockView,
    entry_part, find_key, flow_has, has_key, Block, BlockSet, BlockType, CircuitType, DataflowEntry,
};
use crate::block::equality::keys_of;
use crate::coverage::CoverageTracker;
use crate::slicer::static_slice::resolved_root;
use crate::text::str_eq;
use crate::error::{string_views, top_matches, SvaError};
use crate::slicer::collect::{
    add_edge, add_node, ascending, block_ids_of, edges_in_key_order, has_block_node, node_block_id,
    nodes_in_key_order, slice_block_of, slice_blocks, sort_edges, sort_nodes,
};
use crate::slicer::{
    edge_views_distinct, has_edge_view, has_view, views_distinct, InstructionExecutionPath,
    SliceEdge, SliceEdgeView, SliceGraph, SliceRequest, Slicer,
};
use crate::types::{BlockId, SignalKey, SignalNode, SignalNodeKind, SliceNodeView, TimedSliceNode, Timestamp};

verus! {

/// Block `d` is one of the blocks and reads `i` in one of its assignments.
pub open spec fn reads(blocks: Seq<Block>, d: BlockId, i: SignalKey) -> bool {
    has_block(blocks, d) && flow_has(block_with_id(blocks, d)@.dataflow, true, i)
}

/// The edge follows a dependency of the design: a literal that the block it
/// enters reads, or a signal that the block it leaves drives and the block it
/// enters reads (or, for a block feeding itself across a clock edge, drives).
pub open spec fn edge_follows_dataflow(blocks: Seq<Block>, e: SliceEdgeView) -> bool {
    match e.0 {
        SliceNodeView::LiteralAt { signal, .. } => match e.1 {
            SliceNodeView::BlockAt { block_id, .. } => e.2 is None && signal.0 == SignalNodeKind::Literal
                && reads(blocks, BlockId(block_id), signal),
            SliceNodeView::LiteralAt { .. } => false,
        },
        SliceNodeView::BlockAt { block_id: u, .. } => match e.1 {
            SliceNodeView::BlockAt { block_id: d, .. } => match e.2 {
                Some(i) => drivers_of(blocks, i).contains(BlockId(u)) && (u == d || reads(blocks, BlockId(d), i)),
                None => false,
            },
            SliceNodeView::LiteralAt { .. } => false,
        },
    }
}

pub open spec fn node_time(v: SliceNodeView) -> Option<i64> {
    match v {
        SliceNodeView::BlockAt { time, .. } => time,
        SliceNodeView::LiteralAt { time, .. } => time,
    }
}

/// A node of a dynamic slice: timed, not before `min_time`, and a block of
/// the design or a literal.
pub open spec fn dynamic_node_ok(blocks: Seq<Block>, min_time: i64, v: SliceNodeView) -> bool {
    &&& node_time(v) is Some
    &&& node_time(v)->0 >= min_time
    &&& match v {
        SliceNodeView::BlockAt { block_id, .. } => has_block(blocks, BlockId(block_id)),
        SliceNodeView::LiteralAt { signal, .. } => signal.0 == SignalNodeKind::Literal,
    }
}

/// Nodes and edges collected so far: each once, the nodes as above, and each
/// edge between two of the nodes along a dependency of the design.
pub open spec fn dynamic_parts_ok(
    blocks: Seq<Block>,
    min_time: i64,
    nodes: Seq<TimedSliceNode>,
    edges: Seq<SliceEdge<TimedSliceNode>>,
) -> bool {
    &&& views_distinct(nodes)
    &&& edge_views_distinct(edges)
    &&& forall|i: int| 0 <= i < nodes.len() ==> dynamic_node_ok(blocks, min_time, #[trigger] nodes[i]@)
    &&& forall|e: int|
        0 <= e < edges.len() ==> has_view(nodes, (#[trigger] edges[e])@.0) && has_view(nodes, edges[e]@.1)
            && edge_follows_dataflow(blocks, edges[e]@)
}

/// The timed node of block `d`.
pub open spec fn block_at(d: BlockId, t: i64) -> SliceNodeView {
    SliceNodeView::BlockAt { block_id: d.0, time: Some(t) }
}

proof fn lemma_nodes_grow(
    blocks: Seq<Block>,
    min_time: i64,
    old_nodes: Seq<TimedSliceNode>,
    nodes: Seq<TimedSliceNode>,
    edges: Seq<SliceEdge<TimedSliceNode>>,
    n: SliceNodeView,
)
    requires
        dynamic_parts_ok(blocks, min_time, old_nodes, edges),
        dynamic_node_ok(blocks, min_time, n),
        views_distinct(nodes),
        forall|v: SliceNodeView| #[trigger] has_view(nodes, v) <==> (has_view(old_nodes, v) || v == n),
    ensures
        dynamic_parts_ok(blocks, min_time, nodes, edges),
{
    assert forall|i: int| 0 <= i < nodes.len() implies dynamic_node_ok(blocks, min_time, #[trigger] nodes[i]@) by {
        assert(has_view(nodes, nodes[i]@));
        if nodes[i]@ != n {
            let w = choose|w: int| 0 <= w < old_nodes.len() && #[trigger] old_nodes[w]@ == nodes[i]@;
        }
    }
    assert forall|e: int| 0 <= e < edges.len() implies has_view(nodes, (#[trigger] edges[e])@.0) && has_view(nodes, edges[e]@.1)
        && edge_follows_dataflow(blocks, edges[e]@) by {
        assert(has_view(old_nodes, edges[e]@.0));
        assert(has_view(old_nodes, edges[e]@.1));
    }
}

/// Adds a node that belongs in a dynamic slice.
fn add_dynamic_node(
    blocks: &Vec<Block>,
    min_time: i64,
    nodes: &mut Vec<TimedSliceNode>,
    edges: &Vec<SliceEdge<TimedSliceNode>>,
    n: TimedSliceNode,
)
    requires
        dynamic_parts_ok(blocks@, min_time, old(nodes)@, edges@),
        dynamic_node_ok(blocks@, min_time, n@),
    ensures
        dynamic_parts_ok(blocks@, min_time, final(nodes)@, edges@),
        forall|v: SliceNodeView| #[trigger] has_view(final(nodes)@, v) <==> (has_view(old(nodes)@, v) || v == n@),
{
    let ghost before = nodes@;
    let ghost nv = n@;
    add_node(nodes, n);
    proof {
        lemma_nodes_grow(blocks@, min_time, before, nodes@, edges@, nv);
    }
}

/// Adds an edge between two nodes along a dependency of the design.
fn add_dynamic_edge(
    blocks: &Vec<Block>,
    min_time: i64,
    nodes: &Vec<TimedSliceNode>,
    edges: &mut Vec<SliceEdge<TimedSliceNode>>,
    e: SliceEdge<TimedSliceNode>,
)
    requires
        dynamic_parts_ok(blocks@, min_time, nodes@, old(edges)@),
        has_view(nodes@, e.from@),
        has_view(nodes@, e.to@),
        edge_follows_dataflow(blocks@, e@),
    ensures
        dynamic_parts_ok(blocks@, min_time, nodes@, final(edges)@),
        forall|x: SliceEdgeView| #[trigger] has_edge_view(final(edges)@, x) <==> (has_edge_view(old(edges)@, x) || x == e@),
{
    let ghost before = edges@;
    let ghost ev = e@;
    add_edge(edges, e);
    proof {
        assert forall|x: int| 0 <= x < edges@.len() implies has_view(nodes@, (#[trigger] edges@[x])@.0) && has_view(nodes@, edges@[x]@.1)
            && edge_follows_dataflow(blocks@, edges@[x]@) by {
            assert(has_edge_view(edges@, edges@[x]@));
            if edges@[x]@ != ev {
                let w = choose|w: int| 0 <= w < before.len() && #[trigger] before[w]@ == edges@[x]@;
                assert(has_view(nodes@, before[w]@.0));
            }
        }
    }
}

/// `x` is read by an assignment of `df` that writes `out`.
pub open spec fn read_for(df: Seq<DataflowEntry>, out: SignalKey, x: SignalKey) -> bool {
    exists|e: int| 0 <= e < df.len() && has_key(df[e].output@, out) && #[trigger] has_key(df[e].inputs@, x)
}

/// The source lines, other than the unknown line 0, at which the outputs of
/// an assignment stand.
pub open spec fn output_lines(s: Seq<SignalNode>) -> Seq<usize>
    decreases s.len(),
{
    if s.len() == 0 {
        Seq::<usize>::empty()
    } else if s.last().locate.line != 0 {
        output_lines(s.drop_last()).push(s.last().locate.line)
    } else {
        output_lines(s.drop_last())
    }
}

fn entry_output_lines(entry: &DataflowEntry) -> (r: Vec<usize>)
    ensures
        r@ == output_lines(entry.output@),
{
    let mut out: Vec<usize> = Vec::new();
    let mut i: usize = 0;
    while i < entry.output.len()
        invariant
            i <= entry.output@.len(),
            out@ == output_lines(entry.output@.subrange(0, i as int)),
        decreases entry.output@.len() - i,
    {
        proof {
            assert(entry.output@.subrange(0, i + 1).drop_last() =~= entry.output@.subrange(0, i as int));
        }
        let line = entry.output[i].locate.line;
        if line != 0 {
            out.push(line);
        }
        i = i + 1;
    }
    proof {
        assert(entry.output@.subrange(0, entry.output@.len() as int) =~= entry.output@);
    }
    out
}

/// The signals that the assignments of `df` to `out` read, assignment by
/// assignment in order.
pub open spec fn all_inputs_for(df: Seq<DataflowEntry>, out: SignalKey) -> Seq<SignalKey>
    decreases df.len(),
{
    if df.len() == 0 {
        Seq::<SignalKey>::empty()
    } else {
        all_inputs_for(df.drop_last(), out) + if has_key(df.last().output@, out) {
            keys_of(df.last().inputs@)
        } else {
            Seq::<SignalKey>::empty()
        }
    }
}

/// The positions of the assignments of `df` to `out`, ascending.
pub open spec fn writing_positions(df: Seq<DataflowEntry>, out: SignalKey) -> Seq<usize>
    decreases df.len(),
{
    if df.len() == 0 {
        Seq::<usize>::empty()
    } else if has_key(df.last().output@, out) {
        writing_positions(df.drop_last(), out).push((df.len() - 1) as usize)
    } else {
        writing_positions(df.drop_last(), out)
    }
}

/// The signals read by the assignments of `df` at positions `pos`, in order.
pub open spec fn inputs_at(df: Seq<DataflowEntry>, pos: Seq<usize>) -> Seq<SignalKey>
    decreases pos.len(),
{
    if pos.len() == 0 {
        Seq::<SignalKey>::empty()
    } else {
        inputs_at(df, pos.drop_last()) + keys_of(df[pos.last() as int].inputs@)
    }
}

proof fn lemma_inputs_at_prefix(df: Seq<DataflowEntry>, pos: Seq<usize>)
    requires
        df.len() > 0,
        forall|k: int| 0 <= k < pos.len() ==> #[trigger] pos[k] < df.len() - 1,
    ensures
        inputs_at(df, pos) == inputs_at(df.drop_last(), pos),
    decreases pos.len(),
{
    if pos.len() > 0 {
        lemma_inputs_at_prefix(df, pos.drop_last());
        assert(pos.last() < df.len() - 1);
    }
}

proof fn lemma_writing_positions_below(df: Seq<DataflowEntry>, out: SignalKey)
    requires
        df.len() <= usize::MAX,
    ensures
        forall|k: int| 0 <= k < writing_positions(df, out).len() ==> #[trigger] writing_positions(df, out)[k] < df.len(),
    decreases df.len(),
{
    if df.len() > 0 {
        let wp = writing_positions(df.drop_last(), out);
        lemma_writing_positions_below(df.drop_last(), out);
        assert forall|k: int| 0 <= k < writing_positions(df, out).len() implies #[trigger] writing_positions(df, out)[k] < df.len() by {
            if has_key(df.last().output@, out) && k < wp.len() {
                assert(writing_positions(df, out)[k] == wp[k]);
            }
        }
    }
}

proof fn lemma_inputs_at_writing(df: Seq<DataflowEntry>, out: SignalKey)
    requires
        df.len() <= usize::MAX,
    ensures
        inputs_at(df, writing_positions(df, out)) == all_inputs_for(df, out),
    decreases df.len(),
{
    if df.len() > 0 {
        let init = df.drop_last();
        lemma_inputs_at_writing(init, out);
        lemma_writing_positions_below(init, out);
        let wp = writing_positions(init, out);
        lemma_inputs_at_prefix(df, wp);
        if has_key(df.last().output@, out) {
            let full = writing_positions(df, out);
            assert(full.drop_last() =~= wp);
            assert(full.last() as int == df.len() - 1);
            assert(df[df.len() - 1] == df.last());
            assert(inputs_at(df, full) == inputs_at(df, wp) + keys_of(df.last().inputs@));
        } else {
            assert(all_inputs_for(df, out) =~= all_inputs_for(init, out));
        }
    }
}

/// A queue of (table entry, time) pairs, each once, naming table entries.
pub open spec fn queue_ok(order: Seq<(usize, i64)>, n: nat) -> bool {
    &&& forall|i: int| 0 <= i < order.len() ==> (#[trigger] order[i]).0 < n
    &&& forall|i: int, j: int| 0 <= i < j < order.len() ==> order[i] != order[j]
}

/// Number of distinct i64 values.
pub open spec fn time_values() -> int {
    0x1_0000_0000_0000_0000
}

pub open spec fn pair_code(p: (usize, i64)) -> int {
    p.0 as int * time_values() + (p.1 as int + 0x8000_0000_0000_0000)
}

proof fn lemma_code_injective(a: int, x: int, b: int, y: int, m: int)
    by (nonlinear_arith)
    requires
        m > 0,
        0 <= x < m,
        0 <= y < m,
        a * m + x == b * m + y,
    ensures
        a == b,
        x == y,
{
    if a > b {
        assert(a * m - b * m == (a - b) * m);
        assert((a - b) * m >= m);
    } else if a < b {
        assert(b * m - a * m == (b - a) * m);
        assert((b - a) * m >= m);
    }
}

proof fn lemma_code_below(a: int, x: int, n: int, m: int)
    by (nonlinear_arith)
    requires
        m > 0,
        0 <= a < n,
        0 <= x < m,
    ensures
        0 <= a * m + x < n * m,
{
    assert(a * m <= (n - 1) * m);
}

/// A queue of distinct pairs over `n` table entries is not longer than the
/// number of such pairs.
proof fn lemma_queue_bound(order: Seq<(usize, i64)>, n: nat)
    requires
        queue_ok(order, n),
    ensures
        order.len() <= n * time_values(),
{
    let codes = order.map_values(|p: (usize, i64)| pair_code(p));
    assert forall|i: int, j: int| 0 <= i < codes.len() && 0 <= j < codes.len() && i != j implies codes[i] != codes[j] by {
        if codes[i] == codes[j] {
            let (a, b) = if i < j { (i, j) } else { (j, i) };
            assert(order[a] != order[b]);
            lemma_code_injective(
                order[a].0 as int,
                order[a].1 as int + 0x8000_0000_0000_0000,
                order[b].0 as int,
                order[b].1 as int + 0x8000_0000_0000_0000,
                time_values(),
            );
        }
    }
    assert(codes.no_duplicates());
    codes.unique_seq_to_set();
    lemma_int_range(0, n * time_values());
    assert forall|c: int| codes.to_set().contains(c) implies set_int_range(0, n * time_values()).contains(c) by {
        let i = choose|i: int| 0 <= i < codes.len() && codes[i] == c;
        lemma_code_below(order[i].0 as int, order[i].1 as int + 0x8000_0000_0000_0000, n as int, time_values());
    }
    lemma_len_subset(codes.to_set(), set_int_range(0, n * time_values()));
}

/// Queues `p` unless it is queued already.
fn push_pair(order: &mut Vec<(usize, i64)>, p: (usize, i64), n: Ghost<nat>)
    requires
        queue_ok(old(order)@, n@),
        p.0 < n@,
    ensures
        queue_ok(final(order)@, n@),
        final(order)@ == if old(order)@.contains(p) {
            old(order)@
        } else {
            old(order)@.push(p)
        },
        old(order)@.len() <= final(order)@.len(),
        forall|i: int| 0 <= i < old(order)@.len() ==> #[trigger] final(order)@[i] == old(order)@[i],
{
    let ghost before = order@;
    let mut i: usize = 0;
    while i < order.len()
        invariant
            order@ == before,
            queue_ok(before, n@),
            p.0 < n@,
            i <= order@.len(),
            forall|a: int| 0 <= a < i ==> order@[a] != p,
        decreases order@.len() - i,
    {
        if order[i].0 == p.0 && order[i].1 == p.1 {
            proof {
                assert(before[i as int] == p);
            }
            return;
        }
        i = i + 1;
    }
    order.push(p);
}

/// The node of literal `signal` at time `t`.
pub open spec fn literal_at(signal: SignalKey, t: i64) -> SliceNodeView {
    SliceNodeView::LiteralAt { signal, time: Some(t) }
}

/// The inputs of block `d` returned for one of its outputs are read by `d`.
proof fn lemma_inputs_read(blocks: Seq<Block>, j: int, d: BlockId, out: SignalKey, v: Seq<SignalNode>)
    requires
        0 <= j < blocks.len(),
        blocks[j]@.id == d,
        block_with_id(blocks, d) == blocks[j],
        forall|q: int| 0 <= q < v.len() ==> read_for(blocks[j]@.dataflow, out, #[trigger] v[q]@),
    ensures
        forall|q: int| 0 <= q < v.len() ==> reads(blocks, d, #[trigger] v[q]@),
{
    assert forall|q: int| 0 <= q < v.len() implies reads(blocks, d, #[trigger] v[q]@) by {
        let df = blocks[j]@.dataflow;
        assert(read_for(df, out, v[q]@));
        let e = choose|e: int| 0 <= e < df.len() && has_key(df[e].output@, out) && #[trigger] has_key(df[e].inputs@, v[q]@);
        assert(has_key(entry_part(df[e], true), v[q]@));
        assert(has_block(blocks, d));
    }
}

proof fn lemma_parts_reordered(
    blocks: Seq<Block>,
    min_time: i64,
    n1: Seq<TimedSliceNode>,
    e1: Seq<SliceEdge<TimedSliceNode>>,
    n2: Seq<TimedSliceNode>,
    e2: Seq<SliceEdge<TimedSliceNode>>,
)
    requires
        dynamic_parts_ok(blocks, min_time, n1, e1),
        views_distinct(n2),
        edge_views_distinct(e2),
        forall|v: SliceNodeView| #[trigger] has_view(n2, v) <==> has_view(n1, v),
        forall|x: SliceEdgeView| #[trigger] has_edge_view(e2, x) <==> has_edge_view(e1, x),
    ensures
        dynamic_parts_ok(blocks, min_time, n2, e2),
{
    assert forall|i: int| 0 <= i < n2.len() implies dynamic_node_ok(blocks, min_time, #[trigger] n2[i]@) by {
        assert(has_view(n2, n2[i]@));
        let w = choose|w: int| 0 <= w < n1.len() && #[trigger] n1[w]@ == n2[i]@;
    }
    assert forall|e: int| 0 <= e < e2.len() implies has_view(n2, (#[trigger] e2[e])@.0) && has_view(n2, e2[e]@.1)
        && edge_follows_dataflow(blocks, e2[e]@) by {
        assert(has_edge_view(e2, e2[e]@));
        let w = choose|w: int| 0 <= w < e1.len() && #[trigger] e1[w]@ == e2[e]@;
        assert(has_view(n1, e1[w]@.0));
        assert(has_view(n1, e1[w]@.1));
    }
}

/// `g` has the shape of a dynamic slice of `blocks` from `min_time` on: its
/// nodes and edges each once, in the order of their Debug text, as
/// `dynamic_parts_ok` says, and the metadata of the blocks among its nodes in
/// ascending id order.
pub open spec fn has_dynamic_slice_shape(blocks: Seq<Block>, min_time: i64, g: InstructionExecutionPath) -> bool {
    &&& dynamic_parts_ok(blocks, min_time, g.nodes@, g.edges@)
    &&& nodes_in_key_order(g.nodes@)
    &&& edges_in_key_order(g.edges@)
    &&& forall|a: int, b: int| 0 <= a < b < g.blocks@.len() ==> g.blocks@[a].id.0 < g.blocks@[b].id.0
    &&& forall|k: int| 0 <= k < g.blocks@.len() ==> slice_block_of(block_with_id(blocks, #[trigger] g.blocks@[k].id), g.blocks@[k])
    &&& forall|b: u64| (exists|k: int| 0 <= k < g.blocks@.len() && #[trigger] g.blocks@[k].id.0 == b)
        <==> has_block_node(g.nodes@, b)
}

/// A dynamic slice can always be written in its stable JSON form: its nodes
/// are distinct and every edge joins two of them.
pub proof fn lemma_dynamic_slice_is_stable(blocks: Seq<Block>, min_time: i64, g: InstructionExecutionPath)
    requires
        has_dynamic_slice_shape(blocks, min_time, g),
    ensures
        views_distinct(g.nodes@),
        g.edges_within_nodes(),
        forall|e: int| 0 <= e < g.edges@.len() ==> edge_follows_dataflow(blocks, #[trigger] g.edges@[e]@),
{
    assert forall|e: int| 0 <= e < g.edges@.len() implies has_view(g.nodes@, #[trigger] g.edges@[e].from@)
        && has_view(g.nodes@, g.edges@[e].to@) && edge_follows_dataflow(blocks, g.edges@[e]@) by {
        assert(has_view(g.nodes@, g.edges@[e]@.0));
    }
}

/// Slices along the dataflow back through simulation time, following the
/// assignments that the coverage shows ran.
pub struct BluesSlicer<C: CoverageTracker> {
    block_set: BlockSet,
    coverage: Arc<C>,
}

impl<C: CoverageTracker> View for BluesSlicer<C> {
    type V = Seq<Block>;

    closed spec fn view(&self) -> Seq<Block> {
        self.block_set@
    }
}

impl<C: CoverageTracker> BluesSlicer<C> {
    /// The block set this slicer works on.
    pub closed spec fn spec_block_set(&self) -> BlockSet {
        self.block_set
    }

    pub fn new(block_set: BlockSet, coverage: Arc<C>) -> (r: Self)
        ensures
            r@ == block_set@,
            r.spec_block_set() == block_set,
            r.spec_coverage() == *coverage,
    {
        BluesSlicer { block_set, coverage }
    }

    /// The coverage this slicer asks.
    pub closed spec fn spec_coverage(&self) -> C {
        *self.coverage
    }

    /// The dynamic slice backwards from the requested signal (or the one
    /// driven signal it is an alias of) at the requested time, not going
    /// before the minimum time, by what the coverage answers (see
    /// `answered_slice_of`). Fails when the signal resolves to nothing, or
    /// with the coverage's error when one of its answers fails.
    pub fn slice(&self, request: &SliceRequest) -> (r: Result<InstructionExecutionPath, SvaError>)
        ensures
            !(drivers_of(self@, request.signal@).len() > 0 || exists|k: SignalKey| unique_alias(self@, request.signal@, k))
                ==> match r {
                Err(e) => e matches SvaError::SignalNotFound(nf) && nf.signal@ == request.signal.name@ && top_matches(
                    string_views(nf.suggestions@),
                    request.signal.name@,
                    self.spec_block_set().signal_name_views(),
                ),
                Ok(_) => false,
            },
            (drivers_of(self@, request.signal@).len() > 0 || exists|k: SignalKey| unique_alias(self@, request.signal@, k))
                && (never_fails(self.spec_coverage()) || request.time.0 < request.min_time.0) ==> r is Ok,
            r matches Ok(g) ==> {
                &&& g.target@ == request.signal.name@
                &&& g.start_time == Some(request.time)
                &&& has_dynamic_slice_shape(self@, request.min_time.0, g)
                &&& request.time.0 < request.min_time.0 ==> g.nodes@.len() == 0 && g.edges@.len() == 0
                    && g.blocks@.len() == 0
                &&& answered_slice_of(self.spec_block_set(), self.spec_coverage(), *request, g)
            },
    {
        let coverage: &C = &*self.coverage;
        let r = blues_slice_from(&self.block_set, coverage, request);
        proof {
            if r is Ok {
                let g = r->Ok_0;
                assert(answered_slice_of(self.block_set, *coverage, *request, g));
                if request.time.0 < request.min_time.0 {
                    lemma_nothing_before_min(self.block_set, *coverage, *request, g);
                }
            }
        }
        r
    }
}

impl<C: CoverageTracker> Slicer for BluesSlicer<C> {
    fn slice(&self, request: &SliceRequest) -> (r: Result<InstructionExecutionPath, SvaError>)
        ensures
            !(drivers_of(self@, request.signal@).len() > 0 || exists|k: SignalKey| unique_alias(self@, request.signal@, k))
                ==> match r {
                Err(e) => e matches SvaError::SignalNotFound(nf) && nf.signal@ == request.signal.name@ && top_matches(
                    string_views(nf.suggestions@),
                    request.signal.name@,
                    self.spec_block_set().signal_name_views(),
                ),
                Ok(_) => false,
            },
            (drivers_of(self@, request.signal@).len() > 0 || exists|k: SignalKey| unique_alias(self@, request.signal@, k))
                && (never_fails(self.spec_coverage()) || request.time.0 < request.min_time.0) ==> r is Ok,
            r matches Ok(g) ==> {
                &&& g.target@ == request.signal.name@
                &&& g.start_time == Some(request.time)
                &&& has_dynamic_slice_shape(self@, request.min_time.0, g)
                &&& request.time.0 < request.min_time.0 ==> g.nodes@.len() == 0 && g.edges@.len() == 0
                    && g.blocks@.len() == 0
                &&& answered_slice_of(self.spec_block_set(), self.spec_coverage(), *request, g)
            },
    {
        BluesSlicer::slice(self, request)
    }
}

/// A coverage's answers, written out as plain data: the clock period, the
/// rising clock edges, the elaborated instance scopes, the elaborated line
/// ranges of files, the lines that ran at a time, and the lines that ran at
/// a time inside an instance scope. A question whose answer is not listed is
/// answered no; no question fails.
pub struct CoverageAnswers {
    pub clock_period: Option<i64>,
    pub rising_edges: Vec<i64>,
    pub elaborated_scopes: Vec<String>,
    pub elaborated_ranges: Vec<(String, usize, usize)>,
    pub covered_lines: Vec<(String, usize, i64)>,
    pub scoped_covered_lines: Vec<(String, String, usize, i64)>,
}

impl CoverageAnswers {
    pub open spec fn lists_scope(&self, scope: Seq<char>) -> bool {
        exists|i: int| 0 <= i < self.elaborated_scopes@.len() && #[trigger] self.elaborated_scopes@[i]@ == scope
    }

    pub open spec fn range_elaborated(&self, file: Seq<char>, start: usize, end: usize) -> bool {
        exists|i: int|
            0 <= i < self.elaborated_ranges@.len() && (#[trigger] self.elaborated_ranges@[i]).0@ == file
                && self.elaborated_ranges@[i].1 == start && self.elaborated_ranges@[i].2 == end
    }

    pub open spec fn line_ran(&self, file: Seq<char>, line: usize, t: i64) -> bool {
        exists|i: int|
            0 <= i < self.covered_lines@.len() && (#[trigger] self.covered_lines@[i]).0@ == file
                && self.covered_lines@[i].1 == line && self.covered_lines@[i].2 == t
    }

    pub open spec fn scoped_line_ran(&self, scope: Seq<char>, file: Seq<char>, line: usize, t: i64) -> bool {
        exists|i: int|
            0 <= i < self.scoped_covered_lines@.len() && (#[trigger] self.scoped_covered_lines@[i]).0@ == scope
                && self.scoped_covered_lines@[i].1@ == file && self.scoped_covered_lines@[i].2 == line
                && self.scoped_covered_lines@[i].3 == t
    }

    pub open spec fn lists_edge(&self, t: i64) -> bool {
        self.rising_edges@.contains(t)
    }

    fn has_scope(&self, scope: &str) -> (r: bool)
        ensures
            r == self.lists_scope(scope@),
    {
        let mut i: usize = 0;
        while i < self.elaborated_scopes.len()
            invariant
                i <= self.elaborated_scopes@.len(),
                forall|j: int| 0 <= j < i ==> self.elaborated_scopes@[j]@ != scope@,
            decreases self.elaborated_scopes@.len() - i,
        {
            if str_eq(self.elaborated_scopes[i].as_str(), scope) {
                return true;
            }
            i = i + 1;
        }
        false
    }

    fn has_range(&self, file: &str, start: usize, end: usize) -> (r: bool)
        ensures
            r == self.range_elaborated(file@, start, end),
    {
        let mut i: usize = 0;
        while i < self.elaborated_ranges.len()
            invariant
                i <= self.elaborated_ranges@.len(),
                forall|j: int|
                    0 <= j < i ==> !((#[trigger] self.elaborated_ranges@[j]).0@ == file@ && self.elaborated_ranges@[j].1 == start
                        && self.elaborated_ranges@[j].2 == end),
            decreases self.elaborated_ranges@.len() - i,
        {
            let x = &self.elaborated_ranges[i];
            if str_eq(x.0.as_str(), file) && x.1 == start && x.2 == end {
                return true;
            }
            i = i + 1;
        }
        false
    }

    fn ran(&self, file: &str, line: usize, t: i64) -> (r: bool)
        ensures
            r == self.line_ran(file@, line, t),
    {
        let mut i: usize = 0;
        while i < self.covered_lines.len()
            invariant
                i <= self.covered_lines@.len(),
                forall|j: int|
                    0 <= j < i ==> !((#[trigger] self.covered_lines@[j]).0@ == file@ && self.covered_lines@[j].1 == line
                        && self.covered_lines@[j].2 == t),
            decreases self.covered_lines@.len() - i,
        {
            let x = &self.covered_lines[i];
            if str_eq(x.0.as_str(), file) && x.1 == line && x.2 == t {
                return true;
            }
            i = i + 1;
        }
        false
    }

    fn ran_in(&self, scope: &str, file: &str, line: usize, t: i64) -> (r: bool)
        ensures
            r == self.scoped_line_ran(scope@, file@, line, t),
    {
        let mut i: usize = 0;
        while i < self.scoped_covered_lines.len()
            invariant
                i <= self.scoped_covered_lines@.len(),
                forall|j: int|
                    0 <= j < i ==> !((#[trigger] self.scoped_covered_lines@[j]).0@ == scope@ && self.scoped_covered_lines@[j].1@
                        == file@ && self.scoped_covered_lines@[j].2 == line && self.scoped_covered_lines@[j].3 == t),
            decreases self.scoped_covered_lines@.len() - i,
        {
            let x = &self.scoped_covered_lines[i];
            if str_eq(x.0.as_str(), scope) && str_eq(x.1.as_str(), file) && x.2 == line && x.3 == t {
                return true;
            }
            i = i + 1;
        }
        false
    }

    fn has_edge(&self, t: i64) -> (r: bool)
        ensures
            r == self.lists_edge(t),
    {
        let mut i: usize = 0;
        while i < self.rising_edges.len()
            invariant
                i <= self.rising_edges@.len(),
                forall|j: int| 0 <= j < i ==> self.rising_edges@[j] != t,
            decreases self.rising_edges@.len() - i,
        {
            if self.rising_edges[i] == t {
                return true;
            }
            i = i + 1;
        }
        false
    }
}

impl CoverageTracker for CoverageAnswers {
    open spec fn line_covered(&self, file: Seq<char>, line: usize, time: Timestamp) -> Result<bool, SvaError> {
        Ok(self.line_ran(file, line, time.0))
    }

    open spec fn hit_count(&self, file: Seq<char>, line: usize, time: Timestamp) -> Result<u64, SvaError> {
        Ok(if self.line_ran(file, line, time.0) { 1 } else { 0 })
    }

    open spec fn delta_hit_count(&self, file: Seq<char>, line: usize, time: Timestamp) -> Result<u64, SvaError> {
        Ok(if self.line_ran(file, line, time.0) { 1 } else { 0 })
    }

    open spec fn period_of_clock(&self) -> Option<i64> {
        self.clock_period
    }

    open spec fn posedge(&self, time: i64) -> bool {
        self.lists_edge(time)
    }

    open spec fn block_elaborated(&self, file: Seq<char>, line_start: usize, line_end: usize) -> bool {
        self.range_elaborated(file, line_start, line_end)
    }

    open spec fn scoped_line_covered(&self, scope: Seq<char>, file: Seq<char>, line: usize, time: Timestamp) -> Result<bool, SvaError> {
        Ok(self.scoped_line_ran(scope, file, line, time.0))
    }

    open spec fn scope_elaborated(&self, scope: Seq<char>) -> bool {
        self.lists_scope(scope)
    }

    fn is_line_covered_at(&self, file: &str, line: usize, time: Timestamp) -> (r: Result<bool, SvaError>) {
        Ok(self.ran(file, line, time.0))
    }

    fn hit_count_at(&self, file: &str, line: usize, time: Timestamp) -> (r: Result<u64, SvaError>) {
        Ok(if self.ran(file, line, time.0) { 1 } else { 0 })
    }

    fn delta_hits(&self, file: &str, line: usize, time: Timestamp) -> (r: Result<u64, SvaError>) {
        Ok(if self.ran(file, line, time.0) { 1 } else { 0 })
    }

    fn clock_period(&self) -> (r: Option<i64>) {
        self.clock_period
    }

    fn is_posedge_time(&self, time: i64) -> (r: bool) {
        self.has_edge(time)
    }

    fn is_block_elaborated(&self, file: &str, line_start: usize, line_end: usize) -> (r: bool) {
        self.has_range(file, line_start, line_end)
    }

    fn is_scoped_line_covered_at(&self, scope: &str, file: &str, line: usize, time: Timestamp) -> (r: Result<bool, SvaError>) {
        Ok(self.ran_in(scope, file, line, time.0))
    }

    fn is_scope_elaborated(&self, scope: &str) -> (r: bool) {
        self.has_scope(scope)
    }
}

/// Whether the coverage counts block `b` elaborated: by its scope for a port
/// block, by its line range otherwise.
pub open spec fn elaborated_by<C: CoverageTracker>(a: C, b: BlockView) -> bool {
    if b.block_type == BlockType::ModInput || b.block_type == BlockType::ModOutput {
        a.scope_elaborated(b.module_scope)
    } else {
        a.block_elaborated(b.source_file, b.line_start, b.line_end)
    }
}

/// The coverage answers that `line` of `file` ran at `t` inside `scope`.
pub open spec fn ran_in_scope<C: CoverageTracker>(a: C, scope: Seq<char>, file: Seq<char>, line: usize, t: i64) -> bool {
    a.scoped_line_covered(scope, file, line, Timestamp(t)) == Ok::<bool, SvaError>(true)
}

/// The coverage answers that `line` of `file` ran at `t`.
pub open spec fn ran_at<C: CoverageTracker>(a: C, file: Seq<char>, line: usize, t: i64) -> bool {
    a.line_covered(file, line, Timestamp(t)) == Ok::<bool, SvaError>(true)
}

/// The clock period, one time unit when the coverage knows none.
pub open spec fn period_of<C: CoverageTracker>(a: C) -> i64 {
    match a.period_of_clock() {
        Some(p) => p,
        None => 1,
    }
}

/// The coverage answers every question on lines without failing.
pub open spec fn never_fails<C: CoverageTracker>(a: C) -> bool {
    &&& forall|file: Seq<char>, line: usize, t: Timestamp| #[trigger] a.line_covered(file, line, t) is Ok
    &&& forall|scope: Seq<char>, file: Seq<char>, line: usize, t: Timestamp|
        #[trigger] a.scoped_line_covered(scope, file, line, t) is Ok
}

/// Whether the coverage counts `block` elaborated (see `elaborated_by`).
fn elaborates<C: CoverageTracker>(coverage: &C, block: &Block) -> (r: bool)
    ensures
        r == elaborated_by(*coverage, block@),
{
    match block.block_type() {
        BlockType::ModInput | BlockType::ModOutput => coverage.is_scope_elaborated(block.module_scope()),
        _ => coverage.is_block_elaborated(block.source_file(), block.line_start(), block.line_end()),
    }
}

/// Assignment `e` of block `b` has an output line that the answers say ran
/// at `t` inside the block's scope.
pub open spec fn entry_ran<C: CoverageTracker>(a: C, b: BlockView, e: DataflowEntry, t: i64) -> bool {
    exists|l: int|
        0 <= l < output_lines(e.output@).len() && ran_in_scope(a, 
            b.module_scope,
            b.source_file,
            #[trigger] output_lines(e.output@)[l],
            t,
        )
}

/// Of the assignments of `b` at positions `pos`, those that ran at `t`.
pub open spec fn ran_positions<C: CoverageTracker>(a: C, b: BlockView, pos: Seq<usize>, t: i64) -> Seq<usize>
    decreases pos.len(),
{
    if pos.len() == 0 {
        Seq::<usize>::empty()
    } else {
        let rest = ran_positions(a, b, pos.drop_last(), t);
        if entry_ran(a, b, b.dataflow[pos.last() as int], t) {
            rest.push(pos.last())
        } else {
            rest
        }
    }
}

/// What block `b` reads, by the answers, to compute `s` at `t`: the inputs
/// of its assignments to `s` that ran at `t`, or of all its assignments to
/// `s` when none of them ran.
pub open spec fn reads_at<C: CoverageTracker>(a: C, b: BlockView, s: SignalKey, t: i64) -> Seq<SignalKey> {
    let ran = ran_positions(a, b, writing_positions(b.dataflow, s), t);
    if ran.len() == 0 {
        all_inputs_for(b.dataflow, s)
    } else {
        inputs_at(b.dataflow, ran)
    }
}

proof fn lemma_writing_positions_members(df: Seq<DataflowEntry>, out: SignalKey, x: usize)
    requires
        df.len() <= usize::MAX,
    ensures
        writing_positions(df, out).contains(x) <==> (x < df.len() && has_key(df[x as int].output@, out)),
    decreases df.len(),
{
    if df.len() > 0 {
        let init = df.drop_last();
        lemma_writing_positions_members(init, out, x);
        let w = writing_positions(df, out);
        let wi = writing_positions(init, out);
        if has_key(df.last().output@, out) {
            assert(w == wi.push((df.len() - 1) as usize));
            if wi.contains(x) {
                let q = choose|q: int| 0 <= q < wi.len() && wi[q] == x;
                assert(w[q] == x);
            }
            if w.contains(x) {
                let q = choose|q: int| 0 <= q < w.len() && w[q] == x;
                if q < wi.len() {
                    assert(wi[q] == x);
                }
            }
            if x == df.len() - 1 {
                assert(w[wi.len() as int] == x);
            }
        }
        if x < df.len() - 1 {
            assert(init[x as int] == df[x as int]);
        }
    }
}

proof fn lemma_ran_positions_members<C: CoverageTracker>(a: C, b: BlockView, pos: Seq<usize>, t: i64, x: usize)
    ensures
        ran_positions(a, b, pos, t).contains(x) <==> (pos.contains(x) && entry_ran(a, b, b.dataflow[x as int], t)),
    decreases pos.len(),
{
    if pos.len() > 0 {
        let init = pos.drop_last();
        lemma_ran_positions_members(a, b, init, t, x);
        let r = ran_positions(a, b, pos, t);
        let ri = ran_positions(a, b, init, t);
        if pos.contains(x) {
            let q = choose|q: int| 0 <= q < pos.len() && pos[q] == x;
            if q < init.len() {
                assert(init[q] == x);
            }
        }
        if init.contains(x) {
            let q = choose|q: int| 0 <= q < init.len() && init[q] == x;
            assert(pos[q] == x);
        }
        if entry_ran(a, b, b.dataflow[pos.last() as int], t) {
            assert(r == ri.push(pos.last()));
            if ri.contains(x) {
                let q = choose|q: int| 0 <= q < ri.len() && ri[q] == x;
                assert(r[q] == x);
            }
            if r.contains(x) {
                let q = choose|q: int| 0 <= q < r.len() && r[q] == x;
                if q < ri.len() {
                    assert(ri[q] == x);
                }
            }
            if x == pos.last() {
                assert(r[ri.len() as int] == x);
            }
        }
    }
}

proof fn lemma_inputs_at_members(df: Seq<DataflowEntry>, pos: Seq<usize>, k: SignalKey)
    ensures
        inputs_at(df, pos).contains(k) <==> exists|q: int| 0 <= q < pos.len() && #[trigger] has_key(df[pos[q] as int].inputs@, k),
    decreases pos.len(),
{
    if pos.len() > 0 {
        let init = pos.drop_last();
        lemma_inputs_at_members(df, init, k);
        let prev = inputs_at(df, init);
        let tail = keys_of(df[pos.last() as int].inputs@);
        assert(inputs_at(df, pos) == prev + tail);
        if inputs_at(df, pos).contains(k) {
            let w = choose|w: int| 0 <= w < inputs_at(df, pos).len() && inputs_at(df, pos)[w] == k;
            if w < prev.len() {
                assert(prev[w] == k);
                let q = choose|q: int| 0 <= q < init.len() && #[trigger] has_key(df[init[q] as int].inputs@, k);
                assert(pos[q] == init[q]);
            } else {
                assert(tail[w - prev.len()] == k);
                assert(df[pos.last() as int].inputs@[w - prev.len()]@ == k);
                assert(has_key(df[pos[pos.len() - 1] as int].inputs@, k));
            }
        }
        if exists|q: int| 0 <= q < pos.len() && #[trigger] has_key(df[pos[q] as int].inputs@, k) {
            let q = choose|q: int| 0 <= q < pos.len() && #[trigger] has_key(df[pos[q] as int].inputs@, k);
            if q < init.len() {
                assert(init[q] == pos[q]);
                assert(prev.contains(k));
                let w = choose|w: int| 0 <= w < prev.len() && prev[w] == k;
                assert(inputs_at(df, pos)[w] == k);
            } else {
                let j = choose|j: int| 0 <= j < df[pos.last() as int].inputs@.len() && #[trigger] df[pos.last() as int].inputs@[j]@ == k;
                assert(tail[j] == k);
                assert(inputs_at(df, pos)[prev.len() + j] == k);
            }
        }
    }
}

/// What a block reads for a signal at a time follows the coverage: when some
/// of its assignments to the signal ran then (an output line of it ran in
/// the block's scope), it reads exactly the inputs of those that ran; only
/// when none of them ran does it read the inputs of all of them.
pub proof fn lemma_reads_follow_what_ran<C: CoverageTracker>(a: C, b: BlockView, s: SignalKey, t: i64, k: SignalKey)
    requires
        b.dataflow.len() <= usize::MAX,
    ensures
        (exists|e: int|
            0 <= e < b.dataflow.len() && #[trigger] has_key(b.dataflow[e].output@, s) && exists|l: int|
                0 <= l < output_lines(b.dataflow[e].output@).len() && ran_in_scope(a, b.module_scope, b.source_file, output_lines(b.dataflow[e].output@)[l], t))
            ==> (reads_at(a, b, s, t).contains(k) <==> exists|e: int|
            0 <= e < b.dataflow.len() && #[trigger] has_key(b.dataflow[e].output@, s) && has_key(b.dataflow[e].inputs@, k) && exists|l: int|
                0 <= l < output_lines(b.dataflow[e].output@).len() && ran_in_scope(a, b.module_scope, b.source_file, output_lines(b.dataflow[e].output@)[l], t)),
        !(exists|e: int|
            0 <= e < b.dataflow.len() && #[trigger] has_key(b.dataflow[e].output@, s) && exists|l: int|
                0 <= l < output_lines(b.dataflow[e].output@).len() && ran_in_scope(a, b.module_scope, b.source_file, output_lines(b.dataflow[e].output@)[l], t))
            ==> (reads_at(a, b, s, t).contains(k) <==> exists|e: int|
            0 <= e < b.dataflow.len() && #[trigger] has_key(b.dataflow[e].output@, s) && has_key(b.dataflow[e].inputs@, k)),
{
    let df = b.dataflow;
    let w = writing_positions(df, s);
    let r = ran_positions(a, b, w, t);
    let some_ran = exists|e: int| 0 <= e < df.len() && #[trigger] has_key(df[e].output@, s) && entry_ran(a, b, df[e], t);
    lemma_writing_positions_below(df, s);
    assert forall|q: int| 0 <= q < r.len() implies #[trigger] r[q] < df.len() && has_key(df[r[q] as int].output@, s)
        && entry_ran(a, b, df[r[q] as int], t) by {
        assert(r.contains(r[q]));
        lemma_ran_positions_members(a, b, w, t, r[q]);
        lemma_writing_positions_members(df, s, r[q]);
    }
    if some_ran {
        let e = choose|e: int| 0 <= e < df.len() && #[trigger] has_key(df[e].output@, s) && entry_ran(a, b, df[e], t);
        lemma_writing_positions_members(df, s, e as usize);
        lemma_ran_positions_members(a, b, w, t, e as usize);
        assert(r.contains(e as usize));
        assert(r.len() > 0);
        lemma_inputs_at_members(df, r, k);
        if reads_at(a, b, s, t).contains(k) {
            let q = choose|q: int| 0 <= q < r.len() && #[trigger] has_key(df[r[q] as int].inputs@, k);
            assert(has_key(df[r[q] as int].output@, s));
        }
        if exists|e: int| 0 <= e < df.len() && #[trigger] has_key(df[e].output@, s) && has_key(df[e].inputs@, k) && entry_ran(a, b, df[e], t) {
            let e = choose|e: int| 0 <= e < df.len() && #[trigger] has_key(df[e].output@, s) && has_key(df[e].inputs@, k) && entry_ran(a, b, df[e], t);
            lemma_writing_positions_members(df, s, e as usize);
            lemma_ran_positions_members(a, b, w, t, e as usize);
            let q = choose|q: int| 0 <= q < r.len() && r[q] == e as usize;
            assert(has_key(df[r[q] as int].inputs@, k));
        }
    } else {
        if r.len() > 0 {
            assert(r[0] < df.len() && has_key(df[r[0] as int].output@, s) && entry_ran(a, b, df[r[0] as int], t));
            assert(false);
        }
        lemma_inputs_at_writing(df, s);
        lemma_inputs_at_members(df, w, k);
        if reads_at(a, b, s, t).contains(k) {
            let q = choose|q: int| 0 <= q < w.len() && #[trigger] has_key(df[w[q] as int].inputs@, k);
            assert(w.contains(w[q]));
            lemma_writing_positions_members(df, s, w[q]);
        }
        if exists|e: int| 0 <= e < df.len() && #[trigger] has_key(df[e].output@, s) && has_key(df[e].inputs@, k) {
            let e = choose|e: int| 0 <= e < df.len() && #[trigger] has_key(df[e].output@, s) && has_key(df[e].inputs@, k);
            lemma_writing_positions_members(df, s, e as usize);
            let q = choose|q: int| 0 <= q < w.len() && w[q] == e as usize;
            assert(has_key(df[w[q] as int].inputs@, k));
        }
    }
}

/// The inputs that `block` reads at `time` to compute `output`, by the
/// answers (see `reads_at`).
fn answered_inputs<C: CoverageTracker>(block: &Block, output: &SignalNode, coverage: &C, time: i64) -> (r: Result<
    Vec<SignalNode>,
    SvaError,
>)
    ensures
        r matches Ok(v) ==> keys_of(v@) == reads_at(*coverage, block@, output@, time),
        r matches Ok(v) ==> forall|q: int| 0 <= q < v@.len() ==> read_for(block@.dataflow, output@, #[trigger] v@[q]@),
        never_fails(*coverage) ==> r is Ok,
{
    let df = block.dataflow();
    let mut entries: Vec<usize> = Vec::new();
    let mut e: usize = 0;
    while e < df.len()
        invariant
            df@ == block@.dataflow,
            e <= df@.len(),
            forall|k: int| 0 <= k < entries@.len() ==> #[trigger] entries@[k] < df@.len() && has_key(df@[entries@[k] as int].output@, output@),
            entries@ == writing_positions(df@.subrange(0, e as int), output@),
        decreases df@.len() - e,
    {
        proof {
            assert(df@.subrange(0, e + 1).drop_last() =~= df@.subrange(0, e as int));
            assert(df@.subrange(0, e + 1).last() == df@[e as int]);
        }
        if find_key(&df[e].output, output).is_some() {
            entries.push(e);
        }
        e = e + 1;
    }
    proof {
        assert(df@.subrange(0, df@.len() as int) =~= df@);
        assert(entries@.subrange(0, 0) =~= Seq::<usize>::empty());
    }
    let mut covered: Vec<usize> = Vec::new();
    let mut k: usize = 0;
    while k < entries.len()
        invariant
            df@ == block@.dataflow,
            forall|x: int| 0 <= x < entries@.len() ==> #[trigger] entries@[x] < df@.len() && has_key(df@[entries@[x] as int].output@, output@),
            k <= entries@.len(),
            covered@ == ran_positions(*coverage, block@, entries@.subrange(0, k as int), time),
            forall|x: int| 0 <= x < covered@.len() ==> entries@.contains(#[trigger] covered@[x]),
        decreases entries@.len() - k,
    {
        let ex = entries[k];
        let lines = entry_output_lines(&df[ex]);
        let mut found = false;
        let mut l: usize = 0;
        while l < lines.len() && !found
            invariant
                lines@ == output_lines(df@[ex as int].output@),
                l <= lines@.len(),
                found == exists|y: int| 0 <= y < l && ran_in_scope(*coverage, block@.module_scope, block@.source_file, #[trigger] lines@[y], time),
            decreases lines@.len() - l,
        {
            match coverage.is_scoped_line_covered_at(block.module_scope(), block.source_file(), lines[l], Timestamp(time)) {
                Ok(true) => {
                    found = true;
                },
                Ok(false) => {},
                Err(err) => {
                    return Err(err);
                },
            }
            l = l + 1;
        }
        proof {
            let next = entries@.subrange(0, k + 1);
            assert(next.drop_last() =~= entries@.subrange(0, k as int));
            assert(next.last() == ex);
            assert(found == entry_ran(*coverage, block@, df@[ex as int], time));
        }
        if found {
            covered.push(ex);
            proof {
                assert(entries@[k as int] == ex);
            }
        }
        k = k + 1;
    }
    proof {
        assert(entries@.subrange(0, entries@.len() as int) =~= entries@);
    }
    let none_ran = covered.len() == 0;
    let active = if none_ran {
        entries
    } else {
        covered
    };
    proof {
        assert forall|x: int| 0 <= x < active@.len() implies #[trigger] active@[x] < df@.len() && has_key(df@[active@[x] as int].output@, output@) by {
            if !none_ran {
                assert(entries@.contains(covered@[x]));
            }
        }
        assert(active@.subrange(0, 0) =~= Seq::<usize>::empty());
        assert(keys_of(Seq::<SignalNode>::empty()) =~= Seq::<SignalKey>::empty());
    }
    let mut out: Vec<SignalNode> = Vec::new();
    let mut k: usize = 0;
    while k < active.len()
        invariant
            df@ == block@.dataflow,
            forall|x: int| 0 <= x < active@.len() ==> #[trigger] active@[x] < df@.len() && has_key(df@[active@[x] as int].output@, output@),
            k <= active@.len(),
            forall|q: int| 0 <= q < out@.len() ==> read_for(df@, output@, #[trigger] out@[q]@),
            keys_of(out@) == inputs_at(df@, active@.subrange(0, k as int)),
        decreases active@.len() - k,
    {
        let ins = &df[active[k]].inputs;
        let ghost base = keys_of(out@);
        proof {
            assert(keys_of(ins@.subrange(0, 0)) =~= Seq::<SignalKey>::empty());
            assert(base + keys_of(ins@.subrange(0, 0)) =~= base);
        }
        let mut q: usize = 0;
        while q < ins.len()
            invariant
                k < active@.len(),
                active@[k as int] < df@.len(),
                has_key(df@[active@[k as int] as int].output@, output@),
                *ins == df@[active@[k as int] as int].inputs,
                q <= ins@.len(),
                forall|x: int| 0 <= x < out@.len() ==> read_for(df@, output@, #[trigger] out@[x]@),
                keys_of(out@) == base + keys_of(ins@.subrange(0, q as int)),
            decreases ins@.len() - q,
        {
            proof {
                assert(has_key(df@[active@[k as int] as int].inputs@, ins@[q as int]@));
            }
            let ghost before = out@;
            out.push(ins[q].clone());
            proof {
                assert(keys_of(out@) =~= keys_of(before).push(ins@[q as int]@));
                assert(keys_of(ins@.subrange(0, q + 1)) =~= keys_of(ins@.subrange(0, q as int)).push(ins@[q as int]@));
            }
            q = q + 1;
        }
        proof {
            assert(ins@.subrange(0, ins@.len() as int) =~= ins@);
            let next = active@.subrange(0, k + 1);
            assert(next.drop_last() =~= active@.subrange(0, k as int));
            assert(next.last() == active@[k as int]);
        }
        k = k + 1;
    }
    proof {
        assert(active@.subrange(0, active@.len() as int) =~= active@);
        if none_ran {
            lemma_inputs_at_writing(df@, output@);
        }
    }
    Ok(out)
}

/// `u` drives `i`, is not `d`, and the answers count its block elaborated.
pub open spec fn upstream<C: CoverageTracker>(blocks: Seq<Block>, a: C, i: SignalKey, d: BlockId, u: BlockId) -> bool {
    &&& drivers_of(blocks, i).contains(u)
    &&& u != d
    &&& elaborated_by(a, block_with_id(blocks, u)@)
}

/// What reading `i` at `src` contributes to a slice through block `d`: the
/// literal itself, or the elaborated other drivers of the variable.
pub open spec fn read_node_of<C: CoverageTracker>(blocks: Seq<Block>, a: C, i: SignalKey, src: i64, d: BlockId, v: SliceNodeView) -> bool {
    if i.0 == SignalNodeKind::Literal {
        v == literal_at(i, src)
    } else {
        exists|u: BlockId| upstream(blocks, a, i, d, u) && v == block_at(u, src)
    }
}

/// The edges that reading `i` at `src` adds into block `d` at `sink`.
pub open spec fn read_edge_of<C: CoverageTracker>(
    blocks: Seq<Block>,
    a: C,
    i: SignalKey,
    src: i64,
    d: BlockId,
    sink: i64,
    e: SliceEdgeView,
) -> bool {
    if i.0 == SignalNodeKind::Literal {
        e == (literal_at(i, src), block_at(d, sink), None::<SignalKey>)
    } else {
        exists|u: BlockId| upstream(blocks, a, i, d, u) && e == (block_at(u, src), block_at(d, sink), Some(i))
    }
}

/// The table entry `y` of a variable among `ins`, to be followed at `src`.
pub open spec fn read_follow(table: Seq<DriverEntry>, ins: Seq<SignalKey>, src: i64, y: usize, t: i64) -> bool {
    exists|q: int|
        0 <= q < ins.len() && (#[trigger] ins[q]).0 == SignalNodeKind::Variable && y < table.len() && table[y as int].signal@
            == ins[q] && t == src
}

/// Adds, for each driver `u` of `signal` with `upstream`, its node at
/// `source_time` and an edge from it into `sink` at `sink_time`.
fn answered_upstream<C: CoverageTracker>(
    blocks: &Vec<Block>,
    table: &Vec<DriverEntry>,
    coverage: &C,
    min_time: i64,
    nodes: &mut Vec<TimedSliceNode>,
    edges: &mut Vec<SliceEdge<TimedSliceNode>>,
    signal: &SignalNode,
    source_time: i64,
    sink: BlockId,
    sink_time: i64,
)
    requires
        table_correct(table@, blocks@),
        dynamic_parts_ok(blocks@, min_time, old(nodes)@, old(edges)@),
        source_time >= min_time,
        has_view(old(nodes)@, block_at(sink, sink_time)),
        reads(blocks@, sink, signal@),
    ensures
        dynamic_parts_ok(blocks@, min_time, final(nodes)@, final(edges)@),
        forall|v: SliceNodeView| #[trigger] has_view(final(nodes)@, v) <==> has_view(old(nodes)@, v) || exists|u: BlockId|
            upstream(blocks@, *coverage, signal@, sink, u) && v == block_at(u, source_time),
        forall|x: SliceEdgeView| #[trigger] has_edge_view(final(edges)@, x) <==> has_edge_view(old(edges)@, x) || exists|u: BlockId|
            upstream(blocks@, *coverage, signal@, sink, u) && x == (block_at(u, source_time), block_at(sink, sink_time), Some(signal@)),
{
    let ghost n0 = nodes@;
    let ghost e0 = edges@;
    let y = match find_entry(table, signal) {
        Some(y) => y,
        None => {
            proof {
                assert(table_lookup(table@, signal@) == drivers_of(blocks@, signal@));
                assert(drivers_of(blocks@, signal@).len() == 0);
            }
            return;
        },
    };
    proof {
        lemma_lookup_at(table@, y as int);
        assert(table_lookup(table@, signal@) == drivers_of(blocks@, signal@));
    }
    let ups = &table[y].drivers;
    let mut m: usize = 0;
    while m < ups.len()
        invariant
            table_correct(table@, blocks@),
            ups@ == drivers_of(blocks@, signal@),
            m <= ups@.len(),
            dynamic_parts_ok(blocks@, min_time, nodes@, edges@),
            source_time >= min_time,
            has_view(nodes@, block_at(sink, sink_time)),
            reads(blocks@, sink, signal@),
            forall|v: SliceNodeView| #[trigger] has_view(nodes@, v) <==> has_view(n0, v) || exists|k: int|
                0 <= k < m && upstream(blocks@, *coverage, signal@, sink, ups@[k]) && v == block_at(ups@[k], source_time),
            forall|x: SliceEdgeView| #[trigger] has_edge_view(edges@, x) <==> has_edge_view(e0, x) || exists|k: int|
                0 <= k < m && upstream(blocks@, *coverage, signal@, sink, ups@[k]) && x == (
                    block_at(ups@[k], source_time),
                    block_at(sink, sink_time),
                    Some(signal@),
                ),
        decreases ups@.len() - m,
    {
        let u = ups[m];
        let ghost nb = nodes@;
        let ghost eb = edges@;
        let mut added = false;
        if u.0 != sink.0 {
            proof {
                lemma_driver_is_block(blocks@, signal@, m as int);
            }
            let j = match find_block(blocks, u) {
                Some(j) => j,
                None => {
                    proof {
                        let w = choose|w: int| 0 <= w < blocks@.len() && #[trigger] blocks@[w]@.id == u;
                        assert(blocks@[w]@.id != u);
                    }
                    0
                },
            };
            proof {
                lemma_block_with_id(blocks@, j as int);
            }
            if elaborates(coverage, &blocks[j]) {
                add_dynamic_node(blocks, min_time, nodes, edges, TimedSliceNode::Block { block_id: u, time: Some(Timestamp(source_time)) });
                proof {
                    assert(has_view(nodes@, block_at(u, source_time)));
                    assert(has_view(nb, block_at(sink, sink_time)));
                    assert(drivers_of(blocks@, signal@)[m as int] == u);
                }
                let ghost em = edges@;
                add_dynamic_edge(
                    blocks,
                    min_time,
                    nodes,
                    edges,
                    SliceEdge {
                        from: TimedSliceNode::Block { block_id: u, time: Some(Timestamp(source_time)) },
                        to: TimedSliceNode::Block { block_id: sink, time: Some(Timestamp(sink_time)) },
                        signal: Some(signal.clone()),
                    },
                );
                added = true;
                proof {
                    assert(upstream(blocks@, *coverage, signal@, sink, ups@[m as int]));
                }
            }
        }
        proof {
            if !added {
                assert(!upstream(blocks@, *coverage, signal@, sink, ups@[m as int]));
            }
            assert forall|v: SliceNodeView| #[trigger] has_view(nodes@, v) <==> has_view(n0, v) || exists|k: int|
                0 <= k < m + 1 && upstream(blocks@, *coverage, signal@, sink, ups@[k]) && v == block_at(ups@[k], source_time) by {
                if exists|k: int| 0 <= k < m + 1 && upstream(blocks@, *coverage, signal@, sink, ups@[k]) && v == block_at(ups@[k], source_time) {
                    let k = choose|k: int| 0 <= k < m + 1 && upstream(blocks@, *coverage, signal@, sink, ups@[k]) && v == block_at(ups@[k], source_time);
                    if k < m {
                        assert(has_view(nb, v));
                    }
                }
            }
            assert forall|x: SliceEdgeView| #[trigger] has_edge_view(edges@, x) <==> has_edge_view(e0, x) || exists|k: int|
                0 <= k < m + 1 && upstream(blocks@, *coverage, signal@, sink, ups@[k]) && x == (
                    block_at(ups@[k], source_time),
                    block_at(sink, sink_time),
                    Some(signal@),
                ) by {
                if exists|k: int| 0 <= k < m + 1 && upstream(blocks@, *coverage, signal@, sink, ups@[k]) && x == (
                    block_at(ups@[k], source_time),
                    block_at(sink, sink_time),
                    Some(signal@),
                ) {
                    let k = choose|k: int| 0 <= k < m + 1 && upstream(blocks@, *coverage, signal@, sink, ups@[k]) && x == (
                        block_at(ups@[k], source_time),
                        block_at(sink, sink_time),
                        Some(signal@),
                    );
                    if k < m {
                        assert(has_edge_view(eb, x));
                    }
                }
            }
        }
        m = m + 1;
    }
    proof {
        assert forall|v: SliceNodeView| #[trigger] has_view(nodes@, v) <==> has_view(n0, v) || exists|u: BlockId|
            upstream(blocks@, *coverage, signal@, sink, u) && v == block_at(u, source_time) by {
            if exists|u: BlockId| upstream(blocks@, *coverage, signal@, sink, u) && v == block_at(u, source_time) {
                let u = choose|u: BlockId| upstream(blocks@, *coverage, signal@, sink, u) && v == block_at(u, source_time);
                let k = choose|k: int| 0 <= k < ups@.len() && ups@[k] == u;
                assert(upstream(blocks@, *coverage, signal@, sink, ups@[k]));
            }
            if exists|k: int| 0 <= k < ups@.len() && upstream(blocks@, *coverage, signal@, sink, ups@[k]) && v == block_at(ups@[k], source_time) {
                let k = choose|k: int| 0 <= k < ups@.len() && upstream(blocks@, *coverage, signal@, sink, ups@[k]) && v == block_at(ups@[k], source_time);
                assert(upstream(blocks@, *coverage, signal@, sink, ups@[k]));
            }
        }
        assert forall|x: SliceEdgeView| #[trigger] has_edge_view(edges@, x) <==> has_edge_view(e0, x) || exists|u: BlockId|
            upstream(blocks@, *coverage, signal@, sink, u) && x == (block_at(u, source_time), block_at(sink, sink_time), Some(signal@)) by {
            if exists|u: BlockId| upstream(blocks@, *coverage, signal@, sink, u) && x == (block_at(u, source_time), block_at(sink, sink_time), Some(signal@)) {
                let u = choose|u: BlockId| upstream(blocks@, *coverage, signal@, sink, u) && x == (block_at(u, source_time), block_at(sink, sink_time), Some(signal@));
                let k = choose|k: int| 0 <= k < ups@.len() && ups@[k] == u;
                assert(upstream(blocks@, *coverage, signal@, sink, ups@[k]));
            }
        }
    }
}

/// Adds what the inputs `inputs` of block `d` (at `sink_time`) contribute,
/// by the coverage, when read at `src_time`, and queues the driven variables
/// at `src_time`.
fn answered_expand_inputs<C: CoverageTracker>(
    blocks: &Vec<Block>,
    table: &Vec<DriverEntry>,
    coverage: &C,
    min_time: i64,
    inputs: &Vec<SignalNode>,
    src_time: i64,
    d: BlockId,
    sink_time: i64,
    nodes: &mut Vec<TimedSliceNode>,
    edges: &mut Vec<SliceEdge<TimedSliceNode>>,
    order: &mut Vec<(usize, i64)>,
)
    requires
        table_correct(table@, blocks@),
        dynamic_parts_ok(blocks@, min_time, old(nodes)@, old(edges)@),
        queue_ok(old(order)@, table@.len()),
        src_time >= min_time,
        has_view(old(nodes)@, block_at(d, sink_time)),
        forall|q: int| 0 <= q < inputs@.len() ==> reads(blocks@, d, #[trigger] inputs@[q]@),
    ensures
        dynamic_parts_ok(blocks@, min_time, final(nodes)@, final(edges)@),
        queue_ok(final(order)@, table@.len()),
        old(order)@.len() <= final(order)@.len(),
        forall|i: int| 0 <= i < old(order)@.len() ==> #[trigger] final(order)@[i] == old(order)@[i],
        forall|v: SliceNodeView| #[trigger] has_view(final(nodes)@, v) <==> has_view(old(nodes)@, v) || exists|q: int|
            0 <= q < inputs@.len() && read_node_of(blocks@, *coverage, #[trigger] keys_of(inputs@)[q], src_time, d, v),
        forall|x: SliceEdgeView| #[trigger] has_edge_view(final(edges)@, x) <==> has_edge_view(old(edges)@, x) || exists|q: int|
            0 <= q < inputs@.len() && read_edge_of(blocks@, *coverage, #[trigger] keys_of(inputs@)[q], src_time, d, sink_time, x),
        forall|z: (usize, i64)| #[trigger] final(order)@.contains(z) <==> old(order)@.contains(z) || read_follow(
            table@,
            keys_of(inputs@),
            src_time,
            z.0,
            z.1,
        ),
{
    let ghost n0 = nodes@;
    let ghost e0 = edges@;
    let ghost o0 = order@;
    let ghost ks = keys_of(inputs@);
    let mut q: usize = 0;
    while q < inputs.len()
        invariant
            table_correct(table@, blocks@),
            dynamic_parts_ok(blocks@, min_time, nodes@, edges@),
            queue_ok(order@, table@.len()),
            src_time >= min_time,
            has_view(nodes@, block_at(d, sink_time)),
            forall|a: int| 0 <= a < inputs@.len() ==> reads(blocks@, d, #[trigger] inputs@[a]@),
            q <= inputs@.len(),
            ks == keys_of(inputs@),
            o0.len() <= order@.len(),
            forall|i: int| 0 <= i < o0.len() ==> #[trigger] order@[i] == o0[i],
            forall|v: SliceNodeView| #[trigger] has_view(nodes@, v) <==> has_view(n0, v) || exists|a: int|
                0 <= a < q && read_node_of(blocks@, *coverage, #[trigger] ks[a], src_time, d, v),
            forall|x: SliceEdgeView| #[trigger] has_edge_view(edges@, x) <==> has_edge_view(e0, x) || exists|a: int|
                0 <= a < q && read_edge_of(blocks@, *coverage, #[trigger] ks[a], src_time, d, sink_time, x),
            forall|z: (usize, i64)| #[trigger] order@.contains(z) <==> o0.contains(z) || read_follow(
                table@,
                ks.subrange(0, q as int),
                src_time,
                z.0,
                z.1,
            ),
        decreases inputs@.len() - q,
    {
        let input = &inputs[q];
        let ghost nq = nodes@;
        let ghost eq = edges@;
        let ghost oq = order@;
        let ghost k = ks[q as int];
        let ghost mut newz: Option<(usize, i64)> = None;
        proof {
            assert(reads(blocks@, d, inputs@[q as int]@));
            assert(k == input@);
        }
        if input.is_literal() {
            add_dynamic_node(
                blocks,
                min_time,
                nodes,
                edges,
                TimedSliceNode::Literal { signal: input.clone(), time: Some(Timestamp(src_time)) },
            );
            proof {
                assert(has_view(nq, block_at(d, sink_time)));
            }
            add_dynamic_edge(
                blocks,
                min_time,
                nodes,
                edges,
                SliceEdge {
                    from: TimedSliceNode::Literal { signal: input.clone(), time: Some(Timestamp(src_time)) },
                    to: TimedSliceNode::Block { block_id: d, time: Some(Timestamp(sink_time)) },
                    signal: None,
                },
            );
        } else {
            answered_upstream(blocks, table, coverage, min_time, nodes, edges, input, src_time, d, sink_time);
            match find_entry(table, input) {
                Some(y) => {
                    push_pair(order, (y, src_time), Ghost(table@.len()));
                    proof {
                        assert forall|i: int| 0 <= i < o0.len() implies #[trigger] order@[i] == o0[i] by {
                            assert(oq[i] == o0[i]);
                        }
                        newz = Some((y, src_time));
                        assert(ks.subrange(0, q + 1)[q as int] == k);
                        assert(read_follow(table@, ks.subrange(0, q + 1), src_time, y, src_time));
                    }
                },
                None => {},
            }
        }
        proof {
            assert(k.0 == SignalNodeKind::Variable && table_has(table@, k) ==> (newz matches Some(p) && p.1 == src_time && p.0
                < table@.len() && table@[p.0 as int].signal@ == k));
            assert forall|z: (usize, i64)| #[trigger] order@.contains(z) <==> oq.contains(z) || newz == Some(z) by {
                if newz == Some(z) && !oq.contains(z) {
                    assert(order@[order@.len() - 1] == z);
                }
                if oq.contains(z) {
                    let w = choose|w: int| 0 <= w < oq.len() && oq[w] == z;
                    if newz is Some {
                        assert(order@[w] == z);
                    }
                }
                if order@.contains(z) && newz is Some && !oq.contains(z) {
                    let w = choose|w: int| 0 <= w < order@.len() && order@[w] == z;
                    if w < oq.len() {
                        assert(oq[w] == order@[w]);
                    }
                }
            }
            if newz is None {
                assert(order@ == oq);
            }
        }
        proof {
            let pre = ks.subrange(0, q as int);
            let post = ks.subrange(0, q + 1);
            assert forall|v: SliceNodeView| #[trigger] has_view(nodes@, v) <==> has_view(n0, v) || exists|a: int|
                0 <= a < q + 1 && read_node_of(blocks@, *coverage, #[trigger] ks[a], src_time, d, v) by {
                if exists|a: int| 0 <= a < q + 1 && read_node_of(blocks@, *coverage, #[trigger] ks[a], src_time, d, v) {
                    let a = choose|a: int| 0 <= a < q + 1 && read_node_of(blocks@, *coverage, #[trigger] ks[a], src_time, d, v);
                    if a < q {
                        assert(has_view(nq, v));
                    }
                }
                if has_view(nodes@, v) && !has_view(nq, v) {
                    assert(read_node_of(blocks@, *coverage, ks[q as int], src_time, d, v));
                }
            }
            assert forall|x: SliceEdgeView| #[trigger] has_edge_view(edges@, x) <==> has_edge_view(e0, x) || exists|a: int|
                0 <= a < q + 1 && read_edge_of(blocks@, *coverage, #[trigger] ks[a], src_time, d, sink_time, x) by {
                if exists|a: int| 0 <= a < q + 1 && read_edge_of(blocks@, *coverage, #[trigger] ks[a], src_time, d, sink_time, x) {
                    let a = choose|a: int| 0 <= a < q + 1 && read_edge_of(blocks@, *coverage, #[trigger] ks[a], src_time, d, sink_time, x);
                    if a < q {
                        assert(has_edge_view(eq, x));
                    }
                }
                if has_edge_view(edges@, x) && !has_edge_view(eq, x) {
                    assert(read_edge_of(blocks@, *coverage, ks[q as int], src_time, d, sink_time, x));
                }
            }
            assert forall|z: (usize, i64)| #[trigger] order@.contains(z) <==> o0.contains(z) || read_follow(table@, post, src_time, z.0, z.1) by {
                if read_follow(table@, post, src_time, z.0, z.1) {
                    let a = choose|a: int|
                        0 <= a < post.len() && (#[trigger] post[a]).0 == SignalNodeKind::Variable && z.0 < table@.len()
                            && table@[z.0 as int].signal@ == post[a] && z.1 == src_time;
                    if a < q {
                        assert(pre[a] == post[a]);
                        assert(read_follow(table@, pre, src_time, z.0, z.1));
                    } else {
                        assert(post[a] == k);
                        assert(table_has(table@, k));
                        let p = newz->0;
                        assert(table@[p.0 as int].signal@ == k);
                        assert(p.0 == z.0);
                        assert(newz == Some(z));
                    }
                }
                if read_follow(table@, pre, src_time, z.0, z.1) {
                    let a = choose|a: int|
                        0 <= a < pre.len() && (#[trigger] pre[a]).0 == SignalNodeKind::Variable && z.0 < table@.len()
                            && table@[z.0 as int].signal@ == pre[a] && z.1 == src_time;
                    assert(post[a] == pre[a]);
                }
                if newz == Some(z) {
                    assert(read_follow(table@, post, src_time, z.0, z.1));
                }
            }
        }
        q = q + 1;
    }
    proof {
        assert(ks.subrange(0, inputs@.len() as int) =~= ks);
    }
}

/// The clock edge before `t`, by the coverage, when it fits and is not
/// before `min_time`.
pub open spec fn previous_edge<C: CoverageTracker>(a: C, t: i64, min_time: i64) -> Option<i64> {
    let p = t - period_of(a);
    if i64::MIN <= p <= i64::MAX && p >= min_time {
        Some(p as i64)
    } else {
        None
    }
}

/// The block of the `m`-th driver of `s`.
pub open spec fn driver_view(blocks: Seq<Block>, s: SignalKey, m: int) -> BlockView {
    block_with_id(blocks, drivers_of(blocks, s)[m])@
}

/// What the `m`-th driver `d` of `s` adds to a slice at `t`, when the
/// answers count it elaborated: its node at `t`; for a combinational block,
/// what it reads at `t`; for a sequential block, with a clock edge `p`
/// before `t`, its node at `p` when its line did not run at `p`, or else
/// what it read at `p`.
pub open spec fn step_node<C: CoverageTracker>(blocks: Seq<Block>, a: C, min_time: i64, s: SignalKey, t: i64, m: int, v: SliceNodeView) -> bool {
    let d = drivers_of(blocks, s)[m];
    let b = driver_view(blocks, s, m);
    &&& elaborated_by(a, b)
    &&& {
        ||| v == block_at(d, t)
        ||| b.circuit_type == CircuitType::Combinational && exists|q: int|
            0 <= q < reads_at(a, b, s, t).len() && read_node_of(blocks, a, #[trigger] reads_at(a, b, s, t)[q], t, d, v)
        ||| b.circuit_type == CircuitType::Sequential && match previous_edge(a, t, min_time) {
            Some(p) => if !ran_at(a, b.source_file, b.line_start, p) {
                v == block_at(d, p)
            } else {
                exists|q: int|
                    0 <= q < reads_at(a, b, s, p).len() && read_node_of(blocks, a, #[trigger] reads_at(a, b, s, p)[q], p, d, v)
            },
            None => false,
        }
    }
}

/// The edges that the `m`-th driver of `s` adds at `t` (see `step_node`).
pub open spec fn step_edge<C: CoverageTracker>(blocks: Seq<Block>, a: C, min_time: i64, s: SignalKey, t: i64, m: int, e: SliceEdgeView) -> bool {
    let d = drivers_of(blocks, s)[m];
    let b = driver_view(blocks, s, m);
    &&& elaborated_by(a, b)
    &&& {
        ||| b.circuit_type == CircuitType::Combinational && exists|q: int|
            0 <= q < reads_at(a, b, s, t).len() && read_edge_of(blocks, a, #[trigger] reads_at(a, b, s, t)[q], t, d, t, e)
        ||| b.circuit_type == CircuitType::Sequential && match previous_edge(a, t, min_time) {
            Some(p) => if !ran_at(a, b.source_file, b.line_start, p) {
                e == (block_at(d, p), block_at(d, t), Some(s))
            } else {
                exists|q: int|
                    0 <= q < reads_at(a, b, s, p).len() && read_edge_of(blocks, a, #[trigger] reads_at(a, b, s, p)[q], p, d, t, e)
            },
            None => false,
        }
    }
}

/// The (table entry, time) pairs that the `m`-th driver of `s` leads to
/// from `t` (see `step_node`): what it reads, at the time it reads it, or
/// `s` itself one clock edge earlier when its line did not run then.
pub open spec fn step_follow<C: CoverageTracker>(
    blocks: Seq<Block>,
    table: Seq<DriverEntry>,
    a: C,
    min_time: i64,
    s: SignalKey,
    t: i64,
    m: int,
    y: usize,
    u: i64,
) -> bool {
    let b = driver_view(blocks, s, m);
    &&& elaborated_by(a, b)
    &&& {
        ||| b.circuit_type == CircuitType::Combinational && read_follow(table, reads_at(a, b, s, t), t, y, u)
        ||| b.circuit_type == CircuitType::Sequential && match previous_edge(a, t, min_time) {
            Some(p) => if !ran_at(a, b.source_file, b.line_start, p) {
                y < table.len() && table[y as int].signal@ == s && u == p
            } else {
                read_follow(table, reads_at(a, b, s, p), p, y, u)
            },
            None => false,
        }
    }
}

/// Expands, by the coverage, the queued pair of table entry `x` at time `t`:
/// what each driver of its signal adds (see `step_node`).
fn answered_expand_pair<C: CoverageTracker>(
    blocks: &Vec<Block>,
    table: &Vec<DriverEntry>,
    coverage: &C,
    min_time: i64,
    x: usize,
    t: i64,
    nodes: &mut Vec<TimedSliceNode>,
    edges: &mut Vec<SliceEdge<TimedSliceNode>>,
    order: &mut Vec<(usize, i64)>,
) -> (r: Result<(), SvaError>)
    requires
        table_correct(table@, blocks@),
        dynamic_parts_ok(blocks@, min_time, old(nodes)@, old(edges)@),
        queue_ok(old(order)@, table@.len()),
        x < table@.len(),
        t >= min_time,
    ensures
        dynamic_parts_ok(blocks@, min_time, final(nodes)@, final(edges)@),
        queue_ok(final(order)@, table@.len()),
        old(order)@.len() <= final(order)@.len(),
        forall|i: int| 0 <= i < old(order)@.len() ==> #[trigger] final(order)@[i] == old(order)@[i],
        r is Ok ==> forall|v: SliceNodeView| #[trigger] has_view(final(nodes)@, v) <==> has_view(old(nodes)@, v) || exists|m: int|
            0 <= m < drivers_of(blocks@, table@[x as int].signal@).len() && step_node(
                blocks@,
                *coverage,
                min_time,
                table@[x as int].signal@,
                t,
                m,
                v,
            ),
        r is Ok ==> forall|e: SliceEdgeView| #[trigger] has_edge_view(final(edges)@, e) <==> has_edge_view(old(edges)@, e) || exists|m: int|
            0 <= m < drivers_of(blocks@, table@[x as int].signal@).len() && step_edge(
                blocks@,
                *coverage,
                min_time,
                table@[x as int].signal@,
                t,
                m,
                e,
            ),
        r is Ok ==> forall|z: (usize, i64)| #[trigger] final(order)@.contains(z) <==> old(order)@.contains(z) || exists|m: int|
            0 <= m < drivers_of(blocks@, table@[x as int].signal@).len() && step_follow(
                blocks@,
                table@,
                *coverage,
                min_time,
                table@[x as int].signal@,
                t,
                m,
                z.0,
                z.1,
            ),
        never_fails(*coverage) ==> r is Ok,
{
    let s = &table[x].signal;
    let drivers = &table[x].drivers;
    proof {
        lemma_lookup_at(table@, x as int);
        assert(table_lookup(table@, s@) == drivers_of(blocks@, s@));
    }
    let ghost n0 = nodes@;
    let ghost e0 = edges@;
    let ghost o0 = order@;
    let ghost sk = s@;
    let mut m: usize = 0;
    while m < drivers.len()
        invariant
            table_correct(table@, blocks@),
            x < table@.len(),
            *s == table@[x as int].signal,
            sk == s@,
            drivers@ == drivers_of(blocks@, sk),
            t >= min_time,
            m <= drivers@.len(),
            dynamic_parts_ok(blocks@, min_time, nodes@, edges@),
            queue_ok(order@, table@.len()),
            o0 == old(order)@,
            n0 == old(nodes)@,
            e0 == old(edges)@,
            o0.len() <= order@.len(),
            forall|i: int| 0 <= i < o0.len() ==> #[trigger] order@[i] == o0[i],
            forall|v: SliceNodeView| #[trigger] has_view(nodes@, v) <==> has_view(n0, v) || exists|mm: int|
                0 <= mm < m && step_node(blocks@, *coverage, min_time, sk, t, mm, v),
            forall|e: SliceEdgeView| #[trigger] has_edge_view(edges@, e) <==> has_edge_view(e0, e) || exists|mm: int|
                0 <= mm < m && step_edge(blocks@, *coverage, min_time, sk, t, mm, e),
            forall|z: (usize, i64)| #[trigger] order@.contains(z) <==> o0.contains(z) || exists|mm: int|
                0 <= mm < m && step_follow(blocks@, table@, *coverage, min_time, sk, t, mm, z.0, z.1),
        decreases drivers@.len() - m,
    {
        let d = drivers[m];
        proof {
            lemma_driver_is_block(blocks@, sk, m as int);
        }
        let j = match find_block(blocks, d) {
            Some(j) => j,
            None => {
                proof {
                    let w = choose|w: int| 0 <= w < blocks@.len() && #[trigger] blocks@[w]@.id == d;
                    assert(blocks@[w]@.id != d);
                }
                0
            },
        };
        proof {
            lemma_block_with_id(blocks@, j as int);
            assert(has_block(blocks@, d));
            assert(drivers_of(blocks@, sk)[m as int] == d);
        }
        let block = &blocks[j];
        let ghost b = block@;
        let ghost nb = nodes@;
        let ghost eb = edges@;
        let ghost ob = order@;
        proof {
            assert(b == driver_view(blocks@, sk, m as int));
        }
        if elaborates(coverage, block) {
            add_dynamic_node(blocks, min_time, nodes, edges, TimedSliceNode::Block { block_id: d, time: Some(Timestamp(t)) });
            let ghost n1 = nodes@;
            match block.circuit_type() {
                CircuitType::Combinational => {
                    let inputs = match answered_inputs(block, s, coverage, t) {
                        Ok(v) => v,
                        Err(err) => {
                            return Err(err);
                        },
                    };
                    proof {
                        lemma_inputs_read(blocks@, j as int, d, sk, inputs@);
                    }
                    answered_expand_inputs(blocks, table, coverage, min_time, &inputs, t, d, t, nodes, edges, order);
                    proof {
                        assert forall|v: SliceNodeView| #[trigger] has_view(nodes@, v) <==> has_view(nb, v) || step_node(
                            blocks@, *coverage, min_time, sk, t, m as int, v) by {
                            if has_view(nodes@, v) && !has_view(n1, v) {
                                let q = choose|q: int| 0 <= q < inputs@.len() && read_node_of(blocks@, *coverage, #[trigger] keys_of(inputs@)[q], t, d, v);
                                assert(reads_at(*coverage, b, sk, t)[q] == keys_of(inputs@)[q]);
                            }
                            if step_node(blocks@, *coverage, min_time, sk, t, m as int, v) && v != block_at(d, t) {
                                let q = choose|q: int| 0 <= q < reads_at(*coverage, b, sk, t).len() && read_node_of(blocks@, *coverage, #[trigger] reads_at(*coverage, b, sk, t)[q], t, d, v);
                                assert(reads_at(*coverage, b, sk, t)[q] == keys_of(inputs@)[q]);
                            }
                        }
                        assert forall|e: SliceEdgeView| #[trigger] has_edge_view(edges@, e) <==> has_edge_view(eb, e) || step_edge(
                            blocks@, *coverage, min_time, sk, t, m as int, e) by {
                            if has_edge_view(edges@, e) && !has_edge_view(eb, e) {
                                let q = choose|q: int| 0 <= q < inputs@.len() && read_edge_of(blocks@, *coverage, #[trigger] keys_of(inputs@)[q], t, d, t, e);
                                assert(reads_at(*coverage, b, sk, t)[q] == keys_of(inputs@)[q]);
                            }
                            if step_edge(blocks@, *coverage, min_time, sk, t, m as int, e) {
                                let q = choose|q: int| 0 <= q < reads_at(*coverage, b, sk, t).len() && read_edge_of(blocks@, *coverage, #[trigger] reads_at(*coverage, b, sk, t)[q], t, d, t, e);
                                assert(reads_at(*coverage, b, sk, t)[q] == keys_of(inputs@)[q]);
                            }
                        }
                        assert forall|z: (usize, i64)| #[trigger] order@.contains(z) <==> ob.contains(z) || step_follow(
                            blocks@, table@, *coverage, min_time, sk, t, m as int, z.0, z.1) by {
                            assert(keys_of(inputs@) == reads_at(*coverage, b, sk, t));
                        }
                    }
                },
                CircuitType::Sequential => {
                    let period = match coverage.clock_period() {
                        Some(p) => p,
                        None => 1,
                    };
                    match t.checked_sub(period) {
                        Some(previous) => {
                            if previous >= min_time {
                                let ran_then = match coverage.is_line_covered_at(block.source_file(), block.line_start(), Timestamp(previous)) {
                                    Ok(ran) => ran,
                                    Err(err) => {
                                        return Err(err);
                                    },
                                };
                                if !ran_then {
                                    add_dynamic_node(
                                        blocks,
                                        min_time,
                                        nodes,
                                        edges,
                                        TimedSliceNode::Block { block_id: d, time: Some(Timestamp(previous)) },
                                    );
                                    proof {
                                        assert(has_view(n1, block_at(d, t)));
                                        assert(drivers_of(blocks@, sk).contains(d));
                                    }
                                    add_dynamic_edge(
                                        blocks,
                                        min_time,
                                        nodes,
                                        edges,
                                        SliceEdge {
                                            from: TimedSliceNode::Block { block_id: d, time: Some(Timestamp(previous)) },
                                            to: TimedSliceNode::Block { block_id: d, time: Some(Timestamp(t)) },
                                            signal: Some(s.clone()),
                                        },
                                    );
                                    push_pair(order, (x, previous), Ghost(table@.len()));
                                    proof {
                                        assert(previous_edge(*coverage, t, min_time) == Some(previous));
                                        assert forall|z: (usize, i64)| #[trigger] order@.contains(z) <==> ob.contains(z) || step_follow(
                                            blocks@, table@, *coverage, min_time, sk, t, m as int, z.0, z.1) by {
                                            if z == (x, previous) && !ob.contains(z) {
                                                assert(order@[order@.len() - 1] == z);
                                            }
                                            if ob.contains(z) {
                                                let w = choose|w: int| 0 <= w < ob.len() && ob[w] == z;
                                                assert(order@[w] == z);
                                            }
                                            if step_follow(blocks@, table@, *coverage, min_time, sk, t, m as int, z.0, z.1) {
                                                assert(table@[z.0 as int].signal@ == table@[x as int].signal@);
                                                assert(z.0 == x);
                                            }
                                        }
                                    }
                                } else {
                                    let inputs = match answered_inputs(block, s, coverage, previous) {
                                        Ok(v) => v,
                                        Err(err) => {
                                            return Err(err);
                                        },
                                    };
                                    proof {
                                        lemma_inputs_read(blocks@, j as int, d, sk, inputs@);
                                        assert(has_view(n1, block_at(d, t)));
                                    }
                                    answered_expand_inputs(
                                        blocks,
                                        table,
                                        coverage,
                                        min_time,
                                        &inputs,
                                        previous,
                                        d,
                                        t,
                                        nodes,
                                        edges,
                                        order,
                                    );
                                    proof {
                                        assert(previous_edge(*coverage, t, min_time) == Some(previous));
                                        assert forall|v: SliceNodeView| #[trigger] has_view(nodes@, v) <==> has_view(nb, v) || step_node(
                                            blocks@, *coverage, min_time, sk, t, m as int, v) by {
                                            if has_view(nodes@, v) && !has_view(n1, v) {
                                                let q = choose|q: int| 0 <= q < inputs@.len() && read_node_of(blocks@, *coverage, #[trigger] keys_of(inputs@)[q], previous, d, v);
                                                assert(reads_at(*coverage, b, sk, previous)[q] == keys_of(inputs@)[q]);
                                            }
                                            if step_node(blocks@, *coverage, min_time, sk, t, m as int, v) && v != block_at(d, t) {
                                                let q = choose|q: int| 0 <= q < reads_at(*coverage, b, sk, previous).len() && read_node_of(blocks@, *coverage, #[trigger] reads_at(*coverage, b, sk, previous)[q], previous, d, v);
                                                assert(reads_at(*coverage, b, sk, previous)[q] == keys_of(inputs@)[q]);
                                            }
                                        }
                                        assert forall|e: SliceEdgeView| #[trigger] has_edge_view(edges@, e) <==> has_edge_view(eb, e) || step_edge(
                                            blocks@, *coverage, min_time, sk, t, m as int, e) by {
                                            if has_edge_view(edges@, e) && !has_edge_view(eb, e) {
                                                let q = choose|q: int| 0 <= q < inputs@.len() && read_edge_of(blocks@, *coverage, #[trigger] keys_of(inputs@)[q], previous, d, t, e);
                                                assert(reads_at(*coverage, b, sk, previous)[q] == keys_of(inputs@)[q]);
                                            }
                                            if step_edge(blocks@, *coverage, min_time, sk, t, m as int, e) {
                                                let q = choose|q: int| 0 <= q < reads_at(*coverage, b, sk, previous).len() && read_edge_of(blocks@, *coverage, #[trigger] reads_at(*coverage, b, sk, previous)[q], previous, d, t, e);
                                                assert(reads_at(*coverage, b, sk, previous)[q] == keys_of(inputs@)[q]);
                                            }
                                        }
                                        assert forall|z: (usize, i64)| #[trigger] order@.contains(z) <==> ob.contains(z) || step_follow(
                                            blocks@, table@, *coverage, min_time, sk, t, m as int, z.0, z.1) by {
                                            assert(keys_of(inputs@) == reads_at(*coverage, b, sk, previous));
                                        }
                                    }
                                }
                            } else {
                                proof {
                                    assert(previous_edge(*coverage, t, min_time) is None);
                                }
                            }
                        },
                        None => {
                            proof {
                                assert(previous_edge(*coverage, t, min_time) is None);
                            }
                        },
                    }
                },
            }
        }
        proof {
            assert forall|v: SliceNodeView| #[trigger] has_view(nodes@, v) <==> has_view(nb, v) || step_node(
                blocks@, *coverage, min_time, sk, t, m as int, v) by {
            }
            assert forall|e: SliceEdgeView| #[trigger] has_edge_view(edges@, e) <==> has_edge_view(eb, e) || step_edge(
                blocks@, *coverage, min_time, sk, t, m as int, e) by {
            }
            assert forall|z: (usize, i64)| #[trigger] order@.contains(z) <==> ob.contains(z) || step_follow(
                blocks@, table@, *coverage, min_time, sk, t, m as int, z.0, z.1) by {
            }
            assert forall|i: int| 0 <= i < o0.len() implies #[trigger] order@[i] == o0[i] by {
                assert(ob[i] == o0[i]);
            }
            assert forall|v: SliceNodeView| #[trigger] has_view(nodes@, v) <==> has_view(n0, v) || exists|mm: int|
                0 <= mm < m + 1 && step_node(blocks@, *coverage, min_time, sk, t, mm, v) by {
                if exists|mm: int| 0 <= mm < m + 1 && step_node(blocks@, *coverage, min_time, sk, t, mm, v) {
                    let mm = choose|mm: int| 0 <= mm < m + 1 && step_node(blocks@, *coverage, min_time, sk, t, mm, v);
                    if mm < m {
                        assert(has_view(nb, v));
                    }
                }
            }
            assert forall|e: SliceEdgeView| #[trigger] has_edge_view(edges@, e) <==> has_edge_view(e0, e) || exists|mm: int|
                0 <= mm < m + 1 && step_edge(blocks@, *coverage, min_time, sk, t, mm, e) by {
                if exists|mm: int| 0 <= mm < m + 1 && step_edge(blocks@, *coverage, min_time, sk, t, mm, e) {
                    let mm = choose|mm: int| 0 <= mm < m + 1 && step_edge(blocks@, *coverage, min_time, sk, t, mm, e);
                    if mm < m {
                        assert(has_edge_view(eb, e));
                    }
                }
            }
            assert forall|z: (usize, i64)| #[trigger] order@.contains(z) <==> o0.contains(z) || exists|mm: int|
                0 <= mm < m + 1 && step_follow(blocks@, table@, *coverage, min_time, sk, t, mm, z.0, z.1) by {
                if exists|mm: int| 0 <= mm < m + 1 && step_follow(blocks@, table@, *coverage, min_time, sk, t, mm, z.0, z.1) {
                    let mm = choose|mm: int| 0 <= mm < m + 1 && step_follow(blocks@, table@, *coverage, min_time, sk, t, mm, z.0, z.1);
                    if mm < m {
                        assert(ob.contains(z));
                    }
                }
            }
        }
        m = m + 1;
    }
    Ok(())
}

/// From pair `p` (a table entry and a time, not before `min_time`) some
/// driver of its signal leads, by the coverage, to pair `q`.
pub open spec fn pair_step<C: CoverageTracker>(
    blocks: Seq<Block>,
    table: Seq<DriverEntry>,
    a: C,
    min_time: i64,
    p: (usize, i64),
    q: (usize, i64),
) -> bool {
    &&& p.1 >= min_time
    &&& p.0 < table.len()
    &&& exists|m: int|
        0 <= m < drivers_of(blocks, table[p.0 as int].signal@).len() && #[trigger] step_follow(
            blocks,
            table,
            a,
            min_time,
            table[p.0 as int].signal@,
            p.1,
            m,
            q.0,
            q.1,
        )
}

/// Pair `p` is reached from `root` in `n` steps.
pub open spec fn reached<C: CoverageTracker>(
    blocks: Seq<Block>,
    table: Seq<DriverEntry>,
    a: C,
    min_time: i64,
    root: (usize, i64),
    p: (usize, i64),
    n: nat,
) -> bool
    decreases n,
{
    if n == 0 {
        p == root
    } else {
        exists|q: (usize, i64)| reached(blocks, table, a, min_time, root, q, (n - 1) as nat) && #[trigger] pair_step(blocks, table, a, min_time, q, p)
    }
}

/// What pair `p` adds to a slice: the nodes of its drivers (see `step_node`).
pub open spec fn pair_node<C: CoverageTracker>(blocks: Seq<Block>, table: Seq<DriverEntry>, a: C, min_time: i64, p: (usize, i64), v: SliceNodeView) -> bool {
    &&& p.1 >= min_time
    &&& p.0 < table.len()
    &&& exists|m: int|
        0 <= m < drivers_of(blocks, table[p.0 as int].signal@).len() && #[trigger] step_node(
            blocks,
            a,
            min_time,
            table[p.0 as int].signal@,
            p.1,
            m,
            v,
        )
}

/// The edges that pair `p` adds to a slice (see `step_edge`).
pub open spec fn pair_edge<C: CoverageTracker>(blocks: Seq<Block>, table: Seq<DriverEntry>, a: C, min_time: i64, p: (usize, i64), e: SliceEdgeView) -> bool {
    &&& p.1 >= min_time
    &&& p.0 < table.len()
    &&& exists|m: int|
        0 <= m < drivers_of(blocks, table[p.0 as int].signal@).len() && #[trigger] step_edge(
            blocks,
            a,
            min_time,
            table[p.0 as int].signal@,
            p.1,
            m,
            e,
        )
}

/// The nodes of the slice from `root` by the coverage: what every pair
/// reached from `root` adds.
pub open spec fn answered_node<C: CoverageTracker>(
    blocks: Seq<Block>,
    table: Seq<DriverEntry>,
    a: C,
    min_time: i64,
    root: (usize, i64),
    v: SliceNodeView,
) -> bool {
    exists|p: (usize, i64), n: nat| #[trigger] reached(blocks, table, a, min_time, root, p, n) && pair_node(blocks, table, a, min_time, p, v)
}

/// The edges of the slice from `root` by the coverage.
pub open spec fn answered_edge<C: CoverageTracker>(
    blocks: Seq<Block>,
    table: Seq<DriverEntry>,
    a: C,
    min_time: i64,
    root: (usize, i64),
    e: SliceEdgeView,
) -> bool {
    exists|p: (usize, i64), n: nat| #[trigger] reached(blocks, table, a, min_time, root, p, n) && pair_edge(blocks, table, a, min_time, p, e)
}

/// A queue closed under steps holds every pair reached from its first.
proof fn lemma_reached_queued<C: CoverageTracker>(
    blocks: Seq<Block>,
    table: Seq<DriverEntry>,
    a: C,
    min_time: i64,
    order: Seq<(usize, i64)>,
    p: (usize, i64),
    n: nat,
)
    requires
        order.len() > 0,
        forall|k: int, z: (usize, i64)| 0 <= k < order.len() && #[trigger] pair_step(blocks, table, a, min_time, order[k], z) ==> order.contains(z),
        reached(blocks, table, a, min_time, order[0], p, n),
    ensures
        order.contains(p),
    decreases n,
{
    if n == 0 {
        assert(order[0] == p);
    } else {
        let q = choose|q: (usize, i64)| reached(blocks, table, a, min_time, order[0], q, (n - 1) as nat) && #[trigger] pair_step(blocks, table, a, min_time, q, p);
        lemma_reached_queued(blocks, table, a, min_time, order, q, (n - 1) as nat);
        let k = choose|k: int| 0 <= k < order.len() && order[k] == q;
        assert(pair_step(blocks, table, a, min_time, order[k], p));
    }
}


proof fn lemma_queue_advance<C: CoverageTracker>(
    blocks: Seq<Block>,
    table: Seq<DriverEntry>,
    a: C,
    min_time: i64,
    rp: (usize, i64),
    ob: Seq<(usize, i64)>,
    o2: Seq<(usize, i64)>,
    dep: Seq<nat>,
    h: int,
    p: (usize, i64),
) -> (dep2: Seq<nat>)
    requires
        0 <= h < ob.len(),
        ob[h] == p,
        ob.len() <= o2.len(),
        dep.len() == ob.len(),
        forall|i: int, j: int| 0 <= i < j < o2.len() ==> o2[i] != o2[j],
        forall|k: int| 0 <= k < ob.len() ==> #[trigger] o2[k] == ob[k],
        forall|z: (usize, i64)| #[trigger] o2.contains(z) <==> ob.contains(z) || pair_step(blocks, table, a, min_time, p, z),
        forall|k: int| 0 <= k < ob.len() ==> #[trigger] reached(blocks, table, a, min_time, rp, ob[k], dep[k]),
        forall|k: int, z: (usize, i64)| 0 <= k < h && #[trigger] pair_step(blocks, table, a, min_time, ob[k], z) ==> ob.contains(z),
    ensures
        dep2.len() == o2.len(),
        forall|k: int| 0 <= k < o2.len() ==> #[trigger] reached(blocks, table, a, min_time, rp, o2[k], dep2[k]),
        forall|k: int, z: (usize, i64)| 0 <= k < h + 1 && #[trigger] pair_step(blocks, table, a, min_time, o2[k], z) ==> o2.contains(z),
{
    let dep2 = dep + Seq::new((o2.len() - ob.len()) as nat, |i: int| dep[h] + 1);
    assert forall|k: int| 0 <= k < o2.len() implies #[trigger] reached(blocks, table, a, min_time, rp, o2[k], dep2[k]) by {
        if k < ob.len() {
            assert(o2[k] == ob[k]);
            assert(dep2[k] == dep[k]);
        } else {
            assert(dep2[k] == dep[h] + 1);
            assert(o2.contains(o2[k]));
            if ob.contains(o2[k]) {
                let w = choose|w: int| 0 <= w < ob.len() && ob[w] == o2[k];
                assert(o2[w] == ob[w]);
                assert(false);
            }
            assert(pair_step(blocks, table, a, min_time, p, o2[k]));
            assert(reached(blocks, table, a, min_time, rp, ob[h], dep[h]));
            assert(reached(blocks, table, a, min_time, rp, o2[k], (dep[h] + 1) as nat));
        }
    }
    assert forall|k: int, z: (usize, i64)| 0 <= k < h + 1 && #[trigger] pair_step(blocks, table, a, min_time, o2[k], z) implies o2.contains(z) by {
        assert(o2[k] == ob[k]);
        if k < h {
            assert(ob.contains(z));
            let w = choose|w: int| 0 <= w < ob.len() && ob[w] == z;
            assert(o2[w] == z);
        }
    }
    dep2
}

proof fn lemma_nodes_advance<C: CoverageTracker>(
    blocks: Seq<Block>,
    table: Seq<DriverEntry>,
    a: C,
    min_time: i64,
    ob: Seq<(usize, i64)>,
    o2: Seq<(usize, i64)>,
    h: int,
    p: (usize, i64),
    nb: Seq<TimedSliceNode>,
    n2: Seq<TimedSliceNode>,
)
    requires
        0 <= h < ob.len(),
        ob[h] == p,
        ob.len() <= o2.len(),
        forall|k: int| 0 <= k < ob.len() ==> #[trigger] o2[k] == ob[k],
        forall|v: SliceNodeView| #[trigger] has_view(nb, v) <==> exists|k: int| 0 <= k < h && pair_node(blocks, table, a, min_time, #[trigger] ob[k], v),
        forall|v: SliceNodeView| #[trigger] has_view(n2, v) <==> has_view(nb, v) || pair_node(blocks, table, a, min_time, p, v),
    ensures
        forall|v: SliceNodeView| #[trigger] has_view(n2, v) <==> exists|k: int| 0 <= k < h + 1 && pair_node(blocks, table, a, min_time, #[trigger] o2[k], v),
{
    assert forall|v: SliceNodeView| #[trigger] has_view(n2, v) <==> exists|k: int| 0 <= k < h + 1 && pair_node(blocks, table, a, min_time, #[trigger] o2[k], v) by {
        if exists|k: int| 0 <= k < h + 1 && pair_node(blocks, table, a, min_time, #[trigger] o2[k], v) {
            let k = choose|k: int| 0 <= k < h + 1 && pair_node(blocks, table, a, min_time, #[trigger] o2[k], v);
            assert(o2[k] == ob[k]);
            if k < h {
                assert(has_view(nb, v));
            }
        }
        if has_view(n2, v) {
            if has_view(nb, v) {
                let k = choose|k: int| 0 <= k < h && pair_node(blocks, table, a, min_time, #[trigger] ob[k], v);
                assert(o2[k] == ob[k]);
            } else {
                assert(o2[h] == ob[h]);
            }
        }
    }
}

proof fn lemma_edges_advance<C: CoverageTracker>(
    blocks: Seq<Block>,
    table: Seq<DriverEntry>,
    a: C,
    min_time: i64,
    ob: Seq<(usize, i64)>,
    o2: Seq<(usize, i64)>,
    h: int,
    p: (usize, i64),
    eb: Seq<SliceEdge<TimedSliceNode>>,
    e2: Seq<SliceEdge<TimedSliceNode>>,
)
    requires
        0 <= h < ob.len(),
        ob[h] == p,
        ob.len() <= o2.len(),
        forall|k: int| 0 <= k < ob.len() ==> #[trigger] o2[k] == ob[k],
        forall|e: SliceEdgeView| #[trigger] has_edge_view(eb, e) <==> exists|k: int| 0 <= k < h && pair_edge(blocks, table, a, min_time, #[trigger] ob[k], e),
        forall|e: SliceEdgeView| #[trigger] has_edge_view(e2, e) <==> has_edge_view(eb, e) || pair_edge(blocks, table, a, min_time, p, e),
    ensures
        forall|e: SliceEdgeView| #[trigger] has_edge_view(e2, e) <==> exists|k: int| 0 <= k < h + 1 && pair_edge(blocks, table, a, min_time, #[trigger] o2[k], e),
{
    assert forall|e: SliceEdgeView| #[trigger] has_edge_view(e2, e) <==> exists|k: int| 0 <= k < h + 1 && pair_edge(blocks, table, a, min_time, #[trigger] o2[k], e) by {
        if exists|k: int| 0 <= k < h + 1 && pair_edge(blocks, table, a, min_time, #[trigger] o2[k], e) {
            let k = choose|k: int| 0 <= k < h + 1 && pair_edge(blocks, table, a, min_time, #[trigger] o2[k], e);
            assert(o2[k] == ob[k]);
            if k < h {
                assert(has_edge_view(eb, e));
            }
        }
        if has_edge_view(e2, e) {
            if has_edge_view(eb, e) {
                let k = choose|k: int| 0 <= k < h && pair_edge(blocks, table, a, min_time, #[trigger] ob[k], e);
                assert(o2[k] == ob[k]);
            } else {
                assert(o2[h] == ob[h]);
            }
        }
    }
}



proof fn lemma_reached_not_later<C: CoverageTracker>(
    blocks: Seq<Block>,
    table: Seq<DriverEntry>,
    a: C,
    min_time: i64,
    root: (usize, i64),
    p: (usize, i64),
    n: nat,
)
    requires
        period_of(a) > 0,
        reached(blocks, table, a, min_time, root, p, n),
    ensures
        p.1 <= root.1,
    decreases n,
{
    if n > 0 {
        let q = choose|q: (usize, i64)| reached(blocks, table, a, min_time, root, q, (n - 1) as nat) && #[trigger] pair_step(blocks, table, a, min_time, q, p);
        lemma_reached_not_later(blocks, table, a, min_time, root, q, (n - 1) as nat);
        let m = choose|m: int|
            0 <= m < drivers_of(blocks, table[q.0 as int].signal@).len() && #[trigger] step_follow(
                blocks, table, a, min_time, table[q.0 as int].signal@, q.1, m, p.0, p.1);
    }
}

/// With a positive clock period, every node of a slice by the answers lies
/// between the minimum time and the requested time.
pub proof fn lemma_answered_node_times<C: CoverageTracker>(
    blocks: Seq<Block>,
    table: Seq<DriverEntry>,
    a: C,
    min_time: i64,
    root: (usize, i64),
    v: SliceNodeView,
)
    requires
        period_of(a) > 0,
        answered_node(blocks, table, a, min_time, root, v),
    ensures
        node_time(v) matches Some(t) && min_time <= t <= root.1,
{
    let (p, n) = choose|p: (usize, i64), n: nat| #[trigger] reached(blocks, table, a, min_time, root, p, n) && pair_node(blocks, table, a, min_time, p, v);
    lemma_reached_not_later(blocks, table, a, min_time, root, p, n);
    let s = table[p.0 as int].signal@;
    let m = choose|m: int| 0 <= m < drivers_of(blocks, s).len() && #[trigger] step_node(blocks, a, min_time, s, p.1, m, v);
    let d = drivers_of(blocks, s)[m];
    let b = driver_view(blocks, s, m);
    if v != block_at(d, p.1) {
        if b.circuit_type == CircuitType::Combinational && exists|q: int|
            0 <= q < reads_at(a, b, s, p.1).len() && read_node_of(blocks, a, #[trigger] reads_at(a, b, s, p.1)[q], p.1, d, v) {
            let q = choose|q: int| 0 <= q < reads_at(a, b, s, p.1).len() && read_node_of(blocks, a, #[trigger] reads_at(a, b, s, p.1)[q], p.1, d, v);
            let i = reads_at(a, b, s, p.1)[q];
            if i.0 != SignalNodeKind::Literal {
                let u = choose|u: BlockId| upstream(blocks, a, i, d, u) && v == block_at(u, p.1);
            }
        } else {
            let pe = previous_edge(a, p.1, min_time)->0;
            if ran_at(a, b.source_file, b.line_start, pe) {
                let q = choose|q: int| 0 <= q < reads_at(a, b, s, pe).len() && read_node_of(blocks, a, #[trigger] reads_at(a, b, s, pe)[q], pe, d, v);
                let i = reads_at(a, b, s, pe)[q];
                if i.0 != SignalNodeKind::Literal {
                    let u = choose|u: BlockId| upstream(blocks, a, i, d, u) && v == block_at(u, pe);
                }
            }
        }
    }
}


/// Every block on a slice by the answers is one the answers count
/// elaborated.
pub proof fn lemma_answered_blocks_elaborated<C: CoverageTracker>(
    blocks: Seq<Block>,
    table: Seq<DriverEntry>,
    a: C,
    min_time: i64,
    root: (usize, i64),
    d: BlockId,
    t: i64,
)
    requires
        answered_node(blocks, table, a, min_time, root, block_at(d, t)),
    ensures
        elaborated_by(a, block_with_id(blocks, d)@),
{
    let v = block_at(d, t);
    let (p, n) = choose|p: (usize, i64), n: nat| #[trigger] reached(blocks, table, a, min_time, root, p, n) && pair_node(blocks, table, a, min_time, p, v);
    let s = table[p.0 as int].signal@;
    let m = choose|m: int| 0 <= m < drivers_of(blocks, s).len() && #[trigger] step_node(blocks, a, min_time, s, p.1, m, v);
    let dm = drivers_of(blocks, s)[m];
    let b = driver_view(blocks, s, m);
    if v != block_at(dm, p.1) {
        if b.circuit_type == CircuitType::Combinational && exists|q: int|
            0 <= q < reads_at(a, b, s, p.1).len() && read_node_of(blocks, a, #[trigger] reads_at(a, b, s, p.1)[q], p.1, dm, v) {
            let q = choose|q: int| 0 <= q < reads_at(a, b, s, p.1).len() && read_node_of(blocks, a, #[trigger] reads_at(a, b, s, p.1)[q], p.1, dm, v);
            let i = reads_at(a, b, s, p.1)[q];
            if i.0 != SignalNodeKind::Literal {
                let u = choose|u: BlockId| upstream(blocks, a, i, dm, u) && v == block_at(u, p.1);
            }
        } else {
            let pe = previous_edge(a, p.1, min_time)->0;
            if ran_at(a, b.source_file, b.line_start, pe) {
                let q = choose|q: int| 0 <= q < reads_at(a, b, s, pe).len() && read_node_of(blocks, a, #[trigger] reads_at(a, b, s, pe)[q], pe, dm, v);
                let i = reads_at(a, b, s, pe)[q];
                if i.0 != SignalNodeKind::Literal {
                    let u = choose|u: BlockId| upstream(blocks, a, i, dm, u) && v == block_at(u, pe);
                }
            }
        }
    }
}


/// At a requested time not before the minimum time, every elaborated driver
/// of the root signal is on the slice at that time.
pub proof fn lemma_root_drivers_on_slice<C: CoverageTracker>(
    blocks: Seq<Block>,
    table: Seq<DriverEntry>,
    a: C,
    min_time: i64,
    root: (usize, i64),
    m: int,
)
    requires
        root.1 >= min_time,
        root.0 < table.len(),
        0 <= m < drivers_of(blocks, table[root.0 as int].signal@).len(),
        elaborated_by(a, driver_view(blocks, table[root.0 as int].signal@, m)),
    ensures
        answered_node(blocks, table, a, min_time, root, block_at(drivers_of(blocks, table[root.0 as int].signal@)[m], root.1)),
{
    let s = table[root.0 as int].signal@;
    let v = block_at(drivers_of(blocks, s)[m], root.1);
    assert(reached(blocks, table, a, min_time, root, root, 0));
    assert(step_node(blocks, a, min_time, s, root.1, m, v));
    assert(pair_node(blocks, table, a, min_time, root, v));
}

/// `g` is the dynamic slice of `bs` for `request` by the answers `a`: for
/// the target and start time asked, with the shape `has_dynamic_slice_shape`
/// gives, and exactly the nodes and edges that the pairs reached from the
/// root pair (the resolved signal's table entry at the requested time) add.
pub open spec fn answered_slice_of<C: CoverageTracker>(bs: BlockSet, a: C, request: SliceRequest, g: InstructionExecutionPath) -> bool {
    &&& g.target@ == request.signal.name@
    &&& g.start_time == Some(request.time)
    &&& has_dynamic_slice_shape(bs@, request.min_time.0, g)
    &&& exists|x: usize|
        #![trigger bs.driver_table()[x as int]]
        x < bs.driver_table().len() && resolved_root(bs@, request.signal@, bs.driver_table()[x as int].signal@) && {
            let root = (x, request.time.0);
            &&& forall|v: SliceNodeView| #[trigger] has_view(g.nodes@, v) <==> answered_node(
                bs@,
                bs.driver_table(),
                a,
                request.min_time.0,
                root,
                v,
            )
            &&& forall|e: SliceEdgeView| #[trigger] has_edge_view(g.edges@, e) <==> answered_edge(
                bs@,
                bs.driver_table(),
                a,
                request.min_time.0,
                root,
                e,
            )
        }
}

/// Before the minimum time nothing is reached but the root pair.
proof fn lemma_only_root<C: CoverageTracker>(
    blocks: Seq<Block>,
    table: Seq<DriverEntry>,
    a: C,
    min_time: i64,
    root: (usize, i64),
    p: (usize, i64),
    n: nat,
)
    requires
        root.1 < min_time,
        reached(blocks, table, a, min_time, root, p, n),
    ensures
        p == root,
    decreases n,
{
    if n > 0 {
        let q = choose|q: (usize, i64)| reached(blocks, table, a, min_time, root, q, (n - 1) as nat) && #[trigger] pair_step(blocks, table, a, min_time, q, p);
        lemma_only_root(blocks, table, a, min_time, root, q, (n - 1) as nat);
    }
}

/// A slice asked for before its minimum time is empty.
proof fn lemma_nothing_before_min<C: CoverageTracker>(bs: BlockSet, a: C, request: SliceRequest, g: InstructionExecutionPath)
    requires
        answered_slice_of(bs, a, request, g),
        request.time.0 < request.min_time.0,
    ensures
        g.nodes@.len() == 0,
        g.edges@.len() == 0,
        g.blocks@.len() == 0,
{
    let x = choose|x: usize|
        #![trigger bs.driver_table()[x as int]]
        x < bs.driver_table().len() && resolved_root(bs@, request.signal@, bs.driver_table()[x as int].signal@) && {
            let root = (x, request.time.0);
            &&& forall|v: SliceNodeView| #[trigger] has_view(g.nodes@, v) <==> answered_node(bs@, bs.driver_table(), a, request.min_time.0, root, v)
            &&& forall|e: SliceEdgeView| #[trigger] has_edge_view(g.edges@, e) <==> answered_edge(bs@, bs.driver_table(), a, request.min_time.0, root, e)
        };
    let root = (x, request.time.0);
    let t = bs.driver_table();
    let min = request.min_time.0;
    if g.nodes@.len() > 0 {
        assert(has_view(g.nodes@, g.nodes@[0]@));
        let (p, n) = choose|p: (usize, i64), n: nat| #[trigger] reached(bs@, t, a, min, root, p, n) && pair_node(bs@, t, a, min, p, g.nodes@[0]@);
        lemma_only_root(bs@, t, a, min, root, p, n);
    }
    if g.edges@.len() > 0 {
        assert(has_edge_view(g.edges@, g.edges@[0]@));
        let (p, n) = choose|p: (usize, i64), n: nat| #[trigger] reached(bs@, t, a, min, root, p, n) && pair_edge(bs@, t, a, min, p, g.edges@[0]@);
        lemma_only_root(bs@, t, a, min, root, p, n);
    }
    if g.blocks@.len() > 0 {
        assert(g.blocks@[0].id.0 == g.blocks@[0].id.0);
        assert(has_block_node(g.nodes@, g.blocks@[0].id.0));
    }
}

/// The dynamic slice of `block_set` from the requested signal (or the one
/// driven signal it is an alias of) at the requested time, not going before
/// the minimum time, by the coverage answers `answers`: exactly the nodes
/// and edges that the pairs reached from the root pair add, each once, in
/// the order of their Debug text. Fails exactly when the signal resolves to
/// nothing.
pub fn blues_slice_from<C: CoverageTracker>(block_set: &BlockSet, coverage: &C, request: &SliceRequest) -> (r: Result<
    InstructionExecutionPath,
    SvaError,
>)
    ensures
        !(drivers_of(block_set@, request.signal@).len() > 0 || exists|k: SignalKey|
            unique_alias(block_set@, request.signal@, k)) ==> match r {
            Err(e) => e matches SvaError::SignalNotFound(nf) && nf.signal@ == request.signal.name@ && top_matches(
                string_views(nf.suggestions@),
                request.signal.name@,
                block_set.signal_name_views(),
            ),
            Ok(_) => false,
        },
        (drivers_of(block_set@, request.signal@).len() > 0 || exists|k: SignalKey|
            unique_alias(block_set@, request.signal@, k)) && (never_fails(*coverage) || request.time.0 < request.min_time.0)
            ==> r is Ok,
        r matches Ok(g) ==> answered_slice_of(*block_set, *coverage, *request, g),
{
    let root = match block_set.resolve_signal_with_driver(&request.signal) {
        Ok(x) => x,
        Err(e) => {
            return Err(e);
        },
    };
    let blocks = block_set.blocks();
    let table = block_set.signal_to_drivers();
    proof {
        assert(table_lookup(table@, root@) == drivers_of(blocks@, root@));
    }
    let root_index = match find_entry(table, &root) {
        Some(i) => i,
        None => {
            proof {
                assert(false);
            }
            return Err(SvaError::DuplicateBlockId);
        },
    };
    proof {
        if drivers_of(block_set@, request.signal@).len() == 0 {
            assert(unique_alias(block_set@, request.signal@, root@));
        }
        assert(resolved_root(block_set@, request.signal@, table@[root_index as int].signal@));
    }
    let min_time = request.min_time.0;
    let ghost rp = (root_index, request.time.0);
    let mut order: Vec<(usize, i64)> = Vec::new();
    order.push((root_index, request.time.0));
    let mut nodes: Vec<TimedSliceNode> = Vec::new();
    let mut edges: Vec<SliceEdge<TimedSliceNode>> = Vec::new();
    proof {
        lemma_queue_bound(order@, table@.len());
        assert(order@[0] == rp);
        assert(reached(blocks@, table@, *coverage, min_time, rp, order@[0], 0));
    }
    let ghost mut depth: Seq<nat> = seq![0nat];
    proof {
        assert(depth[0] == 0);
    }
    let mut h: usize = 0;
    while h < order.len()
        invariant
            table_correct(table@, blocks@),
            queue_ok(order@, table@.len()),
            order@.len() <= table@.len() * time_values(),
            0 < order@.len(),
            order@[0] == rp,
            min_time == request.min_time.0,
            h <= order@.len(),
            dynamic_parts_ok(blocks@, min_time, nodes@, edges@),
            request.time.0 < min_time ==> order@.len() == 1,
            rp.1 == request.time.0,
            drivers_of(block_set@, request.signal@).len() > 0 || exists|k: SignalKey| unique_alias(block_set@, request.signal@, k),
            depth.len() == order@.len(),
            forall|k: int| 0 <= k < order@.len() ==> #[trigger] reached(blocks@, table@, *coverage, min_time, rp, order@[k], depth[k]),
            forall|k: int, z: (usize, i64)|
                0 <= k < h && #[trigger] pair_step(blocks@, table@, *coverage, min_time, order@[k], z) ==> order@.contains(z),
            forall|v: SliceNodeView| #[trigger] has_view(nodes@, v) <==> exists|k: int|
                0 <= k < h && pair_node(blocks@, table@, *coverage, min_time, #[trigger] order@[k], v),
            forall|e: SliceEdgeView| #[trigger] has_edge_view(edges@, e) <==> exists|k: int|
                0 <= k < h && pair_edge(blocks@, table@, *coverage, min_time, #[trigger] order@[k], e),
        decreases table@.len() * time_values() - h,
    {
        let (x, t) = order[h];
        let ghost ob = order@;
        let ghost nb = nodes@;
        let ghost eb = edges@;
        let ghost p = (x, t);
        proof {
            assert(order@[h as int] == p);
            if request.time.0 < min_time {
                assert(h == 0);
                assert(t == request.time.0);
            }
        }
        if t >= min_time {
            match answered_expand_pair(blocks, table, coverage, min_time, x, t, &mut nodes, &mut edges, &mut order) {
                Ok(()) => {},
                Err(err) => {
                    return Err(err);
                },
            }
            proof {
                lemma_queue_bound(order@, table@.len());
            }
        }
        proof {
            assert forall|z: (usize, i64)| #[trigger] order@.contains(z) <==> ob.contains(z) || pair_step(blocks@, table@, *coverage, min_time, p, z) by {
                if t >= min_time && pair_step(blocks@, table@, *coverage, min_time, p, z) {
                    let m = choose|m: int|
                        0 <= m < drivers_of(blocks@, table@[x as int].signal@).len() && #[trigger] step_follow(
                            blocks@, table@, *coverage, min_time, table@[x as int].signal@, t, m, z.0, z.1);
                }
            }
            assert forall|v: SliceNodeView| #[trigger] has_view(nodes@, v) <==> has_view(nb, v) || pair_node(blocks@, table@, *coverage, min_time, p, v) by {
                if t >= min_time && pair_node(blocks@, table@, *coverage, min_time, p, v) {
                    let m = choose|m: int|
                        0 <= m < drivers_of(blocks@, table@[x as int].signal@).len() && #[trigger] step_node(
                            blocks@, *coverage, min_time, table@[x as int].signal@, t, m, v);
                }
            }
            assert forall|e: SliceEdgeView| #[trigger] has_edge_view(edges@, e) <==> has_edge_view(eb, e) || pair_edge(blocks@, table@, *coverage, min_time, p, e) by {
                if t >= min_time && pair_edge(blocks@, table@, *coverage, min_time, p, e) {
                    let m = choose|m: int|
                        0 <= m < drivers_of(blocks@, table@[x as int].signal@).len() && #[trigger] step_edge(
                            blocks@, *coverage, min_time, table@[x as int].signal@, t, m, e);
                }
            }
            depth = lemma_queue_advance(blocks@, table@, *coverage, min_time, rp, ob, order@, depth, h as int, p);
            lemma_nodes_advance(blocks@, table@, *coverage, min_time, ob, order@, h as int, p, nb, nodes@);
            lemma_edges_advance(blocks@, table@, *coverage, min_time, ob, order@, h as int, p, eb, edges@);
        }
        h = h + 1;
    }
    proof {
        assert forall|v: SliceNodeView| #[trigger] has_view(nodes@, v) <==> answered_node(blocks@, table@, *coverage, min_time, rp, v) by {
            if has_view(nodes@, v) {
                let k = choose|k: int| 0 <= k < h && pair_node(blocks@, table@, *coverage, min_time, #[trigger] order@[k], v);
                assert(reached(blocks@, table@, *coverage, min_time, rp, order@[k], depth[k]));
            }
            if answered_node(blocks@, table@, *coverage, min_time, rp, v) {
                let (p, n) = choose|p: (usize, i64), n: nat| #[trigger] reached(blocks@, table@, *coverage, min_time, rp, p, n) && pair_node(blocks@, table@, *coverage, min_time, p, v);
                lemma_reached_queued(blocks@, table@, *coverage, min_time, order@, p, n);
                let k = choose|k: int| 0 <= k < order@.len() && order@[k] == p;
            }
        }
        assert forall|e: SliceEdgeView| #[trigger] has_edge_view(edges@, e) <==> answered_edge(blocks@, table@, *coverage, min_time, rp, e) by {
            if has_edge_view(edges@, e) {
                let k = choose|k: int| 0 <= k < h && pair_edge(blocks@, table@, *coverage, min_time, #[trigger] order@[k], e);
                assert(reached(blocks@, table@, *coverage, min_time, rp, order@[k], depth[k]));
            }
            if answered_edge(blocks@, table@, *coverage, min_time, rp, e) {
                let (p, n) = choose|p: (usize, i64), n: nat| #[trigger] reached(blocks@, table@, *coverage, min_time, rp, p, n) && pair_edge(blocks@, table@, *coverage, min_time, p, e);
                lemma_reached_queued(blocks@, table@, *coverage, min_time, order@, p, n);
                let k = choose|k: int| 0 <= k < order@.len() && order@[k] == p;
            }
        }
    }
    let ghost n1 = nodes@;
    let ghost e1 = edges@;
    let nodes = sort_nodes(nodes);
    let edges = sort_edges(edges);
    proof {
        lemma_parts_reordered(blocks@, min_time, n1, e1, nodes@, edges@);
    }
    let ids = block_ids_of(&nodes);
    proof {
        assert forall|k: int| 0 <= k < ids@.len() implies has_block(blocks@, BlockId(#[trigger] ids@[k])) by {
            assert(ids@.contains(ids@[k]));
            let i = choose|i: int| 0 <= i < nodes@.len() && #[trigger] node_block_id(nodes@[i]@) == Some(ids@[k]);
            assert(dynamic_node_ok(blocks@, min_time, nodes@[i]@));
        }
    }
    let sblocks = slice_blocks(blocks, &ids);
    let g = SliceGraph {
        target: request.signal.name.clone(),
        start_time: Some(request.time),
        nodes,
        edges,
        blocks: sblocks,
    };
    proof {
        assert forall|k: int| 0 <= k < g.blocks@.len() implies #[trigger] g.blocks@[k].id == BlockId(ids@[k]) by {
            assert(has_block(blocks@, BlockId(ids@[k])));
            crate::block::set::lemma_has_block_with_id(blocks@, BlockId(ids@[k]));
        }
        assert forall|b: u64| (exists|k: int| 0 <= k < g.blocks@.len() && #[trigger] g.blocks@[k].id.0 == b)
            <==> has_block_node(g.nodes@, b) by {
            if exists|k: int| 0 <= k < g.blocks@.len() && #[trigger] g.blocks@[k].id.0 == b {
                let k = choose|k: int| 0 <= k < g.blocks@.len() && #[trigger] g.blocks@[k].id.0 == b;
                assert(g.blocks@[k].id == BlockId(ids@[k]));
                assert(ids@.contains(b));
            }
            if has_block_node(g.nodes@, b) {
                assert(ids@.contains(b));
                let k = choose|k: int| 0 <= k < ids@.len() && ids@[k] == b;
                assert(g.blocks@[k].id == BlockId(ids@[k]));
            }
        }
        assert forall|a: int, b: int| 0 <= a < b < g.blocks@.len() implies g.blocks@[a].id.0 < g.blocks@[b].id.0 by {
            assert(g.blocks@[a].id == BlockId(ids@[a]));
            assert(g.blocks@[b].id == BlockId(ids@[b]));
        }
        assert forall|k: int| 0 <= k < g.blocks@.len() implies slice_block_of(block_with_id(blocks@, #[trigger] g.blocks@[k].id), g.blocks@[k]) by {
            assert(g.blocks@[k].id == BlockId(ids@[k]));
        }
        assert forall|v: SliceNodeView| #[trigger] has_view(g.nodes@, v) <==> answered_node(blocks@, table@, *coverage, min_time, rp, v) by {
            assert(has_view(g.nodes@, v) == has_view(n1, v));
        }
        assert forall|e: SliceEdgeView| #[trigger] has_edge_view(g.edges@, e) <==> answered_edge(blocks@, table@, *coverage, min_time, rp, e) by {
            assert(has_edge_view(g.edges@, e) == has_edge_view(e1, e));
        }
    }
    Ok(g)
}

} // verus!
