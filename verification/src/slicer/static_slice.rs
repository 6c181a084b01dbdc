use vstd::prelude::*;

use crate::block::set::{
    block_with_id, drivers_of, find_block, find_entry, has_block, lemma_block_with_id,
    lemma_driver_is_block, lemma_lookup_at, table_correct, table_has, table_lookup, unique_alias,
    DriverEntry,
};
use crate::block::{
    entry_part, find_key, flow_has, has_key, lemma_has_key_extend, Block, BlockSet, DataflowEntry,
};
use crate::slicer::blues::{edge_follows_dataflow, reads};
use crate::error::{string_views, top_matches, SvaError};
use crate::slicer::collect::{
    add_edge, add_node, block_ids_of, edges_in_key_order, has_block_node, node_block_id,
    nodes_in_key_order, slice_block_of, slice_blocks, sort_edges, sort_nodes,
};
use crate::slicer::{
    edge_views_distinct, has_edge_view, has_view, views_distinct, InstructionExecutionPath,
    SliceEdge, SliceEdgeView, SliceGraph, SliceRequest, Slicer, StaticSliceGraph,
};
use crate::types::{BlockId, SignalKey, SignalNode, SignalNodeKind, SliceNodeView, TimedSliceNode};

verus! {

/// The inputs of the assignments of `df` that write `out`, in order.
pub open spec fn inputs_for(df: Seq<DataflowEntry>, out: SignalKey) -> Seq<SignalNode>
    decreases df.len(),
{
    if df.len() == 0 {
        Seq::<SignalNode>::empty()
    } else {
        let prev = inputs_for(df.drop_last(), out);
        if has_key(df.last().output@, out) {
            prev + df.last().inputs@
        } else {
            prev
        }
    }
}

/// Appends the nodes of `s` to `out`.
fn append_signals(out: &mut Vec<SignalNode>, s: &Vec<SignalNode>)
    ensures
        final(out)@ == old(out)@ + s@,
{
    let ghost start = out@;
    let mut q: usize = 0;
    while q < s.len()
        invariant
            q <= s@.len(),
            out@ == start + s@.subrange(0, q as int),
        decreases s@.len() - q,
    {
        out.push(s[q].clone());
        proof {
            assert(s@.subrange(0, q + 1) =~= s@.subrange(0, q as int).push(s@[q as int]));
        }
        q = q + 1;
    }
    proof {
        assert(s@.subrange(0, s@.len() as int) =~= s@);
    }
}

/// The inputs that `block` reads in its assignments to `output`.
pub fn inputs_for_output(block: &Block, output: &SignalNode) -> (r: Vec<SignalNode>)
    ensures
        r@ == inputs_for(block@.dataflow, output@),
{
    let df = block.dataflow();
    let mut out: Vec<SignalNode> = Vec::new();
    let mut e: usize = 0;
    proof {
        assert(df@.subrange(0, 0) =~= Seq::<DataflowEntry>::empty());
    }
    while e < df.len()
        invariant
            df@ == block@.dataflow,
            e <= df@.len(),
            out@ == inputs_for(df@.subrange(0, e as int), output@),
        decreases df@.len() - e,
    {
        proof {
            assert(df@.subrange(0, e + 1).drop_last() =~= df@.subrange(0, e as int));
            assert(df@.subrange(0, e + 1).last() == df@[e as int]);
        }
        if find_key(&df[e].output, output).is_some() {
            append_signals(&mut out, &df[e].inputs);
        }
        e = e + 1;
    }
    proof {
        assert(df@.subrange(0, df@.len() as int) =~= df@);
    }
    out
}

/// The inputs that driver number `m` of `s` reads in its assignments to `s`.
pub open spec fn driver_inputs(blocks: Seq<Block>, s: SignalKey, m: int) -> Seq<SignalNode> {
    inputs_for(block_with_id(blocks, drivers_of(blocks, s)[m])@.dataflow, s)
}

/// Some driver of `s` reads `t` to compute `s`.
pub open spec fn feeds(blocks: Seq<Block>, s: SignalKey, t: SignalKey) -> bool {
    exists|m: int| 0 <= m < drivers_of(blocks, s).len() && has_key(#[trigger] driver_inputs(blocks, s, m), t)
}

/// Each signal of `path` after the first is read by a driver of the one
/// before it.
pub open spec fn is_feed_path(blocks: Seq<Block>, path: Seq<SignalKey>) -> bool {
    forall|i: int| 0 <= i < path.len() - 1 ==> #[trigger] feeds(blocks, path[i], path[i + 1])
}

/// `t` is a transitive input of `root`: a path of `feeds` steps leads there.
pub open spec fn reaches(blocks: Seq<Block>, root: SignalKey, t: SignalKey) -> bool {
    exists|path: Seq<SignalKey>|
        path.len() > 0 && path[0] == root && path.last() == t && #[trigger] is_feed_path(blocks, path)
}

pub proof fn lemma_reaches_root(blocks: Seq<Block>, root: SignalKey)
    ensures
        reaches(blocks, root, root),
{
    let path = seq![root];
    assert(is_feed_path(blocks, path));
}

pub proof fn lemma_reaches_step(blocks: Seq<Block>, root: SignalKey, s: SignalKey, t: SignalKey)
    requires
        reaches(blocks, root, s),
        feeds(blocks, s, t),
    ensures
        reaches(blocks, root, t),
{
    let path = choose|path: Seq<SignalKey>|
        path.len() > 0 && path[0] == root && path.last() == s && #[trigger] is_feed_path(blocks, path);
    let longer = path.push(t);
    assert forall|i: int| 0 <= i < longer.len() - 1 implies #[trigger] feeds(blocks, longer[i], longer[i + 1]) by {
        if i < path.len() - 1 {
            assert(feeds(blocks, path[i], path[i + 1]));
        }
    }
    assert(is_feed_path(blocks, longer));
}

/// An untimed block node.
pub open spec fn block_node(id: BlockId) -> SliceNodeView {
    SliceNodeView::BlockAt { block_id: id.0, time: None }
}

/// The node that input `i` of the driver `d` adds: the literal itself, or
/// each other block that drives the input.
pub open spec fn input_node(blocks: Seq<Block>, d: BlockId, i: SignalKey, v: SliceNodeView) -> bool {
    if i.0 == SignalNodeKind::Literal {
        v == (SliceNodeView::LiteralAt { signal: i, time: None })
    } else {
        exists|m: int|
            #![trigger drivers_of(blocks, i)[m]]
            0 <= m < drivers_of(blocks, i).len() && drivers_of(blocks, i)[m] != d && v == block_node(
                drivers_of(blocks, i)[m],
            )
    }
}

/// The edge that input `i` of the driver `d` adds: from the literal, or from
/// each other block that drives the input, carrying the input.
pub open spec fn input_edge(blocks: Seq<Block>, d: BlockId, i: SignalKey, e: SliceEdgeView) -> bool {
    if i.0 == SignalNodeKind::Literal {
        e == (SliceNodeView::LiteralAt { signal: i, time: None }, block_node(d), None::<SignalKey>)
    } else {
        exists|m: int|
            #![trigger drivers_of(blocks, i)[m]]
            0 <= m < drivers_of(blocks, i).len() && drivers_of(blocks, i)[m] != d && e == (
                block_node(drivers_of(blocks, i)[m]),
                block_node(d),
                Some(i),
            )
    }
}

/// What driver number `m` of `s` adds: its own node and what its inputs add.
pub open spec fn driver_node(blocks: Seq<Block>, s: SignalKey, m: int, v: SliceNodeView) -> bool {
    v == block_node(drivers_of(blocks, s)[m]) || exists|i: SignalKey|
        has_key(driver_inputs(blocks, s, m), i) && #[trigger] input_node(blocks, drivers_of(blocks, s)[m], i, v)
}

pub open spec fn driver_edge(blocks: Seq<Block>, s: SignalKey, m: int, e: SliceEdgeView) -> bool {
    exists|i: SignalKey|
        has_key(driver_inputs(blocks, s, m), i) && #[trigger] input_edge(blocks, drivers_of(blocks, s)[m], i, e)
}

/// The nodes that expanding signal `s` adds.
pub open spec fn expansion_node(blocks: Seq<Block>, s: SignalKey, v: SliceNodeView) -> bool {
    exists|m: int| 0 <= m < drivers_of(blocks, s).len() && #[trigger] driver_node(blocks, s, m, v)
}

/// The edges that expanding signal `s` adds.
pub open spec fn expansion_edge(blocks: Seq<Block>, s: SignalKey, e: SliceEdgeView) -> bool {
    exists|m: int| 0 <= m < drivers_of(blocks, s).len() && #[trigger] driver_edge(blocks, s, m, e)
}

/// The nodes of the static slice from `root`: those that expanding each
/// transitive input of `root` adds.
pub open spec fn static_slice_node(blocks: Seq<Block>, root: SignalKey, v: SliceNodeView) -> bool {
    exists|s: SignalKey| reaches(blocks, root, s) && #[trigger] expansion_node(blocks, s, v)
}

/// The edges of the static slice from `root`.
pub open spec fn static_slice_edge(blocks: Seq<Block>, root: SignalKey, e: SliceEdgeView) -> bool {
    exists|s: SignalKey| reaches(blocks, root, s) && #[trigger] expansion_edge(blocks, s, e)
}

/// The signal a request names resolves to `k`: itself when driven, else its
/// one driven alias.
pub open spec fn resolved_root(blocks: Seq<Block>, q: SignalKey, k: SignalKey) -> bool {
    ||| drivers_of(blocks, q).len() > 0 && k == q
    ||| drivers_of(blocks, q).len() == 0 && unique_alias(blocks, q, k)
}

/// `g` is the static slice of `blocks` from `root`: its nodes and edges, each
/// once, in the order of their Debug text, and the metadata of the blocks
/// among its nodes in ascending id order.
pub open spec fn is_static_slice(blocks: Seq<Block>, root: SignalKey, g: StaticSliceGraph) -> bool {
    &&& g.start_time is None
    &&& views_distinct(g.nodes@)
    &&& forall|v: SliceNodeView| #[trigger] has_view(g.nodes@, v) <==> static_slice_node(blocks, root, v)
    &&& nodes_in_key_order(g.nodes@)
    &&& edge_views_distinct(g.edges@)
    &&& forall|e: SliceEdgeView| #[trigger] has_edge_view(g.edges@, e) <==> static_slice_edge(blocks, root, e)
    &&& edges_in_key_order(g.edges@)
    &&& forall|a: int, b: int| 0 <= a < b < g.blocks@.len() ==> g.blocks@[a].id.0 < g.blocks@[b].id.0
    &&& forall|k: int| 0 <= k < g.blocks@.len() ==> slice_block_of(block_with_id(blocks, #[trigger] g.blocks@[k].id), g.blocks@[k])
    &&& forall|b: u64| (exists|k: int| 0 <= k < g.blocks@.len() && #[trigger] g.blocks@[k].id.0 == b)
        <==> static_slice_node(blocks, root, block_node(BlockId(b)))
}

/// The blocks of slice `g` include the one with id `b`.
pub open spec fn slice_lists_block(g: StaticSliceGraph, b: u64) -> bool {
    exists|k: int| 0 <= k < g.blocks@.len() && #[trigger] g.blocks@[k].id.0 == b
}

/// A requested signal resolves to at most one driven signal.
pub proof fn lemma_resolved_root_unique(blocks: Seq<Block>, q: SignalKey, a: SignalKey, b: SignalKey)
    requires
        resolved_root(blocks, q, a),
        resolved_root(blocks, q, b),
    ensures
        a == b,
{
    if drivers_of(blocks, q).len() == 0 {
        assert(drivers_of(blocks, b).len() > 0 && crate::block::set::alias_of(q, b));
    }
}

/// The static slice does not depend on the request's times: two static
/// slices from one requested signal hold the same nodes, the same edges and
/// the same blocks.
pub proof fn lemma_static_slice_ignores_time(
    blocks: Seq<Block>,
    q: SignalKey,
    r1: SignalKey,
    r2: SignalKey,
    g1: StaticSliceGraph,
    g2: StaticSliceGraph,
)
    requires
        resolved_root(blocks, q, r1),
        resolved_root(blocks, q, r2),
        is_static_slice(blocks, r1, g1),
        is_static_slice(blocks, r2, g2),
    ensures
        forall|v: SliceNodeView| #[trigger] has_view(g1.nodes@, v) <==> has_view(g2.nodes@, v),
        forall|e: SliceEdgeView| #[trigger] has_edge_view(g1.edges@, e) <==> has_edge_view(g2.edges@, e),
        forall|b: u64| #[trigger] slice_lists_block(g1, b) <==> slice_lists_block(g2, b),
{
    lemma_resolved_root_unique(blocks, q, r1, r2);
    assert forall|b: u64| #[trigger] slice_lists_block(g1, b) <==> slice_lists_block(g2, b) by {
        assert(slice_lists_block(g1, b) <==> static_slice_node(blocks, r1, block_node(BlockId(b))));
        assert(slice_lists_block(g2, b) <==> static_slice_node(blocks, r2, block_node(BlockId(b))));
    }
}

/// Number of unset flags.
pub open spec fn count_false(s: Seq<bool>) -> nat
    decreases s.len(),
{
    if s.len() == 0 {
        0
    } else {
        count_false(s.drop_last()) + if s.last() {
            0nat
        } else {
            1nat
        }
    }
}

proof fn lemma_count_false_set(s: Seq<bool>, y: int)
    requires
        0 <= y < s.len(),
        !s[y],
    ensures
        count_false(s.update(y, true)) + 1 == count_false(s),
    decreases s.len(),
{
    if y == s.len() - 1 {
        assert(s.update(y, true).drop_last() =~= s.drop_last());
    } else {
        assert(s.update(y, true).drop_last() =~= s.drop_last().update(y, true));
        lemma_count_false_set(s.drop_last(), y);
    }
}

/// Queues the table entries of the driven inputs of `inputs` that are not
/// queued yet.
fn enqueue_inputs(
    table: &Vec<DriverEntry>,
    inputs: &Vec<SignalNode>,
    queued: &mut Vec<bool>,
    order: &mut Vec<usize>,
)
    requires
        crate::block::set::table_keys_distinct(table@),
        forall|y: int| 0 <= y < table@.len() ==> #[trigger] table@[y].signal.kind == SignalNodeKind::Variable,
        old(queued)@.len() == table@.len(),
        forall|p: int| 0 <= p < old(order)@.len() ==> #[trigger] old(order)@[p] < table@.len() && old(queued)@[old(order)@[p] as int],
        forall|y: usize| y < table@.len() && #[trigger] old(queued)@[y as int] ==> old(order)@.contains(y),
        forall|p: int, q: int| 0 <= p < q < old(order)@.len() ==> old(order)@[p] != old(order)@[q],
        count_false(old(queued)@) + old(order)@.len() == table@.len(),
    ensures
        final(queued)@.len() == table@.len(),
        forall|p: int| 0 <= p < final(order)@.len() ==> #[trigger] final(order)@[p] < table@.len() && final(queued)@[final(order)@[p] as int],
        forall|y: usize| y < table@.len() && #[trigger] final(queued)@[y as int] ==> final(order)@.contains(y),
        forall|p: int, q: int| 0 <= p < q < final(order)@.len() ==> final(order)@[p] != final(order)@[q],
        count_false(final(queued)@) + final(order)@.len() == table@.len(),
        old(order)@.len() <= final(order)@.len(),
        forall|p: int| 0 <= p < old(order)@.len() ==> #[trigger] final(order)@[p] == old(order)@[p],
        forall|y: int| 0 <= y < table@.len() && #[trigger] old(queued)@[y] ==> final(queued)@[y],
        forall|y: int| 0 <= y < table@.len() && has_key(inputs@, #[trigger] table@[y].signal@) ==> final(queued)@[y],
        forall|p: int| old(order)@.len() <= p < final(order)@.len() ==> has_key(inputs@, #[trigger] table@[final(order)@[p] as int].signal@),
{
    let ghost q0 = queued@;
    let ghost o0 = order@;
    let mut q: usize = 0;
    while q < inputs.len()
        invariant
            crate::block::set::table_keys_distinct(table@),
            forall|y: int| 0 <= y < table@.len() ==> #[trigger] table@[y].signal.kind == SignalNodeKind::Variable,
            q <= inputs@.len(),
            queued@.len() == table@.len(),
            forall|p: int| 0 <= p < order@.len() ==> #[trigger] order@[p] < table@.len() && queued@[order@[p] as int],
            forall|y: usize| y < table@.len() && #[trigger] queued@[y as int] ==> order@.contains(y),
            forall|p: int, r: int| 0 <= p < r < order@.len() ==> order@[p] != order@[r],
            count_false(queued@) + order@.len() == table@.len(),
            o0.len() <= order@.len(),
            forall|p: int| 0 <= p < o0.len() ==> #[trigger] order@[p] == o0[p],
            forall|y: int| 0 <= y < table@.len() && #[trigger] q0[y] ==> queued@[y],
            forall|y: int|
                0 <= y < table@.len() && has_key(inputs@.subrange(0, q as int), #[trigger] table@[y].signal@) ==> queued@[y],
            forall|p: int| o0.len() <= p < order@.len() ==> has_key(inputs@, #[trigger] table@[order@[p] as int].signal@),
        decreases inputs@.len() - q,
    {
        let input = &inputs[q];
        let ghost qb = queued@;
        let ghost ob = order@;
        if !input.is_literal() {
            match find_entry(table, input) {
                Some(y) => {
                    if !queued[y] {
                        proof {
                            lemma_count_false_set(queued@, y as int);
                        }
                        queued.set(y, true);
                        order.push(y);
                        proof {
                            assert forall|z: usize| z < table@.len() && #[trigger] queued@[z as int] implies order@.contains(z) by {
                                if z == y {
                                    assert(order@[order@.len() - 1] == z);
                                } else {
                                    assert(qb[z as int]);
                                    assert(ob.contains(z));
                                    let w = choose|w: int| 0 <= w < ob.len() && ob[w] == z;
                                    assert(order@[w] == z);
                                }
                            }
                            assert forall|p: int, r: int| 0 <= p < r < order@.len() implies order@[p] != order@[r] by {
                                if r == order@.len() - 1 && ob[p] == y {
                                    assert(qb[ob[p] as int]);
                                }
                            }
                            assert(has_key(inputs@, table@[y as int].signal@)) by {
                                assert(inputs@[q as int]@ == table@[y as int].signal@);
                            }
                        }
                    }
                },
                None => {},
            }
        }
        proof {
            assert forall|z: int|
                0 <= z < table@.len() && has_key(inputs@.subrange(0, q + 1), #[trigger] table@[z].signal@) implies queued@[z] by {
                lemma_has_key_extend(inputs@, q as int, table@[z].signal@);
                if !has_key(inputs@.subrange(0, q as int), table@[z].signal@) {
                    assert(inputs@[q as int]@ == table@[z].signal@);
                    assert(table@[z].signal.kind == SignalNodeKind::Variable);
                    assert(table_has(table@, inputs@[q as int]@));
                }
            }
        }
        q = q + 1;
    }
    proof {
        assert(inputs@.subrange(0, inputs@.len() as int) =~= inputs@);
    }
}

/// Every signal found by the search from the entry at `root_index`, as table
/// positions: each driven transitive input of the root, once.
fn reached_order(blocks: &Vec<Block>, table: &Vec<DriverEntry>, root_index: usize) -> (order: Vec<usize>)
    requires
        table_correct(table@, blocks@),
        root_index < table@.len(),
    ensures
        forall|p: int| 0 <= p < order@.len() ==> #[trigger] order@[p] < table@.len(),
        forall|p: int, q: int| 0 <= p < q < order@.len() ==> order@[p] != order@[q],
        forall|p: int|
            0 <= p < order@.len() ==> reaches(blocks@, table@[root_index as int].signal@, #[trigger] table@[order@[p] as int].signal@),
        forall|k: SignalKey|
            reaches(blocks@, table@[root_index as int].signal@, k) && drivers_of(blocks@, k).len() > 0 ==> exists|p: int|
                0 <= p < order@.len() && #[trigger] table@[order@[p] as int].signal@ == k,
{
    let ghost root = table@[root_index as int].signal@;
    let mut queued: Vec<bool> = Vec::new();
    let mut i: usize = 0;
    while i < table.len()
        invariant
            i <= table@.len(),
            queued@.len() == i,
            count_false(queued@) == i,
            forall|y: int| 0 <= y < i ==> !queued@[y],
        decreases table@.len() - i,
    {
        let ghost before = queued@;
        queued.push(false);
        proof {
            assert(queued@.drop_last() =~= before);
        }
        i = i + 1;
    }
    proof {
        lemma_count_false_set(queued@, root_index as int);
    }
    queued.set(root_index, true);
    let mut order: Vec<usize> = Vec::new();
    order.push(root_index);
    proof {
        lemma_reaches_root(blocks@, root);
        assert forall|y: usize| y < table@.len() && #[trigger] queued@[y as int] implies order@.contains(y) by {
            assert(y == root_index);
            assert(order@[0] == y);
        }
    }
    let mut h: usize = 0;
    while h < order.len()
        invariant
            table_correct(table@, blocks@),
            root_index < table@.len(),
            root == table@[root_index as int].signal@,
            0 < order@.len(),
            order@[0] == root_index,
            h <= order@.len(),
            queued@.len() == table@.len(),
            forall|p: int| 0 <= p < order@.len() ==> #[trigger] order@[p] < table@.len() && queued@[order@[p] as int],
            forall|y: usize| y < table@.len() && #[trigger] queued@[y as int] ==> order@.contains(y),
            forall|p: int, q: int| 0 <= p < q < order@.len() ==> order@[p] != order@[q],
            count_false(queued@) + order@.len() == table@.len(),
            forall|p: int| 0 <= p < order@.len() ==> reaches(blocks@, root, #[trigger] table@[order@[p] as int].signal@),
            forall|p: int, y: int|
                0 <= p < h && 0 <= y < table@.len() && feeds(blocks@, #[trigger] table@[order@[p] as int].signal@, #[trigger] table@[y].signal@)
                    ==> queued@[y],
        decreases table@.len() - h,
    {
        let x = order[h];
        let s = &table[x].signal;
        let drivers = &table[x].drivers;
        proof {
            lemma_lookup_at(table@, x as int);
            assert(table_lookup(table@, s@) == drivers_of(blocks@, s@));
        }
        let ghost qh = queued@;
        let ghost oh = order@;
        let mut m: usize = 0;
        while m < drivers.len()
            invariant
                table_correct(table@, blocks@),
                x < table@.len(),
                *s == table@[x as int].signal,
                drivers@ == drivers_of(blocks@, s@),
                reaches(blocks@, root, s@),
                m <= drivers@.len(),
                0 < order@.len(),
                order@[0] == root_index,
                queued@.len() == table@.len(),
                forall|p: int| 0 <= p < order@.len() ==> #[trigger] order@[p] < table@.len() && queued@[order@[p] as int],
                forall|y: usize| y < table@.len() && #[trigger] queued@[y as int] ==> order@.contains(y),
                forall|p: int, q: int| 0 <= p < q < order@.len() ==> order@[p] != order@[q],
                count_false(queued@) + order@.len() == table@.len(),
                forall|p: int| 0 <= p < order@.len() ==> reaches(blocks@, root, #[trigger] table@[order@[p] as int].signal@),
                oh.len() <= order@.len(),
                forall|p: int| 0 <= p < oh.len() ==> #[trigger] order@[p] == oh[p],
                forall|y: int| 0 <= y < table@.len() && #[trigger] qh[y] ==> queued@[y],
                forall|m2: int, y: int|
                    0 <= m2 < m && 0 <= y < table@.len() && has_key(#[trigger] driver_inputs(blocks@, s@, m2), #[trigger] table@[y].signal@)
                        ==> queued@[y],
            decreases drivers@.len() - m,
        {
            let d = drivers[m];
            proof {
                lemma_driver_is_block(blocks@, s@, m as int);
            }
            let j = match find_block(blocks, d) {
                Some(j) => j,
                None => {
                    proof {
                        let w = choose|w: int| 0 <= w < blocks@.len() && #[trigger] blocks@[w]@.id == d;
                        assert(blocks@[w]@.id != d);
                    }
                    0
                },
            };
            proof {
                lemma_block_with_id(blocks@, j as int);
            }
            let inputs = inputs_for_output(&blocks[j], s);
            proof {
                assert(inputs@ == driver_inputs(blocks@, s@, m as int));
            }
            let ghost ob = order@;
            let ghost qb = queued@;
            enqueue_inputs(table, &inputs, &mut queued, &mut order);
            proof {
                assert forall|p: int| 0 <= p < order@.len() implies reaches(blocks@, root, #[trigger] table@[order@[p] as int].signal@) by {
                    if p >= ob.len() {
                        assert(has_key(driver_inputs(blocks@, s@, m as int), table@[order@[p] as int].signal@));
                        assert(feeds(blocks@, s@, table@[order@[p] as int].signal@));
                        lemma_reaches_step(blocks@, root, s@, table@[order@[p] as int].signal@);
                    } else {
                        assert(order@[p] == ob[p]);
                    }
                }
                assert forall|m2: int, y: int|
                    0 <= m2 < m + 1 && 0 <= y < table@.len() && has_key(#[trigger] driver_inputs(blocks@, s@, m2), #[trigger] table@[y].signal@)
                        implies queued@[y] by {
                    if m2 < m {
                        assert(qb[y]);
                    }
                }
            }
            m = m + 1;
        }
        proof {
            assert forall|p: int, y: int|
                0 <= p < h + 1 && 0 <= y < table@.len() && feeds(blocks@, #[trigger] table@[order@[p] as int].signal@, #[trigger] table@[y].signal@)
                    implies queued@[y] by {
                assert(order@[p] == oh[p]);
                if p < h {
                    assert(qh[y]);
                } else {
                    let m2 = choose|m2: int| 0 <= m2 < drivers_of(blocks@, s@).len() && has_key(#[trigger] driver_inputs(blocks@, s@, m2), table@[y].signal@);
                }
            }
        }
        h = h + 1;
    }
    proof {
        assert forall|k: SignalKey|
            reaches(blocks@, root, k) && drivers_of(blocks@, k).len() > 0 implies exists|p: int|
                0 <= p < order@.len() && #[trigger] table@[order@[p] as int].signal@ == k by {
            let path = choose|path: Seq<SignalKey>|
                path.len() > 0 && path[0] == root && path.last() == k && #[trigger] is_feed_path(blocks@, path);
            lemma_search_complete(blocks@, table@, order@, queued@, path);
        }
    }
    order
}

/// Every driven signal at the end of a feed path from the root is in a
/// search order that is closed under `feeds`.
proof fn lemma_search_complete(
    blocks: Seq<Block>,
    t: Seq<DriverEntry>,
    order: Seq<usize>,
    queued: Seq<bool>,
    path: Seq<SignalKey>,
)
    requires
        table_correct(t, blocks),
        queued.len() == t.len(),
        t.len() <= usize::MAX,
        0 < order.len(),
        order[0] < t.len(),
        path.len() > 0,
        t[order[0] as int].signal@ == path[0],
        is_feed_path(blocks, path),
        drivers_of(blocks, path.last()).len() > 0,
        forall|p: int| 0 <= p < order.len() ==> #[trigger] order[p] < t.len(),
        forall|y: usize| y < t.len() && #[trigger] queued[y as int] ==> order.contains(y),
        forall|p: int, y: int|
            0 <= p < order.len() && 0 <= y < t.len() && feeds(blocks, #[trigger] t[order[p] as int].signal@, #[trigger] t[y].signal@)
                ==> queued[y],
    ensures
        exists|p: int| 0 <= p < order.len() && #[trigger] t[order[p] as int].signal@ == path.last(),
    decreases path.len(),
{
    if path.len() == 1 {
        assert(t[order[0] as int].signal@ == path.last());
    } else {
        let k = path.last();
        let prefix = path.drop_last();
        let s = prefix.last();
        let i = path.len() - 2;
        assert(feeds(blocks, path[i], path[i + 1]));
        let m = choose|m: int| 0 <= m < drivers_of(blocks, s).len() && has_key(#[trigger] driver_inputs(blocks, s, m), k);
        assert forall|i: int| 0 <= i < prefix.len() - 1 implies #[trigger] feeds(blocks, prefix[i], prefix[i + 1]) by {
            assert(feeds(blocks, path[i], path[i + 1]));
        }
        lemma_search_complete(blocks, t, order, queued, prefix);
        let p = choose|p: int| 0 <= p < order.len() && #[trigger] t[order[p] as int].signal@ == s;
        assert(table_lookup(t, k) == drivers_of(blocks, k));
        assert(table_has(t, k));
        let y = choose|y: int| 0 <= y < t.len() && #[trigger] t[y].signal@ == k;
        assert(feeds(blocks, t[order[p] as int].signal@, t[y].signal@));
        assert(queued[y]);
        assert(queued[(y as usize) as int]);
        assert(order.contains(y as usize));
        let p2 = choose|p2: int| 0 <= p2 < order.len() && order[p2] == y as usize;
        assert(t[order[p2] as int].signal@ == k);
    }
}

/// Adds what input `input` of the driver `d` contributes.
fn collect_input(
    blocks: &Vec<Block>,
    table: &Vec<DriverEntry>,
    d: BlockId,
    input: &SignalNode,
    nodes: &mut Vec<TimedSliceNode>,
    edges: &mut Vec<SliceEdge<TimedSliceNode>>,
)
    requires
        table_correct(table@, blocks@),
        views_distinct(old(nodes)@),
        edge_views_distinct(old(edges)@),
    ensures
        views_distinct(final(nodes)@),
        edge_views_distinct(final(edges)@),
        forall|v: SliceNodeView| #[trigger] has_view(final(nodes)@, v) <==> (has_view(old(nodes)@, v) || input_node(blocks@, d, input@, v)),
        forall|e: SliceEdgeView| #[trigger] has_edge_view(final(edges)@, e) <==> (has_edge_view(old(edges)@, e) || input_edge(blocks@, d, input@, e)),
{
    if input.is_literal() {
        add_node(nodes, TimedSliceNode::Literal { signal: input.clone(), time: None });
        add_edge(
            edges,
            SliceEdge {
                from: TimedSliceNode::Literal { signal: input.clone(), time: None },
                to: TimedSliceNode::Block { block_id: d, time: None },
                signal: None,
            },
        );
        return;
    }
    match find_entry(table, input) {
        Some(y) => {
            proof {
                lemma_lookup_at(table@, y as int);
                assert(table_lookup(table@, input@) == drivers_of(blocks@, input@));
            }
            let ups = &table[y].drivers;
            let ghost n0 = nodes@;
            let ghost e0 = edges@;
            let mut m: usize = 0;
            while m < ups.len()
                invariant
                    ups@ == drivers_of(blocks@, input@),
                    input.kind == SignalNodeKind::Variable,
                    m <= ups@.len(),
                    views_distinct(nodes@),
                    edge_views_distinct(edges@),
                    forall|v: SliceNodeView| #[trigger] has_view(nodes@, v) <==> (has_view(n0, v) || exists|m2: int|
                        #![trigger ups@[m2]]
                        0 <= m2 < m && ups@[m2] != d && v == block_node(ups@[m2])),
                    forall|e: SliceEdgeView| #[trigger] has_edge_view(edges@, e) <==> (has_edge_view(e0, e) || exists|m2: int|
                        #![trigger ups@[m2]]
                        0 <= m2 < m && ups@[m2] != d && e == (block_node(ups@[m2]), block_node(d), Some(input@))),
                decreases ups@.len() - m,
            {
                let u = ups[m];
                let ghost nb = nodes@;
                let ghost eb = edges@;
                if u.0 != d.0 {
                    add_node(nodes, TimedSliceNode::Block { block_id: u, time: None });
                    add_edge(
                        edges,
                        SliceEdge {
                            from: TimedSliceNode::Block { block_id: u, time: None },
                            to: TimedSliceNode::Block { block_id: d, time: None },
                            signal: Some(input.clone()),
                        },
                    );
                }
                proof {
                    assert forall|v: SliceNodeView| #[trigger] has_view(nodes@, v) <==> (has_view(n0, v) || exists|m2: int|
                        #![trigger ups@[m2]]
                        0 <= m2 < m + 1 && ups@[m2] != d && v == block_node(ups@[m2])) by {
                        if exists|m2: int| #![trigger ups@[m2]] 0 <= m2 < m + 1 && ups@[m2] != d && v == block_node(ups@[m2]) {
                            let m2 = choose|m2: int| #![trigger ups@[m2]] 0 <= m2 < m + 1 && ups@[m2] != d && v == block_node(ups@[m2]);
                            if m2 < m {
                                assert(has_view(nb, v));
                            }
                        }
                        if has_view(nodes@, v) && !has_view(nb, v) {
                            assert(ups@[m as int] != d && v == block_node(ups@[m as int]));
                        }
                    }
                    assert forall|e: SliceEdgeView| #[trigger] has_edge_view(edges@, e) <==> (has_edge_view(e0, e) || exists|m2: int|
                        #![trigger ups@[m2]]
                        0 <= m2 < m + 1 && ups@[m2] != d && e == (block_node(ups@[m2]), block_node(d), Some(input@))) by {
                        if exists|m2: int| #![trigger ups@[m2]] 0 <= m2 < m + 1 && ups@[m2] != d && e == (block_node(ups@[m2]), block_node(d), Some(input@)) {
                            let m2 = choose|m2: int| #![trigger ups@[m2]] 0 <= m2 < m + 1 && ups@[m2] != d && e == (block_node(ups@[m2]), block_node(d), Some(input@));
                            if m2 < m {
                                assert(has_edge_view(eb, e));
                            }
                        }
                        if has_edge_view(edges@, e) && !has_edge_view(eb, e) {
                            assert(ups@[m as int] != d && e == (block_node(ups@[m as int]), block_node(d), Some(input@)));
                        }
                    }
                }
                m = m + 1;
            }
        },
        None => {
            proof {
                assert(table_lookup(table@, input@) == drivers_of(blocks@, input@));
                assert(drivers_of(blocks@, input@).len() == 0);
            }
        },
    }
}

/// Adds what driver number `m` of `s` contributes.
fn collect_driver(
    blocks: &Vec<Block>,
    table: &Vec<DriverEntry>,
    s: &SignalNode,
    drivers: &Vec<BlockId>,
    m: usize,
    nodes: &mut Vec<TimedSliceNode>,
    edges: &mut Vec<SliceEdge<TimedSliceNode>>,
)
    requires
        table_correct(table@, blocks@),
        drivers@ == drivers_of(blocks@, s@),
        m < drivers@.len(),
        views_distinct(old(nodes)@),
        edge_views_distinct(old(edges)@),
    ensures
        views_distinct(final(nodes)@),
        edge_views_distinct(final(edges)@),
        forall|v: SliceNodeView| #[trigger] has_view(final(nodes)@, v) <==> (has_view(old(nodes)@, v) || driver_node(blocks@, s@, m as int, v)),
        forall|e: SliceEdgeView| #[trigger] has_edge_view(final(edges)@, e) <==> (has_edge_view(old(edges)@, e) || driver_edge(blocks@, s@, m as int, e)),
{
    let d = drivers[m];
    proof {
        lemma_driver_is_block(blocks@, s@, m as int);
    }
    let j = match find_block(blocks, d) {
        Some(j) => j,
        None => {
            proof {
                let w = choose|w: int| 0 <= w < blocks@.len() && #[trigger] blocks@[w]@.id == d;
                assert(blocks@[w]@.id != d);
            }
            0
        },
    };
    proof {
        lemma_block_with_id(blocks@, j as int);
    }
    let inputs = inputs_for_output(&blocks[j], s);
    let ghost n0 = nodes@;
    let ghost e0 = edges@;
    add_node(nodes, TimedSliceNode::Block { block_id: d, time: None });
    let mut q: usize = 0;
    while q < inputs.len()
        invariant
            table_correct(table@, blocks@),
            inputs@ == driver_inputs(blocks@, s@, m as int),
            d == drivers_of(blocks@, s@)[m as int],
            q <= inputs@.len(),
            views_distinct(nodes@),
            edge_views_distinct(edges@),
            forall|v: SliceNodeView| #[trigger] has_view(nodes@, v) <==> (has_view(n0, v) || v == block_node(d) || exists|i: SignalKey|
                has_key(inputs@.subrange(0, q as int), i) && #[trigger] input_node(blocks@, d, i, v)),
            forall|e: SliceEdgeView| #[trigger] has_edge_view(edges@, e) <==> (has_edge_view(e0, e) || exists|i: SignalKey|
                has_key(inputs@.subrange(0, q as int), i) && #[trigger] input_edge(blocks@, d, i, e)),
        decreases inputs@.len() - q,
    {
        let ghost nb = nodes@;
        let ghost eb = edges@;
        collect_input(blocks, table, d, &inputs[q], nodes, edges);
        proof {
            assert forall|v: SliceNodeView| #[trigger] has_view(nodes@, v) <==> (has_view(n0, v) || v == block_node(d) || exists|i: SignalKey|
                has_key(inputs@.subrange(0, q + 1), i) && #[trigger] input_node(blocks@, d, i, v)) by {
                if exists|i: SignalKey| has_key(inputs@.subrange(0, q + 1), i) && #[trigger] input_node(blocks@, d, i, v) {
                    let i = choose|i: SignalKey| has_key(inputs@.subrange(0, q + 1), i) && #[trigger] input_node(blocks@, d, i, v);
                    lemma_has_key_extend(inputs@, q as int, i);
                }
                if has_view(nb, v) && !has_view(n0, v) && v != block_node(d) {
                    let i = choose|i: SignalKey| has_key(inputs@.subrange(0, q as int), i) && #[trigger] input_node(blocks@, d, i, v);
                    lemma_has_key_extend(inputs@, q as int, i);
                }
                if has_view(nodes@, v) && !has_view(nb, v) {
                    lemma_has_key_extend(inputs@, q as int, inputs@[q as int]@);
                    assert(input_node(blocks@, d, inputs@[q as int]@, v));
                }
            }
            assert forall|e: SliceEdgeView| #[trigger] has_edge_view(edges@, e) <==> (has_edge_view(e0, e) || exists|i: SignalKey|
                has_key(inputs@.subrange(0, q + 1), i) && #[trigger] input_edge(blocks@, d, i, e)) by {
                if exists|i: SignalKey| has_key(inputs@.subrange(0, q + 1), i) && #[trigger] input_edge(blocks@, d, i, e) {
                    let i = choose|i: SignalKey| has_key(inputs@.subrange(0, q + 1), i) && #[trigger] input_edge(blocks@, d, i, e);
                    lemma_has_key_extend(inputs@, q as int, i);
                }
                if has_edge_view(eb, e) && !has_edge_view(e0, e) {
                    let i = choose|i: SignalKey| has_key(inputs@.subrange(0, q as int), i) && #[trigger] input_edge(blocks@, d, i, e);
                    lemma_has_key_extend(inputs@, q as int, i);
                }
                if has_edge_view(edges@, e) && !has_edge_view(eb, e) {
                    lemma_has_key_extend(inputs@, q as int, inputs@[q as int]@);
                    assert(input_edge(blocks@, d, inputs@[q as int]@, e));
                }
            }
        }
        q = q + 1;
    }
    proof {
        assert(inputs@.subrange(0, inputs@.len() as int) =~= inputs@);
    }
}

/// Adds what expanding the signal of table entry `x` contributes.
fn collect_signal(
    blocks: &Vec<Block>,
    table: &Vec<DriverEntry>,
    x: usize,
    nodes: &mut Vec<TimedSliceNode>,
    edges: &mut Vec<SliceEdge<TimedSliceNode>>,
)
    requires
        table_correct(table@, blocks@),
        x < table@.len(),
        views_distinct(old(nodes)@),
        edge_views_distinct(old(edges)@),
    ensures
        views_distinct(final(nodes)@),
        edge_views_distinct(final(edges)@),
        forall|v: SliceNodeView| #[trigger] has_view(final(nodes)@, v) <==> (has_view(old(nodes)@, v) || expansion_node(blocks@, table@[x as int].signal@, v)),
        forall|e: SliceEdgeView| #[trigger] has_edge_view(final(edges)@, e) <==> (has_edge_view(old(edges)@, e) || expansion_edge(blocks@, table@[x as int].signal@, e)),
{
    let s = &table[x].signal;
    let drivers = &table[x].drivers;
    proof {
        lemma_lookup_at(table@, x as int);
        assert(table_lookup(table@, s@) == drivers_of(blocks@, s@));
    }
    let ghost n0 = nodes@;
    let ghost e0 = edges@;
    let mut m: usize = 0;
    while m < drivers.len()
        invariant
            table_correct(table@, blocks@),
            drivers@ == drivers_of(blocks@, s@),
            m <= drivers@.len(),
            views_distinct(nodes@),
            edge_views_distinct(edges@),
            forall|v: SliceNodeView| #[trigger] has_view(nodes@, v) <==> (has_view(n0, v) || exists|m2: int|
                0 <= m2 < m && #[trigger] driver_node(blocks@, s@, m2, v)),
            forall|e: SliceEdgeView| #[trigger] has_edge_view(edges@, e) <==> (has_edge_view(e0, e) || exists|m2: int|
                0 <= m2 < m && #[trigger] driver_edge(blocks@, s@, m2, e)),
        decreases drivers@.len() - m,
    {
        let ghost nb = nodes@;
        let ghost eb = edges@;
        collect_driver(blocks, table, s, drivers, m, nodes, edges);
        proof {
            assert forall|v: SliceNodeView| #[trigger] has_view(nodes@, v) <==> (has_view(n0, v) || exists|m2: int|
                0 <= m2 < m + 1 && #[trigger] driver_node(blocks@, s@, m2, v)) by {
                if exists|m2: int| 0 <= m2 < m + 1 && #[trigger] driver_node(blocks@, s@, m2, v) {
                    let m2 = choose|m2: int| 0 <= m2 < m + 1 && #[trigger] driver_node(blocks@, s@, m2, v);
                    if m2 < m {
                        assert(has_view(nb, v));
                    }
                }
            }
            assert forall|e: SliceEdgeView| #[trigger] has_edge_view(edges@, e) <==> (has_edge_view(e0, e) || exists|m2: int|
                0 <= m2 < m + 1 && #[trigger] driver_edge(blocks@, s@, m2, e)) by {
                if exists|m2: int| 0 <= m2 < m + 1 && #[trigger] driver_edge(blocks@, s@, m2, e) {
                    let m2 = choose|m2: int| 0 <= m2 < m + 1 && #[trigger] driver_edge(blocks@, s@, m2, e);
                    if m2 < m {
                        assert(has_edge_view(eb, e));
                    }
                }
            }
        }
        m = m + 1;
    }
}

/// A block node of a static slice is untimed and stands for one of the blocks.
proof fn lemma_slice_block_node(blocks: Seq<Block>, root: SignalKey, v: SliceNodeView)
    requires
        static_slice_node(blocks, root, v),
    ensures
        v matches SliceNodeView::BlockAt { block_id, time } ==> time is None && has_block(blocks, BlockId(block_id)),
{
    let s = choose|s: SignalKey| reaches(blocks, root, s) && #[trigger] expansion_node(blocks, s, v);
    let m = choose|m: int| 0 <= m < drivers_of(blocks, s).len() && #[trigger] driver_node(blocks, s, m, v);
    if v == block_node(drivers_of(blocks, s)[m]) {
        lemma_driver_is_block(blocks, s, m);
    } else {
        let i = choose|i: SignalKey| has_key(driver_inputs(blocks, s, m), i) && #[trigger] input_node(blocks, drivers_of(blocks, s)[m], i, v);
        if i.0 != SignalNodeKind::Literal {
            let m2 = choose|m2: int|
                #![trigger drivers_of(blocks, i)[m2]]
                0 <= m2 < drivers_of(blocks, i).len() && drivers_of(blocks, i)[m2] != drivers_of(blocks, s)[m] && v == block_node(drivers_of(blocks, i)[m2]);
            lemma_driver_is_block(blocks, i, m2);
        }
    }
}

/// What a block reads for an output is everything that each of its
/// assignments to that output reads: every input of every such assignment
/// is among the inputs returned, and nothing else is.
pub proof fn lemma_inputs_for_every_assignment(df: Seq<DataflowEntry>, out: SignalKey, k: SignalKey)
    ensures
        has_key(inputs_for(df, out), k) <==> exists|e: int|
            0 <= e < df.len() && #[trigger] has_key(df[e].output@, out) && has_key(df[e].inputs@, k),
    decreases df.len(),
{
    if df.len() > 0 {
        let init = df.drop_last();
        let prev = inputs_for(init, out);
        lemma_inputs_for_every_assignment(init, out, k);
        let last = df.len() - 1;
        assert(df[last] == df.last());
        if exists|e: int| 0 <= e < df.len() && #[trigger] has_key(df[e].output@, out) && has_key(df[e].inputs@, k) {
            let e = choose|e: int| 0 <= e < df.len() && #[trigger] has_key(df[e].output@, out) && has_key(df[e].inputs@, k);
            if e < last {
                assert(init[e] == df[e]);
                let w = choose|w: int| 0 <= w < prev.len() && #[trigger] prev[w]@ == k;
                assert(inputs_for(df, out)[w] == prev[w]);
            } else {
                let j = choose|j: int| 0 <= j < df[e].inputs@.len() && #[trigger] df[e].inputs@[j]@ == k;
                assert(inputs_for(df, out)[prev.len() + j] == df.last().inputs@[j]);
            }
        }
        if has_key(inputs_for(df, out), k) {
            let w = choose|w: int| 0 <= w < inputs_for(df, out).len() && #[trigger] inputs_for(df, out)[w]@ == k;
            if has_key(df.last().output@, out) && w >= prev.len() {
                assert(df.last().inputs@[w - prev.len()]@ == k);
                assert(has_key(df[last].inputs@, k));
            } else {
                assert(prev[w]@ == k);
                let e = choose|e: int| 0 <= e < init.len() && #[trigger] has_key(init[e].output@, out) && has_key(init[e].inputs@, k);
                assert(init[e] == df[e]);
            }
        }
    }
}

/// An input returned for an output is read by some assignment.
pub proof fn lemma_inputs_for_read(df: Seq<DataflowEntry>, out: SignalKey, i: SignalKey)
    requires
        has_key(inputs_for(df, out), i),
    ensures
        flow_has(df, true, i),
    decreases df.len(),
{
    let prev = inputs_for(df.drop_last(), out);
    let w = choose|w: int| 0 <= w < inputs_for(df, out).len() && #[trigger] inputs_for(df, out)[w]@ == i;
    if has_key(df.last().output@, out) && w >= prev.len() {
        assert(df.last().inputs@[w - prev.len()]@ == i);
        assert(has_key(entry_part(df[df.len() - 1], true), i));
    } else {
        assert(prev[w]@ == i);
        lemma_inputs_for_read(df.drop_last(), out, i);
        let e = choose|e: int| 0 <= e < df.drop_last().len() && #[trigger] has_key(entry_part(df.drop_last()[e], true), i);
        assert(df.drop_last()[e] == df[e]);
        assert(has_key(entry_part(df[e], true), i));
    }
}

/// Every edge of a static slice follows a dependency of the design: a
/// literal read by the block it enters, or a signal driven by the block it
/// leaves and read by the block it enters.
pub proof fn lemma_static_edges_follow_dataflow(blocks: Seq<Block>, root: SignalKey, e: SliceEdgeView)
    requires
        static_slice_edge(blocks, root, e),
    ensures
        edge_follows_dataflow(blocks, e),
{
    let s = choose|s: SignalKey| reaches(blocks, root, s) && #[trigger] expansion_edge(blocks, s, e);
    let m = choose|m: int| 0 <= m < drivers_of(blocks, s).len() && #[trigger] driver_edge(blocks, s, m, e);
    let d = drivers_of(blocks, s)[m];
    let i = choose|i: SignalKey| has_key(driver_inputs(blocks, s, m), i) && #[trigger] input_edge(blocks, d, i, e);
    lemma_driver_is_block(blocks, s, m);
    let j = choose|j: int| 0 <= j < blocks.len() && #[trigger] blocks[j]@.id == d;
    lemma_inputs_for_read(block_with_id(blocks, d)@.dataflow, s, i);
    assert(reads(blocks, d, i));
    if i.0 != SignalNodeKind::Literal {
        let m2 = choose|m2: int|
            #![trigger drivers_of(blocks, i)[m2]]
            0 <= m2 < drivers_of(blocks, i).len() && drivers_of(blocks, i)[m2] != d && e == (
                block_node(drivers_of(blocks, i)[m2]),
                block_node(d),
                Some(i),
            );
        assert(drivers_of(blocks, i).contains(drivers_of(blocks, i)[m2]));
    }
}

/// Both ends of an edge of a static slice are nodes of it.
pub proof fn lemma_static_edge_ends(blocks: Seq<Block>, root: SignalKey, e: SliceEdgeView)
    requires
        static_slice_edge(blocks, root, e),
    ensures
        static_slice_node(blocks, root, e.0),
        static_slice_node(blocks, root, e.1),
{
    let s = choose|s: SignalKey| reaches(blocks, root, s) && #[trigger] expansion_edge(blocks, s, e);
    let m = choose|m: int| 0 <= m < drivers_of(blocks, s).len() && #[trigger] driver_edge(blocks, s, m, e);
    let d = drivers_of(blocks, s)[m];
    let i = choose|i: SignalKey| has_key(driver_inputs(blocks, s, m), i) && #[trigger] input_edge(blocks, d, i, e);
    assert(driver_node(blocks, s, m, e.1));
    assert(expansion_node(blocks, s, e.1));
    if i.0 == SignalNodeKind::Literal {
        assert(input_node(blocks, d, i, e.0));
    } else {
        let m2 = choose|m2: int|
            #![trigger drivers_of(blocks, i)[m2]]
            0 <= m2 < drivers_of(blocks, i).len() && drivers_of(blocks, i)[m2] != d && e == (
                block_node(drivers_of(blocks, i)[m2]),
                block_node(d),
                Some(i),
            );
        assert(input_node(blocks, d, i, e.0));
    }
    assert(driver_node(blocks, s, m, e.0));
    assert(expansion_node(blocks, s, e.0));
}

/// A static slice can always be written in its stable JSON form: its nodes
/// are distinct and every edge joins two of them, which is what
/// `stable_json_graph` needs to succeed.
pub proof fn lemma_static_slice_is_stable(blocks: Seq<Block>, root: SignalKey, g: StaticSliceGraph)
    requires
        is_static_slice(blocks, root, g),
    ensures
        views_distinct(g.nodes@),
        g.edges_within_nodes(),
{
    assert forall|e: int| 0 <= e < g.edges@.len() implies has_view(g.nodes@, #[trigger] g.edges@[e].from@)
        && has_view(g.nodes@, g.edges@[e].to@) by {
        assert(has_edge_view(g.edges@, g.edges@[e]@));
        lemma_static_edge_ends(blocks, root, g.edges@[e]@);
    }
}

/// Slices a block set along its static dataflow, without times.
#[derive(Debug)]
pub struct StaticSlicer {
    block_set: BlockSet,
}

impl View for StaticSlicer {
    type V = Seq<Block>;

    closed spec fn view(&self) -> Seq<Block> {
        self.block_set@
    }
}

impl StaticSlicer {
    /// The block set this slicer works on.
    pub closed spec fn spec_block_set(&self) -> BlockSet {
        self.block_set
    }

    pub fn new(block_set: BlockSet) -> (r: Self)
        ensures
            r@ == block_set@,
            r.spec_block_set() == block_set,
    {
        StaticSlicer { block_set }
    }

    /// The static slice backwards from the requested signal (or the one
    /// driven signal it is an alias of): every block that drives a transitive
    /// input of it, the literals it reads, and the edges between them.
    pub fn slice(&self, request: &SliceRequest) -> (r: Result<StaticSliceGraph, SvaError>)
        ensures
            r is Ok <==> (drivers_of(self@, request.signal@).len() > 0 || exists|k: SignalKey|
                unique_alias(self@, request.signal@, k)),
            r matches Err(e) ==> (e matches SvaError::SignalNotFound(nf) && nf.signal@ == request.signal.name@
                && top_matches(
                string_views(nf.suggestions@),
                request.signal.name@,
                self.spec_block_set().signal_name_views(),
            )),
            r matches Ok(g) ==> g.target@ == request.signal.name@ && exists|root: SignalKey|
                resolved_root(self@, request.signal@, root) && is_static_slice(self@, root, g),
    {
        let root = match self.block_set.resolve_signal_with_driver(&request.signal) {
            Ok(x) => x,
            Err(e) => {
                return Err(e);
            },
        };
        let blocks = self.block_set.blocks();
        let table = self.block_set.signal_to_drivers();
        proof {
            assert(table_lookup(table@, root@) == drivers_of(blocks@, root@));
        }
        let root_index = match find_entry(table, &root) {
            Some(i) => i,
            None => {
                proof {
                    assert(false);
                }
                return Err(SvaError::DuplicateBlockId);
            },
        };
        let order = reached_order(blocks, table, root_index);
        let ghost rk = root@;
        let mut nodes: Vec<TimedSliceNode> = Vec::new();
        let mut edges: Vec<SliceEdge<TimedSliceNode>> = Vec::new();
        let mut p: usize = 0;
        while p < order.len()
            invariant
                table_correct(table@, blocks@),
                forall|a: int| 0 <= a < order@.len() ==> #[trigger] order@[a] < table@.len(),
                p <= order@.len(),
                views_distinct(nodes@),
                edge_views_distinct(edges@),
                forall|v: SliceNodeView| #[trigger] has_view(nodes@, v) <==> exists|a: int|
                    0 <= a < p && #[trigger] expansion_node(blocks@, table@[order@[a] as int].signal@, v),
                forall|e: SliceEdgeView| #[trigger] has_edge_view(edges@, e) <==> exists|a: int|
                    0 <= a < p && #[trigger] expansion_edge(blocks@, table@[order@[a] as int].signal@, e),
            decreases order@.len() - p,
        {
            let ghost nb = nodes@;
            let ghost eb = edges@;
            collect_signal(blocks, table, order[p], &mut nodes, &mut edges);
            proof {
                assert forall|v: SliceNodeView| #[trigger] has_view(nodes@, v) <==> exists|a: int|
                    0 <= a < p + 1 && #[trigger] expansion_node(blocks@, table@[order@[a] as int].signal@, v) by {
                    if exists|a: int| 0 <= a < p + 1 && #[trigger] expansion_node(blocks@, table@[order@[a] as int].signal@, v) {
                        let a = choose|a: int| 0 <= a < p + 1 && #[trigger] expansion_node(blocks@, table@[order@[a] as int].signal@, v);
                        if a < p {
                            assert(has_view(nb, v));
                        }
                    }
                }
                assert forall|e: SliceEdgeView| #[trigger] has_edge_view(edges@, e) <==> exists|a: int|
                    0 <= a < p + 1 && #[trigger] expansion_edge(blocks@, table@[order@[a] as int].signal@, e) by {
                    if exists|a: int| 0 <= a < p + 1 && #[trigger] expansion_edge(blocks@, table@[order@[a] as int].signal@, e) {
                        let a = choose|a: int| 0 <= a < p + 1 && #[trigger] expansion_edge(blocks@, table@[order@[a] as int].signal@, e);
                        if a < p {
                            assert(has_edge_view(eb, e));
                        }
                    }
                }
            }
            p = p + 1;
        }
        proof {
            assert forall|v: SliceNodeView| #[trigger] has_view(nodes@, v) <==> static_slice_node(blocks@, rk, v) by {
                if has_view(nodes@, v) {
                    let a = choose|a: int| 0 <= a < order@.len() && #[trigger] expansion_node(blocks@, table@[order@[a] as int].signal@, v);
                    assert(reaches(blocks@, rk, table@[order@[a] as int].signal@));
                }
                if static_slice_node(blocks@, rk, v) {
                    let s = choose|s: SignalKey| reaches(blocks@, rk, s) && #[trigger] expansion_node(blocks@, s, v);
                    let m = choose|m: int| 0 <= m < drivers_of(blocks@, s).len() && #[trigger] driver_node(blocks@, s, m, v);
                    let a = choose|a: int| 0 <= a < order@.len() && #[trigger] table@[order@[a] as int].signal@ == s;
                    assert(expansion_node(blocks@, table@[order@[a] as int].signal@, v));
                }
            }
            assert forall|e: SliceEdgeView| #[trigger] has_edge_view(edges@, e) <==> static_slice_edge(blocks@, rk, e) by {
                if has_edge_view(edges@, e) {
                    let a = choose|a: int| 0 <= a < order@.len() && #[trigger] expansion_edge(blocks@, table@[order@[a] as int].signal@, e);
                    assert(reaches(blocks@, rk, table@[order@[a] as int].signal@));
                }
                if static_slice_edge(blocks@, rk, e) {
                    let s = choose|s: SignalKey| reaches(blocks@, rk, s) && #[trigger] expansion_edge(blocks@, s, e);
                    let m = choose|m: int| 0 <= m < drivers_of(blocks@, s).len() && #[trigger] driver_edge(blocks@, s, m, e);
                    let a = choose|a: int| 0 <= a < order@.len() && #[trigger] table@[order@[a] as int].signal@ == s;
                    assert(expansion_edge(blocks@, table@[order@[a] as int].signal@, e));
                }
            }
        }
        let nodes = sort_nodes(nodes);
        let edges = sort_edges(edges);
        let ids = block_ids_of(&nodes);
        proof {
            assert forall|b: u64| #[trigger] ids@.contains(b) <==> static_slice_node(blocks@, rk, block_node(BlockId(b))) by {
                if ids@.contains(b) {
                    let i = choose|i: int| 0 <= i < nodes@.len() && #[trigger] node_block_id(nodes@[i]@) == Some(b);
                    assert(has_view(nodes@, nodes@[i]@));
                    lemma_slice_block_node(blocks@, rk, nodes@[i]@);
                    assert(nodes@[i]@ == block_node(BlockId(b)));
                }
                if static_slice_node(blocks@, rk, block_node(BlockId(b))) {
                    assert(has_view(nodes@, block_node(BlockId(b))));
                    let i = choose|i: int| 0 <= i < nodes@.len() && #[trigger] nodes@[i]@ == block_node(BlockId(b));
                    assert(node_block_id(nodes@[i]@) == Some(b));
                }
            }
            assert forall|k: int| 0 <= k < ids@.len() implies has_block(blocks@, BlockId(#[trigger] ids@[k])) by {
                assert(ids@.contains(ids@[k]));
                lemma_slice_block_node(blocks@, rk, block_node(BlockId(ids@[k])));
            }
        }
        let sblocks = slice_blocks(blocks, &ids);
        let g = SliceGraph {
            target: request.signal.name.clone(),
            start_time: None,
            nodes,
            edges,
            blocks: sblocks,
        };
        proof {
            assert forall|k: int| 0 <= k < g.blocks@.len() implies #[trigger] g.blocks@[k].id == BlockId(ids@[k]) by {
                assert(has_block(blocks@, BlockId(ids@[k])));
                crate::block::set::lemma_has_block_with_id(blocks@, BlockId(ids@[k]));
            }
            assert forall|b: u64| (exists|k: int| 0 <= k < g.blocks@.len() && #[trigger] g.blocks@[k].id.0 == b)
                <==> static_slice_node(blocks@, rk, block_node(BlockId(b))) by {
                if exists|k: int| 0 <= k < g.blocks@.len() && #[trigger] g.blocks@[k].id.0 == b {
                    let k = choose|k: int| 0 <= k < g.blocks@.len() && #[trigger] g.blocks@[k].id.0 == b;
                    assert(g.blocks@[k].id == BlockId(ids@[k]));
                    assert(ids@.contains(b));
                }
                if static_slice_node(blocks@, rk, block_node(BlockId(b))) {
                    assert(ids@.contains(b));
                    let k = choose|k: int| 0 <= k < ids@.len() && ids@[k] == b;
                    assert(g.blocks@[k].id == BlockId(ids@[k]));
                }
            }
            assert forall|a: int, b: int| 0 <= a < b < g.blocks@.len() implies g.blocks@[a].id.0 < g.blocks@[b].id.0 by {
                assert(g.blocks@[a].id == BlockId(ids@[a]));
                assert(g.blocks@[b].id == BlockId(ids@[b]));
            }
            assert forall|k: int| 0 <= k < g.blocks@.len() implies slice_block_of(block_with_id(blocks@, #[trigger] g.blocks@[k].id), g.blocks@[k]) by {
                assert(g.blocks@[k].id == BlockId(ids@[k]));
            }
            assert(is_static_slice(blocks@, rk, g));
            assert(resolved_root(self@, request.signal@, rk));
        }
        Ok(g)
    }
}

impl Slicer for StaticSlicer {
    fn slice(&self, request: &SliceRequest) -> (r: Result<InstructionExecutionPath, SvaError>)
        ensures
            r is Ok <==> (drivers_of(self@, request.signal@).len() > 0 || exists|k: SignalKey|
                unique_alias(self@, request.signal@, k)),
            r matches Err(e) ==> (e matches SvaError::SignalNotFound(nf) && nf.signal@ == request.signal.name@
                && top_matches(
                string_views(nf.suggestions@),
                request.signal.name@,
                self.spec_block_set().signal_name_views(),
            )),
            r matches Ok(g) ==> g.target@ == request.signal.name@ && exists|root: SignalKey|
                resolved_root(self@, request.signal@, root) && is_static_slice(self@, root, g),
    {
        StaticSlicer::slice(self, request)
    }
}

} // verus!
