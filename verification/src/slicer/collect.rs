use vstd::prelude::*;

use crate::block::set::{block_with_id, find_block, has_block};
use crate::block::Block;
use crate::debug_text::{append_edge_debug, append_node_debug, edge_debug, node_debug};
use crate::order::{
    key_views, keyed_lt, lemma_seq_lt_asymmetric, lemma_seq_lt_irreflexive, push_text_key, seq_lt,
    sort_perm, sorted_perm, text_key,
};
use crate::slicer::{
    block_type_name, block_type_text, edge_views_distinct, has_edge_view, has_view,
    index_of_view, signal_opt_view, views_distinct, SliceBlock, SliceEdge, SliceEdgeView,
};
use crate::types::{BlockId, SignalNode, SliceNodeView, StableSliceNode, TimedSliceNode};

verus! {

// Building the node, edge and block lists of a slice graph: each identity
// once, then in the order of their Debug text.

/// Whether two nodes have the same identity.
pub fn same_node_view(a: &TimedSliceNode, b: &TimedSliceNode) -> (r: bool)
    ensures
        r == (a@ == b@),
{
    let key = b.stable_key();
    crate::slicer::same_node(a, &key)
}

/// Whether two optional signals are the same signal (or both absent).
pub fn same_signal_opt(a: &Option<SignalNode>, b: &Option<SignalNode>) -> (r: bool)
    ensures
        r == (signal_opt_view(*a) == signal_opt_view(*b)),
{
    match (a, b) {
        (Some(x), Some(y)) => *x == *y,
        (None, None) => true,
        _ => false,
    }
}

/// Adds `n` unless a node with its identity is already there.
pub fn add_node(nodes: &mut Vec<TimedSliceNode>, n: TimedSliceNode)
    requires
        views_distinct(old(nodes)@),
    ensures
        views_distinct(final(nodes)@),
        forall|v: SliceNodeView| #[trigger] has_view(final(nodes)@, v) <==> (has_view(old(nodes)@, v) || v == n@),
{
    let key = n.stable_key();
    let len = nodes.len();
    match index_of_view(nodes, &key, len) {
        Some(i) => {
            proof {
                assert forall|v: SliceNodeView| #[trigger] has_view(nodes@, v) <==> (has_view(nodes@, v) || v == n@) by {
                    if v == n@ {
                        assert(nodes@[i as int]@ == v);
                    }
                }
            }
        },
        None => {
            let ghost before = nodes@;
            nodes.push(n);
            proof {
                assert forall|v: SliceNodeView| #[trigger] has_view(nodes@, v) <==> (has_view(before, v) || v == n@) by {
                    if has_view(nodes@, v) {
                        let w = choose|w: int| 0 <= w < nodes@.len() && #[trigger] nodes@[w]@ == v;
                        if w < before.len() {
                            assert(before[w]@ == v);
                        }
                    }
                    if has_view(before, v) {
                        let w = choose|w: int| 0 <= w < before.len() && #[trigger] before[w]@ == v;
                        assert(nodes@[w]@ == v);
                    }
                    if v == n@ {
                        assert(nodes@[before.len() as int]@ == v);
                    }
                }
            }
        },
    }
}

/// Adds `e` unless an edge with its identity is already there.
pub fn add_edge(edges: &mut Vec<SliceEdge<TimedSliceNode>>, e: SliceEdge<TimedSliceNode>)
    requires
        edge_views_distinct(old(edges)@),
    ensures
        edge_views_distinct(final(edges)@),
        forall|x: SliceEdgeView| #[trigger] has_edge_view(final(edges)@, x) <==> (has_edge_view(old(edges)@, x) || x == e@),
{
    let ghost before = edges@;
    let mut i: usize = 0;
    while i < edges.len()
        invariant
            edges@ == before,
            edge_views_distinct(before),
            i <= edges@.len(),
            forall|a: int| 0 <= a < i ==> edges@[a]@ != e@,
        decreases edges@.len() - i,
    {
        if same_node_view(&edges[i].from, &e.from) && same_node_view(&edges[i].to, &e.to)
            && same_signal_opt(&edges[i].signal, &e.signal) {
            proof {
                assert forall|x: SliceEdgeView| #[trigger] has_edge_view(edges@, x) <==> (has_edge_view(before, x) || x == e@) by {
                    if x == e@ {
                        assert(edges@[i as int]@ == x);
                    }
                }
            }
            return;
        }
        i = i + 1;
    }
    edges.push(e);
    proof {
        assert forall|x: SliceEdgeView| #[trigger] has_edge_view(edges@, x) <==> (has_edge_view(before, x) || x == e@) by {
            if has_edge_view(edges@, x) {
                let w = choose|w: int| 0 <= w < edges@.len() && #[trigger] edges@[w]@ == x;
                if w < before.len() {
                    assert(before[w]@ == x);
                }
            }
            if has_edge_view(before, x) {
                let w = choose|w: int| 0 <= w < before.len() && #[trigger] before[w]@ == x;
                assert(edges@[w]@ == x);
            }
            if x == e@ {
                assert(edges@[before.len() as int]@ == x);
            }
        }
    }
}

/// The sort key of a node: its Debug text.
pub open spec fn node_key(n: TimedSliceNode) -> Seq<u64> {
    text_key(node_debug(n))
}

/// The sort key of an edge: the Debug text of its `(from, to, signal)` triple.
pub open spec fn edge_key(e: SliceEdge<TimedSliceNode>) -> Seq<u64> {
    text_key(edge_debug(e.from, e.to, e.signal))
}

/// Each later node's key is not below an earlier one's.
pub open spec fn nodes_in_key_order(nodes: Seq<TimedSliceNode>) -> bool {
    forall|a: int, b: int| 0 <= a < b < nodes.len() ==> !seq_lt(#[trigger] node_key(nodes[b]), #[trigger] node_key(nodes[a]))
}

/// Each later edge's key is not below an earlier one's.
pub open spec fn edges_in_key_order(edges: Seq<SliceEdge<TimedSliceNode>>) -> bool {
    forall|a: int, b: int| 0 <= a < b < edges.len() ==> !seq_lt(#[trigger] edge_key(edges[b]), #[trigger] edge_key(edges[a]))
}

proof fn lemma_keyed_not_lt(ka: Seq<u64>, ia: int, kb: Seq<u64>, ib: int)
    requires
        keyed_lt(ka, ia, kb, ib),
    ensures
        !seq_lt(kb, ka),
{
    if seq_lt(ka, kb) {
        lemma_seq_lt_asymmetric(ka, kb);
    } else {
        lemma_seq_lt_irreflexive(ka);
    }
}

/// The nodes in the order of their Debug text (ties keep their order).
pub fn sort_nodes(nodes: Vec<TimedSliceNode>) -> (r: Vec<TimedSliceNode>)
    requires
        views_distinct(nodes@),
    ensures
        r@.len() == nodes@.len(),
        views_distinct(r@),
        forall|v: SliceNodeView| #[trigger] has_view(r@, v) <==> has_view(nodes@, v),
        nodes_in_key_order(r@),
{
    let mut keys: Vec<Vec<u64>> = Vec::new();
    let mut i: usize = 0;
    while i < nodes.len()
        invariant
            i <= nodes@.len(),
            keys@.len() == i,
            forall|a: int| 0 <= a < i ==> #[trigger] keys@[a]@ == node_key(nodes@[a]),
        decreases nodes@.len() - i,
    {
        let mut text: Vec<char> = Vec::new();
        append_node_debug(&mut text, &nodes[i]);
        let mut key: Vec<u64> = Vec::new();
        push_text_key(&mut key, text.as_slice());
        proof {
            assert(key@ =~= node_key(nodes@[i as int]));
        }
        keys.push(key);
        i = i + 1;
    }
    let perm = sort_perm(&keys);
    proof {
        assert(sorted_perm(perm@, key_views(keys@)));
    }
    let mut out: Vec<TimedSliceNode> = Vec::new();
    let mut k: usize = 0;
    while k < perm.len()
        invariant
            perm@.len() == nodes@.len(),
            keys@.len() == nodes@.len(),
            forall|a: int| 0 <= a < perm@.len() ==> #[trigger] perm@[a] < nodes@.len(),
            k <= perm@.len(),
            out@.len() == k,
            forall|a: int| 0 <= a < k ==> #[trigger] out@[a] == nodes@[perm@[a] as int],
        decreases perm@.len() - k,
    {
        out.push(nodes[perm[k]].clone());
        k = k + 1;
    }
    proof {
        let kv = key_views(keys@);
        assert forall|v: SliceNodeView| #[trigger] has_view(out@, v) <==> has_view(nodes@, v) by {
            if has_view(out@, v) {
                let w = choose|w: int| 0 <= w < out@.len() && #[trigger] out@[w]@ == v;
                assert(nodes@[perm@[w] as int]@ == v);
            }
            if has_view(nodes@, v) {
                let w = choose|w: int| 0 <= w < nodes@.len() && #[trigger] nodes@[w]@ == v;
                assert(perm@.contains(w as usize));
                let b = choose|b: int| 0 <= b < perm@.len() && perm@[b] == w as usize;
                assert(out@[b]@ == v);
            }
        }
        assert forall|a: int, b: int| 0 <= a < b < out@.len() implies out@[a]@ != out@[b]@ by {
            let pa = perm@[a] as int;
            let pb = perm@[b] as int;
            assert(pa != pb);
            if pa < pb {
                assert(nodes@[pa]@ != nodes@[pb]@);
            } else {
                assert(nodes@[pb]@ != nodes@[pa]@);
            }
        }
        assert forall|a: int, b: int| 0 <= a < b < out@.len() implies !seq_lt(#[trigger] node_key(out@[b]), #[trigger] node_key(out@[a])) by {
            assert(keyed_lt(kv[perm@[a] as int], perm@[a] as int, kv[perm@[b] as int], perm@[b] as int));
            assert(kv[perm@[a] as int] == keys@[perm@[a] as int]@);
            assert(kv[perm@[b] as int] == keys@[perm@[b] as int]@);
            lemma_keyed_not_lt(kv[perm@[a] as int], perm@[a] as int, kv[perm@[b] as int], perm@[b] as int);
        }
    }
    out
}

fn clone_edge(e: &SliceEdge<TimedSliceNode>) -> (r: SliceEdge<TimedSliceNode>)
    ensures
        r == *e,
{
    SliceEdge {
        from: e.from.clone(),
        to: e.to.clone(),
        signal: crate::slicer::clone_signal_opt(&e.signal),
    }
}

/// The edges in the order of their Debug text (ties keep their order).
pub fn sort_edges(edges: Vec<SliceEdge<TimedSliceNode>>) -> (r: Vec<SliceEdge<TimedSliceNode>>)
    requires
        edge_views_distinct(edges@),
    ensures
        r@.len() == edges@.len(),
        edge_views_distinct(r@),
        forall|x: SliceEdgeView| #[trigger] has_edge_view(r@, x) <==> has_edge_view(edges@, x),
        edges_in_key_order(r@),
{
    let mut keys: Vec<Vec<u64>> = Vec::new();
    let mut i: usize = 0;
    while i < edges.len()
        invariant
            i <= edges@.len(),
            keys@.len() == i,
            forall|a: int| 0 <= a < i ==> #[trigger] keys@[a]@ == edge_key(edges@[a]),
        decreases edges@.len() - i,
    {
        let mut text: Vec<char> = Vec::new();
        append_edge_debug(&mut text, &edges[i].from, &edges[i].to, &edges[i].signal);
        let mut key: Vec<u64> = Vec::new();
        push_text_key(&mut key, text.as_slice());
        proof {
            assert(key@ =~= edge_key(edges@[i as int]));
        }
        keys.push(key);
        i = i + 1;
    }
    let perm = sort_perm(&keys);
    let mut out: Vec<SliceEdge<TimedSliceNode>> = Vec::new();
    let mut k: usize = 0;
    while k < perm.len()
        invariant
            perm@.len() == edges@.len(),
            keys@.len() == edges@.len(),
            forall|a: int| 0 <= a < perm@.len() ==> #[trigger] perm@[a] < edges@.len(),
            k <= perm@.len(),
            out@.len() == k,
            forall|a: int| 0 <= a < k ==> #[trigger] out@[a] == edges@[perm@[a] as int],
        decreases perm@.len() - k,
    {
        out.push(clone_edge(&edges[perm[k]]));
        k = k + 1;
    }
    proof {
        let kv = key_views(keys@);
        assert forall|x: SliceEdgeView| #[trigger] has_edge_view(out@, x) <==> has_edge_view(edges@, x) by {
            if has_edge_view(out@, x) {
                let w = choose|w: int| 0 <= w < out@.len() && #[trigger] out@[w]@ == x;
                assert(edges@[perm@[w] as int]@ == x);
            }
            if has_edge_view(edges@, x) {
                let w = choose|w: int| 0 <= w < edges@.len() && #[trigger] edges@[w]@ == x;
                assert(perm@.contains(w as usize));
                let b = choose|b: int| 0 <= b < perm@.len() && perm@[b] == w as usize;
                assert(out@[b]@ == x);
            }
        }
        assert forall|a: int, b: int| 0 <= a < b < out@.len() implies out@[a]@ != out@[b]@ by {
            let pa = perm@[a] as int;
            let pb = perm@[b] as int;
            assert(pa != pb);
            if pa < pb {
                assert(edges@[pa]@ != edges@[pb]@);
            } else {
                assert(edges@[pb]@ != edges@[pa]@);
            }
        }
        assert forall|a: int, b: int| 0 <= a < b < out@.len() implies !seq_lt(#[trigger] edge_key(out@[b]), #[trigger] edge_key(out@[a])) by {
            assert(keyed_lt(kv[perm@[a] as int], perm@[a] as int, kv[perm@[b] as int], perm@[b] as int));
            assert(kv[perm@[a] as int] == keys@[perm@[a] as int]@);
            assert(kv[perm@[b] as int] == keys@[perm@[b] as int]@);
            lemma_keyed_not_lt(kv[perm@[a] as int], perm@[a] as int, kv[perm@[b] as int], perm@[b] as int);
        }
    }
    out
}

/// The block a node stands for, if it is a block node.
pub open spec fn node_block_id(v: SliceNodeView) -> Option<u64> {
    match v {
        SliceNodeView::BlockAt { block_id, .. } => Some(block_id),
        SliceNodeView::LiteralAt { .. } => None,
    }
}

/// Whether some node of `nodes` is the block `b` (at any time).
pub open spec fn has_block_node(nodes: Seq<TimedSliceNode>, b: u64) -> bool {
    exists|i: int| 0 <= i < nodes.len() && #[trigger] node_block_id(nodes[i]@) == Some(b)
}

/// Strictly ascending.
pub open spec fn ascending(ids: Seq<u64>) -> bool {
    forall|a: int, b: int| 0 <= a < b < ids.len() ==> ids[a] < ids[b]
}

/// Inserts `id` into the ascending list `ids`, unless it is there already.
fn insert_sorted(ids: &mut Vec<u64>, id: u64)
    requires
        ascending(old(ids)@),
    ensures
        ascending(final(ids)@),
        forall|b: u64| #[trigger] final(ids)@.contains(b) <==> (old(ids)@.contains(b) || b == id),
{
    let ghost before = ids@;
    let mut p: usize = 0;
    while p < ids.len() && ids[p] < id
        invariant
            ids@ == before,
            p <= ids@.len(),
            forall|a: int| 0 <= a < p ==> ids@[a] < id,
        decreases ids@.len() - p,
    {
        p = p + 1;
    }
    if p < ids.len() && ids[p] == id {
        return;
    }
    ids.insert(p, id);
    proof {
        assert forall|a: int, b: int| 0 <= a < b < ids@.len() implies ids@[a] < ids@[b] by {
            if a < p && b == p {
            } else if a == p && b > p {
                assert(ids@[b] == before[b - 1]);
                assert(before[p as int] >= id);
                if b - 1 > p {
                    assert(before[p as int] < before[b - 1]);
                }
            } else if a < p && b > p {
                assert(ids@[b] == before[b - 1]);
            } else if b < p {
            } else {
                assert(ids@[a] == before[a - 1]);
                assert(ids@[b] == before[b - 1]);
            }
        }
        assert forall|b: u64| #[trigger] ids@.contains(b) <==> (before.contains(b) || b == id) by {
            if ids@.contains(b) {
                let w = choose|w: int| 0 <= w < ids@.len() && ids@[w] == b;
                if w < p {
                    assert(before[w] == b);
                } else if w > p {
                    assert(before[w - 1] == b);
                }
            }
            if before.contains(b) {
                let w = choose|w: int| 0 <= w < before.len() && before[w] == b;
                if w < p {
                    assert(ids@[w] == b);
                } else {
                    assert(ids@[w + 1] == b);
                }
            }
            if b == id {
                assert(ids@[p as int] == b);
            }
        }
    }
}

/// The ids of the blocks among `nodes`, each once, ascending.
pub fn block_ids_of(nodes: &Vec<TimedSliceNode>) -> (r: Vec<u64>)
    ensures
        ascending(r@),
        forall|b: u64| #[trigger] r@.contains(b) <==> has_block_node(nodes@, b),
{
    let mut ids: Vec<u64> = Vec::new();
    let mut i: usize = 0;
    while i < nodes.len()
        invariant
            i <= nodes@.len(),
            ascending(ids@),
            forall|b: u64| #[trigger] ids@.contains(b) <==> has_block_node(nodes@.subrange(0, i as int), b),
        decreases nodes@.len() - i,
    {
        let ghost before = ids@;
        match &nodes[i] {
            TimedSliceNode::Block { block_id, .. } => {
                insert_sorted(&mut ids, block_id.0);
                proof {
                    assert(node_block_id(nodes@[i as int]@) == Some(block_id.0));
                }
            },
            TimedSliceNode::Literal { .. } => {},
        }
        proof {
            let pre = nodes@.subrange(0, i as int);
            let cur = nodes@.subrange(0, i + 1);
            assert forall|b: u64| #[trigger] ids@.contains(b) <==> has_block_node(cur, b) by {
                if has_block_node(cur, b) {
                    let w = choose|w: int| 0 <= w < cur.len() && #[trigger] node_block_id(cur[w]@) == Some(b);
                    if w < i {
                        assert(pre[w] == cur[w]);
                        assert(has_block_node(pre, b));
                    }
                }
                if has_block_node(pre, b) {
                    let w = choose|w: int| 0 <= w < pre.len() && #[trigger] node_block_id(pre[w]@) == Some(b);
                    assert(cur[w] == pre[w]);
                    assert(has_block_node(cur, b));
                }
                if ids@.contains(b) && !before.contains(b) {
                    assert(cur[i as int] == nodes@[i as int]);
                    assert(node_block_id(cur[i as int]@) == Some(b));
                    assert(has_block_node(cur, b));
                }
            }
        }
        i = i + 1;
    }
    proof {
        assert(nodes@.subrange(0, nodes@.len() as int) =~= nodes@);
    }
    ids
}

/// `s` describes the block `b`.
pub open spec fn slice_block_of(b: Block, s: SliceBlock) -> bool {
    &&& s.id == b@.id
    &&& s.scope@ == b@.module_scope
    &&& s.block_type@ == block_type_text(b@.block_type)
    &&& s.source_file@ == b@.source_file
    &&& s.line_start == b@.line_start
    &&& s.line_end == b@.line_end
    &&& s.ast_line_start == b@.ast_line_start
    &&& s.ast_line_end == b@.ast_line_end
    &&& s.code_snippet@ == b@.code_snippet
}

/// The metadata of a block.
pub fn slice_block(b: &Block) -> (r: SliceBlock)
    ensures
        slice_block_of(*b, r),
{
    SliceBlock {
        id: b.id(),
        scope: b.module_scope().to_owned(),
        block_type: block_type_name(b.block_type()).to_owned(),
        source_file: b.source_file().to_owned(),
        line_start: b.line_start(),
        line_end: b.line_end(),
        ast_line_start: b.ast_line_start(),
        ast_line_end: b.ast_line_end(),
        code_snippet: b.code_snippet().to_owned(),
    }
}

/// The metadata of the blocks with the ids `ids`, in that order.
pub fn slice_blocks(blocks: &Vec<Block>, ids: &Vec<u64>) -> (r: Vec<SliceBlock>)
    requires
        forall|k: int| 0 <= k < ids@.len() ==> has_block(blocks@, BlockId(#[trigger] ids@[k])),
    ensures
        r@.len() == ids@.len(),
        forall|k: int| 0 <= k < ids@.len() ==> slice_block_of(block_with_id(blocks@, BlockId(ids@[k])), #[trigger] r@[k]),
{
    let mut out: Vec<SliceBlock> = Vec::new();
    let mut k: usize = 0;
    while k < ids.len()
        invariant
            forall|k: int| 0 <= k < ids@.len() ==> has_block(blocks@, BlockId(#[trigger] ids@[k])),
            k <= ids@.len(),
            out@.len() == k,
            forall|a: int| 0 <= a < k ==> slice_block_of(block_with_id(blocks@, BlockId(ids@[a])), #[trigger] out@[a]),
        decreases ids@.len() - k,
    {
        let id = BlockId(ids[k]);
        proof {
            assert(has_block(blocks@, BlockId(ids@[k as int])));
        }
        match find_block(blocks, id) {
            Some(j) => {
                proof {
                    crate::block::set::lemma_block_with_id(blocks@, j as int);
                }
                out.push(slice_block(&blocks[j]));
            },
            None => {
                proof {
                    let j = choose|j: int| 0 <= j < blocks@.len() && #[trigger] blocks@[j]@.id == id;
                    assert(blocks@[j]@.id != id);
                }
            },
        }
        k = k + 1;
    }
    out
}

} // verus!
