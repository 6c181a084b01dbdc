use vstd::prelude::*;

pub mod collect;
pub mod blues;
pub mod static_slice;

pub use blues::BluesSlicer;
pub use static_slice::StaticSlicer;

use crate::block::BlockType;
use crate::error::SvaError;
use crate::types::{
    node_json, BlockId, BlockJson as StableBlockJson, SignalKey, SignalNode, SliceNodeView,
    StableSliceEdgeJson, StableSliceGraphJson, StableSliceNode, StableSliceNodeJson, Timestamp,
};


verus! {

/// A request to slice backwards from `signal` at `time`, not earlier than `min_time`.
#[derive(Debug)]
pub struct SliceRequest {
    pub signal: SignalNode,
    pub time: Timestamp,
    pub min_time: Timestamp,
}

/// A dependency edge: `from` feeds `to` through `signal` (none for a literal).
#[derive(Debug)]
pub struct SliceEdge<TNode> {
    pub from: TNode,
    pub to: TNode,
    pub signal: Option<SignalNode>,
}

/// The identity of an edge: its two nodes and the signal it carries.
pub type SliceEdgeView = (SliceNodeView, SliceNodeView, Option<SignalKey>);

pub open spec fn signal_opt_view(s: Option<SignalNode>) -> Option<SignalKey> {
    match s {
        Some(s) => Some(s@),
        None => None,
    }
}

impl View for SliceEdge<TimedSliceNode> {
    type V = SliceEdgeView;

    open spec fn view(&self) -> SliceEdgeView {
        (self.from@, self.to@, signal_opt_view(self.signal))
    }
}

/// Whether some edge of `edges` has identity `e`.
pub open spec fn has_edge_view(edges: Seq<SliceEdge<TimedSliceNode>>, e: SliceEdgeView) -> bool {
    exists|i: int| 0 <= i < edges.len() && #[trigger] edges[i]@ == e
}

/// No two edges share an identity.
pub open spec fn edge_views_distinct(edges: Seq<SliceEdge<TimedSliceNode>>) -> bool {
    forall|i: int, j: int| 0 <= i < j < edges.len() ==> edges[i]@ != edges[j]@
}

/// Metadata of a block that a slice passes through.
#[derive(Debug)]
pub struct SliceBlock {
    pub id: BlockId,
    pub scope: String,
    pub block_type: String,
    pub source_file: String,
    pub line_start: usize,
    pub line_end: usize,
    pub ast_line_start: usize,
    pub ast_line_end: usize,
    pub code_snippet: String,
}

/// The result of a slice: nodes, dependency edges and the blocks involved.
#[derive(Debug)]
pub struct SliceGraph<TNode> {
    pub target: String,
    pub start_time: Option<Timestamp>,
    pub nodes: Vec<TNode>,
    pub edges: Vec<SliceEdge<TNode>>,
    pub blocks: Vec<SliceBlock>,
}

pub type StaticBlockNode = crate::types::TimedSliceNode;

pub type TimedSliceNode = crate::types::TimedSliceNode;

pub type StaticBlockEdge = SliceEdge<TimedSliceNode>;

pub type StaticBlockJson = SliceBlock;

pub type StaticSliceGraph = SliceGraph<TimedSliceNode>;

pub type BlockEdgeJson = SliceEdge<TimedSliceNode>;

pub type BlockJson = SliceBlock;

pub type InstructionExecutionPath = SliceGraph<TimedSliceNode>;

/// Something that slices a design backwards from a signal.
pub trait Slicer {
    fn slice(&self, request: &SliceRequest) -> Result<InstructionExecutionPath, SvaError>;
}

/// The name a block type is written with.
pub open spec fn block_type_text(t: BlockType) -> Seq<char> {
    match t {
        BlockType::ModInput => "ModInput"@,
        BlockType::ModOutput => "ModOutput"@,
        BlockType::Always => "Always"@,
        BlockType::Assign => "Assign"@,
    }
}

pub fn block_type_name(t: BlockType) -> (r: &'static str)
    ensures
        r@ == block_type_text(t),
{
    match t {
        BlockType::ModInput => "ModInput",
        BlockType::ModOutput => "ModOutput",
        BlockType::Always => "Always",
        BlockType::Assign => "Assign",
    }
}

/// Position of the first node of `nodes` whose identity is `v`.
pub open spec fn first_with_view(nodes: Seq<TimedSliceNode>, v: SliceNodeView) -> int {
    choose|i: int| 0 <= i < nodes.len() && nodes[i]@ == v && forall|j: int| 0 <= j < i ==> nodes[j]@ != v
}

/// No two nodes share an identity.
pub open spec fn views_distinct(nodes: Seq<TimedSliceNode>) -> bool {
    forall|i: int, j: int| 0 <= i < j < nodes.len() ==> nodes[i]@ != nodes[j]@
}

/// The first position whose node repeats an earlier one.
pub open spec fn first_repeat(nodes: Seq<TimedSliceNode>, j: int) -> bool {
    &&& 0 <= j < nodes.len()
    &&& exists|i: int| 0 <= i < j && nodes[i]@ == nodes[j]@
    &&& forall|a: int, b: int| 0 <= a < b < j ==> nodes[a]@ != nodes[b]@
}

/// Whether some node of `nodes` has identity `v`.
pub open spec fn has_view(nodes: Seq<TimedSliceNode>, v: SliceNodeView) -> bool {
    exists|i: int| 0 <= i < nodes.len() && #[trigger] nodes[i]@ == v
}

pub(crate) fn index_of_view(nodes: &Vec<TimedSliceNode>, key: &crate::types::StableSliceNodeKey, upto: usize) -> (r: Option<usize>)
    requires
        upto <= nodes@.len(),
    ensures
        match r {
            Some(i) => i < upto && nodes@[i as int]@ == key@ && forall|j: int| 0 <= j < i ==> nodes@[j]@ != key@,
            None => forall|j: int| 0 <= j < upto ==> nodes@[j]@ != key@,
        },
{
    let mut i: usize = 0;
    while i < upto
        invariant
            upto <= nodes@.len(),
            i <= upto,
            forall|j: int| 0 <= j < i ==> nodes@[j]@ != key@,
        decreases upto - i,
    {
        if same_node(&nodes[i], key) {
            return Some(i);
        }
        i = i + 1;
    }
    None
}

/// Whether a node has the identity `key`.
pub fn same_node(n: &TimedSliceNode, key: &crate::types::StableSliceNodeKey) -> (r: bool)
    ensures
        r == (n@ == key@),
{
    match (n, key) {
        (
            TimedSliceNode::Block { block_id, time },
            crate::types::StableSliceNodeKey::Block { block_id: b2, time: t2 },
        ) => block_id.0 == b2.0 && same_time(*time, *t2),
        (
            TimedSliceNode::Literal { signal, time },
            crate::types::StableSliceNodeKey::Literal { signal: s2, time: t2 },
        ) => *signal == *s2 && same_time(*time, *t2),
        _ => false,
    }
}

pub fn same_time(a: Option<Timestamp>, b: Option<Timestamp>) -> (r: bool)
    ensures
        r == (crate::types::time_view(a) == crate::types::time_view(b)),
{
    match (a, b) {
        (Some(x), Some(y)) => x.0 == y.0,
        (None, None) => true,
        _ => false,
    }
}

pub fn clone_signal_opt(s: &Option<SignalNode>) -> (r: Option<SignalNode>)
    ensures
        r == *s,
{
    match s {
        Some(x) => Some(x.clone()),
        None => None,
    }
}

impl SliceGraph<TimedSliceNode> {
    /// Every edge joins two nodes of the graph.
    pub open spec fn edges_within_nodes(&self) -> bool {
        forall|e: int|
            0 <= e < self.edges@.len() ==> has_view(self.nodes@, #[trigger] self.edges@[e].from@)
                && has_view(self.nodes@, self.edges@[e].to@)
    }

    /// `g` is this graph with nodes numbered by position and edges referring
    /// to those numbers.
    pub open spec fn stable_form(&self, g: StableSliceGraphJson) -> bool {
        &&& g.target@ == self.target@
        &&& g.start_time == self.start_time
        &&& g.nodes@.len() == self.nodes@.len()
        &&& forall|i: int| 0 <= i < self.nodes@.len() ==> #[trigger] g.nodes@[i] == node_json(self.nodes@[i], i as usize)
        &&& g.edges@.len() == self.edges@.len()
        &&& forall|e: int|
            0 <= e < self.edges@.len() ==> {
                &&& #[trigger] g.edges@[e].from < self.nodes@.len()
                &&& g.edges@[e].to < self.nodes@.len()
                &&& self.nodes@[g.edges@[e].from as int]@ == self.edges@[e].from@
                &&& self.nodes@[g.edges@[e].to as int]@ == self.edges@[e].to@
                &&& g.edges@[e].signal == self.edges@[e].signal
            }
        &&& g.blocks@.len() == self.blocks@.len()
        &&& forall|b: int| 0 <= b < self.blocks@.len() ==> slice_block_json(#[trigger] self.blocks@[b], g.blocks@[b])
    }

    /// The graph with nodes numbered by position and edges referring to those
    /// numbers; fails on the first node that repeats an earlier one.
    pub fn stable_json_graph(&self) -> (r: Result<StableSliceGraphJson, SvaError>)
        requires
            self.edges_within_nodes(),
        ensures
            r is Ok <==> views_distinct(self.nodes@),
            r matches Err(e) ==> (e matches SvaError::DuplicateSliceNode(k) && exists|j: int|
                first_repeat(self.nodes@, j) && k@ == #[trigger] self.nodes@[j]@),
            r matches Ok(g) ==> self.stable_form(g),
    {
        let mut i: usize = 0;
        while i < self.nodes.len()
            invariant
                i <= self.nodes@.len(),
                forall|a: int, b: int| 0 <= a < b < i ==> self.nodes@[a]@ != self.nodes@[b]@,
            decreases self.nodes@.len() - i,
        {
            let key = self.nodes[i].stable_key();
            if let Some(prev) = index_of_view(&self.nodes, &key, i) {
                proof {
                    assert(first_repeat(self.nodes@, i as int));
                }
                return Err(SvaError::DuplicateSliceNode(key));
            }
            i = i + 1;
        }
        let mut nodes: Vec<StableSliceNodeJson> = Vec::new();
        let mut n: usize = 0;
        while n < self.nodes.len()
            invariant
                n <= self.nodes@.len(),
                nodes@.len() == n,
                forall|a: int| 0 <= a < n ==> #[trigger] nodes@[a] == node_json(self.nodes@[a], a as usize),
            decreases self.nodes@.len() - n,
        {
            nodes.push(self.nodes[n].stable_json(n));
            n = n + 1;
        }
        let mut edges: Vec<StableSliceEdgeJson> = Vec::new();
        let mut e: usize = 0;
        while e < self.edges.len()
            invariant
                views_distinct(self.nodes@),
                self.edges_within_nodes(),
                e <= self.edges@.len(),
                edges@.len() == e,
                forall|x: int|
                    0 <= x < e ==> {
                        &&& #[trigger] edges@[x].from < self.nodes@.len()
                        &&& edges@[x].to < self.nodes@.len()
                        &&& self.nodes@[edges@[x].from as int]@ == self.edges@[x].from@
                        &&& self.nodes@[edges@[x].to as int]@ == self.edges@[x].to@
                        &&& edges@[x].signal == self.edges@[x].signal
                    },
            decreases self.edges@.len() - e,
        {
            let edge = &self.edges[e];
            let from_key = edge.from.stable_key();
            let to_key = edge.to.stable_key();
            let from = index_of_view(&self.nodes, &from_key, self.nodes.len());
            let to = index_of_view(&self.nodes, &to_key, self.nodes.len());
            proof {
                assert(has_view(self.nodes@, self.edges@[e as int].from@));
                assert(has_view(self.nodes@, self.edges@[e as int].to@));
            }
            let from = from.unwrap();
            let to = to.unwrap();
            edges.push(StableSliceEdgeJson { from, to, signal: clone_signal_opt(&edge.signal) });
            e = e + 1;
        }
        let mut blocks: Vec<StableBlockJson> = Vec::new();
        let mut b: usize = 0;
        while b < self.blocks.len()
            invariant
                b <= self.blocks@.len(),
                blocks@.len() == b,
                forall|x: int| 0 <= x < b ==> slice_block_json(#[trigger] self.blocks@[x], blocks@[x]),
            decreases self.blocks@.len() - b,
        {
            let block = &self.blocks[b];
            blocks.push(
                StableBlockJson {
                    id: block.id,
                    scope: block.scope.clone(),
                    block_type: block.block_type.clone(),
                    source_file: block.source_file.clone(),
                    line_start: block.line_start,
                    line_end: block.line_end,
                    ast_line_start: block.ast_line_start,
                    ast_line_end: block.ast_line_end,
                    code_snippet: block.code_snippet.clone(),
                },
            );
            b = b + 1;
        }
        Ok(
            StableSliceGraphJson {
                target: self.target.clone(),
                start_time: self.start_time,
                nodes,
                edges,
                blocks,
            },
        )
    }
}

/// `j` carries the same metadata as `s`.
pub open spec fn slice_block_json(s: SliceBlock, j: StableBlockJson) -> bool {
    &&& j.id == s.id
    &&& j.scope@ == s.scope@
    &&& j.block_type@ == s.block_type@
    &&& j.source_file@ == s.source_file@
    &&& j.line_start == s.line_start
    &&& j.line_end == s.line_end
    &&& j.ast_line_start == s.ast_line_start
    &&& j.ast_line_end == s.ast_line_end
    &&& j.code_snippet@ == s.code_snippet@
}

} // verus!
