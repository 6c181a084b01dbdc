use vstd::prelude::*;

use std::collections::HashSet;

use vstd::std_specs::cmp::PartialEqSpecImpl;

use crate::debug_text::{append_chars, append_str};
use crate::error::{string_views, SvaError};
use crate::order::{
    i64_key, i64_to_key, key_views, lemma_sorted_perm_unique, push_text_key, sort_perm, sorted_perm, text_key,
};
use crate::slicer::same_time;
use crate::text::{
    after_last, after_last_char, chars_of, contains_chars, contains_text, decimal, ends_with, i64_decimal,
    lines_of, signed_decimal, slice_chars, spec_ends_with, split_char, split_chars, string_of, text_lines,
    u64_decimal, views_of,
};
use crate::types::{
    time_view, BlockId, BlockJson, SignalNode, SliceNodeView, StableSliceEdgeJson, StableSliceGraphJson,
    StableSliceNodeJson, Timestamp,
};

verus! {

broadcast use vstd::std_specs::hash::group_hash_axioms;

/// The text of an optional string.
pub open spec fn text_opt(s: Option<String>) -> Option<Seq<char>> {
    match s {
        Some(x) => Some(x@),
        None => None,
    }
}

pub fn clone_text_opt(s: &Option<String>) -> (r: Option<String>)
    ensures
        r == *s,
{
    match s {
        Some(x) => Some(x.clone()),
        None => None,
    }
}

/// Whether two optional strings hold the same text.
pub fn text_opt_eq(a: &Option<String>, b: &Option<String>) -> (r: bool)
    ensures
        r == (text_opt(*a) == text_opt(*b)),
{
    match (a, b) {
        (Some(x), Some(y)) => *x == *y,
        (None, None) => true,
        _ => false,
    }
}

/// A row of the dependency tree: the node an edge comes from and the signal
/// the edge carries.
#[derive(Debug)]
pub struct ChildEntry {
    pub node_id: usize,
    pub incoming_signal: Option<String>,
}

pub type EntryView = (usize, Option<Seq<char>>);

impl View for ChildEntry {
    type V = EntryView;

    open spec fn view(&self) -> EntryView {
        (self.node_id, text_opt(self.incoming_signal))
    }
}

impl Clone for ChildEntry {
    fn clone(&self) -> (r: Self)
        ensures
            r == *self,
    {
        ChildEntry { node_id: self.node_id, incoming_signal: clone_text_opt(&self.incoming_signal) }
    }
}

/// What tells two rows of the tree apart: the slice node they show and the
/// signal they were reached through.
#[derive(Debug)]
pub enum NodeIdentity {
    Block { block_id: BlockId, time: Option<Timestamp>, incoming_signal: Option<String> },
    Literal { signal: SignalNode, time: Option<Timestamp>, incoming_signal: Option<String> },
}

pub struct IdentityView {
    pub node: SliceNodeView,
    pub incoming: Option<Seq<char>>,
}

impl View for NodeIdentity {
    type V = IdentityView;

    open spec fn view(&self) -> IdentityView {
        match self {
            NodeIdentity::Block { block_id, time, incoming_signal } => IdentityView {
                node: SliceNodeView::BlockAt { block_id: block_id.0, time: time_view(*time) },
                incoming: text_opt(*incoming_signal),
            },
            NodeIdentity::Literal { signal, time, incoming_signal } => IdentityView {
                node: SliceNodeView::LiteralAt { signal: signal@, time: time_view(*time) },
                incoming: text_opt(*incoming_signal),
            },
        }
    }
}

impl Clone for NodeIdentity {
    fn clone(&self) -> (r: Self)
        ensures
            r == *self,
    {
        match self {
            NodeIdentity::Block { block_id, time, incoming_signal } => NodeIdentity::Block {
                block_id: *block_id,
                time: *time,
                incoming_signal: clone_text_opt(incoming_signal),
            },
            NodeIdentity::Literal { signal, time, incoming_signal } => NodeIdentity::Literal {
                signal: signal.clone(),
                time: *time,
                incoming_signal: clone_text_opt(incoming_signal),
            },
        }
    }
}

/// Whether two identities are the same.
pub fn same_identity(a: &NodeIdentity, b: &NodeIdentity) -> (r: bool)
    ensures
        r == (a@ == b@),
{
    match (a, b) {
        (
            NodeIdentity::Block { block_id: x, time: tx, incoming_signal: sx },
            NodeIdentity::Block { block_id: y, time: ty, incoming_signal: sy },
        ) => x.0 == y.0 && same_time(*tx, *ty) && text_opt_eq(sx, sy),
        (
            NodeIdentity::Literal { signal: x, time: tx, incoming_signal: sx },
            NodeIdentity::Literal { signal: y, time: ty, incoming_signal: sy },
        ) => *x == *y && same_time(*tx, *ty) && text_opt_eq(sx, sy),
        _ => false,
    }
}

impl PartialEq for NodeIdentity {
    fn eq(&self, other: &Self) -> (r: bool) {
        same_identity(self, other)
    }
}

impl PartialEqSpecImpl for NodeIdentity {
    open spec fn obeys_eq_spec() -> bool {
        true
    }

    open spec fn eq_spec(&self, other: &NodeIdentity) -> bool {
        self@ == other@
    }
}

impl Eq for NodeIdentity {

}

pub open spec fn identity_views(s: Seq<NodeIdentity>) -> Seq<IdentityView> {
    s.map_values(|x: NodeIdentity| x@)
}

/// A row of the visible tree, with what is needed to draw its connectors.
#[derive(Debug)]
pub struct VisibleRow {
    pub entry: ChildEntry,
    pub depth: usize,
    pub parent_has_next: Vec<bool>,
    pub is_last: Option<bool>,
    pub already_shown: bool,
    pub path: Vec<NodeIdentity>,
}

pub fn clone_bools(v: &Vec<bool>) -> (r: Vec<bool>)
    ensures
        r@ == v@,
{
    let mut out: Vec<bool> = Vec::new();
    let mut i: usize = 0;
    while i < v.len()
        invariant
            i <= v@.len(),
            out@ == v@.subrange(0, i as int),
        decreases v@.len() - i,
    {
        out.push(v[i]);
        proof {
            assert(v@.subrange(0, i + 1) =~= v@.subrange(0, i as int).push(v@[i as int]));
        }
        i = i + 1;
    }
    proof {
        assert(v@.subrange(0, v@.len() as int) =~= v@);
    }
    out
}

pub fn clone_path(v: &Vec<NodeIdentity>) -> (r: Vec<NodeIdentity>)
    ensures
        r@ == v@,
{
    let mut out: Vec<NodeIdentity> = Vec::new();
    let mut i: usize = 0;
    while i < v.len()
        invariant
            i <= v@.len(),
            out@ == v@.subrange(0, i as int),
        decreases v@.len() - i,
    {
        out.push(v[i].clone());
        proof {
            assert(v@.subrange(0, i + 1) =~= v@.subrange(0, i as int).push(v@[i as int]));
        }
        i = i + 1;
    }
    proof {
        assert(v@.subrange(0, v@.len() as int) =~= v@);
    }
    out
}

impl Clone for VisibleRow {
    fn clone(&self) -> (r: Self)
        ensures
            r.entry == self.entry,
            r.depth == self.depth,
            r.parent_has_next@ == self.parent_has_next@,
            r.is_last == self.is_last,
            r.already_shown == self.already_shown,
            r.path@ == self.path@,
    {
        let r = VisibleRow {
            entry: self.entry.clone(),
            depth: self.depth,
            parent_has_next: clone_bools(&self.parent_has_next),
            is_last: self.is_last,
            already_shown: self.already_shown,
            path: clone_path(&self.path),
        };
        proof {
            assert(r.parent_has_next@ =~= self.parent_has_next@);
            assert(r.path@ =~= self.path@);
        }
        r
    }
}

/// The connector drawn before a row: a bar or a blank for each ancestor
/// level, then a branch mark when the row has a parent.
pub open spec fn prefix_cells(parent_has_next: Seq<bool>) -> Seq<char>
    decreases parent_has_next.len(),
{
    if parent_has_next.len() == 0 {
        Seq::<char>::empty()
    } else {
        prefix_cells(parent_has_next.drop_last()) + if parent_has_next.last() {
            "|  "@
        } else {
            "   "@
        }
    }
}

pub open spec fn tree_prefix_text(parent_has_next: Seq<bool>, is_last: Option<bool>) -> Seq<char> {
    prefix_cells(parent_has_next) + match is_last {
        Some(true) => "`- "@,
        Some(false) => "|- "@,
        None => Seq::<char>::empty(),
    }
}

/// The connector text of a row.
pub fn tree_prefix(parent_has_next: &[bool], is_last: Option<bool>) -> (r: String)
    ensures
        r@ == tree_prefix_text(parent_has_next@, is_last),
{
    let mut out: Vec<char> = Vec::new();
    let mut i: usize = 0;
    while i < parent_has_next.len()
        invariant
            i <= parent_has_next@.len(),
            out@ == prefix_cells(parent_has_next@.subrange(0, i as int)),
        decreases parent_has_next@.len() - i,
    {
        proof {
            assert(parent_has_next@.subrange(0, i + 1).drop_last() =~= parent_has_next@.subrange(0, i as int));
        }
        if parent_has_next[i] {
            append_str(&mut out, "|  ");
        } else {
            append_str(&mut out, "   ");
        }
        i = i + 1;
    }
    proof {
        assert(parent_has_next@.subrange(0, parent_has_next@.len() as int) =~= parent_has_next@);
    }
    match is_last {
        Some(true) => append_str(&mut out, "`- "),
        Some(false) => append_str(&mut out, "|- "),
        None => {},
    }
    proof {
        if is_last is None {
            assert(out@ =~= tree_prefix_text(parent_has_next@, is_last));
        }
    }
    string_of(out.as_slice())
}

/// The position of a node in the graph's node list.
pub open spec fn node_id_of(n: StableSliceNodeJson) -> usize {
    match n {
        StableSliceNodeJson::Block { id, .. } => id,
        StableSliceNodeJson::Literal { id, .. } => id,
    }
}

/// The last node of `nodes` with position `id`.
pub open spec fn lookup_node(nodes: Seq<StableSliceNodeJson>, id: usize) -> Option<StableSliceNodeJson>
    decreases nodes.len(),
{
    if nodes.len() == 0 {
        None
    } else if node_id_of(nodes.last()) == id {
        Some(nodes.last())
    } else {
        lookup_node(nodes.drop_last(), id)
    }
}

/// The last block of `blocks` with id `id`.
pub open spec fn lookup_block(blocks: Seq<BlockJson>, id: BlockId) -> Option<BlockJson>
    decreases blocks.len(),
{
    if blocks.len() == 0 {
        None
    } else if blocks.last().id == id {
        Some(blocks.last())
    } else {
        lookup_block(blocks.drop_last(), id)
    }
}

/// The edges of `edges` that end at node `to`, in order.
pub open spec fn edges_into(edges: Seq<StableSliceEdgeJson>, to: usize) -> Seq<StableSliceEdgeJson>
    decreases edges.len(),
{
    if edges.len() == 0 {
        Seq::<StableSliceEdgeJson>::empty()
    } else if edges.last().to == to {
        edges_into(edges.drop_last(), to).push(edges.last())
    } else {
        edges_into(edges.drop_last(), to)
    }
}

pub open spec fn time_or_unset(t: Option<Timestamp>) -> i64 {
    match t {
        Some(t) => t.0,
        None => -1i64,
    }
}

pub open spec fn signal_name_or_empty(s: Option<SignalNode>) -> Seq<char> {
    match s {
        Some(s) => s.name@,
        None => Seq::<char>::empty(),
    }
}

/// The order in which the incoming edges of a node are listed: by signal
/// name, then by the block id and time of the node the edge comes from, then
/// by that node's position (literals and missing nodes count as block 0,
/// a missing time as -1).
pub open spec fn incoming_key(g: StableSliceGraphJson, e: StableSliceEdgeJson) -> Seq<u64> {
    let (block_id, time): (u64, i64) = match lookup_node(g.nodes@, e.from) {
        Some(StableSliceNodeJson::Block { block_id, time, .. }) => (block_id.0, time_or_unset(time)),
        Some(StableSliceNodeJson::Literal { time, .. }) => (0u64, time_or_unset(time)),
        None => (0u64, -1i64),
    };
    text_key(signal_name_or_empty(e.signal)) + seq![block_id, i64_key(time), e.from as u64]
}

pub open spec fn incoming_keys(g: StableSliceGraphJson, es: Seq<StableSliceEdgeJson>) -> Seq<Seq<u64>> {
    es.map_values(|e: StableSliceEdgeJson| incoming_key(g, e))
}

/// The row an edge leads to.
pub open spec fn child_of(e: StableSliceEdgeJson) -> EntryView {
    (
        e.from,
        match e.signal {
            Some(s) => Some(s.name@),
            None => None,
        },
    )
}

/// `perm` lists every incoming edge of `to` once, in the order of
/// `incoming_key`, ties keeping the edge order.
pub open spec fn is_child_order(g: StableSliceGraphJson, to: usize, perm: Seq<usize>) -> bool {
    let es = edges_into(g.edges@, to);
    &&& sorted_perm(perm, incoming_keys(g, es))
    &&& forall|k: usize| k < es.len() ==> perm.contains(k)
}

pub open spec fn child_order(g: StableSliceGraphJson, to: usize) -> Seq<usize> {
    choose|perm: Seq<usize>| is_child_order(g, to, perm)
}

/// The rows under node `to`: one per incoming edge, sorted by `incoming_key`.
pub open spec fn ordered_children(g: StableSliceGraphJson, to: usize) -> Seq<EntryView> {
    let es = edges_into(g.edges@, to);
    let perm = child_order(g, to);
    Seq::new(es.len(), |i: int| child_of(es[perm[i] as int]))
}

pub open spec fn entry_views(s: Seq<ChildEntry>) -> Seq<EntryView> {
    s.map_values(|e: ChildEntry| e@)
}

/// The last segment of a dotted name.
pub open spec fn leaf_name(name: Seq<char>) -> Seq<char> {
    after_last(name, '.')
}

pub open spec fn display_signal(name: Option<Seq<char>>, full_signal: bool) -> Seq<char> {
    match name {
        None => "<unknown>"@,
        Some(n) => if full_signal {
            n
        } else {
            leaf_name(n)
        },
    }
}

pub open spec fn display_time(t: Option<Timestamp>) -> Seq<char> {
    match t {
        Some(t) => signed_decimal(t.0 as int),
        None => "<none>"@,
    }
}

/// The module of a scope: its last segment, without a trailing `_i`.
pub open spec fn display_module(scope: Seq<char>) -> Seq<char> {
    let last = leaf_name(scope);
    if spec_ends_with(last, "_i"@) {
        last.subrange(0, last.len() - 2)
    } else {
        last
    }
}

/// The text of a row.
pub open spec fn describe_text(g: StableSliceGraphJson, e: EntryView, full_signal: bool) -> Seq<char> {
    let sig = display_signal(e.1, full_signal);
    match lookup_node(g.nodes@, e.0) {
        Some(StableSliceNodeJson::Block { block_id, time, .. }) => match lookup_block(g.blocks@, block_id) {
            Some(b) => sig + ", time="@ + display_time(time) + ", module="@ + display_module(b.scope@)
                + ", bid="@ + decimal(b.id.0 as nat) + ", type="@ + b.block_type@ + ", lines="@ + decimal(
                b.line_start as nat,
            ) + "-"@ + decimal(b.line_end as nat),
            None => sig + ", time="@ + display_time(time) + ", bid="@ + decimal(block_id.0 as nat)
                + ", block=<missing>"@,
        },
        Some(StableSliceNodeJson::Literal { signal, time, .. }) => sig + ", time="@ + display_time(time)
            + ", literal="@ + display_signal(Some(signal.name@), full_signal),
        None => sig + ", node=<missing "@ + decimal(e.0 as nat) + ">"@,
    }
}

/// The identity of a row: a missing node counts as block 0 with no time.
pub open spec fn identity_of(g: StableSliceGraphJson, e: EntryView) -> IdentityView {
    match lookup_node(g.nodes@, e.0) {
        Some(StableSliceNodeJson::Block { block_id, time, .. }) => IdentityView {
            node: SliceNodeView::BlockAt { block_id: block_id.0, time: time_view(time) },
            incoming: e.1,
        },
        Some(StableSliceNodeJson::Literal { signal, time, .. }) => IdentityView {
            node: SliceNodeView::LiteralAt { signal: signal@, time: time_view(time) },
            incoming: e.1,
        },
        None => IdentityView { node: SliceNodeView::BlockAt { block_id: 0, time: None }, incoming: e.1 },
    }
}

/// The time of node `id`, if the node exists and has one.
pub open spec fn node_time_of(g: StableSliceGraphJson, id: usize) -> Option<Timestamp> {
    match lookup_node(g.nodes@, id) {
        Some(StableSliceNodeJson::Block { time, .. }) => time,
        Some(StableSliceNodeJson::Literal { time, .. }) => time,
        None => None,
    }
}

/// The code lines shown for a row.
pub open spec fn snippet_lines(g: StableSliceGraphJson, id: usize) -> Seq<Seq<char>> {
    match lookup_node(g.nodes@, id) {
        Some(StableSliceNodeJson::Block { block_id, .. }) => match lookup_block(g.blocks@, block_id) {
            Some(b) => text_lines(
                if b.code_snippet@.len() == 0 {
                    "<no code snippet>"@
                } else {
                    b.code_snippet@
                },
            ),
            None => seq!["<missing block metadata>"@],
        },
        _ => seq!["<literal>"@],
    }
}

/// The lines of the code snippet that mention the last segment of the
/// signal a row was reached through.
pub open spec fn highlighted_lines(g: StableSliceGraphJson, e: EntryView) -> Set<usize> {
    match lookup_node(g.nodes@, e.0) {
        Some(StableSliceNodeJson::Block { block_id, .. }) => match lookup_block(g.blocks@, block_id) {
            Some(b) => match e.1 {
                Some(sig) => Set::new(
                    |i: usize|
                        i < text_lines(b.code_snippet@).len() && contains_text(
                            text_lines(b.code_snippet@)[i as int],
                            leaf_name(sig),
                        ),
                ),
                None => Set::empty(),
            },
            None => Set::empty(),
        },
        _ => Set::empty(),
    }
}

/// The last dotted segment of a name.
pub fn leaf_of(name: &[char]) -> (r: Vec<char>)
    ensures
        r@ == leaf_name(name@),
{
    after_last_char(name, '.')
}

pub fn display_signal_chars(name: Option<&str>, full_signal: bool) -> (r: Vec<char>)
    ensures
        r@ == display_signal(
            match name {
                Some(n) => Some(n@),
                None => None,
            },
            full_signal,
        ),
{
    match name {
        None => {
            let mut out: Vec<char> = Vec::new();
            append_str(&mut out, "<unknown>");
            out
        },
        Some(n) => {
            let cs = chars_of(n);
            if full_signal {
                cs
            } else {
                leaf_of(cs.as_slice())
            }
        },
    }
}

pub fn display_time_chars(t: Option<Timestamp>) -> (r: Vec<char>)
    ensures
        r@ == display_time(t),
{
    match t {
        Some(t) => i64_decimal(t.0),
        None => {
            let mut out: Vec<char> = Vec::new();
            append_str(&mut out, "<none>");
            out
        },
    }
}

pub fn display_module_chars(scope: &str) -> (r: Vec<char>)
    ensures
        r@ == display_module(scope@),
{
    let cs = chars_of(scope);
    let last = leaf_of(cs.as_slice());
    let mut suffix: Vec<char> = Vec::new();
    append_str(&mut suffix, "_i");
    proof {
        reveal_strlit("_i");
    }
    if ends_with(last.as_slice(), suffix.as_slice()) {
        let n = last.len();
        proof {
            assert(suffix@.len() == 2);
        }
        slice_chars(last.as_slice(), 0, n - 2)
    } else {
        last
    }
}

/// A graph of the slice JSON, indexed for walking it upstream.
pub struct GraphIndex {
    graph: StableSliceGraphJson,
}

impl GraphIndex {
    /// The graph this index was built from.
    pub closed spec fn spec_graph(&self) -> StableSliceGraphJson {
        self.graph
    }

    pub fn new(graph: StableSliceGraphJson) -> (r: Self)
        ensures
            r.spec_graph() == graph,
    {
        GraphIndex { graph }
    }

    /// The signal the graph was sliced from.
    pub fn target(&self) -> (r: &str)
        ensures
            r@ == self.spec_graph().target@,
    {
        self.graph.target.as_str()
    }

    /// The position of the first node for block `root_block_id` at
    /// `root_time`.
    pub fn find_root_node(&self, root_block_id: u64, root_time: i64) -> (r: Result<usize, SvaError>)
        ensures
            match r {
                Ok(id) => exists|i: int|
                    0 <= i < self.spec_graph().nodes@.len() && #[trigger] self.spec_graph().nodes@[i]
                        == (StableSliceNodeJson::Block {
                        id,
                        block_id: BlockId(root_block_id),
                        time: Some(Timestamp(root_time)),
                    }) && forall|j: int| 0 <= j < i ==> !is_root_node(self.spec_graph().nodes@[j], root_block_id, root_time),
                Err(e) => (forall|j: int|
                    0 <= j < self.spec_graph().nodes@.len() ==> !is_root_node(
                        #[trigger] self.spec_graph().nodes@[j],
                        root_block_id,
                        root_time,
                    )) && e == SvaError::RootNotFound { block_id: root_block_id, time: root_time },
            },
    {
        let nodes = &self.graph.nodes;
        let mut i: usize = 0;
        while i < nodes.len()
            invariant
                nodes@ == self.spec_graph().nodes@,
                i <= nodes@.len(),
                forall|j: int| 0 <= j < i ==> !is_root_node(#[trigger] nodes@[j], root_block_id, root_time),
            decreases nodes@.len() - i,
        {
            match &nodes[i] {
                StableSliceNodeJson::Block { id, block_id, time } => {
                    if block_id.0 == root_block_id {
                        match time {
                            Some(t) => {
                                if t.0 == root_time {
                                    return Ok(*id);
                                }
                            },
                            None => {},
                        }
                    }
                },
                StableSliceNodeJson::Literal { .. } => {},
            }
            i = i + 1;
        }
        Err(SvaError::RootNotFound { block_id: root_block_id, time: root_time })
    }

    /// Index of the node that `lookup_node` finds for `id`.
    fn find_node(&self, id: usize) -> (r: Option<usize>)
        ensures
            match r {
                Some(i) => i < self.spec_graph().nodes@.len() && lookup_node(self.spec_graph().nodes@, id)
                    == Some(self.spec_graph().nodes@[i as int]),
                None => lookup_node(self.spec_graph().nodes@, id) is None,
            },
    {
        let nodes = &self.graph.nodes;
        let mut found: Option<usize> = None;
        let mut i: usize = 0;
        while i < nodes.len()
            invariant
                nodes@ == self.spec_graph().nodes@,
                i <= nodes@.len(),
                match found {
                    Some(k) => k < i && lookup_node(nodes@.subrange(0, i as int), id) == Some(nodes@[k as int]),
                    None => lookup_node(nodes@.subrange(0, i as int), id) is None,
                },
            decreases nodes@.len() - i,
        {
            proof {
                assert(nodes@.subrange(0, i + 1).drop_last() =~= nodes@.subrange(0, i as int));
            }
            let nid = match &nodes[i] {
                StableSliceNodeJson::Block { id, .. } => *id,
                StableSliceNodeJson::Literal { id, .. } => *id,
            };
            if nid == id {
                found = Some(i);
            }
            i = i + 1;
        }
        proof {
            assert(nodes@.subrange(0, nodes@.len() as int) =~= nodes@);
        }
        found
    }

    /// Index of the block that `lookup_block` finds for `id`.
    fn find_block(&self, id: BlockId) -> (r: Option<usize>)
        ensures
            match r {
                Some(i) => i < self.spec_graph().blocks@.len() && lookup_block(self.spec_graph().blocks@, id)
                    == Some(self.spec_graph().blocks@[i as int]),
                None => lookup_block(self.spec_graph().blocks@, id) is None,
            },
    {
        let blocks = &self.graph.blocks;
        let mut found: Option<usize> = None;
        let mut i: usize = 0;
        while i < blocks.len()
            invariant
                blocks@ == self.spec_graph().blocks@,
                i <= blocks@.len(),
                match found {
                    Some(k) => k < i && lookup_block(blocks@.subrange(0, i as int), id) == Some(blocks@[k as int]),
                    None => lookup_block(blocks@.subrange(0, i as int), id) is None,
                },
            decreases blocks@.len() - i,
        {
            proof {
                assert(blocks@.subrange(0, i + 1).drop_last() =~= blocks@.subrange(0, i as int));
            }
            if blocks[i].id.0 == id.0 {
                found = Some(i);
            }
            i = i + 1;
        }
        proof {
            assert(blocks@.subrange(0, blocks@.len() as int) =~= blocks@);
        }
        found
    }

    /// The edges that end at node `to`, in order.
    fn incoming_edges(&self, to: usize) -> (r: Vec<StableSliceEdgeJson>)
        ensures
            r@ == edges_into(self.spec_graph().edges@, to),
    {
        let edges = &self.graph.edges;
        let mut out: Vec<StableSliceEdgeJson> = Vec::new();
        let mut i: usize = 0;
        while i < edges.len()
            invariant
                edges@ == self.spec_graph().edges@,
                i <= edges@.len(),
                out@ == edges_into(edges@.subrange(0, i as int), to),
            decreases edges@.len() - i,
        {
            proof {
                assert(edges@.subrange(0, i + 1).drop_last() =~= edges@.subrange(0, i as int));
            }
            if edges[i].to == to {
                out.push(edges[i].clone());
            }
            i = i + 1;
        }
        proof {
            assert(edges@.subrange(0, edges@.len() as int) =~= edges@);
        }
        out
    }

    /// The sort key of an incoming edge.
    fn incoming_sort_key(&self, edge: &StableSliceEdgeJson) -> (r: Vec<u64>)
        ensures
            r@ == incoming_key(self.spec_graph(), *edge),
    {
        let (block_id, time): (u64, i64) = match self.find_node(edge.from) {
            Some(k) => match &self.graph.nodes[k] {
                StableSliceNodeJson::Block { block_id, time, .. } => (
                    block_id.0,
                    match time {
                        Some(t) => t.0,
                        None => -1,
                    },
                ),
                StableSliceNodeJson::Literal { time, .. } => (
                    0,
                    match time {
                        Some(t) => t.0,
                        None => -1,
                    },
                ),
            },
            None => (0, -1),
        };
        let mut key: Vec<u64> = Vec::new();
        match &edge.signal {
            Some(s) => {
                let cs = chars_of(s.name.as_str());
                push_text_key(&mut key, cs.as_slice());
            },
            None => {
                let cs: Vec<char> = Vec::new();
                push_text_key(&mut key, cs.as_slice());
                proof {
                    assert(cs@ =~= Seq::<char>::empty());
                }
            },
        }
        let ghost text = key@;
        key.push(block_id);
        key.push(i64_to_key(time));
        key.push(edge.from as u64);
        proof {
            assert(key@ =~= text + seq![block_id, i64_key(time), edge.from as u64]);
        }
        key
    }

    /// The rows under node `node_id`: one per incoming edge, ordered by
    /// signal name, then by the source block, time and position.
    pub fn children(&self, node_id: usize) -> (r: Vec<ChildEntry>)
        ensures
            entry_views(r@) == ordered_children(self.spec_graph(), node_id),
            is_child_order(self.spec_graph(), node_id, child_order(self.spec_graph(), node_id)),
    {
        let es = self.incoming_edges(node_id);
        let ghost g = self.spec_graph();
        let mut keys: Vec<Vec<u64>> = Vec::new();
        let mut i: usize = 0;
        while i < es.len()
            invariant
                g == self.spec_graph(),
                i <= es@.len(),
                keys@.len() == i,
                forall|j: int| 0 <= j < i ==> #[trigger] keys@[j]@ == incoming_key(g, es@[j]),
            decreases es@.len() - i,
        {
            keys.push(self.incoming_sort_key(&es[i]));
            i = i + 1;
        }
        proof {
            assert(key_views(keys@) =~= incoming_keys(g, es@));
        }
        let perm = sort_perm(&keys);
        let mut out: Vec<ChildEntry> = Vec::new();
        let mut k: usize = 0;
        while k < perm.len()
            invariant
                perm@.len() == es@.len(),
                forall|a: int| 0 <= a < perm@.len() ==> #[trigger] perm@[a] < es@.len(),
                k <= perm@.len(),
                out@.len() == k,
                forall|a: int| 0 <= a < k ==> #[trigger] out@[a]@ == child_of(es@[perm@[a] as int]),
            decreases perm@.len() - k,
        {
            let e = &es[perm[k]];
            let incoming_signal = match &e.signal {
                Some(s) => Some(s.name.clone()),
                None => None,
            };
            out.push(ChildEntry { node_id: e.from, incoming_signal });
            k = k + 1;
        }
        proof {
            assert(is_child_order(g, node_id, perm@));
            lemma_sorted_perm_unique(perm@, child_order(g, node_id), incoming_keys(g, es@));
            assert(entry_views(out@) =~= ordered_children(g, node_id));
        }
        out
    }

    /// Whether any edge ends at the entry's node.
    pub fn has_children(&self, entry: &ChildEntry) -> (r: bool)
        ensures
            r == (edges_into(self.spec_graph().edges@, entry.node_id).len() > 0),
    {
        let edges = &self.graph.edges;
        let mut i: usize = 0;
        while i < edges.len()
            invariant
                edges@ == self.spec_graph().edges@,
                i <= edges@.len(),
                edges_into(edges@.subrange(0, i as int), entry.node_id).len() == 0,
            decreases edges@.len() - i,
        {
            proof {
                assert(edges@.subrange(0, i + 1).drop_last() =~= edges@.subrange(0, i as int));
            }
            if edges[i].to == entry.node_id {
                proof {
                    lemma_edges_into_grows(edges@, i as int + 1, edges@.len() as int, entry.node_id);
                    assert(edges@.subrange(0, edges@.len() as int) =~= edges@);
                }
                return true;
            }
            i = i + 1;
        }
        proof {
            assert(edges@.subrange(0, edges@.len() as int) =~= edges@);
        }
        false
    }

    /// The text of a row and the identity of what it shows.
    pub fn describe(&self, entry: &ChildEntry, full_signal: bool) -> (r: (String, NodeIdentity))
        ensures
            r.0@ == describe_text(self.spec_graph(), entry@, full_signal),
            r.1@ == identity_of(self.spec_graph(), entry@),
    {
        let sig = display_signal_chars(
            match &entry.incoming_signal {
                Some(s) => Some(s.as_str()),
                None => None,
            },
            full_signal,
        );
        let mut out = sig;
        match self.find_node(entry.node_id) {
            Some(k) => match &self.graph.nodes[k] {
                StableSliceNodeJson::Block { block_id, time, .. } => {
                    let identity = NodeIdentity::Block {
                        block_id: *block_id,
                        time: *time,
                        incoming_signal: clone_text_opt(&entry.incoming_signal),
                    };
                    append_str(&mut out, ", time=");
                    append_chars(&mut out, display_time_chars(*time).as_slice());
                    match self.find_block(*block_id) {
                        Some(b) => {
                            let block = &self.graph.blocks[b];
                            append_str(&mut out, ", module=");
                            append_chars(&mut out, display_module_chars(block.scope.as_str()).as_slice());
                            append_str(&mut out, ", bid=");
                            append_chars(&mut out, u64_decimal(block.id.0).as_slice());
                            append_str(&mut out, ", type=");
                            append_str(&mut out, block.block_type.as_str());
                            append_str(&mut out, ", lines=");
                            append_chars(&mut out, u64_decimal(block.line_start as u64).as_slice());
                            append_str(&mut out, "-");
                            append_chars(&mut out, u64_decimal(block.line_end as u64).as_slice());
                        },
                        None => {
                            append_str(&mut out, ", bid=");
                            append_chars(&mut out, u64_decimal(block_id.0).as_slice());
                            append_str(&mut out, ", block=<missing>");
                        },
                    }
                    (string_of(out.as_slice()), identity)
                },
                StableSliceNodeJson::Literal { signal, time, .. } => {
                    let identity = NodeIdentity::Literal {
                        signal: signal.clone(),
                        time: *time,
                        incoming_signal: clone_text_opt(&entry.incoming_signal),
                    };
                    append_str(&mut out, ", time=");
                    append_chars(&mut out, display_time_chars(*time).as_slice());
                    append_str(&mut out, ", literal=");
                    append_chars(&mut out, display_signal_chars(Some(signal.name.as_str()), full_signal).as_slice());
                    (string_of(out.as_slice()), identity)
                },
            },
            None => {
                append_str(&mut out, ", node=<missing ");
                append_chars(&mut out, u64_decimal(entry.node_id as u64).as_slice());
                append_str(&mut out, ">");
                let identity = NodeIdentity::Block {
                    block_id: BlockId(0),
                    time: None,
                    incoming_signal: clone_text_opt(&entry.incoming_signal),
                };
                (string_of(out.as_slice()), identity)
            },
        }
    }

    /// The identity of what a row shows.
    pub fn identity(&self, entry: &ChildEntry) -> (r: NodeIdentity)
        ensures
            r@ == identity_of(self.spec_graph(), entry@),
    {
        let (_, identity) = self.describe(entry, true);
        identity
    }

    /// The time of node `node_id`.
    pub fn node_time(&self, node_id: usize) -> (r: Option<Timestamp>)
        ensures
            r == node_time_of(self.spec_graph(), node_id),
    {
        match self.find_node(node_id) {
            Some(k) => match &self.graph.nodes[k] {
                StableSliceNodeJson::Block { time, .. } => *time,
                StableSliceNodeJson::Literal { time, .. } => *time,
            },
            None => None,
        }
    }

    /// The code lines shown for a row.
    pub fn code_snippet_lines(&self, entry: &ChildEntry) -> (r: Vec<String>)
        ensures
            string_views(r@) == snippet_lines(self.spec_graph(), entry.node_id),
    {
        let mut text: Vec<char> = Vec::new();
        match self.find_node(entry.node_id) {
            Some(k) => match &self.graph.nodes[k] {
                StableSliceNodeJson::Block { block_id, .. } => match self.find_block(*block_id) {
                    Some(b) => {
                        let snippet = chars_of(self.graph.blocks[b].code_snippet.as_str());
                        if snippet.len() == 0 {
                            append_str(&mut text, "<no code snippet>");
                        } else {
                            text = snippet;
                        }
                    },
                    None => {
                        append_str(&mut text, "<missing block metadata>");
                        let r = vec![string_of(text.as_slice())];
                        proof {
                            assert(string_views(r@) =~= seq!["<missing block metadata>"@]);
                        }
                        return r;
                    },
                },
                StableSliceNodeJson::Literal { .. } => {
                    append_str(&mut text, "<literal>");
                    let r = vec![string_of(text.as_slice())];
                    proof {
                        assert(string_views(r@) =~= seq!["<literal>"@]);
                    }
                    return r;
                },
            },
            None => {
                append_str(&mut text, "<literal>");
                let r = vec![string_of(text.as_slice())];
                proof {
                    assert(string_views(r@) =~= seq!["<literal>"@]);
                }
                return r;
            },
        }
        let lines = lines_of(text.as_slice());
        let mut out: Vec<String> = Vec::new();
        let mut i: usize = 0;
        while i < lines.len()
            invariant
                i <= lines@.len(),
                string_views(out@) == views_of(lines@).subrange(0, i as int),
            decreases lines@.len() - i,
        {
            let ghost before = out@;
            let line = string_of(lines[i].as_slice());
            out.push(line);
            proof {
                assert(string_views(out@) =~= string_views(before).push(line@));
                assert(views_of(lines@).subrange(0, i + 1) =~= views_of(lines@).subrange(0, i as int).push(lines@[i as int]@));
            }
            i = i + 1;
        }
        proof {
            assert(views_of(lines@).subrange(0, lines@.len() as int) =~= views_of(lines@));
        }
        out
    }

    /// The indices of the code lines that mention the last segment of the
    /// signal the row was reached through.
    pub fn code_snippet_highlight_indices(&self, entry: &ChildEntry) -> (r: HashSet<usize>)
        ensures
            r@ == highlighted_lines(self.spec_graph(), entry@),
    {
        let mut out: HashSet<usize> = HashSet::new();
        let k = match self.find_node(entry.node_id) {
            Some(k) => k,
            None => {
                proof {
                    assert(out@ =~= highlighted_lines(self.spec_graph(), entry@));
                }
                return out;
            },
        };
        let block_id = match &self.graph.nodes[k] {
            StableSliceNodeJson::Block { block_id, .. } => *block_id,
            StableSliceNodeJson::Literal { .. } => {
                proof {
                    assert(out@ =~= highlighted_lines(self.spec_graph(), entry@));
                }
                return out;
            },
        };
        let b = match self.find_block(block_id) {
            Some(b) => b,
            None => {
                proof {
                    assert(out@ =~= highlighted_lines(self.spec_graph(), entry@));
                }
                return out;
            },
        };
        let sig = match &entry.incoming_signal {
            Some(s) => s,
            None => {
                proof {
                    assert(out@ =~= highlighted_lines(self.spec_graph(), entry@));
                }
                return out;
            },
        };
        let leaf = leaf_of(chars_of(sig.as_str()).as_slice());
        let snippet = chars_of(self.graph.blocks[b].code_snippet.as_str());
        let lines = lines_of(snippet.as_slice());
        let ghost ls = text_lines(snippet@);
        let mut i: usize = 0;
        while i < lines.len()
            invariant
                views_of(lines@) == ls,
                i <= lines@.len(),
                forall|x: usize| #[trigger] out@.contains(x) <==> (x < i && contains_text(ls[x as int], leaf@)),
            decreases lines@.len() - i,
        {
            if contains_chars(lines[i].as_slice(), leaf.as_slice()) {
                out.insert(i);
            }
            i = i + 1;
        }
        proof {
            assert(out@ =~= highlighted_lines(self.spec_graph(), entry@));
        }
        out
    }
}

/// Whether node `n` is the block `block_id` at `time`.
pub open spec fn is_root_node(n: StableSliceNodeJson, block_id: u64, time: i64) -> bool {
    n matches StableSliceNodeJson::Block { block_id: b, time: Some(t), .. } && b.0 == block_id && t.0 == time
}

/// A longer prefix has at least as many edges into `to`.
proof fn lemma_edges_into_grows(edges: Seq<StableSliceEdgeJson>, i: int, j: int, to: usize)
    requires
        0 <= i <= j <= edges.len(),
    ensures
        edges_into(edges.subrange(0, i), to).len() <= edges_into(edges.subrange(0, j), to).len(),
    decreases j - i,
{
    if i < j {
        lemma_edges_into_grows(edges, i, j - 1, to);
        assert(edges.subrange(0, j).drop_last() =~= edges.subrange(0, j - 1));
    }
}

impl VisibleRow {
    /// The row as drawn: connectors, row text, and a mark when the node was
    /// shown further up.
    pub fn render(&self, index: &GraphIndex, full_signal: bool) -> (r: String)
        ensures
            r@ == tree_prefix_text(self.parent_has_next@, self.is_last) + describe_text(
                index.spec_graph(),
                self.entry@,
                full_signal,
            ) + if self.already_shown {
                " [already shown]"@
            } else {
                Seq::<char>::empty()
            },
    {
        let prefix = tree_prefix(self.parent_has_next.as_slice(), self.is_last);
        let (line, _) = index.describe(&self.entry, full_signal);
        let mut out = chars_of(prefix.as_str());
        append_str(&mut out, line.as_str());
        if self.already_shown {
            append_str(&mut out, " [already shown]");
        } else {
            proof {
                assert(out@ =~= out@ + Seq::<char>::empty());
            }
        }
        string_of(out.as_slice())
    }
}

} // verus!
