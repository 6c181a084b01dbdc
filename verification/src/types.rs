use vstd::prelude::*;

verus! {

/// Identifier of a block inside a block set.
#[derive(Debug, Clone, Copy, PartialEq, Eq, Structural)]
pub struct BlockId(pub u64);

/// A simulation time.
#[derive(Debug, Clone, Copy, PartialEq, Eq, Structural)]
pub struct Timestamp(pub i64);

/// Where a signal occurrence was found in the source text.
#[derive(Debug, Clone, Copy, PartialEq, Eq, Structural)]
pub struct SignalLocate {
    pub offset: usize,
    pub line: usize,
    pub len: usize,
}

impl SignalLocate {
    /// A location that only records the length of the occurrence.
    pub fn unknown(len: usize) -> (r: Self)
        ensures
            r.offset == 0,
            r.line == 0,
            r.len == len,
    {
        SignalLocate { offset: 0, line: 0, len }
    }
}

/// Whether a signal node names a variable or is a literal value.
#[derive(Debug, Clone, Copy, PartialEq, Eq, Structural)]
pub enum SignalNodeKind {
    Variable,
    Literal,
}

pub open spec fn kind_text(kind: SignalNodeKind) -> Seq<char> {
    match kind {
        SignalNodeKind::Variable => "variable"@,
        SignalNodeKind::Literal => "literal"@,
    }
}

impl SignalNodeKind {
    /// The lower-case name of the kind.
    pub fn as_str(&self) -> (r: &'static str)
        ensures
            r@ == kind_text(*self),
    {
        proof {
            reveal_strlit("variable");
            reveal_strlit("literal");
        }
        match self {
            SignalNodeKind::Variable => "variable",
            SignalNodeKind::Literal => "literal",
        }
    }
}

/// A signal (or literal) occurrence. Two nodes are the same signal when
/// their kind and name agree; the location is ignored by `==`.
#[derive(Debug)]
pub struct SignalNode {
    pub kind: SignalNodeKind,
    pub name: String,
    pub locate: SignalLocate,
}

/// The identity of a signal: its kind and its name.
pub type SignalKey = (SignalNodeKind, Seq<char>);

impl View for SignalNode {
    type V = SignalKey;

    open spec fn view(&self) -> SignalKey {
        (self.kind, self.name@)
    }
}

impl Clone for SignalNode {
    fn clone(&self) -> (r: Self)
        ensures
            r == *self,
    {
        SignalNode { kind: self.kind, name: self.name.clone(), locate: self.locate }
    }
}

impl PartialEq for SignalNode {
    fn eq(&self, other: &Self) -> (r: bool) {
        self.kind == other.kind && self.name == other.name
    }
}

impl vstd::std_specs::cmp::PartialEqSpecImpl for SignalNode {
    open spec fn obeys_eq_spec() -> bool {
        true
    }

    open spec fn eq_spec(&self, other: &SignalNode) -> bool {
        self@ == other@
    }
}

impl Eq for SignalNode {

}

impl SignalNode {
    pub fn new(kind: SignalNodeKind, name: &str, locate: SignalLocate) -> (r: Self)
        ensures
            r.kind == kind,
            r.name@ == name@,
            r.locate == locate,
    {
        SignalNode { kind, name: name.to_owned(), locate }
    }

    pub fn variable(name: &str, locate: SignalLocate) -> (r: Self)
        ensures
            r.kind == SignalNodeKind::Variable,
            r.name@ == name@,
            r.locate == locate,
    {
        Self::new(SignalNodeKind::Variable, name, locate)
    }

    pub fn literal_with_locate(text: &str, locate: SignalLocate) -> (r: Self)
        ensures
            r.kind == SignalNodeKind::Literal,
            r.name@ == text@,
            r.locate == locate,
    {
        Self::new(SignalNodeKind::Literal, text, locate)
    }

    /// A variable node with an unknown location of the name's byte length.
    pub fn named(name: &str) -> (r: Self)
        ensures
            r.kind == SignalNodeKind::Variable,
            r.name@ == name@,
            r.locate.offset == 0,
            r.locate.line == 0,
            r.locate.len == name.len(),
    {
        Self::variable(name, SignalLocate::unknown(name.len()))
    }

    /// A literal node with an unknown location of the text's byte length.
    pub fn literal(text: &str) -> (r: Self)
        ensures
            r.kind == SignalNodeKind::Literal,
            r.name@ == text@,
            r.locate.offset == 0,
            r.locate.line == 0,
            r.locate.len == text.len(),
    {
        Self::literal_with_locate(text, SignalLocate::unknown(text.len()))
    }

    pub fn as_str(&self) -> (r: &str)
        ensures
            r@ == self.name@,
    {
        self.name.as_str()
    }

    pub fn is_variable(&self) -> (r: bool)
        ensures
            r == (self.kind == SignalNodeKind::Variable),
    {
        match self.kind {
            SignalNodeKind::Variable => true,
            SignalNodeKind::Literal => false,
        }
    }

    pub fn is_literal(&self) -> (r: bool)
        ensures
            r == (self.kind == SignalNodeKind::Literal),
    {
        match self.kind {
            SignalNodeKind::Variable => false,
            SignalNodeKind::Literal => true,
        }
    }
}

/// A node of a slice graph: a block (possibly at a time) or a literal input.
#[derive(Debug)]
pub enum TimedSliceNode {
    Block { block_id: BlockId, time: Option<Timestamp> },
    Literal { signal: SignalNode, time: Option<Timestamp> },
}

pub type StaticSliceNode = TimedSliceNode;

/// The identity of a slice node: equal views mean the same node.
pub enum SliceNodeView {
    BlockAt { block_id: u64, time: Option<i64> },
    LiteralAt { signal: SignalKey, time: Option<i64> },
}

pub open spec fn time_view(t: Option<Timestamp>) -> Option<i64> {
    match t {
        Some(t) => Some(t.0),
        None => None,
    }
}

impl View for TimedSliceNode {
    type V = SliceNodeView;

    open spec fn view(&self) -> SliceNodeView {
        match self {
            TimedSliceNode::Block { block_id, time } => SliceNodeView::BlockAt {
                block_id: block_id.0,
                time: time_view(*time),
            },
            TimedSliceNode::Literal { signal, time } => SliceNodeView::LiteralAt {
                signal: signal@,
                time: time_view(*time),
            },
        }
    }
}

impl Clone for TimedSliceNode {
    fn clone(&self) -> (r: Self)
        ensures
            r == *self,
    {
        match self {
            TimedSliceNode::Block { block_id, time } => TimedSliceNode::Block {
                block_id: *block_id,
                time: *time,
            },
            TimedSliceNode::Literal { signal, time } => TimedSliceNode::Literal {
                signal: signal.clone(),
                time: *time,
            },
        }
    }
}

/// A slice node as written to JSON, with its position in the node list.
#[derive(Debug)]
pub enum StableSliceNodeJson {
    Block { id: usize, block_id: BlockId, time: Option<Timestamp> },
    Literal { id: usize, signal: SignalNode, time: Option<Timestamp> },
}

impl Clone for StableSliceNodeJson {
    fn clone(&self) -> (r: Self)
        ensures
            r == *self,
    {
        match self {
            StableSliceNodeJson::Block { id, block_id, time } => StableSliceNodeJson::Block {
                id: *id,
                block_id: *block_id,
                time: *time,
            },
            StableSliceNodeJson::Literal { id, signal, time } => StableSliceNodeJson::Literal {
                id: *id,
                signal: signal.clone(),
                time: *time,
            },
        }
    }
}

/// An edge between node positions of a stable slice graph.
#[derive(Debug)]
pub struct StableSliceEdgeJson {
    pub from: usize,
    pub to: usize,
    pub signal: Option<SignalNode>,
}

impl Clone for StableSliceEdgeJson {
    fn clone(&self) -> (r: Self)
        ensures
            r == *self,
    {
        StableSliceEdgeJson {
            from: self.from,
            to: self.to,
            signal: match &self.signal {
                Some(s) => Some(s.clone()),
                None => None,
            },
        }
    }
}

/// Block metadata carried by a slice graph.
#[derive(Debug)]
pub struct BlockJson {
    pub id: BlockId,
    pub scope: String,
    pub block_type: String,
    pub source_file: String,
    pub line_start: usize,
    pub line_end: usize,
    pub ast_line_start: usize,
    pub ast_line_end: usize,
    pub code_snippet: String,
}

impl Clone for BlockJson {
    fn clone(&self) -> (r: Self)
        ensures
            r == *self,
    {
        BlockJson {
            id: self.id,
            scope: self.scope.clone(),
            block_type: self.block_type.clone(),
            source_file: self.source_file.clone(),
            line_start: self.line_start,
            line_end: self.line_end,
            ast_line_start: self.ast_line_start,
            ast_line_end: self.ast_line_end,
            code_snippet: self.code_snippet.clone(),
        }
    }
}

/// A slice graph whose edges refer to nodes by position.
#[derive(Debug)]
pub struct StableSliceGraphJson {
    pub target: String,
    pub start_time: Option<Timestamp>,
    pub nodes: Vec<StableSliceNodeJson>,
    pub edges: Vec<StableSliceEdgeJson>,
    pub blocks: Vec<BlockJson>,
}

/// An edge between two timed nodes.
#[derive(Debug)]
pub struct BlockEdgeJson {
    pub from: TimedSliceNode,
    pub to: TimedSliceNode,
    pub signal: Option<SignalNode>,
}

/// A slice graph whose edges carry the nodes themselves.
#[derive(Debug)]
pub struct TraceGraphJson {
    pub nodes: Vec<TimedSliceNode>,
    pub edges: Vec<BlockEdgeJson>,
    pub blocks: Vec<BlockJson>,
}

/// The key by which slice nodes are told apart.
#[derive(Debug)]
pub enum StableSliceNodeKey {
    Block { block_id: BlockId, time: Option<Timestamp> },
    Literal { signal: SignalNode, time: Option<Timestamp> },
}

impl View for StableSliceNodeKey {
    type V = SliceNodeView;

    open spec fn view(&self) -> SliceNodeView {
        match self {
            StableSliceNodeKey::Block { block_id, time } => SliceNodeView::BlockAt {
                block_id: block_id.0,
                time: time_view(*time),
            },
            StableSliceNodeKey::Literal { signal, time } => SliceNodeView::LiteralAt {
                signal: signal@,
                time: time_view(*time),
            },
        }
    }
}

/// The JSON form of a node at position `id`.
pub open spec fn node_json(node: TimedSliceNode, id: usize) -> StableSliceNodeJson {
    match node {
        TimedSliceNode::Block { block_id, time } => StableSliceNodeJson::Block {
            id,
            block_id,
            time,
        },
        TimedSliceNode::Literal { signal, time } => StableSliceNodeJson::Literal {
            id,
            signal,
            time,
        },
    }
}

/// Nodes that can be written to a stable slice graph.
pub trait StableSliceNode: Sized {
    fn stable_key(&self) -> StableSliceNodeKey;

    fn stable_json(&self, id: usize) -> StableSliceNodeJson;
}

impl StableSliceNode for TimedSliceNode {
    fn stable_key(&self) -> (r: StableSliceNodeKey)
        ensures
            r@ == self@,
    {
        match self {
            TimedSliceNode::Block { block_id, time } => StableSliceNodeKey::Block {
                block_id: *block_id,
                time: *time,
            },
            TimedSliceNode::Literal { signal, time } => StableSliceNodeKey::Literal {
                signal: signal.clone(),
                time: *time,
            },
        }
    }

    fn stable_json(&self, id: usize) -> (r: StableSliceNodeJson)
        ensures
            r == node_json(*self, id),
    {
        match self {
            TimedSliceNode::Block { block_id, time } => StableSliceNodeJson::Block {
                id,
                block_id: *block_id,
                time: *time,
            },
            TimedSliceNode::Literal { signal, time } => StableSliceNodeJson::Literal {
                id,
                signal: signal.clone(),
                time: *time,
            },
        }
    }
}

} // verus!
