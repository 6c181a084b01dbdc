use vstd::prelude::*;

use std::path::PathBuf;
use std::sync::Arc;

use crate::block::set::{drivers_of, unique_alias};
use crate::ast::ParseOptions;
use crate::block::BlockSet;
use crate::coverage::CoverageTracker;
use crate::wave::{apply_scope_remap_to_graph, hex_text, remapped_graph, remapped_name, SignalValue, WaveformReader, WellenReader};
use crate::error::{string_views, top_matches, FuzzyMatch, SignalNotFound, SvaError};
use crate::slicer::blues::{answered_slice_of, has_dynamic_slice_shape, lemma_dynamic_slice_is_stable, never_fails};
use crate::slicer::static_slice::{is_static_slice, lemma_static_slice_is_stable, resolved_root};
use crate::slicer::{BluesSlicer, InstructionExecutionPath, SliceRequest, StaticSlicer};
use crate::name_map::NameMap;
use crate::order::{key_views, keyed_lt, lemma_seq_lt_asymmetric, lemma_seq_lt_irreflexive, push_text_key, seq_lt, sort_perm, text_key};
use crate::slicer::collect::ascending;
use crate::text::{chars_of, is_ascii_alnum, spec_ends_with, spec_is_ascii_alnum, spec_starts_with, starts_with, ends_with, str_eq, string_of};
use crate::types::{
    BlockJson, SignalKey, SignalNode, SignalNodeKind, StableSliceEdgeJson, StableSliceGraphJson, StableSliceNodeJson,
    Timestamp,
};

verus! {

/// The stable JSON form of the static slice of `block_set` from `signal`;
/// fails exactly when the signal resolves to no driven signal.
pub fn slice_static(block_set: BlockSet, signal: &str) -> (r: Result<StableSliceGraphJson, SvaError>)
    ensures
        r is Ok <==> ({
            let q = (SignalNodeKind::Variable, signal@);
            drivers_of(block_set@, q).len() > 0 || exists|k: SignalKey| unique_alias(block_set@, q, k)
        }),
        r matches Ok(g) ==> g.target@ == signal@ && g.start_time is None && exists|root: SignalKey, sg: InstructionExecutionPath|
            #![trigger is_static_slice(block_set@, root, sg), sg.stable_form(g)]
            resolved_root(block_set@, (SignalNodeKind::Variable, signal@), root) && is_static_slice(block_set@, root, sg)
                && sg.stable_form(g),
{
    let request = SliceRequest { signal: SignalNode::named(signal), time: Timestamp(0), min_time: Timestamp(0) };
    let slicer = StaticSlicer::new(block_set);
    let graph = match slicer.slice(&request) {
        Ok(g) => g,
        Err(e) => {
            return Err(e);
        },
    };
    proof {
        let root = choose|root: SignalKey| resolved_root(slicer@, request.signal@, root) && is_static_slice(slicer@, root, graph);
        lemma_static_slice_is_stable(slicer@, root, graph);
    }
    graph.stable_json_graph()
}

/// Why a dynamic slice may not start at `time`, given what the coverage
/// says: `time` is not a rising clock edge; or, with a known clock period,
/// the edge one period earlier is still in the window but is not a rising
/// edge. A previous time that does not fit in an `i64` is not checked.
pub open spec fn time_error_of(
    time: i64,
    min_time: i64,
    time_is_posedge: bool,
    clock_period: Option<i64>,
    previous_is_posedge: bool,
) -> Option<SvaError> {
    if !time_is_posedge {
        Some(SvaError::NotPosedgeTime(time))
    } else {
        match clock_period {
            Some(p) => if i64::MIN <= time - p <= i64::MAX && time - p >= min_time && !previous_is_posedge {
                Some(SvaError::MisalignedBacktrack { time, clock_period: p, previous: (time - p) as i64 })
            } else {
                None
            },
            None => None,
        }
    }
}

/// Why, by the coverage's answers, a dynamic slice may not start at `time`
/// (see `time_error_of`); the edge one period earlier is asked about only
/// when it matters.
pub open spec fn slice_start_error<C: CoverageTracker>(coverage: C, time: i64, min_time: i64) -> Option<SvaError> {
    let at_edge = coverage.posedge(time);
    let period = coverage.period_of_clock();
    let previous_at_edge = match period {
        Some(p) => if i64::MIN <= time - p <= i64::MAX && at_edge && time - p >= min_time {
            coverage.posedge((time - p) as i64)
        } else {
            true
        },
        None => true,
    };
    time_error_of(time, min_time, at_edge, period, previous_at_edge)
}

/// Why a dynamic slice may not start at `time` (see `time_error_of`).
pub fn slice_time_error(
    time: i64,
    min_time: i64,
    time_is_posedge: bool,
    clock_period: Option<i64>,
    previous_is_posedge: bool,
) -> (r: Option<SvaError>)
    ensures
        r == time_error_of(time, min_time, time_is_posedge, clock_period, previous_is_posedge),
{
    if !time_is_posedge {
        return Some(SvaError::NotPosedgeTime(time));
    }
    match clock_period {
        Some(p) => match time.checked_sub(p) {
            Some(previous) => if previous >= min_time && !previous_is_posedge {
                Some(SvaError::MisalignedBacktrack { time, clock_period: p, previous })
            } else {
                None
            },
            None => None,
        },
        None => None,
    }
}

/// Checks with the coverage that a dynamic slice may start at `time` (see
/// `slice_start_error`).
pub fn validate_slice_time<C: CoverageTracker>(coverage: &C, time: i64, min_time: i64) -> (r: Result<(), SvaError>)
    ensures
        r == match slice_start_error(*coverage, time, min_time) {
            Some(e) => Err::<(), SvaError>(e),
            None => Ok(()),
        },
{
    let at_edge = coverage.is_posedge_time(time);
    let period = coverage.clock_period();
    let previous_at_edge = match period {
        Some(p) => match time.checked_sub(p) {
            Some(previous) => if at_edge && previous >= min_time {
                coverage.is_posedge_time(previous)
            } else {
                true
            },
            None => true,
        },
        None => true,
    };
    match slice_time_error(time, min_time, at_edge, period, previous_at_edge) {
        Some(e) => Err(e),
        None => Ok(()),
    }
}

/// The stable JSON form of the dynamic slice of `block_set` from `signal` at
/// `time`, not before `min_time`, after checking the start time with the
/// coverage.
pub fn dynamic_slice_json<C: CoverageTracker>(
    block_set: BlockSet,
    coverage: Arc<C>,
    signal: &str,
    time: i64,
    min_time: i64,
) -> (r: Result<StableSliceGraphJson, SvaError>)
    ensures
        slice_start_error(*coverage, time, min_time) matches Some(e) ==> r == Err::<StableSliceGraphJson, SvaError>(e),
        slice_start_error(*coverage, time, min_time) is None && !({
            let q = (SignalNodeKind::Variable, signal@);
            drivers_of(block_set@, q).len() > 0 || exists|k: SignalKey| unique_alias(block_set@, q, k)
        }) ==> (r matches Err(e) && e matches SvaError::SignalNotFound(nf) && nf.signal@ == signal@ && top_matches(
            string_views(nf.suggestions@),
            signal@,
            block_set.signal_name_views(),
        )),
        slice_start_error(*coverage, time, min_time) is None && ({
            let q = (SignalNodeKind::Variable, signal@);
            drivers_of(block_set@, q).len() > 0 || exists|k: SignalKey| unique_alias(block_set@, q, k)
        }) && never_fails(*coverage) ==> r is Ok,
        r matches Ok(g) ==> g.target@ == signal@ && g.start_time == Some(Timestamp(time)),
        r matches Ok(g) ==> exists|req: SliceRequest, s: InstructionExecutionPath|
            #![trigger answered_slice_of(block_set, *coverage, req, s), s.stable_form(g)]
            req.signal@ == (SignalNodeKind::Variable, signal@) && req.signal.name@ == signal@ && req.time == Timestamp(time)
                && req.min_time == Timestamp(min_time) && answered_slice_of(block_set, *coverage, req, s)
                && has_dynamic_slice_shape(block_set@, min_time, s) && s.stable_form(g),
{
    match validate_slice_time(&*coverage, time, min_time) {
        Ok(()) => {},
        Err(e) => {
            return Err(e);
        },
    }
    let request = SliceRequest { signal: SignalNode::named(signal), time: Timestamp(time), min_time: Timestamp(min_time) };
    let slicer = BluesSlicer::new(block_set, coverage);
    let graph = match slicer.slice(&request) {
        Ok(g) => g,
        Err(e) => {
            return Err(e);
        },
    };
    proof {
        lemma_dynamic_slice_is_stable(slicer@, min_time, graph);
        assert(answered_slice_of(block_set, *coverage, request, graph));
    }
    graph.stable_json_graph()
}

/// The block each block node position of `nodes` stands for (a later node
/// with the same position replacing an earlier one).
pub open spec fn node_block_map(nodes: Seq<StableSliceNodeJson>) -> Map<usize, u64>
    decreases nodes.len(),
{
    if nodes.len() == 0 {
        Map::empty()
    } else {
        let m = node_block_map(nodes.drop_last());
        match nodes.last() {
            StableSliceNodeJson::Block { id, block_id, .. } => m.insert(id, block_id.0),
            StableSliceNodeJson::Literal { .. } => m,
        }
    }
}

/// Strictly ascending positions.
pub open spec fn ascending_usize(v: Seq<usize>) -> bool {
    forall|a: int, b: int| 0 <= a < b < v.len() ==> v[a] < v[b]
}

fn insert_usize(v: &mut Vec<usize>, x: usize)
    requires
        ascending_usize(old(v)@),
    ensures
        ascending_usize(final(v)@),
        forall|y: usize| #[trigger] final(v)@.contains(y) <==> (old(v)@.contains(y) || y == x),
{
    let ghost before = v@;
    let mut p: usize = 0;
    while p < v.len() && v[p] < x
        invariant
            v@ == before,
            p <= v@.len(),
            forall|a: int| 0 <= a < p ==> v@[a] < x,
        decreases v@.len() - p,
    {
        p = p + 1;
    }
    if p < v.len() && v[p] == x {
        return;
    }
    v.insert(p, x);
    proof {
        assert forall|a: int, b: int| 0 <= a < b < v@.len() implies v@[a] < v@[b] by {
            if a < p && b == p {
            } else if a == p && b > p {
                assert(v@[b] == before[b - 1]);
                if b - 1 > p {
                    assert(before[p as int] < before[b - 1]);
                }
            } else if a < p && b > p {
                assert(v@[b] == before[b - 1]);
            } else if b < p {
            } else {
                assert(v@[a] == before[a - 1]);
                assert(v@[b] == before[b - 1]);
            }
        }
        assert forall|y: usize| #[trigger] v@.contains(y) <==> (before.contains(y) || y == x) by {
            if v@.contains(y) {
                let w = choose|w: int| 0 <= w < v@.len() && v@[w] == y;
                if w < p {
                    assert(before[w] == y);
                } else if w > p {
                    assert(before[w - 1] == y);
                }
            }
            if before.contains(y) {
                let w = choose|w: int| 0 <= w < before.len() && before[w] == y;
                if w < p {
                    assert(v@[w] == y);
                } else {
                    assert(v@[w + 1] == y);
                }
            }
            if y == x {
                assert(v@[p as int] == y);
            }
        }
    }
}

/// The block that node position `id` stands for.
fn block_of_node(nodes: &Vec<StableSliceNodeJson>, id: usize) -> (r: Option<u64>)
    ensures
        match r {
            Some(b) => node_block_map(nodes@).contains_key(id) && node_block_map(nodes@)[id] == b,
            None => !node_block_map(nodes@).contains_key(id),
        },
{
    let mut found: Option<u64> = None;
    let mut i: usize = 0;
    while i < nodes.len()
        invariant
            i <= nodes@.len(),
            match found {
                Some(b) => node_block_map(nodes@.subrange(0, i as int)).contains_key(id) && node_block_map(
                    nodes@.subrange(0, i as int),
                )[id] == b,
                None => !node_block_map(nodes@.subrange(0, i as int)).contains_key(id),
            },
        decreases nodes@.len() - i,
    {
        proof {
            assert(nodes@.subrange(0, i + 1).drop_last() =~= nodes@.subrange(0, i as int));
        }
        match &nodes[i] {
            StableSliceNodeJson::Block { id: nid, block_id, .. } => {
                if *nid == id {
                    found = Some(block_id.0);
                }
            },
            StableSliceNodeJson::Literal { .. } => {},
        }
        i = i + 1;
    }
    proof {
        assert(nodes@.subrange(0, nodes@.len() as int) =~= nodes@);
    }
    found
}

/// Whether node position `id` is a block node.
pub open spec fn is_block_node(graph: StableSliceGraphJson, id: usize) -> bool {
    node_block_map(graph.nodes@).contains_key(id)
}

/// An edge carries the signal named `target`.
pub open spec fn carries(e: StableSliceEdgeJson, target: Seq<char>) -> bool {
    match e.signal {
        Some(s) => s.name@ == target,
        None => false,
    }
}

/// The block nodes that drive `target` directly: those with an edge that
/// carries `target`; when there are none, the block nodes with no outgoing
/// edge.
pub open spec fn direct_driver_node(graph: StableSliceGraphJson, target: Seq<char>, n: usize) -> bool {
    if exists|e: int| 0 <= e < graph.edges@.len() && #[trigger] carries(graph.edges@[e], target) && is_block_node(graph, graph.edges@[e].from) {
        exists|e: int| 0 <= e < graph.edges@.len() && #[trigger] carries(graph.edges@[e], target) && graph.edges@[e].from == n && is_block_node(graph, n)
    } else {
        is_block_node(graph, n) && forall|e: int| 0 <= e < graph.edges@.len() ==> #[trigger] graph.edges@[e].from != n
    }
}

/// The positions of the block nodes that drive `target` directly, ascending.
pub fn direct_driver_node_ids(graph: &StableSliceGraphJson, target: &str) -> (r: Vec<usize>)
    ensures
        ascending_usize(r@),
        forall|n: usize| #[trigger] r@.contains(n) <==> direct_driver_node(*graph, target@, n),
{
    let mut carried: Vec<usize> = Vec::new();
    let mut e: usize = 0;
    while e < graph.edges.len()
        invariant
            e <= graph.edges@.len(),
            ascending_usize(carried@),
            forall|n: usize| #[trigger] carried@.contains(n) <==> exists|x: int|
                0 <= x < e && #[trigger] carries(graph.edges@[x], target@) && graph.edges@[x].from == n && is_block_node(*graph, n),
        decreases graph.edges@.len() - e,
    {
        let edge = &graph.edges[e];
        let hit = match &edge.signal {
            Some(sig) => str_eq(sig.name.as_str(), target),
            None => false,
        };
        let ghost before = carried@;
        if hit && block_of_node(&graph.nodes, edge.from).is_some() {
            insert_usize(&mut carried, edge.from);
        }
        proof {
            assert forall|n: usize| #[trigger] carried@.contains(n) <==> exists|x: int|
                0 <= x < e + 1 && #[trigger] carries(graph.edges@[x], target@) && graph.edges@[x].from == n && is_block_node(*graph, n) by {
                if carried@.contains(n) && !before.contains(n) {
                    assert(carries(graph.edges@[e as int], target@));
                    assert(graph.edges@[e as int].from == n);
                    assert(is_block_node(*graph, n));
                }
                if exists|x: int| 0 <= x < e + 1 && #[trigger] carries(graph.edges@[x], target@) && graph.edges@[x].from == n && is_block_node(*graph, n) {
                    let x = choose|x: int| 0 <= x < e + 1 && #[trigger] carries(graph.edges@[x], target@) && graph.edges@[x].from == n && is_block_node(*graph, n);
                    if x < e {
                        assert(before.contains(n));
                    }
                }
            }
        }
        e = e + 1;
    }
    if carried.len() > 0 {
        proof {
            assert(carried@.contains(carried@[0]));
            assert forall|n: usize| #[trigger] carried@.contains(n) <==> direct_driver_node(*graph, target@, n) by {
                let x0 = choose|x: int| 0 <= x < graph.edges@.len() && #[trigger] carries(graph.edges@[x], target@) && graph.edges@[x].from == carried@[0] && is_block_node(*graph, carried@[0]);
                assert(carries(graph.edges@[x0], target@) && is_block_node(*graph, graph.edges@[x0].from));
            }
        }
        return carried;
    }
    proof {
        assert forall|x: int| 0 <= x < graph.edges@.len() && #[trigger] carries(graph.edges@[x], target@) implies !is_block_node(*graph, graph.edges@[x].from) by {
            if is_block_node(*graph, graph.edges@[x].from) {
                assert(carried@.contains(graph.edges@[x].from));
            }
        }
    }
    // block nodes without an outgoing edge
    let mut out: Vec<usize> = Vec::new();
    let mut i: usize = 0;
    while i < graph.nodes.len()
        invariant
            i <= graph.nodes@.len(),
            ascending_usize(out@),
            forall|x: int| 0 <= x < graph.edges@.len() && #[trigger] carries(graph.edges@[x], target@) ==> !is_block_node(*graph, graph.edges@[x].from),
            forall|n: usize| #[trigger] out@.contains(n) ==> direct_driver_node(*graph, target@, n),
            forall|n: usize| #[trigger] node_block_map(graph.nodes@.subrange(0, i as int)).contains_key(n) && direct_driver_node(*graph, target@, n) ==> out@.contains(n),
        decreases graph.nodes@.len() - i,
    {
        proof {
            assert(graph.nodes@.subrange(0, i + 1).drop_last() =~= graph.nodes@.subrange(0, i as int));
        }
        let ghost before = out@;
        match &graph.nodes[i] {
            StableSliceNodeJson::Block { id, .. } => {
                let nid = *id;
                let mut leaves = true;
                let mut x: usize = 0;
                while x < graph.edges.len()
                    invariant
                        x <= graph.edges@.len(),
                        leaves == forall|y: int| 0 <= y < x ==> #[trigger] graph.edges@[y].from != nid,
                    decreases graph.edges@.len() - x,
                {
                    if graph.edges[x].from == nid {
                        leaves = false;
                    }
                    x = x + 1;
                }
                if leaves && block_of_node(&graph.nodes, nid).is_some() {
                    insert_usize(&mut out, nid);
                }
            },
            StableSliceNodeJson::Literal { .. } => {},
        }
        proof {
            assert forall|n: usize| #[trigger] node_block_map(graph.nodes@.subrange(0, i + 1)).contains_key(n) && direct_driver_node(*graph, target@, n) implies out@.contains(n) by {
                if !node_block_map(graph.nodes@.subrange(0, i as int)).contains_key(n) {
                    match graph.nodes@[i as int] {
                        StableSliceNodeJson::Block { id, .. } => {
                            assert(id == n);
                        },
                        StableSliceNodeJson::Literal { .. } => {},
                    }
                }
            }
        }
        i = i + 1;
    }
    proof {
        assert(graph.nodes@.subrange(0, graph.nodes@.len() as int) =~= graph.nodes@);
    }
    out
}

/// The blocks that the block nodes driving `target` directly stand for.
pub open spec fn direct_driver_block(graph: StableSliceGraphJson, target: Seq<char>, b: u64) -> bool {
    exists|n: usize|
        #[trigger] direct_driver_node(graph, target, n) && node_block_map(graph.nodes@).contains_key(n) && node_block_map(
            graph.nodes@,
        )[n] == b
}

fn insert_u64(v: &mut Vec<u64>, x: u64)
    requires
        ascending(old(v)@),
    ensures
        ascending(final(v)@),
        forall|y: u64| #[trigger] final(v)@.contains(y) <==> (old(v)@.contains(y) || y == x),
{
    let ghost before = v@;
    let mut p: usize = 0;
    while p < v.len() && v[p] < x
        invariant
            v@ == before,
            p <= v@.len(),
            forall|a: int| 0 <= a < p ==> v@[a] < x,
        decreases v@.len() - p,
    {
        p = p + 1;
    }
    if p < v.len() && v[p] == x {
        return;
    }
    v.insert(p, x);
    proof {
        assert forall|a: int, b: int| 0 <= a < b < v@.len() implies v@[a] < v@[b] by {
            if a < p && b == p {
            } else if a == p && b > p {
                assert(v@[b] == before[b - 1]);
                if b - 1 > p {
                    assert(before[p as int] < before[b - 1]);
                }
            } else if a < p && b > p {
                assert(v@[b] == before[b - 1]);
            } else if b < p {
            } else {
                assert(v@[a] == before[a - 1]);
                assert(v@[b] == before[b - 1]);
            }
        }
        assert forall|y: u64| #[trigger] v@.contains(y) <==> (before.contains(y) || y == x) by {
            if v@.contains(y) {
                let w = choose|w: int| 0 <= w < v@.len() && v@[w] == y;
                if w < p {
                    assert(before[w] == y);
                } else if w > p {
                    assert(before[w - 1] == y);
                }
            }
            if before.contains(y) {
                let w = choose|w: int| 0 <= w < before.len() && before[w] == y;
                if w < p {
                    assert(v@[w] == y);
                } else {
                    assert(v@[w + 1] == y);
                }
            }
            if y == x {
                assert(v@[p as int] == y);
            }
        }
    }
}

/// The ids of the blocks that drive `target` directly, ascending.
pub fn direct_driver_block_ids(graph: &StableSliceGraphJson, target: &str) -> (r: Vec<u64>)
    ensures
        ascending(r@),
        forall|b: u64| #[trigger] r@.contains(b) <==> direct_driver_block(*graph, target@, b),
{
    let nodes = direct_driver_node_ids(graph, target);
    let mut out: Vec<u64> = Vec::new();
    let mut i: usize = 0;
    while i < nodes.len()
        invariant
            i <= nodes@.len(),
            ascending(out@),
            forall|n: usize| #[trigger] nodes@.contains(n) <==> direct_driver_node(*graph, target@, n),
            forall|b: u64| #[trigger] out@.contains(b) <==> exists|k: int|
                0 <= k < i && node_block_map(graph.nodes@).contains_key(#[trigger] nodes@[k]) && node_block_map(graph.nodes@)[nodes@[k]] == b,
        decreases nodes@.len() - i,
    {
        let ghost before = out@;
        match block_of_node(&graph.nodes, nodes[i]) {
            Some(b) => insert_u64(&mut out, b),
            None => {},
        }
        proof {
            assert forall|b: u64| #[trigger] out@.contains(b) <==> exists|k: int|
                0 <= k < i + 1 && node_block_map(graph.nodes@).contains_key(#[trigger] nodes@[k]) && node_block_map(graph.nodes@)[nodes@[k]] == b by {
                if exists|k: int| 0 <= k < i + 1 && node_block_map(graph.nodes@).contains_key(#[trigger] nodes@[k]) && node_block_map(graph.nodes@)[nodes@[k]] == b {
                    let k = choose|k: int| 0 <= k < i + 1 && node_block_map(graph.nodes@).contains_key(#[trigger] nodes@[k]) && node_block_map(graph.nodes@)[nodes@[k]] == b;
                    if k < i {
                        assert(before.contains(b));
                    }
                }
            }
        }
        i = i + 1;
    }
    proof {
        assert forall|b: u64| #[trigger] out@.contains(b) <==> direct_driver_block(*graph, target@, b) by {
            if out@.contains(b) {
                let k = choose|k: int| 0 <= k < nodes@.len() && node_block_map(graph.nodes@).contains_key(#[trigger] nodes@[k]) && node_block_map(graph.nodes@)[nodes@[k]] == b;
                assert(nodes@.contains(nodes@[k]));
            }
            if direct_driver_block(*graph, target@, b) {
                let n = choose|n: usize|
                    #[trigger] direct_driver_node(*graph, target@, n) && node_block_map(graph.nodes@).contains_key(n) && node_block_map(graph.nodes@)[n] == b;
                assert(nodes@.contains(n));
                let k = choose|k: int| 0 <= k < nodes@.len() && nodes@[k] == n;
            }
        }
    }
    out
}

/// The blocks of `blocks` with id `id`, in order.
pub open spec fn blocks_with_id(blocks: Seq<BlockJson>, id: u64) -> Seq<BlockJson>
    decreases blocks.len(),
{
    if blocks.len() == 0 {
        Seq::<BlockJson>::empty()
    } else if blocks.last().id.0 == id {
        blocks_with_id(blocks.drop_last(), id).push(blocks.last())
    } else {
        blocks_with_id(blocks.drop_last(), id)
    }
}

/// The blocks with each of the ids `ids` in turn.
pub open spec fn blocks_by_ids(blocks: Seq<BlockJson>, ids: Seq<u64>) -> Seq<BlockJson>
    decreases ids.len(),
{
    if ids.len() == 0 {
        Seq::<BlockJson>::empty()
    } else {
        blocks_by_ids(blocks, ids.drop_last()) + blocks_with_id(blocks, ids.last())
    }
}

/// `r` lists the blocks of `graph` that drive `target` directly, by
/// ascending id (blocks with the same id in their order in the graph).
pub open spec fn block_drivers_listed(r: Seq<BlockJson>, graph: StableSliceGraphJson, target: Seq<char>) -> bool {
    exists|ids: Seq<u64>|
        ascending(ids) && (forall|b: u64| #[trigger] ids.contains(b) <==> direct_driver_block(graph, target, b)) && r
            == blocks_by_ids(graph.blocks@, ids)
}

/// The blocks of a slice graph that drive `target` directly, by ascending
/// id (blocks with the same id in their order in the graph).
pub fn slice_block_drivers(graph: &StableSliceGraphJson, target: &str) -> (r: Vec<BlockJson>)
    ensures
        block_drivers_listed(r@, *graph, target@),
{
    let ids = direct_driver_block_ids(graph, target);
    let mut out: Vec<BlockJson> = Vec::new();
    let mut k: usize = 0;
    proof {
        assert(ids@.subrange(0, 0) =~= Seq::<u64>::empty());
    }
    while k < ids.len()
        invariant
            k <= ids@.len(),
            out@ == blocks_by_ids(graph.blocks@, ids@.subrange(0, k as int)),
        decreases ids@.len() - k,
    {
        proof {
            assert(ids@.subrange(0, k + 1).drop_last() =~= ids@.subrange(0, k as int));
        }
        let id = ids[k];
        let ghost start = out@;
        let mut j: usize = 0;
        proof {
            assert(graph.blocks@.subrange(0, 0) =~= Seq::<BlockJson>::empty());
        }
        while j < graph.blocks.len()
            invariant
                j <= graph.blocks@.len(),
                out@ == start + blocks_with_id(graph.blocks@.subrange(0, j as int), id),
            decreases graph.blocks@.len() - j,
        {
            proof {
                assert(graph.blocks@.subrange(0, j + 1).drop_last() =~= graph.blocks@.subrange(0, j as int));
            }
            if graph.blocks[j].id.0 == id {
                out.push(graph.blocks[j].clone());
            }
            j = j + 1;
        }
        proof {
            assert(graph.blocks@.subrange(0, graph.blocks@.len() as int) =~= graph.blocks@);
        }
        k = k + 1;
    }
    proof {
        assert(ids@.subrange(0, ids@.len() as int) =~= ids@);
    }
    out
}

/// The signals on edges into the direct drivers of `target`, by name (a
/// later edge's signal replacing an earlier one of the same name).
pub open spec fn driver_signal_map(graph: StableSliceGraphJson, target: Seq<char>, edges: Seq<StableSliceEdgeJson>) -> Map<
    Seq<char>,
    SignalNode,
>
    decreases edges.len(),
{
    if edges.len() == 0 {
        Map::empty()
    } else {
        let m = driver_signal_map(graph, target, edges.drop_last());
        let e = edges.last();
        match e.signal {
            Some(s) => if direct_driver_node(graph, target, e.to) {
                m.insert(s.name@, s)
            } else {
                m
            },
            None => m,
        }
    }
}

/// `r` lists the signals that flow into the blocks of `graph` driving
/// `target` directly: one per name, ordered by name.
pub open spec fn signal_drivers_listed(r: Seq<SignalNode>, graph: StableSliceGraphJson, target: Seq<char>) -> bool {
    &&& forall|name: Seq<char>| driver_signal_map(graph, target, graph.edges@).contains_key(name) <==> exists|i: int|
        0 <= i < r.len() && #[trigger] r[i].name@ == name
    &&& forall|i: int| 0 <= i < r.len() ==> #[trigger] r[i] == driver_signal_map(graph, target, graph.edges@)[r[i].name@]
    &&& forall|a: int, b: int| 0 <= a < b < r.len() ==> r[a].name@ != r[b].name@ && !seq_lt(text_key(r[b].name@), text_key(r[a].name@))
}

/// The signals that flow into the blocks driving `target` directly: one per
/// name, ordered by name.
pub fn slice_signal_drivers(graph: &StableSliceGraphJson, target: &str) -> (r: Vec<SignalNode>)
    ensures
        signal_drivers_listed(r@, *graph, target@),
{
    let ids = direct_driver_node_ids(graph, target);
    let mut by_name: NameMap<SignalNode> = NameMap::new();
    let mut e: usize = 0;
    proof {
        assert(graph.edges@.subrange(0, 0) =~= Seq::<StableSliceEdgeJson>::empty());
    }
    while e < graph.edges.len()
        invariant
            e <= graph.edges@.len(),
            forall|n: usize| #[trigger] ids@.contains(n) <==> direct_driver_node(*graph, target@, n),
            by_name.map() == driver_signal_map(*graph, target@, graph.edges@.subrange(0, e as int)),
            forall|name: Seq<char>| #[trigger] by_name.map().contains_key(name) ==> by_name.map()[name].name@ == name,
        decreases graph.edges@.len() - e,
    {
        proof {
            assert(graph.edges@.subrange(0, e + 1).drop_last() =~= graph.edges@.subrange(0, e as int));
        }
        let edge = &graph.edges[e];
        match &edge.signal {
            Some(sig) => {
                if contains_usize(&ids, edge.to) {
                    by_name.insert(sig.name.clone(), sig.clone());
                }
            },
            None => {},
        }
        e = e + 1;
    }
    proof {
        assert(graph.edges@.subrange(0, graph.edges@.len() as int) =~= graph.edges@);
    }
    let ghost m = by_name.map();
    let names = by_name.keys();
    let mut keys: Vec<Vec<u64>> = Vec::new();
    let mut i: usize = 0;
    while i < names.len()
        invariant
            i <= names@.len(),
            keys@.len() == i,
            forall|a: int| 0 <= a < i ==> #[trigger] keys@[a]@ == text_key(names@[a]@),
        decreases names@.len() - i,
    {
        let cs = chars_of(names[i].as_str());
        let mut key: Vec<u64> = Vec::new();
        push_text_key(&mut key, cs.as_slice());
        proof {
            assert(key@ =~= text_key(names@[i as int]@));
        }
        keys.push(key);
        i = i + 1;
    }
    let perm = sort_perm(&keys);
    let mut out: Vec<SignalNode> = Vec::new();
    let mut k: usize = 0;
    while k < perm.len()
        invariant
            m == by_name.map(),
            perm@.len() == names@.len(),
            keys@.len() == names@.len(),
            forall|a: int| 0 <= a < perm@.len() ==> #[trigger] perm@[a] < names@.len(),
            forall|name: Seq<char>| m.contains_key(name) <==> exists|a: int| 0 <= a < names@.len() && #[trigger] names@[a]@ == name,
            k <= perm@.len(),
            out@.len() == k,
            forall|a: int| 0 <= a < k ==> #[trigger] out@[a] == m[names@[perm@[a] as int]@] && out@[a].name@ == names@[perm@[a] as int]@,
            forall|name: Seq<char>| #[trigger] m.contains_key(name) ==> m[name].name@ == name,
        decreases perm@.len() - k,
    {
        let name = &names[perm[k]];
        proof {
            assert(m.contains_key(names@[perm@[k as int] as int]@));
        }
        match by_name.get(name.as_str()) {
            Some(sig) => {
                out.push(sig.clone());
            },
            None => {
                proof {
                    assert(false);
                }
            },
        }
        k = k + 1;
    }
    proof {
        let kv = key_views(keys@);
        assert forall|name: Seq<char>| m.contains_key(name) <==> exists|i: int| 0 <= i < out@.len() && #[trigger] out@[i].name@ == name by {
            if m.contains_key(name) {
                let a = choose|a: int| 0 <= a < names@.len() && #[trigger] names@[a]@ == name;
                assert(perm@.contains(a as usize));
                let b = choose|b: int| 0 <= b < perm@.len() && perm@[b] == a as usize;
                assert(out@[b].name@ == name);
            }
            if exists|i: int| 0 <= i < out@.len() && #[trigger] out@[i].name@ == name {
                let i = choose|i: int| 0 <= i < out@.len() && #[trigger] out@[i].name@ == name;
                assert(names@[perm@[i] as int]@ == name);
            }
        }
        assert forall|a: int, b: int| 0 <= a < b < out@.len() implies out@[a].name@ != out@[b].name@ && !seq_lt(
            text_key(out@[b].name@),
            text_key(out@[a].name@),
        ) by {
            assert(perm@[a] != perm@[b]);
            if perm@[a] < perm@[b] {
                assert(names@[perm@[a] as int]@ != names@[perm@[b] as int]@);
            } else {
                assert(names@[perm@[b] as int]@ != names@[perm@[a] as int]@);
            }
            assert(keyed_lt(kv[perm@[a] as int], perm@[a] as int, kv[perm@[b] as int], perm@[b] as int));
            assert(kv[perm@[a] as int] == text_key(out@[a].name@));
            assert(kv[perm@[b] as int] == text_key(out@[b].name@));
            if seq_lt(kv[perm@[a] as int], kv[perm@[b] as int]) {
                lemma_seq_lt_asymmetric(kv[perm@[a] as int], kv[perm@[b] as int]);
            } else {
                lemma_seq_lt_irreflexive(kv[perm@[a] as int]);
            }
        }
    }
    out
}

fn contains_usize(v: &Vec<usize>, x: usize) -> (r: bool)
    ensures
        r == v@.contains(x),
{
    let mut i: usize = 0;
    while i < v.len()
        invariant
            i <= v@.len(),
            forall|j: int| 0 <= j < i ==> v@[j] != x,
        decreases v@.len() - i,
    {
        if v[i] == x {
            return true;
        }
        i = i + 1;
    }
    false
}

/// What std's `char::to_lowercase` gives for `c`.
pub uninterp spec fn char_lowercase(c: char) -> Seq<char>;

/// The lower-case form of `c` (std's `char::to_lowercase`): an ASCII capital
/// letter becomes its small letter, any other ASCII character stays.
#[verifier::external_body]
fn to_lowercase(c: char) -> (r: Vec<char>)
    ensures
        r@ == char_lowercase(c),
        'A' <= c <= 'Z' ==> r@ == seq![((c as u32) + 32) as char],
        (c as u32) < 128 && !('A' <= c <= 'Z') ==> r@ == seq![c],
{
    c.to_lowercase().collect()
}

/// A filter word without `-` and `_`, in lower case.
pub open spec fn filter_token(s: Seq<char>) -> Seq<char>
    decreases s.len(),
{
    if s.len() == 0 {
        Seq::<char>::empty()
    } else if s.last() == '-' || s.last() == '_' {
        filter_token(s.drop_last())
    } else {
        filter_token(s.drop_last()) + char_lowercase(s.last())
    }
}

fn normalize_filter_token(value: &str) -> (r: Vec<char>)
    ensures
        r@ == filter_token(value@),
{
    let cs = chars_of(value);
    let mut out: Vec<char> = Vec::new();
    let mut i: usize = 0;
    while i < cs.len()
        invariant
            cs@ == value@,
            i <= cs@.len(),
            out@ == filter_token(cs@.subrange(0, i as int)),
        decreases cs@.len() - i,
    {
        proof {
            assert(cs@.subrange(0, i + 1).drop_last() =~= cs@.subrange(0, i as int));
        }
        let c = cs[i];
        if c != '-' && c != '_' {
            let low = to_lowercase(c);
            crate::debug_text::append_chars(&mut out, low.as_slice());
        }
        i = i + 1;
    }
    proof {
        assert(cs@.subrange(0, cs@.len() as int) =~= cs@);
    }
    out
}

/// The block type a filter word names (`modinput`, `modoutput`, `always`,
/// `assign`, in any case, with `-` and `_` ignored), else the word itself.
pub open spec fn block_type_filter(value: Seq<char>) -> Seq<char> {
    let t = filter_token(value);
    if t == "modinput"@ {
        "ModInput"@
    } else if t == "modoutput"@ {
        "ModOutput"@
    } else if t == "always"@ {
        "Always"@
    } else if t == "assign"@ {
        "Assign"@
    } else {
        value
    }
}

/// The circuit type a filter word names (`combinational`, `sequential`), else the word itself.
pub open spec fn circuit_type_filter(value: Seq<char>) -> Seq<char> {
    let t = filter_token(value);
    if t == "combinational"@ {
        "Combinational"@
    } else if t == "sequential"@ {
        "Sequential"@
    } else {
        value
    }
}

pub fn normalize_block_type(value: &str) -> (r: String)
    ensures
        r@ == block_type_filter(value@),
{
    let t = normalize_filter_token(value);
    if crate::text::chars_eq(t.as_slice(), chars_of("modinput").as_slice()) {
        "ModInput".to_owned()
    } else if crate::text::chars_eq(t.as_slice(), chars_of("modoutput").as_slice()) {
        "ModOutput".to_owned()
    } else if crate::text::chars_eq(t.as_slice(), chars_of("always").as_slice()) {
        "Always".to_owned()
    } else if crate::text::chars_eq(t.as_slice(), chars_of("assign").as_slice()) {
        "Assign".to_owned()
    } else {
        value.to_owned()
    }
}

pub fn normalize_circuit_type(value: &str) -> (r: String)
    ensures
        r@ == circuit_type_filter(value@),
{
    let t = normalize_filter_token(value);
    if crate::text::chars_eq(t.as_slice(), chars_of("combinational").as_slice()) {
        "Combinational".to_owned()
    } else if crate::text::chars_eq(t.as_slice(), chars_of("sequential").as_slice()) {
        "Sequential".to_owned()
    } else {
        value.to_owned()
    }
}

/// The scope is `prefix` or lies below it.
pub open spec fn in_scope(module_scope: Seq<char>, prefix: Seq<char>) -> bool {
    module_scope == prefix || (spec_starts_with(module_scope, prefix) && module_scope.len() > prefix.len()
        && module_scope[prefix.len() as int] == '.')
}

pub fn scope_matches(module_scope: &str, scope_prefix: &str) -> (r: bool)
    ensures
        r == in_scope(module_scope@, scope_prefix@),
{
    let m = chars_of(module_scope);
    let p = chars_of(scope_prefix);
    if crate::text::chars_eq(m.as_slice(), p.as_slice()) {
        return true;
    }
    starts_with(m.as_slice(), p.as_slice()) && m.len() > p.len() && m[p.len()] == '.'
}

/// `name` is among the block's signals.
pub open spec fn has_signal(block_signals: Seq<String>, name: Seq<char>) -> bool {
    exists|j: int| 0 <= j < block_signals.len() && #[trigger] block_signals[j]@ == name
}

/// Every requested signal is among the block's signals.
pub open spec fn has_all(block_signals: Seq<String>, requested: Seq<String>) -> bool {
    forall|i: int| 0 <= i < requested.len() ==> has_signal(block_signals, #[trigger] requested[i]@)
}

pub fn contains_all_signals(block_signals: &Vec<String>, requested_signals: &Vec<String>) -> (r: bool)
    ensures
        r == has_all(block_signals@, requested_signals@),
{
    let mut i: usize = 0;
    while i < requested_signals.len()
        invariant
            i <= requested_signals@.len(),
            forall|a: int| 0 <= a < i ==> has_signal(block_signals@, #[trigger] requested_signals@[a]@),
        decreases requested_signals@.len() - i,
    {
        let mut found = false;
        let mut j: usize = 0;
        while j < block_signals.len()
            invariant
                i < requested_signals@.len(),
                j <= block_signals@.len(),
                found ==> exists|b: int| 0 <= b < block_signals@.len() && #[trigger] block_signals@[b]@ == requested_signals@[i as int]@,
                !found ==> forall|b: int| 0 <= b < j ==> block_signals@[b]@ != requested_signals@[i as int]@,
            decreases block_signals@.len() - j,
        {
            if str_eq(block_signals[j].as_str(), requested_signals[i].as_str()) {
                found = true;
            }
            j = j + 1;
        }
        if !found {
            proof {
                assert(!has_signal(block_signals@, requested_signals@[i as int]@));
            }
            return false;
        }
        i = i + 1;
    }
    true
}

/// A block as a blocks query reads it.
#[derive(Debug)]
pub struct BlockQueryView {
    pub id: u64,
    pub block_type: String,
    pub circuit_type: String,
    pub module_scope: String,
    pub source_file: String,
    pub input_signals: Vec<String>,
    pub output_signals: Vec<String>,
}

/// The filters of a blocks query over a saved block set.
#[derive(Debug, Default)]
pub struct BlocksQueryRequest {
    pub input: PathBuf,
    pub block_id: Option<u64>,
    pub output_signals: Vec<String>,
    pub input_signals: Vec<String>,
    pub scope: Option<String>,
    pub block_type: Option<String>,
    pub circuit_type: Option<String>,
    pub source_file: Option<String>,
}

/// Whether a block passes every filter of a query that is set.
pub open spec fn block_passes(block: BlockQueryView, req: BlocksQueryRequest) -> bool {
    &&& (req.block_id matches Some(id) ==> block.id == id)
    &&& has_all(block.output_signals@, req.output_signals@)
    &&& has_all(block.input_signals@, req.input_signals@)
    &&& (req.scope matches Some(scope) ==> in_scope(block.module_scope@, scope@))
    &&& (req.block_type matches Some(t) ==> block_type_filter(t@) == block.block_type@)
    &&& (req.circuit_type matches Some(t) ==> circuit_type_filter(t@) == block.circuit_type@)
    &&& (req.source_file matches Some(suffix) ==> spec_ends_with(block.source_file@, suffix@))
}

pub fn block_matches(block: &BlockQueryView, req: &BlocksQueryRequest) -> (r: bool)
    ensures
        r == block_passes(*block, *req),
{
    let id_ok = match req.block_id {
        Some(id) => block.id == id,
        None => true,
    };
    if !id_ok {
        return false;
    }
    if !contains_all_signals(&block.output_signals, &req.output_signals) {
        return false;
    }
    if !contains_all_signals(&block.input_signals, &req.input_signals) {
        return false;
    }
    let scope_ok = match &req.scope {
        Some(scope) => scope_matches(block.module_scope.as_str(), scope.as_str()),
        None => true,
    };
    if !scope_ok {
        return false;
    }
    let type_ok = match &req.block_type {
        Some(t) => str_eq(normalize_block_type(t.as_str()).as_str(), block.block_type.as_str()),
        None => true,
    };
    if !type_ok {
        return false;
    }
    let circuit_ok = match &req.circuit_type {
        Some(t) => str_eq(normalize_circuit_type(t.as_str()).as_str(), block.circuit_type.as_str()),
        None => true,
    };
    if !circuit_ok {
        return false;
    }
    match &req.source_file {
        Some(suffix) => ends_with(chars_of(block.source_file.as_str()).as_slice(), chars_of(suffix.as_str()).as_slice()),
        None => true,
    }
}

/// A character that may stand in a file name as it is.
pub open spec fn safe_char(c: char) -> bool {
    spec_is_ascii_alnum(c) || c == '-' || c == '_' || c == '.'
}

/// `value` with every other character replaced by `_`; `slice` when empty.
pub open spec fn safe_segment(value: Seq<char>) -> Seq<char> {
    if value.len() == 0 {
        "slice"@
    } else {
        value.map_values(|c: char| if safe_char(c) { c } else { '_' })
    }
}

pub fn safe_filename_segment(value: &str) -> (r: String)
    ensures
        r@ == safe_segment(value@),
{
    let cs = chars_of(value);
    if cs.len() == 0 {
        return "slice".to_owned();
    }
    let mut out: Vec<char> = Vec::new();
    let mut i: usize = 0;
    while i < cs.len()
        invariant
            cs@ == value@,
            i <= cs@.len(),
            out@ == cs@.subrange(0, i as int).map_values(|c: char| if safe_char(c) { c } else { '_' }),
        decreases cs@.len() - i,
    {
        let c = cs[i];
        let keep = is_ascii_alnum(c) || c == '-' || c == '_' || c == '.';
        out.push(if keep { c } else { '_' });
        proof {
            assert(cs@.subrange(0, i + 1).map_values(|c: char| if safe_char(c) { c } else { '_' }) =~= cs@.subrange(0, i as int).map_values(
                |c: char| if safe_char(c) { c } else { '_' },
            ).push(if keep { c } else { '_' }));
        }
        i = i + 1;
    }
    proof {
        assert(cs@.subrange(0, cs@.len() as int) =~= cs@);
    }
    string_of(out.as_slice())
}

/// Sources to cut into blocks.
#[derive(Debug)]
pub struct BlockizeRequest {
    pub sv_files: Vec<PathBuf>,
    pub parse_options: ParseOptions,
}

/// Sources to cut into blocks, and where to save the result.
#[derive(Debug)]
pub struct CreateBlockizeArtifactRequest {
    pub sv_files: Vec<PathBuf>,
    pub parse_options: ParseOptions,
    pub artifact_dir: Option<PathBuf>,
}

/// A saved block set and where it was saved.
#[derive(Debug)]
pub struct BlockizeArtifactResponse {
    pub path: String,
    pub mode: String,
    pub block_set: BlockSet,
}

/// A static slice of a signal over some sources.
#[derive(Debug)]
pub struct StaticSliceRequest {
    pub sv_files: Vec<PathBuf>,
    pub parse_options: ParseOptions,
    pub signal: String,
}

/// A dynamic slice of a signal over some sources and a waveform.
#[derive(Debug)]
pub struct DynamicSliceRequest {
    pub sv_files: Vec<PathBuf>,
    pub parse_options: ParseOptions,
    pub signal: String,
    pub vcd: PathBuf,
    pub tree_json: Option<PathBuf>,
    pub tree_meta_json: Option<PathBuf>,
    pub time: i64,
    pub min_time: i64,
    pub clock: Option<String>,
    pub clk_step: Option<i64>,
}

/// Which assignments of some sources ran at a time of a waveform.
#[derive(Debug)]
pub struct CoverageReportRequest {
    pub sv_files: Vec<PathBuf>,
    pub parse_options: ParseOptions,
    pub vcd: PathBuf,
    pub time: i64,
}

/// The value of a signal of a waveform at a time.
#[derive(Debug)]
pub struct WaveValueRequest {
    pub vcd: PathBuf,
    pub signal: String,
    pub time: i64,
}

/// A search of a waveform's signal names.
#[derive(Debug)]
pub struct WaveSignalSearchRequest {
    pub vcd: PathBuf,
    pub query: String,
    pub limit: usize,
}

/// The signal names that a search found.
#[derive(Debug)]
pub struct WaveSignalSearchResponse {
    pub query: String,
    pub matches: Vec<String>,
}

/// A static slice to save.
#[derive(Debug)]
pub struct CreateStaticSliceArtifactRequest {
    pub sv_files: Vec<PathBuf>,
    pub parse_options: ParseOptions,
    pub signal: String,
    pub artifact_dir: Option<PathBuf>,
}

/// A dynamic slice to save.
#[derive(Debug)]
pub struct CreateDynamicSliceArtifactRequest {
    pub sv_files: Vec<PathBuf>,
    pub parse_options: ParseOptions,
    pub signal: String,
    pub vcd: PathBuf,
    pub tree_json: Option<PathBuf>,
    pub tree_meta_json: Option<PathBuf>,
    pub time: i64,
    pub min_time: i64,
    pub clock: Option<String>,
    pub clk_step: Option<i64>,
    pub artifact_dir: Option<PathBuf>,
}

/// A saved slice graph and where it was saved.
#[derive(Debug)]
pub struct SliceArtifactResponse {
    pub path: String,
    pub target: String,
    pub mode: String,
    pub graph: StableSliceGraphJson,
}

/// Which saved slice to read, and which signal to ask about.
#[derive(Debug)]
pub struct SliceArtifactQueryRequest {
    pub slice_json: Option<PathBuf>,
    pub artifact_dir: Option<PathBuf>,
    pub signal: Option<String>,
}

/// The signals that flow into the blocks driving a signal in a saved slice.
#[derive(Debug)]
pub struct SliceSignalDriversResponse {
    pub slice_json: String,
    pub target: String,
    pub signals: Vec<SignalNode>,
}

/// The blocks driving a signal in a saved slice.
#[derive(Debug)]
pub struct SliceBlockDriversResponse {
    pub slice_json: String,
    pub target: String,
    pub blocks: Vec<BlockJson>,
}

/// `names` lists exactly the names `m` knows.
pub open spec fn lists_names<V>(names: Seq<Seq<char>>, m: Map<Seq<char>, V>) -> bool {
    forall|k: Seq<char>| m.contains_key(k) <==> #[trigger] names.contains(k)
}

/// The value of `signal` at `time` in `reader`. When the waveform has no
/// value for it, the error names the closest of the waveform's signal names.
pub fn wave_value(reader: &WellenReader, signal: &str, time: i64) -> (r: Result<SignalValue, SvaError>)
    ensures
        time < 0 || !(reader.lookup().contains_key(signal@) && reader.lookup()[signal@] is Some) ==> r matches Err(
            SvaError::SignalNotFound(_),
        ),
        r matches Err(e) ==> match e {
            SvaError::SignalNotFound(nf) => nf.signal@ == signal@ && exists|names: Seq<Seq<char>>|
                lists_names(names, reader.lookup()) && top_matches(string_views(nf.suggestions@), signal@, names),
            SvaError::SignalDataNotLoaded(name) => name@ == signal@,
            _ => false,
        },
        r matches Ok(v) ==> match v.pretty_hex {
            Some(h) => hex_text(v.raw_bits@) == Some(h@),
            None => hex_text(v.raw_bits@) is None,
        },
{
    let node = SignalNode::named(signal);
    match reader.signal_value_at(&node, Timestamp(time)) {
        Ok(Some(v)) => Ok(v),
        Ok(None) => {
            let names = reader.signal_names();
            let suggestions = FuzzyMatch::find_top_n(signal, names.as_slice());
            proof {
                let nv = string_views(names@);
                assert forall|k: Seq<char>| reader.lookup().contains_key(k) <==> #[trigger] nv.contains(k) by {
                    if reader.lookup().contains_key(k) {
                        let i = choose|i: int| 0 <= i < names@.len() && #[trigger] names@[i]@ == k;
                        assert(nv[i] == k);
                    }
                    if nv.contains(k) {
                        let i = choose|i: int| 0 <= i < nv.len() && nv[i] == k;
                        assert(names@[i]@ == k);
                    }
                }
                assert(top_matches(string_views(suggestions@), signal@, nv));
                assert(lists_names(nv, reader.lookup()));
            }
            let owned = signal.to_owned();
            assert(owned@ == signal@);
            Err(SvaError::SignalNotFound(SignalNotFound { signal: owned, suggestions }))
        },
        Err(e) => {
            assert(e matches SvaError::SignalDataNotLoaded(name) && name@ == signal@);
            Err(e)
        },
    }
}

/// The signal asked about, or else the slice's target.
pub open spec fn query_target(graph: StableSliceGraphJson, signal: Option<String>) -> Seq<char> {
    match signal {
        Some(s) => s@,
        None => graph.target@,
    }
}

/// The signals flowing into the drivers of a signal in the slice graph saved
/// at `slice_json`: of the signal asked about, or else of the slice's target.
pub fn query_slice_signal_drivers(
    slice_json: String,
    graph: &StableSliceGraphJson,
    signal: Option<String>,
) -> (r: SliceSignalDriversResponse)
    ensures
        r.slice_json@ == slice_json@,
        r.target@ == query_target(*graph, signal),
        signal_drivers_listed(r.signals@, *graph, r.target@),
{
    let target = match signal {
        Some(s) => s,
        None => graph.target.clone(),
    };
    let signals = slice_signal_drivers(graph, target.as_str());
    SliceSignalDriversResponse { slice_json, target, signals }
}

/// The blocks driving a signal in the slice graph saved at `slice_json`: the
/// signal asked about, or else the slice's target.
pub fn query_slice_block_drivers(
    slice_json: String,
    graph: &StableSliceGraphJson,
    signal: Option<String>,
) -> (r: SliceBlockDriversResponse)
    ensures
        r.slice_json@ == slice_json@,
        r.target@ == query_target(*graph, signal),
        block_drivers_listed(r.blocks@, *graph, r.target@),
{
    let target = match signal {
        Some(s) => s,
        None => graph.target.clone(),
    };
    let blocks = slice_block_drivers(graph, target.as_str());
    SliceBlockDriversResponse { slice_json, target, blocks }
}

/// The dynamic slice of `block_set` from `signal` at `time` (see
/// `dynamic_slice_json`), with its scopes and signal names rewritten to the
/// waveform's paths.
pub fn slice_dynamic<C: CoverageTracker>(
    block_set: BlockSet,
    coverage: Arc<C>,
    waveform: &WellenReader,
    signal: &str,
    time: i64,
    min_time: i64,
) -> (r: Result<StableSliceGraphJson, SvaError>)
    ensures
        slice_start_error(*coverage, time, min_time) matches Some(e) ==> r == Err::<StableSliceGraphJson, SvaError>(e),
        slice_start_error(*coverage, time, min_time) is None && !({
            let q = (SignalNodeKind::Variable, signal@);
            drivers_of(block_set@, q).len() > 0 || exists|k: SignalKey| unique_alias(block_set@, q, k)
        }) ==> (r matches Err(e) && e matches SvaError::SignalNotFound(nf) && nf.signal@ == signal@ && top_matches(
            string_views(nf.suggestions@),
            signal@,
            block_set.signal_name_views(),
        )),
        slice_start_error(*coverage, time, min_time) is None && ({
            let q = (SignalNodeKind::Variable, signal@);
            drivers_of(block_set@, q).len() > 0 || exists|k: SignalKey| unique_alias(block_set@, q, k)
        }) && never_fails(*coverage) ==> r is Ok,
        r matches Ok(g) ==> g.target@ == remapped_name(waveform.remap(), signal@) && g.start_time == Some(Timestamp(time))
            && exists|req: SliceRequest, s: InstructionExecutionPath, g0: StableSliceGraphJson|
            #![trigger answered_slice_of(block_set, *coverage, req, s), s.stable_form(g0), remapped_graph(waveform.remap(), g0, g)]
            req.signal@ == (SignalNodeKind::Variable, signal@) && req.time == Timestamp(time) && req.min_time == Timestamp(min_time)
                && answered_slice_of(block_set, *coverage, req, s) && has_dynamic_slice_shape(block_set@, min_time, s)
                && s.stable_form(g0) && remapped_graph(waveform.remap(), g0, g),
{
    let mut graph = match dynamic_slice_json(block_set, coverage, signal, time, min_time) {
        Ok(g) => g,
        Err(e) => {
            return Err(e);
        },
    };
    let ghost g0 = graph;
    apply_scope_remap_to_graph(waveform, &mut graph);
    proof {
        assert(remapped_graph(waveform.remap(), g0, graph));
    }
    Ok(graph)
}

/// The positions of the blocks that pass every filter of `req`, ascending.
pub open spec fn passing_positions(views: Seq<BlockQueryView>, req: BlocksQueryRequest) -> Seq<usize>
    decreases views.len(),
{
    if views.len() == 0 {
        Seq::empty()
    } else {
        let rest = passing_positions(views.drop_last(), req);
        if block_passes(views.last(), req) {
            rest.push((views.len() - 1) as usize)
        } else {
            rest
        }
    }
}

/// The positions of the blocks of a saved block set that a blocks query
/// matches, in the order of the set.
pub fn matching_blocks(views: &Vec<BlockQueryView>, req: &BlocksQueryRequest) -> (r: Vec<usize>)
    ensures
        r@ == passing_positions(views@, *req),
{
    let mut out: Vec<usize> = Vec::new();
    let mut i: usize = 0;
    while i < views.len()
        invariant
            i <= views@.len(),
            out@ == passing_positions(views@.subrange(0, i as int), *req),
        decreases views@.len() - i,
    {
        proof {
            let next = views@.subrange(0, i + 1);
            assert(next.drop_last() =~= views@.subrange(0, i as int));
            assert(next.last() == views@[i as int]);
        }
        if block_matches(&views[i], req) {
            out.push(i);
        }
        i = i + 1;
    }
    proof {
        assert(views@.subrange(0, views@.len() as int) =~= views@);
    }
    out
}

/// A query that sets no filter matches every block.
pub proof fn lemma_unfiltered_query_matches_all(block: BlockQueryView, req: BlocksQueryRequest)
    requires
        req.block_id is None,
        req.output_signals@.len() == 0,
        req.input_signals@.len() == 0,
        req.scope is None,
        req.block_type is None,
        req.circuit_type is None,
        req.source_file is None,
    ensures
        block_passes(block, req),
{
}

/// Whether `name` is among `signals`, spelled out.
pub open spec fn listed(signals: Seq<String>, name: Seq<char>) -> bool {
    exists|j: int| 0 <= j < signals.len() && #[trigger] signals[j]@ == name
}

/// A signal filter holds exactly when each requested signal, every one of
/// them, is one of the block's signals.
pub proof fn lemma_signal_filter_needs_every_signal(block_signals: Seq<String>, requested: Seq<String>)
    ensures
        has_all(block_signals, requested) <==> forall|i: int| 0 <= i < requested.len() ==> #[trigger] listed(block_signals, requested[i]@),
{
    assert forall|i: int| 0 <= i < requested.len() implies #[trigger] listed(block_signals, requested[i]@) == has_signal(
        block_signals,
        requested[i]@,
    ) by {
        if has_signal(block_signals, requested[i]@) {
            let j = choose|j: int| 0 <= j < block_signals.len() && #[trigger] block_signals[j]@ == requested[i]@;
            assert(block_signals[j]@ == requested[i]@);
        }
        if listed(block_signals, requested[i]@) {
            let j = choose|j: int| 0 <= j < block_signals.len() && #[trigger] block_signals[j]@ == requested[i]@;
            assert(block_signals[j]@ == requested[i]@);
        }
    }
    if has_all(block_signals, requested) {
        assert forall|i: int| 0 <= i < requested.len() implies #[trigger] listed(block_signals, requested[i]@) by {
            assert(has_signal(block_signals, requested[i]@));
        }
    }
    if forall|i: int| 0 <= i < requested.len() ==> #[trigger] listed(block_signals, requested[i]@) {
        assert forall|i: int| 0 <= i < requested.len() implies has_signal(block_signals, #[trigger] requested[i]@) by {
            assert(listed(block_signals, requested[i]@));
        }
    }
}

/// Every block a query returns drives each requested output signal and reads
/// each requested input signal.
pub proof fn lemma_matches_hold_every_requested_signal(views: Seq<BlockQueryView>, req: BlocksQueryRequest, p: usize)
    requires
        views.len() <= usize::MAX,
        passing_positions(views, req).contains(p),
    ensures
        p < views.len(),
        forall|i: int| 0 <= i < req.output_signals@.len() ==> #[trigger] listed(views[p as int].output_signals@, req.output_signals@[i]@),
        forall|i: int| 0 <= i < req.input_signals@.len() ==> #[trigger] listed(views[p as int].input_signals@, req.input_signals@[i]@),
    decreases views.len(),
{
    if views.len() == 0 {
        assert(false);
    } else {
        let rest = passing_positions(views.drop_last(), req);
        let all = passing_positions(views, req);
        let w = choose|w: int| 0 <= w < all.len() && all[w] == p;
        if block_passes(views.last(), req) && p == views.len() - 1 {
            lemma_signal_filter_needs_every_signal(views.last().output_signals@, req.output_signals@);
            lemma_signal_filter_needs_every_signal(views.last().input_signals@, req.input_signals@);
        } else {
            if block_passes(views.last(), req) {
                assert(all == rest.push((views.len() - 1) as usize));
                assert(w < rest.len());
                assert(rest[w] == p);
            } else {
                assert(all == rest);
            }
            assert(rest.contains(p));
            lemma_matches_hold_every_requested_signal(views.drop_last(), req, p);
            assert(views.drop_last()[p as int] == views[p as int]);
        }
    }
}

/// A scope filter matches its own scope and every scope below it, and no
/// scope that merely starts with the same letters.
pub proof fn lemma_scope_filter_matches_descendants(scope: Seq<char>, child: Seq<char>, other: Seq<char>)
    requires
        other.len() > 0,
        other[0] != '.',
    ensures
        in_scope(scope, scope),
        in_scope(scope + "."@ + child, scope),
        !in_scope(scope + other, scope),
{
    reveal_strlit(".");
    let d = scope + "."@ + child;
    assert(d.subrange(0, scope.len() as int) =~= scope);
    assert(d[scope.len() as int] == '.');
    let o = scope + other;
    assert(o.subrange(0, scope.len() as int) =~= scope);
    assert(o[scope.len() as int] == other[0]);
    assert(o.len() > scope.len());
    assert(o != scope);
}

/// A block's position is among the matches of a query exactly when the
/// block passes every filter that the query sets.
pub proof fn lemma_matches_are_the_passing_blocks(views: Seq<BlockQueryView>, req: BlocksQueryRequest, i: int)
    requires
        0 <= i < views.len(),
        views.len() <= usize::MAX,
    ensures
        passing_positions(views, req).contains(i as usize) <==> block_passes(views[i], req),
    decreases views.len(),
{
    let rest = views.drop_last();
    let pr = passing_positions(rest, req);
    let p = passing_positions(views, req);
    let last = (views.len() - 1) as usize;
    assert(p == if block_passes(views.last(), req) {
        pr.push(last)
    } else {
        pr
    });
    lemma_positions_below(rest, req);
    if i < views.len() - 1 {
        lemma_matches_are_the_passing_blocks(rest, req, i);
        assert(rest[i] == views[i]);
        if p.contains(i as usize) {
            let k = choose|k: int| 0 <= k < p.len() && p[k] == i as usize;
            if k < pr.len() {
                assert(pr[k] == i as usize);
            }
        }
        if pr.contains(i as usize) {
            let k = choose|k: int| 0 <= k < pr.len() && pr[k] == i as usize;
            assert(p[k] == i as usize);
        }
    } else {
        if block_passes(views.last(), req) {
            assert(p[p.len() - 1] == i as usize);
        } else if p.contains(i as usize) {
            let k = choose|k: int| 0 <= k < p.len() && p[k] == i as usize;
            assert(p[k] < rest.len());
        }
    }
}

/// Every position that `passing_positions` lists is a position of `views`.
proof fn lemma_positions_below(views: Seq<BlockQueryView>, req: BlocksQueryRequest)
    ensures
        forall|k: int| 0 <= k < passing_positions(views, req).len() ==> #[trigger] passing_positions(views, req)[k] < views.len(),
    decreases views.len(),
{
    if views.len() > 0 {
        let rest = views.drop_last();
        let pr = passing_positions(rest, req);
        let p = passing_positions(views, req);
        lemma_positions_below(rest, req);
        assert(p == if block_passes(views.last(), req) {
            pr.push((views.len() - 1) as usize)
        } else {
            pr
        });
        assert forall|k: int| 0 <= k < p.len() implies #[trigger] p[k] < views.len() by {
            if k < pr.len() {
                assert(p[k] == pr[k]);
            }
        }
    }
}

} // verus!
