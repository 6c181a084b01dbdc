use vstd::prelude::*;


use crate::coverage::statements::texts_of;
use crate::debug_text::{append_chars, append_str};
use crate::error::SvaError;
use crate::order::{key_views, keyed_lt, push_text_key, seq_lt, sort_perm, text_key};
use crate::text::{chars_of, spec_starts_with, starts_with, str_eq, string_of};
use crate::types::{BlockId, SignalLocate, SignalNode, SignalNodeKind};
use crate::wave::utf8_len;

use crate::name_map::NameMap;
use super::instances::{connection_for, connection_of, ModuleInstance, PortConnection};
use super::set::BlockSet;

use super::{Block, BlockType, BlockView, CircuitType, DataflowEntry};

verus! {

/// Everything a signal node holds: kind, name and location.
pub type FullSignal = (SignalNodeKind, Seq<char>, SignalLocate);

pub open spec fn full_view(n: SignalNode) -> FullSignal {
    (n.kind, n.name@, n.locate)
}

pub open spec fn full_views(s: Seq<SignalNode>) -> Seq<FullSignal> {
    s.map_values(|n: SignalNode| full_view(n))
}

/// A signal as seen from instance `scope`: literals and names that start at
/// `TOP.` stay as they are; other names are prefixed with the scope.
pub open spec fn qualified(n: SignalNode, scope: Seq<char>) -> FullSignal {
    if n.kind == SignalNodeKind::Literal || spec_starts_with(n.name@, "TOP."@) {
        full_view(n)
    } else {
        (SignalNodeKind::Variable, scope + "."@ + n.name@, n.locate)
    }
}

pub open spec fn qualified_all(s: Seq<SignalNode>, scope: Seq<char>) -> Seq<FullSignal> {
    s.map_values(|n: SignalNode| qualified(n, scope))
}

/// Each entry of `new` is the entry of `old` with its signals qualified.
pub open spec fn dataflow_qualified(new: Seq<DataflowEntry>, old: Seq<DataflowEntry>, scope: Seq<char>) -> bool {
    &&& new.len() == old.len()
    &&& forall|i: int|
        0 <= i < new.len() ==> full_views(#[trigger] new[i].output@) == qualified_all(old[i].output@, scope)
            && full_views(new[i].inputs@) == qualified_all(old[i].inputs@, scope)
}

/// `v` is template block `t` placed in instance `scope` with id `id`.
pub open spec fn is_qualified_copy(v: BlockView, t: BlockView, scope: Seq<char>, id: u64) -> bool {
    &&& v.id == BlockId(id)
    &&& v.block_type == t.block_type
    &&& v.circuit_type == t.circuit_type
    &&& v.module_scope == scope
    &&& v.source_file == t.source_file
    &&& v.line_start == t.line_start
    &&& v.line_end == t.line_end
    &&& v.ast_line_start == t.line_start
    &&& v.ast_line_end == t.line_end
    &&& dataflow_qualified(v.dataflow, t.dataflow, scope)
    &&& v.code_snippet == t.code_snippet
}

/// A signal of `scope`, as `qualified` places it.
pub fn qualify_signal(signal: &SignalNode, scope: &str) -> (r: SignalNode)
    ensures
        full_view(r) == qualified(*signal, scope@),
{
    let name = chars_of(signal.as_str());
    let top = chars_of("TOP.");
    if signal.is_literal() || starts_with(name.as_slice(), top.as_slice()) {
        return signal.clone();
    }
    let mut full = chars_of(scope);
    append_str(&mut full, ".");
    append_chars(&mut full, name.as_slice());
    let text = string_of(full.as_slice());
    SignalNode::variable(text.as_str(), signal.locate)
}

fn qualify_signals(s: &Vec<SignalNode>, scope: &str) -> (r: Vec<SignalNode>)
    ensures
        full_views(r@) == qualified_all(s@, scope@),
{
    let mut out: Vec<SignalNode> = Vec::new();
    let mut i: usize = 0;
    while i < s.len()
        invariant
            i <= s@.len(),
            full_views(out@) == qualified_all(s@.subrange(0, i as int), scope@),
        decreases s@.len() - i,
    {
        let ghost before = full_views(out@);
        let q = qualify_signal(&s[i], scope);
        out.push(q);
        proof {
            assert(full_views(out@) =~= before.push(full_view(q)));
            assert(qualified_all(s@.subrange(0, i + 1), scope@) =~= qualified_all(s@.subrange(0, i as int), scope@).push(
                qualified(s@[i as int], scope@),
            ));
        }
        i = i + 1;
    }
    proof {
        assert(s@.subrange(0, s@.len() as int) =~= s@);
    }
    out
}

/// Template block `block` placed in instance `scope`, with id `id`.
pub fn qualify_block(block: &Block, scope: &str, id: u64) -> (r: Block)
    ensures
        is_qualified_copy(r@, block@, scope@, id),
{
    block.lemma_wf();
    let df = block.dataflow();
    let mut dataflow: Vec<DataflowEntry> = Vec::new();
    let mut i: usize = 0;
    while i < df.len()
        invariant
            i <= df@.len(),
            dataflow@.len() == i,
            forall|j: int|
                0 <= j < i ==> full_views(#[trigger] dataflow@[j].output@) == qualified_all(df@[j].output@, scope@)
                    && full_views(dataflow@[j].inputs@) == qualified_all(df@[j].inputs@, scope@),
        decreases df@.len() - i,
    {
        let output = qualify_signals(&df[i].output, scope);
        let inputs = qualify_signals(&df[i].inputs, scope);
        let ghost before = dataflow@;
        let entry = DataflowEntry { output, inputs };
        dataflow.push(entry);
        proof {
            assert forall|j: int| 0 <= j < i + 1 implies full_views(#[trigger] dataflow@[j].output@) == qualified_all(
                df@[j].output@,
                scope@,
            ) && full_views(dataflow@[j].inputs@) == qualified_all(df@[j].inputs@, scope@) by {
                if j < i {
                    assert(dataflow@[j] == before[j]);
                } else {
                    assert(dataflow@[j] == entry);
                }
            }
        }
        i = i + 1;
    }
    block.lemma_wf();
    match Block::new(
        BlockId(id),
        block.block_type(),
        block.circuit_type(),
        scope,
        block.source_file(),
        block.line_start(),
        block.line_end(),
        dataflow,
        block.code_snippet(),
    ) {
        Ok(b) => b,
        Err(_) => {
            proof {
                assert(false);
            }
            block.clone()
        },
    }
}

/// The port a port block stands for: the signal an input port drives, or
/// the first signal an output port reads.
pub open spec fn port_name(t: BlockView) -> Option<Seq<char>> {
    if t.dataflow.len() == 0 {
        None
    } else {
        match t.block_type {
            BlockType::ModInput => if t.dataflow[0].output@.len() > 0 {
                Some(t.dataflow[0].output@[0].name@)
            } else {
                None
            },
            BlockType::ModOutput => if t.dataflow[0].inputs@.len() > 0 {
                Some(t.dataflow[0].inputs@[0].name@)
            } else {
                None
            },
            _ => None,
        }
    }
}

/// The port a port block stands for.
pub fn port_name_from_block(block: &Block) -> (r: Option<String>)
    ensures
        match r {
            Some(p) => port_name(block@) == Some(p@),
            None => port_name(block@) is None,
        },
{
    let df = block.dataflow();
    if df.len() == 0 {
        return None;
    }
    let entry = &df[0];
    match block.block_type() {
        BlockType::ModInput => if entry.output.len() > 0 {
            Some(entry.output[0].name.clone())
        } else {
            None
        },
        BlockType::ModOutput => if entry.inputs.len() > 0 {
            Some(entry.inputs[0].name.clone())
        } else {
            None
        },
        _ => None,
    }
}

/// The port signal `port` of instance `scope`.
pub open spec fn child_port(port: Seq<char>, scope: Seq<char>) -> FullSignal {
    let locate = SignalLocate { offset: 0, line: 0, len: utf8_len(port) };
    if spec_starts_with(port, "TOP."@) {
        (SignalNodeKind::Variable, port, locate)
    } else {
        (SignalNodeKind::Variable, scope + "."@ + port, locate)
    }
}

pub open spec fn full_key(f: FullSignal) -> (SignalNodeKind, Seq<char>) {
    (f.0, f.1)
}

/// `s` holds each signal of `from` once (by kind and name), each taken from `from`.
pub open spec fn deduped_from(s: Seq<FullSignal>, from: Seq<FullSignal>) -> bool {
    &&& forall|i: int, j: int| 0 <= i < j < s.len() ==> full_key(s[i]) != full_key(s[j])
    &&& forall|i: int| 0 <= i < s.len() ==> from.contains(#[trigger] s[i])
    &&& forall|j: int| 0 <= j < from.len() ==> has_full_key(s, full_key(#[trigger] from[j]))
}

/// Some signal of `s` has kind and name `k`.
pub open spec fn has_full_key(s: Seq<FullSignal>, k: (SignalNodeKind, Seq<char>)) -> bool {
    exists|i: int| 0 <= i < s.len() && #[trigger] full_key(s[i]) == k
}

/// `s` holds each variable of `from` once, taken from `from`, ordered by name.
pub open spec fn sorted_variables_from(s: Seq<FullSignal>, from: Seq<FullSignal>) -> bool {
    &&& forall|i: int| 0 <= i < s.len() ==> (#[trigger] s[i]).0 == SignalNodeKind::Variable && from.contains(s[i])
    &&& forall|i: int, j: int| 0 <= i < j < s.len() ==> seq_lt(text_key(s[i].1), text_key(s[j].1))
    &&& forall|j: int|
        0 <= j < from.len() && (#[trigger] from[j]).0 == SignalNodeKind::Variable ==> exists|i: int|
            0 <= i < s.len() && #[trigger] s[i].1 == from[j].1
}

/// `v` is the block that carries port `port` of template port block `t`
/// across the boundary between `parent_scope` and instance `child_scope`:
/// an input port drives the child's port from what the parent connects to
/// it; an output port drives the parent's variables connected to it.
pub open spec fn is_bridge(
    v: BlockView,
    t: BlockView,
    port: Seq<char>,
    parent_scope: Seq<char>,
    child_scope: Seq<char>,
    connected: Seq<SignalNode>,
    id: u64,
) -> bool {
    let cp = child_port(port, child_scope);
    let parent = qualified_all(connected, parent_scope);
    &&& v.id == BlockId(id)
    &&& v.block_type == t.block_type
    &&& v.circuit_type == CircuitType::Combinational
    &&& v.module_scope == child_scope
    &&& v.source_file == t.source_file
    &&& v.line_start == t.line_start
    &&& v.line_end == t.line_end
    &&& v.ast_line_start == t.line_start
    &&& v.ast_line_end == t.line_end
    &&& v.code_snippet == t.code_snippet
    &&& v.dataflow.len() == 1
    &&& match t.block_type {
        BlockType::ModInput => full_views(v.dataflow[0].output@) == seq![cp] && deduped_from(
            full_views(v.dataflow[0].inputs@),
            parent,
        ),
        BlockType::ModOutput => full_views(v.dataflow[0].inputs@) == seq![cp] && sorted_variables_from(
            full_views(v.dataflow[0].output@),
            parent,
        ),
        _ => false,
    }
}

/// `s` with later repeats of a signal (same kind and name) dropped.
fn dedup_full(s: &Vec<SignalNode>) -> (r: Vec<SignalNode>)
    ensures
        deduped_from(full_views(r@), full_views(s@)),
{
    let mut out: Vec<SignalNode> = Vec::new();
    let ghost fs = full_views(s@);
    let mut j: usize = 0;
    while j < s.len()
        invariant
            j <= s@.len(),
            fs == full_views(s@),
            forall|a: int, b: int| 0 <= a < b < out@.len() ==> full_key(full_view(out@[a])) != full_key(full_view(out@[b])),
            forall|a: int| 0 <= a < out@.len() ==> fs.contains(#[trigger] full_view(out@[a])),
            forall|b: int|
                0 <= b < j ==> exists|a: int|
                    0 <= a < out@.len() && #[trigger] full_key(full_view(out@[a])) == full_key(#[trigger] fs[b]),
        decreases s@.len() - j,
    {
        let ghost before = out@;
        let mut found = false;
        let mut k: usize = 0;
        while k < out.len()
            invariant
                k <= out@.len(),
                found == (exists|a: int| 0 <= a < k && full_key(full_view(#[trigger] out@[a])) == full_key(fs[j as int])),
                fs == full_views(s@),
                j < s@.len(),
            decreases out@.len() - k,
        {
            if out[k].kind == s[j].kind && out[k].name == s[j].name {
                proof {
                    assert(full_key(full_view(out@[k as int])) == full_key(fs[j as int]));
                }
                found = true;
            }
            k = k + 1;
        }
        if !found {
            out.push(s[j].clone());
            proof {
                assert(fs[j as int] == full_view(s@[j as int]));
                assert(fs.contains(full_view(out@[out@.len() - 1])));
                assert forall|b: int| 0 <= b < j + 1 implies exists|a: int|
                    0 <= a < out@.len() && #[trigger] full_key(full_view(out@[a])) == full_key(#[trigger] fs[b]) by {
                    if b < j {
                        let a = choose|a: int| 0 <= a < before.len() && #[trigger] full_key(full_view(before[a])) == full_key(fs[b]);
                        assert(out@[a] == before[a]);
                    } else {
                        assert(full_key(full_view(out@[before.len() as int])) == full_key(fs[b]));
                    }
                }
                assert forall|a: int| 0 <= a < out@.len() implies fs.contains(#[trigger] full_view(out@[a])) by {
                    if a < before.len() {
                        assert(out@[a] == before[a]);
                    }
                }
            }
        }
        j = j + 1;
    }
    proof {
        let fo = full_views(out@);
        assert forall|i: int| 0 <= i < fo.len() implies fs.contains(#[trigger] fo[i]) by {
            assert(fo[i] == full_view(out@[i]));
        }
        assert forall|a: int, b: int| 0 <= a < b < fo.len() implies full_key(fo[a]) != full_key(fo[b]) by {
            assert(fo[a] == full_view(out@[a]));
            assert(fo[b] == full_view(out@[b]));
        }
        assert forall|b: int| 0 <= b < fs.len() implies has_full_key(fo, full_key(#[trigger] fs[b])) by {
            let a = choose|a: int| 0 <= a < out@.len() && #[trigger] full_key(full_view(out@[a])) == full_key(fs[b]);
            assert(fo[a] == full_view(out@[a]));
        }
    }
    out
}

/// The variables of `s`, ordered by name.
fn sorted_variables(s: &Vec<SignalNode>) -> (r: Vec<SignalNode>)
    requires
        forall|a: int, b: int| 0 <= a < b < s@.len() ==> full_key(full_view(s@[a])) != full_key(full_view(s@[b])),
    ensures
        sorted_variables_from(full_views(r@), full_views(s@)),
{
    let ghost fs = full_views(s@);
    let mut vars: Vec<SignalNode> = Vec::new();
    let ghost mut idx: Seq<int> = Seq::empty();
    let mut j: usize = 0;
    while j < s.len()
        invariant
            j <= s@.len(),
            fs == full_views(s@),
            idx.len() == vars@.len(),
            forall|i: int|
                0 <= i < idx.len() ==> 0 <= #[trigger] idx[i] < j && vars@[i] == s@[idx[i]] && vars@[i].kind
                    == SignalNodeKind::Variable,
            forall|a: int, b: int| 0 <= a < b < idx.len() ==> idx[a] < idx[b],
            forall|b: int|
                0 <= b < j && (#[trigger] s@[b]).kind == SignalNodeKind::Variable ==> exists|i: int|
                    0 <= i < idx.len() && idx[i] == b,
        decreases s@.len() - j,
    {
        if s[j].is_variable() {
            let ghost before = idx;
            let ghost vbefore = vars@;
            vars.push(s[j].clone());
            proof {
                idx = idx.push(j as int);
                assert forall|i: int| 0 <= i < idx.len() implies 0 <= #[trigger] idx[i] < j + 1 && vars@[i] == s@[idx[i]]
                    && vars@[i].kind == SignalNodeKind::Variable by {
                    if i < before.len() {
                        assert(idx[i] == before[i]);
                        assert(vars@[i] == vbefore[i]);
                    }
                }
                assert forall|b: int|
                    0 <= b < j + 1 && (#[trigger] s@[b]).kind == SignalNodeKind::Variable implies exists|i: int|
                        0 <= i < idx.len() && idx[i] == b by {
                    if b == j {
                        assert(idx[before.len() as int] == b);
                    } else {
                        let x = choose|x: int| 0 <= x < before.len() && before[x] == b;
                        assert(idx[x] == b);
                    }
                }
            }
        }
        j = j + 1;
    }
    proof {
        assert forall|a: int, b: int| 0 <= a < b < vars@.len() implies vars@[a].name@ != vars@[b].name@ by {
            assert(idx[a] < idx[b]);
            assert(full_key(full_view(s@[idx[a]])) != full_key(full_view(s@[idx[b]])));
        }
    }
    let mut keys: Vec<Vec<u64>> = Vec::new();
    let mut k: usize = 0;
    while k < vars.len()
        invariant
            k <= vars@.len(),
            keys@.len() == k,
            forall|i: int| 0 <= i < k ==> #[trigger] keys@[i]@ == text_key(vars@[i].name@),
        decreases vars@.len() - k,
    {
        let mut key: Vec<u64> = Vec::new();
        let cs = chars_of(vars[k].name.as_str());
        push_text_key(&mut key, cs.as_slice());
        proof {
            assert(key@ =~= text_key(vars@[k as int].name@));
        }
        keys.push(key);
        k = k + 1;
    }
    let perm = sort_perm(&keys);
    let ghost kv = key_views(keys@);
    let mut out: Vec<SignalNode> = Vec::new();
    let mut m: usize = 0;
    while m < perm.len()
        invariant
            perm@.len() == vars@.len(),
            kv == key_views(keys@),
            forall|a: int| 0 <= a < perm@.len() ==> #[trigger] perm@[a] < vars@.len(),
            m <= perm@.len(),
            out@.len() == m,
            forall|a: int| 0 <= a < m ==> #[trigger] out@[a] == vars@[perm@[a] as int],
        decreases perm@.len() - m,
    {
        out.push(vars[perm[m]].clone());
        m = m + 1;
    }
    proof {
        let fo = full_views(out@);
        assert forall|i: int| 0 <= i < fo.len() implies (#[trigger] fo[i]).0 == SignalNodeKind::Variable && fs.contains(fo[i]) by {
            let x = perm@[i] as int;
            assert(fo[i] == full_view(vars@[x]));
            assert(fs[idx[x]] == fo[i]);
        }
        assert forall|a: int, b: int| 0 <= a < b < fo.len() implies seq_lt(text_key(fo[a].1), text_key(fo[b].1)) by {
            let pa = perm@[a] as int;
            let pb = perm@[b] as int;
            assert(keyed_lt(kv[pa], pa, kv[pb], pb));
            assert(kv[pa] == text_key(vars@[pa].name@));
            assert(kv[pb] == text_key(vars@[pb].name@));
            if kv[pa] == kv[pb] {
                crate::coverage::statements::lemma_text_key_names(vars@[pa].name@, vars@[pb].name@);
                if pa < pb {
                    assert(vars@[pa].name@ != vars@[pb].name@);
                } else {
                    assert(vars@[pb].name@ != vars@[pa].name@);
                }
            }
        }
        assert forall|b: int|
            0 <= b < fs.len() && (#[trigger] fs[b]).0 == SignalNodeKind::Variable implies exists|i: int|
                0 <= i < fo.len() && #[trigger] fo[i].1 == fs[b].1 by {
            assert(fs[b] == full_view(s@[b]));
            assert(s@[b].kind == SignalNodeKind::Variable);
            let x = choose|x: int| 0 <= x < idx.len() && idx[x] == b;
            assert(perm@.contains(x as usize));
            let i = choose|i: int| 0 <= i < perm@.len() && perm@[i] == x as usize;
            assert(out@[i] == vars@[x]);
            assert(fo[i] == full_view(out@[i]));
            assert(fo[i].1 == fs[b].1);
        }
    }
    out
}


/// Keeps the variables of `out` within `from`, given that they are within `d`.
proof fn lemma_taken_from(out: Seq<FullSignal>, d: Seq<FullSignal>, from: Seq<FullSignal>)
    requires
        forall|i: int| 0 <= i < d.len() ==> from.contains(#[trigger] d[i]),
        forall|i: int| 0 <= i < out.len() ==> (#[trigger] out[i]).0 == SignalNodeKind::Variable && d.contains(out[i]),
    ensures
        forall|i: int| 0 <= i < out.len() ==> (#[trigger] out[i]).0 == SignalNodeKind::Variable && from.contains(out[i]),
{
    assert forall|i: int| 0 <= i < out.len() implies (#[trigger] out[i]).0 == SignalNodeKind::Variable && from.contains(
        out[i],
    ) by {
        assert(d.contains(out[i]));
        let x = choose|x: int| 0 <= x < d.len() && d[x] == out[i];
        assert(from.contains(d[x]));
    }
}

/// Every variable of `from` is named in `out`, given that every signal of
/// `from` has its kind and name in `d` and every variable of `d` is named in `out`.
proof fn lemma_names_covered(out: Seq<FullSignal>, d: Seq<FullSignal>, from: Seq<FullSignal>)
    requires
        forall|j: int| 0 <= j < from.len() ==> has_full_key(d, full_key(#[trigger] from[j])),
        forall|j: int|
            0 <= j < d.len() && (#[trigger] d[j]).0 == SignalNodeKind::Variable ==> exists|i: int|
                0 <= i < out.len() && #[trigger] out[i].1 == d[j].1,
    ensures
        forall|j: int|
            0 <= j < from.len() && (#[trigger] from[j]).0 == SignalNodeKind::Variable ==> exists|i: int|
                0 <= i < out.len() && #[trigger] out[i].1 == from[j].1,
{
    assert forall|j: int| 0 <= j < from.len() && (#[trigger] from[j]).0 == SignalNodeKind::Variable implies exists|i: int|
        0 <= i < out.len() && #[trigger] out[i].1 == from[j].1 by {
        assert(has_full_key(d, full_key(from[j])));
        let x = choose|x: int| 0 <= x < d.len() && #[trigger] full_key(d[x]) == full_key(from[j]);
        assert(d[x].0 == SignalNodeKind::Variable);
        let i = choose|i: int| 0 <= i < out.len() && #[trigger] out[i].1 == d[x].1;
        assert(out[i].1 == from[j].1);
    }
}

/// Dropping repeats and then keeping the variables, ordered by name, gives
/// the variables of the original list, ordered by name.
proof fn lemma_sorted_through_dedup(out: Seq<FullSignal>, d: Seq<FullSignal>, from: Seq<FullSignal>)
    requires
        deduped_from(d, from),
        sorted_variables_from(out, d),
    ensures
        sorted_variables_from(out, from),
{
    lemma_taken_from(out, d, from);
    lemma_names_covered(out, d, from);
}

/// The block that carries the port of template port block `template` across
/// the boundary between `parent_scope` and instance `child_scope`, given what
/// the parent connects to the instance's ports; none when the block names no
/// port.
pub fn bridge_port_block(
    template: &Block,
    parent_scope: &str,
    child_scope: &str,
    connections: &Vec<PortConnection>,
    id: u64,
) -> (r: Option<Block>)
    ensures
        r is Some <==> port_name(template@) is Some,
        r matches Some(b) ==> is_bridge(
            b@,
            template@,
            port_name(template@)->0,
            parent_scope@,
            child_scope@,
            connection_of(connections@, port_name(template@)->0),
            id,
        ),
{
    template.lemma_wf();
    let port = match port_name_from_block(template) {
        Some(p) => p,
        None => return None,
    };
    let connected = connection_for(connections, port.as_str());
    let port_node = SignalNode::named(port.as_str());
    let child_port_node = qualify_signal(&port_node, child_scope);
    let parent_signals = qualify_signals(&connected, parent_scope);
    let distinct = dedup_full(&parent_signals);
    let ghost cp = child_port(port@, child_scope@);
    assert(full_view(child_port_node) == cp);
    let entry = match template.block_type() {
        BlockType::ModInput => {
            let mut output: Vec<SignalNode> = Vec::new();
            output.push(child_port_node);
            proof {
                assert(full_views(output@) =~= seq![cp]);
            }
            DataflowEntry { output, inputs: distinct }
        },
        BlockType::ModOutput => {
            let ghost fd = full_views(distinct@);
            proof {
                assert forall|a: int, b: int| 0 <= a < b < distinct@.len() implies full_key(full_view(distinct@[a]))
                    != full_key(full_view(distinct@[b])) by {
                    assert(fd[a] == full_view(distinct@[a]));
                    assert(fd[b] == full_view(distinct@[b]));
                }
            }
            let output = sorted_variables(&distinct);
            proof {
                lemma_sorted_through_dedup(full_views(output@), fd, full_views(parent_signals@));
            }
            let mut inputs: Vec<SignalNode> = Vec::new();
            inputs.push(child_port_node);
            proof {
                assert(full_views(inputs@) =~= seq![cp]);
            }
            DataflowEntry { output, inputs }
        },
        _ => {
            return None;
        },
    };
    let mut dataflow: Vec<DataflowEntry> = Vec::new();
    dataflow.push(entry);
    match Block::new(
        BlockId(id),
        template.block_type(),
        CircuitType::Combinational,
        child_scope,
        template.source_file(),
        template.line_start(),
        template.line_end(),
        dataflow,
        template.code_snippet(),
    ) {
        Ok(b) => Some(b),
        Err(_) => {
            proof {
                assert(false);
            }
            None
        },
    }
}

/// Where one block of the elaborated design comes from.
pub enum Placement {
    /// A template block copied into instance `scope`.
    Copy { template: BlockView, scope: Seq<char> },
    /// A port block carried across the boundary between `parent` and instance
    /// `child`, where the parent connects `connected` to port `port`.
    Bridge {
        template: BlockView,
        port: Seq<char>,
        parent: Seq<char>,
        child: Seq<char>,
        connected: Seq<SignalNode>,
    },
}

/// Whether `v` is the block that `p` describes. It keeps the id of its
/// template block, so that the copies of one source block in different
/// instances share an id.
pub open spec fn placed(v: BlockView, p: Placement) -> bool {
    match p {
        Placement::Copy { template, scope } => is_qualified_copy(v, template, scope, template.id.0),
        Placement::Bridge { template, port, parent, child, connected } => is_bridge(
            v,
            template,
            port,
            parent,
            child,
            connected,
            template.id.0,
        ),
    }
}

/// The blocks of `out` from position `start` on are those that `plan`
/// describes, in order.
pub open spec fn realizes(out: Seq<Block>, start: int, plan: Seq<Placement>) -> bool {
    &&& out.len() == start + plan.len()
    &&& forall|i: int| 0 <= i < plan.len() ==> placed(#[trigger] out[start + i]@, plan[i])
}

pub open spec fn is_port_type(t: BlockType) -> bool {
    t == BlockType::ModInput || t == BlockType::ModOutput
}

/// Copies into `path` of the blocks of module `m`: its port blocks when
/// `ports`, its other blocks otherwise, in block order.
pub open spec fn module_copies(bs: Seq<Block>, m: Seq<char>, path: Seq<char>, ports: bool) -> Seq<Placement>
    decreases bs.len(),
{
    if bs.len() == 0 {
        Seq::empty()
    } else {
        let rest = module_copies(bs.drop_last(), m, path, ports);
        let b = bs.last()@;
        if b.module_scope == m && is_port_type(b.block_type) == ports {
            rest.push(Placement::Copy { template: b, scope: path })
        } else {
            rest
        }
    }
}

/// Bridges into instance `path` of parent `parent` for the port blocks of
/// module `m` that name a port, in block order.
pub open spec fn module_bridges(
    bs: Seq<Block>,
    m: Seq<char>,
    parent: Seq<char>,
    path: Seq<char>,
    conns: Seq<PortConnection>,
) -> Seq<Placement>
    decreases bs.len(),
{
    if bs.len() == 0 {
        Seq::empty()
    } else {
        let rest = module_bridges(bs.drop_last(), m, parent, path, conns);
        let b = bs.last()@;
        if b.module_scope == m && is_port_type(b.block_type) && port_name(b) is Some {
            let port = port_name(b)->0;
            rest.push(
                Placement::Bridge {
                    template: b,
                    port,
                    parent,
                    child: path,
                    connected: connection_of(conns, port),
                },
            )
        } else {
            rest
        }
    }
}

/// Extends a realized plan by one block.
proof fn lemma_realizes_push(out: Seq<Block>, start: int, plan: Seq<Placement>, b: Block, p: Placement)
    requires
        0 <= start,
        realizes(out, start, plan),
        placed(b@, p),
    ensures
        realizes(out.push(b), start, plan.push(p)),
{
    let o2 = out.push(b);
    let p2 = plan.push(p);
    assert forall|i: int| 0 <= i < p2.len() implies placed(#[trigger] o2[start + i]@, p2[i]) by {
        if i < plan.len() {
            assert(o2[start + i] == out[start + i]);
            assert(p2[i] == plan[i]);
        }
    }
}

/// Joins two realized plans that follow each other.
proof fn lemma_realizes_append(out: Seq<Block>, start: int, p1: Seq<Placement>, p2: Seq<Placement>)
    requires
        0 <= start,
        out.len() == start + p1.len() + p2.len(),
        forall|i: int| 0 <= i < p1.len() ==> placed(#[trigger] out[start + i]@, p1[i]),
        realizes(out, start + p1.len(), p2),
    ensures
        realizes(out, start, p1 + p2),
{
    let p = p1 + p2;
    assert forall|i: int| 0 <= i < p.len() implies placed(#[trigger] out[start + i]@, p[i]) by {
        if i >= p1.len() {
            let k = i - p1.len();
            assert(out[start + p1.len() + k] == out[start + i]);
            assert(placed(out[start + p1.len() + k]@, p2[k]));
        }
    }
}

/// Whether a realized prefix is kept by an extension.
pub open spec fn extends(new: Seq<Block>, old: Seq<Block>) -> bool {
    &&& new.len() >= old.len()
    &&& forall|i: int| 0 <= i < old.len() ==> #[trigger] new[i] == old[i]
}

/// Appends to `blocks` the copies that `module_copies` describes, each
/// keeping its template block's id.
fn place_copies(bs: &Vec<Block>, m: &str, path: &str, ports: bool, blocks: &mut Vec<Block>)
    ensures
        extends(final(blocks)@, old(blocks)@),
        realizes(final(blocks)@, old(blocks)@.len() as int, module_copies(bs@, m@, path@, ports)),
{
    let ghost start = blocks@.len() as int;
    let ghost orig = blocks@;
    let mut k: usize = 0;
    proof {
        assert(bs@.subrange(0, 0) =~= Seq::<Block>::empty());
    }
    while k < bs.len()
        invariant
            k <= bs@.len(),
            start == orig.len(),
            extends(blocks@, orig),
            realizes(blocks@, start, module_copies(bs@.subrange(0, k as int), m@, path@, ports)),
            module_copies(bs@.subrange(0, k as int), m@, path@, ports).len() <= k,
        decreases bs@.len() - k,
    {
        let ghost sub = bs@.subrange(0, k as int);
        let ghost next = bs@.subrange(0, k + 1);
        proof {
            assert(next.drop_last() =~= sub);
            assert(next.last() == bs@[k as int]);
        }
        let b = &bs[k];
        let keep = str_eq(b.module_scope(), m) && (match b.block_type() {
            BlockType::ModInput => true,
            BlockType::ModOutput => true,
            _ => false,
        }) == ports;
        if keep {
            let ghost before = blocks@;
            let id = b.id().0;
            let q = qualify_block(b, path, id);
            blocks.push(q);
            proof {
                lemma_realizes_push(before, start, module_copies(sub, m@, path@, ports), q, Placement::Copy { template: bs@[k as int]@, scope: path@ });
                assert forall|i: int| 0 <= i < orig.len() implies #[trigger] blocks@[i] == orig[i] by {
                    assert(blocks@[i] == before[i]);
                }
            }
        }
        k = k + 1;
    }
    proof {
        assert(bs@.subrange(0, bs@.len() as int) =~= bs@);
    }
}

/// Appends to `blocks` the bridges that `module_bridges` describes, each
/// keeping its template block's id.
fn place_bridges(
    bs: &Vec<Block>,
    m: &str,
    parent: &str,
    path: &str,
    conns: &Vec<PortConnection>,
    blocks: &mut Vec<Block>,
)
    ensures
        extends(final(blocks)@, old(blocks)@),
        realizes(final(blocks)@, old(blocks)@.len() as int, module_bridges(bs@, m@, parent@, path@, conns@)),
{
    let ghost start = blocks@.len() as int;
    let ghost orig = blocks@;
    let mut k: usize = 0;
    proof {
        assert(bs@.subrange(0, 0) =~= Seq::<Block>::empty());
    }
    while k < bs.len()
        invariant
            k <= bs@.len(),
            start == orig.len(),
            extends(blocks@, orig),
            realizes(blocks@, start, module_bridges(bs@.subrange(0, k as int), m@, parent@, path@, conns@)),
            module_bridges(bs@.subrange(0, k as int), m@, parent@, path@, conns@).len() <= k,
        decreases bs@.len() - k,
    {
        let ghost sub = bs@.subrange(0, k as int);
        let ghost next = bs@.subrange(0, k + 1);
        proof {
            assert(next.drop_last() =~= sub);
            assert(next.last() == bs@[k as int]);
        }
        let b = &bs[k];
        let is_port = match b.block_type() {
            BlockType::ModInput => true,
            BlockType::ModOutput => true,
            _ => false,
        };
        if str_eq(b.module_scope(), m) && is_port {
            let ghost before = blocks@;
            let id = b.id().0;
            match bridge_port_block(b, parent, path, conns, id) {
                Some(q) => {
                    blocks.push(q);
                    proof {
                        let port = port_name(bs@[k as int]@)->0;
                        lemma_realizes_push(
                            before,
                            start,
                            module_bridges(sub, m@, parent@, path@, conns@),
                            q,
                            Placement::Bridge {
                                template: bs@[k as int]@,
                                port,
                                parent: parent@,
                                child: path@,
                                connected: connection_of(conns@, port),
                            },
                        );
                        assert forall|i: int| 0 <= i < orig.len() implies #[trigger] blocks@[i] == orig[i] by {
                            assert(blocks@[i] == before[i]);
                        }
                    }
                },
                None => {},
            }
        }
        k = k + 1;
    }
    proof {
        assert(bs@.subrange(0, bs@.len() as int) =~= bs@);
    }
}

/// Whether module `m` has a template: a block in its scope, or a declaration.
pub open spec fn has_template(bs: Seq<Block>, declared: Seq<String>, m: Seq<char>) -> bool {
    scope_among(bs, bs.len() as int, m) || name_among(declared, m)
}

/// One of the first `n` blocks of `bs` is in the scope of module `m`.
pub open spec fn scope_among(bs: Seq<Block>, n: int, m: Seq<char>) -> bool {
    exists|i: int| 0 <= i < n && (#[trigger] bs[i])@.module_scope == m
}

/// `names` holds `m`.
pub open spec fn name_among(names: Seq<String>, m: Seq<char>) -> bool {
    exists|i: int| 0 <= i < names.len() && (#[trigger] names[i])@ == m
}

/// The instances that module `m` holds, in order (none when it holds none).
pub open spec fn children_of(im: Map<Seq<char>, Vec<ModuleInstance>>, m: Seq<char>) -> Seq<ModuleInstance> {
    if im.contains_key(m) {
        im[m]@
    } else {
        Seq::empty()
    }
}

/// Instantiating module `m` reaches no deeper than `fuel` levels of instances.
pub open spec fn depth_within(
    bs: Seq<Block>,
    declared: Seq<String>,
    im: Map<Seq<char>, Vec<ModuleInstance>>,
    m: Seq<char>,
    fuel: nat,
) -> bool
    decreases fuel,
{
    if !has_template(bs, declared, m) || children_of(im, m).len() == 0 {
        true
    } else if fuel == 0 {
        false
    } else {
        forall|i: int|
            0 <= i < children_of(im, m).len() ==> depth_within(
                bs,
                declared,
                im,
                (#[trigger] children_of(im, m)[i]).module_name@,
                (fuel - 1) as nat,
            )
    }
}

/// The blocks of module `m` placed at instance `path`, then those of the
/// instances it holds, depth first. At the top (`parent` none) its port
/// blocks are copied; inside a parent they become bridges over the
/// connections that the parent makes.
pub open spec fn instance_plan(
    bs: Seq<Block>,
    declared: Seq<String>,
    im: Map<Seq<char>, Vec<ModuleInstance>>,
    m: Seq<char>,
    path: Seq<char>,
    parent: Option<(Seq<char>, Seq<PortConnection>)>,
    fuel: nat,
) -> Seq<Placement>
    decreases fuel, children_of(im, m).len() + 1,
{
    if !has_template(bs, declared, m) {
        Seq::empty()
    } else {
        let own = module_copies(bs, m, path, false);
        let ports = match parent {
            Some(pc) => module_bridges(bs, m, pc.0, path, pc.1),
            None => module_copies(bs, m, path, true),
        };
        own + ports + children_plan(bs, declared, im, children_of(im, m), path, fuel)
    }
}

/// The plans of the instances `kids` of the module at `path`, in order.
pub open spec fn children_plan(
    bs: Seq<Block>,
    declared: Seq<String>,
    im: Map<Seq<char>, Vec<ModuleInstance>>,
    kids: Seq<ModuleInstance>,
    path: Seq<char>,
    fuel: nat,
) -> Seq<Placement>
    decreases fuel, kids.len(),
{
    if fuel == 0 || kids.len() == 0 {
        Seq::empty()
    } else {
        let c = kids.last();
        children_plan(bs, declared, im, kids.drop_last(), path, fuel) + instance_plan(
            bs,
            declared,
            im,
            c.module_name@,
            path + "."@ + c.instance_name@,
            Some((path, c.connections@)),
            (fuel - 1) as nat,
        )
    }
}

/// Whether module `m` has a template.
fn template_exists(bs: &Vec<Block>, declared: &Vec<String>, m: &str) -> (r: bool)
    ensures
        r == has_template(bs@, declared@, m@),
{
    let mut i: usize = 0;
    while i < bs.len()
        invariant
            i <= bs@.len(),
            forall|j: int| 0 <= j < i ==> (#[trigger] bs@[j])@.module_scope != m@,
        decreases bs@.len() - i,
    {
        if str_eq(bs[i].module_scope(), m) {
            return true;
        }
        i = i + 1;
    }
    let mut k: usize = 0;
    while k < declared.len()
        invariant
            k <= declared@.len(),
            forall|j: int| 0 <= j < bs@.len() ==> (#[trigger] bs@[j])@.module_scope != m@,
            forall|j: int| 0 <= j < k ==> (#[trigger] declared@[j])@ != m@,
        decreases declared@.len() - k,
    {
        if str_eq(declared[k].as_str(), m) {
            return true;
        }
        k = k + 1;
    }
    false
}

/// Appends to `blocks` the blocks that `instance_plan` describes for module
/// `module_name` at `path`.
fn elaborate_module_instance(
    bs: &Vec<Block>,
    declared: &Vec<String>,
    instances: &NameMap<Vec<ModuleInstance>>,
    module_name: &str,
    path: &str,
    parent: Option<(&str, &Vec<PortConnection>)>,
    blocks: &mut Vec<Block>,
    Ghost(fuel): Ghost<nat>,
)
    requires
        depth_within(bs@, declared@, instances.map(), module_name@, fuel),
    ensures
        extends(final(blocks)@, old(blocks)@),
        realizes(
            final(blocks)@,
            old(blocks)@.len() as int,
            instance_plan(
                bs@,
                declared@,
                instances.map(),
                module_name@,
                path@,
                match parent {
                    Some(pc) => Some((pc.0@, pc.1@)),
                    None => None,
                },
                fuel,
            ),
        ),
    decreases fuel,
{
    let ghost im = instances.map();
    let ghost start = blocks@.len() as int;
    let ghost orig = blocks@;
    let ghost pv: Option<(Seq<char>, Seq<PortConnection>)> = match parent {
        Some(pc) => Some((pc.0@, pc.1@)),
        None => None,
    };
    if !template_exists(bs, declared, module_name) {
        proof {
            assert(instance_plan(bs@, declared@, im, module_name@, path@, pv, fuel) =~= Seq::<Placement>::empty());
        }
        return;
    }
    place_copies(bs, module_name, path, false, blocks);
    let ghost mid = blocks@;
    let ghost own = module_copies(bs@, module_name@, path@, false);
    let ghost ports = match pv {
        Some(pc) => module_bridges(bs@, module_name@, pc.0, path@, pc.1),
        None => module_copies(bs@, module_name@, path@, true),
    };
    match parent {
        Some(pc) => place_bridges(bs, module_name, pc.0, path, pc.1, blocks),
        None => place_copies(bs, module_name, path, true, blocks),
    }
    proof {
        assert forall|i: int| 0 <= i < own.len() implies placed(#[trigger] blocks@[start + i]@, own[i]) by {
            assert(blocks@[start + i] == mid[start + i]);
        }
        lemma_realizes_append(blocks@, start, own, ports);
        assert forall|i: int| 0 <= i < orig.len() implies #[trigger] blocks@[i] == orig[i] by {
            assert(blocks@[i] == mid[i]);
        }
    }
    let ghost before_kids = blocks@;
    let ghost head = own + ports;
    let ghost kids = children_of(im, module_name@);
    match instances.get(module_name) {
        Some(children) => {
            proof {
                assert(children@ == kids);
            }
            let mut k: usize = 0;
            proof {
                assert(children@.subrange(0, 0) =~= Seq::<ModuleInstance>::empty());
                assert(head + children_plan(bs@, declared@, im, children@.subrange(0, 0), path@, fuel) =~= head);
            }
            while k < children.len()
                invariant
                    k <= children@.len(),
                    children@ == kids,
                    kids == children_of(im, module_name@),
                    im == instances.map(),
                    has_template(bs@, declared@, module_name@),
                    depth_within(bs@, declared@, im, module_name@, fuel),
                    start == orig.len(),
                    extends(blocks@, orig),
                    realizes(blocks@, start, head + children_plan(bs@, declared@, im, children@.subrange(0, k as int), path@, fuel)),
                decreases children@.len() - k,
            {
                let child = &children[k];
                proof {
                    assert(children_of(im, module_name@)[k as int] == *child);
                    assert(fuel > 0);
                }
                let mut child_path = chars_of(path);
                append_str(&mut child_path, ".");
                let iname = chars_of(child.instance_name.as_str());
                append_chars(&mut child_path, iname.as_slice());
                let child_path_text = string_of(child_path.as_slice());
                let ghost before = blocks@;
                let ghost sub = children@.subrange(0, k as int);
                let ghost next = children@.subrange(0, k + 1);
                elaborate_module_instance(
                    bs,
                    declared,
                    instances,
                    child.module_name.as_str(),
                    child_path_text.as_str(),
                    Some((path, &child.connections)),
                    blocks,
                    Ghost((fuel - 1) as nat),
                );
                proof {
                    let cp = instance_plan(
                        bs@,
                        declared@,
                        im,
                        child.module_name@,
                        path@ + "."@ + child.instance_name@,
                        Some((path@, child.connections@)),
                        (fuel - 1) as nat,
                    );
                    assert(child_path_text@ =~= path@ + "."@ + child.instance_name@);
                    assert(next.drop_last() =~= sub);
                    assert(next.last() == *child);
                    let prev = head + children_plan(bs@, declared@, im, sub, path@, fuel);
                    assert(children_plan(bs@, declared@, im, next, path@, fuel) == children_plan(
                        bs@,
                        declared@,
                        im,
                        sub,
                        path@,
                        fuel,
                    ) + cp);
                    assert forall|i: int| 0 <= i < prev.len() implies placed(#[trigger] blocks@[start + i]@, prev[i]) by {
                        assert(blocks@[start + i] == before[start + i]);
                    }
                    lemma_realizes_append(blocks@, start, prev, cp);
                    assert(prev + cp =~= head + children_plan(bs@, declared@, im, next, path@, fuel));
                    assert forall|i: int| 0 <= i < orig.len() implies #[trigger] blocks@[i] == orig[i] by {
                        assert(blocks@[i] == before[i]);
                    }
                }
                k = k + 1;
            }
            proof {
                assert(children@.subrange(0, children@.len() as int) =~= children@);
            }
        },
        None => {
            proof {
                assert(kids =~= Seq::<ModuleInstance>::empty());
                assert(head + children_plan(bs@, declared@, im, kids, path@, fuel) =~= head);
            }
        },
    }
}

/// Some instance, in any module, instantiates module `m`.
pub open spec fn instantiated(im: Map<Seq<char>, Vec<ModuleInstance>>, m: Seq<char>) -> bool {
    exists|k: Seq<char>, i: int| im.contains_key(k) && 0 <= i < im[k]@.len() && #[trigger] im[k]@[i].module_name@ == m
}

/// Whether module `m` is elaborated at the top of the design: a module with
/// a template that no instance instantiates, or, when every module with a
/// template is instantiated somewhere, any module with a template.
pub open spec fn is_top(bs: Seq<Block>, declared: Seq<String>, im: Map<Seq<char>, Vec<ModuleInstance>>, m: Seq<char>) -> bool {
    &&& has_template(bs, declared, m)
    &&& (!instantiated(im, m) || forall|x: Seq<char>| #[trigger] has_template(bs, declared, x) ==> instantiated(im, x))
}

/// `tops` lists the top modules once each, ordered by name.
pub open spec fn is_top_list(
    tops: Seq<Seq<char>>,
    bs: Seq<Block>,
    declared: Seq<String>,
    im: Map<Seq<char>, Vec<ModuleInstance>>,
) -> bool {
    &&& forall|i: int, j: int| 0 <= i < j < tops.len() ==> seq_lt(text_key(tops[i]), text_key(tops[j]))
    &&& forall|m: Seq<char>| is_top(bs, declared, im, m) <==> #[trigger] tops.contains(m)
}

/// Every module with a template reaches only finitely deep into instances.
pub open spec fn hierarchy_finite(bs: Seq<Block>, declared: Seq<String>, im: Map<Seq<char>, Vec<ModuleInstance>>) -> bool {
    forall|m: Seq<char>| #[trigger] has_template(bs, declared, m) ==> exists|f: nat| depth_within(bs, declared, im, m, f)
}

/// A depth that instantiating `m` stays within.
pub open spec fn depth_of(bs: Seq<Block>, declared: Seq<String>, im: Map<Seq<char>, Vec<ModuleInstance>>, m: Seq<char>) -> nat {
    choose|f: nat| depth_within(bs, declared, im, m, f)
}

/// The plans of the top modules `tops`, each at `TOP.` and its name, in order.
pub open spec fn tops_plan(
    bs: Seq<Block>,
    declared: Seq<String>,
    im: Map<Seq<char>, Vec<ModuleInstance>>,
    tops: Seq<Seq<char>>,
) -> Seq<Placement>
    decreases tops.len(),
{
    if tops.len() == 0 {
        Seq::empty()
    } else {
        let m = tops.last();
        tops_plan(bs, declared, im, tops.drop_last()) + instance_plan(
            bs,
            declared,
            im,
            m,
            "TOP."@ + m,
            None,
            depth_of(bs, declared, im, m),
        )
    }
}

/// Whether `v` holds a name equal to `m`.
fn holds_name(v: &Vec<String>, m: &str) -> (r: bool)
    ensures
        r == name_among(v@, m@),
{
    let mut i: usize = 0;
    while i < v.len()
        invariant
            i <= v@.len(),
            forall|j: int| 0 <= j < i ==> (#[trigger] v@[j])@ != m@,
        decreases v@.len() - i,
    {
        if str_eq(v[i].as_str(), m) {
            return true;
        }
        i = i + 1;
    }
    false
}

/// Appends `m` to `names` unless it is there already.
fn add_name(names: &mut Vec<String>, m: &str)
    requires
        forall|a: int, b: int| 0 <= a < b < old(names)@.len() ==> old(names)@[a]@ != old(names)@[b]@,
    ensures
        forall|a: int, b: int| 0 <= a < b < final(names)@.len() ==> final(names)@[a]@ != final(names)@[b]@,
        forall|x: Seq<char>| #[trigger] name_among(final(names)@, x) <==> name_among(old(names)@, x) || x == m@,
{
    if holds_name(names, m) {
        return;
    }
    let ghost before = names@;
    names.push(m.to_string());
    proof {
        assert forall|x: Seq<char>| #[trigger] name_among(names@, x) <==> name_among(before, x) || x == m@ by {
            if name_among(before, x) {
                let a = choose|a: int| 0 <= a < before.len() && (#[trigger] before[a])@ == x;
                assert(names@[a] == before[a]);
            }
            if x == m@ {
                assert(names@[before.len() as int]@ == x);
            }
            if name_among(names@, x) {
                let a = choose|a: int| 0 <= a < names@.len() && (#[trigger] names@[a])@ == x;
                if a < before.len() {
                    assert(names@[a] == before[a]);
                }
            }
        }
    }
}

/// The names of the modules with a template, each once.
fn template_names(bs: &Vec<Block>, declared: &Vec<String>) -> (r: Vec<String>)
    ensures
        forall|i: int, j: int| 0 <= i < j < r@.len() ==> r@[i]@ != r@[j]@,
        forall|m: Seq<char>| #[trigger] name_among(r@, m) <==> has_template(bs@, declared@, m),
{
    let mut names: Vec<String> = Vec::new();
    let mut i: usize = 0;
    while i < bs.len()
        invariant
            i <= bs@.len(),
            forall|a: int, b: int| 0 <= a < b < names@.len() ==> names@[a]@ != names@[b]@,
            forall|m: Seq<char>| #[trigger] name_among(names@, m) <==> scope_among(bs@, i as int, m),
        decreases bs@.len() - i,
    {
        let ghost before = names@;
        add_name(&mut names, bs[i].module_scope());
        proof {
            assert forall|m: Seq<char>| #[trigger] name_among(names@, m) <==> scope_among(bs@, i + 1, m) by {
                if scope_among(bs@, i + 1, m) {
                    let j = choose|j: int| 0 <= j < i + 1 && (#[trigger] bs@[j])@.module_scope == m;
                    if j < i {
                        assert(scope_among(bs@, i as int, m));
                    }
                }
                if scope_among(bs@, i as int, m) {
                    let j = choose|j: int| 0 <= j < i && (#[trigger] bs@[j])@.module_scope == m;
                    assert(scope_among(bs@, i + 1, m));
                }
                if m == bs@[i as int]@.module_scope {
                    assert(scope_among(bs@, i + 1, m));
                }
            }
        }
        i = i + 1;
    }
    let mut k: usize = 0;
    while k < declared.len()
        invariant
            k <= declared@.len(),
            forall|a: int, b: int| 0 <= a < b < names@.len() ==> names@[a]@ != names@[b]@,
            forall|m: Seq<char>|
                #[trigger] name_among(names@, m) <==> scope_among(bs@, bs@.len() as int, m) || name_among(
                    declared@.subrange(0, k as int),
                    m,
                ),
        decreases declared@.len() - k,
    {
        add_name(&mut names, declared[k].as_str());
        proof {
            let d0 = declared@.subrange(0, k as int);
            let d1 = declared@.subrange(0, k + 1);
            assert forall|m: Seq<char>| #[trigger] name_among(d1, m) <==> name_among(d0, m) || m == declared@[k as int]@ by {
                if name_among(d1, m) {
                    let j = choose|j: int| 0 <= j < d1.len() && (#[trigger] d1[j])@ == m;
                    if j < k {
                        assert(d0[j] == d1[j]);
                    }
                }
                if name_among(d0, m) {
                    let j = choose|j: int| 0 <= j < d0.len() && (#[trigger] d0[j])@ == m;
                    assert(d1[j] == d0[j]);
                }
                if m == declared@[k as int]@ {
                    assert(d1[k as int] == declared@[k as int]);
                }
            }
        }
        k = k + 1;
    }
    proof {
        assert(declared@.subrange(0, declared@.len() as int) =~= declared@);
    }
    names
}

/// Whether some instance, in any module, instantiates module `m`.
fn is_instantiated(instances: &NameMap<Vec<ModuleInstance>>, m: &str) -> (r: bool)
    ensures
        r == instantiated(instances.map(), m@),
{
    let ghost im = instances.map();
    let keys = instances.keys();
    let mut a: usize = 0;
    while a < keys.len()
        invariant
            a <= keys@.len(),
            im == instances.map(),
            forall|k: Seq<char>| im.contains_key(k) <==> exists|x: int| 0 <= x < keys@.len() && #[trigger] keys@[x]@ == k,
            forall|x: int, i: int|
                0 <= x < a && 0 <= i < im[keys@[x]@]@.len() ==> (#[trigger] im[keys@[x]@]@[i]).module_name@ != m@,
        decreases keys@.len() - a,
    {
        assert(im.contains_key(keys@[a as int]@));
        match instances.get(keys[a].as_str()) {
            Some(v) => {
                let mut i: usize = 0;
                while i < v.len()
                    invariant
                        i <= v@.len(),
                        a < keys@.len(),
                        im == instances.map(),
                        im.contains_key(keys@[a as int]@),
                        *v == im[keys@[a as int]@],
                        forall|j: int| 0 <= j < i ==> (#[trigger] v@[j]).module_name@ != m@,
                    decreases v@.len() - i,
                {
                    if str_eq(v[i].module_name.as_str(), m) {
                        proof {
                            let k = keys@[a as int]@;
                            assert(im[k]@[i as int].module_name@ == m@);
                            assert(im.contains_key(k) && 0 <= i < im[k]@.len());
                            assert(instantiated(im, m@));
                        }
                        return true;
                    }
                    i = i + 1;
                }
                proof {
                    assert forall|x: int, i: int|
                        0 <= x < a + 1 && 0 <= i < im[keys@[x]@]@.len() implies (#[trigger] im[keys@[x]@]@[i]).module_name@
                        != m@ by {
                        if x == a {
                            assert(im[keys@[x]@]@[i] == v@[i]);
                        }
                    }
                }
            },
            None => {},
        }
        a = a + 1;
    }
    proof {
        assert forall|k: Seq<char>, i: int| im.contains_key(k) && 0 <= i < im[k]@.len() implies #[trigger] im[k]@[i].module_name@
            != m@ by {
            let x = choose|x: int| 0 <= x < keys@.len() && #[trigger] keys@[x]@ == k;
            assert(im[keys@[x]@]@[i] == im[k]@[i]);
        }
    }
    false
}

/// The top modules, ordered by name.
fn top_modules(bs: &Vec<Block>, declared: &Vec<String>, instances: &NameMap<Vec<ModuleInstance>>) -> (r: Vec<String>)
    ensures
        is_top_list(texts_of(r@), bs@, declared@, instances.map()),
{
    let ghost im = instances.map();
    let names = template_names(bs, declared);
    let mut free: Vec<String> = Vec::new();
    let mut i: usize = 0;
    while i < names.len()
        invariant
            i <= names@.len(),
            im == instances.map(),
            forall|a: int, b: int| 0 <= a < b < free@.len() ==> free@[a]@ != free@[b]@,
            forall|a: int, b: int| 0 <= a < b < names@.len() ==> names@[a]@ != names@[b]@,
            forall|m: Seq<char>|
                #[trigger] name_among(free@, m) <==> name_among(names@.subrange(0, i as int), m) && !instantiated(im, m),
        decreases names@.len() - i,
    {
        let ghost n0 = names@.subrange(0, i as int);
        let ghost n1 = names@.subrange(0, i + 1);
        proof {
            assert forall|m: Seq<char>| #[trigger] name_among(n1, m) <==> name_among(n0, m) || m == names@[i as int]@ by {
                if name_among(n1, m) {
                    let j = choose|j: int| 0 <= j < n1.len() && (#[trigger] n1[j])@ == m;
                    if j < i {
                        assert(n0[j] == n1[j]);
                    }
                }
                if name_among(n0, m) {
                    let j = choose|j: int| 0 <= j < n0.len() && (#[trigger] n0[j])@ == m;
                    assert(n1[j] == n0[j]);
                }
                if m == names@[i as int]@ {
                    assert(n1[i as int] == names@[i as int]);
                }
            }
        }
        if !is_instantiated(instances, names[i].as_str()) {
            let ghost before = free@;
            proof {
                if name_among(before, names@[i as int]@) {
                    let j = choose|j: int| 0 <= j < i && (#[trigger] n0[j])@ == names@[i as int]@;
                    assert(n0[j] == names@[j]);
                }
            }
            free.push(names[i].clone());
            proof {
                assert forall|m: Seq<char>| #[trigger] name_among(free@, m) <==> name_among(before, m) || m == names@[i as int]@ by {
                    if name_among(before, m) {
                        let a = choose|a: int| 0 <= a < before.len() && (#[trigger] before[a])@ == m;
                        assert(free@[a] == before[a]);
                    }
                    if m == names@[i as int]@ {
                        assert(free@[before.len() as int]@ == m);
                    }
                    if name_among(free@, m) {
                        let a = choose|a: int| 0 <= a < free@.len() && (#[trigger] free@[a])@ == m;
                        if a < before.len() {
                            assert(free@[a] == before[a]);
                        }
                    }
                }
                assert forall|a: int, b: int| 0 <= a < b < free@.len() implies free@[a]@ != free@[b]@ by {
                    if b == before.len() {
                        assert(free@[a] == before[a]);
                        assert(name_among(before, before[a]@));
                    }
                }
            }
        }
        i = i + 1;
    }
    proof {
        assert(names@.subrange(0, names@.len() as int) =~= names@);
    }
    let chosen = if free.len() == 0 {
        proof {
            assert forall|x: Seq<char>| #[trigger] has_template(bs@, declared@, x) implies instantiated(im, x) by {
                assert(name_among(names@, x));
                if !instantiated(im, x) {
                    assert(name_among(free@, x));
                    let a = choose|a: int| 0 <= a < free@.len() && (#[trigger] free@[a])@ == x;
                }
            }
        }
        names
    } else {
        proof {
            let w = free@[0]@;
            assert(name_among(free@, w));
            assert(has_template(bs@, declared@, w) && !instantiated(im, w));
        }
        free
    };
    proof {
        assert forall|m: Seq<char>| #[trigger] name_among(chosen@, m) <==> is_top(bs@, declared@, im, m) by {
            if free@.len() != 0 {
                let w = free@[0]@;
                assert(name_among(free@, w));
                if is_top(bs@, declared@, im, m) && instantiated(im, m) {
                    assert(has_template(bs@, declared@, w));
                }
            }
        }
    }
    let mut keys: Vec<Vec<u64>> = Vec::new();
    let mut k: usize = 0;
    while k < chosen.len()
        invariant
            k <= chosen@.len(),
            keys@.len() == k,
            forall|x: int| 0 <= x < k ==> #[trigger] keys@[x]@ == text_key(chosen@[x]@),
        decreases chosen@.len() - k,
    {
        let mut key: Vec<u64> = Vec::new();
        let cs = chars_of(chosen[k].as_str());
        push_text_key(&mut key, cs.as_slice());
        proof {
            assert(key@ =~= text_key(chosen@[k as int]@));
        }
        keys.push(key);
        k = k + 1;
    }
    let perm = sort_perm(&keys);
    let ghost kv = key_views(keys@);
    let mut out: Vec<String> = Vec::new();
    let mut m: usize = 0;
    while m < perm.len()
        invariant
            perm@.len() == chosen@.len(),
            kv == key_views(keys@),
            forall|a: int| 0 <= a < perm@.len() ==> #[trigger] perm@[a] < chosen@.len(),
            m <= perm@.len(),
            out@.len() == m,
            forall|a: int| 0 <= a < m ==> #[trigger] out@[a]@ == chosen@[perm@[a] as int]@,
        decreases perm@.len() - m,
    {
        out.push(chosen[perm[m]].clone());
        m = m + 1;
    }
    proof {
        let ov = texts_of(out@);
        assert forall|a: int, b: int| 0 <= a < b < ov.len() implies seq_lt(text_key(ov[a]), text_key(ov[b])) by {
            let pa = perm@[a] as int;
            let pb = perm@[b] as int;
            assert(keyed_lt(kv[pa], pa, kv[pb], pb));
            assert(kv[pa] == text_key(chosen@[pa]@));
            assert(kv[pb] == text_key(chosen@[pb]@));
            assert(ov[a] == chosen@[pa]@);
            assert(ov[b] == chosen@[pb]@);
            if kv[pa] == kv[pb] {
                crate::coverage::statements::lemma_text_key_names(chosen@[pa]@, chosen@[pb]@);
                if pa < pb {
                    assert(chosen@[pa]@ != chosen@[pb]@);
                } else {
                    assert(chosen@[pb]@ != chosen@[pa]@);
                }
            }
        }
        assert forall|x: Seq<char>| is_top(bs@, declared@, im, x) <==> #[trigger] ov.contains(x) by {
            if ov.contains(x) {
                let a = choose|a: int| 0 <= a < ov.len() && ov[a] == x;
                assert(ov[a] == chosen@[perm@[a] as int]@);
                assert(name_among(chosen@, x));
            }
            if is_top(bs@, declared@, im, x) {
                assert(name_among(chosen@, x));
                let c = choose|c: int| 0 <= c < chosen@.len() && (#[trigger] chosen@[c])@ == x;
                assert(perm@.contains(c as usize));
                let a = choose|a: int| 0 <= a < perm@.len() && perm@[a] == c as usize;
                assert(ov[a] == x);
            }
        }
    }
    out
}

/// Two lists of the top modules are the same list.
pub proof fn lemma_top_list_unique(
    t1: Seq<Seq<char>>,
    t2: Seq<Seq<char>>,
    bs: Seq<Block>,
    declared: Seq<String>,
    im: Map<Seq<char>, Vec<ModuleInstance>>,
)
    requires
        is_top_list(t1, bs, declared, im),
        is_top_list(t2, bs, declared, im),
    ensures
        t1 == t2,
    decreases t1.len() + t2.len(),
{
    lemma_ascending_unique(t1, t2);
}

/// Two strictly ascending lists of texts with the same members are equal.
proof fn lemma_ascending_unique(t1: Seq<Seq<char>>, t2: Seq<Seq<char>>)
    requires
        forall|i: int, j: int| #![trigger t1[i], t1[j]] 0 <= i < j < t1.len() ==> seq_lt(text_key(t1[i]), text_key(t1[j])),
        forall|i: int, j: int| #![trigger t2[i], t2[j]] 0 <= i < j < t2.len() ==> seq_lt(text_key(t2[i]), text_key(t2[j])),
        forall|m: Seq<char>| #![trigger t1.contains(m)] #![trigger t2.contains(m)] t1.contains(m) <==> t2.contains(m),
    ensures
        t1 == t2,
    decreases t1.len() + t2.len(),
{
    if t1.len() == 0 {
        if t2.len() > 0 {
            assert(t2.contains(t2[0]));
            assert(t1.contains(t2[0]));
        }
        assert(t1 =~= t2);
    } else if t2.len() == 0 {
        assert(t1.contains(t1[0]));
        assert(t2.contains(t1[0]));
    } else {
        let a = t1.last();
        let b = t2.last();
        assert(t1.contains(a));
        assert(t2.contains(b));
        assert(t2.contains(a));
        assert(t1.contains(b));
        let ia = choose|i: int| 0 <= i < t2.len() && t2[i] == a;
        let ib = choose|i: int| 0 <= i < t1.len() && t1[i] == b;
        if a != b {
            assert(t2[t2.len() - 1] == b);
            assert(t1[t1.len() - 1] == a);
            if ia < t2.len() - 1 {
                assert(seq_lt(text_key(t2[ia]), text_key(t2[t2.len() - 1])));
                assert(seq_lt(text_key(a), text_key(b)));
            }
            if ib < t1.len() - 1 {
                assert(seq_lt(text_key(t1[ib]), text_key(t1[t1.len() - 1])));
                assert(seq_lt(text_key(b), text_key(a)));
            }
            crate::order::lemma_seq_lt_asymmetric(text_key(a), text_key(b));
            assert(false);
        }
        let r1 = t1.drop_last();
        let r2 = t2.drop_last();
        assert forall|m: Seq<char>| #[trigger] r1.contains(m) <==> r2.contains(m) by {
            if r1.contains(m) {
                let i = choose|i: int| 0 <= i < r1.len() && r1[i] == m;
                assert(t1[i] == m);
                assert(seq_lt(text_key(t1[i]), text_key(t1[t1.len() - 1])));
                if m == a {
                    crate::order::lemma_seq_lt_irreflexive(text_key(a));
                }
                assert(t1.contains(m));
                let j = choose|j: int| 0 <= j < t2.len() && t2[j] == m;
                assert(j != t2.len() - 1);
                assert(r2[j] == m);
            }
            if r2.contains(m) {
                let i = choose|i: int| 0 <= i < r2.len() && r2[i] == m;
                assert(t2[i] == m);
                assert(seq_lt(text_key(t2[i]), text_key(t2[t2.len() - 1])));
                if m == b {
                    crate::order::lemma_seq_lt_irreflexive(text_key(b));
                }
                assert(t2.contains(m));
                let j = choose|j: int| 0 <= j < t1.len() && t1[j] == m;
                assert(j != t1.len() - 1);
                assert(r1[j] == m);
            }
        }
        lemma_ascending_unique(r1, r2);
        assert(t1 =~= r1.push(a));
        assert(t2 =~= r2.push(b));
    }
}

/// Elaborates the design: each top module placed at `TOP.` followed by its
/// name, in name order, each followed by the instances it holds, depth first.
/// Every block keeps the id of the template block it comes from, so the
/// copies of one source block in different instances share an id.
pub fn elaborate_block_set(
    template_block_set: &BlockSet,
    declared_modules: &Vec<String>,
    instances: &NameMap<Vec<ModuleInstance>>,
) -> (r: Result<BlockSet, SvaError>)
    requires
        hierarchy_finite(template_block_set@, declared_modules@, instances.map()),
    ensures
        r is Ok,
        r matches Ok(s) ==> exists|tops: Seq<Seq<char>>|
            is_top_list(tops, template_block_set@, declared_modules@, instances.map()) && realizes(
                s@,
                0,
                tops_plan(template_block_set@, declared_modules@, instances.map(), tops),
            ),
{
    let ghost im = instances.map();
    let bs = template_block_set.blocks();
    let tops = top_modules(bs, declared_modules, instances);
    let ghost tv = texts_of(tops@);
    let mut blocks: Vec<Block> = Vec::new();
    let mut t: usize = 0;
    proof {
        assert(tv.subrange(0, 0) =~= Seq::<Seq<char>>::empty());
    }
    while t < tops.len()
        invariant
            t <= tops@.len(),
            tv == texts_of(tops@),
            im == instances.map(),
            bs@ == template_block_set@,
            is_top_list(tv, bs@, declared_modules@, im),
            hierarchy_finite(bs@, declared_modules@, im),
            realizes(blocks@, 0, tops_plan(bs@, declared_modules@, im, tv.subrange(0, t as int))),
        decreases tops@.len() - t,
    {
        let name = tops[t].as_str();
        let ghost m = name@;
        proof {
            assert(tv[t as int] == m);
            assert(tv.contains(m));
            assert(is_top(bs@, declared_modules@, im, m));
            assert(has_template(bs@, declared_modules@, m));
            let f = choose|f: nat| depth_within(bs@, declared_modules@, im, m, f);
        }
        let mut path = chars_of("TOP.");
        let cs = chars_of(name);
        append_chars(&mut path, cs.as_slice());
        let path_text = string_of(path.as_slice());
        let ghost before = blocks@;
        elaborate_module_instance(
            bs,
            declared_modules,
            instances,
            name,
            path_text.as_str(),
            None,
            &mut blocks,
            Ghost(depth_of(bs@, declared_modules@, im, m)),
        );
        proof {
            reveal_strlit("TOP.");
            assert(path_text@ =~= "TOP."@ + m);
            let prev = tops_plan(bs@, declared_modules@, im, tv.subrange(0, t as int));
            let cp = instance_plan(bs@, declared_modules@, im, m, "TOP."@ + m, None, depth_of(bs@, declared_modules@, im, m));
            let next = tv.subrange(0, t + 1);
            assert(next.drop_last() =~= tv.subrange(0, t as int));
            assert(next.last() == m);
            assert(tops_plan(bs@, declared_modules@, im, next) == prev + cp);
            assert forall|i: int| 0 <= i < prev.len() implies placed(#[trigger] blocks@[0 + i]@, prev[i]) by {
                assert(blocks@[0 + i] == before[0 + i]);
            }
            lemma_realizes_append(blocks@, 0, prev, cp);
        }
        t = t + 1;
    }
    let n = blocks.len();
    proof {
        assert(tv.subrange(0, tv.len() as int) =~= tv);
    }
    Ok(BlockSet::index_blocks(blocks))
}

/// Whether instantiating module `m` reaches no deeper than `fuel` levels.
fn depth_fits(
    bs: &Vec<Block>,
    declared: &Vec<String>,
    instances: &NameMap<Vec<ModuleInstance>>,
    m: &str,
    fuel: u64,
) -> (r: bool)
    ensures
        r == depth_within(bs@, declared@, instances.map(), m@, fuel as nat),
    decreases fuel,
{
    let ghost im = instances.map();
    if !template_exists(bs, declared, m) {
        return true;
    }
    match instances.get(m) {
        None => true,
        Some(kids) => {
            proof {
                assert(kids@ == children_of(im, m@));
            }
            if kids.len() == 0 {
                return true;
            }
            if fuel == 0 {
                return false;
            }
            let mut i: usize = 0;
            while i < kids.len()
                invariant
                    i <= kids@.len(),
                    fuel > 0,
                    im == instances.map(),
                    has_template(bs@, declared@, m@),
                    kids@ == children_of(im, m@),
                    forall|j: int|
                        0 <= j < i ==> depth_within(bs@, declared@, im, (#[trigger] kids@[j]).module_name@, (fuel - 1) as nat),
                decreases kids@.len() - i,
            {
                if !depth_fits(bs, declared, instances, kids[i].module_name.as_str(), fuel - 1) {
                    proof {
                        assert(children_of(im, m@)[i as int] == kids@[i as int]);
                        assert(!depth_within(
                            bs@,
                            declared@,
                            im,
                            children_of(im, m@)[i as int].module_name@,
                            (fuel - 1) as nat,
                        ));
                        assert(has_template(bs@, declared@, m@));
                        assert(children_of(im, m@).len() != 0);
                        assert(!depth_within(bs@, declared@, im, m@, fuel as nat));
                    }
                    return false;
                }
                i = i + 1;
            }
            proof {
                assert forall|j: int| 0 <= j < children_of(im, m@).len() implies depth_within(
                    bs@,
                    declared@,
                    im,
                    (#[trigger] children_of(im, m@)[j]).module_name@,
                    (fuel - 1) as nat,
                ) by {
                    assert(children_of(im, m@)[j] == kids@[j]);
                }
            }
            true
        },
    }
}

/// The number of modules with a template.
pub open spec fn template_count(bs: Seq<Block>, declared: Seq<String>) -> nat {
    Set::new(|m: Seq<char>| has_template(bs, declared, m)).len()
}

/// Whether every module with a template is seen to reach only finitely deep
/// into instances, by testing each to a depth of the number of modules with
/// a template. When it holds, `elaborate_block_set` may be called on these
/// inputs.
pub fn hierarchy_is_finite(
    template_block_set: &BlockSet,
    declared_modules: &Vec<String>,
    instances: &NameMap<Vec<ModuleInstance>>,
) -> (r: bool)
    ensures
        r == forall|m: Seq<char>| #[trigger] has_template(template_block_set@, declared_modules@, m) ==> depth_within(
            template_block_set@,
            declared_modules@,
            instances.map(),
            m,
            template_count(template_block_set@, declared_modules@),
        ),
        r ==> hierarchy_finite(template_block_set@, declared_modules@, instances.map()),
{
    let ghost im = instances.map();
    let bs = template_block_set.blocks();
    let names = template_names(bs, declared_modules);
    let fuel = names.len() as u64;
    proof {
        let views = texts_of(names@);
        assert forall|a: int, b: int| 0 <= a < views.len() && 0 <= b < views.len() && a != b implies views[a] != views[b] by {
            if a < b {
                assert(names@[a]@ != names@[b]@);
            } else {
                assert(names@[b]@ != names@[a]@);
            }
        }
        assert(views.no_duplicates());
        views.unique_seq_to_set();
        assert forall|m: Seq<char>| views.to_set().contains(m) <==> has_template(bs@, declared_modules@, m) by {
            if views.to_set().contains(m) {
                let j = choose|j: int| 0 <= j < views.len() && views[j] == m;
                assert(name_among(names@, m));
            }
            if has_template(bs@, declared_modules@, m) {
                assert(name_among(names@, m));
                let j = choose|j: int| 0 <= j < names@.len() && (#[trigger] names@[j])@ == m;
                assert(views[j] == m);
            }
        }
        assert(views.to_set() =~= Set::new(|m: Seq<char>| has_template(bs@, declared_modules@, m)));
        assert(fuel as nat == template_count(bs@, declared_modules@));
    }
    let mut i: usize = 0;
    while i < names.len()
        invariant
            i <= names@.len(),
            im == instances.map(),
            bs@ == template_block_set@,
            fuel as nat == template_count(bs@, declared_modules@),
            forall|m: Seq<char>| #[trigger] name_among(names@, m) <==> has_template(bs@, declared_modules@, m),
            forall|j: int| 0 <= j < i ==> depth_within(bs@, declared_modules@, im, (#[trigger] names@[j])@, fuel as nat),
        decreases names@.len() - i,
    {
        if !depth_fits(bs, declared_modules, instances, names[i].as_str(), fuel) {
            proof {
                assert(name_among(names@, names@[i as int]@));
                assert(has_template(bs@, declared_modules@, names@[i as int]@));
            }
            return false;
        }
        i = i + 1;
    }
    proof {
        assert forall|m: Seq<char>| #[trigger] has_template(bs@, declared_modules@, m) implies exists|f: nat|
            depth_within(bs@, declared_modules@, im, m, f) by {
            assert(name_among(names@, m));
            let j = choose|j: int| 0 <= j < names@.len() && (#[trigger] names@[j])@ == m;
            assert(depth_within(bs@, declared_modules@, im, m, fuel as nat));
        }
        assert forall|m: Seq<char>| #[trigger] has_template(bs@, declared_modules@, m) implies depth_within(
            bs@,
            declared_modules@,
            im,
            m,
            fuel as nat,
        ) by {
            assert(name_among(names@, m));
            let j = choose|j: int| 0 <= j < names@.len() && (#[trigger] names@[j])@ == m;
        }
    }
    true
}

/// The ports of module `m`, in the order of its port blocks.
pub open spec fn port_order(bs: Seq<Block>, m: Seq<char>) -> Seq<Seq<char>>
    decreases bs.len(),
{
    if bs.len() == 0 {
        Seq::empty()
    } else {
        let rest = port_order(bs.drop_last(), m);
        let b = bs.last()@;
        if b.module_scope == m && port_name(b) is Some {
            rest.push(port_name(b)->0)
        } else {
            rest
        }
    }
}

/// The ports of module `module_name`, in the order of its port blocks in
/// the template block set; instances that connect ports by position follow
/// this order.
pub fn module_port_order(template_block_set: &BlockSet, module_name: &str) -> (r: Vec<String>)
    ensures
        texts_of(r@) == port_order(template_block_set@, module_name@),
{
    let bs = template_block_set.blocks();
    let mut out: Vec<String> = Vec::new();
    let mut k: usize = 0;
    while k < bs.len()
        invariant
            k <= bs@.len(),
            bs@ == template_block_set@,
            texts_of(out@) == port_order(bs@.subrange(0, k as int), module_name@),
        decreases bs@.len() - k,
    {
        let ghost sub = bs@.subrange(0, k as int);
        let ghost next = bs@.subrange(0, k + 1);
        proof {
            assert(next.drop_last() =~= sub);
            assert(next.last() == bs@[k as int]);
        }
        if str_eq(bs[k].module_scope(), module_name) {
            match port_name_from_block(&bs[k]) {
                Some(p) => {
                    let ghost before = out@;
                    out.push(p);
                    proof {
                        assert(texts_of(out@) =~= texts_of(before).push(p@));
                    }
                },
                None => {},
            }
        }
        k = k + 1;
    }
    proof {
        assert(bs@.subrange(0, bs@.len() as int) =~= bs@);
    }
    out
}

/// The instance scope that a placement puts its block in.
pub open spec fn placement_scope(p: Placement) -> Seq<char> {
    match p {
        Placement::Copy { scope, .. } => scope,
        Placement::Bridge { child, .. } => child,
    }
}

/// Whether every placement of `plan` lies in a scope that starts with `path`.
pub open spec fn all_under(plan: Seq<Placement>, path: Seq<char>) -> bool {
    forall|k: int| 0 <= k < plan.len() ==> spec_starts_with(#[trigger] placement_scope(plan[k]), path)
}

proof fn lemma_under_append(a: Seq<Placement>, b: Seq<Placement>, path: Seq<char>)
    requires
        all_under(a, path),
        all_under(b, path),
    ensures
        all_under(a + b, path),
{
    assert forall|k: int| 0 <= k < (a + b).len() implies spec_starts_with(#[trigger] placement_scope((a + b)[k]), path) by {
        if k < a.len() {
            assert((a + b)[k] == a[k]);
        } else {
            assert((a + b)[k] == b[k - a.len()]);
        }
    }
}

proof fn lemma_starts_with_own_extension(path: Seq<char>, more: Seq<char>)
    ensures
        spec_starts_with(path + more, path),
{
    assert((path + more).subrange(0, path.len() as int) =~= path);
}

proof fn lemma_starts_with_trans(x: Seq<char>, y: Seq<char>, z: Seq<char>)
    requires
        spec_starts_with(x, y),
        spec_starts_with(y, z),
    ensures
        spec_starts_with(x, z),
{
    assert(x.subrange(0, z.len() as int) =~= y.subrange(0, z.len() as int));
}

proof fn lemma_copies_under(bs: Seq<Block>, m: Seq<char>, path: Seq<char>, ports: bool)
    ensures
        all_under(module_copies(bs, m, path, ports), path),
    decreases bs.len(),
{
    lemma_starts_with_own_extension(path, Seq::empty());
    assert(path + Seq::<char>::empty() =~= path);
    if bs.len() > 0 {
        lemma_copies_under(bs.drop_last(), m, path, ports);
    }
}

proof fn lemma_bridges_under(bs: Seq<Block>, m: Seq<char>, parent: Seq<char>, path: Seq<char>, conns: Seq<PortConnection>)
    ensures
        all_under(module_bridges(bs, m, parent, path, conns), path),
    decreases bs.len(),
{
    lemma_starts_with_own_extension(path, Seq::empty());
    assert(path + Seq::<char>::empty() =~= path);
    if bs.len() > 0 {
        lemma_bridges_under(bs.drop_last(), m, parent, path, conns);
    }
}

proof fn lemma_instance_plan_under(
    bs: Seq<Block>,
    declared: Seq<String>,
    im: Map<Seq<char>, Vec<ModuleInstance>>,
    m: Seq<char>,
    path: Seq<char>,
    parent: Option<(Seq<char>, Seq<PortConnection>)>,
    fuel: nat,
)
    ensures
        all_under(instance_plan(bs, declared, im, m, path, parent, fuel), path),
    decreases fuel, children_of(im, m).len() + 1,
{
    if has_template(bs, declared, m) {
        let own = module_copies(bs, m, path, false);
        let ports = match parent {
            Some(pc) => module_bridges(bs, m, pc.0, path, pc.1),
            None => module_copies(bs, m, path, true),
        };
        lemma_copies_under(bs, m, path, false);
        match parent {
            Some(pc) => lemma_bridges_under(bs, m, pc.0, path, pc.1),
            None => lemma_copies_under(bs, m, path, true),
        }
        lemma_children_plan_under(bs, declared, im, children_of(im, m), path, fuel);
        lemma_under_append(own, ports, path);
        lemma_under_append(own + ports, children_plan(bs, declared, im, children_of(im, m), path, fuel), path);
    }
}

proof fn lemma_children_plan_under(
    bs: Seq<Block>,
    declared: Seq<String>,
    im: Map<Seq<char>, Vec<ModuleInstance>>,
    kids: Seq<ModuleInstance>,
    path: Seq<char>,
    fuel: nat,
)
    ensures
        all_under(children_plan(bs, declared, im, kids, path, fuel), path),
    decreases fuel, kids.len(),
{
    if fuel > 0 && kids.len() > 0 {
        let c = kids.last();
        let child_path = path + "."@ + c.instance_name@;
        lemma_children_plan_under(bs, declared, im, kids.drop_last(), path, fuel);
        lemma_instance_plan_under(
            bs,
            declared,
            im,
            c.module_name@,
            child_path,
            Some((path, c.connections@)),
            (fuel - 1) as nat,
        );
        let cp = instance_plan(bs, declared, im, c.module_name@, child_path, Some((path, c.connections@)), (fuel - 1) as nat);
        assert(child_path =~= path + ("."@ + c.instance_name@));
        lemma_starts_with_own_extension(path, "."@ + c.instance_name@);
        assert forall|k: int| 0 <= k < cp.len() implies spec_starts_with(#[trigger] placement_scope(cp[k]), path) by {
            lemma_starts_with_trans(placement_scope(cp[k]), child_path, path);
        }
        lemma_under_append(children_plan(bs, declared, im, kids.drop_last(), path, fuel), cp, path);
    }
}

proof fn lemma_tops_plan_under(bs: Seq<Block>, declared: Seq<String>, im: Map<Seq<char>, Vec<ModuleInstance>>, tops: Seq<Seq<char>>)
    ensures
        all_under(tops_plan(bs, declared, im, tops), "TOP."@),
    decreases tops.len(),
{
    if tops.len() > 0 {
        let m = tops.last();
        let path = "TOP."@ + m;
        lemma_tops_plan_under(bs, declared, im, tops.drop_last());
        lemma_instance_plan_under(bs, declared, im, m, path, None, depth_of(bs, declared, im, m));
        let cp = instance_plan(bs, declared, im, m, path, None, depth_of(bs, declared, im, m));
        lemma_starts_with_own_extension("TOP."@, m);
        assert forall|k: int| 0 <= k < cp.len() implies spec_starts_with(#[trigger] placement_scope(cp[k]), "TOP."@) by {
            lemma_starts_with_trans(placement_scope(cp[k]), path, "TOP."@);
        }
        lemma_under_append(tops_plan(bs, declared, im, tops.drop_last()), cp, "TOP."@);
    }
}

/// Every block of an elaborated design lies in a scope below `TOP.`.
pub proof fn lemma_elaborated_scopes_under_top(
    out: Seq<Block>,
    bs: Seq<Block>,
    declared: Seq<String>,
    im: Map<Seq<char>, Vec<ModuleInstance>>,
    tops: Seq<Seq<char>>,
)
    requires
        realizes(out, 0, tops_plan(bs, declared, im, tops)),
    ensures
        forall|i: int| 0 <= i < out.len() ==> spec_starts_with(#[trigger] out[i]@.module_scope, "TOP."@),
{
    let plan = tops_plan(bs, declared, im, tops);
    lemma_tops_plan_under(bs, declared, im, tops);
    assert forall|i: int| 0 <= i < out.len() implies spec_starts_with(#[trigger] out[i]@.module_scope, "TOP."@) by {
        assert(placed(out[0 + i]@, plan[i]));
        assert(out[0 + i] == out[i]);
        assert(spec_starts_with(placement_scope(plan[i]), "TOP."@));
    }
}

} // verus!
