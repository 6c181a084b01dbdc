use vstd::prelude::*;

use crate::text::{chars_of, decimal, i64_decimal, signed_decimal, u64_decimal};
use crate::types::{SignalLocate, SignalNode, SignalNodeKind, TimedSliceNode, Timestamp};

verus! {

// The Debug text of the slice types. Slice graphs list their nodes and edges
// in the order of this text, so it is spelled out here field by field.

/// What std's `Debug` writes for a string: the text quoted and escaped.
pub uninterp spec fn debug_quoted(s: Seq<char>) -> Seq<char>;

/// std's `Debug` of a `str` (`format!("{:?}", s)`).
#[verifier::external_body]
fn debug_quote(s: &str) -> (r: String)
    ensures
        r@ == debug_quoted(s@),
{
    format!("{:?}", s)
}

/// Appends the characters of `s` to `out`.
pub fn append_chars(out: &mut Vec<char>, s: &[char])
    ensures
        final(out)@ == old(out)@ + s@,
{
    let ghost start = out@;
    let mut i: usize = 0;
    while i < s.len()
        invariant
            i <= s@.len(),
            out@ == start + s@.subrange(0, i as int),
        decreases s@.len() - i,
    {
        out.push(s[i]);
        proof {
            assert(s@.subrange(0, i + 1) =~= s@.subrange(0, i as int).push(s@[i as int]));
        }
        i = i + 1;
    }
    proof {
        assert(s@.subrange(0, s@.len() as int) =~= s@);
    }
}

/// Appends the characters of `s` to `out`.
pub fn append_str(out: &mut Vec<char>, s: &str)
    ensures
        final(out)@ == old(out)@ + s@,
{
    let cs = chars_of(s);
    append_chars(out, cs.as_slice());
}

pub open spec fn kind_debug(k: SignalNodeKind) -> Seq<char> {
    match k {
        SignalNodeKind::Variable => "Variable"@,
        SignalNodeKind::Literal => "Literal"@,
    }
}

pub open spec fn locate_debug(l: SignalLocate) -> Seq<char> {
    "SignalLocate { offset: "@ + decimal(l.offset as nat) + ", line: "@ + decimal(l.line as nat)
        + ", len: "@ + decimal(l.len as nat) + " }"@
}

/// The Debug text of a signal node.
pub open spec fn signal_debug(s: SignalNode) -> Seq<char> {
    "SignalNode { kind: "@ + kind_debug(s.kind) + ", name: "@ + debug_quoted(s.name@) + ", locate: "@
        + locate_debug(s.locate) + " }"@
}

pub open spec fn time_debug(t: Option<Timestamp>) -> Seq<char> {
    match t {
        Some(t) => "Some(Timestamp("@ + signed_decimal(t.0 as int) + "))"@,
        None => "None"@,
    }
}

/// The Debug text of a slice node.
pub open spec fn node_debug(n: TimedSliceNode) -> Seq<char> {
    match n {
        TimedSliceNode::Block { block_id, time } => "Block { block_id: BlockId("@ + decimal(
            block_id.0 as nat,
        ) + "), time: "@ + time_debug(time) + " }"@,
        TimedSliceNode::Literal { signal, time } => "Literal { signal: "@ + signal_debug(signal)
            + ", time: "@ + time_debug(time) + " }"@,
    }
}

/// The Debug text of an optional signal.
pub open spec fn signal_opt_debug(s: Option<SignalNode>) -> Seq<char> {
    match s {
        Some(s) => "Some("@ + signal_debug(s) + ")"@,
        None => "None"@,
    }
}

/// The Debug text of an edge written as the triple `(from, to, signal)`.
pub open spec fn edge_debug(from: TimedSliceNode, to: TimedSliceNode, signal: Option<SignalNode>) -> Seq<char> {
    "("@ + node_debug(from) + ", "@ + node_debug(to) + ", "@ + signal_opt_debug(signal) + ")"@
}

fn append_decimal(out: &mut Vec<char>, n: u64)
    ensures
        final(out)@ == old(out)@ + decimal(n as nat),
{
    let d = u64_decimal(n);
    append_chars(out, d.as_slice());
}

fn append_kind(out: &mut Vec<char>, k: SignalNodeKind)
    ensures
        final(out)@ == old(out)@ + kind_debug(k),
{
    match k {
        SignalNodeKind::Variable => append_str(out, "Variable"),
        SignalNodeKind::Literal => append_str(out, "Literal"),
    }
}

/// Appends the Debug text of a signal node.
pub fn append_signal_debug(out: &mut Vec<char>, s: &SignalNode)
    ensures
        final(out)@ == old(out)@ + signal_debug(*s),
{
    let ghost start = out@;
    append_str(out, "SignalNode { kind: ");
    append_kind(out, s.kind);
    append_str(out, ", name: ");
    let q = debug_quote(s.name.as_str());
    append_str(out, q.as_str());
    append_str(out, ", locate: SignalLocate { offset: ");
    append_decimal(out, s.locate.offset as u64);
    append_str(out, ", line: ");
    append_decimal(out, s.locate.line as u64);
    append_str(out, ", len: ");
    append_decimal(out, s.locate.len as u64);
    append_str(out, " } }");
    proof {
        assert(", locate: SignalLocate { offset: "@ =~= ", locate: "@ + "SignalLocate { offset: "@) by {
            reveal_strlit(", locate: SignalLocate { offset: ");
            reveal_strlit(", locate: ");
            reveal_strlit("SignalLocate { offset: ");
        }
        assert(" } }"@ =~= " }"@ + " }"@) by {
            reveal_strlit(" } }");
            reveal_strlit(" }");
        }
        assert(out@ =~= start + signal_debug(*s));
    }
}

fn append_time(out: &mut Vec<char>, t: Option<Timestamp>)
    ensures
        final(out)@ == old(out)@ + time_debug(t),
{
    match t {
        Some(t) => {
            let ghost start = out@;
            append_str(out, "Some(Timestamp(");
            let d = i64_decimal(t.0);
            append_chars(out, d.as_slice());
            append_str(out, "))");
            proof {
                assert(out@ =~= start + time_debug(Some(t)));
            }
        },
        None => append_str(out, "None"),
    }
}

/// Appends the Debug text of a slice node.
pub fn append_node_debug(out: &mut Vec<char>, n: &TimedSliceNode)
    ensures
        final(out)@ == old(out)@ + node_debug(*n),
{
    let ghost start = out@;
    match n {
        TimedSliceNode::Block { block_id, time } => {
            append_str(out, "Block { block_id: BlockId(");
            append_decimal(out, block_id.0);
            append_str(out, "), time: ");
            append_time(out, *time);
            append_str(out, " }");
            proof {
                assert(out@ =~= start + node_debug(*n));
            }
        },
        TimedSliceNode::Literal { signal, time } => {
            append_str(out, "Literal { signal: ");
            append_signal_debug(out, signal);
            append_str(out, ", time: ");
            append_time(out, *time);
            append_str(out, " }");
            proof {
                assert(out@ =~= start + node_debug(*n));
            }
        },
    }
}

/// Appends the Debug text of the edge triple `(from, to, signal)`.
pub fn append_edge_debug(
    out: &mut Vec<char>,
    from: &TimedSliceNode,
    to: &TimedSliceNode,
    signal: &Option<SignalNode>,
)
    ensures
        final(out)@ == old(out)@ + edge_debug(*from, *to, *signal),
{
    let ghost start = out@;
    append_str(out, "(");
    append_node_debug(out, from);
    append_str(out, ", ");
    append_node_debug(out, to);
    append_str(out, ", ");
    match signal {
        Some(s) => {
            append_str(out, "Some(");
            append_signal_debug(out, s);
            append_str(out, ")");
        },
        None => append_str(out, "None"),
    }
    append_str(out, ")");
    proof {
        assert(out@ =~= start + edge_debug(*from, *to, *signal));
    }
}

} // verus!
