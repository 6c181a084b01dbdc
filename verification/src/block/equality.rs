use vstd::prelude::*;

use vstd::std_specs::cmp::PartialEqSpecImpl;

use crate::text::str_eq;
use crate::types::{SignalKey, SignalNode};

use super::{has_key, same_keys, Block, BlockView, DataflowEntry};

verus! {

/// The identities of the signals of `s`, in order.
pub open spec fn keys_of(s: Seq<SignalNode>) -> Seq<SignalKey> {
    s.map_values(|n: SignalNode| n@)
}

/// `a` and `b` hold the same signals, ignoring order and repetition.
pub open spec fn same_signal_set(a: Seq<SignalNode>, b: Seq<SignalNode>) -> bool {
    forall|k: SignalKey| #[trigger] has_key(a, k) <==> has_key(b, k)
}

/// Two entries are equal when they write the same signals in the same order
/// and read the same set of signals.
pub open spec fn entry_eq(a: DataflowEntry, b: DataflowEntry) -> bool {
    &&& keys_of(a.output@) == keys_of(b.output@)
    &&& same_signal_set(a.inputs@, b.inputs@)
}

/// Entry-wise equality of two dataflow lists.
pub open spec fn dataflow_eq(a: Seq<DataflowEntry>, b: Seq<DataflowEntry>) -> bool {
    &&& a.len() == b.len()
    &&& forall|i: int| 0 <= i < a.len() ==> #[trigger] entry_eq(a[i], b[i])
}

/// Two blocks are equal when every field is; signal lists compare as sets.
pub open spec fn block_eq(a: BlockView, b: BlockView) -> bool {
    &&& a.id == b.id
    &&& a.block_type == b.block_type
    &&& a.circuit_type == b.circuit_type
    &&& a.module_scope == b.module_scope
    &&& a.source_file == b.source_file
    &&& a.line_start == b.line_start
    &&& a.line_end == b.line_end
    &&& a.ast_line_start == b.ast_line_start
    &&& a.ast_line_end == b.ast_line_end
    &&& same_signal_set(a.input_signals, b.input_signals)
    &&& same_signal_set(a.output_signals, b.output_signals)
    &&& dataflow_eq(a.dataflow, b.dataflow)
    &&& a.code_snippet == b.code_snippet
}

/// Whether two signal lists name the same signals in the same order.
pub fn ordered_signals_eq(a: &Vec<SignalNode>, b: &Vec<SignalNode>) -> (r: bool)
    ensures
        r == (keys_of(a@) == keys_of(b@)),
{
    if a.len() != b.len() {
        proof {
            assert(keys_of(a@).len() != keys_of(b@).len());
        }
        return false;
    }
    let mut i: usize = 0;
    while i < a.len()
        invariant
            a@.len() == b@.len(),
            i <= a@.len(),
            forall|j: int| 0 <= j < i ==> a@[j]@ == b@[j]@,
        decreases a@.len() - i,
    {
        if a[i] != b[i] {
            proof {
                assert(keys_of(a@)[i as int] != keys_of(b@)[i as int]);
            }
            return false;
        }
        i = i + 1;
    }
    proof {
        assert(keys_of(a@) =~= keys_of(b@));
    }
    true
}

/// Whether two dataflow entries are equal.
pub fn entries_equal(a: &DataflowEntry, b: &DataflowEntry) -> (r: bool)
    ensures
        r == entry_eq(*a, *b),
{
    ordered_signals_eq(&a.output, &b.output) && same_keys(&a.inputs, &b.inputs)
}

/// Whether two dataflow lists are equal entry by entry.
pub fn dataflows_equal(a: &Vec<DataflowEntry>, b: &Vec<DataflowEntry>) -> (r: bool)
    ensures
        r == dataflow_eq(a@, b@),
{
    if a.len() != b.len() {
        return false;
    }
    let mut i: usize = 0;
    while i < a.len()
        invariant
            a@.len() == b@.len(),
            i <= a@.len(),
            forall|j: int| 0 <= j < i ==> #[trigger] entry_eq(a@[j], b@[j]),
        decreases a@.len() - i,
    {
        if !entries_equal(&a[i], &b[i]) {
            return false;
        }
        i = i + 1;
    }
    true
}

/// Whether two blocks are equal.
pub fn blocks_equal(a: &Block, b: &Block) -> (r: bool)
    ensures
        r == block_eq(a@, b@),
{
    a.id() == b.id() && a.block_type() == b.block_type() && a.circuit_type() == b.circuit_type()
        && str_eq(a.module_scope(), b.module_scope()) && str_eq(a.source_file(), b.source_file()) && a.line_start()
        == b.line_start() && a.line_end() == b.line_end() && a.ast_line_start() == b.ast_line_start()
        && a.ast_line_end() == b.ast_line_end() && same_keys(a.input_signals(), b.input_signals())
        && same_keys(a.output_signals(), b.output_signals()) && dataflows_equal(
        a.dataflow(),
        b.dataflow(),
    ) && str_eq(a.code_snippet(), b.code_snippet())
}

impl PartialEq for DataflowEntry {
    fn eq(&self, other: &Self) -> (r: bool) {
        entries_equal(self, other)
    }
}

impl PartialEqSpecImpl for DataflowEntry {
    open spec fn obeys_eq_spec() -> bool {
        true
    }

    open spec fn eq_spec(&self, other: &DataflowEntry) -> bool {
        entry_eq(*self, *other)
    }
}

impl Eq for DataflowEntry {

}

impl PartialEq for Block {
    fn eq(&self, other: &Self) -> (r: bool) {
        blocks_equal(self, other)
    }
}

impl PartialEqSpecImpl for Block {
    open spec fn obeys_eq_spec() -> bool {
        true
    }

    open spec fn eq_spec(&self, other: &Block) -> bool {
        block_eq(self@, other@)
    }
}

impl Eq for Block {

}

} // verus!
