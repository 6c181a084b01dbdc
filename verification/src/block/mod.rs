use vstd::prelude::*;

use crate::block::blockize::{blockize_models, blocks_of_files, built, plans_ok, SourceFileModel};
use crate::error::{BlockField, SvaError};
use crate::types::{BlockId, SignalKey, SignalNode};

pub mod blockize;
pub mod dataflow;
pub mod elaborate;
pub mod instances;
pub mod names;
pub mod source;
pub mod equality;
pub mod set;

pub use set::{drivers_of, BlockSet, DriverEntry};

verus! {

/// What kind of source construct a block stands for.
#[derive(Debug, Clone, Copy, PartialEq, Eq, Structural)]
pub enum BlockType {
    ModInput,
    ModOutput,
    Always,
    Assign,
}

/// Whether a block updates its outputs at once or on a clock edge.
#[derive(Debug, Clone, Copy, PartialEq, Eq, Structural)]
pub enum CircuitType {
    Combinational,
    Sequential,
}

/// One assignment of a block: the signals written and the signals read.
#[derive(Debug)]
pub struct DataflowEntry {
    pub output: Vec<SignalNode>,
    pub inputs: Vec<SignalNode>,
}

/// Whether some node of `s` is the signal `k`.
pub open spec fn has_key(s: Seq<SignalNode>, k: SignalKey) -> bool {
    exists|i: int| 0 <= i < s.len() && #[trigger] s[i]@ == k
}

/// No two nodes of `s` are the same signal.
pub open spec fn distinct_keys(s: Seq<SignalNode>) -> bool {
    forall|i: int, j: int| 0 <= i < j < s.len() ==> s[i]@ != s[j]@
}

/// The signals an entry reads (`inputs`) or writes (`!inputs`).
pub open spec fn entry_part(e: DataflowEntry, inputs: bool) -> Seq<SignalNode> {
    if inputs {
        e.inputs@
    } else {
        e.output@
    }
}

/// Whether some entry of `df` reads (`inputs`) or writes (`!inputs`) signal `k`.
pub open spec fn flow_has(df: Seq<DataflowEntry>, inputs: bool, k: SignalKey) -> bool {
    exists|e: int| 0 <= e < df.len() && #[trigger] has_key(entry_part(df[e], inputs), k)
}

/// A prefix one longer holds a signal when the shorter one does or the new element is it.
pub proof fn lemma_has_key_extend(s: Seq<SignalNode>, j: int, k: SignalKey)
    requires
        0 <= j < s.len(),
    ensures
        has_key(s.subrange(0, j + 1), k) <==> (has_key(s.subrange(0, j), k) || s[j]@ == k),
{
    let a = s.subrange(0, j);
    let b = s.subrange(0, j + 1);
    if has_key(b, k) {
        let w = choose|w: int| 0 <= w < b.len() && #[trigger] b[w]@ == k;
        if w < j {
            assert(a[w]@ == k);
        }
    }
    if has_key(a, k) {
        let w = choose|w: int| 0 <= w < a.len() && #[trigger] a[w]@ == k;
        assert(b[w]@ == k);
    }
    if s[j]@ == k {
        assert(b[j]@ == k);
    }
}

/// A dataflow prefix one longer reads a signal when the shorter one does or the new entry does.
pub proof fn lemma_flow_extend(df: Seq<DataflowEntry>, e: int, inputs: bool, k: SignalKey)
    requires
        0 <= e < df.len(),
    ensures
        flow_has(df.subrange(0, e + 1), inputs, k) <==> (flow_has(df.subrange(0, e), inputs, k)
            || has_key(entry_part(df[e], inputs), k)),
{
    let a = df.subrange(0, e);
    let b = df.subrange(0, e + 1);
    if flow_has(b, inputs, k) {
        let x = choose|x: int| 0 <= x < b.len() && #[trigger] has_key(entry_part(b[x], inputs), k);
        if x < e {
            assert(a[x] == b[x]);
            assert(has_key(entry_part(a[x], inputs), k));
        }
    }
    if flow_has(a, inputs, k) {
        let x = choose|x: int| 0 <= x < a.len() && #[trigger] has_key(entry_part(a[x], inputs), k);
        assert(a[x] == b[x]);
        assert(has_key(entry_part(b[x], inputs), k));
    }
    if has_key(entry_part(df[e], inputs), k) {
        assert(b[e] == df[e]);
        assert(has_key(entry_part(b[e], inputs), k));
    }
}

/// `s` lists, once each, exactly the signals that `df` reads (or writes).
pub open spec fn signal_set_of(s: Seq<SignalNode>, df: Seq<DataflowEntry>, inputs: bool) -> bool {
    &&& distinct_keys(s)
    &&& forall|k: SignalKey| #[trigger] has_key(s, k) <==> flow_has(df, inputs, k)
}

pub fn clone_signals(s: &Vec<SignalNode>) -> (r: Vec<SignalNode>)
    ensures
        r@ == s@,
{
    let mut out: Vec<SignalNode> = Vec::new();
    let mut i: usize = 0;
    while i < s.len()
        invariant
            i <= s@.len(),
            out@ == s@.subrange(0, i as int),
        decreases s@.len() - i,
    {
        out.push(s[i].clone());
        proof {
            assert(out@ =~= s@.subrange(0, i + 1));
        }
        i = i + 1;
    }
    proof {
        assert(out@ =~= s@);
    }
    out
}

impl Clone for DataflowEntry {
    fn clone(&self) -> (r: Self)
        ensures
            r.output@ == self.output@,
            r.inputs@ == self.inputs@,
    {
        DataflowEntry { output: clone_signals(&self.output), inputs: clone_signals(&self.inputs) }
    }
}

/// Index of a node of `s` that is the signal of `n`.
pub fn find_key(s: &Vec<SignalNode>, n: &SignalNode) -> (r: Option<usize>)
    ensures
        match r {
            Some(i) => i < s@.len() && s@[i as int]@ == n@,
            None => !has_key(s@, n@),
        },
{
    let mut i: usize = 0;
    while i < s.len()
        invariant
            i <= s@.len(),
            forall|j: int| 0 <= j < i ==> s@[j]@ != n@,
        decreases s@.len() - i,
    {
        if s[i] == *n {
            return Some(i);
        }
        i = i + 1;
    }
    None
}

/// The signals that `df` reads (or writes), once each, in order of first use.
pub fn collect_signals(df: &Vec<DataflowEntry>, inputs: bool) -> (r: Vec<SignalNode>)
    ensures
        signal_set_of(r@, df@, inputs),
{
    let mut out: Vec<SignalNode> = Vec::new();
    let mut e: usize = 0;
    while e < df.len()
        invariant
            e <= df@.len(),
            distinct_keys(out@),
            forall|k: SignalKey|
                #[trigger] has_key(out@, k) <==> flow_has(df@.subrange(0, e as int), inputs, k),
        decreases df@.len() - e,
    {
        let part = if inputs {
            &df[e].inputs
        } else {
            &df[e].output
        };
        let mut j: usize = 0;
        while j < part.len()
            invariant
                e < df@.len(),
                part@ == entry_part(df@[e as int], inputs),
                j <= part@.len(),
                distinct_keys(out@),
                forall|k: SignalKey|
                    #[trigger] has_key(out@, k) <==> (flow_has(df@.subrange(0, e as int), inputs, k)
                        || has_key(part@.subrange(0, j as int), k)),
            decreases part@.len() - j,
        {
            let ghost before = out@;
            if find_key(&out, &part[j]).is_none() {
                out.push(part[j].clone());
            }
            proof {
                assert forall|k: SignalKey|
                    #[trigger] has_key(out@, k) <==> (has_key(before, k) || part@[j as int]@ == k) by {
                    if has_key(out@, k) {
                        let z = choose|z: int| 0 <= z < out@.len() && #[trigger] out@[z]@ == k;
                        if z < before.len() {
                            assert(before[z]@ == k);
                        }
                    }
                    if has_key(before, k) {
                        let z = choose|z: int| 0 <= z < before.len() && #[trigger] before[z]@ == k;
                        assert(out@[z]@ == k);
                    }
                    if part@[j as int]@ == k && !has_key(before, k) {
                        assert(out@[out@.len() - 1]@ == k);
                    }
                }
                assert forall|k: SignalKey|
                    #[trigger] has_key(out@, k) <==> (flow_has(df@.subrange(0, e as int), inputs, k)
                        || has_key(part@.subrange(0, j + 1), k)) by {
                    lemma_has_key_extend(part@, j as int, k);
                }
            }
            j = j + 1;
        }
        proof {
            assert(part@.subrange(0, part@.len() as int) =~= part@);
            assert forall|k: SignalKey|
                #[trigger] has_key(out@, k) <==> flow_has(df@.subrange(0, e + 1), inputs, k) by {
                lemma_flow_extend(df@, e as int, inputs, k);
            }
        }
        e = e + 1;
    }
    proof {
        assert(df@.subrange(0, df@.len() as int) =~= df@);
    }
    out
}

/// `s` with later repeats of the same signal dropped.
pub fn dedup_signals(s: &Vec<SignalNode>) -> (r: Vec<SignalNode>)
    ensures
        distinct_keys(r@),
        forall|k: SignalKey| #[trigger] has_key(r@, k) <==> has_key(s@, k),
{
    let mut out: Vec<SignalNode> = Vec::new();
    let mut j: usize = 0;
    while j < s.len()
        invariant
            j <= s@.len(),
            distinct_keys(out@),
            forall|k: SignalKey| #[trigger] has_key(out@, k) <==> has_key(s@.subrange(0, j as int), k),
        decreases s@.len() - j,
    {
        let ghost before = out@;
        if find_key(&out, &s[j]).is_none() {
            out.push(s[j].clone());
        }
        proof {
            assert forall|k: SignalKey|
                #[trigger] has_key(out@, k) <==> has_key(s@.subrange(0, j + 1), k) by {
                lemma_has_key_extend(s@, j as int, k);
                if has_key(out@, k) {
                    let z = choose|z: int| 0 <= z < out@.len() && #[trigger] out@[z]@ == k;
                    if z < before.len() {
                        assert(before[z]@ == k);
                    }
                }
                if has_key(before, k) {
                    let z = choose|z: int| 0 <= z < before.len() && #[trigger] before[z]@ == k;
                    assert(out@[z]@ == k);
                }
                if s@[j as int]@ == k && !has_key(before, k) {
                    assert(out@[out@.len() - 1]@ == k);
                }
            }
        }
        j = j + 1;
    }
    proof {
        assert(s@.subrange(0, s@.len() as int) =~= s@);
    }
    out
}

/// A block of source code with the signals it reads and writes.
#[derive(Debug)]
pub struct Block {
    id: BlockId,
    block_type: BlockType,
    circuit_type: CircuitType,
    module_scope: String,
    source_file: String,
    line_start: usize,
    line_end: usize,
    ast_line_start: usize,
    ast_line_end: usize,
    input_signals: Vec<SignalNode>,
    output_signals: Vec<SignalNode>,
    dataflow: Vec<DataflowEntry>,
    code_snippet: String,
}

/// What a block holds.
pub struct BlockView {
    pub id: BlockId,
    pub block_type: BlockType,
    pub circuit_type: CircuitType,
    pub module_scope: Seq<char>,
    pub source_file: Seq<char>,
    pub line_start: usize,
    pub line_end: usize,
    pub ast_line_start: usize,
    pub ast_line_end: usize,
    pub input_signals: Seq<SignalNode>,
    pub output_signals: Seq<SignalNode>,
    pub dataflow: Seq<DataflowEntry>,
    pub code_snippet: Seq<char>,
}

/// What every block satisfies: ordered line ranges, and signal lists that
/// are exactly the signals of its dataflow.
pub open spec fn block_view_wf(v: BlockView) -> bool {
    &&& v.line_start <= v.line_end
    &&& v.ast_line_start <= v.ast_line_end
    &&& signal_set_of(v.input_signals, v.dataflow, true)
    &&& signal_set_of(v.output_signals, v.dataflow, false)
}

impl View for Block {
    type V = BlockView;

    closed spec fn view(&self) -> BlockView {
        BlockView {
            id: self.id,
            block_type: self.block_type,
            circuit_type: self.circuit_type,
            module_scope: self.module_scope@,
            source_file: self.source_file@,
            line_start: self.line_start,
            line_end: self.line_end,
            ast_line_start: self.ast_line_start,
            ast_line_end: self.ast_line_end,
            input_signals: self.input_signals@,
            output_signals: self.output_signals@,
            dataflow: self.dataflow@,
            code_snippet: self.code_snippet@,
        }
    }
}

impl Block {
    #[verifier::type_invariant]
    spec fn inv(self) -> bool {
        block_view_wf(self@)
    }

    /// Every block satisfies `block_view_wf`.
    pub fn lemma_wf(&self)
        ensures
            block_view_wf(self@),
    {
        proof {
            use_type_invariant(self);
        }
    }

    /// Builds a block whose signal lists are derived from its dataflow; the
    /// syntax-tree line range is the source line range.
    pub fn new(
        id: BlockId,
        block_type: BlockType,
        circuit_type: CircuitType,
        module_scope: &str,
        source_file: &str,
        line_start: usize,
        line_end: usize,
        dataflow: Vec<DataflowEntry>,
        code_snippet: &str,
    ) -> (r: Result<Block, SvaError>)
        ensures
            line_start > line_end <==> r is Err,
            r is Err ==> r->Err_0 is InvalidLineRange,
            r matches Ok(b) ==> {
                &&& b@.id == id
                &&& b@.block_type == block_type
                &&& b@.circuit_type == circuit_type
                &&& b@.module_scope == module_scope@
                &&& b@.source_file == source_file@
                &&& b@.line_start == line_start
                &&& b@.line_end == line_end
                &&& b@.ast_line_start == line_start
                &&& b@.ast_line_end == line_end
                &&& b@.dataflow == dataflow@
                &&& b@.code_snippet == code_snippet@
            },
    {
        if line_start > line_end {
            return Err(SvaError::InvalidLineRange);
        }
        let input_signals = collect_signals(&dataflow, true);
        let output_signals = collect_signals(&dataflow, false);
        Ok(Block {
            id,
            block_type,
            circuit_type,
            module_scope: module_scope.to_owned(),
            source_file: source_file.to_owned(),
            line_start,
            line_end,
            ast_line_start: line_start,
            ast_line_end: line_end,
            input_signals,
            output_signals,
            dataflow,
            code_snippet: code_snippet.to_owned(),
        })
    }

    /// Builds a block from explicit signal lists, which must name exactly the
    /// signals of the dataflow.
    pub fn with_signals(
        id: BlockId,
        block_type: BlockType,
        circuit_type: CircuitType,
        module_scope: &str,
        source_file: &str,
        line_start: usize,
        line_end: usize,
        input_signals: Vec<SignalNode>,
        output_signals: Vec<SignalNode>,
        dataflow: Vec<DataflowEntry>,
        code_snippet: &str,
    ) -> (r: Result<Block, SvaError>)
        ensures
            line_start > line_end ==> r matches Err(SvaError::InvalidLineRange),
            line_start <= line_end && !same_key_set(input_signals@, dataflow@, true) ==> r matches Err(SvaError::InputSignalsMismatch),
            line_start <= line_end && same_key_set(input_signals@, dataflow@, true) && !same_key_set(output_signals@, dataflow@, false) ==> r matches Err(SvaError::OutputSignalsMismatch),
            line_start <= line_end && same_key_set(input_signals@, dataflow@, true) && same_key_set(output_signals@, dataflow@, false) ==> r is Ok,
            r matches Ok(b) ==> {
                &&& b@.id == id
                &&& b@.block_type == block_type
                &&& b@.circuit_type == circuit_type
                &&& b@.module_scope == module_scope@
                &&& b@.source_file == source_file@
                &&& b@.line_start == line_start
                &&& b@.line_end == line_end
                &&& b@.ast_line_start == line_start
                &&& b@.ast_line_end == line_end
                &&& b@.dataflow == dataflow@
                &&& b@.code_snippet == code_snippet@
                &&& forall|k: SignalKey| #[trigger] has_key(b@.input_signals, k) <==> has_key(input_signals@, k)
                &&& forall|k: SignalKey| #[trigger] has_key(b@.output_signals, k) <==> has_key(output_signals@, k)
            },
    {
        if line_start > line_end {
            return Err(SvaError::InvalidLineRange);
        }
        let derived_inputs = collect_signals(&dataflow, true);
        let derived_outputs = collect_signals(&dataflow, false);
        if !same_keys(&input_signals, &derived_inputs) {
            return Err(SvaError::InputSignalsMismatch);
        }
        if !same_keys(&output_signals, &derived_outputs) {
            return Err(SvaError::OutputSignalsMismatch);
        }
        let inputs = dedup_signals(&input_signals);
        let outputs = dedup_signals(&output_signals);
        Ok(Block {
            id,
            block_type,
            circuit_type,
            module_scope: module_scope.to_owned(),
            source_file: source_file.to_owned(),
            line_start,
            line_end,
            ast_line_start: line_start,
            ast_line_end: line_end,
            input_signals: inputs,
            output_signals: outputs,
            dataflow,
            code_snippet: code_snippet.to_owned(),
        })
    }

    /// A builder with no field set.
    pub fn builder() -> (r: BlockBuilder)
        ensures
            r == BlockBuilder::empty(),
    {
        BlockBuilder {
            id: None,
            block_type: None,
            circuit_type: None,
            module_scope: None,
            source_file: None,
            line_start: None,
            line_end: None,
            ast_line_start: None,
            ast_line_end: None,
            dataflow: None,
            code_snippet: None,
        }
    }

    pub fn id(&self) -> (r: BlockId)
        ensures
            r == self@.id,
    {
        self.id
    }

    pub fn block_type(&self) -> (r: BlockType)
        ensures
            r == self@.block_type,
    {
        self.block_type
    }

    pub fn circuit_type(&self) -> (r: CircuitType)
        ensures
            r == self@.circuit_type,
    {
        self.circuit_type
    }

    pub fn module_scope(&self) -> (r: &str)
        ensures
            r@ == self@.module_scope,
    {
        self.module_scope.as_str()
    }

    pub fn source_file(&self) -> (r: &str)
        ensures
            r@ == self@.source_file,
    {
        self.source_file.as_str()
    }

    pub fn line_start(&self) -> (r: usize)
        ensures
            r == self@.line_start,
    {
        self.line_start
    }

    pub fn line_end(&self) -> (r: usize)
        ensures
            r == self@.line_end,
    {
        self.line_end
    }

    pub fn ast_line_start(&self) -> (r: usize)
        ensures
            r == self@.ast_line_start,
    {
        self.ast_line_start
    }

    pub fn ast_line_end(&self) -> (r: usize)
        ensures
            r == self@.ast_line_end,
    {
        self.ast_line_end
    }

    /// The signals the block reads, once each.
    pub fn input_signals(&self) -> (r: &Vec<SignalNode>)
        ensures
            r@ == self@.input_signals,
            signal_set_of(r@, self@.dataflow, true),
    {
        proof {
            use_type_invariant(self);
        }
        &self.input_signals
    }

    /// The signals the block writes, once each.
    pub fn output_signals(&self) -> (r: &Vec<SignalNode>)
        ensures
            r@ == self@.output_signals,
            signal_set_of(r@, self@.dataflow, false),
    {
        proof {
            use_type_invariant(self);
        }
        &self.output_signals
    }

    pub fn dataflow(&self) -> (r: &Vec<DataflowEntry>)
        ensures
            r@ == self@.dataflow,
    {
        &self.dataflow
    }

    pub fn code_snippet(&self) -> (r: &str)
        ensures
            r@ == self@.code_snippet,
    {
        self.code_snippet.as_str()
    }
}

pub fn clone_dataflow(df: &Vec<DataflowEntry>) -> (r: Vec<DataflowEntry>)
    ensures
        r@.len() == df@.len(),
        forall|i: int|
            #![trigger r@[i]]
            0 <= i < df@.len() ==> r@[i].output@ == df@[i].output@ && r@[i].inputs@
                == df@[i].inputs@,
{
    let mut out: Vec<DataflowEntry> = Vec::new();
    let mut i: usize = 0;
    while i < df.len()
        invariant
            i <= df@.len(),
            out@.len() == i,
            forall|j: int|
                #![trigger out@[j]]
                0 <= j < i ==> out@[j].output@ == df@[j].output@ && out@[j].inputs@
                    == df@[j].inputs@,
        decreases df@.len() - i,
    {
        out.push(df[i].clone());
        i = i + 1;
    }
    out
}

impl Clone for Block {
    fn clone(&self) -> (r: Self)
        ensures
            r@.id == self@.id,
            r@.block_type == self@.block_type,
            r@.circuit_type == self@.circuit_type,
            r@.module_scope == self@.module_scope,
            r@.source_file == self@.source_file,
            r@.line_start == self@.line_start,
            r@.line_end == self@.line_end,
            r@.ast_line_start == self@.ast_line_start,
            r@.ast_line_end == self@.ast_line_end,
            r@.input_signals == self@.input_signals,
            r@.output_signals == self@.output_signals,
            r@.code_snippet == self@.code_snippet,
            r@.dataflow.len() == self@.dataflow.len(),
            forall|i: int|
                0 <= i < self@.dataflow.len() ==> #[trigger] r@.dataflow[i].output@
                    == self@.dataflow[i].output@ && r@.dataflow[i].inputs@
                    == self@.dataflow[i].inputs@,
    {
        proof {
            use_type_invariant(self);
        }
        let dataflow = clone_dataflow(&self.dataflow);
        proof {
            assert forall|inputs: bool, k: SignalKey|
                flow_has(dataflow@, inputs, k) <==> flow_has(self.dataflow@, inputs, k) by {
                if flow_has(dataflow@, inputs, k) {
                    let x = choose|x: int|
                        0 <= x < dataflow@.len() && #[trigger] has_key(
                            entry_part(dataflow@[x], inputs),
                            k,
                        );
                    assert(dataflow@[x].output@ == self.dataflow@[x].output@ && dataflow@[x].inputs@
                        == self.dataflow@[x].inputs@);
                    assert(entry_part(dataflow@[x], inputs) == entry_part(self.dataflow@[x], inputs));
                }
                if flow_has(self.dataflow@, inputs, k) {
                    let x = choose|x: int|
                        0 <= x < self.dataflow@.len() && #[trigger] has_key(
                            entry_part(self.dataflow@[x], inputs),
                            k,
                        );
                    assert(dataflow@[x].output@ == self.dataflow@[x].output@ && dataflow@[x].inputs@
                        == self.dataflow@[x].inputs@);
                    assert(entry_part(dataflow@[x], inputs) == entry_part(self.dataflow@[x], inputs));
                }
            }
        }
        Block {
            id: self.id,
            block_type: self.block_type,
            circuit_type: self.circuit_type,
            module_scope: self.module_scope.clone(),
            source_file: self.source_file.clone(),
            line_start: self.line_start,
            line_end: self.line_end,
            ast_line_start: self.ast_line_start,
            ast_line_end: self.ast_line_end,
            input_signals: clone_signals(&self.input_signals),
            output_signals: clone_signals(&self.output_signals),
            dataflow,
            code_snippet: self.code_snippet.clone(),
        }
    }
}

/// `s` names exactly the signals that `df` reads (or writes).
pub open spec fn same_key_set(s: Seq<SignalNode>, df: Seq<DataflowEntry>, inputs: bool) -> bool {
    forall|k: SignalKey| #[trigger] has_key(s, k) <==> flow_has(df, inputs, k)
}

/// Whether `a` and `b` name the same signals.
pub fn same_keys(a: &Vec<SignalNode>, b: &Vec<SignalNode>) -> (r: bool)
    ensures
        r == (forall|k: SignalKey| #[trigger] has_key(a@, k) <==> has_key(b@, k)),
{
    let mut i: usize = 0;
    while i < a.len()
        invariant
            i <= a@.len(),
            forall|j: int| 0 <= j < i ==> has_key(b@, #[trigger] a@[j]@),
        decreases a@.len() - i,
    {
        if find_key(b, &a[i]).is_none() {
            proof {
                assert(has_key(a@, a@[i as int]@));
            }
            return false;
        }
        i = i + 1;
    }
    let mut j: usize = 0;
    while j < b.len()
        invariant
            j <= b@.len(),
            forall|x: int| 0 <= x < a@.len() ==> has_key(b@, #[trigger] a@[x]@),
            forall|x: int| 0 <= x < j ==> has_key(a@, #[trigger] b@[x]@),
        decreases b@.len() - j,
    {
        if find_key(a, &b[j]).is_none() {
            proof {
                assert(has_key(b@, b@[j as int]@));
            }
            return false;
        }
        j = j + 1;
    }
    proof {
        assert forall|k: SignalKey| #[trigger] has_key(a@, k) <==> has_key(b@, k) by {
            if has_key(a@, k) {
                let x = choose|x: int| 0 <= x < a@.len() && a@[x]@ == k;
                assert(has_key(b@, a@[x]@));
            }
            if has_key(b@, k) {
                let x = choose|x: int| 0 <= x < b@.len() && b@[x]@ == k;
                assert(has_key(a@, b@[x]@));
            }
        }
    }
    true
}

/// Collects the fields of a block one at a time.
#[derive(Debug)]
pub struct BlockBuilder {
    pub id: Option<BlockId>,
    pub block_type: Option<BlockType>,
    pub circuit_type: Option<CircuitType>,
    pub module_scope: Option<String>,
    pub source_file: Option<String>,
    pub line_start: Option<usize>,
    pub line_end: Option<usize>,
    pub ast_line_start: Option<usize>,
    pub ast_line_end: Option<usize>,
    pub dataflow: Option<Vec<DataflowEntry>>,
    pub code_snippet: Option<String>,
}

impl Clone for BlockBuilder {
    /// A builder with the same fields set to the same values.
    fn clone(&self) -> (r: Self)
        ensures
            r.id == self.id,
            r.block_type == self.block_type,
            r.circuit_type == self.circuit_type,
            r.module_scope.is_some() == self.module_scope.is_some(),
            r.module_scope matches Some(x) ==> x@ == self.module_scope.unwrap()@,
            r.source_file.is_some() == self.source_file.is_some(),
            r.source_file matches Some(x) ==> x@ == self.source_file.unwrap()@,
            r.line_start == self.line_start,
            r.line_end == self.line_end,
            r.ast_line_start == self.ast_line_start,
            r.ast_line_end == self.ast_line_end,
            r.dataflow.is_some() == self.dataflow.is_some(),
            r.dataflow matches Some(x) ==> x@.len() == self.dataflow.unwrap()@.len() && forall|i: int|
                0 <= i < x@.len() ==> (#[trigger] x@[i]).output@ == self.dataflow.unwrap()@[i].output@ && x@[i].inputs@
                    == self.dataflow.unwrap()@[i].inputs@,
            r.code_snippet.is_some() == self.code_snippet.is_some(),
            r.code_snippet matches Some(x) ==> x@ == self.code_snippet.unwrap()@,
    {
        BlockBuilder {
            id: self.id,
            block_type: self.block_type,
            circuit_type: self.circuit_type,
            module_scope: match &self.module_scope {
                Some(x) => Some(x.clone()),
                None => None,
            },
            source_file: match &self.source_file {
                Some(x) => Some(x.clone()),
                None => None,
            },
            line_start: self.line_start,
            line_end: self.line_end,
            ast_line_start: self.ast_line_start,
            ast_line_end: self.ast_line_end,
            dataflow: match &self.dataflow {
                Some(x) => Some(clone_dataflow(x)),
                None => None,
            },
            code_snippet: match &self.code_snippet {
                Some(x) => Some(x.clone()),
                None => None,
            },
        }
    }
}

/// The first field, in declaration order, that a builder lacks.
pub open spec fn first_missing(b: BlockBuilder) -> Option<BlockField> {
    if b.id is None {
        Some(BlockField::Id)
    } else if b.block_type is None {
        Some(BlockField::BlockType)
    } else if b.circuit_type is None {
        Some(BlockField::CircuitType)
    } else if b.module_scope is None {
        Some(BlockField::ModuleScope)
    } else if b.source_file is None {
        Some(BlockField::SourceFile)
    } else if b.line_start is None {
        Some(BlockField::LineStart)
    } else if b.line_end is None {
        Some(BlockField::LineEnd)
    } else if b.ast_line_start is None {
        Some(BlockField::AstLineStart)
    } else if b.ast_line_end is None {
        Some(BlockField::AstLineEnd)
    } else if b.dataflow is None {
        Some(BlockField::Dataflow)
    } else if b.code_snippet is None {
        Some(BlockField::CodeSnippet)
    } else {
        None
    }
}

impl BlockBuilder {
    pub open spec fn empty() -> BlockBuilder {
        BlockBuilder {
            id: None,
            block_type: None,
            circuit_type: None,
            module_scope: None,
            source_file: None,
            line_start: None,
            line_end: None,
            ast_line_start: None,
            ast_line_end: None,
            dataflow: None,
            code_snippet: None,
        }
    }

    pub fn id(self, value: BlockId) -> (r: Self)
        ensures
            r == (BlockBuilder { id: Some(value), ..self }),
    {
        BlockBuilder { id: Some(value), ..self }
    }

    pub fn block_type(self, value: BlockType) -> (r: Self)
        ensures
            r == (BlockBuilder { block_type: Some(value), ..self }),
    {
        BlockBuilder { block_type: Some(value), ..self }
    }

    pub fn circuit_type(self, value: CircuitType) -> (r: Self)
        ensures
            r == (BlockBuilder { circuit_type: Some(value), ..self }),
    {
        BlockBuilder { circuit_type: Some(value), ..self }
    }

    pub fn module_scope(self, value: &str) -> (r: Self)
        ensures
            r.module_scope matches Some(s) && s@ == value@,
            r == (BlockBuilder { module_scope: r.module_scope, ..self }),
    {
        BlockBuilder { module_scope: Some(value.to_owned()), ..self }
    }

    pub fn source_file(self, value: &str) -> (r: Self)
        ensures
            r.source_file matches Some(s) && s@ == value@,
            r == (BlockBuilder { source_file: r.source_file, ..self }),
    {
        BlockBuilder { source_file: Some(value.to_owned()), ..self }
    }

    pub fn line_start(self, value: usize) -> (r: Self)
        ensures
            r == (BlockBuilder { line_start: Some(value), ..self }),
    {
        BlockBuilder { line_start: Some(value), ..self }
    }

    pub fn line_end(self, value: usize) -> (r: Self)
        ensures
            r == (BlockBuilder { line_end: Some(value), ..self }),
    {
        BlockBuilder { line_end: Some(value), ..self }
    }

    pub fn ast_line_start(self, value: usize) -> (r: Self)
        ensures
            r == (BlockBuilder { ast_line_start: Some(value), ..self }),
    {
        BlockBuilder { ast_line_start: Some(value), ..self }
    }

    pub fn ast_line_end(self, value: usize) -> (r: Self)
        ensures
            r == (BlockBuilder { ast_line_end: Some(value), ..self }),
    {
        BlockBuilder { ast_line_end: Some(value), ..self }
    }

    pub fn dataflow(self, value: Vec<DataflowEntry>) -> (r: Self)
        ensures
            r == (BlockBuilder { dataflow: Some(value), ..self }),
    {
        BlockBuilder { dataflow: Some(value), ..self }
    }

    pub fn code_snippet(self, value: &str) -> (r: Self)
        ensures
            r.code_snippet matches Some(s) && s@ == value@,
            r == (BlockBuilder { code_snippet: r.code_snippet, ..self }),
    {
        BlockBuilder { code_snippet: Some(value.to_owned()), ..self }
    }

    /// Sets both the source and the syntax-tree line range.
    pub fn lines(self, start: usize, end: usize) -> (r: Self)
        ensures
            r == (BlockBuilder {
                line_start: Some(start),
                line_end: Some(end),
                ast_line_start: Some(start),
                ast_line_end: Some(end),
                ..self
            }),
    {
        BlockBuilder {
            line_start: Some(start),
            line_end: Some(end),
            ast_line_start: Some(start),
            ast_line_end: Some(end),
            ..self
        }
    }

    /// Whether the line ranges that are set are ordered.
    fn validate(&self) -> (r: Result<(), SvaError>)
        ensures
            r matches Err(e) ==> (e is InvalidLineRange || e is InvalidAstLineRange),
            r matches Err(SvaError::InvalidLineRange) <==> line_range_bad(*self),
            r matches Err(SvaError::InvalidAstLineRange) <==> !line_range_bad(*self)
                && ast_range_bad(*self),
            r is Ok <==> !line_range_bad(*self) && !ast_range_bad(*self),
    {
        if let (Some(start), Some(end)) = (self.line_start, self.line_end) {
            if start > end {
                return Err(SvaError::InvalidLineRange);
            }
        }
        if let (Some(start), Some(end)) = (self.ast_line_start, self.ast_line_end) {
            if start > end {
                return Err(SvaError::InvalidAstLineRange);
            }
        }
        Ok(())
    }

    /// Checks the line ranges, then that every field is set, and builds the
    /// block with signal lists derived from its dataflow.
    pub fn build(self) -> (r: Result<Block, SvaError>)
        ensures
            line_range_bad(self) ==> r matches Err(SvaError::InvalidLineRange),
            !line_range_bad(self) && ast_range_bad(self) ==> r matches Err(
                SvaError::InvalidAstLineRange,
            ),
            !line_range_bad(self) && !ast_range_bad(self) && first_missing(self) is Some ==> (r
                matches Err(SvaError::UninitializedField(f)) && Some(f) == first_missing(self)),
            !line_range_bad(self) && !ast_range_bad(self) && first_missing(self) is None ==> r is Ok,
            r matches Ok(b) ==> {
                &&& Some(b@.id) == self.id
                &&& Some(b@.block_type) == self.block_type
                &&& Some(b@.circuit_type) == self.circuit_type
                &&& self.module_scope matches Some(s) && b@.module_scope == s@
                &&& self.source_file matches Some(s) && b@.source_file == s@
                &&& Some(b@.line_start) == self.line_start
                &&& Some(b@.line_end) == self.line_end
                &&& Some(b@.ast_line_start) == self.ast_line_start
                &&& Some(b@.ast_line_end) == self.ast_line_end
                &&& self.dataflow matches Some(d) && b@.dataflow == d@
                &&& self.code_snippet matches Some(s) && b@.code_snippet == s@
            },
    {
        self.validate()?;
        let id = match self.id {
            Some(v) => v,
            None => return Err(SvaError::UninitializedField(BlockField::Id)),
        };
        let block_type = match self.block_type {
            Some(v) => v,
            None => return Err(SvaError::UninitializedField(BlockField::BlockType)),
        };
        let circuit_type = match self.circuit_type {
            Some(v) => v,
            None => return Err(SvaError::UninitializedField(BlockField::CircuitType)),
        };
        let module_scope = match self.module_scope {
            Some(v) => v,
            None => return Err(SvaError::UninitializedField(BlockField::ModuleScope)),
        };
        let source_file = match self.source_file {
            Some(v) => v,
            None => return Err(SvaError::UninitializedField(BlockField::SourceFile)),
        };
        let line_start = match self.line_start {
            Some(v) => v,
            None => return Err(SvaError::UninitializedField(BlockField::LineStart)),
        };
        let line_end = match self.line_end {
            Some(v) => v,
            None => return Err(SvaError::UninitializedField(BlockField::LineEnd)),
        };
        let ast_line_start = match self.ast_line_start {
            Some(v) => v,
            None => return Err(SvaError::UninitializedField(BlockField::AstLineStart)),
        };
        let ast_line_end = match self.ast_line_end {
            Some(v) => v,
            None => return Err(SvaError::UninitializedField(BlockField::AstLineEnd)),
        };
        let dataflow = match self.dataflow {
            Some(v) => v,
            None => return Err(SvaError::UninitializedField(BlockField::Dataflow)),
        };
        let code_snippet = match self.code_snippet {
            Some(v) => v,
            None => return Err(SvaError::UninitializedField(BlockField::CodeSnippet)),
        };
        let input_signals = collect_signals(&dataflow, true);
        let output_signals = collect_signals(&dataflow, false);
        Ok(Block {
            id,
            block_type,
            circuit_type,
            module_scope,
            source_file,
            line_start,
            line_end,
            ast_line_start,
            ast_line_end,
            input_signals,
            output_signals,
            dataflow,
            code_snippet,
        })
    }
}

pub open spec fn line_range_bad(b: BlockBuilder) -> bool {
    b.line_start matches Some(s) && b.line_end matches Some(e) && s > e
}

pub open spec fn ast_range_bad(b: BlockBuilder) -> bool {
    b.ast_line_start matches Some(s) && b.ast_line_end matches Some(e) && s > e
}

/// Cuts the modules of parsed sources into blocks.
pub trait Blockizer {
    fn blockize(&self, files: &Vec<SourceFileModel>) -> Result<BlockSet, SvaError>;
}

/// Cuts each port, continuous assignment and always block into a block of
/// its own, with the dataflow of its assignments (see `blockize_models`).
pub struct DataflowBlockizer;

impl Blockizer for DataflowBlockizer {
    fn blockize(&self, files: &Vec<SourceFileModel>) -> (r: Result<BlockSet, SvaError>)
        ensures
            r is Ok <==> plans_ok(blocks_of_files(files@)),
            r matches Err(e) ==> e is InvalidLineRange,
            r matches Ok(s) ==> built(s@, blocks_of_files(files@)),
    {
        blockize_models(files)
    }
}

} // verus!
