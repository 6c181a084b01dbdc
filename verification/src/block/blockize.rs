use vstd::prelude::*;

use crate::block::dataflow::{
    always_dataflow, continuous_assign_dataflow, entry_flows, sequence_flow, statement_flow, FlowView, StatementModel,
};
use crate::block::set::BlockSet;
use crate::block::source::{snippet_from_source, snippet_text};
use crate::block::{Block, BlockType, BlockView, CircuitType, DataflowEntry};
use crate::coverage::statements::EdgeKind;
use crate::error::SvaError;
use crate::types::{BlockId, SignalKey, SignalNode};

verus! {

/// A construct of a module that becomes one block.
pub enum ItemModel {
    /// A port declared `input` (or `output`) on source line `line`.
    Port { input: bool, signal: SignalNode, line: usize },
    /// A continuous assignment spanning source lines `line_start..=line_end`,
    /// with its assignments in order.
    ContinuousAssign { assignments: Vec<StatementModel>, line_start: usize, line_end: usize },
    /// An always block spanning source lines `line_start..=line_end`;
    /// sequential for `always_ff`; `triggers` are the signals and edges of
    /// its event control.
    Always { sequential: bool, body: StatementModel, line_start: usize, line_end: usize, triggers: Vec<(String, EdgeKind)> },
}

/// A module: its name and its ports and processes, in source order.
pub struct ModuleModel {
    pub name: String,
    pub items: Vec<ItemModel>,
}

/// A parsed source file: the path it is known by, its text, and its modules
/// in source order.
pub struct SourceFileModel {
    pub path: String,
    pub source_text: String,
    pub modules: Vec<ModuleModel>,
}

/// What a block built from an item holds, but for its id and the order of
/// its signal lists.
pub struct BlockPlan {
    pub block_type: BlockType,
    pub circuit_type: CircuitType,
    pub module_scope: Seq<char>,
    pub source_file: Seq<char>,
    pub line_start: usize,
    pub line_end: usize,
    pub flows: Seq<FlowView>,
    pub code_snippet: Seq<char>,
}

/// The block planned for `item` of module `module` in file `path` with text
/// `text`: a port reads nothing and writes its signal (an input) or reads
/// its signal and writes nothing (an output), on its one line; a continuous
/// assignment or an always block has the dataflow of its assignments. Its
/// snippet is the trimmed text of its lines.
pub open spec fn item_plan(path: Seq<char>, text: Seq<char>, module: Seq<char>, item: ItemModel) -> BlockPlan {
    match item {
        ItemModel::Port { input, signal, line } => BlockPlan {
            block_type: if input { BlockType::ModInput } else { BlockType::ModOutput },
            circuit_type: CircuitType::Combinational,
            module_scope: module,
            source_file: path,
            line_start: line,
            line_end: line,
            flows: if input {
                seq![(seq![signal@], Set::<SignalKey>::empty())]
            } else {
                seq![(Seq::<SignalKey>::empty(), set![signal@])]
            },
            code_snippet: snippet_text(text, line as int, line as int),
        },
        ItemModel::ContinuousAssign { assignments, line_start, line_end } => BlockPlan {
            block_type: BlockType::Assign,
            circuit_type: CircuitType::Combinational,
            module_scope: module,
            source_file: path,
            line_start,
            line_end,
            flows: sequence_flow(assignments@, Set::<SignalKey>::empty()),
            code_snippet: snippet_text(text, line_start as int, line_end as int),
        },
        ItemModel::Always { sequential, body, line_start, line_end, .. } => BlockPlan {
            block_type: BlockType::Always,
            circuit_type: if sequential { CircuitType::Sequential } else { CircuitType::Combinational },
            module_scope: module,
            source_file: path,
            line_start,
            line_end,
            flows: statement_flow(body, Set::<SignalKey>::empty()),
            code_snippet: snippet_text(text, line_start as int, line_end as int),
        },
    }
}

/// The blocks planned for the items of module `m`, in order.
pub open spec fn module_plans(path: Seq<char>, text: Seq<char>, m: ModuleModel) -> Seq<BlockPlan> {
    m.items@.map_values(|item: ItemModel| item_plan(path, text, m.name@, item))
}

/// The blocks planned for modules `ms`, module after module.
pub open spec fn modules_plans(path: Seq<char>, text: Seq<char>, ms: Seq<ModuleModel>) -> Seq<BlockPlan>
    decreases ms.len(),
{
    if ms.len() == 0 {
        Seq::<BlockPlan>::empty()
    } else {
        modules_plans(path, text, ms.drop_last()) + module_plans(path, text, ms.last())
    }
}

/// The blocks planned for files `fs`, file after file.
pub open spec fn blocks_of_files(fs: Seq<SourceFileModel>) -> Seq<BlockPlan>
    decreases fs.len(),
{
    if fs.len() == 0 {
        Seq::<BlockPlan>::empty()
    } else {
        blocks_of_files(fs.drop_last()) + modules_plans(fs.last().path@, fs.last().source_text@, fs.last().modules@)
    }
}

/// Block `b` is what plan `p` says.
pub open spec fn block_fits(b: BlockView, p: BlockPlan) -> bool {
    &&& b.block_type == p.block_type
    &&& b.circuit_type == p.circuit_type
    &&& b.module_scope == p.module_scope
    &&& b.source_file == p.source_file
    &&& b.line_start == p.line_start
    &&& b.line_end == p.line_end
    &&& b.ast_line_start == p.line_start
    &&& b.ast_line_end == p.line_end
    &&& entry_flows(b.dataflow) == p.flows
    &&& b.code_snippet == p.code_snippet
}

/// Every planned block has an ordered line range.
pub open spec fn plans_ok(ps: Seq<BlockPlan>) -> bool {
    forall|i: int| 0 <= i < ps.len() ==> (#[trigger] ps[i]).line_start <= ps[i].line_end
}

/// The blocks built so far are the plans `ps`, numbered from zero.
pub open spec fn built(bs: Seq<Block>, ps: Seq<BlockPlan>) -> bool {
    &&& bs.len() == ps.len()
    &&& forall|i: int| 0 <= i < bs.len() ==> (#[trigger] bs[i])@.id == BlockId(i as u64) && block_fits(bs[i]@, ps[i])
}

/// The block of `item`, numbered `id`.
fn item_block(path: &str, text: &str, module: &str, item: &ItemModel, id: u64) -> (r: Result<Block, SvaError>)
    ensures
        r is Ok <==> item_plan(path@, text@, module@, *item).line_start <= item_plan(path@, text@, module@, *item).line_end,
        r matches Err(e) ==> e is InvalidLineRange,
        r matches Ok(b) ==> b@.id == BlockId(id) && block_fits(b@, item_plan(path@, text@, module@, *item)),
{
    match item {
        ItemModel::Port { input, signal, line } => {
            let mut written: Vec<SignalNode> = Vec::new();
            let mut read: Vec<SignalNode> = Vec::new();
            if *input {
                written.push(signal.clone());
            } else {
                read.push(signal.clone());
            }
            let entry = DataflowEntry { output: written, inputs: read };
            let snippet = snippet_from_source(text, *line, *line);
            let block_type = if *input { BlockType::ModInput } else { BlockType::ModOutput };
            let mut dataflow: Vec<DataflowEntry> = Vec::new();
            dataflow.push(entry);
            let r = Block::new(BlockId(id), block_type, CircuitType::Combinational, module, path, *line, *line, dataflow, snippet.as_str());
            proof {
                if r is Ok {
                    let b = r->Ok_0;
                    let p = item_plan(path@, text@, module@, *item);
                    let e = b@.dataflow[0];
                    assert(crate::block::equality::keys_of(e.output@) =~= p.flows[0].0);
                    if *input {
                        assert(crate::block::equality::keys_of(e.inputs@) =~= Seq::<SignalKey>::empty());
                    } else {
                        assert(crate::block::equality::keys_of(e.inputs@) =~= seq![signal@]);
                        assert forall|y: SignalKey| seq![signal@].to_set().contains(y) <==> set![signal@].contains(y) by {
                            assert(seq![signal@][0] == signal@);
                        }
                        assert(seq![signal@].to_set() =~= set![signal@]);
                    }
                    assert(crate::block::equality::keys_of(e.inputs@).to_set() =~= p.flows[0].1);
                    assert(entry_flows(b@.dataflow) =~= p.flows);
                }
            }
            r
        },
        ItemModel::ContinuousAssign { assignments, line_start, line_end } => {
            let dataflow = continuous_assign_dataflow(assignments);
            let snippet = snippet_from_source(text, *line_start, *line_end);
            Block::new(
                BlockId(id),
                BlockType::Assign,
                CircuitType::Combinational,
                module,
                path,
                *line_start,
                *line_end,
                dataflow,
                snippet.as_str(),
            )
        },
        ItemModel::Always { sequential, body, line_start, line_end, .. } => {
            let dataflow = always_dataflow(body);
            let snippet = snippet_from_source(text, *line_start, *line_end);
            let circuit_type = if *sequential { CircuitType::Sequential } else { CircuitType::Combinational };
            Block::new(BlockId(id), BlockType::Always, circuit_type, module, path, *line_start, *line_end, dataflow, snippet.as_str())
        },
    }
}

/// The blocks of the modules of source files, numbered from zero in file,
/// module and item order (see `blocks_of_files`). Fails when an item's line
/// range is reversed.
pub fn blockize_models(files: &Vec<SourceFileModel>) -> (r: Result<BlockSet, SvaError>)
    ensures
        r is Ok <==> plans_ok(blocks_of_files(files@)),
        r matches Err(e) ==> e is InvalidLineRange,
        r matches Ok(s) ==> built(s@, blocks_of_files(files@)),
{
    let mut blocks: Vec<Block> = Vec::new();
    let ghost mut acc: Seq<BlockPlan> = Seq::empty();
    let mut f: usize = 0;
    while f < files.len()
        invariant
            f <= files@.len(),
            acc == blocks_of_files(files@.subrange(0, f as int)),
            plans_ok(acc),
            built(blocks@, acc),
        decreases files@.len() - f,
    {
        let file = &files[f];
        proof {
            let next = files@.subrange(0, f + 1);
            assert(next.drop_last() =~= files@.subrange(0, f as int));
            assert(next.last() == files@[f as int]);
        }
        let ghost acc_f = acc;
        let mut m: usize = 0;
        while m < file.modules.len()
            invariant
                f < files@.len(),
                *file == files@[f as int],
                m <= file.modules@.len(),
                acc == acc_f + modules_plans(file.path@, file.source_text@, file.modules@.subrange(0, m as int)),
                plans_ok(acc),
                built(blocks@, acc),
            decreases file.modules@.len() - m,
        {
            let module = &file.modules[m];
            proof {
                let next = file.modules@.subrange(0, m + 1);
                assert(next.drop_last() =~= file.modules@.subrange(0, m as int));
                assert(next.last() == file.modules@[m as int]);
            }
            let ghost acc_m = acc;
            let mut i: usize = 0;
            while i < module.items.len()
                invariant
                    f < files@.len(),
                    *file == files@[f as int],
                    m < file.modules@.len(),
                    *module == file.modules@[m as int],
                    i <= module.items@.len(),
                    acc == acc_m + module_plans(file.path@, file.source_text@, *module).subrange(0, i as int),
                    plans_ok(acc),
                    built(blocks@, acc),
                decreases module.items@.len() - i,
            {
                let ghost plan = item_plan(file.path@, file.source_text@, module.name@, module.items@[i as int]);
                let id = blocks.len() as u64;
                let block = match item_block(file.path.as_str(), file.source_text.as_str(), module.name.as_str(), &module.items[i], id) {
                    Ok(b) => b,
                    Err(e) => {
                        proof {
                            let all = blocks_of_files(files@);
                            lemma_plan_in_files(files@, f as int, m as int, i as int);
                            assert(!plans_ok(all)) by {
                                let k = blocks_of_files(files@.subrange(0, f as int)).len() + modules_plans(
                                    file.path@,
                                    file.source_text@,
                                    file.modules@.subrange(0, m as int),
                                ).len() + i;
                                assert(all[k] == plan);
                            }
                        }
                        return Err(e);
                    },
                };
                let ghost before = blocks@;
                blocks.push(block);
                proof {
                    assert(module_plans(file.path@, file.source_text@, *module)[i as int] == plan);
                    assert(module_plans(file.path@, file.source_text@, *module).subrange(0, i + 1) =~= module_plans(
                        file.path@,
                        file.source_text@,
                        *module,
                    ).subrange(0, i as int).push(plan));
                    acc = acc.push(plan);
                    assert forall|k: int| 0 <= k < blocks@.len() implies (#[trigger] blocks@[k])@.id == BlockId(k as u64) && block_fits(
                        blocks@[k]@,
                        acc[k],
                    ) by {
                        if k < before.len() {
                            assert(blocks@[k] == before[k]);
                        }
                    }
                }
                i = i + 1;
            }
            proof {
                assert(module_plans(file.path@, file.source_text@, *module).subrange(0, module.items@.len() as int)
                    =~= module_plans(file.path@, file.source_text@, *module));
                assert(acc =~= acc_f + modules_plans(file.path@, file.source_text@, file.modules@.subrange(0, m + 1)));
            }
            m = m + 1;
        }
        proof {
            assert(file.modules@.subrange(0, file.modules@.len() as int) =~= file.modules@);
            assert(acc =~= blocks_of_files(files@.subrange(0, f + 1)));
        }
        f = f + 1;
    }
    let count = blocks.len();
    proof {
        assert(files@.subrange(0, files@.len() as int) =~= files@);
        assert(count == blocks@.len());
        assert(usize::MAX <= u64::MAX);
        assert forall|a: int, b: int| 0 <= a < b < blocks@.len() implies blocks@[a]@.id != blocks@[b]@.id by {
            assert(blocks@[a]@.id == BlockId(a as u64));
            assert(blocks@[b]@.id == BlockId(b as u64));
            assert(a < usize::MAX && b <= usize::MAX);
            assert((a as u64) as int == a);
            assert((b as u64) as int == b);
        }
    }
    match BlockSet::new(blocks) {
        Ok(s) => Ok(s),
        Err(e) => {
            proof {
                assert(false);
            }
            Err(e)
        },
    }
}

/// The plan of item `i` of module `m` of file `f` stands in the plans of all
/// the files after the plans of the files, modules and items before it.
proof fn lemma_plan_in_files(fs: Seq<SourceFileModel>, f: int, m: int, i: int)
    requires
        0 <= f < fs.len(),
        0 <= m < fs[f].modules@.len(),
        0 <= i < fs[f].modules@[m].items@.len(),
    ensures
        ({
            let file = fs[f];
            let k = blocks_of_files(fs.subrange(0, f)).len() + modules_plans(file.path@, file.source_text@, file.modules@.subrange(0, m)).len() + i;
            &&& 0 <= k < blocks_of_files(fs).len()
            &&& blocks_of_files(fs)[k] == item_plan(file.path@, file.source_text@, file.modules@[m].name@, file.modules@[m].items@[i])
        }),
{
    let file = fs[f];
    let ms = file.modules@;
    let a = blocks_of_files(fs.subrange(0, f));
    let mp = modules_plans(file.path@, file.source_text@, ms.subrange(0, m));
    let k = a.len() + mp.len() + i;
    let upto = fs.subrange(0, f + 1);
    assert(upto.drop_last() =~= fs.subrange(0, f));
    assert(upto.last() == file);
    let ms_upto = ms.subrange(0, m + 1);
    assert(ms_upto.drop_last() =~= ms.subrange(0, m));
    assert(ms_upto.last() == ms[m]);
    assert(module_plans(file.path@, file.source_text@, ms[m])[i] == item_plan(file.path@, file.source_text@, ms[m].name@, ms[m].items@[i]));
    lemma_modules_prefix(file.path@, file.source_text@, ms, m + 1);
    assert(modules_plans(file.path@, file.source_text@, ms)[mp.len() + i] == modules_plans(file.path@, file.source_text@, ms_upto)[mp.len() + i]);
    lemma_files_prefix(fs, f + 1);
    assert(blocks_of_files(fs)[k] == blocks_of_files(upto)[k]);
}

/// The plans of the first `j` files are a prefix of the plans of all.
proof fn lemma_files_prefix(fs: Seq<SourceFileModel>, j: int)
    requires
        0 <= j <= fs.len(),
    ensures
        blocks_of_files(fs.subrange(0, j)).len() <= blocks_of_files(fs).len(),
        forall|k: int| 0 <= k < blocks_of_files(fs.subrange(0, j)).len() ==> #[trigger] blocks_of_files(fs)[k] == blocks_of_files(fs.subrange(0, j))[k],
    decreases fs.len(),
{
    if j == fs.len() {
        assert(fs.subrange(0, j) =~= fs);
    } else {
        lemma_files_prefix(fs.drop_last(), j);
        assert(fs.drop_last().subrange(0, j) =~= fs.subrange(0, j));
    }
}

/// The plans of the first `j` modules are a prefix of the plans of all.
proof fn lemma_modules_prefix(path: Seq<char>, text: Seq<char>, ms: Seq<ModuleModel>, j: int)
    requires
        0 <= j <= ms.len(),
    ensures
        modules_plans(path, text, ms.subrange(0, j)).len() <= modules_plans(path, text, ms).len(),
        forall|k: int| 0 <= k < modules_plans(path, text, ms.subrange(0, j)).len() ==> #[trigger] modules_plans(path, text, ms)[k]
            == modules_plans(path, text, ms.subrange(0, j))[k],
    decreases ms.len(),
{
    if j == ms.len() {
        assert(ms.subrange(0, j) =~= ms);
    } else {
        lemma_modules_prefix(path, text, ms.drop_last(), j);
        assert(ms.drop_last().subrange(0, j) =~= ms.subrange(0, j));
    }
}

} // verus!
