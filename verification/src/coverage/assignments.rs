use vstd::prelude::*;

use crate::block::blockize::{blockize_models, blocks_of_files, block_fits, built, plans_ok, BlockPlan, ItemModel, SourceFileModel};
use crate::block::dataflow::{copy_guards, guard_lines, line_guard_views, statement_guards, CaseItemModel, StatementModel};
use crate::block::{Block, BlockView};
use crate::coverage::statements::{
    clone_texts, guard_views, normalize_file_key, stem_key, trim, trim_chars, AssignmentStatement, EdgeKind, Guard, GuardView,
};
use crate::error::SvaError;
use crate::text::{chars_of, lines_of, str_eq, string_of, text_lines, views_of};
use crate::types::BlockId;

verus! {

/// The source lines of the assignments of `s` that write a signal, in
/// dataflow order.
pub open spec fn assigned_lines(s: StatementModel) -> Seq<usize>
    decreases s,
{
    match s {
        StatementModel::Assignment { output, line, .. } => if output@.len() == 0 {
            Seq::<usize>::empty()
        } else {
            seq![line]
        },
        StatementModel::Conditional { then_branch, else_branch, .. } => assigned_lines(*then_branch) + match else_branch {
            Some(e) => assigned_lines(*e),
            None => Seq::<usize>::empty(),
        },
        StatementModel::Case { items, .. } => case_lines(items@),
        StatementModel::Sequence(body) => sequence_lines(body@),
        StatementModel::Other => Seq::<usize>::empty(),
    }
}

pub open spec fn sequence_lines(ss: Seq<StatementModel>) -> Seq<usize>
    decreases ss,
{
    if ss.len() == 0 {
        Seq::<usize>::empty()
    } else {
        sequence_lines(ss.drop_last()) + assigned_lines(ss.last())
    }
}

pub open spec fn case_lines(items: Seq<CaseItemModel>) -> Seq<usize>
    decreases items,
{
    if items.len() == 0 {
        Seq::<usize>::empty()
    } else {
        case_lines(items.drop_last()) + assigned_lines(*items.last().body)
    }
}

fn statement_lines(s: &StatementModel, out: &mut Vec<usize>)
    ensures
        final(out)@ == old(out)@ + assigned_lines(*s),
    decreases s,
{
    let ghost before = out@;
    match s {
        StatementModel::Assignment { output, line, .. } => {
            if output.len() > 0 {
                out.push(*line);
            }
            proof {
                assert(out@ =~= before + assigned_lines(*s));
            }
        },
        StatementModel::Conditional { then_branch, else_branch, .. } => {
            statement_lines(then_branch, out);
            match else_branch {
                Some(e) => {
                    statement_lines(e, out);
                },
                None => {},
            }
            proof {
                assert(out@ =~= before + assigned_lines(*s));
            }
        },
        StatementModel::Case { items, .. } => {
            let mut i: usize = 0;
            proof {
                assert(items@.subrange(0, 0) =~= Seq::<CaseItemModel>::empty());
                assert(out@ =~= before + case_lines(items@.subrange(0, 0)));
            }
            while i < items.len()
                invariant
                    *s matches StatementModel::Case { items: its, .. } && its == *items,
                    i <= items@.len(),
                    out@ == before + case_lines(items@.subrange(0, i as int)),
                decreases items@.len() - i,
            {
                proof {
                    assert(decreases_to!(*s => s->items));
                    assert(decreases_to!(s->items => (s->items)@));
                    assert(decreases_to!((s->items)@ => (s->items)@[i as int]));
                    assert(decreases_to!((s->items)@[i as int] => (s->items)@[i as int].body));
                }
                statement_lines(&items[i].body, out);
                proof {
                    let next = items@.subrange(0, i + 1);
                    assert(next.drop_last() =~= items@.subrange(0, i as int));
                    assert(next.last() == items@[i as int]);
                    assert(out@ =~= before + case_lines(next));
                }
                i = i + 1;
            }
            proof {
                assert(items@.subrange(0, items@.len() as int) =~= items@);
            }
        },
        StatementModel::Sequence(body) => {
            let mut i: usize = 0;
            proof {
                assert(body@.subrange(0, 0) =~= Seq::<StatementModel>::empty());
                assert(out@ =~= before + sequence_lines(body@.subrange(0, 0)));
            }
            while i < body.len()
                invariant
                    *s == StatementModel::Sequence(*body),
                    i <= body@.len(),
                    out@ == before + sequence_lines(body@.subrange(0, i as int)),
                decreases body@.len() - i,
            {
                proof {
                    assert(decreases_to!(*s => s->0));
                    assert(decreases_to!(s->0 => (s->0)@));
                    assert(decreases_to!((s->0)@ => (s->0)@[i as int]));
                }
                statement_lines(&body[i], out);
                proof {
                    let next = body@.subrange(0, i + 1);
                    assert(next.drop_last() =~= body@.subrange(0, i as int));
                    assert(next.last() == body@[i as int]);
                    assert(out@ =~= before + sequence_lines(next));
                }
                i = i + 1;
            }
            proof {
                assert(body@.subrange(0, body@.len() as int) =~= body@);
            }
        },
        StatementModel::Other => {
            proof {
                assert(out@ =~= before + assigned_lines(*s));
            }
        },
    }
}

/// The assignment lines of an item: those of a continuous assignment or an
/// always block; a port has none.
pub open spec fn item_lines(item: ItemModel) -> Seq<usize> {
    match item {
        ItemModel::ContinuousAssign { assignments, .. } => sequence_lines(assignments@),
        ItemModel::Always { body, .. } => assigned_lines(body),
        ItemModel::Port { .. } => Seq::<usize>::empty(),
    }
}

/// The lines of `ls` other than the unknown line 0, each the first time it
/// comes.
pub open spec fn fresh_lines(ls: Seq<usize>) -> Seq<usize>
    decreases ls.len(),
{
    if ls.len() == 0 {
        Seq::<usize>::empty()
    } else {
        let prev = fresh_lines(ls.drop_last());
        if ls.last() != 0 && !prev.contains(ls.last()) {
            prev.push(ls.last())
        } else {
            prev
        }
    }
}

fn unique_lines(ls: &Vec<usize>) -> (r: Vec<usize>)
    ensures
        r@ == fresh_lines(ls@),
{
    let mut out: Vec<usize> = Vec::new();
    let mut i: usize = 0;
    while i < ls.len()
        invariant
            i <= ls@.len(),
            out@ == fresh_lines(ls@.subrange(0, i as int)),
        decreases ls@.len() - i,
    {
        proof {
            let next = ls@.subrange(0, i + 1);
            assert(next.drop_last() =~= ls@.subrange(0, i as int));
            assert(next.last() == ls@[i as int]);
        }
        let x = ls[i];
        let mut seen = false;
        let mut j: usize = 0;
        while j < out.len()
            invariant
                j <= out@.len(),
                seen == out@.subrange(0, j as int).contains(x),
            decreases out@.len() - j,
        {
            if out[j] == x {
                seen = true;
            }
            proof {
                let a = out@.subrange(0, j as int);
                let b = out@.subrange(0, j + 1);
                assert(b =~= a.push(out@[j as int]));
                if a.contains(x) {
                    let k = choose|k: int| 0 <= k < a.len() && a[k] == x;
                    assert(b[k] == x);
                }
                if out@[j as int] == x {
                    assert(b[j as int] == x);
                }
                if b.contains(x) {
                    let k = choose|k: int| 0 <= k < b.len() && b[k] == x;
                    if k < j {
                        assert(a[k] == x);
                    }
                }
            }
            j = j + 1;
        }
        proof {
            assert(out@.subrange(0, out@.len() as int) =~= out@);
        }
        if x != 0 && !seen {
            out.push(x);
        }
        i = i + 1;
    }
    proof {
        assert(ls@.subrange(0, ls@.len() as int) =~= ls@);
    }
    out
}

/// The triggers of an always block, as text.
pub open spec fn trigger_views(v: Seq<(String, EdgeKind)>) -> Seq<(Seq<char>, EdgeKind)> {
    v.map_values(|t: (String, EdgeKind)| (t.0@, t.1))
}

/// Where a continuous assignment or an always block stands: its file's key
/// and its line range.
pub struct ItemKey {
    pub file: Seq<char>,
    pub line_start: usize,
    pub line_end: usize,
}

pub open spec fn item_key(path: Seq<char>, item: ItemModel) -> Option<ItemKey> {
    match item {
        ItemModel::ContinuousAssign { line_start, line_end, .. } => Some(ItemKey { file: stem_key(path), line_start, line_end }),
        ItemModel::Always { line_start, line_end, .. } => Some(ItemKey { file: stem_key(path), line_start, line_end }),
        ItemModel::Port { .. } => None,
    }
}

/// The always blocks of the files, file by file, module by module, in
/// source order: each with its file key, its line range, its guards by line
/// and its triggers.
pub open spec fn always_entries(fs: Seq<SourceFileModel>) -> Seq<(ItemKey, Seq<(usize, Seq<GuardView>)>, Seq<(Seq<char>, EdgeKind)>)>
    decreases fs.len(),
{
    if fs.len() == 0 {
        Seq::empty()
    } else {
        always_entries(fs.drop_last()) + module_always(fs.last().path@, fs.last().modules@.map_values(|m: crate::block::blockize::ModuleModel| m.items@))
    }
}

pub open spec fn module_always(path: Seq<char>, ms: Seq<Seq<ItemModel>>) -> Seq<(ItemKey, Seq<(usize, Seq<GuardView>)>, Seq<(Seq<char>, EdgeKind)>)>
    decreases ms.len(),
{
    if ms.len() == 0 {
        Seq::empty()
    } else {
        module_always(path, ms.drop_last()) + items_always(path, ms.last())
    }
}

pub open spec fn items_always(path: Seq<char>, its: Seq<ItemModel>) -> Seq<(ItemKey, Seq<(usize, Seq<GuardView>)>, Seq<(Seq<char>, EdgeKind)>)>
    decreases its.len(),
{
    if its.len() == 0 {
        Seq::empty()
    } else {
        items_always(path, its.drop_last()) + match its.last() {
            ItemModel::Always { body, line_start, line_end, triggers, .. } => seq![
                (
                    ItemKey { file: stem_key(path), line_start, line_end },
                    guard_lines(body, Seq::<GuardView>::empty()),
                    trigger_views(triggers@),
                ),
            ],
            _ => Seq::empty(),
        }
    }
}

/// The guards last recorded for `line` of file key `file` in `es`, when any.
pub open spec fn last_guards(
    es: Seq<(ItemKey, Seq<(usize, Seq<GuardView>)>, Seq<(Seq<char>, EdgeKind)>)>,
    file: Seq<char>,
    line: usize,
) -> Option<Seq<GuardView>>
    decreases es.len(),
{
    if es.len() == 0 {
        None
    } else if es.last().0.file == file && last_line_guards(es.last().1, line) is Some {
        last_line_guards(es.last().1, line)
    } else {
        last_guards(es.drop_last(), file, line)
    }
}

pub open spec fn last_line_guards(ps: Seq<(usize, Seq<GuardView>)>, line: usize) -> Option<Seq<GuardView>>
    decreases ps.len(),
{
    if ps.len() == 0 {
        None
    } else if ps.last().0 == line {
        Some(ps.last().1)
    } else {
        last_line_guards(ps.drop_last(), line)
    }
}

/// The triggers last recorded for the always block at `key` in `es`; none
/// when there is none.
pub open spec fn last_triggers(
    es: Seq<(ItemKey, Seq<(usize, Seq<GuardView>)>, Seq<(Seq<char>, EdgeKind)>)>,
    key: ItemKey,
) -> Seq<(Seq<char>, EdgeKind)>
    decreases es.len(),
{
    if es.len() == 0 {
        Seq::empty()
    } else if es.last().0 == key {
        es.last().2
    } else {
        last_triggers(es.drop_last(), key)
    }
}

/// The position of the last planned block at `key`, when any.
pub open spec fn last_plan_at(ps: Seq<BlockPlan>, key: ItemKey) -> Option<int>
    decreases ps.len(),
{
    if ps.len() == 0 {
        None
    } else if stem_key(ps.last().source_file) == key.file && ps.last().line_start == key.line_start && ps.last().line_end
        == key.line_end {
        Some(ps.len() - 1)
    } else {
        last_plan_at(ps.drop_last(), key)
    }
}

/// The trimmed text of line `line` (counted from one) of `text`; empty past
/// the end.
pub open spec fn line_snippet(text: Seq<char>, line: usize) -> Seq<char> {
    let ls = text_lines(text);
    if 1 <= line <= ls.len() {
        trim(ls[line - 1])
    } else {
        Seq::<char>::empty()
    }
}

/// What a collected assignment statement says, but for its block.
pub struct StatementPlan {
    pub file: Seq<char>,
    pub line: usize,
    pub code_snippet: Seq<char>,
    pub block_index: int,
    pub guards: Seq<GuardView>,
    pub triggers: Seq<(Seq<char>, EdgeKind)>,
}

/// The statements of one item of a file: one per fresh assignment line, in
/// the block found at the item's location in the plans `ps` of all files,
/// none when there is no such block.
pub open spec fn item_statements(
    fs: Seq<SourceFileModel>,
    ps: Seq<BlockPlan>,
    path: Seq<char>,
    text: Seq<char>,
    item: ItemModel,
) -> Seq<StatementPlan> {
    match item_key(path, item) {
        Some(key) => match last_plan_at(ps, key) {
            Some(b) => fresh_lines(item_lines(item)).map_values(|l: usize| StatementPlan {
                file: stem_key(path),
                line: l,
                code_snippet: line_snippet(text, l),
                block_index: b,
                guards: match last_guards(always_entries(fs), stem_key(path), l) {
                    Some(g) => g,
                    None => Seq::<GuardView>::empty(),
                },
                triggers: last_triggers(always_entries(fs), key),
            }),
            None => Seq::empty(),
        },
        None => Seq::empty(),
    }
}

pub open spec fn items_statements(
    fs: Seq<SourceFileModel>,
    ps: Seq<BlockPlan>,
    path: Seq<char>,
    text: Seq<char>,
    its: Seq<ItemModel>,
) -> Seq<StatementPlan>
    decreases its.len(),
{
    if its.len() == 0 {
        Seq::empty()
    } else {
        items_statements(fs, ps, path, text, its.drop_last()) + item_statements(fs, ps, path, text, its.last())
    }
}

pub open spec fn modules_statements(
    fs: Seq<SourceFileModel>,
    ps: Seq<BlockPlan>,
    path: Seq<char>,
    text: Seq<char>,
    ms: Seq<Seq<ItemModel>>,
) -> Seq<StatementPlan>
    decreases ms.len(),
{
    if ms.len() == 0 {
        Seq::empty()
    } else {
        modules_statements(fs, ps, path, text, ms.drop_last()) + items_statements(fs, ps, path, text, ms.last())
    }
}

/// The assignment statements of the files `fs` as found in files `upto`,
/// file by file, module by module, item by item, in source order.
pub open spec fn files_statements(fs: Seq<SourceFileModel>, ps: Seq<BlockPlan>, upto: Seq<SourceFileModel>) -> Seq<StatementPlan>
    decreases upto.len(),
{
    if upto.len() == 0 {
        Seq::empty()
    } else {
        files_statements(fs, ps, upto.drop_last()) + modules_statements(
            fs,
            ps,
            upto.last().path@,
            upto.last().source_text@,
            upto.last().modules@.map_values(|m: crate::block::blockize::ModuleModel| m.items@),
        )
    }
}

/// The assignment statements of the files.
pub open spec fn statements_of(fs: Seq<SourceFileModel>) -> Seq<StatementPlan> {
    files_statements(fs, blocks_of_files(fs), fs)
}

/// Statement `st` is what plan `p` says, in a block numbered and built as
/// the plans `ps` say.
pub open spec fn statement_fits(st: AssignmentStatement, p: StatementPlan, ps: Seq<BlockPlan>) -> bool {
    &&& st.file@ == p.file
    &&& st.line == p.line
    &&& st.code_snippet@ == p.code_snippet
    &&& 0 <= p.block_index < ps.len()
    &&& st.block@.id == BlockId(p.block_index as u64)
    &&& block_fits(st.block@, ps[p.block_index])
    &&& guard_views(st.guards@) == p.guards
    &&& trigger_views(st.triggers@) == p.triggers
}

/// An always block as the collection keeps it: its file key, its line
/// range, its guards by line and its triggers.
pub struct AlwaysEntry {
    pub file: String,
    pub line_start: usize,
    pub line_end: usize,
    pub guards: Vec<(usize, Vec<Guard>)>,
    pub triggers: Vec<(String, EdgeKind)>,
}

pub open spec fn always_entry_view(e: AlwaysEntry) -> (ItemKey, Seq<(usize, Seq<GuardView>)>, Seq<(Seq<char>, EdgeKind)>) {
    (ItemKey { file: e.file@, line_start: e.line_start, line_end: e.line_end }, line_guard_views(e.guards@), trigger_views(e.triggers@))
}

pub open spec fn always_entry_views(v: Seq<AlwaysEntry>) -> Seq<(ItemKey, Seq<(usize, Seq<GuardView>)>, Seq<(Seq<char>, EdgeKind)>)> {
    v.map_values(|e: AlwaysEntry| always_entry_view(e))
}

fn copy_triggers(v: &Vec<(String, EdgeKind)>) -> (r: Vec<(String, EdgeKind)>)
    ensures
        trigger_views(r@) == trigger_views(v@),
{
    let mut out: Vec<(String, EdgeKind)> = Vec::new();
    let mut i: usize = 0;
    while i < v.len()
        invariant
            i <= v@.len(),
            trigger_views(out@) == trigger_views(v@.subrange(0, i as int)),
        decreases v@.len() - i,
    {
        let ghost before = out@;
        out.push((v[i].0.clone(), v[i].1));
        proof {
            assert(trigger_views(out@) =~= trigger_views(before).push((v@[i as int].0@, v@[i as int].1)));
            assert(trigger_views(v@.subrange(0, i + 1)) =~= trigger_views(v@.subrange(0, i as int)).push((v@[i as int].0@, v@[i as int].1)));
        }
        i = i + 1;
    }
    proof {
        assert(v@.subrange(0, v@.len() as int) =~= v@);
    }
    out
}

/// The always blocks of the files (see `always_entries`).
fn always_table(files: &Vec<SourceFileModel>) -> (r: Vec<AlwaysEntry>)
    ensures
        always_entry_views(r@) == always_entries(files@),
{
    let mut out: Vec<AlwaysEntry> = Vec::new();
    let mut f: usize = 0;
    while f < files.len()
        invariant
            f <= files@.len(),
            always_entry_views(out@) == always_entries(files@.subrange(0, f as int)),
        decreases files@.len() - f,
    {
        let file = &files[f];
        let key = normalize_file_key(file.path.as_str());
        let ghost ms = file.modules@.map_values(|m: crate::block::blockize::ModuleModel| m.items@);
        let ghost base = always_entry_views(out@);
        let mut m: usize = 0;
        while m < file.modules.len()
            invariant
                f < files@.len(),
                *file == files@[f as int],
                key@ == stem_key(file.path@),
                ms == file.modules@.map_values(|m: crate::block::blockize::ModuleModel| m.items@),
                m <= ms.len(),
                always_entry_views(out@) == base + module_always(file.path@, ms.subrange(0, m as int)),
            decreases ms.len() - m,
        {
            let items = &file.modules[m].items;
            let ghost base_m = always_entry_views(out@);
            let mut i: usize = 0;
            while i < items.len()
                invariant
                    m < ms.len(),
                    items@ == ms[m as int],
                    key@ == stem_key(file.path@),
                    i <= items@.len(),
                    always_entry_views(out@) == base_m + items_always(file.path@, items@.subrange(0, i as int)),
                decreases items@.len() - i,
            {
                let ghost before = always_entry_views(out@);
                proof {
                    let next = items@.subrange(0, i + 1);
                    assert(next.drop_last() =~= items@.subrange(0, i as int));
                    assert(next.last() == items@[i as int]);
                }
                match &items[i] {
                    ItemModel::Always { body, line_start, line_end, triggers, .. } => {
                        let mut guards: Vec<Guard> = Vec::new();
                        let mut pairs: Vec<(usize, Vec<Guard>)> = Vec::new();
                        proof {
                            assert(guard_views(guards@) =~= Seq::<GuardView>::empty());
                            assert(line_guard_views(pairs@) =~= Seq::<(usize, Seq<GuardView>)>::empty());
                        }
                        statement_guards(body, &mut guards, &mut pairs);
                        let e = AlwaysEntry {
                            file: key.clone(),
                            line_start: *line_start,
                            line_end: *line_end,
                            guards: pairs,
                            triggers: copy_triggers(triggers),
                        };
                        out.push(e);
                        proof {
                            assert(always_entry_views(out@) =~= before.push(always_entry_view(e)));
                        }
                    },
                    _ => {
                        proof {
                            assert(always_entry_views(out@) =~= before + Seq::empty());
                        }
                    },
                }
                i = i + 1;
            }
            proof {
                assert(items@.subrange(0, items@.len() as int) =~= items@);
                let next = ms.subrange(0, m + 1);
                assert(next.drop_last() =~= ms.subrange(0, m as int));
                assert(next.last() == ms[m as int]);
            }
            m = m + 1;
        }
        proof {
            assert(ms.subrange(0, ms.len() as int) =~= ms);
            let next = files@.subrange(0, f + 1);
            assert(next.drop_last() =~= files@.subrange(0, f as int));
            assert(next.last() == files@[f as int]);
        }
        f = f + 1;
    }
    proof {
        assert(files@.subrange(0, files@.len() as int) =~= files@);
    }
    out
}

/// The guards last recorded for `line` in `pairs`, when any.
fn line_guards(pairs: &Vec<(usize, Vec<Guard>)>, line: usize) -> (r: Option<Vec<Guard>>)
    ensures
        match r {
            Some(g) => last_line_guards(line_guard_views(pairs@), line) == Some(guard_views(g@)),
            None => last_line_guards(line_guard_views(pairs@), line) is None,
        },
{
    let mut k: usize = pairs.len();
    proof {
        assert(pairs@.subrange(0, pairs@.len() as int) =~= pairs@);
    }
    while k > 0
        invariant
            k <= pairs@.len(),
            last_line_guards(line_guard_views(pairs@), line) == last_line_guards(line_guard_views(pairs@.subrange(0, k as int)), line),
        decreases k,
    {
        let ghost pre = line_guard_views(pairs@.subrange(0, k as int));
        proof {
            assert(line_guard_views(pairs@.subrange(0, k as int)).drop_last() =~= line_guard_views(pairs@.subrange(0, k - 1)));
        }
        if pairs[k - 1].0 == line {
            return Some(copy_guards(&pairs[k - 1].1));
        }
        k = k - 1;
    }
    None
}

/// The guards last recorded for `line` of file key `file` (see `last_guards`),
/// none recorded giving no guards.
fn guards_for(table: &Vec<AlwaysEntry>, file: &str, line: usize) -> (r: Vec<Guard>)
    ensures
        guard_views(r@) == match last_guards(always_entry_views(table@), file@, line) {
            Some(g) => g,
            None => Seq::<GuardView>::empty(),
        },
{
    let mut k: usize = table.len();
    proof {
        assert(table@.subrange(0, table@.len() as int) =~= table@);
    }
    while k > 0
        invariant
            k <= table@.len(),
            last_guards(always_entry_views(table@), file@, line) == last_guards(always_entry_views(table@.subrange(0, k as int)), file@, line),
        decreases k,
    {
        proof {
            assert(always_entry_views(table@.subrange(0, k as int)).drop_last() =~= always_entry_views(table@.subrange(0, k - 1)));
        }
        if str_eq(table[k - 1].file.as_str(), file) {
            match line_guards(&table[k - 1].guards, line) {
                Some(g) => {
                    return g;
                },
                None => {},
            }
        }
        k = k - 1;
    }
    let none: Vec<Guard> = Vec::new();
    proof {
        assert(guard_views(none@) =~= Seq::<GuardView>::empty());
    }
    none
}

/// The triggers last recorded for the always block at `key` (see
/// `last_triggers`).
fn triggers_for(table: &Vec<AlwaysEntry>, file: &str, line_start: usize, line_end: usize) -> (r: Vec<(String, EdgeKind)>)
    ensures
        trigger_views(r@) == last_triggers(always_entry_views(table@), ItemKey { file: file@, line_start, line_end }),
{
    let ghost key = ItemKey { file: file@, line_start, line_end };
    let mut k: usize = table.len();
    proof {
        assert(table@.subrange(0, table@.len() as int) =~= table@);
    }
    while k > 0
        invariant
            k <= table@.len(),
            key == (ItemKey { file: file@, line_start, line_end }),
            last_triggers(always_entry_views(table@), key) == last_triggers(always_entry_views(table@.subrange(0, k as int)), key),
        decreases k,
    {
        proof {
            assert(always_entry_views(table@.subrange(0, k as int)).drop_last() =~= always_entry_views(table@.subrange(0, k - 1)));
        }
        let e = &table[k - 1];
        if str_eq(e.file.as_str(), file) && e.line_start == line_start && e.line_end == line_end {
            return copy_triggers(&e.triggers);
        }
        k = k - 1;
    }
    let none: Vec<(String, EdgeKind)> = Vec::new();
    proof {
        assert(trigger_views(none@) =~= Seq::<(Seq<char>, EdgeKind)>::empty());
    }
    none
}

/// The position of the last block built at file key `file` and the line
/// range (see `last_plan_at`).
fn block_at(blocks: &Vec<Block>, plans: Ghost<Seq<BlockPlan>>, file: &str, line_start: usize, line_end: usize) -> (r: Option<usize>)
    requires
        built(blocks@, plans@),
    ensures
        r matches Some(i) ==> i < blocks@.len() && last_plan_at(plans@, ItemKey { file: file@, line_start, line_end }) == Some(i as int),
        r is None ==> last_plan_at(plans@, ItemKey { file: file@, line_start, line_end }) is None,
{
    let ghost key = ItemKey { file: file@, line_start, line_end };
    let mut k: usize = blocks.len();
    proof {
        assert(plans@.subrange(0, plans@.len() as int) =~= plans@);
    }
    while k > 0
        invariant
            k <= blocks@.len(),
            built(blocks@, plans@),
            key == (ItemKey { file: file@, line_start, line_end }),
            last_plan_at(plans@, key) == last_plan_at(plans@.subrange(0, k as int), key),
        decreases k,
    {
        proof {
            assert(plans@.subrange(0, k as int).drop_last() =~= plans@.subrange(0, k - 1));
            assert(block_fits(blocks@[k - 1]@, plans@[k - 1]));
        }
        let b = &blocks[k - 1];
        let stem = normalize_file_key(b.source_file());
        if str_eq(stem.as_str(), file) && b.line_start() == line_start && b.line_end() == line_end {
            return Some(k - 1);
        }
        k = k - 1;
    }
    None
}

fn snippet_at(lines: &Vec<Vec<char>>, text: Ghost<Seq<char>>, line: usize) -> (r: String)
    requires
        views_of(lines@) == text_lines(text@),
    ensures
        r@ == line_snippet(text@, line),
{
    if 1 <= line && line <= lines.len() {
        proof {
            assert(views_of(lines@)[line - 1] == lines@[line - 1]@);
        }
        let t = trim_chars(lines[line - 1].as_slice());
        string_of(t.as_slice())
    } else {
        String::new()
    }
}

/// The assignment lines of a continuous assignment's assignments.
fn assignments_lines(assignments: &Vec<StatementModel>) -> (r: Vec<usize>)
    ensures
        r@ == sequence_lines(assignments@),
{
    let mut out: Vec<usize> = Vec::new();
    let mut j: usize = 0;
    proof {
        assert(assignments@.subrange(0, 0) =~= Seq::<StatementModel>::empty());
    }
    while j < assignments.len()
        invariant
            j <= assignments@.len(),
            out@ == sequence_lines(assignments@.subrange(0, j as int)),
        decreases assignments@.len() - j,
    {
        statement_lines(&assignments[j], &mut out);
        proof {
            let next = assignments@.subrange(0, j + 1);
            assert(next.drop_last() =~= assignments@.subrange(0, j as int));
            assert(next.last() == assignments@[j as int]);
        }
        j = j + 1;
    }
    proof {
        assert(assignments@.subrange(0, assignments@.len() as int) =~= assignments@);
    }
    out
}

/// The statements collected so far are what the plans `sp` say.
pub open spec fn all_fit(v: Seq<AssignmentStatement>, sp: Seq<StatementPlan>, ps: Seq<BlockPlan>) -> bool {
    &&& v.len() == sp.len()
    &&& forall|i: int| 0 <= i < v.len() ==> statement_fits(#[trigger] v[i], sp[i], ps)
}

/// The assignment statements of the files (see `statements_of`): for each
/// continuous assignment and always block, in file, module and source
/// order, one statement per line on which it first assigns a signal, with
/// its file key, the trimmed text of that line, the block of the files at
/// its location, the guards recorded last for that line and the triggers
/// recorded last for its location. Fails as `blockize_models` does.
pub fn assignment_statements(files: &Vec<SourceFileModel>) -> (r: Result<Vec<AssignmentStatement>, SvaError>)
    ensures
        r is Ok <==> plans_ok(blocks_of_files(files@)),
        r matches Err(e) ==> e is InvalidLineRange,
        r matches Ok(v) ==> all_fit(v@, statements_of(files@), blocks_of_files(files@)),
{
    let set = match blockize_models(files) {
        Ok(s) => s,
        Err(e) => {
            return Err(e);
        },
    };
    let blocks = set.blocks();
    let ghost ps = blocks_of_files(files@);
    let table = always_table(files);
    let mut out: Vec<AssignmentStatement> = Vec::new();
    let ghost mut acc: Seq<StatementPlan> = Seq::empty();
    let mut f: usize = 0;
    while f < files.len()
        invariant
            f <= files@.len(),
            built(blocks@, ps),
            ps == blocks_of_files(files@),
            always_entry_views(table@) == always_entries(files@),
            acc == files_statements(files@, ps, files@.subrange(0, f as int)),
            all_fit(out@, acc, ps),
        decreases files@.len() - f,
    {
        let file = &files[f];
        let key = normalize_file_key(file.path.as_str());
        let chars = chars_of(file.source_text.as_str());
        let lines = lines_of(chars.as_slice());
        let ghost ms = file.modules@.map_values(|m: crate::block::blockize::ModuleModel| m.items@);
        let ghost acc_f = acc;
        let mut m: usize = 0;
        while m < file.modules.len()
            invariant
                f < files@.len(),
                *file == files@[f as int],
                key@ == stem_key(file.path@),
                views_of(lines@) == text_lines(file.source_text@),
                ms == file.modules@.map_values(|m: crate::block::blockize::ModuleModel| m.items@),
                m <= ms.len(),
                built(blocks@, ps),
                ps == blocks_of_files(files@),
                always_entry_views(table@) == always_entries(files@),
                acc == acc_f + modules_statements(files@, ps, file.path@, file.source_text@, ms.subrange(0, m as int)),
                all_fit(out@, acc, ps),
            decreases ms.len() - m,
        {
            let items = &file.modules[m].items;
            let ghost acc_m = acc;
            let mut i: usize = 0;
            while i < items.len()
                invariant
                    m < ms.len(),
                    items@ == ms[m as int],
                    key@ == stem_key(file.path@),
                    views_of(lines@) == text_lines(file.source_text@),
                    i <= items@.len(),
                    built(blocks@, ps),
                    ps == blocks_of_files(files@),
                    always_entry_views(table@) == always_entries(files@),
                    acc == acc_m + items_statements(files@, ps, file.path@, file.source_text@, items@.subrange(0, i as int)),
                    all_fit(out@, acc, ps),
                decreases items@.len() - i,
            {
                proof {
                    let next = items@.subrange(0, i + 1);
                    assert(next.drop_last() =~= items@.subrange(0, i as int));
                    assert(next.last() == items@[i as int]);
                }
                let item = &items[i];
                let ghost want = item_statements(files@, ps, file.path@, file.source_text@, *item);
                let found = match item {
                    ItemModel::ContinuousAssign { assignments, line_start, line_end } => Some(
                        (assignments_lines(assignments), *line_start, *line_end),
                    ),
                    ItemModel::Always { body, line_start, line_end, .. } => {
                        let mut v: Vec<usize> = Vec::new();
                        statement_lines(body, &mut v);
                        proof {
                            assert(v@ =~= assigned_lines(*body));
                        }
                        Some((v, *line_start, *line_end))
                    },
                    ItemModel::Port { .. } => None,
                };
                match found {
                    Some((all, ls, le)) => {
                        let ghost k = ItemKey { file: stem_key(file.path@), line_start: ls, line_end: le };
                        proof {
                            assert(item_key(file.path@, *item) == Some(k));
                            assert(all@ == item_lines(*item));
                        }
                        match block_at(blocks, Ghost(ps), key.as_str(), ls, le) {
                            Some(b) => {
                                let fresh = unique_lines(&all);
                                let triggers = triggers_for(&table, key.as_str(), ls, le);
                                let ghost base = acc;
                                let mut j: usize = 0;
                                while j < fresh.len()
                                    invariant
                                        fresh@ == fresh_lines(item_lines(*item)),
                                        j <= fresh@.len(),
                                        b < blocks@.len(),
                                        last_plan_at(ps, k) == Some(b as int),
                                        key@ == stem_key(file.path@),
                                        k == (ItemKey { file: stem_key(file.path@), line_start: ls, line_end: le }),
                                        item_key(file.path@, *item) == Some(k),
                                        views_of(lines@) == text_lines(file.source_text@),
                                        built(blocks@, ps),
                                        always_entry_views(table@) == always_entries(files@),
                                        trigger_views(triggers@) == last_triggers(always_entries(files@), k),
                                        want == item_statements(files@, ps, file.path@, file.source_text@, *item),
                                        acc == base + want.subrange(0, j as int),
                                        all_fit(out@, acc, ps),
                                    decreases fresh@.len() - j,
                                {
                                    let l = fresh[j];
                                    let guards = guards_for(&table, key.as_str(), l);
                                    let snippet = snippet_at(&lines, Ghost(file.source_text@), l);
                                    let block = blocks[b].clone();
                                    let st = AssignmentStatement {
                                        file: key.clone(),
                                        line: l,
                                        code_snippet: snippet,
                                        block,
                                        guards,
                                        triggers: copy_triggers(&triggers),
                                    };
                                    proof {
                                        let bv = blocks@[b as int]@;
                                        assert(block_fits(bv, ps[b as int]));
                                        assert(entry_flows_equal(st.block@, bv)) by {
                                            assert(crate::block::dataflow::entry_flows(st.block@.dataflow) =~= crate::block::dataflow::entry_flows(bv.dataflow));
                                        }
                                        assert(want[j as int] == (StatementPlan {
                                            file: stem_key(file.path@),
                                            line: l,
                                            code_snippet: line_snippet(file.source_text@, l),
                                            block_index: b as int,
                                            guards: match last_guards(always_entries(files@), stem_key(file.path@), l) {
                                                Some(g) => g,
                                                None => Seq::<GuardView>::empty(),
                                            },
                                            triggers: last_triggers(always_entries(files@), k),
                                        }));
                                        assert(statement_fits(st, want[j as int], ps));
                                    }
                                    let ghost before = out@;
                                    out.push(st);
                                    proof {
                                        assert(want.subrange(0, j + 1) =~= want.subrange(0, j as int).push(want[j as int]));
                                        acc = acc.push(want[j as int]);
                                        assert forall|x: int| 0 <= x < out@.len() implies statement_fits(#[trigger] out@[x], acc[x], ps) by {
                                            if x < before.len() {
                                                assert(out@[x] == before[x]);
                                            }
                                        }
                                    }
                                    j = j + 1;
                                }
                                proof {
                                    assert(want.subrange(0, fresh@.len() as int) =~= want);
                                }
                            },
                            None => {
                                proof {
                                    assert(item_statements(files@, ps, file.path@, file.source_text@, *item) =~= Seq::empty());
                                    assert(acc =~= acc + item_statements(files@, ps, file.path@, file.source_text@, *item));
                                }
                            },
                        }
                    },
                    None => {
                        proof {
                            assert(item_statements(files@, ps, file.path@, file.source_text@, *item) =~= Seq::empty());
                            assert(acc =~= acc + item_statements(files@, ps, file.path@, file.source_text@, *item));
                        }
                    },
                }
                i = i + 1;
            }
            proof {
                assert(items@.subrange(0, items@.len() as int) =~= items@);
                let next = ms.subrange(0, m + 1);
                assert(next.drop_last() =~= ms.subrange(0, m as int));
                assert(next.last() == ms[m as int]);
            }
            m = m + 1;
        }
        proof {
            assert(ms.subrange(0, ms.len() as int) =~= ms);
            let next = files@.subrange(0, f + 1);
            assert(next.drop_last() =~= files@.subrange(0, f as int));
            assert(next.last() == files@[f as int]);
        }
        f = f + 1;
    }
    proof {
        assert(files@.subrange(0, files@.len() as int) =~= files@);
    }
    Ok(out)
}

pub open spec fn entry_flows_equal(a: BlockView, b: BlockView) -> bool {
    crate::block::dataflow::entry_flows(a.dataflow) == crate::block::dataflow::entry_flows(b.dataflow)
}

} // verus!
