use vstd::prelude::*;

use crate::block::equality::keys_of;
use crate::block::{clone_signals, dedup_signals, has_key, DataflowEntry};
use crate::coverage::statements::{clone_texts, guard_views, texts_of, Guard, GuardView};
use crate::types::{SignalKey, SignalNode};

verus! {

/// A statement of an always block, as far as its dataflow goes. The signals
/// of an expression are those its identifiers and literals name; an
/// `else if` is the conditional that stands in the `else` branch.
pub enum StatementModel {
    /// An assignment on source line `line` (0 when unknown): the signals its
    /// left-hand side writes (none when it names no signal) and the signals
    /// its right-hand side reads.
    Assignment { output: Vec<SignalNode>, inputs: Vec<SignalNode>, line: usize },
    /// `if (predicate) then_branch else else_branch`, with the predicate's
    /// signals and its trimmed text.
    Conditional {
        predicate: Vec<SignalNode>,
        predicate_text: String,
        then_branch: Box<StatementModel>,
        else_branch: Option<Box<StatementModel>>,
    },
    /// `case (selector)` and its items, in order, with the selector's
    /// signals and its trimmed text.
    Case { selector: Vec<SignalNode>, selector_text: String, items: Vec<CaseItemModel> },
    /// `begin ... end`: its statements in order.
    Sequence(Vec<StatementModel>),
    /// A statement without dataflow (a null statement, a call, ...).
    Other,
}

/// An item of a case statement: the signals of its labels (none for the
/// default item), the trimmed text of each label, and its statement.
pub struct CaseItemModel {
    pub labels: Option<Vec<SignalNode>>,
    pub label_texts: Vec<String>,
    pub body: Box<StatementModel>,
}

/// An assignment as the dataflow sees it: the signals written, in order, and
/// the set of signals read.
pub type FlowView = (Seq<SignalKey>, Set<SignalKey>);

pub open spec fn entry_flow(e: DataflowEntry) -> FlowView {
    (keys_of(e.output@), keys_of(e.inputs@).to_set())
}

pub open spec fn entry_flows(es: Seq<DataflowEntry>) -> Seq<FlowView> {
    es.map_values(|e: DataflowEntry| entry_flow(e))
}

pub open spec fn key_set(s: Seq<SignalNode>) -> Set<SignalKey> {
    keys_of(s).to_set()
}

/// The assignments of statement `s`, in order, under the conditions whose
/// signals are `conds`: each reads what its right-hand side reads and the
/// signals of every condition it stands under. A branch stands under its
/// conditional's predicate (an `else` too); a case item under the selector
/// and its labels.
pub open spec fn statement_flow(s: StatementModel, conds: Set<SignalKey>) -> Seq<FlowView>
    decreases s,
{
    match s {
        StatementModel::Assignment { output, inputs, .. } => if output@.len() == 0 {
            Seq::<FlowView>::empty()
        } else {
            seq![(keys_of(output@), key_set(inputs@).union(conds))]
        },
        StatementModel::Conditional { predicate, then_branch, else_branch, .. } => {
            let c = conds.union(key_set(predicate@));
            statement_flow(*then_branch, c) + match else_branch {
                Some(e) => statement_flow(*e, c),
                None => Seq::<FlowView>::empty(),
            }
        },
        StatementModel::Case { selector, items, .. } => case_flow(items@, key_set(selector@), conds),
        StatementModel::Sequence(body) => sequence_flow(body@, conds),
        StatementModel::Other => Seq::<FlowView>::empty(),
    }
}

/// The assignments of the statements `ss`, in order.
pub open spec fn sequence_flow(ss: Seq<StatementModel>, conds: Set<SignalKey>) -> Seq<FlowView>
    decreases ss,
{
    if ss.len() == 0 {
        Seq::<FlowView>::empty()
    } else {
        sequence_flow(ss.drop_last(), conds) + statement_flow(ss.last(), conds)
    }
}

/// The assignments of the case items `items` with selector signals
/// `selector`, in order.
pub open spec fn case_flow(items: Seq<CaseItemModel>, selector: Set<SignalKey>, conds: Set<SignalKey>) -> Seq<FlowView>
    decreases items,
{
    if items.len() == 0 {
        Seq::<FlowView>::empty()
    } else {
        let item = items.last();
        let c = match item.labels {
            Some(l) => conds.union(selector).union(key_set(l@)),
            None => conds.union(selector),
        };
        case_flow(items.drop_last(), selector, conds) + statement_flow(*item.body, c)
    }
}

/// `a` and `b` together.
fn joined(a: &Vec<SignalNode>, b: &Vec<SignalNode>) -> (r: Vec<SignalNode>)
    ensures
        key_set(r@) == key_set(a@).union(key_set(b@)),
{
    let mut out = clone_signals(a);
    let ghost base = out@;
    let mut i: usize = 0;
    while i < b.len()
        invariant
            i <= b@.len(),
            base == a@,
            out@ == base + b@.subrange(0, i as int),
        decreases b@.len() - i,
    {
        out.push(b[i].clone());
        proof {
            assert(out@ =~= base + b@.subrange(0, i + 1));
        }
        i = i + 1;
    }
    proof {
        assert(b@.subrange(0, b@.len() as int) =~= b@);
        assert(keys_of(out@) =~= keys_of(a@) + keys_of(b@));
        assert(key_set(out@) =~= key_set(a@).union(key_set(b@))) by {
            assert forall|k: SignalKey| key_set(out@).contains(k) <==> key_set(a@).union(key_set(b@)).contains(k) by {
                if key_set(out@).contains(k) {
                    let j = choose|j: int| 0 <= j < keys_of(out@).len() && keys_of(out@)[j] == k;
                    if j < a@.len() {
                        assert(keys_of(a@)[j] == k);
                    } else {
                        assert(keys_of(b@)[j - a@.len()] == k);
                    }
                }
                if key_set(a@).contains(k) {
                    let j = choose|j: int| 0 <= j < keys_of(a@).len() && keys_of(a@)[j] == k;
                    assert(keys_of(out@)[j] == k);
                }
                if key_set(b@).contains(k) {
                    let j = choose|j: int| 0 <= j < keys_of(b@).len() && keys_of(b@)[j] == k;
                    assert(keys_of(out@)[a@.len() + j] == k);
                }
            }
        }
    }
    out
}

proof fn lemma_dedup_key_set(r: Seq<SignalNode>, s: Seq<SignalNode>)
    requires
        forall|k: SignalKey| #[trigger] has_key(r, k) <==> has_key(s, k),
    ensures
        key_set(r) == key_set(s),
{
    assert forall|k: SignalKey| key_set(r).contains(k) <==> key_set(s).contains(k) by {
        if key_set(r).contains(k) {
            let j = choose|j: int| 0 <= j < keys_of(r).len() && keys_of(r)[j] == k;
            assert(r[j]@ == k);
            assert(has_key(r, k));
            assert(has_key(s, k));
            let i = choose|i: int| 0 <= i < s.len() && #[trigger] s[i]@ == k;
            assert(keys_of(s)[i] == k);
        }
        if key_set(s).contains(k) {
            let j = choose|j: int| 0 <= j < keys_of(s).len() && keys_of(s)[j] == k;
            assert(s[j]@ == k);
            assert(has_key(s, k));
            assert(has_key(r, k));
            let i = choose|i: int| 0 <= i < r.len() && #[trigger] r[i]@ == k;
            assert(keys_of(r)[i] == k);
        }
    }
    assert(key_set(r) =~= key_set(s));
}

/// Appends to `out` the assignments of statement `s` under the conditions
/// whose signals are `conds` (see `statement_flow`); each entry reads each
/// signal once.
pub fn statement_dataflow(s: &StatementModel, conds: &Vec<SignalNode>, out: &mut Vec<DataflowEntry>)
    ensures
        entry_flows(final(out)@) == entry_flows(old(out)@) + statement_flow(*s, key_set(conds@)),
    decreases s,
{
    let ghost before = entry_flows(out@);
    match s {
        StatementModel::Assignment { output, inputs, .. } => {
            if output.len() == 0 {
                proof {
                    assert(entry_flows(out@) =~= before + statement_flow(*s, key_set(conds@)));
                }
                return;
            }
            let all = joined(inputs, conds);
            let reads = dedup_signals(&all);
            proof {
                lemma_dedup_key_set(reads@, all@);
            }
            let e = DataflowEntry { output: clone_signals(output), inputs: reads };
            out.push(e);
            proof {
                assert(entry_flows(out@) =~= before.push(entry_flow(e)));
                assert(entry_flows(out@) =~= before + statement_flow(*s, key_set(conds@)));
            }
        },
        StatementModel::Conditional { predicate, then_branch, else_branch, .. } => {
            let c = joined(conds, predicate);
            statement_dataflow(then_branch, &c, out);
            match else_branch {
                Some(e) => {
                    statement_dataflow(e, &c, out);
                },
                None => {},
            }
            proof {
                assert(entry_flows(out@) =~= before + statement_flow(*s, key_set(conds@)));
            }
        },
        StatementModel::Case { selector, items, .. } => {
            let with_selector = joined(conds, selector);
            let mut i: usize = 0;
            proof {
                assert(items@.subrange(0, 0) =~= Seq::<CaseItemModel>::empty());
                assert(entry_flows(out@) =~= before + case_flow(items@.subrange(0, 0), key_set(selector@), key_set(conds@)));
            }
            while i < items.len()
                invariant
                    *s matches StatementModel::Case { selector: sel, items: its, .. } && sel == *selector && its == *items,
                    i <= items@.len(),
                    key_set(with_selector@) == key_set(conds@).union(key_set(selector@)),
                    entry_flows(out@) == before + case_flow(items@.subrange(0, i as int), key_set(selector@), key_set(conds@)),
                decreases items@.len() - i,
            {
                let item = &items[i];
                let c = match &item.labels {
                    Some(l) => joined(&with_selector, l),
                    None => clone_signals(&with_selector),
                };
                let ghost mid = entry_flows(out@);
                proof {
                    assert(decreases_to!(*s => s->items));
                    assert(decreases_to!(s->items => (s->items)@));
                    assert(decreases_to!((s->items)@ => (s->items)@[i as int]));
                    assert(decreases_to!((s->items)@[i as int] => (s->items)@[i as int].body));
                }
                statement_dataflow(&item.body, &c, out);
                proof {
                    let next = items@.subrange(0, i + 1);
                    assert(next.drop_last() =~= items@.subrange(0, i as int));
                    assert(next.last() == items@[i as int]);
                    assert(entry_flows(out@) =~= before + case_flow(next, key_set(selector@), key_set(conds@)));
                }
                i = i + 1;
            }
            proof {
                assert(items@.subrange(0, items@.len() as int) =~= items@);
            }
        },
        StatementModel::Sequence(body) => {
            let mut i: usize = 0;
            proof {
                assert(body@.subrange(0, 0) =~= Seq::<StatementModel>::empty());
                assert(entry_flows(out@) =~= before + sequence_flow(body@.subrange(0, 0), key_set(conds@)));
            }
            while i < body.len()
                invariant
                    *s == StatementModel::Sequence(*body),
                    i <= body@.len(),
                    entry_flows(out@) == before + sequence_flow(body@.subrange(0, i as int), key_set(conds@)),
                decreases body@.len() - i,
            {
                proof {
                    assert(decreases_to!(*s => s->0));
                    assert(decreases_to!(s->0 => (s->0)@));
                    assert(decreases_to!((s->0)@ => (s->0)@[i as int]));
                }
                statement_dataflow(&body[i], conds, out);
                proof {
                    let next = body@.subrange(0, i + 1);
                    assert(next.drop_last() =~= body@.subrange(0, i as int));
                    assert(next.last() == body@[i as int]);
                    assert(entry_flows(out@) =~= before + sequence_flow(next, key_set(conds@)));
                }
                i = i + 1;
            }
            proof {
                assert(body@.subrange(0, body@.len() as int) =~= body@);
            }
        },
        StatementModel::Other => {
            proof {
                assert(entry_flows(out@) =~= before + statement_flow(*s, key_set(conds@)));
            }
        },
    }
}

/// The dataflow of an always block whose statement is `body`: its
/// assignments, each reading the signals of every condition it stands under.
pub fn always_dataflow(body: &StatementModel) -> (r: Vec<DataflowEntry>)
    ensures
        entry_flows(r@) == statement_flow(*body, Set::<SignalKey>::empty()),
{
    let mut out: Vec<DataflowEntry> = Vec::new();
    let none: Vec<SignalNode> = Vec::new();
    proof {
        assert(key_set(none@) =~= Set::<SignalKey>::empty());
        assert(entry_flows(out@) =~= Seq::<FlowView>::empty());
    }
    statement_dataflow(body, &none, &mut out);
    proof {
        assert(entry_flows(out@) =~= statement_flow(*body, Set::<SignalKey>::empty()));
    }
    out
}

/// The dataflow of a continuous assignment with the assignments
/// `assignments`: one entry for each that writes a signal, reading what its
/// right-hand side reads.
pub fn continuous_assign_dataflow(assignments: &Vec<StatementModel>) -> (r: Vec<DataflowEntry>)
    ensures
        entry_flows(r@) == sequence_flow(assignments@, Set::<SignalKey>::empty()),
{
    let mut out: Vec<DataflowEntry> = Vec::new();
    let none: Vec<SignalNode> = Vec::new();
    let mut i: usize = 0;
    proof {
        assert(key_set(none@) =~= Set::<SignalKey>::empty());
        assert(assignments@.subrange(0, 0) =~= Seq::<StatementModel>::empty());
        assert(entry_flows(out@) =~= Seq::<FlowView>::empty());
    }
    while i < assignments.len()
        invariant
            i <= assignments@.len(),
            key_set(none@) == Set::<SignalKey>::empty(),
            entry_flows(out@) == sequence_flow(assignments@.subrange(0, i as int), Set::<SignalKey>::empty()),
        decreases assignments@.len() - i,
    {
        statement_dataflow(&assignments[i], &none, &mut out);
        proof {
            let next = assignments@.subrange(0, i + 1);
            assert(next.drop_last() =~= assignments@.subrange(0, i as int));
            assert(next.last() == assignments@[i as int]);
        }
        i = i + 1;
    }
    proof {
        assert(assignments@.subrange(0, assignments@.len() as int) =~= assignments@);
    }
    out
}

/// The conditions each assignment of statement `s` that names its line
/// stands under, in order, when `s` itself stands under `gs`: a branch of a
/// conditional under its predicate (the `else` under its negation); a case
/// item under its selector matching one of its labels, the default item
/// under the selector matching none of the labels before it.
pub open spec fn guard_lines(s: StatementModel, gs: Seq<GuardView>) -> Seq<(usize, Seq<GuardView>)>
    decreases s,
{
    match s {
        StatementModel::Assignment { line, .. } => if line != 0 {
            seq![(line, gs)]
        } else {
            Seq::<(usize, Seq<GuardView>)>::empty()
        },
        StatementModel::Conditional { predicate_text, then_branch, else_branch, .. } => guard_lines(
            *then_branch,
            gs.push(GuardView::Predicate(predicate_text@)),
        ) + match else_branch {
            Some(e) => guard_lines(*e, gs.push(GuardView::NotPredicate(predicate_text@))),
            None => Seq::<(usize, Seq<GuardView>)>::empty(),
        },
        StatementModel::Case { selector_text, items, .. } => case_guard_lines(items@, selector_text@, gs),
        StatementModel::Sequence(body) => sequence_guard_lines(body@, gs),
        StatementModel::Other => Seq::<(usize, Seq<GuardView>)>::empty(),
    }
}

pub open spec fn sequence_guard_lines(ss: Seq<StatementModel>, gs: Seq<GuardView>) -> Seq<(usize, Seq<GuardView>)>
    decreases ss,
{
    if ss.len() == 0 {
        Seq::<(usize, Seq<GuardView>)>::empty()
    } else {
        sequence_guard_lines(ss.drop_last(), gs) + guard_lines(ss.last(), gs)
    }
}

/// The label texts of the items `items` that are not the default.
pub open spec fn seen_labels(items: Seq<CaseItemModel>) -> Seq<Seq<char>>
    decreases items.len(),
{
    if items.len() == 0 {
        Seq::<Seq<char>>::empty()
    } else {
        seen_labels(items.drop_last()) + if items.last().labels is Some {
            texts_of(items.last().label_texts@)
        } else {
            Seq::<Seq<char>>::empty()
        }
    }
}

/// The condition case item `item` stands under, after the items `before`.
pub open spec fn item_guard(item: CaseItemModel, selector: Seq<char>, before: Seq<CaseItemModel>) -> GuardView {
    if item.labels is Some {
        GuardView::CaseMatch(selector, texts_of(item.label_texts@))
    } else {
        GuardView::CaseDefault(selector, seen_labels(before))
    }
}

pub open spec fn case_guard_lines(items: Seq<CaseItemModel>, selector: Seq<char>, gs: Seq<GuardView>) -> Seq<(usize, Seq<GuardView>)>
    decreases items,
{
    if items.len() == 0 {
        Seq::<(usize, Seq<GuardView>)>::empty()
    } else {
        case_guard_lines(items.drop_last(), selector, gs) + guard_lines(
            *items.last().body,
            gs.push(item_guard(items.last(), selector, items.drop_last())),
        )
    }
}

pub open spec fn line_guard_views(v: Seq<(usize, Vec<Guard>)>) -> Seq<(usize, Seq<GuardView>)> {
    v.map_values(|e: (usize, Vec<Guard>)| (e.0, guard_views(e.1@)))
}

fn copy_guard(g: &Guard) -> (r: Guard)
    ensures
        r@ == g@,
{
    match g {
        Guard::Predicate(e) => Guard::Predicate(e.clone()),
        Guard::NotPredicate(e) => Guard::NotPredicate(e.clone()),
        Guard::CaseMatch { selector, items } => Guard::CaseMatch { selector: selector.clone(), items: clone_texts(items) },
        Guard::CaseDefault { selector, items } => Guard::CaseDefault { selector: selector.clone(), items: clone_texts(items) },
    }
}

pub(crate) fn copy_guards(gs: &Vec<Guard>) -> (r: Vec<Guard>)
    ensures
        guard_views(r@) == guard_views(gs@),
{
    let mut out: Vec<Guard> = Vec::new();
    let mut i: usize = 0;
    while i < gs.len()
        invariant
            i <= gs@.len(),
            guard_views(out@) == guard_views(gs@.subrange(0, i as int)),
        decreases gs@.len() - i,
    {
        let ghost before = out@;
        out.push(copy_guard(&gs[i]));
        proof {
            assert(guard_views(out@) =~= guard_views(before).push(gs@[i as int]@));
            assert(guard_views(gs@.subrange(0, i + 1)) =~= guard_views(gs@.subrange(0, i as int)).push(gs@[i as int]@));
        }
        i = i + 1;
    }
    proof {
        assert(gs@.subrange(0, gs@.len() as int) =~= gs@);
    }
    out
}

/// Runs `statement_guards` on `s` under `guards` with `g` pushed, then
/// takes `g` off again.
fn guards_under(s: &StatementModel, g: Guard, guards: &mut Vec<Guard>, out: &mut Vec<(usize, Vec<Guard>)>)
    ensures
        guard_views(final(guards)@) == guard_views(old(guards)@),
        line_guard_views(final(out)@) == line_guard_views(old(out)@) + guard_lines(*s, guard_views(old(guards)@).push(g@)),
    decreases s, 1nat,
{
    let ghost before = guard_views(guards@);
    let ghost gv = g@;
    guards.push(g);
    proof {
        assert(guard_views(guards@) =~= before.push(gv));
    }
    statement_guards(s, guards, out);
    let ghost mid = guards@;
    let _ = guards.pop();
    proof {
        assert(guards@ =~= mid.drop_last());
        assert(guard_views(guards@) =~= guard_views(mid).drop_last());
        assert(before.push(gv).drop_last() =~= before);
    }
}

/// Appends to `out`, for each assignment of statement `s` that names its
/// line, that line and the conditions it stands under, when `s` stands under
/// `guards` (see `guard_lines`); `guards` is as it was afterwards.
pub fn statement_guards(s: &StatementModel, guards: &mut Vec<Guard>, out: &mut Vec<(usize, Vec<Guard>)>)
    ensures
        guard_views(final(guards)@) == guard_views(old(guards)@),
        line_guard_views(final(out)@) == line_guard_views(old(out)@) + guard_lines(*s, guard_views(old(guards)@)),
    decreases s, 0nat,
{
    let ghost gs = guard_views(guards@);
    let ghost before = line_guard_views(out@);
    match s {
        StatementModel::Assignment { line, .. } => {
            if *line != 0 {
                let entry = (*line, copy_guards(guards));
                out.push(entry);
                proof {
                    assert(line_guard_views(out@) =~= before.push((*line, gs)));
                }
            }
            proof {
                assert(line_guard_views(out@) =~= before + guard_lines(*s, gs));
            }
        },
        StatementModel::Conditional { predicate_text, then_branch, else_branch, .. } => {
            guards_under(then_branch, Guard::Predicate(predicate_text.clone()), guards, out);
            match else_branch {
                Some(e) => {
                    guards_under(e, Guard::NotPredicate(predicate_text.clone()), guards, out);
                },
                None => {},
            }
            proof {
                assert(line_guard_views(out@) =~= before + guard_lines(*s, gs));
            }
        },
        StatementModel::Case { selector_text, items, .. } => {
            let mut seen: Vec<String> = Vec::new();
            let mut i: usize = 0;
            proof {
                assert(items@.subrange(0, 0) =~= Seq::<CaseItemModel>::empty());
                assert(texts_of(seen@) =~= seen_labels(items@.subrange(0, 0)));
                assert(line_guard_views(out@) =~= before + case_guard_lines(items@.subrange(0, 0), selector_text@, gs));
            }
            while i < items.len()
                invariant
                    *s matches StatementModel::Case { selector_text: st, items: its, .. } && st == *selector_text && its == *items,
                    i <= items@.len(),
                    guard_views(guards@) == gs,
                    texts_of(seen@) == seen_labels(items@.subrange(0, i as int)),
                    line_guard_views(out@) == before + case_guard_lines(items@.subrange(0, i as int), selector_text@, gs),
                decreases items@.len() - i,
            {
                let item = &items[i];
                proof {
                    assert(decreases_to!(*s => s->items));
                    assert(decreases_to!(s->items => (s->items)@));
                    assert(decreases_to!((s->items)@ => (s->items)@[i as int]));
                    assert(decreases_to!((s->items)@[i as int] => (s->items)@[i as int].body));
                }
                let ghost prev = items@.subrange(0, i as int);
                let g = match &item.labels {
                    Some(_) => Guard::CaseMatch { selector: selector_text.clone(), items: clone_texts(&item.label_texts) },
                    None => Guard::CaseDefault { selector: selector_text.clone(), items: clone_texts(&seen) },
                };
                proof {
                    assert(g@ == item_guard(items@[i as int], selector_text@, prev));
                }
                guards_under(&item.body, g, guards, out);
                if item.labels.is_some() {
                    let mut k: usize = 0;
                    let ghost s0 = texts_of(seen@);
                    while k < item.label_texts.len()
                        invariant
                            k <= item.label_texts@.len(),
                            texts_of(seen@) == s0 + texts_of(item.label_texts@).subrange(0, k as int),
                        decreases item.label_texts@.len() - k,
                    {
                        let ghost sb = texts_of(seen@);
                        seen.push(item.label_texts[k].clone());
                        proof {
                            assert(texts_of(seen@) =~= sb.push(item.label_texts@[k as int]@));
                            assert(texts_of(item.label_texts@).subrange(0, k + 1) =~= texts_of(item.label_texts@).subrange(0, k as int).push(
                                item.label_texts@[k as int]@,
                            ));
                        }
                        k = k + 1;
                    }
                    proof {
                        assert(texts_of(item.label_texts@).subrange(0, item.label_texts@.len() as int) =~= texts_of(item.label_texts@));
                    }
                }
                proof {
                    let next = items@.subrange(0, i + 1);
                    assert(next.drop_last() =~= prev);
                    assert(next.last() == items@[i as int]);
                    assert(texts_of(seen@) =~= seen_labels(next));
                    assert(line_guard_views(out@) =~= before + case_guard_lines(next, selector_text@, gs));
                }
                i = i + 1;
            }
            proof {
                assert(items@.subrange(0, items@.len() as int) =~= items@);
            }
        },
        StatementModel::Sequence(body) => {
            let mut i: usize = 0;
            proof {
                assert(body@.subrange(0, 0) =~= Seq::<StatementModel>::empty());
                assert(line_guard_views(out@) =~= before + sequence_guard_lines(body@.subrange(0, 0), gs));
            }
            while i < body.len()
                invariant
                    *s == StatementModel::Sequence(*body),
                    i <= body@.len(),
                    guard_views(guards@) == gs,
                    line_guard_views(out@) == before + sequence_guard_lines(body@.subrange(0, i as int), gs),
                decreases body@.len() - i,
            {
                proof {
                    assert(decreases_to!(*s => s->0));
                    assert(decreases_to!(s->0 => (s->0)@));
                    assert(decreases_to!((s->0)@ => (s->0)@[i as int]));
                }
                statement_guards(&body[i], guards, out);
                proof {
                    let next = body@.subrange(0, i + 1);
                    assert(next.drop_last() =~= body@.subrange(0, i as int));
                    assert(next.last() == body@[i as int]);
                    assert(line_guard_views(out@) =~= before + sequence_guard_lines(next, gs));
                }
                i = i + 1;
            }
            proof {
                assert(body@.subrange(0, body@.len() as int) =~= body@);
            }
        },
        StatementModel::Other => {
            proof {
                assert(line_guard_views(out@) =~= before + guard_lines(*s, gs));
            }
        },
    }
}

} // verus!
