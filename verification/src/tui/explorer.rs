use vstd::prelude::*;

use crate::types::{SignalNode, SignalNodeKind, StableSliceEdgeJson, StableSliceGraphJson, Timestamp};

use super::graph::{
    child_of, clone_bools, clone_path, edges_into, identity_of, identity_views, node_time_of, ordered_children,
    same_identity, snippet_lines, text_opt, ChildEntry, EntryView, GraphIndex, IdentityView, NodeIdentity,
    VisibleRow, entry_views, child_order, is_child_order,
};

verus! {

/// A signal and a time to read from a waveform.
#[derive(Debug)]
pub struct WaveQuery {
    pub signal: SignalNode,
    pub time: Timestamp,
}

/// What a visible row shows.
pub struct RowView {
    pub entry: EntryView,
    pub depth: nat,
    pub parent_has_next: Seq<bool>,
    pub is_last: Option<bool>,
    pub already_shown: bool,
    pub path: Seq<IdentityView>,
}

pub open spec fn row_view(r: VisibleRow) -> RowView {
    RowView {
        entry: r.entry@,
        depth: r.depth as nat,
        parent_has_next: r.parent_has_next@,
        is_last: r.is_last,
        already_shown: r.already_shown,
        path: identity_views(r.path@),
    }
}

pub open spec fn row_views(s: Seq<VisibleRow>) -> Seq<RowView> {
    s.map_values(|r: VisibleRow| row_view(r))
}

/// Every identity a row of the tree can have: the root's, and that of the
/// row each edge leads to.
pub open spec fn candidate_identities(g: StableSliceGraphJson, root: EntryView) -> Seq<IdentityView> {
    seq![identity_of(g, root)] + g.edges@.map_values(|e: StableSliceEdgeJson| identity_of(g, child_of(e)))
}

/// How many of `cands` are not in `seen`.
pub open spec fn unseen_count(cands: Seq<IdentityView>, seen: Set<IdentityView>) -> nat
    decreases cands.len(),
{
    if cands.len() == 0 {
        0
    } else {
        unseen_count(cands.drop_last(), seen) + if seen.contains(cands.last()) {
            0nat
        } else {
            1nat
        }
    }
}

/// The rows shown for `entry` and, below it when its path is expanded, for
/// its children, depth first; `seen` holds the identities shown above, and
/// a row whose identity was shown is marked and not descended into. `fuel`
/// bounds the depth (the number of candidate identities is enough).
pub open spec fn walk_rows(
    g: StableSliceGraphJson,
    ex: Set<Seq<IdentityView>>,
    entry: EntryView,
    depth: nat,
    phn: Seq<bool>,
    is_last: Option<bool>,
    path: Seq<IdentityView>,
    seen: Set<IdentityView>,
    fuel: nat,
) -> (Seq<RowView>, Set<IdentityView>)
    decreases fuel, 0nat, 0int,
{
    let id = identity_of(g, entry);
    let shown = seen.contains(id);
    let row_path = path.push(id);
    let row = RowView { entry, depth, parent_has_next: phn, is_last, already_shown: shown, path: row_path };
    if shown {
        (seq![row], seen)
    } else if !ex.contains(row_path) || fuel == 0 {
        (seq![row], seen.insert(id))
    } else {
        let child_phn = match is_last {
            Some(l) => phn.push(!l),
            None => phn,
        };
        let rest = walk_children(
            g,
            ex,
            ordered_children(g, entry.0),
            0,
            depth + 1,
            child_phn,
            row_path,
            seen.insert(id),
            (fuel - 1) as nat,
        );
        (seq![row] + rest.0, rest.1)
    }
}

/// The rows of `kids[i..]`, one subtree after the other.
pub open spec fn walk_children(
    g: StableSliceGraphJson,
    ex: Set<Seq<IdentityView>>,
    kids: Seq<EntryView>,
    i: int,
    depth: nat,
    phn: Seq<bool>,
    path: Seq<IdentityView>,
    seen: Set<IdentityView>,
    fuel: nat,
) -> (Seq<RowView>, Set<IdentityView>)
    decreases fuel, 1nat, kids.len() - i,
{
    if i < 0 || i >= kids.len() {
        (Seq::<RowView>::empty(), seen)
    } else {
        let first = walk_rows(g, ex, kids[i], depth, phn, Some(i == kids.len() - 1), path, seen, fuel);
        let rest = walk_children(g, ex, kids, i + 1, depth, phn, path, first.1, fuel);
        (first.0 + rest.0, rest.1)
    }
}

/// The rows of the tree rooted at `root` with the expanded paths `ex`.
pub open spec fn visible_rows_of(g: StableSliceGraphJson, root: EntryView, ex: Set<Seq<IdentityView>>) -> Seq<
    RowView,
> {
    walk_rows(
        g,
        ex,
        root,
        0,
        Seq::<bool>::empty(),
        None,
        Seq::<IdentityView>::empty(),
        Set::<IdentityView>::empty(),
        candidate_identities(g, root).len(),
    ).0
}

/// The state of the tree explorer.
pub struct ExplorerView {
    pub graph: StableSliceGraphJson,
    pub root: EntryView,
    pub expanded: Set<Seq<IdentityView>>,
    pub selected: usize,
    pub scroll: usize,
}

pub open spec fn visible_of(v: ExplorerView) -> Seq<RowView> {
    visible_rows_of(v.graph, v.root, v.expanded)
}

/// `n.saturating_sub(1)` when `sel` is past the last of `n` rows.
pub open spec fn clamped(sel: usize, n: nat) -> usize {
    if sel >= n {
        if n == 0 {
            0
        } else {
            (n - 1) as usize
        }
    } else {
        sel
    }
}

/// The state after the rows are listed: the selection kept on a row.
pub open spec fn refreshed(v: ExplorerView) -> ExplorerView {
    ExplorerView { selected: clamped(v.selected, visible_of(v).len()), ..v }
}

/// The row under the selection, once the selection is kept on a row.
pub open spec fn selected_of(v: ExplorerView) -> RowView {
    visible_of(v)[refreshed(v).selected as int]
}

pub open spec fn clamp_int(x: int, lo: int, hi: int) -> int {
    if x < lo {
        lo
    } else if x > hi {
        hi
    } else {
        x
    }
}

pub open spec fn sat_sub(a: nat, b: nat) -> nat {
    if a >= b {
        (a - b) as nat
    } else {
        0
    }
}

/// How far the code of the selected row can scroll when `visible` lines fit.
pub open spec fn max_scroll_of(v: ExplorerView, visible: usize) -> nat {
    sat_sub(
        snippet_lines(v.graph, selected_of(v).entry.0).len(),
        if visible >= 1 {
            visible as nat
        } else {
            1
        },
    )
}

/// Whether a row can be expanded: it is not a repeat, not expanded yet, and
/// has children.
pub open spec fn can_expand_row(v: ExplorerView, row: RowView) -> bool {
    !row.already_shown && !v.expanded.contains(row.path) && edges_into(v.graph.edges@, row.entry.0).len() > 0
}

/// The view after moving the selection by `delta` rows, kept on the rows;
/// the code scroll restarts when the selection changes.
pub open spec fn after_move(old: ExplorerView, delta: int) -> ExplorerView {
    let v = refreshed(old);
    let next = clamp_int(v.selected + delta, 0, visible_of(v).len() - 1) as usize;
    ExplorerView {
        selected: next,
        scroll: if next != v.selected {
            0
        } else {
            v.scroll
        },
        ..v
    }
}

/// The view after expanding the selected row, when it can be expanded.
pub open spec fn after_expand(old: ExplorerView) -> ExplorerView {
    let v = refreshed(old);
    let row = selected_of(old);
    if can_expand_row(v, row) {
        ExplorerView { expanded: v.expanded.insert(row.path), ..v }
    } else {
        v
    }
}

/// The view after collapsing the selected row when it is expanded, or else
/// selecting its parent row.
pub open spec fn after_collapse(old: ExplorerView) -> ExplorerView {
    let v = refreshed(old);
    let row = selected_of(old);
    let rows = visible_of(v);
    let parent = row.path.drop_last();
    if v.expanded.contains(row.path) {
        ExplorerView { expanded: v.expanded.remove(row.path), ..v }
    } else if row.path.len() <= 1 {
        v
    } else {
        match first_with_path(rows, parent) {
            Some(k) => ExplorerView { selected: k as usize, scroll: 0, ..v },
            None => v,
        }
    }
}

/// The view after scrolling the code by `delta` lines, kept within the
/// selected row's lines when `visible` lines fit.
pub open spec fn after_scroll(old: ExplorerView, delta: int, visible: nat) -> ExplorerView {
    let v = refreshed(old);
    ExplorerView { scroll: clamp_int(v.scroll + delta, 0, max_scroll_of(old, visible as usize) as int) as usize, ..v }
}

/// The view with nothing expanded, the root selected and the code at its top.
pub open spec fn after_reset(old: ExplorerView) -> ExplorerView {
    ExplorerView { expanded: Set::empty(), selected: 0, scroll: 0, ..old }
}

/// The first row whose path is `p`.
pub open spec fn first_with_path(rows: Seq<RowView>, p: Seq<IdentityView>) -> Option<nat>
    decreases rows.len(),
{
    if rows.len() == 0 {
        None
    } else if rows[0].path == p {
        Some(0)
    } else {
        match first_with_path(rows.drop_first(), p) {
            Some(k) => Some(k + 1),
            None => None,
        }
    }
}

proof fn lemma_first_with_path(rows: Seq<RowView>, p: Seq<IdentityView>)
    ensures
        match first_with_path(rows, p) {
            Some(k) => k < rows.len() && rows[k as int].path == p && forall|j: int| 0 <= j < k ==> rows[j].path != p,
            None => forall|j: int| 0 <= j < rows.len() ==> rows[j].path != p,
        },
    decreases rows.len(),
{
    if rows.len() > 0 {
        lemma_first_with_path(rows.drop_first(), p);
        if rows[0].path != p {
            match first_with_path(rows.drop_first(), p) {
                Some(k) => {
                    assert forall|j: int| 0 <= j < k + 1 implies rows[j].path != p by {
                        if j > 0 {
                            assert(rows[j] == rows.drop_first()[j - 1]);
                        }
                    }
                },
                None => {
                    assert forall|j: int| 0 <= j < rows.len() implies rows[j].path != p by {
                        if j > 0 {
                            assert(rows[j] == rows.drop_first()[j - 1]);
                        }
                    }
                },
            }
        }
    }
}

/// The identities in `v`.
pub open spec fn seen_set(v: Seq<NodeIdentity>) -> Set<IdentityView> {
    Set::new(|x: IdentityView| exists|i: int| 0 <= i < v.len() && #[trigger] v[i]@ == x)
}

/// The paths in `v`.
pub open spec fn path_set(v: Seq<Vec<NodeIdentity>>) -> Set<Seq<IdentityView>> {
    Set::new(|p: Seq<IdentityView>| exists|i: int| 0 <= i < v.len() && #[trigger] identity_views(v[i]@) == p)
}

proof fn lemma_unseen_bound(cands: Seq<IdentityView>, seen: Set<IdentityView>)
    ensures
        unseen_count(cands, seen) <= cands.len(),
    decreases cands.len(),
{
    if cands.len() > 0 {
        lemma_unseen_bound(cands.drop_last(), seen);
    }
}

proof fn lemma_unseen_mono(cands: Seq<IdentityView>, a: Set<IdentityView>, b: Set<IdentityView>)
    requires
        a.subset_of(b),
    ensures
        unseen_count(cands, b) <= unseen_count(cands, a),
    decreases cands.len(),
{
    if cands.len() > 0 {
        lemma_unseen_mono(cands.drop_last(), a, b);
    }
}

proof fn lemma_unseen_insert(cands: Seq<IdentityView>, seen: Set<IdentityView>, x: IdentityView)
    requires
        cands.contains(x),
        !seen.contains(x),
    ensures
        unseen_count(cands, seen.insert(x)) < unseen_count(cands, seen),
    decreases cands.len(),
{
    if cands.last() == x {
        lemma_unseen_mono(cands.drop_last(), seen, seen.insert(x));
    } else {
        let i = choose|i: int| 0 <= i < cands.len() && cands[i] == x;
        assert(cands.drop_last()[i] == x);
        lemma_unseen_insert(cands.drop_last(), seen, x);
    }
}

/// An edge into `to` is one of the graph's edges.
proof fn lemma_edges_into_member(edges: Seq<StableSliceEdgeJson>, to: usize, k: int)
    requires
        0 <= k < edges_into(edges, to).len(),
    ensures
        exists|j: int| 0 <= j < edges.len() && edges[j] == #[trigger] edges_into(edges, to)[k],
    decreases edges.len(),
{
    if edges.len() > 0 {
        let rest = edges_into(edges.drop_last(), to);
        if edges.last().to == to && k == rest.len() {
            assert(edges[edges.len() - 1] == edges_into(edges, to)[k]);
        } else {
            lemma_edges_into_member(edges.drop_last(), to, k);
            let j = choose|j: int| 0 <= j < edges.drop_last().len() && edges.drop_last()[j] == rest[k];
            assert(edges[j] == edges_into(edges, to)[k]);
        }
    }
}

/// The rows under any node have identities among the candidates.
proof fn lemma_children_are_candidates(g: StableSliceGraphJson, root: EntryView, to: usize)
    requires
        is_child_order(g, to, child_order(g, to)),
    ensures
        forall|i: int|
            0 <= i < ordered_children(g, to).len() ==> candidate_identities(g, root).contains(
                identity_of(g, #[trigger] ordered_children(g, to)[i]),
            ),
{
    let es = edges_into(g.edges@, to);
    let kids = ordered_children(g, to);
    let perm = child_order(g, to);
    let cands = candidate_identities(g, root);
    assert forall|i: int| 0 <= i < kids.len() implies cands.contains(identity_of(g, #[trigger] kids[i])) by {
        assert(perm[i] < es.len());
        lemma_edges_into_member(g.edges@, to, perm[i] as int);
        let j = choose|j: int| 0 <= j < g.edges@.len() && g.edges@[j] == #[trigger] es[perm[i] as int];
        assert(cands[j + 1] == identity_of(g, child_of(g.edges@[j])));
        assert(kids[i] == child_of(es[perm[i] as int]));
    }
}

proof fn lemma_walk_rows_first(
    g: StableSliceGraphJson,
    ex: Set<Seq<IdentityView>>,
    entry: EntryView,
    depth: nat,
    phn: Seq<bool>,
    is_last: Option<bool>,
    path: Seq<IdentityView>,
    seen: Set<IdentityView>,
    fuel: nat,
)
    ensures
        walk_rows(g, ex, entry, depth, phn, is_last, path, seen, fuel).0.len() >= 1,
        walk_rows(g, ex, entry, depth, phn, is_last, path, seen, fuel).0[0].entry == entry,
{
}

/// The state of the tree explorer: the graph, the root row, the expanded
/// paths, the selected row and how far its code is scrolled.
pub struct ExplorerState {
    index: GraphIndex,
    root: ChildEntry,
    expanded_paths: Vec<Vec<NodeIdentity>>,
    selected_index: usize,
    code_scroll: usize,
}

struct WalkCursor {
    entry: ChildEntry,
    depth: usize,
    parent_has_next: Vec<bool>,
    is_last: Option<bool>,
    path: Vec<NodeIdentity>,
}

impl View for ExplorerState {
    type V = ExplorerView;

    closed spec fn view(&self) -> ExplorerView {
        ExplorerView {
            graph: self.index.spec_graph(),
            root: self.root@,
            expanded: path_set(self.expanded_paths@),
            selected: self.selected_index,
            scroll: self.code_scroll,
        }
    }
}

/// Whether `seen` holds `x`.
fn contains_identity(seen: &Vec<NodeIdentity>, x: &NodeIdentity) -> (r: bool)
    ensures
        r == seen_set(seen@).contains(x@),
{
    let mut i: usize = 0;
    while i < seen.len()
        invariant
            i <= seen@.len(),
            forall|j: int| 0 <= j < i ==> seen@[j]@ != x@,
        decreases seen@.len() - i,
    {
        if same_identity(&seen[i], x) {
            proof {
                assert(seen_set(seen@).contains(x@));
            }
            return true;
        }
        i = i + 1;
    }
    false
}

/// Whether two paths are the same.
fn same_path(a: &Vec<NodeIdentity>, b: &Vec<NodeIdentity>) -> (r: bool)
    ensures
        r == (identity_views(a@) == identity_views(b@)),
{
    if a.len() != b.len() {
        proof {
            assert(identity_views(a@).len() != identity_views(b@).len());
        }
        return false;
    }
    let mut i: usize = 0;
    while i < a.len()
        invariant
            a@.len() == b@.len(),
            i <= a@.len(),
            forall|j: int| 0 <= j < i ==> a@[j]@ == b@[j]@,
        decreases a@.len() - i,
    {
        if !same_identity(&a[i], &b[i]) {
            proof {
                assert(identity_views(a@)[i as int] != identity_views(b@)[i as int]);
            }
            return false;
        }
        i = i + 1;
    }
    proof {
        assert(identity_views(a@) =~= identity_views(b@));
    }
    true
}

/// Whether `paths` holds `p`.
fn contains_path(paths: &Vec<Vec<NodeIdentity>>, p: &Vec<NodeIdentity>) -> (r: bool)
    ensures
        r == path_set(paths@).contains(identity_views(p@)),
{
    let mut i: usize = 0;
    while i < paths.len()
        invariant
            i <= paths@.len(),
            forall|j: int| 0 <= j < i ==> identity_views(paths@[j]@) != identity_views(p@),
        decreases paths@.len() - i,
    {
        if same_path(&paths[i], p) {
            proof {
                assert(path_set(paths@).contains(identity_views(p@)));
            }
            return true;
        }
        i = i + 1;
    }
    false
}

/// `paths` without `p`, and whether `p` was there.
fn remove_path(paths: &Vec<Vec<NodeIdentity>>, p: &Vec<NodeIdentity>) -> (r: (Vec<Vec<NodeIdentity>>, bool))
    ensures
        path_set(r.0@) == path_set(paths@).remove(identity_views(p@)),
        r.1 == path_set(paths@).contains(identity_views(p@)),
{
    let mut out: Vec<Vec<NodeIdentity>> = Vec::new();
    let mut removed = false;
    let mut i: usize = 0;
    while i < paths.len()
        invariant
            i <= paths@.len(),
            path_set(out@) == path_set(paths@.subrange(0, i as int)).remove(identity_views(p@)),
            removed == path_set(paths@.subrange(0, i as int)).contains(identity_views(p@)),
        decreases paths@.len() - i,
    {
        let ghost before = out@;
        let ghost q = identity_views(paths@[i as int]@);
        proof {
            assert forall|x: Seq<IdentityView>| #[trigger] path_set(paths@.subrange(0, i + 1)).contains(x) <==> (
            path_set(paths@.subrange(0, i as int)).contains(x) || x == q) by {
                if path_set(paths@.subrange(0, i + 1)).contains(x) {
                    let j = choose|j: int| 0 <= j < i + 1 && #[trigger] identity_views(paths@.subrange(0, i + 1)[j]@) == x;
                    if j < i {
                        assert(identity_views(paths@.subrange(0, i as int)[j]@) == x);
                    }
                }
                if path_set(paths@.subrange(0, i as int)).contains(x) {
                    let j = choose|j: int| 0 <= j < i && #[trigger] identity_views(paths@.subrange(0, i as int)[j]@) == x;
                    assert(identity_views(paths@.subrange(0, i + 1)[j]@) == x);
                }
                if x == q {
                    assert(identity_views(paths@.subrange(0, i + 1)[i as int]@) == x);
                }
            }
        }
        if same_path(&paths[i], p) {
            removed = true;
            proof {
                assert(path_set(out@) =~= path_set(paths@.subrange(0, i + 1)).remove(identity_views(p@)));
            }
        } else {
            out.push(clone_path(&paths[i]));
            proof {
                assert forall|x: Seq<IdentityView>| #[trigger] path_set(out@).contains(x) <==> (
                path_set(before).contains(x) || x == q) by {
                    if path_set(out@).contains(x) {
                        let j = choose|j: int| 0 <= j < out@.len() && #[trigger] identity_views(out@[j]@) == x;
                        if j < before.len() {
                            assert(identity_views(before[j]@) == x);
                        }
                    }
                    if path_set(before).contains(x) {
                        let j = choose|j: int| 0 <= j < before.len() && #[trigger] identity_views(before[j]@) == x;
                        assert(identity_views(out@[j]@) == x);
                    }
                    if x == q {
                        assert(identity_views(out@[before.len() as int]@) == x);
                    }
                }
                assert(path_set(out@) =~= path_set(paths@.subrange(0, i + 1)).remove(identity_views(p@)));
            }
        }
        i = i + 1;
    }
    proof {
        assert(paths@.subrange(0, paths@.len() as int) =~= paths@);
    }
    (out, removed)
}

impl ExplorerState {
    /// A collapsed tree rooted at node `root_id`, reached through `root_signal`.
    pub fn new(index: GraphIndex, root_id: usize, root_signal: Option<String>) -> (r: Self)
        ensures
            r@ == (ExplorerView {
                graph: index.spec_graph(),
                root: (root_id, text_opt(root_signal)),
                expanded: Set::empty(),
                selected: 0,
                scroll: 0,
            }),
    {
        let r = ExplorerState {
            index,
            root: ChildEntry { node_id: root_id, incoming_signal: root_signal },
            expanded_paths: Vec::new(),
            selected_index: 0,
            code_scroll: 0,
        };
        proof {
            assert(path_set(r.expanded_paths@) =~= Set::empty());
        }
        r
    }

    pub fn index(&self) -> (r: &GraphIndex)
        ensures
            r.spec_graph() == self@.graph,
    {
        &self.index
    }

    pub fn selected_index(&self) -> (r: usize)
        ensures
            r == self@.selected,
    {
        self.selected_index
    }

    pub fn code_scroll(&self) -> (r: usize)
        ensures
            r == self@.scroll,
    {
        self.code_scroll
    }

    /// Appends the rows of `cursor`'s subtree to `rows`.
    fn walk_visible(
        &self,
        cursor: WalkCursor,
        seen: &mut Vec<NodeIdentity>,
        rows: &mut Vec<VisibleRow>,
        Ghost(fuel): Ghost<nat>,
    )
        requires
            cursor.depth <= old(seen)@.len(),
            candidate_identities(self@.graph, self@.root).contains(identity_of(self@.graph, cursor.entry@)),
            fuel >= unseen_count(candidate_identities(self@.graph, self@.root), seen_set(old(seen)@)),
        ensures
            ({
                let w = walk_rows(
                    self@.graph,
                    self@.expanded,
                    cursor.entry@,
                    cursor.depth as nat,
                    cursor.parent_has_next@,
                    cursor.is_last,
                    identity_views(cursor.path@),
                    seen_set(old(seen)@),
                    fuel,
                );
                row_views(final(rows)@) == row_views(old(rows)@) + w.0 && seen_set(final(seen)@) == w.1
            }),
            final(seen)@.len() >= old(seen)@.len(),
            seen_set(old(seen)@).subset_of(seen_set(final(seen)@)),
        decreases fuel,
    {
        let ghost g = self@.graph;
        let ghost ex = self@.expanded;
        let ghost cands = candidate_identities(g, self@.root);
        let ghost s0 = seen_set(seen@);
        let ghost rows0 = row_views(rows@);
        let identity = self.index.identity(&cursor.entry);
        let already_shown = contains_identity(seen, &identity);
        let ghost path0 = identity_views(cursor.path@);
        let mut row_path = cursor.path;
        row_path.push(identity.clone());
        proof {
            assert(identity_views(row_path@) =~= path0.push(identity@));
        }
        let row = VisibleRow {
            entry: cursor.entry.clone(),
            depth: cursor.depth,
            parent_has_next: clone_bools(&cursor.parent_has_next),
            is_last: cursor.is_last,
            already_shown,
            path: clone_path(&row_path),
        };
        let ghost rv = row_view(row);
        rows.push(row);
        proof {
            assert(row_views(rows@) =~= rows0 + seq![rv]);
        }
        if already_shown {
            proof {
                assert(row_views(rows@) =~= rows0 + walk_rows(g, ex, cursor.entry@, cursor.depth as nat, cursor.parent_has_next@, cursor.is_last, path0, s0, fuel).0);
            }
            return;
        }
        let ghost seen_before = seen@;
        seen.push(identity);
        proof {
            assert(seen_set(seen@) =~= s0.insert(identity_of(g, cursor.entry@))) by {
                assert forall|x: IdentityView| #[trigger] seen_set(seen@).contains(x) <==> s0.insert(
                    identity_of(g, cursor.entry@),
                ).contains(x) by {
                    if seen_set(seen@).contains(x) {
                        let j = choose|j: int| 0 <= j < seen@.len() && #[trigger] seen@[j]@ == x;
                        if j < seen_before.len() {
                            assert(seen_before[j]@ == x);
                        }
                    }
                    if s0.contains(x) {
                        let j = choose|j: int| 0 <= j < seen_before.len() && #[trigger] seen_before[j]@ == x;
                        assert(seen@[j]@ == x);
                    }
                    if x == identity_of(g, cursor.entry@) {
                        assert(seen@[seen_before.len() as int]@ == x);
                    }
                }
            }
        }
        if !contains_path(&self.expanded_paths, &row_path) {
            proof {
                assert(row_views(rows@) =~= rows0 + walk_rows(g, ex, cursor.entry@, cursor.depth as nat, cursor.parent_has_next@, cursor.is_last, path0, s0, fuel).0);
            }
            return;
        }
        proof {
            lemma_unseen_insert(cands, s0, identity_of(g, cursor.entry@));
        }
        let mut child_phn = cursor.parent_has_next;
        match cursor.is_last {
            Some(l) => child_phn.push(!l),
            None => {},
        }
        let children = self.index.children(cursor.entry.node_id);
        let ghost kids = ordered_children(g, cursor.entry@.0);
        proof {
            lemma_children_are_candidates(g, self@.root, cursor.entry@.0);
        }
        let ghost rp = identity_views(row_path@);
        let ghost s1 = seen_set(seen@);
        let ghost base = row_views(rows@);
        let ghost sub_fuel: nat = (fuel - 1) as nat;
        let ghost whole = walk_children(g, ex, kids, 0, cursor.depth as nat + 1, child_phn@, rp, s1, sub_fuel);
        let child_count = children.len();
        let mut idx: usize = 0;
        while idx < child_count
            invariant
                g == self@.graph,
                ex == self@.expanded,
                cands == candidate_identities(g, self@.root),
                entry_views(children@) == kids,
                rp == identity_views(row_path@),
                child_count == children@.len(),
                idx <= child_count,
                forall|i: int| 0 <= i < kids.len() ==> cands.contains(identity_of(g, #[trigger] kids[i])),
                cursor.depth < seen@.len(),
                seen@.len() >= seen_before.len() + 1,
                sub_fuel + 1 == fuel,
                sub_fuel >= unseen_count(cands, seen_set(seen@)),
                s1.subset_of(seen_set(seen@)),
                row_views(rows@).len() >= base.len(),
                row_views(rows@).subrange(0, base.len() as int) == base,
                whole.0 == row_views(rows@).subrange(base.len() as int, row_views(rows@).len() as int) + walk_children(
                    g,
                    ex,
                    kids,
                    idx as int,
                    cursor.depth as nat + 1,
                    child_phn@,
                    rp,
                    seen_set(seen@),
                    sub_fuel,
                ).0,
                whole.1 == walk_children(
                    g,
                    ex,
                    kids,
                    idx as int,
                    cursor.depth as nat + 1,
                    child_phn@,
                    rp,
                    seen_set(seen@),
                    sub_fuel,
                ).1,
            decreases child_count - idx,
        {
            let ghost seen_now = seen_set(seen@);
            let ghost rows_now = row_views(rows@);
            let seen_len = seen.len();
            let child = WalkCursor {
                entry: children[idx].clone(),
                depth: cursor.depth + 1,
                parent_has_next: clone_bools(&child_phn),
                is_last: Some(idx == child_count - 1),
                path: clone_path(&row_path),
            };
            let ghost first = walk_rows(g, ex, kids[idx as int], cursor.depth as nat + 1, child_phn@, Some(idx as int == kids.len() - 1), rp, seen_now, sub_fuel);
            proof {
                assert(child.entry@ == kids[idx as int]);
                assert(child.depth as nat == cursor.depth as nat + 1);
                assert(child.parent_has_next@ == child_phn@);
                assert(child.is_last == Some(idx as int == kids.len() - 1));
                assert(identity_views(child.path@) == rp);
                assert(first == walk_rows(g, ex, child.entry@, child.depth as nat, child.parent_has_next@, child.is_last, identity_views(child.path@), seen_now, sub_fuel));
            }
            self.walk_visible(child, seen, rows, Ghost(sub_fuel));
            proof {
                assert(row_views(rows@) == rows_now + first.0);
                assert(row_views(rows@).subrange(0, base.len() as int) =~= base) by {
                    assert(rows_now.subrange(0, base.len() as int) == base);
                }
                assert(row_views(rows@).subrange(base.len() as int, row_views(rows@).len() as int) =~= rows_now.subrange(
                    base.len() as int,
                    rows_now.len() as int,
                ) + first.0);
                lemma_unseen_mono(cands, seen_now, seen_set(seen@));
            }
            idx = idx + 1;
        }
        proof {
            assert(row_views(rows@) =~= base + whole.0) by {
                assert(row_views(rows@) =~= row_views(rows@).subrange(0, base.len() as int) + row_views(rows@).subrange(
                    base.len() as int,
                    row_views(rows@).len() as int,
                ));
            }
            assert(row_views(rows@) =~= rows0 + walk_rows(g, ex, cursor.entry@, cursor.depth as nat, cursor.parent_has_next@, cursor.is_last, path0, s0, fuel).0);
        }
    }

    /// The rows of the tree as shown; keeps the selection on a row.
    pub fn visible_rows(&mut self) -> (r: Vec<VisibleRow>)
        ensures
            row_views(r@) == visible_of(old(self)@),
            final(self)@ == refreshed(old(self)@),
    {
        let mut rows: Vec<VisibleRow> = Vec::new();
        let mut seen: Vec<NodeIdentity> = Vec::new();
        let ghost g = self@.graph;
        let ghost cands = candidate_identities(g, self@.root);
        proof {
            lemma_unseen_bound(cands, seen_set(seen@));
            assert(cands[0] == identity_of(g, self@.root));
            assert(seen_set(seen@) =~= Set::<IdentityView>::empty());
            assert(row_views(rows@) =~= Seq::<RowView>::empty());
        }
        let cursor = WalkCursor {
            entry: self.root.clone(),
            depth: 0,
            parent_has_next: Vec::new(),
            is_last: None,
            path: Vec::new(),
        };
        proof {
            assert(cursor.parent_has_next@ =~= Seq::<bool>::empty());
            assert(identity_views(cursor.path@) =~= Seq::<IdentityView>::empty());
        }
        self.walk_visible(cursor, &mut seen, &mut rows, Ghost(cands.len()));
        proof {
            assert(row_views(rows@) =~= visible_of(self@));
            lemma_walk_rows_first(g, self@.expanded, self@.root, 0, Seq::<bool>::empty(), None, Seq::<IdentityView>::empty(), Set::<IdentityView>::empty(), cands.len());
        }
        if self.selected_index >= rows.len() {
            self.selected_index = if rows.len() == 0 {
                0
            } else {
                rows.len() - 1
            };
        }
        rows
    }

    /// The selected row.
    pub fn selected_row(&mut self) -> (r: VisibleRow)
        ensures
            final(self)@ == refreshed(old(self)@),
            row_view(r) == selected_of(old(self)@),
    {
        let rows = self.visible_rows();
        proof {
            lemma_walk_rows_first(self@.graph, self@.expanded, self@.root, 0, Seq::<bool>::empty(), None, Seq::<IdentityView>::empty(), Set::<IdentityView>::empty(), candidate_identities(self@.graph, self@.root).len());
            assert(row_views(rows@)[self.selected_index as int] == row_view(rows@[self.selected_index as int]));
        }
        let r = rows[self.selected_index].clone();
        proof {
            assert(row_view(r) =~= row_view(rows@[self.selected_index as int]));
        }
        r
    }

    /// Moves the selection by `delta` rows, staying on the rows; the code
    /// scroll restarts when the selection changes.
    pub fn move_selection(&mut self, delta: isize)
        ensures
            final(self)@ == after_move(old(self)@, delta as int),
    {
        let rows = self.visible_rows();
        proof {
            lemma_walk_rows_first(self@.graph, self@.expanded, self@.root, 0, Seq::<bool>::empty(), None, Seq::<IdentityView>::empty(), Set::<IdentityView>::empty(), candidate_identities(self@.graph, self@.root).len());
        }
        let last_index: i128 = if rows.len() == 0 {
            0
        } else {
            (rows.len() - 1) as i128
        };
        let wanted: i128 = self.selected_index as i128 + delta as i128;
        let next_wide: i128 = if wanted < 0 {
            0
        } else if wanted > last_index {
            last_index
        } else {
            wanted
        };
        let next = next_wide as usize;
        if next != self.selected_index {
            self.code_scroll = 0;
        }
        self.selected_index = next;
    }

    /// Whether `row` can be expanded.
    pub fn can_expand(&self, row: &VisibleRow) -> (r: bool)
        ensures
            r == can_expand_row(self@, row_view(*row)),
    {
        !row.already_shown && !contains_path(&self.expanded_paths, &row.path) && self.index.has_children(&row.entry)
    }

    /// Expands the selected row when it can be expanded.
    pub fn expand_selected(&mut self)
        ensures
            final(self)@ == after_expand(old(self)@),
    {
        let row = self.selected_row();
        if self.can_expand(&row) {
            let ghost before = self.expanded_paths@;
            let p = clone_path(&row.path);
            self.expanded_paths.push(p);
            proof {
                assert(path_set(self.expanded_paths@) =~= path_set(before).insert(identity_views(row.path@))) by {
                    assert forall|x: Seq<IdentityView>| #[trigger] path_set(self.expanded_paths@).contains(x) <==> path_set(
                        before,
                    ).insert(identity_views(row.path@)).contains(x) by {
                        if path_set(self.expanded_paths@).contains(x) {
                            let j = choose|j: int| 0 <= j < self.expanded_paths@.len() && #[trigger] identity_views(self.expanded_paths@[j]@) == x;
                            if j < before.len() {
                                assert(identity_views(before[j]@) == x);
                            }
                        }
                        if path_set(before).contains(x) {
                            let j = choose|j: int| 0 <= j < before.len() && #[trigger] identity_views(before[j]@) == x;
                            assert(identity_views(self.expanded_paths@[j]@) == x);
                        }
                        if x == identity_views(row.path@) {
                            assert(identity_views(self.expanded_paths@[before.len() as int]@) == x);
                        }
                    }
                }
            }
        }
    }

    /// Collapses the selected row when it is expanded; otherwise selects its
    /// parent row.
    pub fn collapse_or_parent(&mut self)
        ensures
            final(self)@ == after_collapse(old(self)@),
    {
        let row = self.selected_row();
        let ghost ex0 = self@.expanded;
        let (rest, removed) = remove_path(&self.expanded_paths, &row.path);
        if removed {
            self.expanded_paths = rest;
            return;
        }
        self.expanded_paths = rest;
        proof {
            assert(path_set(self.expanded_paths@) =~= ex0);
        }
        let n = row.path.len();
        if n <= 1 {
            return;
        }
        let parent = slice_path(&row.path, n - 1);
        let ghost v = refreshed(old(self)@);
        let ghost want = selected_of(old(self)@).path.drop_last();
        proof {
            assert(identity_views(parent@) =~= want);
            assert(self@ == v);
            lemma_walk_rows_first(v.graph, v.expanded, v.root, 0, Seq::<bool>::empty(), None, Seq::<IdentityView>::empty(), Set::<IdentityView>::empty(), candidate_identities(v.graph, v.root).len());
        }
        let rows = self.visible_rows();
        let ghost rv = row_views(rows@);
        proof {
            assert(rv == visible_of(v));
            assert(self@ == v);
        }
        let mut i: usize = 0;
        while i < rows.len()
            invariant
                rv == row_views(rows@),
                rv == visible_of(v),
                want == identity_views(parent@),
                v == refreshed(old(self)@),
                want == selected_of(old(self)@).path.drop_last(),
                !v.expanded.contains(selected_of(old(self)@).path),
                selected_of(old(self)@).path.len() > 1,
                self@ == v,
                i <= rows@.len(),
                forall|j: int| 0 <= j < i ==> visible_of(v)[j].path != want,
            decreases rows@.len() - i,
        {
            if same_path(&rows[i].path, &parent) {
                proof {
                    lemma_first_with_path(visible_of(v), want);
                    assert(rv[i as int].path == want);
                    match first_with_path(visible_of(v), want) {
                        Some(k) => {
                            if k < i {
                                assert(visible_of(v)[k as int].path != want);
                            }
                            if k > i {
                                assert(visible_of(v)[i as int].path != want);
                            }
                        },
                        None => {
                            assert(visible_of(v)[i as int].path != want);
                        },
                    }
                }
                self.selected_index = i;
                self.code_scroll = 0;
                return;
            }
            proof {
                assert(rv[i as int].path != want);
            }
            i = i + 1;
        }
        proof {
            lemma_first_with_path(visible_of(v), want);
            if first_with_path(visible_of(v), want) is Some {
                let k = first_with_path(visible_of(v), want)->0;
                assert(visible_of(v)[k as int].path != want);
            }
        }
    }

    /// Scrolls the code of the selected row by `delta` lines, staying within
    /// its lines.
    pub fn scroll_code(&mut self, delta: isize, visible_line_count: usize)
        ensures
            final(self)@ == after_scroll(old(self)@, delta as int, visible_line_count as nat),
    {
        let max_scroll = self.max_code_scroll(visible_line_count);
        let wanted: i128 = self.code_scroll as i128 + delta as i128;
        let next: i128 = if wanted < 0 {
            0
        } else if wanted > max_scroll as i128 {
            max_scroll as i128
        } else {
            wanted
        };
        self.code_scroll = next as usize;
    }

    /// Keeps the code scroll within the selected row's lines.
    pub fn clamp_code_scroll(&mut self, visible_line_count: usize)
        ensures
            ({
                let v = refreshed(old(self)@);
                let m = max_scroll_of(old(self)@, visible_line_count);
                final(self)@ == (ExplorerView {
                    scroll: if v.scroll <= m {
                        v.scroll
                    } else {
                        m as usize
                    },
                    ..v
                })
            }),
    {
        let m = self.max_code_scroll(visible_line_count);
        if m < self.code_scroll {
            self.code_scroll = m;
        }
    }

    /// How far the selected row's code can scroll.
    pub fn max_code_scroll(&mut self, visible_line_count: usize) -> (r: usize)
        ensures
            final(self)@ == refreshed(old(self)@),
            r == max_scroll_of(old(self)@, visible_line_count),
    {
        let selected = self.selected_row();
        let lines = self.index.code_snippet_lines(&selected.entry);
        let line_count = lines.len();
        proof {
            assert(crate::error::string_views(lines@).len() == lines@.len());
        }
        let shown = if visible_line_count >= 1 {
            visible_line_count
        } else {
            1
        };
        if line_count >= shown {
            line_count - shown
        } else {
            0
        }
    }

    /// Collapses everything and selects the root.
    pub fn reset(&mut self)
        ensures
            final(self)@ == after_reset(old(self)@),
    {
        self.expanded_paths = Vec::new();
        self.selected_index = 0;
        self.code_scroll = 0;
        proof {
            assert(path_set(self.expanded_paths@) =~= Set::empty());
        }
    }

    /// The signal the selected row was reached through, at the time of its
    /// node.
    pub fn selected_wave_query(&mut self) -> (r: Option<WaveQuery>)
        ensures
            final(self)@ == refreshed(old(self)@),
            ({
                let row = selected_of(old(self)@);
                match r {
                    Some(q) => match row.entry.1 {
                        Some(sig) => node_time_of(old(self)@.graph, row.entry.0) == Some(q.time) && q.signal@ == (
                        SignalNodeKind::Variable, sig),
                        None => false,
                    },
                    None => row.entry.1 is None || node_time_of(old(self)@.graph, row.entry.0) is None,
                }
            }),
    {
        let row = self.selected_row();
        let signal = match row.entry.incoming_signal {
            Some(s) => s,
            None => {
                return None;
            },
        };
        let time = match self.index.node_time(row.entry.node_id) {
            Some(t) => t,
            None => {
                return None;
            },
        };
        Some(WaveQuery { signal: SignalNode::named(signal.as_str()), time })
    }
}

/// The first `n` identities of `p`.
fn slice_path(p: &Vec<NodeIdentity>, n: usize) -> (r: Vec<NodeIdentity>)
    requires
        n <= p@.len(),
    ensures
        identity_views(r@) == identity_views(p@).subrange(0, n as int),
{
    let mut out: Vec<NodeIdentity> = Vec::new();
    let mut i: usize = 0;
    while i < n
        invariant
            n <= p@.len(),
            i <= n,
            identity_views(out@) == identity_views(p@).subrange(0, i as int),
        decreases n - i,
    {
        let ghost before = out@;
        out.push(p[i].clone());
        proof {
            assert(out@ == before.push(p@[i as int]));
            assert(identity_views(out@) =~= identity_views(before).push(p@[i as int]@));
            assert(identity_views(out@) =~= identity_views(p@).subrange(0, i + 1));
        }
        i = i + 1;
    }
    out
}

} // verus!
