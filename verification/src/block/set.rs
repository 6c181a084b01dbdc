use vstd::prelude::*;

use crate::block::{has_key, lemma_has_key_extend, Block};
use crate::error::{string_views, top_matches, FuzzyMatch, SignalNotFound, SvaError};
use crate::text::{chars_eq, chars_of, contains_char, split_char, split_chars, views_of};
use crate::types::{BlockId, SignalKey, SignalNode, SignalNodeKind};

verus! {

/// The blocks of `blocks`, in order, that write the variable `k`.
pub open spec fn drivers_of(blocks: Seq<Block>, k: SignalKey) -> Seq<BlockId>
    decreases blocks.len(),
{
    if blocks.len() == 0 {
        Seq::<BlockId>::empty()
    } else {
        let prev = drivers_of(blocks.drop_last(), k);
        if k.0 == SignalNodeKind::Variable && has_key(blocks.last()@.output_signals, k) {
            prev.push(blocks.last()@.id)
        } else {
            prev
        }
    }
}

/// No two blocks share an id.
pub open spec fn ids_distinct(blocks: Seq<Block>) -> bool {
    forall|i: int, j: int| 0 <= i < j < blocks.len() ==> blocks[i]@.id != blocks[j]@.id
}

/// Whether some block of `blocks` has id `id`.
pub open spec fn has_block(blocks: Seq<Block>, id: BlockId) -> bool {
    exists|j: int| 0 <= j < blocks.len() && #[trigger] blocks[j]@.id == id
}

/// `j` is the first position of `blocks` that holds a block with id `id`.
pub open spec fn first_with_id(blocks: Seq<Block>, id: BlockId, j: int) -> bool {
    &&& 0 <= j < blocks.len()
    &&& blocks[j]@.id == id
    &&& forall|k: int| 0 <= k < j ==> blocks[k]@.id != id
}

/// The first block of `blocks` with id `id` (when there is one).
pub open spec fn block_with_id(blocks: Seq<Block>, id: BlockId) -> Block {
    blocks[choose|j: int| first_with_id(blocks, id, j)]
}

/// Every id that `drivers_of` lists is the id of one of the blocks.
pub proof fn lemma_driver_is_block(blocks: Seq<Block>, k: SignalKey, m: int)
    requires
        0 <= m < drivers_of(blocks, k).len(),
    ensures
        has_block(blocks, drivers_of(blocks, k)[m]),
    decreases blocks.len(),
{
    let prev = drivers_of(blocks.drop_last(), k);
    if m < prev.len() {
        lemma_driver_is_block(blocks.drop_last(), k, m);
        let j = choose|j: int| 0 <= j < blocks.drop_last().len() && #[trigger] blocks.drop_last()[j]@.id == prev[m];
        assert(blocks[j] == blocks.drop_last()[j]);
        assert(blocks[j]@.id == drivers_of(blocks, k)[m]);
    } else {
        assert(blocks[blocks.len() - 1]@.id == drivers_of(blocks, k)[m]);
    }
}

/// When no two blocks share an id, each driver of a signal is listed once.
pub proof fn lemma_drivers_listed_once(blocks: Seq<Block>, k: SignalKey)
    requires
        ids_distinct(blocks),
    ensures
        forall|i: int, j: int| 0 <= i < j < drivers_of(blocks, k).len() ==> drivers_of(blocks, k)[i] != drivers_of(blocks, k)[j],
    decreases blocks.len(),
{
    if blocks.len() > 0 {
        let init = blocks.drop_last();
        assert(ids_distinct(init)) by {
            assert forall|i: int, j: int| 0 <= i < j < init.len() implies init[i]@.id != init[j]@.id by {
                assert(init[i] == blocks[i] && init[j] == blocks[j]);
            }
        }
        lemma_drivers_listed_once(init, k);
        let prev = drivers_of(init, k);
        let all = drivers_of(blocks, k);
        if all.len() > prev.len() {
            assert forall|i: int| 0 <= i < prev.len() implies prev[i] != blocks.last()@.id by {
                lemma_driver_is_block(init, k, i);
                let j = choose|j: int| 0 <= j < init.len() && #[trigger] init[j]@.id == prev[i];
                assert(init[j] == blocks[j]);
                assert(blocks[j]@.id != blocks[blocks.len() - 1]@.id);
            }
            assert forall|i: int, j: int| 0 <= i < j < all.len() implies all[i] != all[j] by {
                if j == prev.len() {
                    assert(all[j] == blocks.last()@.id);
                    assert(all[i] == prev[i]);
                } else {
                    assert(all[i] == prev[i] && all[j] == prev[j]);
                }
            }
        }
    }
}

/// A block with id `id` at `j` means some first position holds that id.
proof fn lemma_first_with_id(blocks: Seq<Block>, id: BlockId, j: int)
    requires
        0 <= j < blocks.len(),
        blocks[j]@.id == id,
    ensures
        exists|f: int| first_with_id(blocks, id, f),
    decreases j,
{
    if exists|k: int| 0 <= k < j && blocks[k]@.id == id {
        let k = choose|k: int| 0 <= k < j && blocks[k]@.id == id;
        lemma_first_with_id(blocks, id, k);
    } else {
        assert(first_with_id(blocks, id, j));
    }
}

/// The block with an id that some block has does have that id.
pub proof fn lemma_has_block_with_id(blocks: Seq<Block>, id: BlockId)
    requires
        has_block(blocks, id),
    ensures
        block_with_id(blocks, id)@.id == id,
{
    let j = choose|j: int| 0 <= j < blocks.len() && #[trigger] blocks[j]@.id == id;
    lemma_first_with_id(blocks, id, j);
}

/// The block at the first position holding its id is the block with that
/// id.
pub proof fn lemma_block_with_id(blocks: Seq<Block>, j: int)
    requires
        first_with_id(blocks, blocks[j]@.id, j),
    ensures
        block_with_id(blocks, blocks[j]@.id) == blocks[j],
{
    let c = choose|c: int| first_with_id(blocks, blocks[j]@.id, c);
    if c < j {
        assert(blocks[c]@.id != blocks[j]@.id);
    } else if c > j {
        assert(blocks[j]@.id != blocks[j]@.id);
    }
}

/// Position of the block with id `id`.
pub fn find_block(blocks: &Vec<Block>, id: BlockId) -> (r: Option<usize>)
    ensures
        match r {
            Some(j) => first_with_id(blocks@, id, j as int),
            None => forall|j: int| 0 <= j < blocks@.len() ==> blocks@[j]@.id != id,
        },
{
    let mut j: usize = 0;
    while j < blocks.len()
        invariant
            j <= blocks@.len(),
            forall|a: int| 0 <= a < j ==> blocks@[a]@.id != id,
        decreases blocks@.len() - j,
    {
        if blocks[j].id().0 == id.0 {
            return Some(j);
        }
        j = j + 1;
    }
    None
}

/// Whether `q` can be found, in order, inside `c`.
pub open spec fn is_subseq(q: Seq<Seq<char>>, c: Seq<Seq<char>>) -> bool
    decreases c.len(),
{
    if q.len() == 0 {
        true
    } else if c.len() == 0 {
        false
    } else if q[0] == c[0] {
        is_subseq(q.drop_first(), c.drop_first())
    } else {
        is_subseq(q, c.drop_first())
    }
}

/// `cand` names the hierarchical signal `query` with extra instance levels
/// inserted: same kind, same first and last segment, more segments, and the
/// query's segments in order among the candidate's.
pub open spec fn alias_of(query: SignalKey, cand: SignalKey) -> bool {
    let qs = split_char(query.1, '.');
    let cs = split_char(cand.1, '.');
    &&& cand.0 == query.0
    &&& cand.1 != query.1
    &&& cand.1.contains('.')
    &&& cs.len() > qs.len()
    &&& cs[0] == qs[0]
    &&& cs.last() == qs.last()
    &&& is_subseq(qs, cs)
}

/// The only driven signal that `query` is an alias of, if there is exactly one.
pub open spec fn unique_alias(blocks: Seq<Block>, query: SignalKey, k: SignalKey) -> bool {
    &&& query.0 == SignalNodeKind::Variable
    &&& query.1.contains('.')
    &&& drivers_of(blocks, k).len() > 0
    &&& alias_of(query, k)
    &&& forall|k2: SignalKey|
        #![trigger drivers_of(blocks, k2)]
        drivers_of(blocks, k2).len() > 0 && alias_of(query, k2) ==> k2 == k
}

/// Whether `q` occurs in order inside `c`.
pub fn is_subsequence(q: &Vec<Vec<char>>, c: &Vec<Vec<char>>) -> (r: bool)
    ensures
        r == is_subseq(views_of(q@), views_of(c@)),
{
    let ghost qv = views_of(q@);
    let ghost cv = views_of(c@);
    let mut qi: usize = 0;
    let mut ci: usize = 0;
    proof {
        assert(qv.subrange(0, qv.len() as int) =~= qv);
        assert(cv.subrange(0, cv.len() as int) =~= cv);
    }
    while ci < c.len()
        invariant
            qv == views_of(q@),
            cv == views_of(c@),
            qi <= q@.len(),
            ci <= c@.len(),
            is_subseq(qv, cv) == is_subseq(
                qv.subrange(qi as int, qv.len() as int),
                cv.subrange(ci as int, cv.len() as int),
            ),
        decreases c@.len() - ci,
    {
        let ghost rq = qv.subrange(qi as int, qv.len() as int);
        let ghost rc = cv.subrange(ci as int, cv.len() as int);
        proof {
            assert(rc.drop_first() =~= cv.subrange(ci + 1, cv.len() as int));
        }
        if qi < q.len() && chars_eq(q[qi].as_slice(), c[ci].as_slice()) {
            proof {
                assert(rq.drop_first() =~= qv.subrange(qi + 1, qv.len() as int));
            }
            qi = qi + 1;
            if qi == q.len() {
                proof {
                    assert(rq[0] == rc[0]);
                    assert(rq.drop_first().len() == 0);
                    assert(is_subseq(rq.drop_first(), rc.drop_first()));
                }
                return true;
            }
        }
        ci = ci + 1;
    }
    qi == q.len()
}

/// A signal with the blocks that drive it.
#[derive(Debug)]
pub struct DriverEntry {
    pub signal: SignalNode,
    pub drivers: Vec<BlockId>,
}

pub open spec fn table_has(t: Seq<DriverEntry>, k: SignalKey) -> bool {
    exists|i: int| 0 <= i < t.len() && #[trigger] t[i].signal@ == k
}

pub open spec fn table_lookup(t: Seq<DriverEntry>, k: SignalKey) -> Seq<BlockId> {
    if table_has(t, k) {
        t[choose|i: int| 0 <= i < t.len() && #[trigger] t[i].signal@ == k].drivers@
    } else {
        Seq::<BlockId>::empty()
    }
}

pub open spec fn table_keys_distinct(t: Seq<DriverEntry>) -> bool {
    forall|i: int, j: int| 0 <= i < j < t.len() ==> t[i].signal@ != t[j].signal@
}

/// The table lists every driven signal once, with the blocks that drive it.
pub open spec fn table_correct(t: Seq<DriverEntry>, blocks: Seq<Block>) -> bool {
    &&& table_keys_distinct(t)
    &&& forall|i: int|
        0 <= i < t.len() ==> #[trigger] t[i].signal.kind == SignalNodeKind::Variable
            && t[i].drivers@.len() > 0
    &&& forall|k: SignalKey| #[trigger] table_lookup(t, k) == drivers_of(blocks, k)
}

pub proof fn lemma_lookup_at(t: Seq<DriverEntry>, i: int)
    requires
        table_keys_distinct(t),
        0 <= i < t.len(),
    ensures
        table_lookup(t, t[i].signal@) == t[i].drivers@,
{
    let k = t[i].signal@;
    assert(table_has(t, k));
    let c = choose|c: int| 0 <= c < t.len() && #[trigger] t[c].signal@ == k;
    if c != i {
        if c < i {
            assert(t[c].signal@ != t[i].signal@);
        } else {
            assert(t[i].signal@ != t[c].signal@);
        }
    }
}

pub proof fn lemma_lookup_update(t: Seq<DriverEntry>, idx: int, e: DriverEntry, k: SignalKey)
    requires
        table_keys_distinct(t),
        0 <= idx < t.len(),
        e.signal@ == t[idx].signal@,
    ensures
        table_keys_distinct(t.update(idx, e)),
        table_lookup(t.update(idx, e), k) == if k == t[idx].signal@ {
            e.drivers@
        } else {
            table_lookup(t, k)
        },
{
    let u = t.update(idx, e);
    assert forall|x: int, y: int| 0 <= x < y < u.len() implies u[x].signal@ != u[y].signal@ by {
        assert(t[x].signal@ != t[y].signal@);
    }
    if k == t[idx].signal@ {
        lemma_lookup_at(u, idx);
    } else {
        if table_has(u, k) {
            let c = choose|c: int| 0 <= c < u.len() && #[trigger] u[c].signal@ == k;
            assert(u[c] == t[c]);
            lemma_lookup_at(u, c);
            lemma_lookup_at(t, c);
        } else {
            assert(!table_has(t, k)) by {
                if table_has(t, k) {
                    let c = choose|c: int| 0 <= c < t.len() && #[trigger] t[c].signal@ == k;
                    assert(u[c].signal@ == k);
                }
            }
        }
    }
}

pub proof fn lemma_lookup_push(t: Seq<DriverEntry>, e: DriverEntry, k: SignalKey)
    requires
        table_keys_distinct(t),
        !table_has(t, e.signal@),
    ensures
        table_keys_distinct(t.push(e)),
        table_lookup(t.push(e), k) == if k == e.signal@ {
            e.drivers@
        } else {
            table_lookup(t, k)
        },
{
    let u = t.push(e);
    assert forall|x: int, y: int| 0 <= x < y < u.len() implies u[x].signal@ != u[y].signal@ by {
        if y == t.len() {
            assert(t[x].signal@ != e.signal@) by {
                if t[x].signal@ == e.signal@ {
                    assert(table_has(t, e.signal@));
                }
            }
        } else {
            assert(t[x].signal@ != t[y].signal@);
        }
    }
    if k == e.signal@ {
        lemma_lookup_at(u, t.len() as int);
    } else {
        if table_has(u, k) {
            let c = choose|c: int| 0 <= c < u.len() && #[trigger] u[c].signal@ == k;
            assert(c < t.len());
            assert(u[c] == t[c]);
            lemma_lookup_at(u, c);
            lemma_lookup_at(t, c);
        } else {
            assert(!table_has(t, k)) by {
                if table_has(t, k) {
                    let c = choose|c: int| 0 <= c < t.len() && #[trigger] t[c].signal@ == k;
                    assert(u[c].signal@ == k);
                }
            }
        }
    }
}

/// A set of blocks with distinct ids, indexed by the signals they drive.
#[derive(Debug)]
pub struct BlockSet {
    blocks: Vec<Block>,
    signal_to_drivers: Vec<DriverEntry>,
}

impl View for BlockSet {
    type V = Seq<Block>;

    closed spec fn view(&self) -> Seq<Block> {
        self.blocks@
    }
}

/// Index of the entry of `t` for the signal of `n`.
pub(crate) fn find_entry(t: &Vec<DriverEntry>, n: &SignalNode) -> (r: Option<usize>)
    ensures
        match r {
            Some(i) => i < t@.len() && t@[i as int].signal@ == n@,
            None => !table_has(t@, n@),
        },
{
    let mut i: usize = 0;
    while i < t.len()
        invariant
            i <= t@.len(),
            forall|j: int| 0 <= j < i ==> t@[j].signal@ != n@,
        decreases t@.len() - i,
    {
        if t[i].signal == *n {
            return Some(i);
        }
        i = i + 1;
    }
    None
}

/// Whether two blocks of `blocks` share an id.
fn has_duplicate_id(blocks: &Vec<Block>) -> (r: bool)
    ensures
        r == !ids_distinct(blocks@),
{
    let mut i: usize = 0;
    while i < blocks.len()
        invariant
            i <= blocks@.len(),
            forall|a: int, b: int| 0 <= a < b < i ==> blocks@[a]@.id != blocks@[b]@.id,
        decreases blocks@.len() - i,
    {
        let id = blocks[i].id();
        let mut j: usize = 0;
        while j < i
            invariant
                j <= i < blocks@.len(),
                id == blocks@[i as int]@.id,
                forall|a: int| 0 <= a < j ==> blocks@[a]@.id != id,
            decreases i - j,
        {
            if blocks[j].id() == id {
                return true;
            }
            j = j + 1;
        }
        i = i + 1;
    }
    false
}

impl BlockSet {
    #[verifier::type_invariant]
    spec fn inv(self) -> bool {
        &&& table_correct(self.signal_to_drivers@, self.blocks@)
    }

    /// Indexes `blocks` by the variables each one writes; fails when two
    /// blocks share an id.
    pub fn new(blocks: Vec<Block>) -> (r: Result<BlockSet, SvaError>)
        ensures
            r is Ok <==> ids_distinct(blocks@),
            r matches Err(e) ==> e is DuplicateBlockId,
            r matches Ok(s) ==> s@ == blocks@,
    {
        if has_duplicate_id(&blocks) {
            return Err(SvaError::DuplicateBlockId);
        }
        Ok(BlockSet::index_blocks(blocks))
    }

    /// Indexes `blocks` by the variables each one writes. Copies of one
    /// template block in several instances share its id.
    pub(crate) fn index_blocks(blocks: Vec<Block>) -> (r: BlockSet)
        ensures
            r@ == blocks@,
    {
        let mut table: Vec<DriverEntry> = Vec::new();
        let mut i: usize = 0;
        while i < blocks.len()
            invariant
                i <= blocks@.len(),
                table_keys_distinct(table@),
                forall|x: int|
                    0 <= x < table@.len() ==> #[trigger] table@[x].signal.kind
                        == SignalNodeKind::Variable && table@[x].drivers@.len() > 0,
                forall|k: SignalKey|
                    #[trigger] table_lookup(table@, k) == drivers_of(
                        blocks@.subrange(0, i as int),
                        k,
                    ),
            decreases blocks@.len() - i,
        {
            let block = &blocks[i];
            let id = block.id();
            let outs = block.output_signals();
            let ghost prefix = blocks@.subrange(0, i as int);
            let mut j: usize = 0;
            while j < outs.len()
                invariant
                    i < blocks@.len(),
                    prefix == blocks@.subrange(0, i as int),
                    outs@ == blocks@[i as int]@.output_signals,
                    id == blocks@[i as int]@.id,
                    crate::block::distinct_keys(outs@),
                    j <= outs@.len(),
                    table_keys_distinct(table@),
                    forall|x: int|
                        0 <= x < table@.len() ==> #[trigger] table@[x].signal.kind
                            == SignalNodeKind::Variable && table@[x].drivers@.len() > 0,
                    forall|k: SignalKey|
                        #[trigger] table_lookup(table@, k) == if k.0 == SignalNodeKind::Variable
                            && has_key(outs@.subrange(0, j as int), k) {
                            drivers_of(prefix, k).push(id)
                        } else {
                            drivers_of(prefix, k)
                        },
                decreases outs@.len() - j,
            {
                let signal = &outs[j];
                let ghost ks = signal@;
                let ghost old_table = table@;
                proof {
                    assert(!has_key(outs@.subrange(0, j as int), ks)) by {
                        if has_key(outs@.subrange(0, j as int), ks) {
                            let w = choose|w: int|
                                0 <= w < j && #[trigger] outs@.subrange(0, j as int)[w]@ == ks;
                            assert(outs@[w]@ == outs@[j as int]@);
                        }
                    }
                }
                if signal.is_variable() {
                    match find_entry(&table, signal) {
                        Some(idx) => {
                            proof {
                                lemma_lookup_at(table@, idx as int);
                            }
                            let mut entry = table.remove(idx);
                            entry.drivers.push(id);
                            let ghost new_entry = entry;
                            table.insert(idx, entry);
                            proof {
                                assert(table@ =~= old_table.update(idx as int, new_entry));
                                assert forall|k: SignalKey|
                                    #[trigger] table_lookup(table@, k) == if k.0
                                        == SignalNodeKind::Variable && has_key(
                                        outs@.subrange(0, j + 1),
                                        k,
                                    ) {
                                        drivers_of(prefix, k).push(id)
                                    } else {
                                        drivers_of(prefix, k)
                                    } by {
                                    lemma_has_key_extend(outs@, j as int, k);
                                    lemma_lookup_update(old_table, idx as int, new_entry, k);
                                }
                                lemma_lookup_update(old_table, idx as int, new_entry, ks);
                            }
                        },
                        None => {
                            let mut drivers: Vec<BlockId> = Vec::new();
                            drivers.push(id);
                            let entry = DriverEntry { signal: signal.clone(), drivers };
                            let ghost new_entry = entry;
                            table.push(entry);
                            proof {
                                assert(table_lookup(old_table, ks) == Seq::<BlockId>::empty());
                                assert(drivers_of(prefix, ks).push(id) =~= seq![id]);
                                assert forall|k: SignalKey|
                                    #[trigger] table_lookup(table@, k) == if k.0
                                        == SignalNodeKind::Variable && has_key(
                                        outs@.subrange(0, j + 1),
                                        k,
                                    ) {
                                        drivers_of(prefix, k).push(id)
                                    } else {
                                        drivers_of(prefix, k)
                                    } by {
                                    lemma_has_key_extend(outs@, j as int, k);
                                    lemma_lookup_push(old_table, new_entry, k);
                                }
                                lemma_lookup_push(old_table, new_entry, ks);
                            }
                        },
                    }
                } else {
                    proof {
                        assert forall|k: SignalKey|
                            #[trigger] table_lookup(table@, k) == if k.0
                                == SignalNodeKind::Variable && has_key(
                                outs@.subrange(0, j + 1),
                                k,
                            ) {
                                drivers_of(prefix, k).push(id)
                            } else {
                                drivers_of(prefix, k)
                            } by {
                            lemma_has_key_extend(outs@, j as int, k);
                        }
                    }
                }
                j = j + 1;
            }
            proof {
                assert(outs@.subrange(0, outs@.len() as int) =~= outs@);
                assert(blocks@.subrange(0, i + 1).drop_last() =~= prefix);
                assert forall|k: SignalKey|
                    #[trigger] table_lookup(table@, k) == drivers_of(
                        blocks@.subrange(0, i + 1),
                        k,
                    ) by {
                    assert(blocks@.subrange(0, i + 1).last() == blocks@[i as int]);
                }
            }
            i = i + 1;
        }
        proof {
            assert(blocks@.subrange(0, blocks@.len() as int) =~= blocks@);
        }
        BlockSet { blocks, signal_to_drivers: table }
    }

    pub fn blocks(&self) -> (r: &Vec<Block>)
        ensures
            r@ == self@,
    {
        &self.blocks
    }

    /// Every driven variable once, with its drivers in block order.
    pub fn signal_to_drivers(&self) -> (r: &Vec<DriverEntry>)
        ensures
            table_correct(r@, self@),
            r@ == self.driver_table(),
    {
        proof {
            use_type_invariant(self);
        }
        &self.signal_to_drivers
    }

    /// The driver table: every driven variable once, with its drivers.
    pub closed spec fn driver_table(&self) -> Seq<DriverEntry> {
        self.signal_to_drivers@
    }

    /// The names of the driven variables, in table order.
    pub open spec fn signal_name_views(&self) -> Seq<Seq<char>> {
        self.driver_table().map_values(|e: DriverEntry| e.signal.name@)
    }

    /// The driven variables, in table order.
    pub fn signal_names(&self) -> (r: Vec<SignalNode>)
        ensures
            r@.len() == self.driver_table().len(),
            forall|i: int| 0 <= i < r@.len() ==> #[trigger] r@[i] == self.driver_table()[i].signal,
            forall|i: int, j: int| 0 <= i < j < r@.len() ==> r@[i]@ != r@[j]@,
            forall|i: int| 0 <= i < r@.len() ==> (#[trigger] r@[i]).kind == SignalNodeKind::Variable
                && drivers_of(self@, r@[i]@).len() > 0,
            forall|k: SignalKey| #[trigger] drivers_of(self@, k).len() > 0 ==> exists|i: int| 0 <= i < r@.len() && r@[i]@ == k,
    {
        proof {
            use_type_invariant(self);
            let t = self.signal_to_drivers@;
            assert forall|i: int| 0 <= i < t.len() implies drivers_of(self@, #[trigger] t[i].signal@).len() > 0 by {
                lemma_lookup_at(t, i);
                assert(table_lookup(t, t[i].signal@) == drivers_of(self@, t[i].signal@));
            }
            assert forall|k: SignalKey| #[trigger] drivers_of(self@, k).len() > 0 implies table_has(t, k) by {
                assert(table_lookup(t, k) == drivers_of(self@, k));
            }
        }
        let mut out: Vec<SignalNode> = Vec::new();
        let mut i: usize = 0;
        while i < self.signal_to_drivers.len()
            invariant
                i <= self.signal_to_drivers@.len(),
                out@.len() == i,
                forall|j: int| 0 <= j < i ==> #[trigger] out@[j] == self.signal_to_drivers@[j].signal,
            decreases self.signal_to_drivers@.len() - i,
        {
            out.push(self.signal_to_drivers[i].signal.clone());
            i = i + 1;
        }
        proof {
            let t = self.signal_to_drivers@;
            assert forall|k: SignalKey| #[trigger] drivers_of(self@, k).len() > 0 implies exists|i: int|
                0 <= i < out@.len() && out@[i]@ == k by {
                assert(table_has(t, k));
                let j = choose|j: int| 0 <= j < t.len() && #[trigger] t[j].signal@ == k;
                assert(out@[j] == t[j].signal);
            }
        }
        out
    }

    /// The alias that `signal` stands for, when exactly one driven signal fits.
    fn resolve_hierarchical_alias(&self, signal: &SignalNode) -> (r: Option<SignalNode>)
        ensures
            match r {
                Some(x) => unique_alias(self@, signal@, x@),
                None => forall|k: SignalKey| !unique_alias(self@, signal@, k),
            },
    {
        proof {
            use_type_invariant(self);
        }
        let name = chars_of(signal.as_str());
        if signal.is_literal() || !contains_char(name.as_slice(), '.') {
            return None;
        }
        let query = split_chars(name.as_slice(), '.');
        let ghost qs = split_char(signal@.1, '.');
        let first = &query[0];
        let last = &query[query.len() - 1];
        let t = &self.signal_to_drivers;
        let mut found: Option<usize> = None;
        let mut count: usize = 0;
        let mut i: usize = 0;
        while i < t.len()
            invariant
                t@ == self.signal_to_drivers@,
                table_correct(t@, self.blocks@),
                views_of(query@) == qs,
                name@ == signal@.1,
                qs == split_char(signal@.1, '.'),
                query@.len() >= 1,
                first@ == qs[0],
                last@ == qs.last(),
                signal@.0 == SignalNodeKind::Variable,
                i <= t@.len(),
                count <= i,
                count == 0 <==> found is None,
                found matches Some(f) ==> f < i && alias_of(signal@, t@[f as int].signal@),
                count == 1 ==> forall|j: int|
                    0 <= j < i && alias_of(signal@, #[trigger] t@[j].signal@) ==> Some(j as usize) == found,
                count >= 2 ==> exists|a: int, b: int|
                    0 <= a < b < i && alias_of(signal@, #[trigger] t@[a].signal@) && alias_of(signal@, #[trigger] t@[b].signal@),
                count == 0 ==> forall|j: int| 0 <= j < i ==> !alias_of(signal@, #[trigger] t@[j].signal@),
            decreases t@.len() - i,
        {
            let cand = &t[i].signal;
            let cname = chars_of(cand.as_str());
            let ghost ck = t@[i as int].signal@;
            let fits = if cand.kind == signal.kind && !chars_eq(cname.as_slice(), name.as_slice())
                && contains_char(cname.as_slice(), '.') {
                let segs = split_chars(cname.as_slice(), '.');
                let ghost cs = split_char(ck.1, '.');
                proof {
                    assert(views_of(segs@)[0] == segs@[0]@);
                    assert(views_of(segs@)[segs@.len() - 1] == segs@[segs@.len() - 1]@);
                    assert(views_of(query@)[0] == query@[0]@);
                }
                let r = segs.len() > query.len() && chars_eq(segs[0].as_slice(), first.as_slice())
                    && chars_eq(segs[segs.len() - 1].as_slice(), last.as_slice())
                    && is_subsequence(&query, &segs);
                proof {
                    assert(r == alias_of(signal@, ck));
                }
                r
            } else {
                proof {
                    assert(cname@ == ck.1);
                    assert(name@ == signal@.1);
                    if cand.kind == signal.kind && cname@ != name@ {
                        assert(!ck.1.contains('.'));
                    }
                    assert(!alias_of(signal@, ck));
                }
                false
            };
            if fits {
                if count == 0 {
                    found = Some(i);
                    count = 1;
                } else {
                    let ghost f = found->0;
                    count = 2;
                    proof {
                        assert(alias_of(signal@, t@[f as int].signal@));
                    }
                }
            }
            i = i + 1;
        }
        if count == 1 {
            let f = found.unwrap();
            let ghost k = t@[f as int].signal@;
            proof {
                lemma_lookup_at(t@, f as int);
                assert(drivers_of(self.blocks@, k) == t@[f as int].drivers@);
                assert forall|k2: SignalKey|
                    #![trigger drivers_of(self.blocks@, k2)]
                    drivers_of(self.blocks@, k2).len() > 0 && alias_of(signal@, k2) implies k2 == k by {
                    assert(table_lookup(t@, k2) == drivers_of(self.blocks@, k2));
                    assert(table_has(t@, k2));
                    let c = choose|c: int| 0 <= c < t@.len() && #[trigger] t@[c].signal@ == k2;
                    assert(alias_of(signal@, t@[c].signal@));
                }
            }
            Some(t[f].signal.clone())
        } else {
            proof {
                assert forall|k: SignalKey| !unique_alias(self.blocks@, signal@, k) by {
                    if unique_alias(self.blocks@, signal@, k) {
                        assert(table_lookup(t@, k) == drivers_of(self.blocks@, k));
                        assert(table_has(t@, k));
                        if count == 0 {
                            let c = choose|c: int| 0 <= c < t@.len() && #[trigger] t@[c].signal@ == k;
                            assert(!alias_of(signal@, t@[c].signal@));
                        } else {
                            let (a, b) = choose|a: int, b: int|
                                0 <= a < b < t@.len() && alias_of(signal@, #[trigger] t@[a].signal@) && alias_of(signal@, #[trigger] t@[b].signal@);
                            lemma_lookup_at(t@, a);
                            lemma_lookup_at(t@, b);
                            assert(t@[a].signal@ == k);
                            assert(t@[b].signal@ == k);
                        }
                    }
                }
            }
            None
        }
    }

    /// The signal to slice from: `signal` itself when some block drives it,
    /// else the one driven signal it is a hierarchical alias of; otherwise an
    /// error with the closest driven names.
    pub fn resolve_signal_with_driver(&self, signal: &SignalNode) -> (r: Result<SignalNode, SvaError>)
        ensures
            drivers_of(self@, signal@).len() > 0 ==> r == Ok::<SignalNode, SvaError>(*signal),
            drivers_of(self@, signal@).len() == 0 ==> match r {
                Ok(x) => unique_alias(self@, signal@, x@),
                Err(e) => (forall|k: SignalKey| !unique_alias(self@, signal@, k)) && (e matches SvaError::SignalNotFound(nf) && nf.signal@ == signal.name@ && top_matches(
                    string_views(nf.suggestions@),
                    signal.name@,
                    self.signal_name_views(),
                )),
            },
            r matches Ok(x) ==> drivers_of(self@, x@).len() > 0,
    {
        if self.drivers_for(signal).len() > 0 {
            return Ok(signal.clone());
        }
        if let Some(resolved) = self.resolve_hierarchical_alias(signal) {
            return Ok(resolved);
        }
        let mut candidates: Vec<String> = Vec::new();
        let mut i: usize = 0;
        while i < self.signal_to_drivers.len()
            invariant
                i <= self.signal_to_drivers@.len(),
                candidates@.len() == i,
                forall|j: int| 0 <= j < i ==> #[trigger] candidates@[j]@ == self.signal_to_drivers@[j].signal.name@,
            decreases self.signal_to_drivers@.len() - i,
        {
            candidates.push(self.signal_to_drivers[i].signal.name.clone());
            i = i + 1;
        }
        let suggestions = FuzzyMatch::find_top_n(signal.as_str(), candidates.as_slice());
        proof {
            assert(string_views(candidates@) =~= self.signal_name_views());
        }
        Err(SvaError::SignalNotFound(SignalNotFound { signal: signal.name.clone(), suggestions }))
    }

    /// Succeeds when `signal`, or the one signal it is an alias of, is driven.
    pub fn validate_signal_has_driver(&self, signal: &SignalNode) -> (r: Result<(), SvaError>)
        ensures
            r is Ok <==> (drivers_of(self@, signal@).len() > 0 || exists|k: SignalKey| unique_alias(self@, signal@, k)),
    {
        match self.resolve_signal_with_driver(signal) {
            Ok(_) => Ok(()),
            Err(e) => Err(e),
        }
    }

    /// The blocks, in order, that drive `signal`.
    pub fn drivers_for(&self, signal: &SignalNode) -> (r: &[BlockId])
        ensures
            r@ == drivers_of(self@, signal@),
    {
        proof {
            use_type_invariant(self);
        }
        match find_entry(&self.signal_to_drivers, signal) {
            Some(i) => {
                proof {
                    lemma_lookup_at(self.signal_to_drivers@, i as int);
                }
                self.signal_to_drivers[i].drivers.as_slice()
            },
            None => {
                proof {
                    assert(table_lookup(self.signal_to_drivers@, signal@) =~= Seq::<
                        BlockId,
                    >::empty());
                }
                &[]
            },
        }
    }
}

impl TryFrom<Vec<Block>> for BlockSet {
    type Error = SvaError;

    fn try_from(blocks: Vec<Block>) -> (r: Result<BlockSet, SvaError>)
        ensures
            r is Ok <==> ids_distinct(blocks@),
            r matches Err(e) ==> e is DuplicateBlockId,
            r matches Ok(s) ==> s@ == blocks@,
    {
        BlockSet::new(blocks)
    }
}

impl vstd::std_specs::convert::TryFromSpecImpl<Vec<Block>> for BlockSet {
    open spec fn obeys_try_from_spec() -> bool {
        false
    }

    open spec fn try_from_spec(v: Vec<Block>) -> Result<BlockSet, SvaError> {
        Err(SvaError::DuplicateBlockId)
    }
}

} // verus!
