use vstd::prelude::*;

use fuzzy_matcher::skim::SkimMatcherV2;
use fuzzy_matcher::FuzzyMatcher;

use crate::order::{i64_key, i64_to_key, key_views, keyed_lt, seq_lt, sort_perm};
use crate::text::{chars_of, ends_with, spec_ends_with};
use crate::types::StableSliceNodeKey;

verus! {

/// A field of a block that a builder must be given before it can build.
#[derive(Debug, Clone, Copy, PartialEq, Eq, Structural)]
pub enum BlockField {
    Id,
    BlockType,
    CircuitType,
    ModuleScope,
    SourceFile,
    LineStart,
    LineEnd,
    AstLineStart,
    AstLineEnd,
    Dataflow,
    CodeSnippet,
}

/// A requested signal that no block drives, with similar names that exist.
#[derive(Debug)]
pub struct SignalNotFound {
    pub signal: String,
    pub suggestions: Vec<String>,
}

/// Why an operation of this library failed.
#[derive(Debug)]
pub enum SvaError {
    /// Two blocks of one block set share an id.
    DuplicateBlockId,
    /// A block's first line comes after its last line.
    InvalidLineRange,
    /// A block's first syntax-tree line comes after its last one.
    InvalidAstLineRange,
    /// A builder was asked to build before this field was set.
    UninitializedField(BlockField),
    /// The given input signals are not those of the dataflow.
    InputSignalsMismatch,
    /// The given output signals are not those of the dataflow.
    OutputSignalsMismatch,
    /// No block drives the requested signal.
    SignalNotFound(SignalNotFound),
    /// A slice graph holds the same node twice.
    DuplicateSliceNode(StableSliceNodeKey),
    /// A coverage source reported a failure.
    Coverage(String),
    /// The requested slice time is not a rising clock edge.
    NotPosedgeTime(i64),
    /// The previous clock edge of the requested time is not a rising edge.
    MisalignedBacktrack { time: i64, clock_period: i64, previous: i64 },
    /// A root block at a time is not in a slice graph.
    RootNotFound { block_id: u64, time: i64 },
    /// The waveform holds no data for this signal.
    SignalDataNotLoaded(String),
}

/// How many suggestions a failed lookup offers.
pub const SUGGESTION_COUNT: usize = 5;

/// The score added to candidates that end with the query.
pub const SUFFIX_BONUS: i64 = 1000;

/// The score that the skim fuzzy matcher (with its default settings) gives
/// `choice` for `pattern`, or `None` when the pattern does not match.
pub uninterp spec fn skim_score(choice: Seq<char>, pattern: Seq<char>) -> Option<i64>;

/// `fuzzy_matcher::skim::SkimMatcherV2::default().fuzzy_match(choice, pattern)`.
/// Its result is taken to depend on the two texts alone; what it is, is left unsaid.
#[verifier::external_body]
fn skim_fuzzy_match(choice: &str, pattern: &str) -> (r: Option<i64>)
    ensures
        r == skim_score(choice@, pattern@),
{
    SkimMatcherV2::default().fuzzy_match(choice, pattern)
}

/// `a + b`, held at the bounds of `i64`.
pub open spec fn saturating_add_i64(a: i64, b: i64) -> i64 {
    if a + b > i64::MAX {
        i64::MAX
    } else if a + b < i64::MIN {
        i64::MIN
    } else {
        (a + b) as i64
    }
}

fn saturating_add(a: i64, b: i64) -> (r: i64)
    ensures
        r == saturating_add_i64(a, b),
{
    let s: i128 = a as i128 + b as i128;
    if s > i64::MAX as i128 {
        i64::MAX
    } else if s < i64::MIN as i128 {
        i64::MIN
    } else {
        s as i64
    }
}

/// The ranking score of `choice` for `pattern`: the fuzzy score, plus a bonus
/// when the choice ends with the pattern.
pub open spec fn ranked_score(choice: Seq<char>, pattern: Seq<char>) -> Option<i64> {
    match skim_score(choice, pattern) {
        Some(s) => Some(
            if spec_ends_with(choice, pattern) {
                saturating_add_i64(s, SUFFIX_BONUS)
            } else {
                s
            },
        ),
        None => None,
    }
}

/// `order` lists each matching candidate position once, best score first,
/// and among equal scores the later candidate first.
pub open spec fn ranking(order: Seq<int>, pattern: Seq<char>, cands: Seq<Seq<char>>) -> bool {
    &&& forall|i: int|
        0 <= i < order.len() ==> 0 <= #[trigger] order[i] < cands.len() && ranked_score(
            cands[order[i]],
            pattern,
        ) is Some
    &&& forall|i: int, j: int| 0 <= i < j < order.len() ==> order[i] != order[j]
    &&& forall|c: int|
        0 <= c < cands.len() && #[trigger] ranked_score(cands[c], pattern) is Some
            ==> order.contains(c)
    &&& forall|i: int, j: int|
        #![trigger order[i], order[j]]
        0 <= i < j < order.len() ==> {
            let si = ranked_score(cands[order[i]], pattern)->0;
            let sj = ranked_score(cands[order[j]], pattern)->0;
            si > sj || (si == sj && order[i] > order[j])
        }
}

pub open spec fn string_views(v: Seq<String>) -> Seq<Seq<char>> {
    v.map_values(|s: String| s@)
}

proof fn lemma_single_key_lt(x: u64, y: u64)
    ensures
        seq_lt(seq![x], seq![y]) == (x < y),
{
    assert(seq![x].drop_first() =~= Seq::<u64>::empty());
    assert(seq![y].drop_first() =~= Seq::<u64>::empty());
    assert(!seq_lt(Seq::<u64>::empty(), Seq::<u64>::empty()));
}

/// Fuzzy matching of names against the names that exist.
#[derive(Debug)]
pub struct FuzzyMatch;

impl FuzzyMatch {
    /// The (at most five) candidates that match `signal` best, best first.
    pub fn find_top_n(signal: &str, candidates: &[String]) -> (r: Vec<String>)
        ensures
            top_matches(string_views(r@), signal@, string_views(candidates@)),
    {
        let ghost cv = string_views(candidates@);
        let sig = chars_of(signal);
        let mut positions: Vec<usize> = Vec::new();
        let mut scores: Vec<i64> = Vec::new();
        let mut c: usize = 0;
        while c < candidates.len()
            invariant
                cv == string_views(candidates@),
                sig@ == signal@,
                c <= candidates@.len(),
                positions@.len() == scores@.len(),
                forall|a: int| 0 <= a < positions@.len() ==> #[trigger] positions@[a] < c,
                forall|a: int, b: int| 0 <= a < b < positions@.len() ==> positions@[a] < positions@[b],
                forall|a: int|
                    0 <= a < positions@.len() ==> ranked_score(cv[#[trigger] positions@[a] as int], signal@)
                        == Some(scores@[a]),
                forall|x: int|
                    0 <= x < c && #[trigger] ranked_score(cv[x], signal@) is Some ==> exists|a: int|
                        0 <= a < positions@.len() && positions@[a] == x,
            decreases candidates@.len() - c,
        {
            let choice = candidates[c].as_str();
            let ghost old_positions = positions@;
            match skim_fuzzy_match(choice, signal) {
                Some(score) => {
                    let text = chars_of(choice);
                    let total = if ends_with(text.as_slice(), sig.as_slice()) {
                        saturating_add(score, SUFFIX_BONUS)
                    } else {
                        score
                    };
                    let ghost old_len = positions@.len();
                    positions.push(c);
                    scores.push(total);
                    proof {
                        assert(cv[c as int] == candidates@[c as int]@);
                        assert(positions@[old_len as int] == c);
                    }
                },
                None => {
                    proof {
                        assert(cv[c as int] == candidates@[c as int]@);
                    }
                },
            }
            proof {
                assert forall|x: int|
                    0 <= x < c + 1 && #[trigger] ranked_score(cv[x], signal@) is Some implies exists|a: int|
                        0 <= a < positions@.len() && positions@[a] == x by {
                    if x < c {
                        let a = choose|a: int| 0 <= a < old_positions.len() && old_positions[a] == x;
                        assert(positions@[a] == x);
                    } else {
                        assert(cv[c as int] == candidates@[c as int]@);
                        assert(positions@[positions@.len() - 1] == x);
                    }
                }
            }
            c = c + 1;
        }
        let mut keys: Vec<Vec<u64>> = Vec::new();
        let mut k: usize = 0;
        while k < scores.len()
            invariant
                k <= scores@.len(),
                keys@.len() == k,
                forall|a: int| 0 <= a < k ==> #[trigger] keys@[a]@ == seq![i64_key(scores@[a])],
            decreases scores@.len() - k,
        {
            let mut key: Vec<u64> = Vec::new();
            key.push(i64_to_key(scores[k]));
            proof {
                assert(key@ =~= seq![i64_key(scores@[k as int])]);
            }
            keys.push(key);
            k = k + 1;
        }
        let perm = sort_perm(&keys);
        let n = perm.len();
        let take = if n < SUGGESTION_COUNT {
            n
        } else {
            SUGGESTION_COUNT
        };
        let ghost order = Seq::new(n as nat, |t: int| positions@[perm@[n - 1 - t] as int] as int);
        proof {
            let kv = key_views(keys@);
            assert forall|a: int, b: int|
                0 <= a < b < n implies (scores@[perm@[a] as int] < scores@[perm@[b] as int] || (
                scores@[perm@[a] as int] == scores@[perm@[b] as int] && perm@[a] < perm@[b])) by {
                assert(keyed_lt(kv[perm@[a] as int], perm@[a] as int, kv[perm@[b] as int], perm@[b] as int));
                assert(kv[perm@[a] as int] == seq![i64_key(scores@[perm@[a] as int])]);
                assert(kv[perm@[b] as int] == seq![i64_key(scores@[perm@[b] as int])]);
                lemma_single_key_lt(i64_key(scores@[perm@[a] as int]), i64_key(scores@[perm@[b] as int]));
            }
            assert forall|c2: int|
                0 <= c2 < cv.len() && #[trigger] ranked_score(cv[c2], signal@) is Some implies order.contains(c2) by {
                let a = choose|a: int| 0 <= a < positions@.len() && positions@[a] == c2;
                // a appears somewhere in perm
                assert(exists|t: int| 0 <= t < n && perm@[t] == a) by {
                    let f = |t: int| perm@[t] as int;
                    assert(forall|t1: int, t2: int| 0 <= t1 < t2 < n ==> perm@[t1] != perm@[t2]);
                    lemma_perm_onto(perm@, n as int, a);
                }
                let t = choose|t: int| 0 <= t < n && perm@[t] == a;
                assert(order[n - 1 - t] == c2);
            }
            assert(ranking(order, signal@, cv)) by {
                assert forall|i: int, j: int|
                    #![trigger order[i], order[j]]
                    0 <= i < j < order.len() implies {
                        let si = ranked_score(cv[order[i]], signal@)->0;
                        let sj = ranked_score(cv[order[j]], signal@)->0;
                        si > sj || (si == sj && order[i] > order[j])
                    } by {
                    let pa = perm@[n - 1 - j] as int;
                    let pb = perm@[n - 1 - i] as int;
                    assert(ranked_score(cv[positions@[pa] as int], signal@) == Some(scores@[pa]));
                    assert(ranked_score(cv[positions@[pb] as int], signal@) == Some(scores@[pb]));
                    if pa < pb {
                        assert(positions@[pa] < positions@[pb]);
                    }
                }
                assert forall|i: int, j: int| 0 <= i < j < order.len() implies order[i] != order[j] by {
                    let pa = perm@[n - 1 - j] as int;
                    let pb = perm@[n - 1 - i] as int;
                    if pa < pb {
                        assert(positions@[pa] < positions@[pb]);
                    } else {
                        assert(positions@[pb] < positions@[pa]);
                    }
                }
                assert forall|i: int| 0 <= i < order.len() implies 0 <= #[trigger] order[i] < cv.len()
                    && ranked_score(cv[order[i]], signal@) is Some by {
                    let pa = perm@[n - 1 - i] as int;
                    assert(ranked_score(cv[positions@[pa] as int], signal@) == Some(scores@[pa]));
                }
            }
        }
        let mut out: Vec<String> = Vec::new();
        let mut t: usize = 0;
        while t < take
            invariant
                n == perm@.len(),
                n == positions@.len(),
                take <= n,
                t <= take,
                out@.len() == t,
                order == Seq::new(n as nat, |t: int| positions@[perm@[n - 1 - t] as int] as int),
                forall|a: int| 0 <= a < n ==> #[trigger] perm@[a] < n,
                forall|a: int| 0 <= a < positions@.len() ==> #[trigger] positions@[a] < candidates@.len(),
                forall|i: int| 0 <= i < t ==> #[trigger] out@[i]@ == candidates@[order[i]]@,
            decreases take - t,
        {
            let p = perm[n - 1 - t];
            let name = candidates[positions[p]].clone();
            out.push(name);
            t = t + 1;
        }
        proof {
            assert(ranking(order, signal@, string_views(candidates@)));
            assert forall|i: int| 0 <= i < out@.len() implies #[trigger] string_views(out@)[i] == string_views(candidates@)[order[i]] by {
                assert(out@[i]@ == candidates@[order[i]]@);
            }
        }
        out
    }
}

/// `r` holds the best (at most five) of `cands` for `pattern`, best first.
pub open spec fn top_matches(r: Seq<Seq<char>>, pattern: Seq<char>, cands: Seq<Seq<char>>) -> bool {
    exists|order: Seq<int>|
        #![trigger ranking(order, pattern, cands)]
        ranking(order, pattern, cands) && r.len() == (if order.len() < SUGGESTION_COUNT {
            order.len() as int
        } else {
            SUGGESTION_COUNT as int
        }) && forall|i: int| 0 <= i < r.len() ==> #[trigger] r[i] == cands[order[i]]
}

/// Every position below `n` appears in a duplicate-free list of `n` positions below `n`.
proof fn lemma_perm_onto(perm: Seq<usize>, n: int, a: int)
    requires
        perm.len() == n,
        0 <= a < n,
        forall|i: int| 0 <= i < n ==> #[trigger] perm[i] < n,
        forall|i: int, j: int| 0 <= i < j < n ==> perm[i] != perm[j],
    ensures
        exists|t: int| 0 <= t < n && perm[t] == a,
{
    let s = perm.map_values(|x: usize| x as int).to_set();
    let full = Set::new(|x: int| 0 <= x < n);
    assert(perm.map_values(|x: usize| x as int).no_duplicates()) by {
        let m = perm.map_values(|x: usize| x as int);
        assert forall|i: int, j: int| 0 <= i < m.len() && 0 <= j < m.len() && i != j implies m[i] != m[j] by {
            if i < j {
                assert(perm[i] != perm[j]);
            } else {
                assert(perm[j] != perm[i]);
            }
        }
    }
    perm.map_values(|x: usize| x as int).unique_seq_to_set();
    assert(s.subset_of(full));
    vstd::set_lib::lemma_int_range(0, n);
    assert(full =~= vstd::set_lib::set_int_range(0, n));
    if !s.contains(a) {
        vstd::set_lib::lemma_len_subset(s, full.remove(a));
        assert(s.subset_of(full.remove(a)));
    }
    assert(s.contains(a));
    let m = perm.map_values(|x: usize| x as int);
    assert(m.contains(a));
    let t = choose|t: int| 0 <= t < m.len() && #[trigger] m[t] == a;
    assert(perm[t] == a);
}

impl SignalNotFound {
    /// The text of the error, with the suggestions when there are any.
    pub fn message(&self) -> (r: String)
        ensures
            r@ == not_found_message(self.signal@, string_views(self.suggestions@)),
    {
        let mut out = String::from_str("signal '");
        out.append(self.signal.as_str());
        out.append("' not found");
        if self.suggestions.len() == 0 {
            proof {
                reveal_strlit("signal '");
                reveal_strlit("' not found");
            }
            return out;
        }
        out.append(". Similar signals (hierarchical names): ");
        let mut i: usize = 0;
        while i < self.suggestions.len()
            invariant
                i <= self.suggestions@.len(),
                out@ == "signal '"@ + self.signal@ + "' not found"@
                    + ". Similar signals (hierarchical names): "@ + quoted_list(
                    string_views(self.suggestions@).subrange(0, i as int),
                ),
            decreases self.suggestions@.len() - i,
        {
            let ghost before = out@;
            if i > 0 {
                out.append(", ");
            }
            out.append("'");
            out.append(self.suggestions[i].as_str());
            out.append("'");
            proof {
                let sv = string_views(self.suggestions@);
                assert(sv.subrange(0, i + 1).drop_last() =~= sv.subrange(0, i as int));
                reveal_strlit(", ");
                reveal_strlit("'");
                if i == 0 {
                    assert(quoted_list(sv.subrange(0, i as int)) =~= Seq::<char>::empty());
                }
                assert(out@ =~= before + (if i > 0 { ", "@ } else { Seq::<char>::empty() }) + "'"@ + sv[i as int] + "'"@);
            }
            i = i + 1;
        }
        out.append(". Which one did you mean?");
        proof {
            let sv = string_views(self.suggestions@);
            assert(sv.subrange(0, sv.len() as int) =~= sv);
            assert(out@ =~= not_found_message(self.signal@, sv));
        }
        out
    }
}

/// The suggestions, each in single quotes, separated by ", ".
pub open spec fn quoted_list(names: Seq<Seq<char>>) -> Seq<char>
    decreases names.len(),
{
    if names.len() == 0 {
        Seq::<char>::empty()
    } else if names.len() == 1 {
        "'"@ + names[0] + "'"@
    } else {
        quoted_list(names.drop_last()) + ", "@ + "'"@ + names.last() + "'"@
    }
}

/// The message of a failed signal lookup.
pub open spec fn not_found_message(signal: Seq<char>, suggestions: Seq<Seq<char>>) -> Seq<char> {
    if suggestions.len() == 0 {
        "signal '"@ + signal + "' not found"@
    } else {
        "signal '"@ + signal + "' not found"@ + ". Similar signals (hierarchical names): "@
            + quoted_list(suggestions) + ". Which one did you mean?"@
    }
}

} // verus!
