use vstd::prelude::*;

use crate::text::{chars_of, str_eq};
use crate::types::{SignalKey, SignalNode, SignalNodeKind};

use super::{dedup_signals, distinct_keys, has_key};

verus! {

/// Keywords that the text of an expression can hold but that name no signal.
pub open spec fn reserved_word(name: Seq<char>) -> bool {
    ||| name == "assign"@
    ||| name == "always_comb"@
    ||| name == "always_ff"@
    ||| name == "begin"@
    ||| name == "end"@
    ||| name == "if"@
    ||| name == "else"@
    ||| name == "case"@
    ||| name == "endcase"@
    ||| name == "module"@
    ||| name == "endmodule"@
    ||| name == "logic"@
    ||| name == "input"@
    ||| name == "output"@
    ||| name == "posedge"@
    ||| name == "default"@
}

pub open spec fn ascii_digit(c: char) -> bool {
    '0' <= c <= '9'
}

pub open spec fn ascii_letter(c: char) -> bool {
    ('a' <= c <= 'z') || ('A' <= c <= 'Z')
}

/// A signal name: not empty, not a keyword, not all digits, and starting
/// with an ASCII letter or an underscore.
pub open spec fn spec_is_signal_name(name: Seq<char>) -> bool {
    &&& name.len() > 0
    &&& !reserved_word(name)
    &&& !(forall|i: int| 0 <= i < name.len() ==> ascii_digit(#[trigger] name[i]))
    &&& (ascii_letter(name[0]) || name[0] == '_')
}

/// Whether `name` can name a signal (see `spec_is_signal_name`).
pub fn is_signal_name(name: &str) -> (r: bool)
    ensures
        r == spec_is_signal_name(name@),
{
    let cs = chars_of(name);
    if cs.len() == 0 {
        return false;
    }
    if str_eq(name, "assign") || str_eq(name, "always_comb") || str_eq(name, "always_ff") || str_eq(name, "begin")
        || str_eq(name, "end") || str_eq(name, "if") || str_eq(name, "else") || str_eq(name, "case") || str_eq(
        name,
        "endcase",
    ) || str_eq(name, "module") || str_eq(name, "endmodule") || str_eq(name, "logic") || str_eq(name, "input")
        || str_eq(name, "output") || str_eq(name, "posedge") || str_eq(name, "default") {
        return false;
    }
    let mut all_digits = true;
    let mut i: usize = 0;
    while i < cs.len()
        invariant
            i <= cs@.len(),
            all_digits == (forall|j: int| 0 <= j < i ==> ascii_digit(#[trigger] cs@[j])),
        decreases cs@.len() - i,
    {
        let c = cs[i];
        if !('0' <= c && c <= '9') {
            all_digits = false;
        }
        i = i + 1;
    }
    if all_digits {
        return false;
    }
    let c = cs[0];
    ('a' <= c && c <= 'z') || ('A' <= c && c <= 'Z') || c == '_'
}

/// The signals an expression's text names: each signal once, keeping the
/// literals and the nodes whose text can name a signal.
pub fn expression_signals(nodes: &Vec<SignalNode>) -> (r: Vec<SignalNode>)
    ensures
        distinct_keys(r@),
        forall|k: SignalKey|
            #[trigger] has_key(r@, k) <==> has_key(nodes@, k) && (k.0 == SignalNodeKind::Literal || spec_is_signal_name(k.1)),
{
    let distinct = dedup_signals(nodes);
    let mut out: Vec<SignalNode> = Vec::new();
    let mut i: usize = 0;
    while i < distinct.len()
        invariant
            i <= distinct@.len(),
            distinct_keys(distinct@),
            distinct_keys(out@),
            forall|k: SignalKey|
                #[trigger] has_key(out@, k) <==> has_key(distinct@.subrange(0, i as int), k) && (k.0 == SignalNodeKind::Literal
                    || spec_is_signal_name(k.1)),
        decreases distinct@.len() - i,
    {
        let n = &distinct[i];
        let ghost before = out@;
        let ghost sub = distinct@.subrange(0, i as int);
        let ghost next = distinct@.subrange(0, i + 1);
        let keep = n.is_literal() || is_signal_name(n.as_str());
        if keep {
            out.push(n.clone());
        }
        proof {
            assert forall|k: SignalKey| #[trigger] has_key(next, k) <==> has_key(sub, k) || distinct@[i as int]@ == k by {
                if has_key(next, k) {
                    let z = choose|z: int| 0 <= z < next.len() && #[trigger] next[z]@ == k;
                    if z < i {
                        assert(sub[z]@ == k);
                    }
                }
                if has_key(sub, k) {
                    let z = choose|z: int| 0 <= z < sub.len() && #[trigger] sub[z]@ == k;
                    assert(next[z]@ == k);
                }
                if distinct@[i as int]@ == k {
                    assert(next[i as int]@ == k);
                }
            }
            assert forall|k: SignalKey|
                #[trigger] has_key(out@, k) <==> has_key(next, k) && (k.0 == SignalNodeKind::Literal || spec_is_signal_name(
                    k.1,
                )) by {
                if has_key(out@, k) {
                    let z = choose|z: int| 0 <= z < out@.len() && #[trigger] out@[z]@ == k;
                    if z < before.len() {
                        assert(before[z]@ == k);
                    }
                }
                if has_key(before, k) {
                    let z = choose|z: int| 0 <= z < before.len() && #[trigger] before[z]@ == k;
                    assert(out@[z]@ == k);
                }
                if keep && distinct@[i as int]@ == k {
                    assert(out@[out@.len() - 1]@ == k);
                }
            }
            if keep {
                if has_key(before, distinct@[i as int]@) {
                    assert(has_key(sub, distinct@[i as int]@));
                    let x = choose|x: int| 0 <= x < sub.len() && #[trigger] sub[x]@ == distinct@[i as int]@;
                    assert(distinct@[x]@ != distinct@[i as int]@);
                }
                assert forall|a: int, b: int| 0 <= a < b < out@.len() implies out@[a]@ != out@[b]@ by {
                    if b == before.len() {
                        assert(out@[a] == before[a]);
                        assert(has_key(before, before[a]@));
                    } else {
                        assert(out@[a] == before[a]);
                        assert(out@[b] == before[b]);
                    }
                }
            }
        }
        i = i + 1;
    }
    proof {
        assert(distinct@.subrange(0, distinct@.len() as int) =~= distinct@);
    }
    out
}

} // verus!
