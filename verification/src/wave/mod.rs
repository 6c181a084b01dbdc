use vstd::prelude::*;

use crate::debug_text::append_chars;
use crate::error::SvaError;
use crate::name_map::NameMap;
use crate::text::{
    chars_of, digit_char, find_last, join_chars, join_with, last_index_of, lemma_last_index_of,
    slice_chars, spec_starts_with, split_char, split_chars, split_once, split_once_char, starts_with,
    string_of, views_of,
};
use crate::types::{SignalNode, StableSliceGraphJson, StableSliceNodeJson, Timestamp};
use vstd::utf8::encode_utf8;

pub mod reader;

pub use reader::{apply_scope_remap_to_graph, WellenReader};

verus! {

/// The value of a signal at a time: its bits as text, and their hexadecimal
/// form when every bit is a 0 or a 1.
#[derive(Debug)]
pub struct SignalValue {
    pub raw_bits: String,
    pub pretty_hex: Option<String>,
}

/// Something that reads signal values from a waveform.
pub trait WaveformReader {
    fn signal_value_at(&self, signal: &SignalNode, time: Timestamp) -> Result<Option<SignalValue>, SvaError>;
}

pub open spec fn is_bit(c: char) -> bool {
    c == '0' || c == '1'
}

pub open spec fn bit_value(c: char) -> nat {
    if c == '1' {
        1
    } else {
        0
    }
}

/// How many zeros bring `n` bits up to a multiple of four.
pub open spec fn pad_len(n: nat) -> nat {
    ((4 - n % 4) % 4) as nat
}

/// The bits with zeros in front, up to a multiple of four.
pub open spec fn padded_bits(bits: Seq<char>) -> Seq<char> {
    Seq::new(pad_len(bits.len()), |i: int| '0') + bits
}

/// The value of the four bits of `p` at `4 * k`.
pub open spec fn nibble(p: Seq<char>, k: int) -> nat {
    8 * bit_value(p[4 * k]) + 4 * bit_value(p[4 * k + 1]) + 2 * bit_value(p[4 * k + 2]) + bit_value(p[4 * k + 3])
}

/// A lower-case hexadecimal digit.
pub open spec fn hex_char(v: nat) -> char {
    if v < 10 {
        digit_char(v)
    } else if v == 10 {
        'a'
    } else if v == 11 {
        'b'
    } else if v == 12 {
        'c'
    } else if v == 13 {
        'd'
    } else if v == 14 {
        'e'
    } else {
        'f'
    }
}

/// `0x` and one hexadecimal digit per four bits, when the text is a
/// non-empty string of 0s and 1s.
pub open spec fn hex_text(bits: Seq<char>) -> Option<Seq<char>> {
    if bits.len() == 0 || exists|i: int| 0 <= i < bits.len() && !is_bit(#[trigger] bits[i]) {
        None
    } else {
        let p = padded_bits(bits);
        Some(seq!['0', 'x'] + Seq::new(p.len() / 4, |k: int| hex_char(nibble(p, k))))
    }
}

fn hex_digit(v: u32) -> (r: char)
    requires
        v < 16,
    ensures
        r == hex_char(v as nat),
{
    if v == 0 { '0' }
    else if v == 1 { '1' }
    else if v == 2 { '2' }
    else if v == 3 { '3' }
    else if v == 4 { '4' }
    else if v == 5 { '5' }
    else if v == 6 { '6' }
    else if v == 7 { '7' }
    else if v == 8 { '8' }
    else if v == 9 { '9' }
    else if v == 10 { 'a' }
    else if v == 11 { 'b' }
    else if v == 12 { 'c' }
    else if v == 13 { 'd' }
    else if v == 14 { 'e' }
    else { 'f' }
}

/// The hexadecimal form of a text of bits: `0x` and one digit per four bits
/// (zeros added in front); none unless every character is a 0 or a 1.
pub fn pretty_hex(raw_bits: &str) -> (r: Option<String>)
    ensures
        match r {
            Some(s) => hex_text(raw_bits@) == Some(s@),
            None => hex_text(raw_bits@) is None,
        },
{
    let bits = chars_of(raw_bits);
    let n = bits.len();
    if n == 0 {
        return None;
    }
    let mut i: usize = 0;
    while i < n
        invariant
            n == bits@.len(),
            bits@ == raw_bits@,
            i <= n,
            forall|j: int| 0 <= j < i ==> is_bit(bits@[j]),
        decreases n - i,
    {
        if bits[i] != '0' && bits[i] != '1' {
            proof {
                assert(!is_bit(raw_bits@[i as int]));
            }
            return None;
        }
        i = i + 1;
    }
    let rem = n % 4;
    let pad: usize = if rem == 0 {
        0
    } else {
        4 - rem
    };
    let chunks: usize = n / 4 + if rem == 0 {
        0
    } else {
        1
    };
    let ghost p = padded_bits(bits@);
    proof {
        assert(pad == pad_len(n as nat));
        assert(p.len() == pad + n);
        assert(chunks == p.len() / 4) by (nonlinear_arith)
            requires
                p.len() == pad + n,
                rem == n % 4,
                pad == (if rem == 0 { 0int } else { 4 - rem }),
                chunks == n / 4 + (if rem == 0 { 0int } else { 1int }),
        ;
    }
    let mut out: Vec<char> = Vec::new();
    out.push('0');
    out.push('x');
    let mut k: usize = 0;
    while k < chunks
        invariant
            n == bits@.len(),
            p == padded_bits(bits@),
            p.len() == pad + n,
            chunks == p.len() / 4,
            pad < 4,
            k <= chunks,
            out@ == seq!['0', 'x'] + Seq::new(k as nat, |j: int| hex_char(nibble(p, j))),
        decreases chunks - k,
    {
        let mut v: u32 = 0;
        let mut j: usize = 0;
        let ghost base: int = 4 * k;
        while j < 4
            invariant
                n == bits@.len(),
                p == padded_bits(bits@),
                p.len() == pad + n,
                chunks == p.len() / 4,
                pad < 4,
                k < chunks,
                base == 4 * k,
                j <= 4,
                v < pow2_u32(j),
                v as nat == partial_nibble(p, base, j as int),
            decreases 4 - j,
        {
            let pos: u128 = 4 * (k as u128) + (j as u128);
            proof {
                assert(pos < p.len()) by (nonlinear_arith)
                    requires
                        pos == 4 * k + j,
                        j < 4,
                        k < chunks,
                        chunks == p.len() / 4,
                ;
            }
            let c = if pos < pad as u128 {
                '0'
            } else {
                bits[(pos - pad as u128) as usize]
            };
            proof {
                assert(c == p[pos as int]);
            }
            let b: u32 = if c == '1' {
                1
            } else {
                0
            };
            v = v * 2 + b;
            proof {
                assert(partial_nibble(p, base, j + 1) == partial_nibble(p, base, j as int) * 2 + bit_value(p[base + j]));
            }
            j = j + 1;
        }
        proof {
            assert(partial_nibble(p, base, 4) == nibble(p, k as int)) by {
                reveal_with_fuel(partial_nibble, 5);
            }
        }
        let d = hex_digit(v);
        out.push(d);
        proof {
            assert(Seq::new((k + 1) as nat, |j: int| hex_char(nibble(p, j))) =~= Seq::new(k as nat, |j: int| hex_char(nibble(p, j))).push(d));
        }
        k = k + 1;
    }
    proof {
        assert(forall|j: int| 0 <= j < raw_bits@.len() ==> is_bit(#[trigger] raw_bits@[j]));
    }
    Some(string_of(out.as_slice()))
}

pub open spec fn pow2_u32(j: usize) -> u32 {
    if j == 0 {
        1
    } else if j == 1 {
        2
    } else if j == 2 {
        4
    } else if j == 3 {
        8
    } else {
        16
    }
}

/// The value of the first `j` of the four bits of `p` at `base`.
pub open spec fn partial_nibble(p: Seq<char>, base: int, j: int) -> nat
    decreases j,
{
    if j <= 0 {
        0
    } else {
        partial_nibble(p, base, j - 1) * 2 + bit_value(p[base + j - 1])
    }
}

/// A scope segment that Verilator adds for a generate block or an unnamed block.
pub open spec fn is_wrapper_segment(seg: Seq<char>) -> bool {
    spec_starts_with(seg, "gen_"@) || spec_starts_with(seg, "unnamedblk"@)
}

/// The segments that are not wrapper segments, in order.
pub open spec fn kept_segments(parts: Seq<Seq<char>>) -> Seq<Seq<char>>
    decreases parts.len(),
{
    if parts.len() == 0 {
        Seq::<Seq<char>>::empty()
    } else if is_wrapper_segment(parts.last()) {
        kept_segments(parts.drop_last())
    } else {
        kept_segments(parts.drop_last()).push(parts.last())
    }
}

/// A scope path with its wrapper segments taken out.
pub open spec fn logical_scope(full: Seq<char>) -> Seq<char> {
    join_chars(kept_segments(split_char(full, '.')), '.')
}

/// `fst_scope` without its `gen_*` and `unnamedblk*` segments.
pub fn strip_wrapper_segments(fst_scope: &str) -> (r: String)
    ensures
        r@ == logical_scope(fst_scope@),
{
    let cs = chars_of(fst_scope);
    let parts = split_chars(cs.as_slice(), '.');
    let gen = chars_of("gen_");
    let unnamed = chars_of("unnamedblk");
    let mut kept: Vec<Vec<char>> = Vec::new();
    let mut i: usize = 0;
    while i < parts.len()
        invariant
            i <= parts@.len(),
            gen@ == "gen_"@,
            unnamed@ == "unnamedblk"@,
            views_of(kept@) == kept_segments(views_of(parts@).subrange(0, i as int)),
        decreases parts@.len() - i,
    {
        proof {
            assert(views_of(parts@).subrange(0, i + 1).drop_last() =~= views_of(parts@).subrange(0, i as int));
        }
        if !(starts_with(parts[i].as_slice(), gen.as_slice()) || starts_with(parts[i].as_slice(), unnamed.as_slice())) {
            let ghost before = kept@;
            kept.push(slice_chars(parts[i].as_slice(), 0, parts[i].len()));
            proof {
                assert(parts@[i as int]@.subrange(0, parts@[i as int]@.len() as int) =~= parts@[i as int]@);
                assert(views_of(kept@) =~= views_of(before).push(parts@[i as int]@));
            }
        }
        i = i + 1;
    }
    proof {
        assert(views_of(parts@).subrange(0, parts@.len() as int) =~= views_of(parts@));
    }
    let joined = join_with(&kept, '.');
    string_of(joined.as_slice())
}

/// The length in bytes that `str::len` gives for `s`.
pub open spec fn utf8_len(s: Seq<char>) -> usize {
    encode_utf8(s).len() as usize
}

/// The scope map of a waveform's scopes, in order: each logical scope to the
/// shortest full scope path (by bytes, the first one on a tie) that strips
/// to it; an empty logical scope is left out.
pub open spec fn scope_remap_spec(scopes: Seq<Seq<char>>) -> Map<Seq<char>, Seq<char>>
    decreases scopes.len(),
{
    if scopes.len() == 0 {
        Map::empty()
    } else {
        let m = scope_remap_spec(scopes.drop_last());
        let full = scopes.last();
        let l = logical_scope(full);
        if l.len() == 0 {
            m
        } else if m.contains_key(l) && utf8_len(m[l]) <= utf8_len(full) {
            m
        } else {
            m.insert(l, full)
        }
    }
}

/// A map of texts, read as texts.
pub open spec fn text_map(m: Map<Seq<char>, String>) -> Map<Seq<char>, Seq<char>> {
    m.map_values(|s: String| s@)
}

pub open spec fn string_views(v: Seq<String>) -> Seq<Seq<char>> {
    v.map_values(|s: String| s@)
}

/// The map from logical scopes to full scope paths of the scopes `scopes`.
pub fn build_scope_remap(scopes: &Vec<String>) -> (r: NameMap<String>)
    ensures
        text_map(r.map()) == scope_remap_spec(string_views(scopes@)),
{
    let mut map: NameMap<String> = NameMap::new();
    let ghost sv = string_views(scopes@);
    proof {
        assert(text_map(map.map()) =~= Map::<Seq<char>, Seq<char>>::empty());
        assert(sv.subrange(0, 0) =~= Seq::<Seq<char>>::empty());
    }
    let mut i: usize = 0;
    while i < scopes.len()
        invariant
            sv == string_views(scopes@),
            i <= scopes@.len(),
            text_map(map.map()) == scope_remap_spec(sv.subrange(0, i as int)),
        decreases scopes@.len() - i,
    {
        proof {
            assert(sv.subrange(0, i + 1).drop_last() =~= sv.subrange(0, i as int));
            assert(sv.subrange(0, i + 1).last() == scopes@[i as int]@);
        }
        let full = &scopes[i];
        let logical = strip_wrapper_segments(full.as_str());
        if logical.as_str().unicode_len() > 0 {
            let ghost m = text_map(map.map());
            let keep = match map.get(logical.as_str()) {
                Some(existing) => {
                    proof {
                        assert(m.contains_key(logical@));
                        assert(m[logical@] == existing@);
                    }
                    existing.as_str().len() <= full.as_str().len()
                },
                None => {
                    proof {
                        assert(!m.contains_key(logical@));
                    }
                    false
                },
            };
            proof {
                assert(keep == (m.contains_key(logical@) && utf8_len(m[logical@]) <= utf8_len(full@)));
            }
            if !keep {
                let ghost m0 = map.map();
                map.insert(logical, full.clone());
                proof {
                    assert(text_map(map.map()) =~= text_map(m0).insert(logical_scope(full@), full@));
                }
            }
        }
        i = i + 1;
    }
    proof {
        assert(sv.subrange(0, scopes@.len() as int) =~= sv);
    }
    map
}

/// The lookup a waveform's variables give, in order: each full name to its
/// signal; each name without its first segment to the signal too, unless two
/// different signals share that shorter name, which then maps to none.
pub open spec fn signal_lookup_spec(vars: Seq<(Seq<char>, usize)>) -> Map<Seq<char>, Option<usize>>
    decreases vars.len(),
{
    if vars.len() == 0 {
        Map::empty()
    } else {
        let m = signal_lookup_spec(vars.drop_last());
        let full = vars.last().0;
        let r = vars.last().1;
        let m1 = m.insert(full, Some(r));
        match split_once(full, '.') {
            Some((_, suffix)) => if !m1.contains_key(suffix) {
                m1.insert(suffix, Some(r))
            } else if m1[suffix] == Some(r) {
                m1
            } else {
                m1.insert(suffix, None)
            },
            None => m1,
        }
    }
}

pub open spec fn var_views(vars: Seq<(String, usize)>) -> Seq<(Seq<char>, usize)> {
    vars.map_values(|v: (String, usize)| (v.0@, v.1))
}

/// The signal lookup of the variables `vars` (full name, signal number).
pub fn build_signal_lookup(vars: &Vec<(String, usize)>) -> (r: NameMap<Option<usize>>)
    ensures
        r.map() == signal_lookup_spec(var_views(vars@)),
{
    let mut map: NameMap<Option<usize>> = NameMap::new();
    let ghost vv = var_views(vars@);
    proof {
        assert(vv.subrange(0, 0) =~= Seq::<(Seq<char>, usize)>::empty());
    }
    let mut i: usize = 0;
    while i < vars.len()
        invariant
            vv == var_views(vars@),
            i <= vars@.len(),
            map.map() == signal_lookup_spec(vv.subrange(0, i as int)),
        decreases vars@.len() - i,
    {
        proof {
            assert(vv.subrange(0, i + 1).drop_last() =~= vv.subrange(0, i as int));
            assert(vv.subrange(0, i + 1).last() == (vars@[i as int].0@, vars@[i as int].1));
        }
        let full = &vars[i].0;
        let r = vars[i].1;
        map.insert(full.clone(), Some(r));
        let cs = chars_of(full.as_str());
        match split_once_char(cs.as_slice(), '.') {
            Some((_, suffix)) => {
                let suffix_text = string_of(suffix.as_slice());
                let update: Option<Option<usize>> = match map.get(suffix_text.as_str()) {
                    None => Some(Some(r)),
                    Some(Some(existing)) => if *existing == r {
                        None
                    } else {
                        Some(None)
                    },
                    Some(None) => Some(None),
                };
                match update {
                    Some(v) => map.insert(suffix_text, v),
                    None => {},
                }
            },
            None => {},
        }
        i = i + 1;
    }
    proof {
        assert(vv.subrange(0, vars@.len() as int) =~= vv);
    }
    map
}

/// Position of the last entry of an ascending time table at or before `t`
/// (what `binary_search` leads to); none when every entry is later.
pub fn time_index(table: &Vec<u64>, t: u64) -> (r: Option<usize>)
    ensures
        (forall|a: int, b: int| 0 <= a < b < table@.len() ==> table@[a] < table@[b]) ==> match r {
            Some(i) => i < table@.len() && table@[i as int] <= t && (i + 1 == table@.len() || table@[i + 1] > t),
            None => table@.len() == 0 || table@[0] > t,
        },
{
    let mut lo: usize = 0;
    let mut hi: usize = table.len();
    while lo < hi
        invariant
            lo <= hi <= table@.len(),
            (forall|a: int, b: int| 0 <= a < b < table@.len() ==> table@[a] < table@[b]) ==> (forall|a: int|
                0 <= a < lo ==> table@[a] <= t) && (forall|a: int| hi <= a < table@.len() ==> table@[a] > t),
        decreases hi - lo,
    {
        let mid = lo + (hi - lo) / 2;
        if table[mid] <= t {
            lo = mid + 1;
        } else {
            hi = mid;
        }
    }
    if lo == 0 {
        None
    } else {
        Some(lo - 1)
    }
}

/// The full scope path that `remap` gives for a logical scope.
pub open spec fn remap_scope_spec(remap: Map<Seq<char>, Seq<char>>, logical: Seq<char>) -> Option<Seq<char>> {
    if logical.len() == 0 || remap.dom() =~= Set::<Seq<char>>::empty() || !remap.contains_key(logical) {
        None
    } else {
        Some(remap[logical])
    }
}

/// The full scope path for a logical scope; none for an empty scope, an
/// empty map, or an unknown scope.
pub fn remap_scope_in<'a>(remap: &'a NameMap<String>, logical: &str) -> (r: Option<&'a str>)
    ensures
        match r {
            Some(f) => remap_scope_spec(text_map(remap.map()), logical@) == Some(f@),
            None => remap_scope_spec(text_map(remap.map()), logical@) is None,
        },
{
    if logical.unicode_len() == 0 {
        return None;
    }
    if remap.is_empty() {
        proof {
            assert(text_map(remap.map()).dom() =~= Set::<Seq<char>>::empty());
        }
        return None;
    }
    proof {
        assert(!(text_map(remap.map()).dom() =~= Set::<Seq<char>>::empty())) by {
            if text_map(remap.map()).dom() =~= Set::<Seq<char>>::empty() {
                assert(remap.map().dom() =~= Set::<Seq<char>>::empty());
            }
        }
    }
    match remap.get(logical) {
        Some(f) => Some(f.as_str()),
        None => None,
    }
}

/// The full name of a logical signal: its scope (before the last `.`)
/// mapped, when that changes it, then `.` and the variable name.
pub open spec fn remap_signal_spec(remap: Map<Seq<char>, Seq<char>>, logical: Seq<char>) -> Option<Seq<char>> {
    match last_index_of(logical, '.') {
        Some(i) => {
            let scope = logical.subrange(0, i);
            let var = logical.subrange(i + 1, logical.len() as int);
            match remap_scope_spec(remap, scope) {
                Some(f) => if f == scope {
                    None
                } else {
                    Some(f + seq!['.'] + var)
                },
                None => None,
            }
        },
        None => None,
    }
}

pub fn remap_signal_in(remap: &NameMap<String>, logical_signal: &str) -> (r: Option<String>)
    ensures
        match r {
            Some(s) => remap_signal_spec(text_map(remap.map()), logical_signal@) == Some(s@),
            None => remap_signal_spec(text_map(remap.map()), logical_signal@) is None,
        },
{
    let cs = chars_of(logical_signal);
    proof {
        lemma_last_index_of(cs@, '.');
    }
    let i = match find_last(cs.as_slice(), '.') {
        Some(i) => i,
        None => {
            return None;
        },
    };
    assert(i < cs.len());
    let scope = string_of(slice_chars(cs.as_slice(), 0, i).as_slice());
    let var = slice_chars(cs.as_slice(), i + 1, cs.len());
    let fst = match remap_scope_in(remap, scope.as_str()) {
        Some(f) => f,
        None => {
            return None;
        },
    };
    if crate::text::str_eq(fst, scope.as_str()) {
        return None;
    }
    let mut out = chars_of(fst);
    out.push('.');
    append_chars(&mut out, var.as_slice());
    proof {
        assert(out@ =~= fst@ + seq!['.'] + var@);
    }
    Some(string_of(out.as_slice()))
}

/// A name with its scope mapped when `remap` has a different full scope for
/// it, else unchanged.
pub open spec fn remapped_name(remap: Map<Seq<char>, Seq<char>>, name: Seq<char>) -> Seq<char> {
    match remap_signal_spec(remap, name) {
        Some(x) => x,
        None => name,
    }
}

/// A block scope mapped to its full scope path when `remap` has one.
pub open spec fn remapped_scope(remap: Map<Seq<char>, Seq<char>>, scope: Seq<char>) -> Seq<char> {
    match remap_scope_spec(remap, scope) {
        Some(f) => f,
        None => scope,
    }
}

/// Rewrites a stable slice graph to the waveform's full scope paths: the
/// target, the block scopes, the signals of the edges and of the literal
/// nodes; everything else, and every name without a mapping, is kept.
/// `g1` is `g0` with its scopes and hierarchical signal names rewritten by
/// the scope map `m`, everything else kept.
pub open spec fn remapped_graph(m: Map<Seq<char>, Seq<char>>, g0: StableSliceGraphJson, g1: StableSliceGraphJson) -> bool {
    &&& g1.target@ == remapped_name(m, g0.target@)
    &&& g1.start_time == g0.start_time
    &&& g1.blocks@.len() == g0.blocks@.len()
    &&& forall|b: int| 0 <= b < g0.blocks@.len() ==> {
        let nb = #[trigger] g1.blocks@[b];
        let ob = g0.blocks@[b];
        &&& nb.scope@ == remapped_scope(m, ob.scope@)
        &&& nb.id == ob.id && nb.block_type == ob.block_type && nb.source_file == ob.source_file
        &&& nb.line_start == ob.line_start && nb.line_end == ob.line_end
        &&& nb.ast_line_start == ob.ast_line_start && nb.ast_line_end == ob.ast_line_end
        &&& nb.code_snippet == ob.code_snippet
    }
    &&& g1.edges@.len() == g0.edges@.len()
    &&& forall|e: int| 0 <= e < g0.edges@.len() ==> {
        let ne = #[trigger] g1.edges@[e];
        let oe = g0.edges@[e];
        &&& ne.from == oe.from && ne.to == oe.to
        &&& match (ne.signal, oe.signal) {
            (Some(ns), Some(os)) => ns.name@ == remapped_name(m, os.name@) && ns.kind == os.kind && ns.locate == os.locate,
            (None, None) => true,
            _ => false,
        }
    }
    &&& g1.nodes@.len() == g0.nodes@.len()
    &&& forall|n: int| 0 <= n < g0.nodes@.len() ==> match (#[trigger] g1.nodes@[n], g0.nodes@[n]) {
        (StableSliceNodeJson::Literal { id: ni, signal: ns, time: nt }, StableSliceNodeJson::Literal { id: oi, signal: os, time: ot }) =>
            ni == oi && nt == ot && ns.kind == os.kind && ns.locate == os.locate && ns.name@ == remapped_name(m, os.name@),
        (StableSliceNodeJson::Block { .. }, StableSliceNodeJson::Block { .. }) => g1.nodes@[n] == g0.nodes@[n],
        _ => false,
    }
}

pub fn apply_scope_remap(remap: &NameMap<String>, graph: &mut StableSliceGraphJson)
    ensures
        remapped_graph(text_map(remap.map()), *old(graph), *final(graph)),
{
    let ghost m = text_map(remap.map());
    let ghost g0 = *graph;
    match remap_signal_in(remap, graph.target.as_str()) {
        Some(t) => {
            graph.target = t;
        },
        None => {},
    }
    let mut blocks: Vec<crate::types::BlockJson> = Vec::new();
    std::mem::swap(&mut blocks, &mut graph.blocks);
    let mut edges: Vec<crate::types::StableSliceEdgeJson> = Vec::new();
    std::mem::swap(&mut edges, &mut graph.edges);
    let mut nodes: Vec<StableSliceNodeJson> = Vec::new();
    std::mem::swap(&mut nodes, &mut graph.nodes);
    let mut b: usize = 0;
    while b < blocks.len()
        invariant
            m == text_map(remap.map()),
            blocks@.len() == g0.blocks@.len(),
            b <= blocks@.len(),
            forall|x: int| 0 <= x < g0.blocks@.len() ==> {
                let nb = #[trigger] blocks@[x];
                let ob = g0.blocks@[x];
                &&& nb.scope@ == (if x < b { remapped_scope(m, ob.scope@) } else { ob.scope@ })
                &&& nb.id == ob.id && nb.block_type == ob.block_type && nb.source_file == ob.source_file
                &&& nb.line_start == ob.line_start && nb.line_end == ob.line_end
                &&& nb.ast_line_start == ob.ast_line_start && nb.ast_line_end == ob.ast_line_end
                &&& nb.code_snippet == ob.code_snippet
            },
        decreases blocks@.len() - b,
    {
        let new_scope = match remap_scope_in(remap, blocks[b].scope.as_str()) {
            Some(f) => Some(f.to_owned()),
            None => None,
        };
        match new_scope {
            Some(f) => {
                let mut blk = blocks[b].clone();
                blk.scope = f;
                blocks.set(b, blk);
            },
            None => {},
        }
        b = b + 1;
    }
    let mut e: usize = 0;
    while e < edges.len()
        invariant
            m == text_map(remap.map()),
            edges@.len() == g0.edges@.len(),
            e <= edges@.len(),
            forall|x: int| 0 <= x < g0.edges@.len() ==> {
                let ne = #[trigger] edges@[x];
                let oe = g0.edges@[x];
                &&& ne.from == oe.from && ne.to == oe.to
                &&& match (ne.signal, oe.signal) {
                    (Some(ns), Some(os)) => ns.name@ == (if x < e { remapped_name(m, os.name@) } else { os.name@ }) && ns.kind == os.kind
                        && ns.locate == os.locate,
                    (None, None) => true,
                    _ => false,
                }
            },
        decreases edges@.len() - e,
    {
        let renamed = match &edges[e].signal {
            Some(sig) => remap_signal_in(remap, sig.name.as_str()),
            None => None,
        };
        match renamed {
            Some(name) => {
                let mut edge = edges[e].clone();
                match &mut edge.signal {
                    Some(sig) => {
                        sig.name = name;
                    },
                    None => {},
                }
                edges.set(e, edge);
            },
            None => {},
        }
        e = e + 1;
    }
    let mut n: usize = 0;
    while n < nodes.len()
        invariant
            m == text_map(remap.map()),
            nodes@.len() == g0.nodes@.len(),
            n <= nodes@.len(),
            forall|x: int| 0 <= x < g0.nodes@.len() ==> match (#[trigger] nodes@[x], g0.nodes@[x]) {
                (StableSliceNodeJson::Literal { id: ni, signal: ns, time: nt }, StableSliceNodeJson::Literal { id: oi, signal: os, time: ot }) =>
                    ni == oi && nt == ot && ns.kind == os.kind && ns.locate == os.locate && ns.name@ == (if x < n {
                    remapped_name(m, os.name@)
                } else {
                    os.name@
                }),
                (StableSliceNodeJson::Block { .. }, StableSliceNodeJson::Block { .. }) => nodes@[x] == g0.nodes@[x],
                _ => false,
            },
        decreases nodes@.len() - n,
    {
        let replacement = match &nodes[n] {
            StableSliceNodeJson::Literal { id, signal, time } => match remap_signal_in(remap, signal.name.as_str()) {
                Some(name) => Some(
                    StableSliceNodeJson::Literal {
                        id: *id,
                        signal: SignalNode { kind: signal.kind, name, locate: signal.locate },
                        time: *time,
                    },
                ),
                None => None,
            },
            StableSliceNodeJson::Block { .. } => None,
        };
        match replacement {
            Some(node) => {
                nodes.set(n, node);
            },
            None => {},
        }
        n = n + 1;
    }
    graph.blocks = blocks;
    graph.edges = edges;
    graph.nodes = nodes;
}

} // verus!
