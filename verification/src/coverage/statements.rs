use vstd::prelude::*;

use vstd::string::StringSliceAdditionalSpecFns;

use crate::text::{
    all_digits, chars_of, digits_value, is_ascii_digit, lemma_digits_value_grows, parse_usize, parse_usize_spec,
    lines_of, slice_chars, spec_is_ascii_digit, split_once, split_once_char, str_eq, string_of, text_lines, views_of,
};
use vstd::utf8::{decode_utf8, encode_utf8, is_char_boundary};
use crate::debug_text::{append_chars, append_str};
use crate::name_map::NameMap;
use crate::order::{
    key_views, lemma_seq_lt_total, lemma_seq_lt_transitive, lemma_sorted_perm_unique, lex_lt, push_text_key, seq_lt,
    sort_perm, sorted_perm, text_key,
};
use crate::wave::{utf8_len, WaveformReader, WellenReader};
use crate::error::SvaError;
use crate::types::{SignalNode, SignalNodeKind, Timestamp};
use crate::block::{Block, BlockType, CircuitType};
use crate::ast::ParsedFile;

verus! {

/// The characters with Unicode's White_Space property, which
/// `char::is_whitespace` and so `str::trim` accept.
pub open spec fn is_white(c: char) -> bool {
    ||| ('\t' <= c && c <= '\r')
    ||| c == ' '
    ||| c == '\u{85}'
    ||| c == '\u{a0}'
    ||| c == '\u{1680}'
    ||| ('\u{2000}' <= c && c <= '\u{200a}')
    ||| c == '\u{2028}'
    ||| c == '\u{2029}'
    ||| c == '\u{202f}'
    ||| c == '\u{205f}'
    ||| c == '\u{3000}'
}

pub fn is_white_char(c: char) -> (r: bool)
    ensures
        r == is_white(c),
{
    ('\t' <= c && c <= '\r') || c == ' ' || c == '\u{85}' || c == '\u{a0}' || c == '\u{1680}' || ('\u{2000}' <= c
        && c <= '\u{200a}') || c == '\u{2028}' || c == '\u{2029}' || c == '\u{202f}' || c == '\u{205f}' || c
        == '\u{3000}'
}

pub open spec fn trim_start(s: Seq<char>) -> Seq<char>
    decreases s.len(),
{
    if s.len() > 0 && is_white(s[0]) {
        trim_start(s.drop_first())
    } else {
        s
    }
}

pub open spec fn trim_end(s: Seq<char>) -> Seq<char>
    decreases s.len(),
{
    if s.len() > 0 && is_white(s.last()) {
        trim_end(s.drop_last())
    } else {
        s
    }
}

/// `str::trim`.
pub open spec fn trim(s: Seq<char>) -> Seq<char> {
    trim_end(trim_start(s))
}

proof fn lemma_trim_start_len(s: Seq<char>)
    ensures
        trim_start(s).len() <= s.len(),
    decreases s.len(),
{
    if s.len() > 0 {
        lemma_trim_start_len(s.drop_first());
    }
}

proof fn lemma_trim_end_len(s: Seq<char>)
    ensures
        trim_end(s).len() <= s.len(),
    decreases s.len(),
{
    if s.len() > 0 {
        lemma_trim_end_len(s.drop_last());
    }
}

pub proof fn lemma_trim_len(s: Seq<char>)
    ensures
        trim(s).len() <= s.len(),
{
    lemma_trim_start_len(s);
    lemma_trim_end_len(trim_start(s));
}

/// `str::trim` on characters.
pub fn trim_chars(s: &[char]) -> (r: Vec<char>)
    ensures
        r@ == trim(s@),
{
    let n = s.len();
    let mut a: usize = 0;
    proof {
        assert(s@.subrange(0, n as int) =~= s@);
    }
    while a < n && is_white_char(s[a])
        invariant
            n == s@.len(),
            a <= n,
            trim_start(s@) == trim_start(s@.subrange(a as int, n as int)),
        decreases n - a,
    {
        proof {
            assert(s@.subrange(a as int, n as int).drop_first() =~= s@.subrange(a + 1, n as int));
        }
        a = a + 1;
    }
    proof {
        if a == n {
            assert(s@.subrange(a as int, n as int) =~= Seq::<char>::empty());
        }
    }
    let mut b: usize = n;
    while b > a && is_white_char(s[b - 1])
        invariant
            n == s@.len(),
            a <= b <= n,
            trim_start(s@) == s@.subrange(a as int, n as int),
            trim(s@) == trim_end(s@.subrange(a as int, b as int)),
        decreases b - a,
    {
        proof {
            assert(s@.subrange(a as int, b as int).drop_last() =~= s@.subrange(a as int, b - 1));
        }
        b = b - 1;
    }
    slice_chars(s, a, b)
}

/// `s` without the character `c`.
pub open spec fn without_char(s: Seq<char>, c: char) -> Seq<char>
    decreases s.len(),
{
    if s.len() == 0 {
        s
    } else if s.last() == c {
        without_char(s.drop_last(), c)
    } else {
        without_char(s.drop_last(), c).push(s.last())
    }
}

pub fn remove_char(s: &[char], c: char) -> (r: Vec<char>)
    ensures
        r@ == without_char(s@, c),
{
    let mut out: Vec<char> = Vec::new();
    let mut i: usize = 0;
    while i < s.len()
        invariant
            i <= s@.len(),
            out@ == without_char(s@.subrange(0, i as int), c),
        decreases s@.len() - i,
    {
        proof {
            assert(s@.subrange(0, i + 1).drop_last() =~= s@.subrange(0, i as int));
        }
        if s[i] != c {
            out.push(s[i]);
        }
        i = i + 1;
    }
    proof {
        assert(s@.subrange(0, s@.len() as int) =~= s@);
    }
    out
}

/// The first position at which `p` occurs in `s`.
#[verifier::opaque]
pub open spec fn first_occurrence(s: Seq<char>, p: Seq<char>) -> Option<int> {
    if exists|k: int| 0 <= k && k + p.len() <= s.len() && #[trigger] s.subrange(k, k + p.len()) == p {
        Some(
            choose|k: int|
                0 <= k && k + p.len() <= s.len() && #[trigger] s.subrange(k, k + p.len()) == p && forall|j: int|
                    0 <= j < k ==> #[trigger] s.subrange(j, j + p.len()) != p,
        )
    } else {
        None
    }
}

/// `str::split_once` with a text separator: the text before and after the
/// first occurrence of `p`.
pub open spec fn split_once_text(s: Seq<char>, p: Seq<char>) -> Option<(Seq<char>, Seq<char>)> {
    match first_occurrence(s, p) {
        Some(k) => Some((s.subrange(0, k), s.subrange(k + p.len(), s.len() as int))),
        None => None,
    }
}

/// The first position at which `p` occurs in `s`.
pub fn find_text(s: &[char], p: &[char]) -> (r: Option<usize>)
    ensures
        match r {
            Some(k) => first_occurrence(s@, p@) == Some(k as int) && k + p@.len() <= s@.len() && s@.subrange(
                k as int,
                k + p@.len(),
            ) == p@,
            None => first_occurrence(s@, p@) is None,
        },
{
    let n = s.len();
    if p.len() > n {
        proof {
            reveal(first_occurrence);
        }
        return None;
    }
    let last = n - p.len();
    let mut k: usize = 0;
    while k <= last
        invariant
            n == s@.len(),
            p@.len() <= n,
            last == n - p@.len(),
            k <= last,
            forall|j: int| 0 <= j < k ==> #[trigger] s@.subrange(j, j + p@.len()) != p@,
        decreases n + 1 - k,
    {
        let mut i: usize = 0;
        let mut same = true;
        while i < p.len()
            invariant
                n == s@.len(),
                k <= last,
                last == n - p@.len(),
                i <= p@.len(),
                same == (forall|j: int| 0 <= j < i ==> s@[k + j] == p@[j]),
            decreases p@.len() - i,
        {
            if s[k + i] != p[i] {
                same = false;
            }
            i = i + 1;
        }
        if same {
            proof {
                reveal(first_occurrence);
                assert(s@.subrange(k as int, k + p@.len()) =~= p@);
                let c = choose|c: int|
                    0 <= c && c + p@.len() <= s@.len() && #[trigger] s@.subrange(c, c + p@.len()) == p@ && forall|j: int|
                        0 <= j < c ==> #[trigger] s@.subrange(j, j + p@.len()) != p@;
                assert(0 <= k && k + p@.len() <= s@.len() && s@.subrange(k as int, k + p@.len()) == p@ && forall|j: int|
                    0 <= j < k ==> #[trigger] s@.subrange(j, j + p@.len()) != p@);
                if c < k {
                    assert(s@.subrange(c, c + p@.len()) != p@);
                }
                if c > k {
                    assert(s@.subrange(k as int, k + p@.len()) != p@);
                }
            }
            return Some(k);
        }
        proof {
            let j = choose|j: int| 0 <= j < p@.len() && s@[k + j] != p@[j];
            assert(s@.subrange(k as int, k + p@.len())[j] != p@[j]);
        }
        if k == last {
            proof {
                reveal(first_occurrence);
                assert forall|j: int| 0 <= j && j + p@.len() <= s@.len() implies #[trigger] s@.subrange(j, j + p@.len())
                    != p@ by {
                    assert(j <= k);
                }
            }
            return None;
        }
        k = k + 1;
    }
    None
}

/// Splits `s` around the first occurrence of the text `op`, trimming both sides.
pub open spec fn split_operator(s: Seq<char>, op: Seq<char>) -> Option<(Seq<char>, Seq<char>)> {
    match split_once_text(s, op) {
        Some((l, r)) => Some((trim(l), trim(r))),
        None => None,
    }
}

/// The two sides of the first `operator` in `text`, each trimmed.
pub fn split_once_operator(text: &str, operator: &str) -> (r: Option<(String, String)>)
    ensures
        match r {
            Some((l, x)) => split_operator(text@, operator@) == Some((l@, x@)),
            None => split_operator(text@, operator@) is None,
        },
{
    let s = chars_of(text);
    let p = chars_of(operator);
    let ss = s.as_slice();
    let ps = p.as_slice();
    let n = ss.len();
    match find_text(ss, ps) {
        Some(k) => {
            proof {
                assert(k + ps@.len() <= ss@.len());
            }
            let left = slice_chars(s.as_slice(), 0, k);
            let right = slice_chars(ss, k + ps.len(), n);
            let l = trim_chars(left.as_slice());
            let x = trim_chars(right.as_slice());
            Some((string_of(l.as_slice()), string_of(x.as_slice())))
        },
        None => None,
    }
}

/// Strips a parenthesis pair that wraps the whole (trimmed) text, as often
/// as one does.
pub open spec fn strip_parens(s: Seq<char>) -> Seq<char>
    decreases s.len(),
{
    let t = trim(s);
    if t.len() >= 2 && t[0] == '(' && t.last() == ')' && t.len() <= s.len() {
        strip_parens(t.subrange(1, t.len() - 1))
    } else {
        t
    }
}

/// The text inside any parentheses that wrap all of it, trimmed.
pub fn trim_wrapping_parens(text: &str) -> (r: String)
    ensures
        r@ == strip_parens(text@),
{
    let mut cur = chars_of(text);
    loop
        invariant
            strip_parens(cur@) == strip_parens(text@),
        decreases cur@.len(),
    {
        let t = trim_chars(cur.as_slice());
        proof {
            lemma_trim_len(cur@);
        }
        let n = t.len();
        if !(n >= 1 && t[0] == '(' && t[n - 1] == ')') {
            return string_of(t.as_slice());
        }
        if n < 2 {
            return string_of(t.as_slice());
        }
        cur = slice_chars(t.as_slice(), 1, n - 1);
    }
}

/// The bits of a one-bit value.
pub open spec fn bit_char(b: nat) -> char {
    if b == 0 {
        '0'
    } else {
        '1'
    }
}

/// The binary digits of `n`, most significant first, without leading zeros.
pub open spec fn binary_text(n: nat) -> Seq<char>
    decreases n,
{
    if n < 2 {
        seq![bit_char(n)]
    } else {
        binary_text(n / 2).push(bit_char(n % 2))
    }
}

pub fn u128_binary(n: u128) -> (r: Vec<char>)
    ensures
        r@ == binary_text(n as nat),
    decreases n,
{
    if n < 2 {
        let mut v: Vec<char> = Vec::new();
        v.push(if n == 0 {
            '0'
        } else {
            '1'
        });
        proof {
            assert(v@ =~= seq![bit_char(n as nat)]);
        }
        v
    } else {
        let mut v = u128_binary(n / 2);
        v.push(if n % 2 == 0 {
            '0'
        } else {
            '1'
        });
        v
    }
}

/// The value of a hexadecimal digit, as `char::to_digit(16)` gives it.
pub open spec fn hex_value(c: char) -> Option<nat> {
    if '0' <= c && c <= '9' {
        Some((c as u32 - '0' as u32) as nat)
    } else if 'a' <= c && c <= 'f' {
        Some((c as u32 - 'a' as u32 + 10) as nat)
    } else if 'A' <= c && c <= 'F' {
        Some((c as u32 - 'A' as u32 + 10) as nat)
    } else {
        None
    }
}

/// A value below 16 as four binary digits.
pub open spec fn four_bits(d: nat) -> Seq<char> {
    seq![bit_char((d / 8) % 2), bit_char((d / 4) % 2), bit_char((d / 2) % 2), bit_char(d % 2)]
}

/// Four binary digits for each hexadecimal digit of `s`; other characters
/// are skipped.
pub open spec fn hex_bits(s: Seq<char>) -> Seq<char>
    decreases s.len(),
{
    if s.len() == 0 {
        Seq::<char>::empty()
    } else {
        hex_bits(s.drop_last()) + match hex_value(s.last()) {
            Some(d) => four_bits(d),
            None => Seq::<char>::empty(),
        }
    }
}

fn hex_digit(c: char) -> (r: Option<u32>)
    ensures
        match r {
            Some(d) => hex_value(c) == Some(d as nat) && d < 16,
            None => hex_value(c) is None,
        },
{
    if '0' <= c && c <= '9' {
        Some(c as u32 - '0' as u32)
    } else if 'a' <= c && c <= 'f' {
        Some(c as u32 - 'a' as u32 + 10)
    } else if 'A' <= c && c <= 'F' {
        Some(c as u32 - 'A' as u32 + 10)
    } else {
        None
    }
}

fn bit_of(b: u32) -> (r: char)
    ensures
        r == bit_char(b as nat),
{
    if b == 0 {
        '0'
    } else {
        '1'
    }
}

pub fn hex_to_bits(s: &[char]) -> (r: Vec<char>)
    ensures
        r@ == hex_bits(s@),
{
    let mut out: Vec<char> = Vec::new();
    let mut i: usize = 0;
    while i < s.len()
        invariant
            i <= s@.len(),
            out@ == hex_bits(s@.subrange(0, i as int)),
        decreases s@.len() - i,
    {
        proof {
            assert(s@.subrange(0, i + 1).drop_last() =~= s@.subrange(0, i as int));
        }
        let ghost before = out@;
        match hex_digit(s[i]) {
            Some(d) => {
                out.push(bit_of((d / 8) % 2));
                out.push(bit_of((d / 4) % 2));
                out.push(bit_of((d / 2) % 2));
                out.push(bit_of(d % 2));
                proof {
                    assert(out@ =~= before + four_bits(d as nat));
                }
            },
            None => {
                proof {
                    assert(out@ =~= before + Seq::<char>::empty());
                }
            },
        }
        i = i + 1;
    }
    proof {
        assert(s@.subrange(0, s@.len() as int) =~= s@);
    }
    out
}

/// What `str::parse::<u128>` gives: an optional `+`, then one or more
/// digits whose value fits.
pub open spec fn parse_u128_spec(s: Seq<char>) -> Option<u128> {
    let body = if s.len() > 0 && s[0] == '+' {
        s.drop_first()
    } else {
        s
    };
    if body.len() > 0 && all_digits(body) && digits_value(body) <= u128::MAX {
        Some(digits_value(body) as u128)
    } else {
        None
    }
}

/// Parses a decimal `u128` as `str::parse` does.
pub fn parse_u128(s: &[char]) -> (r: Option<u128>)
    ensures
        r == parse_u128_spec(s@),
{
    let start: usize = if s.len() > 0 && s[0] == '+' {
        1
    } else {
        0
    };
    let ghost body = if s@.len() > 0 && s@[0] == '+' {
        s@.drop_first()
    } else {
        s@
    };
    proof {
        assert(body =~= s@.subrange(start as int, s@.len() as int));
    }
    if start >= s.len() {
        return None;
    }
    let mut value: u128 = 0;
    let mut i: usize = start;
    while i < s.len()
        invariant
            start <= i <= s@.len(),
            body == (if s@.len() > 0 && s@[0] == '+' {
                s@.drop_first()
            } else {
                s@
            }),
            body.len() > 0,
            body =~= s@.subrange(start as int, s@.len() as int),
            all_digits(body.subrange(0, i - start)),
            value == digits_value(body.subrange(0, i - start)),
        decreases s@.len() - i,
    {
        let c = s[i];
        proof {
            assert(body.subrange(0, i + 1 - start).drop_last() =~= body.subrange(0, i - start));
            assert(body[i - start] == c);
        }
        if !is_ascii_digit(c) {
            proof {
                assert(!all_digits(body));
            }
            return None;
        }
        let d: u128 = ((c as u32) - ('0' as u32)) as u128;
        if value > (u128::MAX - d) / 10 {
            proof {
                assert(digits_value(body.subrange(0, i + 1 - start)) > u128::MAX) by (nonlinear_arith)
                    requires
                        value > (u128::MAX - d) / 10,
                        digits_value(body.subrange(0, i + 1 - start)) == value * 10 + d,
                        d <= 9,
                ;
                if all_digits(body) {
                    lemma_digits_value_grows(body, i + 1 - start);
                }
            }
            return None;
        }
        proof {
            assert(value * 10 + d <= u128::MAX) by (nonlinear_arith)
                requires
                    value <= (u128::MAX - d) / 10,
                    d <= 9,
            ;
        }
        value = value * 10 + d;
        proof {
            assert forall|k: int| 0 <= k < i + 1 - start implies spec_is_ascii_digit(
                #[trigger] body.subrange(0, i + 1 - start)[k],
            ) by {
                if k < i - start {
                    assert(body.subrange(0, i + 1 - start)[k] == body.subrange(0, i - start)[k]);
                }
            }
        }
        i = i + 1;
    }
    proof {
        assert(body.subrange(0, s@.len() - start) =~= body);
    }
    Some(value)
}

/// The untruncated value of a literal's digits in `base` (`b`, `h` or `d`,
/// either case), as binary digits.
pub open spec fn literal_value(base: char, digits: Seq<char>) -> Option<Seq<char>> {
    if base == 'b' || base == 'B' {
        Some(digits)
    } else if base == 'h' || base == 'H' {
        Some(hex_bits(digits))
    } else if base == 'd' || base == 'D' {
        match parse_u128_spec(digits) {
            Some(v) => Some(binary_text(v as nat)),
            None => None,
        }
    } else {
        None
    }
}

/// The width and the untruncated binary value of a sized literal such as
/// `8'hff`; underscores are ignored.
pub open spec fn literal_parts(text: Seq<char>) -> Option<(usize, Seq<char>)> {
    let t = without_char(trim(text), '_');
    match split_once(t, '\'') {
        None => None,
        Some((w, rest)) => match parse_usize_spec(w) {
            None => None,
            Some(width) => if rest.len() == 0 {
                None
            } else {
                match literal_value(rest[0], rest.drop_first()) {
                    Some(v) => Some((width, v)),
                    None => None,
                }
            },
        },
    }
}

/// `v` cut or zero-padded on the left to `width` bytes.
pub open spec fn fit_width(v: Seq<char>, width: usize) -> Seq<char> {
    let b = encode_utf8(v);
    if b.len() >= width {
        decode_utf8(b.subrange(b.len() - width, b.len() as int))
    } else {
        Seq::new((width - b.len()) as nat, |i: int| '0') + v
    }
}

/// The binary digits of a sized literal, `width` of them.
pub open spec fn sv_literal(text: Seq<char>) -> Option<Seq<char>> {
    match literal_parts(text) {
        Some((width, v)) => Some(fit_width(v, width)),
        None => None,
    }
}

/// A literal's value fits in memory, and cutting it to its width does not
/// split a character (`parse_sv_literal` would panic there).
pub open spec fn sv_literal_ok(text: Seq<char>) -> bool {
    match literal_parts(text) {
        Some((width, v)) => encode_utf8(v).len() <= usize::MAX && (encode_utf8(v).len() >= width ==> is_char_boundary(
            encode_utf8(v),
            encode_utf8(v).len() - width,
        )),
        None => true,
    }
}

fn literal_value_of(base: char, digits: &[char]) -> (r: Option<Vec<char>>)
    ensures
        match r {
            Some(v) => literal_value(base, digits@) == Some(v@),
            None => literal_value(base, digits@) is None,
        },
{
    if base == 'b' || base == 'B' {
        Some(slice_chars(digits, 0, digits.len()))
    } else if base == 'h' || base == 'H' {
        Some(hex_to_bits(digits))
    } else if base == 'd' || base == 'D' {
        match parse_u128(digits) {
            Some(v) => Some(u128_binary(v)),
            None => None,
        }
    } else {
        None
    }
}

/// The binary digits of a sized SystemVerilog literal (`<width>'<base><digits>`
/// with base `b`, `h` or `d`), cut or zero-padded to its width; none for
/// other text.
pub fn parse_sv_literal(text: &str) -> (r: Option<String>)
    requires
        sv_literal_ok(text@),
    ensures
        match r {
            Some(b) => sv_literal(text@) == Some(b@),
            None => sv_literal(text@) is None,
        },
{
    let cs = chars_of(text);
    let t = trim_chars(cs.as_slice());
    let u = remove_char(t.as_slice(), '_');
    let (w, rest) = match split_once_char(u.as_slice(), '\'') {
        Some(p) => p,
        None => {
            return None;
        },
    };
    let width = match parse_usize(w.as_slice()) {
        Some(x) => x,
        None => {
            return None;
        },
    };
    if rest.len() == 0 {
        return None;
    }
    let digits = slice_chars(rest.as_slice(), 1, rest.len());
    proof {
        assert(digits@ =~= rest@.drop_first());
    }
    let value = match literal_value_of(rest[0], digits.as_slice()) {
        Some(v) => v,
        None => {
            return None;
        },
    };
    proof {
        assert(literal_parts(text@) == Some((width, value@)));
    }
    let vs = string_of(value.as_slice());
    let vstr = vs.as_str();
    let n = vstr.len();
    proof {
        assert(vstr.spec_bytes() == encode_utf8(value@));
    }
    if n >= width {
        proof {
            assert(n as int == encode_utf8(value@).len());
        }
        let (_, tail) = vstr.split_at(n - width);
        let out = tail.to_owned();
        proof {
            broadcast use vstd::utf8::encode_utf8_decode_utf8;
            assert(tail.spec_bytes() =~= encode_utf8(value@).subrange(n - width, n as int));
            assert(decode_utf8(tail.spec_bytes()) == tail@);
        }
        Some(out)
    } else {
        let mut out: Vec<char> = Vec::new();
        let pad = width - n;
        let mut i: usize = 0;
        while i < pad
            invariant
                i <= pad,
                out@ == Seq::new(i as nat, |k: int| '0'),
            decreases pad - i,
        {
            out.push('0');
            proof {
                assert(out@ =~= Seq::new((i + 1) as nat, |k: int| '0'));
            }
            i = i + 1;
        }
        let ghost zeros = out@;
        let mut j: usize = 0;
        while j < value.len()
            invariant
                j <= value@.len(),
                out@ == zeros + value@.subrange(0, j as int),
            decreases value@.len() - j,
        {
            out.push(value[j]);
            proof {
                assert(value@.subrange(0, j + 1) =~= value@.subrange(0, j as int).push(value@[j as int]));
            }
            j = j + 1;
        }
        proof {
            assert(value@.subrange(0, value@.len() as int) =~= value@);
        }
        Some(string_of(out.as_slice()))
    }
}

/// `s` read from its last character back, padded with `0`s to `w` characters.
pub open spec fn padded_rev(s: Seq<char>, w: nat) -> Seq<char> {
    Seq::new(w, |i: int| if i < s.len() { s[s.len() - 1 - i] } else { '0' })
}

/// Two bit texts are equal once the shorter is zero-extended to the byte
/// length of the longer.
pub open spec fn bits_eq(l: Seq<char>, r: Seq<char>) -> bool {
    let w = if utf8_len(l) >= utf8_len(r) {
        utf8_len(l)
    } else {
        utf8_len(r)
    };
    padded_rev(l, w as nat) == padded_rev(r, w as nat)
}

/// Whether two bit texts are equal once the shorter one is zero-extended.
pub fn bits_equal(left: &str, right: &str) -> (r: bool)
    ensures
        r == bits_eq(left@, right@),
{
    let lb = left.len();
    let rb = right.len();
    let w = if lb >= rb {
        lb
    } else {
        rb
    };
    let l = chars_of(left);
    let x = chars_of(right);
    let ghost w_spec: nat = w as nat;
    proof {
        assert(lb == utf8_len(left@));
        assert(rb == utf8_len(right@));
    }
    let mut i: usize = 0;
    while i < w
        invariant
            i <= w,
            forall|k: int| 0 <= k < i ==> padded_rev(l@, w_spec)[k] == padded_rev(x@, w_spec)[k],
            w_spec == w as nat,
            l@ == left@,
            x@ == right@,
            w_spec == (if utf8_len(left@) >= utf8_len(right@) {
                utf8_len(left@)
            } else {
                utf8_len(right@)
            }) as nat,
        decreases w - i,
    {
        let a = if i < l.len() {
            l[l.len() - 1 - i]
        } else {
            '0'
        };
        let b = if i < x.len() {
            x[x.len() - 1 - i]
        } else {
            '0'
        };
        if a != b {
            proof {
                assert(padded_rev(l@, w_spec)[i as int] != padded_rev(x@, w_spec)[i as int]);
                assert(padded_rev(l@, w_spec) != padded_rev(x@, w_spec));
            }
            return false;
        }
        i = i + 1;
    }
    proof {
        assert(padded_rev(l@, w_spec) =~= padded_rev(x@, w_spec));
    }
    true
}

/// The clock edge a sequential block waits for.
#[derive(Debug, Clone, Copy, PartialEq, Eq, Structural)]
pub enum EdgeKind {
    Posedge,
    Negedge,
}

/// Whether a signal went from `previous` to `current` on `edge`.
pub open spec fn edge_seen(previous: Option<Seq<char>>, current: Option<Seq<char>>, edge: EdgeKind) -> bool {
    match (previous, current) {
        (Some(p), Some(c)) => match edge {
            EdgeKind::Posedge => p == seq!['0'] && c == seq!['1'],
            EdgeKind::Negedge => p == seq!['1'] && c == seq!['0'],
        },
        _ => false,
    }
}

pub open spec fn opt_str(s: Option<&str>) -> Option<Seq<char>> {
    match s {
        Some(x) => Some(x@),
        None => None,
    }
}

fn is_single(s: &str, c: char) -> (r: bool)
    ensures
        r == (s@ == seq![c]),
{
    let cs = chars_of(s);
    if cs.len() == 1 && cs[0] == c {
        proof {
            assert(cs@ =~= seq![c]);
        }
        true
    } else {
        false
    }
}

/// Whether a signal's value changed from `previous` to `current` on `edge`.
pub fn edge_matches(previous: Option<&str>, current: Option<&str>, edge: EdgeKind) -> (r: bool)
    ensures
        r == edge_seen(opt_str(previous), opt_str(current), edge),
{
    let p = match previous {
        Some(p) => p,
        None => {
            return false;
        },
    };
    let c = match current {
        Some(c) => c,
        None => {
            return false;
        },
    };
    match edge {
        EdgeKind::Posedge => is_single(p, '0') && is_single(c, '1'),
        EdgeKind::Negedge => is_single(p, '1') && is_single(c, '0'),
    }
}

proof fn lemma_strip_parens_len(s: Seq<char>)
    ensures
        strip_parens(s).len() <= s.len(),
    decreases s.len(),
{
    lemma_trim_len(s);
    let t = trim(s);
    if t.len() >= 2 && t[0] == '(' && t.last() == ')' && t.len() <= s.len() {
        lemma_strip_parens_len(t.subrange(1, t.len() - 1));
    }
}

/// A condition under which an assignment runs.
#[derive(Debug)]
pub enum Guard {
    /// The condition holds.
    Predicate(String),
    /// The condition does not hold.
    NotPredicate(String),
    /// The selector equals one of the items.
    CaseMatch { selector: String, items: Vec<String> },
    /// The selector equals none of the items.
    CaseDefault { selector: String, items: Vec<String> },
}

pub enum GuardView {
    Predicate(Seq<char>),
    NotPredicate(Seq<char>),
    CaseMatch(Seq<char>, Seq<Seq<char>>),
    CaseDefault(Seq<char>, Seq<Seq<char>>),
}

pub open spec fn texts_of(v: Seq<String>) -> Seq<Seq<char>> {
    v.map_values(|s: String| s@)
}

impl View for Guard {
    type V = GuardView;

    open spec fn view(&self) -> GuardView {
        match self {
            Guard::Predicate(e) => GuardView::Predicate(e@),
            Guard::NotPredicate(e) => GuardView::NotPredicate(e@),
            Guard::CaseMatch { selector, items } => GuardView::CaseMatch(selector@, texts_of(items@)),
            Guard::CaseDefault { selector, items } => GuardView::CaseDefault(selector@, texts_of(items@)),
        }
    }
}

pub open spec fn guard_views(gs: Seq<Guard>) -> Seq<GuardView> {
    gs.map_values(|g: Guard| g@)
}

/// How an expression is looked up: trimmed, wrapping parentheses stripped.
pub open spec fn value_key(e: Seq<char>) -> Seq<char> {
    strip_parens(trim(e))
}

/// The bits of an expression: those of a sized literal, of a named constant,
/// or those read for it from the waveform (none when nothing was read).
pub open spec fn value_of(
    e: Seq<char>,
    consts: Map<Seq<char>, Seq<char>>,
    reads: Map<Seq<char>, Option<Seq<char>>>,
) -> Option<Seq<char>> {
    let t = value_key(e);
    match sv_literal(t) {
        Some(b) => Some(b),
        None => if consts.contains_key(t) {
            Some(consts[t])
        } else if reads.contains_key(t) {
            reads[t]
        } else {
            None
        },
    }
}

/// Whether `l` and `r` both have values, equal (`expect_equal`) or not.
pub open spec fn compare_spec(
    l: Seq<char>,
    r: Seq<char>,
    consts: Map<Seq<char>, Seq<char>>,
    reads: Map<Seq<char>, Option<Seq<char>>>,
    expect_equal: bool,
) -> bool {
    match value_of(l, consts, reads) {
        None => false,
        Some(lb) => match value_of(r, consts, reads) {
            None => false,
            Some(rb) => bits_eq(lb, rb) == expect_equal,
        },
    }
}

/// The truth of a condition: `!` negates, `==` and `!=` compare two values,
/// and any other expression holds when its value has a `1` bit.
pub open spec fn pred_value(
    e: Seq<char>,
    consts: Map<Seq<char>, Seq<char>>,
    reads: Map<Seq<char>, Option<Seq<char>>>,
) -> bool
    decreases e.len(),
{
    let t = value_key(e);
    if t.len() > 0 && t[0] == '!' && t.len() <= e.len() {
        proof {
            lemma_trim_len(t.drop_first());
        }
        !pred_value(trim(t.drop_first()), consts, reads)
    } else {
        match split_operator(t, "=="@) {
            Some((l, r)) => compare_spec(l, r, consts, reads, true),
            None => match split_operator(t, "!="@) {
                Some((l, r)) => compare_spec(l, r, consts, reads, false),
                None => match value_of(t, consts, reads) {
                    Some(b) => b.contains('1'),
                    None => false,
                },
            },
        }
    }
}

/// The expressions whose values a condition looks up.
pub open spec fn pred_leaves(e: Seq<char>) -> Seq<Seq<char>>
    decreases e.len(),
{
    let t = value_key(e);
    if t.len() > 0 && t[0] == '!' && t.len() <= e.len() {
        proof {
            lemma_trim_len(t.drop_first());
        }
        pred_leaves(trim(t.drop_first()))
    } else {
        match split_operator(t, "=="@) {
            Some((l, r)) => seq![l, r],
            None => match split_operator(t, "!="@) {
                Some((l, r)) => seq![l, r],
                None => seq![t],
            },
        }
    }
}

/// The expressions whose values a guard looks up.
pub open spec fn guard_leaves(g: GuardView) -> Seq<Seq<char>> {
    match g {
        GuardView::Predicate(e) => pred_leaves(e),
        GuardView::NotPredicate(e) => pred_leaves(e),
        GuardView::CaseMatch(sel, items) => seq![sel] + items,
        GuardView::CaseDefault(sel, items) => seq![sel] + items,
    }
}

/// Every looked-up expression of `gs` can be read as a literal.
pub open spec fn guards_ok(gs: Seq<GuardView>) -> bool {
    forall|i: int, j: int|
        0 <= i < gs.len() && 0 <= j < guard_leaves(gs[i]).len() ==> sv_literal_ok(
            value_key(#[trigger] guard_leaves(gs[i])[j]),
        )
}

/// Whether the selector's value equals the value of `item`.
pub open spec fn item_matches(
    sel_bits: Seq<char>,
    item: Seq<char>,
    consts: Map<Seq<char>, Seq<char>>,
    reads: Map<Seq<char>, Option<Seq<char>>>,
) -> bool {
    match value_of(item, consts, reads) {
        Some(ib) => bits_eq(sel_bits, ib),
        None => false,
    }
}

pub open spec fn any_item_matches(
    sel_bits: Seq<char>,
    items: Seq<Seq<char>>,
    consts: Map<Seq<char>, Seq<char>>,
    reads: Map<Seq<char>, Option<Seq<char>>>,
) -> bool {
    exists|i: int| 0 <= i < items.len() && #[trigger] item_matches(sel_bits, items[i], consts, reads)
}

/// Whether a guard holds; a case whose selector has no value never does.
pub open spec fn guard_holds(
    g: GuardView,
    consts: Map<Seq<char>, Seq<char>>,
    reads: Map<Seq<char>, Option<Seq<char>>>,
) -> bool {
    match g {
        GuardView::Predicate(e) => pred_value(e, consts, reads),
        GuardView::NotPredicate(e) => !pred_value(e, consts, reads),
        GuardView::CaseMatch(sel, items) => match value_of(sel, consts, reads) {
            Some(sb) => any_item_matches(sb, items, consts, reads),
            None => false,
        },
        GuardView::CaseDefault(sel, items) => match value_of(sel, consts, reads) {
            Some(sb) => !any_item_matches(sb, items, consts, reads),
            None => false,
        },
    }
}

/// Whether every guard holds.
pub open spec fn guards_hold(
    gs: Seq<GuardView>,
    consts: Map<Seq<char>, Seq<char>>,
    reads: Map<Seq<char>, Option<Seq<char>>>,
) -> bool {
    forall|i: int| 0 <= i < gs.len() ==> #[trigger] guard_holds(gs[i], consts, reads)
}

pub open spec fn text_values(m: Map<Seq<char>, String>) -> Map<Seq<char>, Seq<char>> {
    m.map_values(|s: String| s@)
}

pub open spec fn opt_text_values(m: Map<Seq<char>, Option<String>>) -> Map<Seq<char>, Option<Seq<char>>> {
    m.map_values(
        |s: Option<String>|
            match s {
                Some(x) => Some(x@),
                None => None,
            },
    )
}

/// The lookup key of an expression.
pub fn value_key_of(e: &str) -> (r: String)
    ensures
        r@ == value_key(e@),
{
    let cs = chars_of(e);
    let t = trim_chars(cs.as_slice());
    let ts = string_of(t.as_slice());
    trim_wrapping_parens(ts.as_str())
}

/// The bits of an expression: a sized literal, a named constant, or what was
/// read for it.
pub fn value_bits(expr: &str, constants: &NameMap<String>, reads: &NameMap<Option<String>>) -> (r: Option<String>)
    requires
        sv_literal_ok(value_key(expr@)),
    ensures
        match r {
            Some(b) => value_of(expr@, text_values(constants.map()), opt_text_values(reads.map())) == Some(b@),
            None => value_of(expr@, text_values(constants.map()), opt_text_values(reads.map())) is None,
        },
{
    let key = value_key_of(expr);
    match parse_sv_literal(key.as_str()) {
        Some(bits) => {
            return Some(bits);
        },
        None => {},
    }
    match constants.get(key.as_str()) {
        Some(bits) => {
            return Some(bits.clone());
        },
        None => {},
    }
    match reads.get(key.as_str()) {
        Some(Some(bits)) => Some(bits.clone()),
        _ => None,
    }
}

fn has_one_bit(bits: &str) -> (r: bool)
    ensures
        r == bits@.contains('1'),
{
    let cs = chars_of(bits);
    let mut i: usize = 0;
    while i < cs.len()
        invariant
            i <= cs@.len(),
            cs@ == bits@,
            forall|j: int| 0 <= j < i ==> cs@[j] != '1',
        decreases cs@.len() - i,
    {
        if cs[i] == '1' {
            return true;
        }
        i = i + 1;
    }
    false
}

/// Whether both sides have values that are equal (`expect_equal`) or differ.
pub fn compare_values(
    left: &str,
    right: &str,
    constants: &NameMap<String>,
    reads: &NameMap<Option<String>>,
    expect_equal: bool,
) -> (r: bool)
    requires
        sv_literal_ok(value_key(left@)),
        sv_literal_ok(value_key(right@)),
    ensures
        r == compare_spec(left@, right@, text_values(constants.map()), opt_text_values(reads.map()), expect_equal),
{
    let l = match value_bits(left, constants, reads) {
        Some(b) => b,
        None => {
            return false;
        },
    };
    let x = match value_bits(right, constants, reads) {
        Some(b) => b,
        None => {
            return false;
        },
    };
    bits_equal(l.as_str(), x.as_str()) == expect_equal
}

/// The truth of a condition.
pub fn eval_predicate(expr: &str, constants: &NameMap<String>, reads: &NameMap<Option<String>>) -> (r: bool)
    requires
        forall|j: int| 0 <= j < pred_leaves(expr@).len() ==> sv_literal_ok(value_key(#[trigger] pred_leaves(expr@)[j])),
    ensures
        r == pred_value(expr@, text_values(constants.map()), opt_text_values(reads.map())),
    decreases expr@.len(),
{
    let t = value_key_of(expr);
    proof {
        lemma_trim_len(expr@);
        lemma_strip_parens_len(trim(expr@));
    }
    let tc = chars_of(t.as_str());
    if tc.len() > 0 && tc[0] == '!' {
        let rest = slice_chars(tc.as_slice(), 1, tc.len());
        let rt = trim_chars(rest.as_slice());
        let rs = string_of(rt.as_slice());
        proof {
            assert(rest@ =~= t@.drop_first());
            lemma_trim_len(t@.drop_first());
        }
        return !eval_predicate(rs.as_str(), constants, reads);
    }
    match split_once_operator(t.as_str(), "==") {
        Some((l, x)) => {
            proof {
                assert(pred_leaves(expr@) == seq![l@, x@]);
                assert(pred_leaves(expr@)[0] == l@);
                assert(pred_leaves(expr@)[1] == x@);
            }
            return compare_values(l.as_str(), x.as_str(), constants, reads, true);
        },
        None => {},
    }
    match split_once_operator(t.as_str(), "!=") {
        Some((l, x)) => {
            proof {
                assert(pred_leaves(expr@) == seq![l@, x@]);
                assert(pred_leaves(expr@)[0] == l@);
                assert(pred_leaves(expr@)[1] == x@);
            }
            return compare_values(l.as_str(), x.as_str(), constants, reads, false);
        },
        None => {},
    }
    proof {
        assert(pred_leaves(expr@) == seq![t@]);
        assert(pred_leaves(expr@)[0] == t@);
    }
    match value_bits(t.as_str(), constants, reads) {
        Some(bits) => has_one_bit(bits.as_str()),
        None => false,
    }
}

/// Whether the selector's value matches the value of one of `items`.
fn case_matched(
    sel_bits: &str,
    items: &Vec<String>,
    constants: &NameMap<String>,
    reads: &NameMap<Option<String>>,
) -> (r: bool)
    requires
        forall|j: int| 0 <= j < items@.len() ==> sv_literal_ok(value_key(#[trigger] items@[j]@)),
    ensures
        r == any_item_matches(sel_bits@, texts_of(items@), text_values(constants.map()), opt_text_values(reads.map())),
{
    let ghost cm = text_values(constants.map());
    let ghost rm = opt_text_values(reads.map());
    let ghost its = texts_of(items@);
    let mut i: usize = 0;
    while i < items.len()
        invariant
            i <= items@.len(),
            its == texts_of(items@),
            cm == text_values(constants.map()),
            rm == opt_text_values(reads.map()),
            forall|j: int| 0 <= j < items@.len() ==> sv_literal_ok(value_key(#[trigger] items@[j]@)),
            forall|j: int| 0 <= j < i ==> !#[trigger] item_matches(sel_bits@, its[j], cm, rm),
        decreases items@.len() - i,
    {
        proof {
            assert(its[i as int] == items@[i as int]@);
        }
        match value_bits(items[i].as_str(), constants, reads) {
            Some(bits) => {
                if bits_equal(sel_bits, bits.as_str()) {
                    proof {
                        assert(item_matches(sel_bits@, its[i as int], cm, rm));
                    }
                    return true;
                }
            },
            None => {},
        }
        i = i + 1;
    }
    false
}

/// Whether every guard holds, given the named constants and the values read.
pub fn evaluate_guards(guards: &[Guard], constants: &NameMap<String>, reads: &NameMap<Option<String>>) -> (r: bool)
    requires
        guards_ok(guard_views(guards@)),
    ensures
        r == guards_hold(guard_views(guards@), text_values(constants.map()), opt_text_values(reads.map())),
{
    let ghost gs = guard_views(guards@);
    let ghost cm = text_values(constants.map());
    let ghost rm = opt_text_values(reads.map());
    let mut i: usize = 0;
    while i < guards.len()
        invariant
            i <= guards@.len(),
            gs == guard_views(guards@),
            cm == text_values(constants.map()),
            rm == opt_text_values(reads.map()),
            guards_ok(gs),
            forall|j: int| 0 <= j < i ==> #[trigger] guard_holds(gs[j], cm, rm),
        decreases guards@.len() - i,
    {
        let ghost g = gs[i as int];
        proof {
            assert(g == guards@[i as int]@);
            assert forall|j: int| 0 <= j < guard_leaves(g).len() implies sv_literal_ok(
                value_key(#[trigger] guard_leaves(g)[j]),
            ) by {
                assert(sv_literal_ok(value_key(guard_leaves(gs[i as int])[j])));
            }
        }
        let holds = match &guards[i] {
            Guard::Predicate(e) => eval_predicate(e.as_str(), constants, reads),
            Guard::NotPredicate(e) => !eval_predicate(e.as_str(), constants, reads),
            Guard::CaseMatch { selector, items } => {
                proof {
                    assert(guard_leaves(g)[0] == selector@);
                    assert forall|j: int| 0 <= j < items@.len() implies sv_literal_ok(value_key(#[trigger] items@[j]@)) by {
                        assert(guard_leaves(g)[j + 1] == items@[j]@);
                    }
                }
                match value_bits(selector.as_str(), constants, reads) {
                    Some(sb) => case_matched(sb.as_str(), items, constants, reads),
                    None => false,
                }
            },
            Guard::CaseDefault { selector, items } => {
                proof {
                    assert(guard_leaves(g)[0] == selector@);
                    assert forall|j: int| 0 <= j < items@.len() implies sv_literal_ok(value_key(#[trigger] items@[j]@)) by {
                        assert(guard_leaves(g)[j + 1] == items@[j]@);
                    }
                }
                match value_bits(selector.as_str(), constants, reads) {
                    Some(sb) => !case_matched(sb.as_str(), items, constants, reads),
                    None => false,
                }
            },
        };
        if !holds {
            proof {
                assert(!guard_holds(gs[i as int], cm, rm));
            }
            return false;
        }
        i = i + 1;
    }
    true
}

/// The last position at which `p` occurs in `s`.
#[verifier::opaque]
pub open spec fn last_occurrence(s: Seq<char>, p: Seq<char>) -> Option<int> {
    if exists|k: int| 0 <= k && k + p.len() <= s.len() && #[trigger] s.subrange(k, k + p.len()) == p {
        Some(
            choose|k: int|
                0 <= k && k + p.len() <= s.len() && #[trigger] s.subrange(k, k + p.len()) == p && forall|j: int|
                    k < j && j + p.len() <= s.len() ==> #[trigger] s.subrange(j, j + p.len()) != p,
        )
    } else {
        None
    }
}

/// `str::rsplit_once` with a text separator: the text before and after the
/// last occurrence of `p`.
pub open spec fn rsplit_once_text(s: Seq<char>, p: Seq<char>) -> Option<(Seq<char>, Seq<char>)> {
    match last_occurrence(s, p) {
        Some(k) => Some((s.subrange(0, k), s.subrange(k + p.len(), s.len() as int))),
        None => None,
    }
}

/// The last position at which `p` occurs in `s`.
pub fn find_last_text(s: &[char], p: &[char]) -> (r: Option<usize>)
    ensures
        match r {
            Some(k) => last_occurrence(s@, p@) == Some(k as int) && k + p@.len() <= s@.len() && s@.subrange(
                k as int,
                k + p@.len(),
            ) == p@,
            None => last_occurrence(s@, p@) is None,
        },
{
    let n = s.len();
    if p.len() > n {
        proof {
            reveal(last_occurrence);
        }
        return None;
    }
    let last = n - p.len();
    let mut k: usize = last;
    loop
        invariant
            n == s@.len(),
            p@.len() <= n,
            last == n - p@.len(),
            k <= last,
            forall|j: int| k < j && j + p@.len() <= s@.len() ==> #[trigger] s@.subrange(j, j + p@.len()) != p@,
        decreases k,
    {
        let mut i: usize = 0;
        let mut same = true;
        while i < p.len()
            invariant
                n == s@.len(),
                k <= last,
                last == n - p@.len(),
                i <= p@.len(),
                same == (forall|j: int| 0 <= j < i ==> s@[k + j] == p@[j]),
            decreases p@.len() - i,
        {
            if s[k + i] != p[i] {
                same = false;
            }
            i = i + 1;
        }
        if same {
            proof {
                reveal(last_occurrence);
                assert(s@.subrange(k as int, k + p@.len()) =~= p@);
                let c = choose|c: int|
                    0 <= c && c + p@.len() <= s@.len() && #[trigger] s@.subrange(c, c + p@.len()) == p@ && forall|j: int|
                        c < j && j + p@.len() <= s@.len() ==> #[trigger] s@.subrange(j, j + p@.len()) != p@;
                assert(0 <= k && k + p@.len() <= s@.len() && s@.subrange(k as int, k + p@.len()) == p@ && forall|j: int|
                    k < j && j + p@.len() <= s@.len() ==> #[trigger] s@.subrange(j, j + p@.len()) != p@);
                if c < k {
                    assert(s@.subrange(k as int, k + p@.len()) != p@);
                }
                if c > k {
                    assert(s@.subrange(c, c + p@.len()) != p@);
                }
            }
            return Some(k);
        }
        proof {
            let j = choose|j: int| 0 <= j < p@.len() && s@[k + j] != p@[j];
            assert(s@.subrange(k as int, k + p@.len())[j] != p@[j]);
        }
        if k == 0 {
            proof {
                reveal(last_occurrence);
                assert forall|j: int| 0 <= j && j + p@.len() <= s@.len() implies #[trigger] s@.subrange(j, j + p@.len())
                    != p@ by {
                    if j == 0 {
                        assert(s@.subrange(0, 0 + p@.len() as int) != p@);
                    }
                }
            }
            return None;
        }
        k = k - 1;
    }
}

/// The scope prefix and the source file of a coverage trace signal
/// `<prefix>.vlCoverageLineTrace_<file>__<rest>`.
pub open spec fn coverage_trace(name: Seq<char>) -> Option<(Seq<char>, Seq<char>)> {
    match rsplit_once_text(name, ".vlCoverageLineTrace_"@) {
        None => None,
        Some((prefix, trace)) => match split_once_text(trace, "__"@) {
            None => None,
            Some((file, _rest)) => Some((prefix, file)),
        },
    }
}

/// Texts in strictly ascending order.
pub open spec fn ascending_texts(v: Seq<Seq<char>>) -> bool {
    forall|a: int, b: int| 0 <= a < b < v.len() ==> seq_lt(text_key(v[a]), text_key(v[b]))
}

proof fn lemma_text_key_injective(a: Seq<char>, b: Seq<char>)
    requires
        text_key(a) == text_key(b),
    ensures
        a == b,
{
    assert(text_key(a).len() == a.len() + 1);
    assert(text_key(b).len() == b.len() + 1);
    assert(a.len() == b.len());
    assert forall|i: int| 0 <= i < a.len() implies a[i] == b[i] by {
        assert(text_key(a)[i] == text_key(b)[i]);
        assert(text_key(a)[i] == ((a[i] as u32) as u64 + 1) as u64);
        assert(text_key(b)[i] == ((b[i] as u32) as u64 + 1) as u64);
        assert((a[i] as u32) == (b[i] as u32));
        vstd::utf8::char_u32_cast(a[i], a[i] as u32);
        vstd::utf8::char_u32_cast(b[i], b[i] as u32);
    }
    assert(a =~= b);
}

/// Whether `a` comes before `b` in `String` order.
pub fn text_lt(a: &str, b: &str) -> (r: bool)
    ensures
        r == seq_lt(text_key(a@), text_key(b@)),
{
    let ac = chars_of(a);
    let bc = chars_of(b);
    let mut ak: Vec<u64> = Vec::new();
    let mut bk: Vec<u64> = Vec::new();
    push_text_key(&mut ak, ac.as_slice());
    push_text_key(&mut bk, bc.as_slice());
    proof {
        assert(ak@ =~= text_key(a@));
        assert(bk@ =~= text_key(b@));
    }
    lex_lt(&ak, &bk)
}

/// Inserts `s` into the ascending list `v`, unless it is there already.
fn insert_text_sorted(v: &mut Vec<String>, s: String)
    requires
        ascending_texts(texts_of(old(v)@)),
    ensures
        ascending_texts(texts_of(final(v)@)),
        forall|x: Seq<char>| #[trigger] texts_of(final(v)@).contains(x) <==> (texts_of(old(v)@).contains(x) || x == s@),
{
    let ghost before = texts_of(v@);
    let mut p: usize = 0;
    while p < v.len() && text_lt(v[p].as_str(), s.as_str())
        invariant
            p <= v@.len(),
            before == texts_of(v@),
            forall|a: int| 0 <= a < p ==> seq_lt(text_key(#[trigger] before[a]), text_key(s@)),
        decreases v@.len() - p,
    {
        p = p + 1;
    }
    if p < v.len() && str_eq(v[p].as_str(), s.as_str()) {
        proof {
            assert(before[p as int] == s@);
            assert forall|x: Seq<char>| #[trigger] texts_of(v@).contains(x) <==> (before.contains(x) || x == s@) by {
                if x == s@ {
                    assert(before[p as int] == x);
                }
            }
        }
        return;
    }
    proof {
        if p < before.len() {
            lemma_seq_lt_total(text_key(before[p as int]), text_key(s@));
            if text_key(before[p as int]) == text_key(s@) {
                lemma_text_key_injective(before[p as int], s@);
            }
            assert(seq_lt(text_key(s@), text_key(before[p as int])));
        }
    }
    v.insert(p, s);
    proof {
        let after = texts_of(v@);
        assert(after =~= before.insert(p as int, s@));
        assert forall|a: int, b: int| 0 <= a < b < after.len() implies seq_lt(text_key(after[a]), text_key(after[b])) by {
            if b < p {
                assert(after[a] == before[a] && after[b] == before[b]);
            } else if b == p {
                assert(after[a] == before[a]);
            } else if a == p {
                assert(after[b] == before[b - 1]);
                if b - 1 > p {
                    lemma_seq_lt_transitive(text_key(s@), text_key(before[p as int]), text_key(before[b - 1]));
                }
            } else if a < p {
                assert(after[a] == before[a]);
                assert(after[b] == before[b - 1]);
                if b - 1 >= p {
                    if p < before.len() {
                        lemma_seq_lt_transitive(text_key(before[a]), text_key(s@), text_key(before[p as int]));
                        if b - 1 > p {
                            lemma_seq_lt_transitive(text_key(before[a]), text_key(before[p as int]), text_key(before[b - 1]));
                        }
                    }
                }
            } else {
                assert(after[a] == before[a - 1]);
                assert(after[b] == before[b - 1]);
            }
        }
        assert forall|x: Seq<char>| #[trigger] after.contains(x) <==> (before.contains(x) || x == s@) by {
            if after.contains(x) {
                let i = choose|i: int| 0 <= i < after.len() && after[i] == x;
                if i < p {
                    assert(before[i] == x);
                } else if i > p {
                    assert(before[i - 1] == x);
                }
            }
            if before.contains(x) {
                let i = choose|i: int| 0 <= i < before.len() && before[i] == x;
                if i < p {
                    assert(after[i] == x);
                } else {
                    assert(after[i + 1] == x);
                }
            }
            if x == s@ {
                assert(after[p as int] == x);
            }
        }
    }
}

/// The texts of `v`, as a set.
pub open spec fn name_set(v: Seq<String>) -> Set<Seq<char>> {
    Set::new(|n: Seq<char>| exists|i: int| 0 <= i < v.len() && #[trigger] v[i]@ == n)
}

/// The scope prefixes under which the signals `names` trace lines of `file`.
pub open spec fn trace_prefixes(names: Set<Seq<char>>, file: Seq<char>) -> Set<Seq<char>> {
    Set::new(|p: Seq<char>| exists|n: Seq<char>| names.contains(n) && #[trigger] coverage_trace(n) == Some((p, file)))
}

/// The scope and file of a coverage trace signal name.
fn trace_of(name: &str) -> (r: Option<(String, String)>)
    ensures
        match r {
            Some((p, f)) => coverage_trace(name@) == Some((p@, f@)),
            None => coverage_trace(name@) is None,
        },
{
    let cs = chars_of(name);
    let pat = chars_of(".vlCoverageLineTrace_");
    let sep = chars_of("__");
    let n = cs.len();
    let k = match find_last_text(cs.as_slice(), pat.as_slice()) {
        Some(k) => k,
        None => {
            return None;
        },
    };
    let prefix = slice_chars(cs.as_slice(), 0, k);
    let trace = slice_chars(cs.as_slice(), k + pat.len(), n);
    let tn = trace.len();
    let j = match find_text(trace.as_slice(), sep.as_slice()) {
        Some(j) => j,
        None => {
            return None;
        },
    };
    let file = slice_chars(trace.as_slice(), 0, j);
    Some((string_of(prefix.as_slice()), string_of(file.as_slice())))
}

/// Where each source file's line coverage is traced: the scope prefixes of
/// the waveform's coverage trace signals, per file.
pub struct SignalResolver {
    prefixes_by_file: NameMap<Vec<String>>,
}

impl SignalResolver {
    #[verifier::type_invariant]
    spec fn inv(self) -> bool {
        forall|f: Seq<char>|
            #[trigger] self.prefixes_by_file.map().contains_key(f) ==> ascending_texts(
                texts_of(self.prefixes_by_file.map()[f]@),
            )
    }

    /// The prefixes of each file, in ascending order.
    pub closed spec fn prefixes(&self) -> Map<Seq<char>, Seq<Seq<char>>> {
        self.prefixes_by_file.map().map_values(|v: Vec<String>| texts_of(v@))
    }

    /// The resolver for the signal names `names`.
    pub fn from_names(names: &Vec<String>) -> (r: Self)
        ensures
            forall|f: Seq<char>|
                #[trigger] r.prefixes().contains_key(f) ==> ascending_texts(r.prefixes()[f]) && forall|p: Seq<char>|
                    r.prefixes()[f].contains(p) <==> trace_prefixes(name_set(names@), f).contains(p),
            forall|f: Seq<char>, p: Seq<char>|
                !r.prefixes().contains_key(f) ==> !#[trigger] trace_prefixes(name_set(names@), f).contains(p),
    {
        let mut map: NameMap<Vec<String>> = NameMap::new();
        let mut i: usize = 0;
        while i < names.len()
            invariant
                i <= names@.len(),
                forall|f: Seq<char>|
                    #[trigger] map.map().contains_key(f) ==> ascending_texts(texts_of(map.map()[f]@)) && forall|p: Seq<char>|
                        texts_of(map.map()[f]@).contains(p) <==> trace_prefixes(name_set(names@.subrange(0, i as int)), f).contains(p),
                forall|f: Seq<char>, p: Seq<char>|
                    !map.map().contains_key(f) ==> !#[trigger] trace_prefixes(name_set(names@.subrange(0, i as int)), f).contains(p),
            decreases names@.len() - i,
        {
            let ghost old_names = name_set(names@.subrange(0, i as int));
            let ghost new_names = name_set(names@.subrange(0, i + 1));
            proof {
                assert forall|n: Seq<char>| #[trigger] new_names.contains(n) <==> (old_names.contains(n) || n == names@[i as int]@) by {
                    if new_names.contains(n) {
                        let j = choose|j: int| 0 <= j < i + 1 && #[trigger] names@.subrange(0, i + 1)[j]@ == n;
                        if j < i {
                            assert(names@.subrange(0, i as int)[j]@ == n);
                        }
                    }
                    if old_names.contains(n) {
                        let j = choose|j: int| 0 <= j < i && #[trigger] names@.subrange(0, i as int)[j]@ == n;
                        assert(names@.subrange(0, i + 1)[j]@ == n);
                    }
                    if n == names@[i as int]@ {
                        assert(names@.subrange(0, i + 1)[i as int]@ == n);
                    }
                }
            }
            match trace_of(names[i].as_str()) {
                Some((prefix, file)) => {
                    let ghost m0 = map.map();
                    let mut list: Vec<String> = match map.get(file.as_str()) {
                        Some(l) => clone_texts(l),
                        None => Vec::new(),
                    };
                    proof {
                        if !m0.contains_key(file@) {
                            assert(texts_of(list@) =~= Seq::<Seq<char>>::empty());
                        }
                    }
                    let ghost pv = prefix@;
                    insert_text_sorted(&mut list, prefix);
                    let ghost fv = file@;
                    map.insert(file, list);
                    proof {
                        assert forall|f: Seq<char>|
                            #[trigger] map.map().contains_key(f) implies ascending_texts(texts_of(map.map()[f]@)) && forall|p: Seq<char>|
                                texts_of(map.map()[f]@).contains(p) <==> trace_prefixes(new_names, f).contains(p) by {
                            assert forall|p: Seq<char>| texts_of(map.map()[f]@).contains(p) <==> trace_prefixes(new_names, f).contains(p) by {
                                if trace_prefixes(new_names, f).contains(p) {
                                    let n = choose|n: Seq<char>| new_names.contains(n) && #[trigger] coverage_trace(n) == Some((p, f));
                                    if n != names@[i as int]@ {
                                        assert(trace_prefixes(old_names, f).contains(p));
                                    }
                                }
                                if trace_prefixes(old_names, f).contains(p) {
                                    let n = choose|n: Seq<char>| old_names.contains(n) && #[trigger] coverage_trace(n) == Some((p, f));
                                    assert(new_names.contains(n));
                                }
                                if f == fv && p == pv {
                                    assert(new_names.contains(names@[i as int]@));
                                }
                            }
                        }
                        assert forall|f: Seq<char>, p: Seq<char>|
                            !map.map().contains_key(f) implies !#[trigger] trace_prefixes(new_names, f).contains(p) by {
                            if trace_prefixes(new_names, f).contains(p) {
                                let n = choose|n: Seq<char>| new_names.contains(n) && #[trigger] coverage_trace(n) == Some((p, f));
                                if n != names@[i as int]@ {
                                    assert(trace_prefixes(old_names, f).contains(p));
                                }
                            }
                        }
                    }
                },
                None => {
                    proof {
                        assert forall|f: Seq<char>, p: Seq<char>|
                            #[trigger] trace_prefixes(new_names, f).contains(p) <==> trace_prefixes(old_names, f).contains(p) by {
                            if trace_prefixes(new_names, f).contains(p) {
                                let n = choose|n: Seq<char>| new_names.contains(n) && #[trigger] coverage_trace(n) == Some((p, f));
                                assert(n != names@[i as int]@);
                                assert(old_names.contains(n));
                            }
                            if trace_prefixes(old_names, f).contains(p) {
                                let n = choose|n: Seq<char>| old_names.contains(n) && #[trigger] coverage_trace(n) == Some((p, f));
                                assert(new_names.contains(n));
                            }
                        }
                    }
                },
            }
            i = i + 1;
        }
        proof {
            assert(names@.subrange(0, names@.len() as int) =~= names@);
        }
        let r = SignalResolver { prefixes_by_file: map };
        proof {
            assert forall|f: Seq<char>| #[trigger] r.prefixes().contains_key(f) implies r.prefixes()[f] == texts_of(
                r.prefixes_by_file.map()[f]@,
            ) by {}
        }
        r
    }

    /// The names to try for `signal` in the lines of `file`: under each of
    /// the file's trace scopes, the last in order first, then the signal's
    /// own name.
    pub fn candidates(&self, file: &str, signal: &str) -> (r: Vec<String>)
        ensures
            texts_of(r@) == candidate_texts(self.prefixes(), file@, signal@),
    {
        let mut out: Vec<String> = Vec::new();
        match self.prefixes_by_file.get(file) {
            Some(list) => {
                let ghost l = texts_of(list@);
                let sig = chars_of(signal);
                let mut k: usize = list.len();
                while k > 0
                    invariant
                        k <= list@.len(),
                        l == texts_of(list@),
                        sig@ == signal@,
                        texts_of(out@) == l.subrange(k as int, l.len() as int).reverse().map_values(
                            |p: Seq<char>| p + "."@ + signal@,
                        ),
                    decreases k,
                {
                    let ghost before = texts_of(out@);
                    let mut c = chars_of(list[k - 1].as_str());
                    append_str(&mut c, ".");
                    append_chars(&mut c, sig.as_slice());
                    let cs = string_of(c.as_slice());
                    out.push(cs);
                    proof {
                        assert(texts_of(out@) =~= before.push(l[k - 1] + "."@ + signal@));
                        assert(l.subrange(k - 1, l.len() as int).reverse() =~= l.subrange(k as int, l.len() as int).reverse().push(
                            l[k - 1],
                        ));
                        assert(texts_of(out@) =~= l.subrange(k - 1, l.len() as int).reverse().map_values(
                            |p: Seq<char>| p + "."@ + signal@,
                        ));
                    }
                    k = k - 1;
                }
                proof {
                    assert(l.subrange(0, l.len() as int) =~= l);
                    assert(self.prefixes()[file@] == l);
                }
            },
            None => {
                proof {
                    assert(texts_of(out@) =~= Seq::<Seq<char>>::empty());
                }
            },
        }
        let ghost before = texts_of(out@);
        out.push(signal.to_owned());
        proof {
            assert(texts_of(out@) =~= before.push(signal@));
        }
        out
    }
}

/// The names tried for `signal` in the lines of `file`.
pub open spec fn candidate_texts(m: Map<Seq<char>, Seq<Seq<char>>>, file: Seq<char>, signal: Seq<char>) -> Seq<Seq<char>> {
    (if m.contains_key(file) {
        m[file].reverse().map_values(|p: Seq<char>| p + "."@ + signal)
    } else {
        Seq::<Seq<char>>::empty()
    }).push(signal)
}

pub(crate) fn clone_texts(v: &Vec<String>) -> (r: Vec<String>)
    ensures
        texts_of(r@) == texts_of(v@),
{
    let mut out: Vec<String> = Vec::new();
    let mut i: usize = 0;
    while i < v.len()
        invariant
            i <= v@.len(),
            texts_of(out@) == texts_of(v@).subrange(0, i as int),
        decreases v@.len() - i,
    {
        let ghost before = texts_of(out@);
        out.push(v[i].clone());
        proof {
            assert(texts_of(out@) =~= before.push(v@[i as int]@));
            assert(texts_of(v@).subrange(0, i + 1) =~= texts_of(v@).subrange(0, i as int).push(v@[i as int]@));
        }
        i = i + 1;
    }
    proof {
        assert(texts_of(v@).subrange(0, v@.len() as int) =~= texts_of(v@));
    }
    out
}

impl SignalResolver {
    /// The resolver for the signal names of a waveform.
    pub fn new(wave: &WellenReader) -> (r: Self)
        ensures
            forall|f: Seq<char>|
                #[trigger] r.prefixes().contains_key(f) ==> ascending_texts(r.prefixes()[f]) && forall|p: Seq<char>|
                    r.prefixes()[f].contains(p) <==> trace_prefixes(wave.lookup().dom(), f).contains(p),
            forall|f: Seq<char>, p: Seq<char>|
                !r.prefixes().contains_key(f) ==> !#[trigger] trace_prefixes(wave.lookup().dom(), f).contains(p),
    {
        let names = wave.signal_names();
        proof {
            assert(name_set(names@) =~= wave.lookup().dom());
        }
        SignalResolver::from_names(&names)
    }

    /// The bits of `signal` at `time`, read under the first of its
    /// candidate names that the waveform has a value for.
    pub fn signal_value_bits(&self, file: &str, signal: &str, wave: &WellenReader, time: Timestamp) -> (r: Result<
        Option<String>,
        SvaError,
    >)
        ensures
            time.0 < 0 ==> r == Ok::<Option<String>, SvaError>(None),
            (forall|i: int|
                0 <= i < candidate_texts(self.prefixes(), file@, signal@).len() ==> !(wave.lookup().contains_key(
                    #[trigger] candidate_texts(self.prefixes(), file@, signal@)[i],
                ) && wave.lookup()[candidate_texts(self.prefixes(), file@, signal@)[i]] is Some)) ==> r == Ok::<
                Option<String>,
                SvaError,
            >(None),
            r matches Err(e) ==> e is SignalDataNotLoaded,
    {
        let candidates = self.candidates(file, signal);
        let ghost cs = texts_of(candidates@);
        let mut i: usize = 0;
        while i < candidates.len()
            invariant
                i <= candidates@.len(),
                cs == texts_of(candidates@),
                cs == candidate_texts(self.prefixes(), file@, signal@),
            decreases candidates@.len() - i,
        {
            let node = SignalNode::named(candidates[i].as_str());
            match wave.signal_value_at(&node, time) {
                Ok(Some(v)) => {
                    proof {
                        assert(cs[i as int] == node.name@);
                    }
                    return Ok(Some(v.raw_bits));
                },
                Ok(None) => {},
                Err(e) => {
                    proof {
                        assert(cs[i as int] == node.name@);
                    }
                    return Err(e);
                },
            }
            i = i + 1;
        }
        Ok(None)
    }
}

/// The stem of a path's file name, as `Path::file_stem` gives it.
pub uninterp spec fn path_file_stem(path: Seq<char>) -> Option<Seq<char>>;

/// `std::path::Path::file_stem`, read as UTF-8; its result is taken to
/// depend on the path text alone, and is left unsaid.
#[verifier::external_body]
fn file_stem_text(file: &str) -> (r: Option<String>)
    ensures
        match r {
            Some(x) => path_file_stem(file@) == Some(x@),
            None => path_file_stem(file@) is None,
        },
{
    match std::path::Path::new(file).file_stem() {
        Some(stem) => match stem.to_str() {
            Some(text) => Some(text.to_string()),
            None => None,
        },
        None => None,
    }
}

/// The key coverage traces use for a source file: its file stem.
pub open spec fn stem_key(file: Seq<char>) -> Seq<char> {
    match path_file_stem(file) {
        Some(s) => s,
        None => file,
    }
}

/// The key coverage traces use for a source file: its file stem, or the
/// text itself when it has none.
pub fn normalize_file_key(file: &str) -> (r: String)
    ensures
        r@ == stem_key(file@),
{
    match file_stem_text(file) {
        Some(s) => s,
        None => file.to_owned(),
    }
}

/// The expressions whose values a condition looks up, appended to `out`.
fn collect_pred_leaves(expr: &str, out: &mut Vec<String>)
    ensures
        texts_of(final(out)@) == texts_of(old(out)@) + pred_leaves(expr@),
    decreases expr@.len(),
{
    let t = value_key_of(expr);
    proof {
        lemma_trim_len(expr@);
        lemma_strip_parens_len(trim(expr@));
    }
    let tc = chars_of(t.as_str());
    let ghost before = texts_of(out@);
    if tc.len() > 0 && tc[0] == '!' {
        let rest = slice_chars(tc.as_slice(), 1, tc.len());
        let rt = trim_chars(rest.as_slice());
        let rs = string_of(rt.as_slice());
        proof {
            assert(rest@ =~= t@.drop_first());
            lemma_trim_len(t@.drop_first());
        }
        collect_pred_leaves(rs.as_str(), out);
        return;
    }
    match split_once_operator(t.as_str(), "==") {
        Some((l, x)) => {
            out.push(l);
            out.push(x);
            proof {
                assert(texts_of(out@) =~= before + pred_leaves(expr@));
            }
            return;
        },
        None => {},
    }
    match split_once_operator(t.as_str(), "!=") {
        Some((l, x)) => {
            out.push(l);
            out.push(x);
            proof {
                assert(texts_of(out@) =~= before + pred_leaves(expr@));
            }
            return;
        },
        None => {},
    }
    out.push(t);
    proof {
        assert(texts_of(out@) =~= before + pred_leaves(expr@));
    }
}

/// The expressions whose values the guards look up, in order.
pub open spec fn all_guard_leaves(gs: Seq<GuardView>) -> Seq<Seq<char>>
    decreases gs.len(),
{
    if gs.len() == 0 {
        Seq::<Seq<char>>::empty()
    } else {
        all_guard_leaves(gs.drop_last()) + guard_leaves(gs.last())
    }
}

/// The expressions whose values the guards look up.
pub fn guard_leaf_exprs(guards: &[Guard]) -> (r: Vec<String>)
    ensures
        texts_of(r@) == all_guard_leaves(guard_views(guards@)),
{
    let mut out: Vec<String> = Vec::new();
    let ghost gs = guard_views(guards@);
    let mut i: usize = 0;
    while i < guards.len()
        invariant
            i <= guards@.len(),
            gs == guard_views(guards@),
            texts_of(out@) == all_guard_leaves(gs.subrange(0, i as int)),
        decreases guards@.len() - i,
    {
        proof {
            assert(gs.subrange(0, i + 1).drop_last() =~= gs.subrange(0, i as int));
            assert(gs.subrange(0, i + 1).last() == guards@[i as int]@);
        }
        let ghost before = texts_of(out@);
        match &guards[i] {
            Guard::Predicate(e) => collect_pred_leaves(e.as_str(), &mut out),
            Guard::NotPredicate(e) => collect_pred_leaves(e.as_str(), &mut out),
            Guard::CaseMatch { selector, items } => {
                out.push(selector.clone());
                let extra = clone_texts(items);
                let mut k: usize = 0;
                while k < extra.len()
                    invariant
                        k <= extra@.len(),
                        texts_of(out@) == before + seq![selector@] + texts_of(extra@).subrange(0, k as int),
                    decreases extra@.len() - k,
                {
                    let ghost b2 = texts_of(out@);
                    out.push(extra[k].clone());
                    proof {
                        assert(texts_of(out@) =~= b2.push(extra@[k as int]@));
                        assert(texts_of(extra@).subrange(0, k + 1) =~= texts_of(extra@).subrange(0, k as int).push(
                            extra@[k as int]@,
                        ));
                    }
                    k = k + 1;
                }
                proof {
                    assert(texts_of(extra@).subrange(0, extra@.len() as int) =~= texts_of(items@));
                    assert(texts_of(out@) =~= before + guard_leaves(guards@[i as int]@));
                }
            },
            Guard::CaseDefault { selector, items } => {
                out.push(selector.clone());
                let extra = clone_texts(items);
                let mut k: usize = 0;
                while k < extra.len()
                    invariant
                        k <= extra@.len(),
                        texts_of(out@) == before + seq![selector@] + texts_of(extra@).subrange(0, k as int),
                    decreases extra@.len() - k,
                {
                    let ghost b2 = texts_of(out@);
                    out.push(extra[k].clone());
                    proof {
                        assert(texts_of(out@) =~= b2.push(extra@[k as int]@));
                        assert(texts_of(extra@).subrange(0, k + 1) =~= texts_of(extra@).subrange(0, k as int).push(
                            extra@[k as int]@,
                        ));
                    }
                    k = k + 1;
                }
                proof {
                    assert(texts_of(extra@).subrange(0, extra@.len() as int) =~= texts_of(items@));
                    assert(texts_of(out@) =~= before + guard_leaves(guards@[i as int]@));
                }
            },
        }
        i = i + 1;
    }
    proof {
        assert(gs.subrange(0, guards@.len() as int) =~= gs);
    }
    out
}

/// `k` is the key of one of the expressions `leaves` and is neither a sized
/// literal nor one of the named constants: its value is read from the
/// waveform.
pub open spec fn waveform_key(leaves: Seq<Seq<char>>, consts: Map<Seq<char>, String>, k: Seq<char>) -> bool {
    &&& exists|j: int| 0 <= j < leaves.len() && value_key(#[trigger] leaves[j]) == k
    &&& sv_literal(k) is None
    &&& !consts.contains_key(k)
}

/// Reads from the waveform, at `time`, the value of every expression the
/// guards look up that is neither a sized literal nor a named constant.
pub fn read_guard_values(
    guards: &[Guard],
    file: &str,
    wave: &WellenReader,
    time: Timestamp,
    constants: &NameMap<String>,
    resolver: &SignalResolver,
) -> (r: Result<NameMap<Option<String>>, SvaError>)
    requires
        guards_ok(guard_views(guards@)),
    ensures
        time.0 < 0 ==> (r matches Ok(t) && forall|k: Seq<char>| #[trigger] t.map().contains_key(k) ==> t.map()[k] is None),
        r matches Ok(t) ==> forall|k: Seq<char>| #[trigger] t.map().contains_key(k) <==> waveform_key(
            all_guard_leaves(guard_views(guards@)),
            constants.map(),
            k,
        ),
        r matches Err(e) ==> e is SignalDataNotLoaded,
{
    let leaves = guard_leaf_exprs(guards);
    let ghost gs = guard_views(guards@);
    proof {
        lemma_all_leaves_ok(gs);
    }
    let mut reads: NameMap<Option<String>> = NameMap::new();
    let mut i: usize = 0;
    while i < leaves.len()
        invariant
            i <= leaves@.len(),
            texts_of(leaves@) == all_guard_leaves(gs),
            forall|j: int| 0 <= j < all_guard_leaves(gs).len() ==> sv_literal_ok(value_key(#[trigger] all_guard_leaves(gs)[j])),
            time.0 < 0 ==> forall|k: Seq<char>| #[trigger] reads.map().contains_key(k) ==> reads.map()[k] is None,
            forall|k: Seq<char>| #[trigger] reads.map().contains_key(k) <==> waveform_key(
                all_guard_leaves(gs).subrange(0, i as int),
                constants.map(),
                k,
            ),
        decreases leaves@.len() - i,
    {
        proof {
            assert(texts_of(leaves@)[i as int] == leaves@[i as int]@);
        }
        let key = value_key_of(leaves[i].as_str());
        let is_literal = match parse_sv_literal(key.as_str()) {
            Some(_) => true,
            None => false,
        };
        let is_constant = match constants.get(key.as_str()) {
            Some(_) => true,
            None => false,
        };
        let ghost before = reads.map();
        if !is_literal && !is_constant {
            let bits = resolver.signal_value_bits(file, key.as_str(), wave, time)?;
            reads.insert(key, bits);
        }
        proof {
            let ls = all_guard_leaves(gs);
            let pre = ls.subrange(0, i as int);
            let post = ls.subrange(0, i + 1);
            assert forall|k: Seq<char>| #[trigger] reads.map().contains_key(k) <==> waveform_key(post, constants.map(), k) by {
                if waveform_key(post, constants.map(), k) {
                    let j = choose|j: int| 0 <= j < post.len() && value_key(#[trigger] post[j]) == k;
                    if j < i {
                        assert(pre[j] == post[j]);
                    }
                }
                if waveform_key(pre, constants.map(), k) {
                    let j = choose|j: int| 0 <= j < pre.len() && value_key(#[trigger] pre[j]) == k;
                    assert(pre[j] == post[j]);
                }
                if reads.map().contains_key(k) && !before.contains_key(k) {
                    assert(post[i as int] == ls[i as int]);
                }
            }
        }
        i = i + 1;
    }
    proof {
        assert(all_guard_leaves(gs).subrange(0, leaves@.len() as int) =~= all_guard_leaves(gs));
    }
    Ok(reads)
}

/// Every expression the guards look up is in the list of all of them.
proof fn lemma_all_leaves_ok(gs: Seq<GuardView>)
    requires
        guards_ok(gs),
    ensures
        forall|j: int| 0 <= j < all_guard_leaves(gs).len() ==> sv_literal_ok(value_key(#[trigger] all_guard_leaves(gs)[j])),
    decreases gs.len(),
{
    if gs.len() > 0 {
        let init = gs.drop_last();
        assert forall|i: int, j: int|
            0 <= i < init.len() && 0 <= j < guard_leaves(init[i]).len() implies sv_literal_ok(
            value_key(#[trigger] guard_leaves(init[i])[j]),
        ) by {
            assert(init[i] == gs[i]);
        }
        lemma_all_leaves_ok(init);
        let a = all_guard_leaves(init);
        let b = guard_leaves(gs.last());
        assert forall|j: int| 0 <= j < (a + b).len() implies sv_literal_ok(value_key(#[trigger] (a + b)[j])) by {
            if j >= a.len() {
                assert((a + b)[j] == b[j - a.len()]);
                assert(sv_literal_ok(value_key(guard_leaves(gs[gs.len() - 1])[j - a.len()])));
            } else {
                assert((a + b)[j] == a[j]);
            }
        }
    }
}

/// Whether two optional bit texts are the same.
fn same_bits(a: &Option<String>, b: &Option<String>) -> (r: bool)
    ensures
        r == (match (a, b) {
            (Some(x), Some(y)) => x@ == y@,
            (None, None) => true,
            _ => false,
        }),
{
    match (a, b) {
        (Some(x), Some(y)) => *x == *y,
        (None, None) => true,
        _ => false,
    }
}

/// Whether some variable the block reads has a value at `time` that differs
/// from its value one time unit before (always, at the first time).
pub fn block_inputs_changed(block: &Block, wave: &WellenReader, time: Timestamp, resolver: &SignalResolver) -> (r:
    Result<bool, SvaError>)
    requires
        time.0 > i64::MIN,
    ensures
        time.0 - 1 < 0 ==> r == Ok::<bool, SvaError>(true),
        time.0 - 1 >= 0 && (forall|i: int|
            0 <= i < block@.input_signals.len() ==> (#[trigger] block@.input_signals[i]).kind != SignalNodeKind::Variable)
            ==> r == Ok::<bool, SvaError>(false),
        r == Ok::<bool, SvaError>(true) ==> time.0 - 1 < 0 || exists|i: int|
            0 <= i < block@.input_signals.len() && (#[trigger] block@.input_signals[i]).kind == SignalNodeKind::Variable,
        r matches Err(e) ==> e is SignalDataNotLoaded,
{
    let previous_time = Timestamp(time.0 - 1);
    if previous_time.0 < 0 {
        return Ok(true);
    }
    let file = normalize_file_key(block.source_file());
    let inputs = block.input_signals();
    let mut i: usize = 0;
    while i < inputs.len()
        invariant
            i <= inputs@.len(),
            inputs@ == block@.input_signals,
            previous_time.0 == time.0 - 1,
            previous_time.0 >= 0,
        decreases inputs@.len() - i,
    {
        let signal = &inputs[i];
        if signal.is_variable() {
            let current = resolver.signal_value_bits(file.as_str(), signal.as_str(), wave, time)?;
            let previous = resolver.signal_value_bits(file.as_str(), signal.as_str(), wave, previous_time)?;
            let present = match &current {
                Some(_) => true,
                None => false,
            };
            if present && !same_bits(&current, &previous) {
                return Ok(true);
            }
        }
        i = i + 1;
    }
    Ok(false)
}

/// Whether some trigger of a sequential block saw its edge between
/// `previous_time` and `time`.
pub fn sequential_block_triggered(
    file: &str,
    triggers: &Vec<(String, EdgeKind)>,
    wave: &WellenReader,
    previous_time: Timestamp,
    time: Timestamp,
    resolver: &SignalResolver,
) -> (r: Result<bool, SvaError>)
    ensures
        triggers@.len() == 0 ==> r == Ok::<bool, SvaError>(false),
        time.0 < 0 && previous_time.0 < 0 ==> r == Ok::<bool, SvaError>(false),
        r == Ok::<bool, SvaError>(true) ==> time.0 >= 0 && previous_time.0 >= 0,
        r matches Err(e) ==> e is SignalDataNotLoaded,
{
    let mut i: usize = 0;
    while i < triggers.len()
        invariant
            i <= triggers@.len(),
        decreases triggers@.len() - i,
    {
        let (signal, edge) = &triggers[i];
        let current = resolver.signal_value_bits(file, signal.as_str(), wave, time)?;
        let previous = resolver.signal_value_bits(file, signal.as_str(), wave, previous_time)?;
        let p = match &previous {
            Some(x) => Some(x.as_str()),
            None => None,
        };
        let c = match &current {
            Some(x) => Some(x.as_str()),
            None => None,
        };
        if edge_matches(p, c, *edge) {
            return Ok(true);
        }
        i = i + 1;
    }
    Ok(false)
}

/// An assignment statement, the block it is in, the conditions under which
/// it runs, and the edges that trigger its block.
#[derive(Debug)]
pub struct AssignmentStatement {
    pub file: String,
    pub line: usize,
    pub code_snippet: String,
    pub block: Block,
    pub guards: Vec<Guard>,
    pub triggers: Vec<(String, EdgeKind)>,
}

/// Judging statement `st` at `time` needs no value from the waveform that
/// could be missing: it is a port, `time` is before 0, or it is a
/// continuous assignment or a sequential block before time 1.
pub open spec fn reads_nothing(st: AssignmentStatement, time: Timestamp) -> bool {
    ||| st.block@.block_type == BlockType::ModInput
    ||| st.block@.block_type == BlockType::ModOutput
    ||| time.0 < 0
    ||| time.0 < 1 && st.block@.block_type == BlockType::Assign
    ||| time.0 < 1 && st.block@.block_type == BlockType::Always && st.block@.circuit_type == CircuitType::Sequential
}

/// `reads` holds a value (or none) for exactly the expressions that guards
/// `gs` read from the waveform: those of their leaves that are neither
/// literals nor named constants of `consts`.
pub open spec fn reads_for_guards(gs: Seq<GuardView>, consts: Map<Seq<char>, Seq<char>>, reads: Map<Seq<char>, Option<Seq<char>>>) -> bool {
    forall|k: Seq<char>|
        #[trigger] reads.contains_key(k) <==> ((exists|j: int|
            0 <= j < all_guard_leaves(gs).len() && value_key(#[trigger] all_guard_leaves(gs)[j]) == k) && sv_literal(k) is None
            && !consts.contains_key(k))
}

/// Some values of what guards `gs` read from the waveform make every one of
/// them hold.
pub open spec fn guards_may_hold(gs: Seq<GuardView>, consts: Map<Seq<char>, Seq<char>>) -> bool {
    exists|reads: Map<Seq<char>, Option<Seq<char>>>| #[trigger] reads_for_guards(gs, consts, reads) && guards_hold(gs, consts, reads)
}

/// An always block's statement counts as covered only when its guards can
/// hold.
pub open spec fn guard_outcome(st: AssignmentStatement, consts: Map<Seq<char>, Seq<char>>, covered: bool) -> bool {
    st.block@.block_type == BlockType::Always && covered ==> guards_may_hold(guard_views(st.guards@), consts)
}

/// A condition and its negation never both hold, so an assignment that
/// stands under both is never covered.
pub proof fn lemma_opposite_guards_never_hold(gs: Seq<GuardView>, consts: Map<Seq<char>, Seq<char>>, i: int, j: int, e: Seq<char>)
    requires
        0 <= i < gs.len(),
        0 <= j < gs.len(),
        gs[i] == GuardView::Predicate(e),
        gs[j] == GuardView::NotPredicate(e),
    ensures
        !guards_may_hold(gs, consts),
{
    if guards_may_hold(gs, consts) {
        let reads = choose|reads: Map<Seq<char>, Option<Seq<char>>>| #[trigger] reads_for_guards(gs, consts, reads) && guards_hold(gs, consts, reads);
        assert(guard_holds(gs[i], consts, reads));
        assert(guard_holds(gs[j], consts, reads));
    }
}

/// The values read for guards are values for exactly what they read.
proof fn lemma_read_values_fit(gs: Seq<GuardView>, consts: Map<Seq<char>, String>, reads: Map<Seq<char>, Option<String>>)
    requires
        forall|k: Seq<char>| #[trigger] reads.contains_key(k) <==> waveform_key(all_guard_leaves(gs), consts, k),
    ensures
        reads_for_guards(gs, text_values(consts), opt_text_values(reads)),
        guards_hold(gs, text_values(consts), opt_text_values(reads)) ==> guards_may_hold(gs, text_values(consts)),
{
    assert forall|k: Seq<char>| #[trigger] opt_text_values(reads).contains_key(k) <==> ((exists|j: int|
        0 <= j < all_guard_leaves(gs).len() && value_key(#[trigger] all_guard_leaves(gs)[j]) == k) && sv_literal(k) is None
        && !text_values(consts).contains_key(k)) by {
        assert(opt_text_values(reads).contains_key(k) == reads.contains_key(k));
        assert(text_values(consts).contains_key(k) == consts.contains_key(k));
        assert(reads.contains_key(k) == waveform_key(all_guard_leaves(gs), consts, k));
    }
    assert(reads_for_guards(gs, text_values(consts), opt_text_values(reads)));
    if guards_hold(gs, text_values(consts), opt_text_values(reads)) {
        let w = opt_text_values(reads);
        assert(reads_for_guards(gs, text_values(consts), w) && guards_hold(gs, text_values(consts), w));
    }
}

/// Whether an assignment ran at `time`: a continuous assignment when an
/// input changed; a combinational always block when an input changed and
/// its guards hold; a sequential one when a trigger edge came just before
/// `time` and its guards held then. Ports never count.
pub fn statement_is_covered(
    statement: &AssignmentStatement,
    wave: &WellenReader,
    time: Timestamp,
    constants: &NameMap<String>,
    resolver: &SignalResolver,
) -> (r: Result<bool, SvaError>)
    requires
        time.0 > i64::MIN,
        guards_ok(guard_views(statement.guards@)),
    ensures
        (statement.block@.block_type == BlockType::ModInput || statement.block@.block_type == BlockType::ModOutput)
            ==> r == Ok::<bool, SvaError>(false),
        (statement.block@.block_type == BlockType::Always && statement.block@.circuit_type == CircuitType::Sequential
            && time.0 < 1) ==> r == Ok::<bool, SvaError>(false),
        (statement.block@.block_type == BlockType::Assign && time.0 < 1) ==> r == Ok::<bool, SvaError>(true),
        reads_nothing(*statement, time) ==> r is Ok,
        r matches Err(e) ==> e is SignalDataNotLoaded,
        r == Ok::<bool, SvaError>(true) ==> guard_outcome(*statement, text_values(constants.map()), true),
        r == Ok::<bool, SvaError>(true) && statement.block@.block_type == BlockType::Always && statement.block@.circuit_type
            == CircuitType::Combinational ==> time.0 - 1 < 0 || exists|i: int|
            0 <= i < statement.block@.input_signals.len() && (#[trigger] statement.block@.input_signals[i]).kind
                == SignalNodeKind::Variable,
{
    match statement.block.block_type() {
        BlockType::Assign => block_inputs_changed(&statement.block, wave, time, resolver),
        BlockType::Always => match statement.block.circuit_type() {
            CircuitType::Combinational => {
                if !block_inputs_changed(&statement.block, wave, time, resolver)? {
                    return Ok(false);
                }
                let reads = read_guard_values(statement.guards.as_slice(), statement.file.as_str(), wave, time, constants, resolver)?;
                let hold = evaluate_guards(statement.guards.as_slice(), constants, &reads);
                proof {
                    lemma_read_values_fit(guard_views(statement.guards@), constants.map(), reads.map());
                }
                Ok(hold)
            },
            CircuitType::Sequential => {
                let previous_time = Timestamp(time.0 - 1);
                if previous_time.0 < 0 {
                    return Ok(false);
                }
                if !sequential_block_triggered(
                    statement.file.as_str(),
                    &statement.triggers,
                    wave,
                    previous_time,
                    time,
                    resolver,
                )? {
                    return Ok(false);
                }
                let reads = read_guard_values(
                    statement.guards.as_slice(),
                    statement.file.as_str(),
                    wave,
                    previous_time,
                    constants,
                    resolver,
                )?;
                let hold = evaluate_guards(statement.guards.as_slice(), constants, &reads);
                proof {
                    lemma_read_values_fit(guard_views(statement.guards@), constants.map(), reads.map());
                }
                Ok(hold)
            },
        },
        _ => Ok(false),
    }
}

/// A statement in a coverage report.
#[derive(Debug)]
pub struct StatementCoverageEntry {
    pub file: String,
    pub line: usize,
    pub code_snippet: String,
}

/// The statements that ran at a time, and those that did not.
#[derive(Debug)]
pub struct StatementCoverageReport {
    pub time: i64,
    pub covered: Vec<StatementCoverageEntry>,
    pub uncovered: Vec<StatementCoverageEntry>,
}

/// The index of the last whitespace character of `s`.
pub open spec fn last_white(s: Seq<char>) -> Option<int>
    decreases s.len(),
{
    if s.len() == 0 {
        None
    } else if is_white(s.last()) {
        Some(s.len() - 1)
    } else {
        last_white(s.drop_last())
    }
}

/// The last whitespace-separated word of `s`, or nothing.
pub open spec fn last_word(s: Seq<char>) -> Seq<char> {
    let t = trim_end(s);
    match last_white(t) {
        Some(k) => t.subrange(k + 1, t.len() as int),
        None => t,
    }
}

pub open spec fn trim_start_comma(s: Seq<char>) -> Seq<char>
    decreases s.len(),
{
    if s.len() > 0 && s[0] == ',' {
        trim_start_comma(s.drop_first())
    } else {
        s
    }
}

pub open spec fn trim_end_comma(s: Seq<char>) -> Seq<char>
    decreases s.len(),
{
    if s.len() > 0 && s.last() == ',' {
        trim_end_comma(s.drop_last())
    } else {
        s
    }
}

/// `str::trim_matches(',')`.
pub open spec fn strip_commas(s: Seq<char>) -> Seq<char> {
    trim_end_comma(trim_start_comma(s))
}

pub open spec fn is_terminator(c: char) -> bool {
    c == ',' || c == ';' || c == '}'
}

/// The text before the first `,`, `;` or `}`.
pub open spec fn before_terminator(s: Seq<char>) -> Seq<char>
    decreases s.len(),
{
    if s.len() == 0 {
        s
    } else if is_terminator(s[0]) {
        Seq::<char>::empty()
    } else {
        seq![s[0]] + before_terminator(s.drop_first())
    }
}

/// The named constant a line defines: the last word before its first `=`
/// (commas stripped) and the bits of the literal after it, up to the first
/// `,`, `;` or `}`.
pub open spec fn constant_of_line(line: Seq<char>) -> Option<(Seq<char>, Seq<char>)> {
    match split_once(line, '=') {
        None => None,
        Some((lhs, rhs)) => {
            let name = trim(strip_commas(last_word(lhs)));
            let value = trim(before_terminator(rhs));
            if name.len() == 0 {
                None
            } else {
                match sv_literal(value) {
                    Some(bits) => Some((name, bits)),
                    None => None,
                }
            }
        },
    }
}

/// Reading the literal of a line does not panic.
pub open spec fn constant_line_ok(line: Seq<char>) -> bool {
    match split_once(line, '=') {
        None => true,
        Some((lhs, rhs)) => trim(strip_commas(last_word(lhs))).len() > 0 ==> sv_literal_ok(trim(before_terminator(rhs))),
    }
}

/// `m` with the constants of `lines`, later lines winning.
pub open spec fn fold_constants(m: Map<Seq<char>, Seq<char>>, lines: Seq<Seq<char>>) -> Map<Seq<char>, Seq<char>>
    decreases lines.len(),
{
    if lines.len() == 0 {
        m
    } else {
        let before = fold_constants(m, lines.drop_last());
        match constant_of_line(lines.last()) {
            Some((name, bits)) => before.insert(name, bits),
            None => before,
        }
    }
}

/// The named constants of some source texts, later definitions winning.
pub open spec fn constants_of(texts: Seq<Seq<char>>) -> Map<Seq<char>, Seq<char>>
    decreases texts.len(),
{
    if texts.len() == 0 {
        Map::empty()
    } else {
        fold_constants(constants_of(texts.drop_last()), text_lines(texts.last()))
    }
}

pub open spec fn source_texts(files: Seq<ParsedFile>) -> Seq<Seq<char>> {
    files.map_values(|f: ParsedFile| f.source_text@)
}

fn last_word_chars(s: &[char]) -> (r: Vec<char>)
    ensures
        r@ == last_word(s@),
{
    let n = s.len();
    let mut b: usize = n;
    proof {
        assert(s@.subrange(0, n as int) =~= s@);
    }
    while b > 0 && is_white_char(s[b - 1])
        invariant
            n == s@.len(),
            b <= n,
            trim_end(s@) == trim_end(s@.subrange(0, b as int)),
        decreases b,
    {
        proof {
            assert(s@.subrange(0, b as int).drop_last() =~= s@.subrange(0, b - 1));
        }
        b = b - 1;
    }
    let ghost t = s@.subrange(0, b as int);
    proof {
        assert(trim_end(s@) == t);
        assert(t.subrange(0, b as int) =~= t);
    }
    let mut k: usize = b;
    while k > 0 && !is_white_char(s[k - 1])
        invariant
            k <= b <= n,
            n == s@.len(),
            t == s@.subrange(0, b as int),
            last_white(t) == last_white(t.subrange(0, k as int)),
        decreases k,
    {
        proof {
            assert(t.subrange(0, k as int).drop_last() =~= t.subrange(0, k - 1));
        }
        k = k - 1;
    }
    proof {
        if k > 0 {
            assert(last_white(t.subrange(0, k as int)) == Some(k - 1));
        } else {
            assert(t.subrange(0, 0) =~= Seq::<char>::empty());
        }
    }
    slice_chars(s, k, b)
}

fn strip_commas_chars(s: &[char]) -> (r: Vec<char>)
    ensures
        r@ == strip_commas(s@),
{
    let n = s.len();
    let mut a: usize = 0;
    proof {
        assert(s@.subrange(0, n as int) =~= s@);
    }
    while a < n && s[a] == ','
        invariant
            n == s@.len(),
            a <= n,
            trim_start_comma(s@) == trim_start_comma(s@.subrange(a as int, n as int)),
        decreases n - a,
    {
        proof {
            assert(s@.subrange(a as int, n as int).drop_first() =~= s@.subrange(a + 1, n as int));
        }
        a = a + 1;
    }
    proof {
        if a == n {
            assert(s@.subrange(a as int, n as int) =~= Seq::<char>::empty());
        }
    }
    let mut b: usize = n;
    while b > a && s[b - 1] == ','
        invariant
            n == s@.len(),
            a <= b <= n,
            trim_start_comma(s@) == s@.subrange(a as int, n as int),
            strip_commas(s@) == trim_end_comma(s@.subrange(a as int, b as int)),
        decreases b - a,
    {
        proof {
            assert(s@.subrange(a as int, b as int).drop_last() =~= s@.subrange(a as int, b - 1));
        }
        b = b - 1;
    }
    slice_chars(s, a, b)
}

fn before_terminator_chars(s: &[char]) -> (r: Vec<char>)
    ensures
        r@ == before_terminator(s@),
{
    let n = s.len();
    let mut k: usize = 0;
    proof {
        assert(s@.subrange(0, n as int) =~= s@);
        assert(s@.subrange(0, 0) =~= Seq::<char>::empty());
    }
    while k < n && !(s[k] == ',' || s[k] == ';' || s[k] == '}')
        invariant
            n == s@.len(),
            k <= n,
            before_terminator(s@) == s@.subrange(0, k as int) + before_terminator(s@.subrange(k as int, n as int)),
        decreases n - k,
    {
        proof {
            assert(s@.subrange(k as int, n as int).drop_first() =~= s@.subrange(k + 1, n as int));
            assert(s@.subrange(0, k + 1) =~= s@.subrange(0, k as int) + seq![s@[k as int]]);
        }
        k = k + 1;
    }
    proof {
        if k == n {
            assert(s@.subrange(k as int, n as int) =~= Seq::<char>::empty());
        }
        assert(before_terminator(s@) =~= s@.subrange(0, k as int));
    }
    slice_chars(s, 0, k)
}

/// The named constant a line defines, if any.
fn line_constant(line: &[char]) -> (r: Option<(String, String)>)
    requires
        constant_line_ok(line@),
    ensures
        match r {
            Some((n, b)) => constant_of_line(line@) == Some((n@, b@)),
            None => constant_of_line(line@) is None,
        },
{
    let (lhs, rhs) = match split_once_char(line, '=') {
        Some(p) => p,
        None => {
            return None;
        },
    };
    let word = last_word_chars(lhs.as_slice());
    let stripped = strip_commas_chars(word.as_slice());
    let name = trim_chars(stripped.as_slice());
    let head = before_terminator_chars(rhs.as_slice());
    let value = trim_chars(head.as_slice());
    if name.len() == 0 {
        return None;
    }
    let vs = string_of(value.as_slice());
    match parse_sv_literal(vs.as_str()) {
        Some(bits) => Some((string_of(name.as_slice()), bits)),
        None => None,
    }
}

/// The named constants (`name = <sized literal>`) that the sources define,
/// as bits; a later definition of a name wins.
pub fn collect_named_constants(parsed_files: &[ParsedFile]) -> (r: NameMap<String>)
    requires
        forall|f: int, l: int|
            0 <= f < parsed_files@.len() && 0 <= l < text_lines(parsed_files@[f].source_text@).len() ==> constant_line_ok(
                #[trigger] text_lines(parsed_files@[f].source_text@)[l],
            ),
    ensures
        text_values(r.map()) == constants_of(source_texts(parsed_files@)),
{
    let mut constants: NameMap<String> = NameMap::new();
    let ghost texts = source_texts(parsed_files@);
    proof {
        assert(texts.subrange(0, 0) =~= Seq::<Seq<char>>::empty());
        assert(text_values(constants.map()) =~= Map::<Seq<char>, Seq<char>>::empty());
    }
    let mut f: usize = 0;
    while f < parsed_files.len()
        invariant
            f <= parsed_files@.len(),
            texts == source_texts(parsed_files@),
            text_values(constants.map()) == constants_of(texts.subrange(0, f as int)),
            forall|f: int, l: int|
                0 <= f < parsed_files@.len() && 0 <= l < text_lines(parsed_files@[f].source_text@).len() ==> constant_line_ok(
                    #[trigger] text_lines(parsed_files@[f].source_text@)[l],
                ),
        decreases parsed_files@.len() - f,
    {
        proof {
            assert(texts.subrange(0, f + 1).drop_last() =~= texts.subrange(0, f as int));
            assert(texts.subrange(0, f + 1).last() == parsed_files@[f as int].source_text@);
        }
        let text = chars_of(parsed_files[f].source_text.as_str());
        let lines = lines_of(text.as_slice());
        let ghost ls = text_lines(text@);
        let ghost start = text_values(constants.map());
        let mut l: usize = 0;
        while l < lines.len()
            invariant
                l <= lines@.len(),
                views_of(lines@) == ls,
                ls == text_lines(parsed_files@[f as int].source_text@),
                f < parsed_files@.len(),
                text_values(constants.map()) == fold_constants(start, ls.subrange(0, l as int)),
                forall|j: int| 0 <= j < ls.len() ==> constant_line_ok(#[trigger] ls[j]),
            decreases lines@.len() - l,
        {
            proof {
                assert(ls.subrange(0, l + 1).drop_last() =~= ls.subrange(0, l as int));
                assert(ls[l as int] == lines@[l as int]@);
            }
            match line_constant(lines[l].as_slice()) {
                Some((name, bits)) => {
                    let ghost before = text_values(constants.map());
                    let ghost nv = name@;
                    let ghost bv = bits@;
                    constants.insert(name, bits);
                    proof {
                        assert(text_values(constants.map()) =~= before.insert(nv, bv));
                    }
                },
                None => {},
            }
            l = l + 1;
        }
        proof {
            assert(ls.subrange(0, ls.len() as int) =~= ls);
        }
        f = f + 1;
    }
    proof {
        assert(texts.subrange(0, parsed_files@.len() as int) =~= texts);
    }
    constants
}

/// What a coverage report entry holds: file, line and code.
pub type CoverageEntryView = (Seq<char>, usize, Seq<char>);

pub open spec fn coverage_entry_view(e: StatementCoverageEntry) -> CoverageEntryView {
    (e.file@, e.line, e.code_snippet@)
}

pub open spec fn coverage_entry_views(v: Seq<StatementCoverageEntry>) -> Seq<CoverageEntryView> {
    v.map_values(|e: StatementCoverageEntry| coverage_entry_view(e))
}

/// Report entries are ordered by file, then line.
pub open spec fn entry_key(e: CoverageEntryView) -> Seq<u64> {
    text_key(e.0) + seq![e.1 as u64]
}

/// The stable order of `keys`: every position once, by key, ties kept in place.
pub open spec fn stable_order(keys: Seq<Seq<u64>>) -> Seq<usize> {
    choose|p: Seq<usize>| sorted_perm(p, keys) && forall|k: usize| k < keys.len() ==> p.contains(k)
}

/// `es` stably sorted by file, then line.
pub open spec fn sorted_entries(es: Seq<CoverageEntryView>) -> Seq<CoverageEntryView> {
    let p = stable_order(es.map_values(|e: CoverageEntryView| entry_key(e)));
    Seq::new(es.len(), |i: int| es[p[i] as int])
}

/// The entries whose flag is `want`, in order.
pub open spec fn flagged(es: Seq<CoverageEntryView>, flags: Seq<bool>, want: bool) -> Seq<CoverageEntryView>
    decreases es.len(),
{
    if es.len() == 0 || flags.len() == 0 {
        Seq::<CoverageEntryView>::empty()
    } else if es.len() != flags.len() {
        Seq::<CoverageEntryView>::empty()
    } else {
        let before = flagged(es.drop_last(), flags.drop_last(), want);
        if flags.last() == want {
            before.push(es.last())
        } else {
            before
        }
    }
}

/// Sorts entries by file, then line, keeping ties in order.
fn sort_entries(v: Vec<StatementCoverageEntry>) -> (r: Vec<StatementCoverageEntry>)
    ensures
        coverage_entry_views(r@) == sorted_entries(coverage_entry_views(v@)),
{
    let ghost es = coverage_entry_views(v@);
    let mut keys: Vec<Vec<u64>> = Vec::new();
    let mut i: usize = 0;
    while i < v.len()
        invariant
            i <= v@.len(),
            es == coverage_entry_views(v@),
            keys@.len() == i,
            forall|j: int| 0 <= j < i ==> #[trigger] keys@[j]@ == entry_key(es[j]),
        decreases v@.len() - i,
    {
        let mut key: Vec<u64> = Vec::new();
        let cs = chars_of(v[i].file.as_str());
        push_text_key(&mut key, cs.as_slice());
        let ghost text = key@;
        key.push(v[i].line as u64);
        proof {
            assert(key@ =~= text_key(es[i as int].0) + seq![es[i as int].1 as u64]);
        }
        keys.push(key);
        i = i + 1;
    }
    let ghost kv = es.map_values(|e: CoverageEntryView| entry_key(e));
    proof {
        assert(key_views(keys@) =~= kv);
    }
    let perm = sort_perm(&keys);
    proof {
        lemma_sorted_perm_unique(perm@, stable_order(kv), kv);
    }
    let mut out: Vec<StatementCoverageEntry> = Vec::new();
    let mut k: usize = 0;
    while k < perm.len()
        invariant
            perm@.len() == v@.len(),
            es == coverage_entry_views(v@),
            forall|a: int| 0 <= a < perm@.len() ==> #[trigger] perm@[a] < v@.len(),
            k <= perm@.len(),
            out@.len() == k,
            forall|a: int| 0 <= a < k ==> #[trigger] coverage_entry_view(out@[a]) == es[perm@[a] as int],
        decreases perm@.len() - k,
    {
        let e = &v[perm[k]];
        out.push(StatementCoverageEntry { file: e.file.clone(), line: e.line, code_snippet: e.code_snippet.clone() });
        k = k + 1;
    }
    proof {
        assert(coverage_entry_views(out@) =~= sorted_entries(es));
    }
    out
}

/// The report of which entries ran (`covered_flags`), each part sorted by
/// file, then line.
pub fn build_coverage_report(time: i64, entries: Vec<StatementCoverageEntry>, covered_flags: &Vec<bool>) -> (r:
    StatementCoverageReport)
    requires
        entries@.len() == covered_flags@.len(),
    ensures
        r.time == time,
        coverage_entry_views(r.covered@) == sorted_entries(flagged(coverage_entry_views(entries@), covered_flags@, true)),
        coverage_entry_views(r.uncovered@) == sorted_entries(flagged(coverage_entry_views(entries@), covered_flags@, false)),
{
    let ghost es = coverage_entry_views(entries@);
    let mut covered: Vec<StatementCoverageEntry> = Vec::new();
    let mut uncovered: Vec<StatementCoverageEntry> = Vec::new();
    let mut i: usize = 0;
    proof {
        assert(es.subrange(0, 0) =~= Seq::<CoverageEntryView>::empty());
        assert(coverage_entry_views(covered@) =~= Seq::<CoverageEntryView>::empty());
        assert(coverage_entry_views(uncovered@) =~= Seq::<CoverageEntryView>::empty());
    }
    while i < entries.len()
        invariant
            i <= entries@.len(),
            entries@.len() == covered_flags@.len(),
            es == coverage_entry_views(entries@),
            coverage_entry_views(covered@) == flagged(es.subrange(0, i as int), covered_flags@.subrange(0, i as int), true),
            coverage_entry_views(uncovered@) == flagged(es.subrange(0, i as int), covered_flags@.subrange(0, i as int), false),
        decreases entries@.len() - i,
    {
        proof {
            assert(es.subrange(0, i + 1).drop_last() =~= es.subrange(0, i as int));
            assert(covered_flags@.subrange(0, i + 1).drop_last() =~= covered_flags@.subrange(0, i as int));
        }
        let e = &entries[i];
        let copy = StatementCoverageEntry { file: e.file.clone(), line: e.line, code_snippet: e.code_snippet.clone() };
        if covered_flags[i] {
            let ghost before = coverage_entry_views(covered@);
            covered.push(copy);
            proof {
                assert(coverage_entry_views(covered@) =~= before.push(es[i as int]));
            }
        } else {
            let ghost before = coverage_entry_views(uncovered@);
            uncovered.push(copy);
            proof {
                assert(coverage_entry_views(uncovered@) =~= before.push(es[i as int]));
            }
        }
        i = i + 1;
    }
    proof {
        assert(es.subrange(0, entries@.len() as int) =~= es);
        assert(covered_flags@.subrange(0, entries@.len() as int) =~= covered_flags@);
    }
    StatementCoverageReport { time, covered: sort_entries(covered), uncovered: sort_entries(uncovered) }
}

/// What a report entry of a statement shows: its file, line and code.
pub open spec fn statement_entry(st: AssignmentStatement) -> CoverageEntryView {
    (st.file@, st.line, st.code_snippet@)
}

pub open spec fn statement_entries(sts: Seq<AssignmentStatement>) -> Seq<CoverageEntryView> {
    sts.map_values(|st: AssignmentStatement| statement_entry(st))
}

/// What `statement_is_covered` promises of its answer `covered` for `st`
/// at `time`, whatever the waveform holds.
pub open spec fn coverage_outcome(st: AssignmentStatement, time: Timestamp, covered: bool) -> bool {
    &&& (st.block@.block_type == BlockType::ModInput || st.block@.block_type == BlockType::ModOutput) ==> !covered
    &&& (st.block@.block_type == BlockType::Always && st.block@.circuit_type == CircuitType::Sequential && time.0 < 1)
        ==> !covered
    &&& (st.block@.block_type == BlockType::Assign && time.0 < 1) ==> covered
}

/// The coverage report at `time` of the assignment statements: each one
/// judged by `statement_is_covered`, each part sorted by file, then line.
pub fn coverage_report_of(
    statements: &Vec<AssignmentStatement>,
    wave: &WellenReader,
    time: Timestamp,
    constants: &NameMap<String>,
    resolver: &SignalResolver,
) -> (r: Result<StatementCoverageReport, SvaError>)
    requires
        time.0 > i64::MIN,
        forall|i: int| 0 <= i < statements@.len() ==> guards_ok(guard_views(#[trigger] statements@[i].guards@)),
    ensures
        r matches Ok(rep) ==> rep.time == time.0 && exists|flags: Seq<bool>|
            flags.len() == statements@.len() && (forall|i: int|
                0 <= i < flags.len() ==> coverage_outcome(#[trigger] statements@[i], time, flags[i])
                && guard_outcome(statements@[i], text_values(constants.map()), flags[i]))
                && coverage_entry_views(rep.covered@) == sorted_entries(flagged(statement_entries(statements@), flags, true))
                && coverage_entry_views(rep.uncovered@) == sorted_entries(flagged(statement_entries(statements@), flags, false)),
        (forall|i: int| 0 <= i < statements@.len() ==> reads_nothing(#[trigger] statements@[i], time)) ==> r is Ok,
        r matches Err(e) ==> e is SignalDataNotLoaded,
{
    let ghost quiet = forall|i: int| 0 <= i < statements@.len() ==> reads_nothing(#[trigger] statements@[i], time);
    let mut entries: Vec<StatementCoverageEntry> = Vec::new();
    let mut flags: Vec<bool> = Vec::new();
    let mut i: usize = 0;
    while i < statements.len()
        invariant
            quiet == forall|i: int| 0 <= i < statements@.len() ==> reads_nothing(#[trigger] statements@[i], time),
            i <= statements@.len(),
            entries@.len() == i,
            flags@.len() == i,
            time.0 > i64::MIN,
            forall|i: int| 0 <= i < statements@.len() ==> guards_ok(guard_views(#[trigger] statements@[i].guards@)),
            coverage_entry_views(entries@) == statement_entries(statements@.subrange(0, i as int)),
            forall|j: int| 0 <= j < i ==> coverage_outcome(#[trigger] statements@[j], time, flags@[j])
                && guard_outcome(statements@[j], text_values(constants.map()), flags@[j]),
        decreases statements@.len() - i,
    {
        let st = &statements[i];
        proof {
            if quiet {
                assert(reads_nothing(statements@[i as int], time));
            }
        }
        let covered = statement_is_covered(st, wave, time, constants, resolver)?;
        let ghost before = coverage_entry_views(entries@);
        let entry = StatementCoverageEntry { file: st.file.clone(), line: st.line, code_snippet: st.code_snippet.clone() };
        entries.push(entry);
        flags.push(covered);
        proof {
            assert(coverage_entry_views(entries@) =~= before.push(coverage_entry_view(entry)));
            assert(statement_entries(statements@.subrange(0, i + 1)) =~= statement_entries(
                statements@.subrange(0, i as int),
            ).push(statement_entry(statements@[i as int])));
        }
        i = i + 1;
    }
    let report = build_coverage_report(time.0, entries, &flags);
    proof {
        assert(statements@.subrange(0, statements@.len() as int) =~= statements@);
    }
    Ok(report)
}

/// The coverage report at `time` of the assignment statements of the parsed
/// files (`statements`, found in their syntax trees): the files' named
/// constants and the waveform's signal names resolve what the guards read.
pub fn assignment_statement_coverage_report(
    parsed_files: &[ParsedFile],
    statements: &Vec<AssignmentStatement>,
    waveform: &WellenReader,
    time: Timestamp,
) -> (r: Result<StatementCoverageReport, SvaError>)
    requires
        time.0 > i64::MIN,
        forall|i: int| 0 <= i < statements@.len() ==> guards_ok(guard_views(#[trigger] statements@[i].guards@)),
        forall|f: int, l: int|
            0 <= f < parsed_files@.len() && 0 <= l < text_lines(parsed_files@[f].source_text@).len() ==> constant_line_ok(
                #[trigger] text_lines(parsed_files@[f].source_text@)[l],
            ),
    ensures
        r matches Ok(rep) ==> rep.time == time.0 && exists|flags: Seq<bool>|
            flags.len() == statements@.len() && (forall|i: int|
                0 <= i < flags.len() ==> coverage_outcome(#[trigger] statements@[i], time, flags[i])
                && guard_outcome(statements@[i], constants_of(source_texts(parsed_files@)), flags[i]))
                && coverage_entry_views(rep.covered@) == sorted_entries(flagged(statement_entries(statements@), flags, true))
                && coverage_entry_views(rep.uncovered@) == sorted_entries(flagged(statement_entries(statements@), flags, false)),
        (forall|i: int| 0 <= i < statements@.len() ==> reads_nothing(#[trigger] statements@[i], time)) ==> r is Ok,
        r matches Err(e) ==> e is SignalDataNotLoaded,
{
    let constants = collect_named_constants(parsed_files);
    let resolver = SignalResolver::new(waveform);
    coverage_report_of(statements, waveform, time, &constants, &resolver)
}

/// The covered and the uncovered part of a report together hold as many
/// entries as there are statements, whatever was covered.
pub proof fn lemma_report_parts_cover_statements(es: Seq<CoverageEntryView>, flags: Seq<bool>)
    requires
        es.len() == flags.len(),
    ensures
        flagged(es, flags, true).len() + flagged(es, flags, false).len() == es.len(),
        sorted_entries(flagged(es, flags, true)).len() == flagged(es, flags, true).len(),
        sorted_entries(flagged(es, flags, false)).len() == flagged(es, flags, false).len(),
    decreases es.len(),
{
    if es.len() > 0 {
        lemma_report_parts_cover_statements(es.drop_last(), flags.drop_last());
    }
}

/// Names with equal keys are equal.
pub proof fn lemma_text_key_names(a: Seq<char>, b: Seq<char>)
    requires
        text_key(a) == text_key(b),
    ensures
        a == b,
{
    lemma_text_key_injective(a, b);
}

} // verus!
