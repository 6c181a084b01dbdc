use vstd::prelude::*;

use std::path::PathBuf;
use vstd::string::StringSliceAdditionalSpecFns;

use crate::error::SvaError;

verus! {

#[verifier::external_type_specification]
#[verifier::external_body]
pub struct ExPathBuf(std::path::PathBuf);

#[verifier::external_type_specification]
#[verifier::external_body]
pub struct ExSyntaxTree(sv_parser::SyntaxTree);

#[verifier::external_type_specification]
#[verifier::external_body]
pub struct ExLocate(sv_parser::Locate);

/// The byte offset in the original source text that a location of the
/// preprocessed text comes from (sv-parser's `SyntaxTree::get_origin`); none
/// when the tree does not know it. What it is depends on how the tree was
/// preprocessed, which nothing here states.
#[verifier::external_body]
fn origin_offset(tree: &sv_parser::SyntaxTree, locate: &sv_parser::Locate) -> Option<usize> {
    tree.get_origin(locate).map(|origin| origin.1)
}

/// A source file together with its parsed syntax tree.
#[derive(Debug)]
pub struct ParsedFile {
    pub path: PathBuf,
    pub source_text: String,
    pub syntax_tree: sv_parser::SyntaxTree,
}

/// Where to look for sources and includes when parsing.
#[derive(Debug)]
pub struct ParseOptions {
    pub project_path: Option<PathBuf>,
    pub include_paths: Vec<PathBuf>,
}

/// Turns source files into syntax trees.
pub trait AstProvider {
    fn parse_files(&self, paths: &[PathBuf]) -> Result<Vec<ParsedFile>, SvaError>;
}

/// Number of line feeds among the first `n` bytes of `b`.
pub open spec fn count_lf(b: Seq<u8>, n: int) -> nat
    decreases n,
{
    if n <= 0 {
        0
    } else if b[n - 1] == 10u8 {
        count_lf(b, n - 1) + 1
    } else {
        count_lf(b, n - 1)
    }
}

/// Index of the last line feed among the first `n` bytes of `b`.
pub open spec fn last_lf(b: Seq<u8>, n: int) -> Option<int>
    decreases n,
{
    if n <= 0 {
        None
    } else if b[n - 1] == 10u8 {
        Some(n - 1)
    } else {
        last_lf(b, n - 1)
    }
}

/// Column and row (both counted from one, the column from the previous line
/// feed) of byte `p` of `b`; `None` past the end.
pub open spec fn pos_from_offset(b: Seq<u8>, p: int) -> Option<(usize, usize)> {
    if 0 <= p < b.len() {
        let column = match last_lf(b, p + 1) {
            Some(l) => p - l,
            None => p + 1,
        };
        Some((column as usize, (count_lf(b, p + 1) + 1) as usize))
    } else {
        None
    }
}

proof fn lemma_count_lf_bound(b: Seq<u8>, n: int)
    ensures
        n >= 0 ==> count_lf(b, n) <= n,
    decreases n,
{
    if n > 0 {
        lemma_count_lf_bound(b, n - 1);
    }
}

proof fn lemma_last_lf_bound(b: Seq<u8>, n: int)
    ensures
        last_lf(b, n) matches Some(l) ==> 0 <= l < n,
    decreases n,
{
    if n > 0 {
        lemma_last_lf_bound(b, n - 1);
    }
}

/// The (column, row) of byte offset `print_pos` in `src`.
pub fn get_pos_from_offset(src: &str, print_pos: usize) -> (r: Option<(usize, usize)>)
    requires
        src.spec_bytes().len() < usize::MAX,
    ensures
        r == pos_from_offset(src.spec_bytes(), print_pos as int),
{
    let bytes = src.as_bytes();
    let ghost b = bytes@;
    assert(b == src.spec_bytes());
    let mut pos: usize = 0;
    let mut row: usize = 1;
    let mut last: Option<usize> = None;
    while pos < bytes.len()
        invariant
            b == bytes@,
            b == src.spec_bytes(),
            b.len() < usize::MAX,
            pos <= b.len(),
            pos <= print_pos,
            row == count_lf(b, pos as int) + 1,
            match last {
                Some(l) => last_lf(b, pos as int) == Some(l as int),
                None => last_lf(b, pos as int) is None,
            },
        decreases b.len() - pos,
    {
        proof {
            lemma_count_lf_bound(b, pos as int);
            lemma_last_lf_bound(b, pos as int);
        }
        if bytes[pos] == 10u8 {
            row = row + 1;
            last = Some(pos);
        }
        proof {
            lemma_count_lf_bound(b, pos + 1);
            lemma_last_lf_bound(b, pos + 1);
            assert(count_lf(b, pos + 1) == count_lf(b, pos as int) + if b[pos as int] == 10u8 { 1int } else { 0int });
        }
        assert(row == count_lf(b, pos + 1) + 1);
        assert(match last {
            Some(l) => last_lf(b, pos + 1) == Some(l as int),
            None => last_lf(b, pos + 1) is None,
        });
        if print_pos == pos {
            let column = match last {
                Some(l) => pos - l,
                None => pos + 1,
            };
            assert(pos_from_offset(b, pos as int) == Some((column, row)));
            return Some((column, row));
        }
        pos = pos + 1;
    }
    None
}

/// The row (counted from one) of byte offset `offset` in `src`.
pub fn row_from_offset(src: &str, offset: usize) -> (r: Option<usize>)
    requires
        src.spec_bytes().len() < usize::MAX,
    ensures
        r == match pos_from_offset(src.spec_bytes(), offset as int) {
            Some(p) => Some(p.1),
            None => None::<usize>,
        },
{
    match get_pos_from_offset(src, offset) {
        Some((_column, row)) => Some(row),
        None => None,
    }
}

/// The row of the first byte of a span of `len` bytes that ends at `offset`.
pub fn row_from_span(src: &str, offset: usize, len: usize) -> (r: Option<usize>)
    requires
        src.spec_bytes().len() < usize::MAX,
    ensures
        ({
            let back: int = if len == 0 { 0 } else { len - 1 };
            let start: int = if offset >= back { offset - back } else { 0 };
            r == match pos_from_offset(src.spec_bytes(), start) {
                Some(p) => Some(p.1),
                None => None::<usize>,
            }
        }),
{
    let back = if len == 0 { 0 } else { len - 1 };
    let start = if offset >= back { offset - back } else { 0 };
    row_from_offset(src, start)
}

/// The row of `code_content` that an original offset stands on; none when
/// there is no offset or it is past the text.
pub open spec fn row_of_origin(code: Seq<u8>, origin: Option<usize>) -> Option<usize> {
    match origin {
        Some(o) => match pos_from_offset(code, o as int) {
            Some(p) => Some(p.1),
            None => None,
        },
        None => None,
    }
}

/// The line of `code_content` at original offset `origin` (see
/// `row_of_origin`).
pub fn lineno_from_origin(origin: Option<usize>, code_content: &str) -> (r: Option<usize>)
    requires
        code_content.spec_bytes().len() < usize::MAX,
    ensures
        r == row_of_origin(code_content.spec_bytes(), origin),
{
    match origin {
        Some(offset) => row_from_offset(code_content, offset),
        None => None,
    }
}

/// The line of `code_content` that a syntax-tree location comes from: the
/// line holding the byte at the location's original offset, which the tree
/// gives (see `origin_offset`); none when the tree gives no original offset
/// or that offset is past the text. Which offset the tree gives is not
/// stated: the result is `row_of_origin` of some offset, or of none.
pub fn get_original_lineno_from_ast_locate(
    tree: &sv_parser::SyntaxTree,
    ast_locate: sv_parser::Locate,
    code_content: &str,
) -> (r: Option<usize>)
    requires
        code_content.spec_bytes().len() < usize::MAX,
    ensures
        exists|origin: Option<usize>| r == #[trigger] row_of_origin(code_content.spec_bytes(), origin),
{
    let origin = origin_offset(tree, &ast_locate);
    lineno_from_origin(origin, code_content)
}

} // verus!
