use vstd::prelude::*;

use crate::coverage::statements::{trim, trim_chars};
use crate::text::{chars_of, join_chars, join_with, lines_of, string_of, text_lines, views_of};

verus! {

/// The lines of `lines` whose number (counting from one) is within
/// `start..=end`, in order.
pub open spec fn lines_in_range(lines: Seq<Seq<char>>, start: int, end: int) -> Seq<Seq<char>>
    decreases lines.len(),
{
    if lines.len() == 0 {
        Seq::empty()
    } else {
        let rest = lines_in_range(lines.drop_last(), start, end);
        let number = lines.len() as int;
        if start <= number && number <= end {
            rest.push(lines.last())
        } else {
            rest
        }
    }
}

/// The code of lines `start..=end` of a source text: those lines joined by
/// line feeds, with white space trimmed from both ends.
pub open spec fn snippet_text(source: Seq<char>, start: int, end: int) -> Seq<char> {
    trim(join_chars(lines_in_range(text_lines(source), start, end), '\n'))
}

/// The code of lines `line_start..=line_end` of `source_text` (see `snippet_text`).
pub fn snippet_from_source(source_text: &str, line_start: usize, line_end: usize) -> (r: String)
    ensures
        r@ == snippet_text(source_text@, line_start as int, line_end as int),
{
    let cs = chars_of(source_text);
    let lines = lines_of(cs.as_slice());
    let ghost lv = views_of(lines@);
    let mut picked: Vec<Vec<char>> = Vec::new();
    let mut i: usize = 0;
    proof {
        assert(lv.subrange(0, 0) =~= Seq::<Seq<char>>::empty());
    }
    while i < lines.len()
        invariant
            i <= lines@.len(),
            lv == views_of(lines@),
            views_of(picked@) == lines_in_range(lv.subrange(0, i as int), line_start as int, line_end as int),
        decreases lines@.len() - i,
    {
        let ghost sub = lv.subrange(0, i as int);
        let ghost next = lv.subrange(0, i + 1);
        proof {
            assert(next.drop_last() =~= sub);
            assert(next.last() == lv[i as int]);
        }
        if line_start <= i + 1 && i + 1 <= line_end {
            let ghost before = views_of(picked@);
            let mut copy: Vec<char> = Vec::new();
            let line = &lines[i];
            let mut k: usize = 0;
            while k < line.len()
                invariant
                    k <= line@.len(),
                    copy@ == line@.subrange(0, k as int),
                decreases line@.len() - k,
            {
                copy.push(line[k]);
                proof {
                    assert(copy@ =~= line@.subrange(0, k + 1));
                }
                k = k + 1;
            }
            proof {
                assert(copy@ =~= line@);
            }
            picked.push(copy);
            proof {
                assert(views_of(picked@) =~= before.push(lv[i as int]));
            }
        }
        i = i + 1;
    }
    proof {
        assert(lv.subrange(0, lv.len() as int) =~= lv);
    }
    let joined = join_with(&picked, '\n');
    let trimmed = trim_chars(joined.as_slice());
    string_of(trimmed.as_slice())
}

} // verus!
