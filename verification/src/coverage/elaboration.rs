use vstd::prelude::*;

use std::sync::Arc;

use crate::coverage::CoverageTracker;
use crate::error::SvaError;
use crate::json::{
    as_str, field_index, get, get_field, json_get, json_str, lemma_object_element,
    lemma_object_in_tree_cases, lemma_object_member, lemma_object_root, object_in_tree, JsonField,
    JsonValue,
};
use crate::text::{
    after_last, after_last_char, chars_of, ends_with, parse_usize, parse_usize_spec, slice_chars,
    spec_ends_with, split_char, split_chars, split_once, split_once_char, str_eq, string_of, views_of,
};
use crate::types::Timestamp;

verus! {

/// The lines `start..=end` of a source file.
#[derive(Debug, Clone, Copy, PartialEq, Eq, Structural)]
pub struct ElaboratedLineRange {
    pub start: usize,
    pub end: usize,
}

/// `file` with backslashes read as slashes.
pub open spec fn slashed(file: Seq<char>) -> Seq<char> {
    file.map_values(|c: char| if c == '\\' { '/' } else { c })
}

/// The key a source file is known by: its base name without `.sv` or `.v`.
pub open spec fn file_key(file: Seq<char>) -> Seq<char> {
    let base = after_last(slashed(file), '/');
    if spec_ends_with(base, ".sv"@) {
        base.subrange(0, base.len() - ".sv"@.len())
    } else if spec_ends_with(base, ".v"@) {
        base.subrange(0, base.len() - ".v"@.len())
    } else {
        base
    }
}

/// The key a source file is known by: its base name without `.sv` or `.v`,
/// backslashes read as slashes.
pub fn normalize_file_key(file: &str) -> (r: String)
    ensures
        r@ == file_key(file@),
{
    let cs = chars_of(file);
    let mut n: Vec<char> = Vec::new();
    let mut i: usize = 0;
    while i < cs.len()
        invariant
            i <= cs@.len(),
            n@ == slashed(cs@.subrange(0, i as int)),
        decreases cs@.len() - i,
    {
        let c = cs[i];
        n.push(if c == '\\' { '/' } else { c });
        proof {
            assert(slashed(cs@.subrange(0, i + 1)) =~= slashed(cs@.subrange(0, i as int)).push(
                if c == '\\' { '/' } else { c },
            ));
        }
        i = i + 1;
    }
    proof {
        assert(cs@.subrange(0, cs@.len() as int) =~= cs@);
    }
    let base = after_last_char(n.as_slice(), '/');
    let sv = chars_of(".sv");
    let v = chars_of(".v");
    if ends_with(base.as_slice(), sv.as_slice()) {
        string_of(slice_chars(base.as_slice(), 0, base.len() - sv.len()).as_slice())
    } else if ends_with(base.as_slice(), v.as_slice()) {
        string_of(slice_chars(base.as_slice(), 0, base.len() - v.len()).as_slice())
    } else {
        string_of(base.as_slice())
    }
}

/// The line of a `line:column` position.
pub open spec fn loc_line(part: Seq<char>) -> Option<usize> {
    match split_once(part, ':') {
        Some((line, _)) => parse_usize_spec(line),
        None => None,
    }
}

fn parse_loc_line(part: &[char]) -> (r: Option<usize>)
    ensures
        r == loc_line(part@),
{
    match split_once_char(part, ':') {
        Some((line, _)) => parse_usize(line.as_slice()),
        None => None,
    }
}

/// A Verilator location `file,start_line:col,end_line:col`: the file and the
/// ordered line range; none for a built-in file (`<...>`) or a line 0.
pub open spec fn verilator_loc(loc: Seq<char>) -> Option<(Seq<char>, ElaboratedLineRange)> {
    match split_once(loc, ',') {
        Some((file, rest)) => if file.len() > 0 && file[0] == '<' {
            None
        } else {
            match split_once(rest, ',') {
                Some((a, b)) => match (loc_line(a), loc_line(b)) {
                    (Some(x), Some(y)) => if x == 0 || y == 0 {
                        None
                    } else {
                        Some(
                            (
                                file,
                                ElaboratedLineRange {
                                    start: if x <= y { x } else { y },
                                    end: if x <= y { y } else { x },
                                },
                            ),
                        )
                    },
                    _ => None,
                },
                None => None,
            }
        },
        None => None,
    }
}

pub fn parse_verilator_loc(loc: &str) -> (r: Option<(String, ElaboratedLineRange)>)
    ensures
        match r {
            Some((f, range)) => verilator_loc(loc@) == Some((f@, range)),
            None => verilator_loc(loc@) is None,
        },
{
    let cs = chars_of(loc);
    let (file, rest) = match split_once_char(cs.as_slice(), ',') {
        Some(p) => p,
        None => {
            return None;
        },
    };
    if file.len() > 0 && file[0] == '<' {
        return None;
    }
    let (a, b) = match split_once_char(rest.as_slice(), ',') {
        Some(p) => p,
        None => {
            return None;
        },
    };
    let x = match parse_loc_line(a.as_slice()) {
        Some(x) => x,
        None => {
            return None;
        },
    };
    let y = match parse_loc_line(b.as_slice()) {
        Some(y) => y,
        None => {
            return None;
        },
    };
    if x == 0 || y == 0 {
        return None;
    }
    let range = ElaboratedLineRange { start: if x <= y { x } else { y }, end: if x <= y { y } else { x } };
    Some((string_of(file.as_slice()), range))
}

/// Whether the dotted instance path `instance` is the tail of `scope_parts`.
pub open spec fn ends_with_instance(scope_parts: Seq<Seq<char>>, instance: Seq<char>) -> bool {
    let parts = split_char(instance, '.');
    parts.len() <= scope_parts.len() && scope_parts.subrange(scope_parts.len() - parts.len(), scope_parts.len() as int)
        == parts
}

fn scope_ends_with_instance(scope_parts: &Vec<Vec<char>>, instance: &str) -> (r: bool)
    ensures
        r == ends_with_instance(views_of(scope_parts@), instance@),
{
    let ic = chars_of(instance);
    let parts = split_chars(ic.as_slice(), '.');
    if parts.len() > scope_parts.len() {
        return false;
    }
    let off = scope_parts.len() - parts.len();
    let ghost sv = views_of(scope_parts@);
    let ghost pv = views_of(parts@);
    let mut k: usize = 0;
    while k < parts.len()
        invariant
            sv == views_of(scope_parts@),
            pv == views_of(parts@),
            pv == split_char(instance@, '.'),
            parts@.len() <= scope_parts@.len(),
            off == scope_parts@.len() - parts@.len(),
            off + parts@.len() == scope_parts@.len(),
            scope_parts@.len() == scope_parts.len(),
            parts@.len() == parts.len(),
            k <= parts@.len(),
            forall|j: int| 0 <= j < k ==> sv[off + j] == pv[j],
        decreases parts@.len() - k,
    {
        if !crate::text::chars_eq(scope_parts[off + k].as_slice(), parts[k].as_slice()) {
            proof {
                assert(sv.subrange(off as int, sv.len() as int)[k as int] != pv[k as int]);
            }
            return false;
        }
        k = k + 1;
    }
    proof {
        assert(sv.subrange(off as int, sv.len() as int) =~= pv);
    }
    true
}

/// An entry of a Verilator file map: a file id and the key of its path.
#[derive(Debug)]
pub struct FileMapEntry {
    pub id: String,
    pub path: String,
}

/// The path an entry of the metadata's file list gives: the string itself,
/// or its `realpath`, else `filename`, else `path` member.
pub open spec fn meta_entry_path(entry: JsonValue) -> Option<Seq<char>> {
    match entry {
        JsonValue::String(p) => Some(p@),
        JsonValue::Object(_) => {
            let m = if json_get(entry, "realpath"@) is Some {
                json_get(entry, "realpath"@)
            } else if json_get(entry, "filename"@) is Some {
                json_get(entry, "filename"@)
            } else {
                json_get(entry, "path"@)
            };
            json_str(m)
        },
        _ => None,
    }
}

fn file_path_from_meta_entry(entry: &JsonValue) -> (r: Option<&str>)
    ensures
        match r {
            Some(p) => meta_entry_path(*entry) == Some(p@),
            None => meta_entry_path(*entry) is None,
        },
{
    match entry {
        JsonValue::String(p) => Some(p.as_str()),
        JsonValue::Object(_) => {
            let m = match get(entry, "realpath") {
                Some(x) => Some(x),
                None => match get(entry, "filename") {
                    Some(x) => Some(x),
                    None => get(entry, "path"),
                },
            };
            as_str(m)
        },
        _ => None,
    }
}

/// The id of an element of the metadata's file list: its `id`, else
/// `file_id`, else `key` member, when that is a string.
pub open spec fn meta_entry_id(entry: JsonValue) -> Option<Seq<char>> {
    let m = if json_get(entry, "id"@) is Some {
        json_get(entry, "id"@)
    } else if json_get(entry, "file_id"@) is Some {
        json_get(entry, "file_id"@)
    } else {
        json_get(entry, "key"@)
    };
    json_str(m)
}

/// The (id, file key) pairs that the metadata's file list gives, in order.
pub open spec fn meta_pairs(root: JsonValue) -> Seq<Option<(Seq<char>, Seq<char>)>> {
    match json_get(root, "files"@) {
        Some(JsonValue::Object(files)) => files@.map_values(
            |f: JsonField|
                match meta_entry_path(f.value) {
                    Some(p) => Some((f.key@, file_key(p))),
                    None => None,
                },
        ),
        Some(JsonValue::Array(files)) => files@.map_values(
            |f: JsonValue|
                match (meta_entry_id(f), meta_entry_path(f)) {
                    (Some(id), Some(p)) => Some((id, file_key(p))),
                    _ => None,
                },
        ),
        _ => Seq::empty(),
    }
}

/// The file key the last pair for `id` gives.
pub open spec fn last_mapping(pairs: Seq<Option<(Seq<char>, Seq<char>)>>, id: Seq<char>) -> Option<Seq<char>>
    decreases pairs.len(),
{
    if pairs.len() == 0 {
        None
    } else {
        match pairs.last() {
            Some((k, v)) => if k == id {
                Some(v)
            } else {
                last_mapping(pairs.drop_last(), id)
            },
            None => last_mapping(pairs.drop_last(), id),
        }
    }
}

/// The file key a file map gives for `id`.
pub open spec fn map_lookup(map: Seq<FileMapEntry>, id: Seq<char>) -> Option<Seq<char>> {
    if exists|i: int| 0 <= i < map.len() && #[trigger] map[i].id@ == id {
        Some(map[choose|i: int| 0 <= i < map.len() && #[trigger] map[i].id@ == id].path@)
    } else {
        None
    }
}

pub open spec fn map_ids_distinct(map: Seq<FileMapEntry>) -> bool {
    forall|i: int, j: int| 0 <= i < j < map.len() ==> map[i].id@ != map[j].id@
}

proof fn lemma_map_lookup_at(map: Seq<FileMapEntry>, i: int)
    requires
        map_ids_distinct(map),
        0 <= i < map.len(),
    ensures
        map_lookup(map, map[i].id@) == Some(map[i].path@),
{
    let c = choose|c: int| 0 <= c < map.len() && #[trigger] map[c].id@ == map[i].id@;
    if c < i {
        assert(map[c].id@ != map[i].id@);
    } else if c > i {
        assert(map[i].id@ != map[c].id@);
    }
}

/// Position of the entry for `id`.
fn find_file(map: &Vec<FileMapEntry>, id: &str) -> (r: Option<usize>)
    ensures
        match r {
            Some(i) => i < map@.len() && map@[i as int].id@ == id@,
            None => forall|i: int| 0 <= i < map@.len() ==> map@[i].id@ != id@,
        },
{
    let mut i: usize = 0;
    while i < map.len()
        invariant
            i <= map@.len(),
            forall|j: int| 0 <= j < i ==> map@[j].id@ != id@,
        decreases map@.len() - i,
    {
        if str_eq(map[i].id.as_str(), id) {
            return Some(i);
        }
        i = i + 1;
    }
    None
}

/// Maps `id` to `path`, replacing an earlier mapping of `id`.
fn insert_file(map: &mut Vec<FileMapEntry>, id: &str, path: String)
    requires
        map_ids_distinct(old(map)@),
    ensures
        map_ids_distinct(final(map)@),
        forall|k: Seq<char>| #[trigger] map_lookup(final(map)@, k) == if k == id@ {
            Some(path@)
        } else {
            map_lookup(old(map)@, k)
        },
{
    let ghost before = map@;
    match find_file(map, id) {
        Some(i) => {
            map.set(i, FileMapEntry { id: id.to_owned(), path });
            proof {
                assert forall|a: int, b: int| 0 <= a < b < map@.len() implies map@[a].id@ != map@[b].id@ by {
                    assert(before[a].id@ != before[b].id@);
                }
                assert forall|k: Seq<char>| #[trigger] map_lookup(map@, k) == if k == id@ {
                    Some(path@)
                } else {
                    map_lookup(before, k)
                } by {
                    if k == id@ {
                        lemma_map_lookup_at(map@, i as int);
                    } else {
                        if exists|j: int| 0 <= j < map@.len() && #[trigger] map@[j].id@ == k {
                            let j = choose|j: int| 0 <= j < map@.len() && #[trigger] map@[j].id@ == k;
                            lemma_map_lookup_at(map@, j);
                            lemma_map_lookup_at(before, j);
                        } else {
                            assert forall|j: int| 0 <= j < before.len() implies before[j].id@ != k by {
                                assert(map@[j].id@ != k);
                            }
                        }
                    }
                }
            }
        },
        None => {
            map.push(FileMapEntry { id: id.to_owned(), path });
            proof {
                let n = before.len() as int;
                assert forall|k: Seq<char>| #[trigger] map_lookup(map@, k) == if k == id@ {
                    Some(path@)
                } else {
                    map_lookup(before, k)
                } by {
                    if k == id@ {
                        lemma_map_lookup_at(map@, n);
                    } else {
                        if exists|j: int| 0 <= j < map@.len() && #[trigger] map@[j].id@ == k {
                            let j = choose|j: int| 0 <= j < map@.len() && #[trigger] map@[j].id@ == k;
                            lemma_map_lookup_at(map@, j);
                            lemma_map_lookup_at(before, j);
                        } else {
                            assert forall|j: int| 0 <= j < before.len() implies before[j].id@ != k by {
                                assert(map@[j].id@ != k);
                            }
                        }
                    }
                }
            }
        },
    }
}

/// The file map that a Verilator tree metadata document gives: file ids to
/// file keys, a later entry for an id replacing an earlier one.
fn collect_file_entries(root: &JsonValue) -> (r: Vec<FileMapEntry>)
    ensures
        map_ids_distinct(r@),
        forall|id: Seq<char>| #[trigger] map_lookup(r@, id) == last_mapping(meta_pairs(*root), id),
{
    let mut map: Vec<FileMapEntry> = Vec::new();
    let ghost pairs = meta_pairs(*root);
    match get(root, "files") {
        Some(JsonValue::Object(files)) => {
            let mut i: usize = 0;
            while i < files.len()
                invariant
                    json_get(*root, "files"@) == Some(JsonValue::Object(*files)),
                    pairs == meta_pairs(*root),
                    i <= files@.len(),
                    map_ids_distinct(map@),
                    forall|id: Seq<char>| #[trigger] map_lookup(map@, id) == last_mapping(pairs.subrange(0, i as int), id),
                decreases files@.len() - i,
            {
                proof {
                    assert(pairs.subrange(0, i + 1).drop_last() =~= pairs.subrange(0, i as int));
                }
                match file_path_from_meta_entry(&files[i].value) {
                    Some(path) => {
                        let key = normalize_file_key(path);
                        insert_file(&mut map, files[i].key.as_str(), key);
                    },
                    None => {},
                }
                i = i + 1;
            }
            proof {
                assert(pairs.subrange(0, files@.len() as int) =~= pairs);
            }
        },
        Some(JsonValue::Array(files)) => {
            let mut i: usize = 0;
            while i < files.len()
                invariant
                    json_get(*root, "files"@) == Some(JsonValue::Array(*files)),
                    pairs == meta_pairs(*root),
                    i <= files@.len(),
                    map_ids_distinct(map@),
                    forall|id: Seq<char>| #[trigger] map_lookup(map@, id) == last_mapping(pairs.subrange(0, i as int), id),
                decreases files@.len() - i,
            {
                proof {
                    assert(pairs.subrange(0, i + 1).drop_last() =~= pairs.subrange(0, i as int));
                }
                let file = &files[i];
                let idv = match get(file, "id") {
                    Some(x) => Some(x),
                    None => match get(file, "file_id") {
                        Some(x) => Some(x),
                        None => get(file, "key"),
                    },
                };
                match as_str(idv) {
                    Some(id) => match file_path_from_meta_entry(file) {
                        Some(path) => {
                            let key = normalize_file_key(path);
                            insert_file(&mut map, id, key);
                        },
                        None => {},
                    },
                    None => {},
                }
                i = i + 1;
            }
            proof {
                assert(pairs.subrange(0, files@.len() as int) =~= pairs);
            }
        },
        _ => {},
    }
    map
}

/// The line ranges of one source file.
#[derive(Debug)]
pub struct FileRanges {
    pub file: String,
    pub ranges: Vec<ElaboratedLineRange>,
}

/// `a` before `b`: by start line, then by end line.
pub open spec fn range_lt(a: ElaboratedLineRange, b: ElaboratedLineRange) -> bool {
    a.start < b.start || (a.start == b.start && a.end < b.end)
}

pub open spec fn ranges_ascending(rs: Seq<ElaboratedLineRange>) -> bool {
    forall|a: int, b: int| 0 <= a < b < rs.len() ==> range_lt(rs[a], rs[b])
}

/// Each file once, its ranges sorted and without repeats.
pub open spec fn table_wf(t: Seq<FileRanges>) -> bool {
    &&& forall|i: int, j: int| 0 <= i < j < t.len() ==> t[i].file@ != t[j].file@
    &&& forall|i: int| 0 <= i < t.len() ==> ranges_ascending(#[trigger] t[i].ranges@)
}

/// Whether the table lists range `r` for file `file`.
pub open spec fn has_range(t: Seq<FileRanges>, file: Seq<char>, r: ElaboratedLineRange) -> bool {
    exists|i: int, k: int|
        #![trigger t[i].ranges@[k]]
        0 <= i < t.len() && 0 <= k < t[i].ranges@.len() && t[i].file@ == file && t[i].ranges@[k] == r
}

fn insert_range(rs: &mut Vec<ElaboratedLineRange>, r: ElaboratedLineRange)
    requires
        ranges_ascending(old(rs)@),
    ensures
        ranges_ascending(final(rs)@),
        forall|x: ElaboratedLineRange| #[trigger] final(rs)@.contains(x) <==> (old(rs)@.contains(x) || x == r),
{
    let ghost before = rs@;
    let mut p: usize = 0;
    while p < rs.len() && (rs[p].start < r.start || (rs[p].start == r.start && rs[p].end < r.end))
        invariant
            rs@ == before,
            p <= rs@.len(),
            forall|a: int| 0 <= a < p ==> range_lt(rs@[a], r),
        decreases rs@.len() - p,
    {
        p = p + 1;
    }
    if p < rs.len() && rs[p].start == r.start && rs[p].end == r.end {
        proof {
            assert forall|x: ElaboratedLineRange| #[trigger] rs@.contains(x) <==> (before.contains(x) || x == r) by {
                if x == r {
                    assert(rs@[p as int] == x);
                }
            }
        }
        return;
    }
    rs.insert(p, r);
    proof {
        assert forall|a: int, b: int| 0 <= a < b < rs@.len() implies range_lt(rs@[a], rs@[b]) by {
            if a < p && b == p {
            } else if a == p && b > p {
                assert(rs@[b] == before[b - 1]);
                if b - 1 > p {
                    assert(range_lt(before[p as int], before[b - 1]));
                }
            } else if a < p && b > p {
                assert(rs@[b] == before[b - 1]);
                assert(range_lt(before[a], before[b - 1]) || a == b - 1);
            } else if b < p {
                assert(range_lt(before[a], before[b]));
            } else {
                assert(rs@[a] == before[a - 1]);
                assert(rs@[b] == before[b - 1]);
                assert(range_lt(before[a - 1], before[b - 1]));
            }
        }
        assert forall|x: ElaboratedLineRange| #[trigger] rs@.contains(x) <==> (before.contains(x) || x == r) by {
            if rs@.contains(x) {
                let w = choose|w: int| 0 <= w < rs@.len() && rs@[w] == x;
                if w < p {
                    assert(before[w] == x);
                } else if w > p {
                    assert(before[w - 1] == x);
                }
            }
            if before.contains(x) {
                let w = choose|w: int| 0 <= w < before.len() && before[w] == x;
                if w < p {
                    assert(rs@[w] == x);
                } else {
                    assert(rs@[w + 1] == x);
                }
            }
            if x == r {
                assert(rs@[p as int] == x);
            }
        }
    }
}

fn copy_ranges(rs: &Vec<ElaboratedLineRange>) -> (r: Vec<ElaboratedLineRange>)
    ensures
        r@ == rs@,
{
    let mut out: Vec<ElaboratedLineRange> = Vec::new();
    let mut i: usize = 0;
    while i < rs.len()
        invariant
            i <= rs@.len(),
            out@ == rs@.subrange(0, i as int),
        decreases rs@.len() - i,
    {
        out.push(rs[i]);
        proof {
            assert(rs@.subrange(0, i + 1) =~= rs@.subrange(0, i as int).push(rs@[i as int]));
        }
        i = i + 1;
    }
    proof {
        assert(rs@.subrange(0, rs@.len() as int) =~= rs@);
    }
    out
}

/// Records range `r` for `file`.
fn add_range(t: &mut Vec<FileRanges>, file: &str, r: ElaboratedLineRange)
    requires
        table_wf(old(t)@),
    ensures
        table_wf(final(t)@),
        forall|f: Seq<char>, x: ElaboratedLineRange| #[trigger] has_range(final(t)@, f, x) <==> (has_range(old(t)@, f, x) || (f == file@ && x == r)),
{
    let ghost before = t@;
    let mut i: usize = 0;
    while i < t.len()
        invariant
            t@ == before,
            before == old(t)@,
            table_wf(before),
            i <= t@.len(),
            forall|a: int| 0 <= a < i ==> t@[a].file@ != file@,
        decreases t@.len() - i,
    {
        if str_eq(t[i].file.as_str(), file) {
            let mut rs = copy_ranges(&t[i].ranges);
            insert_range(&mut rs, r);
            let ghost newrs = rs@;
            t.set(i, FileRanges { file: file.to_owned(), ranges: rs });
            proof {
                assert forall|a: int, b: int| 0 <= a < b < t@.len() implies t@[a].file@ != t@[b].file@ by {
                    assert(before[a].file@ != before[b].file@);
                }
                assert forall|a: int| 0 <= a < t@.len() implies ranges_ascending(#[trigger] t@[a].ranges@) by {
                    if a != i {
                        assert(t@[a] == before[a]);
                    }
                }
                assert forall|f: Seq<char>, x: ElaboratedLineRange| #[trigger] has_range(t@, f, x) <==> (has_range(before, f, x) || (f == file@ && x == r)) by {
                    if has_range(t@, f, x) {
                        let (a, k) = choose|a: int, k: int|
                            #![trigger t@[a].ranges@[k]]
                            0 <= a < t@.len() && 0 <= k < t@[a].ranges@.len() && t@[a].file@ == f && t@[a].ranges@[k] == x;
                        if a == i {
                            assert(newrs.contains(x));
                            if x != r {
                                assert(before[a].ranges@.contains(x));
                                let w = choose|w: int| 0 <= w < before[a].ranges@.len() && before[a].ranges@[w] == x;
                                assert(before[a].ranges@[w] == x);
                            }
                        } else {
                            assert(t@[a] == before[a]);
                            assert(before[a].ranges@[k] == x);
                        }
                    }
                    if has_range(before, f, x) {
                        let (a, k) = choose|a: int, k: int|
                            #![trigger before[a].ranges@[k]]
                            0 <= a < before.len() && 0 <= k < before[a].ranges@.len() && before[a].file@ == f && before[a].ranges@[k] == x;
                        if a == i {
                            assert(before[a].ranges@.contains(x));
                            assert(newrs.contains(x));
                            let w = choose|w: int| 0 <= w < newrs.len() && newrs[w] == x;
                            assert(t@[a].ranges@[w] == x);
                        } else {
                            assert(t@[a] == before[a]);
                            assert(t@[a].ranges@[k] == x);
                        }
                    }
                    if f == file@ && x == r {
                        assert(newrs.contains(x));
                        let w = choose|w: int| 0 <= w < newrs.len() && newrs[w] == x;
                        assert(t@[i as int].ranges@[w] == x);
                    }
                }
            }
            return;
        }
        i = i + 1;
    }
    let mut rs: Vec<ElaboratedLineRange> = Vec::new();
    rs.push(r);
    t.push(FileRanges { file: file.to_owned(), ranges: rs });
    proof {
        let n = before.len() as int;
        assert forall|f: Seq<char>, x: ElaboratedLineRange| #[trigger] has_range(t@, f, x) <==> (has_range(before, f, x) || (f == file@ && x == r)) by {
            if has_range(t@, f, x) {
                let (a, k) = choose|a: int, k: int|
                    #![trigger t@[a].ranges@[k]]
                    0 <= a < t@.len() && 0 <= k < t@[a].ranges@.len() && t@[a].file@ == f && t@[a].ranges@[k] == x;
                if a < n {
                    assert(before[a].ranges@[k] == x);
                }
            }
            if has_range(before, f, x) {
                let (a, k) = choose|a: int, k: int|
                    #![trigger before[a].ranges@[k]]
                    0 <= a < before.len() && 0 <= k < before[a].ranges@.len() && before[a].file@ == f && before[a].ranges@[k] == x;
                assert(t@[a].ranges@[k] == x);
            }
            if f == file@ && x == r {
                assert(t@[n].ranges@[0] == x);
            }
        }
    }
}

/// Whether some range of `file` in `t` meets the lines `line_start..=line_end`.
pub open spec fn intersects(t: Seq<FileRanges>, file: Seq<char>, line_start: usize, line_end: usize) -> bool {
    exists|r: ElaboratedLineRange| #[trigger] has_range(t, file, r) && r.start <= line_end && r.end >= line_start
}

fn range_intersects(t: &Vec<FileRanges>, file: &str, line_start: usize, line_end: usize) -> (r: bool)
    ensures
        r == intersects(t@, file_key(file@), line_start, line_end),
{
    let key = normalize_file_key(file);
    let mut i: usize = 0;
    while i < t.len()
        invariant
            key@ == file_key(file@),
            i <= t@.len(),
            forall|a: int, k: int|
                #![trigger t@[a].ranges@[k]]
                0 <= a < i && 0 <= k < t@[a].ranges@.len() && t@[a].file@ == key@ ==> !(t@[a].ranges@[k].start <= line_end
                    && t@[a].ranges@[k].end >= line_start),
        decreases t@.len() - i,
    {
        if str_eq(t[i].file.as_str(), key.as_str()) {
            let rs = &t[i].ranges;
            let mut k: usize = 0;
            while k < rs.len()
                invariant
                    key@ == file_key(file@),
                    i < t@.len(),
                    *rs == t@[i as int].ranges,
                    t@[i as int].file@ == key@,
                    k <= rs@.len(),
                    forall|b: int| 0 <= b < k ==> !(rs@[b].start <= line_end && rs@[b].end >= line_start),
                decreases rs@.len() - k,
            {
                if rs[k].start <= line_end && rs[k].end >= line_start {
                    proof {
                        assert(has_range(t@, key@, rs@[k as int]));
                        assert(has_range(t@, file_key(file@), rs@[k as int]));
                        assert(intersects(t@, file_key(file@), line_start, line_end));
                    }
                    return true;
                }
                k = k + 1;
            }
        }
        i = i + 1;
    }
    proof {
        assert forall|x: ElaboratedLineRange| #[trigger] has_range(t@, key@, x) implies !(x.start <= line_end && x.end >= line_start) by {
            let (a, k) = choose|a: int, k: int|
                #![trigger t@[a].ranges@[k]]
                0 <= a < t@.len() && 0 <= k < t@[a].ranges@.len() && t@[a].file@ == key@ && t@[a].ranges@[k] == x;
        }
    }
    false
}

/// Verilator file ids and the keys of the files they stand for.
#[derive(Debug)]
pub struct FileMap {
    entries: Vec<FileMapEntry>,
}

impl FileMap {
    #[verifier::type_invariant]
    spec fn inv(self) -> bool {
        map_ids_distinct(self.entries@)
    }

    /// The key this map gives for `id`.
    pub closed spec fn lookup_spec(&self, id: Seq<char>) -> Option<Seq<char>> {
        map_lookup(self.entries@, id)
    }

    pub fn new() -> (r: Self)
        ensures
            forall|id: Seq<char>| #[trigger] r.lookup_spec(id) is None,
    {
        FileMap { entries: Vec::new() }
    }

    /// Maps `id` to `path`, replacing an earlier mapping of `id`.
    pub fn insert(&mut self, id: &str, path: String)
        ensures
            forall|k: Seq<char>| #[trigger] final(self).lookup_spec(k) == if k == id@ {
                Some(path@)
            } else {
                old(self).lookup_spec(k)
            },
    {
        proof {
            use_type_invariant(&*self);
        }
        let mut entries: Vec<FileMapEntry> = Vec::new();
        std::mem::swap(&mut entries, &mut self.entries);
        insert_file(&mut entries, id, path);
        self.entries = entries;
    }

    /// The key this map gives for `id`.
    pub fn get(&self, id: &str) -> (r: Option<&str>)
        ensures
            match r {
                Some(p) => self.lookup_spec(id@) == Some(p@),
                None => self.lookup_spec(id@) is None,
            },
    {
        proof {
            use_type_invariant(self);
        }
        match find_file(&self.entries, id) {
            Some(i) => {
                proof {
                    lemma_map_lookup_at(self.entries@, i as int);
                }
                Some(self.entries[i].path.as_str())
            },
            None => None,
        }
    }
}

/// The file map of a Verilator tree metadata document: file ids to file
/// keys, a later entry for an id replacing an earlier one.
pub fn collect_file_map(root: &JsonValue) -> (r: FileMap)
    ensures
        forall|id: Seq<char>| #[trigger] r.lookup_spec(id) == last_mapping(meta_pairs(*root), id),
{
    FileMap { entries: collect_file_entries(root) }
}

/// The text member `key` of the object `o`.
pub open spec fn obj_str(o: Seq<JsonField>, key: Seq<char>) -> Option<Seq<char>> {
    match field_index(o, key) {
        Some(i) => json_str(Some(o[i].value)),
        None => None,
    }
}

/// The node type, file key and line range that an object of the tree stands
/// for, when it has a type and a usable location.
pub open spec fn object_site(o: Seq<JsonField>, fm: FileMap) -> Option<(Seq<char>, Seq<char>, ElaboratedLineRange)> {
    match (obj_str(o, "type"@), obj_str(o, "loc"@)) {
        (Some(t), Some(loc)) => match verilator_loc(loc) {
            Some((fref, r)) => Some(
                (
                    t,
                    match fm.lookup_spec(fref) {
                        Some(p) => p,
                        None => file_key(fref),
                    },
                    r,
                ),
            ),
            None => None,
        },
        _ => None,
    }
}

pub open spec fn assign_like_type(t: Seq<char>) -> bool {
    t == "ASSIGN"@ || t == "ASSIGNW"@ || t == "ASSIGNDLY"@
}

/// Object `o` records the range `r` of `file` as an assignment.
pub open spec fn adds_assign_like(o: Seq<JsonField>, fm: FileMap, file: Seq<char>, r: ElaboratedLineRange) -> bool {
    match object_site(o, fm) {
        Some((t, k, rr)) => assign_like_type(t) && k == file && rr == r,
        None => false,
    }
}

/// Object `o` records the range `r` of `file` as an always block.
pub open spec fn adds_always(o: Seq<JsonField>, fm: FileMap, file: Seq<char>, r: ElaboratedLineRange) -> bool {
    match object_site(o, fm) {
        Some((t, k, rr)) => t == "ALWAYS"@ && k == file && rr == r,
        None => false,
    }
}

/// `x` is the name `m` of an instance or its last dotted segment.
pub open spec fn instance_name_of(m: Seq<char>, x: Seq<char>) -> bool {
    x == m || x == after_last(m, '.')
}

/// Object `o` is an instance (`CELL`) named, or originally named, `x`.
pub open spec fn adds_instance(o: Seq<JsonField>, fm: FileMap, x: Seq<char>) -> bool {
    match object_site(o, fm) {
        Some((t, _, _)) => t == "CELL"@ && ((match obj_str(o, "name"@) {
            Some(m) => instance_name_of(m, x),
            None => false,
        }) || (match obj_str(o, "origName"@) {
            Some(m) => instance_name_of(m, x),
            None => false,
        })),
        None => false,
    }
}

pub open spec fn has_name(names: Seq<String>, x: Seq<char>) -> bool {
    exists|i: int| 0 <= i < names.len() && #[trigger] names[i]@ == x
}

pub open spec fn names_distinct(names: Seq<String>) -> bool {
    forall|i: int, j: int| 0 <= i < j < names.len() ==> names[i]@ != names[j]@
}

fn insert_name(names: &mut Vec<String>, x: &[char])
    requires
        names_distinct(old(names)@),
    ensures
        names_distinct(final(names)@),
        forall|n: Seq<char>| #[trigger] has_name(final(names)@, n) <==> (has_name(old(names)@, n) || n == x@),
{
    let ghost before = names@;
    let mut i: usize = 0;
    while i < names.len()
        invariant
            names@ == before,
            before == old(names)@,
            names_distinct(before),
            i <= names@.len(),
            forall|a: int| 0 <= a < i ==> names@[a]@ != x@,
        decreases names@.len() - i,
    {
        let cs = chars_of(names[i].as_str());
        if crate::text::chars_eq(cs.as_slice(), x) {
            proof {
                assert forall|n: Seq<char>| #[trigger] has_name(names@, n) <==> (has_name(before, n) || n == x@) by {
                    if n == x@ {
                        assert(names@[i as int]@ == n);
                    }
                }
            }
            return;
        }
        i = i + 1;
    }
    names.push(string_of(x));
    proof {
        assert forall|n: Seq<char>| #[trigger] has_name(names@, n) <==> (has_name(before, n) || n == x@) by {
            if has_name(names@, n) {
                let w = choose|w: int| 0 <= w < names@.len() && #[trigger] names@[w]@ == n;
                if w < before.len() {
                    assert(before[w]@ == n);
                }
            }
            if has_name(before, n) {
                let w = choose|w: int| 0 <= w < before.len() && #[trigger] before[w]@ == n;
                assert(names@[w]@ == n);
            }
            if n == x@ {
                assert(names@[before.len() as int]@ == n);
            }
        }
    }
}

/// Records an instance name and its last dotted segment.
fn insert_instance_name(names: &mut Vec<String>, name: &str)
    requires
        names_distinct(old(names)@),
    ensures
        names_distinct(final(names)@),
        forall|n: Seq<char>| #[trigger] has_name(final(names)@, n) <==> (has_name(old(names)@, n) || instance_name_of(name@, n)),
{
    let cs = chars_of(name);
    insert_name(names, cs.as_slice());
    let leaf = after_last_char(cs.as_slice(), '.');
    insert_name(names, leaf.as_slice());
}

/// One thing an elaboration index can record.
pub enum IndexFact {
    AssignLike(Seq<char>, ElaboratedLineRange),
    Always(Seq<char>, ElaboratedLineRange),
    Instance(Seq<char>),
}

/// Object `o` of a Verilator tree makes the index record `fact`.
pub open spec fn adds_fact(o: Seq<JsonField>, fm: FileMap, fact: IndexFact) -> bool {
    match fact {
        IndexFact::AssignLike(f, x) => adds_assign_like(o, fm, f, x),
        IndexFact::Always(f, x) => adds_always(o, fm, f, x),
        IndexFact::Instance(n) => adds_instance(o, fm, n),
    }
}

/// Which source lines Verilator elaborated, per file, as assignments and as
/// always blocks, and the names of the instances it elaborated.
#[derive(Debug)]
pub struct VerilatorElaborationIndex {
    assign_like_ranges_by_file: Vec<FileRanges>,
    always_ranges_by_file: Vec<FileRanges>,
    instance_names: Vec<String>,
}

impl VerilatorElaborationIndex {
    #[verifier::type_invariant]
    spec fn inv(self) -> bool {
        &&& table_wf(self.assign_like_ranges_by_file@)
        &&& table_wf(self.always_ranges_by_file@)
        &&& names_distinct(self.instance_names@)
    }

    /// The index records range `r` of `file` as an assignment.
    pub closed spec fn assign_like(&self, file: Seq<char>, r: ElaboratedLineRange) -> bool {
        has_range(self.assign_like_ranges_by_file@, file, r)
    }

    /// The index records range `r` of `file` as an always block.
    pub closed spec fn always(&self, file: Seq<char>, r: ElaboratedLineRange) -> bool {
        has_range(self.always_ranges_by_file@, file, r)
    }

    /// The index records the instance name `x`.
    pub closed spec fn instance(&self, x: Seq<char>) -> bool {
        has_name(self.instance_names@, x)
    }

    /// An index that records nothing.
    pub fn new() -> (r: Self)
        ensures
            forall|f: Seq<char>, x: ElaboratedLineRange| !r.assign_like(f, x) && !r.always(f, x),
            forall|x: Seq<char>| !r.instance(x),
    {
        VerilatorElaborationIndex {
            assign_like_ranges_by_file: Vec::new(),
            always_ranges_by_file: Vec::new(),
            instance_names: Vec::new(),
        }
    }

    fn collect_object(&mut self, fields: &Vec<JsonField>, fm: &FileMap)
        ensures
            forall|f: Seq<char>, x: ElaboratedLineRange| #[trigger] final(self).assign_like(f, x) <==> (old(self).assign_like(f, x)
                || adds_assign_like(fields@, *fm, f, x)),
            forall|f: Seq<char>, x: ElaboratedLineRange| #[trigger] final(self).always(f, x) <==> (old(self).always(f, x)
                || adds_always(fields@, *fm, f, x)),
            forall|n: Seq<char>| #[trigger] final(self).instance(n) <==> (old(self).instance(n) || adds_instance(fields@, *fm, n)),
    {
        proof {
            use_type_invariant(&*self);
        }
        let node_type = match as_str(get_field(fields, "type")) {
            Some(t) => t,
            None => {
                return;
            },
        };
        let loc = match as_str(get_field(fields, "loc")) {
            Some(l) => l,
            None => {
                return;
            },
        };
        let (file_ref, range) = match parse_verilator_loc(loc) {
            Some(p) => p,
            None => {
                return;
            },
        };
        let file = match fm.get(file_ref.as_str()) {
            Some(p) => p.to_owned(),
            None => normalize_file_key(file_ref.as_str()),
        };
        proof {
            assert(object_site(fields@, *fm) == Some((node_type@, file@, range)));
            reveal_strlit("ALWAYS");
            reveal_strlit("ASSIGN");
            reveal_strlit("ASSIGNW");
            reveal_strlit("ASSIGNDLY");
            assert("ASSIGN"@[1] != "ALWAYS"@[1]);
            assert("ASSIGNW"@.len() != "ALWAYS"@.len());
            assert("ASSIGNDLY"@.len() != "ALWAYS"@.len());
        }
        let mut names: Vec<String> = Vec::new();
        std::mem::swap(&mut names, &mut self.instance_names);
        if str_eq(node_type, "CELL") {
            match as_str(get_field(fields, "name")) {
                Some(name) => insert_instance_name(&mut names, name),
                None => {},
            }
            match as_str(get_field(fields, "origName")) {
                Some(name) => insert_instance_name(&mut names, name),
                None => {},
            }
        }
        self.instance_names = names;
        if str_eq(node_type, "ASSIGN") || str_eq(node_type, "ASSIGNW") || str_eq(node_type, "ASSIGNDLY") {
            let mut t: Vec<FileRanges> = Vec::new();
            std::mem::swap(&mut t, &mut self.assign_like_ranges_by_file);
            add_range(&mut t, file.as_str(), range);
            self.assign_like_ranges_by_file = t;
        } else if str_eq(node_type, "ALWAYS") {
            let mut t: Vec<FileRanges> = Vec::new();
            std::mem::swap(&mut t, &mut self.always_ranges_by_file);
            add_range(&mut t, file.as_str(), range);
            self.always_ranges_by_file = t;
        }
    }
}

impl VerilatorElaborationIndex {
    /// Whether the index records `fact`.
    pub open spec fn has_fact(&self, fact: IndexFact) -> bool {
        match fact {
            IndexFact::AssignLike(f, x) => self.assign_like(f, x),
            IndexFact::Always(f, x) => self.always(f, x),
            IndexFact::Instance(n) => self.instance(n),
        }
    }

    /// Records what every object of the tree `v` stands for.
    fn collect_value(&mut self, v: &JsonValue, fm: &FileMap)
        ensures
            forall|fact: IndexFact| #[trigger] final(self).has_fact(fact) <==> (old(self).has_fact(fact) || exists|o: Seq<JsonField>|
                object_in_tree(*v, o) && #[trigger] adds_fact(o, *fm, fact)),
        decreases v,
    {
        let ghost start = *self;
        match v {
            JsonValue::Object(fields) => {
                self.collect_object(fields, fm);
                let mut i: usize = 0;
                while i < fields.len()
                    invariant
                        *v == JsonValue::Object(*fields),
                        i <= fields@.len(),
                        forall|fact: IndexFact| #[trigger] self.has_fact(fact) <==> (start.has_fact(fact) || adds_fact(fields@, *fm, fact)
                            || exists|o: Seq<JsonField>, k: int|
                            0 <= k < i && #[trigger] object_in_tree(fields@[k].value, o) && #[trigger] adds_fact(o, *fm, fact)),
                    decreases fields@.len() - i,
                {
                    proof {
                        assert(decreases_to!(*v => (*v)->Object_0));
                        assert(decreases_to!(*fields => fields@));
                        assert(decreases_to!(fields@ => fields@[i as int]));
                        assert(decreases_to!(fields@[i as int] => fields@[i as int].value));
                    }
                    let ghost before = *self;
                    self.collect_value(&fields[i].value, fm);
                    proof {
                        assert forall|fact: IndexFact| #[trigger] self.has_fact(fact) <==> (start.has_fact(fact) || adds_fact(fields@, *fm, fact)
                            || exists|o: Seq<JsonField>, k: int|
                            0 <= k < i + 1 && #[trigger] object_in_tree(fields@[k].value, o) && #[trigger] adds_fact(o, *fm, fact)) by {
                            if exists|o: Seq<JsonField>, k: int|
                                0 <= k < i + 1 && #[trigger] object_in_tree(fields@[k].value, o) && #[trigger] adds_fact(o, *fm, fact) {
                                let (o, k) = choose|o: Seq<JsonField>, k: int|
                                    0 <= k < i + 1 && #[trigger] object_in_tree(fields@[k].value, o) && #[trigger] adds_fact(o, *fm, fact);
                                if k < i {
                                    assert(before.has_fact(fact));
                                }
                            }
                        }
                    }
                    i = i + 1;
                }
                proof {
                    assert forall|fact: IndexFact| #[trigger] self.has_fact(fact) <==> (start.has_fact(fact) || exists|o: Seq<JsonField>|
                        object_in_tree(*v, o) && #[trigger] adds_fact(o, *fm, fact)) by {
                        if exists|o: Seq<JsonField>| object_in_tree(*v, o) && #[trigger] adds_fact(o, *fm, fact) {
                            let o = choose|o: Seq<JsonField>| object_in_tree(*v, o) && #[trigger] adds_fact(o, *fm, fact);
                            lemma_object_in_tree_cases(*v, o);
                            if o != fields@ {
                                let k = choose|k: int| 0 <= k < fields@.len() && #[trigger] object_in_tree(fields@[k].value, o);
                            }
                        }
                        if self.has_fact(fact) && !start.has_fact(fact) {
                            if adds_fact(fields@, *fm, fact) {
                                lemma_object_root(*fields);
                            } else {
                                let (o, k) = choose|o: Seq<JsonField>, k: int|
                                    0 <= k < fields@.len() && #[trigger] object_in_tree(fields@[k].value, o) && #[trigger] adds_fact(o, *fm, fact);
                                lemma_object_member(*fields, k, o);
                            }
                        }
                    }
                }
            },
            JsonValue::Array(xs) => {
                let mut i: usize = 0;
                while i < xs.len()
                    invariant
                        *v == JsonValue::Array(*xs),
                        i <= xs@.len(),
                        forall|fact: IndexFact| #[trigger] self.has_fact(fact) <==> (start.has_fact(fact) || exists|o: Seq<JsonField>, k: int|
                            0 <= k < i && #[trigger] object_in_tree(xs@[k], o) && #[trigger] adds_fact(o, *fm, fact)),
                    decreases xs@.len() - i,
                {
                    proof {
                        assert(decreases_to!(*v => (*v)->Array_0));
                        assert(decreases_to!(*xs => xs@));
                        assert(decreases_to!(xs@ => xs@[i as int]));
                    }
                    let ghost before = *self;
                    self.collect_value(&xs[i], fm);
                    proof {
                        assert forall|fact: IndexFact| #[trigger] self.has_fact(fact) <==> (start.has_fact(fact) || exists|o: Seq<JsonField>, k: int|
                            0 <= k < i + 1 && #[trigger] object_in_tree(xs@[k], o) && #[trigger] adds_fact(o, *fm, fact)) by {
                            if exists|o: Seq<JsonField>, k: int| 0 <= k < i + 1 && #[trigger] object_in_tree(xs@[k], o) && #[trigger] adds_fact(o, *fm, fact) {
                                let (o, k) = choose|o: Seq<JsonField>, k: int|
                                    0 <= k < i + 1 && #[trigger] object_in_tree(xs@[k], o) && #[trigger] adds_fact(o, *fm, fact);
                                if k < i {
                                    assert(before.has_fact(fact));
                                }
                            }
                        }
                    }
                    i = i + 1;
                }
                proof {
                    assert forall|fact: IndexFact| #[trigger] self.has_fact(fact) <==> (start.has_fact(fact) || exists|o: Seq<JsonField>|
                        object_in_tree(*v, o) && #[trigger] adds_fact(o, *fm, fact)) by {
                        if exists|o: Seq<JsonField>| object_in_tree(*v, o) && #[trigger] adds_fact(o, *fm, fact) {
                            let o = choose|o: Seq<JsonField>| object_in_tree(*v, o) && #[trigger] adds_fact(o, *fm, fact);
                            lemma_object_in_tree_cases(*v, o);
                            let k = choose|k: int| 0 <= k < xs@.len() && #[trigger] object_in_tree(xs@[k], o);
                        }
                        if self.has_fact(fact) && !start.has_fact(fact) {
                            let (o, k) = choose|o: Seq<JsonField>, k: int|
                                0 <= k < xs@.len() && #[trigger] object_in_tree(xs@[k], o) && #[trigger] adds_fact(o, *fm, fact);
                            lemma_object_element(*xs, k, o);
                        }
                    }
                }
            },
            _ => {
                proof {
                    assert forall|o: Seq<JsonField>| !object_in_tree(*v, o) by {
                        if object_in_tree(*v, o) {
                            lemma_object_in_tree_cases(*v, o);
                        }
                    }
                }
            },
        }
    }

    /// The index of a Verilator tree (`--json-only` output) whose file ids
    /// `file_map` resolves: the line ranges of its assignments and always
    /// blocks per file, and the names of its instances.
    pub fn from_tree_json(root: &JsonValue, file_map: &FileMap) -> (r: Self)
        ensures
            forall|fact: IndexFact| #[trigger] r.has_fact(fact) <==> exists|o: Seq<JsonField>|
                object_in_tree(*root, o) && #[trigger] adds_fact(o, *file_map, fact),
    {
        let mut index = Self::new();
        index.collect_value(root, file_map);
        index
    }

    /// Whether some recorded assignment of `file` meets the lines `line_start..=line_end`.
    pub fn is_assign_like_elaborated(&self, file: &str, line_start: usize, line_end: usize) -> (r: bool)
        ensures
            r == exists|x: ElaboratedLineRange| #[trigger] self.assign_like(file_key(file@), x) && x.start <= line_end && x.end >= line_start,
    {
        let r = range_intersects(&self.assign_like_ranges_by_file, file, line_start, line_end);
        proof {
            if r {
                let x = choose|x: ElaboratedLineRange| #[trigger] has_range(self.assign_like_ranges_by_file@, file_key(file@), x) && x.start <= line_end && x.end >= line_start;
                assert(self.assign_like(file_key(file@), x));
            }
        }
        r
    }

    /// Whether some recorded always block of `file` meets the lines `line_start..=line_end`.
    pub fn is_always_elaborated(&self, file: &str, line_start: usize, line_end: usize) -> (r: bool)
        ensures
            r == exists|x: ElaboratedLineRange| #[trigger] self.always(file_key(file@), x) && x.start <= line_end && x.end >= line_start,
    {
        let r = range_intersects(&self.always_ranges_by_file, file, line_start, line_end);
        proof {
            if r {
                let x = choose|x: ElaboratedLineRange| #[trigger] has_range(self.always_ranges_by_file@, file_key(file@), x) && x.start <= line_end && x.end >= line_start;
                assert(self.always(file_key(file@), x));
            }
        }
        r
    }

    /// Whether some recorded assignment or always block of `file` meets the
    /// lines `line_start..=line_end`.
    pub fn is_block_elaborated(&self, file: &str, line_start: usize, line_end: usize) -> (r: bool)
        ensures
            r == ((exists|x: ElaboratedLineRange| #[trigger] self.assign_like(file_key(file@), x) && x.start <= line_end && x.end >= line_start)
                || (exists|x: ElaboratedLineRange| #[trigger] self.always(file_key(file@), x) && x.start <= line_end && x.end >= line_start)),
    {
        self.is_assign_like_elaborated(file, line_start, line_end) || self.is_always_elaborated(file, line_start, line_end)
    }

    /// Whether the instance `scope` was elaborated: always when no instance
    /// is recorded or the scope has at most two levels; otherwise when the
    /// scope ends with the dotted path of a recorded instance.
    pub fn is_scope_elaborated(&self, scope: &str) -> (r: bool)
        ensures
            r == ((forall|x: Seq<char>| !#[trigger] self.instance(x)) || split_char(scope@, '.').len() <= 2 || exists|x: Seq<char>|
                #[trigger] self.instance(x) && ends_with_instance(split_char(scope@, '.'), x)),
    {
        if self.instance_names.len() == 0 {
            proof {
                assert forall|x: Seq<char>| !#[trigger] self.instance(x) by {
                    if self.instance(x) {
                        let w = choose|w: int| 0 <= w < self.instance_names@.len() && #[trigger] self.instance_names@[w]@ == x;
                    }
                }
            }
            return true;
        }
        proof {
            assert(self.instance(self.instance_names@[0]@));
        }
        let sc = chars_of(scope);
        let parts = split_chars(sc.as_slice(), '.');
        if parts.len() <= 2 {
            return true;
        }
        let mut i: usize = 0;
        while i < self.instance_names.len()
            invariant
                views_of(parts@) == split_char(scope@, '.'),
                i <= self.instance_names@.len(),
                forall|a: int| 0 <= a < i ==> !ends_with_instance(split_char(scope@, '.'), #[trigger] self.instance_names@[a]@),
            decreases self.instance_names@.len() - i,
        {
            if scope_ends_with_instance(&parts, self.instance_names[i].as_str()) {
                proof {
                    assert(self.instance(self.instance_names@[i as int]@));
                }
                return true;
            }
            i = i + 1;
        }
        proof {
            assert forall|x: Seq<char>| #[trigger] self.instance(x) implies !ends_with_instance(split_char(scope@, '.'), x) by {
                let w = choose|w: int| 0 <= w < self.instance_names@.len() && #[trigger] self.instance_names@[w]@ == x;
            }
        }
        false
    }
}

/// A coverage tracker whose elaboration answers come from a Verilator
/// elaboration index; the rest goes to the wrapped tracker.
pub struct ElaboratedCoverageTracker<C: CoverageTracker> {
    inner: Arc<C>,
    elaboration: VerilatorElaborationIndex,
}

impl<C: CoverageTracker> ElaboratedCoverageTracker<C> {
    /// The index this tracker answers elaboration questions from.
    pub closed spec fn spec_elaboration(&self) -> VerilatorElaborationIndex {
        self.elaboration
    }

    /// The tracker this one hands coverage questions to.
    pub closed spec fn spec_inner(&self) -> C {
        *self.inner
    }

    pub fn new(inner: Arc<C>, elaboration: VerilatorElaborationIndex) -> (r: Self)
        ensures
            r.spec_elaboration() == elaboration,
            r.spec_inner() == *inner,
    {
        ElaboratedCoverageTracker { inner, elaboration }
    }
}

impl<C: CoverageTracker> CoverageTracker for ElaboratedCoverageTracker<C> {
    open spec fn line_covered(&self, file: Seq<char>, line: usize, time: Timestamp) -> Result<bool, SvaError> {
        self.spec_inner().line_covered(file, line, time)
    }

    open spec fn hit_count(&self, file: Seq<char>, line: usize, time: Timestamp) -> Result<u64, SvaError> {
        self.spec_inner().hit_count(file, line, time)
    }

    open spec fn delta_hit_count(&self, file: Seq<char>, line: usize, time: Timestamp) -> Result<u64, SvaError> {
        self.spec_inner().delta_hit_count(file, line, time)
    }

    open spec fn period_of_clock(&self) -> Option<i64> {
        self.spec_inner().period_of_clock()
    }

    open spec fn posedge(&self, time: i64) -> bool {
        self.spec_inner().posedge(time)
    }

    open spec fn scoped_line_covered(&self, scope: Seq<char>, file: Seq<char>, line: usize, time: Timestamp) -> Result<bool, SvaError> {
        self.spec_inner().scoped_line_covered(scope, file, line, time)
    }

    open spec fn block_elaborated(&self, file: Seq<char>, line_start: usize, line_end: usize) -> bool {
        (exists|x: ElaboratedLineRange| #[trigger] self.spec_elaboration().assign_like(file_key(file), x) && x.start <= line_end
            && x.end >= line_start) || (exists|x: ElaboratedLineRange| #[trigger] self.spec_elaboration().always(file_key(file), x)
            && x.start <= line_end && x.end >= line_start)
    }

    open spec fn scope_elaborated(&self, scope: Seq<char>) -> bool {
        (forall|x: Seq<char>| !#[trigger] self.spec_elaboration().instance(x)) || split_char(scope, '.').len() <= 2
            || exists|x: Seq<char>| #[trigger] self.spec_elaboration().instance(x) && ends_with_instance(split_char(scope, '.'), x)
    }

    fn is_line_covered_at(&self, file: &str, line: usize, time: Timestamp) -> (r: Result<bool, SvaError>) {
        self.inner.is_line_covered_at(file, line, time)
    }

    fn is_scoped_line_covered_at(&self, scope: &str, file: &str, line: usize, time: Timestamp) -> (r: Result<
        bool,
        SvaError,
    >) {
        self.inner.is_scoped_line_covered_at(scope, file, line, time)
    }

    fn hit_count_at(&self, file: &str, line: usize, time: Timestamp) -> (r: Result<u64, SvaError>) {
        self.inner.hit_count_at(file, line, time)
    }

    fn delta_hits(&self, file: &str, line: usize, time: Timestamp) -> (r: Result<u64, SvaError>) {
        self.inner.delta_hits(file, line, time)
    }

    fn clock_period(&self) -> (r: Option<i64>) {
        self.inner.clock_period()
    }

    fn is_posedge_time(&self, time: i64) -> (r: bool) {
        self.inner.is_posedge_time(time)
    }

    fn is_block_elaborated(&self, file: &str, line_start: usize, line_end: usize) -> (r: bool) {
        proof {
            assert(self.spec_elaboration() == self.elaboration);
        }
        self.elaboration.is_block_elaborated(file, line_start, line_end)
    }

    fn is_scope_elaborated(&self, scope: &str) -> (r: bool) {
        proof {
            assert(self.spec_elaboration() == self.elaboration);
        }
        self.elaboration.is_scope_elaborated(scope)
    }
}

} // verus!
